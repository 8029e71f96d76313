use stor::{get_relative_target, DirEntry, EntryKind, Fs, Module, Node, Report, Stor};

fn p(parts: &[&str]) -> Vec<String> {
    parts.iter().map(|s| s.to_string()).collect()
}

fn file(name: &str) -> DirEntry {
    DirEntry { name: name.to_string(), node: Node::File }
}

fn dir(name: &str, entries: Vec<DirEntry>) -> DirEntry {
    DirEntry { name: name.to_string(), node: Node::Dir { entries } }
}

fn module(root: &[&str], entries: Vec<DirEntry>) -> Module {
    Module { root: p(root), tree: Node::Dir { entries } }
}

fn stor(delete: bool, restow: bool, copy: bool, overwrite: bool, simulate: bool) -> Stor {
    Stor::new(delete, restow, copy, overwrite, simulate)
}

/// An empty target directory `home` plus the module `pkg` holding
/// `a.txt` and `sub/b.txt`.
fn example_setup() -> (Module, Vec<String>, Fs) {
    let m = module(
        &["pkg"],
        vec![file("a.txt"), dir("sub", vec![file("b.txt")])],
    );
    let target = p(&["home"]);
    let mut fs = Fs::new();
    fs.set(p(&["home"]), EntryKind::Dir);
    (m, target, fs)
}

#[test]
fn maps_suffix_onto_target_root() {
    let r = get_relative_target(&p(&["pkg", "sub", "b.txt"]), &p(&["pkg"]), &p(&["home"]));
    assert_eq!(r, p(&["home", "sub", "b.txt"]));
}

#[test]
fn maps_module_root_to_target_root() {
    let r = get_relative_target(&p(&["pkg"]), &p(&["pkg"]), &p(&["home"]));
    assert_eq!(r, p(&["home"]));
}

#[test]
fn stow_links_files_and_dirs_into_empty_target() {
    let (m, target, mut fs) = example_setup();
    let st = stor(false, false, false, false, false);
    let reports = st.stow(&m, &target, &mut fs);
    assert_eq!(
        fs.lookup(&p(&["home", "a.txt"])),
        Some(EntryKind::Symlink(p(&["pkg", "a.txt"])))
    );
    assert_eq!(
        fs.lookup(&p(&["home", "sub"])),
        Some(EntryKind::Symlink(p(&["pkg", "sub"])))
    );
    assert_eq!(reports.len(), 2);
    assert!(matches!(reports[0], Report::Link { .. }));
    assert!(matches!(reports[1], Report::Link { .. }));
}

#[test]
fn unstow_after_stow_leaves_target_empty_again() {
    let (m, target, mut fs) = example_setup();
    let st = stor(false, false, false, false, false);
    st.stow(&m, &target, &mut fs);
    let un = stor(true, false, false, false, false);
    un.unstow(&m, &target, &mut fs);
    assert_eq!(fs.lookup(&p(&["home", "a.txt"])), None);
    assert_eq!(fs.lookup(&p(&["home", "sub"])), None);
    assert_eq!(fs.lookup(&p(&["home"])), Some(EntryKind::Dir));
    assert!(!fs.has_child(&p(&["home"])));
}

#[test]
fn stow_twice_changes_nothing_and_only_skips() {
    // a pre-existing shared directory forces the merge recursion too
    let m = module(
        &["pkg"],
        vec![file("a.txt"), dir("cfg", vec![file("b.txt")])],
    );
    let target = p(&["home"]);
    let mut fs = Fs::new();
    fs.set(p(&["home"]), EntryKind::Dir);
    fs.set(p(&["home", "cfg"]), EntryKind::Dir);
    let st = stor(false, false, false, false, false);
    st.stow(&m, &target, &mut fs);
    let first_a = fs.lookup(&p(&["home", "a.txt"]));
    let first_b = fs.lookup(&p(&["home", "cfg", "b.txt"]));
    let again = st.stow(&m, &target, &mut fs);
    assert_eq!(fs.lookup(&p(&["home", "a.txt"])), first_a);
    assert_eq!(fs.lookup(&p(&["home", "cfg", "b.txt"])), first_b);
    assert_eq!(fs.lookup(&p(&["home", "cfg"])), Some(EntryKind::Dir));
    assert!(!again.is_empty());
    for r in &again {
        assert!(matches!(
            r,
            Report::SkipExisting { .. } | Report::SkipConflict { .. }
        ));
    }
}

#[test]
fn unstow_restores_clean_target_and_keeps_shared_dirs() {
    // target already shares the directory `cfg`, holding unrelated `keep`
    let m = module(&["pkg"], vec![dir("cfg", vec![file("mine.txt")])]);
    let target = p(&["home"]);
    let mut fs = Fs::new();
    fs.set(p(&["home"]), EntryKind::Dir);
    fs.set(p(&["home", "cfg"]), EntryKind::Dir);
    fs.set(p(&["home", "cfg", "keep"]), EntryKind::File);
    let st = stor(false, false, false, false, false);
    st.stow(&m, &target, &mut fs);
    assert_eq!(
        fs.lookup(&p(&["home", "cfg", "mine.txt"])),
        Some(EntryKind::Symlink(p(&["pkg", "cfg", "mine.txt"])))
    );
    let un = stor(true, false, false, false, false);
    un.unstow(&m, &target, &mut fs);
    assert_eq!(fs.lookup(&p(&["home", "cfg", "mine.txt"])), None);
    assert_eq!(fs.lookup(&p(&["home", "cfg"])), Some(EntryKind::Dir));
    assert_eq!(fs.lookup(&p(&["home", "cfg", "keep"])), Some(EntryKind::File));
}

#[test]
fn restow_matches_fresh_stow() {
    let (m, target, mut fs) = example_setup();
    let st = stor(false, false, false, false, false);
    st.stow(&m, &target, &mut fs);
    let rs = stor(false, true, false, false, false);
    let reports = rs.restow(&m, &target, &mut fs);
    let (m2, target2, mut fresh) = example_setup();
    st.stow(&m2, &target2, &mut fresh);
    for path in [
        p(&["home", "a.txt"]),
        p(&["home", "sub"]),
        p(&["home", "sub", "b.txt"]),
        p(&["home"]),
    ] {
        assert_eq!(fs.lookup(&path), fresh.lookup(&path));
    }
    // unlink reports for the two old links, then the two new links
    assert!(matches!(reports[0], Report::Unlink { .. }));
    assert!(matches!(reports[reports.len() - 1], Report::Link { .. }));
}

#[test]
fn stow_merges_into_existing_dir_instead_of_replacing() {
    // target has directory `d` with unrelated file `x`; module adds `d/y`
    let m = module(&["pkg"], vec![dir("d", vec![file("y")])]);
    let target = p(&["home"]);
    let mut fs = Fs::new();
    fs.set(p(&["home"]), EntryKind::Dir);
    fs.set(p(&["home", "d"]), EntryKind::Dir);
    fs.set(p(&["home", "d", "x"]), EntryKind::File);
    let st = stor(false, false, false, false, false);
    st.stow(&m, &target, &mut fs);
    assert_eq!(fs.lookup(&p(&["home", "d"])), Some(EntryKind::Dir));
    assert_eq!(fs.lookup(&p(&["home", "d", "x"])), Some(EntryKind::File));
    assert_eq!(
        fs.lookup(&p(&["home", "d", "y"])),
        Some(EntryKind::Symlink(p(&["pkg", "d", "y"])))
    );
}

#[test]
fn plain_file_is_kept_and_reported_without_overwrite() {
    let m = module(&["pkg"], vec![file("a.txt")]);
    let target = p(&["home"]);
    let mut fs = Fs::new();
    fs.set(p(&["home"]), EntryKind::Dir);
    fs.set(p(&["home", "a.txt"]), EntryKind::File);
    let st = stor(false, false, false, false, false);
    let reports = st.stow(&m, &target, &mut fs);
    assert_eq!(fs.lookup(&p(&["home", "a.txt"])), Some(EntryKind::File));
    assert_eq!(reports.len(), 1);
    assert!(matches!(reports[0], Report::SkipConflict { .. }));
}

#[test]
fn plain_file_is_replaced_with_overwrite() {
    let m = module(&["pkg"], vec![file("a.txt")]);
    let target = p(&["home"]);
    let mut fs = Fs::new();
    fs.set(p(&["home"]), EntryKind::Dir);
    fs.set(p(&["home", "a.txt"]), EntryKind::File);
    let st = stor(false, false, false, true, false);
    let reports = st.stow(&m, &target, &mut fs);
    assert_eq!(
        fs.lookup(&p(&["home", "a.txt"])),
        Some(EntryKind::Symlink(p(&["pkg", "a.txt"])))
    );
    assert_eq!(reports.len(), 2);
    assert!(matches!(reports[0], Report::Deleted { .. }));
    assert!(matches!(reports[1], Report::Link { .. }));
}

#[test]
fn wrong_symlink_is_replaced_only_with_overwrite() {
    let m = module(&["pkg"], vec![file("a.txt")]);
    let target = p(&["home"]);
    let mut fs = Fs::new();
    fs.set(p(&["home"]), EntryKind::Dir);
    fs.set(
        p(&["home", "a.txt"]),
        EntryKind::Symlink(p(&["elsewhere", "a.txt"])),
    );
    let keep = stor(false, false, false, false, false);
    let reports = keep.stow(&m, &target, &mut fs);
    assert!(matches!(reports[0], Report::SkipConflict { .. }));
    assert_eq!(
        fs.lookup(&p(&["home", "a.txt"])),
        Some(EntryKind::Symlink(p(&["elsewhere", "a.txt"])))
    );
    let force = stor(false, false, false, true, false);
    let reports = force.stow(&m, &target, &mut fs);
    assert!(matches!(reports[0], Report::Deleted { .. }));
    assert!(matches!(reports[1], Report::Link { .. }));
    assert_eq!(
        fs.lookup(&p(&["home", "a.txt"])),
        Some(EntryKind::Symlink(p(&["pkg", "a.txt"])))
    );
}

#[test]
fn copy_mode_needs_overwrite_even_for_a_correct_symlink() {
    let m = module(&["pkg"], vec![file("a.txt")]);
    let target = p(&["home"]);
    let mut fs = Fs::new();
    fs.set(p(&["home"]), EntryKind::Dir);
    fs.set(
        p(&["home", "a.txt"]),
        EntryKind::Symlink(p(&["pkg", "a.txt"])),
    );
    let st = stor(false, false, true, false, false);
    let reports = st.stow(&m, &target, &mut fs);
    assert_eq!(reports.len(), 1);
    assert!(matches!(reports[0], Report::SkipConflict { .. }));
    let force = stor(false, false, true, true, false);
    let reports = force.stow(&m, &target, &mut fs);
    assert!(matches!(reports[0], Report::Unlink { .. }));
    assert!(matches!(reports[1], Report::Copied { .. }));
    assert_eq!(fs.lookup(&p(&["home", "a.txt"])), Some(EntryKind::File));
}

#[test]
fn copy_mode_materialises_directories() {
    let (m, target, mut fs) = example_setup();
    let st = stor(false, false, true, false, false);
    st.stow(&m, &target, &mut fs);
    assert_eq!(fs.lookup(&p(&["home", "a.txt"])), Some(EntryKind::File));
    assert_eq!(fs.lookup(&p(&["home", "sub"])), Some(EntryKind::Dir));
    assert_eq!(fs.lookup(&p(&["home", "sub", "b.txt"])), Some(EntryKind::File));
}

#[test]
fn unstow_deletes_copied_file_and_prunes_emptied_parent() {
    // as left behind by a copy-mode stow of `d/f`
    let m = module(&["pkg"], vec![dir("d", vec![file("f")])]);
    let target = p(&["home"]);
    let mut fs = Fs::new();
    fs.set(p(&["home"]), EntryKind::Dir);
    fs.set(p(&["home", "d"]), EntryKind::Dir);
    fs.set(p(&["home", "d", "f"]), EntryKind::File);
    let un = stor(true, false, false, false, false);
    let reports = un.unstow(&m, &target, &mut fs);
    assert_eq!(fs.lookup(&p(&["home", "d", "f"])), None);
    assert_eq!(fs.lookup(&p(&["home", "d"])), None);
    assert!(reports.iter().any(|r| matches!(r, Report::Deleted { .. })));
    assert!(reports.iter().any(|r| matches!(r, Report::Pruned { .. })));
}

#[test]
fn simulate_reports_the_same_and_changes_nothing() {
    let (m, target, mut real_fs) = example_setup();
    let (m2, target2, mut sim_fs) = example_setup();
    let real = stor(false, false, false, false, false);
    let sim = stor(false, false, false, false, true);
    let real_reports = real.stow(&m, &target, &mut real_fs);
    let sim_reports = sim.stow(&m2, &target2, &mut sim_fs);
    assert_eq!(real_reports, sim_reports);
    assert_eq!(sim_fs.lookup(&p(&["home", "a.txt"])), None);
    assert_eq!(sim_fs.lookup(&p(&["home", "sub"])), None);
    assert_eq!(sim_fs.lookup(&p(&["home"])), Some(EntryKind::Dir));
    assert!(!sim_fs.has_child(&p(&["home"])));
}

#[test]
fn run_skips_module_that_is_not_a_directory() {
    let target = p(&["home"]);
    let mut fs = Fs::new();
    fs.set(p(&["home"]), EntryKind::Dir);
    let bad = Module { root: p(&["pkg"]), tree: Node::File };
    let good = module(&["other"], vec![file("a.txt")]);
    let st = stor(false, false, false, false, false);
    let reports = st.run(&vec![bad, good], &target, &mut fs);
    assert!(matches!(reports[0], Report::SkipModule { .. }));
    assert_eq!(
        fs.lookup(&p(&["home", "a.txt"])),
        Some(EntryKind::Symlink(p(&["other", "a.txt"])))
    );
}

#[test]
fn run_skips_module_when_target_is_missing_or_a_file() {
    let target = p(&["home"]);
    let mut fs = Fs::new();
    let m = module(&["pkg"], vec![file("a.txt")]);
    let st = stor(false, false, false, false, false);
    let reports = st.run(&vec![m], &target, &mut fs);
    assert_eq!(reports.len(), 1);
    assert!(matches!(reports[0], Report::SkipTarget { .. }));
    assert_eq!(fs.lookup(&p(&["home", "a.txt"])), None);
}

#[test]
fn run_dispatches_delete_and_restow() {
    let (m, target, mut fs) = example_setup();
    let st = stor(false, false, false, false, false);
    st.stow(&m, &target, &mut fs);
    let rs = stor(false, true, false, false, false);
    let reports = rs.run(&vec![module(
        &["pkg"],
        vec![file("a.txt"), dir("sub", vec![file("b.txt")])],
    )], &target, &mut fs);
    assert!(reports.iter().any(|r| matches!(r, Report::Unlink { .. })));
    assert!(reports.iter().any(|r| matches!(r, Report::Link { .. })));
    let del = stor(true, false, false, false, false);
    del.run(&vec![module(
        &["pkg"],
        vec![file("a.txt"), dir("sub", vec![file("b.txt")])],
    )], &target, &mut fs);
    assert_eq!(fs.lookup(&p(&["home", "a.txt"])), None);
    assert!(!fs.has_child(&p(&["home"])));
}
