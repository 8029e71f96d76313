//! The merge engine: stow, unstow and restow over the target tree model.
//!
//! The behaviour of a whole run is pinned down by pure specification
//! functions (`stow_entries_spec`, `unstow_entries_spec`, `run_spec`); the
//! executable walks are verified to compute exactly those results. The
//! `simulate` flag selects whether the computed final tree is written back:
//! the decision logic, and so the report sequence, is the same either way.

use vstd::prelude::*;
use crate::model::{
    DirEntry, EntryKind, Fs, KindV, Module, Node, Report, ReportV, dest_of, has_child_of,
    remove_subtree_map, clone_path, path_push, path_eq,
};
use crate::path_map::get_relative_target;

verus! {

/// The flags of one invocation: which operation to run (`delete`,
/// `restow`, else stow) and the policy (`copy`, `overwrite`, `simulate`).
#[derive(Clone, Copy)]
pub struct Stor {
    pub delete: bool,
    pub restow: bool,
    pub copy: bool,
    pub overwrite: bool,
    pub simulate: bool,
}

/// The entries of a module tree; a plain file has none.
pub open spec fn module_entries(n: Node) -> Seq<DirEntry> {
    match n {
        Node::Dir { entries } => entries@,
        Node::File => Seq::empty(),
    }
}

// ---------------------------------------------------------------------------
// Creation
// ---------------------------------------------------------------------------

/// The map after the tree `n` is materialised at `tp` as real files and
/// directories, as a recursive copy does.
pub open spec fn insert_tree_map(
    m: Map<Seq<Seq<char>>, KindV>,
    tp: Seq<Seq<char>>,
    n: Node,
) -> Map<Seq<Seq<char>>, KindV>
    decreases n,
{
    match n {
        Node::File => m.insert(tp, KindV::File),
        Node::Dir { entries } => insert_tree_entries(m.insert(tp, KindV::Dir), tp, entries@),
    }
}

pub open spec fn insert_tree_entries(
    m: Map<Seq<Seq<char>>, KindV>,
    tp: Seq<Seq<char>>,
    s: Seq<DirEntry>,
) -> Map<Seq<Seq<char>>, KindV>
    decreases s,
{
    if s.len() == 0 {
        m
    } else {
        insert_tree_entries(
            insert_tree_map(m, tp.push(s[0].name@), s[0].node),
            tp,
            s.subrange(1, s.len() as int),
        )
    }
}

/// What creating the entry `n` at `tp` leaves there: a recursive copy in
/// copy mode, else a symlink pointing back at `sp1`.
pub open spec fn create_map(
    m: Map<Seq<Seq<char>>, KindV>,
    cp: bool,
    sp1: Seq<Seq<char>>,
    tp1: Seq<Seq<char>>,
    n: Node,
) -> Map<Seq<Seq<char>>, KindV> {
    if cp {
        insert_tree_map(m, tp1, n)
    } else {
        m.insert(tp1, KindV::Symlink(sp1))
    }
}

pub open spec fn create_report(cp: bool, sp1: Seq<Seq<char>>, tp1: Seq<Seq<char>>) -> ReportV {
    if cp {
        ReportV::Copied { src: sp1, at: tp1 }
    } else {
        ReportV::Link { dest: sp1, at: tp1 }
    }
}

// ---------------------------------------------------------------------------
// Stow
// ---------------------------------------------------------------------------

/// Stow, once any conflicting symlink at the target has been dealt with:
/// a conflicting plain entry is deleted (with permission) or reported, an
/// absent target is created, and an existing target directory is merged
/// into by recursion — never replaced.
pub open spec fn stow_phase_bc(
    m: Map<Seq<Seq<char>>, KindV>,
    cp: bool,
    ow: bool,
    sp1: Seq<Seq<char>>,
    tp1: Seq<Seq<char>>,
    n: Node,
) -> (Map<Seq<Seq<char>>, KindV>, Seq<ReportV>)
    decreases n, 1int,
{
    if n is File && m.contains_key(tp1) {
        if ow {
            let m1 = remove_subtree_map(m, tp1);
            (
                create_map(m1, cp, sp1, tp1, n),
                seq![(ReportV::Deleted { at: tp1 }), create_report(cp, sp1, tp1)],
            )
        } else {
            (m, seq![(ReportV::SkipConflict { at: tp1 })])
        }
    } else if !m.contains_key(tp1) {
        (create_map(m, cp, sp1, tp1, n), seq![create_report(cp, sp1, tp1)])
    } else if m[tp1] is Dir {
        match n {
            Node::Dir { entries } => stow_entries_spec(m, cp, ow, sp1, tp1, entries@),
            Node::File => (m, Seq::empty()),
        }
    } else {
        (m, Seq::empty())
    }
}

/// One entry of a stow walk. A symlink already at the target is left
/// alone when it already points at this entry's source (link mode only),
/// deleted when overwriting is permitted, and reported otherwise.
pub open spec fn stow_entry_spec(
    m: Map<Seq<Seq<char>>, KindV>,
    cp: bool,
    ow: bool,
    sp: Seq<Seq<char>>,
    tp: Seq<Seq<char>>,
    e: DirEntry,
) -> (Map<Seq<Seq<char>>, KindV>, Seq<ReportV>)
    decreases e.node, 2int,
{
    let sp1 = sp.push(e.name@);
    let tp1 = tp.push(e.name@);
    if m.contains_key(tp1) && m[tp1] is Symlink {
        if cp {
            if ow {
                let mr = stow_phase_bc(remove_subtree_map(m, tp1), cp, ow, sp1, tp1, e.node);
                (mr.0, seq![(ReportV::Unlink { at: tp1 })] + mr.1)
            } else {
                (m, seq![(ReportV::SkipConflict { at: tp1 })])
            }
        } else {
            if dest_of(m[tp1]) == sp1 {
                (m, seq![(ReportV::SkipExisting { at: tp1 })])
            } else if ow {
                let mr = stow_phase_bc(remove_subtree_map(m, tp1), cp, ow, sp1, tp1, e.node);
                (mr.0, seq![(ReportV::Deleted { at: tp1 })] + mr.1)
            } else {
                (m, seq![(ReportV::SkipConflict { at: tp1 })])
            }
        }
    } else {
        stow_phase_bc(m, cp, ow, sp1, tp1, e.node)
    }
}

/// A stow walk over the entries of one directory, left to right.
pub open spec fn stow_entries_spec(
    m: Map<Seq<Seq<char>>, KindV>,
    cp: bool,
    ow: bool,
    sp: Seq<Seq<char>>,
    tp: Seq<Seq<char>>,
    s: Seq<DirEntry>,
) -> (Map<Seq<Seq<char>>, KindV>, Seq<ReportV>)
    decreases s, 0int,
{
    if s.len() == 0 {
        (m, Seq::empty())
    } else {
        let first = stow_entry_spec(m, cp, ow, sp, tp, s[0]);
        let rest = stow_entries_spec(first.0, cp, ow, sp, tp, s.subrange(1, s.len() as int));
        (rest.0, first.1 + rest.1)
    }
}

// ---------------------------------------------------------------------------
// Unstow
// ---------------------------------------------------------------------------

/// One entry of an unstow walk: a symlink or plain file at the mapped
/// target path is removed (a file's parent directory is pruned when the
/// removal leaves it empty), a target directory is descended into, and an
/// absent target is silently skipped.
pub open spec fn unstow_entry_spec(
    m: Map<Seq<Seq<char>>, KindV>,
    tp: Seq<Seq<char>>,
    e: DirEntry,
) -> (Map<Seq<Seq<char>>, KindV>, Seq<ReportV>)
    decreases e.node, 1int,
{
    let tp1 = tp.push(e.name@);
    if m.contains_key(tp1) {
        if m[tp1] is Symlink {
            (m.remove(tp1), seq![(ReportV::Unlink { at: tp1 })])
        } else if m[tp1] is File {
            let m1 = m.remove(tp1);
            if !has_child_of(m1, tp) {
                (m1.remove(tp), seq![(ReportV::Deleted { at: tp1 }), (ReportV::Pruned { at: tp })])
            } else {
                (m1, seq![(ReportV::Deleted { at: tp1 })])
            }
        } else {
            match e.node {
                Node::Dir { entries } => unstow_entries_spec(m, tp1, entries@),
                Node::File => (m, Seq::empty()),
            }
        }
    } else {
        (m, Seq::empty())
    }
}

/// An unstow walk over the entries of one directory, left to right.
pub open spec fn unstow_entries_spec(
    m: Map<Seq<Seq<char>>, KindV>,
    tp: Seq<Seq<char>>,
    s: Seq<DirEntry>,
) -> (Map<Seq<Seq<char>>, KindV>, Seq<ReportV>)
    decreases s, 0int,
{
    if s.len() == 0 {
        (m, Seq::empty())
    } else {
        let first = unstow_entry_spec(m, tp, s[0]);
        let rest = unstow_entries_spec(first.0, tp, s.subrange(1, s.len() as int));
        (rest.0, first.1 + rest.1)
    }
}

// ---------------------------------------------------------------------------
// Whole runs
// ---------------------------------------------------------------------------

/// One module of a run: validation, then the selected operation. A module
/// that is not a directory, or a target that is not a directory in the
/// current tree, is skipped with a report and changes nothing.
pub open spec fn run_module_spec(
    m: Map<Seq<Seq<char>>, KindV>,
    del: bool,
    rst: bool,
    cp: bool,
    ow: bool,
    module: Module,
    tgt: Seq<Seq<char>>,
) -> (Map<Seq<Seq<char>>, KindV>, Seq<ReportV>) {
    if !(module.tree is Dir) {
        (m, seq![(ReportV::SkipModule { at: module.root.deep_view() })])
    } else if !(m.contains_key(tgt) && m[tgt] is Dir) {
        (m, seq![(ReportV::SkipTarget { at: tgt })])
    } else {
        let entries = module_entries(module.tree);
        let sp = module.root.deep_view();
        if del {
            unstow_entries_spec(m, tgt, entries)
        } else if rst {
            let u = unstow_entries_spec(m, tgt, entries);
            let st = stow_entries_spec(u.0, cp, ow, sp, tgt, entries);
            (st.0, u.1 + st.1)
        } else {
            stow_entries_spec(m, cp, ow, sp, tgt, entries)
        }
    }
}

/// A whole run: the modules in order, each against the tree the previous
/// ones left behind.
pub open spec fn run_spec(
    m: Map<Seq<Seq<char>>, KindV>,
    del: bool,
    rst: bool,
    cp: bool,
    ow: bool,
    modules: Seq<Module>,
    tgt: Seq<Seq<char>>,
) -> (Map<Seq<Seq<char>>, KindV>, Seq<ReportV>)
    decreases modules.len(),
{
    if modules.len() == 0 {
        (m, Seq::empty())
    } else {
        let first = run_module_spec(m, del, rst, cp, ow, modules[0], tgt);
        let rest = run_spec(
            first.0,
            del,
            rst,
            cp,
            ow,
            modules.subrange(1, modules.len() as int),
            tgt,
        );
        (rest.0, first.1 + rest.1)
    }
}

// ---------------------------------------------------------------------------
// Fold lemmas
// ---------------------------------------------------------------------------

pub proof fn lemma_stow_entries_snoc(
    m: Map<Seq<Seq<char>>, KindV>,
    cp: bool,
    ow: bool,
    sp: Seq<Seq<char>>,
    tp: Seq<Seq<char>>,
    s: Seq<DirEntry>,
    e: DirEntry,
)
    ensures
        ({
            let whole = stow_entries_spec(m, cp, ow, sp, tp, s.push(e));
            let front = stow_entries_spec(m, cp, ow, sp, tp, s);
            let last = stow_entry_spec(front.0, cp, ow, sp, tp, e);
            whole.0 == last.0 && whole.1 == front.1 + last.1
        }),
    decreases s.len(),
{
    reveal_with_fuel(stow_entries_spec, 3);
    let whole = stow_entries_spec(m, cp, ow, sp, tp, s.push(e));
    if s.len() == 0 {
        assert(s.push(e)[0] == e);
        assert(s.push(e).subrange(1, s.push(e).len() as int) =~= Seq::<DirEntry>::empty());
        let last = stow_entry_spec(m, cp, ow, sp, tp, e);
        assert(whole.1 =~= Seq::empty() + last.1);
    } else {
        assert(s.push(e)[0] == s[0]);
        let first = stow_entry_spec(m, cp, ow, sp, tp, s[0]);
        assert(s.push(e).subrange(1, s.push(e).len() as int) =~= s.subrange(
            1,
            s.len() as int,
        ).push(e));
        lemma_stow_entries_snoc(first.0, cp, ow, sp, tp, s.subrange(1, s.len() as int), e);
        let front = stow_entries_spec(m, cp, ow, sp, tp, s);
        let last = stow_entry_spec(front.0, cp, ow, sp, tp, e);
        assert(whole.1 =~= front.1 + last.1);
    }
}

pub proof fn lemma_unstow_entries_snoc(
    m: Map<Seq<Seq<char>>, KindV>,
    tp: Seq<Seq<char>>,
    s: Seq<DirEntry>,
    e: DirEntry,
)
    ensures
        ({
            let whole = unstow_entries_spec(m, tp, s.push(e));
            let front = unstow_entries_spec(m, tp, s);
            let last = unstow_entry_spec(front.0, tp, e);
            whole.0 == last.0 && whole.1 == front.1 + last.1
        }),
    decreases s.len(),
{
    reveal_with_fuel(unstow_entries_spec, 3);
    let whole = unstow_entries_spec(m, tp, s.push(e));
    if s.len() == 0 {
        assert(s.push(e)[0] == e);
        assert(s.push(e).subrange(1, s.push(e).len() as int) =~= Seq::<DirEntry>::empty());
        let last = unstow_entry_spec(m, tp, e);
        assert(whole.1 =~= Seq::empty() + last.1);
    } else {
        assert(s.push(e)[0] == s[0]);
        let first = unstow_entry_spec(m, tp, s[0]);
        assert(s.push(e).subrange(1, s.push(e).len() as int) =~= s.subrange(
            1,
            s.len() as int,
        ).push(e));
        lemma_unstow_entries_snoc(first.0, tp, s.subrange(1, s.len() as int), e);
        let front = unstow_entries_spec(m, tp, s);
        let last = unstow_entry_spec(front.0, tp, e);
        assert(whole.1 =~= front.1 + last.1);
    }
}

pub proof fn lemma_insert_tree_entries_snoc(
    m: Map<Seq<Seq<char>>, KindV>,
    tp: Seq<Seq<char>>,
    s: Seq<DirEntry>,
    e: DirEntry,
)
    ensures
        insert_tree_entries(m, tp, s.push(e)) == insert_tree_map(
            insert_tree_entries(m, tp, s),
            tp.push(e.name@),
            e.node,
        ),
    decreases s.len(),
{
    reveal_with_fuel(insert_tree_entries, 3);
    if s.len() == 0 {
        assert(s.push(e)[0] == e);
        assert(s.push(e).subrange(1, s.push(e).len() as int) =~= Seq::<DirEntry>::empty());
    } else {
        assert(s.push(e)[0] == s[0]);
        assert(s.push(e).subrange(1, s.push(e).len() as int) =~= s.subrange(
            1,
            s.len() as int,
        ).push(e));
        lemma_insert_tree_entries_snoc(
            insert_tree_map(m, tp.push(s[0].name@), s[0].node),
            tp,
            s.subrange(1, s.len() as int),
            e,
        );
    }
}

#[verifier::rlimit(100)]
pub proof fn lemma_run_spec_snoc(
    m: Map<Seq<Seq<char>>, KindV>,
    del: bool,
    rst: bool,
    cp: bool,
    ow: bool,
    mods: Seq<Module>,
    md: Module,
    tgt: Seq<Seq<char>>,
)
    ensures
        ({
            let whole = run_spec(m, del, rst, cp, ow, mods.push(md), tgt);
            let front = run_spec(m, del, rst, cp, ow, mods, tgt);
            let last = run_module_spec(front.0, del, rst, cp, ow, md, tgt);
            whole.0 == last.0 && whole.1 == front.1 + last.1
        }),
    decreases mods.len(),
{
    reveal_with_fuel(run_spec, 3);
    let whole = run_spec(m, del, rst, cp, ow, mods.push(md), tgt);
    if mods.len() == 0 {
        assert(mods.push(md)[0] == md);
        assert(mods.push(md).subrange(1, mods.push(md).len() as int) =~= Seq::<Module>::empty());
        let last = run_module_spec(m, del, rst, cp, ow, md, tgt);
        assert(whole.1 =~= Seq::empty() + last.1);
    } else {
        assert(mods.push(md)[0] == mods[0]);
        let first = run_module_spec(m, del, rst, cp, ow, mods[0], tgt);
        assert(mods.push(md).subrange(1, mods.push(md).len() as int) =~= mods.subrange(
            1,
            mods.len() as int,
        ).push(md));
        lemma_run_spec_snoc(first.0, del, rst, cp, ow, mods.subrange(1, mods.len() as int), md, tgt);
        let front = run_spec(m, del, rst, cp, ow, mods, tgt);
        let last = run_module_spec(front.0, del, rst, cp, ow, md, tgt);
        assert(whole.1 =~= front.1 + last.1);
    }
}

// ---------------------------------------------------------------------------
// Executable engine
// ---------------------------------------------------------------------------

/// Appends one report.
fn push_report(reports: &mut Vec<Report>, r: Report)
    ensures
        final(reports).deep_view() == old(reports).deep_view().push(r@),
{
    let ghost pre = reports.deep_view();
    let ghost rv = r@;
    reports.push(r);
    proof {
        assert(reports.deep_view() =~~= pre.push(rv));
    }
}

/// Materialises the tree `n` at `tp`, as a recursive copy does.
#[verifier::loop_isolation(false)]
fn insert_tree(fs: &mut Fs, tp: &Vec<String>, n: &Node)
    requires
        old(fs).wf(),
    ensures
        final(fs).wf(),
        final(fs)@ == insert_tree_map(old(fs)@, tp.deep_view(), *n),
    decreases *n,
{
    match n {
        Node::File => {
            fs.set(clone_path(tp), EntryKind::File);
        },
        Node::Dir { entries } => {
            fs.set(clone_path(tp), EntryKind::Dir);
            let ghost m1 = fs@;
            let mut i: usize = 0;
            while i < entries.len()
                invariant
                    fs.wf(),
                    i <= entries@.len(),
                    fs@ == insert_tree_entries(m1, tp.deep_view(), entries@.subrange(0, i as int)),
                decreases entries@.len() - i,
            {
                let tp1 = path_push(tp, &entries[i].name);
                proof {
                    assert(decreases_to!(*n => *entries));
                    assert(decreases_to!(*entries => entries@));
                    assert(decreases_to!(entries@ => entries@[i as int]));
                    assert(decreases_to!(entries@[i as int] => entries@[i as int].node));
                    assert(decreases_to!(*n => entries@[i as int].node));
                }
                insert_tree(fs, &tp1, &entries[i].node);
                proof {
                    lemma_insert_tree_entries_snoc(
                        m1,
                        tp.deep_view(),
                        entries@.subrange(0, i as int),
                        entries@[i as int],
                    );
                    assert(entries@.subrange(0, i + 1) =~= entries@.subrange(0, i as int).push(
                        entries@[i as int],
                    ));
                }
                i = i + 1;
            }
            proof {
                assert(entries@.subrange(0, entries@.len() as int) =~= entries@);
            }
        },
    }
}

impl Stor {
    /// Builds the flag set for one invocation.
    pub fn new(delete: bool, restow: bool, copy: bool, overwrite: bool, simulate: bool) -> (r:
        Stor)
        ensures
            r.delete == delete,
            r.restow == restow,
            r.copy == copy,
            r.overwrite == overwrite,
            r.simulate == simulate,
    {
        Stor { delete, restow, copy, overwrite, simulate }
    }

    /// Creates the module entry `n` at `tp1`: a recursive copy in copy
    /// mode, else a symlink pointing back at `sp1`.
    fn create_at(
        &self,
        sp1: &Vec<String>,
        tp1: &Vec<String>,
        n: &Node,
        fs: &mut Fs,
        reports: &mut Vec<Report>,
    )
        requires
            old(fs).wf(),
        ensures
            final(fs).wf(),
            final(fs)@ == create_map(old(fs)@, self.copy, sp1.deep_view(), tp1.deep_view(), *n),
            final(reports).deep_view() == old(reports).deep_view().push(
                create_report(self.copy, sp1.deep_view(), tp1.deep_view()),
            ),
    {
        if self.copy {
            insert_tree(fs, tp1, n);
            push_report(reports, Report::Copied { src: clone_path(sp1), at: clone_path(tp1) });
        } else {
            fs.set(clone_path(tp1), EntryKind::Symlink(clone_path(sp1)));
            push_report(reports, Report::Link { dest: clone_path(sp1), at: clone_path(tp1) });
        }
    }

    /// The stow walk: merges the entries of the module directory at `sp`
    /// into the target directory at `tp`, entry by entry, recursing into
    /// target directories that already exist.
    #[verifier::loop_isolation(false)]
    #[verifier::rlimit(100)]
    fn stow_walk(
        &self,
        sp: &Vec<String>,
        tp: &Vec<String>,
        entries: &Vec<DirEntry>,
        fs: &mut Fs,
        reports: &mut Vec<Report>,
    )
        requires
            old(fs).wf(),
        ensures
            final(fs).wf(),
            ({
                let r = stow_entries_spec(
                    old(fs)@,
                    self.copy,
                    self.overwrite,
                    sp.deep_view(),
                    tp.deep_view(),
                    entries@,
                );
                final(fs)@ == r.0 && final(reports).deep_view() == old(reports).deep_view() + r.1
            }),
        decreases entries@,
    {
        let ghost m0 = fs@;
        let ghost r0 = reports.deep_view();
        let ghost cp = self.copy;
        let ghost ow = self.overwrite;
        let ghost spv = sp.deep_view();
        let ghost tpv = tp.deep_view();
        let mut i: usize = 0;
        while i < entries.len()
            invariant
                fs.wf(),
                i <= entries@.len(),
                ({
                    let r = stow_entries_spec(m0, cp, ow, spv, tpv, entries@.subrange(0, i as int));
                    fs@ == r.0 && reports.deep_view() == r0 + r.1
                }),
            decreases entries@.len() - i,
        {
            let ghost ev = entries@[i as int];
            let ghost pre = fs@;
            let ghost rpre = reports.deep_view();
            let e = &entries[i];
            let sp1 = path_push(sp, &e.name);
            let tp1 = path_push(tp, &e.name);
            let ghost sp1v = spv.push(ev.name@);
            let ghost tp1v = tpv.push(ev.name@);
            let mut skip = false;
            match fs.lookup(&tp1) {
                Option::Some(EntryKind::Symlink(d)) => {
                    if self.copy {
                        if self.overwrite {
                            fs.remove_subtree(&tp1);
                            push_report(reports, Report::Unlink { at: clone_path(&tp1) });
                        } else {
                            push_report(reports, Report::SkipConflict { at: clone_path(&tp1) });
                            skip = true;
                        }
                    } else {
                        if path_eq(&d, &sp1) {
                            push_report(reports, Report::SkipExisting { at: clone_path(&tp1) });
                            skip = true;
                        } else if self.overwrite {
                            fs.remove_subtree(&tp1);
                            push_report(reports, Report::Deleted { at: clone_path(&tp1) });
                        } else {
                            push_report(reports, Report::SkipConflict { at: clone_path(&tp1) });
                            skip = true;
                        }
                    }
                },
                _ => {},
            }
            if !skip {
                let is_file = match &e.node {
                    Node::File => true,
                    Node::Dir { .. } => false,
                };
                match fs.lookup(&tp1) {
                    Option::Some(k) => {
                        if is_file {
                            if self.overwrite {
                                fs.remove_subtree(&tp1);
                                push_report(reports, Report::Deleted { at: clone_path(&tp1) });
                                self.create_at(&sp1, &tp1, &e.node, fs, reports);
                            } else {
                                push_report(
                                    reports,
                                    Report::SkipConflict { at: clone_path(&tp1) },
                                );
                            }
                        } else {
                            match k {
                                EntryKind::Dir => {
                                    match &e.node {
                                        Node::Dir { entries: es } => {
                                            proof {
                                                assert(decreases_to!(entries@ => ev));
                                                assert(decreases_to!(ev => ev.node));
                                                assert(decreases_to!(ev.node => *es));
                                                assert(decreases_to!(*es => es@));
                                                assert(decreases_to!(entries@ => es@));
                                            }
                                            self.stow_walk(&sp1, &tp1, es, fs, reports);
                                        },
                                        Node::File => {},
                                    }
                                },
                                _ => {},
                            }
                        }
                    },
                    Option::None => {
                        self.create_at(&sp1, &tp1, &e.node, fs, reports);
                    },
                }
            }
            proof {
                let stepped = stow_entry_spec(pre, cp, ow, spv, tpv, ev);
                assert(fs@ == stepped.0);
                assert(reports.deep_view() =~~= rpre + stepped.1);
                lemma_stow_entries_snoc(m0, cp, ow, spv, tpv, entries@.subrange(0, i as int), ev);
                assert(entries@.subrange(0, i + 1) =~= entries@.subrange(0, i as int).push(ev));
            }
            i = i + 1;
        }
        proof {
            assert(entries@.subrange(0, entries@.len() as int) =~= entries@);
        }
    }

    /// The unstow walk: removes, entry by entry, what a stow of these
    /// entries would have placed at `tp`, pruning a parent directory that
    /// a file removal leaves empty.
    #[verifier::loop_isolation(false)]
    #[verifier::rlimit(100)]
    fn unstow_walk(
        &self,
        tp: &Vec<String>,
        entries: &Vec<DirEntry>,
        fs: &mut Fs,
        reports: &mut Vec<Report>,
    )
        requires
            old(fs).wf(),
        ensures
            final(fs).wf(),
            ({
                let r = unstow_entries_spec(old(fs)@, tp.deep_view(), entries@);
                final(fs)@ == r.0 && final(reports).deep_view() == old(reports).deep_view() + r.1
            }),
        decreases entries@,
    {
        let ghost m0 = fs@;
        let ghost r0 = reports.deep_view();
        let ghost tpv = tp.deep_view();
        let mut i: usize = 0;
        while i < entries.len()
            invariant
                fs.wf(),
                i <= entries@.len(),
                ({
                    let r = unstow_entries_spec(m0, tpv, entries@.subrange(0, i as int));
                    fs@ == r.0 && reports.deep_view() == r0 + r.1
                }),
            decreases entries@.len() - i,
        {
            let ghost ev = entries@[i as int];
            let ghost pre = fs@;
            let ghost rpre = reports.deep_view();
            let e = &entries[i];
            let tp1 = path_push(tp, &e.name);
            let ghost tp1v = tpv.push(ev.name@);
            match fs.lookup(&tp1) {
                Option::Some(EntryKind::Symlink(_)) => {
                    fs.remove(&tp1);
                    push_report(reports, Report::Unlink { at: clone_path(&tp1) });
                },
                Option::Some(EntryKind::File) => {
                    fs.remove(&tp1);
                    push_report(reports, Report::Deleted { at: clone_path(&tp1) });
                    if !fs.has_child(tp) {
                        let ghost m1 = fs@;
                        let present = match fs.lookup(tp) {
                            Option::Some(_) => true,
                            Option::None => false,
                        };
                        if present {
                            fs.remove(tp);
                        }
                        proof {
                            if !present {
                                assert(m1.remove(tpv) =~= m1);
                            }
                        }
                        push_report(reports, Report::Pruned { at: clone_path(tp) });
                    }
                },
                Option::Some(EntryKind::Dir) => {
                    match &e.node {
                        Node::Dir { entries: es } => {
                            proof {
                                assert(decreases_to!(entries@ => ev));
                                assert(decreases_to!(ev => ev.node));
                                assert(decreases_to!(ev.node => *es));
                                assert(decreases_to!(*es => es@));
                                assert(decreases_to!(entries@ => es@));
                            }
                            self.unstow_walk(&tp1, es, fs, reports);
                        },
                        Node::File => {},
                    }
                },
                Option::None => {},
            }
            proof {
                let stepped = unstow_entry_spec(pre, tpv, ev);
                assert(fs@ == stepped.0);
                assert(reports.deep_view() =~~= rpre + stepped.1);
                lemma_unstow_entries_snoc(m0, tpv, entries@.subrange(0, i as int), ev);
                assert(entries@.subrange(0, i + 1) =~= entries@.subrange(0, i as int).push(ev));
            }
            i = i + 1;
        }
        proof {
            assert(entries@.subrange(0, entries@.len() as int) =~= entries@);
        }
    }

    /// Applies the mirror of `module` onto the target directory: one link
    /// (or copy, per policy) for each module entry whose target path is
    /// free, merging into target directories that already exist. With
    /// `simulate` set the target tree is left untouched; the reports are
    /// those of the same run without `simulate`.
    pub fn stow(&self, module: &Module, target: &Vec<String>, fs: &mut Fs) -> (reports: Vec<
        Report,
    >)
        requires
            old(fs).wf(),
            module.tree is Dir,
        ensures
            final(fs).wf(),
            ({
                let r = stow_entries_spec(
                    old(fs)@,
                    self.copy,
                    self.overwrite,
                    module.root.deep_view(),
                    target.deep_view(),
                    module_entries(module.tree),
                );
                &&& reports.deep_view() == r.1
                &&& (self.simulate ==> final(fs)@ == old(fs)@)
                &&& (!self.simulate ==> final(fs)@ == r.0)
            }),
    {
        proof {
            let rd = module.root.deep_view();
            assert(rd.subrange(0, rd.len() as int) =~= rd);
        }
        let tp = get_relative_target(&module.root, &module.root, target);
        proof {
            let rd = module.root.deep_view();
            assert(rd.skip(rd.len() as int) =~= Seq::<Seq<char>>::empty());
            assert(tp.deep_view() =~= target.deep_view());
        }
        let mut reports: Vec<Report> = Vec::new();
        proof {
            assert(reports.deep_view() =~~= Seq::<ReportV>::empty());
        }
        match &module.tree {
            Node::Dir { entries } => {
                if self.simulate {
                    let mut scratch = fs.duplicate();
                    self.stow_walk(&module.root, &tp, entries, &mut scratch, &mut reports);
                } else {
                    self.stow_walk(&module.root, &tp, entries, fs, &mut reports);
                }
                proof {
                    let r = stow_entries_spec(
                        old(fs)@,
                        self.copy,
                        self.overwrite,
                        module.root.deep_view(),
                        target.deep_view(),
                        entries@,
                    );
                    assert(reports.deep_view() =~~= r.1);
                }
            },
            Node::File => {},
        }
        reports
    }

    /// Removes the mirror of `module` from the target directory: each
    /// mapped symlink or file is deleted (a file's parent is pruned when
    /// left empty), target directories are descended into, and absent
    /// targets are skipped. With `simulate` set the target tree is left
    /// untouched; the reports are those of the same run without it.
    pub fn unstow(&self, module: &Module, target: &Vec<String>, fs: &mut Fs) -> (reports: Vec<
        Report,
    >)
        requires
            old(fs).wf(),
            module.tree is Dir,
        ensures
            final(fs).wf(),
            ({
                let r = unstow_entries_spec(
                    old(fs)@,
                    target.deep_view(),
                    module_entries(module.tree),
                );
                &&& reports.deep_view() == r.1
                &&& (self.simulate ==> final(fs)@ == old(fs)@)
                &&& (!self.simulate ==> final(fs)@ == r.0)
            }),
    {
        proof {
            let rd = module.root.deep_view();
            assert(rd.subrange(0, rd.len() as int) =~= rd);
        }
        let tp = get_relative_target(&module.root, &module.root, target);
        proof {
            let rd = module.root.deep_view();
            assert(rd.skip(rd.len() as int) =~= Seq::<Seq<char>>::empty());
            assert(tp.deep_view() =~= target.deep_view());
        }
        let mut reports: Vec<Report> = Vec::new();
        proof {
            assert(reports.deep_view() =~~= Seq::<ReportV>::empty());
        }
        match &module.tree {
            Node::Dir { entries } => {
                if self.simulate {
                    let mut scratch = fs.duplicate();
                    self.unstow_walk(&tp, entries, &mut scratch, &mut reports);
                } else {
                    self.unstow_walk(&tp, entries, fs, &mut reports);
                }
                proof {
                    let r = unstow_entries_spec(old(fs)@, target.deep_view(), entries@);
                    assert(reports.deep_view() =~~= r.1);
                }
            },
            Node::File => {},
        }
        reports
    }

    /// Unstow immediately followed by stow, over the same roots: exactly
    /// the sequential composition of the two operations.
    pub fn restow(&self, module: &Module, target: &Vec<String>, fs: &mut Fs) -> (reports: Vec<
        Report,
    >)
        requires
            old(fs).wf(),
            module.tree is Dir,
        ensures
            final(fs).wf(),
            ({
                let u = unstow_entries_spec(
                    old(fs)@,
                    target.deep_view(),
                    module_entries(module.tree),
                );
                let st = stow_entries_spec(
                    u.0,
                    self.copy,
                    self.overwrite,
                    module.root.deep_view(),
                    target.deep_view(),
                    module_entries(module.tree),
                );
                &&& reports.deep_view() == u.1 + st.1
                &&& (self.simulate ==> final(fs)@ == old(fs)@)
                &&& (!self.simulate ==> final(fs)@ == st.0)
            }),
    {
        proof {
            let rd = module.root.deep_view();
            assert(rd.subrange(0, rd.len() as int) =~= rd);
        }
        let tp = get_relative_target(&module.root, &module.root, target);
        proof {
            let rd = module.root.deep_view();
            assert(rd.skip(rd.len() as int) =~= Seq::<Seq<char>>::empty());
            assert(tp.deep_view() =~= target.deep_view());
        }
        let mut reports: Vec<Report> = Vec::new();
        proof {
            assert(reports.deep_view() =~~= Seq::<ReportV>::empty());
        }
        match &module.tree {
            Node::Dir { entries } => {
                if self.simulate {
                    let mut scratch = fs.duplicate();
                    self.unstow_walk(&tp, entries, &mut scratch, &mut reports);
                    self.stow_walk(&module.root, &tp, entries, &mut scratch, &mut reports);
                } else {
                    self.unstow_walk(&tp, entries, fs, &mut reports);
                    self.stow_walk(&module.root, &tp, entries, fs, &mut reports);
                }
                proof {
                    let u = unstow_entries_spec(old(fs)@, target.deep_view(), entries@);
                    let st = stow_entries_spec(
                        u.0,
                        self.copy,
                        self.overwrite,
                        module.root.deep_view(),
                        target.deep_view(),
                        entries@,
                    );
                    assert(reports.deep_view() =~~= u.1 + st.1);
                }
            },
            Node::File => {},
        }
        reports
    }

    /// One whole invocation: each module in order is validated (it and
    /// the target must be directories; an offender is skipped with a
    /// report) and then unstowed, restowed or stowed per the flags. With
    /// `simulate` set the target tree is left untouched; the reports are
    /// those of the same run without it.
    pub fn run(&self, modules: &Vec<Module>, target: &Vec<String>, fs: &mut Fs) -> (reports: Vec<
        Report,
    >)
        requires
            old(fs).wf(),
        ensures
            final(fs).wf(),
            ({
                let r = run_spec(
                    old(fs)@,
                    self.delete,
                    self.restow,
                    self.copy,
                    self.overwrite,
                    modules@,
                    target.deep_view(),
                );
                &&& reports.deep_view() == r.1
                &&& (self.simulate ==> final(fs)@ == old(fs)@)
                &&& (!self.simulate ==> final(fs)@ == r.0)
            }),
    {
        let mut reports: Vec<Report> = Vec::new();
        proof {
            assert(reports.deep_view() =~~= Seq::<ReportV>::empty());
        }
        if self.simulate {
            let mut scratch = fs.duplicate();
            self.run_inner(modules, target, &mut scratch, &mut reports);
        } else {
            self.run_inner(modules, target, fs, &mut reports);
        }
        proof {
            let r = run_spec(
                old(fs)@,
                self.delete,
                self.restow,
                self.copy,
                self.overwrite,
                modules@,
                target.deep_view(),
            );
            assert(reports.deep_view() =~~= r.1);
        }
        reports
    }

    /// The body of a run, always applied to the tree it is handed.
    #[verifier::loop_isolation(false)]
    #[verifier::rlimit(100)]
    fn run_inner(
        &self,
        modules: &Vec<Module>,
        target: &Vec<String>,
        fs: &mut Fs,
        reports: &mut Vec<Report>,
    )
        requires
            old(fs).wf(),
        ensures
            final(fs).wf(),
            ({
                let r = run_spec(
                    old(fs)@,
                    self.delete,
                    self.restow,
                    self.copy,
                    self.overwrite,
                    modules@,
                    target.deep_view(),
                );
                final(fs)@ == r.0 && final(reports).deep_view() == old(reports).deep_view() + r.1
            }),
    {
        let ghost m0 = fs@;
        let ghost r0 = reports.deep_view();
        let ghost tgtv = target.deep_view();
        let mut k: usize = 0;
        while k < modules.len()
            invariant
                fs.wf(),
                k <= modules@.len(),
                ({
                    let r = run_spec(
                        m0,
                        self.delete,
                        self.restow,
                        self.copy,
                        self.overwrite,
                        modules@.subrange(0, k as int),
                        tgtv,
                    );
                    fs@ == r.0 && reports.deep_view() == r0 + r.1
                }),
            decreases modules@.len() - k,
        {
            let ghost mv = modules@[k as int];
            let ghost pre = fs@;
            let ghost rpre = reports.deep_view();
            let md = &modules[k];
            let is_dir = match &md.tree {
                Node::Dir { .. } => true,
                Node::File => false,
            };
            if !is_dir {
                push_report(reports, Report::SkipModule { at: clone_path(&md.root) });
            } else {
                let tgt_ok = match fs.lookup(target) {
                    Option::Some(EntryKind::Dir) => true,
                    _ => false,
                };
                if !tgt_ok {
                    push_report(reports, Report::SkipTarget { at: clone_path(target) });
                } else {
                    match &md.tree {
                        Node::Dir { entries } => {
                            if self.delete {
                                self.unstow_walk(target, entries, fs, reports);
                            } else if self.restow {
                                self.unstow_walk(target, entries, fs, reports);
                                self.stow_walk(&md.root, target, entries, fs, reports);
                            } else {
                                self.stow_walk(&md.root, target, entries, fs, reports);
                            }
                        },
                        Node::File => {},
                    }
                }
            }
            proof {
                let stepped = run_module_spec(
                    pre,
                    self.delete,
                    self.restow,
                    self.copy,
                    self.overwrite,
                    mv,
                    tgtv,
                );
                assert(fs@ == stepped.0);
                assert(reports.deep_view() =~~= rpre + stepped.1);
                lemma_run_spec_snoc(
                    m0,
                    self.delete,
                    self.restow,
                    self.copy,
                    self.overwrite,
                    modules@.subrange(0, k as int),
                    mv,
                    tgtv,
                );
                assert(modules@.subrange(0, k + 1) =~= modules@.subrange(0, k as int).push(mv));
            }
            k = k + 1;
        }
        proof {
            assert(modules@.subrange(0, modules@.len() as int) =~= modules@);
        }
    }
}


} // verus!
