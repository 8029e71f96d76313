//! The data model the merge engine works on: a module tree (`Node`), an
//! in-memory model of the target tree (`Fs`, a finite map from absolute
//! paths to entry kinds), and the reports the engine emits.

use vstd::prelude::*;
use crate::path_map::is_prefix_of;

verus! {

// ---------------------------------------------------------------------------
// Module trees
// ---------------------------------------------------------------------------

/// One named entry of a directory in a module tree.
pub struct DirEntry {
    pub name: String,
    pub node: Node,
}

/// A module tree: a plain file, or a directory of named entries.
pub enum Node {
    File,
    Dir { entries: Vec<DirEntry> },
}

/// Well-formed module tree: inside every directory the entry names are
/// pairwise distinct, as they are in a real directory.
pub open spec fn wf_node(n: Node) -> bool
    decreases n,
{
    match n {
        Node::File => true,
        Node::Dir { entries } => {
            &&& (forall|i: int, j: int|
                0 <= i < j < entries@.len() ==> entries@[i].name@ != entries@[j].name@)
            &&& (forall|i: int|
                0 <= i < entries@.len() ==> wf_node(#[trigger] entries@[i].node))
        },
    }
}

/// A module to be mirrored: its absolute root path and its tree.
pub struct Module {
    pub root: Vec<String>,
    pub tree: Node,
}

// ---------------------------------------------------------------------------
// The target tree model
// ---------------------------------------------------------------------------

/// The kind of a target entry, at the specification level.
pub enum KindV {
    File,
    Dir,
    Symlink(Seq<Seq<char>>),
}

/// The kind of a target entry: a plain file, a real directory, or a
/// symbolic link together with the destination it resolves to.
#[derive(Debug, PartialEq, Eq)]
pub enum EntryKind {
    File,
    Dir,
    Symlink(Vec<String>),
}

impl View for EntryKind {
    type V = KindV;

    open spec fn view(&self) -> KindV {
        match self {
            EntryKind::File => KindV::File,
            EntryKind::Dir => KindV::Dir,
            EntryKind::Symlink(d) => KindV::Symlink(d.deep_view()),
        }
    }
}

/// The destination a symlink kind carries.
pub open spec fn dest_of(k: KindV) -> Seq<Seq<char>>
    recommends
        k is Symlink,
{
    match k {
        KindV::Symlink(d) => d,
        _ => Seq::empty(),
    }
}

/// One entry of the target model: an absolute path and what sits there.
pub struct FsEntry {
    pub path: Vec<String>,
    pub kind: EntryKind,
}

/// The paths of `s` are pairwise distinct.
pub open spec fn distinct_paths(s: Seq<FsEntry>) -> bool {
    forall|i: int, j: int|
        0 <= i < j < s.len() ==> s[i].path.deep_view() != s[j].path.deep_view()
}

/// The map an entry list denotes: each path to its kind.
pub open spec fn map_of(s: Seq<FsEntry>) -> Map<Seq<Seq<char>>, KindV>
    decreases s.len(),
{
    if s.len() == 0 {
        Map::empty()
    } else {
        map_of(s.drop_last()).insert(s.last().path.deep_view(), s.last().kind@)
    }
}

/// `m` with every path at or below `p` removed.
pub open spec fn remove_subtree_map(
    m: Map<Seq<Seq<char>>, KindV>,
    p: Seq<Seq<char>>,
) -> Map<Seq<Seq<char>>, KindV> {
    Map::new(
        |q: Seq<Seq<char>>| m.dom().contains(q) && !is_prefix_of(p, q),
        |q: Seq<Seq<char>>| m[q],
    )
}

/// Some entry lies directly inside the directory at `p`.
pub open spec fn has_child_of(m: Map<Seq<Seq<char>>, KindV>, p: Seq<Seq<char>>) -> bool {
    exists|q: Seq<Seq<char>>|
        m.dom().contains(q) && q.len() == p.len() + 1 && is_prefix_of(p, q)
}

pub proof fn lemma_map_of_contains(s: Seq<FsEntry>, p: Seq<Seq<char>>)
    ensures
        map_of(s).contains_key(p) <==> exists|i: int|
            0 <= i < s.len() && #[trigger] s[i].path.deep_view() == p,
    decreases s.len(),
{
    if s.len() > 0 {
        let t = s.drop_last();
        lemma_map_of_contains(t, p);
        if p == s.last().path.deep_view() {
            assert(s[s.len() - 1].path.deep_view() == p);
        } else {
            if exists|i: int| 0 <= i < s.len() && #[trigger] s[i].path.deep_view() == p {
                let i = choose|i: int| 0 <= i < s.len() && #[trigger] s[i].path.deep_view() == p;
                assert(t[i].path.deep_view() == p);
            }
            if exists|i: int| 0 <= i < t.len() && #[trigger] t[i].path.deep_view() == p {
                let i = choose|i: int| 0 <= i < t.len() && #[trigger] t[i].path.deep_view() == p;
                assert(s[i].path.deep_view() == p);
            }
        }
    }
}

pub proof fn lemma_map_of_index(s: Seq<FsEntry>, i: int)
    requires
        distinct_paths(s),
        0 <= i < s.len(),
    ensures
        map_of(s).contains_key(s[i].path.deep_view()),
        map_of(s)[s[i].path.deep_view()] == s[i].kind@,
    decreases s.len(),
{
    let t = s.drop_last();
    if i < s.len() - 1 {
        assert(distinct_paths(t));
        lemma_map_of_index(t, i);
        assert(t[i] == s[i]);
        assert(s[i].path.deep_view() != s.last().path.deep_view());
    }
}

pub proof fn lemma_map_of_remove(s: Seq<FsEntry>, i: int)
    requires
        distinct_paths(s),
        0 <= i < s.len(),
    ensures
        distinct_paths(s.remove(i)),
        map_of(s.remove(i)) == map_of(s).remove(s[i].path.deep_view()),
    decreases s.len(),
{
    let p = s[i].path.deep_view();
    s.remove_ensures(i);
    assert(distinct_paths(s.remove(i)));
    if i == s.len() - 1 {
        assert(s.remove(i) =~= s.drop_last());
        lemma_map_of_contains(s.drop_last(), p);
        assert(forall|j: int|
            0 <= j < s.drop_last().len() ==> #[trigger] s.drop_last()[j].path.deep_view() != p);
        assert(!map_of(s.drop_last()).contains_key(p));
        assert(map_of(s).remove(p) =~= map_of(s.drop_last()));
    } else {
        let t = s.drop_last();
        let lastp = s.last().path.deep_view();
        let lastk = s.last().kind@;
        assert(distinct_paths(t));
        lemma_map_of_remove(t, i);
        assert(s.remove(i).drop_last() =~= t.remove(i));
        assert(s.remove(i).last() == s.last());
        assert(map_of(s.remove(i)) == map_of(t.remove(i)).insert(lastp, lastk));
        assert(lastp != p);
        assert(map_of(t).remove(p).insert(lastp, lastk) =~= map_of(t).insert(lastp, lastk).remove(
            p,
        ));
    }
}

pub proof fn lemma_map_of_congruence(s1: Seq<FsEntry>, s2: Seq<FsEntry>)
    requires
        s1.len() == s2.len(),
        forall|i: int|
            0 <= i < s1.len() ==> #[trigger] s1[i].path.deep_view() == s2[i].path.deep_view()
                && s1[i].kind@ == s2[i].kind@,
    ensures
        map_of(s1) == map_of(s2),
    decreases s1.len(),
{
    if s1.len() > 0 {
        assert(forall|i: int|
            0 <= i < s1.drop_last().len() ==> #[trigger] s1.drop_last()[i].path.deep_view()
                == s2.drop_last()[i].path.deep_view() && s1.drop_last()[i].kind@
                == s2.drop_last()[i].kind@);
        lemma_map_of_congruence(s1.drop_last(), s2.drop_last());
        assert(s1.last().path.deep_view() == s2.last().path.deep_view());
        assert(s1.last().kind@ == s2.last().kind@);
    }
}

// ---------------------------------------------------------------------------
// Executable path helpers
// ---------------------------------------------------------------------------

/// Component-wise equality of two paths.
pub fn path_eq(a: &Vec<String>, b: &Vec<String>) -> (r: bool)
    ensures
        r == (a.deep_view() == b.deep_view()),
{
    if a.len() != b.len() {
        proof {
            assert(a.deep_view().len() == a@.len());
            assert(b.deep_view().len() == b@.len());
        }
        return false;
    }
    let mut i: usize = 0;
    while i < a.len()
        invariant
            i <= a.len(),
            a@.len() == b@.len(),
            forall|k: int| 0 <= k < i ==> #[trigger] a@[k]@ == b@[k]@,
        decreases a.len() - i,
    {
        if !(a[i] == b[i]) {
            proof {
                assert(a.deep_view()[i as int] == a@[i as int]@);
                assert(b.deep_view()[i as int] == b@[i as int]@);
            }
            return false;
        }
        i = i + 1;
    }
    proof {
        assert(a.deep_view() =~= b.deep_view());
    }
    true
}

/// Component-wise prefix test.
pub fn path_is_prefix(p: &Vec<String>, q: &Vec<String>) -> (r: bool)
    ensures
        r == is_prefix_of(p.deep_view(), q.deep_view()),
{
    if p.len() > q.len() {
        proof {
            assert(p.deep_view().len() == p@.len());
            assert(q.deep_view().len() == q@.len());
        }
        return false;
    }
    let mut i: usize = 0;
    while i < p.len()
        invariant
            i <= p.len(),
            p@.len() <= q@.len(),
            forall|k: int| 0 <= k < i ==> #[trigger] q@[k]@ == p@[k]@,
        decreases p.len() - i,
    {
        if !(p[i] == q[i]) {
            proof {
                let pd = p.deep_view();
                let qd = q.deep_view();
                if is_prefix_of(pd, qd) {
                    assert(qd.subrange(0, pd.len() as int)[i as int] == qd[i as int]);
                }
            }
            return false;
        }
        i = i + 1;
    }
    proof {
        assert(q.deep_view().subrange(0, p.deep_view().len() as int) =~= p.deep_view());
    }
    true
}

/// A fresh copy of a path.
pub fn clone_path(p: &Vec<String>) -> (r: Vec<String>)
    ensures
        r@ == p@,
{
    let mut r: Vec<String> = Vec::new();
    let mut i: usize = 0;
    while i < p.len()
        invariant
            i <= p.len(),
            r@.len() == i,
            forall|k: int| 0 <= k < i ==> #[trigger] r@[k] == p@[k],
        decreases p.len() - i,
    {
        r.push(p[i].clone());
        i = i + 1;
    }
    proof {
        assert(r@ =~= p@);
    }
    r
}

/// `p` extended by one more component.
pub fn path_push(p: &Vec<String>, name: &String) -> (r: Vec<String>)
    ensures
        r.deep_view() == p.deep_view().push(name@),
{
    let mut r = clone_path(p);
    r.push(name.clone());
    proof {
        assert(r.deep_view() =~= p.deep_view().push(name@));
    }
    r
}

/// A fresh copy of an entry kind.
pub fn clone_kind(k: &EntryKind) -> (r: EntryKind)
    ensures
        r@ == k@,
{
    match k {
        EntryKind::File => EntryKind::File,
        EntryKind::Dir => EntryKind::Dir,
        EntryKind::Symlink(d) => EntryKind::Symlink(clone_path(d)),
    }
}

// ---------------------------------------------------------------------------
// The target tree model: executable side
// ---------------------------------------------------------------------------

/// A model of the target tree: a finite map from absolute paths to kinds,
/// held as a vector of entries with pairwise distinct paths.
pub struct Fs {
    entries: Vec<FsEntry>,
}

impl View for Fs {
    type V = Map<Seq<Seq<char>>, KindV>;

    closed spec fn view(&self) -> Map<Seq<Seq<char>>, KindV> {
        map_of(self.entries@)
    }
}

impl Fs {
    pub closed spec fn wf(&self) -> bool {
        distinct_paths(self.entries@)
    }

    /// The empty target tree.
    pub fn new() -> (r: Fs)
        ensures
            r.wf(),
            r@ == Map::<Seq<Seq<char>>, KindV>::empty(),
    {
        Fs { entries: Vec::new() }
    }

    /// What sits at `p`, if anything.
    #[verifier::loop_isolation(false)]
    pub fn lookup(&self, p: &Vec<String>) -> (r: Option<EntryKind>)
        requires
            self.wf(),
        ensures
            (match r {
                Option::Some(k) => self@.contains_key(p.deep_view()) && k@ == self@[p.deep_view()],
                Option::None => !self@.contains_key(p.deep_view()),
            }),
    {
        let mut i: usize = 0;
        while i < self.entries.len()
            invariant
                self.wf(),
                i <= self.entries@.len(),
                forall|j: int|
                    0 <= j < i ==> #[trigger] self.entries@[j].path.deep_view() != p.deep_view(),
            decreases self.entries@.len() - i,
        {
            if path_eq(&self.entries[i].path, p) {
                proof {
                    lemma_map_of_index(self.entries@, i as int);
                }
                return Option::Some(clone_kind(&self.entries[i].kind));
            }
            i = i + 1;
        }
        proof {
            lemma_map_of_contains(self.entries@, p.deep_view());
        }
        Option::None
    }

    /// Puts `k` at `p`, replacing whatever was there.
    pub fn set(&mut self, p: Vec<String>, k: EntryKind)
        requires
            old(self).wf(),
        ensures
            final(self).wf(),
            final(self)@ == old(self)@.insert(p.deep_view(), k@),
    {
        let present = match self.lookup(&p) {
            Option::Some(_) => true,
            Option::None => false,
        };
        if present {
            self.remove(&p);
            proof {
                assert(old(self)@.remove(p.deep_view()).insert(p.deep_view(), k@)
                    =~= old(self)@.insert(p.deep_view(), k@));
            }
        }
        self.insert_new(p, k);
    }

    /// Adds an entry at a path that is not yet present.
    fn insert_new(&mut self, p: Vec<String>, k: EntryKind)
        requires
            old(self).wf(),
            !old(self)@.contains_key(p.deep_view()),
        ensures
            final(self).wf(),
            final(self)@ == old(self)@.insert(p.deep_view(), k@),
    {
        let ghost s0 = self.entries@;
        let ghost pv = p.deep_view();
        let ghost kv = k@;
        self.entries.push(FsEntry { path: p, kind: k });
        proof {
            lemma_map_of_contains(s0, pv);
            assert forall|j: int| 0 <= j < s0.len() implies #[trigger] s0[j].path.deep_view()
                != pv by {
                if s0[j].path.deep_view() == pv {
                    assert(exists|i: int| 0 <= i < s0.len() && #[trigger] s0[i].path.deep_view() == pv);
                }
            }
            assert(self.entries@.drop_last() =~= s0);
            assert(self.entries@.last().path.deep_view() == pv);
            assert(self.entries@.last().kind@ == kv);
            assert(distinct_paths(self.entries@));
        }
    }

    /// Removes the entry at `p`, which must be present.
    #[verifier::loop_isolation(false)]
    pub fn remove(&mut self, p: &Vec<String>)
        requires
            old(self).wf(),
            old(self)@.contains_key(p.deep_view()),
        ensures
            final(self).wf(),
            final(self)@ == old(self)@.remove(p.deep_view()),
    {
        let ghost s0 = self.entries@;
        let mut i: usize = 0;
        while i < self.entries.len()
            invariant
                self.wf(),
                self.entries@ == s0,
                self@.contains_key(p.deep_view()),
                i <= s0.len(),
                forall|j: int|
                    0 <= j < i ==> #[trigger] s0[j].path.deep_view() != p.deep_view(),
            decreases s0.len() - i,
        {
            if path_eq(&self.entries[i].path, p) {
                proof {
                    lemma_map_of_remove(s0, i as int);
                    assert(s0[i as int].path.deep_view() == p.deep_view());
                }
                self.entries.remove(i);
                proof {
                    assert(self.entries@ == s0.remove(i as int));
                    assert(self@ == map_of(s0).remove(p.deep_view()));
                }
                return ;
            }
            i = i + 1;
        }
        proof {
            lemma_map_of_contains(s0, p.deep_view());
            assert(false);
        }
    }

    /// Removes every entry at or below `p`.
    #[verifier::loop_isolation(false)]
    pub fn remove_subtree(&mut self, p: &Vec<String>)
        requires
            old(self).wf(),
        ensures
            final(self).wf(),
            final(self)@ == remove_subtree_map(old(self)@, p.deep_view()),
    {
        let ghost m0 = self@;
        let ghost pv = p.deep_view();
        let mut done = false;
        while !done
            invariant
                self.wf(),
                remove_subtree_map(self@, pv) == remove_subtree_map(m0, pv),
                done ==> self@ == remove_subtree_map(m0, pv),
            decreases self.entries@.len() + (if done { 0int } else { 1int }),
        {
            let ghost s = self.entries@;
            match self.find_below(p) {
                Option::Some(ix) => {
                    proof {
                        let q = s[ix as int].path.deep_view();
                        lemma_map_of_remove(s, ix as int);
                        assert(remove_subtree_map(map_of(s).remove(q), pv) =~= remove_subtree_map(
                            map_of(s),
                            pv,
                        ));
                    }
                    self.entries.remove(ix);
                },
                Option::None => {
                    proof {
                        lemma_map_of_contains_all(s, pv);
                        assert(self@ =~= remove_subtree_map(map_of(s), pv));
                    }
                    done = true;
                },
            }
        }
    }

    /// The index of some entry at or below `p`, if one exists.
    #[verifier::loop_isolation(false)]
    fn find_below(&self, p: &Vec<String>) -> (r: Option<usize>)
        ensures
            (match r {
                Option::Some(i) => i < self.entries@.len() && is_prefix_of(
                    p.deep_view(),
                    self.entries@[i as int].path.deep_view(),
                ),
                Option::None => forall|j: int|
                    0 <= j < self.entries@.len() ==> !is_prefix_of(
                        p.deep_view(),
                        #[trigger] self.entries@[j].path.deep_view(),
                    ),
            }),
    {
        let mut i: usize = 0;
        while i < self.entries.len()
            invariant
                i <= self.entries@.len(),
                forall|j: int|
                    0 <= j < i ==> !is_prefix_of(
                        p.deep_view(),
                        #[trigger] self.entries@[j].path.deep_view(),
                    ),
            decreases self.entries@.len() - i,
        {
            if path_is_prefix(p, &self.entries[i].path) {
                return Option::Some(i);
            }
            i = i + 1;
        }
        Option::None
    }

    /// Whether anything sits directly inside the directory at `p`.
    #[verifier::loop_isolation(false)]
    pub fn has_child(&self, p: &Vec<String>) -> (r: bool)
        requires
            self.wf(),
        ensures
            r == has_child_of(self@, p.deep_view()),
    {
        let ghost pv = p.deep_view();
        let mut i: usize = 0;
        while i < self.entries.len()
            invariant
                self.wf(),
                i <= self.entries@.len(),
                forall|j: int|
                    0 <= j < i ==> !(#[trigger] self.entries@[j].path.deep_view().len() == pv.len()
                        + 1 && is_prefix_of(pv, self.entries@[j].path.deep_view())),
            decreases self.entries@.len() - i,
        {
            proof {
                assert(self.entries@[i as int].path.deep_view().len()
                    == self.entries@[i as int].path@.len());
                assert(pv.len() == p@.len());
            }
            let e_len = self.entries[i].path.len();
            if e_len > p.len() && e_len - p.len() == 1 && path_is_prefix(p, &self.entries[i].path) {
                proof {
                    lemma_map_of_index(self.entries@, i as int);
                    let q = self.entries@[i as int].path.deep_view();
                    assert(self@.dom().contains(q) && q.len() == pv.len() + 1 && is_prefix_of(
                        pv,
                        q,
                    ));
                }
                return true;
            }
            i = i + 1;
        }
        proof {
            if has_child_of(self@, pv) {
                let q = choose|q: Seq<Seq<char>>|
                    self@.dom().contains(q) && q.len() == pv.len() + 1 && is_prefix_of(pv, q);
                lemma_map_of_contains(self.entries@, q);
                let j = choose|j: int|
                    0 <= j < self.entries@.len() && #[trigger] self.entries@[j].path.deep_view()
                        == q;
                assert(false);
            }
        }
        false
    }

    /// A fresh copy of the whole model.
    #[verifier::loop_isolation(false)]
    pub fn duplicate(&self) -> (r: Fs)
        requires
            self.wf(),
        ensures
            r.wf(),
            r@ == self@,
    {
        let mut entries: Vec<FsEntry> = Vec::new();
        let mut i: usize = 0;
        while i < self.entries.len()
            invariant
                self.wf(),
                i <= self.entries@.len(),
                entries@.len() == i,
                forall|k: int|
                    0 <= k < i ==> #[trigger] entries@[k].path.deep_view()
                        == self.entries@[k].path.deep_view() && entries@[k].kind@
                        == self.entries@[k].kind@,
            decreases self.entries@.len() - i,
        {
            let e = FsEntry {
                path: clone_path(&self.entries[i].path),
                kind: clone_kind(&self.entries[i].kind),
            };
            let ghost pre = entries@;
            entries.push(e);
            proof {
                assert forall|k: int| 0 <= k < i + 1 implies #[trigger] entries@[k].path.deep_view()
                    == self.entries@[k].path.deep_view() && entries@[k].kind@
                    == self.entries@[k].kind@ by {
                    if k < i {
                        assert(entries@[k] == pre[k]);
                    } else {
                        assert(entries@[k] == e);
                    }
                }
            }
            i = i + 1;
        }
        proof {
            lemma_map_of_congruence(entries@, self.entries@);
            assert(distinct_paths(entries@));
        }
        Fs { entries }
    }
}

/// If no entry of `s` lies at or below `p`, the denoted map holds no such
/// path either.
pub proof fn lemma_map_of_contains_all(s: Seq<FsEntry>, p: Seq<Seq<char>>)
    requires
        forall|j: int| 0 <= j < s.len() ==> !is_prefix_of(p, #[trigger] s[j].path.deep_view()),
    ensures
        forall|q: Seq<Seq<char>>|
            map_of(s).contains_key(q) ==> !is_prefix_of(p, q),
{
    assert forall|q: Seq<Seq<char>>| map_of(s).contains_key(q) implies !is_prefix_of(p, q) by {
        lemma_map_of_contains(s, q);
        let i = choose|i: int| 0 <= i < s.len() && #[trigger] s[i].path.deep_view() == q;
    }
}

// ---------------------------------------------------------------------------
// Reports
// ---------------------------------------------------------------------------

/// A report at the specification level.
pub enum ReportV {
    /// A symlink to `dest` was created at `at`.
    Link { dest: Seq<Seq<char>>, at: Seq<Seq<char>> },
    /// The tree at `src` was copied to `at`.
    Copied { src: Seq<Seq<char>>, at: Seq<Seq<char>> },
    /// The symlink at `at` was removed.
    Unlink { at: Seq<Seq<char>> },
    /// The entry at `at` was deleted.
    Deleted { at: Seq<Seq<char>> },
    /// The directory at `at`, left empty, was removed.
    Pruned { at: Seq<Seq<char>> },
    /// The entry at `at` is already stowed; nothing was done.
    SkipExisting { at: Seq<Seq<char>> },
    /// The entry at `at` conflicts and overwriting is not permitted.
    SkipConflict { at: Seq<Seq<char>> },
    /// The module at `at` is not a directory; it was skipped.
    SkipModule { at: Seq<Seq<char>> },
    /// The target at `at` is not a directory; the module was skipped.
    SkipTarget { at: Seq<Seq<char>> },
}

/// One action taken, or decision made, by the engine. The surrounding
/// program logs these and replays the mutating ones against the real
/// filesystem.
#[derive(Debug, PartialEq, Eq)]
pub enum Report {
    Link { dest: Vec<String>, at: Vec<String> },
    Copied { src: Vec<String>, at: Vec<String> },
    Unlink { at: Vec<String> },
    Deleted { at: Vec<String> },
    Pruned { at: Vec<String> },
    SkipExisting { at: Vec<String> },
    SkipConflict { at: Vec<String> },
    SkipModule { at: Vec<String> },
    SkipTarget { at: Vec<String> },
}

impl View for Report {
    type V = ReportV;

    open spec fn view(&self) -> ReportV {
        match self {
            Report::Link { dest, at } => (ReportV::Link {
                dest: dest.deep_view(),
                at: at.deep_view(),
            }),
            Report::Copied { src, at } => (ReportV::Copied {
                src: src.deep_view(),
                at: at.deep_view(),
            }),
            Report::Unlink { at } => (ReportV::Unlink { at: at.deep_view() }),
            Report::Deleted { at } => (ReportV::Deleted { at: at.deep_view() }),
            Report::Pruned { at } => (ReportV::Pruned { at: at.deep_view() }),
            Report::SkipExisting { at } => (ReportV::SkipExisting { at: at.deep_view() }),
            Report::SkipConflict { at } => (ReportV::SkipConflict { at: at.deep_view() }),
            Report::SkipModule { at } => (ReportV::SkipModule { at: at.deep_view() }),
            Report::SkipTarget { at } => (ReportV::SkipTarget { at: at.deep_view() }),
        }
    }
}

impl DeepView for Report {
    type V = ReportV;

    open spec fn deep_view(&self) -> ReportV {
        self@
    }
}

} // verus!
