//! Laws of the merge engine, proved over its specification functions:
//! framing (a walk touches nothing outside the mapped subtrees),
//! idempotence of stow in link mode, the gating of overwrites, merging
//! into existing directories, and stow followed by unstow being an
//! inverse on a clean target.

use vstd::prelude::*;
use crate::model::{DirEntry, KindV, dest_of, remove_subtree_map, wf_node};
use crate::model::Node;
use crate::path_map::is_prefix_of;
use crate::engine::{
    create_map, create_report, insert_tree_entries, insert_tree_map, stow_entries_spec,
    stow_entry_spec, stow_phase_bc, unstow_entries_spec, unstow_entry_spec,
};
use crate::model::ReportV;

verus! {

// ---------------------------------------------------------------------------
// Paths
// ---------------------------------------------------------------------------

/// Every path is a prefix of itself.
pub proof fn lemma_prefix_refl(p: Seq<Seq<char>>)
    ensures
        is_prefix_of(p, p),
{
    assert(p.subrange(0, p.len() as int) =~= p);
}

/// A path is a prefix of its own extension.
pub proof fn lemma_prefix_push(p: Seq<Seq<char>>, x: Seq<char>)
    ensures
        is_prefix_of(p, p.push(x)),
{
    assert(p.push(x).subrange(0, p.len() as int) =~= p);
}

/// Prefixes compose.
pub proof fn lemma_prefix_trans(a: Seq<Seq<char>>, b: Seq<Seq<char>>, c: Seq<Seq<char>>)
    requires
        is_prefix_of(a, b),
        is_prefix_of(b, c),
    ensures
        is_prefix_of(a, c),
{
    assert forall|k: int| 0 <= k < a.len() implies c.subrange(0, a.len() as int)[k] == a[k] by {
        assert(b[k] == c.subrange(0, b.len() as int)[k]);
        assert(a[k] == b.subrange(0, a.len() as int)[k]);
    }
    assert(c.subrange(0, a.len() as int) =~= a);
}

/// Distinctly named siblings root disjoint subtrees.
pub proof fn lemma_siblings_disjoint(tp: Seq<Seq<char>>, a: Seq<char>, b: Seq<char>, q: Seq<Seq<char>>)
    requires
        a != b,
    ensures
        !(is_prefix_of(tp.push(a), q) && is_prefix_of(tp.push(b), q)),
{
    if is_prefix_of(tp.push(a), q) && is_prefix_of(tp.push(b), q) {
        assert(q.subrange(0, tp.push(a).len() as int)[tp.len() as int] == a);
        assert(q.subrange(0, tp.push(b).len() as int)[tp.len() as int] == b);
        assert(q[tp.len() as int] == a);
        assert(q[tp.len() as int] == b);
    }
}

// ---------------------------------------------------------------------------
// Agreement between trees
// ---------------------------------------------------------------------------

/// `m1` and `m2` say the same about the path `q`.
pub open spec fn same_at(
    m1: Map<Seq<Seq<char>>, KindV>,
    m2: Map<Seq<Seq<char>>, KindV>,
    q: Seq<Seq<char>>,
) -> bool {
    m1.contains_key(q) == m2.contains_key(q) && (m1.contains_key(q) ==> m1[q] == m2[q])
}

/// `m1` and `m2` agree everywhere outside the subtree rooted at `p`.
pub open spec fn same_outside(
    m1: Map<Seq<Seq<char>>, KindV>,
    m2: Map<Seq<Seq<char>>, KindV>,
    p: Seq<Seq<char>>,
) -> bool {
    forall|q: Seq<Seq<char>>| !#[trigger] is_prefix_of(p, q) ==> same_at(m1, m2, q)
}

/// `m1` and `m2` agree everywhere inside the subtree rooted at `p`.
pub open spec fn same_inside(
    m1: Map<Seq<Seq<char>>, KindV>,
    m2: Map<Seq<Seq<char>>, KindV>,
    p: Seq<Seq<char>>,
) -> bool {
    forall|q: Seq<Seq<char>>| #[trigger] is_prefix_of(p, q) ==> same_at(m1, m2, q)
}

/// `q` lies in none of the subtrees that the entries of `s` map to under
/// `tp`.
pub open spec fn untouched_by(tp: Seq<Seq<char>>, s: Seq<DirEntry>, q: Seq<Seq<char>>) -> bool {
    forall|j: int| 0 <= j < s.len() ==> !is_prefix_of(tp.push(#[trigger] s[j].name@), q)
}

// ---------------------------------------------------------------------------
// Frame lemmas: what a walk can touch
// ---------------------------------------------------------------------------

/// Materialising a tree at `tp` changes nothing outside that subtree.
pub proof fn lemma_insert_tree_frame(m: Map<Seq<Seq<char>>, KindV>, tp: Seq<Seq<char>>, n: Node)
    ensures
        same_outside(insert_tree_map(m, tp, n), m, tp),
    decreases n, 1int,
{
    lemma_prefix_refl(tp);
    match n {
        Node::File => {},
        Node::Dir { entries } => {
            lemma_insert_tree_entries_frame(m.insert(tp, KindV::Dir), tp, entries@);
        },
    }
}

/// Materialising a directory's entries under `tp` changes nothing
/// outside that subtree.
pub proof fn lemma_insert_tree_entries_frame(
    m: Map<Seq<Seq<char>>, KindV>,
    tp: Seq<Seq<char>>,
    s: Seq<DirEntry>,
)
    ensures
        same_outside(insert_tree_entries(m, tp, s), m, tp),
    decreases s, 0int,
{
    if s.len() > 0 {
        let tp1 = tp.push(s[0].name@);
        let m1 = insert_tree_map(m, tp1, s[0].node);
        lemma_insert_tree_frame(m, tp1, s[0].node);
        lemma_insert_tree_entries_frame(m1, tp, s.subrange(1, s.len() as int));
        assert forall|q: Seq<Seq<char>>| !#[trigger] is_prefix_of(tp, q) implies same_at(
            insert_tree_entries(m, tp, s),
            m,
            q,
        ) by {
            lemma_prefix_push(tp, s[0].name@);
            if is_prefix_of(tp1, q) {
                lemma_prefix_trans(tp, tp1, q);
            }
            assert(same_at(m1, m, q));
        }
    }
}

/// Stowing one entry changes nothing outside the subtree at its mapped
/// target path.
pub proof fn lemma_stow_entry_frame(
    m: Map<Seq<Seq<char>>, KindV>,
    cp: bool,
    ow: bool,
    sp: Seq<Seq<char>>,
    tp: Seq<Seq<char>>,
    e: DirEntry,
)
    ensures
        same_outside(stow_entry_spec(m, cp, ow, sp, tp, e).0, m, tp.push(e.name@)),
    decreases e.node, 2int,
{
    let sp1 = sp.push(e.name@);
    let tp1 = tp.push(e.name@);
    if m.contains_key(tp1) && m[tp1] is Symlink && (cp || dest_of(m[tp1]) != sp1) && ow {
        let m1 = remove_subtree_map(m, tp1);
        lemma_stow_phase_frame(m1, cp, ow, sp1, tp1, e.node);
        assert forall|q: Seq<Seq<char>>| !#[trigger] is_prefix_of(tp1, q) implies same_at(
            stow_entry_spec(m, cp, ow, sp, tp, e).0,
            m,
            q,
        ) by {
            assert(same_at(m1, m, q));
            assert(same_at(stow_phase_bc(m1, cp, ow, sp1, tp1, e.node).0, m1, q));
        }
    } else if m.contains_key(tp1) && m[tp1] is Symlink {
        // skipped: nothing changes
    } else {
        lemma_stow_phase_frame(m, cp, ow, sp1, tp1, e.node);
    }
}

/// The post-conflict part of a stow changes nothing outside the subtree
/// at the entry's mapped target path.
pub proof fn lemma_stow_phase_frame(
    m: Map<Seq<Seq<char>>, KindV>,
    cp: bool,
    ow: bool,
    sp1: Seq<Seq<char>>,
    tp1: Seq<Seq<char>>,
    n: Node,
)
    ensures
        same_outside(stow_phase_bc(m, cp, ow, sp1, tp1, n).0, m, tp1),
    decreases n, 1int,
{
    lemma_prefix_refl(tp1);
    if n is File && m.contains_key(tp1) {
        if ow {
            let m1 = remove_subtree_map(m, tp1);
            if cp {
                lemma_insert_tree_frame(m1, tp1, n);
            }
        }
    } else if !m.contains_key(tp1) {
        if cp {
            lemma_insert_tree_frame(m, tp1, n);
        }
    } else if m[tp1] is Dir {
        match n {
            Node::Dir { entries } => {
                lemma_stow_entries_frame(m, cp, ow, sp1, tp1, entries@);
                assert forall|q: Seq<Seq<char>>| !#[trigger] is_prefix_of(tp1, q) implies same_at(
                    stow_phase_bc(m, cp, ow, sp1, tp1, n).0,
                    m,
                    q,
                ) by {
                    assert forall|j: int| 0 <= j < entries@.len() implies !is_prefix_of(
                        tp1.push(#[trigger] entries@[j].name@),
                        q,
                    ) by {
                        lemma_prefix_push(tp1, entries@[j].name@);
                        if is_prefix_of(tp1.push(entries@[j].name@), q) {
                            lemma_prefix_trans(tp1, tp1.push(entries@[j].name@), q);
                        }
                    }
                    assert(untouched_by(tp1, entries@, q));
                }
            },
            Node::File => {},
        }
    }
}

/// A stow walk changes nothing outside the subtrees its entries map to:
/// every target path it ever touches comes from the path mapper.
pub proof fn lemma_stow_entries_frame(
    m: Map<Seq<Seq<char>>, KindV>,
    cp: bool,
    ow: bool,
    sp: Seq<Seq<char>>,
    tp: Seq<Seq<char>>,
    s: Seq<DirEntry>,
)
    ensures
        forall|q: Seq<Seq<char>>| #[trigger]
            untouched_by(tp, s, q) ==> same_at(stow_entries_spec(m, cp, ow, sp, tp, s).0, m, q),
    decreases s, 0int,
{
    if s.len() > 0 {
        let rest = s.subrange(1, s.len() as int);
        let m1 = stow_entry_spec(m, cp, ow, sp, tp, s[0]).0;
        lemma_stow_entry_frame(m, cp, ow, sp, tp, s[0]);
        lemma_stow_entries_frame(m1, cp, ow, sp, tp, rest);
        assert forall|q: Seq<Seq<char>>| #[trigger] untouched_by(tp, s, q) implies same_at(
            stow_entries_spec(m, cp, ow, sp, tp, s).0,
            m,
            q,
        ) by {
            assert(!is_prefix_of(tp.push(s[0].name@), q));
            assert(same_at(m1, m, q));
            assert forall|j: int| 0 <= j < rest.len() implies !is_prefix_of(
                tp.push(#[trigger] rest[j].name@),
                q,
            ) by {
                assert(rest[j] == s[j + 1]);
            }
            assert(untouched_by(tp, rest, q));
            assert(same_at(stow_entries_spec(m1, cp, ow, sp, tp, rest).0, m1, q));
        }
    }
}

/// Unstowing one entry changes nothing outside the directory it lies
/// in (the entry's own subtree, plus possibly the pruned parent).
pub proof fn lemma_unstow_entry_frame(
    m: Map<Seq<Seq<char>>, KindV>,
    tp: Seq<Seq<char>>,
    e: DirEntry,
)
    ensures
        same_outside(unstow_entry_spec(m, tp, e).0, m, tp),
    decreases e.node, 1int,
{
    let tp1 = tp.push(e.name@);
    lemma_prefix_refl(tp);
    lemma_prefix_push(tp, e.name@);
    if m.contains_key(tp1) {
        if m[tp1] is Symlink {
            assert forall|q: Seq<Seq<char>>| !#[trigger] is_prefix_of(tp, q) implies same_at(
                unstow_entry_spec(m, tp, e).0,
                m,
                q,
            ) by {
                if q == tp1 {
                    lemma_prefix_trans(tp, tp1, q);
                }
            }
        } else if m[tp1] is File {
            assert forall|q: Seq<Seq<char>>| !#[trigger] is_prefix_of(tp, q) implies same_at(
                unstow_entry_spec(m, tp, e).0,
                m,
                q,
            ) by {
                if q == tp1 {
                    lemma_prefix_trans(tp, tp1, q);
                }
            }
        } else {
            match e.node {
                Node::Dir { entries } => {
                    lemma_unstow_entries_frame(m, tp1, entries@);
                    assert forall|q: Seq<Seq<char>>| !#[trigger] is_prefix_of(tp, q) implies
                        same_at(unstow_entry_spec(m, tp, e).0, m, q) by {
                        if is_prefix_of(tp1, q) {
                            lemma_prefix_trans(tp, tp1, q);
                        }
                    }
                },
                Node::File => {},
            }
        }
    }
}

/// An unstow walk removes only paths derived from the module being
/// unstowed: nothing outside the directory it works in is touched.
pub proof fn lemma_unstow_entries_frame(
    m: Map<Seq<Seq<char>>, KindV>,
    tp: Seq<Seq<char>>,
    s: Seq<DirEntry>,
)
    ensures
        same_outside(unstow_entries_spec(m, tp, s).0, m, tp),
    decreases s, 0int,
{
    if s.len() > 0 {
        let rest = s.subrange(1, s.len() as int);
        let m1 = unstow_entry_spec(m, tp, s[0]).0;
        lemma_unstow_entry_frame(m, tp, s[0]);
        lemma_unstow_entries_frame(m1, tp, rest);
    }
}

// ---------------------------------------------------------------------------
// Well-formed entry lists
// ---------------------------------------------------------------------------

/// Sibling entries carry pairwise distinct names.
pub open spec fn distinct_names(s: Seq<DirEntry>) -> bool {
    forall|i: int, j: int| 0 <= i < j < s.len() ==> s[i].name@ != s[j].name@
}

/// A well-formed entry list: distinct names, and well-formed subtrees.
pub open spec fn wf_entries(s: Seq<DirEntry>) -> bool {
    distinct_names(s) && forall|i: int| 0 <= i < s.len() ==> wf_node(#[trigger] s[i].node)
}

// ---------------------------------------------------------------------------
// Stability: what a link-mode stow leaves behind
// ---------------------------------------------------------------------------

/// After a link-mode stow, each mapped target path holds either the
/// correct symlink or a conflict that the policy refuses to touch; a
/// second run can only skip.
pub open spec fn stable_entry(
    m: Map<Seq<Seq<char>>, KindV>,
    ow: bool,
    sp: Seq<Seq<char>>,
    tp: Seq<Seq<char>>,
    e: DirEntry,
) -> bool
    decreases e.node, 1int,
{
    let sp1 = sp.push(e.name@);
    let tp1 = tp.push(e.name@);
    m.contains_key(tp1) && match m[tp1] {
        KindV::Symlink(d) => d == sp1 || !ow,
        KindV::File => e.node is Dir || !ow,
        KindV::Dir => match e.node {
            Node::Dir { entries } => stable_entries(m, ow, sp1, tp1, entries@),
            Node::File => !ow,
        },
    }
}

pub open spec fn stable_entries(
    m: Map<Seq<Seq<char>>, KindV>,
    ow: bool,
    sp: Seq<Seq<char>>,
    tp: Seq<Seq<char>>,
    s: Seq<DirEntry>,
) -> bool
    decreases s, 0int,
{
    forall|i: int| 0 <= i < s.len() ==> stable_entry(m, ow, sp, tp, #[trigger] s[i])
}

/// Stability reads only the subtree at the entry's target path.
pub proof fn lemma_stable_entry_congruence(
    m1: Map<Seq<Seq<char>>, KindV>,
    m2: Map<Seq<Seq<char>>, KindV>,
    ow: bool,
    sp: Seq<Seq<char>>,
    tp: Seq<Seq<char>>,
    e: DirEntry,
)
    requires
        stable_entry(m1, ow, sp, tp, e),
        same_inside(m1, m2, tp.push(e.name@)),
    ensures
        stable_entry(m2, ow, sp, tp, e),
    decreases e.node, 1int,
{
    let tp1 = tp.push(e.name@);
    lemma_prefix_refl(tp1);
    assert(same_at(m1, m2, tp1));
    match m1[tp1] {
        KindV::Symlink(d) => {},
        KindV::File => {},
        KindV::Dir => {
            match e.node {
                Node::Dir { entries } => {
                    lemma_stable_entries_congruence(
                        m1,
                        m2,
                        ow,
                        sp.push(e.name@),
                        tp1,
                        entries@,
                    );
                },
                Node::File => {},
            }
        },
    }
}

pub proof fn lemma_stable_entries_congruence(
    m1: Map<Seq<Seq<char>>, KindV>,
    m2: Map<Seq<Seq<char>>, KindV>,
    ow: bool,
    sp: Seq<Seq<char>>,
    tp: Seq<Seq<char>>,
    s: Seq<DirEntry>,
)
    requires
        stable_entries(m1, ow, sp, tp, s),
        same_inside(m1, m2, tp),
    ensures
        stable_entries(m2, ow, sp, tp, s),
    decreases s, 0int,
{
    assert forall|i: int| 0 <= i < s.len() implies stable_entry(m2, ow, sp, tp, #[trigger] s[i]) by {
        assert(stable_entry(m1, ow, sp, tp, s[i]));
        assert forall|q: Seq<Seq<char>>| #[trigger]
            is_prefix_of(tp.push(s[i].name@), q) implies same_at(m1, m2, q) by {
            lemma_prefix_push(tp, s[i].name@);
            lemma_prefix_trans(tp, tp.push(s[i].name@), q);
        }
        lemma_stable_entry_congruence(m1, m2, ow, sp, tp, s[i]);
    }
}

/// A link-mode stow establishes stability.
pub proof fn lemma_stow_entry_stable(
    m: Map<Seq<Seq<char>>, KindV>,
    ow: bool,
    sp: Seq<Seq<char>>,
    tp: Seq<Seq<char>>,
    e: DirEntry,
)
    requires
        wf_node(e.node),
    ensures
        stable_entry(stow_entry_spec(m, false, ow, sp, tp, e).0, ow, sp, tp, e),
    decreases e.node, 2int,
{
    let sp1 = sp.push(e.name@);
    let tp1 = tp.push(e.name@);
    let r = stow_entry_spec(m, false, ow, sp, tp, e).0;
    lemma_prefix_refl(tp1);
    if m.contains_key(tp1) && m[tp1] is Symlink {
        if dest_of(m[tp1]) == sp1 {
        } else if ow {
            let m1 = remove_subtree_map(m, tp1);
            assert(!m1.contains_key(tp1));
            assert(r == m1.insert(tp1, KindV::Symlink(sp1)));
        } else {
        }
    } else {
        if e.node is File && m.contains_key(tp1) {
            if ow {
                let m1 = remove_subtree_map(m, tp1);
                assert(!m1.contains_key(tp1));
                assert(r == m1.insert(tp1, KindV::Symlink(sp1)));
            }
        } else if !m.contains_key(tp1) {
            assert(r == m.insert(tp1, KindV::Symlink(sp1)));
        } else if m[tp1] is Dir {
            match e.node {
                Node::Dir { entries } => {
                    lemma_stow_entries_stable(m, ow, sp1, tp1, entries@);
                    lemma_stow_entries_frame(m, false, ow, sp1, tp1, entries@);
                    assert forall|j: int| 0 <= j < entries@.len() implies !is_prefix_of(
                        tp1.push(#[trigger] entries@[j].name@),
                        tp1,
                    ) by {}
                    assert(untouched_by(tp1, entries@, tp1));
                    assert(same_at(r, m, tp1));
                },
                Node::File => {},
            }
        }
    }
}

pub proof fn lemma_stow_entries_stable(
    m: Map<Seq<Seq<char>>, KindV>,
    ow: bool,
    sp: Seq<Seq<char>>,
    tp: Seq<Seq<char>>,
    s: Seq<DirEntry>,
)
    requires
        wf_entries(s),
    ensures
        stable_entries(stow_entries_spec(m, false, ow, sp, tp, s).0, ow, sp, tp, s),
    decreases s, 0int,
{
    if s.len() > 0 {
        let rest = s.subrange(1, s.len() as int);
        let m1 = stow_entry_spec(m, false, ow, sp, tp, s[0]).0;
        let r = stow_entries_spec(m1, false, ow, sp, tp, rest).0;
        assert(stow_entries_spec(m, false, ow, sp, tp, s).0 == r);
        lemma_stow_entry_stable(m, ow, sp, tp, s[0]);
        assert(wf_entries(rest)) by {
            assert(forall|j: int| 0 <= j < rest.len() ==> #[trigger] rest[j] == s[j + 1]);
        }
        lemma_stow_entries_stable(m1, ow, sp, tp, rest);
        lemma_stow_entries_frame(m1, false, ow, sp, tp, rest);
        assert forall|q: Seq<Seq<char>>| #[trigger]
            is_prefix_of(tp.push(s[0].name@), q) implies same_at(m1, r, q) by {
            assert forall|j: int| 0 <= j < rest.len() implies !is_prefix_of(
                tp.push(#[trigger] rest[j].name@),
                q,
            ) by {
                assert(rest[j] == s[j + 1]);
                lemma_siblings_disjoint(tp, s[0].name@, s[j + 1].name@, q);
            }
            assert(untouched_by(tp, rest, q));
            assert(same_at(r, m1, q));
        }
        lemma_stable_entry_congruence(m1, r, ow, sp, tp, s[0]);
        assert forall|i: int| 0 <= i < s.len() implies stable_entry(r, ow, sp, tp, #[trigger] s[i]) by {
            if i > 0 {
                assert(rest[i - 1] == s[i]);
                assert(stable_entry(r, ow, sp, tp, rest[i - 1]));
            }
        }
    }
}

/// The reports of a run that only skips.
pub open spec fn all_skips(r: Seq<ReportV>) -> bool {
    forall|i: int| 0 <= i < r.len() ==> (#[trigger] r[i] is SkipExisting || r[i] is SkipConflict)
}

/// On a stable tree a link-mode stow is a no-op that only reports skips.
pub proof fn lemma_stable_stow_entry(
    m: Map<Seq<Seq<char>>, KindV>,
    ow: bool,
    sp: Seq<Seq<char>>,
    tp: Seq<Seq<char>>,
    e: DirEntry,
)
    requires
        stable_entry(m, ow, sp, tp, e),
    ensures
        stow_entry_spec(m, false, ow, sp, tp, e).0 == m,
        all_skips(stow_entry_spec(m, false, ow, sp, tp, e).1),
    decreases e.node, 2int,
{
    let sp1 = sp.push(e.name@);
    let tp1 = tp.push(e.name@);
    match m[tp1] {
        KindV::Symlink(d) => {},
        KindV::File => {},
        KindV::Dir => {
            match e.node {
                Node::Dir { entries } => {
                    lemma_stable_stow_entries(m, ow, sp1, tp1, entries@);
                },
                Node::File => {},
            }
        },
    }
}

pub proof fn lemma_stable_stow_entries(
    m: Map<Seq<Seq<char>>, KindV>,
    ow: bool,
    sp: Seq<Seq<char>>,
    tp: Seq<Seq<char>>,
    s: Seq<DirEntry>,
)
    requires
        stable_entries(m, ow, sp, tp, s),
    ensures
        stow_entries_spec(m, false, ow, sp, tp, s).0 == m,
        all_skips(stow_entries_spec(m, false, ow, sp, tp, s).1),
    decreases s, 0int,
{
    if s.len() > 0 {
        let rest = s.subrange(1, s.len() as int);
        assert(stable_entry(m, ow, sp, tp, s[0]));
        lemma_stable_stow_entry(m, ow, sp, tp, s[0]);
        assert(stable_entries(m, ow, sp, tp, rest)) by {
            assert(forall|j: int| 0 <= j < rest.len() ==> #[trigger] rest[j] == s[j + 1]);
        }
        lemma_stable_stow_entries(m, ow, sp, tp, rest);
        let r1 = stow_entry_spec(m, false, ow, sp, tp, s[0]).1;
        let r2 = stow_entries_spec(m, false, ow, sp, tp, rest).1;
        assert forall|i: int| 0 <= i < (r1 + r2).len() implies (#[trigger] (r1 + r2)[i]
            is SkipExisting || (r1 + r2)[i] is SkipConflict) by {
            if i < r1.len() {
                assert((r1 + r2)[i] == r1[i]);
            } else {
                assert((r1 + r2)[i] == r2[i - r1.len()]);
            }
        }
    }
}

/// Idempotence: running a link-mode stow twice with the same policy
/// leaves the tree of the first run unchanged, and the second run
/// reports every entry as a skip.
pub proof fn lemma_stow_idempotent(
    m: Map<Seq<Seq<char>>, KindV>,
    ow: bool,
    sp: Seq<Seq<char>>,
    tp: Seq<Seq<char>>,
    s: Seq<DirEntry>,
)
    requires
        wf_entries(s),
    ensures
        ({
            let once = stow_entries_spec(m, false, ow, sp, tp, s);
            let twice = stow_entries_spec(once.0, false, ow, sp, tp, s);
            twice.0 == once.0 && all_skips(twice.1)
        }),
{
    lemma_stow_entries_stable(m, ow, sp, tp, s);
    lemma_stable_stow_entries(stow_entries_spec(m, false, ow, sp, tp, s).0, ow, sp, tp, s);
}

// ---------------------------------------------------------------------------
// Overwrite gating
// ---------------------------------------------------------------------------

/// A plain file already at the mapped target path: without the overwrite
/// flag it is left untouched and the entry reports a skip; with the flag
/// it is deleted and the module's link (or copy) takes its place.
pub proof fn lemma_overwrite_gating(
    m: Map<Seq<Seq<char>>, KindV>,
    cp: bool,
    ow: bool,
    sp: Seq<Seq<char>>,
    tp: Seq<Seq<char>>,
    e: DirEntry,
)
    requires
        e.node is File,
        m.contains_key(tp.push(e.name@)),
        m[tp.push(e.name@)] is File,
    ensures
        ({
            let sp1 = sp.push(e.name@);
            let tp1 = tp.push(e.name@);
            let st = stow_entry_spec(m, cp, ow, sp, tp, e);
            &&& (!ow ==> st.0 == m && st.1 =~= seq![(ReportV::SkipConflict { at: tp1 })])
            &&& (ow ==> st.0 == create_map(remove_subtree_map(m, tp1), cp, sp1, tp1, e.node)
                && st.1 =~= seq![(ReportV::Deleted { at: tp1 }), create_report(cp, sp1, tp1)])
            &&& (ow && !cp ==> st.0.contains_key(tp1) && st.0[tp1] == KindV::Symlink(sp1))
        }),
{
}

// ---------------------------------------------------------------------------
// Merge, not replace
// ---------------------------------------------------------------------------

/// A directory that already exists at the mapped target path is merged
/// into, never replaced: it stays a directory, and content inside it at
/// a name the module does not carry is untouched.
pub proof fn lemma_merge_not_replace(
    m: Map<Seq<Seq<char>>, KindV>,
    cp: bool,
    ow: bool,
    sp: Seq<Seq<char>>,
    tp: Seq<Seq<char>>,
    e: DirEntry,
    x: Seq<char>,
)
    requires
        e.node is Dir,
        m.contains_key(tp.push(e.name@)),
        m[tp.push(e.name@)] is Dir,
        forall|j: int|
            0 <= j < crate::engine::module_entries(e.node).len()
                ==> #[trigger] crate::engine::module_entries(e.node)[j].name@ != x,
    ensures
        ({
            let tp1 = tp.push(e.name@);
            let st = stow_entry_spec(m, cp, ow, sp, tp, e);
            &&& st.0.contains_key(tp1) && st.0[tp1] == m[tp1]
            &&& forall|q: Seq<Seq<char>>| #[trigger]
                is_prefix_of(tp1.push(x), q) ==> same_at(st.0, m, q)
        }),
{
    let sp1 = sp.push(e.name@);
    let tp1 = tp.push(e.name@);
    let st = stow_entry_spec(m, cp, ow, sp, tp, e);
    match e.node {
        Node::Dir { entries } => {
            assert(st.0 == stow_entries_spec(m, cp, ow, sp1, tp1, entries@).0);
            lemma_stow_entries_frame(m, cp, ow, sp1, tp1, entries@);
            assert forall|j: int| 0 <= j < entries@.len() implies !is_prefix_of(
                tp1.push(#[trigger] entries@[j].name@),
                tp1,
            ) by {}
            assert(untouched_by(tp1, entries@, tp1));
            assert(same_at(st.0, m, tp1));
            assert forall|q: Seq<Seq<char>>| #[trigger]
                is_prefix_of(tp1.push(x), q) implies same_at(st.0, m, q) by {
                assert forall|j: int| 0 <= j < entries@.len() implies !is_prefix_of(
                    tp1.push(#[trigger] entries@[j].name@),
                    q,
                ) by {
                    assert(crate::engine::module_entries(e.node) == entries@);
                    assert(crate::engine::module_entries(e.node)[j].name@ != x);
                    lemma_siblings_disjoint(tp1, x, entries@[j].name@, q);
                }
                assert(untouched_by(tp1, entries@, q));
            }
        },
        Node::File => {},
    }
}

/// An entry whose mapped target path is free gets its symlink, whatever
/// its siblings do around it.
pub proof fn lemma_stow_creates(
    m: Map<Seq<Seq<char>>, KindV>,
    ow: bool,
    sp: Seq<Seq<char>>,
    tp: Seq<Seq<char>>,
    s: Seq<DirEntry>,
    j: int,
)
    requires
        distinct_names(s),
        0 <= j < s.len(),
        !m.contains_key(tp.push(s[j].name@)),
    ensures
        ({
            let st = stow_entries_spec(m, false, ow, sp, tp, s);
            st.0.contains_key(tp.push(s[j].name@)) && st.0[tp.push(s[j].name@)]
                == KindV::Symlink(sp.push(s[j].name@))
        }),
    decreases s.len(),
{
    let rest = s.subrange(1, s.len() as int);
    let m1 = stow_entry_spec(m, false, ow, sp, tp, s[0]).0;
    let r = stow_entries_spec(m1, false, ow, sp, tp, rest).0;
    if j == 0 {
        let tp1 = tp.push(s[0].name@);
        let sp1 = sp.push(s[0].name@);
        assert(m1 == m.insert(tp1, KindV::Symlink(sp1)));
        lemma_stow_entries_frame(m1, false, ow, sp, tp, rest);
        lemma_prefix_refl(tp1);
        assert forall|i: int| 0 <= i < rest.len() implies !is_prefix_of(
            tp.push(#[trigger] rest[i].name@),
            tp1,
        ) by {
            assert(rest[i] == s[i + 1]);
            lemma_siblings_disjoint(tp, s[0].name@, s[i + 1].name@, tp1);
        }
        assert(untouched_by(tp, rest, tp1));
        assert(same_at(r, m1, tp1));
    } else {
        let tpj = tp.push(s[j].name@);
        lemma_stow_entry_frame(m, false, ow, sp, tp, s[0]);
        lemma_prefix_refl(tpj);
        lemma_siblings_disjoint(tp, s[0].name@, s[j].name@, tpj);
        assert(same_at(m1, m, tpj));
        assert(rest[j - 1] == s[j]);
        lemma_stow_creates(m1, ow, sp, tp, rest, j - 1);
    }
}

// ---------------------------------------------------------------------------
// The inverse law: unstow after stow restores a clean target
// ---------------------------------------------------------------------------

/// No pre-existing conflicting content: each mapped target path is
/// absent, or is a directory met by a module directory whose inside is
/// clean in turn.
pub open spec fn clean_entry(
    m: Map<Seq<Seq<char>>, KindV>,
    tp: Seq<Seq<char>>,
    e: DirEntry,
) -> bool
    decreases e.node, 1int,
{
    let tp1 = tp.push(e.name@);
    !m.contains_key(tp1) || (m[tp1] is Dir && (match e.node {
        Node::Dir { entries } => clean_entries(m, tp1, entries@),
        Node::File => false,
    }))
}

pub open spec fn clean_entries(
    m: Map<Seq<Seq<char>>, KindV>,
    tp: Seq<Seq<char>>,
    s: Seq<DirEntry>,
) -> bool
    decreases s, 0int,
{
    forall|i: int| 0 <= i < s.len() ==> clean_entry(m, tp, #[trigger] s[i])
}

/// Cleanliness reads only the subtree at the entry's target path.
pub proof fn lemma_clean_entry_congruence(
    m1: Map<Seq<Seq<char>>, KindV>,
    m2: Map<Seq<Seq<char>>, KindV>,
    tp: Seq<Seq<char>>,
    e: DirEntry,
)
    requires
        clean_entry(m1, tp, e),
        same_inside(m1, m2, tp.push(e.name@)),
    ensures
        clean_entry(m2, tp, e),
    decreases e.node, 1int,
{
    let tp1 = tp.push(e.name@);
    lemma_prefix_refl(tp1);
    assert(same_at(m1, m2, tp1));
    if m1.contains_key(tp1) {
        match e.node {
            Node::Dir { entries } => {
                lemma_clean_entries_congruence(m1, m2, tp1, entries@);
            },
            Node::File => {},
        }
    }
}

pub proof fn lemma_clean_entries_congruence(
    m1: Map<Seq<Seq<char>>, KindV>,
    m2: Map<Seq<Seq<char>>, KindV>,
    tp: Seq<Seq<char>>,
    s: Seq<DirEntry>,
)
    requires
        clean_entries(m1, tp, s),
        same_inside(m1, m2, tp),
    ensures
        clean_entries(m2, tp, s),
    decreases s, 0int,
{
    assert forall|i: int| 0 <= i < s.len() implies clean_entry(m2, tp, #[trigger] s[i]) by {
        assert(clean_entry(m1, tp, s[i]));
        assert forall|q: Seq<Seq<char>>| #[trigger]
            is_prefix_of(tp.push(s[i].name@), q) implies same_at(m1, m2, q) by {
            lemma_prefix_push(tp, s[i].name@);
            lemma_prefix_trans(tp, tp.push(s[i].name@), q);
        }
        lemma_clean_entry_congruence(m1, m2, tp, s[i]);
    }
}

/// `g` and `h` agree on every path inside some mapped subtree of `s`.
pub open spec fn agree_touched(
    g: Map<Seq<Seq<char>>, KindV>,
    h: Map<Seq<Seq<char>>, KindV>,
    tp: Seq<Seq<char>>,
    s: Seq<DirEntry>,
) -> bool {
    forall|q: Seq<Seq<char>>| !#[trigger] untouched_by(tp, s, q) ==> same_at(g, h, q)
}

/// Unstowing one entry out of a tree that, inside this entry's subtree,
/// looks exactly like its fresh link-mode stow over the clean `m`,
/// restores `m` inside that subtree and changes nothing outside it.
#[verifier::rlimit(100)]
pub proof fn lemma_entry_inverse(
    m: Map<Seq<Seq<char>>, KindV>,
    g: Map<Seq<Seq<char>>, KindV>,
    ow: bool,
    sp: Seq<Seq<char>>,
    tp: Seq<Seq<char>>,
    e: DirEntry,
)
    requires
        wf_node(e.node),
        clean_entry(m, tp, e),
        same_inside(g, stow_entry_spec(m, false, ow, sp, tp, e).0, tp.push(e.name@)),
    ensures
        same_inside(unstow_entry_spec(g, tp, e).0, m, tp.push(e.name@)),
        same_outside(unstow_entry_spec(g, tp, e).0, g, tp.push(e.name@)),
    decreases e.node, 1int,
{
    let sp1 = sp.push(e.name@);
    let tp1 = tp.push(e.name@);
    let se = stow_entry_spec(m, false, ow, sp, tp, e).0;
    lemma_prefix_refl(tp1);
    assert(same_at(g, se, tp1));
    if !m.contains_key(tp1) {
        assert(se == m.insert(tp1, KindV::Symlink(sp1)));
        assert(g.contains_key(tp1) && g[tp1] is Symlink);
        let u = unstow_entry_spec(g, tp, e).0;
        assert(u == g.remove(tp1));
        assert forall|q: Seq<Seq<char>>| #[trigger] is_prefix_of(tp1, q) implies same_at(
            u,
            m,
            q,
        ) by {
            if q != tp1 {
                assert(same_at(g, se, q));
            }
        }
        assert forall|q: Seq<Seq<char>>| !#[trigger] is_prefix_of(tp1, q) implies same_at(
            u,
            g,
            q,
        ) by {
            assert(q != tp1);
        }
    } else {
        match e.node {
            Node::Dir { entries } => {
                let es = entries@;
                let sres = stow_entries_spec(m, false, ow, sp1, tp1, es).0;
                assert(se == sres);
                lemma_stow_entries_frame(m, false, ow, sp1, tp1, es);
                assert forall|j: int| 0 <= j < es.len() implies !is_prefix_of(
                    tp1.push(#[trigger] es[j].name@),
                    tp1,
                ) by {}
                assert(untouched_by(tp1, es, tp1));
                assert(same_at(sres, m, tp1));
                assert(g.contains_key(tp1) && g[tp1] is Dir);
                let u = unstow_entry_spec(g, tp, e).0;
                assert(u == unstow_entries_spec(g, tp1, es).0);
                assert(agree_touched(g, sres, tp1, es)) by {
                    assert forall|q: Seq<Seq<char>>| !#[trigger] untouched_by(tp1, es, q) implies
                        same_at(g, sres, q) by {
                        let j = choose|j: int|
                            0 <= j < es.len() && is_prefix_of(tp1.push(#[trigger] es[j].name@), q);
                        lemma_prefix_push(tp1, es[j].name@);
                        lemma_prefix_trans(tp1, tp1.push(es[j].name@), q);
                    }
                }
                lemma_entries_inverse(m, g, ow, sp1, tp1, es);
                assert forall|q: Seq<Seq<char>>| #[trigger] is_prefix_of(tp1, q) implies same_at(
                    u,
                    m,
                    q,
                ) by {
                    if untouched_by(tp1, es, q) {
                        assert(same_at(u, g, q));
                        assert(same_at(g, sres, q));
                        assert(same_at(sres, m, q));
                    }
                }
                assert forall|q: Seq<Seq<char>>| !#[trigger] is_prefix_of(tp1, q) implies same_at(
                    u,
                    g,
                    q,
                ) by {
                    assert forall|j: int| 0 <= j < es.len() implies !is_prefix_of(
                        tp1.push(#[trigger] es[j].name@),
                        q,
                    ) by {
                        lemma_prefix_push(tp1, es[j].name@);
                        if is_prefix_of(tp1.push(es[j].name@), q) {
                            lemma_prefix_trans(tp1, tp1.push(es[j].name@), q);
                        }
                    }
                    assert(untouched_by(tp1, es, q));
                }
            },
            Node::File => {},
        }
    }
}

/// Unstowing a clean directory's entries out of a tree that looks, on
/// every mapped subtree, like their fresh link-mode stow over `m`,
/// restores `m` on those subtrees and changes nothing else.
#[verifier::rlimit(100)]
pub proof fn lemma_entries_inverse(
    m: Map<Seq<Seq<char>>, KindV>,
    g: Map<Seq<Seq<char>>, KindV>,
    ow: bool,
    sp: Seq<Seq<char>>,
    tp: Seq<Seq<char>>,
    s: Seq<DirEntry>,
)
    requires
        wf_entries(s),
        clean_entries(m, tp, s),
        agree_touched(g, stow_entries_spec(m, false, ow, sp, tp, s).0, tp, s),
    ensures
        ({
            let u = unstow_entries_spec(g, tp, s).0;
            &&& (forall|q: Seq<Seq<char>>| !#[trigger] untouched_by(tp, s, q) ==> same_at(u, m, q))
            &&& (forall|q: Seq<Seq<char>>| #[trigger] untouched_by(tp, s, q) ==> same_at(u, g, q))
        }),
    decreases s, 0int,
{
    if s.len() == 0 {
    } else {
        let rest = s.subrange(1, s.len() as int);
        let e0 = s[0];
        let n0 = e0.name@;
        let tp10 = tp.push(n0);
        let m1 = stow_entry_spec(m, false, ow, sp, tp, e0).0;
        let h = stow_entries_spec(m, false, ow, sp, tp, s).0;
        assert(h == stow_entries_spec(m1, false, ow, sp, tp, rest).0);
        let u1 = unstow_entry_spec(g, tp, e0).0;
        let ufinal = unstow_entries_spec(u1, tp, rest).0;
        assert(unstow_entries_spec(g, tp, s).0 == ufinal);
        assert(forall|j: int| 0 <= j < rest.len() ==> #[trigger] rest[j] == s[j + 1]);
        assert(wf_entries(rest));
        assert(clean_entries(m, tp, rest)) by {
            assert forall|i: int| 0 <= i < rest.len() implies clean_entry(m, tp, #[trigger] rest[i]) by {
                assert(clean_entry(m, tp, s[i + 1]));
            }
        }
        lemma_stow_entry_frame(m, false, ow, sp, tp, e0);
        lemma_stow_entries_frame(m1, false, ow, sp, tp, rest);

        // inside this entry's subtree, g looks like its fresh stow over m
        assert(same_inside(g, m1, tp10)) by {
            assert forall|q: Seq<Seq<char>>| #[trigger] is_prefix_of(tp10, q) implies same_at(
                g,
                m1,
                q,
            ) by {
                assert(!untouched_by(tp, s, q));
                assert(same_at(g, h, q));
                assert forall|j: int| 0 <= j < rest.len() implies !is_prefix_of(
                    tp.push(#[trigger] rest[j].name@),
                    q,
                ) by {
                    lemma_siblings_disjoint(tp, n0, rest[j].name@, q);
                }
                assert(untouched_by(tp, rest, q));
                assert(same_at(h, m1, q));
            }
        }
        lemma_entry_inverse(m, g, ow, sp, tp, e0);

        // the remaining entries are clean over the stepped tree as well
        assert(clean_entries(m1, tp, rest)) by {
            assert forall|i: int| 0 <= i < rest.len() implies clean_entry(m1, tp, #[trigger] rest[i]) by {
                assert(clean_entry(m, tp, rest[i]));
                assert forall|q: Seq<Seq<char>>| #[trigger]
                    is_prefix_of(tp.push(rest[i].name@), q) implies same_at(m, m1, q) by {
                    lemma_siblings_disjoint(tp, n0, rest[i].name@, q);
                }
                lemma_clean_entry_congruence(m, m1, tp, rest[i]);
            }
        }
        // after undoing this entry, the tree still looks freshly stowed
        // on the remaining subtrees
        assert(agree_touched(u1, stow_entries_spec(m1, false, ow, sp, tp, rest).0, tp, rest)) by {
            assert forall|q: Seq<Seq<char>>| !#[trigger] untouched_by(tp, rest, q) implies same_at(
                u1,
                h,
                q,
            ) by {
                let j = choose|j: int|
                    0 <= j < rest.len() && is_prefix_of(tp.push(#[trigger] rest[j].name@), q);
                lemma_siblings_disjoint(tp, n0, rest[j].name@, q);
                assert(!is_prefix_of(tp10, q));
                assert(same_at(u1, g, q));
                assert(!untouched_by(tp, s, q)) by {
                    assert(s[j + 1] == rest[j]);
                    assert(is_prefix_of(tp.push(s[j + 1].name@), q));
                }
                assert(same_at(g, h, q));
            }
        }
        lemma_entries_inverse(m1, u1, ow, sp, tp, rest);

        assert forall|q: Seq<Seq<char>>| !#[trigger] untouched_by(tp, s, q) implies same_at(
            ufinal,
            m,
            q,
        ) by {
            let j = choose|j: int|
                0 <= j < s.len() && is_prefix_of(tp.push(#[trigger] s[j].name@), q);
            if j == 0 {
                assert forall|i: int| 0 <= i < rest.len() implies !is_prefix_of(
                    tp.push(#[trigger] rest[i].name@),
                    q,
                ) by {
                    lemma_siblings_disjoint(tp, n0, rest[i].name@, q);
                }
                assert(untouched_by(tp, rest, q));
                assert(same_at(ufinal, u1, q));
                assert(same_at(u1, m, q));
            } else {
                assert(rest[j - 1] == s[j]);
                assert(!untouched_by(tp, rest, q)) by {
                    assert(is_prefix_of(tp.push(rest[j - 1].name@), q));
                }
                assert(same_at(ufinal, m1, q));
                lemma_siblings_disjoint(tp, n0, s[j].name@, q);
                assert(!is_prefix_of(tp10, q));
                assert(same_at(m1, m, q));
            }
        }
        assert forall|q: Seq<Seq<char>>| #[trigger] untouched_by(tp, s, q) implies same_at(
            ufinal,
            g,
            q,
        ) by {
            assert(!is_prefix_of(tp.push(s[0].name@), q));
            assert forall|i: int| 0 <= i < rest.len() implies !is_prefix_of(
                tp.push(#[trigger] rest[i].name@),
                q,
            ) by {
                assert(rest[i] == s[i + 1]);
            }
            assert(untouched_by(tp, rest, q));
            assert(same_at(ufinal, u1, q));
            assert(same_at(u1, g, q));
        }
    }
}

/// The inverse law, link mode: on a target with no pre-existing
/// conflicting content, unstow after stow restores the tree exactly.
pub proof fn lemma_stow_unstow_inverse(
    m: Map<Seq<Seq<char>>, KindV>,
    ow: bool,
    sp: Seq<Seq<char>>,
    tp: Seq<Seq<char>>,
    s: Seq<DirEntry>,
)
    requires
        wf_entries(s),
        clean_entries(m, tp, s),
    ensures
        unstow_entries_spec(stow_entries_spec(m, false, ow, sp, tp, s).0, tp, s).0 == m,
{
    let h = stow_entries_spec(m, false, ow, sp, tp, s).0;
    let u = unstow_entries_spec(h, tp, s).0;
    lemma_stow_entries_frame(m, false, ow, sp, tp, s);
    lemma_entries_inverse(m, h, ow, sp, tp, s);
    assert forall|q: Seq<Seq<char>>| #[trigger] u.contains_key(q) == m.contains_key(q) && (
        u.contains_key(q) ==> u[q] == m[q]) by {
        if untouched_by(tp, s, q) {
            assert(same_at(u, h, q));
            assert(same_at(h, m, q));
        } else {
            assert(same_at(u, m, q));
        }
    }
    assert(u =~= m);
}

/// Restow equivalence: restow on an already-stowed clean target ends in
/// the same tree as the fresh stow did.
pub proof fn lemma_restow_equivalence(
    m: Map<Seq<Seq<char>>, KindV>,
    ow: bool,
    sp: Seq<Seq<char>>,
    tp: Seq<Seq<char>>,
    s: Seq<DirEntry>,
)
    requires
        wf_entries(s),
        clean_entries(m, tp, s),
    ensures
        ({
            let once = stow_entries_spec(m, false, ow, sp, tp, s).0;
            let back = unstow_entries_spec(once, tp, s).0;
            stow_entries_spec(back, false, ow, sp, tp, s).0 == once
        }),
{
    lemma_stow_unstow_inverse(m, ow, sp, tp, s);
}

} // verus!
