//! The path mapper: re-roots a path from the module tree onto the target
//! tree. Paths are sequences of components; the mapper is the only way the
//! engine ever derives a target path.

use vstd::prelude::*;

verus! {

/// `p` is a (component-wise) prefix of `q`.
pub open spec fn is_prefix_of(p: Seq<Seq<char>>, q: Seq<Seq<char>>) -> bool {
    p.len() <= q.len() && q.subrange(0, p.len() as int) == p
}

/// The target path that corresponds to `path` once the suffix of `path`
/// after `root` is re-rooted onto `dst`.
pub open spec fn mapped_path(path: Seq<Seq<char>>, root: Seq<Seq<char>>, dst: Seq<Seq<char>>) -> Seq<Seq<char>> {
    dst + path.skip(root.len() as int)
}

/// Computes the target path for an entry of the module tree: `dst` joined
/// with the component suffix of `src` after `root`. Callers must only hand
/// in paths that lie inside `root`; every caller derives `src` by walking
/// `root` itself.
pub fn get_relative_target(src: &Vec<String>, root: &Vec<String>, dst: &Vec<String>) -> (r: Vec<String>)
    requires
        is_prefix_of(root.deep_view(), src.deep_view()),
    ensures
        r.deep_view() == mapped_path(src.deep_view(), root.deep_view(), dst.deep_view()),
{
    let mut r: Vec<String> = Vec::new();
    let mut i: usize = 0;
    while i < dst.len()
        invariant
            i <= dst.len(),
            r@.len() == i,
            forall|k: int| 0 <= k < i ==> r@[k]@ == dst@[k]@,
        decreases dst.len() - i,
    {
        r.push(dst[i].clone());
        i = i + 1;
    }
    let mut j: usize = root.len();
    while j < src.len()
        invariant
            root.len() <= j <= src.len(),
            root@.len() <= src@.len(),
            r@.len() == dst@.len() + j - root@.len(),
            forall|k: int| 0 <= k < dst@.len() ==> r@[k]@ == dst@[k]@,
            forall|k: int| dst@.len() <= k < r@.len()
                ==> r@[k]@ == src@[root@.len() + k - dst@.len()]@,
        decreases src.len() - j,
    {
        r.push(src[j].clone());
        j = j + 1;
    }
    proof {
        let goal = mapped_path(src.deep_view(), root.deep_view(), dst.deep_view());
        assert(r.deep_view().len() == goal.len());
        assert forall|k: int| 0 <= k < goal.len() implies r.deep_view()[k] == goal[k] by {
            if k < dst@.len() {
                assert(goal[k] == dst.deep_view()[k]);
            } else {
                assert(goal[k] == src.deep_view()[root@.len() + k - dst@.len()]);
            }
        }
        assert(r.deep_view() =~= goal);
    }
    r
}

} // verus!
