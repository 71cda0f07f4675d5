//! The flat tree: a sequence of child counts in depth-first preorder.

use vstd::prelude::*;

verus! {

/// Determines how many children a tree node has.
#[derive(Clone, Copy, Debug, PartialEq, Eq, Structural)]
pub struct Branch(pub u32);

/// Index reached after consuming `k` complete subtrees of `b`, starting at `i`,
/// one element at a time; `-1` when the sequence runs out first.
pub open spec fn skip(b: Seq<Branch>, i: int, k: nat) -> int
    decreases b.len() - i,
{
    if k == 0 {
        i
    } else if i < 0 || i >= b.len() {
        -1
    } else {
        skip(b, i + 1, (k - 1 + b[i].0) as nat)
    }
}

/// Index one past the last node of the subtree rooted at `i`.
pub open spec fn subtree_end(b: Seq<Branch>, i: int) -> int {
    skip(b, i, 1)
}

/// `b` is the preorder encoding of exactly one tree: consuming the root's
/// subtree lands exactly on the end of the sequence.
pub open spec fn is_preorder(b: Seq<Branch>) -> bool {
    b.len() >= 1 && skip(b, 0, 1) == b.len()
}

/// Index of the `c`-th child (counting from zero) of node `i`.
pub open spec fn child(b: Seq<Branch>, i: int, c: nat) -> int {
    skip(b, i + 1, c)
}

/// Consuming `k1 + k2` subtrees is consuming `k1`, then `k2` more.
pub proof fn lemma_skip_split(b: Seq<Branch>, i: int, k1: nat, k2: nat)
    ensures
        skip(b, i, k1 + k2) == skip(b, skip(b, i, k1), k2),
    decreases b.len() - i, k1,
{
    if k1 == 0 {
    } else if i < 0 || i >= b.len() {
        assert(skip(b, -1, k2) == -1);
    } else {
        assert((k1 + k2 - 1 + b[i].0) as nat == ((k1 - 1 + b[i].0) as nat) + k2);
        lemma_skip_split(b, i + 1, (k1 - 1 + b[i].0) as nat, k2);
    }
}

/// A successful consumption of `k` subtrees visits at least `k` elements and
/// stays within the sequence.
pub proof fn lemma_skip_range(b: Seq<Branch>, i: int, k: nat)
    requires
        0 <= i <= b.len(),
        skip(b, i, k) >= 0,
    ensures
        i + k <= skip(b, i, k) <= b.len(),
    decreases b.len() - i,
{
    if k == 0 {
    } else {
        lemma_skip_range(b, i + 1, (k - 1 + b[i].0) as nat);
    }
}

/// A consumption of `k` subtrees from `i` that passes position `j` is, from
/// `j` on, a consumption of some `m >= 1` subtrees ending at the same place.
pub proof fn lemma_reach(b: Seq<Branch>, i: int, k: nat, j: int) -> (m: nat)
    requires
        0 <= i <= j,
        j < skip(b, i, k),
    ensures
        m >= 1,
        skip(b, j, m) == skip(b, i, k),
    decreases j - i,
{
    if i == j {
        k
    } else {
        lemma_reach(b, i + 1, (k - 1 + b[i].0) as nat, j)
    }
}

/// In a tree, every node's subtree ends after the node and within the tree.
pub proof fn lemma_subtree_end(b: Seq<Branch>, i: int)
    requires
        is_preorder(b),
        0 <= i < b.len(),
    ensures
        i < subtree_end(b, i) <= b.len(),
{
    let m = lemma_reach(b, 0, 1, i);
    lemma_skip_split(b, i, 1, (m - 1) as nat);
    if skip(b, i, 1) < 0 {
        assert(skip(b, skip(b, i, 1), (m - 1) as nat) == -1);
    }
    lemma_skip_range(b, i, 1);
}

/// `k` is a proper ancestor of `i`: `i` lies inside `k`'s subtree, after `k`.
pub open spec fn is_ancestor(b: Seq<Branch>, k: int, i: int) -> bool {
    k < i < subtree_end(b, k)
}

/// Number of proper ancestors of node `i` among nodes `0 .. m`.
pub open spec fn ancestors_below(b: Seq<Branch>, i: int, m: int) -> nat
    decreases m,
{
    if m <= 0 {
        0
    } else {
        ancestors_below(b, i, m - 1) + if is_ancestor(b, m - 1, i) {
            1nat
        } else {
            0nat
        }
    }
}

/// Depth of node `i`: the number of its proper ancestors (the root has depth 0).
pub open spec fn depth(b: Seq<Branch>, i: int) -> nat {
    ancestors_below(b, i, i)
}

pub proof fn lemma_ancestors_bounded(b: Seq<Branch>, i: int, m: int)
    requires
        m >= 0,
    ensures
        ancestors_below(b, i, m) <= m,
    decreases m,
{
    if m > 0 {
        lemma_ancestors_bounded(b, i, m - 1);
    }
}

/// Subtrees nest: a node inside `k`'s subtree has its own subtree inside it too.
pub proof fn lemma_nested(b: Seq<Branch>, k: int, i: int)
    requires
        is_preorder(b),
        0 <= k,
        is_ancestor(b, k, i),
    ensures
        subtree_end(b, i) <= subtree_end(b, k),
{
    lemma_subtree_end(b, k);
    let m = lemma_reach(b, k, 1, i);
    lemma_skip_split(b, i, 1, (m - 1) as nat);
    lemma_subtree_end(b, i);
    lemma_skip_range(b, subtree_end(b, i), (m - 1) as nat);
}

/// Children follow each other: each starts where the previous one's subtree
/// ends, and all lie inside the parent's subtree.
pub proof fn lemma_child_order(b: Seq<Branch>, i: int, c: nat)
    requires
        is_preorder(b),
        0 <= i < b.len(),
        c < b[i].0,
    ensures
        i < child(b, i, c) < child(b, i, c + 1) <= subtree_end(b, i),
        child(b, i, c + 1) == subtree_end(b, child(b, i, c)),
{
    let n = b[i].0 as nat;
    lemma_subtree_end(b, i);
    assert(skip(b, i, 1) == skip(b, i + 1, n));
    lemma_skip_split(b, i + 1, c, (n - c) as nat);
    lemma_skip_range(b, i + 1, c);
    lemma_skip_range(b, child(b, i, c), (n - c) as nat);
    lemma_skip_split(b, i + 1, c, 1);
    lemma_skip_split(b, i + 1, c + 1, (n - c - 1) as nat);
    lemma_skip_split(b, child(b, i, c), 1, (n - c - 1) as nat);
    lemma_subtree_end(b, child(b, i, c));
    lemma_skip_range(b, child(b, i, (c + 1) as nat), (n - c - 1) as nat);
}

/// A node strictly between `i` and its `c`-th child belongs to an earlier
/// child's subtree, so its own subtree ends no later than the `c`-th child.
proof fn lemma_before_child(b: Seq<Branch>, i: int, c: nat, k: int)
    requires
        is_preorder(b),
        0 <= i < b.len(),
        c <= b[i].0,
        i < k < child(b, i, c),
    ensures
        subtree_end(b, k) <= child(b, i, c),
    decreases c,
{
    if c > 0 {
        let p = (c - 1) as nat;
        lemma_child_order(b, i, p);
        if k >= child(b, i, p) {
            if k > child(b, i, p) {
                lemma_nested(b, child(b, i, p), k);
            }
        } else {
            lemma_before_child(b, i, p, k);
        }
    }
}

/// Equal ancestor tests below `m` give equal counts.
proof fn lemma_ancestors_same(b: Seq<Branch>, i: int, j: int, m: int)
    requires
        forall|k: int| 0 <= k < m ==> (is_ancestor(b, k, i) <==> is_ancestor(b, k, j)),
    ensures
        ancestors_below(b, i, m) == ancestors_below(b, j, m),
    decreases m,
{
    if m > 0 {
        lemma_ancestors_same(b, i, j, m - 1);
    }
}

/// No ancestors among `lo .. m` leave the count unchanged.
proof fn lemma_ancestors_none(b: Seq<Branch>, j: int, lo: int, m: int)
    requires
        0 <= lo <= m,
        forall|k: int| lo <= k < m ==> !is_ancestor(b, k, j),
    ensures
        ancestors_below(b, j, m) == ancestors_below(b, j, lo),
    decreases m - lo,
{
    if m > lo {
        lemma_ancestors_none(b, j, lo, m - 1);
    }
}

/// Every child of a node lies exactly one level below it.
pub proof fn lemma_child_depth(b: Seq<Branch>, i: int, c: nat)
    requires
        is_preorder(b),
        0 <= i < b.len(),
        c < b[i].0,
    ensures
        depth(b, child(b, i, c)) == depth(b, i) + 1,
{
    let j = child(b, i, c);
    lemma_child_order(b, i, c);
    lemma_subtree_end(b, i);
    assert forall|k: int| 0 <= k < i implies (is_ancestor(b, k, i) <==> is_ancestor(b, k, j)) by {
        if is_ancestor(b, k, i) {
            lemma_nested(b, k, i);
        }
    }
    lemma_ancestors_same(b, i, j, i);
    assert forall|k: int| i + 1 <= k < j implies !is_ancestor(b, k, j) by {
        lemma_before_child(b, i, c, k);
    }
    lemma_ancestors_none(b, j, i + 1, j);
    assert(is_ancestor(b, i, j));
}

/// The results of node `i`'s children, in order, read from `res`.
pub open spec fn child_results<R>(b: Seq<Branch>, res: Map<int, R>, i: int) -> Seq<R> {
    Seq::new(b[i].0 as nat, |c: int| res[child(b, i, c as nat)])
}

/// `res[i]` is a result that `f` may return for node `i` given its
/// children's results in `res`.
pub open spec fn reduced<R, F: Fn(usize, &[R]) -> R>(
    b: Seq<Branch>,
    f: F,
    res: Map<int, R>,
    i: int,
) -> bool {
    exists|s: &[R]| s@ == child_results(b, res, i) && #[trigger] f.ensures((i as usize, s), res[i])
}

proof fn lemma_reduced_frame<R, F: Fn(usize, &[R]) -> R>(
    b: Seq<Branch>,
    f: F,
    m1: Map<int, R>,
    m2: Map<int, R>,
    i: int,
)
    requires
        reduced(b, f, m1, i),
        m1[i] == m2[i],
        child_results(b, m1, i) == child_results(b, m2, i),
    ensures
        reduced(b, f, m2, i),
{
    let s = choose|s: &[R]| s@ == child_results(b, m1, i) && #[trigger] f.ensures((i as usize, s), m1[i]);
    assert(s@ == child_results(b, m2, i) && f.ensures((i as usize, s), m2[i]));
}

/// A node's children all lie within the range of any subtree holding it, so
/// maps that agree on that range give it the same child results.
proof fn lemma_child_results_agree<R>(
    b: Seq<Branch>,
    m1: Map<int, R>,
    m2: Map<int, R>,
    lo: int,
    hi: int,
    k: int,
)
    requires
        is_preorder(b),
        0 <= lo <= k < hi <= b.len(),
        subtree_end(b, k) <= hi,
        forall|x: int| lo <= x < hi ==> m1[x] == m2[x],
    ensures
        child_results(b, m1, k) == child_results(b, m2, k),
{
    assert forall|c: int| 0 <= c < b[k].0 implies child_results(b, m1, k)[c] == child_results(
        b,
        m2,
        k,
    )[c] by {
        lemma_child_order(b, k, c as nat);
    }
    assert(child_results(b, m1, k) =~= child_results(b, m2, k));
}

/// `x` is exactly `k` complete trees, one after the other.
pub open spec fn is_forest(x: Seq<Branch>, k: nat) -> bool {
    skip(x, 0, k) == x.len()
}

/// Appending never changes a consumption that succeeds on the prefix.
pub proof fn lemma_skip_prefix(x: Seq<Branch>, y: Seq<Branch>, i: int, k: nat)
    requires
        0 <= i,
        skip(x, i, k) >= 0,
    ensures
        skip(x + y, i, k) == skip(x, i, k),
    decreases x.len() - i,
{
    if k > 0 {
        assert((x + y)[i] == x[i]);
        lemma_skip_prefix(x, y, i + 1, (k - 1 + x[i].0) as nat);
    }
}

/// Prepending shifts a consumption by the length of what was prepended.
pub proof fn lemma_skip_shift(x: Seq<Branch>, y: Seq<Branch>, i: int, k: nat)
    requires
        0 <= i,
        skip(y, i, k) >= 0,
    ensures
        skip(x + y, x.len() + i, k) == x.len() + skip(y, i, k),
    decreases y.len() - i,
{
    if k > 0 {
        assert((x + y)[x.len() + i] == y[i]);
        lemma_skip_shift(x, y, i + 1, (k - 1 + y[i].0) as nat);
    }
}

/// Forests placed one after the other form one forest.
pub proof fn lemma_forest_concat(x: Seq<Branch>, y: Seq<Branch>, k1: nat, k2: nat)
    requires
        is_forest(x, k1),
        is_forest(y, k2),
    ensures
        is_forest(x + y, k1 + k2),
{
    lemma_skip_split(x + y, 0, k1, k2);
    lemma_skip_prefix(x, y, 0, k1);
    lemma_skip_shift(x, y, 0, k2);
}

/// A node with `n` children followed by a forest of `n` trees is one tree.
pub proof fn lemma_forest_node(c: Seq<Branch>, n: u32)
    requires
        is_forest(c, n as nat),
    ensures
        is_forest(seq![Branch(n)] + c, 1),
        is_preorder(seq![Branch(n)] + c),
{
    let x = seq![Branch(n)] + c;
    lemma_skip_shift(seq![Branch(n)], c, 0, n as nat);
    assert(x[0] == Branch(n));
    assert(skip(x, 0, 1) == skip(x, 1, n as nat));
}

/// Why a sequence of child counts is not accepted as a tree.
#[derive(Clone, Copy, Debug, PartialEq, Eq, Structural)]
pub enum TreeError {
    /// The sequence has no root.
    Empty,
    /// The counts do not partition the sequence into exactly one tree.
    Malformed,
}

/// Represents a tree hierarchy.
pub struct Tree<'a> {
    branches: &'a [Branch],
}

impl<'a> Tree<'a> {
    pub closed spec fn view(&self) -> Seq<Branch> {
        self.branches@
    }

    pub open spec fn wf(&self) -> bool {
        is_preorder(self@)
    }

    /// Accepts `branches` as a tree if it is the preorder encoding of one.
    pub fn new(branches: &'a [Branch]) -> (r: Result<Tree<'a>, TreeError>)
        ensures
            branches@.len() == 0 ==> r == Err::<Tree<'a>, TreeError>(TreeError::Empty),
            branches@.len() > 0 && !is_preorder(branches@) ==> r == Err::<Tree<'a>, TreeError>(
                TreeError::Malformed,
            ),
            is_preorder(branches@) <==> r is Ok,
            r matches Ok(t) ==> t@ == branches@ && t.wf(),
    {
        let n = branches.len();
        if n == 0 {
            return Err(TreeError::Empty);
        }
        // number of subtrees still to be consumed
        let mut k: usize = 1;
        let mut i: usize = 0;
        while i < n
            invariant
                n == branches@.len(),
                i <= n,
                k <= n - i,
                skip(branches@, 0, 1) == skip(branches@, i as int, k as nat),
            decreases n - i,
        {
            if k == 0 {
                return Err(TreeError::Malformed);
            }
            let c = branches[i].0 as usize;
            let rest = n - i - 1;
            if c > rest || k - 1 > rest - c {
                proof {
                    let k2 = (k - 1 + c) as nat;
                    if skip(branches@, i + 1, k2) >= 0 {
                        lemma_skip_range(branches@, i + 1, k2);
                    }
                }
                return Err(TreeError::Malformed);
            }
            k = k - 1 + c;
            i = i + 1;
        }
        Ok(Tree { branches })
    }

    pub fn len(&self) -> (r: usize)
        ensures
            r == self@.len(),
    {
        self.branches.len()
    }

    /// Depth-first bottom-up pass over the tree.
    ///
    /// Values of type `R` originate in leaves, propagating to the root: `f`
    /// is called once per node with the node's index and its children's
    /// results in order, and the root's result is returned.
    pub fn flow_up<R, F: Fn(usize, &[R]) -> R>(&self, f: F) -> (r: R)
        requires
            self.wf(),
            forall|ix: usize, s: &[R]| #[trigger] f.requires((ix, s)),
        ensures
            exists|res: Map<int, R>|
                res[0] == r && forall|i: int| 0 <= i < self@.len() ==> #[trigger] reduced(self@, f, res, i),
    {
        let (ix, r, Ghost(res)) = self.flow_up_subtree(&f, 0);
        proof {
            assert(res[0] == r);
        }
        r
    }

    fn flow_up_subtree<R, F: Fn(usize, &[R]) -> R>(&self, f: &F, root_ix: usize) -> (out: (
        usize,
        R,
        Ghost<Map<int, R>>,
    ))
        requires
            self.wf(),
            root_ix < self@.len(),
            forall|ix: usize, s: &[R]| #[trigger] f.requires((ix, s)),
        ensures
            out.0 as int == subtree_end(self@, root_ix as int),
            out.2@[root_ix as int] == out.1,
            forall|k: int|
                root_ix <= k < out.0 ==> #[trigger] reduced(self@, *f, out.2@, k),
        decreases self@.len() - root_ix,
    {
        let ghost b = self@;
        proof {
            lemma_subtree_end(b, root_ix as int);
        }
        let n = self.branches[root_ix].0;
        let mut child_ix = root_ix + 1;
        let mut rets: Vec<R> = Vec::new();
        let ghost mut m: Map<int, R> = Map::empty();
        let mut j: u32 = 0;
        while j < n
            invariant
                b == self@,
                is_preorder(b),
                root_ix < b.len(),
                n == b[root_ix as int].0,
                j <= n,
                child_ix as int == child(b, root_ix as int, j as nat),
                child_ix <= subtree_end(b, root_ix as int),
                subtree_end(b, root_ix as int) <= b.len(),
                forall|ix: usize, s: &[R]| #[trigger] f.requires((ix, s)),
                rets@ == Seq::new(j as nat, |c: int| m[child(b, root_ix as int, c as nat)]),
                forall|k: int| root_ix < k < child_ix ==> #[trigger] reduced(b, *f, m, k),
                forall|k: int| root_ix < k < child_ix ==> subtree_end(b, k) <= child_ix,
            decreases n - j,
        {
            proof {
                lemma_child_order(b, root_ix as int, j as nat);
            }
            let (next_ix, r, Ghost(mc)) = self.flow_up_subtree(f, child_ix);
            let ghost m2 = Map::new(
                |x: int| true,
                |x: int|
                    if child_ix <= x < next_ix {
                        mc[x]
                    } else {
                        m[x]
                    },
            );
            proof {
                let c0 = child_ix as int;
                let c1 = next_ix as int;
                assert forall|k: int| root_ix < k < c1 implies #[trigger] reduced(b, *f, m2, k) by {
                    if k < c0 {
                        lemma_child_results_agree(b, m, m2, root_ix + 1, c0, k);
                        lemma_reduced_frame(b, *f, m, m2, k);
                    } else {
                        if k > c0 {
                            lemma_nested(b, c0, k);
                        }
                        lemma_subtree_end(b, k);
                        lemma_child_results_agree(b, mc, m2, c0, c1, k);
                        lemma_reduced_frame(b, *f, mc, m2, k);
                    }
                }
                assert forall|k: int| root_ix < k < c1 implies subtree_end(b, k) <= c1 by {
                    if k > c0 {
                        lemma_nested(b, c0, k);
                    }
                }
                assert forall|c: int| 0 <= c < j implies #[trigger] m2[child(b, root_ix as int, c as nat)]
                    == m[child(b, root_ix as int, c as nat)] by {
                    lemma_child_order(b, root_ix as int, c as nat);
                    lemma_skip_split(b, root_ix + 1, c as nat, (j - c) as nat);
                    assert((c as nat + (j - c) as nat) as nat == j as nat);
                    lemma_skip_range(b, child(b, root_ix as int, c as nat), (j - c) as nat);
                }
                assert(m2[c0] == r);
                m = m2;
            }
            rets.push(r);
            proof {
                assert(rets@ =~= Seq::new((j + 1) as nat, |c: int| m[child(b, root_ix as int, c as nat)]));
            }
            child_ix = next_ix;
            j = j + 1;
        }
        proof {
            if n > 0 {
                lemma_child_order(b, root_ix as int, 0);
                lemma_child_order(b, root_ix as int, (n - 1) as nat);
            }
            assert(skip(b, root_ix as int, 1) == skip(b, root_ix + 1, n as nat));
        }
        let rs = rets.as_slice();
        let r = f(root_ix, rs);
        let ghost m3 = Map::new(
            |x: int| true,
            |x: int|
                if x == root_ix {
                    r
                } else {
                    m[x]
                },
        );
        proof {
            assert forall|k: int| root_ix <= k < child_ix implies #[trigger] reduced(b, *f, m3, k) by {
                if k == root_ix {
                    assert(child_results(b, m3, k) =~= rets@) by {
                        assert forall|c: int| 0 <= c < n implies #[trigger] child(b, root_ix as int, c as nat)
                            != root_ix by {
                            lemma_child_order(b, root_ix as int, c as nat);
                        }
                    }
                    assert(rs@ == child_results(b, m3, k) && f.ensures(
                        (k as usize, rs),
                        m3[k],
                    ));
                } else {
                    lemma_subtree_end(b, k);
                    lemma_child_results_agree(b, m, m3, root_ix + 1, child_ix as int, k);
                    lemma_reduced_frame(b, *f, m, m3, k);
                }
            }
        }
        (child_ix, r, Ghost(m3))
    }

    /// Number of children of node `ix`.
    pub fn branch(&self, ix: usize) -> (r: u32)
        requires
            ix < self@.len(),
        ensures
            r == self@[ix as int].0,
    {
        self.branches[ix].0
    }
}

} // verus!
