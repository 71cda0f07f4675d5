//! The two layout passes over a flat tree: subtree bounds from the leaves up,
//! then node positions from the root down.

use vstd::prelude::*;
use crate::tree::{Branch, Tree, skip, subtree_end, is_preorder, child, lemma_skip_split, lemma_skip_range, lemma_subtree_end,
    depth, lemma_child_depth, lemma_child_order, lemma_ancestors_bounded};

verus! {

/// Minimum envelope around a token: own width and height.
#[derive(Clone, Copy, Debug, PartialEq, Eq, Structural)]
pub struct Fit(pub u32, pub u32);

/// How much space a subtree takes: width and height.
#[derive(Clone, Copy, Debug, PartialEq, Eq, Structural)]
pub struct Bound(pub u32, pub u32);

/// Position of a node's origin.
#[derive(Clone, Copy, Debug, PartialEq, Eq, Structural)]
pub struct Pos(pub i32, pub i32);

/// Sum of the own widths of nodes `lo .. hi`.
pub open spec fn width_sum(f: Seq<Fit>, lo: int, hi: int) -> int
    decreases hi - lo,
{
    if hi <= lo {
        0
    } else {
        width_sum(f, lo, hi - 1) + f[hi - 1].0
    }
}

/// Largest own height among nodes `lo .. hi` (zero for no node).
pub open spec fn height_max(f: Seq<Fit>, lo: int, hi: int) -> int
    decreases hi - lo,
{
    if hi <= lo {
        0
    } else {
        let m = height_max(f, lo, hi - 1);
        if m >= f[hi - 1].1 {
            m
        } else {
            f[hi - 1].1 as int
        }
    }
}

/// The bound of the subtree rooted at `i`: children sit side by side, so
/// widths add up over the whole subtree and heights take their maximum.
pub open spec fn bound_of(b: Seq<Branch>, f: Seq<Fit>, i: int) -> (int, int) {
    (width_sum(f, i, subtree_end(b, i)), height_max(f, i, subtree_end(b, i)))
}

pub proof fn lemma_width_split(f: Seq<Fit>, lo: int, mid: int, hi: int)
    requires
        lo <= mid <= hi,
    ensures
        width_sum(f, lo, hi) == width_sum(f, lo, mid) + width_sum(f, mid, hi),
    decreases hi - mid,
{
    if hi > mid {
        lemma_width_split(f, lo, mid, hi - 1);
    }
}

pub proof fn lemma_height_split(f: Seq<Fit>, lo: int, mid: int, hi: int)
    requires
        lo <= mid <= hi,
    ensures
        height_max(f, lo, hi) == if height_max(f, lo, mid) >= height_max(f, mid, hi) {
            height_max(f, lo, mid)
        } else {
            height_max(f, mid, hi)
        },
    decreases hi - mid,
{
    if hi > mid {
        lemma_height_split(f, lo, mid, hi - 1);
    }
}

pub proof fn lemma_width_nonneg(f: Seq<Fit>, lo: int, hi: int)
    ensures
        width_sum(f, lo, hi) >= 0,
    decreases hi - lo,
{
    if hi > lo {
        lemma_width_nonneg(f, lo, hi - 1);
    }
}

/// A sub-range of a range sums to no more than the range.
pub proof fn lemma_width_within(f: Seq<Fit>, lo: int, a: int, c: int, hi: int)
    requires
        lo <= a <= c <= hi,
    ensures
        width_sum(f, a, c) <= width_sum(f, lo, hi),
{
    lemma_width_split(f, lo, a, hi);
    lemma_width_split(f, a, c, hi);
    lemma_width_nonneg(f, lo, a);
    lemma_width_nonneg(f, c, hi);
}

/// The `j`-th child of a node lies before the end of the node's subtree,
/// and the children together end where the subtree ends.
pub proof fn lemma_children(b: Seq<Branch>, i: int, j: nat)
    requires
        0 <= i < b.len(),
        0 <= subtree_end(b, i),
        j <= b[i].0,
    ensures
        subtree_end(b, i) == skip(b, i + 1, b[i].0 as nat),
        i < child(b, i, j) <= subtree_end(b, i),
        j < b[i].0 ==> child(b, i, j) < subtree_end(b, i),
        j < b[i].0 ==> child(b, i, (j + 1) as nat) == subtree_end(b, child(b, i, j)),
{
    let n = b[i].0 as nat;
    assert(skip(b, i, 1) == skip(b, i + 1, n));
    lemma_skip_split(b, i + 1, j, (n - j) as nat);
    lemma_skip_range(b, i + 1, j);
    lemma_skip_range(b, child(b, i, j), (n - j) as nat);
    if j < n {
        lemma_skip_split(b, i + 1, j, 1);
    }
}

/// Computes the bound of every subtree.
pub fn compute_bounds(tree: &Tree, fits: &[Fit]) -> (r: Vec<Bound>)
    requires
        tree.wf(),
        fits@.len() == tree@.len(),
        width_sum(fits@, 0, fits@.len() as int) <= u32::MAX,
    ensures
        r@.len() == tree@.len(),
        forall|i: int|
            0 <= i < r@.len() ==> (r@[i].0 as int, r@[i].1 as int) == bound_of(tree@, fits@, i),
{
    let n = tree.len();
    let ghost b = tree@;
    let ghost f = fits@;
    let mut bounds: Vec<Bound> = Vec::new();
    let mut ends: Vec<usize> = Vec::new();
    let mut k: usize = 0;
    while k < n
        invariant
            k <= n,
            bounds@.len() == k,
            ends@.len() == k,
        decreases n - k,
    {
        bounds.push(Bound(0, 0));
        ends.push(0);
        k = k + 1;
    }
    let mut ix: usize = n;
    while ix > 0
        invariant
            n == b.len(),
            f.len() == n,
            b == tree@,
            f == fits@,
            is_preorder(b),
            width_sum(f, 0, n as int) <= u32::MAX,
            ix <= n,
            bounds@.len() == n,
            ends@.len() == n,
            forall|i: int|
                ix <= i < n ==> ends@[i] as int == subtree_end(b, i) && (
                bounds@[i].0 as int,
                bounds@[i].1 as int,
            ) == bound_of(b, f, i),
        decreases ix,
    {
        ix = ix - 1;
        let i = ix;
        proof {
            lemma_subtree_end(b, i as int);
        }
        let nk = tree.branch(i);
        let Fit(w0, h0) = fits[i];
        let mut w: u32 = w0;
        let mut h: u32 = h0;
        let mut c: usize = i + 1;
        let mut j: u32 = 0;
        assert(width_sum(f, i as int, i as int) == 0);
        assert(height_max(f, i as int, i as int) == 0);
        assert(width_sum(f, i as int, i + 1) == w0);
        assert(height_max(f, i as int, i + 1) == h0);
        while j < nk
            invariant
                n == b.len(),
                f.len() == n,
                width_sum(f, 0, n as int) <= u32::MAX,
                i < n,
                ix == i,
                is_preorder(b),
                nk == b[i as int].0,
                0 <= subtree_end(b, i as int),
                j <= nk,
                c as int == child(b, i as int, j as nat),
                w as int == width_sum(f, i as int, c as int),
                h as int == height_max(f, i as int, c as int),
                bounds@.len() == n,
                ends@.len() == n,
                forall|q: int|
                    ix < q < n ==> ends@[q] as int == subtree_end(b, q) && (
                    bounds@[q].0 as int,
                    bounds@[q].1 as int,
                ) == bound_of(b, f, q),
            decreases nk - j,
        {
            proof {
                lemma_children(b, i as int, j as nat);
                lemma_children(b, i as int, (j + 1) as nat);
                lemma_subtree_end(b, i as int);
                lemma_subtree_end(b, c as int);
            }
            let cb = bounds[c];
            let ce = ends[c];
            proof {
                lemma_width_split(f, i as int, c as int, ce as int);
                lemma_height_split(f, i as int, c as int, ce as int);
                lemma_width_within(f, 0, i as int, ce as int, n as int);
            }
            w = w + cb.0;
            h = if cb.1 > h { cb.1 } else { h };
            c = ce;
            j = j + 1;
        }
        proof {
            lemma_children(b, i as int, nk as nat);
        }
        bounds.set(i, Bound(w, h));
        ends.set(i, c);
    }
    bounds
}

/// Where node `i` is placed: after the own widths of every node before it in
/// preorder, and one line step further down for each ancestor.
pub open spec fn pos_of(b: Seq<Branch>, f: Seq<Fit>, step: int, i: int) -> (int, int) {
    (width_sum(f, 0, i), step * depth(b, i))
}

/// The bounds that `compute_bounds` gives for this tree and these fits.
pub open spec fn are_bounds(b: Seq<Branch>, f: Seq<Fit>, bounds: Seq<Bound>) -> bool {
    &&& bounds.len() == b.len()
    &&& forall|i: int|
        0 <= i < b.len() ==> (bounds[i].0 as int, bounds[i].1 as int) == bound_of(b, f, i)
}

/// Frame `t` of the placement stack: its cursor stands before node `next[t]`,
/// with the siblings still to be placed on its level ending where the frame
/// below continues; all of them lie at the same depth.
spec fn frame_ok(
    b: Seq<Branch>,
    f: Seq<Fit>,
    s: int,
    next: Seq<int>,
    stack: Seq<(Pos, u32)>,
    t: int,
) -> bool {
    let below = if t == 0 {
        b.len() as int
    } else {
        next[t - 1]
    };
    &&& 0 <= next[t] < b.len()
    &&& stack[t].1 >= 1
    &&& skip(b, next[t], stack[t].1 as nat) == below
    &&& stack[t].0.0 == width_sum(f, 0, next[t])
    &&& stack[t].0.1 == s * depth(b, next[t])
    &&& depth(b, next[t]) >= t
    &&& forall|c: nat|
        c < stack[t].1 ==> #[trigger] depth(b, skip(b, next[t], c)) == depth(b, next[t])
}

#[verifier::opaque]
spec fn frames_ok(
    b: Seq<Branch>,
    f: Seq<Fit>,
    s: int,
    next: Seq<int>,
    stack: Seq<(Pos, u32)>,
) -> bool {
    &&& stack.len() == next.len()
    &&& forall|t: int| 0 <= t < next.len() ==> #[trigger] frame_ok(b, f, s, next, stack, t)
}

proof fn lemma_top(b: Seq<Branch>, f: Seq<Fit>, s: int, next: Seq<int>, stack: Seq<(Pos, u32)>)
    requires
        frames_ok(b, f, s, next, stack),
        stack.len() >= 1,
    ensures
        next.len() == stack.len(),
        frame_ok(b, f, s, next, stack, stack.len() - 1),
        stack.len() >= 2 ==> 0 <= next[stack.len() - 2] < b.len(),
{
    reveal(frames_ok);
    assert(frame_ok(b, f, s, next, stack, stack.len() - 1));
    if stack.len() >= 2 {
        assert(frame_ok(b, f, s, next, stack, stack.len() - 2));
    }
}

proof fn lemma_pop(b: Seq<Branch>, f: Seq<Fit>, s: int, next: Seq<int>, stack: Seq<(Pos, u32)>)
    requires
        frames_ok(b, f, s, next, stack),
        stack.len() >= 1,
    ensures
        frames_ok(b, f, s, next.drop_last(), stack.drop_last()),
{
    reveal(frames_ok);
    let n2 = next.drop_last();
    let s2 = stack.drop_last();
    assert forall|t: int| 0 <= t < n2.len() implies #[trigger] frame_ok(b, f, s, n2, s2, t) by {
        assert(frame_ok(b, f, s, next, stack, t));
    }
}

/// The top frame moves past the subtree of node `i`, one sibling fewer to go.
proof fn lemma_advance(
    b: Seq<Branch>,
    f: Seq<Fit>,
    s: int,
    next: Seq<int>,
    stack: Seq<(Pos, u32)>,
    i: int,
    adv: Pos,
)
    requires
        is_preorder(b),
        frames_ok(b, f, s, next, stack),
        stack.len() >= 1,
        next.last() == i,
        stack.last().1 >= 2,
        adv.0 == width_sum(f, 0, subtree_end(b, i)),
        adv.1 == stack.last().0.1,
    ensures
        frames_ok(
            b,
            f,
            s,
            next.update(next.len() - 1, subtree_end(b, i)),
            stack.update(stack.len() - 1, (adv, (stack.last().1 - 1) as u32)),
        ),
{
    reveal(frames_ok);
    let t = stack.len() - 1;
    let rem = stack[t].1;
    let e = subtree_end(b, i);
    let n2 = next.update(t, e);
    let s2 = stack.update(t, (adv, (rem - 1) as u32));
    assert(frame_ok(b, f, s, next, stack, t));
    if t > 0 {
        assert(frame_ok(b, f, s, next, stack, t - 1));
    }
    lemma_subtree_end(b, i);
    lemma_skip_split(b, i, 1, (rem - 1) as nat);
    assert((1 + (rem - 1) as nat) as nat == rem as nat);
    assert(depth(b, skip(b, i, 1)) == depth(b, i));
    lemma_skip_range(b, e, (rem - 1) as nat);
    assert forall|c: nat| c < rem - 1 implies #[trigger] depth(b, skip(b, e, c)) == depth(b, e) by {
        lemma_skip_split(b, i, 1, c);
        assert(depth(b, skip(b, i, (c + 1) as nat)) == depth(b, i));
    }
    assert(frame_ok(b, f, s, n2, s2, t));
    assert forall|q: int| 0 <= q < n2.len() implies #[trigger] frame_ok(b, f, s, n2, s2, q) by {
        if q < t {
            assert(frame_ok(b, f, s, next, stack, q));
        }
    }
}

/// A frame for the children of node `i` goes on top.
proof fn lemma_push(
    b: Seq<Branch>,
    f: Seq<Fit>,
    s: int,
    next: Seq<int>,
    stack: Seq<(Pos, u32)>,
    i: int,
    down: Pos,
)
    requires
        is_preorder(b),
        0 <= i < b.len(),
        b[i].0 > 0,
        frames_ok(b, f, s, next, stack),
        stack.len() == 0 ==> subtree_end(b, i) == b.len(),
        stack.len() >= 1 ==> next.last() == subtree_end(b, i),
        depth(b, i) + 1 >= stack.len(),
        down.0 == width_sum(f, 0, i + 1),
        down.1 == s * (depth(b, i) + 1),
    ensures
        frames_ok(b, f, s, next.push(i + 1), stack.push((down, b[i].0))),
{
    reveal(frames_ok);
    let t = stack.len() as int;
    let n2 = next.push(i + 1);
    let s2 = stack.push((down, b[i].0));
    lemma_subtree_end(b, i);
    lemma_child_order(b, i, 0);
    lemma_child_depth(b, i, 0);
    assert(skip(b, i + 1, 0) == i + 1);
    assert(skip(b, i, 1) == skip(b, i + 1, b[i].0 as nat));
    assert forall|c: nat| c < b[i].0 implies #[trigger] depth(b, skip(b, i + 1, c)) == depth(
        b,
        i + 1,
    ) by {
        lemma_child_depth(b, i, c);
    }
    assert(frame_ok(b, f, s, n2, s2, t));
    assert forall|q: int| 0 <= q < n2.len() implies #[trigger] frame_ok(b, f, s, n2, s2, q) by {
        if q < t {
            assert(frame_ok(b, f, s, next, stack, q));
        }
    }
}

/// Remaining-sibling counts of the placement stack's frames, bottom first,
/// once the first `i` nodes are placed. The stack starts with one frame
/// holding the root alone; placing a node takes one sibling off the top
/// frame, dropping the frame when none is left, then pushes a frame for the
/// node's children, if it has any.
pub open spec fn frame_counts(b: Seq<Branch>, i: nat) -> Seq<u32>
    decreases i,
{
    if i == 0 {
        seq![1u32]
    } else {
        let c = frame_counts(b, (i - 1) as nat);
        let taken = if c.len() == 0 {
            c
        } else if c.last() <= 1 {
            c.drop_last()
        } else {
            c.update(c.len() - 1, (c.last() - 1) as u32)
        };
        if b[i - 1].0 > 0 {
            taken.push(b[i - 1].0)
        } else {
            taken
        }
    }
}

/// The sibling counts of a stack's frames.
pub open spec fn counts_of(stack: Seq<(Pos, u32)>) -> Seq<u32> {
    stack.map_values(|fr: (Pos, u32)| fr.1)
}

spec fn zero_fits(n: nat) -> Seq<Fit> {
    Seq::new(n, |k: int| Fit(0, 0))
}

spec fn blank_frames(c: Seq<u32>) -> Seq<(Pos, u32)> {
    Seq::new(c.len(), |t: int| (Pos(0, 0), c[t]))
}

proof fn lemma_zero_width(n: nat, lo: int, hi: int)
    requires
        0 <= lo,
        hi <= n,
    ensures
        width_sum(zero_fits(n), lo, hi) == 0,
    decreases hi - lo,
{
    if hi > lo {
        lemma_zero_width(n, lo, hi - 1);
    }
}

/// The stack model, seen with zero widths and a zero step, satisfies the
/// frame invariant of `compute_positions`.
proof fn lemma_frames_model(b: Seq<Branch>, i: nat) -> (next: Seq<int>)
    requires
        is_preorder(b),
        i <= b.len(),
    ensures
        frames_ok(b, zero_fits(b.len()), 0, next, blank_frames(frame_counts(b, i))),
        next.len() == frame_counts(b, i).len(),
        i < b.len() ==> frame_counts(b, i).len() >= 1 && next.last() == i,
        i < b.len() ==> frame_counts(b, i).len() <= depth(b, i as int) + 1,
        i == b.len() ==> frame_counts(b, i).len() == 0,
    decreases i,
{
    let n = b.len();
    let f = zero_fits(n);
    if i == 0 {
        let next = seq![0int];
        let st = blank_frames(frame_counts(b, 0));
        assert(frame_counts(b, 0) == seq![1u32]);
        lemma_zero_width(n, 0, 0);
        assert(depth(b, 0) == 0);
        assert(skip(b, 0, 1) == n);
        assert forall|c: nat| c < 1 implies #[trigger] depth(b, skip(b, 0, c)) == depth(b, 0) by {
            assert(skip(b, 0, c) == 0);
        }
        reveal(frames_ok);
        assert(frame_ok(b, f, 0, next, st, 0));
        next
    } else {
        let j = (i - 1) as nat;
        let prev = lemma_frames_model(b, j);
        let c = frame_counts(b, j);
        let st = blank_frames(c);
        let t = c.len() - 1;
        let rem = c[t];
        let e = subtree_end(b, j as int);
        lemma_top(b, f, 0, prev, st);
        lemma_subtree_end(b, j as int);
        lemma_zero_width(n, 0, e);
        lemma_zero_width(n, 0, j as int + 1);
        lemma_skip_split(b, j as int, 1, (rem - 1) as nat);
        assert((1 + (rem - 1) as nat) as nat == rem as nat);
        let taken = if c.last() <= 1 {
            c.drop_last()
        } else {
            c.update(c.len() - 1, (c.last() - 1) as u32)
        };
        let next2 = if rem == 1 {
            lemma_pop(b, f, 0, prev, st);
            assert(blank_frames(taken) =~= st.drop_last());
            prev.drop_last()
        } else {
            lemma_advance(b, f, 0, prev, st, j as int, Pos(0, 0));
            assert(blank_frames(taken) =~= st.update(t, (Pos(0, 0), (rem - 1) as u32)));
            prev.update(t, e)
        };
        lemma_ancestors_bounded(b, j as int, j as int);
        if b[j as int].0 > 0 {
            lemma_push(b, f, 0, next2, blank_frames(taken), j as int, Pos(0, 0));
            lemma_child_depth(b, j as int, 0);
            assert(skip(b, j as int + 1, 0) == j as int + 1);
            assert(blank_frames(taken.push(b[j as int].0)) =~= blank_frames(taken).push(
                (Pos(0, 0), b[j as int].0),
            ));
            let next3 = next2.push(j as int + 1);
            lemma_child_order(b, j as int, 0);
            lemma_top(b, f, 0, next3, blank_frames(frame_counts(b, i)));
            next3
        } else {
            assert(skip(b, j as int, 1) == skip(b, j as int + 1, 0));
            if frame_counts(b, i).len() >= 1 {
                lemma_top(b, f, 0, next2, blank_frames(frame_counts(b, i)));
            }
            next2
        }
    }
}

/// The placement stack stays balanced: while node `i` is placed it holds at
/// least one frame and at most `depth(i) + 1`, so never more than one more
/// than the tree's depth; it is empty once every node is placed.
pub proof fn lemma_frames_balanced(b: Seq<Branch>, i: nat)
    requires
        is_preorder(b),
        i <= b.len(),
    ensures
        i < b.len() ==> 1 <= frame_counts(b, i).len() <= depth(b, i as int) + 1,
        i == b.len() ==> frame_counts(b, i).len() == 0,
{
    lemma_frames_model(b, i);
}

/// Places every node, walking the tree in preorder with a stack of levels.
///
/// Each frame holds the cursor of one level and the number of siblings still
/// to be placed on it. A node is placed at the top cursor; its children, if
/// any, get a new frame indented by the node's own width and one `step`
/// lower; the top cursor then moves past the node's whole subtree.
///
/// The stack's sibling counts follow `frame_counts` node by node, so by
/// `lemma_frames_balanced` it holds at least one and at most `depth(i) + 1`
/// frames while node `i` is placed, and is empty only once the last node is
/// placed.
pub fn compute_positions(tree: &Tree, fits: &[Fit], bounds: &[Bound], step: u32) -> (r: Vec<Pos>)
    requires
        tree.wf(),
        fits@.len() == tree@.len(),
        are_bounds(tree@, fits@, bounds@),
        width_sum(fits@, 0, fits@.len() as int) <= i32::MAX,
        step as int * (tree@.len() - 1) <= i32::MAX,
    ensures
        r@.len() == tree@.len(),
        forall|i: int|
            0 <= i < r@.len() ==> (r@[i].0 as int, r@[i].1 as int) == pos_of(
                tree@,
                fits@,
                step as int,
                i,
            ),
{
    let n = tree.len();
    let ghost b = tree@;
    let ghost f = fits@;
    let ghost s = step as int;
    let mut coords: Vec<Pos> = Vec::new();
    let mut stack: Vec<(Pos, u32)> = Vec::new();
    stack.push((Pos(0, 0), 1));
    // node that each frame's cursor stands before
    let ghost mut next: Seq<int> = seq![0int];
    proof {
        lemma_width_nonneg(f, 0, n as int);
        assert(width_sum(f, 0, 0) == 0);
        assert(depth(b, 0) == 0);
        assert(skip(b, 0, 1) == n);
        assert forall|c: nat| c < 1 implies #[trigger] depth(b, skip(b, 0, c)) == depth(b, 0) by {
            assert(skip(b, 0, c) == 0);
        }
        reveal(frames_ok);
        assert(frame_ok(b, f, s, next, stack@, 0));
        assert(counts_of(stack@) =~= frame_counts(b, 0));
    }
    let mut ix: usize = 0;
    while ix < n
        invariant
            n == b.len(),
            f.len() == n,
            b == tree@,
            f == fits@,
            s == step,
            is_preorder(b),
            are_bounds(b, f, bounds@),
            width_sum(f, 0, n as int) <= i32::MAX,
            s * (n - 1) <= i32::MAX,
            ix <= n,
            coords@.len() == ix,
            forall|q: int|
                0 <= q < ix ==> (coords@[q].0 as int, coords@[q].1 as int) == pos_of(b, f, s, q),
            frames_ok(b, f, s, next, stack@),
            stack@.len() == next.len(),
            stack@.len() <= depth(b, ix as int) + 1,
            ix < n ==> stack@.len() >= 1 && next.last() == ix,
            ix == n ==> stack@.len() == 0,
            counts_of(stack@) == frame_counts(b, ix as nat),
        decreases n - ix,
    {
        let i = ix;
        let t = stack.len() - 1;
        let (cursor, rem) = stack[t];
        let ghost c0 = counts_of(stack@);
        proof {
            assert(c0.last() == rem);
        }
        let nk = tree.branch(i);
        let bw = bounds[i].0;
        let ow = fits[i].0;
        let ghost e = subtree_end(b, i as int);
        proof {
            lemma_top(b, f, s, next, stack@);
            lemma_subtree_end(b, i as int);
            lemma_width_split(f, 0, i as int, e);
            lemma_width_split(f, 0, i as int, i + 1);
            assert(width_sum(f, i as int, i as int) == 0);
            assert(width_sum(f, i as int, i + 1) == ow);
            lemma_width_nonneg(f, i as int, e);
            lemma_width_within(f, 0, 0, e, n as int);
            lemma_width_within(f, 0, 0, i + 1, n as int);
            lemma_width_within(f, 0, i as int, e, n as int);
            lemma_width_within(f, 0, i as int, i + 1, n as int);
            assert((bounds@[i as int].0 as int, bounds@[i as int].1 as int) == bound_of(b, f, i as int));
            lemma_ancestors_bounded(b, i as int, i as int);
            lemma_skip_split(b, i as int, 1, (rem - 1) as nat);
            assert((1 + (rem - 1) as nat) as nat == rem as nat);
            assert(s * (depth(b, i as int) + 1) == s * depth(b, i as int) + s) by (nonlinear_arith);
        }
        coords.push(cursor);
        let advanced = Pos(cursor.0 + bw as i32, cursor.1);
        if rem == 1 {
            let ghost before = stack@;
            stack.pop();
            proof {
                lemma_pop(b, f, s, next, before);
                assert(stack@ == before.drop_last());
                assert(counts_of(stack@) =~= c0.drop_last());
                next = next.drop_last();
            }
        } else {
            let ghost before = stack@;
            stack.set(t, (advanced, rem - 1));
            proof {
                lemma_advance(b, f, s, next, before, i as int, advanced);
                assert(counts_of(stack@) =~= c0.update(t as int, (rem - 1) as u32));
                next = next.update(t as int, e);
            }
        }
        if nk > 0 {
            proof {
                lemma_child_order(b, i as int, 0);
                assert(skip(b, i + 1, 0) == i + 1);
                assert(s * depth(b, i as int) + s <= s * (n - 1)) by (nonlinear_arith)
                    requires
                        depth(b, i as int) + 1 <= n - 1,
                        s >= 0,
                ;
                assert(s <= s * (n - 1)) by (nonlinear_arith)
                    requires
                        n - 1 >= 1,
                        s >= 0,
                ;
            }
            let down = Pos(cursor.0 + ow as i32, cursor.1 + step as i32);
            let ghost before = stack@;
            stack.push((down, nk));
            proof {
                lemma_push(b, f, s, next, before, i as int, down);
                assert(counts_of(stack@) =~= counts_of(before).push(nk));
                lemma_child_depth(b, i as int, 0);
                assert(skip(b, i + 1, 0) == i + 1);
                next = next.push(i + 1);
            }
        } else {
            assert(skip(b, i as int, 1) == skip(b, i + 1, 0));
            assert(e == i + 1);
        }
        proof {
            if stack@.len() >= 1 {
                lemma_top(b, f, s, next, stack@);
            }
            assert(counts_of(stack@) =~= frame_counts(b, (ix + 1) as nat));
        }
        ix = ix + 1;
    }
    coords
}

/// Sum of the subtree widths of the first `c` children of node `i`.
pub open spec fn children_width(b: Seq<Branch>, f: Seq<Fit>, i: int, c: nat) -> int
    decreases c,
{
    if c == 0 {
        0
    } else {
        children_width(b, f, i, (c - 1) as nat) + bound_of(b, f, child(b, i, (c - 1) as nat)).0
    }
}

/// Largest of node `i`'s own height and the subtree heights of its first `c`
/// children.
pub open spec fn children_height(b: Seq<Branch>, f: Seq<Fit>, i: int, c: nat) -> int
    decreases c,
{
    if c == 0 {
        f[i].1 as int
    } else {
        let m = children_height(b, f, i, (c - 1) as nat);
        let h = bound_of(b, f, child(b, i, (c - 1) as nat)).1;
        if m >= h {
            m
        } else {
            h
        }
    }
}

proof fn lemma_bound_prefix(b: Seq<Branch>, f: Seq<Fit>, i: int, c: nat)
    requires
        is_preorder(b),
        f.len() == b.len(),
        0 <= i < b.len(),
        c <= b[i].0,
    ensures
        width_sum(f, i, child(b, i, c)) == f[i].0 + children_width(b, f, i, c),
        height_max(f, i, child(b, i, c)) == children_height(b, f, i, c),
    decreases c,
{
    if c == 0 {
        assert(width_sum(f, i, i) == 0);
        assert(height_max(f, i, i) == 0);
        assert(child(b, i, 0) == i + 1);
    } else {
        let p = (c - 1) as nat;
        lemma_bound_prefix(b, f, i, p);
        lemma_child_order(b, i, p);
        lemma_width_split(f, i, child(b, i, p), child(b, i, c));
        lemma_height_split(f, i, child(b, i, p), child(b, i, c));
    }
}

/// A subtree's bound is its root's own fit with each child's bound folded in
/// from left to right: widths add up, heights take the maximum.
pub proof fn lemma_bound_rule(b: Seq<Branch>, f: Seq<Fit>, i: int)
    requires
        is_preorder(b),
        f.len() == b.len(),
        0 <= i < b.len(),
    ensures
        bound_of(b, f, i).0 == f[i].0 + children_width(b, f, i, b[i].0 as nat),
        bound_of(b, f, i).1 == children_height(b, f, i, b[i].0 as nat),
{
    lemma_bound_prefix(b, f, i, b[i].0 as nat);
    assert(skip(b, i, 1) == skip(b, i + 1, b[i].0 as nat));
}

/// Sum of all own widths, or `None` once it passes `limit`.
fn total_width(fits: &[Fit], limit: u64) -> (r: Option<u64>)
    requires
        limit <= u32::MAX,
    ensures
        r is None <==> width_sum(fits@, 0, fits@.len() as int) > limit,
        r matches Some(w) ==> w == width_sum(fits@, 0, fits@.len() as int),
{
    let mut w: u64 = 0;
    let mut i: usize = 0;
    while i < fits.len()
        invariant
            i <= fits@.len(),
            limit <= u32::MAX,
            w == width_sum(fits@, 0, i as int),
            w <= limit,
        decreases fits@.len() - i,
    {
        w = w + fits[i].0 as u64;
        i = i + 1;
        if w > limit {
            proof {
                lemma_width_split(fits@, 0, i as int, fits@.len() as int);
                lemma_width_nonneg(fits@, i as int, fits@.len() as int);
            }
            return None;
        }
    }
    Some(w)
}

/// Lays a tree out: the bound of every subtree, then the position of every
/// node, with children one `step` below their parent.
///
/// Gives `None` when the coordinates would not fit an `i32`: the widths of
/// all nodes add up past `i32::MAX`, or `step` times the deepest possible
/// depth (one less than the number of nodes) does.
pub fn layout_tree(tree: &Tree, fits: &[Fit], step: u32) -> (r: Option<(Vec<Bound>, Vec<Pos>)>)
    requires
        tree.wf(),
        fits@.len() == tree@.len(),
    ensures
        r is None <==> (width_sum(fits@, 0, fits@.len() as int) > i32::MAX || step as int * (
        tree@.len() - 1) > i32::MAX),
        r matches Some(out) ==> {
            &&& are_bounds(tree@, fits@, out.0@)
            &&& out.1@.len() == tree@.len()
            &&& forall|i: int|
                0 <= i < out.1@.len() ==> (out.1@[i].0 as int, out.1@[i].1 as int) == pos_of(
                    tree@,
                    fits@,
                    step as int,
                    i,
                )
        },
{
    let n = tree.len();
    assert((step as int) * (n - 1) <= 0xffff_ffff_ffff_ffff_ffff_ffff) by (nonlinear_arith)
        requires
            0 <= step <= 0xffff_ffff,
            1 <= n <= 0xffff_ffff_ffff_ffff,
    ;
    let lines = (step as u128) * ((n - 1) as u128);
    if lines > i32::MAX as u128 {
        return None;
    }
    match total_width(fits, i32::MAX as u64) {
        None => None,
        Some(_) => {
            let bounds = compute_bounds(tree, fits);
            let coords = compute_positions(tree, fits, bounds.as_slice(), step);
            Some((bounds, coords))
        },
    }
}

} // verus!
