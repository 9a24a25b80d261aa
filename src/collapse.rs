use vstd::prelude::*;

use crate::node::Node;
use crate::render::{children_lines, find_in_children, find_line, lemma_children_lines_mono, lines};
use crate::tree::{arena_ok, toggled};

verus! {

/// `t` has the nodes of `s`, with the same children, and differs at most in
/// whether node `x` is expanded.
pub open spec fn agree_except(s: Seq<Node>, t: Seq<Node>, x: usize) -> bool {
    &&& t.len() == s.len()
    &&& forall|y: int| 0 <= y < s.len() ==> (#[trigger] t[y]).children() == s[y].children()
    &&& forall|y: int| 0 <= y < s.len() && y != x ==> (#[trigger] t[y]).is_expanded() == s[y].is_expanded()
}

/// Whether a search finds `x` does not depend on the line it starts at.
proof fn lemma_found_any_base(s: Seq<Node>, i: int, x: int, b1: nat, b2: nat)
    ensures
        (find_line(s, i, x, b1) is None) == (find_line(s, i, x, b2) is None),
    decreases s.len() - i, 1int, 0int,
{
    if 0 <= i < s.len() && i != x && s[i].is_expanded() {
        lemma_found_any_base_children(s, i, x, b1 + 1, b2 + 1, 0);
    }
}

proof fn lemma_found_any_base_children(s: Seq<Node>, i: int, x: int, b1: nat, b2: nat, k: int)
    requires
        0 <= k,
    ensures
        (find_in_children(s, i, x, b1, k) is None) == (find_in_children(s, i, x, b2, k) is None),
    decreases s.len() - i, 0int, s[i].children().len() - k,
{
    if 0 <= i < s.len() && k < s[i].children().len() {
        let c = s[i].children()[k] as int;
        if i < c < s.len() {
            lemma_found_any_base(s, c, x, b1, b2);
            lemma_found_any_base_children(s, i, x, b1 + lines(s, c), b2 + lines(s, c), k + 1);
        }
    }
}

/// A search that misses `x` misses it in every remaining child.
proof fn lemma_missed_in_children(s: Seq<Node>, i: int, x: int, b: nat, k: int)
    requires
        arena_ok(s),
        0 <= i < s.len(),
        0 <= k,
        find_in_children(s, i, x, b, k) is None,
    ensures
        forall|j: int|
            k <= j < s[i].children().len() ==> find_line(s, #[trigger] s[i].children()[j] as int, x, 0) is None,
    decreases s[i].children().len() - k,
{
    if k < s[i].children().len() {
        let c = s[i].children()[k] as int;
        assert(i < c < s.len());
        lemma_found_any_base(s, c, x, b, 0);
        lemma_missed_in_children(s, i, x, b + lines(s, c), k + 1);
    }
}

/// Where `x` is not reached from `i`, changing `x` changes nothing below `i`.
proof fn lemma_frame(s: Seq<Node>, t: Seq<Node>, x: usize, i: int, tg: int, b: nat)
    requires
        arena_ok(s),
        agree_except(s, t, x),
        find_line(s, i, x as int, 0) is None,
    ensures
        find_line(t, i, tg, b) == find_line(s, i, tg, b),
        lines(t, i) == lines(s, i),
    decreases s.len() - i, 1int, 0int,
{
    if 0 <= i < s.len() {
        assert(t[i].is_expanded() == s[i].is_expanded());
        if s[i].is_expanded() {
            let n = s[i].children().len() as int;
            lemma_missed_in_children(s, i, x as int, 1, 0);
            lemma_frame_children(s, t, x, i, tg, b + 1, 0);
            lemma_frame_lines(s, t, x, i, n);
        }
    }
}

proof fn lemma_frame_children(s: Seq<Node>, t: Seq<Node>, x: usize, i: int, tg: int, b: nat, k: int)
    requires
        arena_ok(s),
        agree_except(s, t, x),
        0 <= i < s.len(),
        0 <= k,
        forall|j: int|
            k <= j < s[i].children().len() ==> find_line(s, #[trigger] s[i].children()[j] as int, x as int, 0) is None,
    ensures
        find_in_children(t, i, tg, b, k) == find_in_children(s, i, tg, b, k),
    decreases s.len() - i, 0int, s[i].children().len() - k,
{
    assert(t[i].children() == s[i].children());
    if k < s[i].children().len() {
        let c = s[i].children()[k] as int;
        assert(i < c < s.len());
        lemma_frame(s, t, x, c, tg, b);
        lemma_frame_children(s, t, x, i, tg, b + lines(s, c), k + 1);
    }
}

proof fn lemma_frame_lines(s: Seq<Node>, t: Seq<Node>, x: usize, i: int, k: int)
    requires
        arena_ok(s),
        agree_except(s, t, x),
        0 <= i < s.len(),
        0 <= k <= s[i].children().len(),
        forall|j: int|
            0 <= j < k ==> find_line(s, #[trigger] s[i].children()[j] as int, x as int, 0) is None,
    ensures
        children_lines(t, i, k) == children_lines(s, i, k),
    decreases s.len() - i, 0int, k,
{
    assert(t[i].children() == s[i].children());
    if k > 0 {
        let c = s[i].children()[k - 1] as int;
        assert(i < c < s.len());
        lemma_frame(s, t, x, c, 0, 0);
        lemma_frame_lines(s, t, x, i, k - 1);
    }
}

/// A node found from `i` lies on one of the lines of `i`, after the first
/// unless it is `i` itself.
pub proof fn lemma_found_within(s: Seq<Node>, i: int, tg: int, b: nat)
    requires
        arena_ok(s),
    ensures
        find_line(s, i, tg, b) matches Some(l) ==> b <= l < b + lines(s, i) && (tg != i ==> b < l),
    decreases s.len() - i, 1int, 0int,
{
    if 0 <= i < s.len() && i != tg && s[i].is_expanded() {
        lemma_found_within_children(s, i, tg, b + 1, 0);
    }
}

proof fn lemma_found_within_children(s: Seq<Node>, i: int, tg: int, b: nat, k: int)
    requires
        arena_ok(s),
        0 <= i < s.len(),
        0 <= k <= s[i].children().len(),
    ensures
        find_in_children(s, i, tg, b, k) matches Some(l) ==> b <= l < b + children_lines(
            s,
            i,
            s[i].children().len() as int,
        ) - children_lines(s, i, k),
    decreases s.len() - i, 0int, s[i].children().len() - k,
{
    let n = s[i].children().len() as int;
    if k < n {
        let c = s[i].children()[k] as int;
        assert(i < c < s.len());
        assert(children_lines(s, i, k + 1) == children_lines(s, i, k) + lines(s, c));
        lemma_children_lines_mono(s, i, k + 1);
        lemma_found_within(s, c, tg, b);
        lemma_found_within_children(s, i, tg, b + lines(s, c), k + 1);
    }
}

proof fn lemma_earlier_kept(s: Seq<Node>, t: Seq<Node>, x: usize, i: int, tg: int, b: nat)
    requires
        arena_ok(s),
        agree_except(s, t, x),
        find_line(s, i, tg, b) is Some,
        find_line(s, i, x as int, b) is Some,
        find_line(s, i, tg, b)->0 <= find_line(s, i, x as int, b)->0,
    ensures
        find_line(t, i, tg, b) == find_line(s, i, tg, b),
    decreases s.len() - i, 1int, 0int,
{
    if i != tg {
        lemma_found_within(s, i, tg, b);
        if i != x {
            assert(t[i].is_expanded() == s[i].is_expanded());
            lemma_earlier_kept_children(s, t, x, i, tg, b + 1, 0);
        }
    }
}

proof fn lemma_earlier_kept_children(
    s: Seq<Node>,
    t: Seq<Node>,
    x: usize,
    i: int,
    tg: int,
    b: nat,
    k: int,
)
    requires
        arena_ok(s),
        agree_except(s, t, x),
        0 <= i < s.len(),
        0 <= k,
        find_in_children(s, i, tg, b, k) is Some,
        find_in_children(s, i, x as int, b, k) is Some,
        find_in_children(s, i, tg, b, k)->0 <= find_in_children(s, i, x as int, b, k)->0,
    ensures
        find_in_children(t, i, tg, b, k) == find_in_children(s, i, tg, b, k),
    decreases s.len() - i, 0int, s[i].children().len() - k,
{
    assert(t[i].children() == s[i].children());
    let c = s[i].children()[k] as int;
    let x_here = find_line(s, c, x as int, b);
    lemma_found_any_base(s, c, x as int, b, 0);
    if find_line(s, c, tg, b) is Some {
        if x_here is Some {
            lemma_earlier_kept(s, t, x, c, tg, b);
        } else {
            lemma_frame(s, t, x, c, tg, b);
        }
    } else {
        lemma_found_within(s, c, x as int, b);
        if x_here is Some {
            lemma_found_within_children(s, i, tg, b + lines(s, c), k + 1);
        } else {
            lemma_frame(s, t, x, c, tg, b);
            lemma_earlier_kept_children(s, t, x, i, tg, b + lines(s, c), k + 1);
        }
    }
}

/// Collapsing node `x` leaves the line of `x` and of every node shown before
/// it unchanged, and `x` then takes a single line.
pub proof fn lemma_collapse_keeps_earlier_lines(s: Seq<Node>, x: usize, tg: usize)
    requires
        arena_ok(s),
        x < s.len(),
        s[x as int].is_expanded(),
        find_line(s, 0, tg as int, 0) is Some,
        find_line(s, 0, x as int, 0) is Some,
        find_line(s, 0, tg as int, 0)->0 <= find_line(s, 0, x as int, 0)->0,
    ensures
        find_line(toggled(s, x), 0, tg as int, 0) == find_line(s, 0, tg as int, 0),
        lines(toggled(s, x), x as int) == 1,
{
    let t = toggled(s, x);
    assert(agree_except(s, t, x));
    lemma_earlier_kept(s, t, x, 0, tg as int, 0);
}

} // verus!
