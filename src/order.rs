use vstd::prelude::*;

use crate::node::{
    first_index, first_of, last_of, lemma_first_index_distinct,
    next_sibling, previous_sibling, Node,
};
use crate::tree::{arena_ok, last_descendant, next_down, prev_up, up_next};

verus! {

/// Parent and child links agree, and no composite lists a child twice.
pub open spec fn links_ok(s: Seq<Node>) -> bool {
    links_pending(s, Set::empty())
}

/// As `links_ok`, except that a composite in `open` need not list its children yet.
pub open spec fn links_pending(s: Seq<Node>, open: Set<usize>) -> bool {
    &&& forall|i: int, k: int|
        0 <= i < s.len() && 0 <= k < s[i].children().len() ==> s[#[trigger] s[i].children()[k] as int].parent
            == Some(i as usize)
    &&& forall|i: int| 0 <= i < s.len() ==> (#[trigger] s[i].children()).no_duplicates()
    &&& forall|i: int|
        0 <= i < s.len() ==> (#[trigger] s[i].parent matches Some(p) ==> open.contains(p) || s[p as int].children().contains(
            i as usize,
        ))
}

/// Every strict ancestor of `c` is an expanded composite: `c` takes part in
/// the visible order.
pub open spec fn ancestors_expanded(s: Seq<Node>, c: usize) -> bool
    decreases c,
{
    c < s.len() && match s[c as int].parent {
        None => true,
        Some(p) => p < c && s[p as int].is_expanded() && ancestors_expanded(s, p),
    }
}

/// The position of child `x` in its parent's list.
proof fn lemma_child_position(s: Seq<Node>, x: usize) -> (i: int)
    requires
        arena_ok(s),
        links_ok(s),
        x < s.len(),
        s[x as int].parent is Some,
    ensures
        0 <= i < s[s[x as int].parent->0 as int].children().len(),
        s[s[x as int].parent->0 as int].children()[i] == x,
        first_index(s[s[x as int].parent->0 as int].children(), x) == Some(i),
{
    let p = s[x as int].parent->0;
    let ch = s[p as int].children();
    assert(p < x);
    assert(ch.contains(x));
    let i = choose|i: int| 0 <= i < ch.len() && ch[i] == x;
    lemma_first_index_distinct(ch, i);
    i
}

proof fn lemma_up_next_inverse(s: Seq<Node>, c: usize, x: usize)
    requires
        arena_ok(s),
        links_ok(s),
        x < s.len(),
        last_descendant(s, x) == c,
        ancestors_expanded(s, x),
    ensures
        up_next(s, x) matches Some(d) ==> prev_up(s, d) == Some(c),
    decreases x,
{
    if let Some(p) = s[x as int].parent {
        let ch = s[p as int].children();
        let i = lemma_child_position(s, x);
        if i + 1 < ch.len() {
            let d = ch[i + 1];
            assert(s[ch[i + 1] as int].parent == Some(p));
            lemma_first_index_distinct(ch, i + 1);
            assert(previous_sibling(ch, d) == Some(x));
        } else {
            assert(last_of(ch) == Some(x));
            assert(p < x);
            assert(last_descendant(s, p) == last_descendant(s, x));
            lemma_up_next_inverse(s, c, p);
        }
    }
}

/// Moving down and then up returns to the starting node, for a node in the
/// visible order that has a successor.
pub proof fn lemma_down_then_up(s: Seq<Node>, c: usize)
    requires
        arena_ok(s),
        links_ok(s),
        ancestors_expanded(s, c),
    ensures
        next_down(s, c) matches Some(d) ==> prev_up(s, d) == Some(c),
{
    let ch = s[c as int].children();
    if s[c as int].is_expanded() && ch.len() > 0 {
        assert(s[ch[0] as int].parent == Some(c));
        lemma_first_index_distinct(ch, 0);
    } else {
        assert(last_descendant(s, c) == c);
        lemma_up_next_inverse(s, c, c);
    }
}

/// From the last node reached by descending through last children, moving
/// down continues where walking up from `y` does.
proof fn lemma_next_down_of_last_descendant(s: Seq<Node>, y: usize)
    requires
        arena_ok(s),
        links_ok(s),
        y < s.len(),
    ensures
        next_down(s, last_descendant(s, y)) == up_next(s, y),
    decreases s.len() - y,
{
    let ch = s[y as int].children();
    if s[y as int].is_expanded() && ch.len() > 0 {
        let l = ch[ch.len() - 1];
        assert(y < l < s.len());
        assert(last_of(ch) == Some(l));
        lemma_next_down_of_last_descendant(s, l);
        assert(s[ch[ch.len() - 1] as int].parent == Some(y));
        lemma_first_index_distinct(ch, ch.len() - 1);
        assert(next_sibling(ch, l) is None);
    }
}

/// Moving up and then down returns to the starting node, for a node in the
/// visible order that has a predecessor.
pub proof fn lemma_up_then_down(s: Seq<Node>, c: usize)
    requires
        arena_ok(s),
        links_ok(s),
        ancestors_expanded(s, c),
    ensures
        prev_up(s, c) matches Some(d) ==> next_down(s, d) == Some(c),
{
    if let Some(p) = s[c as int].parent {
        let ch = s[p as int].children();
        let i = lemma_child_position(s, c);
        if i > 0 {
            let q = ch[i - 1];
            assert(previous_sibling(ch, c) == Some(q));
            assert(s[ch[i - 1] as int].parent == Some(p));
            assert(p < q);
            lemma_first_index_distinct(ch, i - 1);
            assert(next_sibling(ch, q) == Some(c));
            lemma_next_down_of_last_descendant(s, q);
        } else {
            assert(previous_sibling(ch, c) is None);
            assert(first_of(ch) == Some(c));
        }
    }
}

/// The visible order of the subtree of `i`: `i` itself, then, when `i` is
/// expanded, the visible order of each child in turn.
pub open spec fn visible_order(s: Seq<Node>, i: int) -> Seq<usize>
    decreases s.len() - i, 1int, 0int,
{
    if 0 <= i < s.len() {
        seq![i as usize] + if s[i].is_expanded() {
            children_order(s, i, s[i].children().len() as int)
        } else {
            Seq::empty()
        }
    } else {
        Seq::empty()
    }
}

/// The visible orders of the first `k` children of `i`, one after another.
pub open spec fn children_order(s: Seq<Node>, i: int, k: int) -> Seq<usize>
    decreases s.len() - i, 0int, k,
{
    if 0 < k <= s[i].children().len() && 0 <= i < s.len() {
        let c = s[i].children()[k - 1] as int;
        children_order(s, i, k - 1) + if i < c < s.len() {
            visible_order(s, c)
        } else {
            Seq::empty()
        }
    } else {
        Seq::empty()
    }
}

/// No element of `o` lies inside a collapsed subtree.
pub open spec fn all_in_order(s: Seq<Node>, o: Seq<usize>) -> bool {
    forall|j: int| 0 <= j < o.len() ==> ancestors_expanded(s, #[trigger] o[j])
}

proof fn lemma_all_in_order_concat(s: Seq<Node>, a: Seq<usize>, b: Seq<usize>)
    requires
        all_in_order(s, a),
        all_in_order(s, b),
    ensures
        all_in_order(s, a + b),
{
    let o = a + b;
    assert forall|j: int| 0 <= j < o.len() implies ancestors_expanded(s, #[trigger] o[j]) by {
        if j < a.len() {
            assert(o[j] == a[j]);
        } else {
            assert(o[j] == b[j - a.len()]);
        }
    }
}

/// Each element of `o` is followed by the node that moving down reaches from it.
pub open spec fn down_chain(s: Seq<Node>, o: Seq<usize>) -> bool {
    forall|j: int| 0 <= j < o.len() - 1 ==> next_down(s, #[trigger] o[j]) == Some(o[j + 1])
}

proof fn lemma_chain_concat(s: Seq<Node>, a: Seq<usize>, b: Seq<usize>)
    requires
        down_chain(s, a),
        down_chain(s, b),
        a.len() > 0,
        b.len() > 0,
        next_down(s, a.last()) == Some(b[0]),
    ensures
        down_chain(s, a + b),
{
    let o = a + b;
    assert forall|j: int| 0 <= j < o.len() - 1 implies next_down(s, #[trigger] o[j]) == Some(o[j + 1]) by {
        if j < a.len() - 1 {
            assert(o[j] == a[j] && o[j + 1] == a[j + 1]);
        } else if j == a.len() - 1 {
            assert(o[j] == a.last() && o[j + 1] == b[0]);
        } else {
            let t = j - a.len();
            assert(o[j] == b[t] && o[j + 1] == b[t + 1]);
        }
    }
}

proof fn lemma_subtree_chain(s: Seq<Node>, y: usize)
    requires
        arena_ok(s),
        links_ok(s),
        y < s.len(),
    ensures
        down_chain(s, visible_order(s, y as int)),
        visible_order(s, y as int).len() > 0,
        visible_order(s, y as int)[0] == y,
        visible_order(s, y as int).last() == last_descendant(s, y),
        ancestors_expanded(s, y) ==> all_in_order(s, visible_order(s, y as int)),
    decreases s.len() - y, 1int, 0int,
{
    let ch = s[y as int].children();
    let n = ch.len() as int;
    let head = seq![y];
    if s[y as int].is_expanded() && n > 0 {
        lemma_children_chain(s, y, n);
        let rest = children_order(s, y as int, n);
        assert(ch[0] == rest[0]);
        assert(down_chain(s, head));
        lemma_chain_concat(s, head, rest);
        assert(visible_order(s, y as int) == head + rest);
        if ancestors_expanded(s, y) {
            lemma_all_in_order_concat(s, head, rest);
        }
        assert(y < ch[n - 1] < s.len());
        assert(last_of(ch) == Some(ch[n - 1]));
    } else {
        assert(visible_order(s, y as int) =~= head);
    }
}

proof fn lemma_children_chain(s: Seq<Node>, y: usize, k: int)
    requires
        arena_ok(s),
        links_ok(s),
        y < s.len(),
        0 < k <= s[y as int].children().len(),
    ensures
        down_chain(s, children_order(s, y as int, k)),
        children_order(s, y as int, k).len() > 0,
        children_order(s, y as int, k)[0] == s[y as int].children()[0],
        children_order(s, y as int, k).last() == last_descendant(s, s[y as int].children()[k - 1]),
        ancestors_expanded(s, y) && s[y as int].is_expanded() ==> all_in_order(
            s,
            children_order(s, y as int, k),
        ),
    decreases s.len() - y, 0int, k,
{
    let ch = s[y as int].children();
    let c = ch[k - 1];
    assert(y < c < s.len());
    assert(s[ch[k - 1] as int].parent == Some(y));
    lemma_subtree_chain(s, c);
    let sub = visible_order(s, c as int);
    if k == 1 {
        assert(children_order(s, y as int, 0) =~= Seq::<usize>::empty());
        assert(children_order(s, y as int, k) =~= sub);
    } else {
        lemma_children_chain(s, y, k - 1);
        let prev = children_order(s, y as int, k - 1);
        let b = ch[k - 2];
        assert(y < b < s.len());
        lemma_next_down_of_last_descendant(s, b);
        assert(s[ch[k - 2] as int].parent == Some(y));
        lemma_first_index_distinct(ch, k - 2);
        assert(next_sibling(ch, b) == Some(c));
        assert(up_next(s, b) == Some(c));
        lemma_chain_concat(s, prev, sub);
        assert(children_order(s, y as int, k) == prev + sub);
        if ancestors_expanded(s, y) && s[y as int].is_expanded() {
            lemma_all_in_order_concat(s, prev, sub);
        }
    }
}

/// Moving down from the root visits the visible order one node at a time and
/// stops after its last node; so no node is visited twice.
pub proof fn lemma_walk_from_root(s: Seq<Node>)
    requires
        arena_ok(s),
        links_ok(s),
        s.len() > 0,
    ensures
        visible_order(s, 0)[0] == 0,
        down_chain(s, visible_order(s, 0)),
        next_down(s, visible_order(s, 0).last()) is None,
        visible_order(s, 0).no_duplicates(),
        all_in_order(s, visible_order(s, 0)),
{
    assert(s[0].parent matches None) by {
        if let Some(p) = s[0].parent {
            assert(p < 0);
        }
    }
    assert(ancestors_expanded(s, 0));
    lemma_subtree_chain(s, 0);
    lemma_next_down_of_last_descendant(s, 0);
    let o = visible_order(s, 0);
    assert forall|a: int, b: int| 0 <= a < b < o.len() implies o[a] != o[b] by {
        if o[a] == o[b] {
            lemma_chain_repeats(s, o, a, b, o.len() - 1 - b);
        }
    }
}

/// In a chain, equal elements have equal successors for as long as both last.
proof fn lemma_chain_repeats(s: Seq<Node>, o: Seq<usize>, a: int, b: int, t: int)
    requires
        down_chain(s, o),
        next_down(s, o.last()) is None,
        0 <= a < b < o.len(),
        o[a] == o[b],
        0 <= t <= o.len() - 1 - b,
    ensures
        o[a + t] == o[b + t],
        t == o.len() - 1 - b ==> false,
    decreases t,
{
    if t > 0 {
        lemma_chain_repeats(s, o, a, b, t - 1);
        assert(next_down(s, o[a + t - 1]) == Some(o[a + t]));
        assert(next_down(s, o[b + t - 1]) == Some(o[b + t]));
    }
    if t == o.len() - 1 - b {
        assert(next_down(s, o[a + t]) == Some(o[a + t + 1]));
    }
}

/// Only the root, node 0, has no parent.
pub open spec fn rooted(s: Seq<Node>) -> bool {
    forall|i: int| 0 < i < s.len() ==> (#[trigger] s[i].parent) is Some
}

proof fn lemma_child_order_within(s: Seq<Node>, y: usize, k: int, j: int)
    requires
        arena_ok(s),
        y < s.len(),
        0 <= j < k <= s[y as int].children().len(),
    ensures
        forall|w: usize|
            visible_order(s, s[y as int].children()[j] as int).contains(w) ==> children_order(
                s,
                y as int,
                k,
            ).contains(w),
    decreases k,
{
    let ch = s[y as int].children();
    let a = children_order(s, y as int, k - 1);
    let b = visible_order(s, ch[k - 1] as int);
    assert(y < ch[k - 1] < s.len());
    assert(children_order(s, y as int, k) == a + b);
    if j < k - 1 {
        lemma_child_order_within(s, y, k - 1, j);
    }
    assert forall|w: usize| visible_order(s, ch[j] as int).contains(w) implies (a + b).contains(w) by {
        if j < k - 1 {
            assert(a.contains(w));
            let t = choose|t: int| 0 <= t < a.len() && a[t] == w;
            assert((a + b)[t] == w);
        } else {
            let t = choose|t: int| 0 <= t < b.len() && b[t] == w;
            assert((a + b)[a.len() + t] == w);
        }
    }
}

proof fn lemma_order_within(s: Seq<Node>, y: usize, z: usize)
    requires
        arena_ok(s),
        y < s.len(),
        visible_order(s, y as int).contains(z),
    ensures
        forall|w: usize| visible_order(s, z as int).contains(w) ==> visible_order(s, y as int).contains(w),
    decreases s.len() - y, 1int, 0int,
{
    if z != y {
        let n = s[y as int].children().len() as int;
        let head = seq![y];
        if s[y as int].is_expanded() {
            let c = children_order(s, y as int, n);
            let o = head + c;
            assert(visible_order(s, y as int) == o);
            let t = choose|t: int| 0 <= t < o.len() && o[t] == z;
            assert(c[t - 1] == z);
            lemma_children_order_within(s, y, n, z);
            assert forall|w: usize| visible_order(s, z as int).contains(w) implies o.contains(w) by {
                let u = choose|u: int| 0 <= u < c.len() && c[u] == w;
                assert(o[u + 1] == w);
            }
        } else {
            assert(visible_order(s, y as int) =~= head);
        }
    }
}

proof fn lemma_children_order_within(s: Seq<Node>, y: usize, k: int, z: usize)
    requires
        arena_ok(s),
        y < s.len(),
        0 <= k <= s[y as int].children().len(),
        children_order(s, y as int, k).contains(z),
    ensures
        forall|w: usize| visible_order(s, z as int).contains(w) ==> children_order(s, y as int, k).contains(w),
    decreases s.len() - y, 0int, k,
{
    let ch = s[y as int].children();
    if k == 0 {
        assert(children_order(s, y as int, 0) =~= Seq::<usize>::empty());
    } else {
        let a = children_order(s, y as int, k - 1);
        let c = ch[k - 1];
        assert(y < c < s.len());
        let b = visible_order(s, c as int);
        assert(children_order(s, y as int, k) == a + b);
        let t = choose|t: int| 0 <= t < (a + b).len() && (a + b)[t] == z;
        if t < a.len() {
            assert(a[t] == z);
            lemma_children_order_within(s, y, k - 1, z);
            assert forall|w: usize| visible_order(s, z as int).contains(w) implies (a + b).contains(w) by {
                let u = choose|u: int| 0 <= u < a.len() && a[u] == w;
                assert((a + b)[u] == w);
            }
        } else {
            assert(b[t - a.len()] == z);
            lemma_order_within(s, c, z);
            assert forall|w: usize| visible_order(s, z as int).contains(w) implies (a + b).contains(w) by {
                let u = choose|u: int| 0 <= u < b.len() && b[u] == w;
                assert((a + b)[a.len() + u] == w);
            }
        }
    }
}

/// Every node outside collapsed subtrees is in the visible order from the root.
pub proof fn lemma_visible_nodes_in_order(s: Seq<Node>, x: usize)
    requires
        arena_ok(s),
        links_ok(s),
        rooted(s),
        ancestors_expanded(s, x),
    ensures
        visible_order(s, 0).contains(x),
    decreases x,
{
    if x == 0 {
        assert(visible_order(s, 0)[0] == 0);
    } else {
        let p = s[x as int].parent->0;
        lemma_visible_nodes_in_order(s, p);
        let i = lemma_child_position(s, x);
        let ch = s[p as int].children();
        let n = ch.len() as int;
        lemma_child_order_within(s, p, n, i);
        assert(visible_order(s, x as int)[0] == x);
        assert(children_order(s, p as int, n).contains(x));
        let c = children_order(s, p as int, n);
        let t = choose|t: int| 0 <= t < c.len() && c[t] == x;
        assert(visible_order(s, p as int) == seq![p] + c);
        assert(visible_order(s, p as int)[t + 1] == x);
        lemma_order_within(s, 0, p);
    }
}

} // verus!
