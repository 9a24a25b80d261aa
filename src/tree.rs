use vstd::prelude::*;

use crate::node::{
    first_index, first_of, lemma_first_index_ok, next_sibling, previous_sibling, last_of, HidableValue, Node, NodeType,
    NonTerminalNode, Scalar,
};
use crate::render::{count_lines, find_line, find_line_recursive, lines, render, render_node, text_view, Line};
use crate::order::{links_ok, links_pending, rooted};
use crate::value::{entries_size, items_size, size, JsonValue};

verus! {

/// A document held in an arena of nodes addressed by `usize` handles, with a cursor.
pub struct Tree {
    root: usize,
    nodes: Vec<Node>,
    current_node: usize,
}

/// Every parent handle is smaller than its child's, and every child handle is
/// larger than its parent's and lies in the arena.
pub open spec fn arena_ok(s: Seq<Node>) -> bool {
    &&& forall|i: int| 0 <= i < s.len() ==> (#[trigger] s[i].parent matches Some(p) ==> p < i)
    &&& forall|i: int, k: int|
        0 <= i < s.len() && 0 <= k < s[i].children().len() ==> i < #[trigger] s[i].children()[k]
            < s.len()
}

/// The next node after `c` found by walking up: the first following sibling of
/// `c` or of one of its ancestors.
pub open spec fn up_next(s: Seq<Node>, c: usize) -> Option<usize>
    decreases c,
{
    if c >= s.len() {
        None
    } else {
        match s[c as int].parent {
            None => None,
            Some(p) => if p < c {
                match next_sibling(s[p as int].children(), c) {
                    Some(n) => Some(n),
                    None => up_next(s, p),
                }
            } else {
                None
            },
        }
    }
}

/// The node after `c` in visible order.
pub open spec fn next_down(s: Seq<Node>, c: usize) -> Option<usize> {
    if s[c as int].is_expanded() && s[c as int].children().len() > 0 {
        first_of(s[c as int].children())
    } else {
        up_next(s, c)
    }
}

/// Descends from `c` through last children while the node is expanded.
pub open spec fn last_descendant(s: Seq<Node>, c: usize) -> usize
    decreases s.len() - c,
{
    if c < s.len() && s[c as int].is_expanded() {
        match last_of(s[c as int].children()) {
            Some(l) => if c < l && l < s.len() {
                last_descendant(s, l)
            } else {
                c
            },
            None => c,
        }
    } else {
        c
    }
}

/// The node before `c` in visible order.
pub open spec fn prev_up(s: Seq<Node>, c: usize) -> Option<usize> {
    match s[c as int].parent {
        None => None,
        Some(p) => if !s[p as int].visible_spec() {
            Some(p)
        } else {
            match previous_sibling(s[p as int].children(), c) {
                Some(q) => Some(last_descendant(s, q)),
                None => Some(p),
            }
        },
    }
}

/// `s` with the highlight flag of node `i` set to `b`.
pub open spec fn with_highlight(s: Seq<Node>, i: usize, b: bool) -> Seq<Node> {
    s.update(i as int, Node { highlighted: b, ..s[i as int] })
}

/// Exactly the node `c` is highlighted.
pub open spec fn only_highlighted(s: Seq<Node>, c: usize) -> bool {
    forall|i: int| 0 <= i < s.len() ==> (#[trigger] s[i].highlighted <==> i == c)
}

/// The arena after the cursor moved from `from` to `to`.
pub open spec fn moved(s: Seq<Node>, from: usize, to: usize) -> Seq<Node> {
    with_highlight(with_highlight(s, from, false), to, true)
}

proof fn lemma_next_sibling_in(s: Seq<usize>, k: usize)
    ensures
        next_sibling(s, k) matches Some(x) ==> exists|j: int| 0 <= j < s.len() && s[j] == x,
        previous_sibling(s, k) matches Some(x) ==> exists|j: int| 0 <= j < s.len() && s[j] == x,
{
    lemma_first_index_ok(s, k);
    if let Some(x) = next_sibling(s, k) {
        let i = first_index(s, k).unwrap();
        assert(s[i + 1] == x);
    }
    if let Some(x) = previous_sibling(s, k) {
        let i = first_index(s, k).unwrap();
        assert(s[i - 1] == x);
    }
}

proof fn lemma_up_next_in(s: Seq<Node>, c: usize)
    requires
        arena_ok(s),
    ensures
        up_next(s, c) matches Some(x) ==> x < s.len(),
    decreases c,
{
    if c < s.len() {
        if let Some(p) = s[c as int].parent {
            if p < c {
                lemma_next_sibling_in(s[p as int].children(), c);
                lemma_up_next_in(s, p);
            }
        }
    }
}

proof fn lemma_last_descendant_in(s: Seq<Node>, c: usize)
    requires
        arena_ok(s),
        c < s.len(),
    ensures
        last_descendant(s, c) < s.len(),
    decreases s.len() - c,
{
    if s[c as int].is_expanded() {
        if let Some(l) = last_of(s[c as int].children()) {
            if c < l {
                assert(s[c as int].children()[s[c as int].children().len() - 1] == l);
                lemma_last_descendant_in(s, l);
            }
        }
    }
}

impl Tree {
    /// The arena is consistent and the root and cursor are live handles.
    pub open spec fn wf(&self) -> bool {
        &&& arena_ok(self.nodes_spec())
        &&& links_ok(self.nodes_spec())
        &&& rooted(self.nodes_spec())
        &&& 0 < self.nodes_spec().len()
        &&& self.root_spec() == 0
        &&& self.current_spec() < self.nodes_spec().len()
    }

    pub closed spec fn nodes_spec(&self) -> Seq<Node> {
        self.nodes@
    }

    pub closed spec fn current_spec(&self) -> usize {
        self.current_node
    }

    pub closed spec fn root_spec(&self) -> usize {
        self.root
    }

    /// The handle of the node under the cursor.
    pub fn current(&self) -> (r: usize)
        ensures
            r == self.current_spec(),
    {
        self.current_node
    }

    /// The handle of the root node.
    pub fn root(&self) -> (r: usize)
        ensures
            r == self.root_spec(),
    {
        self.root
    }

    /// The number of nodes in the arena.
    pub fn node_count(&self) -> (r: usize)
        ensures
            r == self.nodes_spec().len(),
    {
        self.nodes.len()
    }

    pub fn key_to_node(&self, key: usize) -> (r: &Node)
        requires
            key < self.nodes_spec().len(),
        ensures
            *r == self.nodes_spec()[key as int],
    {
        &self.nodes[key]
    }

    fn set_highlight(&mut self, key: usize, b: bool)
        requires
            old(self).wf(),
            key < old(self).nodes_spec().len(),
        ensures
            final(self).nodes_spec() == with_highlight(old(self).nodes_spec(), key, b),
            final(self).root_spec() == old(self).root_spec(),
            final(self).current_spec() == old(self).current_spec(),
            final(self).wf(),
    {
        self.nodes[key].highlighted = b;
        proof {
            assert(forall|i: int| 0 <= i < self.nodes@.len() ==> #[trigger] self.nodes@[i].children()
                == old(self).nodes_spec()[i].children() && self.nodes@[i].parent == old(self).nodes_spec()[i].parent);
        }
    }

    /// Walks up from `c` to the first following sibling of `c` or of an ancestor.
    fn next_after_ancestors(&self, c: usize) -> (r: Option<usize>)
        requires
            self.wf(),
            c < self.nodes@.len(),
        ensures
            r == up_next(self.nodes@, c),
    {
        let mut k = c;
        while k < self.nodes.len()
            invariant
                self.wf(),
                k < self.nodes@.len(),
                up_next(self.nodes@, k) == up_next(self.nodes@, c),
            decreases k,
        {
            match self.nodes[k].parent {
                None => {
                    return None;
                },
                Some(p) => {
                    proof {
                        assert(self.nodes@[k as int].parent matches Some(pp) && pp < k);
                        self.nodes@[p as int].children().index_of_first_ensures(k);
                    }
                    let s = match &self.nodes[p].node {
                        NodeType::Terminal(_) => None,
                        NodeType::NonTerminal(v) => v.node.find_next_key(k),
                    };
                    if s.is_some() {
                        return s;
                    }
                    k = p;
                },
            }
        }
        None
    }

    /// The node after the cursor in visible order.
    fn following_key(&self) -> (r: Option<usize>)
        requires
            self.wf(),
        ensures
            r == next_down(self.nodes@, self.current_node),
            r matches Some(k) ==> k < self.nodes@.len(),
    {
        let cur = self.current_node;
        proof {
            lemma_up_next_in(self.nodes@, cur);
        }
        match &self.nodes[cur].node {
            NodeType::NonTerminal(v) => {
                if v.is_visible() && v.node.len() > 0 {
                    Some(v.node.child_at(0))
                } else {
                    self.next_after_ancestors(cur)
                }
            },
            NodeType::Terminal(_) => self.next_after_ancestors(cur),
        }
    }

    /// Moves the cursor to `k`, taking the highlight with it.
    fn move_cursor(&mut self, k: usize)
        requires
            old(self).wf(),
            k < old(self).nodes@.len(),
        ensures
            final(self).wf(),
            final(self).current_node == k,
            final(self).nodes@ == moved(old(self).nodes@, old(self).current_node, k),
            final(self).root == old(self).root,
    {
        let cur = self.current_node;
        self.set_highlight(cur, false);
        self.current_node = k;
        self.set_highlight(k, true);
    }

    pub fn next_node_down(&mut self) -> (r: Option<usize>)
        requires
            old(self).wf(),
        ensures
            final(self).wf(),
            r == next_down(old(self).nodes_spec(), old(self).current_spec()),
            final(self).current_spec() == (match r {
                Some(k) => k,
                None => old(self).current_spec(),
            }),
            final(self).nodes_spec() == moved(
                old(self).nodes_spec(),
                old(self).current_spec(),
                final(self).current_spec(),
            ),
            final(self).root_spec() == old(self).root_spec(),
            only_highlighted(old(self).nodes_spec(), old(self).current_spec()) ==> only_highlighted(
                final(self).nodes_spec(),
                final(self).current_spec(),
            ),
    {
        let ghost s0 = self.nodes@;
        let ghost c0 = self.current_node;
        let next_key = self.following_key();
        match next_key {
            Some(k) => self.move_cursor(k),
            None => {
                let cur = self.current_node;
                self.move_cursor(cur);
            },
        }
        proof {
            if only_highlighted(s0, c0) {
                lemma_move_keeps_single_highlight(s0, c0, self.current_node);
            }
        }
        next_key
    }

    /// Descends from `c` through last children while the node is expanded.
    fn descend_last(&self, c: usize) -> (r: usize)
        requires
            self.wf(),
            c < self.nodes@.len(),
        ensures
            r == last_descendant(self.nodes@, c),
    {
        let mut k = c;
        while k < self.nodes.len()
            invariant
                self.wf(),
                k < self.nodes@.len(),
                last_descendant(self.nodes@, k) == last_descendant(self.nodes@, c),
            decreases self.nodes@.len() - k,
        {
            let l = match &self.nodes[k].node {
                NodeType::Terminal(_) => {
                    return k;
                },
                NodeType::NonTerminal(v) => {
                    if !v.is_visible() {
                        return k;
                    }
                    v.find_last()
                },
            };
            match l {
                None => {
                    return k;
                },
                Some(l) => {
                    proof {
                        let ch = self.nodes@[k as int].children();
                        assert(ch[ch.len() - 1] == l);
                    }
                    k = l;
                },
            }
        }
        k
    }

    /// The node before the cursor in visible order.
    fn preceding_key(&self) -> (r: Option<usize>)
        requires
            self.wf(),
        ensures
            r == prev_up(self.nodes@, self.current_node),
            r matches Some(k) ==> k < self.nodes@.len(),
    {
        let cur = self.current_node;
        match self.nodes[cur].parent {
            None => None,
            Some(p) => {
                let n = &self.nodes[p];
                proof {
                    assert(self.nodes@[cur as int].parent matches Some(pp) && pp < cur);
                    self.nodes@[p as int].children().index_of_first_ensures(cur);
                }
                if !n.is_visible() {
                    Some(p)
                } else {
                    let prev = match &n.node {
                        NodeType::Terminal(_) => None,
                        NodeType::NonTerminal(v) => v.node.find_previous_key(cur),
                    };
                    match prev {
                        Some(q) => {
                            proof {
                                lemma_next_sibling_in(self.nodes@[p as int].children(), cur);
                                lemma_last_descendant_in(self.nodes@, q);
                            }
                            Some(self.descend_last(q))
                        },
                        None => Some(p),
                    }
                }
            },
        }
    }

    pub fn next_node_up(&mut self) -> (r: Option<usize>)
        requires
            old(self).wf(),
        ensures
            final(self).wf(),
            r == prev_up(old(self).nodes_spec(), old(self).current_spec()),
            final(self).current_spec() == (match r {
                Some(k) => k,
                None => old(self).current_spec(),
            }),
            final(self).nodes_spec() == moved(
                old(self).nodes_spec(),
                old(self).current_spec(),
                final(self).current_spec(),
            ),
            final(self).root_spec() == old(self).root_spec(),
            only_highlighted(old(self).nodes_spec(), old(self).current_spec()) ==> only_highlighted(
                final(self).nodes_spec(),
                final(self).current_spec(),
            ),
    {
        let ghost s0 = self.nodes@;
        let ghost c0 = self.current_node;
        let next_key = self.preceding_key();
        match next_key {
            Some(k) => self.move_cursor(k),
            None => {
                let cur = self.current_node;
                self.move_cursor(cur);
            },
        }
        proof {
            if only_highlighted(s0, c0) {
                lemma_move_keeps_single_highlight(s0, c0, self.current_node);
            }
        }
        next_key
    }

    pub fn toggle_current_node_visibility(&mut self)
        requires
            old(self).wf(),
        ensures
            final(self).wf(),
            final(self).current_spec() == old(self).current_spec(),
            final(self).root_spec() == old(self).root_spec(),
            final(self).nodes_spec() == toggled(old(self).nodes_spec(), old(self).current_spec()),
    {
        let cur = self.current_node;
        match &mut self.nodes[cur].node {
            NodeType::Terminal(_) => (),
            NodeType::NonTerminal(v) => {
                v.toggle_visibility();
            },
        }
        proof {
            assert(forall|i: int| 0 <= i < self.nodes@.len() ==> #[trigger] self.nodes@[i].children()
                == old(self).nodes_spec()[i].children() && self.nodes@[i].parent == old(self).nodes_spec()[i].parent);
        }
    }

    pub fn highlight_current_node(&mut self)
        requires
            old(self).wf(),
        ensures
            final(self).wf(),
            final(self).current_spec() == old(self).current_spec(),
            final(self).root_spec() == old(self).root_spec(),
            final(self).nodes_spec() == with_highlight(old(self).nodes_spec(), old(self).current_spec(), true),
    {
        let cur = self.current_node;
        self.set_highlight(cur, true);
    }

    pub fn toggle_current_node_highlight(&mut self)
        requires
            old(self).wf(),
        ensures
            final(self).wf(),
            final(self).current_spec() == old(self).current_spec(),
            final(self).root_spec() == old(self).root_spec(),
            final(self).nodes_spec() == with_highlight(
                old(self).nodes_spec(),
                old(self).current_spec(),
                !old(self).nodes_spec()[old(self).current_spec() as int].highlighted,
            ),
    {
        let cur = self.current_node;
        let h = self.nodes[cur].highlighted;
        self.set_highlight(cur, !h);
    }
}

/// `s` with the expanded state of composite node `i` flipped (terminals unchanged).
pub open spec fn toggled(s: Seq<Node>, i: usize) -> Seq<Node> {
    match s[i as int].node {
        NodeType::Terminal(_) => s,
        NodeType::NonTerminal(v) => s.update(
            i as int,
            Node {
                node: NodeType::NonTerminal(HidableValue { visible: !v.visible, ..v }),
                ..s[i as int]
            },
        ),
    }
}

/// Node `i` of `s` has the shape and contents of `v`, with every composite expanded.
pub open spec fn models(s: Seq<Node>, i: int, v: JsonValue) -> bool
    decreases v,
{
    &&& 0 <= i < s.len()
    &&& match v {
        JsonValue::Array(items) => match s[i].node {
            NodeType::NonTerminal(h) => {
                &&& h.visible
                &&& h.node is Array
                &&& h.node.children().len() == items.len()
                &&& forall|j: int|
                    0 <= j < items.len() ==> models(s, #[trigger] h.node.children()[j] as int, items[j])
            },
            _ => false,
        },
        JsonValue::Object(entries) => match s[i].node {
            NodeType::NonTerminal(h) => match h.node {
                NonTerminalNode::Object(o) => {
                    &&& h.visible
                    &&& o.len() == entries.len()
                    &&& forall|j: int|
                        0 <= j < entries.len() ==> (#[trigger] o[j]).0@ == entries[j].0@ && models(
                            s,
                            o[j].1 as int,
                            entries[j].1,
                        )
                },
                _ => false,
            },
            _ => false,
        },
        _ => match s[i].node {
            NodeType::Terminal(t) => scalar_matches(t, v),
            _ => false,
        },
    }
}

/// The scalar `t` holds the same value as the scalar document `v`.
pub open spec fn scalar_matches(t: Scalar, v: JsonValue) -> bool {
    match (t, v) {
        (Scalar::Null, JsonValue::Null) => true,
        (Scalar::Bool(a), JsonValue::Bool(b)) => a == b,
        (Scalar::Number(a), JsonValue::Number(b)) => a@ == b@,
        (Scalar::Str(a), JsonValue::Str(b)) => a@ == b@,
        _ => false,
    }
}

/// `models` only reads nodes from `i` on, so it survives changes below `i` and growth.
proof fn lemma_models_frame(s: Seq<Node>, t: Seq<Node>, i: int, v: JsonValue)
    requires
        arena_ok(s),
        models(s, i, v),
        s.len() <= t.len(),
        forall|j: int| i <= j < s.len() ==> (#[trigger] t[j]).node == s[j].node,
    ensures
        models(t, i, v),
    decreases v,
{
    assert(s[i].node == t[i].node);
    match v {
        JsonValue::Array(items) => {
            let ch = s[i].children();
            assert forall|j: int| 0 <= j < items.len() implies models(t, #[trigger] ch[j] as int, items[j]) by {
                assert(i < ch[j]);
                assert(models(s, ch[j] as int, items[j]));
                lemma_models_frame(s, t, ch[j] as int, items[j]);
            }
        },
        JsonValue::Object(entries) => {
            if let NodeType::NonTerminal(h) = s[i].node {
                if let NonTerminalNode::Object(o) = h.node {
                    let ch = s[i].children();
                    assert forall|j: int| 0 <= j < entries.len() implies (#[trigger] o[j]).0@ == entries[j].0@ && models(t, o[j].1 as int, entries[j].1) by {
                        assert(ch[j] == o[j].1);
                        assert(i < ch[j]);
                        assert(models(s, o[j].1 as int, entries[j].1));
                        lemma_models_frame(s, t, o[j].1 as int, entries[j].1);
                    }
                }
            }
        },
        _ => {},
    }
}

/// Allocates a node for `value` and, depth first, for each of its descendants,
/// with `parent` as the new node's parent; returns the new node's handle.
///
/// `open` holds the composites whose child lists are still being built: the
/// new node's ancestors.
pub fn value_to_key(
    value: &JsonValue,
    nodes: &mut Vec<Node>,
    parent: Option<usize>,
    Ghost(open): Ghost<Set<usize>>,
) -> (r: usize)
    requires
        arena_ok(old(nodes)@),
        links_pending(old(nodes)@, open),
        parent matches Some(p) ==> p < old(nodes)@.len() && open.contains(p),
    ensures
        r == old(nodes)@.len(),
        r < final(nodes)@.len(),
        final(nodes)@.len() == old(nodes)@.len() + size(*value),
        arena_ok(final(nodes)@),
        final(nodes)@.subrange(0, r as int) == old(nodes)@,
        final(nodes)@[r as int].parent == parent,
        forall|m: int| r <= m < final(nodes)@.len() ==> !(#[trigger] final(nodes)@[m]).highlighted,
        models(final(nodes)@, r as int, *value),
        links_pending(final(nodes)@, open),
        forall|m: int|
            r < m < final(nodes)@.len() ==> ((#[trigger] final(nodes)@[m].parent) matches Some(q) && r
                <= q),
    decreases value,
{
    let r = nodes.len();
    match value {
        JsonValue::Array(items) => {
            nodes.push(
                Node {
                    parent,
                    highlighted: false,
                    node: NodeType::NonTerminal(
                        HidableValue { visible: true, node: NonTerminalNode::Array(Vec::new()) },
                    ),
                },
            );
            let mut keys: Vec<usize> = Vec::new();
            let ghost mut ks: Seq<usize> = Seq::empty();
            let mut j: usize = 0;
            while j < items.len()
                invariant
                    r < nodes@.len(),
                    arena_ok(nodes@),
                    nodes@.subrange(0, r as int) == old(nodes)@,
                    nodes@[r as int].parent == parent,
                    forall|m: int| r <= m < nodes@.len() ==> !(#[trigger] nodes@[m]).highlighted,
                    nodes@[r as int].children().len() == 0,
                    nodes@[r as int].node is NonTerminal,
                    j <= items.len(),
                    *value == JsonValue::Array(*items),
                    keys@.len() == j,
                    keys@ == ks,
                    nodes@.len() == r + 1 + items_size(items@, j as int),
                    links_pending(nodes@, open.insert(r)),
                    ks.len() == j,
                    forall|a: int, b: int| 0 <= a < b < j ==> ks[a] < ks[b],
                    forall|a: int| 0 <= a < j ==> r < #[trigger] ks[a] < nodes@.len() && nodes@[ks[a] as int].parent == Some(r),
                    forall|m: int|
                        r < m < nodes@.len() ==> ((#[trigger] nodes@[m].parent) matches Some(q) && r <= q
                            && (q == r ==> ks.contains(m as usize))),

                    forall|m: int| 0 <= m < j ==> r < #[trigger] keys@[m] < nodes@.len(),
                    forall|m: int| 0 <= m < j ==> models(nodes@, #[trigger] keys@[m] as int, items@[m]),
                decreases items.len() - j,
            {
                let ghost before = nodes@;
                proof {
                    assert(decreases_to!(*value => value->Array_0));
                    assert(decreases_to!(*items => items@));
                    assert(decreases_to!(items@ => items@[j as int]));
                }
                let k = value_to_key(&items[j], nodes, Some(r), Ghost(open.insert(r)));
                proof {
                    assert forall|m: int| 0 <= m < j implies models(nodes@, #[trigger] keys@[m] as int, items@[m]) by {
                        lemma_models_frame(before, nodes@, keys@[m] as int, items@[m]);
                    }
                    assert(nodes@[r as int] == before[r as int]);
                    assert forall|m: int| 0 <= m < before.len() implies nodes@[m] == before[m] by {
                        assert(nodes@.subrange(0, before.len() as int)[m] == before[m]);
                    }
                    assert forall|m: int| r <= m < nodes@.len() implies !(#[trigger] nodes@[m]).highlighted by {
                        if m < before.len() {
                            assert(nodes@[m] == before[m]);
                        }
                    }
                    assert forall|a: int| 0 <= a < j implies r < #[trigger] ks[a] < nodes@.len() && nodes@[ks[a] as int].parent == Some(r) by {
                        assert(nodes@[ks[a] as int] == before[ks[a] as int]);
                    }
                    assert forall|m: int| r < m < nodes@.len() implies ((#[trigger] nodes@[m].parent) matches Some(q) && r <= q && (q == r ==> ks.push(k).contains(m as usize))) by {
                        if m < before.len() {
                            assert(nodes@[m] == before[m]);
                            if nodes@[m].parent == Some(r) {
                                let a = choose|a: int| 0 <= a < ks.len() && ks[a] == m;
                                assert(ks.push(k)[a] == m);
                            }
                        } else if m == k {
                            assert(ks.push(k)[j as int] == m);
                        }
                    }
                }
                keys.push(k);
                proof {
                    ks = ks.push(k);
                }
                j = j + 1;
            }
            let ghost before = nodes@;
            nodes[r].node = NodeType::NonTerminal(
                HidableValue { visible: true, node: NonTerminalNode::Array(keys) },
            );
            proof {
                assert(nodes@[r as int].children() == keys@);
                assert forall|m: int| 0 <= m < items.len() implies models(nodes@, #[trigger] keys@[m] as int, items@[m]) by {
                    lemma_models_frame(before, nodes@, keys@[m] as int, items@[m]);
                }
                assert(nodes@.subrange(0, r as int) =~= old(nodes)@);
                assert forall|m: int| 0 <= m < nodes@.len() && m != r implies nodes@[m] == before[m] by {}
                assert(ks.no_duplicates()) by {
                    assert forall|a: int, b: int| 0 <= a < ks.len() && 0 <= b < ks.len() && a != b implies ks[a] != ks[b] by {
                        if a < b {
                            assert(ks[a] < ks[b]);
                        } else {
                            assert(ks[b] < ks[a]);
                        }
                    }
                }
                assert forall|i: int, k: int| 0 <= i < nodes@.len() && 0 <= k < nodes@[i].children().len() implies nodes@[#[trigger] nodes@[i].children()[k] as int].parent == Some(i as usize) by {
                    if i != r {
                        assert(nodes@[i] == before[i]);
                        let c = before[i].children()[k] as int;
                        assert(nodes@[c].parent == before[c].parent);
                    } else {
                        assert(nodes@[ks[k] as int] == before[ks[k] as int]);
                    }
                }
                assert forall|i: int| 0 <= i < nodes@.len() implies (#[trigger] nodes@[i].children()).no_duplicates() by {
                    if i != r {
                        assert(nodes@[i] == before[i]);
                    }
                }
                assert forall|i: int| 0 <= i < nodes@.len() implies (#[trigger] nodes@[i].parent matches Some(p) ==> open.contains(p) || nodes@[p as int].children().contains(i as usize)) by {
                    if let Some(p) = nodes@[i].parent {
                        if i != r {
                            assert(nodes@[i] == before[i]);
                        }
                        if p != r {
                            assert(nodes@[p as int] == before[p as int]);
                        }
                    }
                }
            }
            r
        },
        JsonValue::Object(entries) => {
            nodes.push(
                Node {
                    parent,
                    highlighted: false,
                    node: NodeType::NonTerminal(
                        HidableValue { visible: true, node: NonTerminalNode::Object(Vec::new()) },
                    ),
                },
            );
            let mut keys: Vec<(String, usize)> = Vec::new();
            let ghost mut ks: Seq<usize> = Seq::empty();
            let mut j: usize = 0;
            while j < entries.len()
                invariant
                    r < nodes@.len(),
                    arena_ok(nodes@),
                    nodes@.subrange(0, r as int) == old(nodes)@,
                    nodes@[r as int].parent == parent,
                    forall|m: int| r <= m < nodes@.len() ==> !(#[trigger] nodes@[m]).highlighted,
                    nodes@[r as int].children().len() == 0,
                    nodes@[r as int].node is NonTerminal,
                    j <= entries.len(),
                    *value == JsonValue::Object(*entries),
                    keys@.len() == j,
                    keys@.map_values(|e: (String, usize)| e.1) == ks,
                    nodes@.len() == r + 1 + entries_size(entries@, j as int),
                    links_pending(nodes@, open.insert(r)),
                    ks.len() == j,
                    forall|a: int, b: int| 0 <= a < b < j ==> ks[a] < ks[b],
                    forall|a: int| 0 <= a < j ==> r < #[trigger] ks[a] < nodes@.len() && nodes@[ks[a] as int].parent == Some(r),
                    forall|m: int|
                        r < m < nodes@.len() ==> ((#[trigger] nodes@[m].parent) matches Some(q) && r <= q
                            && (q == r ==> ks.contains(m as usize))),

                    forall|m: int| 0 <= m < j ==> r < (#[trigger] keys@[m]).1 < nodes@.len(),
                    forall|m: int|
                        0 <= m < j ==> (#[trigger] keys@[m]).0@ == entries@[m].0@ && models(
                            nodes@,
                            keys@[m].1 as int,
                            entries@[m].1,
                        ),
                decreases entries.len() - j,
            {
                let ghost before = nodes@;
                proof {
                    assert(decreases_to!(*value => value->Object_0));
                    assert(decreases_to!(*entries => entries@));
                    assert(decreases_to!(entries@ => entries@[j as int]));
                    assert(decreases_to!(entries@[j as int] => entries@[j as int].1));
                }
                let k = value_to_key(&entries[j].1, nodes, Some(r), Ghost(open.insert(r)));
                proof {
                    assert forall|m: int| 0 <= m < j implies (#[trigger] keys@[m]).0@ == entries@[m].0@ && models(nodes@, keys@[m].1 as int, entries@[m].1) by {
                        lemma_models_frame(before, nodes@, keys@[m].1 as int, entries@[m].1);
                    }
                    assert(nodes@[r as int] == before[r as int]);
                    assert forall|m: int| 0 <= m < before.len() implies nodes@[m] == before[m] by {
                        assert(nodes@.subrange(0, before.len() as int)[m] == before[m]);
                    }
                    assert forall|m: int| r <= m < nodes@.len() implies !(#[trigger] nodes@[m]).highlighted by {
                        if m < before.len() {
                            assert(nodes@[m] == before[m]);
                        }
                    }
                    assert forall|a: int| 0 <= a < j implies r < #[trigger] ks[a] < nodes@.len() && nodes@[ks[a] as int].parent == Some(r) by {
                        assert(nodes@[ks[a] as int] == before[ks[a] as int]);
                    }
                    assert forall|m: int| r < m < nodes@.len() implies ((#[trigger] nodes@[m].parent) matches Some(q) && r <= q && (q == r ==> ks.push(k).contains(m as usize))) by {
                        if m < before.len() {
                            assert(nodes@[m] == before[m]);
                            if nodes@[m].parent == Some(r) {
                                let a = choose|a: int| 0 <= a < ks.len() && ks[a] == m;
                                assert(ks.push(k)[a] == m);
                            }
                        } else if m == k {
                            assert(ks.push(k)[j as int] == m);
                        }
                    }
                }
                let ghost kv = keys@;
                keys.push((entries[j].0.clone(), k));
                proof {
                    assert(keys@.map_values(|e: (String, usize)| e.1) =~= kv.map_values(|e: (String, usize)| e.1).push(k));
                    ks = ks.push(k);
                }
                j = j + 1;
            }
            let ghost before = nodes@;
            let ghost kv = keys@;
            nodes[r].node = NodeType::NonTerminal(
                HidableValue { visible: true, node: NonTerminalNode::Object(keys) },
            );
            proof {
                assert(nodes@[r as int].children() =~= ks);
                assert forall|m: int| 0 <= m < entries.len() implies (#[trigger] kv[m]).0@ == entries@[m].0@ && models(nodes@, kv[m].1 as int, entries@[m].1) by {
                    lemma_models_frame(before, nodes@, kv[m].1 as int, entries@[m].1);
                }
                assert(nodes@.subrange(0, r as int) =~= old(nodes)@);
                assert forall|m: int| 0 <= m < nodes@.len() && m != r implies nodes@[m] == before[m] by {}
                assert(ks.no_duplicates()) by {
                    assert forall|a: int, b: int| 0 <= a < ks.len() && 0 <= b < ks.len() && a != b implies ks[a] != ks[b] by {
                        if a < b {
                            assert(ks[a] < ks[b]);
                        } else {
                            assert(ks[b] < ks[a]);
                        }
                    }
                }
                assert forall|i: int, k: int| 0 <= i < nodes@.len() && 0 <= k < nodes@[i].children().len() implies nodes@[#[trigger] nodes@[i].children()[k] as int].parent == Some(i as usize) by {
                    if i != r {
                        assert(nodes@[i] == before[i]);
                        let c = before[i].children()[k] as int;
                        assert(nodes@[c].parent == before[c].parent);
                    } else {
                        assert(nodes@[ks[k] as int] == before[ks[k] as int]);
                    }
                }
                assert forall|i: int| 0 <= i < nodes@.len() implies (#[trigger] nodes@[i].children()).no_duplicates() by {
                    if i != r {
                        assert(nodes@[i] == before[i]);
                    }
                }
                assert forall|i: int| 0 <= i < nodes@.len() implies (#[trigger] nodes@[i].parent matches Some(p) ==> open.contains(p) || nodes@[p as int].children().contains(i as usize)) by {
                    if let Some(p) = nodes@[i].parent {
                        if i != r {
                            assert(nodes@[i] == before[i]);
                        }
                        if p != r {
                            assert(nodes@[p as int] == before[p as int]);
                        }
                    }
                }
            }
            r
        },
        _ => {
            let t = match value {
                JsonValue::Null => Scalar::Null,
                JsonValue::Bool(b) => Scalar::Bool(*b),
                JsonValue::Number(n) => Scalar::Number(n.clone()),
                JsonValue::Str(s) => Scalar::Str(s.clone()),
                _ => Scalar::Null,
            };
            nodes.push(Node { parent, highlighted: false, node: NodeType::Terminal(t) });
            proof {
                assert(nodes@.subrange(0, r as int) =~= old(nodes)@);
                assert forall|m: int| 0 <= m < r implies nodes@[m] == old(nodes)@[m] by {}
                assert forall|i: int| 0 <= i < nodes@.len() implies (#[trigger] nodes@[i].parent matches Some(p) ==> open.contains(p) || nodes@[p as int].children().contains(i as usize)) by {
                    if i < r {
                        assert(nodes@[i] == old(nodes)@[i]);
                        if let Some(p) = nodes@[i].parent {
                            assert(nodes@[p as int] == old(nodes)@[p as int]);
                        }
                    }
                }
            }
            r
        },
    }
}

impl Tree {
    /// Builds the tree of `v`: one node per value, the cursor on the highlighted root.
    pub fn from_value(v: &JsonValue) -> (r: Tree)
        ensures
            r.wf(),
            r.current_spec() == r.root_spec(),
            models(r.nodes_spec(), r.root_spec() as int, *v),
            r.nodes_spec().len() == size(*v),
            only_highlighted(r.nodes_spec(), r.current_spec()),
    {
        let mut nodes: Vec<Node> = Vec::new();
        let root_key = value_to_key(v, &mut nodes, None, Ghost(Set::empty()));
        let mut ret = Tree { root: root_key, nodes, current_node: root_key };
        let ghost before = ret.nodes@;
        ret.highlight_current_node();
        proof {
            lemma_models_frame(before, ret.nodes@, 0, *v);
        }
        ret
    }
}

impl Tree {
    /// The styled lines of the whole document.
    pub fn to_text(&self) -> (r: Vec<Line>)
        requires
            self.wf(),
        ensures
            text_view(r@) == render(self.nodes_spec(), self.root_spec() as int, 0),
    {
        let count = self.nodes.len();
        assert(0 + count - self.root <= usize::MAX);
        render_node(&self.nodes, self.root, 0)
    }

    /// The number of lines of the rendered document, or `None` when that
    /// exceeds `usize`.
    pub fn line_count(&self) -> (r: Option<usize>)
        requires
            self.wf(),
        ensures
            r == (if lines(self.nodes_spec(), self.root_spec() as int) <= usize::MAX {
                Some(lines(self.nodes_spec(), self.root_spec() as int) as usize)
            } else {
                None
            }),
    {
        count_lines(&self.nodes, self.root)
    }

    /// The zero-based line of the cursor's node; where the cursor sits inside
    /// a collapsed subtree, the number of lines.
    pub fn find_current_line(&self) -> (r: usize)
        requires
            self.wf(),
            lines(self.nodes_spec(), self.root_spec() as int) <= usize::MAX,
        ensures
            r == current_line(self.nodes_spec(), self.root_spec(), self.current_spec()),
    {
        let mut line_counter: usize = 0;
        match find_line_recursive(&self.nodes, &mut line_counter, self.root, self.current_node) {
            None => line_counter,
            Some(n) => n,
        }
    }
}

/// The line of node `c` when the document rooted at `root` is rendered.
pub open spec fn current_line(s: Seq<Node>, root: usize, c: usize) -> nat {
    match find_line(s, root as int, c as int, 0) {
        Some(l) => l,
        None => lines(s, root as int),
    }
}

/// When exactly the cursor's node is highlighted, a cursor move that takes
/// the highlight along leaves exactly the new cursor's node highlighted.
pub proof fn lemma_move_keeps_single_highlight(s: Seq<Node>, from: usize, to: usize)
    requires
        from < s.len(),
        to < s.len(),
        only_highlighted(s, from),
    ensures
        only_highlighted(moved(s, from, to), to),
{
    let t = moved(s, from, to);
    assert forall|i: int| 0 <= i < t.len() implies (#[trigger] t[i].highlighted <==> i == to) by {
        if i != to && i != from {
            assert(t[i] == s[i]);
        }
    }
}

/// Collapsing an expanded composite leaves it exactly one display line.
pub proof fn lemma_collapsed_takes_one_line(s: Seq<Node>, x: usize)
    requires
        x < s.len(),
        s[x as int].is_expanded(),
    ensures
        lines(toggled(s, x), x as int) == 1,
        render(toggled(s, x), x as int, 0).len() == 1,
{
}

} // verus!
