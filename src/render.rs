use vstd::prelude::*;
use vstd::string::*;

use crate::node::{Node, NodeType, NonTerminalNode, Scalar};
use crate::collapse::lemma_found_within;
use crate::tree::arena_ok;

verus! {

/// A run of text with its highlight state.
pub struct Span {
    pub text: String,
    pub highlighted: bool,
}

/// One display line.
pub struct Line {
    pub spans: Vec<Span>,
}

pub open spec fn span_view(sp: Span) -> (Seq<char>, bool) {
    (sp.text@, sp.highlighted)
}

pub open spec fn line_view(l: Line) -> Seq<(Seq<char>, bool)> {
    l.spans@.map_values(|sp: Span| span_view(sp))
}

pub open spec fn text_view(t: Seq<Line>) -> Seq<Seq<(Seq<char>, bool)>> {
    t.map_values(|l: Line| line_view(l))
}

/// Number of display lines that node `i` occupies.
pub open spec fn lines(s: Seq<Node>, i: int) -> nat
    decreases s.len() - i, 1int, 0int,
{
    if 0 <= i < s.len() && s[i].is_expanded() {
        2 + children_lines(s, i, s[i].children().len() as int)
    } else {
        1
    }
}

/// Number of display lines of the first `k` children of node `i`.
pub open spec fn children_lines(s: Seq<Node>, i: int, k: int) -> nat
    decreases s.len() - i, 0int, k,
{
    if 0 < k <= s[i].children().len() && 0 <= i < s.len() {
        let c = s[i].children()[k - 1] as int;
        children_lines(s, i, k - 1) + if i < c < s.len() {
            lines(s, c)
        } else {
            0
        }
    } else {
        0
    }
}

/// The line of `target` when node `i` starts at line `base`, if `target` is
/// `i` or lies in the expanded part of its subtree.
pub open spec fn find_line(s: Seq<Node>, i: int, target: int, base: nat) -> Option<nat>
    decreases s.len() - i, 1int, 0int,
{
    if !(0 <= i < s.len()) {
        None
    } else if i == target {
        Some(base)
    } else if s[i].is_expanded() {
        find_in_children(s, i, target, base + 1, 0)
    } else {
        None
    }
}

/// The line of `target` among the children of `i` from the `k`-th on, the
/// `k`-th starting at line `base`.
pub open spec fn find_in_children(s: Seq<Node>, i: int, target: int, base: nat, k: int) -> Option<
    nat,
>
    decreases s.len() - i, 0int, s[i].children().len() - k,
{
    if 0 <= i < s.len() && 0 <= k < s[i].children().len() {
        let c = s[i].children()[k] as int;
        if i < c < s.len() {
            match find_line(s, c, target, base) {
                Some(l) => Some(l),
                None => find_in_children(s, i, target, base + lines(s, c), k + 1),
            }
        } else {
            None
        }
    } else {
        None
    }
}

pub proof fn lemma_children_lines_mono(s: Seq<Node>, i: int, k: int)
    requires
        0 <= i < s.len(),
        0 <= k <= s[i].children().len(),
    ensures
        children_lines(s, i, k) <= children_lines(s, i, s[i].children().len() as int),
    decreases s[i].children().len() - k,
{
    if k < s[i].children().len() {
        lemma_children_lines_mono(s, i, k + 1);
    }
}

/// Finds the line of `target` in the subtree of `node`, starting at
/// `*line_counter`; when it is not there, advances the counter past the subtree.
pub fn find_line_recursive(
    nodes: &Vec<Node>,
    line_counter: &mut usize,
    node: usize,
    target: usize,
) -> (r: Option<usize>)
    requires
        arena_ok(nodes@),
        node < nodes@.len(),
        *old(line_counter) + lines(nodes@, node as int) <= usize::MAX,
    ensures
        match r {
            Some(l) => find_line(nodes@, node as int, target as int, *old(line_counter) as nat)
                == Some(l as nat),
            None => {
                &&& find_line(nodes@, node as int, target as int, *old(line_counter) as nat) is None
                &&& *final(line_counter) == *old(line_counter) + lines(nodes@, node as int)
            },
        },
    decreases nodes@.len() - node,
{
    let ghost s = nodes@;
    let ghost start = *line_counter as nat;
    if node == target {
        return Some(*line_counter);
    }
    let v = match &nodes[node].node {
        NodeType::Terminal(_) => {
            *line_counter = *line_counter + 1;
            return None;
        },
        NodeType::NonTerminal(v) => v,
    };
    if !v.visible {
        *line_counter = *line_counter + 1;
        return None;
    }
    let n = v.node.len();
    proof {
        lemma_children_lines_mono(s, node as int, 0);
    }
    *line_counter = *line_counter + 1;
    let mut k: usize = 0;
    while k < n
        invariant
            s == nodes@,
            start == *old(line_counter) as nat,
            arena_ok(s),
            node < s.len(),
            s[node as int].is_expanded(),
            n == s[node as int].children().len(),
            v.node.children() == s[node as int].children(),
            k <= n,
            start + lines(s, node as int) <= usize::MAX,
            lines(s, node as int) == 2 + children_lines(s, node as int, n as int),
            *line_counter == start + 1 + children_lines(s, node as int, k as int),
            find_line(s, node as int, target as int, start) == find_in_children(
                s,
                node as int,
                target as int,
                *line_counter as nat,
                k as int,
            ),
        decreases n - k,
    {
        let c = v.node.child_at(k);
        proof {
            assert(node < c);
            lemma_children_lines_mono(s, node as int, k + 1);
        }
        let ghost before = *line_counter as nat;
        proof {
            assert(c == s[node as int].children()[k as int]);
            assert(c < s.len());
        }
        match find_line_recursive(nodes, line_counter, c, target) {
            Some(l) => {
                assert(find_in_children(s, node as int, target as int, before, k as int) == Some(l as nat));
                return Some(l);
            },
            None => {},
        }
        k = k + 1;
    }
    *line_counter = *line_counter + 1;
    None
}

/// Number of display lines of node `node`, or `None` when that exceeds `usize`.
pub fn count_lines(nodes: &Vec<Node>, node: usize) -> (r: Option<usize>)
    requires
        arena_ok(nodes@),
        node < nodes@.len(),
    ensures
        r == (if lines(nodes@, node as int) <= usize::MAX {
            Some(lines(nodes@, node as int) as usize)
        } else {
            None
        }),
    decreases nodes@.len() - node,
{
    let ghost s = nodes@;
    let v = match &nodes[node].node {
        NodeType::Terminal(_) => {
            return Some(1);
        },
        NodeType::NonTerminal(v) => v,
    };
    if !v.visible {
        return Some(1);
    }
    let n = v.node.len();
    let mut acc: usize = 2;
    let mut k: usize = 0;
    while k < n
        invariant
            s == nodes@,
            arena_ok(s),
            node < s.len(),
            s[node as int].is_expanded(),
            n == s[node as int].children().len(),
            v.node.children() == s[node as int].children(),
            k <= n,
            lines(s, node as int) == 2 + children_lines(s, node as int, n as int),
            acc == 2 + children_lines(s, node as int, k as int),
        decreases n - k,
    {
        let c = v.node.child_at(k);
        proof {
            assert(node < c < s.len());
            lemma_children_lines_mono(s, node as int, k + 1);
        }
        match count_lines(nodes, c) {
            Some(m) => {
                match acc.checked_add(m) {
                    Some(a) => {
                        acc = a;
                    },
                    None => {
                        return None;
                    },
                }
            },
            None => {
                return None;
            },
        }
        k = k + 1;
    }
    Some(acc)
}

/// `level` indentation units of two spaces.
pub open spec fn indent(level: nat) -> Seq<char>
    decreases level,
{
    if level == 0 {
        Seq::empty()
    } else {
        indent((level - 1) as nat) + "  "@
    }
}

/// The text of a scalar: canonical numbers and booleans, quoted strings, `null`.
pub open spec fn scalar_text(t: Scalar) -> Seq<char> {
    match t {
        Scalar::Null => "null"@,
        Scalar::Bool(b) => if b {
            "true"@
        } else {
            "false"@
        },
        Scalar::Number(n) => n@,
        Scalar::Str(x) => "\""@ + x@ + "\""@,
    }
}

/// The prefix of a map entry's first line: the quoted key and a colon.
pub open spec fn key_text(k: Seq<char>) -> Seq<char> {
    "\""@ + k + "\": "@
}

pub open spec fn open_bracket(n: NonTerminalNode) -> Seq<char> {
    if n is Array {
        "["@
    } else {
        "{"@
    }
}

pub open spec fn close_bracket(n: NonTerminalNode) -> Seq<char> {
    if n is Array {
        "]"@
    } else {
        "}"@
    }
}

pub open spec fn collapsed_text(n: NonTerminalNode) -> Seq<char> {
    if n is Array {
        "[...]"@
    } else {
        "{...}"@
    }
}

/// The spans put before the first line of the `j`-th child of `n`.
pub open spec fn entry_prefix(n: Node, j: int, level: nat) -> Seq<(Seq<char>, bool)> {
    match n.node {
        NodeType::NonTerminal(v) => match v.node {
            NonTerminalNode::Object(o) => seq![(indent(level), false), (key_text(o@[j].0@), false)],
            _ => seq![(indent(level), false)],
        },
        _ => seq![(indent(level), false)],
    }
}

/// A child's lines with `prefix` before its first line and, when `comma`
/// holds, a separating comma after its last line.
pub open spec fn entry_lines(
    ls: Seq<Seq<(Seq<char>, bool)>>,
    prefix: Seq<(Seq<char>, bool)>,
    comma: bool,
) -> Seq<Seq<(Seq<char>, bool)>> {
    let first = ls.update(0, prefix + ls[0]);
    if comma {
        first.update(first.len() - 1, first.last().push((","@, false)))
    } else {
        first
    }
}

/// The styled lines of node `i` rendered at nesting depth `level`.
pub open spec fn render(s: Seq<Node>, i: int, level: nat) -> Seq<Seq<(Seq<char>, bool)>>
    decreases s.len() - i, 1int, 0int,
{
    if 0 <= i < s.len() {
        let h = s[i].highlighted;
        match s[i].node {
            NodeType::Terminal(t) => seq![seq![(scalar_text(t), h)]],
            NodeType::NonTerminal(v) => if !v.visible {
                seq![seq![(collapsed_text(v.node), h)]]
            } else {
                seq![seq![(open_bracket(v.node), h)]] + render_children(
                    s,
                    i,
                    level,
                    v.node.children().len() as int,
                ) + seq![seq![(indent(level), h), (close_bracket(v.node), h)]]
            },
        }
    } else {
        seq![Seq::empty()]
    }
}

/// The lines of the first `k` children of node `i`, each indented one level
/// deeper than `level`.
pub open spec fn render_children(s: Seq<Node>, i: int, level: nat, k: int) -> Seq<
    Seq<(Seq<char>, bool)>,
>
    decreases s.len() - i, 0int, k,
{
    if 0 < k <= s[i].children().len() && 0 <= i < s.len() {
        let c = s[i].children()[k - 1] as int;
        render_children(s, i, level, k - 1) + if i < c < s.len() {
            entry_lines(
                render(s, c, level + 1),
                entry_prefix(s[i], k - 1, level + 1),
                k < s[i].children().len(),
            )
        } else {
            Seq::empty()
        }
    } else {
        Seq::empty()
    }
}

fn make_indent(level: usize) -> (r: String)
    ensures
        r@ == indent(level as nat),
{
    let mut t = String::new();
    let mut k: usize = 0;
    while k < level
        invariant
            k <= level,
            t@ == indent(k as nat),
        decreases level - k,
    {
        t.append("  ");
        k = k + 1;
    }
    t
}

fn scalar_string(t: &Scalar) -> (r: String)
    ensures
        r@ == scalar_text(*t),
{
    match t {
        Scalar::Null => String::from_str("null"),
        Scalar::Bool(b) => if *b {
            String::from_str("true")
        } else {
            String::from_str("false")
        },
        Scalar::Number(n) => n.clone(),
        Scalar::Str(x) => {
            let mut r = String::from_str("\"");
            r.append(x.as_str());
            r.append("\"");
            r
        },
    }
}

fn single_line(text: String, highlighted: bool) -> (r: Vec<Line>)
    ensures
        text_view(r@) == seq![seq![(text@, highlighted)]],
        r@.len() == 1,
{
    let mut spans: Vec<Span> = Vec::new();
    spans.push(Span { text, highlighted });
    let mut r: Vec<Line> = Vec::new();
    r.push(Line { spans });
    proof {
        assert(line_view(r@[0]) =~= seq![(text@, highlighted)]);
        assert(text_view(r@) =~= seq![seq![(text@, highlighted)]]);
    }
    r
}

/// Renders node `node` at nesting depth `level`.
pub fn render_node(nodes: &Vec<Node>, node: usize, level: usize) -> (r: Vec<Line>)
    requires
        arena_ok(nodes@),
        node < nodes@.len(),
        level + nodes@.len() - node <= usize::MAX,
    ensures
        text_view(r@) == render(nodes@, node as int, level as nat),
        r@.len() > 0,
    decreases nodes@.len() - node,
{
    let ghost s = nodes@;
    let h = nodes[node].highlighted;
    let v = match &nodes[node].node {
        NodeType::Terminal(t) => {
            return single_line(scalar_string(t), h);
        },
        NodeType::NonTerminal(v) => v,
    };
    let is_array = match &v.node {
        NonTerminalNode::Array(_) => true,
        NonTerminalNode::Object(_) => false,
    };
    if !v.visible {
        let t = if is_array {
            String::from_str("[...]")
        } else {
            String::from_str("{...}")
        };
        return single_line(t, h);
    }
    let mut ret = single_line(
        if is_array {
            String::from_str("[")
        } else {
            String::from_str("{")
        },
        h,
    );
    let n = v.node.len();
    let mut k: usize = 0;
    while k < n
        invariant
            s == nodes@,
            arena_ok(s),
            node < s.len(),
            level + s.len() - node <= usize::MAX,
            s[node as int].node == NodeType::NonTerminal(*v),
            v.visible,
            n == v.node.children().len(),
            k <= n,
            text_view(ret@) == seq![seq![(open_bracket(v.node), h)]] + render_children(
                s,
                node as int,
                level as nat,
                k as int,
            ),
        decreases n - k,
    {
        let c = v.node.child_at(k);
        proof {
            assert(s[node as int].children() == v.node.children());
            assert(c == s[node as int].children()[k as int]);
            assert(node < c < s.len());
        }
        let mut sub = render_node(nodes, c, level + 1);
        let ghost sv = text_view(sub@);
        let mut spans: Vec<Span> = Vec::new();
        spans.push(Span { text: make_indent(level + 1), highlighted: false });
        match &v.node {
            NonTerminalNode::Object(o) => {
                let mut t = String::from_str("\"");
                t.append(o[k].0.as_str());
                t.append("\": ");
                spans.push(Span { text: t, highlighted: false });
            },
            NonTerminalNode::Array(_) => {},
        }
        let ghost pv = spans@.map_values(|sp: Span| span_view(sp));
        proof {
            assert(pv =~= entry_prefix(s[node as int], k as int, (level + 1) as nat));
        }
        let first = sub.remove(0);
        let mut fs = first.spans;
        let ghost fv = fs@;
        spans.append(&mut fs);
        sub.insert(0, Line { spans });
        proof {
            assert(line_view(sub@[0]) =~= pv + line_view(first));
            assert(text_view(sub@) =~= sv.update(0, pv + sv[0]));
        }
        if k < n - 1 {
            let last = sub.pop().unwrap();
            let mut ls = last.spans;
            ls.push(Span { text: String::from_str(","), highlighted: false });
            let ghost before = sub@;
            sub.push(Line { spans: ls });
            proof {
                assert(line_view(sub@.last()) =~= line_view(last).push((","@, false)));
                assert(text_view(sub@) =~= entry_lines(sv, pv, true));
            }
        } else {
            proof {
                assert(text_view(sub@) =~= entry_lines(sv, pv, false));
            }
        }
        let ghost rv = text_view(ret@);
        ret.append(&mut sub);
        proof {
            assert(text_view(ret@) =~= rv + entry_lines(sv, pv, k + 1 < n));
        }
        k = k + 1;
    }
    let mut close: Vec<Span> = Vec::new();
    close.push(Span { text: make_indent(level), highlighted: h });
    close.push(
        Span {
            text: if is_array {
                String::from_str("]")
            } else {
                String::from_str("}")
            },
            highlighted: h,
        },
    );
    let ghost rv = text_view(ret@);
    ret.push(Line { spans: close });
    proof {
        assert(line_view(ret@.last()) =~= seq![(indent(level as nat), h), (close_bracket(v.node), h)]);
        assert(text_view(ret@) =~= rv + seq![seq![(indent(level as nat), h), (close_bracket(v.node), h)]]);
    }
    ret
}

/// The renderer and the line locator count lines alike: rendering node `i`
/// yields exactly `lines(s, i)` lines.
pub proof fn lemma_render_len(s: Seq<Node>, i: int, level: nat)
    requires
        arena_ok(s),
    ensures
        render(s, i, level).len() == lines(s, i),
    decreases s.len() - i, 1int, 0int,
{
    if 0 <= i < s.len() && s[i].is_expanded() {
        lemma_render_children_len(s, i, level, s[i].children().len() as int);
    }
}

proof fn lemma_render_children_len(s: Seq<Node>, i: int, level: nat, k: int)
    requires
        arena_ok(s),
        0 <= i < s.len(),
        0 <= k <= s[i].children().len(),
    ensures
        render_children(s, i, level, k).len() == children_lines(s, i, k),
    decreases s.len() - i, 0int, k,
{
    if k > 0 {
        let c = s[i].children()[k - 1] as int;
        assert(i < c < s.len());
        lemma_render_children_len(s, i, level, k - 1);
        lemma_render_len(s, c, level + 1);
        lemma_render_nonempty(s, c, level + 1);
    }
}

proof fn lemma_render_nonempty(s: Seq<Node>, i: int, level: nat)
    ensures
        render(s, i, level).len() > 0,
{
}

/// The child of `i` in which a search over its children from the `k`-th on
/// finds `tg`, with the line at which that child starts.
proof fn lemma_found_in_child(s: Seq<Node>, i: int, tg: int, b: nat, k: int) -> (m: int)
    requires
        arena_ok(s),
        0 <= i < s.len(),
        0 <= k <= s[i].children().len(),
        find_in_children(s, i, tg, b, k) is Some,
    ensures
        k <= m < s[i].children().len(),
        i < s[i].children()[m] < s.len(),
        children_lines(s, i, k) <= children_lines(s, i, m),
        find_line(
            s,
            s[i].children()[m] as int,
            tg,
            (b + children_lines(s, i, m) - children_lines(s, i, k)) as nat,
        ) == find_in_children(s, i, tg, b, k),
    decreases s[i].children().len() - k,
{
    let c = s[i].children()[k] as int;
    assert(i < c < s.len());
    if find_line(s, c, tg, b) is Some {
        k
    } else {
        assert(children_lines(s, i, k + 1) == children_lines(s, i, k) + lines(s, c));
        lemma_found_in_child(s, i, tg, b + lines(s, c), k + 1)
    }
}

proof fn lemma_render_children_prefix(s: Seq<Node>, i: int, level: nat, k: int, m: int)
    requires
        0 <= i < s.len(),
        0 <= k <= m <= s[i].children().len(),
    ensures
        render_children(s, i, level, k).len() <= render_children(s, i, level, m).len(),
        render_children(s, i, level, m).subrange(0, render_children(s, i, level, k).len() as int)
            == render_children(s, i, level, k),
    decreases m - k,
{
    if k < m {
        lemma_render_children_prefix(s, i, level, k, m - 1);
        let a = render_children(s, i, level, m - 1);
        let r = render_children(s, i, level, m);
        let n = render_children(s, i, level, k).len() as int;
        assert(r == a + r.subrange(a.len() as int, r.len() as int));
        assert(r.subrange(0, n) =~= a.subrange(0, n));
    }
}

/// The line at which the locator finds `tg` shows the first line of `tg`'s
/// own rendering, between the spans that its ancestors add around it.
pub proof fn lemma_found_line_shows_node(s: Seq<Node>, i: int, tg: int, base: nat, level: nat)
    requires
        arena_ok(s),
        find_line(s, i, tg, base) is Some,
    ensures
        base <= find_line(s, i, tg, base)->0 < base + render(s, i, level).len(),
        exists|d: nat, pre: Seq<(Seq<char>, bool)>, post: Seq<(Seq<char>, bool)>|
            render(s, i, level)[find_line(s, i, tg, base)->0 - base] == pre + render(s, tg, d)[0]
                + post,
    decreases s.len() - i,
{
    let l = find_line(s, i, tg, base)->0;
    lemma_found_within(s, i, tg, base);
    lemma_render_len(s, i, level);
    if i == tg {
        let line = render(s, i, level)[0];
        assert(line == Seq::<(Seq<char>, bool)>::empty() + line + Seq::<(Seq<char>, bool)>::empty());
    } else {
        let n = s[i].children().len() as int;
        let m = lemma_found_in_child(s, i, tg, base + 1, 0);
        let c = s[i].children()[m] as int;
        let bm = (base + 1 + children_lines(s, i, m)) as nat;
        assert(find_line(s, c, tg, bm) == Some(l));
        lemma_found_line_shows_node(s, c, tg, bm, level + 1);
        lemma_found_within(s, c, tg, bm);
        let x = render(s, c, level + 1);
        lemma_render_len(s, c, level + 1);
        let j = l - bm;
        assert(0 <= j < x.len());
        let (d, pre, post) = choose|d: nat, pre: Seq<(Seq<char>, bool)>, post: Seq<(Seq<char>, bool)>|
            x[j] == pre + render(s, tg, d)[0] + post;
        let t = render(s, tg, d)[0];
        let p = entry_prefix(s[i], m, level + 1);
        let comma = m + 1 < n;
        let block = entry_lines(x, p, comma);
        let rcm = render_children(s, i, level, m);
        let rc1 = render_children(s, i, level, m + 1);
        let rc = render_children(s, i, level, n);
        lemma_render_children_len(s, i, level, m);
        lemma_render_children_len(s, i, level, m + 1);
        assert(rc1 == rcm + block);
        lemma_render_children_prefix(s, i, level, m + 1, n);
        let idx = children_lines(s, i, m) + j;
        assert(children_lines(s, i, m + 1) == children_lines(s, i, m) + lines(s, c));
        assert(idx < rc1.len());
        assert(rc1[idx] == block[j]);
        assert(rc[idx] == rc.subrange(0, rc1.len() as int)[idx]);
        let op = seq![seq![(open_bracket(s[i].node->NonTerminal_0.node), s[i].highlighted)]];
        let cl = seq![seq![(indent(level), s[i].highlighted), (close_bracket(s[i].node->NonTerminal_0.node), s[i].highlighted)]];
        assert(render(s, i, level) == op + rc + cl);
        assert(l - base == 1 + idx);
        assert((op + rc + cl)[1 + idx] == rc[idx]);
        let pre2 = if j == 0 {
            p + pre
        } else {
            pre
        };
        let post2 = if comma && j == x.len() - 1 {
            post.push((","@, false))
        } else {
            post
        };
        assert(block[j] =~= pre2 + t + post2);
    }
}

} // verus!
