use vstd::prelude::*;

verus! {

/// A leaf value of the document.
pub enum Scalar {
    Null,
    Bool(bool),
    /// A number, held in its canonical textual form.
    Number(String),
    Str(String),
}

/// The shape of a composite node: its child handles, in document order.
pub enum NonTerminalNode {
    Array(Vec<usize>),
    Object(Vec<(String, usize)>),
}

/// A composite node together with its expanded / collapsed state.
pub struct HidableValue {
    pub visible: bool,
    pub node: NonTerminalNode,
}

pub enum NodeType {
    Terminal(Scalar),
    NonTerminal(HidableValue),
}

/// One entry of the arena.
pub struct Node {
    pub parent: Option<usize>,
    pub highlighted: bool,
    pub node: NodeType,
}

impl NonTerminalNode {
    /// The child handles, in order (for an object, the handles of its values).
    pub open spec fn children(&self) -> Seq<usize> {
        match self {
            NonTerminalNode::Array(a) => a@,
            NonTerminalNode::Object(o) => o@.map_values(|e: (String, usize)| e.1),
        }
    }

    pub fn find_last(&self) -> (r: Option<usize>)
        ensures
            r == last_of(self.children()),
    {
        match self {
            NonTerminalNode::Array(arr) => {
                if arr.len() == 0 {
                    None
                } else {
                    Some(arr[arr.len() - 1])
                }
            },
            NonTerminalNode::Object(obj) => {
                if obj.len() == 0 {
                    None
                } else {
                    Some(obj[obj.len() - 1].1)
                }
            },
        }
    }

    /// The handle of the `i`-th child.
    pub fn child_at(&self, i: usize) -> (r: usize)
        requires
            i < self.children().len(),
        ensures
            r == self.children()[i as int],
    {
        match self {
            NonTerminalNode::Array(arr) => arr[i],
            NonTerminalNode::Object(obj) => obj[i].1,
        }
    }

    pub fn len(&self) -> (r: usize)
        ensures
            r == self.children().len(),
    {
        match self {
            NonTerminalNode::Array(arr) => arr.len(),
            NonTerminalNode::Object(obj) => obj.len(),
        }
    }

    /// Position of the first occurrence of `key` among the children.
    fn position(&self, key: usize) -> (r: Option<usize>)
        ensures
            r matches Some(i) ==> first_index(self.children(), key) == Some(i as int),
            r is None ==> first_index(self.children(), key) is None,
            r matches Some(i) ==> i < self.children().len(),
    {
        let n = self.len();
        let mut i: usize = 0;
        while i < n
            invariant
                n == self.children().len(),
                i <= n,
                forall|j: int| 0 <= j < i ==> self.children()[j] != key,
            decreases n - i,
        {
            if self.child_at(i) == key {
                proof {
                    lemma_first_index_at(self.children(), key, i as int);
                }
                return Some(i);
            }
            i = i + 1;
        }
        proof {
            lemma_first_index_none(self.children(), key);
        }
        None
    }

    pub fn find_next_key(&self, key: usize) -> (r: Option<usize>)
        ensures
            r == next_sibling(self.children(), key),
    {
        match self.position(key) {
            Some(i) => {
                if i < self.len() - 1 {
                    Some(self.child_at(i + 1))
                } else {
                    None
                }
            },
            None => None,
        }
    }

    pub fn find_previous_key(&self, key: usize) -> (r: Option<usize>)
        ensures
            r == previous_sibling(self.children(), key),
    {
        match self.position(key) {
            Some(i) => {
                if i > 0 {
                    Some(self.child_at(i - 1))
                } else {
                    None
                }
            },
            None => None,
        }
    }
}

/// The last element of `s`, if any.
pub open spec fn last_of(s: Seq<usize>) -> Option<usize> {
    if s.len() > 0 {
        Some(s.last())
    } else {
        None
    }
}

/// The first element of `s`, if any.
pub open spec fn first_of(s: Seq<usize>) -> Option<usize> {
    if s.len() > 0 {
        Some(s[0])
    } else {
        None
    }
}

/// The index of the first occurrence of `k` in `s`.
pub open spec fn first_index(s: Seq<usize>, k: usize) -> Option<int> {
    s.index_of_first(k)
}

/// The index found for `k`, if any, holds `k`.
pub proof fn lemma_first_index_ok(s: Seq<usize>, k: usize)
    ensures
        first_index(s, k) matches Some(i) ==> 0 <= i < s.len() && s[i] == k,
{
    s.index_of_first_ensures(k);
}

/// The element right after the first occurrence of `k` in `s`.
pub open spec fn next_sibling(s: Seq<usize>, k: usize) -> Option<usize> {
    match first_index(s, k) {
        Some(i) => if i + 1 < s.len() {
            Some(s[i + 1])
        } else {
            None
        },
        None => None,
    }
}

/// The element right before the first occurrence of `k` in `s`.
pub open spec fn previous_sibling(s: Seq<usize>, k: usize) -> Option<usize> {
    match first_index(s, k) {
        Some(i) => if i > 0 {
            Some(s[i - 1])
        } else {
            None
        },
        None => None,
    }
}

proof fn lemma_first_index_at(s: Seq<usize>, k: usize, i: int)
    requires
        0 <= i < s.len(),
        s[i] == k,
        forall|j: int| 0 <= j < i ==> s[j] != k,
    ensures
        first_index(s, k) == Some(i),
{
    s.index_of_first_ensures(k);
    assert(s.contains(k));
}

proof fn lemma_first_index_none(s: Seq<usize>, k: usize)
    requires
        forall|j: int| 0 <= j < s.len() ==> s[j] != k,
    ensures
        first_index(s, k) is None,
{
    s.index_of_first_ensures(k);
}

/// In a sequence without repeats, the element at `i` is found at `i`.
pub proof fn lemma_first_index_distinct(s: Seq<usize>, i: int)
    requires
        0 <= i < s.len(),
        s.no_duplicates(),
    ensures
        first_index(s, s[i]) == Some(i),
{
    lemma_first_index_at(s, s[i], i);
}

impl HidableValue {
    pub fn is_visible(&self) -> (r: bool)
        ensures
            r == self.visible,
    {
        self.visible
    }

    pub fn toggle_visibility(&mut self)
        ensures
            final(self).visible == !old(self).visible,
            final(self).node == old(self).node,
    {
        self.visible = !self.visible
    }

    pub fn is_array(&self) -> (r: bool)
        ensures
            r == (self.node is Array),
    {
        match self.node {
            NonTerminalNode::Array(_) => true,
            NonTerminalNode::Object(_) => false,
        }
    }

    pub fn find_last(&self) -> (r: Option<usize>)
        ensures
            r == last_of(self.node.children()),
    {
        self.node.find_last()
    }
}

impl Node {
    /// A terminal is always visible; a composite is visible when expanded.
    pub open spec fn visible_spec(&self) -> bool {
        match self.node {
            NodeType::Terminal(_) => true,
            NodeType::NonTerminal(v) => v.visible,
        }
    }

    /// The child handles (empty for a terminal).
    pub open spec fn children(&self) -> Seq<usize> {
        match self.node {
            NodeType::Terminal(_) => Seq::empty(),
            NodeType::NonTerminal(v) => v.node.children(),
        }
    }

    /// Whether traversal enters this node's children.
    pub open spec fn is_expanded(&self) -> bool {
        match self.node {
            NodeType::Terminal(_) => false,
            NodeType::NonTerminal(v) => v.visible,
        }
    }

    pub fn is_visible(&self) -> (r: bool)
        ensures
            r == self.visible_spec(),
    {
        match &self.node {
            NodeType::Terminal(_) => true,
            NodeType::NonTerminal(v) => v.is_visible(),
        }
    }
}

} // verus!
