//! The trie engine: a three-state node (`Empty`, `Leaf`, `Node`) with
//! insertion, exact lookup, longest-prefix search, subtree-aware removal with
//! compaction, and a deterministic rendering of the tree shape.

use vstd::prelude::*;

use crate::chars::chars_of;
use crate::chars::push_char;
use crate::content::Content;
use vstd::string::StringExecFns;

verus! {

/// A node with no children, marking the end of an inserted key.
pub struct Leaf<T> {
    pub content: Option<T>,
    pub is_terminal: bool,
}

/// An interior node: it owns one child per distinct next code point, kept in
/// ascending code-point order.
pub struct Node<T> {
    pub content: Option<T>,
    pub children: Vec<(char, TNode<T>)>,
    pub is_terminal: bool,
}

/// A trie node: a placeholder, a childless leaf, or a branch with children.
pub enum TNode<T> {
    Empty,
    Leaf(Leaf<T>),
    Node(Node<T>),
}

/// Flags describing the outcome of a prefix search: whether the matched node
/// is terminal, and whether the whole query was consumed.
pub struct LongestPrefFlags {
    pub is_terminal: bool,
    pub full_match: bool,
}

/// Error for an insertion of a key that is already present.
#[derive(Debug, Clone)]
pub struct KeyExists;

/// Error value for lookups of absent keys; absence is normally reported by
/// `None`/`false` results instead.
#[derive(Debug, Clone)]
pub struct KeyNotFound;

/// `p` is a (not necessarily strict) prefix of `q`.
pub open spec fn is_prefix_of(p: Seq<char>, q: Seq<char>) -> bool {
    p.len() <= q.len() && p == q.take(p.len() as int)
}

/// The child keys of `s` are in strictly ascending code-point order.
pub open spec fn sorted_children<T>(s: Seq<(char, TNode<T>)>) -> bool {
    forall|i: int, j: int|
        0 <= i < j < s.len() ==> ((#[trigger] s[i]).0 as u32) < ((#[trigger] s[j]).0 as u32)
}

/// Some entry of `s` is keyed by the code point `c`.
pub open spec fn seq_has_char<T>(s: Seq<(char, TNode<T>)>, c: char) -> bool {
    exists|i: int| 0 <= i < s.len() && (#[trigger] s[i]).0 == c
}

/// An index of the entry of `s` keyed by `c` (unique when `s` is sorted).
pub open spec fn seq_char_idx<T>(s: Seq<(char, TNode<T>)>, c: char) -> int {
    choose|i: int| 0 <= i < s.len() && (#[trigger] s[i]).0 == c
}

/// The child node of `s` keyed by `c`.
pub open spec fn seq_child<T>(s: Seq<(char, TNode<T>)>, c: char) -> TNode<T> {
    s[seq_char_idx(s, c)].1
}

impl<T> TNode<T> {
    /// The children of this node; leaves and placeholders have none.
    pub open spec fn spec_children(self) -> Seq<(char, TNode<T>)> {
        match self {
            TNode::Node(n) => n.children@,
            _ => Seq::empty(),
        }
    }

    /// Whether an inserted key ends exactly at this node.
    pub open spec fn spec_terminal(self) -> bool {
        match self {
            TNode::Empty => false,
            TNode::Leaf(l) => l.is_terminal,
            TNode::Node(n) => n.is_terminal,
        }
    }

    /// The payload stored at this node.
    pub open spec fn spec_content(self) -> Option<T> {
        match self {
            TNode::Empty => None,
            TNode::Leaf(l) => l.content,
            TNode::Node(n) => n.content,
        }
    }

    /// This node has a child keyed by `c`.
    pub open spec fn has_child(self, c: char) -> bool {
        seq_has_char(self.spec_children(), c)
    }

    /// The child keyed by `c` (meaningful when `has_child(c)`).
    pub open spec fn child(self, c: char) -> TNode<T> {
        seq_child(self.spec_children(), c)
    }

    /// Structural invariant: children are strictly sorted by code point, no
    /// child is a placeholder, every branch has at least one child, and every
    /// leaf is terminal.
    pub open spec fn wf(self) -> bool
        decreases self,
    {
        match self {
            TNode::Empty => true,
            TNode::Leaf(l) => l.is_terminal,
            TNode::Node(n) => {
                &&& n.children@.len() >= 1
                &&& sorted_children(n.children@)
                &&& forall|i: int|
                    0 <= i < n.children@.len() ==> !((#[trigger] n.children@[i]).1 is Empty)
                &&& forall|i: int| 0 <= i < n.children@.len() ==> (#[trigger] n.children@[i]).1.wf()
            },
        }
    }

    /// Like `wf`, but the node itself may be a childless branch; removal
    /// leaves such a branch for its caller to compact or discard.
    pub open spec fn wf_loose(self) -> bool {
        match self {
            TNode::Node(n) => {
                &&& sorted_children(n.children@)
                &&& forall|i: int|
                    0 <= i < n.children@.len() ==> !((#[trigger] n.children@[i]).1 is Empty)
                &&& forall|i: int| 0 <= i < n.children@.len() ==> (#[trigger] n.children@[i]).1.wf()
            },
            _ => self.wf(),
        }
    }

    /// The path spelled by `q` leads from this node to some node.  An `Empty`
    /// node is a placeholder and is never the target of a path.
    pub open spec fn has_path(self, q: Seq<char>) -> bool
        decreases q.len(),
    {
        &&& !(self is Empty)
        &&& (q.len() > 0 ==> self.has_child(q[0]) && self.child(q[0]).has_path(q.skip(1)))
    }

    /// The node reached by walking `q` (meaningful when `has_path(q)`).
    pub open spec fn node_at(self, q: Seq<char>) -> TNode<T>
        decreases q.len(),
    {
        if q.len() == 0 {
            self
        } else {
            self.child(q[0]).node_at(q.skip(1))
        }
    }

    /// The key `q` was inserted and is still present: walking `q` reaches a
    /// terminal node.
    pub open spec fn has_key(self, q: Seq<char>) -> bool
        decreases q.len(),
    {
        if q.len() == 0 {
            self.spec_terminal()
        } else {
            self.has_child(q[0]) && self.child(q[0]).has_key(q.skip(1))
        }
    }

    /// The payload stored at the node reached by `q`, or `None` when the path
    /// does not exist.
    pub open spec fn content_at(self, q: Seq<char>) -> Option<T>
        decreases q.len(),
    {
        if q.len() == 0 {
            self.spec_content()
        } else if self.has_child(q[0]) {
            self.child(q[0]).content_at(q.skip(1))
        } else {
            None
        }
    }

    /// The node carries no payload, no terminal mark and no children.
    pub open spec fn spec_is_empty(self) -> bool {
        match self {
            TNode::Empty => true,
            TNode::Leaf(l) => l.content is None && !l.is_terminal,
            TNode::Node(n) => n.content is None && n.children@.len() == 0 && !n.is_terminal,
        }
    }

    /// Whether an inserted key ends exactly at this node.
    pub fn is_terminal(&self) -> (r: bool)
        ensures
            r == self.spec_terminal(),
    {
        match self {
            TNode::Empty => false,
            TNode::Leaf(l) => l.is_terminal,
            TNode::Node(n) => n.is_terminal,
        }
    }

    /// Whether the node has no children at all.
    pub fn is_childless(&self) -> (r: bool)
        ensures
            r == (self.spec_children().len() == 0),
    {
        match self {
            TNode::Empty => true,
            TNode::Leaf(_) => true,
            TNode::Node(n) => n.children.len() == 0,
        }
    }

    /// Whether the node carries no payload, no terminal mark and no children.
    pub fn is_empty(&self) -> (r: bool)
        ensures
            r == self.spec_is_empty(),
    {
        match self {
            TNode::Empty => true,
            TNode::Leaf(l) => l.content.is_none() && !l.is_terminal,
            TNode::Node(n) => n.content.is_none() && n.children.len() == 0 && !n.is_terminal,
        }
    }

    /// The payload stored at this node; a placeholder holds none.
    pub fn content(&self) -> (r: &Option<T>)
        requires
            !(self is Empty),
        ensures
            *r == self.spec_content(),
    {
        match self {
            TNode::Leaf(l) => &l.content,
            TNode::Node(n) => &n.content,
            TNode::Empty => {
                proof {
                    assert(false);
                }
                vstd::pervasive::unreached()
            },
        }
    }

    /// Demotes a placeholder or a branch to a leaf, keeping payload and
    /// terminal mark.
    fn to_leaf(&mut self)
        requires
            !((*old(self)) is Leaf),
        ensures
            *final(self) == (TNode::Leaf(
                Leaf { content: old(self).spec_content(), is_terminal: old(self).spec_terminal() },
            )),
    {
        let mut tmp = TNode::Empty;
        core::mem::swap(self, &mut tmp);
        match tmp {
            TNode::Empty => {
                *self = TNode::Leaf(Leaf { content: None, is_terminal: false });
            },
            TNode::Node(n) => {
                *self = TNode::Leaf(Leaf { content: n.content, is_terminal: n.is_terminal });
            },
            TNode::Leaf(_) => {
                proof {
                    assert(false);
                }
            },
        }
    }

    /// Resets the node to the placeholder state.
    fn to_empty(&mut self)
        ensures
            (*final(self)) is Empty,
    {
        *self = TNode::Empty;
    }

    /// Promotes a placeholder or a leaf to a branch with no children yet,
    /// keeping payload and terminal mark.
    fn to_node(&mut self)
        requires
            !((*old(self)) is Node),
        ensures
            (*final(self)) is Node,
            final(self).spec_content() == old(self).spec_content(),
            final(self).spec_terminal() == old(self).spec_terminal(),
            final(self).spec_children() == Seq::<(char, TNode<T>)>::empty(),
    {
        let mut tmp = TNode::Empty;
        core::mem::swap(self, &mut tmp);
        match tmp {
            TNode::Empty => {
                *self = TNode::Node(
                    Node { content: None, children: Vec::new(), is_terminal: false },
                );
            },
            TNode::Leaf(l) => {
                *self = TNode::Node(
                    Node { content: l.content, children: Vec::new(), is_terminal: l.is_terminal },
                );
            },
            TNode::Node(_) => {
                proof {
                    assert(false);
                }
            },
        }
    }
}

/// In a sorted child list the index of a key is unique, so an entry found at
/// `j` is the entry the lookup specification denotes.
pub proof fn lemma_sorted_index_unique<T>(s: Seq<(char, TNode<T>)>, j: int, c: char)
    requires
        sorted_children(s),
        0 <= j < s.len(),
        s[j].0 == c,
    ensures
        seq_has_char(s, c),
        seq_char_idx(s, c) == j,
        seq_child(s, c) == s[j].1,
{
    assert(seq_has_char(s, c));
    let i = seq_char_idx(s, c);
    assert(0 <= i < s.len() && s[i].0 == c);
    if i < j {
        assert((s[i].0 as u32) < (s[j].0 as u32));
    }
    if j < i {
        assert((s[j].0 as u32) < (s[i].0 as u32));
    }
}

/// A well-formed node hands a well-formed, non-placeholder node to each of
/// its child keys.
pub proof fn lemma_wf_child<T>(t: TNode<T>, c: char)
    requires
        t.wf_loose(),
        t.has_child(c),
    ensures
        t.child(c).wf(),
        !(t.child(c) is Empty),
        t is Node,
{
    let i = seq_char_idx(t.spec_children(), c);
    assert(0 <= i < t.spec_children().len() && t.spec_children()[i].0 == c);
    if t is Empty || t is Leaf {
        assert(t.spec_children().len() == 0);
    }
}

/// Splitting a walk: walking `p + r` is walking `p`, then walking `r` from
/// the node reached.
pub proof fn lemma_path_decompose<T>(t: TNode<T>, p: Seq<char>, r: Seq<char>)
    requires
        t.has_path(p),
    ensures
        t.has_path(p + r) == t.node_at(p).has_path(r),
        t.has_key(p + r) == t.node_at(p).has_key(r),
        t.content_at(p + r) == t.node_at(p).content_at(r),
        t.node_at(p + r) == t.node_at(p).node_at(r),
    decreases p.len(),
{
    if p.len() == 0 {
        assert(p + r =~= r);
    } else {
        let c = p[0];
        assert((p + r)[0] == c);
        assert((p + r).skip(1) =~= p.skip(1) + r);
        lemma_path_decompose(t.child(c), p.skip(1), r);
    }
}

/// A prefix of an existing path is itself a path.
pub proof fn lemma_path_take<T>(t: TNode<T>, q: Seq<char>, i: int)
    requires
        t.has_path(q),
        0 <= i <= q.len(),
    ensures
        t.has_path(q.take(i)),
    decreases i,
{
    if i == 0 {
        assert(q.take(0) =~= Seq::<char>::empty());
    } else {
        lemma_path_take(t.child(q[0]), q.skip(1), i - 1);
        assert(q.take(i)[0] == q[0]);
        assert(q.take(i).skip(1) =~= q.skip(1).take(i - 1));
    }
}

/// A stored key marks a real node: `has_key` means the path exists and ends
/// at a terminal node, and the payload at the key is the payload of that node.
pub proof fn lemma_key_path<T>(t: TNode<T>, q: Seq<char>)
    ensures
        t.has_key(q) ==> t.has_path(q),
        t.has_path(q) ==> t.has_key(q) == t.node_at(q).spec_terminal(),
        t.has_path(q) ==> t.content_at(q) == t.node_at(q).spec_content(),
    decreases q.len(),
{
    if q.len() == 0 {
    } else {
        if t.has_child(q[0]) {
            let i = seq_char_idx(t.spec_children(), q[0]);
            assert(0 <= i < t.spec_children().len());
            assert(!(t is Empty));
            lemma_key_path(t.child(q[0]), q.skip(1));
        }
    }
}

/// Distinct characters have distinct code points.
pub proof fn lemma_char_neq_u32(a: char, b: char)
    requires
        a != b,
    ensures
        a as u32 != b as u32,
{
    vstd::utf8::char_u32_cast(a, a as u32);
    vstd::utf8::char_u32_cast(b, b as u32);
}

/// The full invariant implies the loosened one.
pub proof fn lemma_wf_loose<T>(t: TNode<T>)
    requires
        t.wf(),
    ensures
        t.wf_loose(),
{
}

/// A path never ends at a placeholder node.
pub proof fn lemma_path_end_not_empty<T>(t: TNode<T>, q: Seq<char>)
    requires
        t.has_path(q),
    ensures
        !(t.node_at(q) is Empty),
    decreases q.len(),
{
    if q.len() > 0 {
        lemma_path_end_not_empty(t.child(q[0]), q.skip(1));
    }
}

/// Finds the position of the child keyed by `c` in a child list.
fn find_child<T>(children: &Vec<(char, TNode<T>)>, c: char) -> (r: Option<usize>)
    ensures
        match r {
            Some(j) => j < children@.len() && children@[j as int].0 == c,
            None => !seq_has_char(children@, c),
        },
{
    let n = children.len();
    let mut j: usize = 0;
    while j < n
        invariant
            j <= n,
            n == children@.len(),
            forall|i: int| 0 <= i < j ==> (#[trigger] children@[i]).0 != c,
        decreases n - j,
    {
        if children[j].0 == c {
            return Some(j);
        }
        j = j + 1;
    }
    None
}

/// The position where a new child keyed by `c` keeps the child list sorted.
fn insertion_point<T>(children: &Vec<(char, TNode<T>)>, c: char) -> (r: usize)
    requires
        sorted_children(children@),
        !seq_has_char(children@, c),
    ensures
        r <= children@.len(),
        forall|i: int| 0 <= i < r ==> ((#[trigger] children@[i]).0 as u32) < (c as u32),
        forall|i: int| r <= i < children@.len() ==> (c as u32) < ((#[trigger] children@[i]).0 as u32),
{
    let n = children.len();
    let cu = c as u32;
    let mut j: usize = 0;
    while j < n
        invariant
            j <= n,
            n == children@.len(),
            cu == c as u32,
            sorted_children(children@),
            !seq_has_char(children@, c),
            forall|i: int| 0 <= i < j ==> ((#[trigger] children@[i]).0 as u32) < (c as u32),
        decreases n - j,
    {
        let cj = children[j].0 as u32;
        if cj >= cu {
            proof {
                assert(children@[j as int].0 != c) by {
                    if children@[j as int].0 == c {
                        assert(seq_has_char(children@, c));
                    }
                }
                lemma_char_neq_u32(children@[j as int].0, c);
                assert((c as u32) < (children@[j as int].0 as u32));
                assert forall|i: int| j <= i < n implies (c as u32) < (
                (#[trigger] children@[i]).0 as u32) by {
                    if i > j {
                        assert((children@[j as int].0 as u32) < (children@[i].0 as u32));
                    }
                }
            }
            return j;
        }
        j = j + 1;
    }
    n
}

/// Replacing the child at `j` while keeping its key preserves sortedness and
/// changes exactly that key's lookup.
pub proof fn lemma_update_child<T>(s: Seq<(char, TNode<T>)>, j: int, v: TNode<T>)
    requires
        sorted_children(s),
        0 <= j < s.len(),
    ensures
        sorted_children(s.update(j, (s[j].0, v))),
        forall|x: char|
            #[trigger] seq_has_char(s.update(j, (s[j].0, v)), x) == seq_has_char(s, x),
        seq_child(s.update(j, (s[j].0, v)), s[j].0) == v,
        forall|x: char|
            x != s[j].0 && seq_has_char(s, x) ==> #[trigger] seq_child(
                s.update(j, (s[j].0, v)),
                x,
            ) == seq_child(s, x),
{
    let s2 = s.update(j, (s[j].0, v));
    assert forall|i: int| 0 <= i < s.len() implies (#[trigger] s2[i]).0 == s[i].0 by {}
    assert forall|x: char| #[trigger] seq_has_char(s2, x) == seq_has_char(s, x) by {
        if seq_has_char(s2, x) {
            let i = seq_char_idx(s2, x);
            assert(0 <= i < s2.len() && s2[i].0 == x);
            assert(s[i].0 == x);
        }
        if seq_has_char(s, x) {
            let i = seq_char_idx(s, x);
            assert(0 <= i < s.len() && s[i].0 == x);
            assert(s2[i].0 == x);
        }
    }
    lemma_sorted_index_unique(s2, j, s[j].0);
    assert forall|x: char| x != s[j].0 && seq_has_char(s, x) implies #[trigger] seq_child(s2, x)
        == seq_child(s, x) by {
        let i = seq_char_idx(s, x);
        assert(0 <= i < s.len() && s[i].0 == x);
        lemma_sorted_index_unique(s, i, x);
        lemma_sorted_index_unique(s2, i, x);
    }
}

/// Inserting a new key at its sorted position keeps the list sorted and adds
/// exactly that key's lookup.
pub proof fn lemma_insert_child<T>(s: Seq<(char, TNode<T>)>, jj: int, c: char, v: TNode<T>)
    requires
        sorted_children(s),
        0 <= jj <= s.len(),
        forall|i: int| 0 <= i < jj ==> ((#[trigger] s[i]).0 as u32) < (c as u32),
        forall|i: int| jj <= i < s.len() ==> (c as u32) < ((#[trigger] s[i]).0 as u32),
    ensures
        sorted_children(s.insert(jj, (c, v))),
        seq_has_char(s.insert(jj, (c, v)), c),
        seq_child(s.insert(jj, (c, v)), c) == v,
        forall|x: char|
            x != c ==> #[trigger] seq_has_char(s.insert(jj, (c, v)), x) == seq_has_char(s, x),
        forall|x: char|
            x != c && seq_has_char(s, x) ==> #[trigger] seq_child(s.insert(jj, (c, v)), x)
                == seq_child(s, x),
{
    let s2 = s.insert(jj, (c, v));
    assert(s2.len() == s.len() + 1);
    assert forall|i: int| 0 <= i < jj implies s2[i] == s[i] by {}
    assert(s2[jj] == (c, v));
    assert forall|i: int| jj < i < s2.len() implies s2[i] == s[i - 1] by {}
    assert forall|i: int, i2: int| 0 <= i < i2 < s2.len() implies ((#[trigger] s2[i]).0 as u32) < ((
    #[trigger] s2[i2]).0 as u32) by {
        if i2 < jj {
        } else if i2 == jj {
        } else if i < jj {
            if i2 - 1 > i {
                if jj <= i2 - 1 {
                    assert((c as u32) < (s[i2 - 1].0 as u32));
                    assert((s[i].0 as u32) < (c as u32));
                }
            }
        } else if i == jj {
            assert((c as u32) < (s[i2 - 1].0 as u32));
        } else {
            assert((s[i - 1].0 as u32) < (s[i2 - 1].0 as u32));
        }
    }
    lemma_sorted_index_unique(s2, jj, c);
    assert forall|x: char| x != c implies #[trigger] seq_has_char(s2, x) == seq_has_char(s, x) by {
        if seq_has_char(s2, x) {
            let i = seq_char_idx(s2, x);
            assert(0 <= i < s2.len() && s2[i].0 == x);
            if i < jj {
                assert(s[i].0 == x);
            } else {
                assert(i != jj);
                assert(s[i - 1].0 == x);
            }
        }
        if seq_has_char(s, x) {
            let i = seq_char_idx(s, x);
            assert(0 <= i < s.len() && s[i].0 == x);
            if i < jj {
                assert(s2[i].0 == x);
            } else {
                assert(s2[i + 1].0 == x);
            }
        }
    }
    assert forall|x: char| x != c && seq_has_char(s, x) implies #[trigger] seq_child(s2, x)
        == seq_child(s, x) by {
        let i = seq_char_idx(s, x);
        assert(0 <= i < s.len() && s[i].0 == x);
        lemma_sorted_index_unique(s, i, x);
        if i < jj {
            assert(s2[i].0 == x);
            lemma_sorted_index_unique(s2, i, x);
        } else {
            assert(s2[i + 1].0 == x);
            lemma_sorted_index_unique(s2, i + 1, x);
        }
    }
}

/// Removing the child at `j` keeps the list sorted, drops exactly that key,
/// and leaves the other lookups unchanged.
pub proof fn lemma_remove_child<T>(s: Seq<(char, TNode<T>)>, j: int)
    requires
        sorted_children(s),
        0 <= j < s.len(),
    ensures
        sorted_children(s.remove(j)),
        !seq_has_char(s.remove(j), s[j].0),
        forall|x: char|
            x != s[j].0 ==> #[trigger] seq_has_char(s.remove(j), x) == seq_has_char(s, x),
        forall|x: char|
            x != s[j].0 && seq_has_char(s, x) ==> #[trigger] seq_child(s.remove(j), x)
                == seq_child(s, x),
{
    let s2 = s.remove(j);
    let c = s[j].0;
    assert(s2.len() == s.len() - 1);
    assert forall|i: int| 0 <= i < j implies s2[i] == s[i] by {}
    assert forall|i: int| j <= i < s2.len() implies s2[i] == s[i + 1] by {}
    assert forall|i: int, i2: int| 0 <= i < i2 < s2.len() implies ((#[trigger] s2[i]).0 as u32) < ((
    #[trigger] s2[i2]).0 as u32) by {}
    assert(!seq_has_char(s2, c)) by {
        if seq_has_char(s2, c) {
            let i = seq_char_idx(s2, c);
            assert(0 <= i < s2.len() && s2[i].0 == c);
            if i < j {
                assert((s[i].0 as u32) < (s[j].0 as u32));
            } else {
                assert((s[j].0 as u32) < (s[i + 1].0 as u32));
            }
        }
    }
    assert forall|x: char| x != c implies #[trigger] seq_has_char(s2, x) == seq_has_char(s, x) by {
        if seq_has_char(s2, x) {
            let i = seq_char_idx(s2, x);
            assert(0 <= i < s2.len() && s2[i].0 == x);
            if i < j {
                assert(s[i].0 == x);
            } else {
                assert(s[i + 1].0 == x);
            }
        }
        if seq_has_char(s, x) {
            let i = seq_char_idx(s, x);
            assert(0 <= i < s.len() && s[i].0 == x);
            assert(i != j);
            if i < j {
                assert(s2[i].0 == x);
            } else {
                assert(s2[i - 1].0 == x);
            }
        }
    }
    assert forall|x: char| x != c && seq_has_char(s, x) implies #[trigger] seq_child(s2, x)
        == seq_child(s, x) by {
        let i = seq_char_idx(s, x);
        assert(0 <= i < s.len() && s[i].0 == x);
        lemma_sorted_index_unique(s, i, x);
        if i < j {
            assert(s2[i].0 == x);
            lemma_sorted_index_unique(s2, i, x);
        } else {
            assert(s2[i - 1].0 == x);
            lemma_sorted_index_unique(s2, i - 1, x);
        }
    }
}

/// Two nodes with the same terminal mark, payload and children store the same
/// keys and payloads.
pub proof fn lemma_same_model<T>(a: TNode<T>, b: TNode<T>, k: Seq<char>)
    requires
        a.spec_terminal() == b.spec_terminal(),
        a.spec_content() == b.spec_content(),
        a.spec_children() == b.spec_children(),
    ensures
        a.has_key(k) == b.has_key(k),
        a.content_at(k) == b.content_at(k),
{
}

/// Changing only the child keyed by `c` changes only the keys that route
/// through `c`.
pub proof fn lemma_node_child_model<T>(a: TNode<T>, b: TNode<T>, c: char, k: Seq<char>)
    requires
        a.spec_terminal() == b.spec_terminal(),
        a.spec_content() == b.spec_content(),
        k.len() == 0 || k[0] != c,
        forall|x: char| x != c ==> #[trigger] a.has_child(x) == b.has_child(x),
        forall|x: char| x != c && a.has_child(x) ==> #[trigger] a.child(x) == b.child(x),
    ensures
        a.has_key(k) == b.has_key(k),
        a.content_at(k) == b.content_at(k),
{
    if k.len() == 0 {
    } else {
        assert(a.has_child(k[0]) == b.has_child(k[0]));
        if a.has_child(k[0]) {
            assert(a.child(k[0]) == b.child(k[0]));
        }
    }
}

impl<T> TNode<T> {
    /// Whether the suffix of `ks` from `i` on is a stored key below this
    /// node; reads the tree without changing it.
    fn has_key_at(&self, ks: &Vec<char>, i: usize) -> (r: bool)
        requires
            self.wf_loose(),
            i <= ks@.len(),
        ensures
            r == self.has_key(ks@.skip(i as int)),
        decreases ks@.len() - i,
    {
        let ghost sfx = ks@.skip(i as int);
        if i == ks.len() {
            proof {
                assert(sfx =~= Seq::<char>::empty());
            }
            self.is_terminal()
        } else {
            proof {
                assert(sfx.len() > 0);
                assert(sfx[0] == ks@[i as int]);
                assert(sfx.skip(1) =~= ks@.skip(i as int + 1));
            }
            match self {
                TNode::Node(n) => {
                    match find_child(&n.children, ks[i]) {
                        Some(j) => {
                            proof {
                                lemma_sorted_index_unique(n.children@, j as int, ks@[i as int]);
                                lemma_wf_child(*self, ks@[i as int]);
                            }
                            n.children[j].1.has_key_at(ks, i + 1)
                        },
                        None => {
                            proof {
                                assert(!self.has_child(sfx[0]));
                            }
                            false
                        },
                    }
                },
                _ => {
                    proof {
                        assert(self.spec_children() =~= Seq::<(char, TNode<T>)>::empty());
                        assert(!self.has_child(sfx[0]));
                    }
                    false
                },
            }
        }
    }

    /// Whether the suffix of `ks` from `i` on is a path below this node.
    fn has_path_at(&self, ks: &Vec<char>, i: usize) -> (r: bool)
        requires
            self.wf_loose(),
            i <= ks@.len(),
        ensures
            r == self.has_path(ks@.skip(i as int)),
        decreases ks@.len() - i,
    {
        let ghost sfx = ks@.skip(i as int);
        if i == ks.len() {
            proof {
                assert(sfx =~= Seq::<char>::empty());
            }
            match self {
                TNode::Empty => false,
                _ => true,
            }
        } else {
            proof {
                assert(sfx.len() > 0);
                assert(sfx[0] == ks@[i as int]);
                assert(sfx.skip(1) =~= ks@.skip(i as int + 1));
            }
            match self {
                TNode::Node(n) => {
                    match find_child(&n.children, ks[i]) {
                        Some(j) => {
                            proof {
                                lemma_sorted_index_unique(n.children@, j as int, ks@[i as int]);
                                lemma_wf_child(*self, ks@[i as int]);
                            }
                            n.children[j].1.has_path_at(ks, i + 1)
                        },
                        None => {
                            proof {
                                assert(!self.has_child(sfx[0]));
                            }
                            false
                        },
                    }
                },
                _ => {
                    proof {
                        assert(self.spec_children() =~= Seq::<(char, TNode<T>)>::empty());
                        assert(!self.has_child(sfx[0]));
                    }
                    false
                },
            }
        }
    }
}

/// A node with no children and no terminal mark stores no key at all.
pub proof fn lemma_no_keys<T>(t: TNode<T>, k: Seq<char>)
    requires
        t.spec_children().len() == 0,
        !t.spec_terminal(),
    ensures
        !t.has_key(k),
{
    if k.len() > 0 {
        assert(!t.has_child(k[0]));
    }
}

/// Being a prefix, read off the first code point: `p` is a prefix of `k`
/// exactly when their first code points agree and the rest of `p` is a
/// prefix of the rest of `k`.
pub proof fn lemma_prefix_cases(p: Seq<char>, k: Seq<char>)
    requires
        p.len() > 0,
    ensures
        is_prefix_of(p, k) == (k.len() > 0 && k[0] == p[0] && is_prefix_of(p.skip(1), k.skip(1))),
{
    if k.len() > 0 && k[0] == p[0] && is_prefix_of(p.skip(1), k.skip(1)) {
        assert(p.skip(1) == k.skip(1).take(p.len() - 1));
        assert(p =~= k.take(p.len() as int)) by {
            assert forall|m: int| 0 <= m < p.len() implies p[m] == k.take(p.len() as int)[m] by {
                if m > 0 {
                    assert(p[m] == p.skip(1)[m - 1]);
                    assert(p.skip(1)[m - 1] == k.skip(1).take(p.len() - 1)[m - 1]);
                    assert(k.skip(1)[m - 1] == k[m]);
                }
            }
        }
    }
    if is_prefix_of(p, k) {
        assert(p[0] == k.take(p.len() as int)[0]);
        assert(p.skip(1) =~= k.skip(1).take(p.len() - 1)) by {
            assert forall|m: int| 0 <= m < p.len() - 1 implies p.skip(1)[m] == k.skip(1).take(
                p.len() - 1,
            )[m] by {
                assert(p.skip(1)[m] == p[m + 1]);
                assert(p[m + 1] == k.take(p.len() as int)[m + 1]);
                assert(k.skip(1).take(p.len() - 1)[m] == k[m + 1]);
            }
        }
    }
}

/// The placeholder stores no key and no payload at all.
pub proof fn lemma_empty_model<T>(k: Seq<char>)
    ensures
        !(TNode::<T>::Empty).has_key(k),
        (TNode::<T>::Empty).content_at(k) is None,
{
    if k.len() > 0 {
        assert(!(TNode::<T>::Empty).has_child(k[0]));
    }
}

/// What a successful insertion of `key` with payload `cont` does to a trie:
/// the key becomes stored with exactly that payload, and every other key and
/// payload is untouched.
pub open spec fn add_post<T>(t0: TNode<T>, t1: TNode<T>, key: Seq<char>, cont: Option<T>) -> bool {
    &&& !t0.has_key(key)
    &&& t1.wf()
    &&& t1.has_key(key)
    &&& t1.content_at(key) == cont
    &&& forall|k: Seq<char>| k != key ==> #[trigger] t1.has_key(k) == t0.has_key(k)
    &&& forall|k: Seq<char>| k != key ==> #[trigger] t1.content_at(k) == t0.content_at(k)
}

impl<T> TNode<T> {
    /// Inserts the suffix of `key` from `i` on below this node, walking and
    /// creating nodes one code point at a time.
    #[verifier::rlimit(50)]
    fn add_rec(node: TNode<T>, key: &Vec<char>, i: usize, cont: Option<T>) -> (out: TNode<T>)
        requires
            node.wf(),
            i <= key@.len(),
            !node.has_key(key@.skip(i as int)),
        ensures
            add_post(node, out, key@.skip(i as int), cont),
            !(out is Empty),
            out.spec_terminal() == (key@.skip(i as int).len() == 0 || node.spec_terminal()),
        decreases key@.len() - i,
    {
        let ghost sfx = key@.skip(i as int);
        let ghost node0 = node;
        if i == key.len() {
            proof {
                assert(sfx =~= Seq::<char>::empty());
            }
            let out = match node {
                TNode::Empty => TNode::Leaf(Leaf { content: cont, is_terminal: true }),
                TNode::Leaf(_) => TNode::Leaf(Leaf { content: cont, is_terminal: true }),
                TNode::Node(n) => TNode::Node(
                    Node { content: cont, children: n.children, is_terminal: true },
                ),
            };
            proof {
                assert(out.spec_children() == node0.spec_children());
                assert forall|k: Seq<char>| k != sfx implies #[trigger] out.has_key(k)
                    == node0.has_key(k) && #[trigger] out.content_at(k) == node0.content_at(
                    k,
                ) by {
                    assert(k.len() > 0) by {
                        if k.len() == 0 {
                            assert(k =~= sfx);
                        }
                    }
                }
                assert forall|k: Seq<char>| k != sfx implies #[trigger] out.has_key(k)
                    == node0.has_key(k) by {
                    let ghost witness = out.content_at(k);
                }
                assert forall|k: Seq<char>| k != sfx implies #[trigger] out.content_at(k)
                    == node0.content_at(k) by {
                    let ghost witness = out.has_key(k);
                }
                assert(add_post(node0, out, sfx, cont));
            }
            out
        } else {
            let c = key[i];
            proof {
                assert(sfx.len() > 0);
                assert(sfx[0] == key@[i as int]);
                assert(sfx.skip(1) =~= key@.skip(i as int + 1));
            }
            let ghost sfx_child = key@.skip(i as int + 1);
            let mut node = node;
            let needs_promote = match &node {
                TNode::Node(_) => false,
                _ => true,
            };
            if needs_promote {
                node.to_node();
            }
            let ghost node1 = node;
            proof {
                assert(node1.spec_terminal() == node0.spec_terminal());
                assert(node1.spec_content() == node0.spec_content());
                assert(node1.spec_children() =~= node0.spec_children());
                assert forall|k: Seq<char>|
                    #[trigger] node1.has_key(k) == node0.has_key(k) && #[trigger] node1.content_at(
                        k,
                    ) == node0.content_at(k) by {
                    lemma_same_model(node0, node1, k);
                }
            }
            match node {
                TNode::Node(mut n) => {
                    let ghost cs = n.children@;
                    proof {
                        assert(node1.spec_children() == cs);
                    }
                    let out = match find_child(&n.children, c) {
                        Some(j) => {
                            proof {
                                lemma_sorted_index_unique(cs, j as int, c);
                                assert(node1.has_child(c) && node1.child(c) == cs[j as int].1);
                                assert(cs[j as int].1.wf());
                                assert(!cs[j as int].1.has_key(sfx_child));
                            }
                            let pair = n.children.remove(j);
                            let ch2 = Self::add_rec(pair.1, key, i + 1, cont);
                            n.children.insert(j, (pair.0, ch2));
                            proof {
                                assert(n.children@ =~= cs.update(j as int, (c, ch2)));
                                lemma_update_child(cs, j as int, ch2);
                            }
                            TNode::Node(n)
                        },
                        None => {
                            let jj = insertion_point(&n.children, c);
                            let ch2 = Self::add_rec(TNode::Empty, key, i + 1, cont);
                            proof {
                                lemma_empty_model::<T>(sfx_child);
                            }
                            n.children.insert(jj, (c, ch2));
                            proof {
                                assert(n.children@ == cs.insert(jj as int, (c, ch2)));
                                lemma_insert_child(cs, jj as int, c, ch2);
                            }
                            TNode::Node(n)
                        },
                    };
                    proof {
                        let ch2 = out.child(c);
                        assert(out.has_child(c));
                        assert(!(ch2 is Empty));
                        assert(ch2.has_key(sfx_child) && ch2.content_at(sfx_child) == cont);
                        assert(out.wf()) by {
                            assert(out.spec_children().len() >= 1);
                            assert(sorted_children(out.spec_children()));
                            assert forall|ii: int|
                                0 <= ii < out.spec_children().len() implies !((
                            #[trigger] out.spec_children()[ii]).1 is Empty)
                                && out.spec_children()[ii].1.wf() by {
                                lemma_sorted_index_unique(
                                    out.spec_children(),
                                    ii,
                                    out.spec_children()[ii].0,
                                );
                                if out.spec_children()[ii].0 == c {
                                    assert(out.spec_children()[ii].1 == ch2);
                                } else {
                                    assert(out.spec_children()[ii].1 == node1.child(
                                        out.spec_children()[ii].0,
                                    ));
                                    lemma_wf_child(node1, out.spec_children()[ii].0);
                                }
                            }
                        };
                        assert(out.has_key(sfx) && out.content_at(sfx) == cont);
                        assert forall|k: Seq<char>| k != sfx implies #[trigger] out.has_key(k)
                            == node0.has_key(k) && #[trigger] out.content_at(k)
                            == node0.content_at(k) by {
                            if k.len() == 0 {
                            } else if k[0] == c {
                                assert(k.skip(1) != sfx_child) by {
                                    if k.skip(1) == sfx_child {
                                        assert(k.len() == sfx.len());
                                        assert forall|m: int| 0 <= m < k.len() implies k[m]
                                            == sfx[m] by {
                                            if m > 0 {
                                                assert(k[m] == k.skip(1)[m - 1]);
                                                assert(sfx[m] == sfx.skip(1)[m - 1]);
                                            }
                                        }
                                        assert(k =~= sfx);
                                    }
                                }
                                assert(out.has_key(k) == ch2.has_key(k.skip(1)));
                                assert(out.content_at(k) == ch2.content_at(k.skip(1)));
                                if node1.has_child(c) {
                                    assert(node1.has_key(k) == node1.child(c).has_key(k.skip(1)));
                                } else {
                                    assert(!node1.has_key(k));
                                    lemma_empty_model::<T>(k.skip(1));
                                }
                            } else {
                                lemma_node_child_model(node1, out, c, k);
                            }
                        }
                        assert forall|k: Seq<char>| k != sfx implies #[trigger] out.has_key(k)
                            == node0.has_key(k) by {
                            let ghost witness = out.content_at(k);
                        }
                        assert forall|k: Seq<char>| k != sfx implies #[trigger] out.content_at(k)
                            == node0.content_at(k) by {
                            let ghost witness = out.has_key(k);
                        }
                        assert(add_post(node0, out, sfx, cont));
                    }
                    out
                },
                _ => {
                    proof {
                        assert(false);
                    }
                    vstd::pervasive::unreached()
                },
            }
        }
    }

    /// Inserts `s` with payload `cont`.  Re-insertion of a stored key is
    /// rejected with `KeyExists` and leaves the trie untouched; otherwise the
    /// key is stored with exactly that payload and no other key changes.
    pub fn add(&mut self, s: &str, cont: Option<T>) -> (r: Result<(), KeyExists>)
        requires
            old(self).wf(),
        ensures
            r is Ok <==> !old(self).has_key(s@),
            r is Err ==> *final(self) == *old(self),
            r is Ok ==> add_post(*old(self), *final(self), s@, cont),
            final(self).wf(),
    {
        let ks = chars_of(s);
        proof {
            assert(ks@.skip(0) =~= s@);
            assert(old(self).wf_loose()) by {
                if *old(self) is Node {
                }
            }
        }
        if self.has_key_at(&ks, 0) {
            return Err(KeyExists);
        }
        let mut tmp = TNode::Empty;
        core::mem::swap(self, &mut tmp);
        let out = Self::add_rec(tmp, &ks, 0, cont);
        *self = out;
        Ok(())
    }

    /// Exact lookup: the whole key must be consumed, and with
    /// `must_be_terminal` the node reached must itself be terminal — there is
    /// no fallback to a terminal ancestor.
    pub fn find(&self, s: &str, must_be_terminal: bool) -> (r: Option<&TNode<T>>)
        requires
            self.wf(),
        ensures
            ({
                let q = s@;
                if self.has_path(q) && (!must_be_terminal || self.has_key(q)) {
                    match r {
                        Some(node) => *node == self.node_at(q),
                        None => false,
                    }
                } else {
                    r is None
                }
            }),
    {
        let ks = chars_of(s);
        let ghost q = s@;
        let n = ks.len();
        let mut cur: &TNode<T> = self;
        let mut i: usize = 0;
        let mut stop: bool = false;
        proof {
            assert(ks@.take(0) =~= Seq::<char>::empty());
            lemma_wf_loose(*self);
        }
        while i < n && !stop
            invariant
                i <= n,
                n == ks@.len(),
                ks@ == q,
                self.wf(),
                *cur == self.node_at(q.take(i as int)),
                cur.wf_loose(),
                i > 0 ==> self.has_path(q.take(i as int)),
                stop ==> i < n && !self.has_path(q.take(i as int + 1)),
            decreases n - i + (if stop {
                0int
            } else {
                1int
            }),
        {
            let ghost pre = q.take(i as int);
            let ghost step = seq![q[i as int]];
            proof {
                assert(q.take(i as int + 1) =~= pre + step);
                assert(step[0] == q[i as int]);
                assert(step.skip(1) =~= Seq::<char>::empty());
            }
            match cur {
                TNode::Node(nd) => {
                    match find_child(&nd.children, ks[i]) {
                        Some(j) => {
                            proof {
                                lemma_sorted_index_unique(nd.children@, j as int, q[i as int]);
                                lemma_wf_child(*cur, q[i as int]);
                                let ch = cur.child(q[i as int]);
                                assert(!(ch is Empty));
                                assert(ch.has_path(Seq::<char>::empty()));
                                assert(ch.node_at(Seq::<char>::empty()) == ch);
                                assert(cur.has_path(step));
                                assert(cur.node_at(step) == ch);
                                assert(self.has_path(pre)) by {
                                    if i == 0 {
                                        assert(pre =~= Seq::<char>::empty());
                                    }
                                }
                                lemma_path_decompose(*self, pre, step);
                                assert(self.has_path(q.take(i as int + 1)));
                                assert(self.node_at(q.take(i as int + 1)) == ch);
                            }
                            cur = &nd.children[j].1;
                            i = i + 1;
                        },
                        None => {
                            proof {
                                assert(!cur.has_child(q[i as int]));
                                assert(!cur.has_path(step));
                                if self.has_path(pre) {
                                    lemma_path_decompose(*self, pre, step);
                                    assert(!self.has_path(q.take(i as int + 1)));
                                } else {
                                    if self.has_path(q.take(i as int + 1)) {
                                        lemma_path_take(*self, q.take(i as int + 1), i as int);
                                        assert(q.take(i as int + 1).take(i as int) =~= pre);
                                    }
                                }
                            }
                            stop = true;
                        },
                    }
                },
                _ => {
                    proof {
                        assert(cur.spec_children() =~= Seq::<(char, TNode<T>)>::empty());
                        assert(!cur.has_child(q[i as int]));
                        assert(!cur.has_path(step));
                        if self.has_path(pre) {
                            lemma_path_decompose(*self, pre, step);
                            assert(!self.has_path(q.take(i as int + 1)));
                        } else {
                            if self.has_path(q.take(i as int + 1)) {
                                lemma_path_take(*self, q.take(i as int + 1), i as int);
                                assert(q.take(i as int + 1).take(i as int) =~= pre);
                            }
                        }
                    }
                    stop = true;
                },
            }
        }
        if stop {
            proof {
                if self.has_path(q) {
                    lemma_path_take(*self, q, i as int + 1);
                }
                lemma_key_path(*self, q);
            }
            return None;
        }
        proof {
            assert(i == n);
            assert(q.take(n as int) =~= q);
            lemma_key_path(*self, q);
        }
        match cur {
            TNode::Empty => {
                proof {
                    if self.has_path(q) {
                        lemma_path_end_not_empty(*self, q);
                    }
                }
                None
            },
            _ => {
                if must_be_terminal && !cur.is_terminal() {
                    None
                } else {
                    Some(cur)
                }
            },
        }
    }

    /// Longest-prefix search: walks `s` as far as the tree allows.  Without
    /// `must_be_terminal` the result is the longest prefix of `s` that is a
    /// path in the tree; with it, the longest prefix of `s` that is a stored
    /// key, falling back to the last terminal node passed, or to the empty
    /// string when none was passed.
    pub fn longest_prefix(&self, s: &str, must_be_terminal: bool) -> (r: String)
        requires
            self.wf(),
        ensures
            ({
                let q = s@;
                if must_be_terminal {
                    if exists|m: int| 0 <= m <= q.len() && self.has_key(#[trigger] q.take(m)) {
                        &&& r@.len() <= q.len()
                        &&& r@ == q.take(r@.len() as int)
                        &&& self.has_key(r@)
                        &&& forall|m: int|
                            r@.len() < m <= q.len() ==> !self.has_key(#[trigger] q.take(m))
                    } else {
                        r@ == Seq::<char>::empty()
                    }
                } else {
                    if self is Empty {
                        r@ == Seq::<char>::empty()
                    } else {
                        &&& r@.len() <= q.len()
                        &&& r@ == q.take(r@.len() as int)
                        &&& self.has_path(r@)
                        &&& forall|m: int|
                            r@.len() < m <= q.len() ==> !self.has_path(#[trigger] q.take(m))
                    }
                }
            }),
    {
        let ks = chars_of(s);
        let ghost q = s@;
        let n = ks.len();
        let mut cur: &TNode<T> = self;
        let mut i: usize = 0;
        let mut stop: bool = false;
        let mut best: usize = 0;
        let mut found: bool = false;
        proof {
            assert(ks@.take(0) =~= Seq::<char>::empty());
            lemma_wf_loose(*self);
        }
        while i < n && !stop
            invariant
                i <= n,
                n == ks@.len(),
                ks@ == q,
                self.wf(),
                *cur == self.node_at(q.take(i as int)),
                cur.wf_loose(),
                !(self is Empty) ==> self.has_path(q.take(i as int)),
                self is Empty ==> i == 0,
                stop ==> i < n && !self.has_path(q.take(i as int + 1)),
                found ==> best <= i && self.has_key(q.take(best as int)),
                found ==> forall|m: int|
                    best < m < i ==> !self.has_key(#[trigger] q.take(m)),
                !found ==> forall|m: int| 0 <= m < i ==> !self.has_key(#[trigger] q.take(m)),
                stop ==> (cur.spec_terminal() ==> found && best == i),
            decreases n - i + (if stop {
                0int
            } else {
                1int
            }),
        {
            let ghost pre = q.take(i as int);
            let ghost step = seq![q[i as int]];
            proof {
                assert(q.take(i as int + 1) =~= pre + step);
                assert(step[0] == q[i as int]);
                assert(step.skip(1) =~= Seq::<char>::empty());
                if !(*self is Empty) {
                    lemma_key_path(*self, pre);
                }
            }
            if cur.is_terminal() {
                best = i;
                found = true;
                proof {
                    assert(!(*self is Empty));
                    assert(self.has_key(pre));
                }
            } else {
                proof {
                    if !(*self is Empty) {
                        assert(!self.has_key(pre));
                    } else {
                        assert(!self.has_key(q.take(0)));
                    }
                }
            }
            match cur {
                TNode::Node(nd) => {
                    match find_child(&nd.children, ks[i]) {
                        Some(j) => {
                            proof {
                                lemma_sorted_index_unique(nd.children@, j as int, q[i as int]);
                                lemma_wf_child(*cur, q[i as int]);
                                let ch = cur.child(q[i as int]);
                                assert(!(ch is Empty));
                                assert(ch.has_path(Seq::<char>::empty()));
                                assert(ch.node_at(Seq::<char>::empty()) == ch);
                                assert(cur.has_path(step));
                                assert(cur.node_at(step) == ch);
                                assert(self.has_path(pre)) by {
                                    if i == 0 {
                                        assert(pre =~= Seq::<char>::empty());
                                    }
                                }
                                lemma_path_decompose(*self, pre, step);
                                assert(self.has_path(q.take(i as int + 1)));
                                assert(self.node_at(q.take(i as int + 1)) == ch);
                            }
                            cur = &nd.children[j].1;
                            i = i + 1;
                        },
                        None => {
                            proof {
                                assert(!cur.has_child(q[i as int]));
                                assert(!cur.has_path(step));
                                if self.has_path(pre) {
                                    lemma_path_decompose(*self, pre, step);
                                    assert(!self.has_path(q.take(i as int + 1)));
                                } else {
                                    if self.has_path(q.take(i as int + 1)) {
                                        lemma_path_take(*self, q.take(i as int + 1), i as int);
                                        assert(q.take(i as int + 1).take(i as int) =~= pre);
                                    }
                                }
                            }
                            stop = true;
                        },
                    }
                },
                _ => {
                    proof {
                        assert(cur.spec_children() =~= Seq::<(char, TNode<T>)>::empty());
                        assert(!cur.has_child(q[i as int]));
                        assert(!cur.has_path(step));
                        if self.has_path(pre) {
                            lemma_path_decompose(*self, pre, step);
                            assert(!self.has_path(q.take(i as int + 1)));
                        } else {
                            if self.has_path(q.take(i as int + 1)) {
                                lemma_path_take(*self, q.take(i as int + 1), i as int);
                                assert(q.take(i as int + 1).take(i as int) =~= pre);
                            }
                        }
                    }
                    stop = true;
                },
            }
        }
        if cur.is_terminal() {
            best = i;
            found = true;
        }
        proof {
            let ghost qi = q.take(i as int);
            if !(*self is Empty) {
                lemma_key_path(*self, qi);
                assert(self.has_key(qi) == cur.spec_terminal());
            } else {
                assert(!self.has_key(qi)) by {
                    assert(qi =~= Seq::<char>::empty());
                }
            }
            assert forall|m: int| i < m <= n implies !self.has_path(#[trigger] q.take(m)) by {
                if self.has_path(q.take(m)) {
                    assert(stop && i < n);
                    lemma_path_take(*self, q.take(m), i as int + 1);
                    assert(q.take(m).take(i as int + 1) =~= q.take(i as int + 1));
                }
            }
            assert forall|m: int| i < m <= n implies !self.has_key(#[trigger] q.take(m)) by {
                lemma_key_path(*self, q.take(m));
            }
            if found {
                assert forall|m: int| best < m <= n implies !self.has_key(#[trigger] q.take(m)) by {
                    if m == i {
                        assert(best < i);
                        assert(!cur.spec_terminal());
                    }
                }
            } else {
                assert forall|m: int| 0 <= m <= n implies !self.has_key(#[trigger] q.take(m)) by {
                    if m == i {
                        assert(!cur.spec_terminal());
                    }
                }
            }
        }
        if must_be_terminal {
            if found {
                let r = crate::chars::prefix_string(&ks, best);
                proof {
                    assert(r@.len() == best);
                    assert(self.has_key(q.take(best as int)));
                }
                r
            } else {
                let r = String::new();
                proof {
                    assert forall|m: int|
                        0 <= m <= q.len() implies !self.has_key(#[trigger] q.take(m)) by {}
                }
                r
            }
        } else {
            let r = crate::chars::prefix_string(&ks, i);
            proof {
                if !(*self is Empty) {
                    assert(self.has_path(q.take(i as int)));
                    assert(r@.len() == i);
                } else {
                    assert(r@ =~= Seq::<char>::empty());
                }
            }
            r
        }
    }

    /// Whether `s` is a stored key: a terminal node exists for exactly `s`.
    pub fn contains_key(&self, s: &str) -> (r: bool)
        requires
            self.wf(),
        ensures
            r == self.has_key(s@),
    {
        proof {
            lemma_key_path(*self, s@);
        }
        self.find(s, true).is_some()
    }
}

/// What a successful removal of `key` does to a trie: the key is no longer
/// stored; with `remove_subtree` every stored key extending `key` is gone
/// too; every other key, with its payload, is untouched.
pub open spec fn remove_post<T>(
    t0: TNode<T>,
    t1: TNode<T>,
    key: Seq<char>,
    remove_subtree: bool,
) -> bool {
    &&& !t1.has_key(key)
    &&& (remove_subtree ==> forall|k: Seq<char>|
        is_prefix_of(key, k) ==> !(#[trigger] t1.has_key(k)))
    &&& forall|k: Seq<char>|
        (if remove_subtree {
            !is_prefix_of(key, k)
        } else {
            k != key
        }) ==> #[trigger] t1.has_key(k) == t0.has_key(k)
    &&& forall|k: Seq<char>|
        k != key && t1.has_key(k) ==> #[trigger] t1.content_at(k) == t0.content_at(k)
}

impl<T> TNode<T> {
    /// Removes the suffix of `key` from `i` on below this node.  The caller
    /// has checked that the target exists, so something is always removed;
    /// the boolean asks the caller to delete this node too, because it has
    /// become a childless non-terminal branch.
    #[verifier::rlimit(100)]
    fn remove_fn(node: TNode<T>, key: &Vec<char>, i: usize, remove_subtree: bool) -> (r: (
        TNode<T>,
        bool,
    ))
        requires
            node.wf(),
            i < key@.len(),
            remove_subtree ==> node.has_path(key@.skip(i as int)),
            !remove_subtree ==> node.has_key(key@.skip(i as int)),
        ensures
            r.0 is Node,
            r.0.wf_loose(),
            r.0.spec_terminal() == node.spec_terminal(),
            r.0.spec_content() == node.spec_content(),
            r.1 == (!r.0.spec_terminal() && r.0.spec_children().len() == 0),
            remove_post(node, r.0, key@.skip(i as int), remove_subtree),
        decreases key@.len() - i,
    {
        let ghost sfx = key@.skip(i as int);
        let ghost node0 = node;
        let c = key[i];
        let ghost sfx_child = key@.skip(i as int + 1);
        proof {
            assert(sfx.len() > 0);
            assert(sfx[0] == key@[i as int]);
            assert(sfx.skip(1) =~= sfx_child);
            assert(node0.has_child(c));
            let ii = seq_char_idx(node0.spec_children(), c);
            assert(0 <= ii < node0.spec_children().len());
            lemma_prefix_cases(sfx, sfx);
            assert(is_prefix_of(sfx, sfx)) by {
                assert(sfx == sfx.take(sfx.len() as int));
            }
        }
        match node {
            TNode::Node(mut n) => {
                let ghost cs = n.children@;
                let j = match find_child(&n.children, c) {
                    Some(j) => j,
                    None => {
                        proof {
                            assert(false);
                        }
                        vstd::pervasive::unreached()
                    },
                };
                let ghost ch = cs[j as int].1;
                proof {
                    lemma_sorted_index_unique(cs, j as int, c);
                    assert(node0.child(c) == ch);
                    assert(ch.wf() && !(ch is Empty));
                }
                if i == key.len() - 1 {
                    proof {
                        assert(sfx_child =~= Seq::<char>::empty());
                        assert(sfx =~= seq![c]);
                    }
                    let child_is_leaf = match &n.children[j].1 {
                        TNode::Leaf(_) => true,
                        _ => false,
                    };
                    if child_is_leaf || remove_subtree {
                        let pair = n.children.remove(j);
                        let bubble = !n.is_terminal && n.children.len() == 0;
                        let out = TNode::Node(n);
                        proof {
                            lemma_remove_child(cs, j as int);
                            assert(out.spec_children() == cs.remove(j as int));
                            assert(out.wf_loose()) by {
                                assert forall|m: int|
                                    0 <= m < out.spec_children().len() implies !((
                                #[trigger] out.spec_children()[m]).1 is Empty)
                                    && out.spec_children()[m].1.wf() by {
                                    if m < j {
                                        assert(out.spec_children()[m] == cs[m]);
                                    } else {
                                        assert(out.spec_children()[m] == cs[m + 1]);
                                    }
                                }
                            }
                            assert(!out.has_child(c));
                            assert forall|k: Seq<char>| #[trigger] out.has_key(k) == (
                            node0.has_key(k) && !(k.len() > 0 && k[0] == c)) by {
                                if k.len() == 0 {
                                } else if k[0] == c {
                                    assert(!out.has_key(k));
                                    if child_is_leaf && !remove_subtree {
                                        assert(node0.has_key(k) == ch.has_key(k.skip(1)));
                                    }
                                } else {
                                    lemma_node_child_model(node0, out, c, k);
                                }
                            }
                            assert forall|k: Seq<char>|
                                k != sfx && #[trigger] out.has_key(k) implies out.content_at(k)
                                == node0.content_at(k) by {
                                if k.len() == 0 {
                                } else if k[0] == c {
                                    assert(!out.has_key(k));
                                } else {
                                    lemma_node_child_model(node0, out, c, k);
                                }
                            }
                            if !remove_subtree {
                                assert forall|k: Seq<char>| k != sfx implies #[trigger] out.has_key(
                                    k,
                                ) == node0.has_key(k) by {
                                    if k.len() > 0 && k[0] == c {
                                        assert(ch.spec_children() =~= Seq::<(
                                            char,
                                            TNode<T>,
                                        )>::empty());
                                        if k.skip(1).len() == 0 {
                                            assert(k =~= seq![c]);
                                        } else {
                                            assert(!ch.has_child(k.skip(1)[0]));
                                            assert(!ch.has_key(k.skip(1)));
                                        }
                                    }
                                }
                            } else {
                                assert forall|k: Seq<char>|
                                    #[trigger] is_prefix_of(sfx, k) == (k.len() > 0 && k[0]
                                    == c) by {
                                    if k.len() > 0 && k[0] == c {
                                        assert(sfx =~= k.take(1));
                                    }
                                    if is_prefix_of(sfx, k) {
                                        assert(sfx[0] == k.take(sfx.len() as int)[0]);
                                    }
                                }
                                assert forall|k: Seq<char>|
                                    is_prefix_of(sfx, k) implies !(#[trigger] out.has_key(k)) by {}
                                assert forall|k: Seq<char>|
                                    !is_prefix_of(sfx, k) implies #[trigger] out.has_key(k)
                                    == node0.has_key(k) by {}
                            }
                            assert(!out.has_key(sfx));
                        }
                        (out, bubble)
                    } else {
                        let pair = n.children.remove(j);
                        match pair.1 {
                            TNode::Node(mut cn) => {
                                proof {
                                    assert(ch.has_key(sfx_child));
                                    assert(cn.is_terminal);
                                }
                                cn.is_terminal = false;
                                let ghost ch2 = TNode::Node(cn);
                                n.children.insert(j, (pair.0, TNode::Node(cn)));
                                let out = TNode::Node(n);
                                proof {
                                    assert(n.children@ =~= cs.update(j as int, (c, ch2)));
                                    lemma_update_child(cs, j as int, ch2);
                                    assert(out.has_child(c) && out.child(c) == ch2);
                                    assert(out.wf_loose()) by {
                                        assert forall|m: int|
                                            0 <= m < out.spec_children().len() implies !((
                                        #[trigger] out.spec_children()[m]).1 is Empty)
                                            && out.spec_children()[m].1.wf() by {
                                            if m == j {
                                                assert(out.spec_children()[m].1 == ch2);
                                                assert(ch2.wf()) by {
                                                    assert(ch2.spec_children() == ch.spec_children());
                                                }
                                            } else {
                                                assert(out.spec_children()[m] == cs[m]);
                                            }
                                        }
                                    }
                                    assert(!ch2.spec_terminal());
                                    assert(!ch2.has_key(sfx_child));
                                    assert(!out.has_key(sfx));
                                    assert forall|k: Seq<char>| k != sfx implies #[trigger] out.has_key(
                                        k,
                                    ) == node0.has_key(k) by {
                                        if k.len() == 0 {
                                        } else if k[0] == c {
                                            assert(out.has_key(k) == ch2.has_key(k.skip(1)));
                                            assert(node0.has_key(k) == ch.has_key(k.skip(1)));
                                            if k.skip(1).len() == 0 {
                                                assert(k =~= seq![c]);
                                            } else {
                                                assert(ch2.has_key(k.skip(1)) == ch.has_key(
                                                    k.skip(1),
                                                )) by {
                                                    assert(ch2.spec_children()
                                                        == ch.spec_children());
                                                }
                                            }
                                        } else {
                                            lemma_node_child_model(node0, out, c, k);
                                        }
                                    }
                                    assert forall|k: Seq<char>|
                                        k != sfx && #[trigger] out.has_key(k) implies out.content_at(
                                        k,
                                    ) == node0.content_at(k) by {
                                        if k.len() == 0 {
                                        } else if k[0] == c {
                                            assert(out.content_at(k) == ch2.content_at(k.skip(1)));
                                            assert(node0.content_at(k) == ch.content_at(k.skip(1)));
                                            assert(ch2.content_at(k.skip(1)) == ch.content_at(
                                                k.skip(1),
                                            )) by {
                                                assert(ch2.spec_children() == ch.spec_children());
                                                assert(ch2.spec_content() == ch.spec_content());
                                            }
                                        } else {
                                            lemma_node_child_model(node0, out, c, k);
                                        }
                                    }
                                }
                                (out, false)
                            },
                            _ => {
                                proof {
                                    assert(false);
                                }
                                vstd::pervasive::unreached()
                            },
                        }
                    }
                } else {
                    proof {
                        if remove_subtree {
                            assert(ch.has_path(sfx_child));
                        } else {
                            assert(ch.has_key(sfx_child));
                        }
                        assert(sfx_child.len() > 0);
                    }
                    let pair = n.children.remove(j);
                    let rr = Self::remove_fn(pair.1, key, i + 1, remove_subtree);
                    proof {
                        assert(remove_post(ch, rr.0, sfx_child, remove_subtree));
                        assert forall|k: Seq<char>| k != sfx && k.len() > 0 && k[0] == c implies k.skip(
                            1,
                        ) != sfx_child by {
                            if k.skip(1) == sfx_child {
                                assert(k.len() == sfx.len());
                                assert forall|m: int| 0 <= m < k.len() implies k[m] == sfx[m] by {
                                    if m > 0 {
                                        assert(k[m] == k.skip(1)[m - 1]);
                                        assert(sfx[m] == sfx.skip(1)[m - 1]);
                                    }
                                }
                                assert(k =~= sfx);
                            }
                        }
                    }
                    if rr.1 {
                        let bubble = !n.is_terminal && n.children.len() == 0;
                        let out = TNode::Node(n);
                        proof {
                            lemma_remove_child(cs, j as int);
                            assert(out.spec_children() == cs.remove(j as int));
                            assert(out.wf_loose()) by {
                                assert forall|m: int|
                                    0 <= m < out.spec_children().len() implies !((
                                #[trigger] out.spec_children()[m]).1 is Empty)
                                    && out.spec_children()[m].1.wf() by {
                                    if m < j {
                                        assert(out.spec_children()[m] == cs[m]);
                                    } else {
                                        assert(out.spec_children()[m] == cs[m + 1]);
                                    }
                                }
                            }
                            assert(!out.has_child(c));
                            assert(!out.has_key(sfx));
                            if !remove_subtree {
                                assert forall|k: Seq<char>| k != sfx implies #[trigger] out.has_key(
                                    k,
                                ) == node0.has_key(k) by {
                                    if k.len() == 0 {
                                    } else if k[0] == c {
                                        assert(node0.has_key(k) == ch.has_key(k.skip(1)));
                                        assert(k.skip(1) != sfx_child);
                                        assert(rr.0.has_key(k.skip(1)) == ch.has_key(k.skip(1)));
                                        lemma_no_keys(rr.0, k.skip(1));
                                        assert(!out.has_key(k));
                                    } else {
                                        lemma_node_child_model(node0, out, c, k);
                                    }
                                }
                            } else {
                                assert forall|k: Seq<char>|
                                    is_prefix_of(sfx, k) implies !(#[trigger] out.has_key(k)) by {
                                    lemma_prefix_cases(sfx, k);
                                }
                                assert forall|k: Seq<char>|
                                    !is_prefix_of(sfx, k) implies #[trigger] out.has_key(k)
                                    == node0.has_key(k) by {
                                    lemma_prefix_cases(sfx, k);
                                    if k.len() == 0 {
                                    } else if k[0] == c {
                                        assert(!is_prefix_of(sfx_child, k.skip(1)));
                                        assert(node0.has_key(k) == ch.has_key(k.skip(1)));
                                        assert(rr.0.has_key(k.skip(1)) == ch.has_key(k.skip(1)));
                                        lemma_no_keys(rr.0, k.skip(1));
                                        assert(!out.has_key(k));
                                    } else {
                                        lemma_node_child_model(node0, out, c, k);
                                    }
                                }
                            }
                            assert forall|k: Seq<char>|
                                k != sfx && #[trigger] out.has_key(k) implies out.content_at(k)
                                == node0.content_at(k) by {
                                if k.len() == 0 {
                                } else if k[0] == c {
                                    assert(!out.has_key(k));
                                } else {
                                    lemma_node_child_model(node0, out, c, k);
                                }
                            }
                        }
                        (out, bubble)
                    } else {
                        let mut ch2 = rr.0;
                        let ghost ch2pre = ch2;
                        if ch2.is_childless() {
                            ch2.to_leaf();
                        }
                        let ghost ch2g = ch2;
                        proof {
                            assert(ch2g.spec_terminal() == ch2pre.spec_terminal());
                            assert(ch2g.spec_content() == ch2pre.spec_content());
                            assert(ch2g.spec_children() =~= ch2pre.spec_children());
                            assert forall|k: Seq<char>| #[trigger] ch2g.has_key(k)
                                == ch2pre.has_key(k) by {
                                lemma_same_model(ch2pre, ch2g, k);
                            }
                            assert forall|k: Seq<char>| #[trigger] ch2g.content_at(k)
                                == ch2pre.content_at(k) by {
                                lemma_same_model(ch2pre, ch2g, k);
                            }
                            assert(ch2g.wf()) by {
                                if ch2g is Node {
                                    assert(ch2g.spec_children().len() >= 1);
                                }
                            }
                            assert(!(ch2g is Empty));
                        }
                        n.children.insert(j, (pair.0, ch2));
                        let out = TNode::Node(n);
                        proof {
                            assert(n.children@ =~= cs.update(j as int, (c, ch2g)));
                            lemma_update_child(cs, j as int, ch2g);
                            assert(out.has_child(c) && out.child(c) == ch2g);
                            assert(out.wf_loose()) by {
                                assert forall|m: int|
                                    0 <= m < out.spec_children().len() implies !((
                                #[trigger] out.spec_children()[m]).1 is Empty)
                                    && out.spec_children()[m].1.wf() by {
                                    if m == j {
                                        assert(out.spec_children()[m].1 == ch2g);
                                    } else {
                                        assert(out.spec_children()[m] == cs[m]);
                                    }
                                }
                            }
                            assert(!out.has_key(sfx)) by {
                                assert(!ch2pre.has_key(sfx_child));
                                assert(!ch2g.has_key(sfx_child));
                            }
                            if !remove_subtree {
                                assert forall|k: Seq<char>| k != sfx implies #[trigger] out.has_key(
                                    k,
                                ) == node0.has_key(k) by {
                                    if k.len() == 0 {
                                    } else if k[0] == c {
                                        assert(out.has_key(k) == ch2g.has_key(k.skip(1)));
                                        assert(node0.has_key(k) == ch.has_key(k.skip(1)));
                                        assert(k.skip(1) != sfx_child);
                                        assert(ch2pre.has_key(k.skip(1)) == ch.has_key(k.skip(1)));
                                    } else {
                                        lemma_node_child_model(node0, out, c, k);
                                    }
                                }
                            } else {
                                assert forall|k: Seq<char>|
                                    is_prefix_of(sfx, k) implies !(#[trigger] out.has_key(k)) by {
                                    lemma_prefix_cases(sfx, k);
                                    assert(k.len() > 0 && k[0] == c);
                                    assert(is_prefix_of(sfx_child, k.skip(1)));
                                    assert(!ch2pre.has_key(k.skip(1)));
                                    assert(out.has_key(k) == ch2g.has_key(k.skip(1)));
                                }
                                assert forall|k: Seq<char>|
                                    !is_prefix_of(sfx, k) implies #[trigger] out.has_key(k)
                                    == node0.has_key(k) by {
                                    lemma_prefix_cases(sfx, k);
                                    if k.len() == 0 {
                                    } else if k[0] == c {
                                        assert(!is_prefix_of(sfx_child, k.skip(1)));
                                        assert(out.has_key(k) == ch2g.has_key(k.skip(1)));
                                        assert(node0.has_key(k) == ch.has_key(k.skip(1)));
                                        assert(ch2pre.has_key(k.skip(1)) == ch.has_key(k.skip(1)));
                                    } else {
                                        lemma_node_child_model(node0, out, c, k);
                                    }
                                }
                            }
                            assert forall|k: Seq<char>|
                                k != sfx && #[trigger] out.has_key(k) implies out.content_at(k)
                                == node0.content_at(k) by {
                                if k.len() == 0 {
                                } else if k[0] == c {
                                    assert(out.has_key(k) == ch2g.has_key(k.skip(1)));
                                    assert(out.content_at(k) == ch2g.content_at(k.skip(1)));
                                    assert(node0.content_at(k) == ch.content_at(k.skip(1)));
                                    assert(k.skip(1) != sfx_child);
                                    assert(ch2pre.content_at(k.skip(1)) == ch.content_at(
                                        k.skip(1),
                                    ));
                                } else {
                                    lemma_node_child_model(node0, out, c, k);
                                }
                            }
                        }
                        (out, false)
                    }
                }
            },
            _ => {
                proof {
                    assert(false);
                }
                vstd::pervasive::unreached()
            },
        }
    }

    /// Removes `s` from the trie.  Without `remove_subtree` only the exact
    /// key is removed (a branch keeps its children and merely loses its
    /// terminal mark); with it the whole subtree below the key is dropped.
    /// Dead paths are pruned: no childless branch survives the removal.
    pub fn remove(&mut self, s: &str, remove_subtree: bool) -> (r: bool)
        requires
            old(self).wf(),
            s@.len() > 0,
        ensures
            final(self).wf(),
            r == if remove_subtree {
                old(self).has_path(s@)
            } else {
                old(self).has_key(s@)
            },
            !r ==> *final(self) == *old(self),
            r ==> remove_post(*old(self), *final(self), s@, remove_subtree),
    {
        let ks = chars_of(s);
        proof {
            assert(ks@.skip(0) =~= s@);
            lemma_wf_loose(*old(self));
        }
        let hit = if remove_subtree {
            self.has_path_at(&ks, 0)
        } else {
            self.has_key_at(&ks, 0)
        };
        if !hit {
            return false;
        }
        let mut tmp = TNode::Empty;
        core::mem::swap(self, &mut tmp);
        let rr = Self::remove_fn(tmp, &ks, 0, remove_subtree);
        let mut out = rr.0;
        let ghost outpre = out;
        if out.is_childless() {
            if out.is_terminal() {
                out.to_leaf();
            } else {
                out.to_empty();
            }
        }
        proof {
            assert forall|k: Seq<char>| #[trigger] out.has_key(k) == outpre.has_key(k) by {
                if outpre.spec_children().len() == 0 && !outpre.spec_terminal() {
                    lemma_no_keys(outpre, k);
                    lemma_empty_model::<T>(k);
                } else {
                    assert(outpre.spec_children() =~= out.spec_children());
                    lemma_same_model(outpre, out, k);
                }
            }
            assert forall|k: Seq<char>|
                #[trigger] out.content_at(k) == outpre.content_at(k) || !out.has_key(k) by {
                if outpre.spec_children().len() == 0 && !outpre.spec_terminal() {
                    lemma_empty_model::<T>(k);
                } else {
                    assert(outpre.spec_children() =~= out.spec_children());
                    lemma_same_model(outpre, out, k);
                }
            }
            assert(out.wf()) by {
                if out is Node {
                    assert(out.spec_children().len() >= 1);
                }
            }
        }
        *self = out;
        proof {
            assert(remove_post(*old(self), *final(self), s@, remove_subtree)) by {
                assert forall|k: Seq<char>|
                    (if remove_subtree {
                        !is_prefix_of(s@, k)
                    } else {
                        k != s@
                    }) implies #[trigger] out.has_key(k) == old(self).has_key(k) by {
                    assert(outpre.has_key(k) == old(self).has_key(k));
                }
                if remove_subtree {
                    assert forall|k: Seq<char>|
                        is_prefix_of(s@, k) implies !(#[trigger] out.has_key(k)) by {
                        assert(!outpre.has_key(k));
                    }
                }
                assert forall|k: Seq<char>|
                    k != s@ && out.has_key(k) implies #[trigger] out.content_at(k) == old(
                        self,
                    ).content_at(k) by {
                    assert(out.content_at(k) == outpre.content_at(k) || !out.has_key(k));
                    assert(outpre.has_key(k));
                }
                assert(!out.has_key(s@)) by {
                    assert(!outpre.has_key(s@));
                }
            }
        }
        true
    }
}

/// The indentation one level deeper, capped at the machine limit.
pub open spec fn bump_indent(i: usize) -> usize {
    if i == usize::MAX {
        i
    } else {
        (i + 1) as usize
    }
}

/// The rendering of the children of a branch, in code-point order.  Each
/// child starts on a fresh indented line only when the branch is terminal or
/// has several children; a lone child of a pass-through branch continues on
/// the same line.
pub open spec fn pp_children_spec<T: Content>(
    ch: Seq<(char, TNode<T>)>,
    parent_terminal: bool,
    multi: bool,
    indent: usize,
    show: bool,
) -> Seq<char>
    decreases ch,
{
    if ch.len() == 0 {
        Seq::empty()
    } else {
        (if parent_terminal || multi {
            (if indent != 0 {
                seq!['\n']
            } else {
                Seq::<char>::empty()
            }) + Seq::new(indent as nat, |x: int| ' ')
        } else {
            Seq::<char>::empty()
        }) + seq![ch[0].0] + ch[0].1.pp_spec(bump_indent(indent), show) + pp_children_spec(
            ch.skip(1),
            parent_terminal,
            multi,
            indent,
            show,
        )
    }
}

impl<T: Content> TNode<T> {
    /// The rendering of this node at the given indentation depth: the fixed
    /// placeholder token for `Empty`, the optional payload and a line break
    /// for a leaf, and the rendered children for a branch.
    pub open spec fn pp_spec(self, indent: usize, show: bool) -> Seq<char>
        decreases self,
    {
        match self {
            TNode::Empty => "[empty]\n"@,
            TNode::Leaf(l) => (if show {
                match l.content {
                    Some(v) => "  ("@ + v.render_spec() + ")"@,
                    None => Seq::<char>::empty(),
                }
            } else {
                Seq::<char>::empty()
            }) + seq!['\n'],
            TNode::Node(n) => pp_children_spec(
                n.children@,
                n.is_terminal,
                n.children@.len() > 1,
                indent,
                show,
            ),
        }
    }

    /// Renders the tree shape, with stored payloads when `print_content` is
    /// set.
    pub fn pp(&self, print_content: bool) -> (r: String)
        ensures
            r@ == self.pp_spec(0, print_content),
    {
        self.pp_fn(0, print_content)
    }

    /// Renders this node at the given indentation depth.
    #[verifier::rlimit(100)]
    fn pp_fn(&self, indent: usize, print_content: bool) -> (r: String)
        ensures
            r@ == self.pp_spec(indent, print_content),
        decreases *self,
    {
        match self {
            TNode::Empty => {
                let mut r = String::new();
                r.append("[empty]\n");
                proof {
                    assert(Seq::<char>::empty() + "[empty]\n"@ =~= "[empty]\n"@);
                }
                r
            },
            TNode::Leaf(l) => {
                let mut r = String::new();
                if print_content {
                    match &l.content {
                        Some(v) => {
                            r.append("  (");
                            let vs = v.render();
                            r.append(vs.as_str());
                            r.append(")");
                            proof {
                                assert(((Seq::<char>::empty() + "  ("@) + v.render_spec())
                                    + ")"@ =~= "  ("@ + v.render_spec() + ")"@);
                            }
                        },
                        None => {},
                    }
                }
                push_char(&mut r, '\n');
                proof {
                    assert(r@ =~= self.pp_spec(indent, print_content));
                }
                r
            },
            TNode::Node(n) => {
                let mut r = String::new();
                let ghost cs = n.children@;
                let ghost pt = n.is_terminal;
                let ghost multi = n.children@.len() > 1;
                let count = n.children.len();
                let mut idx: usize = 0;
                proof {
                    assert(cs.skip(0) =~= cs);
                    assert(Seq::<char>::empty() + pp_children_spec(
                        cs,
                        pt,
                        multi,
                        indent,
                        print_content,
                    ) =~= pp_children_spec(cs, pt, multi, indent, print_content));
                }
                while idx < count
                    invariant
                        idx <= count,
                        count == cs.len(),
                        cs == n.children@,
                        pt == n.is_terminal,
                        multi == (cs.len() > 1),
                        *self == TNode::Node(*n),
                        pp_children_spec(cs, pt, multi, indent, print_content) == r@
                            + pp_children_spec(
                            cs.skip(idx as int),
                            pt,
                            multi,
                            indent,
                            print_content,
                        ),
                    decreases count - idx,
                {
                    let ghost r0 = r@;
                    let ghost rest = cs.skip(idx as int);
                    proof {
                        assert(rest.len() > 0);
                        assert(rest[0] == cs[idx as int]);
                        assert(rest.skip(1) =~= cs.skip(idx as int + 1));
                    }
                    if n.is_terminal || count > 1 {
                        if indent != 0 {
                            push_char(&mut r, '\n');
                        }
                        let sp = crate::chars::spaces(indent);
                        r.append(sp.as_str());
                    }
                    push_char(&mut r, n.children[idx].0);
                    let next_indent = if indent == usize::MAX {
                        indent
                    } else {
                        indent + 1
                    };
                    proof {
                        assert(decreases_to!(*self => (*self)->Node_0));
                        let nd = (*self)->Node_0;
                        assert(nd == *n);
                        assert(decreases_to!(nd => nd.children));
                        assert(decreases_to!(nd.children => nd.children@));
                        assert(decreases_to!(nd.children@ => nd.children@[idx as int]));
                        assert(decreases_to!(nd.children@[idx as int] => nd.children@[idx as int].1));
                        assert(decreases_to!(*self => n.children@[idx as int].1));
                    }
                    let sub = n.children[idx].1.pp_fn(next_indent, print_content);
                    r.append(sub.as_str());
                    proof {
                        let seg = (if pt || multi {
                            (if indent != 0 {
                                seq!['\n']
                            } else {
                                Seq::<char>::empty()
                            }) + Seq::new(indent as nat, |x: int| ' ')
                        } else {
                            Seq::<char>::empty()
                        }) + seq![cs[idx as int].0] + cs[idx as int].1.pp_spec(
                            bump_indent(indent),
                            print_content,
                        );
                        assert(next_indent == bump_indent(indent));
                        assert(r@ =~= r0 + seg);
                        assert(pp_children_spec(rest, pt, multi, indent, print_content) == seg
                            + pp_children_spec(rest.skip(1), pt, multi, indent, print_content));
                        assert(r0 + (seg + pp_children_spec(
                            rest.skip(1),
                            pt,
                            multi,
                            indent,
                            print_content,
                        )) =~= (r0 + seg) + pp_children_spec(
                            rest.skip(1),
                            pt,
                            multi,
                            indent,
                            print_content,
                        ));
                    }
                    idx = idx + 1;
                }
                proof {
                    assert(cs.skip(count as int) =~= Seq::<(char, TNode<T>)>::empty());
                    assert(r@ + Seq::<char>::empty() =~= r@);
                }
                r
            },
        }
    }
}

impl<T> TNode<T> {
    /// No branch node anywhere in the tree has zero children.
    pub open spec fn no_dangling_branch(self) -> bool
        decreases self,
    {
        match self {
            TNode::Node(n) => {
                &&& n.children@.len() >= 1
                &&& forall|i: int|
                    0 <= i < n.children@.len() ==> (
                    #[trigger] n.children@[i]).1.no_dangling_branch()
            },
            _ => true,
        }
    }
}

/// Insert/lookup round trip: a successful insertion of `key` with payload
/// `p` stores the key, so an exact terminal lookup of `key` reaches a node
/// whose payload is exactly `p`.
pub proof fn lemma_insert_lookup_roundtrip<T>(
    t0: TNode<T>,
    t1: TNode<T>,
    key: Seq<char>,
    p: Option<T>,
)
    requires
        add_post(t0, t1, key, p),
    ensures
        t1.has_key(key),
        t1.has_path(key),
        t1.node_at(key).spec_terminal(),
        t1.node_at(key).spec_content() == p,
{
    lemma_key_path(t1, key);
}

/// Duplicate rejection: a successful insertion stores the key, so by `add`'s
/// contract a second insertion of the same key, with any payload, returns
/// `KeyExists` and leaves the trie unchanged.
pub proof fn lemma_duplicate_rejected<T>(t0: TNode<T>, t1: TNode<T>, key: Seq<char>, p: Option<T>)
    requires
        add_post(t0, t1, key, p),
    ensures
        t1.has_key(key),
{
}

/// Prefix monotonicity: among the prefixes of a query `q`, a stored prefix
/// that no longer stored prefix of `q` follows is unique.  `longest_prefix`
/// with the terminal requirement promises exactly these properties of its
/// result, so on such a query it returns exactly that prefix.
pub proof fn lemma_longest_terminal_prefix_unique<T>(
    t: TNode<T>,
    q: Seq<char>,
    p1: Seq<char>,
    p2: Seq<char>,
)
    requires
        is_prefix_of(p1, q),
        t.has_key(p1),
        forall|m: int| p1.len() < m <= q.len() ==> !t.has_key(#[trigger] q.take(m)),
        is_prefix_of(p2, q),
        t.has_key(p2),
        forall|m: int| p2.len() < m <= q.len() ==> !t.has_key(#[trigger] q.take(m)),
    ensures
        p1 == p2,
{
    if p1.len() < p2.len() {
        assert(t.has_key(q.take(p2.len() as int)));
    }
    if p2.len() < p1.len() {
        assert(t.has_key(q.take(p1.len() as int)));
    }
}

/// Remove/lookup consistency: after a plain removal of `key`, the key is no
/// longer stored, while every other key — in particular every stored strict
/// extension of `key` — is still stored, with its payload.
pub proof fn lemma_remove_keeps_others<T>(t0: TNode<T>, t1: TNode<T>, key: Seq<char>, k2: Seq<char>)
    requires
        remove_post(t0, t1, key, false),
        k2 != key,
    ensures
        !t1.has_key(key),
        t1.has_key(k2) == t0.has_key(k2),
        t1.has_key(k2) ==> t1.content_at(k2) == t0.content_at(k2),
{
}

/// Subtree removal: after a subtree removal of `key`, no key having `key` as
/// a prefix — `key` itself included — is stored any more, and every key not
/// extending `key` is untouched.
pub proof fn lemma_remove_subtree_drops_extensions<T>(
    t0: TNode<T>,
    t1: TNode<T>,
    key: Seq<char>,
    k2: Seq<char>,
)
    requires
        remove_post(t0, t1, key, true),
    ensures
        !t1.has_key(key),
        is_prefix_of(key, k2) ==> !t1.has_key(k2),
        !is_prefix_of(key, k2) ==> t1.has_key(k2) == t0.has_key(k2),
{
}

/// No dangling branches: the invariant that every operation of this module
/// establishes and preserves rules out a childless branch node anywhere in
/// the tree.
pub proof fn lemma_wf_no_dangling<T>(t: TNode<T>)
    requires
        t.wf(),
    ensures
        t.no_dangling_branch(),
    decreases t,
{
    match t {
        TNode::Node(n) => {
            assert forall|i: int| 0 <= i < n.children@.len() implies (
            #[trigger] n.children@[i]).1.no_dangling_branch() by {
                lemma_wf_no_dangling(n.children@[i].1);
            }
        },
        _ => {},
    }
}

} // verus!
