//! A simpler trie variant whose every node carries a child map: no node
//! states, insertion that overwrites, and a compact rendering that folds
//! single-child chains onto one line.

use vstd::prelude::*;

use crate::chars::chars_of;
use crate::chars::prefix_vec;
use crate::chars::push_char;
use crate::trie::bump_indent;
use crate::trie::is_prefix_of;
use vstd::string::StringExecFns;

verus! {

/// A trie node: terminal mark, optional payload, and children keyed by the
/// next code point, kept in ascending code-point order.
pub struct TNode<T> {
    pub is_terminal: bool,
    pub content: Option<T>,
    pub children: Vec<(char, TNode<T>)>,
}

/// A trie handle owning the root node, which stands for the empty key.
pub struct Trie<T> {
    pub root: TNode<T>,
}

/// Flags describing the outcome of a prefix search: whether the matched node
/// is terminal, and whether the whole query was consumed.
pub struct LongestPrefFlags {
    pub is_terminal: bool,
    pub full_match: bool,
}

/// The child keys of `s` are in strictly ascending code-point order.
pub open spec fn sorted_children<T>(s: Seq<(char, TNode<T>)>) -> bool {
    forall|i: int, j: int|
        0 <= i < j < s.len() ==> ((#[trigger] s[i]).0 as u32) < ((#[trigger] s[j]).0 as u32)
}

/// Some entry of `s` is keyed by the code point `c`.
pub open spec fn seq_has_char<T>(s: Seq<(char, TNode<T>)>, c: char) -> bool {
    exists|i: int| 0 <= i < s.len() && (#[trigger] s[i]).0 == c
}

/// An index of the entry of `s` keyed by `c` (unique when `s` is sorted).
pub open spec fn seq_char_idx<T>(s: Seq<(char, TNode<T>)>, c: char) -> int {
    choose|i: int| 0 <= i < s.len() && (#[trigger] s[i]).0 == c
}

/// The child node of `s` keyed by `c`.
pub open spec fn seq_child<T>(s: Seq<(char, TNode<T>)>, c: char) -> TNode<T> {
    s[seq_char_idx(s, c)].1
}

impl<T> TNode<T> {
    /// This node has a child keyed by `c`.
    pub open spec fn has_child(self, c: char) -> bool {
        seq_has_char(self.children@, c)
    }

    /// The child keyed by `c` (meaningful when `has_child(c)`).
    pub open spec fn child(self, c: char) -> TNode<T> {
        seq_child(self.children@, c)
    }

    /// Structural invariant: children are strictly sorted by code point,
    /// recursively.
    pub open spec fn wf(self) -> bool
        decreases self,
    {
        &&& sorted_children(self.children@)
        &&& forall|i: int| 0 <= i < self.children@.len() ==> (#[trigger] self.children@[i]).1.wf()
    }

    /// The path spelled by `q` leads from this node to some node.
    pub open spec fn has_path(self, q: Seq<char>) -> bool
        decreases q.len(),
    {
        q.len() > 0 ==> self.has_child(q[0]) && self.child(q[0]).has_path(q.skip(1))
    }

    /// The node reached by walking `q` (meaningful when `has_path(q)`).
    pub open spec fn node_at(self, q: Seq<char>) -> TNode<T>
        decreases q.len(),
    {
        if q.len() == 0 {
            self
        } else {
            self.child(q[0]).node_at(q.skip(1))
        }
    }

    /// The key `q` is stored: walking `q` reaches a terminal node.
    pub open spec fn has_key(self, q: Seq<char>) -> bool
        decreases q.len(),
    {
        if q.len() == 0 {
            self.is_terminal
        } else {
            self.has_child(q[0]) && self.child(q[0]).has_key(q.skip(1))
        }
    }

    /// The payload stored at the node reached by `q`, or `None` when the
    /// path does not exist.
    pub open spec fn content_at(self, q: Seq<char>) -> Option<T>
        decreases q.len(),
    {
        if q.len() == 0 {
            self.content
        } else if self.has_child(q[0]) {
            self.child(q[0]).content_at(q.skip(1))
        } else {
            None
        }
    }

    /// A fresh node with the given payload: not terminal, no children.
    pub fn new(content: Option<T>) -> (r: TNode<T>)
        ensures
            !r.is_terminal,
            r.content == content,
            r.children@ == Seq::<(char, TNode<T>)>::empty(),
    {
        TNode { is_terminal: false, content, children: Vec::new() }
    }
}

/// In a sorted child list the index of a key is unique, so an entry found at
/// `j` is the entry the lookup specification denotes.
pub proof fn lemma_sorted_index_unique<T>(s: Seq<(char, TNode<T>)>, j: int, c: char)
    requires
        sorted_children(s),
        0 <= j < s.len(),
        s[j].0 == c,
    ensures
        seq_has_char(s, c),
        seq_char_idx(s, c) == j,
        seq_child(s, c) == s[j].1,
{
    assert(seq_has_char(s, c));
    let i = seq_char_idx(s, c);
    assert(0 <= i < s.len() && s[i].0 == c);
    if i < j {
        assert((s[i].0 as u32) < (s[j].0 as u32));
    }
    if j < i {
        assert((s[j].0 as u32) < (s[i].0 as u32));
    }
}

/// A well-formed node hands a well-formed node to each of its child keys.
pub proof fn lemma_wf_child<T>(t: TNode<T>, c: char)
    requires
        t.wf(),
        t.has_child(c),
    ensures
        t.child(c).wf(),
{
    let i = seq_char_idx(t.children@, c);
    assert(0 <= i < t.children@.len() && t.children@[i].0 == c);
}

/// Splitting a walk: walking `p + r` is walking `p`, then walking `r` from
/// the node reached.
pub proof fn lemma_path_decompose<T>(t: TNode<T>, p: Seq<char>, r: Seq<char>)
    requires
        t.has_path(p),
    ensures
        t.has_path(p + r) == t.node_at(p).has_path(r),
        t.has_key(p + r) == t.node_at(p).has_key(r),
        t.content_at(p + r) == t.node_at(p).content_at(r),
        t.node_at(p + r) == t.node_at(p).node_at(r),
    decreases p.len(),
{
    if p.len() == 0 {
        assert(p + r =~= r);
    } else {
        let c = p[0];
        assert((p + r)[0] == c);
        assert((p + r).skip(1) =~= p.skip(1) + r);
        lemma_path_decompose(t.child(c), p.skip(1), r);
    }
}

/// A prefix of an existing path is itself a path.
pub proof fn lemma_path_take<T>(t: TNode<T>, q: Seq<char>, i: int)
    requires
        t.has_path(q),
        0 <= i <= q.len(),
    ensures
        t.has_path(q.take(i)),
    decreases i,
{
    if i == 0 {
        assert(q.take(0) =~= Seq::<char>::empty());
    } else {
        lemma_path_take(t.child(q[0]), q.skip(1), i - 1);
        assert(q.take(i)[0] == q[0]);
        assert(q.take(i).skip(1) =~= q.skip(1).take(i - 1));
    }
}

/// A stored key marks a real node: `has_key` means the path exists and ends
/// at a terminal node, whose payload is the payload at the key.
pub proof fn lemma_key_path<T>(t: TNode<T>, q: Seq<char>)
    ensures
        t.has_key(q) ==> t.has_path(q),
        t.has_path(q) ==> t.has_key(q) == t.node_at(q).is_terminal,
        t.has_path(q) ==> t.content_at(q) == t.node_at(q).content,
    decreases q.len(),
{
    if q.len() > 0 {
        if t.has_child(q[0]) {
            lemma_key_path(t.child(q[0]), q.skip(1));
        }
    }
}

/// Replacing the child at `j` while keeping its key preserves sortedness and
/// changes exactly that key's lookup.
pub proof fn lemma_update_child<T>(s: Seq<(char, TNode<T>)>, j: int, v: TNode<T>)
    requires
        sorted_children(s),
        0 <= j < s.len(),
    ensures
        sorted_children(s.update(j, (s[j].0, v))),
        forall|x: char| #[trigger] seq_has_char(s.update(j, (s[j].0, v)), x) == seq_has_char(s, x),
        seq_child(s.update(j, (s[j].0, v)), s[j].0) == v,
        forall|x: char|
            x != s[j].0 && seq_has_char(s, x) ==> #[trigger] seq_child(s.update(j, (s[j].0, v)), x)
                == seq_child(s, x),
{
    let s2 = s.update(j, (s[j].0, v));
    assert forall|i: int| 0 <= i < s.len() implies (#[trigger] s2[i]).0 == s[i].0 by {}
    assert forall|x: char| #[trigger] seq_has_char(s2, x) == seq_has_char(s, x) by {
        if seq_has_char(s2, x) {
            let i = seq_char_idx(s2, x);
            assert(0 <= i < s2.len() && s2[i].0 == x);
            assert(s[i].0 == x);
        }
        if seq_has_char(s, x) {
            let i = seq_char_idx(s, x);
            assert(0 <= i < s.len() && s[i].0 == x);
            assert(s2[i].0 == x);
        }
    }
    lemma_sorted_index_unique(s2, j, s[j].0);
    assert forall|x: char| x != s[j].0 && seq_has_char(s, x) implies #[trigger] seq_child(s2, x)
        == seq_child(s, x) by {
        let i = seq_char_idx(s, x);
        assert(0 <= i < s.len() && s[i].0 == x);
        lemma_sorted_index_unique(s, i, x);
        lemma_sorted_index_unique(s2, i, x);
    }
}

/// Inserting a new key at its sorted position keeps the list sorted and adds
/// exactly that key's lookup.
pub proof fn lemma_insert_child<T>(s: Seq<(char, TNode<T>)>, jj: int, c: char, v: TNode<T>)
    requires
        sorted_children(s),
        0 <= jj <= s.len(),
        forall|i: int| 0 <= i < jj ==> ((#[trigger] s[i]).0 as u32) < (c as u32),
        forall|i: int| jj <= i < s.len() ==> (c as u32) < ((#[trigger] s[i]).0 as u32),
    ensures
        sorted_children(s.insert(jj, (c, v))),
        seq_has_char(s.insert(jj, (c, v)), c),
        seq_child(s.insert(jj, (c, v)), c) == v,
        forall|x: char|
            x != c ==> #[trigger] seq_has_char(s.insert(jj, (c, v)), x) == seq_has_char(s, x),
        forall|x: char|
            x != c && seq_has_char(s, x) ==> #[trigger] seq_child(s.insert(jj, (c, v)), x)
                == seq_child(s, x),
{
    let s2 = s.insert(jj, (c, v));
    assert(s2.len() == s.len() + 1);
    assert forall|i: int| 0 <= i < jj implies s2[i] == s[i] by {}
    assert(s2[jj] == (c, v));
    assert forall|i: int| jj < i < s2.len() implies s2[i] == s[i - 1] by {}
    assert forall|i: int, i2: int| 0 <= i < i2 < s2.len() implies ((#[trigger] s2[i]).0 as u32) < ((
    #[trigger] s2[i2]).0 as u32) by {
        if i2 < jj {
        } else if i2 == jj {
        } else if i < jj {
            if jj <= i2 - 1 {
                assert((c as u32) < (s[i2 - 1].0 as u32));
                assert((s[i].0 as u32) < (c as u32));
            }
        } else if i == jj {
            assert((c as u32) < (s[i2 - 1].0 as u32));
        } else {
            assert((s[i - 1].0 as u32) < (s[i2 - 1].0 as u32));
        }
    }
    lemma_sorted_index_unique(s2, jj, c);
    assert forall|x: char| x != c implies #[trigger] seq_has_char(s2, x) == seq_has_char(s, x) by {
        if seq_has_char(s2, x) {
            let i = seq_char_idx(s2, x);
            assert(0 <= i < s2.len() && s2[i].0 == x);
            if i < jj {
                assert(s[i].0 == x);
            } else {
                assert(i != jj);
                assert(s[i - 1].0 == x);
            }
        }
        if seq_has_char(s, x) {
            let i = seq_char_idx(s, x);
            assert(0 <= i < s.len() && s[i].0 == x);
            if i < jj {
                assert(s2[i].0 == x);
            } else {
                assert(s2[i + 1].0 == x);
            }
        }
    }
    assert forall|x: char| x != c && seq_has_char(s, x) implies #[trigger] seq_child(s2, x)
        == seq_child(s, x) by {
        let i = seq_char_idx(s, x);
        assert(0 <= i < s.len() && s[i].0 == x);
        lemma_sorted_index_unique(s, i, x);
        if i < jj {
            assert(s2[i].0 == x);
            lemma_sorted_index_unique(s2, i, x);
        } else {
            assert(s2[i + 1].0 == x);
            lemma_sorted_index_unique(s2, i + 1, x);
        }
    }
}

/// Changing only the child keyed by `c` changes only the keys that route
/// through `c`.
pub proof fn lemma_node_child_model<T>(a: TNode<T>, b: TNode<T>, c: char, k: Seq<char>)
    requires
        a.is_terminal == b.is_terminal,
        a.content == b.content,
        k.len() == 0 || k[0] != c,
        forall|x: char| x != c ==> #[trigger] a.has_child(x) == b.has_child(x),
        forall|x: char| x != c && a.has_child(x) ==> #[trigger] a.child(x) == b.child(x),
    ensures
        a.has_key(k) == b.has_key(k),
        a.content_at(k) == b.content_at(k),
{
    if k.len() == 0 {
    } else {
        assert(a.has_child(k[0]) == b.has_child(k[0]));
        if a.has_child(k[0]) {
            assert(a.child(k[0]) == b.child(k[0]));
        }
    }
}

/// A node with no children and no terminal mark stores no key.
pub proof fn lemma_no_keys<T>(t: TNode<T>, k: Seq<char>)
    requires
        t.children@.len() == 0,
        !t.is_terminal,
    ensures
        !t.has_key(k),
{
    if k.len() > 0 {
        assert(!t.has_child(k[0]));
    }
}

/// Finds the position of the child keyed by `c` in a child list.
fn find_child<T>(children: &Vec<(char, TNode<T>)>, c: char) -> (r: Option<usize>)
    ensures
        match r {
            Some(j) => j < children@.len() && children@[j as int].0 == c,
            None => !seq_has_char(children@, c),
        },
{
    let n = children.len();
    let mut j: usize = 0;
    while j < n
        invariant
            j <= n,
            n == children@.len(),
            forall|i: int| 0 <= i < j ==> (#[trigger] children@[i]).0 != c,
        decreases n - j,
    {
        if children[j].0 == c {
            return Some(j);
        }
        j = j + 1;
    }
    None
}

/// The position where a new child keyed by `c` keeps the child list sorted.
fn insertion_point<T>(children: &Vec<(char, TNode<T>)>, c: char) -> (r: usize)
    requires
        sorted_children(children@),
        !seq_has_char(children@, c),
    ensures
        r <= children@.len(),
        forall|i: int| 0 <= i < r ==> ((#[trigger] children@[i]).0 as u32) < (c as u32),
        forall|i: int| r <= i < children@.len() ==> (c as u32) < ((#[trigger] children@[i]).0 as u32),
{
    let n = children.len();
    let cu = c as u32;
    let mut j: usize = 0;
    while j < n
        invariant
            j <= n,
            n == children@.len(),
            cu == c as u32,
            sorted_children(children@),
            !seq_has_char(children@, c),
            forall|i: int| 0 <= i < j ==> ((#[trigger] children@[i]).0 as u32) < (c as u32),
        decreases n - j,
    {
        let cj = children[j].0 as u32;
        if cj >= cu {
            proof {
                assert(children@[j as int].0 != c) by {
                    if children@[j as int].0 == c {
                        assert(seq_has_char(children@, c));
                    }
                }
                crate::trie::lemma_char_neq_u32(children@[j as int].0, c);
                assert forall|i: int| j <= i < n implies (c as u32) < (
                (#[trigger] children@[i]).0 as u32) by {
                    if i > j {
                        assert((children@[j as int].0 as u32) < (children@[i].0 as u32));
                    }
                }
            }
            return j;
        }
        j = j + 1;
    }
    n
}

/// What an insertion of `key` with payload `cont` does to this trie: the key
/// becomes stored with exactly that payload — overwriting any earlier payload
/// and terminal state — and every other key and payload is untouched.
pub open spec fn add_post<T>(t0: TNode<T>, t1: TNode<T>, key: Seq<char>, cont: Option<T>) -> bool {
    &&& t1.wf()
    &&& t1.has_key(key)
    &&& t1.content_at(key) == cont
    &&& forall|k: Seq<char>| k != key ==> #[trigger] t1.has_key(k) == t0.has_key(k)
    &&& forall|k: Seq<char>| k != key ==> #[trigger] t1.content_at(k) == t0.content_at(k)
}

/// Inserts the suffix of `key` from `i` on below `node`, walking and creating
/// nodes one code point at a time; the key's payload and terminal mark are
/// set unconditionally.
#[verifier::rlimit(50)]
fn add_rec<T>(node: TNode<T>, key: &Vec<char>, i: usize, cont: Option<T>) -> (out: TNode<T>)
    requires
        node.wf(),
        i <= key@.len(),
    ensures
        add_post(node, out, key@.skip(i as int), cont),
        out.is_terminal == (key@.skip(i as int).len() == 0 || node.is_terminal),
    decreases key@.len() - i,
{
    let ghost sfx = key@.skip(i as int);
    let ghost node0 = node;
    if i == key.len() {
        proof {
            assert(sfx =~= Seq::<char>::empty());
        }
        let out = TNode { is_terminal: true, content: cont, children: node.children };
        proof {
            assert(out.children@ == node0.children@);
            assert forall|k: Seq<char>| k != sfx implies #[trigger] out.has_key(k)
                == node0.has_key(k) && #[trigger] out.content_at(k) == node0.content_at(k) by {
                assert(k.len() > 0) by {
                    if k.len() == 0 {
                        assert(k =~= sfx);
                    }
                }
            }
            assert forall|k: Seq<char>| k != sfx implies #[trigger] out.has_key(k)
                == node0.has_key(k) by {
                let ghost witness = out.content_at(k);
            }
            assert forall|k: Seq<char>| k != sfx implies #[trigger] out.content_at(k)
                == node0.content_at(k) by {
                let ghost witness = out.has_key(k);
            }
        }
        out
    } else {
        let c = key[i];
        proof {
            assert(sfx.len() > 0);
            assert(sfx[0] == key@[i as int]);
            assert(sfx.skip(1) =~= key@.skip(i as int + 1));
        }
        let ghost sfx_child = key@.skip(i as int + 1);
        let mut n = node;
        let ghost cs = n.children@;
        let out = match find_child(&n.children, c) {
            Some(j) => {
                proof {
                    lemma_sorted_index_unique(cs, j as int, c);
                    assert(node0.has_child(c) && node0.child(c) == cs[j as int].1);
                    assert(cs[j as int].1.wf());
                }
                let pair = n.children.remove(j);
                let ch2 = add_rec(pair.1, key, i + 1, cont);
                n.children.insert(j, (pair.0, ch2));
                proof {
                    assert(n.children@ =~= cs.update(j as int, (c, ch2)));
                    lemma_update_child(cs, j as int, ch2);
                }
                n
            },
            None => {
                let jj = insertion_point(&n.children, c);
                let fresh = TNode::new(None);
                let ch2 = add_rec(fresh, key, i + 1, cont);
                proof {
                    assert forall|k: Seq<char>| k != sfx_child implies !(#[trigger] ch2.has_key(
                        k,
                    )) && ch2.content_at(k) == fresh.content_at(k) by {
                        lemma_no_keys(fresh, k);
                    }
                }
                n.children.insert(jj, (c, ch2));
                proof {
                    assert(n.children@ == cs.insert(jj as int, (c, ch2)));
                    lemma_insert_child(cs, jj as int, c, ch2);
                }
                n
            },
        };
        proof {
            let ch2 = out.child(c);
            assert(out.has_child(c));
            assert(ch2.has_key(sfx_child) && ch2.content_at(sfx_child) == cont);
            assert(out.wf()) by {
                assert(sorted_children(out.children@));
                assert forall|m: int| 0 <= m < out.children@.len() implies (
                #[trigger] out.children@[m]).1.wf() by {
                    lemma_sorted_index_unique(out.children@, m, out.children@[m].0);
                    if out.children@[m].0 == c {
                        assert(out.children@[m].1 == ch2);
                    } else {
                        assert(out.children@[m].1 == node0.child(out.children@[m].0));
                        lemma_wf_child(node0, out.children@[m].0);
                    }
                }
            }
            assert(out.has_key(sfx) && out.content_at(sfx) == cont);
            assert forall|k: Seq<char>| k != sfx implies #[trigger] out.has_key(k)
                == node0.has_key(k) && #[trigger] out.content_at(k) == node0.content_at(k) by {
                if k.len() == 0 {
                } else if k[0] == c {
                    assert(k.skip(1) != sfx_child) by {
                        if k.skip(1) == sfx_child {
                            assert(k.len() == sfx.len());
                            assert forall|m: int| 0 <= m < k.len() implies k[m] == sfx[m] by {
                                if m > 0 {
                                    assert(k[m] == k.skip(1)[m - 1]);
                                    assert(sfx[m] == sfx.skip(1)[m - 1]);
                                }
                            }
                            assert(k =~= sfx);
                        }
                    }
                    assert(out.has_key(k) == ch2.has_key(k.skip(1)));
                    assert(out.content_at(k) == ch2.content_at(k.skip(1)));
                    if node0.has_child(c) {
                        assert(node0.has_key(k) == node0.child(c).has_key(k.skip(1)));
                    } else {
                        assert(!node0.has_key(k));
                        assert(!ch2.has_key(k.skip(1)));
                        assert(node0.content_at(k) is None);
                    }
                } else {
                    lemma_node_child_model(node0, out, c, k);
                }
            }
            assert forall|k: Seq<char>| k != sfx implies #[trigger] out.has_key(k)
                == node0.has_key(k) by {
                let ghost witness = out.content_at(k);
            }
            assert forall|k: Seq<char>| k != sfx implies #[trigger] out.content_at(k)
                == node0.content_at(k) by {
                let ghost witness = out.has_key(k);
            }
            assert(add_post(node0, out, sfx, cont));
        }
        out
    }
}

/// Inserts `s` with payload `content` below `node`, overwriting the payload
/// and terminal mark of an existing key.
fn add_fn<T>(node: &mut TNode<T>, s: &str, content: Option<T>)
    requires
        old(node).wf(),
    ensures
        add_post(*old(node), *final(node), s@, content),
{
    let ks = chars_of(s);
    proof {
        assert(ks@.skip(0) =~= s@);
    }
    let mut tmp = TNode::new(None);
    core::mem::swap(node, &mut tmp);
    *node = add_rec(tmp, &ks, 0, content);
}

/// The rendering of a run of children: each child starts on a fresh indented
/// line, followed by its code point and its own rendering one level deeper.
pub open spec fn pp_children_spec<T>(ch: Seq<(char, TNode<T>)>, indent: usize) -> Seq<char>
    decreases ch,
{
    if ch.len() == 0 {
        Seq::empty()
    } else {
        seq!['\n'] + Seq::new(indent as nat, |x: int| ' ') + seq![ch[0].0] + ch[0].1.pp_spec(
            bump_indent(indent),
        ) + pp_children_spec(ch.skip(1), indent)
    }
}

impl<T> TNode<T> {
    /// The rendering of this node: a lone child of a pass-through node
    /// continues on the same line, every other child starts on a fresh
    /// indented line.
    pub open spec fn pp_spec(self, indent: usize) -> Seq<char>
        decreases self,
    {
        if self.children@.len() == 1 {
            (if self.is_terminal {
                seq!['\n'] + Seq::new(indent as nat, |x: int| ' ')
            } else {
                Seq::<char>::empty()
            }) + seq![self.children@[0].0] + self.children@[0].1.pp_spec(bump_indent(indent))
        } else {
            pp_children_spec(self.children@, indent)
        }
    }
}

/// Renders `node` at the given indentation depth.
#[verifier::rlimit(100)]
fn pp_fn<T>(node: &TNode<T>, indent: usize) -> (r: String)
    ensures
        r@ == node.pp_spec(indent),
    decreases *node,
{
    let count = node.children.len();
    let next_indent = if indent == usize::MAX {
        indent
    } else {
        indent + 1
    };
    proof {
        assert(next_indent == bump_indent(indent));
    }
    if count == 1 {
        let mut r = String::new();
        if node.is_terminal {
            push_char(&mut r, '\n');
            let sp = crate::chars::spaces(indent);
            r.append(sp.as_str());
        }
        push_char(&mut r, node.children[0].0);
        proof {
            assert(decreases_to!(*node => node.children));
            assert(decreases_to!(node.children => node.children@));
            assert(decreases_to!(node.children@ => node.children@[0]));
            assert(decreases_to!(node.children@[0] => node.children@[0].1));
        }
        let sub = pp_fn(&node.children[0].1, next_indent);
        r.append(sub.as_str());
        proof {
            assert(r@ =~= node.pp_spec(indent));
        }
        r
    } else {
        let mut r = String::new();
        let ghost cs = node.children@;
        let mut idx: usize = 0;
        proof {
            assert(cs.skip(0) =~= cs);
            assert(Seq::<char>::empty() + pp_children_spec(cs, indent) =~= pp_children_spec(
                cs,
                indent,
            ));
        }
        while idx < count
            invariant
                idx <= count,
                count == cs.len(),
                cs == node.children@,
                next_indent == bump_indent(indent),
                pp_children_spec(cs, indent) == r@ + pp_children_spec(
                    cs.skip(idx as int),
                    indent,
                ),
            decreases count - idx,
        {
            let ghost r0 = r@;
            let ghost rest = cs.skip(idx as int);
            proof {
                assert(rest.len() > 0);
                assert(rest[0] == cs[idx as int]);
                assert(rest.skip(1) =~= cs.skip(idx as int + 1));
            }
            push_char(&mut r, '\n');
            let sp = crate::chars::spaces(indent);
            r.append(sp.as_str());
            push_char(&mut r, node.children[idx].0);
            proof {
                assert(decreases_to!(*node => node.children));
                assert(decreases_to!(node.children => node.children@));
                assert(decreases_to!(node.children@ => node.children@[idx as int]));
                assert(decreases_to!(node.children@[idx as int] => node.children@[idx as int].1));
            }
            let sub = pp_fn(&node.children[idx].1, next_indent);
            r.append(sub.as_str());
            proof {
                let seg = seq!['\n'] + Seq::new(indent as nat, |x: int| ' ') + seq![
                    cs[idx as int].0,
                ] + cs[idx as int].1.pp_spec(bump_indent(indent));
                assert(r@ =~= r0 + seg);
                assert(pp_children_spec(rest, indent) == seg + pp_children_spec(
                    rest.skip(1),
                    indent,
                ));
                assert(r0 + (seg + pp_children_spec(rest.skip(1), indent)) =~= (r0 + seg)
                    + pp_children_spec(rest.skip(1), indent));
            }
            idx = idx + 1;
        }
        proof {
            assert(cs.skip(count as int) =~= Seq::<(char, TNode<T>)>::empty());
            assert(r@ + Seq::<char>::empty() =~= r@);
        }
        r
    }
}

/// Walks `ks` from `node` as far as the tree allows, and reports the depth
/// reached together with the search flags; with `must_match_fully` the whole
/// key must be consumed, with `must_be_terminal` the node reported must be
/// terminal, falling back to the last terminal node passed.
#[verifier::rlimit(100)]
fn longest_prefix_fn<T>(
    node: &TNode<T>,
    ks: &Vec<char>,
    must_be_terminal: bool,
    must_match_fully: bool,
) -> (r: Option<(usize, LongestPrefFlags)>)
    requires
        node.wf(),
    ensures
        ({
            let q = ks@;
            if must_match_fully {
                if node.has_path(q) && (!must_be_terminal || node.has_key(q)) {
                    match r {
                        Some(pr) => pr.0 == q.len() && pr.1.is_terminal == node.has_key(q)
                            && pr.1.full_match == true,
                        None => false,
                    }
                } else {
                    r is None
                }
            } else if must_be_terminal {
                if exists|m: int| 0 <= m <= q.len() && node.has_key(#[trigger] q.take(m)) {
                    match r {
                        Some(pr) => {
                            &&& pr.0 <= q.len()
                            &&& node.has_key(q.take(pr.0 as int))
                            &&& forall|m: int|
                                pr.0 < m <= q.len() ==> !node.has_key(#[trigger] q.take(m))
                            &&& pr.1.is_terminal == true
                            &&& pr.1.full_match == (pr.0 == q.len())
                        },
                        None => false,
                    }
                } else {
                    r is None
                }
            } else {
                match r {
                    Some(pr) => {
                        &&& pr.0 <= q.len()
                        &&& node.has_path(q.take(pr.0 as int))
                        &&& forall|m: int|
                            pr.0 < m <= q.len() ==> !node.has_path(#[trigger] q.take(m))
                        &&& pr.1.is_terminal == node.has_key(q.take(pr.0 as int))
                        &&& pr.1.full_match == (pr.0 == q.len())
                    },
                    None => false,
                }
            }
        }),
{
    let ghost q = ks@;
    let n = ks.len();
    let mut cur: &TNode<T> = node;
    let mut i: usize = 0;
    let mut stop: bool = false;
    let mut best: usize = 0;
    let mut found: bool = false;
    proof {
        assert(ks@.take(0) =~= Seq::<char>::empty());
    }
    while i < n && !stop
        invariant
            i <= n,
            n == ks@.len(),
            ks@ == q,
            node.wf(),
            *cur == node.node_at(q.take(i as int)),
            cur.wf(),
            node.has_path(q.take(i as int)),
            stop ==> i < n && !node.has_path(q.take(i as int + 1)),
            found ==> best <= i && node.has_key(q.take(best as int)),
            found ==> forall|m: int| best < m < i ==> !node.has_key(#[trigger] q.take(m)),
            !found ==> forall|m: int| 0 <= m < i ==> !node.has_key(#[trigger] q.take(m)),
            stop ==> (cur.is_terminal ==> found && best == i),
        decreases n - i + (if stop {
            0int
        } else {
            1int
        }),
    {
        let ghost pre = q.take(i as int);
        let ghost step = seq![q[i as int]];
        proof {
            assert(q.take(i as int + 1) =~= pre + step);
            assert(step[0] == q[i as int]);
            assert(step.skip(1) =~= Seq::<char>::empty());
            lemma_key_path(*node, pre);
        }
        if cur.is_terminal {
            best = i;
            found = true;
        }
        match find_child(&cur.children, ks[i]) {
            Some(j) => {
                proof {
                    lemma_sorted_index_unique(cur.children@, j as int, q[i as int]);
                    lemma_wf_child(*cur, q[i as int]);
                    let ch = cur.child(q[i as int]);
                    assert(ch.has_path(Seq::<char>::empty()));
                    assert(ch.node_at(Seq::<char>::empty()) == ch);
                    assert(cur.has_path(step));
                    assert(cur.node_at(step) == ch);
                    lemma_path_decompose(*node, pre, step);
                    assert(node.has_path(q.take(i as int + 1)));
                    assert(node.node_at(q.take(i as int + 1)) == ch);
                }
                cur = &cur.children[j].1;
                i = i + 1;
            },
            None => {
                proof {
                    assert(!cur.has_child(q[i as int]));
                    assert(!cur.has_path(step));
                    lemma_path_decompose(*node, pre, step);
                    assert(!node.has_path(q.take(i as int + 1)));
                }
                stop = true;
            },
        }
    }
    if cur.is_terminal {
        best = i;
        found = true;
    }
    proof {
        lemma_key_path(*node, q.take(i as int));
        assert(node.has_key(q.take(i as int)) == cur.is_terminal);
        assert forall|m: int| i < m <= n implies !node.has_path(#[trigger] q.take(m)) by {
            if node.has_path(q.take(m)) {
                assert(stop && i < n);
                lemma_path_take(*node, q.take(m), i as int + 1);
                assert(q.take(m).take(i as int + 1) =~= q.take(i as int + 1));
            }
        }
        assert forall|m: int| i < m <= n implies !node.has_key(#[trigger] q.take(m)) by {
            lemma_key_path(*node, q.take(m));
        }
        if found {
            assert forall|m: int| best < m <= n implies !node.has_key(#[trigger] q.take(m)) by {
                if m == i {
                    assert(best < i);
                    assert(!cur.is_terminal);
                }
            }
        } else {
            assert forall|m: int| 0 <= m <= n implies !node.has_key(#[trigger] q.take(m)) by {
                if m == i {
                    assert(!cur.is_terminal);
                }
            }
        }
        assert(q.take(n as int) =~= q);
    }
    if must_match_fully {
        if i < n {
            proof {
                assert(!node.has_path(q.take(n as int)));
            }
            None
        } else {
            if must_be_terminal && !cur.is_terminal {
                None
            } else {
                Some((i, LongestPrefFlags { is_terminal: cur.is_terminal, full_match: true }))
            }
        }
    } else if must_be_terminal {
        if found {
            Some((best, LongestPrefFlags { is_terminal: true, full_match: best == n }))
        } else {
            None
        }
    } else {
        Some((i, LongestPrefFlags { is_terminal: cur.is_terminal, full_match: i == n }))
    }
}

impl<T> Trie<T> {
    /// A fresh trie whose root carries `content` and stores no key yet.
    pub fn new(content: Option<T>) -> (r: Trie<T>)
        ensures
            r.root.wf(),
            !r.root.is_terminal,
            r.root.content == content,
            r.root.children@ == Seq::<(char, TNode<T>)>::empty(),
    {
        Trie { root: TNode::new(content) }
    }

    /// Inserts `s` with the given payload, overwriting the payload and
    /// terminal mark of an existing key; every other key is untouched.
    pub fn add(&mut self, s: &str, content: Option<T>)
        requires
            old(self).root.wf(),
        ensures
            add_post(old(self).root, final(self).root, s@, content),
    {
        add_fn(&mut self.root, s, content)
    }

    /// Renders the tree shape.
    pub fn pp(&self) -> (r: String)
        ensures
            r@ == self.root.pp_spec(0),
    {
        pp_fn(&self.root, 0)
    }

    /// Exact lookup: the whole key must be consumed, and with
    /// `must_be_terminal` the node reached must itself be terminal; on
    /// success the key is returned with the search flags.
    pub fn find(&self, s: &str, must_be_terminal: bool) -> (r: Option<(Vec<char>, LongestPrefFlags)>)
        requires
            self.root.wf(),
        ensures
            ({
                let q = s@;
                if self.root.has_path(q) && (!must_be_terminal || self.root.has_key(q)) {
                    match r {
                        Some(pr) => pr.0@ == q && pr.1.is_terminal == self.root.has_key(q)
                            && pr.1.full_match == true,
                        None => false,
                    }
                } else {
                    r is None
                }
            }),
    {
        let ks = chars_of(s);
        match longest_prefix_fn(&self.root, &ks, must_be_terminal, true) {
            Some(pr) => Some((ks, pr.1)),
            None => None,
        }
    }

    /// Longest-prefix search: the longest prefix of `s` that is a path in
    /// the tree, or, with `must_be_terminal`, the longest prefix of `s` that
    /// is a stored key; `None` when no prefix qualifies.
    pub fn longest_prefix(&self, s: &str, must_be_terminal: bool) -> (r: Option<
        (Vec<char>, LongestPrefFlags),
    >)
        requires
            self.root.wf(),
        ensures
            ({
                let q = s@;
                if must_be_terminal {
                    if exists|m: int| 0 <= m <= q.len() && self.root.has_key(#[trigger] q.take(m)) {
                        match r {
                            Some(pr) => {
                                &&& pr.0@.len() <= q.len()
                                &&& pr.0@ == q.take(pr.0@.len() as int)
                                &&& self.root.has_key(pr.0@)
                                &&& forall|m: int|
                                    pr.0@.len() < m <= q.len() ==> !self.root.has_key(
                                        #[trigger] q.take(m),
                                    )
                                &&& pr.1.is_terminal == true
                                &&& pr.1.full_match == (pr.0@ == q)
                            },
                            None => false,
                        }
                    } else {
                        r is None
                    }
                } else {
                    match r {
                        Some(pr) => {
                            &&& pr.0@.len() <= q.len()
                            &&& pr.0@ == q.take(pr.0@.len() as int)
                            &&& self.root.has_path(pr.0@)
                            &&& forall|m: int|
                                pr.0@.len() < m <= q.len() ==> !self.root.has_path(
                                    #[trigger] q.take(m),
                                )
                            &&& pr.1.is_terminal == self.root.has_key(pr.0@)
                            &&& pr.1.full_match == (pr.0@ == q)
                        },
                        None => false,
                    }
                }
            }),
    {
        let ks = chars_of(s);
        match longest_prefix_fn(&self.root, &ks, must_be_terminal, false) {
            Some(pr) => {
                let v = prefix_vec(&ks, pr.0);
                proof {
                    assert((pr.0 == s@.len()) == (v@ == s@)) by {
                        if pr.0 == s@.len() {
                            assert(s@.take(s@.len() as int) =~= s@);
                        }
                    }
                }
                Some((v, pr.1))
            },
            None => None,
        }
    }
}

} // verus!
