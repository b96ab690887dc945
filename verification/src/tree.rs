use vstd::prelude::*;
use vstd::string::StringSliceAdditionalSpecFns;
use vstd::utf8::{encode_utf8, is_char_boundary, is_continuation_byte};

use crate::source::{boundary_at, SourceText};
use crate::error::Error;

verus! {

/// One node of a parsed tree, stored in the arena of its `Root`.
/// `start` and `end` delimit the node's byte span in the source;
/// `children` holds arena indices in source order.
pub struct NodeData {
    pub kind: String,
    pub kind_id: u16,
    pub start: usize,
    pub end: usize,
    pub parent: Option<usize>,
    pub children: Vec<usize>,
}

/// An immutable parsed program: the source text plus the node arena.
/// The root node sits at index 0 and every child's index is larger
/// than its parent's, so walking into children always descends.
pub struct Root {
    pub src: SourceText,
    pub nodes: Vec<NodeData>,
}

impl Root {
    /// The `j`-th child entry of node `i` is coherent: it points past `i`,
    /// names `i` as its parent, lies inside `i`'s span, and follows its
    /// left sibling without overlap.
    pub open spec fn child_ok(&self, i: int, j: int) -> bool {
        let n = self.nodes@[i];
        let c = n.children@[j] as int;
        &&& i < c < self.nodes@.len()
        &&& i == self.nodes@[c].parent->Some_0 && self.nodes@[c].parent is Some
        &&& n.start <= self.nodes@[c].start
        &&& self.nodes@[c].end <= n.end
        &&& j > 0 ==> n.children@[j - 1] < n.children@[j] && self.nodes@[n.children@[j
            - 1] as int].end <= self.nodes@[c].start
    }

    pub open spec fn node_ok(&self, i: int) -> bool {
        let n = self.nodes@[i];
        &&& n.start <= n.end <= self.src.bytes@.len()
        &&& forall|j: int| 0 <= j < n.children@.len() ==> self.child_ok(i, j)
    }

    /// A non-root node names a parent that precedes it and lists it back.
    pub open spec fn parent_ok(&self, i: int) -> bool {
        let n = self.nodes@[i];
        &&& n.parent is Some
        &&& (n.parent->Some_0 as int) < i
        &&& self.nodes@[n.parent->Some_0 as int].children@.contains(i as usize)
    }

    pub open spec fn wf(&self) -> bool {
        &&& self.src.wf()
        &&& 1 <= self.nodes@.len()
        &&& self.nodes@[0].parent is None
        &&& forall|i: int| 0 <= i < self.nodes@.len() ==> #[trigger] self.node_ok(i)
        &&& forall|i: int| 1 <= i < self.nodes@.len() ==> #[trigger] self.parent_ok(i)
    }

    /// The exact source bytes of node `i`.
    pub open spec fn node_bytes(&self, i: int) -> Seq<u8> {
        self.src.bytes@.subrange(self.nodes@[i].start as int, self.nodes@[i].end as int)
    }

    /// The borrowed view of the root node.
    pub fn root(&self) -> (n: Node<'_>)
        requires
            self.wf(),
        ensures
            n.wf(),
            n.id == 0,
            n.root == self,
    {
        Node { root: self, id: 0 }
    }

    /// Validates a candidate arena against the tree invariant and owns it on
    /// success. Exactly the arenas that satisfy `wf` are accepted.
    pub fn from_parts(src: SourceText, nodes: Vec<NodeData>) -> (r: Option<Root>)
        requires
            src.wf(),
        ensures
            r is Some <==> (Root { src, nodes }).wf(),
            r is Some ==> r->Some_0 == (Root { src, nodes }),
    {
        let ghost gt = Root { src: src, nodes: nodes };
        let n = nodes.len();
        if n == 0 {
            return None;
        }
        if nodes[0].parent.is_some() {
            return None;
        }
        let srclen = src.bytes.len();
        let mut i: usize = 0;
        while i < n
            invariant
                gt == (Root { src, nodes }),
                n == nodes@.len(),
                srclen == src.bytes@.len(),
                i <= n,
                forall|k: int| 0 <= k < i ==> #[trigger] gt.node_ok(k),
            decreases n - i,
        {
            if !(nodes[i].start <= nodes[i].end && nodes[i].end <= srclen) {
                proof {
                    assert(!gt.node_ok(i as int));
                }
                return None;
            }
            let count = nodes[i].children.len();
            let mut j: usize = 0;
            while j < count
                invariant
                    gt == (Root { src, nodes }),
                    n == nodes@.len(),
                    i < n,
                    count == nodes@[i as int].children@.len(),
                    j <= count,
                    forall|l: int| 0 <= l < j ==> #[trigger] gt.child_ok(i as int, l),
                decreases count - j,
            {
                let c = nodes[i].children[j];
                if !(i < c && c < n) {
                    proof {
                        assert(!gt.child_ok(i as int, j as int));
                        assert(!gt.node_ok(i as int));
                    }
                    return None;
                }
                let parent_back = match nodes[c].parent {
                    Some(p) => p == i,
                    None => false,
                };
                if !parent_back {
                    proof {
                        assert(!gt.child_ok(i as int, j as int));
                        assert(!gt.node_ok(i as int));
                    }
                    return None;
                }
                if !(nodes[i].start <= nodes[c].start && nodes[c].end <= nodes[i].end) {
                    proof {
                        assert(!gt.child_ok(i as int, j as int));
                        assert(!gt.node_ok(i as int));
                    }
                    return None;
                }
                if j > 0 {
                    let prev = nodes[i].children[j - 1];
                    if !(prev < c && nodes[prev].end <= nodes[c].start) {
                        proof {
                            assert(!gt.child_ok(i as int, j as int));
                            assert(!gt.node_ok(i as int));
                        }
                        return None;
                    }
                }
                j += 1;
            }
            proof {
                assert(gt.node_ok(i as int));
            }
            i += 1;
        }
        let mut m: usize = 1;
        while m < n
            invariant
                gt == (Root { src, nodes }),
                n == nodes@.len(),
                1 <= m <= n,
                forall|k: int| 1 <= k < m ==> #[trigger] gt.parent_ok(k),
            decreases n - m,
        {
            let p = match nodes[m].parent {
                Some(p) => p,
                None => {
                    proof {
                        assert(!gt.parent_ok(m as int));
                    }
                    return None;
                },
            };
            if !(p < m) {
                proof {
                    assert(!gt.parent_ok(m as int));
                }
                return None;
            }
            let count = nodes[p].children.len();
            let mut j: usize = 0;
            let mut found = false;
            while j < count
                invariant
                    gt == (Root { src, nodes }),
                    n == nodes@.len(),
                    m < n,
                    (p as int) < m as int,
                    count == nodes@[p as int].children@.len(),
                    j <= count,
                    found ==> nodes@[p as int].children@.contains(m),
                    !found ==> forall|l: int|
                        0 <= l < j ==> #[trigger] nodes@[p as int].children@[l] != m,
                decreases count - j,
            {
                if nodes[p].children[j] == m {
                    found = true;
                }
                j += 1;
            }
            if !found {
                proof {
                    if nodes@[p as int].children@.contains(m) {
                        let witness = choose|l: int|
                            0 <= l < nodes@[p as int].children@.len()
                                && nodes@[p as int].children@[l] == m;
                        assert(nodes@[p as int].children@[witness] == m);
                    }
                    assert(!gt.parent_ok(m as int));
                }
                return None;
            }
            proof {
                assert(gt.parent_ok(m as int));
            }
            m += 1;
        }
        Some(Root { src, nodes })
    }

    /// The borrowed view of the node at a given arena index, if there is one.
    pub fn node(&self, id: usize) -> (r: Option<Node<'_>>)
        requires
            self.wf(),
        ensures
            r is Some <==> id < self.nodes@.len(),
            r is Some ==> r->Some_0.wf() && r->Some_0.id == id && r->Some_0.root == self,
    {
        if id < self.nodes.len() {
            Some(Node { root: self, id })
        } else {
            None
        }
    }
}

/// A read-only view of one node: a reference to the owning `Root` and the
/// node's arena index. A `Node` never outlives its `Root`.
#[derive(Clone, Copy)]
pub struct Node<'r> {
    pub root: &'r Root,
    pub id: usize,
}

impl<'r> Node<'r> {
    pub open spec fn wf(&self) -> bool {
        &&& self.root.wf()
        &&& (self.id as int) < self.root.nodes@.len()
    }

    pub open spec fn data(&self) -> NodeData {
        self.root.nodes@[self.id as int]
    }

    /// The exact source bytes of this node's span.
    pub open spec fn bytes(&self) -> Seq<u8> {
        self.root.node_bytes(self.id as int)
    }

    /// The child list of this node's parent (meaningful only off the root).
    pub open spec fn sibling_ids(&self) -> Seq<usize> {
        self.root.nodes@[self.data().parent->Some_0 as int].children@
    }

    /// True exactly when the node has no children.
    pub fn is_leaf(&self) -> (r: bool)
        requires
            self.wf(),
        ensures
            r == (self.data().children@.len() == 0),
    {
        self.root.nodes[self.id].children.len() == 0
    }

    /// The grammar symbol of this node, as a string.
    pub fn kind(&self) -> (r: &'r str)
        requires
            self.wf(),
        ensures
            r@ == self.data().kind@,
    {
        self.root.nodes[self.id].kind.as_str()
    }

    /// The grammar symbol of this node, as a dense numeric id.
    pub fn kind_id(&self) -> (r: u16)
        requires
            self.wf(),
        ensures
            r == self.data().kind_id,
    {
        self.root.nodes[self.id].kind_id
    }

    /// The byte offset where this node's span starts.
    pub fn start_byte(&self) -> (r: usize)
        requires
            self.wf(),
        ensures
            r == self.data().start,
    {
        self.root.nodes[self.id].start
    }

    /// The byte offset just past this node's span.
    pub fn end_byte(&self) -> (r: usize)
        requires
            self.wf(),
        ensures
            r == self.data().end,
    {
        self.root.nodes[self.id].end
    }

    /// The views of the immediate children, in source order.
    pub fn children(&self) -> (r: Vec<Node<'r>>)
        requires
            self.wf(),
        ensures
            r@.len() == self.data().children@.len(),
            forall|j: int|
                0 <= j < r@.len() ==> (#[trigger] r@[j]).wf() && r@[j].root == self.root
                    && r@[j].id == self.data().children@[j],
    {
        let n = self.root.nodes.len();
        let mut out: Vec<Node<'r>> = Vec::new();
        let mut j: usize = 0;
        let count = self.root.nodes[self.id].children.len();
        while j < count
            invariant
                self.wf(),
                count == self.data().children@.len(),
                j <= count,
                out@.len() == j,
                forall|k: int|
                    0 <= k < j ==> (#[trigger] out@[k]).wf() && out@[k].root == self.root
                        && out@[k].id == self.data().children@[k],
            decreases count - j,
        {
            let c = self.root.nodes[self.id].children[j];
            proof {
                assert(self.root.node_ok(self.id as int));
                assert(self.root.child_ok(self.id as int, j as int));
            }
            out.push(Node { root: self.root, id: c });
            j += 1;
        }
        out
    }

    /// The exact source text of this node's span, or an encoding failure
    /// when the span does not align with character boundaries.
    pub fn text(&self) -> (r: Result<&'r str, Error>)
        requires
            self.wf(),
        ensures
            r is Ok <==> is_char_boundary(self.root.src.bytes@, self.data().start as int)
                && is_char_boundary(self.root.src.bytes@, self.data().end as int),
            r is Ok ==> encode_utf8(r->Ok_0@) == self.bytes(),
    {
        proof {
            broadcast use vstd::utf8::encode_utf8_valid_utf8;
            broadcast use vstd::utf8::is_char_boundary_iff_not_is_continuation_byte;
            broadcast use vstd::utf8::is_char_boundary_start_end_of_seq;
            broadcast use vstd::utf8::valid_utf8_split;

            assert(self.root.node_ok(self.id as int));
        }
        let src = &self.root.src;
        let start = self.root.nodes[self.id].start;
        let end = self.root.nodes[self.id].end;
        if !boundary_at(src, start) || !boundary_at(src, end) {
            return Err(Error::Encoding);
        }
        let s = src.text.as_str();
        let (_, rest) = s.split_at(start);
        proof {
            assert(rest.spec_bytes() =~= src.bytes@.subrange(
                start as int,
                src.bytes@.len() as int,
            ));
            if end == start {
            } else if end as int == src.bytes@.len() {
                assert(is_char_boundary(rest.spec_bytes(), rest.spec_bytes().len() as int));
            } else {
                assert(rest.spec_bytes()[end - start] == src.bytes@[end as int]);
                assert(!is_continuation_byte(src.bytes@[end as int]));
                assert(is_char_boundary(rest.spec_bytes(), end - start));
            }
        }
        let (mid, _) = rest.split_at(end - start);
        proof {
            assert(mid.spec_bytes() =~= self.bytes());
        }
        Ok(mid)
    }

    /// The immediate following sibling, or nothing at the right boundary.
    pub fn next(&self) -> (r: Option<Node<'r>>)
        requires
            self.wf(),
        ensures
            ({
                match r {
                    Some(m) => self.data().parent is Some && m.wf() && m.root == self.root
                        && exists|j: int|
                        {
                            &&& 0 <= j
                            &&& j + 1 < self.sibling_ids().len()
                            &&& #[trigger] self.sibling_ids()[j] == self.id
                            &&& self.sibling_ids()[j + 1] == m.id
                        },
                    None => self.data().parent is None || (self.sibling_ids().len() >= 1
                        && self.sibling_ids()[self.sibling_ids().len() - 1] == self.id),
                }
            }),
    {
        match self.root.nodes[self.id].parent {
            None => None,
            Some(p) => {
                proof {
                    assert(self.root.parent_ok(self.id as int));
                    assert(self.root.node_ok(p as int));
                }
                let count = self.root.nodes[p].children.len();
                let mut j: usize = 0;
                while j < count
                    invariant
                        self.wf(),
                        (p as int) < self.id as int,
                        self.root.node_ok(p as int),
                        count == self.root.nodes@[p as int].children@.len(),
                        j <= count,
                        forall|k: int|
                            0 <= k < j ==> #[trigger] self.root.nodes@[p as int].children@[k]
                                != self.id,
                    decreases count - j,
                {
                    proof {
                        assert(self.root.child_ok(p as int, j as int));
                    }
                    if self.root.nodes[p].children[j] == self.id {
                        if j + 1 < count {
                            proof {
                                assert(self.root.child_ok(p as int, j as int + 1));
                                assert(self.sibling_ids() == self.root.nodes@[p as int].children@);
                                assert(self.sibling_ids()[j as int] == self.id);
                            }
                            return Some(
                                Node { root: self.root, id: self.root.nodes[p].children[j + 1] },
                            );
                        } else {
                            return None;
                        }
                    }
                    j += 1;
                }
                proof {
                    assert(self.root.nodes@[p as int].children@.contains(self.id));
                    assert(false);
                }
                None
            },
        }
    }

    /// The immediate preceding sibling, or nothing at the left boundary.
    pub fn prev(&self) -> (r: Option<Node<'r>>)
        requires
            self.wf(),
        ensures
            ({
                match r {
                    Some(m) => self.data().parent is Some && m.wf() && m.root == self.root
                        && exists|j: int|
                        {
                            &&& 1 <= j < self.sibling_ids().len()
                            &&& #[trigger] self.sibling_ids()[j] == self.id
                            &&& self.sibling_ids()[j - 1] == m.id
                        },
                    None => self.data().parent is None || (self.sibling_ids().len() >= 1
                        && self.sibling_ids()[0] == self.id),
                }
            }),
    {
        match self.root.nodes[self.id].parent {
            None => None,
            Some(p) => {
                proof {
                    assert(self.root.parent_ok(self.id as int));
                    assert(self.root.node_ok(p as int));
                }
                let count = self.root.nodes[p].children.len();
                let mut j: usize = 0;
                while j < count
                    invariant
                        self.wf(),
                        (p as int) < self.id as int,
                        self.root.node_ok(p as int),
                        count == self.root.nodes@[p as int].children@.len(),
                        j <= count,
                        forall|k: int|
                            0 <= k < j ==> #[trigger] self.root.nodes@[p as int].children@[k]
                                != self.id,
                    decreases count - j,
                {
                    proof {
                        assert(self.root.child_ok(p as int, j as int));
                    }
                    if self.root.nodes[p].children[j] == self.id {
                        if j > 0 {
                            proof {
                                assert(self.root.child_ok(p as int, j as int - 1));
                                assert(self.sibling_ids() == self.root.nodes@[p as int].children@);
                                assert(self.sibling_ids()[j as int] == self.id);
                            }
                            return Some(
                                Node { root: self.root, id: self.root.nodes[p].children[j - 1] },
                            );
                        } else {
                            return None;
                        }
                    }
                    j += 1;
                }
                proof {
                    assert(self.root.nodes@[p as int].children@.contains(self.id));
                    assert(false);
                }
                None
            },
        }
    }

    /// All following siblings, nearest first.
    pub fn next_all(&self) -> (r: Vec<Node<'r>>)
        requires
            self.wf(),
        ensures
            ({
                if self.data().parent is None {
                    r@.len() == 0
                } else {
                    exists|j: int|
                        {
                            &&& 0 <= j < self.sibling_ids().len()
                            &&& #[trigger] self.sibling_ids()[j] == self.id
                            &&& r@.len() == self.sibling_ids().len() - 1 - j
                            &&& forall|k: int|
                                0 <= k < r@.len() ==> (#[trigger] r@[k]).wf() && r@[k].root
                                    == self.root && r@[k].id == self.sibling_ids()[j + 1 + k]
                        }
                }
            }),
    {
        let mut out: Vec<Node<'r>> = Vec::new();
        match self.root.nodes[self.id].parent {
            None => out,
            Some(p) => {
                proof {
                    assert(self.root.parent_ok(self.id as int));
                    assert(self.root.node_ok(p as int));
                }
                let count = self.root.nodes[p].children.len();
                let mut j: usize = 0;
                let mut found = false;
                let ghost mut fj: int = 0;
                while j < count
                    invariant
                        self.wf(),
                        (p as int) < self.id as int,
                        self.root.node_ok(p as int),
                        count == self.root.nodes@[p as int].children@.len(),
                        j <= count,
                        !found ==> out@.len() == 0,
                        !found ==> forall|k: int|
                            0 <= k < j ==> #[trigger] self.root.nodes@[p as int].children@[k]
                                != self.id,
                        found ==> ({
                            let ch = self.root.nodes@[p as int].children@;
                            &&& 0 <= fj < j <= ch.len()
                            &&& ch[fj] == self.id
                            &&& out@.len() == j - 1 - fj
                            &&& forall|k: int|
                                0 <= k < out@.len() ==> (#[trigger] out@[k]).wf() && out@[k].root
                                    == self.root && out@[k].id == ch[fj + 1 + k]
                        }),
                    decreases count - j,
                {
                    proof {
                        assert(self.root.child_ok(p as int, j as int));
                    }
                    let c = self.root.nodes[p].children[j];
                    if found {
                        out.push(Node { root: self.root, id: c });
                    } else if c == self.id {
                        found = true;
                        proof {
                            fj = j as int;
                        }
                    }
                    j += 1;
                }
                proof {
                    if !found {
                        assert(self.root.nodes@[p as int].children@.contains(self.id));
                        assert(false);
                    }
                    assert(self.sibling_ids() == self.root.nodes@[p as int].children@);
                    assert(self.sibling_ids()[fj] == self.id);
                }
                out
            },
        }
    }

    /// The chain of ancestors, from the immediate parent up to the root.
    pub fn ancestors(&self) -> (r: Vec<Node<'r>>)
        requires
            self.wf(),
        ensures
            forall|k: int|
                0 <= k < r@.len() ==> (#[trigger] r@[k]).wf() && r@[k].root == self.root,
            r@.len() == 0 <==> self.data().parent is None,
            r@.len() > 0 ==> Some(r@[0].id) == self.data().parent,
            forall|k: int|
                0 <= k < r@.len() - 1 ==> Some(r@[k + 1].id) == (#[trigger] r@[k]).data().parent,
            r@.len() > 0 ==> r@[r@.len() - 1].data().parent is None,
    {
        let mut out: Vec<Node<'r>> = Vec::new();
        let mut cur: Node<'r> = *self;
        let mut p = cur.parent();
        while p.is_some()
            invariant
                self.wf(),
                cur.wf(),
                cur.root == self.root,
                p is Some <==> cur.data().parent is Some,
                p is Some ==> p->Some_0.wf() && p->Some_0.root == self.root && Some(p->Some_0.id)
                    == cur.data().parent,
                out@.len() == 0 ==> cur == *self,
                out@.len() > 0 ==> out@[out@.len() - 1] == cur,
                out@.len() > 0 ==> Some(out@[0].id) == self.data().parent,
                forall|k: int|
                    0 <= k < out@.len() ==> (#[trigger] out@[k]).wf() && out@[k].root == self.root,
                forall|k: int|
                    0 <= k < out@.len() - 1 ==> Some(out@[k + 1].id)
                        == (#[trigger] out@[k]).data().parent,
            decreases cur.id,
        {
            let q = p.unwrap();
            proof {
                if cur.id != 0 {
                    assert(cur.root.parent_ok(cur.id as int));
                }
            }
            out.push(q);
            cur = q;
            p = cur.parent();
        }
        out
    }

    /// The immediate ancestor, or nothing at the root.
    pub fn parent(&self) -> (r: Option<Node<'r>>)
        requires
            self.wf(),
        ensures
            r is Some <==> self.data().parent is Some,
            r is Some ==> r->Some_0.wf() && r->Some_0.root == self.root
                && Some(r->Some_0.id) == self.data().parent,
    {
        proof {
            if self.id != 0 {
                assert(self.root.parent_ok(self.id as int));
            }
        }
        match self.root.nodes[self.id].parent {
            Some(p) => Some(Node { root: self.root, id: p }),
            None => None,
        }
    }
}

/// Every child's span lies inside its parent's span, and consecutive
/// children cover disjoint spans in ascending source order.
pub proof fn lemma_child_spans(t: &Root, i: int, j: int)
    requires
        t.wf(),
        0 <= i < t.nodes@.len(),
        0 <= j < t.nodes@[i].children@.len(),
    ensures
        ({
            let n = t.nodes@[i];
            let c = n.children@[j] as int;
            &&& i < c < t.nodes@.len()
            &&& n.start <= t.nodes@[c].start
            &&& t.nodes@[c].end <= n.end
            &&& t.nodes@[c].start <= t.nodes@[c].end <= t.src.bytes@.len()
            &&& j > 0 ==> t.nodes@[n.children@[j - 1] as int].end <= t.nodes@[c].start
        }),
{
    assert(t.node_ok(i));
    assert(t.child_ok(i, j));
    assert(t.node_ok(t.nodes@[i].children@[j] as int));
}

/// Every node but the root appears among its parent's children, and each
/// child names that parent back: parent and child listings agree.
pub proof fn lemma_parent_child(t: &Root, i: int)
    requires
        t.wf(),
        1 <= i < t.nodes@.len(),
    ensures
        t.nodes@[i].parent is Some,
        (t.nodes@[i].parent->Some_0 as int) < i,
        t.nodes@[t.nodes@[i].parent->Some_0 as int].children@.contains(i as usize),
        forall|j: int|
            0 <= j < t.nodes@[i].children@.len()
                ==> t.nodes@[(#[trigger] t.nodes@[i].children@[j]) as int].parent
                == Some(i as usize),
{
    assert(t.parent_ok(i));
    assert(t.node_ok(i));
    assert forall|j: int|
        0 <= j < t.nodes@[i].children@.len() implies t.nodes@[(#[trigger] t.nodes@[i].children@[
        j]) as int].parent == Some(i as usize) by {
        assert(t.child_ok(i, j));
    }
}

} // verus!
