//! The syntax tree as the index reads it: the nodes of one parse in
//! pre-order, each with its role, its span and the index of its parent.

use vstd::prelude::*;
use std::collections::HashMap;
use crate::grammar::{role_of, role_of_kind, SyntacticRole};
use crate::position::Point;
use crate::text::{slice_text, text_between};

verus! {

broadcast use vstd::std_specs::hash::group_hash_axioms;

/// One node as the parser hands it out: its identity and that of its
/// parent, its grammar kind, and where it lies in the text.
#[derive(Clone, Debug)]
pub struct RawNode {
    pub id: usize,
    pub parent: Option<usize>,
    pub kind: String,
    pub named: bool,
    pub start_byte: usize,
    pub end_byte: usize,
    pub start: Point,
    pub end: Point,
}

/// One node of a syntax tree. `parent` is an index into the tree's nodes;
/// `text` is kept for identifiers and type tokens.
#[derive(Debug)]
pub struct SyntaxNode {
    pub id: usize,
    pub role: SyntacticRole,
    pub named: bool,
    pub parent: Option<usize>,
    pub start: Point,
    pub end: Point,
    pub text: Option<String>,
}

/// The mathematical content of a [`SyntaxNode`].
pub ghost struct SyntaxNodeView {
    pub id: usize,
    pub role: SyntacticRole,
    pub named: bool,
    pub parent: Option<usize>,
    pub start: Point,
    pub end: Point,
    pub text: Option<Seq<char>>,
}

impl View for SyntaxNode {
    type V = SyntaxNodeView;

    open spec fn view(&self) -> SyntaxNodeView {
        SyntaxNodeView {
            id: self.id,
            role: self.role,
            named: self.named,
            parent: self.parent,
            start: self.start,
            end: self.end,
            text: match self.text {
                Some(s) => Some(s@),
                None => None,
            },
        }
    }
}

/// Every parent comes before its children, and no identity occurs twice.
pub open spec fn well_formed(nodes: Seq<SyntaxNodeView>) -> bool {
    &&& forall|i: int|
        0 <= i < nodes.len() ==> ((#[trigger] nodes[i]).parent matches Some(p) ==> p < i)
    &&& forall|i: int, j: int|
        0 <= i < j < nodes.len() ==> (#[trigger] nodes[i]).id != (#[trigger] nodes[j]).id
}

/// Whether `ancestor` lies on the chain of parents above `node`.
pub open spec fn is_proper_ancestor(nodes: Seq<SyntaxNodeView>, ancestor: int, node: int) -> bool
    decreases node,
{
    if 0 <= node < nodes.len() {
        match nodes[node].parent {
            Some(p) => p < node && (p == ancestor || is_proper_ancestor(nodes, ancestor, p as int)),
            None => false,
        }
    } else {
        false
    }
}

/// What the parser's nodes must satisfy to form a tree: identities are
/// distinct, and each parent was handed out before its children.
pub open spec fn raw_well_formed(raw: Seq<RawNode>) -> bool {
    &&& forall|i: int, j: int|
        0 <= i < j < raw.len() ==> (#[trigger] raw[i]).id != (#[trigger] raw[j]).id
    &&& forall|i: int|
        0 <= i < raw.len() ==> ((#[trigger] raw[i]).parent matches Some(pid) ==> exists|j: int|
            0 <= j < i && (#[trigger] raw[j]).id == pid)
}

/// The index of the node with identity `id`.
pub open spec fn index_of_id(raw: Seq<RawNode>, id: usize) -> int {
    choose|j: int| 0 <= j < raw.len() && (#[trigger] raw[j]).id == id
}

/// The tree node that the `i`-th parser node becomes.
pub open spec fn node_of_raw(raw: Seq<RawNode>, source: Seq<char>, i: int) -> SyntaxNodeView {
    let role = role_of(raw[i].kind@);
    SyntaxNodeView {
        id: raw[i].id,
        role,
        named: raw[i].named,
        parent: match raw[i].parent {
            Some(pid) => Some(index_of_id(raw, pid) as usize),
            None => None,
        },
        start: raw[i].start,
        end: raw[i].end,
        text: if role.carries_text() {
            text_between(source, raw[i].start_byte as int, raw[i].end_byte as int)
        } else {
            None
        },
    }
}

/// The tree that a well-formed list of parser nodes becomes.
pub open spec fn arena_of(raw: Seq<RawNode>, source: Seq<char>) -> Seq<SyntaxNodeView> {
    Seq::new(raw.len(), |i: int| node_of_raw(raw, source, i))
}

/// The tree that well-formed parser nodes become is well-formed.
pub proof fn lemma_arena_is_well_formed(raw: Seq<RawNode>, source: Seq<char>)
    requires
        raw_well_formed(raw),
        raw.len() <= usize::MAX,
    ensures
        well_formed(arena_of(raw, source)),
{
    let nodes = arena_of(raw, source);
    assert forall|i: int| 0 <= i < nodes.len() implies ((#[trigger] nodes[i]).parent matches Some(
        p,
    ) ==> p < i) by {
        if raw[i].parent is Some {
            let pid = raw[i].parent->0;
            let j = choose|j: int| 0 <= j < i && (#[trigger] raw[j]).id == pid;
            let c = index_of_id(raw, pid);
            assert(0 <= c < raw.len() && raw[c].id == pid);
            if c < j {
                assert(raw[c].id != raw[j].id);
            } else if j < c {
                assert(raw[j].id != raw[c].id);
            }
        }
    }
    assert forall|i: int, j: int| 0 <= i < j < nodes.len() implies (#[trigger] nodes[i]).id != (
    #[trigger] nodes[j]).id by {
        assert(raw[i].id != raw[j].id);
    }
}

/// The `i`-th tree node, with the parent that was found for it while the
/// identities after `i` are not yet known to be distinct.
spec fn node_matches(raw: Seq<RawNode>, source: Seq<char>, i: int, node: SyntaxNodeView) -> bool {
    let role = role_of(raw[i].kind@);
    &&& node.id == raw[i].id
    &&& node.role == role
    &&& node.named == raw[i].named
    &&& node.start == raw[i].start
    &&& node.end == raw[i].end
    &&& node.text == if role.carries_text() {
        text_between(source, raw[i].start_byte as int, raw[i].end_byte as int)
    } else {
        None
    }
    &&& match raw[i].parent {
        Some(pid) => node.parent matches Some(p) && p < i && raw[p as int].id == pid,
        None => node.parent is None,
    }
}

/// A syntax tree: nodes in pre-order, parents before children.
pub struct SyntaxTree {
    nodes: Vec<SyntaxNode>,
}

impl View for SyntaxTree {
    type V = Seq<SyntaxNodeView>;

    closed spec fn view(&self) -> Seq<SyntaxNodeView> {
        Seq::new(self.nodes@.len(), |i: int| self.nodes@[i]@)
    }
}

impl SyntaxTree {
    #[verifier::type_invariant]
    spec fn inv(self) -> bool {
        well_formed(self@)
    }

    /// Builds the tree from the parser's nodes in pre-order and the text
    /// they were parsed from. Fails exactly when the nodes do not form a tree.
    pub fn from_raw(raw: &Vec<RawNode>, source: &str) -> (tree: Option<SyntaxTree>)
        ensures
            tree is Some <==> raw_well_formed(raw@),
            tree matches Some(t) ==> t@ == arena_of(raw@, source@) && well_formed(t@),
    {
        let mut index: HashMap<usize, usize> = HashMap::new();
        let mut nodes: Vec<SyntaxNode> = Vec::new();
        let mut i: usize = 0;
        while i < raw.len()
            invariant
                i <= raw.len(),
                nodes.len() == i,
                raw_well_formed(raw@.take(i as int)),
                forall|id: usize|
                    index@.contains_key(id) <==> exists|j: int|
                        0 <= j < i && (#[trigger] raw[j]).id == id,
                forall|j: int| 0 <= j < i ==> index@[(#[trigger] raw[j]).id] == j,
                forall|j: int|
                    0 <= j < i ==> node_matches(raw@, source@, j, (#[trigger] nodes[j])@),
            decreases raw.len() - i,
        {
            let r = &raw[i];
            if index.contains_key(&r.id) {
                proof {
                    let j = choose|j: int| 0 <= j < i && (#[trigger] raw[j]).id == r.id;
                    assert(raw[j].id == raw[i as int].id);
                }
                return None;
            }
            let parent = match r.parent {
                Some(pid) => {
                    match index.get(&pid) {
                        Some(p) => Some(*p),
                        None => {
                            assert(!raw_well_formed(raw@)) by {
                                if raw_well_formed(raw@) {
                                    let j = choose|j: int|
                                        0 <= j < i && (#[trigger] raw[j]).id == pid;
                                    assert(index@.contains_key(pid));
                                }
                            }
                            return None;
                        },
                    }
                },
                None => None,
            };
            let role = role_of_kind(r.kind.as_str());
            let text = if role.has_text() {
                slice_text(source, r.start_byte, r.end_byte)
            } else {
                None
            };
            let node = SyntaxNode {
                id: r.id,
                role,
                named: r.named,
                parent,
                start: r.start,
                end: r.end,
                text,
            };
            assert(node_matches(raw@, source@, i as int, node@));
            index.insert(r.id, i);
            nodes.push(node);
            proof {
                let next = raw@.take(i + 1);
                assert forall|a: int, b: int| 0 <= a < b < next.len() implies (#[trigger] next[a]).id
                    != (#[trigger] next[b]).id by {
                    if b < i {
                        assert(raw@.take(i as int)[a].id != raw@.take(i as int)[b].id);
                    }
                }
                assert forall|a: int| 0 <= a < next.len() implies ((#[trigger] next[a]).parent matches Some(
                    pid,
                ) ==> exists|j: int| 0 <= j < a && (#[trigger] next[j]).id == pid) by {
                    if next[a].parent is Some {
                        let pid = next[a].parent->0;
                        if a < i {
                            let prefix = raw@.take(i as int);
                            assert(prefix[a].parent == Some(pid));
                            let j = choose|j: int| 0 <= j < a && (#[trigger] prefix[j]).id == pid;
                            assert(next[j].id == pid);
                        } else {
                            let p = parent->0 as int;
                            assert(next[p].id == pid);
                        }
                    }
                }
            }
            i += 1;
        }
        assert(raw@.take(i as int) =~= raw@);
        let tree = SyntaxTree { nodes };
        proof {
            let built = Seq::new(nodes@.len(), |k: int| nodes@[k]@);
            assert forall|k: int| 0 <= k < raw.len() implies built[k] == node_of_raw(
                raw@,
                source@,
                k,
            ) by {
                assert(node_matches(raw@, source@, k, nodes[k]@));
                if raw[k].parent is Some {
                    let pid = raw[k].parent->0;
                    let p = nodes[k]@.parent->0 as int;
                    assert(raw[p].id == pid);
                    let c = index_of_id(raw@, pid);
                    assert(0 <= c < raw.len() && raw[c].id == pid);
                    if c < p {
                        assert(raw[c].id != raw[p].id);
                    } else if p < c {
                        assert(raw[p].id != raw[c].id);
                    }
                }
            }
            assert(built =~= arena_of(raw@, source@));
            assert forall|k: int| 0 <= k < built.len() implies ((#[trigger] built[k]).parent matches Some(
                p,
            ) ==> p < k) by {
                assert(node_matches(raw@, source@, k, nodes[k]@));
            }
            assert forall|a: int, b: int| 0 <= a < b < built.len() implies (#[trigger] built[a]).id
                != (#[trigger] built[b]).id by {
                assert(node_matches(raw@, source@, a, nodes[a]@));
                assert(node_matches(raw@, source@, b, nodes[b]@));
                assert(raw[a].id != raw[b].id);
            }
        }
        Some(tree)
    }

    /// The number of nodes. Every tree is well-formed.
    pub fn len(&self) -> (n: usize)
        ensures
            n == self@.len(),
            well_formed(self@),
    {
        proof {
            use_type_invariant(self);
        }
        self.nodes.len()
    }

    /// The `i`-th node in pre-order.
    pub fn node(&self, i: usize) -> (node: &SyntaxNode)
        requires
            i < self@.len(),
        ensures
            node@ == self@[i as int],
    {
        &self.nodes[i]
    }

    /// The index of the node's parent, which comes before the node.
    pub fn parent(&self, i: usize) -> (parent: Option<usize>)
        requires
            i < self@.len(),
        ensures
            parent == self@[i as int].parent,
            parent matches Some(p) ==> p < i,
    {
        proof {
            use_type_invariant(self);
        }
        self.nodes[i].parent
    }

    /// The index of the node with the given identity, if the tree has one.
    pub fn find(&self, id: usize) -> (found: Option<usize>)
        ensures
            match found {
                Some(i) => i < self@.len() && self@[i as int].id == id,
                None => forall|j: int| 0 <= j < self@.len() ==> self@[j].id != id,
            },
    {
        let mut i: usize = 0;
        while i < self.nodes.len()
            invariant
                i <= self.nodes.len(),
                forall|j: int| 0 <= j < i ==> self@[j].id != id,
            decreases self.nodes.len() - i,
        {
            if self.nodes[i].id == id {
                return Some(i);
            }
            i += 1;
        }
        None
    }
}

} // verus!
