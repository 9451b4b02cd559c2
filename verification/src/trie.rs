//! The route trie: nodes stored in a flat arena and addressed by index.
//!
//! Every edge points from a lower index to a strictly higher one, and no two
//! edges share a target, so the arena always forms a tree rooted at index 0.
//! Holding the nodes in one vector also makes teardown iterative: dropping
//! the route map never recurses over the tree, however deep it is.

use vstd::prelude::*;
use vstd::string::*;

use crate::handler::{
    conflict_error, merge_spec, ConfigError, GroupView, HandlerGroup, MergeConflict,
};
use crate::params::{has_full_token, params_have_full, params_view, PathParam, PathParamView};
use crate::util::strs_view;

verus! {

// ------------------------------------------------------------------
// Types
// ------------------------------------------------------------------

/// One step of a declared route template: a literal segment, or the
/// placeholder standing for any parameter segment.
pub enum SegKey {
    Literal(Seq<char>),
    Param,
}

/// One trie node. `children` maps literal segment text to the index of the
/// child inside the owning arena; `placeholder_child` is the index of the
/// child any declared-parameter segment descends into.
pub struct Node<H> {
    pub children: Vec<(String, usize)>,
    pub placeholder_child: Option<usize>,
    pub handler_group: Option<HandlerGroup<H>>,
}

/// The mathematical value of a node.
pub struct NodeView<H> {
    pub children: Seq<(Seq<char>, int)>,
    pub placeholder_child: Option<int>,
    pub handler_group: Option<GroupView<H>>,
}

impl<H> View for Node<H> {
    type V = NodeView<H>;

    open spec fn view(&self) -> NodeView<H> {
        NodeView {
            children: self.children@.map_values(|c: (String, usize)| (c.0@, c.1 as int)),
            placeholder_child: match self.placeholder_child {
                Some(i) => Some(i as int),
                None => None,
            },
            handler_group: match self.handler_group {
                Some(g) => Some(g@),
                None => None,
            },
        }
    }
}

/// The value of a node with no children, no placeholder child and no
/// handler group.
pub open spec fn empty_node_view<H>() -> NodeView<H> {
    NodeView { children: Seq::empty(), placeholder_child: None, handler_group: None }
}

impl<H> Node<H> {
    /// A node with no children, no placeholder child and no handler group.
    pub fn new() -> (r: Node<H>)
        ensures
            r@ == empty_node_view::<H>(),
    {
        let r = Node { children: Vec::new(), placeholder_child: None, handler_group: None };
        proof {
            assert(r@.children =~= Seq::<(Seq<char>, int)>::empty());
        }
        r
    }
}

/// The views of an arena of nodes.
pub open spec fn nodes_view<H>(nodes: Seq<Node<H>>) -> Seq<NodeView<H>> {
    nodes.map_values(|n: Node<H>| n@)
}

// ------------------------------------------------------------------
// Association-list lookup
// ------------------------------------------------------------------

/// The target of the first entry of `s` whose key is `key`.
pub open spec fn alist_find(s: Seq<(Seq<char>, int)>, key: Seq<char>) -> Option<int>
    decreases s.len(),
{
    if s.len() == 0 {
        None
    } else if s[0].0 == key {
        Some(s[0].1)
    } else {
        alist_find(s.drop_first(), key)
    }
}

proof fn lemma_alist_find_some(s: Seq<(Seq<char>, int)>, key: Seq<char>) -> (j: int)
    requires
        alist_find(s, key) is Some,
    ensures
        0 <= j < s.len(),
        s[j].0 == key,
        s[j].1 == alist_find(s, key)->Some_0,
    decreases s.len(),
{
    if s[0].0 == key {
        0
    } else {
        let j = lemma_alist_find_some(s.drop_first(), key);
        j + 1
    }
}

/// Appending an entry leaves earlier keys' lookups unchanged and serves the
/// appended key when it was absent.
proof fn lemma_alist_find_push(s: Seq<(Seq<char>, int)>, e: (Seq<char>, int), key: Seq<char>)
    ensures
        alist_find(s.push(e), key) == (if alist_find(s, key) is Some {
            alist_find(s, key)
        } else if e.0 == key {
            Some(e.1)
        } else {
            None
        }),
    decreases s.len(),
{
    if s.len() == 0 {
        assert(s.push(e)[0] == e);
        assert(s.push(e).drop_first() =~= Seq::<(Seq<char>, int)>::empty());
    } else {
        assert(s.push(e)[0] == s[0]);
        assert(s.push(e).drop_first() =~= s.drop_first().push(e));
        lemma_alist_find_push(s.drop_first(), e, key);
    }
}

// ------------------------------------------------------------------
// Walking by declared key
// ------------------------------------------------------------------

/// The child of node `i` that one template step selects.
pub open spec fn step<H>(nodes: Seq<NodeView<H>>, i: int, k: SegKey) -> Option<int> {
    match k {
        SegKey::Literal(s) => alist_find(nodes[i].children, s),
        SegKey::Param => nodes[i].placeholder_child,
    }
}

/// The node a declared key reaches from node `i`, if every step exists.
pub open spec fn key_at<H>(nodes: Seq<NodeView<H>>, i: int, key: Seq<SegKey>) -> Option<int>
    decreases key.len(),
{
    if key.len() == 0 {
        Some(i)
    } else {
        match step(nodes, i, key[0]) {
            Some(c) => key_at(nodes, c, key.drop_first()),
            None => None,
        }
    }
}

/// The handler group installed at a declared key, if any.
pub open spec fn group_at<H>(nodes: Seq<NodeView<H>>, key: Seq<SegKey>) -> Option<GroupView<H>> {
    match key_at(nodes, 0, key) {
        Some(t) => if 0 <= t < nodes.len() {
            nodes[t].handler_group
        } else {
            None
        },
        None => None,
    }
}

// ------------------------------------------------------------------
// Well-formedness
// ------------------------------------------------------------------

/// Whether `(i, j)` addresses a literal-child edge.
pub open spec fn has_child_ref<H>(nodes: Seq<NodeView<H>>, i: int, j: int) -> bool {
    0 <= i < nodes.len() && 0 <= j < nodes[i].children.len()
}

/// The target of the literal-child edge at `(i, j)`.
pub open spec fn child_ref<H>(nodes: Seq<NodeView<H>>, i: int, j: int) -> int {
    nodes[i].children[j].1
}

/// The target of node `i`'s placeholder edge, `-1` when there is none.
pub open spec fn ph_ref<H>(nodes: Seq<NodeView<H>>, i: int) -> int {
    match nodes[i].placeholder_child {
        Some(p) => p,
        None => -1,
    }
}

/// Every edge of node `i` points strictly forward inside the arena.
pub open spec fn node_wf<H>(nodes: Seq<NodeView<H>>, i: int) -> bool {
    &&& forall|j: int|
        0 <= j < nodes[i].children.len() ==> i < #[trigger] child_ref(nodes, i, j) < nodes.len()
    &&& (nodes[i].placeholder_child is Some ==> i < ph_ref(nodes, i) < nodes.len())
}

/// No two edges of the arena share a target.
pub open spec fn refs_injective<H>(nodes: Seq<NodeView<H>>) -> bool {
    &&& forall|i1: int, j1: int, i2: int, j2: int|
        has_child_ref(nodes, i1, j1) && has_child_ref(nodes, i2, j2) && (i1 != i2 || j1 != j2)
            ==> #[trigger] child_ref(nodes, i1, j1) != #[trigger] child_ref(nodes, i2, j2)
    &&& forall|i1: int, i2: int, j2: int|
        0 <= i1 < nodes.len() && has_child_ref(nodes, i2, j2) ==> #[trigger] ph_ref(nodes, i1)
            != #[trigger] child_ref(nodes, i2, j2)
    &&& forall|i1: int, i2: int|
        0 <= i1 < nodes.len() && 0 <= i2 < nodes.len() && i1 != i2 && ph_ref(nodes, i1) != -1
            ==> #[trigger] ph_ref(nodes, i1) != #[trigger] ph_ref(nodes, i2)
}

/// The arena invariant: non-empty, every edge strictly forward, no two
/// edges sharing a target.
pub open spec fn trie_wf<H>(nodes: Seq<NodeView<H>>) -> bool {
    &&& nodes.len() >= 1
    &&& forall|i: int| 0 <= i < nodes.len() ==> node_wf(nodes, i)
    &&& refs_injective(nodes)
}

// ------------------------------------------------------------------
// Structural lemmas
// ------------------------------------------------------------------

/// A step out of a well-formed node lands strictly forward, in range.
proof fn lemma_step_forward<H>(nodes: Seq<NodeView<H>>, i: int, k: SegKey, c: int)
    requires
        trie_wf(nodes),
        0 <= i < nodes.len(),
        step(nodes, i, k) == Some(c),
    ensures
        i < c < nodes.len(),
{
    assert(node_wf(nodes, i));
    match k {
        SegKey::Literal(s) => {
            let j = lemma_alist_find_some(nodes[i].children, s);
            assert(child_ref(nodes, i, j) == c);
        },
        SegKey::Param => {
            assert(ph_ref(nodes, i) == c);
        },
    }
}

/// A key reaches only nodes at or after its origin, in range.
pub proof fn lemma_key_at_forward<H>(nodes: Seq<NodeView<H>>, i: int, key: Seq<SegKey>, t: int)
    requires
        trie_wf(nodes),
        0 <= i < nodes.len(),
        key_at(nodes, i, key) == Some(t),
    ensures
        i <= t < nodes.len(),
        key.len() > 0 ==> i < t,
    decreases key.len(),
{
    if key.len() > 0 {
        let c = step(nodes, i, key[0])->Some_0;
        lemma_step_forward(nodes, i, key[0], c);
        lemma_key_at_forward(nodes, c, key.drop_first(), t);
    }
}

/// A non-empty key decomposes into its prefix and one final step.
proof fn lemma_key_at_unsnoc<H>(nodes: Seq<NodeView<H>>, i: int, key: Seq<SegKey>, t: int) -> (x:
    int)
    requires
        key_at(nodes, i, key) == Some(t),
        key.len() > 0,
    ensures
        key_at(nodes, i, key.drop_last()) == Some(x),
        step(nodes, x, key.last()) == Some(t),
    decreases key.len(),
{
    let c = step(nodes, i, key[0])->Some_0;
    if key.len() == 1 {
        assert(key.drop_last() =~= Seq::<SegKey>::empty());
        assert(key.drop_first() =~= Seq::<SegKey>::empty());
        assert(key[0] == key.last());
        i
    } else {
        let x = lemma_key_at_unsnoc(nodes, c, key.drop_first(), t);
        assert(key.drop_first().drop_last() =~= key.drop_last().drop_first());
        assert(key.drop_first().last() == key.last());
        assert(key.drop_last()[0] == key[0]);
        x
    }
}

/// Two edges with the same target are the same edge, so they carry the same
/// template step.
proof fn lemma_step_injective<H>(
    nodes: Seq<NodeView<H>>,
    x1: int,
    k1: SegKey,
    x2: int,
    k2: SegKey,
    t: int,
)
    requires
        trie_wf(nodes),
        0 <= x1 < nodes.len(),
        0 <= x2 < nodes.len(),
        step(nodes, x1, k1) == Some(t),
        step(nodes, x2, k2) == Some(t),
    ensures
        x1 == x2,
        k1 == k2,
{
    assert(node_wf(nodes, x1));
    assert(node_wf(nodes, x2));
    match k1 {
        SegKey::Literal(s1) => {
            let j1 = lemma_alist_find_some(nodes[x1].children, s1);
            assert(has_child_ref(nodes, x1, j1));
            assert(child_ref(nodes, x1, j1) == t);
            match k2 {
                SegKey::Literal(s2) => {
                    let j2 = lemma_alist_find_some(nodes[x2].children, s2);
                    assert(has_child_ref(nodes, x2, j2));
                    assert(child_ref(nodes, x2, j2) == t);
                    assert(x1 == x2 && j1 == j2);
                },
                SegKey::Param => {
                    assert(ph_ref(nodes, x2) == t);
                    assert(false);
                },
            }
        },
        SegKey::Param => {
            assert(ph_ref(nodes, x1) == t);
            match k2 {
                SegKey::Literal(s2) => {
                    let j2 = lemma_alist_find_some(nodes[x2].children, s2);
                    assert(child_ref(nodes, x2, j2) == t);
                    assert(false);
                },
                SegKey::Param => {
                    assert(ph_ref(nodes, x2) == t);
                },
            }
        },
    }
}

/// In a well-formed arena, at most one declared key reaches any node.
pub proof fn lemma_key_at_injective<H>(
    nodes: Seq<NodeView<H>>,
    k1: Seq<SegKey>,
    k2: Seq<SegKey>,
    t: int,
)
    requires
        trie_wf(nodes),
        key_at(nodes, 0, k1) == Some(t),
        key_at(nodes, 0, k2) == Some(t),
    ensures
        k1 == k2,
    decreases k1.len(),
{
    if k1.len() == 0 {
        if k2.len() > 0 {
            let x2 = lemma_key_at_unsnoc(nodes, 0, k2, t);
            lemma_key_at_forward(nodes, 0, k2.drop_last(), x2);
            lemma_step_forward(nodes, x2, k2.last(), t);
            assert(false);
        }
    } else if k2.len() == 0 {
        let x1 = lemma_key_at_unsnoc(nodes, 0, k1, t);
        lemma_key_at_forward(nodes, 0, k1.drop_last(), x1);
        lemma_step_forward(nodes, x1, k1.last(), t);
        assert(false);
    } else {
        let x1 = lemma_key_at_unsnoc(nodes, 0, k1, t);
        let x2 = lemma_key_at_unsnoc(nodes, 0, k2, t);
        lemma_key_at_forward(nodes, 0, k1.drop_last(), x1);
        lemma_key_at_forward(nodes, 0, k2.drop_last(), x2);
        lemma_step_injective(nodes, x1, k1.last(), x2, k2.last(), t);
        lemma_key_at_injective(nodes, k1.drop_last(), k2.drop_last(), x1);
        assert(k1 =~= k1.drop_last().push(k1.last()));
        assert(k2 =~= k2.drop_last().push(k2.last()));
    }
}

/// Appending one step to a key walks one edge further.
proof fn lemma_key_at_snoc<H>(nodes: Seq<NodeView<H>>, i: int, key: Seq<SegKey>, sk: SegKey)
    ensures
        key_at(nodes, i, key.push(sk)) == (match key_at(nodes, i, key) {
            Some(x) => step(nodes, x, sk),
            None => None,
        }),
    decreases key.len(),
{
    if key.len() == 0 {
        assert(key.push(sk)[0] == sk);
        assert(key.push(sk).drop_first() =~= Seq::<SegKey>::empty());
        match step(nodes, i, sk) {
            Some(c) => {
                assert(key_at(nodes, c, Seq::<SegKey>::empty()) == Some(c));
                assert(key_at(nodes, i, key.push(sk)) == Some(c));
            },
            None => {
                assert(key_at(nodes, i, key.push(sk)) is None);
            },
        }
    } else {
        assert(key.push(sk)[0] == key[0]);
        assert(key.push(sk).drop_first() =~= key.drop_first().push(sk));
        match step(nodes, i, key[0]) {
            Some(c) => {
                lemma_key_at_snoc(nodes, c, key.drop_first(), sk);
                assert(key_at(nodes, i, key.push(sk)) == key_at(
                    nodes,
                    c,
                    key.drop_first().push(sk),
                ));
            },
            None => {},
        }
    }
}

// ------------------------------------------------------------------
// Growing the arena by one node
// ------------------------------------------------------------------

/// `nodes2` is `nodes1` with one fresh empty node appended and one new edge
/// from `cur` to it, labelled `nk`, where `cur` had no such edge before.
pub open spec fn extended<H>(
    nodes1: Seq<NodeView<H>>,
    nodes2: Seq<NodeView<H>>,
    cur: int,
    nk: SegKey,
) -> bool {
    &&& nodes2.len() == nodes1.len() + 1
    &&& 0 <= cur < nodes1.len()
    &&& nodes2[nodes1.len() as int] == empty_node_view::<H>()
    &&& forall|i: int| 0 <= i < nodes1.len() && i != cur ==> nodes2[i] == nodes1[i]
    &&& step(nodes1, cur, nk) is None
    &&& nodes2[cur].handler_group == nodes1[cur].handler_group
    &&& match nk {
        SegKey::Literal(s) => nodes2[cur].children == nodes1[cur].children.push(
            (s, nodes1.len() as int),
        ) && nodes2[cur].placeholder_child == nodes1[cur].placeholder_child,
        SegKey::Param => nodes2[cur].children == nodes1[cur].children
            && nodes2[cur].placeholder_child == Some(nodes1.len() as int),
    }
}

/// Growing the arena preserves the invariant.
proof fn lemma_extend_wf<H>(
    nodes1: Seq<NodeView<H>>,
    nodes2: Seq<NodeView<H>>,
    cur: int,
    nk: SegKey,
)
    requires
        trie_wf(nodes1),
        extended(nodes1, nodes2, cur, nk),
    ensures
        trie_wf(nodes2),
        step(nodes2, cur, nk) == Some(nodes1.len() as int),
{
    let len1 = nodes1.len() as int;
    assert(node_wf(nodes1, cur));
    let new_child = match nk {
        SegKey::Literal(s) => true,
        SegKey::Param => false,
    };
    // Every literal edge is an unchanged old edge, except possibly the one
    // appended entry of `cur`.
    assert forall|i: int, j: int| has_child_ref(nodes2, i, j) implies (has_child_ref(nodes1, i, j)
        && child_ref(nodes2, i, j) == child_ref(nodes1, i, j) && i < len1) || (i == cur
        && new_child && j == nodes1[cur].children.len() && child_ref(nodes2, i, j) == len1) by {
        if i == len1 {
            assert(nodes2[i].children.len() == 0);
        } else if i == cur {
            match nk {
                SegKey::Literal(s) => {
                    if j < nodes1[cur].children.len() {
                        assert(nodes2[cur].children[j] == nodes1[cur].children[j]);
                    } else {
                        assert(nodes2[cur].children[j] == (s, len1));
                    }
                },
                SegKey::Param => {
                    assert(nodes2[cur].children[j] == nodes1[cur].children[j]);
                },
            }
        } else {
            assert(nodes2[i] == nodes1[i]);
        }
    }
    // Every placeholder edge is an unchanged old edge, except possibly the
    // one new placeholder of `cur`.
    assert forall|i: int| 0 <= i < nodes2.len() implies ph_ref(nodes2, i) == ph_ref(nodes1, i)
        && i < len1 || (i == cur && !new_child && ph_ref(nodes2, i) == len1) || (i == len1
        && ph_ref(nodes2, i) == -1) by {
        if i == len1 {
        } else if i == cur {
            match nk {
                SegKey::Literal(s) => {},
                SegKey::Param => {},
            }
        } else {
            assert(nodes2[i] == nodes1[i]);
        }
    }
    // Old edges target old nodes.
    assert forall|i: int, j: int| has_child_ref(nodes1, i, j) implies i < #[trigger] child_ref(
        nodes1,
        i,
        j,
    ) < len1 by {
        assert(node_wf(nodes1, i));
    }
    assert forall|i: int| 0 <= i < len1 && ph_ref(nodes1, i) != -1 implies i < #[trigger] ph_ref(
        nodes1,
        i,
    ) < len1 by {
        assert(node_wf(nodes1, i));
    }
    assert forall|i: int| 0 <= i < nodes2.len() implies node_wf(nodes2, i) by {
        if i < len1 {
            assert(node_wf(nodes1, i));
        }
        assert forall|j: int| 0 <= j < nodes2[i].children.len() implies i < #[trigger] child_ref(
            nodes2,
            i,
            j,
        ) < nodes2.len() by {
            assert(has_child_ref(nodes2, i, j));
        }
        if i == len1 {
            assert(nodes2[i].placeholder_child is None);
        }
    }
    assert forall|i1: int, j1: int, i2: int, j2: int|
        has_child_ref(nodes2, i1, j1) && has_child_ref(nodes2, i2, j2) && (i1 != i2 || j1 != j2)
        implies #[trigger] child_ref(nodes2, i1, j1) != #[trigger] child_ref(nodes2, i2, j2) by {
        if has_child_ref(nodes1, i1, j1) && child_ref(nodes2, i1, j1) == child_ref(
            nodes1,
            i1,
            j1,
        ) && has_child_ref(nodes1, i2, j2) && child_ref(nodes2, i2, j2) == child_ref(
            nodes1,
            i2,
            j2,
        ) {
            assert(child_ref(nodes1, i1, j1) != child_ref(nodes1, i2, j2));
        }
    }
    assert forall|i1: int, i2: int, j2: int|
        0 <= i1 < nodes2.len() && has_child_ref(nodes2, i2, j2) implies #[trigger] ph_ref(
        nodes2,
        i1,
    ) != #[trigger] child_ref(nodes2, i2, j2) by {
        if ph_ref(nodes2, i1) == ph_ref(nodes1, i1) && i1 < len1 && has_child_ref(nodes1, i2, j2)
            && child_ref(nodes2, i2, j2) == child_ref(nodes1, i2, j2) {
            assert(ph_ref(nodes1, i1) != child_ref(nodes1, i2, j2));
        }
    }
    assert forall|i1: int, i2: int|
        0 <= i1 < nodes2.len() && 0 <= i2 < nodes2.len() && i1 != i2 && ph_ref(nodes2, i1) != -1
        implies #[trigger] ph_ref(nodes2, i1) != #[trigger] ph_ref(nodes2, i2) by {
        if ph_ref(nodes2, i1) == ph_ref(nodes1, i1) && i1 < len1 && ph_ref(nodes2, i2) == ph_ref(
            nodes1,
            i2,
        ) && i2 < len1 {
            assert(ph_ref(nodes1, i1) != -1 ==> ph_ref(nodes1, i1) != ph_ref(nodes1, i2));
        }
    }
    match nk {
        SegKey::Literal(s) => {
            lemma_alist_find_push(nodes1[cur].children, (s, len1), s);
        },
        SegKey::Param => {},
    }
}

/// Growing the arena preserves every existing walk; a walk that reaches the
/// fresh node did not exist before.
proof fn lemma_extend_key_at<H>(
    nodes1: Seq<NodeView<H>>,
    nodes2: Seq<NodeView<H>>,
    cur: int,
    nk: SegKey,
    i: int,
    key: Seq<SegKey>,
)
    requires
        trie_wf(nodes1),
        extended(nodes1, nodes2, cur, nk),
        0 <= i < nodes1.len(),
    ensures
        key_at(nodes2, i, key) == key_at(nodes1, i, key) || (key_at(nodes2, i, key) == Some(
            nodes1.len() as int,
        ) && key_at(nodes1, i, key) is None),
    decreases key.len(),
{
    let len1 = nodes1.len() as int;
    if key.len() == 0 {
    } else {
        let sk = key[0];
        if i == cur {
            match nk {
                SegKey::Literal(s) => {
                    match sk {
                        SegKey::Literal(s0) => {
                            lemma_alist_find_push(nodes1[cur].children, (s, len1), s0);
                            if s0 == s {
                                assert(step(nodes2, i, sk) == Some(len1));
                                assert(step(nodes1, i, sk) is None);
                                assert(key_at(nodes1, i, key) is None);
                                if key.drop_first().len() == 0 {
                                    assert(key_at(nodes2, len1, key.drop_first()) == Some(len1));
                                } else {
                                    assert(nodes2[len1].children =~= Seq::<(Seq<char>, int)>::empty());
                                    assert(step(nodes2, len1, key.drop_first()[0]) is None);
                                    assert(key_at(nodes2, len1, key.drop_first()) is None);
                                    assert(key_at(nodes2, i, key) is None);
                                }
                            } else {
                                assert(step(nodes2, i, sk) == step(nodes1, i, sk));
                                match step(nodes1, i, sk) {
                                    Some(c) => {
                                        lemma_step_forward(nodes1, i, sk, c);
                                        lemma_extend_key_at(nodes1, nodes2, cur, nk, c, key.drop_first());
                                    },
                                    None => {},
                                }
                            }
                        },
                        SegKey::Param => {
                            assert(step(nodes2, i, sk) == step(nodes1, i, sk));
                            match step(nodes1, i, sk) {
                                Some(c) => {
                                    lemma_step_forward(nodes1, i, sk, c);
                                    lemma_extend_key_at(nodes1, nodes2, cur, nk, c, key.drop_first());
                                },
                                None => {},
                            }
                        },
                    }
                },
                SegKey::Param => {
                    match sk {
                        SegKey::Param => {
                            assert(step(nodes2, i, sk) == Some(len1));
                            assert(step(nodes1, i, sk) is None);
                            assert(key_at(nodes1, i, key) is None);
                            if key.drop_first().len() == 0 {
                                assert(key_at(nodes2, len1, key.drop_first()) == Some(len1));
                            } else {
                                assert(nodes2[len1].children =~= Seq::<(Seq<char>, int)>::empty());
                                assert(step(nodes2, len1, key.drop_first()[0]) is None);
                                assert(key_at(nodes2, len1, key.drop_first()) is None);
                                assert(key_at(nodes2, i, key) is None);
                            }
                        },
                        SegKey::Literal(s0) => {
                            assert(step(nodes2, i, sk) == step(nodes1, i, sk));
                            match step(nodes1, i, sk) {
                                Some(c) => {
                                    lemma_step_forward(nodes1, i, sk, c);
                                    lemma_extend_key_at(nodes1, nodes2, cur, nk, c, key.drop_first());
                                },
                                None => {},
                            }
                        },
                    }
                },
            }
        } else {
            assert(nodes2[i] == nodes1[i]);
            assert(step(nodes2, i, sk) == step(nodes1, i, sk));
            match step(nodes1, i, sk) {
                Some(c) => {
                    lemma_step_forward(nodes1, i, sk, c);
                    lemma_extend_key_at(nodes1, nodes2, cur, nk, c, key.drop_first());
                },
                None => {},
            }
        }
    }
}

/// Growing the arena changes no installed group.
proof fn lemma_extend_group_at<H>(
    nodes1: Seq<NodeView<H>>,
    nodes2: Seq<NodeView<H>>,
    cur: int,
    nk: SegKey,
)
    requires
        trie_wf(nodes1),
        extended(nodes1, nodes2, cur, nk),
    ensures
        forall|k: Seq<SegKey>| #[trigger] group_at(nodes2, k) == group_at(nodes1, k),
        forall|k: Seq<SegKey>|
            key_at(nodes1, 0, k) is Some ==> #[trigger] key_at(nodes2, 0, k) == key_at(
                nodes1,
                0,
                k,
            ),
{
    let len1 = nodes1.len() as int;
    assert forall|k: Seq<SegKey>| #[trigger] group_at(nodes2, k) == group_at(nodes1, k) by {
        lemma_extend_key_at(nodes1, nodes2, cur, nk, 0, k);
        match key_at(nodes1, 0, k) {
            Some(t) => {
                lemma_key_at_forward(nodes1, 0, k, t);
                if t != cur {
                    assert(nodes2[t] == nodes1[t]);
                }
            },
            None => {},
        }
    }
    assert forall|k: Seq<SegKey>| key_at(nodes1, 0, k) is Some implies #[trigger] key_at(
        nodes2,
        0,
        k,
    ) == key_at(nodes1, 0, k) by {
        lemma_extend_key_at(nodes1, nodes2, cur, nk, 0, k);
    }
}

// ------------------------------------------------------------------
// Installing a group at a node
// ------------------------------------------------------------------

/// `nodes2` is `nodes1` with only node `t`'s handler group changed.
pub open spec fn group_set<H>(nodes1: Seq<NodeView<H>>, nodes2: Seq<NodeView<H>>, t: int) -> bool {
    &&& nodes2.len() == nodes1.len()
    &&& 0 <= t < nodes1.len()
    &&& forall|i: int| 0 <= i < nodes1.len() && i != t ==> nodes2[i] == nodes1[i]
    &&& nodes2[t].children == nodes1[t].children
    &&& nodes2[t].placeholder_child == nodes1[t].placeholder_child
}

/// Changing a handler group moves no edge: the invariant and every walk are
/// preserved, and only the one node's group changes.
proof fn lemma_group_set_key_at<H>(
    nodes1: Seq<NodeView<H>>,
    nodes2: Seq<NodeView<H>>,
    t: int,
    i: int,
    key: Seq<SegKey>,
)
    requires
        trie_wf(nodes1),
        group_set(nodes1, nodes2, t),
        0 <= i < nodes1.len(),
    ensures
        key_at(nodes2, i, key) == key_at(nodes1, i, key),
    decreases key.len(),
{
    if key.len() == 0 {
    } else {
        assert(nodes2[i].children == nodes1[i].children);
        assert(nodes2[i].placeholder_child == nodes1[i].placeholder_child);
        assert(step(nodes2, i, key[0]) == step(nodes1, i, key[0]));
        match step(nodes1, i, key[0]) {
            Some(c) => {
                lemma_step_forward(nodes1, i, key[0], c);
                lemma_group_set_key_at(nodes1, nodes2, t, c, key.drop_first());
            },
            None => {},
        }
    }
}

/// After installing a group at node `t`, the group at the unique key that
/// reaches `t` is the new group, and every other key's group is unchanged.
proof fn lemma_group_set_group_at<H>(
    nodes1: Seq<NodeView<H>>,
    nodes2: Seq<NodeView<H>>,
    t: int,
    tkey: Seq<SegKey>,
)
    requires
        trie_wf(nodes1),
        group_set(nodes1, nodes2, t),
        key_at(nodes1, 0, tkey) == Some(t),
    ensures
        trie_wf(nodes2),
        group_at(nodes2, tkey) == nodes2[t].handler_group,
        forall|k: Seq<SegKey>|
            k != tkey ==> #[trigger] group_at(nodes2, k) == group_at(nodes1, k),
{
    assert forall|i: int| 0 <= i < nodes2.len() implies node_wf(nodes2, i) by {
        assert(node_wf(nodes1, i));
        assert(nodes2[i].children == nodes1[i].children);
        assert(nodes2[i].placeholder_child == nodes1[i].placeholder_child);
        assert forall|j: int| 0 <= j < nodes2[i].children.len() implies i < #[trigger] child_ref(
            nodes2,
            i,
            j,
        ) < nodes2.len() by {
            assert(child_ref(nodes2, i, j) == child_ref(nodes1, i, j));
        }
        assert(ph_ref(nodes2, i) == ph_ref(nodes1, i));
    }
    assert forall|i1: int, j1: int, i2: int, j2: int|
        has_child_ref(nodes2, i1, j1) && has_child_ref(nodes2, i2, j2) && (i1 != i2 || j1 != j2)
        implies #[trigger] child_ref(nodes2, i1, j1) != #[trigger] child_ref(nodes2, i2, j2) by {
        assert(child_ref(nodes2, i1, j1) == child_ref(nodes1, i1, j1));
        assert(child_ref(nodes2, i2, j2) == child_ref(nodes1, i2, j2));
    }
    assert forall|i1: int, i2: int, j2: int|
        0 <= i1 < nodes2.len() && has_child_ref(nodes2, i2, j2) implies #[trigger] ph_ref(
        nodes2,
        i1,
    ) != #[trigger] child_ref(nodes2, i2, j2) by {
        assert(ph_ref(nodes2, i1) == ph_ref(nodes1, i1));
        assert(child_ref(nodes2, i2, j2) == child_ref(nodes1, i2, j2));
    }
    assert forall|i1: int, i2: int|
        0 <= i1 < nodes2.len() && 0 <= i2 < nodes2.len() && i1 != i2 && ph_ref(nodes2, i1) != -1
        implies #[trigger] ph_ref(nodes2, i1) != #[trigger] ph_ref(nodes2, i2) by {
        assert(ph_ref(nodes2, i1) == ph_ref(nodes1, i1));
        assert(ph_ref(nodes2, i2) == ph_ref(nodes1, i2));
    }
    lemma_group_set_key_at(nodes1, nodes2, t, 0, tkey);
    assert forall|k: Seq<SegKey>| k != tkey implies #[trigger] group_at(nodes2, k) == group_at(
        nodes1,
        k,
    ) by {
        lemma_group_set_key_at(nodes1, nodes2, t, 0, k);
        match key_at(nodes1, 0, k) {
            Some(x) => {
                if x == t {
                    lemma_key_at_injective(nodes1, k, tkey, t);
                } else {
                    lemma_key_at_forward(nodes1, 0, k, x);
                }
            },
            None => {},
        }
    }
}

// ------------------------------------------------------------------
// Segment classification
// ------------------------------------------------------------------

/// The template step a declared segment stands for: the placeholder when
/// the segment is a parameter-delimiter wrapper around one of the declared
/// full-match tokens, the literal segment text otherwise.
pub open spec fn seg_key(seg: Seq<char>, ps: Seq<PathParamView>) -> SegKey {
    if seg.len() >= 2 && seg[0] == '{' && seg.last() == '}' && params_have_full(
        ps,
        seg.subrange(1, seg.len() - 1),
    ) {
        SegKey::Param
    } else {
        SegKey::Literal(seg)
    }
}

/// The declared key of a whole template: one step per segment.
pub open spec fn route_key(segs: Seq<Seq<char>>, ps: Seq<PathParamView>) -> Seq<SegKey> {
    segs.map_values(|s: Seq<char>| seg_key(s, ps))
}

/// Whether a declared segment is a placeholder for one of `params`.
pub fn is_placeholder_segment(seg: &String, params: &Vec<PathParam>) -> (r: bool)
    ensures
        r == (seg_key(seg@, params_view(params@)) is Param),
{
    let s = seg.as_str();
    let n = s.unicode_len();
    if n < 2 {
        return false;
    }
    if s.get_char(0) != '{' {
        return false;
    }
    if s.get_char(n - 1) != '}' {
        proof {
            assert(seg@.last() == seg@[n - 1]);
        }
        return false;
    }
    proof {
        assert(seg@.last() == seg@[n - 1]);
    }
    let inner = s.substring_char(1, n - 1).to_owned();
    has_full_token(params, &inner)
}

// ------------------------------------------------------------------
// Lookup and insertion helpers
// ------------------------------------------------------------------

/// Finds the literal child of `node` for the segment text `seg`.
pub fn find_child<H>(node: &Node<H>, seg: &String) -> (r: Option<usize>)
    ensures
        match r {
            Some(c) => alist_find(node@.children, seg@) == Some(c as int),
            None => alist_find(node@.children, seg@) is None,
        },
{
    let mut i: usize = 0;
    proof {
        assert(node@.children.skip(0) =~= node@.children);
    }
    while i < node.children.len()
        invariant
            i <= node.children@.len(),
            node@.children.len() == node.children@.len(),
            alist_find(node@.children, seg@) == alist_find(node@.children.skip(i as int), seg@),
        decreases node.children@.len() - i,
    {
        proof {
            assert(node@.children.skip(i as int)[0] == node@.children[i as int]);
            assert(node@.children[i as int] == (node.children@[i as int].0@, node.children@[
                i as int
            ].1 as int));
            assert(node@.children.skip(i as int).drop_first() =~= node@.children.skip(
                i as int + 1,
            ));
        }
        if node.children[i].0 == *seg {
            return Some(node.children[i].1);
        }
        i += 1;
    }
    proof {
        assert(node@.children.skip(node.children@.len() as int) =~= Seq::<(Seq<char>, int)>::empty());
    }
    None
}

/// What installing a new group over an existing position yields: the new
/// group on free positions, the merge result otherwise.
pub open spec fn inserted_group<H>(cur: Option<GroupView<H>>, newg: GroupView<H>) -> Result<
    GroupView<H>,
    MergeConflict,
> {
    match cur {
        None => Ok(newg),
        Some(c) => merge_spec(c, newg),
    }
}

/// Descends the trie along the declared key of `segments` (creating nodes
/// as needed) and installs `group` at the terminal node, merging with an
/// existing group there; `path` only labels a conflict error.  On success
/// the declared key holds the installed group and every other key is
/// untouched; on conflict no key's group changes.
pub fn insert_group<H>(
    nodes: &mut Vec<Node<H>>,
    segments: &Vec<String>,
    params: &Vec<PathParam>,
    group: HandlerGroup<H>,
    path: &str,
) -> (r: Result<(), ConfigError>)
    requires
        trie_wf(nodes_view(old(nodes)@)),
    ensures
        trie_wf(nodes_view(final(nodes)@)),
        ({
            let key = route_key(strs_view(segments@), params_view(params@));
            let before = nodes_view(old(nodes)@);
            let after = nodes_view(final(nodes)@);
            match r {
                Ok(()) => {
                    &&& inserted_group(group_at(before, key), group@) matches Ok(g) && group_at(
                        after,
                        key,
                    ) == Some(g)
                    &&& forall|k: Seq<SegKey>|
                        k != key ==> #[trigger] group_at(after, k) == group_at(before, k)
                },
                Err(e) => {
                    &&& inserted_group(group_at(before, key), group@) matches Err(c) && e@
                        == conflict_error(c, path@)
                    &&& forall|k: Seq<SegKey>|
                        #[trigger] group_at(after, k) == group_at(before, k)
                },
            }
        }),
{
    let ghost key = route_key(strs_view(segments@), params_view(params@));
    let ghost before = nodes_view(old(nodes)@);
    let mut cur: usize = 0;
    let mut idx: usize = 0;
    proof {
        assert(key.subrange(0, 0) =~= Seq::<SegKey>::empty());
    }
    while idx < segments.len()
        invariant
            trie_wf(nodes_view(nodes@)),
            idx <= segments@.len(),
            key == route_key(strs_view(segments@), params_view(params@)),
            key.len() == segments@.len(),
            (cur as int) < nodes_view(nodes@).len(),
            key_at(nodes_view(nodes@), 0, key.subrange(0, idx as int)) == Some(cur as int),
            forall|k: Seq<SegKey>| #[trigger] group_at(nodes_view(nodes@), k) == group_at(
                before,
                k,
            ),
        decreases segments@.len() - idx,
    {
        let seg = &segments[idx];
        let ghost nv1 = nodes_view(nodes@);
        let ghost sk = key[idx as int];
        let ghost prefix = key.subrange(0, idx as int);
        proof {
            assert(strs_view(segments@)[idx as int] == segments@[idx as int]@);
            assert(sk == seg_key(seg@, params_view(params@)));
            assert(nv1[cur as int] == nodes@[cur as int]@);
            assert(key.subrange(0, idx as int + 1) =~= prefix.push(sk));
        }
        let placeholder = is_placeholder_segment(seg, params);
        if placeholder {
            proof {
                assert(sk == SegKey::Param);
            }
            let next = nodes[cur].placeholder_child;
            match next {
                Some(c) => {
                    proof {
                        assert(step(nv1, cur as int, sk) == Some(c as int));
                        lemma_step_forward(nv1, cur as int, sk, c as int);
                        lemma_key_at_snoc(nv1, 0, prefix, sk);
                    }
                    cur = c;
                },
                None => {
                    let fresh = nodes.len();
                    nodes.push(Node::new());
                    let tnode = &mut nodes[cur];
                    tnode.placeholder_child = Some(fresh);
                    proof {
                        let nv2 = nodes_view(nodes@);
                        assert(step(nv1, cur as int, sk) is None);
                        assert(nv2.len() == nv1.len() + 1);
                        assert(nv2[fresh as int] == empty_node_view::<H>());
                        assert(forall|i: int|
                            0 <= i < nv1.len() && i != cur ==> nv2[i] == nv1[i]);
                        assert(nv2[cur as int].handler_group == nv1[cur as int].handler_group);
                        assert(nv2[cur as int].children == nv1[cur as int].children);
                        assert(nv2[cur as int].placeholder_child == Some(fresh as int));
                        assert(extended(nv1, nv2, cur as int, sk));
                        lemma_extend_wf(nv1, nv2, cur as int, sk);
                        lemma_extend_group_at(nv1, nv2, cur as int, sk);
                        assert(key_at(nv2, 0, prefix) == Some(cur as int));
                        lemma_key_at_snoc(nv2, 0, prefix, sk);
                        assert forall|k: Seq<SegKey>| #[trigger] group_at(nv2, k) == group_at(
                            before,
                            k,
                        ) by {
                            assert(group_at(nv2, k) == group_at(nv1, k));
                        }
                    }
                    cur = fresh;
                },
            }
        } else {
            proof {
                assert(sk == SegKey::Literal(seg@));
            }
            let found = find_child(&nodes[cur], seg);
            match found {
                Some(c) => {
                    proof {
                        assert(step(nv1, cur as int, sk) == Some(c as int));
                        lemma_step_forward(nv1, cur as int, sk, c as int);
                        lemma_key_at_snoc(nv1, 0, prefix, sk);
                    }
                    cur = c;
                },
                None => {
                    let fresh = nodes.len();
                    nodes.push(Node::new());
                    let segc = seg.clone();
                    let tnode = &mut nodes[cur];
                    tnode.children.push((segc, fresh));
                    proof {
                        let nv2 = nodes_view(nodes@);
                        assert(step(nv1, cur as int, sk) is None);
                        assert(nv2.len() == nv1.len() + 1);
                        assert(nv2[fresh as int] == empty_node_view::<H>());
                        assert(forall|i: int|
                            0 <= i < nv1.len() && i != cur ==> nv2[i] == nv1[i]);
                        assert(nv2[cur as int].handler_group == nv1[cur as int].handler_group);
                        assert(nv2[cur as int].children =~= nv1[cur as int].children.push(
                            (seg@, fresh as int),
                        ));
                        assert(nv2[cur as int].placeholder_child == nv1[
                            cur as int
                        ].placeholder_child);
                        assert(extended(nv1, nv2, cur as int, sk));
                        lemma_extend_wf(nv1, nv2, cur as int, sk);
                        lemma_extend_group_at(nv1, nv2, cur as int, sk);
                        assert(key_at(nv2, 0, prefix) == Some(cur as int));
                        lemma_key_at_snoc(nv2, 0, prefix, sk);
                        assert forall|k: Seq<SegKey>| #[trigger] group_at(nv2, k) == group_at(
                            before,
                            k,
                        ) by {
                            assert(group_at(nv2, k) == group_at(nv1, k));
                        }
                    }
                    cur = fresh;
                },
            }
        }
        idx += 1;
    }
    proof {
        assert(key.subrange(0, segments@.len() as int) =~= key);
    }
    let ghost pre = nodes_view(nodes@);
    let tnode = &mut nodes[cur];
    let ghost old_group = tnode.handler_group;
    let r: Result<(), ConfigError> = match &mut tnode.handler_group {
        Some(existing) => existing.merge(group, path),
        None => {
            tnode.handler_group = Some(group);
            Ok(())
        },
    };
    proof {
        let after = nodes_view(nodes@);
        assert(after =~= pre.update(cur as int, nodes@[cur as int]@));
        assert(group_set(pre, after, cur as int));
        lemma_group_set_group_at(pre, after, cur as int, key);
        assert(group_at(pre, key) == pre[cur as int].handler_group);
        assert(group_at(before, key) == group_at(pre, key));
        assert forall|k: Seq<SegKey>| k != key implies #[trigger] group_at(after, k) == group_at(
            before,
            k,
        ) by {
            assert(group_at(after, k) == group_at(pre, k));
        }
        if r is Err {
            assert(after[cur as int].handler_group == pre[cur as int].handler_group);
            assert(group_at(after, key) == group_at(before, key));
        }
    }
    r
}

// ------------------------------------------------------------------
// Request-time matching
// ------------------------------------------------------------------

/// The walk a request's segments take from node `i`: an exact literal child
/// always wins; otherwise the placeholder child is taken and the segment
/// text is collected as a parameter value; otherwise a static group at the
/// current node short-circuits the walk (the `bool` records that); and
/// otherwise the walk fails.
pub open spec fn walk<H>(nodes: Seq<NodeView<H>>, i: int, segs: Seq<Seq<char>>) -> Option<
    (int, Seq<Seq<char>>, bool),
>
    decreases segs.len(),
{
    if segs.len() == 0 {
        Some((i, Seq::empty(), false))
    } else {
        match alist_find(nodes[i].children, segs[0]) {
            Some(c) => walk(nodes, c, segs.drop_first()),
            None => match nodes[i].placeholder_child {
                Some(p) => match walk(nodes, p, segs.drop_first()) {
                    Some(res) => Some((res.0, seq![segs[0]] + res.1, res.2)),
                    None => None,
                },
                None => if nodes[i].handler_group matches Some(GroupView::Static { .. }) {
                    Some((i, Seq::empty(), true))
                } else {
                    None
                },
            },
        }
    }
}

/// Prepends already-collected parameter values to a walk outcome.
pub open spec fn walk_prepend(
    vals: Seq<Seq<char>>,
    w: Option<(int, Seq<Seq<char>>, bool)>,
) -> Option<(int, Seq<Seq<char>>, bool)> {
    match w {
        Some(res) => Some((res.0, vals + res.1, res.2)),
        None => None,
    }
}

/// Walks the trie for a request's segments, collecting parameter values.
pub fn walk_find<H>(nodes: &Vec<Node<H>>, segments: &Vec<String>) -> (r: Option<
    (usize, Vec<String>, bool),
>)
    requires
        trie_wf(nodes_view(nodes@)),
    ensures
        ({
            let w = walk(nodes_view(nodes@), 0, strs_view(segments@));
            match r {
                Some(res) => w == Some(((res.0) as int, strs_view(res.1@), res.2)) && (res.0)
                    < nodes@.len(),
                None => w is None,
            }
        }),
{
    let ghost nv = nodes_view(nodes@);
    let ghost full = strs_view(segments@);
    let mut cur: usize = 0;
    let mut idx: usize = 0;
    let mut vals: Vec<String> = Vec::new();
    proof {
        assert(full.skip(0) =~= full);
        assert(strs_view(vals@) =~= Seq::<Seq<char>>::empty());
        assert(walk_prepend(strs_view(vals@), walk(nv, 0, full)) == walk(nv, 0, full)) by {
            match walk(nv, 0, full) {
                Some(res) => {
                    assert(Seq::<Seq<char>>::empty() + res.1 =~= res.1);
                },
                None => {},
            }
        }
    }
    while idx < segments.len()
        invariant
            trie_wf(nv),
            nv == nodes_view(nodes@),
            full == strs_view(segments@),
            idx <= segments@.len(),
            (cur as int) < nv.len(),
            walk(nv, 0, full) == walk_prepend(strs_view(vals@), walk(nv, cur as int, full.skip(
                idx as int,
            ))),
        decreases segments@.len() - idx,
    {
        let seg = &segments[idx];
        let ghost rest = full.skip(idx as int);
        proof {
            assert(rest[0] == seg@);
            assert(rest.drop_first() =~= full.skip(idx as int + 1));
        }
        let found = find_child(&nodes[cur], seg);
        match found {
            Some(c) => {
                proof {
                    assert(nv[cur as int] == nodes@[cur as int]@);
                    assert(step(nv, cur as int, SegKey::Literal(seg@)) == Some(c as int));
                    lemma_step_forward(nv, cur as int, SegKey::Literal(seg@), c as int);
                    assert(walk(nv, cur as int, rest) == walk(nv, c as int, rest.drop_first()));
                }
                cur = c;
            },
            None => {
                let ph = nodes[cur].placeholder_child;
                match ph {
                    Some(p) => {
                        proof {
                            assert(nv[cur as int] == nodes@[cur as int]@);
                            assert(step(nv, cur as int, SegKey::Param) == Some(p as int));
                            lemma_step_forward(nv, cur as int, SegKey::Param, p as int);
                        }
                        let ghost old_vals = strs_view(vals@);
                        vals.push(seg.clone());
                        proof {
                            assert(strs_view(vals@) =~= old_vals.push(seg@));
                            let w_deep = walk(nv, p as int, rest.drop_first());
                            assert(walk(nv, cur as int, rest) == walk_prepend(seq![seg@], w_deep));
                            match w_deep {
                                Some(res) => {
                                    assert(old_vals + (seq![seg@] + res.1) =~= old_vals.push(seg@)
                                        + res.1);
                                },
                                None => {},
                            }
                        }
                        cur = p;
                    },
                    None => {
                        let is_static_here = match &nodes[cur].handler_group {
                            Some(HandlerGroup::Static { .. }) => true,
                            _ => false,
                        };
                        proof {
                            assert(nv[cur as int] == nodes@[cur as int]@);
                            assert(is_static_here == (nv[cur as int].handler_group matches Some(
                                GroupView::Static { .. },
                            )));
                        }
                        if is_static_here {
                            proof {
                                assert(walk(nv, cur as int, rest) == Some(
                                    (cur as int, Seq::<Seq<char>>::empty(), true),
                                ));
                                assert(strs_view(vals@) + Seq::<Seq<char>>::empty() =~= strs_view(
                                    vals@,
                                ));
                            }
                            return Some((cur, vals, true));
                        } else {
                            proof {
                                assert(walk(nv, cur as int, rest) is None);
                            }
                            return None;
                        }
                    },
                }
            },
        }
        idx += 1;
    }
    proof {
        assert(full.skip(segments@.len() as int) =~= Seq::<Seq<char>>::empty());
        assert(walk(nv, cur as int, Seq::<Seq<char>>::empty()) == Some(
            (cur as int, Seq::<Seq<char>>::empty(), false),
        ));
        assert(strs_view(vals@) + Seq::<Seq<char>>::empty() =~= strs_view(vals@));
    }
    Some((cur, vals, false))
}

// ------------------------------------------------------------------
// The walk finds declared keys
// ------------------------------------------------------------------

/// Whether a request's segments realize a declared key along its walk from
/// node `i`: literal steps carry the same segment text, and at each
/// placeholder step no literal child captures the request's segment there
/// (a literal match would win over the placeholder).
pub open spec fn realizes<H>(
    nodes: Seq<NodeView<H>>,
    i: int,
    key: Seq<SegKey>,
    segs: Seq<Seq<char>>,
) -> bool
    decreases key.len(),
{
    if key.len() == 0 {
        true
    } else {
        match step(nodes, i, key[0]) {
            Some(c) => {
                let head_ok = match key[0] {
                    SegKey::Literal(s) => segs[0] == s,
                    SegKey::Param => alist_find(nodes[i].children, segs[0]) is None,
                };
                head_ok && realizes(nodes, c, key.drop_first(), segs.drop_first())
            },
            None => false,
        }
    }
}

/// The segments standing at the placeholder positions of a key, in order.
pub open spec fn params_of(key: Seq<SegKey>, segs: Seq<Seq<char>>) -> Seq<Seq<char>>
    decreases key.len(),
{
    if key.len() == 0 {
        Seq::empty()
    } else {
        match key[0] {
            SegKey::Literal(s) => params_of(key.drop_first(), segs.drop_first()),
            SegKey::Param => seq![segs[0]] + params_of(key.drop_first(), segs.drop_first()),
        }
    }
}

/// Law: a request whose segments realize a declared key walks to exactly
/// the node that key reaches, collecting the placeholder segments as its
/// parameter values, without a static short-circuit.
pub proof fn lemma_walk_finds_key<H>(
    nodes: Seq<NodeView<H>>,
    i: int,
    key: Seq<SegKey>,
    segs: Seq<Seq<char>>,
    t: int,
)
    requires
        trie_wf(nodes),
        0 <= i < nodes.len(),
        key_at(nodes, i, key) == Some(t),
        realizes(nodes, i, key, segs),
        segs.len() == key.len(),
    ensures
        walk(nodes, i, segs) == Some((t, params_of(key, segs), false)),
    decreases key.len(),
{
    if key.len() == 0 {
        assert(params_of(key, segs) =~= Seq::<Seq<char>>::empty());
    } else {
        let c = step(nodes, i, key[0])->Some_0;
        lemma_step_forward(nodes, i, key[0], c);
        lemma_walk_finds_key(nodes, c, key.drop_first(), segs.drop_first(), t);
        match key[0] {
            SegKey::Literal(s) => {
                assert(alist_find(nodes[i].children, segs[0]) == Some(c));
                assert(walk(nodes, i, segs) == walk(nodes, c, segs.drop_first()));
            },
            SegKey::Param => {
                assert(alist_find(nodes[i].children, segs[0]) is None);
                assert(nodes[i].placeholder_child == Some(c));
                assert(walk(nodes, i, segs) == (match walk(nodes, c, segs.drop_first()) {
                    Some(res) => Some((res.0, seq![segs[0]] + res.1, res.2)),
                    None => None,
                }));
            },
        }
    }
}

} // verus!
