//! Decision-tree nodes, trees, and the traversal that evaluates a tree.
use std::collections::HashMap;
use vstd::prelude::*;

use crate::bits::{bits_is_nan, bits_less_than, is_nan, less_than};

verus! {

broadcast use vstd::std_specs::hash::group_hash_axioms;

/// Why a traversal stopped before reaching a leaf.
#[derive(Debug, Clone, Copy, PartialEq, Eq)]
pub enum PredictError {
    /// A feature that a split reads is missing or is a NaN.
    InvalidInput,
    /// A child reference leads nowhere, or the path does not end.
    CorruptModel,
}

/// One node of a tree. Floats are binary64 bit patterns.
#[derive(Debug, Clone, Copy, PartialEq, Eq)]
pub struct TreeNode {
    pub id: usize,
    pub split_index: usize,
    pub split_condition: u64,
    pub left: Option<usize>,
    pub right: Option<usize>,
    pub value: u64,
}

impl TreeNode {
    pub open spec fn spec_is_leaf(&self) -> bool {
        self.left.is_none() && self.right.is_none()
    }

    /// Neither float is a NaN, and the node has both children or none.
    pub open spec fn wf(&self) -> bool {
        &&& !is_nan(self.split_condition)
        &&& !is_nan(self.value)
        &&& self.left.is_some() == self.right.is_some()
    }

    /// Builds a node, refusing a NaN threshold or value and a node with
    /// exactly one child.
    pub fn new(
        id: usize,
        split_index: usize,
        split_condition: u64,
        left: Option<usize>,
        right: Option<usize>,
        value: u64,
    ) -> (r: Option<TreeNode>)
        ensures
            r == (if !is_nan(split_condition) && !is_nan(value) && left.is_some()
                == right.is_some() {
                Some(TreeNode { id, split_index, split_condition, left, right, value })
            } else {
                None
            }),
    {
        if bits_is_nan(split_condition) || bits_is_nan(value) || left.is_some()
            != right.is_some() {
            None
        } else {
            Some(TreeNode { id, split_index, split_condition, left, right, value })
        }
    }

    pub fn is_leaf(&self) -> (r: bool)
        ensures
            r == self.spec_is_leaf(),
    {
        self.left.is_none() && self.right.is_none()
    }

    pub fn get_value(&self) -> (r: u64)
        ensures
            r == self.value,
    {
        self.value
    }
}

/// Every node is well formed.
pub open spec fn all_wf(nodes: Seq<TreeNode>) -> bool {
    forall|i: int| 0 <= i < nodes.len() ==> #[trigger] nodes[i].wf()
}

pub open spec fn ids_unique(nodes: Seq<TreeNode>) -> bool {
    forall|i: int, j: int| 0 <= i < j < nodes.len() ==> nodes[i].id != nodes[j].id
}

/// Ids strictly increase along the sequence.
pub open spec fn sorted_by_id(nodes: Seq<TreeNode>) -> bool {
    forall|i: int, j: int| 0 <= i < j < nodes.len() ==> nodes[i].id < nodes[j].id
}

pub open spec fn has_id(nodes: Seq<TreeNode>, id: usize) -> bool {
    exists|i: int| 0 <= i < nodes.len() && nodes[i].id == id
}

pub open spec fn node_with_id(nodes: Seq<TreeNode>, id: usize) -> TreeNode
    recommends
        has_id(nodes, id),
{
    nodes[choose|i: int| 0 <= i < nodes.len() && nodes[i].id == id]
}

/// The traversal from node `id`, with at most `fuel` further steps.
pub open spec fn walk(nodes: Seq<TreeNode>, x: Seq<u64>, id: usize, fuel: nat) -> Result<
    u64,
    PredictError,
>
    decreases fuel,
{
    if !has_id(nodes, id) {
        Err(PredictError::CorruptModel)
    } else {
        let node = node_with_id(nodes, id);
        if node.spec_is_leaf() {
            Ok(node.value)
        } else if node.split_index >= x.len() || is_nan(x[node.split_index as int]) {
            Err(PredictError::InvalidInput)
        } else if fuel == 0 {
            Err(PredictError::CorruptModel)
        } else {
            let next = if less_than(x[node.split_index as int], node.split_condition) {
                node.left
            } else {
                node.right
            };
            match next {
                None => Err(PredictError::CorruptModel),
                Some(c) => walk(nodes, x, c, (fuel - 1) as nat),
            }
        }
    }
}

/// An assignment of ranks below the node count under which every child
/// ranks below its parent: the nodes form no cycle.
pub open spec fn ranked(nodes: Seq<TreeNode>, rank: spec_fn(usize) -> nat) -> bool {
    forall|i: int|
        #![trigger nodes[i]]
        0 <= i < nodes.len() ==> {
            &&& rank(nodes[i].id) < nodes.len()
            &&& !nodes[i].spec_is_leaf() ==> rank(nodes[i].left.unwrap()) < rank(nodes[i].id)
                && rank(nodes[i].right.unwrap()) < rank(nodes[i].id)
        }
}

/// A valid tree: the root and every child reference exist, every node is
/// well formed (which a `Tree` always is), and the nodes form no cycle.
pub open spec fn valid_tree(nodes: Seq<TreeNode>, root: usize) -> bool {
    &&& ids_unique(nodes)
    &&& has_id(nodes, root)
    &&& forall|i: int| #![trigger nodes[i]] 0 <= i < nodes.len() ==> nodes[i].wf()
    &&& forall|i: int|
        #![trigger nodes[i]]
        0 <= i < nodes.len() && !nodes[i].spec_is_leaf() ==> has_id(nodes, nodes[i].left.unwrap())
            && has_id(nodes, nodes[i].right.unwrap())
    &&& exists|rank: spec_fn(usize) -> nat| ranked(nodes, rank)
}

/// A feature vector that every split of `nodes` can read.
pub open spec fn readable_by(nodes: Seq<TreeNode>, x: Seq<u64>) -> bool {
    &&& forall|i: int| #![trigger x[i]] 0 <= i < x.len() ==> !is_nan(x[i])
    &&& forall|i: int|
        #![trigger nodes[i]]
        0 <= i < nodes.len() && !nodes[i].spec_is_leaf() ==> nodes[i].split_index < x.len()
}

/// `t_nodes` holds the nodes of `nodes`, ordered by id.
pub open spec fn arranges(t_nodes: Seq<TreeNode>, nodes: Seq<TreeNode>) -> bool {
    sorted_by_id(t_nodes) && t_nodes.to_multiset() == nodes.to_multiset()
}

/// `t` is the tree that `Tree::from_nodes` builds from `nodes`.
pub open spec fn built_from(t: Tree, nodes: Seq<TreeNode>) -> bool {
    &&& arranges(t.spec_nodes(), nodes)
    &&& t.spec_nodes().len() > 0
    &&& t.spec_root() == t.spec_nodes()[0].id
}

/// A tree: nodes in insertion order, looked up by id through an index.
#[derive(Debug)]
pub struct Tree {
    nodes: Vec<TreeNode>,
    index: HashMap<usize, usize>,
    root: usize,
}

impl Tree {
    #[verifier::type_invariant]
    spec fn index_matches(&self) -> bool {
        &&& ids_unique(self.nodes@)
        &&& all_wf(self.nodes@)
        &&& forall|id: usize| #[trigger]
            self.index@.contains_key(id) <==> has_id(self.nodes@, id)
        &&& forall|id: usize| #[trigger]
            self.index@.contains_key(id) ==> self.index@[id] < self.nodes@.len()
                && self.nodes@[self.index@[id] as int].id == id
    }

    /// The nodes in insertion order.
    pub closed spec fn spec_nodes(&self) -> Seq<TreeNode> {
        self.nodes@
    }

    pub closed spec fn spec_root(&self) -> usize {
        self.root
    }

    /// What `predict` returns on `x`.
    pub open spec fn spec_predict(&self, x: Seq<u64>) -> Result<u64, PredictError> {
        walk(self.spec_nodes(), x, self.spec_root(), self.spec_nodes().len())
    }

    /// The tree is `nodes`, in that order, with `root` as its root.
    pub fn new(nodes: Vec<TreeNode>, root: usize) -> (r: Tree)
        requires
            ids_unique(nodes@),
            all_wf(nodes@),
        ensures
            r.spec_nodes() == nodes@,
            r.spec_root() == root,
    {
        let mut index: HashMap<usize, usize> = HashMap::new();
        let mut i: usize = 0;
        while i < nodes.len()
            invariant
                i <= nodes.len(),
                ids_unique(nodes@),
                all_wf(nodes@),
                forall|id: usize| #[trigger]
                    index@.contains_key(id) <==> exists|k: int|
                        0 <= k < i && nodes@[k].id == id,
                forall|id: usize| #[trigger]
                    index@.contains_key(id) ==> index@[id] < i && nodes@[index@[id] as int].id
                        == id,
            decreases nodes.len() - i,
        {
            index.insert(nodes[i].id, i);
            i += 1;
        }
        Tree { nodes, index, root }
    }

    /// The tree of `nodes` ordered by id, rooted at the smallest id.
    pub fn from_nodes(nodes: Vec<TreeNode>) -> (r: Tree)
        requires
            nodes.len() > 0,
            ids_unique(nodes@),
            all_wf(nodes@),
        ensures
            built_from(r, nodes@),
            r.spec_nodes().len() == nodes.len(),
    {
        broadcast use vstd::seq_lib::group_to_multiset_ensures;

        let mut sorted: Vec<TreeNode> = Vec::new();
        let mut k: usize = 0;
        while k < nodes.len()
            invariant
                k <= nodes.len(),
                ids_unique(nodes@),
                all_wf(nodes@),
                all_wf(sorted@),
                sorted_by_id(sorted@),
                sorted@.to_multiset() == nodes@.subrange(0, k as int).to_multiset(),
            decreases nodes.len() - k,
        {
            let node = nodes[k];
            let mut p: usize = 0;
            while p < sorted.len() && sorted[p].id < node.id
                invariant
                    p <= sorted.len(),
                    forall|j: int| 0 <= j < p ==> sorted@[j].id < node.id,
                decreases sorted.len() - p,
            {
                p += 1;
            }
            proof {
                assert forall|j: int| 0 <= j < sorted.len() implies sorted@[j].id != node.id by {
                    assert(sorted@.contains(sorted@[j]));
                    vstd::seq_lib::to_multiset_contains(sorted@, sorted@[j]);
                    vstd::seq_lib::to_multiset_contains(nodes@.subrange(0, k as int), sorted@[j]);
                    assert(nodes@.subrange(0, k as int).to_multiset().count(sorted@[j]) > 0);
                    assert(nodes@.subrange(0, k as int).contains(sorted@[j]));
                    let m = choose|m: int|
                        0 <= m < k && nodes@.subrange(0, k as int)[m] == sorted@[j];
                    assert(nodes@[m] == sorted@[j]);
                }
                assert(nodes@.subrange(0, k + 1) == nodes@.subrange(0, k as int).push(node));
                vstd::seq_lib::to_multiset_insert(sorted@, p as int, node);
                vstd::seq_lib::to_multiset_build(nodes@.subrange(0, k as int), node);
            }
            let ghost before = sorted@;
            sorted.insert(p, node);
            assert(sorted@ == before.insert(p as int, node));
            assert forall|j: int| 0 <= j < sorted@.len() implies #[trigger] sorted@[j].wf() by {
                if j < p {
                    assert(sorted@[j] == before[j]);
                } else if j > p {
                    assert(sorted@[j] == before[j - 1]);
                }
            }
            k += 1;
        }
        assert(nodes@.subrange(0, nodes.len() as int) == nodes@);
        assert(sorted.len() == nodes.len()) by {
            vstd::seq_lib::to_multiset_len(sorted@);
            vstd::seq_lib::to_multiset_len(nodes@);
        }
        let root = sorted[0].id;
        Tree::new(sorted, root)
    }

    /// The leaf value that `x` leads to, starting at the root: at a split,
    /// left where `x[split_index] < split_condition`, else right.
    pub fn predict(&self, x: &[u64]) -> (r: Result<u64, PredictError>)
        ensures
            r == self.spec_predict(x@),
    {
        let mut id = self.root;
        let mut fuel: usize = self.nodes.len();
        loop
            invariant
                self.spec_predict(x@) == walk(self.nodes@, x@, id, fuel as nat),
            decreases fuel,
        {
            proof {
                use_type_invariant(self);
            }
            let pos = match self.index.get(&id) {
                None => {
                    return Err(PredictError::CorruptModel);
                },
                Some(p) => *p,
            };
            let node = &self.nodes[pos];
            proof {
                assert(has_id(self.nodes@, id));
                let c = choose|i: int| 0 <= i < self.nodes@.len() && self.nodes@[i].id == id;
                assert(c == pos as int);
            }
            if node.is_leaf() {
                return Ok(node.value);
            }
            if node.split_index >= x.len() {
                return Err(PredictError::InvalidInput);
            }
            let feature = x[node.split_index];
            if bits_is_nan(feature) {
                return Err(PredictError::InvalidInput);
            }
            if fuel == 0 {
                return Err(PredictError::CorruptModel);
            }
            let next = if bits_less_than(feature, node.split_condition) {
                node.left
            } else {
                node.right
            };
            match next {
                None => {
                    return Err(PredictError::CorruptModel);
                },
                Some(c) => {
                    id = c;
                    fuel -= 1;
                },
            }
        }
    }

    pub fn root(&self) -> (r: usize)
        ensures
            r == self.spec_root(),
    {
        self.root
    }

    pub fn nodes(&self) -> (r: &Vec<TreeNode>)
        ensures
            r@ == self.spec_nodes(),
    {
        &self.nodes
    }
}

proof fn lemma_walk_ends_at_leaf(nodes: Seq<TreeNode>, x: Seq<u64>, id: usize, fuel: nat)
    requires
        walk(nodes, x, id, fuel) is Ok,
    ensures
        exists|i: int|
            0 <= i < nodes.len() && nodes[i].spec_is_leaf() && nodes[i].value == walk(
                nodes,
                x,
                id,
                fuel,
            )->Ok_0,
    decreases fuel,
{
    let c = choose|i: int| 0 <= i < nodes.len() && nodes[i].id == id;
    let node = node_with_id(nodes, id);
    if !node.spec_is_leaf() {
        let next = if less_than(x[node.split_index as int], node.split_condition) {
            node.left
        } else {
            node.right
        };
        lemma_walk_ends_at_leaf(nodes, x, next.unwrap(), (fuel - 1) as nat);
    } else {
        assert(nodes[c].spec_is_leaf());
    }
}

proof fn lemma_walk_succeeds(
    nodes: Seq<TreeNode>,
    x: Seq<u64>,
    rank: spec_fn(usize) -> nat,
    id: usize,
    fuel: nat,
)
    requires
        valid_tree(nodes, id),
        ranked(nodes, rank),
        readable_by(nodes, x),
        rank(id) <= fuel,
    ensures
        walk(nodes, x, id, fuel) is Ok,
    decreases fuel,
{
    let c = choose|i: int| 0 <= i < nodes.len() && nodes[i].id == id;
    assert(nodes[c].id == id);
    let node = nodes[c];
    if !node.spec_is_leaf() {
        assert(node.wf());
        let next = if less_than(x[node.split_index as int], node.split_condition) {
            node.left
        } else {
            node.right
        };
        assert(!is_nan(x[node.split_index as int]));
        lemma_walk_succeeds(nodes, x, rank, next.unwrap(), (fuel - 1) as nat);
    }
}

/// On every tree a successful prediction is the value of one of the tree's
/// leaves; on a valid tree, with a feature vector that holds every feature
/// a split reads and no NaN, the prediction succeeds.
pub proof fn lemma_prediction_is_a_leaf_value(t: &Tree, x: Seq<u64>)
    ensures
        t.spec_predict(x) is Ok ==> exists|i: int|
            0 <= i < t.spec_nodes().len() && t.spec_nodes()[i].spec_is_leaf()
                && t.spec_nodes()[i].value == t.spec_predict(x)->Ok_0,
        valid_tree(t.spec_nodes(), t.spec_root()) && readable_by(t.spec_nodes(), x)
            ==> t.spec_predict(x) is Ok,
{
    let nodes = t.spec_nodes();
    if t.spec_predict(x) is Ok {
        lemma_walk_ends_at_leaf(nodes, x, t.spec_root(), nodes.len());
    }
    if valid_tree(nodes, t.spec_root()) && readable_by(nodes, x) {
        let rank = choose|rank: spec_fn(usize) -> nat| ranked(nodes, rank);
        let c = choose|i: int| 0 <= i < nodes.len() && nodes[i].id == t.spec_root();
        assert(nodes[c].id == t.spec_root());
        lemma_walk_succeeds(nodes, x, rank, t.spec_root(), nodes.len());
    }
}

} // verus!
