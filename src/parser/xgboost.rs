//! Import of the JSON model document: booster and objective validation,
//! base scores, and grouping of trees into one forest per class.
use std::collections::HashMap;
use vstd::math::min;
use vstd::prelude::*;
use vstd::string::StringSliceAdditionalSpecFns;
use vstd::utf8::encode_utf8;

use crate::forest::{Forest, MultiOutputForest};
use crate::tree::{built_from, Tree, TreeNode};
use crate::parser::{all_parse_to, lemma_split_prefix, some_piece_fails, split_on};

verus! {

pub open spec fn is_bracket(b: u8) -> bool {
    b == 91u8 || b == 93u8
}

/// `s` without its leading `[` and `]` bytes.
pub open spec fn strip_front(s: Seq<u8>) -> Seq<u8>
    decreases s.len(),
{
    if s.len() > 0 && is_bracket(s[0]) {
        strip_front(s.drop_first())
    } else {
        s
    }
}

/// `s` without its trailing `[` and `]` bytes.
pub open spec fn strip_back(s: Seq<u8>) -> Seq<u8>
    decreases s.len(),
{
    if s.len() > 0 && is_bracket(s.last()) {
        strip_back(s.drop_last())
    } else {
        s
    }
}

/// The number texts of a base score: brackets stripped from both ends, the
/// rest split at each comma.
pub open spec fn base_score_pieces(s: Seq<u8>) -> Seq<Seq<u8>> {
    split_on(strip_back(strip_front(s)), 44u8)
}

/// Parses a base score, a single number (`0.5`) or a bracketed
/// comma-separated list (`[0.1,0.2,0.3]`), with `parse_float` reading each
/// number. Fails with the whole text where a number does not parse.
pub fn parse_base_score<P: Fn(&[u8]) -> Option<u64>>(s: &str, parse_float: &P) -> (r: Result<
    Vec<u64>,
    String,
>)
    requires
        forall|t: &[u8]| parse_float.requires((t,)),
    ensures
        match r {
            Ok(v) => all_parse_to(*parse_float, base_score_pieces(s.spec_bytes()), v@),
            Err(raw) => raw@ == s@ && some_piece_fails(
                *parse_float,
                base_score_pieces(s.spec_bytes()),
            ),
        },
{
    let b = s.as_bytes();
    let mut lo: usize = 0;
    assert(b@.subrange(0, b@.len() as int) == b@);
    while lo < b.len() && (b[lo] == 91u8 || b[lo] == 93u8)
        invariant
            lo <= b@.len(),
            strip_front(b@) == strip_front(b@.subrange(lo as int, b@.len() as int)),
        decreases b.len() - lo,
    {
        assert(b@.subrange(lo as int, b@.len() as int).drop_first() == b@.subrange(
            lo + 1,
            b@.len() as int,
        ));
        lo += 1;
    }
    let mut hi: usize = b.len();
    while hi > lo && (b[hi - 1] == 91u8 || b[hi - 1] == 93u8)
        invariant
            lo <= hi <= b@.len(),
            strip_back(b@.subrange(lo as int, b@.len() as int)) == strip_back(
                b@.subrange(lo as int, hi as int),
            ),
        decreases hi,
    {
        assert(b@.subrange(lo as int, hi as int).drop_last() == b@.subrange(
            lo as int,
            hi - 1,
        ));
        hi -= 1;
    }
    let ghost text = b@.subrange(lo as int, hi as int);
    assert(strip_front(b@.subrange(lo as int, b@.len() as int)) == b@.subrange(
        lo as int,
        b@.len() as int,
    ));
    assert(strip_back(b@.subrange(lo as int, hi as int)) == text);
    assert(b@.subrange(lo as int, lo as int) == Seq::<u8>::empty());
    assert(split_on(Seq::<u8>::empty(), 44u8) == Seq::<Seq<u8>>::empty().push(Seq::<u8>::empty()));
    assert(base_score_pieces(s.spec_bytes()) == split_on(text, 44u8));
    let mut vals: Vec<u64> = Vec::new();
    let ghost mut done: Seq<Seq<u8>> = Seq::empty();
    let mut start: usize = lo;
    let mut i: usize = lo;
    while i < hi
        invariant
            lo <= start <= i <= hi <= b@.len(),
            text == b@.subrange(lo as int, hi as int),
            base_score_pieces(s.spec_bytes()) == split_on(text, 44u8),
            forall|t: &[u8]| parse_float.requires((t,)),
            split_on(b@.subrange(lo as int, i as int), 44u8) == done.push(
                b@.subrange(start as int, i as int),
            ),
            all_parse_to(*parse_float, done, vals@),
        decreases hi - i,
    {
        let ghost cur = b@.subrange(start as int, i as int);
        assert(b@.subrange(lo as int, i + 1).drop_last() == b@.subrange(lo as int, i as int));
        if b[i] == 44u8 {
            let piece = &b[start..i];
            match parse_float(piece) {
                None => {
                    proof {
                        assert(text.subrange(0, i + 1 - lo) == b@.subrange(lo as int, i + 1));
                        assert(split_on(b@.subrange(lo as int, i + 1), 44u8) == done.push(cur).push(
                            Seq::empty(),
                        ));
                        assert(text.subrange(0, text.len() as int) == text);
                        lemma_split_prefix(text, 44u8, i + 1 - lo, text.len() as int);
                    }
                    assert(split_on(text, 44u8)[done.len() as int] == cur);
                    assert(done.len() < split_on(text, 44u8).len());
                    assert(piece@ == cur);
                    assert(crate::parser::parses_to(*parse_float, cur, None));
                    let raw = String::from_str(s);
                    assert(raw@ == s@);
                    return Err(raw);
                },
                Some(v) => {
                    proof {
                        let old_done = done;
                        done = done.push(cur);
                        assert forall|k: int| 0 <= k < done.len() implies crate::parser::parses_to(
                            *parse_float,
                            #[trigger] done[k],
                            Some(vals@.push(v)[k]),
                        ) by {
                            if k < old_done.len() {
                                assert(old_done[k] == done[k]);
                            }
                        }
                    }
                    vals.push(v);
                },
            }
            start = i + 1;
            assert(b@.subrange(start as int, i + 1) == Seq::<u8>::empty());
        } else {
            assert(b@.subrange(start as int, i + 1) == cur.push(b[i as int]));
        }
        i += 1;
    }
    let piece = &b[start..hi];
    assert(b@.subrange(lo as int, i as int) == text);
    assert(split_on(text, 44u8)[done.len() as int] == b@.subrange(start as int, hi as int));
    match parse_float(piece) {
        None => {
            assert(piece@ == b@.subrange(start as int, hi as int));
            assert(crate::parser::parses_to(*parse_float, piece@, None));
            let raw = String::from_str(s);
            assert(raw@ == s@);
            Err(raw)
        },
        Some(v) => {
            proof {
                let old_done = done;
                done = done.push(b@.subrange(start as int, hi as int));
                assert forall|k: int| 0 <= k < done.len() implies crate::parser::parses_to(
                    *parse_float,
                    #[trigger] done[k],
                    Some(vals@.push(v)[k]),
                ) by {
                    if k < old_done.len() {
                        assert(old_done[k] == done[k]);
                    }
                }
            }
            vals.push(v);
            Ok(vals)
        },
    }
}


/// Relies on serde_json::Value only as an opaque JSON value that a record
/// carries and the import never reads.
#[verifier::external_type_specification]
#[verifier::external_body]
pub struct ExJsonValue(serde_json::Value);

/// Why an import of the JSON model document failed.
#[derive(Debug)]
pub enum XGBoostError {
    UnsupportedBooster { booster: String },
    UnsupportedObjective { objective: String, supported: Vec<String> },
    InvalidBaseScore { value: String },
    InvalidParameters { parameter: String },
    FileRead { cause: String },
}

/// `["a", "b", ...]`: the texts quoted and joined by `, `, in brackets.
pub open spec fn quoted_list(v: Seq<String>) -> Seq<char> {
    "["@ + quoted_items(v) + "]"@
}

pub open spec fn quoted_items(v: Seq<String>) -> Seq<char>
    decreases v.len(),
{
    if v.len() == 0 {
        Seq::empty()
    } else if v.len() == 1 {
        "\""@ + v[0]@ + "\""@
    } else {
        quoted_items(v.drop_last()) + ", \""@ + v.last()@ + "\""@
    }
}

impl XGBoostError {
    /// The error's message.
    pub open spec fn spec_message(&self) -> Seq<char> {
        match self {
            XGBoostError::UnsupportedBooster { booster } => "Unsupported booster type: "@
                + booster@ + ". Only '"@ + "gbtree"@ + "' is supported"@,
            XGBoostError::UnsupportedObjective { objective, supported } =>
                "Unsupported objective function: "@ + objective@ + ". Supported objectives: "@
                + quoted_list(supported@),
            XGBoostError::InvalidBaseScore { value } => "Invalid base_score format: "@ + value@
                + ". Expected format like '0.5' or '[0.1,0.2,0.3]'"@,
            XGBoostError::InvalidParameters { parameter } => "Model parameter error: "@
                + parameter@,
            XGBoostError::FileRead { cause } => "File read error: "@ + cause@,
        }
    }

    pub fn message(&self) -> (r: String)
        ensures
            r@ == self.spec_message(),
    {
        match self {
            XGBoostError::UnsupportedBooster { booster } => {
                let mut m = String::from_str("Unsupported booster type: ");
                m.append(booster.as_str());
                m.append(". Only '");
                m.append("gbtree");
                m.append("' is supported");
                m
            },
            XGBoostError::UnsupportedObjective { objective, supported } => {
                let mut m = String::from_str("Unsupported objective function: ");
                m.append(objective.as_str());
                m.append(". Supported objectives: ");
                m.append("[");
                let mut i: usize = 0;
                while i < supported.len()
                    invariant
                        i <= supported@.len(),
                        m@ == "Unsupported objective function: "@ + objective@
                            + ". Supported objectives: "@ + "["@ + quoted_items(
                            supported@.subrange(0, i as int),
                        ),
                    decreases supported.len() - i,
                {
                    assert(supported@.subrange(0, i + 1).drop_last() == supported@.subrange(
                        0,
                        i as int,
                    ));
                    if i == 0 {
                        m.append("\"");
                    } else {
                        m.append(", \"");
                    }
                    m.append(supported[i].as_str());
                    m.append("\"");
                    i += 1;
                }
                m.append("]");
                assert(supported@.subrange(0, supported@.len() as int) == supported@);
                m
            },
            XGBoostError::InvalidBaseScore { value } => {
                let mut m = String::from_str("Invalid base_score format: ");
                m.append(value.as_str());
                m.append(". Expected format like '0.5' or '[0.1,0.2,0.3]'");
                m
            },
            XGBoostError::InvalidParameters { parameter } => {
                let mut m = String::from_str("Model parameter error: ");
                m.append(parameter.as_str());
                m
            },
            XGBoostError::FileRead { cause } => {
                let mut m = String::from_str("File read error: ");
                m.append(cause.as_str());
                m
            },
        }
    }
}

pub struct XGBoostModelRecord {
    pub version: [u32; 3],
    pub learner: LearnerRecord,
}

pub struct LearnerRecord {
    pub feature_names: Option<Vec<String>>,
    pub feature_types: Option<Vec<String>>,
    pub gradient_booster: GradientBooster,
    pub objective: ObjectiveRecord,
    pub learner_model_param: LearnerModelParamRecord,
}

/// The kind of booster a document holds. Floats are binary64 bit patterns.
pub enum GradientBooster {
    Gbtree { model: GbtreeModelRecord },
    Gblinear { model: GblinearModelRecord },
    Dart { gbtree: Box<GradientBooster>, weight_drop: Vec<u64> },
}

pub struct GbtreeModelRecord {
    pub gbtree_model_param: GbtreeModelParamRecord,
    pub trees: Vec<TreeRecord>,
    pub tree_info: Vec<usize>,
}

pub struct GbtreeModelParamRecord {
    pub num_trees: String,
    pub num_parallel_tree: String,
}

/// One tree as parallel arrays indexed by node id. Floats are binary64 bit
/// patterns.
pub struct TreeRecord {
    pub tree_param: TreeParamRecord,
    pub id: i32,
    pub loss_changes: Vec<u64>,
    pub sum_hessian: Vec<u64>,
    pub base_weights: Vec<u64>,
    pub left_children: Vec<i32>,
    pub right_children: Vec<i32>,
    pub parents: Vec<i32>,
    pub split_indices: Vec<i32>,
    pub split_conditions: Vec<u64>,
    pub split_type: Vec<i32>,
    pub default_left: Vec<i32>,
    pub categories: Vec<i32>,
    pub categories_nodes: Vec<i32>,
    pub categories_segments: Vec<i32>,
    pub categories_sizes: Vec<i32>,
}

pub struct TreeParamRecord {
    pub num_nodes: String,
    pub size_leaf_vector: String,
    pub num_feature: String,
}

pub struct GblinearModelRecord {
    pub weights: Vec<u64>,
}

pub struct LearnerModelParamRecord {
    pub base_score: String,
    pub num_class: Option<String>,
    pub num_feature: Option<String>,
    pub num_target: Option<String>,
}

pub struct ObjectiveRecord {
    pub name: String,
    pub extra_fields: HashMap<String, serde_json::Value>,
}

pub struct RegLossParamRecord {
    pub scale_pos_weight: Option<String>,
}

/// The objectives the import knows.
#[derive(Debug, Clone, Copy, PartialEq, Eq, Structural)]
pub enum Objective {
    RegSquaredError,
    BinaryLogistic,
    MultiSoftmax,
    MultiSoftprob,
    Unknown,
}

pub open spec fn objective_of(name: Seq<char>) -> Objective {
    if name == "reg:squarederror"@ {
        Objective::RegSquaredError
    } else if name == "binary:logistic"@ {
        Objective::BinaryLogistic
    } else if name == "multi:softmax"@ {
        Objective::MultiSoftmax
    } else if name == "multi:softprob"@ {
        Objective::MultiSoftprob
    } else {
        Objective::Unknown
    }
}

/// The names of the known objectives, in the order error messages list them.
pub open spec fn supported_names() -> Seq<Seq<char>> {
    seq![
        "reg:squarederror"@,
        "binary:logistic"@,
        "multi:softmax"@,
        "multi:softprob"@,
    ]
}

impl Objective {
    pub fn from_record(record: &ObjectiveRecord) -> (r: Objective)
        ensures
            r == objective_of(record.name@),
    {
        if record.name == String::from_str("reg:squarederror") {
            Objective::RegSquaredError
        } else if record.name == String::from_str("binary:logistic") {
            Objective::BinaryLogistic
        } else if record.name == String::from_str("multi:softmax") {
            Objective::MultiSoftmax
        } else if record.name == String::from_str("multi:softprob") {
            Objective::MultiSoftprob
        } else {
            Objective::Unknown
        }
    }
}

fn supported_objectives() -> (r: Vec<String>)
    ensures
        r@.len() == 4,
        forall|i: int| 0 <= i < 4 ==> #[trigger] r@[i]@ == supported_names()[i],
{
    let mut r: Vec<String> = Vec::new();
    r.push(String::from_str("reg:squarederror"));
    r.push(String::from_str("binary:logistic"));
    r.push(String::from_str("multi:softmax"));
    r.push(String::from_str("multi:softprob"));
    r
}

/// The number of nodes of a tree record: its shortest array.
pub open spec fn node_count(t: TreeRecord) -> int {
    min(
        min(t.base_weights@.len() as int, t.left_children@.len() as int),
        min(
            min(t.right_children@.len() as int, t.split_indices@.len() as int),
            t.split_conditions@.len() as int,
        ),
    )
}

/// A child entry names a child where it is above zero: id 0 is the root.
pub open spec fn child_ref(c: i32) -> Option<usize> {
    if c > 0 {
        Some(c as usize)
    } else {
        None
    }
}

/// Node `i` of a tree record; its value is the split condition entry.
pub open spec fn record_node(t: TreeRecord, i: int) -> TreeNode {
    TreeNode {
        id: i as usize,
        split_index: t.split_indices@[i] as usize,
        split_condition: t.split_conditions@[i],
        left: child_ref(t.left_children@[i]),
        right: child_ref(t.right_children@[i]),
        value: t.split_conditions@[i],
    }
}

pub open spec fn record_nodes(t: TreeRecord) -> Seq<TreeNode> {
    Seq::new(node_count(t) as nat, |i: int| record_node(t, i))
}

/// A record that makes a tree: at least one node, no negative split index,
/// every node well formed.
pub open spec fn record_is_valid(t: TreeRecord) -> bool {
    &&& node_count(t) > 0
    &&& forall|i: int|
        #![trigger record_node(t, i)]
        0 <= i < node_count(t) ==> t.split_indices@[i] >= 0 && record_node(t, i).wf()
}

impl TreeRecord {
    /// The tree of the record's nodes, ids given by position.
    pub fn parse(&self) -> (r: Result<Tree, XGBoostError>)
        ensures
            record_is_valid(*self) ==> r is Ok && built_from(r->Ok_0, record_nodes(*self)),
            !record_is_valid(*self) ==> r matches Err(XGBoostError::InvalidParameters { .. }),
    {
        let mut n = self.base_weights.len();
        if self.left_children.len() < n {
            n = self.left_children.len();
        }
        if self.right_children.len() < n {
            n = self.right_children.len();
        }
        if self.split_indices.len() < n {
            n = self.split_indices.len();
        }
        if self.split_conditions.len() < n {
            n = self.split_conditions.len();
        }
        assert(n == node_count(*self));
        if n == 0 {
            return Err(XGBoostError::InvalidParameters { parameter: String::from_str("empty tree") });
        }
        let mut nodes: Vec<TreeNode> = Vec::new();
        let mut i: usize = 0;
        while i < n
            invariant
                i <= n,
                n == node_count(*self),
                nodes@.len() == i,
                forall|j: int|
                    #![trigger record_node(*self, j)]
                    0 <= j < i ==> self.split_indices@[j] >= 0 && record_node(*self, j).wf()
                        && nodes@[j] == record_node(*self, j),
            decreases n - i,
        {
            let split_index = self.split_indices[i];
            if split_index < 0 {
                assert(!(self.split_indices@[i as int] >= 0 && record_node(*self, i as int).wf()));
                return Err(
                    XGBoostError::InvalidParameters {
                        parameter: String::from_str("negative split index"),
                    },
                );
            }
            let l = self.left_children[i];
            let rc = self.right_children[i];
            let left = if l > 0 {
                Some(l as usize)
            } else {
                None
            };
            let right = if rc > 0 {
                Some(rc as usize)
            } else {
                None
            };
            let condition = self.split_conditions[i];
            match TreeNode::new(i, split_index as usize, condition, left, right, condition) {
                None => {
                    assert(!record_node(*self, i as int).wf());
                    return Err(
                        XGBoostError::InvalidParameters {
                            parameter: String::from_str("invalid tree node"),
                        },
                    );
                },
                Some(node) => {
                    assert(node == record_node(*self, i as int));
                    nodes.push(node);
                },
            }
            i += 1;
        }
        assert(nodes@ =~= record_nodes(*self));
        Ok(Tree::from_nodes(nodes))
    }
}


pub open spec fn all_records_valid(recs: Seq<TreeRecord>) -> bool {
    forall|k: int| 0 <= k < recs.len() ==> #[trigger] record_is_valid(recs[k])
}

/// `ts` are the trees of `recs`, one for one.
pub open spec fn trees_built_from(ts: Seq<Tree>, recs: Seq<TreeRecord>) -> bool {
    &&& ts.len() == recs.len()
    &&& forall|k: int|
        #![trigger ts[k]]
        0 <= k < ts.len() ==> built_from(ts[k], record_nodes(recs[k]))
}

impl GbtreeModelRecord {
    /// The trees of the records, in order, and the class tag of each tree.
    pub fn parse(self) -> (r: Result<(Vec<Tree>, Vec<usize>), XGBoostError>)
        ensures
            all_records_valid(self.trees@) ==> r is Ok && trees_built_from(
                r->Ok_0.0@,
                self.trees@,
            ) && r->Ok_0.1@ == self.tree_info@,
            !all_records_valid(self.trees@) ==> r matches Err(
                XGBoostError::InvalidParameters { .. },
            ),
    {
        let mut trees: Vec<Tree> = Vec::new();
        let mut k: usize = 0;
        while k < self.trees.len()
            invariant
                k <= self.trees@.len(),
                trees_built_from(trees@, self.trees@.subrange(0, k as int)),
                forall|j: int| 0 <= j < k ==> #[trigger] record_is_valid(self.trees@[j]),
            decreases self.trees.len() - k,
        {
            match self.trees[k].parse() {
                Err(e) => {
                    return Err(e);
                },
                Ok(t) => {
                    trees.push(t);
                },
            }
            k += 1;
        }
        assert(self.trees@.subrange(0, k as int) == self.trees@);
        Ok((trees, self.tree_info))
    }
}

/// The positions below `n` whose class tag is `c`, in order.
pub open spec fn class_members(info: Seq<usize>, n: int, c: usize) -> Seq<int>
    decreases n,
{
    if n <= 0 {
        Seq::empty()
    } else {
        let prev = class_members(info, n - 1, c);
        if info[n - 1] == c {
            prev.push(n - 1)
        } else {
            prev
        }
    }
}

pub open spec fn seq_max(s: Seq<usize>) -> usize
    decreases s.len(),
{
    if s.len() == 0 {
        0
    } else if s.len() == 1 {
        s[0]
    } else {
        let m = seq_max(s.drop_last());
        if s.last() > m {
            s.last()
        } else {
            m
        }
    }
}

proof fn lemma_seq_max_bounds(s: Seq<usize>)
    ensures
        forall|k: int| 0 <= k < s.len() ==> #[trigger] s[k] <= seq_max(s),
    decreases s.len(),
{
    if s.len() > 1 {
        lemma_seq_max_bounds(s.drop_last());
        assert forall|k: int| 0 <= k < s.len() implies #[trigger] s[k] <= seq_max(s) by {
            if k < s.len() - 1 {
                assert(s[k] == s.drop_last()[k]);
            }
        }
    }
}

/// `t` is `raw` after the objective's transform: `logit` for binary
/// logistic, unchanged otherwise.
pub open spec fn transformed<L: Fn(u64) -> u64>(
    objective: Objective,
    logit: L,
    raw: Seq<u64>,
    t: Seq<u64>,
) -> bool {
    &&& t.len() == raw.len()
    &&& forall|i: int|
        #![trigger t[i]]
        0 <= i < t.len() ==> if objective == Objective::BinaryLogistic {
            logit.ensures((raw[i],), t[i])
        } else {
            t[i] == raw[i]
        }
}

/// A single value stands for every one of `n` classes.
pub open spec fn spread_over_classes(t: Seq<u64>, n: int) -> Seq<u64> {
    if t.len() == 1 && n > 1 {
        Seq::new(n as nat, |i: int| t[0])
    } else {
        t
    }
}

/// `bases` are the base values of a base score: parsed, transformed for the
/// objective, and spread over `n` classes.
pub open spec fn base_values_for<P: Fn(&[u8]) -> Option<u64>, L: Fn(u64) -> u64>(
    parse_float: P,
    logit: L,
    objective: Objective,
    pieces: Seq<Seq<u8>>,
    n: int,
    bases: Seq<u64>,
) -> bool {
    exists|raw: Seq<u64>, t: Seq<u64>|
        all_parse_to(parse_float, pieces, raw) && transformed(objective, logit, raw, t) && bases
            == spread_over_classes(t, n)
}

/// Forest `c` pairs base value `c` with the trees tagged `c`, in order; there
/// are as many forests as both classes and base values allow.
pub open spec fn forests_match(
    forests: Seq<Forest>,
    bases: Seq<u64>,
    recs: Seq<TreeRecord>,
    info: Seq<usize>,
    n: int,
) -> bool {
    &&& forests.len() == min(n, bases.len() as int)
    &&& forall|c: int|
        #![trigger forests[c]]
        0 <= c < forests.len() ==> {
            let members = class_members(info, min(recs.len() as int, info.len() as int), c as usize);
            &&& forests[c].spec_base_value() == bases[c]
            &&& forests[c].spec_trees().len() == members.len()
            &&& forall|m: int|
                #![trigger members[m]]
                0 <= m < members.len() ==> built_from(
                    forests[c].spec_trees()[m],
                    record_nodes(recs[members[m]]),
                )
        }
}

/// What importing `record` gives, with `parse_float` reading base-score
/// numbers and `logit` as the logit transform.
pub open spec fn xgboost_outcome<P: Fn(&[u8]) -> Option<u64>, L: Fn(u64) -> u64>(
    record: XGBoostModelRecord,
    parse_float: P,
    logit: L,
    r: Result<MultiOutputForest, XGBoostError>,
) -> bool {
    match record.learner.gradient_booster {
        GradientBooster::Gblinear { .. } => match r {
            Err(XGBoostError::UnsupportedBooster { booster }) => booster@ == "gblinear"@,
            _ => false,
        },
        GradientBooster::Dart { .. } => match r {
            Err(XGBoostError::UnsupportedBooster { booster }) => booster@ == "dart"@,
            _ => false,
        },
        GradientBooster::Gbtree { model } => {
            let name = record.learner.objective.name@;
            let objective = objective_of(name);
            let info = model.tree_info@;
            if !all_records_valid(model.trees@) {
                r matches Err(XGBoostError::InvalidParameters { .. })
            } else if objective == Objective::Unknown {
                match r {
                    Err(XGBoostError::UnsupportedObjective { objective, supported }) => {
                        &&& objective@ == name
                        &&& supported@.len() == supported_names().len()
                        &&& forall|i: int|
                            0 <= i < supported@.len() ==> #[trigger] supported@[i]@
                                == supported_names()[i]
                    },
                    _ => false,
                }
            } else if info.len() == 0 || seq_max(info) == usize::MAX {
                r matches Err(XGBoostError::InvalidParameters { .. })
            } else {
                let n = seq_max(info) + 1;
                let raw_score = record.learner.learner_model_param.base_score@;
                let pieces = base_score_pieces(encode_utf8(raw_score));
                match r {
                    Ok(m) => exists|bases: Seq<u64>|
                        base_values_for(parse_float, logit, objective, pieces, n, bases)
                            && forests_match(m.spec_forests(), bases, model.trees@, info, n),
                    Err(XGBoostError::InvalidBaseScore { value }) => value@ == raw_score
                        && some_piece_fails(parse_float, pieces),
                    _ => false,
                }
            }
        },
    }
}

/// Imports a JSON model document: only a tree booster with a known
/// objective is accepted; trees are grouped by class tag into one forest per
/// class, each with its base value. `parse_float` reads the base-score
/// numbers and `logit` is applied to them for binary logistic.
pub fn parse_xgboost_model<P: Fn(&[u8]) -> Option<u64>, L: Fn(u64) -> u64>(
    record: XGBoostModelRecord,
    parse_float: &P,
    logit: &L,
) -> (r: Result<MultiOutputForest, XGBoostError>)
    requires
        forall|t: &[u8]| parse_float.requires((t,)),
        forall|v: u64| logit.requires((v,)),
    ensures
        xgboost_outcome(record, *parse_float, *logit, r),
{
    let ghost g_record = record;
    let XGBoostModelRecord { version: _, learner } = record;
    let LearnerRecord { gradient_booster, objective, learner_model_param, .. } = learner;
    let model = match gradient_booster {
        GradientBooster::Gbtree { model } => model,
        GradientBooster::Gblinear { .. } => {
            return Err(XGBoostError::UnsupportedBooster { booster: String::from_str("gblinear") });
        },
        GradientBooster::Dart { .. } => {
            return Err(XGBoostError::UnsupportedBooster { booster: String::from_str("dart") });
        },
    };
    let ghost recs = model.trees@;
    let (trees, tree_info) = match model.parse() {
        Ok(p) => p,
        Err(e) => {
            return Err(e);
        },
    };
    let kind = Objective::from_record(&objective);
    if kind == Objective::Unknown {
        return Err(
            XGBoostError::UnsupportedObjective {
                objective: objective.name,
                supported: supported_objectives(),
            },
        );
    }
    if tree_info.len() == 0 {
        return Err(XGBoostError::InvalidParameters { parameter: String::from_str("tree_info") });
    }
    let mut max_tag: usize = tree_info[0];
    let mut k: usize = 1;
    while k < tree_info.len()
        invariant
            1 <= k <= tree_info@.len(),
            max_tag == seq_max(tree_info@.subrange(0, k as int)),
        decreases tree_info.len() - k,
    {
        assert(tree_info@.subrange(0, k + 1).drop_last() == tree_info@.subrange(0, k as int));
        if tree_info[k] > max_tag {
            max_tag = tree_info[k];
        }
        k += 1;
    }
    assert(tree_info@.subrange(0, k as int) == tree_info@);
    if max_tag == usize::MAX {
        return Err(XGBoostError::InvalidParameters { parameter: String::from_str("tree_info") });
    }
    let n_classes = max_tag + 1;
    proof {
        lemma_seq_max_bounds(tree_info@);
    }
    let ghost g_trees = trees@;
    let groups = group_by_class(trees, &tree_info, n_classes);
    let raw = match parse_base_score(learner_model_param.base_score.as_str(), parse_float) {
        Ok(v) => v,
        Err(value) => {
            return Err(XGBoostError::InvalidBaseScore { value });
        },
    };
    let mut vals: Vec<u64> = Vec::new();
    let mut i: usize = 0;
    while i < raw.len()
        invariant
            i <= raw@.len(),
            forall|v: u64| logit.requires((v,)),
            transformed(kind, *logit, raw@.subrange(0, i as int), vals@),
        decreases raw.len() - i,
    {
        let v = if kind == Objective::BinaryLogistic {
            logit(raw[i])
        } else {
            raw[i]
        };
        vals.push(v);
        i += 1;
    }
    assert(raw@.subrange(0, i as int) == raw@);
    let ghost t = vals@;
    let bases = if vals.len() == 1 && n_classes > 1 {
        let v0 = vals[0];
        let mut b: Vec<u64> = Vec::new();
        while b.len() < n_classes
            invariant
                b@.len() <= n_classes,
                forall|j: int| 0 <= j < b@.len() ==> b@[j] == v0,
            decreases n_classes - b.len(),
        {
            b.push(v0);
        }
        assert(b@ == spread_over_classes(t, n_classes as int));
        b
    } else {
        vals
    };
    let forests = pair_forests(groups, &bases);
    let r = MultiOutputForest::new(forests);
    proof {
        let n_pairs = min(recs.len() as int, tree_info@.len() as int);
        assert(base_values_for(
            *parse_float,
            *logit,
            kind,
            base_score_pieces(encode_utf8(learner_model_param.base_score@)),
            n_classes as int,
            bases@,
        ));
        let forests = r.spec_forests();
        assert forall|c: int| 0 <= c < forests.len() implies {
            let members = class_members(tree_info@, n_pairs, c as usize);
            &&& (#[trigger] forests[c]).spec_base_value() == bases@[c]
            &&& forests[c].spec_trees().len() == members.len()
            &&& forall|m: int|
                #![trigger members[m]]
                0 <= m < members.len() ==> built_from(
                    forests[c].spec_trees()[m],
                    record_nodes(recs[members[m]]),
                )
        } by {
            let members = class_members(tree_info@, n_pairs, c as usize);
            assert(forests[c].spec_trees() == groups@[c]@);
            assert forall|m: int| 0 <= m < members.len() implies built_from(
                forests[c].spec_trees()[m],
                record_nodes(recs[#[trigger] members[m]]),
            ) by {
                lemma_members_below(tree_info@, n_pairs, c as usize, m);
                assert(forests[c].spec_trees()[m] == g_trees[members[m]]);
            }
        }
        assert(forests_match(r.spec_forests(), bases@, recs, tree_info@, n_classes as int));
    }
    Ok(r)
}

proof fn lemma_members_below(info: Seq<usize>, n: int, c: usize, m: int)
    requires
        0 <= m < class_members(info, n, c).len(),
    ensures
        0 <= class_members(info, n, c)[m] < n,
    decreases n,
{
    if n > 0 {
        let prev = class_members(info, n - 1, c);
        if m < prev.len() {
            lemma_members_below(info, n - 1, c, m);
        }
    }
}

/// Trees paired with their class tags, up to the shorter of the two lists,
/// grouped by tag in their order.
fn group_by_class(trees: Vec<Tree>, tree_info: &Vec<usize>, n_classes: usize) -> (r: Vec<Vec<Tree>>)
    requires
        forall|k: int| 0 <= k < tree_info@.len() ==> #[trigger] tree_info@[k] < n_classes,
    ensures
        r@.len() == n_classes,
        forall|c: int|
            #![trigger r@[c]]
            0 <= c < n_classes ==> {
                let members = class_members(
                    tree_info@,
                    min(trees@.len() as int, tree_info@.len() as int),
                    c as usize,
                );
                &&& r@[c]@.len() == members.len()
                &&& forall|m: int|
                    #![trigger members[m]]
                    0 <= m < members.len() ==> r@[c]@[m] == trees@[members[m]]
            },
{
    let ghost orig = trees@;
    let n_pairs = if trees.len() < tree_info.len() {
        trees.len()
    } else {
        tree_info.len()
    };
    let mut trees = trees;
    trees.truncate(n_pairs);
    let mut rev: Vec<Tree> = Vec::new();
    while trees.len() > 0
        invariant
            trees@.len() + rev@.len() == n_pairs,
            n_pairs <= orig.len(),
            forall|j: int| 0 <= j < trees@.len() ==> trees@[j] == orig[j],
            forall|j: int| 0 <= j < rev@.len() ==> rev@[j] == orig[n_pairs - 1 - j],
        decreases trees.len(),
    {
        match trees.pop() {
            Some(t) => {
                rev.push(t);
            },
            None => {},
        }
    }
    let mut groups: Vec<Vec<Tree>> = Vec::new();
    while groups.len() < n_classes
        invariant
            groups@.len() <= n_classes,
            forall|c: int| 0 <= c < groups@.len() ==> (#[trigger] groups@[c])@.len() == 0,
        decreases n_classes - groups.len(),
    {
        groups.push(Vec::new());
    }
    let mut k: usize = 0;
    while k < n_pairs
        invariant
            k <= n_pairs,
            n_pairs <= orig.len(),
            n_pairs <= tree_info@.len(),
            n_pairs == min(orig.len() as int, tree_info@.len() as int),
            rev@.len() == n_pairs - k,
            forall|j: int| 0 <= j < rev@.len() ==> rev@[j] == orig[n_pairs - 1 - j],
            forall|k: int| 0 <= k < tree_info@.len() ==> #[trigger] tree_info@[k] < n_classes,
            groups@.len() == n_classes,
            forall|c: int|
                #![trigger groups@[c]]
                0 <= c < n_classes ==> {
                    let members = class_members(tree_info@, k as int, c as usize);
                    &&& groups@[c]@.len() == members.len()
                    &&& forall|m: int|
                        #![trigger members[m]]
                        0 <= m < members.len() ==> groups@[c]@[m] == orig[members[m]]
                },
        decreases n_pairs - k,
    {
        let t = match rev.pop() {
            Some(t) => t,
            None => {
                return groups;
            },
        };
        let c = tree_info[k];
        let ghost before = groups@;
        groups[c].push(t);
        proof {
            assert forall|d: int| 0 <= d < n_classes implies {
                let members = class_members(tree_info@, k + 1, d as usize);
                &&& (#[trigger] groups@[d])@.len() == members.len()
                &&& forall|m: int|
                    #![trigger members[m]]
                    0 <= m < members.len() ==> groups@[d]@[m] == orig[members[m]]
            } by {
                let prev = class_members(tree_info@, k as int, d as usize);
                assert(before[d]@.len() == prev.len());
                if d != c {
                    assert(groups@[d] == before[d]);
                } else {
                    assert(forall|m: int|
                        0 <= m < prev.len() ==> #[trigger] prev[m] == prev.push(k as int)[m]);
                    assert(forall|m: int|
                        0 <= m < prev.len() ==> before[d]@[m] == orig[#[trigger] prev[m]]);
                }
            }
        }
        k += 1;
    }
    groups
}

/// Forest `c` from group `c` and base value `c`, for as many as both allow.
fn pair_forests(groups: Vec<Vec<Tree>>, bases: &Vec<u64>) -> (r: Vec<Forest>)
    ensures
        r@.len() == min(groups@.len() as int, bases@.len() as int),
        forall|c: int|
            #![trigger r@[c]]
            0 <= c < r@.len() ==> r@[c].spec_base_value() == bases@[c] && r@[c].spec_trees()
                == groups@[c]@,
{
    let n = if groups.len() < bases.len() {
        groups.len()
    } else {
        bases.len()
    };
    let ghost orig = groups@;
    let mut groups = groups;
    let mut forests: Vec<Forest> = Vec::new();
    let mut c: usize = 0;
    while c < n
        invariant
            c <= n,
            n == min(orig.len() as int, bases@.len() as int),
            groups@.len() == orig.len(),
            forall|d: int| c <= d < orig.len() ==> #[trigger] groups@[d] == orig[d],
            forests@.len() == c,
            forall|d: int|
                #![trigger forests@[d]]
                0 <= d < c ==> forests@[d].spec_base_value() == bases@[d]
                    && forests@[d].spec_trees() == orig[d]@,
        decreases n - c,
    {
        let mut g: Vec<Tree> = Vec::new();
        std::mem::swap(&mut g, &mut groups[c]);
        forests.push(Forest::new(bases[c], g));
        c += 1;
    }
    forests
}


/// `needle` occurs in `hay`.
pub open spec fn contains_text(hay: Seq<char>, needle: Seq<char>) -> bool {
    exists|i: int|
        0 <= i && i + needle.len() <= hay.len() && #[trigger] hay.subrange(i, i + needle.len())
            == needle
}

proof fn lemma_contains_extend(a: Seq<char>, hay: Seq<char>, c: Seq<char>, needle: Seq<char>)
    requires
        contains_text(hay, needle),
    ensures
        contains_text(a + hay + c, needle),
{
    let i = choose|i: int|
        0 <= i && i + needle.len() <= hay.len() && #[trigger] hay.subrange(i, i + needle.len())
            == needle;
    let j = a.len() + i;
    assert((a + hay + c).subrange(j, j + needle.len()) =~= needle);
}

proof fn lemma_contains_self(needle: Seq<char>)
    ensures
        contains_text(needle, needle),
{
    let i: int = 0;
    assert(needle.subrange(i, i + needle.len()) =~= needle);
}

proof fn lemma_quoted_items_contain(v: Seq<String>, k: int)
    requires
        0 <= k < v.len(),
    ensures
        contains_text(quoted_items(v), v[k]@),
    decreases v.len(),
{
    lemma_contains_self(v[k]@);
    if v.len() == 1 {
        lemma_contains_extend("\""@, v[k]@, "\""@, v[k]@);
    } else if k == v.len() - 1 {
        lemma_contains_extend(quoted_items(v.drop_last()) + ", \""@, v[k]@, "\""@, v[k]@);
        assert(quoted_items(v.drop_last()) + ", \""@ + v[k]@ + "\""@ == quoted_items(v));
    } else {
        assert(v.drop_last()[k] == v[k]);
        lemma_quoted_items_contain(v.drop_last(), k);
        lemma_contains_extend(
            Seq::empty(),
            quoted_items(v.drop_last()),
            ", \""@ + v.last()@ + "\""@,
            v[k]@,
        );
        assert(Seq::<char>::empty() + quoted_items(v.drop_last()) + (", \""@ + v.last()@
            + "\""@) =~= quoted_items(v));
    }
}

/// A document with a linear booster is refused, with a message that names
/// that booster and the one that is supported.
pub proof fn lemma_linear_booster_refused<P: Fn(&[u8]) -> Option<u64>, L: Fn(u64) -> u64>(
    record: XGBoostModelRecord,
    parse_float: P,
    logit: L,
    r: Result<MultiOutputForest, XGBoostError>,
)
    requires
        record.learner.gradient_booster is Gblinear,
        xgboost_outcome(record, parse_float, logit, r),
    ensures
        r is Err,
        contains_text(r->Err_0.spec_message(), "gblinear"@),
        contains_text(r->Err_0.spec_message(), "gbtree"@),
{
    let e = r->Err_0;
    let booster = "gblinear"@;
    let prefix = "Unsupported booster type: "@;
    let middle = ". Only '"@;
    let suffix = "' is supported"@;
    assert(e.spec_message() == prefix + booster + middle + "gbtree"@ + suffix);
    lemma_contains_self(booster);
    lemma_contains_extend(prefix, booster, middle + "gbtree"@ + suffix, booster);
    assert(prefix + booster + (middle + "gbtree"@ + suffix) =~= e.spec_message());
    lemma_contains_self("gbtree"@);
    lemma_contains_extend(prefix + booster + middle, "gbtree"@, suffix, "gbtree"@);
}

/// A document with an objective outside the known four is refused, with a
/// message that names it and each of the four.
pub proof fn lemma_unknown_objective_refused<P: Fn(&[u8]) -> Option<u64>, L: Fn(u64) -> u64>(
    record: XGBoostModelRecord,
    parse_float: P,
    logit: L,
    r: Result<MultiOutputForest, XGBoostError>,
)
    requires
        record.learner.gradient_booster is Gbtree,
        all_records_valid(record_trees(record.learner.gradient_booster)),
        objective_of(record.learner.objective.name@) == Objective::Unknown,
        xgboost_outcome(record, parse_float, logit, r),
    ensures
        r is Err,
        contains_text(r->Err_0.spec_message(), record.learner.objective.name@),
        forall|i: int|
            0 <= i < supported_names().len() ==> contains_text(
                r->Err_0.spec_message(),
                #[trigger] supported_names()[i],
            ),
{
    let e = r->Err_0;
    let name = record.learner.objective.name@;
    let prefix = "Unsupported objective function: "@;
    let middle = ". Supported objectives: "@;
    match e {
        XGBoostError::UnsupportedObjective { objective, supported } => {
            let list = quoted_list(supported@);
            assert(e.spec_message() == prefix + name + middle + list);
            lemma_contains_self(name);
            lemma_contains_extend(prefix, name, middle + list, name);
            assert(prefix + name + (middle + list) =~= e.spec_message());
            assert forall|i: int| 0 <= i < supported_names().len() implies contains_text(
                e.spec_message(),
                #[trigger] supported_names()[i],
            ) by {
                assert(supported@[i]@ == supported_names()[i]);
                lemma_quoted_items_contain(supported@, i);
                lemma_contains_extend("["@, quoted_items(supported@), "]"@, supported@[i]@);
                lemma_contains_extend(prefix + name + middle, list, Seq::empty(), supported@[i]@);
                assert(prefix + name + middle + list + Seq::<char>::empty() =~= e.spec_message());
            }
        },
        _ => {},
    }
}

/// The tree records of a tree booster.
pub open spec fn record_trees(gb: GradientBooster) -> Seq<TreeRecord> {
    match gb {
        GradientBooster::Gbtree { model } => model.trees@,
        _ => Seq::empty(),
    }
}

/// The class tags of a tree booster.
pub open spec fn record_tags(gb: GradientBooster) -> Seq<usize> {
    match gb {
        GradientBooster::Gbtree { model } => model.tree_info@,
        _ => Seq::empty(),
    }
}

/// A base score of one number with more than one class tag gives one forest
/// per class, all with the same base value.
pub proof fn lemma_single_base_value_spread<P: Fn(&[u8]) -> Option<u64>, L: Fn(u64) -> u64>(
    record: XGBoostModelRecord,
    parse_float: P,
    logit: L,
    r: Result<MultiOutputForest, XGBoostError>,
)
    requires
        record.learner.gradient_booster is Gbtree,
        xgboost_outcome(record, parse_float, logit, r),
        r is Ok,
        base_score_pieces(encode_utf8(record.learner.learner_model_param.base_score@)).len()
            == 1,
        seq_max(record_tags(record.learner.gradient_booster)) >= 1,
    ensures
        r->Ok_0.spec_forests().len() == seq_max(record_tags(record.learner.gradient_booster))
            + 1,
        forall|c: int|
            0 <= c < r->Ok_0.spec_forests().len() ==> (#[trigger] r->Ok_0.spec_forests()[c]).spec_base_value()
                == r->Ok_0.spec_forests()[0].spec_base_value(),
{
    let m = r->Ok_0;
    let info = record_tags(record.learner.gradient_booster);
    let n = seq_max(info) + 1;
    let pieces = base_score_pieces(encode_utf8(record.learner.learner_model_param.base_score@));
    let objective = objective_of(record.learner.objective.name@);
    let bases = choose|bases: Seq<u64>|
        base_values_for(parse_float, logit, objective, pieces, n, bases) && forests_match(
            m.spec_forests(),
            bases,
            record_trees(record.learner.gradient_booster),
            info,
            n,
        );
    let (raw, t) = choose|raw: Seq<u64>, t: Seq<u64>|
        all_parse_to(parse_float, pieces, raw) && transformed(objective, logit, raw, t) && bases
            == spread_over_classes(t, n);
    assert(bases.len() == n);
    assert forall|c: int| 0 <= c < m.spec_forests().len() implies (
    #[trigger] m.spec_forests()[c]).spec_base_value() == m.spec_forests()[0].spec_base_value() by {
        assert(m.spec_forests()[c].spec_base_value() == bases[c]);
        assert(m.spec_forests()[0].spec_base_value() == bases[0]);
    }
}

} // verus!
