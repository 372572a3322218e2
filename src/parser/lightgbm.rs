//! Import of the line-oriented text dump: a header with
//! `num_tree_per_iteration`, then one `Tree=<n>` section per tree.
use vstd::prelude::*;
use vstd::string::StringSliceAdditionalSpecFns;
use vstd::utf8::encode_utf8;

use crate::bits::{bits_is_nan, is_nan, ZERO_BITS};
use crate::forest::{Forest, MultiOutputForest};
use crate::parser::text::{
    bytes_equal, find_byte, find_in, line_ranges, parse_i32_bytes, parse_i32_text,
    parse_usize_bytes, parse_usize_text, text_lines, word_ranges, words,
};
use crate::parser::{all_parse_to, parses_to, some_piece_fails};
use crate::tree::{built_from, ids_unique, Tree, TreeNode};

verus! {

/// Why an import of the text dump failed.
#[derive(Debug)]
pub enum LightGbmError {
    InvalidParameters { detail: String },
}

pub open spec fn tree_header() -> Seq<u8> {
    encode_utf8("Tree="@)
}

pub open spec fn trees_per_iteration_key() -> Seq<u8> {
    encode_utf8("num_tree_per_iteration"@)
}

pub open spec fn split_feature_key() -> Seq<u8> {
    encode_utf8("split_feature"@)
}

pub open spec fn threshold_key() -> Seq<u8> {
    encode_utf8("threshold"@)
}

pub open spec fn left_child_key() -> Seq<u8> {
    encode_utf8("left_child"@)
}

pub open spec fn right_child_key() -> Seq<u8> {
    encode_utf8("right_child"@)
}

pub open spec fn leaf_value_key() -> Seq<u8> {
    encode_utf8("leaf_value"@)
}

/// The line opens a tree section.
pub open spec fn starts_tree(l: Seq<u8>) -> bool {
    l.len() >= tree_header().len() && l.subrange(0, tree_header().len() as int) == tree_header()
}

/// The value of `l` where it reads `key=value` (split at the first `=`).
pub open spec fn directive(l: Seq<u8>, key: Seq<u8>) -> Option<Seq<u8>> {
    let p = find_byte(l, 61u8);
    if p >= 0 && l.subrange(0, p) == key {
        Some(l.subrange(p + 1, l.len() as int))
    } else {
        None
    }
}

/// The value of the last `key` directive among `lines[lo..hi]`: a later
/// directive replaces an earlier one.
pub open spec fn last_directive(lines: Seq<Seq<u8>>, lo: int, hi: int, key: Seq<u8>) -> Option<
    Seq<u8>,
>
    decreases hi - lo,
{
    if hi <= lo {
        None
    } else {
        match directive(lines[hi - 1], key) {
            Some(v) => Some(v),
            None => last_directive(lines, lo, hi - 1, key),
        }
    }
}

/// A blank line or the next header ends a section.
pub open spec fn ends_section(l: Seq<u8>) -> bool {
    l.len() == 0 || starts_tree(l)
}

/// The first line at or after `j` that ends a section, or the line count.
pub open spec fn section_end(lines: Seq<Seq<u8>>, j: int) -> int
    decreases lines.len() - j,
{
    if j >= lines.len() {
        lines.len() as int
    } else if ends_section(lines[j]) {
        j
    } else {
        section_end(lines, j + 1)
    }
}

/// The positions among the first `n` lines that open a section, in order.
pub open spec fn headers(lines: Seq<Seq<u8>>, n: int) -> Seq<int>
    decreases n,
{
    if n <= 0 {
        Seq::empty()
    } else if starts_tree(lines[n - 1]) {
        headers(lines, n - 1).push(n - 1)
    } else {
        headers(lines, n - 1)
    }
}

/// The value of the section's `key` directive.
pub open spec fn section_value(lines: Seq<Seq<u8>>, h: int, key: Seq<u8>) -> Option<Seq<u8>> {
    last_directive(lines, h + 1, section_end(lines, h + 1), key)
}

pub open spec fn usize_list(v: Seq<u8>) -> Option<Seq<usize>> {
    let ws = words(v);
    if forall|i: int| 0 <= i < ws.len() ==> #[trigger] parse_usize_text(ws[i]) is Some {
        Some(Seq::new(ws.len(), |i: int| parse_usize_text(ws[i])->Some_0))
    } else {
        None
    }
}

pub open spec fn i32_list(v: Seq<u8>) -> Option<Seq<i32>> {
    let ws = words(v);
    if forall|i: int| 0 <= i < ws.len() ==> #[trigger] parse_i32_text(ws[i]) is Some {
        Some(Seq::new(ws.len(), |i: int| parse_i32_text(ws[i])->Some_0))
    } else {
        None
    }
}

/// The section at line `h` has all five directives and its integer lists
/// read.
pub open spec fn section_ints_ok(lines: Seq<Seq<u8>>, h: int) -> bool {
    &&& section_value(lines, h, split_feature_key()) is Some
    &&& section_value(lines, h, threshold_key()) is Some
    &&& section_value(lines, h, left_child_key()) is Some
    &&& section_value(lines, h, right_child_key()) is Some
    &&& section_value(lines, h, leaf_value_key()) is Some
    &&& usize_list(section_value(lines, h, split_feature_key())->Some_0) is Some
    &&& i32_list(section_value(lines, h, left_child_key())->Some_0) is Some
    &&& i32_list(section_value(lines, h, right_child_key())->Some_0) is Some
}

pub open spec fn threshold_words(lines: Seq<Seq<u8>>, h: int) -> Seq<Seq<u8>> {
    words(section_value(lines, h, threshold_key())->Some_0)
}

pub open spec fn leaf_words(lines: Seq<Seq<u8>>, h: int) -> Seq<Seq<u8>> {
    words(section_value(lines, h, leaf_value_key())->Some_0)
}

/// `thresholds` and `leaves` are what `parse_float` gives on the section's
/// threshold and leaf value words.
pub open spec fn section_floats<P: Fn(&[u8]) -> Option<u64>>(
    parse_float: P,
    lines: Seq<Seq<u8>>,
    h: int,
    thresholds: Seq<u64>,
    leaves: Seq<u64>,
) -> bool {
    all_parse_to(parse_float, threshold_words(lines, h), thresholds) && all_parse_to(
        parse_float,
        leaf_words(lines, h),
        leaves,
    )
}

/// `parse_float` may fail on a float word of the section.
pub open spec fn section_float_fails<P: Fn(&[u8]) -> Option<u64>>(
    parse_float: P,
    lines: Seq<Seq<u8>>,
    h: int,
) -> bool {
    some_piece_fails(parse_float, threshold_words(lines, h)) || some_piece_fails(
        parse_float,
        leaf_words(lines, h),
    )
}

/// A child reference: an internal node's id where it is at least zero, else
/// leaf `-c - 1`, whose id follows the `n` internal nodes.
pub open spec fn child_id(c: i32, n: int) -> Option<usize> {
    if c >= 0 {
        Some(c as usize)
    } else if n + (-c - 1) <= usize::MAX {
        Some((n + (-c - 1)) as usize)
    } else {
        None
    }
}

pub open spec fn internal_node(
    features: Seq<usize>,
    thresholds: Seq<u64>,
    left: Seq<i32>,
    right: Seq<i32>,
    i: int,
) -> TreeNode {
    TreeNode {
        id: i as usize,
        split_index: features[i],
        split_condition: thresholds[i],
        left: child_id(left[i], features.len() as int),
        right: child_id(right[i], features.len() as int),
        value: ZERO_BITS,
    }
}

pub open spec fn leaf_node(n: int, leaves: Seq<u64>, j: int) -> TreeNode {
    TreeNode {
        id: (n + j) as usize,
        split_index: 0,
        split_condition: ZERO_BITS,
        left: None,
        right: None,
        value: leaves[j],
    }
}

/// Internal node `i` has both children, within ids, and a threshold that is
/// not a NaN.
pub open spec fn internal_ok(left: Seq<i32>, right: Seq<i32>, thresholds: Seq<u64>, n: int, i: int) -> bool {
    &&& child_id(left[i], n) is Some
    &&& child_id(right[i], n) is Some
    &&& !is_nan(thresholds[i])
}

/// The nodes can be assembled: every internal node has its threshold and
/// children, ids fit, and no threshold or leaf value is a NaN.
pub open spec fn assembles(
    features: Seq<usize>,
    thresholds: Seq<u64>,
    left: Seq<i32>,
    right: Seq<i32>,
    leaves: Seq<u64>,
) -> bool {
    let n = features.len() as int;
    &&& thresholds.len() >= n && left.len() >= n && right.len() >= n
    &&& n + leaves.len() <= usize::MAX
    &&& n + leaves.len() > 0
    &&& forall|i: int| 0 <= i < n ==> #[trigger] internal_ok(left, right, thresholds, n, i)
    &&& forall|j: int| #![trigger leaves[j]] 0 <= j < leaves.len() ==> !is_nan(leaves[j])
}

/// The internal nodes, then one leaf node per leaf value.
pub open spec fn assembled_nodes(
    features: Seq<usize>,
    thresholds: Seq<u64>,
    left: Seq<i32>,
    right: Seq<i32>,
    leaves: Seq<u64>,
) -> Seq<TreeNode> {
    Seq::new(features.len(), |i: int| internal_node(features, thresholds, left, right, i)) + Seq::new(
        leaves.len(),
        |j: int| leaf_node(features.len() as int, leaves, j),
    )
}

pub open spec fn section_features(lines: Seq<Seq<u8>>, h: int) -> Seq<usize> {
    usize_list(section_value(lines, h, split_feature_key())->Some_0)->Some_0
}

pub open spec fn section_left(lines: Seq<Seq<u8>>, h: int) -> Seq<i32> {
    i32_list(section_value(lines, h, left_child_key())->Some_0)->Some_0
}

pub open spec fn section_right(lines: Seq<Seq<u8>>, h: int) -> Seq<i32> {
    i32_list(section_value(lines, h, right_child_key())->Some_0)->Some_0
}

pub open spec fn section_assembles(
    lines: Seq<Seq<u8>>,
    h: int,
    thresholds: Seq<u64>,
    leaves: Seq<u64>,
) -> bool {
    assembles(
        section_features(lines, h),
        thresholds,
        section_left(lines, h),
        section_right(lines, h),
        leaves,
    )
}

pub open spec fn section_nodes(
    lines: Seq<Seq<u8>>,
    h: int,
    thresholds: Seq<u64>,
    leaves: Seq<u64>,
) -> Seq<TreeNode> {
    assembled_nodes(
        section_features(lines, h),
        thresholds,
        section_left(lines, h),
        section_right(lines, h),
        leaves,
    )
}

/// `t` is the tree of the section at line `h`, with floats read by
/// `parse_float`.
pub open spec fn section_tree<P: Fn(&[u8]) -> Option<u64>>(
    parse_float: P,
    lines: Seq<Seq<u8>>,
    h: int,
    t: Tree,
) -> bool {
    &&& section_ints_ok(lines, h)
    &&& exists|thresholds: Seq<u64>, leaves: Seq<u64>|
        section_floats(parse_float, lines, h, thresholds, leaves) && section_assembles(
            lines,
            h,
            thresholds,
            leaves,
        ) && built_from(t, section_nodes(lines, h, thresholds, leaves))
}

/// The section at line `h` makes no tree.
pub open spec fn section_fails<P: Fn(&[u8]) -> Option<u64>>(
    parse_float: P,
    lines: Seq<Seq<u8>>,
    h: int,
) -> bool {
    ||| !section_ints_ok(lines, h)
    ||| section_float_fails(parse_float, lines, h)
    ||| exists|thresholds: Seq<u64>, leaves: Seq<u64>|
        section_floats(parse_float, lines, h, thresholds, leaves) && !section_assembles(
            lines,
            h,
            thresholds,
            leaves,
        )
}

/// The trees per boosting round, as the header gives it.
pub open spec fn trees_per_iteration(lines: Seq<Seq<u8>>) -> Option<usize> {
    match last_directive(lines, 0, lines.len() as int, trees_per_iteration_key()) {
        Some(v) => parse_usize_text(v),
        None => None,
    }
}

/// What importing the text `b` gives, with `parse_float` reading floats.
pub open spec fn lightgbm_outcome<P: Fn(&[u8]) -> Option<u64>>(
    parse_float: P,
    b: Seq<u8>,
    r: Result<MultiOutputForest, LightGbmError>,
) -> bool {
    let lines = text_lines(b);
    let hs = headers(lines, lines.len() as int);
    match r {
        Ok(m) => {
            let k = trees_per_iteration(lines)->Some_0 as int;
            let rounds = hs.len() as int / k;
            &&& trees_per_iteration(lines) is Some
            &&& k > 0
            &&& m.spec_forests().len() == k
            &&& forall|j: int|
                #![trigger m.spec_forests()[j]]
                0 <= j < k ==> {
                    &&& m.spec_forests()[j].spec_base_value() == ZERO_BITS
                    &&& m.spec_forests()[j].spec_trees().len() == rounds
                    &&& forall|i: int|
                        0 <= i < rounds ==> section_tree(
                            parse_float,
                            lines,
                            hs[i * k + j],
                            #[trigger] m.spec_forests()[j].spec_trees()[i],
                        )
                }
        },
        Err(_) => {
            ||| trees_per_iteration(lines) is None
            ||| trees_per_iteration(lines) == Some(0usize)
            ||| exists|k: int|
                0 <= k < hs.len() && #[trigger] section_fails(parse_float, lines, hs[k])
        },
    }
}

fn invalid(detail: &str) -> (r: LightGbmError) {
    LightGbmError::InvalidParameters { detail: String::from_str(detail) }
}

/// The value bounds of the line `b[lo..hi]` where it reads `key=value`.
fn directive_range(b: &[u8], lo: usize, hi: usize, key: &[u8]) -> (r: Option<(usize, usize)>)
    requires
        lo <= hi <= b@.len(),
    ensures
        match r {
            Some(v) => hi >= v.1 && v.0 <= v.1 && directive(b@.subrange(lo as int, hi as int), key@)
                == Some(b@.subrange(v.0 as int, v.1 as int)),
            None => directive(b@.subrange(lo as int, hi as int), key@) is None,
        },
{
    let ghost l = b@.subrange(lo as int, hi as int);
    match find_in(b, lo, hi, 61u8) {
        None => None,
        Some(p) => {
            assert(b@.subrange(lo as int, p as int) == l.subrange(0, p - lo));
            assert(b@.subrange(p + 1, hi as int) == l.subrange(p - lo + 1, l.len() as int));
            if bytes_equal(&b[lo..p], key) {
                Some((p + 1, hi))
            } else {
                None
            }
        },
    }
}

/// Whether the line `b[lo..hi]` opens a tree section.
fn line_starts_tree(b: &[u8], lo: usize, hi: usize, header: &[u8]) -> (r: bool)
    requires
        lo <= hi <= b@.len(),
        header@ == tree_header(),
    ensures
        r == starts_tree(b@.subrange(lo as int, hi as int)),
{
    if hi - lo < header.len() {
        return false;
    }
    let r = bytes_equal(&b[lo..lo + header.len()], header);
    assert(b@.subrange(lo as int, lo + header@.len()) == b@.subrange(lo as int, hi as int).subrange(
        0,
        header@.len() as int,
    ));
    r
}

/// The value bounds of the last `key` directive among lines `lo..hi`.
fn last_directive_range(
    b: &[u8],
    lines: &Vec<(usize, usize)>,
    lo: usize,
    hi: usize,
    key: &[u8],
) -> (r: Option<(usize, usize)>)
    requires
        lo <= hi <= lines@.len(),
        forall|i: int|
            #![trigger lines@[i]]
            0 <= i < lines@.len() ==> lines@[i].0 <= lines@[i].1 <= b@.len(),
    ensures
        match r {
            Some(v) => v.0 <= v.1 <= b@.len() && last_directive(
                lines@.map_values(|p: (usize, usize)| b@.subrange(p.0 as int, p.1 as int)),
                lo as int,
                hi as int,
                key@,
            ) == Some(b@.subrange(v.0 as int, v.1 as int)),
            None => last_directive(
                lines@.map_values(|p: (usize, usize)| b@.subrange(p.0 as int, p.1 as int)),
                lo as int,
                hi as int,
                key@,
            ) is None,
        },
{
    let ghost ls = lines@.map_values(|p: (usize, usize)| b@.subrange(p.0 as int, p.1 as int));
    let mut found: Option<(usize, usize)> = None;
    let mut i = lo;
    while i < hi
        invariant
            lo <= i <= hi <= lines@.len(),
            ls == lines@.map_values(|p: (usize, usize)| b@.subrange(p.0 as int, p.1 as int)),
            forall|k: int|
                #![trigger lines@[k]]
                0 <= k < lines@.len() ==> lines@[k].0 <= lines@[k].1 <= b@.len(),
            match found {
                Some(v) => v.0 <= v.1 <= b@.len() && last_directive(ls, lo as int, i as int, key@)
                    == Some(b@.subrange(v.0 as int, v.1 as int)),
                None => last_directive(ls, lo as int, i as int, key@) is None,
            },
        decreases hi - i,
    {
        let (s, e) = lines[i];
        assert(ls[i as int] == b@.subrange(s as int, e as int));
        match directive_range(b, s, e, key) {
            Some(v) => {
                found = Some(v);
            },
            None => {},
        }
        i += 1;
    }
    found
}

/// The integers of the words of `b[lo..hi]`, where every word reads.
fn read_usize_list(b: &[u8], lo: usize, hi: usize) -> (r: Option<Vec<usize>>)
    requires
        lo <= hi <= b@.len(),
    ensures
        match r {
            Some(v) => usize_list(b@.subrange(lo as int, hi as int)) == Some(v@),
            None => usize_list(b@.subrange(lo as int, hi as int)) is None,
        },
{
    let ghost ws = words(b@.subrange(lo as int, hi as int));
    let spans = word_ranges(b, lo, hi);
    let mut out: Vec<usize> = Vec::new();
    let mut i: usize = 0;
    while i < spans.len()
        invariant
            i <= spans@.len() == ws.len(),
            lo <= hi <= b@.len(),
            ws == words(b@.subrange(lo as int, hi as int)),
            forall|k: int|
                #![trigger spans@[k]]
                0 <= k < spans@.len() ==> lo <= spans@[k].0 <= spans@[k].1 <= hi && b@.subrange(
                    spans@[k].0 as int,
                    spans@[k].1 as int,
                ) == ws[k],
            out@.len() == i,
            forall|k: int|
                0 <= k < i ==> #[trigger] parse_usize_text(ws[k]) == Some(out@[k]),
        decreases spans.len() - i,
    {
        let (s, e) = spans[i];
        assert(b@.subrange(s as int, e as int) == ws[i as int]);
        match parse_usize_bytes(&b[s..e]) {
            None => {
                return None;
            },
            Some(v) => {
                out.push(v);
            },
        }
        i += 1;
    }
    assert(out@ == Seq::new(ws.len(), |k: int| parse_usize_text(ws[k])->Some_0));
    Some(out)
}

/// The integers of the words of `b[lo..hi]`, where every word reads.
fn read_i32_list(b: &[u8], lo: usize, hi: usize) -> (r: Option<Vec<i32>>)
    requires
        lo <= hi <= b@.len(),
    ensures
        match r {
            Some(v) => i32_list(b@.subrange(lo as int, hi as int)) == Some(v@),
            None => i32_list(b@.subrange(lo as int, hi as int)) is None,
        },
{
    let ghost ws = words(b@.subrange(lo as int, hi as int));
    let spans = word_ranges(b, lo, hi);
    let mut out: Vec<i32> = Vec::new();
    let mut i: usize = 0;
    while i < spans.len()
        invariant
            i <= spans@.len() == ws.len(),
            lo <= hi <= b@.len(),
            ws == words(b@.subrange(lo as int, hi as int)),
            forall|k: int|
                #![trigger spans@[k]]
                0 <= k < spans@.len() ==> lo <= spans@[k].0 <= spans@[k].1 <= hi && b@.subrange(
                    spans@[k].0 as int,
                    spans@[k].1 as int,
                ) == ws[k],
            out@.len() == i,
            forall|k: int| 0 <= k < i ==> #[trigger] parse_i32_text(ws[k]) == Some(out@[k]),
        decreases spans.len() - i,
    {
        let (s, e) = spans[i];
        assert(b@.subrange(s as int, e as int) == ws[i as int]);
        match parse_i32_bytes(&b[s..e]) {
            None => {
                return None;
            },
            Some(v) => {
                out.push(v);
            },
        }
        i += 1;
    }
    assert(out@ == Seq::new(ws.len(), |k: int| parse_i32_text(ws[k])->Some_0));
    Some(out)
}

/// The floats of the words of `b[lo..hi]`, read by `parse_float`.
fn read_float_list<P: Fn(&[u8]) -> Option<u64>>(
    b: &[u8],
    lo: usize,
    hi: usize,
    parse_float: &P,
) -> (r: Option<Vec<u64>>)
    requires
        lo <= hi <= b@.len(),
        forall|t: &[u8]| parse_float.requires((t,)),
    ensures
        match r {
            Some(v) => all_parse_to(*parse_float, words(b@.subrange(lo as int, hi as int)), v@),
            None => some_piece_fails(*parse_float, words(b@.subrange(lo as int, hi as int))),
        },
{
    let ghost ws = words(b@.subrange(lo as int, hi as int));
    let spans = word_ranges(b, lo, hi);
    let mut out: Vec<u64> = Vec::new();
    let mut i: usize = 0;
    while i < spans.len()
        invariant
            i <= spans@.len() == ws.len(),
            lo <= hi <= b@.len(),
            ws == words(b@.subrange(lo as int, hi as int)),
            forall|t: &[u8]| parse_float.requires((t,)),
            forall|k: int|
                #![trigger spans@[k]]
                0 <= k < spans@.len() ==> lo <= spans@[k].0 <= spans@[k].1 <= hi && b@.subrange(
                    spans@[k].0 as int,
                    spans@[k].1 as int,
                ) == ws[k],
            out@.len() == i,
            forall|k: int|
                #![trigger ws[k]]
                0 <= k < i ==> parses_to(*parse_float, ws[k], Some(out@[k])),
        decreases spans.len() - i,
    {
        let (s, e) = spans[i];
        let piece = &b[s..e];
        assert(piece@ == ws[i as int]);
        match parse_float(piece) {
            None => {
                assert(parses_to(*parse_float, ws[i as int], None));
                return None;
            },
            Some(v) => {
                assert(parses_to(*parse_float, ws[i as int], Some(v)));
                out.push(v);
            },
        }
        i += 1;
    }
    Some(out)
}


/// The lines as `lines` bounds them in `b`.
pub open spec fn lines_in(b: Seq<u8>, lines: Seq<(usize, usize)>) -> Seq<Seq<u8>> {
    lines.map_values(|p: (usize, usize)| b.subrange(p.0 as int, p.1 as int))
}

proof fn lemma_assembles(
    features: Seq<usize>,
    thresholds: Seq<u64>,
    left: Seq<i32>,
    right: Seq<i32>,
    leaves: Seq<u64>,
)
    requires
        thresholds.len() >= features.len() && left.len() >= features.len() && right.len()
            >= features.len(),
        features.len() + leaves.len() <= usize::MAX,
        features.len() + leaves.len() > 0,
        forall|q: int|
            0 <= q < features.len() ==> #[trigger] internal_ok(
                left,
                right,
                thresholds,
                features.len() as int,
                q,
            ),
        forall|q: int| 0 <= q < leaves.len() ==> !is_nan(#[trigger] leaves[q]),
    ensures
        assembles(features, thresholds, left, right, leaves),
{
    let n = features.len() as int;
    assert(thresholds.len() >= n && left.len() >= n && right.len() >= n);
    assert(n + leaves.len() <= usize::MAX);
    assert(n + leaves.len() > 0);

    assert(forall|j: int| #![trigger leaves[j]] 0 <= j < leaves.len() ==> !is_nan(leaves[j]));
}

fn child_of(c: i32, n: usize) -> (r: Option<usize>)
    ensures
        r == child_id(c, n as int),
{
    if c >= 0 {
        Some(c as usize)
    } else {
        let off = (-(c as i64) - 1) as usize;
        if off > usize::MAX - n {
            None
        } else {
            Some(n + off)
        }
    }
}

/// The tree of the section whose header is line `h`.
fn parse_section<P: Fn(&[u8]) -> Option<u64>>(
    b: &[u8],
    lines: &Vec<(usize, usize)>,
    h: usize,
    parse_float: &P,
) -> (r: Result<Tree, LightGbmError>)
    requires
        h < lines@.len(),
        forall|i: int|
            #![trigger lines@[i]]
            0 <= i < lines@.len() ==> lines@[i].0 <= lines@[i].1 <= b@.len(),
        forall|t: &[u8]| parse_float.requires((t,)),
    ensures
        match r {
            Ok(t) => section_tree(*parse_float, lines_in(b@, lines@), h as int, t),
            Err(_) => section_fails(*parse_float, lines_in(b@, lines@), h as int),
        },
{
    let ghost ls = lines_in(b@, lines@);
    let header = "Tree=".as_bytes();
    let len = lines.len();
    let mut e = h + 1;
    while e < lines.len() && !(lines[e].0 == lines[e].1 || line_starts_tree(
        b,
        lines[e].0,
        lines[e].1,
        header,
    ))
        invariant
            h + 1 <= e <= lines@.len(),
            ls == lines_in(b@, lines@),
            header@ == tree_header(),
            forall|i: int|
                #![trigger lines@[i]]
                0 <= i < lines@.len() ==> lines@[i].0 <= lines@[i].1 <= b@.len(),
            section_end(ls, h + 1) == section_end(ls, e as int),
        decreases lines.len() - e,
    {
        assert(ls[e as int] == b@.subrange(lines@[e as int].0 as int, lines@[e as int].1 as int));
        e += 1;
    }
    proof {
        if e < lines@.len() {
            assert(ls[e as int] == b@.subrange(lines@[e as int].0 as int, lines@[e as int].1 as int));
        }
        assert(section_end(ls, e as int) == e);
    }
    let sf = last_directive_range(b, lines, h + 1, e, "split_feature".as_bytes());
    let th = last_directive_range(b, lines, h + 1, e, "threshold".as_bytes());
    let lc = last_directive_range(b, lines, h + 1, e, "left_child".as_bytes());
    let rc = last_directive_range(b, lines, h + 1, e, "right_child".as_bytes());
    let lv = last_directive_range(b, lines, h + 1, e, "leaf_value".as_bytes());
    let (sf, th, lc, rc, lv) = match (sf, th, lc, rc, lv) {
        (Some(sf), Some(th), Some(lc), Some(rc), Some(lv)) => (sf, th, lc, rc, lv),
        _ => {
            return Err(invalid("a tree section lacks a directive"));
        },
    };
    let features = match read_usize_list(b, sf.0, sf.1) {
        Some(v) => v,
        None => {
            return Err(invalid("split_feature"));
        },
    };
    let left = match read_i32_list(b, lc.0, lc.1) {
        Some(v) => v,
        None => {
            return Err(invalid("left_child"));
        },
    };
    let right = match read_i32_list(b, rc.0, rc.1) {
        Some(v) => v,
        None => {
            return Err(invalid("right_child"));
        },
    };
    assert(section_ints_ok(ls, h as int));
    assert(section_features(ls, h as int) == features@);
    assert(section_left(ls, h as int) == left@);
    assert(section_right(ls, h as int) == right@);
    let thresholds = match read_float_list(b, th.0, th.1, parse_float) {
        Some(v) => v,
        None => {
            return Err(invalid("threshold"));
        },
    };
    let leaves = match read_float_list(b, lv.0, lv.1, parse_float) {
        Some(v) => v,
        None => {
            return Err(invalid("leaf_value"));
        },
    };
    assert(section_floats(*parse_float, ls, h as int, thresholds@, leaves@));
    let n = features.len();
    if thresholds.len() < n || left.len() < n || right.len() < n {
        assert(!section_assembles(ls, h as int, thresholds@, leaves@));
        return Err(invalid("a tree section's lists are too short"));
    }
    if leaves.len() > usize::MAX - n || n + leaves.len() == 0 {
        assert(!section_assembles(ls, h as int, thresholds@, leaves@));
        return Err(invalid("a tree section has no nodes"));
    }
    let mut nodes: Vec<TreeNode> = Vec::new();
    let mut i: usize = 0;
    while i < n
        invariant
            ls == lines_in(b@, lines@),
            section_ints_ok(ls, h as int),
            section_features(ls, h as int) == features@,
            section_left(ls, h as int) == left@,
            section_right(ls, h as int) == right@,
            section_floats(*parse_float, ls, h as int, thresholds@, leaves@),
            i <= n == features@.len(),
            thresholds@.len() >= n && left@.len() >= n && right@.len() >= n,
            nodes@.len() == i,
            forall|k: int|
                #![trigger internal_node(features@, thresholds@, left@, right@, k)]
                0 <= k < i ==> internal_ok(left@, right@, thresholds@, n as int, k) && nodes@[k] == internal_node(
                    features@,
                    thresholds@,
                    left@,
                    right@,
                    k,
                ),
        decreases n - i,
    {
        let ghost node_spec = internal_node(features@, thresholds@, left@, right@, i as int);
        let l = child_of(left[i], n);
        let r = child_of(right[i], n);
        if l.is_none() || r.is_none() || bits_is_nan(thresholds[i]) {
            assert(!internal_ok(left@, right@, thresholds@, n as int, i as int));
            assert(!assembles(features@, thresholds@, left@, right@, leaves@));
            assert(!section_assembles(ls, h as int, thresholds@, leaves@));
            return Err(invalid("a tree node is malformed"));
        }
        nodes.push(
            TreeNode {
                id: i,
                split_index: features[i],
                split_condition: thresholds[i],
                left: l,
                right: r,
                value: ZERO_BITS,
            },
        );
        i += 1;
    }
    let mut j: usize = 0;
    while j < leaves.len()
        invariant
            ls == lines_in(b@, lines@),
            section_ints_ok(ls, h as int),
            section_features(ls, h as int) == features@,
            section_left(ls, h as int) == left@,
            section_right(ls, h as int) == right@,
            section_floats(*parse_float, ls, h as int, thresholds@, leaves@),
            j <= leaves@.len(),
            n == features@.len(),
            n + leaves@.len() <= usize::MAX,
            n + leaves@.len() > 0,
            thresholds@.len() >= n && left@.len() >= n && right@.len() >= n,
            nodes@.len() == n + j,
            forall|k: int|
                #![trigger internal_node(features@, thresholds@, left@, right@, k)]
                0 <= k < n ==> internal_ok(left@, right@, thresholds@, n as int, k) && nodes@[k] == internal_node(
                    features@,
                    thresholds@,
                    left@,
                    right@,
                    k,
                ),
            forall|k: int|
                #![trigger leaves@[k]]
                0 <= k < j ==> !is_nan(leaves@[k]) && nodes@[n + k] == leaf_node(
                    n as int,
                    leaves@,
                    k,
                ),
        decreases leaves.len() - j,
    {
        if bits_is_nan(leaves[j]) {
            assert(!assembles(features@, thresholds@, left@, right@, leaves@));
            assert(!section_assembles(ls, h as int, thresholds@, leaves@));
            return Err(invalid("a leaf value is a NaN"));
        }
        nodes.push(
            TreeNode {
                id: n + j,
                split_index: 0,
                split_condition: ZERO_BITS,
                left: None,
                right: None,
                value: leaves[j],
            },
        );
        j += 1;
    }
    assert forall|q: int| 0 <= q < features@.len() implies #[trigger] internal_ok(
        left@,
        right@,
        thresholds@,
        features@.len() as int,
        q,
    ) by {
        assert(nodes@[q] == internal_node(features@, thresholds@, left@, right@, q));
    }
    assert(thresholds@.len() >= n && left@.len() >= n && right@.len() >= n);
    assert(n + leaves@.len() <= usize::MAX);
    assert(n + leaves@.len() > 0);
    assert(forall|q: int| 0 <= q < leaves@.len() ==> !is_nan(#[trigger] leaves@[q]));
    proof {
        lemma_assembles(features@, thresholds@, left@, right@, leaves@);
    }
    assert(nodes@ =~= assembled_nodes(features@, thresholds@, left@, right@, leaves@));
    assert(section_assembles(ls, h as int, thresholds@, leaves@));
    assert(ids_unique(nodes@)) by {
        assert forall|a: int, c: int| 0 <= a < c < nodes@.len() implies nodes@[a].id
            != nodes@[c].id by {
            assert(nodes@[a].id == a);
            assert(nodes@[c].id == c);
        }
    }
    Ok(Tree::from_nodes(nodes))
}

proof fn lemma_headers_prefix(lines: Seq<Seq<u8>>, n: int, m: int)
    requires
        0 <= n <= m,
    ensures
        headers(lines, n).len() <= headers(lines, m).len(),
        forall|k: int|
            0 <= k < headers(lines, n).len() ==> #[trigger] headers(lines, m)[k] == headers(
                lines,
                n,
            )[k],
    decreases m - n,
{
    if m > n {
        lemma_headers_prefix(lines, n, m - 1);
    }
}

/// Tree `i * k + j` goes to group `j`, for every complete round `i`.
fn group_rounds(trees: Vec<Tree>, k: usize) -> (r: Vec<Vec<Tree>>)
    requires
        k > 0,
    ensures
        r@.len() == k,
        forall|j: int|
            #![trigger r@[j]]
            0 <= j < k ==> r@[j]@.len() == trees@.len() as int / k as int && forall|i: int|
                0 <= i < trees@.len() as int / k as int ==> #[trigger] r@[j]@[i] == trees@[i
                    * k + j],
{
    let ghost orig = trees@;
    let total = trees.len();
    let rounds = total / k;
    assert(rounds * k <= total) by (nonlinear_arith)
        requires
            rounds == total / k,
            k > 0,
    ;
    let mut trees = trees;
    let mut rev: Vec<Tree> = Vec::new();
    while trees.len() > 0
        invariant
            trees@.len() + rev@.len() == total == orig.len(),
            forall|q: int| 0 <= q < trees@.len() ==> trees@[q] == orig[q],
            forall|q: int| 0 <= q < rev@.len() ==> rev@[q] == orig[total - 1 - q],
        decreases trees.len(),
    {
        match trees.pop() {
            Some(t) => {
                rev.push(t);
            },
            None => {},
        }
    }
    let mut groups: Vec<Vec<Tree>> = Vec::new();
    while groups.len() < k
        invariant
            groups@.len() <= k,
            forall|c: int| 0 <= c < groups@.len() ==> (#[trigger] groups@[c])@.len() == 0,
        decreases k - groups.len(),
    {
        groups.push(Vec::new());
    }
    let mut i: usize = 0;
    while i < rounds
        invariant
            i <= rounds == total / k,
            rounds * k <= total == orig.len(),
            k > 0,
            rev@.len() == total - i * k,
            forall|q: int| 0 <= q < rev@.len() ==> rev@[q] == orig[total - 1 - q],
            groups@.len() == k,
            forall|c: int|
                #![trigger groups@[c]]
                0 <= c < k ==> groups@[c]@.len() == i && forall|m: int|
                    0 <= m < i ==> #[trigger] groups@[c]@[m] == orig[m * k + c],
        decreases rounds - i,
    {
        assert(i * k + k <= rounds * k) by (nonlinear_arith)
            requires
                i < rounds,
        ;
        let mut j: usize = 0;
        while j < k
            invariant
                i < rounds == total / k,
                rounds * k <= total == orig.len(),
                i * k + k <= rounds * k,
                j <= k,
                rev@.len() == total - i * k - j,
                forall|q: int| 0 <= q < rev@.len() ==> rev@[q] == orig[total - 1 - q],
                groups@.len() == k,
                forall|c: int|
                    #![trigger groups@[c]]
                    0 <= c < k ==> groups@[c]@.len() == (if c < j {
                        i + 1
                    } else {
                        i as int
                    }) && forall|m: int|
                        0 <= m < groups@[c]@.len() ==> #[trigger] groups@[c]@[m] == orig[m * k
                            + c],
            decreases k - j,
        {
            let t = match rev.pop() {
                Some(t) => t,
                None => {
                    return groups;
                },
            };
            let ghost before = groups@;
            groups[j].push(t);
            proof {
                assert forall|c: int| 0 <= c < k implies {
                    &&& (#[trigger] groups@[c])@.len() == (if c < j + 1 {
                        i + 1
                    } else {
                        i as int
                    })
                    &&& forall|m: int|
                        0 <= m < groups@[c]@.len() ==> #[trigger] groups@[c]@[m] == orig[m * k
                            + c]
                } by {
                    if c != j {
                        assert(groups@[c] == before[c]);
                    } else {
                        assert forall|m: int| 0 <= m < groups@[c]@.len() implies #[trigger] groups@[c]@[m]
                            == orig[m * k + c] by {
                            if m < i {
                                assert(groups@[c]@[m] == before[c]@[m]);
                            }
                        }
                    }
                }
            }
            j += 1;
        }
        assert((i + 1) * k == i * k + k) by (nonlinear_arith);
        i += 1;
    }
    groups
}

/// Imports the text dump `content`: the header's `num_tree_per_iteration`
/// gives the number of outputs `k`, and tree `i * k + j` of the sections
/// becomes tree `i` of forest `j`, whose base value is zero. Trees beyond the
/// last complete round are left out. `parse_float` reads the thresholds and
/// leaf values.
pub fn read_lightgbm_model<P: Fn(&[u8]) -> Option<u64>>(content: &str, parse_float: &P) -> (r:
    Result<MultiOutputForest, LightGbmError>)
    requires
        forall|t: &[u8]| parse_float.requires((t,)),
    ensures
        lightgbm_outcome(*parse_float, content.spec_bytes(), r),
{
    let b = content.as_bytes();
    let lines = line_ranges(b);
    let ghost ls = lines_in(b@, lines@);
    assert(ls =~= text_lines(b@)) by {
        assert forall|q: int| 0 <= q < ls.len() implies ls[q] == text_lines(b@)[q] by {
            assert(ls[q] == b@.subrange(lines@[q].0 as int, lines@[q].1 as int));
        }
    }
    let ghost hs = headers(ls, ls.len() as int);
    let k = match last_directive_range(b, &lines, 0, lines.len(), "num_tree_per_iteration".as_bytes()) {
        None => {
            return Err(invalid("num_tree_per_iteration not found in header"));
        },
        Some(v) => match parse_usize_bytes(&b[v.0..v.1]) {
            None => {
                return Err(invalid("num_tree_per_iteration"));
            },
            Some(k) => k,
        },
    };
    if k == 0 {
        return Err(invalid("num_tree_per_iteration is zero"));
    }
    let header = "Tree=".as_bytes();
    let mut trees: Vec<Tree> = Vec::new();
    let mut i: usize = 0;
    while i < lines.len()
        invariant
            i <= lines@.len(),
            b@ == content.spec_bytes(),
            ls == lines_in(b@, lines@),
            ls == text_lines(b@),
            hs == headers(ls, ls.len() as int),
            header@ == tree_header(),
            forall|t: &[u8]| parse_float.requires((t,)),
            forall|q: int|
                #![trigger lines@[q]]
                0 <= q < lines@.len() ==> lines@[q].0 <= lines@[q].1 <= b@.len(),
            trees@.len() == headers(ls, i as int).len(),
            forall|m: int|
                0 <= m < trees@.len() ==> section_tree(
                    *parse_float,
                    ls,
                    headers(ls, i as int)[m],
                    #[trigger] trees@[m],
                ),
        decreases lines.len() - i,
    {
        assert(ls[i as int] == b@.subrange(lines@[i as int].0 as int, lines@[i as int].1 as int));
        if line_starts_tree(b, lines[i].0, lines[i].1, header) {
            match parse_section(b, &lines, i, parse_float) {
                Err(e) => {
                    proof {
                        assert(starts_tree(ls[i as int]));
                        assert(headers(ls, i + 1) == headers(ls, i as int).push(i as int));
                        lemma_headers_prefix(ls, i + 1, ls.len() as int);
                        assert(headers(ls, i + 1)[trees@.len() as int] == i);
                        assert(hs[trees@.len() as int] == i);
                        assert(section_fails(*parse_float, ls, hs[trees@.len() as int]));
                        assert(trees@.len() < hs.len());
                        assert(text_lines(content.spec_bytes()) == ls);
                        assert(exists|q: int|
                            0 <= q < hs.len() && #[trigger] section_fails(*parse_float, ls, hs[q]));
                    }
                    return Err(e);
                },
                Ok(t) => {
                    trees.push(t);
                },
            }
        }
        i += 1;
    }
    let ghost all = trees@;
    let groups = group_rounds(trees, k);
    let ghost g0 = groups@;
    let mut groups = groups;
    let mut forests: Vec<Forest> = Vec::new();
    let mut j: usize = 0;
    while j < k
        invariant
            j <= k,
            groups@.len() == k,
            forests@.len() == j,
            forall|c: int| j <= c < k ==> #[trigger] groups@[c] == g0[c],
            forall|c: int|
                #![trigger forests@[c]]
                0 <= c < j ==> forests@[c].spec_base_value() == ZERO_BITS
                    && forests@[c].spec_trees() == g0[c]@,
        decreases k - j,
    {
        let mut g: Vec<Tree> = Vec::new();
        std::mem::swap(&mut g, &mut groups[j]);
        forests.push(Forest::new(ZERO_BITS, g));
        j += 1;
    }
    let m = MultiOutputForest::new(forests);
    proof {
        let rounds = hs.len() as int / k as int;
        assert forall|c: int| 0 <= c < k implies {
            &&& (#[trigger] m.spec_forests()[c]).spec_base_value() == ZERO_BITS
            &&& m.spec_forests()[c].spec_trees().len() == rounds
            &&& forall|q: int|
                0 <= q < rounds ==> section_tree(
                    *parse_float,
                    ls,
                    hs[q * k + c],
                    #[trigger] m.spec_forests()[c].spec_trees()[q],
                )
        } by {
            assert(m.spec_forests()[c] == forests@[c]);
            assert forall|q: int| 0 <= q < rounds implies section_tree(
                *parse_float,
                ls,
                hs[q * k + c],
                #[trigger] m.spec_forests()[c].spec_trees()[q],
            ) by {
                assert(q * k + c < rounds * k) by (nonlinear_arith)
                    requires
                        q < rounds,
                        0 <= c < k,
                ;
                assert(rounds * k <= hs.len()) by (nonlinear_arith)
                    requires
                        rounds == hs.len() as int / k as int,
                        k > 0,
                ;
                assert(0 <= q * k + c) by (nonlinear_arith)
                    requires
                        0 <= q,
                        0 <= c,
                        k > 0,
                ;
                assert(g0[c]@[q] == all[q * k + c]);
            }
        }
    }
    Ok(m)
}


/// A text dump without `num_tree_per_iteration` is refused.
pub proof fn lemma_missing_trees_per_iteration_refused<P: Fn(&[u8]) -> Option<u64>>(
    parse_float: P,
    b: Seq<u8>,
    r: Result<MultiOutputForest, LightGbmError>,
)
    requires
        lightgbm_outcome(parse_float, b, r),
        last_directive(
            text_lines(b),
            0,
            text_lines(b).len() as int,
            trees_per_iteration_key(),
        ) is None,
    ensures
        r is Err,
{
}

/// With `k` trees per round and `k * rounds` sections, an import gives `k`
/// forests of `rounds` trees each, tree `i` of forest `j` coming from
/// section `i * k + j`.
pub proof fn lemma_rounds_grouped<P: Fn(&[u8]) -> Option<u64>>(
    parse_float: P,
    b: Seq<u8>,
    r: Result<MultiOutputForest, LightGbmError>,
    k: usize,
    rounds: nat,
)
    requires
        lightgbm_outcome(parse_float, b, r),
        r is Ok,
        trees_per_iteration(text_lines(b)) == Some(k),
        headers(text_lines(b), text_lines(b).len() as int).len() == k * rounds,
    ensures
        r->Ok_0.spec_forests().len() == k,
        forall|j: int|
            0 <= j < k ==> (#[trigger] r->Ok_0.spec_forests()[j]).spec_trees().len() == rounds,
        forall|j: int, i: int|
            0 <= j < k && 0 <= i < rounds ==> section_tree(
                parse_float,
                text_lines(b),
                headers(text_lines(b), text_lines(b).len() as int)[i * k + j],
                #[trigger] r->Ok_0.spec_forests()[j].spec_trees()[i],
            ),
{
    assert((k * rounds) as int / k as int == rounds) by (nonlinear_arith)
        requires
            k > 0,
    ;
}

} // verus!
