//! Importers for the two model formats.
use vstd::prelude::*;

pub mod lightgbm;
pub mod text;
pub mod xgboost;

pub use lightgbm::read_lightgbm_model;
pub use xgboost::{parse_base_score, parse_xgboost_model};

verus! {

/// `r` is a result that the float parser `parse_float` may give on the bytes
/// `text`.
pub open spec fn parses_to<P: Fn(&[u8]) -> Option<u64>>(
    parse_float: P,
    text: Seq<u8>,
    r: Option<u64>,
) -> bool {
    exists|t: &[u8]| t@ == text && parse_float.ensures((t,), r)
}

/// `vals` are results that `parse_float` gives on the pieces, one for one.
pub open spec fn all_parse_to<P: Fn(&[u8]) -> Option<u64>>(
    parse_float: P,
    pieces: Seq<Seq<u8>>,
    vals: Seq<u64>,
) -> bool {
    &&& vals.len() == pieces.len()
    &&& forall|i: int|
        #![trigger pieces[i]]
        0 <= i < pieces.len() ==> parses_to(parse_float, pieces[i], Some(vals[i]))
}

/// `parse_float` may fail on one of the pieces.
pub open spec fn some_piece_fails<P: Fn(&[u8]) -> Option<u64>>(
    parse_float: P,
    pieces: Seq<Seq<u8>>,
) -> bool {
    exists|i: int|
        #![trigger pieces[i]]
        0 <= i < pieces.len() && parses_to(parse_float, pieces[i], None)
}

/// `text` split at each `sep`: empty pieces are kept, and there is always at
/// least one piece.
pub open spec fn split_on(text: Seq<u8>, sep: u8) -> Seq<Seq<u8>>
    decreases text.len(),
{
    if text.len() == 0 {
        seq![Seq::empty()]
    } else {
        let rest = split_on(text.drop_last(), sep);
        if text.last() == sep {
            rest.push(Seq::empty())
        } else {
            rest.update(rest.len() - 1, rest.last().push(text.last()))
        }
    }
}

proof fn lemma_split_on_nonempty(text: Seq<u8>, sep: u8)
    ensures
        split_on(text, sep).len() >= 1,
    decreases text.len(),
{
    if text.len() > 0 {
        lemma_split_on_nonempty(text.drop_last(), sep);
    }
}

/// Splitting a longer prefix keeps every piece of a shorter one's split
/// but its last.
pub proof fn lemma_split_prefix(text: Seq<u8>, sep: u8, m: int, n: int)
    requires
        0 <= m <= n <= text.len(),
    ensures
        split_on(text.subrange(0, n), sep).len() >= split_on(text.subrange(0, m), sep).len(),
        forall|k: int|
            0 <= k < split_on(text.subrange(0, m), sep).len() - 1 ==> #[trigger] split_on(
                text.subrange(0, n),
                sep,
            )[k] == split_on(text.subrange(0, m), sep)[k],
    decreases n - m,
{
    if n > m {
        lemma_split_prefix(text, sep, m, n - 1);
        lemma_split_on_nonempty(text.subrange(0, n - 1), sep);
        assert(text.subrange(0, n).drop_last() == text.subrange(0, n - 1));
    }
}

} // verus!
