//! Forests (a base value plus trees) and multi-output forests.
use vstd::prelude::*;

use crate::bits::NEG_ZERO_BITS;
use crate::tree::{PredictError, Tree};

verus! {

/// The predictions of `trees` on `x`, in order, or the error of the first
/// tree that fails.
pub open spec fn tree_predictions(trees: Seq<Tree>, x: Seq<u64>) -> Result<Seq<u64>, PredictError>
    decreases trees.len(),
{
    if trees.len() == 0 {
        Ok(Seq::empty())
    } else {
        match tree_predictions(trees.drop_last(), x) {
            Err(e) => Err(e),
            Ok(vs) => match trees.last().spec_predict(x) {
                Err(e) => Err(e),
                Ok(v) => Ok(vs.push(v)),
            },
        }
    }
}

/// `accs` is a left fold of `plus` over `vs` starting at `start`: each entry
/// is what `plus` returned on the one before it and the next value.
pub open spec fn is_fold<A: Fn(u64, u64) -> u64>(
    plus: A,
    start: u64,
    vs: Seq<u64>,
    accs: Seq<u64>,
) -> bool {
    &&& accs.len() == vs.len() + 1
    &&& accs[0] == start
    &&& forall|i: int|
        #![trigger vs[i]]
        0 <= i < vs.len() ==> plus.ensures((accs[i], vs[i]), accs[i + 1])
}

/// `total` is `base + (vs[0] + vs[1] + ...)` as `plus` computes it: the sum
/// is folded from the left starting at negative zero, then added to `base`.
pub open spec fn sums_to<A: Fn(u64, u64) -> u64>(
    plus: A,
    base: u64,
    vs: Seq<u64>,
    total: u64,
) -> bool {
    exists|accs: Seq<u64>|
        is_fold(plus, NEG_ZERO_BITS, vs, accs) && plus.ensures((base, accs.last()), total)
}

proof fn lemma_error_of_prefix(trees: Seq<Tree>, x: Seq<u64>, k: int)
    requires
        0 <= k <= trees.len(),
        tree_predictions(trees.subrange(0, k), x) is Err,
    ensures
        tree_predictions(trees, x) == tree_predictions(trees.subrange(0, k), x),
    decreases trees.len(),
{
    if k < trees.len() {
        assert(trees.drop_last().subrange(0, k) == trees.subrange(0, k));
        lemma_error_of_prefix(trees.drop_last(), x, k);
    } else {
        assert(trees.subrange(0, k) == trees);
    }
}

/// One boosted ensemble: a base value plus trees whose leaf values add up.
#[derive(Debug)]
pub struct Forest {
    base_value: u64,
    trees: Vec<Tree>,
}

impl Forest {
    pub closed spec fn spec_base_value(&self) -> u64 {
        self.base_value
    }

    pub closed spec fn spec_trees(&self) -> Seq<Tree> {
        self.trees@
    }

    /// `r` is what `predict` returns on `x` with `plus` as the addition: the
    /// first tree error, else the base value plus the sum of the trees'
    /// predictions in tree order.
    pub open spec fn spec_predicts<A: Fn(u64, u64) -> u64>(
        &self,
        x: Seq<u64>,
        plus: A,
        r: Result<u64, PredictError>,
    ) -> bool {
        match tree_predictions(self.spec_trees(), x) {
            Err(e) => r == Err::<u64, PredictError>(e),
            Ok(vs) => r is Ok && sums_to(plus, self.spec_base_value(), vs, r->Ok_0),
        }
    }

    pub fn new(base_value: u64, trees: Vec<Tree>) -> (r: Forest)
        ensures
            r.spec_base_value() == base_value,
            r.spec_trees() == trees@,
    {
        Forest { base_value, trees }
    }

    /// `base_value + (t1 + t2 + ...)` over the trees' predictions on `x`,
    /// in tree order, with `plus` as the float addition of two bit patterns.
    pub fn predict<A: Fn(u64, u64) -> u64>(&self, x: &[u64], plus: &A) -> (r: Result<
        u64,
        PredictError,
    >)
        requires
            forall|a: u64, b: u64| plus.requires((a, b)),
        ensures
            self.spec_predicts(x@, *plus, r),
    {
        let mut sum: u64 = NEG_ZERO_BITS;
        let ghost mut accs: Seq<u64> = seq![NEG_ZERO_BITS];
        let ghost mut vs: Seq<u64> = Seq::empty();
        let mut i: usize = 0;
        while i < self.trees.len()
            invariant
                i <= self.trees.len(),
                forall|a: u64, b: u64| plus.requires((a, b)),
                tree_predictions(self.trees@.subrange(0, i as int), x@) == Ok::<
                    Seq<u64>,
                    PredictError,
                >(vs),
                is_fold(*plus, NEG_ZERO_BITS, vs, accs),
                accs.last() == sum,
            decreases self.trees.len() - i,
        {
            let ghost prefix = self.trees@.subrange(0, i + 1);
            assert(prefix.drop_last() == self.trees@.subrange(0, i as int));
            assert(prefix.last() == self.trees@[i as int]);
            match self.trees[i].predict(x) {
                Err(e) => {
                    proof {
                        lemma_error_of_prefix(self.trees@, x@, i + 1);
                    }
                    return Err(e);
                },
                Ok(v) => {
                    let next = plus(sum, v);
                    proof {
                        let old_vs = vs;
                        let old_accs = accs;
                        vs = vs.push(v);
                        accs = accs.push(next);
                        assert forall|j: int| 0 <= j < vs.len() implies plus.ensures(
                            (accs[j], #[trigger] vs[j]),
                            accs[j + 1],
                        ) by {
                            if j < old_vs.len() {
                                assert(old_vs[j] == vs[j]);
                            }
                        }
                    }
                    sum = next;
                },
            }
            i += 1;
        }
        assert(self.trees@.subrange(0, i as int) == self.trees@);
        let total = plus(self.base_value, sum);
        Ok(total)
    }

    pub fn base_value(&self) -> (r: u64)
        ensures
            r == self.spec_base_value(),
    {
        self.base_value
    }

    pub fn trees(&self) -> (r: &Vec<Tree>)
        ensures
            r@ == self.spec_trees(),
    {
        &self.trees
    }
}

/// One forest per output dimension (class or target), in output order.
#[derive(Debug)]
pub struct MultiOutputForest {
    forests: Vec<Forest>,
}

impl MultiOutputForest {
    pub closed spec fn spec_forests(&self) -> Seq<Forest> {
        self.forests@
    }

    pub fn new(forests: Vec<Forest>) -> (r: MultiOutputForest)
        ensures
            r.spec_forests() == forests@,
    {
        MultiOutputForest { forests }
    }

    /// Each forest's prediction on `x`, in output order; the error of the
    /// first forest that fails.
    pub fn predict<A: Fn(u64, u64) -> u64>(&self, x: &[u64], plus: &A) -> (r: Result<
        Vec<u64>,
        PredictError,
    >)
        requires
            forall|a: u64, b: u64| plus.requires((a, b)),
        ensures
            match r {
                Ok(v) => v@.len() == self.spec_forests().len() && forall|j: int|
                    0 <= j < v@.len() ==> #[trigger] self.spec_forests()[j].spec_predicts(
                        x@,
                        *plus,
                        Ok(v@[j]),
                    ),
                Err(e) => exists|j: int|
                    0 <= j < self.spec_forests().len() && #[trigger] self.spec_forests()[j].spec_predicts(
                        x@,
                        *plus,
                        Err(e),
                    ) && forall|k: int|
                        0 <= k < j ==> tree_predictions(
                            #[trigger] self.spec_forests()[k].spec_trees(),
                            x@,
                        ) is Ok,
            },
    {
        let mut out: Vec<u64> = Vec::new();
        let mut j: usize = 0;
        while j < self.forests.len()
            invariant
                j <= self.forests.len(),
                forall|a: u64, b: u64| plus.requires((a, b)),
                out@.len() == j,
                forall|k: int|
                    0 <= k < j ==> #[trigger] self.forests@[k].spec_predicts(x@, *plus, Ok(out@[k])),
            decreases self.forests.len() - j,
        {
            match self.forests[j].predict(x, plus) {
                Err(e) => {
                    assert forall|k: int| 0 <= k < j implies tree_predictions(
                        #[trigger] self.forests@[k].spec_trees(),
                        x@,
                    ) is Ok by {
                        assert(self.forests@[k].spec_predicts(x@, *plus, Ok(out@[k])));
                    }
                    assert(self.forests@[j as int].spec_predicts(x@, *plus, Err(e)));
                    assert(self.spec_forests()[j as int] == self.forests@[j as int]);
                    return Err(e);
                },
                Ok(v) => {
                    out.push(v);
                },
            }
            j += 1;
        }
        Ok(out)
    }

    pub fn forests(&self) -> (r: &Vec<Forest>)
        ensures
            r@ == self.spec_forests(),
    {
        &self.forests
    }
}

} // verus!
