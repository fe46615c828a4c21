//! The fold accumulator: a running sum and count of rate observations,
//! its combining operations, and the laws the mean obeys (identity of the
//! empty group, flattening across groups, order invariance).
use crate::Error;
use vstd::prelude::*;
use vstd::seq_lib::commutative_foldl;
use vstd::seq_lib::lemma_fold_left_permutation;

verus! {

/// Fixed-point scale: one unit is `1e-9` of a rate.
pub const RATE_UNIT: i128 = 1_000_000_000;

/// The sole state a fold carries: the sum of the absorbed rates (in
/// `1e-9` units) and how many were absorbed.
#[derive(Debug)]
pub struct Accumulator {
    pub sum: i128,
    pub count: u64,
}

impl View for Accumulator {
    type V = (int, int);

    open spec fn view(&self) -> (int, int) {
        (self.sum as int, self.count as int)
    }
}

/// A finished average: the exact rational `sum / (count * RATE_UNIT)`,
/// kept unreduced. Only produced with `count >= 1`.
#[derive(Debug)]
pub struct Avg {
    pub sum: i128,
    pub count: u64,
}

/// The model of a fresh accumulator.
pub open spec fn spec_zero() -> (int, int) {
    (0int, 0int)
}

/// The machine range an accumulator model always stays in.
pub open spec fn acc_bounded(a: (int, int)) -> bool {
    i128::MIN <= a.0 <= i128::MAX && 0 <= a.1 <= u64::MAX
}

/// Whether absorbing one more leaf keeps the accumulator in range.
pub open spec fn leaf_fits(a: (int, int), rate: int) -> bool {
    i128::MIN <= a.0 + rate <= i128::MAX && a.1 + 1 <= u64::MAX
}

/// Absorbing one leaf rate: add it to the sum, count it.
pub open spec fn spec_absorb_leaf(a: (int, int), rate: int) -> Result<(int, int), Error> {
    if leaf_fits(a, rate) {
        Ok((a.0 + rate, a.1 + 1))
    } else {
        Err(Error::Overflow)
    }
}

/// Whether combining two accumulators keeps the result in range.
pub open spec fn group_fits(a: (int, int), g: (int, int)) -> bool {
    i128::MIN <= a.0 + g.0 <= i128::MAX && a.1 + g.1 <= u64::MAX
}

/// Combining a sub-accumulator into this one: add both fields pairwise.
pub open spec fn spec_absorb_group(a: (int, int), g: (int, int)) -> Result<(int, int), Error> {
    if group_fits(a, g) {
        Ok((a.0 + g.0, a.1 + g.1))
    } else {
        Err(Error::Overflow)
    }
}

/// Absorbing a sequence of leaves one by one, in order.
pub open spec fn spec_absorb_all(a: (int, int), leaves: Seq<int>) -> Result<(int, int), Error>
    decreases leaves.len(),
{
    if leaves.len() == 0 {
        Ok(a)
    } else {
        match spec_absorb_leaf(a, leaves.first()) {
            Ok(b) => spec_absorb_all(b, leaves.drop_first()),
            Err(e) => Err(e),
        }
    }
}

/// Folding a sequence of groups: each group's leaves fold from zero into a
/// sub-accumulator, which is then combined into the running one.
pub open spec fn spec_absorb_groups(a: (int, int), gs: Seq<Seq<int>>) -> Result<
    (int, int),
    Error,
>
    decreases gs.len(),
{
    if gs.len() == 0 {
        Ok(a)
    } else {
        match spec_absorb_all(spec_zero(), gs.first()) {
            Ok(g) => match spec_absorb_group(a, g) {
                Ok(b) => spec_absorb_groups(b, gs.drop_first()),
                Err(e) => Err(e),
            },
            Err(e) => Err(e),
        }
    }
}

/// Conversion of a finished accumulator to the optional average: no
/// observations means no average, never a zero one.
pub open spec fn spec_finish(a: (int, int)) -> Option<(int, int)> {
    if a.1 == 0 {
        None
    } else {
        Some(a)
    }
}

/// The sum of a sequence of rates.
pub open spec fn sum_of(s: Seq<int>) -> int
    decreases s.len(),
{
    if s.len() == 0 {
        0
    } else {
        s.first() + sum_of(s.drop_first())
    }
}

/// Addition as a fold operator.
pub open spec fn add_op() -> spec_fn(int, int) -> int {
    |acc: int, x: int| acc + x
}

/// How an executable `Result` over `Accumulator` mirrors its model.
pub open spec fn acc_res_matches(sp: Result<(int, int), Error>, res: Result<
    Accumulator,
    Error,
>) -> bool {
    match res {
        Ok(b) => sp == Ok::<(int, int), Error>(b@),
        Err(e) => sp == Err::<(int, int), Error>(e),
    }
}

impl Accumulator {
    /// The fold identity: nothing seen yet.
    pub fn zero() -> (a: Accumulator)
        ensures
            a@ == spec_zero(),
    {
        Accumulator { sum: 0, count: 0 }
    }

    /// Absorb one leaf rate (in `1e-9` units); fails only when the running
    /// sum or count would leave the machine range.
    pub fn absorb_leaf(self, rate: i128) -> (res: Result<Accumulator, Error>)
        ensures
            acc_res_matches(spec_absorb_leaf(self@, rate as int), res),
    {
        let sum_ok: bool = if rate >= 0 {
            self.sum <= i128::MAX - rate
        } else {
            self.sum >= i128::MIN - rate
        };
        if sum_ok && self.count < u64::MAX {
            Ok(Accumulator { sum: self.sum + rate, count: self.count + 1 })
        } else {
            Err(Error::Overflow)
        }
    }

    /// Combine a finished sub-accumulator into this one; fails only when
    /// the pairwise sums would leave the machine range.
    pub fn absorb_group(self, g: &Accumulator) -> (res: Result<Accumulator, Error>)
        ensures
            acc_res_matches(spec_absorb_group(self@, g@), res),
    {
        let sum_ok: bool = if g.sum >= 0 {
            self.sum <= i128::MAX - g.sum
        } else {
            self.sum >= i128::MIN - g.sum
        };
        if sum_ok && self.count <= u64::MAX - g.count {
            Ok(Accumulator { sum: self.sum + g.sum, count: self.count + g.count })
        } else {
            Err(Error::Overflow)
        }
    }

    /// Convert the finished accumulator into the optional average.
    pub fn finish(self) -> (res: Option<Avg>)
        ensures
            match spec_finish(self@) {
                None => res is None,
                Some(m) => res matches Some(v) && v.sum == m.0 && v.count == m.1,
            },
    {
        if self.count == 0 {
            None
        } else {
            Some(Avg { sum: self.sum, count: self.count })
        }
    }
}

proof fn lemma_sum_of_drop_last(s: Seq<int>)
    requires
        s.len() > 0,
    ensures
        sum_of(s) == sum_of(s.drop_last()) + s.last(),
    decreases s.len(),
{
    if s.len() == 1 {
        assert(s.drop_last() =~= Seq::<int>::empty());
        assert(s.drop_first() =~= Seq::<int>::empty());
        assert(sum_of(Seq::<int>::empty()) == 0);
        assert(sum_of(s) == s.first() + sum_of(s.drop_first()));
        assert(s.first() == s.last());
    } else {
        lemma_sum_of_drop_last(s.drop_first());
        assert(s.drop_first().drop_last() =~= s.drop_last().drop_first());
        assert(s.drop_last().first() == s.first());
        assert(s.drop_first().last() == s.last());
        assert(s.drop_last().len() > 0);
        assert(sum_of(s.drop_last()) == s.first() + sum_of(s.drop_last().drop_first()));
        assert(sum_of(s) == s.first() + sum_of(s.drop_first()));
    }
}

proof fn lemma_sum_of_is_fold(s: Seq<int>)
    ensures
        s.fold_left(0int, add_op()) == sum_of(s),
    decreases s.len(),
{
    if s.len() > 0 {
        lemma_sum_of_is_fold(s.drop_last());
        lemma_sum_of_drop_last(s);
    }
}

/// The sum of a concatenation is the sum of the parts.
pub proof fn lemma_sum_of_concat(x: Seq<int>, y: Seq<int>)
    ensures
        sum_of(x + y) == sum_of(x) + sum_of(y),
    decreases x.len(),
{
    if x.len() == 0 {
        assert(x + y =~= y);
    } else {
        lemma_sum_of_concat(x.drop_first(), y);
        assert((x + y).drop_first() =~= x.drop_first() + y);
        assert((x + y).first() == x.first());
    }
}

/// Order invariance of the mean's ingredients: two observation sequences
/// that hold the same rates (as a multiset) have the same sum and the same
/// count, so they yield the same average.
pub proof fn lemma_average_order_invariant(s1: Seq<int>, s2: Seq<int>)
    requires
        s1.to_multiset() == s2.to_multiset(),
    ensures
        s1.len() == s2.len(),
        sum_of(s1) == sum_of(s2),
{
    let f = add_op();
    assert(commutative_foldl(f)) by {
        assert forall|x: int, y: int, v: int| #[trigger] f(f(v, x), y) == f(f(v, y), x) by {
        }
    }
    lemma_fold_left_permutation(s1, s2, f, 0int);
    lemma_sum_of_is_fold(s1);
    lemma_sum_of_is_fold(s2);
    s1.to_multiset_ensures();
    s2.to_multiset_ensures();
}

/// Absorbing a sequence of leaves that stays in range adds exactly their
/// sum to the sum and their number to the count.
pub proof fn lemma_absorb_all_sums(a: (int, int), leaves: Seq<int>)
    ensures
        spec_absorb_all(a, leaves) matches Ok(b) ==> b == ((a.0 + sum_of(leaves), a.1
            + leaves.len() as int)),
    decreases leaves.len(),
{
    if leaves.len() > 0 {
        match spec_absorb_leaf(a, leaves.first()) {
            Ok(b) => {
                lemma_absorb_all_sums(b, leaves.drop_first());
            },
            Err(_) => {
            },
        }
    }
}

/// The mean flattens across groups: when folding a sequence of groups
/// stays in range, the result carries the sum and the count of all leaves
/// of all groups, however they are grouped.
pub proof fn lemma_mean_flattens_groups(a: (int, int), gs: Seq<Seq<int>>)
    ensures
        spec_absorb_groups(a, gs) matches Ok(b) ==> b == ((a.0 + sum_of(gs.flatten()), a.1
            + gs.flatten().len() as int)),
    decreases gs.len(),
{
    if gs.len() > 0 {
        match spec_absorb_all(spec_zero(), gs.first()) {
            Ok(g) => {
                lemma_absorb_all_sums(spec_zero(), gs.first());
                match spec_absorb_group(a, g) {
                    Ok(b1) => {
                        lemma_mean_flattens_groups(b1, gs.drop_first());
                        lemma_sum_of_concat(gs.first(), gs.drop_first().flatten());
                    },
                    Err(_) => {
                    },
                }
            },
            Err(_) => {
            },
        }
    }
}

/// No observations anywhere (an empty group list, or only empty groups)
/// folds to the identity accumulator, whose average is `None`.
pub proof fn lemma_no_data_no_average(gs: Seq<Seq<int>>)
    requires
        forall|k: int| 0 <= k < gs.len() ==> #[trigger] gs[k].len() == 0,
    ensures
        spec_absorb_groups(spec_zero(), gs) == Ok::<(int, int), Error>(spec_zero()),
        spec_finish(spec_zero()) is None,
    decreases gs.len(),
{
    if gs.len() > 0 {
        assert(gs[0].len() == 0);
        assert forall|k: int| 0 <= k < gs.drop_first().len() implies #[trigger] gs.drop_first()[k].len()
            == 0 by {
            assert(gs.drop_first()[k] == gs[k + 1]);
        }
        lemma_no_data_no_average(gs.drop_first());
    }
}

/// An empty group contributes nothing: its sub-accumulator is the
/// identity, and combining the identity into any accumulator returns that
/// accumulator unchanged.
pub proof fn lemma_empty_group_is_identity(a: (int, int))
    requires
        acc_bounded(a),
    ensures
        spec_absorb_all(spec_zero(), Seq::<int>::empty()) == Ok::<(int, int), Error>(spec_zero()),
        spec_absorb_group(a, spec_zero()) == Ok::<(int, int), Error>(a),
{
}

/// An empty group inserted anywhere in a group list changes nothing:
/// the fold over the list with the empty group equals the fold without
/// it, errors included.
pub proof fn lemma_empty_group_dropped(a: (int, int), gs1: Seq<Seq<int>>, gs2: Seq<Seq<int>>)
    requires
        acc_bounded(a),
    ensures
        spec_absorb_groups(a, gs1 + seq![Seq::<int>::empty()] + gs2) == spec_absorb_groups(
            a,
            gs1 + gs2,
        ),
    decreases gs1.len(),
{
    let hole = seq![Seq::<int>::empty()];
    if gs1.len() == 0 {
        assert(gs1 + hole + gs2 =~= hole + gs2);
        assert((hole + gs2).first() =~= Seq::<int>::empty());
        assert(spec_absorb_all(spec_zero(), Seq::<int>::empty()) == Ok::<(int, int), Error>(
            spec_zero(),
        ));
        assert(spec_absorb_group(a, spec_zero()) == Ok::<(int, int), Error>(a));
        assert((hole + gs2).drop_first() =~= gs2);
        assert(gs1 + gs2 =~= gs2);
    } else {
        assert((gs1 + hole + gs2).first() == gs1.first());
        assert((gs1 + gs2).first() == gs1.first());
        match spec_absorb_all(spec_zero(), gs1.first()) {
            Err(_) => {
            },
            Ok(g) => {
                lemma_absorb_all_sums(spec_zero(), gs1.first());
                match spec_absorb_group(a, g) {
                    Err(_) => {
                    },
                    Ok(b) => {
                        assert(acc_bounded(b));
                        lemma_empty_group_dropped(b, gs1.drop_first(), gs2);
                        assert((gs1 + hole + gs2).drop_first() =~= gs1.drop_first() + hole + gs2);
                        assert((gs1 + gs2).drop_first() =~= gs1.drop_first() + gs2);
                    },
                }
            },
        }
    }
}

/// The average does not depend on how observations are grouped or
/// ordered: two group lists holding the same rates overall fold to the
/// same accumulator, whenever both folds stay in range.
pub proof fn lemma_average_independent_of_grouping(gs1: Seq<Seq<int>>, gs2: Seq<Seq<int>>)
    requires
        gs1.flatten().to_multiset() == gs2.flatten().to_multiset(),
        spec_absorb_groups(spec_zero(), gs1) is Ok,
        spec_absorb_groups(spec_zero(), gs2) is Ok,
    ensures
        spec_absorb_groups(spec_zero(), gs1) == spec_absorb_groups(spec_zero(), gs2),
{
    lemma_mean_flattens_groups(spec_zero(), gs1);
    lemma_mean_flattens_groups(spec_zero(), gs2);
    lemma_average_order_invariant(gs1.flatten(), gs2.flatten());
}

impl Default for Accumulator {
    /// The default accumulator is the fold identity.
    fn default() -> (a: Accumulator)
        ensures
            a@ == spec_zero(),
    {
        Accumulator::zero()
    }
}

} // verus!
