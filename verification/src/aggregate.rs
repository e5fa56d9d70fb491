//! The transition state of the `sum` and `avg` aggregates: how many values
//! were seen and their running total, and how partial states combine.
use crate::arithmetic::money_add;
use crate::decimal::{
    decimal_quotient, decimal_sum, exact_normalized, lemma_exact_sum_of_totals, lemma_normal_pairs_equal,
    lemma_normalize, lemma_normalized_at_scale, lemma_pow10_add, lemma_pow10_pos, pow10,
    spec_normalize, sum_representable, value_fits, Decimal, MAX_SCALE,
};
use crate::errors::MoneyError;
use crate::model::{
    binary_result, exact_money_sum, lemma_money_with, lemma_money_with_parts, money_with,
    money_with_currency, same_currency, scaled_result, valid_value,
};
use vstd::prelude::*;

verus! {

/// Count of aggregated values and their total; no total before the first value.
#[allow(non_camel_case_types)]
#[derive(Clone, Copy, Debug)]
pub struct money_aggregate_state {
    pub count: i64,
    pub total: Option<money_with_currency>,
}

impl Default for money_aggregate_state {
    /// The empty state: nothing counted, no total.
    fn default() -> (r: Self)
        ensures
            r.count == 0,
            r.total is None,
    {
        money_aggregate_state { count: 0, total: None }
    }
}

/// The empty state.
pub open spec fn empty_state() -> money_aggregate_state {
    money_aggregate_state { count: 0, total: None }
}

/// What adding `value`, standing for `count` values, to `state` gives: the
/// new total (the value itself for an empty state, else the checked sum,
/// exact where the exact sum has a decimal in the model, and whose failure is
/// reported with its message), then the new count, refused when it overflows.
pub open spec fn merged(state: money_aggregate_state, value: money_with_currency, count: i64) -> Result<
    money_aggregate_state,
    Seq<char>,
> {
    let total: Result<money_with_currency, Seq<char>> = match state.total {
        None => Ok(value),
        Some(t) => if same_currency(t, value) && sum_representable(t.amount_of(), value.amount_of()) {
            Ok(exact_money_sum(t, value))
        } else {
            match binary_result(t, value, decimal_sum(t.amount_of(), value.amount_of())) {
                Ok(s) => Ok(s),
                Err(e) => Err(e.message_spec()),
            }
        },
    };
    match total {
        Err(e) => Err(e),
        Ok(t) => if i64::MIN <= state.count + count <= i64::MAX {
            Ok(money_aggregate_state { count: (state.count + count) as i64, total: Some(t) })
        } else {
            Err("aggregate count overflow"@)
        },
    }
}

pub open spec fn state_result(r: Result<money_aggregate_state, String>) -> Result<
    money_aggregate_state,
    Seq<char>,
> {
    match r {
        Ok(s) => Ok(s),
        Err(e) => Err(e@),
    }
}

/// Adds `value`, standing for `count` values, to the state.
pub fn merge_aggregate_value(state: money_aggregate_state, value: money_with_currency, count: i64) -> (r:
    Result<money_aggregate_state, String>)
    ensures
        state_result(r) == merged(state, value, count),
{
    let total = match state.total {
        Some(t) => match money_add(t, value) {
            Ok(s) => s,
            Err(e) => {
                return Err(e.message());
            },
        },
        None => value,
    };
    let sum: i128 = state.count as i128 + count as i128;
    if sum < i64::MIN as i128 || sum > i64::MAX as i128 {
        return Err("aggregate count overflow".to_string());
    }
    Ok(money_aggregate_state { count: sum as i64, total: Some(total) })
}

/// The state a missing state stands for: the empty one.
pub open spec fn state_or_empty(state: Option<money_aggregate_state>) -> money_aggregate_state {
    match state {
        Some(s) => s,
        None => empty_state(),
    }
}

/// The transition function: a missing value (SQL NULL) leaves the state as
/// it is; a value is added once.
pub fn money_aggregate_transfn(
    state: Option<money_aggregate_state>,
    value: Option<money_with_currency>,
) -> (r: Result<money_aggregate_state, String>)
    ensures
        value is None ==> (r matches Ok(s) && s == state_or_empty(state)),
        value matches Some(v) ==> state_result(r) == merged(state_or_empty(state), v, 1),
{
    let state = match state {
        Some(s) => s,
        None => money_aggregate_state::default(),
    };
    match value {
        Some(value) => merge_aggregate_value(state, value, 1),
        None => Ok(state),
    }
}

/// What combining two states gives: the right state's total added to the
/// left state, counting as many values as the right state counted; a right
/// state without a total leaves the left state as it is.
pub open spec fn combined(left: money_aggregate_state, right: money_aggregate_state) -> Result<
    money_aggregate_state,
    Seq<char>,
> {
    match right.total {
        Some(t) => merged(left, t, right.count),
        None => Ok(left),
    }
}

/// The state after the transition function has seen each value of `xs` in
/// turn, from the empty state; the first refusal ends the aggregate.
pub open spec fn aggregated(xs: Seq<money_with_currency>) -> Result<
    money_aggregate_state,
    Seq<char>,
>
    decreases xs.len(),
{
    if xs.len() == 0 {
        Ok(empty_state())
    } else {
        match aggregated(xs.drop_last()) {
            Ok(s) => merged(s, xs.last(), 1),
            Err(e) => Err(e),
        }
    }
}

/// The combine function of parallel aggregation: the right state's total is
/// added to the left state, counting as many values as the right state
/// counted; a right state without a total leaves the left state as it is.
pub fn money_aggregate_combinefn(
    left: Option<money_aggregate_state>,
    right: Option<money_aggregate_state>,
) -> (r: Result<money_aggregate_state, String>)
    ensures
        state_result(r) == combined(state_or_empty(left), state_or_empty(right)),
{
    let left = match left {
        Some(s) => s,
        None => money_aggregate_state::default(),
    };
    if let Some(state) = right {
        if let Some(total) = state.total {
            return merge_aggregate_value(left, total, state.count);
        }
    }
    Ok(left)
}

// ---------------------------------------------------------------------------
// Combining partial aggregates
// ---------------------------------------------------------------------------

/// Every value is a valid value.
pub open spec fn all_valid(xs: Seq<money_with_currency>) -> bool {
    forall|i: int| 0 <= i < xs.len() ==> valid_value(#[trigger] xs[i])
}

/// Every value has the currency of every other.
pub open spec fn one_currency(xs: Seq<money_with_currency>) -> bool {
    forall|i: int, j: int|
        #![trigger xs[i], xs[j]]
        0 <= i < xs.len() && 0 <= j < xs.len() ==> same_currency(xs[i], xs[j])
}

/// The largest scale among the amounts; 0 for no amount.
pub open spec fn largest_scale(xs: Seq<money_with_currency>) -> nat
    decreases xs.len(),
{
    if xs.len() == 0 {
        0
    } else {
        let m = largest_scale(xs.drop_last());
        let s = xs.last().amount_of().scale as nat;
        if s > m {
            s
        } else {
            m
        }
    }
}

/// The mantissa of a value's amount written at scale `s`.
pub open spec fn scaled_mantissa(v: money_with_currency, s: nat) -> int {
    v.amount_of().mantissa * pow10((s - v.amount_of().scale) as nat)
}

/// The sum of the amounts, as a mantissa at scale `s`.
pub open spec fn total_at(xs: Seq<money_with_currency>, s: nat) -> int
    decreases xs.len(),
{
    if xs.len() == 0 {
        0
    } else {
        total_at(xs.drop_last(), s) + scaled_mantissa(xs.last(), s)
    }
}

/// Every running total of the amounts (`s` being no smaller than any of
/// their scales) has a decimal in the model; then every sum that aggregating
/// them takes is exact.
pub open spec fn running_totals_representable(xs: Seq<money_with_currency>, s: nat) -> bool {
    forall|k: int| 0 <= k <= xs.len() ==> value_fits(#[trigger] total_at(xs.take(k), s), s)
}

/// The state that aggregating values whose sums are all exact ends in.
pub open spec fn exact_state(xs: Seq<money_with_currency>, s: nat) -> money_aggregate_state {
    money_aggregate_state {
        count: xs.len() as i64,
        total: if xs.len() == 0 {
            None
        } else {
            Some(money_with(xs[0].currency_of(), exact_normalized(total_at(xs, s), s)))
        },
    }
}

/// Written at a larger scale, the total of the amounts is scaled up by the
/// power of ten between the scales.
proof fn lemma_total_scaled_up(xs: Seq<money_with_currency>, s: nat, s2: nat)
    requires
        largest_scale(xs) <= s <= s2,
    ensures
        total_at(xs, s2) == total_at(xs, s) * pow10((s2 - s) as nat),
    decreases xs.len(),
{
    if xs.len() > 0 {
        let v = xs.last();
        let sc = v.amount_of().scale as nat;
        lemma_total_scaled_up(xs.drop_last(), s, s2);
        lemma_pow10_add((s - sc) as nat, (s2 - s) as nat);
        assert(((s - sc) as nat + (s2 - s) as nat) as nat == (s2 - sc) as nat);
        let p = pow10((s - sc) as nat);
        let q = pow10((s2 - s) as nat);
        let m = v.amount_of().mantissa as int;
        assert(m * (p * q) == (m * p) * q) by (nonlinear_arith);
        assert((total_at(xs.drop_last(), s) + m * p) * q == total_at(xs.drop_last(), s) * q + (m
            * p) * q) by (nonlinear_arith);
    }
}

proof fn lemma_totals_concat(xs: Seq<money_with_currency>, ys: Seq<money_with_currency>, s: nat)
    ensures
        total_at(xs + ys, s) == total_at(xs, s) + total_at(ys, s),
        largest_scale(xs) <= largest_scale(xs + ys),
        largest_scale(ys) <= largest_scale(xs + ys),
    decreases ys.len(),
{
    if ys.len() == 0 {
        assert(xs + ys =~= xs);
    } else {
        let zs = xs + ys;
        assert(zs.drop_last() =~= xs + ys.drop_last());
        assert(zs.last() == ys.last());
        lemma_totals_concat(xs, ys.drop_last(), s);
    }
}

/// One amount written at scale `s` and normalized back is the amount.
proof fn lemma_single_total(v: money_with_currency, s: nat)
    requires
        valid_value(v),
        v.amount_of().scale <= s,
    ensures
        value_fits(scaled_mantissa(v, s), s),
        exact_normalized(scaled_mantissa(v, s), s) == v.amount_of(),
{
    let a = v.amount_of();
    let t = scaled_mantissa(v, s);
    let k = (s - a.scale) as nat;
    lemma_pow10_add(k, a.scale as nat);
    assert((k + a.scale as nat) as nat == s);
    let pk = pow10(k);
    let pa = pow10(a.scale as nat);
    assert(t * pa == a.mantissa * pow10(s)) by (nonlinear_arith)
        requires
            t == a.mantissa * pk,
            pow10(s) == pk * pa,
    ;
    lemma_normalize(t, s);
    let (m, sc) = spec_normalize(t, s);
    let pm = pow10(sc);
    lemma_pow10_pos(s);
    assert(t * pm == m * pow10(s));
    assert(m * pa == a.mantissa * pm) by (nonlinear_arith)
        requires
            t * pm == m * pow10(s),
            t * pa == a.mantissa * pow10(s),
            pow10(s) > 0,
    {
        assert(m * pa * pow10(s) == a.mantissa * pm * pow10(s));
    }
    lemma_normal_pairs_equal(m, sc, a.mantissa as int, a.scale as nat);
}

/// Values of one currency whose running totals, at a scale `s` no smaller
/// than any of theirs, fit the model aggregate without refusal to their count
/// and the exact sum.
proof fn lemma_aggregated_exact(xs: Seq<money_with_currency>, s: nat)
    requires
        all_valid(xs),
        one_currency(xs),
        xs.len() <= i64::MAX,
        largest_scale(xs) <= s <= MAX_SCALE,
        running_totals_representable(xs, s),
    ensures
        aggregated(xs) == Ok::<money_aggregate_state, Seq<char>>(exact_state(xs, s)),
    decreases xs.len(),
{
    if xs.len() == 0 {
        return;
    }
    let init = xs.drop_last();
    let last = xs.last();
    assert(valid_value(xs[xs.len() - 1]));
    assert(all_valid(init)) by {
        assert forall|i: int| 0 <= i < init.len() implies valid_value(#[trigger] init[i]) by {
            assert(init[i] == xs[i]);
        }
    }
    assert(one_currency(init)) by {
        assert forall|i: int, j: int| 0 <= i < init.len() && 0 <= j < init.len() implies
            #[trigger] same_currency(init[i], init[j]) by {
            assert(init[i] == xs[i] && init[j] == xs[j]);
            assert(same_currency(xs[i], xs[j]));
        }
    }
    assert(running_totals_representable(init, s)) by {
        assert forall|k: int| 0 <= k <= init.len() implies value_fits(
            #[trigger] total_at(init.take(k), s),
            s,
        ) by {
            assert(init.take(k) =~= xs.take(k));
        }
    }
    assert(xs.take(xs.len() as int) =~= xs);
    assert(init.take(init.len() as int) =~= init);
    assert(value_fits(total_at(xs.take(xs.len() as int), s), s));
    assert(value_fits(total_at(init.take(init.len() as int), s), s));
    lemma_aggregated_exact(init, s);
    let st = exact_state(init, s);
    if init.len() == 0 {
        assert(st == empty_state());
        lemma_single_total(last, s);
        lemma_money_with_parts(last);
        assert(total_at(xs, s) == scaled_mantissa(last, s));
        assert(xs[0] == last);
    } else {
        let c0 = xs[0].currency_of();
        assert(init[0] == xs[0]);
        let t_init = total_at(init, s);
        lemma_normalized_at_scale(t_init, s);
        let n = exact_normalized(t_init, s);
        let t = money_with(c0, n);
        lemma_money_with(c0, n);
        assert(st.total == Some(t));
        assert(same_currency(xs[0], xs[xs.len() - 1]));
        assert(same_currency(t, last));
        lemma_exact_sum_of_totals(
            n,
            last.amount_of(),
            t_init,
            scaled_mantissa(last, s),
            s,
        );
        assert(exact_money_sum(t, last) == money_with(c0, exact_normalized(total_at(xs, s), s)));
    }
}

/// Combining the states of two partial aggregates is aggregating the joined
/// values: for two runs of values, each of one currency and each with running
/// totals that have a decimal in the model (and so, where the two runs share
/// a currency, the joined values), so that every sum taken is exact, combining
/// the state of the first run with that of the second gives what aggregating
/// the first run and then the second gives, the refusal of a currency
/// mismatch included.
pub proof fn law_combine_matches_joined_aggregate(
    xs: Seq<money_with_currency>,
    ys: Seq<money_with_currency>,
)
    requires
        all_valid(xs),
        all_valid(ys),
        one_currency(xs),
        one_currency(ys),
        xs.len() + ys.len() <= i64::MAX,
        running_totals_representable(xs, largest_scale(xs)),
        running_totals_representable(ys, largest_scale(ys)),
        xs.len() > 0 && ys.len() > 0 && same_currency(xs[0], ys[0]) ==> running_totals_representable(
            xs + ys,
            largest_scale(xs + ys),
        ),
    ensures
        aggregated(xs) is Ok,
        aggregated(ys) is Ok,
        combined(aggregated(xs)->Ok_0, aggregated(ys)->Ok_0) == aggregated(xs + ys),
{
    lemma_largest_scale_bounded(xs);
    lemma_largest_scale_bounded(ys);
    lemma_aggregated_exact(xs, largest_scale(xs));
    lemma_aggregated_exact(ys, largest_scale(ys));
    if ys.len() == 0 {
        assert(xs + ys =~= xs);
    } else if xs.len() == 0 {
        assert(xs + ys =~= ys);
        assert(ys[0] == ys[0]);
    } else if same_currency(xs[0], ys[0]) {
        let zs = xs + ys;
        lemma_largest_scale_bounded(zs);
        let s = largest_scale(zs);
        lemma_totals_concat(xs, ys, s);
        assert(all_valid(zs)) by {
            assert forall|i: int| 0 <= i < zs.len() implies valid_value(#[trigger] zs[i]) by {
                if i < xs.len() {
                    assert(zs[i] == xs[i]);
                } else {
                    assert(zs[i] == ys[i - xs.len()]);
                }
            }
        }
        assert(one_currency(zs)) by {
            assert forall|i: int, j: int| 0 <= i < zs.len() && 0 <= j < zs.len() implies
                #[trigger] same_currency(zs[i], zs[j]) by {
                assert(same_currency(xs[0], zs[i])) by {
                    if i < xs.len() {
                        assert(zs[i] == xs[i]);
                        assert(same_currency(xs[0], xs[i]));
                    } else {
                        assert(zs[i] == ys[i - xs.len()]);
                        assert(same_currency(ys[0], ys[i - xs.len()]));
                    }
                }
                assert(same_currency(xs[0], zs[j])) by {
                    if j < xs.len() {
                        assert(zs[j] == xs[j]);
                        assert(same_currency(xs[0], xs[j]));
                    } else {
                        assert(zs[j] == ys[j - xs.len()]);
                        assert(same_currency(ys[0], ys[j - xs.len()]));
                    }
                }
            }
        }
        assert(running_totals_representable(xs, s)) by {
            assert forall|k: int| 0 <= k <= xs.len() implies value_fits(
                #[trigger] total_at(xs.take(k), s),
                s,
            ) by {
                assert(xs.take(k) =~= zs.take(k));
            }
        }
        lemma_aggregated_exact(xs, s);
        lemma_aggregated_exact(zs, s);
        let sy = largest_scale(ys);
        let tx = total_at(xs, s);
        let ty = total_at(ys, s);
        let ty0 = total_at(ys, sy);
        assert(zs.take(zs.len() as int) =~= zs);
        assert(ys.take(ys.len() as int) =~= ys);
        assert(xs.take(xs.len() as int) =~= xs);
        assert(value_fits(total_at(zs.take(zs.len() as int), s), s));
        assert(value_fits(total_at(ys.take(ys.len() as int), sy), sy));
        assert(value_fits(total_at(xs.take(xs.len() as int), s), s));
        lemma_total_scaled_up(ys, sy, s);
        lemma_normalized_at_scale(tx, s);
        lemma_normalized_at_scale(ty0, sy);
        let n1 = exact_normalized(tx, s);
        let n2 = exact_normalized(ty0, sy);
        let q = pow10((s - sy) as nat);
        lemma_pow10_add((sy - n2.scale) as nat, (s - sy) as nat);
        assert(((sy - n2.scale) as nat + (s - sy) as nat) as nat == (s - n2.scale) as nat);
        let p2 = pow10((sy - n2.scale) as nat);
        assert(n2.mantissa * (p2 * q) == (n2.mantissa * p2) * q) by (nonlinear_arith);
        assert(n2.mantissa * pow10((s - n2.scale) as nat) == ty);
        let ta = money_with(xs[0].currency_of(), n1);
        let tb = money_with(ys[0].currency_of(), n2);
        lemma_money_with(xs[0].currency_of(), n1);
        lemma_money_with(ys[0].currency_of(), n2);
        lemma_exact_sum_of_totals(n1, n2, tx, ty, s);
        assert(same_currency(ta, tb));
        assert(zs[0] == xs[0]);
        assert(exact_money_sum(ta, tb) == money_with(
            xs[0].currency_of(),
            exact_normalized(total_at(zs, s), s),
        ));
    } else {
        let n1 = exact_normalized(total_at(xs, largest_scale(xs)), largest_scale(xs));
        let n2 = exact_normalized(total_at(ys, largest_scale(ys)), largest_scale(ys));
        lemma_money_with(xs[0].currency_of(), n1);
        lemma_money_with(ys[0].currency_of(), n2);
        let ta = money_with(xs[0].currency_of(), n1);
        let tb = money_with(ys[0].currency_of(), n2);
        assert(!same_currency(ta, tb));
        lemma_mismatch_ends_aggregate(xs, ys);
    }
}

proof fn lemma_largest_scale_bounded(xs: Seq<money_with_currency>)
    requires
        all_valid(xs),
    ensures
        largest_scale(xs) <= MAX_SCALE,
    decreases xs.len(),
{
    if xs.len() > 0 {
        let init = xs.drop_last();
        assert(valid_value(xs[xs.len() - 1]));
        assert(all_valid(init)) by {
            assert forall|i: int| 0 <= i < init.len() implies valid_value(#[trigger] init[i]) by {
                assert(init[i] == xs[i]);
            }
        }
        lemma_largest_scale_bounded(init);
    }
}

/// Once a value of another currency meets the total, the aggregate ends in
/// the mismatch, whatever follows.
proof fn lemma_mismatch_ends_aggregate(xs: Seq<money_with_currency>, ys: Seq<money_with_currency>)
    requires
        xs.len() > 0,
        ys.len() > 0,
        aggregated(xs) matches Ok(a) && a.total matches Some(t) && t.currency_of()
            == xs[0].currency_of(),
        !same_currency(xs[0], ys[0]),
    ensures
        aggregated(xs + ys) == Err::<money_aggregate_state, Seq<char>>(
            MoneyError::CurrencyMismatch {
                expected: xs[0].currency_of().code,
                actual: ys[0].currency_of().code,
            }.message_spec(),
        ),
    decreases ys.len(),
{
    let zs = xs + ys;
    if ys.len() == 1 {
        assert(zs.drop_last() =~= xs);
        assert(zs.last() == ys[0]);
    } else {
        assert(zs.drop_last() =~= xs + ys.drop_last());
        assert(ys.drop_last()[0] == ys[0]);
        lemma_mismatch_ends_aggregate(xs, ys.drop_last());
    }
}

/// The final function of `sum`: the total, none for an empty group.
pub fn money_sum_finalfn(state: Option<money_aggregate_state>) -> (r: Option<money_with_currency>)
    ensures
        r == match state {
            Some(s) => s.total,
            None => None,
        },
{
    match state {
        Some(s) => s.total,
        None => None,
    }
}

/// The final function of `avg`: the total divided by the count, none for an
/// empty group.
pub fn money_avg_finalfn(state: Option<money_aggregate_state>) -> (r: Result<
    Option<money_with_currency>,
    String,
>)
    ensures
        (state matches Some(s) && s.total is Some) ==> ({
            let s = state->0;
            let t = s.total->0;
            let q = if s.count == 0 {
                Err::<money_with_currency, MoneyError>(MoneyError::DivisionByZero)
            } else {
                scaled_result(t, decimal_quotient(t.amount_of(), Decimal { mantissa: s.count as i128, scale: 0 }))
            };
            match q {
                Ok(v) => r matches Ok(x) && x == Some(v),
                Err(e) => r matches Err(m) && m@ == e.message_spec(),
            }
        }),
        !(state matches Some(s) && s.total is Some) ==> (r matches Ok(x) && x is None),
{
    match state {
        Some(s) => match s.total {
            Some(total) => {
                let count = Decimal::new(s.count, 0);
                match total.checked_div(count) {
                    Ok(v) => Ok(Some(v)),
                    Err(e) => Err(e.message()),
                }
            },
            None => Ok(None),
        },
        None => Ok(None),
    }
}

} // verus!
