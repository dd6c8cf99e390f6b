//! Per-group statistics: sums, the savings median, the average delay and the
//! share of long delays, all as exact integers or rounded fixed-point values.

use vstd::prelude::*;
use vstd::relations::{sorted_by, total_ordering};
use crate::dates::DAY_INDEX_MAX;
use crate::fixed::{round_div, lemma_round_div_range, div_round_i128};
use crate::parse::AMOUNT_CENTS_MAX;
use crate::store::{ProjectRecord, MAX_RECORDS};

verus! {

broadcast use vstd::multiset::group_multiset_axioms;

/// Average delay in centi-days never exceeds this.
pub const AVG_DELAY_CENTI_MAX: i64 = 365_242_400;

/// A delay above this many days counts as long.
pub const DELAY_THRESHOLD_DAYS: u32 = 30;

pub open spec fn sum_budget(g: Seq<ProjectRecord>) -> int
    decreases g.len(),
{
    if g.len() == 0 {
        0
    } else {
        sum_budget(g.drop_last()) + g.last().approved_budget_cents
    }
}

pub open spec fn sum_cost(g: Seq<ProjectRecord>) -> int
    decreases g.len(),
{
    if g.len() == 0 {
        0
    } else {
        sum_cost(g.drop_last()) + g.last().contract_cost_cents
    }
}

pub open spec fn sum_savings(g: Seq<ProjectRecord>) -> int
    decreases g.len(),
{
    if g.len() == 0 {
        0
    } else {
        sum_savings(g.drop_last()) + g.last().savings()
    }
}

pub open spec fn sum_delays(g: Seq<ProjectRecord>) -> int
    decreases g.len(),
{
    if g.len() == 0 {
        0
    } else {
        sum_delays(g.drop_last()) + g.last().delay()
    }
}

/// How many records have a delay above [`DELAY_THRESHOLD_DAYS`].
pub open spec fn count_over30(g: Seq<ProjectRecord>) -> int
    decreases g.len(),
{
    if g.len() == 0 {
        0
    } else {
        count_over30(g.drop_last()) + if g.last().delay() > DELAY_THRESHOLD_DAYS {
            1int
        } else {
            0int
        }
    }
}

pub open spec fn all_wf(g: Seq<ProjectRecord>) -> bool {
    forall|i: int| 0 <= i < g.len() ==> (#[trigger] g[i]).wf()
}

pub proof fn lemma_sum_bounds(g: Seq<ProjectRecord>)
    requires
        all_wf(g),
    ensures
        0 <= sum_budget(g) <= g.len() * AMOUNT_CENTS_MAX,
        0 <= sum_cost(g) <= g.len() * AMOUNT_CENTS_MAX,
        -(g.len() * AMOUNT_CENTS_MAX) <= sum_savings(g) <= g.len() * AMOUNT_CENTS_MAX,
        0 <= sum_delays(g) <= g.len() * DAY_INDEX_MAX,
        0 <= count_over30(g) <= g.len(),
    decreases g.len(),
{
    if g.len() > 0 {
        assert(all_wf(g.drop_last()));
        lemma_sum_bounds(g.drop_last());
        assert(g.last().wf());
    }
}

/// Per-record savings, in record order.
pub open spec fn savings64(g: Seq<ProjectRecord>) -> Seq<i64> {
    g.map_values(|r: ProjectRecord| (r.approved_budget_cents - r.contract_cost_cents) as i64)
}

/// The ordering the savings median is taken in.
pub open spec fn i64_le() -> spec_fn(i64, i64) -> bool {
    |x: i64, y: i64| x <= y
}

/// The group's savings in ascending order.
pub open spec fn sorted_savings(g: Seq<ProjectRecord>) -> Seq<i64> {
    savings64(g).sort_by(i64_le())
}

/// Twice the median savings (twice, so that the even-count average of the
/// two middle values stays an integer).
pub open spec fn med_twice(g: Seq<ProjectRecord>) -> int {
    let s = sorted_savings(g);
    let n = s.len() as int;
    if n == 0 {
        0
    } else if n % 2 == 1 {
        2 * s[n / 2]
    } else {
        s[n / 2 - 1] + s[n / 2]
    }
}

/// Average delay, rounded to centi-days; zero for an empty group.
pub open spec fn avg_delay_centi(g: Seq<ProjectRecord>) -> int {
    if g.len() == 0 {
        0
    } else {
        round_div(100 * sum_delays(g), g.len() as int)
    }
}

/// Share of long delays, rounded to deci-percent; zero for an empty group.
pub open spec fn over30_deci(g: Seq<ProjectRecord>) -> int {
    if g.len() == 0 {
        0
    } else {
        round_div(1000 * count_over30(g), g.len() as int)
    }
}

/// Numerator of the raw efficiency ratio: median savings per day of average
/// delay, scaled; zero when the average delay is zero.
pub open spec fn eff_num(g: Seq<ProjectRecord>) -> int {
    if avg_delay_centi(g) > 0 {
        5000 * med_twice(g)
    } else {
        0
    }
}

/// Positive denominator of the raw efficiency ratio.
pub open spec fn eff_den(g: Seq<ProjectRecord>) -> int {
    if avg_delay_centi(g) > 0 {
        avg_delay_centi(g)
    } else {
        1
    }
}

pub proof fn lemma_total_ordering_i64_le()
    ensures
        total_ordering(i64_le()),
{
}

/// Every sorted savings value is itself a savings value, so it is bounded.
pub proof fn lemma_sorted_savings_bounds(g: Seq<ProjectRecord>)
    requires
        all_wf(g),
    ensures
        sorted_savings(g).len() == g.len(),
        forall|i: int|
            0 <= i < sorted_savings(g).len() ==> -AMOUNT_CENTS_MAX <= #[trigger] sorted_savings(
                g,
            )[i] <= AMOUNT_CENTS_MAX,
{
    lemma_total_ordering_i64_le();
    savings64(g).lemma_sort_by_ensures(i64_le());
    savings64(g).to_multiset_ensures();
    sorted_savings(g).to_multiset_ensures();
    assert(savings64(g).len() == g.len());
    assert(sorted_savings(g).to_multiset().len() == savings64(g).to_multiset().len());
    assert forall|i: int| 0 <= i < sorted_savings(g).len() implies -AMOUNT_CENTS_MAX
        <= #[trigger] sorted_savings(g)[i] <= AMOUNT_CENTS_MAX by {
        let x = sorted_savings(g)[i];
        assert(sorted_savings(g).contains(x));
        assert(savings64(g).contains(x));
        let j = choose|j: int| 0 <= j < savings64(g).len() && savings64(g)[j] == x;
        assert(g[j].wf());
    }
}

/// Twice the median of a group of validated records stays within twice the
/// largest amount.
pub proof fn lemma_med_twice_bounds(g: Seq<ProjectRecord>)
    requires
        all_wf(g),
    ensures
        -2 * AMOUNT_CENTS_MAX <= med_twice(g) <= 2 * AMOUNT_CENTS_MAX,
{
    lemma_sorted_savings_bounds(g);
}

/// Computed statistics of one group of records.
pub struct GroupStats {
    pub total_budget: i128,
    pub total_cost: i128,
    pub total_savings: i128,
    pub num: usize,
    pub med_twice: i64,
    pub avg_delay_centi: i64,
    pub over30_deci: i64,
}

/// Sort savings ascending (selection sort).
fn sort_i64(input: Vec<i64>) -> (out: Vec<i64>)
    ensures
        sorted_by(out@, i64_le()),
        out@.to_multiset() == input@.to_multiset(),
        out@.len() == input@.len(),
{
    let ghost orig = input@;
    let mut rem = input;
    let mut out: Vec<i64> = Vec::new();
    proof {
        orig.to_multiset_ensures();
        out@.to_multiset_ensures();
        assert(out@.to_multiset().add(rem@.to_multiset()) =~= orig.to_multiset());
    }
    while rem.len() > 0
        invariant
            out@.to_multiset().add(rem@.to_multiset()) =~= orig.to_multiset(),
            out@.len() + rem@.len() == orig.len(),
            forall|i: int, j: int| 0 <= i < j < out@.len() ==> #[trigger] out@[i] <= #[trigger] out@[j],
            forall|i: int, j: int|
                0 <= i < out@.len() && 0 <= j < rem@.len() ==> #[trigger] out@[i]
                    <= #[trigger] rem@[j],
        decreases rem@.len(),
    {
        let mut mi: usize = 0;
        let mut j: usize = 1;
        while j < rem.len()
            invariant
                0 <= mi < rem@.len(),
                1 <= j <= rem@.len(),
                forall|k: int| 0 <= k < j ==> rem@[mi as int] <= #[trigger] rem@[k],
            decreases rem@.len() - j,
        {
            if rem[j] < rem[mi] {
                mi = j;
            }
            j = j + 1;
        }
        let ghost rem_before = rem@;
        let ghost out_before = out@;
        let x = rem.remove(mi);
        out.push(x);
        proof {
            rem_before.to_multiset_ensures();
            out_before.to_multiset_ensures();
            assert(rem@.to_multiset() =~= rem_before.to_multiset().remove(x));
            assert(out@.to_multiset() =~= out_before.to_multiset().insert(x));
            assert(rem_before.to_multiset().count(x) > 0) by {
                assert(rem_before.contains(x));
            }
            assert(out@.to_multiset().add(rem@.to_multiset()) =~= orig.to_multiset());
            // the selected element is a lower bound of what remains
            assert forall|k: int| 0 <= k < rem@.len() implies x <= #[trigger] rem@[k] by {
                rem_before.remove_ensures(mi as int);
                if k < mi {
                    assert(rem@[k] == rem_before[k]);
                } else {
                    assert(rem@[k] == rem_before[k + 1]);
                }
            }
        }
    }
    proof {
        assert(rem@ =~= Seq::<i64>::empty());
        rem@.to_multiset_ensures();
        assert forall|y: i64|
            out@.to_multiset().add(rem@.to_multiset()).count(y) == out@.to_multiset().count(
                y,
            ) by {
            assert(!rem@.contains(y));
            assert(rem@.to_multiset().count(y) == 0);
        }
        assert(out@.to_multiset().add(rem@.to_multiset()) =~= out@.to_multiset());
    }
    out
}

/// Compute the statistics of one group of validated records.
pub fn group_stats(members: &Vec<ProjectRecord>) -> (s: GroupStats)
    requires
        all_wf(members@),
        members@.len() <= MAX_RECORDS,
    ensures
        s.total_budget == sum_budget(members@),
        s.total_cost == sum_cost(members@),
        s.total_savings == sum_savings(members@),
        s.num == members@.len(),
        s.med_twice == med_twice(members@),
        s.avg_delay_centi == avg_delay_centi(members@),
        s.over30_deci == over30_deci(members@),
        0 <= s.avg_delay_centi <= AVG_DELAY_CENTI_MAX,
        0 <= s.over30_deci <= 1000,
{
    let ghost g = members@;
    let n = members.len();
    let mut budget: i128 = 0;
    let mut cost: i128 = 0;
    let mut savings_total: i128 = 0;
    let mut delay_total: i128 = 0;
    let mut over30: usize = 0;
    let mut savings_vec: Vec<i64> = Vec::new();
    let mut i: usize = 0;
    proof {
        assert(g.take(0) =~= Seq::<ProjectRecord>::empty());
        assert(savings64(g.take(0)) =~= Seq::<i64>::empty());
    }
    while i < n
        invariant
            0 <= i <= n,
            n == g.len(),
            g == members@,
            all_wf(g),
            g.len() <= MAX_RECORDS,
            budget == sum_budget(g.take(i as int)),
            cost == sum_cost(g.take(i as int)),
            savings_total == sum_savings(g.take(i as int)),
            delay_total == sum_delays(g.take(i as int)),
            over30 == count_over30(g.take(i as int)),
            savings_vec@ == savings64(g.take(i as int)),
        decreases n - i,
    {
        proof {
            assert(g.take(i + 1).drop_last() =~= g.take(i as int));
            assert(g.take(i + 1).last() == g[i as int]);
            assert(all_wf(g.take(i as int)));
            lemma_sum_bounds(g.take(i as int));
            assert(g.take(i as int).len() * AMOUNT_CENTS_MAX <= MAX_RECORDS
                * AMOUNT_CENTS_MAX) by (nonlinear_arith)
                requires
                    0 <= g.take(i as int).len() <= MAX_RECORDS,
            ;
            assert(g.take(i as int).len() * DAY_INDEX_MAX <= MAX_RECORDS
                * DAY_INDEX_MAX) by (nonlinear_arith)
                requires
                    0 <= g.take(i as int).len() <= MAX_RECORDS,
            ;
            assert(g[i as int].wf());
        }
        let r = &members[i];
        budget = budget + r.approved_budget_cents as i128;
        cost = cost + r.contract_cost_cents as i128;
        savings_total = savings_total + (r.approved_budget_cents as i128
            - r.contract_cost_cents as i128);
        let d = r.delay_days();
        delay_total = delay_total + d as i128;
        if d > DELAY_THRESHOLD_DAYS {
            over30 = over30 + 1;
        }
        savings_vec.push(r.approved_budget_cents - r.contract_cost_cents);
        proof {
            assert(savings64(g.take(i + 1)) =~= savings64(g.take(i as int)).push(
                (g[i as int].approved_budget_cents - g[i as int].contract_cost_cents) as i64,
            ));
        }
        i = i + 1;
    }
    proof {
        assert(g.take(n as int) =~= g);
    }
    let sorted = sort_i64(savings_vec);
    proof {
        lemma_total_ordering_i64_le();
        savings64(g).lemma_sort_by_ensures(i64_le());
        vstd::seq_lib::lemma_sorted_unique(sorted@, sorted_savings(g), i64_le());
        assert(sorted@ == sorted_savings(g));
        lemma_sorted_savings_bounds(g);
    }
    let med: i64 = if n == 0 {
        0
    } else if n % 2 == 1 {
        2 * sorted[n / 2]
    } else {
        sorted[n / 2 - 1] + sorted[n / 2]
    };
    let avg: i64 = if n == 0 {
        0
    } else {
        proof {
            lemma_sum_bounds(g);
            assert(100 * sum_delays(g) <= (100 * DAY_INDEX_MAX) * g.len()) by (nonlinear_arith)
                requires
                    0 <= sum_delays(g) <= g.len() * DAY_INDEX_MAX,
            ;
            lemma_round_div_range(100 * sum_delays(g), g.len() as int, 100 * DAY_INDEX_MAX as int);
        }
        div_round_i128(100 * delay_total, n as i128) as i64
    };
    let pct: i64 = if n == 0 {
        0
    } else {
        proof {
            lemma_sum_bounds(g);
            assert(1000 * count_over30(g) <= 1000 * g.len()) by (nonlinear_arith)
                requires
                    0 <= count_over30(g) <= g.len(),
            ;
            lemma_round_div_range(1000 * count_over30(g), g.len() as int, 1000);
        }
        div_round_i128(1000 * over30 as i128, n as i128) as i64
    };
    GroupStats {
        total_budget: budget,
        total_cost: cost,
        total_savings: savings_total,
        num: n,
        med_twice: med,
        avg_delay_centi: avg,
        over30_deci: pct,
    }
}

} // verus!
