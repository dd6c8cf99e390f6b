//! The regional efficiency summary: records grouped by (region, main
//! island), per-group statistics, a raw efficiency ratio, its global
//! rescaling to centi-points in `[0, 10000]`, and the descending order of
//! the final rows.

use vstd::prelude::*;
use crate::fixed::{round_div, div_round_i128, lemma_round_div_range, lemma_abs_mul_le};
use crate::stats::{
    all_wf, sum_budget, med_twice, avg_delay_centi, over30_deci, eff_num, eff_den, group_stats,
    lemma_med_twice_bounds, AVG_DELAY_CENTI_MAX,
};
use crate::store::{ProjectRecord, MAX_RECORDS};

verus! {

/// Magnitude bound of a raw efficiency numerator.
pub const EFF_NUM_MAX: i128 = 10_000_000_000_000_000;

/// Distinct (region, main island) keys in first-seen order.
pub open spec fn keys_of(rs: Seq<ProjectRecord>) -> Seq<(Seq<char>, Seq<char>)>
    decreases rs.len(),
{
    if rs.len() == 0 {
        Seq::empty()
    } else {
        let prior = keys_of(rs.drop_last());
        if prior.contains(rs.last().key()) {
            prior
        } else {
            prior.push(rs.last().key())
        }
    }
}

/// The records of one key, in record order.
pub open spec fn group_of(rs: Seq<ProjectRecord>, k: (Seq<char>, Seq<char>)) -> Seq<ProjectRecord>
    decreases rs.len(),
{
    if rs.len() == 0 {
        Seq::empty()
    } else {
        let rest = group_of(rs.drop_last(), k);
        if rs.last().key() == k {
            rest.push(rs.last())
        } else {
            rest
        }
    }
}

/// The summary has one key per distinct (region, main island) pair: no
/// key is listed twice.
pub proof fn lemma_keys_distinct(rs: Seq<ProjectRecord>)
    ensures
        forall|i: int, j: int|
            0 <= i < j < keys_of(rs).len() ==> #[trigger] keys_of(rs)[i] != #[trigger] keys_of(
                rs,
            )[j],
    decreases rs.len(),
{
    if rs.len() > 0 {
        lemma_keys_distinct(rs.drop_last());
        let prior = keys_of(rs.drop_last());
        if !prior.contains(rs.last().key()) {
            assert(forall|i: int| 0 <= i < prior.len() ==> #[trigger] prior[i] != rs.last().key());
        }
    }
}

/// A key occurs among the keys exactly when some record carries it.
pub proof fn lemma_keys_complete(rs: Seq<ProjectRecord>, k: (Seq<char>, Seq<char>))
    ensures
        keys_of(rs).contains(k) <==> exists|i: int| 0 <= i < rs.len() && (#[trigger] rs[i]).key()
            == k,
    decreases rs.len(),
{
    if rs.len() > 0 {
        let dl = rs.drop_last();
        let prior = keys_of(dl);
        lemma_keys_complete(dl, k);
        assert(forall|i: int| 0 <= i < dl.len() ==> #[trigger] dl[i] == rs[i]);
        // membership carries over between prior and keys_of(rs)
        assert(prior.contains(k) ==> keys_of(rs).contains(k)) by {
            if prior.contains(k) {
                let j = choose|j: int| 0 <= j < prior.len() && prior[j] == k;
                assert(keys_of(rs)[j] == k);
            }
        }
        if rs.last().key() == k {
            assert(rs[rs.len() - 1].key() == k);
            if !prior.contains(k) {
                assert(keys_of(rs) == prior.push(k));
                assert(keys_of(rs)[prior.len() as int] == k);
            }
            assert(keys_of(rs).contains(k));
        } else {
            assert(keys_of(rs).contains(k) ==> prior.contains(k)) by {
                if keys_of(rs).contains(k) {
                    let j = choose|j: int|
                        0 <= j < keys_of(rs).len() && keys_of(rs)[j] == k;
                    if !prior.contains(rs.last().key()) {
                        assert(keys_of(rs) == prior.push(rs.last().key()));
                        assert(j < prior.len());
                        assert(prior[j] == k);
                    }
                }
            }
            assert((exists|i: int| 0 <= i < rs.len() && (#[trigger] rs[i]).key() == k) ==> (
            exists|i: int| 0 <= i < dl.len() && (#[trigger] dl[i]).key() == k)) by {
                if exists|i: int| 0 <= i < rs.len() && (#[trigger] rs[i]).key() == k {
                    let i = choose|i: int| 0 <= i < rs.len() && (#[trigger] rs[i]).key() == k;
                    assert(i < dl.len());
                    assert(dl[i].key() == k);
                }
            }
        }
    }
}

/// Group members are records, so they are validated and no more numerous.
pub proof fn lemma_group_of_wf(rs: Seq<ProjectRecord>, k: (Seq<char>, Seq<char>))
    requires
        all_wf(rs),
    ensures
        all_wf(group_of(rs, k)),
        group_of(rs, k).len() <= rs.len(),
        forall|i: int|
            0 <= i < group_of(rs, k).len() ==> (#[trigger] group_of(rs, k)[i]).key() == k,
    decreases rs.len(),
{
    if rs.len() > 0 {
        assert(all_wf(rs.drop_last()));
        lemma_group_of_wf(rs.drop_last(), k);
        assert(rs.last().wf());
    }
}

/// Raw efficiency numerator of the group at key position `i`.
pub open spec fn raw_num_at(rs: Seq<ProjectRecord>, i: int) -> int {
    eff_num(group_of(rs, keys_of(rs)[i]))
}

/// Raw efficiency denominator of the group at key position `i`; at least 1.
pub open spec fn raw_den_at(rs: Seq<ProjectRecord>, i: int) -> int {
    eff_den(group_of(rs, keys_of(rs)[i]))
}

/// The raw efficiency at `a` is strictly below the one at `b`.
pub open spec fn ratio_lt_at(rs: Seq<ProjectRecord>, a: int, b: int) -> bool {
    raw_num_at(rs, a) * raw_den_at(rs, b) < raw_num_at(rs, b) * raw_den_at(rs, a)
}

/// The raw efficiency at `a` is at most the one at `b`.
pub open spec fn ratio_le_at(rs: Seq<ProjectRecord>, a: int, b: int) -> bool {
    raw_num_at(rs, a) * raw_den_at(rs, b) <= raw_num_at(rs, b) * raw_den_at(rs, a)
}

/// Position of the smallest raw efficiency among the first `n` keys,
/// earliest on ties.
pub open spec fn min_idx_upto(rs: Seq<ProjectRecord>, n: int) -> int
    decreases n,
{
    if n <= 1 {
        0
    } else {
        let m = min_idx_upto(rs, n - 1);
        if ratio_lt_at(rs, n - 1, m) {
            n - 1
        } else {
            m
        }
    }
}

/// Position of the largest raw efficiency among the first `n` keys,
/// earliest on ties.
pub open spec fn max_idx_upto(rs: Seq<ProjectRecord>, n: int) -> int
    decreases n,
{
    if n <= 1 {
        0
    } else {
        let m = max_idx_upto(rs, n - 1);
        if ratio_lt_at(rs, m, n - 1) {
            n - 1
        } else {
            m
        }
    }
}

/// The normalized efficiency score of key position `i`, in centi-points:
/// the raw efficiencies are rescaled so the least maps to 0 and the greatest
/// to 10000; when all are equal every score is 10000.
pub open spec fn score_centi_at(rs: Seq<ProjectRecord>, i: int) -> int {
    let m = keys_of(rs).len() as int;
    let mn = min_idx_upto(rs, m);
    let mx = max_idx_upto(rs, m);
    if ratio_lt_at(rs, mn, mx) {
        round_div(
            10000 * ((raw_num_at(rs, i) * raw_den_at(rs, mn) - raw_num_at(rs, mn) * raw_den_at(
                rs,
                i,
            )) * raw_den_at(rs, mx)),
            raw_den_at(rs, i) * (raw_num_at(rs, mx) * raw_den_at(rs, mn) - raw_num_at(rs, mn)
                * raw_den_at(rs, mx)),
        )
    } else {
        10000
    }
}

pub proof fn lemma_ratio_le_trans(p1: int, q1: int, p2: int, q2: int, p3: int, q3: int)
    requires
        q1 > 0,
        q2 > 0,
        q3 > 0,
        p1 * q2 <= p2 * q1,
        p2 * q3 <= p3 * q2,
    ensures
        p1 * q3 <= p3 * q1,
{
    assert((p1 * q3) * q2 <= (p3 * q1) * q2) by (nonlinear_arith)
        requires
            q1 > 0,
            q2 > 0,
            q3 > 0,
            p1 * q2 <= p2 * q1,
            p2 * q3 <= p3 * q2,
    ;
    assert(p1 * q3 <= p3 * q1) by (nonlinear_arith)
        requires
            q2 > 0,
            (p1 * q3) * q2 <= (p3 * q1) * q2,
    ;
}

/// The minimum position is a position, and its raw efficiency is a lower
/// bound of them all.
pub proof fn lemma_min_idx(rs: Seq<ProjectRecord>, n: int)
    requires
        1 <= n,
    ensures
        0 <= min_idx_upto(rs, n) < n,
        forall|t: int| 0 <= t < n ==> #[trigger] ratio_le_at(rs, min_idx_upto(rs, n), t),
    decreases n,
{
    if n == 1 {
        assert(ratio_le_at(rs, 0, 0));
    } else {
        lemma_min_idx(rs, n - 1);
        let m = min_idx_upto(rs, n - 1);
        if ratio_lt_at(rs, n - 1, m) {
            assert forall|t: int| 0 <= t < n implies #[trigger] ratio_le_at(rs, n - 1, t) by {
                if t < n - 1 {
                    assert(ratio_le_at(rs, m, t));
                    assert(ratio_le_at(rs, n - 1, m));
                    lemma_ratio_le_trans(
                        raw_num_at(rs, n - 1),
                        raw_den_at(rs, n - 1),
                        raw_num_at(rs, m),
                        raw_den_at(rs, m),
                        raw_num_at(rs, t),
                        raw_den_at(rs, t),
                    );
                }
            }
        } else {
            assert(ratio_le_at(rs, m, n - 1));
        }
    }
}

/// The maximum position is a position, and its raw efficiency is an upper
/// bound of them all.
pub proof fn lemma_max_idx(rs: Seq<ProjectRecord>, n: int)
    requires
        1 <= n,
    ensures
        0 <= max_idx_upto(rs, n) < n,
        forall|t: int| 0 <= t < n ==> #[trigger] ratio_le_at(rs, t, max_idx_upto(rs, n)),
    decreases n,
{
    if n == 1 {
        assert(ratio_le_at(rs, 0, 0));
    } else {
        lemma_max_idx(rs, n - 1);
        let m = max_idx_upto(rs, n - 1);
        if ratio_lt_at(rs, m, n - 1) {
            assert forall|t: int| 0 <= t < n implies #[trigger] ratio_le_at(rs, t, n - 1) by {
                if t < n - 1 {
                    assert(ratio_le_at(rs, t, m));
                    assert(ratio_le_at(rs, m, n - 1));
                    lemma_ratio_le_trans(
                        raw_num_at(rs, t),
                        raw_den_at(rs, t),
                        raw_num_at(rs, m),
                        raw_den_at(rs, m),
                        raw_num_at(rs, n - 1),
                        raw_den_at(rs, n - 1),
                    );
                }
            }
        } else {
            assert(ratio_le_at(rs, n - 1, n - 1));
        }
    }
}

/// Every normalized score lies between 0 and 10000 centi-points.
pub proof fn lemma_score_range(rs: Seq<ProjectRecord>, i: int)
    requires
        0 <= i < keys_of(rs).len(),
    ensures
        0 <= score_centi_at(rs, i) <= 10000,
{
    let m = keys_of(rs).len() as int;
    let mn = min_idx_upto(rs, m);
    let mx = max_idx_upto(rs, m);
    lemma_min_idx(rs, m);
    lemma_max_idx(rs, m);
    if ratio_lt_at(rs, mn, mx) {
        let pi = raw_num_at(rs, i);
        let qi = raw_den_at(rs, i);
        let pn = raw_num_at(rs, mn);
        let qn = raw_den_at(rs, mn);
        let px = raw_num_at(rs, mx);
        let qx = raw_den_at(rs, mx);
        assert(qi >= 1 && qn >= 1 && qx >= 1);
        assert(ratio_le_at(rs, mn, i));
        assert(ratio_le_at(rs, i, mx));
        let num = (pi * qn - pn * qi) * qx;
        let den = qi * (px * qn - pn * qx);
        assert(num >= 0) by (nonlinear_arith)
            requires
                qx >= 1,
                pn * qi <= pi * qn,
                num == (pi * qn - pn * qi) * qx,
        ;
        assert(den > 0) by (nonlinear_arith)
            requires
                qi >= 1,
                pn * qx < px * qn,
                den == qi * (px * qn - pn * qx),
        ;
        assert(num <= den) by (nonlinear_arith)
            requires
                qn >= 1,
                qi >= 1,
                qx >= 1,
                pi * qx <= px * qi,
                num == (pi * qn - pn * qi) * qx,
                den == qi * (px * qn - pn * qx),
        ;
        assert(10000 * num <= 10000 * den);
        lemma_round_div_range(10000 * num, den, 10000);
    }
}

/// When every group's raw efficiency is equal, every score is exactly
/// 10000 centi-points.
pub proof fn lemma_equal_raws_full_score(rs: Seq<ProjectRecord>, i: int)
    requires
        0 <= i < keys_of(rs).len(),
        forall|a: int, b: int|
            0 <= a < keys_of(rs).len() && 0 <= b < keys_of(rs).len() ==> #[trigger] ratio_le_at(
                rs,
                a,
                b,
            ),
    ensures
        score_centi_at(rs, i) == 10000,
{
    let m = keys_of(rs).len() as int;
    let mn = min_idx_upto(rs, m);
    let mx = max_idx_upto(rs, m);
    lemma_min_idx(rs, m);
    lemma_max_idx(rs, m);
    assert(ratio_le_at(rs, mx, mn));
    assert(!ratio_lt_at(rs, mn, mx));
}

/// Views of a key list held as strings.
pub open spec fn key_views(ks: Seq<(String, String)>) -> Seq<(Seq<char>, Seq<char>)> {
    ks.map_values(|p: (String, String)| (p.0@, p.1@))
}

/// Distinct keys of the records, as strings, in first-seen order.
pub fn collect_keys(records: &Vec<ProjectRecord>) -> (keys: Vec<(String, String)>)
    ensures
        key_views(keys@) == keys_of(records@),
{
    let ghost rs = records@;
    let mut keys: Vec<(String, String)> = Vec::new();
    let mut i: usize = 0;
    proof {
        assert(rs.take(0) =~= Seq::<ProjectRecord>::empty());
        assert(key_views(keys@) =~= keys_of(rs.take(0)));
    }
    while i < records.len()
        invariant
            0 <= i <= rs.len(),
            rs == records@,
            key_views(keys@) == keys_of(rs.take(i as int)),
        decreases rs.len() - i,
    {
        proof {
            assert(rs.take(i + 1).drop_last() =~= rs.take(i as int));
            assert(rs.take(i + 1).last() == rs[i as int]);
        }
        let r = &records[i];
        let mut found = false;
        let mut t: usize = 0;
        while t < keys.len() && !found
            invariant
                0 <= t <= keys@.len(),
                rs == records@,
                i < rs.len(),
                r == rs[i as int],
                key_views(keys@) == keys_of(rs.take(i as int)),
                !found ==> forall|u: int|
                    0 <= u < t ==> #[trigger] key_views(keys@)[u] != rs[i as int].key(),
                found ==> keys_of(rs.take(i as int)).contains(rs[i as int].key()),
            decreases keys@.len() - t + if found {
                0int
            } else {
                1int
            },
        {
            proof {
                assert(key_views(keys@)[t as int] == (keys@[t as int].0@, keys@[t as int].1@));
            }
            if keys[t].0 == r.region && keys[t].1 == r.main_island {
                found = true;
                proof {
                    assert(key_views(keys@)[t as int] == rs[i as int].key());
                }
            } else {
                t = t + 1;
            }
        }
        if !found {
            proof {
                assert(!keys_of(rs.take(i as int)).contains(rs[i as int].key())) by {
                    if keys_of(rs.take(i as int)).contains(rs[i as int].key()) {
                        let u = choose|u: int|
                            0 <= u < keys_of(rs.take(i as int)).len() && keys_of(
                                rs.take(i as int),
                            )[u] == rs[i as int].key();
                        assert(key_views(keys@)[u] == rs[i as int].key());
                    }
                }
            }
            keys.push((r.region.clone(), r.main_island.clone()));
            proof {
                assert(key_views(keys@) =~= keys_of(rs.take(i + 1)));
            }
        } else {
            proof {
                assert(key_views(keys@) =~= keys_of(rs.take(i + 1)));
            }
        }
        i = i + 1;
    }
    proof {
        assert(rs.take(rs.len() as int) =~= rs);
    }
    keys
}

/// All records of one key, in record order.
pub fn collect_group(records: &Vec<ProjectRecord>, region: &String, island: &String) -> (members:
    Vec<ProjectRecord>)
    ensures
        members@ == group_of(records@, (region@, island@)),
{
    let ghost rs = records@;
    let ghost k = (region@, island@);
    let mut members: Vec<ProjectRecord> = Vec::new();
    let mut i: usize = 0;
    proof {
        assert(rs.take(0) =~= Seq::<ProjectRecord>::empty());
        assert(members@ =~= group_of(rs.take(0), k));
    }
    while i < records.len()
        invariant
            0 <= i <= rs.len(),
            rs == records@,
            k == (region@, island@),
            members@ == group_of(rs.take(i as int), k),
        decreases rs.len() - i,
    {
        proof {
            assert(rs.take(i + 1).drop_last() =~= rs.take(i as int));
            assert(rs.take(i + 1).last() == rs[i as int]);
        }
        let r = &records[i];
        if r.region == *region && r.main_island == *island {
            proof {
                assert(rs[i as int].key() == k);
            }
            members.push(r.duplicate());
        } else {
            proof {
                assert(rs[i as int].key() != k);
            }
        }
        i = i + 1;
    }
    proof {
        assert(rs.take(rs.len() as int) =~= rs);
    }
    members
}

/// One row of the regional efficiency summary.
pub struct RegionalSummaryRow {
    pub region: String,
    pub main_island: String,
    /// First-seen rank of the (region, main island) key; the deterministic
    /// tie-break of the final order.
    pub group_index: usize,
    pub total_budget_cents: i128,
    /// Twice the median savings in cents.
    pub median_savings_twice_cents: i64,
    pub avg_delay_centi: i64,
    pub delay_over30_deci: i64,
    /// Normalized efficiency score in centi-points, `0..=10000`.
    pub efficiency_centi: i64,
}

impl RegionalSummaryRow {
    /// The median savings rounded to whole cents for display.
    pub fn median_cents(&self) -> (c: i128)
        ensures
            c == round_div(self.median_savings_twice_cents as int, 2),
    {
        div_round_i128(self.median_savings_twice_cents as i128, 2)
    }
}

/// The row carries its key's statistics and normalized score.
pub open spec fn row_matches(rs: Seq<ProjectRecord>, row: RegionalSummaryRow) -> bool {
    let ks = keys_of(rs);
    let gi = row.group_index as int;
    &&& 0 <= gi < ks.len()
    &&& (row.region@, row.main_island@) == ks[gi]
    &&& row.total_budget_cents == sum_budget(group_of(rs, ks[gi]))
    &&& row.median_savings_twice_cents == med_twice(group_of(rs, ks[gi]))
    &&& row.avg_delay_centi == avg_delay_centi(group_of(rs, ks[gi]))
    &&& row.delay_over30_deci == over30_deci(group_of(rs, ks[gi]))
    &&& row.efficiency_centi == score_centi_at(rs, gi)
}

/// The strict output order: score descending, first-seen rank ascending on
/// ties.
pub open spec fn row_before(a: RegionalSummaryRow, b: RegionalSummaryRow) -> bool {
    ||| a.efficiency_centi > b.efficiency_centi
    ||| (a.efficiency_centi == b.efficiency_centi && a.group_index < b.group_index)
}

/// Some row carries the key at first-seen rank `k`.
pub open spec fn has_row_for(s: Seq<RegionalSummaryRow>, k: int) -> bool {
    exists|i: int| 0 <= i < s.len() && (#[trigger] s[i]).group_index == k
}

pub open spec fn distinct_indices(s: Seq<RegionalSummaryRow>) -> bool {
    forall|i: int, j: int|
        0 <= i < j < s.len() ==> (#[trigger] s[i]).group_index != (#[trigger] s[j]).group_index
}

/// Strict rational comparison of two raw efficiencies.
fn ratio_lt(p1: i128, q1: i128, p2: i128, q2: i128) -> (r: bool)
    requires
        -EFF_NUM_MAX <= p1 <= EFF_NUM_MAX,
        -EFF_NUM_MAX <= p2 <= EFF_NUM_MAX,
        1 <= q1 <= AVG_DELAY_CENTI_MAX as i128,
        1 <= q2 <= AVG_DELAY_CENTI_MAX as i128,
    ensures
        r == (p1 * q2 < p2 * q1),
{
    proof {
        lemma_abs_mul_le(p1 as int, q2 as int, EFF_NUM_MAX as int, AVG_DELAY_CENTI_MAX as int);
        lemma_abs_mul_le(p2 as int, q1 as int, EFF_NUM_MAX as int, AVG_DELAY_CENTI_MAX as int);
    }
    let a = p1 * q2;
    let b = p2 * q1;
    a < b
}

/// Order the rows: score descending, first-seen rank breaking ties
/// (selection sort).
fn sort_rows(input: Vec<RegionalSummaryRow>) -> (out: Vec<RegionalSummaryRow>)
    requires
        distinct_indices(input@),
    ensures
        out@.len() == input@.len(),
        out@.to_multiset() == input@.to_multiset(),
        forall|i: int, j: int|
            0 <= i < j < out@.len() ==> row_before(#[trigger] out@[i], #[trigger] out@[j]),
{
    let ghost orig = input@;
    let mut rem = input;
    let mut out: Vec<RegionalSummaryRow> = Vec::new();
    proof {
        orig.to_multiset_ensures();
        out@.to_multiset_ensures();
        assert(out@.to_multiset().add(rem@.to_multiset()) =~= orig.to_multiset());
    }
    while rem.len() > 0
        invariant
            out@.to_multiset().add(rem@.to_multiset()) =~= orig.to_multiset(),
            out@.len() + rem@.len() == orig.len(),
            distinct_indices(rem@),
            forall|i: int, j: int|
                0 <= i < j < out@.len() ==> row_before(#[trigger] out@[i], #[trigger] out@[j]),
            forall|i: int, j: int|
                0 <= i < out@.len() && 0 <= j < rem@.len() ==> row_before(
                    #[trigger] out@[i],
                    #[trigger] rem@[j],
                ),
        decreases rem@.len(),
    {
        let mut mi: usize = 0;
        let mut j: usize = 1;
        while j < rem.len()
            invariant
                0 <= mi < rem@.len(),
                1 <= j <= rem@.len(),
                distinct_indices(rem@),
                mi < j,
                forall|k: int|
                    0 <= k < j && k != mi ==> row_before(rem@[mi as int], #[trigger] rem@[k]),
            decreases rem@.len() - j,
        {
            let better = rem[j].efficiency_centi > rem[mi].efficiency_centi || (
            rem[j].efficiency_centi == rem[mi].efficiency_centi && rem[j].group_index
                < rem[mi].group_index);
            if better {
                mi = j;
            } else {
                proof {
                    assert(rem@[mi as int].group_index != rem@[j as int].group_index);
                }
            }
            j = j + 1;
        }
        let ghost rem_before = rem@;
        let ghost out_before = out@;
        let x = rem.remove(mi);
        out.push(x);
        proof {
            rem_before.to_multiset_ensures();
            out_before.to_multiset_ensures();
            assert(rem@.to_multiset() =~= rem_before.to_multiset().remove(x));
            assert(out@.to_multiset() =~= out_before.to_multiset().insert(x));
            assert(rem_before.to_multiset().count(x) > 0) by {
                assert(rem_before[mi as int] == x);
                assert(rem_before.contains(x));
            }
            assert(out@.to_multiset().add(rem@.to_multiset()) =~= orig.to_multiset());
            rem_before.remove_ensures(mi as int);
            assert forall|k: int| 0 <= k < rem@.len() implies row_before(x, #[trigger] rem@[k]) by {
                if k < mi {
                    assert(rem@[k] == rem_before[k]);
                } else {
                    assert(rem@[k] == rem_before[k + 1]);
                }
            }
            assert(distinct_indices(rem@)) by {
                assert forall|a: int, b: int| 0 <= a < b < rem@.len() implies (
                #[trigger] rem@[a]).group_index != (#[trigger] rem@[b]).group_index by {
                    let a0 = if a < mi {
                        a
                    } else {
                        a + 1
                    };
                    let b0 = if b < mi {
                        b
                    } else {
                        b + 1
                    };
                    assert(rem@[a] == rem_before[a0]);
                    assert(rem@[b] == rem_before[b0]);
                }
            }
        }
    }
    proof {
        assert(rem@ =~= Seq::<RegionalSummaryRow>::empty());
        rem@.to_multiset_ensures();
        assert forall|y: RegionalSummaryRow|
            out@.to_multiset().add(rem@.to_multiset()).count(y) == out@.to_multiset().count(
                y,
            ) by {
            assert(!rem@.contains(y));
            assert(rem@.to_multiset().count(y) == 0);
        }
        assert(out@.to_multiset().add(rem@.to_multiset()) =~= out@.to_multiset());
    }
    out
}

/// Build the regional efficiency summary: one row per distinct (region,
/// main island) key, each carrying its group's statistics and the globally
/// normalized efficiency score, ordered by score descending with the
/// first-seen rank breaking ties.
pub fn build_regional_summary(records: &Vec<ProjectRecord>) -> (rows: Vec<RegionalSummaryRow>)
    requires
        all_wf(records@),
        records@.len() <= MAX_RECORDS,
    ensures
        rows@.len() == keys_of(records@).len(),
        forall|i: int| 0 <= i < rows@.len() ==> row_matches(records@, #[trigger] rows@[i]),
        forall|i: int|
            0 <= i < rows@.len() ==> 0 <= (#[trigger] rows@[i]).efficiency_centi <= 10000,
        forall|i: int, j: int|
            0 <= i < j < rows@.len() ==> row_before(#[trigger] rows@[i], #[trigger] rows@[j]),
        forall|k: int| 0 <= k < keys_of(records@).len() ==> #[trigger] has_row_for(rows@, k),
{
    let ghost rs = records@;
    let keys = collect_keys(records);
    let m = keys.len();
    proof {
        assert(key_views(keys@).len() == keys_of(rs).len());
    }
    let mut pvec: Vec<i128> = Vec::new();
    let mut qvec: Vec<i128> = Vec::new();
    let mut work: Vec<RegionalSummaryRow> = Vec::new();
    let mut gi: usize = 0;
    while gi < m
        invariant
            0 <= gi <= m,
            rs == records@,
            all_wf(rs),
            rs.len() <= MAX_RECORDS,
            m == keys@.len(),
            key_views(keys@) == keys_of(rs),
            pvec@.len() == gi,
            qvec@.len() == gi,
            work@.len() == gi,
            forall|t: int|
                0 <= t < gi ==> #[trigger] pvec@[t] == raw_num_at(rs, t) && -EFF_NUM_MAX
                    <= pvec@[t] <= EFF_NUM_MAX,
            forall|t: int|
                0 <= t < gi ==> #[trigger] qvec@[t] == raw_den_at(rs, t) && 1 <= qvec@[t]
                    <= AVG_DELAY_CENTI_MAX as i128,
            forall|t: int|
                0 <= t < gi ==> {
                    let row = #[trigger] work@[t];
                    let k = keys_of(rs)[t];
                    &&& row.group_index == t
                    &&& (row.region@, row.main_island@) == k
                    &&& row.total_budget_cents == sum_budget(group_of(rs, k))
                    &&& row.median_savings_twice_cents == med_twice(group_of(rs, k))
                    &&& row.avg_delay_centi == avg_delay_centi(group_of(rs, k))
                    &&& row.delay_over30_deci == over30_deci(group_of(rs, k))
                },
        decreases m - gi,
    {
        proof {
            assert(key_views(keys@)[gi as int] == (keys@[gi as int].0@, keys@[gi as int].1@));
        }
        let members = collect_group(records, &keys[gi].0, &keys[gi].1);
        let ghost k = keys_of(rs)[gi as int];
        proof {
            assert(members@ == group_of(rs, k));
            lemma_group_of_wf(rs, k);
        }
        let st = group_stats(&members);
        proof {
            lemma_med_twice_bounds(group_of(rs, k));
        }
        let p: i128 = if st.avg_delay_centi > 0 {
            5000 * (st.med_twice as i128)
        } else {
            0
        };
        let q: i128 = if st.avg_delay_centi > 0 {
            st.avg_delay_centi as i128
        } else {
            1
        };
        proof {
            assert(p == eff_num(group_of(rs, k)));
            assert(q == eff_den(group_of(rs, k)));
        }
        pvec.push(p);
        qvec.push(q);
        work.push(
            RegionalSummaryRow {
                region: keys[gi].0.clone(),
                main_island: keys[gi].1.clone(),
                group_index: gi,
                total_budget_cents: st.total_budget,
                median_savings_twice_cents: st.med_twice,
                avg_delay_centi: st.avg_delay_centi,
                delay_over30_deci: st.over30_deci,
                efficiency_centi: 0,
            },
        );
        gi = gi + 1;
    }
    if m == 0 {
        return work;
    }
    // global minimum and maximum of the raw efficiencies
    let mut mn: usize = 0;
    let mut mx: usize = 0;
    let mut t: usize = 1;
    while t < m
        invariant
            1 <= t <= m,
            m == keys_of(rs).len(),
            pvec@.len() == m,
            qvec@.len() == m,
            forall|u: int|
                0 <= u < m ==> #[trigger] pvec@[u] == raw_num_at(rs, u) && -EFF_NUM_MAX
                    <= pvec@[u] <= EFF_NUM_MAX,
            forall|u: int|
                0 <= u < m ==> #[trigger] qvec@[u] == raw_den_at(rs, u) && 1 <= qvec@[u]
                    <= AVG_DELAY_CENTI_MAX as i128,
            0 <= mn < t,
            0 <= mx < t,
            mn == min_idx_upto(rs, t as int),
            mx == max_idx_upto(rs, t as int),
        decreases m - t,
    {
        if ratio_lt(pvec[t], qvec[t], pvec[mn], qvec[mn]) {
            mn = t;
        }
        if ratio_lt(pvec[mx], qvec[mx], pvec[t], qvec[t]) {
            mx = t;
        }
        t = t + 1;
    }
    let spread = ratio_lt(pvec[mn], qvec[mn], pvec[mx], qvec[mx]);
    proof {
        assert(spread == ratio_lt_at(rs, mn as int, mx as int));
    }
    // normalized scores
    let mut scored: Vec<RegionalSummaryRow> = Vec::new();
    let mut i: usize = 0;
    while i < m
        invariant
            0 <= i <= m,
            rs == records@,
            m == keys_of(rs).len(),
            pvec@.len() == m,
            qvec@.len() == m,
            work@.len() == m,
            mn == min_idx_upto(rs, m as int),
            mx == max_idx_upto(rs, m as int),
            0 <= mn < m,
            0 <= mx < m,
            spread == ratio_lt_at(rs, mn as int, mx as int),
            forall|u: int|
                0 <= u < m ==> #[trigger] pvec@[u] == raw_num_at(rs, u) && -EFF_NUM_MAX
                    <= pvec@[u] <= EFF_NUM_MAX,
            forall|u: int|
                0 <= u < m ==> #[trigger] qvec@[u] == raw_den_at(rs, u) && 1 <= qvec@[u]
                    <= AVG_DELAY_CENTI_MAX as i128,
            forall|u: int|
                0 <= u < m ==> {
                    let row = #[trigger] work@[u];
                    let k = keys_of(rs)[u];
                    &&& row.group_index == u
                    &&& (row.region@, row.main_island@) == k
                    &&& row.total_budget_cents == sum_budget(group_of(rs, k))
                    &&& row.median_savings_twice_cents == med_twice(group_of(rs, k))
                    &&& row.avg_delay_centi == avg_delay_centi(group_of(rs, k))
                    &&& row.delay_over30_deci == over30_deci(group_of(rs, k))
                },
            scored@.len() == i,
            forall|u: int| 0 <= u < i ==> row_matches(rs, #[trigger] scored@[u]),
            forall|u: int| 0 <= u < i ==> (#[trigger] scored@[u]).group_index == u,
            forall|u: int|
                0 <= u < i ==> 0 <= (#[trigger] scored@[u]).efficiency_centi <= 10000,
        decreases m - i,
    {
        let score: i64 = if spread {
            let pi = pvec[i];
            let qi = qvec[i];
            let pn = pvec[mn];
            let qn = qvec[mn];
            let px = pvec[mx];
            let qx = qvec[mx];
            proof {
                lemma_abs_mul_le(
                    pi as int,
                    qn as int,
                    EFF_NUM_MAX as int,
                    AVG_DELAY_CENTI_MAX as int,
                );
                lemma_abs_mul_le(
                    pn as int,
                    qi as int,
                    EFF_NUM_MAX as int,
                    AVG_DELAY_CENTI_MAX as int,
                );
                lemma_abs_mul_le(
                    px as int,
                    qn as int,
                    EFF_NUM_MAX as int,
                    AVG_DELAY_CENTI_MAX as int,
                );
                lemma_abs_mul_le(
                    pn as int,
                    qx as int,
                    EFF_NUM_MAX as int,
                    AVG_DELAY_CENTI_MAX as int,
                );
            }
            let a = pi * qn - pn * qi;
            let b = px * qn - pn * qx;
            proof {
                lemma_abs_mul_le(
                    a as int,
                    qx as int,
                    2 * EFF_NUM_MAX as int * AVG_DELAY_CENTI_MAX as int,
                    AVG_DELAY_CENTI_MAX as int,
                );
                lemma_abs_mul_le(
                    qi as int,
                    b as int,
                    AVG_DELAY_CENTI_MAX as int,
                    2 * EFF_NUM_MAX as int * AVG_DELAY_CENTI_MAX as int,
                );
                assert(b > 0);
                assert(qi as int * b as int > 0) by (nonlinear_arith)
                    requires
                        qi >= 1,
                        b > 0,
                ;
            }
            let num = 10000 * (a * qx);
            let den = qi * b;
            let sc = div_round_i128(num, den);
            proof {
                lemma_score_range(rs, i as int);
                assert(sc == score_centi_at(rs, i as int));
            }
            sc as i64
        } else {
            proof {
                assert(score_centi_at(rs, i as int) == 10000);
            }
            10000
        };
        let w = &work[i];
        scored.push(
            RegionalSummaryRow {
                region: w.region.clone(),
                main_island: w.main_island.clone(),
                group_index: w.group_index,
                total_budget_cents: w.total_budget_cents,
                median_savings_twice_cents: w.median_savings_twice_cents,
                avg_delay_centi: w.avg_delay_centi,
                delay_over30_deci: w.delay_over30_deci,
                efficiency_centi: score,
            },
        );
        i = i + 1;
    }
    proof {
        assert(distinct_indices(scored@));
    }
    let rows = sort_rows(scored);
    proof {
        let ghost pre = scored@;
        pre.to_multiset_ensures();
        rows@.to_multiset_ensures();
        assert forall|u: int| 0 <= u < rows@.len() implies row_matches(rs, #[trigger] rows@[u])
            && 0 <= rows@[u].efficiency_centi <= 10000 by {
            assert(rows@.contains(rows@[u]));
            assert(pre.to_multiset().count(rows@[u]) > 0);
            assert(pre.contains(rows@[u]));
            let j = choose|j: int| 0 <= j < pre.len() && pre[j] == rows@[u];
            assert(row_matches(rs, pre[j]));
        }
        assert forall|k: int| 0 <= k < keys_of(rs).len() implies #[trigger] has_row_for(
            rows@,
            k,
        ) by {
            assert(pre[k].group_index == k);
            assert(pre.contains(pre[k]));
            assert(rows@.to_multiset().count(pre[k]) > 0);
            assert(rows@.contains(pre[k]));
            let u = choose|u: int| 0 <= u < rows@.len() && rows@[u] == pre[k];
            assert(rows@[u].group_index == k);
        }
    }
    rows
}

} // verus!
