//! The contractor performance ranking: records grouped by contractor, the
//! groups of at least five records scored with a reliability index clamped
//! to `[0, 10000]` centi-points, ordered by total cost descending, and cut
//! to a configurable top count.

use vstd::prelude::*;
use vstd::string::StringExecFns;
use crate::fixed::{round_div, clamp_int, div_round_i128, lemma_abs_mul_le};
use crate::stats::{
    all_wf, sum_cost, sum_savings, avg_delay_centi, group_stats, AVG_DELAY_CENTI_MAX,
};
use crate::store::{ProjectRecord, MAX_RECORDS};
use crate::parse::AMOUNT_CENTS_MAX;

verus! {

/// Fewest records a contractor needs to be ranked.
pub const MIN_PROJECTS: usize = 5;

/// The ranking's documented top count: the report is meant as a top-15
/// table.  Callers may pass a larger cap to rank every qualifying
/// contractor.
pub const DEFAULT_RANKING_CAP: usize = 15;

/// Distinct contractor names in first-seen order.
pub open spec fn ckeys_of(rs: Seq<ProjectRecord>) -> Seq<Seq<char>>
    decreases rs.len(),
{
    if rs.len() == 0 {
        Seq::empty()
    } else {
        let prior = ckeys_of(rs.drop_last());
        if prior.contains(rs.last().contractor@) {
            prior
        } else {
            prior.push(rs.last().contractor@)
        }
    }
}

/// The records of one contractor, in record order.
pub open spec fn cgroup_of(rs: Seq<ProjectRecord>, name: Seq<char>) -> Seq<ProjectRecord>
    decreases rs.len(),
{
    if rs.len() == 0 {
        Seq::empty()
    } else {
        let rest = cgroup_of(rs.drop_last(), name);
        if rs.last().contractor@ == name {
            rest.push(rs.last())
        } else {
            rest
        }
    }
}

/// The names of `ks` whose group has at least [`MIN_PROJECTS`] records.
pub open spec fn qual_of(rs: Seq<ProjectRecord>, ks: Seq<Seq<char>>) -> Seq<Seq<char>>
    decreases ks.len(),
{
    if ks.len() == 0 {
        Seq::empty()
    } else {
        let rest = qual_of(rs, ks.drop_last());
        if cgroup_of(rs, ks.last()).len() >= MIN_PROJECTS {
            rest.push(ks.last())
        } else {
            rest
        }
    }
}

/// Qualifying contractors, in first-seen order.
pub open spec fn qual_keys(rs: Seq<ProjectRecord>) -> Seq<Seq<char>> {
    qual_of(rs, ckeys_of(rs))
}

/// Contractor group members are records, so they are validated and no more
/// numerous.
pub proof fn lemma_cgroup_of_wf(rs: Seq<ProjectRecord>, name: Seq<char>)
    requires
        all_wf(rs),
    ensures
        all_wf(cgroup_of(rs, name)),
        cgroup_of(rs, name).len() <= rs.len(),
        forall|i: int|
            0 <= i < cgroup_of(rs, name).len() ==> (#[trigger] cgroup_of(rs, name)[i]).contractor@
                == name,
    decreases rs.len(),
{
    if rs.len() > 0 {
        assert(all_wf(rs.drop_last()));
        lemma_cgroup_of_wf(rs.drop_last(), name);
        assert(rs.last().wf());
    }
}

/// A contractor name occurs among the keys exactly when some record
/// carries it.
pub proof fn lemma_ckeys_complete(rs: Seq<ProjectRecord>, name: Seq<char>)
    ensures
        ckeys_of(rs).contains(name) <==> exists|i: int|
            0 <= i < rs.len() && (#[trigger] rs[i]).contractor@ == name,
    decreases rs.len(),
{
    if rs.len() > 0 {
        let dl = rs.drop_last();
        let prior = ckeys_of(dl);
        lemma_ckeys_complete(dl, name);
        assert(forall|i: int| 0 <= i < dl.len() ==> #[trigger] dl[i] == rs[i]);
        assert(prior.contains(name) ==> ckeys_of(rs).contains(name)) by {
            if prior.contains(name) {
                let j = choose|j: int| 0 <= j < prior.len() && prior[j] == name;
                assert(ckeys_of(rs)[j] == name);
            }
        }
        if rs.last().contractor@ == name {
            assert(rs[rs.len() - 1].contractor@ == name);
            if !prior.contains(name) {
                assert(ckeys_of(rs) == prior.push(name));
                assert(ckeys_of(rs)[prior.len() as int] == name);
            }
            assert(ckeys_of(rs).contains(name));
        } else {
            assert(ckeys_of(rs).contains(name) ==> prior.contains(name)) by {
                if ckeys_of(rs).contains(name) {
                    let j = choose|j: int|
                        0 <= j < ckeys_of(rs).len() && ckeys_of(rs)[j] == name;
                    if !prior.contains(rs.last().contractor@) {
                        assert(ckeys_of(rs) == prior.push(rs.last().contractor@));
                        assert(j < prior.len());
                        assert(prior[j] == name);
                    }
                }
            }
            assert((exists|i: int| 0 <= i < rs.len() && (#[trigger] rs[i]).contractor@ == name)
                ==> (exists|i: int| 0 <= i < dl.len() && (#[trigger] dl[i]).contractor@
                == name)) by {
                if exists|i: int| 0 <= i < rs.len() && (#[trigger] rs[i]).contractor@ == name {
                    let i = choose|i: int|
                        0 <= i < rs.len() && (#[trigger] rs[i]).contractor@ == name;
                    assert(i < dl.len());
                    assert(dl[i].contractor@ == name);
                }
            }
        }
    }
}

/// A contractor is ranked exactly when it has at least [`MIN_PROJECTS`]
/// records: one with fewer, however many, produces no row.
pub proof fn lemma_ranking_membership(rs: Seq<ProjectRecord>, name: Seq<char>)
    ensures
        qual_keys(rs).contains(name) <==> cgroup_of(rs, name).len() >= MIN_PROJECTS,
{
    lemma_qual_keys(rs, ckeys_of(rs));
    lemma_ckeys_complete(rs, name);
    if qual_keys(rs).contains(name) {
        let i = choose|i: int| 0 <= i < qual_keys(rs).len() && qual_keys(rs)[i] == name;
        assert(cgroup_of(rs, qual_of(rs, ckeys_of(rs))[i]).len() >= MIN_PROJECTS);
    }
    if cgroup_of(rs, name).len() >= MIN_PROJECTS {
        let g = cgroup_of(rs, name);
        lemma_cgroup_of_full(rs, name);
        assert(g.len() > 0);
        assert(ckeys_of(rs).contains(name)) by {
            assert(g[0].contractor@ == name);
            assert(exists|i: int| 0 <= i < rs.len() && (#[trigger] rs[i]).contractor@ == name);
        }
        let j = choose|j: int| 0 <= j < ckeys_of(rs).len() && ckeys_of(rs)[j] == name;
        assert(qual_of(rs, ckeys_of(rs)).contains(ckeys_of(rs)[j]));
    }
}

/// Group members carry the group's name and come from the records.
pub proof fn lemma_cgroup_of_full(rs: Seq<ProjectRecord>, name: Seq<char>)
    ensures
        forall|i: int|
            0 <= i < cgroup_of(rs, name).len() ==> (#[trigger] cgroup_of(rs, name)[i]).contractor@
                == name,
        cgroup_of(rs, name).len() > 0 ==> exists|i: int|
            0 <= i < rs.len() && (#[trigger] rs[i]).contractor@ == name,
    decreases rs.len(),
{
    if rs.len() > 0 {
        let dl = rs.drop_last();
        lemma_cgroup_of_full(dl, name);
        assert(forall|i: int| 0 <= i < dl.len() ==> #[trigger] dl[i] == rs[i]);
        if rs.last().contractor@ == name {
            assert(rs[rs.len() - 1].contractor@ == name);
        } else {
            if cgroup_of(rs, name).len() > 0 {
                assert(cgroup_of(dl, name).len() > 0);
                let i = choose|i: int|
                    0 <= i < dl.len() && (#[trigger] dl[i]).contractor@ == name;
                assert(rs[i].contractor@ == name);
            }
        }
    }
}

/// Every qualifying contractor has at least [`MIN_PROJECTS`] records, and a
/// contractor qualifies exactly when its name is a key with such a group.
pub proof fn lemma_qual_keys(rs: Seq<ProjectRecord>, ks: Seq<Seq<char>>)
    ensures
        forall|i: int|
            0 <= i < qual_of(rs, ks).len() ==> cgroup_of(rs, #[trigger] qual_of(rs, ks)[i]).len()
                >= MIN_PROJECTS,
        forall|i: int|
            0 <= i < qual_of(rs, ks).len() ==> ks.contains(#[trigger] qual_of(rs, ks)[i]),
        forall|j: int|
            0 <= j < ks.len() && cgroup_of(rs, #[trigger] ks[j]).len() >= MIN_PROJECTS ==> qual_of(
                rs,
                ks,
            ).contains(ks[j]),
    decreases ks.len(),
{
    if ks.len() > 0 {
        lemma_qual_keys(rs, ks.drop_last());
        let rest = qual_of(rs, ks.drop_last());
        assert(forall|i: int| 0 <= i < ks.len() - 1 ==> #[trigger] ks.drop_last()[i] == ks[i]);
        assert forall|i: int| 0 <= i < qual_of(rs, ks).len() implies ks.contains(
            #[trigger] qual_of(rs, ks)[i],
        ) by {
            if i < rest.len() {
                assert(rest[i] == qual_of(rs, ks)[i]);
                assert(ks.drop_last().contains(rest[i]));
                let j = choose|j: int|
                    0 <= j < ks.drop_last().len() && ks.drop_last()[j] == rest[i];
                assert(ks[j] == qual_of(rs, ks)[i]);
            } else {
                assert(ks[ks.len() - 1] == qual_of(rs, ks)[i]);
            }
        }
        assert forall|j: int|
            0 <= j < ks.len() && cgroup_of(rs, #[trigger] ks[j]).len()
                >= MIN_PROJECTS implies qual_of(rs, ks).contains(ks[j]) by {
            if j < ks.len() - 1 {
                assert(ks.drop_last()[j] == ks[j]);
                assert(rest.contains(ks[j]));
                let u = choose|u: int| 0 <= u < rest.len() && rest[u] == ks[j];
                assert(qual_of(rs, ks)[u] == ks[j]);
            } else {
                assert(qual_of(rs, ks)[qual_of(rs, ks).len() - 1] == ks[j]);
            }
        }
    }
}

/// The contractor reliability index in centi-points: delay factor times
/// savings ratio, scaled to 100 points and clamped into `[0, 10000]`; zero
/// when the group's total cost is zero.
pub open spec fn reliability_centi_of(g: Seq<ProjectRecord>) -> int {
    if sum_cost(g) == 0 {
        0
    } else {
        clamp_int(
            round_div((9000 - avg_delay_centi(g)) * sum_savings(g) * 10000, 9000 * sum_cost(g)),
            0,
            10000,
        )
    }
}

/// One row of the contractor performance ranking.
pub struct ContractorRankingRow {
    pub contractor: String,
    /// First-seen rank of the contractor among qualifying ones; the
    /// deterministic tie-break of the final order.
    pub group_index: usize,
    pub total_cost_cents: i128,
    pub num_projects: usize,
    pub avg_delay_centi: i64,
    pub total_savings_cents: i128,
    /// Reliability index in centi-points, `0..=10000`.
    pub reliability_centi: i64,
    /// Set exactly when the reliability index is below 50 points.
    pub high_risk: bool,
}

impl ContractorRankingRow {
    /// The row's risk flag as text.
    pub fn risk_label(&self) -> (s: String)
        ensures
            self.high_risk ==> s@ == "High Risk"@,
            !self.high_risk ==> s@ == "Low Risk"@,
    {
        if self.high_risk {
            String::from_str("High Risk")
        } else {
            String::from_str("Low Risk")
        }
    }
}

/// The row carries its contractor's statistics and reliability index.
pub open spec fn crow_matches(rs: Seq<ProjectRecord>, row: ContractorRankingRow) -> bool {
    let ks = qual_keys(rs);
    let gi = row.group_index as int;
    let g = cgroup_of(rs, ks[gi]);
    &&& 0 <= gi < ks.len()
    &&& row.contractor@ == ks[gi]
    &&& row.total_cost_cents == sum_cost(g)
    &&& row.num_projects == g.len()
    &&& row.avg_delay_centi == avg_delay_centi(g)
    &&& row.total_savings_cents == sum_savings(g)
    &&& row.reliability_centi == reliability_centi_of(g)
    &&& row.high_risk == (reliability_centi_of(g) < 5000)
}

/// The strict output order: total cost descending, first-seen rank
/// ascending on ties.
pub open spec fn crow_before(a: ContractorRankingRow, b: ContractorRankingRow) -> bool {
    ||| a.total_cost_cents > b.total_cost_cents
    ||| (a.total_cost_cents == b.total_cost_cents && a.group_index < b.group_index)
}

/// The row outranks the qualifying contractor at position `k`.
pub open spec fn crow_before_key(rs: Seq<ProjectRecord>, row: ContractorRankingRow, k: int) -> bool {
    let ck = sum_cost(cgroup_of(rs, qual_keys(rs)[k]));
    ||| row.total_cost_cents > ck
    ||| (row.total_cost_cents == ck && row.group_index < k)
}

/// Some row carries the qualifying contractor at position `k`.
pub open spec fn chas_row_for(s: Seq<ContractorRankingRow>, k: int) -> bool {
    exists|i: int| 0 <= i < s.len() && (#[trigger] s[i]).group_index == k
}

/// Every row of `s` outranks the qualifying contractor at position `k`.
pub open spec fn ckey_dominated(rs: Seq<ProjectRecord>, s: Seq<ContractorRankingRow>, k: int) -> bool {
    forall|i: int| 0 <= i < s.len() ==> crow_before_key(rs, #[trigger] s[i], k)
}

pub open spec fn cdistinct_indices(s: Seq<ContractorRankingRow>) -> bool {
    forall|i: int, j: int|
        0 <= i < j < s.len() ==> (#[trigger] s[i]).group_index != (#[trigger] s[j]).group_index
}

/// Views of a contractor name list held as strings.
pub open spec fn ckey_views(ks: Seq<String>) -> Seq<Seq<char>> {
    ks.map_values(|s: String| s@)
}

/// Names of the distinct contractors, as strings, in first-seen order.
fn collect_ckeys(records: &Vec<ProjectRecord>) -> (keys: Vec<String>)
    ensures
        ckey_views(keys@) == ckeys_of(records@),
{
    let ghost rs = records@;
    let mut keys: Vec<String> = Vec::new();
    let mut i: usize = 0;
    proof {
        assert(rs.take(0) =~= Seq::<ProjectRecord>::empty());
        assert(ckey_views(keys@) =~= ckeys_of(rs.take(0)));
    }
    while i < records.len()
        invariant
            0 <= i <= rs.len(),
            rs == records@,
            ckey_views(keys@) == ckeys_of(rs.take(i as int)),
        decreases rs.len() - i,
    {
        proof {
            assert(rs.take(i + 1).drop_last() =~= rs.take(i as int));
            assert(rs.take(i + 1).last() == rs[i as int]);
        }
        let r = &records[i];
        let ghost kv = ckey_views(keys@);
        let mut found = false;
        let mut t: usize = 0;
        while t < keys.len() && !found
            invariant
                0 <= t <= keys@.len(),
                rs == records@,
                i < rs.len(),
                r == rs[i as int],
                kv == ckey_views(keys@),
                kv == ckeys_of(rs.take(i as int)),
                !found ==> forall|u: int| 0 <= u < t ==> #[trigger] kv[u] != rs[i as int].contractor@,
                found ==> ckeys_of(rs.take(i as int)).contains(rs[i as int].contractor@),
            decreases keys@.len() - t + if found {
                0int
            } else {
                1int
            },
    {
            proof {
                assert(kv[t as int] == keys@[t as int]@);
            }
            if keys[t] == r.contractor {
                found = true;
            } else {
                t = t + 1;
            }
        }
        if !found {
            proof {
                assert(!ckeys_of(rs.take(i as int)).contains(rs[i as int].contractor@)) by {
                    if ckeys_of(rs.take(i as int)).contains(rs[i as int].contractor@) {
                        let u = choose|u: int|
                            0 <= u < ckeys_of(rs.take(i as int)).len() && ckeys_of(
                                rs.take(i as int),
                            )[u] == rs[i as int].contractor@;
                        assert(kv[u] == rs[i as int].contractor@);
                    }
                }
            }
            keys.push(r.contractor.clone());
            proof {
                assert(ckey_views(keys@) =~= ckeys_of(rs.take(i + 1)));
            }
        } else {
            proof {
                assert(ckey_views(keys@) =~= ckeys_of(rs.take(i + 1)));
            }
        }
        i = i + 1;
    }
    proof {
        assert(rs.take(rs.len() as int) =~= rs);
    }
    keys
}

/// All records of one contractor, in record order.
fn collect_cgroup(records: &Vec<ProjectRecord>, name: &String) -> (members: Vec<ProjectRecord>)
    ensures
        members@ == cgroup_of(records@, name@),
{
    let ghost rs = records@;
    let mut members: Vec<ProjectRecord> = Vec::new();
    let mut i: usize = 0;
    proof {
        assert(rs.take(0) =~= Seq::<ProjectRecord>::empty());
        assert(members@ =~= cgroup_of(rs.take(0), name@));
    }
    while i < records.len()
        invariant
            0 <= i <= rs.len(),
            rs == records@,
            members@ == cgroup_of(rs.take(i as int), name@),
        decreases rs.len() - i,
    {
        proof {
            assert(rs.take(i + 1).drop_last() =~= rs.take(i as int));
            assert(rs.take(i + 1).last() == rs[i as int]);
        }
        let r = &records[i];
        if r.contractor == *name {
            members.push(r.duplicate());
        }
        i = i + 1;
    }
    proof {
        assert(rs.take(rs.len() as int) =~= rs);
    }
    members
}

/// Order the rows: total cost descending, first-seen rank breaking ties
/// (selection sort).
fn sort_crows(input: Vec<ContractorRankingRow>) -> (out: Vec<ContractorRankingRow>)
    requires
        cdistinct_indices(input@),
    ensures
        out@.len() == input@.len(),
        out@.to_multiset() == input@.to_multiset(),
        forall|i: int, j: int|
            0 <= i < j < out@.len() ==> crow_before(#[trigger] out@[i], #[trigger] out@[j]),
{
    let ghost orig = input@;
    let mut rem = input;
    let mut out: Vec<ContractorRankingRow> = Vec::new();
    proof {
        orig.to_multiset_ensures();
        out@.to_multiset_ensures();
        assert(out@.to_multiset().add(rem@.to_multiset()) =~= orig.to_multiset());
    }
    while rem.len() > 0
        invariant
            out@.to_multiset().add(rem@.to_multiset()) =~= orig.to_multiset(),
            out@.len() + rem@.len() == orig.len(),
            cdistinct_indices(rem@),
            forall|i: int, j: int|
                0 <= i < j < out@.len() ==> crow_before(#[trigger] out@[i], #[trigger] out@[j]),
            forall|i: int, j: int|
                0 <= i < out@.len() && 0 <= j < rem@.len() ==> crow_before(
                    #[trigger] out@[i],
                    #[trigger] rem@[j],
                ),
        decreases rem@.len(),
    {
        let mut mi: usize = 0;
        let mut j: usize = 1;
        while j < rem.len()
            invariant
                0 <= mi < rem@.len(),
                1 <= j <= rem@.len(),
                cdistinct_indices(rem@),
                mi < j,
                forall|k: int|
                    0 <= k < j && k != mi ==> crow_before(rem@[mi as int], #[trigger] rem@[k]),
            decreases rem@.len() - j,
        {
            let better = rem[j].total_cost_cents > rem[mi].total_cost_cents || (
            rem[j].total_cost_cents == rem[mi].total_cost_cents && rem[j].group_index
                < rem[mi].group_index);
            if better {
                mi = j;
            } else {
                proof {
                    assert(rem@[mi as int].group_index != rem@[j as int].group_index);
                }
            }
            j = j + 1;
        }
        let ghost rem_before = rem@;
        let ghost out_before = out@;
        let x = rem.remove(mi);
        out.push(x);
        proof {
            rem_before.to_multiset_ensures();
            out_before.to_multiset_ensures();
            assert(rem@.to_multiset() =~= rem_before.to_multiset().remove(x));
            assert(out@.to_multiset() =~= out_before.to_multiset().insert(x));
            assert(rem_before.to_multiset().count(x) > 0) by {
                assert(rem_before[mi as int] == x);
                assert(rem_before.contains(x));
            }
            assert(out@.to_multiset().add(rem@.to_multiset()) =~= orig.to_multiset());
            rem_before.remove_ensures(mi as int);
            assert forall|k: int| 0 <= k < rem@.len() implies crow_before(
                x,
                #[trigger] rem@[k],
            ) by {
                if k < mi {
                    assert(rem@[k] == rem_before[k]);
                } else {
                    assert(rem@[k] == rem_before[k + 1]);
                }
            }
            assert(cdistinct_indices(rem@)) by {
                assert forall|a: int, b: int| 0 <= a < b < rem@.len() implies (
                #[trigger] rem@[a]).group_index != (#[trigger] rem@[b]).group_index by {
                    let a0 = if a < mi {
                        a
                    } else {
                        a + 1
                    };
                    let b0 = if b < mi {
                        b
                    } else {
                        b + 1
                    };
                    assert(rem@[a] == rem_before[a0]);
                    assert(rem@[b] == rem_before[b0]);
                }
            }
        }
    }
    proof {
        assert(rem@ =~= Seq::<ContractorRankingRow>::empty());
        rem@.to_multiset_ensures();
        assert forall|y: ContractorRankingRow|
            out@.to_multiset().add(rem@.to_multiset()).count(y) == out@.to_multiset().count(
                y,
            ) by {
            assert(!rem@.contains(y));
            assert(rem@.to_multiset().count(y) == 0);
        }
        assert(out@.to_multiset().add(rem@.to_multiset()) =~= out@.to_multiset());
    }
    out
}


/// Build the contractor performance ranking: one row per contractor with at
/// least [`MIN_PROJECTS`] records, each carrying its group's statistics and
/// clamped reliability index, ordered by total cost descending with the
/// first-seen rank breaking ties, cut to the first `cap` rows.
pub fn build_contractor_ranking(records: &Vec<ProjectRecord>, cap: usize) -> (rows: Vec<
    ContractorRankingRow,
>)
    requires
        all_wf(records@),
        records@.len() <= MAX_RECORDS,
    ensures
        rows@.len() == if cap < qual_keys(records@).len() {
            cap as int
        } else {
            qual_keys(records@).len() as int
        },
        forall|i: int| 0 <= i < rows@.len() ==> crow_matches(records@, #[trigger] rows@[i]),
        forall|i: int|
            0 <= i < rows@.len() ==> (#[trigger] rows@[i]).num_projects >= MIN_PROJECTS,
        forall|i: int|
            0 <= i < rows@.len() ==> 0 <= (#[trigger] rows@[i]).reliability_centi <= 10000,
        forall|i: int, j: int|
            0 <= i < j < rows@.len() ==> crow_before(#[trigger] rows@[i], #[trigger] rows@[j]),
        forall|k: int|
            0 <= k < qual_keys(records@).len() ==> #[trigger] chas_row_for(rows@, k)
                || ckey_dominated(records@, rows@, k),
{
    let ghost rs = records@;
    let ckeys = collect_ckeys(records);
    let ghost allk = ckeys_of(rs);
    // qualifying contractors, in first-seen order
    let mut qkeys: Vec<String> = Vec::new();
    let mut t: usize = 0;
    proof {
        assert(allk.take(0) =~= Seq::<Seq<char>>::empty());
        assert(ckey_views(qkeys@) =~= qual_of(rs, allk.take(0)));
    }
    while t < ckeys.len()
        invariant
            0 <= t <= ckeys@.len(),
            rs == records@,
            ckey_views(ckeys@) == allk,
            allk == ckeys_of(rs),
            ckeys@.len() == allk.len(),
            ckey_views(qkeys@) == qual_of(rs, allk.take(t as int)),
        decreases ckeys@.len() - t,
    {
        proof {
            assert(allk.take(t + 1).drop_last() =~= allk.take(t as int));
            assert(allk.take(t + 1).last() == allk[t as int]);
            assert(ckey_views(ckeys@)[t as int] == ckeys@[t as int]@);
        }
        let g = collect_cgroup(records, &ckeys[t]);
        if g.len() >= MIN_PROJECTS {
            qkeys.push(ckeys[t].clone());
            proof {
                assert(ckey_views(qkeys@) =~= qual_of(rs, allk.take(t + 1)));
            }
        } else {
            proof {
                assert(ckey_views(qkeys@) =~= qual_of(rs, allk.take(t + 1)));
            }
        }
        t = t + 1;
    }
    proof {
        assert(allk.take(allk.len() as int) =~= allk);
        assert(ckey_views(qkeys@) == qual_keys(rs));
    }
    // one scored row per qualifying contractor
    let mut work: Vec<ContractorRankingRow> = Vec::new();
    let m = qkeys.len();
    let mut gi: usize = 0;
    while gi < m
        invariant
            0 <= gi <= m,
            rs == records@,
            all_wf(rs),
            rs.len() <= MAX_RECORDS,
            m == qkeys@.len(),
            ckey_views(qkeys@) == qual_keys(rs),
            work@.len() == gi,
            forall|u: int| 0 <= u < gi ==> crow_matches(rs, #[trigger] work@[u]),
            forall|u: int| 0 <= u < gi ==> (#[trigger] work@[u]).group_index == u,
            forall|u: int|
                0 <= u < gi ==> (#[trigger] work@[u]).num_projects >= MIN_PROJECTS,
            forall|u: int|
                0 <= u < gi ==> 0 <= (#[trigger] work@[u]).reliability_centi <= 10000,
        decreases m - gi,
    {
        proof {
            assert(ckey_views(qkeys@)[gi as int] == qkeys@[gi as int]@);
        }
        let members = collect_cgroup(records, &qkeys[gi]);
        let ghost k = qual_keys(rs)[gi as int];
        let ghost g = cgroup_of(rs, k);
        proof {
            assert(members@ == g);
            lemma_cgroup_of_wf(rs, k);
            lemma_qual_keys(rs, ckeys_of(rs));
        }
        let st = group_stats(&members);
        let rel: i64 = if st.total_cost == 0 {
            0
        } else {
            proof {
                crate::stats::lemma_sum_bounds(g);
                assert(g.len() * AMOUNT_CENTS_MAX <= MAX_RECORDS
                    * AMOUNT_CENTS_MAX) by (nonlinear_arith)
                    requires
                        0 <= g.len() <= MAX_RECORDS,
                ;
                lemma_abs_mul_le(
                    9000 - st.avg_delay_centi as int,
                    sum_savings(g),
                    9000 + AVG_DELAY_CENTI_MAX as int,
                    MAX_RECORDS as int * AMOUNT_CENTS_MAX as int,
                );
            }
            let factor: i128 = 9000 - (st.avg_delay_centi as i128);
            let num = factor * st.total_savings * 10000;
            let den = 9000 * st.total_cost;
            let sc = div_round_i128(num, den);
            let c = if sc < 0 {
                0
            } else if sc > 10000 {
                10000
            } else {
                sc
            };
            proof {
                assert(c == reliability_centi_of(g));
            }
            c as i64
        };
        work.push(
            ContractorRankingRow {
                contractor: qkeys[gi].clone(),
                group_index: gi,
                total_cost_cents: st.total_cost,
                num_projects: st.num,
                avg_delay_centi: st.avg_delay_centi,
                total_savings_cents: st.total_savings,
                reliability_centi: rel,
                high_risk: rel < 5000,
            },
        );
        gi = gi + 1;
    }
    proof {
        assert(cdistinct_indices(work@));
    }
    let mut sorted = sort_crows(work);
    let ghost pre = sorted@;
    let n = if cap < sorted.len() {
        cap
    } else {
        sorted.len()
    };
    sorted.truncate(n);
    proof {
        assert(sorted@ == pre.subrange(0, n as int));
    }
    let rows = sorted;
    proof {
        let ws = work@;
        ws.to_multiset_ensures();
        pre.to_multiset_ensures();
        // every sorted row is one of the built rows
        assert forall|u: int| 0 <= u < pre.len() implies crow_matches(rs, #[trigger] pre[u])
            && pre[u].num_projects >= MIN_PROJECTS && 0 <= pre[u].reliability_centi
            <= 10000 by {
            assert(pre.contains(pre[u]));
            assert(ws.to_multiset().count(pre[u]) > 0);
            assert(ws.contains(pre[u]));
            let j = choose|j: int| 0 <= j < ws.len() && ws[j] == pre[u];
            assert(crow_matches(rs, ws[j]));
        }
        assert forall|k: int| 0 <= k < qual_keys(rs).len() implies #[trigger] chas_row_for(
            rows@,
            k,
        ) || ckey_dominated(rs, rows@, k) by {
            // the full ranking has a row for k
            assert(ws[k].group_index == k);
            assert(ws.contains(ws[k]));
            assert(pre.to_multiset().count(ws[k]) > 0);
            assert(pre.contains(ws[k]));
            let u = choose|u: int| 0 <= u < pre.len() && pre[u] == ws[k];
            if u < n {
                assert(rows@[u].group_index == k);
                assert(chas_row_for(rows@, k));
            } else {
                assert forall|i: int| 0 <= i < rows@.len() implies crow_before_key(
                    rs,
                    #[trigger] rows@[i],
                    k,
                ) by {
                    assert(rows@[i] == pre[i]);
                    assert(crow_before(pre[i], pre[u]));
                    assert(crow_matches(rs, pre[u]));
                }
            }
        }
    }
    rows
}

} // verus!
