//! The record store: validated project records and the loader that fills it
//! from raw rows.
//!
//! A raw row is the text fields of one source line (`None` for a line that
//! could not be read at all).  The loader classifies every row — rejected
//! with an error, silently skipped for an out-of-scope funding year, or
//! accepted — and appends the accepted records.  Loads accumulate: a second
//! load appends to the records already held.

use vstd::prelude::*;
use vstd::string::StringSliceAdditionalSpecFns;
use vstd::string::StringExecFns;
use vstd::utf8::encode_utf8;
use crate::dates::{Date, spec_delay, spec_parse_date, parse_date, delay_days, DAY_INDEX_MAX};
use crate::parse::{
    spec_year_reading, parse_year, YearReading, spec_parse_amount, parse_amount, AMOUNT_CENTS_MAX,
};

verus! {

/// Capacity of the store; loads must stay within it so that every report
/// quantity fits the engine's 128-bit arithmetic.
pub const MAX_RECORDS: usize = 10_000_000;

/// One validated flood-mitigation project.
pub struct ProjectRecord {
    pub region: String,
    pub main_island: String,
    /// Empty exactly when the source had no `Contractor` column.
    pub contractor: String,
    pub approved_budget_cents: i64,
    pub contract_cost_cents: i64,
    pub start: Date,
    pub completion: Date,
    pub funding_year: i64,
}

/// The mathematical content of a record.
pub struct RecordV {
    pub region: Seq<char>,
    pub main_island: Seq<char>,
    pub contractor: Seq<char>,
    pub approved_budget_cents: int,
    pub contract_cost_cents: int,
    pub start: Date,
    pub completion: Date,
    pub funding_year: int,
}

impl View for ProjectRecord {
    type V = RecordV;

    open spec fn view(&self) -> RecordV {
        RecordV {
            region: self.region@,
            main_island: self.main_island@,
            contractor: self.contractor@,
            approved_budget_cents: self.approved_budget_cents as int,
            contract_cost_cents: self.contract_cost_cents as int,
            start: self.start,
            completion: self.completion,
            funding_year: self.funding_year as int,
        }
    }
}

impl ProjectRecord {
    /// Every stored record has passed validation.
    pub open spec fn wf(self) -> bool {
        &&& self.region@.len() > 0
        &&& self.main_island@.len() > 0
        &&& 0 <= self.approved_budget_cents <= AMOUNT_CENTS_MAX
        &&& 0 <= self.contract_cost_cents <= AMOUNT_CENTS_MAX
        &&& self.start.wf()
        &&& self.completion.wf()
        &&& 2021 <= self.funding_year <= 2023
    }

    /// Approved budget minus contract cost, in cents; may be negative.
    pub open spec fn savings(self) -> int {
        self.approved_budget_cents - self.contract_cost_cents
    }

    /// Completion delay in days, clamped at zero.
    pub open spec fn delay(self) -> int {
        spec_delay(self.start, self.completion)
    }

    /// Grouping key of the regional summary.
    pub open spec fn key(self) -> (Seq<char>, Seq<char>) {
        (self.region@, self.main_island@)
    }

    pub fn delay_days(&self) -> (d: u32)
        requires
            self.wf(),
        ensures
            d == self.delay(),
            d <= DAY_INDEX_MAX,
    {
        delay_days(&self.start, &self.completion)
    }

    /// A field-for-field copy.
    pub fn duplicate(&self) -> (r: ProjectRecord)
        ensures
            r == *self,
    {
        ProjectRecord {
            region: self.region.clone(),
            main_island: self.main_island.clone(),
            contractor: self.contractor.clone(),
            approved_budget_cents: self.approved_budget_cents,
            contract_cost_cents: self.contract_cost_cents,
            start: self.start,
            completion: self.completion,
            funding_year: self.funding_year,
        }
    }
}

/// First position of `name` among the headers.
pub open spec fn col_index(hs: Seq<Seq<char>>, name: Seq<char>) -> Option<int>
    decreases hs.len(),
{
    if hs.len() == 0 {
        None
    } else if hs[0] == name {
        Some(0int)
    } else {
        match col_index(hs.drop_first(), name) {
            Some(i) => Some(i + 1),
            None => None,
        }
    }
}

pub proof fn lemma_col_index_char(hs: Seq<Seq<char>>, name: Seq<char>)
    ensures
        match col_index(hs, name) {
            Some(i) => 0 <= i < hs.len() && hs[i] == name && (forall|j: int|
                0 <= j < i ==> #[trigger] hs[j] != name),
            None => forall|j: int| 0 <= j < hs.len() ==> #[trigger] hs[j] != name,
        },
    decreases hs.len(),
{
    if hs.len() > 0 && hs[0] != name {
        lemma_col_index_char(hs.drop_first(), name);
        assert(forall|j: int| 1 <= j < hs.len() ==> #[trigger] hs[j] == hs.drop_first()[j - 1]);
    }
}

/// Positions of the recognised columns among the headers.
pub struct ColIdx {
    pub funding_year: Option<int>,
    pub region: Option<int>,
    pub main_island: Option<int>,
    pub contractor: Option<int>,
    pub budget: Option<int>,
    pub cost: Option<int>,
    pub start: Option<int>,
    pub completion: Option<int>,
}

pub open spec fn cols_of(hs: Seq<Seq<char>>) -> ColIdx {
    ColIdx {
        funding_year: col_index(hs, "FundingYear"@),
        region: col_index(hs, "Region"@),
        main_island: col_index(hs, "MainIsland"@),
        contractor: col_index(hs, "Contractor"@),
        budget: col_index(hs, "ApprovedBudgetForContract"@),
        cost: col_index(hs, "ContractCost"@),
        start: col_index(hs, "StartDate"@),
        completion: col_index(hs, "ActualCompletionDate"@),
    }
}

/// Executable column positions.
pub struct Cols {
    pub funding_year: Option<usize>,
    pub region: Option<usize>,
    pub main_island: Option<usize>,
    pub contractor: Option<usize>,
    pub budget: Option<usize>,
    pub cost: Option<usize>,
    pub start: Option<usize>,
    pub completion: Option<usize>,
}

pub open spec fn opt_int(o: Option<usize>) -> Option<int> {
    match o {
        Some(i) => Some(i as int),
        None => None,
    }
}

impl View for Cols {
    type V = ColIdx;

    open spec fn view(&self) -> ColIdx {
        ColIdx {
            funding_year: opt_int(self.funding_year),
            region: opt_int(self.region),
            main_island: opt_int(self.main_island),
            contractor: opt_int(self.contractor),
            budget: opt_int(self.budget),
            cost: opt_int(self.cost),
            start: opt_int(self.start),
            completion: opt_int(self.completion),
        }
    }
}

fn find_col(headers: &Vec<String>, name: &String) -> (r: Option<usize>)
    ensures
        opt_int(r) == col_index(headers.deep_view(), name@),
{
    let ghost hs = headers.deep_view();
    let mut i: usize = 0;
    while i < headers.len()
        invariant
            0 <= i <= headers@.len(),
            hs == headers.deep_view(),
            hs.len() == headers@.len(),
            forall|j: int| 0 <= j < i ==> #[trigger] hs[j] != name@,
        decreases headers@.len() - i,
    {
        proof {
            assert(hs[i as int] == headers@[i as int]@);
        }
        if headers[i] == *name {
            proof {
                lemma_col_index_char(hs, name@);
            }
            return Some(i);
        }
        i = i + 1;
    }
    proof {
        lemma_col_index_char(hs, name@);
    }
    None
}

/// Find every recognised column.
pub fn find_cols(headers: &Vec<String>) -> (c: Cols)
    ensures
        c@ == cols_of(headers.deep_view()),
{
    Cols {
        funding_year: find_col(headers, &String::from_str("FundingYear")),
        region: find_col(headers, &String::from_str("Region")),
        main_island: find_col(headers, &String::from_str("MainIsland")),
        contractor: find_col(headers, &String::from_str("Contractor")),
        budget: find_col(headers, &String::from_str("ApprovedBudgetForContract")),
        cost: find_col(headers, &String::from_str("ContractCost")),
        start: find_col(headers, &String::from_str("StartDate")),
        completion: find_col(headers, &String::from_str("ActualCompletionDate")),
    }
}

/// The text of a row's field at a column position, if both exist.
pub open spec fn field_at(row: Seq<Seq<char>>, idx: Option<int>) -> Option<Seq<char>> {
    match idx {
        Some(i) => if 0 <= i < row.len() {
            Some(row[i])
        } else {
            None
        },
        None => None,
    }
}

/// How the loader treats one raw row.
pub enum RowOutcomeV {
    /// A validation error: counted.
    Rejected,
    /// Funding year out of scope: not stored, not counted as an error.
    Skipped,
    /// Stored.
    Accepted(RecordV),
}

/// Classification of one raw row against the column positions.
pub open spec fn row_outcome(c: ColIdx, row: Option<Seq<Seq<char>>>) -> RowOutcomeV {
    match row {
        None => RowOutcomeV::Rejected,
        Some(f) => match field_at(f, c.funding_year) {
            None => RowOutcomeV::Rejected,
            Some(fy) => match spec_year_reading(encode_utf8(fy)) {
                YearReading::Invalid => RowOutcomeV::Rejected,
                YearReading::OutOfRange => RowOutcomeV::Skipped,
                YearReading::InRange(y) => row_fields_outcome(c, f, y as int),
            },
        },
    }
}

/// Validation of the remaining fields, once the funding year is in scope.
pub open spec fn row_fields_outcome(c: ColIdx, f: Seq<Seq<char>>, year: int) -> RowOutcomeV {
    let region = field_at(f, c.region);
    let island = field_at(f, c.main_island);
    let contractor = field_at(f, c.contractor);
    let budget = field_at(f, c.budget);
    let cost = field_at(f, c.cost);
    let start = field_at(f, c.start);
    let completion = field_at(f, c.completion);
    if {
        &&& region matches Some(r) && r.len() > 0
        &&& island matches Some(m) && m.len() > 0
        &&& (c.contractor is None || (contractor matches Some(t) && t.len() > 0))
        &&& budget matches Some(b) && spec_parse_amount(encode_utf8(b)) is Some
        &&& cost matches Some(t) && spec_parse_amount(encode_utf8(t)) is Some
        &&& start matches Some(s) && spec_parse_date(encode_utf8(s)) is Some
        &&& completion matches Some(e) && spec_parse_date(encode_utf8(e)) is Some
    } {
        RowOutcomeV::Accepted(
            RecordV {
                region: region->0,
                main_island: island->0,
                contractor: if c.contractor is None {
                    Seq::empty()
                } else {
                    contractor->0
                },
                approved_budget_cents: spec_parse_amount(encode_utf8(budget->0))->0 as int,
                contract_cost_cents: spec_parse_amount(encode_utf8(cost->0))->0 as int,
                start: spec_parse_date(encode_utf8(start->0))->0,
                completion: spec_parse_date(encode_utf8(completion->0))->0,
                funding_year: year,
            },
        )
    } else {
        RowOutcomeV::Rejected
    }
}

/// The records the loader accepts, in row order.
pub open spec fn accepted_records(c: ColIdx, rows: Seq<Option<Seq<Seq<char>>>>) -> Seq<RecordV>
    decreases rows.len(),
{
    if rows.len() == 0 {
        Seq::empty()
    } else {
        let rest = accepted_records(c, rows.drop_last());
        match row_outcome(c, rows.last()) {
            RowOutcomeV::Accepted(v) => rest.push(v),
            _ => rest,
        }
    }
}

/// How many rows the loader rejects.
pub open spec fn rejected_count(c: ColIdx, rows: Seq<Option<Seq<Seq<char>>>>) -> int
    decreases rows.len(),
{
    if rows.len() == 0 {
        0
    } else {
        rejected_count(c, rows.drop_last()) + if row_outcome(c, rows.last()) is Rejected {
            1int
        } else {
            0int
        }
    }
}

/// Executable row outcome.
pub enum RowOutcome {
    Rejected,
    Skipped,
    Accepted(ProjectRecord),
}

fn get_field<'a>(f: &'a Vec<String>, idx: &Option<usize>) -> (r: Option<&'a String>)
    ensures
        match r {
            Some(s) => field_at(f.deep_view(), opt_int(*idx)) == Some(s@),
            None => field_at(f.deep_view(), opt_int(*idx)) is None,
        },
{
    match idx {
        None => None,
        Some(i) => {
            if *i < f.len() {
                proof {
                    assert(f.deep_view()[*i as int] == f@[*i as int]@);
                }
                Some(&f[*i])
            } else {
                None
            }
        },
    }
}

/// Validate one raw row.
pub fn validate_row(cols: &Cols, row: &Option<Vec<String>>) -> (r: RowOutcome)
    ensures
        (r is Rejected) == (row_outcome(cols@, row.deep_view()) is Rejected),
        (r is Skipped) == (row_outcome(cols@, row.deep_view()) is Skipped),
        r matches RowOutcome::Accepted(rec) ==> row_outcome(cols@, row.deep_view())
            matches RowOutcomeV::Accepted(v) && rec@ == v && rec.wf(),
{
    let f = match row {
        None => {
            return RowOutcome::Rejected;
        },
        Some(f) => f,
    };
    let fy_txt = match get_field(f, &cols.funding_year) {
        None => {
            return RowOutcome::Rejected;
        },
        Some(s) => s,
    };
    let year: i64 = match parse_year(fy_txt.as_str()) {
        YearReading::Invalid => {
            return RowOutcome::Rejected;
        },
        YearReading::OutOfRange => {
            return RowOutcome::Skipped;
        },
        YearReading::InRange(y) => y,
    };
    let region_txt = match get_field(f, &cols.region) {
        None => {
            return RowOutcome::Rejected;
        },
        Some(s) => s,
    };
    if region_txt.as_str().is_empty() {
        return RowOutcome::Rejected;
    }
    let island_txt = match get_field(f, &cols.main_island) {
        None => {
            return RowOutcome::Rejected;
        },
        Some(s) => s,
    };
    if island_txt.as_str().is_empty() {
        return RowOutcome::Rejected;
    }
    let contractor: String = match &cols.contractor {
        None => String::new(),
        Some(_) => {
            match get_field(f, &cols.contractor) {
                None => {
                    return RowOutcome::Rejected;
                },
                Some(s) => {
                    if s.as_str().is_empty() {
                        return RowOutcome::Rejected;
                    }
                    s.clone()
                },
            }
        },
    };
    let budget_txt = match get_field(f, &cols.budget) {
        None => {
            return RowOutcome::Rejected;
        },
        Some(s) => s,
    };
    let budget: i64 = match parse_amount(budget_txt.as_str()) {
        None => {
            return RowOutcome::Rejected;
        },
        Some(v) => v,
    };
    let cost_txt = match get_field(f, &cols.cost) {
        None => {
            return RowOutcome::Rejected;
        },
        Some(s) => s,
    };
    let cost: i64 = match parse_amount(cost_txt.as_str()) {
        None => {
            return RowOutcome::Rejected;
        },
        Some(v) => v,
    };
    let start_txt = match get_field(f, &cols.start) {
        None => {
            return RowOutcome::Rejected;
        },
        Some(s) => s,
    };
    let start: Date = match parse_date(start_txt.as_str()) {
        None => {
            return RowOutcome::Rejected;
        },
        Some(d) => d,
    };
    let completion_txt = match get_field(f, &cols.completion) {
        None => {
            return RowOutcome::Rejected;
        },
        Some(s) => s,
    };
    let completion: Date = match parse_date(completion_txt.as_str()) {
        None => {
            return RowOutcome::Rejected;
        },
        Some(d) => d,
    };
    RowOutcome::Accepted(
        ProjectRecord {
            region: region_txt.clone(),
            main_island: island_txt.clone(),
            contractor,
            approved_budget_cents: budget,
            contract_cost_cents: cost,
            start,
            completion,
            funding_year: year,
        },
    )
}

/// What one load reports back.
#[derive(Clone, Copy, PartialEq, Eq, Structural, Debug)]
pub struct LoadReport {
    /// Raw rows seen.
    pub total_rows: usize,
    /// Rows accepted into the store.
    pub filtered_rows: usize,
    /// Rows rejected by validation.
    pub error_count: usize,
}

/// The session's validated records.
pub struct RecordStore {
    records: Vec<ProjectRecord>,
}

impl View for RecordStore {
    type V = Seq<ProjectRecord>;

    closed spec fn view(&self) -> Seq<ProjectRecord> {
        self.records@
    }
}

impl RecordStore {
    /// Every held record is validated, and the store is within capacity.
    pub open spec fn inv(self) -> bool {
        &&& forall|i: int| 0 <= i < self@.len() ==> (#[trigger] self@[i]).wf()
        &&& self@.len() <= MAX_RECORDS
    }

    pub fn new() -> (s: RecordStore)
        ensures
            s@ == Seq::<ProjectRecord>::empty(),
            s.inv(),
    {
        RecordStore { records: Vec::new() }
    }

    pub fn len(&self) -> (n: usize)
        ensures
            n == self@.len(),
    {
        self.records.len()
    }

    pub fn is_empty(&self) -> (b: bool)
        ensures
            b == (self@.len() == 0),
    {
        self.records.len() == 0
    }

    /// Borrow the records for report generation.
    pub fn records(&self) -> (r: &Vec<ProjectRecord>)
        ensures
            r@ == self@,
    {
        &self.records
    }

    /// Append one validated record.
    pub fn add_record(&mut self, r: ProjectRecord)
        requires
            old(self).inv(),
            r.wf(),
            old(self)@.len() < MAX_RECORDS,
        ensures
            final(self).inv(),
            final(self)@ == old(self)@.push(r),
    {
        self.records.push(r);
    }

    /// Validate raw rows and append the accepted records.
    ///
    /// Reports the rows seen, the rows accepted, and the rows rejected;
    /// rows whose funding year is an integer out of scope are neither.
    pub fn load_rows(
        &mut self,
        headers: &Vec<String>,
        rows: &Vec<Option<Vec<String>>>,
    ) -> (report: LoadReport)
        requires
            old(self).inv(),
            old(self)@.len() + rows@.len() <= MAX_RECORDS,
        ensures
            final(self).inv(),
            ({
                let c = cols_of(headers.deep_view());
                let acc = accepted_records(c, rows.deep_view());
                &&& final(self)@.len() == old(self)@.len() + acc.len()
                &&& forall|j: int| 0 <= j < old(self)@.len() ==> final(self)@[j] == old(self)@[j]
                &&& forall|j: int|
                    0 <= j < acc.len() ==> (#[trigger] final(self)@[old(self)@.len() + j])@
                        == acc[j]
                &&& report.total_rows == rows@.len()
                &&& report.filtered_rows == acc.len()
                &&& report.error_count == rejected_count(c, rows.deep_view())
            }),
    {
        let cols = find_cols(headers);
        let ghost c = cols_of(headers.deep_view());
        let ghost rseq = rows.deep_view();
        let ghost n0 = self@.len();
        let mut filtered: usize = 0;
        let mut errors: usize = 0;
        let mut i: usize = 0;
        proof {
            assert(rseq.take(0) =~= Seq::<Option<Seq<Seq<char>>>>::empty());
        }
        while i < rows.len()
            invariant
                0 <= i <= rows@.len(),
                cols@ == c,
                rseq == rows.deep_view(),
                rseq.len() == rows@.len(),
                n0 + rows@.len() <= MAX_RECORDS,
                self.inv(),
                n0 == old(self)@.len(),
                self@.len() == n0 + accepted_records(c, rseq.take(i as int)).len(),
                forall|j: int| 0 <= j < n0 ==> self@[j] == old(self)@[j],
                forall|j: int|
                    0 <= j < accepted_records(c, rseq.take(i as int)).len() ==> (
                    #[trigger] self@[n0 + j])@ == accepted_records(c, rseq.take(i as int))[j],
                filtered == accepted_records(c, rseq.take(i as int)).len(),
                errors == rejected_count(c, rseq.take(i as int)),
                errors + filtered <= i,
            decreases rows@.len() - i,
        {
            let ghost prev = rseq.take(i as int);
            proof {
                assert(rseq.take(i + 1).drop_last() =~= prev);
                assert(rseq.take(i + 1).last() == rseq[i as int]);
                assert(rseq[i as int] == rows@[i as int].deep_view());
            }
            let outcome = validate_row(&cols, &rows[i]);
            match outcome {
                RowOutcome::Rejected => {
                    errors = errors + 1;
                },
                RowOutcome::Skipped => {},
                RowOutcome::Accepted(rec) => {
                    self.records.push(rec);
                    filtered = filtered + 1;
                },
            }
            i = i + 1;
        }
        proof {
            assert(rseq.take(rows@.len() as int) =~= rseq);
        }
        LoadReport { total_rows: rows.len(), filtered_rows: filtered, error_count: errors }
    }
}

/// A load with only valid rows accepts them all: the filtered count equals
/// the total count and no error is reported.
pub proof fn lemma_clean_load(c: ColIdx, rows: Seq<Option<Seq<Seq<char>>>>)
    requires
        forall|i: int| 0 <= i < rows.len() ==> row_outcome(c, #[trigger] rows[i]) is Accepted,
    ensures
        accepted_records(c, rows).len() == rows.len(),
        rejected_count(c, rows) == 0,
    decreases rows.len(),
{
    if rows.len() > 0 {
        assert(forall|i: int|
            0 <= i < rows.drop_last().len() ==> rows.drop_last()[i] == rows[i]);
        lemma_clean_load(c, rows.drop_last());
    }
}

} // verus!
