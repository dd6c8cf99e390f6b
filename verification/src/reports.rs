//! Report generation over the record store: both tables are recomputed in
//! full from the current records, and nothing is produced while the store
//! is empty.

use vstd::prelude::*;
use crate::contractor::{
    build_contractor_ranking, chas_row_for, ckey_dominated, crow_before, crow_matches, qual_keys,
    ContractorRankingRow, MIN_PROJECTS,
};
use crate::regional::{
    build_regional_summary, has_row_for, keys_of, row_before, row_matches, RegionalSummaryRow,
};
use crate::store::RecordStore;

verus! {

/// The two report tables of one generation run.
pub struct Reports {
    pub regional: Vec<RegionalSummaryRow>,
    pub ranking: Vec<ContractorRankingRow>,
}

/// Generate both reports from the store's current records, or nothing at
/// all when no records are loaded.
pub fn generate_reports(store: &RecordStore, cap: usize) -> (r: Option<Reports>)
    requires
        store.inv(),
    ensures
        (r is Some) == (store@.len() > 0),
        r matches Some(rep) ==> {
            &&& rep.regional@.len() == keys_of(store@).len()
            &&& forall|i: int|
                0 <= i < rep.regional@.len() ==> row_matches(store@, #[trigger] rep.regional@[i])
            &&& forall|i: int|
                0 <= i < rep.regional@.len() ==> 0 <= (
                #[trigger] rep.regional@[i]).efficiency_centi <= 10000
            &&& forall|i: int, j: int|
                0 <= i < j < rep.regional@.len() ==> row_before(
                    #[trigger] rep.regional@[i],
                    #[trigger] rep.regional@[j],
                )
            &&& forall|k: int|
                0 <= k < keys_of(store@).len() ==> #[trigger] has_row_for(rep.regional@, k)
            &&& rep.ranking@.len() == if cap < qual_keys(store@).len() {
                cap as int
            } else {
                qual_keys(store@).len() as int
            }
            &&& forall|i: int|
                0 <= i < rep.ranking@.len() ==> crow_matches(store@, #[trigger] rep.ranking@[i])
            &&& forall|i: int|
                0 <= i < rep.ranking@.len() ==> (#[trigger] rep.ranking@[i]).num_projects
                    >= MIN_PROJECTS
            &&& forall|i: int|
                0 <= i < rep.ranking@.len() ==> 0 <= (
                #[trigger] rep.ranking@[i]).reliability_centi <= 10000
            &&& forall|i: int, j: int|
                0 <= i < j < rep.ranking@.len() ==> crow_before(
                    #[trigger] rep.ranking@[i],
                    #[trigger] rep.ranking@[j],
                )
            &&& forall|k: int|
                0 <= k < qual_keys(store@).len() ==> #[trigger] chas_row_for(rep.ranking@, k)
                    || ckey_dominated(store@, rep.ranking@, k)
        },
{
    if store.is_empty() {
        return None;
    }
    let records = store.records();
    let regional = build_regional_summary(records);
    let ranking = build_contractor_ranking(records, cap);
    Some(Reports { regional, ranking })
}

} // verus!
