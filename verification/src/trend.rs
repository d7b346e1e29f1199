//! Latest-vs-previous trend summaries: for a (county, pathogen target)
//! filter, the most recent matching record, the one immediately preceding
//! it, and their exact concentration difference. "No data" (no match at
//! all) is reported distinctly from "no prior data" (one match, nothing to
//! compare against).

use vstd::prelude::*;

use crate::date::date_le;
use crate::db::{SampleStore, SampleView, WasteWaterSample};
use crate::decimal::{self, spec_sub, Decimal};
use crate::text::str_eq;

verus! {

/// Whether a record matches the (county, pathogen target) filter: exact
/// string equality, no normalization.
pub open spec fn matches_filter(s: SampleView, county: Seq<char>, target: Seq<char>) -> bool {
    s.county == county && s.pcr_pathogen_target == target
}

/// The index of the most recent matching record among the first `n`,
/// scanning left to right and replacing the candidate only on a strictly
/// later date — so equal dates deterministically keep the earliest-stored
/// record.
pub open spec fn best_match(
    tbl: Seq<SampleView>,
    county: Seq<char>,
    target: Seq<char>,
    n: int,
) -> Option<int>
    decreases n,
{
    if n <= 0 {
        None
    } else {
        let prev = best_match(tbl, county, target, n - 1);
        if matches_filter(tbl[n - 1], county, target) {
            match prev {
                None => Some(n - 1),
                Some(b) => if tbl[n - 1].sample_collection_date.key()
                    > tbl[b].sample_collection_date.key() {
                    Some(n - 1)
                } else {
                    Some(b)
                },
            }
        } else {
            prev
        }
    }
}

/// `best_match`, skipping the record at index `excl`: the most recent
/// match among the others.
pub open spec fn best_match_except(
    tbl: Seq<SampleView>,
    county: Seq<char>,
    target: Seq<char>,
    n: int,
    excl: int,
) -> Option<int>
    decreases n,
{
    if n <= 0 {
        None
    } else {
        let prev = best_match_except(tbl, county, target, n - 1, excl);
        if n - 1 != excl && matches_filter(tbl[n - 1], county, target) {
            match prev {
                None => Some(n - 1),
                Some(b) => if tbl[n - 1].sample_collection_date.key()
                    > tbl[b].sample_collection_date.key() {
                    Some(n - 1)
                } else {
                    Some(b)
                },
            }
        } else {
            prev
        }
    }
}

/// `best_match` names a matching record whose date no other match
/// exceeds; `None` means no record matches.
pub proof fn lemma_best_match(tbl: Seq<SampleView>, county: Seq<char>, target: Seq<char>, n: int)
    requires
        n <= tbl.len(),
    ensures
        match best_match(tbl, county, target, n) {
            Some(b) => 0 <= b < n && matches_filter(tbl[b], county, target) && forall|j: int|
                0 <= j < n && matches_filter(#[trigger] tbl[j], county, target)
                    ==> tbl[j].sample_collection_date.key()
                    <= tbl[b].sample_collection_date.key(),
            None => forall|j: int|
                0 <= j < n ==> !matches_filter(#[trigger] tbl[j], county, target),
        },
    decreases n,
{
    if n > 0 {
        lemma_best_match(tbl, county, target, n - 1);
    }
}

/// `best_match_except` names a matching record other than `excl` whose
/// date no other such match exceeds; `None` means no other record matches.
pub proof fn lemma_best_match_except(
    tbl: Seq<SampleView>,
    county: Seq<char>,
    target: Seq<char>,
    n: int,
    excl: int,
)
    requires
        n <= tbl.len(),
    ensures
        match best_match_except(tbl, county, target, n, excl) {
            Some(b) => 0 <= b < n && b != excl && matches_filter(tbl[b], county, target)
                && forall|j: int|
                0 <= j < n && j != excl && matches_filter(#[trigger] tbl[j], county, target)
                    ==> tbl[j].sample_collection_date.key()
                    <= tbl[b].sample_collection_date.key(),
            None => forall|j: int|
                0 <= j < n && j != excl ==> !matches_filter(#[trigger] tbl[j], county, target),
        },
    decreases n,
{
    if n > 0 {
        lemma_best_match_except(tbl, county, target, n - 1, excl);
    }
}

/// The outcome of a trend query for one (county, pathogen target) pair.
#[derive(Debug)]
pub enum TrendResult {
    /// No stored record matches the filter.
    NoData,
    /// Exactly one record matches: there is a latest value but no prior
    /// one to compare against, so no difference.
    NoPrior { latest: WasteWaterSample },
    /// At least two records match: the most recent one, the immediately
    /// preceding one, and the exact difference latest − previous of their
    /// normalized concentrations.
    Trend { latest: WasteWaterSample, previous: WasteWaterSample, difference: Decimal },
}

/// A field-for-field copy of a record.
pub fn clone_sample(s: &WasteWaterSample) -> (r: WasteWaterSample)
    ensures
        r@ == s@,
{
    WasteWaterSample {
        sample_collection_date: s.sample_collection_date,
        site_name: s.site_name.clone(),
        county: s.county.clone(),
        pcr_pathogen_target: s.pcr_pathogen_target.clone(),
        pcr_gene_target: s.pcr_gene_target.clone(),
        normalized_pathogen_concentration: s.normalized_pathogen_concentration,
        date_updated: s.date_updated,
        poll_timestamp: s.poll_timestamp,
    }
}

/// Whether `s` matches the filter, as executable code.
fn matches_filter_exec(s: &WasteWaterSample, county: &str, target: &str) -> (r: bool)
    ensures
        r == matches_filter(s@, county@, target@),
{
    str_eq(s.county.as_str(), county) && str_eq(s.pcr_pathogen_target.as_str(), target)
}

/// The most recent record for the filter and the one immediately
/// preceding it, read-only. `NoData` exactly when nothing matches;
/// `NoPrior` exactly when one record matches (it is returned); otherwise
/// the latest and previous matches — latest has the greatest date among
/// all matches (ties keep the earliest-stored), previous the greatest
/// among the rest — and their exact concentration difference.
pub fn trend_query(store: &SampleStore, county: &str, target: &str) -> (r: TrendResult)
    requires
        store.wf(),
    ensures
        ({
            let tbl = store@;
            let c = county@;
            let t = target@;
            let n = tbl.len() as int;
            match r {
                TrendResult::NoData => best_match(tbl, c, t, n) is None && forall|j: int|
                    0 <= j < n ==> !matches_filter(#[trigger] tbl[j], c, t),
                TrendResult::NoPrior { latest } => {
                    let b = best_match(tbl, c, t, n)->Some_0;
                    &&& best_match(tbl, c, t, n) is Some
                    &&& latest@ == tbl[b]
                    &&& matches_filter(tbl[b], c, t)
                    &&& best_match_except(tbl, c, t, n, b) is None
                    &&& forall|j: int|
                        0 <= j < n && matches_filter(#[trigger] tbl[j], c, t) ==> j == b
                },
                TrendResult::Trend { latest, previous, difference } => {
                    let b = best_match(tbl, c, t, n)->Some_0;
                    let p = best_match_except(tbl, c, t, n, b)->Some_0;
                    &&& best_match(tbl, c, t, n) is Some
                    &&& best_match_except(tbl, c, t, n, b) is Some
                    &&& latest@ == tbl[b]
                    &&& previous@ == tbl[p]
                    &&& matches_filter(tbl[b], c, t)
                    &&& matches_filter(tbl[p], c, t)
                    &&& p != b
                    &&& forall|j: int|
                        0 <= j < n && matches_filter(#[trigger] tbl[j], c, t)
                            ==> tbl[j].sample_collection_date.key()
                            <= tbl[b].sample_collection_date.key()
                    &&& forall|j: int|
                        0 <= j < n && j != b && matches_filter(#[trigger] tbl[j], c, t)
                            ==> tbl[j].sample_collection_date.key()
                            <= tbl[p].sample_collection_date.key()
                    &&& difference == spec_sub(
                        tbl[b].normalized_pathogen_concentration,
                        tbl[p].normalized_pathogen_concentration,
                    )
                },
            }
        }),
{
    let rows = store.records();
    let n = rows.len();
    let ghost tbl = store@;
    proof {
        assert(tbl.len() == rows@.len());
    }
    let mut best: Option<usize> = None;
    let mut i: usize = 0;
    while i < n
        invariant
            i <= n,
            n == rows@.len(),
            rows.deep_view() == tbl,
            tbl.len() == n,
            match best {
                Some(b) => best_match(tbl, county@, target@, i as int) == Some(b as int) && b < i,
                None => best_match(tbl, county@, target@, i as int) is None,
            },
        decreases n - i,
    {
        proof {
            assert(tbl[i as int] == rows@[i as int]@);
        }
        if matches_filter_exec(&rows[i], county, target) {
            match best {
                None => {
                    best = Some(i);
                },
                Some(b) => {
                    proof {
                        assert(tbl[b as int] == rows@[b as int]@);
                    }
                    if !date_le(
                        &rows[i].sample_collection_date,
                        &rows[b].sample_collection_date,
                    ) {
                        best = Some(i);
                    }
                },
            }
        }
        i = i + 1;
    }
    let b = match best {
        None => {
            proof {
                lemma_best_match(tbl, county@, target@, tbl.len() as int);
            }
            return TrendResult::NoData;
        },
        Some(b) => b,
    };
    proof {
        lemma_best_match(tbl, county@, target@, tbl.len() as int);
    }
    let mut second: Option<usize> = None;
    let mut i: usize = 0;
    while i < n
        invariant
            i <= n,
            n == rows@.len(),
            rows.deep_view() == tbl,
            tbl.len() == n,
            b < n,
            match second {
                Some(p) => best_match_except(tbl, county@, target@, i as int, b as int) == Some(
                    p as int,
                ) && p < i,
                None => best_match_except(tbl, county@, target@, i as int, b as int) is None,
            },
        decreases n - i,
    {
        proof {
            assert(tbl[i as int] == rows@[i as int]@);
        }
        if i != b && matches_filter_exec(&rows[i], county, target) {
            match second {
                None => {
                    second = Some(i);
                },
                Some(p) => {
                    proof {
                        assert(tbl[p as int] == rows@[p as int]@);
                    }
                    if !date_le(
                        &rows[i].sample_collection_date,
                        &rows[p].sample_collection_date,
                    ) {
                        second = Some(i);
                    }
                },
            }
        }
        i = i + 1;
    }
    proof {
        lemma_best_match_except(tbl, county@, target@, tbl.len() as int, b as int);
        assert(tbl[b as int] == rows@[b as int]@);
    }
    let latest = clone_sample(&rows[b]);
    match second {
        None => TrendResult::NoPrior { latest },
        Some(p) => {
            proof {
                assert(tbl[p as int] == rows@[p as int]@);
            }
            let previous = clone_sample(&rows[p]);
            let difference = decimal::sub(
                &latest.normalized_pathogen_concentration,
                &previous.normalized_pathogen_concentration,
            );
            TrendResult::Trend { latest, previous, difference }
        },
    }
}

} // verus!
