//! The report-wide laws of the aggregation engine: additivity of the
//! filtered fold over file lists, and idempotence of every query.

use vstd::prelude::*;

use crate::cov::ReportTotals;
use crate::cov::TotalsModel;
use crate::cov::add_model;
use crate::cov::fits;
use crate::report::Report;
use crate::report::ReportError;
use crate::report::filtered_fold;
use crate::report::filtered_totals_model;
use crate::report::per_flag_fits;
use crate::report::per_flag_matches;
use crate::report::report_per_flag_model;
use crate::report::report_totals_model;
use crate::report::sessions_from_flags_model;

verus! {

proof fn lemma_filtered_fold_additive(r: Report, a: Seq<String>, b: Seq<String>, ids: Seq<i32>)
    ensures
        filtered_fold(r, a + b, ids) == add_model(
            filtered_fold(r, a, ids),
            filtered_fold(r, b, ids),
        ),
    decreases b.len(),
{
    if b.len() == 0 {
        assert(a + b =~= a);
    } else {
        lemma_filtered_fold_additive(r, a, b.drop_last(), ids);
        assert((a + b).drop_last() =~= a + b.drop_last());
        assert((a + b).last() == b.last());
    }
}

/// Additivity: the filtered totals of two file lists laid end to end
/// are the field-wise sum of each list's own filtered totals. For two
/// disjoint file sets this says that querying their union equals
/// adding the two queries, field by field.
pub proof fn lemma_filtered_totals_additive(
    r: Report,
    a: Seq<String>,
    b: Seq<String>,
    flags: Seq<String>,
)
    ensures
        filtered_totals_model(r, a + b, flags) == add_model(
            filtered_totals_model(r, a, flags),
            filtered_totals_model(r, b, flags),
        ),
{
    lemma_filtered_fold_additive(
        r,
        a,
        b,
        sessions_from_flags_model(r.session_mapping@, flags),
    );
}

/// Idempotence of the whole-report summary: the query is a pure
/// function of the frozen report, so two calls return the same value.
pub fn get_totals_twice(r: &Report) -> (p: (ReportTotals, ReportTotals))
    requires
        fits(report_totals_model(r.report_files@)),
    ensures
        p.0 == p.1,
{
    let a = r.get_totals();
    let b = r.get_totals();
    (a, b)
}

/// Idempotence of the filtered query: two calls with the same file and
/// flag lists return the same value.
pub fn get_filtered_totals_twice(r: &Report, files: &Vec<String>, flags: &Vec<String>) -> (p: (
    ReportTotals,
    ReportTotals,
))
    requires
        r.wf(),
        fits(filtered_totals_model(*r, files@, flags@)),
    ensures
        p.0 == p.1,
{
    let a = r.get_filtered_totals(files, flags);
    let b = r.get_filtered_totals(files, flags);
    (a, b)
}

/// Idempotence of the end-of-file query: two calls with the same index
/// return the same value.
pub fn get_eof_twice(r: &Report, file_number: i32) -> (p: (
    Result<i32, ReportError>,
    Result<i32, ReportError>,
))
    ensures
        p.0 == p.1,
{
    let a = r.get_eof(file_number);
    let b = r.get_eof(file_number);
    (a, b)
}

/// Both entry lists represent one and the same flag-to-totals map.
pub open spec fn same_flag_entries(
    a: Seq<(String, ReportTotals)>,
    b: Seq<(String, ReportTotals)>,
) -> bool {
    exists|m: Map<Seq<char>, TotalsModel>|
        #[trigger] per_flag_matches(a, m) && #[trigger] per_flag_matches(b, m)
}

/// Idempotence of the per-flag query: two calls represent the same
/// flag-to-totals mapping — every flag of one result appears in the
/// other with equal totals.
pub fn calculate_per_flag_totals_twice(r: &Report) -> (p: (
    Vec<(String, ReportTotals)>,
    Vec<(String, ReportTotals)>,
))
    requires
        per_flag_fits(r.report_files@, r.session_mapping@),
    ensures
        same_flag_entries(p.0@, p.1@),
{
    let a = r.calculate_per_flag_totals();
    let b = r.calculate_per_flag_totals();
    let pq = (a, b);
    proof {
        let m = report_per_flag_model(r.report_files@, r.session_mapping@);
        assert(per_flag_matches(pq.0@, m) && per_flag_matches(pq.1@, m));
        assert(same_flag_entries(pq.0@, pq.1@));
    }
    pq
}

} // verus!
