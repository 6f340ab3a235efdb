use covreport::cov::Coverage;
use covreport::cov::ReportTotals;
use covreport::report::CoverageType;
use covreport::report::LineSession;
use covreport::report::Report;
use covreport::report::ReportError;
use covreport::report::ReportFile;
use covreport::report::ReportLine;

fn session(id: i32, coverage: Coverage) -> LineSession {
    LineSession { id, coverage, branches: 0, partials: vec![], complexity: 0 }
}

fn line(coverage: Coverage, sessions: Vec<LineSession>) -> ReportLine {
    ReportLine { coverage, coverage_type: CoverageType::Standard, sessions, complexity: None }
}

fn totals(files: u64, lines: u64, hits: u64, misses: u64, partials: u64) -> ReportTotals {
    ReportTotals {
        files,
        lines,
        hits,
        misses,
        partials,
        branches: 0,
        sessions: 0,
        complexity: 0,
        complexity_total: 0,
    }
}

/// One file "a.py" whose line 1 was hit by session 0 and missed by
/// session 1; session 0 is tagged "unit", session 1 "integration".
fn sample_report() -> Report {
    let l1 = line(Coverage::Hit, vec![session(0, Coverage::Hit), session(1, Coverage::Miss)]);
    Report {
        filenames: vec![("a.py".to_string(), 0)],
        report_files: vec![ReportFile { lines: vec![(1, l1)] }],
        session_mapping: vec![
            (0, vec!["unit".to_string()]),
            (1, vec!["integration".to_string()]),
        ],
    }
}

fn bucket<'a>(per: &'a [(String, ReportTotals)], flag: &str) -> Option<&'a ReportTotals> {
    per.iter().find(|e| e.0 == flag).map(|e| &e.1)
}

#[test]
fn join_hit_beats_miss() {
    let r = Coverage::join_coverages(&vec![Coverage::Hit, Coverage::Miss]);
    assert_eq!(r, Coverage::Hit);
}

#[test]
fn join_partial_beats_miss() {
    let r = Coverage::join_coverages(&vec![Coverage::Partial(2), Coverage::Miss]);
    assert_eq!(r, Coverage::Partial(2));
}

#[test]
fn join_all_miss_stays_miss() {
    let r = Coverage::join_coverages(&vec![Coverage::Miss, Coverage::Miss]);
    assert_eq!(r, Coverage::Miss);
}

#[test]
fn join_empty_is_miss() {
    let r = Coverage::join_coverages(&vec![]);
    assert_eq!(r, Coverage::Miss);
}

#[test]
fn join_hit_beats_partial() {
    let r = Coverage::join_coverages(&vec![Coverage::Partial(1), Coverage::Hit]);
    assert_eq!(r, Coverage::Hit);
}

#[test]
fn join_two_partials_keeps_greater_payload() {
    let r = Coverage::join_coverages(&vec![Coverage::Partial(1), Coverage::Partial(3)]);
    assert_eq!(r, Coverage::Partial(3));
    let r2 = Coverage::join_coverages(&vec![Coverage::Partial(3), Coverage::Partial(1)]);
    assert_eq!(r2, Coverage::Partial(3));
}

#[test]
fn eof_is_greatest_line_number() {
    let f = ReportFile {
        lines: vec![
            (1, line(Coverage::Hit, vec![])),
            (3, line(Coverage::Miss, vec![])),
            (7, line(Coverage::Hit, vec![])),
        ],
    };
    assert_eq!(f.get_eof(), 7);
}

#[test]
fn eof_of_empty_file_is_zero() {
    let f = ReportFile { lines: vec![] };
    assert_eq!(f.get_eof(), 0);
}

#[test]
fn report_eof_delegates_by_index() {
    let r = sample_report();
    assert_eq!(r.get_eof(0), Ok(1));
}

#[test]
fn report_eof_rejects_invalid_index() {
    let r = sample_report();
    assert_eq!(r.get_eof(1), Err(ReportError::InvalidFileIndex));
    assert_eq!(r.get_eof(-1), Err(ReportError::InvalidFileIndex));
}

#[test]
fn filtered_totals_unit_flag() {
    let r = sample_report();
    let t = r.get_filtered_totals(&vec!["a.py".to_string()], &vec!["unit".to_string()]);
    assert_eq!(t, totals(1, 1, 1, 0, 0));
}

#[test]
fn filtered_totals_integration_flag() {
    let r = sample_report();
    let t = r.get_filtered_totals(&vec!["a.py".to_string()], &vec!["integration".to_string()]);
    assert_eq!(t, totals(1, 1, 0, 1, 0));
}

#[test]
fn filtered_totals_both_flags_join_favors_hit() {
    let r = sample_report();
    let t = r.get_filtered_totals(
        &vec!["a.py".to_string()],
        &vec!["unit".to_string(), "integration".to_string()],
    );
    assert_eq!(t, totals(1, 1, 1, 0, 0));
}

#[test]
fn unknown_filename_yields_zero_aggregate() {
    let r = sample_report();
    let t = r.get_filtered_totals(&vec!["missing.py".to_string()], &vec!["unit".to_string()]);
    assert_eq!(t, totals(0, 0, 0, 0, 0));
}

#[test]
fn unselected_line_counts_as_miss() {
    // A line touched by no requested session still counts toward
    // `lines`, contributing a miss via the empty-join default.
    let l1 = line(Coverage::Hit, vec![session(0, Coverage::Hit)]);
    let r = Report {
        filenames: vec![("a.py".to_string(), 0)],
        report_files: vec![ReportFile { lines: vec![(1, l1)] }],
        session_mapping: vec![(0, vec!["unit".to_string()]), (1, vec!["other".to_string()])],
    };
    let t = r.get_filtered_totals(&vec!["a.py".to_string()], &vec!["other".to_string()]);
    assert_eq!(t, totals(1, 1, 0, 1, 0));
}

#[test]
fn get_totals_uses_cached_verdicts() {
    // The cached verdict is not recomputed from the sessions: a line
    // cached as Miss counts as a miss even though its one session hit.
    let l1 = line(Coverage::Miss, vec![session(0, Coverage::Hit)]);
    let r = Report {
        filenames: vec![("a.py".to_string(), 0)],
        report_files: vec![ReportFile { lines: vec![(1, l1)] }],
        session_mapping: vec![(0, vec!["unit".to_string()])],
    };
    assert_eq!(r.get_totals(), totals(1, 1, 0, 1, 0));
    // The filtered path re-derives the verdict from the sessions.
    let t = r.get_filtered_totals(&vec!["a.py".to_string()], &vec!["unit".to_string()]);
    assert_eq!(t, totals(1, 1, 1, 0, 0));
}

#[test]
fn get_totals_sums_all_files() {
    let fa = ReportFile {
        lines: vec![
            (1, line(Coverage::Hit, vec![])),
            (2, line(Coverage::Partial(1), vec![])),
        ],
    };
    let fb = ReportFile { lines: vec![(1, line(Coverage::Miss, vec![]))] };
    let r = Report {
        filenames: vec![("a.py".to_string(), 0), ("b.py".to_string(), 1)],
        report_files: vec![fa, fb],
        session_mapping: vec![],
    };
    assert_eq!(r.get_totals(), totals(2, 3, 1, 1, 1));
}

#[test]
fn empty_report_totals_are_zero() {
    let r = Report { filenames: vec![], report_files: vec![], session_mapping: vec![] };
    assert_eq!(r.get_totals(), totals(0, 0, 0, 0, 0));
}

#[test]
fn totals_invariant_lines_split_into_verdicts() {
    let r = sample_report();
    let t = r.get_totals();
    assert_eq!(t.lines, t.hits + t.misses + t.partials);
    let ft = r.get_filtered_totals(&vec!["a.py".to_string()], &vec!["unit".to_string()]);
    assert_eq!(ft.lines, ft.hits + ft.misses + ft.partials);
    for (_, b) in r.calculate_per_flag_totals() {
        assert_eq!(b.lines, b.hits + b.misses + b.partials);
    }
}

#[test]
fn filtered_totals_additive_over_disjoint_file_sets() {
    let fa = ReportFile {
        lines: vec![
            (1, line(Coverage::Hit, vec![session(0, Coverage::Hit)])),
            (2, line(Coverage::Miss, vec![session(0, Coverage::Miss)])),
        ],
    };
    let fb = ReportFile { lines: vec![(1, line(Coverage::Hit, vec![session(0, Coverage::Hit)]))] };
    let r = Report {
        filenames: vec![("a.py".to_string(), 0), ("b.py".to_string(), 1)],
        report_files: vec![fa, fb],
        session_mapping: vec![(0, vec!["unit".to_string()])],
    };
    let flags = vec!["unit".to_string()];
    let ta = r.get_filtered_totals(&vec!["a.py".to_string()], &flags);
    let tb = r.get_filtered_totals(&vec!["b.py".to_string()], &flags);
    let mut sum = ta;
    sum.add_up(&tb);
    let both = r.get_filtered_totals(&vec!["a.py".to_string(), "b.py".to_string()], &flags);
    assert_eq!(both, sum);
}

#[test]
fn per_flag_totals_of_sample_report() {
    let r = sample_report();
    let per = r.calculate_per_flag_totals();
    assert_eq!(per.len(), 2);
    assert_eq!(bucket(&per, "unit"), Some(&totals(1, 1, 1, 0, 0)));
    assert_eq!(bucket(&per, "integration"), Some(&totals(1, 1, 0, 1, 0)));
}

#[test]
fn per_flag_lines_need_not_match_report_lines() {
    // One line with two sessions both tagged "unit": the flag's bucket
    // counts two occurrences while the report has a single line.
    let l1 = line(Coverage::Hit, vec![session(0, Coverage::Hit), session(1, Coverage::Hit)]);
    let r = Report {
        filenames: vec![("a.py".to_string(), 0)],
        report_files: vec![ReportFile { lines: vec![(1, l1)] }],
        session_mapping: vec![(0, vec!["unit".to_string()]), (1, vec!["unit".to_string()])],
    };
    let per = r.calculate_per_flag_totals();
    let unit = bucket(&per, "unit").unwrap();
    let report_lines = r.get_totals().lines;
    assert_eq!(unit.lines, 2);
    assert_eq!(report_lines, 1);
    assert_ne!(unit.lines, report_lines);
}

#[test]
fn session_without_flag_mapping_contributes_to_no_bucket() {
    let l1 = line(Coverage::Hit, vec![session(5, Coverage::Hit)]);
    let r = Report {
        filenames: vec![("a.py".to_string(), 0)],
        report_files: vec![ReportFile { lines: vec![(1, l1)] }],
        session_mapping: vec![(0, vec!["unit".to_string()])],
    };
    let per = r.calculate_per_flag_totals();
    assert!(per.is_empty());
}

#[test]
fn per_flag_session_with_two_flags_fills_both_buckets() {
    let l1 = line(Coverage::Partial(1), vec![session(0, Coverage::Partial(1))]);
    let r = Report {
        filenames: vec![("a.py".to_string(), 0)],
        report_files: vec![ReportFile { lines: vec![(1, l1)] }],
        session_mapping: vec![(0, vec!["unit".to_string(), "smoke".to_string()])],
    };
    let per = r.calculate_per_flag_totals();
    assert_eq!(per.len(), 2);
    assert_eq!(bucket(&per, "unit"), Some(&totals(1, 1, 0, 0, 1)));
    assert_eq!(bucket(&per, "smoke"), Some(&totals(1, 1, 0, 0, 1)));
}

#[test]
fn per_flag_files_counts_files_with_occurrences() {
    let fa = ReportFile {
        lines: vec![(1, line(Coverage::Hit, vec![session(0, Coverage::Hit)]))],
    };
    let fb = ReportFile {
        lines: vec![(4, line(Coverage::Miss, vec![session(0, Coverage::Miss)]))],
    };
    let r = Report {
        filenames: vec![("a.py".to_string(), 0), ("b.py".to_string(), 1)],
        report_files: vec![fa, fb],
        session_mapping: vec![(0, vec!["unit".to_string()])],
    };
    let per = r.calculate_per_flag_totals();
    assert_eq!(bucket(&per, "unit"), Some(&totals(2, 2, 1, 1, 0)));
}

#[test]
fn sessions_from_flags_selects_intersecting_sessions() {
    let r = sample_report();
    let ids = r.get_sessions_from_flags(&vec!["unit".to_string()]);
    assert_eq!(ids, vec![0]);
    let both = r.get_sessions_from_flags(&vec![
        "unit".to_string(),
        "integration".to_string(),
    ]);
    assert_eq!(both, vec![0, 1]);
    let none = r.get_sessions_from_flags(&vec!["nightly".to_string()]);
    assert!(none.is_empty());
}

#[test]
fn queries_are_idempotent() {
    let r = sample_report();
    assert_eq!(r.get_totals(), r.get_totals());
    let files = vec!["a.py".to_string()];
    let flags = vec!["unit".to_string()];
    assert_eq!(r.get_filtered_totals(&files, &flags), r.get_filtered_totals(&files, &flags));
    assert_eq!(r.get_eof(0), r.get_eof(0));
    assert_eq!(r.calculate_per_flag_totals(), r.calculate_per_flag_totals());
}

#[test]
fn idempotence_law_functions_agree() {
    let r = sample_report();
    let (a, b) = covreport::laws::get_totals_twice(&r);
    assert_eq!(a, b);
    let files = vec!["a.py".to_string()];
    let flags = vec!["integration".to_string()];
    let (fa, fb) = covreport::laws::get_filtered_totals_twice(&r, &files, &flags);
    assert_eq!(fa, fb);
    let (ea, eb) = covreport::laws::get_eof_twice(&r, 0);
    assert_eq!(ea, eb);
    let (pa, pb) = covreport::laws::calculate_per_flag_totals_twice(&r);
    assert_eq!(pa, pb);
}

#[test]
fn add_up_sums_field_wise() {
    let mut a = ReportTotals {
        files: 1,
        lines: 2,
        hits: 1,
        misses: 1,
        partials: 0,
        branches: 3,
        sessions: 4,
        complexity: 5,
        complexity_total: 6,
    };
    let b = ReportTotals {
        files: 1,
        lines: 1,
        hits: 0,
        misses: 0,
        partials: 1,
        branches: 1,
        sessions: 1,
        complexity: 1,
        complexity_total: 1,
    };
    a.add_up(&b);
    assert_eq!(
        a,
        ReportTotals {
            files: 2,
            lines: 3,
            hits: 1,
            misses: 1,
            partials: 1,
            branches: 4,
            sessions: 5,
            complexity: 6,
            complexity_total: 7,
        }
    );
}

#[test]
fn zero_is_the_additive_identity() {
    let mut z = ReportTotals::zero();
    let t = totals(1, 2, 1, 1, 0);
    z.add_up(&t);
    assert_eq!(z, t);
}

#[test]
fn line_session_coverage_filters_by_id() {
    let l = line(Coverage::Hit, vec![session(0, Coverage::Miss), session(1, Coverage::Hit)]);
    assert_eq!(l.calculate_sessions_coverage(&vec![0]), Coverage::Miss);
    assert_eq!(l.calculate_sessions_coverage(&vec![1]), Coverage::Hit);
    assert_eq!(l.calculate_sessions_coverage(&vec![0, 1]), Coverage::Hit);
    assert_eq!(l.calculate_sessions_coverage(&vec![9]), Coverage::Miss);
}
