//! The parsed coverage report and the folds over it.

use vstd::prelude::*;

use crate::cov::Coverage;
use crate::cov::ReportTotals;
use crate::cov::TotalsModel;
use crate::cov::add_model;
use crate::cov::fits;
use crate::cov::le_model;
use crate::cov::nonneg_model;
use crate::cov::join_seq;
use crate::cov::line_contrib;
use crate::cov::zero_model;

verus! {

/// How a line's coverage was measured.
#[derive(Clone, Copy, PartialEq, Eq, Structural, Debug)]
pub enum CoverageType {
    Standard,
    Branch,
    Method,
}

/// One test session's observed coverage for one source line.
pub struct LineSession {
    pub id: i32,
    pub coverage: Coverage,
    pub branches: i32,
    pub partials: Vec<i32>,
    pub complexity: i32,
}

/// The verdicts of the sessions whose id is in `ids`, in session order.
pub open spec fn filtered_coverages(sessions: Seq<LineSession>, ids: Seq<i32>) -> Seq<Coverage>
    decreases sessions.len(),
{
    if sessions.len() == 0 {
        Seq::empty()
    } else {
        let rest = filtered_coverages(sessions.drop_last(), ids);
        if ids.contains(sessions.last().id) {
            rest.push(sessions.last().coverage)
        } else {
            rest
        }
    }
}

fn contains_id(ids: &Vec<i32>, id: i32) -> (b: bool)
    ensures
        b == ids@.contains(id),
{
    let mut i: usize = 0;
    while i < ids.len()
        invariant
            i <= ids.len(),
            forall|k: int| 0 <= k < i ==> ids@[k] != id,
        decreases ids.len() - i,
    {
        if ids[i] == id {
            return true;
        }
        i = i + 1;
    }
    false
}

/// One source line's resolved verdict plus the sessions that
/// contributed to it. `coverage` is the verdict cached at ingestion
/// time; session-filtered queries re-derive a verdict from `sessions`.
pub struct ReportLine {
    pub coverage: Coverage,
    pub coverage_type: CoverageType,
    pub sessions: Vec<LineSession>,
    pub complexity: Option<i32>,
}

impl ReportLine {
    /// Re-derive this line's verdict from only the sessions selected by
    /// `session_ids`: the join of their verdicts, `Miss` when none match.
    pub fn calculate_sessions_coverage(&self, session_ids: &Vec<i32>) -> (r: Coverage)
        ensures
            r == join_seq(filtered_coverages(self.sessions@, session_ids@)),
    {
        let mut valid: Vec<Coverage> = Vec::new();
        let mut i: usize = 0;
        while i < self.sessions.len()
            invariant
                i <= self.sessions.len(),
                valid@ == filtered_coverages(self.sessions@.subrange(0, i as int), session_ids@),
            decreases self.sessions.len() - i,
        {
            assert(self.sessions@.subrange(0, i as int + 1).drop_last() =~= self.sessions@.subrange(
                0,
                i as int,
            ));
            assert(self.sessions@.subrange(0, i as int + 1).last() == self.sessions@[i as int]);
            if contains_id(session_ids, self.sessions[i].id) {
                valid.push(self.sessions[i].coverage);
            }
            i = i + 1;
        }
        assert(self.sessions@.subrange(0, self.sessions@.len() as int) =~= self.sessions@);
        Coverage::join_coverages(&valid)
    }
}

/// A file's lines: 1-based line number paired with the line's record,
/// each line number present at most once.
pub struct ReportFile {
    pub lines: Vec<(i32, ReportLine)>,
}

/// The greatest line number among `lines`, or 0 when there is none.
pub open spec fn max_line(lines: Seq<(i32, ReportLine)>) -> i32
    decreases lines.len(),
{
    if lines.len() == 0 {
        0
    } else {
        let m = max_line(lines.drop_last());
        if lines.last().0 > m {
            lines.last().0
        } else {
            m
        }
    }
}

proof fn lemma_max_line_props(lines: Seq<(i32, ReportLine)>)
    ensures
        forall|k: int| 0 <= k < lines.len() ==> (#[trigger] lines[k]).0 <= max_line(lines),
        max_line(lines) != 0 ==> exists|k: int|
            0 <= k < lines.len() && (#[trigger] lines[k]).0 == max_line(lines),
    decreases lines.len(),
{
    if lines.len() > 0 {
        let prev = lines.drop_last();
        lemma_max_line_props(prev);
        assert(forall|k: int| 0 <= k < prev.len() ==> prev[k] == lines[k]);
        if max_line(lines) != 0 {
            if lines.last().0 > max_line(prev) {
                assert(lines[lines.len() - 1].0 == max_line(lines));
            } else {
                let k = choose|k: int|
                    0 <= k < prev.len() && (#[trigger] prev[k]).0 == max_line(prev);
                assert(lines[k].0 == max_line(lines));
            }
        }
    }
}

/// Fold of a file's cached line verdicts: one contributing file, one
/// line per entry, tallied by each line's cached verdict. The branch,
/// session and complexity counters are not computed at this level and
/// stay zero.
pub open spec fn file_totals_model(lines: Seq<(i32, ReportLine)>) -> TotalsModel
    decreases lines.len(),
{
    if lines.len() == 0 {
        file_base_model()
    } else {
        add_model(file_totals_model(lines.drop_last()), line_contrib(lines.last().1.coverage))
    }
}

/// The accumulator a single file's fold starts from: one file, nothing
/// else counted yet.
pub open spec fn file_base_model() -> TotalsModel {
    TotalsModel {
        files: 1,
        lines: 0,
        hits: 0,
        misses: 0,
        partials: 0,
        branches: 0,
        sessions: 0,
        complexity: 0,
        complexity_total: 0,
    }
}

/// Fold of a file's lines under session filtering: every line counts
/// toward `lines`, and its verdict is re-derived from only the sessions
/// in `ids` (a line none of them touched counts as a miss).
pub open spec fn file_filtered_model(lines: Seq<(i32, ReportLine)>, ids: Seq<i32>) -> TotalsModel
    decreases lines.len(),
{
    if lines.len() == 0 {
        file_base_model()
    } else {
        add_model(
            file_filtered_model(lines.drop_last(), ids),
            line_contrib(join_seq(filtered_coverages(lines.last().1.sessions@, ids))),
        )
    }
}

impl ReportFile {
    /// Line numbers are unique within the file and 1-based.
    pub open spec fn wf(self) -> bool {
        &&& forall|i: int, j: int|
            0 <= i < j < self.lines@.len() ==> self.lines@[i].0 != self.lines@[j].0
        &&& forall|i: int| 0 <= i < self.lines@.len() ==> self.lines@[i].0 >= 1
    }

    /// The last covered line number of the file, or 0 when the file has
    /// no lines: no line number exceeds the result, and a non-zero
    /// result is a line number of the file.
    pub fn get_eof(&self) -> (r: i32)
        ensures
            r == max_line(self.lines@),
            forall|k: int| 0 <= k < self.lines@.len() ==> (#[trigger] self.lines@[k]).0 <= r,
            self.lines@.len() == 0 ==> r == 0,
            r != 0 ==> exists|k: int|
                0 <= k < self.lines@.len() && (#[trigger] self.lines@[k]).0 == r,
    {
        proof {
            lemma_max_line_props(self.lines@);
        }
        let mut r: i32 = 0;
        let mut i: usize = 0;
        while i < self.lines.len()
            invariant
                i <= self.lines.len(),
                r == max_line(self.lines@.subrange(0, i as int)),
            decreases self.lines.len() - i,
        {
            assert(self.lines@.subrange(0, i as int + 1).drop_last() =~= self.lines@.subrange(
                0,
                i as int,
            ));
            assert(self.lines@.subrange(0, i as int + 1).last() == self.lines@[i as int]);
            if self.lines[i].0 > r {
                r = self.lines[i].0;
            }
            i = i + 1;
        }
        assert(self.lines@.subrange(0, self.lines@.len() as int) =~= self.lines@);
        r
    }

    /// Whole-file totals from the cached verdicts.
    pub fn get_totals(&self) -> (r: ReportTotals)
        ensures
            r@ == file_totals_model(self.lines@),
    {
        let mut res = ReportTotals {
            files: 1,
            lines: 0,
            hits: 0,
            misses: 0,
            partials: 0,
            branches: 0,
            sessions: 0,
            complexity: 0,
            complexity_total: 0,
        };
        let mut i: usize = 0;
        while i < self.lines.len()
            invariant
                i <= self.lines.len(),
                res@ == file_totals_model(self.lines@.subrange(0, i as int)),
            decreases self.lines.len() - i,
        {
            proof {
                lemma_file_totals_invariant(self.lines@.subrange(0, i as int));
                assert(self.lines@.subrange(0, i as int + 1).drop_last() =~= self.lines@.subrange(
                    0,
                    i as int,
                ));
                assert(self.lines@.subrange(0, i as int + 1).last() == self.lines@[i as int]);
            }
            res.lines = res.lines + 1;
            match self.lines[i].1.coverage {
                Coverage::Hit => {
                    res.hits = res.hits + 1;
                },
                Coverage::Miss => {
                    res.misses = res.misses + 1;
                },
                Coverage::Partial(_) => {
                    res.partials = res.partials + 1;
                },
            }
            i = i + 1;
        }
        assert(self.lines@.subrange(0, self.lines@.len() as int) =~= self.lines@);
        res
    }

    /// Whole-file totals with every line's verdict re-derived from only
    /// the sessions in `sessions`.
    pub fn get_filtered_totals(&self, sessions: &Vec<i32>) -> (r: ReportTotals)
        ensures
            r@ == file_filtered_model(self.lines@, sessions@),
    {
        let mut res = ReportTotals {
            files: 1,
            lines: 0,
            hits: 0,
            misses: 0,
            partials: 0,
            branches: 0,
            sessions: 0,
            complexity: 0,
            complexity_total: 0,
        };
        let mut i: usize = 0;
        while i < self.lines.len()
            invariant
                i <= self.lines.len(),
                res@ == file_filtered_model(self.lines@.subrange(0, i as int), sessions@),
            decreases self.lines.len() - i,
        {
            proof {
                lemma_file_filtered_invariant(self.lines@.subrange(0, i as int), sessions@);
                assert(self.lines@.subrange(0, i as int + 1).drop_last() =~= self.lines@.subrange(
                    0,
                    i as int,
                ));
                assert(self.lines@.subrange(0, i as int + 1).last() == self.lines@[i as int]);
            }
            res.lines = res.lines + 1;
            match self.lines[i].1.calculate_sessions_coverage(sessions) {
                Coverage::Hit => {
                    res.hits = res.hits + 1;
                },
                Coverage::Miss => {
                    res.misses = res.misses + 1;
                },
                Coverage::Partial(_) => {
                    res.partials = res.partials + 1;
                },
            }
            i = i + 1;
        }
        assert(self.lines@.subrange(0, self.lines@.len() as int) =~= self.lines@);
        res
    }
}

/// The flag lists mapped to session `id`, each flag as its character
/// sequence; empty when the mapping has no entry for `id`.
pub open spec fn lookup_flags(mapping: Seq<(i32, Vec<String>)>, id: i32) -> Seq<Seq<char>>
    decreases mapping.len(),
{
    if mapping.len() == 0 {
        Seq::empty()
    } else if mapping[0].0 == id {
        mapping[0].1@.map_values(|s: String| s@)
    } else {
        lookup_flags(mapping.subrange(1, mapping.len() as int), id)
    }
}

fn lookup_session_flags<'a>(mapping: &'a Vec<(i32, Vec<String>)>, id: i32) -> (r: Option<
    &'a Vec<String>,
>)
    ensures
        match r {
            Some(v) => lookup_flags(mapping@, id) == v@.map_values(|s: String| s@),
            None => lookup_flags(mapping@, id) == Seq::<Seq<char>>::empty(),
        },
{
    proof {
        assert(mapping@.subrange(0, mapping@.len() as int) =~= mapping@);
    }
    let mut i: usize = 0;
    while i < mapping.len()
        invariant
            i <= mapping.len(),
            lookup_flags(mapping@, id) == lookup_flags(
                mapping@.subrange(i as int, mapping@.len() as int),
                id,
            ),
        decreases mapping.len() - i,
    {
        let ghost suffix = mapping@.subrange(i as int, mapping@.len() as int);
        proof {
            assert(suffix[0] == mapping@[i as int]);
            assert(suffix.subrange(1, suffix.len() as int) =~= mapping@.subrange(
                i as int + 1,
                mapping@.len() as int,
            ));
        }
        if mapping[i].0 == id {
            return Some(&mapping[i].1);
        }
        i = i + 1;
    }
    proof {
        assert(mapping@.subrange(mapping@.len() as int, mapping@.len() as int)
            =~= Seq::<(i32, Vec<String>)>::empty());
    }
    None
}

/// One (flag, verdict) occurrence pair for every flag attached to the
/// session, all carrying the session's own verdict.
pub open spec fn session_pairs(s: LineSession, mapping: Seq<(i32, Vec<String>)>) -> Seq<
    (Seq<char>, Coverage),
> {
    lookup_flags(mapping, s.id).map_values(|f: Seq<char>| (f, s.coverage))
}

/// All (flag, verdict) occurrence pairs of a line's sessions, in order.
pub open spec fn line_pairs(sessions: Seq<LineSession>, mapping: Seq<(i32, Vec<String>)>) -> Seq<
    (Seq<char>, Coverage),
>
    decreases sessions.len(),
{
    if sessions.len() == 0 {
        Seq::empty()
    } else {
        line_pairs(sessions.drop_last(), mapping) + session_pairs(sessions.last(), mapping)
    }
}

/// All (flag, verdict) occurrence pairs of a whole file.
pub open spec fn file_pairs(
    lines: Seq<(i32, ReportLine)>,
    mapping: Seq<(i32, Vec<String>)>,
) -> Seq<(Seq<char>, Coverage)>
    decreases lines.len(),
{
    if lines.len() == 0 {
        Seq::empty()
    } else {
        file_pairs(lines.drop_last(), mapping) + line_pairs(lines.last().1.sessions@, mapping)
    }
}

/// How many verdicts in `covs` are hits.
pub open spec fn count_hits(covs: Seq<Coverage>) -> int
    decreases covs.len(),
{
    if covs.len() == 0 {
        0
    } else {
        count_hits(covs.drop_last()) + if covs.last() is Hit {
            1int
        } else {
            0int
        }
    }
}

/// How many verdicts in `covs` are misses.
pub open spec fn count_misses(covs: Seq<Coverage>) -> int
    decreases covs.len(),
{
    if covs.len() == 0 {
        0
    } else {
        count_misses(covs.drop_last()) + if covs.last() is Miss {
            1int
        } else {
            0int
        }
    }
}

/// How many verdicts in `covs` are partial.
pub open spec fn count_partials(covs: Seq<Coverage>) -> int
    decreases covs.len(),
{
    if covs.len() == 0 {
        0
    } else {
        count_partials(covs.drop_last()) + if covs.last() is Partial {
            1int
        } else {
            0int
        }
    }
}

/// The verdicts among the occurrence pairs that carry flag `f`.
pub open spec fn covs_for(ps: Seq<(Seq<char>, Coverage)>, f: Seq<char>) -> Seq<Coverage>
    decreases ps.len(),
{
    if ps.len() == 0 {
        Seq::empty()
    } else {
        let rest = covs_for(ps.drop_last(), f);
        if ps.last().0 == f {
            rest.push(ps.last().1)
        } else {
            rest
        }
    }
}

/// One flag's bucket: one line per occurrence, tallied by each
/// occurrence's own verdict; `files` is supplied by the caller.
pub open spec fn bucket_model(covs: Seq<Coverage>, files: int) -> TotalsModel {
    TotalsModel {
        files: files,
        lines: covs.len() as int,
        hits: count_hits(covs),
        misses: count_misses(covs),
        partials: count_partials(covs),
        branches: 0,
        sessions: 0,
        complexity: 0,
        complexity_total: 0,
    }
}

/// Occurrence pairs of an executable pair list, flags as character
/// sequences.
pub open spec fn pairs_view(ps: Seq<(String, Coverage)>) -> Seq<(Seq<char>, Coverage)> {
    ps.map_values(|p: (String, Coverage)| (p.0@, p.1))
}

/// Per-flag totals of a list of occurrence pairs: a flag is present
/// exactly when it occurs, and its bucket tallies its occurrences,
/// with `files` = 1 (all pairs belong to one file).
pub open spec fn per_flag_of_pairs(ps: Seq<(Seq<char>, Coverage)>) -> Map<Seq<char>, TotalsModel> {
    Map::new(
        |f: Seq<char>| covs_for(ps, f).len() > 0,
        |f: Seq<char>| bucket_model(covs_for(ps, f), 1),
    )
}

/// Per-flag totals of one file: its occurrence pairs, bucketed.
pub open spec fn file_per_flag_model(
    lines: Seq<(i32, ReportLine)>,
    mapping: Seq<(i32, Vec<String>)>,
) -> Map<Seq<char>, TotalsModel> {
    per_flag_of_pairs(file_pairs(lines, mapping))
}

/// The executable flag-to-totals list `entries` represents exactly the
/// map `m`: keys are unique, every entry's totals equal its flag's
/// bucket in `m`, and every flag of `m` has an entry.
pub open spec fn per_flag_matches(
    entries: Seq<(String, ReportTotals)>,
    m: Map<Seq<char>, TotalsModel>,
) -> bool {
    &&& forall|i: int, j: int|
        0 <= i < j < entries.len() ==> (#[trigger] entries[i]).0@ != (#[trigger] entries[j]).0@
    &&& forall|i: int|
        0 <= i < entries.len() ==> m.dom().contains((#[trigger] entries[i]).0@) && entries[i].1@
            == m[entries[i].0@]
    &&& forall|f: Seq<char>|
        m.dom().contains(f) ==> exists|i: int|
            0 <= i < entries.len() && (#[trigger] entries[i]).0@ == f
}

/// Every bucket tallies each occurrence as exactly one of hits, misses
/// or partials.
pub proof fn lemma_counts_invariant(covs: Seq<Coverage>)
    ensures
        count_hits(covs) >= 0,
        count_misses(covs) >= 0,
        count_partials(covs) >= 0,
        count_hits(covs) + count_misses(covs) + count_partials(covs) == covs.len(),
    decreases covs.len(),
{
    if covs.len() > 0 {
        lemma_counts_invariant(covs.drop_last());
    }
}

proof fn lemma_covs_for_len_le(ps: Seq<(Seq<char>, Coverage)>, f: Seq<char>)
    ensures
        covs_for(ps, f).len() <= ps.len(),
    decreases ps.len(),
{
    if ps.len() > 0 {
        lemma_covs_for_len_le(ps.drop_last(), f);
    }
}

fn find_key(buckets: &Vec<(String, ReportTotals)>, key: &String) -> (r: Option<usize>)
    ensures
        match r {
            Some(j) => j < buckets@.len() && buckets@[j as int].0@ == key@,
            None => forall|k: int| 0 <= k < buckets@.len() ==> (#[trigger] buckets@[k]).0@ != key@,
        },
{
    let mut j: usize = 0;
    while j < buckets.len()
        invariant
            j <= buckets.len(),
            forall|k: int| 0 <= k < j ==> (#[trigger] buckets@[k]).0@ != key@,
        decreases buckets.len() - j,
    {
        if buckets[j].0 == *key {
            return Some(j);
        }
        j = j + 1;
    }
    None
}

fn fold_pairs(pairs: &Vec<(String, Coverage)>) -> (r: Vec<(String, ReportTotals)>)
    ensures
        per_flag_matches(r@, per_flag_of_pairs(pairs_view(pairs@))),
{
    let mut buckets: Vec<(String, ReportTotals)> = Vec::new();
    proof {
        assert(pairs_view(pairs@).subrange(0, 0) =~= Seq::<(Seq<char>, Coverage)>::empty());
    }
    let mut i: usize = 0;
    while i < pairs.len()
        invariant
            i <= pairs.len(),
            per_flag_matches(buckets@, per_flag_of_pairs(pairs_view(pairs@).subrange(0, i as int))),
        decreases pairs.len() - i,
    {
        let ghost prefix = pairs_view(pairs@).subrange(0, i as int);
        let ghost next = pairs_view(pairs@).subrange(0, i as int + 1);
        let ghost f = pairs@[i as int].0@;
        let ghost m1 = per_flag_of_pairs(prefix);
        let ghost m2 = per_flag_of_pairs(next);
        let cov = pairs[i].1;
        proof {
            assert(next.drop_last() =~= prefix);
            assert(next.last() == (pairs@[i as int].0@, pairs@[i as int].1));
            assert forall|g: Seq<char>| g != f implies covs_for(next, g) == covs_for(
                prefix,
                g,
            ) by {
                assert(next.drop_last() =~= prefix);
            }
            assert(covs_for(next, f) == covs_for(prefix, f).push(cov));
            assert(covs_for(prefix, f).push(cov).drop_last() =~= covs_for(prefix, f));
            lemma_covs_for_len_le(prefix, f);
            lemma_counts_invariant(covs_for(prefix, f));
            assert(pairs@.len() <= usize::MAX);
        }
        match find_key(&buckets, &pairs[i].0) {
            Some(j) => {
                let ghost bprev = buckets@;
                proof {
                    assert(bprev[j as int].0@ == f);
                    assert(bprev[j as int].1@ == m1[f]);
                    assert(m1[f] == bucket_model(covs_for(prefix, f), 1));
                }
                let mut t = buckets[j].1;
                t.lines = t.lines + 1;
                match cov {
                    Coverage::Hit => {
                        t.hits = t.hits + 1;
                    },
                    Coverage::Miss => {
                        t.misses = t.misses + 1;
                    },
                    Coverage::Partial(_) => {
                        t.partials = t.partials + 1;
                    },
                }
                buckets[j].1 = t;
                proof {
                    assert(t@ == bucket_model(covs_for(next, f), 1));
                    assert(buckets@.len() == bprev.len());
                    assert(forall|k: int|
                        0 <= k < buckets@.len() ==> (#[trigger] buckets@[k]).0 == bprev[k].0);
                    assert forall|k: int, l: int|
                        0 <= k < l < buckets@.len() implies (#[trigger] buckets@[k]).0@ != (
                    #[trigger] buckets@[l]).0@ by {
                        assert(bprev[k].0@ != bprev[l].0@);
                    }
                    assert forall|k: int|
                        0 <= k < buckets@.len() implies m2.dom().contains(
                        (#[trigger] buckets@[k]).0@,
                    ) && buckets@[k].1@ == m2[buckets@[k].0@] by {
                        let g = buckets@[k].0@;
                        if k == j {
                            assert(g == f);
                            assert(covs_for(next, f).len() > 0);
                            assert(buckets@[k].1@ == t@);
                        } else {
                            assert(g != f);
                            assert(covs_for(next, g) == covs_for(prefix, g));
                            assert(buckets@[k].1 == bprev[k].1);
                            assert(bprev[k].1@ == m1[g]);
                        }
                    }
                    assert forall|g: Seq<char>| m2.dom().contains(g) implies exists|k: int|
                        0 <= k < buckets@.len() && (#[trigger] buckets@[k]).0@ == g by {
                        if g == f {
                            assert(buckets@[j as int].0@ == g);
                        } else {
                            assert(covs_for(next, g) == covs_for(prefix, g));
                            assert(m1.dom().contains(g));
                            let k = choose|k: int|
                                0 <= k < bprev.len() && (#[trigger] bprev[k]).0@ == g;
                            assert(buckets@[k].0@ == g);
                        }
                    }
                    assert(per_flag_matches(buckets@, m2));
                }
            },
            None => {
                let ghost bprev = buckets@;
                proof {
                    if m1.dom().contains(f) {
                        let w = choose|k: int|
                            0 <= k < bprev.len() && (#[trigger] bprev[k]).0@ == f;
                        assert(false);
                    }
                    assert(covs_for(prefix, f).len() == 0);
                    assert(covs_for(prefix, f) =~= Seq::<Coverage>::empty());
                }
                let t = ReportTotals {
                    files: 1,
                    lines: 1,
                    hits: if matches!(cov, Coverage::Hit) {
                        1
                    } else {
                        0
                    },
                    misses: if matches!(cov, Coverage::Miss) {
                        1
                    } else {
                        0
                    },
                    partials: if matches!(cov, Coverage::Partial(_)) {
                        1
                    } else {
                        0
                    },
                    branches: 0,
                    sessions: 0,
                    complexity: 0,
                    complexity_total: 0,
                };
                let name = pairs[i].0.clone();
                buckets.push((name, t));
                proof {
                    assert(buckets@ == bprev.push((name, t)));
                    assert(buckets@[buckets@.len() - 1].0@ == f);
                    assert(t@ == bucket_model(covs_for(next, f), 1));
                    assert forall|k: int, l: int|
                        0 <= k < l < buckets@.len() implies (#[trigger] buckets@[k]).0@ != (
                    #[trigger] buckets@[l]).0@ by {
                        if l < buckets@.len() - 1 {
                            assert(bprev[k].0@ != bprev[l].0@);
                        } else {
                            assert(buckets@[k].0 == bprev[k].0);
                        }
                    }
                    assert forall|k: int|
                        0 <= k < buckets@.len() implies m2.dom().contains(
                        (#[trigger] buckets@[k]).0@,
                    ) && buckets@[k].1@ == m2[buckets@[k].0@] by {
                        let g = buckets@[k].0@;
                        if k == buckets@.len() - 1 {
                            assert(g == f);
                            assert(covs_for(next, f).len() > 0);
                        } else {
                            assert(buckets@[k] == bprev[k]);
                            assert(g != f);
                            assert(covs_for(next, g) == covs_for(prefix, g));
                            assert(bprev[k].1@ == m1[g]);
                        }
                    }
                    assert forall|g: Seq<char>| m2.dom().contains(g) implies exists|k: int|
                        0 <= k < buckets@.len() && (#[trigger] buckets@[k]).0@ == g by {
                        if g == f {
                            assert(buckets@[buckets@.len() - 1].0@ == g);
                        } else {
                            assert(covs_for(next, g) == covs_for(prefix, g));
                            assert(m1.dom().contains(g));
                            let k = choose|k: int|
                                0 <= k < bprev.len() && (#[trigger] bprev[k]).0@ == g;
                            assert(buckets@[k].0@ == g);
                        }
                    }
                    assert(per_flag_matches(buckets@, m2));
                }
            },
        }
        i = i + 1;
    }
    proof {
        assert(pairs_view(pairs@).subrange(0, pairs_view(pairs@).len() as int) =~= pairs_view(
            pairs@,
        ));
        assert(pairs_view(pairs@).len() == pairs@.len());
    }
    buckets
}

fn collect_file_pairs(lines: &Vec<(i32, ReportLine)>, mapping: &Vec<(i32, Vec<String>)>) -> (r:
    Vec<(String, Coverage)>)
    ensures
        pairs_view(r@) == file_pairs(lines@, mapping@),
{
    let mut pairs: Vec<(String, Coverage)> = Vec::new();
    proof {
        assert(lines@.subrange(0, 0) =~= Seq::<(i32, ReportLine)>::empty());
        assert(pairs_view(pairs@) =~= Seq::<(Seq<char>, Coverage)>::empty());
    }
    let mut li: usize = 0;
    while li < lines.len()
        invariant
            li <= lines.len(),
            pairs_view(pairs@) == file_pairs(lines@.subrange(0, li as int), mapping@),
        decreases lines.len() - li,
    {
        let ghost fp = file_pairs(lines@.subrange(0, li as int), mapping@);
        let ghost sessions = lines@[li as int].1.sessions@;
        proof {
            assert(sessions.subrange(0, 0) =~= Seq::<LineSession>::empty());
            assert(fp + Seq::<(Seq<char>, Coverage)>::empty() =~= fp);
        }
        let mut si: usize = 0;
        while si < lines[li].1.sessions.len()
            invariant
                li < lines@.len(),
                si <= lines@[li as int].1.sessions@.len(),
                sessions == lines@[li as int].1.sessions@,
                fp == file_pairs(lines@.subrange(0, li as int), mapping@),
                pairs_view(pairs@) == fp + line_pairs(sessions.subrange(0, si as int), mapping@),
            decreases lines@[li as int].1.sessions@.len() - si,
        {
            let ghost lp = line_pairs(sessions.subrange(0, si as int), mapping@);
            let ghost sess = sessions[si as int];
            let cov = lines[li].1.sessions[si].coverage;
            let id = lines[li].1.sessions[si].id;
            proof {
                assert(sessions.subrange(0, si as int + 1).drop_last() =~= sessions.subrange(
                    0,
                    si as int,
                ));
                assert(sessions.subrange(0, si as int + 1).last() == sess);
                assert(line_pairs(sessions.subrange(0, si as int + 1), mapping@) == lp
                    + session_pairs(sess, mapping@));
            }
            match lookup_session_flags(mapping, id) {
                Some(flags) => {
                    let ghost sp = session_pairs(sess, mapping@);
                    proof {
                        assert(sp == flags@.map_values(|s: String| s@).map_values(
                            |f: Seq<char>| (f, sess.coverage),
                        ));
                        assert(sp.len() == flags@.len());
                        assert(sp.subrange(0, 0) =~= Seq::<(Seq<char>, Coverage)>::empty());
                        assert((fp + lp) + Seq::<(Seq<char>, Coverage)>::empty() =~= fp + lp);
                    }
                    let mut fi: usize = 0;
                    while fi < flags.len()
                        invariant
                            fi <= flags@.len(),
                            sp == session_pairs(sess, mapping@),
                            sp.len() == flags@.len(),
                            cov == sess.coverage,
                            forall|k: int| 0 <= k < flags@.len() ==> sp[k] == (
                                (#[trigger] flags@[k])@,
                                sess.coverage,
                            ),
                            pairs_view(pairs@) == (fp + lp) + sp.subrange(0, fi as int),
                        decreases flags@.len() - fi,
                    {
                        let ghost pv = pairs_view(pairs@);
                        let name = flags[fi].clone();
                        pairs.push((name, cov));
                        proof {
                            assert(pairs_view(pairs@) =~= pv.push((name@, cov)));
                            assert(sp.subrange(0, fi as int + 1) =~= sp.subrange(
                                0,
                                fi as int,
                            ).push(sp[fi as int]));
                            assert((fp + lp) + sp.subrange(0, fi as int).push(sp[fi as int]) =~= ((
                            fp + lp) + sp.subrange(0, fi as int)).push(sp[fi as int]));
                        }
                        fi = fi + 1;
                    }
                    proof {
                        assert(sp.subrange(0, sp.len() as int) =~= sp);
                        assert((fp + lp) + sp =~= fp + (lp + sp));
                    }
                },
                None => {
                    proof {
                        assert(session_pairs(sess, mapping@) =~= Seq::<
                            (Seq<char>, Coverage),
                        >::empty());
                        assert(lp + Seq::<(Seq<char>, Coverage)>::empty() =~= lp);
                        assert(fp + (lp + session_pairs(sess, mapping@)) =~= fp + lp);
                    }
                },
            }
            si = si + 1;
        }
        proof {
            assert(sessions.subrange(0, sessions.len() as int) =~= sessions);
            assert(lines@.subrange(0, li as int + 1).drop_last() =~= lines@.subrange(0, li as int));
            assert(lines@.subrange(0, li as int + 1).last() == lines@[li as int]);
        }
        li = li + 1;
    }
    proof {
        assert(lines@.subrange(0, lines@.len() as int) =~= lines@);
    }
    pairs
}

impl ReportFile {
    /// Per-flag totals of this file: for every line, for every session
    /// attached to it, for every flag mapped to that session's id, the
    /// flag's bucket counts one line, tallied by that session's own
    /// verdict. A session with no flag mapping contributes to no bucket;
    /// a flag never seen has no entry.
    pub fn calculate_per_flag_totals(&self, flag_mapping: &Vec<(i32, Vec<String>)>) -> (r: Vec<
        (String, ReportTotals),
    >)
        ensures
            per_flag_matches(r@, file_per_flag_model(self.lines@, flag_mapping@)),
    {
        let pairs = collect_file_pairs(&self.lines, flag_mapping);
        fold_pairs(&pairs)
    }
}

/// Every cached-verdict file fold satisfies the totals invariant: it
/// counts one file, one line per entry, `lines == hits + misses +
/// partials`, and leaves the remaining counters zero.
pub proof fn lemma_file_totals_invariant(lines: Seq<(i32, ReportLine)>)
    ensures
        file_totals_model(lines).files == 1,
        file_totals_model(lines).lines == lines.len(),
        file_totals_model(lines).hits >= 0,
        file_totals_model(lines).misses >= 0,
        file_totals_model(lines).partials >= 0,
        file_totals_model(lines).hits + file_totals_model(lines).misses + file_totals_model(
            lines,
        ).partials == file_totals_model(lines).lines,
        file_totals_model(lines).branches == 0,
        file_totals_model(lines).sessions == 0,
        file_totals_model(lines).complexity == 0,
        file_totals_model(lines).complexity_total == 0,
    decreases lines.len(),
{
    if lines.len() > 0 {
        lemma_file_totals_invariant(lines.drop_last());
    }
}

/// The error a report query reports instead of aborting.
#[derive(Clone, Copy, PartialEq, Eq, Structural, Debug)]
pub enum ReportError {
    /// A file index does not address any file of the report.
    InvalidFileIndex,
}

/// The whole parsed report: file paths mapped to indices into
/// `report_files`, the files themselves, and each session id's flags.
/// Built once by the ingestion layer and read-only afterwards.
pub struct Report {
    pub filenames: Vec<(String, usize)>,
    pub report_files: Vec<ReportFile>,
    pub session_mapping: Vec<(i32, Vec<String>)>,
}

/// Whether any flag of `session_flags` is among the requested `flags`.
pub open spec fn flags_intersect(session_flags: Seq<String>, flags: Seq<String>) -> bool {
    exists|i: int, j: int|
        0 <= i < session_flags.len() && 0 <= j < flags.len() && (#[trigger] session_flags[i])@ == (
        #[trigger] flags[j])@
}

/// The ids of the sessions whose flag list intersects `flags`, in
/// mapping order.
pub open spec fn sessions_from_flags_model(
    mapping: Seq<(i32, Vec<String>)>,
    flags: Seq<String>,
) -> Seq<i32>
    decreases mapping.len(),
{
    if mapping.len() == 0 {
        Seq::empty()
    } else {
        let rest = sessions_from_flags_model(mapping.drop_last(), flags);
        if flags_intersect(mapping.last().1@, flags) {
            rest.push(mapping.last().0)
        } else {
            rest
        }
    }
}

/// A session id is selected by a flag list exactly when the mapping
/// attaches to it at least one of the requested flags.
pub proof fn lemma_sessions_from_flags_membership(
    mapping: Seq<(i32, Vec<String>)>,
    flags: Seq<String>,
)
    ensures
        forall|id: i32|
            sessions_from_flags_model(mapping, flags).contains(id) <==> exists|k: int|
                0 <= k < mapping.len() && (#[trigger] mapping[k]).0 == id && flags_intersect(
                    mapping[k].1@,
                    flags,
                ),
    decreases mapping.len(),
{
    if mapping.len() > 0 {
        let prev = mapping.drop_last();
        lemma_sessions_from_flags_membership(prev, flags);
        let s = sessions_from_flags_model(mapping, flags);
        let sp = sessions_from_flags_model(prev, flags);
        assert forall|id: i32| s.contains(id) implies exists|k: int|
            0 <= k < mapping.len() && (#[trigger] mapping[k]).0 == id && flags_intersect(
                mapping[k].1@,
                flags,
            ) by {
            let i = choose|i: int| 0 <= i < s.len() && s[i] == id;
            if flags_intersect(mapping.last().1@, flags) {
                if i < sp.len() {
                    assert(sp[i] == id);
                    assert(sp.contains(id));
                    let k = choose|k: int|
                        0 <= k < prev.len() && (#[trigger] prev[k]).0 == id && flags_intersect(
                            prev[k].1@,
                            flags,
                        );
                    assert(mapping[k] == prev[k]);
                } else {
                    assert(mapping[mapping.len() - 1].0 == id);
                }
            } else {
                assert(sp.contains(id));
                let k = choose|k: int|
                    0 <= k < prev.len() && (#[trigger] prev[k]).0 == id && flags_intersect(
                        prev[k].1@,
                        flags,
                    );
                assert(mapping[k] == prev[k]);
            }
        }
        assert forall|id: i32|
            (exists|k: int|
                0 <= k < mapping.len() && (#[trigger] mapping[k]).0 == id && flags_intersect(
                    mapping[k].1@,
                    flags,
                )) implies s.contains(id) by {
            let k = choose|k: int|
                0 <= k < mapping.len() && (#[trigger] mapping[k]).0 == id && flags_intersect(
                    mapping[k].1@,
                    flags,
                );
            if k < mapping.len() - 1 {
                assert(prev[k] == mapping[k]);
                assert(sp.contains(id));
                let i = choose|i: int| 0 <= i < sp.len() && sp[i] == id;
                if flags_intersect(mapping.last().1@, flags) {
                    assert(s[i] == id);
                } else {
                    assert(s[i] == id);
                }
            } else {
                assert(mapping.last() == mapping[mapping.len() - 1]);
                assert(flags_intersect(mapping.last().1@, flags));
                assert(s[s.len() - 1] == id);
            }
            assert(s.contains(id));
        }
    }
}

fn flags_intersect_exec(session_flags: &Vec<String>, flags: &Vec<String>) -> (b: bool)
    ensures
        b == flags_intersect(session_flags@, flags@),
{
    let mut i: usize = 0;
    while i < session_flags.len()
        invariant
            i <= session_flags.len(),
            forall|k: int, j: int|
                0 <= k < i && 0 <= j < flags@.len() ==> (#[trigger] session_flags@[k])@ != (
                #[trigger] flags@[j])@,
        decreases session_flags.len() - i,
    {
        let mut j: usize = 0;
        while j < flags.len()
            invariant
                i < session_flags@.len(),
                j <= flags@.len(),
                forall|l: int|
                    0 <= l < j ==> (session_flags@[i as int])@ != (#[trigger] flags@[l])@,
            decreases flags.len() - j,
        {
            if session_flags[i] == flags[j] {
                return true;
            }
            j = j + 1;
        }
        i = i + 1;
    }
    false
}

/// First index mapped to `name` among the report's file paths.
pub open spec fn lookup_filename(filenames: Seq<(String, usize)>, name: String) -> Option<usize>
    decreases filenames.len(),
{
    if filenames.len() == 0 {
        None
    } else if filenames[0].0@ == name@ {
        Some(filenames[0].1)
    } else {
        lookup_filename(filenames.subrange(1, filenames.len() as int), name)
    }
}

proof fn lemma_lookup_filename_some(filenames: Seq<(String, usize)>, name: String)
    ensures
        lookup_filename(filenames, name) is Some ==> exists|k: int|
            0 <= k < filenames.len() && (#[trigger] filenames[k]).1 == lookup_filename(
                filenames,
                name,
            )->Some_0,
    decreases filenames.len(),
{
    if filenames.len() > 0 && !(filenames[0].0@ == name@) {
        let rest = filenames.subrange(1, filenames.len() as int);
        lemma_lookup_filename_some(rest, name);
        if lookup_filename(filenames, name) is Some {
            let k = choose|k: int|
                0 <= k < rest.len() && (#[trigger] rest[k]).1 == lookup_filename(
                    rest,
                    name,
                )->Some_0;
            assert(filenames[k + 1] == rest[k]);
        }
    }
}

fn lookup_filename_exec(filenames: &Vec<(String, usize)>, name: &String) -> (r: Option<usize>)
    ensures
        r == lookup_filename(filenames@, *name),
{
    proof {
        assert(filenames@.subrange(0, filenames@.len() as int) =~= filenames@);
    }
    let mut i: usize = 0;
    while i < filenames.len()
        invariant
            i <= filenames.len(),
            lookup_filename(filenames@, *name) == lookup_filename(
                filenames@.subrange(i as int, filenames@.len() as int),
                *name,
            ),
        decreases filenames.len() - i,
    {
        let ghost suffix = filenames@.subrange(i as int, filenames@.len() as int);
        proof {
            assert(suffix[0] == filenames@[i as int]);
            assert(suffix.subrange(1, suffix.len() as int) =~= filenames@.subrange(
                i as int + 1,
                filenames@.len() as int,
            ));
        }
        if filenames[i].0 == *name {
            return Some(filenames[i].1);
        }
        i = i + 1;
    }
    proof {
        assert(filenames@.subrange(filenames@.len() as int, filenames@.len() as int) =~= Seq::<
            (String, usize),
        >::empty());
    }
    None
}

/// Fold of every file's cached totals, starting from the all-zero
/// identity.
pub open spec fn report_totals_model(files: Seq<ReportFile>) -> TotalsModel
    decreases files.len(),
{
    if files.len() == 0 {
        zero_model()
    } else {
        add_model(report_totals_model(files.drop_last()), file_totals_model(files.last().lines@))
    }
}

/// The whole-report fold satisfies the totals invariant: one file per
/// `ReportFile`, `lines == hits + misses + partials`, the counters this
/// core does not compute left zero.
pub proof fn lemma_report_totals_invariant(files: Seq<ReportFile>)
    ensures
        report_totals_model(files).files == files.len(),
        report_totals_model(files).lines >= 0,
        report_totals_model(files).hits >= 0,
        report_totals_model(files).misses >= 0,
        report_totals_model(files).partials >= 0,
        report_totals_model(files).hits + report_totals_model(files).misses + report_totals_model(
            files,
        ).partials == report_totals_model(files).lines,
        report_totals_model(files).branches == 0,
        report_totals_model(files).sessions == 0,
        report_totals_model(files).complexity == 0,
        report_totals_model(files).complexity_total == 0,
    decreases files.len(),
{
    if files.len() > 0 {
        lemma_report_totals_invariant(files.drop_last());
        lemma_file_totals_invariant(files.last().lines@);
    }
}

proof fn lemma_report_totals_prefix_le(files: Seq<ReportFile>, n: int)
    requires
        0 <= n <= files.len(),
    ensures
        le_model(report_totals_model(files.subrange(0, n)), report_totals_model(files)),
    decreases files.len() - n,
{
    if n == files.len() {
        assert(files.subrange(0, n) =~= files);
    } else {
        lemma_report_totals_prefix_le(files, n + 1);
        assert(files.subrange(0, n + 1).drop_last() =~= files.subrange(0, n));
        assert(files.subrange(0, n + 1).last() == files[n]);
        lemma_file_totals_invariant(files[n].lines@);
        lemma_report_totals_invariant(files.subrange(0, n));
    }
}

/// Every session-filtered file fold satisfies the same totals
/// invariant as the cached fold.
pub proof fn lemma_file_filtered_invariant(lines: Seq<(i32, ReportLine)>, ids: Seq<i32>)
    ensures
        file_filtered_model(lines, ids).files == 1,
        file_filtered_model(lines, ids).lines == lines.len(),
        file_filtered_model(lines, ids).hits >= 0,
        file_filtered_model(lines, ids).misses >= 0,
        file_filtered_model(lines, ids).partials >= 0,
        file_filtered_model(lines, ids).hits + file_filtered_model(lines, ids).misses
            + file_filtered_model(lines, ids).partials == file_filtered_model(lines, ids).lines,
        file_filtered_model(lines, ids).branches == 0,
        file_filtered_model(lines, ids).sessions == 0,
        file_filtered_model(lines, ids).complexity == 0,
        file_filtered_model(lines, ids).complexity_total == 0,
    decreases lines.len(),
{
    if lines.len() > 0 {
        lemma_file_filtered_invariant(lines.drop_last(), ids);
    }
}

/// Fold of the session-filtered totals of the requested files: a name
/// found in the report contributes its file's filtered totals, a name
/// the report does not know is skipped silently.
pub open spec fn filtered_fold(r: Report, files: Seq<String>, ids: Seq<i32>) -> TotalsModel
    decreases files.len(),
{
    if files.len() == 0 {
        zero_model()
    } else {
        let rest = filtered_fold(r, files.drop_last(), ids);
        match lookup_filename(r.filenames@, files.last()) {
            Some(idx) => add_model(
                rest,
                file_filtered_model(r.report_files@[idx as int].lines@, ids),
            ),
            None => rest,
        }
    }
}

/// What `Report::get_filtered_totals` returns: the requested flags
/// resolved to session ids, then the filtered fold over the requested
/// file names.
pub open spec fn filtered_totals_model(r: Report, files: Seq<String>, flags: Seq<String>,
) -> TotalsModel {
    filtered_fold(r, files, sessions_from_flags_model(r.session_mapping@, flags))
}

/// Every filtered fold over file names satisfies the totals invariant:
/// `lines == hits + misses + partials`, at most one file counted per
/// requested name, the unfilled counters zero.
pub proof fn lemma_filtered_fold_invariant(r: Report, files: Seq<String>, ids: Seq<i32>)
    ensures
        0 <= filtered_fold(r, files, ids).files <= files.len(),
        filtered_fold(r, files, ids).lines >= 0,
        filtered_fold(r, files, ids).hits >= 0,
        filtered_fold(r, files, ids).misses >= 0,
        filtered_fold(r, files, ids).partials >= 0,
        filtered_fold(r, files, ids).hits + filtered_fold(r, files, ids).misses + filtered_fold(
            r,
            files,
            ids,
        ).partials == filtered_fold(r, files, ids).lines,
        filtered_fold(r, files, ids).branches == 0,
        filtered_fold(r, files, ids).sessions == 0,
        filtered_fold(r, files, ids).complexity == 0,
        filtered_fold(r, files, ids).complexity_total == 0,
    decreases files.len(),
{
    if files.len() > 0 {
        lemma_filtered_fold_invariant(r, files.drop_last(), ids);
        if lookup_filename(r.filenames@, files.last()) is Some {
            let idx = lookup_filename(r.filenames@, files.last())->Some_0;
            lemma_file_filtered_invariant(r.report_files@[idx as int].lines@, ids);
        }
    }
}

proof fn lemma_filtered_fold_prefix_le(r: Report, files: Seq<String>, ids: Seq<i32>, n: int)
    requires
        0 <= n <= files.len(),
    ensures
        le_model(
            filtered_fold(r, files.subrange(0, n), ids),
            filtered_fold(r, files, ids),
        ),
    decreases files.len() - n,
{
    if n == files.len() {
        assert(files.subrange(0, n) =~= files);
    } else {
        lemma_filtered_fold_prefix_le(r, files, ids, n + 1);
        assert(files.subrange(0, n + 1).drop_last() =~= files.subrange(0, n));
        assert(files.subrange(0, n + 1).last() == files[n]);
        if lookup_filename(r.filenames@, files[n]) is Some {
            let idx = lookup_filename(r.filenames@, files[n])->Some_0;
            lemma_file_filtered_invariant(r.report_files@[idx as int].lines@, ids);
        }
        lemma_filtered_fold_invariant(r, files.subrange(0, n), ids);
    }
}

/// Flag-to-totals entries as their mathematical view.
pub open spec fn entries_view(es: Seq<(String, ReportTotals)>) -> Seq<(Seq<char>, TotalsModel)> {
    es.map_values(|e: (String, ReportTotals)| (e.0@, e.1@))
}

/// Field-wise sum of the totals of every entry carrying flag `f`.
pub open spec fn entries_sum(es: Seq<(Seq<char>, TotalsModel)>, f: Seq<char>) -> TotalsModel
    decreases es.len(),
{
    if es.len() == 0 {
        zero_model()
    } else {
        let rest = entries_sum(es.drop_last(), f);
        if es.last().0 == f {
            add_model(rest, es.last().1)
        } else {
            rest
        }
    }
}

/// Whether some entry carries flag `f`.
pub open spec fn has_key(es: Seq<(Seq<char>, TotalsModel)>, f: Seq<char>) -> bool {
    exists|k: int| 0 <= k < es.len() && (#[trigger] es[k]).0 == f
}

/// One file's contribution to a flag's report-wide bucket: the flag's
/// bucket in that file, or zero when the flag does not occur there.
pub open spec fn file_flag_bucket(
    file: ReportFile,
    mapping: Seq<(i32, Vec<String>)>,
    f: Seq<char>,
) -> TotalsModel {
    let covs = covs_for(file_pairs(file.lines@, mapping), f);
    if covs.len() == 0 {
        zero_model()
    } else {
        bucket_model(covs, 1)
    }
}

/// A flag's report-wide bucket: the field-wise sum of its bucket in
/// every file, so `files` counts the files in which the flag occurs.
pub open spec fn report_flag_bucket(
    files: Seq<ReportFile>,
    mapping: Seq<(i32, Vec<String>)>,
    f: Seq<char>,
) -> TotalsModel
    decreases files.len(),
{
    if files.len() == 0 {
        zero_model()
    } else {
        add_model(
            report_flag_bucket(files.drop_last(), mapping, f),
            file_flag_bucket(files.last(), mapping, f),
        )
    }
}

/// The report-wide per-flag map: a flag is present exactly when it
/// occurs somewhere in the report, and maps to its report-wide bucket.
pub open spec fn report_per_flag_model(
    files: Seq<ReportFile>,
    mapping: Seq<(i32, Vec<String>)>,
) -> Map<Seq<char>, TotalsModel> {
    Map::new(
        |f: Seq<char>| report_flag_bucket(files, mapping, f).lines > 0,
        |f: Seq<char>| report_flag_bucket(files, mapping, f),
    )
}

/// Every flag's report-wide bucket fits in the machine counters.
pub open spec fn per_flag_fits(files: Seq<ReportFile>, mapping: Seq<(i32, Vec<String>)>) -> bool {
    forall|f: Seq<char>| fits(#[trigger] report_flag_bucket(files, mapping, f))
}

/// Every report-wide flag bucket satisfies the totals invariant:
/// `lines == hits + misses + partials`, at most one file counted per
/// file of the report, the unfilled counters zero.
pub proof fn lemma_report_flag_bucket_invariant(
    files: Seq<ReportFile>,
    mapping: Seq<(i32, Vec<String>)>,
    f: Seq<char>,
)
    ensures
        0 <= report_flag_bucket(files, mapping, f).files <= files.len(),
        report_flag_bucket(files, mapping, f).lines >= 0,
        report_flag_bucket(files, mapping, f).hits >= 0,
        report_flag_bucket(files, mapping, f).misses >= 0,
        report_flag_bucket(files, mapping, f).partials >= 0,
        report_flag_bucket(files, mapping, f).hits + report_flag_bucket(files, mapping, f).misses
            + report_flag_bucket(files, mapping, f).partials == report_flag_bucket(
            files,
            mapping,
            f,
        ).lines,
        report_flag_bucket(files, mapping, f).branches == 0,
        report_flag_bucket(files, mapping, f).sessions == 0,
        report_flag_bucket(files, mapping, f).complexity == 0,
        report_flag_bucket(files, mapping, f).complexity_total == 0,
    decreases files.len(),
{
    if files.len() > 0 {
        lemma_report_flag_bucket_invariant(files.drop_last(), mapping, f);
        lemma_counts_invariant(covs_for(file_pairs(files.last().lines@, mapping), f));
    }
}

proof fn lemma_entries_sum_absent(es: Seq<(Seq<char>, TotalsModel)>, f: Seq<char>)
    requires
        forall|k: int| 0 <= k < es.len() ==> (#[trigger] es[k]).0 != f,
    ensures
        entries_sum(es, f) == zero_model(),
    decreases es.len(),
{
    if es.len() > 0 {
        lemma_entries_sum_absent(es.drop_last(), f);
    }
}

proof fn lemma_entries_sum_unique_key(es: Seq<(Seq<char>, TotalsModel)>, f: Seq<char>, j: int)
    requires
        0 <= j < es.len(),
        es[j].0 == f,
        forall|k: int, l: int|
            0 <= k < l < es.len() ==> (#[trigger] es[k]).0 != (#[trigger] es[l]).0,
    ensures
        entries_sum(es, f) == es[j].1,
    decreases es.len(),
{
    if j == es.len() - 1 {
        assert forall|k: int| 0 <= k < es.drop_last().len() implies (#[trigger] es.drop_last()[k]).0
            != f by {
            assert(es[k].0 != es[j].0);
        }
        lemma_entries_sum_absent(es.drop_last(), f);
    } else {
        assert(es.last().0 != f);
        lemma_entries_sum_unique_key(es.drop_last(), f, j);
    }
}

proof fn lemma_entries_sum_concat(
    a: Seq<(Seq<char>, TotalsModel)>,
    b: Seq<(Seq<char>, TotalsModel)>,
    f: Seq<char>,
)
    ensures
        entries_sum(a + b, f) == add_model(entries_sum(a, f), entries_sum(b, f)),
    decreases b.len(),
{
    if b.len() == 0 {
        assert(a + b =~= a);
    } else {
        lemma_entries_sum_concat(a, b.drop_last(), f);
        assert((a + b).drop_last() =~= a + b.drop_last());
        assert((a + b).last() == b.last());
    }
}

proof fn lemma_has_key_concat(
    a: Seq<(Seq<char>, TotalsModel)>,
    b: Seq<(Seq<char>, TotalsModel)>,
    f: Seq<char>,
)
    ensures
        has_key(a + b, f) <==> (has_key(a, f) || has_key(b, f)),
{
    if has_key(a + b, f) {
        let k = choose|k: int| 0 <= k < (a + b).len() && (#[trigger] (a + b)[k]).0 == f;
        if k < a.len() {
            assert(a[k] == (a + b)[k]);
            assert(has_key(a, f));
        } else {
            assert(b[k - a.len()] == (a + b)[k]);
            assert(has_key(b, f));
        }
    }
    if has_key(a, f) {
        let k = choose|k: int| 0 <= k < a.len() && (#[trigger] a[k]).0 == f;
        assert((a + b)[k] == a[k]);
        assert(has_key(a + b, f));
    }
    if has_key(b, f) {
        let k = choose|k: int| 0 <= k < b.len() && (#[trigger] b[k]).0 == f;
        assert((a + b)[k + a.len()] == b[k]);
        assert(has_key(a + b, f));
    }
}

proof fn lemma_entries_sum_prefix_le(es: Seq<(Seq<char>, TotalsModel)>, f: Seq<char>, n: int)
    requires
        0 <= n <= es.len(),
        forall|k: int| 0 <= k < es.len() ==> nonneg_model((#[trigger] es[k]).1),
    ensures
        le_model(entries_sum(es.subrange(0, n), f), entries_sum(es, f)),
        nonneg_model(entries_sum(es.subrange(0, n), f)),
    decreases es.len() - n,
{
    lemma_entries_sum_nonneg(es.subrange(0, n), f);
    if n == es.len() {
        assert(es.subrange(0, n) =~= es);
    } else {
        lemma_entries_sum_prefix_le(es, f, n + 1);
        assert(es.subrange(0, n + 1).drop_last() =~= es.subrange(0, n));
        assert(es.subrange(0, n + 1).last() == es[n]);
    }
}

proof fn lemma_entries_sum_nonneg(es: Seq<(Seq<char>, TotalsModel)>, f: Seq<char>)
    requires
        forall|k: int| 0 <= k < es.len() ==> nonneg_model((#[trigger] es[k]).1),
    ensures
        nonneg_model(entries_sum(es, f)),
    decreases es.len(),
{
    if es.len() > 0 {
        lemma_entries_sum_nonneg(es.drop_last(), f);
    }
}

fn merge_entries(entries: &Vec<(String, ReportTotals)>) -> (r: Vec<(String, ReportTotals)>)
    requires
        forall|f: Seq<char>| fits(#[trigger] entries_sum(entries_view(entries@), f)),
    ensures
        forall|k: int, l: int|
            0 <= k < l < r@.len() ==> (#[trigger] r@[k]).0@ != (#[trigger] r@[l]).0@,
        forall|k: int|
            0 <= k < r@.len() ==> (#[trigger] r@[k]).1@ == entries_sum(
                entries_view(entries@),
                r@[k].0@,
            ) && has_key(entries_view(entries@), r@[k].0@),
        forall|f: Seq<char>|
            has_key(entries_view(entries@), f) ==> exists|k: int|
                0 <= k < r@.len() && (#[trigger] r@[k]).0@ == f,
{
    let ghost ev = entries_view(entries@);
    proof {
        assert(forall|k: int| 0 <= k < ev.len() ==> nonneg_model((#[trigger] ev[k]).1));
    }
    let mut acc: Vec<(String, ReportTotals)> = Vec::new();
    proof {
        assert(ev.subrange(0, 0) =~= Seq::<(Seq<char>, TotalsModel)>::empty());
    }
    let mut i: usize = 0;
    while i < entries.len()
        invariant
            i <= entries@.len(),
            ev == entries_view(entries@),
            forall|f: Seq<char>| fits(#[trigger] entries_sum(ev, f)),
            forall|k: int| 0 <= k < ev.len() ==> nonneg_model((#[trigger] ev[k]).1),
            forall|k: int, l: int|
                0 <= k < l < acc@.len() ==> (#[trigger] acc@[k]).0@ != (#[trigger] acc@[l]).0@,
            forall|k: int|
                0 <= k < acc@.len() ==> (#[trigger] acc@[k]).1@ == entries_sum(
                    ev.subrange(0, i as int),
                    acc@[k].0@,
                ) && has_key(ev.subrange(0, i as int), acc@[k].0@),
            forall|f: Seq<char>|
                has_key(ev.subrange(0, i as int), f) ==> exists|k: int|
                    0 <= k < acc@.len() && (#[trigger] acc@[k]).0@ == f,
        decreases entries@.len() - i,
    {
        let ghost prefix = ev.subrange(0, i as int);
        let ghost next = ev.subrange(0, i as int + 1);
        let ghost f = entries@[i as int].0@;
        proof {
            assert(next.drop_last() =~= prefix);
            assert(next.last() == (entries@[i as int].0@, entries@[i as int].1@));
            assert forall|g: Seq<char>| g != f implies entries_sum(next, g) == entries_sum(
                prefix,
                g,
            ) && (has_key(next, g) <==> has_key(prefix, g)) by {
                assert(next.drop_last() =~= prefix);
                if has_key(next, g) {
                    let k = choose|k: int| 0 <= k < next.len() && (#[trigger] next[k]).0 == g;
                    assert(k < prefix.len() && prefix[k] == next[k]);
                }
                if has_key(prefix, g) {
                    let k = choose|k: int| 0 <= k < prefix.len() && (#[trigger] prefix[k]).0 == g;
                    assert(next[k] == prefix[k]);
                }
            }
            assert(entries_sum(next, f) == add_model(entries_sum(prefix, f), ev[i as int].1));
            assert(next[i as int].0 == f);
            assert(has_key(next, f));
        }
        match find_key(&acc, &entries[i].0) {
            Some(j) => {
                let ghost aprev = acc@;
                let mut t = acc[j].1;
                proof {
                    assert(t@ == entries_sum(prefix, f));
                    lemma_entries_sum_prefix_le(ev, f, i as int + 1);
                    assert(le_model(entries_sum(next, f), entries_sum(ev, f)));
                    lemma_entries_sum_nonneg(next, f);
                    assert(fits(add_model(t@, entries@[i as int].1@)));
                }
                t.add_up(&entries[i].1);
                acc[j].1 = t;
                proof {
                    assert(acc@.len() == aprev.len());
                    assert(forall|k: int|
                        0 <= k < acc@.len() ==> (#[trigger] acc@[k]).0 == aprev[k].0);
                    assert forall|k: int, l: int|
                        0 <= k < l < acc@.len() implies (#[trigger] acc@[k]).0@ != (
                    #[trigger] acc@[l]).0@ by {
                        assert(aprev[k].0@ != aprev[l].0@);
                    }
                    assert forall|k: int|
                        0 <= k < acc@.len() implies (#[trigger] acc@[k]).1@ == entries_sum(
                        next,
                        acc@[k].0@,
                    ) && has_key(next, acc@[k].0@) by {
                        if k == j {
                            assert(acc@[k].1@ == t@);
                        } else {
                            assert(acc@[k].1 == aprev[k].1);
                            assert(acc@[k].0@ != f);
                        }
                    }
                    assert forall|g: Seq<char>| has_key(next, g) implies exists|k: int|
                        0 <= k < acc@.len() && (#[trigger] acc@[k]).0@ == g by {
                        if g == f {
                            assert(acc@[j as int].0@ == g);
                        } else {
                            assert(has_key(prefix, g));
                            let k = choose|k: int|
                                0 <= k < aprev.len() && (#[trigger] aprev[k]).0@ == g;
                            assert(acc@[k].0@ == g);
                        }
                    }
                }
            },
            None => {
                let ghost aprev = acc@;
                proof {
                    if has_key(prefix, f) {
                        let k = choose|k: int|
                            0 <= k < aprev.len() && (#[trigger] aprev[k]).0@ == f;
                        assert(false);
                    }
                    assert forall|k: int|
                        0 <= k < prefix.len() implies (#[trigger] prefix[k]).0 != f by {
                        if prefix[k].0 == f {
                            assert(has_key(prefix, f));
                        }
                    }
                    lemma_entries_sum_absent(prefix, f);
                }
                let name = entries[i].0.clone();
                let t = entries[i].1;
                acc.push((name, t));
                proof {
                    assert(acc@ == aprev.push((name, t)));
                    assert(acc@[acc@.len() - 1].0@ == f);
                    assert(t@ == entries_sum(next, f));
                    assert forall|k: int, l: int|
                        0 <= k < l < acc@.len() implies (#[trigger] acc@[k]).0@ != (
                    #[trigger] acc@[l]).0@ by {
                        if l < acc@.len() - 1 {
                            assert(aprev[k].0@ != aprev[l].0@);
                        } else {
                            assert(acc@[k].0 == aprev[k].0);
                        }
                    }
                    assert forall|k: int|
                        0 <= k < acc@.len() implies (#[trigger] acc@[k]).1@ == entries_sum(
                        next,
                        acc@[k].0@,
                    ) && has_key(next, acc@[k].0@) by {
                        if k < acc@.len() - 1 {
                            assert(acc@[k] == aprev[k]);
                            assert(acc@[k].0@ != f);
                        }
                    }
                    assert forall|g: Seq<char>| has_key(next, g) implies exists|k: int|
                        0 <= k < acc@.len() && (#[trigger] acc@[k]).0@ == g by {
                        if g == f {
                            assert(acc@[acc@.len() - 1].0@ == g);
                        } else {
                            assert(has_key(prefix, g));
                            let k = choose|k: int|
                                0 <= k < aprev.len() && (#[trigger] aprev[k]).0@ == g;
                            assert(acc@[k].0@ == g);
                        }
                    }
                }
            },
        }
        i = i + 1;
    }
    proof {
        assert(ev.subrange(0, ev.len() as int) =~= ev);
        assert(ev.len() == entries@.len());
    }
    acc
}

impl Report {
    /// The data-model invariants of a parsed report: file paths are
    /// unique and map to valid indices, session ids are unique in the
    /// mapping, and every file is well formed.
    pub open spec fn wf(self) -> bool {
        &&& forall|i: int, j: int|
            0 <= i < j < self.filenames@.len() ==> (#[trigger] self.filenames@[i]).0@ != (
            #[trigger] self.filenames@[j]).0@
        &&& forall|i: int|
            0 <= i < self.filenames@.len() ==> (#[trigger] self.filenames@[i]).1
                < self.report_files@.len()
        &&& forall|i: int, j: int|
            0 <= i < j < self.session_mapping@.len() ==> (#[trigger] self.session_mapping@[i]).0
                != (#[trigger] self.session_mapping@[j]).0
        &&& forall|i: int| 0 <= i < self.report_files@.len() ==> (#[trigger] self.report_files@[i]).wf()
    }

    /// The ids of the sessions whose flag list intersects the requested
    /// flags; a session is selected exactly when at least one of its
    /// flags is requested.
    pub fn get_sessions_from_flags(&self, flags: &Vec<String>) -> (r: Vec<i32>)
        ensures
            r@ == sessions_from_flags_model(self.session_mapping@, flags@),
            forall|id: i32|
                r@.contains(id) <==> exists|k: int|
                    0 <= k < self.session_mapping@.len() && (#[trigger] self.session_mapping@[k]).0
                        == id && flags_intersect(self.session_mapping@[k].1@, flags@),
    {
        let mut res: Vec<i32> = Vec::new();
        proof {
            assert(self.session_mapping@.subrange(0, 0) =~= Seq::<(i32, Vec<String>)>::empty());
        }
        let mut i: usize = 0;
        while i < self.session_mapping.len()
            invariant
                i <= self.session_mapping@.len(),
                res@ == sessions_from_flags_model(self.session_mapping@.subrange(0, i as int), flags@),
            decreases self.session_mapping@.len() - i,
        {
            proof {
                assert(self.session_mapping@.subrange(0, i as int + 1).drop_last()
                    =~= self.session_mapping@.subrange(0, i as int));
                assert(self.session_mapping@.subrange(0, i as int + 1).last()
                    == self.session_mapping@[i as int]);
            }
            if flags_intersect_exec(&self.session_mapping[i].1, flags) {
                res.push(self.session_mapping[i].0);
            }
            i = i + 1;
        }
        proof {
            assert(self.session_mapping@.subrange(0, self.session_mapping@.len() as int)
                =~= self.session_mapping@);
            lemma_sessions_from_flags_membership(self.session_mapping@, flags@);
        }
        res
    }

    /// Session-filtered totals over the requested file names: unknown
    /// names are skipped silently, so `files` counts only the names the
    /// report knows; every line of a selected file counts, resolved
    /// against only the sessions carrying a requested flag.
    pub fn get_filtered_totals(&self, files: &Vec<String>, flags: &Vec<String>) -> (r: ReportTotals)
        requires
            self.wf(),
            fits(filtered_totals_model(*self, files@, flags@)),
        ensures
            r@ == filtered_totals_model(*self, files@, flags@),
    {
        let sessions = self.get_sessions_from_flags(flags);
        let ghost ids = sessions@;
        let mut initial = ReportTotals {
            files: 0,
            lines: 0,
            hits: 0,
            misses: 0,
            partials: 0,
            branches: 0,
            sessions: 0,
            complexity: 0,
            complexity_total: 0,
        };
        proof {
            assert(files@.subrange(0, 0) =~= Seq::<String>::empty());
        }
        let mut i: usize = 0;
        while i < files.len()
            invariant
                i <= files@.len(),
                self.wf(),
                ids == sessions@,
                ids == sessions_from_flags_model(self.session_mapping@, flags@),
                fits(filtered_fold(*self, files@, ids)),
                initial@ == filtered_fold(*self, files@.subrange(0, i as int), ids),
            decreases files@.len() - i,
        {
            proof {
                assert(files@.subrange(0, i as int + 1).drop_last() =~= files@.subrange(
                    0,
                    i as int,
                ));
                assert(files@.subrange(0, i as int + 1).last() == files@[i as int]);
            }
            let location = lookup_filename_exec(&self.filenames, &files[i]);
            if let Some(idx) = location {
                proof {
                    lemma_lookup_filename_some(self.filenames@, files@[i as int]);
                }
                let report_file = &self.report_files[idx];
                let some_totals = report_file.get_filtered_totals(&sessions);
                proof {
                    lemma_filtered_fold_prefix_le(*self, files@, ids, i as int + 1);
                    lemma_filtered_fold_invariant(*self, files@.subrange(0, i as int + 1), ids);
                }
                initial.add_up(&some_totals);
            }
            i = i + 1;
        }
        proof {
            assert(files@.subrange(0, files@.len() as int) =~= files@);
        }
        initial
    }

    /// Whole-report, unfiltered totals: the field-wise sum of every
    /// file's cached totals.
    pub fn get_totals(&self) -> (r: ReportTotals)
        requires
            fits(report_totals_model(self.report_files@)),
        ensures
            r@ == report_totals_model(self.report_files@),
    {
        let mut res = ReportTotals {
            files: 0,
            lines: 0,
            hits: 0,
            misses: 0,
            partials: 0,
            branches: 0,
            sessions: 0,
            complexity: 0,
            complexity_total: 0,
        };
        proof {
            assert(self.report_files@.subrange(0, 0) =~= Seq::<ReportFile>::empty());
        }
        let mut i: usize = 0;
        while i < self.report_files.len()
            invariant
                i <= self.report_files@.len(),
                fits(report_totals_model(self.report_files@)),
                res@ == report_totals_model(self.report_files@.subrange(0, i as int)),
            decreases self.report_files@.len() - i,
        {
            proof {
                assert(self.report_files@.subrange(0, i as int + 1).drop_last()
                    =~= self.report_files@.subrange(0, i as int));
                assert(self.report_files@.subrange(0, i as int + 1).last()
                    == self.report_files@[i as int]);
            }
            let totals = self.report_files[i].get_totals();
            proof {
                lemma_report_totals_prefix_le(self.report_files@, i as int + 1);
                lemma_report_totals_invariant(self.report_files@.subrange(0, i as int + 1));
            }
            res.add_up(&totals);
            i = i + 1;
        }
        proof {
            assert(self.report_files@.subrange(0, self.report_files@.len() as int)
                =~= self.report_files@);
        }
        res
    }

    /// Per-flag totals over the whole report: every file's per-flag
    /// totals merged by field-wise addition, so each flag's bucket
    /// counts the files, occurrences and verdicts of only the sessions
    /// tagged with it. Flags never seen are absent, not zero-valued.
    pub fn calculate_per_flag_totals(&self) -> (r: Vec<(String, ReportTotals)>)
        requires
            per_flag_fits(self.report_files@, self.session_mapping@),
        ensures
            per_flag_matches(
                r@,
                report_per_flag_model(self.report_files@, self.session_mapping@),
            ),
    {
        let ghost files = self.report_files@;
        let ghost mapping = self.session_mapping@;
        let mut big: Vec<(String, ReportTotals)> = Vec::new();
        proof {
            assert(files.subrange(0, 0) =~= Seq::<ReportFile>::empty());
            assert(entries_view(big@) =~= Seq::<(Seq<char>, TotalsModel)>::empty());
        }
        let mut fi: usize = 0;
        while fi < self.report_files.len()
            invariant
                fi <= files.len(),
                files == self.report_files@,
                mapping == self.session_mapping@,
                forall|f: Seq<char>|
                    #![trigger entries_sum(entries_view(big@), f)]
                    entries_sum(entries_view(big@), f) == report_flag_bucket(
                        files.subrange(0, fi as int),
                        mapping,
                        f,
                    ) && (has_key(entries_view(big@), f) <==> report_flag_bucket(
                        files.subrange(0, fi as int),
                        mapping,
                        f,
                    ).lines > 0),
            decreases files.len() - fi,
        {
            let mut per = self.report_files[fi].calculate_per_flag_totals(&self.session_mapping);
            let ghost pv = entries_view(per@);
            let ghost bv = entries_view(big@);
            let ghost file = files[fi as int];
            let ghost fmodel = file_per_flag_model(file.lines@, mapping);
            proof {
                assert(forall|k: int, l: int|
                    0 <= k < l < pv.len() ==> (#[trigger] pv[k]).0 != (#[trigger] pv[l]).0);
                assert forall|f: Seq<char>|
                    #![trigger entries_sum(pv, f)]
                    entries_sum(pv, f) == file_flag_bucket(file, mapping, f) && (has_key(pv, f)
                        <==> file_flag_bucket(file, mapping, f).lines > 0) by {
                    let covs = covs_for(file_pairs(file.lines@, mapping), f);
                    lemma_counts_invariant(covs);
                    if has_key(pv, f) {
                        let j = choose|j: int| 0 <= j < pv.len() && (#[trigger] pv[j]).0 == f;
                        assert(per@[j].0@ == f);
                        assert(fmodel.dom().contains(f));
                        assert(covs.len() > 0);
                        assert(pv[j].1 == fmodel[f]);
                        lemma_entries_sum_unique_key(pv, f, j);
                    } else {
                        assert forall|k: int| 0 <= k < pv.len() implies (#[trigger] pv[k]).0
                            != f by {
                            if pv[k].0 == f {
                                assert(has_key(pv, f));
                            }
                        }
                        lemma_entries_sum_absent(pv, f);
                        if fmodel.dom().contains(f) {
                            let k = choose|k: int|
                                0 <= k < per@.len() && (#[trigger] per@[k]).0@ == f;
                            assert(pv[k].0 == f);
                            assert(has_key(pv, f));
                        }
                        assert(covs.len() == 0);
                    }
                }
            }
            big.append(&mut per);
            proof {
                assert(entries_view(big@) =~= bv + pv);
                assert(files.subrange(0, fi as int + 1).drop_last() =~= files.subrange(
                    0,
                    fi as int,
                ));
                assert(files.subrange(0, fi as int + 1).last() == file);
                assert forall|f: Seq<char>|
                    #![trigger entries_sum(entries_view(big@), f)]
                    entries_sum(entries_view(big@), f) == report_flag_bucket(
                        files.subrange(0, fi as int + 1),
                        mapping,
                        f,
                    ) && (has_key(entries_view(big@), f) <==> report_flag_bucket(
                        files.subrange(0, fi as int + 1),
                        mapping,
                        f,
                    ).lines > 0) by {
                    lemma_entries_sum_concat(bv, pv, f);
                    lemma_has_key_concat(bv, pv, f);
                    lemma_report_flag_bucket_invariant(files.subrange(0, fi as int), mapping, f);
                    lemma_counts_invariant(covs_for(file_pairs(file.lines@, mapping), f));
                }
            }
            fi = fi + 1;
        }
        proof {
            assert(files.subrange(0, files.len() as int) =~= files);
            assert forall|f: Seq<char>| fits(#[trigger] entries_sum(entries_view(big@), f)) by {
                assert(entries_sum(entries_view(big@), f) == report_flag_bucket(
                    files,
                    mapping,
                    f,
                ));
                assert(fits(report_flag_bucket(files, mapping, f)));
            }
        }
        let r = merge_entries(&big);
        proof {
            let m = report_per_flag_model(files, mapping);
            assert forall|k: int|
                0 <= k < r@.len() implies m.dom().contains((#[trigger] r@[k]).0@) && r@[k].1@
                == m[r@[k].0@] by {
                let f = r@[k].0@;
                assert(r@[k].1@ == entries_sum(entries_view(big@), f));
                assert(has_key(entries_view(big@), f));
                assert(report_flag_bucket(files, mapping, f).lines > 0);
            }
            assert forall|f: Seq<char>| m.dom().contains(f) implies exists|k: int|
                0 <= k < r@.len() && (#[trigger] r@[k]).0@ == f by {
                assert(report_flag_bucket(files, mapping, f).lines > 0);
                assert(entries_sum(entries_view(big@), f) == report_flag_bucket(files, mapping, f));
                assert(has_key(entries_view(big@), f));
            }
            assert(per_flag_matches(r@, m));
        }
        r
    }

    /// The last covered line number of the file at `file_number`, or
    /// `InvalidFileIndex` when the index does not address a file.
    pub fn get_eof(&self, file_number: i32) -> (r: Result<i32, ReportError>)
        ensures
            0 <= file_number < self.report_files@.len() ==> r == Ok::<i32, ReportError>(
                max_line(self.report_files@[file_number as int].lines@),
            ),
            !(0 <= file_number < self.report_files@.len()) ==> r == Err::<i32, ReportError>(
                ReportError::InvalidFileIndex,
            ),
    {
        if file_number < 0 {
            return Err(ReportError::InvalidFileIndex);
        }
        let idx = file_number as usize;
        if idx >= self.report_files.len() {
            return Err(ReportError::InvalidFileIndex);
        }
        Ok(self.report_files[idx].get_eof())
    }
}

} // verus!

