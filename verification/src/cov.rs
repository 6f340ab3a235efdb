//! Coverage verdicts, their join (merge) semantics, and the additive
//! totals record that every fold in this crate produces.

use vstd::prelude::*;

verus! {

/// A per-line-or-session coverage verdict. `Partial` carries
/// branch-specific detail (how many branches were taken).
#[derive(Clone, Copy, PartialEq, Eq, Structural, Debug)]
pub enum Coverage {
    Hit,
    Miss,
    Partial(i32),
}

/// Join of two verdicts: `Hit` dominates, then `Partial`, then `Miss`.
/// Two `Partial` verdicts keep the greater payload, so the join is
/// commutative and associative and a fold over it cannot depend on
/// session iteration order.
pub open spec fn join2(a: Coverage, b: Coverage) -> Coverage {
    match (a, b) {
        (Coverage::Hit, _) => Coverage::Hit,
        (_, Coverage::Hit) => Coverage::Hit,
        (Coverage::Partial(x), Coverage::Partial(y)) => Coverage::Partial(
            if x >= y {
                x
            } else {
                y
            },
        ),
        (Coverage::Partial(x), Coverage::Miss) => Coverage::Partial(x),
        (Coverage::Miss, Coverage::Partial(y)) => Coverage::Partial(y),
        (Coverage::Miss, Coverage::Miss) => Coverage::Miss,
    }
}

/// Verdict of a whole set of session verdicts: `Miss` when the set is
/// empty (no contributing session exercised the line), otherwise the
/// `join2`-fold of the verdicts.
pub open spec fn join_seq(s: Seq<Coverage>) -> Coverage
    decreases s.len(),
{
    if s.len() == 0 {
        Coverage::Miss
    } else {
        join2(join_seq(s.drop_last()), s.last())
    }
}

/// The precedence rule of the join, independent of order: the verdict
/// of a set of session verdicts is `Hit` as soon as any one of them is
/// a hit; otherwise `Partial` as soon as any one is partial, carrying
/// the greatest partial payload; otherwise `Miss`. Since each clause
/// speaks only of which verdicts occur, the join cannot depend on the
/// order in which sessions are visited.
pub proof fn lemma_join_seq_precedence(s: Seq<Coverage>)
    ensures
        (join_seq(s) is Hit) <==> (exists|i: int| 0 <= i < s.len() && s[i] is Hit),
        (join_seq(s) is Partial) <==> ((exists|i: int| 0 <= i < s.len() && s[i] is Partial) && !(
        exists|i: int| 0 <= i < s.len() && s[i] is Hit)),
        (join_seq(s) is Miss) <==> !(exists|i: int|
            0 <= i < s.len() && (s[i] is Hit || s[i] is Partial)),
        join_seq(s) is Partial ==> (exists|i: int| 0 <= i < s.len() && s[i] == join_seq(s)),
        join_seq(s) is Partial ==> (forall|i: int|
            0 <= i < s.len() && (#[trigger] s[i]) is Partial ==> s[i]->Partial_0 <= join_seq(
                s,
            )->Partial_0),
    decreases s.len(),
{
    if s.len() > 0 {
        let prev = s.drop_last();
        lemma_join_seq_precedence(prev);
        assert(forall|i: int| 0 <= i < prev.len() ==> prev[i] == s[i]);
        assert(s[s.len() - 1] == s.last());
        if join_seq(s) is Hit {
            if !(s.last() is Hit) {
                assert(join_seq(prev) is Hit);
                let i = choose|i: int| 0 <= i < prev.len() && prev[i] is Hit;
                assert(s[i] is Hit);
            }
        }
        if exists|i: int| 0 <= i < s.len() && s[i] is Hit {
            let i = choose|i: int| 0 <= i < s.len() && s[i] is Hit;
            if i < s.len() - 1 {
                assert(prev[i] is Hit);
            }
        }
        if exists|i: int| 0 <= i < s.len() && s[i] is Partial {
            let i = choose|i: int| 0 <= i < s.len() && s[i] is Partial;
            if i < s.len() - 1 {
                assert(prev[i] is Partial);
            }
        }
        if join_seq(s) is Partial {
            if join_seq(prev) is Partial && (s.last() is Miss || join_seq(
                prev,
            )->Partial_0 >= s.last()->Partial_0) {
                let i = choose|i: int| 0 <= i < prev.len() && prev[i] == join_seq(prev);
                assert(s[i] == join_seq(s));
            } else {
                assert(s[s.len() - 1] == join_seq(s));
            }
        }
    }
}

fn join2_exec(a: Coverage, b: Coverage) -> (r: Coverage)
    ensures
        r == join2(a, b),
{
    match (a, b) {
        (Coverage::Hit, _) => Coverage::Hit,
        (_, Coverage::Hit) => Coverage::Hit,
        (Coverage::Partial(x), Coverage::Partial(y)) => Coverage::Partial(
            if x >= y {
                x
            } else {
                y
            },
        ),
        (Coverage::Partial(x), Coverage::Miss) => Coverage::Partial(x),
        (Coverage::Miss, Coverage::Partial(y)) => Coverage::Partial(y),
        (Coverage::Miss, Coverage::Miss) => Coverage::Miss,
    }
}

impl Coverage {
    /// Merge the verdicts of a subset of sessions into the single
    /// verdict a report filtered to exactly those sessions would show.
    pub fn join_coverages(coverages: &Vec<Coverage>) -> (r: Coverage)
        ensures
            r == join_seq(coverages@),
    {
        let mut r = Coverage::Miss;
        let mut i: usize = 0;
        while i < coverages.len()
            invariant
                i <= coverages.len(),
                r == join_seq(coverages@.subrange(0, i as int)),
            decreases coverages.len() - i,
        {
            assert(coverages@.subrange(0, i as int + 1).drop_last() =~= coverages@.subrange(
                0,
                i as int,
            ));
            assert(coverages@.subrange(0, i as int + 1).last() == coverages@[i as int]);
            r = join2_exec(r, coverages[i]);
            i = i + 1;
        }
        assert(coverages@.subrange(0, coverages@.len() as int) =~= coverages@);
        r
    }
}

/// The additive aggregate record every fold produces: nine non-negative
/// counters. The additive identity is all-zero.
#[derive(Clone, Copy, PartialEq, Eq, Structural, Debug)]
pub struct ReportTotals {
    pub files: u64,
    pub lines: u64,
    pub hits: u64,
    pub misses: u64,
    pub partials: u64,
    pub branches: u64,
    pub sessions: u64,
    pub complexity: u64,
    pub complexity_total: u64,
}

/// Mathematical model of a totals record: the same nine counters as
/// unbounded integers, so folds can be stated without overflow caveats.
pub struct TotalsModel {
    pub files: int,
    pub lines: int,
    pub hits: int,
    pub misses: int,
    pub partials: int,
    pub branches: int,
    pub sessions: int,
    pub complexity: int,
    pub complexity_total: int,
}

impl View for ReportTotals {
    type V = TotalsModel;

    open spec fn view(&self) -> TotalsModel {
        TotalsModel {
            files: self.files as int,
            lines: self.lines as int,
            hits: self.hits as int,
            misses: self.misses as int,
            partials: self.partials as int,
            branches: self.branches as int,
            sessions: self.sessions as int,
            complexity: self.complexity as int,
            complexity_total: self.complexity_total as int,
        }
    }
}

/// Field-wise sum of two totals models.
pub open spec fn add_model(a: TotalsModel, b: TotalsModel) -> TotalsModel {
    TotalsModel {
        files: a.files + b.files,
        lines: a.lines + b.lines,
        hits: a.hits + b.hits,
        misses: a.misses + b.misses,
        partials: a.partials + b.partials,
        branches: a.branches + b.branches,
        sessions: a.sessions + b.sessions,
        complexity: a.complexity + b.complexity,
        complexity_total: a.complexity_total + b.complexity_total,
    }
}

/// The additive identity: every counter zero.
pub open spec fn zero_model() -> TotalsModel {
    TotalsModel {
        files: 0,
        lines: 0,
        hits: 0,
        misses: 0,
        partials: 0,
        branches: 0,
        sessions: 0,
        complexity: 0,
        complexity_total: 0,
    }
}

/// Every counter of `m` fits in the machine representation.
pub open spec fn fits(m: TotalsModel) -> bool {
    &&& 0 <= m.files <= u64::MAX
    &&& 0 <= m.lines <= u64::MAX
    &&& 0 <= m.hits <= u64::MAX
    &&& 0 <= m.misses <= u64::MAX
    &&& 0 <= m.partials <= u64::MAX
    &&& 0 <= m.branches <= u64::MAX
    &&& 0 <= m.sessions <= u64::MAX
    &&& 0 <= m.complexity <= u64::MAX
    &&& 0 <= m.complexity_total <= u64::MAX
}

/// Every counter of `m` is non-negative.
pub open spec fn nonneg_model(m: TotalsModel) -> bool {
    &&& m.files >= 0
    &&& m.lines >= 0
    &&& m.hits >= 0
    &&& m.misses >= 0
    &&& m.partials >= 0
    &&& m.branches >= 0
    &&& m.sessions >= 0
    &&& m.complexity >= 0
    &&& m.complexity_total >= 0
}

/// Field-wise comparison of two totals models.
pub open spec fn le_model(a: TotalsModel, b: TotalsModel) -> bool {
    &&& a.files <= b.files
    &&& a.lines <= b.lines
    &&& a.hits <= b.hits
    &&& a.misses <= b.misses
    &&& a.partials <= b.partials
    &&& a.branches <= b.branches
    &&& a.sessions <= b.sessions
    &&& a.complexity <= b.complexity
    &&& a.complexity_total <= b.complexity_total
}

impl ReportTotals {
    /// A fresh all-zero accumulator.
    pub fn zero() -> (r: ReportTotals)
        ensures
            r@ == zero_model(),
    {
        ReportTotals {
            files: 0,
            lines: 0,
            hits: 0,
            misses: 0,
            partials: 0,
            branches: 0,
            sessions: 0,
            complexity: 0,
            complexity_total: 0,
        }
    }

    /// Field-wise addition of `other` into `self`.
    pub fn add_up(&mut self, other: &ReportTotals)
        requires
            fits(add_model(old(self)@, other@)),
        ensures
            final(self)@ == add_model(old(self)@, other@),
    {
        self.files = self.files + other.files;
        self.lines = self.lines + other.lines;
        self.hits = self.hits + other.hits;
        self.misses = self.misses + other.misses;
        self.partials = self.partials + other.partials;
        self.branches = self.branches + other.branches;
        self.sessions = self.sessions + other.sessions;
        self.complexity = self.complexity + other.complexity;
        self.complexity_total = self.complexity_total + other.complexity_total;
    }
}

/// Contribution of one line verdict to a totals fold: one line, and one
/// hit, miss or partial according to the verdict.
pub open spec fn line_contrib(c: Coverage) -> TotalsModel {
    TotalsModel {
        files: 0,
        lines: 1,
        hits: if c is Hit {
            1
        } else {
            0
        },
        misses: if c is Miss {
            1
        } else {
            0
        },
        partials: if c is Partial {
            1
        } else {
            0
        },
        branches: 0,
        sessions: 0,
        complexity: 0,
        complexity_total: 0,
    }
}

} // verus!
