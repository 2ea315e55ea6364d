use vstd::prelude::*;

use crate::extract::Question;

verus! {

/// One point on the ordered coverage scale: the exact verdict token the
/// model must return to grade an answer at this level, and the level's
/// weight in the aggregate score.
#[derive(Debug)]
pub struct ScaleLevel {
    pub verdict: String,
    pub weight: u32,
}

/// Why a proposed coverage scale was rejected at configuration time.
#[derive(Debug, Clone, Copy, PartialEq, Eq)]
pub enum ScaleError {
    /// A scale needs a "no evidence" floor and at least one level above it.
    TooFewLevels,
    /// The lowest level must carry weight zero.
    NonZeroFloor,
    /// Weights must be strictly increasing along the scale.
    NonIncreasingWeights,
    /// Two levels share a verdict token.
    DuplicateVerdict,
}

pub open spec fn weights_increasing(levels: Seq<ScaleLevel>) -> bool {
    forall|t1: int, t2: int|
        0 <= t1 < t2 < levels.len() ==> (#[trigger] levels[t1].weight) < (#[trigger] levels[
            t2
        ].weight)
}

pub open spec fn verdicts_distinct(levels: Seq<ScaleLevel>) -> bool {
    forall|t1: int, t2: int|
        0 <= t1 < t2 < levels.len() ==> (#[trigger] levels[t1].verdict)@ != (#[trigger] levels[
            t2
        ].verdict)@
}

/// A usable scale: at least two levels, a zero-weight floor, strictly
/// increasing weights, and pairwise distinct verdict tokens.
pub open spec fn scale_ok(levels: Seq<ScaleLevel>) -> bool {
    &&& levels.len() >= 2
    &&& levels[0].weight == 0
    &&& weights_increasing(levels)
    &&& verdicts_distinct(levels)
}

proof fn lemma_weight_lt(levels: Seq<ScaleLevel>, t1: int, t2: int)
    requires
        forall|t: int|
            0 <= t < levels.len() - 1 ==> (#[trigger] levels[t].weight) < levels[t + 1].weight,
        0 <= t1 < t2 < levels.len(),
    ensures
        levels[t1].weight < levels[t2].weight,
    decreases t2 - t1,
{
    if t2 > t1 + 1 {
        lemma_weight_lt(levels, t1, t2 - 1);
    }
}

/// The index of the first scale level whose verdict token is exactly `v`;
/// the lowest level when no token matches.
pub open spec fn match_from(levels: Seq<ScaleLevel>, v: Seq<char>, t: int) -> int
    decreases levels.len() - t,
{
    if t < 0 || t >= levels.len() {
        0
    } else if levels[t].verdict@ == v {
        t
    } else {
        match_from(levels, v, t + 1)
    }
}

pub open spec fn spec_level_of(levels: Seq<ScaleLevel>, v: Seq<char>) -> int {
    match_from(levels, v, 0)
}

proof fn lemma_match_from_bounds(levels: Seq<ScaleLevel>, v: Seq<char>, t: int)
    requires
        levels.len() > 0,
    ensures
        0 <= match_from(levels, v, t) < levels.len(),
    decreases levels.len() - t,
{
    if 0 <= t < levels.len() && levels[t].verdict@ != v {
        lemma_match_from_bounds(levels, v, t + 1);
    }
}

/// One classified question: the question together with the index of the
/// coverage level the verdict mapped to on the scale in use.
#[derive(Debug)]
pub struct ClassificationResult {
    pub question: Question,
    pub level: usize,
}

/// The ordered coverage scale for a whole audit run, fixed once validated.
#[derive(Debug)]
pub struct CoverageScale {
    levels: Vec<ScaleLevel>,
}

impl CoverageScale {
    pub closed spec fn spec_levels(self) -> Seq<ScaleLevel> {
        self.levels@
    }

    pub open spec fn wf(self) -> bool {
        scale_ok(self.spec_levels())
    }

    pub open spec fn spec_level_count(self) -> int {
        self.spec_levels().len() as int
    }

    pub open spec fn spec_weight(self, l: int) -> int {
        self.spec_levels()[l].weight as int
    }

    pub open spec fn spec_max_weight(self) -> int {
        self.spec_weight(self.spec_level_count() - 1)
    }

    /// Validates a proposed scale; a scale that fails validation is a
    /// configuration error, reported before any model call is made.
    pub fn new(levels: Vec<ScaleLevel>) -> (r: Result<CoverageScale, ScaleError>)
        ensures
            match r {
                Ok(c) => {
                    &&& c.spec_levels() == levels@
                    &&& c.wf()
                },
                Err(e) => {
                    &&& !scale_ok(levels@)
                    &&& (e == ScaleError::TooFewLevels <==> levels@.len() < 2)
                    &&& (e == ScaleError::NonZeroFloor <==> levels@.len() >= 2 && levels@[
                        0
                    ].weight != 0)
                    &&& (e == ScaleError::NonIncreasingWeights <==> levels@.len() >= 2 && levels@[
                        0
                    ].weight == 0 && !weights_increasing(levels@))
                    &&& (e == ScaleError::DuplicateVerdict <==> levels@.len() >= 2 && levels@[
                        0
                    ].weight == 0 && weights_increasing(levels@) && !verdicts_distinct(levels@))
                },
            },
    {
        let n = levels.len();
        if n < 2 {
            return Err(ScaleError::TooFewLevels);
        }
        if levels[0].weight != 0 {
            return Err(ScaleError::NonZeroFloor);
        }
        let mut t: usize = 0;
        while t < n - 1
            invariant
                t <= n - 1,
                n == levels@.len(),
                n >= 2,
                levels@[0].weight == 0,
                forall|u: int|
                    0 <= u < t ==> (#[trigger] levels@[u].weight) < levels@[u + 1].weight,
            decreases n - t,
        {
            if levels[t].weight >= levels[t + 1].weight {
                assert(!weights_increasing(levels@));
                return Err(ScaleError::NonIncreasingWeights);
            }
            t = t + 1;
        }
        proof {
            assert forall|t1: int, t2: int|
                0 <= t1 < t2 < levels@.len() implies (#[trigger] levels@[t1].weight)
                < (#[trigger] levels@[t2].weight) by {
                lemma_weight_lt(levels@, t1, t2);
            }
        }
        let mut t1: usize = 0;
        while t1 < n
            invariant
                t1 <= n,
                n == levels@.len(),
                n >= 2,
                levels@[0].weight == 0,
                weights_increasing(levels@),
                forall|u1: int, u2: int|
                    0 <= u1 < u2 < n && u1 < t1 ==> (#[trigger] levels@[u1].verdict)@
                        != (#[trigger] levels@[u2].verdict)@,
            decreases n - t1,
        {
            let mut t2: usize = t1 + 1;
            while t2 < n
                invariant
                    t1 < t2 <= n,
                    n == levels@.len(),
                    n >= 2,
                    levels@[0].weight == 0,
                    weights_increasing(levels@),
                    forall|u1: int, u2: int|
                        0 <= u1 < u2 < n && u1 < t1 ==> (#[trigger] levels@[u1].verdict)@
                            != (#[trigger] levels@[u2].verdict)@,
                    forall|u2: int|
                        t1 < u2 < t2 ==> (#[trigger] levels@[u2].verdict)@ != levels@[
                            t1 as int
                        ].verdict@,
                decreases n - t2,
            {
                if levels[t1].verdict == levels[t2].verdict {
                    assert(!verdicts_distinct(levels@));
                    return Err(ScaleError::DuplicateVerdict);
                }
                t2 = t2 + 1;
            }
            t1 = t1 + 1;
        }
        assert(verdicts_distinct(levels@));
        Ok(CoverageScale { levels })
    }

    /// The two-level deployment scale: `Answers:Missing` is the zero floor,
    /// `Answers:Present` the full-coverage level.
    pub fn two_level() -> (r: CoverageScale)
        ensures
            r.wf(),
            r.spec_level_count() == 2,
            r.spec_levels()[0].verdict@ == "Answers:Missing"@,
            r.spec_levels()[0].weight == 0,
            r.spec_levels()[1].verdict@ == "Answers:Present"@,
            r.spec_levels()[1].weight == 100,
    {
        let mut levels: Vec<ScaleLevel> = Vec::new();
        levels.push(ScaleLevel { verdict: String::from_str("Answers:Missing"), weight: 0 });
        levels.push(ScaleLevel { verdict: String::from_str("Answers:Present"), weight: 100 });
        proof {
            reveal_strlit("Answers:Missing");
            reveal_strlit("Answers:Present");
            assert(levels@.len() == 2);
            assert(levels@[0].weight == 0 && levels@[1].weight == 100);
            assert(("Answers:Missing"@)[8] != ("Answers:Present"@)[8]);
            assert(levels@[0].verdict@ != levels@[1].verdict@);
            assert(scale_ok(levels@));
        }
        match CoverageScale::new(levels) {
            Ok(c) => c,
            Err(_) => unreached(),
        }
    }

    /// The three-level deployment scale: `Answers:Nothing` is the zero
    /// floor, `Answers:Implicitly` partial coverage, `Answers:Explicitly`
    /// full coverage.
    pub fn three_level() -> (r: CoverageScale)
        ensures
            r.wf(),
            r.spec_level_count() == 3,
            r.spec_levels()[0].verdict@ == "Answers:Nothing"@,
            r.spec_levels()[0].weight == 0,
            r.spec_levels()[1].verdict@ == "Answers:Implicitly"@,
            r.spec_levels()[1].weight == 50,
            r.spec_levels()[2].verdict@ == "Answers:Explicitly"@,
            r.spec_levels()[2].weight == 100,
    {
        let mut levels: Vec<ScaleLevel> = Vec::new();
        levels.push(ScaleLevel { verdict: String::from_str("Answers:Nothing"), weight: 0 });
        levels.push(ScaleLevel { verdict: String::from_str("Answers:Implicitly"), weight: 50 });
        levels.push(ScaleLevel { verdict: String::from_str("Answers:Explicitly"), weight: 100 });
        proof {
            reveal_strlit("Answers:Nothing");
            reveal_strlit("Answers:Implicitly");
            reveal_strlit("Answers:Explicitly");
            assert(levels@.len() == 3);
            assert(levels@[0].weight == 0 && levels@[1].weight == 50 && levels@[2].weight == 100);
            assert(("Answers:Nothing"@).len() != ("Answers:Implicitly"@).len());
            assert(("Answers:Nothing"@).len() != ("Answers:Explicitly"@).len());
            assert(("Answers:Implicitly"@)[8] != ("Answers:Explicitly"@)[8]);
            assert(levels@[0].verdict@ != levels@[1].verdict@);
            assert(levels@[0].verdict@ != levels@[2].verdict@);
            assert(levels@[1].verdict@ != levels@[2].verdict@);
            assert(scale_ok(levels@));
        }
        match CoverageScale::new(levels) {
            Ok(c) => c,
            Err(_) => unreached(),
        }
    }

    pub fn level_count(&self) -> (n: usize)
        ensures
            n as int == self.spec_level_count(),
    {
        self.levels.len()
    }

    pub fn weight(&self, l: usize) -> (w: u32)
        requires
            0 <= l < self.spec_level_count(),
        ensures
            w as int == self.spec_weight(l as int),
    {
        self.levels[l].weight
    }

    pub fn max_weight(&self) -> (w: u32)
        requires
            self.wf(),
        ensures
            w as int == self.spec_max_weight(),
    {
        self.levels[self.levels.len() - 1].weight
    }

    /// The verdict token of level `l`, for building a classification prompt.
    pub fn verdict_token(&self, l: usize) -> (v: &String)
        requires
            0 <= l < self.spec_level_count(),
        ensures
            v@ == self.spec_levels()[l as int].verdict@,
    {
        &self.levels[l].verdict
    }

    /// Maps the model's verdict text for `question` onto the scale: an
    /// exact match against a level's verdict token selects that level; any
    /// other text (extra prose, malformed token, empty string) degrades to
    /// the lowest level — an ungraded answer counts as "no evidence found",
    /// and is never an error.
    pub fn classify_verdict(&self, question: Question, verdict: &String) -> (r:
        ClassificationResult)
        requires
            self.wf(),
        ensures
            r.question == question,
            r.level as int == spec_level_of(self.spec_levels(), verdict@),
            0 <= r.level < self.spec_level_count(),
            (forall|t: int|
                0 <= t < self.spec_level_count() ==> (#[trigger] self.spec_levels()[t].verdict)@
                    != verdict@) ==> r.level == 0,
            r.level != 0 ==> self.spec_levels()[r.level as int].verdict@ == verdict@,
    {
        proof {
            lemma_match_from_bounds(self.spec_levels(), verdict@, 0);
        }
        let n = self.levels.len();
        let mut t: usize = 0;
        while t < n
            invariant
                t <= n,
                n == self.spec_levels().len(),
                spec_level_of(self.spec_levels(), verdict@) == match_from(
                    self.spec_levels(),
                    verdict@,
                    t as int,
                ),
            decreases n - t,
        {
            if self.levels[t].verdict == *verdict {
                return ClassificationResult { question, level: t };
            }
            t = t + 1;
        }
        ClassificationResult { question, level: 0 }
    }
}

} // verus!
