//! The sample cache: a window of evaluations on a grid of fixed step.
//!
//! Sample points are counted in steps: position `k` is the abscissa `k *
//! step`. A cache holds the samples of consecutive positions, so that two
//! neighbours are exactly one step apart and a range of positions is either
//! wholly inside the window or not served at all.
use vstd::prelude::*;
use crate::binary64::ZERO;
use crate::calculator::{
    answers, computes, evaluate, lemma_may_run_is_run, may_evaluate, total, Arithmetic, Calculator,
    Instruction, Operation,
};

verus! {

/// One evaluation: the position on the grid, the abscissa there, and the
/// value of the formula, `None` where it has none.
#[derive(Debug, PartialEq, Eq, Clone, Copy)]
pub struct Sample {
    pub position: i64,
    pub x: u64,
    pub y: Option<u64>,
}

/// The abscissa of a position: the position, as a double, times the step.
pub open spec fn abscissa(position: i64, step: u64, f: Arithmetic) -> u64 {
    f(Operation::Mul, f(Operation::FromInt, position as u64, ZERO), step)
}

/// The sample of `program` at a position.
pub open spec fn sample_at(
    position: i64,
    step: u64,
    program: Seq<Instruction>,
    threshold: u64,
    f: Arithmetic,
) -> Sample {
    Sample {
        position,
        x: abscissa(position, step, f),
        y: evaluate(program, abscissa(position, step, f), threshold, f),
    }
}

/// The samples of `program` at `count` positions from `first` on, computed
/// from scratch.
pub open spec fn samples_of(
    first: int,
    count: nat,
    step: u64,
    program: Seq<Instruction>,
    threshold: u64,
    f: Arithmetic,
) -> Seq<Sample> {
    Seq::new(count, |i: int| sample_at((first + i) as i64, step, program, threshold, f))
}

/// `sample` is a sample that `program` may give at a position, whatever the
/// unit answers: `sample_at`, with the unit's answers in the place of a
/// function's. Its abscissa is an answer to the position times the step, its
/// value what an evaluation there may give.
pub open spec fn may_be_sample<F: Fn(Operation, u64, u64) -> u64>(
    unit: &F,
    position: i64,
    step: u64,
    program: Seq<Instruction>,
    threshold: u64,
    sample: Sample,
) -> bool {
    &&& sample.position == position
    &&& exists|place: u64| #[trigger]
        answers(unit, Operation::FromInt, position as u64, ZERO, place) && answers(
            unit,
            Operation::Mul,
            place,
            step,
            sample.x,
        )
    &&& may_evaluate(unit, program, sample.x, threshold, sample.y)
}

/// Every sample is one that `program` may give at its position, whatever the
/// unit answers: nothing is made up, interpolated or cut to a range.
pub open spec fn may_hold<F: Fn(Operation, u64, u64) -> u64>(
    unit: &F,
    samples: Seq<Sample>,
    step: u64,
    program: Seq<Instruction>,
    threshold: u64,
) -> bool {
    forall|i: int|
        0 <= i < samples.len() ==> may_be_sample(
            unit,
            (#[trigger] samples[i]).position,
            step,
            program,
            threshold,
            samples[i],
        )
}

/// Neighbours are one step apart: each sample sits one position behind the
/// one before it. Positions therefore ascend strictly.
pub open spec fn contiguous(samples: Seq<Sample>) -> bool {
    forall|i: int|
        0 <= i < samples.len() - 1 ==> (#[trigger] samples[i + 1]).position == samples[i].position
            + 1
}

/// Every sample is what `program` gives at its position.
pub open spec fn memoizes(
    samples: Seq<Sample>,
    step: u64,
    program: Seq<Instruction>,
    threshold: u64,
    f: Arithmetic,
) -> bool {
    forall|i: int|
        0 <= i < samples.len() ==> #[trigger] samples[i] == sample_at(
            samples[i].position,
            step,
            program,
            threshold,
            f,
        )
}

/// Whether the window of `samples` bounds the positions from `first` to `last`.
pub open spec fn bounds(samples: Seq<Sample>, first: i64, last: i64) -> bool {
    samples.len() > 0 && samples.first().position <= first && last <= samples.last().position
}

/// The part of a window that lies at the positions from `first` to `last`.
pub open spec fn slice(samples: Seq<Sample>, first: i64, last: i64) -> Seq<Sample> {
    if first <= last {
        samples.subrange(
            first - samples.first().position,
            last - samples.first().position + 1,
        )
    } else {
        Seq::empty()
    }
}

/// A window grown by `steps` samples at each end: the samples of the
/// positions before its first, the window itself, and the samples of the
/// positions behind its last.
pub open spec fn grown(
    samples: Seq<Sample>,
    steps: u32,
    step: u64,
    program: Seq<Instruction>,
    threshold: u64,
    f: Arithmetic,
) -> Seq<Sample> {
    samples_of(samples.first().position - steps, steps as nat, step, program, threshold, f)
        + samples + samples_of(
        samples.last().position + 1,
        steps as nat,
        step,
        program,
        threshold,
        f,
    )
}

/// In a contiguous window, a sample's position is the first position plus
/// its index.
pub proof fn lemma_positions(samples: Seq<Sample>, i: int)
    requires
        contiguous(samples),
        0 <= i < samples.len(),
    ensures
        samples[i].position == samples[0].position + i,
    decreases i,
{
    if i > 0 {
        lemma_positions(samples, i - 1);
        assert(samples[(i - 1) + 1].position == samples[i - 1].position + 1);
    }
}

/// Contiguity: in a contiguous window, two samples are as many positions
/// apart as their indices, so that a later sample lies at a strictly greater
/// position, and neighbours lie exactly one step apart.
pub proof fn lemma_ascending(samples: Seq<Sample>, i: int, j: int)
    requires
        contiguous(samples),
        0 <= i < j < samples.len(),
    ensures
        samples[j].position - samples[i].position == j - i,
        samples[i].position < samples[j].position,
{
    lemma_positions(samples, i);
    lemma_positions(samples, j);
}

/// Samples computed from scratch form a contiguous window that memoizes the
/// formula, as long as their positions exist.
pub proof fn lemma_scratch_is_sound(
    first: int,
    count: nat,
    step: u64,
    program: Seq<Instruction>,
    threshold: u64,
    f: Arithmetic,
)
    requires
        i64::MIN <= first,
        first + count - 1 <= i64::MAX,
    ensures
        contiguous(samples_of(first, count, step, program, threshold, f)),
        memoizes(samples_of(first, count, step, program, threshold, f), step, program, threshold, f),
{
}

/// Invalidation: an empty window covers no range, whatever its ends.
pub proof fn lemma_empty_covers_nothing(first: i64, last: i64)
    ensures
        !bounds(Seq::<Sample>::empty(), first, last),
{
}

/// Cache correctness: what a contiguous window that memoizes a formula holds
/// at a covered range is what the formula gives there from scratch.
pub proof fn lemma_slice_is_from_scratch(
    samples: Seq<Sample>,
    first: i64,
    last: i64,
    step: u64,
    program: Seq<Instruction>,
    threshold: u64,
    f: Arithmetic,
)
    requires
        contiguous(samples),
        memoizes(samples, step, program, threshold, f),
        bounds(samples, first, last),
    ensures
        slice(samples, first, last) == samples_of(
            first as int,
            if first <= last {
                (last - first + 1) as nat
            } else {
                0
            },
            step,
            program,
            threshold,
            f,
        ),
{
    if first <= last {
        let origin = samples.first().position;
        let count = (last - first + 1) as nat;
        let found = slice(samples, first, last);
        let scratch = samples_of(first as int, count, step, program, threshold, f);
        lemma_positions(samples, samples.len() - 1);
        assert forall|i: int| 0 <= i < count implies found[i] == scratch[i] by {
            lemma_positions(samples, first - origin + i);
            assert(found[i] == samples[first - origin + i]);
        }
        assert(found =~= scratch);
    } else {
        assert(slice(samples, first, last) =~= samples_of(
            first as int,
            0,
            step,
            program,
            threshold,
            f,
        ));
    }
}

/// Expansion keeps a window sound: a contiguous window that memoizes a
/// formula, with samples from scratch joined to both ends, is again a
/// contiguous window that memoizes the formula.
pub proof fn lemma_expansion_is_sound(
    samples: Seq<Sample>,
    steps: u32,
    step: u64,
    program: Seq<Instruction>,
    threshold: u64,
    f: Arithmetic,
)
    requires
        contiguous(samples),
        memoizes(samples, step, program, threshold, f),
        samples.len() > 0,
        i64::MIN <= samples.first().position - steps,
        samples.last().position + steps <= i64::MAX,
    ensures
        contiguous(grown(samples, steps, step, program, threshold, f)),
        memoizes(grown(samples, steps, step, program, threshold, f), step, program, threshold, f),
{
    let left = samples_of(
        samples.first().position - steps,
        steps as nat,
        step,
        program,
        threshold,
        f,
    );
    let right = samples_of(samples.last().position + 1, steps as nat, step, program, threshold, f);
    let all = left + samples + right;
    lemma_positions(samples, samples.len() - 1);
    assert forall|i: int| 0 <= i < all.len() - 1 implies (#[trigger] all[i + 1]).position
        == all[i].position + 1 by {
        if left.len() <= i && i + 1 < left.len() + samples.len() {
            assert(samples[(i - left.len()) + 1].position == samples[i - left.len()].position + 1);
        }
    }
    assert forall|i: int| 0 <= i < all.len() implies #[trigger] all[i] == sample_at(
        all[i].position,
        step,
        program,
        threshold,
        f,
    ) by {
        if left.len() <= i < left.len() + samples.len() {
            assert(all[i] == samples[i - left.len()]);
        }
    }
}

/// With a unit that computes `f`, samples that the formula may give are the
/// samples that it gives for `f`: such a window memoizes the formula.
pub proof fn lemma_may_hold_is_memo<F: Fn(Operation, u64, u64) -> u64>(
    unit: &F,
    f: Arithmetic,
    samples: Seq<Sample>,
    step: u64,
    program: Seq<Instruction>,
    threshold: u64,
)
    requires
        computes(unit, f),
        may_hold(unit, samples, step, program, threshold),
    ensures
        memoizes(samples, step, program, threshold, f),
{
    assert forall|i: int| 0 <= i < samples.len() implies #[trigger] samples[i] == sample_at(
        samples[i].position,
        step,
        program,
        threshold,
        f,
    ) by {
        let sample = samples[i];
        assert(may_be_sample(unit, sample.position, step, program, threshold, sample));
        lemma_may_run_is_run(unit, f, program, Seq::empty(), sample.x, threshold, sample.y);
    }
}

/// A slice of a window of samples that the formula may give holds such
/// samples only.
pub proof fn lemma_slice_may_hold<F: Fn(Operation, u64, u64) -> u64>(
    unit: &F,
    samples: Seq<Sample>,
    first: i64,
    last: i64,
    step: u64,
    program: Seq<Instruction>,
    threshold: u64,
)
    requires
        contiguous(samples),
        bounds(samples, first, last),
        may_hold(unit, samples, step, program, threshold),
    ensures
        may_hold(unit, slice(samples, first, last), step, program, threshold),
{
    if first <= last {
        let origin = samples.first().position;
        let found = slice(samples, first, last);
        lemma_positions(samples, samples.len() - 1);
        assert forall|i: int| 0 <= i < found.len() implies may_be_sample(
            unit,
            (#[trigger] found[i]).position,
            step,
            program,
            threshold,
            found[i],
        ) by {
            assert(found[i] == samples[first - origin + i]);
        }
    }
}

/// Evaluates the formula at one position.
fn sample<F: Fn(Operation, u64, u64) -> u64>(
    position: i64,
    step: u64,
    calculator: &mut Calculator,
    unit: &F,
) -> (s: Sample)
    requires
        total(unit),
    ensures
        final(calculator).program() == old(calculator).program(),
        final(calculator).threshold() == old(calculator).threshold(),
        s.position == position,
        may_be_sample(
            unit,
            position,
            step,
            old(calculator).program(),
            old(calculator).threshold(),
            s,
        ),
        forall|f: Arithmetic| #[trigger]
            computes(unit, f) ==> s == sample_at(
                position,
                step,
                old(calculator).program(),
                old(calculator).threshold(),
                f,
            ),
{
    let place = unit(Operation::FromInt, position as u64, ZERO);
    assert(answers(unit, Operation::FromInt, position as u64, ZERO, place));
    let x = unit(Operation::Mul, place, step);
    let y = calculator.calculate(x, unit);
    Sample { position, x, y }
}

/// Evaluates the formula at every position from `first` to `last` on the
/// grid of step `step`, in ascending order: the samples of that range from
/// scratch. No position lies in a range whose first is behind its last.
pub fn sample_range<F: Fn(Operation, u64, u64) -> u64>(
    first: i64,
    last: i64,
    step: u64,
    calculator: &mut Calculator,
    unit: &F,
) -> (samples: Vec<Sample>)
    requires
        total(unit),
    ensures
        final(calculator).program() == old(calculator).program(),
        final(calculator).threshold() == old(calculator).threshold(),
        samples@.len() == if first <= last {
            last - first + 1
        } else {
            0
        },
        forall|i: int| 0 <= i < samples@.len() ==> (#[trigger] samples@[i]).position == first + i,
        may_hold(unit, samples@, step, old(calculator).program(), old(calculator).threshold()),
        forall|f: Arithmetic| #[trigger]
            computes(unit, f) ==> samples@ == samples_of(
                first as int,
                samples@.len(),
                step,
                old(calculator).program(),
                old(calculator).threshold(),
                f,
            ),
{
    let mut samples: Vec<Sample> = Vec::new();
    let ghost program = calculator.program();
    let ghost threshold = calculator.threshold();
    if first > last {
        assert forall|f: Arithmetic| #[trigger] computes(unit, f) implies samples@ == samples_of(
            first as int,
            samples@.len(),
            step,
            program,
            threshold,
            f,
        ) by {
            assert(samples@ =~= samples_of(first as int, 0, step, program, threshold, f));
        }
        return samples;
    }
    let mut position: i64 = first;
    loop
        invariant_except_break
            samples@.len() == position - first,
        invariant
            total(unit),
            first <= position <= last,
            calculator.program() == program,
            calculator.threshold() == threshold,
            forall|i: int|
                0 <= i < samples@.len() ==> (#[trigger] samples@[i]).position == first + i,
            may_hold(unit, samples@, step, program, threshold),
            forall|f: Arithmetic| #[trigger]
                computes(unit, f) ==> samples@ == samples_of(
                    first as int,
                    samples@.len(),
                    step,
                    program,
                    threshold,
                    f,
                ),
        ensures
            calculator.program() == program,
            calculator.threshold() == threshold,
            samples@.len() == last - first + 1,
            forall|i: int|
                0 <= i < samples@.len() ==> (#[trigger] samples@[i]).position == first + i,
            may_hold(unit, samples@, step, program, threshold),
            forall|f: Arithmetic| #[trigger]
                computes(unit, f) ==> samples@ == samples_of(
                    first as int,
                    samples@.len(),
                    step,
                    program,
                    threshold,
                    f,
                ),
        decreases last - position,
    {
        let ghost before = samples@;
        let next = sample(position, step, calculator, unit);
        samples.push(next);
        proof {
            assert forall|f: Arithmetic| #[trigger] computes(unit, f) implies samples@
                == samples_of(first as int, samples@.len(), step, program, threshold, f) by {
                assert(before == samples_of(first as int, before.len(), step, program, threshold, f));
                assert(samples@ =~= samples_of(
                    first as int,
                    samples@.len(),
                    step,
                    program,
                    threshold,
                    f,
                ));
            }
        }
        if position == last {
            break ;
        }
        position = position + 1;
    }
    samples
}

/// A window of samples of one formula, at consecutive positions of a grid
/// with a fixed step, and a limit on how far the window may be grown.
pub struct SampleCache {
    samples: Vec<Sample>,
    step: u64,
    limit: usize,
}

impl View for SampleCache {
    type V = Seq<Sample>;

    closed spec fn view(&self) -> Seq<Sample> {
        self.samples@
    }
}

/// Whether `expand` by `steps` grows a window: only one that holds samples
/// and fewer of them than `limit`, and only where the new positions exist.
pub open spec fn growable(samples: Seq<Sample>, limit: nat, steps: u32) -> bool {
    &&& steps > 0
    &&& 0 < samples.len() < limit
    &&& i64::MIN <= samples.first().position - steps
    &&& samples.last().position + steps <= i64::MAX
}

impl SampleCache {
    #[verifier::type_invariant]
    spec fn well_formed(self) -> bool {
        contiguous(self.samples@)
    }

    /// The step of the grid that the window was last filled on.
    pub closed spec fn spec_step(&self) -> u64 {
        self.step
    }

    /// The length from which on the window no longer grows.
    pub closed spec fn spec_limit(&self) -> usize {
        self.limit
    }

    /// The step of the grid that the window was last filled on.
    #[verifier::when_used_as_spec(spec_step)]
    pub fn step(&self) -> (step: u64)
        ensures
            step == self.spec_step(),
    {
        self.step
    }

    /// The length from which on the window no longer grows.
    #[verifier::when_used_as_spec(spec_limit)]
    pub fn limit(&self) -> (limit: usize)
        ensures
            limit == self.spec_limit(),
    {
        self.limit
    }

    /// An empty cache that grows up to `limit` samples.
    pub fn new(limit: usize) -> (cache: SampleCache)
        ensures
            cache@ == Seq::<Sample>::empty(),
            cache.step() == ZERO,
            cache.limit() == limit,
    {
        SampleCache { samples: Vec::new(), step: ZERO, limit }
    }

    /// The samples in the window, in ascending order of position, each one
    /// step behind the one before it.
    pub fn samples(&self) -> (samples: &Vec<Sample>)
        ensures
            samples@ == self@,
            contiguous(self@),
    {
        proof {
            use_type_invariant(self);
        }
        &self.samples
    }

    /// A copy of the samples in the window.
    pub fn to_vec(&self) -> (copy: Vec<Sample>)
        ensures
            copy@ == self@,
    {
        let mut copy: Vec<Sample> = Vec::new();
        let mut i: usize = 0;
        while i < self.samples.len()
            invariant
                i <= self.samples@.len(),
                copy@ == self.samples@.take(i as int),
            decreases self.samples@.len() - i,
        {
            copy.push(self.samples[i]);
            assert(copy@ =~= self.samples@.take(i + 1));
            i = i + 1;
        }
        assert(self.samples@.take(i as int) =~= self.samples@);
        copy
    }

    /// The number of samples in the window.
    pub fn len(&self) -> (len: usize)
        ensures
            len == self@.len(),
    {
        self.samples.len()
    }

    /// Whether the window bounds the positions from `first` to `last`. An
    /// empty cache covers nothing.
    pub fn covers(&self, first: i64, last: i64) -> (covered: bool)
        ensures
            covered == bounds(self@, first, last),
    {
        let n = self.samples.len();
        n > 0 && self.samples[0].position <= first && last <= self.samples[n - 1].position
    }

    /// The stored samples at the positions from `first` to `last`, where the
    /// window covers them; `None` where it does not.
    pub fn query(&self, first: i64, last: i64) -> (found: Option<Vec<Sample>>)
        ensures
            contiguous(self@),
            match found {
                Some(samples) => bounds(self@, first, last) && samples@ == slice(self@, first, last),
                None => !bounds(self@, first, last),
            },
    {
        proof {
            use_type_invariant(self);
        }
        if !self.covers(first, last) {
            return None;
        }
        let mut found: Vec<Sample> = Vec::new();
        if first > last {
            return Some(found);
        }
        proof {
            use_type_invariant(self);
            lemma_positions(self.samples@, self.samples@.len() - 1);
        }
        let n = self.samples.len();
        let origin = self.samples[0].position;
        assert(last - origin < n);
        let start: usize = (first as i128 - origin as i128) as usize;
        let end: usize = (last as i128 - origin as i128) as usize + 1;
        let mut i: usize = start;
        while i < end
            invariant
                start <= i <= end <= self.samples@.len(),
                found@ == self.samples@.subrange(start as int, i as int),
            decreases end - i,
        {
            found.push(self.samples[i]);
            assert(found@ =~= self.samples@.subrange(start as int, i + 1));
            i = i + 1;
        }
        Some(found)
    }

    /// Empties the cache, which from then on covers no range. Step and
    /// limit stay.
    pub fn invalidate(&mut self)
        ensures
            final(self)@ == Seq::<Sample>::empty(),
            forall|first: i64, last: i64| !bounds(final(self)@, first, last),
            final(self).step() == old(self).step(),
            final(self).limit() == old(self).limit(),
    {
        self.samples = Vec::new();
    }

    /// Drops what the cache holds and computes the samples of the positions
    /// from `first` to `last` on the grid of step `step`, in ascending order.
    /// Every sample stored is one that the calculator gave at its position:
    /// none is made up, interpolated or cut to a range.
    pub fn fill<F: Fn(Operation, u64, u64) -> u64>(
        &mut self,
        first: i64,
        last: i64,
        step: u64,
        calculator: &mut Calculator,
        unit: &F,
    )
        requires
            total(unit),
        ensures
            final(calculator).program() == old(calculator).program(),
            final(calculator).threshold() == old(calculator).threshold(),
            final(self).step() == step,
            final(self).limit() == old(self).limit(),
            contiguous(final(self)@),
            final(self)@.len() == if first <= last {
                last - first + 1
            } else {
                0
            },
            forall|i: int|
                0 <= i < final(self)@.len() ==> (#[trigger] final(self)@[i]).position == first + i,
            may_hold(
                unit,
                final(self)@,
                step,
                old(calculator).program(),
                old(calculator).threshold(),
            ),
            forall|f: Arithmetic| #[trigger]
                computes(unit, f) ==> final(self)@ == samples_of(
                    first as int,
                    final(self)@.len(),
                    step,
                    old(calculator).program(),
                    old(calculator).threshold(),
                    f,
                ) && memoizes(
                    final(self)@,
                    step,
                    old(calculator).program(),
                    old(calculator).threshold(),
                    f,
                ),
    {
        let samples = sample_range(first, last, step, calculator, unit);
        self.samples = samples;
        self.step = step;
    }

    /// Grows the window by `steps` samples at each end, at the step that it
    /// was filled with. Does nothing to an empty cache, to one that has
    /// reached its limit, or where the grid ends before the new positions.
    pub fn expand<F: Fn(Operation, u64, u64) -> u64>(
        &mut self,
        steps: u32,
        calculator: &mut Calculator,
        unit: &F,
    )
        requires
            total(unit),
        ensures
            final(calculator).program() == old(calculator).program(),
            final(calculator).threshold() == old(calculator).threshold(),
            final(self).step() == old(self).step(),
            final(self).limit() == old(self).limit(),
            contiguous(final(self)@),
            !growable(old(self)@, old(self).limit() as nat, steps) ==> final(self)@ == old(self)@,
            growable(old(self)@, old(self).limit() as nat, steps) ==> final(self)@.len() == old(self)@.len()
                + 2 * steps && final(self)@.subrange(
                steps as int,
                steps + old(self)@.len(),
            ) == old(self)@,
            forall|f: Arithmetic| #[trigger]
                computes(unit, f) && growable(old(self)@, old(self).limit() as nat, steps)
                    ==> final(self)@ == grown(
                    old(self)@,
                    steps,
                    old(self).step(),
                    old(calculator).program(),
                    old(calculator).threshold(),
                    f,
                ),
            growable(old(self)@, old(self).limit() as nat, steps) ==> may_hold(
                unit,
                final(self)@.take(steps as int),
                old(self).step(),
                old(calculator).program(),
                old(calculator).threshold(),
            ) && may_hold(
                unit,
                final(self)@.skip(steps + old(self)@.len()),
                old(self).step(),
                old(calculator).program(),
                old(calculator).threshold(),
            ),
            may_hold(
                unit,
                old(self)@,
                old(self).step(),
                old(calculator).program(),
                old(calculator).threshold(),
            ) ==> may_hold(
                unit,
                final(self)@,
                old(self).step(),
                old(calculator).program(),
                old(calculator).threshold(),
            ),
            forall|f: Arithmetic| #[trigger]
                computes(unit, f) && memoizes(
                    old(self)@,
                    old(self).step(),
                    old(calculator).program(),
                    old(calculator).threshold(),
                    f,
                ) ==> memoizes(
                    final(self)@,
                    old(self).step(),
                    old(calculator).program(),
                    old(calculator).threshold(),
                    f,
                ),
    {
        proof {
            use_type_invariant(&*self);
            assert forall|f: Arithmetic| #[trigger]
                computes(unit, f) && memoizes(
                    self@,
                    self.step(),
                    calculator.program(),
                    calculator.threshold(),
                    f,
                ) && growable(self@, self.limit() as nat, steps) implies memoizes(
                grown(self@, steps, self.step(), calculator.program(), calculator.threshold(), f),
                self.step(),
                calculator.program(),
                calculator.threshold(),
                f,
            ) by {
                lemma_expansion_is_sound(
                    self@,
                    steps,
                    self.step(),
                    calculator.program(),
                    calculator.threshold(),
                    f,
                );
            }
        }
        let n = self.samples.len();
        if n == 0 || n >= self.limit {
            return ;
        }
        let cache_start = self.samples[0].position;
        let cache_end = self.samples[n - 1].position;
        if steps == 0 || cache_start < i64::MIN + steps as i64 || cache_end > i64::MAX
            - steps as i64 {
            return ;
        }
        let ghost kept = self.samples@;
        let step = self.step;
        //expand cache to the left of the current window
        let mut prepend = sample_range(
            cache_start - steps as i64,
            cache_start - 1,
            step,
            calculator,
            unit,
        );
        //expand cache to the right of the current window
        let mut append = sample_range(cache_end + 1, cache_end + steps as i64, step, calculator, unit);
        let ghost left = prepend@;
        let ghost right = append@;
        let mut middle: Vec<Sample> = Vec::new();
        core::mem::swap(&mut middle, &mut self.samples);
        prepend.append(&mut middle);
        prepend.append(&mut append);
        proof {
            assert(prepend@ =~= left + kept + right);
            assert forall|i: int| 0 <= i < prepend@.len() - 1 implies (#[trigger] prepend@[i
                + 1]).position == prepend@[i].position + 1 by {
                lemma_positions(kept, kept.len() - 1);
                if left.len() <= i && i + 1 < left.len() + kept.len() {
                    assert(kept[(i - left.len()) + 1].position == kept[i - left.len()].position + 1);
                }
            }
            assert(prepend@.subrange(steps as int, steps + kept.len()) =~= kept);
            assert(prepend@.take(steps as int) =~= left);
            assert(prepend@.skip(steps + kept.len()) =~= right);
            if may_hold(unit, kept, step, calculator.program(), calculator.threshold()) {
                assert forall|i: int| 0 <= i < prepend@.len() implies may_be_sample(
                    unit,
                    (#[trigger] prepend@[i]).position,
                    step,
                    calculator.program(),
                    calculator.threshold(),
                    prepend@[i],
                ) by {
                    if i < left.len() {
                        assert(prepend@[i] == left[i]);
                    } else if i < left.len() + kept.len() {
                        assert(prepend@[i] == kept[i - left.len()]);
                    } else {
                        assert(prepend@[i] == right[i - left.len() - kept.len()]);
                    }
                }
            }
        }
        self.samples = prepend;
    }
}

} // verus!
