//! The session: the formulas that are plotted together, each with the cache
//! of its samples, the step of the grid and the coordinate mode.
//!
//! A session starts empty (`AppState::new`), takes formulas on (`initialize`)
//! and is emptied again by `reset`. Each frame goes through `run`, which
//! chooses the step for the viewport and hands out the samples of every
//! formula; between frames `expand_cache` computes samples ahead of need.
//!
//! What no arithmetic decides is stated outright: which graphs there are,
//! which caches stay, empty or grow, and that a cache holds nothing but
//! samples that its own formula gave (`sound`). What the samples are is
//! stated for a unit that computes a function (`coherent`).
use vstd::prelude::*;
use crate::binary64::{below, lt, HALF, TWENTY, ZERO};
use crate::cache::{
    bounds, contiguous, growable, grown, lemma_expansion_is_sound, lemma_may_hold_is_memo,
    lemma_slice_is_from_scratch, lemma_slice_may_hold, may_hold, memoizes, sample_range, samples_of,
    slice, Sample, SampleCache,
};
use crate::calculator::{
    compile, computes, evaluate, generate_calculator, lemma_compiled_value,
    lemma_evaluations_agree, lemma_may_be_code_is_compile, may_be_code, may_evaluate, reads,
    reads_all, total, value, Arithmetic, Calculator, Instruction, Numerals, Operation,
};
use crate::parser::{lemma_parse_is_proper, parse, parse_tokens, proper, Expr};
use crate::scanner::{blanks_of, lemma_tokens_are_lexical, letters_of, scan, tokenize};

verus! {

/// The length from which on a cache no longer grows.
pub const MAX_CACHE_SIZE: usize = 100000;

/// The step of a narrow viewport: 1/512.
pub const FINE_STEP: u64 = 0x3F60_0000_0000_0000;

/// The step of a wide viewport: 1/256.
pub const COARSE_STEP: u64 = 0x3F70_0000_0000_0000;

/// The number of samples that one expansion adds at each end of a cache.
pub const EXPANSION: u32 = 50;

/// A compiled formula and the cache of its samples.
struct Graph {
    calculator: Calculator,
    cache: SampleCache,
}

/// One session: the graphs, the current step and the coordinate mode.
pub struct AppState {
    graphs: Vec<Graph>,
    delta: u64,
    polar_mode: bool,
}

/// A graph, as mathematics: the formula's code and threshold, and the
/// cache's samples, step and limit.
pub struct Plot {
    pub program: Seq<Instruction>,
    pub threshold: u64,
    pub samples: Seq<Sample>,
    pub step: u64,
    pub limit: nat,
}

/// A session, as mathematics.
pub struct Session {
    pub plots: Seq<Plot>,
    pub delta: u64,
    pub polar_mode: bool,
}

/// The same plot without its samples.
pub open spec fn emptied(plot: Plot) -> Plot {
    Plot { samples: Seq::empty(), ..plot }
}

impl View for Graph {
    type V = Plot;

    closed spec fn view(&self) -> Plot {
        Plot {
            program: self.calculator.program(),
            threshold: self.calculator.threshold(),
            samples: self.cache@,
            step: self.cache.step(),
            limit: self.cache.limit() as nat,
        }
    }
}

impl View for AppState {
    type V = Session;

    closed spec fn view(&self) -> Session {
        Session {
            plots: self.graphs@.map_values(|g: Graph| g@),
            delta: self.delta,
            polar_mode: self.polar_mode,
        }
    }
}

impl AppState {
    /// A session without graphs, in cartesian mode, at the fine step.
    pub fn new() -> (state: AppState)
        ensures
            state@ == (Session { plots: Seq::empty(), delta: FINE_STEP, polar_mode: false }),
            forall|f: Arithmetic| coherent(state@, f),
    {
        let state = AppState { graphs: Vec::new(), delta: FINE_STEP, polar_mode: false };
        assert(state@.plots =~= Seq::empty());
        state
    }

    /// The current step.
    pub fn delta(&self) -> (delta: u64)
        ensures
            delta == self@.delta,
    {
        self.delta
    }

    /// Whether the session is in polar mode.
    pub fn polar_mode(&self) -> (polar: bool)
        ensures
            polar == self@.polar_mode,
    {
        self.polar_mode
    }

    /// The samples in the cache of graph `i`, in ascending order of
    /// position, each one step behind the one before it; `None` where the
    /// session has no such graph.
    pub fn samples(&self, i: usize) -> (samples: Option<&Vec<Sample>>)
        ensures
            match samples {
                Some(samples) => i < self@.plots.len() && samples@ == self@.plots[i as int].samples
                    && contiguous(samples@),
                None => i >= self@.plots.len(),
            },
    {
        if i < self.graphs.len() {
            Some(self.graphs[i].cache.samples())
        } else {
            None
        }
    }

    /// The number of graphs.
    pub fn len(&self) -> (len: usize)
        ensures
            len == self@.plots.len(),
    {
        self.graphs.len()
    }
}

/// Empties every cache of the session.
fn clear_caches(state: &mut AppState)
    ensures
        final(state)@ == (Session {
            plots: old(state)@.plots.map_values(|p: Plot| emptied(p)),
            ..old(state)@
        }),
{
    let mut i: usize = 0;
    while i < state.graphs.len()
        invariant
            i <= state.graphs@.len(),
            state.graphs@.len() == old(state).graphs@.len(),
            state.delta == old(state).delta,
            state.polar_mode == old(state).polar_mode,
            forall|k: int| 0 <= k < i ==> (#[trigger] state.graphs@[k])@ == emptied(old(state).graphs@[k]@),
            forall|k: int|
                i <= k < state.graphs@.len() ==> (#[trigger] state.graphs@[k]) == old(
                    state,
                ).graphs@[k],
        decreases state.graphs@.len() - i,
    {
        state.graphs[i].cache.invalidate();
        i = i + 1;
    }
    assert(state@.plots =~= old(state)@.plots.map_values(|p: Plot| emptied(p)));
}

/// Ends the session: forgets every graph. Step and mode stay as they are.
pub fn reset(state: &mut AppState)
    ensures
        final(state)@ == (Session { plots: Seq::empty(), ..old(state)@ }),
        forall|f: Arithmetic| coherent(old(state)@, f) ==> coherent(final(state)@, f),
{
    state.graphs.clear();
    assert(state@.plots =~= Seq::empty());
}

/// Switches between cartesian and polar mode. Samples of the other mode
/// mean nothing in this one: every cache is emptied.
pub fn toggle_mode(state: &mut AppState)
    ensures
        final(state)@ == (Session {
            plots: old(state)@.plots.map_values(|p: Plot| emptied(p)),
            polar_mode: !old(state)@.polar_mode,
            delta: old(state)@.delta,
        }),
        forall|f: Arithmetic| coherent(old(state)@, f) ==> coherent(final(state)@, f),
{
    if state.polar_mode {
        state.polar_mode = false;
    } else {
        state.polar_mode = true;
    }
    //clear cached points on mode switch
    clear_caches(state);
}

/// Whether a viewport from `x_start` to `x_end` is wide: more than 20
/// across.
pub open spec fn wide(x_start: u64, x_end: u64, f: Arithmetic) -> bool {
    below(TWENTY, f(Operation::Sub, x_end, x_start))
}

/// The step for a viewport: the coarse one for a wide viewport in cartesian
/// mode, the fine one otherwise.
pub open spec fn chosen_step(polar_mode: bool, wide: bool) -> u64 {
    if !polar_mode && wide {
        COARSE_STEP
    } else {
        FINE_STEP
    }
}

/// The session after its step has become `delta`. In cartesian mode, a
/// change from one of the two steps to the other empties the caches: their
/// samples lie on the old grid. Nothing else changes a cache.
pub open spec fn stepped(session: Session, delta: u64) -> Session {
    Session {
        delta,
        plots: if !session.polar_mode && delta != session.delta && (session.delta == FINE_STEP
            || session.delta == COARSE_STEP) {
            session.plots.map_values(|p: Plot| emptied(p))
        } else {
            session.plots
        },
        ..session
    }
}

/// The session after the step has been chosen for a viewport.
pub open spec fn with_step(session: Session, wide: bool) -> Session {
    stepped(session, chosen_step(session.polar_mode, wide))
}

/// Chooses the step for the viewport from `x_start` to `x_end`: the fine
/// one in polar mode, and in cartesian mode the coarse one for a viewport
/// more than 20 across and the fine one for any other. Where the step
/// changes, every cache is emptied; where it stays, every cache stays.
pub fn set_delta<F: Fn(Operation, u64, u64) -> u64>(
    state: &mut AppState,
    x_start: u64,
    x_end: u64,
    unit: &F,
)
    requires
        total(unit),
    ensures
        final(state)@.delta == FINE_STEP || final(state)@.delta == COARSE_STEP,
        old(state)@.polar_mode ==> final(state)@.delta == FINE_STEP,
        final(state)@ == stepped(old(state)@, final(state)@.delta),
        forall|f: Arithmetic| #[trigger]
            computes(unit, f) ==> final(state)@.delta == chosen_step(
                old(state)@.polar_mode,
                wide(x_start, x_end, f),
            ),
        forall|f: Arithmetic| coherent(old(state)@, f) ==> coherent(final(state)@, f),
        sound(old(state)@, unit) ==> sound(final(state)@, unit),
{
    let mut clear_cache = false;
    //if we're in polar mode, always use smaller delta
    if state.polar_mode {
        state.delta = FINE_STEP;
    } else if lt(TWENTY, unit(Operation::Sub, x_end, x_start)) {
        if state.delta == FINE_STEP {
            clear_cache = true;
        }
        state.delta = COARSE_STEP;
    } else {
        if state.delta == COARSE_STEP {
            clear_cache = true;
        }
        state.delta = FINE_STEP;
    }
    //if we change step size, all cached points are invalidated
    if clear_cache {
        clear_caches(state);
    }
}

/// The syntax tree of a text, where the text is a formula.
pub open spec fn formula(text: Seq<char>) -> Option<Expr> {
    match tokenize(text) {
        Ok(tokens) => match parse_tokens(tokens) {
            Ok(tree) => Some(tree),
            Err(_) => None,
        },
        Err(_) => None,
    }
}

/// The outcome of the whole pipeline on a text at `x`: the outer `None`
/// where the text is no formula, the inner where the formula is undefined at
/// `x`. It depends on nothing but the text, the point, the threshold, and
/// what the reader of numerals and the arithmetic unit compute.
pub open spec fn outcome(text: Seq<char>, x: u64, delta: u64, g: Numerals, f: Arithmetic) -> Option<
    Option<u64>,
> {
    match formula(text) {
        Some(tree) => Some(evaluate(compile(tree, g), x, delta, f)),
        None => None,
    }
}

/// Determinism: two runs of the pipeline on the same text at the same point
/// give the same result, bit for bit, provided that the reader and the unit
/// compute functions, that is, answer the same request in the same way each
/// time. `first_program` and `second_program` are what two compilations of
/// the text may give, `once` and `again` what an evaluation of each may give.
/// Nothing else enters: no state of an earlier run, no identity of a string.
pub proof fn lemma_pipeline_is_deterministic<L: Fn(String) -> u64, F: Fn(Operation, u64, u64) -> u64>(
    convert: &L,
    unit: &F,
    g: Numerals,
    f: Arithmetic,
    text: Seq<char>,
    x: u64,
    delta: u64,
    first_program: Seq<Instruction>,
    second_program: Seq<Instruction>,
    once: Option<u64>,
    again: Option<u64>,
)
    requires
        reads(convert, g),
        computes(unit, f),
        compiled_from(convert, text, first_program),
        compiled_from(convert, text, second_program),
        may_evaluate(unit, first_program, x, delta, once),
        may_evaluate(unit, second_program, x, delta, again),
    ensures
        first_program == second_program,
        once == again,
        outcome(text, x, delta, g, f) == Some(once),
{
    lemma_may_be_code_is_compile(convert, g, formula(text)->0, first_program);
    lemma_may_be_code_is_compile(convert, g, formula(text)->0, second_program);
    lemma_evaluations_agree(unit, f, first_program, x, delta, once, again);
}

/// The tree of a formula is a proper one.
pub proof fn lemma_formula_is_proper(text: Seq<char>)
    ensures
        formula(text) is Some ==> proper(formula(text)->0),
{
    lemma_tokens_are_lexical(text, blanks_of(text), letters_of(text), 0);
    if tokenize(text) is Ok {
        lemma_parse_is_proper(tokenize(text)->Ok_0);
    }
}

/// What the pipeline computes for a formula is the value of its syntax tree:
/// scanning, parsing, compiling and running agree with evaluating the tree
/// directly. So the stack machine never runs short on a formula, and only an
/// undefined operation leaves a formula without a value at a point.
pub proof fn lemma_outcome_is_value(text: Seq<char>, x: u64, delta: u64, g: Numerals, f: Arithmetic)
    requires
        formula(text) is Some,
    ensures
        outcome(text, x, delta, g, f) == Some(value(formula(text)->0, x, delta, g, f)),
{
    lemma_formula_is_proper(text);
    lemma_compiled_value(formula(text)->0, x, delta, g, f);
}

/// Compiles a text: scans it, parses the tokens and generates the
/// calculator, with `delta` as its threshold. `None` where the text is no
/// formula.
pub fn compile_expression<L: Fn(String) -> u64>(text: &String, delta: u64, convert: &L) -> (compiled:
    Option<Calculator>)
    requires
        reads_all(convert),
    ensures
        match compiled {
            Some(calculator) => formula(text@) is Some && calculator.threshold() == delta
                && may_be_code(convert, formula(text@)->0, calculator.program())
                && forall|g: Numerals| #[trigger]
                reads(convert, g) ==> calculator.program() == compile(formula(text@)->0, g),
            None => formula(text@) is None,
        },
{
    let tokens = match scan(text) {
        Err(_) => {
            return None;
        },
        Ok(tokens) => tokens,
    };
    let ast = match parse(&tokens) {
        Err(_) => {
            return None;
        },
        Ok(ast) => ast,
    };
    Some(generate_calculator(ast, delta, convert))
}

/// The plots of the formulas among `texts`, in the order of the texts, each
/// with an empty cache.
pub open spec fn new_plots(texts: Seq<Seq<char>>, threshold: u64, g: Numerals) -> Seq<Plot>
    decreases texts.len(),
{
    if texts.len() == 0 {
        Seq::empty()
    } else {
        new_plots(texts.drop_last(), threshold, g) + match formula(texts.last()) {
            Some(tree) => seq![
                Plot {
                    program: compile(tree, g),
                    threshold,
                    samples: Seq::empty(),
                    step: ZERO,
                    limit: MAX_CACHE_SIZE as nat,
                },
            ],
            None => Seq::empty(),
        }
    }
}

/// The texts of a vector of strings.
pub open spec fn texts_of(expressions: Seq<String>) -> Seq<Seq<char>> {
    expressions.map_values(|s: String| s@)
}

/// The number of flags that are set.
pub open spec fn trues(flags: Seq<bool>) -> nat
    decreases flags.len(),
{
    if flags.len() == 0 {
        0
    } else {
        trues(flags.drop_last()) + if flags.last() {
            1nat
        } else {
            0nat
        }
    }
}

/// `program` is what compiling `text` may give.
pub open spec fn compiled_from<L: Fn(String) -> u64>(
    convert: &L,
    text: Seq<char>,
    program: Seq<Instruction>,
) -> bool {
    formula(text) is Some && may_be_code(convert, formula(text)->0, program)
}

/// A plot as `initialize` adds it, whatever reader and unit answer: its code
/// is what compiling one of the texts may give, its cache is empty and grows
/// up to `MAX_CACHE_SIZE`, and its threshold is what the unit answered when
/// asked for half of `delta`.
pub open spec fn fresh<L: Fn(String) -> u64, F: Fn(Operation, u64, u64) -> u64>(
    plot: Plot,
    delta: u64,
    texts: Seq<Seq<char>>,
    convert: &L,
    unit: &F,
) -> bool {
    &&& plot.samples.len() == 0
    &&& plot.step == ZERO
    &&& plot.limit == MAX_CACHE_SIZE
    &&& call_ensures(unit, (Operation::Mul, delta, HALF), plot.threshold)
    &&& exists|j: int|
        0 <= j < texts.len() && compiled_from(convert, #[trigger] texts[j], plot.program)
}

/// Adds a graph for every text that is a formula, and tells for each text
/// whether it is one. A text that is none is passed over: it takes no graph
/// and does not hinder the others. Each formula is compiled with half the
/// current step as its threshold.
pub fn initialize<L: Fn(String) -> u64, F: Fn(Operation, u64, u64) -> u64>(
    state: &mut AppState,
    expressions: &Vec<String>,
    convert: &L,
    unit: &F,
) -> (result: Vec<bool>)
    requires
        reads_all(convert),
        total(unit),
    ensures
        result@.len() == expressions@.len(),
        forall|i: int|
            0 <= i < result@.len() ==> #[trigger] result@[i] == (formula(expressions@[i]@) is Some),
        final(state)@.delta == old(state)@.delta,
        final(state)@.polar_mode == old(state)@.polar_mode,
        old(state)@.plots.is_prefix_of(final(state)@.plots),
        final(state)@.plots.len() == old(state)@.plots.len() + trues(result@),
        forall|i: int|
            old(state)@.plots.len() <= i < final(state)@.plots.len() ==> fresh(
                #[trigger] final(state)@.plots[i],
                old(state)@.delta,
                texts_of(expressions@),
                convert,
                unit,
            ),
        forall|f: Arithmetic| coherent(old(state)@, f) ==> coherent(final(state)@, f),
        sound(old(state)@, unit) ==> sound(final(state)@, unit),
        forall|f: Arithmetic, g: Numerals|
            #![trigger computes(unit, f), reads(convert, g)]
            computes(unit, f) && reads(convert, g) ==> final(state)@ == (Session {
                plots: old(state)@.plots + new_plots(
                    texts_of(expressions@),
                    f(Operation::Mul, old(state)@.delta, HALF),
                    g,
                ),
                ..old(state)@
            }),
{
    let mut result: Vec<bool> = Vec::new();
    let threshold = unit(Operation::Mul, state.delta, HALF);
    let ghost texts = texts_of(expressions@);
    let mut k: usize = 0;
    proof {
        assert(texts.take(0) =~= Seq::empty());
        assert forall|f: Arithmetic, g: Numerals|
            #![trigger computes(unit, f), reads(convert, g)]
            computes(unit, f) && reads(convert, g) implies state@.plots == old(state)@.plots
            + new_plots(texts.take(0), threshold, g) by {
            assert(state@.plots =~= old(state)@.plots + new_plots(texts.take(0), threshold, g));
        }
    }
    while k < expressions.len()
        invariant
            reads_all(convert),
            k <= expressions@.len(),
            texts == texts_of(expressions@),
            result@.len() == k,
            forall|i: int|
                0 <= i < k ==> #[trigger] result@[i] == (formula(expressions@[i]@) is Some),
            state.delta == old(state).delta,
            state.polar_mode == old(state).polar_mode,
            old(state)@.plots.is_prefix_of(state@.plots),
            state@.plots.len() == old(state)@.plots.len() + trues(result@),
            call_ensures(unit, (Operation::Mul, old(state)@.delta, HALF), threshold),
            forall|i: int|
                old(state)@.plots.len() <= i < state@.plots.len() ==> fresh(
                    #[trigger] state@.plots[i],
                    old(state)@.delta,
                    texts,
                    convert,
                    unit,
                ),
            forall|f: Arithmetic| #[trigger]
                computes(unit, f) ==> threshold == f(Operation::Mul, old(state)@.delta, HALF),
            forall|f: Arithmetic, g: Numerals|
                #![trigger computes(unit, f), reads(convert, g)]
                computes(unit, f) && reads(convert, g) ==> state@.plots == old(state)@.plots
                    + new_plots(texts.take(k as int), threshold, g),
        decreases expressions@.len() - k,
    {
        let ghost before = state@.plots;
        let ghost text = expressions@[k as int]@;
        let ghost flags = result@;
        proof {
            assert(flags.push(true).drop_last() =~= flags);
            assert(flags.push(false).drop_last() =~= flags);
            assert(texts.take(k + 1).drop_last() =~= texts.take(k as int));
            assert(texts.take(k + 1).last() == text);
        }
        match compile_expression(&expressions[k], threshold, convert) {
            None => {
                result.push(false);
                proof {
                    assert forall|f: Arithmetic, g: Numerals|
                        #![trigger computes(unit, f), reads(convert, g)]
                        computes(unit, f) && reads(convert, g) implies state@.plots == old(
                        state,
                    )@.plots + new_plots(texts.take(k + 1), threshold, g) by {
                        assert(state@.plots =~= old(state)@.plots + new_plots(
                            texts.take(k + 1),
                            threshold,
                            g,
                        ));
                    }
                }
            },
            Some(calculator) => {
                let graph = Graph { calculator, cache: SampleCache::new(MAX_CACHE_SIZE) };
                let ghost plot = graph@;
                state.graphs.push(graph);
                result.push(true);
                proof {
                    assert(state@.plots =~= before.push(plot));
                    assert(texts[k as int] == text);
                    assert(compiled_from(convert, texts[k as int], plot.program));
                    assert forall|f: Arithmetic, g: Numerals|
                        #![trigger computes(unit, f), reads(convert, g)]
                        computes(unit, f) && reads(convert, g) implies state@.plots == old(
                        state,
                    )@.plots + new_plots(texts.take(k + 1), threshold, g) by {
                        assert(state@.plots =~= old(state)@.plots + new_plots(
                            texts.take(k + 1),
                            threshold,
                            g,
                        ));
                    }
                }
            },
        }
        k = k + 1;
    }
    proof {
        assert(texts.take(k as int) =~= texts);
        if sound(old(state)@, unit) {
            assert forall|i: int| 0 <= i < state@.plots.len() implies genuine(
                #[trigger] state@.plots[i],
                state@.delta,
                unit,
            ) by {
                if i < old(state)@.plots.len() {
                    assert(state@.plots[i] == old(state)@.plots[i]);
                }
            }
            if state@.polar_mode {
                assert forall|i: int| 0 <= i < state@.plots.len() implies (
                #[trigger] state@.plots[i]).samples.len() == 0 by {
                    if i < old(state)@.plots.len() {
                        assert(state@.plots[i] == old(state)@.plots[i]);
                    }
                }
            }
        }
        assert forall|f: Arithmetic| coherent(old(state)@, f) implies coherent(state@, f) by {
            assert forall|i: int| 0 <= i < state@.plots.len() implies faithful(
                #[trigger] state@.plots[i],
                state@.delta,
                f,
            ) by {
                if i < old(state)@.plots.len() {
                    assert(state@.plots[i] == old(state)@.plots[i]);
                }
            }
            if state@.polar_mode {
                assert forall|i: int| 0 <= i < state@.plots.len() implies (
                #[trigger] state@.plots[i]).samples.len() == 0 by {
                    if i < old(state)@.plots.len() {
                        assert(state@.plots[i] == old(state)@.plots[i]);
                    }
                }
            }
        }
    }
    result
}

/// A plot after one expansion of its cache: `EXPANSION` new samples before
/// the first and as many behind the last, where the cache can grow.
pub open spec fn expanded(plot: Plot, f: Arithmetic) -> Plot {
    if growable(plot.samples, plot.limit, EXPANSION) {
        Plot {
            samples: grown(
                plot.samples,
                EXPANSION,
                plot.step,
                plot.program,
                plot.threshold,
                f,
            ),
            ..plot
        }
    } else {
        plot
    }
}

/// Whether a cache is out of the running for expansion: it is empty, or it
/// has reached its limit.
pub open spec fn settled(plot: Plot) -> bool {
    plot.samples.len() == 0 || plot.samples.len() >= plot.limit
}

/// What one expansion makes of a plot, whatever the unit answers. Formula,
/// threshold, step and limit stay. A cache that cannot grow stays as it is:
/// an empty one, a full one, one at the end of the grid. One that can grow
/// has `EXPANSION` more samples at each end, with the old ones in their
/// place between them, and is contiguous as before; the new samples are
/// samples that the plot's own formula may give at their positions.
pub open spec fn widened<F: Fn(Operation, u64, u64) -> u64>(
    before: Plot,
    after: Plot,
    unit: &F,
) -> bool {
    &&& after.program == before.program
    &&& after.threshold == before.threshold
    &&& after.step == before.step
    &&& after.limit == before.limit
    &&& contiguous(after.samples)
    &&& if growable(before.samples, before.limit, EXPANSION) {
        &&& after.samples.len() == before.samples.len() + 2 * EXPANSION
        &&& after.samples.subrange(EXPANSION as int, EXPANSION + before.samples.len())
            == before.samples
        &&& may_hold(
            unit,
            after.samples.take(EXPANSION as int),
            before.step,
            before.program,
            before.threshold,
        )
        &&& may_hold(
            unit,
            after.samples.skip(EXPANSION + before.samples.len()),
            before.step,
            before.program,
            before.threshold,
        )
    } else {
        after == before
    }
}

/// Computes samples ahead of need: grows every cache that holds samples and
/// is below its limit, by `EXPANSION` samples at each end. Returns true when
/// no cache was left to grow. In polar mode nothing is cached, nothing
/// grows, and the answer is true.
pub fn expand_cache<F: Fn(Operation, u64, u64) -> u64>(state: &mut AppState, unit: &F) -> (caches_full:
    bool)
    requires
        total(unit),
    ensures
        caches_full == (old(state)@.polar_mode || forall|i: int|
            0 <= i < old(state)@.plots.len() ==> settled(#[trigger] old(state)@.plots[i])),
        old(state)@.polar_mode ==> final(state)@ == old(state)@,
        final(state)@.delta == old(state)@.delta,
        final(state)@.polar_mode == old(state)@.polar_mode,
        final(state)@.plots.len() == old(state)@.plots.len(),
        !old(state)@.polar_mode ==> forall|i: int|
            0 <= i < old(state)@.plots.len() ==> widened(
                old(state)@.plots[i],
                #[trigger] final(state)@.plots[i],
                unit,
            ),
        sound(old(state)@, unit) ==> sound(final(state)@, unit),
        forall|f: Arithmetic| #[trigger]
            computes(unit, f) && !old(state)@.polar_mode ==> final(state)@ == (Session {
                plots: old(state)@.plots.map_values(|p: Plot| expanded(p, f)),
                ..old(state)@
            }),
        forall|f: Arithmetic| #[trigger]
            computes(unit, f) && coherent(old(state)@, f) ==> coherent(final(state)@, f),
{
    //if we're in polar mode, don't expand cache
    if state.polar_mode {
        return true;
    }
    let mut caches_full = true;
    let mut i: usize = 0;
    while i < state.graphs.len()
        invariant
            total(unit),
            i <= state.graphs@.len(),
            state.graphs@.len() == old(state).graphs@.len(),
            state.delta == old(state).delta,
            state.polar_mode == old(state).polar_mode,
            caches_full == forall|k: int| 0 <= k < i ==> settled(#[trigger] old(state)@.plots[k]),
            forall|k: int|
                i <= k < state.graphs@.len() ==> (#[trigger] state.graphs@[k]) == old(
                    state,
                ).graphs@[k],
            forall|k: int|
                0 <= k < i ==> widened(old(state).graphs@[k]@, (#[trigger] state.graphs@[k])@, unit),
            forall|k: int|
                0 <= k < i && genuine(old(state).graphs@[k]@, state.delta, unit) ==> genuine(
                    (#[trigger] state.graphs@[k])@,
                    state.delta,
                    unit,
                ),
            forall|f: Arithmetic| #[trigger]
                computes(unit, f) ==> forall|k: int|
                    0 <= k < i ==> (#[trigger] state.graphs@[k])@ == expanded(
                        old(state).graphs@[k]@,
                        f,
                    ),
        decreases state.graphs@.len() - i,
    {
        let ghost plot = state.graphs@[i as int]@;
        assert(plot == old(state)@.plots[i as int]);
        let graph = &mut state.graphs[i];
        //expect each function's cache to already contain the points in the current graph viewport
        let n = graph.cache.len();
        if n != 0 && n < graph.cache.limit() {
            caches_full = false;
        }
        graph.cache.expand(EXPANSION, &mut graph.calculator, unit);
        i = i + 1;
    }
    proof {
        assert forall|f: Arithmetic| #[trigger] computes(unit, f) implies state@ == (Session {
            plots: old(state)@.plots.map_values(|p: Plot| expanded(p, f)),
            ..old(state)@
        }) by {
            assert(state@.plots =~= old(state)@.plots.map_values(|p: Plot| expanded(p, f)));
        }
        assert forall|f: Arithmetic| #[trigger]
            computes(unit, f) && coherent(old(state)@, f) implies coherent(state@, f) by {
            lemma_expansion_keeps_coherence(old(state)@, f);
        }
        if sound(old(state)@, unit) {
            assert forall|k: int| 0 <= k < state@.plots.len() implies genuine(
                #[trigger] state@.plots[k],
                state@.delta,
                unit,
            ) by {
                assert(genuine(old(state)@.plots[k], state.delta, unit));
                assert(genuine(state.graphs@[k]@, state.delta, unit));
            }
        }
    }
    caches_full
}

/// The number of positions from `first` to `last`.
pub open spec fn span(first: i64, last: i64) -> nat {
    if first <= last {
        (last - first + 1) as nat
    } else {
        0
    }
}

/// The samples that a plot gives for the positions from `first` to `last`:
/// those of its cache where the cache covers the range, and otherwise those
/// of the range from scratch, at the step `delta`.
pub open spec fn curve(plot: Plot, first: i64, last: i64, delta: u64, f: Arithmetic) -> Seq<Sample> {
    if bounds(plot.samples, first, last) {
        slice(plot.samples, first, last)
    } else {
        samples_of(first as int, span(first, last), delta, plot.program, plot.threshold, f)
    }
}

/// A plot after it has given its samples for the positions from `first` to
/// `last`. A cache that covers the range stays as it is. One that does not
/// is emptied, and in cartesian mode filled with the samples of the range.
pub open spec fn plotted(
    plot: Plot,
    first: i64,
    last: i64,
    delta: u64,
    polar_mode: bool,
    f: Arithmetic,
) -> Plot {
    if bounds(plot.samples, first, last) {
        plot
    } else if polar_mode {
        emptied(plot)
    } else {
        Plot {
            samples: samples_of(
                first as int,
                span(first, last),
                delta,
                plot.program,
                plot.threshold,
                f,
            ),
            step: delta,
            ..plot
        }
    }
}

/// The session after every plot has given its samples for a range.
pub open spec fn graphed(session: Session, first: i64, last: i64, f: Arithmetic) -> Session {
    Session {
        plots: session.plots.map_values(
            |p: Plot| plotted(p, first, last, session.delta, session.polar_mode, f),
        ),
        ..session
    }
}

/// The samples that the plots of a session give for a range, plot by plot.
pub open spec fn curves_of(session: Session, first: i64, last: i64, f: Arithmetic) -> Seq<
    Seq<Sample>,
> {
    session.plots.map_values(|p: Plot| curve(p, first, last, session.delta, f))
}

/// The samples of a vector of curves.
pub open spec fn rows(curves: Seq<Vec<Sample>>) -> Seq<Seq<Sample>> {
    curves.map_values(|v: Vec<Sample>| v@)
}

/// What giving its samples for the positions from `first` to `last` makes of
/// a plot, and what it gives, whatever the unit answers. Formula, threshold
/// and limit stay. A cache that covers the range stays as it is and gives
/// its slice. One that does not cover it is not asked: the samples are
/// computed by the plot's own formula, one for each position of the range
/// in ascending order, and in cartesian mode they become the cache's
/// content, at the step `delta`; in polar mode the cache is left empty.
pub open spec fn served<F: Fn(Operation, u64, u64) -> u64>(
    before: Plot,
    after: Plot,
    given: Seq<Sample>,
    first: i64,
    last: i64,
    delta: u64,
    polar_mode: bool,
    unit: &F,
) -> bool {
    &&& after.program == before.program
    &&& after.threshold == before.threshold
    &&& after.limit == before.limit
    &&& contiguous(after.samples)
    &&& if bounds(before.samples, first, last) {
        after == before && given == slice(before.samples, first, last)
    } else {
        &&& given.len() == span(first, last)
        &&& forall|k: int| 0 <= k < given.len() ==> (#[trigger] given[k]).position == first + k
        &&& may_hold(unit, given, delta, before.program, before.threshold)
        &&& if polar_mode {
            after == emptied(before)
        } else {
            after.samples == given && after.step == delta
        }
    }
}

/// Gives, for each graph, the samples at the positions from `first` to
/// `last`: from the cache where it covers the range, and freshly computed
/// where it does not. What is computed in cartesian mode replaces the cache's
/// content.
pub fn graph_each_function<F: Fn(Operation, u64, u64) -> u64>(
    state: &mut AppState,
    first: i64,
    last: i64,
    unit: &F,
) -> (curves: Vec<Vec<Sample>>)
    requires
        total(unit),
    ensures
        curves@.len() == old(state)@.plots.len(),
        final(state)@.delta == old(state)@.delta,
        final(state)@.polar_mode == old(state)@.polar_mode,
        final(state)@.plots.len() == old(state)@.plots.len(),
        forall|i: int|
            0 <= i < curves@.len() ==> served(
                old(state)@.plots[i],
                final(state)@.plots[i],
                (#[trigger] curves@[i])@,
                first,
                last,
                old(state)@.delta,
                old(state)@.polar_mode,
                unit,
            ),
        sound(old(state)@, unit) ==> sound(final(state)@, unit) && forall|i: int|
            0 <= i < curves@.len() ==> may_hold(
                unit,
                (#[trigger] curves@[i])@,
                old(state)@.delta,
                old(state)@.plots[i].program,
                old(state)@.plots[i].threshold,
            ),
        forall|f: Arithmetic| #[trigger]
            computes(unit, f) ==> final(state)@ == graphed(old(state)@, first, last, f) && rows(
                curves@,
            ) == curves_of(old(state)@, first, last, f),
        forall|f: Arithmetic| #[trigger]
            computes(unit, f) && coherent(old(state)@, f) ==> coherent(final(state)@, f)
                && forall|i: int|
                0 <= i < curves@.len() ==> (#[trigger] curves@[i])@ == samples_of(
                    first as int,
                    span(first, last),
                    old(state)@.delta,
                    old(state)@.plots[i].program,
                    old(state)@.plots[i].threshold,
                    f,
                ),
{
    let mut curves: Vec<Vec<Sample>> = Vec::new();
    let delta = state.delta;
    let polar_mode = state.polar_mode;
    let mut i: usize = 0;
    while i < state.graphs.len()
        invariant
            total(unit),
            i <= state.graphs@.len(),
            state.graphs@.len() == old(state).graphs@.len(),
            state.delta == old(state).delta,
            state.polar_mode == old(state).polar_mode,
            delta == state.delta,
            polar_mode == state.polar_mode,
            curves@.len() == i,
            forall|k: int|
                i <= k < state.graphs@.len() ==> (#[trigger] state.graphs@[k]) == old(
                    state,
                ).graphs@[k],
            forall|k: int|
                0 <= k < i ==> served(
                    old(state).graphs@[k]@,
                    state.graphs@[k]@,
                    (#[trigger] curves@[k])@,
                    first,
                    last,
                    delta,
                    polar_mode,
                    unit,
                ),
            sound(old(state)@, unit) ==> forall|k: int|
                0 <= k < i ==> genuine((#[trigger] state.graphs@[k])@, delta, unit) && (polar_mode
                    ==> state.graphs@[k]@.samples.len() == 0),
            sound(old(state)@, unit) ==> forall|k: int|
                0 <= k < i ==> may_hold(
                    unit,
                    (#[trigger] curves@[k])@,
                    delta,
                    old(state).graphs@[k]@.program,
                    old(state).graphs@[k]@.threshold,
                ),
            forall|f: Arithmetic| #[trigger]
                computes(unit, f) ==> forall|k: int|
                    0 <= k < i ==> (#[trigger] state.graphs@[k])@ == plotted(
                        old(state).graphs@[k]@,
                        first,
                        last,
                        delta,
                        polar_mode,
                        f,
                    ),
            forall|f: Arithmetic| #[trigger]
                computes(unit, f) ==> forall|k: int|
                    0 <= k < i ==> (#[trigger] curves@[k])@ == curve(
                        old(state).graphs@[k]@,
                        first,
                        last,
                        delta,
                        f,
                    ),
        decreases state.graphs@.len() - i,
    {
        let ghost before = old(state)@.plots[i as int];
        let ghost earlier_curves = curves@;
        let ghost earlier_graphs = state.graphs@;
        assert(before == state.graphs@[i as int]@);
        proof {
            if sound(old(state)@, unit) {
                assert(genuine(before, delta, unit));
                assert(polar_mode ==> before.samples.len() == 0);
                if bounds(before.samples, first, last) {
                    lemma_slice_may_hold(
                        unit,
                        before.samples,
                        first,
                        last,
                        before.step,
                        before.program,
                        before.threshold,
                    );
                }
            }
        }
        let graph = &mut state.graphs[i];
        let samples = match graph.cache.query(first, last) {
            Some(samples) => samples,
            None => {
                graph.cache.invalidate();
                if polar_mode {
                    sample_range(first, last, delta, &mut graph.calculator, unit)
                } else {
                    graph.cache.fill(first, last, delta, &mut graph.calculator, unit);
                    graph.cache.to_vec()
                }
            },
        };
        curves.push(samples);
        proof {
            if sound(old(state)@, unit) {
                assert forall|k: int| 0 <= k < i + 1 implies genuine(
                    (#[trigger] state.graphs@[k])@,
                    delta,
                    unit,
                ) && (polar_mode ==> state.graphs@[k]@.samples.len() == 0) by {
                    if k < i {
                        assert(state.graphs@[k] == earlier_graphs[k]);
                    }
                }
                assert forall|k: int| 0 <= k < i + 1 implies may_hold(
                    unit,
                    (#[trigger] curves@[k])@,
                    delta,
                    old(state).graphs@[k]@.program,
                    old(state).graphs@[k]@.threshold,
                ) by {
                    if k < i {
                        assert(curves@[k] == earlier_curves[k]);
                    }
                }
            }
        }
        i = i + 1;
    }
    proof {
        assert forall|f: Arithmetic| #[trigger] computes(unit, f) implies state@ == graphed(
            old(state)@,
            first,
            last,
            f,
        ) && rows(curves@) == curves_of(old(state)@, first, last, f) by {
            assert(state@.plots =~= graphed(old(state)@, first, last, f).plots);
            assert(rows(curves@) =~= curves_of(old(state)@, first, last, f));
        }
        if sound(old(state)@, unit) {
            assert forall|k: int| 0 <= k < state@.plots.len() implies genuine(
                #[trigger] state@.plots[k],
                state@.delta,
                unit,
            ) && (polar_mode ==> state@.plots[k].samples.len() == 0) by {
                assert(genuine(state.graphs@[k]@, delta, unit));
            }
        }
        assert forall|f: Arithmetic| #[trigger]
            computes(unit, f) && coherent(old(state)@, f) implies coherent(state@, f)
            && forall|i: int|
            0 <= i < curves@.len() ==> (#[trigger] curves@[i])@ == samples_of(
                first as int,
                span(first, last),
                old(state)@.delta,
                old(state)@.plots[i].program,
                old(state)@.plots[i].threshold,
                f,
            ) by {
            lemma_graphing_keeps_coherence(old(state)@, first, last, f);
            assert forall|i: int| 0 <= i < curves@.len() implies (#[trigger] curves@[i])@
                == samples_of(
                first as int,
                span(first, last),
                old(state)@.delta,
                old(state)@.plots[i].program,
                old(state)@.plots[i].threshold,
                f,
            ) by {
                lemma_curves_are_from_scratch(old(state)@, first, last, f, i);
                assert(rows(curves@)[i] == curves@[i]@);
            }
        }
    }
    curves
}

/// The number of grid positions in one unit of the abscissa.
pub open spec fn per_unit(delta: u64) -> int {
    if delta == COARSE_STEP {
        256
    } else {
        512
    }
}

/// The grid position of a whole abscissa, or the end of the grid where the
/// abscissa lies beyond it.
pub open spec fn grid_position(units: i64, delta: u64) -> i64 {
    let position = units * per_unit(delta);
    if position < i64::MIN {
        i64::MIN
    } else if position > i64::MAX {
        i64::MAX
    } else {
        position as i64
    }
}

/// Computes the grid position of a whole abscissa.
fn to_position(units: i64, delta: u64) -> (position: i64)
    ensures
        position == grid_position(units, delta),
{
    let scale: i128 = if delta == COARSE_STEP {
        256
    } else {
        512
    };
    let position: i128 = units as i128 * scale;
    if position < i64::MIN as i128 {
        i64::MIN
    } else if position > i64::MAX as i128 {
        i64::MAX
    } else {
        position as i64
    }
}

/// One frame: chooses the step for the viewport from `x_start` to `x_end`,
/// then gives each graph's samples from the whole abscissa `first_unit` to
/// the whole abscissa `last_unit`.
pub fn run<F: Fn(Operation, u64, u64) -> u64>(
    state: &mut AppState,
    x_start: u64,
    x_end: u64,
    first_unit: i64,
    last_unit: i64,
    unit: &F,
) -> (curves: Vec<Vec<Sample>>)
    requires
        total(unit),
    ensures
        curves@.len() == old(state)@.plots.len(),
        final(state)@.polar_mode == old(state)@.polar_mode,
        final(state)@.plots.len() == old(state)@.plots.len(),
        final(state)@.delta == FINE_STEP || final(state)@.delta == COARSE_STEP,
        old(state)@.polar_mode ==> final(state)@.delta == FINE_STEP,
        forall|i: int|
            0 <= i < curves@.len() ==> served(
                stepped(old(state)@, final(state)@.delta).plots[i],
                final(state)@.plots[i],
                (#[trigger] curves@[i])@,
                grid_position(first_unit, final(state)@.delta),
                grid_position(last_unit, final(state)@.delta),
                final(state)@.delta,
                old(state)@.polar_mode,
                unit,
            ),
        sound(old(state)@, unit) ==> sound(final(state)@, unit) && forall|i: int|
            0 <= i < curves@.len() ==> may_hold(
                unit,
                (#[trigger] curves@[i])@,
                final(state)@.delta,
                old(state)@.plots[i].program,
                old(state)@.plots[i].threshold,
            ),
        forall|f: Arithmetic| #[trigger]
            computes(unit, f) ==> ({
                let chosen = with_step(old(state)@, wide(x_start, x_end, f));
                let first = grid_position(first_unit, chosen.delta);
                let last = grid_position(last_unit, chosen.delta);
                &&& final(state)@ == graphed(chosen, first, last, f)
                &&& rows(curves@) == curves_of(chosen, first, last, f)
            }),
        forall|f: Arithmetic| #[trigger]
            computes(unit, f) && coherent(old(state)@, f) ==> coherent(final(state)@, f)
                && forall|i: int|
                0 <= i < curves@.len() ==> (#[trigger] curves@[i])@ == samples_of(
                    grid_position(first_unit, final(state)@.delta) as int,
                    span(
                        grid_position(first_unit, final(state)@.delta),
                        grid_position(last_unit, final(state)@.delta),
                    ),
                    final(state)@.delta,
                    old(state)@.plots[i].program,
                    old(state)@.plots[i].threshold,
                    f,
                ),
{
    set_delta(state, x_start, x_end, unit);
    let first = to_position(first_unit, state.delta);
    let last = to_position(last_unit, state.delta);
    let ghost chosen = state@;
    let curves = graph_each_function(state, first, last, unit);
    proof {
        assert forall|f: Arithmetic| #[trigger]
            computes(unit, f) && coherent(old(state)@, f) implies forall|i: int|
            0 <= i < curves@.len() ==> (#[trigger] curves@[i])@ == samples_of(
                first as int,
                span(first, last),
                chosen.delta,
                old(state)@.plots[i].program,
                old(state)@.plots[i].threshold,
                f,
            ) by {
            assert forall|i: int| 0 <= i < curves@.len() implies chosen.plots[i].program == old(
                state,
            )@.plots[i].program && chosen.plots[i].threshold == old(state)@.plots[i].threshold by {}
        }
    }
    curves
}

/// A plot's cache holds nothing but its own formula's samples, whatever the
/// unit answers: a contiguous window whose every sample is one that the
/// formula may give at its position, and, while it holds samples, one taken
/// at the session's step.
pub open spec fn genuine<F: Fn(Operation, u64, u64) -> u64>(plot: Plot, delta: u64, unit: &F) -> bool {
    &&& contiguous(plot.samples)
    &&& may_hold(unit, plot.samples, plot.step, plot.program, plot.threshold)
    &&& plot.samples.len() > 0 ==> plot.step == delta
}

/// Every cache of the session holds nothing but its own formula's samples,
/// the step is one of the two, and polar mode holds no samples. A new
/// session is sound, and every function of this module keeps a session so.
pub open spec fn sound<F: Fn(Operation, u64, u64) -> u64>(session: Session, unit: &F) -> bool {
    &&& session.delta == FINE_STEP || session.delta == COARSE_STEP
    &&& forall|i: int|
        0 <= i < session.plots.len() ==> genuine(#[trigger] session.plots[i], session.delta, unit)
    &&& session.polar_mode ==> forall|i: int|
        0 <= i < session.plots.len() ==> (#[trigger] session.plots[i]).samples.len() == 0
}

/// A session without graphs, at one of the two steps, is sound: so is a new
/// session.
pub proof fn lemma_empty_session_is_sound<F: Fn(Operation, u64, u64) -> u64>(
    session: Session,
    unit: &F,
)
    requires
        session.plots.len() == 0,
        session.delta == FINE_STEP || session.delta == COARSE_STEP,
    ensures
        sound(session, unit),
{
}

/// A sound session is coherent for every function that the unit computes.
pub proof fn lemma_sound_is_coherent<F: Fn(Operation, u64, u64) -> u64>(
    session: Session,
    unit: &F,
    f: Arithmetic,
)
    requires
        sound(session, unit),
        computes(unit, f),
    ensures
        coherent(session, f),
{
    assert forall|i: int| 0 <= i < session.plots.len() implies faithful(
        #[trigger] session.plots[i],
        session.delta,
        f,
    ) by {
        let plot = session.plots[i];
        assert(genuine(plot, session.delta, unit));
        lemma_may_hold_is_memo(unit, f, plot.samples, plot.step, plot.program, plot.threshold);
    }
}

/// Emptying the caches, as a change of mode does, keeps a session sound, and
/// so does forgetting every graph.
pub proof fn lemma_emptying_keeps_soundness<F: Fn(Operation, u64, u64) -> u64>(
    session: Session,
    polar_mode: bool,
    unit: &F,
)
    requires
        sound(session, unit),
    ensures
        sound(
            Session {
                plots: session.plots.map_values(|p: Plot| emptied(p)),
                polar_mode,
                delta: session.delta,
            },
            unit,
        ),
        sound(Session { plots: Seq::empty(), ..session }, unit),
{
}

/// A plot's cache is a memo of its formula: a contiguous window whose every
/// sample is what the formula gives at its position, and, while it holds
/// samples, one taken at the session's step.
pub open spec fn faithful(plot: Plot, delta: u64, f: Arithmetic) -> bool {
    &&& contiguous(plot.samples)
    &&& memoizes(plot.samples, plot.step, plot.program, plot.threshold, f)
    &&& plot.samples.len() > 0 ==> plot.step == delta
}

/// Every cache of the session is a memo of its formula, the step is one of
/// the two, and polar mode holds no samples.
pub open spec fn coherent(session: Session, f: Arithmetic) -> bool {
    &&& session.delta == FINE_STEP || session.delta == COARSE_STEP
    &&& forall|i: int|
        0 <= i < session.plots.len() ==> faithful(#[trigger] session.plots[i], session.delta, f)
    &&& session.polar_mode ==> forall|i: int|
        0 <= i < session.plots.len() ==> (#[trigger] session.plots[i]).samples.len() == 0
}

/// A new session is coherent, and so is a session after a reset.
pub proof fn lemma_empty_session_is_coherent(session: Session, f: Arithmetic)
    requires
        session.plots.len() == 0,
        session.delta == FINE_STEP || session.delta == COARSE_STEP,
    ensures
        coherent(session, f),
{
}

/// Emptying the caches, as a change of mode does, keeps a session coherent.
pub proof fn lemma_emptying_keeps_coherence(session: Session, polar_mode: bool, f: Arithmetic)
    requires
        coherent(session, f),
    ensures
        coherent(
            Session {
                plots: session.plots.map_values(|p: Plot| emptied(p)),
                polar_mode,
                delta: session.delta,
            },
            f,
        ),
{
}

/// Choosing the step keeps a session coherent: where the step changes, the
/// samples of the old grid are gone.
pub proof fn lemma_step_keeps_coherence(session: Session, wide: bool, f: Arithmetic)
    requires
        coherent(session, f),
    ensures
        coherent(with_step(session, wide), f),
{
}

/// New graphs come with empty caches and keep a session coherent.
pub proof fn lemma_new_plots_keep_coherence(
    session: Session,
    texts: Seq<Seq<char>>,
    threshold: u64,
    g: Numerals,
    f: Arithmetic,
)
    requires
        coherent(session, f),
    ensures
        coherent(
            Session { plots: session.plots + new_plots(texts, threshold, g), ..session },
            f,
        ),
{
    lemma_new_plots_are_empty(texts, threshold, g);
}

/// Every new graph has an empty cache.
pub proof fn lemma_new_plots_are_empty(texts: Seq<Seq<char>>, threshold: u64, g: Numerals)
    ensures
        forall|i: int|
            0 <= i < new_plots(texts, threshold, g).len() ==> (#[trigger] new_plots(
                texts,
                threshold,
                g,
            )[i]).samples.len() == 0,
    decreases texts.len(),
{
    if texts.len() > 0 {
        lemma_new_plots_are_empty(texts.drop_last(), threshold, g);
        let before = new_plots(texts.drop_last(), threshold, g);
        let all = new_plots(texts, threshold, g);
        assert forall|i: int| 0 <= i < all.len() implies (#[trigger] all[i]).samples.len() == 0 by {
            if i < before.len() {
                assert(all[i] == before[i]);
            }
        }
    }
}

/// Expanding the caches keeps a session coherent.
pub proof fn lemma_expansion_keeps_coherence(session: Session, f: Arithmetic)
    requires
        coherent(session, f),
        !session.polar_mode,
    ensures
        coherent(
            Session { plots: session.plots.map_values(|p: Plot| expanded(p, f)), ..session },
            f,
        ),
{
    assert forall|i: int| 0 <= i < session.plots.len() implies faithful(
        expanded(#[trigger] session.plots[i], f),
        session.delta,
        f,
    ) by {
        let plot = session.plots[i];
        if growable(plot.samples, plot.limit, EXPANSION) {
            lemma_expansion_is_sound(
                plot.samples,
                EXPANSION,
                plot.step,
                plot.program,
                plot.threshold,
                f,
            );
        }
    }
}

/// Plotting keeps a session coherent.
pub proof fn lemma_graphing_keeps_coherence(session: Session, first: i64, last: i64, f: Arithmetic)
    requires
        coherent(session, f),
    ensures
        coherent(graphed(session, first, last, f), f),
{
    let after = graphed(session, first, last, f);
    assert forall|i: int| 0 <= i < after.plots.len() implies faithful(
        #[trigger] after.plots[i],
        after.delta,
        f,
    ) by {
        assert(faithful(session.plots[i], session.delta, f));
    }
    if session.polar_mode {
        assert forall|i: int| 0 <= i < after.plots.len() implies (#[trigger] after.plots[i]).samples.len()
            == 0 by {
            assert(session.plots[i].samples.len() == 0);
        }
    }
}

/// The cache is a pure memo: in a coherent session the samples that a plot
/// gives for a range are those of its formula from scratch at the session's
/// step, whether the cache served them or not.
pub proof fn lemma_curves_are_from_scratch(
    session: Session,
    first: i64,
    last: i64,
    f: Arithmetic,
    i: int,
)
    requires
        coherent(session, f),
        0 <= i < session.plots.len(),
    ensures
        curves_of(session, first, last, f)[i] == samples_of(
            first as int,
            span(first, last),
            session.delta,
            session.plots[i].program,
            session.plots[i].threshold,
            f,
        ),
{
    let plot = session.plots[i];
    assert(faithful(plot, session.delta, f));
    if bounds(plot.samples, first, last) {
        lemma_slice_is_from_scratch(
            plot.samples,
            first,
            last,
            plot.step,
            plot.program,
            plot.threshold,
            f,
        );
    }
}

} // verus!
