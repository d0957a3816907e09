use graphcalc::cache::{sample_range, Sample};
use graphcalc::calculator::{generate_calculator, Operation};
use graphcalc::parser::parse;
use graphcalc::scanner::scan;
use graphcalc::{
    compile_expression, expand_cache, graph_each_function, initialize, reset, run, set_delta,
    toggle_mode, AppState, COARSE_STEP, EXPANSION, FINE_STEP, MAX_CACHE_SIZE,
};

fn unit(operation: Operation, a: u64, b: u64) -> u64 {
    let (x, y) = (f64::from_bits(a), f64::from_bits(b));
    let r = match operation {
        Operation::Add => x + y,
        Operation::Sub => x - y,
        Operation::Mul => x * y,
        Operation::Div => x / y,
        Operation::Pow => x.powf(y),
        Operation::Sin => x.sin(),
        Operation::Cos => x.cos(),
        Operation::Tan => x.tan(),
        Operation::Log10 => x.log10(),
        Operation::Ln => x.ln(),
        Operation::Sqrt => x.sqrt(),
        Operation::FromInt => (a as i64) as f64,
    };
    r.to_bits()
}

fn convert(spelling: String) -> u64 {
    spelling.parse::<f64>().unwrap().to_bits()
}

fn texts(list: &[&str]) -> Vec<String> {
    list.iter().map(|s| String::from(*s)).collect()
}

fn session(list: &[&str]) -> AppState {
    let mut state = AppState::new();
    initialize(&mut state, &texts(list), &convert, &unit);
    state
}

fn from_scratch(text: &str, first: i64, last: i64, step: u64, threshold: f64) -> Vec<Sample> {
    let tokens = scan(&String::from(text)).unwrap();
    let ast = parse(&tokens).unwrap();
    let mut calculator = generate_calculator(ast, threshold.to_bits(), &convert);
    sample_range(first, last, step, &mut calculator, &unit)
}

fn frame(state: &mut AppState, x_start: f64, x_end: f64) -> Vec<Vec<Sample>> {
    run(
        state,
        x_start.to_bits(),
        x_end.to_bits(),
        x_start.floor() as i64,
        x_end.ceil() as i64,
        &unit,
    )
}

#[test]
fn new_session_is_empty() {
    let state = AppState::new();
    assert_eq!(state.len(), 0);
    assert_eq!(state.delta(), FINE_STEP);
    assert!(!state.polar_mode());
    assert_eq!(MAX_CACHE_SIZE, 100000);
    assert_eq!(EXPANSION, 50);
}

#[test]
fn compile_expression_tells_formulas_from_other_text() {
    assert!(compile_expression(&String::from("2*sin(x)/e"), 0, &convert).is_some());
    assert!(compile_expression(&String::from("2 $ 3"), 0, &convert).is_none());
    assert!(compile_expression(&String::from("2 2"), 0, &convert).is_none());
    assert!(compile_expression(&String::from("sin(x"), 0, &convert).is_none());
    assert!(compile_expression(&String::from(""), 0, &convert).is_none());
    let calculator = compile_expression(&String::from("x"), 7, &convert).unwrap();
    assert_eq!(calculator.delta(), 7);
}

#[test]
fn compile_expression_gives_the_same_code_each_time() {
    let text = String::from("2*sin(x)/e - 3.25^x");
    let mut a = compile_expression(&text, 0, &convert).unwrap();
    let mut b = compile_expression(&text, 0, &convert).unwrap();
    assert_eq!(a.instructions(), b.instructions());
    for x in [-1.5f64, 0.0, 0.75, 20.0] {
        assert_eq!(a.calculate(x.to_bits(), &unit), b.calculate(x.to_bits(), &unit));
    }
}

#[test]
fn initialize_flags_each_expression() {
    let mut state = AppState::new();
    let flags = initialize(
        &mut state,
        &texts(&["x", "2 2", "sin(x", "1/x", "y", "1.2.3", ""]),
        &convert,
        &unit,
    );
    assert_eq!(flags, vec![true, false, false, true, false, false, false]);
    assert_eq!(state.len(), 2);
    let more = initialize(&mut state, &texts(&["x^2"]), &convert, &unit);
    assert_eq!(more, vec![true]);
    assert_eq!(state.len(), 3);
    assert!(initialize(&mut state, &vec![], &convert, &unit).is_empty());
    assert_eq!(state.len(), 3);
}

#[test]
fn initialize_uses_half_the_step_as_threshold() {
    let mut state = session(&["1/x"]);
    let curves = graph_each_function(&mut state, -1, 1, &unit);
    assert_eq!(curves, vec![from_scratch("1/x", -1, 1, FINE_STEP, 0.0009765625)]);
    assert_eq!(curves[0][1].y, None);
    assert_eq!(curves[0][2].y, Some(512.0f64.to_bits()));
    let mut state = session(&["1/(2*x)"]);
    let curves = graph_each_function(&mut state, 1, 1, &unit);
    assert_eq!(curves[0][0].y, Some(256.0f64.to_bits()));
    let mut state = session(&["1/(0.25*x)"]);
    let curves = graph_each_function(&mut state, 1, 1, &unit);
    assert_eq!(curves[0][0].y, None);
}

#[test]
fn graph_each_function_samples_every_graph() {
    let mut state = session(&["x", "x*x"]);
    let curves = graph_each_function(&mut state, -4, 4, &unit);
    assert_eq!(curves.len(), 2);
    assert_eq!(curves[0], from_scratch("x", -4, 4, FINE_STEP, 0.0009765625));
    assert_eq!(curves[1], from_scratch("x*x", -4, 4, FINE_STEP, 0.0009765625));
    assert_eq!(curves[1][0].y, Some((4.0 * 0.001953125f64 * 4.0 * 0.001953125).to_bits()));
}

#[test]
fn graph_each_function_serves_a_covered_range_from_the_cache() {
    let mut state = session(&["sin(x)"]);
    let calls = std::cell::Cell::new(0usize);
    let counting = |operation: Operation, a: u64, b: u64| {
        calls.set(calls.get() + 1);
        unit(operation, a, b)
    };
    let whole = graph_each_function(&mut state, -100, 100, &counting);
    let spent = calls.get();
    assert!(spent > 0);
    let part = graph_each_function(&mut state, -20, 30, &counting);
    assert_eq!(calls.get(), spent);
    assert_eq!(part[0], whole[0][80..131].to_vec());
    assert_eq!(part[0], from_scratch("sin(x)", -20, 30, FINE_STEP, 0.0009765625));
    let wider = graph_each_function(&mut state, -20, 101, &counting);
    assert!(calls.get() > spent);
    assert_eq!(wider[0].len(), 122);
}

#[test]
fn set_delta_follows_the_width_of_the_viewport() {
    let mut state = session(&["x"]);
    set_delta(&mut state, (-10.0f64).to_bits(), 10.0f64.to_bits(), &unit);
    assert_eq!(state.delta(), FINE_STEP);
    set_delta(&mut state, (-10.0f64).to_bits(), 10.5f64.to_bits(), &unit);
    assert_eq!(state.delta(), COARSE_STEP);
    set_delta(&mut state, 0.0f64.to_bits(), 20.0f64.to_bits(), &unit);
    assert_eq!(state.delta(), FINE_STEP);
    set_delta(&mut state, 0.0f64.to_bits(), f64::NAN.to_bits(), &unit);
    assert_eq!(state.delta(), FINE_STEP);
    set_delta(&mut state, 0.0f64.to_bits(), f64::INFINITY.to_bits(), &unit);
    assert_eq!(state.delta(), COARSE_STEP);
}

#[test]
fn set_delta_empties_the_caches_when_the_step_changes() {
    let mut state = session(&["x"]);
    graph_each_function(&mut state, 0, 100, &unit);
    assert!(!expand_cache(&mut state, &unit));
    set_delta(&mut state, 0.0f64.to_bits(), 5.0f64.to_bits(), &unit);
    assert!(!expand_cache(&mut state, &unit));
    set_delta(&mut state, 0.0f64.to_bits(), 50.0f64.to_bits(), &unit);
    assert!(expand_cache(&mut state, &unit));
    graph_each_function(&mut state, 0, 100, &unit);
    assert!(!expand_cache(&mut state, &unit));
    set_delta(&mut state, 0.0f64.to_bits(), 60.0f64.to_bits(), &unit);
    assert!(!expand_cache(&mut state, &unit));
    set_delta(&mut state, 0.0f64.to_bits(), 6.0f64.to_bits(), &unit);
    assert!(expand_cache(&mut state, &unit));
}

#[test]
fn run_samples_the_viewport_at_the_chosen_step() {
    let mut state = session(&["x"]);
    let curves = frame(&mut state, -1.5, 1.25);
    assert_eq!(state.delta(), FINE_STEP);
    assert_eq!(curves[0].len(), 4 * 512 + 1);
    assert_eq!(curves[0][0].position, -1024);
    assert_eq!(curves[0][0].x, (-2.0f64).to_bits());
    assert_eq!(curves[0][0].y, Some((-2.0f64).to_bits()));
    assert_eq!(curves[0][2048].x, 2.0f64.to_bits());
    let curves = frame(&mut state, -15.0, 15.0);
    assert_eq!(state.delta(), COARSE_STEP);
    assert_eq!(curves[0].len(), 30 * 256 + 1);
    assert_eq!(curves[0][0].position, -15 * 256);
    assert_eq!(curves[0][0].x, (-15.0f64).to_bits());
    assert_eq!(curves[0][1].x, (-15.0f64 + 0.00390625).to_bits());
    assert_eq!(curves[0], from_scratch("x", -3840, 3840, COARSE_STEP, 0.0009765625));
}

#[test]
fn run_reuses_the_cache_while_panning() {
    let mut state = session(&["sin(x)*x"]);
    let first = frame(&mut state, -4.0, 4.0);
    let again = frame(&mut state, -3.0, 2.0);
    assert_eq!(again[0], first[0][512..3073].to_vec());
    assert_eq!(again[0], from_scratch("sin(x)*x", -1536, 1024, FINE_STEP, 0.0009765625));
}

#[test]
fn expand_cache_grows_every_cache() {
    let mut state = session(&["x", "1/x"]);
    assert!(expand_cache(&mut state, &unit));
    graph_each_function(&mut state, -10, 10, &unit);
    assert!(!expand_cache(&mut state, &unit));
    let curves = graph_each_function(&mut state, -60, 60, &unit);
    assert_eq!(curves[0], from_scratch("x", -60, 60, FINE_STEP, 0.0009765625));
    assert_eq!(curves[1], from_scratch("1/x", -60, 60, FINE_STEP, 0.0009765625));
    let calls = std::cell::Cell::new(0usize);
    let counting = |operation: Operation, a: u64, b: u64| {
        calls.set(calls.get() + 1);
        unit(operation, a, b)
    };
    graph_each_function(&mut state, -60, 60, &counting);
    assert_eq!(calls.get(), 0);
}

#[test]
fn expand_cache_reports_when_all_caches_are_full() {
    let mut state = session(&["x"]);
    graph_each_function(&mut state, 0, 99949, &unit);
    assert!(!expand_cache(&mut state, &unit));
    assert!(expand_cache(&mut state, &unit));
    let curves = graph_each_function(&mut state, -50, 99999, &unit);
    assert_eq!(curves[0].len(), 100050);
}

#[test]
fn toggle_mode_switches_and_empties_the_caches() {
    let mut state = session(&["x"]);
    graph_each_function(&mut state, 0, 10, &unit);
    assert!(!expand_cache(&mut state, &unit));
    toggle_mode(&mut state);
    assert!(state.polar_mode());
    assert_eq!(state.len(), 1);
    assert!(expand_cache(&mut state, &unit));
    toggle_mode(&mut state);
    assert!(!state.polar_mode());
    assert!(expand_cache(&mut state, &unit));
}

#[test]
fn polar_mode_caches_nothing() {
    let mut state = session(&["x"]);
    toggle_mode(&mut state);
    let curves = graph_each_function(&mut state, 0, 10, &unit);
    assert_eq!(curves[0], from_scratch("x", 0, 10, FINE_STEP, 0.0009765625));
    let calls = std::cell::Cell::new(0usize);
    let counting = |operation: Operation, a: u64, b: u64| {
        calls.set(calls.get() + 1);
        unit(operation, a, b)
    };
    let again = graph_each_function(&mut state, 0, 10, &counting);
    assert!(calls.get() > 0);
    assert_eq!(again, curves);
    assert!(expand_cache(&mut state, &unit));
}

#[test]
fn polar_mode_keeps_the_fine_step() {
    let mut state = session(&["x"]);
    set_delta(&mut state, 0.0f64.to_bits(), 50.0f64.to_bits(), &unit);
    assert_eq!(state.delta(), COARSE_STEP);
    toggle_mode(&mut state);
    set_delta(&mut state, 0.0f64.to_bits(), 50.0f64.to_bits(), &unit);
    assert_eq!(state.delta(), FINE_STEP);
}

#[test]
fn reset_forgets_every_graph() {
    let mut state = session(&["x", "x^2"]);
    set_delta(&mut state, 0.0f64.to_bits(), 50.0f64.to_bits(), &unit);
    assert_eq!(state.delta(), COARSE_STEP);
    toggle_mode(&mut state);
    reset(&mut state);
    assert_eq!(state.len(), 0);
    assert_eq!(state.delta(), COARSE_STEP);
    assert!(state.polar_mode());
    assert!(graph_each_function(&mut state, 0, 10, &unit).is_empty());
    assert!(expand_cache(&mut state, &unit));
}

#[test]
fn run_clamps_a_viewport_beyond_the_grid() {
    let mut state = session(&["x"]);
    let curves = run(
        &mut state,
        0.0f64.to_bits(),
        1.0f64.to_bits(),
        i64::MAX,
        i64::MAX,
        &unit,
    );
    assert_eq!(curves[0].len(), 1);
    assert_eq!(curves[0][0].position, i64::MAX);
}

fn assert_one_step_apart(samples: &Vec<Sample>, step: f64) {
    for i in 1..samples.len() {
        assert_eq!(samples[i].position, samples[i - 1].position + 1);
        assert_eq!(f64::from_bits(samples[i].x) - f64::from_bits(samples[i - 1].x), step);
    }
}

#[test]
fn samples_shows_the_cache_of_a_graph() {
    let mut state = session(&["x", "1/x"]);
    assert_eq!(state.samples(0), Some(&vec![]));
    assert_eq!(state.samples(2), None);
    let curves = graph_each_function(&mut state, -3, 3, &unit);
    assert_eq!(state.samples(0), Some(&curves[0]));
    assert_eq!(state.samples(1), Some(&curves[1]));
}

#[test]
fn caches_stay_contiguous_through_fills_and_expansions() {
    let mut state = session(&["sin(x)", "x*x"]);
    graph_each_function(&mut state, -10, 10, &unit);
    for round in 1..=5 {
        assert!(!expand_cache(&mut state, &unit));
        for i in 0..2 {
            let samples = state.samples(i).unwrap();
            assert_eq!(samples.len(), 21 + 100 * round);
            assert_eq!(samples[0].position, -10 - 50 * round as i64);
            assert_one_step_apart(samples, 0.001953125);
        }
    }
    graph_each_function(&mut state, -400, -300, &unit);
    assert_eq!(state.samples(0).unwrap().len(), 101);
    assert!(!expand_cache(&mut state, &unit));
    assert_one_step_apart(state.samples(1).unwrap(), 0.001953125);
    assert_eq!(state.samples(1).unwrap(), &from_scratch("x*x", -450, -250, FINE_STEP, 0.0009765625));
}

#[test]
fn expand_cache_keeps_the_old_samples_in_place() {
    let mut state = session(&["x", "x^2", "1/x"]);
    graph_each_function(&mut state, 0, 9, &unit);
    let before: Vec<Vec<Sample>> = (0..3).map(|i| state.samples(i).unwrap().clone()).collect();
    expand_cache(&mut state, &unit);
    for i in 0..3 {
        let after = state.samples(i).unwrap();
        assert_eq!(after.len(), before[i].len() + 100);
        assert_eq!(after[50..60].to_vec(), before[i]);
    }
    assert_eq!(state.samples(1).unwrap(), &from_scratch("x^2", -50, 59, FINE_STEP, 0.0009765625));
    assert_eq!(state.samples(2).unwrap(), &from_scratch("1/x", -50, 59, FINE_STEP, 0.0009765625));
}

#[test]
fn set_delta_leaves_the_caches_alone_when_the_step_stays() {
    let mut state = session(&["x"]);
    graph_each_function(&mut state, 0, 9, &unit);
    let before = state.samples(0).unwrap().clone();
    set_delta(&mut state, 0.0f64.to_bits(), 19.0f64.to_bits(), &unit);
    assert_eq!(state.samples(0).unwrap(), &before);
    set_delta(&mut state, 0.0f64.to_bits(), 21.0f64.to_bits(), &unit);
    assert_eq!(state.samples(0).unwrap().len(), 0);
    assert_eq!(state.len(), 1);
}

#[test]
fn initialize_adds_one_empty_cache_for_each_formula() {
    let mut state = session(&["x"]);
    graph_each_function(&mut state, 0, 9, &unit);
    let flags = initialize(&mut state, &texts(&["y", "x+1", "(", "2"]), &convert, &unit);
    assert_eq!(flags, vec![false, true, false, true]);
    assert_eq!(state.len(), 3);
    assert_eq!(state.samples(0).unwrap().len(), 10);
    assert_eq!(state.samples(1).unwrap().len(), 0);
    assert_eq!(state.samples(2).unwrap().len(), 0);
    let curves = graph_each_function(&mut state, 4, 4, &unit);
    assert_eq!(curves[1][0].y, Some((4.0 * 0.001953125f64 + 1.0).to_bits()));
    assert_eq!(curves[2][0].y, Some(2.0f64.to_bits()));
}
