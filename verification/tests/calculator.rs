use graphcalc::binary64::{E, MINUS_ONE, PI};
use graphcalc::calculator::{
    generate_calculator, Calculator, CalculatorInstruction, CalculatorValue, Operation,
};
use graphcalc::parser::{parse, ASTNodeType};
use graphcalc::scanner::{scan, TokenType};

fn unit(operation: Operation, a: u64, b: u64) -> u64 {
    let (x, y) = (f64::from_bits(a), f64::from_bits(b));
    let r = match operation {
        Operation::Add => x + y,
        Operation::Sub => x - y,
        Operation::Mul => x * y,
        Operation::Div => x / y,
        Operation::Pow => x.powf(y),
        Operation::Sin => x.sin(),
        Operation::Cos => x.cos(),
        Operation::Tan => x.tan(),
        Operation::Log10 => x.log10(),
        Operation::Ln => x.ln(),
        Operation::Sqrt => x.sqrt(),
        Operation::FromInt => (a as i64) as f64,
    };
    r.to_bits()
}

fn convert(spelling: String) -> u64 {
    spelling.parse::<f64>().unwrap().to_bits()
}

fn compiled(text: &str, delta: f64) -> Calculator {
    let tokens = scan(&String::from(text)).unwrap();
    let ast = parse(&tokens).unwrap();
    generate_calculator(ast, delta.to_bits(), &convert)
}

fn value(calculator: &mut Calculator, x: f64) -> Option<f64> {
    calculator.calculate(x.to_bits(), &unit).map(f64::from_bits)
}

fn at(text: &str, x: f64) -> Option<f64> {
    value(&mut compiled(text, 0.0), x)
}

fn close(found: Option<f64>, expected: f64) -> bool {
    match found {
        Some(v) => (v - expected).abs() <= 1e-12 * expected.abs().max(1.0),
        None => false,
    }
}

fn push(v: f64) -> CalculatorInstruction {
    CalculatorInstruction::Push(CalculatorValue::Num(v.to_bits()))
}

fn push_x() -> CalculatorInstruction {
    CalculatorInstruction::Push(CalculatorValue::Variable(TokenType::Variable(String::from("x"))))
}

fn apply(name: &str) -> CalculatorInstruction {
    CalculatorInstruction::ApplyFunc(TokenType::FunctionName(String::from(name)))
}

fn atom(token: TokenType) -> ASTNodeType {
    ASTNodeType::AtomicExpression(token)
}

fn x_atom() -> ASTNodeType {
    atom(TokenType::Variable(String::from("x")))
}

#[test]
fn compiles_to_postfix_code() {
    let calculator = compiled("2*sin(x)/e", 0.0);
    let expected = vec![
        push(2.0),
        push_x(),
        apply("sin"),
        CalculatorInstruction::Mul,
        push(std::f64::consts::E),
        CalculatorInstruction::Div,
    ];
    assert_eq!(calculator.instructions(), &expected);
}

#[test]
fn compiles_every_operator() {
    let calculator = compiled("1+2-3*4/5^6", 0.0);
    let expected = vec![
        push(1.0),
        push(2.0),
        CalculatorInstruction::Add,
        push(3.0),
        push(4.0),
        CalculatorInstruction::Mul,
        push(5.0),
        push(6.0),
        CalculatorInstruction::Exp,
        CalculatorInstruction::Div,
        CalculatorInstruction::Sub,
    ];
    assert_eq!(calculator.instructions(), &expected);
}

#[test]
fn compiles_negation_to_a_product_with_minus_one() {
    let calculator = compiled("-x", 0.0);
    let expected = vec![
        CalculatorInstruction::Push(CalculatorValue::Num(MINUS_ONE)),
        push_x(),
        CalculatorInstruction::Mul,
    ];
    assert_eq!(calculator.instructions(), &expected);
    assert_eq!(at("-x", 3.0), Some(-3.0));
    assert_eq!(at("--x", 3.0), Some(3.0));
    assert_eq!(at("-x^2", 3.0), Some(-9.0));
}

#[test]
fn compiles_constants_to_their_numbers() {
    let calculator = compiled("pi + e", 0.0);
    let expected = vec![
        CalculatorInstruction::Push(CalculatorValue::Num(PI)),
        CalculatorInstruction::Push(CalculatorValue::Num(E)),
        CalculatorInstruction::Add,
    ];
    assert_eq!(calculator.instructions(), &expected);
    assert_eq!(at("pi", 0.0), Some(std::f64::consts::PI));
    assert_eq!(at("e", 0.0), Some(std::f64::consts::E));
}

#[test]
fn compiles_number_literals_through_the_reader() {
    let calculator = compiled("123.45", 0.0);
    assert_eq!(calculator.instructions(), &vec![push(123.45)]);
    let calculator = compiled("5.", 0.0);
    assert_eq!(calculator.instructions(), &vec![push(5.0)]);
}

#[test]
fn keeps_the_threshold() {
    assert_eq!(compiled("x", 0.25).delta(), 0.25f64.to_bits());
}

#[test]
fn drops_tokens_without_meaning() {
    let unknown = atom(TokenType::Constant(String::from("tau")));
    assert!(generate_calculator(unknown, 0, &convert).instructions().is_empty());
    let stray = atom(TokenType::LeftParen);
    assert!(generate_calculator(stray, 0, &convert).instructions().is_empty());
    let odd = ASTNodeType::BinaryExpression(
        TokenType::LeftParen,
        Box::new(x_atom()),
        Box::new(x_atom()),
    );
    assert_eq!(
        generate_calculator(odd, 0, &convert).instructions(),
        &vec![push_x(), push_x()]
    );
    let plus = ASTNodeType::UnaryExpression(TokenType::Add, Box::new(x_atom()));
    assert_eq!(
        generate_calculator(plus, 0, &convert).instructions(),
        &vec![CalculatorInstruction::Push(CalculatorValue::Num(MINUS_ONE)), push_x()]
    );
}

#[test]
fn evaluates_arithmetic() {
    assert_eq!(at("1 + 2 * 3", 0.0), Some(7.0));
    assert_eq!(at("(1 + 2) * 3", 0.0), Some(9.0));
    assert_eq!(at("10 - 4 - 3", 0.0), Some(3.0));
    assert_eq!(at("8 / 4 / 2", 0.0), Some(1.0));
    assert_eq!(at("2 ^ 3 ^ 2", 0.0), Some(512.0));
    assert_eq!(at("x * x + 1", 3.0), Some(10.0));
    assert_eq!(at("0.5 * x", 3.0), Some(1.5));
}

#[test]
fn evaluates_every_function() {
    assert_eq!(at("sin(x)", 0.5), Some(0.5f64.sin()));
    assert_eq!(at("cos(x)", 0.5), Some(0.5f64.cos()));
    assert_eq!(at("tan(x)", 0.5), Some(0.5f64.tan()));
    assert_eq!(at("log(x)", 0.5), Some(0.5f64.log10()));
    assert_eq!(at("ln(x)", 0.5), Some(0.5f64.ln()));
    assert_eq!(at("sqrt(x)", 0.5), Some(0.5f64.sqrt()));
    assert_eq!(at("abs(x)", -0.5), Some(0.5));
    assert_eq!(at("abs(x)", 0.5), Some(0.5));
}

#[test]
fn evaluates_the_example() {
    let expected = 2.0 * 1.0f64.sin() / std::f64::consts::E;
    assert_eq!(at("2*sin(x)/e", 1.0), Some(expected));
}

#[test]
fn evaluation_is_repeatable() {
    let mut calculator = compiled("2*sin(x)/e + x^0.5", 0.0009765625);
    for x in [-2.0, -0.5, 0.0, 0.25, 1.0, 7.5] {
        let first = calculator.calculate(f64::to_bits(x), &unit);
        let second = calculator.calculate(f64::to_bits(x), &unit);
        let mut fresh = compiled("2*sin(x)/e + x^0.5", 0.0009765625);
        let third = fresh.calculate(f64::to_bits(x), &unit);
        assert_eq!(first, second);
        assert_eq!(first, third);
    }
}

#[test]
fn evaluation_forgets_an_abandoned_run() {
    let mut calculator = compiled("x + 1 / x", 0.0);
    assert_eq!(value(&mut calculator, 0.0), None);
    assert_eq!(value(&mut calculator, 2.0), Some(2.5));
    assert_eq!(value(&mut calculator, 0.0), None);
    assert_eq!(value(&mut calculator, 4.0), Some(4.25));
}

#[test]
fn division_by_zero_is_undefined() {
    assert_eq!(at("1/x", 0.0), None);
    assert_eq!(at("1/x", -0.0), None);
    assert_eq!(value(&mut compiled("1/x", 0.5), 0.0), None);
    assert_eq!(value(&mut compiled("1/x", f64::INFINITY), 0.0), None);
    assert_eq!(at("1/x", 4.0), Some(0.25));
}

#[test]
fn division_near_zero_is_undefined() {
    let mut calculator = compiled("1/x", 0.0009765625);
    assert_eq!(value(&mut calculator, 0.0009765625), None);
    assert_eq!(value(&mut calculator, -0.0009765625), None);
    assert_eq!(value(&mut calculator, 0.0005), None);
    assert_eq!(value(&mut calculator, 0.001953125), Some(512.0));
    assert_eq!(value(&mut calculator, -0.001953125), Some(-512.0));
}

#[test]
fn division_stops_the_evaluation() {
    assert_eq!(at("1/x + 1", 0.0), None);
    assert_eq!(at("0 * (1/x)", 0.0), None);
}

#[test]
fn square_root_of_a_negative_is_undefined() {
    assert_eq!(at("sqrt(x)", -1.0), None);
    assert_eq!(at("sqrt(x)", -1e-300), None);
    assert_eq!(at("sqrt(x)", 0.0), Some(0.0));
    assert_eq!(at("sqrt(x)", -0.0), Some(-0.0));
    assert_eq!(at("sqrt(x)", 4.0), Some(2.0));
}

#[test]
fn logarithm_of_zero_is_undefined() {
    assert_eq!(at("log(x)", 0.0), None);
    assert_eq!(at("ln(x)", 0.0), None);
    assert!(close(at("log(x)", 10.0), 1.0));
    assert_eq!(at("log(x)", 100.0), Some(2.0));
    assert!(close(at("ln(x)", std::f64::consts::E), 1.0));
}

#[test]
fn logarithm_of_a_negative_is_undefined() {
    assert_eq!(at("log(x)", -1.0), None);
    assert_eq!(at("ln(x)", -1.0), None);
    assert_eq!(at("log(x)", -0.0), None);
    assert_eq!(at("ln(x)", -0.0), None);
    assert_eq!(at("log(x)", -1e-300), None);
    assert_eq!(at("ln(x)", f64::NEG_INFINITY), None);
    assert_eq!(at("log(x)", 5e-324), Some(5e-324f64.log10()));
    assert_eq!(at("ln(x)", 5e-324), Some(5e-324f64.ln()));
    assert_eq!(at("1 + log(x)", -1.0), None);
}

#[test]
fn logarithm_of_what_is_not_a_number_is_not_a_number() {
    assert!(at("log(x)", f64::NAN).unwrap().is_nan());
    assert!(at("ln(x)", f64::NAN).unwrap().is_nan());
}

#[test]
fn tangent_at_a_pole_is_undefined() {
    let mut calculator = compiled("tan(x)", 0.0009765625);
    assert_eq!(value(&mut calculator, std::f64::consts::FRAC_PI_2), None);
    assert_eq!(value(&mut calculator, -std::f64::consts::FRAC_PI_2), None);
    assert_eq!(value(&mut calculator, std::f64::consts::FRAC_PI_2 + 0.0005), None);
    assert_eq!(value(&mut calculator, 1.0), Some(1.0f64.tan()));
    assert_eq!(at("tan(x)", 0.0), Some(0.0));
}

#[test]
fn power_that_is_not_a_number_is_undefined() {
    assert_eq!(at("(0-8)^0.5", 0.0), None);
    assert_eq!(at("x^0.5", -4.0), None);
    assert_eq!(at("x^2", -4.0), Some(16.0));
    assert_eq!(at("x^0.5", 4.0), Some(2.0));
}

#[test]
fn unknown_function_drops_its_argument() {
    let call = ASTNodeType::FunctionExpression(
        TokenType::FunctionName(String::from("frobnicate")),
        Box::new(x_atom()),
    );
    let mut calculator = generate_calculator(call, 0, &convert);
    assert_eq!(calculator.instructions(), &vec![push_x(), apply("frobnicate")]);
    assert_eq!(value(&mut calculator, 2.0), None);

    let sum = ASTNodeType::BinaryExpression(
        TokenType::Add,
        Box::new(atom(TokenType::NumLiteral(String::from("1")))),
        Box::new(ASTNodeType::FunctionExpression(
            TokenType::FunctionName(String::from("frobnicate")),
            Box::new(x_atom()),
        )),
    );
    let mut calculator = generate_calculator(sum, 0, &convert);
    assert_eq!(value(&mut calculator, 2.0), None);
}

#[test]
fn a_program_that_leaves_nothing_has_no_value() {
    let unknown = atom(TokenType::Constant(String::from("tau")));
    let mut calculator = generate_calculator(unknown, 0, &convert);
    assert_eq!(value(&mut calculator, 1.0), None);
}

#[test]
fn a_program_that_leaves_more_gives_the_top() {
    let plus = ASTNodeType::UnaryExpression(TokenType::Add, Box::new(x_atom()));
    let mut calculator = generate_calculator(plus, 0, &convert);
    assert_eq!(value(&mut calculator, 7.0), Some(7.0));
}
