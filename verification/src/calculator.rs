//! The compiler and the stack machine.
//!
//! What rounds is asked of the caller's arithmetic unit, and what a numeral
//! denotes of the caller's reader. Each contract here says two things. First,
//! what holds whatever these two answer (`may_be_code`, `may_evaluate`): which
//! requests are made and what is done with the answers. An evaluation that
//! stops for want of operands, or at a divisor near zero, a square root
//! below zero or a logarithm at or below zero, asks nothing and is decided
//! here. Second, for a unit and a reader that compute functions, what the
//! result is (`compile`, `evaluate`).
use vstd::prelude::*;
use crate::binary64::{
    abs, at_most, below, is_nan, le, lt, magnitude, nan, E, MINUS_ONE, NEG_INFINITY, PI, ZERO,
};
use crate::parser::{proper, ASTNodeType, Expr};
use crate::scanner::{lemma_vocabulary, same_text, Token, TokenType};

verus! {

/// What the evaluator asks of its arithmetic unit. Each request carries two
/// operands; the one-operand requests ignore the second.
#[derive(Debug, PartialEq, Eq, Clone, Copy)]
pub enum Operation {
    /// `a + b`
    Add,
    /// `a - b`
    Sub,
    /// `a * b`
    Mul,
    /// `a / b`
    Div,
    /// `a` raised to the power `b`
    Pow,
    /// sine of `a`
    Sin,
    /// cosine of `a`
    Cos,
    /// tangent of `a`
    Tan,
    /// logarithm of `a` to base 10
    Log10,
    /// natural logarithm of `a`
    Ln,
    /// square root of `a`
    Sqrt,
    /// the double nearest to the integer whose two's-complement pattern is `a`
    FromInt,
}

/// An arithmetic unit as a function: operation and operand patterns to the
/// pattern of the result.
pub type Arithmetic = spec_fn(Operation, u64, u64) -> u64;

/// The unit accepts every request.
pub open spec fn total<F: Fn(Operation, u64, u64) -> u64>(unit: &F) -> bool {
    forall|o: Operation, a: u64, b: u64| call_requires(unit, (o, a, b))
}

/// Whatever the unit returns is what `f` gives for the same request.
pub open spec fn computes<F: Fn(Operation, u64, u64) -> u64>(unit: &F, f: Arithmetic) -> bool {
    forall|o: Operation, a: u64, b: u64, r: u64| #[trigger]
        call_ensures(unit, (o, a, b), r) ==> r == f(o, a, b)
}

/// What a push instruction pushes.
#[derive(Debug, PartialEq)]
pub enum CalculatorValue {
    Variable(TokenType),
    Num(u64),
}

/// One instruction of the stack machine.
#[derive(Debug, PartialEq)]
pub enum CalculatorInstruction {
    Push(CalculatorValue),
    Add,
    Sub,
    Mul,
    Div,
    Exp,
    ApplyFunc(TokenType),
}

/// A pushed value, as mathematics.
pub enum Value {
    Variable(Token),
    Num(u64),
}

/// An instruction, as mathematics.
pub enum Instruction {
    Push(Value),
    Add,
    Sub,
    Mul,
    Div,
    Exp,
    ApplyFunc(Token),
}

impl View for CalculatorValue {
    type V = Value;

    open spec fn view(&self) -> Value {
        match self {
            CalculatorValue::Variable(t) => Value::Variable(t@),
            CalculatorValue::Num(n) => Value::Num(*n),
        }
    }
}

impl View for CalculatorInstruction {
    type V = Instruction;

    open spec fn view(&self) -> Instruction {
        match self {
            CalculatorInstruction::Push(v) => Instruction::Push(v@),
            CalculatorInstruction::Add => Instruction::Add,
            CalculatorInstruction::Sub => Instruction::Sub,
            CalculatorInstruction::Mul => Instruction::Mul,
            CalculatorInstruction::Div => Instruction::Div,
            CalculatorInstruction::Exp => Instruction::Exp,
            CalculatorInstruction::ApplyFunc(t) => Instruction::ApplyFunc(t@),
        }
    }
}

/// The instructions of a vector, as mathematics.
pub open spec fn program_view(instructions: Seq<CalculatorInstruction>) -> Seq<Instruction> {
    instructions.map_values(|i: CalculatorInstruction| i@)
}

/// Whether `name` is one of the seven functions that the machine computes.
pub open spec fn known_function(name: Seq<char>) -> bool {
    ||| name == seq!['s', 'i', 'n']
    ||| name == seq!['c', 'o', 's']
    ||| name == seq!['t', 'a', 'n']
    ||| name == seq!['l', 'o', 'g']
    ||| name == seq!['l', 'n']
    ||| name == seq!['s', 'q', 'r', 't']
    ||| name == seq!['a', 'b', 's']
}

/// The value of the function `name` at `arg`. `None` where the function is
/// undefined there: the tangent where the cosine is within `delta` of zero,
/// a logarithm of a number that is zero or less (or one that comes out as
/// negative infinity all the same), the square root of a number below zero.
/// (And `None` for a name that is none of the seven.)
pub open spec fn function_value(name: Seq<char>, arg: u64, delta: u64, f: Arithmetic) -> Option<u64> {
    if name == seq!['s', 'i', 'n'] {
        Some(f(Operation::Sin, arg, ZERO))
    } else if name == seq!['c', 'o', 's'] {
        Some(f(Operation::Cos, arg, ZERO))
    } else if name == seq!['t', 'a', 'n'] {
        if at_most(magnitude(f(Operation::Cos, arg, ZERO)), delta) {
            None
        } else {
            Some(f(Operation::Tan, arg, ZERO))
        }
    } else if name == seq!['l', 'o', 'g'] {
        if at_most(arg, ZERO) || f(Operation::Log10, arg, ZERO) == NEG_INFINITY {
            None
        } else {
            Some(f(Operation::Log10, arg, ZERO))
        }
    } else if name == seq!['l', 'n'] {
        if at_most(arg, ZERO) || f(Operation::Ln, arg, ZERO) == NEG_INFINITY {
            None
        } else {
            Some(f(Operation::Ln, arg, ZERO))
        }
    } else if name == seq!['s', 'q', 'r', 't'] {
        if below(arg, ZERO) {
            None
        } else {
            Some(f(Operation::Sqrt, arg, ZERO))
        }
    } else if name == seq!['a', 'b', 's'] {
        Some(magnitude(arg))
    } else {
        None
    }
}

/// The value of a two-operand instruction at `a` and `b`. `None` where it is
/// undefined there: a quotient whose divisor is within `delta` of zero, a
/// power that is a NaN. (And `None` for any other instruction.)
pub open spec fn binary_value(instruction: Instruction, a: u64, b: u64, delta: u64, f: Arithmetic) -> Option<
    u64,
> {
    match instruction {
        Instruction::Add => Some(f(Operation::Add, a, b)),
        Instruction::Sub => Some(f(Operation::Sub, a, b)),
        Instruction::Mul => Some(f(Operation::Mul, a, b)),
        Instruction::Div => if at_most(magnitude(b), delta) {
            None
        } else {
            Some(f(Operation::Div, a, b))
        },
        Instruction::Exp => if nan(f(Operation::Pow, a, b)) {
            None
        } else {
            Some(f(Operation::Pow, a, b))
        },
        _ => None,
    }
}

/// `rest` with `value` on top, where there is a value.
pub open spec fn pushed(rest: Seq<u64>, value: Option<u64>) -> Option<Seq<u64>> {
    match value {
        Some(v) => Some(rest.push(v)),
        None => None,
    }
}

/// The stack after one instruction, or `None` where evaluation stops without
/// a value: the instruction finds too few operands, or what it computes is
/// undefined at them. A function whose name is none of the seven takes its
/// argument off the stack and puts nothing in its place.
pub open spec fn step(instruction: Instruction, stack: Seq<u64>, x: u64, delta: u64, f: Arithmetic) -> Option<
    Seq<u64>,
> {
    let n = stack.len() as int;
    match instruction {
        Instruction::Push(Value::Num(v)) => Some(stack.push(v)),
        Instruction::Push(Value::Variable(_)) => Some(stack.push(x)),
        Instruction::ApplyFunc(token) => if n < 1 {
            None
        } else {
            match token {
                Token::FunctionName(name) => if known_function(name) {
                    pushed(stack.take(n - 1), function_value(name, stack[n - 1], delta, f))
                } else {
                    Some(stack.take(n - 1))
                },
                _ => Some(stack.take(n - 1)),
            }
        },
        _ => if n < 2 {
            None
        } else {
            pushed(
                stack.take(n - 2),
                binary_value(instruction, stack[n - 2], stack[n - 1], delta, f),
            )
        },
    }
}

/// `r` is an answer that the unit may give to the request.
pub open spec fn answers<F: Fn(Operation, u64, u64) -> u64>(
    unit: &F,
    o: Operation,
    a: u64,
    b: u64,
    r: u64,
) -> bool {
    call_ensures(unit, (o, a, b), r)
}

/// `value` is what the function `name` may give at `arg`, whatever the unit
/// answers: `function_value`, with the unit's answers in the place of a
/// function's. Where `function_value` asks nothing, neither does this: the
/// absolute value, a logarithm at zero or less, a square root below zero.
pub open spec fn may_be_function_value<F: Fn(Operation, u64, u64) -> u64>(
    unit: &F,
    name: Seq<char>,
    arg: u64,
    delta: u64,
    value: Option<u64>,
) -> bool {
    if name == seq!['s', 'i', 'n'] {
        value is Some && answers(unit, Operation::Sin, arg, ZERO, value->0)
    } else if name == seq!['c', 'o', 's'] {
        value is Some && answers(unit, Operation::Cos, arg, ZERO, value->0)
    } else if name == seq!['t', 'a', 'n'] {
        exists|cosine: u64| #[trigger]
            answers(unit, Operation::Cos, arg, ZERO, cosine) && if at_most(
                magnitude(cosine),
                delta,
            ) {
                value is None
            } else {
                value is Some && answers(unit, Operation::Tan, arg, ZERO, value->0)
            }
    } else if name == seq!['l', 'o', 'g'] {
        if at_most(arg, ZERO) {
            value is None
        } else {
            exists|v: u64| #[trigger]
                answers(unit, Operation::Log10, arg, ZERO, v) && value == if v == NEG_INFINITY {
                    None
                } else {
                    Some(v)
                }
        }
    } else if name == seq!['l', 'n'] {
        if at_most(arg, ZERO) {
            value is None
        } else {
            exists|v: u64| #[trigger]
                answers(unit, Operation::Ln, arg, ZERO, v) && value == if v == NEG_INFINITY {
                    None
                } else {
                    Some(v)
                }
        }
    } else if name == seq!['s', 'q', 'r', 't'] {
        if below(arg, ZERO) {
            value is None
        } else {
            value is Some && answers(unit, Operation::Sqrt, arg, ZERO, value->0)
        }
    } else if name == seq!['a', 'b', 's'] {
        value == Some(magnitude(arg))
    } else {
        false
    }
}

/// `value` is what a two-operand instruction may give at `a` and `b`,
/// whatever the unit answers: `binary_value`, with the unit's answers in the
/// place of a function's. A divisor within `delta` of zero asks nothing.
pub open spec fn may_be_binary_value<F: Fn(Operation, u64, u64) -> u64>(
    unit: &F,
    instruction: Instruction,
    a: u64,
    b: u64,
    delta: u64,
    value: Option<u64>,
) -> bool {
    match instruction {
        Instruction::Add => value is Some && answers(unit, Operation::Add, a, b, value->0),
        Instruction::Sub => value is Some && answers(unit, Operation::Sub, a, b, value->0),
        Instruction::Mul => value is Some && answers(unit, Operation::Mul, a, b, value->0),
        Instruction::Div => if at_most(magnitude(b), delta) {
            value is None
        } else {
            value is Some && answers(unit, Operation::Div, a, b, value->0)
        },
        Instruction::Exp => exists|v: u64| #[trigger]
            answers(unit, Operation::Pow, a, b, v) && value == if nan(v) {
                None
            } else {
                Some(v)
            },
        _ => false,
    }
}

/// `next` is what one instruction may make of the stack, whatever the unit
/// answers: `step`, with the unit's answers in the place of a function's.
pub open spec fn may_step<F: Fn(Operation, u64, u64) -> u64>(
    unit: &F,
    instruction: Instruction,
    stack: Seq<u64>,
    x: u64,
    delta: u64,
    next: Option<Seq<u64>>,
) -> bool {
    let n = stack.len() as int;
    match instruction {
        Instruction::Push(Value::Num(v)) => next == Some(stack.push(v)),
        Instruction::Push(Value::Variable(_)) => next == Some(stack.push(x)),
        Instruction::ApplyFunc(token) => if n < 1 {
            next is None
        } else {
            match token {
                Token::FunctionName(name) => if known_function(name) {
                    exists|value: Option<u64>| #[trigger]
                        may_be_function_value(unit, name, stack[n - 1], delta, value) && next
                            == pushed(stack.take(n - 1), value)
                } else {
                    next == Some(stack.take(n - 1))
                },
                _ => next == Some(stack.take(n - 1)),
            }
        },
        _ => if n < 2 {
            next is None
        } else {
            exists|value: Option<u64>| #[trigger]
                may_be_binary_value(unit, instruction, stack[n - 2], stack[n - 1], delta, value)
                    && next == pushed(stack.take(n - 2), value)
        },
    }
}

/// `result` is what a run of `program` from `stack` may give, whatever the
/// unit answers: `run`, with the unit's answers in the place of a function's.
pub open spec fn may_run<F: Fn(Operation, u64, u64) -> u64>(
    unit: &F,
    program: Seq<Instruction>,
    stack: Seq<u64>,
    x: u64,
    delta: u64,
    result: Option<u64>,
) -> bool
    decreases program.len(),
{
    if program.len() == 0 {
        result == if stack.len() > 0 {
            Some(stack.last())
        } else {
            None
        }
    } else {
        exists|next: Option<Seq<u64>>| #[trigger]
            may_step(unit, program[0], stack, x, delta, next) && match next {
                Some(after) => may_run(unit, program.drop_first(), after, x, delta, result),
                None => result is None,
            }
    }
}

/// `result` is what evaluating `program` at `x` may give, whatever the unit
/// answers: a run from the empty stack.
pub open spec fn may_evaluate<F: Fn(Operation, u64, u64) -> u64>(
    unit: &F,
    program: Seq<Instruction>,
    x: u64,
    delta: u64,
    result: Option<u64>,
) -> bool {
    may_run(unit, program, Seq::empty(), x, delta, result)
}

/// The value of running `program` from `stack`: what lies on top when the
/// last instruction is done, or `None` where an instruction stopped the run
/// or the stack ends empty.
pub open spec fn run(program: Seq<Instruction>, stack: Seq<u64>, x: u64, delta: u64, f: Arithmetic) -> Option<
    u64,
>
    decreases program.len(),
{
    if program.len() == 0 {
        if stack.len() > 0 {
            Some(stack.last())
        } else {
            None
        }
    } else {
        match step(program[0], stack, x, delta, f) {
            Some(next) => run(program.drop_first(), next, x, delta, f),
            None => None,
        }
    }
}

/// The value of `program` at `x`: a run from the empty stack.
pub open spec fn evaluate(program: Seq<Instruction>, x: u64, delta: u64, f: Arithmetic) -> Option<u64> {
    run(program, Seq::empty(), x, delta, f)
}

/// A compiled formula: its instructions, the threshold below which a divisor
/// or a cosine counts as zero, and the operand stack that evaluations reuse.
pub struct Calculator {
    instructions: Vec<CalculatorInstruction>,
    stack: Vec<u64>,
    delta: u64,
}

/// Calls the function `name` on `arg`, pushing what it gives. Returns false
/// where the function is undefined at `arg`.
fn apply_function<F: Fn(Operation, u64, u64) -> u64>(
    name: &String,
    arg: u64,
    stack: &mut Vec<u64>,
    delta: u64,
    unit: &F,
) -> (defined: bool)
    requires
        total(unit),
    ensures
        if known_function(name@) {
            exists|value: Option<u64>| #[trigger]
                may_be_function_value(unit, name@, arg, delta, value) && match value {
                    Some(v) => defined && final(stack)@ == old(stack)@.push(v),
                    None => !defined,
                }
        } else {
            defined && final(stack)@ == old(stack)@
        },
{
    proof {
        reveal_strlit("sin");
        reveal_strlit("cos");
        reveal_strlit("tan");
        reveal_strlit("log");
        reveal_strlit("ln");
        reveal_strlit("sqrt");
        reveal_strlit("abs");
        assert("sin"@ =~= seq!['s', 'i', 'n']);
        assert("cos"@ =~= seq!['c', 'o', 's']);
        assert("tan"@ =~= seq!['t', 'a', 'n']);
        assert("log"@ =~= seq!['l', 'o', 'g']);
        assert("ln"@ =~= seq!['l', 'n']);
        assert("sqrt"@ =~= seq!['s', 'q', 'r', 't']);
        assert("abs"@ =~= seq!['a', 'b', 's']);
    }
    let value: Option<u64> = if same_text(name, "sin") {
        Some(unit(Operation::Sin, arg, ZERO))
    } else if same_text(name, "cos") {
        Some(unit(Operation::Cos, arg, ZERO))
    } else if same_text(name, "tan") {
        let cosine = unit(Operation::Cos, arg, ZERO);
        assert(answers(unit, Operation::Cos, arg, ZERO, cosine));
        if le(abs(cosine), delta) {
            None
        } else {
            Some(unit(Operation::Tan, arg, ZERO))
        }
    } else if same_text(name, "log") {
        if le(arg, ZERO) {
            None
        } else {
            let val = unit(Operation::Log10, arg, ZERO);
            assert(answers(unit, Operation::Log10, arg, ZERO, val));
            if val == NEG_INFINITY {
                None
            } else {
                Some(val)
            }
        }
    } else if same_text(name, "ln") {
        if le(arg, ZERO) {
            None
        } else {
            let val = unit(Operation::Ln, arg, ZERO);
            assert(answers(unit, Operation::Ln, arg, ZERO, val));
            if val == NEG_INFINITY {
                None
            } else {
                Some(val)
            }
        }
    } else if same_text(name, "sqrt") {
        if lt(arg, ZERO) {
            None
        } else {
            Some(unit(Operation::Sqrt, arg, ZERO))
        }
    } else if same_text(name, "abs") {
        Some(abs(arg))
    } else {
        return true;
    };
    assert(may_be_function_value(unit, name@, arg, delta, value));
    match value {
        Some(v) => {
            stack.push(v);
            true
        },
        None => false,
    }
}

/// Applies a two-operand instruction to `left` and `right`. Returns `None`
/// where what it computes is undefined there.
fn apply_operator<F: Fn(Operation, u64, u64) -> u64>(
    instruction: &CalculatorInstruction,
    left: u64,
    right: u64,
    delta: u64,
    unit: &F,
) -> (value: Option<u64>)
    requires
        total(unit),
        !(instruction@ is Push),
        !(instruction@ is ApplyFunc),
    ensures
        may_be_binary_value(unit, instruction@, left, right, delta, value),
{
    match instruction {
        CalculatorInstruction::Add => Some(unit(Operation::Add, left, right)),
        CalculatorInstruction::Sub => Some(unit(Operation::Sub, left, right)),
        CalculatorInstruction::Mul => Some(unit(Operation::Mul, left, right)),
        CalculatorInstruction::Div => {
            //no quotient where the divisor is zero, or as good as zero
            if le(abs(right), delta) {
                None
            } else {
                Some(unit(Operation::Div, left, right))
            }
        },
        _ => {
            let val = unit(Operation::Pow, left, right);
            assert(answers(unit, Operation::Pow, left, right, val));
            if is_nan(val) {
                None
            } else {
                Some(val)
            }
        },
    }
}

/// Performs one instruction on `stack`. Returns false where evaluation stops
/// without a value.
fn perform<F: Fn(Operation, u64, u64) -> u64>(
    instruction: &CalculatorInstruction,
    stack: &mut Vec<u64>,
    x: u64,
    delta: u64,
    unit: &F,
) -> (defined: bool)
    requires
        total(unit),
    ensures
        may_step(
            unit,
            instruction@,
            old(stack)@,
            x,
            delta,
            if defined {
                Some(final(stack)@)
            } else {
                None
            },
        ),
{
    let ghost before = stack@;
    match instruction {
        CalculatorInstruction::Push(val) => {
            match val {
                CalculatorValue::Num(num) => stack.push(*num),
                CalculatorValue::Variable(_) => stack.push(x),
            }
            true
        },
        CalculatorInstruction::ApplyFunc(function) => {
            match stack.pop() {
                None => false,
                Some(arg) => {
                    assert(stack@ =~= before.take(before.len() - 1));
                    match function {
                        TokenType::FunctionName(function_name) => apply_function(
                            function_name,
                            arg,
                            stack,
                            delta,
                            unit,
                        ),
                        _ => true,
                    }
                },
            }
        },
        _ => {
            if stack.len() < 2 {
                return false;
            }
            let right = stack.pop().unwrap();
            let left = stack.pop().unwrap();
            assert(stack@ =~= before.take(before.len() - 2));
            match apply_operator(instruction, left, right, delta, unit) {
                Some(value) => {
                    stack.push(value);
                    true
                },
                None => false,
            }
        },
    }
}

impl Calculator {
    /// The instructions, as mathematics.
    pub closed spec fn program(&self) -> Seq<Instruction> {
        program_view(self.instructions@)
    }

    /// The threshold below which a divisor or a cosine counts as zero.
    pub closed spec fn threshold(&self) -> u64 {
        self.delta
    }

    fn new(v: Vec<CalculatorInstruction>, delta: u64) -> (calculator: Calculator)
        ensures
            calculator.program() == program_view(v@),
            calculator.threshold() == delta,
    {
        Calculator { instructions: v, stack: Vec::new(), delta }
    }

    /// The compiled instructions.
    pub fn instructions(&self) -> (v: &Vec<CalculatorInstruction>)
        ensures
            program_view(v@) == self.program(),
    {
        &self.instructions
    }

    /// The threshold that this formula was compiled with.
    pub fn delta(&self) -> (delta: u64)
        ensures
            delta == self.threshold(),
    {
        self.delta
    }

    /// The value of the formula at `x`, or `None` where it is undefined there.
    ///
    /// The result is that of a run of the instructions from an empty stack,
    /// whatever earlier evaluations left behind. Whatever the unit answers,
    /// it is a result of such a run with the unit's answers
    /// (`may_evaluate`); with a unit that computes `f`, it is
    /// `evaluate(program, x, threshold, f)` and nothing else. The formula
    /// itself is unchanged.
    pub fn calculate<F: Fn(Operation, u64, u64) -> u64>(&mut self, x: u64, unit: &F) -> (result:
        Option<u64>)
        requires
            total(unit),
        ensures
            final(self).program() == old(self).program(),
            final(self).threshold() == old(self).threshold(),
            may_evaluate(unit, old(self).program(), x, old(self).threshold(), result),
            forall|f: Arithmetic| #[trigger]
                computes(unit, f) ==> result == evaluate(
                    old(self).program(),
                    x,
                    old(self).threshold(),
                    f,
                ),
    {
        self.stack.clear();
        let ghost program = self.program();
        let delta = self.delta;
        let mut i: usize = 0;
        assert(program.skip(0) =~= program);
        while i < self.instructions.len()
            invariant
                total(unit),
                i <= self.instructions.len(),
                self.program() == program,
                self.delta == delta,
                program == old(self).program(),
                delta == old(self).threshold(),
                program.len() == self.instructions.len(),
                forall|r: Option<u64>| #[trigger]
                    may_run(unit, program.skip(i as int), self.stack@, x, delta, r)
                        ==> may_evaluate(unit, program, x, delta, r),
            decreases self.instructions.len() - i,
        {
            let ghost rest = program.skip(i as int);
            let ghost before = self.stack@;
            assert(rest[0] == self.instructions[i as int]@);
            assert(rest.drop_first() =~= program.skip(i as int + 1));
            let defined = perform(&self.instructions[i], &mut self.stack, x, delta, unit);
            if !defined {
                proof {
                    assert(may_step(unit, rest[0], before, x, delta, None));
                    assert(may_run(unit, rest, before, x, delta, None));
                    lemma_evaluation_is_one(unit, program, x, delta, None);
                }
                return None;
            }
            proof {
                let after = self.stack@;
                assert(may_step(unit, rest[0], before, x, delta, Some(after)));
                assert forall|r: Option<u64>| #[trigger]
                    may_run(unit, program.skip(i as int + 1), after, x, delta, r) implies may_evaluate(
                    unit,
                    program,
                    x,
                    delta,
                    r,
                ) by {
                    assert(may_run(unit, rest, before, x, delta, r));
                }
            }
            i = i + 1;
        }
        assert(program.skip(i as int).len() == 0);
        let ghost last = self.stack@;
        let result = self.stack.pop();
        proof {
            assert(may_run(unit, program.skip(i as int), last, x, delta, result));
            lemma_evaluation_is_one(unit, program, x, delta, result);
        }
        result
    }
}

/// A reader of numerals as a function: the spelling of a number literal to
/// the pattern of the double that it denotes.
pub type Numerals = spec_fn(Seq<char>) -> u64;

/// The reader accepts every spelling.
pub open spec fn reads_all<L: Fn(String) -> u64>(convert: &L) -> bool {
    forall|s: String| call_requires(convert, (s,))
}

/// Whatever the reader returns is what `g` gives for the same spelling.
pub open spec fn reads<L: Fn(String) -> u64>(convert: &L, g: Numerals) -> bool {
    forall|s: String, r: u64| #[trigger] call_ensures(convert, (s,), r) ==> r == g(s@)
}

/// The instruction of a binary operator, if the token is one.
pub open spec fn operator_code(operator: Token) -> Seq<Instruction> {
    match operator {
        Token::Add => seq![Instruction::Add],
        Token::Sub => seq![Instruction::Sub],
        Token::Mul => seq![Instruction::Mul],
        Token::Div => seq![Instruction::Div],
        Token::Exp => seq![Instruction::Exp],
        _ => Seq::empty(),
    }
}

/// The instruction that pushes an atom that is no number, if the token is
/// the variable or one of the constants `pi` and `e`.
pub open spec fn name_code(token: Token) -> Seq<Instruction> {
    match token {
        Token::Variable(_) => seq![Instruction::Push(Value::Variable(token))],
        Token::Constant(name) => if name == seq!['p', 'i'] {
            seq![Instruction::Push(Value::Num(PI))]
        } else if name == seq!['e'] {
            seq![Instruction::Push(Value::Num(E))]
        } else {
            Seq::empty()
        },
        _ => Seq::empty(),
    }
}

/// The instruction that pushes an atom, if the token is a number, the
/// variable, or one of the constants `pi` and `e`.
pub open spec fn atom_code(token: Token, g: Numerals) -> Seq<Instruction> {
    match token {
        Token::NumLiteral(spelling) => seq![Instruction::Push(Value::Num(g(spelling)))],
        _ => name_code(token),
    }
}

/// The postfix code of a tree: operands before their operator, an argument
/// before its function, and `-1` before a negated operand, followed by a
/// multiplication.
pub open spec fn compile(expression: Expr, g: Numerals) -> Seq<Instruction>
    decreases expression,
{
    match expression {
        Expr::Binary(operator, left, right) => binary_code(
            compile(*left, g),
            compile(*right, g),
            operator,
        ),
        Expr::Unary(operator, operand) => unary_code(compile(*operand, g), operator),
        Expr::Function(name, argument) => call_code(compile(*argument, g), name),
        Expr::Atomic(token) => atom_code(token, g),
    }
}

/// `value` is an answer that the reader may give for the spelling.
pub open spec fn reads_as<L: Fn(String) -> u64>(convert: &L, spelling: Seq<char>, value: u64) -> bool {
    exists|text: String| #[trigger] call_ensures(convert, (text,), value) && text@ == spelling
}

/// The code of a binary node: the operands' code, then the operator.
pub open spec fn binary_code(
    left_code: Seq<Instruction>,
    right_code: Seq<Instruction>,
    operator: Token,
) -> Seq<Instruction> {
    left_code + right_code + operator_code(operator)
}

/// The code of a negation: `-1`, the operand's code, then a multiplication.
pub open spec fn unary_code(operand_code: Seq<Instruction>, operator: Token) -> Seq<Instruction> {
    seq![Instruction::Push(Value::Num(MINUS_ONE))] + operand_code + (if operator == Token::Sub {
        seq![Instruction::Mul]
    } else {
        Seq::empty()
    })
}

/// The code of a function call: the argument's code, then the call.
pub open spec fn call_code(argument_code: Seq<Instruction>, name: Token) -> Seq<Instruction> {
    argument_code.push(Instruction::ApplyFunc(name))
}

/// `code` is what compiling a tree may give, whatever the reader answers:
/// `compile`, with the reader's answers in the place of a function's. Only
/// the number literals ask the reader; everything else is as `compile` has it.
pub open spec fn may_be_code<L: Fn(String) -> u64>(
    convert: &L,
    expression: Expr,
    code: Seq<Instruction>,
) -> bool
    decreases expression,
{
    match expression {
        Expr::Binary(operator, left, right) => exists|
            left_code: Seq<Instruction>,
            right_code: Seq<Instruction>,
        |
            code == #[trigger] binary_code(left_code, right_code, operator) && may_be_code(
                convert,
                *left,
                left_code,
            ) && may_be_code(convert, *right, right_code),
        Expr::Unary(operator, operand) => exists|operand_code: Seq<Instruction>|
            code == #[trigger] unary_code(operand_code, operator) && may_be_code(
                convert,
                *operand,
                operand_code,
            ),
        Expr::Function(name, argument) => exists|argument_code: Seq<Instruction>|
            code == #[trigger] call_code(argument_code, name) && may_be_code(
                convert,
                *argument,
                argument_code,
            ),
        Expr::Atomic(token) => match token {
            Token::NumLiteral(spelling) => exists|value: u64| #[trigger]
                reads_as(convert, spelling, value) && code == seq![
                    Instruction::Push(Value::Num(value)),
                ],
            _ => code == name_code(token),
        },
    }
}

/// With a reader that computes `g`, what compiling may give is what
/// `compile` says for `g`.
pub proof fn lemma_may_be_code_is_compile<L: Fn(String) -> u64>(
    convert: &L,
    g: Numerals,
    expression: Expr,
    code: Seq<Instruction>,
)
    requires
        reads(convert, g),
        may_be_code(convert, expression, code),
    ensures
        code == compile(expression, g),
    decreases expression,
{
    match expression {
        Expr::Binary(operator, left, right) => {
            let (left_code, right_code) = choose|
                left_code: Seq<Instruction>,
                right_code: Seq<Instruction>,
            |
                code == #[trigger] binary_code(left_code, right_code, operator) && may_be_code(
                    convert,
                    *left,
                    left_code,
                ) && may_be_code(convert, *right, right_code);
            lemma_may_be_code_is_compile(convert, g, *left, left_code);
            lemma_may_be_code_is_compile(convert, g, *right, right_code);
        },
        Expr::Unary(operator, operand) => {
            let operand_code = choose|operand_code: Seq<Instruction>|
                code == #[trigger] unary_code(operand_code, operator) && may_be_code(
                    convert,
                    *operand,
                    operand_code,
                );
            lemma_may_be_code_is_compile(convert, g, *operand, operand_code);
        },
        Expr::Function(name, argument) => {
            let argument_code = choose|argument_code: Seq<Instruction>|
                code == #[trigger] call_code(argument_code, name) && may_be_code(
                    convert,
                    *argument,
                    argument_code,
                );
            lemma_may_be_code_is_compile(convert, g, *argument, argument_code);
        },
        Expr::Atomic(token) => {},
    }
}

/// The value of a proper tree at `x`, computed on the tree itself: the value
/// of an operator or a function at the values of its operands, `None` as
/// soon as one of them has none.
pub open spec fn value(expression: Expr, x: u64, delta: u64, g: Numerals, f: Arithmetic) -> Option<
    u64,
>
    decreases expression,
{
    match expression {
        Expr::Binary(operator, left, right) => match (
            value(*left, x, delta, g, f),
            value(*right, x, delta, g, f),
        ) {
            (Some(a), Some(b)) => binary_value(operator_code(operator)[0], a, b, delta, f),
            _ => None,
        },
        Expr::Unary(_, operand) => match value(*operand, x, delta, g, f) {
            Some(v) => Some(f(Operation::Mul, MINUS_ONE, v)),
            None => None,
        },
        Expr::Function(name, argument) => match value(*argument, x, delta, g, f) {
            Some(v) => function_value(name->FunctionName_0, v, delta, f),
            None => None,
        },
        Expr::Atomic(token) => match token {
            Token::NumLiteral(spelling) => Some(g(spelling)),
            Token::Variable(_) => Some(x),
            Token::Constant(name) => if name == seq!['p', 'i'] {
                Some(PI)
            } else {
                Some(E)
            },
            _ => None,
        },
    }
}

/// With a unit that computes `f`, what one instruction may make of the stack
/// is what `step` says for `f`.
proof fn lemma_may_step_is_step<F: Fn(Operation, u64, u64) -> u64>(
    unit: &F,
    f: Arithmetic,
    instruction: Instruction,
    stack: Seq<u64>,
    x: u64,
    delta: u64,
    next: Option<Seq<u64>>,
)
    requires
        computes(unit, f),
        may_step(unit, instruction, stack, x, delta, next),
    ensures
        next == step(instruction, stack, x, delta, f),
{
}

/// With a unit that computes `f`, what a run may give is what `run` says for
/// `f`: the answers of such a unit leave one result only.
pub proof fn lemma_may_run_is_run<F: Fn(Operation, u64, u64) -> u64>(
    unit: &F,
    f: Arithmetic,
    program: Seq<Instruction>,
    stack: Seq<u64>,
    x: u64,
    delta: u64,
    result: Option<u64>,
)
    requires
        computes(unit, f),
        may_run(unit, program, stack, x, delta, result),
    ensures
        result == run(program, stack, x, delta, f),
    decreases program.len(),
{
    if program.len() > 0 {
        let next = choose|next: Option<Seq<u64>>| #[trigger]
            may_step(unit, program[0], stack, x, delta, next) && match next {
                Some(after) => may_run(unit, program.drop_first(), after, x, delta, result),
                None => result is None,
            };
        lemma_may_step_is_step(unit, f, program[0], stack, x, delta, next);
        match next {
            Some(after) => {
                lemma_may_run_is_run(unit, f, program.drop_first(), after, x, delta, result);
            },
            None => {},
        }
    }
}

/// With a unit that computes a function, what an evaluation may give is what
/// `evaluate` says for that function.
proof fn lemma_evaluation_is_one<F: Fn(Operation, u64, u64) -> u64>(
    unit: &F,
    program: Seq<Instruction>,
    x: u64,
    delta: u64,
    result: Option<u64>,
)
    requires
        may_evaluate(unit, program, x, delta, result),
    ensures
        forall|f: Arithmetic| #[trigger]
            computes(unit, f) ==> result == evaluate(program, x, delta, f),
{
    assert forall|f: Arithmetic| #[trigger] computes(unit, f) implies result == evaluate(
        program,
        x,
        delta,
        f,
    ) by {
        lemma_may_run_is_run(unit, f, program, Seq::empty(), x, delta, result);
    }
}

/// A run performs its first instruction and goes on with the rest.
proof fn lemma_run_first(
    instruction: Instruction,
    rest: Seq<Instruction>,
    stack: Seq<u64>,
    x: u64,
    delta: u64,
    f: Arithmetic,
)
    ensures
        run(seq![instruction] + rest, stack, x, delta, f) == match step(
            instruction,
            stack,
            x,
            delta,
            f,
        ) {
            Some(next) => run(rest, next, x, delta, f),
            None => None,
        },
{
    let program = seq![instruction] + rest;
    assert(program[0] == instruction);
    assert(program.drop_first() =~= rest);
}

/// The code of a proper tree, run in front of any other code, leaves the
/// tree's value on top of the stack as it found it and gives way to that
/// code; where the tree has no value, the run has none.
pub proof fn lemma_code_leaves_value(
    expression: Expr,
    rest: Seq<Instruction>,
    stack: Seq<u64>,
    x: u64,
    delta: u64,
    g: Numerals,
    f: Arithmetic,
)
    requires
        proper(expression),
    ensures
        run(compile(expression, g) + rest, stack, x, delta, f) == match value(
            expression,
            x,
            delta,
            g,
            f,
        ) {
            Some(v) => run(rest, stack.push(v), x, delta, f),
            None => None,
        },
    decreases expression,
{
    match expression {
        Expr::Binary(operator, left, right) => {
            let left_code = compile(*left, g);
            let right_code = compile(*right, g);
            let code = operator_code(operator);
            assert(code =~= seq![code[0]]);
            assert(compile(expression, g) + rest =~= left_code + (right_code + (seq![code[0]]
                + rest)));
            lemma_code_leaves_value(
                *left,
                right_code + (seq![code[0]] + rest),
                stack,
                x,
                delta,
                g,
                f,
            );
            match value(*left, x, delta, g, f) {
                Some(a) => {
                    lemma_code_leaves_value(
                        *right,
                        seq![code[0]] + rest,
                        stack.push(a),
                        x,
                        delta,
                        g,
                        f,
                    );
                    match value(*right, x, delta, g, f) {
                        Some(b) => {
                            let operands = stack.push(a).push(b);
                            lemma_run_first(code[0], rest, operands, x, delta, f);
                            assert(operands.take(operands.len() - 2) =~= stack);
                        },
                        None => {},
                    }
                },
                None => {},
            }
        },
        Expr::Unary(operator, operand) => {
            let minus_one = Instruction::Push(Value::Num(MINUS_ONE));
            let code = compile(*operand, g);
            assert(compile(expression, g) + rest =~= seq![minus_one] + (code + (seq![
                Instruction::Mul,
            ] + rest)));
            lemma_run_first(
                minus_one,
                code + (seq![Instruction::Mul] + rest),
                stack,
                x,
                delta,
                f,
            );
            lemma_code_leaves_value(
                *operand,
                seq![Instruction::Mul] + rest,
                stack.push(MINUS_ONE),
                x,
                delta,
                g,
                f,
            );
            match value(*operand, x, delta, g, f) {
                Some(v) => {
                    let operands = stack.push(MINUS_ONE).push(v);
                    lemma_run_first(Instruction::Mul, rest, operands, x, delta, f);
                    assert(operands.take(operands.len() - 2) =~= stack);
                },
                None => {},
            }
        },
        Expr::Function(name, argument) => {
            lemma_vocabulary(name->FunctionName_0);
            let code = compile(*argument, g);
            let apply = Instruction::ApplyFunc(name);
            assert(compile(expression, g) + rest =~= code + (seq![apply] + rest));
            lemma_code_leaves_value(*argument, seq![apply] + rest, stack, x, delta, g, f);
            match value(*argument, x, delta, g, f) {
                Some(v) => {
                    let operands = stack.push(v);
                    lemma_run_first(apply, rest, operands, x, delta, f);
                    assert(operands.take(operands.len() - 1) =~= stack);
                },
                None => {},
            }
        },
        Expr::Atomic(token) => {
            if token is Constant {
                lemma_vocabulary(token->Constant_0);
            }
            let code = atom_code(token, g);
            assert(code =~= seq![code[0]]);
            lemma_run_first(code[0], rest, stack, x, delta, f);
        },
    }
}

/// The compiler is correct: the code of a proper tree evaluates to the
/// tree's value. The stack never runs short on the way, and nothing but an
/// undefined operation makes the result `None`.
pub proof fn lemma_compiled_value(expression: Expr, x: u64, delta: u64, g: Numerals, f: Arithmetic)
    requires
        proper(expression),
    ensures
        evaluate(compile(expression, g), x, delta, f) == value(expression, x, delta, g, f),
{
    let code = compile(expression, g);
    assert(code + Seq::<Instruction>::empty() =~= code);
    lemma_code_leaves_value(expression, Seq::empty(), Seq::empty(), x, delta, g, f);
    match value(expression, x, delta, g, f) {
        Some(v) => {
            assert(Seq::<u64>::empty().push(v).last() == v);
        },
        None => {},
    }
}

/// Division by zero: under a threshold that is zero or more, a quotient has
/// no value where its divisor is a zero, whatever the dividend. So `1/x` has
/// none at 0.
pub proof fn lemma_division_by_zero(
    dividend: Expr,
    divisor: Expr,
    x: u64,
    delta: u64,
    g: Numerals,
    f: Arithmetic,
)
    requires
        proper(dividend),
        proper(divisor),
        at_most(ZERO, delta),
        value(divisor, x, delta, g, f) is Some ==> magnitude(value(divisor, x, delta, g, f)->0)
            == ZERO,
    ensures
        evaluate(
            compile(Expr::Binary(Token::Div, Box::new(dividend), Box::new(divisor)), g),
            x,
            delta,
            f,
        ) is None,
{
    let quotient = Expr::Binary(Token::Div, Box::new(dividend), Box::new(divisor));
    assert(operator_code(Token::Div)[0] == Instruction::Div);
    lemma_compiled_value(quotient, x, delta, g, f);
}

/// The reciprocal: `c/x`, for a number `c`, has no value wherever `x` is
/// within the threshold of zero, and the unit's quotient of `c` and `x`
/// everywhere else. This holds at every threshold; at one that is zero or
/// more it leaves `1/x` without a value at 0.
pub proof fn lemma_reciprocal(
    numerator: Seq<char>,
    variable: Seq<char>,
    x: u64,
    delta: u64,
    g: Numerals,
    f: Arithmetic,
)
    ensures
        evaluate(
            compile(
                Expr::Binary(
                    Token::Div,
                    Box::new(Expr::Atomic(Token::NumLiteral(numerator))),
                    Box::new(Expr::Atomic(Token::Variable(variable))),
                ),
                g,
            ),
            x,
            delta,
            f,
        ) == if at_most(magnitude(x), delta) {
            None
        } else {
            Some(f(Operation::Div, g(numerator), x))
        },
        at_most(ZERO, delta) && magnitude(x) == ZERO ==> at_most(magnitude(x), delta),
{
    let quotient = Expr::Binary(
        Token::Div,
        Box::new(Expr::Atomic(Token::NumLiteral(numerator))),
        Box::new(Expr::Atomic(Token::Variable(variable))),
    );
    assert(operator_code(Token::Div)[0] == Instruction::Div);
    reveal_with_fuel(proper, 2);
    reveal_with_fuel(value, 2);
    lemma_compiled_value(quotient, x, delta, g, f);
}

/// Domain edge: a logarithm, to base 10 or natural, has no value where its
/// argument is zero or less, whatever the unit answers. So `log(x)` has none
/// at 0 and none at -1.
pub proof fn lemma_logarithm_at_or_below_zero(
    argument: Expr,
    natural: bool,
    x: u64,
    delta: u64,
    g: Numerals,
    f: Arithmetic,
)
    requires
        proper(argument),
        value(argument, x, delta, g, f) is Some ==> at_most(
            value(argument, x, delta, g, f)->0,
            ZERO,
        ),
    ensures
        evaluate(
            compile(
                Expr::Function(
                    Token::FunctionName(
                        if natural {
                            seq!['l', 'n']
                        } else {
                            seq!['l', 'o', 'g']
                        },
                    ),
                    Box::new(argument),
                ),
                g,
            ),
            x,
            delta,
            f,
        ) is None,
{
    let name = if natural {
        seq!['l', 'n']
    } else {
        seq!['l', 'o', 'g']
    };
    let logarithm = Expr::Function(Token::FunctionName(name), Box::new(argument));
    lemma_vocabulary(name);
    assert(seq!['l', 'n'].len() != seq!['l', 'o', 'g'].len());
    lemma_compiled_value(logarithm, x, delta, g, f);
}

/// Determinism of the machine: two evaluations of one program at one point
/// agree, bit for bit, provided that the unit computes a function, that is,
/// answers the same request in the same way each time. `once` and `again`
/// are results that `calculate` may give, whatever the stack held before.
pub proof fn lemma_evaluations_agree<F: Fn(Operation, u64, u64) -> u64>(
    unit: &F,
    f: Arithmetic,
    program: Seq<Instruction>,
    x: u64,
    threshold: u64,
    once: Option<u64>,
    again: Option<u64>,
)
    requires
        computes(unit, f),
        may_evaluate(unit, program, x, threshold, once),
        may_evaluate(unit, program, x, threshold, again),
    ensures
        once == again,
        once == evaluate(program, x, threshold, f),
{
    lemma_may_run_is_run(unit, f, program, Seq::empty(), x, threshold, once);
    lemma_may_run_is_run(unit, f, program, Seq::empty(), x, threshold, again);
}

/// Domain edge: the square root has no value where its argument is below
/// zero. So `sqrt(x)` has none at -1.
pub proof fn lemma_square_root_below_zero(
    argument: Expr,
    x: u64,
    delta: u64,
    g: Numerals,
    f: Arithmetic,
)
    requires
        proper(argument),
        value(argument, x, delta, g, f) is Some ==> below(value(argument, x, delta, g, f)->0, ZERO),
    ensures
        evaluate(
            compile(
                Expr::Function(
                    Token::FunctionName(seq!['s', 'q', 'r', 't']),
                    Box::new(argument),
                ),
                g,
            ),
            x,
            delta,
            f,
        ) is None,
{
    let name = seq!['s', 'q', 'r', 't'];
    let root = Expr::Function(Token::FunctionName(name), Box::new(argument));
    lemma_vocabulary(name);
    lemma_compiled_value(root, x, delta, g, f);
}

/// `program_view` goes through concatenation.
proof fn lemma_program_view_concat(a: Seq<CalculatorInstruction>, b: Seq<CalculatorInstruction>)
    ensures
        program_view(a + b) == program_view(a) + program_view(b),
{
    assert(program_view(a + b) =~= program_view(a) + program_view(b));
}

/// Compiles a tree to postfix code.
fn generate_instructions<L: Fn(String) -> u64>(expression: ASTNodeType, convert: &L) -> (instructions:
    Vec<CalculatorInstruction>)
    requires
        reads_all(convert),
    ensures
        may_be_code(convert, expression@, program_view(instructions@)),
        forall|g: Numerals| #[trigger]
            reads(convert, g) ==> program_view(instructions@) == compile(expression@, g),
    decreases expression,
{
    let mut instructions: Vec<CalculatorInstruction> = Vec::new();
    match expression {
        ASTNodeType::BinaryExpression(operator, left, right) => {
            let mut left_code = generate_instructions(*left, convert);
            let mut right_code = generate_instructions(*right, convert);
            let ghost left_seq = left_code@;
            let ghost right_seq = right_code@;
            instructions.append(&mut left_code);
            instructions.append(&mut right_code);
            match operator {
                TokenType::Add => instructions.push(CalculatorInstruction::Add),
                TokenType::Sub => instructions.push(CalculatorInstruction::Sub),
                TokenType::Mul => instructions.push(CalculatorInstruction::Mul),
                TokenType::Div => instructions.push(CalculatorInstruction::Div),
                TokenType::Exp => instructions.push(CalculatorInstruction::Exp),
                _ => (),
            };
            proof {
                let tail = instructions@.skip((left_seq.len() + right_seq.len()) as int);
                assert(instructions@ =~= left_seq + right_seq + tail);
                lemma_program_view_concat(left_seq + right_seq, tail);
                lemma_program_view_concat(left_seq, right_seq);
                assert(program_view(tail) =~= operator_code(operator@));
                assert(program_view(instructions@) == binary_code(
                    program_view(left_seq),
                    program_view(right_seq),
                    operator@,
                ));
            }
        },
        ASTNodeType::UnaryExpression(operator, operand) => {
            instructions.push(CalculatorInstruction::Push(CalculatorValue::Num(MINUS_ONE)));
            let mut code = generate_instructions(*operand, convert);
            let ghost code_seq = code@;
            instructions.append(&mut code);
            match operator {
                TokenType::Sub => instructions.push(CalculatorInstruction::Mul),
                _ => (),
            };
            proof {
                let head = instructions@.take(1);
                let tail = instructions@.skip(1 + code_seq.len() as int);
                assert(instructions@ =~= head + code_seq + tail);
                lemma_program_view_concat(head + code_seq, tail);
                lemma_program_view_concat(head, code_seq);
                assert(program_view(head) =~= seq![Instruction::Push(Value::Num(MINUS_ONE))]);
                assert(program_view(tail) =~= (if operator@ == Token::Sub {
                    seq![Instruction::Mul]
                } else {
                    Seq::empty()
                }));
                assert(program_view(instructions@) == unary_code(
                    program_view(code_seq),
                    operator@,
                ));
            }
        },
        ASTNodeType::FunctionExpression(function_name, argument) => {
            let mut code = generate_instructions(*argument, convert);
            let ghost code_seq = code@;
            let ghost name = function_name@;
            instructions.append(&mut code);
            instructions.push(CalculatorInstruction::ApplyFunc(function_name));
            proof {
                assert(program_view(instructions@) =~= program_view(code_seq).push(
                    Instruction::ApplyFunc(name),
                ));
                assert(program_view(instructions@) == call_code(program_view(code_seq), name));
            }
        },
        ASTNodeType::AtomicExpression(token) => {
            let ghost atom = token@;
            match token {
                TokenType::NumLiteral(num) => {
                    let ghost text = num;
                    let value = convert(num);
                    instructions.push(CalculatorInstruction::Push(CalculatorValue::Num(value)));
                    proof {
                        assert(call_ensures(convert, (text,), value) && text@ == text@);
                        assert(reads_as(convert, text@, value));
                        assert(program_view(instructions@) =~= seq![
                            Instruction::Push(Value::Num(value)),
                        ]);
                    }
                },
                TokenType::Variable(name) => instructions.push(
                    CalculatorInstruction::Push(
                        CalculatorValue::Variable(TokenType::Variable(name)),
                    ),
                ),
                TokenType::Constant(c) => {
                    proof {
                        reveal_strlit("pi");
                        reveal_strlit("e");
                        assert("pi"@ =~= seq!['p', 'i']);
                        assert("e"@ =~= seq!['e']);
                    }
                    if same_text(&c, "pi") {
                        instructions.push(CalculatorInstruction::Push(CalculatorValue::Num(PI)));
                    } else if same_text(&c, "e") {
                        instructions.push(CalculatorInstruction::Push(CalculatorValue::Num(E)));
                    }
                },
                _ => (),
            }
            proof {
                assert forall|g: Numerals| #[trigger] reads(convert, g) implies program_view(
                    instructions@,
                ) == atom_code(atom, g) by {
                    assert(program_view(instructions@) =~= atom_code(atom, g));
                }
                if !(atom is NumLiteral) {
                    assert(program_view(instructions@) =~= name_code(atom));
                }
            }
        },
    }
    instructions
}

/// Compiles `expression` into a calculator whose threshold is `delta`.
///
/// Number literals are resolved here, once, by `convert`; the constants `pi`
/// and `e` become their doubles. Every tree compiles: a token that stands
/// where it has no meaning contributes no instruction.
pub fn generate_calculator<L: Fn(String) -> u64>(expression: ASTNodeType, delta: u64, convert: &L) -> (calculator:
    Calculator)
    requires
        reads_all(convert),
    ensures
        calculator.threshold() == delta,
        may_be_code(convert, expression@, calculator.program()),
        forall|g: Numerals| #[trigger]
            reads(convert, g) ==> calculator.program() == compile(expression@, g),
{
    let instructions = generate_instructions(expression, convert);
    Calculator::new(instructions, delta)
}

} // verus!
