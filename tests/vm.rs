use rox::chunk::{Chunk, Instruction, Value};
use rox::compiler::compile;
use rox::error::{CompilationError, RoxErrorKind, RuntimeError};
use rox::heap::Heap;
use rox::vm::{equals, ArithOp, Vm};

fn parse(lexeme: Vec<u8>) -> Option<u64> {
    std::str::from_utf8(&lexeme).ok()?.parse::<f64>().ok().map(f64::to_bits)
}

fn arith(op: ArithOp, a: u64, b: u64) -> u64 {
    let (x, y) = (f64::from_bits(a), f64::from_bits(b));
    let r = match op {
        ArithOp::Add => x + y,
        ArithOp::Subtract => x - y,
        ArithOp::Multiply => x * y,
        ArithOp::Divide => x / y,
    };
    r.to_bits()
}

fn num(x: f64) -> Value {
    Value::Number(x.to_bits())
}

fn eval(src: &str) -> (Vm, Result<Option<Value>, Vec<rox::error::RoxError>>) {
    let mut vm = Vm::new(Chunk::new());
    let r = vm.interpret(src, &parse, &arith);
    (vm, r)
}

fn value_of(src: &str) -> Value {
    eval(src).1.expect("no error").expect("a result")
}

#[test]
fn arithmetic_precedence() {
    assert_eq!(value_of("1 + 2 * 3"), num(7.0));
    assert_eq!(value_of("(1 + 2) * 3"), num(9.0));
    assert_eq!(value_of("2 + 3 * 4"), num(14.0));
}

#[test]
fn left_associativity() {
    assert_eq!(value_of("1 - 2 - 3"), num(-4.0));
    assert_eq!(value_of("8 / 4 / 2"), num(1.0));
}

#[test]
fn unary_operators() {
    assert_eq!(value_of("-(-1)"), num(1.0));
    assert_eq!(value_of("!!true"), Value::Bool(true));
    assert_eq!(value_of("!nil == true"), Value::Bool(true));
    assert_eq!(value_of("-2 * 3"), num(-6.0));
}

#[test]
fn comparisons() {
    assert_eq!(value_of("1 < 2"), Value::Bool(true));
    assert_eq!(value_of("2 <= 2"), Value::Bool(true));
    assert_eq!(value_of("3 > 4"), Value::Bool(false));
    assert_eq!(value_of("4 >= 5"), Value::Bool(false));
    assert_eq!(value_of("1 != 2"), Value::Bool(true));
    assert_eq!(value_of("nil == false"), Value::Bool(false));
    assert_eq!(value_of("nil == nil"), Value::Bool(true));
}

#[test]
fn division_by_zero_is_not_an_error() {
    assert_eq!(value_of("1 / 0"), num(f64::INFINITY));
    let v = value_of("0 / 0");
    match v {
        Value::Number(bits) => assert!(f64::from_bits(bits).is_nan()),
        _ => panic!("expected a number"),
    }
    assert_eq!(value_of("0 / 0 == 0 / 0"), Value::Bool(false));
    // `>=` is the negation of `<`, so NaN >= NaN holds.
    assert_eq!(value_of("0 / 0 >= 0 / 0"), Value::Bool(true));
}

#[test]
fn string_concatenation_is_interned() {
    let (mut vm, r) = eval("\"foo\" + \"bar\"");
    let v = r.unwrap().unwrap();
    let handle = match v {
        Value::String(h) => h,
        _ => panic!("expected a string"),
    };
    assert_eq!(vm.heap_ref().deref(handle), &b"foobar".to_vec());
    let (_, r) = eval("\"a\" + \"b\"");
    assert!(matches!(r, Ok(Some(Value::String(_)))));
    // Interning the content again yields the handle the addition produced.
    let r2 = vm.interpret("\"foo\" + \"bar\"", &parse, &arith).unwrap().unwrap();
    assert_eq!(r2, Value::String(handle));
}

#[test]
fn string_equality_by_content() {
    assert_eq!(value_of("\"ab\" == \"a\" + \"b\""), Value::Bool(true));
    assert_eq!(value_of("\"ab\" == \"ba\""), Value::Bool(false));
    assert_eq!(value_of("\"1\" == 1"), Value::Bool(false));
}

#[test]
fn equality_semantics() {
    let mut h = Heap::new();
    let a = h.allocate(b"same".to_vec());
    let b = h.alloc_string(b"same".to_vec());
    assert_ne!(a, b);
    assert!(equals(&h, Value::String(a), Value::String(b)));
    assert!(equals(&h, Value::Nil, Value::Nil));
    assert!(!equals(&h, Value::Nil, Value::Bool(false)));
    assert!(!equals(&h, num(f64::NAN), num(f64::NAN)));
    assert!(equals(&h, num(0.0), num(-0.0)));
    assert!(!equals(&h, num(1.0), Value::Bool(true)));
}

#[test]
fn invalid_operand_on_plus_line() {
    let (_, r) = eval("1 +\n \"x\"");
    let errs = r.unwrap_err();
    assert_eq!(errs.len(), 1);
    assert_eq!(errs[0].src, RoxErrorKind::RuntimeError(RuntimeError::InvalidOperand));
    // The addition is recorded at the line of the token read just before it was emitted,
    // the end of its right operand.
    assert_eq!(errs[0].line, 1);
    let (_, r) = eval("1 + \"x\"");
    let errs = r.unwrap_err();
    assert_eq!(errs[0].src, RoxErrorKind::RuntimeError(RuntimeError::InvalidOperand));
    assert_eq!(errs[0].line, 0);
}

#[test]
fn error_line_is_that_of_the_failing_operator() {
    let (_, r) = eval("1 +\n2 *\n\n-true");
    let errs = r.unwrap_err();
    assert_eq!(errs[0].src, RoxErrorKind::RuntimeError(RuntimeError::InvalidOperand));
    assert_eq!(errs[0].line, 3);
}

#[test]
fn unterminated_string_is_a_compilation_error() {
    let (_, r) = eval("\"abc");
    let errs = r.unwrap_err();
    assert_eq!(errs.len(), 1);
    assert_eq!(errs[0].src, RoxErrorKind::CompilationError(CompilationError::UnterminatedString));
}

#[test]
fn compilation_errors() {
    let (_, r) = eval("(1 + 2");
    assert_eq!(
        r.unwrap_err()[0].src,
        RoxErrorKind::CompilationError(CompilationError::MissingClosingParenthesis)
    );
    let (_, r) = eval("1 +");
    assert_eq!(r.unwrap_err()[0].src, RoxErrorKind::CompilationError(CompilationError::MissingExpression));
    let (_, r) = eval("");
    assert_eq!(r.unwrap_err()[0].src, RoxErrorKind::CompilationError(CompilationError::MissingExpression));
    let (_, r) = eval("1 + $");
    assert_eq!(
        r.unwrap_err()[0].src,
        RoxErrorKind::CompilationError(CompilationError::InvalidLexeme(b"$".to_vec()))
    );
    let mut heap = Heap::new();
    let never = |_: Vec<u8>| -> Option<u64> { None };
    let r = compile("12", &mut heap, &never);
    assert_eq!(
        r.unwrap_err()[0].src,
        RoxErrorKind::CompilationError(CompilationError::InvalidNumberLiteral(b"12".to_vec()))
    );
}

#[test]
fn too_many_constants() {
    let mut src = String::from("0");
    for _ in 0..65536 {
        src.push_str("+0");
    }
    let mut heap = Heap::new();
    let r = compile(&src, &mut heap, &parse);
    assert_eq!(
        r.unwrap_err()[0].src,
        RoxErrorKind::CompilationError(CompilationError::TooManyConstants(65535))
    );
}

#[test]
fn negated_comparisons_compile_to_pairs() {
    let mut heap = Heap::new();
    for (src, tail) in [("1 != 2", [Instruction::Equal, Instruction::Not]), ("1 >= 2", [Instruction::Less, Instruction::Not]), ("1 <= 2", [Instruction::Greater, Instruction::Not])] {
        let c = compile(src, &mut heap, &parse).unwrap();
        assert_eq!(c.code, vec![Instruction::Constant(0), Instruction::Constant(1), tail[0], tail[1], Instruction::Return]);
    }
    let c = compile("1 < 2", &mut heap, &parse).unwrap();
    assert_eq!(c.code, vec![Instruction::Constant(0), Instruction::Constant(1), Instruction::Less, Instruction::Return]);
}

#[test]
fn compiled_lines_follow_tokens() {
    let mut heap = Heap::new();
    let c = compile("1\n+\n2", &mut heap, &parse).unwrap();
    let lines: Vec<usize> = (0..c.code.len()).map(|i| c.get_line(i)).collect();
    assert_eq!(lines, vec![0, 2, 2, 2]);
}

#[test]
fn running_a_hand_built_chunk() {
    let mut c = Chunk::new();
    let k = c.add_constant(num(123.5)).unwrap();
    c.write(Instruction::Constant(k), 1);
    c.write(Instruction::Negate, 1);
    c.write(Instruction::Constant(k), 1);
    c.write(Instruction::Negate, 1);
    c.write(Instruction::Subtract, 1);
    c.write(Instruction::Return, 1);
    let mut vm = Vm::new(c);
    assert_eq!(vm.run(&arith), Ok(Some(num(0.0))));
}

#[test]
fn missing_operand_and_bad_constant() {
    let mut c = Chunk::new();
    c.write(Instruction::Add, 4);
    c.write(Instruction::Return, 4);
    let mut vm = Vm::new(c);
    let e = vm.run(&arith).unwrap_err();
    assert_eq!(e.src, RoxErrorKind::RuntimeError(RuntimeError::MissingOperand));
    assert_eq!(e.line, 4);

    let mut c = Chunk::new();
    c.write(Instruction::Constant(3), 2);
    c.write(Instruction::Return, 2);
    let mut vm = Vm::new(c);
    let e = vm.run(&arith).unwrap_err();
    assert_eq!(e.src, RoxErrorKind::RuntimeError(RuntimeError::InvalidConstantAddress));
}

#[test]
fn compilation_error_lines() {
    let (_, r) = eval("(1\n+ 2 3");
    let e = &r.unwrap_err()[0];
    assert_eq!(e.src, RoxErrorKind::CompilationError(CompilationError::MissingClosingParenthesis));
    assert_eq!(e.line, 1);
    let (_, r) = eval("\n)");
    let e = &r.unwrap_err()[0];
    assert_eq!(e.src, RoxErrorKind::CompilationError(CompilationError::MissingExpression));
    assert_eq!(e.line, 1);
    let (_, r) = eval("1 +\n\n@@");
    let e = &r.unwrap_err()[0];
    assert_eq!(e.src, RoxErrorKind::CompilationError(CompilationError::InvalidLexeme(b"@@".to_vec())));
    assert_eq!(e.line, 2);
}
