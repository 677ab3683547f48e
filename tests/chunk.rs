use rox::chunk::{Chunk, Instruction, LineStart, Value, MAX_CONSTANTS};
use rox::debug::line_marker;

#[test]
fn instruction_is_at_most_32_bits() {
    // An instruction should be at most 32 bits; anything bigger and we've mis-defined some
    // variant
    assert!(std::mem::size_of::<Instruction>() <= 4);
}

#[test]
fn value_is_at_most_32_bits() {
    // A value should be at most 128 bits; anything bigger and we've mis-defined some
    // variant
    assert!(std::mem::size_of::<Value>() <= 16);
}

#[test]
fn write_returns_consecutive_indices() {
    let mut c = Chunk::new();
    assert_eq!(c.write(Instruction::Nil, 3), 0);
    assert_eq!(c.write(Instruction::Not, 3), 1);
    assert_eq!(c.write(Instruction::Return, 4), 2);
    assert_eq!(c.code, vec![Instruction::Nil, Instruction::Not, Instruction::Return]);
}

#[test]
fn same_line_does_not_grow_line_map() {
    let mut c = Chunk::new();
    c.write(Instruction::True, 7);
    c.write(Instruction::Not, 7);
    c.write(Instruction::Not, 7);
    assert_eq!(c.lines, vec![LineStart::new(0, 7)]);
    c.write(Instruction::Return, 9);
    assert_eq!(c.lines, vec![LineStart::new(0, 7), LineStart::new(3, 9)]);
}

#[test]
fn get_line_finds_last_start_at_or_before() {
    let mut c = Chunk::new();
    for (inst, line) in [
        (Instruction::Nil, 1),
        (Instruction::Nil, 1),
        (Instruction::Equal, 2),
        (Instruction::Nil, 5),
        (Instruction::Not, 5),
        (Instruction::Return, 8),
    ] {
        c.write(inst, line);
    }
    let lines: Vec<usize> = (0..6).map(|i| c.get_line(i)).collect();
    assert_eq!(lines, vec![1, 1, 2, 5, 5, 8]);
}

#[test]
fn get_line_is_monotone_for_sorted_lines() {
    let mut c = Chunk::new();
    for i in 0..50usize {
        c.write(Instruction::Nil, i / 3);
    }
    for i in 1..50 {
        assert!(c.get_line(i - 1) <= c.get_line(i));
    }
}

#[test]
fn constant_pool_holds_65536_and_refuses_the_next() {
    let mut c = Chunk::new();
    for i in 0..MAX_CONSTANTS {
        assert_eq!(c.add_constant(Value::Nil), Ok(i as u16));
    }
    assert_eq!(c.constants.len(), 65536);
    assert_eq!(c.add_constant(Value::Nil), Err(()));
    assert_eq!(c.constants.len(), 65536);
}

#[test]
fn falsiness() {
    assert!(Value::Nil.is_falsey());
    assert!(Value::Bool(false).is_falsey());
    assert!(!Value::Bool(true).is_falsey());
    assert!(!Value::Number(0.0f64.to_bits()).is_falsey());
    let mut h = rox::heap::Heap::new();
    let r = h.alloc_string(Vec::new());
    assert!(!Value::String(r).is_falsey());
}

#[test]
fn listing_marks_repeated_lines() {
    let mut c = Chunk::new();
    c.write(Instruction::Nil, 1);
    c.write(Instruction::Not, 1);
    c.write(Instruction::Return, 2);
    assert_eq!(line_marker(&c, 0), Some(1));
    assert_eq!(line_marker(&c, 1), None);
    assert_eq!(line_marker(&c, 2), Some(2));
}
