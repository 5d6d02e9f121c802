use advent_of_code::year_2015::day_07::{Circuit, CircuitInstruction, Endpoint, Gate, ResolveError};

fn feed(circuit: &mut Circuit, line: &str) {
    let instruction = CircuitInstruction::from_str(line).unwrap();
    circuit.add_instruction(instruction);
}

#[test]
fn test_small_circuit() {
    let mut circuit = Circuit::new();
    feed(&mut circuit, "123 -> x");
    feed(&mut circuit, "456 -> y");
    feed(&mut circuit, "x AND y -> d");
    feed(&mut circuit, "x OR y -> e");
    feed(&mut circuit, "x LSHIFT 2 -> f");
    feed(&mut circuit, "y RSHIFT 2 -> g");
    feed(&mut circuit, "NOT x -> h");
    feed(&mut circuit, "NOT y -> i");

    circuit.resolve().unwrap();

    assert_eq!(circuit.signal("d"), Some(72));
    assert_eq!(circuit.signal("e"), Some(507));
    assert_eq!(circuit.signal("f"), Some(492));
    assert_eq!(circuit.signal("g"), Some(114));
    assert_eq!(circuit.signal("h"), Some(65412));
    assert_eq!(circuit.signal("i"), Some(65079));
    assert_eq!(circuit.signal("x"), Some(123));
    assert_eq!(circuit.signal("y"), Some(456));
}

#[test]
fn test_repeated_resolution_is_deterministic() {
    let mut circuit = Circuit::new();
    feed(&mut circuit, "123 -> x");
    feed(&mut circuit, "456 -> y");
    feed(&mut circuit, "x AND y -> d");

    circuit.resolve().unwrap();
    let first = circuit.signal("d");
    circuit.resolve().unwrap();
    let second = circuit.signal("d");
    circuit.resolve().unwrap();
    let third = circuit.signal("d");
    assert_eq!(first, Some(72));
    assert_eq!(second, Some(72));
    assert_eq!(third, Some(72));
}

#[test]
fn test_query_order_independence() {
    // Build the same definitions twice and resolve them in different orders:
    // every wire must settle to the same value either way.
    let lines = ["123 -> x", "456 -> y", "x AND y -> d", "d OR x -> i"];
    let mut a = Circuit::new();
    let mut b = Circuit::new();
    for line in lines {
        feed(&mut a, line);
    }
    for line in lines.iter().rev() {
        feed(&mut b, line);
    }
    a.resolve().unwrap();
    b.resolve().unwrap();
    for wire in ["x", "y", "d", "i"] {
        assert_eq!(a.signal(wire), b.signal(wire));
        assert!(a.signal(wire).is_some());
    }
}

#[test]
fn test_reset_and_override_round_trip() {
    let mut circuit = Circuit::new();
    feed(&mut circuit, "123 -> b");
    feed(&mut circuit, "b -> a");
    circuit.resolve().unwrap();
    let first = circuit.signal("a").unwrap();
    assert_eq!(first, 123);

    circuit.reset();
    assert_eq!(circuit.signal("a"), None);
    feed(&mut circuit, "456 -> b");
    circuit.resolve().unwrap();
    // No stale memoized value survives the reset: the override shows through.
    assert_eq!(circuit.signal("a"), Some(456));
    assert_eq!(circuit.signal("b"), Some(456));
}

#[test]
fn test_passthrough_identity() {
    let mut circuit = Circuit::new();
    feed(&mut circuit, "1001 -> w");
    feed(&mut circuit, "w -> v");
    circuit.resolve().unwrap();
    assert_eq!(circuit.signal("w"), Some(1001));
    assert_eq!(circuit.signal("v"), Some(1001));
}

#[test]
fn test_undefined_reference_is_an_error() {
    let mut circuit = Circuit::new();
    feed(&mut circuit, "nowhere -> a");
    let result = circuit.resolve();
    assert_eq!(result, Err(ResolveError::UndefinedWire));
    // Never a silent default value.
    assert_eq!(circuit.signal("a"), None);
}

#[test]
fn test_cyclic_definition_is_an_error() {
    let mut circuit = Circuit::new();
    feed(&mut circuit, "b -> a");
    feed(&mut circuit, "a -> b");
    let result = circuit.resolve();
    assert_eq!(result, Err(ResolveError::RecursionLimit));
}

#[test]
fn test_shift_by_wire() {
    let mut circuit = Circuit::new();
    feed(&mut circuit, "2 -> s");
    feed(&mut circuit, "123 -> x");
    feed(&mut circuit, "x LSHIFT s -> f");
    circuit.resolve().unwrap();
    assert_eq!(circuit.signal("f"), Some(492));
}

#[test]
fn test_large_shift_clears_the_value() {
    let mut circuit = Circuit::new();
    feed(&mut circuit, "123 -> x");
    feed(&mut circuit, "x LSHIFT 20 -> f");
    feed(&mut circuit, "x RSHIFT 16 -> g");
    circuit.resolve().unwrap();
    assert_eq!(circuit.signal("f"), Some(0));
    assert_eq!(circuit.signal("g"), Some(0));
}

#[test]
fn test_parse_errors() {
    assert!(CircuitInstruction::from_str("").is_err());
    assert!(CircuitInstruction::from_str("pancakes").is_err());
    assert!(CircuitInstruction::from_str("x XOR y -> d").is_err());
    assert!(CircuitInstruction::from_str("x AND -> d").is_err());
    assert!(CircuitInstruction::from_str("x AND y ->").is_err());
    assert!(CircuitInstruction::from_str("x AND y -> d e").is_err());
    assert!(CircuitInstruction::from_str("NOT -> h").is_ok());
}

#[test]
fn test_add_instruction_last_write_wins() {
    let mut circuit = Circuit::new();
    feed(&mut circuit, "1 -> a");
    feed(&mut circuit, "2 -> a");
    circuit.resolve().unwrap();
    assert_eq!(circuit.signal("a"), Some(2));
}

#[test]
fn test_numeric_operand_too_large_is_a_wire_name() {
    // 70000 does not fit a 16-bit signal, so it reads as a wire name.
    let mut circuit = Circuit::new();
    feed(&mut circuit, "9 -> 70000");
    feed(&mut circuit, "70000 -> a");
    circuit.resolve().unwrap();
    assert_eq!(circuit.signal("a"), Some(9));
}

#[test]
fn test_direct_gate_construction() {
    let mut circuit = Circuit::new();
    circuit.add_instruction(CircuitInstruction {
        wire: String::from("x"),
        output: Gate::NoOp(Endpoint::Source(7)),
    });
    circuit.add_instruction(CircuitInstruction {
        wire: String::from("y"),
        output: Gate::Not(Endpoint::Wire(String::from("x"))),
    });
    circuit.resolve().unwrap();
    assert_eq!(circuit.signal("x"), Some(7));
    assert_eq!(circuit.signal("y"), Some(!7u16));
}
