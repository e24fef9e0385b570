use eks::calculator::Calc;
use eks::calculator::Op;
use eks::calculator::ParseError;

fn eval(expr: &str, x: u64, bits: u32) -> u64 {
    let calc = Calc::parse(expr.as_bytes()).unwrap();
    let mut stack: Vec<u64> = Vec::new();
    calc.execute(x, bits, &mut stack)
}

#[test]
fn parse_basic_expression() {
    let c = Calc::parse(b"x 2 *").unwrap();
    assert_eq!(c.0, vec![Op::X, Op::Imm(2), Op::Mul]);
}

#[test]
fn parse_hex_immediate() {
    let c = Calc::parse(b"0x1f !").unwrap();
    assert_eq!(c.0, vec![Op::Imm(31), Op::Not]);
}

#[test]
fn parse_shift_operators_longest_first() {
    let c = Calc::parse(b"<< >>> >>").unwrap();
    assert_eq!(c.0, vec![Op::Sll, Op::Sra, Op::Srl]);
}

#[test]
fn parse_all_single_operators() {
    let c = Calc::parse(b"+-*/%~&|^!x").unwrap();
    assert_eq!(
        c.0,
        vec![
            Op::Add,
            Op::Sub,
            Op::Mul,
            Op::Div,
            Op::Rem,
            Op::Neg,
            Op::And,
            Op::Or,
            Op::Xor,
            Op::Not,
            Op::X
        ]
    );
}

#[test]
fn parse_skips_whitespace() {
    let c = Calc::parse(b" \t\r\n x \n").unwrap();
    assert_eq!(c.0, vec![Op::X]);
}

#[test]
fn parse_empty_is_identity() {
    let c = Calc::parse(b"").unwrap();
    assert!(c.0.is_empty());
}

#[test]
fn parse_rejects_unknown_character() {
    assert_eq!(Calc::parse(b"?"), Err(ParseError::UnrecognizedChar(b'?')));
}

#[test]
fn parse_rejects_lone_angle_bracket() {
    assert_eq!(Calc::parse(b"<"), Err(ParseError::UnrecognizedShift));
    assert_eq!(Calc::parse(b"> "), Err(ParseError::UnrecognizedShift));
}

#[test]
fn parse_rejects_bad_digits() {
    assert_eq!(Calc::parse(b"0xZZ"), Err(ParseError::BadNumber));
    assert_eq!(Calc::parse(b"12x"), Err(ParseError::BadNumber));
    assert_eq!(Calc::parse(b"0x"), Err(ParseError::BadNumber));
}

#[test]
fn parse_rejects_overflowing_number() {
    assert_eq!(
        Calc::parse(b"18446744073709551616"),
        Err(ParseError::BadNumber)
    );
    let c = Calc::parse(b"18446744073709551615").unwrap();
    assert_eq!(c.0, vec![Op::Imm(u64::MAX)]);
}

#[test]
fn identity_expression_masks_input() {
    assert_eq!(eval("", 0x1234, 8), 0x34);
    assert_eq!(eval("", 0x42, 8), 0x42);
}

#[test]
fn missing_operand_defaults_to_zero() {
    // The stack is seeded with the input, so a bare add with input zero pops
    // that zero and a defaulted zero.
    assert_eq!(eval("+", 0, 8), 0);
    assert_eq!(eval("+", 0, 64), 0);
    // With a nonzero input, the seeded value plus the defaulted zero remains.
    assert_eq!(eval("+", 5, 8), 5);
}

#[test]
fn multiplication_wraps_to_bit_width() {
    // 16 * 16 mod 256 == 0
    assert_eq!(eval("x x *", 16, 8), 0);
}

#[test]
fn division_by_zero_yields_sentinel() {
    // x, 0, x, * leaves a zero divisor; the quotient becomes 0xff, masked.
    assert_eq!(eval("x 0 x * /", 7, 8), 0xff);
    assert_eq!(eval("x 0 x * /", 7, 4), 0xf);
}

#[test]
fn remainder_with_zero_divisor_keeps_dividend() {
    assert_eq!(eval("5 0 %", 0, 8), 5);
}

#[test]
fn arithmetic_shift_extends_sign() {
    // For bit width 8, 0x80 shifted right arithmetically by 1 replicates the
    // sign bit: 0xc0, not 0x40.
    assert_eq!(eval("1 >>>", 0x80, 8), 0xc0);
    assert_eq!(eval("1 >>", 0x80, 8), 0x40);
}

#[test]
fn wrapping_subtraction_and_negation() {
    assert_eq!(eval("0 1 -", 0, 8), 0xff);
    assert_eq!(eval("1 ~", 0, 8), 0xff);
    assert_eq!(eval("0 !", 0, 8), 0xff);
}

#[test]
fn shifts_and_bitwise_operators() {
    assert_eq!(eval("1 7 <<", 0, 8), 0x80);
    assert_eq!(eval("6 3 /", 0, 8), 2);
    assert_eq!(eval("0xf0 0x0f |", 0, 8), 0xff);
    assert_eq!(eval("0xf0 0xff &", 0, 8), 0xf0);
    assert_eq!(eval("0xff 0x0f ^", 0, 8), 0xf0);
}

#[test]
fn results_stay_within_bit_width() {
    let exprs = ["", "x x *", "x !", "x ~", "x 3 <<", "x x +", "255 x -"];
    let inputs = [0u64, 1, 16, 127, 128, 255, 0xdead_beef];
    for e in exprs.iter() {
        for &x in inputs.iter() {
            assert!(eval(e, x, 8) <= 0xff);
            assert!(eval(e, x, 5) <= 0x1f);
        }
    }
}

#[test]
fn evaluation_stack_is_reused() {
    let calc = Calc::parse(b"x 1 +").unwrap();
    let mut stack: Vec<u64> = Vec::new();
    assert_eq!(calc.execute(1, 8, &mut stack), 2);
    assert_eq!(calc.execute(2, 8, &mut stack), 3);
    assert_eq!(calc.execute(255, 8, &mut stack), 0);
}
