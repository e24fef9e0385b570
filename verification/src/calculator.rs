//! A reverse-Polish calculator that decides how to color-code bytes.
//!
//! An expression is a sequence of operations evaluated left to right against
//! a stack.  The stack is reseeded with the current input value on every
//! evaluation; a missing operand defaults to zero, and every intermediate
//! result is masked to the configured bit width, so evaluation is a total
//! function of the expression and the input.

use vstd::prelude::*;

verus! {

/// One operation of a reverse-Polish color formula.
#[derive(Clone, Copy, PartialEq, Eq, Structural, Debug)]
pub enum Op {
    Add,
    Sub,
    Mul,
    Div,
    Rem,
    And,
    Or,
    Xor,
    Sll,
    Srl,
    Sra,
    Not,
    Neg,
    /// The current input value.
    X,
    /// A literal operand.
    Imm(u64),
}

/// A parsed reverse-Polish expression.
#[derive(Debug, PartialEq, Eq)]
pub struct Calc(pub Vec<Op>);

/// All `bits` low bits set; results are reduced to this width after every step.
pub open spec fn mask_of(bits: u32) -> u64 {
    if bits == 64 {
        u64::MAX
    } else {
        ((1u64 << bits) - 1) as u64
    }
}

/// The top of the evaluation stack; a missing operand reads as zero.
pub open spec fn stack_top(s: Seq<u64>) -> u64 {
    if s.len() == 0 {
        0
    } else {
        s.last()
    }
}

/// The stack with its top removed; popping an empty stack leaves it empty.
pub open spec fn stack_pop(s: Seq<u64>) -> Seq<u64> {
    if s.len() == 0 {
        s
    } else {
        s.drop_last()
    }
}

/// Arithmetic right shift of `b` within a logical width of `bits` bits: the
/// value is first shifted up so its `bits`-th bit occupies the machine sign
/// bit, then sign-extended down by the (wrapped) shift amount.
pub open spec fn sra_val(b: u64, a: u64, bits: u32) -> u64 {
    let v = b.wrapping_shl((64 - bits) as u32);
    let sh = (((a % 0x1_0000_0000) + 64 - bits) % 64) as u32;
    if v >= 0x8000_0000_0000_0000 {
        if sh == 0 {
            v
        } else {
            (v >> sh) | (u64::MAX << ((64 - sh) as u32))
        }
    } else {
        v >> sh
    }
}

/// The unmasked result of a binary operator on `b` (pushed first) and `a`
/// (top of stack).  Division by zero yields the sentinel 0xff; a remainder
/// with zero divisor yields the dividend; shift amounts wrap modulo 64.
pub open spec fn binop_val(op: Op, b: u64, a: u64, bits: u32) -> u64 {
    match op {
        Op::Add => b.wrapping_add(a),
        Op::Sub => b.wrapping_sub(a),
        Op::Mul => b.wrapping_mul(a),
        Op::Div => if a == 0 { 0xff } else { b / a },
        Op::Rem => if a == 0 { b } else { b % a },
        Op::And => b & a,
        Op::Or => b | a,
        Op::Xor => b ^ a,
        Op::Sll => b.wrapping_shl((a % 64) as u32),
        Op::Srl => b.wrapping_shr((a % 64) as u32),
        Op::Sra => sra_val(b, a, bits),
        _ => 0,
    }
}

/// One evaluation step: leaves push the (masked) value, unary operators pop
/// one operand, binary operators pop `a` then `b` and push `b OP a`, masked.
pub open spec fn calc_step(s: Seq<u64>, op: Op, x: u64, bits: u32) -> Seq<u64> {
    match op {
        Op::X => s.push(x & mask_of(bits)),
        Op::Imm(y) => s.push(y & mask_of(bits)),
        Op::Not => stack_pop(s).push((!stack_top(s)) & mask_of(bits)),
        Op::Neg => stack_pop(s).push(0u64.wrapping_sub(stack_top(s)) & mask_of(bits)),
        _ => {
            let a = stack_top(s);
            let s1 = stack_pop(s);
            let b = stack_top(s1);
            stack_pop(s1).push(binop_val(op, b, a, bits) & mask_of(bits))
        },
    }
}

/// The evaluation stack after running `ops` left to right, starting from a
/// stack holding only the masked input value.
pub open spec fn calc_stack(ops: Seq<Op>, x: u64, bits: u32) -> Seq<u64>
    decreases ops.len(),
{
    if ops.len() == 0 {
        seq![x & mask_of(bits)]
    } else {
        calc_step(calc_stack(ops.drop_last(), x, bits), ops.last(), x, bits)
    }
}

/// The value an expression evaluates to: the final top of stack.
pub open spec fn calc_value(ops: Seq<Op>, x: u64, bits: u32) -> u64 {
    stack_top(calc_stack(ops, x, bits))
}

/// Law: the evaluation stack is never empty and only holds values masked to
/// the configured width, so every expression evaluates to a value in
/// `[0, 2^bits - 1]` for every input.
pub proof fn lemma_calc_value_in_range(ops: Seq<Op>, x: u64, bits: u32)
    requires
        1 <= bits <= 64,
    ensures
        calc_stack(ops, x, bits).len() >= 1,
        forall|j: int|
            0 <= j < calc_stack(ops, x, bits).len() ==> #[trigger] calc_stack(ops, x, bits)[j]
                <= mask_of(bits),
        calc_value(ops, x, bits) <= mask_of(bits),
    decreases ops.len(),
{
    assert forall|v: u64, m: u64| #[trigger] (v & m) <= m by {
        assert(forall|v: u64, m: u64| #[trigger] (v & m) <= m) by (bit_vector);
    }
    if ops.len() == 0 {
    } else {
        lemma_calc_value_in_range(ops.drop_last(), x, bits);
        let prev = calc_stack(ops.drop_last(), x, bits);
        let cur = calc_stack(ops, x, bits);
        assert forall|j: int| 0 <= j < cur.len() implies #[trigger] cur[j] <= mask_of(bits) by {
            if j < cur.len() - 1 {
                assert(cur[j] == prev[j]);
            }
        }
    }
}

/// Law: a missing operand reads as zero.  The bare add expression pops the
/// seeded input and an absent second operand, so it returns the masked input
/// plus zero: zero, for every input whose masked value is zero.  (On other
/// inputs it returns the masked input itself, not zero, since the stack is
/// seeded with the input.)
pub proof fn lemma_missing_operand_is_zero(x: u64, bits: u32)
    requires
        1 <= bits <= 64,
        x & mask_of(bits) == 0,
    ensures
        calc_value(seq![Op::Add], x, bits) == 0,
{
    let ops = seq![Op::Add];
    assert(ops.drop_last() =~= Seq::<Op>::empty());
    assert(ops.last() == Op::Add);
    assert(calc_stack(Seq::<Op>::empty(), x, bits) == seq![x & mask_of(bits)]);
    assert(calc_stack(ops, x, bits) == calc_step(seq![x & mask_of(bits)], Op::Add, x, bits));
    let seeded = seq![x & mask_of(bits)];
    assert(stack_top(seeded) == 0);
    assert(stack_pop(seeded) =~= Seq::<u64>::empty());
    assert(0u64.wrapping_add(0u64) == 0);
    let mv = mask_of(bits);
    assert(0u64 & mv == 0) by (bit_vector);
    assert(calc_step(seeded, Op::Add, x, bits) == Seq::<u64>::empty().push(0u64));
}

impl Calc {
    /// Evaluate the expression on input `x`, with all intermediate results
    /// masked to `bits` bits.  The caller's stack is cleared and reused; on
    /// return it holds the final stack minus the returned top value.
    pub fn execute(&self, x: u64, bits: u32, stack: &mut Vec<u64>) -> (r: u64)
        requires
            1 <= bits <= 64,
        ensures
            r == calc_value(self.0@, x, bits),
            r <= mask_of(bits),
            final(stack)@ == stack_pop(calc_stack(self.0@, x, bits)),
    {
        stack.clear();
        let mask: u64 = if bits == 64 {
            u64::MAX
        } else {
            proof {
                assert(bits < 64 ==> 1u64 << bits >= 1) by (bit_vector);
            }
            (1u64 << bits) - 1
        };
        assert(mask == mask_of(bits));
        stack.push(x & mask);
        let n = self.0.len();
        for i in 0..n
            invariant
                n == self.0.len(),
                1 <= bits <= 64,
                mask == mask_of(bits),
                stack@ == calc_stack(self.0@.take(i as int), x, bits),
        {
            let op = self.0[i];
            let val: u64 = match op {
                Op::Add => {
                    let a = match stack.pop() { Some(v) => v, None => 0 };
                    let b = match stack.pop() { Some(v) => v, None => 0 };
                    b.wrapping_add(a)
                },
                Op::Sub => {
                    let a = match stack.pop() { Some(v) => v, None => 0 };
                    let b = match stack.pop() { Some(v) => v, None => 0 };
                    b.wrapping_sub(a)
                },
                Op::Mul => {
                    let a = match stack.pop() { Some(v) => v, None => 0 };
                    let b = match stack.pop() { Some(v) => v, None => 0 };
                    b.wrapping_mul(a)
                },
                Op::Div => {
                    let a = match stack.pop() { Some(v) => v, None => 0 };
                    let b = match stack.pop() { Some(v) => v, None => 0 };
                    match b.checked_div(a) { Some(v) => v, None => 0xff }
                },
                Op::Rem => {
                    let a = match stack.pop() { Some(v) => v, None => 0 };
                    let b = match stack.pop() { Some(v) => v, None => 0 };
                    match b.checked_rem(a) { Some(v) => v, None => b }
                },
                Op::And => {
                    let a = match stack.pop() { Some(v) => v, None => 0 };
                    let b = match stack.pop() { Some(v) => v, None => 0 };
                    b & a
                },
                Op::Or => {
                    let a = match stack.pop() { Some(v) => v, None => 0 };
                    let b = match stack.pop() { Some(v) => v, None => 0 };
                    b | a
                },
                Op::Xor => {
                    let a = match stack.pop() { Some(v) => v, None => 0 };
                    let b = match stack.pop() { Some(v) => v, None => 0 };
                    b ^ a
                },
                Op::Sll => {
                    let a = match stack.pop() { Some(v) => v, None => 0 };
                    let b = match stack.pop() { Some(v) => v, None => 0 };
                    b.wrapping_shl((a % 64) as u32)
                },
                Op::Srl => {
                    let a = match stack.pop() { Some(v) => v, None => 0 };
                    let b = match stack.pop() { Some(v) => v, None => 0 };
                    b.wrapping_shr((a % 64) as u32)
                },
                Op::Sra => {
                    let a = match stack.pop() { Some(v) => v, None => 0 };
                    let b = match stack.pop() { Some(v) => v, None => 0 };
                    let v: u64 = b.wrapping_shl(64 - bits);
                    let sh64: u64 = ((a % 0x1_0000_0000) + 64 - (bits as u64)) % 64;
                    let sh: u32 = sh64 as u32;
                    if v >= 0x8000_0000_0000_0000 {
                        if sh == 0 {
                            v
                        } else {
                            (v >> sh) | (u64::MAX << (64 - sh))
                        }
                    } else {
                        v >> sh
                    }
                },
                Op::Neg => {
                    let a = match stack.pop() { Some(v) => v, None => 0 };
                    0u64.wrapping_sub(a)
                },
                Op::Not => {
                    let a = match stack.pop() { Some(v) => v, None => 0 };
                    !a
                },
                Op::X => x,
                Op::Imm(y) => y,
            };
            stack.push(val & mask);
            proof {
                assert(self.0@.take(i + 1).drop_last() =~= self.0@.take(i as int));
                assert(self.0@.take(i + 1).last() == self.0@[i as int]);
            }
        }
        proof {
            assert(self.0@.take(n as int) =~= self.0@);
            lemma_calc_value_in_range(self.0@, x, bits);
        }
        match stack.pop() {
            Some(v) => v,
            None => 0,
        }
    }
}

/// Why an expression string was rejected.
#[derive(Clone, Copy, PartialEq, Eq, Structural, Debug)]
pub enum ParseError {
    /// A byte outside the expression alphabet; carries the offending byte.
    UnrecognizedChar(u8),
    /// A `<` or `>` that does not begin `<<`, `>>` or `>>>`.
    UnrecognizedShift,
    /// A digit run that is not a valid number in its base, or overflows.
    BadNumber,
}

pub open spec fn is_space_byte(c: u8) -> bool {
    c == 32 || c == 9 || c == 13 || c == 10
}

pub open spec fn is_digit_byte(c: u8) -> bool {
    48 <= c <= 57
}

pub open spec fn is_alnum_byte(c: u8) -> bool {
    is_digit_byte(c) || (65 <= c <= 90) || (97 <= c <= 122)
}

/// Length of the leading alphanumeric run: a number's digits end at the
/// first byte that is not a letter or digit.
pub open spec fn alnum_run(s: Seq<u8>) -> nat
    decreases s.len(),
{
    if s.len() == 0 || !is_alnum_byte(s[0]) {
        0
    } else {
        1 + alnum_run(s.drop_first())
    }
}

/// The value of one digit byte in the given base, if it is one.
pub open spec fn digit_in_base(c: u8, base: u64) -> Option<u64> {
    let v: u64 = if is_digit_byte(c) {
        (c - 48) as u64
    } else if 97 <= c <= 122 {
        (c - 97 + 10) as u64
    } else if 65 <= c <= 90 {
        (c - 65 + 10) as u64
    } else {
        64
    };
    if v < base {
        Some(v)
    } else {
        None
    }
}

/// Left fold of a digit run onto an accumulator; an out-of-base digit or a
/// value past `u64::MAX` has no result.
pub open spec fn number_from(digits: Seq<u8>, base: u64, acc: u64) -> Option<u64>
    decreases digits.len(),
{
    if digits.len() == 0 {
        Some(acc)
    } else {
        match digit_in_base(digits[0], base) {
            Option::None => Option::None,
            Option::Some(d) => if acc * base + d > u64::MAX {
                Option::None
            } else {
                number_from(digits.drop_first(), base, (acc * base + d) as u64)
            },
        }
    }
}

/// The numeric value of a digit run; an empty run has none.
pub open spec fn number_value(digits: Seq<u8>, base: u64) -> Option<u64> {
    if digits.len() == 0 {
        Option::None
    } else {
        number_from(digits, base, 0)
    }
}

/// The operator a single expression byte stands for, if any.
pub open spec fn single_op(c: u8) -> Option<Op> {
    if c == 43 {
        Some(Op::Add)
    } else if c == 45 {
        Some(Op::Sub)
    } else if c == 42 {
        Some(Op::Mul)
    } else if c == 47 {
        Some(Op::Div)
    } else if c == 37 {
        Some(Op::Rem)
    } else if c == 126 {
        Some(Op::Neg)
    } else if c == 38 {
        Some(Op::And)
    } else if c == 124 {
        Some(Op::Or)
    } else if c == 94 {
        Some(Op::Xor)
    } else if c == 33 {
        Some(Op::Not)
    } else if c == 120 {
        Some(Op::X)
    } else {
        Option::None
    }
}

/// What an expression string parses to.  Whitespace is skipped; a digit run
/// (optionally `0x`-prefixed) is an immediate; `<<`, `>>>` and `>>` are the
/// shifts, matched longest first; the remaining operators are single bytes.
pub open spec fn parse_spec(s: Seq<u8>) -> Result<Seq<Op>, ParseError>
    decreases s.len(),
        via parse_spec_decreases
{
    if s.len() == 0 {
        Ok(Seq::<Op>::empty())
    } else if is_space_byte(s[0]) {
        parse_spec(s.drop_first())
    } else if is_digit_byte(s[0]) {
        let hex = s.len() >= 2 && s[0] == 48 && s[1] == 120;
        let t = if hex { s.skip(2) } else { s };
        let base: u64 = if hex { 16 } else { 10 };
        let rl = alnum_run(t) as int;
        match number_value(t.take(rl), base) {
            Option::None => Err(ParseError::BadNumber),
            Option::Some(v) => match parse_spec(t.skip(rl)) {
                Ok(rest) => Ok(seq![Op::Imm(v)] + rest),
                Err(e) => Err(e),
            },
        }
    } else if s[0] == 60 || s[0] == 62 {
        if s.len() >= 2 && s[0] == 60 && s[1] == 60 {
            match parse_spec(s.skip(2)) {
                Ok(rest) => Ok(seq![Op::Sll] + rest),
                Err(e) => Err(e),
            }
        } else if s.len() >= 3 && s[0] == 62 && s[1] == 62 && s[2] == 62 {
            match parse_spec(s.skip(3)) {
                Ok(rest) => Ok(seq![Op::Sra] + rest),
                Err(e) => Err(e),
            }
        } else if s.len() >= 2 && s[0] == 62 && s[1] == 62 {
            match parse_spec(s.skip(2)) {
                Ok(rest) => Ok(seq![Op::Srl] + rest),
                Err(e) => Err(e),
            }
        } else {
            Err(ParseError::UnrecognizedShift)
        }
    } else {
        match single_op(s[0]) {
            Option::Some(op) => match parse_spec(s.drop_first()) {
                Ok(rest) => Ok(seq![op] + rest),
                Err(e) => Err(e),
            },
            Option::None => Err(ParseError::UnrecognizedChar(s[0])),
        }
    }
}

/// An alphanumeric run never reaches past the end of its string.
proof fn lemma_alnum_run_le_len(s: Seq<u8>)
    ensures
        alnum_run(s) <= s.len(),
    decreases s.len(),
{
    if s.len() == 0 || !is_alnum_byte(s[0]) {
    } else {
        lemma_alnum_run_le_len(s.drop_first());
    }
}

#[via_fn]
proof fn parse_spec_decreases(s: Seq<u8>) {
    if s.len() > 0 && !is_space_byte(s[0]) && is_digit_byte(s[0]) {
        let hex = s.len() >= 2 && s[0] == 48 && s[1] == 120;
        let t = if hex { s.skip(2) } else { s };
        lemma_alnum_run_le_len(t);
        if !hex {
            assert(alnum_run(s) == 1 + alnum_run(s.drop_first()));
        }
    }
}

/// The digit value of `c` in `base`, mirroring `digit_in_base`.
fn digit_value(c: u8, base: u64) -> (r: Option<u64>)
    ensures
        r == digit_in_base(c, base),
{
    let v: u64 = if 48 <= c && c <= 57 {
        (c - 48) as u64
    } else if 97 <= c && c <= 122 {
        (c - 97) as u64 + 10
    } else if 65 <= c && c <= 90 {
        (c - 65) as u64 + 10
    } else {
        64
    };
    if v < base {
        Some(v)
    } else {
        None
    }
}

/// Scan the alphanumeric run starting at `j` and fold it into a number;
/// returns the index just past the run and the run's value, if it has one.
fn scan_number(s: &[u8], j: usize, base: u64) -> (r: (usize, Option<u64>))
    requires
        j <= s@.len(),
        base == 10 || base == 16,
    ensures
        j <= r.0 <= s@.len(),
        r.0 - j == alnum_run(s@.skip(j as int)),
        r.1 == number_value(s@.skip(j as int).take(alnum_run(s@.skip(j as int)) as int), base),
{
    let n = s.len();
    let mut k = j;
    while k < n && ((48 <= s[k] && s[k] <= 57) || (65 <= s[k] && s[k] <= 90) || (97 <= s[k]
        && s[k] <= 122))
        invariant
            j <= k <= n,
            n == s@.len(),
            alnum_run(s@.skip(j as int)) == k - j + alnum_run(s@.skip(k as int)),
        decreases n - k,
    {
        proof {
            assert(s@.skip(k as int)[0] == s@[k as int]);
            assert(s@.skip(k as int).drop_first() =~= s@.skip(k + 1));
        }
        k = k + 1;
    }
    proof {
        if k < n {
            assert(s@.skip(k as int)[0] == s@[k as int]);
        }
        assert(alnum_run(s@.skip(k as int)) == 0);
    }
    let ghost run = s@.skip(j as int).take((k - j) as int);
    if k == j {
        proof {
            assert(run.len() == 0);
        }
        return (k, None);
    }
    let mut acc: u64 = 0;
    let mut p = j;
    proof {
        assert(run.skip(0) =~= run);
        assert(forall|m: int| 0 <= m < run.len() ==> run[m] == s@[j + m]);
    }
    while p < k
        invariant
            j <= p <= k <= n,
            n == s@.len(),
            base == 10 || base == 16,
            alnum_run(s@.skip(j as int)) == k - j,
            run == s@.skip(j as int).take((k - j) as int),
            run.len() == k - j,
            number_from(run.skip((p - j) as int), base, acc) == number_from(run, base, 0),
            forall|m: int| 0 <= m < run.len() ==> run[m] == s@[j + m],
        decreases k - p,
    {
        let ghost rem = run.skip((p - j) as int);
        proof {
            assert(rem[0] == run[(p - j) as int]);
            assert(rem.drop_first() =~= run.skip((p - j) + 1));
        }
        let d = match digit_value(s[p], base) {
            Some(d) => d,
            None => {
                proof {
                    assert(number_from(run, base, 0) is None);
                }
                return (k, None);
            },
        };
        let m = match acc.checked_mul(base) {
            Some(m) => m,
            None => {
                proof {
                    assert(acc * base + d > u64::MAX);
                    assert(number_from(run, base, 0) is None);
                }
                return (k, None);
            },
        };
        acc = match m.checked_add(d) {
            Some(v) => v,
            None => {
                proof {
                    assert(number_from(run, base, 0) is None);
                }
                return (k, None);
            },
        };
        p = p + 1;
    }
    proof {
        assert(run.skip((p - j) as int) =~= Seq::<u8>::empty());
        assert(number_from(run, base, 0) == Some(acc));
    }
    (k, Some(acc))
}

impl Calc {
    /// Parse an expression string (as bytes) into a `Calc`, exactly as
    /// `parse_spec` reads it; errors identify the offending token.
    #[verifier::rlimit(50)]
    pub fn parse(s: &[u8]) -> (r: Result<Calc, ParseError>)
        ensures
            match r {
                Ok(c) => parse_spec(s@) == Ok::<Seq<Op>, ParseError>(c.0@),
                Err(e) => parse_spec(s@) == Err::<Seq<Op>, ParseError>(e),
            },
    {
        let n = s.len();
        let mut ops: Vec<Op> = Vec::new();
        let mut i: usize = 0;
        proof {
            assert(s@.skip(0) =~= s@);
            assert(ops@ + parse_spec(s@)->Ok_0 =~= parse_spec(s@)->Ok_0);
        }
        while i < n
            invariant
                i <= n,
                n == s@.len(),
                match parse_spec(s@.skip(i as int)) {
                    Ok(rest) => parse_spec(s@) == Ok::<Seq<Op>, ParseError>(ops@ + rest),
                    Err(e) => parse_spec(s@) == Err::<Seq<Op>, ParseError>(e),
                },
            decreases n - i,
        {
            let ghost pre = s@.skip(i as int);
            proof {
                assert(pre[0] == s@[i as int]);
            }
            let c = s[i];
            if c == 32 || c == 9 || c == 13 || c == 10 {
                proof {
                    assert(pre.drop_first() =~= s@.skip(i + 1));
                }
                i = i + 1;
            } else if 48 <= c && c <= 57 {
                let hex = c == 48 && i + 1 < n && s[i + 1] == 120;
                let base: u64 = if hex { 16 } else { 10 };
                let j = if hex { i + 2 } else { i };
                let ghost t = if hex { pre.skip(2) } else { pre };
                proof {
                    if i + 1 < n {
                        assert(pre[1] == s@[i + 1]);
                    }
                    assert(t =~= s@.skip(j as int));
                }
                let (k, val) = scan_number(s, j, base);
                let acc = match val {
                    Some(v) => v,
                    None => {
                        return Err(ParseError::BadNumber);
                    },
                };
                proof {
                    assert(s@.skip(j as int).skip((k - j) as int) =~= s@.skip(k as int));
                }
                let ghost ops0 = ops@;
                ops.push(Op::Imm(acc));
                proof {
                    let rest_spec = parse_spec(s@.skip(k as int));
                    match rest_spec {
                        Ok(rest) => {
                            assert(parse_spec(pre) == Ok::<Seq<Op>, ParseError>(
                                seq![Op::Imm(acc)] + rest,
                            ));
                            assert(ops@ + rest =~= ops0 + (seq![Op::Imm(acc)] + rest));
                        },
                        Err(_) => {},
                    }
                }
                i = k;
            } else if c == 60 || c == 62 {
                if c == 60 && i + 1 < n && s[i + 1] == 60 {
                    proof {
                        assert(pre[1] == s@[i + 1]);
                        assert(pre.skip(2) =~= s@.skip(i + 2));
                    }
                    let ghost ops0 = ops@;
                    ops.push(Op::Sll);
                    proof {
                        match parse_spec(s@.skip(i + 2)) {
                            Ok(rest) => {
                                assert(ops@ + rest =~= ops0 + (seq![Op::Sll] + rest));
                            },
                            Err(_) => {},
                        }
                    }
                    i = i + 2;
                } else if c == 62 && i + 1 < n && s[i + 1] == 62 && i + 2 < n && s[i + 2] == 62 {
                    proof {
                        assert(pre[1] == s@[i + 1]);
                        assert(pre[2] == s@[i + 2]);
                        assert(pre.skip(3) =~= s@.skip(i + 3));
                    }
                    let ghost ops0 = ops@;
                    ops.push(Op::Sra);
                    proof {
                        match parse_spec(s@.skip(i + 3)) {
                            Ok(rest) => {
                                assert(ops@ + rest =~= ops0 + (seq![Op::Sra] + rest));
                            },
                            Err(_) => {},
                        }
                    }
                    i = i + 3;
                } else if c == 62 && i + 1 < n && s[i + 1] == 62 {
                    proof {
                        assert(pre[1] == s@[i + 1]);
                        if i + 2 < n {
                            assert(pre[2] == s@[i + 2]);
                        }
                        assert(pre.skip(2) =~= s@.skip(i + 2));
                    }
                    let ghost ops0 = ops@;
                    ops.push(Op::Srl);
                    proof {
                        match parse_spec(s@.skip(i + 2)) {
                            Ok(rest) => {
                                assert(ops@ + rest =~= ops0 + (seq![Op::Srl] + rest));
                            },
                            Err(_) => {},
                        }
                    }
                    i = i + 2;
                } else {
                    proof {
                        if i + 1 < n {
                            assert(pre[1] == s@[i + 1]);
                        }
                        if i + 2 < n {
                            assert(pre[2] == s@[i + 2]);
                        }
                    }
                    return Err(ParseError::UnrecognizedShift);
                }
            } else {
                let op = if c == 43 {
                    Op::Add
                } else if c == 45 {
                    Op::Sub
                } else if c == 42 {
                    Op::Mul
                } else if c == 47 {
                    Op::Div
                } else if c == 37 {
                    Op::Rem
                } else if c == 126 {
                    Op::Neg
                } else if c == 38 {
                    Op::And
                } else if c == 124 {
                    Op::Or
                } else if c == 94 {
                    Op::Xor
                } else if c == 33 {
                    Op::Not
                } else if c == 120 {
                    Op::X
                } else {
                    return Err(ParseError::UnrecognizedChar(c));
                };
                proof {
                    assert(pre.drop_first() =~= s@.skip(i + 1));
                }
                let ghost ops0 = ops@;
                ops.push(op);
                proof {
                    match parse_spec(s@.skip(i + 1)) {
                        Ok(rest) => {
                            assert(ops@ + rest =~= ops0 + (seq![op] + rest));
                        },
                        Err(_) => {},
                    }
                }
                i = i + 1;
            }
        }
        proof {
            assert(s@.skip(n as int) =~= Seq::<u8>::empty());
            assert(ops@ + Seq::<Op>::empty() =~= ops@);
        }
        Ok(Calc(ops))
    }
}

impl Default for Calc {
    /// The default expression is empty: evaluation returns the masked input.
    fn default() -> (r: Calc)
        ensures
            r.0@ == Seq::<Op>::empty(),
    {
        Calc(Vec::new())
    }
}

} // verus!
