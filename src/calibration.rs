//! Calibration operators: adding, multiplying and concatenating decimal numbers
//! onto a running value, their inverses, and every assignment of operators to a
//! list of operands.
use vstd::prelude::*;
use vstd::arithmetic::div_mod::lemma_div_denominator;
use crate::grid::rows_of;
use crate::number::{unsigned, parse_unsigned, parse_all};
use crate::text::{chars_of, find_char, index_of, split_words, words_of};

verus! {

/// An operator together with its right-hand operand.
#[derive(Debug, Clone, Copy, PartialEq, Eq, Structural)]
pub enum Operation {
    Add(u64),
    Multiply(u64),
    Concat(u64),
}

/// `b` raised to the power `e`.
pub open spec fn power(b: int, e: nat) -> int
    decreases e,
{
    if e == 0 {
        1
    } else {
        b * power(b, (e - 1) as nat)
    }
}

/// The number of decimal digits of `x`; zero has one digit.
pub open spec fn digit_count(x: nat) -> nat
    decreases x,
{
    if x < 10 {
        1
    } else {
        1 + digit_count(x / 10)
    }
}

/// `acc` with the decimal digits of `x` written after it.
pub open spec fn concat_value(acc: nat, x: nat) -> nat {
    (acc * (power(10, digit_count(x)) as nat) + x) as nat
}

/// The value an operation produces from the running value `acc`.
pub open spec fn resolve_value(op: Operation, acc: nat) -> nat {
    match op {
        Operation::Add(x) => acc + x as nat,
        Operation::Multiply(x) => acc * x as nat,
        Operation::Concat(x) => concat_value(acc, x as nat),
    }
}

/// The value an operation came from, given what it produced.
pub open spec fn undo_value(op: Operation, val: nat) -> int {
    match op {
        Operation::Add(x) => val - x,
        Operation::Multiply(x) => val as int / x as int,
        Operation::Concat(x) => val as int / power(10, digit_count(x as nat)),
    }
}

/// The operator written for base-`base` digit `d` of a combination number:
/// 0 adds, 1 multiplies, 2 concatenates.
pub open spec fn operation_for(d: int, x: u64) -> Operation {
    if d == 0 {
        Operation::Add(x)
    } else if d == 1 {
        Operation::Multiply(x)
    } else {
        Operation::Concat(x)
    }
}

/// Combination number `i` over `operands`: operand `j` takes the operator of the
/// `j`-th base-`base` digit of `i`, least significant first.
pub open spec fn combination(operands: Seq<u64>, base: nat, i: nat) -> Seq<Operation> {
    Seq::new(operands.len(), |j: int| operation_for((i as int / power(base as int, j as nat)) % base as int, operands[j]))
}

/// Every combination, numbered `0 .. base^n`.
pub open spec fn combinations(operands: Seq<u64>, base: nat) -> Seq<Seq<Operation>> {
    Seq::new(power(base as int, operands.len()) as nat, |i: int| combination(operands, base, i as nat))
}

proof fn lemma_pow_positive(b: int, e: nat)
    requires
        b > 0,
    ensures
        power(b, e) > 0,
    decreases e,
{
    if e > 0 {
        lemma_pow_positive(b, (e - 1) as nat);
        assert(b * power(b, (e - 1) as nat) > 0) by (nonlinear_arith)
            requires
                b > 0,
                power(b, (e - 1) as nat) > 0,
        ;
    }
}

/// `10^digit_count(x)`, computed without overflow.
fn digit_scale(x: u64) -> (r: u128)
    ensures
        r as int == power(10, digit_count(x as nat)),
        r as int <= 10 * (x as int) + 10,
{
    let mut n: u64 = x;
    let mut p: u128 = 10;
    let ghost mut k: nat = 0;
    while n >= 10
        invariant
            digit_count(x as nat) == digit_count(n as nat) + k,
            p as int == 10 * power(10, k),
            (n as int) * power(10, k) <= x as int,
            k == 0 || n >= 1,
            k == 0 ==> n == x,
        decreases n,
    {
        proof {
            assert(power(10, k + 1) == 10 * power(10, k));
            lemma_pow_positive(10, k);
            assert((n as int / 10) * (10 * power(10, k)) <= (n as int) * power(10, k)) by (nonlinear_arith)
                requires
                    n >= 10,
                    power(10, k) > 0,
            ;
            assert(10 * power(10, k) <= (n as int) * power(10, k)) by (nonlinear_arith)
                requires
                    n >= 10,
                    power(10, k) > 0,
            ;
        }
        n = n / 10;
        p = p * 10;
        proof {
            k = k + 1;
        }
    }
    proof {
        lemma_pow_positive(10, k);
        if k > 0 {
            assert(power(10, k) <= (x as int) + 1) by (nonlinear_arith)
                requires
                    (n as int) * power(10, k) <= x as int,
                    n >= 1,
                    power(10, k) > 0,
            ;
        }
        assert(power(10, k + 1) == 10 * power(10, k));
    }
    p
}

impl Operation {
    /// Applies the operation to the running value `acc`.
    pub fn resolve(&self, acc: u64) -> (r: u64)
        requires
            resolve_value(*self, acc as nat) <= u64::MAX,
        ensures
            r == resolve_value(*self, acc as nat),
    {
        match *self {
            Operation::Add(x) => acc + x,
            Operation::Multiply(x) => acc * x,
            Operation::Concat(x) => {
                let scale = digit_scale(x);
                proof {
                    lemma_pow_positive(10, digit_count(x as nat));
                    assert((acc as int) * (scale as int) <= u64::MAX) by (nonlinear_arith)
                        requires
                            (acc as int) * (scale as int) + x <= u64::MAX,
                            x >= 0,
                    ;
                }
                ((acc as u128) * scale + (x as u128)) as u64
            },
        }
    }
}

/// An operation paired with the value it produced, to be undone.
#[derive(Debug, Clone, Copy, PartialEq, Eq, Structural)]
pub struct UndoOperation {
    pub operation: Operation,
    pub val: u64,
}

impl UndoOperation {
    /// The running value before the operation: subtracts an addend, divides by a
    /// factor, drops the concatenated digits.
    pub fn undo(self) -> (r: u64)
        requires
            self.operation matches Operation::Add(x) ==> x <= self.val,
            self.operation matches Operation::Multiply(x) ==> x != 0,
        ensures
            r == undo_value(self.operation, self.val as nat),
    {
        match self.operation {
            Operation::Add(x) => self.val - x,
            Operation::Multiply(x) => self.val / x,
            Operation::Concat(x) => {
                let scale = digit_scale(x);
                proof {
                    lemma_pow_positive(10, digit_count(x as nat));
                }
                ((self.val as u128) / scale) as u64
            },
        }
    }
}

proof fn lemma_power_mono(b: int, e1: nat, e2: nat)
    requires
        b >= 1,
        e1 <= e2,
    ensures
        power(b, e1) <= power(b, e2),
    decreases e2,
{
    if e1 < e2 {
        lemma_power_mono(b, e1, (e2 - 1) as nat);
        lemma_pow_positive(b, (e2 - 1) as nat);
        assert(power(b, (e2 - 1) as nat) <= b * power(b, (e2 - 1) as nat)) by (nonlinear_arith)
            requires
                b >= 1,
                power(b, (e2 - 1) as nat) > 0,
        ;
    }
}

proof fn lemma_power_two_bound()
    ensures
        power(2, 63) < u64::MAX,
{
    reveal_with_fuel(power, 64);
}

proof fn lemma_power_three_bound()
    ensures
        power(3, 40) < u64::MAX,
{
    reveal_with_fuel(power, 41);
}

/// Every combination of operators over `operands`, numbered by their base-`base`
/// digits.
fn all_combinations(operands: &Vec<u64>, base: u64) -> (r: Vec<Vec<Operation>>)
    requires
        2 <= base <= 3,
        power(base as int, operands@.len()) <= u64::MAX,
    ensures
        rows_of(r@) == combinations(operands@, base as nat),
{
    let n = operands.len();
    let mut total: u64 = 1;
    let mut e: usize = 0;
    while e < n
        invariant
            2 <= base <= 3,
            n == operands@.len(),
            power(base as int, n as nat) <= u64::MAX,
            e <= n,
            total as int == power(base as int, e as nat),
        decreases n - e,
    {
        proof {
            lemma_power_mono(base as int, (e + 1) as nat, n as nat);
            assert(power(base as int, (e + 1) as nat) == base * power(base as int, e as nat));
            assert(total * base == base * total) by (nonlinear_arith);
        }
        total = total * base;
        e += 1;
    }
    let ghost want = combinations(operands@, base as nat);
    let mut result: Vec<Vec<Operation>> = Vec::new();
    let mut i: u64 = 0;
    while i < total
        invariant
            2 <= base <= 3,
            n == operands@.len(),
            total as int == power(base as int, n as nat),
            want == combinations(operands@, base as nat),
            i <= total,
            rows_of(result@) == want.take(i as int),
        decreases total - i,
    {
        let mut combination_ops: Vec<Operation> = Vec::new();
        let mut rest: u64 = i;
        let mut j: usize = 0;
        while j < n
            invariant
                2 <= base <= 3,
                n == operands@.len(),
                want == combinations(operands@, base as nat),
                i < total,
                total as int == power(base as int, n as nat),
                j <= n,
                rest as int == i as int / power(base as int, j as nat),
                combination_ops@ == want[i as int].take(j as int),
            decreases n - j,
        {
            let digit = rest % base;
            let op = if digit == 0 {
                Operation::Add(operands[j])
            } else if digit == 1 {
                Operation::Multiply(operands[j])
            } else {
                Operation::Concat(operands[j])
            };
            combination_ops.push(op);
            proof {
                lemma_pow_positive(base as int, j as nat);
                lemma_div_denominator(i as int, power(base as int, j as nat), base as int);
                assert(power(base as int, (j + 1) as nat) == base * power(base as int, j as nat));
            }
            rest = rest / base;
            j += 1;
            assert(combination_ops@ =~= want[i as int].take(j as int));
        }
        assert(combination_ops@ =~= want[i as int]);
        let ghost prev = result@;
        result.push(combination_ops);
        i += 1;
        assert(rows_of(result@) =~= want.take(i as int)) by {
            assert(rows_of(result@) =~= rows_of(prev).push(combination_ops@));
        }
    }
    assert(rows_of(result@) =~= want);
    result
}

/// Every assignment of addition or multiplication to the operands: combination
/// `i` multiplies by operand `j` exactly when bit `j` of `i` is set.
pub fn generate_possible_combinations(operands: Vec<u64>) -> (r: Vec<Vec<Operation>>)
    requires
        operands@.len() < 64,
    ensures
        rows_of(r@) == combinations(operands@, 2),
{
    proof {
        lemma_power_mono(2, operands@.len(), 63);
        lemma_power_two_bound();
    }
    all_combinations(&operands, 2)
}

/// Every assignment of addition, multiplication or concatenation to the operands:
/// combination `i` gives operand `j` the operator of the `j`-th base-3 digit of `i`.
pub fn generate_possible_combinations_with_concat(operands: Vec<u64>) -> (r: Vec<Vec<Operation>>)
    requires
        operands@.len() <= 40,
    ensures
        rows_of(r@) == combinations(operands@, 3),
{
    proof {
        lemma_power_mono(3, operands@.len(), 40);
        lemma_power_three_bound();
    }
    all_combinations(&operands, 3)
}

/// The running value after applying `ops` in order from `acc`, or `None` as soon
/// as a step leaves the range of `u64`.
pub open spec fn evaluation(acc: nat, ops: Seq<Operation>) -> Option<nat>
    decreases ops.len(),
{
    if ops.len() == 0 {
        Some(acc)
    } else {
        let v = resolve_value(ops[0], acc);
        if v > u64::MAX {
            None
        } else {
            evaluation(v, ops.drop_first())
        }
    }
}

proof fn lemma_below_scale(x: nat)
    ensures
        x < power(10, digit_count(x)),
    decreases x,
{
    if x >= 10 {
        lemma_below_scale(x / 10);
        assert(power(10, digit_count(x)) == 10 * power(10, digit_count(x / 10)));
    } else {
        assert(power(10, 0) == 1);
        assert(power(10, 1) == 10 * power(10, 0));
    }
}

/// Undoing an operation gives back the running value it was applied to: an addend
/// is subtracted, a non-zero factor divided out, concatenated digits dropped.
pub proof fn lemma_undo_resolve(op: Operation, acc: nat)
    requires
        op matches Operation::Multiply(x) ==> x != 0,
    ensures
        undo_value(op, resolve_value(op, acc)) == acc,
{
    match op {
        Operation::Add(x) => {},
        Operation::Multiply(x) => {
            assert((acc * x) / (x as int) == acc) by (nonlinear_arith)
                requires
                    x > 0,
            ;
        },
        Operation::Concat(x) => {
            let scale = power(10, digit_count(x as nat));
            lemma_below_scale(x as nat);
            lemma_pow_positive(10, digit_count(x as nat));
            assert((acc * scale + x) / scale == acc) by (nonlinear_arith)
                requires
                    scale > 0,
                    0 <= x < scale,
            ;
        },
    }
}

/// Applies one operation, or `None` when the result does not fit in a `u64`.
fn checked_resolve(op: Operation, acc: u64) -> (r: Option<u64>)
    ensures
        r == if resolve_value(op, acc as nat) <= u64::MAX {
            Some(resolve_value(op, acc as nat) as u64)
        } else {
            None::<u64>
        },
{
    match op {
        Operation::Add(x) => {
            if acc > u64::MAX - x {
                None
            } else {
                Some(op.resolve(acc))
            }
        },
        Operation::Multiply(x) => {
            if x != 0 && acc > u64::MAX / x {
                proof {
                    assert((acc as int) * (x as int) > u64::MAX) by (nonlinear_arith)
                        requires
                            x > 0,
                            acc > u64::MAX / x,
                    ;
                }
                None
            } else {
                proof {
                    if x != 0 {
                        assert((acc as int) * (x as int) <= u64::MAX) by (nonlinear_arith)
                            requires
                                x > 0,
                                acc <= u64::MAX / x,
                        ;
                    }
                }
                Some(op.resolve(acc))
            }
        },
        Operation::Concat(x) => {
            let scale = digit_scale(x);
            proof {
                lemma_pow_positive(10, digit_count(x as nat));
            }
            let room = ((u64::MAX - x) as u128) / scale;
            if (acc as u128) > room {
                proof {
                    assert((acc as int) * (scale as int) + x > u64::MAX) by (nonlinear_arith)
                        requires
                            scale > 0,
                            acc > room,
                            room == (u64::MAX - x) / (scale as int),
                    ;
                }
                None
            } else {
                proof {
                    assert((acc as int) * (scale as int) + x <= u64::MAX) by (nonlinear_arith)
                        requires
                            scale > 0,
                            acc <= room,
                            room == (u64::MAX - x) / (scale as int),
                            x <= u64::MAX,
                    ;
                }
                Some(op.resolve(acc))
            }
        },
    }
}

/// Applies the operations in order, starting from `first`; `None` when a step
/// overflows.
pub fn evaluate(first: u64, operations: &Vec<Operation>) -> (r: Option<u64>)
    ensures
        r == match evaluation(first as nat, operations@) {
            Some(v) => Some(v as u64),
            None => None::<u64>,
        },
        r matches Some(v) ==> evaluation(first as nat, operations@) == Some(v as nat),
{
    let mut acc = first;
    let mut i: usize = 0;
    assert(operations@.subrange(0, operations@.len() as int) =~= operations@);
    while i < operations.len()
        invariant
            i <= operations@.len(),
            evaluation(first as nat, operations@) == evaluation(acc as nat, operations@.subrange(i as int, operations@.len() as int)),
        decreases operations@.len() - i,
    {
        let ghost rest = operations@.subrange(i as int, operations@.len() as int);
        assert(rest.drop_first() =~= operations@.subrange(i + 1, operations@.len() as int));
        assert(rest[0] == operations@[i as int]);
        match checked_resolve(operations[i], acc) {
            Some(v) => acc = v,
            None => return None,
        }
        i += 1;
    }
    assert(operations@.subrange(i as int, operations@.len() as int) =~= Seq::<Operation>::empty());
    Some(acc)
}

/// Three operators with concatenation, two without.
pub open spec fn operator_base(concat: bool) -> nat {
    if concat {
        3
    } else {
        2
    }
}

/// Whether some combination of operators takes `first` through the operands to
/// exactly `target`.
pub open spec fn reaches_target(target: nat, first: nat, operands: Seq<u64>, base: nat) -> bool {
    exists|i: int| 0 <= i < combinations(operands, base).len()
        && #[trigger] evaluation(first, combinations(operands, base)[i]) == Some(target)
}

/// Whether some assignment of operators (adding and multiplying, and with `concat`
/// also concatenating) takes `first` through `operands` to exactly `target`.
pub fn equation_holds(target: u64, first: u64, operands: Vec<u64>, concat: bool) -> (r: bool)
    requires
        operands@.len() <= 40,
    ensures
        r == reaches_target(target as nat, first as nat, operands@, operator_base(concat)),
{
    let ghost want = combinations(operands@, operator_base(concat));
    let all = if concat {
        generate_possible_combinations_with_concat(operands)
    } else {
        generate_possible_combinations(operands)
    };
    let mut i: usize = 0;
    while i < all.len()
        invariant
            rows_of(all@) == want,
            i <= all@.len(),
            want == combinations(operands@, operator_base(concat)),
            forall|j: int| 0 <= j < i ==> #[trigger] evaluation(first as nat, want[j]) != Some(target as nat),
        decreases all@.len() - i,
    {
        assert(want[i as int] == all@[i as int]@);
        match evaluate(first, &all[i]) {
            Some(v) => {
                if v == target {
                    return true;
                }
            },
            None => {},
        }
        i += 1;
    }
    false
}

/// The target and operands of an equation line `target: a b c ...`.
pub open spec fn equation_of(line: Seq<char>) -> Option<(nat, Seq<nat>)> {
    let c = index_of(line, ':', 0);
    if c < 0 {
        None
    } else {
        let words = words_of(line.subrange(c + 1, line.len() as int));
        match unsigned(line.subrange(0, c), u64::MAX as nat) {
            Some(t) => if forall|i: int| 0 <= i < words.len() ==> (#[trigger] unsigned(words[i], u64::MAX as nat)).is_some() {
                Some((t, words.map_values(|w: Seq<char>| unsigned(w, u64::MAX as nat).unwrap())))
            } else {
                None
            },
            None => None,
        }
    }
}

/// Reads an equation line `target: a b c ...`.
pub fn parse_equation(line: &str) -> (r: Option<(u64, Vec<u64>)>)
    ensures
        match r {
            Some((t, operands)) => equation_of(line@) == Some((t as nat, operands@.map_values(|v: u64| v as nat))),
            None => equation_of(line@).is_none(),
        },
{
    let chars = chars_of(line);
    let colon = find_char(&chars, ':', 0);
    if colon == chars.len() {
        return None;
    }
    let target = match parse_unsigned(&chars, 0, colon, u64::MAX) {
        Some(t) => t,
        None => return None,
    };
    let mut rest: Vec<char> = Vec::new();
    let mut i: usize = colon + 1;
    while i < chars.len()
        invariant
            colon < chars@.len(),
            colon + 1 <= i <= chars@.len(),
            rest@ == chars@.subrange(colon + 1, i as int),
        decreases chars@.len() - i,
    {
        rest.push(chars[i]);
        i += 1;
        assert(rest@ =~= chars@.subrange(colon + 1, i as int));
    }
    let words = split_words(&rest);
    let ghost w = words_of(line@.subrange(colon + 1, line@.len() as int));
    assert(rows_of(words@) == w);
    match parse_all(&words, u64::MAX) {
        Some(values) => {
            assert(values@.map_values(|v: u64| v as nat) =~= w.map_values(|x: Seq<char>| unsigned(x, u64::MAX as nat).unwrap()));
            Some((target, values))
        },
        None => None,
    }
}

} // verus!
