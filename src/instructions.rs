//! Corrupted multiplication programs: the text splits at every `mul(`, each piece
//! may open with `a,b)`, and `do()` / `don't()` switch multiplication on and off.
use vstd::prelude::*;
use crate::number::{unsigned, parse_unsigned};
use crate::text::{chars_of, find_char, index_of};

verus! {

/// Whether `p` occurs in `s` starting at index `i`.
pub open spec fn occurs_at(s: Seq<char>, p: Seq<char>, i: int) -> bool {
    0 <= i && i + p.len() <= s.len() && s.subrange(i, i + p.len()) == p
}

/// The first index at or after `i` where `p` occurs in `s`, or -1.
pub open spec fn find_from(s: Seq<char>, p: Seq<char>, i: int) -> int
    decreases s.len() - i,
{
    if i < 0 || i >= s.len() {
        -1
    } else if occurs_at(s, p, i) {
        i
    } else {
        find_from(s, p, i + 1)
    }
}

/// The last index before `i` where `p` occurs in `s`, or -1.
pub open spec fn find_back(s: Seq<char>, p: Seq<char>, i: int) -> int
    decreases i,
{
    if i <= 0 {
        -1
    } else if occurs_at(s, p, i - 1) {
        i - 1
    } else {
        find_back(s, p, i - 1)
    }
}

/// The pieces of `s` from index `start` on, split at each non-overlapping
/// occurrence of `p`, read left to right.
pub open spec fn split_pattern(s: Seq<char>, p: Seq<char>, start: int) -> Seq<Seq<char>>
    recommends
        p.len() > 0,
        0 <= start <= s.len(),
    decreases s.len() - start,
{
    let k = find_from(s, p, start);
    if start < 0 || start > s.len() {
        seq![Seq::<char>::empty()]
    } else if k < start || k + p.len() > s.len() || p.len() == 0 {
        seq![s.subrange(start, s.len() as int)]
    } else {
        seq![s.subrange(start, k)] + split_pattern(s, p, k + p.len())
    }
}

pub open spec fn mul_open() -> Seq<char> {
    seq!['m', 'u', 'l', '(']
}

pub open spec fn do_call() -> Seq<char> {
    seq!['d', 'o', '(', ')']
}

pub open spec fn dont_call() -> Seq<char> {
    seq!['d', 'o', 'n', '\'', 't', '(', ')']
}

/// Whether `p` occurs in `chars` at index `i`.
fn matches_at(chars: &Vec<char>, p: &Vec<char>, i: usize) -> (r: bool)
    ensures
        r == occurs_at(chars@, p@, i as int),
{
    if i > chars.len() || p.len() > chars.len() - i {
        return false;
    }
    let mut k: usize = 0;
    while k < p.len()
        invariant
            i + p.len() <= chars.len(),
            k <= p.len(),
            forall|j: int| 0 <= j < k ==> chars@[i + j] == p@[j],
        decreases p.len() - k,
    {
        if chars[i + k] != p[k] {
            assert(chars@.subrange(i as int, i + p.len())[k as int] != p@[k as int]);
            return false;
        }
        k += 1;
    }
    assert(chars@.subrange(i as int, i + p.len()) =~= p@);
    true
}

proof fn lemma_find_from_skip(s: Seq<char>, p: Seq<char>, a: int, b: int)
    requires
        0 <= a <= b <= s.len(),
        forall|j: int| a <= j < b ==> !#[trigger] occurs_at(s, p, j),
    ensures
        find_from(s, p, a) == find_from(s, p, b),
    decreases b - a,
{
    if a < b {
        lemma_find_from_skip(s, p, a + 1, b);
    }
}

/// Splits the program at every `mul(`.
pub fn split_input<'a>(input: &'a str) -> (r: Vec<&'a str>)
    ensures
        r@.map_values(|piece: &str| piece@) == split_pattern(input@, mul_open(), 0),
{
    let chars = chars_of(input);
    let pattern: Vec<char> = vec!['m', 'u', 'l', '('];
    assert(pattern@ =~= mul_open());
    let ghost s = input@;
    let ghost p = mul_open();
    let mut pieces: Vec<&'a str> = Vec::new();
    let mut start: usize = 0;
    let mut i: usize = 0;
    while i < chars.len()
        invariant
            chars@ == s,
            s == input@,
            pattern@ == p,
            p == mul_open(),
            start <= i <= s.len(),
            forall|j: int| start <= j < i ==> !#[trigger] occurs_at(s, p, j),
            pieces@.map_values(|piece: &str| piece@) + split_pattern(s, p, start as int) == split_pattern(s, p, 0),
        decreases s.len() - i,
    {
        if matches_at(&chars, &pattern, i) {
            proof {
                lemma_find_from_skip(s, p, start as int, i as int);
            }
            let piece = input.substring_char(start, i);
            let ghost before = pieces@;
            pieces.push(piece);
            assert(pieces@.map_values(|piece: &str| piece@) =~= before.map_values(|piece: &str| piece@).push(
                s.subrange(start as int, i as int),
            ));
            start = i + 4;
            i = i + 4;
        } else {
            i += 1;
        }
    }
    proof {
        lemma_find_from_skip(s, p, start as int, s.len() as int);
    }
    let piece = input.substring_char(start, chars.len());
    let ghost before = pieces@;
    pieces.push(piece);
    assert(pieces@.map_values(|piece: &str| piece@) =~= before.map_values(|piece: &str| piece@).push(
        s.subrange(start as int, s.len() as int),
    ));
    pieces
}

/// Whether multiplication is on after a piece: the later of its last `do()` and
/// last `don't()` decides, and a piece with neither keeps the state `prev`.
pub open spec fn enabled_after(s: Seq<char>, prev: bool) -> bool {
    let d = find_back(s, do_call(), s.len() as int);
    let n = find_back(s, dont_call(), s.len() as int);
    if d >= 0 && n >= 0 {
        d > n
    } else if n >= 0 {
        false
    } else if d >= 0 {
        true
    } else {
        prev
    }
}

/// The last index where `p` occurs in `chars`, or -1.
fn last_occurrence(chars: &Vec<char>, p: &Vec<char>) -> (r: Option<usize>)
    ensures
        find_back(chars@, p@, chars@.len() as int) == match r {
            Some(i) => i as int,
            None => -1,
        },
{
    let mut i: usize = chars.len();
    while i > 0
        invariant
            i <= chars@.len(),
            forall|j: int| i <= j < chars@.len() ==> !#[trigger] occurs_at(chars@, p@, j),
            find_back(chars@, p@, chars@.len() as int) == find_back(chars@, p@, i as int),
        decreases i,
    {
        if matches_at(chars, p, i - 1) {
            return Some(i - 1);
        }
        i -= 1;
    }
    None
}

/// Whether multiplication is on after `input`, given that it was `prev` before.
pub fn enabled(input: &str, prev: bool) -> (r: bool)
    ensures
        r == enabled_after(input@, prev),
{
    let chars = chars_of(input);
    let do_pattern: Vec<char> = vec!['d', 'o', '(', ')'];
    let dont_pattern: Vec<char> = vec!['d', 'o', 'n', '\'', 't', '(', ')'];
    assert(do_pattern@ =~= do_call());
    assert(dont_pattern@ =~= dont_call());
    let do_idx = last_occurrence(&chars, &do_pattern);
    let dont_idx = last_occurrence(&chars, &dont_pattern);
    match (do_idx, dont_idx) {
        (Some(d), Some(n)) => d > n,
        (None, Some(_)) => false,
        (Some(_), None) => true,
        (None, None) => prev,
    }
}

/// Why a piece does not open with a multiplication `a,b)`.
#[derive(Debug, Clone, Copy, PartialEq, Eq, Structural)]
pub enum InvalidInstruction {
    MissingComma,
    UnparsableLeftOperand,
    UnparsableRightOperand,
    MissingRightParenthesis,
}

/// A multiplication of two operands.
#[derive(Debug, Clone, Copy, PartialEq, Eq, Structural)]
pub struct MultiplyInstruction {
    pub left: u32,
    pub right: u32,
}

/// What a piece that should open with `a,b)` reads as: the text before the first
/// comma is the left operand, the text between that comma and the next `)` the
/// right one.
pub open spec fn instruction_of(s: Seq<char>) -> Result<MultiplyInstruction, InvalidInstruction> {
    let c = index_of(s, ',', 0);
    if c < 0 {
        Err(InvalidInstruction::MissingComma)
    } else {
        match unsigned(s.subrange(0, c), u32::MAX as nat) {
            None => Err(InvalidInstruction::UnparsableLeftOperand),
            Some(left) => {
                let p = index_of(s, ')', c + 1);
                if p < 0 {
                    Err(InvalidInstruction::MissingRightParenthesis)
                } else {
                    match unsigned(s.subrange(c + 1, p), u32::MAX as nat) {
                        None => Err(InvalidInstruction::UnparsableRightOperand),
                        Some(right) => Ok(MultiplyInstruction { left: left as u32, right: right as u32 }),
                    }
                }
            },
        }
    }
}

impl MultiplyInstruction {
    /// Reads a piece of the form `a,b)`, the rest of the piece ignored.
    pub fn new(input: &str) -> (r: Result<Self, InvalidInstruction>)
        ensures
            r == instruction_of(input@),
    {
        let chars = chars_of(input);
        let comma = find_char(&chars, ',', 0);
        if comma == chars.len() {
            return Err(InvalidInstruction::MissingComma);
        }
        let left = match parse_unsigned(&chars, 0, comma, 4294967295) {
            Some(v) => v as u32,
            None => return Err(InvalidInstruction::UnparsableLeftOperand),
        };
        let close = find_char(&chars, ')', comma + 1);
        if close == chars.len() {
            return Err(InvalidInstruction::MissingRightParenthesis);
        }
        let right = match parse_unsigned(&chars, comma + 1, close, 4294967295) {
            Some(v) => v as u32,
            None => return Err(InvalidInstruction::UnparsableRightOperand),
        };
        Ok(MultiplyInstruction { left, right })
    }

    /// The product of the two operands.
    pub fn calculate(self) -> (r: u32)
        requires
            self.left * self.right <= u32::MAX,
        ensures
            r == self.left * self.right,
    {
        self.left * self.right
    }
}

/// The running total and the on/off state after the first `k` pieces: a piece
/// that opens with a multiplication adds its product while multiplication is on
/// (always, when `toggles` is false), and its `do()` / `don't()` calls set the
/// state for the pieces after it.
pub open spec fn program_after(pieces: Seq<Seq<char>>, toggles: bool, k: int) -> (nat, bool)
    decreases k,
{
    if k <= 0 {
        (0, true)
    } else {
        let (total, on) = program_after(pieces, toggles, k - 1);
        let product: nat = match instruction_of(pieces[k - 1]) {
            Ok(m) => if on || !toggles { (m.left * m.right) as nat } else { 0 },
            Err(_) => 0,
        };
        (total + product, enabled_after(pieces[k - 1], on))
    }
}

/// The sum of the products of the program's multiplications, counting only those
/// made while multiplication is on when `toggles` holds.
pub open spec fn program_total(input: Seq<char>, toggles: bool) -> nat {
    let pieces = split_pattern(input, mul_open(), 0);
    program_after(pieces, toggles, pieces.len() as int).0
}

proof fn lemma_program_bound(pieces: Seq<Seq<char>>, toggles: bool, k: int)
    requires
        0 <= k <= pieces.len(),
    ensures
        program_after(pieces, toggles, k).0 <= k * (u32::MAX * u32::MAX),
    decreases k,
{
    if k > 0 {
        lemma_program_bound(pieces, toggles, k - 1);
        match instruction_of(pieces[k - 1]) {
            Ok(m) => {
                assert(m.left * m.right <= u32::MAX * u32::MAX) by (nonlinear_arith)
                    requires
                        m.left <= u32::MAX,
                        m.right <= u32::MAX,
                ;
            },
            Err(_) => {},
        }
        assert((k - 1) * (u32::MAX * u32::MAX) + u32::MAX * u32::MAX == k * (u32::MAX * u32::MAX)) by (nonlinear_arith);
    }
}

/// Adds up the products of the multiplications in a program; with `toggles`, only
/// those made while multiplication is on.
pub fn sum_of_products(input: &str, toggles: bool) -> (r: u128)
    ensures
        r == program_total(input@, toggles),
{
    let pieces = split_input(input);
    let ghost ps = split_pattern(input@, mul_open(), 0);
    assert(pieces@.map_values(|piece: &str| piece@) == ps);
    let mut total: u128 = 0;
    let mut on = true;
    let mut i: usize = 0;
    while i < pieces.len()
        invariant
            ps == split_pattern(input@, mul_open(), 0),
            pieces@.map_values(|piece: &str| piece@) == ps,
            i <= pieces@.len(),
            (total as nat, on) == program_after(ps, toggles, i as int),
        decreases pieces@.len() - i,
    {
        let piece = pieces[i];
        assert(piece@ == ps[i as int]);
        proof {
            lemma_program_bound(ps, toggles, i + 1);
            assert((i + 1) * (u32::MAX * u32::MAX) <= u128::MAX) by (nonlinear_arith)
                requires
                    i < usize::MAX,
            ;
        }
        match MultiplyInstruction::new(piece) {
            Ok(m) => {
                if on || !toggles {
                    total = total + (m.left as u128) * (m.right as u128);
                }
            },
            Err(_) => {},
        }
        on = enabled(piece, on);
        i += 1;
    }
    total
}

} // verus!
