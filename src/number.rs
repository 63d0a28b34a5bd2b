//! Unsigned decimal numbers written as digit sequences.
use vstd::prelude::*;
use crate::grid::rows_of;

verus! {

pub open spec fn is_digit(c: char) -> bool {
    '0' <= c <= '9'
}

/// The value of a digit character.
pub open spec fn digit_value(c: char) -> nat {
    (c as nat - '0' as nat) as nat
}

/// The value of a digit sequence read in base ten.
pub open spec fn digits_value(s: Seq<char>) -> nat
    decreases s.len(),
{
    if s.len() == 0 {
        0
    } else {
        digits_value(s.drop_last()) * 10 + digit_value(s.last())
    }
}

pub open spec fn all_digits(s: Seq<char>) -> bool {
    forall|i: int| 0 <= i < s.len() ==> is_digit(#[trigger] s[i])
}

/// The number `s` spells when it is a non-empty run of digits whose value is at
/// most `max`.
pub open spec fn decimal(s: Seq<char>, max: nat) -> Option<nat> {
    if s.len() > 0 && all_digits(s) && digits_value(s) <= max {
        Some(digits_value(s))
    } else {
        None
    }
}

/// The number `s` spells as an unsigned integer of at most `max`: an optional
/// leading `+` followed by a non-empty run of digits.
pub open spec fn unsigned(s: Seq<char>, max: nat) -> Option<nat> {
    if s.len() > 0 && s[0] == '+' {
        decimal(s.drop_first(), max)
    } else {
        decimal(s, max)
    }
}

proof fn lemma_prefix_value(s: Seq<char>, k: int)
    requires
        0 <= k <= s.len(),
        all_digits(s),
    ensures
        digits_value(s.take(k)) <= digits_value(s),
    decreases s.len(),
{
    if k < s.len() {
        assert(s.drop_last().take(k) =~= s.take(k));
        lemma_prefix_value(s.drop_last(), k);
    } else {
        assert(s.take(k) =~= s);
    }
}

/// Reads the characters `from .. to` of `chars` as a decimal number of at most
/// `max`.
pub fn parse_decimal(chars: &Vec<char>, from: usize, to: usize, max: u64) -> (r: Option<u64>)
    requires
        from <= to <= chars@.len(),
    ensures
        r == match decimal(chars@.subrange(from as int, to as int), max as nat) {
            Some(v) => Some(v as u64),
            None => None::<u64>,
        },
{
    let ghost s = chars@.subrange(from as int, to as int);
    if from == to {
        return None;
    }
    let mut value: u64 = 0;
    let mut i: usize = from;
    while i < to
        invariant
            s == chars@.subrange(from as int, to as int),
            from <= i <= to <= chars@.len(),
            all_digits(s.take(i - from)),
            value as nat == digits_value(s.take(i - from)),
            value <= max,
        decreases to - i,
    {
        let c = chars[i];
        let ghost k = i - from;
        assert(s.take(k + 1).drop_last() =~= s.take(k));
        assert(s.take(k + 1).last() == c);
        if c < '0' || c > '9' {
            assert(!all_digits(s));
            return None;
        }
        let d = (c as u64) - ('0' as u64);
        if d > max || value > (max - d) / 10 {
            proof {
                assert(digits_value(s.take(k + 1)) > max);
                if all_digits(s) {
                    lemma_prefix_value(s, k + 1);
                }
            }
            return None;
        }
        value = value * 10 + d;
        i += 1;
    }
    assert(s.take(to - from) =~= s);
    Some(value)
}

/// Reads the characters `from .. to` of `chars` as an unsigned number of at most
/// `max`, with an optional leading `+`.
pub fn parse_unsigned(chars: &Vec<char>, from: usize, to: usize, max: u64) -> (r: Option<u64>)
    requires
        from <= to <= chars@.len(),
    ensures
        r == match unsigned(chars@.subrange(from as int, to as int), max as nat) {
            Some(v) => Some(v as u64),
            None => None::<u64>,
        },
{
    if from < to && chars[from] == '+' {
        assert(chars@.subrange(from as int, to as int).drop_first() =~= chars@.subrange(from + 1, to as int));
        parse_decimal(chars, from + 1, to, max)
    } else {
        parse_decimal(chars, from, to, max)
    }
}

/// Reads every word as an unsigned number of at most `max`, or `None` when one of
/// them is not one.
pub fn parse_all(words: &Vec<Vec<char>>, max: u64) -> (r: Option<Vec<u64>>)
    ensures
        match r {
            Some(v) => v@.len() == words@.len() && forall|i: int| 0 <= i < words@.len()
                ==> unsigned(#[trigger] rows_of(words@)[i], max as nat) == Some(v@[i] as nat),
            None => exists|i: int| 0 <= i < words@.len() && unsigned(#[trigger] rows_of(words@)[i], max as nat).is_none(),
        },
{
    let mut values: Vec<u64> = Vec::new();
    let mut i: usize = 0;
    while i < words.len()
        invariant
            i <= words.len(),
            values@.len() == i,
            forall|j: int| 0 <= j < i ==> unsigned(#[trigger] rows_of(words@)[j], max as nat) == Some(values@[j] as nat),
        decreases words.len() - i,
    {
        let word = &words[i];
        assert(word@.subrange(0, word@.len() as int) =~= rows_of(words@)[i as int]);
        match parse_unsigned(word, 0, word.len(), max) {
            Some(v) => values.push(v),
            None => return None,
        }
        i += 1;
    }
    Some(values)
}

} // verus!
