//! Two lists of location numbers: their distance once both are sorted, and their
//! similarity score.
use vstd::prelude::*;
use vstd::multiset::Multiset;
use crate::grid::rows_of;
use crate::number::{parse_unsigned, unsigned};
use crate::text::{lines, lines_of, split_words, words_of};

verus! {

/// Whether `s` is in non-decreasing order.
pub open spec fn is_sorted(s: Seq<u32>) -> bool {
    forall|i: int, j: int| 0 <= i < j < s.len() ==> #[trigger] s[i] <= #[trigger] s[j]
}

/// The sum of the distances between the entries at the same index.
pub open spec fn pair_distance(a: Seq<u32>, b: Seq<u32>, n: int) -> nat
    decreases n,
{
    if n <= 0 {
        0
    } else {
        pair_distance(a, b, n - 1) + (if a[n - 1] >= b[n - 1] { a[n - 1] - b[n - 1] } else { b[n - 1] - a[n - 1] }) as nat
    }
}

/// How often `v` occurs among the first `n` entries of `s`.
pub open spec fn occurrences(s: Seq<u32>, v: u32, n: int) -> nat
    decreases n,
{
    if n <= 0 {
        0
    } else {
        occurrences(s, v, n - 1) + if s[n - 1] == v { 1nat } else { 0nat }
    }
}

/// The similarity of the first `n` entries of `left` to `right`: each entry times
/// the number of times it occurs in `right`.
pub open spec fn similarity(left: Seq<u32>, right: Seq<u32>, n: int) -> nat
    decreases n,
{
    if n <= 0 {
        0
    } else {
        similarity(left, right, n - 1) + (left[n - 1] as nat) * occurrences(right, left[n - 1], right.len() as int)
    }
}

proof fn lemma_empty_multiset(s: Seq<u32>)
    requires
        s.len() == 0,
    ensures
        s.to_multiset() =~= Multiset::<u32>::empty(),
{
    broadcast use vstd::multiset::group_multiset_axioms;
    s.to_multiset_ensures();
    assert forall|a: u32| s.to_multiset().count(a) == 0 by {
        assert(!s.contains(a));
    }
}

/// The numbers in non-decreasing order.
pub fn sorted(values: &Vec<u32>) -> (r: Vec<u32>)
    ensures
        is_sorted(r@),
        r@.to_multiset() == values@.to_multiset(),
{
    broadcast use vstd::multiset::group_multiset_axioms;
    let mut out: Vec<u32> = Vec::new();
    let mut i: usize = 0;
    proof {
        lemma_empty_multiset(out@);
        assert(values@.take(0) =~= Seq::<u32>::empty());
        lemma_empty_multiset(values@.take(0));
    }
    while i < values.len()
        invariant
            i <= values@.len(),
            is_sorted(out@),
            out@.to_multiset() == values@.take(i as int).to_multiset(),
        decreases values@.len() - i,
    {
        let v = values[i];
        let mut k: usize = 0;
        while k < out.len() && out[k] <= v
            invariant
                k <= out@.len(),
                forall|j: int| 0 <= j < k ==> #[trigger] out@[j] <= v,
            decreases out@.len() - k,
        {
            k += 1;
        }
        let ghost before = out@;
        out.insert(k, v);
        proof {
            assert(values@.take(i + 1) =~= values@.take(i as int).push(v));
            values@.take(i as int).to_multiset_ensures();
            before.to_multiset_ensures();
            assert(out@ == before.insert(k as int, v));
            vstd::seq_lib::to_multiset_insert(before, k as int, v);
            assert(out@.to_multiset() =~= values@.take(i + 1).to_multiset());
            assert forall|a: int, b: int| 0 <= a < b < out@.len() implies #[trigger] out@[a] <= #[trigger] out@[b] by {
                if b < k {
                } else if a < k && b == k {
                } else if a < k {
                    assert(before[a] <= before[b - 1]);
                } else if a == k {
                    assert(k < before.len() && before[k as int] > v);
                    assert(before[k as int] <= before[b - 1] || b - 1 == k);
                } else {
                    assert(before[a - 1] <= before[b - 1]);
                }
            }
        }
        i += 1;
    }
    assert(values@.take(values@.len() as int) =~= values@);
    out
}

/// The total distance between the two lists: both sorted, then the distances
/// between entries of the same rank added up.
pub fn total_distance(left: &Vec<u32>, right: &Vec<u32>) -> (r: u128)
    requires
        left@.len() == right@.len(),
    ensures
        exists|sl: Seq<u32>, sr: Seq<u32>|
            is_sorted(sl) && sl.to_multiset() == left@.to_multiset() && is_sorted(sr)
                && sr.to_multiset() == right@.to_multiset() && r == #[trigger] pair_distance(sl, sr, sl.len() as int),
{
    let sl = sorted(left);
    let sr = sorted(right);
    proof {
        sl@.to_multiset_ensures();
        left@.to_multiset_ensures();
        right@.to_multiset_ensures();
        sr@.to_multiset_ensures();
    }
    let mut total: u128 = 0;
    let mut i: usize = 0;
    while i < sl.len()
        invariant
            sl@.len() == sr@.len(),
            i <= sl@.len(),
            total == pair_distance(sl@, sr@, i as int),
            total <= i * (u32::MAX as int),
        decreases sl@.len() - i,
    {
        let a = sl[i];
        let b = sr[i];
        let d = if a >= b { a - b } else { b - a };
        proof {
            assert((i + 1) * (u32::MAX as int) <= u128::MAX) by (nonlinear_arith)
                requires
                    i < usize::MAX,
            ;
        }
        total = total + d as u128;
        i += 1;
    }
    total
}

/// The similarity score: each number of `left` times how often it occurs in
/// `right`, added up.
pub fn similarity_score(left: &Vec<u32>, right: &Vec<u32>) -> (r: u128)
    requires
        left@.len() <= u32::MAX,
    ensures
        r == similarity(left@, right@, left@.len() as int),
{
    let mut total: u128 = 0;
    let mut i: usize = 0;
    while i < left.len()
        invariant
            left@.len() <= u32::MAX,
            i <= left@.len(),
            total == similarity(left@, right@, i as int),
            total <= i * (u32::MAX as int) * (usize::MAX as int),
        decreases left@.len() - i,
    {
        let v = left[i];
        let mut count: usize = 0;
        let mut j: usize = 0;
        while j < right.len()
            invariant
                j <= right@.len(),
                count == occurrences(right@, v, j as int),
                count <= j,
            decreases right@.len() - j,
        {
            if right[j] == v {
                count += 1;
            }
            j += 1;
        }
        proof {
            assert((v as int) * (count as int) <= (u32::MAX as int) * (usize::MAX as int)) by (nonlinear_arith)
                requires
                    v <= u32::MAX,
                    count <= usize::MAX,
            ;
            assert((i + 1) * (u32::MAX as int) * (usize::MAX as int) <= u128::MAX) by (nonlinear_arith)
                requires
                    i + 1 <= u32::MAX,
                    usize::MAX <= u64::MAX,
            ;
        }
        total = total + (v as u128) * (count as u128);
        i += 1;
    }
    total
}

/// The two numbers that open a line, when it has at least two words and they are
/// numbers.
pub open spec fn pair_of(line: Seq<char>) -> Option<(u32, u32)> {
    let words = words_of(line);
    if words.len() < 2 {
        None
    } else {
        match (unsigned(words[0], u32::MAX as nat), unsigned(words[1], u32::MAX as nat)) {
            (Some(a), Some(b)) => Some((a as u32, b as u32)),
            _ => None,
        }
    }
}

/// Reads the two lists, one pair of numbers per line; `None` when a line does not
/// open with two numbers.
pub fn parse_pairs(input: &str) -> (r: Option<(Vec<u32>, Vec<u32>)>)
    ensures
        match r {
            Some((left, right)) => {
                &&& left@.len() == lines_of(input@).len()
                &&& right@.len() == lines_of(input@).len()
                &&& forall|i: int| 0 <= i < lines_of(input@).len()
                    ==> #[trigger] pair_of(lines_of(input@)[i]) == Some((left@[i], right@[i]))
            },
            None => exists|i: int| 0 <= i < lines_of(input@).len() && (#[trigger] pair_of(lines_of(input@)[i])).is_none(),
        },
{
    let text = lines(input);
    let ghost ls = lines_of(input@);
    let mut left: Vec<u32> = Vec::new();
    let mut right: Vec<u32> = Vec::new();
    let mut i: usize = 0;
    while i < text.len()
        invariant
            ls == lines_of(input@),
            ls == rows_of(text@),
            i <= text@.len(),
            left@.len() == i,
            right@.len() == i,
            forall|j: int| 0 <= j < i ==> #[trigger] pair_of(ls[j]) == Some((left@[j], right@[j])),
        decreases text@.len() - i,
    {
        let words = split_words(&text[i]);
        assert(text@[i as int]@ == ls[i as int]);
        assert(words_of(ls[i as int]) == rows_of(words@));
        if words.len() < 2 {
            assert(pair_of(ls[i as int]).is_none());
            return None;
        }
        let w0 = &words[0];
        let w1 = &words[1];
        assert(w0@.subrange(0, w0@.len() as int) =~= rows_of(words@)[0]);
        assert(w1@.subrange(0, w1@.len() as int) =~= rows_of(words@)[1]);
        let a = parse_unsigned(w0, 0, w0.len(), 4294967295);
        let b = parse_unsigned(w1, 0, w1.len(), 4294967295);
        match (a, b) {
            (Some(a), Some(b)) => {
                left.push(a as u32);
                right.push(b as u32);
            },
            _ => {
                assert(pair_of(ls[i as int]).is_none());
                return None;
            },
        }
        i += 1;
    }
    Some((left, right))
}

} // verus!
