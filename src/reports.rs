//! Level reports: a report is safe when its levels move steadily in one direction
//! by one to three per step, and tolerable when it is safe or becomes safe once a
//! single level is dropped.
use vstd::prelude::*;
use crate::number::{unsigned, parse_all};
use crate::text::{chars_of, split_words, words_of};

verus! {

/// Whether each of the first `n` steps falls by one to three.
pub open spec fn falls_steadily(levels: Seq<int>, n: int) -> bool {
    forall|i: int| 0 <= i < n ==> 1 <= #[trigger] levels[i] - levels[i + 1] <= 3
}

/// Whether each of the first `n` steps rises by one to three.
pub open spec fn rises_steadily(levels: Seq<int>, n: int) -> bool {
    forall|i: int| 0 <= i < n ==> 1 <= levels[i + 1] - #[trigger] levels[i] <= 3
}

/// Whether consecutive levels all fall by one to three, or all rise by one to three.
pub open spec fn is_safe(levels: Seq<int>) -> bool {
    falls_steadily(levels, levels.len() - 1) || rises_steadily(levels, levels.len() - 1)
}

/// Whether the levels are safe as they are or after removing one of them.
pub open spec fn is_tolerable(levels: Seq<int>) -> bool {
    is_safe(levels) || exists|i: int| 0 <= i < levels.len() && is_safe(#[trigger] levels.remove(i))
}

/// The levels written as the words of a report.
pub open spec fn levels_of(words: Seq<Seq<char>>) -> Seq<int> {
    words.map_values(|w: Seq<char>| unsigned(w, u32::MAX as nat).unwrap() as int)
}

/// Whether every word of the report is a level that fits in 32 bits.
pub open spec fn is_report(words: Seq<Seq<char>>) -> bool {
    forall|i: int| 0 <= i < words.len() ==> (#[trigger] unsigned(words[i], u32::MAX as nat)).is_some()
}

pub open spec fn as_ints(v: Seq<u64>) -> Seq<int> {
    v.map_values(|x: u64| x as int)
}

fn levels_safe(levels: &Vec<u64>) -> (r: bool)
    ensures
        r == is_safe(as_ints(levels@)),
{
    let ghost l = as_ints(levels@);
    let mut falling = true;
    let mut rising = true;
    let mut i: usize = 0;
    while i + 1 < levels.len()
        invariant
            l == as_ints(levels@),
            i <= levels.len(),
            levels.len() > 0 ==> i < levels.len(),
            falling == falls_steadily(l, i as int),
            rising == rises_steadily(l, i as int),
        decreases levels.len() - i,
    {
        let a = levels[i];
        let b = levels[i + 1];
        let ghost ii = i as int;
        assert(l[ii] == a && l[ii + 1] == b);
        if !(a > b && a - b <= 3) {
            falling = false;
        }
        if !(b > a && b - a <= 3) {
            rising = false;
        }
        i += 1;
        assert(falling == falls_steadily(l, i as int)) by {
            if falls_steadily(l, ii) && 1 <= l[ii] - l[ii + 1] <= 3 {
                assert forall|j: int| 0 <= j < ii + 1 implies 1 <= #[trigger] l[j] - l[j + 1] <= 3 by {
                    if j < ii {
                        assert(falls_steadily(l, ii));
                    }
                }
            }
        }
        assert(rising == rises_steadily(l, i as int)) by {
            if rises_steadily(l, ii) && 1 <= l[ii + 1] - l[ii] <= 3 {
                assert forall|j: int| 0 <= j < ii + 1 implies 1 <= l[j + 1] - #[trigger] l[j] <= 3 by {
                    if j < ii {
                        assert(rises_steadily(l, ii));
                    }
                }
            }
        }
    }
    assert(l.len() == 0 || i == l.len() - 1);
    proof {
        if l.len() == 0 {
            assert(falls_steadily(l, -1));
        }
    }
    falling || rising
}

/// The levels with the one at `skip` left out.
fn without(levels: &Vec<u64>, skip: usize) -> (r: Vec<u64>)
    requires
        skip < levels@.len(),
    ensures
        r@ == levels@.remove(skip as int),
{
    let mut kept: Vec<u64> = Vec::new();
    let mut i: usize = 0;
    while i < levels.len()
        invariant
            skip < levels@.len(),
            i <= levels.len(),
            kept@ == if i <= skip { levels@.take(i as int) } else { levels@.remove(skip as int).take(i - 1) },
        decreases levels.len() - i,
    {
        if i != skip {
            kept.push(levels[i]);
        }
        i += 1;
        assert(kept@ =~= if i <= skip { levels@.take(i as int) } else { levels@.remove(skip as int).take(i - 1) });
    }
    assert(kept@ =~= levels@.remove(skip as int));
    kept
}

/// Whether a report is tolerable; `None` when one of its words is not a level.
pub fn valid_report(report: &str) -> (r: Option<bool>)
    ensures
        match r {
            Some(b) => is_report(words_of(report@)) && b == is_tolerable(levels_of(words_of(report@))),
            None => !is_report(words_of(report@)),
        },
{
    let chars = chars_of(report);
    let words = split_words(&chars);
    let ghost w = words_of(report@);
    let levels = match parse_all(&words, 4294967295) {
        Some(v) => v,
        None => return None,
    };
    let ghost l = as_ints(levels@);
    assert(l =~= levels_of(w));
    assert(is_report(w));
    if levels_safe(&levels) {
        return Some(true);
    }
    let mut i: usize = 0;
    while i < levels.len()
        invariant
            l == as_ints(levels@),
            w == words_of(report@),
            is_report(w),
            l == levels_of(w),
            i <= levels.len(),
            forall|j: int| 0 <= j < i ==> !is_safe(#[trigger] l.remove(j)),
        decreases levels.len() - i,
    {
        let shorter = without(&levels, i);
        assert(as_ints(shorter@) =~= l.remove(i as int));
        if levels_safe(&shorter) {
            assert(is_tolerable(l));
            return Some(true);
        }
        i += 1;
    }
    Some(false)
}

} // verus!
