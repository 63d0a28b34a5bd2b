//! Breaking puzzle text into characters and newline-separated lines.
use vstd::prelude::*;
use crate::grid::rows_of;

verus! {

/// The pieces of `s` between occurrences of `sep`; always at least one piece.
pub open spec fn pieces(s: Seq<char>, sep: char) -> Seq<Seq<char>>
    decreases s.len(),
{
    if s.len() == 0 {
        seq![Seq::<char>::empty()]
    } else {
        let prev = pieces(s.drop_last(), sep);
        if s.last() == sep {
            prev.push(Seq::<char>::empty())
        } else {
            prev.update(prev.len() - 1, prev.last().push(s.last()))
        }
    }
}

/// The lines of `s`: the newline-separated pieces, where a final newline ends the
/// last line instead of starting an empty one.
pub open spec fn lines_of(s: Seq<char>) -> Seq<Seq<char>> {
    let pieces = pieces(s, '\n');
    if pieces.last().len() == 0 {
        pieces.drop_last()
    } else {
        pieces
    }
}

pub proof fn lemma_pieces_nonempty(s: Seq<char>, sep: char)
    ensures
        pieces(s, sep).len() >= 1,
    decreases s.len(),
{
    if s.len() > 0 {
        lemma_pieces_nonempty(s.drop_last(), sep);
    }
}

/// The characters of a string, in order.
pub fn chars_of(s: &str) -> (r: Vec<char>)
    ensures
        r@ == s@,
{
    let n = s.unicode_len();
    let mut r: Vec<char> = Vec::new();
    let mut i: usize = 0;
    while i < n
        invariant
            n == s@.len(),
            i <= n,
            r@ == s@.take(i as int),
        decreases n - i,
    {
        r.push(s.get_char(i));
        i += 1;
        assert(r@ =~= s@.take(i as int));
    }
    assert(r@ =~= s@);
    r
}

/// Splits text into its lines, each a vector of characters.
pub fn lines(s: &str) -> (r: Vec<Vec<char>>)
    ensures
        rows_of(r@) == lines_of(s@),
{
    let chars = chars_of(s);
    let mut rows: Vec<Vec<char>> = Vec::new();
    let mut current: Vec<char> = Vec::new();
    let mut i: usize = 0;
    while i < chars.len()
        invariant
            chars@ == s@,
            i <= chars.len(),
            rows_of(rows@).push(current@) == pieces(s@.take(i as int), '\n'),
        decreases chars.len() - i,
    {
        let c = chars[i];
        let ghost prefix = s@.take(i as int);
        let ghost before = rows_of(rows@).push(current@);
        assert(s@.take(i + 1).drop_last() =~= prefix);
        assert(s@.take(i + 1).last() == c);
        if c == '\n' {
            let mut finished: Vec<char> = Vec::new();
            std::mem::swap(&mut finished, &mut current);
            rows.push(finished);
            assert(rows_of(rows@).push(current@) =~= before.push(Seq::<char>::empty()));
        } else {
            current.push(c);
            assert(rows_of(rows@).push(current@) =~= before.update(
                before.len() - 1,
                before.last().push(c),
            ));
        }
        i += 1;
    }
    assert(s@.take(chars.len() as int) =~= s@);
    if current.len() > 0 {
        rows.push(current);
        assert(rows_of(rows@) =~= lines_of(s@));
    } else {
        assert(rows_of(rows@) =~= lines_of(s@));
    }
    rows
}

/// Splits a character sequence at every occurrence of `sep`.
pub fn split_on(chars: &Vec<char>, sep: char) -> (r: Vec<Vec<char>>)
    ensures
        rows_of(r@) == pieces(chars@, sep),
{
    let mut parts: Vec<Vec<char>> = Vec::new();
    let mut current: Vec<char> = Vec::new();
    let mut i: usize = 0;
    while i < chars.len()
        invariant
            i <= chars.len(),
            rows_of(parts@).push(current@) == pieces(chars@.take(i as int), sep),
        decreases chars.len() - i,
    {
        let c = chars[i];
        let ghost before = rows_of(parts@).push(current@);
        assert(chars@.take(i + 1).drop_last() =~= chars@.take(i as int));
        assert(chars@.take(i + 1).last() == c);
        if c == sep {
            let mut finished: Vec<char> = Vec::new();
            std::mem::swap(&mut finished, &mut current);
            parts.push(finished);
            assert(rows_of(parts@).push(current@) =~= before.push(Seq::<char>::empty()));
        } else {
            current.push(c);
            assert(rows_of(parts@).push(current@) =~= before.update(
                before.len() - 1,
                before.last().push(c),
            ));
        }
        i += 1;
    }
    assert(chars@.take(chars.len() as int) =~= chars@);
    parts.push(current);
    parts
}

/// Whether `c` separates words: space, tab, line feed, carriage return, vertical
/// tab or form feed.
pub open spec fn is_space(c: char) -> bool {
    c == ' ' || c == '\t' || c == '\n' || c == '\r' || c == '\x0B' || c == '\x0C'
}

/// The words of `s`: its maximal runs of characters that are not spaces.
pub open spec fn words_of(s: Seq<char>) -> Seq<Seq<char>>
    decreases s.len(),
{
    if s.len() == 0 {
        Seq::empty()
    } else {
        let prev = words_of(s.drop_last());
        if is_space(s.last()) {
            prev
        } else if s.len() >= 2 && !is_space(s[s.len() - 2]) {
            prev.update(prev.len() - 1, prev.last().push(s.last()))
        } else {
            prev.push(seq![s.last()])
        }
    }
}

/// Splits a character sequence into its words.
pub fn split_words(chars: &Vec<char>) -> (r: Vec<Vec<char>>)
    ensures
        rows_of(r@) == words_of(chars@),
{
    let mut words: Vec<Vec<char>> = Vec::new();
    let mut current: Vec<char> = Vec::new();
    let mut i: usize = 0;
    while i < chars.len()
        invariant
            i <= chars.len(),
            current@.len() == 0 ==> rows_of(words@) == words_of(chars@.take(i as int)),
            current@.len() > 0 ==> rows_of(words@).push(current@) == words_of(chars@.take(i as int)),
            current@.len() > 0 ==> i > 0 && !is_space(chars@[i - 1]),
            current@.len() == 0 ==> i == 0 || is_space(chars@[i - 1]),
        decreases chars.len() - i,
    {
        let c = chars[i];
        let ghost prefix = chars@.take(i + 1);
        assert(prefix.drop_last() =~= chars@.take(i as int));
        assert(prefix.last() == c);
        if i > 0 {
            assert(prefix[prefix.len() - 2] == chars@[i - 1]);
        }
        if c == ' ' || c == '\t' || c == '\n' || c == '\r' || c == '\x0B' || c == '\x0C' {
            if current.len() > 0 {
                let mut finished: Vec<char> = Vec::new();
                std::mem::swap(&mut finished, &mut current);
                let ghost prev = words@;
                words.push(finished);
                assert(rows_of(words@) =~= rows_of(prev).push(finished@));
            }
        } else {
            let ghost prev = current@;
            current.push(c);
            proof {
                if prev.len() == 0 {
                    assert(seq![c] =~= current@);
                } else {
                    let w = rows_of(words@).push(prev);
                    assert(rows_of(words@).push(current@) =~= w.update(w.len() - 1, w.last().push(c)));
                }
            }
        }
        i += 1;
    }
    assert(chars@.take(chars.len() as int) =~= chars@);
    if current.len() > 0 {
        let ghost prev = words@;
        words.push(current);
        assert(rows_of(words@) =~= rows_of(prev).push(current@));
    }
    words
}

/// The first index of `c` in `s` at or after `i`, or -1.
pub open spec fn index_of(s: Seq<char>, c: char, i: int) -> int
    decreases s.len() - i,
{
    if i < 0 || i >= s.len() {
        -1
    } else if s[i] == c {
        i
    } else {
        index_of(s, c, i + 1)
    }
}

/// The first index of `c` in `chars` at or after `from`, or `chars.len()` when
/// there is none.
pub fn find_char(chars: &Vec<char>, c: char, from: usize) -> (r: usize)
    requires
        from <= chars@.len(),
    ensures
        from <= r <= chars@.len(),
        r < chars@.len() ==> index_of(chars@, c, from as int) == r,
        r == chars@.len() ==> index_of(chars@, c, from as int) == -1,
{
    let mut i: usize = from;
    while i < chars.len() && chars[i] != c
        invariant
            from <= i <= chars@.len(),
            index_of(chars@, c, from as int) == index_of(chars@, c, i as int),
        decreases chars@.len() - i,
    {
        i += 1;
    }
    i
}

} // verus!
