//! Page-ordering rules `a|b` (page `a` must come before page `b`), the check of an
//! update against them, and the reordering of an update that breaks them.
use vstd::prelude::*;
use vstd::multiset::Multiset;
use std::collections::{HashMap, HashSet};
use crate::grid::rows_of;
use crate::number::{unsigned, parse_unsigned, parse_all};
use crate::instructions::{find_from, occurs_at};
use crate::text::{chars_of, find_char, index_of, lines, lines_of, pieces, split_on};

verus! {

broadcast use vstd::std_specs::hash::group_hash_axioms;

/// Why rules or an update could not be read.
#[derive(Debug, Clone, Copy, PartialEq, Eq, Structural)]
pub enum RuleError {
    /// A rule line is not two page numbers separated by `|`.
    InvalidRule,
    /// An update is not a comma-separated list of page numbers.
    InvalidUpdate,
}

/// The pages a rule line `a|b` names, split at its first `|`.
pub open spec fn rule_of(line: Seq<char>) -> Option<(u32, u32)> {
    let bar = index_of(line, '|', 0);
    if bar < 0 {
        None
    } else {
        match (unsigned(line.subrange(0, bar), u32::MAX as nat), unsigned(line.subrange(bar + 1, line.len() as int), u32::MAX as nat)) {
            (Some(a), Some(b)) => Some((a as u32, b as u32)),
            _ => None,
        }
    }
}

/// Whether `rules` says page `a` must come before page `b`.
pub open spec fn must_precede(rules: Map<u32, HashSet<u32>>, a: u32, b: u32) -> bool {
    rules.contains_key(a) && rules[a]@.contains(b)
}

/// Whether the map holds exactly the rules of the given lines: page `a` maps to
/// the set of every `b` with a line `a|b`.
pub open spec fn holds_rules(rules: Map<u32, HashSet<u32>>, lines: Seq<Seq<char>>) -> bool {
    &&& forall|a: u32| #[trigger] rules.contains_key(a)
        <==> exists|i: int| 0 <= i < lines.len() && (#[trigger] rule_of(lines[i])).unwrap().0 == a
    &&& forall|a: u32, b: u32| #[trigger] must_precede(rules, a, b)
        <==> exists|i: int| 0 <= i < lines.len() && #[trigger] rule_of(lines[i]) == Some((a, b))
}

/// The page numbers of an update written `a,b,c,...`, when every piece is one.
pub open spec fn is_update(s: Seq<char>) -> bool {
    forall|i: int| 0 <= i < pieces(s, ',').len()
        ==> (#[trigger] unsigned(pieces(s, ',')[i], u32::MAX as nat)).is_some()
}

pub open spec fn update_pages(s: Seq<char>) -> Seq<u32> {
    pieces(s, ',').map_values(|p: Seq<char>| unsigned(p, u32::MAX as nat).unwrap() as u32)
}

/// Whether no page of `pages` is required to come before a page it follows.
pub open spec fn in_order(pages: Seq<u32>, rules: Map<u32, HashSet<u32>>) -> bool {
    forall|i: int, j: int| 0 <= i < j < pages.len() ==> !must_precede(rules, #[trigger] pages[j], #[trigger] pages[i])
}

/// Reads one rule per line.
pub fn build_rules(rules_input: &str) -> (r: Result<HashMap<u32, HashSet<u32>>, RuleError>)
    ensures
        match r {
            Ok(m) => (forall|i: int| 0 <= i < lines_of(rules_input@).len()
                ==> (#[trigger] rule_of(lines_of(rules_input@)[i])).is_some())
                && holds_rules(m@, lines_of(rules_input@)),
            Err(e) => e == RuleError::InvalidRule && exists|i: int| 0 <= i < lines_of(rules_input@).len()
                && (#[trigger] rule_of(lines_of(rules_input@)[i])).is_none(),
        },
{
    let text = lines(rules_input);
    let ghost ls = lines_of(rules_input@);
    let mut rules: HashMap<u32, HashSet<u32>> = HashMap::new();
    let mut i: usize = 0;
    while i < text.len()
        invariant
            ls == lines_of(rules_input@),
            ls == rows_of(text@),
            i <= text.len(),
            forall|j: int| 0 <= j < i ==> (#[trigger] rule_of(ls[j])).is_some(),
            holds_rules(rules@, ls.take(i as int)),
        decreases text.len() - i,
    {
        let line = &text[i];
        assert(line@ == ls[i as int]);
        let bar = find_char(line, '|', 0);
        if bar == line.len() {
            return Err(RuleError::InvalidRule);
        }
        let left = parse_unsigned(line, 0, bar, 4294967295);
        let right = parse_unsigned(line, bar + 1, line.len(), 4294967295);
        let (a, b) = match (left, right) {
            (Some(a), Some(b)) => (a as u32, b as u32),
            _ => return Err(RuleError::InvalidRule),
        };
        assert(rule_of(ls[i as int]) == Some((a, b)));
        let ghost before = rules@;
        let mut afters = match rules.remove(&a) {
            Some(set) => set,
            None => HashSet::new(),
        };
        assert(afters@ == if before.contains_key(a) { before[a]@ } else { Set::<u32>::empty() });
        assert(rules@ == before.remove(a));
        afters.insert(b);
        rules.insert(a, afters);
        assert(rules@ == before.insert(a, afters));
        proof {
            let prev = ls.take(i as int);
            let now = ls.take(i + 1);
            assert(now =~= prev.push(ls[i as int]));
            assert forall|x: u32| #[trigger] rules@.contains_key(x)
                <==> exists|j: int| 0 <= j < now.len() && (#[trigger] rule_of(now[j])).unwrap().0 == x by {
                if rules@.contains_key(x) && x != a {
                    assert(before.contains_key(x));
                    let j = choose|j: int| 0 <= j < prev.len() && (#[trigger] rule_of(prev[j])).unwrap().0 == x;
                    assert(now[j] == prev[j]);
                }
                if exists|j: int| 0 <= j < now.len() && (#[trigger] rule_of(now[j])).unwrap().0 == x {
                    let j = choose|j: int| 0 <= j < now.len() && (#[trigger] rule_of(now[j])).unwrap().0 == x;
                    if j < prev.len() {
                        assert(now[j] == prev[j]);
                    }
                }
            }
            assert forall|x: u32, y: u32| #[trigger] must_precede(rules@, x, y)
                <==> exists|j: int| 0 <= j < now.len() && #[trigger] rule_of(now[j]) == Some((x, y)) by {
                if must_precede(rules@, x, y) && !(x == a && y == b) {
                    assert(must_precede(before, x, y));
                    let j = choose|j: int| 0 <= j < prev.len() && #[trigger] rule_of(prev[j]) == Some((x, y));
                    assert(now[j] == prev[j]);
                }
                if exists|j: int| 0 <= j < now.len() && #[trigger] rule_of(now[j]) == Some((x, y)) {
                    let j = choose|j: int| 0 <= j < now.len() && #[trigger] rule_of(now[j]) == Some((x, y));
                    if j < prev.len() {
                        assert(now[j] == prev[j]);
                        assert(must_precede(before, x, y));
                    }
                }
                if x == a && y == b {
                    assert(rule_of(now[i as int]) == Some((x, y)));
                }
            }
        }
        i += 1;
    }
    assert(ls.take(text.len() as int) =~= ls);
    Ok(rules)
}

/// Whether `rules` requires `a` before `b`.
fn precedes(rules: &HashMap<u32, HashSet<u32>>, a: u32, b: u32) -> (r: bool)
    ensures
        r == must_precede(rules@, a, b),
{
    match rules.get(&a) {
        Some(afters) => afters.contains(&b),
        None => false,
    }
}

/// Reads an update `a,b,c,...`.
fn parse_update(update: &str) -> (r: Result<Vec<u32>, RuleError>)
    ensures
        match r {
            Ok(pages) => is_update(update@) && pages@ == update_pages(update@),
            Err(e) => e == RuleError::InvalidUpdate && !is_update(update@),
        },
{
    let chars = chars_of(update);
    let parts = split_on(&chars, ',');
    let values = match parse_all(&parts, 4294967295) {
        Some(v) => v,
        None => return Err(RuleError::InvalidUpdate),
    };
    let ghost ps = pieces(update@, ',');
    let mut pages: Vec<u32> = Vec::new();
    let mut i: usize = 0;
    while i < values.len()
        invariant
            ps == pieces(update@, ','),
            ps == rows_of(parts@),
            values@.len() == ps.len(),
            forall|j: int| 0 <= j < ps.len() ==> unsigned(#[trigger] ps[j], u32::MAX as nat) == Some(values@[j] as nat),
            i <= values.len(),
            pages@ == update_pages(update@).take(i as int),
        decreases values.len() - i,
    {
        assert(unsigned(ps[i as int], u32::MAX as nat) == Some(values@[i as int] as nat));
        pages.push(values[i] as u32);
        i += 1;
        assert(pages@ =~= update_pages(update@).take(i as int));
    }
    assert(pages@ =~= update_pages(update@));
    Ok(pages)
}

/// Whether the pages are in an order the rules allow.
fn pages_in_order(pages: &Vec<u32>, rules: &HashMap<u32, HashSet<u32>>) -> (r: bool)
    ensures
        r == in_order(pages@, rules@),
{
    let mut j: usize = 0;
    while j < pages.len()
        invariant
            j <= pages.len(),
            forall|i2: int, j2: int| 0 <= i2 < j2 < j ==> !must_precede(rules@, #[trigger] pages@[j2], #[trigger] pages@[i2]),
        decreases pages.len() - j,
    {
        let mut i: usize = 0;
        while i < j
            invariant
                j < pages.len(),
                i <= j,
                forall|i2: int, j2: int| 0 <= i2 < j2 < j ==> !must_precede(rules@, #[trigger] pages@[j2], #[trigger] pages@[i2]),
                forall|i2: int| 0 <= i2 < i ==> !must_precede(rules@, pages@[j as int], #[trigger] pages@[i2]),
            decreases j - i,
        {
            if precedes(rules, pages[j], pages[i]) {
                return false;
            }
            i += 1;
        }
        j += 1;
    }
    true
}

/// The middle page of an update that is in order, or `None` for one that is not.
pub fn process_update(update: &str, rules: &HashMap<u32, HashSet<u32>>) -> (r: Result<Option<u32>, RuleError>)
    ensures
        match r {
            Ok(Some(m)) => is_update(update@) && in_order(update_pages(update@), rules@)
                && m == update_pages(update@)[update_pages(update@).len() as int / 2],
            Ok(None) => is_update(update@) && !in_order(update_pages(update@), rules@),
            Err(e) => e == RuleError::InvalidUpdate && !is_update(update@),
        },
{
    let pages = parse_update(update)?;
    proof {
        crate::text::lemma_pieces_nonempty(update@, ',');
    }
    if pages_in_order(&pages, rules) {
        Ok(Some(pages[pages.len() / 2]))
    } else {
        Ok(None)
    }
}

/// The pages of an update that breaks the rules, or `None` for one in order.
pub fn invalid_update(update: &str, rules: &HashMap<u32, HashSet<u32>>) -> (r: Result<Option<Vec<u32>>, RuleError>)
    ensures
        match r {
            Ok(Some(pages)) => is_update(update@) && !in_order(update_pages(update@), rules@)
                && pages@ == update_pages(update@),
            Ok(None) => is_update(update@) && in_order(update_pages(update@), rules@),
            Err(e) => e == RuleError::InvalidUpdate && !is_update(update@),
        },
{
    let pages = parse_update(update)?;
    if pages_in_order(&pages, rules) {
        Ok(None)
    } else {
        Ok(Some(pages))
    }
}

/// Whether every page of `rest` must follow some other page of `rest`, so that none
/// of them can come first.
pub open spec fn blocked(rest: Seq<u32>, rules: Map<u32, HashSet<u32>>) -> bool {
    &&& rest.len() > 0
    &&& forall|k: int| 0 <= k < rest.len() ==> #[trigger] has_predecessor(rest, rules, k)
}

/// Whether some other page of `rest` must come before the page at `k`.
pub open spec fn has_predecessor(rest: Seq<u32>, rules: Map<u32, HashSet<u32>>, k: int) -> bool {
    exists|j: int| 0 <= j < rest.len() && j != k && #[trigger] must_precede(rules, rest[j], rest[k])
}

/// Whether no other page of `pages` must come before the page at `k`.
pub open spec fn free_at(pages: Seq<u32>, rules: Map<u32, HashSet<u32>>, k: int) -> bool {
    forall|j: int| 0 <= j < pages.len() && j != k ==> !must_precede(rules, #[trigger] pages[j], pages[k])
}

/// The first index from `k` on of a page that no other page must precede, or -1.
pub open spec fn first_free_from(pages: Seq<u32>, rules: Map<u32, HashSet<u32>>, k: int) -> int
    decreases pages.len() - k,
{
    if k < 0 || k >= pages.len() {
        -1
    } else if free_at(pages, rules, k) {
        k
    } else {
        first_free_from(pages, rules, k + 1)
    }
}

/// The pages in the order the reordering produces: the first page that no other
/// remaining page must precede comes next; once no such page is left, the rest
/// follow as they are.
pub open spec fn rule_order(pages: Seq<u32>, rules: Map<u32, HashSet<u32>>) -> Seq<u32>
    decreases pages.len(),
{
    let k = first_free_from(pages, rules, 0);
    if pages.len() == 0 || k < 0 || k >= pages.len() {
        pages
    } else {
        seq![pages[k]] + rule_order(pages.remove(k), rules)
    }
}

proof fn lemma_first_free(pages: Seq<u32>, rules: Map<u32, HashSet<u32>>, i: int, k: int)
    requires
        0 <= i <= k <= pages.len(),
        forall|j: int| i <= j < k ==> !#[trigger] free_at(pages, rules, j),
        k == pages.len() || free_at(pages, rules, k),
    ensures
        first_free_from(pages, rules, i) == if k == pages.len() { -1 } else { k },
    decreases pages.len() - i,
{
    if i < k {
        lemma_first_free(pages, rules, i + 1, k);
    }
}

/// The first page that no other page must precede, or `None` when every page has
/// such a predecessor.
fn first_free(pages: &Vec<u32>, rules: &HashMap<u32, HashSet<u32>>) -> (r: Option<usize>)
    requires
        pages@.len() > 0,
    ensures
        match r {
            Some(k) => k < pages@.len() && free_at(pages@, rules@, k as int)
                && first_free_from(pages@, rules@, 0) == k,
            None => blocked(pages@, rules@) && first_free_from(pages@, rules@, 0) == -1,
        },
{
    let mut k: usize = 0;
    while k < pages.len()
        invariant
            pages@.len() > 0,
            k <= pages.len(),
            forall|k2: int| 0 <= k2 < k ==> !#[trigger] free_at(pages@, rules@, k2),
        decreases pages.len() - k,
    {
        let mut j: usize = 0;
        let mut free = true;
        while j < pages.len()
            invariant
                k < pages.len(),
                j <= pages.len(),
                free == forall|j2: int| 0 <= j2 < j && j2 != k ==> !must_precede(rules@, #[trigger] pages@[j2], pages@[k as int]),
            decreases pages.len() - j,
        {
            if j != k && precedes(rules, pages[j], pages[k]) {
                free = false;
            }
            j += 1;
        }
        if free {
            proof {
                lemma_first_free(pages@, rules@, 0, k as int);
            }
            return Some(k);
        }
        k += 1;
    }
    proof {
        let ps = pages@;
        let rs = rules@;
        assert forall|k2: int| 0 <= k2 < ps.len() implies #[trigger] has_predecessor(ps, rs, k2) by {
            assert(!free_at(ps, rs, k2));
            let j = choose|j: int| !(0 <= j < ps.len() && j != k2 ==> !must_precede(rs, #[trigger] ps[j], ps[k2]));
            assert(must_precede(rs, ps[j], ps[k2]));
        }
        assert(ps.len() > 0);
        assert(blocked(ps, rs));
        lemma_first_free(ps, rs, 0, ps.len() as int);
    }
    None
}

proof fn lemma_empty_multiset(s: Seq<u32>)
    requires
        s.len() == 0,
    ensures
        s.to_multiset() =~= Multiset::<u32>::empty(),
{
    broadcast use vstd::multiset::group_multiset_axioms;
    s.to_multiset_ensures();
    assert forall|a: u32| s.to_multiset().count(a) == 0 by {
        assert(!s.contains(a));
    }
}

/// Reorders an update so that it follows the rules: repeatedly takes the first
/// remaining page that no remaining page must precede. When the rules among the
/// remaining pages leave no such page, those pages follow in their given order.
pub fn sort_updates(update: Vec<u32>, rules: &HashMap<u32, HashSet<u32>>) -> (r: Vec<u32>)
    ensures
        r@ == rule_order(update@, rules@),
        r@.to_multiset() == update@.to_multiset(),
        in_order(r@, rules@) || exists|rest: Seq<u32>|
            rest.to_multiset().subset_of(update@.to_multiset()) && #[trigger] blocked(rest, rules@),
{
    let ghost initial = update@;
    let mut remaining = update;
    let mut sorted: Vec<u32> = Vec::new();
    proof {
        lemma_empty_multiset(sorted@);
        assert(sorted@.to_multiset().add(remaining@.to_multiset()) =~= initial.to_multiset());
        assert(sorted@ + rule_order(remaining@, rules@) =~= rule_order(initial, rules@));
    }
    while remaining.len() > 0
        invariant
            initial == update@,
            sorted@ + rule_order(remaining@, rules@) == rule_order(initial, rules@),
            sorted@.to_multiset().add(remaining@.to_multiset()) == initial.to_multiset(),
            in_order(sorted@, rules@),
            forall|i: int, j: int| 0 <= i < sorted@.len() && 0 <= j < remaining@.len()
                ==> !must_precede(rules@, #[trigger] remaining@[j], #[trigger] sorted@[i]),
        decreases remaining.len(),
    {
        match first_free(&remaining, rules) {
            Some(k) => {
                let ghost rem = remaining@;
                let ghost before = sorted@;
                let page = remaining.remove(k);
                sorted.push(page);
                proof {
                    assert(rule_order(rem, rules@) == seq![rem[k as int]] + rule_order(rem.remove(k as int), rules@));
                    assert(sorted@ + rule_order(remaining@, rules@) =~= before + rule_order(rem, rules@));
                    assert(remaining@ == rem.remove(k as int));
                    rem.to_multiset_ensures();
                    before.to_multiset_ensures();
                    assert(sorted@ == before.push(rem[k as int]));
                    assert(rem.to_multiset().count(rem[k as int]) > 0) by {
                        assert(rem.contains(rem[k as int]));
                    }
                    assert(sorted@.to_multiset().add(remaining@.to_multiset()) =~= initial.to_multiset());
                    assert forall|i: int, j: int| 0 <= i < j < sorted@.len()
                        implies !must_precede(rules@, #[trigger] sorted@[j], #[trigger] sorted@[i]) by {
                        if j == before.len() {
                            assert(sorted@[j] == rem[k as int]);
                            assert(!must_precede(rules@, rem[k as int], before[i]));
                        } else {
                            assert(in_order(before, rules@));
                            assert(sorted@[j] == before[j] && sorted@[i] == before[i]);
                        }
                    }
                    assert forall|i: int, j: int| 0 <= i < sorted@.len() && 0 <= j < remaining@.len()
                        implies !must_precede(rules@, #[trigger] remaining@[j], #[trigger] sorted@[i]) by {
                        let jj = if j < k { j } else { j + 1 };
                        assert(remaining@[j] == rem[jj]);
                        if i == before.len() {
                            assert(free_at(rem, rules@, k as int));
                            assert(jj != k);
                        } else {
                            assert(sorted@[i] == before[i]);
                        }
                    }
                }
            },
            None => {
                let ghost rest = remaining@;
                let ghost before = sorted@;
                sorted.append(&mut remaining);
                proof {
                    assert(rule_order(rest, rules@) == rest);
                    assert(sorted@ == before + rest);
                    vstd::seq_lib::lemma_multiset_commutative(before, rest);
                    assert(rest.to_multiset().subset_of(initial.to_multiset())) by {
                        assert forall|x: u32| rest.to_multiset().count(x) <= initial.to_multiset().count(x) by {}
                    }
                    assert(sorted@.to_multiset() =~= initial.to_multiset());
                    assert(blocked(rest, rules@));
                    assert(rest.to_multiset().subset_of(update@.to_multiset()));
                }
                return sorted;
            },
        }
    }
    proof {
        lemma_empty_multiset(remaining@);
        assert(sorted@.to_multiset() =~= initial.to_multiset());
        assert(rule_order(remaining@, rules@) == remaining@);
        assert(sorted@ + remaining@ =~= sorted@);
    }
    sorted
}

pub open spec fn blank_line() -> Seq<char> {
    seq!['\n', '\n']
}

/// Splits the input at its first blank line into the rules and the updates.
pub fn split_sections<'a>(input: &'a str) -> (r: Option<(&'a str, &'a str)>)
    ensures
        match r {
            Some((rules, updates)) => {
                let k = find_from(input@, blank_line(), 0);
                &&& 0 <= k
                &&& rules@ == input@.subrange(0, k)
                &&& updates@ == input@.subrange(k + 2, input@.len() as int)
            },
            None => find_from(input@, blank_line(), 0) < 0,
        },
{
    let chars = chars_of(input);
    let mut i: usize = 0;
    while i < chars.len() && chars.len() - i > 1
        invariant
            chars@ == input@,
            i <= chars@.len(),
            find_from(input@, blank_line(), 0) == find_from(input@, blank_line(), i as int),
        decreases chars@.len() - i,
    {
        if chars[i] == '\n' && chars[i + 1] == '\n' {
            assert(input@.subrange(i as int, i + 2) =~= blank_line());
            return Some((input.substring_char(0, i), input.substring_char(i + 2, chars.len())));
        }
        assert(!occurs_at(input@, blank_line(), i as int)) by {
            if occurs_at(input@, blank_line(), i as int) {
                assert(input@.subrange(i as int, i + 2)[0] == input@[i as int]);
                assert(input@.subrange(i as int, i + 2)[1] == input@[i + 1]);
            }
        }
        i += 1;
    }
    proof {
        lemma_no_blank_line_at_end(input@, i as int);
    }
    None
}

proof fn lemma_no_blank_line_at_end(s: Seq<char>, i: int)
    requires
        0 <= i,
        i + 1 >= s.len(),
    ensures
        find_from(s, blank_line(), i) < 0,
    decreases s.len() - i,
{
    if i < s.len() {
        assert(!occurs_at(s, blank_line(), i));
        lemma_no_blank_line_at_end(s, i + 1);
    }
}

} // verus!
