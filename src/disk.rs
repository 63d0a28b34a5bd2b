//! Disk maps: runs of file blocks and free space, and compaction that moves whole
//! files into the leftmost free run that holds them.
use vstd::prelude::*;
use vstd::multiset::Multiset;
use crate::number::{digit_value, is_digit, parse_unsigned, unsigned};
use crate::text::chars_of;

verus! {

broadcast use vstd::multiset::group_multiset_axioms;

/// `size` copies of `val`, one per disk block.
pub fn create_block(size: usize, val: String) -> (r: Vec<String>)
    ensures
        r@.len() == size,
        forall|i: int| 0 <= i < size ==> #[trigger] r@[i] == val,
{
    let mut blocks: Vec<String> = Vec::new();
    let mut i: usize = 0;
    while i < size
        invariant
            i <= size,
            blocks@.len() == i,
            forall|j: int| 0 <= j < i ==> #[trigger] blocks@[j] == val,
        decreases size - i,
    {
        blocks.push(val.clone());
        i += 1;
    }
    blocks
}

/// A run of `size` disk blocks holding file `val`, or free space when `val` is `None`.
#[derive(Debug, Clone, Copy, PartialEq, Eq, Structural)]
pub struct Block {
    pub val: Option<u32>,
    pub size: u8,
}

impl Block {
    pub fn new(size: u8, val: Option<u32>) -> (r: Self)
        ensures
            r == (Block { val, size }),
    {
        Block { size, val }
    }
}

/// The file a run holds, with its size, as a multiset of at most one element.
pub open spec fn file_of(b: Block) -> Multiset<(u32, u8)> {
    match b.val {
        Some(v) => Multiset::singleton((v, b.size)),
        None => Multiset::empty(),
    }
}

/// Every file on the disk with its size.
pub open spec fn files(b: Seq<Block>) -> Multiset<(u32, u8)>
    decreases b.len(),
{
    if b.len() == 0 {
        Multiset::empty()
    } else {
        files(b.drop_last()).add(file_of(b.last()))
    }
}

/// The number of disk blocks the runs cover, files and free space together.
pub open spec fn disk_size(b: Seq<Block>) -> nat
    decreases b.len(),
{
    if b.len() == 0 {
        0
    } else {
        disk_size(b.drop_last()) + b.last().size as nat
    }
}

proof fn lemma_update(b: Seq<Block>, i: int, x: Block)
    requires
        0 <= i < b.len(),
    ensures
        files(b.update(i, x)).add(file_of(b[i])) == files(b).add(file_of(x)),
        disk_size(b.update(i, x)) + b[i].size == disk_size(b) + x.size,
    decreases b.len(),
{
    let u = b.update(i, x);
    assert(files(u) == files(u.drop_last()).add(file_of(u.last())));
    assert(files(b) == files(b.drop_last()).add(file_of(b.last())));
    if i == b.len() - 1 {
        assert(u.drop_last() =~= b.drop_last());
        assert(u.last() == x);
        let p = files(b.drop_last());
        assert(files(u) == p.add(file_of(x)));
        assert(files(b) == p.add(file_of(b[i])));
        assert forall|v: (u32, u8)| #[trigger] files(u).add(file_of(b[i])).count(v) == files(b).add(file_of(x)).count(v) by {}
        assert(files(u).add(file_of(b[i])) =~= files(b).add(file_of(x)));
    } else {
        assert(u.drop_last() =~= b.drop_last().update(i, x));
        assert(u.last() == b.last());
        assert(b.drop_last()[i] == b[i]);
        lemma_update(b.drop_last(), i, x);
        let q = files(b.drop_last().update(i, x));
        let p = files(b.drop_last());
        assert(files(u) == q.add(file_of(b.last())));
        assert(q.add(file_of(b[i])) == p.add(file_of(x)));
        assert forall|v: (u32, u8)| #[trigger] files(u).add(file_of(b[i])).count(v) == files(b).add(file_of(x)).count(v) by {
            assert(q.add(file_of(b[i])).count(v) == p.add(file_of(x)).count(v));
        }
        assert(files(u).add(file_of(b[i])) =~= files(b).add(file_of(x)));
    }
}

proof fn lemma_insert(b: Seq<Block>, i: int, x: Block)
    requires
        0 <= i <= b.len(),
    ensures
        files(b.insert(i, x)) == files(b).add(file_of(x)),
        disk_size(b.insert(i, x)) == disk_size(b) + x.size,
    decreases b.len(),
{
    let n = b.insert(i, x);
    if i == b.len() {
        assert(n.drop_last() =~= b);
        assert(n.last() == x);
    } else {
        assert(n.drop_last() =~= b.drop_last().insert(i, x));
        assert(n.last() == b.last());
        lemma_insert(b.drop_last(), i, x);
        assert(files(n) =~= files(b).add(file_of(x)));
    }
}

/// Whether run `b` is free space with room for `size` blocks.
pub open spec fn fits(b: Block, size: u8) -> bool {
    b.val.is_none() && b.size >= size
}

/// The first index from `i` up to `end` of a free run with room for `size` blocks,
/// or -1.
pub open spec fn fit_from(b: Seq<Block>, i: int, end: int, size: u8) -> int
    decreases end - i,
{
    if i < 0 || i >= end || i >= b.len() {
        -1
    } else if fits(b[i], size) {
        i
    } else {
        fit_from(b, i + 1, end, size)
    }
}

/// The disk after `steps` more steps of compaction with the right-hand pointer at
/// `r`. A step looks at run `r`: free space, or a file with no free run before it
/// that holds it, moves the pointer left; a file that exactly fills the first such
/// run swaps places with it and the pointer moves left; a file that leaves room
/// over is inserted before that run, which shrinks, its old place turns free, and
/// the pointer stays on the run that has shifted under it.
pub open spec fn compact_from(b: Seq<Block>, r: int, steps: nat) -> Seq<Block>
    decreases steps,
{
    if steps == 0 || r < 0 || r >= b.len() {
        b
    } else {
        let file = b[r];
        let idx = fit_from(b, 0, r, file.size);
        if file.val.is_none() || idx < 0 {
            compact_from(b, r - 1, (steps - 1) as nat)
        } else if b[idx].size == file.size {
            compact_from(
                b.update(idx, file).update(r, Block { val: None, size: file.size }),
                r - 1,
                (steps - 1) as nat,
            )
        } else {
            compact_from(
                b.update(idx, Block { val: None, size: (b[idx].size - file.size) as u8 }).insert(
                    idx,
                    file,
                ).update(r + 1, Block { val: None, size: file.size }),
                r,
                (steps - 1) as nat,
            )
        }
    }
}

proof fn lemma_fit_from(b: Seq<Block>, i: int, end: int, size: u8, k: int)
    requires
        0 <= i <= end <= b.len(),
        forall|j: int| i <= j < k ==> !#[trigger] fits(b[j], size),
        k == end || (i <= k < end && fits(b[k], size)),
    ensures
        fit_from(b, i, end, size) == if k == end { -1 } else { k },
    decreases end - i,
{
    if i < end && i < k {
        lemma_fit_from(b, i + 1, end, size, k);
    }
}

/// The first free run before index `end` with room for `size` blocks.
fn first_fit(blocks: &Vec<Block>, end: usize, size: u8) -> (r: Option<usize>)
    requires
        end <= blocks@.len(),
    ensures
        match r {
            Some(i) => i < end && fits(blocks@[i as int], size)
                && forall|j: int| 0 <= j < i ==> !#[trigger] fits(blocks@[j], size),
            None => forall|j: int| 0 <= j < end ==> !#[trigger] fits(blocks@[j], size),
        },
{
    let mut i: usize = 0;
    while i < end
        invariant
            end <= blocks@.len(),
            i <= end,
            forall|j: int| 0 <= j < i ==> !#[trigger] fits(blocks@[j], size),
        decreases end - i,
    {
        if blocks[i].val.is_none() && blocks[i].size >= size {
            return Some(i);
        }
        i += 1;
    }
    None
}

/// Compacts the disk file by file, from the rightmost run to the left: each file
/// moves, whole, into the leftmost free run before it that is large enough; the
/// free run keeps whatever room is left over, and the file's old place becomes
/// free. Files that find no such run stay where they are.
pub fn shift_blocks(blocks: &mut Vec<Block>)
    ensures
        old(blocks)@.len() > 0 ==> final(blocks)@ == compact_from(
            old(blocks)@,
            old(blocks)@.len() - 1,
            (old(blocks)@.len() - 1) as nat,
        ),
        old(blocks)@.len() == 0 ==> final(blocks)@ == old(blocks)@,
        files(final(blocks)@) == files(old(blocks)@),
        disk_size(final(blocks)@) == disk_size(old(blocks)@),
{
    if blocks.len() == 0 {
        return;
    }
    let ghost initial = blocks@;
    let mut right_ptr: usize = blocks.len() - 1;
    let mut remaining: usize = right_ptr;
    while remaining > 0
        invariant
            remaining <= right_ptr < blocks@.len(),
            initial.len() > 0,
            compact_from(blocks@, right_ptr as int, remaining as nat) == compact_from(
                initial,
                initial.len() - 1,
                (initial.len() - 1) as nat,
            ),
            files(blocks@) == files(initial),
            disk_size(blocks@) == disk_size(initial),
        decreases remaining,
    {
        let block = blocks[right_ptr];
        let ghost cur = blocks@;
        match block.val {
            None => {
                right_ptr -= 1;
            },
            Some(_) => {
                let found = first_fit(blocks, right_ptr, block.size);
                proof {
                    match found {
                        Some(idx) => lemma_fit_from(cur, 0, right_ptr as int, block.size, idx as int),
                        None => lemma_fit_from(cur, 0, right_ptr as int, block.size, right_ptr as int),
                    }
                }
                match found {
                    None => {
                        right_ptr -= 1;
                    },
                    Some(idx) => {
                        let free = blocks[idx];
                        let ghost b0 = blocks@;
                        if free.size == block.size {
                            blocks.set(idx, block);
                            let ghost b1 = blocks@;
                            blocks.set(right_ptr, Block::new(block.size, None));
                            proof {
                                lemma_update(b0, idx as int, block);
                                lemma_update(b1, right_ptr as int, Block { val: None, size: block.size });
                                assert(b1[right_ptr as int] == block);
                                assert(file_of(b0[idx as int]) =~= Multiset::empty());
                                assert(files(b1) =~= files(b0).add(file_of(block)));
                                assert(files(blocks@).add(file_of(block)) =~= files(b1));
                                assert forall|v: (u32, u8)| #[trigger] files(blocks@).count(v) == files(b0).count(v) by {
                                    assert(files(blocks@).add(file_of(block)).count(v) == files(b1).count(v));
                                    assert(files(b0).add(file_of(block)).count(v) == files(b1).count(v));
                                }
                                assert(files(blocks@) =~= files(b0));
                            }
                            right_ptr -= 1;
                        } else {
                            blocks.set(idx, Block::new(free.size - block.size, None));
                            let ghost b1 = blocks@;
                            blocks.insert(idx, block);
                            let ghost b2 = blocks@;
                            let len = blocks.len();
                            assert(right_ptr + 1 < len);
                            blocks.set(right_ptr + 1, Block::new(block.size, None));
                            proof {
                                lemma_update(b0, idx as int, Block { val: None, size: (free.size - block.size) as u8 });
                                lemma_insert(b1, idx as int, block);
                                assert(b2[right_ptr + 1] == block);
                                lemma_update(b2, right_ptr + 1, Block { val: None, size: block.size });
                                assert(file_of(b0[idx as int]) =~= Multiset::empty());
                                assert forall|v: (u32, u8)| #[trigger] files(b1).count(v) == files(b0).count(v) by {
                                    assert(files(b1).add(file_of(b0[idx as int])).count(v) == files(b0).add(file_of(Block { val: None, size: (free.size - block.size) as u8 })).count(v));
                                }
                                assert(files(b1) =~= files(b0));
                                assert(files(b2) =~= files(b0).add(file_of(block)));
                                assert(files(blocks@).add(file_of(block)) =~= files(b2));
                                assert forall|v: (u32, u8)| #[trigger] files(blocks@).count(v) == files(b0).count(v) by {
                                    assert(files(blocks@).add(file_of(block)).count(v) == files(b2).count(v));
                                    assert(files(b0).add(file_of(block)).count(v) == files(b2).count(v));
                                }
                                assert(files(blocks@) =~= files(b0));
                            }
                        }
                    },
                }
            },
        }
        remaining -= 1;
    }
}

/// Whether a single-block entry is free space, written `.`.
pub open spec fn is_free(s: Seq<char>) -> bool {
    s == seq!['.']
}

/// The contents of single disk blocks.
pub open spec fn block_views(blocks: Seq<String>) -> Seq<Seq<char>> {
    blocks.map_values(|s: String| s@)
}

/// Whether no free block comes before a file block.
pub open spec fn is_compact(blocks: Seq<Seq<char>>) -> bool {
    forall|i: int, j: int| 0 <= i < j < blocks.len() && is_free(#[trigger] blocks[i]) ==> is_free(#[trigger] blocks[j])
}

fn free_block(s: &String) -> (r: bool)
    ensures
        r == is_free(s@),
{
    let t = s.as_str();
    let n = t.unicode_len();
    if n != 1 {
        return false;
    }
    let c = t.get_char(0);
    proof {
        if c == '.' {
            assert(s@ =~= seq!['.']);
        }
    }
    c == '.'
}

proof fn lemma_update_multiset<A>(s: Seq<A>, i: int, a: A)
    requires
        0 <= i < s.len(),
    ensures
        s.update(i, a).to_multiset() == s.to_multiset().remove(s[i]).insert(a),
{
    assert(s.update(i, a) =~= s.remove(i).insert(i, a));
    vstd::seq_lib::to_multiset_remove(s, i);
    vstd::seq_lib::to_multiset_insert(s.remove(i), i, a);
}

proof fn lemma_swap_multiset<A>(s: Seq<A>, i: int, j: int)
    requires
        0 <= i < s.len(),
        0 <= j < s.len(),
        i != j,
    ensures
        s.update(i, s[j]).update(j, s[i]).to_multiset() == s.to_multiset(),
{
    let s1 = s.update(i, s[j]);
    lemma_update_multiset(s, i, s[j]);
    lemma_update_multiset(s1, j, s[i]);
    s.to_multiset_ensures();
    assert(s.contains(s[i]));
    assert(s1.update(j, s[i]).to_multiset() =~= s.to_multiset());
}

/// The first free block at or after `i`, or the length when there is none.
pub open spec fn next_free(v: Seq<Seq<char>>, i: int) -> int
    decreases v.len() - i,
{
    if i < 0 || i >= v.len() {
        v.len() as int
    } else if is_free(v[i]) {
        i
    } else {
        next_free(v, i + 1)
    }
}

/// The last file block at or before `j`, or zero when there is none after the
/// first block.
pub open spec fn last_file(v: Seq<Seq<char>>, j: int) -> int
    decreases j,
{
    if j <= 0 || j >= v.len() {
        if j >= v.len() { j } else { 0 }
    } else if !is_free(v[j]) {
        j
    } else {
        last_file(v, j - 1)
    }
}

/// The blocks after compacting with the left pointer at `left` and the right one at
/// `right`: the left pointer moves to the next free block, the right one to the
/// last file block, and while they have not met the two blocks trade places.
pub open spec fn compact_between(v: Seq<Seq<char>>, left: int, right: int) -> Seq<Seq<char>>
    decreases v.len() - left + right,
{
    let l = next_free(v, left);
    let r = last_file(v, right);
    if left < 0 || right < 0 || right >= v.len() || l < left || r > right || l >= r {
        v
    } else {
        compact_between(v.update(l, v[r]).update(r, v[l]), l + 1, r - 1)
    }
}

proof fn lemma_next_free_skip(v: Seq<Seq<char>>, a: int, b: int)
    requires
        0 <= a <= b <= v.len(),
        forall|j: int| a <= j < b ==> !is_free(#[trigger] v[j]),
    ensures
        next_free(v, a) == next_free(v, b),
    decreases b - a,
{
    if a < b {
        lemma_next_free_skip(v, a + 1, b);
    }
}

proof fn lemma_last_file_skip(v: Seq<Seq<char>>, a: int, b: int)
    requires
        0 <= b <= a < v.len(),
        forall|j: int| b < j <= a ==> is_free(#[trigger] v[j]),
    ensures
        last_file(v, a) == last_file(v, b),
    decreases a - b,
{
    if b < a {
        lemma_last_file_skip(v, a - 1, b);
    }
}

/// Compacts single blocks: repeatedly moves the rightmost file block into the
/// leftmost free block, until no free block lies before a file block.
pub fn compact_blocks(blocks: &mut Vec<String>)
    ensures
        old(blocks)@.len() > 0 ==> block_views(final(blocks)@) == compact_between(
            block_views(old(blocks)@),
            0,
            old(blocks)@.len() - 1,
        ),
        old(blocks)@.len() == 0 ==> final(blocks)@ == old(blocks)@,
        block_views(final(blocks)@).to_multiset() == block_views(old(blocks)@).to_multiset(),
        is_compact(block_views(final(blocks)@)),
{
    let n = blocks.len();
    if n == 0 {
        assert(is_compact(block_views(blocks@)));
        return;
    }
    let ghost initial = block_views(blocks@);
    let mut left: usize = 0;
    let mut right: usize = n - 1;
    loop
        invariant
            initial == block_views(old(blocks)@),
            n == old(blocks)@.len(),
            n == blocks@.len(),
            left <= n,
            right < n,
            block_views(blocks@).to_multiset() == initial.to_multiset(),
            compact_between(block_views(blocks@), left as int, right as int) == compact_between(initial, 0, n - 1),
            forall|i: int| 0 <= i < left ==> !is_free(#[trigger] block_views(blocks@)[i]),
            forall|i: int| right < i < n ==> is_free(#[trigger] block_views(blocks@)[i]),
        decreases n - left + right,
    {
        let ghost left0 = left;
        let ghost right0 = right;
        let ghost v = block_views(blocks@);
        while left < n && !free_block(&blocks[left])
            invariant
                v == block_views(blocks@),
                n == blocks@.len(),
                left0 <= left <= n,
                forall|i: int| 0 <= i < left ==> !is_free(#[trigger] block_views(blocks@)[i]),
            decreases n - left,
        {
            left += 1;
        }
        proof {
            lemma_next_free_skip(v, left0 as int, left as int);
        }
        while right > 0 && free_block(&blocks[right])
            invariant
                v == block_views(blocks@),
                n == blocks@.len(),
                right <= right0 < n,
                forall|i: int| right < i < n ==> is_free(#[trigger] block_views(blocks@)[i]),
            decreases right,
        {
            right -= 1;
        }
        proof {
            lemma_last_file_skip(v, right0 as int, right as int);
            assert(next_free(v, left0 as int) == left as int);
            assert(last_file(v, right0 as int) == right as int);
        }
        if left >= right {
            proof {
                assert(compact_between(v, left0 as int, right0 as int) == v);
                assert forall|i: int, j: int| 0 <= i < j < v.len() && is_free(#[trigger] v[i]) implies is_free(#[trigger] v[j]) by {
                    if j <= right {
                        assert(i < left);
                    }
                }
            }
            return;
        }
        let ghost before = block_views(blocks@);
        let mut moved = String::new();
        blocks.set_and_swap(left, &mut moved);
        blocks.set_and_swap(right, &mut moved);
        blocks.set_and_swap(left, &mut moved);
        proof {
            assert(block_views(blocks@) =~= before.update(left as int, before[right as int]).update(right as int, before[left as int]));
            lemma_swap_multiset(before, left as int, right as int);
            assert(compact_between(v, left0 as int, right0 as int) == compact_between(
                block_views(blocks@),
                left + 1,
                right - 1,
            ));
        }
        left += 1;
        right -= 1;
    }
}

/// The runs a disk map describes: its digits alternate between the size of a file
/// and the size of the free space after it, and files are numbered from zero.
pub open spec fn runs_of(map: Seq<char>) -> Seq<Block> {
    Seq::new(
        map.len(),
        |i: int| Block {
            val: if i % 2 == 0 { Some((i / 2) as u32) } else { None },
            size: digit_value(map[i]) as u8,
        },
    )
}

/// Reads a disk map; `None` when a character is not a digit or there are more
/// files than `u32` numbers.
pub fn parse_disk_map(map: &str) -> (r: Option<Vec<Block>>)
    ensures
        match r {
            Some(runs) => (forall|i: int| 0 <= i < map@.len() ==> is_digit(#[trigger] map@[i]))
                && map@.len() / 2 <= u32::MAX && runs@ == runs_of(map@),
            None => (exists|i: int| 0 <= i < map@.len() && !is_digit(#[trigger] map@[i])) || map@.len() / 2 > u32::MAX,
        },
{
    let chars = chars_of(map);
    if chars.len() / 2 > 4294967295 {
        return None;
    }
    let mut runs: Vec<Block> = Vec::new();
    let mut i: usize = 0;
    while i < chars.len()
        invariant
            chars@ == map@,
            chars@.len() / 2 <= u32::MAX,
            i <= chars@.len(),
            forall|j: int| 0 <= j < i ==> is_digit(#[trigger] map@[j]),
            runs@ == runs_of(map@).take(i as int),
        decreases chars@.len() - i,
    {
        let c = chars[i];
        if c < '0' || c > '9' {
            assert(!is_digit(map@[i as int]));
            return None;
        }
        let size = ((c as u32) - ('0' as u32)) as u8;
        let val = if i % 2 == 0 { Some((i / 2) as u32) } else { None };
        runs.push(Block { val, size });
        i += 1;
        assert(runs@ =~= runs_of(map@).take(i as int));
    }
    assert(runs@ =~= runs_of(map@));
    Some(runs)
}

/// The checksum of the runs from index `k` on, the first of them starting at disk
/// position `offset`: every file block adds its position times its file number.
pub open spec fn run_checksum(runs: Seq<Block>, k: int, offset: nat) -> nat
    decreases runs.len() - k,
{
    if k < 0 || k >= runs.len() {
        0
    } else {
        let b = runs[k];
        let here: nat = match b.val {
            Some(v) => (v as nat) * (b.size as nat * offset + b.size as nat * (b.size as nat - 1) / 2) as nat,
            None => 0,
        };
        here + run_checksum(runs, k + 1, offset + b.size as nat)
    }
}

/// The filesystem checksum of a disk laid out in runs.
pub fn checksum(runs: &Vec<Block>) -> (r: u128)
    requires
        runs@.len() <= u32::MAX,
    ensures
        r == run_checksum(runs@, 0, 0),
{
    let mut total: u128 = 0;
    let mut offset: u64 = 0;
    let mut k: usize = 0;
    while k < runs.len()
        invariant
            runs@.len() <= u32::MAX,
            k <= runs@.len(),
            offset <= 255 * k,
            total + run_checksum(runs@, k as int, offset as nat) == run_checksum(runs@, 0, 0),
            total <= k * 0x400_0000_0000_0000_0000_0000,
        decreases runs@.len() - k,
    {
        let b = runs[k];
        let size = b.size as u128;
        proof {
            if size >= 1 {
                assert(size * (size - 1) <= 255 * 255) by (nonlinear_arith)
                    requires
                        1 <= size <= 255,
                ;
            }
            assert(size * (offset as int) <= 255 * 255 * 0x1_0000_0000) by (nonlinear_arith)
                requires
                    size <= 255,
                    offset <= 255 * k,
                    k < 0x1_0000_0000,
            ;
        }
        let tri: u128 = if size == 0 { 0 } else { size * (size - 1) / 2 };
        let positions = size * (offset as u128) + tri;
        proof {
            let sz = b.size as nat;
            if size == 0 {
                assert(sz * (sz - 1) == 0) by (nonlinear_arith)
                    requires
                        sz == 0,
                ;
            }
            assert(positions as int == (sz * (offset as nat) + sz * (sz - 1) / 2) as nat);
        }
        if let Some(v) = b.val {
            proof {
                assert((v as int) * (positions as int) <= 0x400_0000_0000_0000_0000_0000) by (nonlinear_arith)
                    requires
                        v <= u32::MAX,
                        positions <= 255 * 255 * 0x1_0000_0000 + 255 * 255,
                ;
                assert((k + 1) * 0x400_0000_0000_0000_0000_0000 <= u128::MAX) by (nonlinear_arith)
                    requires
                        k < 0x1_0000_0000,
                ;
            }
            total = total + (v as u128) * positions;
        }
        offset = offset + b.size as u64;
        k += 1;
    }
    total
}

/// The checksum of the first `n` single blocks: each file block adds its index
/// times its file number; `None` when a block is neither free nor a number.
pub open spec fn block_checksum(blocks: Seq<Seq<char>>, n: int) -> Option<nat>
    decreases n,
{
    if n <= 0 {
        Some(0)
    } else {
        match block_checksum(blocks, n - 1) {
            None => None,
            Some(total) => if is_free(blocks[n - 1]) {
                Some(total)
            } else {
                match unsigned(blocks[n - 1], u32::MAX as nat) {
                    Some(v) => Some(total + ((n - 1) * v) as nat),
                    None => None,
                }
            },
        }
    }
}

/// The filesystem checksum of a disk of single blocks.
pub fn single_block_checksum(blocks: &Vec<String>) -> (r: Option<u128>)
    requires
        blocks@.len() <= u32::MAX,
    ensures
        r == match block_checksum(block_views(blocks@), blocks@.len() as int) {
            Some(v) => Some(v as u128),
            None => None::<u128>,
        },
{
    let ghost views = block_views(blocks@);
    let mut total: u128 = 0;
    let mut i: usize = 0;
    while i < blocks.len()
        invariant
            views == block_views(blocks@),
            blocks@.len() <= u32::MAX,
            i <= blocks@.len(),
            block_checksum(views, i as int) == Some(total as nat),
            total <= i * 0x1_0000_0000 * 0x1_0000_0000,
        decreases blocks@.len() - i,
    {
        let block = &blocks[i];
        assert(block@ == views[i as int]);
        if !free_block(block) {
            let chars = chars_of(block.as_str());
            assert(chars@.subrange(0, chars@.len() as int) =~= views[i as int]);
            match parse_unsigned(&chars, 0, chars.len(), 4294967295) {
                Some(v) => {
                    proof {
                        assert((i as int) * (v as int) <= 0x1_0000_0000 * 0x1_0000_0000) by (nonlinear_arith)
                            requires
                                i < 0x1_0000_0000,
                                v <= u32::MAX,
                        ;
                        assert((i + 1) * 0x1_0000_0000 * 0x1_0000_0000 <= u128::MAX) by (nonlinear_arith)
                            requires
                                i < 0x1_0000_0000,
                        ;
                    }
                    total = total + (i as u128) * (v as u128);
                },
                None => {
                    proof {
                        lemma_checksum_stays_none(views, i as int + 1, blocks@.len() as int);
                    }
                    return None;
                },
            }
        }
        i += 1;
    }
    Some(total)
}

proof fn lemma_checksum_stays_none(blocks: Seq<Seq<char>>, a: int, b: int)
    requires
        a <= b,
        block_checksum(blocks, a).is_none(),
    ensures
        block_checksum(blocks, b).is_none(),
    decreases b - a,
{
    if a < b {
        lemma_checksum_stays_none(blocks, a, b - 1);
    }
}

} // verus!
