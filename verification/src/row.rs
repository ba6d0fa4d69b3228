//! One line of the grid: powers of two, the slide-and-merge of a single row
//! towards its leading edge, and what the slide keeps.

use vstd::prelude::*;

verus! {

/// The largest tile value the engine computes with: 2^20. Every score fits
/// in a `u32` while no tile is above it. Play from a fresh board stays far
/// below: sixteen cells cannot build a tile above 131072.
pub const TILE_CAP: u32 = 1_048_576;

/// `v` is 1, 2, 4, 8, ...
pub open spec fn is_pow2(v: nat) -> bool
    decreases v,
{
    v == 1 || (v >= 2 && v % 2 == 0 && is_pow2(v / 2))
}

/// A cell is empty (0) or holds a power of two between 2 and `cap`.
pub open spec fn is_tile(v: u32, cap: nat) -> bool {
    v == 0 || (2 <= v <= cap && is_pow2(v as nat))
}

/// Every cell of the line is empty or a tile of at most `cap`.
pub open spec fn tiles_within(s: Seq<u32>, cap: nat) -> bool {
    forall|i: int| 0 <= i < s.len() ==> is_tile(#[trigger] s[i], cap)
}

/// The integer part of the binary logarithm; 0 for 0 and for 1.
pub open spec fn log2_floor(v: nat) -> nat
    decreases v,
{
    if v < 2 {
        0
    } else {
        1 + log2_floor(v / 2)
    }
}

/// The sum of the values of a line.
pub open spec fn seq_sum(s: Seq<u32>) -> nat
    decreases s.len(),
{
    if s.len() == 0 {
        0
    } else {
        seq_sum(s.drop_last()) + s.last() as nat
    }
}

/// The number of empty cells of a line.
pub open spec fn zeros_in(s: Seq<u32>) -> nat
    decreases s.len(),
{
    if s.len() == 0 {
        0
    } else {
        zeros_in(s.drop_last()) + if s.last() == 0 { 1nat } else { 0nat }
    }
}

/// The tiles of a line in their order, the gaps closed.
pub open spec fn compact(s: Seq<u32>) -> Seq<u32>
    decreases s.len(),
{
    if s.len() == 0 {
        s
    } else if s.last() == 0 {
        compact(s.drop_last())
    } else {
        compact(s.drop_last()).push(s.last())
    }
}

/// Merges equal neighbours of a gap-free line from the leading edge on. A tile
/// made by a merge is not looked at again.
pub open spec fn merge_pairs(t: Seq<u32>) -> Seq<u32>
    decreases t.len(),
{
    if t.len() < 2 {
        t
    } else if t[0] == t[1] {
        seq![(2 * t[0]) as u32] + merge_pairs(t.skip(2))
    } else {
        seq![t[0]] + merge_pairs(t.skip(1))
    }
}

/// The sum of the tiles that `merge_pairs` makes.
pub open spec fn merge_gain(t: Seq<u32>) -> nat
    decreases t.len(),
{
    if t.len() < 2 {
        0
    } else if t[0] == t[1] {
        2 * t[0] as nat + merge_gain(t.skip(2))
    } else {
        merge_gain(t.skip(1))
    }
}

/// `t` followed by empty cells up to length `n`.
pub open spec fn pad(t: Seq<u32>, n: nat) -> Seq<u32> {
    t + Seq::new((n - t.len()) as nat, |i: int| 0u32)
}

/// A line after a move towards its start: compacted, merged, filled up.
pub open spec fn slide_row(s: Seq<u32>) -> Seq<u32> {
    pad(merge_pairs(compact(s)), s.len())
}

/// The sum of the tiles that a move towards the start of the line merges.
pub open spec fn row_gain(s: Seq<u32>) -> nat {
    merge_gain(compact(s))
}

/// Twice a power of two is a power of two.
pub proof fn lemma_pow2_double(v: nat)
    requires
        is_pow2(v),
    ensures
        is_pow2(2 * v),
{
    assert((2 * v) / 2 == v);
}

/// 2 to the power `k`.
pub open spec fn two_pow(k: nat) -> nat
    decreases k,
{
    if k == 0 {
        1
    } else {
        2 * two_pow((k - 1) as nat)
    }
}

/// A value below 2^(k+1) has a binary logarithm of at most `k`.
pub proof fn lemma_log2_below(v: nat, k: nat)
    requires
        v < two_pow(k + 1),
    ensures
        log2_floor(v) <= k,
    decreases k,
{
    if v >= 2 {
        if k == 0 {
            reveal_with_fuel(two_pow, 2);
        } else {
            lemma_log2_below(v / 2, (k - 1) as nat);
        }
    }
}

/// The binary logarithm is bracketed as a floor is: 2^log <= v < 2^(log+1).
pub proof fn law_log2_is_floor(v: nat)
    requires
        v >= 1,
    ensures
        two_pow(log2_floor(v)) <= v < two_pow(log2_floor(v) + 1),
    decreases v,
{
    reveal_with_fuel(two_pow, 2);
    if v >= 2 {
        law_log2_is_floor(v / 2);
    }
}

/// The integer part of the binary logarithm of `v`, 0 for an empty cell.
pub fn floor_log2(v: u32) -> (r: u32)
    ensures
        r == log2_floor(v as nat),
        r <= 31,
{
    let mut r: u32 = 0;
    let mut x: u32 = v;
    proof {
        reveal_with_fuel(two_pow, 33);
        lemma_log2_below(v as nat, 31);
    }
    while x >= 2
        invariant
            r + log2_floor(x as nat) == log2_floor(v as nat),
            log2_floor(v as nat) <= 31,
        decreases x,
    {
        x = x / 2;
        r = r + 1;
    }
    r
}

/// Whether `v` is a power of two.
pub fn power_of_two(v: u32) -> (r: bool)
    ensures
        r == is_pow2(v as nat),
{
    let mut x: u32 = v;
    while x >= 2 && x % 2 == 0
        invariant
            is_pow2(x as nat) == is_pow2(v as nat),
        decreases x,
    {
        x = x / 2;
    }
    x == 1
}

/// Closing the gaps drops exactly the empty cells.
pub proof fn lemma_compact_len(s: Seq<u32>)
    ensures
        compact(s).len() + zeros_in(s) == s.len(),
        forall|i: int| 0 <= i < compact(s).len() ==> #[trigger] compact(s)[i] != 0,
    decreases s.len(),
{
    if s.len() > 0 {
        lemma_compact_len(s.drop_last());
    }
}

/// A merge never lengthens a line and at most halves it.
pub proof fn lemma_merge_len(t: Seq<u32>)
    ensures
        merge_pairs(t).len() <= t.len(),
        2 * merge_pairs(t).len() >= t.len(),
    decreases t.len(),
{
    if t.len() >= 2 {
        if t[0] == t[1] {
            lemma_merge_len(t.skip(2));
        } else {
            lemma_merge_len(t.skip(1));
        }
    }
}

/// No value of the line is above `m`.
pub open spec fn all_at_most(s: Seq<u32>, m: nat) -> bool {
    forall|i: int| 0 <= i < s.len() ==> #[trigger] s[i] <= m
}

/// The sum of two lines put end to end is the sum of their sums.
pub proof fn lemma_sum_concat(a: Seq<u32>, b: Seq<u32>)
    ensures
        seq_sum(a + b) == seq_sum(a) + seq_sum(b),
    decreases b.len(),
{
    if b.len() == 0 {
        assert(a + b == a);
    } else {
        assert((a + b).drop_last() == a + b.drop_last());
        lemma_sum_concat(a, b.drop_last());
    }
}

/// The sum of a single value is that value.
pub proof fn lemma_sum_one(x: u32)
    ensures
        seq_sum(seq![x]) == x,
{
    assert(seq![x].drop_last() =~= Seq::<u32>::empty());
    assert(seq_sum(seq![x].drop_last()) == 0);
}

/// Closing the gaps of a line keeps its sum and every bound on its values.
pub proof fn lemma_sum_compact(s: Seq<u32>, m: nat)
    requires
        all_at_most(s, m),
    ensures
        seq_sum(compact(s)) == seq_sum(s),
        all_at_most(compact(s), m),
    decreases s.len(),
{
    if s.len() > 0 {
        assert(all_at_most(s.drop_last(), m)) by {
            assert forall|i: int| 0 <= i < s.drop_last().len() implies #[trigger] s.drop_last()[i]
                <= m by {
                assert(s[i] <= m);
            }
        }
        lemma_sum_compact(s.drop_last(), m);
        if s.last() != 0 {
            assert(compact(s).drop_last() == compact(s.drop_last()));
            assert(s[s.len() - 1] <= m);
        }
    }
}

/// Merging keeps the sum of a line, while no doubling overflows.
pub proof fn lemma_sum_merge(t: Seq<u32>)
    requires
        all_at_most(t, 0x7fff_ffff),
    ensures
        seq_sum(merge_pairs(t)) == seq_sum(t),
    decreases t.len(),
{
    if t.len() >= 2 {
        let k: int = if t[0] == t[1] { 2 } else { 1 };
        let rest = t.skip(k);
        assert(all_at_most(rest, 0x7fff_ffff)) by {
            assert forall|i: int| 0 <= i < rest.len() implies #[trigger] rest[i] <= 0x7fff_ffff by {
                assert(t[i + k] <= 0x7fff_ffff);
            }
        }
        lemma_sum_merge(rest);
        assert(t[0] <= 0x7fff_ffff);
        assert(t =~= seq![t[0]] + t.skip(1));
        lemma_sum_concat(seq![t[0]], t.skip(1));
        lemma_sum_one(t[0]);
        if t[0] == t[1] {
            let u = t.skip(1);
            assert(u =~= seq![t[1]] + rest);
            lemma_sum_concat(seq![t[1]], rest);
            lemma_sum_one(t[1]);
            lemma_sum_concat(seq![(2 * t[0]) as u32], merge_pairs(rest));
            lemma_sum_one((2 * t[0]) as u32);
        } else {
            lemma_sum_concat(seq![t[0]], merge_pairs(rest));
        }
    }
}

/// Empty cells sum to 0.
pub proof fn lemma_sum_blank(n: nat)
    ensures
        seq_sum(Seq::new(n, |i: int| 0u32)) == 0,
    decreases n,
{
    if n > 0 {
        assert(Seq::new(n, |i: int| 0u32).drop_last() =~= Seq::new((n - 1) as nat, |i: int| 0u32));
        lemma_sum_blank((n - 1) as nat);
    }
}

/// A slide keeps the length and the sum of a row, while no doubling
/// overflows.
pub proof fn lemma_slide_row_sum(s: Seq<u32>)
    requires
        all_at_most(s, 0x7fff_ffff),
    ensures
        seq_sum(slide_row(s)) == seq_sum(s),
        slide_row(s).len() == s.len(),
{
    lemma_sum_compact(s, 0x7fff_ffff);
    lemma_compact_len(s);
    let c = compact(s);
    lemma_sum_merge(c);
    lemma_merge_len(c);
    let t = merge_pairs(c);
    lemma_sum_concat(t, Seq::new((s.len() - t.len()) as nat, |i: int| 0u32));
    lemma_sum_blank((s.len() - t.len()) as nat);
}

/// A line without an empty cell has no gap to close.
pub proof fn lemma_compact_full(s: Seq<u32>)
    requires
        zeros_in(s) == 0,
    ensures
        compact(s) == s,
    decreases s.len(),
{
    if s.len() > 0 {
        lemma_compact_full(s.drop_last());
        assert(s.drop_last().push(s.last()) =~= s);
    }
}

/// A merge that keeps the length of a line changes nothing.
pub proof fn lemma_merge_full(t: Seq<u32>)
    requires
        merge_pairs(t).len() == t.len(),
    ensures
        merge_pairs(t) == t,
    decreases t.len(),
{
    if t.len() >= 2 {
        if t[0] == t[1] {
            lemma_merge_len(t.skip(2));
        } else {
            lemma_merge_len(t.skip(1));
            lemma_merge_full(t.skip(1));
            assert(seq![t[0]] + t.skip(1) =~= t);
        }
    }
}

/// A slide that changes a row leaves its last cell empty.
pub proof fn lemma_slide_row_changed(s: Seq<u32>)
    requires
        s.len() > 0,
        slide_row(s) != s,
    ensures
        slide_row(s)[s.len() - 1] == 0,
        slide_row(s).len() == s.len(),
{
    let c = compact(s);
    let t = merge_pairs(c);
    lemma_compact_len(s);
    lemma_merge_len(c);
    if t.len() == s.len() {
        lemma_compact_full(s);
        lemma_merge_full(c);
        assert(slide_row(s) =~= s);
    }
}

/// The empty cells of two lines put end to end are those of both.
pub proof fn lemma_zeros_concat(a: Seq<u32>, b: Seq<u32>)
    ensures
        zeros_in(a + b) == zeros_in(a) + zeros_in(b),
    decreases b.len(),
{
    if b.len() == 0 {
        assert(a + b == a);
    } else {
        assert((a + b).drop_last() == a + b.drop_last());
        lemma_zeros_concat(a, b.drop_last());
    }
}

/// `n` empty cells count as `n`.
pub proof fn lemma_zeros_blank(n: nat)
    ensures
        zeros_in(Seq::new(n, |i: int| 0u32)) == n,
    decreases n,
{
    if n > 0 {
        assert(Seq::new(n, |i: int| 0u32).drop_last() =~= Seq::new((n - 1) as nat, |i: int| 0u32));
        lemma_zeros_blank((n - 1) as nat);
    }
}

/// A merge that keeps the length of a line merges nothing.
pub proof fn lemma_merge_full_gain(t: Seq<u32>)
    requires
        merge_pairs(t).len() == t.len(),
    ensures
        merge_gain(t) == 0,
    decreases t.len(),
{
    if t.len() >= 2 {
        if t[0] == t[1] {
            lemma_merge_len(t.skip(2));
        } else {
            lemma_merge_len(t.skip(1));
            lemma_merge_full_gain(t.skip(1));
        }
    }
}

/// A slide that leaves a row as it was has merged nothing.
pub proof fn lemma_slide_row_unchanged(s: Seq<u32>)
    requires
        slide_row(s) == s,
    ensures
        row_gain(s) == 0,
{
    let c = compact(s);
    let t = merge_pairs(c);
    lemma_compact_len(s);
    lemma_merge_len(c);
    let blank = Seq::new((s.len() - t.len()) as nat, |i: int| 0u32);
    lemma_zeros_concat(t, blank);
    lemma_zeros_blank((s.len() - t.len()) as nat);
    lemma_merge_full_gain(c);
}

/// Closing the gaps keeps every cell a tile within the bound.
pub proof fn lemma_compact_tiles(s: Seq<u32>, cap: nat)
    requires
        tiles_within(s, cap),
    ensures
        tiles_within(compact(s), cap),
    decreases s.len(),
{
    if s.len() > 0 {
        assert forall|i: int| 0 <= i < s.drop_last().len() implies is_tile(
            #[trigger] s.drop_last()[i],
            cap,
        ) by {
            assert(is_tile(s[i], cap));
        }
        lemma_compact_tiles(s.drop_last(), cap);
        assert(is_tile(s[s.len() - 1], cap));
    }
}

/// Merging tiles within a bound gives tiles within twice the bound.
pub proof fn lemma_merge_tiles(t: Seq<u32>, cap: nat)
    requires
        tiles_within(t, cap),
        cap <= 0x7fff_ffff,
    ensures
        tiles_within(merge_pairs(t), 2 * cap),
    decreases t.len(),
{
    assert forall|i: int| 0 <= i < t.len() implies is_tile(#[trigger] t[i], 2 * cap) by {
        assert(is_tile(t[i], cap));
    }
    if t.len() >= 2 {
        let k: int = if t[0] == t[1] { 2 } else { 1 };
        let rest = t.skip(k);
        assert forall|i: int| 0 <= i < rest.len() implies is_tile(#[trigger] rest[i], cap) by {
            assert(is_tile(t[i + k], cap));
        }
        lemma_merge_tiles(rest, cap);
        assert(is_tile(t[0], cap));
        if t[0] != 0 {
            lemma_pow2_double(t[0] as nat);
        }
        let m = merge_pairs(t);
        assert forall|i: int| 0 <= i < m.len() implies is_tile(#[trigger] m[i], 2 * cap) by {
            if i > 0 {
                assert(m[i] == merge_pairs(rest)[i - 1]);
            }
        }
    }
}

/// A slide of tiles within a bound gives tiles within twice the bound.
pub proof fn lemma_slide_row_tiles(s: Seq<u32>, cap: nat)
    requires
        tiles_within(s, cap),
        cap <= 0x7fff_ffff,
    ensures
        tiles_within(slide_row(s), 2 * cap),
{
    lemma_compact_tiles(s, cap);
    lemma_merge_tiles(compact(s), cap);
    let t = merge_pairs(compact(s));
    let r = slide_row(s);
    assert forall|i: int| 0 <= i < r.len() implies is_tile(#[trigger] r[i], 2 * cap) by {
        if i < t.len() {
            assert(is_tile(t[i], 2 * cap));
        }
    }
}

/// A line with an empty cell counts at least one.
pub proof fn lemma_has_zero(s: Seq<u32>, i: int)
    requires
        0 <= i < s.len(),
        s[i] == 0,
    ensures
        zeros_in(s) > 0,
    decreases s.len(),
{
    if i < s.len() - 1 {
        lemma_has_zero(s.drop_last(), i);
    }
}

/// Slides one row towards index 0 and merges equal neighbours once. Returns
/// the new row and the sum of the tiles that the merges made.
pub fn slide_row_left(row: &[u32; 4]) -> (out: ([u32; 4], u32))
    requires
        tiles_within(row@, TILE_CAP as nat),
    ensures
        out.0@ == slide_row(row@),
        out.1 == row_gain(row@),
        tiles_within(out.0@, 2 * TILE_CAP as nat),
        tiles_within(row@, (TILE_CAP / 2) as nat) ==> tiles_within(out.0@, TILE_CAP as nat) && out.1
            <= 2 * TILE_CAP,
        out.1 <= 4 * TILE_CAP,
{
    let ghost half = tiles_within(row@, (TILE_CAP / 2) as nat);
    let mut packed: Vec<u32> = Vec::new();
    for i in 0..4
        invariant
            tiles_within(row@, TILE_CAP as nat),
            half == tiles_within(row@, (TILE_CAP / 2) as nat),
            packed@ == compact(row@.take(i as int)),
            packed.len() <= i,
            forall|j: int|
                0 <= j < packed@.len() ==> 2 <= #[trigger] packed@[j] <= 1048576 && is_pow2(
                    packed@[j] as nat,
                ),
            half ==> forall|j: int| 0 <= j < packed@.len() ==> #[trigger] packed@[j] <= 524288,
    {
        proof {
            assert(row@.take(i + 1).drop_last() == row@.take(i as int));
            assert(is_tile(row@[i as int], TILE_CAP as nat));
            assert(half ==> is_tile(row@[i as int], (TILE_CAP / 2) as nat));
        }
        if row[i] != 0 {
            packed.push(row[i]);
        }
    }
    assert(row@.take(4) == row@);
    assert(packed@.skip(0) == packed@);
    let mut merged: Vec<u32> = Vec::new();
    let mut gain: u32 = 0;
    let mut i: usize = 0;
    assert(merged@ + merge_pairs(packed@) == merge_pairs(packed@));
    while i < packed.len()
        invariant
            i <= packed.len() <= 4,
            merged.len() <= i,
            gain <= i * 1048576,
            half ==> gain <= i * 524288,
            merged@ + merge_pairs(packed@.skip(i as int)) == merge_pairs(packed@),
            gain + merge_gain(packed@.skip(i as int)) == merge_gain(packed@),
            forall|j: int|
                0 <= j < packed@.len() ==> 2 <= #[trigger] packed@[j] <= 1048576 && is_pow2(
                    packed@[j] as nat,
                ),
            half ==> forall|j: int| 0 <= j < packed@.len() ==> #[trigger] packed@[j] <= 524288,
            forall|j: int|
                0 <= j < merged@.len() ==> is_tile(#[trigger] merged@[j], 2 * TILE_CAP as nat),
            half ==> forall|j: int|
                0 <= j < merged@.len() ==> is_tile(#[trigger] merged@[j], TILE_CAP as nat),
        decreases packed.len() - i,
    {
        let ghost rest = packed@.skip(i as int);
        let ghost before = merged@;
        let cur: u32 = packed[i];
        assert(rest[0] == cur);
        assert(2 <= packed@[i as int] <= 1048576 && is_pow2(packed@[i as int] as nat));
        assert(half ==> packed@[i as int] <= 524288);
        if i + 1 < packed.len() && packed[i + 1] == cur {
            assert(rest[1] == packed[i + 1]);
            assert(rest.skip(2) == packed@.skip(i + 2));
            proof {
                lemma_pow2_double(cur as nat);
            }
            merged.push(2 * cur);
            gain = gain + 2 * cur;
            i = i + 2;
            assert(merged@ + merge_pairs(packed@.skip(i as int)) == before + (seq![
                (2 * cur) as u32,
            ] + merge_pairs(rest.skip(2))));
        } else {
            assert(rest.skip(1) == packed@.skip(i + 1));
            assert(rest.len() >= 2 ==> rest[1] == packed[i + 1]);
            merged.push(cur);
            i = i + 1;
            assert(merged@ + merge_pairs(packed@.skip(i as int)) == before + (seq![cur]
                + merge_pairs(rest.skip(1))));
        }
    }
    assert(packed@.skip(packed.len() as int) == Seq::<u32>::empty());
    assert(merged@ == merge_pairs(packed@));
    let out: [u32; 4] = [
        cell_or_zero(&merged, 0),
        cell_or_zero(&merged, 1),
        cell_or_zero(&merged, 2),
        cell_or_zero(&merged, 3),
    ];
    assert(out@ =~= pad(merged@, 4));
    (out, gain)
}

fn cell_or_zero(v: &Vec<u32>, i: usize) -> (r: u32)
    ensures
        r == if i < v.len() { v[i as int] } else { 0u32 },
{
    if i < v.len() {
        v[i]
    } else {
        0
    }
}

} // verus!
