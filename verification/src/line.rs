use vstd::prelude::*;

verus! {

// A line is the run of cells that one move pushes together, listed from the
// edge the tiles move toward: a move slides every tile of the line toward
// index 0 and merges equal neighbours.

/// The nonzero cells of a line, in order.
pub open spec fn compress(s: Seq<u32>) -> Seq<u32>
    decreases s.len(),
{
    if s.len() == 0 {
        Seq::empty()
    } else if s[0] == 0 {
        compress(s.drop_first())
    } else {
        seq![s[0]] + compress(s.drop_first())
    }
}

/// Merges equal neighbours of a packed line, pairing greedily from the front:
/// each tile takes part in at most one merge.
pub open spec fn merge_pairs(s: Seq<u32>) -> Seq<u32>
    decreases s.len(),
{
    if s.len() < 2 {
        s
    } else if s[0] == s[1] {
        seq![(s[0] + s[1]) as u32] + merge_pairs(s.skip(2))
    } else {
        seq![s[0]] + merge_pairs(s.skip(1))
    }
}

/// The sum of the tiles that `merge_pairs` creates by merging.
pub open spec fn merge_gain(s: Seq<u32>) -> nat
    decreases s.len(),
{
    if s.len() < 2 {
        0
    } else if s[0] == s[1] {
        (s[0] + s[1]) as nat + merge_gain(s.skip(2))
    } else {
        merge_gain(s.skip(1))
    }
}

/// Every tile that `merge_pairs` creates fits in a `u32`.
pub open spec fn merge_fits(s: Seq<u32>) -> bool
    decreases s.len(),
{
    if s.len() < 2 {
        true
    } else if s[0] == s[1] {
        s[0] + s[1] <= u32::MAX && merge_fits(s.skip(2))
    } else {
        merge_fits(s.skip(1))
    }
}

/// `n - s.len()` empty cells after `s`.
pub open spec fn pad_zeros(s: Seq<u32>, n: nat) -> Seq<u32> {
    s + Seq::new((n - s.len()) as nat, |i: int| 0u32)
}

/// The line after a move: its tiles packed toward the front, equal neighbours
/// merged, empty cells behind.
pub open spec fn slide(s: Seq<u32>) -> Seq<u32> {
    pad_zeros(merge_pairs(compress(s)), s.len())
}

/// The points that sliding a line scores.
pub open spec fn slide_gain(s: Seq<u32>) -> nat {
    merge_gain(compress(s))
}

/// No tile that sliding the line creates overflows a `u32`.
pub open spec fn slide_fits(s: Seq<u32>) -> bool {
    merge_fits(compress(s))
}

/// The sum of the cells of a line.
pub open spec fn line_sum(s: Seq<u32>) -> nat
    decreases s.len(),
{
    if s.len() == 0 {
        0
    } else {
        s[0] as nat + line_sum(s.drop_first())
    }
}

/// Packing never lengthens a line and keeps only tiles; it keeps the length
/// only of a line of tiles.
pub proof fn lemma_compress_len(s: Seq<u32>)
    ensures
        compress(s).len() <= s.len(),
        forall|k: int| 0 <= k < compress(s).len() ==> compress(s)[k] != 0,
        compress(s).len() == s.len() ==> forall|k: int| 0 <= k < s.len() ==> s[k] != 0,
    decreases s.len(),
{
    if s.len() > 0 {
        lemma_compress_len(s.drop_first());
        assert forall|k: int| 0 < k < s.len() implies s[k] == s.drop_first()[k - 1] by {}
    }
}

/// Merging never lengthens a line.
pub proof fn lemma_merge_len(s: Seq<u32>)
    ensures
        merge_pairs(s).len() <= s.len(),
    decreases s.len(),
{
    if s.len() >= 2 {
        if s[0] == s[1] {
            lemma_merge_len(s.skip(2));
        } else {
            lemma_merge_len(s.skip(1));
        }
    }
}

/// The points of a merge are at most the sum of the line: at most
/// `u32::MAX` for each of its cells.
pub proof fn lemma_gain_bound(s: Seq<u32>)
    ensures
        merge_gain(s) <= s.len() * (u32::MAX as int),
    decreases s.len(),
{
    if s.len() >= 2 {
        if s[0] == s[1] {
            lemma_gain_bound(s.skip(2));
        } else {
            lemma_gain_bound(s.skip(1));
        }
    }
}

/// Sliding keeps the length of the line.
pub proof fn lemma_slide_len(s: Seq<u32>)
    ensures
        slide(s).len() == s.len(),
{
    lemma_compress_len(s);
    lemma_merge_len(compress(s));
}

/// One step of `compress` at position `i`.
pub proof fn lemma_compress_step(s: Seq<u32>, i: int)
    requires
        0 <= i < s.len(),
    ensures
        compress(s.skip(i)) == (if s[i] == 0 {
            compress(s.skip(i + 1))
        } else {
            seq![s[i]] + compress(s.skip(i + 1))
        }),
{
    assert(s.skip(i).drop_first() =~= s.skip(i + 1));
}

/// Merging a pending tile `p` that meets the tile `x`.
pub proof fn lemma_merge_two(p: u32, x: u32, rest: Seq<u32>)
    ensures
        p == x ==> merge_pairs(seq![p, x] + rest) == seq![(p + x) as u32] + merge_pairs(rest),
        p == x ==> merge_gain(seq![p, x] + rest) == (p + x) as nat + merge_gain(rest),
        p == x ==> merge_fits(seq![p, x] + rest) == (p + x <= u32::MAX && merge_fits(rest)),
        p != x ==> merge_pairs(seq![p, x] + rest) == seq![p] + merge_pairs(seq![x] + rest),
        p != x ==> merge_gain(seq![p, x] + rest) == merge_gain(seq![x] + rest),
        p != x ==> merge_fits(seq![p, x] + rest) == merge_fits(seq![x] + rest),
{
    let t = seq![p, x] + rest;
    assert(t[0] == p);
    assert(t[1] == x);
    assert(t.skip(2) =~= rest);
    assert(t.skip(1) =~= seq![x] + rest);
}

/// Slides one line toward index 0: packs the nonzero cells, merges equal
/// neighbours from the front, and fills the rest with zeros. Returns the new
/// line and the points scored, the sum of the merged tiles.
pub fn slide_line(line: &Vec<u32>) -> (res: (Vec<u32>, u32))
    requires
        slide_fits(line@),
        slide_gain(line@) <= u32::MAX,
    ensures
        res.0@ == slide(line@),
        res.1 == slide_gain(line@),
{
    let ghost s = line@;
    let ghost total = merge_pairs(compress(s));
    let ghost total_gain = merge_gain(compress(s));
    let mut out: Vec<u32> = Vec::new();
    let mut gain: u32 = 0;
    let mut pending: Option<u32> = None;
    let n = line.len();
    let mut i: usize = 0;
    assert(s.skip(0) =~= s);
    while i < n
        invariant
            n == s.len(),
            s == line@,
            i <= n,
            total == merge_pairs(compress(s)),
            total_gain == merge_gain(compress(s)),
            total_gain <= u32::MAX,
            ({
                let pend = match pending {
                    Some(p) => seq![p],
                    None => Seq::<u32>::empty(),
                };
                &&& out@ + merge_pairs(pend + compress(s.skip(i as int))) == total
                &&& gain + merge_gain(pend + compress(s.skip(i as int))) == total_gain
                &&& merge_fits(pend + compress(s.skip(i as int)))
            }),
        decreases n - i,
    {
        let x = line[i];
        let ghost rest = compress(s.skip(i + 1));
        proof {
            lemma_compress_step(s, i as int);
        }
        if x != 0 {
            match pending {
                None => {
                    assert(Seq::<u32>::empty() + (seq![x] + rest) =~= seq![x] + rest);
                    pending = Some(x);
                },
                Some(p) => {
                    assert(seq![p] + (seq![x] + rest) =~= seq![p, x] + rest);
                    proof {
                        lemma_merge_two(p, x, rest);
                    }
                    if p == x {
                        out.push(p + x);
                        gain = gain + p + x;
                        pending = None;
                        assert(out@ + merge_pairs(Seq::<u32>::empty() + rest) =~= out@.drop_last()
                            + (seq![(p + x) as u32] + merge_pairs(rest)));
                    } else {
                        out.push(p);
                        pending = Some(x);
                        assert(out@ + merge_pairs(seq![x] + rest) =~= out@.drop_last() + (seq![p]
                            + merge_pairs(seq![x] + rest)));
                    }
                },
            }
        }
        i = i + 1;
    }
    assert(s.skip(n as int) =~= Seq::<u32>::empty());
    match pending {
        Some(p) => {
            assert(seq![p] + Seq::<u32>::empty() =~= seq![p]);
            out.push(p);
        },
        None => {
            assert(Seq::<u32>::empty() + Seq::<u32>::empty() =~= Seq::<u32>::empty());
            assert(out@ + Seq::<u32>::empty() =~= out@);
        },
    }
    assert(out@ == total);
    proof {
        lemma_compress_len(s);
        lemma_merge_len(compress(s));
    }
    let ghost merged_len = out@.len();
    while out.len() < n
        invariant
            n == s.len(),
            merged_len == total.len(),
            merged_len <= n,
            out@.len() <= n,
            out@ =~= total + Seq::new((out@.len() - merged_len) as nat, |k: int| 0u32),
        decreases n - out@.len(),
    {
        out.push(0);
    }
    (out, gain)
}

/// The nonzero cells of `s` come first, then only empty cells.
pub open spec fn is_packed(s: Seq<u32>) -> bool {
    forall|p: int, q: int| 0 <= p < q < s.len() && #[trigger] s[p] == 0 ==> #[trigger] s[q] == 0
}

/// Some two neighbouring cells of `s` hold equal values.
pub open spec fn has_equal_neighbours(s: Seq<u32>) -> bool {
    exists|k: int| 0 <= k < s.len() - 1 && #[trigger] s[k] == s[k + 1]
}

proof fn lemma_line_sum_append(a: Seq<u32>, b: Seq<u32>)
    ensures
        line_sum(a + b) == line_sum(a) + line_sum(b),
    decreases a.len(),
{
    if a.len() == 0 {
        assert(a + b =~= b);
    } else {
        assert((a + b).drop_first() =~= a.drop_first() + b);
        lemma_line_sum_append(a.drop_first(), b);
    }
}

proof fn lemma_zeros_sum(n: nat)
    ensures
        line_sum(Seq::new(n, |i: int| 0u32)) == 0,
    decreases n,
{
    if n > 0 {
        assert(Seq::new(n, |i: int| 0u32).drop_first() =~= Seq::new((n - 1) as nat, |i: int| 0u32));
        lemma_zeros_sum((n - 1) as nat);
    }
}

proof fn lemma_compress_sum(s: Seq<u32>)
    ensures
        line_sum(compress(s)) == line_sum(s),
    decreases s.len(),
{
    if s.len() > 0 {
        lemma_compress_sum(s.drop_first());
        if s[0] != 0 {
            assert((seq![s[0]] + compress(s.drop_first())).drop_first() =~= compress(s.drop_first()));
        }
    }
}

proof fn lemma_merge_sum(t: Seq<u32>)
    requires
        merge_fits(t),
    ensures
        line_sum(merge_pairs(t)) == line_sum(t),
    decreases t.len(),
{
    if t.len() >= 2 {
        assert(t.drop_first() =~= t.skip(1));
        assert(t.skip(1).drop_first() =~= t.skip(2));
        assert(line_sum(t) == t[0] + line_sum(t.skip(1)));
        assert(line_sum(t.skip(1)) == t[1] + line_sum(t.skip(2)));
        if t[0] == t[1] {
            lemma_merge_sum(t.skip(2));
            let m = seq![(t[0] + t[1]) as u32] + merge_pairs(t.skip(2));
            assert(m.drop_first() =~= merge_pairs(t.skip(2)));
            assert(line_sum(m) == m[0] + line_sum(m.drop_first()));
        } else {
            lemma_merge_sum(t.skip(1));
            let m = seq![t[0]] + merge_pairs(t.skip(1));
            assert(m.drop_first() =~= merge_pairs(t.skip(1)));
            assert(line_sum(m) == m[0] + line_sum(m.drop_first()));
        }
    }
}

/// Sliding keeps the sum of the line: a merge replaces two equal tiles by one
/// tile of their sum.
pub proof fn lemma_slide_sum(s: Seq<u32>)
    requires
        slide_fits(s),
    ensures
        line_sum(slide(s)) == line_sum(s),
{
    lemma_slide_len(s);
    lemma_compress_sum(s);
    lemma_merge_sum(compress(s));
    let m = merge_pairs(compress(s));
    lemma_line_sum_append(m, Seq::new((s.len() - m.len()) as nat, |i: int| 0u32));
    lemma_zeros_sum((s.len() - m.len()) as nat);
}

proof fn lemma_merge_nonzero(t: Seq<u32>)
    requires
        merge_fits(t),
        forall|k: int| 0 <= k < t.len() ==> t[k] != 0,
    ensures
        forall|k: int| 0 <= k < merge_pairs(t).len() ==> merge_pairs(t)[k] != 0,
    decreases t.len(),
{
    if t.len() >= 2 {
        if t[0] == t[1] {
            let rest = t.skip(2);
            assert(forall|k: int| 0 <= k < rest.len() ==> rest[k] == t[k + 2]);
            lemma_merge_nonzero(rest);
            let m = seq![(t[0] + t[1]) as u32] + merge_pairs(rest);
            assert forall|k: int| 0 <= k < m.len() implies m[k] != 0 by {
                if k > 0 {
                    assert(m[k] == merge_pairs(rest)[k - 1]);
                }
            }
        } else {
            let rest = t.skip(1);
            assert(forall|k: int| 0 <= k < rest.len() ==> rest[k] == t[k + 1]);
            lemma_merge_nonzero(rest);
            let m = seq![t[0]] + merge_pairs(rest);
            assert forall|k: int| 0 <= k < m.len() implies m[k] != 0 by {
                if k > 0 {
                    assert(m[k] == merge_pairs(rest)[k - 1]);
                }
            }
        }
    }
}

/// After a slide the tiles of the line come first and the empty cells last.
pub proof fn lemma_slide_packed(s: Seq<u32>)
    requires
        slide_fits(s),
    ensures
        is_packed(slide(s)),
{
    lemma_slide_len(s);
    lemma_compress_len(s);
    lemma_merge_nonzero(compress(s));
}

/// A line whose cells are all tiles, with no two equal neighbours, is left as
/// it is by a slide.
pub proof fn lemma_slide_fixed(s: Seq<u32>)
    requires
        forall|k: int| 0 <= k < s.len() ==> s[k] != 0,
        !has_equal_neighbours(s),
    ensures
        slide(s) == s,
{
    lemma_compress_full(s);
    lemma_merge_none(s);
    assert(slide(s) =~= s);
}

proof fn lemma_compress_full(s: Seq<u32>)
    requires
        forall|k: int| 0 <= k < s.len() ==> s[k] != 0,
    ensures
        compress(s) == s,
    decreases s.len(),
{
    if s.len() > 0 {
        lemma_compress_full(s.drop_first());
        assert(seq![s[0]] + s.drop_first() =~= s);
    }
}

proof fn lemma_merge_none(s: Seq<u32>)
    requires
        !has_equal_neighbours(s),
    ensures
        merge_pairs(s) == s,
    decreases s.len(),
{
    if s.len() >= 2 {
        assert(s[0] != s[1]) by {
            if s[0] == s[1] {
                assert(s[0] == s[0int + 1]);
            }
        }
        assert forall|k: int| 0 <= k < s.skip(1).len() - 1 implies #[trigger] s.skip(1)[k] != s.skip(1)[k + 1] by {
            if s.skip(1)[k] == s.skip(1)[k + 1] {
                assert(s[k + 1] == s[(k + 1) + 1]);
            }
        }
        lemma_merge_none(s.skip(1));
        assert(seq![s[0]] + s.skip(1) =~= s);
    }
}

proof fn lemma_merge_shrinks(t: Seq<u32>)
    requires
        has_equal_neighbours(t),
    ensures
        merge_pairs(t).len() < t.len(),
    decreases t.len(),
{
    let k = choose|k: int| 0 <= k < t.len() - 1 && #[trigger] t[k] == t[k + 1];
    if t[0] == t[1] {
        lemma_merge_len(t.skip(2));
    } else {
        assert(k > 0);
        assert(t.skip(1)[k - 1] == t.skip(1)[(k - 1) + 1]);
        lemma_merge_shrinks(t.skip(1));
    }
}

/// A slide changes a line in which an empty cell comes before a tile, or in
/// which all cells are tiles and two neighbours are equal.
pub proof fn lemma_slide_changes(s: Seq<u32>)
    requires
        slide_fits(s),
        (exists|p: int, q: int| 0 <= p < q < s.len() && #[trigger] s[p] == 0 && #[trigger] s[q] != 0) || (
        (forall|k: int| 0 <= k < s.len() ==> s[k] != 0) && has_equal_neighbours(s)),
    ensures
        slide(s) != s,
{
    lemma_slide_packed(s);
    lemma_slide_len(s);
    if exists|p: int, q: int| 0 <= p < q < s.len() && #[trigger] s[p] == 0 && #[trigger] s[q] != 0 {
        let (p, q) = choose|p: int, q: int| 0 <= p < q < s.len() && #[trigger] s[p] == 0 && #[trigger] s[q] != 0;
        if slide(s) == s {
            assert(slide(s)[p] == 0);
        }
    } else {
        lemma_compress_full(s);
        lemma_merge_shrinks(s);
        let last = s.len() - 1;
        assert(slide(s)[last] == 0);
    }
}

/// A cell value that play can produce: empty, or a power of two of at
/// least 2.
pub open spec fn is_tile_value(v: u32) -> bool {
    v == 0 || (v >= 2 && v & ((v - 1) as u32) == 0)
}

/// Every cell of the line holds a value that play can produce.
pub open spec fn all_tile_values(s: Seq<u32>) -> bool {
    forall|k: int| 0 <= k < s.len() ==> is_tile_value(#[trigger] s[k])
}

proof fn lemma_double_power(v: u32)
    by (bit_vector)
    requires
        v >= 2,
        v & ((v - 1) as u32) == 0,
        v + v <= 0xffff_ffff,
    ensures
        ((v + v) as u32) >= 2,
        ((v + v) as u32) & ((((v + v) as u32) - 1) as u32) == 0,
{
}

proof fn lemma_compress_keeps_tiles(s: Seq<u32>)
    requires
        all_tile_values(s),
    ensures
        all_tile_values(compress(s)),
    decreases s.len(),
{
    if s.len() > 0 {
        assert(all_tile_values(s.drop_first())) by {
            assert forall|k: int| 0 <= k < s.drop_first().len() implies is_tile_value(
                #[trigger] s.drop_first()[k],
            ) by {
                assert(s.drop_first()[k] == s[k + 1]);
            }
        }
        lemma_compress_keeps_tiles(s.drop_first());
        if s[0] != 0 {
            let t = seq![s[0]] + compress(s.drop_first());
            assert forall|k: int| 0 <= k < t.len() implies is_tile_value(#[trigger] t[k]) by {
                if k > 0 {
                    assert(t[k] == compress(s.drop_first())[k - 1]);
                }
            }
        }
    }
}

proof fn lemma_merge_keeps_tiles(t: Seq<u32>)
    requires
        all_tile_values(t),
        merge_fits(t),
        forall|k: int| 0 <= k < t.len() ==> t[k] != 0,
    ensures
        all_tile_values(merge_pairs(t)),
    decreases t.len(),
{
    if t.len() >= 2 {
        let n: int = if t[0] == t[1] { 2 } else { 1 };
        let rest = t.skip(n);
        assert forall|k: int| 0 <= k < rest.len() implies is_tile_value(#[trigger] rest[k]) && rest[k]
            != 0 by {
            assert(rest[k] == t[k + n]);
        }
        lemma_merge_keeps_tiles(rest);
        let head: u32 = if t[0] == t[1] { (t[0] + t[1]) as u32 } else { t[0] };
        assert(is_tile_value(head)) by {
            assert(is_tile_value(t[0]));
            if t[0] == t[1] {
                lemma_double_power(t[0]);
            }
        }
        let m = seq![head] + merge_pairs(rest);
        assert(merge_pairs(t) == m);
        assert forall|k: int| 0 <= k < m.len() implies is_tile_value(#[trigger] m[k]) by {
            if k > 0 {
                assert(m[k] == merge_pairs(rest)[k - 1]);
            }
        }
    }
}

/// Sliding a line of empty cells and powers of two of at least 2 gives such
/// a line again: a merge doubles a power of two.
pub proof fn lemma_slide_keeps_tiles(s: Seq<u32>)
    requires
        all_tile_values(s),
        slide_fits(s),
    ensures
        all_tile_values(slide(s)),
{
    lemma_compress_keeps_tiles(s);
    lemma_compress_len(s);
    lemma_merge_keeps_tiles(compress(s));
    lemma_slide_len(s);
    let m = merge_pairs(compress(s));
    assert forall|k: int| 0 <= k < slide(s).len() implies is_tile_value(#[trigger] slide(s)[k]) by {
        if k < m.len() {
            assert(slide(s)[k] == m[k]);
        } else {
            assert(slide(s)[k] == 0);
            assert(0u32 & ((0u32 - 1) as u32) == 0) by (bit_vector);
        }
    }
}

proof fn lemma_merge_no_gain(t: Seq<u32>)
    requires
        !has_equal_neighbours(t),
    ensures
        merge_gain(t) == 0,
    decreases t.len(),
{
    if t.len() >= 2 {
        assert(t[0] != t[1]) by {
            if t[0] == t[1] {
                assert(t[0] == t[0int + 1]);
            }
        }
        assert forall|k: int| 0 <= k < t.skip(1).len() - 1 implies #[trigger] t.skip(1)[k] != t.skip(1)[k + 1] by {
            if t.skip(1)[k] == t.skip(1)[k + 1] {
                assert(t[k + 1] == t[(k + 1) + 1]);
            }
        }
        lemma_merge_no_gain(t.skip(1));
    }
}

/// A slide that leaves the line as it is scores nothing.
pub proof fn lemma_still_slide_scores_nothing(s: Seq<u32>)
    requires
        slide(s) == s,
    ensures
        slide_gain(s) == 0,
{
    let c = compress(s);
    lemma_slide_len(s);
    lemma_compress_len(s);
    lemma_merge_len(c);
    let m = merge_pairs(c);
    // The tiles of `s` come first: its first `m.len()` cells are the merged
    // tiles, all nonzero, and the rest are empty; so packing `s` gives `m`.
    if has_equal_neighbours(c) {
        lemma_merge_shrinks(c);
        // `s` has fewer than `c.len()` tiles: the cells from `m.len()` on are
        // empty, yet `c` lists the `c.len()` tiles of `s`.
        lemma_compress_count(s, m.len() as int);
        assert(false);
    }
    lemma_merge_no_gain(c);
}

/// A line whose cells from `k` on are empty has at most `k` tiles.
proof fn lemma_compress_count(s: Seq<u32>, k: int)
    requires
        0 <= k <= s.len(),
        forall|j: int| k <= j < s.len() ==> s[j] == 0,
    ensures
        compress(s).len() <= k,
    decreases s.len(),
{
    if s.len() > 0 {
        if k == 0 {
            lemma_compress_count(s.drop_first(), 0);
            assert(s[0] == 0);
        } else {
            lemma_compress_count(s.drop_first(), k - 1);
        }
    }
}

/// A slide that changes the line leaves its last cell empty: either two
/// tiles merged into one, or a tile moved into an empty cell.
pub proof fn lemma_changed_slide_ends_empty(s: Seq<u32>)
    requires
        slide(s) != s,
    ensures
        s.len() > 0,
        slide(s)[s.len() - 1] == 0,
{
    let c = compress(s);
    lemma_slide_len(s);
    lemma_compress_len(s);
    lemma_merge_len(c);
    let m = merge_pairs(c);
    if s.len() == 0 {
        assert(slide(s) =~= s);
    }
    if m.len() == s.len() {
        assert(c.len() == s.len());
        lemma_compress_full(s);
        if has_equal_neighbours(s) {
            lemma_merge_shrinks(s);
        }
        lemma_merge_none(s);
        assert(slide(s) =~= s);
    }
}

/// Sliding a line that is already packed and holds no two equal neighbouring
/// tiles leaves it as it is.
pub proof fn lemma_slide_settled(t: Seq<u32>)
    requires
        is_packed(t),
        forall|k: int| 0 <= k < t.len() - 1 ==> #[trigger] t[k] == 0 || t[k] != t[k + 1],
    ensures
        slide(t) == t,
{
    let m = lemma_packed_compress(t);
    let c = t.take(m);
    assert forall|k: int| 0 <= k < c.len() - 1 implies #[trigger] c[k] != c[k + 1] by {
        assert(t[k] != 0);
        assert(t[k] == 0 || t[k] != t[k + 1]);
    }
    lemma_merge_none(c);
    assert(slide(t) =~= t);
}

/// Packing a packed line gives its run of tiles, which ends at `m`.
proof fn lemma_packed_compress(t: Seq<u32>) -> (m: int)
    requires
        is_packed(t),
    ensures
        0 <= m <= t.len(),
        compress(t) == t.take(m),
        forall|k: int| 0 <= k < m ==> t[k] != 0,
        forall|k: int| m <= k < t.len() ==> t[k] == 0,
    decreases t.len(),
{
    if t.len() == 0 {
        assert(t.take(0) =~= Seq::<u32>::empty());
        0
    } else if t[0] == 0 {
        assert forall|k: int| 0 <= k < t.len() implies t[k] == 0 by {
            if k > 0 {
                assert(t[0] == 0 && t[k] == 0);
            }
        }
        lemma_compress_count(t, 0);
        assert(t.take(0) =~= Seq::<u32>::empty());
        0
    } else {
        let rest = t.drop_first();
        assert(is_packed(rest)) by {
            assert forall|p: int, q: int| 0 <= p < q < rest.len() && #[trigger] rest[p] == 0 implies #[trigger] rest[q]
                == 0 by {
                assert(t[p + 1] == 0);
                assert(t[q + 1] == 0);
            }
        }
        let m0 = lemma_packed_compress(rest);
        assert(seq![t[0]] + rest.take(m0) =~= t.take(m0 + 1));
        assert forall|k: int| 0 <= k < m0 + 1 implies t[k] != 0 by {
            if k > 0 {
                assert(t[k] == rest[k - 1]);
            }
        }
        assert forall|k: int| m0 + 1 <= k < t.len() implies t[k] == 0 by {
            assert(t[k] == rest[k - 1]);
        }
        m0 + 1
    }
}

/// Sliding twice is sliding once, when the first slide leaves no two equal
/// neighbouring tiles.
pub proof fn lemma_slide_twice(s: Seq<u32>)
    requires
        slide_fits(s),
        forall|k: int|
            0 <= k < slide(s).len() - 1 ==> #[trigger] slide(s)[k] == 0 || slide(s)[k] != slide(s)[k
                + 1],
    ensures
        slide(slide(s)) == slide(s),
{
    lemma_slide_packed(s);
    lemma_slide_settled(slide(s));
}

proof fn lemma_merge_gain_sum(t: Seq<u32>)
    ensures
        merge_gain(t) <= line_sum(t),
    decreases t.len(),
{
    if t.len() >= 2 {
        assert(t.drop_first() =~= t.skip(1));
        assert(t.skip(1).drop_first() =~= t.skip(2));
        assert(line_sum(t) == t[0] + line_sum(t.skip(1)));
        assert(line_sum(t.skip(1)) == t[1] + line_sum(t.skip(2)));
        if t[0] == t[1] {
            lemma_merge_gain_sum(t.skip(2));
        } else {
            lemma_merge_gain_sum(t.skip(1));
        }
    }
}

/// The points of a slide are at most the sum of the line: every merged tile
/// is made of two tiles of the line, each used once.
pub proof fn lemma_slide_gain_at_most_sum(s: Seq<u32>)
    ensures
        slide_gain(s) <= line_sum(s),
{
    lemma_merge_gain_sum(compress(s));
    lemma_compress_sum(s);
}

proof fn lemma_merge_gain_positive(t: Seq<u32>)
    requires
        has_equal_neighbours(t),
        forall|k: int| 0 <= k < t.len() ==> t[k] != 0,
    ensures
        merge_gain(t) > 0,
    decreases t.len(),
{
    let k = choose|k: int| 0 <= k < t.len() - 1 && #[trigger] t[k] == t[k + 1];
    if t[0] != t[1] {
        assert(k > 0);
        assert(t.skip(1)[k - 1] == t.skip(1)[(k - 1) + 1]);
        assert forall|j: int| 0 <= j < t.skip(1).len() implies t.skip(1)[j] != 0 by {
            assert(t.skip(1)[j] == t[j + 1]);
        }
        lemma_merge_gain_positive(t.skip(1));
    }
}

/// A slide scores points exactly when it merges tiles, that is, when it
/// leaves fewer tiles on the line than there were.
pub proof fn lemma_slide_scores_iff_merges(s: Seq<u32>)
    requires
        slide_fits(s),
    ensures
        (slide_gain(s) > 0) == (compress(slide(s)).len() < compress(s).len()),
{
    let c = compress(s);
    let m = merge_pairs(c);
    lemma_compress_len(s);
    lemma_merge_len(c);
    lemma_merge_nonzero(c);
    lemma_slide_len(s);
    lemma_slide_packed(s);
    let b = lemma_packed_compress(slide(s));
    // The run of tiles of the slid line is exactly the merged line.
    assert(b == m.len()) by {
        if b < m.len() {
            assert(slide(s)[b] == m[b]);
        }
        if b > m.len() {
            assert(slide(s)[m.len() as int] == 0);
        }
    }
    assert(compress(slide(s)) =~= m);
    if has_equal_neighbours(c) {
        lemma_merge_shrinks(c);
        lemma_merge_gain_positive(c);
    } else {
        lemma_merge_none(c);
        lemma_merge_no_gain(c);
    }
}

} // verus!
