use vstd::prelude::*;

verus! {

/// A cell value at or above this marks a count spilled into the neighbouring word.
pub const SENTINEL: u8 = 255;

/// The side towards which a spilled count is stored: `Left` at the tail of a skipblock,
/// `Right` at its head.
#[derive(Copy, Clone, PartialEq, Eq, Structural, Debug)]
pub enum Direction {
    Left,
    Right,
}

/// Byte `k` (little-endian) of a spilled count.
pub open spec fn byte_of(v: u64, k: u64) -> u8 {
    ((v >> (8 * k)) & 0xff) as u8
}

/// The machine word stored little-endian in the eight cells starting at `at`.
pub open spec fn word(c: Seq<u8>, at: int) -> u64 {
    (c[at] as u64) | ((c[at + 1] as u64) << 8u64) | ((c[at + 2] as u64) << 16u64) | ((c[at + 3] as u64) << 24u64)
        | ((c[at + 4] as u64) << 32u64) | ((c[at + 5] as u64) << 40u64) | ((c[at + 6] as u64) << 48u64)
        | ((c[at + 7] as u64) << 56u64)
}

proof fn lemma_word_of_bytes(v: u64, c: Seq<u8>, at: int)
    requires
        0 <= at,
        at + 8 <= c.len(),
        forall|k: int| 0 <= k < 8 ==> #[trigger] c[at + k] == byte_of(v, k as u64),
    ensures
        word(c, at) == v,
{
    let b0 = (v >> 0u64) & 0xff;
    let b1 = (v >> 8u64) & 0xff;
    let b2 = (v >> 16u64) & 0xff;
    let b3 = (v >> 24u64) & 0xff;
    let b4 = (v >> 32u64) & 0xff;
    let b5 = (v >> 40u64) & 0xff;
    let b6 = (v >> 48u64) & 0xff;
    let b7 = (v >> 56u64) & 0xff;
    assert(b0 | (b1 << 8u64) | (b2 << 16u64) | (b3 << 24u64) | (b4 << 32u64) | (b5 << 40u64) | (b6 << 48u64) | (b7 << 56u64) == v) by (bit_vector)
        requires b0 == (v >> 0u64) & 0xff, b1 == (v >> 8u64) & 0xff, b2 == (v >> 16u64) & 0xff, b3 == (v >> 24u64) & 0xff,
            b4 == (v >> 32u64) & 0xff, b5 == (v >> 40u64) & 0xff, b6 == (v >> 48u64) & 0xff, b7 == (v >> 56u64) & 0xff;
    assert(b0 <= 0xff && b1 <= 0xff && b2 <= 0xff && b3 <= 0xff && b4 <= 0xff && b5 <= 0xff && b6 <= 0xff && b7 <= 0xff) by (bit_vector)
        requires b0 == (v >> 0u64) & 0xff, b1 == (v >> 8u64) & 0xff, b2 == (v >> 16u64) & 0xff, b3 == (v >> 24u64) & 0xff,
            b4 == (v >> 32u64) & 0xff, b5 == (v >> 40u64) & 0xff, b6 == (v >> 48u64) & 0xff, b7 == (v >> 56u64) & 0xff;
    assert(c[at + 0] == byte_of(v, 0));
    assert(c[at + 1] == byte_of(v, 1));
    assert(c[at + 2] == byte_of(v, 2));
    assert(c[at + 3] == byte_of(v, 3));
    assert(c[at + 4] == byte_of(v, 4));
    assert(c[at + 5] == byte_of(v, 5));
    assert(c[at + 6] == byte_of(v, 6));
    assert(c[at + 7] == byte_of(v, 7));
}


/// The count held at cell `p`, read towards the right (at the head of a skipblock).
pub open spec fn read_right_spec(c: Seq<u8>, p: int) -> int {
    if c[p] < SENTINEL {
        c[p] as int
    } else {
        word(c, p + 1) as int
    }
}

/// The count held at cell `p`, read towards the left (at the tail of a skipblock).
pub open spec fn read_left_spec(c: Seq<u8>, p: int) -> int {
    if c[p] < SENTINEL {
        c[p] as int
    } else {
        word(c, p - 8) as int
    }
}

/// Every position in `[a, b)` is skipped.
pub open spec fn all_skipped(sk: Seq<bool>, a: int, b: int) -> bool {
    forall|m: int| a <= m < b ==> #[trigger] sk[m]
}

/// `[s, s + r)` is a skipblock: a maximal run of skipped positions.
pub open spec fn is_block(sk: Seq<bool>, s: int, r: int) -> bool {
    &&& 1 <= r
    &&& 0 <= s
    &&& s + r <= sk.len()
    &&& all_skipped(sk, s, s + r)
    &&& (s == 0 || !sk[s - 1])
    &&& (s + r == sk.len() || !sk[s + r])
}

/// Position `s` is the first of its skipblock.
pub open spec fn is_head(sk: Seq<bool>, s: int) -> bool {
    0 <= s < sk.len() && sk[s] && (s == 0 || !sk[s - 1])
}

/// Position `e` is the last of its skipblock.
pub open spec fn is_tail(sk: Seq<bool>, e: int) -> bool {
    0 <= e < sk.len() && sk[e] && (e + 1 == sk.len() || !sk[e + 1])
}

/// The block `[s, s + r)` carries its length at both ends (cells are shifted by one
/// for the leading sentinel), and a spilled end holds a length that needed the spill.
pub open spec fn block_ok(c: Seq<u8>, sk: Seq<bool>, s: int, r: int) -> bool {
    &&& is_block(sk, s, r)
    &&& read_right_spec(c, s + 1) == r
    &&& read_left_spec(c, s + r) == r
    &&& (c[s + 1] >= SENTINEL ==> r >= SENTINEL)
    &&& (c[s + r] >= SENTINEL ==> r >= SENTINEL)
}

/// The cells `c` encode the skipped positions `sk`.
pub open spec fn cells_inv(c: Seq<u8>, sk: Seq<bool>) -> bool {
    &&& c.len() == sk.len() + 2
    &&& c[0] == 0
    &&& c[sk.len() + 1int] == 0
    &&& forall|i: int| 0 <= i < sk.len() && !sk[i] ==> #[trigger] c[i + 1] == 0
    &&& forall|s: int| is_head(sk, s) ==> block_ok(c, sk, s, #[trigger] read_right_spec(c, s + 1))
    &&& forall|e: int|
        is_tail(sk, e) ==> block_ok(c, sk, e - read_left_spec(c, e + 1) + 1, #[trigger] read_left_spec(c, e + 1))
}

/// A block that is untouched by a change elsewhere keeps its encoding.
proof fn lemma_block_frame(c: Seq<u8>, sk: Seq<bool>, c2: Seq<u8>, sk2: Seq<bool>, s: int, r: int)
    requires
        block_ok(c, sk, s, r),
        c.len() == c2.len(),
        sk.len() == sk2.len(),
        c.len() == sk.len() + 2,
        forall|p: int| s + 1 <= p <= s + r ==> c[p] == c2[p],
        forall|m: int| s - 1 <= m <= s + r && 0 <= m < sk.len() ==> sk[m] == sk2[m],
    ensures
        block_ok(c2, sk2, s, r),
{
    assert(c2[s + 1] == c[s + 1]);
    assert(c2[s + r] == c[s + r]);
    if c[s + 1] >= SENTINEL {
        assert(word(c2, s + 2) == word(c, s + 2)) by {
            assert(c2[s + 2] == c[s + 2]);
            assert(c2[s + 3] == c[s + 3]);
            assert(c2[s + 4] == c[s + 4]);
            assert(c2[s + 5] == c[s + 5]);
            assert(c2[s + 6] == c[s + 6]);
            assert(c2[s + 7] == c[s + 7]);
            assert(c2[s + 8] == c[s + 8]);
            assert(c2[s + 9] == c[s + 9]);
        }
    }
    if c[s + r] >= SENTINEL {
        assert(word(c2, s + r - 8) == word(c, s + r - 8)) by {
            assert(c2[s + r - 8] == c[s + r - 8]);
            assert(c2[s + r - 7] == c[s + r - 7]);
            assert(c2[s + r - 6] == c[s + r - 6]);
            assert(c2[s + r - 5] == c[s + r - 5]);
            assert(c2[s + r - 4] == c[s + r - 4]);
            assert(c2[s + r - 3] == c[s + r - 3]);
            assert(c2[s + r - 2] == c[s + r - 2]);
            assert(c2[s + r - 1] == c[s + r - 1]);
        }
    }
    assert forall|m: int| s <= m < s + r implies #[trigger] sk2[m] by {
        assert(sk[m]);
    }
}

/// Changing the positions `[a, b]` (and their cells) keeps the encoding elsewhere; inside
/// the region the caller shows the encoding directly.
proof fn lemma_region_frame(c: Seq<u8>, sk: Seq<bool>, c2: Seq<u8>, sk2: Seq<bool>, a: int, b: int)
    requires
        cells_inv(c, sk),
        0 <= a <= b < sk.len(),
        c2.len() == c.len(),
        sk2.len() == sk.len(),
        a == 0 || (!sk[a - 1] && !sk2[a - 1]),
        b + 1 == sk.len() || (!sk[b + 1] && !sk2[b + 1]),
        forall|m: int| 0 <= m < sk.len() && (m < a || m > b) ==> sk[m] == sk2[m],
        forall|p: int| 0 <= p < c.len() && (p < a + 1 || p > b + 1) ==> c[p] == c2[p],
        forall|i: int| a <= i <= b && !sk2[i] ==> #[trigger] c2[i + 1] == 0,
        forall|s: int|
            a <= s <= b && is_head(sk2, s) ==> block_ok(c2, sk2, s, #[trigger] read_right_spec(c2, s + 1)),
        forall|e: int|
            a <= e <= b && is_tail(sk2, e) ==> block_ok(
                c2,
                sk2,
                e - read_left_spec(c2, e + 1) + 1,
                #[trigger] read_left_spec(c2, e + 1),
            ),
    ensures
        cells_inv(c2, sk2),
{
    let n = sk.len() as int;
    assert(c2[0] == c[0]);
    assert(c2[n + 1] == c[n + 1]);
    assert forall|i: int| 0 <= i < sk2.len() && !sk2[i] implies #[trigger] c2[i + 1] == 0 by {
        if i < a || i > b {
            assert(c[i + 1] == 0);
        }
    }
    assert forall|s: int| is_head(sk2, s) implies block_ok(c2, sk2, s, #[trigger] read_right_spec(c2, s + 1)) by {
        if s < a || s > b {
            if s > b {
                assert(s > b + 1);
            }
            assert(is_head(sk, s));
            let r = read_right_spec(c, s + 1);
            assert(block_ok(c, sk, s, r));
            if s < a {
                assert(s + r <= a - 1) by {
                    if s + r > a - 1 {
                        assert(sk[a - 1]);
                    }
                }
            }
            lemma_block_frame(c, sk, c2, sk2, s, r);
        }
    }
    assert forall|e: int| is_tail(sk2, e) implies block_ok(
        c2,
        sk2,
        e - read_left_spec(c2, e + 1) + 1,
        #[trigger] read_left_spec(c2, e + 1),
    ) by {
        if e < a || e > b {
            if e < a {
                assert(e < a - 1);
            }
            assert(is_tail(sk, e));
            let l = read_left_spec(c, e + 1);
            let s = e - l + 1;
            assert(block_ok(c, sk, s, l));
            if e > b {
                assert(s >= b + 2) by {
                    if s < b + 2 {
                        assert(sk[b + 1]);
                    }
                }
            }
            lemma_block_frame(c, sk, c2, sk2, s, l);
        }
    }
}

/// A region `[a, b]` that after a change holds `u` unskipped positions followed by one
/// skipblock reaching to `b` keeps the whole encoding valid.
proof fn lemma_region_one_block(c: Seq<u8>, sk: Seq<bool>, c2: Seq<u8>, sk2: Seq<bool>, a: int, b: int, u: int)
    requires
        cells_inv(c, sk),
        0 <= a <= b < sk.len(),
        0 <= u <= 1,
        c2.len() == c.len(),
        sk2.len() == sk.len(),
        a == 0 || (!sk[a - 1] && !sk2[a - 1]),
        b + 1 == sk.len() || (!sk[b + 1] && !sk2[b + 1]),
        forall|m: int| 0 <= m < sk.len() && (m < a || m > b) ==> sk[m] == sk2[m],
        forall|p: int| 0 <= p < c.len() && (p < a + 1 || p > b + 1) ==> c[p] == c2[p],
        forall|m: int| a <= m < a + u ==> !sk2[m] && c2[m + 1] == 0,
        all_skipped(sk2, a + u, b + 1),
        a + u <= b ==> block_ok(c2, sk2, a + u, b - a - u + 1),
    ensures
        cells_inv(c2, sk2),
{
    assert forall|i: int| a <= i <= b && !sk2[i] implies #[trigger] c2[i + 1] == 0 by {
        if i >= a + u {
            assert(sk2[i]);
        }
    }
    assert forall|s: int|
        a <= s <= b && is_head(sk2, s) implies block_ok(c2, sk2, s, #[trigger] read_right_spec(c2, s + 1)) by {
        if s > a + u {
            assert(sk2[s - 1]);
        }
    }
    assert forall|e: int|
        a <= e <= b && is_tail(sk2, e) implies block_ok(
            c2,
            sk2,
            e - read_left_spec(c2, e + 1) + 1,
            #[trigger] read_left_spec(c2, e + 1),
        ) by {
        if e < b {
            assert(sk2[e + 1]);
        }
    }
    lemma_region_frame(c, sk, c2, sk2, a, b);
}

/// What the cells say next to an unskipped position `i`: the length of the skipblock
/// ending just before it and of the one starting just after it (0 where there is none).
proof fn lemma_neighbours(c: Seq<u8>, sk: Seq<bool>, i: int)
    requires
        cells_inv(c, sk),
        0 <= i < sk.len(),
        !sk[i],
    ensures
        i > 0 && sk[i - 1] ==> block_ok(c, sk, i - read_left_spec(c, i), read_left_spec(c, i)),
        !(i > 0 && sk[i - 1]) ==> c[i] == 0,
        i + 1 < sk.len() && sk[i + 1] ==> block_ok(c, sk, i + 1, read_right_spec(c, i + 2)),
        !(i + 1 < sk.len() && sk[i + 1]) ==> c[i + 2] == 0,
{
    if i > 0 && sk[i - 1] {
        assert(is_tail(sk, i - 1));
        assert(block_ok(c, sk, i - read_left_spec(c, (i - 1) + 1), read_left_spec(c, (i - 1) + 1)));
    } else if i > 0 {
        assert(c[(i - 1) + 1] == 0);
    }
    if i + 1 < sk.len() && sk[i + 1] {
        assert(is_head(sk, i + 1));
        assert(block_ok(c, sk, i + 1, read_right_spec(c, (i + 1) + 1)));
    } else if i + 1 < sk.len() {
        assert(c[(i + 1) + 1] == 0);
    }
}

/// The cells after `skip` wrote the merged length at both ends of the merged block.
proof fn lemma_skip_result(c: Seq<u8>, sk: Seq<bool>, c1: Seq<u8>, c2: Seq<u8>, i: int, left: int, right: int)
    requires
        cells_inv(c, sk),
        0 <= i < sk.len(),
        !sk[i],
        left == read_left_spec(c, i),
        right == read_right_spec(c, i + 2),
        c1.len() == c.len(),
        c2.len() == c.len(),
        read_right_spec(c1, i - left + 1) == left + right + 1,
        c1[i - left + 1] >= SENTINEL ==> left + right + 1 >= SENTINEL,
        left + right + 1 < SENTINEL ==> c1 == c.update(i - left + 1, (left + right + 1) as u8),
        forall|q: int| 0 <= q < c.len() && (q < i - left + 1 || q > i - left + 9) ==> c1[q] == c[q],
        read_left_spec(c2, i + right + 1) == left + right + 1,
        c2[i + right + 1] >= SENTINEL ==> left + right + 1 >= SENTINEL,
        left + right + 1 < SENTINEL ==> c2 == c1.update(i + right + 1, (left + right + 1) as u8),
        forall|q: int| 0 <= q < c.len() && (q < i + right - 7 || q > i + right + 1) ==> c2[q] == c1[q],
    ensures
        cells_inv(c2, sk.update(i, true)),
        is_block(sk.update(i, true), i - left, left + right + 1),
{
    lemma_neighbours(c, sk, i);
    let sk2 = sk.update(i, true);
    let a = i - left;
    let b = i + right;
    let size = left + right + 1;
    assert(all_skipped(sk2, a, b + 1)) by {
        assert forall|m: int| a <= m < b + 1 implies #[trigger] sk2[m] by {
            if m != i {
                assert(sk[m]);
            }
        }
    }
    if size >= SENTINEL {
        assert(word(c2, a + 2) == word(c1, a + 2)) by {
            assert(c2[a + 2] == c1[a + 2]);
            assert(c2[a + 3] == c1[a + 3]);
            assert(c2[a + 4] == c1[a + 4]);
            assert(c2[a + 5] == c1[a + 5]);
            assert(c2[a + 6] == c1[a + 6]);
            assert(c2[a + 7] == c1[a + 7]);
            assert(c2[a + 8] == c1[a + 8]);
            assert(c2[a + 9] == c1[a + 9]);
        }
        assert(c2[a + 1] == c1[a + 1]);
    }
    assert(read_right_spec(c2, a + 1) == size);
    assert(block_ok(c2, sk2, a, size));
    assert forall|p: int| 0 <= p < c.len() && (p < a + 1 || p > b + 1) implies c[p] == c2[p] by {}
    lemma_region_one_block(c, sk, c2, sk2, a, b, 0);
}

/// After `unskip_leftmost` wrote the shortened length at both ends of what is left of
/// the block, that block carries it.
proof fn lemma_unskip_rest(c: Seq<u8>, sk: Seq<bool>, c0: Seq<u8>, c1: Seq<u8>, c2: Seq<u8>, i: int, size: int)
    requires
        cells_inv(c, sk),
        is_head(sk, i),
        size == read_right_spec(c, i + 1),
        size >= 2,
        c0 == c.update(i + 1, 0u8),
        c1.len() == c.len(),
        c2.len() == c.len(),
        read_right_spec(c1, i + 2) == size - 1,
        c1[i + 2] >= SENTINEL ==> size - 1 >= SENTINEL,
        size - 1 < SENTINEL ==> c1 == c0.update(i + 2, (size - 1) as u8),
        forall|q: int| 0 <= q < c.len() && (q < i + 2 || q > i + 10) ==> c1[q] == c0[q],
        read_left_spec(c2, i + size) == size - 1,
        c2[i + size] >= SENTINEL ==> size - 1 >= SENTINEL,
        size - 1 < SENTINEL ==> c2 == c1.update(i + size, (size - 1) as u8),
        forall|q: int| 0 <= q < c.len() && (q < i + size - 8 || q > i + size) ==> c2[q] == c1[q],
    ensures
        block_ok(c2, sk.update(i, false), i + 1, size - 1),
        c2[i + 1] == 0,
        forall|q: int| 0 <= q < c.len() && (q < i + 1 || q > i + size) ==> c2[q] == c[q],
{
    assert(block_ok(c, sk, i, size));
    let sk2 = sk.update(i, false);
    if size - 1 >= SENTINEL {
        assert(word(c2, i + 3) == word(c1, i + 3)) by {
            assert(c2[i + 3] == c1[i + 3]);
            assert(c2[i + 4] == c1[i + 4]);
            assert(c2[i + 5] == c1[i + 5]);
            assert(c2[i + 6] == c1[i + 6]);
            assert(c2[i + 7] == c1[i + 7]);
            assert(c2[i + 8] == c1[i + 8]);
            assert(c2[i + 9] == c1[i + 9]);
            assert(c2[i + 10] == c1[i + 10]);
        }
        assert(c2[i + 2] == c1[i + 2]);
    }
    assert(read_right_spec(c2, i + 2) == size - 1);
    assert(all_skipped(sk2, i + 1, i + size)) by {
        assert forall|m: int| i + 1 <= m < i + size implies #[trigger] sk2[m] by {
            assert(sk[m]);
        }
    }
    assert(block_ok(c2, sk2, i + 1, size - 1));
}

/// After `unskip_leftmost`, the encoding is valid again.
proof fn lemma_unskip_result(c: Seq<u8>, sk: Seq<bool>, c2: Seq<u8>, i: int, size: int)
    requires
        cells_inv(c, sk),
        is_head(sk, i),
        size == read_right_spec(c, i + 1),
        c2.len() == c.len(),
        c2[i + 1] == 0,
        forall|q: int| 0 <= q < c.len() && (q < i + 1 || q > i + size) ==> c2[q] == c[q],
        size >= 2 ==> block_ok(c2, sk.update(i, false), i + 1, size - 1),
    ensures
        cells_inv(c2, sk.update(i, false)),
{
    assert(block_ok(c, sk, i, size));
    let sk2 = sk.update(i, false);
    assert(all_skipped(sk2, i + 1, i + size)) by {
        assert forall|m: int| i + 1 <= m < i + size implies #[trigger] sk2[m] by {
            assert(sk[m]);
        }
    }
    lemma_region_one_block(c, sk, c2, sk2, i, i + size - 1, 1);
}

/// Appending unskipped positions with zero cells keeps the encoding valid.
proof fn lemma_grow(c: Seq<u8>, sk: Seq<bool>, c2: Seq<u8>, sk2: Seq<bool>)
    requires
        cells_inv(c, sk),
        sk2.len() >= sk.len(),
        c2.len() == sk2.len() + 2,
        forall|m: int| 0 <= m < sk.len() ==> sk2[m] == sk[m],
        forall|m: int| sk.len() <= m < sk2.len() ==> !sk2[m],
        forall|p: int| 0 <= p < sk.len() + 2 ==> c2[p] == c[p],
        forall|p: int| sk.len() + 2 <= p < c2.len() ==> c2[p] == 0,
    ensures
        cells_inv(c2, sk2),
{
    let n = sk.len() as int;
    assert forall|i: int| 0 <= i < sk2.len() && !sk2[i] implies #[trigger] c2[i + 1] == 0 by {
        if i < n {
            assert(c[i + 1] == 0);
        }
    }
    assert forall|s: int| is_head(sk2, s) implies block_ok(c2, sk2, s, #[trigger] read_right_spec(c2, s + 1)) by {
        assert(is_head(sk, s));
        let r = read_right_spec(c, s + 1);
        assert(block_ok(c, sk, s, r));
        lemma_block_grow(c, sk, c2, sk2, s, r);
    }
    assert forall|e: int| is_tail(sk2, e) implies block_ok(
        c2,
        sk2,
        e - read_left_spec(c2, e + 1) + 1,
        #[trigger] read_left_spec(c2, e + 1),
    ) by {
        assert(is_tail(sk, e));
        let l = read_left_spec(c, e + 1);
        assert(block_ok(c, sk, e - l + 1, l));
        lemma_block_grow(c, sk, c2, sk2, e - l + 1, l);
    }
}

proof fn lemma_block_grow(c: Seq<u8>, sk: Seq<bool>, c2: Seq<u8>, sk2: Seq<bool>, s: int, r: int)
    requires
        block_ok(c, sk, s, r),
        c.len() == sk.len() + 2,
        sk2.len() >= sk.len(),
        c2.len() == sk2.len() + 2,
        forall|m: int| 0 <= m < sk.len() ==> sk2[m] == sk[m],
        forall|m: int| sk.len() <= m < sk2.len() ==> !sk2[m],
        forall|p: int| 0 <= p < sk.len() + 2 ==> c2[p] == c[p],
    ensures
        block_ok(c2, sk2, s, r),
{
    lemma_block_frame(c, sk, c2.subrange(0, c.len() as int), sk2.subrange(0, sk.len() as int), s, r);
    let c3 = c2.subrange(0, c.len() as int);
    if c[s + 1] >= SENTINEL {
        assert(word(c2, s + 2) == word(c3, s + 2)) by {
            assert(c2[s + 2] == c3[s + 2]);
            assert(c2[s + 3] == c3[s + 3]);
            assert(c2[s + 4] == c3[s + 4]);
            assert(c2[s + 5] == c3[s + 5]);
            assert(c2[s + 6] == c3[s + 6]);
            assert(c2[s + 7] == c3[s + 7]);
            assert(c2[s + 8] == c3[s + 8]);
            assert(c2[s + 9] == c3[s + 9]);
        }
    }
    if c[s + r] >= SENTINEL {
        assert(word(c2, s + r - 8) == word(c3, s + r - 8)) by {
            assert(c2[s + r - 8] == c3[s + r - 8]);
            assert(c2[s + r - 7] == c3[s + r - 7]);
            assert(c2[s + r - 6] == c3[s + r - 6]);
            assert(c2[s + r - 5] == c3[s + r - 5]);
            assert(c2[s + r - 4] == c3[s + r - 4]);
            assert(c2[s + r - 3] == c3[s + r - 3]);
            assert(c2[s + r - 2] == c3[s + r - 2]);
            assert(c2[s + r - 1] == c3[s + r - 1]);
        }
    }
    assert forall|m: int| s <= m < s + r implies #[trigger] sk2[m] by {
        assert(sk[m]);
    }
}

/// Stores `v` little-endian in the eight cells starting at `at`.
fn write_word(c: &mut Vec<u8>, at: usize, v: u64)
    requires
        at + 8 <= old(c).len(),
    ensures
        final(c).len() == old(c).len(),
        word(final(c)@, at as int) == v,
        forall|q: int| 0 <= q < old(c).len() && (q < at || q >= at + 8) ==> final(c)@[q] == old(c)@[q],
{
    c.set(at, (v & 0xff) as u8);
    c.set(at + 1, ((v >> 8u64) & 0xff) as u8);
    c.set(at + 2, ((v >> 16u64) & 0xff) as u8);
    c.set(at + 3, ((v >> 24u64) & 0xff) as u8);
    c.set(at + 4, ((v >> 32u64) & 0xff) as u8);
    c.set(at + 5, ((v >> 40u64) & 0xff) as u8);
    c.set(at + 6, ((v >> 48u64) & 0xff) as u8);
    c.set(at + 7, ((v >> 56u64) & 0xff) as u8);
    proof {
        assert(v & 0xff == (v >> 0u64) & 0xff) by (bit_vector);
        lemma_word_of_bytes(v, c@, at as int);
    }
}

/// Reads the word stored little-endian in the eight cells starting at `at`.
fn read_word(c: &Vec<u8>, at: usize) -> (r: u64)
    requires
        at + 8 <= c.len(),
    ensures
        r == word(c@, at as int),
{
    (c[at] as u64) | ((c[at + 1] as u64) << 8u64) | ((c[at + 2] as u64) << 16u64) | ((c[at + 3] as u64)
        << 24u64) | ((c[at + 4] as u64) << 32u64) | ((c[at + 5] as u64) << 40u64) | ((c[at + 6] as u64)
        << 48u64) | ((c[at + 7] as u64) << 56u64)
}

/// Writes the count `v` at cell `p` for reading towards the right, spilling it into the
/// eight following cells when it does not fit.
fn write_right(c: &mut Vec<u8>, p: usize, v: usize)
    requires
        p < old(c).len(),
        v >= SENTINEL ==> p + 9 <= old(c).len(),
    ensures
        final(c).len() == old(c).len(),
        read_right_spec(final(c)@, p as int) == v,
        final(c)@[p as int] >= SENTINEL ==> v >= SENTINEL,
        v < SENTINEL ==> final(c)@ == old(c)@.update(p as int, v as u8),
        forall|q: int|
            0 <= q < old(c).len() && (q < p || q > p + 8) ==> final(c)@[q] == old(c)@[q],
{
    if v < SENTINEL as usize {
        c.set(p, v as u8);
    } else {
        c.set(p, SENTINEL);
        write_word(c, p + 1, v as u64);
    }
}

/// Writes the count `v` at cell `p` for reading towards the left, spilling it into the
/// eight preceding cells when it does not fit.
fn write_left(c: &mut Vec<u8>, p: usize, v: usize)
    requires
        p < old(c).len(),
        v >= SENTINEL ==> p >= 8,
    ensures
        final(c).len() == old(c).len(),
        read_left_spec(final(c)@, p as int) == v,
        final(c)@[p as int] >= SENTINEL ==> v >= SENTINEL,
        v < SENTINEL ==> final(c)@ == old(c)@.update(p as int, v as u8),
        forall|q: int|
            0 <= q < old(c).len() && (q < p - 8 || q > p) ==> final(c)@[q] == old(c)@[q],
{
    if v < SENTINEL as usize {
        c.set(p, v as u8);
    } else {
        write_word(c, p - 8, v as u64);
        c.set(p, SENTINEL);
    }
}


/// A jump-counting skipfield over `n` positions: one byte cell per position plus a zero
/// sentinel cell on each side. The first and last position of every run of skipped
/// positions hold the run's length; a length of 255 or more is stored as `SENTINEL`
/// with the length spilled into the word next to the cell, inside the run.
pub struct SkipfieldPtr {
    cells: Vec<u8>,
    skipped: Ghost<Seq<bool>>,
}

impl View for SkipfieldPtr {
    type V = Seq<bool>;

    /// Which positions are skipped.
    closed spec fn view(&self) -> Seq<bool> {
        self.skipped@
    }
}

impl SkipfieldPtr {
    /// The cells encode the skipped positions.
    pub closed spec fn wf(&self) -> bool {
        cells_inv(self.cells@, self.skipped@)
    }

    /// The count that `read` gives at `index` in the direction `dir`.
    pub closed spec fn read_spec(&self, index: int, dir: Direction) -> int {
        match dir {
            Direction::Right => read_right_spec(self.cells@, index + 1),
            Direction::Left => read_left_spec(self.cells@, index + 1),
        }
    }

    /// Every skipblock reads back its length, right at its head and left at its tail, and
    /// a position that is not skipped reads 0 both ways.
    pub proof fn lemma_blocks_read_back(&self, i: int)
        requires
            self.wf(),
            0 <= i < self@.len(),
        ensures
            is_head(self@, i) ==> is_block(self@, i, self.read_spec(i, Direction::Right)) && self.read_spec(
                i + self.read_spec(i, Direction::Right) - 1,
                Direction::Left,
            ) == self.read_spec(i, Direction::Right),
            is_tail(self@, i) ==> is_block(
                self@,
                i - self.read_spec(i, Direction::Left) + 1,
                self.read_spec(i, Direction::Left),
            ) && self.read_spec(i - self.read_spec(i, Direction::Left) + 1, Direction::Right) == self.read_spec(
                i,
                Direction::Left,
            ),
            !self@[i] ==> self.read_spec(i, Direction::Right) == 0 && self.read_spec(i, Direction::Left) == 0,
    {
        let c = self.cells@;
        let sk = self.skipped@;
        if is_head(sk, i) {
            assert(block_ok(c, sk, i, read_right_spec(c, i + 1)));
        }
        if is_tail(sk, i) {
            assert(block_ok(c, sk, i - read_left_spec(c, i + 1) + 1, read_left_spec(c, i + 1)));
        }
        if !sk[i] {
            assert(c[i + 1] == 0);
        }
    }

    /// A skipfield over `len` positions, none of them skipped.
    pub fn new(len: usize) -> (r: Self)
        requires
            len <= usize::MAX - 2,
        ensures
            r.wf(),
            r@ == Seq::new(len as nat, |i: int| false),
    {
        let mut cells: Vec<u8> = Vec::with_capacity(len + 2);
        let mut k: usize = 0;
        while k < len + 2
            invariant
                len <= usize::MAX - 2,
                k <= len + 2,
                cells@.len() == k,
                forall|q: int| 0 <= q < k ==> cells@[q] == 0,
            decreases len + 2 - k,
        {
            cells.push(0);
            k = k + 1;
        }
        let ghost sk = Seq::new(len as nat, |i: int| false);
        assert(cells_inv(cells@, sk));
        SkipfieldPtr { cells, skipped: Ghost(sk) }
    }

    /// The number of positions.
    pub fn len(&self) -> (r: usize)
        requires
            self.wf(),
        ensures
            r == self@.len(),
    {
        self.cells.len() - 2
    }

    /// Reads the count at cell `p` in the given direction.
    fn read_cell(&self, p: usize, dir: Direction) -> (r: usize)
        requires
            self.wf(),
            p < self.cells@.len(),
            dir == Direction::Right && self.cells@[p as int] >= SENTINEL ==> p + 9 <= self.cells@.len()
                && read_right_spec(self.cells@, p as int) < self.cells@.len(),
            dir == Direction::Left && self.cells@[p as int] >= SENTINEL ==> p >= 8 && read_left_spec(
                self.cells@,
                p as int,
            ) < self.cells@.len(),
        ensures
            dir == Direction::Right ==> r == read_right_spec(self.cells@, p as int),
            dir == Direction::Left ==> r == read_left_spec(self.cells@, p as int),
    {
        let cell = self.cells[p];
        proof {
            vstd::std_specs::vec::axiom_spec_len(&self.cells);
        }
        if cell < SENTINEL {
            cell as usize
        } else if dir == Direction::Right {
            read_word(&self.cells, p + 1) as usize
        } else {
            read_word(&self.cells, p - 8) as usize
        }
    }

    /// Reads the count at `index` (`-1` and `len` are the sentinels). Reading right at the
    /// head of a skipblock, or left at its tail, gives the block's length; reading at a
    /// position that is not skipped gives 0.
    pub fn read(&self, index: isize, dir: Direction) -> (r: usize)
        requires
            self.wf(),
            -1 <= index <= self@.len(),
            index == -1 || index == self@.len() || !self@[index as int] || (dir == Direction::Right
                && is_head(self@, index as int)) || (dir == Direction::Left && is_tail(self@, index as int)),
        ensures
            r == self.read_spec(index as int, dir),
            index == -1 || index == self@.len() || !self@[index as int] ==> r == 0,
            dir == Direction::Right && is_head(self@, index as int) ==> is_block(self@, index as int, r as int),
            dir == Direction::Left && is_tail(self@, index as int) ==> is_block(
                self@,
                index - r + 1,
                r as int,
            ),
    {
        let ghost c = self.cells@;
        let ghost sk = self.skipped@;
        let p: usize = if index < 0 {
            0
        } else {
            index as usize + 1
        };
        proof {
            if 0 <= index < sk.len() && !sk[index as int] {
                assert(c[index + 1] == 0);
            }
            if dir == Direction::Right && is_head(sk, index as int) {
                assert(block_ok(c, sk, index as int, read_right_spec(c, index + 1)));
            }
            if dir == Direction::Left && is_tail(sk, index as int) {
                assert(block_ok(c, sk, index - read_left_spec(c, index + 1) + 1, read_left_spec(c, index + 1)));
            }
        }
        self.read_cell(p, dir)
    }

    /// Marks the unskipped position `index` as skipped, merging it with the skipblocks on
    /// either side. Returns the first and last position of the merged block.
    pub fn skip(&mut self, index: usize) -> (r: (usize, usize))
        requires
            old(self).wf(),
            index < old(self)@.len(),
            !old(self)@[index as int],
        ensures
            final(self).wf(),
            final(self)@ == old(self)@.update(index as int, true),
            r.0 <= index <= r.1,
            is_block(final(self)@, r.0 as int, r.1 - r.0 + 1),
    {
        let ghost c = self.cells@;
        let ghost sk = self.skipped@;
        proof {
            vstd::std_specs::vec::axiom_spec_len(&self.cells);
            lemma_neighbours(c, sk, index as int);
        }
        let left = self.read_cell(index, Direction::Left);
        let right = self.read_cell(index + 2, Direction::Right);
        let size = left + right + 1;
        let start = index - left;
        let end = index + right;
        write_right(&mut self.cells, start + 1, size);
        let ghost c1 = self.cells@;
        write_left(&mut self.cells, end + 1, size);
        let ghost sk2 = sk.update(index as int, true);
        self.skipped = Ghost(sk2);
        proof {
            lemma_skip_result(c, sk, c1, self.cells@, index as int, left as int, right as int);
        }
        (start, end)
    }

    /// Marks the head `index` of a skipblock as unskipped; the rest of the block stays a
    /// skipblock, now starting at `index + 1`.
    pub fn unskip_leftmost(&mut self, index: usize)
        requires
            old(self).wf(),
            is_head(old(self)@, index as int),
        ensures
            final(self).wf(),
            final(self)@ == old(self)@.update(index as int, false),
    {
        let ghost c = self.cells@;
        let ghost sk = self.skipped@;
        proof {
            vstd::std_specs::vec::axiom_spec_len(&self.cells);
            assert(block_ok(c, sk, index as int, read_right_spec(c, index + 1)));
        }
        let old_size = self.read_cell(index + 1, Direction::Right);
        write_right(&mut self.cells, index + 1, 0);
        let ghost c0 = self.cells@;
        let new_size = old_size - 1;
        if new_size > 0 {
            write_right(&mut self.cells, index + 2, new_size);
            let ghost c1 = self.cells@;
            write_left(&mut self.cells, index + old_size, new_size);
            proof {
                lemma_unskip_rest(c, sk, c0, c1, self.cells@, index as int, old_size as int);
            }
        }
        let ghost sk2 = sk.update(index as int, false);
        self.skipped = Ghost(sk2);
        proof {
            lemma_unskip_result(c, sk, self.cells@, index as int, old_size as int);
        }
    }

    /// Extends the skipfield to `new_len` positions; the new positions are not skipped.
    pub fn grow(&mut self, new_len: usize)
        requires
            old(self).wf(),
            old(self)@.len() <= new_len <= usize::MAX - 2,
        ensures
            final(self).wf(),
            final(self)@ == old(self)@ + Seq::new((new_len - old(self)@.len()) as nat, |i: int| false),
    {
        let ghost c = self.cells@;
        let ghost sk = self.skipped@;
        let ghost n = sk.len() as int;
        let mut k: usize = self.cells.len();
        while k < new_len + 2
            invariant
                new_len <= usize::MAX - 2,
                n + 2 <= k <= new_len + 2,
                self.cells@.len() == k,
                c.len() == n + 2,
                forall|q: int| 0 <= q < n + 2 ==> self.cells@[q] == c[q],
                forall|q: int| n + 2 <= q < k ==> self.cells@[q] == 0,
            decreases new_len + 2 - k,
        {
            self.cells.push(0);
            k = k + 1;
        }
        let ghost c2 = self.cells@;
        let ghost sk2 = sk + Seq::new((new_len - n) as nat, |i: int| false);
        self.skipped = Ghost(sk2);
        proof {
            lemma_grow(c, sk, c2, sk2);
        }
    }

    /// Unskips every position, given that none at or past `touched` is skipped.
    pub fn clear_prefix(&mut self, touched: usize)
        requires
            old(self).wf(),
            touched <= old(self)@.len(),
            forall|i: int| touched <= i < old(self)@.len() ==> !old(self)@[i],
        ensures
            final(self).wf(),
            final(self)@ == Seq::new(old(self)@.len(), |i: int| false),
    {
        let ghost c = self.cells@;
        let ghost sk = self.skipped@;
        proof {
            vstd::std_specs::vec::axiom_spec_len(&self.cells);
        }
        let mut k: usize = 1;
        while k <= touched
            invariant
                1 <= k <= touched + 1,
                touched < self.cells@.len() <= usize::MAX,
                self.cells@.len() == c.len(),
                cells_inv(c, sk),
                forall|i: int| touched <= i < sk.len() ==> !sk[i],
                forall|q: int| 0 <= q < k ==> self.cells@[q] == 0,
                forall|q: int| k <= q < c.len() ==> self.cells@[q] == c[q],
            decreases touched + 1 - k,
        {
            self.cells.set(k, 0);
            k = k + 1;
        }
        let ghost sk2 = Seq::new(sk.len(), |i: int| false);
        self.skipped = Ghost(sk2);
        proof {
            let c2 = self.cells@;
            assert forall|q: int| 0 <= q < c2.len() implies c2[q] == 0 by {
                if q > touched && q <= sk.len() {
                    assert(!sk[q - 1]);
                    assert(c[(q - 1) + 1] == 0);
                }
            }
            assert(cells_inv(c2, sk2));
        }
    }
}

} // verus!
