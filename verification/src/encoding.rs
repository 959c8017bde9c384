//! The inline encoding of a path into a 64-bit word.
//!
//! A word is read as sixteen 4-bit nibbles. Nibble 0 (the lowest) is the tag,
//! nibble 1 holds the number of 4-bit blocks in use, and the fourteen
//! remaining nibbles hold the blocks themselves, the first block in the
//! highest nibble. Each path segment (one child index) occupies one block per
//! base-8 digit of the index, most significant digit first; every block of a
//! segment except the last carries a continuation flag in its top bit.

use vstd::prelude::*;

verus! {

/// Number of blocks available for path segments in a packed word.
pub const BLOCKS: u8 = 14;

// ---------------------------------------------------------------------------
// Base-8 digits of an index
// ---------------------------------------------------------------------------

/// The base-8 digits of `i`, most significant first; `0` has one digit.
pub open spec fn digits8(i: nat) -> Seq<u64>
    decreases i,
{
    if i < 8 {
        seq![i as u64]
    } else {
        digits8(i / 8).push((i % 8) as u64)
    }
}

/// Number of 4-bit blocks needed to encode index `i`: one per base-8 digit.
pub open spec fn blocks_of(i: nat) -> nat {
    digits8(i).len()
}

/// The value a sequence of base-8 digits denotes.
pub open spec fn val_of_digits(ds: Seq<u64>) -> nat
    decreases ds.len(),
{
    if ds.len() == 0 {
        0
    } else {
        (val_of_digits(ds.drop_last()) * 8 + ds.last()) as nat
    }
}

/// `k`-th block of the segment encoding index `i`: the digit, with the
/// continuation flag added on every block but the last.
pub open spec fn seg_block(i: nat, k: int) -> u64 {
    if k + 1 < blocks_of(i) {
        (digits8(i)[k] + 8) as u64
    } else {
        digits8(i)[k]
    }
}

/// Total number of blocks taken by a whole path.
pub open spec fn path_blocks(p: Seq<usize>) -> nat
    decreases p.len(),
{
    if p.len() == 0 {
        0
    } else {
        blocks_of(p[0] as nat) + path_blocks(p.drop_first())
    }
}

pub proof fn lemma_digits8_bounds(i: nat)
    ensures
        1 <= digits8(i).len(),
        forall|k: int| 0 <= k < digits8(i).len() ==> #[trigger] digits8(i)[k] < 8,
    decreases i,
{
    if i >= 8 {
        lemma_digits8_bounds(i / 8);
    }
}

pub proof fn lemma_val_of_digits8(i: nat)
    ensures
        val_of_digits(digits8(i)) == i,
    decreases i,
{
    if i < 8 {
        assert(digits8(i).drop_last() =~= Seq::<u64>::empty());
        assert(val_of_digits(Seq::<u64>::empty()) == 0);
        assert(digits8(i).last() == i as u64);
        assert(val_of_digits(digits8(i)) == 0 * 8 + i);
    } else {
        lemma_val_of_digits8(i / 8);
        assert(digits8(i).drop_last() =~= digits8(i / 8));
        assert(digits8(i).last() == i % 8);
        assert(val_of_digits(digits8(i)) == (i / 8) * 8 + i % 8);
        assert(i == (i / 8) * 8 + i % 8) by (nonlinear_arith);
    }
}

// ---------------------------------------------------------------------------
// Nibbles of a word
// ---------------------------------------------------------------------------

/// The `m`-th 4-bit nibble of `x`, counted from the least significant end.
pub open spec fn nib(x: u64, m: int) -> u64 {
    (x >> ((4 * m) as u64)) & 0xf
}

/// The `j`-th block of `x`, counted from the most significant end, so that a
/// packed path is read from block 0 downwards; positions outside the word
/// read as zero.
pub open spec fn block_at(x: u64, j: int) -> u64 {
    if 0 <= j < 16 {
        nib(x, 15 - j)
    } else {
        0
    }
}

/// The block-count field of a packed word.
pub open spec fn len_field(x: u64) -> nat {
    nib(x, 1) as nat
}

/// Blocks `j .. j + blocks_of(i)` of `x` encode the path segment `i`.
pub open spec fn seg_at(x: u64, j: int, i: nat) -> bool {
    forall|k: int| 0 <= k < blocks_of(i) ==> block_at(x, j + k) == seg_block(i, k)
}

/// Blocks of `x` starting at `j` encode the path `p`, one segment after the
/// other.
pub open spec fn path_at(x: u64, j: int, p: Seq<usize>) -> bool
    decreases p.len(),
{
    p.len() == 0 || {
        &&& seg_at(x, j, p[0] as nat)
        &&& path_at(x, j + blocks_of(p[0] as nat), p.drop_first())
    }
}

/// `x` is the canonical packed word for path `p`: tag nibble set, block count
/// in the length field, the path's blocks at the top, zeroes in between.
pub open spec fn packed_wf(x: u64, p: Seq<usize>) -> bool {
    &&& nib(x, 0) == 1
    &&& path_blocks(p) <= BLOCKS
    &&& len_field(x) == path_blocks(p)
    &&& path_at(x, 0, p)
    &&& forall|j: int| path_blocks(p) <= j < BLOCKS ==> block_at(x, j) == 0
}

// ---------------------------------------------------------------------------
// Reading one segment from the top of a word (any word, canonical or not)
// ---------------------------------------------------------------------------

/// Number of blocks a top-down scan starting at block `j` consumes: one block,
/// plus one more for every continuation flag met on the way.
pub open spec fn seg_span(x: u64, j: int) -> nat
    decreases 16 - j when j <= 16
{
    if j >= 16 || block_at(x, j) < 8 {
        1
    } else {
        (1 + seg_span(x, j + 1)) as nat
    }
}

/// Payload (low 3 bits) of block `j`.
pub open spec fn payload_at(x: u64, j: int) -> u64 {
    block_at(x, j) % 8
}

/// Value accumulated from the payloads of blocks `j .. j + n`, most
/// significant first.
pub open spec fn seg_val(x: u64, j: int, n: nat) -> nat
    decreases n,
{
    if n == 0 {
        0
    } else {
        (seg_val(x, j, (n - 1) as nat) * 8 + payload_at(x, j + n - 1)) as nat
    }
}

// ---------------------------------------------------------------------------
// Structural facts about paths and their block streams
// ---------------------------------------------------------------------------

pub proof fn lemma_path_blocks_push(p: Seq<usize>, i: usize)
    ensures
        path_blocks(p.push(i)) == path_blocks(p) + blocks_of(i as nat),
    decreases p.len(),
{
    assert(path_blocks(p.push(i)) == blocks_of(p.push(i)[0] as nat) + path_blocks(
        p.push(i).drop_first(),
    ));
    if p.len() == 0 {
        assert(p.push(i)[0] == i);
        assert(p.push(i).drop_first() =~= Seq::<usize>::empty());
        assert(path_blocks(Seq::<usize>::empty()) == 0);
    } else {
        assert(p.push(i)[0] == p[0]);
        assert(p.push(i).drop_first() =~= p.drop_first().push(i));
        lemma_path_blocks_push(p.drop_first(), i);
    }
}

/// A path never takes fewer blocks than it has segments; only the empty path
/// takes none.
pub proof fn lemma_path_blocks_len(p: Seq<usize>)
    ensures
        p.len() <= path_blocks(p),
    decreases p.len(),
{
    if p.len() > 0 {
        lemma_digits8_bounds(p[0] as nat);
        lemma_path_blocks_len(p.drop_first());
    }
}

/// Splitting a path splits its block stream at the block count of the front
/// part.
pub proof fn lemma_path_at_concat(x: u64, j: int, a: Seq<usize>, b: Seq<usize>)
    ensures
        path_at(x, j, a + b) <==> (path_at(x, j, a) && path_at(
            x,
            j + path_blocks(a),
            b,
        )),
    decreases a.len(),
{
    if a.len() == 0 {
        assert(a + b =~= b);
    } else {
        assert((a + b).drop_first() =~= a.drop_first() + b);
        assert((a + b)[0] == a[0]);
        lemma_path_at_concat(x, j + blocks_of(a[0] as nat), a.drop_first(), b);
    }
}

/// Whether a path sits at `j` depends only on the blocks it occupies.
pub proof fn lemma_path_at_frame(x: u64, y: u64, j: int, p: Seq<usize>)
    requires
        path_at(y, j, p),
        forall|t: int| j <= t < j + path_blocks(p) ==> block_at(x, t) == block_at(y, t),
    ensures
        path_at(x, j, p),
    decreases p.len(),
{
    if p.len() > 0 {
        let b0 = blocks_of(p[0] as nat);
        lemma_digits8_bounds(p[0] as nat);
        assert(seg_at(x, j, p[0] as nat)) by {
            assert forall|k: int| 0 <= k < b0 implies block_at(x, j + k) == seg_block(
                p[0] as nat,
                k,
            ) by {
                assert(block_at(y, j + k) == seg_block(p[0] as nat, k));
            }
        }
        lemma_path_at_frame(x, y, j + b0, p.drop_first());
    }
}

/// Two words carrying the same path at `j` agree on the blocks it occupies.
pub proof fn lemma_same_path_same_blocks(x: u64, y: u64, j: int, p: Seq<usize>)
    requires
        path_at(x, j, p),
        path_at(y, j, p),
    ensures
        forall|t: int| j <= t < j + path_blocks(p) ==> block_at(x, t) == block_at(y, t),
    decreases p.len(),
{
    if p.len() > 0 {
        let b0 = blocks_of(p[0] as nat);
        assert forall|t: int| j <= t < j + b0 implies block_at(x, t) == block_at(y, t) by {
            let k = t - j;
            assert(block_at(x, j + k) == seg_block(p[0] as nat, k));
            assert(block_at(y, j + k) == seg_block(p[0] as nat, k));
        }
        lemma_same_path_same_blocks(x, y, j + b0, p.drop_first());
    }
}

/// Reading equal blocks, two words decode to the same path prefix: if `p` uses
/// no more blocks than `q` and the words agree on `p`'s block range, then `p`
/// is exactly the front of `q`.
pub proof fn lemma_stream_prefix(x: u64, y: u64, j: int, p: Seq<usize>, q: Seq<usize>)
    requires
        path_at(x, j, p),
        path_at(y, j, q),
        path_blocks(p) <= path_blocks(q),
        forall|t: int| j <= t < j + path_blocks(p) ==> block_at(x, t) == block_at(y, t),
    ensures
        p.len() <= q.len(),
        p == q.take(p.len() as int),
    decreases p.len(),
{
    if p.len() == 0 {
        assert(p =~= q.take(0));
    } else {
        let i0 = p[0] as nat;
        lemma_digits8_bounds(i0);
        let bi = blocks_of(i0);
        assert(path_blocks(p) == bi + path_blocks(p.drop_first()));
        if q.len() == 0 {
            assert(false);
        }
        let j0 = q[0] as nat;
        lemma_digits8_bounds(j0);
        let bj = blocks_of(j0);
        assert(path_blocks(q) == bj + path_blocks(q.drop_first()));
        if bi < bj {
            let k = bi - 1;
            assert(block_at(x, j + k) == seg_block(i0, k));
            assert(block_at(y, j + k) == seg_block(j0, k));
            assert(seg_block(i0, k) == digits8(i0)[k]);
            assert(seg_block(j0, k) == digits8(j0)[k] + 8);
            assert(false);
        }
        if bj < bi {
            let k = bj - 1;
            assert(block_at(x, j + k) == seg_block(i0, k));
            assert(block_at(y, j + k) == seg_block(j0, k));
            assert(seg_block(i0, k) == digits8(i0)[k] + 8);
            assert(seg_block(j0, k) == digits8(j0)[k]);
            assert(false);
        }
        assert(bi == bj);
        assert forall|k: int| 0 <= k < bi implies digits8(i0)[k] == digits8(j0)[k] by {
            assert(block_at(x, j + k) == seg_block(i0, k));
            assert(block_at(y, j + k) == seg_block(j0, k));
        }
        assert(digits8(i0) =~= digits8(j0));
        lemma_val_of_digits8(i0);
        lemma_val_of_digits8(j0);
        assert(i0 == j0);
        lemma_stream_prefix(x, y, j + bi, p.drop_first(), q.drop_first());
        assert(p =~= q.take(p.len() as int)) by {
            assert forall|k: int| 0 <= k < p.len() implies p[k] == q.take(p.len() as int)[k] by {
                if k > 0 {
                    assert(p.drop_first()[k - 1] == q.drop_first().take(
                        p.len() - 1,
                    )[k - 1]);
                }
            }
        }
    }
}

/// Two paths of equal block count laid out over the same blocks are the same
/// path. This is what makes the packed word an injective image of the path:
/// the raw `u64` of an inline identifier determines its path, so the raw
/// integer round trip loses nothing.
pub proof fn lemma_stream_unique(x: u64, j: int, p: Seq<usize>, q: Seq<usize>)
    requires
        path_at(x, j, p),
        path_at(x, j, q),
        path_blocks(p) == path_blocks(q),
    ensures
        p == q,
{
    lemma_stream_prefix(x, x, j, p, q);
    lemma_path_blocks_take_rest(q, p.len() as int);
    if p.len() < q.len() {
        lemma_digits8_bounds(q[p.len() as int] as nat);
        assert(path_blocks(q.skip(p.len() as int)) >= 1) by {
            lemma_path_blocks_len(q.skip(p.len() as int));
            assert(q.skip(p.len() as int).len() > 0);
        }
        assert(false);
    }
    assert(p == q.take(q.len() as int));
    assert(q.take(q.len() as int) =~= q);
}

/// Block counts add up over a take/skip split.
pub proof fn lemma_path_blocks_take_rest(q: Seq<usize>, l: int)
    requires
        0 <= l <= q.len(),
    ensures
        path_blocks(q) == path_blocks(q.take(l)) + path_blocks(q.skip(l)),
    decreases l,
{
    if l == 0 {
        assert(q.take(0) =~= Seq::<usize>::empty());
        assert(q.skip(0) =~= q);
    } else {
        assert(q.take(l).drop_first() =~= q.drop_first().take(l - 1));
        assert(q.skip(l) =~= q.drop_first().skip(l - 1));
        assert(q.take(l)[0] == q[0]);
        lemma_path_blocks_take_rest(q.drop_first(), l - 1);
    }
}

// ---------------------------------------------------------------------------
// Bit-vector facts about nibbles
// ---------------------------------------------------------------------------

pub proof fn lemma_nib_bound(x: u64, m: u64)
    requires
        m < 16,
    ensures
        nib(x, m as int) < 16,
{
    assert(nib(x, m as int) < 16) by (bit_vector);
}

pub proof fn lemma_nib_or(x: u64, y: u64, m: u64)
    requires
        m < 16,
    ensures
        nib(x | y, m as int) == nib(x, m as int) | nib(y, m as int),
{
    assert(nib(x | y, m as int) == nib(x, m as int) | nib(y, m as int)) by (bit_vector)
        requires m < 16;
}

pub proof fn lemma_or_zero(a: u64)
    ensures
        a | 0 == a,
        0 | a == a,
{
    assert(a | 0 == a && 0 | a == a) by (bit_vector);
}

/// A left shift by `4 * t` moves nibble `m - t` up to position `m`.
pub proof fn lemma_nib_shl(x: u64, t: u64, m: u64)
    requires
        t < 16,
        m < 16,
    ensures
        m >= t ==> nib(x << ((4 * t) as u64), m as int) == nib(x, m - t),
        m < t ==> nib(x << ((4 * t) as u64), m as int) == 0,
{
    assert((m >= t ==> nib(x << ((4 * t) as u64), m as int) == nib(x, (m - t) as u64 as int))
        && (m < t ==> nib(x << ((4 * t) as u64), m as int) == 0)) by (bit_vector)
        requires t < 16 && m < 16;
    if m >= t {
        assert((m - t) as u64 as int == m - t);
    }
}

/// Masking off the low byte clears nibbles 0 and 1 and keeps the rest.
pub proof fn lemma_nib_mask(x: u64, m: u64)
    requires
        m < 16,
    ensures
        m >= 2 ==> nib(x & 0xffff_ffff_ffff_ff00, m as int) == nib(x, m as int),
        m < 2 ==> nib(x & 0xffff_ffff_ffff_ff00, m as int) == 0,
{
    assert((m >= 2 ==> nib(x & 0xffff_ffff_ffff_ff00, m as int) == nib(x, m as int))
        && (m < 2 ==> nib(x & 0xffff_ffff_ffff_ff00, m as int) == 0)) by (bit_vector)
        requires m < 16;
}

/// A value below 16 sits entirely in nibble 0.
pub proof fn lemma_nib_small(c: u64, m: u64)
    requires
        c < 16,
        m < 16,
    ensures
        nib(c, 0) == c,
        m >= 1 ==> nib(c, m as int) == 0,
{
    assert(nib(c, 0) == c && (m >= 1 ==> nib(c, m as int) == 0)) by (bit_vector)
        requires c < 16 && m < 16;
}

/// Two words with the same sixteen nibbles are the same word.
pub proof fn lemma_nib_ext(x: u64, y: u64)
    requires
        forall|m: int| 0 <= m < 16 ==> nib(x, m) == nib(y, m),
    ensures
        x == y,
{
    assert(x == y) by (bit_vector)
        requires
            nib(x, 0) == nib(y, 0),
            nib(x, 1) == nib(y, 1),
            nib(x, 2) == nib(y, 2),
            nib(x, 3) == nib(y, 3),
            nib(x, 4) == nib(y, 4),
            nib(x, 5) == nib(y, 5),
            nib(x, 6) == nib(y, 6),
            nib(x, 7) == nib(y, 7),
            nib(x, 8) == nib(y, 8),
            nib(x, 9) == nib(y, 9),
            nib(x, 10) == nib(y, 10),
            nib(x, 11) == nib(y, 11),
            nib(x, 12) == nib(y, 12),
            nib(x, 13) == nib(y, 13),
            nib(x, 14) == nib(y, 14),
            nib(x, 15) == nib(y, 15),
    ;
}

// ---------------------------------------------------------------------------
// Decoding one segment
// ---------------------------------------------------------------------------

pub open spec fn pow8(n: nat) -> nat
    decreases n,
{
    if n == 0 {
        1
    } else {
        8 * pow8((n - 1) as nat)
    }
}

pub proof fn lemma_pow8_le(n: nat, m: nat)
    requires
        n <= m,
    ensures
        pow8(n) <= pow8(m),
    decreases m,
{
    if n < m && m > 0 {
        lemma_pow8_le(n, (m - 1) as nat);
    }
}

pub proof fn lemma_pow8_17()
    ensures
        pow8(17) == 0x8_0000_0000_0000,
        pow8(22) > 0xffff_ffff_ffff_ffff,
{
    reveal_with_fuel(pow8, 23);
}

/// A scan that meets continuation flags on its first `m - 1` blocks and then a
/// terminal block spans exactly `m` blocks.
pub proof fn lemma_seg_span_exact(x: u64, j: int, m: nat)
    requires
        m >= 1,
        j <= 16,
        forall|k: int| 0 <= k < m - 1 ==> #[trigger] block_at(x, j + k) >= 8,
        block_at(x, j + m - 1) < 8,
    ensures
        seg_span(x, j) == m,
    decreases m,
{
    if m == 1 {
        if j < 16 {
            assert(block_at(x, j) < 8);
        }
    } else {
        assert(block_at(x, j + 0) >= 8);
        assert(j < 16) by {
            if j >= 16 {
                assert(block_at(x, j) == 0);
            }
        }
        assert forall|k: int| 0 <= k < m - 2 implies #[trigger] block_at(x, j + 1 + k) >= 8 by {
            assert(block_at(x, j + (k + 1)) >= 8);
        }
        lemma_seg_span_exact(x, j + 1, (m - 1) as nat);
    }
}

/// Accumulating payloads that spell out a digit sequence yields its value.
pub proof fn lemma_seg_val_digits(x: u64, j: int, ds: Seq<u64>)
    requires
        forall|k: int| 0 <= k < ds.len() ==> payload_at(x, j + k) == ds[k],
        forall|k: int| 0 <= k < ds.len() ==> ds[k] < 8,
    ensures
        seg_val(x, j, ds.len()) == val_of_digits(ds),
    decreases ds.len(),
{
    if ds.len() > 0 {
        lemma_seg_val_digits(x, j, ds.drop_last());
        assert(payload_at(x, j + ds.len() - 1) == ds.last());
    }
}

/// A segment laid out at block `j` scans back to its own index: span and value
/// of the scan match the encoding exactly.
pub proof fn lemma_seg_decode(x: u64, j: int, i: nat)
    requires
        seg_at(x, j, i),
        j <= 16,
    ensures
        seg_span(x, j) == blocks_of(i),
        seg_val(x, j, blocks_of(i)) == i,
{
    lemma_digits8_bounds(i);
    let n = blocks_of(i);
    assert forall|k: int| 0 <= k < n - 1 implies #[trigger] block_at(x, j + k) >= 8 by {
        assert(block_at(x, j + k) == seg_block(i, k));
    }
    assert(block_at(x, j + n - 1) == seg_block(i, n - 1));
    lemma_seg_span_exact(x, j, n);
    assert forall|k: int| 0 <= k < n implies #[trigger] payload_at(x, j + k) == digits8(i)[k] by {
        assert(block_at(x, j + k) == seg_block(i, k));
        if k + 1 < n {
            assert(seg_block(i, k) == digits8(i)[k] + 8);
        } else {
            assert(seg_block(i, k) == digits8(i)[k]);
        }
    }
    lemma_seg_val_digits(x, j, digits8(i));
    lemma_val_of_digits8(i);
}

/// Scanned values stay below `8^n`: every payload adds three bits.
pub proof fn lemma_seg_val_bound(x: u64, j: int, n: nat)
    ensures
        seg_val(x, j, n) < pow8(n),
    decreases n,
{
    if n > 0 {
        lemma_seg_val_bound(x, j, (n - 1) as nat);
    }
}

/// A word whose tag nibble is set is non-zero, and its low two bits read 1.
pub proof fn lemma_tagged_word(x: u64)
    requires
        nib(x, 0) == 1,
    ensures
        x != 0,
        x & 3 == 1,
        x & 1 == 1,
{
    assert(x != 0 && x & 3 == 1 && x & 1 == 1) by (bit_vector)
        requires nib(x, 0) == 1;
}

// ---------------------------------------------------------------------------
// Executable readers and encoders
// ---------------------------------------------------------------------------

/// Read block `j` of `x`; positions past the word read as zero.
pub(crate) fn read_block(x: u64, j: u8) -> (b: u64)
    requires
        j <= 16,
    ensures
        b == block_at(x, j as int),
{
    if j >= 16 {
        0
    } else {
        let shift: u64 = 60 - 4 * (j as u64);
        (x >> shift) & 0xf
    }
}

/// Number of blocks used by a packed word: its length field.
pub fn block_len(x: u64) -> (r: u8)
    ensures
        r as nat == len_field(x),
        r < 16,
{
    proof {
        lemma_nib_bound(x, 1);
        assert((x & 0xf0) >> 4 == nib(x, 1)) by (bit_vector);
    }
    ((x & 0xf0) >> 4) as u8
}

/// Read the path segment stored in the highest blocks of `x`: its value and
/// the number of blocks it spans. On a word holding a path this yields the
/// first child index; on any other word it reads one block, plus one more for
/// every continuation flag met, never more than seventeen.
pub fn next_from_bits(x: u64) -> (r: (usize, u8))
    requires
        seg_val(x, 0, seg_span(x, 0)) <= usize::MAX,
    ensures
        r.0 as nat == seg_val(x, 0, seg_span(x, 0)),
        r.1 as nat == seg_span(x, 0),
{
    let mut span: u8 = 1;
    let mut val: u64 = read_block(x, 0) % 8;
    let mut cont: bool = read_block(x, 0) >= 8;
    proof {
        lemma_pow8_17();
        assert(seg_val(x, 0, 0) == 0);
        assert(seg_val(x, 0, 1) == payload_at(x, 0));
    }
    while cont
        invariant
            1 <= span <= 17,
            cont == (block_at(x, span as int - 1) >= 8),
            forall|k: int| 0 <= k < span - 1 ==> #[trigger] block_at(x, 0 + k) >= 8,
            val as nat == seg_val(x, 0, span as nat),
            seg_val(x, 0, seg_span(x, 0)) <= usize::MAX,
            pow8(17) == 0x8_0000_0000_0000,
        decreases 17 - span,
    {
        proof {
            if span == 17 {
                assert(block_at(x, span as int - 1) == 0);
            }
            lemma_seg_val_bound(x, 0, span as nat);
            lemma_pow8_le(span as nat, 16);
            reveal_with_fuel(pow8, 18);
        }
        let b = read_block(x, span);
        val = val * 8 + b % 8;
        span = span + 1;
        cont = read_block(x, span - 1) >= 8;
        proof {
            assert(val as nat == seg_val(x, 0, span as nat));
        }
    }
    proof {
        lemma_seg_span_exact(x, 0, span as nat);
    }
    ((val as usize), span)
}

/// Number of blocks needed to encode `index`: one per base-8 digit.
pub(crate) fn blocks_for(index: usize) -> (n: u8)
    ensures
        n as nat == blocks_of(index as nat),
        1 <= n <= 22,
{
    proof {
        lemma_pow8_17();
        lemma_blocks_of_below(index as nat, 22);
    }
    let mut v: usize = index;
    let mut n: u8 = 1;
    while v >= 8
        invariant
            blocks_of(index as nat) == blocks_of(v as nat) + n - 1,
            1 <= n,
            n as nat <= blocks_of(index as nat),
            blocks_of(index as nat) <= 22,
        decreases v,
    {
        proof {
            lemma_digits8_bounds(v as nat / 8);
        }
        v = v / 8;
        n = n + 1;
    }
    n
}

/// The 48-bit truncation applied before packing an index.
pub open spec fn low48(i: nat) -> nat {
    i % 0x1_0000_0000_0000
}

pub proof fn lemma_pow8_16()
    ensures
        pow8(16) == 0x1_0000_0000_0000,
{
    reveal_with_fuel(pow8, 17);
}

/// Pack the low 48 bits of `index` into blocks sitting at the bottom of a
/// word: the value's base-8 digits, most significant in the highest used
/// nibble, each block but the last flagged. Returns the packed blocks and the
/// encoded bit length (four per block).
pub fn encode(index: usize) -> (r: (u64, u8))
    ensures
        r.1 as nat == 4 * blocks_of(low48(index as nat)),
        forall|k: int|
            0 <= k < blocks_of(low48(index as nat)) ==> block_at(
                r.0,
                16 - blocks_of(low48(index as nat)) + k,
            ) == seg_block(low48(index as nat), k),
        forall|m: int| blocks_of(low48(index as nat)) <= m < 16 ==> nib(r.0, m) == 0,
{
    let i: u64 = (index as u64) % 0x1_0000_0000_0000;
    let ghost iv = i as nat;
    proof {
        assert(iv == low48(index as nat));
        lemma_pow8_16();
        lemma_blocks_of_below(iv, 16);
        lemma_digits8_bounds(iv);
    }
    // Collect the base-8 digits, least significant first.
    let mut ds: Vec<u64> = Vec::new();
    let mut v: u64 = i;
    proof {
        assert(digits8(iv) =~= digits8(v as nat) + ds@.reverse());
    }
    while v >= 8
        invariant
            digits8(iv) == digits8(v as nat) + ds@.reverse(),
        decreases v,
    {
        let d = v % 8;
        proof {
            assert(digits8(v as nat) == digits8((v / 8) as nat).push(d));
            assert(ds@.push(d).reverse() =~= seq![d] + ds@.reverse());
            assert(digits8((v / 8) as nat).push(d) + ds@.reverse() =~= digits8((v / 8) as nat) + (
            seq![d] + ds@.reverse()));
        }
        ds.push(d);
        v = v / 8;
    }
    proof {
        assert(digits8(v as nat) =~= seq![v]);
        assert(ds@.push(v).reverse() =~= seq![v] + ds@.reverse());
    }
    ds.push(v);
    let n: usize = ds.len();
    proof {
        assert(digits8(iv) =~= ds@.reverse());
        assert(n == blocks_of(iv));
        assert(forall|t: int| 0 <= t < n ==> ds@[t] == digits8(iv)[n - 1 - t]);
    }
    // Pack the digits into nibbles, least significant digit in nibble 0.
    let mut y: u64 = 0;
    let mut m: usize = 0;
    proof {
        assert forall|t: int| 0 <= t < 16 implies nib(0u64, t) == 0 by {
            lemma_nib_small(0, t as u64);
        }
    }
    while m < n
        invariant
            m <= n,
            n == ds.len(),
            n == blocks_of(iv) <= 16,
            forall|t: int| 0 <= t < ds.len() ==> ds@[t] == digits8(iv)[n - 1 - t],
            forall|k: int| 0 <= k < digits8(iv).len() ==> #[trigger] digits8(iv)[k] < 8,
            forall|t: int| 0 <= t < m ==> #[trigger] nib(y, t) == seg_block(iv, n - 1 - t),
            forall|t: int| m <= t < 16 ==> #[trigger] nib(y, t) == 0,
        decreases n - m,
    {
        let d = ds[m];
        proof {
            assert(ds@[m as int] == digits8(iv)[n - 1 - m]);
        }
        let b: u64 = if m > 0 {
            8 + d
        } else {
            d
        };
        proof {
            assert(b == seg_block(iv, n - 1 - m));
        }
        let term: u64 = b << ((4 * m) as u64);
        let ghost oy = y;
        y = y | term;
        proof {
            assert forall|t: int| 0 <= t < 16 implies #[trigger] nib(y, t) == (if t < m {
                nib(oy, t)
            } else if t == m {
                b
            } else {
                0u64
            }) by {
                lemma_nib_or(oy, term, t as u64);
                lemma_nib_shl(b, m as u64, t as u64);
                if t >= m {
                    lemma_nib_small(b, (t - m) as u64);
                }
                lemma_or_zero(nib(oy, t));
                lemma_or_zero(b);
                lemma_or_zero(0);
            }
        }
        m = m + 1;
    }
    proof {
        assert forall|k: int|
            0 <= k < blocks_of(iv) implies block_at(y, 16 - blocks_of(iv) + k) == seg_block(
            iv,
            k,
        ) by {
            assert(nib(y, n - 1 - k) == seg_block(iv, n - 1 - (n - 1 - k)));
        }
    }
    (y, (4 * n) as u8)
}

// ---------------------------------------------------------------------------
// Iterating over the segments of a packed word
// ---------------------------------------------------------------------------

/// Walks the blocks of a packed word from the top, handing out one decoded
/// path segment at a time.
pub struct BitsIter {
    word: u64,
    next_block: u8,
    end_block: u8,
    rest: Ghost<Seq<usize>>,
}

impl BitsIter {
    #[verifier::type_invariant]
    spec fn inv(self) -> bool {
        &&& self.next_block <= self.end_block <= 14
        &&& path_at(self.word, self.next_block as int, self.rest@)
        &&& path_blocks(self.rest@) == self.end_block - self.next_block
    }

    /// The path segments not yet handed out.
    pub closed spec fn remaining(self) -> Seq<usize> {
        self.rest@
    }

    /// Start reading the path held in `bits`, whose length field must count
    /// the blocks of a path laid out from the top block down.
    pub fn new(bits: u64) -> (r: BitsIter)
        requires
            bits & 1 == 1,
            exists|p: Seq<usize>|
                path_at(bits, 0, p) && path_blocks(p) == len_field(bits) && path_blocks(p)
                    <= BLOCKS,
        ensures
            path_at(bits, 0, r.remaining()),
            path_blocks(r.remaining()) == len_field(bits),
    {
        let ghost p = choose|p: Seq<usize>|
            path_at(bits, 0, p) && path_blocks(p) == len_field(bits) && path_blocks(p) <= BLOCKS;
        let end = block_len(bits);
        BitsIter { word: bits, next_block: 0, end_block: end, rest: Ghost(p) }
    }

    /// Decode the next path segment, or `None` once every block is consumed.
    pub fn next(&mut self) -> (r: Option<usize>)
        ensures
            match r {
                Some(i) => old(self).remaining().len() > 0 && i == old(self).remaining()[0]
                    && final(self).remaining() == old(self).remaining().drop_first(),
                None => old(self).remaining().len() == 0 && final(self).remaining() == old(
                    self,
                ).remaining(),
            },
    {
        proof {
            use_type_invariant(&*self);
        }
        if self.next_block >= self.end_block {
            proof {
                lemma_path_blocks_len(self.rest@);
            }
            return None;
        }
        let ghost p = self.rest@;
        proof {
            if p.len() == 0 {
                assert(path_blocks(p) == 0);
            }
        }
        let ghost i0 = p[0] as nat;
        let j = self.next_block;
        let shifted = self.word << (4 * (j as u64));
        proof {
            lemma_digits8_bounds(i0);
            assert(seg_at(self.word, j as int, i0));
            assert forall|k: int| 0 <= k < blocks_of(i0) implies block_at(shifted, k)
                == seg_block(i0, k) by {
                assert(block_at(self.word, j as int + k) == seg_block(i0, k));
                lemma_nib_shl(self.word, j as u64, (15 - k) as u64);
            }
            lemma_seg_decode(shifted, 0, i0);
        }
        let (idx, used) = next_from_bits(shifted);
        let ghost rest = p.drop_first();
        proof {
            assert(path_blocks(p) == blocks_of(i0) + path_blocks(rest));
        }
        *self = BitsIter {
            word: self.word,
            next_block: j + used,
            end_block: self.end_block,
            rest: Ghost(rest),
        };
        Some(idx)
    }
}

/// A value fits below `8` to the power of its own digit count.
pub proof fn lemma_blocks_of_low(i: nat)
    ensures
        i < pow8(blocks_of(i)),
    decreases i,
{
    if i < 8 {
        assert(blocks_of(i) == 1);
        assert(pow8(1) == 8 * pow8(0));
        assert(pow8(0) == 1);
    } else {
        lemma_blocks_of_low(i / 8);
        assert(blocks_of(i) == blocks_of(i / 8) + 1);
        assert(pow8(blocks_of(i)) == 8 * pow8(blocks_of(i / 8)));
        assert(i == 8 * (i / 8) + i % 8);
        assert(8 * (i / 8) + i % 8 < 8 * pow8(blocks_of(i / 8)));
    }
}

/// A value below `8^m` never needs more than `m` digits.
pub proof fn lemma_blocks_of_below(i: nat, m: nat)
    requires
        i < pow8(m),
        m >= 1,
    ensures
        blocks_of(i) <= m,
    decreases m,
{
    if i >= 8 {
        assert(pow8(m) == 8 * pow8((m - 1) as nat));
        assert(i / 8 < pow8((m - 1) as nat));
        lemma_blocks_of_below(i / 8, (m - 1) as nat);
    }
}

} // verus!
