//! Widget identifiers.
//!
//! A widget identifier names a widget by its path: the child indices walked
//! from the window root. Short paths are packed into a single 64-bit word
//! (see [`crate::encoding`]); paths that need more than fourteen blocks move
//! to a shared, reference-counted array. Which representation is in use is
//! invisible to callers: equality, ancestry and iteration all speak about the
//! path alone.
//!
//! Identifiers are not meant to cross threads: the shared representation
//! counts references without synchronisation, which `Rc` enforces.

use std::rc::Rc;
use vstd::pervasive::unreached;
use vstd::prelude::*;

use crate::encoding::{
    block_at, block_len, blocks_of, digits8, encode, len_field, lemma_blocks_of_below, read_block,
    lemma_digits8_bounds, lemma_nib_bound, lemma_nib_ext, lemma_nib_mask, lemma_nib_or,
    lemma_nib_shl, lemma_nib_small, lemma_or_zero, lemma_path_at_concat, lemma_path_at_frame,
    lemma_path_blocks_len, lemma_path_blocks_push, lemma_path_blocks_take_rest,
    lemma_pow8_16, lemma_same_path_same_blocks, lemma_seg_decode, lemma_stream_prefix,
    lemma_stream_unique, lemma_tagged_word, low48, next_from_bits, nib, packed_wf, path_at,
    path_blocks, pow8, seg_at, seg_block, BitsIter, BLOCKS,
};

verus! {

/// Storage for one identifier: the invalid sentinel, an inline word, or a
/// shared array of indices.
enum Repr {
    Invalid,
    Packed(u64),
    Shared(Rc<Vec<usize>>),
}

/// Widget identifier: a cheap-to-copy value naming one widget of a window by
/// the path of child indices leading to it.
///
/// The view of an identifier is `None` for the invalid (default) value and
/// `Some(path)` otherwise; the window root has the empty path.
pub struct WidgetId {
    repr: Repr,
    path: Ghost<Seq<usize>>,
}

impl View for WidgetId {
    type V = Option<Seq<usize>>;

    closed spec fn view(&self) -> Option<Seq<usize>> {
        match self.repr {
            Repr::Invalid => None,
            _ => Some(self.path@),
        }
    }
}

impl WidgetId {
    #[verifier::type_invariant]
    spec fn inv(self) -> bool {
        match self.repr {
            Repr::Invalid => self.path@ == Seq::<usize>::empty(),
            Repr::Packed(x) => packed_wf(x, self.path@),
            Repr::Shared(rc) => rc@ == self.path@ && path_blocks(self.path@) > BLOCKS,
        }
    }

    /// The identifier of the window itself: the empty path.
    pub fn root() -> (r: WidgetId)
        ensures
            r@ == Some(Seq::<usize>::empty()),
    {
        let ghost p = Seq::<usize>::empty();
        proof {
            assert(packed_wf(1u64, p)) by {
                assert(nib(1u64, 0) == 1 && nib(1u64, 1) == 0) by (bit_vector);
                assert forall|j: int| 0 <= j < BLOCKS implies block_at(1u64, j) == 0 by {
                    lemma_nib_small(1u64, (15 - j) as u64);
                }
            }
        }
        WidgetId { repr: Repr::Packed(1), path: Ghost(p) }
    }

    /// Is the identifier valid? Default-constructed identifiers are not.
    pub fn is_valid(&self) -> (r: bool)
        ensures
            r == (self@ is Some),
    {
        proof {
            use_type_invariant(self);
        }
        match &self.repr {
            Repr::Invalid => false,
            _ => true,
        }
    }
}

impl Default for WidgetId {
    /// The invalid identifier: a placeholder until a widget is configured.
    fn default() -> (r: Self)
        ensures
            r@ is None,
    {
        WidgetId { repr: Repr::Invalid, path: Ghost(Seq::empty()) }
    }
}

impl Clone for WidgetId {
    /// Cloning keeps the path; in the shared representation it only bumps the
    /// reference count.
    fn clone(&self) -> (r: Self)
        ensures
            r@ == self@,
    {
        proof {
            use_type_invariant(self);
        }
        match &self.repr {
            Repr::Invalid => WidgetId { repr: Repr::Invalid, path: Ghost(self.path@) },
            Repr::Packed(x) => WidgetId { repr: Repr::Packed(*x), path: Ghost(self.path@) },
            Repr::Shared(rc) => WidgetId { repr: Repr::Shared(rc.clone()), path: Ghost(self.path@) },
        }
    }
}

/// Relies on `std::rc::Rc::as_ptr`: the returned pointer refers to the live
/// shared allocation, so it is non-null and aligned for its target, eight
/// bytes for a `Vec<usize>`.
#[verifier::external_body]
fn rc_addr(rc: &Rc<Vec<usize>>) -> (a: u64)
    ensures
        a != 0,
        a % 8 == 0,
{
    Rc::as_ptr(rc) as usize as u64
}

impl WidgetId {
    /// Convert to a raw `u64`. The result is never zero. For an identifier
    /// whose path fits inline it is the canonical packed word, which
    /// determines the path (see [`lemma_packed_path_unique`]); for a shared
    /// identifier it is an address-based value whose low two bits read 2.
    pub fn as_u64(&self) -> (r: u64)
        ensures
            r != 0,
            self@ is None ==> r == 0xffff_ffff_ffff_ffff,
            self@ matches Some(p) ==> (path_blocks(p) <= BLOCKS ==> packed_wf(r, p) && r & 3 == 1)
                && (path_blocks(p) > BLOCKS ==> r & 3 == 2),
    {
        proof {
            use_type_invariant(self);
        }
        match &self.repr {
            Repr::Invalid => 0xffff_ffff_ffff_ffff,
            Repr::Packed(x) => {
                proof {
                    lemma_tagged_word(*x);
                }
                *x
            },
            Repr::Shared(rc) => {
                let a = rc_addr(rc);
                let r = a | 2;
                proof {
                    assert(r != 0 && r & 3 == 2) by (bit_vector)
                        requires
                            a % 8 == 0,
                            r == a | 2,
                    ;
                }
                r
            },
        }
    }

    /// Convert an optional identifier to a raw `u64`: zero stands for "no
    /// identifier", everything else is [`Self::as_u64`] of the value.
    pub fn opt_to_u64(id: Option<&WidgetId>) -> (r: u64)
        ensures
            (r == 0) == (id is None),
            id matches Some(i) ==> (i@ is None ==> r == 0xffff_ffff_ffff_ffff) && (i@ matches Some(
                p,
            ) ==> (path_blocks(p) <= BLOCKS ==> packed_wf(r, p))),
    {
        match id {
            None => 0,
            Some(id) => id.as_u64(),
        }
    }

    /// Recover an optional identifier from a raw `u64`. Zero yields `None`;
    /// a canonical packed word yields the inline identifier for its path.
    /// Only values produced by [`Self::as_u64`] of an inline identifier, by
    /// [`Self::opt_to_u64`], or zero may be passed in; a word whose low bits
    /// do not read as an inline tag aborts.
    pub fn opt_from_u64(n: u64) -> (r: Option<WidgetId>)
        requires
            n == 0 || exists|p: Seq<usize>| packed_wf(n, p),
        ensures
            (r is None) == (n == 0),
            r matches Some(id) ==> id@ matches Some(p) && packed_wf(n, p),
    {
        if n == 0 {
            None
        } else if n & 3 == 1 {
            let ghost p = choose|p: Seq<usize>| packed_wf(n, p);
            Some(WidgetId { repr: Repr::Packed(n), path: Ghost(p) })
        } else {
            proof {
                let p = choose|p: Seq<usize>| packed_wf(n, p);
                lemma_tagged_word(n);
            }
            unreached()
        }
    }
}

impl WidgetId {
    /// Decode the path held in a packed word into a fresh vector.
    fn decode_packed(x: u64, Ghost(p): Ghost<Seq<usize>>) -> (v: Vec<usize>)
        requires
            packed_wf(x, p),
        ensures
            v@ == p,
    {
        proof {
            lemma_tagged_word(x);
        }
        let mut it = BitsIter::new(x);
        proof {
            lemma_stream_unique(x, 0, it.remaining(), p);
        }
        let mut v: Vec<usize> = Vec::new();
        let mut done = false;
        while !done
            invariant
                v@ + it.remaining() == p,
                done ==> it.remaining().len() == 0,
            decreases it.remaining().len(), (if done { 0int } else { 1int }),
        {
            let ghost old_v = v@;
            let ghost old_rem = it.remaining();
            match it.next() {
                Some(i) => {
                    v.push(i);
                    proof {
                        assert(v@ + it.remaining() =~= old_v + old_rem);
                    }
                },
                None => {
                    done = true;
                },
            }
        }
        proof {
            assert(v@ =~= p);
        }
        v
    }

    /// The identifier of this widget's child number `index`: the same path
    /// with `index` appended. Stays inline while the packed word has room,
    /// otherwise moves to the shared representation; either way only the path
    /// is observable.
    pub fn make_child(&self, index: usize) -> (r: WidgetId)
        requires
            self@ is Some,
        ensures
            r@ == Some(self@->0.push(index)),
    {
        proof {
            use_type_invariant(self);
        }
        let ghost p = self.path@;
        let ghost newp = p.push(index);
        proof {
            lemma_path_blocks_push(p, index);
            lemma_digits8_bounds(index as nat);
        }
        match &self.repr {
            Repr::Invalid => unreached(),
            Repr::Packed(x) => {
                let x = *x;
                let bl = block_len(x);
                let need = crate::encoding::blocks_for(index);
                if need <= BLOCKS - bl {
                    proof {
                        crate::encoding::lemma_blocks_of_low(index as nat);
                        lemma_pow8_16();
                        crate::encoding::lemma_pow8_le(blocks_of(index as nat), 16);
                        assert((index as nat) < pow8(16));
                        assert(low48(index as nat) == index as nat);
                    }
                    let (bits, bit_len) = encode(index);
                    let used: u8 = bit_len / 4;
                    let newlen: u8 = bl + used;
                    let shift: u8 = 4 * (BLOCKS - bl) - bit_len + 8;
                    let base: u64 = x & 0xffff_ffff_ffff_ff00;
                    let rest: u64 = bits << (shift as u64);
                    let w: u64 = base | rest | ((newlen as u64) << 4) | 1;
                    proof {
                        lemma_make_child_word(x, bits, p, index, w);
                    }
                    WidgetId { repr: Repr::Packed(w), path: Ghost(newp) }
                } else {
                    let mut v = Self::decode_packed(x, Ghost(p));
                    v.push(index);
                    proof {
                        assert(v@ =~= newp);
                    }
                    WidgetId { repr: Repr::Shared(Rc::new(v)), path: Ghost(newp) }
                }
            },
            Repr::Shared(rc) => {
                let src: &Vec<usize> = &*rc;
                let n = src.len();
                let mut v: Vec<usize> = Vec::new();
                let mut k: usize = 0;
                while k < n
                    invariant
                        k <= n == src.len(),
                        v@ == src@.take(k as int),
                    decreases n - k,
                {
                    v.push(src[k]);
                    proof {
                        assert(src@.take(k + 1) =~= src@.take(k as int).push(src@[k as int]));
                    }
                    k = k + 1;
                }
                v.push(index);
                proof {
                    assert(src@.take(n as int) =~= src@);
                    assert(v@ =~= newp);
                }
                WidgetId { repr: Repr::Shared(Rc::new(v)), path: Ghost(newp) }
            },
        }
    }
}

/// The packed word assembled by `make_child` carries the old path with the
/// new segment appended: nibble bookkeeping for the four or-ed parts.
proof fn lemma_make_child_word(x: u64, bits: u64, p: Seq<usize>, index: usize, w: u64)
    requires
        packed_wf(x, p),
        path_blocks(p) + blocks_of(index as nat) <= BLOCKS,
        low48(index as nat) == index as nat,
        forall|k: int|
            0 <= k < blocks_of(index as nat) ==> block_at(
                bits,
                16 - blocks_of(index as nat) + k,
            ) == seg_block(index as nat, k),
        forall|m: int| blocks_of(index as nat) <= m < 16 ==> nib(bits, m) == 0,
        w == (x & 0xffff_ffff_ffff_ff00) | (bits << (
        (4 * (BLOCKS - path_blocks(p)) - 4 * blocks_of(index as nat) + 8) as u64)) | ((((
        path_blocks(p) + blocks_of(index as nat)) as u64)) << 4) | 1,
    ensures
        packed_wf(w, p.push(index)),
{
    let bl = path_blocks(p) as int;
    let used = blocks_of(index as nat) as int;
    let t = 16 - bl - used;
    let base = x & 0xffff_ffff_ffff_ff00;
    let rest = bits << ((4 * (BLOCKS - path_blocks(p)) - 4 * blocks_of(index as nat) + 8) as u64);
    let lenw = (((path_blocks(p) + blocks_of(index as nat)) as u64)) << 4;
    lemma_digits8_bounds(index as nat);
    assert((4 * (BLOCKS - path_blocks(p)) - 4 * blocks_of(index as nat) + 8) as u64 == (4 * t) as u64);
    assert forall|m: int| 0 <= m < 16 implies #[trigger] nib(w, m) == (if m == 0 {
        1u64
    } else if m == 1 {
        (bl + used) as u64
    } else if m >= t && m <= 15 - bl {
        nib(bits, m - t)
    } else {
        nib(x, m)
    }) by {
        if 2 <= m && m >= t && m <= 15 - bl {
            assert(block_at(x, 15 - m) == 0);
        }
        if m > 15 - bl && m >= t {
            assert(nib(bits, m - t) == 0);
        }
        lemma_nib_or(base | rest | lenw, 1, m as u64);
        lemma_nib_or(base | rest, lenw, m as u64);
        lemma_nib_or(base, rest, m as u64);
        lemma_nib_mask(x, m as u64);
        lemma_nib_shl(bits, t as u64, m as u64);
        lemma_nib_small(1u64, m as u64);
        lemma_nib_shl((bl + used) as u64, 1, m as u64);
        if m >= 1 {
            lemma_nib_small((bl + used) as u64, (m - 1) as u64);
        }
        lemma_nib_bound(x, m as u64);
        lemma_nib_bound(bits, m as u64);
        if m >= t {
            lemma_nib_bound(bits, (m - t) as u64);
            lemma_or_zero(nib(bits, m - t));
        }
        lemma_or_zero(nib(x, m));
        lemma_or_zero((bl + used) as u64);
        lemma_or_zero(1u64);
        lemma_or_zero(0u64);
    }
    // Blocks below the old path are unchanged; the new segment sits just
    // after; everything above is still zero.
    assert forall|j: int| 0 <= j < bl implies #[trigger] block_at(w, j) == block_at(x, j) by {
        assert(nib(w, 15 - j) == nib(x, 15 - j));
    }
    assert forall|j: int| bl <= j < bl + used implies #[trigger] block_at(w, j) == seg_block(
        index as nat,
        j - bl,
    ) by {
        assert(nib(w, 15 - j) == nib(bits, 15 - j - t));
        assert(block_at(bits, 16 - used + (j - bl)) == seg_block(index as nat, j - bl));
        assert(nib(bits, 15 - (16 - used + (j - bl))) == seg_block(index as nat, j - bl));
    }
    assert forall|j: int| bl + used <= j < BLOCKS implies #[trigger] block_at(w, j) == 0 by {
        assert(nib(w, 15 - j) == nib(x, 15 - j));
        assert(block_at(x, j) == 0);
    }
    lemma_path_blocks_push(p, index);
    assert(packed_wf(w, p.push(index))) by {
        assert(nib(w, 0) == 1);
        assert(len_field(w) == bl + used);
        lemma_path_at_frame(w, x, 0, p);
        assert(seg_at(w, bl, index as nat));
        assert(path_at(w, 0, p.push(index))) by {
            let single = seq![index];
            assert(p.push(index) =~= p + single);
            lemma_path_at_concat(w, 0, p, single);
            assert(path_at(w, bl, single)) by {
                assert(single[0] == index);
                assert(single.drop_first() =~= Seq::<usize>::empty());
                assert(path_at(w, bl + used, single.drop_first()));
            }
        }
    }
}

/// What it means for one identifier to be an ancestor of another: both are
/// valid and the first one's path is a prefix of the second one's (every
/// identifier is its own ancestor). An invalid identifier on either side is
/// never an ancestor or descendant; this is deliberate and differs from
/// equality, which refuses invalid identifiers outright.
pub open spec fn ancestor_spec(a: Option<Seq<usize>>, d: Option<Seq<usize>>) -> bool {
    match (a, d) {
        (Some(p), Some(q)) => p.is_prefix_of(q),
        _ => false,
    }
}

/// The child index selected by a descendant: when `d`'s path strictly extends
/// `a`'s, the first segment of `d` past `a`; otherwise nothing.
pub open spec fn index_of_child_spec(a: Option<Seq<usize>>, d: Option<Seq<usize>>) -> Option<
    usize,
> {
    match (a, d) {
        (Some(p), Some(q)) => if p.len() < q.len() && p.is_prefix_of(q) {
            Some(q[p.len() as int])
        } else {
            None
        },
        _ => None,
    }
}

/// Element-by-element comparison of two index vectors.
fn vec_eq(a: &Vec<usize>, b: &Vec<usize>) -> (r: bool)
    ensures
        r == (a@ == b@),
{
    if a.len() != b.len() {
        return false;
    }
    let n = a.len();
    let mut k: usize = 0;
    while k < n
        invariant
            k <= n == a.len() == b.len(),
            forall|t: int| 0 <= t < k ==> a@[t] == b@[t],
        decreases n - k,
    {
        if a[k] != b[k] {
            return false;
        }
        k = k + 1;
    }
    proof {
        assert(a@ =~= b@);
    }
    true
}

/// Does `a` hold a prefix of `b`, element by element?
fn vec_is_prefix(a: &Vec<usize>, b: &Vec<usize>) -> (r: bool)
    ensures
        r == a@.is_prefix_of(b@),
{
    let n = a.len();
    if n > b.len() {
        return false;
    }
    let mut k: usize = 0;
    while k < n
        invariant
            k <= n == a.len(),
            n <= b.len(),
            forall|t: int| 0 <= t < k ==> a@[t] == b@[t],
        decreases n - k,
    {
        if a[k] != b[k] {
            proof {
                assert(a@[k as int] != b@.subrange(0, a@.len() as int)[k as int]);
            }
            return false;
        }
        k = k + 1;
    }
    proof {
        assert(a@ =~= b@.subrange(0, a@.len() as int));
    }
    true
}

impl WidgetId {
    /// Are two valid identifiers the same widget? True exactly when the
    /// decoded paths are equal, whatever representation either side uses.
    /// Asking this of an invalid identifier is a logic error.
    pub fn eq(&self, rhs: &WidgetId) -> (r: bool)
        requires
            self@ is Some,
            rhs@ is Some,
        ensures
            r == (self@ == rhs@),
    {
        proof {
            use_type_invariant(self);
            use_type_invariant(rhs);
        }
        match (&self.repr, &rhs.repr) {
            (Repr::Invalid, _) | (_, Repr::Invalid) => unreached(),
            (Repr::Packed(x), Repr::Packed(y)) => {
                proof {
                    if self.path@ == rhs.path@ {
                        lemma_packed_word_unique(*x, *y, self.path@);
                    }
                    if *x == *y {
                        lemma_stream_unique(*x, 0, self.path@, rhs.path@);
                    }
                }
                *x == *y
            },
            (Repr::Packed(_), Repr::Shared(_)) | (Repr::Shared(_), Repr::Packed(_)) => false,
            (Repr::Shared(a), Repr::Shared(b)) => vec_eq(&**a, &**b),
        }
    }

    /// True when `self` is `id` or an ancestor of `id`: its path is a prefix
    /// of `id`'s path. Invalid identifiers are never related; no panic.
    pub fn is_ancestor_of(&self, id: &Self) -> (r: bool)
        ensures
            r == ancestor_spec(self@, id@),
    {
        proof {
            use_type_invariant(self);
            use_type_invariant(id);
        }
        match (&self.repr, &id.repr) {
            (Repr::Invalid, _) | (_, Repr::Invalid) => false,
            (Repr::Shared(_), Repr::Packed(_)) => {
                proof {
                    lemma_prefix_blocks(self.path@, id.path@);
                }
                false
            },
            (Repr::Packed(x), Repr::Packed(y)) => {
                let x = *x;
                let y = *y;
                let ghost p = self.path@;
                let ghost q = id.path@;
                let sb = block_len(x);
                let cb = block_len(y);
                if sb > cb {
                    proof {
                        lemma_prefix_blocks(p, q);
                    }
                    return false;
                }
                let mut k: u8 = 0;
                while k < sb
                    invariant
                        k <= sb,
                        sb as nat == path_blocks(p),
                        cb as nat == path_blocks(q),
                        sb <= cb,
                        packed_wf(x, p),
                        packed_wf(y, q),
                        self@ == Some(p),
                        id@ == Some(q),
                        forall|t: int| 0 <= t < k ==> block_at(x, t) == block_at(y, t),
                    decreases sb - k,
                {
                    if read_block(x, k) != read_block(y, k) {
                        proof {
                            if p.is_prefix_of(q) {
                                assert(p == q.take(p.len() as int));
                                lemma_prefix_path_at(y, q, p.len() as int);
                                assert(path_at(y, 0, p));
                                lemma_same_path_same_blocks(x, y, 0, p);
                                assert(block_at(x, k as int) == block_at(y, k as int));
                                assert(false);
                            }
                        }
                        return false;
                    }
                    k = k + 1;
                }
                proof {
                    lemma_stream_prefix(x, y, 0, p, q);
                }
                true
            },
            (Repr::Packed(x), Repr::Shared(rc)) => {
                let v = Self::decode_packed(*x, Ghost(self.path@));
                vec_is_prefix(&v, &**rc)
            },
            (Repr::Shared(a), Repr::Shared(b)) => vec_is_prefix(&**a, &**b),
        }
    }

    /// Index of the child of `self` on the way down to `child`: the first
    /// path segment of `child` past `self`'s path, if `child` is a strict
    /// descendant; `None` otherwise, and always `None` around invalid
    /// identifiers.
    pub fn index_of_child(&self, child: &Self) -> (r: Option<usize>)
        ensures
            r == index_of_child_spec(self@, child@),
    {
        proof {
            use_type_invariant(self);
            use_type_invariant(child);
        }
        match (&self.repr, &child.repr) {
            (Repr::Invalid, _) | (_, Repr::Invalid) => None,
            (Repr::Shared(_), Repr::Packed(_)) => {
                proof {
                    lemma_prefix_blocks(self.path@, child.path@);
                }
                None
            },
            (Repr::Packed(x), Repr::Packed(y)) => {
                let x = *x;
                let y = *y;
                let ghost p = self.path@;
                let ghost q = child.path@;
                let sb = block_len(x);
                let cb = block_len(y);
                if sb >= cb {
                    proof {
                        if p.len() < q.len() && p.is_prefix_of(q) {
                            lemma_strict_prefix_blocks(p, q);
                        }
                    }
                    return None;
                }
                let mut k: u8 = 0;
                while k < sb
                    invariant
                        k <= sb,
                        sb as nat == path_blocks(p),
                        cb as nat == path_blocks(q),
                        sb < cb,
                        packed_wf(x, p),
                        packed_wf(y, q),
                        self@ == Some(p),
                        child@ == Some(q),
                        forall|t: int| 0 <= t < k ==> block_at(x, t) == block_at(y, t),
                    decreases sb - k,
                {
                    if read_block(x, k) != read_block(y, k) {
                        proof {
                            if p.is_prefix_of(q) {
                                assert(p == q.take(p.len() as int));
                                lemma_prefix_path_at(y, q, p.len() as int);
                                assert(path_at(y, 0, p));
                                lemma_same_path_same_blocks(x, y, 0, p);
                                assert(block_at(x, k as int) == block_at(y, k as int));
                                assert(false);
                            }
                        }
                        return None;
                    }
                    k = k + 1;
                }
                let ghost l = p.len() as int;
                proof {
                    lemma_stream_prefix(x, y, 0, p, q);
                    lemma_path_blocks_take_rest(q, l);
                    if p.len() == q.len() {
                        assert(q.take(l) =~= q);
                    }
                    assert(l < q.len());
                    lemma_prefix_path_at(y, q, l);
                    assert(q.skip(l)[0] == q[l]);
                    assert(seg_at(y, sb as int, q[l] as nat));
                }
                let masked = y & 0xffff_ffff_ffff_ff00;
                let shifted = masked << (4 * (sb as u64));
                proof {
                    let i = q[l] as nat;
                    lemma_digits8_bounds(i);
                    lemma_path_blocks_len(q.skip(l));
                    assert(path_blocks(q.skip(l)) >= blocks_of(i)) by {
                        assert(path_blocks(q.skip(l)) == blocks_of(i) + path_blocks(
                            q.skip(l).drop_first(),
                        ));
                    }
                    assert forall|kk: int| 0 <= kk < blocks_of(i) implies block_at(shifted, kk)
                        == seg_block(i, kk) by {
                        lemma_nib_shl(masked, sb as u64, (15 - kk) as u64);
                        lemma_nib_mask(y, (15 - kk - sb) as u64);
                        assert(block_at(y, sb + kk) == seg_block(i, kk));
                    }
                    lemma_seg_decode(shifted, 0, i);
                }
                let (idx, _used) = next_from_bits(shifted);
                Some(idx)
            },
            (Repr::Packed(x), Repr::Shared(rc)) => {
                let v = Self::decode_packed(*x, Ghost(self.path@));
                let bv: &Vec<usize> = &**rc;
                if vec_is_prefix(&v, bv) {
                    proof {
                        if v@.len() == bv@.len() {
                            assert(v@ =~= bv@);
                        }
                    }
                    Some(bv[v.len()])
                } else {
                    None
                }
            },
            (Repr::Shared(a), Repr::Shared(b)) => {
                let av: &Vec<usize> = &**a;
                let bv: &Vec<usize> = &**b;
                if vec_is_prefix(av, bv) {
                    if av.len() < bv.len() {
                        Some(bv[av.len()])
                    } else {
                        None
                    }
                } else {
                    None
                }
            },
        }
    }
}

/// Storage for a path iterator: a block scanner for inline identifiers, or a
/// handle on the shared array and a cursor.
enum PathIterRepr {
    Bits(BitsIter),
    Slice(Rc<Vec<usize>>, usize),
}

/// Lazily yields the indices of one identifier's path, root to leaf.
pub struct PathIter {
    at: PathIterRepr,
}

impl PathIter {
    /// The indices not yet yielded.
    pub closed spec fn remaining(&self) -> Seq<usize> {
        match self.at {
            PathIterRepr::Bits(it) => it.remaining(),
            PathIterRepr::Slice(rc, idx) => rc@.skip(idx as int),
        }
    }

    pub closed spec fn wf(&self) -> bool {
        match self.at {
            PathIterRepr::Bits(_) => true,
            PathIterRepr::Slice(rc, idx) => idx <= rc@.len(),
        }
    }

    /// The next index of the path, or `None` after the leaf.
    pub fn next(&mut self) -> (r: Option<usize>)
        requires
            old(self).wf(),
        ensures
            final(self).wf(),
            match r {
                Some(i) => old(self).remaining().len() > 0 && i == old(self).remaining()[0]
                    && final(self).remaining() == old(self).remaining().drop_first(),
                None => old(self).remaining().len() == 0 && final(self).remaining() == old(
                    self,
                ).remaining(),
            },
    {
        match &mut self.at {
            PathIterRepr::Bits(it) => it.next(),
            PathIterRepr::Slice(rc, idx) => {
                let v: &Vec<usize> = &**rc;
                if *idx < v.len() {
                    let i = v[*idx];
                    let ghost at = *idx as int;
                    *idx = *idx + 1;
                    proof {
                        assert(rc@.skip(at)[0] == rc@[at]);
                        assert(rc@.skip(at + 1) =~= rc@.skip(at).drop_first());
                    }
                    Some(i)
                } else {
                    None
                }
            },
        }
    }
}

impl WidgetId {
    /// Iterate over this identifier's path from the root down. Iterating an
    /// invalid identifier is a logic error.
    pub fn iter_path(&self) -> (r: PathIter)
        requires
            self@ is Some,
        ensures
            r.wf(),
            Some(r.remaining()) == self@,
    {
        proof {
            use_type_invariant(self);
        }
        match &self.repr {
            Repr::Invalid => unreached(),
            Repr::Packed(x) => {
                proof {
                    lemma_tagged_word(*x);
                }
                let it = BitsIter::new(*x);
                proof {
                    lemma_stream_unique(*x, 0, it.remaining(), self.path@);
                }
                PathIter { at: PathIterRepr::Bits(it) }
            },
            Repr::Shared(rc) => {
                proof {
                    assert(rc@.skip(0) =~= rc@);
                }
                PathIter { at: PathIterRepr::Slice(rc.clone(), 0) }
            },
        }
    }
}

// ---------------------------------------------------------------------------
// Diagnostic rendering
// ---------------------------------------------------------------------------

/// Hexadecimal digit for one block value.
pub open spec fn hex_char(b: u64) -> char {
    if b == 0 {
        '0'
    } else if b == 1 {
        '1'
    } else if b == 2 {
        '2'
    } else if b == 3 {
        '3'
    } else if b == 4 {
        '4'
    } else if b == 5 {
        '5'
    } else if b == 6 {
        '6'
    } else if b == 7 {
        '7'
    } else if b == 8 {
        '8'
    } else if b == 9 {
        '9'
    } else if b == 10 {
        'a'
    } else if b == 11 {
        'b'
    } else if b == 12 {
        'c'
    } else if b == 13 {
        'd'
    } else if b == 14 {
        'e'
    } else {
        'f'
    }
}

/// One hex digit per block of the segment for `i`, so the printed width of an
/// index tracks its encoded width.
pub open spec fn seg_chars(i: nat) -> Seq<char> {
    Seq::new(blocks_of(low48(i)), |k: int| hex_char(seg_block(low48(i), k)))
}

/// The digits of a whole path, one segment after the other.
pub open spec fn path_chars(p: Seq<usize>) -> Seq<char>
    decreases p.len(),
{
    if p.len() == 0 {
        Seq::empty()
    } else {
        seg_chars(p[0] as nat) + path_chars(p.drop_first())
    }
}

/// What rendering an identifier yields: `#` followed by the path's digits, or
/// a sentinel for the invalid value.
pub open spec fn display_spec(v: Option<Seq<usize>>) -> Seq<char> {
    match v {
        None => seq!['#', 'I', 'N', 'V', 'A', 'L', 'I', 'D'],
        Some(p) => seq!['#'] + path_chars(p),
    }
}

proof fn lemma_path_chars_concat(a: Seq<usize>, b: Seq<usize>)
    ensures
        path_chars(a + b) == path_chars(a) + path_chars(b),
    decreases a.len(),
{
    if a.len() == 0 {
        assert(a + b =~= b);
        assert(path_chars(a) + path_chars(b) =~= path_chars(b));
    } else {
        assert((a + b)[0] == a[0]);
        assert((a + b).drop_first() =~= a.drop_first() + b);
        lemma_path_chars_concat(a.drop_first(), b);
        assert(seg_chars(a[0] as nat) + (path_chars(a.drop_first()) + path_chars(b)) =~= (seg_chars(
            a[0] as nat,
        ) + path_chars(a.drop_first())) + path_chars(b));
    }
}

/// Relies on `String::push`: appends the given character to the string.
#[verifier::external_body]
fn push_char(s: &mut String, c: char)
    ensures
        final(s)@ == old(s)@.push(c),
{
    s.push(c);
}

/// Executable hexadecimal digit.
fn hex_digit(b: u64) -> (c: char)
    requires
        b < 16,
    ensures
        c == hex_char(b),
{
    if b == 0 {
        '0'
    } else if b == 1 {
        '1'
    } else if b == 2 {
        '2'
    } else if b == 3 {
        '3'
    } else if b == 4 {
        '4'
    } else if b == 5 {
        '5'
    } else if b == 6 {
        '6'
    } else if b == 7 {
        '7'
    } else if b == 8 {
        '8'
    } else if b == 9 {
        '9'
    } else if b == 10 {
        'a'
    } else if b == 11 {
        'b'
    } else if b == 12 {
        'c'
    } else if b == 13 {
        'd'
    } else if b == 14 {
        'e'
    } else {
        'f'
    }
}

/// Append the digits of every index of `v` to `s`.
fn push_path(s: &mut String, v: &Vec<usize>)
    ensures
        final(s)@ == old(s)@ + path_chars(v@),
{
    let n = v.len();
    let mut k: usize = 0;
    proof {
        assert(v@.take(0) =~= Seq::<usize>::empty());
        assert(old(s)@ + path_chars(v@.take(0)) =~= old(s)@);
    }
    while k < n
        invariant
            k <= n == v.len(),
            s@ == old(s)@ + path_chars(v@.take(k as int)),
        decreases n - k,
    {
        let idx = v[k];
        let ghost iv = low48(idx as nat);
        let (bits, blen) = encode(idx);
        let ub = blen / 4;
        proof {
            lemma_digits8_bounds(iv);
            crate::encoding::lemma_pow8_17();
            lemma_blocks_of_below(iv, 16);
        }
        let ghost before = s@;
        let mut t: u8 = 0;
        while t < ub
            invariant
                t <= ub,
                ub as nat == blocks_of(iv),
                ub <= 16,
                iv == low48(idx as nat),
                forall|kk: int|
                    0 <= kk < blocks_of(iv) ==> block_at(bits, 16 - blocks_of(iv) + kk)
                        == seg_block(iv, kk),
                forall|kk: int| 0 <= kk < blocks_of(iv) ==> #[trigger] digits8(iv)[kk] < 8,
                s@ == before + Seq::new(t as nat, |kk: int| hex_char(seg_block(iv, kk))),
            decreases ub - t,
        {
            let b = read_block(bits, 16 - ub + t);
            proof {
                assert(b == seg_block(iv, t as int));
                assert(b < 16);
            }
            let c = hex_digit(b);
            push_char(s, c);
            proof {
                assert(Seq::new(t as nat + 1, |kk: int| hex_char(seg_block(iv, kk))) =~= Seq::new(
                    t as nat,
                    |kk: int| hex_char(seg_block(iv, kk)),
                ).push(hex_char(seg_block(iv, t as int))));
                assert(s@ =~= before + Seq::new(t as nat + 1, |kk: int| hex_char(seg_block(iv, kk))));
            }
            t = t + 1;
        }
        proof {
            assert(Seq::new(ub as nat, |kk: int| hex_char(seg_block(iv, kk))) =~= seg_chars(
                idx as nat,
            ));
            let single = seq![idx];
            assert(v@.take(k + 1) =~= v@.take(k as int) + single);
            lemma_path_chars_concat(v@.take(k as int), single);
            assert(single.drop_first() =~= Seq::<usize>::empty());
            assert(single[0] == idx);
            assert(path_chars(Seq::<usize>::empty()) =~= Seq::<char>::empty());
            assert(path_chars(single) =~= seg_chars(idx as nat) + path_chars(
                Seq::<usize>::empty(),
            ));
            assert(path_chars(single) =~= seg_chars(idx as nat));
            assert(s@ =~= old(s)@ + path_chars(v@.take(k + 1)));
        }
        k = k + 1;
    }
    proof {
        assert(v@.take(n as int) =~= v@);
    }
}

impl WidgetId {
    /// Render the identifier for diagnostics: `#` followed by one hex digit
    /// per encoded block, `#INVALID` for the invalid value. The format is not
    /// meant to be parsed back.
    pub fn to_string(&self) -> (s: String)
        ensures
            s@ == display_spec(self@),
    {
        proof {
            use_type_invariant(self);
        }
        let mut s = String::new();
        push_char(&mut s, '#');
        proof {
            assert(s@ =~= seq!['#']);
        }
        match &self.repr {
            Repr::Invalid => {
                push_char(&mut s, 'I');
                push_char(&mut s, 'N');
                push_char(&mut s, 'V');
                push_char(&mut s, 'A');
                push_char(&mut s, 'L');
                push_char(&mut s, 'I');
                push_char(&mut s, 'D');
                proof {
                    assert(s@ =~= display_spec(self@));
                }
                s
            },
            Repr::Packed(x) => {
                let v = Self::decode_packed(*x, Ghost(self.path@));
                push_path(&mut s, &v);
                s
            },
            Repr::Shared(rc) => {
                push_path(&mut s, &**rc);
                s
            },
        }
    }

    /// Build the identifier for a whole path at once, by walking down from
    /// the root.
    pub fn from_path(path: &[usize]) -> (r: WidgetId)
        ensures
            r@ == Some(path@),
    {
        let mut id = WidgetId::root();
        let n = path.len();
        let mut k: usize = 0;
        proof {
            assert(path@.take(0) =~= Seq::<usize>::empty());
        }
        while k < n
            invariant
                k <= n == path@.len(),
                id@ == Some(path@.take(k as int)),
            decreases n - k,
        {
            id = id.make_child(path[k]);
            proof {
                assert(path@.take(k + 1) =~= path@.take(k as int).push(path@[k as int]));
            }
            k = k + 1;
        }
        proof {
            assert(path@.take(n as int) =~= path@);
        }
        id
    }
}

/// Every valid identifier is its own ancestor: a path is a prefix of itself.
pub proof fn lemma_self_ancestry(id: &WidgetId)
    requires
        id@ is Some,
    ensures
        ancestor_spec(id@, id@),
{
    let p = id@->0;
    assert(p =~= p.subrange(0, p.len() as int));
}

/// A prefix never spans more blocks than the whole path.
proof fn lemma_prefix_blocks(p: Seq<usize>, q: Seq<usize>)
    ensures
        p.is_prefix_of(q) ==> path_blocks(p) <= path_blocks(q),
{
    if p.is_prefix_of(q) {
        lemma_path_blocks_take_rest(q, p.len() as int);
    }
}

/// A strict prefix spans strictly fewer blocks.
proof fn lemma_strict_prefix_blocks(p: Seq<usize>, q: Seq<usize>)
    requires
        p.is_prefix_of(q),
        p.len() < q.len(),
    ensures
        path_blocks(p) < path_blocks(q),
{
    let l = p.len() as int;
    lemma_path_blocks_take_rest(q, l);
    lemma_path_blocks_len(q.skip(l));
    lemma_digits8_bounds(q.skip(l)[0] as nat);
    assert(path_blocks(q.skip(l)) == blocks_of(q.skip(l)[0] as nat) + path_blocks(
        q.skip(l).drop_first(),
    ));
}

/// If the front of `q` is taken as a path of its own, the word still carries
/// both halves where they were.
proof fn lemma_prefix_path_at(y: u64, q: Seq<usize>, l: int)
    requires
        path_at(y, 0, q),
        0 <= l <= q.len(),
    ensures
        path_at(y, 0, q.take(l)),
        path_at(y, path_blocks(q.take(l)) as int, q.skip(l)),
{
    assert(q.take(l) + q.skip(l) =~= q);
    lemma_path_at_concat(y, 0, q.take(l), q.skip(l));
}

/// One raw word is the canonical packing of at most one path: recovering an
/// inline identifier from its raw integer loses nothing.
pub proof fn lemma_packed_path_unique(x: u64, p: Seq<usize>, q: Seq<usize>)
    requires
        packed_wf(x, p),
        packed_wf(x, q),
    ensures
        p == q,
{
    lemma_stream_unique(x, 0, p, q);
}

/// One path has at most one canonical packing: two inline identifiers with
/// the same path carry bit-identical words, however they were built.
pub proof fn lemma_packed_word_unique(x: u64, y: u64, p: Seq<usize>)
    requires
        packed_wf(x, p),
        packed_wf(y, p),
    ensures
        x == y,
{
    lemma_same_path_same_blocks(x, y, 0, p);
    assert forall|m: int| 0 <= m < 16 implies nib(x, m) == nib(y, m) by {
        if m >= 2 {
            let j = 15 - m;
            if j < path_blocks(p) {
                assert(block_at(x, j) == block_at(y, j));
            } else {
                assert(block_at(x, j) == 0 && block_at(y, j) == 0);
            }
        }
    }
    lemma_nib_ext(x, y);
}

} // verus!
