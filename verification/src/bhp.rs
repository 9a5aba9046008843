//! The Bowe-Hopwood Pedersen collision-resistant hash: a keyed, windowed
//! hash over the curve group, processing its input in 3-bit chunks
//! against per-window tables of precomputed points.

use vstd::prelude::*;

use blake2::Blake2s256;
use blake2::Digest;

use crate::field::{in_field, Fp, P};
use crate::group::{
    edwards_add, edwards_neg, edwards_scalar_mul, on_curve, pt, GroupElement, BASE_POINT_X,
    BASE_POINT_Y,
};

verus! {

/// The number of input bits consumed per table lookup.
pub const BOWE_HOPWOOD_CHUNK_SIZE: usize = 3;

/// The number of precomputed points per window generator.
pub const BOWE_HOPWOOD_LOOKUP_SIZE: usize = 8;

/// The largest supported window size.
pub const MAX_WINDOW_SIZE: usize = 256;

/// The largest supported number of windows.
pub const MAX_NUM_WINDOWS: usize = 2048;

/// The hash's error surface.
#[derive(Clone, Debug, PartialEq, Eq, Structural)]
pub enum CRHError {
    /// The input held more bits than the configured windows can absorb:
    /// the actual bit count, the window size and the number of windows.
    IncorrectInputLength(usize, usize, usize),
}

/// The 32-byte digest that blake2 computes for a byte string; the result
/// depends on the input alone.
pub uninterp spec fn blake2s_of(input: Seq<u8>) -> Seq<u8>;

/// The UTF-8 encoding of a string; the result depends on the characters
/// alone.
pub uninterp spec fn utf8_bytes(s: Seq<char>) -> Seq<u8>;

/// Relies on blake2::Blake2s256 through the Digest interface: a 32-byte
/// digest determined by the input bytes alone.
#[verifier::external_body]
fn blake2s_digest(input: &Vec<u8>) -> (r: Vec<u8>)
    ensures
        r@ == blake2s_of(input@),
        r@.len() == 32,
{
    let mut hasher = Blake2s256::new();
    hasher.update(input.as_slice());
    hasher.finalize().to_vec()
}

/// Relies on str::as_bytes: the UTF-8 bytes of the string.
#[verifier::external_body]
fn str_bytes(s: &str) -> (r: Vec<u8>)
    ensures
        r@ == utf8_bytes(s@),
{
    s.as_bytes().to_vec()
}

/// The decimal digits of a number, as ASCII bytes.
pub open spec fn decimal_bytes(n: nat) -> Seq<u8>
    decreases n,
{
    if n < 10 {
        seq![(48 + n) as u8]
    } else {
        decimal_bytes(n / 10).push((48 + n % 10) as u8)
    }
}

/// The value of a little-endian byte string.
pub open spec fn le_value(bytes: Seq<u8>) -> int
    decreases bytes.len(),
{
    if bytes.len() == 0 {
        0
    } else {
        bytes[0] + 256 * le_value(bytes.drop_first())
    }
}

/// The bytes of the indexed seed string `"{message} at {index}"`.
pub open spec fn indexed_message_bytes(message: Seq<char>, index: nat) -> Seq<u8> {
    utf8_bytes(message) + seq![32u8, 97u8, 116u8, 32u8] + decimal_bytes(index)
}

/// The seed point of a window: the fixed base point multiplied by the
/// scalar drawn from the first eight digest bytes of the indexed
/// message.
pub open spec fn window_seed(message: Seq<char>, index: nat) -> (int, int) {
    edwards_scalar_mul(
        (BASE_POINT_X as int, BASE_POINT_Y as int),
        le_value(blake2s_of(indexed_message_bytes(message, index)).take(8)) as nat,
    )
}

/// Four successive doublings of a point.
pub open spec fn quadruple(g: (int, int)) -> (int, int) {
    edwards_add(
        edwards_add(edwards_add(edwards_add(g, g), edwards_add(g, g)), edwards_add(
            edwards_add(g, g),
            edwards_add(g, g),
        )),
        edwards_add(edwards_add(edwards_add(g, g), edwards_add(g, g)), edwards_add(
            edwards_add(g, g),
            edwards_add(g, g),
        )),
    )
}

/// `j` iterations of quadrupling, applied to the window seed.
pub open spec fn quad_iterate(g: (int, int), j: nat) -> (int, int)
    decreases j,
{
    if j == 0 {
        g
    } else {
        quadruple(quad_iterate(g, (j - 1) as nat))
    }
}

/// The generator key material derived from a seed message: window `i`
/// holds `window_size` generators, each four doublings beyond the last,
/// starting from that window's seed point.
pub open spec fn generators_match(
    bases: Seq<Seq<GroupElement>>,
    message: Seq<char>,
    num_windows: nat,
    window_size: nat,
) -> bool {
    &&& bases.len() == num_windows
    &&& forall|w: int| 0 <= w < num_windows ==> (#[trigger] bases[w]).len() == window_size
    &&& forall|w: int, j: int|
        0 <= w < num_windows && 0 <= j < window_size ==> pt(#[trigger] bases[w][j])
            == quad_iterate(window_seed(message, w as nat), j as nat)
}

/// The entry of a window generator's 8-point table for the 3-bit value
/// `i == b0 + 2*b1 + 4*b2`: starting from the generator, `b0` adds it
/// again, `b1` adds its double, and `b2` negates the result.
pub open spec fn lookup_entry(g: (int, int), i: int) -> (int, int) {
    let s0 = if i % 2 == 1 {
        edwards_add(g, g)
    } else {
        g
    };
    let s1 = if (i / 2) % 2 == 1 {
        edwards_add(s0, edwards_add(g, g))
    } else {
        s0
    };
    if (i / 4) % 2 == 1 {
        edwards_neg(s1)
    } else {
        s1
    }
}

/// Whether `table` is the lookup table derived from `bases`: one 8-point
/// row per window generator, each row holding the `lookup_entry` points,
/// all on the curve.
pub open spec fn table_matches(
    bases: Seq<Seq<GroupElement>>,
    table: Seq<Seq<Seq<GroupElement>>>,
) -> bool {
    &&& table.len() == bases.len()
    &&& forall|w: int| 0 <= w < bases.len() ==> (#[trigger] table[w]).len() == bases[w].len()
    &&& forall|w: int, c: int|
        0 <= w < bases.len() && 0 <= c < bases[w].len() ==> (#[trigger] table[w][c]).len() == 8
    &&& forall|w: int, c: int, i: int|
        0 <= w < bases.len() && 0 <= c < bases[w].len() && 0 <= i < 8 ==> pt(
            #[trigger] table[w][c][i],
        ) == lookup_entry(pt(bases[w][c]), i)
}

/// The input bits padded with zeros to the configured length.
pub open spec fn padded_bits(bits: Seq<bool>, len: nat) -> Seq<bool> {
    Seq::new(len, |i: int| i < bits.len() && bits[i])
}

/// The 3-bit value of the chunk starting at `off`.
pub open spec fn chunk_val(bits: Seq<bool>, off: int) -> int {
    (if bits[off] {
        1int
    } else {
        0int
    }) + (if bits[off + 1] {
        2int
    } else {
        0int
    }) + (if bits[off + 2] {
        4int
    } else {
        0int
    })
}

/// The left fold of the first `k` chunk points of segment `seg`: chunk
/// `c` of segment `seg` covers bits `[seg*3*wsize + 3*c, ..+3)` and
/// selects the table entry of window generator `c`.
pub open spec fn window_fold(
    gens: Seq<GroupElement>,
    bits: Seq<bool>,
    seg: int,
    wsize: int,
    k: nat,
) -> (int, int)
    decreases k,
{
    if k == 0 {
        (0, 1)
    } else {
        edwards_add(
            window_fold(gens, bits, seg, wsize, (k - 1) as nat),
            lookup_entry(pt(gens[k - 1]), chunk_val(bits, seg * 3 * wsize + 3 * (k - 1))),
        )
    }
}

/// The number of chunks that segment `seg` contributes: a full window,
/// except for the final segment which may be shorter.
pub open spec fn segment_chunks(bit_len: int, wsize: int, seg: int) -> nat {
    if bit_len - seg * 3 * wsize >= 3 * wsize {
        wsize as nat
    } else {
        ((bit_len - seg * 3 * wsize) / 3) as nat
    }
}

/// The left fold of the first `s` per-segment sums.
pub open spec fn segments_fold(
    bases: Seq<Seq<GroupElement>>,
    bits: Seq<bool>,
    wsize: int,
    bit_len: int,
    s: nat,
) -> (int, int)
    decreases s,
{
    if s == 0 {
        (0, 1)
    } else {
        edwards_add(
            segments_fold(bases, bits, wsize, bit_len, (s - 1) as nat),
            window_fold(
                bases[s - 1],
                bits,
                s - 1,
                wsize,
                segment_chunks(bit_len, wsize, s - 1),
            ),
        )
    }
}

/// The bit capacity of the configuration, rounded up to whole chunks.
pub open spec fn padded_bit_length(window_size: int, num_windows: int) -> int {
    let raw = window_size * num_windows;
    if raw % 3 == 0 {
        raw
    } else {
        raw + 3 - raw % 3
    }
}

/// The number of segments the padded buffer splits into.
pub open spec fn segment_count(window_size: int, num_windows: int) -> int {
    let bit_len = padded_bit_length(window_size, num_windows);
    (bit_len + 3 * window_size - 1) / (3 * window_size)
}

/// The curve point that the hash accumulates for an input, over the
/// hash's key material.
pub open spec fn hash_point(
    bases: Seq<Seq<GroupElement>>,
    window_size: int,
    num_windows: int,
    bits: Seq<bool>,
) -> (int, int) {
    let bit_len = padded_bit_length(window_size, num_windows);
    segments_fold(
        bases,
        padded_bits(bits, bit_len as nat),
        window_size,
        bit_len,
        segment_count(window_size, num_windows) as nat,
    )
}

/// The configured range bound of a single Pedersen segment after `c`
/// chunks: `2 * 16^c`.
pub open spec fn segment_range(c: nat) -> int
    decreases c,
{
    if c == 0 {
        2
    } else {
        16 * segment_range((c - 1) as nat)
    }
}

/// Whether a window size keeps every segment scalar below `(P - 1) / 2`,
/// the soundness bound of the Pedersen combination.
pub open spec fn window_size_is_sound(window_size: int) -> bool {
    &&& window_size >= 1
    &&& segment_range((window_size - 1) as nat) < ((P - 1) / 2) as int
}

/// The largest number of 3-bit chunks a segment may hold while its
/// scalar stays below `(P - 1) / 2`.
pub fn calculate_num_chunks_in_segment() -> (r: usize)
    ensures
        r >= 1,
        window_size_is_sound(r as int),
        !window_size_is_sound(r as int + 1),
{
    let upper_limit: u64 = (P - 1) / 2;
    let mut c: usize = 0;
    let mut range: u64 = 2;
    while range < upper_limit
        invariant
            range as int == segment_range(c as nat),
            2 <= range,
            c <= 8,
            forall|k: nat| k < c ==> #[trigger] segment_range(k) < upper_limit as int,
            upper_limit == (P - 1) / 2,
        decreases 8 - c,
    {
        proof {
            lemma_segment_range_eight();
            if c >= 8 {
                lemma_segment_range_monotonic(8, c as nat);
            }
        }
        range = range * 16;
        c = c + 1;
    }
    proof {
        assert(segment_range(0) == 2);
        assert(c >= 1) by {
            if c == 0 {
                assert(range == 2);
            }
        }
    }
    c
}


/// `256^k`, the number of values of a `k`-byte string.
pub open spec fn byte_bound(k: nat) -> int
    decreases k,
{
    if k == 0 {
        1
    } else {
        256 * byte_bound((k - 1) as nat)
    }
}

/// A little-endian byte value is bounded by `256^len`.
proof fn lemma_le_value_bound(s: Seq<u8>)
    ensures
        0 <= le_value(s) < byte_bound(s.len()),
    decreases s.len(),
{
    if s.len() > 0 {
        lemma_le_value_bound(s.drop_first());
        let rest = le_value(s.drop_first());
        let b = byte_bound((s.len() - 1) as nat);
        assert(256 * rest <= 256 * (b - 1)) by (nonlinear_arith)
            requires
                rest <= b - 1,
        ;
    }
}

/// The first eight bytes of a digest, read as a little-endian integer.
fn le_u64_from(bytes: &Vec<u8>) -> (r: u64)
    requires
        bytes@.len() >= 8,
    ensures
        r as int == le_value(bytes@.take(8)),
{
    let mut acc: u64 = 0;
    let mut k: usize = 8;
    proof {
        assert(bytes@.take(8).skip(8) =~= Seq::<u8>::empty());
    }
    while k > 0
        invariant
            k <= 8,
            bytes@.len() >= 8,
            acc as int == le_value(bytes@.take(8).skip(k as int)),
            (acc as int) < byte_bound((8 - k) as nat),
        decreases k,
    {
        proof {
            let tail = bytes@.take(8).skip(k as int - 1);
            assert(tail.drop_first() =~= bytes@.take(8).skip(k as int));
            assert(tail[0] == bytes@[k as int - 1]);
            lemma_le_value_bound(tail);
            assert(byte_bound((8 - (k - 1)) as nat) == 256 * byte_bound((8 - k) as nat));
            assert(256 * (acc as int) <= 256 * (byte_bound((8 - k) as nat) - 1)) by (
            nonlinear_arith)
                requires
                    acc as int <= byte_bound((8 - k) as nat) - 1,
            ;
            assert(byte_bound(8nat) == 0x10000000000000000) by {
                assert(byte_bound(0) == 1);
                assert(byte_bound(1) == 0x100);
                assert(byte_bound(2) == 0x10000);
                assert(byte_bound(3) == 0x1000000);
                assert(byte_bound(4) == 0x100000000);
                assert(byte_bound(5) == 0x10000000000);
                assert(byte_bound(6) == 0x1000000000000);
                assert(byte_bound(7) == 0x100000000000000);
            }
            lemma_byte_bound_monotonic((8 - k + 1) as nat, 8);
        }
        acc = acc * 256 + (bytes[k - 1] as u64);
        k = k - 1;
    }
    proof {
        assert(bytes@.take(8).skip(0) =~= bytes@.take(8));
    }
    acc
}

/// Byte bounds grow with the length.
proof fn lemma_byte_bound_monotonic(j: nat, k: nat)
    requires
        j <= k,
    ensures
        byte_bound(j) <= byte_bound(k),
        byte_bound(j) >= 1,
    decreases k,
{
    if j == k {
        if j > 0 {
            lemma_byte_bound_monotonic((j - 1) as nat, (k - 1) as nat);
        }
    } else {
        lemma_byte_bound_monotonic(j, (k - 1) as nat);
    }
}

/// The decimal digits of a number, as ASCII bytes.
fn decimal_vec(n: u64) -> (r: Vec<u8>)
    ensures
        r@ == decimal_bytes(n as nat),
    decreases n,
{
    if n < 10 {
        let mut r: Vec<u8> = Vec::new();
        r.push(48 + n as u8);
        proof {
            assert(r@ =~= decimal_bytes(n as nat));
        }
        r
    } else {
        let mut r = decimal_vec(n / 10);
        r.push(48 + (n % 10) as u8);
        r
    }
}

/// The bytes of the indexed seed string `"{message} at {index}"`.
fn indexed_message(message: &str, index: u64) -> (r: Vec<u8>)
    ensures
        r@ == indexed_message_bytes(message@, index as nat),
{
    let mut r = str_bytes(message);
    r.push(32);
    r.push(97);
    r.push(116);
    r.push(32);
    let mut digits = decimal_vec(index);
    r.append(&mut digits);
    proof {
        assert(r@ =~= indexed_message_bytes(message@, index as nat));
    }
    r
}

#[verifier::external_type_specification]
#[verifier::external_body]
#[verifier::reject_recursive_types(T)]
pub struct ExOnceCell<T>(once_cell::sync::OnceCell<T>);

/// Relies on once_cell's OnceCell::new: creates an empty cell.
#[verifier::external_body]
fn new_cell() -> once_cell::sync::OnceCell<Vec<Vec<Vec<GroupElement>>>> {
    once_cell::sync::OnceCell::new()
}

/// The Bowe-Hopwood Pedersen hash, keyed by its window generators.
pub struct BHPCRH {
    /// The key material: one sequence of window generators per window.
    bases: Vec<Vec<GroupElement>>,
    /// The number of windows.
    num_windows: usize,
    /// The number of generators, and so of 3-bit chunks, per window.
    window_size: usize,
    /// The memoized per-window lookup tables, derived from `bases` on
    /// first use and never mutated afterwards.
    base_lookup: once_cell::sync::OnceCell<Vec<Vec<Vec<GroupElement>>>>,
}

impl BHPCRH {
    /// The configured number of windows.
    pub closed spec fn spec_num_windows(self) -> int {
        self.num_windows as int
    }

    /// The configured window size.
    pub closed spec fn spec_window_size(self) -> int {
        self.window_size as int
    }

    /// The well-formedness of an instance: the key material has the
    /// configured shape, within the supported limits, and every
    /// generator lies on the curve.
    pub closed spec fn wf(self) -> bool {
        &&& self.bases@.len() == self.num_windows
        &&& forall|w: int|
            0 <= w < self.num_windows ==> (#[trigger] self.bases@[w])@.len() == self.window_size
        &&& forall|w: int, j: int|
            0 <= w < self.num_windows && 0 <= j < self.window_size ==> (#[trigger] self.bases@[
                w
            ]@[j]).wf()
        &&& 1 <= self.num_windows <= MAX_NUM_WINDOWS
        &&& 1 <= self.window_size <= MAX_WINDOW_SIZE
    }

    /// The sequence of window-generator sequences, as a mathematical
    /// value.
    pub closed spec fn bases_view(self) -> Seq<Seq<GroupElement>> {
        Seq::new(self.bases@.len(), |w: int| self.bases@[w]@)
    }

    /// Derives the window generators for a seed message: for each window
    /// index, the indexed message is hashed to a seed point, and the
    /// window's generators follow by four doublings each.
    pub fn create_generators(message: &str, num_windows: usize, window_size: usize) -> (r: Vec<
        Vec<GroupElement>,
    >)
        requires
            num_windows <= MAX_NUM_WINDOWS,
        ensures
            r@.len() == num_windows,
            forall|w: int| 0 <= w < num_windows ==> (#[trigger] r@[w])@.len() == window_size,
            forall|w: int, j: int|
                0 <= w < num_windows && 0 <= j < window_size ==> pt(#[trigger] r@[w]@[j])
                    == quad_iterate(window_seed(message@, w as nat), j as nat) && r@[w]@[j].wf(),
    {
        let mut generators: Vec<Vec<GroupElement>> = Vec::new();
        let mut index: usize = 0;
        while index < num_windows
            invariant
                index <= num_windows,
                num_windows <= MAX_NUM_WINDOWS,
                generators@.len() == index,
                forall|w: int| 0 <= w < index ==> (#[trigger] generators@[w])@.len() == window_size,
                forall|w: int, j: int|
                    0 <= w < index && 0 <= j < window_size ==> pt(#[trigger] generators@[w]@[j])
                        == quad_iterate(window_seed(message@, w as nat), j as nat)
                        && generators@[w]@[j].wf(),
            decreases num_windows - index,
        {
            let seed_bytes = indexed_message(message, index as u64);
            let digest = blake2s_digest(&seed_bytes);
            let scalar = le_u64_from(&digest);
            let mut base = GroupElement::base_point().scalar_mul(scalar);
            proof {
                assert(digest@.take(8) == blake2s_of(seed_bytes@).take(8));
            }
            let mut generators_for_segment: Vec<GroupElement> = Vec::new();
            let mut j: usize = 0;
            while j < window_size
                invariant
                    j <= window_size,
                    generators_for_segment@.len() == j,
                    base.wf(),
                    pt(base) == quad_iterate(window_seed(message@, index as nat), j as nat),
                    forall|q: int|
                        0 <= q < j ==> pt(#[trigger] generators_for_segment@[q]) == quad_iterate(
                            window_seed(message@, index as nat),
                            q as nat,
                        ) && generators_for_segment@[q].wf(),
                decreases window_size - j,
            {
                generators_for_segment.push(base);
                base = base.double().double().double().double();
                j = j + 1;
            }
            generators.push(generators_for_segment);
            index = index + 1;
        }
        generators
    }

    /// Configures the hash for a seed message: the generators are
    /// derived deterministically from the message, so equal messages
    /// give equal key material.
    pub fn setup(message: &str, num_windows: usize, window_size: usize) -> (r: BHPCRH)
        requires
            1 <= num_windows <= MAX_NUM_WINDOWS,
            1 <= window_size <= MAX_WINDOW_SIZE,
            window_size_is_sound(window_size as int),
        ensures
            r.wf(),
            r.spec_num_windows() == num_windows,
            r.spec_window_size() == window_size,
            generators_match(r.bases_view(), message@, num_windows as nat, window_size as nat),
    {
        let bases = Self::create_generators(message, num_windows, window_size);
        let r = BHPCRH { bases, num_windows, window_size, base_lookup: new_cell() };
        proof {
            assert(generators_match(
                r.bases_view(),
                message@,
                num_windows as nat,
                window_size as nat,
            ));
        }
        r
    }

    /// The raw key material, for serialization or for embedding in a
    /// larger parameter set.
    pub fn parameters(&self) -> (r: &Vec<Vec<GroupElement>>)
        ensures
            r@.len() == self.bases_view().len(),
            forall|w: int| 0 <= w < r@.len() ==> (#[trigger] r@[w])@ == self.bases_view()[w],
    {
        &self.bases
    }

    /// Computes the full lookup table from the key material.
    fn compute_base_lookup(&self) -> (r: Vec<Vec<Vec<GroupElement>>>)
        requires
            self.wf(),
        ensures
            table_matches(self.bases_view(), table_view(r@)),
            r@.len() == self.bases_view().len(),
    {
        let mut table: Vec<Vec<Vec<GroupElement>>> = Vec::new();
        let mut w: usize = 0;
        while w < self.bases.len()
            invariant
                self.wf(),
                w <= self.bases@.len(),
                table@.len() == w,
                forall|q: int| 0 <= q < w ==> (#[trigger] table@[q])@.len() == self.bases@[q]@.len(),
                forall|q: int, c: int|
                    0 <= q < w && 0 <= c < self.bases@[q]@.len() ==> (#[trigger] table@[q]@[c])@.len() == 8,
                forall|q: int, c: int, i: int|
                    0 <= q < w && 0 <= c < self.bases@[q]@.len() && 0 <= i < 8 ==> pt(
                        #[trigger] table@[q]@[c]@[i],
                    ) == lookup_entry(pt(self.bases@[q]@[c]), i),
            decreases self.bases@.len() - w,
        {
            let row = self.compute_window_lookup(w);
            table.push(row);
            w = w + 1;
        }
        table
    }

    /// Computes the 8-point tables of one window.
    fn compute_window_lookup(&self, w: usize) -> (r: Vec<Vec<GroupElement>>)
        requires
            self.wf(),
            w < self.bases@.len(),
        ensures
            r@.len() == self.bases@[w as int]@.len(),
            forall|c: int| 0 <= c < r@.len() ==> (#[trigger] r@[c])@.len() == 8,
            forall|c: int, i: int|
                0 <= c < r@.len() && 0 <= i < 8 ==> pt(#[trigger] r@[c]@[i]) == lookup_entry(
                    pt(self.bases@[w as int]@[c]),
                    i,
                ),
    {
        let window = &self.bases[w];
        let mut row: Vec<Vec<GroupElement>> = Vec::new();
        let mut c: usize = 0;
        while c < window.len()
            invariant
                self.wf(),
                w < self.bases@.len(),
                window@ == self.bases@[w as int]@,
                c <= window@.len(),
                row@.len() == c,
                forall|q: int| 0 <= q < c ==> (#[trigger] row@[q])@.len() == 8,
                forall|q: int, i: int|
                    0 <= q < c && 0 <= i < 8 ==> pt(#[trigger] row@[q]@[i]) == lookup_entry(
                        pt(window@[q]),
                        i,
                    ),
            decreases window@.len() - c,
        {
            let g = window[c];
            proof {
                assert(g.wf());
            }
            let dbl = g.double();
            let mut entries: Vec<GroupElement> = Vec::new();
            let mut i: usize = 0;
            while i < 8
                invariant
                    i <= 8,
                    entries@.len() == i,
                    g.wf(),
                    pt(dbl) == edwards_add(pt(g), pt(g)),
                    forall|q: int|
                        0 <= q < i ==> pt(#[trigger] entries@[q]) == lookup_entry(pt(g), q),
                decreases 8 - i,
            {
                let mut encoded = g;
                if i % 2 == 1 {
                    encoded = encoded.add(g);
                }
                if (i / 2) % 2 == 1 {
                    encoded = encoded.add(dbl);
                }
                if (i / 4) % 2 == 1 {
                    encoded = encoded.neg();
                }
                entries.push(encoded);
                i = i + 1;
            }
            row.push(entries);
            c = c + 1;
        }
        row
    }

    /// The memoized lookup table. Relies on once_cell's
    /// OnceCell::get_or_init: every call returns the one stored value;
    /// the private cell is only ever initialized here, with the table
    /// computed by `compute_base_lookup`, whose contract pins it.
    #[verifier::external_body]
    pub fn base_lookup(&self) -> (r: &Vec<Vec<Vec<GroupElement>>>)
        requires
            self.wf(),
        ensures
            table_matches(self.bases_view(), table_view(r@)),
            r@.len() == self.bases_view().len(),
    {
        self.base_lookup.get_or_init(|| self.compute_base_lookup())
    }
}

/// The mathematical value of a lookup table.
pub open spec fn table_view(t: Seq<Vec<Vec<GroupElement>>>) -> Seq<Seq<Seq<GroupElement>>> {
    Seq::new(t.len(), |q: int| Seq::new(t[q]@.len(), |c: int| t[q]@[c]@))
}

impl BHPCRH {
    /// Accumulates the hash point of an input bit string: the buffer is
    /// zero-padded to the configured chunk capacity, split into
    /// window-sized segments of 3-bit chunks, and each chunk selects one
    /// precomputed point; the chunk points of a segment and then the
    /// segment sums are added left to right.
    #[verifier::loop_isolation(false)]
    #[verifier::rlimit(100)]
    pub fn hash_bits_inner(&self, input: &Vec<bool>) -> (r: Result<GroupElement, CRHError>)
        requires
            self.wf(),
        ensures
            r is Err <==> input@.len() > self.spec_window_size() * self.spec_num_windows(),
            r is Err ==> r == Err::<GroupElement, CRHError>(
                CRHError::IncorrectInputLength(
                    input@.len() as usize,
                    self.spec_window_size() as usize,
                    self.spec_num_windows() as usize,
                ),
            ),
            r matches Ok(g) ==> pt(g) == hash_point(
                self.bases_view(),
                self.spec_window_size(),
                self.spec_num_windows(),
                input@,
            ) && g.wf(),
    {
        let w = self.window_size;
        let n = self.num_windows;
        proof {
            assert(w * n <= 524288) by (nonlinear_arith)
                requires
                    w <= 256,
                    n <= 2048,
            ;
            assert(1 * 1 <= w * n) by (nonlinear_arith)
                requires
                    1 <= w,
                    1 <= n,
            ;
        }
        if input.len() > w * n {
            return Err(CRHError::IncorrectInputLength(input.len(), w, n));
        }
        let raw = w * n;
        let bit_len = if raw % 3 == 0 {
            raw
        } else {
            raw + (3 - raw % 3)
        };
        proof {
            assert(bit_len == padded_bit_length(w as int, n as int));
        }
        let mut buf: Vec<bool> = Vec::new();
        let mut i: usize = 0;
        while i < bit_len
            invariant
                i <= bit_len,
                buf@.len() == i,
                forall|q: int|
                    0 <= q < i ==> #[trigger] buf@[q] == (q < input@.len() && input@[q]),
            decreases bit_len - i,
        {
            buf.push(if i < input.len() {
                input[i]
            } else {
                false
            });
            i = i + 1;
        }
        proof {
            assert(buf@ =~= padded_bits(input@, bit_len as nat));
        }
        let table = self.base_lookup();
        let ghost bits = buf@;
        let ghost tview = Seq::new(
            table@.len(),
            |q: int| Seq::new(table@[q]@.len(), |c: int| table@[q]@[c]@),
        );
        let seg_bits = 3 * w;
        let segs = (bit_len + seg_bits - 1) / seg_bits;
        proof {
            assert(segs == segment_count(w as int, n as int));
            // every segment start lies within the number of windows
            assert(bit_len <= 3 * (w * n)) by (nonlinear_arith)
                requires
                    bit_len <= w * n + 2,
                    1 <= w * n,
            ;
            lemma_segment_count_bound(bit_len as int, w as int, n as int);
        }
        let mut total = GroupElement::zero();
        let mut s: usize = 0;
        while s < segs
            invariant
                s <= segs,
                pt(total) == segments_fold(
                    self.bases_view(),
                    bits,
                    w as int,
                    bit_len as int,
                    s as nat,
                ),
                total.wf(),
            decreases segs - s,
        {
            proof {
                assert((s as int) * (seg_bits as int) <= 2048 * 768) by (nonlinear_arith)
                    requires
                        0 <= s <= 2048,
                        0 <= seg_bits <= 768,
                ;
            }
            let start = s * seg_bits;
            proof {
                vstd::arithmetic::div_mod::lemma_fundamental_div_mod(bit_len as int + seg_bits
                    - 1, seg_bits as int);
                assert((s as int) * (3 * (w as int)) == (s as int) * 3 * (w as int)) by (
                nonlinear_arith);
                assert(start < bit_len) by {
                    assert((segs as int - 1) * seg_bits <= bit_len - 1) by (nonlinear_arith)
                        requires
                            seg_bits as int * (segs as int) <= bit_len + seg_bits - 1,
                            seg_bits >= 3,
                    ;
                    assert((s as int) * seg_bits <= (segs as int - 1) * seg_bits) by (
                    nonlinear_arith)
                        requires
                            s < segs,
                            seg_bits >= 1,
                    ;
                }
            }
            let remaining = bit_len - start;
            let chunks_here = if remaining >= seg_bits {
                w
            } else {
                remaining / 3
            };
            proof {
                assert(chunks_here == segment_chunks(bit_len as int, w as int, s as int));
                assert(chunks_here <= w) by {
                    if remaining < seg_bits {
                        assert(remaining / 3 <= w) by (nonlinear_arith)
                            requires
                                remaining < 3 * w,
                                remaining >= 0,
                        ;
                    }
                }
                assert(3 * chunks_here <= remaining) by {
                    if remaining < seg_bits {
                        vstd::arithmetic::div_mod::lemma_fundamental_div_mod(
                            remaining as int,
                            3,
                        );
                    } else {
                        assert(3 * (w as int) <= remaining);
                    }
                }
            }
            let acc = self.hash_segment(table, &buf, s, start, chunks_here);
            total = total.add(acc);
            s = s + 1;
        }
        Ok(total)
    }

    /// The sum of one segment's chunk points, left to right: chunk `c`
    /// reads the three bits at `start + 3*c` and selects the entry of
    /// the `c`-th window generator's table.
    #[verifier::loop_isolation(false)]
    #[verifier::rlimit(60)]
    fn hash_segment(
        &self,
        table: &Vec<Vec<Vec<GroupElement>>>,
        buf: &Vec<bool>,
        s: usize,
        start: usize,
        chunks_here: usize,
    ) -> (r: GroupElement)
        requires
            self.wf(),
            table_matches(self.bases_view(), table_view(table@)),
            s < self.spec_num_windows(),
            chunks_here <= self.spec_window_size(),
            start == s * 3 * self.spec_window_size(),
            start + 3 * chunks_here <= buf@.len(),
        ensures
            pt(r) == window_fold(
                self.bases_view()[s as int],
                buf@,
                s as int,
                self.spec_window_size(),
                chunks_here as nat,
            ),
            r.wf(),
    {
        let buf_len = buf.len();
        let mut acc = GroupElement::zero();
        let mut c: usize = 0;
        while c < chunks_here
            invariant
                c <= chunks_here,
                pt(acc) == window_fold(
                    self.bases_view()[s as int],
                    buf@,
                    s as int,
                    self.spec_window_size(),
                    c as nat,
                ),
                acc.wf(),
            decreases chunks_here - c,
        {
            proof {
                assert(3 * (c as int) + 3 <= 3 * (chunks_here as int)) by (nonlinear_arith)
                    requires
                        c < chunks_here,
                ;
                assert(chunks_here <= 256);
                assert(start + 3 * (chunks_here as int) <= buf@.len());
                assert(start + 3 * (c as int) + 2 < buf@.len());
            }
            let off = start + 3 * c;
            let idx: usize = (if buf[off] {
                1
            } else {
                0
            }) + (if buf[off + 1] {
                2
            } else {
                0
            }) + (if buf[off + 2] {
                4
            } else {
                0
            });
            proof {
                let tv = table_view(table@);
                assert(tv.len() == table@.len());
                assert(tv[s as int].len() == table@[s as int]@.len());
                assert(self.bases_view()[s as int].len() == self.spec_window_size());
                assert(table@[s as int]@.len() == self.spec_window_size());
                assert(tv[s as int][c as int].len() == table@[s as int]@[c as int]@.len());
                assert(table@[s as int]@[c as int]@.len() == 8);
            }
            let entry = table[s][c][idx];
            proof {
                assert(table_view(table@)[s as int][c as int][idx as int] == entry);
                assert(pt(entry) == lookup_entry(
                    pt(self.bases_view()[s as int][c as int]),
                    idx as int,
                ));
                assert(idx as int == chunk_val(buf@, off as int));
                assert(entry.wf()) by {
                    crate::field::lemma_fp_in_field(entry.x);
                    crate::field::lemma_fp_in_field(entry.y);
                    lemma_lookup_entry_on_curve(
                        pt(self.bases_view()[s as int][c as int]),
                        idx as int,
                        entry,
                    );
                }
            }
            acc = acc.add(entry);
            c = c + 1;
        }
        acc
    }

    /// Hashes a bit string to a field element: the x-coordinate of the
    /// accumulated curve point. An input longer than the chunk capacity
    /// `window_size * num_windows` is rejected, never truncated; in
    /// particular any input beyond `window_size * num_windows * 3` bits
    /// is rejected.
    pub fn hash_bits(&self, input: &Vec<bool>) -> (r: Result<Fp, CRHError>)
        requires
            self.wf(),
        ensures
            r is Err <==> input@.len() > self.spec_window_size() * self.spec_num_windows(),
            r is Err ==> r == Err::<Fp, CRHError>(
                CRHError::IncorrectInputLength(
                    input@.len() as usize,
                    self.spec_window_size() as usize,
                    self.spec_num_windows() as usize,
                ),
            ),
            r matches Ok(v) ==> v@ == hash_point(
                self.bases_view(),
                self.spec_window_size(),
                self.spec_num_windows(),
                input@,
            ).0,
            input@.len() > 3 * self.spec_window_size() * self.spec_num_windows() ==> r is Err,
    {
        proof {
            let a = self.spec_window_size();
            let b = self.spec_num_windows();
            assert(a * b <= 3 * (a * b)) by (nonlinear_arith)
                requires
                    a >= 1,
                    b >= 1,
            ;
            assert(3 * a * b == 3 * (a * b)) by (nonlinear_arith);
        }
        match self.hash_bits_inner(input) {
            Ok(g) => Ok(g.x),
            Err(e) => Err(e),
        }
    }
}

/// A bit of a byte, little-endian: bit `k` of `b`.
pub open spec fn byte_bit(b: int, k: int) -> bool {
    (b / crate::domain::two_pow(k as nat) as int) % 2 == 1
}

/// The little-endian bit string of a byte string.
pub open spec fn bytes_to_bits_le(s: Seq<u8>) -> Seq<bool> {
    Seq::new(s.len() * 8, |i: int| byte_bit(s[i / 8] as int, i % 8))
}

/// The four little-endian bytes of a machine word.
pub open spec fn u32_le(v: int) -> Seq<u8> {
    seq![
        (v % 256) as u8,
        ((v / 256) % 256) as u8,
        ((v / 0x10000) % 256) as u8,
        ((v / 0x1000000) % 256) as u8,
    ]
}

/// The canonical bytes of a point: its two coordinates, little-endian.
pub open spec fn point_bytes(g: GroupElement) -> Seq<u8> {
    u32_le(g.x@) + u32_le(g.y@)
}

/// The concatenated bytes of the first `k` points of a window.
#[verifier::opaque]
pub open spec fn points_bytes(ws: Seq<GroupElement>, k: nat) -> Seq<u8>
    decreases k,
{
    if k == 0 {
        Seq::empty()
    } else {
        points_bytes(ws, (k - 1) as nat) + point_bytes(ws[k - 1])
    }
}

/// The concatenated encodings of the first `k` windows: each window is
/// its point count followed by its points.
#[verifier::opaque]
pub open spec fn windows_bytes(bases: Seq<Seq<GroupElement>>, k: nat) -> Seq<u8>
    decreases k,
{
    if k == 0 {
        Seq::empty()
    } else {
        windows_bytes(bases, (k - 1) as nat) + u32_le(bases[k - 1].len() as int) + points_bytes(
            bases[k - 1],
            bases[k - 1].len(),
        )
    }
}

/// The canonical serialization of the key material: the window count,
/// then each window's point count and points, all little-endian.
#[verifier::opaque]
pub open spec fn serialized_bases(bases: Seq<Seq<GroupElement>>) -> Seq<u8> {
    u32_le(bases.len() as int) + windows_bytes(bases, bases.len())
}

/// Whether a vector of windows is acceptable key material: a supported
/// rectangular shape with every point on the curve.
pub open spec fn bases_valid(bases: Seq<Vec<GroupElement>>) -> bool {
    &&& 1 <= bases.len() <= MAX_NUM_WINDOWS
    &&& 1 <= bases[0]@.len() <= MAX_WINDOW_SIZE
    &&& forall|w: int| 0 <= w < bases.len() ==> (#[trigger] bases[w])@.len() == bases[0]@.len()
    &&& forall|w: int, j: int|
        0 <= w < bases.len() && 0 <= j < bases[w]@.len() ==> (#[trigger] bases[w]@[j]).wf()
}

/// Appends the little-endian bytes of a word.
fn push_u32_le(out: &mut Vec<u8>, v: u32)
    ensures
        final(out)@ == old(out)@ + u32_le(v as int),
{
    out.push((v % 256) as u8);
    out.push((v / 256 % 256) as u8);
    out.push((v / 0x10000 % 256) as u8);
    out.push((v / 0x1000000 % 256) as u8);
    proof {
        assert(final(out)@ =~= old(out)@ + u32_le(v as int));
    }
}

impl BHPCRH {
    /// Hashes a byte string: its bits, least-significant first within
    /// each byte, are hashed as a bit string.
    pub fn hash(&self, input: &Vec<u8>) -> (r: Result<Fp, CRHError>)
        requires
            self.wf(),
            input@.len() * 8 <= usize::MAX,
        ensures
            r is Err <==> input@.len() * 8 > self.spec_window_size() * self.spec_num_windows(),
            r matches Ok(v) ==> v@ == hash_point(
                self.bases_view(),
                self.spec_window_size(),
                self.spec_num_windows(),
                bytes_to_bits_le(input@),
            ).0,
    {
        let bits = bytes_to_bits(input);
        self.hash_bits(&bits)
    }

    /// The raw key material as its canonical little-endian bytes.
    pub fn to_bytes_le(&self) -> (r: Vec<u8>)
        requires
            self.wf(),
        ensures
            r@ == serialized_bases(self.bases_view()),
    {
        let mut out: Vec<u8> = Vec::new();
        push_u32_le(&mut out, self.bases.len() as u32);
        proof {
            reveal(windows_bytes);
            assert(out@ =~= u32_le(self.bases_view().len() as int) + windows_bytes(
                self.bases_view(),
                0,
            ));
        }
        let mut w: usize = 0;
        while w < self.bases.len()
            invariant
                self.wf(),
                w <= self.bases@.len(),
                out@ == u32_le(self.bases_view().len() as int) + windows_bytes(
                    self.bases_view(),
                    w as nat,
                ),
            decreases self.bases@.len() - w,
        {
            let row = &self.bases[w];
            push_u32_le(&mut out, row.len() as u32);
            proof {
                reveal(points_bytes);
                assert(out@ =~= u32_le(self.bases_view().len() as int) + windows_bytes(
                    self.bases_view(),
                    w as nat,
                ) + u32_le(row@.len() as int) + points_bytes(
                    self.bases_view()[w as int],
                    0,
                ));
            }
            let mut j: usize = 0;
            while j < row.len()
                invariant
                    self.wf(),
                    w < self.bases@.len(),
                    row@ == self.bases@[w as int]@,
                    j <= row@.len(),
                    out@ == u32_le(self.bases_view().len() as int) + windows_bytes(
                        self.bases_view(),
                        w as nat,
                    ) + u32_le(row@.len() as int) + points_bytes(self.bases_view()[w as int], j as nat),
                decreases row@.len() - j,
            {
                let g = row[j];
                push_u32_le(&mut out, g.x.to_u32());
                push_u32_le(&mut out, g.y.to_u32());
                proof {
                    reveal(points_bytes);
                    assert(out@ =~= u32_le(self.bases_view().len() as int) + windows_bytes(
                        self.bases_view(),
                        w as nat,
                    ) + u32_le(row@.len() as int) + points_bytes(
                        self.bases_view()[w as int],
                        (j + 1) as nat,
                    ));
                }
                j = j + 1;
            }
            w = w + 1;
            proof {
                reveal(windows_bytes);
                assert(out@ =~= u32_le(self.bases_view().len() as int) + windows_bytes(
                    self.bases_view(),
                    w as nat,
                ));
            }
        }
        proof {
            reveal(serialized_bases);
            assert(out@ =~= serialized_bases(self.bases_view()));
        }
        out
    }

    /// Builds an instance from supplied key material, deriving the
    /// window dimensions from its shape; rejected exactly when the shape
    /// is unsupported, ragged, or holds a point off the curve.
    pub fn from_bases(bases: Vec<Vec<GroupElement>>) -> (r: Option<BHPCRH>)
        ensures
            r is Some <==> bases_valid(bases@),
            r matches Some(c) ==> {
                &&& c.wf()
                &&& c.bases_view().len() == bases@.len()
                &&& (forall|w: int| 0 <= w < bases@.len() ==> c.bases_view()[w] == bases@[w]@)
                &&& c.spec_num_windows() == bases@.len()
                &&& c.spec_window_size() == bases@[0]@.len()
            },
    {
        let n = bases.len();
        if n < 1 || n > MAX_NUM_WINDOWS {
            return None;
        }
        let w = bases[0].len();
        if w < 1 || w > MAX_WINDOW_SIZE {
            return None;
        }
        let mut i: usize = 0;
        while i < n
            invariant
                i <= n,
                n == bases@.len(),
                w == bases@[0]@.len(),
                forall|q: int| 0 <= q < i ==> (#[trigger] bases@[q])@.len() == w,
                forall|q: int, j: int|
                    0 <= q < i && 0 <= j < bases@[q]@.len() ==> (#[trigger] bases@[q]@[j]).wf(),
            decreases n - i,
        {
            let row = &bases[i];
            if row.len() != w {
                return None;
            }
            let mut j: usize = 0;
            while j < row.len()
                invariant
                    j <= row@.len(),
                    i < bases@.len(),
                    row@ == bases@[i as int]@,
                    forall|q: int| 0 <= q < j ==> (#[trigger] row@[q]).wf(),
                decreases row@.len() - j,
            {
                if !row[j].on_curve_check() {
                    return None;
                }
                j = j + 1;
            }
            i = i + 1;
        }
        Some(BHPCRH { bases, num_windows: n, window_size: w, base_lookup: new_cell() })
    }

    /// Rebuilds an instance from its canonical bytes: accepted exactly
    /// when the parsed key material is acceptable and re-serializes to
    /// the input. Every accepted instance round-trips, and every byte
    /// string that some well-formed instance serializes to is accepted.
    #[verifier::rlimit(60)]
    pub fn from_bytes_le(bytes: &Vec<u8>) -> (r: Option<BHPCRH>)
        ensures
            r matches Some(c) ==> c.wf() && serialized_bases(c.bases_view()) == bytes@,
            (exists|c: BHPCRH| c.wf() && serialized_bases(c.bases_view()) == bytes@) ==> r
                is Some,
    {
        let ghost has = exists|c: BHPCRH| c.wf() && serialized_bases(c.bases_view()) == bytes@;
        let ghost c0 = choose|c: BHPCRH| c.wf() && serialized_bases(c.bases_view()) == bytes@;
        let ghost bw = c0.bases_view();
        proof {
            if has {
                assert(c0.wf() && serialized_bases(c0.bases_view()) == bytes@);
                assert(bw.len() == c0.num_windows);
                assert forall|q: int| 0 <= q < bw.len() implies (#[trigger] bw[q]).len()
                    == c0.window_size by {
                    assert(bw[q] == c0.bases@[q]@);
                }
                assert forall|q: int, jj: int|
                    0 <= q < bw.len() && 0 <= jj < bw[q].len() implies on_curve(
                    pt(#[trigger] bw[q][jj]).0,
                    pt(bw[q][jj]).1,
                ) by {
                    assert(bw[q][jj] == c0.bases@[q]@[jj]);
                    assert(c0.bases@[q]@[jj].wf());
                }
                lemma_u32_le_value(bw.len() as int);
            }
        }
        let mut pos: usize = 0;
        proof {
            if has {
                reveal(serialized_bases);
                assert(bytes@.len() >= 4) by {
                    reveal(serialized_bases);
                    assert(bytes@ == u32_le(bw.len() as int) + windows_bytes(bw, bw.len()));
                }
                assert forall|i: int| 0 <= i < 4 implies bytes@[i] == u32_le(
                    bw.len() as int,
                )[i] by {
                    reveal(serialized_bases);
                    assert(bytes@ == u32_le(bw.len() as int) + windows_bytes(bw, bw.len()));
                }
            }
        }
        let n = match read_u32_le(bytes, &mut pos) {
            Some(v) => v,
            None => {
                proof {
                    if has {
                        assert(false);
                    }
                }
                return None;
            },
        };
        proof {
            if has {
                assert(n as int == bw.len());
            }
        }
        if n < 1 || n > MAX_NUM_WINDOWS as u32 {
            proof {
                if has {
                    assert(1 <= c0.num_windows <= MAX_NUM_WINDOWS);
                    assert(false);
                }
            }
            return None;
        }
        let bases = match parse_windows(bytes, &mut pos, n as usize, Ghost(has), Ghost(bw)) {
            Some(b) => b,
            None => {
                proof {
                    if has {
                        assert(false);
                    }
                }
                return None;
            },
        };
        proof {
            if has {
                assert(bases_valid(bases@)) by {
                    assert(bases@.len() == bw.len());
                    assert(bases@[0]@.len() == bw[0].len());
                    assert(1 <= c0.window_size <= MAX_WINDOW_SIZE);
                    assert forall|q: int, jj: int|
                        0 <= q < bases@.len() && 0 <= jj < bases@[q]@.len() implies (
                    #[trigger] bases@[q]@[jj]).wf() by {
                        assert(pt(bases@[q]@[jj]) == pt(bw[q][jj]));
                    }
                }
            }
        }
        let candidate = match Self::from_bases(bases) {
            Some(c) => c,
            None => {
                proof {
                    if has {
                        assert(false);
                    }
                }
                return None;
            },
        };
        // the round-trip check pins the accepted instance to the input
        let reserialized = candidate.to_bytes_le();
        proof {
            if has {
                assert(serialized_bases(candidate.bases_view()) == serialized_bases(bw)) by {
                    lemma_serialized_bases_congruence(candidate.bases_view(), bw);
                }
            }
        }
        if bytes_equal(&reserialized, bytes) {
            Some(candidate)
        } else {
            proof {
                if has {
                    assert(false);
                }
            }
            None
        }
    }
}

/// Parses the window sequence of a serialized key set. When the bytes
/// are a well-formed instance's serialization, parsing cannot fail and
/// reproduces that instance's points coordinatewise.
#[verifier::loop_isolation(false)]
#[verifier::rlimit(60)]
fn parse_windows(
    bytes: &Vec<u8>,
    pos: &mut usize,
    nw: usize,
    Ghost(has): Ghost<bool>,
    Ghost(bw): Ghost<Seq<Seq<GroupElement>>>,
) -> (r: Option<Vec<Vec<GroupElement>>>)
    requires
        *old(pos) <= bytes@.len(),
        has ==> {
            &&& *old(pos) == 4
            &&& nw == bw.len()
            &&& bw.len() <= MAX_NUM_WINDOWS
            &&& bytes@ == serialized_bases(bw)
            &&& forall|q: int|
                0 <= q < bw.len() ==> 1 <= (#[trigger] bw[q]).len() <= MAX_WINDOW_SIZE
        },
    ensures
        has ==> r is Some,
        r matches Some(b) ==> b@.len() == nw && (has ==> forall|q: int|
            0 <= q < nw ==> (#[trigger] b@[q])@.len() == bw[q].len()) && (has ==> forall|
            q: int,
            j: int,
        |
            0 <= q < nw && 0 <= j < bw[q].len() ==> pt(#[trigger] b@[q]@[j]) == pt(bw[q][j])),
{
    let mut bases: Vec<Vec<GroupElement>> = Vec::new();
    proof {
        if has {
            reveal(windows_bytes);
            assert(windows_bytes(bw, 0).len() == 0);
        }
    }
    let mut w: usize = 0;
    while w < nw
        invariant
            *pos <= bytes@.len(),
            w <= nw,
            bases@.len() == w,
            has ==> {
                &&& *pos == 4 + windows_bytes(bw, w as nat).len()
                &&& forall|q: int| 0 <= q < w ==> (#[trigger] bases@[q])@.len() == bw[q].len()
                &&& forall|q: int, j: int|
                    0 <= q < w && 0 <= j < bw[q].len() ==> pt(#[trigger] bases@[q]@[j]) == pt(
                        bw[q][j],
                    )
            },
        decreases nw - w,
    {
        let row = match parse_row(bytes, pos, w, Ghost(has), Ghost(bw)) {
            Some(v) => v,
            None => {
                proof {
                    if has {
                        assert(false);
                    }
                }
                return None;
            },
        };
        bases.push(row);
        w = w + 1;
    }
    Some(bases)
}

/// Parses one window: its point count, then its points. When the bytes
/// are a well-formed serialization, the count and every coordinate are
/// exactly the serialized window's.
#[verifier::loop_isolation(false)]
#[verifier::spinoff_prover]
#[verifier::rlimit(100)]
fn parse_row(
    bytes: &Vec<u8>,
    pos: &mut usize,
    w: usize,
    Ghost(has): Ghost<bool>,
    Ghost(bw): Ghost<Seq<Seq<GroupElement>>>,
) -> (r: Option<Vec<GroupElement>>)
    requires
        *old(pos) <= bytes@.len(),
        has ==> {
            &&& w < bw.len()
            &&& bw.len() <= MAX_NUM_WINDOWS
            &&& *old(pos) == 4 + windows_bytes(bw, w as nat).len()
            &&& bytes@ == serialized_bases(bw)
            &&& 1 <= bw[w as int].len() <= MAX_WINDOW_SIZE
        },
    ensures
        *final(pos) <= bytes@.len(),
        has ==> r is Some,
        r matches Some(row) ==> has ==> {
            &&& *final(pos) == 4 + windows_bytes(bw, (w + 1) as nat).len()
            &&& row@.len() == bw[w as int].len()
            &&& forall|j: int|
                0 <= j < bw[w as int].len() ==> pt(#[trigger] row@[j]) == pt(bw[w as int][j])
        },
{
    proof {
        if has {
            lemma_parse_window_header(bw, w as nat, bytes@);
            assert(bytes@.len() == 4 + windows_bytes(bw, bw.len()).len()) by {
                reveal(serialized_bases);
                assert(bytes@ == u32_le(bw.len() as int) + windows_bytes(bw, bw.len()));
                lemma_u32_le_value(bw.len() as int);
            }
            lemma_windows_bytes_prefix(bw, (w + 1) as nat, bw.len());
            lemma_u32_le_value(bw[w as int].len() as int);
        }
    }
    let wlen = match read_u32_le(bytes, pos) {
        Some(v) => v,
        None => {
            proof {
                if has {
                    assert(false);
                }
            }
            return None;
        },
    };
    proof {
        if has {
            let off = (4 + windows_bytes(bw, w as nat).len()) as int;
            let sub = bytes@.subrange(off, off + 4);
            assert(bytes@[off] == sub[0] && bytes@[off + 1] == sub[1] && bytes@[off + 2]
                == sub[2] && bytes@[off + 3] == sub[3]);
            assert(wlen as int == bw[w as int].len());
        }
    }
    if wlen < 1 || wlen > MAX_WINDOW_SIZE as u32 {
        proof {
            if has {
                assert(false);
            }
        }
        return None;
    }
    let wl = wlen as usize;
    let mut row: Vec<GroupElement> = Vec::new();
    let mut j: usize = 0;
    while j < wl
        invariant
            *pos <= bytes@.len(),
            j <= wl,
            row@.len() == j,
            has ==> {
                &&& wl == bw[w as int].len()
                &&& *pos == 4 + windows_bytes(bw, w as nat).len() + 4 + 8 * j
                &&& forall|q: int| 0 <= q < j ==> pt(#[trigger] row@[q]) == pt(bw[w as int][q])
            },
        decreases wl - j,
    {
        let point = match parse_point(bytes, pos, w, j, Ghost(has), Ghost(bw)) {
            Some(v) => v,
            None => {
                proof {
                    if has {
                        assert(false);
                    }
                }
                return None;
            },
        };
        row.push(point);
        j = j + 1;
    }
    proof {
        if has {
            reveal(windows_bytes);
            lemma_points_bytes_len(bw[w as int], bw[w as int].len());
            assert(windows_bytes(bw, (w + 1) as nat) == windows_bytes(bw, w as nat) + u32_le(
                bw[w as int].len() as int,
            ) + points_bytes(bw[w as int], bw[w as int].len()));
        }
    }
    Some(row)
}

/// Parses one point: two little-endian coordinates. When the bytes are
/// a well-formed serialization, both coordinates are exactly the
/// serialized point's.
#[verifier::loop_isolation(false)]
#[verifier::rlimit(100)]
fn parse_point(
    bytes: &Vec<u8>,
    pos: &mut usize,
    w: usize,
    j: usize,
    Ghost(has): Ghost<bool>,
    Ghost(bw): Ghost<Seq<Seq<GroupElement>>>,
) -> (r: Option<GroupElement>)
    requires
        *old(pos) <= bytes@.len(),
        has ==> {
            &&& w < bw.len()
            &&& bw.len() <= MAX_NUM_WINDOWS
            &&& j < bw[w as int].len()
            &&& bw[w as int].len() <= MAX_WINDOW_SIZE
            &&& *old(pos) == 4 + windows_bytes(bw, w as nat).len() + 4 + 8 * j
            &&& bytes@ == serialized_bases(bw)
        },
    ensures
        *final(pos) <= bytes@.len(),
        has ==> r is Some,
        r matches Some(pnt) ==> has ==> {
            &&& *final(pos) == 4 + windows_bytes(bw, w as nat).len() + 4 + 8 * (j + 1)
            &&& pt(pnt) == pt(bw[w as int][j as int])
        },
{
    proof {
        if has {
            lemma_parse_point(bw, w as nat, j as nat, bytes@);
            assert(bytes@.len() == 4 + windows_bytes(bw, bw.len()).len()) by {
                reveal(serialized_bases);
                assert(bytes@ == u32_le(bw.len() as int) + windows_bytes(bw, bw.len()));
                lemma_u32_le_value(bw.len() as int);
            }
        }
    }
    let x = match read_u32_le(bytes, pos) {
        Some(v) => v,
        None => {
            proof {
                if has {
                    assert(false);
                }
            }
            return None;
        },
    };
    let y = match read_u32_le(bytes, pos) {
        Some(v) => v,
        None => {
            proof {
                if has {
                    assert(false);
                }
            }
            return None;
        },
    };
    let point = GroupElement { x: Fp::from_u64(x as u64), y: Fp::from_u64(y as u64) };
    proof {
        if has {
            let gw = bw[w as int][j as int];
            crate::field::lemma_fp_in_field(gw.x);
            crate::field::lemma_fp_in_field(gw.y);
            lemma_u32_le_value(gw.x@);
            lemma_u32_le_value(gw.y@);
            let off = (4 + windows_bytes(bw, w as nat).len() + 4 + 8 * (j as nat)) as int;
            let subx = bytes@.subrange(off, off + 4);
            let suby = bytes@.subrange(off + 4, off + 8);
            assert(bytes@[off] == subx[0] && bytes@[off + 1] == subx[1] && bytes@[off + 2]
                == subx[2] && bytes@[off + 3] == subx[3]);
            assert(bytes@[off + 4] == suby[0] && bytes@[off + 5] == suby[1] && bytes@[off + 6]
                == suby[2] && bytes@[off + 7] == suby[3]);
            assert(x as int == gw.x@ && y as int == gw.y@);
            vstd::arithmetic::div_mod::lemma_small_mod(gw.x@ as nat, P as nat);
            vstd::arithmetic::div_mod::lemma_small_mod(gw.y@ as nat, P as nat);
            assert(pt(point) == pt(gw));
        }
    }
    Some(point)
}


/// The little-endian bit string of a byte string.
fn bytes_to_bits(input: &Vec<u8>) -> (r: Vec<bool>)
    requires
        input@.len() * 8 <= usize::MAX,
    ensures
        r@ == bytes_to_bits_le(input@),
{
    let mut bits: Vec<bool> = Vec::new();
    let mut i: usize = 0;
    while i < input.len()
        invariant
            i <= input@.len(),
            input@.len() * 8 <= usize::MAX,
            bits@.len() == 8 * i,
            forall|q: int|
                0 <= q < 8 * i ==> #[trigger] bits@[q] == byte_bit(input@[q / 8] as int, q % 8),
        decreases input@.len() - i,
    {
        let b = input[i];
        let mut v: u8 = b;
        let mut k: usize = 0;
        proof {
            assert(crate::domain::two_pow(0) == 1);
            assert(input@[i as int] as int / 1 == input@[i as int] as int);
        }
        while k < 8
            invariant
                k <= 8,
                i < input@.len(),
                bits@.len() == 8 * i + k,
                v as int == input@[i as int] as int / crate::domain::two_pow(k as nat) as int,
                forall|q: int|
                    0 <= q < bits@.len() ==> #[trigger] bits@[q] == byte_bit(
                        input@[q / 8] as int,
                        q % 8,
                    ),
            decreases 8 - k,
        {
            proof {
                let idx = 8 * (i as int) + k;
                assert(idx / 8 == i && idx % 8 == k) by {
                    vstd::arithmetic::div_mod::lemma_fundamental_div_mod_converse(
                        idx,
                        8,
                        i as int,
                        k as int,
                    );
                }
                assert(crate::domain::two_pow((k + 1) as nat) == 2 * crate::domain::two_pow(
                    k as nat,
                ));
                crate::domain::lemma_two_pow_is_pow2(k as nat);
                vstd::arithmetic::div_mod::lemma_div_denominator(
                    input@[i as int] as int,
                    crate::domain::two_pow(k as nat) as int,
                    2,
                );
            }
            bits.push(v % 2 == 1);
            v = v / 2;
            k = k + 1;
        }
        i = i + 1;
    }
    proof {
        assert(bits@ =~= bytes_to_bits_le(input@));
    }
    bits
}

/// At the head of window `w`, the serialized stream holds the window's
/// point count.
proof fn lemma_parse_window_header(bw: Seq<Seq<GroupElement>>, w: nat, bytes: Seq<u8>)
    requires
        w < bw.len(),
        bw[w as int].len() < 0x100000000,
        bytes == serialized_bases(bw),
    ensures
        4 + windows_bytes(bw, w).len() + 4 <= bytes.len(),
        bytes.subrange(
            (4 + windows_bytes(bw, w).len()) as int,
            (4 + windows_bytes(bw, w).len() + 4) as int,
        ) == u32_le(bw[w as int].len() as int),
{
    reveal(points_bytes);
    reveal(windows_bytes);
    reveal(serialized_bases);
    let row = bw[w as int];
    let prefix = windows_bytes(bw, w);
    lemma_u32_le_value(row.len() as int);
    assert(windows_bytes(bw, (w + 1) as nat) == prefix + u32_le(row.len() as int)
        + points_bytes(row, row.len()));
    lemma_windows_bytes_prefix(bw, (w + 1) as nat, bw.len());
    assert forall|i: int| 0 <= i < 4 implies #[trigger] bytes[4 + prefix.len() + i] == u32_le(
        row.len() as int,
    )[i] by {
        let idx = prefix.len() + i;
        assert(windows_bytes(bw, (w + 1) as nat)[idx] == u32_le(row.len() as int)[i]);
        assert(windows_bytes(bw, bw.len())[idx] == windows_bytes(bw, (w + 1) as nat)[idx]);
        assert(bytes[4 + idx] == windows_bytes(bw, bw.len())[idx]);
    }
    assert(bytes.subrange((4 + prefix.len()) as int, (4 + prefix.len() + 4) as int) =~= u32_le(
        row.len() as int,
    ));
}

/// At the head of point `j` of window `w`, the serialized stream holds
/// the point's two coordinates.
proof fn lemma_parse_point(bw: Seq<Seq<GroupElement>>, w: nat, j: nat, bytes: Seq<u8>)
    requires
        w < bw.len(),
        j < bw[w as int].len(),
        bw[w as int].len() < 0x100000000,
        bytes == serialized_bases(bw),
    ensures
        4 + windows_bytes(bw, w).len() + 4 + 8 * j + 8 <= bytes.len(),
        bytes.subrange(
            (4 + windows_bytes(bw, w).len() + 4 + 8 * j) as int,
            (4 + windows_bytes(bw, w).len() + 4 + 8 * j + 4) as int,
        ) == u32_le(bw[w as int][j as int].x@),
        bytes.subrange(
            (4 + windows_bytes(bw, w).len() + 4 + 8 * j + 4) as int,
            (4 + windows_bytes(bw, w).len() + 4 + 8 * j + 8) as int,
        ) == u32_le(bw[w as int][j as int].y@),
{
    reveal(points_bytes);
    reveal(windows_bytes);
    reveal(serialized_bases);
    let row = bw[w as int];
    let g = row[j as int];
    let prefix = windows_bytes(bw, w);
    crate::field::lemma_fp_in_field(g.x);
    crate::field::lemma_fp_in_field(g.y);
    lemma_u32_le_value(row.len() as int);
    lemma_u32_le_value(g.x@);
    lemma_u32_le_value(g.y@);
    lemma_points_bytes_len(row, j);
    lemma_points_bytes_len(row, (j + 1) as nat);
    lemma_points_bytes_len(row, row.len());
    assert(points_bytes(row, (j + 1) as nat) == points_bytes(row, j) + point_bytes(g));
    lemma_points_bytes_prefix(row, (j + 1) as nat, row.len());
    assert(windows_bytes(bw, (w + 1) as nat) == prefix + u32_le(row.len() as int)
        + points_bytes(row, row.len()));
    lemma_windows_bytes_prefix(bw, (w + 1) as nat, bw.len());
    assert forall|i: int| 0 <= i < 8 implies #[trigger] bytes[4 + prefix.len() + 4 + 8 * j + i]
        == point_bytes(g)[i] by {
        let inner = 8 * j + i;
        assert(points_bytes(row, (j + 1) as nat)[inner] == point_bytes(g)[i]);
        assert(points_bytes(row, row.len())[inner] == points_bytes(row, (j + 1) as nat)[
        inner]);
        let idx = prefix.len() + 4 + inner;
        assert(windows_bytes(bw, (w + 1) as nat)[idx] == points_bytes(row, row.len())[inner]);
        assert(windows_bytes(bw, bw.len())[idx] == windows_bytes(bw, (w + 1) as nat)[idx]);
        assert(bytes[4 + idx] == windows_bytes(bw, bw.len())[idx]);
    }
    assert forall|i: int| 0 <= i < 4 implies #[trigger] bytes[4 + prefix.len() + 4 + 8 * j + i]
        == u32_le(g.x@)[i] by {
        assert(point_bytes(g)[i] == u32_le(g.x@)[i]);
    }
    assert forall|i: int| 0 <= i < 4 implies #[trigger] bytes[4 + prefix.len() + 4 + 8 * j + 4
        + i] == u32_le(g.y@)[i] by {
        assert(point_bytes(g)[4 + i] == u32_le(g.y@)[i]);
    }
    assert(bytes.subrange(
        (4 + prefix.len() + 4 + 8 * j) as int,
        (4 + prefix.len() + 4 + 8 * j + 4) as int,
    ) =~= u32_le(g.x@));
    assert(bytes.subrange(
        (4 + prefix.len() + 4 + 8 * j + 4) as int,
        (4 + prefix.len() + 4 + 8 * j + 8) as int,
    ) =~= u32_le(g.y@));
}

/// The serialization is injective at the level of coordinates: two key
/// sets with the same bytes have the same shape and pointwise-equal
/// points. The prefix up to window `w` is compared step by step.
proof fn lemma_windows_inj(b1: Seq<Seq<GroupElement>>, b2: Seq<Seq<GroupElement>>, w: nat)
    requires
        serialized_bases(b1) == serialized_bases(b2),
        b1.len() == b2.len(),
        b1.len() < 0x100000000,
        w <= b1.len(),
        forall|q: int| 0 <= q < b1.len() ==> (#[trigger] b1[q]).len() < 0x100000000,
        forall|q: int| 0 <= q < b2.len() ==> (#[trigger] b2[q]).len() < 0x100000000,
    ensures
        windows_bytes(b1, w).len() == windows_bytes(b2, w).len(),
        forall|q: int| 0 <= q < w ==> (#[trigger] b1[q]).len() == b2[q].len(),
        forall|q: int, j: int|
            0 <= q < w && 0 <= j < b1[q].len() ==> pt(#[trigger] b1[q][j]) == pt(b2[q][j]),
    decreases w,
{
    reveal(windows_bytes);
    if w > 0 {
        lemma_windows_inj(b1, b2, (w - 1) as nat);
        let bytes = serialized_bases(b1);
        let prev = (w - 1) as nat;
        lemma_parse_window_header(b1, prev, bytes);
        lemma_parse_window_header(b2, prev, bytes);
        let off = (4 + windows_bytes(b1, prev).len()) as int;
        // the shared stream holds both windows' point counts at one offset
        assert(u32_le(b1[w - 1].len() as int) == u32_le(b2[w - 1].len() as int));
        lemma_u32_le_value(b1[w - 1].len() as int);
        lemma_u32_le_value(b2[w - 1].len() as int);
        assert(b1[w - 1].len() == b2[w - 1].len());
        assert forall|j: int| 0 <= j < b1[w - 1].len() implies pt(#[trigger] b1[w - 1][j])
            == pt(b2[w - 1][j]) by {
            lemma_parse_point(b1, prev, j as nat, bytes);
            lemma_parse_point(b2, prev, j as nat, bytes);
            let g1 = b1[w - 1][j];
            let g2 = b2[w - 1][j];
            crate::field::lemma_fp_in_field(g1.x);
            crate::field::lemma_fp_in_field(g1.y);
            crate::field::lemma_fp_in_field(g2.x);
            crate::field::lemma_fp_in_field(g2.y);
            assert(u32_le(g1.x@) == u32_le(g2.x@));
            assert(u32_le(g1.y@) == u32_le(g2.y@));
            lemma_u32_le_value(g1.x@);
            lemma_u32_le_value(g2.x@);
            lemma_u32_le_value(g1.y@);
            lemma_u32_le_value(g2.y@);
        }
        // the byte prefixes stay aligned for the next window
        reveal(windows_bytes);
        lemma_points_bytes_len(b1[w - 1], b1[w - 1].len());
        lemma_points_bytes_len(b2[w - 1], b2[w - 1].len());
    }
}

/// The serialization round trip: two well-formed instances with the
/// same canonical bytes carry the same key material, shape and
/// coordinates alike. With `from_bytes_le`'s acceptance guarantee this
/// is the round-trip law: deserializing a serialization succeeds and
/// recovers the parameters.
pub proof fn lemma_serialization_round_trip(c1: BHPCRH, c2: BHPCRH)
    requires
        c1.wf(),
        c2.wf(),
        serialized_bases(c1.bases_view()) == serialized_bases(c2.bases_view()),
    ensures
        c1.bases_view().len() == c2.bases_view().len(),
        forall|q: int|
            0 <= q < c1.bases_view().len() ==> (#[trigger] c1.bases_view()[q]).len()
                == c2.bases_view()[q].len(),
        forall|q: int, j: int|
            0 <= q < c1.bases_view().len() && 0 <= j < c1.bases_view()[q].len() ==> pt(
                #[trigger] c1.bases_view()[q][j],
            ) == pt(c2.bases_view()[q][j]),
{
    let b1 = c1.bases_view();
    let b2 = c2.bases_view();
    assert(b1.len() == b2.len()) by {
        reveal(serialized_bases);
        lemma_u32_le_value(b1.len() as int);
        lemma_u32_le_value(b2.len() as int);
        assert forall|i: int| 0 <= i < 4 implies u32_le(b1.len() as int)[i] == u32_le(
            b2.len() as int,
        )[i] by {
            assert(serialized_bases(b1)[i] == u32_le(b1.len() as int)[i]);
            assert(serialized_bases(b2)[i] == u32_le(b2.len() as int)[i]);
        }
    }
    assert forall|q: int| 0 <= q < b1.len() implies (#[trigger] b1[q]).len() < 0x100000000 by {
        assert(b1[q] == c1.bases@[q]@);
    }
    assert forall|q: int| 0 <= q < b2.len() implies (#[trigger] b2[q]).len() < 0x100000000 by {
        assert(b2[q] == c2.bases@[q]@);
    }
    lemma_windows_inj(b1, b2, b1.len());
}

/// A word is recovered from its four little-endian bytes.
proof fn lemma_u32_le_value(v: int)
    requires
        0 <= v < 0x100000000,
    ensures
        u32_le(v).len() == 4,
        u32_le(v)[0] + 256 * u32_le(v)[1] + 0x10000 * u32_le(v)[2] + 0x1000000 * u32_le(v)[3]
            == v,
        forall|i: int| 0 <= i < 4 ==> 0 <= #[trigger] u32_le(v)[i] < 256,
{
    let d1 = v / 256;
    let d2 = v / 0x10000;
    let d3 = v / 0x1000000;
    vstd::arithmetic::div_mod::lemma_div_denominator(v, 256, 256);
    vstd::arithmetic::div_mod::lemma_div_denominator(v, 0x10000, 256);
    assert(d2 == d1 / 256 && d3 == d2 / 256);
    vstd::arithmetic::div_mod::lemma_fundamental_div_mod(v, 256);
    vstd::arithmetic::div_mod::lemma_fundamental_div_mod(d1, 256);
    vstd::arithmetic::div_mod::lemma_fundamental_div_mod(d2, 256);
    assert(d3 < 256) by {
        vstd::arithmetic::div_mod::lemma_fundamental_div_mod(v, 0x1000000);
        if d3 >= 256 {
            assert(0x1000000 * d3 >= 0x1000000 * 256) by (nonlinear_arith)
                requires
                    d3 >= 256,
            ;
        }
    }
    vstd::arithmetic::div_mod::lemma_small_mod(d3 as nat, 256);
}

/// The concatenated point bytes of a window prefix measure eight bytes
/// per point.
proof fn lemma_points_bytes_len(ws: Seq<GroupElement>, k: nat)
    ensures
        points_bytes(ws, k).len() == 8 * k,
    decreases k,
{
    reveal(points_bytes);
    if k > 0 {
        lemma_points_bytes_len(ws, (k - 1) as nat);
    }
}

/// A shorter point-byte prefix is a prefix of a longer one.
proof fn lemma_points_bytes_prefix(ws: Seq<GroupElement>, k1: nat, k2: nat)
    requires
        k1 <= k2,
    ensures
        points_bytes(ws, k1).len() <= points_bytes(ws, k2).len(),
        forall|i: int|
            0 <= i < points_bytes(ws, k1).len() ==> #[trigger] points_bytes(ws, k2)[i]
                == points_bytes(ws, k1)[i],
    decreases k2,
{
    reveal(points_bytes);
    if k1 < k2 {
        lemma_points_bytes_prefix(ws, k1, (k2 - 1) as nat);
    }
}

/// A shorter window-byte prefix is a prefix of a longer one.
proof fn lemma_windows_bytes_prefix(bv: Seq<Seq<GroupElement>>, k1: nat, k2: nat)
    requires
        k1 <= k2,
    ensures
        windows_bytes(bv, k1).len() <= windows_bytes(bv, k2).len(),
        forall|i: int|
            0 <= i < windows_bytes(bv, k1).len() ==> #[trigger] windows_bytes(bv, k2)[i]
                == windows_bytes(bv, k1)[i],
    decreases k2,
{
    reveal(windows_bytes);
    if k1 < k2 {
        lemma_windows_bytes_prefix(bv, k1, (k2 - 1) as nat);
    }
}

/// The serialization depends only on the coordinates: two key sets of
/// the same shape whose points agree coordinatewise serialize to the
/// same bytes.
proof fn lemma_points_bytes_congruence(w1: Seq<GroupElement>, w2: Seq<GroupElement>, k: nat)
    requires
        forall|j: int| 0 <= j < k ==> pt(#[trigger] w1[j]) == pt(w2[j]),
    ensures
        points_bytes(w1, k) == points_bytes(w2, k),
    decreases k,
{
    reveal(points_bytes);
    if k > 0 {
        lemma_points_bytes_congruence(w1, w2, (k - 1) as nat);
        assert(pt(w1[k - 1]) == pt(w2[k - 1]));
        assert(point_bytes(w1[k - 1]) == point_bytes(w2[k - 1]));
    }
}

/// The serialization congruence over whole key sets.
proof fn lemma_serialized_bases_congruence(b1: Seq<Seq<GroupElement>>, b2: Seq<Seq<GroupElement>>)
    requires
        b1.len() == b2.len(),
        forall|w: int| 0 <= w < b1.len() ==> (#[trigger] b1[w]).len() == b2[w].len(),
        forall|w: int, j: int|
            0 <= w < b1.len() && 0 <= j < b1[w].len() ==> pt(#[trigger] b1[w][j]) == pt(
                b2[w][j],
            ),
    ensures
        serialized_bases(b1) == serialized_bases(b2),
{
    reveal(serialized_bases);
    lemma_windows_bytes_congruence(b1, b2, b1.len());
}

/// The window-level serialization congruence.
proof fn lemma_windows_bytes_congruence(
    b1: Seq<Seq<GroupElement>>,
    b2: Seq<Seq<GroupElement>>,
    k: nat,
)
    requires
        k <= b1.len(),
        b1.len() == b2.len(),
        forall|w: int| 0 <= w < b1.len() ==> (#[trigger] b1[w]).len() == b2[w].len(),
        forall|w: int, j: int|
            0 <= w < b1.len() && 0 <= j < b1[w].len() ==> pt(#[trigger] b1[w][j]) == pt(
                b2[w][j],
            ),
    ensures
        windows_bytes(b1, k) == windows_bytes(b2, k),
    decreases k,
{
    reveal(windows_bytes);
    reveal(points_bytes);
    if k > 0 {
        lemma_windows_bytes_congruence(b1, b2, (k - 1) as nat);
        lemma_points_bytes_congruence(b1[k - 1], b2[k - 1], b1[k - 1].len());
    }
}

/// Reads a little-endian word at the cursor, advancing it.
fn read_u32_le(bytes: &Vec<u8>, pos: &mut usize) -> (r: Option<u32>)
    requires
        *old(pos) <= bytes@.len(),
    ensures
        *final(pos) <= bytes@.len(),
        r is Some <==> *old(pos) + 4 <= bytes@.len(),
        r matches Some(v) ==> *final(pos) == *old(pos) + 4 && v as int == bytes@[*old(
            pos,
        ) as int] + 256 * bytes@[*old(pos) + 1] + 0x10000 * bytes@[*old(pos) + 2] + 0x1000000
            * bytes@[*old(pos) + 3],
        r is None ==> *final(pos) == *old(pos),
{
    let p = *pos;
    if bytes.len() - p < 4 {
        return None;
    }
    let v = bytes[p] as u32 + (bytes[p + 1] as u32) * 256 + (bytes[p + 2] as u32) * 0x10000 + (
    bytes[p + 3] as u32) * 0x1000000;
    *pos = p + 4;
    Some(v)
}

/// Whether two byte vectors hold the same bytes.
fn bytes_equal(a: &Vec<u8>, b: &Vec<u8>) -> (r: bool)
    ensures
        r <==> a@ == b@,
{
    if a.len() != b.len() {
        proof {
            assert(a@.len() != b@.len());
        }
        return false;
    }
    let mut i: usize = 0;
    while i < a.len()
        invariant
            i <= a@.len(),
            a@.len() == b@.len(),
            forall|q: int| 0 <= q < i ==> a@[q] == b@[q],
        decreases a@.len() - i,
    {
        if a[i] != b[i] {
            return false;
        }
        i = i + 1;
    }
    proof {
        assert(a@ =~= b@);
    }
    true
}

/// Copies key material, window by window.
fn clone_bases(bases: &Vec<Vec<GroupElement>>) -> (r: Vec<Vec<GroupElement>>)
    ensures
        r@.len() == bases@.len(),
        forall|w: int| 0 <= w < r@.len() ==> (#[trigger] r@[w])@ == bases@[w]@,
{
    let mut r: Vec<Vec<GroupElement>> = Vec::new();
    let mut w: usize = 0;
    while w < bases.len()
        invariant
            w <= bases@.len(),
            r@.len() == w,
            forall|q: int| 0 <= q < w ==> (#[trigger] r@[q])@ == bases@[q]@,
        decreases bases@.len() - w,
    {
        let row = &bases[w];
        let mut out_row: Vec<GroupElement> = Vec::new();
        let mut j: usize = 0;
        while j < row.len()
            invariant
                j <= row@.len(),
                out_row@ == row@.take(j as int),
            decreases row@.len() - j,
        {
            out_row.push(row[j]);
            proof {
                assert(row@.take(j + 1) =~= row@.take(j as int).push(row@[j as int]));
            }
            j = j + 1;
        }
        proof {
            assert(row@.take(row@.len() as int) =~= row@);
        }
        r.push(out_row);
        w = w + 1;
    }
    r
}

impl Clone for BHPCRH {
    /// Clones the key material and configuration; the memoized lookup
    /// table is not copied, the clone rebuilds it lazily on first use.
    fn clone(&self) -> (r: Self)
        ensures
            r.bases_view() == self.bases_view(),
            r.spec_num_windows() == self.spec_num_windows(),
            r.spec_window_size() == self.spec_window_size(),
            self.wf() ==> r.wf(),
    {
        let r = BHPCRH {
            bases: clone_bases(&self.bases),
            num_windows: self.num_windows,
            window_size: self.window_size,
            base_lookup: new_cell(),
        };
        proof {
            assert(r.bases_view() =~= self.bases_view());
        }
        r
    }
}

/// The chunk fold of a window depends only on the coordinates of its
/// generators.
proof fn lemma_window_fold_congruence(
    g1: Seq<GroupElement>,
    g2: Seq<GroupElement>,
    bits: Seq<bool>,
    seg: int,
    wsize: int,
    k: nat,
)
    requires
        g1.len() == g2.len(),
        forall|c: int| 0 <= c < g1.len() ==> pt(#[trigger] g1[c]) == pt(g2[c]),
        k <= g1.len(),
    ensures
        window_fold(g1, bits, seg, wsize, k) == window_fold(g2, bits, seg, wsize, k),
    decreases k,
{
    if k > 0 {
        lemma_window_fold_congruence(g1, g2, bits, seg, wsize, (k - 1) as nat);
    }
}

/// The segment fold depends only on the coordinates of the key
/// material.
proof fn lemma_segments_fold_congruence(
    b1: Seq<Seq<GroupElement>>,
    b2: Seq<Seq<GroupElement>>,
    bits: Seq<bool>,
    wsize: int,
    bit_len: int,
    s: nat,
)
    requires
        b1.len() == b2.len(),
        wsize >= 0,
        s <= b1.len(),
        forall|seg: int| 0 <= seg < s ==> bit_len - #[trigger] (seg * 3) * wsize >= 0,
        forall|w: int| 0 <= w < b1.len() ==> (#[trigger] b1[w]).len() == wsize,
        forall|w: int| 0 <= w < b2.len() ==> (#[trigger] b2[w]).len() == wsize,
        forall|w: int, j: int|
            0 <= w < b1.len() && 0 <= j < wsize ==> pt(#[trigger] b1[w][j]) == pt(b2[w][j]),
    ensures
        segments_fold(b1, bits, wsize, bit_len, s) == segments_fold(b2, bits, wsize, bit_len, s),
    decreases s,
{
    if s > 0 {
        lemma_segments_fold_congruence(b1, b2, bits, wsize, bit_len, (s - 1) as nat);
        let chunks = segment_chunks(bit_len, wsize, s - 1);
        assert(chunks <= wsize) by {
            assert(bit_len - (s - 1) * 3 * wsize >= 0);
            if bit_len - (s - 1) * 3 * wsize < 3 * wsize {
                assert((bit_len - (s - 1) * 3 * wsize) / 3 <= wsize) by (nonlinear_arith)
                    requires
                        0 <= bit_len - (s - 1) * 3 * wsize < 3 * wsize,
                ;
            }
        }
        lemma_window_fold_congruence(b1[s - 1], b2[s - 1], bits, s - 1, wsize, chunks);
    }
}

/// Hashing is a function of the key material's coordinates and the
/// input alone: two well-formed instances with the same dimensions whose
/// generators agree pointwise as curve points accumulate the same hash
/// point on every input. Together with the deterministic derivation of
/// the generators from the seed message, equal configurations hash
/// equally across instances and runs.
pub proof fn lemma_hash_deterministic(c1: BHPCRH, c2: BHPCRH, bits: Seq<bool>)
    requires
        c1.wf(),
        c2.wf(),
        c1.spec_window_size() == c2.spec_window_size(),
        c1.spec_num_windows() == c2.spec_num_windows(),
        forall|w: int, j: int|
            0 <= w < c1.spec_num_windows() && 0 <= j < c1.spec_window_size() ==> pt(
                #[trigger] c1.bases_view()[w][j],
            ) == pt(c2.bases_view()[w][j]),
    ensures
        hash_point(c1.bases_view(), c1.spec_window_size(), c1.spec_num_windows(), bits)
            == hash_point(c2.bases_view(), c2.spec_window_size(), c2.spec_num_windows(), bits),
{
    let w = c1.spec_window_size();
    let n = c1.spec_num_windows();
    let bit_len = padded_bit_length(w, n);
    assert(1 * 1 <= w * n && w * n <= 3 * (w * n)) by (nonlinear_arith)
        requires
            w >= 1,
            n >= 1,
    ;
    lemma_segment_count_bound(bit_len, w, n);
    assert(bit_len <= 3 * (w * n)) by (nonlinear_arith)
        requires
            bit_len <= w * n + 2,
            w * n >= 1,
    ;
    let segs = segment_count(w, n);
    assert forall|seg: int| 0 <= seg < segs implies bit_len - #[trigger] (seg * 3) * w >= 0 by {
        vstd::arithmetic::div_mod::lemma_fundamental_div_mod(bit_len + 3 * w - 1, 3 * w);
        assert((segs - 1) * (3 * w) <= bit_len - 1) by (nonlinear_arith)
            requires
                (3 * w) * segs <= bit_len + 3 * w - 1,
                w >= 1,
        ;
        assert(seg * (3 * w) <= (segs - 1) * (3 * w)) by (nonlinear_arith)
            requires
                seg <= segs - 1,
                w >= 1,
        ;
        assert(seg * 3 * w == seg * (3 * w)) by (nonlinear_arith);
    }
    lemma_segments_fold_congruence(
        c1.bases_view(),
        c2.bases_view(),
        padded_bits(bits, bit_len as nat),
        w,
        bit_len,
        segs as nat,
    );
}

/// Key-material derivation is deterministic: two key sets derived from
/// the same seed message and dimensions hold pointwise-equal generator
/// points, so the two hashes agree on every input.
pub proof fn lemma_setup_deterministic(
    c1: BHPCRH,
    c2: BHPCRH,
    message: Seq<char>,
    n: nat,
    w: nat,
)
    requires
        generators_match(c1.bases_view(), message, n, w),
        generators_match(c2.bases_view(), message, n, w),
    ensures
        c1.bases_view().len() == c2.bases_view().len(),
        forall|wi: int, j: int|
            0 <= wi < n && 0 <= j < w ==> pt(#[trigger] c1.bases_view()[wi][j]) == pt(
                c2.bases_view()[wi][j],
            ),
{
}

/// The number of segments never exceeds the number of windows.
proof fn lemma_segment_count_bound(bit_len: int, w: int, n: int)
    requires
        1 <= w,
        1 <= n,
        3 <= bit_len <= 3 * (w * n),
    ensures
        (bit_len + 3 * w - 1) / (3 * w) <= n,
{
    let d = 3 * w;
    assert(bit_len + d - 1 <= d * n + d - 1) by (nonlinear_arith)
        requires
            bit_len <= 3 * (w * n),
            d == 3 * w,
    ;
    assert((d * n + d - 1) / d == n) by {
        vstd::arithmetic::div_mod::lemma_fundamental_div_mod_converse(
            d * n + d - 1,
            d,
            n,
            d - 1,
        );
    }
    vstd::arithmetic::div_mod::lemma_div_is_ordered(bit_len + d - 1, d * n + d - 1, d);
}

/// Each table entry of a curve point is itself a curve point.
proof fn lemma_lookup_entry_on_curve(g: (int, int), i: int, entry: GroupElement)
    requires
        pt(entry) == lookup_entry(g, i),
        crate::field::in_field(entry.x@),
        crate::field::in_field(entry.y@),
        crate::group::on_curve(g.0, g.1),
    ensures
        entry.wf(),
{
    let s0 = if i % 2 == 1 {
        edwards_add(g, g)
    } else {
        g
    };
    let s1 = if (i / 2) % 2 == 1 {
        edwards_add(s0, edwards_add(g, g))
    } else {
        s0
    };
    if (i / 4) % 2 == 1 {
        lemma_add_result_on_curve(s0, edwards_add(g, g), s1, g);
        crate::group::lemma_neg_on_curve(s1.0, s1.1);
    } else {
        lemma_add_result_on_curve(s0, edwards_add(g, g), s1, g);
    }
}

/// The addition formula's fallback keeps results on the curve whenever
/// the inputs are.
proof fn lemma_add_result_on_curve(a: (int, int), b: (int, int), r: (int, int), g: (int, int))
    requires
        crate::group::on_curve(g.0, g.1),
        a == g || a == edwards_add(g, g),
        b == edwards_add(g, g),
        r == a || r == edwards_add(a, b),
    ensures
        crate::group::on_curve(r.0, r.1),
{
    crate::group::lemma_edwards_add_on_curve(g, g);
    if a == g {
    } else {
    }
    if r == a {
    } else {
        crate::group::lemma_edwards_add_on_curve(a, b);
    }
}

/// Every segment range is at least two.
proof fn lemma_segment_range_pos(j: nat)
    ensures
        segment_range(j) >= 2,
    decreases j,
{
    if j > 0 {
        lemma_segment_range_pos((j - 1) as nat);
    }
}

/// The segment range grows with the chunk count.
proof fn lemma_segment_range_monotonic(j: nat, k: nat)
    requires
        j <= k,
    ensures
        segment_range(j) <= segment_range(k),
    decreases k,
{
    lemma_segment_range_pos(j);
    if j < k {
        lemma_segment_range_monotonic(j, (k - 1) as nat);
        lemma_segment_range_pos((k - 1) as nat);
    }
}

/// The concrete segment range after eight chunks.
proof fn lemma_segment_range_eight()
    ensures
        segment_range(8) == 8589934592,
{
    assert(segment_range(0) == 2);
    assert(segment_range(1) == 32);
    assert(segment_range(2) == 512);
    assert(segment_range(3) == 8192);
    assert(segment_range(4) == 131072);
    assert(segment_range(5) == 2097152);
    assert(segment_range(6) == 33554432);
    assert(segment_range(7) == 536870912);
    assert(segment_range(8) == 8589934592);
}

} // verus!
