//! Perceptual hashing of card artwork.
//!
//! Hashing the illustration rather than the whole card is what makes recognition
//! language-independent: a French *Forêt* and an English *Forest* share the same painting, so
//! they hash identically. It also survives the frame changes between borderless, showcase and
//! retro treatments, which alter everything around the art but not the art itself.
//!
//! The hash is a 16×16 difference hash: 256 bits, each one recording whether a cell of the
//! image is brighter than the one to its right. Comparing neighbours rather than absolute values
//! is what makes it survive a phone camera: exposure, white balance and lighting shift every
//! pixel together and leave the differences between them largely intact.

use vstd::prelude::*;

use crate::text::push_char;

verus! {

/// Width of the grid the hash is computed on. One extra column is sampled to give each cell a
/// right-hand neighbour to compare against.
pub const HASH_GRID: usize = 16;

/// Bits in a hash: one per cell of the grid.
pub const HASH_BITS: usize = HASH_GRID * HASH_GRID;

/// Bytes a hash occupies.
pub const HASH_BYTES: usize = HASH_BITS / 8;

/// A 256-bit perceptual hash.
#[derive(Debug, Clone, Copy, PartialEq, Eq, Hash)]
pub struct ArtHash(pub [u8; HASH_BYTES]);

/// Set bits of a number.
pub open spec fn ones(x: nat) -> nat
    decreases x,
{
    if x == 0 {
        0
    } else {
        x % 2 + ones(x / 2)
    }
}

/// Bits in which two byte strings differ, over the length of the shorter.
pub open spec fn hamming(a: Seq<u8>, b: Seq<u8>) -> nat
    decreases a.len(),
{
    if a.len() == 0 || b.len() == 0 {
        0
    } else {
        hamming(a.drop_last(), b.drop_last()) + ones((a.last() ^ b.last()) as nat)
    }
}

/// The hex digit for a number below sixteen, lower case.
pub open spec fn hex_digit(n: nat) -> char {
    if n < 10 {
        ((n + 48) as u8) as char
    } else {
        ((n + 87) as u8) as char
    }
}

/// Two lower-case hex digits per byte, most significant first.
pub open spec fn hex_of(bytes: Seq<u8>) -> Seq<char>
    decreases bytes.len(),
{
    if bytes.len() == 0 {
        Seq::empty()
    } else {
        hex_of(bytes.drop_last()) + seq![hex_digit((bytes.last() / 16) as nat), hex_digit((bytes.last() % 16) as nat)]
    }
}

/// The value of a hex digit in either case.
pub open spec fn digit_value(c: char) -> Option<nat> {
    if '0' <= c && c <= '9' {
        Some((c as nat - 48) as nat)
    } else if 'a' <= c && c <= 'f' {
        Some((c as nat - 87) as nat)
    } else if 'A' <= c && c <= 'F' {
        Some((c as nat - 55) as nat)
    } else {
        None
    }
}

/// The byte two characters stand for, as an unsigned radix-16 number: two hex digits, or a
/// plus sign and one.
pub open spec fn pair_value(c0: char, c1: char) -> Option<u8> {
    if c0 == '+' {
        match digit_value(c1) {
            Some(d) => Some(d as u8),
            None => None,
        }
    } else {
        match (digit_value(c0), digit_value(c1)) {
            (Some(a), Some(b)) => Some((a * 16 + b) as u8),
            _ => None,
        }
    }
}

/// True when a text is the hex form of a hash: one readable pair per byte.
pub open spec fn readable_hex(s: Seq<char>) -> bool {
    s.len() == 2 * HASH_BYTES && forall|i: int| 0 <= i < HASH_BYTES ==> (#[trigger] pair_value(s[2 * i], s[2 * i + 1])) is Some
}

proof fn lemma_ones_step(x: nat)
    ensures
        x > 0 ==> ones(x) == x % 2 + ones(x / 2),
{
}

fn count_ones(x: u8) -> (r: u32)
    ensures
        r == ones(x as nat),
        r <= 8,
{
    let mut n: u8 = x;
    let mut c: u32 = 0;
    proof {
        lemma_byte_ones(x);
    }
    while n > 0
        invariant
            c + ones(n as nat) == ones(x as nat),
            ones(x as nat) <= 8,
        decreases n,
    {
        proof {
            lemma_ones_step(n as nat);
        }
        c = c + (n % 2) as u32;
        n = n / 2;
    }
    proof {
        lemma_byte_ones(x);
    }
    c
}

/// Two to the `k`, for `k` up to eight.
pub open spec fn pow2_of(k: int) -> nat
    decreases k,
{
    if k <= 0 {
        1
    } else {
        2 * pow2_of(k - 1)
    }
}

proof fn lemma_ones_below(x: nat, k: int)
    requires
        0 <= k,
        x < pow2_of(k),
    ensures
        ones(x) <= k,
    decreases k,
{
    if x > 0 {
        lemma_ones_below(x / 2, k - 1);
    }
}

proof fn lemma_byte_ones(x: u8)
    ensures
        ones(x as nat) <= 8,
{
    reveal_with_fuel(pow2_of, 9);
    assert(pow2_of(8) == 256);
    lemma_ones_below(x as nat, 8);
}

/// Four bits of hex.
fn hex_char(n: u8) -> (c: char)
    requires
        n < 16,
    ensures
        c == hex_digit(n as nat),
{
    if n < 10 {
        (n + 48) as char
    } else {
        (n + 87) as char
    }
}

fn digit_of(c: char) -> (r: Option<u8>)
    ensures
        r matches Some(d) ==> digit_value(c) == Some(d as nat),
        r is None ==> digit_value(c) is None,
{
    if '0' <= c && c <= '9' {
        Some((c as u32 - 48) as u8)
    } else if 'a' <= c && c <= 'f' {
        Some((c as u32 - 87) as u8)
    } else if 'A' <= c && c <= 'F' {
        Some((c as u32 - 55) as u8)
    } else {
        None
    }
}

fn pair_of(c0: char, c1: char) -> (r: Option<u8>)
    ensures
        r == pair_value(c0, c1),
{
    if c0 == '+' {
        digit_of(c1)
    } else {
        match (digit_of(c0), digit_of(c1)) {
            (Some(a), Some(b)) => Some(a * 16 + b),
            _ => None,
        }
    }
}

impl ArtHash {
    /// The hash with no bit set: what a flat or empty image gives.
    pub fn zero() -> (r: ArtHash)
        ensures
            forall|i: int| 0 <= i < HASH_BYTES ==> r.0@[i] == 0,
            r.0@.len() == HASH_BYTES,
    {
        ArtHash([0u8; HASH_BYTES])
    }

    /// Number of differing bits.
    ///
    /// This is the whole matching operation: two images of the same painting land within a few
    /// bits of each other, two different paintings land near 128, which is what chance gives.
    pub fn distance(&self, other: &ArtHash) -> (r: u32)
        ensures
            r == hamming(self.0@, other.0@),
    {
        let mut total: u32 = 0;
        let mut i: usize = 0;
        while i < HASH_BYTES
            invariant
                i <= HASH_BYTES,
                self.0@.len() == HASH_BYTES,
                other.0@.len() == HASH_BYTES,
                total == hamming(self.0@.take(i as int), other.0@.take(i as int)),
                total <= 8 * i,
            decreases HASH_BYTES - i,
        {
            let x = self.0[i] ^ other.0[i];
            assert(self.0@.take(i + 1).drop_last() =~= self.0@.take(i as int));
            assert(other.0@.take(i + 1).drop_last() =~= other.0@.take(i as int));
            total = total + count_ones(x);
            i = i + 1;
        }
        assert(self.0@.take(HASH_BYTES as int) =~= self.0@);
        assert(other.0@.take(HASH_BYTES as int) =~= other.0@);
        total
    }

    pub fn as_bytes(&self) -> (r: &[u8; HASH_BYTES])
        ensures
            r@ == self.0@,
    {
        &self.0
    }

    /// Renders as hex, for logs and test fixtures.
    pub fn to_hex(&self) -> (r: String)
        ensures
            r@ == hex_of(self.0@),
    {
        let mut out = String::new();
        let mut i: usize = 0;
        while i < HASH_BYTES
            invariant
                i <= HASH_BYTES,
                self.0@.len() == HASH_BYTES,
                out@ == hex_of(self.0@.take(i as int)),
            decreases HASH_BYTES - i,
        {
            let b = self.0[i];
            assert(self.0@.take(i + 1).drop_last() =~= self.0@.take(i as int));
            push_char(&mut out, hex_char(b / 16));
            push_char(&mut out, hex_char(b % 16));
            i = i + 1;
        }
        assert(self.0@.take(HASH_BYTES as int) =~= self.0@);
        out
    }

    /// Parses the form produced by [`ArtHash::to_hex`].
    pub fn from_hex(hex: &str) -> (r: Option<ArtHash>)
        ensures
            r is Some <==> readable_hex(hex@),
            r matches Some(h) ==> forall|i: int|
                0 <= i < HASH_BYTES ==> pair_value(hex@[2 * i], hex@[2 * i + 1]) == Some(#[trigger] h.0@[i]),
    {
        let chars = crate::text::chars_of(hex);
        if chars.len() != HASH_BYTES * 2 {
            return None;
        }
        let mut bytes = [0u8; HASH_BYTES];
        let mut i: usize = 0;
        while i < HASH_BYTES
            invariant
                i <= HASH_BYTES,
                chars@ == hex@,
                chars@.len() == 2 * HASH_BYTES,
                bytes@.len() == HASH_BYTES,
                forall|k: int| 0 <= k < i ==> pair_value(chars@[2 * k], chars@[2 * k + 1]) == Some(#[trigger] bytes@[k]),
            decreases HASH_BYTES - i,
        {
            match pair_of(chars[2 * i], chars[2 * i + 1]) {
                Some(b) => {
                    bytes.set(i, b);
                },
                None => {
                    assert(!readable_hex(hex@)) by {
                        assert(pair_value(hex@[2 * (i as int)], hex@[2 * (i as int) + 1]) is None);
                    }
                    return None;
                },
            }
            i = i + 1;
        }
        assert(readable_hex(hex@)) by {
            assert forall|k: int| 0 <= k < HASH_BYTES implies (#[trigger] pair_value(hex@[2 * k], hex@[2 * k + 1])) is Some by {
                assert(pair_value(chars@[2 * k], chars@[2 * k + 1]) == Some(bytes@[k]));
            }
        }
        Some(ArtHash(bytes))
    }
}

proof fn lemma_hamming_symmetric(a: Seq<u8>, b: Seq<u8>)
    requires
        a.len() == b.len(),
    ensures
        hamming(a, b) == hamming(b, a),
    decreases a.len(),
{
    if a.len() > 0 {
        lemma_hamming_symmetric(a.drop_last(), b.drop_last());
        let (x, y) = (a.last(), b.last());
        assert(x ^ y == y ^ x) by (bit_vector);
    }
}

proof fn lemma_ones_zero(x: nat)
    ensures
        ones(x) == 0 <==> x == 0,
    decreases x,
{
    if x > 0 {
        lemma_ones_zero(x / 2);
    }
}

proof fn lemma_hamming_zero(a: Seq<u8>, b: Seq<u8>)
    requires
        a.len() == b.len(),
    ensures
        hamming(a, b) == 0 <==> a == b,
    decreases a.len(),
{
    if a.len() > 0 {
        lemma_hamming_zero(a.drop_last(), b.drop_last());
        let (x, y) = (a.last(), b.last());
        lemma_ones_zero((x ^ y) as nat);
        assert((x ^ y == 0) <==> x == y) by (bit_vector);
        if hamming(a, b) == 0 {
            assert(a =~= a.drop_last().push(x));
            assert(b =~= b.drop_last().push(y));
        }
    } else {
        assert(a =~= b);
    }
}

proof fn lemma_hamming_bound(a: Seq<u8>, b: Seq<u8>)
    ensures
        hamming(a, b) <= 8 * a.len(),
    decreases a.len(),
{
    if a.len() > 0 && b.len() > 0 {
        lemma_hamming_bound(a.drop_last(), b.drop_last());
        lemma_byte_ones(a.last() ^ b.last());
    }
}

/// The distance from one hash to another is the distance back.
pub proof fn law_distance_is_symmetric(a: ArtHash, b: ArtHash)
    ensures
        hamming(a.0@, b.0@) == hamming(b.0@, a.0@),
{
    lemma_hamming_symmetric(a.0@, b.0@);
}

/// Two hashes are at distance zero exactly when they are the same hash.
pub proof fn law_distance_zero_only_for_equals(a: ArtHash, b: ArtHash)
    ensures
        hamming(a.0@, b.0@) == 0 <==> a.0@ == b.0@,
{
    lemma_hamming_zero(a.0@, b.0@);
}

/// No two hashes differ in more bits than a hash has.
pub proof fn law_distance_at_most_hash_bits(a: ArtHash, b: ArtHash)
    ensures
        hamming(a.0@, b.0@) <= HASH_BITS,
{
    lemma_hamming_bound(a.0@, b.0@);
}

proof fn lemma_hex_of(bytes: Seq<u8>)
    ensures
        hex_of(bytes).len() == 2 * bytes.len(),
        forall|i: int| 0 <= i < bytes.len() ==> hex_of(bytes)[2 * i] == hex_digit((bytes[i] / 16) as nat)
            && hex_of(bytes)[2 * i + 1] == hex_digit((bytes[i] % 16) as nat),
    decreases bytes.len(),
{
    if bytes.len() > 0 {
        lemma_hex_of(bytes.drop_last());
        let h = hex_of(bytes);
        let p = hex_of(bytes.drop_last());
        assert forall|i: int| 0 <= i < bytes.len() implies h[2 * i] == hex_digit((bytes[i] / 16) as nat)
            && h[2 * i + 1] == hex_digit((bytes[i] % 16) as nat) by {
            if i < bytes.len() - 1 {
                assert(h[2 * i] == p[2 * i]);
                assert(h[2 * i + 1] == p[2 * i + 1]);
                assert(bytes.drop_last()[i] == bytes[i]);
            }
        }
    }
}

proof fn lemma_digit_round_trip(n: nat)
    requires
        n < 16,
    ensures
        digit_value(hex_digit(n)) == Some(n),
        hex_digit(n) != '+',
{
}

/// Rendering a hash as hex and reading it back gives the same hash.
pub proof fn law_hex_round_trips(h: ArtHash)
    ensures
        readable_hex(hex_of(h.0@)),
        forall|i: int| 0 <= i < HASH_BYTES ==> pair_value(hex_of(h.0@)[2 * i], hex_of(h.0@)[2 * i + 1]) == Some(
            #[trigger] h.0@[i],
        ),
{
    lemma_hex_of(h.0@);
    assert forall|i: int| 0 <= i < HASH_BYTES implies pair_value(hex_of(h.0@)[2 * i], hex_of(h.0@)[2 * i + 1]) == Some(
        #[trigger] h.0@[i],
    ) by {
        let b = h.0@[i];
        lemma_digit_round_trip((b / 16) as nat);
        lemma_digit_round_trip((b % 16) as nat);
    }
    let s = hex_of(h.0@);
    assert forall|i: int| 0 <= i < HASH_BYTES implies (#[trigger] pair_value(s[2 * i], s[2 * i + 1])) is Some by {
        assert(pair_value(s[2 * i], s[2 * i + 1]) == Some(h.0@[i]));
    }
}

/// A greyscale image, as the hasher wants it: a borrowed buffer of one byte per pixel, row by
/// row.
#[derive(Debug, Clone)]
pub struct GrayView<'a> {
    pub pixels: &'a [u8],
    pub width: u32,
    pub height: u32,
}

/// The pixel read at a position: coordinates past the edge clamp to it, and a position the
/// buffer does not reach reads as black.
pub open spec fn pixel_at(pixels: Seq<u8>, width: u32, height: u32, x: int, y: int) -> u8 {
    let last_x: int = if width == 0 { 0 } else { width - 1 };
    let last_y: int = if height == 0 { 0 } else { height - 1 };
    let cx = if x < last_x { x } else { last_x };
    let cy = if y < last_y { y } else { last_y };
    let index = cy * width + cx;
    if index < pixels.len() {
        pixels[index]
    } else {
        0
    }
}

impl<'a> GrayView<'a> {
    pub open spec fn pixel(&self, x: int, y: int) -> u8 {
        pixel_at(self.pixels@, self.width, self.height, x, y)
    }

    /// Wraps a buffer, checking it is the size it claims.
    pub fn new(pixels: &'a [u8], width: u32, height: u32) -> (r: Option<GrayView<'a>>)
        ensures
            r is Some <==> pixels@.len() >= width * height,
            r matches Some(v) ==> v.pixels@ == pixels@ && v.width == width && v.height == height,
    {
        assert(width as u64 * height as u64 <= u64::MAX) by (nonlinear_arith)
            requires width <= u32::MAX, height <= u32::MAX;
        if pixels.len() as u64 >= width as u64 * height as u64 {
            Some(GrayView { pixels, width, height })
        } else {
            None
        }
    }

    pub fn at(&self, x: u32, y: u32) -> (r: u8)
        ensures
            r == self.pixel(x as int, y as int),
    {
        let last_x = if self.width == 0 { 0 } else { self.width - 1 };
        let last_y = if self.height == 0 { 0 } else { self.height - 1 };
        let cx = if x < last_x { x } else { last_x };
        let cy = if y < last_y { y } else { last_y };
        assert(cy as u64 * self.width as u64 + cx as u64 <= u64::MAX) by (nonlinear_arith)
            requires cy <= u32::MAX, self.width <= u32::MAX, cx <= u32::MAX;
        let index = cy as u64 * self.width as u64 + cx as u64;
        if index < self.pixels.len() as u64 {
            self.pixels[index as usize]
        } else {
            0
        }
    }

    pub fn is_empty(&self) -> (r: bool)
        ensures
            r == (self.width == 0 || self.height == 0),
    {
        self.width == 0 || self.height == 0
    }
}

/// Columns of the sampling grid: one more than the hash grid, so every cell has a neighbour.
pub open spec fn grid_columns() -> int {
    HASH_GRID + 1
}

/// Where the `i`-th of `parts` equal bands of `extent` starts, and where its sampling stops:
/// at least one pixel wide, and never past the image.
pub open spec fn band(extent: u32, parts: int, i: int) -> (int, int) {
    let start = i * extent / parts;
    let next = (i + 1) * extent / parts;
    let end = if next > start + 1 { next } else { start + 1 };
    let limit: int = if extent > 1 { extent as int } else { 1 };
    (start, if end < limit { end } else { limit })
}

/// Brightness summed along a row, from column `x0` up to `xe`.
pub open spec fn row_sum(v: GrayView, y: int, x0: int, xe: int) -> int
    decreases xe - x0,
{
    if xe <= x0 {
        0
    } else {
        row_sum(v, y, x0, xe - 1) + v.pixel(xe - 1, y)
    }
}

/// Brightness summed over a rectangle.
pub open spec fn area_sum(v: GrayView, x0: int, xe: int, y0: int, ye: int) -> int
    decreases ye - y0,
{
    if ye <= y0 {
        0
    } else {
        area_sum(v, x0, xe, y0, ye - 1) + row_sum(v, ye - 1, x0, xe)
    }
}

/// Mean brightness of one cell of the sampling grid, rounded down; zero for a cell with no
/// pixel in it.
pub open spec fn cell_value(v: GrayView, column: int, row: int) -> int {
    let (x0, xe) = band(v.width, grid_columns(), column);
    let (y0, ye) = band(v.height, HASH_GRID as int, row);
    let count = if xe > x0 && ye > y0 { (xe - x0) * (ye - y0) } else { 0 };
    if count == 0 {
        0
    } else {
        area_sum(v, x0, xe, y0, ye) / count
    }
}

/// Bit `b` of the hash: the cell is brighter than its right-hand neighbour, cells counted row
/// by row.
pub open spec fn brighter(v: GrayView, b: int) -> bool {
    cell_value(v, b % HASH_GRID as int, b / HASH_GRID as int) > cell_value(v, b % HASH_GRID as int + 1, b / HASH_GRID as int)
}

/// The low `k` bits of byte `j` of the hash, least significant first.
pub open spec fn hash_byte(v: GrayView, j: int, k: int) -> nat
    decreases k,
{
    if k <= 0 {
        0
    } else {
        hash_byte(v, j, k - 1) + (if brighter(v, 8 * j + k - 1) { pow2_of(k - 1) } else { 0 })
    }
}

proof fn lemma_row_sum_bound(v: GrayView, y: int, x0: int, xe: int)
    ensures
        row_sum(v, y, x0, xe) <= 255 * (if xe > x0 { xe - x0 } else { 0 }),
    decreases xe - x0,
{
    if xe > x0 {
        lemma_row_sum_bound(v, y, x0, xe - 1);
    }
}

proof fn lemma_area_sum_bound(v: GrayView, x0: int, xe: int, y0: int, ye: int)
    requires
        xe > x0,
    ensures
        area_sum(v, x0, xe, y0, ye) <= 255 * (xe - x0) * (if ye > y0 { ye - y0 } else { 0 }),
    decreases ye - y0,
{
    if ye > y0 {
        lemma_area_sum_bound(v, x0, xe, y0, ye - 1);
        lemma_row_sum_bound(v, ye - 1, x0, xe);
        assert(255 * (xe - x0) * (ye - y0) == 255 * (xe - x0) * (ye - 1 - y0) + 255 * (xe - x0)) by (nonlinear_arith);
    }
}

fn band_of(extent: u32, parts: u64, i: u64) -> (r: (u32, u32))
    requires
        parts == 16 || parts == 17,
        i < parts,
    ensures
        r.0 as int == band(extent, parts as int, i as int).0,
        r.1 as int == band(extent, parts as int, i as int).1,
        r.0 <= extent,
{
    assert(i * extent <= parts * extent) by (nonlinear_arith)
        requires i < parts;
    assert((i + 1) * extent <= parts * extent) by (nonlinear_arith)
        requires i < parts;
    let start = i * extent as u64 / parts;
    let next = (i + 1) * extent as u64 / parts;
    assert(start <= extent) by (nonlinear_arith)
        requires start as int == (i as int) * (extent as int) / (parts as int), i < parts, parts > 0;
    assert(next <= extent) by (nonlinear_arith)
        requires next as int == (i as int + 1) * (extent as int) / (parts as int), i < parts, parts > 0;
    let end = if next > start + 1 { next } else { start + 1 };
    let limit: u64 = if extent > 1 { extent as u64 } else { 1 };
    (start as u32, (if end < limit { end } else { limit }) as u32)
}

/// Mean brightness of one cell of the sampling grid.
fn average_cell(image: &GrayView<'_>, column: u64, row: u64) -> (r: u32)
    requires
        column < 17,
        row < 16,
    ensures
        r == cell_value(*image, column as int, row as int),
        r <= 255,
{
    let (x0, xe) = band_of(image.width, 17, column);
    let (y0, ye) = band_of(image.height, 16, row);
    if !(xe > x0 && ye > y0) {
        return 0;
    }
    let w: u64 = (xe - x0) as u64;
    let h: u64 = (ye - y0) as u64;
    assert(w * h <= u32::MAX * u32::MAX) by (nonlinear_arith)
        requires w <= u32::MAX, h <= u32::MAX;
    let mut total: u128 = 0;
    let mut y = y0;
    while y < ye
        invariant
            y0 <= y <= ye,
            x0 < xe,
            w == xe - x0,
            total == area_sum(*image, x0 as int, xe as int, y0 as int, y as int),
        decreases ye - y,
    {
        let mut row_total: u128 = 0;
        let mut x = x0;
        proof {
            lemma_area_sum_bound(*image, x0 as int, xe as int, y0 as int, y as int);
            assert(255 * (xe - x0) * (y - y0) <= 255 * 0x1_0000_0000int * 0x1_0000_0000int) by (nonlinear_arith)
                requires xe - x0 <= 0x1_0000_0000int, y - y0 <= 0x1_0000_0000int, xe > x0, y >= y0;
        }
        while x < xe
            invariant
                x0 <= x <= xe,
                row_total == row_sum(*image, y as int, x0 as int, x as int),
                total == area_sum(*image, x0 as int, xe as int, y0 as int, y as int),
                total <= 255 * 0x1_0000_0000int * 0x1_0000_0000int,
            decreases xe - x,
        {
            proof {
                lemma_row_sum_bound(*image, y as int, x0 as int, x as int);
            }
            row_total = row_total + image.at(x, y) as u128;
            x = x + 1;
        }
        proof {
            lemma_row_sum_bound(*image, y as int, x0 as int, xe as int);
        }
        total = total + row_total;
        y = y + 1;
    }
    proof {
        lemma_area_sum_bound(*image, x0 as int, xe as int, y0 as int, ye as int);
        assert((total as int) / ((w as int) * (h as int)) <= 255) by (nonlinear_arith)
            requires total as int <= 255 * (w as int) * (h as int), w > 0, h > 0;
    }
    assert(w as u128 * h as u128 > 0) by (nonlinear_arith)
        requires w > 0, h > 0;
    let count: u128 = w as u128 * h as u128;
    (total / count) as u32
}

/// Computes the difference hash of an image.
///
/// The image is box-sampled down to a 17×16 grid first. Sampling by averaging a whole cell
/// rather than picking one pixel is what keeps camera noise and JPEG artefacts from flipping
/// bits: a single speckle moves a cell's average by very little. An empty image hashes to
/// zero.
pub fn hash_gray(image: &GrayView<'_>) -> (r: ArtHash)
    ensures
        image.width == 0 || image.height == 0 ==> forall|j: int| 0 <= j < HASH_BYTES ==> r.0@[j] == 0,
        image.width > 0 && image.height > 0 ==> forall|j: int| 0 <= j < HASH_BYTES ==> r.0@[j] == hash_byte(*image, j, 8),
{
    if image.is_empty() {
        return ArtHash::zero();
    }
    let mut cells: Vec<u32> = Vec::new();
    let mut i: u64 = 0;
    while i < 272
        invariant
            i <= 272,
            cells@.len() == i,
            forall|k: int| 0 <= k < i ==> cells@[k] == cell_value(*image, k % 17, k / 17),
        decreases 272 - i,
    {
        let value = average_cell(image, i % 17, i / 17);
        cells.push(value);
        i = i + 1;
    }
    let mut bytes = [0u8; HASH_BYTES];
    let mut j: usize = 0;
    while j < HASH_BYTES
        invariant
            j <= HASH_BYTES,
            bytes@.len() == HASH_BYTES,
            cells@.len() == 272,
            forall|k: int| 0 <= k < 272 ==> cells@[k] == cell_value(*image, k % 17, k / 17),
            forall|m: int| 0 <= m < j ==> bytes@[m] == hash_byte(*image, m, 8),
        decreases HASH_BYTES - j,
    {
        let mut byte: u32 = 0;
        let mut weight: u32 = 1;
        let mut k: usize = 0;
        proof {
            reveal_with_fuel(pow2_of, 9);
        }
        while k < 8
            invariant
                j < HASH_BYTES,
                k <= 8,
                weight == pow2_of(k as int),
                byte == hash_byte(*image, j as int, k as int),
                byte < weight,
                weight <= 256,
                k < 8 ==> weight <= 128,
                pow2_of(8) == 256,
                cells@.len() == 272,
                forall|c: int| 0 <= c < 272 ==> cells@[c] == cell_value(*image, c % 17, c / 17),
            decreases 8 - k,
        {
            let b = 8 * j + k;
            let row = b / 16;
            let column = b % 16;
            assert((row * 17 + column) % 17 == column && (row * 17 + column) / 17 == row) by (nonlinear_arith)
                requires column < 16, row >= 0;
            assert((row * 17 + column + 1) % 17 == column + 1 && (row * 17 + column + 1) / 17 == row) by (nonlinear_arith)
                requires column < 16, row >= 0;
            if cells[row * 17 + column] > cells[row * 17 + column + 1] {
                byte = byte + weight;
            }
            weight = weight * 2;
            k = k + 1;
            proof {
                reveal_with_fuel(pow2_of, 9);
                if k < 8 {
                    assert(pow2_of(k as int) <= 128);
                }
            }
        }
        bytes.set(j, byte as u8);
        j = j + 1;
    }
    ArtHash(bytes)
}

/// Grey level of one colour pixel, weighted for perceived brightness: an integer approximation
/// of the usual 0.299, 0.587 and 0.114.
pub open spec fn gray_of(r: u8, g: u8, b: u8) -> u8 {
    ((r * 77 + g * 150 + b * 29) / 256) as u8
}

/// Converts an RGBA buffer to greyscale into `out`, one byte per whole pixel; a partial pixel
/// at the end is dropped rather than read past.
pub fn rgba_to_gray(rgba: &[u8], out: &mut Vec<u8>)
    ensures
        final(out)@.len() == rgba@.len() / 4,
        forall|i: int| 0 <= i < rgba@.len() / 4 ==> #[trigger] final(out)@[i] == gray_of(
            rgba@[4 * i],
            rgba@[4 * i + 1],
            rgba@[4 * i + 2],
        ),
{
    out.clear();
    let len = rgba.len();
    let n = len / 4;
    let mut i: usize = 0;
    while i < n
        invariant
            n == rgba@.len() / 4,
            len == rgba@.len(),
            i <= n,
            out@.len() == i,
            forall|k: int| 0 <= k < i ==> #[trigger] out@[k] == gray_of(rgba@[4 * k], rgba@[4 * k + 1], rgba@[4 * k + 2]),
        decreases n - i,
    {
        assert(4 * i + 3 < len) by (nonlinear_arith)
            requires i < n, n == len / 4;
        let r = rgba[4 * i] as u32;
        let g = rgba[4 * i + 1] as u32;
        let b = rgba[4 * i + 2] as u32;
        out.push(((r * 77 + g * 150 + b * 29) / 256) as u8);
        i = i + 1;
    }
}


/// Every pixel of an image is `c`.
pub open spec fn flat(v: GrayView, c: u8) -> bool {
    forall|x: int, y: int| 0 <= x < v.width && 0 <= y < v.height ==> #[trigger] v.pixel(x, y) == c
}

proof fn lemma_band_inside(extent: u32, parts: int, i: int)
    requires
        extent >= 1,
        parts >= 1,
        0 <= i < parts,
    ensures
        0 <= band(extent, parts, i).0 < band(extent, parts, i).1 <= extent,
{
    let start = i * extent / parts;
    assert(0 <= start) by (nonlinear_arith)
        requires i >= 0, extent >= 1, parts >= 1, start == i * extent / parts;
    assert(start < extent) by (nonlinear_arith)
        requires 0 <= i < parts, extent >= 1, parts >= 1, start == i * extent / parts;
}

proof fn lemma_flat_row(v: GrayView, c: u8, y: int, x0: int, xe: int)
    requires
        flat(v, c),
        0 <= y < v.height,
        0 <= x0 <= xe <= v.width,
    ensures
        row_sum(v, y, x0, xe) == c * (xe - x0),
    decreases xe - x0,
{
    if xe > x0 {
        lemma_flat_row(v, c, y, x0, xe - 1);
        assert(v.pixel(xe - 1, y) == c);
        assert(c * (xe - x0) == c * (xe - 1 - x0) + c) by (nonlinear_arith);
        assert(row_sum(v, y, x0, xe) == row_sum(v, y, x0, xe - 1) + v.pixel(xe - 1, y));
    } else {
        assert(c * (xe - x0) == 0) by (nonlinear_arith)
            requires xe == x0;
    }
}

proof fn lemma_flat_area(v: GrayView, c: u8, x0: int, xe: int, y0: int, ye: int)
    requires
        flat(v, c),
        0 <= x0 <= xe <= v.width,
        0 <= y0 <= ye <= v.height,
    ensures
        area_sum(v, x0, xe, y0, ye) == c * ((xe - x0) * (ye - y0)),
    decreases ye - y0,
{
    if ye > y0 {
        lemma_flat_area(v, c, x0, xe, y0, ye - 1);
        lemma_flat_row(v, c, ye - 1, x0, xe);
        assert(c * ((xe - x0) * (ye - y0)) == c * ((xe - x0) * (ye - 1 - y0)) + c * (xe - x0)) by (nonlinear_arith);
        assert(area_sum(v, x0, xe, y0, ye) == area_sum(v, x0, xe, y0, ye - 1) + row_sum(v, ye - 1, x0, xe));
    } else {
        assert(c * ((xe - x0) * (ye - y0)) == 0) by (nonlinear_arith)
            requires ye == y0;
    }
}

proof fn lemma_flat_cell(v: GrayView, c: u8, column: int, row: int)
    requires
        flat(v, c),
        v.width >= 1,
        v.height >= 1,
        0 <= column < grid_columns(),
        0 <= row < HASH_GRID,
    ensures
        cell_value(v, column, row) == c,
{
    lemma_band_inside(v.width, grid_columns(), column);
    lemma_band_inside(v.height, HASH_GRID as int, row);
    let (x0, xe) = band(v.width, grid_columns(), column);
    let (y0, ye) = band(v.height, HASH_GRID as int, row);
    lemma_flat_area(v, c, x0, xe, y0, ye);
    let count = (xe - x0) * (ye - y0);
    assert(count > 0) by (nonlinear_arith)
        requires xe > x0, ye > y0, count == (xe - x0) * (ye - y0);
    assert((c * count) / count == c) by (nonlinear_arith)
        requires count > 0;
}

/// A flat image hashes to zero: no cell is brighter than its neighbour when every pixel is
/// the same.
pub proof fn law_a_flat_image_hashes_to_zero(v: GrayView, c: u8)
    requires
        v.width >= 1,
        v.height >= 1,
        flat(v, c),
    ensures
        forall|j: int| 0 <= j < HASH_BYTES ==> #[trigger] hash_byte(v, j, 8) == 0,
{
    assert forall|j: int| 0 <= j < HASH_BYTES implies #[trigger] hash_byte(v, j, 8) == 0 by {
        lemma_flat_bits(v, c, j, 8);
    }
}

proof fn lemma_flat_bits(v: GrayView, c: u8, j: int, k: int)
    requires
        v.width >= 1,
        v.height >= 1,
        flat(v, c),
        0 <= j < HASH_BYTES,
        0 <= k <= 8,
    ensures
        hash_byte(v, j, k) == 0,
    decreases k,
{
    if k > 0 {
        lemma_flat_bits(v, c, j, k - 1);
        let b = 8 * j + k - 1;
        assert(0 <= b < HASH_BITS);
        lemma_flat_cell(v, c, b % HASH_GRID as int, b / HASH_GRID as int);
        lemma_flat_cell(v, c, b % HASH_GRID as int + 1, b / HASH_GRID as int);
        assert(!brighter(v, b));
    }
}
} // verus!
