//! Samples narrower than a byte, packed into bytes and taken out again.
//!
//! Bits are packed eight to a byte, the first in the highest bit; half
//! bytes two to a byte, the first in the high half. A last byte that is not
//! filled has zeros in its low bits.

use vstd::prelude::*;

verus! {

// ---------------------------------------------------------------------------
// Bits
// ---------------------------------------------------------------------------

/// The bit at `k` as a number; 0 beyond the end of `bits`.
pub open spec fn bit_at(bits: Seq<bool>, k: int) -> int {
    if 0 <= k < bits.len() && bits[k] {
        1
    } else {
        0
    }
}

/// The number that the first `n` bits from `start` spell, highest bit first.
pub open spec fn bits_number(bits: Seq<bool>, start: int, n: int) -> int
    decreases n,
{
    if n <= 0 {
        0
    } else {
        2 * bits_number(bits, start, n - 1) + bit_at(bits, start + n - 1)
    }
}

/// Byte `i` of the packed form of `bits`.
pub open spec fn byte_of_bits(bits: Seq<bool>, i: int) -> u8 {
    bits_number(bits, 8 * i, 8) as u8
}

/// `bits` packed eight to a byte, the first bit highest, the last byte
/// filled up with zeros.
pub open spec fn packed_bits(bits: Seq<bool>) -> Seq<u8> {
    Seq::new(((bits.len() + 7) / 8) as nat, |i: int| byte_of_bits(bits, i))
}

/// The value of bit `j` of a byte, `j` counted from the highest bit.
pub open spec fn bit_weight(j: int) -> int {
    if j == 0 {
        128
    } else if j == 1 {
        64
    } else if j == 2 {
        32
    } else if j == 3 {
        16
    } else if j == 4 {
        8
    } else if j == 5 {
        4
    } else if j == 6 {
        2
    } else {
        1
    }
}

/// Bit `j` of `byte`, counted from the highest bit.
pub open spec fn bit_of_byte(byte: u8, j: int) -> bool {
    (byte as int / bit_weight(j)) % 2 == 1
}

/// The bits of `bytes`, eight for each byte, highest first.
pub open spec fn unpacked_bits(bytes: Seq<u8>) -> Seq<bool> {
    Seq::new(8 * bytes.len(), |k: int| bit_of_byte(bytes[k / 8], k % 8))
}

/// Eight bits spell a number below 256.
pub proof fn lemma_bits_number_bound(bits: Seq<bool>, start: int, n: int)
    requires
        0 <= n <= 8,
    ensures
        0 <= bits_number(bits, start, n) < bit_weight(8 - n) * 2 || n == 0,
        0 <= bits_number(bits, start, n) < 256,
    decreases n,
{
    if n > 0 {
        lemma_bits_number_bound(bits, start, n - 1);
    }
}

/// Each bit of a packed byte is the bit that was packed there.
pub proof fn lemma_bit_of_packed(bits: Seq<bool>, i: int, j: int)
    requires
        0 <= j < 8,
    ensures
        bit_of_byte(byte_of_bits(bits, i), j) == (bit_at(bits, 8 * i + j) == 1),
{
    reveal_with_fuel(bits_number, 9);
}

/// Unpacking packed bits gives the bits back, followed by the zeros that
/// filled the last byte.
pub proof fn lemma_unpacked_packed_bits(bits: Seq<bool>)
    ensures
        unpacked_bits(packed_bits(bits)).len() == (bits.len() + 7) / 8 * 8,
        unpacked_bits(packed_bits(bits)) == bits + Seq::new(
            ((bits.len() + 7) / 8 * 8 - bits.len()) as nat,
            |k: int| false,
        ),
{
    let packed = packed_bits(bits);
    let back = unpacked_bits(packed);
    let padded = bits + Seq::new(((bits.len() + 7) / 8 * 8 - bits.len()) as nat, |k: int| false);
    assert(back.len() == padded.len());
    assert forall|k: int| 0 <= k < back.len() implies back[k] == padded[k] by {
        lemma_bit_of_packed(bits, k / 8, k % 8);
        assert(8 * (k / 8) + k % 8 == k);
    }
    assert(back =~= padded);
}

/// Packs bits into bytes, the first bit highest.
pub struct BitPacker {
    bits: Vec<bool>,
}

impl BitPacker {
    /// The bits that the packer holds.
    pub closed spec fn view(&self) -> Seq<bool> {
        self.bits@
    }

    /// A packer for `bits`.
    pub fn new(bits: Vec<bool>) -> (r: Self)
        ensures
            r@ == bits@,
    {
        Self { bits }
    }

    /// The packed bytes.
    pub fn pack(&self) -> (r: Vec<u8>)
        ensures
            r@ == packed_bits(self@),
    {
        pack_bits(&self.bits)
    }
}

/// `bits` packed eight to a byte.
pub fn pack_bits(bits: &Vec<bool>) -> (r: Vec<u8>)
    ensures
        r@ == packed_bits(bits@),
{
    let mut out: Vec<u8> = Vec::new();
    let n: usize = bits.len();
    let count: usize = if n % 8 == 0 {
        n / 8
    } else {
        n / 8 + 1
    };
    let mut i: usize = 0;
    while i < count
        invariant
            n == bits.len(),
            count == (n + 7) / 8,
            i <= count,
            out@.len() == i,
            forall|t: int| 0 <= t < out@.len() ==> out@[t] == byte_of_bits(bits@, t),
        decreases count - i,
    {
        let k: usize = 8 * i;
        let mut byte: u8 = 0;
        let mut j: usize = 0;
        while j < 8
            invariant
                j <= 8,
                n == bits.len(),
                k < n,
                byte == bits_number(bits@, k as int, j as int),
            decreases 8 - j,
        {
            let bit: u8 = if j < n - k && bits[k + j] {
                1
            } else {
                0
            };
            proof {
                lemma_bits_number_bound(bits@, k as int, j as int);
                lemma_bits_number_bound(bits@, k as int, j + 1);
            }
            byte = byte * 2 + bit;
            j += 1;
        }
        out.push(byte);
        i += 1;
    }
    assert(out@ =~= packed_bits(bits@));
    out
}

/// The value of bit `j` of a byte, `j` counted from the highest bit.
pub fn weight_of_bit(j: usize) -> (w: u8)
    requires
        j < 8,
    ensures
        w == bit_weight(j as int),
{
    if j == 0 {
        128
    } else if j == 1 {
        64
    } else if j == 2 {
        32
    } else if j == 3 {
        16
    } else if j == 4 {
        8
    } else if j == 5 {
        4
    } else if j == 6 {
        2
    } else {
        1
    }
}

/// The bits of `bytes`, eight for each byte, highest first.
pub fn unpack_bits(bytes: &[u8]) -> (r: Vec<bool>)
    requires
        bytes@.len() * 8 <= usize::MAX,
    ensures
        r@ == unpacked_bits(bytes@),
{
    let mut out: Vec<bool> = Vec::new();
    let mut i: usize = 0;
    while i < bytes.len()
        invariant
            i <= bytes.len(),
            out@.len() == 8 * i,
            forall|k: int| 0 <= k < out@.len() ==> out@[k] == bit_of_byte(bytes@[k / 8], k % 8),
        decreases bytes.len() - i,
    {
        let byte = bytes[i];
        let mut j: usize = 0;
        while j < 8
            invariant
                j <= 8,
                i < bytes.len(),
                byte == bytes@[i as int],
                out@.len() == 8 * i + j,
                forall|k: int|
                    0 <= k < out@.len() ==> out@[k] == bit_of_byte(bytes@[k / 8], k % 8),
            decreases 8 - j,
        {
            out.push((byte / weight_of_bit(j)) % 2 == 1);
            j += 1;
        }
        i += 1;
    }
    assert(out@ =~= unpacked_bits(bytes@));
    out
}

// ---------------------------------------------------------------------------
// Half bytes
// ---------------------------------------------------------------------------

/// Every element is below 16.
pub open spec fn all_half_bytes(s: Seq<u8>) -> bool {
    forall|i: int| 0 <= i < s.len() ==> s[i] <= 15
}

/// Byte `i` of the packed form of `halves`.
pub open spec fn byte_of_halves(halves: Seq<u8>, i: int) -> u8 {
    let low = if 2 * i + 1 < halves.len() {
        halves[2 * i + 1] as int
    } else {
        0
    };
    (16 * halves[2 * i] + low) as u8
}

/// `halves` packed two to a byte, the first in the high half, the last byte
/// filled up with a zero.
pub open spec fn packed_halves(halves: Seq<u8>) -> Seq<u8> {
    Seq::new(((halves.len() + 1) / 2) as nat, |i: int| byte_of_halves(halves, i))
}

/// The half bytes of `bytes`, two for each byte, high half first.
pub open spec fn unpacked_halves(bytes: Seq<u8>) -> Seq<u8> {
    Seq::new(
        2 * bytes.len(),
        |k: int|
            if k % 2 == 0 {
                bytes[k / 2] / 16
            } else {
                bytes[k / 2] % 16
            },
    )
}

/// Unpacking packed half bytes gives them back, followed by the zero that
/// filled the last byte.
pub proof fn lemma_unpacked_packed_halves(halves: Seq<u8>)
    requires
        all_half_bytes(halves),
    ensures
        unpacked_halves(packed_halves(halves)) == halves + Seq::new(
            (halves.len() % 2) as nat,
            |k: int| 0u8,
        ),
{
    let back = unpacked_halves(packed_halves(halves));
    let padded = halves + Seq::new((halves.len() % 2) as nat, |k: int| 0u8);
    assert(back.len() == padded.len());
    assert forall|k: int| 0 <= k < back.len() implies back[k] == padded[k] by {
        let i = k / 2;
        assert(halves[2 * i] <= 15);
        if 2 * i + 1 < halves.len() {
            assert(halves[2 * i + 1] <= 15);
        }
    }
    assert(back =~= padded);
}

/// Packs half bytes into bytes, the first in the high half.
pub struct HalfBytePacker {
    halves: Vec<u8>,
}

impl HalfBytePacker {
    /// The half bytes that the packer holds.
    pub closed spec fn view(&self) -> Seq<u8> {
        self.halves@
    }

    /// A packer for `halves`.
    pub fn new(halves: Vec<u8>) -> (r: Self)
        ensures
            r@ == halves@,
    {
        Self { halves }
    }

    /// The packed bytes.
    pub fn pack(&self) -> (r: Vec<u8>)
        requires
            all_half_bytes(self@),
        ensures
            r@ == packed_halves(self@),
    {
        pack_halves(&self.halves)
    }
}

/// `halves` packed two to a byte.
pub fn pack_halves(halves: &Vec<u8>) -> (r: Vec<u8>)
    requires
        all_half_bytes(halves@),
    ensures
        r@ == packed_halves(halves@),
{
    let mut out: Vec<u8> = Vec::new();
    let n: usize = halves.len();
    let mut i: usize = 0;
    while i < (n - n / 2)
        invariant
            n == halves.len(),
            i <= n - n / 2,
            n - n / 2 == (n + 1) / 2,
            all_half_bytes(halves@),
            out@.len() == i,
            forall|t: int| 0 <= t < i ==> out@[t] == byte_of_halves(halves@, t),
        decreases n - n / 2 - i,
    {
        let high: u8 = halves[2 * i];
        let low: u8 = if 2 * i + 1 < n {
            halves[2 * i + 1]
        } else {
            0
        };
        out.push(16 * high + low);
        i += 1;
    }
    assert(out@ =~= packed_halves(halves@));
    out
}

/// The half bytes of `bytes`, two for each byte, high half first.
pub fn unpack_halves(bytes: &[u8]) -> (r: Vec<u8>)
    ensures
        r@ == unpacked_halves(bytes@),
        all_half_bytes(r@),
{
    let mut out: Vec<u8> = Vec::new();
    let mut i: usize = 0;
    while i < bytes.len()
        invariant
            i <= bytes.len(),
            out@.len() == 2 * i,
            forall|k: int|
                0 <= k < out@.len() ==> out@[k] == if k % 2 == 0 {
                    bytes@[k / 2] / 16
                } else {
                    bytes@[k / 2] % 16
                },
        decreases bytes.len() - i,
    {
        out.push(bytes[i] / 16);
        out.push(bytes[i] % 16);
        i += 1;
    }
    assert(out@ =~= unpacked_halves(bytes@));
    out
}

// ---------------------------------------------------------------------------
// Rows
// ---------------------------------------------------------------------------

/// The first `rows` rows of `width` bits each, each row packed by itself,
/// so that every row begins a byte.
pub open spec fn rows_of_bits(bits: Seq<bool>, width: int, rows: int) -> Seq<u8>
    decreases rows,
{
    if rows <= 0 {
        Seq::empty()
    } else {
        rows_of_bits(bits, width, rows - 1) + packed_bits(
            bits.subrange((rows - 1) * width, rows * width),
        )
    }
}

/// The first `rows` rows of `width` half bytes each, each row packed by
/// itself, so that every row begins a byte.
pub open spec fn rows_of_halves(halves: Seq<u8>, width: int, rows: int) -> Seq<u8>
    decreases rows,
{
    if rows <= 0 {
        Seq::empty()
    } else {
        rows_of_halves(halves, width, rows - 1) + packed_halves(
            halves.subrange((rows - 1) * width, rows * width),
        )
    }
}

/// Packs `rows` rows of `width` bits, each row by itself.
pub fn pack_bit_rows(bits: &Vec<bool>, width: usize, rows: usize) -> (r: Vec<u8>)
    requires
        bits@.len() == width * rows,
    ensures
        r@ == rows_of_bits(bits@, width as int, rows as int),
{
    let mut out: Vec<u8> = Vec::new();
    let count: usize = bits.len();
    let mut y: usize = 0;
    while y < rows
        invariant
            y <= rows,
            count == bits@.len(),
            bits@.len() == width * rows,
            out@ == rows_of_bits(bits@, width as int, y as int),
        decreases rows - y,
    {
        proof {
            crate::lemma_row_in_bounds(width as int, rows as int, y as int);
            assert(width * rows == rows * width) by (nonlinear_arith);
        }
        let start: usize = y * width;
        let mut row: Vec<bool> = Vec::new();
        let mut x: usize = 0;
        while x < width
            invariant
                x <= width,
                start + width <= bits@.len(),
                count == bits@.len(),
                row@ == bits@.subrange(start as int, start + x),
            decreases width - x,
        {
            row.push(bits[start + x]);
            assert(row@ =~= bits@.subrange(start as int, start + x + 1));
            x += 1;
        }
        let packed = BitPacker::new(row).pack();
        crate::byte_order::append_bytes(&mut out, packed.as_slice());
        y += 1;
    }
    out
}

/// Packs `rows` rows of `width` half bytes, each row by itself.
pub fn pack_half_rows(halves: &Vec<u8>, width: usize, rows: usize) -> (r: Vec<u8>)
    requires
        halves@.len() == width * rows,
        all_half_bytes(halves@),
    ensures
        r@ == rows_of_halves(halves@, width as int, rows as int),
{
    let mut out: Vec<u8> = Vec::new();
    let count: usize = halves.len();
    let mut y: usize = 0;
    while y < rows
        invariant
            y <= rows,
            count == halves@.len(),
            halves@.len() == width * rows,
            all_half_bytes(halves@),
            out@ == rows_of_halves(halves@, width as int, y as int),
        decreases rows - y,
    {
        proof {
            crate::lemma_row_in_bounds(width as int, rows as int, y as int);
            assert(width * rows == rows * width) by (nonlinear_arith);
        }
        let start: usize = y * width;
        let mut row: Vec<u8> = Vec::new();
        let mut x: usize = 0;
        while x < width
            invariant
                x <= width,
                start + width <= halves@.len(),
                count == halves@.len(),
                all_half_bytes(halves@),
                row@ == halves@.subrange(start as int, start + x),
            decreases width - x,
        {
            row.push(halves[start + x]);
            assert(row@ =~= halves@.subrange(start as int, start + x + 1));
            x += 1;
        }
        let packer = HalfBytePacker::new(row);
        assert(all_half_bytes(packer@)) by {
            assert forall|i: int| 0 <= i < packer@.len() implies packer@[i] <= 15 by {
                assert(packer@[i] == halves@[start + i]);
            }
        }
        let packed = packer.pack();
        crate::byte_order::append_bytes(&mut out, packed.as_slice());
        y += 1;
    }
    out
}

} // verus!
