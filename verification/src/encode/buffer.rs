//! The byte buffer that a file is written into.

use crate::byte_order::{append_bytes, long_bytes, push_long, push_short, short_bytes};
use crate::encode::image_header::{
    header_bytes, EncodeEndianness, EndiannessSentinel, HEADER_SIZE, MAGIC,
};
use crate::ifd::get_len;
use crate::ifd::{rational_bytes, rationals_bytes, longs_bytes, shorts_bytes, FieldData, Values};
use crate::types::{Byte, Long, Short, URational};
use vstd::prelude::*;

verus! {

/// `n` zero bytes.
pub open spec fn zeros(n: int) -> Seq<u8> {
    Seq::new(n as nat, |i: int| 0u8)
}

/// `bytes` with one zero byte more if their number is odd.
pub open spec fn aligned(bytes: Seq<u8>) -> Seq<u8> {
    if bytes.len() % 2 == 1 {
        bytes.push(0u8)
    } else {
        bytes
    }
}

/// `bytes` with `src` written over the bytes from `at` on.
pub open spec fn patched(bytes: Seq<u8>, at: int, src: Seq<u8>) -> Seq<u8>
    recommends
        0 <= at,
        at + src.len() <= bytes.len(),
{
    bytes.take(at) + src + bytes.skip(at + src.len())
}

/// The four bytes of an entry that hold values of at most four bytes: the
/// values first, then zeros.
pub open spec fn inline_slot(bytes: Seq<u8>) -> Seq<u8>
    recommends
        bytes.len() <= 4,
{
    bytes + zeros(4 - bytes.len())
}

/// What the entry of a field holds in its last four bytes when the buffer
/// has `len` bytes: the values if they fit, else the next even offset,
/// which is where the values are then written.
pub open spec fn value_slot(little: bool, data: FieldData, len: int) -> Seq<u8> {
    if data.fits_inline() {
        inline_slot(data.bytes(little))
    } else {
        long_bytes(little, (len + len % 2) as u32)
    }
}

/// What is appended to a buffer of `len` bytes for the values of a field:
/// nothing if they fit in the entry, else a zero byte if `len` is odd and
/// the values.
pub open spec fn value_spill(little: bool, data: FieldData, len: int) -> Seq<u8> {
    if data.fits_inline() {
        Seq::empty()
    } else {
        zeros(len % 2) + data.bytes(little)
    }
}

/// Aligning what is aligned adds nothing.
pub proof fn lemma_aligned_idempotent(bytes: Seq<u8>)
    ensures
        aligned(bytes).len() % 2 == 0,
        aligned(aligned(bytes)) == aligned(bytes),
{
}

/// Writes `src` over the bytes of `bytes` from `at` on.
pub fn overwrite(bytes: &mut Vec<u8>, at: usize, src: &[u8])
    requires
        at + src@.len() <= old(bytes)@.len(),
    ensures
        final(bytes)@ == patched(old(bytes)@, at as int, src@),
        final(bytes)@.len() == old(bytes)@.len(),
{
    let len: usize = bytes.len();
    let mut i: usize = 0;
    while i < src.len()
        invariant
            i <= src.len(),
            at + src@.len() <= old(bytes)@.len(),
            bytes@.len() == old(bytes)@.len(),
            len == bytes@.len(),
            bytes@ == patched(old(bytes)@, at as int, src@.take(i as int)),
        decreases src.len() - i,
    {
        bytes[at + i] = src[i];
        assert(bytes@ =~= patched(old(bytes)@, at as int, src@.take(i + 1)));
        i += 1;
    }
    assert(src@.take(i as int) == src@);
}

/// A growing file: its bytes so far, and the byte order of its numbers.
pub struct TiffEncodeBuffer {
    bytes: Vec<u8>,
    little: bool,
}

impl View for TiffEncodeBuffer {
    type V = Seq<u8>;

    closed spec fn view(&self) -> Seq<u8> {
        self.bytes@
    }
}

impl TiffEncodeBuffer {
    /// Whether numbers are written least significant byte first.
    pub closed spec fn little(&self) -> bool {
        self.little
    }

    /// A buffer for a file in the byte order `E`. It holds the file
    /// header, with the first directory expected right after it.
    pub fn new<E: EncodeEndianness>() -> (r: Self)
        ensures
            r@ == header_bytes(E::little(), HEADER_SIZE as u32),
            r@.len() == HEADER_SIZE,
            r.little() == E::little(),
    {
        let mut ret = Self { bytes: Vec::new(), little: E::is_little() };
        // Endianness
        ret.append_short(E::get_sentinel());
        // Magic number
        ret.append_short(MAGIC);
        // Byte offset of first IFD (immediately after the header). This can be
        // overwritten later if necessary.
        ret.append_long(8);
        ret
    }

    /// The bytes of the file.
    pub fn to_bytes(self) -> (r: Vec<u8>)
        ensures
            r@ == self@,
    {
        self.bytes
    }

    /// Whether numbers are written least significant byte first.
    pub fn is_little(&self) -> (r: bool)
        ensures
            r == self.little(),
    {
        self.little
    }

    /// Writes the offset of the first directory into the header.
    pub fn set_first_ifd_offset(&mut self, offset: Long)
        requires
            old(self)@.len() >= HEADER_SIZE,
        ensures
            final(self).little() == old(self).little(),
            final(self)@ == patched(old(self)@, 4, long_bytes(old(self).little(), offset)),
            final(self)@.len() == old(self)@.len(),
    {
        let mut field: Vec<u8> = Vec::new();
        push_long(&mut field, self.little, offset);
        overwrite(&mut self.bytes, 4, field.as_slice());
    }

    /// Starts a directory of `fields` entries at the next even offset: its
    /// entry count, zeros in place of its entries, and a zero offset of the
    /// next directory. Returns where it starts.
    pub fn append_new_ifd(&mut self, fields: usize) -> (inx: usize)
        requires
            fields <= u16::MAX,
        ensures
            final(self).little() == old(self).little(),
            inx == aligned(old(self)@).len(),
            inx % 2 == 0,
            final(self)@ == aligned(old(self)@) + short_bytes(old(self).little(), fields as u16)
                + zeros(fields * 12 + 4),
    {
        let inx = self.align_and_get_len();
        // Write number of directory entries
        self.append_short(fields as u16);
        let ghost start = self@;
        // Reserve space for directory fields, and the next IFD offset
        let mut i: usize = 0;
        while i < fields * 12 + 4
            invariant
                fields <= u16::MAX,
                i <= fields * 12 + 4,
                self.little() == old(self).little(),
                self@ == start + zeros(i as int),
            decreases fields * 12 + 4 - i,
        {
            self.append_byte(0);
            assert(zeros(i as int).push(0u8) =~= zeros(i + 1));
            i += 1;
        }
        inx
    }

    /// Writes the offset of the next directory into the directory of
    /// `fields` entries that starts at `inx`.
    pub fn set_next_ifd_offset(&mut self, inx: usize, fields: usize, offset: Long)
        requires
            fields <= u16::MAX,
            inx + 2 + fields * 12 + 4 <= old(self)@.len(),
        ensures
            final(self).little() == old(self).little(),
            final(self)@ == patched(
                old(self)@,
                inx + 2 + fields * 12,
                long_bytes(old(self).little(), offset),
            ),
            final(self)@.len() == old(self)@.len(),
    {
        let len: usize = self.bytes.len();
        let mut field: Vec<u8> = Vec::new();
        push_long(&mut field, self.little, offset);
        overwrite(&mut self.bytes, inx + get_len(fields) - 4, field.as_slice());
    }

    /// Writes `src` over the bytes from `at` on.
    pub fn write_at(&mut self, at: usize, src: &[u8])
        requires
            at + src@.len() <= old(self)@.len(),
        ensures
            final(self).little() == old(self).little(),
            final(self)@ == patched(old(self)@, at as int, src@),
            final(self)@.len() == old(self)@.len(),
    {
        overwrite(&mut self.bytes, at, src);
    }

    /// Places the values of a field. Values that fit are returned as the
    /// last four bytes of the entry, filled up with zeros, and the buffer
    /// stays as it is. Other values are appended at the next even offset,
    /// and that offset is returned as those four bytes.
    pub fn append_ifd_value(&mut self, ifd_value: &Values) -> (offset: [u8; 4])
        requires
            !ifd_value@.fits_inline() ==> old(self)@.len() < u32::MAX,
        ensures
            final(self).little() == old(self).little(),
            offset@ == value_slot(old(self).little(), ifd_value@, old(self)@.len() as int),
            final(self)@ == old(self)@ + value_spill(
                old(self).little(),
                ifd_value@,
                old(self)@.len() as int,
            ),
            ifd_value@.fits_inline() ==> final(self)@ == old(self)@ && offset@ == inline_slot(
                ifd_value@.bytes(old(self).little()),
            ),
            !ifd_value@.fits_inline() ==> {
                let at = aligned(old(self)@).len();
                &&& at % 2 == 0
                &&& offset@ == long_bytes(old(self).little(), at as u32)
                &&& final(self)@.len() == at + ifd_value@.bytes(old(self).little()).len()
                &&& final(self)@.subrange(at as int, final(self)@.len() as int)
                    == ifd_value@.bytes(old(self).little())
            },
    {
        let little = self.little;
        let ghost before = self@;
        let ghost content = ifd_value@.bytes(little);
        let mut slot: Vec<u8> = Vec::new();
        match ifd_value {
            Values::Bytes(bytes) => {
                if bytes.len() <= 4 {
                    append_bytes(&mut slot, bytes.as_slice());
                } else {
                    push_long(&mut slot, little, self.align_and_get_len() as u32);
                    self.extend_bytes(bytes.as_slice());
                }
            },
            Values::ASCII(string) => {
                let text = string.as_str().as_bytes();
                if text.len() < 4 {
                    append_bytes(&mut slot, text);
                    slot.push(0);
                } else {
                    push_long(&mut slot, little, self.align_and_get_len() as u32);
                    self.extend_bytes(text);
                    // Terminating NUL char
                    self.append_byte(0);
                }
            },
            Values::Shorts(shorts) => {
                if shorts.len() <= 2 {
                    let mut i: usize = 0;
                    while i < shorts.len()
                        invariant
                            i <= shorts.len() <= 2,
                            slot@ == shorts_bytes(little, shorts@.take(i as int)),
                        decreases shorts.len() - i,
                    {
                        push_short(&mut slot, little, shorts[i]);
                        assert(shorts@.take(i + 1).drop_last() == shorts@.take(i as int));
                        i += 1;
                    }
                    assert(shorts@.take(i as int) == shorts@);
                    proof {
                        lemma_shorts_bytes_len(little, shorts@);
                    }
                } else {
                    push_long(&mut slot, little, self.align_and_get_len() as u32);
                    let ghost start = self@;
                    let mut i: usize = 0;
                    while i < shorts.len()
                        invariant
                            i <= shorts.len(),
                            self.little() == little,
                            self@ == start + shorts_bytes(little, shorts@.take(i as int)),
                        decreases shorts.len() - i,
                    {
                        self.append_short(shorts[i]);
                        assert(shorts@.take(i + 1).drop_last() == shorts@.take(i as int));
                        i += 1;
                    }
                    assert(shorts@.take(i as int) == shorts@);
                }
            },
            Values::Longs(longs) => {
                if longs.len() <= 1 {
                    let mut i: usize = 0;
                    while i < longs.len()
                        invariant
                            i <= longs.len() <= 1,
                            slot@ == longs_bytes(little, longs@.take(i as int)),
                        decreases longs.len() - i,
                    {
                        push_long(&mut slot, little, longs[i]);
                        assert(longs@.take(i + 1).drop_last() == longs@.take(i as int));
                        i += 1;
                    }
                    assert(longs@.take(i as int) == longs@);
                    proof {
                        lemma_longs_bytes_len(little, longs@);
                    }
                } else {
                    push_long(&mut slot, little, self.align_and_get_len() as u32);
                    let ghost start = self@;
                    let mut i: usize = 0;
                    while i < longs.len()
                        invariant
                            i <= longs.len(),
                            self.little() == little,
                            self@ == start + longs_bytes(little, longs@.take(i as int)),
                        decreases longs.len() - i,
                    {
                        self.append_long(longs[i]);
                        assert(longs@.take(i + 1).drop_last() == longs@.take(i as int));
                        i += 1;
                    }
                    assert(longs@.take(i as int) == longs@);
                }
            },
            Values::Rationals(rationals) => {
                push_long(&mut slot, little, self.align_and_get_len() as u32);
                let ghost start = self@;
                let mut i: usize = 0;
                while i < rationals.len()
                    invariant
                        i <= rationals.len(),
                        self.little() == little,
                        self@ == start + rationals_bytes(little, rationals@.take(i as int)),
                    decreases rationals.len() - i,
                {
                    self.append_urational(rationals[i]);
                    assert(rationals@.take(i + 1).drop_last() == rationals@.take(i as int));
                    i += 1;
                }
                assert(rationals@.take(i as int) == rationals@);
            },
        }
        proof {
            if ifd_value@.fits_inline() {
                assert(slot@ == content);
                assert(self@ =~= before + Seq::<u8>::empty());
            } else {
                assert(aligned(before) =~= before + zeros(before.len() as int % 2));
                assert(self@ =~= before + (zeros(before.len() as int % 2) + content));
                assert(self@.subrange(aligned(before).len() as int, self@.len() as int)
                    =~= content);
            }
        }
        while slot.len() < 4
            invariant
                slot@.len() <= 4,
                ifd_value@.fits_inline() ==> content.len() <= slot@.len() && slot@ == content
                    + zeros(slot@.len() - content.len()),
                !ifd_value@.fits_inline() ==> slot@ == long_bytes(
                    little,
                    aligned(before).len() as u32,
                ),
            decreases 4 - slot.len(),
        {
            slot.push(0);
            assert(ifd_value@.fits_inline() ==> slot@ =~= content + zeros(
                slot@.len() - content.len(),
            ));
        }
        let offset = [slot[0], slot[1], slot[2], slot[3]];
        assert(offset@ =~= slot@);
        offset
    }

    /// Appends one byte.
    pub fn append_byte(&mut self, byte: Byte)
        ensures
            final(self).little() == old(self).little(),
            final(self)@ == old(self)@.push(byte),
    {
        self.bytes.push(byte)
    }

    /// Appends the two bytes of `short` in the byte order of the file.
    pub fn append_short(&mut self, short: Short)
        ensures
            final(self).little() == old(self).little(),
            final(self)@ == old(self)@ + short_bytes(old(self).little(), short),
    {
        push_short(&mut self.bytes, self.little, short)
    }

    /// Appends the four bytes of `long` in the byte order of the file.
    pub fn append_long(&mut self, long: Long)
        ensures
            final(self).little() == old(self).little(),
            final(self)@ == old(self)@ + long_bytes(old(self).little(), long),
    {
        push_long(&mut self.bytes, self.little, long)
    }

    /// Appends a fraction: its numerator, then its denominator.
    pub fn append_urational(&mut self, urational: URational)
        ensures
            final(self).little() == old(self).little(),
            final(self)@ == old(self)@ + rational_bytes(old(self).little(), urational),
    {
        push_long(&mut self.bytes, self.little, urational.numerator);
        push_long(&mut self.bytes, self.little, urational.denominator);
        assert(self@ =~= old(self)@ + rational_bytes(old(self).little(), urational));
    }

    /// Appends `bytes`.
    pub fn extend_bytes(&mut self, bytes: &[u8])
        ensures
            final(self).little() == old(self).little(),
            final(self)@ == old(self)@ + bytes@,
    {
        append_bytes(&mut self.bytes, bytes)
    }

    /// The byte at `index`, if there is one.
    pub fn get(&self, index: usize) -> (r: Option<u8>)
        ensures
            r == if index < self@.len() {
                Some(self@[index as int])
            } else {
                None
            },
    {
        if index < self.bytes.len() {
            Some(self.bytes[index])
        } else {
            None
        }
    }

    /// Puts `byte` at `index`, if there is a byte; says whether there was.
    pub fn set(&mut self, index: usize, byte: u8) -> (r: bool)
        ensures
            final(self).little() == old(self).little(),
            r == (index < old(self)@.len()),
            final(self)@ == if r {
                old(self)@.update(index as int, byte)
            } else {
                old(self)@
            },
    {
        if index < self.bytes.len() {
            self.bytes[index] = byte;
            true
        } else {
            false
        }
    }

    /// The number of bytes.
    pub fn len(&self) -> (r: usize)
        ensures
            r == self@.len(),
    {
        self.bytes.len()
    }

    /// Appends a zero byte if the number of bytes is odd; returns the
    /// number of bytes afterwards, which is even.
    pub fn align_and_get_len(&mut self) -> (r: usize)
        ensures
            final(self).little() == old(self).little(),
            final(self)@ == aligned(old(self)@),
            r == final(self)@.len(),
            r % 2 == 0,
    {
        if self.bytes.len() % 2 == 1 {
            self.append_byte(0)
        }
        self.len()
    }
}

/// Each short takes two bytes.
pub proof fn lemma_shorts_bytes_len(little: bool, shorts: Seq<u16>)
    ensures
        shorts_bytes(little, shorts).len() == 2 * shorts.len(),
    decreases shorts.len(),
{
    if shorts.len() > 0 {
        lemma_shorts_bytes_len(little, shorts.drop_last());
    }
}

/// Each long takes four bytes.
pub proof fn lemma_longs_bytes_len(little: bool, longs: Seq<u32>)
    ensures
        longs_bytes(little, longs).len() == 4 * longs.len(),
    decreases longs.len(),
{
    if longs.len() > 0 {
        lemma_longs_bytes_len(little, longs.drop_last());
    }
}

/// Each fraction takes eight bytes.
pub proof fn lemma_rationals_bytes_len(little: bool, rationals: Seq<URational>)
    ensures
        rationals_bytes(little, rationals).len() == 8 * rationals.len(),
    decreases rationals.len(),
{
    if rationals.len() > 0 {
        lemma_rationals_bytes_len(little, rationals.drop_last());
    }
}

} // verus!
