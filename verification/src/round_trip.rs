//! What is written is read back: values, fields, directories, files.

pub mod images;

use crate::byte_order::{
    lemma_long_round_trip, lemma_short_round_trip, long_bytes, long_from_bytes, short_bytes,
    short_from_bytes,
};
use crate::decode::{
    chain_decoded, compression_of, decoded, decoded_image, field_read, fields_read, header_order,
    ifd_at, image_info, photo_interp_of, record_at, required_number, resolution_info, samples_of,
    strips_data, strips_info, visited_ok, with_directory, DecodeError, Decoded, DecodedView,
    FieldsRead, IfdView, InfoView,
};
use crate::decode::compression::{decompressed, lemma_codec_round_trip};
use crate::decode::tiff_field::{
    field_data, fits_in_entry, has_nul, longs_from_bytes, numbers, position_from,
    rationals_from_bytes, seven_bit, shorts_from_bytes, typed_values, value_region, values_read,
};
use crate::encode::{
    appended_fields, encoded_file, ifd_start, image_appended, layout_fields, layout_fits,
    strip_bytes, strip_start, unit_resolution, StripLayout,
};
use crate::encode::buffer::{
    aligned, lemma_longs_bytes_len, lemma_rationals_bytes_len, lemma_shorts_bytes_len, value_slot,
    value_spill, zeros,
};
use crate::encode::ifd::{
    directory_bytes, lemma_field_bytes_len, lemma_placed_records_len, lemma_placed_step,
    lemma_value_slot_len, placed, record_bytes,
};
use crate::encode::image_header::header_bytes;
use crate::ifd::{
    lemma_tag_repr_round_trip, lemma_type_repr_round_trip, longs_bytes, rationals_bytes,
    shorts_bytes, spec_get_len, tags, tags_ascending, Field, FieldData, Tag,
};
use crate::types::URational;
use vstd::prelude::*;

verus! {

// ---------------------------------------------------------------------------
// Values
// ---------------------------------------------------------------------------

/// The shorts that were written are the shorts that are read.
pub proof fn lemma_shorts_round_trip(little: bool, shorts: Seq<u16>)
    ensures
        shorts_from_bytes(little, shorts_bytes(little, shorts)) == shorts,
    decreases shorts.len(),
{
    let bytes = shorts_bytes(little, shorts);
    lemma_shorts_bytes_len(little, shorts);
    if shorts.len() > 0 {
        let before = shorts.drop_last();
        let head = shorts_bytes(little, before);
        lemma_shorts_round_trip(little, before);
        lemma_shorts_bytes_len(little, before);
        lemma_short_round_trip(little, shorts.last());
        let read = shorts_from_bytes(little, bytes);
        assert forall|i: int| 0 <= i < shorts.len() implies read[i] == shorts[i] by {
            if i < before.len() {
                assert(bytes.subrange(2 * i, 2 * i + 2) == head.subrange(2 * i, 2 * i + 2));
                assert(shorts_from_bytes(little, head)[i] == before[i]);
            } else {
                assert(bytes.subrange(2 * i, 2 * i + 2) == short_bytes(little, shorts.last()));
            }
        }
        assert(read =~= shorts);
    } else {
        assert(shorts_from_bytes(little, bytes) =~= shorts);
    }
}

/// The longs that were written are the longs that are read.
pub proof fn lemma_longs_round_trip(little: bool, longs: Seq<u32>)
    ensures
        longs_from_bytes(little, longs_bytes(little, longs)) == longs,
    decreases longs.len(),
{
    let bytes = longs_bytes(little, longs);
    lemma_longs_bytes_len(little, longs);
    if longs.len() > 0 {
        let before = longs.drop_last();
        let head = longs_bytes(little, before);
        lemma_longs_round_trip(little, before);
        lemma_longs_bytes_len(little, before);
        lemma_long_round_trip(little, longs.last());
        let read = longs_from_bytes(little, bytes);
        assert forall|i: int| 0 <= i < longs.len() implies read[i] == longs[i] by {
            if i < before.len() {
                assert(bytes.subrange(4 * i, 4 * i + 4) == head.subrange(4 * i, 4 * i + 4));
                assert(longs_from_bytes(little, head)[i] == before[i]);
            } else {
                assert(bytes.subrange(4 * i, 4 * i + 4) == long_bytes(little, longs.last()));
            }
        }
        assert(read =~= longs);
    } else {
        assert(longs_from_bytes(little, bytes) =~= longs);
    }
}

/// The fractions that were written are the fractions that are read.
pub proof fn lemma_rationals_round_trip(little: bool, rationals: Seq<URational>)
    ensures
        rationals_from_bytes(little, rationals_bytes(little, rationals)) == rationals,
    decreases rationals.len(),
{
    let bytes = rationals_bytes(little, rationals);
    lemma_rationals_bytes_len(little, rationals);
    if rationals.len() > 0 {
        let before = rationals.drop_last();
        let head = rationals_bytes(little, before);
        let last = rationals.last();
        lemma_rationals_round_trip(little, before);
        lemma_rationals_bytes_len(little, before);
        lemma_long_round_trip(little, last.numerator);
        lemma_long_round_trip(little, last.denominator);
        let read = rationals_from_bytes(little, bytes);
        assert forall|i: int| 0 <= i < rationals.len() implies read[i] == rationals[i] by {
            if i < before.len() {
                assert(bytes.subrange(8 * i, 8 * i + 4) == head.subrange(8 * i, 8 * i + 4));
                assert(bytes.subrange(8 * i + 4, 8 * i + 8) == head.subrange(
                    8 * i + 4,
                    8 * i + 8,
                ));
                assert(rationals_from_bytes(little, head)[i] == before[i]);
            } else {
                assert(bytes.subrange(8 * i, 8 * i + 4) == long_bytes(little, last.numerator));
                assert(bytes.subrange(8 * i + 4, 8 * i + 8) == long_bytes(
                    little,
                    last.denominator,
                ));
            }
        }
        assert(read =~= rationals);
    } else {
        assert(rationals_from_bytes(little, bytes) =~= rationals);
    }
}

/// The values can be written and read back: there are at most 2³² − 1 of
/// them, and a string holds no NUL and only bytes below 128.
pub open spec fn readable(data: FieldData) -> bool {
    &&& data.count() <= u32::MAX
    &&& data matches FieldData::ASCII(s) ==> !has_nul(s) && seven_bit(s)
}

/// The values that were written are the values that are read.
pub proof fn lemma_typed_values_round_trip(little: bool, data: FieldData)
    requires
        readable(data),
    ensures
        typed_values(little, data.field_type(), data.bytes(little)) == Ok::<
            FieldData,
            DecodeError,
        >(data),
{
    match data {
        FieldData::Bytes(b) => {},
        FieldData::ASCII(s) => {
            let bytes = s.push(0u8);
            assert(bytes.drop_last() == s);
            assert(seven_bit(bytes)) by {
                assert forall|i: int| 0 <= i < bytes.len() implies bytes[i] < 128 by {
                    if i < s.len() {
                        assert(bytes[i] == s[i]);
                    }
                }
            }
        },
        FieldData::Shorts(s) => {
            lemma_shorts_round_trip(little, s);
        },
        FieldData::Longs(l) => {
            lemma_longs_round_trip(little, l);
        },
        FieldData::Rationals(r) => {
            lemma_rationals_round_trip(little, r);
        },
    }
}

// ---------------------------------------------------------------------------
// Fields
// ---------------------------------------------------------------------------

/// A record that was written for a field when the buffer had `len` bytes,
/// with the values of the field where the record says, is read as the
/// field. Values that fit stand in the record; the others stand at the
/// even offset that the record holds.
pub proof fn lemma_field_read_back(
    file: Seq<u8>,
    little: bool,
    field: Field,
    record: Seq<u8>,
    len: int,
)
    requires
        readable(field.data),
        0 <= len,
        !field.data.fits_inline() ==> len + len % 2 <= u32::MAX,
        record == record_bytes(little, field, value_slot(little, field.data, len)),
        !field.data.fits_inline() ==> {
            &&& len + len % 2 + field.data.bytes(little).len() <= file.len()
            &&& file.subrange(len + len % 2, len + len % 2 + field.data.bytes(little).len())
                == field.data.bytes(little)
        },
    ensures
        field_read(file, little, record) == Ok::<Field, DecodeError>(field),
{
    let data = field.data;
    let slot = value_slot(little, data, len);
    lemma_value_slot_len(little, data, len);
    lemma_record_parts(little, field, slot);
    lemma_values_read_back(file, little, data, len);
    lemma_tag_repr_round_trip(field.tag);
    lemma_type_repr_round_trip(data.field_type());
}

/// The values of a field are read back from where they were placed when
/// the buffer had `len` bytes.
pub proof fn lemma_values_read_back(file: Seq<u8>, little: bool, data: FieldData, len: int)
    requires
        readable(data),
        0 <= len,
        !data.fits_inline() ==> {
            &&& len + len % 2 <= u32::MAX
            &&& len + len % 2 + data.bytes(little).len() <= file.len()
            &&& file.subrange(len + len % 2, len + len % 2 + data.bytes(little).len())
                == data.bytes(little)
        },
    ensures
        values_read(
            file,
            little,
            data.field_type(),
            data.count(),
            value_slot(little, data, len),
        ) == Ok::<FieldData, DecodeError>(data),
{
    lemma_value_region_back(file, little, data, len);
    lemma_typed_values_round_trip(little, data);
}

/// The parts of a record, read back: tag, type, count, and the last four
/// bytes.
proof fn lemma_record_parts(little: bool, field: Field, slot: Seq<u8>)
    requires
        slot.len() == 4,
        field.data.count() <= u32::MAX,
    ensures
        short_from_bytes(little, record_bytes(little, field, slot).subrange(0, 2))
            == field.tag.spec_repr(),
        short_from_bytes(little, record_bytes(little, field, slot).subrange(2, 4))
            == field.data.field_type().spec_repr(),
        long_from_bytes(little, record_bytes(little, field, slot).subrange(4, 8))
            == field.data.count(),
        record_bytes(little, field, slot).subrange(8, 12) == slot,
{
    let record = record_bytes(little, field, slot);
    lemma_short_round_trip(little, field.tag.spec_repr());
    lemma_short_round_trip(little, field.data.field_type().spec_repr());
    lemma_long_round_trip(little, field.data.count() as u32);
    assert(record.subrange(0, 2) =~= short_bytes(little, field.tag.spec_repr()));
    assert(record.subrange(2, 4) =~= short_bytes(little, field.data.field_type().spec_repr()));
    assert(record.subrange(4, 8) =~= long_bytes(little, field.data.count() as u32));
    assert(record.subrange(8, 12) =~= slot);
}

/// The bytes of values are found where the last four bytes of their
/// record say.
proof fn lemma_value_region_back(file: Seq<u8>, little: bool, data: FieldData, len: int)
    requires
        0 <= len,
        data.count() <= u32::MAX,
        !data.fits_inline() ==> {
            &&& len + len % 2 <= u32::MAX
            &&& len + len % 2 + data.bytes(little).len() <= file.len()
            &&& file.subrange(len + len % 2, len + len % 2 + data.bytes(little).len())
                == data.bytes(little)
        },
    ensures
        value_region(
            file,
            little,
            data.field_type(),
            data.count(),
            value_slot(little, data, len),
        ) == Some(data.bytes(little)),
{
    let bytes = data.bytes(little);
    let slot = value_slot(little, data, len);
    lemma_field_bytes_len(little, data);
    assert(fits_in_entry(data.field_type(), data.count()) == data.fits_inline());
    if data.fits_inline() {
        assert(slot.take(bytes.len() as int) =~= bytes);
    } else {
        lemma_long_round_trip(little, (len + len % 2) as u32);
    }
}

// ---------------------------------------------------------------------------
// Directories
// ---------------------------------------------------------------------------

/// Every field can be written and read back.
pub open spec fn all_readable(fields: Seq<Field>) -> bool {
    forall|i: int| 0 <= i < fields.len() ==> readable(#[trigger] fields[i].data)
}

/// The records and values of the first fields are the first of the
/// records and values of all.
pub proof fn lemma_placed_prefix(little: bool, fields: Seq<Field>, base: int, i: int)
    requires
        0 <= i <= fields.len(),
        0 <= base,
    ensures
        placed(little, fields.take(i), base).records.len() == 12 * i,
        placed(little, fields, base).records.len() == 12 * fields.len(),
        placed(little, fields.take(i), base).spill.len() <= placed(little, fields, base).spill.len(),
        placed(little, fields, base).records.take(12 * i) == placed(
            little,
            fields.take(i),
            base,
        ).records,
        placed(little, fields, base).spill.take(
            placed(little, fields.take(i), base).spill.len() as int,
        ) == placed(little, fields.take(i), base).spill,
    decreases fields.len() - i,
{
    let all = placed(little, fields, base);
    let shorter = placed(little, fields.take(i), base);
    lemma_placed_records_len(little, fields, base, i);
    lemma_placed_records_len(little, fields, base, fields.len() as int);
    assert(fields.take(fields.len() as int) == fields);
    if i < fields.len() {
        lemma_placed_prefix(little, fields, base, i + 1);
        lemma_placed_step(little, fields, base, i);
        let longer = placed(little, fields.take(i + 1), base);
        assert(all.records.take(12 * i) =~= all.records.take(12 * (i + 1)).take(12 * i));
        assert(longer.records.take(12 * i) =~= shorter.records);
        assert(all.spill.take(shorter.spill.len() as int) =~= all.spill.take(
            longer.spill.len() as int,
        ).take(shorter.spill.len() as int));
        assert(longer.spill.take(shorter.spill.len() as int) =~= shorter.spill);
    } else {
        assert(all.records.take(12 * i) =~= all.records);
        assert(all.spill.take(all.spill.len() as int) =~= all.spill);
    }
}

/// The parts of a file that ends with a directory: the records after the
/// entry count, and the values that do not fit in them after the offset
/// of the next directory.
pub proof fn lemma_directory_parts(file: Seq<u8>, little: bool, fields: Seq<Field>, start: int)
    requires
        0 <= start <= file.len(),
        file.skip(start) == directory_bytes(little, fields, start),
    ensures
        file.len() == start + spec_get_len(fields.len() as int) + placed(
            little,
            fields,
            start + spec_get_len(fields.len() as int),
        ).spill.len(),
        file.subrange(start, start + 2) == short_bytes(little, fields.len() as u16),
        file.subrange(start + 2, start + 2 + 12 * fields.len()) == placed(
            little,
            fields,
            start + spec_get_len(fields.len() as int),
        ).records,
        file.subrange(
            start + 2 + 12 * fields.len(),
            start + spec_get_len(fields.len() as int),
        ) == zeros(4),
        file.skip(start + spec_get_len(fields.len() as int)) == placed(
            little,
            fields,
            start + spec_get_len(fields.len() as int),
        ).spill,
{
    let n = fields.len() as int;
    let base = start + spec_get_len(n);
    let all = placed(little, fields, base);
    let dir = file.skip(start);
    let count = short_bytes(little, n as u16);
    lemma_placed_prefix(little, fields, base, n);
    assert(dir == count + all.records + zeros(4) + all.spill);
    assert(dir.len() == 2 + 12 * n + 4 + all.spill.len());
    assert(file.len() == start + dir.len());
    assert(file.subrange(start, start + 2) =~= dir.subrange(0, 2));
    assert(dir.subrange(0, 2) =~= count);
    assert(file.subrange(start + 2, start + 2 + 12 * n) =~= dir.subrange(2, 2 + 12 * n));
    assert(dir.subrange(2, 2 + 12 * n) =~= all.records);
    assert(file.subrange(start + 2 + 12 * n, base) =~= dir.subrange(2 + 12 * n, 2 + 12 * n + 4));
    assert(dir.subrange(2 + 12 * n, 2 + 12 * n + 4) =~= zeros(4));
    assert(file.skip(base) =~= dir.skip(2 + 12 * n + 4));
    assert(dir.skip(2 + 12 * n + 4) =~= all.spill);
}

/// Record `i` of the records of a directory, and the values of field `i`
/// among the values that stand after the directory.
pub proof fn lemma_placed_at(little: bool, fields: Seq<Field>, base: int, i: int)
    requires
        0 <= base,
        0 <= i < fields.len(),
    ensures
        placed(little, fields, base).records.len() == 12 * fields.len(),
        placed(little, fields.take(i), base).spill.len() + value_spill(
            little,
            fields[i].data,
            base + placed(little, fields.take(i), base).spill.len(),
        ).len() <= placed(little, fields, base).spill.len(),
        placed(little, fields, base).records.subrange(12 * i, 12 * i + 12) == record_bytes(
            little,
            fields[i],
            value_slot(
                little,
                fields[i].data,
                base + placed(little, fields.take(i), base).spill.len(),
            ),
        ),
        placed(little, fields, base).spill.subrange(
            placed(little, fields.take(i), base).spill.len() as int,
            (placed(little, fields.take(i), base).spill.len() + value_spill(
                little,
                fields[i].data,
                base + placed(little, fields.take(i), base).spill.len(),
            ).len()) as int,
        ) == value_spill(
            little,
            fields[i].data,
            base + placed(little, fields.take(i), base).spill.len(),
        ),
{
    let all = placed(little, fields, base);
    let before = placed(little, fields.take(i), base);
    let after = placed(little, fields.take(i + 1), base);
    let len = base + before.spill.len();
    let slot = value_slot(little, fields[i].data, len);
    let spill = value_spill(little, fields[i].data, len);
    let record = record_bytes(little, fields[i], slot);
    lemma_placed_prefix(little, fields, base, i);
    lemma_placed_prefix(little, fields, base, i + 1);
    lemma_placed_step(little, fields, base, i);
    lemma_value_slot_len(little, fields[i].data, len);
    assert(after.records == before.records + record);
    assert(after.spill == before.spill + spill);
    assert(all.records.subrange(12 * i, 12 * i + 12) =~= all.records.take(12 * (i + 1)).subrange(
        12 * i,
        12 * i + 12,
    ));
    assert(after.records.subrange(12 * i, 12 * i + 12) =~= record);
    assert(all.spill.subrange(before.spill.len() as int, after.spill.len() as int)
        =~= all.spill.take(after.spill.len() as int).subrange(
        before.spill.len() as int,
        after.spill.len() as int,
    ));
    assert(after.spill.subrange(before.spill.len() as int, after.spill.len() as int) =~= spill);
}

/// How many bytes the file has when the values of field `i` are placed.
pub open spec fn len_before(little: bool, fields: Seq<Field>, start: int, i: int) -> int {
    let base = start + spec_get_len(fields.len() as int);
    base + placed(little, fields.take(i), base).spill.len()
}

/// Where field `i` of a directory stands in a file that ends with the
/// directory: its record among the records, and what was appended for its
/// values where the file ended when they were placed.
pub proof fn lemma_field_location(
    file: Seq<u8>,
    little: bool,
    fields: Seq<Field>,
    start: int,
    i: int,
)
    requires
        0 <= start <= file.len(),
        0 <= i < fields.len(),
        file.skip(start) == directory_bytes(little, fields, start),
    ensures
        start + 2 + 12 * fields.len() + 4 <= len_before(little, fields, start, i),
        len_before(little, fields, start, i) + value_spill(
            little,
            fields[i].data,
            len_before(little, fields, start, i),
        ).len() <= file.len(),
        record_at(file, start, i) == record_bytes(
            little,
            fields[i],
            value_slot(little, fields[i].data, len_before(little, fields, start, i)),
        ),
        file.subrange(
            len_before(little, fields, start, i),
            len_before(little, fields, start, i) + value_spill(
                little,
                fields[i].data,
                len_before(little, fields, start, i),
            ).len(),
        ) == value_spill(little, fields[i].data, len_before(little, fields, start, i)),
{
    let n = fields.len() as int;
    let base = start + spec_get_len(n);
    let all = placed(little, fields, base);
    let before = placed(little, fields.take(i), base);
    let len = base + before.spill.len();
    let spill_len = value_spill(little, fields[i].data, len).len() as int;
    lemma_directory_parts(file, little, fields, start);
    lemma_placed_at(little, fields, base, i);
    let records = file.subrange(start + 2, start + 2 + 12 * n);
    let tail = file.skip(base);
    assert(record_at(file, start, i) =~= records.subrange(12 * i, 12 * i + 12));
    assert(file.subrange(len, len + spill_len) =~= tail.subrange(
        before.spill.len() as int,
        before.spill.len() + spill_len,
    ));
}

/// Field `i` of a directory at the end of a file is read as it was
/// written, and its tag stands first in its record.
pub proof fn lemma_field_of_directory(
    file: Seq<u8>,
    little: bool,
    fields: Seq<Field>,
    start: int,
    i: int,
)
    requires
        0 <= start,
        0 <= i < fields.len() <= u16::MAX,
        all_readable(fields),
        start <= file.len() <= u32::MAX,
        file.skip(start) == directory_bytes(little, fields, start),
    ensures
        start + 2 + 12 * fields.len() + 4 <= file.len(),
        field_read(file, little, record_at(file, start, i)) == Ok::<Field, DecodeError>(fields[i]),
        short_from_bytes(little, record_at(file, start, i).subrange(0, 2))
            == fields[i].tag.spec_repr(),
{
    let field = fields[i];
    let len = len_before(little, fields, start, i);
    let record = record_at(file, start, i);
    lemma_field_location(file, little, fields, start, i);
    lemma_spilled_values(file, little, field.data, len);
    assert(readable(field.data));
    lemma_field_read_back(file, little, field, record, len);
    lemma_record_tag(little, field, value_slot(little, field.data, len));
}

/// The values that do not fit in their record stand at the next even
/// offset after the end of the file before them.
proof fn lemma_spilled_values(file: Seq<u8>, little: bool, data: FieldData, len: int)
    requires
        0 <= len,
        len + value_spill(little, data, len).len() <= file.len(),
        file.subrange(len, len + value_spill(little, data, len).len()) == value_spill(
            little,
            data,
            len,
        ),
    ensures
        !data.fits_inline() ==> {
            &&& len + len % 2 + data.bytes(little).len() <= file.len()
            &&& file.subrange(len + len % 2, len + len % 2 + data.bytes(little).len())
                == data.bytes(little)
        },
{
    if !data.fits_inline() {
        let bytes = data.bytes(little);
        let spill = zeros(len % 2) + bytes;
        assert(file.subrange(len + len % 2, len + len % 2 + bytes.len()) =~= file.subrange(
            len,
            len + spill.len(),
        ).skip(len % 2));
        assert(spill.skip(len % 2) =~= bytes);
    }
}

/// The tag of a field stands first in its record.
proof fn lemma_record_tag(little: bool, field: Field, slot: Seq<u8>)
    ensures
        short_from_bytes(little, record_bytes(little, field, slot).subrange(0, 2))
            == field.tag.spec_repr(),
{
    lemma_short_round_trip(little, field.tag.spec_repr());
    assert(record_bytes(little, field, slot).subrange(0, 2) =~= short_bytes(
        little,
        field.tag.spec_repr(),
    ));
}

/// A directory at the end of a file is read as it was written: it is
/// found at its offset with all its entries and no next directory, and
/// its entries give its fields, all of them and without an error.
pub proof fn lemma_directory_read_back(
    file: Seq<u8>,
    little: bool,
    fields: Seq<Field>,
    start: int,
)
    requires
        0 <= start,
        fields.len() <= u16::MAX,
        all_readable(fields),
        start <= file.len() <= u32::MAX,
        file.skip(start) == directory_bytes(little, fields, start),
    ensures
        ifd_at(file, little, start) == Ok::<IfdView, DecodeError>(
            IfdView { index: start, entry_count: fields.len() as int, next_ifd_index: 0 },
        ),
        fields_read(file, little, start, fields.len() as int) == (FieldsRead {
            fields,
            errors: Seq::empty(),
        }),
{
    let n = fields.len() as int;
    lemma_directory_parts(file, little, fields, start);
    lemma_short_round_trip(little, n as u16);
    lemma_long_round_trip(little, 0);
    assert(zeros(4) =~= long_bytes(little, 0));
    lemma_fields_read_back(file, little, fields, start, n);
    assert(fields.take(n) == fields);
}

/// The first `i` entries of a directory at the end of a file give its
/// first `i` fields.
pub proof fn lemma_fields_read_back(
    file: Seq<u8>,
    little: bool,
    fields: Seq<Field>,
    start: int,
    i: int,
)
    requires
        0 <= start,
        0 <= i <= fields.len() <= u16::MAX,
        all_readable(fields),
        start <= file.len() <= u32::MAX,
        file.skip(start) == directory_bytes(little, fields, start),
    ensures
        fields_read(file, little, start, i) == (FieldsRead {
            fields: fields.take(i),
            errors: Seq::empty(),
        }),
    decreases i,
{
    if i > 0 {
        lemma_fields_read_back(file, little, fields, start, i - 1);
        lemma_field_of_directory(file, little, fields, start, i - 1);
        assert(fields.take(i - 1).push(fields[i - 1]) =~= fields.take(i));
    } else {
        assert(fields.take(0) =~= Seq::<Field>::empty());
    }
}

/// The tags that stand in the records of a directory at the end of a file
/// are ascending if the tags of its fields are.
pub proof fn lemma_directory_tags_ascending(
    file: Seq<u8>,
    little: bool,
    fields: Seq<Field>,
    start: int,
)
    requires
        0 <= start <= file.len(),
        tags_ascending(fields),
        file.skip(start) == directory_bytes(little, fields, start),
    ensures
        tags_in_order(file, little, start, fields.len() as int),
{
    assert forall|i: int, j: int| 0 <= i < j < fields.len() implies tag_at(file, little, start, i)
        < tag_at(file, little, start, j) by {
        lemma_tag_of_directory(file, little, fields, start, i);
        lemma_tag_of_directory(file, little, fields, start, j);
    }
}

/// The tag of field `i` of a directory at the end of a file stands first
/// in record `i`.
pub proof fn lemma_tag_of_directory(
    file: Seq<u8>,
    little: bool,
    fields: Seq<Field>,
    start: int,
    i: int,
)
    requires
        0 <= start <= file.len(),
        0 <= i < fields.len(),
        file.skip(start) == directory_bytes(little, fields, start),
    ensures
        tag_at(file, little, start, i) == fields[i].tag.spec_repr(),
{
    lemma_field_location(file, little, fields, start, i);
    lemma_record_tag(
        little,
        fields[i],
        value_slot(little, fields[i].data, len_before(little, fields, start, i)),
    );
}

/// The number that stands for the tag in record `i` of the directory at
/// `start`.
pub open spec fn tag_at(file: Seq<u8>, little: bool, start: int, i: int) -> u16 {
    short_from_bytes(little, record_at(file, start, i).subrange(0, 2))
}

/// The tags in the `n` records of the directory at `start` are ascending.
pub open spec fn tags_in_order(file: Seq<u8>, little: bool, start: int, n: int) -> bool {
    forall|i: int, j: int|
        0 <= i < j < n ==> #[trigger] tag_at(file, little, start, i) < #[trigger] tag_at(
            file,
            little,
            start,
            j,
        )
}

// ---------------------------------------------------------------------------
// Files
// ---------------------------------------------------------------------------

/// What a directory that this library wrote says of the strip of its
/// image.
pub open spec fn layout_info(l: StripLayout, strip_offset: int, strip_len: int) -> InfoView {
    InfoView {
        width: l.width,
        height: l.height,
        compression: l.compression,
        strip_offsets: seq![strip_offset],
        rows_per_strip: l.height,
        strip_byte_counts: seq![strip_len],
        x_resolution: URational { numerator: 1, denominator: 1 },
        y_resolution: URational { numerator: 1, denominator: 1 },
        resolution_unit: tags::ResolutionUnit::Inch,
    }
}

/// The fields of a directory that this library wrote are found again by
/// their tags.
pub proof fn lemma_layout_field_data(l: StripLayout, strip_offset: int, strip_len: int)
    ensures
        field_data(layout_fields(l, strip_offset, strip_len), Tag::ImageWidth) == Some(
            FieldData::Longs(seq![l.width as u32]),
        ),
        field_data(layout_fields(l, strip_offset, strip_len), Tag::ImageLength) == Some(
            FieldData::Longs(seq![l.height as u32]),
        ),
        field_data(layout_fields(l, strip_offset, strip_len), Tag::BitsPerSample) == if l.bits_per_sample.len()
            > 0 {
            Some(FieldData::Shorts(l.bits_per_sample))
        } else {
            None
        },
        field_data(layout_fields(l, strip_offset, strip_len), Tag::Compression) == Some(
            FieldData::Shorts(seq![l.compression.spec_repr()]),
        ),
        field_data(layout_fields(l, strip_offset, strip_len), Tag::PhotometricInterpretation)
            == Some(FieldData::Shorts(seq![l.photo_interp.spec_repr()])),
        field_data(layout_fields(l, strip_offset, strip_len), Tag::StripOffsets) == Some(
            FieldData::Shorts(seq![strip_offset as u16]),
        ),
        field_data(layout_fields(l, strip_offset, strip_len), Tag::SamplesPerPixel)
            == match l.samples_per_pixel {
            Some(n) => Some(FieldData::Shorts(seq![n])),
            None => None,
        },
        field_data(layout_fields(l, strip_offset, strip_len), Tag::RowsPerStrip) == Some(
            FieldData::Shorts(seq![l.height as u16]),
        ),
        field_data(layout_fields(l, strip_offset, strip_len), Tag::StripByteCounts) == Some(
            FieldData::Longs(seq![strip_len as u32]),
        ),
        field_data(layout_fields(l, strip_offset, strip_len), Tag::XResolution) == Some(
            unit_resolution(),
        ),
        field_data(layout_fields(l, strip_offset, strip_len), Tag::YResolution) == Some(
            unit_resolution(),
        ),
        field_data(layout_fields(l, strip_offset, strip_len), Tag::ResolutionUnit) is None,
        field_data(layout_fields(l, strip_offset, strip_len), Tag::ColorMap) == match l.color_map {
            Some(map) => Some(FieldData::Shorts(map)),
            None => None,
        },
{
    reveal_with_fuel(position_from, 14);
}

/// What a directory that this library wrote says of its image is what
/// was written.
pub proof fn lemma_layout_info(l: StripLayout, strip_offset: int, strip_len: int)
    requires
        0 <= l.width <= u32::MAX,
        0 <= l.height <= u16::MAX,
        0 <= strip_offset <= u16::MAX,
        0 <= strip_len <= u32::MAX,
        l.compression != tags::Compression::Huffman,
    ensures
        image_info(layout_fields(l, strip_offset, strip_len)) == Ok::<
            (InfoView, tags::PhotometricInterpretation),
            DecodeError,
        >((layout_info(l, strip_offset, strip_len), l.photo_interp)),
{
    let fields = layout_fields(l, strip_offset, strip_len);
    lemma_layout_field_data(l, strip_offset, strip_len);
    assert(required_number(fields, Tag::ImageWidth) == Ok::<u32, DecodeError>(l.width as u32));
    assert(required_number(fields, Tag::ImageLength) == Ok::<u32, DecodeError>(l.height as u32));
    assert(compression_of(fields) == Ok::<tags::Compression, DecodeError>(l.compression));
    assert(photo_interp_of(fields) == Ok::<tags::PhotometricInterpretation, DecodeError>(
        l.photo_interp,
    ));
    let offsets = numbers(FieldData::Shorts(seq![strip_offset as u16]))->Ok_0;
    let counts = numbers(FieldData::Longs(seq![strip_len as u32]))->Ok_0;
    assert(offsets =~= seq![strip_offset]);
    assert(counts =~= seq![strip_len]);
    assert(strips_info(fields) == Ok::<(Seq<int>, u32, Seq<int>), DecodeError>(
        (seq![strip_offset], l.height as u32, seq![strip_len]),
    ));
    assert(resolution_info(fields) == Ok::<
        (URational, URational, tags::ResolutionUnit),
        DecodeError,
    >(
        (
            URational { numerator: 1, denominator: 1 },
            URational { numerator: 1, denominator: 1 },
            tags::ResolutionUnit::Inch,
        ),
    ));
}

/// The fields of a directory that this library wrote can be read back.
pub proof fn lemma_layout_readable(l: StripLayout, strip_offset: int, strip_len: int)
    requires
        l.bits_per_sample.len() <= 3,
        l.color_map matches Some(map) ==> map.len() <= 768,
    ensures
        all_readable(layout_fields(l, strip_offset, strip_len)),
        9 <= layout_fields(l, strip_offset, strip_len).len() <= 12,
{
    let fields = layout_fields(l, strip_offset, strip_len);
    assert forall|i: int| 0 <= i < fields.len() implies readable(#[trigger] fields[i].data) by {
        lemma_layout_field_kind(l, strip_offset, strip_len, i);
    }
}

/// A field of a directory that this library wrote holds shorts, longs or
/// fractions, and at most 768 of them.
proof fn lemma_layout_field_kind(l: StripLayout, strip_offset: int, strip_len: int, i: int)
    requires
        0 <= i < layout_fields(l, strip_offset, strip_len).len(),
        l.bits_per_sample.len() <= 3,
        l.color_map matches Some(map) ==> map.len() <= 768,
    ensures
        !(layout_fields(l, strip_offset, strip_len)[i].data is ASCII),
        layout_fields(l, strip_offset, strip_len)[i].data.count() <= 768,
{
}

/// The parts of a file of one image: the header with the offset of the
/// directory, the strip right after the header, and the directory at the
/// end.
pub proof fn lemma_file_parts(little: bool, l: StripLayout)
    requires
        layout_fits(little, l, header_bytes(little, 8)),
    ensures
        header_order(encoded_file(little, l)) == Some(little),
        8 <= ifd_start(l, header_bytes(little, 8)) <= encoded_file(little, l).len() <= u32::MAX,
        long_from_bytes(little, encoded_file(little, l).subrange(4, 8)) == ifd_start(
            l,
            header_bytes(little, 8),
        ),
        8 + strip_bytes(l).len() <= ifd_start(l, header_bytes(little, 8)),
        encoded_file(little, l).subrange(8, 8 + strip_bytes(l).len() as int) == strip_bytes(l),
        encoded_file(little, l).skip(ifd_start(l, header_bytes(little, 8))) == directory_bytes(
            little,
            layout_fields(l, 8, strip_bytes(l).len() as int),
            ifd_start(l, header_bytes(little, 8)),
        ),
{
    reveal(image_appended);
    let header = header_bytes(little, 8);
    let strip = strip_bytes(l);
    let at = ifd_start(l, header);
    let fields = appended_fields(l, header);
    let dir = directory_bytes(little, fields, at);
    let body = aligned(header + strip);
    let whole = image_appended(little, l, header);
    let file = encoded_file(little, l);
    let link = long_bytes(little, at as u32);
    assert(header.len() == 8);
    assert(aligned(header) == header);
    assert(strip_start(header) == 8);
    assert(whole == body + dir);
    assert(at == body.len());
    lemma_long_round_trip(little, at as u32);
    assert(file == whole.take(4) + link + whole.skip(8));
    assert(file.subrange(4, 8) =~= link);
    assert(file.skip(at) =~= dir);
    assert(file.subrange(8, 8 + strip.len() as int) =~= strip);
    assert(file[0] == header[0] && file[1] == header[1] && file[2] == header[2] && file[3]
        == header[3]);
}

/// The one strip of a file of one image is decompressed to the samples
/// that were compressed.
pub proof fn lemma_strip_read_back(file: Seq<u8>, l: StripLayout)
    requires
        l.compression != tags::Compression::Huffman,
        l.height > 0,
        8 + strip_bytes(l).len() <= file.len(),
        file.subrange(8, 8 + strip_bytes(l).len() as int) == strip_bytes(l),
    ensures
        samples_of(file, layout_info(l, 8, strip_bytes(l).len() as int)) == Ok::<
            Seq<u8>,
            DecodeError,
        >(l.samples),
{
    let info = layout_info(l, 8, strip_bytes(l).len() as int);
    lemma_codec_round_trip(l.compression, l.samples);
    assert(strips_data(file, info, 0) == Some(Seq::<u8>::empty()));
    assert(Seq::<u8>::empty() + l.samples =~= l.samples);
    assert(strips_data(file, info, 1) == Some(l.samples));
}

/// Reading a file of one image gives the image alone and no error, if
/// the fields of its directory and its strip give that image.
pub proof fn lemma_file_read_back(little: bool, l: StripLayout, image: DecodedView)
    requires
        layout_fits(little, l, header_bytes(little, 8)),
        decoded_image(
            encoded_file(little, l),
            layout_fields(l, 8, strip_bytes(l).len() as int),
        ) == Ok::<DecodedView, DecodeError>(image),
    ensures
        decoded(encoded_file(little, l)) == Ok::<Decoded, DecodeError>(
            Decoded { images: seq![image], errors: Seq::empty() },
        ),
{
    let file = encoded_file(little, l);
    let at = ifd_start(l, header_bytes(little, 8));
    let fields = layout_fields(l, 8, strip_bytes(l).len() as int);
    let none = Decoded { images: Seq::empty(), errors: Seq::empty() };
    lemma_file_parts(little, l);
    lemma_layout_readable(l, 8, strip_bytes(l).len() as int);
    lemma_directory_read_back(file, little, fields, at);
    let ifd = IfdView { index: at, entry_count: fields.len() as int, next_ifd_index: 0 };
    let one = with_directory(file, little, ifd, none);
    assert(one.images =~= seq![image]);
    assert(one.errors =~= Seq::<DecodeError>::empty());
    let visited = Seq::<usize>::empty().push(at as usize);
    assert(visited_ok(Seq::<usize>::empty(), file.len() as int));
    assert(visited_ok(visited, file.len() as int));
    assert(!Seq::<usize>::empty().contains(at as usize));
    assert(chain_decoded(file, little, 0, visited, one) == Ok::<Decoded, DecodeError>(one));
    assert(chain_decoded(file, little, at as usize, Seq::empty(), none) == chain_decoded(
        file,
        little,
        0,
        visited,
        one,
    ));
}

} // verus!
