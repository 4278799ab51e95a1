//! Writing a directory: the entry count, a 12-byte record for each field,
//! the offset of the next directory, and after them the values that do not
//! fit in their records.

use crate::byte_order::{long_bytes, push_long, push_short, short_bytes};
use crate::encode::buffer::{
    aligned, lemma_longs_bytes_len, lemma_rationals_bytes_len, lemma_shorts_bytes_len, patched,
    value_slot, value_spill, zeros, TiffEncodeBuffer,
};
use crate::ifd::{fields_of, spec_get_len, tags_ascending, Entry, Field, FieldData, Values};
use vstd::prelude::*;

verus! {

/// Where a directory stands in the buffer, and how many entries it has.
pub struct IfdInfo {
    pub inx: usize,
    pub entry_count: usize,
}

/// The first eight bytes of the record of a field: tag, type and count.
pub open spec fn record_head(little: bool, field: Field) -> Seq<u8> {
    short_bytes(little, field.tag.spec_repr()) + short_bytes(
        little,
        field.data.field_type().spec_repr(),
    ) + long_bytes(little, field.data.count() as u32)
}

/// The record of a field whose last four bytes are `slot`.
pub open spec fn record_bytes(little: bool, field: Field, slot: Seq<u8>) -> Seq<u8> {
    record_head(little, field) + slot
}

/// The records of some fields, and the values that stand after the
/// directory.
pub struct Placed {
    pub records: Seq<u8>,
    pub spill: Seq<u8>,
}

/// The records of `fields` and the values after the directory, when those
/// values begin at `base`. Each field in turn is placed at the end of what
/// the fields before it have taken.
#[verifier::opaque]
pub open spec fn placed(little: bool, fields: Seq<Field>, base: int) -> Placed
    decreases fields.len(),
{
    if fields.len() == 0 {
        Placed { records: Seq::empty(), spill: Seq::empty() }
    } else {
        let before = placed(little, fields.drop_last(), base);
        let field = fields.last();
        let len = base + before.spill.len();
        Placed {
            records: before.records + record_bytes(
                little,
                field,
                value_slot(little, field.data, len),
            ),
            spill: before.spill + value_spill(little, field.data, len),
        }
    }
}

/// The bytes of a directory of `fields` that starts at `start`: the entry
/// count, the records, a zero offset of the next directory, and the values
/// that do not fit in their records.
pub open spec fn directory_bytes(little: bool, fields: Seq<Field>, start: int) -> Seq<u8> {
    let p = placed(little, fields, start + spec_get_len(fields.len() as int));
    short_bytes(little, fields.len() as u16) + p.records + zeros(4) + p.spill
}

/// No fields take no bytes.
pub proof fn lemma_placed_none(little: bool, base: int)
    ensures
        placed(little, Seq::<Field>::empty(), base) == (Placed {
            records: Seq::empty(),
            spill: Seq::empty(),
        }),
{
    reveal(placed);
}

/// What one more field adds to the records and to the values after the
/// directory.
pub proof fn lemma_placed_step(little: bool, fields: Seq<Field>, base: int, i: int)
    requires
        0 <= i < fields.len(),
    ensures
        placed(little, fields.take(i + 1), base).records == placed(
            little,
            fields.take(i),
            base,
        ).records + record_bytes(
            little,
            fields[i],
            value_slot(
                little,
                fields[i].data,
                base + placed(little, fields.take(i), base).spill.len(),
            ),
        ),
        placed(little, fields.take(i + 1), base).spill == placed(
            little,
            fields.take(i),
            base,
        ).spill + value_spill(
            little,
            fields[i].data,
            base + placed(little, fields.take(i), base).spill.len(),
        ),
{
    reveal(placed);
    assert(fields.take(i + 1).drop_last() == fields.take(i));
    assert(fields.take(i + 1).last() == fields[i]);
}

/// A record has twelve bytes.
pub proof fn lemma_placed_records_len(little: bool, fields: Seq<Field>, base: int, i: int)
    requires
        0 <= base,
        0 <= i <= fields.len(),
    ensures
        placed(little, fields.take(i), base).records.len() == 12 * i,
    decreases i,
{
    if i == 0 {
        assert(fields.take(0) == Seq::<Field>::empty());
        lemma_placed_none(little, base);
    } else {
        lemma_placed_records_len(little, fields, base, i - 1);
        lemma_placed_step(little, fields, base, i - 1);
        lemma_value_slot_len(
            little,
            fields[i - 1].data,
            base + placed(little, fields.take(i - 1), base).spill.len(),
        );
    }
}

/// The values of the first fields take no more bytes than those of all.
pub proof fn lemma_placed_spill_grows(little: bool, fields: Seq<Field>, base: int, i: int)
    requires
        0 <= i <= fields.len(),
    ensures
        placed(little, fields.take(i), base).spill.len() <= placed(little, fields, base).spill.len(),
    decreases fields.len() - i,
{
    if i == fields.len() {
        assert(fields.take(i) == fields);
    } else {
        lemma_placed_spill_grows(little, fields, base, i + 1);
        lemma_placed_step(little, fields, base, i);
    }
}

/// The values of a field take as many bytes as their number and type say.
pub proof fn lemma_field_bytes_len(little: bool, data: FieldData)
    ensures
        data.bytes(little).len() == data.count() * data.field_type().spec_size(),
{
    match data {
        FieldData::Bytes(b) => {},
        FieldData::ASCII(s) => {},
        FieldData::Shorts(s) => {
            lemma_shorts_bytes_len(little, s);
        },
        FieldData::Longs(l) => {
            lemma_longs_bytes_len(little, l);
        },
        FieldData::Rationals(r) => {
            lemma_rationals_bytes_len(little, r);
        },
    }
}

/// The last part of a record has four bytes.
pub proof fn lemma_value_slot_len(little: bool, data: FieldData, len: int)
    requires
        0 <= len,
    ensures
        value_slot(little, data, len).len() == 4,
{
    lemma_field_bytes_len(little, data);
}

/// A record written over the first twelve of the zeros that were put in
/// place of the records.
proof fn lemma_record_written(
    head: Seq<u8>,
    records: Seq<u8>,
    m: int,
    spill: Seq<u8>,
    more: Seq<u8>,
    record: Seq<u8>,
)
    requires
        record.len() == 12,
        m >= 0,
    ensures
        patched(
            head + records + zeros(12 + m) + spill + more,
            (head.len() + records.len()) as int,
            record,
        ) == head + (records + record) + zeros(m) + (spill + more),
{
    assert(patched(
        head + records + zeros(12 + m) + spill + more,
        (head.len() + records.len()) as int,
        record,
    ) =~= head + (records + record) + zeros(m) + (spill + more));
}

/// Two parts of a record written one after the other are the record
/// written at once, also when bytes were appended in between.
proof fn lemma_patch_twice(bytes: Seq<u8>, more: Seq<u8>, at: int, a: Seq<u8>, b: Seq<u8>)
    requires
        0 <= at,
        at + a.len() + b.len() <= bytes.len(),
    ensures
        patched(patched(bytes, at, a) + more, at + a.len(), b) == patched(bytes + more, at, a + b),
{
    assert(patched(patched(bytes, at, a) + more, at + a.len(), b) =~= patched(
        bytes + more,
        at,
        a + b,
    ));
}

/// Where the values of field `i` do not fit in its record, there is room
/// for an offset to them.
proof fn lemma_entry_room(little: bool, fields: Seq<Field>, base: int, i: int)
    requires
        0 <= i < fields.len(),
        0 <= base,
        base + placed(little, fields, base).spill.len() <= u32::MAX,
    ensures
        base + placed(little, fields.take(i), base).spill.len() <= u32::MAX,
        !fields[i].data.fits_inline() ==> base + placed(little, fields.take(i), base).spill.len()
            < u32::MAX,
{
    lemma_placed_spill_grows(little, fields, base, i);
    lemma_placed_spill_grows(little, fields, base, i + 1);
    lemma_placed_step(little, fields, base, i);
}

impl Values {
    /// Writes the type, the number and the place of the values into the
    /// record at `field_inx`, after its tag, and appends the values to the
    /// buffer if they do not fit in the record.
    pub fn encode(&self, wrt: &mut TiffEncodeBuffer, field_inx: usize)
        requires
            field_inx + 12 <= old(wrt)@.len(),
            self@.count() <= u32::MAX,
            !self@.fits_inline() ==> old(wrt)@.len() < u32::MAX,
        ensures
            final(wrt).little() == old(wrt).little(),
            final(wrt)@ == patched(
                old(wrt)@ + value_spill(old(wrt).little(), self@, old(wrt)@.len() as int),
                field_inx + 2,
                short_bytes(old(wrt).little(), self@.field_type().spec_repr()) + long_bytes(
                    old(wrt).little(),
                    self@.count() as u32,
                ) + value_slot(old(wrt).little(), self@, old(wrt)@.len() as int),
            ),
    {
        let little = wrt.is_little();
        let len: usize = wrt.len();
        let value_offset = wrt.append_ifd_value(self);
        let mut rest: Vec<u8> = Vec::new();
        // Write value type
        push_short(&mut rest, little, self.field_type_tag().repr());
        // Write number of values
        push_long(&mut rest, little, self.num_values());
        // Write the values, or where they are
        rest.push(value_offset[0]);
        rest.push(value_offset[1]);
        rest.push(value_offset[2]);
        rest.push(value_offset[3]);
        proof {
            lemma_value_slot_len(little, self@, len as int);
            assert(rest@ =~= short_bytes(little, self@.field_type().spec_repr()) + long_bytes(
                little,
                self@.count() as u32,
            ) + value_slot(little, self@, len as int));
        }
        wrt.write_at(field_inx + 2, rest.as_slice());
    }
}

impl Entry {
    /// Writes the record of the field at `field_inx`, and appends its values
    /// to the buffer if they do not fit in the record.
    pub fn encode(&self, wrt: &mut TiffEncodeBuffer, field_inx: usize)
        requires
            field_inx + 12 <= old(wrt)@.len(),
            self@.data.count() <= u32::MAX,
            !self@.data.fits_inline() ==> old(wrt)@.len() < u32::MAX,
        ensures
            final(wrt).little() == old(wrt).little(),
            final(wrt)@ == patched(
                old(wrt)@ + value_spill(old(wrt).little(), self@.data, old(wrt)@.len() as int),
                field_inx as int,
                record_bytes(
                    old(wrt).little(),
                    self@,
                    value_slot(old(wrt).little(), self@.data, old(wrt)@.len() as int),
                ),
            ),
    {
        let little = wrt.is_little();
        let ghost len = wrt@.len() as int;
        let ghost grown = wrt@ + value_spill(little, self@.data, len);
        let mut tag: Vec<u8> = Vec::new();
        // Write tag
        push_short(&mut tag, little, self.tag().repr());
        wrt.write_at(field_inx, tag.as_slice());
        let ghost tagged = wrt@;
        // Write values
        self.values().encode(wrt, field_inx);
        proof {
            lemma_value_slot_len(little, self@.data, len);
            let rest = short_bytes(little, self@.data.field_type().spec_repr()) + long_bytes(
                little,
                self@.data.count() as u32,
            ) + value_slot(little, self@.data, len);
            let spill = value_spill(little, self@.data, len);
            lemma_patch_twice(old(wrt)@, spill, field_inx as int, tag@, rest);
            assert(tag@ + rest =~= record_bytes(
                little,
                self@,
                value_slot(little, self@.data, len),
            ));
        }
    }
}

/// Where the values begin that do not fit in the records of a directory
/// whose records follow `head`.
pub open spec fn values_base(head: Seq<u8>, fields: Seq<Field>) -> int {
    head.len() as int + 12 * fields.len() as int + 4
}

/// The buffer while a directory is written: what came before with the
/// entry count (`head`), the records of the first `i` fields, zeros in
/// place of the other records and of the offset of the next directory,
/// and the values of the first `i` fields that do not fit in their records.
pub open spec fn directory_so_far(
    head: Seq<u8>,
    little: bool,
    fields: Seq<Field>,
    i: int,
) -> Seq<u8> {
    let base = values_base(head, fields);
    head + placed(little, fields.take(i), base).records + zeros(12 * (fields.len() - i) + 4)
        + placed(little, fields.take(i), base).spill
}

/// Writing the record of field `i` and appending its values takes the
/// buffer from the first `i` fields to the first `i + 1`.
proof fn lemma_entry_encoded(
    before: Seq<u8>,
    after: Seq<u8>,
    head: Seq<u8>,
    little: bool,
    fields: Seq<Field>,
    i: int,
)
    requires
        0 <= i < fields.len(),
        before == directory_so_far(head, little, fields, i),
        after == patched(
            before + value_spill(little, fields[i].data, before.len() as int),
            head.len() + 12 * i,
            record_bytes(
                little,
                fields[i],
                value_slot(little, fields[i].data, before.len() as int),
            ),
        ),
    ensures
        after == directory_so_far(head, little, fields, i + 1),
        before.len() == values_base(head, fields) + placed(
            little,
            fields.take(i),
            values_base(head, fields),
        ).spill.len(),
{
    let base = values_base(head, fields);
    let p = placed(little, fields.take(i), base);
    let q = placed(little, fields.take(i + 1), base);
    let field = fields[i];
    lemma_placed_records_len(little, fields, base, i);
    lemma_placed_step(little, fields, base, i);
    let len = before.len() as int;
    assert(len == base + p.spill.len());
    lemma_value_slot_len(little, field.data, len);
    let slot = value_slot(little, field.data, len);
    let spill = value_spill(little, field.data, len);
    let record = record_bytes(little, field, slot);
    let m = 12 * (fields.len() - (i + 1)) + 4;
    assert(q.records == p.records + record);
    assert(q.spill == p.spill + spill);
    assert(zeros(12 * (fields.len() - i) + 4) == zeros(12 + m));
    lemma_record_written(head, p.records, m, p.spill, spill, record);
}

/// A buffer that holds all the fields of a directory holds the directory.
proof fn lemma_directory_done(pre: Seq<u8>, little: bool, fields: Seq<Field>)
    requires
        fields.len() <= u16::MAX,
    ensures
        directory_so_far(
            pre + short_bytes(little, fields.len() as u16),
            little,
            fields,
            fields.len() as int,
        ) == pre + directory_bytes(little, fields, pre.len() as int),
        directory_so_far(pre + short_bytes(little, fields.len() as u16), little, fields, 0) == pre
            + short_bytes(little, fields.len() as u16) + zeros(12 * fields.len() as int + 4),
{
    let head = pre + short_bytes(little, fields.len() as u16);
    assert(fields.take(fields.len() as int) == fields);
    assert(fields.take(0) == Seq::<Field>::empty());
    lemma_placed_none(little, values_base(head, fields));
    assert(directory_so_far(head, little, fields, fields.len() as int) =~= pre + directory_bytes(
        little,
        fields,
        pre.len() as int,
    ));
    assert(directory_so_far(head, little, fields, 0) =~= head + zeros(
        12 * fields.len() as int + 4,
    ));
}

/// Writes a directory of `ifds` at the next even offset of the buffer:
/// the entry count, the records in the order given, a zero offset of the
/// next directory, then the values that do not fit in their records.
/// Returns where the directory starts and how many entries it has.
pub fn encode_ifds(wrt: &mut TiffEncodeBuffer, ifds: &[Entry]) -> (info: IfdInfo)
    requires
        ifds@.len() <= u16::MAX,
        tags_ascending(fields_of(ifds@)),
        forall|i: int| 0 <= i < ifds@.len() ==> (#[trigger] ifds@[i])@.data.count() <= u32::MAX,
        aligned(old(wrt)@).len() + directory_bytes(
            old(wrt).little(),
            fields_of(ifds@),
            aligned(old(wrt)@).len() as int,
        ).len() <= u32::MAX,
    ensures
        final(wrt).little() == old(wrt).little(),
        info.inx == aligned(old(wrt)@).len(),
        info.inx % 2 == 0,
        info.entry_count == ifds@.len(),
        final(wrt)@ == aligned(old(wrt)@) + directory_bytes(
            old(wrt).little(),
            fields_of(ifds@),
            info.inx as int,
        ),
        crate::round_trip::tags_in_order(
            final(wrt)@,
            old(wrt).little(),
            info.inx as int,
            ifds@.len() as int,
        ),
{
    let little = wrt.is_little();
    let field_count: usize = ifds.len();
    let ifd_inx = wrt.append_new_ifd(field_count);
    let ghost fields = fields_of(ifds@);
    let ghost pre = aligned(old(wrt)@);
    let ghost head = pre + short_bytes(little, field_count as u16);
    let ghost base = values_base(head, fields);
    proof {
        lemma_directory_done(pre, little, fields);
        assert(fields.take(0) == Seq::<Field>::empty());
        lemma_placed_none(little, base);
        assert(fields.take(fields.len() as int) == fields);
        lemma_placed_records_len(little, fields, base, fields.len() as int);
    }
    let mut entry_num: usize = 0;
    while entry_num < field_count
        invariant
            entry_num <= field_count,
            field_count == ifds@.len(),
            field_count == fields.len(),
            field_count <= u16::MAX,
            fields == fields_of(ifds@),
            wrt.little() == little,
            ifd_inx + 2 == head.len(),
            base == values_base(head, fields),
            forall|i: int| 0 <= i < ifds@.len() ==> (#[trigger] ifds@[i])@.data.count() <= u32::MAX,
            base + placed(little, fields, base).spill.len() <= u32::MAX,
            wrt@ == directory_so_far(head, little, fields, entry_num as int),
            wrt@.len() == base + placed(little, fields.take(entry_num as int), base).spill.len(),
        decreases field_count - entry_num,
    {
        let ghost before = wrt@;
        proof {
            lemma_entry_room(little, fields, base, entry_num as int);
            assert(fields[entry_num as int] == ifds@[entry_num as int]@);
        }
        ifds[entry_num].encode(wrt, ifd_inx + 2 + entry_num * 12);
        proof {
            lemma_entry_encoded(before, wrt@, head, little, fields, entry_num as int);
            lemma_entry_encoded_len(head, little, fields, entry_num + 1);
        }
        entry_num += 1;
    }
    proof {
        lemma_directory_done(pre, little, fields);
        assert(wrt@.skip(ifd_inx as int) =~= directory_bytes(little, fields, ifd_inx as int));
        crate::round_trip::lemma_directory_tags_ascending(wrt@, little, fields, ifd_inx as int);
    }
    IfdInfo { inx: ifd_inx, entry_count: field_count }
}

/// The length of the buffer while a directory is written.
proof fn lemma_entry_encoded_len(head: Seq<u8>, little: bool, fields: Seq<Field>, i: int)
    requires
        0 <= i <= fields.len(),
    ensures
        directory_so_far(head, little, fields, i).len() == values_base(head, fields) + placed(
            little,
            fields.take(i),
            values_base(head, fields),
        ).spill.len(),
{
    lemma_placed_records_len(little, fields, values_base(head, fields), i);
}

/// The length of a directory: two bytes, twelve for each field, four, and
/// the values after it.
pub proof fn lemma_directory_len(little: bool, fields: Seq<Field>, start: int)
    requires
        0 <= start,
    ensures
        directory_bytes(little, fields, start).len() == 2 + 12 * fields.len() + 4 + placed(
            little,
            fields,
            start + spec_get_len(fields.len() as int),
        ).spill.len(),
{
    assert(fields.take(fields.len() as int) == fields);
    lemma_placed_records_len(
        little,
        fields,
        start + spec_get_len(fields.len() as int),
        fields.len() as int,
    );
}

} // verus!
