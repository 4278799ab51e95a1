//! Reading the values of a field, and finding fields in a directory.

use crate::byte_order::{long_from_bytes, read_u16, read_u32, short_from_bytes};
use crate::decode::DecodeError;
use crate::ifd::{fields_of, Entry, Field, FieldData, Tag, Type, Values};
use crate::types::{Long, Short, URational};
use vstd::prelude::*;

verus! {

// ---------------------------------------------------------------------------
// Values
// ---------------------------------------------------------------------------

/// The shorts that `data` holds, two bytes each.
pub open spec fn shorts_from_bytes(little: bool, data: Seq<u8>) -> Seq<u16> {
    Seq::new(data.len() / 2, |i: int| short_from_bytes(little, data.subrange(2 * i, 2 * i + 2)))
}

/// The longs that `data` holds, four bytes each.
pub open spec fn longs_from_bytes(little: bool, data: Seq<u8>) -> Seq<u32> {
    Seq::new(data.len() / 4, |i: int| long_from_bytes(little, data.subrange(4 * i, 4 * i + 4)))
}

/// The fractions that `data` holds, eight bytes each: numerator, then
/// denominator.
pub open spec fn rationals_from_bytes(little: bool, data: Seq<u8>) -> Seq<URational> {
    Seq::new(
        data.len() / 8,
        |i: int|
            URational {
                numerator: long_from_bytes(little, data.subrange(8 * i, 8 * i + 4)),
                denominator: long_from_bytes(little, data.subrange(8 * i + 4, 8 * i + 8)),
            },
    )
}

/// Whether `count` values of a type stand in the entry itself.
pub open spec fn fits_in_entry(valtype: Type, count: int) -> bool {
    match valtype {
        Type::Byte => count <= 4,
        Type::ASCII => count <= 4,
        Type::Short => count <= 2,
        Type::Long => count <= 1,
        Type::Rational => false,
    }
}

/// The bytes of `count` values of a type: the first bytes of the last
/// four bytes of the entry (`slot`) if they fit there, else the bytes of
/// the file at the offset that `slot` holds; `None` if those lie outside
/// the file.
pub open spec fn value_region(
    bytes: Seq<u8>,
    little: bool,
    valtype: Type,
    count: int,
    slot: Seq<u8>,
) -> Option<Seq<u8>> {
    let size = count * valtype.spec_size();
    if fits_in_entry(valtype, count) {
        Some(slot.take(size))
    } else {
        let at = long_from_bytes(little, slot);
        if at + size <= bytes.len() {
            Some(bytes.subrange(at as int, at + size))
        } else {
            None
        }
    }
}

/// Some byte of `data` is NUL.
pub open spec fn has_nul(data: Seq<u8>) -> bool {
    exists|i: int| 0 <= i < data.len() && data[i] == 0
}

/// Every byte of `data` is below 128.
pub open spec fn seven_bit(data: Seq<u8>) -> bool {
    forall|i: int| 0 <= i < data.len() ==> data[i] < 128
}

/// The values that `data` holds. A string must end with NUL
/// (`CantReadField` if not), hold no other NUL (several strings in one
/// field are not supported: `UnknownFieldType`), and only bytes below 128
/// (`CantReadField` if not).
pub open spec fn typed_values(little: bool, valtype: Type, data: Seq<u8>) -> Result<
    FieldData,
    DecodeError,
> {
    match valtype {
        Type::Byte => Ok(FieldData::Bytes(data)),
        Type::Short => Ok(FieldData::Shorts(shorts_from_bytes(little, data))),
        Type::Long => Ok(FieldData::Longs(longs_from_bytes(little, data))),
        Type::Rational => Ok(FieldData::Rationals(rationals_from_bytes(little, data))),
        Type::ASCII => if data.len() == 0 || data.last() != 0 {
            Err(DecodeError::CantReadField)
        } else if has_nul(data.drop_last()) {
            Err(DecodeError::UnknownFieldType(2))
        } else if !seven_bit(data) {
            Err(DecodeError::CantReadField)
        } else {
            Ok(FieldData::ASCII(data.drop_last()))
        },
    }
}

/// The `count` values of a type that an entry with the last four bytes
/// `slot` holds or points to; `CantReadField` if they lie outside the file.
pub open spec fn values_read(
    bytes: Seq<u8>,
    little: bool,
    valtype: Type,
    count: int,
    slot: Seq<u8>,
) -> Result<FieldData, DecodeError> {
    match value_region(bytes, little, valtype, count, slot) {
        None => Err(DecodeError::CantReadField),
        Some(data) => typed_values(little, valtype, data),
    }
}

/// Calls `String::from_utf8` on a copy of the bytes. Where it succeeds,
/// the string has exactly these bytes; it succeeds where all bytes are
/// below 128, since such bytes are UTF-8.
#[verifier::external_body]
fn string_from_bytes(bytes: &[u8]) -> (r: Option<String>)
    ensures
        seven_bit(bytes@) ==> r is Some,
        r matches Some(s) ==> vstd::utf8::encode_utf8(s@) == bytes@,
{
    String::from_utf8(bytes.to_vec()).ok()
}

/// The bytes of `count` values of a type, as `value_region` says.
fn read_region<'a>(
    bytes: &'a [u8],
    little: bool,
    valtype: Type,
    count: usize,
    offset_buff: &'a [u8],
) -> (r: Option<&'a [u8]>)
    requires
        offset_buff@.len() == 4,
        count <= u32::MAX,
    ensures
        match value_region(bytes@, little, valtype, count as int, offset_buff@) {
            Some(data) => r matches Some(found) && found@ == data,
            None => r is None,
        },
{
    let size: u64 = match valtype {
        Type::Byte => count as u64,
        Type::ASCII => count as u64,
        Type::Short => 2 * (count as u64),
        Type::Long => 4 * (count as u64),
        Type::Rational => 8 * (count as u64),
    };
    let inline = match valtype {
        Type::Byte => count <= 4,
        Type::ASCII => count <= 4,
        Type::Short => count <= 2,
        Type::Long => count <= 1,
        Type::Rational => false,
    };
    if inline {
        let data = &offset_buff[0..size as usize];
        assert(data@ == offset_buff@.take(size as int));
        Some(data)
    } else {
        let index: u64 = match read_u32(little, offset_buff) {
            Some(index) => index as u64,
            None => {
                return None;
            },
        };
        if index + size <= bytes.len() as u64 {
            Some(&bytes[index as usize..(index + size) as usize])
        } else {
            None
        }
    }
}

/// Reads the `count` values of a type that an entry holds in its last four
/// bytes `offset_buff`, or that stand in the file where those bytes say.
#[verifier::loop_isolation(false)]
pub fn read_values(
    bytes: &[u8],
    little: bool,
    valtype: Type,
    count: usize,
    offset_buff: &[u8],
) -> (r: Result<Values, DecodeError>)
    requires
        offset_buff@.len() == 4,
        count <= u32::MAX,
    ensures
        match values_read(bytes@, little, valtype, count as int, offset_buff@) {
            Ok(data) => r matches Ok(values) && values@ == data,
            Err(e) => r == Err::<Values, DecodeError>(e),
        },
{
    let data = match read_region(bytes, little, valtype, count, offset_buff) {
        Some(data) => data,
        None => {
            return Err(DecodeError::CantReadField);
        },
    };
    let len: usize = data.len();
    match valtype {
        Type::Byte => {
            let mut values: Vec<u8> = Vec::new();
            crate::byte_order::append_bytes(&mut values, data);
            Ok(Values::Bytes(values))
        },
        Type::Short => {
            let mut values: Vec<Short> = Vec::new();
            let n: usize = data.len() / 2;
            let mut i: usize = 0;
            while i < n
                invariant
                    i <= n,
                    len == data@.len(),
                    n == data@.len() / 2,
                    values@.len() == i,
                    forall|k: int|
                        0 <= k < i ==> values@[k] == short_from_bytes(
                            little,
                            data@.subrange(2 * k, 2 * k + 2),
                        ),
                decreases n - i,
            {
                let value = read_u16(little, &data[2 * i..2 * i + 2]);
                values.push(value.unwrap());
                i += 1;
            }
            assert(values@ =~= shorts_from_bytes(little, data@));
            Ok(Values::Shorts(values))
        },
        Type::Long => {
            let mut values: Vec<Long> = Vec::new();
            let n: usize = data.len() / 4;
            let mut i: usize = 0;
            while i < n
                invariant
                    i <= n,
                    len == data@.len(),
                    n == data@.len() / 4,
                    values@.len() == i,
                    forall|k: int|
                        0 <= k < i ==> values@[k] == long_from_bytes(
                            little,
                            data@.subrange(4 * k, 4 * k + 4),
                        ),
                decreases n - i,
            {
                let value = read_u32(little, &data[4 * i..4 * i + 4]);
                values.push(value.unwrap());
                i += 1;
            }
            assert(values@ =~= longs_from_bytes(little, data@));
            Ok(Values::Longs(values))
        },
        Type::Rational => {
            let mut rats: Vec<URational> = Vec::new();
            let n: usize = data.len() / 8;
            let mut i: usize = 0;
            while i < n
                invariant
                    i <= n,
                    len == data@.len(),
                    n == data@.len() / 8,
                    rats@.len() == i,
                    forall|k: int|
                        0 <= k < i ==> rats@[k] == (URational {
                            numerator: long_from_bytes(little, data@.subrange(8 * k, 8 * k + 4)),
                            denominator: long_from_bytes(
                                little,
                                data@.subrange(8 * k + 4, 8 * k + 8),
                            ),
                        }),
                decreases n - i,
            {
                let numerator = read_u32(little, &data[8 * i..8 * i + 4]);
                let denominator = read_u32(little, &data[8 * i + 4..8 * i + 8]);
                rats.push(URational::new(numerator.unwrap(), denominator.unwrap()));
                i += 1;
            }
            assert(rats@ =~= rationals_from_bytes(little, data@));
            Ok(Values::Rationals(rats))
        },
        Type::ASCII => {
            if data.len() == 0 || data[data.len() - 1] != 0 {
                return Err(DecodeError::CantReadField);
            }
            let text = &data[0..data.len() - 1];
            assert(text@ == data@.drop_last());
            let mut i: usize = 0;
            while i < text.len()
                invariant
                    i <= text@.len(),
                    forall|k: int| 0 <= k < i ==> text@[k] != 0,
                decreases text.len() - i,
            {
                if text[i] == 0 {
                    assert(text@[i as int] == 0);
                    assert(has_nul(text@));
                    return Err(DecodeError::UnknownFieldType(2));
                }
                i += 1;
            }
            let mut i: usize = 0;
            while i < text.len()
                invariant
                    i <= text@.len(),
                    text@ == data@.drop_last(),
                    data@.len() > 0,
                    data@.last() == 0,
                    !has_nul(text@),
                    forall|k: int| 0 <= k < i ==> text@[k] < 128,
                decreases text.len() - i,
            {
                if text[i] >= 128 {
                    assert(data@[i as int] == text@[i as int]);
                    assert(!seven_bit(data@));
                    return Err(DecodeError::CantReadField);
                }
                i += 1;
            }
            assert(seven_bit(data@)) by {
                assert forall|k: int| 0 <= k < data@.len() implies data@[k] < 128 by {
                    if k < text@.len() {
                        assert(data@[k] == text@[k]);
                    }
                }
            }
            match string_from_bytes(text) {
                Some(string) => Ok(Values::ASCII(string)),
                None => Err(DecodeError::CantReadField),
            }
        },
    }
}

// ---------------------------------------------------------------------------
// Fields
// ---------------------------------------------------------------------------

/// Where the first field with `tag` is, from `from` on.
pub open spec fn position_from(fields: Seq<Field>, tag: Tag, from: int) -> Option<int>
    decreases fields.len() - from,
{
    if from < 0 || from >= fields.len() {
        None
    } else if fields[from].tag == tag {
        Some(from)
    } else {
        position_from(fields, tag, from + 1)
    }
}

/// The values of the first field with `tag`.
pub open spec fn field_data(fields: Seq<Field>, tag: Tag) -> Option<FieldData> {
    match position_from(fields, tag, 0) {
        Some(i) => Some(fields[i].data),
        None => None,
    }
}

/// The values of the first field with `tag`, or `MissingRequiredField`.
pub open spec fn required_data(fields: Seq<Field>, tag: Tag) -> Result<FieldData, DecodeError> {
    match field_data(fields, tag) {
        Some(data) => Ok(data),
        None => Err(DecodeError::MissingRequiredField),
    }
}

/// Where the first field with `tag` is.
fn position(fields: &[Entry], tag: Tag) -> (r: Option<usize>)
    ensures
        match position_from(fields_of(fields@), tag, 0) {
            Some(i) => r == Some(i as usize) && 0 <= i < fields@.len(),
            None => r is None,
        },
{
    let mut i: usize = 0;
    while i < fields.len()
        invariant
            i <= fields@.len(),
            position_from(fields_of(fields@), tag, 0) == position_from(
                fields_of(fields@),
                tag,
                i as int,
            ),
        decreases fields.len() - i,
    {
        assert(fields_of(fields@)[i as int] == fields@[i as int]@);
        if fields[i].tag() == tag {
            return Some(i);
        }
        i += 1;
    }
    None
}

/// The values of the first field with `tag`.
pub fn find(fields: &[Entry], tag: Tag) -> (r: Option<&Values>)
    ensures
        match field_data(fields_of(fields@), tag) {
            Some(data) => r matches Some(values) && values@ == data,
            None => r is None,
        },
{
    match position(fields, tag) {
        Some(i) => {
            assert(fields_of(fields@)[i as int] == fields@[i as int]@);
            Some(fields[i].values())
        },
        None => None,
    }
}

/// The values of the first field with `tag`, or `MissingRequiredField`.
pub fn find_required(fields: &[Entry], tag: Tag) -> (r: Result<&Values, DecodeError>)
    ensures
        match required_data(fields_of(fields@), tag) {
            Ok(data) => r matches Ok(values) && values@ == data,
            Err(e) => r matches Err(f) && f == e,
        },
{
    match find(fields, tag) {
        Some(values) => Ok(values),
        None => Err(DecodeError::MissingRequiredField),
    }
}

/// Takes the first field with `tag` out of `fields` and returns its
/// values; the last field takes its place.
pub fn take(fields: &mut Vec<Entry>, tag: Tag) -> (r: Option<Values>)
    ensures
        match position_from(fields_of(old(fields)@), tag, 0) {
            Some(i) => {
                &&& r matches Some(values) && values@ == old(fields)@[i]@.data
                &&& final(fields)@ == old(fields)@.update(i, old(fields)@.last()).drop_last()
            },
            None => r is None && final(fields)@ == old(fields)@,
        },
{
    match position(fields.as_slice(), tag) {
        Some(pos) => {
            let entry = fields.swap_remove(pos);
            Some(entry.into_values())
        },
        None => None,
    }
}

/// Takes the first field with `tag` out of `fields` and returns its
/// values, or `MissingRequiredField`.
pub fn take_required(fields: &mut Vec<Entry>, tag: Tag) -> (r: Result<Values, DecodeError>)
    ensures
        match position_from(fields_of(old(fields)@), tag, 0) {
            Some(i) => {
                &&& r matches Ok(values) && values@ == old(fields)@[i]@.data
                &&& final(fields)@ == old(fields)@.update(i, old(fields)@.last()).drop_last()
            },
            None => r matches Err(e) && e == DecodeError::MissingRequiredField && final(fields)@
                == old(fields)@,
        },
{
    match take(fields, tag) {
        Some(values) => Ok(values),
        None => Err(DecodeError::MissingRequiredField),
    }
}

/// The one short that `data` is: `InvalidTagValues` if it holds no shorts,
/// `InvalidTagValueCount` if not exactly one.
pub open spec fn single_short(data: FieldData) -> Result<u16, DecodeError> {
    match data {
        FieldData::Shorts(shorts) => if shorts.len() == 1 {
            Ok(shorts[0])
        } else {
            Err(DecodeError::InvalidTagValueCount)
        },
        _ => Err(DecodeError::InvalidTagValues),
    }
}

/// The one short or long that `data` is: `InvalidTagValues` if it holds
/// neither shorts nor longs, `InvalidTagValueCount` if not exactly one.
pub open spec fn single_number(data: FieldData) -> Result<u32, DecodeError> {
    match data {
        FieldData::Shorts(shorts) => if shorts.len() == 1 {
            Ok(shorts[0] as u32)
        } else {
            Err(DecodeError::InvalidTagValueCount)
        },
        FieldData::Longs(longs) => if longs.len() == 1 {
            Ok(longs[0])
        } else {
            Err(DecodeError::InvalidTagValueCount)
        },
        _ => Err(DecodeError::InvalidTagValues),
    }
}

/// The one fraction that `data` is: `InvalidTagValues` if it holds no
/// fractions, `InvalidTagValueCount` if not exactly one.
pub open spec fn single_rational(data: FieldData) -> Result<URational, DecodeError> {
    match data {
        FieldData::Rationals(rationals) => if rationals.len() == 1 {
            Ok(rationals[0])
        } else {
            Err(DecodeError::InvalidTagValueCount)
        },
        _ => Err(DecodeError::InvalidTagValues),
    }
}

/// The shorts or longs of `data` as numbers; `InvalidTagValues` if it
/// holds neither.
pub open spec fn numbers(data: FieldData) -> Result<Seq<int>, DecodeError> {
    match data {
        FieldData::Shorts(shorts) => Ok(Seq::new(shorts.len(), |i: int| shorts[i] as int)),
        FieldData::Longs(longs) => Ok(Seq::new(longs.len(), |i: int| longs[i] as int)),
        _ => Err(DecodeError::InvalidTagValues),
    }
}

/// Reads a single short
pub fn read_single_short(values: &Values) -> (r: Result<Short, DecodeError>)
    ensures
        r == single_short(values@),
{
    match values {
        Values::Shorts(shorts) => if shorts.len() == 1 {
            Ok(shorts[0])
        } else {
            Err(DecodeError::InvalidTagValueCount)
        },
        _ => Err(DecodeError::InvalidTagValues),
    }
}

/// Reads a single short or long
pub fn read_single(values: &Values) -> (r: Result<Long, DecodeError>)
    ensures
        r == single_number(values@),
{
    match values {
        Values::Shorts(shorts) => if shorts.len() == 1 {
            Ok(shorts[0] as Long)
        } else {
            Err(DecodeError::InvalidTagValueCount)
        },
        Values::Longs(longs) => if longs.len() == 1 {
            Ok(longs[0])
        } else {
            Err(DecodeError::InvalidTagValueCount)
        },
        _ => Err(DecodeError::InvalidTagValues),
    }
}

/// Reads a single fraction
pub fn read_single_rational(values: &Values) -> (r: Result<URational, DecodeError>)
    ensures
        r == single_rational(values@),
{
    match values {
        Values::Rationals(rationals) => if rationals.len() == 1 {
            Ok(rationals[0])
        } else {
            Err(DecodeError::InvalidTagValueCount)
        },
        _ => Err(DecodeError::InvalidTagValues),
    }
}

/// Reads shorts or longs
pub fn as_usizes(values: &Values) -> (r: Result<Vec<usize>, DecodeError>)
    ensures
        match numbers(values@) {
            Ok(found) => r matches Ok(v) && v@.len() == found.len() && forall|i: int|
                0 <= i < found.len() ==> v@[i] == found[i],
            Err(e) => r matches Err(f) && f == e,
        },
{
    match values {
        Values::Shorts(shorts) => {
            let mut v: Vec<usize> = Vec::new();
            let mut i: usize = 0;
            while i < shorts.len()
                invariant
                    i <= shorts@.len(),
                    v@.len() == i,
                    forall|k: int| 0 <= k < i ==> v@[k] == shorts@[k],
                decreases shorts.len() - i,
            {
                v.push(shorts[i] as usize);
                i += 1;
            }
            Ok(v)
        },
        Values::Longs(longs) => {
            let mut v: Vec<usize> = Vec::new();
            let mut i: usize = 0;
            while i < longs.len()
                invariant
                    i <= longs@.len(),
                    v@.len() == i,
                    forall|k: int| 0 <= k < i ==> v@[k] == longs@[k],
                decreases longs.len() - i,
            {
                v.push(longs[i] as usize);
                i += 1;
            }
            Ok(v)
        },
        _ => Err(DecodeError::InvalidTagValues),
    }
}

} // verus!
