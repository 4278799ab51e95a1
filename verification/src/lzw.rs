//! LZW as TIFF uses it: codes of 9 to 12 bits, highest bit first, with a
//! code that clears the dictionary and one that ends the data.
//!
//! The codes `0..=255` stand for single bytes. The dictionary gives the
//! codes from 258 on to strings of two or more bytes, in the order in
//! which the encoder meets them. A code is as wide as the next free code
//! asks for: 9 bits while that is below 512, then 10, 11 and 12.

use crate::byte_order::append_bytes;
use crate::packers::{
    bit_at, bit_of_byte, bits_number, pack_bits, packed_bits, unpacked_bits, weight_of_bit,
};
use std::collections::HashMap;
use vstd::prelude::*;

verus! {

broadcast use vstd::std_specs::hash::group_hash_axioms;

/// Empties the dictionary.
pub const CLEAR_CODE: u16 = 256;

/// Ends the data.
pub const END_OF_INFORMATION_CODE: u16 = 257;

/// The first code that the dictionary gives out.
pub const FIRST_CODE: u16 = 258;

/// When this is the next free code, the dictionary is emptied.
pub const MAX_CODE: u16 = 4094;

// ---------------------------------------------------------------------------
// Codes and bits
// ---------------------------------------------------------------------------

/// A code as it is written: its value and the number of bits it takes.
pub struct Code {
    pub value: int,
    pub width: int,
}

/// Number of bits of a code that is written while `next_code` is the next
/// free code of the dictionary.
pub open spec fn code_width(next_code: int) -> int {
    if next_code < 512 {
        9
    } else if next_code < 1024 {
        10
    } else if next_code < 2048 {
        11
    } else {
        12
    }
}

/// The lowest `width` bits of `value`, highest first.
pub open spec fn code_bits(value: int, width: int) -> Seq<bool>
    decreases width,
{
    if width <= 0 {
        Seq::empty()
    } else {
        code_bits(value / 2, width - 1).push(value % 2 == 1)
    }
}

/// The bits of all of `codes`, one code after the other.
pub open spec fn stream_bits(codes: Seq<Code>) -> Seq<bool>
    decreases codes.len(),
{
    if codes.len() == 0 {
        Seq::empty()
    } else {
        stream_bits(codes.drop_last()) + code_bits(codes.last().value, codes.last().width)
    }
}

// ---------------------------------------------------------------------------
// The encoder, as a function on sequences
// ---------------------------------------------------------------------------

/// The encoder between two input bytes.
pub struct Coder {
    /// The strings that have a code, with their codes.
    pub table: Map<Seq<u8>, int>,
    /// The code that the next new string gets.
    pub next_code: int,
    /// The input that was read and not written yet. It has a code.
    pub prefix: Seq<u8>,
    /// The codes written so far.
    pub out: Seq<Code>,
}

/// The code of a string: the byte itself for a single byte, else what the
/// dictionary says.
pub open spec fn code_of(table: Map<Seq<u8>, int>, string: Seq<u8>) -> int {
    if string.len() == 1 {
        string[0] as int
    } else {
        table[string]
    }
}

/// The encoder before any input: it has written the code that clears the
/// dictionary.
pub open spec fn coder_start() -> Coder {
    Coder {
        table: Map::empty(),
        next_code: FIRST_CODE as int,
        prefix: Seq::empty(),
        out: seq![Code { value: CLEAR_CODE as int, width: 9 }],
    }
}

/// The encoder after one more input byte. While the prefix with the byte
/// has a code, the prefix grows. Else the code of the prefix is written,
/// the prefix with the byte gets the next code, and the byte is the new
/// prefix; if that next code is the last one, the clear code is written
/// too and the dictionary is empty again.
pub open spec fn coder_step(s: Coder, b: u8) -> Coder {
    let grown = s.prefix.push(b);
    if s.prefix.len() == 0 || s.table.contains_key(grown) {
        Coder { prefix: grown, ..s }
    } else {
        let out = s.out.push(
            Code { value: code_of(s.table, s.prefix), width: code_width(s.next_code) },
        );
        if s.next_code == MAX_CODE {
            Coder {
                table: Map::empty(),
                next_code: FIRST_CODE as int,
                prefix: seq![b],
                out: out.push(Code { value: CLEAR_CODE as int, width: 12 }),
            }
        } else {
            Coder {
                table: s.table.insert(grown, s.next_code),
                next_code: s.next_code + 1,
                prefix: seq![b],
                out,
            }
        }
    }
}

/// The encoder after all of `input`.
pub open spec fn coder_after(input: Seq<u8>) -> Coder
    decreases input.len(),
{
    if input.len() == 0 {
        coder_start()
    } else {
        coder_step(coder_after(input.drop_last()), input.last())
    }
}

/// What is written at the end of the input: the code of the prefix, if
/// there is one, and the code that ends the data, both as wide as the next
/// free code asks for.
pub open spec fn coder_finish(s: Coder) -> Seq<Code> {
    let width = code_width(s.next_code);
    let last = if s.prefix.len() == 0 {
        s.out
    } else {
        s.out.push(Code { value: code_of(s.table, s.prefix), width })
    };
    last.push(Code { value: END_OF_INFORMATION_CODE as int, width })
}

/// The codes that stand for `input`.
pub open spec fn lzw_codes(input: Seq<u8>) -> Seq<Code> {
    coder_finish(coder_after(input))
}

/// The compressed form of `input`: its codes as bits, packed into bytes.
pub open spec fn lzw_compressed(input: Seq<u8>) -> Seq<u8> {
    packed_bits(stream_bits(lzw_codes(input)))
}

/// What the encoder keeps true of its dictionary: the strings in it have
/// two bytes or more and codes from 258 up to the next free one, no two
/// have the same code, each without its last byte has a code too, and so
/// has the prefix.
pub open spec fn coder_ok(s: Coder) -> bool {
    &&& FIRST_CODE <= s.next_code <= MAX_CODE
    &&& s.prefix.len() <= 1 || s.table.contains_key(s.prefix)
    &&& forall|a: Seq<u8>| #[trigger]
        s.table.contains_key(a) ==> {
            &&& a.len() >= 2
            &&& FIRST_CODE <= s.table[a] < s.next_code
            &&& a.drop_last().len() == 1 || s.table.contains_key(a.drop_last())
        }
    &&& forall|a: Seq<u8>, b: Seq<u8>|
        #![trigger s.table.contains_key(a), s.table.contains_key(b)]
        s.table.contains_key(a) && s.table.contains_key(b) && s.table[a] == s.table[b] ==> a
            == b
}

/// A string has a code: it is a single byte or it is in the dictionary.
pub open spec fn has_code(table: Map<Seq<u8>, int>, string: Seq<u8>) -> bool {
    string.len() == 1 || table.contains_key(string)
}

/// Two strings with the same code are the same string.
pub proof fn lemma_code_of_injective(s: Coder, a: Seq<u8>, b: Seq<u8>)
    requires
        coder_ok(s),
        has_code(s.table, a),
        has_code(s.table, b),
        code_of(s.table, a) == code_of(s.table, b),
    ensures
        a == b,
{
    if a.len() == 1 && b.len() == 1 {
        assert(a =~= b);
    }
}

/// The encoder keeps its dictionary in order.
pub proof fn lemma_coder_step_ok(s: Coder, b: u8)
    requires
        coder_ok(s),
    ensures
        coder_ok(coder_step(s, b)),
        coder_step(s, b).prefix.len() > 0,
{
    let grown = s.prefix.push(b);
    let t = coder_step(s, b);
    if s.prefix.len() == 0 || s.table.contains_key(grown) {
    } else if s.next_code == MAX_CODE {
    } else {
        assert(grown.drop_last() == s.prefix);
        assert forall|a: Seq<u8>| #[trigger] t.table.contains_key(a) implies {
            &&& a.len() >= 2
            &&& FIRST_CODE <= t.table[a] < t.next_code
            &&& a.drop_last().len() == 1 || t.table.contains_key(a.drop_last())
        } by {
            if a != grown {
                assert(s.table.contains_key(a));
            }
        }
        assert forall|a: Seq<u8>, c: Seq<u8>|
            #![trigger t.table.contains_key(a), t.table.contains_key(c)]
            t.table.contains_key(a) && t.table.contains_key(c) && t.table[a]
                == t.table[c] implies a == c by {
            if a != grown {
                assert(s.table.contains_key(a));
            }
            if c != grown {
                assert(s.table.contains_key(c));
            }
        }
    }
}

/// The encoder's dictionary is in order after any input.
pub proof fn lemma_coder_after_ok(input: Seq<u8>)
    ensures
        coder_ok(coder_after(input)),
        input.len() > 0 ==> coder_after(input).prefix.len() > 0,
        input.len() == 0 ==> coder_after(input).prefix.len() == 0,
    decreases input.len(),
{
    if input.len() > 0 {
        lemma_coder_after_ok(input.drop_last());
        lemma_coder_step_ok(coder_after(input.drop_last()), input.last());
    }
}

// ---------------------------------------------------------------------------
// The encoder
// ---------------------------------------------------------------------------

/// Number of bits of a code that is written while `next_code` is the next
/// free code.
pub fn get_bitcount(next_code: u16) -> (r: u8)
    ensures
        r == code_width(next_code as int),
{
    if next_code < 512 {
        9
    } else if next_code < 1024 {
        10
    } else if next_code < 2048 {
        11
    } else {
        12
    }
}

/// Appends the lowest `bitcount` bits of `code`, highest first.
pub fn append_code(bits: &mut Vec<bool>, code: u16, bitcount: u8)
    requires
        bitcount <= 16,
    ensures
        final(bits)@ == old(bits)@ + code_bits(code as int, bitcount as int),
{
    let wide: u32 = code as u32;
    let mut i: u8 = 0;
    assert(wide >> 0u32 == wide) by (bit_vector);
    proof {
        assert(old(bits)@ + code_bits((wide >> bitcount) as int, 0) == old(bits)@);
    }
    while i < bitcount
        invariant
            i <= bitcount <= 16,
            wide == code,
            bits@ == old(bits)@ + code_bits((wide >> ((bitcount - i) as u32)) as int, i as int),
        decreases bitcount - i,
    {
        let shift: u32 = (bitcount - i - 1) as u32;
        let bit: bool = (wide >> shift) & 1 != 0;
        proof {
            let above: u32 = (shift + 1) as u32;
            assert((wide >> shift) / 2 == wide >> above && (((wide >> shift) & 1 != 0) == ((wide
                >> shift) % 2 == 1))) by (bit_vector)
                requires
                    above == shift + 1,
                    shift < 16,
            ;
            assert(old(bits)@ + code_bits((wide >> above) as int, i as int).push(bit) == (old(
                bits,
            )@ + code_bits((wide >> above) as int, i as int)).push(bit));
        }
        bits.push(bit);
        i += 1;
    }
    assert(wide >> 0u32 == wide) by (bit_vector);
}

/// The key under which the dictionary holds a string of two bytes or more:
/// the code of the string without its last byte, and that byte.
pub open spec fn key_of(table: Map<Seq<u8>, int>, string: Seq<u8>) -> int {
    code_of(table, string.drop_last()) * 256 + string.last()
}

/// The hash map holds the dictionary: each string under its key, and
/// nothing else. `names` says which string a key stands for.
pub open spec fn holds_table(
    codes: Map<u64, u16>,
    names: Map<u64, Seq<u8>>,
    table: Map<Seq<u8>, int>,
) -> bool {
    &&& forall|a: Seq<u8>| #[trigger]
        table.contains_key(a) ==> {
            &&& codes.contains_key(key_of(table, a) as u64)
            &&& codes[key_of(table, a) as u64] == table[a]
        }
    &&& forall|k: u64| #[trigger]
        codes.contains_key(k) ==> {
            &&& table.contains_key(names[k])
            &&& key_of(table, names[k]) == k
        }
}

/// A key that the hash map holds is the key of the string that it stands
/// for, and of no other string that has a code.
proof fn lemma_key_found(
    s: Coder,
    codes: Map<u64, u16>,
    names: Map<u64, Seq<u8>>,
    b: u8,
    key: u64,
)
    requires
        coder_ok(s),
        s.prefix.len() > 0,
        holds_table(codes, names, s.table),
        key == code_of(s.table, s.prefix) * 256 + b,
    ensures
        codes.contains_key(key) <==> s.table.contains_key(s.prefix.push(b)),
        codes.contains_key(key) ==> codes[key] == s.table[s.prefix.push(b)],
        0 <= code_of(s.table, s.prefix) < s.next_code,
{
    let grown = s.prefix.push(b);
    assert(grown.drop_last() == s.prefix);
    assert(grown.last() == b);
    if codes.contains_key(key) {
        let found = names[key];
        assert(s.table.contains_key(found));
        assert(has_code(s.table, found.drop_last()));
        lemma_code_of_injective(s, found.drop_last(), s.prefix);
        assert(found =~= grown);
    }
    if s.table.contains_key(grown) {
        assert(key_of(s.table, grown) == key);
    }
}

/// A new string in the dictionary and its key in the hash map keep the two
/// in step.
proof fn lemma_key_added(
    s: Coder,
    codes: Map<u64, u16>,
    names: Map<u64, Seq<u8>>,
    b: u8,
    key: u64,
)
    requires
        coder_ok(s),
        s.prefix.len() > 0,
        s.next_code < MAX_CODE,
        holds_table(codes, names, s.table),
        key == code_of(s.table, s.prefix) * 256 + b,
        !s.table.contains_key(s.prefix.push(b)),
    ensures
        holds_table(
            codes.insert(key, s.next_code as u16),
            names.insert(key, s.prefix.push(b)),
            s.table.insert(s.prefix.push(b), s.next_code),
        ),
{
    let grown = s.prefix.push(b);
    let table = s.table.insert(grown, s.next_code);
    let codes2 = codes.insert(key, s.next_code as u16);
    let names2 = names.insert(key, grown);
    lemma_key_found(s, codes, names, b, key);
    assert(grown.drop_last() == s.prefix);
    assert(grown.last() == b);
    assert forall|a: Seq<u8>| #[trigger] table.contains_key(a) implies key_of(table, a) == if a
        == grown {
        key as int
    } else {
        key_of(s.table, a)
    } by {
        if a != grown {
            assert(s.table.contains_key(a));
            assert(a.drop_last() != grown) by {
                if a.drop_last() == grown {
                    assert(s.table.contains_key(a.drop_last()));
                }
            }
        } else {
            assert(s.prefix != grown);
        }
    }
    assert forall|a: Seq<u8>| #[trigger] table.contains_key(a) implies {
        &&& codes2.contains_key(key_of(table, a) as u64)
        &&& codes2[key_of(table, a) as u64] == table[a]
    } by {
        if a != grown {
            assert(s.table.contains_key(a));
            assert(codes.contains_key(key_of(s.table, a) as u64));
            if key_of(s.table, a) as u64 == key {
                assert(codes.contains_key(key));
            }
        }
    }
    assert forall|k: u64| #[trigger] codes2.contains_key(k) implies {
        &&& table.contains_key(names2[k])
        &&& key_of(table, names2[k]) == k
    } by {
        if k != key {
            assert(codes.contains_key(k));
            assert(s.table.contains_key(names[k]));
        }
    }
}

/// The codes that stand for `input`, as bits.
pub fn lzw_bits(input: &[u8]) -> (bits: Vec<bool>)
    ensures
        bits@ == stream_bits(lzw_codes(input@)),
{
    let mut bits: Vec<bool> = Vec::new();
    let mut string_table: HashMap<u64, u16> = HashMap::new();
    let mut next_code: u16 = FIRST_CODE;
    let mut prefix: Option<u16> = None;
    let ghost mut s: Coder = coder_start();
    let ghost mut names: Map<u64, Seq<u8>> = Map::empty();

    append_code(&mut bits, CLEAR_CODE, 9);
    proof {
        assert(s.out.drop_last() == Seq::<Code>::empty());
        assert(stream_bits(s.out.drop_last()) == Seq::<bool>::empty());
        assert(input@.take(0) == Seq::<u8>::empty());
    }
    let mut i: usize = 0;
    while i < input.len()
        invariant
            i <= input.len(),
            s == coder_after(input@.take(i as int)),
            coder_ok(s),
            (i == 0) == (s.prefix.len() == 0),
            bits@ == stream_bits(s.out),
            holds_table(string_table@, names, s.table),
            next_code == s.next_code,
            match prefix {
                Some(code) => s.prefix.len() > 0 && code == code_of(s.table, s.prefix),
                None => s.prefix.len() == 0,
            },
        decreases input.len() - i,
    {
        let byte = input[i];
        proof {
            assert(input@.take(i + 1).drop_last() == input@.take(i as int));
            assert(input@.take(i + 1).last() == byte);
            lemma_coder_step_ok(s, byte);
        }
        let ghost t = coder_step(s, byte);
        match prefix {
            None => {
                prefix = Some(byte as u16);
            },
            Some(code) => {
                proof {
                    lemma_key_found(s, string_table@, names, byte, (code * 256 + byte) as u64);
                }
                let key: u64 = code as u64 * 256 + byte as u64;
                match string_table.get(&key) {
                    Some(found) => {
                        prefix = Some(*found);
                    },
                    None => {
                        let ghost before = bits@;
                        append_code(&mut bits, code, get_bitcount(next_code));
                        proof {
                            let written = s.out.push(
                                Code {
                                    value: code_of(s.table, s.prefix),
                                    width: code_width(s.next_code),
                                },
                            );
                            assert(written.drop_last() == s.out);
                            assert(bits@ == stream_bits(written));
                        }
                        if next_code == MAX_CODE {
                            proof {
                                let written = s.out.push(
                                    Code {
                                        value: code_of(s.table, s.prefix),
                                        width: code_width(s.next_code),
                                    },
                                );
                                assert(t.out.drop_last() == written);
                            }
                            append_code(&mut bits, CLEAR_CODE, 12);
                            string_table.clear();
                            next_code = FIRST_CODE;
                            proof {
                                names = Map::empty();
                            }
                        } else {
                            proof {
                                lemma_key_added(s, string_table@, names, byte, key);
                                names = names.insert(key, s.prefix.push(byte));
                            }
                            string_table.insert(key, next_code);
                            next_code = next_code + 1;
                        }
                        prefix = Some(byte as u16);
                    },
                }
            },
        }
        proof {
            s = t;
        }
        i += 1;
    }
    assert(input@.take(i as int) == input@);
    let bitcount = get_bitcount(next_code);
    let ghost last = if s.prefix.len() == 0 {
        s.out
    } else {
        s.out.push(Code { value: code_of(s.table, s.prefix), width: code_width(s.next_code) })
    };
    if let Some(code) = prefix {
        append_code(&mut bits, code, bitcount);
        assert(last.drop_last() == s.out);
    }
    assert(bits@ == stream_bits(last));
    append_code(&mut bits, END_OF_INFORMATION_CODE, bitcount);
    assert(coder_finish(s).drop_last() == last);
    bits
}

/// The compressed form of `input`.
pub fn lzw_encode(input: &[u8]) -> (r: Vec<u8>)
    ensures
        r@ == lzw_compressed(input@),
{
    let bits = lzw_bits(input);
    pack_bits(&bits)
}

// ---------------------------------------------------------------------------
// The decoder, as a function on sequences
// ---------------------------------------------------------------------------

/// The decoder between two codes.
pub struct Decoder {
    /// The strings of the codes from 258 on, in order.
    pub table: Seq<Seq<u8>>,
    /// The string of the code read last, if one was read since the
    /// dictionary was last empty.
    pub prev: Option<Seq<u8>>,
    /// The bytes that the codes read so far stand for.
    pub out: Seq<u8>,
}

/// The decoder with an empty dictionary.
pub open spec fn decoder_start(out: Seq<u8>) -> Decoder {
    Decoder { table: Seq::empty(), prev: None, out }
}

/// Width of the code read last; 9 if the dictionary was empty since.
pub open spec fn width_last(d: Decoder) -> int {
    match d.prev {
        None => 9,
        Some(_) => code_width(FIRST_CODE + d.table.len()),
    }
}

/// Width of the next code, unless it ends the data: the encoder has one
/// string more in its dictionary than the decoder.
pub open spec fn width_next(d: Decoder) -> int {
    match d.prev {
        None => 9,
        Some(_) => code_width(FIRST_CODE + d.table.len() + 1),
    }
}

/// The string that `code` stands for. A code from 258 on stands for its
/// string in the dictionary; the first code that the dictionary does not
/// have yet stands for the last string followed by its own first byte.
pub open spec fn string_of(d: Decoder, code: int) -> Option<Seq<u8>> {
    if 0 <= code < 256 {
        Some(seq![code as u8])
    } else {
        match d.prev {
            Some(p) => if p.len() > 0 && FIRST_CODE <= code && code - FIRST_CODE
                < d.table.len() {
                Some(d.table[code - FIRST_CODE])
            } else if p.len() > 0 && code - FIRST_CODE == d.table.len() {
                Some(p.push(p[0]))
            } else {
                None
            },
            None => None,
        }
    }
}

/// The decoder after a code that stands for a string: the string is
/// written, and the last string followed by the first byte of this one gets
/// the next code. `None` if the code stands for nothing.
pub open spec fn decoder_step(d: Decoder, code: int) -> Option<Decoder> {
    match string_of(d, code) {
        None => None,
        Some(string) => Some(
            Decoder {
                table: match d.prev {
                    Some(p) => d.table.push(p.push(string[0])),
                    None => d.table,
                },
                prev: Some(string),
                out: d.out + string,
            },
        ),
    }
}

/// What the codes in `bits` from `pos` on stand for, after what `d` has
/// written. A code is as wide as the next free code asks for. Only the
/// code that ends the data is as wide as the code before it: where that is
/// one bit less, and so few bits are left that no code could follow a
/// wider one, the narrower width is read, and it must be that code.
/// `None` if the bits end before the code that ends the data, or a code
/// stands for nothing.
pub open spec fn decoded_from(bits: Seq<bool>, pos: int, d: Decoder) -> Option<Seq<u8>>
    decreases bits.len() - pos,
{
    let narrow = width_last(d);
    let wide = width_next(d);
    let left = bits.len() - pos;
    if pos < 0 {
        None
    } else if narrow != wide && left < wide + 9 {
        if left >= narrow && bits_number(bits, pos, narrow) == END_OF_INFORMATION_CODE {
            Some(d.out)
        } else {
            None
        }
    } else if left < wide {
        None
    } else {
        let code = bits_number(bits, pos, wide);
        if code == CLEAR_CODE {
            decoded_from(bits, pos + wide, decoder_start(d.out))
        } else if code == END_OF_INFORMATION_CODE {
            Some(d.out)
        } else {
            match decoder_step(d, code) {
                None => None,
                Some(next) => decoded_from(bits, pos + wide, next),
            }
        }
    }
}

/// What the compressed bytes stand for.
pub open spec fn lzw_decompressed(bytes: Seq<u8>) -> Option<Seq<u8>> {
    decoded_from(unpacked_bits(bytes), 0, decoder_start(Seq::empty()))
}

// ---------------------------------------------------------------------------
// The decoder
// ---------------------------------------------------------------------------

/// Width of a code while the dictionary holds `entries` strings.
fn width_for(entries: usize) -> (r: usize)
    ensures
        r == code_width(FIRST_CODE + entries),
        9 <= r <= 12,
{
    if entries < 512 - 258 {
        9
    } else if entries < 1024 - 258 {
        10
    } else if entries < 2048 - 258 {
        11
    } else {
        12
    }
}

/// Where a reader stands in the bytes: at bit `bit` of byte `byte`.
#[derive(Clone, Copy)]
pub struct BitCursor {
    pub byte: usize,
    pub bit: usize,
}

impl BitCursor {
    /// The number of bits before the cursor.
    pub open spec fn pos(self) -> int {
        8 * self.byte + self.bit
    }
}

/// Reads `n` more bits at the cursor onto `value`, highest first. `None`
/// if fewer than `n` bits are left.
fn read_bits(bytes: &[u8], at: BitCursor, value: u32, n: usize, Ghost(start): Ghost<int>) -> (r:
    Option<(BitCursor, u32)>)
    requires
        at.bit < 8,
        at.byte <= bytes@.len(),
        at.byte == bytes@.len() ==> at.bit == 0,
        n <= 12,
        0 <= start <= at.pos(),
        at.pos() - start + n <= 12,
        value == bits_number(unpacked_bits(bytes@), start, at.pos() - start),
    ensures
        match r {
            Some((to, v)) => {
                &&& at.pos() + n <= 8 * bytes@.len()
                &&& to.pos() == at.pos() + n
                &&& to.bit < 8
                &&& to.byte <= bytes@.len()
                &&& to.byte == bytes@.len() ==> to.bit == 0
                &&& v == bits_number(unpacked_bits(bytes@), start, to.pos() - start)
            },
            None => at.pos() + n > 8 * bytes@.len(),
        },
{
    let mut to = at;
    let mut v: u32 = value;
    let mut i: usize = 0;
    let ghost bits = unpacked_bits(bytes@);
    while i < n
        invariant
            i <= n <= 12,
            at.pos() - start + n <= 12,
            0 <= start <= at.pos(),
            bits == unpacked_bits(bytes@),
            to.pos() == at.pos() + i,
            to.bit < 8,
            to.byte <= bytes@.len(),
            to.byte == bytes@.len() ==> to.bit == 0,
            v == bits_number(bits, start, to.pos() - start),
        decreases n - i,
    {
        if to.byte >= bytes.len() {
            return None;
        }
        let bit: u32 = if (bytes[to.byte] / weight_of_bit(to.bit)) % 2 == 1 {
            1
        } else {
            0
        };
        proof {
            let k = to.pos();
            assert(k / 8 == to.byte && k % 8 == to.bit);
            assert(bits[k] == bit_of_byte(bytes@[to.byte as int], to.bit as int));
            assert(bit == bit_at(bits, k));
            lemma_bits_number_below(bits, start, k - start);
            lemma_bits_number_below(bits, start, k + 1 - start);
        }
        v = v * 2 + bit;
        if to.bit == 7 {
            to = BitCursor { byte: to.byte + 1, bit: 0 };
        } else {
            to = BitCursor { byte: to.byte, bit: to.bit + 1 };
        }
        i += 1;
    }
    Some((to, v))
}

/// `n` bits spell a number below two to the `n`.
pub open spec fn two_to(n: int) -> int
    decreases n,
{
    if n <= 0 {
        1
    } else {
        2 * two_to(n - 1)
    }
}

/// `n` bits spell a number below two to the `n`.
pub proof fn lemma_bits_number_below(bits: Seq<bool>, start: int, n: int)
    ensures
        0 <= bits_number(bits, start, n) < two_to(n),
        n <= 12 ==> two_to(n) <= 4096,
    decreases n,
{
    reveal_with_fuel(two_to, 14);
    if n > 0 {
        lemma_bits_number_below(bits, start, n - 1);
    }
}

/// A copy of `src`.
fn copy_of(src: &Vec<u8>) -> (r: Vec<u8>)
    ensures
        r@ == src@,
{
    let mut r: Vec<u8> = Vec::new();
    append_bytes(&mut r, src.as_slice());
    r
}

/// What the compressed bytes stand for; `None` if they end before the code
/// that ends the data, or hold a code that stands for nothing.
pub fn lzw_decode(bytes: &[u8]) -> (r: Option<Vec<u8>>)
    ensures
        match lzw_decompressed(bytes@) {
            Some(data) => r matches Some(v) && v@ == data,
            None => r is None,
        },
{
    let mut out: Vec<u8> = Vec::new();
    let mut table: Vec<Vec<u8>> = Vec::new();
    let mut prev: Option<Vec<u8>> = None;
    let mut at = BitCursor { byte: 0, bit: 0 };
    let ghost bits = unpacked_bits(bytes@);
    let ghost mut d = decoder_start(Seq::empty());
    loop
        invariant
            bits == unpacked_bits(bytes@),
            lzw_decompressed(bytes@) == decoded_from(bits, at.pos(), d),
            at.bit < 8,
            at.byte <= bytes@.len(),
            at.byte == bytes@.len() ==> at.bit == 0,
            d.out == out@,
            d.table.len() == table@.len(),
            forall|i: int| 0 <= i < table@.len() ==> (#[trigger] table@[i])@ == d.table[i],
            forall|i: int| 0 <= i < d.table.len() ==> (#[trigger] d.table[i]).len() > 0,
            match prev {
                Some(p) => d.prev == Some(p@) && p@.len() > 0,
                None => d.prev is None,
            },
        decreases bits.len() - at.pos(),
    {
        let narrow: usize = if prev.is_none() {
            9
        } else {
            width_for(table.len())
        };
        let wide: usize = if prev.is_none() {
            9
        } else if table.len() < 4096 {
            width_for(table.len() + 1)
        } else {
            12
        };
        let left_bytes: usize = bytes.len() - at.byte;
        if narrow != wide && left_bytes <= 3 && 8 * left_bytes - at.bit < wide + 9 {
            return match read_bits(bytes, at, 0, narrow, Ghost(at.pos())) {
                Some((_, code)) => if code == END_OF_INFORMATION_CODE as u32 {
                    Some(out)
                } else {
                    None
                },
                None => None,
            };
        }
        let (next_at, code) = match read_bits(bytes, at, 0, wide, Ghost(at.pos())) {
            Some(read) => read,
            None => {
                return None;
            },
        };
        proof {
            lemma_bits_number_below(bits, at.pos(), wide as int);
        }
        if code == CLEAR_CODE as u32 {
            table = Vec::new();
            prev = None;
            proof {
                d = decoder_start(d.out);
            }
        } else if code == END_OF_INFORMATION_CODE as u32 {
            return Some(out);
        } else {
            let string: Vec<u8> = if code < 256 {
                let mut single: Vec<u8> = Vec::new();
                single.push(code as u8);
                assert(single@ == seq![code as u8]);
                single
            } else {
                match &prev {
                    Some(p) => {
                        let inx: usize = (code - FIRST_CODE as u32) as usize;
                        if inx < table.len() {
                            copy_of(&table[inx])
                        } else if inx == table.len() {
                            let mut grown = copy_of(p);
                            grown.push(p[0]);
                            grown
                        } else {
                            return None;
                        }
                    },
                    None => {
                        return None;
                    },
                }
            };
            assert(string_of(d, code as int) == Some(string@));
            append_bytes(&mut out, string.as_slice());
            if let Some(p) = &prev {
                let mut entry = copy_of(p);
                entry.push(string[0]);
                table.push(entry);
            }
            proof {
                d = decoder_step(d, code as int).unwrap();
            }
            prev = Some(string);
        }
        at = next_at;
    }
}

// ---------------------------------------------------------------------------
// Laws
// ---------------------------------------------------------------------------

/// The decoder after a written code that does not end the data; `None` if
/// the decoder does not read it as it was written.
pub open spec fn decoder_takes(d: Decoder, c: Code) -> Option<Decoder> {
    if c.width != width_next(d) || c.value < 0 || c.value >= two_to(c.width) {
        None
    } else if c.value == CLEAR_CODE {
        Some(decoder_start(d.out))
    } else if c.value == END_OF_INFORMATION_CODE {
        None
    } else {
        decoder_step(d, c.value)
    }
}

/// The decoder after all of `codes`.
pub open spec fn decoder_after(codes: Seq<Code>) -> Option<Decoder>
    decreases codes.len(),
{
    if codes.len() == 0 {
        Some(decoder_start(Seq::empty()))
    } else {
        match decoder_after(codes.drop_last()) {
            Some(d) => decoder_takes(d, codes.last()),
            None => None,
        }
    }
}

/// The decoder has read what the encoder has written: it has written all
/// the input but the encoder's prefix, and its dictionary is the encoder's
/// without the string that the encoder added last, which is the decoder's
/// last string followed by the first byte of the prefix.
pub open spec fn in_step(s: Coder, d: Decoder, input: Seq<u8>) -> bool {
    &&& d.out + s.prefix == input
    &&& match d.prev {
        None => {
            &&& s.next_code == FIRST_CODE
            &&& d.table.len() == 0
            &&& forall|a: Seq<u8>| !#[trigger] s.table.contains_key(a)
        },
        Some(p) => {
            &&& p.len() > 0
            &&& s.prefix.len() > 0
            &&& s.next_code == FIRST_CODE + d.table.len() + 1
            &&& forall|a: Seq<u8>| #[trigger]
                s.table.contains_key(a) ==> if s.table[a] - FIRST_CODE < d.table.len() {
                    d.table[s.table[a] - FIRST_CODE] == a
                } else {
                    a == p.push(s.prefix[0])
                }
        },
    }
}

/// The decoder reads the code of the encoder's prefix as the encoder
/// writes it, and takes it for the prefix.
pub proof fn lemma_decoder_takes_prefix(s: Coder, d: Decoder, input: Seq<u8>)
    requires
        coder_ok(s),
        in_step(s, d, input),
        s.prefix.len() > 0,
    ensures
        decoder_takes(
            d,
            Code { value: code_of(s.table, s.prefix), width: code_width(s.next_code) },
        ) == Some(
            Decoder {
                table: match d.prev {
                    Some(p) => d.table.push(p.push(s.prefix[0])),
                    None => d.table,
                },
                prev: Some(s.prefix),
                out: input,
            },
        ),
        0 <= code_of(s.table, s.prefix) < s.next_code,
        code_of(s.table, s.prefix) < two_to(code_width(s.next_code)),
{
    reveal_with_fuel(two_to, 14);
    let c = code_of(s.table, s.prefix);
    if s.prefix.len() == 1 {
        assert(seq![c as u8] =~= s.prefix);
    } else {
        assert(s.table.contains_key(s.prefix));
        let p = d.prev->0;
        if c - FIRST_CODE >= d.table.len() {
            assert(s.prefix == p.push(s.prefix[0]));
            assert(s.prefix[0] == p.push(s.prefix[0])[0]);
            assert(p[0] == s.prefix[0]);
        }
    }
    assert(string_of(d, c) == Some(s.prefix));
}

/// One more input byte keeps the decoder in step with the encoder.
pub proof fn lemma_in_step(s: Coder, d: Decoder, input: Seq<u8>, b: u8)
    requires
        coder_ok(s),
        in_step(s, d, input),
        decoder_after(s.out) == Some(d),
    ensures
        decoder_after(coder_step(s, b).out) is Some,
        in_step(coder_step(s, b), decoder_after(coder_step(s, b).out).unwrap(), input.push(b)),
{
    reveal_with_fuel(two_to, 14);
    let grown = s.prefix.push(b);
    let t = coder_step(s, b);
    if s.prefix.len() == 0 || s.table.contains_key(grown) {
        assert(d.out + grown == (d.out + s.prefix).push(b));
    } else {
        let code = Code { value: code_of(s.table, s.prefix), width: code_width(s.next_code) };
        let written = s.out.push(code);
        lemma_decoder_takes_prefix(s, d, input);
        let e = decoder_takes(d, code).unwrap();
        assert(written.drop_last() == s.out);
        assert(decoder_after(written) == Some(e));
        assert(e.out + seq![b] == input.push(b));
        if s.next_code == MAX_CODE {
            let clear = Code { value: CLEAR_CODE as int, width: 12 };
            assert(t.out.drop_last() == written);
            assert(t.out.last() == clear);
            assert(decoder_takes(e, clear) == Some(decoder_start(e.out)));
        } else {
            assert(t.out == written);
            assert forall|a: Seq<u8>| #[trigger] t.table.contains_key(a) implies if t.table[a]
                - FIRST_CODE < e.table.len() {
                e.table[t.table[a] - FIRST_CODE] == a
            } else {
                a == s.prefix.push(t.prefix[0])
            } by {
                if a != grown {
                    assert(s.table.contains_key(a));
                }
            }
        }
    }
}

/// After any input the decoder has read what the encoder has written, and
/// is in step with it.
pub proof fn lemma_in_step_after(input: Seq<u8>)
    ensures
        coder_ok(coder_after(input)),
        decoder_after(coder_after(input).out) is Some,
        in_step(coder_after(input), decoder_after(coder_after(input).out).unwrap(), input),
    decreases input.len(),
{
    lemma_coder_after_ok(input);
    if input.len() == 0 {
        let clear = Code { value: CLEAR_CODE as int, width: 9 };
        let s = coder_start();
        reveal_with_fuel(two_to, 14);
        assert(s.out.drop_last() == Seq::<Code>::empty());
        assert(decoder_after(s.out.drop_last()) == Some(decoder_start(Seq::empty())));
        assert(decoder_takes(decoder_start(Seq::empty()), clear) == Some(
            decoder_start(Seq::empty()),
        ));
        assert(Seq::<u8>::empty() + s.prefix == input);
    } else {
        let before = input.drop_last();
        lemma_in_step_after(before);
        lemma_coder_after_ok(before);
        let s = coder_after(before);
        lemma_in_step(s, decoder_after(s.out).unwrap(), before, input.last());
        assert(before.push(input.last()) == input);
    }
}

/// A code has as many bits as its width.
pub proof fn lemma_code_bits_len(value: int, width: int)
    requires
        width >= 0,
    ensures
        code_bits(value, width).len() == width,
    decreases width,
{
    if width > 0 {
        lemma_code_bits_len(value / 2, width - 1);
    }
}

/// Where the bits of a code stand, they spell its value.
pub proof fn lemma_read_code(bits: Seq<bool>, pos: int, value: int, width: int)
    requires
        0 <= pos,
        0 <= width,
        pos + width <= bits.len(),
        0 <= value < two_to(width),
        bits.subrange(pos, pos + width) == code_bits(value, width),
    ensures
        bits_number(bits, pos, width) == value,
    decreases width,
{
    if width > 0 {
        let shorter = code_bits(value / 2, width - 1);
        lemma_code_bits_len(value / 2, width - 1);
        assert(bits.subrange(pos, pos + width - 1) == bits.subrange(pos, pos + width).drop_last());
        assert(shorter.push(value % 2 == 1).drop_last() == shorter);
        lemma_read_code(bits, pos, value / 2, width - 1);
        assert(bits[pos + width - 1] == bits.subrange(pos, pos + width)[width - 1]);
        assert(shorter.push(value % 2 == 1)[width - 1] == (value % 2 == 1));
    }
}

/// The bits of the first codes of a stream are the first bits of the
/// stream.
pub proof fn lemma_stream_prefix(codes: Seq<Code>, j: int)
    requires
        0 <= j <= codes.len(),
        forall|k: int| 0 <= k < codes.len() ==> (#[trigger] codes[k]).width >= 0,
    ensures
        stream_bits(codes.take(j)).len() <= stream_bits(codes).len(),
        stream_bits(codes).take(stream_bits(codes.take(j)).len() as int) == stream_bits(
            codes.take(j),
        ),
        j < codes.len() ==> stream_bits(codes.take(j + 1)) == stream_bits(codes.take(j))
            + code_bits(codes[j].value, codes[j].width),
        j < codes.len() ==> stream_bits(codes.take(j + 1)).len() == stream_bits(
            codes.take(j),
        ).len() + codes[j].width,
    decreases codes.len() - j,
{
    if j == codes.len() {
        assert(codes.take(j) == codes);
    } else {
        lemma_stream_prefix(codes, j + 1);
        assert(codes.take(j + 1).drop_last() == codes.take(j));
        assert(codes.take(j + 1).last() == codes[j]);
        lemma_code_bits_len(codes[j].value, codes[j].width);
        let whole = stream_bits(codes);
        let longer = stream_bits(codes.take(j + 1));
        let shorter = stream_bits(codes.take(j));
        assert(whole.take(shorter.len() as int) == whole.take(longer.len() as int).take(
            shorter.len() as int,
        ));
    }
}

/// If the decoder reads all the codes, it reads the first of them.
pub proof fn lemma_decoder_prefix(codes: Seq<Code>, j: int)
    requires
        0 <= j <= codes.len(),
        decoder_after(codes) is Some,
    ensures
        decoder_after(codes.take(j)) is Some,
        j < codes.len() ==> decoder_after(codes.take(j + 1)) == decoder_takes(
            decoder_after(codes.take(j)).unwrap(),
            codes[j],
        ),
        j < codes.len() ==> decoder_after(codes.take(j + 1)) is Some,
    decreases codes.len() - j,
{
    if j == codes.len() {
        assert(codes.take(j) == codes);
    } else {
        lemma_decoder_prefix(codes, j + 1);
        assert(codes.take(j + 1).drop_last() == codes.take(j));
        assert(codes.take(j + 1).last() == codes[j]);
    }
}

/// Every written code is read with its own width.
pub proof fn lemma_decoder_widths(codes: Seq<Code>)
    requires
        decoder_after(codes) is Some,
    ensures
        forall|k: int| 0 <= k < codes.len() ==> 9 <= (#[trigger] codes[k]).width <= 12,
    decreases codes.len(),
{
    if codes.len() > 0 {
        lemma_decoder_widths(codes.drop_last());
        assert forall|k: int| 0 <= k < codes.len() implies 9 <= (#[trigger] codes[k]).width
            <= 12 by {
            if k < codes.len() - 1 {
                assert(codes.drop_last()[k] == codes[k]);
            }
        }
    }
}

/// From any code on, the decoder reads from the bits what it takes from
/// the codes, up to the code that ends the data.
pub proof fn lemma_decoded_from(bits: Seq<bool>, codes: Seq<Code>, end_width: int, j: int)
    requires
        0 <= j <= codes.len(),
        decoder_after(codes) is Some,
        end_width == width_last(decoder_after(codes).unwrap()),
        stream_bits(codes).len() + end_width <= bits.len() < stream_bits(codes).len() + end_width
            + 8,
        bits.take(stream_bits(codes).len() as int) == stream_bits(codes),
        bits.subrange(
            stream_bits(codes).len() as int,
            stream_bits(codes).len() + end_width,
        ) == code_bits(END_OF_INFORMATION_CODE as int, end_width),
    ensures
        decoder_after(codes.take(j)) is Some,
        decoded_from(
            bits,
            stream_bits(codes.take(j)).len() as int,
            decoder_after(codes.take(j)).unwrap(),
        ) == Some(decoder_after(codes).unwrap().out),
    decreases codes.len() - j,
{
    reveal_with_fuel(two_to, 14);
    lemma_decoder_widths(codes);
    lemma_decoder_prefix(codes, j);
    lemma_stream_prefix(codes, j);
    let d = decoder_after(codes.take(j)).unwrap();
    let pos = stream_bits(codes.take(j)).len() as int;
    if j == codes.len() {
        assert(codes.take(j) == codes);
        lemma_read_code(bits, pos, END_OF_INFORMATION_CODE as int, end_width);
    } else {
        lemma_decoded_from(bits, codes, end_width, j + 1);
        lemma_stream_prefix(codes, j + 1);
        let c = codes[j];
        let wide = width_next(d);
        let narrow = width_last(d);
        let whole = stream_bits(codes);
        let longer = stream_bits(codes.take(j + 1));
        assert(bits.subrange(pos, pos + wide) == code_bits(c.value, wide)) by {
            assert(bits.subrange(pos, pos + wide) == bits.take(whole.len() as int).subrange(
                pos,
                pos + wide,
            ));
            assert(whole.subrange(pos, pos + wide) == whole.take(longer.len() as int).subrange(
                pos,
                pos + wide,
            ));
            assert(longer.subrange(pos, pos + wide) == code_bits(c.value, wide));
        }
        lemma_read_code(bits, pos, c.value, wide);
    }
}

/// Decompressing what the encoder wrote gives the input back.
pub proof fn lemma_lzw_round_trip(input: Seq<u8>)
    ensures
        lzw_decompressed(lzw_compressed(input)) == Some(input),
{
    reveal_with_fuel(two_to, 14);
    lemma_in_step_after(input);
    let s = coder_after(input);
    let d = decoder_after(s.out).unwrap();
    let width = code_width(s.next_code);
    let end = Code { value: END_OF_INFORMATION_CODE as int, width };
    let codes = if s.prefix.len() == 0 {
        s.out
    } else {
        s.out.push(Code { value: code_of(s.table, s.prefix), width })
    };
    if s.prefix.len() > 0 {
        lemma_decoder_takes_prefix(s, d, input);
        assert(codes.drop_last() == s.out);
    } else {
        assert(d.out + s.prefix == d.out);
    }
    let last = decoder_after(codes).unwrap();
    assert(last.out == input);
    assert(width_last(last) == width);
    let all = lzw_codes(input);
    assert(all == codes.push(end));
    assert(all.drop_last() == codes);
    let written = stream_bits(all);
    assert(written == stream_bits(codes) + code_bits(end.value, width));
    lemma_code_bits_len(end.value, width);
    crate::packers::lemma_unpacked_packed_bits(written);
    let bits = unpacked_bits(packed_bits(written));
    assert(bits.take(stream_bits(codes).len() as int) == stream_bits(codes));
    assert(bits.subrange(stream_bits(codes).len() as int, stream_bits(codes).len() + width)
        == code_bits(end.value, width));
    assert(bits.len() < written.len() + 8);
    lemma_decoded_from(bits, codes, width, 0);
    assert(codes.take(0) == Seq::<Code>::empty());
    assert(stream_bits(codes.take(0)).len() == 0);
}

/// The codes of any input begin with the code that clears the dictionary
/// and end with the code that ends the data; each has 9 to 12 bits and a
/// value that fits in them.
pub proof fn lemma_lzw_codes_shape(input: Seq<u8>)
    ensures
        lzw_codes(input).len() >= 2,
        lzw_codes(input).first() == (Code { value: CLEAR_CODE as int, width: 9 }),
        lzw_codes(input).last().value == END_OF_INFORMATION_CODE,
        forall|k: int|
            0 <= k < lzw_codes(input).len() ==> {
                &&& 9 <= (#[trigger] lzw_codes(input)[k]).width <= 12
                &&& 0 <= lzw_codes(input)[k].value < two_to(lzw_codes(input)[k].width)
                &&& lzw_codes(input)[k].value < 4096
            },
{
    reveal_with_fuel(two_to, 14);
    lemma_in_step_after(input);
    lemma_coder_out_shape(input);
    let s = coder_after(input);
    let d = decoder_after(s.out).unwrap();
    if s.prefix.len() > 0 {
        lemma_decoder_takes_prefix(s, d, input);
    }
}

/// What the encoder has written after any input begins with the code that
/// clears the dictionary, and each code has 9 to 12 bits and a value that
/// fits in them.
pub proof fn lemma_coder_out_shape(input: Seq<u8>)
    ensures
        coder_after(input).out.len() >= 1,
        coder_after(input).out.first() == (Code { value: CLEAR_CODE as int, width: 9 }),
        forall|k: int|
            0 <= k < coder_after(input).out.len() ==> {
                &&& 9 <= (#[trigger] coder_after(input).out[k]).width <= 12
                &&& 0 <= coder_after(input).out[k].value < two_to(coder_after(input).out[k].width)
            },
    decreases input.len(),
{
    reveal_with_fuel(two_to, 14);
    if input.len() > 0 {
        let before = input.drop_last();
        lemma_coder_out_shape(before);
        lemma_in_step_after(before);
        let s = coder_after(before);
        if s.prefix.len() > 0 {
            lemma_decoder_takes_prefix(s, decoder_after(s.out).unwrap(), before);
        }
    }
}

/// Whenever the encoder has written the code that clears the dictionary,
/// its dictionary is empty: each such code in the output is the last code
/// written after some part of the input, and the dictionary is empty then.
pub proof fn lemma_clear_empties(input: Seq<u8>, k: int)
    requires
        0 <= k < coder_after(input).out.len(),
        coder_after(input).out[k].value == CLEAR_CODE,
    ensures
        exists|i: int|
            0 <= i <= input.len() && (#[trigger] coder_after(input.take(i))).out == coder_after(
                input,
            ).out.take(k + 1) && coder_after(input.take(i)).table == Map::<Seq<u8>, int>::empty()
                && coder_after(input.take(i)).next_code == FIRST_CODE,
    decreases input.len(),
{
    let t = coder_after(input);
    if input.len() == 0 {
        assert(input.take(0) == input);
        assert(t.out.take(1) == t.out);
    } else {
        let before = input.drop_last();
        let s = coder_after(before);
        lemma_in_step_after(before);
        if s.prefix.len() > 0 {
            lemma_decoder_takes_prefix(s, decoder_after(s.out).unwrap(), before);
        }
        if k < s.out.len() {
            assert(t.out[k] == s.out[k]);
            lemma_clear_empties(before, k);
            let i = choose|i: int|
                0 <= i <= before.len() && (#[trigger] coder_after(before.take(i))).out
                    == s.out.take(k + 1) && coder_after(before.take(i)).table == Map::<
                    Seq<u8>,
                    int,
                >::empty() && coder_after(before.take(i)).next_code == FIRST_CODE;
            assert(before.take(i) == input.take(i));
            assert(s.out.take(k + 1) == t.out.take(k + 1));
        } else {
            assert(k == t.out.len() - 1);
            assert(input.take(input.len() as int) == input);
            assert(t.out.take(k + 1) == t.out);
        }
    }
}

} // verus!
