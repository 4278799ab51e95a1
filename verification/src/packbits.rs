//! PackBits: byte-oriented run-length coding of a strip.
//!
//! A packed stream is a sequence of packets. A header byte `n` in `0..=127`
//! is followed by `n + 1` bytes that stand for themselves (a literal run); a
//! header in `129..=255` is followed by one byte that is repeated
//! `257 - n` times (a replicate run); the header 128 stands for nothing.

use vstd::prelude::*;

verus! {

/// A byte and how many times it occurs in a row, `1..=128`.
#[derive(Clone, Copy)]
pub struct Run {
    pub byte: u8,
    pub len: u8,
}

/// Longest literal run as its header byte shows it (one less than its length).
pub const MAX_ENCODED_LITERAL_RUN_LEN: u8 = 127;

/// Longest run of one byte that a single packet can hold.
pub const MAX_RUN_LEN: u8 = 128;

// ---------------------------------------------------------------------------
// What a packed stream stands for
// ---------------------------------------------------------------------------

/// Number of bytes that the packet starting with `header` stands for.
pub open spec fn run_length(header: u8) -> int {
    if header <= 127 {
        header + 1
    } else if header == 128 {
        0
    } else {
        257 - header
    }
}

/// Number of bytes that the packet starting with `header` occupies.
pub open spec fn packet_size(header: u8) -> int {
    if header <= 127 {
        header + 2
    } else if header == 128 {
        1
    } else {
        2
    }
}

/// The bytes that the first packet of `packed` stands for.
pub open spec fn packet_data(packed: Seq<u8>) -> Seq<u8>
    recommends
        packed.len() >= packet_size(packed[0]),
{
    let header = packed[0];
    if header <= 127 {
        packed.subrange(1, header + 2)
    } else if header == 128 {
        Seq::empty()
    } else {
        Seq::new((257 - header) as nat, |i: int| packed[1])
    }
}

/// The bytes that `packed` stands for, or `None` if its last packet is cut
/// short.
pub open spec fn unpacked(packed: Seq<u8>) -> Option<Seq<u8>>
    decreases packed.len(),
{
    if packed.len() == 0 {
        Some(Seq::empty())
    } else if packed.len() < packet_size(packed[0]) {
        None
    } else {
        match unpacked(packed.skip(packet_size(packed[0]))) {
            Some(rest) => Some(packet_data(packed) + rest),
            None => None,
        }
    }
}

/// Every packet of `packed` is complete and is a literal run of 1 to 128
/// bytes or a replicate run of 2 to 128 bytes.
pub open spec fn runs_in_bounds(packed: Seq<u8>) -> bool
    decreases packed.len(),
{
    if packed.len() == 0 {
        true
    } else {
        &&& packed[0] != 128
        &&& 1 <= run_length(packed[0]) <= 128
        &&& packed[0] > 128 ==> 2 <= run_length(packed[0])
        &&& packed.len() >= packet_size(packed[0])
        &&& runs_in_bounds(packed.skip(packet_size(packed[0])))
    }
}

// ---------------------------------------------------------------------------
// The encoder, as a function on sequences
// ---------------------------------------------------------------------------

/// What the encoder has written, and where the header of its last packet is
/// if that packet is a literal run that may still grow.
pub struct Packed {
    pub out: Seq<u8>,
    pub open: Option<int>,
}

/// The encoder between two input bytes: what it has written, and the run it
/// is still counting.
pub struct Packing {
    pub packed: Packed,
    pub run: Option<(u8, int)>,
}

/// Writes a replicate run of `len` times `byte`. No literal run is open
/// afterwards.
pub open spec fn replicate_run(p: Packed, byte: u8, len: int) -> Packed {
    Packed { out: p.out.push((257 - len) as u8).push(byte), open: None }
}

/// Writes one byte as literal data: into the open literal run if it has
/// fewer than 128 bytes, else into a new literal run, which is then open.
pub open spec fn literal_byte(p: Packed, byte: u8) -> Packed {
    match p.open {
        Some(i) if 0 <= i < p.out.len() && p.out[i] <= MAX_ENCODED_LITERAL_RUN_LEN - 1 => Packed {
            out: p.out.update(i, (p.out[i] + 1) as u8).push(byte),
            open: Some(i),
        },
        _ => Packed { out: p.out.push(0).push(byte), open: Some(p.out.len() as int) },
    }
}

/// Whether an open literal run can take at least one more byte.
pub open spec fn literal_has_room(p: Packed) -> bool {
    p.open matches Some(i) && 0 <= i < p.out.len() && p.out[i] <= MAX_ENCODED_LITERAL_RUN_LEN - 1
}

/// Writes a finished run. A single byte is literal data. Two equal bytes are
/// literal data if an open literal run has room for at least the first of
/// them, else a replicate run. Three or more are a replicate run.
pub open spec fn emit_run(p: Packed, byte: u8, len: int) -> Packed {
    if len <= 1 {
        literal_byte(p, byte)
    } else if len == 2 && literal_has_room(p) {
        literal_byte(literal_byte(p, byte), byte)
    } else {
        replicate_run(p, byte, len)
    }
}

/// The encoder before any input.
pub open spec fn packing_start() -> Packing {
    Packing { packed: Packed { out: Seq::empty(), open: None }, run: None }
}

/// The encoder after one more input byte.
pub open spec fn packing_step(s: Packing, b: u8) -> Packing {
    match s.run {
        None => Packing { packed: s.packed, run: Some((b, 1)) },
        Some((byte, len)) => if b == byte {
            if len >= MAX_RUN_LEN {
                Packing { packed: replicate_run(s.packed, byte, len), run: Some((byte, 1)) }
            } else {
                Packing { packed: s.packed, run: Some((byte, len + 1)) }
            }
        } else {
            Packing { packed: emit_run(s.packed, byte, len), run: Some((b, 1)) }
        },
    }
}

/// The encoder after all of `input`.
pub open spec fn packing_after(input: Seq<u8>) -> Packing
    decreases input.len(),
{
    if input.len() == 0 {
        packing_start()
    } else {
        packing_step(packing_after(input.drop_last()), input.last())
    }
}

/// The packed form of `input`.
pub open spec fn packed(input: Seq<u8>) -> Seq<u8> {
    let s = packing_after(input);
    match s.run {
        None => s.packed.out,
        Some((byte, len)) => emit_run(s.packed, byte, len).out,
    }
}

// ---------------------------------------------------------------------------
// The encoder
// ---------------------------------------------------------------------------

/// An index into the output as the specification counts it.
pub open spec fn open_at(inx: Option<usize>) -> Option<int> {
    match inx {
        Some(i) => Some(i as int),
        None => None,
    }
}

/// Appends a replicate run to `out`.
pub fn encode_replicate_run(out: &mut Vec<u8>, run: Run)
    requires
        2 <= run.len <= MAX_RUN_LEN,
    ensures
        final(out)@ == replicate_run(
            Packed { out: old(out)@, open: None },
            run.byte,
            run.len as int,
        ).out,
{
    out.push(255 - (run.len - 2));
    out.push(run.byte);
}

/// Appends one byte of literal data to `out`; returns where the header of
/// the literal run that now ends `out` is.
fn encode_literal_byte(out: &mut Vec<u8>, byte: u8, last_literal_run_inx: Option<usize>) -> (r:
    usize)
    ensures
        (Packed { out: final(out)@, open: Some(r as int) }) == literal_byte(
            Packed { out: old(out)@, open: open_at(last_literal_run_inx) },
            byte,
        ),
{
    match last_literal_run_inx {
        Some(i) if i < out.len() && out[i] <= MAX_ENCODED_LITERAL_RUN_LEN - 1 => {
            let count: u8 = out[i];
            out[i] = count + 1;
            out.push(byte);
            i
        },
        _ => {
            let inx: usize = out.len();
            out.push(0);
            out.push(byte);
            inx
        },
    }
}

/// Appends a finished run to `out`. `last_literal_run_inx` is where the
/// header of the last packet is if that packet is a literal run; the result
/// is the same for `out` afterwards.
pub fn encode_run(out: &mut Vec<u8>, run: Run, last_literal_run_inx: Option<usize>) -> (r: Option<
    usize,
>)
    requires
        run.len <= MAX_RUN_LEN,
    ensures
        (Packed { out: final(out)@, open: open_at(r) }) == emit_run(
            Packed { out: old(out)@, open: open_at(last_literal_run_inx) },
            run.byte,
            run.len as int,
        ),
{
    if run.len <= 1 {
        Some(encode_literal_byte(out, run.byte, last_literal_run_inx))
    } else if run.len == 2 {
        let has_room = match last_literal_run_inx {
            Some(i) => i < out.len() && out[i] <= MAX_ENCODED_LITERAL_RUN_LEN - 1,
            None => false,
        };
        if has_room {
            let first = encode_literal_byte(out, run.byte, last_literal_run_inx);
            Some(encode_literal_byte(out, run.byte, Some(first)))
        } else {
            encode_replicate_run(out, run);
            None
        }
    } else {
        encode_replicate_run(out, run);
        None
    }
}

/// The packed form of `input`.
pub fn pack_bytes(input: &[u8]) -> (out: Vec<u8>)
    ensures
        out@ == packed(input@),
{
    let mut out: Vec<u8> = Vec::new();
    let mut last_literal_run_inx: Option<usize> = None;
    let mut current_run: Option<Run> = None;
    let mut i: usize = 0;
    while i < input.len()
        invariant
            i <= input.len(),
            current_run matches Some(run) ==> 1 <= run.len <= MAX_RUN_LEN,
            packing_after(input@.take(i as int)) == (Packing {
                packed: Packed { out: out@, open: open_at(last_literal_run_inx) },
                run: match current_run {
                    Some(run) => Some((run.byte, run.len as int)),
                    None => None,
                },
            }),
        decreases input.len() - i,
    {
        let byte = input[i];
        proof {
            assert(input@.take(i + 1).drop_last() == input@.take(i as int));
            assert(input@.take(i + 1).last() == byte);
        }
        match current_run {
            Some(run) => {
                if byte == run.byte {
                    if run.len >= MAX_RUN_LEN {
                        encode_replicate_run(&mut out, run);
                        last_literal_run_inx = None;
                        current_run = Some(Run { byte, len: 1 });
                    } else {
                        current_run = Some(Run { byte, len: run.len + 1 });
                    }
                } else {
                    last_literal_run_inx = encode_run(&mut out, run, last_literal_run_inx);
                    current_run = Some(Run { byte, len: 1 });
                }
            },
            None => {
                current_run = Some(Run { byte, len: 1 });
            },
        }
        i += 1;
    }
    assert(input@.take(i as int) == input@);
    if let Some(run) = current_run {
        let _ = encode_run(&mut out, run, last_literal_run_inx);
    }
    out
}

// ---------------------------------------------------------------------------
// The decoder
// ---------------------------------------------------------------------------

/// The bytes that `packed` stands for; `None` if its last packet is cut
/// short.
pub fn unpack_bytes(packed: &[u8]) -> (r: Option<Vec<u8>>)
    ensures
        match unpacked(packed@) {
            Some(data) => r matches Some(v) && v@ == data,
            None => r is None,
        },
{
    let mut out: Vec<u8> = Vec::new();
    let mut i: usize = 0;
    proof {
        assert(packed@.skip(0) == packed@);
        if let Some(data) = unpacked(packed@) {
            assert(out@ + data == data);
        }
    }
    while i < packed.len()
        invariant
            i <= packed.len(),
            unpacked(packed@) == match unpacked(packed@.skip(i as int)) {
                Some(rest) => Some(out@ + rest),
                None => None,
            },
        decreases packed.len() - i,
    {
        let header = packed[i];
        let ghost tail = packed@.skip(i as int);
        let ghost before = out@;
        assert(tail[0] == header);
        if header <= 127 {
            let n: usize = header as usize + 1;
            if packed.len() - i < n + 1 {
                return None;
            }
            let mut j: usize = 0;
            while j < n
                invariant
                    j <= n,
                    n == header + 1,
                    i + n < packed.len(),
                    tail == packed@.skip(i as int),
                    out@ == before + tail.subrange(1, 1 + j),
                decreases n - j,
            {
                out.push(packed[i + 1 + j]);
                assert(tail[1 + j] == packed@[i + 1 + j]);
                assert(tail.subrange(1, 1 + j).push(tail[1 + j]) == tail.subrange(1, 2 + j));
                j += 1;
            }
            assert(tail.skip(packet_size(header)) == packed@.skip(i + n + 1));
            assert(before + (packet_data(tail) + unpacked(tail.skip(packet_size(header))).unwrap())
                == before + packet_data(tail) + unpacked(tail.skip(packet_size(header))).unwrap());
            i += n + 1;
        } else if header == 128 {
            assert(tail.skip(1) == packed@.skip(i + 1));
            assert(before + packet_data(tail) == before);
            assert(before + (packet_data(tail) + unpacked(tail.skip(1)).unwrap()) == before
                + unpacked(tail.skip(1)).unwrap());
            i += 1;
        } else {
            if packed.len() - i < 2 {
                return None;
            }
            let byte = packed[i + 1];
            let n: usize = 257 - header as usize;
            let mut j: usize = 0;
            while j < n
                invariant
                    j <= n,
                    out@ == before + Seq::new(j as nat, |k: int| byte),
                decreases n - j,
            {
                out.push(byte);
                assert(Seq::new(j as nat, |k: int| byte).push(byte) == Seq::new(
                    (j + 1) as nat,
                    |k: int| byte,
                ));
                j += 1;
            }
            assert(tail[1] == byte);
            assert(packet_data(tail) == Seq::new(n as nat, |k: int| byte));
            assert(tail.skip(2) == packed@.skip(i + 2));
            assert(before + (packet_data(tail) + unpacked(tail.skip(2)).unwrap()) == before
                + packet_data(tail) + unpacked(tail.skip(2)).unwrap());
            i += 2;
        }
    }
    assert(packed@.skip(i as int).len() == 0);
    assert(out@ + Seq::<u8>::empty() == out@);
    Some(out)
}

// ---------------------------------------------------------------------------
// Laws
// ---------------------------------------------------------------------------

/// What the encoder keeps true of its output: it is made of whole packets
/// with runs in bounds, and an open literal run is its last packet.
pub open spec fn packed_ok(p: Packed) -> bool {
    &&& runs_in_bounds(p.out)
    &&& p.open matches Some(i) ==> {
        &&& 0 <= i < p.out.len()
        &&& p.out[i] <= 127
        &&& i + p.out[i] + 2 == p.out.len()
        &&& runs_in_bounds(p.out.take(i))
    }
}

/// `len` times `byte`.
pub open spec fn repeated(byte: u8, len: int) -> Seq<u8> {
    Seq::new(len as nat, |i: int| byte)
}

/// A stream of whole packets followed by another stream stands for what the
/// first stands for followed by what the second stands for.
pub proof fn lemma_unpacked_concat(a: Seq<u8>, b: Seq<u8>)
    requires
        runs_in_bounds(a),
        unpacked(b) is Some,
    ensures
        unpacked(a) is Some,
        unpacked(a + b) == Some(unpacked(a).unwrap() + unpacked(b).unwrap()),
        runs_in_bounds(b) ==> runs_in_bounds(a + b),
    decreases a.len(),
{
    if a.len() == 0 {
        assert(a + b == b);
        assert(Seq::<u8>::empty() + unpacked(b).unwrap() == unpacked(b).unwrap());
    } else {
        let k = packet_size(a[0]);
        lemma_unpacked_concat(a.skip(k), b);
        assert((a + b).skip(k) == a.skip(k) + b);
        assert((a + b)[0] == a[0]);
        if a[0] <= 127 {
            assert((a + b).subrange(1, a[0] + 2) == a.subrange(1, a[0] + 2));
        } else {
            assert((a + b)[1] == a[1]);
        }
        assert(packet_data(a + b) == packet_data(a));
        assert(packet_data(a) + (unpacked(a.skip(k)).unwrap() + unpacked(b).unwrap())
            == packet_data(a) + unpacked(a.skip(k)).unwrap() + unpacked(b).unwrap());
    }
}

/// What a single complete packet stands for.
proof fn lemma_single_packet(p: Seq<u8>)
    requires
        p.len() > 0,
        p[0] != 128,
        p.len() == packet_size(p[0]),
    ensures
        runs_in_bounds(p),
        unpacked(p) == Some(packet_data(p)),
{
    let rest = p.skip(packet_size(p[0]));
    assert(rest.len() == 0);
    assert(unpacked(rest) == Some(Seq::<u8>::empty()));
    assert(runs_in_bounds(rest));
    assert(packet_data(p) + Seq::<u8>::empty() == packet_data(p));
}

/// One more literal byte in the output is one more byte in what it stands
/// for.
pub proof fn lemma_literal_byte(p: Packed, byte: u8)
    requires
        packed_ok(p),
    ensures
        packed_ok(literal_byte(p, byte)),
        unpacked(p.out) is Some,
        unpacked(literal_byte(p, byte).out) == Some(unpacked(p.out).unwrap().push(byte)),
{
    let q = literal_byte(p, byte);
    lemma_unpacked_concat(p.out, Seq::empty());
    if literal_has_room(p) {
        let i = p.open->0;
        let pre = p.out.take(i);
        let last = p.out.skip(i);
        let grown = last.update(0, (last[0] + 1) as u8).push(byte);
        assert(p.out == pre + last);
        assert(q.out == pre + grown);
        assert(last[0] == p.out[i]);
        lemma_single_packet(last);
        lemma_single_packet(grown);
        assert(packet_data(grown) == packet_data(last).push(byte));
        lemma_unpacked_concat(pre, last);
        lemma_unpacked_concat(pre, grown);
        assert(unpacked(pre).unwrap() + packet_data(last).push(byte) == (unpacked(pre).unwrap()
            + packet_data(last)).push(byte));
        assert(q.out.take(i) == pre);
    } else {
        let fresh = seq![0u8, byte];
        assert(q.out == p.out + fresh);
        lemma_single_packet(fresh);
        assert(packet_data(fresh) == seq![byte]);
        lemma_unpacked_concat(p.out, fresh);
        assert(unpacked(p.out).unwrap() + seq![byte] == unpacked(p.out).unwrap().push(byte));
        assert(q.out.take(p.out.len() as int) == p.out);
    }
}

/// A replicate run in the output is `len` more equal bytes in what it
/// stands for.
pub proof fn lemma_replicate_run(p: Packed, byte: u8, len: int)
    requires
        runs_in_bounds(p.out),
        2 <= len <= 128,
    ensures
        packed_ok(replicate_run(p, byte, len)),
        unpacked(p.out) is Some,
        unpacked(replicate_run(p, byte, len).out) == Some(
            unpacked(p.out).unwrap() + repeated(byte, len),
        ),
{
    let fresh = seq![(257 - len) as u8, byte];
    assert(replicate_run(p, byte, len).out == p.out + fresh);
    lemma_single_packet(fresh);
    assert(packet_data(fresh) == repeated(byte, len));
    lemma_unpacked_concat(p.out, fresh);
}

/// A finished run in the output is `len` more equal bytes in what it stands
/// for.
pub proof fn lemma_emit_run(p: Packed, byte: u8, len: int)
    requires
        packed_ok(p),
        1 <= len <= 128,
    ensures
        packed_ok(emit_run(p, byte, len)),
        unpacked(p.out) is Some,
        unpacked(emit_run(p, byte, len).out) == Some(
            unpacked(p.out).unwrap() + repeated(byte, len),
        ),
{
    let data = unpacked(p.out).unwrap();
    if len <= 1 {
        lemma_literal_byte(p, byte);
        assert(data.push(byte) == data + repeated(byte, len));
    } else if len == 2 && literal_has_room(p) {
        lemma_literal_byte(p, byte);
        lemma_literal_byte(literal_byte(p, byte), byte);
        assert(data.push(byte).push(byte) == data + repeated(byte, len));
    } else {
        lemma_replicate_run(p, byte, len);
    }
}

/// The bytes of the run that the encoder is counting.
pub open spec fn pending(run: Option<(u8, int)>) -> Seq<u8> {
    match run {
        Some((byte, len)) => repeated(byte, len),
        None => Seq::empty(),
    }
}

/// Between two input bytes, the output stands for the input so far without
/// the run that is being counted.
pub proof fn lemma_packing_after(input: Seq<u8>)
    ensures
        packed_ok(packing_after(input).packed),
        packing_after(input).run matches Some((_, len)) ==> 1 <= len <= 128,
        unpacked(packing_after(input).packed.out) is Some,
        unpacked(packing_after(input).packed.out).unwrap() + pending(packing_after(input).run)
            == input,
    decreases input.len(),
{
    if input.len() == 0 {
        assert(Seq::<u8>::empty() + Seq::<u8>::empty() == input);
    } else {
        let s = packing_after(input.drop_last());
        let b = input.last();
        let t = packing_after(input);
        lemma_packing_after(input.drop_last());
        let data = unpacked(s.packed.out).unwrap();
        assert(input == input.drop_last().push(b));
        match s.run {
            None => {
                assert(pending(t.run) == seq![b]);
                assert(pending(s.run) == Seq::<u8>::empty());
                assert(data + Seq::<u8>::empty() == data);
                assert(data + seq![b] == data.push(b));
            },
            Some((byte, len)) => {
                if b == byte {
                    if len >= 128 {
                        lemma_replicate_run(s.packed, byte, len);
                        assert(data + repeated(byte, len) + repeated(byte, 1) == (data + repeated(
                            byte,
                            len,
                        )).push(b));
                    } else {
                        assert(repeated(byte, len + 1) == repeated(byte, len).push(b));
                        assert(data + repeated(byte, len).push(b) == (data + repeated(
                            byte,
                            len,
                        )).push(b));
                    }
                } else {
                    lemma_emit_run(s.packed, byte, len);
                    assert(data + repeated(byte, len) + repeated(b, 1) == (data + repeated(
                        byte,
                        len,
                    )).push(b));
                }
            },
        }
    }
}

/// Unpacking what the encoder wrote gives the input back, and every run
/// that the encoder wrote is a literal run of at most 128 bytes or a
/// replicate run of at most 128.
pub proof fn lemma_packbits_round_trip(input: Seq<u8>)
    ensures
        unpacked(packed(input)) == Some(input),
        runs_in_bounds(packed(input)),
{
    let s = packing_after(input);
    lemma_packing_after(input);
    match s.run {
        None => {
            assert(unpacked(s.packed.out).unwrap() + Seq::<u8>::empty() == unpacked(
                s.packed.out,
            ).unwrap());
        },
        Some((byte, len)) => {
            lemma_emit_run(s.packed, byte, len);
        },
    }
}

} // verus!
