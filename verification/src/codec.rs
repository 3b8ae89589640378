//! The binary form of the wire envelope: a fixed big-endian layout with one
//! tag byte per tagged union, a length-prefixed data field for fragments,
//! and nothing else. A datagram decodes to an envelope exactly when it is
//! one envelope's encoding with nothing left over; anything else is
//! malformed and the receive loops drop it.

use vstd::prelude::*;

use crate::envelope::{Addr, Fragment, Image, Msg, MsgId, Type};

verus! {

/// Big-endian bytes of a 16-bit integer.
pub open spec fn spec_u16_be(x: u16) -> Seq<u8> {
    seq![((x / 0x100) % 0x100) as u8, (x % 0x100) as u8]
}

/// Big-endian bytes of a 32-bit integer.
pub open spec fn spec_u32_be(x: u32) -> Seq<u8> {
    seq![
        ((x / 0x100_0000) % 0x100) as u8,
        ((x / 0x1_0000) % 0x100) as u8,
        ((x / 0x100) % 0x100) as u8,
        (x % 0x100) as u8,
    ]
}

/// Bytes of an address: four ip bytes, two port bytes.
pub open spec fn spec_addr_bytes(a: Addr) -> Seq<u8> {
    spec_u32_be(a.ip) + spec_u16_be(a.port)
}

/// Bytes of a transfer or request id: its address, then its counter.
pub open spec fn spec_msg_id_bytes(m: MsgId) -> Seq<u8> {
    spec_addr_bytes(m.addr) + spec_u32_be(m.counter)
}

/// Bytes of the optional payload: a presence byte, then the id if present.
pub open spec fn spec_payload_bytes(p: Option<MsgId>) -> Seq<u8> {
    match p {
        None => seq![0u8],
        Some(id) => seq![1u8] + spec_msg_id_bytes(id),
    }
}

/// Bytes of the tagged union: one tag byte, then the variant's fields.
pub open spec fn spec_type_bytes(t: Type) -> Seq<u8> {
    match t {
        Type::ClientRequest(c) => seq![0u8] + spec_u32_be(c),
        Type::ElectionRequest(p) => seq![1u8] + spec_u32_be(p),
        Type::OKMsg(p) => seq![2u8] + spec_u32_be(p),
        Type::CoordinatorBrdCast(a) => seq![3u8] + spec_addr_bytes(a),
        Type::Ack(id, b) => seq![4u8] + spec_msg_id_bytes(id) + spec_u32_be(b),
        Type::Fragment(f) => seq![5u8] + spec_msg_id_bytes(f.msg_id) + spec_u32_be(f.block_id)
            + spec_u32_be(f.frag_id) + spec_u32_be(f.msg_len) + spec_u32_be(f.data@.len() as u32)
            + f.data@,
        Type::Fail(s) => seq![6u8] + spec_u32_be(s),
    }
}

/// Bytes of one envelope: sender, receiver, payload, then the message.
pub open spec fn spec_msg_bytes(m: Msg) -> Seq<u8> {
    spec_addr_bytes(m.sender) + spec_addr_bytes(m.receiver) + spec_payload_bytes(m.payload)
        + spec_type_bytes(m.msg_type)
}

/// An envelope the codec can carry: a fragment's data must fit the length
/// prefix.
pub open spec fn msg_encodable(m: Msg) -> bool {
    match m.msg_type {
        Type::Fragment(f) => f.data@.len() <= u32::MAX,
        _ => true,
    }
}

// ------------------------------------------------------------------
// The spec-level parser: what any byte string means.
// ------------------------------------------------------------------

/// The 16-bit integer at offset `off`.
pub open spec fn dec_u16_at(b: Seq<u8>, off: int) -> u16 {
    (b[off] as int * 0x100 + b[off + 1] as int) as u16
}

/// The 32-bit integer at offset `off`.
pub open spec fn dec_u32_at(b: Seq<u8>, off: int) -> u32 {
    (b[off] as int * 0x100_0000 + b[off + 1] as int * 0x1_0000 + b[off + 2] as int * 0x100 + b[off
        + 3] as int) as u32
}

/// The address at offset `off`.
pub open spec fn dec_addr_at(b: Seq<u8>, off: int) -> Addr {
    Addr { ip: dec_u32_at(b, off), port: dec_u16_at(b, off + 4) }
}

/// The transfer or request id at offset `off`.
pub open spec fn dec_msg_id_at(b: Seq<u8>, off: int) -> MsgId {
    MsgId { addr: dec_addr_at(b, off), counter: dec_u32_at(b, off + 6) }
}

/// The datagram's tail from `off` on is exactly one variant's bytes.
pub open spec fn type_wf_at(b: Seq<u8>, off: int) -> bool {
    &&& off + 1 <= b.len()
    &&& {
        let tag = b[off];
        ||| ((tag == 0 || tag == 1 || tag == 2 || tag == 6) && b.len() == off + 5)
        ||| (tag == 3 && b.len() == off + 7)
        ||| (tag == 4 && b.len() == off + 15)
        ||| (tag == 5 && b.len() >= off + 27 && b.len() == off + 27 + dec_u32_at(b, off + 23) as int)
    }
}

/// The datagram's tail from `off` on reads as exactly the tagged union `t`.
pub open spec fn type_at(b: Seq<u8>, off: int, t: Type) -> bool {
    &&& 0 <= off
    &&& off + 1 <= b.len()
    &&& match t {
        Type::ClientRequest(c) => b[off] == 0 && b.len() == off + 5 && c == dec_u32_at(b, off + 1),
        Type::ElectionRequest(p) => b[off] == 1 && b.len() == off + 5 && p == dec_u32_at(
            b,
            off + 1,
        ),
        Type::OKMsg(p) => b[off] == 2 && b.len() == off + 5 && p == dec_u32_at(b, off + 1),
        Type::CoordinatorBrdCast(a) => b[off] == 3 && b.len() == off + 7 && a == dec_addr_at(
            b,
            off + 1,
        ),
        Type::Ack(id, blk) => b[off] == 4 && b.len() == off + 15 && id == dec_msg_id_at(b, off + 1)
            && blk == dec_u32_at(b, off + 11),
        Type::Fragment(f) => {
            &&& b[off] == 5
            &&& b.len() >= off + 27
            &&& b.len() == off + 27 + dec_u32_at(b, off + 23) as int
            &&& f.msg_id == dec_msg_id_at(b, off + 1)
            &&& f.block_id == dec_u32_at(b, off + 11)
            &&& f.frag_id == dec_u32_at(b, off + 15)
            &&& f.msg_len == dec_u32_at(b, off + 19)
            &&& f.data@ == b.subrange(off + 27, b.len() as int)
        },
        Type::Fail(s) => b[off] == 6 && b.len() == off + 5 && s == dec_u32_at(b, off + 1),
    }
}

/// The datagram is exactly one envelope's bytes.
pub open spec fn msg_wf_bytes(b: Seq<u8>) -> bool {
    &&& b.len() >= 13
    &&& {
        ||| (b[12] == 0 && type_wf_at(b, 13))
        ||| (b[12] == 1 && b.len() >= 23 && type_wf_at(b, 23))
    }
}

/// The datagram reads as exactly the envelope `m`: every field of `m` is
/// pinned by the bytes, so two envelopes reading from the same datagram
/// agree field for field.
pub open spec fn msg_at(b: Seq<u8>, m: Msg) -> bool {
    &&& b.len() >= 13
    &&& m.sender == dec_addr_at(b, 0)
    &&& m.receiver == dec_addr_at(b, 6)
    &&& match m.payload {
        None => b[12] == 0 && type_at(b, 13, m.msg_type),
        Some(id) => b[12] == 1 && b.len() >= 23 && id == dec_msg_id_at(b, 13) && type_at(
            b,
            23,
            m.msg_type,
        ),
    }
}

// ------------------------------------------------------------------
// Round trip: decoding an encoding gives the envelope back.
// ------------------------------------------------------------------

/// Base-256 expansion of a 16-bit integer.
proof fn lemma_u16_expand(x: u16)
    ensures
        ((x / 0x100) % 0x100) as int * 0x100 + (x % 0x100) as int == x as int,
{
    assert(((x / 0x100) % 0x100) * 0x100 + (x % 0x100) == x) by (bit_vector);
}

/// Base-256 expansion of a 32-bit integer.
proof fn lemma_u32_expand(x: u32)
    ensures
        ((x / 0x100_0000) % 0x100) as int * 0x100_0000 + ((x / 0x1_0000) % 0x100) as int * 0x1_0000
            + ((x / 0x100) % 0x100) as int * 0x100 + (x % 0x100) as int == x as int,
{
    assert(((x / 0x100_0000) % 0x100) * 0x100_0000 + ((x / 0x1_0000) % 0x100) * 0x1_0000 + ((x
        / 0x100) % 0x100) * 0x100 + (x % 0x100) == x) by (bit_vector);
}

/// A stretch of `b` equal to a concatenation splits into its two parts.
proof fn lemma_split_suffix(b: Seq<u8>, off: int, s1: Seq<u8>, s2: Seq<u8>)
    requires
        0 <= off,
        off + s1.len() + s2.len() <= b.len(),
        b.subrange(off, off + s1.len() + s2.len()) == s1 + s2,
    ensures
        b.subrange(off, off + s1.len()) =~= s1,
        b.subrange(off + s1.len(), off + s1.len() + s2.len()) =~= s2,
{
    assert forall|i: int| 0 <= i < s1.len() implies b.subrange(off, off + s1.len() as int)[i]
        == s1[i] by {
        assert(b.subrange(off, off + s1.len() + s2.len())[i] == (s1 + s2)[i]);
    }
    assert forall|i: int|
        0 <= i < s2.len() implies b.subrange(
        off + s1.len(),
        off + s1.len() + s2.len(),
    )[i] == s2[i] by {
        let k = s1.len() as int + i;
        assert(b.subrange(off, off + s1.len() + s2.len())[k] == (s1 + s2)[k]);
        assert((s1 + s2)[k] == s2[i]);
        assert(b.subrange(off, off + s1.len() + s2.len())[k] == b[off + k]);
        assert(b.subrange(off + s1.len(), off + s1.len() + s2.len())[i] == b[off + s1.len() + i]);
    }
}

/// The 16-bit integer written at `off` reads back.
proof fn lemma_u16_round(b: Seq<u8>, off: int, x: u16)
    requires
        0 <= off,
        off + 2 <= b.len(),
        b.subrange(off, off + 2) == spec_u16_be(x),
    ensures
        dec_u16_at(b, off) == x,
{
    assert(b[off] == spec_u16_be(x)[0]);
    assert(b[off + 1] == spec_u16_be(x)[1]);
    lemma_u16_expand(x);
}

/// The 32-bit integer written at `off` reads back.
proof fn lemma_u32_round(b: Seq<u8>, off: int, x: u32)
    requires
        0 <= off,
        off + 4 <= b.len(),
        b.subrange(off, off + 4) == spec_u32_be(x),
    ensures
        dec_u32_at(b, off) == x,
{
    assert(b[off] == spec_u32_be(x)[0]);
    assert(b[off + 1] == spec_u32_be(x)[1]);
    assert(b[off + 2] == spec_u32_be(x)[2]);
    assert(b[off + 3] == spec_u32_be(x)[3]);
    lemma_u32_expand(x);
}

/// The address written at `off` reads back.
proof fn lemma_addr_round(b: Seq<u8>, off: int, a: Addr)
    requires
        0 <= off,
        off + 6 <= b.len(),
        b.subrange(off, off + 6) == spec_addr_bytes(a),
    ensures
        dec_addr_at(b, off) == a,
{
    lemma_split_suffix(b, off, spec_u32_be(a.ip), spec_u16_be(a.port));
    lemma_u32_round(b, off, a.ip);
    lemma_u16_round(b, off + 4, a.port);
}

/// The id written at `off` reads back.
proof fn lemma_msg_id_round(b: Seq<u8>, off: int, m: MsgId)
    requires
        0 <= off,
        off + 10 <= b.len(),
        b.subrange(off, off + 10) == spec_msg_id_bytes(m),
    ensures
        dec_msg_id_at(b, off) == m,
{
    lemma_split_suffix(b, off, spec_addr_bytes(m.addr), spec_u32_be(m.counter));
    lemma_addr_round(b, off, m.addr);
    lemma_u32_round(b, off + 6, m.counter);
}

/// The tagged union written at `off`, filling the rest of the datagram,
/// reads back.
proof fn lemma_type_round(b: Seq<u8>, off: int, t: Type)
    requires
        0 <= off,
        b.len() == off + spec_type_bytes(t).len(),
        b.subrange(off, b.len() as int) == spec_type_bytes(t),
        (t matches Type::Fragment(f) ==> f.data@.len() <= u32::MAX),
    ensures
        type_wf_at(b, off),
        type_at(b, off, t),
{
    let tb = spec_type_bytes(t);
    assert(b[off] == tb[0]);
    match t {
        Type::ClientRequest(c) => {
            lemma_split_suffix(b, off, seq![0u8], spec_u32_be(c));
            lemma_u32_round(b, off + 1, c);
        },
        Type::ElectionRequest(p) => {
            lemma_split_suffix(b, off, seq![1u8], spec_u32_be(p));
            lemma_u32_round(b, off + 1, p);
        },
        Type::OKMsg(p) => {
            lemma_split_suffix(b, off, seq![2u8], spec_u32_be(p));
            lemma_u32_round(b, off + 1, p);
        },
        Type::CoordinatorBrdCast(a) => {
            lemma_split_suffix(b, off, seq![3u8], spec_addr_bytes(a));
            lemma_addr_round(b, off + 1, a);
        },
        Type::Ack(id, blk) => {
            lemma_split_suffix(b, off, seq![4u8] + spec_msg_id_bytes(id), spec_u32_be(blk));
            lemma_split_suffix(b, off, seq![4u8], spec_msg_id_bytes(id));
            lemma_msg_id_round(b, off + 1, id);
            lemma_u32_round(b, off + 11, blk);
        },
        Type::Fragment(f) => {
            let dl = f.data@.len() as u32;
            let s5 = seq![5u8] + spec_msg_id_bytes(f.msg_id) + spec_u32_be(f.block_id)
                + spec_u32_be(f.frag_id) + spec_u32_be(f.msg_len) + spec_u32_be(dl);
            lemma_split_suffix(b, off, s5, f.data@);
            lemma_split_suffix(
                b,
                off,
                seq![5u8] + spec_msg_id_bytes(f.msg_id) + spec_u32_be(f.block_id) + spec_u32_be(
                    f.frag_id,
                ) + spec_u32_be(f.msg_len),
                spec_u32_be(dl),
            );
            lemma_split_suffix(
                b,
                off,
                seq![5u8] + spec_msg_id_bytes(f.msg_id) + spec_u32_be(f.block_id) + spec_u32_be(
                    f.frag_id,
                ),
                spec_u32_be(f.msg_len),
            );
            lemma_split_suffix(
                b,
                off,
                seq![5u8] + spec_msg_id_bytes(f.msg_id) + spec_u32_be(f.block_id),
                spec_u32_be(f.frag_id),
            );
            lemma_split_suffix(
                b,
                off,
                seq![5u8] + spec_msg_id_bytes(f.msg_id),
                spec_u32_be(f.block_id),
            );
            lemma_split_suffix(b, off, seq![5u8], spec_msg_id_bytes(f.msg_id));
            lemma_msg_id_round(b, off + 1, f.msg_id);
            lemma_u32_round(b, off + 11, f.block_id);
            lemma_u32_round(b, off + 15, f.frag_id);
            lemma_u32_round(b, off + 19, f.msg_len);
            lemma_u32_round(b, off + 23, dl);
        },
        Type::Fail(s) => {
            lemma_split_suffix(b, off, seq![6u8], spec_u32_be(s));
            lemma_u32_round(b, off + 1, s);
        },
    }
}

/// Decoding an encodable envelope's bytes gives the envelope back: the
/// encoding is well formed and reads as exactly the envelope, so the codec
/// never confuses one message with another.
pub proof fn lemma_codec_round_trip(m: Msg)
    requires
        msg_encodable(m),
    ensures
        msg_wf_bytes(spec_msg_bytes(m)),
        msg_at(spec_msg_bytes(m), m),
{
    let b = spec_msg_bytes(m);
    assert(b.subrange(0, b.len() as int) =~= b);
    lemma_split_suffix(
        b,
        0,
        spec_addr_bytes(m.sender) + spec_addr_bytes(m.receiver) + spec_payload_bytes(m.payload),
        spec_type_bytes(m.msg_type),
    );
    let hdr = 12 + spec_payload_bytes(m.payload).len() as int;
    lemma_split_suffix(
        b,
        0,
        spec_addr_bytes(m.sender) + spec_addr_bytes(m.receiver),
        spec_payload_bytes(m.payload),
    );
    lemma_split_suffix(b, 0, spec_addr_bytes(m.sender), spec_addr_bytes(m.receiver));
    lemma_addr_round(b, 0, m.sender);
    lemma_addr_round(b, 6, m.receiver);
    match m.payload {
        None => {
            assert(b[12] == spec_payload_bytes(m.payload)[0]) by {
                assert(b.subrange(12, 13)[0] == spec_payload_bytes(m.payload)[0]);
            }
            assert(b.subrange(13, b.len() as int) =~= spec_type_bytes(m.msg_type));
            lemma_type_round(b, 13, m.msg_type);
        },
        Some(id) => {
            lemma_split_suffix(b, 12, seq![1u8], spec_msg_id_bytes(id));
            assert(b[12] == 1) by {
                assert(b.subrange(12, 13)[0] == 1);
            }
            lemma_msg_id_round(b, 13, id);
            assert(b.subrange(23, b.len() as int) =~= spec_type_bytes(m.msg_type));
            lemma_type_round(b, 23, m.msg_type);
        },
    }
}

// ------------------------------------------------------------------
// The executable codec.
// ------------------------------------------------------------------

/// Appends the big-endian bytes of a 16-bit integer.
fn push_u16(out: &mut Vec<u8>, x: u16)
    ensures
        final(out)@ == old(out)@ + spec_u16_be(x),
{
    let ghost o0 = out@;
    out.push(((x / 0x100) % 0x100) as u8);
    out.push((x % 0x100) as u8);
    proof {
        assert(out@ =~= o0 + spec_u16_be(x));
    }
}

/// Appends the big-endian bytes of a 32-bit integer.
fn push_u32(out: &mut Vec<u8>, x: u32)
    ensures
        final(out)@ == old(out)@ + spec_u32_be(x),
{
    let ghost o0 = out@;
    out.push(((x / 0x100_0000) % 0x100) as u8);
    out.push(((x / 0x1_0000) % 0x100) as u8);
    out.push(((x / 0x100) % 0x100) as u8);
    out.push((x % 0x100) as u8);
    proof {
        assert(out@ =~= o0 + spec_u32_be(x));
    }
}

/// Appends the bytes of an address.
fn push_addr(out: &mut Vec<u8>, a: Addr)
    ensures
        final(out)@ == old(out)@ + spec_addr_bytes(a),
{
    let ghost o0 = out@;
    push_u32(out, a.ip);
    push_u16(out, a.port);
    proof {
        assert(out@ =~= o0 + spec_addr_bytes(a));
    }
}

/// Appends the bytes of a transfer or request id.
fn push_msg_id(out: &mut Vec<u8>, m: MsgId)
    ensures
        final(out)@ == old(out)@ + spec_msg_id_bytes(m),
{
    let ghost o0 = out@;
    push_addr(out, m.addr);
    push_u32(out, m.counter);
    proof {
        assert(out@ =~= o0 + spec_msg_id_bytes(m));
    }
}

/// Encodes one envelope into the datagram bytes to send.
#[verifier::rlimit(50)]
pub fn encode_msg(m: &Msg) -> (r: Vec<u8>)
    requires
        msg_encodable(*m),
    ensures
        r@ == spec_msg_bytes(*m),
{
    let mut out: Vec<u8> = Vec::new();
    push_addr(&mut out, m.sender);
    push_addr(&mut out, m.receiver);
    match m.payload {
        None => out.push(0u8),
        Some(id) => {
            out.push(1u8);
            push_msg_id(&mut out, id);
        },
    }
    let ghost o1 = out@;
    proof {
        assert(o1 =~= spec_addr_bytes(m.sender) + spec_addr_bytes(m.receiver)
            + spec_payload_bytes(m.payload));
    }
    match &m.msg_type {
        Type::ClientRequest(c) => {
            out.push(0u8);
            push_u32(&mut out, *c);
        },
        Type::ElectionRequest(p) => {
            out.push(1u8);
            push_u32(&mut out, *p);
        },
        Type::OKMsg(p) => {
            out.push(2u8);
            push_u32(&mut out, *p);
        },
        Type::CoordinatorBrdCast(a) => {
            out.push(3u8);
            push_addr(&mut out, *a);
        },
        Type::Ack(id, blk) => {
            out.push(4u8);
            push_msg_id(&mut out, *id);
            push_u32(&mut out, *blk);
        },
        Type::Fragment(f) => {
            out.push(5u8);
            push_msg_id(&mut out, f.msg_id);
            push_u32(&mut out, f.block_id);
            push_u32(&mut out, f.frag_id);
            push_u32(&mut out, f.msg_len);
            push_u32(&mut out, f.data.len() as u32);
            let n = f.data.len();
            let mut k: usize = 0;
            let ghost o2 = out@;
            while k < n
                invariant
                    k <= n == f.data@.len(),
                    out@ == o2 + f.data@.subrange(0, k as int),
                decreases n - k,
            {
                out.push(f.data[k]);
                proof {
                    assert(out@ =~= o2 + f.data@.subrange(0, k + 1));
                }
                k = k + 1;
            }
            proof {
                assert(out@ =~= o2 + f.data@);
            }
        },
        Type::Fail(s) => {
            out.push(6u8);
            push_u32(&mut out, *s);
        },
    }
    proof {
        assert(out@ =~= o1 + spec_type_bytes(m.msg_type));
        assert(out@ =~= spec_msg_bytes(*m));
    }
    out
}

/// The 16-bit integer at offset `off`.
fn read_u16(b: &Vec<u8>, off: usize) -> (r: u16)
    requires
        off + 2 <= b@.len(),
    ensures
        r == dec_u16_at(b@, off as int),
{
    let n = b.len();
    proof {
        assert(off + 2 <= n);
    }
    (b[off] as u16) * 0x100 + (b[off + 1] as u16)
}

/// The 32-bit integer at offset `off`.
fn read_u32(b: &Vec<u8>, off: usize) -> (r: u32)
    requires
        off + 4 <= b@.len(),
    ensures
        r == dec_u32_at(b@, off as int),
{
    let n = b.len();
    proof {
        assert(off + 4 <= n);
    }
    (b[off] as u32) * 0x100_0000 + (b[off + 1] as u32) * 0x1_0000 + (b[off + 2] as u32) * 0x100 + (
    b[off + 3] as u32)
}

/// The address at offset `off`.
fn read_addr(b: &Vec<u8>, off: usize) -> (r: Addr)
    requires
        off + 6 <= b@.len(),
    ensures
        r == dec_addr_at(b@, off as int),
{
    let n = b.len();
    proof {
        assert(off + 6 <= n);
    }
    Addr { ip: read_u32(b, off), port: read_u16(b, off + 4) }
}

/// The transfer or request id at offset `off`.
fn read_msg_id(b: &Vec<u8>, off: usize) -> (r: MsgId)
    requires
        off + 10 <= b@.len(),
    ensures
        r == dec_msg_id_at(b@, off as int),
{
    let n = b.len();
    proof {
        assert(off + 10 <= n);
    }
    MsgId { addr: read_addr(b, off), counter: read_u32(b, off + 6) }
}

/// Decodes the tagged union that fills the datagram from `off` on.
fn decode_type(b: &Vec<u8>, off: usize) -> (r: Option<Type>)
    requires
        off <= b@.len(),
    ensures
        (r is Some) == type_wf_at(b@, off as int),
        r matches Some(t) ==> type_at(b@, off as int, t),
{
    let n = b.len();
    let rem = n - off;
    if rem < 1 {
        return None;
    }
    let tag = b[off];
    if tag == 0 && rem == 5 {
        Some(Type::ClientRequest(read_u32(b, off + 1)))
    } else if tag == 1 && rem == 5 {
        Some(Type::ElectionRequest(read_u32(b, off + 1)))
    } else if tag == 2 && rem == 5 {
        Some(Type::OKMsg(read_u32(b, off + 1)))
    } else if tag == 3 && rem == 7 {
        Some(Type::CoordinatorBrdCast(read_addr(b, off + 1)))
    } else if tag == 4 && rem == 15 {
        Some(Type::Ack(read_msg_id(b, off + 1), read_u32(b, off + 11)))
    } else if tag == 5 && rem >= 27 {
        let dl = read_u32(b, off + 23);
        if (rem - 27) as u64 != dl as u64 {
            return None;
        }
        let mut data: Vec<u8> = Vec::new();
        let mut k: usize = off + 27;
        while k < n
            invariant
                off + 27 <= k <= n == b@.len(),
                data@ == b@.subrange(off as int + 27, k as int),
            decreases n - k,
        {
            data.push(b[k]);
            proof {
                assert(data@ =~= b@.subrange(off as int + 27, k + 1));
            }
            k = k + 1;
        }
        Some(
            Type::Fragment(
                Fragment {
                    msg_id: read_msg_id(b, off + 1),
                    block_id: read_u32(b, off + 11),
                    frag_id: read_u32(b, off + 15),
                    msg_len: read_u32(b, off + 19),
                    data,
                },
            ),
        )
    } else if tag == 6 && rem == 5 {
        Some(Type::Fail(read_u32(b, off + 1)))
    } else {
        None
    }
}

/// Decodes one datagram into the envelope it carries, or nothing if it is
/// not exactly one envelope's encoding.
pub fn decode_msg(b: &Vec<u8>) -> (r: Option<Msg>)
    ensures
        (r is Some) == msg_wf_bytes(b@),
        r matches Some(m) ==> msg_at(b@, m),
{
    let n = b.len();
    if n < 13 {
        return None;
    }
    let sender = read_addr(b, 0);
    let receiver = read_addr(b, 6);
    if b[12] == 0 {
        match decode_type(b, 13) {
            Some(t) => Some(Msg { sender, receiver, msg_type: t, payload: None }),
            None => None,
        }
    } else if b[12] == 1 && n >= 23 {
        let id = read_msg_id(b, 13);
        match decode_type(b, 23) {
            Some(t) => Some(Msg { sender, receiver, msg_type: t, payload: Some(id) }),
            None => None,
        }
    } else {
        None
    }
}

// ------------------------------------------------------------------
// Framing for the steganographic payload and the winner's reply.
// ------------------------------------------------------------------

/// Bytes of a raw image: width, height, data length, then the data.
pub open spec fn spec_image_bytes(img: Image) -> Seq<u8> {
    spec_u32_be(img.width) + spec_u32_be(img.height) + spec_u32_be(img.data@.len() as u32)
        + img.data@
}

/// Encodes a raw image for transfer.
pub fn encode_image(img: &Image) -> (r: Vec<u8>)
    requires
        img.data@.len() <= u32::MAX,
    ensures
        r@ == spec_image_bytes(*img),
{
    let mut out: Vec<u8> = Vec::new();
    push_u32(&mut out, img.width);
    push_u32(&mut out, img.height);
    push_u32(&mut out, img.data.len() as u32);
    let ghost o0 = out@;
    let n = img.data.len();
    let mut k: usize = 0;
    while k < n
        invariant
            k <= n == img.data@.len(),
            out@ == o0 + img.data@.subrange(0, k as int),
        decreases n - k,
    {
        out.push(img.data[k]);
        proof {
            assert(out@ =~= o0 + img.data@.subrange(0, k + 1));
        }
        k = k + 1;
    }
    proof {
        assert(out@ =~= spec_image_bytes(*img));
    }
    out
}

/// The byte string is exactly one raw image's bytes.
pub open spec fn image_wf_bytes(b: Seq<u8>) -> bool {
    b.len() >= 12 && b.len() == 12 + dec_u32_at(b, 8) as int
}

/// The byte string reads as exactly the raw image `img`.
pub open spec fn image_at(b: Seq<u8>, img: Image) -> bool {
    &&& image_wf_bytes(b)
    &&& img.width == dec_u32_at(b, 0)
    &&& img.height == dec_u32_at(b, 4)
    &&& img.data@ == b.subrange(12, b.len() as int)
}

/// Decodes a transferred raw image.
pub fn decode_image(b: &Vec<u8>) -> (r: Option<Image>)
    ensures
        (r is Some) == image_wf_bytes(b@),
        r matches Some(img) ==> image_at(b@, img),
{
    let n = b.len();
    if n < 12 {
        return None;
    }
    let dl = read_u32(b, 8);
    if (n - 12) as u64 != dl as u64 {
        return None;
    }
    let mut data: Vec<u8> = Vec::new();
    let mut k: usize = 12;
    while k < n
        invariant
            12 <= k <= n == b@.len(),
            data@ == b@.subrange(12, k as int),
        decreases n - k,
    {
        data.push(b[k]);
        proof {
            assert(data@ =~= b@.subrange(12, k + 1));
        }
        k = k + 1;
    }
    Some(Image { width: read_u32(b, 0), height: read_u32(b, 4), data })
}

/// Decoding an encoded image gives the image back.
pub proof fn lemma_image_round_trip(img: Image)
    requires
        img.data@.len() <= u32::MAX,
    ensures
        image_wf_bytes(spec_image_bytes(img)),
        image_at(spec_image_bytes(img), img),
{
    let b = spec_image_bytes(img);
    assert(b.subrange(0, b.len() as int) =~= b);
    lemma_split_suffix(
        b,
        0,
        spec_u32_be(img.width) + spec_u32_be(img.height) + spec_u32_be(img.data@.len() as u32),
        img.data@,
    );
    lemma_split_suffix(
        b,
        0,
        spec_u32_be(img.width) + spec_u32_be(img.height),
        spec_u32_be(img.data@.len() as u32),
    );
    lemma_split_suffix(b, 0, spec_u32_be(img.width), spec_u32_be(img.height));
    lemma_u32_round(b, 0, img.width);
    lemma_u32_round(b, 4, img.height);
    lemma_u32_round(b, 8, img.data@.len() as u32);
}

/// Encodes the winner's reply: its own service address.
pub fn encode_addr(a: Addr) -> (r: Vec<u8>)
    ensures
        r@ == spec_addr_bytes(a),
{
    let mut out: Vec<u8> = Vec::new();
    push_addr(&mut out, a);
    out
}

/// Decodes a reply as an address: exactly six bytes.
pub fn decode_addr(b: &Vec<u8>) -> (r: Option<Addr>)
    ensures
        r == (if b@.len() == 6 {
            Some(dec_addr_at(b@, 0))
        } else {
            None::<Addr>
        }),
{
    if b.len() == 6 {
        Some(read_addr(b, 0))
    } else {
        None
    }
}

/// Decoding an encoded address gives the address back.
pub proof fn lemma_addr_round_trip(a: Addr)
    ensures
        spec_addr_bytes(a).len() == 6,
        dec_addr_at(spec_addr_bytes(a), 0) == a,
{
    let b = spec_addr_bytes(a);
    assert(b.subrange(0, 6) =~= b);
    lemma_addr_round(b, 0, a);
}

} // verus!
