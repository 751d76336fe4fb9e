use vstd::prelude::*;
use vstd::utf8::encode_utf8;

use crate::drop_reason::copy_range;
use crate::types::{AnimatingPacket, CapturedPacket, PacketResult, Protocol};

verus! {

/// Version of the envelope schema.
pub const SCHEMA_VERSION: u32 = 1;

/// Largest value whose varint continuation still fits in 64 bits.
pub const VARINT_TAIL_LIMIT: u64 = 0x0200_0000_0000_0000;

/// The tag byte of `field` with wire type `wt` (fields below 16).
pub open spec fn tag(field: u8, wt: u8) -> u8 {
    (field * 8 + wt) as u8
}

/// Base-128 little-endian encoding of `n`, high bit marking continuation.
pub open spec fn varint(n: u64) -> Seq<u8>
    decreases n,
{
    if n < 128 {
        seq![n as u8]
    } else {
        seq![(n % 128 + 128) as u8] + varint(n / 128)
    }
}

/// Reads a varint at the start of `b`; returns it and what follows.
pub open spec fn parse_varint(b: Seq<u8>) -> Option<(u64, Seq<u8>)>
    decreases b.len(),
{
    if b.len() == 0 {
        None
    } else if b[0] < 128 {
        Some((b[0] as u64, b.drop_first()))
    } else {
        match parse_varint(b.drop_first()) {
            Some((v, rest)) => if v < VARINT_TAIL_LIMIT {
                Some((((b[0] - 128) + 128 * v) as u64, rest))
            } else {
                None
            },
            None => None,
        }
    }
}

/// `n` bytes of `v`, least significant first.
pub open spec fn le_bytes(v: nat, n: nat) -> Seq<u8>
    decreases n,
{
    if n == 0 {
        Seq::empty()
    } else {
        seq![(v % 256) as u8] + le_bytes(v / 256, (n - 1) as nat)
    }
}

/// The number whose bytes, least significant first, are `b`.
pub open spec fn le_value(b: Seq<u8>) -> nat
    decreases b.len(),
{
    if b.len() == 0 {
        0
    } else {
        (b[0] + 256 * le_value(b.drop_first())) as nat
    }
}

pub open spec fn pow256(n: nat) -> nat
    decreases n,
{
    if n == 0 {
        1
    } else {
        256 * pow256((n - 1) as nat)
    }
}

pub open spec fn enc_uint(field: u8, v: u64) -> Seq<u8> {
    seq![tag(field, 0)] + varint(v)
}

pub open spec fn enc_fixed(field: u8, v: u64) -> Seq<u8> {
    seq![tag(field, 1)] + le_bytes(v as nat, 8)
}

pub open spec fn enc_len(field: u8, payload: Seq<u8>) -> Seq<u8> {
    seq![tag(field, 2)] + (varint(payload.len() as u64) + payload)
}

pub open spec fn enc_opt_uint(field: u8, v: Option<u32>) -> Seq<u8> {
    match v {
        Some(x) => enc_uint(field, x as u64),
        None => Seq::empty(),
    }
}

pub open spec fn enc_opt_len(field: u8, v: Option<Seq<u8>>) -> Seq<u8> {
    match v {
        Some(x) => enc_len(field, x),
        None => Seq::empty(),
    }
}

pub open spec fn parse_uint(b: Seq<u8>, field: u8) -> Option<(u64, Seq<u8>)> {
    if b.len() > 0 && b[0] == tag(field, 0) {
        parse_varint(b.drop_first())
    } else {
        None
    }
}

pub open spec fn parse_u32(b: Seq<u8>, field: u8) -> Option<(u32, Seq<u8>)> {
    match parse_uint(b, field) {
        Some((v, rest)) => if v <= u32::MAX {
            Some((v as u32, rest))
        } else {
            None
        },
        None => None,
    }
}

pub open spec fn parse_fixed(b: Seq<u8>, field: u8) -> Option<(u64, Seq<u8>)> {
    if b.len() >= 9 && b[0] == tag(field, 1) {
        Some((le_value(b.subrange(1, 9)) as u64, b.subrange(9, b.len() as int)))
    } else {
        None
    }
}

pub open spec fn parse_len(b: Seq<u8>, field: u8) -> Option<(Seq<u8>, Seq<u8>)> {
    if b.len() > 0 && b[0] == tag(field, 2) {
        match parse_varint(b.drop_first()) {
            Some((n, rest)) => if n <= rest.len() {
                Some((rest.take(n as int), rest.skip(n as int)))
            } else {
                None
            },
            None => None,
        }
    } else {
        None
    }
}

pub open spec fn parse_opt_u32(b: Seq<u8>, field: u8) -> Option<(Option<u32>, Seq<u8>)> {
    if b.len() > 0 && b[0] == tag(field, 0) {
        match parse_u32(b, field) {
            Some((v, rest)) => Some((Some(v), rest)),
            None => None,
        }
    } else {
        Some((None, b))
    }
}

pub open spec fn parse_opt_len(b: Seq<u8>, field: u8) -> Option<(Option<Seq<u8>>, Seq<u8>)> {
    if b.len() > 0 && b[0] == tag(field, 2) {
        match parse_len(b, field) {
            Some((v, rest)) => Some((Some(v), rest)),
            None => None,
        }
    } else {
        Some((None, b))
    }
}

/// Field values of a packet message.
pub struct PacketFields {
    pub id: Seq<u8>,
    pub protocol: u32,
    pub size: u32,
    pub source: Seq<u8>,
    pub src_port: u32,
    pub destination: Seq<u8>,
    pub dest_port: u32,
    pub target_port: Option<u32>,
    pub capture_mono_ns: u64,
    pub reason: Option<Seq<u8>>,
}

/// Field values of a labelled-packet message.
pub struct CapturedFields {
    pub packet: PacketFields,
    pub result: u32,
}

/// Field values of a batch envelope.
pub struct EnvelopeFields {
    pub schema_version: u32,
    pub epoch_offset_bits: u64,
    pub packets: Seq<CapturedFields>,
}

#[verifier::opaque]
pub open spec fn enc_packet(p: PacketFields) -> Seq<u8> {
    enc_len(1, p.id) + (enc_uint(2, p.protocol as u64) + (enc_uint(3, p.size as u64) + (enc_len(
        4,
        p.source,
    ) + (enc_uint(5, p.src_port as u64) + (enc_len(6, p.destination) + (enc_uint(
        7,
        p.dest_port as u64,
    ) + (enc_opt_uint(8, p.target_port) + (enc_uint(9, p.capture_mono_ns) + enc_opt_len(
        10,
        p.reason,
    )))))))))
}

#[verifier::opaque]
pub open spec fn parse_packet(b: Seq<u8>) -> Option<PacketFields> {
    match parse_len(b, 1) {
        None => None,
        Some((id, r1)) => match parse_u32(r1, 2) {
            None => None,
            Some((protocol, r2)) => match parse_u32(r2, 3) {
                None => None,
                Some((size, r3)) => match parse_len(r3, 4) {
                    None => None,
                    Some((source, r4)) => match parse_u32(r4, 5) {
                        None => None,
                        Some((src_port, r5)) => match parse_len(r5, 6) {
                            None => None,
                            Some((destination, r6)) => match parse_u32(r6, 7) {
                                None => None,
                                Some((dest_port, r7)) => match parse_opt_u32(r7, 8) {
                                    None => None,
                                    Some((target_port, r8)) => match parse_uint(r8, 9) {
                                        None => None,
                                        Some((capture_mono_ns, r9)) => match parse_opt_len(r9, 10) {
                                            None => None,
                                            Some((reason, r10)) => if r10.len() == 0 {
                                                Some(
                                                    PacketFields {
                                                        id,
                                                        protocol,
                                                        size,
                                                        source,
                                                        src_port,
                                                        destination,
                                                        dest_port,
                                                        target_port,
                                                        capture_mono_ns,
                                                        reason,
                                                    },
                                                )
                                            } else {
                                                None
                                            },
                                        },
                                    },
                                },
                            },
                        },
                    },
                },
            },
        },
    }
}

#[verifier::opaque]
pub open spec fn enc_captured(c: CapturedFields) -> Seq<u8> {
    enc_len(1, enc_packet(c.packet)) + enc_uint(2, c.result as u64)
}

#[verifier::opaque]
pub open spec fn parse_captured(b: Seq<u8>) -> Option<CapturedFields> {
    match parse_len(b, 1) {
        None => None,
        Some((payload, r1)) => match parse_packet(payload) {
            None => None,
            Some(packet) => match parse_u32(r1, 2) {
                None => None,
                Some((result, r2)) => if r2.len() == 0 {
                    Some(CapturedFields { packet, result })
                } else {
                    None
                },
            },
        },
    }
}

pub open spec fn enc_list(ps: Seq<CapturedFields>) -> Seq<u8>
    decreases ps.len(),
{
    if ps.len() == 0 {
        Seq::empty()
    } else {
        enc_len(3, enc_captured(ps[0])) + enc_list(ps.drop_first())
    }
}

pub open spec fn parse_list(b: Seq<u8>) -> Option<Seq<CapturedFields>>
    decreases b.len(),
{
    if b.len() == 0 {
        Some(Seq::empty())
    } else {
        match parse_len(b, 3) {
            None => None,
            Some((payload, rest)) => if rest.len() < b.len() {
                match parse_captured(payload) {
                    None => None,
                    Some(c) => match parse_list(rest) {
                        None => None,
                        Some(cs) => Some(seq![c] + cs),
                    },
                }
            } else {
                None
            },
        }
    }
}

pub open spec fn enc_envelope(e: EnvelopeFields) -> Seq<u8> {
    enc_uint(1, e.schema_version as u64) + (enc_fixed(2, e.epoch_offset_bits) + enc_list(e.packets))
}

pub open spec fn parse_envelope(b: Seq<u8>) -> Option<EnvelopeFields> {
    match parse_u32(b, 1) {
        None => None,
        Some((schema_version, r1)) => match parse_fixed(r1, 2) {
            None => None,
            Some((epoch_offset_bits, r2)) => match parse_list(r2) {
                None => None,
                Some(packets) => Some(EnvelopeFields { schema_version, epoch_offset_bits, packets }),
            },
        },
    }
}

/// Every length-delimited part of a packet message fits a varint.
pub open spec fn packet_fits(p: PacketFields) -> bool {
    &&& p.id.len() <= u64::MAX
    &&& p.source.len() <= u64::MAX
    &&& p.destination.len() <= u64::MAX
    &&& (p.reason matches Some(r) ==> r.len() <= u64::MAX)
}

pub open spec fn captured_fits(c: CapturedFields) -> bool {
    packet_fits(c.packet) && enc_packet(c.packet).len() <= u64::MAX
}

pub open spec fn envelope_fits(e: EnvelopeFields) -> bool {
    forall|i: int|
        0 <= i < e.packets.len() ==> captured_fits(#[trigger] e.packets[i]) && enc_captured(
            e.packets[i],
        ).len() <= u64::MAX
}

// ---------------------------------------------------------------------------
// Round-trip lemmas
// ---------------------------------------------------------------------------

proof fn lemma_varint(n: u64, rest: Seq<u8>)
    ensures
        parse_varint(varint(n) + rest) == Some((n, rest)),
        varint(n).len() > 0,
    decreases n,
{
    let b = varint(n) + rest;
    if n < 128 {
        assert(b.drop_first() =~= rest);
    } else {
        lemma_varint(n / 128, rest);
        assert(b.drop_first() =~= varint(n / 128) + rest);
        assert(b[0] == (n % 128 + 128) as u8);
    }
}

proof fn lemma_le(v: nat, n: nat)
    requires
        v < pow256(n),
    ensures
        le_value(le_bytes(v, n)) == v,
        le_bytes(v, n).len() == n,
    decreases n,
{
    if n > 0 {
        let p = pow256((n - 1) as nat);
        assert(v / 256 < p) by (nonlinear_arith)
            requires
                v < 256 * p,
        ;
        lemma_le(v / 256, (n - 1) as nat);
        assert(le_bytes(v, n).drop_first() =~= le_bytes(v / 256, (n - 1) as nat));
    }
}

proof fn lemma_uint(field: u8, v: u64, rest: Seq<u8>)
    ensures
        parse_uint(enc_uint(field, v) + rest, field) == Some((v, rest)),
{
    lemma_varint(v, rest);
    assert((enc_uint(field, v) + rest).drop_first() =~= varint(v) + rest);
}

proof fn lemma_u32(field: u8, v: u32, rest: Seq<u8>)
    ensures
        parse_u32(enc_uint(field, v as u64) + rest, field) == Some((v, rest)),
{
    lemma_uint(field, v as u64, rest);
}

proof fn lemma_fixed(field: u8, v: u64, rest: Seq<u8>)
    ensures
        parse_fixed(enc_fixed(field, v) + rest, field) == Some((v, rest)),
{
    assert(pow256(8) == 0x1_0000_0000_0000_0000) by {
        reveal_with_fuel(pow256, 9);
    }
    lemma_le(v as nat, 8);
    let b = enc_fixed(field, v) + rest;
    assert(b.subrange(1, 9) =~= le_bytes(v as nat, 8));
    assert(b.subrange(9, b.len() as int) =~= rest);
}

proof fn lemma_len(field: u8, payload: Seq<u8>, rest: Seq<u8>)
    requires
        payload.len() <= u64::MAX,
    ensures
        parse_len(enc_len(field, payload) + rest, field) == Some((payload, rest)),
{
    let n = payload.len() as u64;
    lemma_varint(n, payload + rest);
    let b = enc_len(field, payload) + rest;
    assert(b.drop_first() =~= varint(n) + (payload + rest));
    assert((payload + rest).take(n as int) =~= payload);
    assert((payload + rest).skip(n as int) =~= rest);
}

proof fn lemma_opt_u32(field: u8, v: Option<u32>, rest: Seq<u8>)
    requires
        rest.len() > 0 ==> rest[0] != tag(field, 0),
        field < 16,
    ensures
        parse_opt_u32(enc_opt_uint(field, v) + rest, field) == Some((v, rest)),
{
    match v {
        Some(x) => {
            lemma_u32(field, x, rest);
        },
        None => {
            assert(enc_opt_uint(field, v) + rest =~= rest);
        },
    }
}

proof fn lemma_opt_len(field: u8, v: Option<Seq<u8>>, rest: Seq<u8>)
    requires
        rest.len() > 0 ==> rest[0] != tag(field, 2),
        v matches Some(x) ==> x.len() <= u64::MAX,
    ensures
        parse_opt_len(enc_opt_len(field, v) + rest, field) == Some((v, rest)),
{
    match v {
        Some(x) => {
            lemma_len(field, x, rest);
        },
        None => {
            assert(enc_opt_len(field, v) + rest =~= rest);
        },
    }
}

proof fn lemma_packet(p: PacketFields)
    requires
        packet_fits(p),
    ensures
        parse_packet(enc_packet(p)) == Some(p),
{
    reveal(parse_packet);
    reveal(enc_packet);
    let e = Seq::<u8>::empty();
    let tail10 = enc_opt_len(10, p.reason);
    let tail9 = enc_uint(9, p.capture_mono_ns) + tail10;
    let tail8 = enc_opt_uint(8, p.target_port) + tail9;
    let tail7 = enc_uint(7, p.dest_port as u64) + tail8;
    let tail6 = enc_len(6, p.destination) + tail7;
    let tail5 = enc_uint(5, p.src_port as u64) + tail6;
    let tail4 = enc_len(4, p.source) + tail5;
    let tail3 = enc_uint(3, p.size as u64) + tail4;
    let tail2 = enc_uint(2, p.protocol as u64) + tail3;
    lemma_len(1, p.id, tail2);
    lemma_u32(2, p.protocol, tail3);
    lemma_u32(3, p.size, tail4);
    lemma_len(4, p.source, tail5);
    lemma_u32(5, p.src_port, tail6);
    lemma_len(6, p.destination, tail7);
    lemma_u32(7, p.dest_port, tail8);
    assert(tail9[0] == tag(9, 0));
    lemma_opt_u32(8, p.target_port, tail9);
    assert(tail10 + e =~= tail10);
    lemma_opt_len(10, p.reason, e);
    lemma_uint(9, p.capture_mono_ns, tail10);
}

proof fn lemma_captured(c: CapturedFields)
    requires
        captured_fits(c),
    ensures
        parse_captured(enc_captured(c)) == Some(c),
{
    reveal(parse_captured);
    reveal(enc_captured);
    let tail = enc_uint(2, c.result as u64);
    lemma_len(1, enc_packet(c.packet), tail);
    lemma_packet(c.packet);
    assert(tail + Seq::<u8>::empty() =~= tail);
    lemma_u32(2, c.result, Seq::<u8>::empty());
}

proof fn lemma_list(ps: Seq<CapturedFields>)
    requires
        forall|i: int|
            0 <= i < ps.len() ==> captured_fits(#[trigger] ps[i]) && enc_captured(ps[i]).len()
                <= u64::MAX,
    ensures
        parse_list(enc_list(ps)) == Some(ps),
    decreases ps.len(),
{
    if ps.len() > 0 {
        let c0 = ps[0];
        let rest = ps.drop_first();
        assert forall|i: int| 0 <= i < rest.len() implies captured_fits(#[trigger] rest[i])
            && enc_captured(rest[i]).len() <= u64::MAX by {
            assert(rest[i] == ps[i + 1]);
        }
        lemma_list(rest);
        let tail = enc_list(rest);
        let b = enc_list(ps);
        assert(b == enc_len(3, enc_captured(c0)) + tail);
        lemma_len(3, enc_captured(c0), tail);
        assert(tail.len() < b.len());
        lemma_captured(c0);
        assert(seq![c0] + rest =~= ps);
    }
}

/// Decoding an encoded envelope gives it back.
pub proof fn lemma_envelope_round_trip(e: EnvelopeFields)
    requires
        envelope_fits(e),
    ensures
        parse_envelope(enc_envelope(e)) == Some(e),
{
    let l = enc_list(e.packets);
    lemma_list(e.packets);
    lemma_fixed(2, e.epoch_offset_bits, l);
    lemma_u32(1, e.schema_version, enc_fixed(2, e.epoch_offset_bits) + l);
}

proof fn lemma_enc_list_push(ps: Seq<CapturedFields>, c: CapturedFields)
    ensures
        enc_list(ps.push(c)) == enc_list(ps) + enc_len(3, enc_captured(c)),
    decreases ps.len(),
{
    let last = enc_len(3, enc_captured(c));
    if ps.len() == 0 {
        assert(ps.push(c).drop_first() =~= Seq::<CapturedFields>::empty());
        assert(ps.push(c)[0] == c);
        assert(enc_list(ps.push(c)) == last + enc_list(Seq::<CapturedFields>::empty()));
        assert(enc_list(ps.push(c)) =~= enc_list(ps) + last);
    } else {
        let tail = ps.drop_first();
        lemma_enc_list_push(tail, c);
        assert(ps.push(c).drop_first() =~= tail.push(c));
        assert(ps.push(c)[0] == ps[0]);
        let head = enc_len(3, enc_captured(ps[0]));
        assert(enc_list(ps.push(c)) == head + enc_list(tail.push(c)));
        assert(enc_list(ps) == head + enc_list(tail));
        assert(enc_list(ps.push(c)) =~= enc_list(ps) + last);
    }
}

// ---------------------------------------------------------------------------
// Messages
// ---------------------------------------------------------------------------

/// A packet as it travels on the wire; text fields hold UTF-8 bytes.
#[derive(Debug, Clone)]
pub struct WirePacket {
    pub id: Vec<u8>,
    pub protocol: u32,
    pub size: u32,
    pub source: Vec<u8>,
    pub src_port: u32,
    pub destination: Vec<u8>,
    pub dest_port: u32,
    pub target_port: Option<u32>,
    pub capture_mono_ns: u64,
    pub reason: Option<Vec<u8>>,
}

impl View for WirePacket {
    type V = PacketFields;

    open spec fn view(&self) -> PacketFields {
        PacketFields {
            id: self.id@,
            protocol: self.protocol,
            size: self.size,
            source: self.source@,
            src_port: self.src_port,
            destination: self.destination@,
            dest_port: self.dest_port,
            target_port: self.target_port,
            capture_mono_ns: self.capture_mono_ns,
            reason: match self.reason {
                Some(r) => Some(r@),
                None => None,
            },
        }
    }
}

/// A labelled packet as it travels on the wire.
#[derive(Debug, Clone)]
pub struct WireCaptured {
    pub packet: WirePacket,
    pub result: u32,
}

impl View for WireCaptured {
    type V = CapturedFields;

    open spec fn view(&self) -> CapturedFields {
        CapturedFields { packet: self.packet@, result: self.result }
    }
}

/// A batch envelope as it travels on the wire. The epoch offset is the bit
/// pattern of a double.
#[derive(Debug, Clone)]
pub struct WireEnvelope {
    pub schema_version: u32,
    pub epoch_offset_bits: u64,
    pub packets: Vec<WireCaptured>,
}

impl View for WireEnvelope {
    type V = EnvelopeFields;

    open spec fn view(&self) -> EnvelopeFields {
        EnvelopeFields {
            schema_version: self.schema_version,
            epoch_offset_bits: self.epoch_offset_bits,
            packets: self.packets@.map_values(|c: WireCaptured| c@),
        }
    }
}

// ---------------------------------------------------------------------------
// Encoding
// ---------------------------------------------------------------------------

fn write_varint(out: &mut Vec<u8>, n: u64)
    ensures
        final(out)@ == old(out)@ + varint(n),
    decreases n,
{
    if n < 128 {
        out.push(n as u8);
        assert(out@ =~= old(out)@ + varint(n));
    } else {
        out.push((n % 128 + 128) as u8);
        let ghost mid = out@;
        write_varint(out, n / 128);
        assert(out@ =~= old(out)@ + varint(n));
    }
}

fn write_uint(out: &mut Vec<u8>, field: u8, v: u64)
    requires
        field < 16,
    ensures
        final(out)@ == old(out)@ + enc_uint(field, v),
{
    out.push(field * 8);
    write_varint(out, v);
    assert(out@ =~= old(out)@ + enc_uint(field, v));
}

fn write_fixed(out: &mut Vec<u8>, field: u8, v: u64)
    requires
        field < 16,
    ensures
        final(out)@ == old(out)@ + enc_fixed(field, v),
{
    out.push(field * 8 + 1);
    let mut rest: u64 = v;
    let mut i: usize = 0;
    while i < 8
        invariant
            i <= 8,
            out@ + le_bytes(rest as nat, (8 - i) as nat) == old(out)@ + enc_fixed(field, v),
        decreases 8 - i,
    {
        let ghost before = out@;
        out.push((rest % 256) as u8);
        proof {
            assert(le_bytes(rest as nat, (8 - i) as nat) =~= seq![(rest % 256) as u8] + le_bytes(
                (rest / 256) as nat,
                (8 - i - 1) as nat,
            ));
            assert(out@ + le_bytes((rest / 256) as nat, (8 - i - 1) as nat) =~= before
                + le_bytes(rest as nat, (8 - i) as nat));
        }
        rest = rest / 256;
        i = i + 1;
    }
    assert(out@ + le_bytes(rest as nat, 0) =~= out@);
}

fn write_len(out: &mut Vec<u8>, field: u8, payload: &Vec<u8>)
    requires
        field < 16,
    ensures
        final(out)@ == old(out)@ + enc_len(field, payload@),
{
    out.push(field * 8 + 2);
    write_varint(out, payload.len() as u64);
    let mut i: usize = 0;
    let ghost start = out@;
    while i < payload.len()
        invariant
            i <= payload@.len(),
            out@ == start + payload@.take(i as int),
        decreases payload@.len() - i,
    {
        out.push(payload[i]);
        assert(payload@.take(i + 1) =~= payload@.take(i as int).push(payload@[i as int]));
        assert(out@ =~= start + payload@.take(i + 1));
        i = i + 1;
    }
    assert(payload@.take(payload@.len() as int) =~= payload@);
    assert(out@ =~= old(out)@ + enc_len(field, payload@));
}

proof fn lemma_assoc(a: Seq<u8>, b: Seq<u8>, c: Seq<u8>)
    ensures
        (a + b) + c == a + (b + c),
{
    assert((a + b) + c =~= a + (b + c));
}

pub fn encode_packet(p: &WirePacket) -> (r: Vec<u8>)
    ensures
        r@ == enc_packet(p@),
{
    let ghost v = p@;
    let ghost tail10 = enc_opt_len(10, v.reason);
    let ghost tail9 = enc_uint(9, v.capture_mono_ns) + tail10;
    let ghost tail8 = enc_opt_uint(8, v.target_port) + tail9;
    let ghost tail7 = enc_uint(7, v.dest_port as u64) + tail8;
    let ghost tail6 = enc_len(6, v.destination) + tail7;
    let ghost tail5 = enc_uint(5, v.src_port as u64) + tail6;
    let ghost tail4 = enc_len(4, v.source) + tail5;
    let ghost tail3 = enc_uint(3, v.size as u64) + tail4;
    let ghost tail2 = enc_uint(2, v.protocol as u64) + tail3;
    assert(enc_packet(v) == enc_len(1, v.id) + tail2) by {
        reveal(enc_packet);
    }
    let mut out: Vec<u8> = Vec::new();
    write_len(&mut out, 1, &p.id);
    proof {
        lemma_assoc(Seq::empty(), enc_len(1, v.id), tail2);
        assert(Seq::<u8>::empty() + enc_len(1, v.id) =~= enc_len(1, v.id));
    }
    let ghost o = out@;
    write_uint(&mut out, 2, p.protocol as u64);
    proof {
        lemma_assoc(o, enc_uint(2, v.protocol as u64), tail3);
    }
    let ghost o = out@;
    write_uint(&mut out, 3, p.size as u64);
    proof {
        lemma_assoc(o, enc_uint(3, v.size as u64), tail4);
    }
    let ghost o = out@;
    write_len(&mut out, 4, &p.source);
    proof {
        lemma_assoc(o, enc_len(4, v.source), tail5);
    }
    let ghost o = out@;
    write_uint(&mut out, 5, p.src_port as u64);
    proof {
        lemma_assoc(o, enc_uint(5, v.src_port as u64), tail6);
    }
    let ghost o = out@;
    write_len(&mut out, 6, &p.destination);
    proof {
        lemma_assoc(o, enc_len(6, v.destination), tail7);
    }
    let ghost o = out@;
    write_uint(&mut out, 7, p.dest_port as u64);
    proof {
        lemma_assoc(o, enc_uint(7, v.dest_port as u64), tail8);
    }
    let ghost o = out@;
    match p.target_port {
        Some(t) => write_uint(&mut out, 8, t as u64),
        None => {
            assert(o + enc_opt_uint(8, v.target_port) =~= o);
        },
    }
    proof {
        lemma_assoc(o, enc_opt_uint(8, v.target_port), tail9);
    }
    let ghost o = out@;
    write_uint(&mut out, 9, p.capture_mono_ns);
    proof {
        lemma_assoc(o, enc_uint(9, v.capture_mono_ns), tail10);
    }
    let ghost o = out@;
    match &p.reason {
        Some(reason) => write_len(&mut out, 10, reason),
        None => {
            assert(o + enc_opt_len(10, v.reason) =~= o);
        },
    }
    assert(out@ == o + tail10);
    out
}

pub fn encode_captured(c: &WireCaptured) -> (r: Vec<u8>)
    ensures
        r@ == enc_captured(c@),
{
    reveal(enc_captured);
    let payload = encode_packet(&c.packet);
    let mut out: Vec<u8> = Vec::new();
    write_len(&mut out, 1, &payload);
    write_uint(&mut out, 2, c.result as u64);
    assert(out@ =~= enc_captured(c@));
    out
}

/// The wire bytes of an envelope.
pub fn encode_envelope(e: &WireEnvelope) -> (r: Vec<u8>)
    ensures
        r@ == enc_envelope(e@),
{
    let mut out: Vec<u8> = Vec::new();
    write_uint(&mut out, 1, e.schema_version as u64);
    write_fixed(&mut out, 2, e.epoch_offset_bits);
    let ghost head = out@;
    let ghost ps = e@.packets;
    let mut i: usize = 0;
    assert(ps.take(0) =~= Seq::<CapturedFields>::empty());
    while i < e.packets.len()
        invariant
            ps == e@.packets,
            ps.len() == e.packets@.len(),
            i <= ps.len(),
            out@ == head + enc_list(ps.take(i as int)),
        decreases ps.len() - i,
    {
        let item = encode_captured(&e.packets[i]);
        write_len(&mut out, 3, &item);
        proof {
            assert(ps.take(i + 1) =~= ps.take(i as int).push(ps[i as int]));
            lemma_enc_list_push(ps.take(i as int), ps[i as int]);
            assert(out@ =~= head + enc_list(ps.take(i + 1)));
        }
        i = i + 1;
    }
    assert(ps.take(ps.len() as int) =~= ps);
    assert(out@ =~= enc_envelope(e@));
    out
}

// ---------------------------------------------------------------------------
// Decoding
// ---------------------------------------------------------------------------

/// The bytes of `b` from `pos` on.
pub open spec fn suffix(b: Seq<u8>, pos: int) -> Seq<u8> {
    b.subrange(pos, b.len() as int)
}

fn read_varint(b: &[u8], pos: usize) -> (r: Option<(u64, usize)>)
    requires
        pos <= b@.len(),
    ensures
        match parse_varint(suffix(b@, pos as int)) {
            Some((v, rest)) => r matches Some((w, p)) && w == v && pos < p <= b@.len() && rest
                == suffix(b@, p as int),
            None => r is None,
        },
    decreases b@.len() - pos,
{
    if pos >= b.len() {
        return None;
    }
    let x = b[pos];
    assert(suffix(b@, pos as int).drop_first() =~= suffix(b@, pos + 1));
    if x < 128 {
        Some((x as u64, pos + 1))
    } else {
        match read_varint(b, pos + 1) {
            Some((v, p)) => {
                if v < VARINT_TAIL_LIMIT {
                    Some(((x - 128) as u64 + 128 * v, p))
                } else {
                    None
                }
            },
            None => None,
        }
    }
}

fn read_uint(b: &[u8], pos: usize, field: u8) -> (r: Option<(u64, usize)>)
    requires
        pos <= b@.len(),
        field < 16,
    ensures
        match parse_uint(suffix(b@, pos as int), field) {
            Some((v, rest)) => r matches Some((w, p)) && w == v && pos < p <= b@.len() && rest
                == suffix(b@, p as int),
            None => r is None,
        },
{
    if pos >= b.len() || b[pos] != field * 8 {
        return None;
    }
    assert(suffix(b@, pos as int).drop_first() =~= suffix(b@, pos + 1));
    read_varint(b, pos + 1)
}

fn read_u32(b: &[u8], pos: usize, field: u8) -> (r: Option<(u32, usize)>)
    requires
        pos <= b@.len(),
        field < 16,
    ensures
        match parse_u32(suffix(b@, pos as int), field) {
            Some((v, rest)) => r matches Some((w, p)) && w == v && pos < p <= b@.len() && rest
                == suffix(b@, p as int),
            None => r is None,
        },
{
    match read_uint(b, pos, field) {
        Some((v, p)) => if v <= u32::MAX as u64 {
            Some((v as u32, p))
        } else {
            None
        },
        None => None,
    }
}

proof fn lemma_pow256_values()
    ensures
        pow256(0) == 1,
        pow256(8) == 0x1_0000_0000_0000_0000,
        forall|n: nat| n <= 8 ==> #[trigger] pow256(n) <= pow256(8),
{
    reveal_with_fuel(pow256, 9);
    assert forall|n: nat| n <= 8 implies #[trigger] pow256(n) <= pow256(8) by {
        reveal_with_fuel(pow256, 9);
    }
}

proof fn lemma_le_step(byte: nat, v: nat, p: nat)
    requires
        byte < 256,
        v < p,
    ensures
        byte + 256 * v < 256 * p,
{
    assert(byte + 256 * v < 256 * p) by (nonlinear_arith)
        requires
            byte < 256,
            v < p,
    ;
}

fn read_fixed(b: &[u8], pos: usize, field: u8) -> (r: Option<(u64, usize)>)
    requires
        pos <= b@.len(),
        field < 16,
    ensures
        match parse_fixed(suffix(b@, pos as int), field) {
            Some((v, rest)) => r matches Some((w, p)) && w == v && pos < p <= b@.len() && rest
                == suffix(b@, p as int),
            None => r is None,
        },
{
    if b.len() - pos < 9 || b[pos] != field * 8 + 1 {
        return None;
    }
    let ghost s = suffix(b@, pos as int);
    proof {
        lemma_pow256_values();
    }
    let len = b.len();
    let mut v: u64 = 0;
    let mut k: usize = 8;
    while k > 0
        invariant
            k <= 8,
            len == b@.len(),
            pos + 9 <= len,
            s == suffix(b@, pos as int),
            v as nat == le_value(s.subrange(k + 1, 9)),
            v < pow256((8 - k) as nat),
            pow256(8) == 0x1_0000_0000_0000_0000,
            forall|n: nat| n <= 8 ==> #[trigger] pow256(n) <= pow256(8),
        decreases k,
    {
        let byte = b[pos + k];
        proof {
            assert(s.subrange(k as int, 9).drop_first() =~= s.subrange(k + 1, 9));
            assert(s.subrange(k as int, 9)[0] == byte);
            lemma_le_step(byte as nat, v as nat, pow256((8 - k) as nat));
            assert(pow256((8 - k + 1) as nat) == 256 * pow256((8 - k) as nat));
        }
        v = byte as u64 + 256 * v;
        k = k - 1;
    }
    assert(s.subrange(9, s.len() as int) =~= suffix(b@, pos + 9));
    Some((v, pos + 9))
}

fn read_len(b: &[u8], pos: usize, field: u8) -> (r: Option<(Vec<u8>, usize)>)
    requires
        pos <= b@.len(),
        field < 16,
    ensures
        match parse_len(suffix(b@, pos as int), field) {
            Some((v, rest)) => r matches Some((w, p)) && w@ == v && pos < p <= b@.len() && rest
                == suffix(b@, p as int),
            None => r is None,
        },
{
    if pos >= b.len() || b[pos] != field * 8 + 2 {
        return None;
    }
    assert(suffix(b@, pos as int).drop_first() =~= suffix(b@, pos + 1));
    match read_varint(b, pos + 1) {
        None => None,
        Some((n, p)) => {
            if n > (b.len() - p) as u64 {
                return None;
            }
            let end = p + n as usize;
            let payload = copy_range(b, p, end);
            assert(suffix(b@, p as int).take(n as int) =~= payload@);
            assert(suffix(b@, p as int).skip(n as int) =~= suffix(b@, end as int));
            Some((payload, end))
        },
    }
}

fn read_opt_u32(b: &[u8], pos: usize, field: u8) -> (r: Option<(Option<u32>, usize)>)
    requires
        pos <= b@.len(),
        field < 16,
    ensures
        match parse_opt_u32(suffix(b@, pos as int), field) {
            Some((v, rest)) => r matches Some((w, p)) && w == v && pos <= p <= b@.len() && rest
                == suffix(b@, p as int),
            None => r is None,
        },
{
    if pos < b.len() && b[pos] == field * 8 {
        match read_u32(b, pos, field) {
            Some((v, p)) => Some((Some(v), p)),
            None => None,
        }
    } else {
        Some((None, pos))
    }
}

fn read_opt_len(b: &[u8], pos: usize, field: u8) -> (r: Option<(Option<Vec<u8>>, usize)>)
    requires
        pos <= b@.len(),
        field < 16,
    ensures
        match parse_opt_len(suffix(b@, pos as int), field) {
            Some((v, rest)) => r matches Some((w, p)) && pos <= p <= b@.len() && rest == suffix(
                b@,
                p as int,
            ) && match v {
                Some(x) => w matches Some(y) && y@ == x,
                None => w is None,
            },
            None => r is None,
        },
{
    if pos < b.len() && b[pos] == field * 8 + 2 {
        match read_len(b, pos, field) {
            Some((v, p)) => Some((Some(v), p)),
            None => None,
        }
    } else {
        Some((None, pos))
    }
}

pub fn decode_packet(b: &[u8]) -> (r: Option<WirePacket>)
    ensures
        match parse_packet(b@) {
            Some(p) => r matches Some(w) && w@ == p,
            None => r is None,
        },
{
    reveal(parse_packet);
    assert(suffix(b@, 0) =~= b@);
    let (id, at1) = match read_len(b, 0, 1) {
        Some(x) => x,
        None => return None,
    };
    let (protocol, at2) = match read_u32(b, at1, 2) {
        Some(x) => x,
        None => return None,
    };
    let (size, at3) = match read_u32(b, at2, 3) {
        Some(x) => x,
        None => return None,
    };
    let (source, at4) = match read_len(b, at3, 4) {
        Some(x) => x,
        None => return None,
    };
    let (src_port, at5) = match read_u32(b, at4, 5) {
        Some(x) => x,
        None => return None,
    };
    let (destination, at6) = match read_len(b, at5, 6) {
        Some(x) => x,
        None => return None,
    };
    let (dest_port, at7) = match read_u32(b, at6, 7) {
        Some(x) => x,
        None => return None,
    };
    let (target_port, at8) = match read_opt_u32(b, at7, 8) {
        Some(x) => x,
        None => return None,
    };
    let (capture_mono_ns, at9) = match read_uint(b, at8, 9) {
        Some(x) => x,
        None => return None,
    };
    let (reason, at10) = match read_opt_len(b, at9, 10) {
        Some(x) => x,
        None => return None,
    };
    if at10 != b.len() {
        return None;
    }
    Some(
        WirePacket {
            id,
            protocol,
            size,
            source,
            src_port,
            destination,
            dest_port,
            target_port,
            capture_mono_ns,
            reason,
        },
    )
}

pub fn decode_captured(b: &[u8]) -> (r: Option<WireCaptured>)
    ensures
        match parse_captured(b@) {
            Some(c) => r matches Some(w) && w@ == c,
            None => r is None,
        },
{
    reveal(parse_captured);
    assert(suffix(b@, 0) =~= b@);
    let (payload, at1) = match read_len(b, 0, 1) {
        Some(x) => x,
        None => return None,
    };
    let packet = match decode_packet(payload.as_slice()) {
        Some(x) => x,
        None => return None,
    };
    let (result, at2) = match read_u32(b, at1, 2) {
        Some(x) => x,
        None => return None,
    };
    if at2 != b.len() {
        return None;
    }
    Some(WireCaptured { packet, result })
}

/// The envelope whose wire bytes are `b`, if they are one.
pub fn decode_envelope(b: &[u8]) -> (r: Option<WireEnvelope>)
    ensures
        match parse_envelope(b@) {
            Some(e) => r matches Some(w) && w@ == e,
            None => r is None,
        },
{
    assert(suffix(b@, 0) =~= b@);
    let (schema_version, at1) = match read_u32(b, 0, 1) {
        Some(x) => x,
        None => return None,
    };
    let (epoch_offset_bits, at2) = match read_fixed(b, at1, 2) {
        Some(x) => x,
        None => return None,
    };
    let mut packets: Vec<WireCaptured> = Vec::new();
    let mut pos = at2;
    let ghost mut acc: Seq<CapturedFields> = Seq::empty();
    while pos < b.len()
        invariant
            at2 <= pos <= b@.len(),
            suffix(b@, 0) == b@,
            parse_u32(b@, 1) == Some((schema_version, suffix(b@, at1 as int))),
            parse_fixed(suffix(b@, at1 as int), 2) == Some((epoch_offset_bits, suffix(b@, at2 as int))),
            packets@.len() == acc.len(),
            forall|i: int| 0 <= i < acc.len() ==> #[trigger] packets@[i]@ == acc[i],
            parse_list(suffix(b@, at2 as int)) == match parse_list(suffix(b@, pos as int)) {
                Some(cs) => Some(acc + cs),
                None => None,
            },
        decreases b@.len() - pos,
    {
        let ghost here = suffix(b@, pos as int);
        assert(here.len() > 0);
        let (payload, np) = match read_len(b, pos, 3) {
            Some(x) => x,
            None => {
                assert(parse_list(here) is None);
                return None;
            },
        };
        assert(suffix(b@, np as int).len() < here.len());
        let c = match decode_captured(payload.as_slice()) {
            Some(x) => x,
            None => {
                assert(parse_list(here) is None);
                return None;
            },
        };
        packets.push(c);
        proof {
            let old_acc = acc;
            acc = acc.push(c@);
            match parse_list(suffix(b@, np as int)) {
                Some(cs) => {
                    assert(parse_list(here) == Some(seq![c@] + cs));
                    assert(old_acc + (seq![c@] + cs) =~= acc + cs);
                },
                None => {
                    assert(parse_list(here) is None);
                },
            }
        }
        pos = np;
    }
    proof {
        assert(suffix(b@, pos as int) =~= Seq::<u8>::empty());
        assert(acc + Seq::<CapturedFields>::empty() =~= acc);
        assert(packets@.map_values(|c: WireCaptured| c@) =~= acc);
    }
    Some(WireEnvelope { schema_version, epoch_offset_bits, packets })
}

// ---------------------------------------------------------------------------
// From labelled packets
// ---------------------------------------------------------------------------

pub open spec fn protocol_code(p: Protocol) -> u32 {
    match p {
        Protocol::Tcp => 0,
        Protocol::Udp => 1,
    }
}

pub open spec fn result_code(r: PacketResult) -> u32 {
    match r {
        PacketResult::Delivered => 0,
        PacketResult::NicDrop => 1,
        PacketResult::FwDrop => 2,
    }
}

/// The wire fields of `p`.
pub open spec fn packet_fields_of(p: AnimatingPacket) -> PacketFields {
    PacketFields {
        id: encode_utf8(p.id@),
        protocol: protocol_code(p.protocol),
        size: p.size,
        source: encode_utf8(p.source@),
        src_port: p.src_port as u32,
        destination: encode_utf8(p.destination@),
        dest_port: p.dest_port as u32,
        target_port: match p.target_port {
            Some(t) => Some(t as u32),
            None => None,
        },
        capture_mono_ns: p.capture_mono_ns,
        reason: match p.reason {
            Some(r) => Some(encode_utf8(r@)),
            None => None,
        },
    }
}

pub open spec fn captured_fields_of(c: CapturedPacket) -> CapturedFields {
    CapturedFields { packet: packet_fields_of(c.packet), result: result_code(c.result) }
}

fn utf8_bytes(s: &String) -> (r: Vec<u8>)
    ensures
        r@ == encode_utf8(s@),
{
    let b = s.as_str().as_bytes();
    let r = copy_range(b, 0, b.len());
    assert(b@.subrange(0, b@.len() as int) =~= b@);
    r
}

pub fn protocol_to_proto(protocol: &Protocol) -> (r: u32)
    ensures
        r == protocol_code(*protocol),
{
    match protocol {
        Protocol::Tcp => 0,
        Protocol::Udp => 1,
    }
}

pub fn packet_result_to_proto(result: &PacketResult) -> (r: u32)
    ensures
        r == result_code(*result),
{
    match result {
        PacketResult::Delivered => 0,
        PacketResult::NicDrop => 1,
        PacketResult::FwDrop => 2,
    }
}

pub fn animating_packet_to_proto(packet: &AnimatingPacket) -> (r: WirePacket)
    ensures
        r@ == packet_fields_of(*packet),
{
    WirePacket {
        id: utf8_bytes(&packet.id),
        protocol: protocol_to_proto(&packet.protocol),
        size: packet.size,
        source: utf8_bytes(&packet.source),
        src_port: packet.src_port as u32,
        destination: utf8_bytes(&packet.destination),
        dest_port: packet.dest_port as u32,
        target_port: match packet.target_port {
            Some(t) => Some(t as u32),
            None => None,
        },
        capture_mono_ns: packet.capture_mono_ns,
        reason: match &packet.reason {
            Some(r) => Some(utf8_bytes(r)),
            None => None,
        },
    }
}

pub fn packet_to_proto(packet: &CapturedPacket) -> (r: WireCaptured)
    ensures
        r@ == captured_fields_of(*packet),
{
    WireCaptured {
        packet: animating_packet_to_proto(&packet.packet),
        result: packet_result_to_proto(&packet.result),
    }
}

/// The envelope of a batch, stamped with the epoch offset (bits of a double).
pub fn batch_to_envelope(batch: &Vec<CapturedPacket>, epoch_offset_bits: u64) -> (r: WireEnvelope)
    ensures
        r@.schema_version == SCHEMA_VERSION,
        r@.epoch_offset_bits == epoch_offset_bits,
        r@.packets == batch@.map_values(|c: CapturedPacket| captured_fields_of(c)),
{
    let mut packets: Vec<WireCaptured> = Vec::new();
    let mut i: usize = 0;
    while i < batch.len()
        invariant
            i <= batch@.len(),
            packets@.len() == i,
            forall|j: int| 0 <= j < i ==> #[trigger] packets@[j]@ == captured_fields_of(batch@[j]),
        decreases batch@.len() - i,
    {
        packets.push(packet_to_proto(&batch[i]));
        i = i + 1;
    }
    let r = WireEnvelope { schema_version: SCHEMA_VERSION, epoch_offset_bits, packets };
    assert(r@.packets =~= batch@.map_values(|c: CapturedPacket| captured_fields_of(c)));
    r
}

} // verus!
