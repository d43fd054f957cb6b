//! The fixed 12-byte DNS header: transaction id, bit-packed control
//! flags, and the four 16-bit record counts, all big-endian.

use crate::wire::{
    lemma_u16_be_round_trip, push_u16_be, spec_u16_be, spec_u16_be_bytes, u16_from_be_at,
};
use vstd::prelude::*;

verus! {

/// The 16 flag bits of the header, unpacked into their named sub-fields.
///
/// On the wire the first flag byte holds, from least to most significant
/// bit: `rd` (1), `tc` (1), `aa` (1), `opcode` (4), `qr` (1); the second:
/// `rcode` (4), `reserved` (3), `ra` (1).
#[derive(Debug, Clone, Copy, PartialEq, Eq, Structural)]
pub struct HeaderFlags {
    pub rd: u8,
    pub tc: u8,
    pub aa: u8,
    pub opcode: u8,
    pub qr: u8,
    pub rcode: u8,
    pub reserved: u8,
    pub ra: u8,
}

impl HeaderFlags {
    /// Every field fits its documented bit width.
    pub open spec fn wf(self) -> bool {
        &&& self.rd < 2
        &&& self.tc < 2
        &&& self.aa < 2
        &&& self.opcode < 16
        &&& self.qr < 2
        &&& self.rcode < 16
        &&& self.reserved < 8
        &&& self.ra < 2
    }

    /// All-zero flags, the starting point of the builder chain.
    pub fn new() -> (r: HeaderFlags)
        ensures
            r == (HeaderFlags {
                rd: 0,
                tc: 0,
                aa: 0,
                opcode: 0,
                qr: 0,
                rcode: 0,
                reserved: 0,
                ra: 0,
            }),
    {
        HeaderFlags { rd: 0, tc: 0, aa: 0, opcode: 0, qr: 0, rcode: 0, reserved: 0, ra: 0 }
    }

    pub fn with_qr(self, v: u8) -> (r: HeaderFlags)
        requires
            v < 2,
        ensures
            r == (HeaderFlags { qr: v, ..self }),
    {
        HeaderFlags { qr: v, ..self }
    }

    pub fn with_opcode(self, v: u8) -> (r: HeaderFlags)
        requires
            v < 16,
        ensures
            r == (HeaderFlags { opcode: v, ..self }),
    {
        HeaderFlags { opcode: v, ..self }
    }

    pub fn with_aa(self, v: u8) -> (r: HeaderFlags)
        requires
            v < 2,
        ensures
            r == (HeaderFlags { aa: v, ..self }),
    {
        HeaderFlags { aa: v, ..self }
    }

    pub fn with_tc(self, v: u8) -> (r: HeaderFlags)
        requires
            v < 2,
        ensures
            r == (HeaderFlags { tc: v, ..self }),
    {
        HeaderFlags { tc: v, ..self }
    }

    pub fn with_rd(self, v: u8) -> (r: HeaderFlags)
        requires
            v < 2,
        ensures
            r == (HeaderFlags { rd: v, ..self }),
    {
        HeaderFlags { rd: v, ..self }
    }

    pub fn with_ra(self, v: u8) -> (r: HeaderFlags)
        requires
            v < 2,
        ensures
            r == (HeaderFlags { ra: v, ..self }),
    {
        HeaderFlags { ra: v, ..self }
    }

    pub fn with_rcode(self, v: u8) -> (r: HeaderFlags)
        requires
            v < 16,
        ensures
            r == (HeaderFlags { rcode: v, ..self }),
    {
        HeaderFlags { rcode: v, ..self }
    }

    /// Unpacks the two flag bytes of the wire format.
    pub fn from_bytes(b0: u8, b1: u8) -> (r: HeaderFlags)
        ensures
            r == spec_flags_from_bytes(b0, b1),
            r.wf(),
    {
        let r = HeaderFlags {
            rd: b0 & 1,
            tc: (b0 >> 1) & 1,
            aa: (b0 >> 2) & 1,
            opcode: (b0 >> 3) & 0xF,
            qr: (b0 >> 7) & 1,
            rcode: b1 & 0xF,
            reserved: (b1 >> 4) & 7,
            ra: (b1 >> 7) & 1,
        };
        proof {
            assert((b0 & 1) < 2 && ((b0 >> 1) & 1) < 2 && ((b0 >> 2) & 1) < 2 && ((b0 >> 3) & 0xF)
                < 16 && ((b0 >> 7) & 1) < 2 && (b1 & 0xF) < 16 && ((b1 >> 4) & 7) < 8 && ((b1 >> 7)
                & 1) < 2) by (bit_vector);
        }
        r
    }

    /// Packs the flags back into the two wire bytes.
    pub fn into_bytes(self) -> (r: (u8, u8))
        ensures
            r.0 == spec_flags_byte0(self),
            r.1 == spec_flags_byte1(self),
    {
        (
            self.rd | (self.tc << 1) | (self.aa << 2) | (self.opcode << 3) | (self.qr << 7),
            self.rcode | (self.reserved << 4) | (self.ra << 7),
        )
    }
}

/// The first flag byte of the wire format.
pub open spec fn spec_flags_byte0(f: HeaderFlags) -> u8 {
    f.rd | (f.tc << 1) | (f.aa << 2) | (f.opcode << 3) | (f.qr << 7)
}

/// The second flag byte of the wire format.
pub open spec fn spec_flags_byte1(f: HeaderFlags) -> u8 {
    f.rcode | (f.reserved << 4) | (f.ra << 7)
}

/// The flags unpacked from the two wire bytes.
pub open spec fn spec_flags_from_bytes(b0: u8, b1: u8) -> HeaderFlags {
    HeaderFlags {
        rd: b0 & 1,
        tc: (b0 >> 1) & 1,
        aa: (b0 >> 2) & 1,
        opcode: (b0 >> 3) & 0xF,
        qr: (b0 >> 7) & 1,
        rcode: b1 & 0xF,
        reserved: (b1 >> 4) & 7,
        ra: (b1 >> 7) & 1,
    }
}

/// Unpacking the packed bytes of well-formed flags gives the flags back.
pub proof fn lemma_flags_round_trip(f: HeaderFlags)
    requires
        f.wf(),
    ensures
        spec_flags_from_bytes(spec_flags_byte0(f), spec_flags_byte1(f)) == f,
{
    let rd = f.rd;
    let tc = f.tc;
    let aa = f.aa;
    let op = f.opcode;
    let qr = f.qr;
    let rc = f.rcode;
    let rs = f.reserved;
    let ra = f.ra;
    let b0 = rd | (tc << 1) | (aa << 2) | (op << 3) | (qr << 7);
    let b1 = rc | (rs << 4) | (ra << 7);
    assert(rd < 2 && tc < 2 && aa < 2 && op < 16 && qr < 2 && b0 == (rd | (tc << 1) | (aa << 2) | (
    op << 3) | (qr << 7)) ==> (b0 & 1) == rd && ((b0 >> 1) & 1) == tc && ((b0 >> 2) & 1) == aa && ((
    b0 >> 3) & 0xF) == op && ((b0 >> 7) & 1) == qr) by (bit_vector);
    assert(rc < 16 && rs < 8 && ra < 2 && b1 == (rc | (rs << 4) | (ra << 7)) ==> (b1 & 0xF) == rc
        && ((b1 >> 4) & 7) == rs && ((b1 >> 7) & 1) == ra) by (bit_vector);
}

/// The 12-byte header: id, flags, and the four record counts.
#[derive(Debug, Clone, Copy, PartialEq, Eq, Structural)]
pub struct Header {
    pub id: u16,
    pub flags: HeaderFlags,
    pub qdcount: u16,
    pub ancount: u16,
    pub nscount: u16,
    pub arcount: u16,
}

/// The 12 wire bytes of a header.
pub open spec fn spec_header_bytes(h: Header) -> Seq<u8> {
    spec_u16_be_bytes(h.id) + seq![spec_flags_byte0(h.flags), spec_flags_byte1(h.flags)]
        + spec_u16_be_bytes(h.qdcount) + spec_u16_be_bytes(h.ancount) + spec_u16_be_bytes(h.nscount)
        + spec_u16_be_bytes(h.arcount)
}

/// The header decoded from the first 12 bytes of `buf`.
pub open spec fn spec_header_from_bytes(buf: Seq<u8>) -> Header {
    Header {
        id: spec_u16_be(buf[0], buf[1]),
        flags: spec_flags_from_bytes(buf[2], buf[3]),
        qdcount: spec_u16_be(buf[4], buf[5]),
        ancount: spec_u16_be(buf[6], buf[7]),
        nscount: spec_u16_be(buf[8], buf[9]),
        arcount: spec_u16_be(buf[10], buf[11]),
    }
}

impl Header {
    pub fn new(id: u16, flags: HeaderFlags, qdcount: u16, ancount: u16, nscount: u16, arcount: u16) -> (r:
        Header)
        ensures
            r == (Header { id, flags, qdcount, ancount, nscount, arcount }),
    {
        Header { id, flags, qdcount, ancount, nscount, arcount }
    }

    /// Fixed-offset big-endian decode of the first 12 bytes; the caller
    /// has already checked that at least 12 bytes are present.
    pub fn from_bytes(source: &[u8]) -> (r: Header)
        requires
            source@.len() >= 12,
        ensures
            r == spec_header_from_bytes(source@),
            r.flags.wf(),
    {
        let id = u16_from_be_at(source, 0);
        let flags = HeaderFlags::from_bytes(source[2], source[3]);
        let qdcount = u16_from_be_at(source, 4);
        let ancount = u16_from_be_at(source, 6);
        let nscount = u16_from_be_at(source, 8);
        let arcount = u16_from_be_at(source, 10);
        Header { id, flags, qdcount, ancount, nscount, arcount }
    }

    /// The 12 wire bytes, in layout order.
    pub fn to_bytes(&self) -> (r: Vec<u8>)
        ensures
            r@ == spec_header_bytes(*self),
            r@.len() == 12,
    {
        let mut response: Vec<u8> = Vec::new();
        push_u16_be(&mut response, self.id);
        let (f0, f1) = self.flags.into_bytes();
        response.push(f0);
        response.push(f1);
        push_u16_be(&mut response, self.qdcount);
        push_u16_be(&mut response, self.ancount);
        push_u16_be(&mut response, self.nscount);
        push_u16_be(&mut response, self.arcount);
        proof {
            assert(response@ =~= spec_header_bytes(*self));
        }
        response
    }
}

/// Decoding the 12 encoded bytes of a header whose flags are well formed
/// gives the header back, wherever those bytes sit in a larger buffer.
pub proof fn lemma_header_round_trip(h: Header, buf: Seq<u8>)
    requires
        h.flags.wf(),
        buf.len() >= 12,
        buf.subrange(0, 12) == spec_header_bytes(h),
    ensures
        spec_header_from_bytes(buf) == h,
{
    let hb = spec_header_bytes(h);
    assert(forall|i: int| 0 <= i < 12 ==> #[trigger] buf[i] == hb[i]) by {
        assert(forall|i: int| 0 <= i < 12 ==> #[trigger] buf.subrange(0, 12)[i] == buf[i]);
    }
    assert(hb[0] == (h.id >> 8) as u8 && hb[1] == h.id as u8);
    lemma_u16_be_round_trip(h.id);
    assert(hb[2] == spec_flags_byte0(h.flags) && hb[3] == spec_flags_byte1(h.flags));
    lemma_flags_round_trip(h.flags);
    assert(hb[4] == (h.qdcount >> 8) as u8 && hb[5] == h.qdcount as u8);
    lemma_u16_be_round_trip(h.qdcount);
    assert(hb[6] == (h.ancount >> 8) as u8 && hb[7] == h.ancount as u8);
    lemma_u16_be_round_trip(h.ancount);
    assert(hb[8] == (h.nscount >> 8) as u8 && hb[9] == h.nscount as u8);
    lemma_u16_be_round_trip(h.nscount);
    assert(hb[10] == (h.arcount >> 8) as u8 && hb[11] == h.arcount as u8);
    lemma_u16_be_round_trip(h.arcount);
}

} // verus!
