//! One answer record: a domain name as labels, type, class, TTL and a
//! fixed four-byte resource datum (an IPv4 address), with its wire codec.

use crate::dns_error::DNSError;
use crate::labels_helpers::{
    labels_from_bytes, labels_from_string, labels_to_bytes, labels_view, labels_wf,
    lemma_parse_labels_encoding, spec_labels_bytes, spec_labels_from_bytes, spec_labels_of_domain,
    Labels,
};
use crate::wire::{
    lemma_u16_be_round_trip, lemma_u32_be_round_trip, push_u16_be, push_u32_be, spec_u16_be,
    spec_u16_be_bytes, spec_u32_be, spec_u32_be_bytes, u16_from_be_at, u32_from_be_at,
};
use vstd::prelude::*;

verus! {

/// An answer record: the answered domain as a label sequence, the record
/// type and class, the time to live in seconds, the announced resource
/// data length, and the resource data itself — always four literal bytes,
/// an IPv4 address.
#[derive(Debug, PartialEq)]
pub struct Answer {
    pub labels: Labels,
    pub answer_type: u16,
    pub class: u16,
    pub ttl: u32,
    pub rdlength: u16,
    pub data: [u8; 4],
}

/// The mathematical value of an answer record.
#[verifier::ext_equal]
pub ghost struct AnswerView {
    pub labels: Seq<(u8, Seq<char>)>,
    pub answer_type: u16,
    pub class: u16,
    pub ttl: u32,
    pub rdlength: u16,
    pub data: Seq<u8>,
}

impl View for Answer {
    type V = AnswerView;

    open spec fn view(&self) -> AnswerView {
        AnswerView {
            labels: labels_view(self.labels@),
            answer_type: self.answer_type,
            class: self.class,
            ttl: self.ttl,
            rdlength: self.rdlength,
            data: self.data@,
        }
    }
}

impl Clone for Answer {
    /// A clone carries the same mathematical value.
    fn clone(&self) -> (r: Self)
        ensures
            r@ == self@,
    {
        let mut labels: Labels = Vec::new();
        let mut i: usize = 0;
        while i < self.labels.len()
            invariant
                i <= self.labels@.len(),
                labels@ == self.labels@.subrange(0, i as int),
            decreases self.labels@.len() - i,
        {
            labels.push((self.labels[i].0, self.labels[i].1.clone()));
            proof {
                assert(labels@ =~= self.labels@.subrange(0, i + 1));
            }
            i = i + 1;
        }
        proof {
            assert(self.labels@.subrange(0, self.labels@.len() as int) =~= self.labels@);
        }
        Answer {
            labels,
            answer_type: self.answer_type,
            class: self.class,
            ttl: self.ttl,
            rdlength: self.rdlength,
            data: [self.data[0], self.data[1], self.data[2], self.data[3]],
        }
    }
}

/// The wire bytes of an answer: its labels, the terminating zero byte,
/// then type, class, TTL and resource data length big-endian, then the
/// four resource data bytes.
pub open spec fn spec_answer_bytes(a: AnswerView) -> Seq<u8> {
    spec_labels_bytes(a.labels) + seq![0u8] + spec_u16_be_bytes(a.answer_type) + spec_u16_be_bytes(
        a.class,
    ) + spec_u32_be_bytes(a.ttl) + spec_u16_be_bytes(a.rdlength) + a.data
}

/// What decoding an answer at `pos` of `buf` yields: the record and the
/// bytes it occupies at `pos`, or the first error met: the label error, or
/// `AnswerSizeError` when fewer than 14 bytes follow the labels.
pub open spec fn spec_parse_answer(buf: Seq<u8>, pos: int) -> Result<(AnswerView, int), DNSError> {
    match spec_labels_from_bytes(buf, pos) {
        Err(e) => Err(e),
        Ok((ls, n)) => if buf.len() - (pos + n) < 14 {
            Err(DNSError::AnswerSizeError)
        } else {
            Ok(
                (
                    AnswerView {
                        labels: ls,
                        answer_type: spec_u16_be(buf[pos + n], buf[pos + n + 1]),
                        class: spec_u16_be(buf[pos + n + 2], buf[pos + n + 3]),
                        ttl: spec_u32_be(
                            buf[pos + n + 4],
                            buf[pos + n + 5],
                            buf[pos + n + 6],
                            buf[pos + n + 7],
                        ),
                        rdlength: spec_u16_be(buf[pos + n + 8], buf[pos + n + 9]),
                        data: buf.subrange(pos + n + 10, pos + n + 14),
                    },
                    n + 14,
                ),
            )
        },
    }
}

impl Answer {
    /// A fresh answer for `domain`, carrying the four octets of an IPv4
    /// address; the announced resource data length is their count.
    pub fn new(domain: String, answer_type: u16, class: u16, ttl: u32, ip: [u8; 4]) -> (r: Answer)
        ensures
            r@.labels == spec_labels_of_domain(domain@),
            r@.answer_type == answer_type,
            r@.class == class,
            r@.ttl == ttl,
            r@.rdlength == 4,
            r@.data == ip@,
            r.labels@.len() >= 1,
    {
        Answer { labels: labels_from_string(domain), answer_type, class, ttl, rdlength: 4, data: ip }
    }

    /// The record's wire bytes.
    pub fn to_bytes(&self) -> (r: Vec<u8>)
        ensures
            r@ == spec_answer_bytes(self@),
    {
        let mut answer = labels_to_bytes(self.labels.as_slice());
        answer.push(0);
        push_u16_be(&mut answer, self.answer_type);
        push_u16_be(&mut answer, self.class);
        push_u32_be(&mut answer, self.ttl);
        push_u16_be(&mut answer, self.rdlength);
        answer.push(self.data[0]);
        answer.push(self.data[1]);
        answer.push(self.data[2]);
        answer.push(self.data[3]);
        proof {
            assert(answer@ =~= spec_answer_bytes(self@));
        }
        answer
    }

    /// Decodes the answer at `offset`, returning it with the number of
    /// bytes it occupies there, so the caller can advance its cursor.
    pub fn from_bytes(buffer: &[u8], offset: usize) -> (r: Result<(Answer, usize), DNSError>)
        ensures
            match r {
                Ok((a, consumed)) => {
                    &&& spec_parse_answer(buffer@, offset as int) == Ok::<_, DNSError>(
                        (a@, consumed as int),
                    )
                    &&& offset + consumed <= buffer@.len()
                    &&& consumed >= 16
                    &&& a.labels@.len() >= 1
                },
                Err(e) => spec_parse_answer(buffer@, offset as int) == Err::<
                    (AnswerView, int),
                    _,
                >(e),
            },
    {
        let total = buffer.len();
        let (labels, size) = match labels_from_bytes(buffer, offset) {
            Ok(p) => p,
            Err(e) => {
                return Err(e);
            },
        };
        let after = offset + size;
        if buffer.len() - after < 14 {
            return Err(DNSError::AnswerSizeError);
        }
        let answer_type = u16_from_be_at(buffer, after);
        let class = u16_from_be_at(buffer, after + 2);
        let ttl = u32_from_be_at(buffer, after + 4);
        let rdlength = u16_from_be_at(buffer, after + 8);
        let d0 = buffer[after + 10];
        let d1 = buffer[after + 11];
        let d2 = buffer[after + 12];
        let d3 = buffer[after + 13];
        let data: [u8; 4] = [d0, d1, d2, d3];
        let a = Answer { labels, answer_type, class, ttl, rdlength, data };
        proof {
            assert(a.data@ =~= buffer@.subrange(
                offset + size + 10,
                offset + size + 14 as int,
            ));
            assert(a@ =~= spec_parse_answer(buffer@, offset as int)->Ok_0.0);
        }
        Ok((a, size + 14))
    }
}

/// Decoding the encoded bytes of an answer with well-formed labels,
/// wherever they sit in a larger buffer, gives the answer back.
pub proof fn lemma_parse_answer_encoding(buf: Seq<u8>, pos: int, a: AnswerView)
    requires
        labels_wf(a.labels),
        a.data.len() == 4,
        0 <= pos,
        pos + spec_answer_bytes(a).len() <= buf.len(),
        buf.subrange(pos, pos + spec_answer_bytes(a).len() as int) == spec_answer_bytes(a),
    ensures
        spec_parse_answer(buf, pos) == Ok::<_, DNSError>((a, spec_answer_bytes(a).len() as int)),
{
    let enc = spec_labels_bytes(a.labels);
    let ab = spec_answer_bytes(a);
    let n = enc.len() + 1 as int;
    assert(ab.len() == n + 14);
    assert(forall|i: int| 0 <= i < ab.len() ==> buf[pos + i] == #[trigger] ab[i]) by {
        assert(forall|i: int|
            0 <= i < ab.len() ==> #[trigger] buf.subrange(pos, pos + ab.len() as int)[i] == buf[pos
                + i]);
    }
    assert(buf.subrange(pos, pos + n) =~= enc + seq![0u8]) by {
        assert(forall|i: int|
            0 <= i < n ==> #[trigger] buf.subrange(pos, pos + n)[i] == buf[pos + i]);
        assert(forall|i: int| 0 <= i < n ==> (enc + seq![0u8])[i] == #[trigger] ab[i]);
    }
    lemma_parse_labels_encoding(buf, pos, a.labels, buf.len() as nat, true, 0, Seq::empty());
    assert(Seq::empty() + a.labels =~= a.labels);
    assert(spec_labels_from_bytes(buf, pos) == Ok::<_, DNSError>((a.labels, n)));
    let tb = spec_u16_be_bytes(a.answer_type);
    let cb = spec_u16_be_bytes(a.class);
    let ttlb = spec_u32_be_bytes(a.ttl);
    let rb = spec_u16_be_bytes(a.rdlength);
    assert(buf[pos + n] == tb[0] && buf[pos + n + 1] == tb[1]) by {
        assert(ab[n] == tb[0] && ab[n + 1] == tb[1]);
    }
    assert(buf[pos + n + 2] == cb[0] && buf[pos + n + 3] == cb[1]) by {
        assert(ab[n + 2] == cb[0] && ab[n + 3] == cb[1]);
    }
    assert(buf[pos + n + 4] == ttlb[0] && buf[pos + n + 5] == ttlb[1] && buf[pos + n + 6]
        == ttlb[2] && buf[pos + n + 7] == ttlb[3]) by {
        assert(ab[n + 4] == ttlb[0] && ab[n + 5] == ttlb[1] && ab[n + 6] == ttlb[2] && ab[n + 7]
            == ttlb[3]);
    }
    assert(buf[pos + n + 8] == rb[0] && buf[pos + n + 9] == rb[1]) by {
        assert(ab[n + 8] == rb[0] && ab[n + 9] == rb[1]);
    }
    lemma_u16_be_round_trip(a.answer_type);
    lemma_u16_be_round_trip(a.class);
    lemma_u32_be_round_trip(a.ttl);
    lemma_u16_be_round_trip(a.rdlength);
    let front = enc + seq![0u8] + tb + cb + ttlb + rb;
    assert(ab == front + a.data);
    assert(front.len() == n + 10);
    assert forall|i: int| 0 <= i < 4 implies #[trigger] buf.subrange(pos + n + 10, pos + n + 14)[i]
        == a.data[i] by {
        assert(buf.subrange(pos + n + 10, pos + n + 14)[i] == buf[pos + n + 10 + i]);
        assert(buf[pos + (n + 10 + i)] == ab[n + 10 + i]);
        assert(ab[n + 10 + i] == (front + a.data)[n + 10 + i]);
        assert((front + a.data)[n + 10 + i] == a.data[i]);
    }
    assert(buf.subrange(pos + n + 10, pos + n + 14) =~= a.data);
    let parsed = spec_parse_answer(buf, pos)->Ok_0.0;
    assert(parsed =~= a);
}

} // verus!
