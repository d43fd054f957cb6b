//! A whole DNS message: one header, then its question records, then its
//! answer records, with constructors for derived requests and responses
//! and the codec over complete byte buffers.

pub mod answer;
pub mod header;
pub mod question;

use crate::dns_error::DNSError;
use crate::dns_message::answer::{
    lemma_parse_answer_encoding, spec_answer_bytes, spec_parse_answer, Answer, AnswerView,
};
use crate::dns_message::header::{
    lemma_header_round_trip, spec_header_bytes, spec_header_from_bytes, Header, HeaderFlags,
};
use crate::dns_message::question::{
    lemma_parse_question_encoding, spec_parse_question, spec_question_bytes, Question, QuestionView,
};
use crate::labels_helpers::labels_wf;
use vstd::prelude::*;

verus! {

/// A complete message: the header's question and answer counts equal the
/// number of records present whenever the message was built by the
/// constructors here.
#[derive(Debug, PartialEq)]
pub struct DNSMessage {
    pub header: Header,
    pub questions: Vec<Question>,
    pub answers: Vec<Answer>,
}

/// The mathematical value of a message.
#[verifier::ext_equal]
pub ghost struct MessageView {
    pub header: Header,
    pub questions: Seq<QuestionView>,
    pub answers: Seq<AnswerView>,
}

pub open spec fn questions_view(qs: Seq<Question>) -> Seq<QuestionView> {
    qs.map(|i: int, q: Question| q@)
}

pub open spec fn answers_view(ans: Seq<Answer>) -> Seq<AnswerView> {
    ans.map(|i: int, a: Answer| a@)
}

impl View for DNSMessage {
    type V = MessageView;

    open spec fn view(&self) -> MessageView {
        MessageView {
            header: self.header,
            questions: questions_view(self.questions@),
            answers: answers_view(self.answers@),
        }
    }
}

/// The wire bytes of a question list, in order.
pub open spec fn spec_questions_bytes(qs: Seq<QuestionView>) -> Seq<u8>
    decreases qs.len(),
{
    if qs.len() == 0 {
        Seq::empty()
    } else {
        spec_question_bytes(qs[0]) + spec_questions_bytes(qs.drop_first())
    }
}

/// The wire bytes of an answer list, in order.
pub open spec fn spec_answers_bytes(ans: Seq<AnswerView>) -> Seq<u8>
    decreases ans.len(),
{
    if ans.len() == 0 {
        Seq::empty()
    } else {
        spec_answer_bytes(ans[0]) + spec_answers_bytes(ans.drop_first())
    }
}

/// The wire bytes of a whole message: header, questions, answers.
pub open spec fn spec_message_bytes(m: MessageView) -> Seq<u8> {
    spec_header_bytes(m.header) + spec_questions_bytes(m.questions) + spec_answers_bytes(m.answers)
}

/// Parses `count` consecutive questions starting at `pos`: each record's
/// cursor starts where the previous one ended.
pub open spec fn spec_parse_questions(
    buf: Seq<u8>,
    pos: int,
    count: int,
    acc: Seq<QuestionView>,
) -> Result<(Seq<QuestionView>, int), DNSError>
    decreases count,
{
    if count <= 0 {
        Ok((acc, pos))
    } else {
        match spec_parse_question(buf, pos) {
            Err(e) => Err(e),
            Ok((q, c)) => spec_parse_questions(buf, pos + c, count - 1, acc.push(q)),
        }
    }
}

/// Parses `count` consecutive answers starting at `pos`.
pub open spec fn spec_parse_answers(
    buf: Seq<u8>,
    pos: int,
    count: int,
    acc: Seq<AnswerView>,
) -> Result<(Seq<AnswerView>, int), DNSError>
    decreases count,
{
    if count <= 0 {
        Ok((acc, pos))
    } else {
        match spec_parse_answer(buf, pos) {
            Err(e) => Err(e),
            Ok((a, c)) => spec_parse_answers(buf, pos + c, count - 1, acc.push(a)),
        }
    }
}

/// What decoding a whole message from the first `size` received bytes of
/// `buf` yields: too short a datagram is rejected outright; otherwise the
/// header's counts drive the two record parsers, and any record error is
/// the message's error.  Trailing bytes are ignored.
pub open spec fn spec_parse_message(size: usize, buf: Seq<u8>) -> Result<MessageView, DNSError> {
    if size < 12 {
        Err(DNSError::RequestHeaderSizeError(size))
    } else {
        let h = spec_header_from_bytes(buf);
        match spec_parse_questions(buf, 12, h.qdcount as int, Seq::empty()) {
            Err(e) => Err(e),
            Ok((qs, pos)) => match spec_parse_answers(buf, pos, h.ancount as int, Seq::empty()) {
                Err(e) => Err(e),
                Ok((ans, end)) => Ok(MessageView { header: h, questions: qs, answers: ans }),
            },
        }
    }
}

impl DNSMessage {
    /// A fresh message: the header's question and answer counts are the
    /// lengths of the supplied lists; authority and additional stay zero.
    pub fn new(id: u16, flags: HeaderFlags, questions: Vec<Question>, answers: Vec<Answer>) -> (r:
        DNSMessage)
        requires
            questions@.len() <= 0xFFFF,
            answers@.len() <= 0xFFFF,
        ensures
            r.header == (Header {
                id,
                flags,
                qdcount: questions@.len() as u16,
                ancount: answers@.len() as u16,
                nscount: 0,
                arcount: 0,
            }),
            r@.questions == questions_view(questions@),
            r@.answers == answers_view(answers@),
    {
        let qdcount = questions.len() as u16;
        let ancount = answers.len() as u16;
        let header = Header::new(id, flags, qdcount, ancount, 0, 0);
        DNSMessage { header, questions, answers }
    }

    /// A fresh outbound request derived from another message's header:
    /// same id, opcode, recursion-desired bit and response code, with the
    /// response bit cleared and empty record lists; the counts are set to
    /// the supplied values for the records the caller is about to add.
    pub fn from_request_header(request: &DNSMessage, qdcount: u16, ancount: u16) -> (r: DNSMessage)
        requires
            request.header.flags.wf(),
        ensures
            r.header == (Header {
                id: request.header.id,
                flags: HeaderFlags {
                    rd: request.header.flags.rd,
                    tc: 0,
                    aa: 0,
                    opcode: request.header.flags.opcode,
                    qr: 0,
                    rcode: request.header.flags.rcode,
                    reserved: 0,
                    ra: 0,
                },
                qdcount,
                ancount,
                nscount: 0,
                arcount: 0,
            }),
            r@.questions == Seq::<QuestionView>::empty(),
            r@.answers == Seq::<AnswerView>::empty(),
            r.header.flags.wf(),
    {
        let flags = HeaderFlags::new().with_qr(0).with_opcode(
            request.header.flags.opcode,
        ).with_aa(0).with_tc(0).with_rd(request.header.flags.rd).with_ra(0).with_rcode(
            request.header.flags.rcode,
        );
        let header = Header::new(request.header.id, flags, qdcount, ancount, 0, 0);
        let questions: Vec<Question> = Vec::new();
        let answers: Vec<Answer> = Vec::new();
        proof {
            assert(questions_view(questions@) =~= Seq::<QuestionView>::empty());
            assert(answers_view(answers@) =~= Seq::<AnswerView>::empty());
        }
        DNSMessage { header, questions, answers }
    }

    /// The response to a request: the response bit is set, opcode and
    /// recursion-desired are copied, the id is the request's, and the
    /// response code is 0 for the standard query opcode and 4
    /// (not implemented) for any other.  The supplied records become the
    /// response's records and counts.
    pub fn new_response(request_header: &Header, questions: Vec<Question>, answers: Vec<Answer>) -> (r:
        DNSMessage)
        requires
            request_header.flags.wf(),
            questions@.len() <= 0xFFFF,
            answers@.len() <= 0xFFFF,
        ensures
            r.header == (Header {
                id: request_header.id,
                flags: HeaderFlags {
                    rd: request_header.flags.rd,
                    tc: 0,
                    aa: 0,
                    opcode: request_header.flags.opcode,
                    qr: 1,
                    rcode: if request_header.flags.opcode == 0 {
                        0
                    } else {
                        4
                    },
                    reserved: 0,
                    ra: 0,
                },
                qdcount: questions@.len() as u16,
                ancount: answers@.len() as u16,
                nscount: 0,
                arcount: 0,
            }),
            r@.questions == questions_view(questions@),
            r@.answers == answers_view(answers@),
            r.header.flags.wf(),
    {
        let rcode: u8 = if request_header.flags.opcode == 0 {
            0
        } else {
            4
        };
        let flags = HeaderFlags::new().with_qr(1).with_opcode(
            request_header.flags.opcode,
        ).with_aa(0).with_tc(0).with_rd(request_header.flags.rd).with_ra(0).with_rcode(rcode);
        DNSMessage::new(request_header.id, flags, questions, answers)
    }

    /// Decodes a message from the first `size` received bytes: rejects a
    /// datagram shorter than a header, then decodes the header and as many
    /// questions and answers as its counts announce, each record's cursor
    /// starting where the previous one ended.
    pub fn from_buffer(size: usize, buffer: &[u8]) -> (r: Result<DNSMessage, DNSError>)
        requires
            size <= buffer@.len(),
        ensures
            match r {
                Ok(m) => spec_parse_message(size, buffer@) == Ok::<MessageView, DNSError>(m@)
                    && m.header.flags.wf(),
                Err(e) => spec_parse_message(size, buffer@) == Err::<MessageView, DNSError>(e),
            },
    {
        let ghost buf = buffer@;
        let total = buffer.len();
        if size < 12 {
            return Err(DNSError::RequestHeaderSizeError(size));
        }
        let header = Header::from_bytes(buffer);
        let mut questions: Vec<Question> = Vec::new();
        let mut offset: usize = 12;
        let mut i: u16 = 0;
        proof {
            assert(questions_view(questions@) =~= Seq::<QuestionView>::empty());
        }
        while i < header.qdcount
            invariant
                buffer@ == buf,
                buf.len() <= usize::MAX,
                12 <= size <= buf.len(),
                header == spec_header_from_bytes(buf),
                header.flags.wf(),
                i <= header.qdcount,
                offset <= buf.len(),
                spec_parse_questions(buf, 12, header.qdcount as int, Seq::empty())
                    == spec_parse_questions(
                    buf,
                    offset as int,
                    header.qdcount - i,
                    questions_view(questions@),
                ),
            decreases header.qdcount - i,
        {
            let ghost pre_acc = questions_view(questions@);
            let ghost pre_off = offset as int;
            match Question::from_bytes(buffer, offset) {
                Ok((q, consumed)) => {
                    questions.push(q);
                    offset = offset + consumed;
                    proof {
                        assert(questions_view(questions@) =~= pre_acc.push(q@));
                        assert(spec_parse_questions(buf, pre_off, header.qdcount - i, pre_acc)
                            == spec_parse_questions(
                            buf,
                            offset as int,
                            header.qdcount - (i + 1),
                            questions_view(questions@),
                        ));
                    }
                    i = i + 1;
                },
                Err(e) => {
                    proof {
                        assert(spec_parse_questions(buf, pre_off, header.qdcount - i, pre_acc)
                            == Err::<(Seq<QuestionView>, int), DNSError>(e));
                    }
                    return Err(e);
                },
            }
        }
        let mut answers: Vec<Answer> = Vec::new();
        let ghost questions_end = offset as int;
        let mut j: u16 = 0;
        proof {
            assert(answers_view(answers@) =~= Seq::<AnswerView>::empty());
            assert(spec_parse_questions(buf, 12, header.qdcount as int, Seq::empty()) == Ok::<
                _,
                DNSError,
            >((questions_view(questions@), questions_end)));
        }
        while j < header.ancount
            invariant
                buffer@ == buf,
                buf.len() <= usize::MAX,
                12 <= size <= buf.len(),
                header == spec_header_from_bytes(buf),
                header.flags.wf(),
                spec_parse_questions(buf, 12, header.qdcount as int, Seq::empty()) == Ok::<
                    _,
                    DNSError,
                >((questions_view(questions@), questions_end)),
                j <= header.ancount,
                offset <= buf.len(),
                spec_parse_answers(buf, questions_end, header.ancount as int, Seq::empty())
                    == spec_parse_answers(
                    buf,
                    offset as int,
                    header.ancount - j,
                    answers_view(answers@),
                ),
            decreases header.ancount - j,
        {
            let ghost pre_acc = answers_view(answers@);
            let ghost pre_off = offset as int;
            match Answer::from_bytes(buffer, offset) {
                Ok((a, consumed)) => {
                    answers.push(a);
                    offset = offset + consumed;
                    proof {
                        assert(answers_view(answers@) =~= pre_acc.push(a@));
                        assert(spec_parse_answers(buf, pre_off, header.ancount - j, pre_acc)
                            == spec_parse_answers(
                            buf,
                            offset as int,
                            header.ancount - (j + 1),
                            answers_view(answers@),
                        ));
                    }
                    j = j + 1;
                },
                Err(e) => {
                    proof {
                        assert(spec_parse_answers(buf, pre_off, header.ancount - j, pre_acc)
                            == Err::<(Seq<AnswerView>, int), DNSError>(e));
                    }
                    return Err(e);
                },
            }
        }
        let m = DNSMessage { header, questions, answers };
        proof {
            assert(spec_parse_message(size, buf) == Ok::<MessageView, DNSError>(m@)) by {
                assert(spec_parse_questions(buf, 12, header.qdcount as int, Seq::empty())
                    == Ok::<_, DNSError>((questions_view(questions@), questions_end)));
                assert(spec_parse_answers(buf, questions_end, header.ancount as int, Seq::empty())
                    == Ok::<_, DNSError>((answers_view(answers@), offset as int)));
                assert(spec_parse_message(size, buf)->Ok_0 =~= m@);
            }
        }
        Ok(m)
    }

    /// The whole message's wire bytes: header, then each question, then
    /// each answer, in order.
    pub fn to_bytes(&self) -> (r: Vec<u8>)
        ensures
            r@ == spec_message_bytes(self@),
    {
        let mut bytes = self.header.to_bytes();
        let mut i: usize = 0;
        while i < self.questions.len()
            invariant
                i <= self.questions@.len(),
                bytes@ == spec_header_bytes(self.header) + spec_questions_bytes(
                    questions_view(self.questions@.subrange(0, i as int)),
                ),
            decreases self.questions@.len() - i,
        {
            let mut qb = self.questions[i].to_bytes();
            bytes.append(&mut qb);
            proof {
                lemma_questions_bytes_push(
                    questions_view(self.questions@.subrange(0, i as int)),
                    self.questions@[i as int]@,
                );
                assert(questions_view(self.questions@.subrange(0, i + 1)) =~= questions_view(
                    self.questions@.subrange(0, i as int),
                ).push(self.questions@[i as int]@));
                assert(bytes@ =~= spec_header_bytes(self.header) + spec_questions_bytes(
                    questions_view(self.questions@.subrange(0, i + 1)),
                ));
            }
            i = i + 1;
        }
        proof {
            assert(self.questions@.subrange(0, self.questions@.len() as int) =~= self.questions@);
        }
        let ghost after_questions = bytes@;
        let mut j: usize = 0;
        while j < self.answers.len()
            invariant
                j <= self.answers@.len(),
                after_questions == spec_header_bytes(self.header) + spec_questions_bytes(
                    questions_view(self.questions@),
                ),
                bytes@ == after_questions + spec_answers_bytes(
                    answers_view(self.answers@.subrange(0, j as int)),
                ),
            decreases self.answers@.len() - j,
        {
            let mut ab = self.answers[j].to_bytes();
            bytes.append(&mut ab);
            proof {
                lemma_answers_bytes_push(
                    answers_view(self.answers@.subrange(0, j as int)),
                    self.answers@[j as int]@,
                );
                assert(answers_view(self.answers@.subrange(0, j + 1)) =~= answers_view(
                    self.answers@.subrange(0, j as int),
                ).push(self.answers@[j as int]@));
                assert(bytes@ =~= after_questions + spec_answers_bytes(
                    answers_view(self.answers@.subrange(0, j + 1)),
                ));
            }
            j = j + 1;
        }
        proof {
            assert(self.answers@.subrange(0, self.answers@.len() as int) =~= self.answers@);
            assert(bytes@ =~= spec_message_bytes(self@));
        }
        bytes
    }
}

/// A message that encodes and decodes faithfully: well-formed flags,
/// counts that match the record lists, and well-formed labels throughout
/// (with four resource data bytes in every answer, as the codec emits).
pub open spec fn spec_message_wf(m: MessageView) -> bool {
    &&& m.header.flags.wf()
    &&& m.header.qdcount == m.questions.len()
    &&& m.header.ancount == m.answers.len()
    &&& forall|i: int| 0 <= i < m.questions.len() ==> labels_wf((#[trigger] m.questions[i]).labels)
    &&& forall|i: int|
        0 <= i < m.answers.len() ==> labels_wf((#[trigger] m.answers[i]).labels) && m.answers[
            i
        ].data.len() == 4
}

/// A subrange of a subrange, read at its offset in the larger buffer.
proof fn lemma_subrange_at(buf: Seq<u8>, pos: int, whole: Seq<u8>, lo: int, hi: int)
    requires
        0 <= pos,
        pos + whole.len() <= buf.len(),
        buf.subrange(pos, pos + whole.len() as int) == whole,
        0 <= lo <= hi <= whole.len(),
    ensures
        buf.subrange(pos + lo, pos + hi) == whole.subrange(lo, hi),
{
    assert forall|i: int| 0 <= i < hi - lo implies #[trigger] buf.subrange(pos + lo, pos + hi)[i]
        == whole.subrange(lo, hi)[i] by {
        assert(buf.subrange(pos + lo, pos + hi)[i] == buf[pos + lo + i]);
        assert(buf[pos + (lo + i)] == buf.subrange(pos, pos + whole.len() as int)[lo + i]);
        assert(whole.subrange(lo, hi)[i] == whole[lo + i]);
    }
    assert(buf.subrange(pos + lo, pos + hi) =~= whole.subrange(lo, hi));
}

/// Parsing `qs.len()` questions where the buffer holds their encodings in
/// order yields exactly those questions, appended to what was accumulated.
proof fn lemma_parse_questions_encoding(buf: Seq<u8>, pos: int, qs: Seq<QuestionView>, acc: Seq<
    QuestionView,
>)
    requires
        forall|i: int| 0 <= i < qs.len() ==> labels_wf((#[trigger] qs[i]).labels),
        0 <= pos,
        pos + spec_questions_bytes(qs).len() <= buf.len(),
        buf.subrange(pos, pos + spec_questions_bytes(qs).len() as int) == spec_questions_bytes(qs),
    ensures
        spec_parse_questions(buf, pos, qs.len() as int, acc) == Ok::<_, DNSError>(
            (acc + qs, pos + spec_questions_bytes(qs).len()),
        ),
    decreases qs.len(),
{
    if qs.len() == 0 {
        assert(acc + qs =~= acc);
    } else {
        let q = qs[0];
        let rest = qs.drop_first();
        let whole = spec_questions_bytes(qs);
        let qb = spec_question_bytes(q);
        let rb = spec_questions_bytes(rest);
        assert(whole == qb + rb);
        lemma_subrange_at(buf, pos, whole, 0, qb.len() as int);
        assert(whole.subrange(0, qb.len() as int) =~= qb);
        lemma_parse_question_encoding(buf, pos, q);
        lemma_subrange_at(buf, pos, whole, qb.len() as int, whole.len() as int);
        assert(whole.subrange(qb.len() as int, whole.len() as int) =~= rb);
        assert(forall|i: int| 0 <= i < rest.len() ==> labels_wf((#[trigger] rest[i]).labels)) by {
            assert(forall|i: int| 0 <= i < rest.len() ==> #[trigger] rest[i] == qs[i + 1]);
        }
        lemma_parse_questions_encoding(buf, pos + qb.len(), rest, acc.push(q));
        assert(acc.push(q) + rest =~= acc + qs) by {
            assert(qs =~= seq![q] + rest);
        }
    }
}

/// Parsing `ans.len()` answers where the buffer holds their encodings in
/// order yields exactly those answers, appended to what was accumulated.
proof fn lemma_parse_answers_encoding(buf: Seq<u8>, pos: int, ans: Seq<AnswerView>, acc: Seq<
    AnswerView,
>)
    requires
        forall|i: int|
            0 <= i < ans.len() ==> labels_wf((#[trigger] ans[i]).labels) && ans[i].data.len() == 4,
        0 <= pos,
        pos + spec_answers_bytes(ans).len() <= buf.len(),
        buf.subrange(pos, pos + spec_answers_bytes(ans).len() as int) == spec_answers_bytes(ans),
    ensures
        spec_parse_answers(buf, pos, ans.len() as int, acc) == Ok::<_, DNSError>(
            (acc + ans, pos + spec_answers_bytes(ans).len()),
        ),
    decreases ans.len(),
{
    if ans.len() == 0 {
        assert(acc + ans =~= acc);
    } else {
        let a = ans[0];
        let rest = ans.drop_first();
        let whole = spec_answers_bytes(ans);
        let ab = spec_answer_bytes(a);
        let rb = spec_answers_bytes(rest);
        assert(whole == ab + rb);
        lemma_subrange_at(buf, pos, whole, 0, ab.len() as int);
        assert(whole.subrange(0, ab.len() as int) =~= ab);
        lemma_parse_answer_encoding(buf, pos, a);
        lemma_subrange_at(buf, pos, whole, ab.len() as int, whole.len() as int);
        assert(whole.subrange(ab.len() as int, whole.len() as int) =~= rb);
        assert(forall|i: int|
            0 <= i < rest.len() ==> labels_wf((#[trigger] rest[i]).labels) && rest[i].data.len()
                == 4) by {
            assert(forall|i: int| 0 <= i < rest.len() ==> #[trigger] rest[i] == ans[i + 1]);
        }
        lemma_parse_answers_encoding(buf, pos + ab.len(), rest, acc.push(a));
        assert(acc.push(a) + rest =~= acc + ans) by {
            assert(ans =~= seq![a] + rest);
        }
    }
}

/// Round trip: decoding the encoding of any well-formed message gives the
/// message back — flags bit-packing, the record counts, and every label
/// included.
pub proof fn lemma_message_round_trip(m: MessageView, size: usize)
    requires
        spec_message_wf(m),
        size as int == spec_message_bytes(m).len(),
    ensures
        spec_parse_message(size, spec_message_bytes(m)) == Ok::<MessageView, DNSError>(m),
{
    let buf = spec_message_bytes(m);
    let hb = spec_header_bytes(m.header);
    let qb = spec_questions_bytes(m.questions);
    let ab = spec_answers_bytes(m.answers);
    assert(buf == (hb + qb) + ab);
    assert(hb.len() == 12);
    assert(size >= 12);
    assert(buf.subrange(0, buf.len() as int) =~= buf);
    lemma_subrange_at(buf, 0, buf, 0, 12);
    assert(buf.subrange(0, 12) =~= hb) by {
        assert(forall|i: int| 0 <= i < 12 ==> #[trigger] buf.subrange(0, 12)[i] == buf[0 + i]);
        assert(forall|i: int| 0 <= i < 12 ==> #[trigger] buf[i] == ((hb + qb) + ab)[i]);
        assert(forall|i: int| 0 <= i < 12 ==> #[trigger] ((hb + qb) + ab)[i] == hb[i]);
    }
    lemma_header_round_trip(m.header, buf);
    assert(spec_header_from_bytes(buf) == m.header);
    lemma_subrange_at(buf, 0, buf, 12, 12 + qb.len() as int);
    assert(buf.subrange(12, 12 + qb.len() as int) =~= qb) by {
        assert(forall|i: int|
            0 <= i < qb.len() ==> #[trigger] buf.subrange(0, buf.len() as int)[12 + i] == buf[12
                + i]);
        assert(forall|i: int| 0 <= i < qb.len() ==> #[trigger] buf[12 + i] == ((hb + qb) + ab)[12
            + i]);
        assert(forall|i: int| 0 <= i < qb.len() ==> #[trigger] ((hb + qb) + ab)[12 + i] == qb[i]);
        assert(forall|i: int|
            0 <= i < qb.len() ==> #[trigger] buf.subrange(12, 12 + qb.len() as int)[i] == buf[12
                + i]);
    }
    lemma_parse_questions_encoding(buf, 12, m.questions, Seq::empty());
    assert(Seq::empty() + m.questions =~= m.questions);
    let qend = 12 + qb.len() as int;
    assert(buf.subrange(qend, qend + ab.len() as int) =~= ab) by {
        assert(forall|i: int|
            0 <= i < ab.len() ==> #[trigger] buf.subrange(qend, qend + ab.len() as int)[i]
                == buf[qend + i]);
        assert(forall|i: int| 0 <= i < ab.len() ==> #[trigger] buf[qend + i] == ((hb + qb) + ab)[
            qend + i]);
        assert(forall|i: int|
            0 <= i < ab.len() ==> #[trigger] ((hb + qb) + ab)[qend + i] == ab[i]);
    }
    lemma_parse_answers_encoding(buf, qend, m.answers, Seq::empty());
    assert(Seq::empty() + m.answers =~= m.answers);
    assert(spec_parse_message(size, buf)->Ok_0 =~= m);
}

/// Appending a question appends its wire bytes.
pub proof fn lemma_questions_bytes_push(qs: Seq<QuestionView>, q: QuestionView)
    ensures
        spec_questions_bytes(qs.push(q)) == spec_questions_bytes(qs) + spec_question_bytes(q),
    decreases qs.len(),
{
    if qs.len() == 0 {
        assert(qs.push(q)[0] == q);
        assert(qs.push(q).drop_first() =~= Seq::<QuestionView>::empty());
        assert(spec_questions_bytes(Seq::<QuestionView>::empty()) == Seq::<u8>::empty());
        assert(spec_questions_bytes(qs.push(q)) =~= spec_questions_bytes(qs) + spec_question_bytes(
            q,
        ));
    } else {
        assert(qs.push(q)[0] == qs[0]);
        assert(qs.push(q).drop_first() =~= qs.drop_first().push(q));
        lemma_questions_bytes_push(qs.drop_first(), q);
        assert(spec_question_bytes(qs[0]) + (spec_questions_bytes(qs.drop_first())
            + spec_question_bytes(q)) =~= (spec_question_bytes(qs[0]) + spec_questions_bytes(
            qs.drop_first(),
        )) + spec_question_bytes(q));
    }
}

/// Appending an answer appends its wire bytes.
pub proof fn lemma_answers_bytes_push(ans: Seq<AnswerView>, a: AnswerView)
    ensures
        spec_answers_bytes(ans.push(a)) == spec_answers_bytes(ans) + spec_answer_bytes(a),
    decreases ans.len(),
{
    if ans.len() == 0 {
        assert(ans.push(a)[0] == a);
        assert(ans.push(a).drop_first() =~= Seq::<AnswerView>::empty());
        assert(spec_answers_bytes(Seq::<AnswerView>::empty()) == Seq::<u8>::empty());
        assert(spec_answers_bytes(ans.push(a)) =~= spec_answers_bytes(ans) + spec_answer_bytes(a));
    } else {
        assert(ans.push(a)[0] == ans[0]);
        assert(ans.push(a).drop_first() =~= ans.drop_first().push(a));
        lemma_answers_bytes_push(ans.drop_first(), a);
        assert(spec_answer_bytes(ans[0]) + (spec_answers_bytes(ans.drop_first())
            + spec_answer_bytes(a)) =~= (spec_answer_bytes(ans[0]) + spec_answers_bytes(
            ans.drop_first(),
        )) + spec_answer_bytes(a));
    }
}

} // verus!
