//! One question record: a domain name as labels, a query type and a query
//! class, with its wire codec.

use crate::dns_error::DNSError;
use crate::labels_helpers::{
    labels_from_bytes, labels_from_string, labels_to_bytes, labels_view, labels_wf,
    lemma_labels_size_is_bytes_len, lemma_parse_labels_encoding, spec_join_labels,
    spec_labels_bytes, spec_labels_from_bytes, spec_labels_of_domain, Labels,
};
use crate::wire::{
    lemma_u16_be_round_trip, push_u16_be, spec_u16_be, spec_u16_be_bytes, u16_from_be_at,
};
use vstd::prelude::*;
use vstd::string::*;

verus! {

/// A question record: the queried domain as a label sequence, the query
/// type and the query class.
#[derive(Debug, PartialEq)]
pub struct Question {
    pub labels: Labels,
    pub question_type: u16,
    pub class: u16,
}

/// The mathematical value of a question record.
#[verifier::ext_equal]
pub ghost struct QuestionView {
    pub labels: Seq<(u8, Seq<char>)>,
    pub question_type: u16,
    pub class: u16,
}

impl View for Question {
    type V = QuestionView;

    open spec fn view(&self) -> QuestionView {
        QuestionView {
            labels: labels_view(self.labels@),
            question_type: self.question_type,
            class: self.class,
        }
    }
}

impl Clone for Question {
    /// A clone carries the same mathematical value.
    fn clone(&self) -> (r: Self)
        ensures
            r@ == self@,
    {
        let mut labels: Labels = Vec::new();
        let mut i: usize = 0;
        while i < self.labels.len()
            invariant
                i <= self.labels@.len(),
                labels@ == self.labels@.subrange(0, i as int),
            decreases self.labels@.len() - i,
        {
            labels.push((self.labels[i].0, self.labels[i].1.clone()));
            proof {
                assert(labels@ =~= self.labels@.subrange(0, i + 1));
            }
            i = i + 1;
        }
        proof {
            assert(self.labels@.subrange(0, self.labels@.len() as int) =~= self.labels@);
        }
        Question { labels, question_type: self.question_type, class: self.class }
    }
}

/// The wire bytes of a question: its labels, the terminating zero byte,
/// then type and class, big-endian.
pub open spec fn spec_question_bytes(q: QuestionView) -> Seq<u8> {
    spec_labels_bytes(q.labels) + seq![0u8] + spec_u16_be_bytes(q.question_type)
        + spec_u16_be_bytes(q.class)
}

/// What decoding a question at `pos` of `buf` yields: the record and the
/// bytes it occupies at `pos`, or the first error met: the label error, or
/// `QuestionSizeError` when fewer than 4 bytes follow the labels.
pub open spec fn spec_parse_question(buf: Seq<u8>, pos: int) -> Result<(QuestionView, int), DNSError> {
    match spec_labels_from_bytes(buf, pos) {
        Err(e) => Err(e),
        Ok((ls, n)) => if buf.len() - (pos + n) < 4 {
            Err(DNSError::QuestionSizeError)
        } else {
            Ok(
                (
                    QuestionView {
                        labels: ls,
                        question_type: spec_u16_be(buf[pos + n], buf[pos + n + 1]),
                        class: spec_u16_be(buf[pos + n + 2], buf[pos + n + 3]),
                    },
                    n + 4,
                ),
            )
        },
    }
}

impl Question {
    /// A fresh question for `domain`, its labels split on the dots.
    pub fn new(domain: String, question_type: u16, class: u16) -> (r: Question)
        ensures
            r@.labels == spec_labels_of_domain(domain@),
            r@.question_type == question_type,
            r@.class == class,
            r.labels@.len() >= 1,
    {
        Question { labels: labels_from_string(domain), question_type, class }
    }

    /// The record's wire bytes.
    pub fn to_bytes(&self) -> (r: Vec<u8>)
        ensures
            r@ == spec_question_bytes(self@),
    {
        let mut question = labels_to_bytes(self.labels.as_slice());
        question.push(0);
        push_u16_be(&mut question, self.question_type);
        push_u16_be(&mut question, self.class);
        proof {
            assert(question@ =~= spec_question_bytes(self@));
        }
        question
    }

    /// Decodes the question at `offset`, returning it with the number of
    /// bytes it occupies there, so the caller can advance its cursor.
    pub fn from_bytes(buffer: &[u8], offset: usize) -> (r: Result<(Question, usize), DNSError>)
        ensures
            match r {
                Ok((q, consumed)) => {
                    &&& spec_parse_question(buffer@, offset as int) == Ok::<_, DNSError>(
                        (q@, consumed as int),
                    )
                    &&& offset + consumed <= buffer@.len()
                    &&& consumed >= 6
                    &&& q.labels@.len() >= 1
                },
                Err(e) => spec_parse_question(buffer@, offset as int) == Err::<
                    (QuestionView, int),
                    _,
                >(e),
            },
    {
        let total = buffer.len();
        let (labels, size) = match labels_from_bytes(buffer, offset) {
            Ok(p) => p,
            Err(e) => {
                return Err(e);
            },
        };
        let after = offset + size;
        if buffer.len() - after < 4 {
            return Err(DNSError::QuestionSizeError);
        }
        let question_type = u16_from_be_at(buffer, after);
        let class = u16_from_be_at(buffer, after + 2);
        Ok((Question { labels, question_type, class }, size + 4))
    }

    /// The dotted domain name the labels spell.  The length bytes play no
    /// part: only the texts are joined.
    pub fn get_domain(&self) -> (r: String)
        requires
            self.labels@.len() >= 1,
        ensures
            r@ == spec_join_labels(self@.labels),
    {
        let mut domain = String::new();
        let mut i: usize = 0;
        proof {
            assert(spec_join_labels(labels_view(self.labels@.subrange(0, 1))) == labels_view(
                self.labels@.subrange(0, 1),
            )[0].1);
        }
        while i < self.labels.len()
            invariant
                self.labels@.len() >= 1,
                i <= self.labels@.len(),
                i > 0 ==> domain@ == spec_join_labels(labels_view(self.labels@.subrange(0, i as int))),
                i == 0 ==> domain@ == Seq::<char>::empty(),
            decreases self.labels@.len() - i,
        {
            if i > 0 {
                domain.append(".");
                proof {
                    reveal_strlit(".");
                    assert("."@ =~= seq!['.']);
                }
            }
            domain.append(self.labels[i].1.as_str());
            proof {
                let prev = labels_view(self.labels@.subrange(0, i as int));
                let cur = labels_view(self.labels@.subrange(0, i + 1));
                assert(cur =~= prev.push(crate::labels_helpers::label_view(
                    self.labels@[i as int],
                )));
                if i > 0 {
                    lemma_join_labels_push(prev, crate::labels_helpers::label_view(
                        self.labels@[i as int],
                    ));
                } else {
                    assert(cur.len() == 1);
                    assert(spec_join_labels(cur) == cur[0].1);
                }
            }
            i = i + 1;
        }
        proof {
            assert(self.labels@.subrange(0, self.labels@.len() as int) =~= self.labels@);
        }
        domain
    }
}

/// Joining one more label appends a dot and its text.
pub proof fn lemma_join_labels_push(ls: Seq<(u8, Seq<char>)>, l: (u8, Seq<char>))
    requires
        ls.len() >= 1,
    ensures
        spec_join_labels(ls.push(l)) == spec_join_labels(ls) + seq!['.'] + l.1,
    decreases ls.len(),
{
    if ls.len() == 1 {
        assert(ls.push(l)[0] == ls[0]);
        assert(ls.push(l).drop_first() =~= seq![l]);
        assert(spec_join_labels(seq![l]) == l.1);
    } else {
        assert(ls.push(l)[0] == ls[0]);
        assert(ls.push(l).drop_first() =~= ls.drop_first().push(l));
        lemma_join_labels_push(ls.drop_first(), l);
        assert(ls[0].1 + seq!['.'] + (spec_join_labels(ls.drop_first()) + seq!['.'] + l.1) =~= (
        ls[0].1 + seq!['.'] + spec_join_labels(ls.drop_first())) + seq!['.'] + l.1);
    }
}

/// Decoding the encoded bytes of a question with well-formed labels,
/// wherever they sit in a larger buffer, gives the question back.
pub proof fn lemma_parse_question_encoding(buf: Seq<u8>, pos: int, q: QuestionView)
    requires
        labels_wf(q.labels),
        0 <= pos,
        pos + spec_question_bytes(q).len() <= buf.len(),
        buf.subrange(pos, pos + spec_question_bytes(q).len() as int) == spec_question_bytes(q),
    ensures
        spec_parse_question(buf, pos) == Ok::<_, DNSError>(
            (q, spec_question_bytes(q).len() as int),
        ),
{
    let enc = spec_labels_bytes(q.labels);
    let qb = spec_question_bytes(q);
    let n = enc.len() + 1 as int;
    assert(qb.len() == n + 4);
    assert(forall|i: int| 0 <= i < qb.len() ==> buf[pos + i] == #[trigger] qb[i]) by {
        assert(forall|i: int|
            0 <= i < qb.len() ==> #[trigger] buf.subrange(pos, pos + qb.len() as int)[i] == buf[pos
                + i]);
    }
    assert(buf.subrange(pos, pos + n) =~= enc + seq![0u8]) by {
        assert(forall|i: int|
            0 <= i < n ==> #[trigger] buf.subrange(pos, pos + n)[i] == buf[pos + i]);
        assert(forall|i: int| 0 <= i < n ==> (enc + seq![0u8])[i] == #[trigger] qb[i]);
    }
    lemma_parse_labels_encoding(buf, pos, q.labels, buf.len() as nat, true, 0, Seq::empty());
    assert(Seq::empty() + q.labels =~= q.labels);
    assert(spec_labels_from_bytes(buf, pos) == Ok::<_, DNSError>((q.labels, n)));
    let tb = spec_u16_be_bytes(q.question_type);
    let cb = spec_u16_be_bytes(q.class);
    assert(buf[pos + n] == tb[0] && buf[pos + n + 1] == tb[1]) by {
        assert(qb[n] == tb[0] && qb[n + 1] == tb[1]);
    }
    assert(buf[pos + n + 2] == cb[0] && buf[pos + n + 3] == cb[1]) by {
        assert(qb[n + 2] == cb[0] && qb[n + 3] == cb[1]);
    }
    lemma_u16_be_round_trip(q.question_type);
    lemma_u16_be_round_trip(q.class);
    let parsed = QuestionView {
        labels: q.labels,
        question_type: spec_u16_be(buf[pos + n], buf[pos + n + 1]),
        class: spec_u16_be(buf[pos + n + 2], buf[pos + n + 3]),
    };
    assert(parsed =~= q);
}

} // verus!
