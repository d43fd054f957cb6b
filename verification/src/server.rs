//! The forwarding resolver's decisions, free of any socket: how the
//! single-question upstream request for each client question is built,
//! what is taken from each upstream reply, and how the collected record
//! pairs become the final response.  The loop that actually sends and
//! receives datagrams lives outside this crate and only shuttles byte
//! buffers between these functions and the network.

use crate::dns_message::answer::{Answer, AnswerView};
use crate::dns_message::header::{Header, HeaderFlags};
use crate::dns_message::question::{Question, QuestionView};
use crate::dns_message::{answers_view, questions_view, DNSMessage, MessageView};
use vstd::prelude::*;

verus! {

pub open spec fn messages_view(ms: Seq<DNSMessage>) -> Seq<MessageView> {
    ms.map(|i: int, m: DNSMessage| m@)
}

/// Whether an upstream reply contributes to the final response: it must
/// carry at least one question and at least one answer.
pub open spec fn spec_reply_usable(m: MessageView) -> bool {
    m.questions.len() > 0 && m.answers.len() > 0
}

/// The questions the final response echoes: the last question of each
/// usable reply, in reply order.  A reply without a question or without
/// an answer contributes nothing.
pub open spec fn spec_collected_questions(rs: Seq<MessageView>) -> Seq<QuestionView>
    decreases rs.len(),
{
    if rs.len() == 0 {
        Seq::empty()
    } else {
        let rest = spec_collected_questions(rs.drop_first());
        if spec_reply_usable(rs[0]) {
            seq![rs[0].questions.last()] + rest
        } else {
            rest
        }
    }
}

/// The answers the final response carries: the last answer of each usable
/// reply, in reply order.
pub open spec fn spec_collected_answers(rs: Seq<MessageView>) -> Seq<AnswerView>
    decreases rs.len(),
{
    if rs.len() == 0 {
        Seq::empty()
    } else {
        let rest = spec_collected_answers(rs.drop_first());
        if spec_reply_usable(rs[0]) {
            seq![rs[0].answers.last()] + rest
        } else {
            rest
        }
    }
}

/// The single-question upstream request for one question of the client's
/// request: the client's id, opcode, recursion-desired bit and response
/// code, the response bit cleared, and exactly that question.
pub fn build_follow_request(request: &DNSMessage, question: &Question) -> (r: DNSMessage)
    requires
        request.header.flags.wf(),
    ensures
        r.header == (Header {
            id: request.header.id,
            flags: HeaderFlags {
                rd: request.header.flags.rd,
                tc: 0,
                aa: 0,
                opcode: request.header.flags.opcode,
                qr: 0,
                rcode: request.header.flags.rcode,
                reserved: 0,
                ra: 0,
            },
            qdcount: 1,
            ancount: 0,
            nscount: 0,
            arcount: 0,
        }),
        r@.questions == seq![question@],
        r@.answers == Seq::<AnswerView>::empty(),
        r.header.flags.wf(),
{
    let mut follow_request = DNSMessage::from_request_header(request, 1, 0);
    follow_request.questions.push(question.clone());
    proof {
        assert(questions_view(follow_request.questions@) =~= seq![question@]);
        assert(answers_view(follow_request.answers@) =~= Seq::<AnswerView>::empty());
    }
    follow_request
}

/// What one upstream reply contributes: exactly the last question and the
/// last answer, and only when the reply holds at least one of each;
/// otherwise nothing, and that round-trip is silently dropped.
pub fn extract_follow_answer(reply: DNSMessage) -> (r: Option<(Question, Answer)>)
    ensures
        r is Some <==> spec_reply_usable(reply@),
        r matches Some((q, a)) ==> q@ == reply@.questions.last() && a@ == reply@.answers.last(),
{
    let mut rest = reply;
    let ghost qs = rest.questions@;
    let ghost ans = rest.answers@;
    match rest.questions.pop() {
        Some(question) => {
            match rest.answers.pop() {
                Some(answer) => {
                    proof {
                        assert(question@ == questions_view(qs).last());
                        assert(answer@ == answers_view(ans).last());
                    }
                    Some((question, answer))
                },
                None => None,
            }
        },
        None => None,
    }
}

/// The final response for a client request, given the decoded upstream
/// replies, one per question of the request and in the same order: each
/// usable reply hands over its last question and last answer; a reply
/// without a question or without an answer — an unanswered question —
/// contributes neither a question nor an answer.  The header is derived
/// from the client request's as `new_response` does, the counts being the
/// number of usable replies.
pub fn assemble_response(request: &DNSMessage, replies: Vec<DNSMessage>) -> (r: DNSMessage)
    requires
        request.header.flags.wf(),
        replies@.len() <= 0xFFFF,
    ensures
        r@.questions == spec_collected_questions(messages_view(replies@)),
        r@.answers == spec_collected_answers(messages_view(replies@)),
        r@.questions.len() == r@.answers.len(),
        r.header == (Header {
            id: request.header.id,
            flags: HeaderFlags {
                rd: request.header.flags.rd,
                tc: 0,
                aa: 0,
                opcode: request.header.flags.opcode,
                qr: 1,
                rcode: if request.header.flags.opcode == 0 {
                    0
                } else {
                    4
                },
                reserved: 0,
                ra: 0,
            },
            qdcount: r@.questions.len() as u16,
            ancount: r@.answers.len() as u16,
            nscount: 0,
            arcount: 0,
        }),
        r.header.flags.wf(),
{
    let ghost orig = messages_view(replies@);
    let mut replies = replies;
    let mut questions: Vec<Question> = Vec::new();
    let mut answers: Vec<Answer> = Vec::new();
    proof {
        assert(questions_view(questions@) =~= Seq::<QuestionView>::empty());
        assert(answers_view(answers@) =~= Seq::<AnswerView>::empty());
        assert(messages_view(replies@) =~= orig);
    }
    while replies.len() > 0
        invariant
            questions@.len() <= orig.len() - messages_view(replies@).len(),
            questions@.len() == answers@.len(),
            orig.len() <= 0xFFFF,
            spec_collected_questions(orig) == questions_view(questions@)
                + spec_collected_questions(messages_view(replies@)),
            spec_collected_answers(orig) == answers_view(answers@) + spec_collected_answers(
                messages_view(replies@),
            ),
        decreases replies@.len(),
    {
        let ghost pre = messages_view(replies@);
        let reply = replies.remove(0);
        proof {
            assert(messages_view(replies@) =~= pre.drop_first());
            assert(reply@ == pre[0]);
        }
        match extract_follow_answer(reply) {
            Some((question, answer)) => {
                let ghost qacc = questions_view(questions@);
                let ghost aacc = answers_view(answers@);
                questions.push(question);
                answers.push(answer);
                proof {
                    assert(questions_view(questions@) =~= qacc.push(question@));
                    assert(answers_view(answers@) =~= aacc.push(answer@));
                    assert(spec_collected_questions(pre) =~= seq![pre[0].questions.last()]
                        + spec_collected_questions(pre.drop_first()));
                    assert(qacc + spec_collected_questions(pre) =~= qacc.push(question@)
                        + spec_collected_questions(pre.drop_first()));
                    assert(spec_collected_answers(pre) =~= seq![pre[0].answers.last()]
                        + spec_collected_answers(pre.drop_first()));
                    assert(aacc + spec_collected_answers(pre) =~= aacc.push(answer@)
                        + spec_collected_answers(pre.drop_first()));
                }
            },
            None => {
                proof {
                    assert(spec_collected_questions(pre) == spec_collected_questions(
                        pre.drop_first(),
                    ));
                    assert(spec_collected_answers(pre) == spec_collected_answers(
                        pre.drop_first(),
                    ));
                }
            },
        }
    }
    proof {
        assert(messages_view(replies@) =~= Seq::<MessageView>::empty());
        assert(spec_collected_questions(Seq::<MessageView>::empty()) == Seq::<
            QuestionView,
        >::empty());
        assert(spec_collected_answers(Seq::<MessageView>::empty()) == Seq::<AnswerView>::empty());
        assert(spec_collected_questions(orig) =~= questions_view(questions@));
        assert(spec_collected_answers(orig) =~= answers_view(answers@));
    }
    DNSMessage::new_response(&request.header, questions, answers)
}

/// An unanswered question leaves no trace: a reply without a question or
/// without an answer can be struck from the reply list without changing
/// what the response carries.
pub proof fn lemma_dropped_question(rs: Seq<MessageView>, i: int)
    requires
        0 <= i < rs.len(),
        !spec_reply_usable(rs[i]),
    ensures
        spec_collected_questions(rs) == spec_collected_questions(rs.remove(i)),
        spec_collected_answers(rs) == spec_collected_answers(rs.remove(i)),
    decreases rs.len(),
{
    if i == 0 {
        assert(rs.remove(0) =~= rs.drop_first());
    } else {
        assert(rs.remove(i).drop_first() =~= rs.drop_first().remove(i - 1));
        assert(rs.remove(i)[0] == rs[0]);
        lemma_dropped_question(rs.drop_first(), i - 1);
    }
}

} // verus!

