use dns_forwarder::dns_message::answer::Answer;
use dns_forwarder::dns_message::header::HeaderFlags;
use dns_forwarder::dns_message::question::Question;
use dns_forwarder::dns_message::DNSMessage;
use dns_forwarder::server::{assemble_response, build_follow_request, extract_follow_answer};

#[test]
fn response_to_standard_query_sets_qr_and_keeps_opcode() {
    let flags = HeaderFlags::new().with_opcode(0).with_rd(1);
    let request = DNSMessage::new(0x1234, flags, vec![], vec![]);
    let response = DNSMessage::new_response(&request.header, vec![], vec![]);
    assert_eq!(response.header.flags.qr, 1);
    assert_eq!(response.header.flags.opcode, 0);
    assert_eq!(response.header.flags.rcode, 0);
    assert_eq!(response.header.flags.rd, 1);
    assert_eq!(response.header.id, 0x1234);
}

#[test]
fn response_to_nonstandard_opcode_reports_not_implemented() {
    let flags = HeaderFlags::new().with_opcode(5);
    let request = DNSMessage::new(9, flags, vec![], vec![]);
    let response = DNSMessage::new_response(&request.header, vec![], vec![]);
    assert_eq!(response.header.flags.qr, 1);
    assert_eq!(response.header.flags.opcode, 5);
    assert_eq!(response.header.flags.rcode, 4);
}

#[test]
fn follow_request_carries_one_question_and_cleared_response_bit() {
    let flags = HeaderFlags::new().with_qr(1).with_rd(1);
    let question = Question::new("codecrafters.io".to_string(), 1, 1);
    let request = DNSMessage::new(0x1234, flags, vec![question.clone()], vec![]);
    let follow = build_follow_request(&request, &request.questions[0]);
    assert_eq!(follow.header.id, 0x1234);
    assert_eq!(follow.header.flags.qr, 0);
    assert_eq!(follow.header.flags.rd, 1);
    assert_eq!(follow.header.qdcount, 1);
    assert_eq!(follow.header.ancount, 0);
    assert_eq!(follow.questions, vec![question]);
    assert_eq!(follow.answers, vec![]);
}

#[test]
fn extract_takes_the_last_question_and_answer() {
    let reply = DNSMessage::new(
        1,
        HeaderFlags::new(),
        vec![
            Question::new("a.b".to_string(), 1, 1),
            Question::new("c.d".to_string(), 1, 1),
        ],
        vec![
            Answer::new("a.b".to_string(), 1, 1, 60, [1, 1, 1, 1]),
            Answer::new("c.d".to_string(), 1, 1, 60, [2, 2, 2, 2]),
        ],
    );
    let (question, answer) = extract_follow_answer(reply).unwrap();
    assert_eq!(question, Question::new("c.d".to_string(), 1, 1));
    assert_eq!(answer, Answer::new("c.d".to_string(), 1, 1, 60, [2, 2, 2, 2]));
}

#[test]
fn extract_yields_nothing_without_an_answer() {
    let reply = DNSMessage::new(
        1,
        HeaderFlags::new(),
        vec![Question::new("a.b".to_string(), 1, 1)],
        vec![],
    );
    assert_eq!(extract_follow_answer(reply), None);
}

#[test]
fn extract_yields_nothing_without_a_question() {
    let reply = DNSMessage::new(
        1,
        HeaderFlags::new(),
        vec![],
        vec![Answer::new("a.b".to_string(), 1, 1, 60, [1, 1, 1, 1])],
    );
    assert_eq!(extract_follow_answer(reply), None);
}

#[test]
fn end_to_end_forwarding_round_trip() {
    // the client's request: id 0x1234, one A IN question for codecrafters.io
    let flags = HeaderFlags::new().with_rd(1);
    let question = Question::new("codecrafters.io".to_string(), 1, 1);
    let request_bytes =
        DNSMessage::new(0x1234, flags, vec![question.clone()], vec![]).to_bytes();
    let request = DNSMessage::from_buffer(request_bytes.len(), &request_bytes).unwrap();

    // the server forwards each question alone to the stub upstream
    let follow = build_follow_request(&request, &request.questions[0]);
    let follow_bytes = follow.to_bytes();
    let upstream_sees = DNSMessage::from_buffer(follow_bytes.len(), &follow_bytes).unwrap();
    assert_eq!(upstream_sees.header.id, 0x1234);
    assert_eq!(upstream_sees.questions, vec![question.clone()]);

    // the stub upstream answers with TTL 60 and 8.8.8.8
    let upstream_reply = DNSMessage::new_response(
        &upstream_sees.header,
        upstream_sees.questions,
        vec![Answer::new(
            "codecrafters.io".to_string(),
            1,
            1,
            60,
            [8, 8, 8, 8],
        )],
    );
    let reply_bytes = upstream_reply.to_bytes();
    let reply = DNSMessage::from_buffer(reply_bytes.len(), &reply_bytes).unwrap();

    // the server stitches the collected answers into the final response
    let response = assemble_response(&request, vec![reply]);
    let response_bytes = response.to_bytes();
    let decoded = DNSMessage::from_buffer(response_bytes.len(), &response_bytes).unwrap();
    assert_eq!(decoded.header.id, 0x1234);
    assert_eq!(decoded.header.flags.qr, 1);
    assert_eq!(decoded.header.ancount, 1);
    assert_eq!(decoded.answers[0].data, [8, 8, 8, 8]);
    assert_eq!(decoded.answers[0].ttl, 60);
    assert_eq!(decoded.questions, vec![question]);
}

#[test]
fn unanswered_question_is_dropped_from_the_response() {
    let flags = HeaderFlags::new().with_rd(1);
    let answered = Question::new("a.b".to_string(), 1, 1);
    let unanswered = Question::new("c.d".to_string(), 1, 1);
    let request = DNSMessage::new(
        7,
        flags,
        vec![answered.clone(), unanswered.clone()],
        vec![],
    );

    // the upstream's reply for the second question omits the answer
    let good_reply = DNSMessage::new(
        7,
        HeaderFlags::new(),
        vec![answered.clone()],
        vec![Answer::new("a.b".to_string(), 1, 1, 60, [1, 2, 3, 4])],
    );
    let empty_reply = DNSMessage::new(7, HeaderFlags::new(), vec![unanswered], vec![]);

    let response = assemble_response(&request, vec![good_reply, empty_reply]);
    assert_eq!(response.header.qdcount, 1);
    assert_eq!(response.header.ancount, 1);
    assert_eq!(response.questions, vec![answered]);
    assert_eq!(
        response.answers,
        vec![Answer::new("a.b".to_string(), 1, 1, 60, [1, 2, 3, 4])]
    );
}

#[test]
fn response_counts_match_collected_records() {
    let request = DNSMessage::new(3, HeaderFlags::new(), vec![], vec![]);
    let response = assemble_response(&request, vec![]);
    assert_eq!(response.header.qdcount, 0);
    assert_eq!(response.header.ancount, 0);
    assert_eq!(response.questions, vec![]);
    assert_eq!(response.answers, vec![]);
    assert_eq!(response.to_bytes().len(), 12);
}
