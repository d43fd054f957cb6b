use dns_forwarder::dns_error::DNSError;
use dns_forwarder::dns_message::answer::Answer;
use dns_forwarder::dns_message::header::{Header, HeaderFlags};
use dns_forwarder::dns_message::question::Question;
use dns_forwarder::dns_message::DNSMessage;
use dns_forwarder::labels_helpers::{
    get_labels_size, labels_from_bytes, labels_from_string, labels_to_bytes,
};

fn label(len: u8, text: &str) -> (u8, String) {
    (len, text.to_string())
}

#[test]
fn labels_from_string_splits_on_dots() {
    let labels = labels_from_string("a.b.c".to_string());
    assert_eq!(labels, vec![label(1, "a"), label(1, "b"), label(1, "c")]);
}

#[test]
fn labels_from_string_keeps_longer_segments() {
    let labels = labels_from_string("codecrafters.io".to_string());
    assert_eq!(labels, vec![label(12, "codecrafters"), label(2, "io")]);
}

#[test]
fn labels_from_string_of_empty_string_is_one_empty_label() {
    assert_eq!(labels_from_string(String::new()), vec![label(0, "")]);
}

#[test]
fn get_domain_joins_the_reverse_path() {
    let question = Question::new("a.b.c".to_string(), 1, 1);
    assert_eq!(question.get_domain(), "a.b.c");
    let question = Question::new("codecrafters.io".to_string(), 1, 1);
    assert_eq!(question.get_domain(), "codecrafters.io");
}

#[test]
fn labels_to_bytes_emits_length_then_text() {
    let labels = vec![label(1, "a"), label(2, "bc")];
    assert_eq!(labels_to_bytes(&labels), vec![1, b'a', 2, b'b', b'c']);
}

#[test]
fn get_labels_size_counts_lengths_and_terminator() {
    let labels = vec![label(1, "a"), label(2, "bc")];
    // one length byte per label plus its announced length, plus the terminator
    assert_eq!(get_labels_size(&labels), 1 + 1 + 1 + 2 + 1);
}

#[test]
fn labels_decode_simple_sequence() {
    let buffer = [1, b'a', 2, b'b', b'c', 0];
    let (labels, consumed) = labels_from_bytes(&buffer, 0).unwrap();
    assert_eq!(labels, vec![label(1, "a"), label(2, "bc")]);
    assert_eq!(consumed, 6);
}

#[test]
fn labels_decode_at_offset() {
    let buffer = [9, 9, 1, b'x', 0];
    let (labels, consumed) = labels_from_bytes(&buffer, 2).unwrap();
    assert_eq!(labels, vec![label(1, "x")]);
    assert_eq!(consumed, 3);
}

#[test]
fn labels_decode_through_compression_pointer() {
    // an "a.bc" sequence at offset 0, and at offset 6 a pointer back to it
    let buffer = [1, b'a', 2, b'b', b'c', 0, 0xC0, 0x00];
    let (direct, direct_size) = labels_from_bytes(&buffer, 0).unwrap();
    let (via_pointer, pointer_size) = labels_from_bytes(&buffer, 6).unwrap();
    assert_eq!(via_pointer, direct);
    assert_eq!(direct_size, 6);
    // only the pointer's own two bytes count at the pointer's position
    assert_eq!(pointer_size, 2);
}

#[test]
fn labels_decode_pointer_after_literal_label() {
    // "x" then a pointer to the "bc" label of the earlier sequence
    let buffer = [1, b'a', 2, b'b', b'c', 0, 1, b'x', 0xC0, 0x02];
    let (labels, consumed) = labels_from_bytes(&buffer, 6).unwrap();
    assert_eq!(labels, vec![label(1, "x"), label(2, "bc")]);
    // the literal label's two bytes and the pointer's two
    assert_eq!(consumed, 4);
}

#[test]
fn labels_decode_fails_on_empty_buffer() {
    let buffer = [1, b'a', 0];
    assert_eq!(labels_from_bytes(&buffer, 3), Err(DNSError::LabelParsingError));
}

#[test]
fn labels_decode_fails_on_truncated_text() {
    let buffer = [3, b'a', b'b'];
    assert_eq!(labels_from_bytes(&buffer, 0), Err(DNSError::LabelParsingError));
}

#[test]
fn labels_decode_fails_on_missing_terminator() {
    let buffer = [1, b'a'];
    assert_eq!(labels_from_bytes(&buffer, 0), Err(DNSError::LabelParsingError));
}

#[test]
fn labels_decode_fails_on_truncated_pointer() {
    let buffer = [0xC0];
    assert_eq!(labels_from_bytes(&buffer, 0), Err(DNSError::LabelParsingError));
}

#[test]
fn labels_decode_fails_on_pointer_loop() {
    // two pointers pointing at each other can only loop; the decoder
    // reports a parse error instead of spinning forever
    let buffer = [0xC0, 0x02, 0xC0, 0x00];
    assert_eq!(labels_from_bytes(&buffer, 0), Err(DNSError::LabelParsingError));
}

#[test]
fn flags_pack_into_documented_bit_positions() {
    let flags = HeaderFlags::new()
        .with_qr(1)
        .with_opcode(5)
        .with_rd(1)
        .with_rcode(4);
    let header = Header::new(0x1234, flags, 1, 2, 0, 0);
    let bytes = header.to_bytes();
    // qr sits in the top bit, opcode in bits 3..7, rd in the lowest
    assert_eq!(
        bytes,
        vec![0x12, 0x34, 0b1010_1001, 0b0000_0100, 0, 1, 0, 2, 0, 0, 0, 0]
    );
}

#[test]
fn flags_unpack_from_documented_bit_positions() {
    let source = [0x12, 0x34, 0b1010_1001, 0b0000_0100, 0, 1, 0, 2, 0, 0, 0, 0];
    let header = Header::from_bytes(&source);
    assert_eq!(header.id, 0x1234);
    assert_eq!(header.flags.qr, 1);
    assert_eq!(header.flags.opcode, 5);
    assert_eq!(header.flags.rd, 1);
    assert_eq!(header.flags.rcode, 4);
    assert_eq!(header.flags.aa, 0);
    assert_eq!(header.flags.tc, 0);
    assert_eq!(header.flags.ra, 0);
    assert_eq!(header.qdcount, 1);
    assert_eq!(header.ancount, 2);
    assert_eq!(header.to_bytes(), source.to_vec());
}

#[test]
fn question_encodes_labels_terminator_type_class() {
    let question = Question::new("ab".to_string(), 1, 1);
    assert_eq!(question.to_bytes(), vec![2, b'a', b'b', 0, 0, 1, 0, 1]);
}

#[test]
fn question_decodes_and_reports_consumed_bytes() {
    let buffer = [2, b'a', b'b', 0, 0, 1, 0, 1, 9, 9];
    let (question, consumed) = Question::from_bytes(&buffer, 0).unwrap();
    assert_eq!(question, Question::new("ab".to_string(), 1, 1));
    assert_eq!(consumed, 8);
}

#[test]
fn question_fails_when_type_and_class_are_truncated() {
    let buffer = [2, b'a', b'b', 0, 0, 1];
    assert_eq!(
        Question::from_bytes(&buffer, 0),
        Err(DNSError::QuestionSizeError)
    );
}

#[test]
fn answer_encodes_all_fields_big_endian() {
    let answer = Answer::new("ab".to_string(), 1, 1, 60, [8, 8, 8, 8]);
    assert_eq!(
        answer.to_bytes(),
        vec![2, b'a', b'b', 0, 0, 1, 0, 1, 0, 0, 0, 60, 0, 4, 8, 8, 8, 8]
    );
}

#[test]
fn answer_decodes_and_reports_consumed_bytes() {
    let buffer = [2, b'a', b'b', 0, 0, 1, 0, 1, 0, 0, 0, 60, 0, 4, 8, 8, 8, 8];
    let (answer, consumed) = Answer::from_bytes(&buffer, 0).unwrap();
    assert_eq!(answer, Answer::new("ab".to_string(), 1, 1, 60, [8, 8, 8, 8]));
    assert_eq!(consumed, 18);
}

#[test]
fn answer_fails_when_fixed_fields_are_truncated() {
    let buffer = [2, b'a', b'b', 0, 0, 1, 0, 1, 0, 0, 0, 60];
    assert_eq!(Answer::from_bytes(&buffer, 0), Err(DNSError::AnswerSizeError));
}

#[test]
fn message_round_trips_through_bytes() {
    let flags = HeaderFlags::new().with_rd(1);
    let questions = vec![
        Question::new("codecrafters.io".to_string(), 1, 1),
        Question::new("a.b.c".to_string(), 28, 1),
    ];
    let answers = vec![
        Answer::new("codecrafters.io".to_string(), 1, 1, 60, [8, 8, 8, 8]),
        Answer::new("a.b.c".to_string(), 1, 1, 300, [1, 2, 3, 4]),
    ];
    let message = DNSMessage::new(0x4242, flags, questions, answers);
    let bytes = message.to_bytes();
    let decoded = DNSMessage::from_buffer(bytes.len(), &bytes).unwrap();
    assert_eq!(decoded, message);
}

#[test]
fn message_round_trips_with_no_records() {
    let message = DNSMessage::new(7, HeaderFlags::new(), vec![], vec![]);
    let bytes = message.to_bytes();
    assert_eq!(bytes.len(), 12);
    let decoded = DNSMessage::from_buffer(12, &bytes).unwrap();
    assert_eq!(decoded, message);
}

#[test]
fn short_datagram_is_rejected_with_its_size() {
    let buffer = [0u8; 11];
    assert_eq!(
        DNSMessage::from_buffer(11, &buffer),
        Err(DNSError::RequestHeaderSizeError(11))
    );
}

#[test]
fn header_only_datagram_with_question_count_is_rejected() {
    // qdcount says one question but nothing follows the header: the label
    // decoder finds no length byte at all
    let buffer = [0, 0, 0, 0, 0, 1, 0, 0, 0, 0, 0, 0];
    assert_eq!(
        DNSMessage::from_buffer(12, &buffer),
        Err(DNSError::LabelParsingError)
    );
}

#[test]
fn question_truncated_after_labels_is_rejected() {
    // a root label follows the header, but type and class are missing
    let buffer = [0, 0, 0, 0, 0, 1, 0, 0, 0, 0, 0, 0, 0, 0];
    assert_eq!(
        DNSMessage::from_buffer(14, &buffer),
        Err(DNSError::QuestionSizeError)
    );
}

#[test]
fn message_decodes_question_with_compressed_labels() {
    // one question spelled out, one answer whose labels point back at it
    let request = DNSMessage::new(
        1,
        HeaderFlags::new(),
        vec![Question::new("ab.cd".to_string(), 1, 1)],
        vec![],
    );
    let mut bytes = request.to_bytes();
    // append an answer record whose labels are one pointer to offset 12
    bytes[7] = 1; // ancount = 1
    bytes.extend_from_slice(&[0xC0, 12, 0, 1, 0, 1, 0, 0, 0, 60, 0, 4, 8, 8, 8, 8]);
    let decoded = DNSMessage::from_buffer(bytes.len(), &bytes).unwrap();
    assert_eq!(decoded.answers.len(), 1);
    assert_eq!(
        decoded.answers[0],
        Answer::new("ab.cd".to_string(), 1, 1, 60, [8, 8, 8, 8])
    );
}
