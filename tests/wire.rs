use dns_weekend::constants::{Class, Flags, Type};
use dns_weekend::errors::{DecodeError, EncodeError};
use dns_weekend::wire::{Header, Message, Question, ResourceRecord};

fn record(name: &str, record_type: Type, data: &[u8]) -> ResourceRecord {
    ResourceRecord { name: name.to_string(), record_type, class: Class::IN, ttl: 3600, data: data.to_vec() }
}

fn header(id: u16, flags: u16) -> Header {
    Header { id, flags, num_questions: 0, num_answers: 0, num_authorities: 0, num_additionals: 0 }
}

fn sample() -> Message {
    Message {
        header: header(0xBEEF, Flags::MESSAGE_RESPONSE.bits()),
        questions: vec![Question { name: "example.com".to_string(), record_type: Type::A, class: Class::IN }],
        answers: vec![record("example.com", Type::A, &[93, 184, 216, 34])],
        authorities: vec![record("com", Type::NS, b"a.gtld-servers.net")],
        additionals: vec![
            record("a.gtld-servers.net", Type::A, &[192, 5, 6, 30]),
            record("example.com", Type::TXT, b"hello"),
        ],
    }
}

fn same_record(a: &ResourceRecord, b: &ResourceRecord) -> bool {
    a.name == b.name && a.record_type == b.record_type && a.class == b.class && a.ttl == b.ttl && a.data == b.data
}

#[test]
fn type_and_class_codes() {
    assert_eq!(Type::A.code(), 1);
    assert_eq!(Type::NS.code(), 2);
    assert_eq!(Type::CNAME.code(), 5);
    assert_eq!(Type::AAAA.code(), 28);
    assert_eq!(Type::ALL_RECORDS.code(), 255);
    assert_eq!(Type::from_code(15), Some(Type::MX));
    assert_eq!(Type::from_code(3), None);
    assert_eq!(Class::IN.code(), 1);
    assert_eq!(Class::from_code(1), Some(Class::IN));
    assert_eq!(Class::from_code(3), None);
    assert_eq!(Flags::RECURSION_DESIRED.bits(), 256);
    assert_eq!(Flags::MESSAGE_RESPONSE.bits(), 0x8000);
}

#[test]
fn writes_query_bytes_exactly() {
    let m = Message {
        header: header(0x1234, Flags::RECURSION_DESIRED.bits()),
        questions: vec![Question { name: "a.bc".to_string(), record_type: Type::A, class: Class::IN }],
        answers: vec![],
        authorities: vec![],
        additionals: vec![],
    };
    let mut out: Vec<u8> = Vec::new();
    assert_eq!(m.write_to(&mut out), Ok(()));
    assert_eq!(
        out,
        vec![0x12, 0x34, 1, 0, 0, 1, 0, 0, 0, 0, 0, 0, 1, 97, 2, 98, 99, 0, 0, 1, 0, 1]
    );
}

#[test]
fn message_round_trip() {
    let m = sample();
    let mut out: Vec<u8> = Vec::new();
    m.write_to(&mut out).unwrap();
    let d = Message::read_from(&out).unwrap();
    assert_eq!(d.header.id, 0xBEEF);
    assert_eq!(d.header.flags, 0x8000);
    assert_eq!(d.header.num_questions, 1);
    assert_eq!(d.header.num_answers, 1);
    assert_eq!(d.header.num_authorities, 1);
    assert_eq!(d.header.num_additionals, 2);
    assert_eq!(d.questions.len(), 1);
    assert_eq!(d.questions[0].name, "example.com");
    assert_eq!(d.questions[0].record_type, Type::A);
    assert_eq!(d.answers.len(), 1);
    assert!(same_record(&d.answers[0], &m.answers[0]));
    assert!(same_record(&d.authorities[0], &m.authorities[0]));
    assert!(same_record(&d.additionals[0], &m.additionals[0]));
    assert!(same_record(&d.additionals[1], &m.additionals[1]));
}

#[test]
fn counts_come_from_sections() {
    let mut m = sample();
    m.header.num_answers = 40;
    m.header.num_questions = 0;
    let mut out: Vec<u8> = Vec::new();
    m.write_to(&mut out).unwrap();
    assert_eq!(&out[4..12], &[0, 1, 0, 1, 0, 1, 0, 2]);
}

#[test]
fn name_payload_written_as_name() {
    let m = Message {
        header: header(1, 0),
        questions: vec![],
        answers: vec![record("x", Type::CNAME, b"ab.c")],
        authorities: vec![],
        additionals: vec![],
    };
    let mut out: Vec<u8> = Vec::new();
    m.write_to(&mut out).unwrap();
    assert_eq!(&out[12..], &[1, 120, 0, 0, 5, 0, 1, 0, 0, 14, 16, 0, 6, 2, 97, 98, 1, 99, 0]);
}

#[test]
fn reads_compressed_ns_payload() {
    let mut buf: Vec<u8> = vec![0, 7, 0, 0, 0, 0, 0, 1, 0, 0, 0, 0];
    // At 12: name "ex" (4 bytes), NS, IN, ttl 1, rdlength 4, payload "ns" + pointer to 12.
    buf.extend_from_slice(&[2, 101, 120, 0, 0, 2, 0, 1, 0, 0, 0, 1, 0, 5, 2, 110, 115, 0xC0, 12]);
    let d = Message::read_from(&buf).unwrap();
    assert_eq!(d.answers[0].name, "ex");
    assert_eq!(d.answers[0].data, b"ns.ex".to_vec());
}

#[test]
fn decode_errors() {
    assert_eq!(Message::read_from(&[0, 1, 0]).err(), Some(DecodeError::Truncated));
    let mut q: Vec<u8> = vec![0, 1, 0, 0, 0, 1, 0, 0, 0, 0, 0, 0, 0, 0, 99, 0, 1];
    assert_eq!(Message::read_from(&q).err(), Some(DecodeError::UnknownType(99)));
    q[14] = 1;
    q[16] = 3;
    assert_eq!(Message::read_from(&q).err(), Some(DecodeError::UnknownClass(3)));
    q.pop();
    assert_eq!(Message::read_from(&q).err(), Some(DecodeError::Truncated));
    let short_rr: Vec<u8> = vec![0, 1, 0, 0, 0, 0, 0, 1, 0, 0, 0, 0, 0, 0, 1, 0, 1, 0, 0, 0, 0, 0, 4, 1, 2];
    assert_eq!(Message::read_from(&short_rr).err(), Some(DecodeError::Truncated));
}

#[test]
fn counts_bound_the_reading() {
    let buf: Vec<u8> = vec![0, 1, 0, 0, 0, 0, 0, 0, 0, 0, 0, 0, 7, 7, 7];
    let d = Message::read_from(&buf).unwrap();
    assert_eq!(d.questions.len() + d.answers.len() + d.authorities.len() + d.additionals.len(), 0);
}

#[test]
fn encode_errors() {
    let mut m = sample();
    m.answers[0].data = vec![0; 65536];
    let mut out: Vec<u8> = vec![1, 2];
    assert_eq!(m.write_to(&mut out), Err(EncodeError::PayloadTooLong));
    assert_eq!(out, vec![1, 2]);
    let mut m = sample();
    m.authorities[0].data = b"bad..name".to_vec();
    assert_eq!(m.write_to(&mut out), Err(EncodeError::BadLabel));
    let mut m = sample();
    m.questions[0].name = "x".repeat(70);
    assert_eq!(m.write_to(&mut out), Err(EncodeError::BadLabel));
    let mut m = sample();
    m.additionals = (0..65536).map(|_| record("a", Type::A, &[1, 2, 3, 4])).collect();
    assert_eq!(m.write_to(&mut out), Err(EncodeError::TooManyEntries));
    assert_eq!(out, vec![1, 2]);
}

#[test]
fn header_reads_and_writes() {
    let h = Header { id: 1, flags: 2, num_questions: 3, num_answers: 4, num_authorities: 5, num_additionals: 0x0102 };
    let mut out: Vec<u8> = Vec::new();
    h.write_to(&mut out);
    assert_eq!(out, vec![0, 1, 0, 2, 0, 3, 0, 4, 0, 5, 1, 2]);
    let mut pos: usize = 0;
    assert_eq!(Header::read_from(&out, &mut pos), Ok(h));
    assert_eq!(pos, 12);
}

#[test]
fn failed_reads_and_writes_leave_state() {
    // A question whose type code is unknown, after a two-byte prefix.
    let buf: Vec<u8> = vec![9, 9, 1, 97, 0, 0, 99, 0, 1];
    let mut pos: usize = 2;
    assert_eq!(Question::read_from(&buf, &mut pos).err(), Some(DecodeError::UnknownType(99)));
    assert_eq!(pos, 2);
    let rr: Vec<u8> = vec![1, 97, 0, 0, 1, 0, 1, 0, 0, 0, 0, 0, 9, 1];
    let mut pos: usize = 0;
    assert_eq!(ResourceRecord::read_from(&rr, &mut pos).err(), Some(DecodeError::Truncated));
    assert_eq!(pos, 0);
    let q = Question { name: "ok.x".repeat(20) + &"y".repeat(64), record_type: Type::A, class: Class::IN };
    let mut out: Vec<u8> = vec![7];
    assert_eq!(q.write_to(&mut out), Err(EncodeError::BadLabel));
    assert_eq!(out, vec![7]);
    let r = record("fine.name", Type::NS, b"bad..target");
    assert_eq!(r.write_to(&mut out), Err(EncodeError::BadLabel));
    assert_eq!(out, vec![7]);
    let mut pos: usize = 0;
    let good: Vec<u8> = vec![1, 97, 0, 0, 1, 0, 1];
    assert!(Question::read_from(&good, &mut pos).is_ok());
    assert_eq!(pos, 7);
}
