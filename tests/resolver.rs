use dns_weekend::constants::{Class, Type};
use dns_weekend::resolver::{lookup_answer, next_step, Progress, ResolveError, Resolver, Step};
use dns_weekend::wire::{Header, Message, Question, ResourceRecord};

const ROOT: u32 = 0xC629_0004; // 198.41.0.4

fn record(name: &str, record_type: Type, data: &[u8]) -> ResourceRecord {
    ResourceRecord { name: name.to_string(), record_type, class: Class::IN, ttl: 60, data: data.to_vec() }
}

fn message(id: u16, answers: Vec<ResourceRecord>, authorities: Vec<ResourceRecord>, additionals: Vec<ResourceRecord>) -> Message {
    Message {
        header: Header { id, flags: 0x8000, num_questions: 0, num_answers: 0, num_authorities: 0, num_additionals: 0 },
        questions: vec![],
        answers,
        authorities,
        additionals,
    }
}

fn bytes_of(m: &Message) -> Vec<u8> {
    let mut out: Vec<u8> = Vec::new();
    m.write_to(&mut out).unwrap();
    out
}

/// The query that the resolver sent: its id, name and type.
fn sent(query: &[u8]) -> (u16, String, Type) {
    let q = Message::read_from(query).unwrap();
    assert_eq!(q.header.flags, 0);
    assert_eq!(q.questions.len(), 1);
    (q.header.id, q.questions[0].name.clone(), q.questions[0].record_type)
}

/// The bytes of `m` as a reply to `query`: same id, same question.
fn reply_to(query: &[u8], mut m: Message) -> Vec<u8> {
    let q = Message::read_from(query).unwrap();
    m.header.id = q.header.id;
    m.questions = q.questions;
    bytes_of(&m)
}

/// Runs a resolution against a mocked transport; records each query as
/// (nameserver, name, type).
fn run<F>(resolver: &mut Resolver, log: &mut Vec<(u32, String, Type)>, mut serve: F) -> Result<Vec<u8>, ResolveError>
where
    F: FnMut(u32, &str, Type, u16) -> Message,
{
    loop {
        let (ns, query) = resolver.next_query()?;
        let (id, name, t) = sent(&query);
        log.push((ns, name.clone(), t));
        let reply = reply_to(&query, serve(ns, &name, t, id));
        match resolver.on_reply(&reply) {
            Progress::Continue => {},
            Progress::Answer(d) => return Ok(d),
            Progress::Failed(e) => return Err(e),
        }
    }
}

#[test]
fn follows_glue_without_nested_lookup() {
    let mut r = Resolver::new("x.example".to_string(), Type::A, &vec![ROOT], 10).unwrap();
    let mut log = Vec::new();
    let result = run(&mut r, &mut log, |ns, name, _t, id| {
        if ns == ROOT {
            message(id, vec![], vec![record("example", Type::NS, b"ns1.example")], vec![record("ns1.example", Type::A, &[10, 0, 0, 1])])
        } else {
            assert_eq!(ns, 0x0A00_0001);
            assert_eq!(name, "x.example");
            message(id, vec![record("x.example", Type::A, &[1, 2, 3, 4])], vec![], vec![])
        }
    });
    assert_eq!(result, Ok(vec![1, 2, 3, 4]));
    assert_eq!(r.lookups.len(), 1);
    assert_eq!(log.len(), 2);
    assert!(log.iter().all(|(_, n, t)| n == "x.example" && *t == Type::A));
}

#[test]
fn glue_step_keeps_one_lookup() {
    let mut r = Resolver::new("x.example".to_string(), Type::A, &vec![ROOT], 10).unwrap();
    let (_, q) = r.next_query().unwrap();
    let reply = message(0, vec![], vec![record("example", Type::NS, b"ns1.example")], vec![record("ns1.example", Type::A, &[10, 0, 0, 1])]);
    assert!(matches!(r.on_reply(&reply_to(&q, reply)), Progress::Continue));
    assert_eq!(r.lookups.len(), 1);
    assert_eq!(r.lookups[0].nameserver, 0x0A00_0001);
}

#[test]
fn looks_up_nameserver_without_glue() {
    let mut r = Resolver::new("x.example".to_string(), Type::MX, &vec![ROOT, 1], 10).unwrap();
    let mut log = Vec::new();
    let result = run(&mut r, &mut log, |ns, name, t, id| {
        if ns == ROOT && name == "x.example" {
            message(id, vec![], vec![record("example", Type::NS, b"ns1.example")], vec![])
        } else if ns == ROOT && name == "ns1.example" {
            assert_eq!(t, Type::A);
            message(id, vec![record("ns1.example", Type::A, &[10, 0, 0, 2])], vec![], vec![])
        } else {
            assert_eq!(ns, 0x0A00_0002);
            message(id, vec![record("x.example", Type::MX, b"\x00\x0amail")], vec![], vec![])
        }
    });
    assert_eq!(result, Ok(b"\x00\x0amail".to_vec()));
    assert_eq!(
        log,
        vec![
            (ROOT, "x.example".to_string(), Type::MX),
            (ROOT, "ns1.example".to_string(), Type::A),
            (0x0A00_0002, "x.example".to_string(), Type::MX),
        ]
    );
}

#[test]
fn nested_lookup_pushes_one_lookup() {
    let mut r = Resolver::new("x.example".to_string(), Type::A, &vec![ROOT], 10).unwrap();
    let (_, q) = r.next_query().unwrap();
    let reply = message(0, vec![], vec![record("example", Type::NS, b"ns1.example")], vec![]);
    assert!(matches!(r.on_reply(&reply_to(&q, reply)), Progress::Continue));
    assert_eq!(r.lookups.len(), 2);
    assert_eq!(r.lookups[1].name, "ns1.example");
    assert_eq!(r.lookups[1].record_type, Type::A);
    assert_eq!(r.lookups[1].nameserver, ROOT);
}

#[test]
fn answer_wins_over_referral() {
    let mut r = Resolver::new("x.example".to_string(), Type::A, &vec![ROOT], 10).unwrap();
    let mut log = Vec::new();
    let result = run(&mut r, &mut log, |_, _, _, id| {
        message(
            id,
            vec![record("x.example", Type::CNAME, b"y.example"), record("x.example", Type::A, &[5, 6, 7, 8])],
            vec![record("example", Type::NS, b"ns1.example")],
            vec![record("ns1.example", Type::A, &[10, 0, 0, 1])],
        )
    });
    assert_eq!(result, Ok(vec![5, 6, 7, 8]));
    assert_eq!(log.len(), 1);
}

#[test]
fn empty_reply_exhausts_delegation() {
    let mut r = Resolver::new("x.example".to_string(), Type::TXT, &vec![ROOT], 10).unwrap();
    let mut log = Vec::new();
    let result = run(&mut r, &mut log, |_, _, _, id| message(id, vec![], vec![], vec![]));
    assert_eq!(
        result,
        Err(ResolveError::DelegationExhausted { name: "x.example".to_string(), record_type: Type::TXT })
    );
}

#[test]
fn delegation_cycle_hits_the_limit() {
    let mut r = Resolver::new("x.example".to_string(), Type::A, &vec![ROOT], 5).unwrap();
    let mut log = Vec::new();
    let result = run(&mut r, &mut log, |_, _, _, id| {
        message(id, vec![], vec![], vec![record("ns", Type::A, &[198, 41, 0, 4])])
    });
    assert_eq!(result, Err(ResolveError::DelegationLimitExceeded));
    assert_eq!(log.len(), 5);
}

#[test]
fn rejects_reply_with_other_id() {
    let mut r = Resolver::new("x.example".to_string(), Type::A, &vec![ROOT], 5).unwrap();
    let (_, q) = r.next_query().unwrap();
    let (id, _, _) = sent(&q);
    let mut reply = Message::read_from(&reply_to(&q, message(0, vec![record("x.example", Type::A, &[1, 2, 3, 4])], vec![], vec![]))).unwrap();
    reply.header.id = id.wrapping_add(1);
    assert!(matches!(r.on_reply(&bytes_of(&reply)), Progress::Failed(ResolveError::IdMismatch)));
}

#[test]
fn rejects_reply_to_other_question() {
    let mut r = Resolver::new("x.example".to_string(), Type::A, &vec![ROOT], 5).unwrap();
    let (_, q) = r.next_query().unwrap();
    let (id, _, _) = sent(&q);
    let mut reply = message(id, vec![record("y.example", Type::A, &[1, 2, 3, 4])], vec![], vec![]);
    reply.questions = vec![Question { name: "y.example".to_string(), record_type: Type::A, class: Class::IN }];
    assert!(matches!(r.on_reply(&bytes_of(&reply)), Progress::Failed(ResolveError::QuestionMismatch)));
    let bare = message(id, vec![record("x.example", Type::A, &[1, 2, 3, 4])], vec![], vec![]);
    assert!(matches!(r.on_reply(&bytes_of(&bare)), Progress::Failed(ResolveError::QuestionMismatch)));
    let mut wrong_type = bare;
    wrong_type.questions = vec![Question { name: "x.example".to_string(), record_type: Type::MX, class: Class::IN }];
    assert!(matches!(r.on_reply(&bytes_of(&wrong_type)), Progress::Failed(ResolveError::QuestionMismatch)));
}

#[test]
fn rejects_malformed_replies() {
    let mut r = Resolver::new("x.example".to_string(), Type::A, &vec![ROOT], 5).unwrap();
    r.next_query().unwrap();
    assert!(matches!(
        r.on_reply(&[0, 1, 2]),
        Progress::Failed(ResolveError::Decode(dns_weekend::errors::DecodeError::Truncated))
    ));
    let (_, q) = r.next_query().unwrap();
    let glue = message(0, vec![], vec![], vec![record("ns", Type::A, &[1, 2, 3])]);
    assert!(matches!(r.on_reply(&reply_to(&q, glue)), Progress::Failed(ResolveError::BadAddress)));
}

#[test]
fn needs_a_root_hint() {
    assert!(matches!(Resolver::new("x".to_string(), Type::A, &vec![], 5), Err(ResolveError::NoRootHints)));
}

#[test]
fn query_names_bad_label() {
    let mut r = Resolver::new("a..b".to_string(), Type::A, &vec![ROOT], 5).unwrap();
    assert!(matches!(r.next_query(), Err(ResolveError::Encode(_))));
    assert_eq!(r.hops_left, 4);
}

#[test]
fn next_step_order() {
    let m = message(1, vec![record("a", Type::MX, &[1])], vec![record("b", Type::NS, b"ns.b")], vec![record("c", Type::A, &[1, 1, 1, 1])]);
    assert!(matches!(next_step(&m, Type::MX), Step::Answer(d) if d == vec![1]));
    assert!(matches!(next_step(&m, Type::A), Step::Glue(d) if d == vec![1, 1, 1, 1]));
    let m = message(1, vec![], vec![record("b", Type::SOA, &[9]), record("b", Type::NS, b"ns.b")], vec![record("c", Type::AAAA, &[0; 16])]);
    assert!(matches!(next_step(&m, Type::A), Step::Referral(d) if d == b"ns.b".to_vec()));
    let m = message(1, vec![], vec![], vec![]);
    assert!(matches!(next_step(&m, Type::A), Step::Exhausted));
}

#[test]
fn picks_address_through_cname() {
    let m = Message {
        header: Header { id: 1, flags: 0x8180, num_questions: 0, num_answers: 0, num_authorities: 0, num_additionals: 0 },
        questions: vec![Question { name: "www.x.com".to_string(), record_type: Type::A, class: Class::IN }],
        answers: vec![
            record("www.x.com", Type::CNAME, b"x.com"),
            record("other.com", Type::A, &[9, 9, 9, 9]),
            record("x.com", Type::A, &[1, 2, 3, 4]),
        ],
        authorities: vec![],
        additionals: vec![],
    };
    assert_eq!(lookup_answer(&m, &"www.x.com".to_string()), Some(vec![1, 2, 3, 4]));
    let plain = message(1, vec![record("x.com", Type::A, &[1, 2, 3, 4])], vec![], vec![]);
    assert_eq!(lookup_answer(&plain, &"nothing.com".to_string()), None);
    assert_eq!(lookup_answer(&plain, &"x.com".to_string()), Some(vec![1, 2, 3, 4]));
}
