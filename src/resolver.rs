//! Iterative resolution from a root hint down a chain of delegations, as a
//! state machine: the caller sends each query that it hands out and feeds
//! each reply back in.

use vstd::prelude::*;
use vstd::utf8::{decode_utf8, valid_utf8};

use crate::bytes::copy_bytes;
use crate::constants::{Class, Type};
use crate::errors::{DecodeError, EncodeError};
use crate::domain_name::name_bytes;
use crate::text::text_from_utf8;
use crate::wire::{
    encode_message_spec, parse_message, records_view, u32_at, Header, Message, MessageView, Question, QuestionView,
    RecordView, ResourceRecord,
};

verus! {

/// Relies on `rand::random`: a value drawn afresh, of which nothing is known.
pub assume_specification<T>[ rand::random::<T> ]() -> (r: T)
    where
        rand::distributions::Standard: rand::distributions::Distribution<T>,
;

/// What a reply tells the resolver to do next.
pub enum Decision {
    /// A record of the asked type, with this payload.
    Answer(Seq<u8>),
    /// A glue address for the next nameserver, with this payload.
    Glue(Seq<u8>),
    /// The text of the name of a nameserver to look up first.
    Referral(Seq<u8>),
    /// Nothing to go on.
    Exhausted,
}

/// The index of the first record of type `t`, if any.
#[verifier::opaque]
pub open spec fn first_of_type(rs: Seq<RecordView>, t: Type) -> Option<int> {
    if exists|i: int| 0 <= i < rs.len() && rs[i].record_type == t {
        Some(choose|i: int| 0 <= i < rs.len() && rs[i].record_type == t
            && forall|j: int| 0 <= j < i ==> rs[j].record_type != t)
    } else {
        None
    }
}

/// An answer of the asked type wins, whatever else the reply holds; then
/// the first glue (A) record in the additional section; then the first NS
/// record in the authority section.
pub open spec fn decide(m: MessageView, t: Type) -> Decision {
    match first_of_type(m.answers, t) {
        Some(i) => Decision::Answer(m.answers[i].data),
        None => match first_of_type(m.additionals, Type::A) {
            Some(i) => Decision::Glue(m.additionals[i].data),
            None => match first_of_type(m.authorities, Type::NS) {
                Some(i) => Decision::Referral(m.authorities[i].data),
                None => Decision::Exhausted,
            },
        },
    }
}

/// The decision as the library hands it out.
pub enum Step {
    Answer(Vec<u8>),
    Glue(Vec<u8>),
    Referral(Vec<u8>),
    Exhausted,
}

impl View for Step {
    type V = Decision;

    open spec fn view(&self) -> Decision {
        match self {
            Step::Answer(d) => Decision::Answer(d@),
            Step::Glue(d) => Decision::Glue(d@),
            Step::Referral(d) => Decision::Referral(d@),
            Step::Exhausted => Decision::Exhausted,
        }
    }
}

/// The first record of type `t` in `rs`, if any.
fn find_type(rs: &Vec<ResourceRecord>, t: Type) -> (r: Option<usize>)
    ensures
        r matches Some(i) ==> i < rs@.len() && first_of_type(records_view(rs@), t) == Some(i as int),
        r is None ==> first_of_type(records_view(rs@), t) is None,
{
    let ghost v = records_view(rs@);
    reveal(first_of_type);
    let mut i: usize = 0;
    while i < rs.len()
        invariant
            i <= rs@.len(),
            v == records_view(rs@),
            forall|j: int| 0 <= j < i ==> v[j].record_type != t,
        decreases rs@.len() - i,
    {
        if rs[i].record_type == t {
            proof {
                reveal(first_of_type);
                let ii = i as int;
                assert(v[ii].record_type == t);
                assert(0 <= ii < v.len() && v[ii].record_type == t && forall|j: int| 0 <= j < ii ==> v[j].record_type != t);
                let k = choose|k: int| 0 <= k < v.len() && v[k].record_type == t
                    && forall|j: int| 0 <= j < k ==> v[j].record_type != t;
                if k < ii {
                    assert(v[k].record_type != t);
                } else if k > ii {
                    assert(v[ii].record_type != t);
                }
            }
            return Some(i);
        }
        i += 1;
    }
    None
}

/// What the resolver does with a reply to a query for type `t`.
pub fn next_step(reply: &Message, t: Type) -> (r: Step)
    ensures
        r@ == decide(reply@, t),
{
    let ghost m = reply@;
    assert(m.answers == records_view(reply.answers@));
    assert(m.additionals == records_view(reply.additionals@));
    assert(m.authorities == records_view(reply.authorities@));
    let a = find_type(&reply.answers, t);
    if let Some(i) = a {
        let d = copy_of(&reply.answers[i].data);
        assert(d@ == m.answers[i as int].data);
        return Step::Answer(d);
    }
    let g = find_type(&reply.additionals, Type::A);
    if let Some(i) = g {
        let d = copy_of(&reply.additionals[i].data);
        assert(d@ == m.additionals[i as int].data);
        return Step::Glue(d);
    }
    let n = find_type(&reply.authorities, Type::NS);
    if let Some(i) = n {
        let d = copy_of(&reply.authorities[i].data);
        assert(d@ == m.authorities[i as int].data);
        return Step::Referral(d);
    }
    Step::Exhausted
}

/// A copy of `v`.
fn copy_of(v: &Vec<u8>) -> (r: Vec<u8>)
    ensures
        r@ == v@,
{
    let mut out: Vec<u8> = Vec::new();
    copy_bytes(&mut out, v.as_slice());
    assert(out@ =~= v@);
    out
}

/// Why a resolution failed.
#[derive(Clone, Debug, PartialEq, Eq)]
pub enum ResolveError {
    /// The query could not be written.
    Encode(EncodeError),
    /// A reply was not a well-formed message.
    Decode(DecodeError),
    /// A reply's id is not that of the query last sent.
    IdMismatch,
    /// A reply does not repeat the question that was sent.
    QuestionMismatch,
    /// An address record's payload is not four bytes.
    BadAddress,
    /// A nameserver's name is not text.
    BadHostName,
    /// A reply held no answer, glue or authority for this name and type.
    DelegationExhausted { name: String, record_type: Type },
    /// The budget of queries ran out.
    DelegationLimitExceeded,
    /// No root hint was given.
    NoRootHints,
    /// Sending a query or receiving its reply failed.
    Transport,
}

/// A resolution error as values.
pub enum ErrorView {
    Encode(EncodeError),
    Decode(DecodeError),
    IdMismatch,
    QuestionMismatch,
    BadAddress,
    BadHostName,
    DelegationExhausted(Seq<char>, Type),
    DelegationLimitExceeded,
    NoRootHints,
    Transport,
}

impl View for ResolveError {
    type V = ErrorView;

    open spec fn view(&self) -> ErrorView {
        match self {
            ResolveError::Encode(e) => ErrorView::Encode(*e),
            ResolveError::Decode(e) => ErrorView::Decode(*e),
            ResolveError::IdMismatch => ErrorView::IdMismatch,
            ResolveError::QuestionMismatch => ErrorView::QuestionMismatch,
            ResolveError::BadAddress => ErrorView::BadAddress,
            ResolveError::BadHostName => ErrorView::BadHostName,
            ResolveError::DelegationExhausted { name, record_type } => ErrorView::DelegationExhausted(
                name@,
                *record_type,
            ),
            ResolveError::DelegationLimitExceeded => ErrorView::DelegationLimitExceeded,
            ResolveError::NoRootHints => ErrorView::NoRootHints,
            ResolveError::Transport => ErrorView::Transport,
        }
    }
}

/// What feeding a reply to the resolver led to.
pub enum Progress {
    /// Send the next query.
    Continue,
    /// The payload of the record asked for.
    Answer(Vec<u8>),
    /// Resolution failed.
    Failed(ResolveError),
}

/// A progress as values.
pub enum ProgressView {
    Continue,
    Answer(Seq<u8>),
    Failed(ErrorView),
}

impl View for Progress {
    type V = ProgressView;

    open spec fn view(&self) -> ProgressView {
        match self {
            Progress::Continue => ProgressView::Continue,
            Progress::Answer(d) => ProgressView::Answer(d@),
            Progress::Failed(e) => ProgressView::Failed(e@),
        }
    }
}

/// One lookup under way: a name and type, and the nameserver (an IPv4
/// address, as a big-endian integer) that is asked next.
pub struct Lookup {
    pub name: String,
    pub record_type: Type,
    pub nameserver: u32,
}

/// A lookup as values.
pub struct LookupView {
    pub name: Seq<char>,
    pub record_type: Type,
    pub nameserver: u32,
}

impl View for Lookup {
    type V = LookupView;

    open spec fn view(&self) -> LookupView {
        LookupView { name: self.name@, record_type: self.record_type, nameserver: self.nameserver }
    }
}

/// The state of a resolution. `lookups` is a stack: the last lookup is the
/// one under way, and each one before it waits for the address of a
/// nameserver that the one after it looks up.
pub struct Resolver {
    pub lookups: Vec<Lookup>,
    pub root: u32,
    pub hops_left: usize,
    pub expected_id: u16,
}

/// A resolver as values.
pub struct ResolverView {
    pub lookups: Seq<LookupView>,
    pub root: u32,
    pub hops_left: nat,
    pub expected_id: u16,
}

impl View for Resolver {
    type V = ResolverView;

    open spec fn view(&self) -> ResolverView {
        ResolverView {
            lookups: self.lookups@.map_values(|l: Lookup| l@),
            root: self.root,
            hops_left: self.hops_left as nat,
            expected_id: self.expected_id,
        }
    }
}

/// The IPv4 address in an A record's four payload bytes.
pub open spec fn address_of(d: Seq<u8>) -> u32 {
    u32_at(d, 0)
}

/// The state with the nameserver of lookup `i` set to `ns`.
pub open spec fn with_nameserver(s: ResolverView, lookups: Seq<LookupView>, i: int, ns: u32) -> ResolverView {
    ResolverView {
        lookups: lookups.update(i, LookupView { name: lookups[i].name, record_type: lookups[i].record_type, nameserver: ns }),
        root: s.root,
        hops_left: s.hops_left,
        expected_id: s.expected_id,
    }
}

/// Whether a reply repeats the question of lookup `l`, as it was sent.
pub open spec fn echoes(m: MessageView, l: LookupView) -> bool {
    m.questions.len() == 1 && m.questions[0].name == name_bytes(l.name) && m.questions[0].record_type
        == l.record_type && m.questions[0].class == Class::IN
}

/// The state and progress after the reply `reply` to the lookup under way.
pub open spec fn transition(s: ResolverView, reply: Seq<u8>) -> (ResolverView, ProgressView) {
    match parse_message(reply) {
        Err(e) => (s, ProgressView::Failed(ErrorView::Decode(e))),
        Ok(m) => {
            let n = s.lookups.len() as int;
            let top = s.lookups[n - 1];
            if m.header.id != s.expected_id {
                (s, ProgressView::Failed(ErrorView::IdMismatch))
            } else if !echoes(m, top) {
                (s, ProgressView::Failed(ErrorView::QuestionMismatch))
            } else {
                match decide(m, top.record_type) {
                    Decision::Answer(d) => {
                        if n == 1 {
                            (s, ProgressView::Answer(d))
                        } else if d.len() != 4 {
                            (s, ProgressView::Failed(ErrorView::BadAddress))
                        } else {
                            (with_nameserver(s, s.lookups.drop_last(), n - 2, address_of(d)), ProgressView::Continue)
                        }
                    },
                    Decision::Glue(d) => {
                        if d.len() != 4 {
                            (s, ProgressView::Failed(ErrorView::BadAddress))
                        } else {
                            (with_nameserver(s, s.lookups, n - 1, address_of(d)), ProgressView::Continue)
                        }
                    },
                    Decision::Referral(h) => {
                        if !valid_utf8(h) {
                            (s, ProgressView::Failed(ErrorView::BadHostName))
                        } else {
                            (
                                ResolverView {
                                    lookups: s.lookups.push(
                                        LookupView { name: decode_utf8(h), record_type: Type::A, nameserver: s.root },
                                    ),
                                    root: s.root,
                                    hops_left: s.hops_left,
                                    expected_id: s.expected_id,
                                },
                                ProgressView::Continue,
                            )
                        }
                    },
                    Decision::Exhausted => (
                        s,
                        ProgressView::Failed(ErrorView::DelegationExhausted(top.name, top.record_type)),
                    ),
                }
            }
        },
    }
}

/// The query for lookup `l`, with id `id` and no flag set.
pub open spec fn query_view(l: LookupView, id: u16) -> MessageView {
    MessageView {
        header: Header {
            id,
            flags: 0,
            num_questions: 0,
            num_answers: 0,
            num_authorities: 0,
            num_additionals: 0,
        },
        questions: seq![QuestionView { name: name_bytes(l.name), record_type: l.record_type, class: Class::IN }],
        answers: Seq::empty(),
        authorities: Seq::empty(),
        additionals: Seq::empty(),
    }
}

fn read_address(d: &Vec<u8>) -> (r: u32)
    requires
        d@.len() == 4,
    ensures
        r == address_of(d@),
{
    (((d[0] as u32) * 256 + d[1] as u32) * 256 + d[2] as u32) * 256 + d[3] as u32
}

fn copy_string(s: &String) -> (r: String)
    ensures
        r@ == s@,
{
    s.clone()
}

impl Lookup {
    /// Whether `reply` repeats this lookup's question.
    fn is_echoed_by(&self, reply: &Message) -> (r: bool)
        ensures
            r == echoes(reply@, self@),
    {
        if reply.questions.len() != 1 {
            return false;
        }
        let q = &reply.questions[0];
        assert(reply@.questions[0] == q@);
        same_bytes(q.name.as_str().as_bytes(), self.name.as_str().as_bytes()) && q.record_type == self.record_type
            && q.class == Class::IN
    }
}

impl Resolver {
    /// Whether a lookup is under way.
    pub open spec fn wf(&self) -> bool {
        self.lookups@.len() > 0
    }

    /// A resolution of `name` for `record_type`, starting at the first root
    /// hint, that may send at most `max_hops` queries.
    pub fn new(name: String, record_type: Type, root_hints: &Vec<u32>, max_hops: usize) -> (r: Result<Resolver, ResolveError>)
        ensures
            root_hints@.len() == 0 ==> (r matches Err(e) && e@ == ErrorView::NoRootHints),
            root_hints@.len() > 0 ==> (r matches Ok(v) && v.wf() && v@.lookups == seq![
                LookupView { name: name@, record_type, nameserver: root_hints@[0] },
            ] && v@.root == root_hints@[0] && v@.hops_left == max_hops),
    {
        if root_hints.len() == 0 {
            return Err(ResolveError::NoRootHints);
        }
        let root = root_hints[0];
        let mut lookups: Vec<Lookup> = Vec::new();
        lookups.push(Lookup { name, record_type, nameserver: root });
        let r = Resolver { lookups, root, hops_left: max_hops, expected_id: 0 };
        assert(r@.lookups =~= seq![LookupView { name: name@, record_type, nameserver: root }]);
        Ok(r)
    }

    /// The next query to send, and the nameserver to send it to. Each query
    /// has a fresh random id and uses up one hop; with none left, resolution
    /// fails.
    pub fn next_query(&mut self) -> (r: Result<(u32, Vec<u8>), ResolveError>)
        requires
            old(self).wf(),
        ensures
            final(self).wf(),
            old(self).hops_left == 0 ==> (r matches Err(e) && e@ == ErrorView::DelegationLimitExceeded
                && final(self)@ == old(self)@),
            old(self).hops_left > 0 ==> final(self)@.lookups == old(self)@.lookups && final(self)@.root
                == old(self)@.root && final(self)@.hops_left == old(self)@.hops_left - 1 && match encode_message_spec(
                query_view(old(self)@.lookups.last(), final(self).expected_id),
            ) {
                Ok(b) => r matches Ok((ns, v)) && ns == old(self)@.lookups.last().nameserver && v@ == b,
                Err(e) => r matches Err(x) && x@ == ErrorView::Encode(e),
            },
    {
        if self.hops_left == 0 {
            return Err(ResolveError::DelegationLimitExceeded);
        }
        self.hops_left = self.hops_left - 1;
        let id: u16 = rand::random::<u16>();
        self.expected_id = id;
        let top = self.lookups.len() - 1;
        let l = &self.lookups[top];
        let mut questions: Vec<Question> = Vec::new();
        questions.push(Question { name: copy_string(&l.name), record_type: l.record_type, class: Class::IN });
        let query = Message {
            header: Header {
                id,
                flags: 0,
                num_questions: 0,
                num_answers: 0,
                num_authorities: 0,
                num_additionals: 0,
            },
            questions,
            answers: Vec::new(),
            authorities: Vec::new(),
            additionals: Vec::new(),
        };
        assert(query@.questions =~= query_view(old(self)@.lookups.last(), id).questions);
        assert(query@.answers =~= Seq::<RecordView>::empty());
        assert(query@.authorities =~= Seq::<RecordView>::empty());
        assert(query@.additionals =~= Seq::<RecordView>::empty());
        assert(query@ == query_view(old(self)@.lookups.last(), id));
        let mut bytes: Vec<u8> = Vec::new();
        match query.write_to(&mut bytes) {
            Ok(()) => {
                assert(bytes@ =~= encode_message_spec(query@)->Ok_0);
                Ok((self.lookups[top].nameserver, bytes))
            },
            Err(e) => Err(ResolveError::Encode(e)),
        }
    }

    /// Takes the reply to the last query sent and moves the resolution on:
    /// an answer of the asked type ends it, or, for a lookup of a
    /// nameserver's address, hands the address to the lookup that waits for
    /// it; else a glue address becomes the next nameserver; else the first
    /// authority's nameserver is looked up from the root, as a lookup of its
    /// own; else resolution fails. A reply that is not well-formed, or whose
    /// id is not that of the last query, ends resolution too.
    pub fn on_reply(&mut self, reply: &[u8]) -> (r: Progress)
        requires
            old(self).wf(),
        ensures
            final(self).wf(),
            (final(self)@, r@) == transition(old(self)@, reply@),
    {
        let m = match Message::read_from(reply) {
            Ok(m) => m,
            Err(e) => return Progress::Failed(ResolveError::Decode(e)),
        };
        if m.header.id != self.expected_id {
            return Progress::Failed(ResolveError::IdMismatch);
        }
        let n = self.lookups.len();
        let ghost s = self@;
        assert(s.lookups[n - 1] == self.lookups@[n - 1]@);
        if !self.lookups[n - 1].is_echoed_by(&m) {
            return Progress::Failed(ResolveError::QuestionMismatch);
        }
        let t = self.lookups[n - 1].record_type;
        match next_step(&m, t) {
            Step::Answer(d) => {
                if n == 1 {
                    return Progress::Answer(d);
                }
                if d.len() != 4 {
                    return Progress::Failed(ResolveError::BadAddress);
                }
                let addr = read_address(&d);
                self.lookups.pop();
                let mut parent = self.lookups.pop().unwrap();
                parent.nameserver = addr;
                self.lookups.push(parent);
                assert(self@.lookups =~= with_nameserver(s, s.lookups.drop_last(), n - 2, addr).lookups);
                Progress::Continue
            },
            Step::Glue(d) => {
                if d.len() != 4 {
                    return Progress::Failed(ResolveError::BadAddress);
                }
                let addr = read_address(&d);
                let mut top = self.lookups.pop().unwrap();
                top.nameserver = addr;
                self.lookups.push(top);
                assert(self@.lookups =~= with_nameserver(s, s.lookups, n - 1, addr).lookups);
                Progress::Continue
            },
            Step::Referral(h) => {
                match text_from_utf8(h) {
                    Some(host) => {
                        self.lookups.push(Lookup { name: host, record_type: Type::A, nameserver: self.root });
                        assert(self@.lookups =~= s.lookups.push(
                            LookupView { name: host@, record_type: Type::A, nameserver: s.root },
                        ));
                        Progress::Continue
                    },
                    None => Progress::Failed(ResolveError::BadHostName),
                }
            },
            Step::Exhausted => {
                let top = &self.lookups[n - 1];
                Progress::Failed(
                    ResolveError::DelegationExhausted { name: copy_string(&top.name), record_type: top.record_type },
                )
            },
        }
    }
}

/// The payload picked from the answers of a recursive query for `query`,
/// read in order: an A record for the name sought is taken, replacing any
/// taken before it, and a CNAME record makes its target the name sought.
pub open spec fn follow_answers(rs: Seq<RecordView>, query: Seq<u8>, found: Option<Seq<u8>>) -> Option<Seq<u8>>
    decreases rs.len(),
{
    if rs.len() == 0 {
        found
    } else {
        let r = rs[0];
        if r.record_type == Type::A && r.name == query {
            follow_answers(rs.drop_first(), query, Some(r.data))
        } else if r.record_type == Type::CNAME {
            follow_answers(rs.drop_first(), r.data, found)
        } else {
            follow_answers(rs.drop_first(), query, found)
        }
    }
}

/// Whether two byte strings are equal.
fn same_bytes(a: &[u8], b: &[u8]) -> (r: bool)
    ensures
        r == (a@ == b@),
{
    if a.len() != b.len() {
        return false;
    }
    let mut i: usize = 0;
    while i < a.len()
        invariant
            i <= a@.len() == b@.len(),
            forall|j: int| 0 <= j < i ==> a@[j] == b@[j],
        decreases a@.len() - i,
    {
        if a[i] != b[i] {
            return false;
        }
        i += 1;
    }
    assert(a@ =~= b@);
    true
}

/// The address payload for `name` in the answers of a reply to a recursive
/// query, following CNAME records (see `follow_answers`).
pub fn lookup_answer(reply: &Message, name: &String) -> (r: Option<Vec<u8>>)
    ensures
        r matches Some(v) ==> follow_answers(reply@.answers, name_bytes(name@), None) == Some(v@),
        r is None ==> follow_answers(reply@.answers, name_bytes(name@), None) is None,
{
    let ghost all = reply@.answers;
    let mut query: Vec<u8> = Vec::new();
    copy_bytes(&mut query, name.as_str().as_bytes());
    let mut found: Option<Vec<u8>> = None;
    let mut i: usize = 0;
    let ghost nb = name_bytes(name@);
    assert(all.subrange(0, all.len() as int) =~= all);
    while i < reply.answers.len()
        invariant
            i <= reply.answers@.len(),
            all == reply@.answers,
            all == records_view(reply.answers@),
            follow_answers(all, nb, None) == follow_answers(
                all.subrange(i as int, all.len() as int),
                query@,
                match found {
                    Some(v) => Some(v@),
                    None => None,
                },
            ),
        decreases reply.answers@.len() - i,
    {
        let a = &reply.answers[i];
        let ghost rest = all.subrange(i as int, all.len() as int);
        assert(rest.drop_first() =~= all.subrange(i as int + 1, all.len() as int));
        assert(rest[0] == a@);
        if a.record_type == Type::A && same_bytes(a.name.as_str().as_bytes(), query.as_slice()) {
            found = Some(copy_of(&a.data));
        } else if a.record_type == Type::CNAME {
            query = copy_of(&a.data);
        }
        i += 1;
    }
    assert(all.subrange(i as int, all.len() as int) =~= Seq::<RecordView>::empty());
    found
}

/// An answer of the asked type ends the resolution with its payload, even
/// where the reply also holds authority and glue records that would
/// otherwise redirect it.
pub proof fn lemma_answer_wins(s: ResolverView, reply: Seq<u8>, i: int)
    requires
        s.lookups.len() == 1,
        parse_message(reply) is Ok,
        parse_message(reply)->Ok_0.header.id == s.expected_id,
        echoes(parse_message(reply)->Ok_0, s.lookups[0]),
        first_of_type(parse_message(reply)->Ok_0.answers, s.lookups[0].record_type) == Some(i),
    ensures
        transition(s, reply) == (s, ProgressView::Answer(parse_message(reply)->Ok_0.answers[i].data)),
{
}

/// A reply with empty answer, authority and additional sections ends the
/// resolution: delegation is exhausted for the name and type under way.
pub proof fn lemma_empty_reply_exhausts(s: ResolverView, reply: Seq<u8>)
    requires
        s.lookups.len() > 0,
        parse_message(reply) is Ok,
        parse_message(reply)->Ok_0.header.id == s.expected_id,
        echoes(parse_message(reply)->Ok_0, s.lookups.last()),
        parse_message(reply)->Ok_0.answers.len() == 0,
        parse_message(reply)->Ok_0.authorities.len() == 0,
        parse_message(reply)->Ok_0.additionals.len() == 0,
    ensures
        transition(s, reply) == (
            s,
            ProgressView::Failed(ErrorView::DelegationExhausted(s.lookups.last().name, s.lookups.last().record_type)),
        ),
{
    reveal(first_of_type);
}

/// A reply with no answer but with a glue record moves the lookup under
/// way straight to the glue address: no lookup of a nameserver's name is
/// started.
pub proof fn lemma_glue_needs_no_nested_lookup(s: ResolverView, reply: Seq<u8>, i: int)
    requires
        s.lookups.len() > 0,
        parse_message(reply) is Ok,
        parse_message(reply)->Ok_0.header.id == s.expected_id,
        echoes(parse_message(reply)->Ok_0, s.lookups.last()),
        first_of_type(parse_message(reply)->Ok_0.answers, s.lookups.last().record_type) is None,
        first_of_type(parse_message(reply)->Ok_0.additionals, Type::A) == Some(i),
        parse_message(reply)->Ok_0.additionals[i].data.len() == 4,
    ensures
        transition(s, reply).1 == ProgressView::Continue,
        transition(s, reply).0.lookups.len() == s.lookups.len(),
        transition(s, reply).0.lookups.last() == (LookupView {
            name: s.lookups.last().name,
            record_type: s.lookups.last().record_type,
            nameserver: address_of(parse_message(reply)->Ok_0.additionals[i].data),
        }),
        transition(s, reply).0.lookups.drop_last() == s.lookups.drop_last(),
{
    let t = transition(s, reply).0.lookups;
    assert(t.drop_last() =~= s.lookups.drop_last());
}

/// A referral without glue starts exactly one lookup, of the nameserver's
/// address from the root; once that lookup is answered, the lookup that
/// waited for it is asked again, at the address found.
pub proof fn lemma_referral_starts_one_nested_lookup(
    s: ResolverView,
    first: Seq<u8>,
    id: u16,
    second: Seq<u8>,
    h: Seq<u8>,
    i: int,
)
    requires
        s.lookups.len() > 0,
        parse_message(first) is Ok,
        parse_message(first)->Ok_0.header.id == s.expected_id,
        echoes(parse_message(first)->Ok_0, s.lookups.last()),
        decide(parse_message(first)->Ok_0, s.lookups.last().record_type) == Decision::Referral(h),
        valid_utf8(h),
        parse_message(second) is Ok,
        parse_message(second)->Ok_0.header.id == id,
        echoes(
            parse_message(second)->Ok_0,
            LookupView { name: decode_utf8(h), record_type: Type::A, nameserver: s.root },
        ),
        first_of_type(parse_message(second)->Ok_0.answers, Type::A) == Some(i),
        parse_message(second)->Ok_0.answers[i].data.len() == 4,
    ensures
        transition(s, first).1 == ProgressView::Continue,
        transition(s, first).0.lookups == s.lookups.push(
            LookupView { name: decode_utf8(h), record_type: Type::A, nameserver: s.root },
        ),
        ({
            let mid = transition(s, first).0;
            let resent = ResolverView { lookups: mid.lookups, root: mid.root, hops_left: mid.hops_left, expected_id: id };
            let n = s.lookups.len() - 1;
            &&& transition(resent, second).1 == ProgressView::Continue
            &&& transition(resent, second).0.lookups == s.lookups.update(
                n,
                LookupView {
                    name: s.lookups[n].name,
                    record_type: s.lookups[n].record_type,
                    nameserver: address_of(parse_message(second)->Ok_0.answers[i].data),
                },
            )
        }),
{
    let mid = transition(s, first).0;
    assert(mid.lookups.drop_last() =~= s.lookups);
}

/// A reply never touches the lookups that wait below the one under way and
/// the one just under it: at most the lookup under way is replaced, one
/// lookup is pushed, or the finished lookup is popped and the one under it
/// gets a new nameserver.
pub proof fn lemma_waiting_lookups_kept(s: ResolverView, reply: Seq<u8>)
    requires
        s.lookups.len() > 0,
    ensures
        transition(s, reply).0.lookups.len() + 1 >= s.lookups.len(),
        forall|k: int| 0 <= k < s.lookups.len() - 2 ==> #[trigger] transition(s, reply).0.lookups[k] == s.lookups[k],
        s.lookups.len() >= 2 ==> transition(s, reply).0.lookups[s.lookups.len() - 2].name == s.lookups[s.lookups.len() - 2].name
            && transition(s, reply).0.lookups[s.lookups.len() - 2].record_type == s.lookups[s.lookups.len() - 2].record_type,
{
}

/// When a lookup of a nameserver's address is answered, however many
/// replies it took, it is popped and the lookup that waited for it is asked
/// again at the address found.
pub proof fn lemma_nested_answer_resumes_waiting_lookup(s: ResolverView, reply: Seq<u8>, i: int)
    requires
        s.lookups.len() >= 2,
        parse_message(reply) is Ok,
        parse_message(reply)->Ok_0.header.id == s.expected_id,
        echoes(parse_message(reply)->Ok_0, s.lookups.last()),
        first_of_type(parse_message(reply)->Ok_0.answers, s.lookups.last().record_type) == Some(i),
        parse_message(reply)->Ok_0.answers[i].data.len() == 4,
    ensures
        transition(s, reply).1 == ProgressView::Continue,
        transition(s, reply).0.lookups == s.lookups.drop_last().update(
            s.lookups.len() - 2,
            LookupView {
                name: s.lookups[s.lookups.len() - 2].name,
                record_type: s.lookups[s.lookups.len() - 2].record_type,
                nameserver: address_of(parse_message(reply)->Ok_0.answers[i].data),
            },
        ),
{
}

} // verus!
