//! The DNS message envelope: header, questions and resource records
//! (RFC 1035, section 4.1), read from and written to bytes.

use vstd::prelude::*;

use crate::constants::{class_code, class_of_code, type_code, type_of_code, Class, Type};
use crate::domain_name::{
    decode_name, decode_name_spec, encode_name, encode_name_bytes, encode_name_spec, name_bytes,
    valid_name,
};
use crate::bytes::{copy_bytes, copy_range};
use crate::errors::{DecodeError, EncodeError};

verus! {

broadcast use vstd::utf8::decode_utf8_encode_utf8;

/// The header (RFC 1035, section 4.1.1).
#[derive(Clone, Copy, Debug, PartialEq, Eq, Structural)]
pub struct Header {
    pub id: u16,
    pub flags: u16,
    pub num_questions: u16,
    pub num_answers: u16,
    pub num_authorities: u16,
    pub num_additionals: u16,
}

/// A question (RFC 1035, section 4.1.2).
#[derive(Clone, Debug)]
pub struct Question {
    pub name: String,
    pub record_type: Type,
    pub class: Class,
}

/// A resource record (RFC 1035, section 4.1.3). For CNAME and NS records
/// `data` holds the text of the name that the record points to.
#[derive(Clone, Debug)]
pub struct ResourceRecord {
    pub name: String,
    pub record_type: Type,
    pub class: Class,
    pub ttl: u32,
    pub data: Vec<u8>,
}

/// A message (RFC 1035, section 4.1).
#[derive(Clone, Debug)]
pub struct Message {
    pub header: Header,
    pub questions: Vec<Question>,
    pub answers: Vec<ResourceRecord>,
    pub authorities: Vec<ResourceRecord>,
    pub additionals: Vec<ResourceRecord>,
}

/// A question as values: its name is the UTF-8 bytes of its text.
pub struct QuestionView {
    pub name: Seq<u8>,
    pub record_type: Type,
    pub class: Class,
}

/// A resource record as values.
pub struct RecordView {
    pub name: Seq<u8>,
    pub record_type: Type,
    pub class: Class,
    pub ttl: u32,
    pub data: Seq<u8>,
}

/// A message as values.
pub struct MessageView {
    pub header: Header,
    pub questions: Seq<QuestionView>,
    pub answers: Seq<RecordView>,
    pub authorities: Seq<RecordView>,
    pub additionals: Seq<RecordView>,
}

impl View for Question {
    type V = QuestionView;

    open spec fn view(&self) -> QuestionView {
        QuestionView { name: name_bytes(self.name@), record_type: self.record_type, class: self.class }
    }
}

impl View for ResourceRecord {
    type V = RecordView;

    open spec fn view(&self) -> RecordView {
        RecordView {
            name: name_bytes(self.name@),
            record_type: self.record_type,
            class: self.class,
            ttl: self.ttl,
            data: self.data@,
        }
    }
}

/// The values of a list of records.
pub open spec fn records_view(rs: Seq<ResourceRecord>) -> Seq<RecordView> {
    rs.map_values(|r: ResourceRecord| r@)
}

impl View for Message {
    type V = MessageView;

    open spec fn view(&self) -> MessageView {
        MessageView {
            header: self.header,
            questions: self.questions@.map_values(|q: Question| q@),
            answers: records_view(self.answers@),
            authorities: records_view(self.authorities@),
            additionals: records_view(self.additionals@),
        }
    }
}

// ---------------------------------------------------------------------------
// Integers

/// The big-endian 16-bit integer at `pos`.
pub open spec fn u16_at(buf: Seq<u8>, pos: int) -> u16 {
    (buf[pos] as int * 256 + buf[pos + 1] as int) as u16
}

/// The big-endian 32-bit integer at `pos`.
pub open spec fn u32_at(buf: Seq<u8>, pos: int) -> u32 {
    (((buf[pos] as int * 256 + buf[pos + 1] as int) * 256 + buf[pos + 2] as int) * 256
        + buf[pos + 3] as int) as u32
}

/// A 16-bit integer, big-endian.
pub open spec fn be16(v: u16) -> Seq<u8> {
    seq![(v / 256) as u8, (v % 256) as u8]
}

/// A 32-bit integer, big-endian.
pub open spec fn be32(v: u32) -> Seq<u8> {
    seq![(v / 0x1000000) as u8, ((v / 0x10000) % 256) as u8, ((v / 256) % 256) as u8, (v % 256) as u8]
}

fn read_u16_at(buf: &[u8], p: usize) -> (r: u16)
    requires
        p + 2 <= buf@.len(),
    ensures
        r == u16_at(buf@, p as int),
{
    (buf[p] as u16) * 256 + buf[p + 1] as u16
}

fn read_u32_at(buf: &[u8], p: usize) -> (r: u32)
    requires
        p + 4 <= buf@.len(),
    ensures
        r == u32_at(buf@, p as int),
{
    (((buf[p] as u32) * 256 + buf[p + 1] as u32) * 256 + buf[p + 2] as u32) * 256 + buf[p + 3] as u32
}

fn write_u16(out: &mut Vec<u8>, v: u16)
    ensures
        final(out)@ == old(out)@ + be16(v),
{
    out.push((v / 256) as u8);
    out.push((v % 256) as u8);
    assert(final(out)@ =~= old(out)@ + be16(v));
}

fn write_u32(out: &mut Vec<u8>, v: u32)
    ensures
        final(out)@ == old(out)@ + be32(v),
{
    out.push((v / 0x1000000) as u8);
    out.push(((v / 0x10000) % 256) as u8);
    out.push(((v / 256) % 256) as u8);
    out.push((v % 256) as u8);
    assert(final(out)@ =~= old(out)@ + be32(v));
}

// ---------------------------------------------------------------------------
// Reading

/// The header at `pos`, and the offset after it.
pub open spec fn parse_header(buf: Seq<u8>, pos: int) -> Result<(Header, int), DecodeError> {
    if pos + 12 > buf.len() {
        Err(DecodeError::Truncated)
    } else {
        Ok((
            Header {
                id: u16_at(buf, pos),
                flags: u16_at(buf, pos + 2),
                num_questions: u16_at(buf, pos + 4),
                num_answers: u16_at(buf, pos + 6),
                num_authorities: u16_at(buf, pos + 8),
                num_additionals: u16_at(buf, pos + 10),
            },
            pos + 12,
        ))
    }
}

/// The question at `pos`, and the offset after it.
pub open spec fn parse_question(buf: Seq<u8>, pos: int) -> Result<(QuestionView, int), DecodeError> {
    match decode_name_spec(buf, pos) {
        Err(e) => Err(e),
        Ok((name, p)) => {
            if p + 4 > buf.len() {
                Err(DecodeError::Truncated)
            } else {
                match type_of_code(u16_at(buf, p)) {
                    None => Err(DecodeError::UnknownType(u16_at(buf, p))),
                    Some(t) => match class_of_code(u16_at(buf, p + 2)) {
                        None => Err(DecodeError::UnknownClass(u16_at(buf, p + 2))),
                        Some(c) => Ok((QuestionView { name, record_type: t, class: c }, p + 4)),
                    },
                }
            }
        },
    }
}

/// Whether a record's payload is a name.
pub open spec fn holds_name(t: Type) -> bool {
    t == Type::CNAME || t == Type::NS
}

/// The payload of a record of type `t` that starts at `pos` with declared
/// length `len`, and the offset after it. A name-valued payload is decoded as
/// a name and its declared length is not consulted.
pub open spec fn parse_payload(buf: Seq<u8>, pos: int, t: Type, len: u16) -> Result<(Seq<u8>, int), DecodeError> {
    if holds_name(t) {
        decode_name_spec(buf, pos)
    } else if pos + len > buf.len() {
        Err(DecodeError::Truncated)
    } else {
        Ok((buf.subrange(pos, pos + len), pos + len))
    }
}

/// The resource record at `pos`, and the offset after it.
pub open spec fn parse_record(buf: Seq<u8>, pos: int) -> Result<(RecordView, int), DecodeError> {
    match decode_name_spec(buf, pos) {
        Err(e) => Err(e),
        Ok((name, p)) => {
            if p + 10 > buf.len() {
                Err(DecodeError::Truncated)
            } else {
                match type_of_code(u16_at(buf, p)) {
                    None => Err(DecodeError::UnknownType(u16_at(buf, p))),
                    Some(t) => match class_of_code(u16_at(buf, p + 2)) {
                        None => Err(DecodeError::UnknownClass(u16_at(buf, p + 2))),
                        Some(c) => match parse_payload(buf, p + 10, t, u16_at(buf, p + 8)) {
                            Err(e) => Err(e),
                            Ok((data, q)) => Ok((
                                RecordView { name, record_type: t, class: c, ttl: u32_at(buf, p + 4), data },
                                q,
                            )),
                        },
                    },
                }
            }
        },
    }
}

/// `n` questions in a row from `pos`, and the offset after them.
pub open spec fn parse_questions(buf: Seq<u8>, pos: int, n: nat) -> Result<(Seq<QuestionView>, int), DecodeError>
    decreases n,
{
    if n == 0 {
        Ok((Seq::empty(), pos))
    } else {
        match parse_questions(buf, pos, (n - 1) as nat) {
            Err(e) => Err(e),
            Ok((qs, p)) => match parse_question(buf, p) {
                Err(e) => Err(e),
                Ok((q, p2)) => Ok((qs.push(q), p2)),
            },
        }
    }
}

/// `n` resource records in a row from `pos`, and the offset after them.
pub open spec fn parse_records(buf: Seq<u8>, pos: int, n: nat) -> Result<(Seq<RecordView>, int), DecodeError>
    decreases n,
{
    if n == 0 {
        Ok((Seq::empty(), pos))
    } else {
        match parse_records(buf, pos, (n - 1) as nat) {
            Err(e) => Err(e),
            Ok((rs, p)) => match parse_record(buf, p) {
                Err(e) => Err(e),
                Ok((r, p2)) => Ok((rs.push(r), p2)),
            },
        }
    }
}

/// The message that `buf` holds: a header, then as many questions, answers,
/// authorities and additionals as the header counts. Bytes after them are
/// not looked at.
pub open spec fn parse_message(buf: Seq<u8>) -> Result<MessageView, DecodeError> {
    match parse_header(buf, 0) {
        Err(e) => Err(e),
        Ok((h, p0)) => match parse_questions(buf, p0, h.num_questions as nat) {
            Err(e) => Err(e),
            Ok((qs, p1)) => match parse_records(buf, p1, h.num_answers as nat) {
                Err(e) => Err(e),
                Ok((ans, p2)) => match parse_records(buf, p2, h.num_authorities as nat) {
                    Err(e) => Err(e),
                    Ok((auth, p3)) => match parse_records(buf, p3, h.num_additionals as nat) {
                        Err(e) => Err(e),
                        Ok((add, _)) => Ok(
                            MessageView { header: h, questions: qs, answers: ans, authorities: auth, additionals: add },
                        ),
                    },
                },
            },
        },
    }
}

impl Header {
    /// Reads the twelve header bytes at `*pos` and moves `*pos` past them.
    pub fn read_from(buf: &[u8], pos: &mut usize) -> (r: Result<Header, DecodeError>)
        ensures
            match parse_header(buf@, *old(pos) as int) {
                Ok((h, end)) => r == Ok::<Header, DecodeError>(h) && *final(pos) == end,
                Err(e) => r == Err::<Header, DecodeError>(e) && *final(pos) == *old(pos),
            },
    {
        let p = *pos;
        if p > buf.len() || buf.len() - p < 12 {
            return Err(DecodeError::Truncated);
        }
        let h = Header {
            id: read_u16_at(buf, p),
            flags: read_u16_at(buf, p + 2),
            num_questions: read_u16_at(buf, p + 4),
            num_answers: read_u16_at(buf, p + 6),
            num_authorities: read_u16_at(buf, p + 8),
            num_additionals: read_u16_at(buf, p + 10),
        };
        *pos = p + 12;
        Ok(h)
    }
}

impl Question {
    /// Reads the question at `*pos` and moves `*pos` past it; on failure
    /// `*pos` is left as it was.
    pub fn read_from(buf: &[u8], pos: &mut usize) -> (r: Result<Question, DecodeError>)
        ensures
            match parse_question(buf@, *old(pos) as int) {
                Ok((q, end)) => r matches Ok(v) && v@ == q && *final(pos) == end,
                Err(e) => r matches Err(x) && x == e && *final(pos) == *old(pos),
            },
    {
        let mut cur: usize = *pos;
        let name = decode_name(buf, &mut cur)?;
        let p = cur;
        if p > buf.len() || buf.len() - p < 4 {
            return Err(DecodeError::Truncated);
        }
        let t = read_u16_at(buf, p);
        let record_type = match Type::from_code(t) {
            Some(v) => v,
            None => return Err(DecodeError::UnknownType(t)),
        };
        let c = read_u16_at(buf, p + 2);
        let class = match Class::from_code(c) {
            Some(v) => v,
            None => return Err(DecodeError::UnknownClass(c)),
        };
        *pos = p + 4;
        Ok(Question { name, record_type, class })
    }
}

impl ResourceRecord {
    /// Reads the resource record at `*pos` and moves `*pos` past it; on
    /// failure `*pos` is left as it was.
    pub fn read_from(buf: &[u8], pos: &mut usize) -> (r: Result<ResourceRecord, DecodeError>)
        ensures
            match parse_record(buf@, *old(pos) as int) {
                Ok((rec, end)) => r matches Ok(v) && v@ == rec && *final(pos) == end,
                Err(e) => r matches Err(x) && x == e && *final(pos) == *old(pos),
            },
    {
        let mut cur: usize = *pos;
        let name = decode_name(buf, &mut cur)?;
        let p = cur;
        if p > buf.len() || buf.len() - p < 10 {
            return Err(DecodeError::Truncated);
        }
        let t = read_u16_at(buf, p);
        let record_type = match Type::from_code(t) {
            Some(v) => v,
            None => return Err(DecodeError::UnknownType(t)),
        };
        let c = read_u16_at(buf, p + 2);
        let class = match Class::from_code(c) {
            Some(v) => v,
            None => return Err(DecodeError::UnknownClass(c)),
        };
        let ttl = read_u32_at(buf, p + 4);
        let len = read_u16_at(buf, p + 8) as usize;
        let q = p + 10;
        let data = match record_type {
            Type::CNAME | Type::NS => {
                cur = q;
                let text = decode_name(buf, &mut cur)?;
                *pos = cur;
                let bytes = text.as_str().as_bytes();
                let mut v: Vec<u8> = Vec::new();
                copy_bytes(&mut v, bytes);
                v
            },
            _ => {
                if len > buf.len() - q {
                    return Err(DecodeError::Truncated);
                }
                let mut v: Vec<u8> = Vec::new();
                copy_range(&mut v, buf, q, q + len);
                *pos = q + len;
                v
            },
        };
        Ok(ResourceRecord { name, record_type, class, ttl, data })
    }
}

proof fn lemma_records_err_stays(buf: Seq<u8>, pos: int, k: nat, n: nat)
    requires
        k <= n,
        parse_records(buf, pos, k) is Err,
    ensures
        parse_records(buf, pos, n) == parse_records(buf, pos, k),
    decreases n - k,
{
    if k < n {
        lemma_records_err_stays(buf, pos, k, (n - 1) as nat);
    }
}

proof fn lemma_questions_err_stays(buf: Seq<u8>, pos: int, k: nat, n: nat)
    requires
        k <= n,
        parse_questions(buf, pos, k) is Err,
    ensures
        parse_questions(buf, pos, n) == parse_questions(buf, pos, k),
    decreases n - k,
{
    if k < n {
        lemma_questions_err_stays(buf, pos, k, (n - 1) as nat);
    }
}

/// Reads `n` records in a row from `*pos`.
fn read_records(buf: &[u8], pos: &mut usize, n: u16) -> (r: Result<Vec<ResourceRecord>, DecodeError>)
    ensures
        match parse_records(buf@, *old(pos) as int, n as nat) {
            Ok((rs, end)) => r matches Ok(v) && records_view(v@) == rs && *final(pos) == end,
            Err(e) => r matches Err(x) && x == e,
        },
{
    let mut out: Vec<ResourceRecord> = Vec::new();
    let mut i: u16 = 0;
    assert(records_view(out@) =~= Seq::<RecordView>::empty());
    while i < n
        invariant
            i <= n,
            parse_records(buf@, *old(pos) as int, i as nat) == Ok::<(Seq<RecordView>, int), DecodeError>(
                (records_view(out@), *pos as int),
            ),
        decreases n - i,
    {
        let ghost before = out@;
        let ghost p = *pos;
        let res = ResourceRecord::read_from(buf, pos);
        let rec = match res {
            Ok(rec) => rec,
            Err(e) => {
                proof {
                    lemma_records_err_stays(buf@, *old(pos) as int, (i + 1) as nat, n as nat);
                }
                return Err(e);
            },
        };
        out.push(rec);
        proof {
            assert(records_view(out@) =~= records_view(before).push(rec@));
        }
        i += 1;
    }
    Ok(out)
}

impl Message {
    /// Reads the message that `buf` holds from its first byte: the header,
    /// then as many questions, answers, authorities and additionals as the
    /// header counts.
    pub fn read_from(buf: &[u8]) -> (r: Result<Message, DecodeError>)
        ensures
            match parse_message(buf@) {
                Ok(m) => r matches Ok(v) && v@ == m,
                Err(e) => r matches Err(x) && x == e,
            },
    {
        let mut pos: usize = 0;
        let header = Header::read_from(buf, &mut pos)?;
        let mut questions: Vec<Question> = Vec::new();
        let mut i: u16 = 0;
        let ghost p0 = pos as int;
        assert(questions@.map_values(|q: Question| q@) =~= Seq::<QuestionView>::empty());
        while i < header.num_questions
            invariant
                i <= header.num_questions,
                parse_header(buf@, 0) == Ok::<(Header, int), DecodeError>((header, p0)),
                parse_questions(buf@, p0, i as nat) == Ok::<(Seq<QuestionView>, int), DecodeError>(
                    (questions@.map_values(|q: Question| q@), pos as int),
                ),
            decreases header.num_questions - i,
        {
            let ghost before = questions@;
            let q = match Question::read_from(buf, &mut pos) {
                Ok(q) => q,
                Err(e) => {
                    proof {
                        lemma_questions_err_stays(buf@, p0, (i + 1) as nat, header.num_questions as nat);
                    }
                    return Err(e);
                },
            };
            questions.push(q);
            proof {
                assert(questions@.map_values(|q: Question| q@) =~= before.map_values(|q: Question| q@).push(q@));
            }
            i += 1;
        }
        let answers = read_records(buf, &mut pos, header.num_answers)?;
        let authorities = read_records(buf, &mut pos, header.num_authorities)?;
        let additionals = read_records(buf, &mut pos, header.num_additionals)?;
        Ok(Message { header, questions, answers, authorities, additionals })
    }
}

// ---------------------------------------------------------------------------
// Writing

/// The twelve header bytes.
pub open spec fn header_bytes(h: Header) -> Seq<u8> {
    be16(h.id) + be16(h.flags) + be16(h.num_questions) + be16(h.num_answers) + be16(h.num_authorities)
        + be16(h.num_additionals)
}

/// The wire form of a question.
pub open spec fn encode_question_spec(q: QuestionView) -> Result<Seq<u8>, EncodeError> {
    if !valid_name(q.name) {
        Err(EncodeError::BadLabel)
    } else {
        Ok(encode_name_spec(q.name) + be16(type_code(q.record_type)) + be16(class_code(q.class)))
    }
}

/// The payload bytes of a record: a name-valued payload as a name in the
/// wire form, any other as it is.
pub open spec fn payload_spec(r: RecordView) -> Result<Seq<u8>, EncodeError> {
    if holds_name(r.record_type) {
        if valid_name(r.data) {
            Ok(encode_name_spec(r.data))
        } else {
            Err(EncodeError::BadLabel)
        }
    } else {
        Ok(r.data)
    }
}

/// The wire form of a resource record; its length field is that of the
/// payload bytes.
pub open spec fn encode_record_spec(r: RecordView) -> Result<Seq<u8>, EncodeError> {
    if !valid_name(r.name) {
        Err(EncodeError::BadLabel)
    } else {
        match payload_spec(r) {
            Err(e) => Err(e),
            Ok(p) => {
                if p.len() > 65535 {
                    Err(EncodeError::PayloadTooLong)
                } else {
                    Ok(encode_name_spec(r.name) + be16(type_code(r.record_type)) + be16(class_code(r.class))
                        + be32(r.ttl) + be16(p.len() as u16) + p)
                }
            },
        }
    }
}

/// Questions in the wire form, one after another.
pub open spec fn encode_questions_spec(qs: Seq<QuestionView>) -> Result<Seq<u8>, EncodeError>
    decreases qs.len(),
{
    if qs.len() == 0 {
        Ok(Seq::empty())
    } else {
        match encode_questions_spec(qs.drop_last()) {
            Err(e) => Err(e),
            Ok(a) => match encode_question_spec(qs.last()) {
                Err(e) => Err(e),
                Ok(b) => Ok(a + b),
            },
        }
    }
}

/// Resource records in the wire form, one after another.
pub open spec fn encode_records_spec(rs: Seq<RecordView>) -> Result<Seq<u8>, EncodeError>
    decreases rs.len(),
{
    if rs.len() == 0 {
        Ok(Seq::empty())
    } else {
        match encode_records_spec(rs.drop_last()) {
            Err(e) => Err(e),
            Ok(a) => match encode_record_spec(rs.last()) {
                Err(e) => Err(e),
                Ok(b) => Ok(a + b),
            },
        }
    }
}

/// The header with each count set to the length of its section.
pub open spec fn counted_header(m: MessageView) -> Header {
    Header {
        id: m.header.id,
        flags: m.header.flags,
        num_questions: m.questions.len() as u16,
        num_answers: m.answers.len() as u16,
        num_authorities: m.authorities.len() as u16,
        num_additionals: m.additionals.len() as u16,
    }
}

/// Whether each section holds at most 65535 entries.
pub open spec fn counts_fit(m: MessageView) -> bool {
    m.questions.len() <= 65535 && m.answers.len() <= 65535 && m.authorities.len() <= 65535
        && m.additionals.len() <= 65535
}

/// The wire form of a message: the counts in its header are those of its
/// sections, whatever the header held.
pub open spec fn encode_message_spec(m: MessageView) -> Result<Seq<u8>, EncodeError> {
    if !counts_fit(m) {
        Err(EncodeError::TooManyEntries)
    } else {
        match encode_questions_spec(m.questions) {
            Err(e) => Err(e),
            Ok(q) => match encode_records_spec(m.answers) {
                Err(e) => Err(e),
                Ok(a) => match encode_records_spec(m.authorities) {
                    Err(e) => Err(e),
                    Ok(n) => match encode_records_spec(m.additionals) {
                        Err(e) => Err(e),
                        Ok(d) => Ok(header_bytes(counted_header(m)) + q + a + n + d),
                    },
                },
            },
        }
    }
}

impl Header {
    /// Writes the header's six fields, big-endian.
    pub fn write_to(&self, out: &mut Vec<u8>)
        ensures
            final(out)@ == old(out)@ + header_bytes(*self),
    {
        write_u16(out, self.id);
        write_u16(out, self.flags);
        write_u16(out, self.num_questions);
        write_u16(out, self.num_answers);
        write_u16(out, self.num_authorities);
        write_u16(out, self.num_additionals);
        assert(out@ =~= old(out)@ + header_bytes(*self));
    }
}

impl Question {
    /// Writes the question: its name without compression, its type and class.
    /// On failure `out` is left as it was.
    pub fn write_to(&self, out: &mut Vec<u8>) -> (r: Result<(), EncodeError>)
        ensures
            match encode_question_spec(self@) {
                Ok(b) => r is Ok && final(out)@ == old(out)@ + b,
                Err(e) => r == Err::<(), EncodeError>(e) && final(out)@ == old(out)@,
            },
    {
        let mut bytes: Vec<u8> = Vec::new();
        encode_name(&self.name, &mut bytes)?;
        write_u16(&mut bytes, self.record_type.code());
        write_u16(&mut bytes, self.class.code());
        assert(bytes@ =~= encode_question_spec(self@)->Ok_0);
        copy_bytes(out, bytes.as_slice());
        Ok(())
    }
}

impl ResourceRecord {
    /// Writes the record: its name without compression, type, class, TTL,
    /// the payload's length and the payload. A CNAME or NS payload is written
    /// as a name. On failure `out` is left as it was.
    pub fn write_to(&self, out: &mut Vec<u8>) -> (r: Result<(), EncodeError>)
        ensures
            match encode_record_spec(self@) {
                Ok(b) => r is Ok && final(out)@ == old(out)@ + b,
                Err(e) => r == Err::<(), EncodeError>(e) && final(out)@ == old(out)@,
            },
    {
        let mut bytes: Vec<u8> = Vec::new();
        encode_name(&self.name, &mut bytes)?;
        let mut payload: Vec<u8> = Vec::new();
        match self.record_type {
            Type::CNAME | Type::NS => {
                encode_name_bytes(self.data.as_slice(), &mut payload)?;
            },
            _ => {
                copy_bytes(&mut payload, self.data.as_slice());
            },
        }
        assert(payload@ == payload_spec(self@)->Ok_0);
        if payload.len() > 65535 {
            return Err(EncodeError::PayloadTooLong);
        }
        write_u16(&mut bytes, self.record_type.code());
        write_u16(&mut bytes, self.class.code());
        write_u32(&mut bytes, self.ttl);
        write_u16(&mut bytes, payload.len() as u16);
        copy_bytes(&mut bytes, payload.as_slice());
        assert(bytes@ =~= encode_record_spec(self@)->Ok_0);
        copy_bytes(out, bytes.as_slice());
        Ok(())
    }
}

proof fn lemma_records_enc_err_stays(rs: Seq<RecordView>, k: int)
    requires
        0 <= k <= rs.len(),
        encode_records_spec(rs.subrange(0, k)) is Err,
    ensures
        encode_records_spec(rs) == encode_records_spec(rs.subrange(0, k)),
    decreases rs.len() - k,
{
    if k < rs.len() {
        assert(rs.drop_last().subrange(0, k) =~= rs.subrange(0, k));
        lemma_records_enc_err_stays(rs.drop_last(), k);
    } else {
        assert(rs.subrange(0, k) =~= rs);
    }
}

proof fn lemma_questions_enc_err_stays(qs: Seq<QuestionView>, k: int)
    requires
        0 <= k <= qs.len(),
        encode_questions_spec(qs.subrange(0, k)) is Err,
    ensures
        encode_questions_spec(qs) == encode_questions_spec(qs.subrange(0, k)),
    decreases qs.len() - k,
{
    if k < qs.len() {
        assert(qs.drop_last().subrange(0, k) =~= qs.subrange(0, k));
        lemma_questions_enc_err_stays(qs.drop_last(), k);
    } else {
        assert(qs.subrange(0, k) =~= qs);
    }
}

/// Writes records one after another.
fn write_records(rs: &Vec<ResourceRecord>, out: &mut Vec<u8>) -> (r: Result<(), EncodeError>)
    ensures
        match encode_records_spec(records_view(rs@)) {
            Ok(b) => r is Ok && final(out)@ == old(out)@ + b,
            Err(e) => r == Err::<(), EncodeError>(e),
        },
{
    let ghost v = records_view(rs@);
    let ghost mut acc: Seq<u8> = Seq::empty();
    let mut i: usize = 0;
    assert(v.subrange(0, 0) =~= Seq::<RecordView>::empty());
    assert(out@ =~= old(out)@ + acc);
    while i < rs.len()
        invariant
            i <= rs@.len(),
            v == records_view(rs@),
            encode_records_spec(v.subrange(0, i as int)) == Ok::<Seq<u8>, EncodeError>(acc),
            out@ == old(out)@ + acc,
        decreases rs@.len() - i,
    {
        let ghost before = out@;
        assert(v.subrange(0, i as int + 1).drop_last() =~= v.subrange(0, i as int));
        match rs[i].write_to(out) {
            Ok(()) => {},
            Err(e) => {
                proof {
                    lemma_records_enc_err_stays(v, i as int + 1);
                }
                return Err(e);
            },
        }
        proof {
            let b = encode_record_spec(v[i as int])->Ok_0;
            assert(out@ =~= old(out)@ + (acc + b));
            acc = acc + b;
        }
        i += 1;
    }
    assert(v.subrange(0, i as int) =~= v);
    Ok(())
}

impl Message {
    /// Appends the message to `buffer`, with header counts taken from the
    /// lengths of the sections. On failure `buffer` is left as it was.
    pub fn write_to(&self, buffer: &mut Vec<u8>) -> (r: Result<(), EncodeError>)
        ensures
            match encode_message_spec(self@) {
                Ok(b) => r is Ok && final(buffer)@ == old(buffer)@ + b,
                Err(e) => r == Err::<(), EncodeError>(e) && final(buffer)@ == old(buffer)@,
            },
    {
        if self.questions.len() > 65535 || self.answers.len() > 65535 || self.authorities.len() > 65535
            || self.additionals.len() > 65535 {
            return Err(EncodeError::TooManyEntries);
        }
        let header = Header {
            id: self.header.id,
            flags: self.header.flags,
            num_questions: self.questions.len() as u16,
            num_answers: self.answers.len() as u16,
            num_authorities: self.authorities.len() as u16,
            num_additionals: self.additionals.len() as u16,
        };
        assert(header == counted_header(self@));
        let mut out: Vec<u8> = Vec::new();
        header.write_to(&mut out);
        let ghost qv = self@.questions;
        let ghost mut acc: Seq<u8> = Seq::empty();
        let mut i: usize = 0;
        assert(qv.subrange(0, 0) =~= Seq::<QuestionView>::empty());
        assert(out@ =~= header_bytes(header) + acc);
        while i < self.questions.len()
            invariant
                i <= self.questions@.len(),
                qv == self@.questions,
                counts_fit(self@),
                encode_questions_spec(qv.subrange(0, i as int)) == Ok::<Seq<u8>, EncodeError>(acc),
                out@ == header_bytes(header) + acc,
            decreases self.questions@.len() - i,
        {
            assert(qv.subrange(0, i as int + 1).drop_last() =~= qv.subrange(0, i as int));
            match self.questions[i].write_to(&mut out) {
                Ok(()) => {},
                Err(e) => {
                    proof {
                        lemma_questions_enc_err_stays(qv, i as int + 1);
                    }
                    return Err(e);
                },
            }
            proof {
                let b = encode_question_spec(qv[i as int])->Ok_0;
                assert(out@ =~= header_bytes(header) + (acc + b));
                acc = acc + b;
            }
            i += 1;
        }
        assert(qv.subrange(0, i as int) =~= qv);
        write_records(&self.answers, &mut out)?;
        write_records(&self.authorities, &mut out)?;
        write_records(&self.additionals, &mut out)?;
        copy_bytes(buffer, out.as_slice());
        Ok(())
    }
}

} // verus!
