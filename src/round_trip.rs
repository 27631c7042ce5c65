//! What is written reads back: the proof that decoding undoes encoding.

use vstd::prelude::*;
use vstd::utf8::{encode_utf8_valid_utf8, valid_utf8};

use crate::constants::{lemma_class_code_round_trip, lemma_type_code_round_trip};
use crate::domain_name::{
    decode_name_spec, encode_name_spec, first_dot, join_labels, label_run, label_runs, name_labels,
    parse_labels, split_labels, valid_label, valid_name, DOT,
};
use crate::wire::{
    be16, be32, counted_header, counts_fit, encode_message_spec, encode_question_spec, encode_questions_spec,
    encode_record_spec, encode_records_spec, header_bytes, holds_name, parse_header, parse_message,
    parse_question, parse_questions, parse_record, parse_records, payload_spec, u16_at, u32_at, Message,
    MessageView, QuestionView, RecordView,
};

verus! {

/// `buf` holds `e` from `p` on.
pub open spec fn holds_at(buf: Seq<u8>, p: int, e: Seq<u8>) -> bool {
    0 <= p && p + e.len() <= buf.len() && buf.subrange(p, p + e.len()) == e
}

proof fn lemma_holds_split(buf: Seq<u8>, p: int, a: Seq<u8>, b: Seq<u8>)
    requires
        holds_at(buf, p, a + b),
    ensures
        holds_at(buf, p, a),
        holds_at(buf, p + a.len(), b),
{
    assert(buf.subrange(p, p + a.len()) =~= (a + b).subrange(0, a.len() as int));
    assert((a + b).subrange(0, a.len() as int) =~= a);
    assert(buf.subrange(p + a.len(), p + a.len() + b.len()) =~= (a + b).subrange(a.len() as int, (a + b).len() as int));
    assert((a + b).subrange(a.len() as int, (a + b).len() as int) =~= b);
}

proof fn lemma_holds_index(buf: Seq<u8>, p: int, e: Seq<u8>, i: int)
    requires
        holds_at(buf, p, e),
        0 <= i < e.len(),
    ensures
        buf[p + i] == e[i],
{
    assert(buf.subrange(p, p + e.len())[i] == buf[p + i]);
}

proof fn lemma_u16(buf: Seq<u8>, p: int, v: u16)
    requires
        holds_at(buf, p, be16(v)),
    ensures
        u16_at(buf, p) == v,
{
    lemma_holds_index(buf, p, be16(v), 0);
    lemma_holds_index(buf, p, be16(v), 1);
}

proof fn lemma_u32(buf: Seq<u8>, p: int, v: u32)
    requires
        holds_at(buf, p, be32(v)),
    ensures
        u32_at(buf, p) == v,
{
    lemma_holds_index(buf, p, be32(v), 0);
    lemma_holds_index(buf, p, be32(v), 1);
    lemma_holds_index(buf, p, be32(v), 2);
    lemma_holds_index(buf, p, be32(v), 3);
    let x = v as int;
    assert(((x / 0x1000000) * 256 + (x / 0x10000) % 256) * 256 + (x / 256) % 256 == x / 256) by (nonlinear_arith)
        requires
            0 <= x < 0x1_0000_0000,
    ;
    assert((x / 256) * 256 + x % 256 == x) by (nonlinear_arith)
        requires
            0 <= x,
    ;
}

proof fn lemma_label_runs_front(l: Seq<u8>, rest: Seq<Seq<u8>>)
    ensures
        label_runs(seq![l] + rest) == label_run(l) + label_runs(rest),
    decreases rest.len(),
{
    let all = seq![l] + rest;
    if rest.len() == 0 {
        assert(all =~= seq![l]);
        assert(all.drop_last() =~= Seq::<Seq<u8>>::empty());
        assert(all.last() == l);
        assert(label_runs(all) == label_runs(all.drop_last()) + label_run(all.last()));
        assert(label_runs(all.drop_last()) == Seq::<u8>::empty());
        assert(label_run(l) + label_runs(rest) =~= label_run(l));
        assert(label_runs(all) =~= label_run(l));
    } else {
        assert(all.drop_last() =~= seq![l] + rest.drop_last());
        assert(all.last() == rest.last());
        lemma_label_runs_front(l, rest.drop_last());
        assert(label_runs(rest) == label_runs(rest.drop_last()) + label_run(rest.last()));
        assert(label_runs(all) == label_runs(all.drop_last()) + label_run(all.last()));
        assert(label_runs(all) =~= label_run(l) + label_runs(rest));
    }
}

proof fn lemma_parse_label_runs(buf: Seq<u8>, jumps: int, p: int, ls: Seq<Seq<u8>>)
    requires
        0 <= jumps,
        0 <= p,
        forall|k: int| 0 <= k < ls.len() ==> valid_label(#[trigger] ls[k]),
        holds_at(buf, p, label_runs(ls) + seq![0u8]),
    ensures
        parse_labels(buf, jumps, p) == Ok::<(Seq<Seq<u8>>, int), crate::errors::DecodeError>(
            (ls, p + label_runs(ls).len() + 1),
        ),
    decreases ls.len(),
{
    if ls.len() == 0 {
        lemma_holds_index(buf, p, label_runs(ls) + seq![0u8], 0);
        assert(ls =~= Seq::<Seq<u8>>::empty());
        assert(label_runs(ls).len() == 0);
        assert(buf[p] == 0);
    } else {
        let l = ls[0];
        let rest = ls.drop_first();
        assert(ls =~= seq![l] + rest);
        lemma_label_runs_front(l, rest);
        let e = label_runs(ls) + seq![0u8];
        assert(e =~= label_run(l) + (label_runs(rest) + seq![0u8]));
        lemma_holds_split(buf, p, label_run(l), label_runs(rest) + seq![0u8]);
        lemma_holds_index(buf, p, label_run(l), 0);
        assert(valid_label(ls[0]));
        let b = buf[p];
        assert(b as int == l.len());
        assert(buf.subrange(p + 1, p + 1 + b) =~= label_run(l).subrange(1, 1 + l.len() as int));
        assert(label_run(l).subrange(1, 1 + l.len() as int) =~= l);
        assert(label_run(l).len() == 1 + b);
        assert forall|k: int| 0 <= k < rest.len() implies valid_label(#[trigger] rest[k]) by {
            assert(rest[k] == ls[k + 1]);
        }
        lemma_parse_label_runs(buf, jumps, p + 1 + b, rest);
        assert(p < buf.len());
        assert(b != 0 && b < 64);
        assert(p + 1 + b <= buf.len());
        assert(buf.subrange(p + 1, p + 1 + b) == l);
        assert(label_runs(ls).len() == 1 + b + label_runs(rest).len());
    }
}

proof fn lemma_first_dot_bounds(n: Seq<u8>)
    ensures
        first_dot(n) <= n.len(),
        first_dot(n) < n.len() ==> n[first_dot(n) as int] == DOT,
        forall|j: int| 0 <= j < first_dot(n) ==> n[j] != DOT,
    decreases n.len(),
{
    if n.len() > 0 && n[0] != DOT {
        lemma_first_dot_bounds(n.drop_first());
        assert forall|j: int| 0 <= j < first_dot(n) implies n[j] != DOT by {
            if j > 0 {
                assert(n[j] == n.drop_first()[j - 1]);
            }
        }
    }
}

proof fn lemma_split_nonempty(n: Seq<u8>)
    ensures
        split_labels(n).len() >= 1,
    decreases n.len(),
{
    lemma_first_dot_bounds(n);
    let i = first_dot(n);
    if i < n.len() {
        lemma_split_nonempty(n.subrange(i as int + 1, n.len() as int));
    }
}

proof fn lemma_join_front(a: Seq<u8>, ls: Seq<Seq<u8>>)
    requires
        ls.len() >= 1,
    ensures
        join_labels(seq![a] + ls) == a + seq![DOT] + join_labels(ls),
    decreases ls.len(),
{
    let all = seq![a] + ls;
    if ls.len() == 1 {
        assert(all.drop_last() =~= seq![a]);
        assert(all.last() == ls[0]);
        assert(join_labels(seq![a]) == a);
    } else {
        assert(all.last() == ls.last());
        assert(all.drop_last() =~= seq![a] + ls.drop_last());
        lemma_join_front(a, ls.drop_last());
        assert(join_labels(all) =~= a + seq![DOT] + join_labels(ls));
    }
}

proof fn lemma_join_split(n: Seq<u8>)
    ensures
        join_labels(split_labels(n)) == n,
    decreases n.len(),
{
    lemma_first_dot_bounds(n);
    let i = first_dot(n);
    if i < n.len() {
        let rest = n.subrange(i as int + 1, n.len() as int);
        lemma_join_split(rest);
        lemma_split_nonempty(rest);
        lemma_join_front(n.subrange(0, i as int), split_labels(rest));
        assert(n.subrange(0, i as int) + seq![DOT] + rest =~= n);
    }
}

proof fn lemma_join_name_labels(n: Seq<u8>)
    ensures
        join_labels(name_labels(n)) == n,
{
    if n.len() == 0 {
        assert(n =~= Seq::<u8>::empty());
    } else {
        lemma_join_split(n);
    }
}

/// A name is written without compression: its wire form decodes on its own
/// to its labels with no pointer followed, since a budget of no jumps is
/// enough.
pub proof fn lemma_encoding_never_compresses(n: Seq<u8>)
    requires
        valid_name(n),
    ensures
        parse_labels(encode_name_spec(n), 0, 0) == Ok::<(Seq<Seq<u8>>, int), crate::errors::DecodeError>(
            (name_labels(n), encode_name_spec(n).len() as int),
        ),
{
    let e = encode_name_spec(n);
    assert(e.subrange(0, e.len() as int) =~= e);
    lemma_parse_label_runs(e, 0, 0, name_labels(n));
}

/// A name written in the wire form reads back as the same text, wherever
/// it stands in a buffer, and reading ends just after it.
pub proof fn lemma_decode_encoded_name(buf: Seq<u8>, p: int, n: Seq<u8>)
    requires
        valid_name(n),
        valid_utf8(n),
        holds_at(buf, p, encode_name_spec(n)),
    ensures
        decode_name_spec(buf, p) == Ok::<(Seq<u8>, int), crate::errors::DecodeError>((n, p + encode_name_spec(n).len())),
{
    lemma_parse_label_runs(buf, buf.len() as int, p, name_labels(n));
    lemma_join_name_labels(n);
}

proof fn lemma_parse_question(buf: Seq<u8>, p: int, q: QuestionView)
    requires
        encode_question_spec(q) is Ok,
        valid_utf8(q.name),
        holds_at(buf, p, encode_question_spec(q)->Ok_0),
    ensures
        parse_question(buf, p) == Ok::<(QuestionView, int), crate::errors::DecodeError>(
            (q, p + encode_question_spec(q)->Ok_0.len()),
        ),
{
    let ne = encode_name_spec(q.name);
    let t = be16(crate::constants::type_code(q.record_type));
    let c = be16(crate::constants::class_code(q.class));
    lemma_holds_split(buf, p, ne + t, c);
    lemma_holds_split(buf, p, ne, t);
    lemma_decode_encoded_name(buf, p, q.name);
    lemma_u16(buf, p + ne.len(), crate::constants::type_code(q.record_type));
    lemma_u16(buf, p + ne.len() + 2, crate::constants::class_code(q.class));
    lemma_type_code_round_trip(q.record_type);
    lemma_class_code_round_trip(q.class);
}

/// The names in a record are text: its own, and its payload where that is
/// a name.
pub open spec fn record_is_text(r: RecordView) -> bool {
    valid_utf8(r.name) && (holds_name(r.record_type) ==> valid_utf8(r.data))
}

proof fn lemma_parse_record(buf: Seq<u8>, p: int, r: RecordView)
    requires
        encode_record_spec(r) is Ok,
        record_is_text(r),
        holds_at(buf, p, encode_record_spec(r)->Ok_0),
    ensures
        parse_record(buf, p) == Ok::<(RecordView, int), crate::errors::DecodeError>(
            (r, p + encode_record_spec(r)->Ok_0.len()),
        ),
{
    let ne = encode_name_spec(r.name);
    let t = be16(crate::constants::type_code(r.record_type));
    let c = be16(crate::constants::class_code(r.class));
    let tl = be32(r.ttl);
    let pl = payload_spec(r)->Ok_0;
    let ln = be16(pl.len() as u16);
    lemma_holds_split(buf, p, ne + t + c + tl + ln, pl);
    lemma_holds_split(buf, p, ne + t + c + tl, ln);
    lemma_holds_split(buf, p, ne + t + c, tl);
    lemma_holds_split(buf, p, ne + t, c);
    lemma_holds_split(buf, p, ne, t);
    lemma_decode_encoded_name(buf, p, r.name);
    let q = p + ne.len();
    lemma_u16(buf, q, crate::constants::type_code(r.record_type));
    lemma_u16(buf, q + 2, crate::constants::class_code(r.class));
    lemma_u32(buf, q + 4, r.ttl);
    lemma_u16(buf, q + 8, pl.len() as u16);
    lemma_type_code_round_trip(r.record_type);
    lemma_class_code_round_trip(r.class);
    if holds_name(r.record_type) {
        lemma_decode_encoded_name(buf, q + 10, r.data);
    }
}

proof fn lemma_parse_questions(buf: Seq<u8>, p: int, qs: Seq<QuestionView>)
    requires
        encode_questions_spec(qs) is Ok,
        forall|k: int| 0 <= k < qs.len() ==> valid_utf8(#[trigger] qs[k].name),
        holds_at(buf, p, encode_questions_spec(qs)->Ok_0),
    ensures
        parse_questions(buf, p, qs.len()) == Ok::<(Seq<QuestionView>, int), crate::errors::DecodeError>(
            (qs, p + encode_questions_spec(qs)->Ok_0.len()),
        ),
    decreases qs.len(),
{
    if qs.len() == 0 {
        assert(qs =~= Seq::<QuestionView>::empty());
    } else {
        let init = qs.drop_last();
        let a = encode_questions_spec(init)->Ok_0;
        let b = encode_question_spec(qs.last())->Ok_0;
        lemma_holds_split(buf, p, a, b);
        assert forall|k: int| 0 <= k < init.len() implies valid_utf8(#[trigger] init[k].name) by {
            assert(init[k] == qs[k]);
        }
        lemma_parse_questions(buf, p, init);
        assert(valid_utf8(qs[qs.len() - 1].name));
        lemma_parse_question(buf, p + a.len(), qs.last());
        assert(init.push(qs.last()) =~= qs);
        assert(((qs.len() - 1) as nat) == init.len());
    }
}

proof fn lemma_parse_records(buf: Seq<u8>, p: int, rs: Seq<RecordView>)
    requires
        encode_records_spec(rs) is Ok,
        forall|k: int| 0 <= k < rs.len() ==> record_is_text(#[trigger] rs[k]),
        holds_at(buf, p, encode_records_spec(rs)->Ok_0),
    ensures
        parse_records(buf, p, rs.len()) == Ok::<(Seq<RecordView>, int), crate::errors::DecodeError>(
            (rs, p + encode_records_spec(rs)->Ok_0.len()),
        ),
    decreases rs.len(),
{
    if rs.len() == 0 {
        assert(rs =~= Seq::<RecordView>::empty());
    } else {
        let init = rs.drop_last();
        let a = encode_records_spec(init)->Ok_0;
        let b = encode_record_spec(rs.last())->Ok_0;
        lemma_holds_split(buf, p, a, b);
        assert forall|k: int| 0 <= k < init.len() implies record_is_text(#[trigger] init[k]) by {
            assert(init[k] == rs[k]);
        }
        lemma_parse_records(buf, p, init);
        assert(record_is_text(rs[rs.len() - 1]));
        lemma_parse_record(buf, p + a.len(), rs.last());
        assert(init.push(rs.last()) =~= rs);
        assert(((rs.len() - 1) as nat) == init.len());
    }
}

/// The message with the counts of its header set to the lengths of its
/// sections.
pub open spec fn counted(m: MessageView) -> MessageView {
    MessageView {
        header: counted_header(m),
        questions: m.questions,
        answers: m.answers,
        authorities: m.authorities,
        additionals: m.additionals,
    }
}

/// Every name in the message, and every name-valued payload, is text.
pub open spec fn message_is_text(m: MessageView) -> bool {
    (forall|k: int| 0 <= k < m.questions.len() ==> valid_utf8(#[trigger] m.questions[k].name))
        && (forall|k: int| 0 <= k < m.answers.len() ==> record_is_text(#[trigger] m.answers[k]))
        && (forall|k: int| 0 <= k < m.authorities.len() ==> record_is_text(#[trigger] m.authorities[k]))
        && (forall|k: int| 0 <= k < m.additionals.len() ==> record_is_text(#[trigger] m.additionals[k]))
}

proof fn lemma_parse_header(buf: Seq<u8>, h: crate::wire::Header)
    requires
        holds_at(buf, 0, header_bytes(h)),
    ensures
        parse_header(buf, 0) == Ok::<(crate::wire::Header, int), crate::errors::DecodeError>((h, 12)),
{
    let b4 = be16(h.id) + be16(h.flags) + be16(h.num_questions) + be16(h.num_answers);
    lemma_holds_split(buf, 0, b4 + be16(h.num_authorities), be16(h.num_additionals));
    lemma_holds_split(buf, 0, b4, be16(h.num_authorities));
    lemma_holds_split(buf, 0, be16(h.id) + be16(h.flags) + be16(h.num_questions), be16(h.num_answers));
    lemma_holds_split(buf, 0, be16(h.id) + be16(h.flags), be16(h.num_questions));
    lemma_holds_split(buf, 0, be16(h.id), be16(h.flags));
    lemma_u16(buf, 0, h.id);
    lemma_u16(buf, 2, h.flags);
    lemma_u16(buf, 4, h.num_questions);
    lemma_u16(buf, 6, h.num_answers);
    lemma_u16(buf, 8, h.num_authorities);
    lemma_u16(buf, 10, h.num_additionals);
}

proof fn lemma_parse_sections(buf: Seq<u8>, m: MessageView, q: Seq<u8>, a: Seq<u8>, n: Seq<u8>, d: Seq<u8>)
    requires
        counts_fit(m),
        message_is_text(m),
        parse_header(buf, 0) == Ok::<(crate::wire::Header, int), crate::errors::DecodeError>((counted_header(m), 12)),
        encode_questions_spec(m.questions) == Ok::<Seq<u8>, crate::errors::EncodeError>(q),
        encode_records_spec(m.answers) == Ok::<Seq<u8>, crate::errors::EncodeError>(a),
        encode_records_spec(m.authorities) == Ok::<Seq<u8>, crate::errors::EncodeError>(n),
        encode_records_spec(m.additionals) == Ok::<Seq<u8>, crate::errors::EncodeError>(d),
        holds_at(buf, 12, q),
        holds_at(buf, 12 + q.len() as int, a),
        holds_at(buf, 12 + q.len() + a.len() as int, n),
        holds_at(buf, 12 + q.len() + a.len() + n.len() as int, d),
    ensures
        parse_message(buf) == Ok::<MessageView, crate::errors::DecodeError>(counted(m)),
{
    let h = counted_header(m);
    assert(h.num_questions as nat == m.questions.len());
    assert(h.num_answers as nat == m.answers.len());
    assert(h.num_authorities as nat == m.authorities.len());
    assert(h.num_additionals as nat == m.additionals.len());
    let p1: int = 12 + q.len() as int;
    let p2: int = p1 + a.len();
    let p3: int = p2 + n.len();
    lemma_parse_questions(buf, 12, m.questions);
    lemma_parse_records(buf, p1, m.answers);
    lemma_parse_records(buf, p2, m.authorities);
    lemma_parse_records(buf, p3, m.additionals);
}

proof fn lemma_holds_five(buf: Seq<u8>, hb: Seq<u8>, q: Seq<u8>, a: Seq<u8>, n: Seq<u8>, d: Seq<u8>)
    requires
        buf == hb + q + a + n + d,
    ensures
        holds_at(buf, 0, hb),
        holds_at(buf, hb.len() as int, q),
        holds_at(buf, hb.len() + q.len() as int, a),
        holds_at(buf, hb.len() + q.len() + a.len() as int, n),
        holds_at(buf, hb.len() + q.len() + a.len() + n.len() as int, d),
{
    assert(buf.subrange(0, buf.len() as int) =~= buf);
    lemma_holds_split(buf, 0, hb + q + a + n, d);
    lemma_holds_split(buf, 0, hb + q + a, n);
    lemma_holds_split(buf, 0, hb + q, a);
    lemma_holds_split(buf, 0, hb, q);
}

proof fn lemma_round_trip_view(m: MessageView)
    requires
        encode_message_spec(m) is Ok,
        message_is_text(m),
    ensures
        parse_message(encode_message_spec(m)->Ok_0) == Ok::<MessageView, crate::errors::DecodeError>(counted(m)),
{
    let h = counted_header(m);
    let hb = header_bytes(h);
    let q = encode_questions_spec(m.questions)->Ok_0;
    let a = encode_records_spec(m.answers)->Ok_0;
    let n = encode_records_spec(m.authorities)->Ok_0;
    let d = encode_records_spec(m.additionals)->Ok_0;
    let buf = encode_message_spec(m)->Ok_0;
    assert(buf == hb + q + a + n + d);
    assert(hb.len() == 12);
    lemma_holds_five(buf, hb, q, a, n, d);
    lemma_parse_header(buf, h);
    lemma_parse_sections(buf, m, q, a, n, d);
}

/// Writing a message and reading the bytes back gives the message again,
/// except that the header's counts are the lengths of the sections; a
/// CNAME or NS payload comes back as the text that it held, which must
/// therefore be text.
pub proof fn lemma_message_round_trip(m: Message)
    requires
        encode_message_spec(m@) is Ok,
        forall|k: int| 0 <= k < m@.answers.len() && holds_name(#[trigger] m@.answers[k].record_type) ==> valid_utf8(m@.answers[k].data),
        forall|k: int| 0 <= k < m@.authorities.len() && holds_name(#[trigger] m@.authorities[k].record_type) ==> valid_utf8(m@.authorities[k].data),
        forall|k: int| 0 <= k < m@.additionals.len() && holds_name(#[trigger] m@.additionals[k].record_type) ==> valid_utf8(m@.additionals[k].data),
    ensures
        parse_message(encode_message_spec(m@)->Ok_0) == Ok::<MessageView, crate::errors::DecodeError>(counted(m@)),
{
    broadcast use encode_utf8_valid_utf8;

    let v = m@;
    assert forall|k: int| 0 <= k < v.questions.len() implies valid_utf8(#[trigger] v.questions[k].name) by {
        assert(v.questions[k] == m.questions@[k]@);
    }
    assert forall|k: int| 0 <= k < v.answers.len() implies record_is_text(#[trigger] v.answers[k]) by {
        assert(v.answers[k] == m.answers@[k]@);
    }
    assert forall|k: int| 0 <= k < v.authorities.len() implies record_is_text(#[trigger] v.authorities[k]) by {
        assert(v.authorities[k] == m.authorities@[k]@);
    }
    assert forall|k: int| 0 <= k < v.additionals.len() implies record_is_text(#[trigger] v.additionals[k]) by {
        assert(v.additionals[k] == m.additionals@[k]@);
    }
    lemma_round_trip_view(v);
}

} // verus!
