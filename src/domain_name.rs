//! Domain names in the wire format, with compression pointers
//! (RFC 1035, section 4.1.4).

use vstd::prelude::*;
use vstd::utf8::{decode_utf8, encode_utf8, valid_utf8};

use crate::bytes::{copy_bytes, copy_range};
use crate::errors::{DecodeError, EncodeError};
use crate::text::text_from_utf8;

verus! {

/// The byte `.` that separates labels in a name's text.
pub const DOT: u8 = 46;

/// The offset that a compression pointer with octets `hi`, `lo` names.
pub open spec fn pointer_target(hi: u8, lo: u8) -> int {
    (hi as int % 64) * 256 + lo as int
}

/// The labels of the name that starts at `pos`, and the offset just after it
/// in place. A compression pointer must point strictly before its own
/// offset, and at most `jumps` pointers may be followed. Decoding starts
/// with one jump for each byte of the buffer: a decoding that ends never
/// follows the same pointer twice, so the budget refuses no name that
/// decodes, and it ends every loop of pointers.
pub open spec fn parse_labels(buf: Seq<u8>, jumps: int, pos: int) -> Result<(Seq<Seq<u8>>, int), DecodeError>
    decreases jumps, buf.len() - pos,
{
    if !(0 <= jumps && 0 <= pos < buf.len()) {
        Err(DecodeError::Truncated)
    } else {
        let b = buf[pos];
        if b == 0 {
            Ok((Seq::empty(), pos + 1))
        } else if b >= 192 {
            if pos + 1 >= buf.len() {
                Err(DecodeError::Truncated)
            } else {
                let t = pointer_target(b, buf[pos + 1]);
                if t >= pos {
                    Err(DecodeError::BadPointer)
                } else if jumps == 0 {
                    Err(DecodeError::TooManyJumps)
                } else {
                    match parse_labels(buf, jumps - 1, t) {
                        Ok((ls, _)) => Ok((ls, pos + 2)),
                        Err(e) => Err(e),
                    }
                }
            }
        } else if b >= 64 {
            Err(DecodeError::BadLabelLength)
        } else if pos + 1 + b > buf.len() {
            Err(DecodeError::Truncated)
        } else {
            match parse_labels(buf, jumps, pos + 1 + b) {
                Ok((ls, end)) => Ok((seq![buf.subrange(pos + 1, pos + 1 + b)] + ls, end)),
                Err(e) => Err(e),
            }
        }
    }
}

/// Labels joined by dots.
pub open spec fn join_labels(ls: Seq<Seq<u8>>) -> Seq<u8>
    decreases ls.len(),
{
    if ls.len() == 0 {
        Seq::empty()
    } else if ls.len() == 1 {
        ls[0]
    } else {
        join_labels(ls.drop_last()) + seq![DOT] + ls.last()
    }
}

/// The text of the name at `pos` as bytes, and the offset just after it.
pub open spec fn decode_name_spec(buf: Seq<u8>, pos: int) -> Result<(Seq<u8>, int), DecodeError> {
    match parse_labels(buf, buf.len() as int, pos) {
        Err(e) => Err(e),
        Ok((ls, end)) => {
            if valid_utf8(join_labels(ls)) {
                Ok((join_labels(ls), end))
            } else {
                Err(DecodeError::InvalidText)
            }
        },
    }
}

/// A name that starts with a compression pointer to its own offset, or to
/// one after it, is refused as a bad pointer.
pub proof fn lemma_pointer_must_point_back(buf: Seq<u8>, pos: int)
    requires
        0 <= pos,
        pos + 1 < buf.len(),
        buf[pos] >= 192,
        pointer_target(buf[pos], buf[pos + 1]) >= pos,
    ensures
        decode_name_spec(buf, pos) == Err::<(Seq<u8>, int), DecodeError>(DecodeError::BadPointer),
{
}

/// What is left of a parse once `acc` has been read before it, and, where a
/// pointer was followed, the name ended in place at `end`.
pub open spec fn resume(
    acc: Seq<Seq<u8>>,
    jumped: bool,
    end: int,
    r: Result<(Seq<Seq<u8>>, int), DecodeError>,
) -> Result<(Seq<Seq<u8>>, int), DecodeError> {
    match r {
        Err(e) => Err(e),
        Ok((ls, e2)) => Ok((acc + ls, if jumped { end } else { e2 })),
    }
}

/// Reads the labels of the name at `*pos`; on success moves `*pos` past it.
fn read_labels(buf: &[u8], pos: &mut usize) -> (r: Result<Vec<u8>, DecodeError>)
    ensures
        match parse_labels(buf@, buf@.len() as int, *old(pos) as int) {
            Ok((ls, end)) => r matches Ok(v) && v@ == join_labels(ls) && *final(pos) == end,
            Err(e) => r == Err::<Vec<u8>, DecodeError>(e) && *final(pos) == *old(pos),
        },
{
    let mut acc: Vec<u8> = Vec::new();
    let ghost mut acc_labels: Seq<Seq<u8>> = Seq::empty();
    let mut jumps: usize = buf.len();
    let mut p: usize = *pos;
    let mut end: usize = 0;
    let mut jumped = false;
    let mut have_label = false;
    let ghost s0 = *pos as int;
    loop
        invariant
            acc@ == join_labels(acc_labels),
            have_label == (acc_labels.len() > 0),
            *pos == s0,
            s0 == *old(pos),
            parse_labels(buf@, buf@.len() as int, s0) == resume(acc_labels, jumped, end as int, parse_labels(buf@, jumps as int, p as int)),
        decreases jumps, buf@.len() - p,
    {
        if p >= buf.len() {
            return Err(DecodeError::Truncated);
        }
        let b = buf[p];
        if b == 0 {
            assert(acc_labels + Seq::<Seq<u8>>::empty() =~= acc_labels);
            *pos = if jumped { end } else { p + 1 };
            return Ok(acc);
        } else if b >= 192 {
            if p + 1 >= buf.len() {
                return Err(DecodeError::Truncated);
            }
            let t: usize = ((b % 64) as usize) * 256 + buf[p + 1] as usize;
            assert(t as int == pointer_target(b, buf@[p as int + 1]));
            if t >= p {
                return Err(DecodeError::BadPointer);
            }
            if jumps == 0 {
                return Err(DecodeError::TooManyJumps);
            }
            if !jumped {
                end = p + 2;
                jumped = true;
            }
            jumps = jumps - 1;
            p = t;
        } else if b >= 64 {
            return Err(DecodeError::BadLabelLength);
        } else {
            let len = b as usize;
            if len > buf.len() - p - 1 {
                return Err(DecodeError::Truncated);
            }
            let ghost label = buf@.subrange(p as int + 1, p as int + 1 + len);
            if have_label {
                acc.push(DOT);
            }
            copy_range(&mut acc, buf, p + 1, p + 1 + len);
            proof {
                let next = acc_labels.push(label);
                assert(next.drop_last() =~= acc_labels);
                if acc_labels.len() == 0 {
                    assert(acc@ =~= label);
                } else {
                    assert(acc@ =~= join_labels(acc_labels) + seq![DOT] + label);
                }
                match parse_labels(buf@, jumps as int, p as int + 1 + len) {
                    Ok((ls, e2)) => {
                        assert(acc_labels + (seq![label] + ls) =~= next + ls);
                    },
                    Err(_) => {},
                }
                acc_labels = next;
            }
            have_label = true;
            p = p + 1 + len;
        }
    }
}

/// Reads the name at `*pos` of a whole message `buf`, following compression
/// pointers, and moves `*pos` just past the name as it stands in place. On
/// failure `*pos` is left as it was.
pub fn decode_name(buf: &[u8], pos: &mut usize) -> (r: Result<String, DecodeError>)
    ensures
        match decode_name_spec(buf@, *old(pos) as int) {
            Ok((text, end)) => r matches Ok(s) && s@ == decode_utf8(text) && *final(pos) == end,
            Err(e) => r == Err::<String, DecodeError>(e) && *final(pos) == *old(pos),
        },
{
    let p0 = *pos;
    let bytes = read_labels(buf, pos)?;
    match text_from_utf8(bytes) {
        Some(s) => Ok(s),
        None => {
            *pos = p0;
            Err(DecodeError::InvalidText)
        },
    }
}

/// The index of the first dot in `n`, or its length where it has none.
pub open spec fn first_dot(n: Seq<u8>) -> nat
    decreases n.len(),
{
    if n.len() == 0 {
        0
    } else if n[0] == DOT {
        0
    } else {
        1 + first_dot(n.drop_first())
    }
}

/// The pieces of `n` between dots.
pub open spec fn split_labels(n: Seq<u8>) -> Seq<Seq<u8>>
    decreases n.len(),
{
    let i = first_dot(n);
    if i >= n.len() {
        seq![n]
    } else {
        seq![n.subrange(0, i as int)] + split_labels(n.subrange(i as int + 1, n.len() as int))
    }
}

/// The labels of a name's text: none for the root (the empty text).
pub open spec fn name_labels(n: Seq<u8>) -> Seq<Seq<u8>> {
    if n.len() == 0 {
        Seq::empty()
    } else {
        split_labels(n)
    }
}

/// A label that the wire format can hold.
pub open spec fn valid_label(l: Seq<u8>) -> bool {
    1 <= l.len() <= 63
}

/// A name's text that can be written: each label holds 1 to 63 bytes.
pub open spec fn valid_name(n: Seq<u8>) -> bool {
    forall|k: int| 0 <= k < name_labels(n).len() ==> valid_label(#[trigger] name_labels(n)[k])
}

/// One label, preceded by its length.
pub open spec fn label_run(l: Seq<u8>) -> Seq<u8> {
    seq![l.len() as u8] + l
}

/// Labels, each preceded by its length.
pub open spec fn label_runs(ls: Seq<Seq<u8>>) -> Seq<u8>
    decreases ls.len(),
{
    if ls.len() == 0 {
        Seq::empty()
    } else {
        label_runs(ls.drop_last()) + label_run(ls.last())
    }
}

/// The wire form of a name's text: its labels, then a zero octet.
pub open spec fn encode_name_spec(n: Seq<u8>) -> Seq<u8> {
    label_runs(name_labels(n)) + seq![0u8]
}

/// The text of a name as UTF-8 bytes.
pub open spec fn name_bytes(s: Seq<char>) -> Seq<u8> {
    encode_utf8(s)
}

proof fn lemma_first_dot(s: Seq<u8>, k: int)
    requires
        0 <= k <= s.len(),
        forall|j: int| 0 <= j < k ==> s[j] != DOT,
        k == s.len() || s[k] == DOT,
    ensures
        first_dot(s) == k,
    decreases k,
{
    if k > 0 {
        lemma_first_dot(s.drop_first(), k - 1);
    }
}

/// Writes the name whose text is `bytes` as length-prefixed labels and a
/// zero octet, never with a compression pointer. Empty text is the root, a
/// lone zero octet. Fails where a label is empty or longer than 63 bytes.
/// On failure `out` is left as it was.
pub fn encode_name_bytes(bytes: &[u8], out: &mut Vec<u8>) -> (r: Result<(), EncodeError>)
    ensures
        r is Ok <==> valid_name(bytes@),
        r is Ok ==> final(out)@ == old(out)@ + encode_name_spec(bytes@),
        r matches Err(e) ==> e == EncodeError::BadLabel && final(out)@ == old(out)@,
{
    let mut wire: Vec<u8> = Vec::new();
    write_labels(bytes, &mut wire)?;
    assert(wire@ =~= Seq::<u8>::empty() + encode_name_spec(bytes@));
    copy_bytes(out, wire.as_slice());
    Ok(())
}

/// Appends the wire form of the name whose text is `bytes`; on failure what
/// was appended so far stays.
fn write_labels(bytes: &[u8], out: &mut Vec<u8>) -> (r: Result<(), EncodeError>)
    ensures
        r is Ok <==> valid_name(bytes@),
        r is Ok ==> final(out)@ == old(out)@ + encode_name_spec(bytes@),
        r matches Err(e) ==> e == EncodeError::BadLabel,
{
    let ghost nb = bytes@;
    let n = bytes.len();
    if n == 0 {
        out.push(0);
        assert(out@ =~= old(out)@ + encode_name_spec(nb));
        return Ok(());
    }
    let mut st: usize = 0;
    let mut i: usize = 0;
    let ghost mut done: Seq<Seq<u8>> = Seq::empty();
    assert(bytes@.subrange(0, n as int) =~= bytes@);
    loop
        invariant
            n == bytes@.len(),
            bytes@ == nb,
            n > 0,
            0 <= st <= i <= n,
            split_labels(nb) == done + split_labels(nb.subrange(st as int, n as int)),
            forall|k: int| 0 <= k < done.len() ==> valid_label(#[trigger] done[k]),
            out@ == old(out)@ + label_runs(done),
            forall|j: int| st <= j < i ==> nb[j] != DOT,
        decreases n - i,
    {
        if i == n || bytes[i] == DOT {
            let ghost sub = nb.subrange(st as int, n as int);
            let ghost label = nb.subrange(st as int, i as int);
            proof {
                lemma_first_dot(sub, i - st);
                assert(sub.subrange(0, i - st) =~= label);
                if i < n {
                    assert(sub.subrange(i - st + 1, sub.len() as int) =~= nb.subrange(i as int + 1, n as int));
                }
                assert(split_labels(sub)[0] == label);
                assert(split_labels(nb)[done.len() as int] == label);
            }
            let len = i - st;
            if len == 0 || len > 63 {
                assert(!valid_label(name_labels(nb)[done.len() as int]));
                return Err(EncodeError::BadLabel);
            }
            out.push(len as u8);
            copy_range(out, bytes, st, i);
            proof {
                let next = done.push(label);
                assert(next.drop_last() =~= done);
                assert(out@ =~= old(out)@ + label_runs(next));
                if i < n {
                    assert(done + split_labels(sub) =~= next + split_labels(nb.subrange(i as int + 1, n as int)));
                } else {
                    assert(done + split_labels(sub) =~= next);
                }
                done = next;
            }
            if i == n {
                out.push(0);
                assert(out@ =~= old(out)@ + encode_name_spec(nb));
                return Ok(());
            }
            st = i + 1;
            i = i + 1;
        } else {
            i += 1;
        }
    }
}

/// Writes `name` as length-prefixed labels and a zero octet (see
/// `encode_name_bytes`).
pub fn encode_name(name: &String, out: &mut Vec<u8>) -> (r: Result<(), EncodeError>)
    ensures
        r is Ok <==> valid_name(name_bytes(name@)),
        r is Ok ==> final(out)@ == old(out)@ + encode_name_spec(name_bytes(name@)),
        r matches Err(e) ==> e == EncodeError::BadLabel && final(out)@ == old(out)@,
{
    encode_name_bytes(name.as_str().as_bytes(), out)
}

} // verus!
