//! The reply decoder: a pure function of a byte buffer and a position,
//! which either decodes one reply, asks for more bytes or rejects them.
use vstd::prelude::*;
use vstd::slice::{slice_subrange, slice_to_vec};
use crate::value::{lemma_bulk_view, views, Reply, Value};

verus! {

broadcast use vstd::std_specs::vec::group_vec_axioms;

/// How a line that starts at some position ends, as far as the buffer shows.
pub enum Line {
    /// The line's `\r` stands at this index and `\n` follows it.
    End(int),
    /// The buffer ends before the line does.
    Incomplete,
    /// A bare `\n`, or a `\r` that no `\n` follows.
    Malformed,
}

/// Scans `buf` from `pos` for the `\r\n` that ends a line.
pub open spec fn line_end(buf: Seq<u8>, pos: int) -> Line
    decreases buf.len() - pos,
{
    if pos < 0 || pos >= buf.len() {
        Line::Incomplete
    } else if buf[pos] == 10 {
        Line::Malformed
    } else if buf[pos] == 13 {
        if pos + 1 >= buf.len() {
            Line::Incomplete
        } else if buf[pos + 1] == 10 {
            Line::End(pos)
        } else {
            Line::Malformed
        }
    } else {
        line_end(buf, pos + 1)
    }
}

pub open spec fn is_digit(b: u8) -> bool {
    48 <= b <= 57
}

pub open spec fn all_digits(s: Seq<u8>) -> bool {
    forall|i: int| 0 <= i < s.len() ==> is_digit(#[trigger] s[i])
}

/// The number that the decimal digits `s` stand for.
pub open spec fn digits_value(s: Seq<u8>) -> nat
    decreases s.len(),
{
    if s.len() == 0 {
        0
    } else {
        digits_value(s.drop_last()) * 10 + (s.last() - 48) as nat
    }
}

/// The integer that `s` writes: an optional `-`, then one or more digits.
pub open spec fn int_value(s: Seq<u8>) -> Option<int> {
    if s.len() > 0 && s[0] == 45 {
        let t = s.skip(1);
        if t.len() > 0 && all_digits(t) {
            Some(-(digits_value(t) as int))
        } else {
            None
        }
    } else if s.len() > 0 && all_digits(s) {
        Some(digits_value(s) as int)
    } else {
        None
    }
}

pub open spec fn in_i64(v: int) -> bool {
    i64::MIN <= v <= i64::MAX
}

/// The integer on a header or integer line, where it is one that fits in 64 bits.
pub open spec fn line_int(s: Seq<u8>) -> Option<int> {
    match int_value(s) {
        Some(v) => if in_i64(v) {
            Some(v)
        } else {
            None
        },
        None => None,
    }
}

/// What decoding from a position gives.
pub enum Parse {
    /// A reply, and the position just after its last byte.
    Complete(Reply, int),
    /// The buffer ends before the reply does.
    Incomplete,
    /// The bytes break the protocol.
    Malformed,
}

/// What decoding a run of array elements gives.
pub enum Items {
    Complete(Seq<Reply>, int),
    Incomplete,
    Malformed,
}

/// Decodes one reply that starts at `pos`.
pub open spec fn parse(buf: Seq<u8>, pos: int) -> Parse
    decreases buf.len() - pos, 0int, 0int,
{
    if pos < 0 || pos >= buf.len() {
        Parse::Incomplete
    } else {
        let tag = buf[pos];
        if tag != 43 && tag != 45 && tag != 58 && tag != 36 && tag != 42 {
            Parse::Malformed
        } else {
            match line_end(buf, pos + 1) {
                Line::Incomplete => Parse::Incomplete,
                Line::Malformed => Parse::Malformed,
                Line::End(e) => {
                    let text = buf.subrange(pos + 1, e);
                    let next = e + 2;
                    if e < pos + 1 || next > buf.len() {
                        Parse::Malformed
                    } else if tag == 43 {
                        Parse::Complete(Reply::Status(text), next)
                    } else if tag == 45 {
                        Parse::Complete(Reply::Error(text), next)
                    } else {
                        match line_int(text) {
                            None => Parse::Malformed,
                            Some(n) => if tag == 58 {
                                Parse::Complete(Reply::Int(n), next)
                            } else if n == -1 {
                                Parse::Complete(Reply::Nil, next)
                            } else if n < -1 {
                                Parse::Malformed
                            } else if tag == 36 {
                                if next + n + 2 > buf.len() {
                                    Parse::Incomplete
                                } else if buf[next + n] == 13 && buf[next + n + 1] == 10 {
                                    Parse::Complete(
                                        Reply::Data(buf.subrange(next, next + n)),
                                        next + n + 2,
                                    )
                                } else {
                                    Parse::Malformed
                                }
                            } else {
                                match parse_items(buf, next, n as nat) {
                                    Items::Complete(items, end) => Parse::Complete(
                                        Reply::Bulk(items),
                                        end,
                                    ),
                                    Items::Incomplete => Parse::Incomplete,
                                    Items::Malformed => Parse::Malformed,
                                }
                            },
                        }
                    }
                },
            }
        }
    }
}

/// Decodes `n` replies, one after the other, from `pos`.
pub open spec fn parse_items(buf: Seq<u8>, pos: int, n: nat) -> Items
    decreases buf.len() - pos, 1int, n,
{
    if n == 0 {
        Items::Complete(Seq::empty(), pos)
    } else if pos < 0 || pos > buf.len() {
        Items::Incomplete
    } else {
        match parse(buf, pos) {
            Parse::Complete(r, e) => if e <= pos || e > buf.len() {
                Items::Malformed
            } else {
                match parse_items(buf, e, (n - 1) as nat) {
                    Items::Complete(rs, end) => Items::Complete(seq![r] + rs, end),
                    other => other,
                }
            },
            Parse::Incomplete => Items::Incomplete,
            Parse::Malformed => Items::Malformed,
        }
    }
}

} // verus!

verus! {

/// Outcome of one decoding attempt.
#[derive(Debug, PartialEq, Eq)]
pub enum Decoded {
    /// One reply was decoded.
    Complete(Value),
    /// More bytes are needed; nothing was consumed.
    Incomplete,
    /// The bytes break the protocol; the connection cannot recover.
    Malformed,
}

/// Where the scan for a line end stopped.
enum Scan {
    End(usize),
    Incomplete,
    Malformed,
}

fn find_line_end(buf: &[u8], pos: usize) -> (r: Scan)
    ensures
        match r {
            Scan::End(e) => line_end(buf@, pos as int) == Line::End(e as int),
            Scan::Incomplete => line_end(buf@, pos as int) is Incomplete,
            Scan::Malformed => line_end(buf@, pos as int) is Malformed,
        },
{
    let mut i = pos;
    while i < buf.len()
        invariant
            pos <= i,
            line_end(buf@, pos as int) == line_end(buf@, i as int),
        decreases buf@.len() - i,
    {
        let b = buf[i];
        if b == 10 {
            return Scan::Malformed;
        }
        if b == 13 {
            if i + 1 >= buf.len() {
                return Scan::Incomplete;
            }
            if buf[i + 1] == 10 {
                return Scan::End(i);
            }
            return Scan::Malformed;
        }
        i += 1;
    }
    Scan::Incomplete
}

proof fn lemma_digits_value_mono(t: Seq<u8>, k: int)
    requires
        0 <= k <= t.len(),
    ensures
        digits_value(t.take(k)) <= digits_value(t),
    decreases t.len(),
{
    if k < t.len() {
        lemma_digits_value_mono(t.drop_last(), k);
        assert(t.drop_last().take(k) =~= t.take(k));
    } else {
        assert(t.take(k) =~= t);
    }
}

/// Reads the integer written in `buf[start..end]`, where it fits in 64 bits.
fn parse_int(buf: &[u8], start: usize, end: usize) -> (r: Option<i64>)
    requires
        start <= end <= buf@.len(),
    ensures
        match line_int(buf@.subrange(start as int, end as int)) {
            Some(v) => r == Some(v as i64),
            None => r is None,
        },
{
    let ghost s = buf@.subrange(start as int, end as int);
    if start >= end {
        return None;
    }
    let neg = buf[start] == 45;
    let first: usize = if neg { start + 1 } else { start };
    let ghost t = buf@.subrange(first as int, end as int);
    proof {
        assert(s[0] == buf@[start as int]);
        if neg {
            assert(t =~= s.skip(1));
        } else {
            assert(t =~= s);
        }
    }
    if first >= end {
        return None;
    }
    let limit: u128 = if neg { 9223372036854775808u128 } else { 9223372036854775807u128 };
    let mut acc: u128 = 0;
    let mut i = first;
    while i < end
        invariant
            start <= first <= i <= end <= buf@.len(),
            t == buf@.subrange(first as int, end as int),
            s == buf@.subrange(start as int, end as int),
            s.len() > 0,
            t.len() > 0,
            neg == (s[0] == 45),
            neg ==> t == s.skip(1),
            !neg ==> t == s,
            limit == (if neg {
                9223372036854775808u128
            } else {
                9223372036854775807u128
            }),
            acc == digits_value(t.take(i - first)),
            all_digits(t.take(i - first)),
            acc <= limit,
            limit <= 9223372036854775808u128,
        decreases end - i,
    {
        let b = buf[i];
        if b < 48 || b > 57 {
            assert(!is_digit(t[i - first]));
            return None;
        }
        let ghost k = i - first;
        assert(t.take(k + 1).drop_last() =~= t.take(k));
        acc = acc * 10 + (b - 48) as u128;
        i += 1;
        assert(all_digits(t.take(i - first)));
        if acc > limit {
            proof {
                if all_digits(t) {
                    lemma_digits_value_mono(t, i - first);
                }
            }
            return None;
        }
    }
    assert(t.take(i - first) =~= t);
    if neg {
        Some((0i128 - acc as i128) as i64)
    } else {
        Some(acc as i64)
    }
}

} // verus!

verus! {

proof fn lemma_line_end_bounds(buf: Seq<u8>, pos: int)
    ensures
        line_end(buf, pos) matches Line::End(e) ==> pos <= e && e + 2 <= buf.len(),
    decreases buf.len() - pos,
{
    if 0 <= pos < buf.len() && buf[pos] != 10 && buf[pos] != 13 {
        lemma_line_end_bounds(buf, pos + 1);
    }
}

/// `items` decoded ahead of what `rest` decodes.
pub open spec fn prefixed(items: Seq<Reply>, rest: Items) -> Items {
    match rest {
        Items::Complete(rs, end) => Items::Complete(items + rs, end),
        other => other,
    }
}

fn copy_bytes(buf: &[u8], start: usize, end: usize) -> (r: Vec<u8>)
    requires
        start <= end <= buf@.len(),
    ensures
        r@ == buf@.subrange(start as int, end as int),
{
    slice_to_vec(slice_subrange(buf, start, end))
}

/// Decodes one reply that starts at `pos`, and returns it with the position
/// just after it.
fn parse_at(buf: &[u8], pos: usize) -> (r: (Decoded, usize))
    requires
        pos <= buf@.len(),
    ensures
        match r.0 {
            Decoded::Complete(v) => parse(buf@, pos as int) == Parse::Complete(v@, r.1 as int)
                && pos < r.1 <= buf@.len(),
            Decoded::Incomplete => parse(buf@, pos as int) is Incomplete,
            Decoded::Malformed => parse(buf@, pos as int) is Malformed,
        },
    decreases buf@.len() - pos,
{
    if pos >= buf.len() {
        return (Decoded::Incomplete, pos);
    }
    let tag = buf[pos];
    if tag != 43 && tag != 45 && tag != 58 && tag != 36 && tag != 42 {
        return (Decoded::Malformed, pos);
    }
    let e = match find_line_end(buf, pos + 1) {
        Scan::End(e) => e,
        Scan::Incomplete => {
            return (Decoded::Incomplete, pos);
        },
        Scan::Malformed => {
            return (Decoded::Malformed, pos);
        },
    };
    proof {
        lemma_line_end_bounds(buf@, pos + 1);
    }
    let next = e + 2;
    if tag == 43 {
        return (Decoded::Complete(Value::Status(copy_bytes(buf, pos + 1, e))), next);
    }
    if tag == 45 {
        return (Decoded::Complete(Value::ErrorReply(copy_bytes(buf, pos + 1, e))), next);
    }
    let n = match parse_int(buf, pos + 1, e) {
        Some(n) => n,
        None => {
            return (Decoded::Malformed, pos);
        },
    };
    if tag == 58 {
        return (Decoded::Complete(Value::Integer(n)), next);
    }
    if n == -1 {
        return (Decoded::Complete(Value::Nil), next);
    }
    if n < -1 {
        return (Decoded::Malformed, pos);
    }
    if tag == 36 {
        let avail = buf.len() - next;
        if (n as u64) + 2 > avail as u64 {
            return (Decoded::Incomplete, pos);
        }
        let end = next + n as usize;
        if buf[end] == 13 && buf[end + 1] == 10 {
            return (Decoded::Complete(Value::Data(copy_bytes(buf, next, end))), end + 2);
        }
        return (Decoded::Malformed, pos);
    }
    let count = n as u64;
    let mut items: Vec<Value> = Vec::new();
    let mut p = next;
    let mut i: u64 = 0;
    assert(views(items@) =~= Seq::<Reply>::empty());
    assert(Seq::<Reply>::empty() + Seq::<Reply>::empty() =~= Seq::<Reply>::empty());
    while i < count
        invariant
            pos < next <= p <= buf@.len(),
            i <= count,
            count == n,
            parse(buf@, pos as int) == (match parse_items(buf@, next as int, count as nat) {
                Items::Complete(rs, end) => Parse::Complete(Reply::Bulk(rs), end),
                Items::Incomplete => Parse::Incomplete,
                Items::Malformed => Parse::Malformed,
            }),
            parse_items(buf@, next as int, count as nat) == prefixed(
                views(items@),
                parse_items(buf@, p as int, (count - i) as nat),
            ),
        decreases count - i,
    {
        let ghost a = views(items@);
        let (d, e2) = parse_at(buf, p);
        match d {
            Decoded::Complete(v) => {
                proof {
                    let r = v@;
                    match parse_items(buf@, e2 as int, (count - i - 1) as nat) {
                        Items::Complete(rs, end) => {
                            assert(a + (seq![r] + rs) =~= a.push(r) + rs);
                        },
                        _ => {},
                    }
                }
                items.push(v);
                assert(views(items@) =~= a.push(v@));
                p = e2;
            },
            Decoded::Incomplete => {
                return (Decoded::Incomplete, pos);
            },
            Decoded::Malformed => {
                return (Decoded::Malformed, pos);
            },
        }
        i += 1;
    }
    proof {
        lemma_bulk_view(items);
        assert(views(items@) + Seq::<Reply>::empty() =~= views(items@));
    }
    (Decoded::Complete(Value::Bulk(items)), p)
}

} // verus!

verus! {

/// Decodes one reply from `buf` at `*cursor`. On success the cursor moves
/// just past the reply; when more bytes are needed, or the bytes break the
/// protocol, it stays where it was.
pub fn decode(buf: &[u8], cursor: &mut usize) -> (r: Decoded)
    requires
        *old(cursor) <= buf@.len(),
    ensures
        match parse(buf@, *old(cursor) as int) {
            Parse::Complete(reply, end) => r matches Decoded::Complete(v) && v@ == reply
                && *final(cursor) == end && end <= buf@.len(),
            Parse::Incomplete => r is Incomplete && *final(cursor) == *old(cursor),
            Parse::Malformed => r is Malformed && *final(cursor) == *old(cursor),
        },
{
    let (d, end) = parse_at(buf, *cursor);
    if let Decoded::Complete(_) = &d {
        *cursor = end;
    }
    d
}

} // verus!
