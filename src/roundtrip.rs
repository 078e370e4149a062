//! How a server writes each reply, and the proof that the decoder reads
//! back exactly the reply that was written, from a whole encoding or not
//! at all from a cut one.
use vstd::prelude::*;
use crate::resp::{bulk_string, bulk_strings, crlf, request, decimal, digit_char, lemma_digits_match_text};
use crate::parser::{
    all_digits, digits_value, in_i64, int_value, is_digit, line_end, line_int, parse, parse_items,
    Items, Line, Parse,
};
use crate::value::Reply;

verus! {

broadcast use vstd::seq::group_seq_axioms;

/// The text of an integer: `-` for a negative one, then its decimal digits.
pub open spec fn int_text(v: int) -> Seq<u8> {
    if v < 0 {
        seq![45u8] + decimal((-v) as nat)
    } else {
        decimal(v as nat)
    }
}

/// The bytes a server sends for `r`.
pub open spec fn encode_reply(r: Reply) -> Seq<u8>
    decreases r,
{
    match r {
        Reply::Nil => seq![36u8, 45u8, 49u8, 13u8, 10u8],
        Reply::Int(v) => seq![58u8] + int_text(v) + crlf(),
        Reply::Data(b) => bulk_string(b),
        Reply::Status(s) => seq![43u8] + s + crlf(),
        Reply::Error(s) => seq![45u8] + s + crlf(),
        Reply::Bulk(items) => seq![42u8] + decimal(items.len()) + crlf() + encode_items(items),
    }
}

/// The encodings of `items`, one after the other.
pub open spec fn encode_items(items: Seq<Reply>) -> Seq<u8>
    decreases items,
{
    if items.len() == 0 {
        Seq::empty()
    } else {
        encode_reply(items[0]) + encode_items(items.skip(1))
    }
}

/// A line of text holds neither `\r` nor `\n`.
pub open spec fn plain_line(s: Seq<u8>) -> bool {
    forall|i: int| 0 <= i < s.len() ==> #[trigger] s[i] != 13 && s[i] != 10
}

/// A reply that a server can send: integers fit in 64 bits, status and
/// error texts are single lines, and lengths fit the length prefix.
pub open spec fn sendable(r: Reply) -> bool
    decreases r,
{
    match r {
        Reply::Nil => true,
        Reply::Int(v) => in_i64(v),
        Reply::Data(b) => b.len() <= i64::MAX,
        Reply::Status(s) => plain_line(s),
        Reply::Error(s) => plain_line(s),
        Reply::Bulk(items) => items.len() <= i64::MAX && all_sendable(items),
    }
}

pub open spec fn all_sendable(items: Seq<Reply>) -> bool
    decreases items,
{
    items.len() > 0 ==> sendable(items[0]) && all_sendable(items.skip(1))
}

proof fn lemma_decimal_digits(n: nat)
    ensures
        decimal(n).len() > 0,
        all_digits(decimal(n)),
        digits_value(decimal(n)) == n,
    decreases n,
{
    assert(digit_char(n % 10) == 48 + n % 10);
    assert(digits_value(Seq::<u8>::empty()) == 0);
    if n < 10 {
        let d = decimal(n);
        assert(d.drop_last() =~= Seq::<u8>::empty());
        assert(digits_value(d) == n);
    } else {
        lemma_decimal_digits(n / 10);
        let d = decimal(n);
        assert(d.drop_last() =~= decimal(n / 10));
        assert forall|i: int| 0 <= i < d.len() implies is_digit(#[trigger] d[i]) by {
            if i < d.len() - 1 {
                assert(d[i] == decimal(n / 10)[i]);
            }
        }
    }
}

proof fn lemma_int_text(v: int)
    requires
        in_i64(v),
    ensures
        line_int(int_text(v)) == Some(v),
        plain_line(int_text(v)),
        int_text(v).len() > 0,
{
    let t = int_text(v);
    if v < 0 {
        let m = (-v) as nat;
        lemma_decimal_digits(m);
        assert(t.skip(1) =~= decimal(m));
        assert(int_value(t) == Some(-(m as int)));
        assert forall|i: int| 0 <= i < t.len() implies #[trigger] t[i] != 13 && t[i] != 10 by {
            if i > 0 {
                assert(t[i] == decimal(m)[i - 1]);
                assert(is_digit(decimal(m)[i - 1]));
            }
        }
    } else {
        lemma_decimal_digits(v as nat);
        assert(is_digit(t[0]));
        assert forall|i: int| 0 <= i < t.len() implies #[trigger] t[i] != 13 && t[i] != 10 by {
            assert(is_digit(t[i]));
        }
    }
}

proof fn lemma_line_end_found(buf: Seq<u8>, p: int, q: int)
    requires
        0 <= p <= q,
        q + 1 < buf.len(),
        buf[q] == 13,
        buf[q + 1] == 10,
        forall|k: int| p <= k < q ==> #[trigger] buf[k] != 13 && buf[k] != 10,
    ensures
        line_end(buf, p) == Line::End(q),
    decreases q - p,
{
    if p < q {
        lemma_line_end_found(buf, p + 1, q);
    }
}

/// The bytes of `buf` from `pos` on start with the whole of `enc`.
pub open spec fn holds_at(buf: Seq<u8>, pos: int, enc: Seq<u8>) -> bool {
    0 <= pos && pos + enc.len() <= buf.len() && buf.subrange(pos, pos + enc.len()) == enc
}

proof fn lemma_holds_at_index(buf: Seq<u8>, pos: int, enc: Seq<u8>, k: int)
    requires
        holds_at(buf, pos, enc),
        0 <= k < enc.len(),
    ensures
        buf[pos + k] == enc[k],
{
    assert(buf.subrange(pos, pos + enc.len())[k] == buf[pos + k]);
}

/// A text line `s` written at `pos + 1` after one tag byte ends where the
/// text does.
proof fn lemma_text_line(buf: Seq<u8>, pos: int, tag: u8, s: Seq<u8>)
    requires
        holds_at(buf, pos, seq![tag] + s + crlf()),
        plain_line(s),
    ensures
        buf[pos] == tag,
        line_end(buf, pos + 1) == Line::End(pos + 1 + s.len()),
        buf.subrange(pos + 1, pos + 1 + s.len()) == s,
{
    let enc = seq![tag] + s + crlf();
    lemma_holds_at_index(buf, pos, enc, 0);
    lemma_holds_at_index(buf, pos, enc, 1 + s.len() as int);
    lemma_holds_at_index(buf, pos, enc, 2 + s.len() as int);
    assert forall|k: int| pos + 1 <= k < pos + 1 + s.len() implies #[trigger] buf[k] != 13
        && buf[k] != 10 by {
        lemma_holds_at_index(buf, pos, enc, k - pos);
        assert(enc[k - pos] == s[k - pos - 1]);
    }
    lemma_line_end_found(buf, pos + 1, pos + 1 + s.len());
    assert(buf.subrange(pos + 1, pos + 1 + s.len()) =~= s) by {
        assert forall|k: int| 0 <= k < s.len() implies buf.subrange(pos + 1, pos + 1 + s.len())[k]
            == s[k] by {
            lemma_holds_at_index(buf, pos, enc, k + 1);
        }
    }
}

proof fn lemma_holds_at_split(buf: Seq<u8>, pos: int, a: Seq<u8>, b: Seq<u8>)
    requires
        holds_at(buf, pos, a + b),
    ensures
        holds_at(buf, pos, a),
        holds_at(buf, pos + a.len(), b),
{
    assert(buf.subrange(pos, pos + a.len()) =~= (a + b).subrange(0, a.len() as int));
    assert((a + b).subrange(0, a.len() as int) =~= a);
    assert(buf.subrange(pos + a.len(), pos + a.len() + b.len()) =~= (a + b).subrange(
        a.len() as int,
        (a + b).len() as int,
    ));
    assert((a + b).subrange(a.len() as int, (a + b).len() as int) =~= b);
}

/// The decoder reads back every reply a server can send: where the bytes
/// at `pos` are the encoding of `r`, decoding there gives `r` and stops
/// just after those bytes, whatever follows them.
pub proof fn lemma_parse_encoded(buf: Seq<u8>, pos: int, r: Reply)
    requires
        sendable(r),
        holds_at(buf, pos, encode_reply(r)),
    ensures
        parse(buf, pos) == Parse::Complete(r, pos + encode_reply(r).len()),
    decreases r,
{
    let enc = encode_reply(r);
    lemma_holds_at_index(buf, pos, enc, 0);
    match r {
        Reply::Nil => {
            assert(enc =~= seq![36u8] + seq![45u8, 49u8] + crlf());
            lemma_text_line(buf, pos, 36u8, seq![45u8, 49u8]);
            assert(seq![45u8, 49u8].skip(1) =~= seq![49u8]);
            assert(seq![49u8].drop_last() =~= Seq::<u8>::empty());
            assert(digits_value(Seq::<u8>::empty()) == 0);
            assert(digits_value(seq![49u8]) == 1);
            assert(int_value(seq![45u8, 49u8]) == Some(-1int));
        },
        Reply::Int(v) => {
            lemma_int_text(v);
            lemma_text_line(buf, pos, 58u8, int_text(v));
        },
        Reply::Status(s) => {
            lemma_text_line(buf, pos, 43u8, s);
        },
        Reply::Error(s) => {
            lemma_text_line(buf, pos, 45u8, s);
        },
        Reply::Data(b) => {
            let n = b.len();
            let head = seq![36u8] + decimal(n) + crlf();
            lemma_int_text(n as int);
            assert(enc =~= head + (b + crlf()));
            lemma_holds_at_split(buf, pos, head, b + crlf());
            lemma_text_line(buf, pos, 36u8, decimal(n));
            lemma_digits_match_text(n);
            let next = pos + head.len();
            lemma_holds_at_index(buf, next, b + crlf(), n as int);
            lemma_holds_at_index(buf, next, b + crlf(), n as int + 1);
            assert(buf.subrange(next, next + n) =~= b) by {
                assert forall|k: int| 0 <= k < n implies buf.subrange(next, next + n)[k] == b[k] by {
                    lemma_holds_at_index(buf, next, b + crlf(), k);
                }
            }
        },
        Reply::Bulk(items) => {
            let n = items.len();
            let head = seq![42u8] + decimal(n) + crlf();
            lemma_int_text(n as int);
            lemma_holds_at_split(buf, pos, head, encode_items(items));
            lemma_text_line(buf, pos, 42u8, decimal(n));
            lemma_parse_encoded_items(buf, pos + head.len(), items);
        },
    }
}

/// Decoding the encodings of `items`, one after the other, gives `items`.
pub proof fn lemma_parse_encoded_items(buf: Seq<u8>, pos: int, items: Seq<Reply>)
    requires
        all_sendable(items),
        holds_at(buf, pos, encode_items(items)),
    ensures
        parse_items(buf, pos, items.len()) == Items::Complete(
            items,
            pos + encode_items(items).len(),
        ),
    decreases items,
{
    if items.len() == 0 {
        assert(items =~= Seq::<Reply>::empty());
    } else {
        let first = encode_reply(items[0]);
        let rest = encode_items(items.skip(1));
        lemma_holds_at_split(buf, pos, first, rest);
        lemma_parse_encoded(buf, pos, items[0]);
        lemma_holds_at_index(buf, pos, first, 0);
        lemma_parse_encoded_items(buf, pos + first.len(), items.skip(1));
        assert(seq![items[0]] + items.skip(1) =~= items);
    }
}

proof fn lemma_encode_items_push(items: Seq<Reply>, x: Reply)
    ensures
        encode_items(items.push(x)) == encode_items(items) + encode_reply(x),
    decreases items.len(),
{
    if items.len() == 0 {
        assert(items.push(x).skip(1) =~= Seq::<Reply>::empty());
        assert(encode_items(items.push(x).skip(1)) == Seq::<u8>::empty());
        assert(encode_items(items) == Seq::<u8>::empty());
        assert(encode_items(items.push(x)) =~= encode_items(items) + encode_reply(x));
    } else {
        lemma_encode_items_push(items.skip(1), x);
        assert(items.push(x).skip(1) =~= items.skip(1).push(x));
        assert(encode_items(items.push(x)) =~= encode_items(items) + encode_reply(x));
    }
}

/// The byte strings of a request as bulk-string replies.
pub open spec fn as_data(parts: Seq<Seq<u8>>) -> Seq<Reply> {
    parts.map_values(|b: Seq<u8>| Reply::Data(b))
}

proof fn lemma_bulk_strings_as_items(parts: Seq<Seq<u8>>)
    ensures
        bulk_strings(parts) == encode_items(as_data(parts)),
    decreases parts.len(),
{
    if parts.len() == 0 {
        assert(as_data(parts) =~= Seq::<Reply>::empty());
    } else {
        lemma_bulk_strings_as_items(parts.drop_last());
        assert(as_data(parts) =~= as_data(parts.drop_last()).push(Reply::Data(parts.last())));
        lemma_encode_items_push(as_data(parts.drop_last()), Reply::Data(parts.last()));
    }
}

proof fn lemma_all_sendable_data(parts: Seq<Seq<u8>>)
    requires
        forall|i: int| 0 <= i < parts.len() ==> #[trigger] parts[i].len() <= i64::MAX,
    ensures
        all_sendable(as_data(parts)),
    decreases parts.len(),
{
    if parts.len() > 0 {
        assert(parts[0].len() <= i64::MAX);
        assert(as_data(parts)[0] == Reply::Data(parts[0]));
        assert(as_data(parts).skip(1) =~= as_data(parts.skip(1)));
        assert forall|i: int| 0 <= i < parts.skip(1).len() implies #[trigger] parts.skip(1)[i].len()
            <= i64::MAX by {
            assert(parts.skip(1)[i] == parts[i + 1]);
        }
        lemma_all_sendable_data(parts.skip(1));
        assert(sendable(as_data(parts)[0]));
        assert(all_sendable(as_data(parts).skip(1)));
    }
}

/// A request is itself a reply in the protocol's grammar: decoding it gives
/// the array of its parts as bulk strings, and consumes it whole.
pub proof fn lemma_request_decodes(parts: Seq<Seq<u8>>)
    requires
        parts.len() <= i64::MAX,
        forall|i: int| 0 <= i < parts.len() ==> #[trigger] parts[i].len() <= i64::MAX,
    ensures
        request(parts) == encode_reply(Reply::Bulk(as_data(parts))),
        parse(request(parts), 0) == Parse::Complete(
            Reply::Bulk(as_data(parts)),
            request(parts).len() as int,
        ),
{
    lemma_bulk_strings_as_items(parts);
    lemma_all_sendable_data(parts);
    let r = Reply::Bulk(as_data(parts));
    assert(request(parts) == encode_reply(r));
    assert(request(parts).subrange(0, request(parts).len() as int) =~= request(parts));
    lemma_parse_encoded(request(parts), 0, r);
}

/// The bytes from `pos` to the end of `buf` are a proper prefix of `enc`.
pub open spec fn cut_at(buf: Seq<u8>, pos: int, enc: Seq<u8>) -> bool {
    0 <= pos <= buf.len() < pos + enc.len() && buf.subrange(pos, buf.len() as int) == enc.take(
        buf.len() - pos,
    )
}

proof fn lemma_cut_index(buf: Seq<u8>, pos: int, enc: Seq<u8>, k: int)
    requires
        cut_at(buf, pos, enc),
        0 <= k,
        pos + k < buf.len(),
    ensures
        buf[pos + k] == enc[k],
{
    assert(buf.subrange(pos, buf.len() as int)[k] == buf[pos + k]);
    assert(enc.take(buf.len() - pos)[k] == enc[k]);
}

proof fn lemma_cut_split(buf: Seq<u8>, pos: int, a: Seq<u8>, b: Seq<u8>)
    requires
        cut_at(buf, pos, a + b),
    ensures
        buf.len() < pos + a.len() ==> cut_at(buf, pos, a),
        buf.len() >= pos + a.len() ==> holds_at(buf, pos, a) && cut_at(buf, pos + a.len(), b),
{
    let ab = a + b;
    if buf.len() < pos + a.len() {
        assert(buf.subrange(pos, buf.len() as int) =~= a.take(buf.len() - pos)) by {
            assert forall|k: int| 0 <= k < buf.len() - pos implies buf.subrange(
                pos,
                buf.len() as int,
            )[k] == a.take(buf.len() - pos)[k] by {
                lemma_cut_index(buf, pos, ab, k);
            }
        }
    } else {
        assert(buf.subrange(pos, pos + a.len()) =~= a) by {
            assert forall|k: int| 0 <= k < a.len() implies buf.subrange(pos, pos + a.len())[k]
                == a[k] by {
                lemma_cut_index(buf, pos, ab, k);
            }
        }
        let q = pos + a.len();
        assert(buf.subrange(q, buf.len() as int) =~= b.take(buf.len() - q)) by {
            assert forall|k: int| 0 <= k < buf.len() - q implies buf.subrange(
                q,
                buf.len() as int,
            )[k] == b.take(buf.len() - q)[k] by {
                lemma_cut_index(buf, pos, ab, k + a.len());
            }
        }
    }
}

proof fn lemma_line_end_incomplete(buf: Seq<u8>, p: int)
    requires
        0 <= p <= buf.len(),
        forall|k: int| p <= k < buf.len() ==> #[trigger] buf[k] != 10,
        forall|k: int| p <= k < buf.len() && #[trigger] buf[k] == 13 ==> k + 1 == buf.len(),
    ensures
        line_end(buf, p) is Incomplete,
    decreases buf.len() - p,
{
    if p < buf.len() && buf[p] != 13 {
        lemma_line_end_incomplete(buf, p + 1);
    }
}

/// A text line cut before its `\n` is not finished.
proof fn lemma_line_cut(buf: Seq<u8>, pos: int, tag: u8, s: Seq<u8>)
    requires
        cut_at(buf, pos, seq![tag] + s + crlf()),
        plain_line(s),
        pos < buf.len(),
    ensures
        buf[pos] == tag,
        line_end(buf, pos + 1) is Incomplete,
{
    let enc = seq![tag] + s + crlf();
    lemma_cut_index(buf, pos, enc, 0);
    assert forall|k: int| pos + 1 <= k < buf.len() implies #[trigger] buf[k] != 10 && (buf[k]
        == 13 ==> k + 1 == buf.len()) by {
        lemma_cut_index(buf, pos, enc, k - pos);
        if k - pos <= s.len() {
            assert(enc[k - pos] == s[k - pos - 1]);
        }
    }
    lemma_line_end_incomplete(buf, pos + 1);
}

/// A cut encoding is never taken for a whole reply nor rejected: where the
/// bytes from `pos` to the end of `buf` are a proper prefix of the encoding
/// of `r`, decoding there asks for more bytes.
pub proof fn lemma_parse_truncated(buf: Seq<u8>, pos: int, r: Reply)
    requires
        sendable(r),
        cut_at(buf, pos, encode_reply(r)),
    ensures
        parse(buf, pos) is Incomplete,
    decreases r,
{
    if pos < buf.len() {
        match r {
            Reply::Nil => {
                assert(encode_reply(r) =~= seq![36u8] + seq![45u8, 49u8] + crlf());
                lemma_line_cut(buf, pos, 36u8, seq![45u8, 49u8]);
            },
            Reply::Int(v) => {
                lemma_int_text(v);
                lemma_line_cut(buf, pos, 58u8, int_text(v));
            },
            Reply::Status(s) => {
                lemma_line_cut(buf, pos, 43u8, s);
            },
            Reply::Error(s) => {
                lemma_line_cut(buf, pos, 45u8, s);
            },
            Reply::Data(b) => {
                let n = b.len();
                let head = seq![36u8] + decimal(n) + crlf();
                lemma_int_text(n as int);
                lemma_digits_match_text(n);
                assert(encode_reply(r) =~= head + (b + crlf()));
                lemma_cut_split(buf, pos, head, b + crlf());
                if buf.len() < pos + head.len() {
                    lemma_line_cut(buf, pos, 36u8, decimal(n));
                } else {
                    lemma_text_line(buf, pos, 36u8, decimal(n));
                }
            },
            Reply::Bulk(items) => {
                let n = items.len();
                let head = seq![42u8] + decimal(n) + crlf();
                lemma_int_text(n as int);
                lemma_cut_split(buf, pos, head, encode_items(items));
                if buf.len() < pos + head.len() {
                    lemma_line_cut(buf, pos, 42u8, decimal(n));
                } else {
                    lemma_text_line(buf, pos, 42u8, decimal(n));
                    lemma_parse_truncated_items(buf, pos + head.len(), items);
                }
            },
        }
    }
}

/// A cut run of encodings asks for more bytes too.
pub proof fn lemma_parse_truncated_items(buf: Seq<u8>, pos: int, items: Seq<Reply>)
    requires
        all_sendable(items),
        cut_at(buf, pos, encode_items(items)),
    ensures
        parse_items(buf, pos, items.len()) is Incomplete,
    decreases items,
{
    let first = encode_reply(items[0]);
    let rest = encode_items(items.skip(1));
    lemma_cut_split(buf, pos, first, rest);
    if buf.len() < pos + first.len() {
        lemma_parse_truncated(buf, pos, items[0]);
    } else {
        lemma_parse_encoded(buf, pos, items[0]);
        lemma_holds_at_index(buf, pos, first, 0);
        lemma_parse_truncated_items(buf, pos + first.len(), items.skip(1));
    }
}

/// Feeding the decoder the encoding of `r` cut at any byte gives "more
/// bytes needed"; only the whole encoding gives `r`.
pub proof fn lemma_every_prefix(r: Reply)
    requires
        sendable(r),
    ensures
        forall|k: int|
            0 <= k < encode_reply(r).len() ==> #[trigger] parse(encode_reply(r).take(k), 0)
                is Incomplete,
        parse(encode_reply(r), 0) == Parse::Complete(r, encode_reply(r).len() as int),
{
    let enc = encode_reply(r);
    assert forall|k: int| 0 <= k < enc.len() implies #[trigger] parse(enc.take(k), 0)
        is Incomplete by {
        assert(enc.take(k).subrange(0, k) =~= enc.take(k));
        lemma_parse_truncated(enc.take(k), 0, r);
    }
    assert(enc.subrange(0, enc.len() as int) =~= enc);
    lemma_parse_encoded(enc, 0, r);
}

} // verus!
