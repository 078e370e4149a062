//! The RESP wire format, stated as spec functions, and the decimal helpers
//! that both the encoder and the decoder rely on.
use vstd::prelude::*;
use vstd::arithmetic::div_mod::lemma_div_denominator;

verus! {

/// Number of decimal digits of `n` (zero has one digit).
pub open spec fn num_digits(n: nat) -> nat
    decreases n,
{
    if n < 10 {
        1
    } else {
        1 + num_digits(n / 10)
    }
}

/// ASCII code of the decimal digit `d`.
pub open spec fn digit_char(d: nat) -> u8 {
    (48 + d) as u8
}

/// Decimal text of `n`: most significant digit first, no leading zero.
pub open spec fn decimal(n: nat) -> Seq<u8>
    decreases n,
{
    if n < 10 {
        seq![digit_char(n)]
    } else {
        decimal(n / 10).push(digit_char(n % 10))
    }
}

pub open spec fn pow10(k: nat) -> nat
    decreases k,
{
    if k == 0 {
        1
    } else {
        10 * pow10((k - 1) as nat)
    }
}

/// The digit count used to size length prefixes is the length of the
/// decimal text that is written for the same number.
pub proof fn lemma_digits_match_text(n: nat)
    ensures
        decimal(n).len() == num_digits(n),
    decreases n,
{
    if n >= 10 {
        lemma_digits_match_text(n / 10);
    }
}

pub proof fn lemma_num_digits_below_pow(n: nat, k: nat)
    requires
        k >= 1,
        n < pow10(k),
    ensures
        num_digits(n) <= k,
    decreases k,
{
    if n >= 10 {
        assert(k >= 2) by {
            if k == 1 {
                assert(pow10(1) == 10) by {
                    reveal_with_fuel(pow10, 2);
                }
            }
        }
        assert(n / 10 < pow10((k - 1) as nat));
        lemma_num_digits_below_pow(n / 10, (k - 1) as nat);
    }
}

/// Every 64-bit number has at most twenty decimal digits.
pub proof fn lemma_num_digits_u64(n: u64)
    ensures
        num_digits(n as nat) <= 20,
{
    assert(pow10(20) == 100000000000000000000nat) by {
        reveal_with_fuel(pow10, 21);
    }
    lemma_num_digits_below_pow(n as nat, 20);
}

proof fn lemma_num_digits_small(v: nat)
    ensures
        v < 10 ==> num_digits(v) == 1,
        10 <= v < 100 ==> num_digits(v) == 2,
        100 <= v < 1000 ==> num_digits(v) == 3,
        1000 <= v < 10000 ==> num_digits(v) == 4,
{
    reveal_with_fuel(num_digits, 5);
}

proof fn lemma_num_digits_step4(v: nat)
    requires
        v >= 10000,
    ensures
        num_digits(v) == 4 + num_digits(v / 10000),
{
    assert(num_digits(v) == 1 + num_digits(v / 10));
    assert(num_digits(v / 10) == 1 + num_digits(v / 10 / 10));
    assert(num_digits(v / 10 / 10) == 1 + num_digits(v / 10 / 10 / 10));
    assert(num_digits(v / 10 / 10 / 10) == 1 + num_digits(v / 10 / 10 / 10 / 10));
    lemma_div_denominator(v as int, 10, 10);
    lemma_div_denominator(v as int, 100, 10);
    lemma_div_denominator(v as int, 1000, 10);
    assert(v / 10 / 10 / 10 / 10 == v / 10000);
}

/// Counts the decimal digits of `v`, four at a time.
pub fn countdigits(value: u64) -> (r: usize)
    ensures
        r == num_digits(value as nat),
{
    let ghost n = value as nat;
    let mut v = value;
    let mut result: usize = 1;
    proof {
        lemma_num_digits_u64(v);
    }
    loop
        invariant
            n == value as nat,
            1 <= result,
            num_digits(n) == result - 1 + num_digits(v as nat),
            num_digits(n) <= 20,
        decreases v,
    {
        proof {
            lemma_num_digits_small(v as nat);
        }
        if v < 10 {
            return result;
        }
        if v < 100 {
            return result + 1;
        }
        if v < 1000 {
            return result + 2;
        }
        if v < 10000 {
            return result + 3;
        }
        proof {
            lemma_num_digits_step4(v as nat);
        }
        v = v / 10000;
        result = result + 4;
    }
}

/// Appends the decimal text of `n` to `out`.
pub fn push_decimal(out: &mut Vec<u8>, n: u64)
    ensures
        final(out)@ == old(out)@ + decimal(n as nat),
    decreases n,
{
    if n >= 10 {
        push_decimal(out, n / 10);
    }
    out.push(48u8 + (n % 10) as u8);
    proof {
        if n < 10 {
            assert(decimal(n as nat) =~= seq![digit_char(n as nat)]);
        }
    }
    assert(final(out)@ =~= old(out)@ + decimal(n as nat));
}

} // verus!

verus! {

/// The line terminator `\r\n`.
pub open spec fn crlf() -> Seq<u8> {
    seq![13u8, 10u8]
}

/// A bulk string on the wire: `$<len>\r\n<bytes>\r\n`.
pub open spec fn bulk_string(b: Seq<u8>) -> Seq<u8> {
    seq![36u8] + decimal(b.len()) + crlf() + b + crlf()
}

/// The bulk strings of `parts`, one after the other.
pub open spec fn bulk_strings(parts: Seq<Seq<u8>>) -> Seq<u8>
    decreases parts.len(),
{
    if parts.len() == 0 {
        Seq::empty()
    } else {
        bulk_strings(parts.drop_last()) + bulk_string(parts.last())
    }
}

/// A request on the wire: `*<count>\r\n`, then each part as a bulk string.
pub open spec fn request(parts: Seq<Seq<u8>>) -> Seq<u8> {
    seq![42u8] + decimal(parts.len()) + crlf() + bulk_strings(parts)
}

/// Size of a bulk string whose payload has `len` bytes.
pub open spec fn bulk_size(len: nat) -> nat {
    len + num_digits(len) + 5
}

pub proof fn lemma_bulk_string_len(b: Seq<u8>)
    ensures
        bulk_string(b).len() == bulk_size(b.len()),
{
    lemma_digits_match_text(b.len());
}

pub proof fn lemma_request_len(parts: Seq<Seq<u8>>)
    ensures
        request(parts).len() == 3 + num_digits(parts.len()) + bulk_strings(parts).len(),
{
    lemma_digits_match_text(parts.len());
}

/// The bulk strings of a concatenation are those of each side, in order.
pub proof fn lemma_bulk_strings_append(a: Seq<Seq<u8>>, b: Seq<Seq<u8>>)
    ensures
        bulk_strings(a + b) == bulk_strings(a) + bulk_strings(b),
    decreases b.len(),
{
    if b.len() == 0 {
        assert(a + b =~= a);
        assert(bulk_strings(b) =~= Seq::<u8>::empty());
        assert(bulk_strings(a) + bulk_strings(b) =~= bulk_strings(a));
    } else {
        lemma_bulk_strings_append(a, b.drop_last());
        assert((a + b).drop_last() =~= a + b.drop_last());
        assert((a + b).last() == b.last());
        assert(bulk_strings(a) + bulk_strings(b) =~= bulk_strings(a) + bulk_strings(b.drop_last())
            + bulk_string(b.last()));
    }
}

/// Appends the bulk string of `item` to `out`.
pub fn push_bulk(out: &mut Vec<u8>, item: &[u8])
    ensures
        final(out)@ == old(out)@ + bulk_string(item@),
{
    out.push(36u8);
    push_decimal(out, item.len() as u64);
    out.push(13u8);
    out.push(10u8);
    let ghost start = out@;
    let mut i: usize = 0;
    while i < item.len()
        invariant
            i <= item@.len(),
            out@ == start + item@.subrange(0, i as int),
        decreases item@.len() - i,
    {
        out.push(item[i]);
        i += 1;
        assert(out@ =~= start + item@.subrange(0, i as int));
    }
    assert(item@.subrange(0, item@.len() as int) =~= item@);
    out.push(13u8);
    out.push(10u8);
    assert(final(out)@ =~= old(out)@ + bulk_string(item@));
}

} // verus!
