//! Text forms of identifiers.

use vstd::prelude::*;

use crate::bytes::Hash32;

verus! {

/// The lower-case hexadecimal digit of a number below sixteen.
pub open spec fn hex_digit(d: u8) -> char {
    if d < 10 {
        (48 + d) as u8 as char
    } else {
        (87 + d) as u8 as char
    }
}

/// The hexadecimal form of a byte string: two digits per byte, the higher one
/// first.
pub open spec fn hex_text(bytes: Seq<u8>) -> Seq<char> {
    Seq::new(
        2 * bytes.len(),
        |i: int| hex_digit(if i % 2 == 0 {
            bytes[i / 2] / 16
        } else {
            bytes[i / 2] % 16
        }),
    )
}

/// `hex::encode`: two lower-case hexadecimal digits per byte.
#[verifier::external_body]
pub(crate) fn hex_encode(bytes: &[u8]) -> (r: String)
    ensures
        r@ == hex_text(bytes@),
{
    hex::encode(bytes)
}

/// A character of white space, as Unicode defines it.
pub open spec fn is_white(c: char) -> bool {
    let n = c as u32;
    ||| 9 <= n <= 13
    ||| n == 0x20
    ||| n == 0x85
    ||| n == 0xa0
    ||| n == 0x1680
    ||| 0x2000 <= n <= 0x200a
    ||| n == 0x2028
    ||| n == 0x2029
    ||| n == 0x202f
    ||| n == 0x205f
    ||| n == 0x3000
}

/// A text without the white space at its start.
pub open spec fn trimmed_start(s: Seq<char>) -> Seq<char>
    decreases s.len(),
{
    if s.len() > 0 && is_white(s.first()) {
        trimmed_start(s.drop_first())
    } else {
        s
    }
}

/// A text without the white space at its end.
pub open spec fn trimmed_end(s: Seq<char>) -> Seq<char>
    decreases s.len(),
{
    if s.len() > 0 && is_white(s.last()) {
        trimmed_end(s.drop_last())
    } else {
        s
    }
}

/// A text without leading and trailing white space.
pub open spec fn trimmed(s: Seq<char>) -> Seq<char> {
    trimmed_end(trimmed_start(s))
}

/// Whether a character is white space.
fn check_white(c: char) -> (r: bool)
    ensures
        r == is_white(c),
{
    let n: u32 = c as u32;
    (9 <= n && n <= 13) || n == 0x20 || n == 0x85 || n == 0xa0 || n == 0x1680 || (0x2000 <= n && n
        <= 0x200a) || n == 0x2028 || n == 0x2029 || n == 0x202f || n == 0x205f || n == 0x3000
}

/// A text without leading and trailing white space.
pub fn trim_text(s: &str) -> (r: String)
    ensures
        r@ == trimmed(s@),
{
    let n: usize = s.unicode_len();
    let mut start: usize = 0;
    assert(s@.skip(0) =~= s@);
    while start < n && check_white(s.get_char(start))
        invariant
            n == s@.len(),
            start <= n,
            trimmed_start(s@.skip(start as int)) == trimmed_start(s@),
        decreases n - start,
    {
        assert(s@.skip(start as int).first() == s@[start as int]);
        assert(s@.skip(start as int).drop_first() =~= s@.skip(start + 1));
        start = start + 1;
    }
    let ghost rest = s@.skip(start as int);
    proof {
        if start < n {
            assert(rest.first() == s@[start as int]);
        }
        assert(trimmed_start(s@) == rest);
        assert(s@.subrange(start as int, n as int) =~= rest);
    }
    let mut end: usize = n;
    while end > start && check_white(s.get_char(end - 1))
        invariant
            n == s@.len(),
            start <= end <= n,
            trimmed_end(s@.subrange(start as int, end as int)) == trimmed_end(rest),
        decreases end,
    {
        let ghost part = s@.subrange(start as int, end as int);
        assert(part.last() == s@[end - 1]);
        assert(part.drop_last() =~= s@.subrange(start as int, end - 1));
        end = end - 1;
    }
    proof {
        let part = s@.subrange(start as int, end as int);
        if end > start {
            assert(part.last() == s@[end - 1]);
        }
        assert(trimmed_end(rest) == part);
    }
    s.substring_char(start, end).to_string()
}

/// The decimal form of a number.
pub open spec fn decimal(n: nat) -> Seq<char>
    decreases n,
{
    if n < 10 {
        seq![hex_digit(n as u8)]
    } else {
        decimal(n / 10).push(hex_digit((n % 10) as u8))
    }
}

/// Adds a decimal digit to a text.
fn put_digit(out: &mut String, d: u64)
    requires
        d < 10,
    ensures
        final(out)@ == old(out)@.push(hex_digit(d as u8)),
{
    let ghost before = out@;
    let digit = match d {
        0 => "0",
        1 => "1",
        2 => "2",
        3 => "3",
        4 => "4",
        5 => "5",
        6 => "6",
        7 => "7",
        8 => "8",
        _ => "9",
    };
    proof {
        reveal_strlit("0");
        reveal_strlit("1");
        reveal_strlit("2");
        reveal_strlit("3");
        reveal_strlit("4");
        reveal_strlit("5");
        reveal_strlit("6");
        reveal_strlit("7");
        reveal_strlit("8");
        reveal_strlit("9");
        assert(digit@ =~= seq![hex_digit(d as u8)]);
    }
    out.append(digit);
    assert(out@ =~= before.push(hex_digit(d as u8)));
}

/// Adds the decimal form of a number to a text.
pub fn put_decimal(out: &mut String, n: u64)
    ensures
        final(out)@ == old(out)@ + decimal(n as nat),
    decreases n,
{
    let ghost before = out@;
    if n >= 10 {
        put_decimal(out, n / 10);
    }
    put_digit(out, n % 10);
    assert(out@ =~= before + decimal(n as nat));
}

/// The numbers of a byte string, separated by commas.
pub open spec fn byte_list(bytes: Seq<u8>) -> Seq<char>
    decreases bytes.len(),
{
    if bytes.len() == 0 {
        Seq::empty()
    } else if bytes.len() == 1 {
        decimal(bytes[0] as nat)
    } else {
        byte_list(bytes.drop_last()) + ", "@ + decimal(bytes.last() as nat)
    }
}

/// A byte string as a list of numbers in brackets.
pub open spec fn bytes_text(bytes: Seq<u8>) -> Seq<char> {
    "["@ + byte_list(bytes) + "]"@
}

/// Adds a hash, as a list of numbers in brackets, to a text.
pub fn put_hash_text(out: &mut String, hash: &Hash32)
    ensures
        final(out)@ == old(out)@ + bytes_text(hash@),
{
    let ghost before = out@ + "["@;
    let ghost begin = out@;
    out.append("[");
    let mut i: usize = 0;
    assert(byte_list(hash@.take(0)) =~= Seq::empty());
    assert(out@ =~= before + byte_list(hash@.take(0)));
    while i < 32
        invariant
            i <= 32,
            hash@.len() == 32,
            out@ == before + byte_list(hash@.take(i as int)),
        decreases 32 - i,
    {
        let ghost part = hash@.take(i as int);
        let ghost next = hash@.take(i + 1);
        assert(next.drop_last() =~= part);
        assert(next.last() == hash@[i as int]);
        if i > 0 {
            out.append(", ");
        }
        put_decimal(out, hash[i] as u64);
        i = i + 1;
        assert(out@ =~= before + byte_list(next));
    }
    assert(hash@.take(32) =~= hash@);
    out.append("]");
    assert(out@ =~= begin + bytes_text(hash@));
}

/// The value of a hexadecimal digit.
pub open spec fn hex_value(c: char) -> int {
    if '0' <= c <= '9' {
        c as u32 - '0' as u32
    } else {
        c as u32 - 'a' as u32 + 10
    }
}

/// The two digits of a byte in hexadecimal form give the byte back, the first one
/// sixteenfold, and are digits or lower-case letters.
pub proof fn lemma_hex_reads_back(bytes: Seq<u8>, i: int)
    requires
        0 <= i < bytes.len(),
    ensures
        hex_text(bytes).len() == 2 * bytes.len(),
        ({
            let high = hex_text(bytes)[2 * i];
            let low = hex_text(bytes)[2 * i + 1];
            &&& 16 * hex_value(high) + hex_value(low) == bytes[i]
            &&& '0' <= high <= '9' || 'a' <= high <= 'f'
            &&& '0' <= low <= '9' || 'a' <= low <= 'f'
        }),
{
    let b = bytes[i];
    assert((2 * i) / 2 == i && (2 * i) % 2 == 0);
    assert((2 * i + 1) / 2 == i && (2 * i + 1) % 2 == 1);
    assert(b / 16 < 16 && b % 16 < 16 && 16 * (b / 16) + b % 16 == b);
    lemma_hex_digit(b / 16);
    lemma_hex_digit(b % 16);
}

proof fn lemma_hex_digit(d: u8)
    requires
        d < 16,
    ensures
        hex_value(hex_digit(d)) == d,
        '0' <= hex_digit(d) <= '9' || 'a' <= hex_digit(d) <= 'f',
        d < 10 ==> '0' <= hex_digit(d) <= '9',
{
}

/// Text is trimmed of exactly the white space around it: what is left is a part of it
/// that neither begins nor ends with white space, and all that is gone is white.
pub proof fn lemma_trimmed(s: Seq<char>)
    ensures
        exists|a: int, b: int|
            {
                &&& 0 <= a <= b <= s.len()
                &&& trimmed(s) == #[trigger] s.subrange(a, b)
                &&& a < b ==> !is_white(s[a]) && !is_white(s[b - 1])
                &&& forall|i: int| 0 <= i < a ==> is_white(#[trigger] s[i])
                &&& forall|i: int| b <= i < s.len() ==> is_white(#[trigger] s[i])
            },
{
    let a = lemma_trimmed_start(s);
    let rest = s.subrange(a, s.len() as int);
    let n = lemma_trimmed_end(rest);
    let b = a + n;
    assert(rest.subrange(0, n) =~= s.subrange(a, b));
    assert forall|i: int| b <= i < s.len() implies is_white(#[trigger] s[i]) by {
        assert(rest[i - a] == s[i]);
    }
    if a < b {
        assert(rest[n - 1] == s[b - 1]);
        assert(rest[0] == s[a]);
    }
    assert(trimmed(s) == s.subrange(a, b));
}

proof fn lemma_trimmed_start(s: Seq<char>) -> (a: int)
    ensures
        0 <= a <= s.len(),
        trimmed_start(s) == s.subrange(a, s.len() as int),
        a < s.len() ==> !is_white(s[a]),
        forall|i: int| 0 <= i < a ==> is_white(#[trigger] s[i]),
    decreases s.len(),
{
    if s.len() > 0 && is_white(s.first()) {
        let rest = s.drop_first();
        let k = lemma_trimmed_start(rest);
        assert(rest.subrange(k, rest.len() as int) =~= s.subrange(k + 1, s.len() as int));
        assert forall|i: int| 0 <= i < k + 1 implies is_white(#[trigger] s[i]) by {
            if i > 0 {
                assert(rest[i - 1] == s[i]);
            }
        }
        if k + 1 < s.len() {
            assert(rest[k] == s[k + 1]);
        }
        k + 1
    } else {
        assert(s.subrange(0, s.len() as int) =~= s);
        0
    }
}

proof fn lemma_trimmed_end(s: Seq<char>) -> (n: int)
    ensures
        0 <= n <= s.len(),
        trimmed_end(s) == s.subrange(0, n),
        0 < n ==> !is_white(s[n - 1]),
        forall|i: int| n <= i < s.len() ==> is_white(#[trigger] s[i]),
    decreases s.len(),
{
    if s.len() > 0 && is_white(s.last()) {
        let rest = s.drop_last();
        let n = lemma_trimmed_end(rest);
        assert(rest.subrange(0, n) =~= s.subrange(0, n));
        assert forall|i: int| n <= i < s.len() implies is_white(#[trigger] s[i]) by {
            if i < rest.len() {
                assert(rest[i] == s[i]);
            }
        }
        if 0 < n {
            assert(rest[n - 1] == s[n - 1]);
        }
        n
    } else {
        assert(s.subrange(0, s.len() as int) =~= s);
        s.len() as int
    }
}

/// The decimal form of a number begins with no zero, unless it is zero, and gives the
/// number back digit by digit.
pub proof fn lemma_decimal(n: nat)
    ensures
        n < 10 ==> decimal(n).len() == 1 && hex_value(decimal(n)[0]) == n,
        n >= 10 ==> decimal(n).drop_last() == decimal(n / 10) && hex_value(decimal(n).last()) == n % 10,
        decimal(n).len() > 0,
        n > 0 ==> decimal(n)[0] != '0',
        forall|i: int| 0 <= i < decimal(n).len() ==> '0' <= #[trigger] decimal(n)[i] <= '9',
    decreases n,
{
    if n < 10 {
        lemma_hex_digit(n as u8);
    } else {
        lemma_decimal(n / 10);
        lemma_hex_digit((n % 10) as u8);
        assert(decimal(n).drop_last() =~= decimal(n / 10));
        assert(decimal(n)[0] == decimal(n / 10)[0]);
        assert forall|i: int| 0 <= i < decimal(n).len() implies '0' <= #[trigger] decimal(n)[i] <= '9' by {
            if i < decimal(n / 10).len() {
                assert(decimal(n)[i] == decimal(n / 10)[i]);
            }
        }
    }
}

/// The bytes of a list are written in order, separated by commas, in brackets.
pub proof fn lemma_bytes_text(bytes: Seq<u8>, b: u8)
    ensures
        byte_list(Seq::<u8>::empty()).len() == 0,
        bytes.len() == 0 ==> byte_list(bytes.push(b)) == decimal(b as nat),
        bytes.len() > 0 ==> byte_list(bytes.push(b)) == byte_list(bytes) + ", "@ + decimal(b as nat),
        bytes_text(bytes) == "["@ + byte_list(bytes) + "]"@,
{
    assert(bytes.push(b).drop_last() =~= bytes);
}

} // verus!
