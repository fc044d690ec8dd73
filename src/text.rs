//! Decimal text of integers, character classes and small string helpers.
use vstd::prelude::*;

verus! {

/// Relies on `String::push`: the character is appended at the end.
#[verifier::external_body]
pub(crate) fn push_char(s: &mut String, c: char)
    ensures
        final(s)@ == old(s)@.push(c),
{
    s.push(c)
}

/// The character of a decimal digit.
pub open spec fn digit_char(d: int) -> char {
    (48 + d) as char
}

/// The decimal digits of a natural number, most significant first, without leading zeros.
pub open spec fn digits_of(n: nat) -> Seq<char>
    decreases n,
{
    if n < 10 {
        seq![digit_char(n as int)]
    } else {
        digits_of(n / 10).push(digit_char((n % 10) as int))
    }
}

/// The decimal text of an integer: a `-` before the digits of a negative one.
pub open spec fn decimal(n: int) -> Seq<char> {
    if n < 0 {
        seq!['-'] + digits_of((-n) as nat)
    } else {
        digits_of(n as nat)
    }
}

pub open spec fn is_digit(c: char) -> bool {
    '0' <= c <= '9'
}

pub open spec fn all_digits(s: Seq<char>) -> bool {
    forall|i: int| 0 <= i < s.len() ==> is_digit(#[trigger] s[i])
}

/// The value of a run of decimal digits.
pub open spec fn digits_value(s: Seq<char>) -> int
    decreases s.len(),
{
    if s.len() == 0 {
        0
    } else {
        digits_value(s.drop_last()) * 10 + (s.last() as int - 48)
    }
}

/// The `i32` that a text denotes: an optional `+` or `-`, then one or more decimal
/// digits, with a value in the range of `i32`.
pub open spec fn int_value(s: Seq<char>) -> Option<int> {
    let signed = s.len() > 0 && (s[0] == '+' || s[0] == '-');
    let body = if signed { s.skip(1) } else { s };
    let v = if signed && s[0] == '-' { -digits_value(body) } else { digits_value(body) };
    if body.len() > 0 && all_digits(body) && i32::MIN <= v <= i32::MAX {
        Some(v)
    } else {
        None
    }
}

/// The characters with Unicode's White_Space property.
pub open spec fn is_space(c: char) -> bool {
    let u = c as u32;
    (9 <= u <= 13) || u == 32 || u == 0x85 || u == 0xA0 || u == 0x1680 || (0x2000 <= u
        <= 0x200A) || u == 0x2028 || u == 0x2029 || u == 0x202F || u == 0x205F || u == 0x3000
}

proof fn lemma_int_value_body(s: Seq<char>, body: Seq<char>)
    requires
        body == (if s.len() > 0 && (s[0] == '+' || s[0] == '-') { s.skip(1) } else { s }),
        !all_digits(body) || digits_value(body) > 2147483648,
    ensures
        int_value(s) is None,
{
}

pub(crate) proof fn lemma_digits_value_nonneg(s: Seq<char>)
    requires
        all_digits(s),
    ensures
        digits_value(s) >= 0,
    decreases s.len(),
{
    if s.len() > 0 {
        lemma_digits_value_nonneg(s.drop_last());
    }
}

proof fn lemma_digits_value_prefix(s: Seq<char>, j: int)
    requires
        all_digits(s),
        0 <= j <= s.len(),
    ensures
        digits_value(s.subrange(0, j)) <= digits_value(s),
    decreases s.len(),
{
    if j == s.len() {
        assert(s.subrange(0, j) =~= s);
    } else {
        let p = s.drop_last();
        lemma_digits_value_prefix(p, j);
        assert(p.subrange(0, j) =~= s.subrange(0, j));
        lemma_digits_value_nonneg(p);
    }
}

fn digit_char_exec(d: u32) -> (c: char)
    requires
        d < 10,
    ensures
        c == digit_char(d as int),
{
    ((d as u8) + 48u8) as char
}

fn push_digits(s: &mut String, m: u32)
    ensures
        final(s)@ == old(s)@ + digits_of(m as nat),
    decreases m,
{
    if m >= 10 {
        push_digits(s, m / 10);
    }
    push_char(s, digit_char_exec(m % 10));
    assert(s@ =~= old(s)@ + digits_of(m as nat));
}

/// Appends the decimal text of `n`.
pub fn push_int(s: &mut String, n: i32)
    ensures
        final(s)@ == old(s)@ + decimal(n as int),
{
    if n < 0 {
        push_char(s, '-');
        let m: u32 = (0i64 - n as i64) as u32;
        push_digits(s, m);
        assert(s@ =~= old(s)@ + decimal(n as int));
    } else {
        push_digits(s, n as u32);
    }
}

/// The decimal text of `n`.
pub fn int_text(n: i32) -> (r: String)
    ensures
        r@ == decimal(n as int),
{
    let mut s = String::new();
    push_int(&mut s, n);
    assert(s@ =~= decimal(n as int));
    s
}

/// Whether `c` is a whitespace character.
pub fn is_space_char(c: char) -> (r: bool)
    ensures
        r == is_space(c),
{
    let u = c as u32;
    (9 <= u && u <= 13) || u == 32 || u == 0x85 || u == 0xA0 || u == 0x1680 || (0x2000 <= u
        && u <= 0x200A) || u == 0x2028 || u == 0x2029 || u == 0x202F || u == 0x205F || u
        == 0x3000
}

/// Reads a text as an `i32`: an optional sign and at least one decimal digit.
pub fn parse_int(s: &str) -> (r: Option<i32>)
    ensures
        r is Some <==> int_value(s@) is Some,
        r is Some ==> r->0 as int == int_value(s@)->0,
{
    let n = s.unicode_len();
    let mut i: usize = 0;
    let mut neg = false;
    if n > 0 {
        let c0 = s.get_char(0);
        if c0 == '+' || c0 == '-' {
            neg = c0 == '-';
            i = 1;
        }
    }
    let start = i;
    let ghost signed = s@.len() > 0 && (s@[0] == '+' || s@[0] == '-');
    let ghost body = s@.subrange(start as int, n as int);
    assert(signed == (start == 1));
    assert(body =~= if signed { s@.skip(1) } else { s@ });
    assert(neg == (signed && s@[0] == '-'));
    if start == n {
        return None;
    }
    let mut acc: u64 = 0;
    while i < n
        invariant
            start <= i <= n,
            n == s@.len(),
            signed == (start == 1),
            signed == (s@.len() > 0 && (s@[0] == '+' || s@[0] == '-')),
            body == (if signed { s@.skip(1) } else { s@ }),
            neg == (signed && s@[0] == '-'),
            body == s@.subrange(start as int, n as int),
            acc == digits_value(s@.subrange(start as int, i as int)),
            acc <= 2147483648,
            all_digits(s@.subrange(start as int, i as int)),
        decreases n - i,
    {
        let c = s.get_char(i);
        if !('0' <= c && c <= '9') {
            assert(body[i - start] == c);
            assert(!all_digits(body));
            proof {
                lemma_int_value_body(s@, body);
            }
            return None;
        }
        acc = acc * 10 + ((c as u32) - 48) as u64;
        proof {
            let p = s@.subrange(start as int, i + 1);
            assert(p.drop_last() =~= s@.subrange(start as int, i as int));
            assert(all_digits(p));
        }
        if acc > 2147483648 {
            proof {
                if all_digits(body) {
                    assert(body.subrange(0, i + 1 - start) =~= s@.subrange(start as int, i + 1));
                    lemma_digits_value_prefix(body, i + 1 - start);
                    assert(digits_value(body) > 2147483648);
                }
                lemma_int_value_body(s@, body);
            }
            return None;
        }
        i = i + 1;
    }
    assert(s@.subrange(start as int, n as int) =~= body);
    if neg {
        let v: i64 = 0i64 - acc as i64;
        if v < -2147483648 {
            None
        } else {
            Some(v as i32)
        }
    } else {
        if acc > 2147483647 {
            None
        } else {
            Some(acc as i32)
        }
    }
}

/// Whether two texts hold the same characters.
pub fn same_text(a: &str, b: &str) -> (r: bool)
    ensures
        r == (a@ == b@),
{
    let n = a.unicode_len();
    if n != b.unicode_len() {
        return false;
    }
    let mut i: usize = 0;
    while i < n
        invariant
            n == a@.len(),
            n == b@.len(),
            i <= n,
            forall|j: int| 0 <= j < i ==> a@[j] == b@[j],
        decreases n - i,
    {
        if a.get_char(i) != b.get_char(i) {
            return false;
        }
        i = i + 1;
    }
    assert(a@ =~= b@);
    true
}

} // verus!
