//! Verified text utilities: decimal rendering and parsing, case-insensitive
//! comparison, and lexicographic ordering over character sequences.

use vstd::prelude::*;

verus! {

use vstd::string::StrSliceExecFns;
use vstd::string::StringExecFns;

// ---------------------------------------------------------------------------
// Decimal digits
// ---------------------------------------------------------------------------

pub open spec fn digit_char(d: int) -> char {
    if d == 0 {
        '0'
    } else if d == 1 {
        '1'
    } else if d == 2 {
        '2'
    } else if d == 3 {
        '3'
    } else if d == 4 {
        '4'
    } else if d == 5 {
        '5'
    } else if d == 6 {
        '6'
    } else if d == 7 {
        '7'
    } else if d == 8 {
        '8'
    } else {
        '9'
    }
}

pub open spec fn is_digit(c: char) -> bool {
    '0' <= c && c <= '9'
}

pub open spec fn digit_val(c: char) -> int {
    c as int - '0' as int
}

/// The decimal rendering of a nonnegative integer, most significant digit first.
pub open spec fn dec_str_of(n: nat) -> Seq<char>
    decreases n,
{
    if n < 10 {
        seq![digit_char(n as int)]
    } else {
        dec_str_of(n / 10).push(digit_char((n % 10) as int))
    }
}

/// The decimal rendering of an integer, with a leading `-` when negative.
pub open spec fn int_str_of(n: int) -> Seq<char> {
    if n < 0 {
        seq!['-'] + dec_str_of((-n) as nat)
    } else {
        dec_str_of(n as nat)
    }
}

pub open spec fn is_digit_seq(s: Seq<char>) -> bool {
    forall|i: int| 0 <= i < s.len() ==> is_digit(#[trigger] s[i])
}

/// The numeric value of a sequence of decimal digits.
pub open spec fn digits_val(s: Seq<char>) -> int
    decreases s.len(),
{
    if s.len() == 0 {
        0
    } else {
        digits_val(s.drop_last()) * 10 + digit_val(s.last())
    }
}

/// The integer a numeral denotes: an optional sign, then one or more digits.
pub open spec fn opt_int_of(s: Seq<char>) -> Option<int> {
    if s.len() >= 2 && (s[0] == '-' || s[0] == '+') && is_digit_seq(s.drop_first()) {
        if s[0] == '-' {
            Some(-digits_val(s.drop_first()))
        } else {
            Some(digits_val(s.drop_first()))
        }
    } else if s.len() >= 1 && is_digit_seq(s) {
        Some(digits_val(s))
    } else {
        None
    }
}

/// The nonnegative integer a numeral denotes: an optional `+`, then digits.
pub open spec fn opt_nat_of(s: Seq<char>) -> Option<int> {
    if s.len() >= 2 && s[0] == '+' && is_digit_seq(s.drop_first()) {
        Some(digits_val(s.drop_first()))
    } else if s.len() >= 1 && is_digit_seq(s) {
        Some(digits_val(s))
    } else {
        None
    }
}

pub proof fn lemma_digits_val_bounds(s: Seq<char>)
    requires
        is_digit_seq(s),
    ensures
        0 <= digits_val(s),
    decreases s.len(),
{
    if s.len() > 0 {
        lemma_digits_val_bounds(s.drop_last());
    }
}

/// Extending a digit string multiplies its value up and adds digits on:
/// the value of a prefix never exceeds the value of the whole.
pub proof fn lemma_digits_val_prefix(s: Seq<char>, i: int)
    requires
        is_digit_seq(s),
        0 <= i <= s.len(),
    ensures
        digits_val(s.take(i)) <= digits_val(s),
    decreases s.len() - i,
{
    if i < s.len() {
        lemma_digits_val_prefix(s, i + 1);
        assert(s.take(i + 1).drop_last() =~= s.take(i));
        assert(s.take(i + 1).last() == s[i]);
        lemma_digits_val_bounds(s.take(i));
        assert(digits_val(s.take(i)) <= digits_val(s.take(i)) * 10 + digit_val(s[i]));
    } else {
        assert(s.take(i) =~= s);
    }
}

// ---------------------------------------------------------------------------
// Rendering
// ---------------------------------------------------------------------------

/// A one-character string for a decimal digit.
pub fn digit_str(d: u64) -> (r: &'static str)
    requires
        d < 10,
    ensures
        r@ =~= seq![digit_char(d as int)],
{
    proof {
        reveal_strlit("0");
        reveal_strlit("1");
        reveal_strlit("2");
        reveal_strlit("3");
        reveal_strlit("4");
        reveal_strlit("5");
        reveal_strlit("6");
        reveal_strlit("7");
        reveal_strlit("8");
        reveal_strlit("9");
    }
    if d == 0 {
        "0"
    } else if d == 1 {
        "1"
    } else if d == 2 {
        "2"
    } else if d == 3 {
        "3"
    } else if d == 4 {
        "4"
    } else if d == 5 {
        "5"
    } else if d == 6 {
        "6"
    } else if d == 7 {
        "7"
    } else if d == 8 {
        "8"
    } else {
        "9"
    }
}

pub fn u64_to_string(n: u64) -> (r: String)
    ensures
        r@ == dec_str_of(n as nat),
    decreases n,
{
    if n < 10 {
        String::from_str(digit_str(n))
    } else {
        let mut r = u64_to_string(n / 10);
        r.append(digit_str(n % 10));
        proof {
            assert(r@ =~= dec_str_of((n / 10) as nat).push(digit_char((n % 10) as int)));
        }
        r
    }
}

pub fn i64_to_string(n: i64) -> (r: String)
    ensures
        r@ == int_str_of(n as int),
{
    if n >= 0 {
        u64_to_string(n as u64)
    } else {
        let m: u64 = if n == i64::MIN {
            9223372036854775808u64
        } else {
            (-n) as u64
        };
        let mut r = String::from_str("-");
        r.append(u64_to_string(m).as_str());
        proof {
            reveal_strlit("-");
            assert(r@ =~= seq!['-'] + dec_str_of((-(n as int)) as nat));
        }
        r
    }
}

pub fn usize_to_string(n: usize) -> (r: String)
    ensures
        r@ == dec_str_of(n as nat),
{
    u64_to_string(n as u64)
}

/// The decimal rendering consists of digits only.
pub proof fn lemma_dec_str_digits(n: nat)
    ensures
        is_digit_seq(dec_str_of(n)),
        dec_str_of(n).len() >= 1,
    decreases n,
{
    if n >= 10 {
        lemma_dec_str_digits(n / 10);
    }
}

/// Reading the decimal rendering back gives the number again.
pub proof fn lemma_dec_str_val(n: nat)
    ensures
        digits_val(dec_str_of(n)) == n,
    decreases n,
{
    lemma_dec_str_digits(n);
    assert(digits_val(Seq::<char>::empty()) == 0);
    if n < 10 {
        let s = dec_str_of(n);
        assert(s =~= seq![digit_char(n as int)]);
        assert(s.drop_last() =~= Seq::<char>::empty());
        assert(digits_val(s) == digits_val(s.drop_last()) * 10 + digit_val(s.last()));
        assert(digit_val(digit_char(n as int)) == n);
    } else {
        lemma_dec_str_val(n / 10);
        let s = dec_str_of(n);
        assert(s.drop_last() =~= dec_str_of(n / 10));
        assert(digits_val(s) == digits_val(s.drop_last()) * 10 + digit_val(s.last()));
        assert(digit_val(digit_char((n % 10) as int)) == n % 10);
    }
}

/// Reading an integer rendering back gives the integer again.
pub proof fn lemma_int_str_val(n: int)
    ensures
        opt_int_of(int_str_of(n)) == Some(n),
{
    if n < 0 {
        lemma_dec_str_digits((-n) as nat);
        lemma_dec_str_val((-n) as nat);
        assert(int_str_of(n).drop_first() =~= dec_str_of((-n) as nat));
        assert(int_str_of(n)[0] == '-');
        assert(int_str_of(n).len() >= 2);
    } else {
        lemma_dec_str_digits(n as nat);
        lemma_dec_str_val(n as nat);
        let s = int_str_of(n);
        assert(s[0] != '-' && s[0] != '+') by {
            assert(is_digit(s[0]));
        }
    }
}

// ---------------------------------------------------------------------------
// Parsing
// ---------------------------------------------------------------------------

/// When the whole numeral is well formed, its digit part is the tail that
/// parsing walks over, and a prefix of that tail bounds the full value.
proof fn lemma_numeral_prefix_bound(s: Seq<char>, i: int, k: int)
    requires
        0 <= i <= 1,
        i <= k <= s.len(),
        i == 1 ==> s.len() >= 2 && s[0] == '+',
        i == 0 ==> !(s.len() >= 2 && s[0] == '+'),
        opt_nat_of(s) is Some,
    ensures
        is_digit_seq(s.subrange(i, s.len() as int)),
        digits_val(s.subrange(i, k)) <= opt_nat_of(s)->Some_0,
{
    let digits = s.subrange(i, s.len() as int);
    if i == 1 {
        assert(digits =~= s.drop_first());
    } else {
        assert(digits =~= s);
        if s.len() >= 2 && (s[0] == '-' || s[0] == '+') && is_digit_seq(s.drop_first()) {
            // a leading sign is not a digit, so this shape is ruled out
            assert(s[0] == '-' ==> !is_digit(s[0]));
        }
    }
    assert(opt_nat_of(s)->Some_0 == digits_val(digits));
    assert(s.subrange(i, k) =~= digits.take(k - i));
    lemma_digits_val_prefix(digits, k - i);
}

/// Parses an unsigned numeral (optional `+`, then digits) into a `u64`.
/// Fails exactly on malformed input or on a value above `u64::MAX`.
pub fn parse_u64(s: &str) -> (r: Result<u64, ()>)
    ensures
        match r {
            Ok(v) => opt_nat_of(s@) == Some(v as int),
            Err(_) => match opt_nat_of(s@) {
                Some(n) => n > u64::MAX,
                None => true,
            },
        },
{
    let len = s.unicode_len();
    let mut i: usize = 0;
    if len >= 2 && s.get_char(0) == '+' {
        i = 1;
    }
    if i == len {
        return Err(());
    }
    let mut v: u64 = 0;
    let mut j: usize = i;
    while j < len
        invariant
            i <= j <= len,
            len == s@.len(),
            i <= 1,
            i == 1 ==> len >= 2 && s@[0] == '+',
            i == 0 ==> !(len >= 2 && s@[0] == '+'),
            i < len,
            is_digit_seq(s@.subrange(i as int, j as int)),
            v as int == digits_val(s@.subrange(i as int, j as int)),
        decreases len - j,
    {
        let c = s.get_char(j);
        let cu = c as u32;
        if cu < 48 || cu > 57 {
            // a malformed numeral: the tail holds a non-digit
            proof {
                if opt_nat_of(s@) is Some {
                    lemma_numeral_prefix_bound(s@, i as int, len as int);
                    assert(is_digit(s@.subrange(i as int, len as int)[j - i]));
                }
            }
            return Err(());
        }
        let d: u64 = (cu as u64) - 48;
        proof {
            assert(s@.subrange(i as int, j + 1).drop_last() =~= s@.subrange(i as int, j as int));
            assert(s@.subrange(i as int, j + 1).last() == s@[j as int]);
        }
        if v > (u64::MAX - d) / 10 {
            // the prefix read so far already exceeds the range
            proof {
                if opt_nat_of(s@) is Some {
                    lemma_numeral_prefix_bound(s@, i as int, j + 1);
                    assert(digits_val(s@.subrange(i as int, j + 1)) == v * 10 + d);
                    assert(v * 10 + d > u64::MAX);
                }
            }
            return Err(());
        }
        v = v * 10 + d;
        j += 1;
    }
    proof {
        let digits = s@.subrange(i as int, len as int);
        if i == 1 {
            assert(digits =~= s@.drop_first());
        } else {
            assert(digits =~= s@);
            assert(!(s@.len() >= 2 && (s@[0] == '-' || s@[0] == '+') && is_digit_seq(
                s@.drop_first(),
            ))) by {
                assert(is_digit(digits[0]));
            }
        }
    }
    Ok(v)
}

/// Parses a signed numeral (optional sign, then digits) into an `i64`.
pub fn parse_i64(s: &str) -> (r: Result<i64, ()>)
    ensures
        match r {
            Ok(v) => opt_int_of(s@) == Some(v as int),
            Err(_) => match opt_int_of(s@) {
                Some(n) => n < i64::MIN || n > i64::MAX,
                None => true,
            },
        },
{
    let len = s.unicode_len();
    if len >= 2 && s.get_char(0) == '-' {
        let tail = s.substring_char(1, len);
        proof {
            assert(tail@ =~= s@.drop_first());
        }
        if tail.get_char(0) == '+' {
            // a sign after the sign: not a numeral
            proof {
                assert(!is_digit(tail@[0]));
            }
            return Err(());
        }
        match parse_u64(tail) {
            Ok(v) => {
                proof {
                    // the tail does not start with `+`, so it is all digits
                    assert(opt_nat_of(tail@) == Some(v as int));
                    assert(is_digit_seq(tail@));
                    lemma_digits_val_bounds(tail@);
                }
                if v <= 9223372036854775807u64 {
                    Ok(-(v as i64))
                } else if v == 9223372036854775808u64 {
                    Ok(i64::MIN)
                } else {
                    Err(())
                }
            },
            Err(_) => {
                proof {
                    if opt_int_of(s@) is Some {
                        assert(is_digit_seq(s@.drop_first()));
                        assert(opt_nat_of(tail@) == Some(digits_val(tail@)));
                    }
                }
                Err(())
            },
        }
    } else {
        match parse_u64(s) {
            Ok(v) => {
                if v <= 9223372036854775807u64 {
                    proof {
                        lemma_opt_nat_int_agree(s@);
                    }
                    Ok(v as i64)
                } else {
                    proof {
                        lemma_opt_nat_int_agree(s@);
                    }
                    Err(())
                }
            },
            Err(_) => {
                proof {
                    lemma_opt_nat_int_agree(s@);
                }
                Err(())
            },
        }
    }
}

/// On input without a leading `-`, the signed and unsigned readings agree.
proof fn lemma_opt_nat_int_agree(s: Seq<char>)
    requires
        !(s.len() >= 2 && s[0] == '-'),
    ensures
        opt_int_of(s) == opt_nat_of(s),
        match opt_nat_of(s) {
            Some(n) => n >= 0,
            None => true,
        },
{
    if opt_nat_of(s) is Some {
        if s.len() >= 2 && s[0] == '+' && is_digit_seq(s.drop_first()) {
            lemma_digits_val_bounds(s.drop_first());
        } else {
            lemma_digits_val_bounds(s);
        }
    }
}

/// Parses a signed numeral into an `i32`.
pub fn parse_i32(s: &str) -> (r: Result<i32, ()>)
    ensures
        match r {
            Ok(v) => opt_int_of(s@) == Some(v as int),
            Err(_) => match opt_int_of(s@) {
                Some(n) => n < i32::MIN || n > i32::MAX,
                None => true,
            },
        },
{
    match parse_i64(s) {
        Ok(v) => {
            if -2147483648i64 <= v && v <= 2147483647i64 {
                Ok(v as i32)
            } else {
                Err(())
            }
        },
        Err(_) => Err(()),
    }
}

/// Parses an unsigned numeral into a `usize`.
pub fn parse_usize(s: &str) -> (r: Result<usize, ()>)
    ensures
        match r {
            Ok(v) => opt_nat_of(s@) == Some(v as int),
            Err(_) => match opt_nat_of(s@) {
                Some(n) => n > usize::MAX,
                None => true,
            },
        },
{
    match parse_u64(s) {
        Ok(v) => {
            if v <= usize::MAX as u64 {
                Ok(v as usize)
            } else {
                Err(())
            }
        },
        Err(_) => Err(()),
    }
}

// ---------------------------------------------------------------------------
// Case-insensitive comparison and lexicographic order
// ---------------------------------------------------------------------------

/// Folds an ASCII letter to upper case; leaves every other character alone.
pub open spec fn upper_char(c: char) -> char {
    if 'a' <= c && c <= 'z' {
        (c as u8 - 32) as char
    } else {
        c
    }
}

/// Character sequences that are equal once ASCII case is folded away.
pub open spec fn ci_eq(a: Seq<char>, b: Seq<char>) -> bool {
    a.len() == b.len() && forall|i: int|
        0 <= i < a.len() ==> upper_char(#[trigger] a[i]) == upper_char(b[i])
}

/// Whether two strings are equal up to ASCII case.
pub fn eq_ignore_case(a: &str, b: &str) -> (r: bool)
    ensures
        r == ci_eq(a@, b@),
{
    let alen = a.unicode_len();
    let blen = b.unicode_len();
    if alen != blen {
        return false;
    }
    let mut i: usize = 0;
    while i < alen
        invariant
            0 <= i <= alen,
            alen == a@.len(),
            alen == b@.len(),
            forall|k: int| 0 <= k < i ==> upper_char(#[trigger] a@[k]) == upper_char(b@[k]),
        decreases alen - i,
    {
        let x = a.get_char(i) as u32;
        let y = b.get_char(i) as u32;
        let xu = if 97 <= x && x <= 122 {
            x - 32
        } else {
            x
        };
        let yu = if 97 <= y && y <= 122 {
            y - 32
        } else {
            y
        };
        if xu != yu {
            return false;
        }
        i += 1;
    }
    true
}

/// Strict lexicographic order on character sequences, by code point.
pub open spec fn lex_lt(a: Seq<char>, b: Seq<char>) -> bool
    decreases a.len(),
{
    if b.len() == 0 {
        false
    } else if a.len() == 0 {
        true
    } else if (a[0] as int) < (b[0] as int) {
        true
    } else if a[0] == b[0] {
        lex_lt(a.drop_first(), b.drop_first())
    } else {
        false
    }
}

/// Whether `a` sorts strictly before `b` in lexicographic order.
pub fn str_lt(a: &str, b: &str) -> (r: bool)
    ensures
        r == lex_lt(a@, b@),
{
    let alen = a.unicode_len();
    let blen = b.unicode_len();
    let mut i: usize = 0;
    proof {
        assert(a@.skip(0) =~= a@);
        assert(b@.skip(0) =~= b@);
    }
    loop
        invariant
            0 <= i,
            i <= alen,
            i <= blen,
            alen == a@.len(),
            blen == b@.len(),
            forall|k: int| 0 <= k < i ==> a@[k] == b@[k],
            lex_lt(a@, b@) == lex_lt(a@.skip(i as int), b@.skip(i as int)),
        decreases alen - i,
    {
        if i == alen || i == blen {
            proof {
                if i == alen {
                    assert(a@.skip(i as int).len() == 0);
                } else {
                    assert(b@.skip(i as int).len() == 0);
                    assert(a@.skip(i as int).len() > 0);
                }
            }
            return i == alen && i < blen;
        }
        let x = a.get_char(i) as u32;
        let y = b.get_char(i) as u32;
        if x != y {
            proof {
                assert(a@.skip(i as int)[0] == a@[i as int]);
                assert(b@.skip(i as int)[0] == b@[i as int]);
            }
            return x < y;
        }
        proof {
            assert(a@.skip(i as int).drop_first() =~= a@.skip(i + 1));
            assert(b@.skip(i as int).drop_first() =~= b@.skip(i + 1));
            assert(a@.skip(i as int)[0] == a@[i as int]);
            assert(b@.skip(i as int)[0] == b@[i as int]);
        }
        i += 1;
    }
}

// ---------------------------------------------------------------------------
// Trimming and searching
// ---------------------------------------------------------------------------

/// The ASCII whitespace characters that trimming strips.
pub open spec fn is_space_char(c: char) -> bool {
    c == ' ' || c == '\t' || c == '\r' || c == '\n'
}

/// How many whitespace characters the sequence starts with.
pub open spec fn trim_start_count(s: Seq<char>) -> int
    decreases s.len(),
{
    if s.len() == 0 {
        0
    } else if is_space_char(s[0]) {
        1 + trim_start_count(s.drop_first())
    } else {
        0
    }
}

/// How many whitespace characters the sequence ends with.
pub open spec fn trim_end_count(s: Seq<char>) -> int
    decreases s.len(),
{
    if s.len() == 0 {
        0
    } else if is_space_char(s.last()) {
        1 + trim_end_count(s.drop_last())
    } else {
        0
    }
}

/// The sequence with leading and trailing whitespace stripped.
pub open spec fn trim_spec(s: Seq<char>) -> Seq<char> {
    let a = trim_start_count(s);
    let rest = s.skip(a);
    rest.take(rest.len() - trim_end_count(rest))
}

pub proof fn lemma_trim_start_count(s: Seq<char>)
    ensures
        0 <= trim_start_count(s) <= s.len(),
        forall|i: int| 0 <= i < trim_start_count(s) ==> is_space_char(#[trigger] s[i]),
        trim_start_count(s) < s.len() ==> !is_space_char(s[trim_start_count(s)]),
    decreases s.len(),
{
    if s.len() > 0 && is_space_char(s[0]) {
        lemma_trim_start_count(s.drop_first());
        assert forall|i: int| 0 <= i < trim_start_count(s) implies is_space_char(
            #[trigger] s[i],
        ) by {
            if i >= 1 {
                assert(is_space_char(s.drop_first()[i - 1]));
                assert(s.drop_first()[i - 1] == s[i]);
            }
        }
    }
}

pub proof fn lemma_trim_end_count(s: Seq<char>)
    ensures
        0 <= trim_end_count(s) <= s.len(),
        forall|i: int|
            s.len() - trim_end_count(s) <= i < s.len() ==> is_space_char(#[trigger] s[i]),
        trim_end_count(s) < s.len() ==> !is_space_char(s[s.len() - trim_end_count(s) - 1]),
    decreases s.len(),
{
    if s.len() > 0 && is_space_char(s.last()) {
        lemma_trim_end_count(s.drop_last());
        assert forall|i: int|
            s.len() - trim_end_count(s) <= i < s.len() implies is_space_char(#[trigger] s[i]) by {
            if i < s.len() - 1 {
                assert(is_space_char(s.drop_last()[i]));
                assert(s.drop_last()[i] == s[i]);
            }
        }
    }
}

/// Strips ASCII whitespace from both ends of a string.
pub fn str_trim(s: &str) -> (r: &str)
    ensures
        r@ == trim_spec(s@),
{
    let len = s.unicode_len();
    let mut a: usize = 0;
    loop
        invariant
            0 <= a <= len,
            len == s@.len(),
            forall|i: int| 0 <= i < a ==> is_space_char(#[trigger] s@[i]),
        ensures
            0 <= a <= len,
            len == s@.len(),
            forall|i: int| 0 <= i < a ==> is_space_char(#[trigger] s@[i]),
            a == len || !is_space_char(s@[a as int]),
        decreases len - a,
    {
        if a >= len {
            break ;
        }
        let cu = s.get_char(a) as u32;
        if !(cu == 32 || cu == 9 || cu == 13 || cu == 10) {
            break ;
        }
        a += 1;
    }
    let mut b: usize = len;
    loop
        invariant
            a <= b <= len,
            len == s@.len(),
            forall|i: int| b <= i < len ==> is_space_char(#[trigger] s@[i]),
        ensures
            a <= b <= len,
            len == s@.len(),
            forall|i: int| b <= i < len ==> is_space_char(#[trigger] s@[i]),
            b == a || !is_space_char(s@[b - 1]),
        decreases b,
    {
        if b <= a {
            break ;
        }
        let cu = s.get_char(b - 1) as u32;
        if !(cu == 32 || cu == 9 || cu == 13 || cu == 10) {
            break ;
        }
        b -= 1;
    }
    let r = s.substring_char(a, b);
    proof {
        lemma_trim_start_count(s@);
        assert(a == trim_start_count(s@));
        let rest = s@.skip(a as int);
        lemma_trim_end_count(rest);
        assert(forall|i: int| 0 <= i < rest.len() ==> #[trigger] rest[i] == s@[i + a]);
        if a == b {
            // everything after `a` is whitespace
            assert(trim_end_count(rest) == rest.len());
            assert(r@ =~= trim_spec(s@));
        } else {
            assert(!is_space_char(s@[b - 1]));
            let tec = trim_end_count(rest);
            if tec < s@.len() - b {
                let p = rest.len() - tec - 1;
                assert(rest[p] == s@[p + a]);
                assert(is_space_char(s@[p + a]));
                assert(false);
            }
            if tec > s@.len() - b {
                let q = b - 1 - a;
                assert(rest[q] == s@[q + a]);
                assert(is_space_char(rest[q]));
                assert(false);
            }
            assert(r@ =~= trim_spec(s@));
        }
    }
    r
}

/// The index of the first space in the sequence, or `-1` when there is none.
pub open spec fn find_space(s: Seq<char>) -> int
    decreases s.len(),
{
    if s.len() == 0 {
        -1
    } else if s[0] == ' ' {
        0
    } else {
        let r = find_space(s.drop_first());
        if r < 0 {
            -1
        } else {
            1 + r
        }
    }
}

pub proof fn lemma_find_space(s: Seq<char>)
    ensures
        find_space(s) == -1 ==> forall|i: int| 0 <= i < s.len() ==> #[trigger] s[i] != ' ',
        find_space(s) >= 0 ==> {
            &&& find_space(s) < s.len()
            &&& s[find_space(s)] == ' '
            &&& forall|i: int| 0 <= i < find_space(s) ==> #[trigger] s[i] != ' '
        },
    decreases s.len(),
{
    if s.len() > 0 && s[0] != ' ' {
        lemma_find_space(s.drop_first());
        let r = find_space(s.drop_first());
        if r >= 0 {
            assert(forall|i: int| 1 <= i < r + 1 ==> #[trigger] s[i] == s.drop_first()[i - 1]);
        } else {
            assert(forall|i: int| 1 <= i < s.len() ==> #[trigger] s[i] == s.drop_first()[i - 1]);
        }
    }
}

/// The index of the first space in a string, if any.
pub fn find_space_index(s: &str) -> (r: Option<usize>)
    ensures
        match r {
            Some(i) => find_space(s@) == i,
            None => find_space(s@) == -1,
        },
{
    let len = s.unicode_len();
    let mut j: usize = 0;
    while j < len
        invariant
            0 <= j <= len,
            len == s@.len(),
            forall|i: int| 0 <= i < j ==> #[trigger] s@[i] != ' ',
        decreases len - j,
    {
        if s.get_char(j) == ' ' {
            proof {
                lemma_find_space(s@);
            }
            return Some(j);
        }
        j += 1;
    }
    proof {
        lemma_find_space(s@);
    }
    None
}

/// Plain string equality, decided over the character views.
pub fn str_eq(a: &str, b: &str) -> (r: bool)
    ensures
        r == (a@ == b@),
{
    let alen = a.unicode_len();
    let blen = b.unicode_len();
    if alen != blen {
        return false;
    }
    let mut i: usize = 0;
    while i < alen
        invariant
            0 <= i <= alen,
            alen == a@.len(),
            alen == b@.len(),
            forall|k: int| 0 <= k < i ==> a@[k] == b@[k],
        decreases alen - i,
    {
        if a.get_char(i) as u32 != b.get_char(i) as u32 {
            proof {
                assert(a@[i as int] != b@[i as int]) by {
                    assert(a@[i as int] as u32 != b@[i as int] as u32);
                }
            }
            return false;
        }
        i += 1;
    }
    proof {
        assert(a@ =~= b@);
    }
    true
}

} // verus!
