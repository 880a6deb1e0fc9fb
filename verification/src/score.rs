//! Scores for the sorted sets: exact decimals held in fixed point, with nine
//! fractional digits, ordered numerically.

use vstd::prelude::*;

verus! {

use vstd::string::StrSliceExecFns;
use vstd::string::StringExecFns;
use crate::text::{
    dec_str_of,
    digit_val,
    digits_val,
    is_digit,
    is_digit_seq,
    lemma_digits_val_bounds,
    lemma_digits_val_prefix,
    u64_to_string,
};

/// How many fixed-point units make one whole: nine decimal digits.
pub const SCORE_SCALE: i128 = 1000000000;

/// The largest admissible whole part, exclusive.
pub const SCORE_WHOLE_LIMIT: u64 = 1000000000000000000;

/// A score: a decimal number with at most nine fractional digits, held as a
/// scaled integer.
#[derive(Clone, Copy, Debug, PartialEq, Eq, Structural)]
pub struct Score {
    pub units: i128,
}

impl Score {
    /// The scaled value stays within the range the parser admits.
    pub open spec fn wf(&self) -> bool {
        -1000000000000000000000000000 < (self.units as int)
            && (self.units as int) < 1000000000000000000000000000
    }

    /// Builds a score directly from scaled units.
    pub fn from_units(units: i128) -> (r: Score)
        ensures
            r.units == units,
    {
        Score { units }
    }

    /// Numeric comparison.
    pub fn lt(&self, other: &Score) -> (r: bool)
        ensures
            r == (self.units < other.units),
    {
        self.units < other.units
    }

    /// Numeric equality.
    pub fn eq_val(&self, other: &Score) -> (r: bool)
        ensures
            r == (self.units == other.units),
    {
        self.units == other.units
    }
}

// ---------------------------------------------------------------------------
// Reading a score from text
// ---------------------------------------------------------------------------

/// Powers of ten.
pub open spec fn pow10(n: nat) -> int
    decreases n,
{
    if n == 0 {
        1
    } else {
        10 * pow10((n - 1) as nat)
    }
}

/// The index of the first dot, or `-1`.
pub open spec fn find_dot(s: Seq<char>) -> int
    decreases s.len(),
{
    if s.len() == 0 {
        -1
    } else if s[0] == '.' {
        0
    } else {
        let r = find_dot(s.drop_first());
        if r < 0 {
            -1
        } else {
            1 + r
        }
    }
}

pub proof fn lemma_find_dot(s: Seq<char>)
    ensures
        find_dot(s) == -1 ==> forall|i: int| 0 <= i < s.len() ==> #[trigger] s[i] != '.',
        find_dot(s) >= 0 ==> {
            &&& find_dot(s) < s.len()
            &&& s[find_dot(s)] == '.'
            &&& forall|i: int| 0 <= i < find_dot(s) ==> #[trigger] s[i] != '.'
        },
    decreases s.len(),
{
    if s.len() > 0 && s[0] != '.' {
        lemma_find_dot(s.drop_first());
        assert(forall|i: int| 1 <= i < s.len() ==> #[trigger] s[i] == s.drop_first()[i - 1]);
    }
}

/// The scaled value a decimal numeral denotes: an optional sign, a whole
/// part, and at most nine fractional digits; at least one digit in all.
pub open spec fn score_of_text(s: Seq<char>) -> Option<int> {
    let signed = s.len() >= 1 && (s[0] == '-' || s[0] == '+');
    let body = if signed {
        s.drop_first()
    } else {
        s
    };
    let neg = signed && s[0] == '-';
    let d = find_dot(body);
    let magnitude = if d == -1 {
        if body.len() >= 1 && is_digit_seq(body) && digits_val(body) < SCORE_WHOLE_LIMIT as int {
            Some(digits_val(body) * (SCORE_SCALE as int))
        } else {
            None
        }
    } else {
        let whole = body.take(d);
        let frac = body.skip(d + 1);
        if is_digit_seq(whole) && is_digit_seq(frac) && whole.len() + frac.len() >= 1
            && frac.len() <= 9 && find_dot(body.skip(d + 1)) == -1 && digits_val(whole)
            < SCORE_WHOLE_LIMIT as int {
            Some(
                digits_val(whole) * (SCORE_SCALE as int) + digits_val(frac) * pow10(
                    (9 - frac.len()) as nat,
                ),
            )
        } else {
            None
        }
    };
    match magnitude {
        Some(m) => Some(
            if neg {
                -m
            } else {
                m
            },
        ),
        None => None,
    }
}

/// Reads a span of digits as a number below the whole-part limit.
fn read_digits(s: &str, from: usize, to: usize) -> (r: Result<u64, ()>)
    requires
        from <= to <= s@.len(),
    ensures
        match r {
            Ok(v) => {
                &&& is_digit_seq(s@.subrange(from as int, to as int))
                &&& v == digits_val(s@.subrange(from as int, to as int))
                &&& v < SCORE_WHOLE_LIMIT
            },
            Err(_) => !(is_digit_seq(s@.subrange(from as int, to as int)) && digits_val(
                s@.subrange(from as int, to as int),
            ) < SCORE_WHOLE_LIMIT as int),
        },
{
    let mut v: u64 = 0;
    let mut j: usize = from;
    while j < to
        invariant
            from <= j <= to <= s@.len(),
            is_digit_seq(s@.subrange(from as int, j as int)),
            v == digits_val(s@.subrange(from as int, j as int)),
            v < SCORE_WHOLE_LIMIT,
        decreases to - j,
    {
        let cu = s.get_char(j) as u32;
        if cu < 48 || cu > 57 {
            proof {
                assert(!is_digit(s@.subrange(from as int, to as int)[j - from]));
            }
            return Err(());
        }
        let d: u64 = (cu as u64) - 48;
        proof {
            assert(s@.subrange(from as int, j + 1).drop_last() =~= s@.subrange(
                from as int,
                j as int,
            ));
            assert(s@.subrange(from as int, j + 1).last() == s@[j as int]);
        }
        if v >= 100000000000000000u64 {
            // the whole part would reach the limit
            proof {
                let all = s@.subrange(from as int, to as int);
                if is_digit_seq(all) {
                    assert(s@.subrange(from as int, j + 1) =~= all.take(j + 1 - from));
                    lemma_digits_val_prefix(all, j + 1 - from);
                    assert(digits_val(all.take(j + 1 - from)) == v * 10 + d);
                }
            }
            return Err(());
        }
        v = v * 10 + d;
        j += 1;
    }
    Ok(v)
}

/// The scaling factor for a fraction of the given length.
fn frac_multiplier(frac_len: usize) -> (r: u64)
    requires
        frac_len <= 9,
    ensures
        r == pow10((9 - frac_len) as nat),
        1 <= r <= 1000000000,
{
    proof {
        reveal_with_fuel(pow10, 10);
    }
    if frac_len == 0 {
        1000000000
    } else if frac_len == 1 {
        100000000
    } else if frac_len == 2 {
        10000000
    } else if frac_len == 3 {
        1000000
    } else if frac_len == 4 {
        100000
    } else if frac_len == 5 {
        10000
    } else if frac_len == 6 {
        1000
    } else if frac_len == 7 {
        100
    } else if frac_len == 8 {
        10
    } else {
        1
    }
}

/// Finds the first dot at or after `from`.
fn find_dot_from(s: &str, from: usize) -> (r: Option<usize>)
    requires
        from <= s@.len(),
    ensures
        ({
            let body = s@.subrange(from as int, s@.len() as int);
            match r {
                Some(j) => from <= j < s@.len() && find_dot(body) == j - from,
                None => find_dot(body) == -1,
            }
        }),
{
    let ghost body = s@.subrange(from as int, s@.len() as int);
    let len = s.unicode_len();
    let mut j: usize = from;
    while j < len
        invariant
            from <= j <= len,
            len == s@.len(),
            body == s@.subrange(from as int, len as int),
            forall|i: int| 0 <= i < j - from ==> #[trigger] body[i] != '.',
        decreases len - j,
    {
        if s.get_char(j) == '.' {
            proof {
                lemma_find_dot(body);
                assert(body[j - from] == '.');
            }
            return Some(j);
        }
        j += 1;
    }
    proof {
        lemma_find_dot(body);
        if find_dot(body) >= 0 {
            assert(body[find_dot(body)] == '.');
        }
    }
    None
}

/// Powers of ten grow with the exponent.
proof fn lemma_pow10_mono(a: nat, b: nat)
    requires
        a <= b,
    ensures
        pow10(a) <= pow10(b),
    decreases b,
{
    if a < b {
        lemma_pow10_mono(a, (b - 1) as nat);
        assert(pow10(b) == 10 * pow10((b - 1) as nat));
        assert(pow10((b - 1) as nat) >= 1) by {
            lemma_pow10_pos((b - 1) as nat);
        }
    }
}

proof fn lemma_pow10_pos(a: nat)
    ensures
        pow10(a) >= 1,
    decreases a,
{
    if a > 0 {
        lemma_pow10_pos((a - 1) as nat);
    }
}

/// Reads a score from its decimal text. Fails exactly where the text is not
/// a plain decimal numeral within range.
#[verifier::rlimit(60)]
pub fn parse_score(s: &str) -> (r: Result<Score, ()>)
    ensures
        match r {
            Ok(sc) => score_of_text(s@) == Some(sc.units as int) && sc.wf(),
            Err(_) => score_of_text(s@) is None,
        },
{
    let len = s.unicode_len();
    let mut from: usize = 0;
    let mut neg = false;
    if len >= 1 {
        let c0 = s.get_char(0);
        if c0 == '-' {
            neg = true;
            from = 1;
        } else if c0 == '+' {
            from = 1;
        }
    }
    let ghost body = if from == 1 {
        s@.drop_first()
    } else {
        s@
    };
    proof {
        assert(body =~= s@.subrange(from as int, len as int));
    }
    let dot_found = find_dot_from(s, from);
    if dot_found.is_none() {
        // no dot: the body is all digits
        if from == len {
            proof {
                assert(body.len() == 0);
            }
            return Err(());
        }
        match read_digits(s, from, len) {
            Ok(v) => {
                let units: i128 = (v as i128) * SCORE_SCALE;
                proof {
                    assert(body =~= s@.subrange(from as int, len as int));
                }
                Ok(Score { units: if neg {
                    -units
                } else {
                    units
                } })
            },
            Err(_) => Err(()),
        }
    } else {
        // a dot at position `dot`
        let dot = dot_found.unwrap();
        let ghost d = (dot - from) as int;
        proof {
            assert(find_dot(body) == d);
        }
        let frac_len = len - dot - 1;
        if frac_len > 9 {
            return Err(());
        }
        if from == dot && dot + 1 == len {
            // a bare dot with no digits at all
            proof {
                assert(body.take(d).len() + body.skip(d + 1).len() == 0);
            }
            return Err(());
        }
        let whole = match read_digits(s, from, dot) {
            Ok(v) => v,
            Err(_) => {
                proof {
                    assert(body.take(d) =~= s@.subrange(from as int, dot as int));
                }
                return Err(());
            },
        };
        let frac = match read_digits(s, dot + 1, len) {
            Ok(v) => v,
            Err(_) => {
                proof {
                    assert(body.skip(d + 1) =~= s@.subrange(dot + 1, len as int));
                    if is_digit_seq(body.skip(d + 1)) {
                        lemma_digits_val_bounds(body.skip(d + 1));
                        lemma_digits_val_upper(body.skip(d + 1));
                        reveal_with_fuel(pow10, 10);
                        lemma_pow10_mono(body.skip(d + 1).len() as nat, 18nat);
                    }
                }
                return Err(());
            },
        };
        proof {
            assert(body.take(d) =~= s@.subrange(from as int, dot as int));
            assert(body.skip(d + 1) =~= s@.subrange(dot + 1, len as int));
            assert(body.skip(d + 1).len() == frac_len);
            lemma_digits_val_frac_bound(body.skip(d + 1));
            lemma_find_dot_after(body, d);
            lemma_find_dot(body.skip(d + 1));
            if find_dot(body.skip(d + 1)) >= 0 {
                assert(is_digit(body.skip(d + 1)[find_dot(body.skip(d + 1))]));
            }
            assert(find_dot(body.skip(d + 1)) == -1);
        }
        let mult = frac_multiplier(frac_len);
        let units: i128 = (whole as i128) * SCORE_SCALE + (frac as i128) * (mult as i128);
        proof {
            assert((frac as int) * (mult as int) < 1000000000000000000) by (nonlinear_arith)
                requires
                    0 <= (frac as int) && (frac as int) < 1000000000000000000,
                    1 <= (mult as int) && (mult as int) <= 1000000000,
                    (frac as int) * pow10((9 - frac_len) as nat) < 1000000000000000000,
                    mult == pow10((9 - frac_len) as nat),
            ;
        }
        Ok(Score { units: if neg {
            -units
        } else {
            units
        } })
    }
}

/// A fraction of at most nine digits scaled to nine digits stays below one
/// whole unit times the scale.
proof fn lemma_digits_val_frac_bound(fr: Seq<char>)
    requires
        is_digit_seq(fr),
        fr.len() <= 9,
    ensures
        0 <= digits_val(fr) * pow10((9 - fr.len()) as nat) < 1000000000,
    decreases fr.len(),
{
    reveal_with_fuel(pow10, 10);
    lemma_digits_val_bounds(fr);
    lemma_digits_val_upper(fr);
    let w = (9 - fr.len()) as nat;
    assert(digits_val(fr) < pow10(fr.len() as nat));
    assert(pow10(fr.len() as nat) * pow10(w) == 1000000000) by {
        lemma_pow10_add(fr.len() as nat, w);
    }
    assert(digits_val(fr) * pow10(w) < pow10(fr.len() as nat) * pow10(w)) by (nonlinear_arith)
        requires
            0 <= digits_val(fr) < pow10(fr.len() as nat),
            pow10(w) >= 1,
    ;
    assert(digits_val(fr) * pow10(w) >= 0) by (nonlinear_arith)
        requires
            digits_val(fr) >= 0,
            pow10(w) >= 1,
    ;
}

/// A digit string of length `n` denotes a value below `10^n`.
proof fn lemma_digits_val_upper(s: Seq<char>)
    requires
        is_digit_seq(s),
    ensures
        digits_val(s) < pow10(s.len() as nat),
    decreases s.len(),
{
    if s.len() > 0 {
        lemma_digits_val_upper(s.drop_last());
        assert(digit_val(s.last()) <= 9);
        assert(pow10(s.len() as nat) == 10 * pow10((s.len() - 1) as nat));
    }
}

proof fn lemma_pow10_add(a: nat, b: nat)
    ensures
        pow10(a) * pow10(b) == pow10(a + b),
    decreases a,
{
    if a == 0 {
        assert(pow10(0) == 1);
    } else {
        lemma_pow10_add((a - 1) as nat, b);
        assert(pow10(a) == 10 * pow10((a - 1) as nat));
        assert((10 * pow10((a - 1) as nat)) * pow10(b) == 10 * (pow10((a - 1) as nat) * pow10(
            b,
        ))) by (nonlinear_arith);
        assert(pow10(a + b) == 10 * pow10((a + b - 1) as nat));
    }
}

/// Past a dot with no later dot, the fraction holds no dot.
proof fn lemma_find_dot_after(body: Seq<char>, d: int)
    requires
        0 <= d < body.len(),
        find_dot(body) == d,
    ensures
        ({
            let frac = body.skip(d + 1);
            forall|i: int| 0 <= i < frac.len() ==> #[trigger] frac[i] == body[i + d + 1]
        }),
{
}


// ---------------------------------------------------------------------------
// Rendering a score as text
// ---------------------------------------------------------------------------

/// Drops trailing zero digits from a `w`-digit fraction.
pub open spec fn strip_zeros(n: int, w: nat) -> (int, nat)
    decreases w,
{
    if w > 0 && n % 10 == 0 {
        strip_zeros(n / 10, (w - 1) as nat)
    } else {
        (n, w)
    }
}

/// The number `n` written with exactly `w` digits, leading zeros kept.
pub open spec fn padded(n: int, w: nat) -> Seq<char>
    decreases w,
{
    if w == 0 {
        Seq::empty()
    } else {
        padded(n / 10, (w - 1) as nat).push(crate::text::digit_char(n % 10))
    }
}

/// The canonical text of a scaled score: the whole part, then the fraction
/// with trailing zeros dropped, and no fraction at all when it is zero.
pub open spec fn score_text(v: int) -> Seq<char> {
    let a = if v < 0 {
        -v
    } else {
        v
    };
    let ip = a / (SCORE_SCALE as int);
    let fp = a % (SCORE_SCALE as int);
    let base = if fp == 0 {
        dec_str_of(ip as nat)
    } else {
        let sw = strip_zeros(fp, 9);
        dec_str_of(ip as nat) + seq!['.'] + padded(sw.0, sw.1)
    };
    if v < 0 {
        seq!['-'] + base
    } else {
        base
    }
}

/// Writes `n` with exactly `w` digits, leading zeros kept.
fn pad_str(n: u64, w: usize) -> (r: String)
    ensures
        r@ == padded(n as int, w as nat),
    decreases w,
{
    if w == 0 {
        String::new()
    } else {
        let mut r = pad_str(n / 10, w - 1);
        r.append(crate::text::digit_str(n % 10));
        proof {
            assert(r@ =~= padded((n / 10) as int, (w - 1) as nat).push(
                crate::text::digit_char(n as int % 10),
            ));
        }
        r
    }
}

impl Score {
    /// The canonical decimal text of the score.
    pub fn render(&self) -> (r: String)
        requires
            self.wf(),
        ensures
            r@ == score_text(self.units as int),
    {
        proof {
            reveal_strlit("-");
            reveal_strlit(".");
            reveal_with_fuel(pow10, 10);
        }
        let neg = self.units < 0;
        let a: i128 = if neg {
            -self.units
        } else {
            self.units
        };
        let ip: u64 = (a / SCORE_SCALE) as u64;
        let fp: u64 = (a % SCORE_SCALE) as u64;
        let mut r = if neg {
            String::from_str("-")
        } else {
            String::new()
        };
        r.append(u64_to_string(ip).as_str());
        if fp > 0 {
            r.append(".");
            let mut f: u64 = fp;
            let mut w: usize = 9;
            proof {
                assert(pow10(9) == 1000000000);
            }
            while f % 10 == 0
                invariant
                    0 <= w <= 9,
                    f >= 1,
                    f < pow10(w as nat),
                    strip_zeros(fp as int, 9) == strip_zeros(f as int, w as nat),
                decreases w,
            {
                proof {
                    if w == 0 {
                        assert(pow10(0) == 1);
                        assert(false);
                    }
                }
                f = f / 10;
                w -= 1;
                proof {
                    assert(pow10((w + 1) as nat) == 10 * pow10(w as nat));
                }
            }
            r.append(pad_str(f, w).as_str());
            proof {
                assert(strip_zeros(f as int, w as nat) == (f as int, w as nat));
                if neg {
                    assert(r@ =~= score_text(self.units as int));
                } else {
                    assert(r@ =~= score_text(self.units as int));
                }
            }
        } else {
            proof {
                assert(r@ =~= score_text(self.units as int));
            }
        }
        r
    }
}

} // verus!
