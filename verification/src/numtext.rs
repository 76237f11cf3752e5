//! Decimal text form of fixed-point values.
//!
//! A coordinate serializes to an optional `-` sign, the whole units in
//! decimal, and, when the value is not whole, a `.` and one to three
//! fractional digits with trailing zeros stripped.  Parsing accepts an
//! optional sign, digits, and an optional fractional part of any length,
//! truncating fractional digits beyond the stored thousandths.

use vstd::prelude::*;
use vstd::string::StringExecFns;

use crate::fixed::{Fixed, RAW_LIMIT};

verus! {

/// The decimal digit a character denotes, or `10` for any other character.
pub open spec fn char_digit(c: char) -> int {
    if c == '0' {
        0
    } else if c == '1' {
        1
    } else if c == '2' {
        2
    } else if c == '3' {
        3
    } else if c == '4' {
        4
    } else if c == '5' {
        5
    } else if c == '6' {
        6
    } else if c == '7' {
        7
    } else if c == '8' {
        8
    } else if c == '9' {
        9
    } else {
        10
    }
}

/// Whether `c` is a decimal digit.
pub open spec fn is_digit(c: char) -> bool {
    char_digit(c) < 10
}

/// The character for a decimal digit.
pub open spec fn digit_char(d: int) -> char {
    if d == 0 {
        '0'
    } else if d == 1 {
        '1'
    } else if d == 2 {
        '2'
    } else if d == 3 {
        '3'
    } else if d == 4 {
        '4'
    } else if d == 5 {
        '5'
    } else if d == 6 {
        '6'
    } else if d == 7 {
        '7'
    } else if d == 8 {
        '8'
    } else {
        '9'
    }
}

/// Decimal text of a natural number, most significant digit first.
pub open spec fn dec_str(n: nat) -> Seq<char>
    decreases n,
{
    if n < 10 {
        seq![digit_char(n as int)]
    } else {
        dec_str(n / 10).push(digit_char((n % 10) as int))
    }
}

/// The number a digit string denotes.
pub open spec fn digits_val(s: Seq<char>) -> int
    decreases s.len(),
{
    if s.len() == 0 {
        0
    } else {
        digits_val(s.drop_last()) * 10 + char_digit(s.last())
    }
}

/// Whether every character of `s` is a decimal digit.
pub open spec fn all_digits(s: Seq<char>) -> bool {
    forall|k: int| 0 <= k < s.len() ==> is_digit(#[trigger] s[k])
}

/// Text of a fractional part of `f` thousandths, `1 <= f <= 999`:
/// three digits with trailing zeros stripped.
pub open spec fn frac_str(f: int) -> Seq<char> {
    let d1 = digit_char(f / 100);
    let d2 = digit_char((f / 10) % 10);
    let d3 = digit_char(f % 10);
    if f % 10 != 0 {
        seq![d1, d2, d3]
    } else if (f / 10) % 10 != 0 {
        seq![d1, d2]
    } else {
        seq![d1]
    }
}

/// Thousandths denoted by fractional digits; digits beyond the third are
/// truncated, missing digits count as zero.
pub open spec fn frac_val(s: Seq<char>) -> int {
    let d1 = if s.len() > 0 {
        char_digit(s[0])
    } else {
        0
    };
    let d2 = if s.len() > 1 {
        char_digit(s[1])
    } else {
        0
    };
    let d3 = if s.len() > 2 {
        char_digit(s[2])
    } else {
        0
    };
    d1 * 100 + d2 * 10 + d3
}

/// Canonical text of a raw fixed-point value.
pub open spec fn num_str(v: int) -> Seq<char> {
    let mag = if v < 0 {
        -v
    } else {
        v
    };
    let sign: Seq<char> = if v < 0 {
        seq!['-']
    } else {
        seq![]
    };
    let whole = dec_str((mag / 1000) as nat);
    if mag % 1000 == 0 {
        sign + whole
    } else {
        sign + whole + seq!['.'] + frac_str(mag % 1000)
    }
}

/// Index of the first `.` in `s`, or `s.len()` if there is none.
pub open spec fn dot_pos(s: Seq<char>) -> int
    decreases s.len(),
{
    if s.len() == 0 {
        0
    } else if s[0] == '.' {
        0
    } else {
        1 + dot_pos(s.drop_first())
    }
}

/// The raw value a numeric token denotes: an optional sign, whole digits, an
/// optional `.` and fractional digits.  `None` when the token is malformed
/// or its magnitude exceeds [`RAW_LIMIT`].
pub open spec fn parse_num(s: Seq<char>) -> Option<int> {
    if s.len() == 0 {
        None
    } else {
        let neg = s[0] == '-';
        let t = if s[0] == '-' || s[0] == '+' {
            s.drop_first()
        } else {
            s
        };
        let k = dot_pos(t);
        let ip = t.take(k);
        let fp = if k < t.len() {
            t.skip(k + 1)
        } else {
            Seq::<char>::empty()
        };
        if !all_digits(ip) || !all_digits(fp) || ip.len() + fp.len() == 0 {
            None
        } else {
            let v = digits_val(ip) * 1000 + frac_val(fp);
            if v > RAW_LIMIT {
                None
            } else if neg {
                Some(-v)
            } else {
                Some(v)
            }
        }
    }
}

/// Digit characters decode back to their digit.
pub proof fn lemma_digit_char(d: int)
    requires
        0 <= d < 10,
    ensures
        char_digit(digit_char(d)) == d,
        is_digit(digit_char(d)),
{
}

/// Decimal text denotes the number it was printed from, and is all digits.
pub proof fn lemma_dec_str_val(n: nat)
    ensures
        digits_val(dec_str(n)) == n,
        all_digits(dec_str(n)),
        dec_str(n).len() >= 1,
        dec_str(n)[0] != '.',
    decreases n,
{
    if n < 10 {
        lemma_digit_char(n as int);
        let s = dec_str(n);
        assert(s =~= seq![digit_char(n as int)]);
        assert(s.drop_last() =~= Seq::<char>::empty());
        assert(s.last() == digit_char(n as int));
        assert(digits_val(s.drop_last()) == 0);
        assert(digits_val(s) == 0 * 10 + char_digit(digit_char(n as int)));
    } else {
        lemma_dec_str_val(n / 10);
        lemma_digit_char((n % 10) as int);
        let s = dec_str(n);
        assert(s =~= dec_str(n / 10).push(digit_char((n % 10) as int)));
        assert(s.drop_last() =~= dec_str(n / 10));
        assert(digits_val(s) == (n / 10) * 10 + n % 10);
        assert((n / 10) * 10 + n % 10 == n) by (nonlinear_arith);
    }
}

/// Fractional text denotes the thousandths it was printed from.
pub proof fn lemma_frac_round(f: int)
    requires
        1 <= f <= 999,
    ensures
        frac_val(frac_str(f)) == f,
        all_digits(frac_str(f)),
        1 <= frac_str(f).len() <= 3,
{
    lemma_digit_char(f / 100);
    lemma_digit_char((f / 10) % 10);
    lemma_digit_char(f % 10);
    assert(f == (f / 100) * 100 + ((f / 10) % 10) * 10 + f % 10) by (nonlinear_arith)
        requires
            1 <= f <= 999,
    ;
}

/// A digit string holds no dot.
pub proof fn lemma_dot_pos_digits(s: Seq<char>)
    requires
        all_digits(s),
    ensures
        dot_pos(s) == s.len(),
    decreases s.len(),
{
    if s.len() > 0 {
        assert(is_digit(s[0]));
        assert(all_digits(s.drop_first())) by {
            assert(forall|k: int|
                0 <= k < s.drop_first().len() ==> #[trigger] s.drop_first()[k] == s[k + 1]);
        }
        lemma_dot_pos_digits(s.drop_first());
    }
}

/// The first dot after a digit prefix stands right after that prefix.
pub proof fn lemma_dot_pos_concat(a: Seq<char>, b: Seq<char>)
    requires
        all_digits(a),
    ensures
        dot_pos(a + seq!['.'] + b) == a.len(),
    decreases a.len(),
{
    let s = a + seq!['.'] + b;
    if a.len() == 0 {
        assert(s[0] == '.');
    } else {
        assert(is_digit(a[0]));
        assert(s[0] == a[0]);
        assert(s[0] != '.');
        assert(all_digits(a.drop_first())) by {
            assert(forall|k: int|
                0 <= k < a.drop_first().len() ==> #[trigger] a.drop_first()[k] == a[k + 1]);
        }
        lemma_dot_pos_concat(a.drop_first(), b);
        assert(s.drop_first() =~= a.drop_first() + seq!['.'] + b);
    }
}

/// Characters that can appear in the canonical text of a number.
pub open spec fn is_num_char(c: char) -> bool {
    is_digit(c) || c == '-' || c == '.'
}

/// The canonical text of a number is nonempty and holds only digits, the
/// sign, and the decimal dot.
pub proof fn lemma_num_str_chars(v: int)
    ensures
        num_str(v).len() >= 1,
        forall|k: int| 0 <= k < num_str(v).len() ==> is_num_char(#[trigger] num_str(v)[k]),
{
    let mag = if v < 0 {
        -v
    } else {
        v
    };
    lemma_dec_str_val((mag / 1000) as nat);
    if mag % 1000 != 0 {
        lemma_frac_round(mag % 1000);
    }
}

/// Round trip: parsing the canonical text of an in-range value gives back
/// exactly that value.
pub proof fn lemma_num_round_trip(v: int)
    requires
        -RAW_LIMIT <= v <= RAW_LIMIT,
    ensures
        parse_num(num_str(v)) == Some(v),
{
    let mag = if v < 0 {
        -v
    } else {
        v
    };
    let whole = dec_str((mag / 1000) as nat);
    lemma_dec_str_val((mag / 1000) as nat);
    let s = num_str(v);
    assert(mag == (mag / 1000) * 1000 + mag % 1000) by (nonlinear_arith);
    if mag % 1000 == 0 {
        let body = whole;
        if v < 0 {
            assert(s =~= seq!['-'] + body);
            assert(s[0] == '-');
            assert(s.drop_first() =~= body);
        } else {
            assert(s =~= body);
            assert(is_digit(s[0]));
        }
        let t = if s[0] == '-' || s[0] == '+' {
            s.drop_first()
        } else {
            s
        };
        assert(t =~= whole);
        lemma_dot_pos_digits(t);
        assert(t.take(t.len() as int) =~= t);
        let fp = Seq::<char>::empty();
        assert(frac_val(fp) == 0);
        assert(digits_val(t) * 1000 + 0 == mag);
    } else {
        lemma_frac_round(mag % 1000);
        let fr = frac_str(mag % 1000);
        let body = whole + seq!['.'] + fr;
        if v < 0 {
            assert(s =~= seq!['-'] + body);
            assert(s[0] == '-');
            assert(s.drop_first() =~= body);
        } else {
            assert(s =~= body);
            assert(s[0] == whole[0]);
            assert(is_digit(s[0]));
        }
        let t = if s[0] == '-' || s[0] == '+' {
            s.drop_first()
        } else {
            s
        };
        assert(t =~= body);
        lemma_dot_pos_concat(whole, fr);
        assert(dot_pos(t) == whole.len());
        assert(t.take(whole.len() as int) =~= whole);
        assert(t.skip(whole.len() as int + 1) =~= fr);
        assert(digits_val(whole) * 1000 + frac_val(fr) == mag);
    }
}

} // verus!

verus! {

/// Digits grow with their digit string: a longer digit string denotes at
/// least as much as any of its prefixes, and never a negative number.
pub proof fn lemma_digits_val_prefix(s: Seq<char>, k: int)
    requires
        0 <= k <= s.len(),
    ensures
        digits_val(s) >= digits_val(s.take(k)),
        digits_val(s.take(k)) >= 0,
    decreases s.len(),
{
    if s.len() == 0 {
        assert(s.take(k) =~= s);
    } else if k == s.len() {
        assert(s.take(k) =~= s);
        lemma_digits_val_prefix(s.drop_last(), k - 1);
        assert(s.drop_last() =~= s.drop_last().take(k - 1));
        assert(char_digit(s.last()) >= 0);
        assert(digits_val(s.drop_last()) * 10 >= digits_val(s.drop_last())) by (nonlinear_arith)
            requires
                digits_val(s.drop_last()) >= 0,
        ;
    } else {
        lemma_digits_val_prefix(s.drop_last(), k);
        assert(s.drop_last().take(k) =~= s.take(k));
        assert(digits_val(s.drop_last()) * 10 >= digits_val(s.drop_last())) by (nonlinear_arith)
            requires
                digits_val(s.drop_last()) >= 0,
        ;
        assert(char_digit(s.last()) >= 0);
    }
}

/// If no dot stands before position `m` and one stands at `m` (or `m` is the
/// end), then `m` is the first dot position.
pub proof fn lemma_dot_pos_at(s: Seq<char>, m: int)
    requires
        0 <= m <= s.len(),
        forall|j: int| 0 <= j < m ==> s[j] != '.',
        m < s.len() ==> s[m] == '.',
    ensures
        dot_pos(s) == m,
    decreases s.len(),
{
    if s.len() == 0 {
    } else if m == 0 {
    } else {
        assert(s[0] != '.');
        let t = s.drop_first();
        assert(forall|j: int| 0 <= j < m - 1 ==> #[trigger] t[j] == s[j + 1]);
        assert(m - 1 < t.len() ==> t[m - 1] == s[m]);
        lemma_dot_pos_at(t, m - 1);
    }
}

/// Appends one decimal digit character.
fn push_digit(s: &mut String, d: u8)
    requires
        d < 10,
    ensures
        final(s)@ == old(s)@ + seq![digit_char(d as int)],
{
    match d {
        0 => {
            proof {
                reveal_strlit("0");
            }
            s.append("0");
        },
        1 => {
            proof {
                reveal_strlit("1");
            }
            s.append("1");
        },
        2 => {
            proof {
                reveal_strlit("2");
            }
            s.append("2");
        },
        3 => {
            proof {
                reveal_strlit("3");
            }
            s.append("3");
        },
        4 => {
            proof {
                reveal_strlit("4");
            }
            s.append("4");
        },
        5 => {
            proof {
                reveal_strlit("5");
            }
            s.append("5");
        },
        6 => {
            proof {
                reveal_strlit("6");
            }
            s.append("6");
        },
        7 => {
            proof {
                reveal_strlit("7");
            }
            s.append("7");
        },
        _ => {
            proof {
                reveal_strlit("8");
                reveal_strlit("9");
            }
            if d == 8 {
                s.append("8");
            } else {
                s.append("9");
            }
        },
    }
    proof {
        assert(final(s)@ =~= old(s)@ + seq![digit_char(d as int)]);
    }
}

/// Appends the decimal text of `n`.
fn push_dec(s: &mut String, n: u64)
    ensures
        final(s)@ == old(s)@ + dec_str(n as nat),
    decreases n,
{
    if n < 10 {
        push_digit(s, n as u8);
    } else {
        push_dec(s, n / 10);
        push_digit(s, (n % 10) as u8);
        proof {
            assert(final(s)@ =~= old(s)@ + dec_str(n as nat));
        }
    }
}

/// Appends the canonical text of a fixed-point value.
pub fn push_num(s: &mut String, v: Fixed)
    ensures
        final(s)@ == old(s)@ + num_str(v@),
{
    proof {
        reveal_strlit("-");
        reveal_strlit(".");
        assert(("-")@ =~= seq!['-']);
        assert((".")@ =~= seq!['.']);
    }
    let mag: u64 = if v.raw < 0 {
        ((-(v.raw as i128)) as u64)
    } else {
        v.raw as u64
    };
    if v.raw < 0 {
        s.append("-");
    }
    push_dec(s, mag / 1000);
    let f = mag % 1000;
    if f != 0 {
        s.append(".");
        let d1 = (f / 100) as u8;
        let d2 = ((f / 10) % 10) as u8;
        let d3 = (f % 10) as u8;
        push_digit(s, d1);
        if d3 != 0 {
            push_digit(s, d2);
            push_digit(s, d3);
        } else if d2 != 0 {
            push_digit(s, d2);
        }
    }
    proof {
        assert(final(s)@ =~= old(s)@ + num_str(v@));
    }
}

/// The decimal digit an executable character denotes, `10` otherwise.
pub fn digit_of(c: char) -> (r: u8)
    ensures
        r as int == char_digit(c),
{
    match c {
        '0' => 0,
        '1' => 1,
        '2' => 2,
        '3' => 3,
        '4' => 4,
        '5' => 5,
        '6' => 6,
        '7' => 7,
        '8' => 8,
        '9' => 9,
        _ => 10,
    }
}

/// Parses the numeric token held in `t` from position `start` to the end.
/// Returns exactly what the grammar's number rule denotes there.
#[verifier::loop_isolation(false)]
#[verifier::rlimit(60)]
pub fn parse_num_vec(t: &Vec<char>, start: usize) -> (r: Option<i64>)
    requires
        start <= t.len(),
    ensures
        match r {
            Some(x) => parse_num(t@.skip(start as int)) == Some(x as int),
            None => parse_num(t@.skip(start as int)) is None,
        },
{
    let ghost s = t@.skip(start as int);
    let end = t.len();
    if start == end {
        return None;
    }
    let c0 = t[start];
    let neg = c0 == '-';
    let p: usize = if c0 == '-' || c0 == '+' {
        start + 1
    } else {
        start
    };
    let ghost tt = t@.skip(p as int);
    proof {
        if c0 == '-' || c0 == '+' {
            assert(tt =~= s.drop_first());
        } else {
            assert(tt =~= s);
        }
        assert(s[0] == c0);
        assert(tt == if s[0] == '-' || s[0] == '+' {
            s.drop_first()
        } else {
            s
        });
    }
    // find the first dot
    let mut k: usize = p;
    while k < end && t[k] != '.'
        invariant
            p <= k <= end,
            end == t.len(),
            forall|j: int| p <= j < k ==> t@[j] != '.',
        decreases end - k,
    {
        k = k + 1;
    }
    proof {
        assert(forall|j: int| 0 <= j < k - p ==> #[trigger] tt[j] == t@[j + p]);
        assert(forall|j: int| 0 <= j < k - p ==> #[trigger] tt[j] != '.');
        assert(k < end ==> tt[k - p] == t@[k as int]);
        lemma_dot_pos_at(tt, k - p);
    }
    let ghost ip = tt.take(k - p);
    let ghost fp = if k < end {
        tt.skip(k - p + 1)
    } else {
        Seq::<char>::empty()
    };
    // whole part
    let mut acc: u64 = 0;
    let mut j: usize = p;
    proof {
        assert(tt.take(0) =~= Seq::<char>::empty());
    }
    while j < k
        invariant
            p <= j <= k <= end,
            end == t.len(),
            tt == t@.skip(p as int),
            ip == tt.take(k - p),
            acc as int == digits_val(tt.take(j - p)),
            acc <= RAW_LIMIT as u64,
            all_digits(tt.take(j - p)),
        decreases k - j,
    {
        let d = digit_of(t[j]);
        proof {
            assert(tt[j - p] == t@[j as int]);
        }
        if d >= 10 {
            // a non-digit in the whole part
            proof {
                assert(!is_digit(ip[j - p]));
            }
            return None;
        }
        proof {
            assert(tt.take(j - p + 1).drop_last() =~= tt.take(j - p));
            assert(tt.take(j - p + 1).last() == tt[j - p]);
        }
        acc = acc * 10 + d as u64;
        if acc > RAW_LIMIT as u64 {
            // magnitude beyond the representable range
            proof {
                lemma_digits_val_prefix(ip, j + 1 - p);
                assert(tt.take(j - p + 1) =~= ip.take(j + 1 - p));
                assert(digits_val(ip) >= acc as int);
                if all_digits(ip) && all_digits(fp) {
                    assert(frac_val(fp) >= 0);
                    assert(digits_val(ip) * 1000 >= digits_val(ip)) by (nonlinear_arith)
                        requires
                            digits_val(ip) >= 0,
                    ;
                    assert(digits_val(ip) * 1000 + frac_val(fp) > RAW_LIMIT);
                }
            }
            return None;
        }
        j = j + 1;
    }
    proof {
        assert(tt.take(k - p) == ip);
    }
    // fractional part
    let mut f: u64 = 0;
    if k < end {
        let mut d1: u8 = 0;
        let mut d2: u8 = 0;
        let mut d3: u8 = 0;
        let mut j2: usize = k + 1;
        while j2 < end
            invariant
                k + 1 <= j2 <= end,
                end == t.len(),
                tt == t@.skip(p as int),
                p <= k < end,
                fp == tt.skip(k - p + 1),
                forall|j: int| 0 <= j < j2 - k - 1 ==> is_digit(#[trigger] fp[j]),
                d1 as int == if j2 > k + 1 {
                    char_digit(fp[0])
                } else {
                    0
                },
                d2 as int == if j2 > k + 2 {
                    char_digit(fp[1])
                } else {
                    0
                },
                d3 as int == if j2 > k + 3 {
                    char_digit(fp[2])
                } else {
                    0
                },
                d1 < 10 && d2 < 10 && d3 < 10,
            decreases end - j2,
        {
            let d = digit_of(t[j2]);
            proof {
                assert(fp[j2 - k - 1] == t@[j2 as int]);
            }
            if d >= 10 {
                proof {
                    assert(!is_digit(fp[j2 - k - 1]));
                }
                return None;
            }
            if j2 == k + 1 {
                d1 = d;
            } else if j2 == k + 2 {
                d2 = d;
            } else if j2 == k + 3 {
                d3 = d;
            }
            j2 = j2 + 1;
        }
        f = d1 as u64 * 100 + d2 as u64 * 10 + d3 as u64;
        proof {
            assert(fp.len() == end - k - 1);
            assert(all_digits(fp));
            assert(f as int == frac_val(fp));
        }
    } else {
        proof {
            assert(frac_val(fp) == 0);
        }
    }
    if k == p && k == end {
        // no digits at all
        return None;
    }
    if k == p && k + 1 == end {
        // a lone dot
        proof {
            assert(ip.len() == 0 && fp.len() == 0);
        }
        return None;
    }
    let v: u64 = acc * 1000 + f;
    proof {
        assert(v as int == digits_val(ip) * 1000 + frac_val(fp));
    }
    if v > RAW_LIMIT as u64 {
        return None;
    }
    if neg {
        Some(-(v as i64))
    } else {
        Some(v as i64)
    }
}

} // verus!
