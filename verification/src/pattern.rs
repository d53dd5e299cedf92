use vstd::prelude::*;
use vstd::string::StrSliceExecFns;
use crate::calendar;
use crate::calendar::{lemma_valid_ymd_bounds, lemma_ymd_of_days_valid, ymd_of_days};
use crate::date::Date;

verus! {

// ---------------------------------------------------------------------------
// The pattern mini-language.
//
// A pattern is scanned left to right. The field tokens `yyyy`, `MM` and
// `dd` are replaced by the zero-padded year, month and day; the longest
// recognized token at the current position wins. A doubled quote emits one
// literal quote. A single quote opens a literal span that runs verbatim up
// to the next quote, which is consumed; an unterminated span extends to
// the end of the pattern. Everything else is emitted verbatim.
// ---------------------------------------------------------------------------

/// The decimal digit character for a value of 0 to 9.
pub open spec fn spec_digit_char(n: int) -> char {
    if n == 0 {
        '0'
    } else if n == 1 {
        '1'
    } else if n == 2 {
        '2'
    } else if n == 3 {
        '3'
    } else if n == 4 {
        '4'
    } else if n == 5 {
        '5'
    } else if n == 6 {
        '6'
    } else if n == 7 {
        '7'
    } else if n == 8 {
        '8'
    } else {
        '9'
    }
}

/// The decimal digits of a non-negative number, most significant first.
pub open spec fn spec_digits(n: int) -> Seq<char>
    decreases n,
{
    if n <= 9 {
        seq![spec_digit_char(n)]
    } else {
        spec_digits(n / 10).push(spec_digit_char(n % 10))
    }
}

/// The decimal digits of a non-negative number, zero-padded on the left to
/// at least `width` characters; longer numbers keep all their digits.
pub open spec fn spec_padded(n: int, width: int) -> Seq<char> {
    if spec_digits(n).len() >= width {
        spec_digits(n)
    } else {
        Seq::new((width - spec_digits(n).len()) as nat, |i: int| '0') + spec_digits(n)
    }
}

/// One step of the pattern scan: `literal` tells whether the position
/// stands inside a literal span.
pub open spec fn spec_format_rec(y: int, m: int, d: int, pat: Seq<char>, literal: bool) -> Seq<
    char,
>
    decreases pat.len(),
{
    if pat.len() == 0 {
        Seq::empty()
    } else if literal {
        if pat[0] == '\'' {
            spec_format_rec(y, m, d, pat.skip(1), false)
        } else {
            seq![pat[0]] + spec_format_rec(y, m, d, pat.skip(1), true)
        }
    } else if pat.len() >= 4 && pat[0] == 'y' && pat[1] == 'y' && pat[2] == 'y' && pat[3] == 'y' {
        spec_padded(y, 4) + spec_format_rec(y, m, d, pat.skip(4), false)
    } else if pat.len() >= 2 && pat[0] == 'M' && pat[1] == 'M' {
        spec_padded(m, 2) + spec_format_rec(y, m, d, pat.skip(2), false)
    } else if pat.len() >= 2 && pat[0] == 'd' && pat[1] == 'd' {
        spec_padded(d, 2) + spec_format_rec(y, m, d, pat.skip(2), false)
    } else if pat.len() >= 2 && pat[0] == '\'' && pat[1] == '\'' {
        seq!['\''] + spec_format_rec(y, m, d, pat.skip(2), false)
    } else if pat[0] == '\'' {
        spec_format_rec(y, m, d, pat.skip(1), true)
    } else {
        seq![pat[0]] + spec_format_rec(y, m, d, pat.skip(1), false)
    }
}

/// The text a pattern renders to for the date `(y, m, d)`.
pub open spec fn spec_format(y: int, m: int, d: int, pat: Seq<char>) -> Seq<char> {
    spec_format_rec(y, m, d, pat, false)
}

/// How many digits a number has, by size bracket.
proof fn lemma_digits_len(n: int)
    requires
        0 <= n,
    ensures
        n <= 9 ==> spec_digits(n).len() == 1,
        10 <= n <= 99 ==> spec_digits(n).len() == 2,
        100 <= n <= 999 ==> spec_digits(n).len() == 3,
        1000 <= n ==> spec_digits(n).len() >= 4,
    decreases n,
{
    if n > 9 {
        lemma_digits_len(n / 10);
    }
}

/// The decimal digit character for a value of 0 to 9.
fn digit_char(n: u32) -> (r: char)
    requires
        n <= 9,
    ensures
        r == spec_digit_char(n as int),
{
    match n {
        0 => '0',
        1 => '1',
        2 => '2',
        3 => '3',
        4 => '4',
        5 => '5',
        6 => '6',
        7 => '7',
        8 => '8',
        _ => '9',
    }
}

/// Appends the decimal digits of `n`, most significant first.
fn push_digits(out: &mut Vec<char>, n: u32)
    ensures
        final(out)@ == old(out)@ + spec_digits(n as int),
    decreases n,
{
    if n <= 9 {
        out.push(digit_char(n));
        proof {
            assert(out@ =~= old(out)@ + spec_digits(n as int));
        }
    } else {
        push_digits(out, n / 10);
        out.push(digit_char(n % 10));
        proof {
            assert(out@ =~= old(out)@ + spec_digits(n as int));
        }
    }
}

/// Appends the decimal digits of `n`, zero-padded on the left to at least
/// `width` characters.
fn push_number(out: &mut Vec<char>, n: u32, width: u32)
    requires
        width == 2 || width == 4,
    ensures
        final(out)@ == old(out)@ + spec_padded(n as int, width as int),
{
    proof {
        lemma_digits_len(n as int);
    }
    if width == 4 {
        if n <= 9 {
            out.push('0');
            out.push('0');
            out.push('0');
        } else if n <= 99 {
            out.push('0');
            out.push('0');
        } else if n <= 999 {
            out.push('0');
        }
    } else {
        if n <= 9 {
            out.push('0');
        }
    }
    push_digits(out, n);
    proof {
        assert(out@ =~= old(out)@ + spec_padded(n as int, width as int));
    }
}

/// Relies on String implementing FromIterator over chars: collecting a
/// vector of chars yields the string of exactly those chars in order.
#[verifier::external_body]
fn string_from_chars(v: Vec<char>) -> (r: String)
    ensures
        r@ == v@,
{
    v.into_iter().collect()
}

impl Date {
    /// Renders this date as text under the given pattern.
    pub fn format(&self, pattern: &str) -> (r: String)
        ensures
            ({
                let (y, m, d) = ymd_of_days(self.spec_days());
                r@ == spec_format(y, m, d, pattern@)
            }),
    {
        let days = self.as_days();
        proof {
            lemma_ymd_of_days_valid(days as int);
        }
        let (y, m, d) = calendar::ymd_from_days(days);
        proof {
            lemma_valid_ymd_bounds(y as int, m as int, d as int);
        }
        let yu: u32 = y as u32;
        let ghost gy = y as int;
        let ghost gm = m as int;
        let ghost gd = d as int;
        let ghost pat = pattern@;
        let n: usize = pattern.unicode_len();
        let mut out: Vec<char> = Vec::new();
        let mut i: usize = 0;
        let mut literal: bool = false;
        proof {
            assert(pat.skip(0) =~= pat);
            assert(out@ + spec_format_rec(gy, gm, gd, pat, false) =~= spec_format_rec(
                gy,
                gm,
                gd,
                pat,
                false,
            ));
        }
        while i < n
            invariant
                i <= n,
                n == pat.len(),
                pat == pattern@,
                yu as int == gy,
                m as int == gm,
                d as int == gd,
                spec_format_rec(gy, gm, gd, pat, false) == out@ + spec_format_rec(
                    gy,
                    gm,
                    gd,
                    pat.skip(i as int),
                    literal,
                ),
            decreases n - i,
        {
            let ghost rest = pat.skip(i as int);
            proof {
                assert(rest.len() == n - i);
                assert forall|k: int| 0 <= k < rest.len() implies rest[k] == pat[i + k] by {}
            }
            let c = pattern.get_char(i);
            if literal {
                let ghost before = out@;
                if c == '\'' {
                    literal = false;
                } else {
                    out.push(c);
                }
                proof {
                    assert(pat.skip(i as int + 1) =~= rest.skip(1));
                    if c != '\'' {
                        assert(before + (seq![rest[0]] + spec_format_rec(
                            gy,
                            gm,
                            gd,
                            rest.skip(1),
                            true,
                        )) =~= out@ + spec_format_rec(gy, gm, gd, rest.skip(1), true));
                    }
                }
                i = i + 1;
            } else if c == 'y' && n - i >= 4 && pattern.get_char(i + 1) == 'y' && pattern.get_char(
                i + 2,
            ) == 'y' && pattern.get_char(i + 3) == 'y' {
                let ghost before = out@;
                push_number(&mut out, yu, 4);
                proof {
                    assert(pat.skip(i as int + 4) =~= rest.skip(4));
                    assert(before + (spec_padded(gy, 4) + spec_format_rec(
                        gy,
                        gm,
                        gd,
                        rest.skip(4),
                        false,
                    )) =~= out@ + spec_format_rec(gy, gm, gd, rest.skip(4), false));
                }
                i = i + 4;
            } else if c == 'M' && n - i >= 2 && pattern.get_char(i + 1) == 'M' {
                let ghost before = out@;
                push_number(&mut out, m, 2);
                proof {
                    assert(pat.skip(i as int + 2) =~= rest.skip(2));
                    assert(before + (spec_padded(gm, 2) + spec_format_rec(
                        gy,
                        gm,
                        gd,
                        rest.skip(2),
                        false,
                    )) =~= out@ + spec_format_rec(gy, gm, gd, rest.skip(2), false));
                }
                i = i + 2;
            } else if c == 'd' && n - i >= 2 && pattern.get_char(i + 1) == 'd' {
                let ghost before = out@;
                push_number(&mut out, d, 2);
                proof {
                    assert(pat.skip(i as int + 2) =~= rest.skip(2));
                    assert(before + (spec_padded(gd, 2) + spec_format_rec(
                        gy,
                        gm,
                        gd,
                        rest.skip(2),
                        false,
                    )) =~= out@ + spec_format_rec(gy, gm, gd, rest.skip(2), false));
                }
                i = i + 2;
            } else if c == '\'' && n - i >= 2 && pattern.get_char(i + 1) == '\'' {
                let ghost before = out@;
                out.push('\'');
                proof {
                    assert(pat.skip(i as int + 2) =~= rest.skip(2));
                    assert(before + (seq!['\''] + spec_format_rec(gy, gm, gd, rest.skip(2), false))
                        =~= out@ + spec_format_rec(gy, gm, gd, rest.skip(2), false));
                }
                i = i + 2;
            } else if c == '\'' {
                literal = true;
                proof {
                    assert(pat.skip(i as int + 1) =~= rest.skip(1));
                }
                i = i + 1;
            } else {
                let ghost before = out@;
                out.push(c);
                proof {
                    assert(pat.skip(i as int + 1) =~= rest.skip(1));
                    assert(before + (seq![rest[0]] + spec_format_rec(gy, gm, gd, rest.skip(1), false))
                        =~= out@ + spec_format_rec(gy, gm, gd, rest.skip(1), false));
                }
                i = i + 1;
            }
        }
        proof {
            assert(pat.skip(n as int) =~= Seq::<char>::empty());
            assert(out@ + Seq::<char>::empty() =~= out@);
        }
        string_from_chars(out)
    }
}

} // verus!
