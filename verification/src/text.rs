//! Small verified text helpers: whitespace trimming, substring search and
//! replacement, and decimal rendering of small numbers.
//!
//! The game layers use these for player names, message placeholders and
//! name validation, so each is specified exactly over its character
//! sequence.

use vstd::prelude::*;

verus! {

/// The characters treated as whitespace: Unicode's `White_Space` set, the
/// set `char::is_whitespace` recognises.
pub open spec fn is_space(c: char) -> bool {
    ||| c == ' '
    ||| c == '\t'
    ||| c == '\n'
    ||| c == '\r'
    ||| c == '\u{b}'
    ||| c == '\u{c}'
    ||| c == '\u{85}'
    ||| c == '\u{a0}'
    ||| c == '\u{1680}'
    ||| (0x2000 <= c as u32 && c as u32 <= 0x200a)
    ||| c == '\u{2028}'
    ||| c == '\u{2029}'
    ||| c == '\u{202f}'
    ||| c == '\u{205f}'
    ||| c == '\u{3000}'
}

/// Whether `c` counts as whitespace for trimming and blank-name checks.
pub fn is_space_char(c: char) -> (r: bool)
    ensures
        r == is_space(c),
{
    c == ' ' || c == '\t' || c == '\n' || c == '\r' || c == '\u{b}' || c == '\u{c}'
        || c == '\u{85}' || c == '\u{a0}' || c == '\u{1680}'
        || ((c as u32) >= 0x2000 && (c as u32) <= 0x200a) || c == '\u{2028}' || c == '\u{2029}'
        || c == '\u{202f}' || c == '\u{205f}' || c == '\u{3000}'
}

/// `s` with its leading whitespace removed.
pub open spec fn trim_front(s: Seq<char>) -> Seq<char>
    decreases s.len(),
{
    if s.len() > 0 && is_space(s[0]) {
        trim_front(s.skip(1))
    } else {
        s
    }
}

/// `s` with its trailing whitespace removed.
pub open spec fn trim_back(s: Seq<char>) -> Seq<char>
    decreases s.len(),
{
    if s.len() > 0 && is_space(s.last()) {
        trim_back(s.drop_last())
    } else {
        s
    }
}

/// `s` with whitespace removed from both ends.
pub open spec fn trim_spec(s: Seq<char>) -> Seq<char> {
    trim_back(trim_front(s))
}

/// Removes leading and trailing whitespace, as `str::trim` does.
pub fn trim(s: &str) -> (r: &str)
    ensures
        r@ == trim_spec(s@),
{
    let len = s.unicode_len();
    let mut a: usize = 0;
    proof {
        assert(s@.skip(0) =~= s@);
    }
    while a < len && is_space_char(s.get_char(a))
        invariant
            a <= len,
            len == s@.len(),
            trim_front(s@) == trim_front(s@.skip(a as int)),
        decreases len - a,
    {
        proof {
            assert(s@.skip(a as int)[0] == s@[a as int]);
            assert(s@.skip(a as int).skip(1) =~= s@.skip(a as int + 1));
        }
        a = a + 1;
    }
    proof {
        assert(s@.skip(a as int) =~= s@.subrange(a as int, len as int));
        assert(trim_front(s@) == s@.subrange(a as int, len as int));
    }
    let mut b: usize = len;
    while b > a && is_space_char(s.get_char(b - 1))
        invariant
            a <= b <= len,
            len == s@.len(),
            trim_front(s@) == s@.subrange(a as int, len as int),
            trim_back(s@.subrange(a as int, len as int)) == trim_back(
                s@.subrange(a as int, b as int),
            ),
        decreases b,
    {
        proof {
            assert(s@.subrange(a as int, b as int).last() == s@[b as int - 1]);
            assert(s@.subrange(a as int, b as int).drop_last() =~= s@.subrange(
                a as int,
                b as int - 1,
            ));
        }
        b = b - 1;
    }
    let r = s.substring_char(a, b);
    proof {
        assert(trim_back(s@.subrange(a as int, b as int)) == s@.subrange(a as int, b as int));
    }
    r
}

/// Whether the characters of `pat` occur in `s` starting at position `i`.
pub fn matches_at(s: &str, pat: &str, i: usize) -> (r: bool)
    requires
        i + pat@.len() <= s@.len(),
    ensures
        r == (s@.subrange(i as int, i + pat@.len()) == pat@),
{
    let slen = s.unicode_len();
    let m = pat.unicode_len();
    let mut j: usize = 0;
    while j < m
        invariant
            j <= m,
            m == pat@.len(),
            slen == s@.len(),
            i + m <= s@.len(),
            forall|k: int| 0 <= k < j ==> s@[i + k] == pat@[k],
        decreases m - j,
    {
        if s.get_char(i + j) != pat.get_char(j) {
            proof {
                assert(s@.subrange(i as int, i + pat@.len())[j as int] != pat@[j as int]);
            }
            return false;
        }
        j = j + 1;
    }
    proof {
        assert(s@.subrange(i as int, i + pat@.len()) =~= pat@);
    }
    true
}

/// `s` with every non-overlapping occurrence of `pat`, found left to
/// right, replaced by `to`. For an empty `pat` the result is `s` itself.
pub open spec fn replace_spec(s: Seq<char>, pat: Seq<char>, to: Seq<char>) -> Seq<char>
    decreases s.len(),
{
    if pat.len() == 0 {
        s
    } else if s.len() < pat.len() {
        s
    } else if s.subrange(0, pat.len() as int) == pat {
        to + replace_spec(s.skip(pat.len() as int), pat, to)
    } else {
        seq![s[0]] + replace_spec(s.skip(1), pat, to)
    }
}

/// Replaces every occurrence of `pat` in `s` by `to`, scanning left to
/// right, as `str::replace` does for a non-empty pattern.
pub fn replace(s: &str, pat: &str, to: &str) -> (r: String)
    requires
        pat@.len() >= 1,
    ensures
        r@ == replace_spec(s@, pat@, to@),
{
    let n = s.unicode_len();
    let m = pat.unicode_len();
    let mut out = String::new();
    let mut i: usize = 0;
    proof {
        assert(s@.skip(0) =~= s@);
    }
    while i < n
        invariant
            i <= n,
            n == s@.len(),
            m == pat@.len(),
            m >= 1,
            replace_spec(s@, pat@, to@) == out@ + replace_spec(s@.skip(i as int), pat@, to@),
        decreases n - i,
    {
        if m <= n - i && matches_at(s, pat, i) {
            out.append(to);
            proof {
                assert(s@.skip(i as int).subrange(0, m as int) =~= s@.subrange(
                    i as int,
                    i + m as int,
                ));
                assert(s@.skip(i as int).skip(m as int) =~= s@.skip(i + m as int));
                assert(replace_spec(s@.skip(i as int), pat@, to@) == to@ + replace_spec(
                    s@.skip(i + m as int),
                    pat@,
                    to@,
                ));
            }
            i = i + m;
        } else {
            let c = s.substring_char(i, i + 1);
            out.append(c);
            proof {
                let rest = s@.skip(i as int);
                assert(rest[0] == s@[i as int]);
                assert(rest.skip(1) =~= s@.skip(i as int + 1));
                assert(c@ =~= seq![s@[i as int]]);
                if rest.len() < m as int {
                    assert(rest =~= seq![s@[i as int]] + rest.skip(1));
                    assert(replace_spec(rest, pat@, to@) == rest);
                    assert(replace_spec(rest.skip(1), pat@, to@) == rest.skip(1));
                } else {
                    assert(rest.subrange(0, m as int) =~= s@.subrange(i as int, i + m as int));
                    assert(rest.subrange(0, m as int) != pat@);
                    assert(replace_spec(rest, pat@, to@) == seq![rest[0]] + replace_spec(
                        rest.skip(1),
                        pat@,
                        to@,
                    ));
                }
            }
            i = i + 1;
        }
    }
    proof {
        assert(s@.skip(n as int) =~= Seq::<char>::empty());
        assert(replace_spec(s@.skip(n as int), pat@, to@) == s@.skip(n as int));
        assert(out@ + s@.skip(n as int) =~= out@);
    }
    out
}

/// The character for one decimal digit.
pub open spec fn digit_char(d: int) -> char {
    if d == 0 {
        '0'
    } else if d == 1 {
        '1'
    } else if d == 2 {
        '2'
    } else if d == 3 {
        '3'
    } else if d == 4 {
        '4'
    } else if d == 5 {
        '5'
    } else if d == 6 {
        '6'
    } else if d == 7 {
        '7'
    } else if d == 8 {
        '8'
    } else {
        '9'
    }
}

/// The decimal rendering of a non-negative number, without leading zeros
/// (a single zero for 0).
pub open spec fn dec_str(n: int) -> Seq<char>
    decreases n,
{
    if n < 10 {
        seq![digit_char(n)]
    } else {
        dec_str(n / 10) + seq![digit_char(n % 10)]
    }
}

/// The one-character string for a decimal digit.
fn digit_str(d: u8) -> (r: &'static str)
    requires
        d < 10,
    ensures
        r@ == seq![digit_char(d as int)],
{
    if d == 0 {
        proof {
            reveal_strlit("0");
        }
        assert("0"@ =~= seq!['0']);
        "0"
    } else if d == 1 {
        proof {
            reveal_strlit("1");
        }
        assert("1"@ =~= seq!['1']);
        "1"
    } else if d == 2 {
        proof {
            reveal_strlit("2");
        }
        assert("2"@ =~= seq!['2']);
        "2"
    } else if d == 3 {
        proof {
            reveal_strlit("3");
        }
        assert("3"@ =~= seq!['3']);
        "3"
    } else if d == 4 {
        proof {
            reveal_strlit("4");
        }
        assert("4"@ =~= seq!['4']);
        "4"
    } else if d == 5 {
        proof {
            reveal_strlit("5");
        }
        assert("5"@ =~= seq!['5']);
        "5"
    } else if d == 6 {
        proof {
            reveal_strlit("6");
        }
        assert("6"@ =~= seq!['6']);
        "6"
    } else if d == 7 {
        proof {
            reveal_strlit("7");
        }
        assert("7"@ =~= seq!['7']);
        "7"
    } else if d == 8 {
        proof {
            reveal_strlit("8");
        }
        assert("8"@ =~= seq!['8']);
        "8"
    } else {
        proof {
            reveal_strlit("9");
        }
        assert("9"@ =~= seq!['9']);
        "9"
    }
}

/// Renders a small number in decimal.
pub fn u8_to_string(n: u8) -> (r: String)
    ensures
        r@ == dec_str(n as int),
{
    if n < 10 {
        String::from_str(digit_str(n))
    } else if n < 100 {
        let r = String::from_str(digit_str(n / 10)).concat(digit_str(n % 10));
        proof {
            assert(n / 10 < 10);
            assert(dec_str((n / 10) as int) == seq![digit_char((n / 10) as int)]);
            assert(r@ =~= dec_str(n as int));
        }
        r
    } else {
        let r = String::from_str(digit_str(n / 100)).concat(digit_str((n / 10) % 10)).concat(
            digit_str(n % 10),
        );
        proof {
            assert(n / 10 >= 10);
            assert((n / 10) / 10 == n / 100) by (nonlinear_arith)
                requires
                    n >= 100,
            ;
            assert(dec_str((n / 10) as int) == dec_str((n / 100) as int) + seq![
                digit_char(((n / 10) % 10) as int),
            ]);
            assert(r@ =~= dec_str(n as int));
        }
        r
    }
}

} // verus!
