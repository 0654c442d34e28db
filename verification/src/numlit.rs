//! Acceptance of numeric field text.
//!
//! A field is usable as an observation exactly when the standard library's
//! double-precision `str::parse` accepts it.  That parser documents its
//! accepted inputs as a grammar: an optional sign, then either one of the
//! words `inf`, `infinity` or `nan` in any casing, or a decimal mantissa
//! (digits with an optional point and digits on at least one side of it)
//! followed by an optional exponent.  The grammar is stated here as spec
//! functions and decided by a verified checker, so a caller that converts an
//! accepted field afterwards cannot be surprised by a rejection.

use vstd::prelude::*;
use vstd::string::*;

verus! {

/// `c` is a decimal digit.
pub open spec fn is_digit(c: char) -> bool {
    '0' as u32 <= c as u32 && c as u32 <= '9' as u32
}

/// `c` is an explicit sign.
pub open spec fn is_sign(c: char) -> bool {
    c == '+' || c == '-'
}

/// Length of the maximal digit prefix of `s`.
pub open spec fn digit_prefix_len(s: Seq<char>) -> int
    decreases s.len(),
{
    if s.len() > 0 && is_digit(s[0]) {
        1 + digit_prefix_len(s.drop_first())
    } else {
        0
    }
}

/// A digit prefix is never longer than the text it prefixes.
pub broadcast proof fn lemma_digit_prefix_len_bounds(s: Seq<char>)
    ensures
        0 <= #[trigger] digit_prefix_len(s) <= s.len(),
    decreases s.len(),
{
    if s.len() > 0 && is_digit(s[0]) {
        lemma_digit_prefix_len_bounds(s.drop_first());
    }
}

/// `a` matches the lowercase letter `l`, in either casing.
pub open spec fn char_eq_ci(a: char, l: char) -> bool {
    a == l || a as u32 + 32 == l as u32
}

/// `s` matches the lowercase word `w`, character for character, in any
/// casing.
pub open spec fn word_eq_ci(s: Seq<char>, w: Seq<char>) -> bool {
    s.len() == w.len() && forall|i: int| 0 <= i < s.len() ==> char_eq_ci(s[i], w[i])
}

/// `s` is one of the special non-finite words the standard parser accepts.
pub open spec fn is_special(s: Seq<char>) -> bool {
    ||| word_eq_ci(s, seq!['i', 'n', 'f'])
    ||| word_eq_ci(s, seq!['i', 'n', 'f', 'i', 'n', 'i', 't', 'y'])
    ||| word_eq_ci(s, seq!['n', 'a', 'n'])
}

/// `s` is empty, or an exponent marker with an optionally signed non-empty
/// run of digits making up all of the rest.
pub open spec fn is_exponent_or_empty(s: Seq<char>) -> bool {
    s.len() == 0 || {
        &&& (s[0] == 'e' || s[0] == 'E')
        &&& {
            let t = if s.len() > 1 && is_sign(s[1]) {
                s.skip(2)
            } else {
                s.skip(1)
            };
            t.len() > 0 && digit_prefix_len(t) == t.len()
        }
    }
}

/// `s` is an unsigned decimal mantissa followed by an optional exponent:
/// digits, then optionally a point and more digits, with at least one digit
/// on some side of the point.
pub open spec fn is_number(s: Seq<char>) -> bool {
    let d1 = digit_prefix_len(s);
    let rest = s.skip(d1);
    if rest.len() > 0 && rest[0] == '.' {
        let frac = rest.skip(1);
        let d2 = digit_prefix_len(frac);
        (d1 > 0 || d2 > 0) && is_exponent_or_empty(frac.skip(d2))
    } else {
        d1 > 0 && is_exponent_or_empty(rest)
    }
}

/// `s` is accepted by the standard double-precision parser: an optional
/// sign, then a special word or a mantissa with optional exponent.
pub open spec fn is_numeric_literal(s: Seq<char>) -> bool {
    let body = if s.len() > 0 && is_sign(s[0]) {
        s.skip(1)
    } else {
        s
    };
    is_special(body) || is_number(body)
}

/// Scan the maximal digit run of `s` that starts at `from`; the result is
/// the position just past it.
pub(crate) fn scan_digits(s: &str, from: usize, n: usize) -> (e: usize)
    requires
        n == s@.len(),
        from <= n,
    ensures
        from <= e <= n,
        e - from == digit_prefix_len(s@.skip(from as int)),
        forall|t: int| from <= t < e ==> is_digit(s@[t]),
{
    let mut i = from;
    while i < n && is_digit_exec(s.get_char(i))
        invariant
            n == s@.len(),
            from <= i <= n,
            digit_prefix_len(s@.skip(from as int)) == i - from + digit_prefix_len(
                s@.skip(i as int),
            ),
            forall|t: int| from <= t < i ==> is_digit(s@[t]),
        decreases n - i,
    {
        proof {
            assert(s@.skip(i as int).len() > 0);
            assert(s@.skip(i as int)[0] == s@[i as int]);
            assert(s@.skip(i as int).drop_first() =~= s@.skip(i as int + 1));
        }
        i = i + 1;
    }
    proof {
        if i == n {
            assert(s@.skip(i as int).len() == 0);
        } else {
            assert(s@.skip(i as int)[0] == s@[i as int]);
        }
    }
    i
}

/// Decide `is_special` for the suffix of `s` that starts at `off`.
fn is_special_at(s: &str, off: usize, n: usize) -> (b: bool)
    requires
        n == s@.len(),
        off <= n,
    ensures
        b == is_special(s@.skip(off as int)),
{
    let rem = n - off;
    let ghost body = s@.skip(off as int);
    if rem == 3 {
        let c0 = s.get_char(off);
        let c1 = s.get_char(off + 1);
        let c2 = s.get_char(off + 2);
        let inf = eq_ci(c0, 'i') && eq_ci(c1, 'n') && eq_ci(c2, 'f');
        let nan = eq_ci(c0, 'n') && eq_ci(c1, 'a') && eq_ci(c2, 'n');
        proof {
            assert(body.len() == 3);
            assert(body[0] == s@[off as int]);
            assert(body[1] == s@[off as int + 1]);
            assert(body[2] == s@[off as int + 2]);
            if inf {
                assert(word_eq_ci(body, seq!['i', 'n', 'f'])) by {
                    assert forall|i: int| 0 <= i < 3 implies char_eq_ci(
                        body[i],
                        seq!['i', 'n', 'f'][i],
                    ) by {
                        if i == 0 {
                        } else if i == 1 {
                        } else {
                            assert(i == 2);
                        }
                    }
                }
            }
            if nan {
                assert(word_eq_ci(body, seq!['n', 'a', 'n'])) by {
                    assert forall|i: int| 0 <= i < 3 implies char_eq_ci(
                        body[i],
                        seq!['n', 'a', 'n'][i],
                    ) by {
                        if i == 0 {
                        } else if i == 1 {
                        } else {
                            assert(i == 2);
                        }
                    }
                }
            }
            if !inf && !nan {
                assert(!word_eq_ci(body, seq!['i', 'n', 'f']));
                assert(!word_eq_ci(body, seq!['n', 'a', 'n']));
            }
        }
        inf || nan
    } else if rem == 8 {
        let mut ok = true;
        let word: [char; 8] = ['i', 'n', 'f', 'i', 'n', 'i', 't', 'y'];
        let ghost wordseq = seq!['i', 'n', 'f', 'i', 'n', 'i', 't', 'y'];
        let mut i: usize = 0;
        while i < 8
            invariant
                n == s@.len(),
                off + 8 == n,
                i <= 8,
                word@ =~= wordseq,
                ok == forall|t: int| 0 <= t < i ==> char_eq_ci(s@.skip(off as int)[t], wordseq[t]),
            decreases 8 - i,
        {
            let c = s.get_char(off + i);
            let ghost old_ok = ok;
            proof {
                assert(s@.skip(off as int)[i as int] == s@[off as int + i]);
            }
            let m = eq_ci(c, word[i]);
            ok = ok && m;
            proof {
                if ok {
                    assert forall|t: int|
                        0 <= t < i + 1 implies char_eq_ci(s@.skip(off as int)[t], wordseq[t]) by {
                        if t < i {
                        } else {
                            assert(t == i);
                        }
                    }
                } else {
                    if old_ok {
                        assert(!char_eq_ci(s@.skip(off as int)[i as int], wordseq[i as int]));
                    } else {
                        let t = choose|t: int|
                            0 <= t < i && !char_eq_ci(s@.skip(off as int)[t], wordseq[t]);
                        assert(!char_eq_ci(s@.skip(off as int)[t], wordseq[t]));
                    }
                }
            }
            i = i + 1;
        }
        proof {
            assert(body.len() == 8);
            assert(!word_eq_ci(body, seq!['i', 'n', 'f']));
            assert(!word_eq_ci(body, seq!['n', 'a', 'n']));
        }
        ok
    } else {
        proof {
            assert(body.len() != 3 && body.len() != 8);
        }
        false
    }
}

/// `c` is a decimal digit, decided on its code point.
fn is_digit_exec(c: char) -> (b: bool)
    ensures
        b == is_digit(c),
{
    let u = c as u32;
    ('0' as u32) <= u && u <= ('9' as u32)
}

/// `a` matches the lowercase letter `l` in either casing.
fn eq_ci(a: char, l: char) -> (b: bool)
    ensures
        b == char_eq_ci(a, l),
{
    a == l || (a as u32) + 32 == (l as u32)
}

/// Decide `is_exponent_or_empty` for the suffix of `s` that starts at
/// `from`.
fn check_exponent_at(s: &str, from: usize, n: usize) -> (b: bool)
    requires
        n == s@.len(),
        from <= n,
    ensures
        b == is_exponent_or_empty(s@.skip(from as int)),
{
    let ghost u = s@.skip(from as int);
    if from == n {
        return true;
    }
    let c = s.get_char(from);
    proof {
        assert(u[0] == s@[from as int]);
    }
    if c != 'e' && c != 'E' {
        return false;
    }
    let mut i = from + 1;
    if i < n {
        let c2 = s.get_char(i);
        proof {
            assert(u[1] == s@[from as int + 1]);
        }
        if c2 == '+' || c2 == '-' {
            i = i + 1;
        }
    }
    proof {
        let t = if u.len() > 1 && is_sign(u[1]) {
            u.skip(2)
        } else {
            u.skip(1)
        };
        assert(t =~= s@.skip(i as int));
    }
    if i == n {
        return false;
    }
    let e = scan_digits(s, i, n);
    proof {
        assert(s@.skip(i as int).len() == n - i);
    }
    e == n
}

/// Decide whether `s` is accepted by the standard double-precision parser,
/// exactly as `is_numeric_literal` describes.
pub fn check_numeric_literal(s: &str) -> (b: bool)
    ensures
        b == is_numeric_literal(s@),
{
    let n = s.unicode_len();
    let mut off: usize = 0;
    if n > 0 {
        let c = s.get_char(0);
        if c == '+' || c == '-' {
            off = 1;
        }
    }
    let ghost body = if s@.len() > 0 && is_sign(s@[0]) {
        s@.skip(1)
    } else {
        s@
    };
    proof {
        assert(s@.skip(0) =~= s@);
        assert(body == s@.skip(off as int));
    }
    if is_special_at(s, off, n) {
        return true;
    }
    let i0 = scan_digits(s, off, n);
    proof {
        assert(body.skip(i0 - off as int) =~= s@.skip(i0 as int));
    }
    let ghost d1 = digit_prefix_len(body);
    let ghost rest = body.skip(d1);
    proof {
        assert(rest == s@.skip(i0 as int));
        assert(rest.len() == n - i0);
        if i0 < n {
            assert(rest[0] == s@[i0 as int]);
        }
    }
    if i0 < n && s.get_char(i0) == '.' {
        let j = scan_digits(s, i0 + 1, n);
        proof {
            assert(rest.skip(1) =~= s@.skip(i0 as int + 1));
            assert(rest.skip(1).skip(j - (i0 as int + 1)) =~= s@.skip(j as int));
        }
        if i0 == off && j == i0 + 1 {
            return false;
        }
        check_exponent_at(s, j, n)
    } else {
        if i0 == off {
            return false;
        }
        check_exponent_at(s, i0, n)
    }
}

} // verus!
