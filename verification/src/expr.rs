//! The setup half of the expression layer.
//!
//! An expression references columns through placeholders: a `?` marker
//! immediately followed by decimal digits naming a zero-indexed column
//! (`?3 * 2 + ?0`).  Setup scans the expression once, collects the distinct
//! referenced columns in order of first appearance, and rewrites each
//! marker to `_` so every placeholder becomes an ordinary identifier
//! (`_3 * 2 + _0`) that an arithmetic evaluator can bind per row.  A marker
//! without digits, or with an index too large for a column number, is a
//! setup error: the expression is rejected once, before any row is read.

use vstd::arithmetic::div_mod::lemma_fundamental_div_mod;
use vstd::arithmetic::mul::lemma_mul_inequality;
use vstd::prelude::*;
use vstd::string::*;

use crate::numlit::{digit_prefix_len, is_digit, scan_digits};
use crate::parser::{contains_u32, dedup_first};

verus! {

broadcast use crate::numlit::lemma_digit_prefix_len_bounds;

/// The expression with every placeholder marker rewritten to `_`.
pub open spec fn rewrite_placeholders(s: Seq<char>) -> Seq<char> {
    s.map_values(|c: char| if c == '?' { '_' } else { c })
}

/// The digit runs that follow the placeholder markers of `s`, in order.
pub open spec fn placeholder_runs(s: Seq<char>) -> Seq<Seq<char>>
    decreases s.len(),
{
    if s.len() == 0 {
        Seq::empty()
    } else if s[0] == '?' {
        let d = digit_prefix_len(s.drop_first());
        seq![s.subrange(1, 1 + d)] + placeholder_runs(s.skip(1 + d))
    } else {
        placeholder_runs(s.drop_first())
    }
}

/// Value of a run of decimal digits.
pub open spec fn digits_val(s: Seq<char>) -> int
    decreases s.len(),
{
    if s.len() == 0 {
        0
    } else {
        digits_val(s.drop_last()) * 10 + (s.last() as u32 - '0' as u32)
    }
}

/// A usable placeholder run: at least one digit, and a value that fits a
/// column number.
pub open spec fn run_ok(r: Seq<char>) -> bool {
    r.len() > 0 && digits_val(r) <= u32::MAX
}

/// Every placeholder of `s` is usable.
pub open spec fn placeholders_valid(s: Seq<char>) -> bool {
    forall|i: int| 0 <= i < placeholder_runs(s).len() ==> run_ok(#[trigger] placeholder_runs(s)[i])
}

/// The distinct columns that `s` references, in order of first appearance.
pub open spec fn placeholder_columns(s: Seq<char>) -> Seq<u32> {
    dedup_first(placeholder_runs(s).map_values(|r: Seq<char>| digits_val(r) as u32))
}

/// A setup failure in an expression.
#[derive(Debug, PartialEq, Eq)]
pub enum ExprError {
    /// A placeholder marker without digits, or with an index too large for
    /// a column number.
    BadPlaceholder,
}

/// The setup product of the expression layer: the expression text with
/// every placeholder rewritten to an identifier, and the distinct
/// referenced columns in order of first appearance.  Binding is by column
/// index: the identifier for column `c` is `_` followed by the digits of
/// `c`, so values extracted per column associate with identifiers through
/// the index, never through enumeration order.
#[derive(Debug, PartialEq, Eq)]
pub struct CompiledExpr {
    /// The rewritten expression text.
    pub text: String,
    /// The distinct referenced columns, first appearances in scan order.
    pub columns: Vec<u32>,
}

/// The character of the decimal digit `d`.
pub open spec fn digit_char(d: int) -> char {
    if d == 0 {
        '0'
    } else if d == 1 {
        '1'
    } else if d == 2 {
        '2'
    } else if d == 3 {
        '3'
    } else if d == 4 {
        '4'
    } else if d == 5 {
        '5'
    } else if d == 6 {
        '6'
    } else if d == 7 {
        '7'
    } else if d == 8 {
        '8'
    } else {
        '9'
    }
}

/// The decimal digits of `n`, most significant first, without leading
/// zeros (`0` is the single digit `0`).
pub open spec fn dec_rep(n: int) -> Seq<char>
    decreases n,
{
    if n < 10 {
        seq![digit_char(n)]
    } else {
        dec_rep(n / 10) + seq![digit_char(n % 10)]
    }
}

/// The binding identifier of column `c`: the placeholder rewritten, `_`
/// followed by the decimal digits of `c`.
pub open spec fn var_name_spec(c: u32) -> Seq<char> {
    seq!['_'] + dec_rep(c as int)
}

proof fn lemma_digit_char_val(d: int)
    requires
        0 <= d < 10,
    ensures
        digit_char(d) as u32 == '0' as u32 + d,
        is_digit(digit_char(d)),
{
    if d == 0 {
    } else if d == 1 {
    } else if d == 2 {
    } else if d == 3 {
    } else if d == 4 {
    } else if d == 5 {
    } else if d == 6 {
    } else if d == 7 {
    } else if d == 8 {
    } else {
        assert(d == 9);
    }
}

/// Reading the decimal digits of `n` back as a number yields `n`: the
/// identifier of a column carries exactly that column's index, so binding
/// by identifier is binding by column index.
pub proof fn lemma_dec_rep_round_trip(n: int)
    requires
        0 <= n,
    ensures
        digits_val(dec_rep(n)) == n,
        forall|t: int| 0 <= t < dec_rep(n).len() ==> is_digit(#[trigger] dec_rep(n)[t]),
    decreases n,
{
    if n < 10 {
        lemma_digit_char_val(n);
        let s = dec_rep(n);
        assert(s =~= Seq::<char>::empty().push(digit_char(n)));
        assert(s.drop_last() =~= Seq::<char>::empty());
        assert(s.last() == digit_char(n));
        assert(digits_val(s.drop_last()) == 0);
        assert(digits_val(s) == digits_val(s.drop_last()) * 10 + (s.last() as u32 - '0' as u32));
        assert(s[0] == digit_char(n));
    } else {
        lemma_dec_rep_round_trip(n / 10);
        lemma_digit_char_val(n % 10);
        let whole = dec_rep(n);
        let prefix = dec_rep(n / 10);
        assert(whole.drop_last() =~= prefix);
        assert(whole.last() == digit_char(n % 10));
        assert(digits_val(whole) == digits_val(whole.drop_last()) * 10 + (whole.last() as u32
            - '0' as u32));
        lemma_fundamental_div_mod(n, 10);
        assert forall|t: int| 0 <= t < whole.len() implies is_digit(#[trigger] whole[t]) by {
            if t < whole.len() - 1 {
                assert(whole[t] == prefix[t]);
            } else {
                assert(whole[t] == digit_char(n % 10));
            }
        }
    }
}

proof fn lemma_digits_val_nonneg(s: Seq<char>)
    requires
        forall|t: int| 0 <= t < s.len() ==> is_digit(#[trigger] s[t]),
    ensures
        digits_val(s) >= 0,
    decreases s.len(),
{
    if s.len() > 0 {
        lemma_digits_val_nonneg(s.drop_last());
    }
}

/// A digit run's value only grows as more digits follow.
proof fn lemma_digits_val_mono(s: Seq<char>, k: int)
    requires
        0 <= k <= s.len(),
        forall|t: int| 0 <= t < s.len() ==> is_digit(#[trigger] s[t]),
    ensures
        digits_val(s.take(k)) <= digits_val(s),
    decreases s.len() - k,
{
    if k < s.len() {
        let next = s.take(k + 1);
        assert(next.drop_last() =~= s.take(k));
        assert(next.last() == s[k]);
        assert(forall|t: int| 0 <= t < next.len() ==> is_digit(#[trigger] next[t]));
        lemma_digits_val_nonneg(s.take(k));
        assert(digits_val(s.take(k)) <= digits_val(s.take(k + 1)));
        lemma_digits_val_mono(s, k + 1);
        assert(s.take(s.len() as int) =~= s);
    } else {
        assert(s.take(k) =~= s);
    }
}

/// Parse the digit run `s[from..to]` as a column number, or report that its
/// value does not fit one.
fn parse_column_digits(s: &str, from: usize, to: usize, n: usize) -> (r: Option<u32>)
    requires
        n == s@.len(),
        from <= to <= n,
        forall|t: int| from <= t < to ==> is_digit(#[trigger] s@[t]),
    ensures
        (match r {
            Some(v) => v as int == digits_val(s@.subrange(from as int, to as int)) && digits_val(
                s@.subrange(from as int, to as int),
            ) <= u32::MAX,
            None => digits_val(s@.subrange(from as int, to as int)) > u32::MAX,
        }),
{
    let ghost whole = s@.subrange(from as int, to as int);
    proof {
        assert(forall|t: int| 0 <= t < whole.len() ==> is_digit(#[trigger] whole[t]));
    }
    let mut acc: u32 = 0;
    let mut i = from;
    proof {
        assert(s@.subrange(from as int, from as int) =~= Seq::<char>::empty());
    }
    while i < to
        invariant
            n == s@.len(),
            from <= i <= to <= n,
            forall|t: int| from <= t < to ==> is_digit(#[trigger] s@[t]),
            whole == s@.subrange(from as int, to as int),
            acc as int == digits_val(s@.subrange(from as int, i as int)),
        decreases to - i,
    {
        let c = s.get_char(i);
        let d = (c as u32) - ('0' as u32);
        let ghost prefix = s@.subrange(from as int, i as int);
        let ghost next = s@.subrange(from as int, i as int + 1);
        proof {
            assert(next.drop_last() =~= prefix);
            assert(next.last() == s@[i as int]);
        }
        if acc > (u32::MAX - d) / 10 {
            proof {
                let q = (u32::MAX - d) as int / 10;
                lemma_fundamental_div_mod((u32::MAX - d) as int, 10);
                lemma_mul_inequality(q + 1, acc as int, 10);
                assert(acc as int * 10 + d > u32::MAX);
                assert(digits_val(next) > u32::MAX);
                assert(next =~= whole.take(i as int + 1 - from));
                lemma_digits_val_mono(whole, i as int + 1 - from);
            }
            return None;
        }
        proof {
            let q = (u32::MAX - d) as int / 10;
            lemma_fundamental_div_mod((u32::MAX - d) as int, 10);
            lemma_mul_inequality(acc as int, q, 10);
            assert(acc as int * 10 + d <= u32::MAX);
        }
        acc = acc * 10 + d;
        i = i + 1;
    }
    Some(acc)
}

/// The one-character text of the decimal digit `d`.
fn digit_str(d: u32) -> (r: &'static str)
    requires
        d < 10,
    ensures
        r@ == seq![digit_char(d as int)],
{
    if d == 0 {
        proof {
            reveal_strlit("0");
        }
        "0"
    } else if d == 1 {
        proof {
            reveal_strlit("1");
        }
        "1"
    } else if d == 2 {
        proof {
            reveal_strlit("2");
        }
        "2"
    } else if d == 3 {
        proof {
            reveal_strlit("3");
        }
        "3"
    } else if d == 4 {
        proof {
            reveal_strlit("4");
        }
        "4"
    } else if d == 5 {
        proof {
            reveal_strlit("5");
        }
        "5"
    } else if d == 6 {
        proof {
            reveal_strlit("6");
        }
        "6"
    } else if d == 7 {
        proof {
            reveal_strlit("7");
        }
        "7"
    } else if d == 8 {
        proof {
            reveal_strlit("8");
        }
        "8"
    } else {
        proof {
            reveal_strlit("9");
        }
        "9"
    }
}

/// The binding identifier of column `col`: `_` followed by the decimal
/// digits of `col`.
pub fn var_name(col: u32) -> (r: String)
    ensures
        r@ == var_name_spec(col),
{
    let mut ds: Vec<u32> = Vec::new();
    let mut rem = col;
    ds.push(rem % 10);
    proof {
        if col < 10 {
            assert(ds@.map_values(|d: u32| digit_char(d as int)).reverse() =~= dec_rep(col as int));
        } else {
            assert(ds@.map_values(|d: u32| digit_char(d as int)).reverse() =~= seq![
                digit_char(col as int % 10),
            ]);
        }
    }
    rem = rem / 10;
    while rem > 0
        invariant
            forall|t: int| 0 <= t < ds@.len() ==> ds@[t] < 10,
            dec_rep(col as int) == if rem > 0 {
                dec_rep(rem as int) + ds@.map_values(|d: u32| digit_char(d as int)).reverse()
            } else {
                ds@.map_values(|d: u32| digit_char(d as int)).reverse()
            },
        decreases rem,
    {
        let ghost old_ds = ds@;
        let ghost old_rem = rem;
        ds.push(rem % 10);
        rem = rem / 10;
        proof {
            let f = |d: u32| digit_char(d as int);
            assert(ds@.map_values(f).reverse() =~= seq![digit_char(old_rem as int % 10)]
                + old_ds.map_values(f).reverse());
            if old_rem < 10 {
                assert(dec_rep(old_rem as int) =~= seq![digit_char(old_rem as int % 10)]);
            } else {
                assert(dec_rep(old_rem as int) + old_ds.map_values(f).reverse() =~= dec_rep(
                    rem as int,
                ) + (seq![digit_char(old_rem as int % 10)] + old_ds.map_values(f).reverse()));
            }
        }
    }
    let mut out = String::from_str("_");
    proof {
        reveal_strlit("_");
        assert(out@ =~= seq!['_']);
    }
    let ghost revd = ds@.map_values(|d: u32| digit_char(d as int)).reverse();
    let mut k: usize = 0;
    proof {
        assert(revd.take(0) =~= Seq::<char>::empty());
        assert(out@ =~= seq!['_'] + revd.take(0));
    }
    while k < ds.len()
        invariant
            k <= ds@.len(),
            forall|t: int| 0 <= t < ds@.len() ==> ds@[t] < 10,
            revd == ds@.map_values(|d: u32| digit_char(d as int)).reverse(),
            dec_rep(col as int) == revd,
            out@ == seq!['_'] + revd.take(k as int),
        decreases ds@.len() - k,
    {
        let d = ds[ds.len() - 1 - k];
        let piece = digit_str(d);
        out.append(piece);
        proof {
            assert(revd[k as int] == digit_char(ds@[ds@.len() - 1 - k as int] as int));
            assert(revd.take(k as int + 1) =~= revd.take(k as int).push(revd[k as int]));
            assert(out@ =~= seq!['_'] + revd.take(k as int + 1));
        }
        k = k + 1;
    }
    proof {
        assert(revd.take(revd.len() as int) =~= revd);
    }
    out
}

impl CompiledExpr {
    /// The binding identifiers of the referenced columns, one per column in
    /// the columns' order: `_` followed by each column's decimal digits.
    pub fn var_names(&self) -> (r: Vec<String>)
        ensures
            r.deep_view() == self.columns@.map_values(|c: u32| var_name_spec(c)),
    {
        let mut r: Vec<String> = Vec::new();
        let mut i: usize = 0;
        while i < self.columns.len()
            invariant
                i <= self.columns@.len(),
                r.deep_view() =~= self.columns@.take(i as int).map_values(
                    |c: u32| var_name_spec(c),
                ),
            decreases self.columns@.len() - i,
        {
            let ghost prev = r.deep_view();
            let name = var_name(self.columns[i]);
            r.push(name);
            proof {
                assert(r.deep_view() =~= prev.push(name@));
                assert(self.columns@.take(i as int + 1) =~= self.columns@.take(i as int).push(
                    self.columns@[i as int],
                ));
                assert(self.columns@.take(i as int + 1).map_values(|c: u32| var_name_spec(c))
                    =~= self.columns@.take(i as int).map_values(|c: u32| var_name_spec(c)).push(
                    var_name_spec(self.columns@[i as int]),
                ));
            }
            i = i + 1;
        }
        proof {
            assert(self.columns@.take(self.columns@.len() as int) =~= self.columns@);
        }
        r
    }
}

/// Compile an expression's placeholders: rewrite each `?` marker to `_` and
/// collect the distinct referenced columns in order of first appearance.
/// An expression with a digitless or oversized placeholder is rejected.
pub fn compile_expression(expr: &str) -> (r: Result<CompiledExpr, ExprError>)
    ensures
        (match r {
            Ok(c) => {
                &&& placeholders_valid(expr@)
                &&& c.text@ == rewrite_placeholders(expr@)
                &&& c.columns@ == placeholder_columns(expr@)
            },
            Err(_) => !placeholders_valid(expr@),
        }),
{
    let n = expr.unicode_len();
    let mut text = String::new();
    let mut columns: Vec<u32> = Vec::new();
    let ghost mut runs: Seq<Seq<char>> = Seq::empty();
    let mut i: usize = 0;
    proof {
        assert(expr@.skip(0) =~= expr@);
        assert(Seq::<Seq<char>>::empty() + placeholder_runs(expr@) =~= placeholder_runs(expr@));
        assert(text@ =~= rewrite_placeholders(expr@.take(0)));
        assert(runs.map_values(|r: Seq<char>| digits_val(r) as u32) =~= Seq::<u32>::empty());
    }
    while i < n
        invariant
            n == expr@.len(),
            i <= n,
            placeholder_runs(expr@) == runs + placeholder_runs(expr@.skip(i as int)),
            forall|t: int| 0 <= t < runs.len() ==> run_ok(#[trigger] runs[t]),
            text@ == rewrite_placeholders(expr@.take(i as int)),
            columns@ == dedup_first(runs.map_values(|r: Seq<char>| digits_val(r) as u32)),
        decreases n - i,
    {
        let ghost sv = expr@;
        let ghost u = sv.skip(i as int);
        proof {
            assert(u[0] == sv[i as int]);
        }
        let c = expr.get_char(i);
        if c == '?' {
            let e = scan_digits(expr, i + 1, n);
            let ghost run = sv.subrange(i as int + 1, e as int);
            proof {
                assert(u.drop_first() =~= sv.skip(i as int + 1));
                assert(u.subrange(1, 1 + (e - i - 1)) =~= run);
                assert(u.skip(1 + (e - i - 1)) =~= sv.skip(e as int));
                assert(placeholder_runs(u) == seq![run] + placeholder_runs(sv.skip(e as int)));
                assert(runs + (seq![run] + placeholder_runs(sv.skip(e as int))) =~= (runs + seq![
                    run,
                ]) + placeholder_runs(sv.skip(e as int)));
            }
            if e == i + 1 {
                proof {
                    assert(placeholder_runs(sv)[runs.len() as int] == run);
                    assert(!run_ok(run));
                }
                return Err(ExprError::BadPlaceholder);
            }
            let parsed = parse_column_digits(expr, i + 1, e, n);
            match parsed {
                None => {
                    proof {
                        assert(placeholder_runs(sv)[runs.len() as int] == run);
                        assert(!run_ok(run));
                    }
                    return Err(ExprError::BadPlaceholder);
                },
                Some(v) => {
                    let ghost old_cols = columns@;
                    if !contains_u32(&columns, v) {
                        columns.push(v);
                    }
                    let ghost old_text = text@;
                    text.append("_");
                    let digits = expr.substring_char(i + 1, e);
                    text.append(digits);
                    proof {
                        let old_runs = runs;
                        let ghost f = |r: Seq<char>| digits_val(r) as u32;
                        runs = runs + seq![run];
                        let vals = runs.map_values(f);
                        let old_vals = old_runs.map_values(f);
                        assert(vals.len() == old_runs.len() + 1);
                        assert(vals.drop_last() =~= old_vals);
                        assert(vals.last() == f(run));
                        assert(f(run) == v);
                        assert(dedup_first(vals) == if dedup_first(old_vals).contains(v) {
                            dedup_first(old_vals)
                        } else {
                            dedup_first(old_vals).push(v)
                        });
                        if !old_cols.contains(v) {
                            assert(columns@ =~= old_cols.push(v));
                        }
                        reveal_strlit("_");
                        assert(("_")@ =~= seq!['_']);
                        assert forall|t: int|
                            0 <= t < e implies #[trigger] rewrite_placeholders(sv.take(e as int))[t]
                            == (old_text + seq!['_'] + run)[t] by {
                            if t < i {
                                assert(rewrite_placeholders(sv.take(i as int))[t] == old_text[t]);
                            } else if t == i {
                            } else {
                                assert(is_digit(sv[t]));
                                assert(sv[t] != '?');
                            }
                        }
                        assert(text@ =~= rewrite_placeholders(sv.take(e as int)));
                    }
                    i = e;
                },
            }
        } else {
            let piece = expr.substring_char(i, i + 1);
            let ghost old_text = text@;
            text.append(piece);
            proof {
                assert(u.drop_first() =~= sv.skip(i as int + 1));
                assert(placeholder_runs(u) == placeholder_runs(sv.skip(i as int + 1)));
                assert(piece@ =~= seq![sv[i as int]]);
                assert forall|t: int|
                    0 <= t < i + 1 implies #[trigger] rewrite_placeholders(sv.take(i as int + 1))[t]
                    == (old_text + seq![sv[i as int]])[t] by {
                    if t < i {
                        assert(rewrite_placeholders(sv.take(i as int))[t] == old_text[t]);
                    }
                }
                assert(text@ =~= rewrite_placeholders(sv.take(i as int + 1)));
            }
            i = i + 1;
        }
    }
    proof {
        assert(expr@.skip(n as int) =~= Seq::<char>::empty());
        assert(placeholder_runs(expr@) =~= runs);
        assert(expr@.take(n as int) =~= expr@);
    }
    Ok(CompiledExpr { text, columns })
}

} // verus!
