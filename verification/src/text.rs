//! Splitting a row of text into fields on a delimiter.
//!
//! A row is a sequence of characters; the fields are the pieces between
//! non-overlapping occurrences of the delimiter, found left to right.  A row
//! without the delimiter is one field, so every row has at least one field.

use vstd::prelude::*;
use vstd::string::*;

verus! {

/// The delimiter `d` occurs in `s` starting at position `i`.
pub open spec fn delim_at(s: Seq<char>, d: Seq<char>, i: int) -> bool {
    0 <= i && i + d.len() <= s.len() && s.subrange(i, i + d.len()) == d
}

/// The fields of `s`, split on non-overlapping leftmost occurrences of the
/// delimiter `d`.  An empty or absent delimiter leaves `s` as one field.
pub open spec fn fields_of(s: Seq<char>, d: Seq<char>) -> Seq<Seq<char>>
    decreases s.len(),
{
    if d.len() == 0 || s.len() == 0 {
        seq![s]
    } else if delim_at(s, d, 0) {
        seq![Seq::<char>::empty()] + fields_of(s.skip(d.len() as int), d)
    } else {
        let rest = fields_of(s.drop_first(), d);
        seq![seq![s[0]] + rest[0]] + rest.drop_first()
    }
}

/// Every split has at least one field.
pub proof fn lemma_fields_nonempty(s: Seq<char>, d: Seq<char>)
    ensures
        fields_of(s, d).len() >= 1,
    decreases s.len(),
{
    if d.len() == 0 || s.len() == 0 {
    } else if delim_at(s, d, 0) {
        lemma_fields_nonempty(s.skip(d.len() as int), d);
    } else {
        lemma_fields_nonempty(s.drop_first(), d);
    }
}

/// The fields interleaved with the delimiter again: the inverse view of
/// `fields_of`.
pub open spec fn join_fields(fields: Seq<Seq<char>>, d: Seq<char>) -> Seq<char>
    decreases fields.len(),
{
    if fields.len() == 0 {
        Seq::empty()
    } else if fields.len() == 1 {
        fields[0]
    } else {
        fields[0] + d + join_fields(fields.drop_first(), d)
    }
}

/// Splitting loses nothing: joining the fields of `s` with the delimiter
/// again reproduces `s` exactly.
pub proof fn lemma_fields_join(s: Seq<char>, d: Seq<char>)
    requires
        d.len() >= 1,
    ensures
        join_fields(fields_of(s, d), d) == s,
    decreases s.len(),
{
    if s.len() == 0 {
    } else if delim_at(s, d, 0) {
        let rest = fields_of(s.skip(d.len() as int), d);
        lemma_fields_nonempty(s.skip(d.len() as int), d);
        lemma_fields_join(s.skip(d.len() as int), d);
        assert(fields_of(s, d).drop_first() =~= rest);
        assert(Seq::<char>::empty() + d + s.skip(d.len() as int) =~= s);
    } else {
        let rest = fields_of(s.drop_first(), d);
        lemma_fields_nonempty(s.drop_first(), d);
        lemma_fields_join(s.drop_first(), d);
        let fields = fields_of(s, d);
        assert(fields[0] == seq![s[0]] + rest[0]);
        if rest.len() == 1 {
            assert(fields.len() == 1);
            assert(join_fields(fields, d) == seq![s[0]] + rest[0]);
            assert(join_fields(rest, d) == rest[0]);
            assert(seq![s[0]] + s.drop_first() =~= s);
        } else {
            assert(fields.drop_first() =~= rest.drop_first());
            assert(join_fields(fields, d) == (seq![s[0]] + rest[0]) + d + join_fields(
                rest.drop_first(),
                d,
            ));
            assert(join_fields(rest, d) == rest[0] + d + join_fields(rest.drop_first(), d));
            assert((seq![s[0]] + rest[0]) + d + join_fields(rest.drop_first(), d) =~= seq![s[0]]
                + (rest[0] + d + join_fields(rest.drop_first(), d)));
            assert(seq![s[0]] + s.drop_first() =~= s);
        }
    }
}

/// No field of a split contains the delimiter.
pub proof fn lemma_fields_have_no_delim(s: Seq<char>, d: Seq<char>, k: int, i: int)
    requires
        d.len() >= 1,
        0 <= k < fields_of(s, d).len(),
    ensures
        !delim_at(fields_of(s, d)[k], d, i),
    decreases s.len(),
{
    let fields = fields_of(s, d);
    if s.len() == 0 {
    } else if delim_at(s, d, 0) {
        if k > 0 {
            lemma_fields_have_no_delim(s.skip(d.len() as int), d, k - 1, i);
        }
    } else {
        let rest = fields_of(s.drop_first(), d);
        lemma_fields_nonempty(s.drop_first(), d);
        if k == 0 {
            assert(fields[0] == seq![s[0]] + rest[0]);
            if delim_at(fields[0], d, i) {
                if i == 0 {
                    lemma_field_zero_is_prefix(s, d);
                    assert(fields[0].subrange(0, d.len() as int) =~= s.subrange(
                        0,
                        d.len() as int,
                    ));
                    assert(delim_at(s, d, 0));
                } else {
                    assert(delim_at(rest[0], d, i - 1)) by {
                        assert(fields[0].subrange(i, i + d.len() as int) =~= rest[0].subrange(
                            i - 1,
                            i - 1 + d.len() as int,
                        ));
                    }
                    lemma_fields_have_no_delim(s.drop_first(), d, 0, i - 1);
                }
            }
        } else {
            assert(fields.drop_first() =~= rest.drop_first());
            assert(fields[k] == rest[k]);
            lemma_fields_have_no_delim(s.drop_first(), d, k, i);
        }
    }
}

/// The first field of a split is a prefix of the row.
proof fn lemma_field_zero_is_prefix(s: Seq<char>, d: Seq<char>)
    requires
        d.len() >= 1,
    ensures
        fields_of(s, d)[0].len() <= s.len(),
        forall|t: int|
            0 <= t < fields_of(s, d)[0].len() ==> #[trigger] fields_of(s, d)[0][t] == s[t],
    decreases s.len(),
{
    if s.len() == 0 {
    } else if delim_at(s, d, 0) {
    } else {
        let rest = fields_of(s.drop_first(), d);
        lemma_fields_nonempty(s.drop_first(), d);
        lemma_field_zero_is_prefix(s.drop_first(), d);
        assert(fields_of(s, d)[0] == seq![s[0]] + rest[0]);
    }
}

/// Occurrences in a suffix are occurrences in the whole, shifted.
proof fn lemma_delim_at_skip(s: Seq<char>, d: Seq<char>, a: int, i: int)
    requires
        0 <= a <= s.len(),
    ensures
        delim_at(s.skip(a), d, i) == (0 <= i && delim_at(s, d, a + i)),
{
    if 0 <= i && i + d.len() <= s.len() - a {
        assert(s.skip(a).subrange(i, i + d.len() as int) =~= s.subrange(a + i, a + i + d.len()));
    }
}

/// When the delimiter occurs nowhere in `s`, the split is `s` itself.
proof fn lemma_fields_no_delim(s: Seq<char>, d: Seq<char>)
    requires
        d.len() >= 1,
        forall|i: int| !delim_at(s, d, i),
    ensures
        fields_of(s, d) == seq![s],
    decreases s.len(),
{
    if s.len() == 0 {
    } else {
        assert forall|i: int| !delim_at(s.drop_first(), d, i) by {
            lemma_delim_at_skip(s, d, 1, i);
        }
        lemma_fields_no_delim(s.drop_first(), d);
        assert(seq![s[0]] + s.drop_first() =~= s);
        assert(fields_of(s, d) =~= seq![s]);
    }
}

/// When the leftmost occurrence of the delimiter is at `p`, the split is the
/// prefix before `p` followed by the split of what comes after the
/// occurrence.
proof fn lemma_fields_first_delim(s: Seq<char>, d: Seq<char>, p: int)
    requires
        d.len() >= 1,
        delim_at(s, d, p),
        forall|i: int| 0 <= i < p ==> !delim_at(s, d, i),
    ensures
        fields_of(s, d) == seq![s.take(p)] + fields_of(s.skip(p + d.len()), d),
    decreases p,
{
    if p == 0 {
        assert(s.take(0) =~= Seq::<char>::empty());
        assert(fields_of(s, d) =~= seq![s.take(0)] + fields_of(s.skip(d.len() as int), d));
    } else {
        assert(s.len() > 0);
        assert(!delim_at(s, d, 0));
        assert(delim_at(s.drop_first(), d, p - 1)) by {
            lemma_delim_at_skip(s, d, 1, p - 1);
        }
        assert forall|i: int| 0 <= i < p - 1 implies !delim_at(s.drop_first(), d, i) by {
            lemma_delim_at_skip(s, d, 1, i);
        }
        lemma_fields_first_delim(s.drop_first(), d, p - 1);
        let rest = fields_of(s.drop_first(), d);
        lemma_fields_nonempty(s.skip(p + d.len()), d);
        assert(rest[0] == s.drop_first().take(p - 1));
        assert(seq![s[0]] + s.drop_first().take(p - 1) =~= s.take(p));
        assert(s.drop_first().skip(p - 1 + d.len()) =~= s.skip(p + d.len()));
        assert(rest.drop_first() =~= fields_of(s.skip(p + d.len()), d));
        assert(fields_of(s, d) =~= seq![s.take(p)] + fields_of(s.skip(p + d.len()), d));
    }
}

/// The delimiter occurs at `pos` in `s`, decided by comparing characters.
fn delim_matches_at(s: &str, d: &str, pos: usize, n: usize, m: usize) -> (b: bool)
    requires
        n == s@.len(),
        m == d@.len(),
        pos + m <= n,
    ensures
        b == delim_at(s@, d@, pos as int),
{
    let mut j: usize = 0;
    while j < m
        invariant
            j <= m,
            n == s@.len(),
            m == d@.len(),
            pos + m <= n,
            forall|t: int| 0 <= t < j ==> s@[pos + t] == d@[t],
        decreases m - j,
    {
        if s.get_char(pos + j) != d.get_char(j) {
            proof {
                assert(s@.subrange(pos as int, pos + m) != d@) by {
                    assert(s@.subrange(pos as int, pos + m)[j as int] == s@[pos + j]);
                }
            }
            return false;
        }
        j = j + 1;
    }
    proof {
        assert(s@.subrange(pos as int, pos + m) =~= d@);
    }
    true
}

/// Split `s` on non-overlapping leftmost occurrences of the delimiter `d`,
/// exactly as `fields_of` describes.
pub fn split_fields(s: &str, d: &str) -> (r: Vec<String>)
    requires
        d@.len() >= 1,
    ensures
        r.deep_view() == fields_of(s@, d@),
{
    let n = s.unicode_len();
    let m = d.unicode_len();
    let mut r: Vec<String> = Vec::new();
    let mut start: usize = 0;
    let mut pos: usize = 0;
    proof {
        assert(s@.skip(0) =~= s@);
        assert(r.deep_view() =~= Seq::<Seq<char>>::empty());
        assert(Seq::<Seq<char>>::empty() + fields_of(s@, d@) =~= fields_of(s@, d@));
    }
    while m <= n && pos <= n - m
        invariant
            n == s@.len(),
            m == d@.len(),
            m >= 1,
            start <= pos <= n,
            fields_of(s@, d@) == r.deep_view() + fields_of(s@.skip(start as int), d@),
            forall|i: int| start <= i < pos ==> !delim_at(s@, d@, i),
        decreases n - pos,
    {
        if delim_matches_at(s, d, pos, n, m) {
            let tok = s.substring_char(start, pos).to_owned();
            let ghost prefix = r.deep_view();
            r.push(tok);
            proof {
                let sv = s@;
                let dv = d@;
                let a = start as int;
                let p = pos as int;
                assert forall|i: int| 0 <= i < p - a implies !delim_at(sv.skip(a), dv, i) by {
                    lemma_delim_at_skip(sv, dv, a, i);
                }
                assert(delim_at(sv.skip(a), dv, p - a)) by {
                    lemma_delim_at_skip(sv, dv, a, p - a);
                }
                lemma_fields_first_delim(sv.skip(a), dv, p - a);
                assert(sv.skip(a).take(p - a) =~= sv.subrange(a, p));
                assert(sv.skip(a).skip(p - a + dv.len()) =~= sv.skip(p + dv.len()));
                assert(r.deep_view() =~= prefix + seq![tok@]);
                assert(prefix + (seq![sv.subrange(a, p)] + fields_of(sv.skip(p + dv.len()), dv))
                    =~= (prefix + seq![sv.subrange(a, p)]) + fields_of(sv.skip(p + dv.len()), dv));
            }
            pos = pos + m;
            start = pos;
        } else {
            pos = pos + 1;
        }
    }
    let tok = s.substring_char(start, n).to_owned();
    let ghost prefix = r.deep_view();
    r.push(tok);
    proof {
        let sv = s@;
        let dv = d@;
        let a = start as int;
        assert forall|i: int| !delim_at(sv.skip(a), dv, i) by {
            lemma_delim_at_skip(sv, dv, a, i);
            if 0 <= i && delim_at(sv, dv, a + i) {
                assert(a + i + m <= n);
                assert(a + i < pos);
            }
        }
        lemma_fields_no_delim(sv.skip(a), dv);
        assert(tok@ == sv.skip(a));
        assert(r.deep_view() =~= prefix + seq![sv.skip(a)]);
    }
    r
}

} // verus!
