use vstd::prelude::*;

use crate::parser::chars_of;

verus! {

/// `c` has the Unicode property White_Space.
pub open spec fn is_white_space(c: char) -> bool {
    ||| '\t' <= c <= '\r'
    ||| c == ' '
    ||| c == '\u{85}'
    ||| c == '\u{a0}'
    ||| c == '\u{1680}'
    ||| '\u{2000}' <= c <= '\u{200a}'
    ||| c == '\u{2028}'
    ||| c == '\u{2029}'
    ||| c == '\u{202f}'
    ||| c == '\u{205f}'
    ||| c == '\u{3000}'
}

/// The text after the last `\n` of `s`, or all of `s` when it has none.
pub open spec fn after_last_newline(s: Seq<char>) -> Seq<char> {
    if exists|i: int| 0 <= i < s.len() && s[i] == '\n' {
        let i = choose|i: int|
            0 <= i < s.len() && s[i] == '\n' && forall|j: int| i < j < s.len() ==> s[j] != '\n';
        s.skip(i + 1)
    } else {
        s
    }
}

/// The last of the lines of `s`, as `str::lines` splits them: a final `\n`
/// ends the last line rather than starting an empty one, and a `\r` before
/// that `\n` belongs to the line ending. Empty when `s` is.
pub open spec fn spec_last_line(s: Seq<char>) -> Seq<char> {
    if s.len() == 0 {
        s
    } else if s.last() == '\n' {
        let seg = after_last_newline(s.drop_last());
        if seg.len() > 0 && seg.last() == '\r' {
            seg.drop_last()
        } else {
            seg
        }
    } else {
        after_last_newline(s)
    }
}

/// `i` is the first position of `s` that is not white space.
pub open spec fn is_first_kept(s: Seq<char>, i: int) -> bool {
    &&& 0 <= i < s.len()
    &&& !is_white_space(s[i])
    &&& forall|j: int| 0 <= j < i ==> is_white_space(s[j])
}

/// `i` is the last position of `s` that is not white space.
pub open spec fn is_last_kept(s: Seq<char>, i: int) -> bool {
    &&& 0 <= i < s.len()
    &&& !is_white_space(s[i])
    &&& forall|j: int| i < j < s.len() ==> is_white_space(s[j])
}

/// `s` without its leading and trailing white space.
pub open spec fn spec_trim(s: Seq<char>) -> Seq<char> {
    if forall|i: int| 0 <= i < s.len() ==> is_white_space(s[i]) {
        Seq::empty()
    } else {
        let first = choose|i: int| is_first_kept(s, i);
        let last = choose|i: int| is_last_kept(s, i);
        s.subrange(first, last + 1)
    }
}

proof fn lemma_first_kept_exists(s: Seq<char>, k: int)
    requires
        0 <= k < s.len(),
        !is_white_space(s[k]),
    ensures
        exists|i: int| is_first_kept(s, i),
    decreases k,
{
    if exists|m: int| 0 <= m < k && !is_white_space(s[m]) {
        let m = choose|m: int| 0 <= m < k && !is_white_space(s[m]);
        lemma_first_kept_exists(s, m);
    } else {
        assert(is_first_kept(s, k));
    }
}

proof fn lemma_last_kept_exists(s: Seq<char>, k: int)
    requires
        0 <= k < s.len(),
        !is_white_space(s[k]),
    ensures
        exists|i: int| is_last_kept(s, i),
    decreases s.len() - k,
{
    if exists|m: int| k < m < s.len() && !is_white_space(s[m]) {
        let m = choose|m: int| k < m < s.len() && !is_white_space(s[m]);
        lemma_last_kept_exists(s, m);
    } else {
        assert(is_last_kept(s, k));
    }
}

/// Trimming keeps what runs from the first to the last character that is not
/// white space.
pub proof fn lemma_trim_at(s: Seq<char>, f: int, l: int)
    requires
        is_first_kept(s, f),
        is_last_kept(s, l),
    ensures
        spec_trim(s) == s.subrange(f, l + 1),
{
    let f2 = choose|i: int| is_first_kept(s, i);
    let l2 = choose|i: int| is_last_kept(s, i);
    assert(is_first_kept(s, f2));
    assert(is_last_kept(s, l2));
    if f2 < f {
        assert(is_white_space(s[f2]));
    } else if f2 > f {
        assert(is_white_space(s[f]));
    }
    if l2 < l {
        assert(is_white_space(s[l]));
    } else if l2 > l {
        assert(is_white_space(s[l2]));
    }
}

/// Exactly the characters with the Unicode property White_Space are white
/// space: the controls from tab to carriage return, the space, next line,
/// no-break space, ogham space mark, the spaces from en quad to hair space,
/// the line and paragraph separators, narrow no-break space, medium
/// mathematical space and ideographic space.
pub proof fn lemma_white_space_chars(c: char)
    ensures
        is_white_space(c) <==> (c == '\u{9}' || c == '\u{a}' || c == '\u{b}' || c == '\u{c}'
            || c == '\u{d}' || c == '\u{20}' || c == '\u{85}' || c == '\u{a0}' || c == '\u{1680}'
            || c == '\u{2000}' || c == '\u{2001}' || c == '\u{2002}' || c == '\u{2003}' || c
            == '\u{2004}' || c == '\u{2005}' || c == '\u{2006}' || c == '\u{2007}' || c
            == '\u{2008}' || c == '\u{2009}' || c == '\u{200a}' || c == '\u{2028}' || c
            == '\u{2029}' || c == '\u{202f}' || c == '\u{205f}' || c == '\u{3000}'),
{
}

/// Trimming a line and trimming it with one more white-space character at
/// either end give the same text.
pub proof fn lemma_trim_white_space(s: Seq<char>, c: char)
    requires
        is_white_space(c),
    ensures
        spec_trim(s.push(c)) == spec_trim(s),
        spec_trim(seq![c] + s) == spec_trim(s),
{
    let t = s.push(c);
    let u = seq![c] + s;
    if forall|i: int| 0 <= i < s.len() ==> is_white_space(s[i]) {
        assert forall|i: int| 0 <= i < t.len() implies is_white_space(t[i]) by {
            if i < s.len() {
                assert(t[i] == s[i]);
            }
        }
        assert forall|i: int| 0 <= i < u.len() implies is_white_space(u[i]) by {
            if i > 0 {
                assert(u[i] == s[i - 1]);
            }
        }
    } else {
        let k = choose|k: int| 0 <= k < s.len() && !is_white_space(s[k]);
        lemma_first_kept_exists(s, k);
        lemma_last_kept_exists(s, k);
        let f = choose|i: int| is_first_kept(s, i);
        let l = choose|i: int| is_last_kept(s, i);
        lemma_trim_at(s, f, l);
        assert(is_first_kept(t, f)) by {
            assert forall|j: int| 0 <= j < f implies is_white_space(t[j]) by {
                assert(t[j] == s[j]);
            }
        }
        assert(is_last_kept(t, l)) by {
            assert forall|j: int| l < j < t.len() implies is_white_space(t[j]) by {
                if j < s.len() {
                    assert(t[j] == s[j]);
                }
            }
        }
        lemma_trim_at(t, f, l);
        assert(t.subrange(f, l + 1) =~= s.subrange(f, l + 1));
        assert(is_first_kept(u, f + 1)) by {
            assert forall|j: int| 0 <= j < f + 1 implies is_white_space(u[j]) by {
                if j > 0 {
                    assert(u[j] == s[j - 1]);
                }
            }
        }
        assert(is_last_kept(u, l + 1)) by {
            assert forall|j: int| l + 1 < j < u.len() implies is_white_space(u[j]) by {
                assert(u[j] == s[j - 1]);
            }
        }
        lemma_trim_at(u, f + 1, l + 1);
        assert(u.subrange(f + 1, l + 2) =~= s.subrange(f, l + 1));
    }
}

/// What follows the last `\n` of `t` holds no `\n`, and what comes before it
/// is empty or ends with that `\n`.
proof fn lemma_after_last_newline(t: Seq<char>)
    ensures
        !after_last_newline(t).contains('\n'),
        exists|p: Seq<char>|
            (p.len() == 0 || p.last() == '\n') && #[trigger] (p + after_last_newline(t)) == t,
{
    if exists|i: int| 0 <= i < t.len() && t[i] == '\n' {
        let k = choose|k: int| 0 <= k < t.len() && t[k] == '\n';
        lemma_last_newline_exists(t, k);
        let i = choose|i: int|
            0 <= i < t.len() && t[i] == '\n' && forall|j: int| i < j < t.len() ==> t[j] != '\n';
        let seg = t.skip(i + 1);
        assert(after_last_newline(t) == seg);
        assert forall|j: int| 0 <= j < seg.len() implies seg[j] != '\n' by {
            assert(seg[j] == t[i + 1 + j]);
        }
        let p = t.take(i + 1);
        assert(p.last() == t[i]);
        assert(p + seg =~= t);
        assert(p + after_last_newline(t) == t);
    } else {
        assert(Seq::<char>::empty() + t =~= t);
        assert(Seq::<char>::empty() + after_last_newline(t) == t);
    }
}

/// When `t` holds a `\n` at `k`, it has a last `\n`.
proof fn lemma_last_newline_exists(t: Seq<char>, k: int)
    requires
        0 <= k < t.len(),
        t[k] == '\n',
    ensures
        exists|i: int|
            0 <= i < t.len() && t[i] == '\n' && forall|j: int| i < j < t.len() ==> t[j] != '\n',
    decreases t.len() - k,
{
    if exists|m: int| k < m < t.len() && t[m] == '\n' {
        let m = choose|m: int| k < m < t.len() && t[m] == '\n';
        lemma_last_newline_exists(t, m);
    } else {
        assert(forall|j: int| k < j < t.len() ==> t[j] != '\n');
    }
}

/// `s` is `p`, then the line `l`, then the line ending `e`: `p` is nothing or
/// ends with `\n`, `e` is nothing, `\n` or `\r\n`; `e` is nothing only when `s`
/// does not end with `\n`, and a `\r` right before a final `\n` belongs to `e`.
pub open spec fn splits_at_last_line(s: Seq<char>, l: Seq<char>, p: Seq<char>, e: Seq<char>) -> bool {
    &&& p.len() == 0 || p.last() == '\n'
    &&& p + l + e == s
    &&& e == Seq::<char>::empty() || e == seq!['\n'] || e == seq!['\r', '\n']
    &&& e.len() == 0 ==> (s.len() == 0 || s.last() != '\n')
    &&& e == seq!['\n'] ==> (l.len() == 0 || l.last() != '\r')
}

#[verifier::rlimit(50)]
proof fn lemma_last_line_after_newline(s: Seq<char>)
    requires
        s.len() > 0,
        s.last() == '\n',
    ensures
        !spec_last_line(s).contains('\n'),
        exists|p: Seq<char>, e: Seq<char>| splits_at_last_line(s, spec_last_line(s), p, e),
{
    let l = spec_last_line(s);
    let t = s.drop_last();
    let seg = after_last_newline(t);
    lemma_after_last_newline(t);
    let p = choose|p: Seq<char>| (p.len() == 0 || p.last() == '\n') && #[trigger] (p + seg) == t;
    if seg.len() > 0 && seg.last() == '\r' {
        let e = seq!['\r', '\n'];
        assert(l == seg.drop_last());
        assert(l.push('\r') =~= seg);
        assert(t.push('\n') =~= s);
        assert(p + l + e =~= (p + l.push('\r')).push('\n'));
        assert(p + l + e =~= s);
        assert forall|j: int| 0 <= j < l.len() implies l[j] != '\n' by {
            assert(l[j] == seg[j]);
        }
        assert(splits_at_last_line(s, l, p, e));
    } else {
        let e = seq!['\n'];
        assert(l == seg);
        assert(t.push('\n') =~= s);
        assert(p + l + e =~= s);
        assert(splits_at_last_line(s, l, p, e));
    }
}

proof fn lemma_last_line_unended(s: Seq<char>)
    requires
        s.len() > 0,
        s.last() != '\n',
    ensures
        !spec_last_line(s).contains('\n'),
        exists|p: Seq<char>, e: Seq<char>| splits_at_last_line(s, spec_last_line(s), p, e),
{
    let l = spec_last_line(s);
    lemma_after_last_newline(s);
    let p = choose|p: Seq<char>| (p.len() == 0 || p.last() == '\n') && #[trigger] (p + l) == s;
    let e = Seq::<char>::empty();
    assert(p + l + e =~= s);
    assert(splits_at_last_line(s, l, p, e));
}

/// The last line holds no `\n`, and the input splits around it: what comes
/// before it (nothing, or text that ends with `\n`), the line, and the input's
/// final line ending (nothing, `\n` or `\r\n`).
pub proof fn lemma_last_line_shape(s: Seq<char>)
    ensures
        !spec_last_line(s).contains('\n'),
        exists|p: Seq<char>, e: Seq<char>| splits_at_last_line(s, spec_last_line(s), p, e),
{
    if s.len() == 0 {
        let e = Seq::<char>::empty();
        assert(e + spec_last_line(s) + e =~= s);
        assert(splits_at_last_line(s, spec_last_line(s), e, e));
    } else if s.last() == '\n' {
        lemma_last_line_after_newline(s);
    } else {
        lemma_last_line_unended(s);
    }
}

fn white_space(c: char) -> (b: bool)
    ensures
        b == is_white_space(c),
{
    ('\t' <= c && c <= '\r') || c == ' ' || c == '\u{85}' || c == '\u{a0}' || c == '\u{1680}' || (
    '\u{2000}' <= c && c <= '\u{200a}') || c == '\u{2028}' || c == '\u{2029}' || c == '\u{202f}'
        || c == '\u{205f}' || c == '\u{3000}'
}

/// The line of a chunk of input that the bar shows: the last one.
pub fn last_line(input: &str) -> (line: &str)
    ensures
        line@ == spec_last_line(input@),
{
    let s = chars_of(input);
    let n = s.len();
    if n == 0 {
        return input.substring_char(0, 0);
    }
    let mut end = n;
    let ends_with_newline = s[n - 1] == '\n';
    if ends_with_newline {
        end = n - 1;
    }
    let ghost t = s@.subrange(0, end as int);
    // search backwards for the last newline before `end`
    let mut start = end;
    while start > 0 && s[start - 1] != '\n'
        invariant
            0 <= start <= end <= n == s@.len(),
            forall|j: int| start <= j < end ==> s@[j] != '\n',
        decreases start,
    {
        start = start - 1;
    }
    proof {
        if start > 0 {
            let i = start - 1;
            assert(t[i] == '\n');
            let k = choose|k: int|
                0 <= k < t.len() && t[k] == '\n' && forall|j: int| k < j < t.len() ==> t[j] != '\n';
            if k < i {
                assert(t[i] != '\n');
            } else if k > i {
                assert(t[k] == s@[k]);
            }
            assert(t.skip(i + 1) =~= s@.subrange(start as int, end as int));
        } else {
            assert(t =~= s@.subrange(start as int, end as int));
        }
        if !ends_with_newline {
            assert(t =~= s@);
        } else {
            assert(t =~= s@.drop_last());
        }
    }
    let mut stop = end;
    if ends_with_newline && stop > start && s[stop - 1] == '\r' {
        stop = stop - 1;
        assert(s@.subrange(start as int, end as int).drop_last() =~= s@.subrange(
            start as int,
            stop as int,
        ));
    }
    input.substring_char(start, stop)
}

/// `s` without its leading and trailing white space, as `str::trim` gives it.
pub fn trim(s: &str) -> (t: &str)
    ensures
        t@ == spec_trim(s@),
{
    let c = chars_of(s);
    let n = c.len();
    let mut first: usize = 0;
    while first < n && white_space(c[first])
        invariant
            0 <= first <= n == c@.len(),
            c@ == s@,
            forall|j: int| 0 <= j < first ==> is_white_space(c@[j]),
        decreases n - first,
    {
        first = first + 1;
    }
    if first == n {
        return s.substring_char(0, 0);
    }
    let mut last = n - 1;
    while white_space(c[last])
        invariant
            first <= last < n == c@.len(),
            c@ == s@,
            !is_white_space(c@[first as int]),
            forall|j: int| last < j < n ==> is_white_space(c@[j]),
        decreases last,
    {
        last = last - 1;
    }
    proof {
        assert(is_first_kept(s@, first as int));
        assert(is_last_kept(s@, last as int));
        lemma_trim_at(s@, first as int, last as int);
    }
    s.substring_char(first, last + 1)
}

} // verus!
