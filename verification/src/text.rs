//! Line-oriented text: the model of a text as a sequence of characters, and
//! the executable splitting, trimming and joining that the assembler's stages
//! are built from.
//!
//! Every function here is stated over `Seq<char>`, the view that `str`,
//! `String` and `Vec<char>` share.

use vstd::prelude::*;
use vstd::string::*;

verus! {

/// The characters that count as white space: those with the Unicode property
/// `White_Space`.
pub open spec fn is_space(c: char) -> bool {
    let n = c as u32;
    ||| 0x09 <= n <= 0x0D
    ||| n == 0x20
    ||| n == 0x85
    ||| n == 0xA0
    ||| n == 0x1680
    ||| 0x2000 <= n <= 0x200A
    ||| n == 0x2028
    ||| n == 0x2029
    ||| n == 0x202F
    ||| n == 0x205F
    ||| n == 0x3000
}

/// The number of white-space characters at the front of `s`.
pub open spec fn leading_spaces(s: Seq<char>) -> nat
    decreases s.len(),
{
    if s.len() > 0 && is_space(s[0]) {
        1 + leading_spaces(s.skip(1))
    } else {
        0
    }
}

/// The number of white-space characters at the back of `s`.
pub open spec fn trailing_spaces(s: Seq<char>) -> nat
    decreases s.len(),
{
    if s.len() > 0 && is_space(s.last()) {
        1 + trailing_spaces(s.drop_last())
    } else {
        0
    }
}

/// `s` without the white space at its front and at its back.
pub open spec fn trim(s: Seq<char>) -> Seq<char> {
    let t = s.skip(leading_spaces(s) as int);
    t.take(t.len() - trailing_spaces(t))
}

/// The length of the longest prefix of `s` that does not hold `stop`.
pub open spec fn span_len(s: Seq<char>, stop: char) -> nat
    decreases s.len(),
{
    if s.len() == 0 || s[0] == stop {
        0
    } else {
        1 + span_len(s.skip(1), stop)
    }
}

/// `s` without one carriage return at its end, if it has one there.
pub open spec fn strip_cr(s: Seq<char>) -> Seq<char> {
    if s.len() > 0 && s.last() == '\r' {
        s.drop_last()
    } else {
        s
    }
}

/// The lines of a text. A line ends at a line feed, or at the end of the text
/// where the text does not end with a line feed; a carriage return directly
/// before the line feed belongs to the line ending. Neither is part of the
/// line. The empty text has no lines.
pub open spec fn lines(s: Seq<char>) -> Seq<Seq<char>>
    decreases s.len(),
{
    if s.len() == 0 {
        Seq::empty()
    } else {
        let n = span_len(s, '\n') as int;
        if n >= s.len() {
            seq![s]
        } else {
            seq![strip_cr(s.take(n))] + lines(s.skip(n + 1))
        }
    }
}

/// The fields of `s`: the pieces between single spaces. Two spaces in a row
/// enclose an empty field, and the empty text is one empty field.
pub open spec fn fields(s: Seq<char>) -> Seq<Seq<char>>
    decreases s.len(),
{
    let n = span_len(s, ' ') as int;
    if n >= s.len() {
        seq![s]
    } else {
        seq![s.take(n)] + fields(s.skip(n + 1))
    }
}

/// The lines joined by one line feed between each two of them; no line feed
/// follows the last.
pub open spec fn join_lines(parts: Seq<Seq<char>>) -> Seq<char>
    decreases parts.len(),
{
    if parts.len() == 0 {
        Seq::empty()
    } else if parts.len() == 1 {
        parts[0]
    } else {
        parts[0] + seq!['\n'] + join_lines(parts.skip(1))
    }
}

/// The views of a sequence of strings.
pub open spec fn texts(v: Seq<String>) -> Seq<Seq<char>> {
    Seq::new(v.len(), |i: int| v[i]@)
}

/// A prefix that is free of `stop` and is followed by `stop`, or by the end,
/// is the span.
pub proof fn lemma_span_len(s: Seq<char>, stop: char, n: int)
    requires
        0 <= n <= s.len(),
        forall|i: int| 0 <= i < n ==> s[i] != stop,
        n == s.len() || s[n] == stop,
    ensures
        span_len(s, stop) == n,
    decreases n,
{
    if n > 0 {
        let t = s.skip(1);
        assert forall|i: int| 0 <= i < n - 1 implies t[i] != stop by {
            assert(t[i] == s[i + 1]);
        }
        lemma_span_len(t, stop, n - 1);
    }
}

/// The span lies within the text, holds no `stop`, and is followed by `stop`
/// unless it reaches the end.
pub proof fn lemma_span_len_bounds(s: Seq<char>, stop: char)
    ensures
        span_len(s, stop) <= s.len(),
        forall|i: int| 0 <= i < span_len(s, stop) ==> s[i] != stop,
        span_len(s, stop) < s.len() ==> s[span_len(s, stop) as int] == stop,
    decreases s.len(),
{
    if s.len() == 0 || s[0] == stop {
    } else {
        let t = s.skip(1);
        lemma_span_len_bounds(t, stop);
        assert forall|i: int| 0 <= i < span_len(s, stop) implies s[i] != stop by {
            if i > 0 {
                assert(t[i - 1] == s[i]);
            }
        }
        if span_len(s, stop) < s.len() {
            assert(t[span_len(t, stop) as int] == s[span_len(s, stop) as int]);
        }
    }
}

/// A run of white space at the front that is followed by another character,
/// or by the end, is all the leading white space.
pub proof fn lemma_leading_spaces(s: Seq<char>, n: int)
    requires
        0 <= n <= s.len(),
        forall|i: int| 0 <= i < n ==> is_space(s[i]),
        n == s.len() || !is_space(s[n]),
    ensures
        leading_spaces(s) == n,
    decreases n,
{
    if n > 0 {
        let t = s.skip(1);
        assert forall|i: int| 0 <= i < n - 1 implies is_space(t[i]) by {
            assert(t[i] == s[i + 1]);
        }
        lemma_leading_spaces(t, n - 1);
    }
}

/// A run of white space at the back that is preceded by another character,
/// or by the start, is all the trailing white space.
pub proof fn lemma_trailing_spaces(s: Seq<char>, n: int)
    requires
        0 <= n <= s.len(),
        forall|i: int| s.len() - n <= i < s.len() ==> is_space(s[i]),
        n == s.len() || !is_space(s[s.len() - n - 1]),
    ensures
        trailing_spaces(s) == n,
    decreases n,
{
    if n > 0 {
        let t = s.drop_last();
        assert forall|i: int| t.len() - (n - 1) <= i < t.len() implies is_space(t[i]) by {
            assert(t[i] == s[i]);
        }
        lemma_trailing_spaces(t, n - 1);
    }
}

/// Joining one more line to some lines puts a line feed and that line
/// behind them; joined to no lines, the line stands alone.
pub proof fn lemma_join_lines_push(parts: Seq<Seq<char>>, last: Seq<char>)
    ensures
        join_lines(parts.push(last)) == if parts.len() == 0 {
            last
        } else {
            join_lines(parts) + seq!['\n'] + last
        },
    decreases parts.len(),
{
    let all = parts.push(last);
    if parts.len() > 0 {
        assert(all.skip(1) =~= parts.skip(1).push(last));
        lemma_join_lines_push(parts.skip(1), last);
        assert(join_lines(all) =~= join_lines(parts) + seq!['\n'] + last);
    }
}

/// Appends one character to a string.
///
/// Trusted: this is `String::push`, which puts the given character at the
/// end of the string and leaves the rest as it was.
#[verifier::external_body]
pub(crate) fn push_char(s: &mut String, c: char)
    ensures
        final(s)@ == old(s)@.push(c),
{
    s.push(c)
}

/// Whether `c` is white space.
pub fn is_whitespace(c: char) -> (b: bool)
    ensures
        b == is_space(c),
{
    let n: u32 = c as u32;
    (0x09 <= n && n <= 0x0D) || n == 0x20 || n == 0x85 || n == 0xA0 || n == 0x1680 || (0x2000 <= n
        && n <= 0x200A) || n == 0x2028 || n == 0x2029 || n == 0x202F || n == 0x205F || n == 0x3000
}

/// The characters of a string.
pub fn to_chars(s: &str) -> (v: Vec<char>)
    ensures
        v@ == s@,
{
    let mut v: Vec<char> = Vec::new();
    for c in it: s.chars()
        invariant
            v@ == it.seq().take(it.index()),
            it.seq() == s@,
    {
        v.push(c);
    }
    v
}

/// The string made of the characters `v[from..to]`.
pub fn from_chars(v: &Vec<char>, from: usize, to: usize) -> (s: String)
    requires
        from <= to <= v.len(),
    ensures
        s@ == v@.subrange(from as int, to as int),
{
    let mut s = String::new();
    let mut i: usize = from;
    while i < to
        invariant
            from <= i <= to <= v.len(),
            s@ == v@.subrange(from as int, i as int),
        decreases to - i,
    {
        push_char(&mut s, v[i]);
        i += 1;
    }
    s
}

/// Whether `s` begins with `prefix`.
pub fn starts_with(s: &Vec<char>, prefix: &Vec<char>) -> (b: bool)
    ensures
        b == prefix@.is_prefix_of(s@),
{
    if prefix.len() > s.len() {
        return false;
    }
    let mut i: usize = 0;
    while i < prefix.len()
        invariant
            i <= prefix.len() <= s.len(),
            forall|k: int| 0 <= k < i ==> s[k] == prefix[k],
        decreases prefix.len() - i,
    {
        if s[i] != prefix[i] {
            assert(s@.subrange(0, prefix@.len() as int)[i as int] != prefix@[i as int]);
            return false;
        }
        i += 1;
    }
    assert(prefix@ =~= s@.subrange(0, prefix@.len() as int));
    true
}

/// The bounds of the trimmed rest of `v` from `from` on: `v[a..b]` is
/// `v[from..]` without its leading and trailing white space.
pub fn trim_bounds(v: &Vec<char>, from: usize) -> (r: (usize, usize))
    requires
        from <= v.len(),
    ensures
        from <= r.0 <= r.1 <= v.len(),
        v@.subrange(r.0 as int, r.1 as int) == trim(v@.skip(from as int)),
{
    let ghost rest = v@.skip(from as int);
    let mut a: usize = from;
    while a < v.len() && is_whitespace(v[a])
        invariant
            from <= a <= v.len(),
            forall|k: int| from <= k < a ==> is_space(v[k]),
        decreases v.len() - a,
    {
        a += 1;
    }
    let mut b: usize = v.len();
    while b > a && is_whitespace(v[b - 1])
        invariant
            a <= b <= v.len(),
            forall|k: int| b <= k < v.len() ==> is_space(v[k]),
        decreases b,
    {
        b -= 1;
    }
    proof {
        assert forall|i: int| 0 <= i < a - from implies is_space(rest[i]) by {
            assert(rest[i] == v[from + i]);
        }
        lemma_leading_spaces(rest, a - from);
        let t = rest.skip(a - from);
        assert(t =~= v@.skip(a as int));
        assert forall|i: int| t.len() - (v.len() - b) <= i < t.len() implies is_space(t[i]) by {
            assert(t[i] == v[a + i]);
        }
        lemma_trailing_spaces(t, v.len() - b);
        assert(t.take(t.len() - (v.len() - b)) =~= v@.subrange(a as int, b as int));
    }
    (a, b)
}

/// The lines of `s`, each as a string of its own.
pub fn split_lines(s: &str) -> (out: Vec<String>)
    ensures
        texts(out@) == lines(s@),
{
    let v = to_chars(s);
    let mut out: Vec<String> = Vec::new();
    let mut start: usize = 0;
    let mut i: usize = 0;
    assert(v@.skip(0) =~= v@);
    assert(texts(out@) =~= Seq::<Seq<char>>::empty());
    while i < v.len()
        invariant
            start <= i <= v.len(),
            forall|k: int| start <= k < i ==> v[k] != '\n',
            lines(v@) == texts(out@) + lines(v@.skip(start as int)),
        decreases v.len() - i,
    {
        if v[i] == '\n' {
            let end = if i > start && v[i - 1] == '\r' {
                i - 1
            } else {
                i
            };
            let line = from_chars(&v, start, end);
            proof {
                let rest = v@.skip(start as int);
                assert forall|k: int| 0 <= k < i - start implies rest[k] != '\n' by {
                    assert(rest[k] == v[start + k]);
                }
                lemma_span_len(rest, '\n', i - start);
                assert(rest.take(i - start) =~= v@.subrange(start as int, i as int));
                assert(rest.skip(i - start + 1) =~= v@.skip(i + 1));
                assert(strip_cr(v@.subrange(start as int, i as int)) =~= line@);
                assert(texts(out@.push(line)) =~= texts(out@) + seq![line@]);
            }
            out.push(line);
            start = i + 1;
        }
        i += 1;
    }
    if start < v.len() {
        let line = from_chars(&v, start, v.len());
        proof {
            let rest = v@.skip(start as int);
            assert forall|k: int| 0 <= k < rest.len() implies rest[k] != '\n' by {
                assert(rest[k] == v[start + k]);
            }
            lemma_span_len(rest, '\n', rest.len() as int);
            assert(rest =~= line@);
            assert(texts(out@.push(line)) =~= texts(out@) + seq![line@]);
        }
        out.push(line);
    } else {
        assert(texts(out@) + Seq::<Seq<char>>::empty() =~= texts(out@));
    }
    out
}

/// The fields of `v[from..to]`, each as a string of its own.
pub fn split_fields(v: &Vec<char>, from: usize, to: usize) -> (out: Vec<String>)
    requires
        from <= to <= v.len(),
    ensures
        texts(out@) == fields(v@.subrange(from as int, to as int)),
        out.len() >= 1,
{
    let ghost whole = v@.subrange(from as int, to as int);
    let mut out: Vec<String> = Vec::new();
    let mut start: usize = from;
    let mut i: usize = from;
    assert(whole.skip(0) =~= whole);
    assert(texts(out@) =~= Seq::<Seq<char>>::empty());
    while i < to
        invariant
            from <= start <= i <= to <= v.len(),
            whole == v@.subrange(from as int, to as int),
            forall|k: int| start <= k < i ==> v[k] != ' ',
            fields(whole) == texts(out@) + fields(whole.skip(start - from)),
        decreases to - i,
    {
        if v[i] == ' ' {
            let field = from_chars(v, start, i);
            proof {
                let rest = whole.skip(start - from);
                assert forall|k: int| 0 <= k < i - start implies rest[k] != ' ' by {
                    assert(rest[k] == v[start + k]);
                }
                assert(rest[i - start] == v[i as int]);
                lemma_span_len(rest, ' ', i - start);
                assert(rest.take(i - start) =~= field@);
                assert(rest.skip(i - start + 1) =~= whole.skip(i + 1 - from));
                assert(texts(out@.push(field)) =~= texts(out@) + seq![field@]);
            }
            out.push(field);
            start = i + 1;
        }
        i += 1;
    }
    let field = from_chars(v, start, to);
    proof {
        let rest = whole.skip(start - from);
        assert forall|k: int| 0 <= k < rest.len() implies rest[k] != ' ' by {
            assert(rest[k] == v[start + k]);
        }
        lemma_span_len(rest, ' ', rest.len() as int);
        assert(rest =~= field@);
        assert(texts(out@.push(field)) =~= texts(out@) + seq![field@]);
    }
    out.push(field);
    out
}

/// Whether `a` and `b` hold the same characters.
pub fn same_chars(a: &Vec<char>, b: &Vec<char>) -> (r: bool)
    ensures
        r == (a@ == b@),
{
    if a.len() != b.len() {
        return false;
    }
    let r = starts_with(a, b);
    assert(r ==> a@ =~= b@);
    assert(a@ == b@ ==> a@.subrange(0, b@.len() as int) =~= b@);
    r
}

/// The lines joined by line feeds: one between each two lines, none after
/// the last.
pub fn concat_lines(lines: Vec<String>) -> (out: String)
    ensures
        out@ == join_lines(texts(lines@)),
{
    let mut out = String::new();
    let mut i: usize = 0;
    let ghost all = texts(lines@);
    assert(all.take(0) =~= Seq::<Seq<char>>::empty());
    while i < lines.len()
        invariant
            i <= lines.len(),
            all == texts(lines@),
            out@ == join_lines(all.take(i as int)),
        decreases lines.len() - i,
    {
        proof {
            reveal_strlit("\n");
            assert("\n"@ =~= seq!['\n']);
            lemma_join_lines_push(all.take(i as int), all[i as int]);
            assert(all.take(i + 1) =~= all.take(i as int).push(all[i as int]));
        }
        if i > 0 {
            out.append("\n");
        }
        out.append(lines[i].as_str());
        assert(i == 0 ==> out@ =~= all[i as int]);
        i += 1;
    }
    assert(all.take(i as int) =~= all);
    out
}

} // verus!
