//! Text as a sequence of characters: white space, line endings, lines and
//! the search for a literal.

use vstd::prelude::*;

verus! {

/// `String::push` of the standard library, which appends one character to the
/// end of a string. Verus takes this contract on trust.
pub assume_specification[ String::push ](s: &mut String, ch: char)
    ensures
        final(s)@ == old(s)@.push(ch),
;

/// The characters that carry Unicode's `White_Space` property.
pub open spec fn is_whitespace(c: char) -> bool {
    let n = c as u32;
    ||| 0x09 <= n <= 0x0D
    ||| n == 0x20
    ||| n == 0x85
    ||| n == 0xA0
    ||| n == 0x1680
    ||| 0x2000 <= n <= 0x200A
    ||| n == 0x2028
    ||| n == 0x2029
    ||| n == 0x202F
    ||| n == 0x205F
    ||| n == 0x3000
}

/// The text with every carriage return that stands directly before a line
/// feed taken out, in one pass from the left.
pub open spec fn unix_newlines(s: Seq<char>) -> Seq<char>
    decreases s.len(),
{
    if s.len() == 0 {
        s
    } else if s.len() >= 2 && s[0] == '\r' && s[1] == '\n' {
        seq!['\n'] + unix_newlines(s.skip(2))
    } else {
        seq![s[0]] + unix_newlines(s.skip(1))
    }
}

/// Whether a carriage return stands directly before a line feed somewhere.
pub open spec fn has_crlf(s: Seq<char>) -> bool {
    exists|i: int| 0 <= i && i + 1 < s.len() && s[i] == '\r' && #[trigger] s[i + 1] == '\n'
}

/// The length of the first line: the place of the first line feed, or the
/// length of the text where it has none.
pub open spec fn line_len(s: Seq<char>) -> nat
    decreases s.len(),
{
    if s.len() == 0 || s[0] == '\n' {
        0
    } else {
        1 + line_len(s.skip(1))
    }
}

/// What follows the first line and its line feed.
pub open spec fn after_line(s: Seq<char>) -> Seq<char> {
    if line_len(s) < s.len() {
        s.skip(line_len(s) as int + 1)
    } else {
        Seq::empty()
    }
}

/// The lines of a text, without their line feeds. A line feed ends a line; it
/// does not start an empty one at the end of the text.
pub open spec fn lines(s: Seq<char>) -> Seq<Seq<char>>
    decreases s.len(),
{
    if s.len() == 0 {
        Seq::empty()
    } else {
        seq![s.take(line_len(s) as int)] + lines(after_line(s))
    }
}

/// The line without the carriage return at its end, if it ends in one.
pub open spec fn without_cr(line: Seq<char>) -> Seq<char> {
    if line.len() > 0 && line.last() == '\r' {
        line.drop_last()
    } else {
        line
    }
}

/// The lines of a text without their line endings: a line that a line feed
/// ends also loses a carriage return that stands directly before the line
/// feed. A last line that no line feed ends stays as it is.
pub open spec fn bare_lines(s: Seq<char>) -> Seq<Seq<char>>
    decreases s.len(),
{
    if s.len() == 0 {
        Seq::empty()
    } else {
        let line = s.take(line_len(s) as int);
        seq![
            if line_len(s) < s.len() {
                without_cr(line)
            } else {
                line
            },
        ] + bare_lines(after_line(s))
    }
}

/// The lines put together again, each followed by a line feed.
pub open spec fn join_lines(ls: Seq<Seq<char>>) -> Seq<char>
    decreases ls.len(),
{
    if ls.len() == 0 {
        Seq::empty()
    } else {
        ls[0] + seq!['\n'] + join_lines(ls.skip(1))
    }
}

/// Whether `pat` stands in `s` at index `at`.
pub open spec fn occurs_at(s: Seq<char>, pat: Seq<char>, at: int) -> bool {
    &&& 0 <= at
    &&& at + pat.len() <= s.len()
    &&& s.subrange(at, at + pat.len()) == pat
}

/// Whether `pat` stands somewhere in `s`.
pub open spec fn contains(s: Seq<char>, pat: Seq<char>) -> bool {
    exists|at: int| occurs_at(s, pat, at)
}

/// The text without the white space at its end.
pub open spec fn trim_end(s: Seq<char>) -> Seq<char>
    decreases s.len(),
{
    if s.len() > 0 && is_whitespace(s.last()) {
        trim_end(s.drop_last())
    } else {
        s
    }
}

/// The texts put together in order, with nothing between them.
pub open spec fn concat(parts: Seq<Seq<char>>) -> Seq<char>
    decreases parts.len(),
{
    if parts.len() == 0 {
        Seq::empty()
    } else {
        concat(parts.drop_last()) + parts.last()
    }
}

/// The character sequences that a vector of character vectors holds.
pub open spec fn views(v: Seq<Vec<char>>) -> Seq<Seq<char>> {
    v.map_values(|l: Vec<char>| l@)
}

/// A text of `n` characters without a line feed, followed by a line feed or
/// by nothing, has a first line of length `n`.
pub proof fn lemma_line_len(s: Seq<char>, n: int)
    requires
        0 <= n <= s.len(),
        forall|i: int| 0 <= i < n ==> s[i] != '\n',
        n < s.len() ==> s[n] == '\n',
    ensures
        line_len(s) == n,
    decreases n,
{
    if n > 0 {
        lemma_line_len(s.skip(1), n - 1);
    }
}

/// The first line ends inside the text, holds no line feed and is followed by
/// one where the text goes on.
pub proof fn lemma_line_len_bounds(s: Seq<char>)
    ensures
        line_len(s) <= s.len(),
        forall|i: int| 0 <= i < line_len(s) ==> s[i] != '\n',
        line_len(s) < s.len() ==> s[line_len(s) as int] == '\n',
    decreases s.len(),
{
    if s.len() == 0 || s[0] == '\n' {
    } else {
        let r = s.skip(1);
        lemma_line_len_bounds(r);
        assert forall|i: int| 0 <= i < line_len(s) implies s[i] != '\n' by {
            if i > 0 {
                assert(s[i] == r[i - 1]);
            }
        }
    }
}

/// Joining distributes over a line added at the end.
pub proof fn lemma_join_push(ls: Seq<Seq<char>>, l: Seq<char>)
    ensures
        join_lines(ls.push(l)) == join_lines(ls) + l + seq!['\n'],
    decreases ls.len(),
{
    if ls.len() == 0 {
        assert(ls.push(l).skip(1) =~= Seq::<Seq<char>>::empty());
        assert(join_lines(Seq::<Seq<char>>::empty()) =~= Seq::<char>::empty());
        assert(join_lines(ls.push(l)) =~= l + seq!['\n']);
        assert(join_lines(ls) + l + seq!['\n'] =~= l + seq!['\n']);
    } else {
        lemma_join_push(ls.skip(1), l);
        assert(ls.push(l).skip(1) =~= ls.skip(1).push(l));
        assert(join_lines(ls.push(l)) =~= join_lines(ls) + l + seq!['\n']);
    }
}

/// No line of a text holds a line feed.
pub proof fn lemma_lines_hold_no_newline(s: Seq<char>)
    ensures
        forall|k: int, i: int|
            0 <= k < lines(s).len() && 0 <= i < lines(s)[k].len() ==> #[trigger] lines(s)[k][i]
                != '\n',
    decreases s.len(),
{
    if s.len() > 0 {
        lemma_line_len_bounds(s);
        lemma_lines_hold_no_newline(after_line(s));
        let rest = lines(after_line(s));
        assert forall|k: int, i: int|
            0 <= k < lines(s).len() && 0 <= i < lines(s)[k].len() implies #[trigger] lines(
            s,
        )[k][i] != '\n' by {
            if k > 0 {
                assert(lines(s)[k] == rest[k - 1]);
            }
        }
    }
}

/// Lines without a line feed come back unchanged when they are joined and the
/// result is split again.
pub proof fn lemma_lines_of_join(ls: Seq<Seq<char>>)
    requires
        forall|k: int, i: int| 0 <= k < ls.len() && 0 <= i < ls[k].len() ==> #[trigger] ls[k][i]
            != '\n',
    ensures
        lines(join_lines(ls)) == ls,
    decreases ls.len(),
{
    if ls.len() > 0 {
        let s = join_lines(ls);
        let rest = ls.skip(1);
        let n = ls[0].len() as int;
        assert(s =~= ls[0] + seq!['\n'] + join_lines(rest));
        assert forall|i: int| 0 <= i < n implies s[i] != '\n' by {
            assert(s[i] == ls[0][i]);
        }
        lemma_line_len(s, n);
        assert(s.take(n) =~= ls[0]);
        assert(after_line(s) =~= join_lines(rest));
        assert forall|k: int, i: int|
            0 <= k < rest.len() && 0 <= i < rest[k].len() implies #[trigger] rest[k][i]
            != '\n' by {
            assert(rest[k] == ls[k + 1]);
        }
        lemma_lines_of_join(rest);
        assert(lines(s) =~= ls);
    } else {
        assert(lines(join_lines(ls)) =~= ls);
    }
}

/// A text in which no carriage return stands before a line feed keeps its
/// line endings as they are.
pub proof fn lemma_unix_newlines_keeps(s: Seq<char>)
    requires
        !has_crlf(s),
    ensures
        unix_newlines(s) == s,
    decreases s.len(),
{
    if s.len() > 0 {
        if s.len() >= 2 && s[0] == '\r' && s[1] == '\n' {
            assert(s[0int] == '\r' && s[0int + 1] == '\n');
        } else {
            let r = s.skip(1);
            if has_crlf(r) {
                let i = choose|i: int|
                    0 <= i && i + 1 < r.len() && r[i] == '\r' && #[trigger] r[i + 1] == '\n';
                assert(s[i + 1] == '\r' && s[(i + 1) + 1] == '\n');
            }
            lemma_unix_newlines_keeps(r);
            assert(seq![s[0]] + r =~= s);
        }
    }
}

/// Unix line endings never make a text longer, and make it shorter where a
/// carriage return stood before a line feed.
pub proof fn lemma_unix_newlines_len(s: Seq<char>)
    ensures
        unix_newlines(s).len() <= s.len(),
        has_crlf(s) ==> unix_newlines(s).len() < s.len(),
    decreases s.len(),
{
    if s.len() == 0 {
    } else if s.len() >= 2 && s[0] == '\r' && s[1] == '\n' {
        lemma_unix_newlines_len(s.skip(2));
    } else {
        let r = s.skip(1);
        lemma_unix_newlines_len(r);
        if has_crlf(s) {
            let i = choose|i: int|
                0 <= i && i + 1 < s.len() && s[i] == '\r' && #[trigger] s[i + 1] == '\n';
            assert(r[i - 1] == '\r' && r[(i - 1) + 1] == '\n');
        }
    }
}

/// The lines of a text, joined, are the text itself, with a line feed added
/// at the end where the text is not empty and does not end in one.
pub proof fn lemma_join_of_lines(s: Seq<char>)
    ensures
        join_lines(lines(s)) == if s.len() == 0 || s.last() == '\n' {
            s
        } else {
            s.push('\n')
        },
    decreases s.len(),
{
    if s.len() > 0 {
        let n = line_len(s) as int;
        let rest = after_line(s);
        lemma_line_len_bounds(s);
        lemma_join_of_lines(rest);
        let ls = lines(s);
        assert(ls.skip(1) =~= lines(rest));
        assert(ls[0] == s.take(n));
        if n < s.len() {
            assert(s =~= s.take(n) + seq!['\n'] + rest);
            if rest.len() > 0 {
                assert(rest.last() == s.last());
            }
            assert(join_lines(ls) =~= s.take(n) + seq!['\n'] + join_lines(lines(rest)));
        } else {
            assert(s.take(n) =~= s);
            assert(join_lines(lines(rest)) =~= Seq::<char>::empty());
            assert(join_lines(ls) =~= s.push('\n'));
        }
    } else {
        assert(join_lines(lines(s)) =~= s);
    }
}

/// A text has as many bare lines as lines, and each bare line is the line
/// itself or the line without the carriage return at its end.
pub proof fn lemma_bare_lines(s: Seq<char>)
    ensures
        bare_lines(s).len() == lines(s).len(),
        forall|k: int|
            0 <= k < lines(s).len() ==> #[trigger] bare_lines(s)[k] == lines(s)[k]
                || bare_lines(s)[k] == without_cr(lines(s)[k]),
    decreases s.len(),
{
    if s.len() > 0 {
        let rest = after_line(s);
        lemma_bare_lines(rest);
        assert forall|k: int| 0 <= k < lines(s).len() implies #[trigger] bare_lines(s)[k]
            == lines(s)[k] || bare_lines(s)[k] == without_cr(lines(s)[k]) by {
            if k > 0 {
                assert(bare_lines(s)[k] == bare_lines(rest)[k - 1]);
                assert(lines(s)[k] == lines(rest)[k - 1]);
            }
        }
    }
}

/// Where no carriage return stands directly before a line feed, the bare
/// lines are the lines.
pub proof fn lemma_bare_lines_keep(s: Seq<char>)
    requires
        !has_crlf(s),
    ensures
        bare_lines(s) == lines(s),
    decreases s.len(),
{
    if s.len() > 0 {
        let n = line_len(s) as int;
        let rest = after_line(s);
        lemma_line_len_bounds(s);
        if has_crlf(rest) {
            let i = choose|i: int|
                0 <= i && i + 1 < rest.len() && rest[i] == '\r' && #[trigger] rest[i + 1] == '\n';
            assert(s[n + 1 + i] == '\r' && s[(n + 1 + i) + 1] == '\n');
        }
        lemma_bare_lines_keep(rest);
        if n < s.len() && n > 0 && s[n - 1] == '\r' {
            assert(s[n - 1] == '\r' && s[(n - 1) + 1] == '\n');
        }
        assert(bare_lines(s) =~= lines(s));
    }
}

/// Lines that are one by one no longer than others are, joined, no longer
/// than the others joined.
pub proof fn lemma_join_len_monotone(a: Seq<Seq<char>>, b: Seq<Seq<char>>)
    requires
        a.len() == b.len(),
        forall|k: int| 0 <= k < a.len() ==> (#[trigger] a[k]).len() <= b[k].len(),
    ensures
        join_lines(a).len() <= join_lines(b).len(),
    decreases a.len(),
{
    if a.len() > 0 {
        assert forall|k: int| 0 <= k < a.skip(1).len() implies (#[trigger] a.skip(1)[k]).len()
            <= b.skip(1)[k].len() by {
            assert(a.skip(1)[k] == a[k + 1]);
        }
        assert(a[0].len() <= b[0].len());
        lemma_join_len_monotone(a.skip(1), b.skip(1));
    }
}

/// Whether the character is white space.
pub fn is_whitespace_char(c: char) -> (r: bool)
    ensures
        r == is_whitespace(c),
{
    ('\u{9}' <= c && c <= '\u{d}') || c == ' ' || c == '\u{85}' || c == '\u{a0}' || c
        == '\u{1680}' || ('\u{2000}' <= c && c <= '\u{200a}') || c == '\u{2028}' || c
        == '\u{2029}' || c == '\u{202f}' || c == '\u{205f}' || c == '\u{3000}'
}

/// The characters of a string, in order.
pub fn chars_of(s: &str) -> (v: Vec<char>)
    ensures
        v@ == s@,
{
    let mut v: Vec<char> = Vec::new();
    for c in it: s.chars()
        invariant
            v@ == it.seq().take(it.index() as int),
            it.seq() == s@,
    {
        v.push(c);
    }
    v
}

/// The string that holds the given characters, in order.
pub fn string_of(v: &Vec<char>) -> (s: String)
    ensures
        s@ == v@,
{
    let mut s = String::new();
    let mut i: usize = 0;
    while i < v.len()
        invariant
            i <= v.len(),
            s@ == v@.take(i as int),
        decreases v.len() - i,
    {
        s.push(v[i]);
        i += 1;
    }
    s
}

/// A copy of the characters from index `from` up to, and without, index `to`.
pub fn slice_of(s: &Vec<char>, from: usize, to: usize) -> (out: Vec<char>)
    requires
        from <= to <= s.len(),
    ensures
        out@ == s@.subrange(from as int, to as int),
{
    let mut out: Vec<char> = Vec::new();
    let mut i: usize = from;
    while i < to
        invariant
            from <= i <= to <= s.len(),
            out@ == s@.subrange(from as int, i as int),
        decreases to - i,
    {
        out.push(s[i]);
        i += 1;
    }
    out
}

/// Appends the characters of `part` to `out`.
pub fn append(out: &mut Vec<char>, part: &Vec<char>)
    ensures
        final(out)@ == old(out)@ + part@,
{
    let mut i: usize = 0;
    while i < part.len()
        invariant
            i <= part.len(),
            out@ == old(out)@ + part@.take(i as int),
        decreases part.len() - i,
    {
        out.push(part[i]);
        i += 1;
    }
}

/// Takes out every carriage return that stands directly before a line feed.
pub fn to_unix_newlines(s: &Vec<char>) -> (out: Vec<char>)
    ensures
        out@ == unix_newlines(s@),
{
    let mut out: Vec<char> = Vec::new();
    let mut i: usize = 0;
    proof {
        assert(s@.skip(0) =~= s@);
        assert(out@ + unix_newlines(s@) =~= unix_newlines(s@));
    }
    while i < s.len()
        invariant
            i <= s.len(),
            out@ + unix_newlines(s@.skip(i as int)) == unix_newlines(s@),
        decreases s.len() - i,
    {
        let ghost before = out@;
        let ghost rest = s@.skip(i as int);
        if s[i] == '\r' && i + 1 < s.len() && s[i + 1] == '\n' {
            out.push('\n');
            proof {
                assert(rest.skip(2) =~= s@.skip(i + 2));
                assert(before + (seq!['\n'] + unix_newlines(rest.skip(2))) =~= before.push('\n')
                    + unix_newlines(rest.skip(2)));
            }
            i += 2;
        } else {
            out.push(s[i]);
            proof {
                assert(rest.skip(1) =~= s@.skip(i + 1));
                assert(before + (seq![rest[0]] + unix_newlines(rest.skip(1))) =~= before.push(
                    rest[0],
                ) + unix_newlines(rest.skip(1)));
            }
            i += 1;
        }
    }
    proof {
        assert(out@ + unix_newlines(s@.skip(i as int)) =~= out@);
    }
    out
}

/// The index at which the line that starts at `from` ends: that of the next
/// line feed, or the length of the text.
pub fn line_end(s: &Vec<char>, from: usize) -> (end: usize)
    requires
        from <= s.len(),
    ensures
        from <= end <= s.len(),
        end - from == line_len(s@.skip(from as int)),
{
    let mut end: usize = from;
    while end < s.len() && s[end] != '\n'
        invariant
            from <= end <= s.len(),
            forall|i: int| from <= i < end ==> s@[i] != '\n',
        decreases s.len() - end,
    {
        end += 1;
    }
    proof {
        lemma_line_len(s@.skip(from as int), end - from);
    }
    end
}

/// The lines of a text.
pub fn split_lines(s: &Vec<char>) -> (out: Vec<Vec<char>>)
    ensures
        views(out@) == lines(s@),
{
    let mut out: Vec<Vec<char>> = Vec::new();
    let mut i: usize = 0;
    proof {
        assert(s@.skip(0) =~= s@);
        assert(views(out@) + lines(s@) =~= lines(s@));
    }
    while i < s.len()
        invariant
            i <= s.len(),
            views(out@) + lines(s@.skip(i as int)) == lines(s@),
        decreases s.len() - i,
    {
        let ghost before = views(out@);
        let ghost rest = s@.skip(i as int);
        let end = line_end(s, i);
        let line = slice_of(s, i, end);
        out.push(line);
        let next: usize = if end < s.len() {
            end + 1
        } else {
            end
        };
        proof {
            assert(rest.take(end - i) =~= line@);
            assert(after_line(rest) =~= s@.skip(next as int));
            assert(views(out@) =~= before.push(line@));
            assert(before + (seq![line@] + lines(after_line(rest))) =~= before.push(line@)
                + lines(after_line(rest)));
        }
        i = next;
    }
    proof {
        assert(views(out@) + lines(s@.skip(i as int)) =~= views(out@));
    }
    out
}

/// The bare lines of a text: its lines, each without the carriage return
/// that stood directly before the line feed that ended it.
pub fn split_bare_lines(s: &Vec<char>) -> (out: Vec<Vec<char>>)
    ensures
        views(out@) == bare_lines(s@),
{
    let mut out: Vec<Vec<char>> = Vec::new();
    let mut i: usize = 0;
    proof {
        assert(s@.skip(0) =~= s@);
        assert(views(out@) + bare_lines(s@) =~= bare_lines(s@));
    }
    while i < s.len()
        invariant
            i <= s.len(),
            views(out@) + bare_lines(s@.skip(i as int)) == bare_lines(s@),
        decreases s.len() - i,
    {
        let ghost before = views(out@);
        let ghost rest = s@.skip(i as int);
        let end = line_end(s, i);
        let ended = end < s.len();
        let bare_end: usize = if ended && end > i && s[end - 1] == '\r' {
            end - 1
        } else {
            end
        };
        let line = slice_of(s, i, bare_end);
        out.push(line);
        let next: usize = if ended {
            end + 1
        } else {
            end
        };
        proof {
            let whole = rest.take(end - i);
            assert(whole =~= s@.subrange(i as int, end as int));
            if bare_end < end {
                assert(whole.last() == '\r');
                assert(whole.drop_last() =~= line@);
            } else {
                assert(whole =~= line@);
            }
            assert(after_line(rest) =~= s@.skip(next as int));
            assert(views(out@) =~= before.push(line@));
            assert(before + (seq![line@] + bare_lines(after_line(rest))) =~= before.push(line@)
                + bare_lines(after_line(rest)));
        }
        i = next;
    }
    proof {
        assert(views(out@) + bare_lines(s@.skip(i as int)) =~= views(out@));
    }
    out
}

/// Whether `pat` stands in `s` at index `at`.
pub fn matches_at(s: &Vec<char>, pat: &Vec<char>, at: usize) -> (r: bool)
    ensures
        r == occurs_at(s@, pat@, at as int),
{
    if pat.len() > s.len() || at > s.len() - pat.len() {
        return false;
    }
    let mut k: usize = 0;
    while k < pat.len()
        invariant
            k <= pat.len(),
            at + pat.len() <= s.len(),
            forall|j: int| 0 <= j < k ==> s@[at + j] == pat@[j],
        decreases pat.len() - k,
    {
        if s[at + k] != pat[k] {
            proof {
                assert(s@.subrange(at as int, at + pat.len())[k as int] == s@[at + k]);
            }
            return false;
        }
        k += 1;
    }
    proof {
        assert(s@.subrange(at as int, at + pat.len()) =~= pat@);
    }
    true
}

/// The first index from `from` on at which `pat` stands in `s`.
pub fn find(s: &Vec<char>, pat: &Vec<char>, from: usize) -> (r: Option<usize>)
    ensures
        match r {
            Some(at) => from <= at && occurs_at(s@, pat@, at as int) && forall|k: int|
                from <= k < at ==> !occurs_at(s@, pat@, k),
            None => forall|k: int| from <= k ==> !occurs_at(s@, pat@, k),
        },
{
    let mut at: usize = from;
    while at <= s.len()
        invariant
            from <= at,
            forall|k: int| from <= k < at ==> !occurs_at(s@, pat@, k),
        decreases s.len() + 1 - at,
    {
        if matches_at(s, pat, at) {
            return Some(at);
        }
        if at == s.len() {
            return None;
        }
        at += 1;
    }
    None
}

/// Whether `pat` stands somewhere in `s`.
pub fn holds(s: &Vec<char>, pat: &Vec<char>) -> (r: bool)
    ensures
        r == contains(s@, pat@),
{
    find(s, pat, 0).is_some()
}

/// The length of the text without the white space at its end.
pub fn trimmed_len(s: &Vec<char>) -> (n: usize)
    ensures
        n <= s.len(),
        s@.take(n as int) == trim_end(s@),
{
    let mut n: usize = s.len();
    proof {
        assert(s@.take(n as int) =~= s@);
    }
    while n > 0 && is_whitespace_char(s[n - 1])
        invariant
            n <= s.len(),
            trim_end(s@.take(n as int)) == trim_end(s@),
        decreases n,
    {
        proof {
            assert(s@.take(n as int).drop_last() =~= s@.take(n - 1));
        }
        n -= 1;
    }
    n
}

} // verus!
