//! The indent normalizer: the least indent of the lines that hold text is
//! taken away from every line.

use crate::text::{
    bare_lines, chars_of, has_crlf, is_whitespace, is_whitespace_char, join_lines,
    lemma_bare_lines, lemma_bare_lines_keep, lemma_join_len_monotone, lemma_join_of_lines,
    lemma_join_push, lemma_lines_hold_no_newline, lemma_lines_of_join, lemma_unix_newlines_keeps,
    lemma_unix_newlines_len, lines, split_bare_lines, string_of, to_unix_newlines, unix_newlines,
    views, without_cr,
};
use vstd::prelude::*;

verus! {

/// A line is blank when it holds nothing but white space.
pub open spec fn is_blank(line: Seq<char>) -> bool {
    forall|i: int| 0 <= i < line.len() ==> is_whitespace(#[trigger] line[i])
}

/// The number of white-space characters at the start of a line.
pub open spec fn indent(line: Seq<char>) -> nat
    decreases line.len(),
{
    if line.len() > 0 && is_whitespace(line[0]) {
        1 + indent(line.skip(1))
    } else {
        0
    }
}

/// Whether `m` is the indent of some line that is not blank, and no such line
/// has a smaller one.
pub open spec fn is_least_indent(ls: Seq<Seq<char>>, m: nat) -> bool {
    &&& exists|k: int| 0 <= k < ls.len() && !is_blank(#[trigger] ls[k]) && indent(ls[k]) == m
    &&& forall|k: int| 0 <= k < ls.len() && !is_blank(#[trigger] ls[k]) ==> indent(ls[k]) >= m
}

/// The least indent among the lines that are not blank; `None` where every
/// line is blank.
pub open spec fn min_indent(ls: Seq<Seq<char>>) -> Option<nat> {
    if exists|m: nat| is_least_indent(ls, m) {
        Some(choose|m: nat| is_least_indent(ls, m))
    } else {
        None
    }
}

/// The line without its first `n` characters, whatever they are; a shorter
/// line becomes empty.
pub open spec fn strip(line: Seq<char>, n: nat) -> Seq<char> {
    if n <= line.len() {
        line.skip(n as int)
    } else {
        Seq::empty()
    }
}

/// Every line without its first `n` characters.
pub open spec fn strip_all(ls: Seq<Seq<char>>, n: nat) -> Seq<Seq<char>> {
    ls.map_values(|l: Seq<char>| strip(l, n))
}

/// The indent that the lines of a text share: the least indent among its
/// bare lines that are not blank, and zero where every line is blank.
pub open spec fn common_indent(text: Seq<char>) -> nat {
    match min_indent(bare_lines(unix_newlines(text))) {
        Some(m) => m,
        None => 0,
    }
}

/// The normalized text. It has unix line endings. Where the common indent is
/// zero, which it is where no line holds text, nothing else changes. Else
/// every bare line, blank or not, loses that many characters from its start
/// and ends in a line feed.
pub open spec fn normalized(text: Seq<char>) -> Seq<char> {
    if common_indent(text) == 0 {
        unix_newlines(text)
    } else {
        join_lines(strip_all(bare_lines(unix_newlines(text)), common_indent(text)))
    }
}

/// A line that starts with `n` white-space characters, followed by another
/// character or by nothing, has indent `n`.
pub proof fn lemma_indent(line: Seq<char>, n: int)
    requires
        0 <= n <= line.len(),
        forall|i: int| 0 <= i < n ==> is_whitespace(line[i]),
        n < line.len() ==> !is_whitespace(line[n]),
    ensures
        indent(line) == n,
    decreases n,
{
    if n > 0 {
        lemma_indent(line.skip(1), n - 1);
    }
}

/// The indent counts white space only, stops at the first other character,
/// and covers the whole line exactly when the line is blank.
pub proof fn lemma_indent_bounds(line: Seq<char>)
    ensures
        indent(line) <= line.len(),
        forall|i: int| 0 <= i < indent(line) ==> is_whitespace(line[i]),
        indent(line) < line.len() ==> !is_whitespace(line[indent(line) as int]),
        is_blank(line) <==> indent(line) == line.len(),
    decreases line.len(),
{
    if line.len() > 0 && is_whitespace(line[0]) {
        let r = line.skip(1);
        lemma_indent_bounds(r);
        assert forall|i: int| 0 <= i < indent(line) implies is_whitespace(line[i]) by {
            if i > 0 {
                assert(line[i] == r[i - 1]);
            }
        }
        assert(indent(line) < line.len() ==> line[indent(line) as int] == r[indent(r) as int]);
    }
    if indent(line) < line.len() {
        assert(!is_whitespace(line[indent(line) as int]));
    }
}

/// Taking away no more than its indent leaves a line as blank as it was, with
/// that much less indent.
pub proof fn lemma_strip(line: Seq<char>, m: nat)
    requires
        m <= indent(line),
    ensures
        indent(strip(line, m)) == indent(line) - m,
        is_blank(strip(line, m)) == is_blank(line),
{
    lemma_indent_bounds(line);
    let n = indent(line) as int;
    let rest = line.skip(m as int);
    assert forall|i: int| 0 <= i < n - m implies is_whitespace(rest[i]) by {
        assert(rest[i] == line[m + i]);
    }
    lemma_indent(rest, n - m);
    lemma_indent_bounds(rest);
}

/// Lines of which one is not blank have a least indent.
pub proof fn lemma_least_indent_exists(ls: Seq<Seq<char>>)
    requires
        exists|k: int| 0 <= k < ls.len() && !is_blank(#[trigger] ls[k]),
    ensures
        exists|m: nat| is_least_indent(ls, m),
    decreases ls.len(),
{
    let front = ls.drop_last();
    let l = ls.last();
    if exists|k: int| 0 <= k < front.len() && !is_blank(#[trigger] front[k]) {
        lemma_least_indent_exists(front);
        let m0 = choose|m: nat| is_least_indent(front, m);
        let k0 = choose|k: int|
            0 <= k < front.len() && !is_blank(#[trigger] front[k]) && indent(front[k]) == m0;
        assert(ls[k0] == front[k0]);
        let m: nat = if !is_blank(l) && indent(l) < m0 {
            indent(l)
        } else {
            m0
        };
        assert(!is_blank(ls[ls.len() - 1]) ==> indent(l) >= m);
        assert forall|k: int| 0 <= k < ls.len() && !is_blank(#[trigger] ls[k]) implies indent(
            ls[k],
        ) >= m by {
            if k < front.len() {
                assert(ls[k] == front[k]);
            }
        }
        if m == m0 {
            assert(!is_blank(ls[k0]) && indent(ls[k0]) == m);
        } else {
            assert(!is_blank(ls[ls.len() - 1]) && indent(ls[ls.len() - 1]) == m);
        }
        assert(is_least_indent(ls, m));
    } else {
        let k1 = choose|k: int| 0 <= k < ls.len() && !is_blank(#[trigger] ls[k]);
        if k1 < front.len() {
            assert(ls[k1] == front[k1]);
        }
        assert(k1 == ls.len() - 1);
        let m: nat = indent(l);
        assert forall|k: int| 0 <= k < ls.len() && !is_blank(#[trigger] ls[k]) implies indent(
            ls[k],
        ) >= m by {
            if k < front.len() {
                assert(ls[k] == front[k]);
            }
        }
        assert(!is_blank(ls[k1]) && indent(ls[k1]) == m);
        assert(is_least_indent(ls, m));
    }
}

/// What `min_indent` gives: the least indent, or `None` exactly where every
/// line is blank.
pub proof fn lemma_min_indent(ls: Seq<Seq<char>>)
    ensures
        match min_indent(ls) {
            Some(m) => is_least_indent(ls, m),
            None => forall|k: int| 0 <= k < ls.len() ==> is_blank(#[trigger] ls[k]),
        },
{
    if min_indent(ls) is None {
        if exists|k: int| 0 <= k < ls.len() && !is_blank(#[trigger] ls[k]) {
            lemma_least_indent_exists(ls);
        }
    }
}

/// A least indent is the only one.
pub proof fn lemma_min_indent_is(ls: Seq<Seq<char>>, m: nat)
    requires
        is_least_indent(ls, m),
    ensures
        min_indent(ls) == Some(m),
{
    let c = choose|c: nat| is_least_indent(ls, c);
    let k = choose|k: int| 0 <= k < ls.len() && !is_blank(#[trigger] ls[k]) && indent(ls[k]) == m;
    let j = choose|j: int| 0 <= j < ls.len() && !is_blank(#[trigger] ls[j]) && indent(ls[j]) == c;
    assert(indent(ls[k]) >= c);
    assert(indent(ls[j]) >= m);
}

/// Blank lines have no least indent.
pub proof fn lemma_min_indent_of_blank(ls: Seq<Seq<char>>)
    requires
        forall|k: int| 0 <= k < ls.len() ==> is_blank(#[trigger] ls[k]),
    ensures
        min_indent(ls) is None,
{
}

/// Once the least indent is taken away from every line, the least indent is
/// zero.
pub proof fn lemma_stripped_least(ls: Seq<Seq<char>>, m: nat)
    requires
        is_least_indent(ls, m),
    ensures
        is_least_indent(strip_all(ls, m), 0),
{
    let out = strip_all(ls, m);
    let k = choose|k: int| 0 <= k < ls.len() && !is_blank(#[trigger] ls[k]) && indent(ls[k]) == m;
    lemma_strip(ls[k], m);
    assert(!is_blank(out[k]) && indent(out[k]) == 0);
}

/// A carriage return at the end of a line changes neither whether the line
/// is blank nor, where it is not, its indent.
pub proof fn lemma_without_cr(line: Seq<char>)
    ensures
        is_blank(without_cr(line)) == is_blank(line),
        !is_blank(line) ==> indent(without_cr(line)) == indent(line),
{
    let bare = without_cr(line);
    if bare != line {
        assert(is_whitespace('\r'));
        if is_blank(bare) {
            assert forall|i: int| 0 <= i < line.len() implies is_whitespace(
                #[trigger] line[i],
            ) by {
                if i < bare.len() {
                    assert(line[i] == bare[i]);
                }
            }
        }
        if is_blank(line) {
            assert forall|i: int| 0 <= i < bare.len() implies is_whitespace(
                #[trigger] bare[i],
            ) by {
                assert(bare[i] == line[i]);
            }
        }
        if !is_blank(line) {
            lemma_indent_bounds(line);
            let n = indent(line) as int;
            assert forall|i: int| 0 <= i < n implies is_whitespace(bare[i]) by {
                assert(bare[i] == line[i]);
            }
            assert(bare[n] == line[n]);
            lemma_indent(bare, n);
        }
    }
}

/// The bare lines of a text are as blank as its lines, and those that are
/// not blank have the same indent.
pub proof fn lemma_bare_indents(s: Seq<char>)
    ensures
        bare_lines(s).len() == lines(s).len(),
        forall|k: int|
            0 <= k < lines(s).len() ==> is_blank(#[trigger] bare_lines(s)[k]) == is_blank(
                lines(s)[k],
            ),
        forall|k: int|
            0 <= k < lines(s).len() && !is_blank(lines(s)[k]) ==> indent(
                #[trigger] bare_lines(s)[k],
            ) == indent(lines(s)[k]),
{
    lemma_bare_lines(s);
    assert forall|k: int| 0 <= k < lines(s).len() implies is_blank(#[trigger] bare_lines(s)[k])
        == is_blank(lines(s)[k]) && (!is_blank(lines(s)[k]) ==> indent(bare_lines(s)[k])
        == indent(lines(s)[k])) by {
        lemma_without_cr(lines(s)[k]);
    }
}

/// The lines of a normalized text: those of the text with unix line endings
/// where the common indent is zero, else its bare lines without the common
/// indent.
pub proof fn lemma_lines_of_normalized(text: Seq<char>)
    ensures
        lines(normalized(text)) == if common_indent(text) == 0 {
            lines(unix_newlines(text))
        } else {
            strip_all(bare_lines(unix_newlines(text)), common_indent(text))
        },
{
    let t = unix_newlines(text);
    let m = common_indent(text);
    if m > 0 {
        let bare = bare_lines(t);
        let out = strip_all(bare, m);
        lemma_lines_hold_no_newline(t);
        lemma_bare_lines(t);
        assert forall|k: int, i: int|
            0 <= k < out.len() && 0 <= i < out[k].len() implies #[trigger] out[k][i] != '\n' by {
            assert(out[k][i] == bare[k][i + m]);
            if bare[k] == lines(t)[k] {
                assert(bare[k][i + m] == lines(t)[k][i + m]);
            } else {
                assert(bare[k][i + m] == lines(t)[k][i + m]);
            }
        }
        lemma_lines_of_join(out);
    }
}

/// Among the lines of a normalized text that are not blank, the least indent
/// is zero.
pub proof fn law_indent_floor(text: Seq<char>)
    ensures
        (forall|k: int|
            0 <= k < lines(normalized(text)).len() ==> is_blank(
                #[trigger] lines(normalized(text))[k],
            )) || is_least_indent(lines(normalized(text)), 0),
        min_indent(lines(normalized(text))) is None || min_indent(lines(normalized(text)))
            == Some(0nat),
{
    let t = unix_newlines(text);
    let bare = bare_lines(t);
    let ls = lines(t);
    let out = lines(normalized(text));
    lemma_lines_of_normalized(text);
    lemma_min_indent(bare);
    lemma_bare_indents(t);
    match min_indent(bare) {
        Some(m) => {
            if m > 0 {
                lemma_stripped_least(bare, m);
            } else {
                let k = choose|k: int|
                    0 <= k < bare.len() && !is_blank(#[trigger] bare[k]) && indent(bare[k]) == 0;
                assert(!is_blank(ls[k]) && indent(ls[k]) == 0);
            }
            lemma_min_indent_is(out, 0);
        },
        None => {
            assert forall|k: int| 0 <= k < ls.len() implies is_blank(#[trigger] ls[k]) by {
                assert(is_blank(bare[k]));
            }
            lemma_min_indent_of_blank(out);
        },
    }
}

/// Normalizing a normalized text changes nothing, provided that the
/// normalized text holds no carriage return directly before a line feed.
/// (One can stand there where the text ended in a carriage return, or held
/// two of them before a line feed.)
pub proof fn law_normalized_idempotent(text: Seq<char>)
    requires
        !has_crlf(normalized(text)),
    ensures
        normalized(normalized(text)) == normalized(text),
{
    let once = normalized(text);
    lemma_unix_newlines_keeps(once);
    lemma_bare_lines_keep(once);
    law_indent_floor(text);
}

/// Lines without their first `m` characters are, joined, no longer than
/// before, and shorter by `m` at least where one of them has `m` characters.
pub proof fn lemma_join_stripped_len(ls: Seq<Seq<char>>, m: nat)
    ensures
        join_lines(strip_all(ls, m)).len() <= join_lines(ls).len(),
        (exists|k: int| 0 <= k < ls.len() && (#[trigger] ls[k]).len() >= m) ==> join_lines(
            strip_all(ls, m),
        ).len() + m <= join_lines(ls).len(),
    decreases ls.len(),
{
    if ls.len() > 0 {
        let rest = ls.skip(1);
        lemma_join_stripped_len(rest, m);
        assert(strip_all(ls, m).skip(1) =~= strip_all(rest, m));
        if exists|k: int| 0 <= k < ls.len() && (#[trigger] ls[k]).len() >= m {
            let k = choose|k: int| 0 <= k < ls.len() && (#[trigger] ls[k]).len() >= m;
            if k > 0 {
                assert(rest[k - 1] == ls[k]);
            }
        }
    }
}

/// Where a carriage return stands directly before a line feed in a
/// normalized text, normalizing again gives a shorter text: the condition
/// of `law_normalized_idempotent` leaves out no text for which the law
/// holds.
pub proof fn law_crlf_breaks_idempotence(text: Seq<char>)
    requires
        has_crlf(normalized(text)),
    ensures
        normalized(normalized(text)).len() < normalized(text).len(),
{
    let once = normalized(text);
    let t = unix_newlines(once);
    let bare = bare_lines(t);
    let m = common_indent(once);
    lemma_unix_newlines_len(once);
    if m > 0 {
        lemma_min_indent(bare);
        let k = choose|k: int|
            0 <= k < bare.len() && !is_blank(#[trigger] bare[k]) && indent(bare[k]) == m;
        lemma_indent_bounds(bare[k]);
        lemma_join_stripped_len(bare, m);
        lemma_bare_lines(t);
        lemma_join_len_monotone(bare, lines(t));
        lemma_join_of_lines(t);
    }
}

/// The indent of a line, and whether the line is blank.
pub fn measure_indent(line: &Vec<char>) -> (r: (usize, bool))
    ensures
        r.0 == indent(line@),
        r.1 == is_blank(line@),
{
    let mut n: usize = 0;
    while n < line.len() && is_whitespace_char(line[n])
        invariant
            n <= line.len(),
            forall|i: int| 0 <= i < n ==> is_whitespace(line@[i]),
        decreases line.len() - n,
    {
        n += 1;
    }
    proof {
        lemma_indent(line@, n as int);
        lemma_indent_bounds(line@);
    }
    (n, n == line.len())
}

/// The least indent among the lines that are not blank.
pub fn least_indent(ls: &Vec<Vec<char>>) -> (r: Option<usize>)
    ensures
        match r {
            Some(m) => min_indent(views(ls@)) == Some(m as nat),
            None => min_indent(views(ls@)) is None,
        },
{
    let mut best: Option<usize> = None;
    let mut k: usize = 0;
    let ghost vs = views(ls@);
    let ghost mut at: int = 0;
    while k < ls.len()
        invariant
            k <= ls.len(),
            vs == views(ls@),
            best is None ==> forall|j: int| 0 <= j < k ==> is_blank(#[trigger] vs[j]),
            best is Some ==> 0 <= at < k && !is_blank(vs[at]) && indent(vs[at]) == best->0,
            best is Some ==> forall|j: int|
                0 <= j < k && !is_blank(#[trigger] vs[j]) ==> indent(vs[j]) >= best->0,
        decreases ls.len() - k,
    {
        let (n, blank) = measure_indent(&ls[k]);
        assert(vs[k as int] == ls@[k as int]@);
        if !blank {
            let better = match best {
                Some(m) => n < m,
                None => true,
            };
            if better {
                best = Some(n);
                proof {
                    at = k as int;
                }
            }
        }
        k += 1;
    }
    proof {
        match best {
            Some(m) => {
                assert(!is_blank(vs[at]) && indent(vs[at]) == m);
                lemma_min_indent_is(vs, m as nat);
            },
            None => {
                lemma_min_indent_of_blank(vs);
            },
        }
    }
    best
}

/// The lines without their first `m` characters, each followed by a line
/// feed.
pub fn join_stripped(ls: &Vec<Vec<char>>, m: usize) -> (out: Vec<char>)
    ensures
        out@ == join_lines(strip_all(views(ls@), m as nat)),
{
    let mut out: Vec<char> = Vec::new();
    let mut k: usize = 0;
    let ghost vs = views(ls@);
    proof {
        assert(strip_all(vs.take(0), m as nat) =~= Seq::<Seq<char>>::empty());
    }
    while k < ls.len()
        invariant
            k <= ls.len(),
            vs == views(ls@),
            out@ == join_lines(strip_all(vs.take(k as int), m as nat)),
        decreases ls.len() - k,
    {
        let line = &ls[k];
        let ghost before = out@;
        let ghost done = strip_all(vs.take(k as int), m as nat);
        let mut i: usize = m;
        while i < line.len()
            invariant
                m <= i,
                m <= line.len() ==> i <= line.len(),
                m <= line.len() ==> out@ == before + line@.subrange(m as int, i as int),
                m > line.len() ==> out@ == before,
            decreases line.len() - i,
        {
            out.push(line[i]);
            i += 1;
        }
        out.push('\n');
        proof {
            assert(vs[k as int] == line@);
            let stripped = strip(line@, m as nat);
            assert(out@ =~= before + stripped + seq!['\n']);
            lemma_join_push(done, stripped);
            assert(strip_all(vs.take(k + 1), m as nat) =~= done.push(stripped));
        }
        k += 1;
    }
    proof {
        assert(vs.take(k as int) =~= vs);
    }
    out
}

/// The normalized text, as `normalized` states it.
pub fn normalize_chars(text: &Vec<char>) -> (r: Vec<char>)
    ensures
        r@ == normalized(text@),
{
    let t = to_unix_newlines(text);
    let ls = split_bare_lines(&t);
    match least_indent(&ls) {
        Some(m) => {
            if m == 0 {
                t
            } else {
                join_stripped(&ls, m)
            }
        },
        None => t,
    }
}

/// Takes the common indent away from a text and gives it unix line endings.
///
/// The common indent is the least indent among the lines that hold more than
/// white space. Where it is not zero, every line, blank or not, loses that
/// many characters from its start, a carriage return that stood before the
/// line feed goes with the line ending, and every line of the result ends in
/// a line feed. Where it is zero, or no line holds text, only a carriage
/// return directly before a line feed is taken out. The result is always
/// `Some`.
pub fn remove_indent(source: &str) -> (r: Option<String>)
    ensures
        r is Some,
        r->0@ == normalized(source@),
{
    Some(normalize(source))
}

/// Normalizes a text: unix line endings, and no common indent. This is
/// `remove_indent` without the `Option`.
pub fn normalize(text: &str) -> (r: String)
    ensures
        r@ == normalized(text@),
{
    let chars = chars_of(text);
    let out = normalize_chars(&chars);
    string_of(&out)
}

} // verus!
