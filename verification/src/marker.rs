//! Marker comments: the regions that a pair of them delimits in a file, and
//! the lines that hold one.

use crate::indent::{normalize_chars, normalized};
use crate::text::{
    after_line, append, chars_of, contains, holds, join_lines, lemma_join_push, line_end,
    line_len, lines, occurs_at, slice_of, split_lines, string_of, trim_end, trimmed_len, views,
};
use vstd::prelude::*;

verus! {

/// The token that makes a line a marker comment.
pub open spec fn marker_token() -> Seq<char> {
    "DOCUSAURUS:"@
}

/// The text that opens the region of the marker `name`.
pub open spec fn start_delimiter(name: Seq<char>) -> Seq<char> {
    "DOCUSAURUS: "@ + name + " start"@
}

/// The text that closes the region of the marker `name`.
pub open spec fn stop_delimiter(name: Seq<char>) -> Seq<char> {
    "DOCUSAURUS: "@ + name + " stop"@
}

/// A line is a marker comment when the token stands somewhere on it,
/// whatever comes before and after.
pub open spec fn is_marker_line(line: Seq<char>) -> bool {
    contains(line, marker_token())
}

/// How many lines, from line `from` on, come before the first one that holds
/// `pat`.
pub open spec fn lines_before(ls: Seq<Seq<char>>, pat: Seq<char>, from: int) -> nat
    decreases ls.len() - from,
{
    if from < 0 || from >= ls.len() || contains(ls[from], pat) {
        0
    } else {
        1 + lines_before(ls, pat, from + 1)
    }
}

/// What a region gives: the lines between its delimiters, normalized, without
/// the white space at the end.
pub open spec fn region_text(interior: Seq<Seq<char>>) -> Seq<char> {
    trim_end(normalized(join_lines(interior)))
}

/// The regions of the marker `name` among the lines from line `from` on, in
/// order. A region opens on the first line that holds the start delimiter and
/// closes on the first later line that holds the stop delimiter; the search
/// for the next region goes on after that line. A region that never closes
/// is none.
pub open spec fn regions_from(ls: Seq<Seq<char>>, name: Seq<char>, from: int) -> Seq<Seq<char>>
    decreases ls.len() - from,
{
    let start = from + lines_before(ls, start_delimiter(name), from);
    let stop = start + 1 + lines_before(ls, stop_delimiter(name), start + 1);
    if 0 <= from && stop < ls.len() {
        seq![region_text(ls.subrange(start + 1, stop))] + regions_from(ls, name, stop + 1)
    } else {
        Seq::empty()
    }
}

/// The regions of the marker `name` in a text, in order.
pub open spec fn regions(text: Seq<char>, name: Seq<char>) -> Seq<Seq<char>> {
    regions_from(lines(text), name, 0)
}

/// The text without its marker comments: each line that holds the token is
/// taken out together with its line feed, and all else stays as it is.
pub open spec fn without_marker_lines(s: Seq<char>) -> Seq<char>
    decreases s.len(),
{
    if s.len() == 0 {
        s
    } else {
        let line = s.take(line_len(s) as int);
        let kept = if is_marker_line(line) {
            Seq::empty()
        } else if line_len(s) < s.len() {
            line.push('\n')
        } else {
            line
        };
        kept + without_marker_lines(after_line(s))
    }
}

/// The character sequences that a vector of strings holds.
pub open spec fn string_views(v: Seq<String>) -> Seq<Seq<char>> {
    v.map_values(|s: String| s@)
}

/// Where `n` lines from `from` on do not hold `pat`, and the next one does or
/// the lines end, `n` lines come before the first that holds it.
pub proof fn lemma_lines_before(ls: Seq<Seq<char>>, pat: Seq<char>, from: int, n: int)
    requires
        0 <= from,
        0 <= n,
        from + n <= ls.len(),
        forall|j: int| from <= j < from + n ==> !contains(#[trigger] ls[j], pat),
        from + n < ls.len() ==> contains(ls[from + n], pat),
    ensures
        lines_before(ls, pat, from) == n,
    decreases n,
{
    if n > 0 {
        assert(!contains(ls[from], pat));
        lemma_lines_before(ls, pat, from + 1, n - 1);
    }
}

/// A file in which no line holds the start delimiter of a marker has no
/// region of that marker.
pub proof fn law_no_start_line_no_region(text: Seq<char>, name: Seq<char>)
    requires
        forall|k: int|
            0 <= k < lines(text).len() ==> !contains(
                #[trigger] lines(text)[k],
                start_delimiter(name),
            ),
    ensures
        regions(text, name).len() == 0,
{
    let ls = lines(text);
    lemma_lines_before(ls, start_delimiter(name), 0, ls.len() as int);
}

/// A line that names another marker is no delimiter of this one. The line
/// holds the token once, followed by a space, the other name and a space; no
/// name holds a space. Then neither delimiter of `name` stands on the line.
pub proof fn law_marker_exactness(line: Seq<char>, at: int, name: Seq<char>, other: Seq<char>)
    requires
        occurs_at(line, "DOCUSAURUS: "@ + other + " "@, at),
        forall|j: int| occurs_at(line, marker_token(), j) ==> j == at,
        forall|i: int| 0 <= i < name.len() ==> name[i] != ' ',
        forall|i: int| 0 <= i < other.len() ==> other[i] != ' ',
        name != other,
    ensures
        !contains(line, start_delimiter(name)),
        !contains(line, stop_delimiter(name)),
{
    reveal_strlit("DOCUSAURUS:");
    reveal_strlit("DOCUSAURUS: ");
    reveal_strlit(" ");
    reveal_strlit(" start");
    reveal_strlit(" stop");
    let named = "DOCUSAURUS: "@ + other + " "@;
    assert forall|j: int, tail: Seq<char>|
        tail.len() > 0 && tail[0] == ' ' && #[trigger] occurs_at(
            line,
            "DOCUSAURUS: "@ + name + tail,
            j,
        ) implies false by {
        let delimiter = "DOCUSAURUS: "@ + name + tail;
        let found = line.subrange(j, j + delimiter.len());
        assert(line.subrange(j, j + 11) =~= marker_token()) by {
            assert forall|i: int| 0 <= i < 11 implies line.subrange(j, j + 11)[i]
                == marker_token()[i] by {
                assert(found[i] == delimiter[i]);
            }
        }
        assert(occurs_at(line, marker_token(), j));
        assert(j == at);
        let named_here = line.subrange(at, at + named.len());
        assert forall|i: int| 0 <= i < name.len() && i < other.len() implies name[i]
            == other[i] by {
            assert(found[12 + i] == delimiter[12 + i]);
            assert(named_here[12 + i] == named[12 + i]);
        }
        if name.len() < other.len() {
            let i = name.len() as int;
            assert(found[12 + i] == delimiter[12 + i]);
            assert(named_here[12 + i] == named[12 + i]);
            assert(other[i] == ' ');
        } else if name.len() > other.len() {
            let i = other.len() as int;
            assert(found[12 + i] == delimiter[12 + i]);
            assert(named_here[12 + i] == named[12 + i]);
            assert(name[i] == ' ');
        } else {
            assert(name =~= other);
        }
    }
    if contains(line, start_delimiter(name)) {
        let j = choose|j: int| occurs_at(line, start_delimiter(name), j);
        assert(occurs_at(line, "DOCUSAURUS: "@ + name + " start"@, j));
    }
    if contains(line, stop_delimiter(name)) {
        let j = choose|j: int| occurs_at(line, stop_delimiter(name), j);
        assert(occurs_at(line, "DOCUSAURUS: "@ + name + " stop"@, j));
    }
}

/// A text of which no line is a marker comment stays as it is.
pub proof fn lemma_without_marker_lines_keeps(s: Seq<char>)
    requires
        forall|k: int| 0 <= k < lines(s).len() ==> !is_marker_line(#[trigger] lines(s)[k]),
    ensures
        without_marker_lines(s) == s,
    decreases s.len(),
{
    if s.len() > 0 {
        let rest = after_line(s);
        let n = line_len(s) as int;
        crate::text::lemma_line_len_bounds(s);
        assert(lines(s)[0] == s.take(n));
        assert forall|k: int| 0 <= k < lines(rest).len() implies !is_marker_line(
            #[trigger] lines(rest)[k],
        ) by {
            assert(lines(s)[k + 1] == lines(rest)[k]);
        }
        lemma_without_marker_lines_keeps(rest);
        if n < s.len() {
            assert(s.take(n).push('\n') + rest =~= s);
        } else {
            assert(s.take(n) + rest =~= s);
        }
    }
}

/// The first line from `from` on that holds `pat`, or the number of lines.
pub fn find_line(ls: &Vec<Vec<char>>, pat: &Vec<char>, from: usize) -> (at: usize)
    requires
        from <= ls.len(),
    ensures
        at <= ls.len(),
        at == from + lines_before(views(ls@), pat@, from as int),
{
    let ghost vs = views(ls@);
    let mut at: usize = from;
    while at < ls.len() && !holds(&ls[at], pat)
        invariant
            from <= at <= ls.len(),
            vs == views(ls@),
            forall|j: int| from <= j < at ==> !contains(#[trigger] vs[j], pat@),
        decreases ls.len() - at,
    {
        at += 1;
    }
    proof {
        lemma_lines_before(vs, pat@, from as int, at - from);
    }
    at
}

/// The lines from `from` up to, and without, `to`, each followed by a line
/// feed.
pub fn join_range(ls: &Vec<Vec<char>>, from: usize, to: usize) -> (out: Vec<char>)
    requires
        from <= to <= ls.len(),
    ensures
        out@ == join_lines(views(ls@).subrange(from as int, to as int)),
{
    let ghost vs = views(ls@);
    let mut out: Vec<char> = Vec::new();
    let mut k: usize = from;
    proof {
        assert(vs.subrange(from as int, from as int) =~= Seq::<Seq<char>>::empty());
    }
    while k < to
        invariant
            from <= k <= to <= ls.len(),
            vs == views(ls@),
            out@ == join_lines(vs.subrange(from as int, k as int)),
        decreases to - k,
    {
        let ghost before = vs.subrange(from as int, k as int);
        append(&mut out, &ls[k]);
        out.push('\n');
        proof {
            lemma_join_push(before, vs[k as int]);
            assert(vs.subrange(from as int, k + 1) =~= before.push(vs[k as int]));
        }
        k += 1;
    }
    out
}

/// The start or the stop delimiter of a marker.
pub fn delimiter(name: &Vec<char>, start: bool) -> (out: Vec<char>)
    ensures
        out@ == if start {
            start_delimiter(name@)
        } else {
            stop_delimiter(name@)
        },
{
    let mut out = chars_of("DOCUSAURUS: ");
    append(&mut out, name);
    let tail = if start {
        chars_of(" start")
    } else {
        chars_of(" stop")
    };
    append(&mut out, &tail);
    out
}

/// The regions of a marker among the lines of a file, in order.
pub fn extract_regions(ls: &Vec<Vec<char>>, name: &Vec<char>) -> (out: Vec<Vec<char>>)
    ensures
        views(out@) == regions_from(views(ls@), name@, 0),
{
    let ghost vs = views(ls@);
    let start_pat = delimiter(name, true);
    let stop_pat = delimiter(name, false);
    let mut out: Vec<Vec<char>> = Vec::new();
    let mut from: usize = 0;
    proof {
        assert(views(out@) + regions_from(vs, name@, 0) =~= regions_from(vs, name@, 0));
    }
    loop
        invariant_except_break
            from <= ls.len(),
            views(out@) + regions_from(vs, name@, from as int) == regions_from(vs, name@, 0),
        invariant
            vs == views(ls@),
            start_pat@ == start_delimiter(name@),
            stop_pat@ == stop_delimiter(name@),
        ensures
            views(out@) == regions_from(vs, name@, 0),
        decreases ls.len() - from,
    {
        let ghost before = views(out@);
        let start = find_line(ls, &start_pat, from);
        if start >= ls.len() {
            proof {
                assert(before + regions_from(vs, name@, from as int) =~= before);
            }
            break;
        }
        let stop = find_line(ls, &stop_pat, start + 1);
        if stop >= ls.len() {
            proof {
                assert(before + regions_from(vs, name@, from as int) =~= before);
            }
            break;
        }
        let interior = join_range(ls, start + 1, stop);
        let whole = normalize_chars(&interior);
        let region = slice_of(&whole, 0, trimmed_len(&whole));
        proof {
            let rest = regions_from(vs, name@, stop + 1);
            assert(whole@.take(trimmed_len_of(whole@)) =~= region@);
            assert(region@ == region_text(vs.subrange(start + 1, stop as int)));
            assert(before + (seq![region@] + rest) =~= before.push(region@) + rest);
        }
        out.push(region);
        proof {
            assert(views(out@) =~= before.push(region@));
        }
        from = stop + 1;
    }
    out
}

/// The length of a text without the white space at its end.
pub open spec fn trimmed_len_of(s: Seq<char>) -> int {
    trim_end(s).len() as int
}

/// The regions that the marker `marker` delimits in `file_text`, in order.
///
/// A region opens on the first line that holds `DOCUSAURUS: ` with the
/// marker's name and ` start` after it, and closes on the first later line
/// that holds the same with ` stop`. What stands between the two lines is
/// normalized and loses the white space at its end. After a region the search
/// goes on behind its closing line. The name is taken letter for letter, so a
/// marker whose name only starts or ends like this one is another marker. No
/// region at all gives an empty vector.
pub fn extract(file_text: &str, marker: &str) -> (out: Vec<String>)
    ensures
        string_views(out@) == regions(file_text@, marker@),
{
    let text = chars_of(file_text);
    let name = chars_of(marker);
    let ls = split_lines(&text);
    let found = extract_regions(&ls, &name);
    let mut out: Vec<String> = Vec::new();
    let mut k: usize = 0;
    while k < found.len()
        invariant
            k <= found.len(),
            string_views(out@) == views(found@).take(k as int),
        decreases found.len() - k,
    {
        let ghost before = string_views(out@);
        let region = string_of(&found[k]);
        out.push(region);
        proof {
            assert(string_views(out@) =~= before.push(found@[k as int]@));
            assert(views(found@).take(k + 1) =~= before.push(found@[k as int]@));
        }
        k += 1;
    }
    proof {
        assert(views(found@).take(k as int) =~= views(found@));
    }
    out
}

/// The text without its marker comments.
pub fn drop_marker_lines(s: &Vec<char>) -> (out: Vec<char>)
    ensures
        out@ == without_marker_lines(s@),
{
    let token = chars_of("DOCUSAURUS:");
    let mut out: Vec<char> = Vec::new();
    let mut i: usize = 0;
    proof {
        assert(s@.skip(0) =~= s@);
        assert(out@ + without_marker_lines(s@) =~= without_marker_lines(s@));
    }
    while i < s.len()
        invariant
            i <= s.len(),
            token@ == marker_token(),
            out@ + without_marker_lines(s@.skip(i as int)) == without_marker_lines(s@),
        decreases s.len() - i,
    {
        let ghost before = out@;
        let ghost rest = s@.skip(i as int);
        let end = line_end(s, i);
        let line = slice_of(s, i, end);
        let next: usize = if end < s.len() {
            end + 1
        } else {
            end
        };
        proof {
            assert(rest.take(end - i) =~= line@);
            assert(after_line(rest) =~= s@.skip(next as int));
        }
        if !holds(&line, &token) {
            append(&mut out, &line);
            if end < s.len() {
                out.push('\n');
            }
        }
        proof {
            let kept = if is_marker_line(line@) {
                Seq::empty()
            } else if end < s.len() {
                line@.push('\n')
            } else {
                line@
            };
            assert(out@ =~= before + kept);
            assert(before + (kept + without_marker_lines(after_line(rest))) =~= (before + kept)
                + without_marker_lines(after_line(rest)));
        }
        i = next;
    }
    proof {
        assert(out@ + without_marker_lines(s@.skip(i as int)) =~= out@);
    }
    out
}

/// Takes the marker comments out of a text: every line that holds
/// `DOCUSAURUS:` goes, together with its line feed. All other lines stay as
/// they are, in their order.
pub fn strip_marker_lines(text: &str) -> (out: String)
    ensures
        out@ == without_marker_lines(text@),
{
    let chars = chars_of(text);
    let kept = drop_marker_lines(&chars);
    string_of(&kept)
}

} // verus!
