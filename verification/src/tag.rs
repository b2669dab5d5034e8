//! Load tags: the strict grammar that a tag must follow to be resolved, and
//! the loose shape by which tags are counted.

use crate::text::{
    chars_of, find, lines, matches_at, occurs_at, slice_of, split_lines, string_of, views,
};
use vstd::prelude::*;

verus! {

/// A load tag as it stands in a text: where it starts and ends, the path it
/// declares, and the marker it names, if any.
#[derive(Debug, Clone, PartialEq, Eq)]
pub struct Tag {
    /// The declared path, as written between the quotes.
    pub path: String,
    /// The marker's name; `None` asks for the whole file.
    pub marker: Option<String>,
    /// The index of the tag's first character.
    pub start: usize,
    /// The index behind the tag, and behind the line feed that directly
    /// follows it, if one does.
    pub end: usize,
}

/// A load tag over mathematical values.
pub struct TagView {
    pub path: Seq<char>,
    pub marker: Option<Seq<char>>,
    pub start: int,
    pub end: int,
}

impl View for Tag {
    type V = TagView;

    open spec fn view(&self) -> TagView {
        TagView {
            path: self.path@,
            marker: match self.marker {
                Some(m) => Some(m@),
                None => None,
            },
            start: self.start as int,
            end: self.end as int,
        }
    }
}

/// How a strict tag begins, up to the quote that opens the path.
pub open spec fn tag_open() -> Seq<char> {
    "<load path='"@
}

/// What stands between the quote that closes the path and the marker's name.
pub open spec fn marker_open() -> Seq<char> {
    " marker='"@
}

/// How a strict tag ends, behind the last closing quote.
pub open spec fn tag_close() -> Seq<char> {
    " />"@
}

/// How a loose tag begins.
pub open spec fn loose_open() -> Seq<char> {
    "<load"@
}

/// The length of the attribute value that starts at `at`: the number of
/// characters before the next single quote or line feed.
pub open spec fn value_len(s: Seq<char>, at: int) -> nat
    decreases s.len() - at,
{
    if at < 0 || at >= s.len() || s[at] == '\'' || s[at] == '\n' {
        0
    } else {
        1 + value_len(s, at + 1)
    }
}

/// Whether a single quote stands at `at`.
pub open spec fn quote_at(s: Seq<char>, at: int) -> bool {
    0 <= at < s.len() && s[at] == '\''
}

/// The index behind a tag whose text ends at `at`: a line feed that directly
/// follows the tag belongs to it.
pub open spec fn tag_end(s: Seq<char>, at: int) -> int {
    if 0 <= at < s.len() && s[at] == '\n' {
        at + 1
    } else {
        at
    }
}

/// The strict tag that starts at index `at`, if one does. A strict tag is
/// `<load path='P' marker='M' />` or `<load path='P' />`, letter for letter,
/// where `P` and `M` hold neither a single quote nor a line feed.
pub open spec fn tag_at(s: Seq<char>, at: int) -> Option<TagView> {
    let path_at = at + tag_open().len();
    let path_end = path_at + value_len(s, path_at);
    let marker_at = path_end + 1 + marker_open().len();
    let marker_end = marker_at + value_len(s, marker_at);
    if !occurs_at(s, tag_open(), at) || !quote_at(s, path_end) {
        None
    } else if occurs_at(s, marker_open(), path_end + 1) {
        if quote_at(s, marker_end) && occurs_at(s, tag_close(), marker_end + 1) {
            Some(
                TagView {
                    path: s.subrange(path_at, path_end),
                    marker: Some(s.subrange(marker_at, marker_end)),
                    start: at,
                    end: tag_end(s, marker_end + 1 + tag_close().len()),
                },
            )
        } else {
            None
        }
    } else if occurs_at(s, tag_close(), path_end + 1) {
        Some(
            TagView {
                path: s.subrange(path_at, path_end),
                marker: None,
                start: at,
                end: tag_end(s, path_end + 1 + tag_close().len()),
            },
        )
    } else {
        None
    }
}

/// The strict tags from index `from` on, from left to right, none inside
/// another: behind a tag the search goes on at its end.
pub open spec fn tags_from(s: Seq<char>, from: int) -> Seq<TagView>
    decreases s.len() - from,
{
    if from < 0 || from >= s.len() {
        Seq::empty()
    } else {
        match tag_at(s, from) {
            Some(t) => if t.end > from {
                seq![t] + tags_from(s, t.end)
            } else {
                Seq::empty()
            },
            None => tags_from(s, from + 1),
        }
    }
}

/// The strict tags of a text, in order.
pub open spec fn strict_tags(s: Seq<char>) -> Seq<TagView> {
    tags_from(s, 0)
}

/// A line holds a loose tag when `<load` stands on it with a `>` somewhere
/// behind.
pub open spec fn has_loose_tag(line: Seq<char>) -> bool {
    exists|i: int, j: int|
        #![trigger occurs_at(line, loose_open(), i), line[j]]
        occurs_at(line, loose_open(), i) && i + loose_open().len() <= j < line.len() && line[j]
            == '>'
}

/// The number of lines that hold a loose tag.
pub open spec fn count_loose(ls: Seq<Seq<char>>) -> nat
    decreases ls.len(),
{
    if ls.len() == 0 {
        0
    } else {
        count_loose(ls.drop_last()) + if has_loose_tag(ls.last()) {
            1nat
        } else {
            0nat
        }
    }
}

/// The number of loose tags in a text. A loose tag runs from `<load` to the
/// last `>` of its line, so a line holds one or none.
pub open spec fn loose_tag_count(s: Seq<char>) -> nat {
    count_loose(lines(s))
}

/// The views of the tags in a vector.
pub open spec fn tag_views(v: Seq<Tag>) -> Seq<TagView> {
    v.map_values(|t: Tag| t@)
}

/// Whether the tags lie in the text from `from` on, one after the other.
pub open spec fn in_order(s: Seq<char>, tags: Seq<TagView>, from: int) -> bool {
    &&& forall|k: int|
        0 <= k < tags.len() ==> from <= (#[trigger] tags[k]).start < tags[k].end <= s.len()
    &&& forall|j: int, k: int|
        0 <= j < k < tags.len() ==> (#[trigger] tags[j]).end <= (#[trigger] tags[k]).start
}

/// `n` characters from `at` on that are neither a single quote nor a line
/// feed, followed by one of the two or by the end of the text, make a value of
/// length `n`.
pub proof fn lemma_value_len(s: Seq<char>, at: int, n: int)
    requires
        0 <= at,
        0 <= n,
        at + n <= s.len(),
        forall|i: int| at <= i < at + n ==> s[i] != '\'' && s[i] != '\n',
        at + n < s.len() ==> s[at + n] == '\'' || s[at + n] == '\n',
    ensures
        value_len(s, at) == n,
    decreases n,
{
    if n > 0 {
        lemma_value_len(s, at + 1, n - 1);
    }
}

/// A strict tag starts where it was looked for, ends behind its start and
/// inside the text.
pub proof fn lemma_tag_at(s: Seq<char>, at: int)
    ensures
        match tag_at(s, at) {
            Some(t) => t.start == at && 0 <= at < t.end <= s.len(),
            None => true,
        },
{
}

/// The strict tags lie in the text one after the other.
pub proof fn lemma_tags_in_order(s: Seq<char>, from: int)
    ensures
        in_order(s, tags_from(s, from), from),
    decreases s.len() - from,
{
    if 0 <= from < s.len() {
        lemma_tag_at(s, from);
        match tag_at(s, from) {
            Some(t) => {
                lemma_tags_in_order(s, t.end);
                let rest = tags_from(s, t.end);
                let tags = tags_from(s, from);
                assert(tags =~= seq![t] + rest);
                assert forall|k: int| 0 <= k < tags.len() implies from <= (#[trigger] tags[k]).start
                    < tags[k].end <= s.len() by {
                    if k > 0 {
                        assert(tags[k] == rest[k - 1]);
                    }
                }
                assert forall|j: int, k: int| 0 <= j < k < tags.len() implies (#[trigger] tags[j]).end
                    <= (#[trigger] tags[k]).start by {
                    assert(tags[k] == rest[k - 1]);
                    if j > 0 {
                        assert(tags[j] == rest[j - 1]);
                    }
                }
            },
            None => {
                lemma_tags_in_order(s, from + 1);
            },
        }
    }
}

/// The index at which the attribute value that starts at `at` ends.
pub fn value_end(s: &Vec<char>, at: usize) -> (end: usize)
    requires
        at <= s.len(),
    ensures
        at <= end <= s.len(),
        end == at + value_len(s@, at as int),
{
    let mut end: usize = at;
    while end < s.len() && s[end] != '\'' && s[end] != '\n'
        invariant
            at <= end <= s.len(),
            forall|i: int| at <= i < end ==> s@[i] != '\'' && s@[i] != '\n',
        decreases s.len() - end,
    {
        end += 1;
    }
    proof {
        lemma_value_len(s@, at as int, end - at);
    }
    end
}

/// The index behind a tag whose text ends at `at`.
fn end_of_tag(s: &Vec<char>, at: usize) -> (end: usize)
    requires
        at <= s.len(),
    ensures
        end == tag_end(s@, at as int),
        end <= s.len(),
{
    if at < s.len() && s[at] == '\n' {
        at + 1
    } else {
        at
    }
}

/// The strict tag that starts at index `at`, if one does.
pub fn parse_tag(s: &Vec<char>, at: usize) -> (r: Option<Tag>)
    ensures
        match r {
            Some(t) => tag_at(s@, at as int) == Some(t@),
            None => tag_at(s@, at as int) is None,
        },
{
    let open = chars_of("<load path='");
    let marker_open = chars_of(" marker='");
    let close = chars_of(" />");
    if !matches_at(s, &open, at) {
        return None;
    }
    let len = s.len();
    let path_at = at + open.len();
    let path_end = value_end(s, path_at);
    if path_end >= len || s[path_end] != '\'' {
        return None;
    }
    let path = string_of(&slice_of(s, path_at, path_end));
    if matches_at(s, &marker_open, path_end + 1) {
        let marker_at = path_end + 1 + marker_open.len();
        let marker_end = value_end(s, marker_at);
        if marker_end >= len || s[marker_end] != '\'' {
            return None;
        }
        if !matches_at(s, &close, marker_end + 1) {
            return None;
        }
        let marker = string_of(&slice_of(s, marker_at, marker_end));
        let end = end_of_tag(s, marker_end + 1 + close.len());
        Some(Tag { path, marker: Some(marker), start: at, end })
    } else if matches_at(s, &close, path_end + 1) {
        let end = end_of_tag(s, path_end + 1 + close.len());
        Some(Tag { path, marker: None, start: at, end })
    } else {
        None
    }
}

/// The strict tags of a text, in order.
pub fn scan_tags(s: &Vec<char>) -> (out: Vec<Tag>)
    ensures
        tag_views(out@) == strict_tags(s@),
{
    let mut out: Vec<Tag> = Vec::new();
    let mut at: usize = 0;
    proof {
        assert(tag_views(out@) + tags_from(s@, 0) =~= tags_from(s@, 0));
    }
    while at < s.len()
        invariant
            tag_views(out@) + tags_from(s@, at as int) == strict_tags(s@),
        decreases s.len() - at,
    {
        let ghost before = tag_views(out@);
        proof {
            lemma_tag_at(s@, at as int);
        }
        match parse_tag(s, at) {
            Some(tag) => {
                let end = tag.end;
                proof {
                    let rest = tags_from(s@, end as int);
                    assert(before + (seq![tag@] + rest) =~= before.push(tag@) + rest);
                }
                out.push(tag);
                proof {
                    assert(tag_views(out@) =~= before.push(out@.last()@));
                }
                at = end;
            },
            None => {
                at += 1;
            },
        }
    }
    proof {
        assert(tag_views(out@) + tags_from(s@, at as int) =~= tag_views(out@));
    }
    out
}

/// Whether a line holds a loose tag.
pub fn line_has_loose_tag(line: &Vec<char>) -> (r: bool)
    ensures
        r == has_loose_tag(line@),
{
    let open = chars_of("<load");
    match find(line, &open, 0) {
        None => false,
        Some(first) => {
            let len = line.len();
            let mut j: usize = first + open.len();
            while j < len
                invariant
                    first + open.len() <= j <= line.len(),
                    len == line.len(),
                    open@ == loose_open(),
                    occurs_at(line@, loose_open(), first as int),
                    forall|k: int| first + open.len() <= k < j ==> line@[k] != '>',
                decreases len - j,
            {
                if line[j] == '>' {
                    return true;
                }
                j += 1;
            }
            false
        },
    }
}

/// The number of lines that hold a loose tag.
pub fn count_loose_lines(ls: &Vec<Vec<char>>) -> (n: usize)
    ensures
        n == count_loose(views(ls@)),
{
    let ghost vs = views(ls@);
    let mut n: usize = 0;
    let mut k: usize = 0;
    proof {
        assert(vs.take(0) =~= Seq::<Seq<char>>::empty());
    }
    while k < ls.len()
        invariant
            k <= ls.len(),
            n <= k,
            vs == views(ls@),
            n == count_loose(vs.take(k as int)),
        decreases ls.len() - k,
    {
        proof {
            assert(vs.take(k + 1).drop_last() =~= vs.take(k as int));
            assert(vs.take(k + 1).last() == ls@[k as int]@);
        }
        if line_has_loose_tag(&ls[k]) {
            n += 1;
        }
        k += 1;
    }
    proof {
        assert(vs.take(k as int) =~= vs);
    }
    n
}

/// The strict tags of a text, from left to right.
///
/// A strict tag is `<load path='P' marker='M' />` or `<load path='P' />`,
/// letter for letter, with single quotes; `P` and `M` hold neither a single
/// quote nor a line feed. A line feed directly behind a tag belongs to the
/// tag. The text is taken as it is; `start` and `end` count its characters.
pub fn find_tags(text: &str) -> (out: Vec<Tag>)
    ensures
        tag_views(out@) == strict_tags(text@),
{
    let chars = chars_of(text);
    scan_tags(&chars)
}

/// The number of loose tags in a text: the lines on which `<load` stands with
/// a `>` somewhere behind it. Such a line counts once, whatever it holds
/// besides.
pub fn count_loose_tags(text: &str) -> (n: usize)
    ensures
        n == loose_tag_count(text@),
{
    let chars = chars_of(text);
    let ls = split_lines(&chars);
    count_loose_lines(&ls)
}

} // verus!
