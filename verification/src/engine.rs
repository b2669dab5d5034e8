//! The injection engine: every strict tag of a source text is resolved and
//! replaced, the errors are gathered, and the tags are counted against the
//! loose shape.

use crate::error::{error_views, ErrorType, ErrorView, IncorrectMarker, InjectError, InjectErrorView};
use crate::marker::{
    drop_marker_lines, extract_regions, is_marker_line, lemma_without_marker_lines_keeps, regions,
    without_marker_lines,
};
use crate::tag::{
    count_loose, count_loose_lines, has_loose_tag, in_order, lemma_tags_in_order, lemma_value_len,
    loose_open, loose_tag_count, scan_tags, strict_tags, tag_at, tag_close, tag_open,
    tag_views, tags_from, Tag, TagView,
};
use crate::text::{
    after_line, append, chars_of, concat, lemma_line_len, lemma_unix_newlines_keeps,
    lines, occurs_at, slice_of, split_lines, string_of, to_unix_newlines, unix_newlines, views,
};
use vstd::prelude::*;

verus! {

/// What the lookup of a tag's file gave: the path after remapping, and the
/// content of the file where it could be read.
#[derive(Debug, Clone, PartialEq, Eq)]
pub struct Load {
    /// The resolved path.
    pub path: String,
    /// The content of the file; `None` where it could not be read.
    pub content: Option<String>,
}

/// A lookup over mathematical values.
pub struct LoadView {
    pub path: Seq<char>,
    pub content: Option<Seq<char>>,
}

impl View for Load {
    type V = LoadView;

    open spec fn view(&self) -> LoadView {
        LoadView {
            path: self.path@,
            content: match self.content {
                Some(text) => Some(text@),
                None => None,
            },
        }
    }
}

/// What a tag resolves to: the text that takes its place, and the error, if
/// it could not be resolved.
#[derive(Debug, PartialEq)]
pub struct Resolution {
    /// The text that takes the tag's place; empty where there is an error.
    pub text: String,
    /// Why the tag could not be resolved.
    pub error: Option<ErrorType>,
}

/// A resolution over mathematical values.
pub struct Resolved {
    pub text: Seq<char>,
    pub error: Option<ErrorView>,
}

impl View for Resolution {
    type V = Resolved;

    open spec fn view(&self) -> Resolved {
        Resolved {
            text: self.text@,
            error: match self.error {
                Some(e) => Some(e@),
                None => None,
            },
        }
    }
}

/// The views of the lookups in a vector.
pub open spec fn load_views(v: Seq<Load>) -> Seq<LoadView> {
    v.map_values(|l: Load| l@)
}

/// What a tag resolves to, given the lookup of its file.
///
/// A file that could not be read is an `IncorrectPath` with the resolved
/// path. With a marker, the regions of that marker in the file, which gets
/// unix line endings first, are put together and followed by one line feed;
/// no region is an `IncorrectMarker` with the marker and the declared path.
/// Without a marker, the file comes whole, with unix line endings and without
/// its marker comments.
pub open spec fn resolved(tag: TagView, load: LoadView) -> Resolved {
    match load.content {
        None => Resolved { text: Seq::empty(), error: Some(ErrorView::IncorrectPath(load.path)) },
        Some(content) => {
            let file = unix_newlines(content);
            match tag.marker {
                Some(name) => {
                    if regions(file, name).len() == 0 {
                        Resolved {
                            text: Seq::empty(),
                            error: Some(
                                ErrorView::IncorrectMarker { marker: name, filepath: tag.path },
                            ),
                        }
                    } else {
                        Resolved { text: concat(regions(file, name)).push('\n'), error: None }
                    }
                },
                None => Resolved { text: without_marker_lines(file), error: None },
            }
        },
    }
}

/// The lookup that belongs to tag `k`: the `k`-th one, or, where there are
/// fewer lookups than tags, an unreadable file at the declared path.
pub open spec fn load_for(tags: Seq<TagView>, loads: Seq<LoadView>, k: int) -> LoadView {
    if k < loads.len() {
        loads[k]
    } else {
        LoadView { path: tags[k].path, content: None }
    }
}

/// What each tag resolves to, in the order of the tags.
pub open spec fn resolutions(tags: Seq<TagView>, loads: Seq<LoadView>) -> Seq<Resolved> {
    Seq::new(tags.len(), |k: int| resolved(tags[k], load_for(tags, loads, k)))
}

/// Where the text before tag `k` starts: at the end of the tag before it, or
/// at the start of the text.
pub open spec fn gap_start(tags: Seq<TagView>, k: int) -> int {
    if k <= 0 {
        0
    } else {
        tags[k - 1].end
    }
}

/// The output up to the place of tag `k`: for each tag before it, the text
/// that stands before the tag and then what the tag resolves to.
pub open spec fn stitched(s: Seq<char>, tags: Seq<TagView>, rs: Seq<Resolved>, k: nat) -> Seq<
    char,
>
    decreases k,
{
    if k == 0 {
        Seq::empty()
    } else {
        stitched(s, tags, rs, (k - 1) as nat) + s.subrange(
            gap_start(tags, k - 1),
            tags[k - 1].start,
        ) + rs[k - 1].text
    }
}

/// The text with every tag replaced by what it resolves to.
pub open spec fn assembled(s: Seq<char>, tags: Seq<TagView>, rs: Seq<Resolved>) -> Seq<char> {
    stitched(s, tags, rs, tags.len()) + s.subrange(gap_start(tags, tags.len() as int), s.len() as int)
}

/// The number of tags that were resolved without an error.
pub open spec fn injected_count(rs: Seq<Resolved>) -> nat
    decreases rs.len(),
{
    if rs.len() == 0 {
        0
    } else {
        injected_count(rs.drop_last()) + if rs.last().error is None {
            1nat
        } else {
            0nat
        }
    }
}

/// The errors of the tags that could not be resolved, in the order of the
/// tags.
pub open spec fn resolver_errors(rs: Seq<Resolved>) -> Seq<ErrorView>
    decreases rs.len(),
{
    if rs.len() == 0 {
        Seq::empty()
    } else {
        resolver_errors(rs.drop_last()) + match rs.last().error {
            Some(e) => seq![e],
            None => Seq::empty(),
        }
    }
}

/// All errors of an injection: those of the tags, and one `IncorrectTag`
/// behind them where the resolved tags and the errors together are not as
/// many as the loose tags.
pub open spec fn all_errors(rs: Seq<Resolved>, loose: nat) -> Seq<ErrorView> {
    if injected_count(rs) + resolver_errors(rs).len() != loose {
        resolver_errors(rs).push(ErrorView::IncorrectTag)
    } else {
        resolver_errors(rs)
    }
}

/// The injection into a text that has unix line endings.
pub open spec fn injection_of(s: Seq<char>, loads: Seq<LoadView>) -> Result<
    Seq<char>,
    InjectErrorView,
> {
    let tags = strict_tags(s);
    let rs = resolutions(tags, loads);
    let errors = all_errors(rs, loose_tag_count(s));
    if errors.len() == 0 {
        Ok(without_marker_lines(assembled(s, tags, rs)))
    } else {
        Err(InjectErrorView { result: Some(assembled(s, tags, rs)), errors })
    }
}

/// The injection into a source text, given the lookup of each strict tag's
/// file in the order of the tags.
///
/// The source text gets unix line endings. Each strict tag is replaced by
/// what it resolves to. Without an error the result is that text without its
/// marker comments; else it is the errors together with that text as it is.
pub open spec fn injection(source: Seq<char>, loads: Seq<LoadView>) -> Result<
    Seq<char>,
    InjectErrorView,
> {
    injection_of(unix_newlines(source), loads)
}

/// The view of what an injection returns.
pub open spec fn outcome_view(r: Result<String, InjectError>) -> Result<
    Seq<char>,
    InjectErrorView,
> {
    match r {
        Ok(text) => Ok(text@),
        Err(e) => Err(e@),
    }
}

/// Whether `load` can be what the two functions answer for a tag that
/// declares the path `declared`: `get_path` was asked for the declared path
/// and gave the resolved one, `read` was asked for the resolved path and gave
/// the content.
pub open spec fn answer<P: Fn(&str) -> String, R: Fn(&str) -> Option<String>>(
    get_path: P,
    read: R,
    declared: Seq<char>,
    load: Load,
) -> bool {
    exists|asked: &str, resolved: &str|
        #![trigger get_path.ensures((asked,), load.path), read.ensures((resolved,), load.content)]
        asked@ == declared && resolved@ == load.path@ && get_path.ensures((asked,), load.path)
            && read.ensures((resolved,), load.content)
}

/// Whether the lookups can be what the two functions answer for the tags,
/// one lookup for each tag.
pub open spec fn answers<P: Fn(&str) -> String, R: Fn(&str) -> Option<String>>(
    get_path: P,
    read: R,
    tags: Seq<TagView>,
    loads: Seq<Load>,
) -> bool {
    &&& loads.len() == tags.len()
    &&& forall|k: int|
        0 <= k < tags.len() ==> answer(get_path, read, tags[k].path, #[trigger] loads[k])
}

/// Whether the lookups can be what `read` answers for the declared paths of
/// the tags, one lookup for each tag.
pub open spec fn read_answers<R: Fn(&str) -> Option<String>>(
    read: R,
    tags: Seq<TagView>,
    loads: Seq<Load>,
) -> bool {
    &&& loads.len() == tags.len()
    &&& forall|k: int|
        0 <= k < tags.len() ==> (#[trigger] loads[k]).path@ == tags[k].path && exists|asked: &str|
            asked@ == tags[k].path && #[trigger] read.ensures((asked,), loads[k].content)
}

/// A whole-file tag for the given path.
pub open spec fn whole_file_tag(path: Seq<char>) -> Seq<char> {
    tag_open() + path + "'"@ + tag_close()
}

/// Each tag is either resolved or gives one error.
pub proof fn lemma_one_outcome_per_tag(rs: Seq<Resolved>)
    ensures
        injected_count(rs) + resolver_errors(rs).len() == rs.len(),
    decreases rs.len(),
{
    if rs.len() > 0 {
        lemma_one_outcome_per_tag(rs.drop_last());
    }
}

/// The resolved tags, the errors of the tags and the `IncorrectTag`, if there
/// is one, are together as many as the loose tags, exactly when at most one
/// loose tag is no strict tag and no strict tag goes uncounted. (Two strict
/// tags on one line count as one loose tag; two tags out of the grammar are
/// one `IncorrectTag`.)
pub proof fn law_count_reconciliation(source: Seq<char>, loads: Seq<LoadView>)
    ensures
        ({
            let s = unix_newlines(source);
            let rs = resolutions(strict_tags(s), loads);
            let loose = loose_tag_count(s);
            let errors = all_errors(rs, loose);
            &&& injected_count(rs) + resolver_errors(rs).len() == strict_tags(s).len()
            &&& errors.len() == resolver_errors(rs).len() || errors.len() == resolver_errors(
                rs,
            ).len() + 1
            &&& (injected_count(rs) + errors.len() == loose) <==> (strict_tags(s).len() <= loose
                <= strict_tags(s).len() + 1)
        }),
{
    let s = unix_newlines(source);
    lemma_one_outcome_per_tag(resolutions(strict_tags(s), loads));
}

/// A whole-file tag for a path without a single quote or a line feed is one
/// strict tag and one loose tag, and spans its text.
pub proof fn lemma_whole_file_tag(path: Seq<char>)
    requires
        forall|i: int| 0 <= i < path.len() ==> path[i] != '\'' && path[i] != '\n',
    ensures
        unix_newlines(whole_file_tag(path)) == whole_file_tag(path),
        strict_tags(whole_file_tag(path)) == seq![
            TagView {
                path: path,
                marker: None,
                start: 0,
                end: whole_file_tag(path).len() as int,
            },
        ],
        loose_tag_count(whole_file_tag(path)) == 1,
{
    reveal_strlit("<load path='");
    reveal_strlit("'");
    reveal_strlit(" />");
    reveal_strlit(" marker='");
    reveal_strlit("<load");
    let s = whole_file_tag(path);
    let n = path.len() as int;
    assert(s.len() == n + 16);
    assert forall|i: int| 0 <= i < s.len() implies s[i] != '\n' by {
        if 12 <= i < 12 + n {
            assert(s[i] == path[i - 12]);
        }
    }
    lemma_unix_newlines_keeps(s);
    // the strict tag
    assert(s.subrange(0, 12) =~= tag_open());
    assert forall|i: int| 12 <= i < 12 + n implies s[i] != '\'' && s[i] != '\n' by {
        assert(s[i] == path[i - 12]);
    }
    lemma_value_len(s, 12, n);
    assert(s.subrange(12 + n + 1, 12 + n + 4) =~= tag_close());
    assert(s.subrange(12, 12 + n) =~= path);
    let t = TagView { path: path, marker: None, start: 0, end: s.len() as int };
    assert(tag_at(s, 0) == Some(t));
    assert(tags_from(s, s.len() as int) =~= Seq::<TagView>::empty());
    assert(strict_tags(s) =~= seq![t]);
    // the loose tag
    lemma_line_len(s, s.len() as int);
    assert(s.take(s.len() as int) =~= s);
    assert(lines(after_line(s)) =~= Seq::<Seq<char>>::empty());
    assert(lines(s) =~= seq![s]);
    assert(s.subrange(0, 5) =~= loose_open());
    assert(occurs_at(s, loose_open(), 0) && s[s.len() - 1] == '>');
    assert(has_loose_tag(s));
    assert(seq![s].drop_last() =~= Seq::<Seq<char>>::empty());
    assert(count_loose(seq![s].drop_last()) == 0);
    assert(count_loose(seq![s]) == 1);
}

/// A whole-file tag for a file without marker comments gives the file's
/// content, with unix line endings and otherwise unchanged.
pub proof fn law_whole_file_round_trip(path: Seq<char>, resolved_path: Seq<char>, content: Seq<char>)
    requires
        forall|i: int| 0 <= i < path.len() ==> path[i] != '\'' && path[i] != '\n',
        forall|k: int|
            0 <= k < lines(unix_newlines(content)).len() ==> !is_marker_line(
                #[trigger] lines(unix_newlines(content))[k],
            ),
    ensures
        injection(
            whole_file_tag(path),
            seq![LoadView { path: resolved_path, content: Some(content) }],
        ) == Ok::<Seq<char>, InjectErrorView>(unix_newlines(content)),
{
    let s = whole_file_tag(path);
    let file = unix_newlines(content);
    let loads = seq![LoadView { path: resolved_path, content: Some(content) }];
    lemma_whole_file_tag(path);
    lemma_without_marker_lines_keeps(file);
    let tags = strict_tags(s);
    let rs = resolutions(tags, loads);
    assert(rs[0] == Resolved { text: file, error: None });
    assert(stitched(s, tags, rs, 0) =~= Seq::<char>::empty());
    assert(stitched(s, tags, rs, 1) =~= file);
    assert(assembled(s, tags, rs) =~= file);
    lemma_one_outcome_per_tag(rs);
    assert(rs.drop_last() =~= Seq::<Resolved>::empty());
    assert(resolver_errors(rs.drop_last()) =~= Seq::<ErrorView>::empty());
    assert(resolver_errors(rs) =~= Seq::<ErrorView>::empty());
}

/// The texts put together in order.
pub fn concat_all(parts: &Vec<Vec<char>>) -> (out: Vec<char>)
    ensures
        out@ == concat(views(parts@)),
{
    let ghost vs = views(parts@);
    let mut out: Vec<char> = Vec::new();
    let mut k: usize = 0;
    proof {
        assert(vs.take(0) =~= Seq::<Seq<char>>::empty());
    }
    while k < parts.len()
        invariant
            k <= parts.len(),
            vs == views(parts@),
            out@ == concat(vs.take(k as int)),
        decreases parts.len() - k,
    {
        proof {
            assert(vs.take(k + 1).drop_last() =~= vs.take(k as int));
            assert(vs.take(k + 1).last() == parts@[k as int]@);
        }
        append(&mut out, &parts[k]);
        k += 1;
    }
    proof {
        assert(vs.take(k as int) =~= vs);
    }
    out
}

/// Resolves one tag, given the lookup of its file.
///
/// A file that could not be read gives `IncorrectPath` with the resolved
/// path. A marker without a region in the file gives `IncorrectMarker` with
/// the marker and the declared path. In both cases the text is empty. Else
/// the text is the regions of the marker, put together and followed by one
/// line feed, or, for a tag without a marker, the whole file without its
/// marker comments. The file gets unix line endings first.
pub fn resolve(tag: &Tag, load: &Load) -> (r: Resolution)
    ensures
        r@ == resolved(tag@, load@),
{
    match &load.content {
        None => Resolution {
            text: String::new(),
            error: Some(ErrorType::IncorrectPath(load.path.clone())),
        },
        Some(content) => {
            let file = to_unix_newlines(&chars_of(content.as_str()));
            match &tag.marker {
                Some(name) => {
                    let ls = split_lines(&file);
                    let found = extract_regions(&ls, &chars_of(name.as_str()));
                    if found.len() == 0 {
                        Resolution {
                            text: String::new(),
                            error: Some(
                                ErrorType::IncorrectMarker(
                                    IncorrectMarker {
                                        marker: name.clone(),
                                        filepath: tag.path.clone(),
                                    },
                                ),
                            ),
                        }
                    } else {
                        let mut text = concat_all(&found);
                        text.push('\n');
                        Resolution { text: string_of(&text), error: None }
                    }
                },
                None => Resolution { text: string_of(&drop_marker_lines(&file)), error: None },
            }
        },
    }
}

/// Replaces the tags of a text that has unix line endings.
pub fn assemble(s: &Vec<char>, tags: &Vec<Tag>, loads: &Vec<Load>) -> (r: Result<
    String,
    InjectError,
>)
    requires
        tag_views(tags@) == strict_tags(s@),
    ensures
        outcome_view(r) == injection_of(s@, load_views(loads@)),
{
    let ghost tvs = tag_views(tags@);
    let ghost lvs = load_views(loads@);
    let ghost rs = resolutions(tvs, lvs);
    let mut out: Vec<char> = Vec::new();
    let mut errors: Vec<ErrorType> = Vec::new();
    let mut injected: usize = 0;
    let mut prev: usize = 0;
    let mut k: usize = 0;
    proof {
        lemma_tags_in_order(s@, 0);
        assert(rs.take(0) =~= Seq::<Resolved>::empty());
    }
    while k < tags.len()
        invariant
            k <= tags.len(),
            tvs == tag_views(tags@),
            tvs == strict_tags(s@),
            lvs == load_views(loads@),
            rs == resolutions(tvs, lvs),
            in_order(s@, tvs, 0),
            prev == gap_start(tvs, k as int),
            prev <= s.len(),
            out@ == stitched(s@, tvs, rs, k as nat),
            error_views(errors@) == resolver_errors(rs.take(k as int)),
            injected == injected_count(rs.take(k as int)),
            injected + errors.len() == k,
        decreases tags.len() - k,
    {
        let tag = &tags[k];
        let ghost before = out@;
        let ghost errors_before = error_views(errors@);
        proof {
            assert(tvs[k as int] == tag@);
            if k > 0 {
                assert(tvs[k - 1].end <= tvs[k as int].start);
            }
            assert(rs.take(k + 1).drop_last() =~= rs.take(k as int));
            assert(rs.take(k + 1).last() == rs[k as int]);
        }
        let gap = slice_of(s, prev, tag.start);
        append(&mut out, &gap);
        let res = if k < loads.len() {
            proof {
                assert(lvs[k as int] == loads@[k as int]@);
            }
            resolve(tag, &loads[k])
        } else {
            let missing = Load { path: tag.path.clone(), content: None };
            resolve(tag, &missing)
        };
        assert(res@ == rs[k as int]);
        let text = chars_of(res.text.as_str());
        append(&mut out, &text);
        match res.error {
            Some(e) => {
                errors.push(e);
                proof {
                    assert(error_views(errors@) =~= errors_before.push(e@));
                    assert(errors_before + seq![e@] =~= errors_before.push(e@));
                }
            },
            None => {
                injected += 1;
                proof {
                    assert(errors_before + Seq::<ErrorView>::empty() =~= errors_before);
                }
            },
        }
        prev = tag.end;
        k += 1;
    }
    let tail = slice_of(s, prev, s.len());
    append(&mut out, &tail);
    let ls = split_lines(s);
    let loose = count_loose_lines(&ls);
    proof {
        assert(rs.take(k as int) =~= rs);
    }
    let ghost tag_errors = error_views(errors@);
    if k != loose {
        errors.push(ErrorType::IncorrectTag);
        proof {
            assert(error_views(errors@) =~= tag_errors.push(ErrorView::IncorrectTag));
        }
    }
    if errors.len() == 0 {
        Ok(string_of(&drop_marker_lines(&out)))
    } else {
        Err(InjectError { result: Some(string_of(&out)), errors })
    }
}

/// Injects into a source text, given the lookup of each strict tag's file.
///
/// `loads` holds one lookup for each strict tag of the source text, in the
/// order of the tags; further ones are not looked at, and a tag without one
/// counts as a file that could not be read. The source text gets unix line
/// endings; then each strict tag is replaced by what it resolves to, or by
/// nothing where it cannot be resolved. Where the resolved tags and the
/// errors together are not as many as the loose tags, one `IncorrectTag`
/// follows the errors. Without an error the result is the text with the
/// marker comments taken out; with one it is the errors, in order, and the
/// text as far as it was built.
pub fn inject_loaded(source_text: &str, loads: &Vec<Load>) -> (r: Result<String, InjectError>)
    ensures
        outcome_view(r) == injection(source_text@, load_views(loads@)),
{
    let s = to_unix_newlines(&chars_of(source_text));
    let tags = scan_tags(&s);
    assemble(&s, &tags, loads)
}

/// Injects into a source text. For each strict tag, in order, `get_path` is
/// asked for the path to use in place of the declared one, and `read` for the
/// content of the file at that path, `None` standing for a file that cannot
/// be read.
///
/// The result is that of `inject_loaded` on what the two functions answered.
pub fn inject_with_path<P, R>(source_text: &str, get_path: P, read: R) -> (r: Result<
    String,
    InjectError,
>) where P: Fn(&str) -> String, R: Fn(&str) -> Option<String>
    requires
        forall|declared: &str| get_path.requires((declared,)),
        forall|resolved: &str| read.requires((resolved,)),
    ensures
        exists|loads: Seq<Load>|
            #![trigger load_views(loads)]
            answers(get_path, read, strict_tags(unix_newlines(source_text@)), loads)
                && outcome_view(r) == injection(source_text@, load_views(loads)),
{
    let s = to_unix_newlines(&chars_of(source_text));
    let tags = scan_tags(&s);
    let ghost tvs = tag_views(tags@);
    let mut loads: Vec<Load> = Vec::new();
    let mut k: usize = 0;
    while k < tags.len()
        invariant
            k <= tags.len(),
            loads.len() == k,
            tvs == tag_views(tags@),
            forall|declared: &str| get_path.requires((declared,)),
            forall|resolved: &str| read.requires((resolved,)),
            forall|j: int| 0 <= j < k ==> answer(get_path, read, tvs[j].path, #[trigger] loads@[j]),
        decreases tags.len() - k,
    {
        let asked = tags[k].path.as_str();
        let path = get_path(asked);
        let at = path.as_str();
        let ghost resolved: &str = at;
        let content = read(at);
        let load = Load { path, content };
        proof {
            assert(tvs[k as int].path == asked@);
            assert(get_path.ensures((asked,), load.path) && read.ensures(
                (resolved,),
                load.content,
            ));
            assert(answer(get_path, read, tvs[k as int].path, load));
        }
        loads.push(load);
        k += 1;
    }
    let r = assemble(&s, &tags, &loads);
    proof {
        assert(answers(get_path, read, strict_tags(unix_newlines(source_text@)), loads@));
    }
    r
}

/// Injects into a source text, with every path used as declared. For each
/// strict tag, in order, `read` is asked for the content of the file at the
/// declared path, `None` standing for a file that cannot be read.
///
/// The result is that of `inject_loaded` on what `read` answered.
pub fn inject<R>(source_text: &str, read: R) -> (r: Result<String, InjectError>) where
    R: Fn(&str) -> Option<String>,

    requires
        forall|declared: &str| read.requires((declared,)),
    ensures
        exists|loads: Seq<Load>|
            #![trigger load_views(loads)]
            read_answers(read, strict_tags(unix_newlines(source_text@)), loads) && outcome_view(r)
                == injection(source_text@, load_views(loads)),
{
    let as_declared = |declared: &str| -> (resolved: String)
        ensures
            resolved@ == declared@,
        { declared.to_owned() };
    let r = inject_with_path(source_text, as_declared, read);
    proof {
        let tags = strict_tags(unix_newlines(source_text@));
        let loads = choose|loads: Seq<Load>|
            #![trigger load_views(loads)]
            answers(as_declared, read, tags, loads) && outcome_view(r) == injection(
                source_text@,
                load_views(loads),
            );
        assert forall|k: int| 0 <= k < tags.len() implies (#[trigger] loads[k]).path@
            == tags[k].path && exists|asked: &str|
            asked@ == tags[k].path && #[trigger] read.ensures((asked,), loads[k].content) by {
            assert(answer(as_declared, read, tags[k].path, loads[k]));
            let (asked, resolved) = choose|asked: &str, resolved: &str|
                #![trigger as_declared.ensures((asked,), loads[k].path), read.ensures((resolved,), loads[k].content)]
                asked@ == tags[k].path && resolved@ == loads[k].path@ && as_declared.ensures(
                    (asked,),
                    loads[k].path,
                ) && read.ensures((resolved,), loads[k].content);
            assert(resolved@ == tags[k].path && read.ensures((resolved,), loads[k].content));
        }
        assert(read_answers(read, tags, loads));
    }
    r
}

} // verus!
