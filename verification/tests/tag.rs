use strinject::{count_loose_tags, find_tags};

#[test]
fn both_forms_of_a_tag_are_found() {
    let tags = find_tags("a <load path='p' marker='m' />\nb<load path='q' />");
    assert_eq!(tags.len(), 2);
    assert_eq!(tags[0].path, "p");
    assert_eq!(tags[0].marker, Some("m".to_string()));
    assert_eq!((tags[0].start, tags[0].end), (2, 31));
    assert_eq!(tags[1].path, "q");
    assert_eq!(tags[1].marker, None);
    assert_eq!((tags[1].start, tags[1].end), (32, 49));
}

#[test]
fn a_line_feed_behind_a_tag_belongs_to_it() {
    let tags = find_tags("<load path='q' />\n\nrest");
    assert_eq!(tags.len(), 1);
    assert_eq!((tags[0].start, tags[0].end), (0, 18));
    let tags = find_tags("<load path='q' /> \n");
    assert_eq!((tags[0].start, tags[0].end), (0, 17));
}

#[test]
fn positions_count_characters() {
    let tags = find_tags("\u{e9}\u{e9}<load path='\u{fc}' />");
    assert_eq!(tags.len(), 1);
    assert_eq!(tags[0].path, "\u{fc}");
    assert_eq!((tags[0].start, tags[0].end), (2, 19));
}

#[test]
fn values_may_be_empty() {
    let tags = find_tags("<load path='' marker='' />");
    assert_eq!(tags.len(), 1);
    assert_eq!(tags[0].path, "");
    assert_eq!(tags[0].marker, Some(String::new()));
}

#[test]
fn double_quotes_are_out_of_the_grammar() {
    assert_eq!(find_tags("<load path=\"p\" />").len(), 0);
    assert_eq!(find_tags("<load path='p' marker=\"m\" />").len(), 0);
    assert_eq!(count_loose_tags("<load path='p' marker=\"m\" />"), 1);
}

#[test]
fn the_grammar_is_taken_letter_for_letter() {
    for text in [
        "<load path='p'/>",
        "<load path='p' >",
        "<load  path='p' />",
        "<load marker='m' path='p' />",
        "<load path='p'  marker='m' />",
        "<load path='p' marker='m'/>",
        "<load path='p' marker='m' extra='x' />",
        "<load marker='m' />",
        "<load />",
        "<load path='p' /",
        "<LOAD path='p' />",
    ] {
        assert_eq!(find_tags(text).len(), 0, "for {:?}", text);
    }
}

#[test]
fn a_value_ends_at_its_line() {
    assert_eq!(find_tags("<load path='a\nb' />").len(), 0);
    assert_eq!(find_tags("<load path='a' marker='b\n' />").len(), 0);
}

#[test]
fn tags_on_one_line_are_found_one_after_the_other() {
    let tags = find_tags("<load path='a' /><load path='b' marker='c' />");
    assert_eq!(tags.len(), 2);
    assert_eq!((tags[0].start, tags[0].end), (0, 17));
    assert_eq!((tags[1].start, tags[1].end), (17, 45));
    assert_eq!(tags[1].marker, Some("c".to_string()));
}

#[test]
fn a_tag_may_start_inside_what_looked_like_one() {
    let tags = find_tags("<load path='<load path='x' />");
    assert_eq!(tags.len(), 1);
    assert_eq!(tags[0].path, "x");
    assert_eq!(tags[0].start, 12);
}

#[test]
fn loose_tags_are_counted_by_line() {
    assert_eq!(count_loose_tags(""), 0);
    assert_eq!(count_loose_tags("no tag"), 0);
    assert_eq!(count_loose_tags("<load>"), 1);
    assert_eq!(count_loose_tags("x<loadx> y"), 1);
    assert_eq!(count_loose_tags("<load a> <load b>"), 1);
    assert_eq!(count_loose_tags("<load a>\n<load b>\n"), 2);
    assert_eq!(count_loose_tags("<load a>\n\n<load b"), 1);
}

#[test]
fn a_loose_tag_closes_on_its_own_line_behind_its_start() {
    assert_eq!(count_loose_tags("<load"), 0);
    assert_eq!(count_loose_tags("<load\n>"), 0);
    assert_eq!(count_loose_tags("> <load"), 0);
    assert_eq!(count_loose_tags("<loa>d>"), 0);
    assert_eq!(count_loose_tags("> <load <load>"), 1);
}
