use std::cell::RefCell;
use strinject::{
    count_loose_tags, find_tags, inject, inject_loaded, inject_with_path, resolve, ErrorType,
    IncorrectMarker, Load, Resolution, Tag,
};

const FILE: &str = "intro\n// DOCUSAURUS: A start\n  data\n// DOCUSAURUS: A stop\noutro\n";

fn read(path: &str) -> Option<String> {
    match path {
        "f" => Some(FILE.to_string()),
        "plain" => Some("fn main() {\n    body();\n}\n".to_string()),
        "x" => Some("x\n".to_string()),
        _ => None,
    }
}

fn marker_error(marker: &str, filepath: &str) -> ErrorType {
    ErrorType::IncorrectMarker(IncorrectMarker {
        marker: marker.to_string(),
        filepath: filepath.to_string(),
    })
}

fn load(path: &str, content: Option<&str>) -> Load {
    Load {
        path: path.to_string(),
        content: content.map(|c| c.to_string()),
    }
}

#[test]
fn the_text_around_a_tag_stays() {
    let result = inject("before\n<load path='f' marker='A' />\nafter\n", read);
    assert_eq!(result.unwrap(), "before\ndata\nafter\n");
    let result = inject("a <load path='x' /> b", read);
    assert_eq!(result.unwrap(), "a x\n b");
}

#[test]
fn a_text_without_tags_comes_back() {
    assert_eq!(inject("plain text", read).unwrap(), "plain text");
    assert_eq!(inject("", read).unwrap(), "");
    assert_eq!(inject("a\r\nb", read).unwrap(), "a\nb");
}

#[test]
fn a_failed_injection_carries_the_text_built_so_far() {
    let error = inject("x <load path='missing' marker='A' /> y", read).unwrap_err();
    assert_eq!(
        error.errors,
        vec![ErrorType::IncorrectPath("missing".to_string())]
    );
    assert_eq!(error.result, Some("x  y".to_string()));
}

#[test]
fn errors_come_in_the_order_of_the_tags_and_the_tag_error_last() {
    let source = "<load path='missing' />\n<load path='f' marker='Nope' />\n\
                  <load path=\"f\" />\n<load path='f' marker='A' />\n";
    let error = inject(source, read).unwrap_err();
    assert_eq!(
        error.errors,
        vec![
            ErrorType::IncorrectPath("missing".to_string()),
            marker_error("Nope", "f"),
            ErrorType::IncorrectTag,
        ]
    );
    assert_eq!(error.result, Some("<load path=\"f\" />\ndata\n".to_string()));
}

#[test]
fn every_tag_is_tried_after_an_error() {
    let source = "<load path='missing' />\n<load path='x' />\n";
    let error = inject(source, read).unwrap_err();
    assert_eq!(error.errors.len(), 1);
    assert_eq!(error.result, Some("x\n".to_string()));
}

#[test]
fn paths_are_remapped_before_the_file_is_read() {
    let under_base = |declared: &str| format!("base/{}", declared);
    let read_base = |path: &str| match path {
        "base/f" => Some(FILE.to_string()),
        _ => None,
    };
    let result = inject_with_path("<load path='f' marker='A' />", under_base, read_base);
    assert_eq!(result.unwrap(), "data\n");
    let error = inject_with_path("<load path='g' />", under_base, read_base).unwrap_err();
    assert_eq!(
        error.errors,
        vec![ErrorType::IncorrectPath("base/g".to_string())]
    );
    let error =
        inject_with_path("<load path='f' marker='Nope' />", under_base, read_base).unwrap_err();
    assert_eq!(error.errors, vec![marker_error("Nope", "f")]);
}

#[test]
fn many_malformed_tags_are_one_error() {
    let source = "<load a>\n<load path=\"b\" />\n";
    let error = inject(source, read).unwrap_err();
    assert_eq!(error.errors, vec![ErrorType::IncorrectTag]);
    assert_eq!(error.result, Some(source.to_string()));
}

#[test]
fn two_tags_on_one_line_count_as_one_loose_tag() {
    let error = inject("<load path='x' /><load path='x' />", read).unwrap_err();
    assert_eq!(error.errors, vec![ErrorType::IncorrectTag]);
    assert_eq!(error.result, Some("x\nx\n".to_string()));
}

#[test]
fn a_whole_file_without_marker_comments_comes_unchanged() {
    assert_eq!(
        inject("<load path='plain' />", read).unwrap(),
        "fn main() {\n    body();\n}\n"
    );
    let no_final_line_feed = |_: &str| Some("abc".to_string());
    assert_eq!(inject("<load path='p' />", no_final_line_feed).unwrap(), "abc");
    let windows = |_: &str| Some("a\r\n  b\r\n".to_string());
    assert_eq!(inject("<load path='p' />", windows).unwrap(), "a\n  b\n");
    let empty = |_: &str| Some(String::new());
    assert_eq!(inject("<load path='p' />", empty).unwrap(), "");
}

#[test]
fn a_whole_file_loses_its_marker_comments() {
    assert_eq!(
        inject("<load path='f' />", read).unwrap(),
        "intro\n  data\noutro\n"
    );
}

#[test]
fn marker_comments_of_the_source_go_on_success_only() {
    let source = "// DOCUSAURUS: note\nhello\n<load path='x' />";
    assert_eq!(inject(source, read).unwrap(), "hello\nx\n");
    let source = "// DOCUSAURUS: note\n<load path='missing' />";
    let error = inject(source, read).unwrap_err();
    assert_eq!(error.result, Some("// DOCUSAURUS: note\n".to_string()));
}

#[test]
fn an_excerpt_is_not_scanned_for_tags() {
    let read_once = |path: &str| match path {
        "outer" => Some("<load path='inner' />\n".to_string()),
        other => panic!("asked for {}", other),
    };
    assert_eq!(
        inject("<load path='outer' />", read_once).unwrap(),
        "<load path='inner' />\n"
    );
}

#[test]
fn each_tag_is_looked_up_once_and_in_order() {
    let asked = RefCell::new(Vec::new());
    let recording = |path: &str| {
        asked.borrow_mut().push(path.to_string());
        Some(String::new())
    };
    let source = "<load path='b' />\n<load path=\"no\" />\n<load path='a' />\n<load path='b' />";
    let _ = inject(source, recording);
    assert_eq!(*asked.borrow(), vec!["b", "a", "b"]);
}

#[test]
fn regions_of_one_marker_are_put_together() {
    let twice = |_: &str| {
        Some(
            "// DOCUSAURUS: A start\nr1\n// DOCUSAURUS: A stop\n\
             // DOCUSAURUS: A start\nr2\n// DOCUSAURUS: A stop\n"
                .to_string(),
        )
    };
    assert_eq!(
        inject("<load path='p' marker='A' />", twice).unwrap(),
        "r1r2\n"
    );
}

#[test]
fn an_empty_region_is_no_error() {
    let empty_region =
        |_: &str| Some("// DOCUSAURUS: A start\n// DOCUSAURUS: A stop\n".to_string());
    assert_eq!(
        inject("a\n<load path='p' marker='A' />\nb", empty_region).unwrap(),
        "a\n\nb"
    );
}

#[test]
fn a_missing_marker_leaves_nothing_in_the_place_of_its_tag() {
    let error = inject("a\n<load path='f' marker='Nope' />\nb", read).unwrap_err();
    assert_eq!(error.errors, vec![marker_error("Nope", "f")]);
    assert_eq!(error.result, Some("a\nb".to_string()));
}

#[test]
fn windows_line_endings_of_the_source_are_normalized_first() {
    let result = inject("a\r\n<load path='x' />\r\nb", read);
    assert_eq!(result.unwrap(), "a\nx\nb");
}

#[test]
fn lookups_are_matched_to_tags_by_position() {
    let source = "<load path='a' />\n<load path='b' />\n";
    let loads = vec![load("a", Some("A\n")), load("b", Some("B\n"))];
    assert_eq!(inject_loaded(source, &loads).unwrap(), "A\nB\n");
    let loads = vec![load("elsewhere/a", None), load("b", Some("B\n"))];
    let error = inject_loaded(source, &loads).unwrap_err();
    assert_eq!(
        error.errors,
        vec![ErrorType::IncorrectPath("elsewhere/a".to_string())]
    );
    assert_eq!(error.result, Some("B\n".to_string()));
}

#[test]
fn a_tag_without_a_lookup_counts_as_unreadable() {
    let source = "<load path='a' />\n<load path='b' />\n";
    let error = inject_loaded(source, &vec![load("a", Some("A\n"))]).unwrap_err();
    assert_eq!(error.errors, vec![ErrorType::IncorrectPath("b".to_string())]);
    assert_eq!(error.result, Some("A\n".to_string()));
    let more = vec![load("a", Some("A\n")), load("b", Some("B\n")), load("c", None)];
    assert_eq!(inject_loaded(source, &more).unwrap(), "A\nB\n");
}

#[test]
fn one_tag_resolves_to_a_text_or_an_error() {
    let with_marker = Tag {
        path: "p".to_string(),
        marker: Some("A".to_string()),
        start: 0,
        end: 0,
    };
    let whole = Tag {
        path: "p".to_string(),
        marker: None,
        start: 0,
        end: 0,
    };
    assert_eq!(
        resolve(&with_marker, &load("r", Some(FILE))),
        Resolution {
            text: "data\n".to_string(),
            error: None
        }
    );
    assert_eq!(
        resolve(&whole, &load("r", Some(FILE))),
        Resolution {
            text: "intro\n  data\noutro\n".to_string(),
            error: None
        }
    );
    assert_eq!(
        resolve(&with_marker, &load("r", None)),
        Resolution {
            text: String::new(),
            error: Some(ErrorType::IncorrectPath("r".to_string()))
        }
    );
    assert_eq!(
        resolve(&with_marker, &load("r", Some("no region\n"))),
        Resolution {
            text: String::new(),
            error: Some(marker_error("A", "p"))
        }
    );
}

#[test]
fn resolved_tags_and_errors_add_up_to_the_loose_tags() {
    let sources = [
        "",
        "no tag at all",
        "<load path='x' />",
        "<load path='missing' />\n<load path='f' marker='A' />\n",
        "<load path='f' marker='Nope' />\n<load path=\"f\" />\n",
        "<load path='x' />\n<load >\n",
    ];
    for source in sources {
        let strict = find_tags(source).len();
        let loose = count_loose_tags(source);
        let (errors, ok) = match inject(source, read) {
            Ok(_) => (Vec::new(), true),
            Err(e) => (e.errors, false),
        };
        let tag_errors = errors
            .iter()
            .filter(|e| matches!(e, ErrorType::IncorrectTag))
            .count();
        let injected = strict - (errors.len() - tag_errors);
        assert!(tag_errors <= 1);
        assert_eq!(tag_errors == 1, strict != loose, "for {:?}", source);
        assert_eq!(injected + errors.len(), loose, "for {:?}", source);
        assert_eq!(ok, errors.is_empty());
    }
}

#[test]
fn three_malformed_tags_do_not_add_up() {
    let source = "<load a>\n<load b>\n<load c>\n";
    let error = inject(source, read).unwrap_err();
    assert_eq!(count_loose_tags(source), 3);
    assert_eq!(error.errors, vec![ErrorType::IncorrectTag]);
}
