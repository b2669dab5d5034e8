use strinject::{inject, remove_indent, ErrorType};

/// The file that the tags below load.
fn to_inject1() -> String {
    let lines = [
        "incorrect data1 1",
        "// DOCUSAURUS: ToInject1_1 start",
        "correct data1 1",
        "// DOCUSAURUS: ToInject1_1 stop",
        "incorrect data1 2",
        "// DOCUSAURUS: ToInject1_2 start",
        "correct data1 2",
        "// DOCUSAURUS: ToInject1_2 stop",
        "incorrect data1 3",
        "",
        "",
        "// Short marker to verify it's not taking the longer ones.",
        "// DOCUSAURUS: ToInject start",
        "correct data short",
        "// DOCUSAURUS: ToInject stop",
        "",
        "// DOCUSAURUS: ToInject1_nest start",
        "correct data nest1",
        "// DOCUSAURUS: ToInject1_nested start",
        "correct data nested",
        "// DOCUSAURUS: ToInject1_nested stop",
        "correct data nest2",
        "// DOCUSAURUS: ToInject1_nest stop",
        "",
        "some outside data",
        "    // DOCUSAURUS: ToInject1_indent start",
        "    correct data not indented",
        "        empty line without space next",
        "            empty line without space next",
        "",
        "    correct data not indented again",
        "    // DOCUSAURUS: ToInject1_indent stop",
        "",
        "outside data again",
    ];
    let mut text = String::new();
    for line in lines {
        text.push_str(line);
        text.push('\n');
    }
    text
}

/// A directory that holds `tests/to_inject1.txt` and nothing else.
fn read(path: &str) -> Option<String> {
    if path == "tests/to_inject1.txt" {
        Some(to_inject1())
    } else {
        None
    }
}

#[test]
fn simple_injection() {
    let result = inject(
        "<load path='tests/to_inject1.txt' marker='ToInject1_1' />",
        read,
    );

    assert_eq!(
        result.expect("This should not error out"),
        "correct data1 1
"
    );
}

#[test]
fn marker_short() {
    let result = inject(
        "<load path='tests/to_inject1.txt' marker='ToInject' />",
        read,
    );

    assert_eq!(
        result.expect("This should not error out"),
        "correct data short
"
    );
}

#[test]
fn nest_removal() {
    let result = inject(
        "<load path='tests/to_inject1.txt' marker='ToInject1_nest' />",
        read,
    );

    assert_eq!(
        result.expect("This should not error out"),
        "correct data nest1
correct data nested
correct data nest2
"
    );
}

#[test]
fn whole_file() {
    let result = inject("<load path='tests/to_inject1.txt' />", read);

    assert_eq!(
        result.expect("This should not error out"),
        "incorrect data1 1
correct data1 1
incorrect data1 2
correct data1 2
incorrect data1 3


// Short marker to verify it's not taking the longer ones.
correct data short

correct data nest1
correct data nested
correct data nest2

some outside data
    correct data not indented
        empty line without space next
            empty line without space next

    correct data not indented again

outside data again
"
    );
}

#[test]
fn indent_removal_simple() {
    let result = remove_indent(
        "    correct data indented 1
        correct data indented more
    correct data indented 2
",
    );

    assert_eq!(
        result.expect("This should not error out"),
        "correct data indented 1
    correct data indented more
correct data indented 2
"
    );
}

#[test]
fn indent_removal() {
    let result = inject(
        "<load path='tests/to_inject1.txt' marker='ToInject1_indent' />",
        read,
    );

    assert_eq!(
        result.expect("This should not error out"),
        "correct data not indented
    empty line without space next
        empty line without space next

correct data not indented again
"
    );
}

#[test]
fn simple_tag_error() {
    let result = inject(
        "<load path='tests/to_inject1.txt' marker=\"ToInject1_1\" />",
        read,
    );

    assert!(matches!(
        result.expect_err("This should error out").errors[0],
        ErrorType::IncorrectTag
    ));
}

#[test]
fn simple_path_error() {
    let result = inject(
        "<load path='this_path_does_not_exist_obviously' marker='ToInject1_wrong' />",
        read,
    );

    assert_eq!(
        result.expect_err("This should error out").errors[0],
        ErrorType::IncorrectPath("this_path_does_not_exist_obviously".to_string())
    );
}

#[test]
fn simple_marker_error() {
    let result = inject(
        "<load path='tests/to_inject1.txt' marker='ToInject1_wrong' />",
        read,
    );

    match &result.expect_err("This should error out").errors[0] {
        ErrorType::IncorrectMarker(_) => {}
        invalid_value => {
            panic!("unexpected error type: {:?}", invalid_value);
        }
    }
}
