use regex::Regex;
use strinject::text::{
    chars_of, find, is_whitespace_char, split_bare_lines, split_lines, string_of,
    to_unix_newlines, trimmed_len,
};
use strinject::{count_loose_tags, extract, find_tags, normalize, strip_marker_lines};

fn texts() -> Vec<String> {
    let pieces = [
        "",
        "\n",
        "plain",
        "<load>",
        "<load path='a' />",
        "<load path='a' marker='b' />\n",
        "x <load path='a' marker='b' /> y <load path='c' />\nz",
        "<load path=\"a\" />",
        "<load path='a' marker=\"b\" />",
        "<load path='a'/>",
        "<load path='a' marker='b' extra />",
        "<load path='' marker='' />",
        "<load path='a\nb' />",
        "<load path='<load path='x' />' />",
        "<load\n>",
        "> <load",
        "<load a> <load b>\n<load c",
        "<load path='\u{e9}t\u{e9}' marker='\u{fc}' />\n\u{e9}",
        "// DOCUSAURUS: A start\n  one\n    two\n// DOCUSAURUS: A stop\n",
        "a\n  // DOCUSAURUS: A start\n\n  one\n   \n  // DOCUSAURUS: A stop\nb",
        "// DOCUSAURUS: A start\nx\n// DOCUSAURUS: A stop // DOCUSAURUS: A start\ny\n// DOCUSAURUS: A stop",
        "// DOCUSAURUS: A start // DOCUSAURUS: A stop\nx\n// DOCUSAURUS: A stop\n",
        "// DOCUSAURUS: AA start\nx\n// DOCUSAURUS: AA stop\n",
        "// DOCUSAURUS: A start\nx\n// DOCUSAURUS: B stop\ny\n// DOCUSAURUS: A stop\nz\n// DOCUSAURUS: A stop",
        "DOCUSAURUS:",
        "a\nDOCUSAURUS: b\n\nc DOCUSAURUS:\nd",
        "a\r\nb\r\r\nc\rd\n\r",
        " \t a \u{a0}\u{3000}\n\n",
    ];
    let mut all: Vec<String> = pieces.iter().map(|p| p.to_string()).collect();
    for a in pieces {
        for b in ["<load path='a' />", "\n// DOCUSAURUS: A stop\n", "> x"] {
            all.push(format!("{}{}", a, b));
            all.push(format!("{}{}", b, a));
        }
    }
    all
}

fn char_index(text: &str, byte: usize) -> usize {
    text[..byte].chars().count()
}

#[test]
fn loose_tags_are_the_matches_of_the_loose_pattern() {
    let pattern = Regex::new(r"<load.*>").unwrap();
    for text in texts() {
        assert_eq!(
            count_loose_tags(&text),
            pattern.find_iter(&text).count(),
            "for {:?}",
            text
        );
    }
}

#[test]
fn strict_tags_are_the_matches_of_the_strict_pattern() {
    let pattern = Regex::new(r"<load path='([^'\n]*)'(?: marker='([^'\n]*)')? />\n?").unwrap();
    for text in texts() {
        let tags = find_tags(&text);
        let found: Vec<_> = pattern.captures_iter(&text).collect();
        assert_eq!(tags.len(), found.len(), "for {:?}", text);
        for (tag, caps) in tags.iter().zip(found.iter()) {
            let whole = caps.get(0).unwrap();
            assert_eq!(tag.start, char_index(&text, whole.start()));
            assert_eq!(tag.end, char_index(&text, whole.end()));
            assert_eq!(tag.path, caps.get(1).unwrap().as_str());
            assert_eq!(
                tag.marker,
                caps.get(2).map(|m| m.as_str().to_string()),
                "for {:?}",
                text
            );
        }
    }
}

#[test]
fn marker_comments_are_the_matches_of_the_line_pattern() {
    let pattern = Regex::new(r"[^\n]*DOCUSAURUS:[^\n]*\n?").unwrap();
    for text in texts() {
        assert_eq!(
            strip_marker_lines(&text),
            pattern.replace_all(&text, "").to_string(),
            "for {:?}",
            text
        );
    }
}

#[test]
fn regions_are_the_matches_of_the_region_pattern() {
    for name in ["A", "AA", "B", "", "A start"] {
        let start = regex::escape(&format!("DOCUSAURUS: {} start", name));
        let stop = regex::escape(&format!("DOCUSAURUS: {} stop", name));
        let pattern = Regex::new(&format!(
            r"[^\n]*{}[^\n]*\n((?:[^\n]*\n)*?)[^\n]*{}[^\n]*",
            start, stop
        ))
        .unwrap();
        for text in texts() {
            let expected: Vec<String> = pattern
                .captures_iter(&text)
                .map(|caps| normalize(caps.get(1).unwrap().as_str()).trim_end().to_string())
                .collect();
            assert_eq!(extract(&text, name), expected, "for {:?} in {:?}", name, text);
        }
    }
}

#[test]
fn white_space_is_what_the_standard_library_calls_white_space() {
    for code in 0..=0x10FFFFu32 {
        if let Some(c) = char::from_u32(code) {
            assert_eq!(is_whitespace_char(c), c.is_whitespace(), "for {:?}", c);
        }
    }
}

#[test]
fn unix_line_endings_are_one_replacement_pass() {
    for text in texts() {
        let out = string_of(&to_unix_newlines(&chars_of(&text)));
        assert_eq!(out, text.replace("\r\n", "\n"), "for {:?}", text);
    }
}

#[test]
fn lines_are_split_at_line_feeds() {
    for text in texts() {
        let ours: Vec<String> = split_lines(&chars_of(&text)).iter().map(string_of).collect();
        let mut expected: Vec<&str> = text.split('\n').collect();
        if expected.last() == Some(&"") {
            expected.pop();
        }
        assert_eq!(ours, expected, "for {:?}", text);
        if !text.contains('\r') {
            assert_eq!(ours, text.lines().collect::<Vec<_>>(), "for {:?}", text);
        }
    }
}

#[test]
fn bare_lines_are_the_lines_of_the_standard_library() {
    for text in texts() {
        let ours: Vec<String> = split_bare_lines(&chars_of(&text))
            .iter()
            .map(string_of)
            .collect();
        assert_eq!(ours, text.lines().collect::<Vec<_>>(), "for {:?}", text);
    }
}

#[test]
fn trailing_white_space_is_what_trim_end_takes_off() {
    for text in texts() {
        let chars = chars_of(&text);
        let kept: String = chars[..trimmed_len(&chars)].iter().collect();
        assert_eq!(kept, text.trim_end(), "for {:?}", text);
    }
}

#[test]
fn the_first_occurrence_is_found() {
    for text in texts() {
        for pat in ["<load", "DOCUSAURUS:", "\n", "", "a"] {
            let ours = find(&chars_of(&text), &chars_of(pat), 0);
            let expected = text.find(pat).map(|byte| char_index(&text, byte));
            assert_eq!(ours, expected, "for {:?} in {:?}", pat, text);
        }
    }
}

#[test]
fn characters_and_strings_convert_both_ways() {
    for text in texts() {
        let chars = chars_of(&text);
        assert_eq!(chars, text.chars().collect::<Vec<_>>());
        assert_eq!(string_of(&chars), text);
    }
}
