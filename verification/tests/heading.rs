use reorg::text::{char_at, count_run, cut, find_first, is_whitespace};
use reorg::{Document, ParseError};

#[test]
fn read_stars_counts_the_leading_run() {
    assert_eq!(Document::read_stars("*** x"), 3);
    assert_eq!(Document::read_stars("* x *** y"), 1);
    assert_eq!(Document::read_stars("x ***"), 0);
    assert_eq!(Document::read_stars(""), 0);
    assert_eq!(Document::read_stars("*****"), 5);
    assert_eq!(Document::read_stars("**\n**"), 2);
}

#[test]
fn read_title_stops_at_the_line_end() {
    assert_eq!(Document::read_title("** a title\nbody\nmore"), "a title");
    assert_eq!(Document::read_title("** a title"), "a title");
    assert_eq!(Document::read_title("*\ttabbed"), "tabbed");
    assert_eq!(Document::read_title("* \n"), "");
    assert_eq!(Document::read_title("*\nnext line"), "");
    assert_eq!(Document::read_title("***"), "");
    assert_eq!(Document::read_title(""), "");
    assert_eq!(Document::read_title("* é ü\nx"), "é ü");
}

#[test]
fn read_content_is_what_follows_the_first_line() {
    assert_eq!(Document::read_content("* a\nbody\nmore\n"), "body\nmore\n");
    assert_eq!(Document::read_content("* a\n"), "");
    assert_eq!(Document::read_content("* a"), "");
    assert_eq!(Document::read_content("* a\n\n"), "\n");
    assert_eq!(Document::read_content(""), "");
    assert_eq!(Document::read_content("\nx"), "x");
    assert_eq!(Document::read_content("* a\nörtlich"), "örtlich");
}

#[test]
fn read_heading_refuses_what_is_no_heading() {
    assert_eq!(Document::read_heading("").unwrap_err(), ParseError::MalformedHeading);
    assert_eq!(Document::read_heading("no stars").unwrap_err(), ParseError::MalformedHeading);
    assert_eq!(Document::read_heading(" * indented").unwrap_err(), ParseError::MalformedHeading);
    assert_eq!(Document::read_heading("***").unwrap_err(), ParseError::MalformedHeading);
    assert_eq!(Document::read_heading("**bold**").unwrap_err(), ParseError::MalformedHeading);
    assert_eq!(Document::read_heading("*\u{200b}x").unwrap_err(), ParseError::MalformedHeading);
}

#[test]
fn read_heading_keeps_depth_and_title() {
    let heading = Document::read_heading("**** deep one\nbody").unwrap();
    assert_eq!(heading.stars, 4);
    assert_eq!(heading.title, "deep one");
    assert_eq!(heading.keyword, "");

    let bare = Document::read_heading("*\n").unwrap();
    assert_eq!(bare.stars, 1);
    assert_eq!(bare.title, "");

    let spaced = Document::read_heading("* ").unwrap();
    assert_eq!(spaced.stars, 1);
    assert_eq!(spaced.title, "");
}

#[test]
fn read_heading_leaves_a_leading_word_in_the_title() {
    let heading = Document::read_heading("* DONE something").unwrap();
    assert_eq!(heading.keyword, "");
    assert_eq!(heading.title, "DONE something");
}

#[test]
fn read_section_refuses_what_is_no_heading() {
    assert_eq!(Document::read_section(String::from("body only\n* a")).unwrap_err(), ParseError::MalformedHeading);
    assert_eq!(Document::read_section(String::new()).unwrap_err(), ParseError::MalformedHeading);
}

#[test]
fn read_section_has_no_children() {
    let section = Document::read_section(String::from("* a\n** b\n")).unwrap();
    assert_eq!(section.heading.title, "a");
    assert_eq!(section.content, "** b\n");
    assert_eq!(section.children.len(), 0);
}

#[test]
fn rereading_a_written_section_gives_it_back() {
    let first = Document::read_section(String::from("***\ttitle  here \nline one\n\nline three")).unwrap();
    let written = format!(
        "{} {}\n{}",
        "*".repeat(first.heading.stars),
        first.heading.title,
        first.content
    );
    let again = Document::read_section(written).unwrap();

    assert_eq!(again.heading.stars, 3);
    assert_eq!(again.heading.title, "title  here ");
    assert_eq!(again.heading.stars, first.heading.stars);
    assert_eq!(again.heading.title, first.heading.title);
    assert_eq!(again.content, first.content);

    let line_only = format!("{} {}", "*".repeat(first.heading.stars), first.heading.title);
    let heading = Document::read_heading(&line_only).unwrap();
    assert_eq!(heading.stars, first.heading.stars);
    assert_eq!(heading.title, first.heading.title);
}

#[test]
fn whitespace_is_the_unicode_property() {
    for c in ['\t', '\n', '\u{b}', '\u{c}', '\r', ' ', '\u{85}', '\u{a0}', '\u{1680}', '\u{2000}', '\u{2005}', '\u{200a}', '\u{2028}', '\u{2029}', '\u{202f}', '\u{205f}', '\u{3000}'] {
        assert!(is_whitespace(c));
        assert!(c.is_whitespace());
    }
    for c in ['\u{8}', '\u{e}', '\u{1f}', '!', '*', 'a', '\u{84}', '\u{86}', '\u{9f}', '\u{a1}', '\u{180e}', '\u{1fff}', '\u{200b}', '\u{2027}', '\u{202a}', '\u{2060}', '\u{2fff}', '\u{3001}', '\u{feff}'] {
        assert!(!is_whitespace(c));
        assert!(!c.is_whitespace());
    }
}

#[test]
fn whitespace_agrees_with_std_on_every_character() {
    let mut code: u32 = 0;
    while code <= 0x10ffff {
        if let Some(c) = char::from_u32(code) {
            assert_eq!(is_whitespace(c), c.is_whitespace());
        }
        code += 1;
    }
}

#[test]
fn count_run_and_find_first_scan_from_the_front() {
    assert_eq!(count_run("aaab", 'a'), 3);
    assert_eq!(count_run("baaa", 'a'), 0);
    assert_eq!(count_run("aaa", 'a'), 3);
    assert_eq!(count_run("", 'a'), 0);
    assert_eq!(count_run("ééx", 'é'), 2);
    assert_eq!(find_first("abc\ndef\n", '\n'), 3);
    assert_eq!(find_first("abc", '\n'), 3);
    assert_eq!(find_first("\nabc", '\n'), 0);
    assert_eq!(find_first("", '\n'), 0);
    assert_eq!(find_first("éé\n", '\n'), 2);
}

#[test]
fn char_at_counts_characters() {
    assert_eq!(char_at("héllo", 0), Some('h'));
    assert_eq!(char_at("héllo", 1), Some('é'));
    assert_eq!(char_at("héllo", 2), Some('l'));
    assert_eq!(char_at("héllo", 4), Some('o'));
    assert_eq!(char_at("héllo", 5), None);
    assert_eq!(char_at("", 0), None);
}

#[test]
fn cut_takes_whole_characters_only() {
    assert_eq!(cut("héllo", 0, 1), Some("h"));
    assert_eq!(cut("héllo", 1, 3), Some("é"));
    assert_eq!(cut("héllo", 3, 6), Some("llo"));
    assert_eq!(cut("héllo", 0, 6), Some("héllo"));
    assert_eq!(cut("héllo", 2, 2), None);
    assert_eq!(cut("héllo", 6, 6), Some(""));
    assert_eq!(cut("héllo", 0, 0), Some(""));
    assert_eq!(cut("héllo", 1, 2), None);
    assert_eq!(cut("héllo", 2, 3), None);
    assert_eq!(cut("héllo", 3, 1), None);
    assert_eq!(cut("héllo", 0, 7), None);
    assert_eq!(cut("héllo", 7, 8), None);
}
