use reorg::{Document, ParseError};

const SIMPLE: &str = "* This is a simple document
with some content
here and there
* With a second section with
some data
** And a third and final one
with some data";

#[test]
fn it_works() {
    assert_eq!(2 + 2, 4);
}

#[test]
fn one_section() {
    let text = String::from("* One section");
    let doc = Document::from(text).unwrap();

    assert_eq!(doc.sections.len(), 1);
}

#[test]
fn two_section() {
    let text = String::from(
        "* One section
* Two sections",
    );
    let doc = Document::from(text).unwrap();

    assert_eq!(doc.sections.len(), 2);
}

#[test]
fn correct_number_of_sections() {
    // all sections have level 1 asterisk
    let simple_doc = String::from(
        "* This is a simple document
with some content
here and there
* With a second section with
some data
* And a third and final one
with some data",
    );

    let doc = Document::from(simple_doc).unwrap();

    assert_eq!(doc.sections.len(), 3);
}

#[test]
fn all_sections_are_read() {
    let doc = Document::from(String::from(SIMPLE)).unwrap();

    assert_eq!(doc.sections.len(), 2);
    assert_eq!(doc.sections[1].children.len(), 1);
}

#[test]
fn title_is_obtained_correctly() {
    let doc = Document::from(String::from(SIMPLE)).unwrap();

    assert_eq!(doc.sections[0].heading.title, "This is a simple document");
    assert_eq!(doc.sections[1].heading.title, "With a second section with");
    assert_eq!(doc.sections[1].children[0].heading.title, "And a third and final one");
}

#[test]
fn section_level_is_obtained_correctly() {
    let doc = Document::from(String::from(SIMPLE)).unwrap();

    assert_eq!(doc.sections[0].heading.stars, 1);
    assert_eq!(doc.sections[1].heading.stars, 1);
    assert_eq!(doc.sections[1].children[0].heading.stars, 2);
}

#[test]
fn subsection_is_obtained_correctly() {
    let doc = Document::from(String::from(SIMPLE)).unwrap();

    assert_eq!(doc.sections[0].heading.stars, 1);
    assert_eq!(doc.sections[1].heading.stars, 1);
    assert_eq!(doc.sections[1].children[0].heading.title, "And a third and final one");
    assert_eq!(doc.sections[1].children[0].heading.stars, 2);
}

#[test]
fn sections_can_be_iterated() {
    let doc = Document::from(String::from(SIMPLE)).unwrap();

    assert_eq!((2, Some(2)), doc.sections.iter().size_hint());
}

#[test]
fn get_anything() {
    let heading = Document::read_heading("* My something").unwrap();

    assert_eq!(heading.stars, 1);
}

#[test]
fn get_correct_starts() {
    let h1 = Document::read_heading("* 1 star").unwrap();
    assert_eq!(h1.stars, 1);
    assert_eq!(h1.title, "1 star");

    let h2 = Document::read_heading("** 2 stars").unwrap();
    assert_eq!(h2.stars, 2);
    assert_eq!(h2.title, "2 stars");

    let h3 = Document::read_heading("*** 3 stars").unwrap();
    assert_eq!(h3.stars, 3);
    assert_eq!(h3.title, "3 stars");
}

#[test]
fn finds_no_keyword() {
    let h3 = Document::read_heading("* nope something").unwrap();
    assert_eq!(h3.keyword, "");
    assert_eq!(h3.title, "nope something")
}

#[test]
fn builds_document_one_element() {
    let doc = "* This is a document
With some content here
and there.
"
    .to_string();
    let doc = Document::from(doc).unwrap();

    assert_eq!(doc.sections[0].heading.title, "This is a document");
    assert_eq!(doc.sections[0].heading.stars, 1);
}

#[test]
fn test_heading_1_star() {
    let test_str = "* valid title";
    match Document::read_heading(test_str) {
        Ok(h) => {
            assert_eq!(h.stars, 1);
            assert_eq!(h.title, "valid title".to_string());
            assert_eq!(h.keyword, "".to_string());
        }
        Err(_) => (),
    }
}

#[test]
fn test_heading_2_star() {
    let test_str = "** valid title 2";

    match Document::read_heading(test_str) {
        Ok(h) => {
            assert_eq!(h.stars, 2);
            assert_eq!(h.title, "valid title 2".to_string());
            assert_eq!(h.keyword, "".to_string());
        }
        Err(_) => {
            assert_eq!(true, false);
        }
    }
}

#[test]
fn test_entry_simple() {
    let test_entry = "**** valid title
some content
and some more";

    match Document::read_section(test_entry.to_string()) {
        Ok(e) => {
            assert_eq!(e.heading.title, "valid title");
            assert_eq!(e.heading.stars, 4);
        }
        Err(_) => assert_eq!(true, false),
    }
}

#[test]
fn test_entry_simple0() {
    let test_entry = "*** some title
this is some content
and a bit more";
    match Document::read_section(test_entry.to_string()) {
        Ok(e) => {
            assert_eq!(e.heading.stars, 3);
            assert_eq!(e.heading.title, "some title");
            assert_eq!(e.heading.keyword, "");
            assert_eq!(e.content, "this is some content\nand a bit more");
        }
        Err(_) => assert_eq!(true, false),
    }
}

#[test]
fn test_document_simple0() {
    let test_doc = "*** some entry
and some content
and some more
** and another section
with its own content";
    match Document::from(test_doc.to_string()) {
        Ok(d) => {
            assert_eq!(d.sections[0].heading.title, "some entry");
            assert_eq!(d.sections[0].heading.stars, 3);
            assert_eq!(d.sections[1].heading.title, "and another section");
            assert_eq!(d.sections[1].heading.stars, 2);
        }
        Err(_) => {
            assert_eq!(true, false);
        }
    }
}

#[test]
fn crate_example_reads_nested_sections() {
    let org_doc = String::from(
        "* This is first item
with some content
and a second line
** And we have another title
also with some content",
    );
    let doc = Document::from(org_doc).unwrap();

    assert_eq!(doc.sections[0].heading.stars, 1);
    assert_eq!(doc.sections[0].heading.title, "This is first item");
    assert_eq!(doc.sections[0].children[0].heading.stars, 2);
    assert_eq!(doc.sections[0].children[0].heading.title, "And we have another title");
    assert_eq!(doc.sections[0].content, "with some content\nand a second line\n");
    assert_eq!(doc.sections[0].children[0].content, "also with some content");
}

#[test]
fn nested_siblings_and_child() {
    let doc = Document::from(String::from("* a\n* b\n** c")).unwrap();

    assert_eq!(doc.sections.len(), 2);
    assert_eq!(doc.sections[0].heading.title, "a");
    assert_eq!(doc.sections[1].heading.title, "b");
    assert_eq!(doc.sections[0].children.len(), 0);
    assert_eq!(doc.sections[1].children.len(), 1);
    assert_eq!(doc.sections[1].children[0].heading.title, "c");
    assert_eq!(doc.sections[1].children[0].heading.stars, 2);
}

#[test]
fn body_is_kept_with_its_newline() {
    let doc = Document::from(String::from("* a\nbody line\n")).unwrap();

    assert_eq!(doc.sections.len(), 1);
    assert_eq!(doc.sections[0].heading.title, "a");
    assert_eq!(doc.sections[0].content, "body line\n");
}

#[test]
fn shallower_heading_after_deeper_is_a_root() {
    let doc = Document::from(String::from("*** x\n** y")).unwrap();

    assert_eq!(doc.sections.len(), 2);
    assert_eq!(doc.sections[0].heading.title, "x");
    assert_eq!(doc.sections[0].heading.stars, 3);
    assert_eq!(doc.sections[0].children.len(), 0);
    assert_eq!(doc.sections[1].heading.title, "y");
    assert_eq!(doc.sections[1].heading.stars, 2);
    assert_eq!(doc.sections[1].children.len(), 0);
}

#[test]
fn empty_text_is_an_empty_document() {
    let doc = Document::from(String::new()).unwrap();

    assert_eq!(doc.sections.len(), 0);
}

#[test]
fn text_without_headings_is_an_empty_document() {
    let doc = Document::from(String::from("just some text\nand more\n*no space after star\n")).unwrap();

    assert_eq!(doc.sections.len(), 0);
}

#[test]
fn prologue_is_dropped() {
    let doc = Document::from(String::from("prologue text\n* a")).unwrap();

    assert_eq!(doc.sections.len(), 1);
    assert_eq!(doc.sections[0].heading.title, "a");
    assert_eq!(doc.sections[0].heading.stars, 1);
    assert_eq!(doc.sections[0].content, "");
}

#[test]
fn equal_headings_stay_apart() {
    let doc = Document::from(String::from("* a\n* a\n")).unwrap();

    assert_eq!(doc.sections.len(), 2);
    assert_eq!(doc.sections[0].heading.title, "a");
    assert_eq!(doc.sections[1].heading.title, "a");
    assert_eq!(doc.sections[0].children.len(), 0);
    assert_eq!(doc.sections[1].children.len(), 0);
    assert_eq!(doc.sections[0].content, "");
    assert_eq!(doc.sections[1].content, "");
}

#[test]
fn depth_jump_nests_directly() {
    let doc = Document::from(String::from("* a\n**** b\n** c\n*** d\n* e")).unwrap();

    assert_eq!(doc.sections.len(), 2);
    let a = &doc.sections[0];
    assert_eq!(a.heading.stars, 1);
    assert_eq!(a.children.len(), 2);
    assert_eq!(a.children[0].heading.title, "b");
    assert_eq!(a.children[0].heading.stars, 4);
    assert_eq!(a.children[0].children.len(), 0);
    assert_eq!(a.children[1].heading.title, "c");
    assert_eq!(a.children[1].children.len(), 1);
    assert_eq!(a.children[1].children[0].heading.title, "d");
    assert_eq!(doc.sections[1].heading.title, "e");
    assert_eq!(doc.sections[1].children.len(), 0);
}

#[test]
fn star_inside_a_line_is_no_heading() {
    let doc = Document::from(String::from("* a\ntext * not a heading\n *indented\n* b")).unwrap();

    assert_eq!(doc.sections.len(), 2);
    assert_eq!(doc.sections[0].content, "text * not a heading\n *indented\n");
    assert_eq!(doc.sections[1].heading.title, "b");
}

#[test]
fn heading_of_stars_alone_has_an_empty_title() {
    let doc = Document::from(String::from("*\nbody\n** sub\n")).unwrap();

    assert_eq!(doc.sections.len(), 1);
    assert_eq!(doc.sections[0].heading.stars, 1);
    assert_eq!(doc.sections[0].heading.title, "");
    assert_eq!(doc.sections[0].content, "body\n");
    assert_eq!(doc.sections[0].children.len(), 1);
    assert_eq!(doc.sections[0].children[0].heading.title, "sub");
    assert_eq!(doc.sections[0].children[0].content, "");
}

#[test]
fn other_whitespace_follows_the_stars() {
    let doc = Document::from(String::from("*\ttabbed\n**\u{a0}no-break\n*\u{3000}wide")).unwrap();

    assert_eq!(doc.sections.len(), 2);
    assert_eq!(doc.sections[0].heading.title, "tabbed");
    assert_eq!(doc.sections[0].children[0].heading.title, "no-break");
    assert_eq!(doc.sections[0].children[0].heading.stars, 2);
    assert_eq!(doc.sections[1].heading.title, "wide");
}

#[test]
fn text_beyond_ascii_is_kept() {
    let doc = Document::from(String::from("préface\n* Überschrift é\nzwölf Zeilen\n** 見出し\n本文")).unwrap();

    assert_eq!(doc.sections.len(), 1);
    assert_eq!(doc.sections[0].heading.title, "Überschrift é");
    assert_eq!(doc.sections[0].content, "zwölf Zeilen\n");
    assert_eq!(doc.sections[0].children[0].heading.title, "見出し");
    assert_eq!(doc.sections[0].children[0].content, "本文");
}

#[test]
fn title_and_body_are_not_trimmed() {
    let doc = Document::from(String::from("*  two spaces \n  indented body  \n\n")).unwrap();

    assert_eq!(doc.sections[0].heading.title, " two spaces ");
    assert_eq!(doc.sections[0].content, "  indented body  \n\n");
}

#[test]
fn from_starts_reads_the_given_blocks() {
    let text = "intro\n* a\nbody\n** b";
    let doc = Document::from_starts(text, &vec![6, 15]).unwrap();

    assert_eq!(doc.sections.len(), 1);
    assert_eq!(doc.sections[0].heading.title, "a");
    assert_eq!(doc.sections[0].content, "body\n");
    assert_eq!(doc.sections[0].children[0].heading.title, "b");
}

#[test]
fn from_starts_without_starts_is_empty() {
    let doc = Document::from_starts("* a\n* b", &Vec::new()).unwrap();

    assert_eq!(doc.sections.len(), 0);
}

#[test]
fn from_starts_may_leave_heading_lines_inside_a_block() {
    let doc = Document::from_starts("* a\n* b", &vec![0]).unwrap();

    assert_eq!(doc.sections.len(), 1);
    assert_eq!(doc.sections[0].content, "* b");
}

#[test]
fn from_starts_refuses_a_block_without_heading() {
    assert_eq!(Document::from_starts("* a\nbody", &vec![0, 4]).unwrap_err(), ParseError::MalformedHeading);
    assert_eq!(Document::from_starts("* a\n* b", &vec![1]).unwrap_err(), ParseError::MalformedHeading);
}

#[test]
fn from_starts_refuses_offsets_out_of_order_or_range() {
    assert_eq!(Document::from_starts("* a\n* b", &vec![4, 0]).unwrap_err(), ParseError::MalformedHeading);
    assert_eq!(Document::from_starts("* a\n* b", &vec![0, 4, 8]).unwrap_err(), ParseError::MalformedHeading);
    assert_eq!(Document::from_starts("* a\n* b", &vec![0, 0]).unwrap_err(), ParseError::MalformedHeading);
}

#[test]
fn from_starts_refuses_an_offset_inside_a_character() {
    // "é" takes the bytes 2 and 3
    assert_eq!(Document::from_starts("* é\n* b", &vec![0, 3]).unwrap_err(), ParseError::MalformedHeading);
    assert!(Document::from_starts("* é\n* b", &vec![0, 5]).is_ok());
}

#[test]
fn from_matching_takes_another_pattern() {
    let text = "* a\n** b\n*** c\n* d";
    let doc = Document::from_matching(text, "^\\*{1,2}\\s").unwrap();

    assert_eq!(doc.sections.len(), 2);
    assert_eq!(doc.sections[0].children.len(), 1);
    assert_eq!(doc.sections[0].children[0].heading.title, "b");
    assert_eq!(doc.sections[0].children[0].content, "*** c\n");
    assert_eq!(doc.sections[0].children[0].children.len(), 0);
}

#[test]
fn from_matching_refuses_a_broken_pattern() {
    assert_eq!(Document::from_matching("* a", "(").unwrap_err(), ParseError::PatternRejected);
}

#[test]
fn from_matching_refuses_matches_that_are_no_headings() {
    assert_eq!(Document::from_matching("* a\nb", "^b").unwrap_err(), ParseError::MalformedHeading);
}

#[test]
fn from_agrees_with_from_matching_on_the_heading_pattern() {
    let text = "x\n* a\n** b\n";
    let one = Document::from(String::from(text)).unwrap();
    let other = Document::from_matching(text, reorg::HEADING_PATTERN).unwrap();

    assert_eq!(one.sections.len(), other.sections.len());
    assert_eq!(one.sections[0].heading.title, other.sections[0].heading.title);
    assert_eq!(one.sections[0].children[0].heading.title, "b");
    assert_eq!(other.sections[0].children[0].heading.title, "b");
}
