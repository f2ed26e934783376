//! Reading a whole text: cutting it into blocks at its heading lines, reading
//! each block, and nesting the sections by depth.

use vstd::prelude::*;
use vstd::string::StrSliceExecFns;
use vstd::utf8::{encode_utf8, encode_utf8_valid_utf8, is_char_boundary_start_end_of_seq};
use crate::builder::Outliner;
use crate::finder::{find_line_starts, line_match_starts};
use crate::grammar::{
    ParseError, block_of, content_of, heading_of, is_heading, stars_of, title_of,
};
use crate::nesting::{
    Block, all_well_nested, flatten, grow, lemma_nest_count, lemma_nest_flat, lemma_nest_flatten,
    lemma_nest_ordered, lemma_nest_well_nested, nest, node_count, ordered,
};
use crate::section::{Heading, Section, SectionView, lemma_children_views, views};
use crate::text::{
    MARKER, NEWLINE, between, char_at, count_run, cut, find_first, is_whitespace,
    lemma_between_ends_with_newline, lemma_between_split, lemma_newline_byte_bounds, lemma_run_of,
    lemma_run_of_holds, on_chars,
};

verus! {

/// The pattern of the beginning of a heading line: at the start of a line, one
/// or more stars and a whitespace character.
pub const HEADING_PATTERN: &'static str = "^\\*+\\s";

/// A text read as an outline: its top-level sections in the order of their
/// headings, each with the sections nested under it.
#[derive(Debug)]
pub struct Document {
    pub sections: Vec<Section>,
}

impl View for Document {
    type V = Seq<SectionView>;

    open spec fn view(&self) -> Seq<SectionView> {
        views(self.sections@)
    }
}

/// Byte offset at which the `i`-th block of `text` ends: where the next block
/// begins, or the end of `text` for the last one.
pub open spec fn block_end(text: Seq<char>, starts: Seq<usize>, i: int) -> int {
    if i + 1 < starts.len() {
        starts[i + 1] as int
    } else {
        encode_utf8(text).len() as int
    }
}

/// The `i`-th block that the byte offsets `starts` cut from `text`.
pub open spec fn block_text(text: Seq<char>, starts: Seq<usize>, i: int) -> Seq<char> {
    between(text, starts[i] as int, block_end(text, starts, i))
}

/// Whether the `i`-th block is a range of whole characters of `text` that
/// begins with a heading.
pub open spec fn heads(text: Seq<char>, starts: Seq<usize>, i: int) -> bool {
    &&& on_chars(text, starts[i] as int, block_end(text, starts, i))
    &&& is_heading(block_text(text, starts, i))
}

/// Whether `starts` cuts `text` into blocks that each begin with a heading.
pub open spec fn cuts_well(text: Seq<char>, starts: Seq<usize>) -> bool {
    forall|i: int| 0 <= i < starts.len() ==> #[trigger] heads(text, starts, i)
}

/// The blocks that `starts` cuts from `text`, each read as a heading and the
/// text below it. What stands before the first of `starts` is in none of them.
pub open spec fn blocks_of(text: Seq<char>, starts: Seq<usize>) -> Seq<Block> {
    Seq::new(starts.len(), |i: int| block_of(block_text(text, starts, i)))
}

/// What reading `text` gives where its heading lines begin at `starts`: the
/// forest of its blocks, or an error where one of them begins with no heading.
pub open spec fn outline(text: Seq<char>, starts: Seq<usize>) -> Result<
    Seq<SectionView>,
    ParseError,
> {
    if cuts_well(text, starts) {
        Ok(nest(blocks_of(text, starts)))
    } else {
        Err(ParseError::MalformedHeading)
    }
}

/// What reading `text` gives for each outcome `found` of the search for its
/// heading lines.
pub open spec fn reading(text: Seq<char>, found: Option<Seq<usize>>) -> Result<
    Seq<SectionView>,
    ParseError,
> {
    match found {
        Some(starts) => outline(text, starts),
        None => Err(ParseError::PatternRejected),
    }
}

/// Whether `result` is `expected`, a document taken by its model.
pub open spec fn reads_as(
    result: Result<Document, ParseError>,
    expected: Result<Seq<SectionView>, ParseError>,
) -> bool {
    match result {
        Ok(document) => expected == Ok::<Seq<SectionView>, ParseError>(document@),
        Err(error) => expected == Err::<Seq<SectionView>, ParseError>(error),
    }
}

/// A text whose headings all have one depth reads as one root for each heading
/// line, in their order, and no section has a child.
pub proof fn lemma_flat_outline(text: Seq<char>, starts: Seq<usize>, depth: nat)
    requires
        cuts_well(text, starts),
        forall|i: int|
            0 <= i < starts.len() ==> stars_of(#[trigger] block_text(text, starts, i)) == depth,
    ensures
        outline(text, starts) matches Ok(forest) && {
            &&& forest.len() == starts.len()
            &&& forall|i: int|
                0 <= i < forest.len() ==> {
                    &&& #[trigger] forest[i] == grow(
                        block_of(block_text(text, starts, i)),
                        Seq::empty(),
                    )
                    &&& forest[i].children.len() == 0
                }
        },
{
    let blocks = blocks_of(text, starts);
    assert forall|j: int| 0 <= j < blocks.len() implies (#[trigger] blocks[j]).heading.stars
        == depth by {
        assert(stars_of(block_text(text, starts, j)) == depth);
    }
    lemma_nest_flat(blocks, depth);
}

/// Whether `forest` has the shape of an outline of `blocks`: it has one
/// section for each block, the sections stand in the order of the blocks, every
/// section is shallower than each of its children, and none is deeper than the
/// sibling before it.
pub open spec fn shaped(forest: Seq<SectionView>, blocks: Seq<Block>) -> bool {
    &&& node_count(forest) == blocks.len()
    &&& flatten(forest) == blocks
    &&& all_well_nested(forest)
    &&& ordered(forest)
}

/// A text reads as a forest that has the shape of an outline of its blocks;
/// so it has one section for each heading line.
pub proof fn lemma_outline_shape(text: Seq<char>, starts: Seq<usize>)
    requires
        cuts_well(text, starts),
    ensures
        outline(text, starts) matches Ok(forest) && shaped(forest, blocks_of(text, starts)),
        blocks_of(text, starts).len() == starts.len(),
{
    lemma_nest_count(blocks_of(text, starts));
    lemma_nest_flatten(blocks_of(text, starts));
    lemma_nest_well_nested(blocks_of(text, starts));
    lemma_nest_ordered(blocks_of(text, starts));
}

/// Whether a heading line begins at the byte offset `at` of `text`: `at` is
/// the beginning of `text` or follows a newline, and what stands from there on
/// begins with a heading.
pub open spec fn heading_line_at(text: Seq<char>, at: int) -> bool {
    &&& 0 <= at <= encode_utf8(text).len()
    &&& (at == 0 || encode_utf8(text)[at - 1] == 0x0A)
    &&& is_heading(between(text, at, encode_utf8(text).len() as int))
}

/// Whether `starts` are offsets at which heading lines of `text` begin, in
/// rising order.
pub open spec fn at_heading_lines(text: Seq<char>, starts: Seq<usize>) -> bool {
    &&& forall|i: int, j: int| 0 <= i < j < starts.len() ==> starts[i] < starts[j]
    &&& forall|i: int| 0 <= i < starts.len() ==> heading_line_at(text, #[trigger] starts[i] as int)
}

/// Offsets at which heading lines begin, in rising order, cut a text into
/// blocks that each begin with a heading: read from such offsets, no text is
/// refused.
pub proof fn lemma_heading_lines_cut_well(text: Seq<char>, starts: Seq<usize>)
    requires
        at_heading_lines(text, starts),
    ensures
        cuts_well(text, starts),
        outline(text, starts) is Ok,
{
    let bytes = encode_utf8(text);
    let n = bytes.len() as int;
    encode_utf8_valid_utf8(text);
    is_char_boundary_start_end_of_seq(bytes);
    assert forall|i: int| 0 <= i < starts.len() implies #[trigger] heads(text, starts, i) by {
        let a = starts[i] as int;
        let e = block_end(text, starts, i);
        assert(heading_line_at(text, a));
        if a > 0 {
            lemma_newline_byte_bounds(text, a);
        }
        if i + 1 < starts.len() {
            assert(heading_line_at(text, starts[i + 1] as int));
            assert(a < e);
            lemma_newline_byte_bounds(text, e);
            let whole = between(text, a, n);
            let block = between(text, a, e);
            lemma_between_split(text, a, e, n);
            lemma_between_ends_with_newline(text, a, e);
            lemma_run_of_holds(whole, MARKER);
            let stars = stars_of(whole) as int;
            if block.len() <= stars {
                assert(block.last() == whole[block.len() - 1]);
            }
            assert forall|j: int| 0 <= j < stars implies block[j] == MARKER by {
                assert(block[j] == whole[j]);
            }
            assert(block[stars] == whole[stars]);
            lemma_run_of(block, MARKER, stars);
        }
    }
}

impl Document {
    /// Reads `document`: finds where its heading lines begin, with
    /// [`HEADING_PATTERN`], and reads it from there as [`Document::from_starts`]
    /// does. What stands before the first heading line is dropped; a text
    /// without heading lines is an empty document.
    ///
    /// The search is left to the pattern matcher, and the result is stated for
    /// each outcome of it: read from the offsets found, or
    /// [`ParseError::PatternRejected`] where the matcher turns the pattern down.
    /// Where it finds heading lines, in rising order, the text is read.
    pub fn from(document: String) -> (result: Result<Document, ParseError>)
        ensures
            reads_as(result, reading(document@, line_match_starts(HEADING_PATTERN@, document@))),
            result matches Ok(read) ==> {
                &&& line_match_starts(HEADING_PATTERN@, document@) matches Some(starts)
                &&& shaped(read@, blocks_of(document@, starts))
                &&& node_count(read@) == starts.len()
            },
            line_match_starts(HEADING_PATTERN@, document@) matches Some(starts) && at_heading_lines(
                document@,
                starts,
            ) ==> result is Ok,
    {
        Document::from_matching(document.as_str(), HEADING_PATTERN)
    }

    /// Reads `document` as [`Document::from`] does, with `pattern` in place of
    /// [`HEADING_PATTERN`] to find where its blocks begin. Each block must
    /// still begin with a heading.
    pub fn from_matching(document: &str, pattern: &str) -> (result: Result<Document, ParseError>)
        ensures
            reads_as(result, reading(document@, line_match_starts(pattern@, document@))),
            result matches Ok(read) ==> {
                &&& line_match_starts(pattern@, document@) matches Some(starts)
                &&& shaped(read@, blocks_of(document@, starts))
                &&& node_count(read@) == starts.len()
            },
            line_match_starts(pattern@, document@) matches Some(starts) && at_heading_lines(
                document@,
                starts,
            ) ==> result is Ok,
    {
        match find_line_starts(pattern, document) {
            Ok(starts) => Document::from_starts(document, &starts),
            Err(_) => Err(ParseError::PatternRejected),
        }
    }

    /// Reads `document`, given the byte offsets at which its heading lines
    /// begin. A block runs from one offset to the next, the last one to the end
    /// of `document`; each is read as a section, and the sections are nested by
    /// depth.
    ///
    /// The whole text is refused with [`ParseError::MalformedHeading`] where one
    /// of the blocks is no range of whole characters or begins with no heading.
    pub fn from_starts(document: &str, starts: &Vec<usize>) -> (result: Result<
        Document,
        ParseError,
    >)
        ensures
            reads_as(result, outline(document@, starts@)),
            at_heading_lines(document@, starts@) ==> result is Ok,
            result matches Ok(read) ==> {
                &&& shaped(read@, blocks_of(document@, starts@))
                &&& node_count(read@) == starts@.len()
            },
    {
        proof {
            if at_heading_lines(document@, starts@) {
                lemma_heading_lines_cut_well(document@, starts@);
            }
        }
        let length: usize = document.as_bytes().len();
        let mut outliner = Outliner::new();
        let mut i: usize = 0;
        while i < starts.len()
            invariant
                i <= starts@.len(),
                length == encode_utf8(document@).len(),
                at_heading_lines(document@, starts@) ==> cuts_well(document@, starts@),
                outliner.wf(),
                outliner.blocks() == blocks_of(document@, starts@).subrange(0, i as int),
                forall|j: int| 0 <= j < i ==> #[trigger] heads(document@, starts@, j),
            decreases starts@.len() - i,
        {
            let start: usize = starts[i];
            let end: usize = if i + 1 < starts.len() {
                starts[i + 1]
            } else {
                length
            };
            let block = match cut(document, start, end) {
                Some(block) => block,
                None => {
                    assert(!heads(document@, starts@, i as int));
                    return Err(ParseError::MalformedHeading);
                },
            };
            let section = match Document::read_section(block.to_owned()) {
                Ok(section) => section,
                Err(error) => {
                    assert(!heads(document@, starts@, i as int));
                    return Err(error);
                },
            };
            assert(heads(document@, starts@, i as int));
            let Section { heading, content, children: _ } = section;
            outliner.push(heading, content);
            proof {
                assert(blocks_of(document@, starts@).subrange(0, i + 1) =~= blocks_of(
                    document@,
                    starts@,
                ).subrange(0, i as int).push(block_of(block_text(document@, starts@, i as int))));
            }
            i = i + 1;
        }
        let sections = outliner.finish();
        proof {
            assert(blocks_of(document@, starts@).subrange(0, i as int) =~= blocks_of(
                document@,
                starts@,
            ));
            lemma_outline_shape(document@, starts@);
        }
        Ok(Document { sections })
    }

    /// Reads one block: the heading it begins with and the text below its
    /// first line. The section has no children yet.
    pub fn read_section(section: String) -> (result: Result<Section, ParseError>)
        ensures
            match result {
                Ok(read) => is_heading(section@) && read@ == grow(block_of(section@), Seq::empty()),
                Err(error) => !is_heading(section@) && error == ParseError::MalformedHeading,
            },
    {
        let heading = match Document::read_heading(section.as_str()) {
            Ok(heading) => heading,
            Err(error) => {
                return Err(error);
            },
        };
        let content = Document::read_content(section.as_str());
        let read = Section { heading, content, children: Vec::new() };
        proof {
            lemma_children_views(read);
            assert(read@.children =~= Seq::<SectionView>::empty());
        }
        Ok(read)
    }

    /// Reads the heading that `section` begins with: its stars and its title.
    pub fn read_heading(section: &str) -> (result: Result<Heading, ParseError>)
        ensures
            match result {
                Ok(heading) => is_heading(section@) && heading@ == heading_of(section@),
                Err(error) => !is_heading(section@) && error == ParseError::MalformedHeading,
            },
    {
        let stars = Document::read_stars(section);
        if stars == 0 {
            return Err(ParseError::MalformedHeading);
        }
        match char_at(section, stars) {
            Some(c) => {
                if !is_whitespace(c) {
                    return Err(ParseError::MalformedHeading);
                }
            },
            None => {
                return Err(ParseError::MalformedHeading);
            },
        }
        let title = Document::read_title(section);
        Ok(Heading { stars, keyword: String::new(), title: title.to_owned() })
    }

    /// Number of stars at the beginning of `section`.
    pub fn read_stars(section: &str) -> (stars: usize)
        ensures
            stars == stars_of(section@),
    {
        count_run(section, MARKER)
    }

    /// The title on the first line of `section`: what stands after the stars
    /// and the one character behind them.
    pub fn read_title(section: &str) -> (title: &str)
        ensures
            title@ == title_of(section@),
    {
        let stars = count_run(section, MARKER);
        let end = find_first(section, NEWLINE);
        if stars < end {
            section.substring_char(stars + 1, end)
        } else {
            section.substring_char(0, 0)
        }
    }

    /// What stands in `section` below its first line.
    pub fn read_content(section: &str) -> (content: String)
        ensures
            content@ == content_of(section@),
    {
        let end = find_first(section, NEWLINE);
        let length = section.unicode_len();
        if end < length {
            section.substring_char(end + 1, length).to_owned()
        } else {
            String::new()
        }
    }
}

} // verus!
