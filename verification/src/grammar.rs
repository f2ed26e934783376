//! What a block of text says when read as a heading line and the lines below
//! it.

use vstd::prelude::*;
use crate::nesting::Block;
use crate::section::HeadingView;
use crate::text::{
    MARKER, NEWLINE, index_of, lemma_index_of, lemma_index_of_holds, lemma_run_of, run_of,
    whitespace,
};

verus! {

/// Why a text could not be read.
#[derive(Debug, Clone, Copy, PartialEq, Eq, Structural)]
pub enum ParseError {
    /// A block does not begin with stars followed by whitespace.
    MalformedHeading,
    /// The pattern for heading lines was not accepted by the pattern matcher.
    PatternRejected,
}

/// Depth of the heading that `block` begins with: the number of its leading
/// stars.
pub open spec fn stars_of(block: Seq<char>) -> nat {
    run_of(block, MARKER)
}

/// Where the first line of `block` ends: the index of its first newline, or its
/// length where it has none.
pub open spec fn line_end(block: Seq<char>) -> nat {
    index_of(block, NEWLINE)
}

/// Whether `block` begins with a heading: one or more stars, then a whitespace
/// character.
pub open spec fn is_heading(block: Seq<char>) -> bool {
    &&& 1 <= stars_of(block) < block.len()
    &&& whitespace(block[stars_of(block) as int])
}

/// The title on the first line of `block`: what stands after the stars and the
/// one character behind them, up to the end of the line. It is empty where the
/// line ends with that character or before it.
pub open spec fn title_of(block: Seq<char>) -> Seq<char> {
    if stars_of(block) < line_end(block) {
        block.subrange(stars_of(block) as int + 1, line_end(block) as int)
    } else {
        Seq::empty()
    }
}

/// What stands in `block` below its first line; empty where it has one line
/// only.
pub open spec fn content_of(block: Seq<char>) -> Seq<char> {
    if line_end(block) < block.len() {
        block.subrange(line_end(block) as int + 1, block.len() as int)
    } else {
        Seq::empty()
    }
}

/// The heading that `block` begins with. No keyword is told from the title.
pub open spec fn heading_of(block: Seq<char>) -> HeadingView {
    HeadingView { stars: stars_of(block), keyword: Seq::empty(), title: title_of(block) }
}

/// `block` as a heading and the text below it.
pub open spec fn block_of(block: Seq<char>) -> Block {
    Block { heading: heading_of(block), content: content_of(block) }
}

/// A heading line with `stars` stars, a space and `title`.
pub open spec fn heading_line(stars: nat, title: Seq<char>) -> Seq<char> {
    Seq::new(stars, |i: int| MARKER).push(' ') + title
}

/// The block that says `heading` and `content`: the heading line, a newline,
/// and the content.
pub open spec fn written(heading: HeadingView, content: Seq<char>) -> Seq<char> {
    heading_line(heading.stars, heading.title).push(NEWLINE) + content
}

/// A title holds no newline.
pub proof fn lemma_title_one_line(block: Seq<char>)
    ensures
        !title_of(block).contains(NEWLINE),
{
    lemma_index_of_holds(block, NEWLINE);
    let title = title_of(block);
    assert forall|i: int| 0 <= i < title.len() implies title[i] != NEWLINE by {
        assert(title[i] == block[stars_of(block) + 1 + i]);
    }
}

/// A heading line of at least one star whose title holds no newline reads
/// back as a heading of that depth and title, with nothing below it.
pub proof fn lemma_reread_line(stars: nat, title: Seq<char>)
    requires
        stars >= 1,
        !title.contains(NEWLINE),
    ensures
        is_heading(heading_line(stars, title)),
        stars_of(heading_line(stars, title)) == stars,
        title_of(heading_line(stars, title)) == title,
        content_of(heading_line(stars, title)) == Seq::<char>::empty(),
{
    let line = heading_line(stars, title);
    lemma_run_of(line, MARKER, stars as int);
    assert forall|j: int| 0 <= j < line.len() implies line[j] != NEWLINE by {
        if j > stars {
            assert(line[j] == title[j - stars - 1]);
            assert(title.contains(title[j - stars - 1]));
        }
    }
    lemma_index_of(line, NEWLINE, line.len() as int);
    assert(title_of(line) =~= title);
}

/// Rereading: a heading of at least one star whose title holds no newline,
/// written out with any content and read again, gives the same depth, title and
/// content.
pub proof fn lemma_reread(heading: HeadingView, content: Seq<char>)
    requires
        heading.stars >= 1,
        !heading.title.contains(NEWLINE),
    ensures
        is_heading(written(heading, content)),
        stars_of(written(heading, content)) == heading.stars,
        title_of(written(heading, content)) == heading.title,
        content_of(written(heading, content)) == content,
{
    let block = written(heading, content);
    let stars = heading.stars;
    let title = heading.title;
    let end = stars as int + 1 + title.len();
    lemma_run_of(block, MARKER, stars as int);
    assert forall|j: int| 0 <= j < end implies block[j] != NEWLINE by {
        if j > stars {
            assert(block[j] == title[j - stars - 1]);
            assert(title.contains(title[j - stars - 1]));
        }
    }
    lemma_index_of(block, NEWLINE, end);
    assert(title_of(block) =~= title);
    assert(content_of(block) =~= content);
}

/// Rereading what was read: the heading and content of a block that begins
/// with a heading, written out and read again, are the same heading and
/// content.
pub proof fn lemma_reread_block(block: Seq<char>)
    requires
        is_heading(block),
    ensures
        is_heading(written(heading_of(block), content_of(block))),
        block_of(written(heading_of(block), content_of(block))) == block_of(block),
{
    lemma_title_one_line(block);
    lemma_reread(heading_of(block), content_of(block));
}

} // verus!
