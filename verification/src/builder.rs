//! The single pass that nests sections as they arrive, with the stack of
//! sections that may still take a child.

use vstd::prelude::*;
use crate::nesting::{Block, grow, lemma_nest_single, lemma_nest_split, nest};
use crate::section::{Heading, Section, SectionView, lemma_children_views, views};

verus! {

/// Position in `blocks` of the open section above the `k`-th, or the number
/// of blocks where the `k`-th is the top one.
spec fn next_pos(pos: Seq<int>, k: int, n: int) -> int {
    if k + 1 < pos.len() {
        pos[k + 1]
    } else {
        n
    }
}

/// Position in `blocks` of the open section below the `k`-th, or -1 where the
/// `k`-th is the bottom one.
spec fn prev_pos(pos: Seq<int>, k: int) -> int {
    if k > 0 {
        pos[k - 1]
    } else {
        -1
    }
}

/// Each open section is the block at its position, and its children so far
/// are the forest of the blocks between it and the open section above it.
/// `pos[k]` is the position in `blocks` of the `k`-th open section, bottom
/// first.
spec fn placed(open: Seq<SectionView>, pos: Seq<int>, blocks: Seq<Block>) -> bool {
    &&& pos.len() == open.len()
    &&& forall|k: int| 0 <= k < pos.len() ==> 0 <= #[trigger] pos[k] < blocks.len()
    &&& forall|k: int, l: int| 0 <= k < l < pos.len() ==> #[trigger] pos[k] < #[trigger] pos[l]
    &&& forall|k: int|
        0 <= k < pos.len() ==> #[trigger] open[k] == grow(
            blocks[pos[k]],
            nest(blocks.subrange(pos[k] + 1, next_pos(pos, k, blocks.len() as int))),
        )
}

/// The closed roots are the forest of the blocks before the bottom open
/// section.
spec fn rooted(roots: Seq<SectionView>, pos: Seq<int>, blocks: Seq<Block>) -> bool {
    roots == nest(
        blocks.subrange(
            0,
            if pos.len() > 0 {
                pos[0]
            } else {
                blocks.len() as int
            },
        ),
    )
}

/// Every block after an open section is deeper than that section.
spec fn covered(pos: Seq<int>, blocks: Seq<Block>) -> bool {
    forall|k: int, j: int|
        0 <= k < pos.len() && pos[k] < j < blocks.len() ==> (#[trigger] blocks[j]).heading.stars
            > blocks[#[trigger] pos[k]].heading.stars
}

/// Every block between two neighbouring open sections is at least as deep as
/// the upper one, and so is every block before the bottom one.
spec fn fenced(pos: Seq<int>, blocks: Seq<Block>) -> bool {
    forall|k: int, j: int|
        0 <= k < pos.len() && prev_pos(pos, k) < j < pos[k] ==> (#[trigger] blocks[j]).heading.stars
            >= blocks[#[trigger] pos[k]].heading.stars
}

/// What ties the closed roots and the stack of open sections to the blocks
/// taken so far.
spec fn nests(
    roots: Seq<SectionView>,
    open: Seq<SectionView>,
    pos: Seq<int>,
    blocks: Seq<Block>,
) -> bool {
    &&& placed(open, pos, blocks)
    &&& rooted(roots, pos, blocks)
    &&& covered(pos, blocks)
    &&& fenced(pos, blocks)
}

/// Every block above the top open section is at least as deep as `depth`.
spec fn settled(pos: Seq<int>, blocks: Seq<Block>, depth: nat) -> bool {
    forall|j: int|
        (if pos.len() > 0 {
            pos.last()
        } else {
            -1
        }) < j < blocks.len() ==> (#[trigger] blocks[j]).heading.stars >= depth
}

/// The top open section is the block taken last.
spec fn fresh(pos: Seq<int>, blocks: Seq<Block>) -> bool {
    if pos.len() > 0 {
        pos.last() == blocks.len() - 1
    } else {
        blocks.len() == 0
    }
}

/// The stack after its top section was closed under the one below it.
spec fn closed_open(open: Seq<SectionView>) -> Seq<SectionView>
    recommends
        open.len() > 0,
{
    if open.len() >= 2 {
        let parent = open[open.len() - 2];
        open.subrange(0, open.len() - 2).push(
            SectionView { children: parent.children.push(open.last()), ..parent },
        )
    } else {
        Seq::empty()
    }
}

/// The roots after the top open section was closed.
spec fn closed_roots(roots: Seq<SectionView>, open: Seq<SectionView>) -> Seq<SectionView>
    recommends
        open.len() > 0,
{
    if open.len() >= 2 {
        roots
    } else {
        roots.push(open.last())
    }
}

/// The blocks from the top open section on nest into that section alone.
proof fn lemma_top_tree(open: Seq<SectionView>, pos: Seq<int>, blocks: Seq<Block>)
    requires
        placed(open, pos, blocks),
        covered(pos, blocks),
        open.len() > 0,
    ensures
        nest(blocks.subrange(pos.last(), blocks.len() as int)) == seq![open.last()],
{
    let m = open.len() as int;
    let n = blocks.len() as int;
    let p = pos[m - 1];
    let seg = blocks.subrange(p, n);
    assert forall|j: int| 1 <= j < seg.len() implies (#[trigger] seg[j]).heading.stars
        > seg[0].heading.stars by {
        assert(seg[j] == blocks[p + j]);
        assert(seg[0] == blocks[pos[m - 1]]);
    }
    lemma_nest_single(seg);
    assert(seg.drop_first() =~= blocks.subrange(p + 1, n));
    assert(next_pos(pos, m - 1, n) == n);
    assert(open[m - 1] == grow(blocks[p], nest(blocks.subrange(p + 1, n))));
}

/// The forest of the blocks from `from` on, where every block from there up to
/// the top open section is at least as deep as that section: it is the forest
/// of the blocks up to that section, and then that section.
proof fn lemma_join_top(open: Seq<SectionView>, pos: Seq<int>, blocks: Seq<Block>, from: int)
    requires
        placed(open, pos, blocks),
        covered(pos, blocks),
        open.len() > 0,
        0 <= from <= pos.last(),
        forall|j: int|
            from <= j < pos.last() ==> (#[trigger] blocks[j]).heading.stars
                >= blocks[pos.last()].heading.stars,
    ensures
        nest(blocks.subrange(from, blocks.len() as int)) == nest(
            blocks.subrange(from, pos.last()),
        ).push(open.last()),
{
    let n = blocks.len() as int;
    let p = pos.last();
    let front = blocks.subrange(from, p);
    let seg = blocks.subrange(p, n);
    lemma_top_tree(open, pos, blocks);
    assert forall|j: int| 0 <= j < front.len() implies (#[trigger] front[j]).heading.stars
        >= seg[0].heading.stars by {
        assert(front[j] == blocks[from + j]);
        assert(seg[0] == blocks[p]);
    }
    lemma_nest_split(front, seg);
    assert(front + seg =~= blocks.subrange(from, n));
    assert(nest(front) + seq![open.last()] =~= nest(front).push(open.last()));
}

/// Closing the top open section keeps each remaining open section in its
/// place.
proof fn lemma_close_placed(open: Seq<SectionView>, pos: Seq<int>, blocks: Seq<Block>)
    requires
        placed(open, pos, blocks),
        covered(pos, blocks),
        fenced(pos, blocks),
        open.len() > 0,
    ensures
        placed(closed_open(open), pos.drop_last(), blocks),
{
    let m = open.len() as int;
    let n = blocks.len() as int;
    let pos2 = pos.drop_last();
    let open2 = closed_open(open);
    if m >= 2 {
        let q = pos[m - 2];
        let p = pos[m - 1];
        assert(prev_pos(pos, m - 1) == q);
        assert forall|j: int| q + 1 <= j < p implies (#[trigger] blocks[j]).heading.stars
            >= blocks[pos.last()].heading.stars by {
            assert(blocks[j].heading.stars >= blocks[pos[m - 1]].heading.stars);
        }
        lemma_join_top(open, pos, blocks, q + 1);
        assert(next_pos(pos, m - 2, n) == p);
        assert(open[m - 2] == grow(blocks[q], nest(blocks.subrange(q + 1, p))));
        assert forall|k: int| 0 <= k < pos2.len() implies #[trigger] open2[k] == grow(
            blocks[pos2[k]],
            nest(blocks.subrange(pos2[k] + 1, next_pos(pos2, k, blocks.len() as int))),
        ) by {
            assert(pos2[k] == pos[k]);
            if k < m - 2 {
                assert(open2[k] == open[k]);
                assert(next_pos(pos2, k, n) == next_pos(pos, k, n));
            } else {
                assert(next_pos(pos2, k, n) == n);
            }
        }
        assert forall|k: int, l: int| 0 <= k < l < pos2.len() implies #[trigger] pos2[k]
            < #[trigger] pos2[l] by {
            assert(pos2[k] == pos[k]);
            assert(pos2[l] == pos[l]);
        }
    }
}

/// Closing the top open section, where it is at least as deep as the section
/// about to arrive, keeps the stack in step with the blocks.
proof fn lemma_close_top(
    roots: Seq<SectionView>,
    open: Seq<SectionView>,
    pos: Seq<int>,
    blocks: Seq<Block>,
    depth: nat,
)
    requires
        nests(roots, open, pos, blocks),
        settled(pos, blocks, depth),
        open.len() > 0,
        open.last().heading.stars >= depth,
    ensures
        nests(closed_roots(roots, open), closed_open(open), pos.drop_last(), blocks),
        settled(pos.drop_last(), blocks, depth),
{
    let m = open.len() as int;
    let n = blocks.len() as int;
    let p = pos[m - 1];
    let pos2 = pos.drop_last();
    lemma_close_placed(open, pos, blocks);
    assert(open[m - 1].heading == blocks[p].heading);
    assert forall|k: int, j: int| 0 <= k < pos2.len() && pos2[k] < j < blocks.len() implies (
    #[trigger] blocks[j]).heading.stars > blocks[#[trigger] pos2[k]].heading.stars by {
        assert(pos2[k] == pos[k]);
    }
    assert forall|k: int, j: int|
        0 <= k < pos2.len() && prev_pos(pos2, k) < j < pos2[k] implies (
    #[trigger] blocks[j]).heading.stars >= blocks[#[trigger] pos2[k]].heading.stars by {
        assert(pos2[k] == pos[k]);
        assert(prev_pos(pos2, k) == prev_pos(pos, k));
    }
    assert forall|j: int| prev_pos(pos, m - 1) < j < n implies (#[trigger] blocks[j]).heading.stars
        >= depth by {
        if j < p {
            assert(blocks[j].heading.stars >= blocks[pos[m - 1]].heading.stars);
        }
    }
    if m >= 2 {
        assert(pos2.last() == prev_pos(pos, m - 1));
        assert(pos2[0] == pos[0]);
    } else {
        assert forall|j: int| 0 <= j < p implies (#[trigger] blocks[j]).heading.stars
            >= blocks[pos.last()].heading.stars by {
            assert(prev_pos(pos, 0) < j);
            assert(blocks[j].heading.stars >= blocks[pos[0]].heading.stars);
        }
        lemma_join_top(open, pos, blocks, 0);
    }
}

/// Opening a section for a block that is deeper than the top open section,
/// once everything above that section is closed, keeps the stack in step with
/// the blocks.
proof fn lemma_open_leaf(
    roots: Seq<SectionView>,
    open: Seq<SectionView>,
    pos: Seq<int>,
    blocks: Seq<Block>,
    block: Block,
)
    requires
        nests(roots, open, pos, blocks),
        settled(pos, blocks, block.heading.stars),
        open.len() > 0 ==> open.last().heading.stars < block.heading.stars,
    ensures
        nests(
            roots,
            open.push(grow(block, Seq::empty())),
            pos.push(blocks.len() as int),
            blocks.push(block),
        ),
        fresh(pos.push(blocks.len() as int), blocks.push(block)),
{
    let m = open.len() as int;
    let n = blocks.len() as int;
    let open2 = open.push(grow(block, Seq::empty()));
    let pos2 = pos.push(n);
    let blocks2 = blocks.push(block);
    assert(nest(Seq::<Block>::empty()) =~= Seq::<SectionView>::empty());
    assert forall|k: int| 0 <= k < pos2.len() implies #[trigger] open2[k] == grow(
        blocks2[pos2[k]],
        nest(blocks2.subrange(pos2[k] + 1, next_pos(pos2, k, blocks2.len() as int))),
    ) by {
        if k < m {
            assert(open2[k] == open[k]);
            assert(pos2[k] == pos[k]);
            assert(next_pos(pos2, k, n + 1) == next_pos(pos, k, n));
            assert(blocks2.subrange(pos[k] + 1, next_pos(pos, k, n)) =~= blocks.subrange(
                pos[k] + 1,
                next_pos(pos, k, n),
            ));
        } else {
            assert(blocks2.subrange(n + 1, n + 1) =~= Seq::<Block>::empty());
        }
    }
    assert forall|k: int, l: int| 0 <= k < l < pos2.len() implies #[trigger] pos2[k]
        < #[trigger] pos2[l] by {
        assert(pos2[k] == pos[k]);
        if l < m {
            assert(pos2[l] == pos[l]);
        }
    }
    assert(placed(open2, pos2, blocks2));
    let first = if m > 0 {
        pos[0]
    } else {
        n
    };
    assert(pos2[0] == first);
    assert(blocks2.subrange(0, first) =~= blocks.subrange(0, first));
    assert(rooted(roots, pos2, blocks2));
    assert forall|k: int, j: int| 0 <= k < pos2.len() && pos2[k] < j < blocks2.len() implies (
    #[trigger] blocks2[j]).heading.stars > blocks2[#[trigger] pos2[k]].heading.stars by {
        assert(pos2[k] == pos[k]);
        assert(open[m - 1].heading == blocks[pos[m - 1]].heading);
        if j < n {
            assert(blocks2[j] == blocks[j]);
            assert(blocks[j].heading.stars > blocks[pos[k]].heading.stars);
        } else if k < m - 1 {
            assert(blocks[pos[m - 1]].heading.stars > blocks[pos[k]].heading.stars);
        }
    }
    assert forall|k: int, j: int|
        0 <= k < pos2.len() && prev_pos(pos2, k) < j < pos2[k] implies (
    #[trigger] blocks2[j]).heading.stars >= blocks2[#[trigger] pos2[k]].heading.stars by {
        assert(blocks2[j] == blocks[j]);
        if k < m {
            assert(pos2[k] == pos[k]);
            assert(prev_pos(pos2, k) == prev_pos(pos, k));
            assert(blocks[j].heading.stars >= blocks[pos[k]].heading.stars);
        }
    }
}

/// Nests sections one by one in the order of their headings.
///
/// The sections that may still take a child are kept on a stack, shallowest at
/// the bottom. A section is closed, and handed to the one below it or to the
/// roots, as soon as a heading arrives that is not deeper than it.
pub struct Outliner {
    roots: Vec<Section>,
    open: Vec<Section>,
    blocks: Ghost<Seq<Block>>,
    pos: Ghost<Seq<int>>,
}

impl Outliner {
    /// The blocks taken so far, in their order.
    pub closed spec fn blocks(&self) -> Seq<Block> {
        self.blocks@
    }

    /// The stack and the roots are in step with the blocks taken so far.
    pub closed spec fn wf(&self) -> bool {
        &&& nests(views(self.roots@), views(self.open@), self.pos@, self.blocks@)
        &&& fresh(self.pos@, self.blocks@)
    }

    spec fn closing(&self, depth: nat) -> bool {
        &&& nests(views(self.roots@), views(self.open@), self.pos@, self.blocks@)
        &&& settled(self.pos@, self.blocks@, depth)
    }

    /// An outliner that has taken no block yet.
    pub fn new() -> (outliner: Outliner)
        ensures
            outliner.wf(),
            outliner.blocks() == Seq::<Block>::empty(),
    {
        let outliner = Outliner {
            roots: Vec::new(),
            open: Vec::new(),
            blocks: Ghost(Seq::empty()),
            pos: Ghost(Seq::empty()),
        };
        proof {
            assert(views(outliner.roots@) =~= Seq::<SectionView>::empty());
            assert(views(outliner.open@) =~= Seq::<SectionView>::empty());
            assert(outliner.blocks@.subrange(0, 0) =~= Seq::<Block>::empty());
            assert(nest(Seq::<Block>::empty()) =~= Seq::<SectionView>::empty());
        }
        outliner
    }

    /// Closes the top open section: hands it to the section below it, or to
    /// the roots where there is none.
    fn close_top(&mut self, Ghost(depth): Ghost<nat>)
        requires
            old(self).closing(depth),
            old(self).open@.len() > 0,
            old(self).open@.last().heading.stars >= depth,
        ensures
            final(self).closing(depth),
            final(self).blocks@ == old(self).blocks@,
            final(self).open@.len() == old(self).open@.len() - 1,
    {
        proof {
            lemma_close_top(
                views(self.roots@),
                views(self.open@),
                self.pos@,
                self.blocks@,
                depth,
            );
        }
        let ghost before = views(self.open@);
        let ghost roots_before = views(self.roots@);
        let done = self.open.pop().unwrap();
        match self.open.pop() {
            Some(parent) => {
                let mut parent = parent;
                proof {
                    lemma_children_views(parent);
                }
                let ghost above = parent@;
                parent.children.push(done);
                proof {
                    lemma_children_views(parent);
                    assert(parent@.children =~= above.children.push(done@));
                }
                self.open.push(parent);
                proof {
                    assert(views(self.open@) =~= closed_open(before));
                    assert(views(self.roots@) =~= closed_roots(roots_before, before));
                }
            },
            None => {
                self.roots.push(done);
                proof {
                    assert(views(self.open@) =~= closed_open(before));
                    assert(views(self.roots@) =~= closed_roots(roots_before, before));
                }
            },
        }
        self.pos = Ghost(self.pos@.drop_last());
    }

    /// Closes open sections from the top down to the first that is shallower
    /// than `depth`.
    fn close_until(&mut self, depth: usize)
        requires
            old(self).closing(depth as nat),
        ensures
            final(self).closing(depth as nat),
            final(self).blocks@ == old(self).blocks@,
            final(self).open@.len() > 0 ==> final(self).open@.last().heading.stars < depth,
    {
        while self.open.len() > 0 && self.open[self.open.len() - 1].heading.stars >= depth
            invariant
                self.closing(depth as nat),
                self.blocks@ == old(self).blocks@,
            decreases self.open@.len(),
        {
            self.close_top(Ghost(depth as nat));
        }
    }

    /// Takes the next section, given as its heading and the text below it.
    pub fn push(&mut self, heading: Heading, content: String)
        requires
            old(self).wf(),
        ensures
            final(self).wf(),
            final(self).blocks() == old(self).blocks().push(
                Block { heading: heading@, content: content@ },
            ),
    {
        self.close_until(heading.stars);
        let ghost block = Block { heading: heading@, content: content@ };
        let ghost before = views(self.open@);
        proof {
            lemma_open_leaf(views(self.roots@), before, self.pos@, self.blocks@, block);
        }
        let section = Section { heading, content, children: Vec::new() };
        proof {
            lemma_children_views(section);
            assert(section@.children =~= Seq::<SectionView>::empty());
        }
        self.open.push(section);
        proof {
            assert(views(self.open@) =~= before.push(grow(block, Seq::empty())));
        }
        self.pos = Ghost(self.pos@.push(self.blocks@.len() as int));
        self.blocks = Ghost(self.blocks@.push(block));
    }

    /// Closes every open section and hands out the forest.
    pub fn finish(self) -> (forest: Vec<Section>)
        requires
            self.wf(),
        ensures
            views(forest@) == nest(self.blocks()),
    {
        let mut outliner = self;
        outliner.close_until(0);
        proof {
            assert(outliner.blocks@.subrange(0, outliner.blocks@.len() as int) =~= outliner.blocks@);
        }
        outliner.roots
    }
}

} // verus!
