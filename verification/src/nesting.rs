//! How a flat run of parsed blocks nests into a forest, and what holds of it.

use vstd::prelude::*;
use crate::section::{HeadingView, SectionView};

verus! {

/// A parsed block before it is placed in the tree: a heading and the text
/// below it.
pub struct Block {
    pub heading: HeadingView,
    pub content: Seq<char>,
}

/// The section that `block` heads, with `children` nested under it.
pub open spec fn grow(block: Block, children: Seq<SectionView>) -> SectionView {
    SectionView { heading: block.heading, content: block.content, children }
}

/// Length of the longest prefix of `blocks` whose headings are all deeper
/// than `depth`.
pub open spec fn deeper_run(blocks: Seq<Block>, depth: nat) -> nat
    decreases blocks.len(),
{
    if blocks.len() > 0 && blocks[0].heading.stars > depth {
        1 + deeper_run(blocks.drop_first(), depth)
    } else {
        0
    }
}

/// The forest that `blocks` stand for: the first block takes as children the
/// forest of the blocks that follow it up to the next one that is not deeper
/// than it; the blocks from that one on are its later siblings.
pub open spec fn nest(blocks: Seq<Block>) -> Seq<SectionView>
    decreases blocks.len(),
{
    if blocks.len() == 0 {
        Seq::empty()
    } else {
        let rest = blocks.drop_first();
        let k = deeper_run(rest, blocks[0].heading.stars) as int;
        proof {
            lemma_deeper_run_bound(rest, blocks[0].heading.stars);
        }
        seq![grow(blocks[0], nest(rest.subrange(0, k)))] + nest(rest.subrange(k, rest.len() as int))
    }
}

/// A run of deeper blocks is no longer than the blocks it is taken from.
pub proof fn lemma_deeper_run_bound(blocks: Seq<Block>, depth: nat)
    ensures
        deeper_run(blocks, depth) <= blocks.len(),
    decreases blocks.len(),
{
    if blocks.len() > 0 {
        lemma_deeper_run_bound(blocks.drop_first(), depth);
    }
}

/// `deeper_run(blocks, depth)` is the one `k` up to which every block is
/// deeper than `depth` and at which `blocks` ends or a block is not.
pub proof fn lemma_deeper_run(blocks: Seq<Block>, depth: nat, k: int)
    requires
        0 <= k <= blocks.len(),
        forall|j: int| 0 <= j < k ==> blocks[j].heading.stars > depth,
        k == blocks.len() || blocks[k].heading.stars <= depth,
    ensures
        deeper_run(blocks, depth) == k,
    decreases blocks.len(),
{
    if k > 0 {
        lemma_deeper_run(blocks.drop_first(), depth, k - 1);
    }
}

/// Up to `deeper_run(blocks, depth)` every block is deeper than `depth`, and
/// the block there, if any, is not.
pub proof fn lemma_deeper_run_holds(blocks: Seq<Block>, depth: nat)
    ensures
        deeper_run(blocks, depth) <= blocks.len(),
        forall|j: int| 0 <= j < deeper_run(blocks, depth) ==> blocks[j].heading.stars > depth,
        deeper_run(blocks, depth) < blocks.len() ==> blocks[deeper_run(blocks, depth) as int].heading.stars
            <= depth,
    decreases blocks.len(),
{
    if blocks.len() > 0 && blocks[0].heading.stars > depth {
        let rest = blocks.drop_first();
        lemma_deeper_run_holds(rest, depth);
        assert forall|j: int| 0 <= j < deeper_run(blocks, depth) implies blocks[j].heading.stars
            > depth by {
            if j > 0 {
                assert(blocks[j] == rest[j - 1]);
            }
        }
    }
}

/// Where every block after the first is deeper than the first, the blocks
/// nest into one tree.
pub proof fn lemma_nest_single(blocks: Seq<Block>)
    requires
        blocks.len() > 0,
        forall|j: int|
            1 <= j < blocks.len() ==> (#[trigger] blocks[j]).heading.stars > blocks[0].heading.stars,
    ensures
        nest(blocks) == seq![grow(blocks[0], nest(blocks.drop_first()))],
{
    let rest = blocks.drop_first();
    lemma_deeper_run(rest, blocks[0].heading.stars, rest.len() as int);
    assert(rest.subrange(0, rest.len() as int) =~= rest);
    assert(rest.subrange(rest.len() as int, rest.len() as int) =~= Seq::<Block>::empty());
    assert(nest(Seq::<Block>::empty()) =~= Seq::<SectionView>::empty());
}

/// Blocks that open with one no deeper than any block before them nest apart
/// from those before them.
pub proof fn lemma_nest_split(front: Seq<Block>, back: Seq<Block>)
    requires
        back.len() > 0 ==> forall|j: int|
            0 <= j < front.len() ==> (#[trigger] front[j]).heading.stars >= back[0].heading.stars,
    ensures
        nest(front + back) == nest(front) + nest(back),
    decreases front.len(),
{
    if front.len() == 0 {
        assert(front + back =~= back);
        assert(nest(front) + nest(back) =~= nest(back));
    } else {
        let all = front + back;
        let depth = front[0].heading.stars;
        let rest = front.drop_first();
        let k = deeper_run(rest, depth) as int;
        lemma_deeper_run_holds(rest, depth);
        assert(all.drop_first() =~= rest + back);
        lemma_deeper_run(rest + back, depth, k);
        assert((rest + back).subrange(0, k) =~= rest.subrange(0, k));
        let tail = rest.subrange(k, rest.len() as int);
        assert((rest + back).subrange(k, (rest + back).len() as int) =~= tail + back);
        lemma_nest_split(tail, back);
        assert(nest(all) =~= nest(front) + nest(back));
    }
}

/// Number of sections in `forest`, nested ones included.
pub open spec fn node_count(forest: Seq<SectionView>) -> nat
    decreases forest,
{
    if forest.len() == 0 {
        0
    } else {
        1 + node_count(forest[0].children) + node_count(forest.drop_first())
    }
}

/// The heading and content of every section in `forest`, each section before
/// the sections nested under it, and those before its later siblings.
pub open spec fn flatten(forest: Seq<SectionView>) -> Seq<Block>
    decreases forest,
{
    if forest.len() == 0 {
        Seq::empty()
    } else {
        seq![Block { heading: forest[0].heading, content: forest[0].content }] + flatten(
            forest[0].children,
        ) + flatten(forest.drop_first())
    }
}

/// Every section in the tree `section` is shallower than each of its children.
pub open spec fn well_nested(section: SectionView) -> bool
    decreases section,
{
    forall|i: int|
        0 <= i < section.children.len() ==> {
            &&& (#[trigger] section.children[i]).heading.stars > section.heading.stars
            &&& well_nested(section.children[i])
        }
}

/// Among the roots of `forest`, and among the children of every section in
/// it, no section is deeper than the one before it.
pub open spec fn ordered(forest: Seq<SectionView>) -> bool
    decreases forest,
{
    &&& forall|i: int|
        0 <= i < forest.len() - 1 ==> forest[i + 1].heading.stars <= (
        #[trigger] forest[i]).heading.stars
    &&& forall|i: int| 0 <= i < forest.len() ==> ordered((#[trigger] forest[i]).children)
}

/// Every tree of `forest` is well nested.
pub open spec fn all_well_nested(forest: Seq<SectionView>) -> bool {
    forall|i: int| 0 <= i < forest.len() ==> well_nested(#[trigger] forest[i])
}

/// A forest has one section for each block it was nested from.
pub proof fn lemma_nest_count(blocks: Seq<Block>)
    ensures
        node_count(nest(blocks)) == blocks.len(),
    decreases blocks.len(),
{
    if blocks.len() > 0 {
        let rest = blocks.drop_first();
        let k = deeper_run(rest, blocks[0].heading.stars) as int;
        lemma_deeper_run_bound(rest, blocks[0].heading.stars);
        let inner = rest.subrange(0, k);
        let after = rest.subrange(k, rest.len() as int);
        lemma_nest_count(inner);
        lemma_nest_count(after);
        let tree = grow(blocks[0], nest(inner));
        assert((seq![tree] + nest(after)).drop_first() =~= nest(after));
    }
}

/// A forest holds the blocks it was nested from, in their order.
pub proof fn lemma_nest_flatten(blocks: Seq<Block>)
    ensures
        flatten(nest(blocks)) == blocks,
    decreases blocks.len(),
{
    if blocks.len() > 0 {
        let rest = blocks.drop_first();
        let k = deeper_run(rest, blocks[0].heading.stars) as int;
        lemma_deeper_run_bound(rest, blocks[0].heading.stars);
        let inner = rest.subrange(0, k);
        let after = rest.subrange(k, rest.len() as int);
        lemma_nest_flatten(inner);
        lemma_nest_flatten(after);
        let tree = grow(blocks[0], nest(inner));
        assert((seq![tree] + nest(after)).drop_first() =~= nest(after));
        assert(seq![blocks[0]] + inner + after =~= blocks);
    } else {
        assert(flatten(nest(blocks)) =~= blocks);
    }
}

/// Where every block is deeper than `depth`, so is every root of their forest.
pub proof fn lemma_nest_roots_deeper(blocks: Seq<Block>, depth: nat)
    requires
        forall|j: int| 0 <= j < blocks.len() ==> (#[trigger] blocks[j]).heading.stars > depth,
    ensures
        forall|i: int| 0 <= i < nest(blocks).len() ==> (#[trigger] nest(blocks)[i]).heading.stars > depth,
    decreases blocks.len(),
{
    if blocks.len() > 0 {
        let rest = blocks.drop_first();
        let k = deeper_run(rest, blocks[0].heading.stars) as int;
        lemma_deeper_run_bound(rest, blocks[0].heading.stars);
        let after = rest.subrange(k, rest.len() as int);
        assert forall|j: int| 0 <= j < after.len() implies (#[trigger] after[j]).heading.stars
            > depth by {
            assert(after[j] == blocks[j + k + 1]);
        }
        lemma_nest_roots_deeper(after, depth);
        assert forall|i: int| 0 <= i < nest(blocks).len() implies (#[trigger] nest(
            blocks,
        )[i]).heading.stars > depth by {
            if i > 0 {
                assert(nest(blocks)[i] == nest(after)[i - 1]);
            }
        }
    }
}

/// In a forest every section is shallower than each of its children, at every
/// level.
pub proof fn lemma_nest_well_nested(blocks: Seq<Block>)
    ensures
        all_well_nested(nest(blocks)),
    decreases blocks.len(),
{
    if blocks.len() > 0 {
        let depth = blocks[0].heading.stars;
        let rest = blocks.drop_first();
        let k = deeper_run(rest, depth) as int;
        lemma_deeper_run_holds(rest, depth);
        let inner = rest.subrange(0, k);
        let after = rest.subrange(k, rest.len() as int);
        lemma_nest_well_nested(inner);
        lemma_nest_well_nested(after);
        lemma_nest_roots_deeper(inner, depth);
        let tree = grow(blocks[0], nest(inner));
        assert(well_nested(tree));
        assert forall|i: int| 0 <= i < nest(blocks).len() implies well_nested(
            #[trigger] nest(blocks)[i],
        ) by {
            if i > 0 {
                assert(nest(blocks)[i] == nest(after)[i - 1]);
            }
        }
    }
}

/// Blocks that all have one depth nest into as many roots, in their order,
/// and none of them has a child.
pub proof fn lemma_nest_flat(blocks: Seq<Block>, depth: nat)
    requires
        forall|j: int| 0 <= j < blocks.len() ==> (#[trigger] blocks[j]).heading.stars == depth,
    ensures
        nest(blocks).len() == blocks.len(),
        forall|i: int|
            0 <= i < blocks.len() ==> #[trigger] nest(blocks)[i] == grow(
                blocks[i],
                Seq::<SectionView>::empty(),
            ),
    decreases blocks.len(),
{
    if blocks.len() > 0 {
        let rest = blocks.drop_first();
        lemma_deeper_run(rest, depth, 0);
        assert(rest.subrange(0, 0) =~= Seq::<Block>::empty());
        assert(rest.subrange(0, rest.len() as int) =~= rest);
        assert(nest(Seq::<Block>::empty()) =~= Seq::<SectionView>::empty());
        lemma_nest_flat(rest, depth);
        assert forall|i: int| 0 <= i < blocks.len() implies #[trigger] nest(blocks)[i] == grow(
            blocks[i],
            Seq::<SectionView>::empty(),
        ) by {
            if i > 0 {
                assert(nest(blocks)[i] == nest(rest)[i - 1]);
                assert(blocks[i] == rest[i - 1]);
            } else {
                assert(nest(blocks)[0] == grow(blocks[0], nest(rest.subrange(0, 0))));
            }
        }
    }
}

/// In a forest no section is deeper than the sibling before it.
pub proof fn lemma_nest_ordered(blocks: Seq<Block>)
    ensures
        ordered(nest(blocks)),
    decreases blocks.len(),
{
    if blocks.len() > 0 {
        let depth = blocks[0].heading.stars;
        let rest = blocks.drop_first();
        let k = deeper_run(rest, depth) as int;
        lemma_deeper_run_holds(rest, depth);
        let inner = rest.subrange(0, k);
        let after = rest.subrange(k, rest.len() as int);
        lemma_nest_ordered(inner);
        lemma_nest_ordered(after);
        let forest = nest(blocks);
        assert forall|i: int| 0 <= i < forest.len() - 1 implies forest[i + 1].heading.stars <= (
        #[trigger] forest[i]).heading.stars by {
            if i > 0 {
                assert(forest[i] == nest(after)[i - 1]);
                assert(forest[i + 1] == nest(after)[i]);
            } else {
                assert(forest[1] == nest(after)[0]);
                assert(after[0] == rest[k]);
            }
        }
        assert forall|i: int| 0 <= i < forest.len() implies ordered(
            (#[trigger] forest[i]).children,
        ) by {
            if i > 0 {
                assert(forest[i] == nest(after)[i - 1]);
            }
        }
    }
}

/// Under a well nested section every block is deeper than the section.
pub proof fn lemma_flatten_deeper(forest: Seq<SectionView>, depth: nat)
    requires
        all_well_nested(forest),
        forall|i: int| 0 <= i < forest.len() ==> (#[trigger] forest[i]).heading.stars > depth,
    ensures
        forall|j: int|
            0 <= j < flatten(forest).len() ==> (#[trigger] flatten(forest)[j]).heading.stars > depth,
    decreases forest,
{
    if forest.len() > 0 {
        let first = forest[0];
        let rest = forest.drop_first();
        assert(well_nested(first));
        assert forall|i: int| 0 <= i < first.children.len() implies well_nested(
            #[trigger] first.children[i],
        ) && first.children[i].heading.stars > depth by {}
        lemma_flatten_deeper(first.children, depth);
        assert forall|i: int| 0 <= i < rest.len() implies well_nested(#[trigger] rest[i])
            && rest[i].heading.stars > depth by {
            assert(rest[i] == forest[i + 1]);
        }
        lemma_flatten_deeper(rest, depth);
        let under = flatten(first.children);
        let all = flatten(forest);
        assert forall|j: int| 0 <= j < all.len() implies (#[trigger] all[j]).heading.stars
            > depth by {
            if j == 0 {
                assert(all[0].heading == first.heading);
            } else if j < 1 + under.len() {
                assert(all[j] == under[j - 1]);
            } else {
                assert(all[j] == flatten(rest)[j - 1 - under.len()]);
            }
        }
    }
}

/// The forest of some blocks is the only one that holds them in their order,
/// in which every section is shallower than its children, and in which no
/// section is deeper than the sibling before it.
pub proof fn lemma_nest_unique(forest: Seq<SectionView>, blocks: Seq<Block>)
    requires
        flatten(forest) == blocks,
        all_well_nested(forest),
        ordered(forest),
    ensures
        forest == nest(blocks),
    decreases forest,
{
    if forest.len() == 0 {
        assert(nest(blocks) =~= forest);
    } else {
        let first = forest[0];
        let rest = forest.drop_first();
        let depth = first.heading.stars;
        let under = flatten(first.children);
        let later = flatten(rest);
        let head = Block { heading: first.heading, content: first.content };
        assert(blocks =~= seq![head] + under + later);
        assert(blocks.drop_first() =~= under + later);
        assert(well_nested(first));
        assert forall|i: int| 0 <= i < first.children.len() implies well_nested(
            #[trigger] first.children[i],
        ) && first.children[i].heading.stars > depth by {}
        lemma_flatten_deeper(first.children, depth);
        assert forall|i: int| 0 <= i < rest.len() implies well_nested(#[trigger] rest[i]) by {
            assert(rest[i] == forest[i + 1]);
        }
        assert(ordered(rest)) by {
            assert forall|i: int| 0 <= i < rest.len() - 1 implies rest[i + 1].heading.stars <= (
            #[trigger] rest[i]).heading.stars by {
                assert(rest[i] == forest[i + 1]);
                assert(rest[i + 1] == forest[i + 2]);
            }
            assert forall|i: int| 0 <= i < rest.len() implies ordered(
                (#[trigger] rest[i]).children,
            ) by {
                assert(rest[i] == forest[i + 1]);
            }
        }
        if rest.len() > 0 {
            assert(rest[0] == forest[1]);
            assert(later[0].heading == rest[0].heading);
        } else {
            assert(later =~= Seq::<Block>::empty());
        }
        assert forall|j: int| 0 <= j < under.len() implies (#[trigger] (under + later)[j]).heading.stars
            > depth by {
            assert((under + later)[j] == under[j]);
        }
        if under.len() < (under + later).len() {
            assert((under + later)[under.len() as int] == later[0]);
        }
        lemma_deeper_run(under + later, depth, under.len() as int);
        assert((under + later).subrange(0, under.len() as int) =~= under);
        assert((under + later).subrange(under.len() as int, (under + later).len() as int) =~= later);
        lemma_nest_unique(first.children, under);
        lemma_nest_unique(rest, later);
        assert(first == grow(blocks[0], first.children));
        assert(forest =~= seq![first] + rest);
    }
}

} // verus!
