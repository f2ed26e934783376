//! The tree of sections and its mathematical model.

use vstd::prelude::*;

verus! {

/// What a heading line says: its depth and its title.
#[derive(Debug)]
pub struct Heading {
    pub stars: usize,
    pub keyword: String,
    pub title: String,
}

/// A heading, the text below it, and the deeper sections nested under it.
#[derive(Debug)]
pub struct Section {
    pub heading: Heading,
    pub content: String,
    pub children: Vec<Section>,
}

/// The model of a [`Heading`].
pub struct HeadingView {
    pub stars: nat,
    pub keyword: Seq<char>,
    pub title: Seq<char>,
}

/// The model of a [`Section`]: a tree.
pub struct SectionView {
    pub heading: HeadingView,
    pub content: Seq<char>,
    pub children: Seq<SectionView>,
}

impl View for Heading {
    type V = HeadingView;

    open spec fn view(&self) -> HeadingView {
        HeadingView { stars: self.stars as nat, keyword: self.keyword@, title: self.title@ }
    }
}

/// The tree that `section` and the sections under it stand for.
pub open spec fn model(section: Section) -> SectionView
    decreases section,
{
    SectionView {
        heading: section.heading@,
        content: section.content@,
        children: Seq::new(
            section.children@.len(),
            |i: int|
                if 0 <= i < section.children.len() {
                    model(section.children[i])
                } else {
                    arbitrary()
                },
        ),
    }
}

impl View for Section {
    type V = SectionView;

    open spec fn view(&self) -> SectionView {
        model(*self)
    }
}

/// The models of `sections`, in their order.
pub open spec fn views(sections: Seq<Section>) -> Seq<SectionView> {
    Seq::new(sections.len(), |i: int| sections[i]@)
}

/// The children of a section's model are the models of its children.
pub proof fn lemma_children_views(section: Section)
    ensures
        section@.children == views(section.children@),
{
    assert(section@.children.len() == section.children@.len());
    assert forall|i: int| 0 <= i < section.children@.len() implies section@.children[i] == views(
        section.children@,
    )[i] by {
        assert(section@.children[i] == section.children[i]@);
    }
    assert(section@.children =~= views(section.children@));
}

impl Clone for Heading {
    fn clone(&self) -> (copy: Heading)
        ensures
            copy@ == self@,
    {
        Heading { stars: self.stars, keyword: self.keyword.clone(), title: self.title.clone() }
    }
}

impl Clone for Section {
    fn clone(&self) -> (copy: Section)
        ensures
            copy@ == self@,
        decreases self,
    {
        let mut children: Vec<Section> = Vec::new();
        let mut i: usize = 0;
        while i < self.children.len()
            invariant
                i <= self.children.len(),
                children.len() == i,
                forall|j: int| 0 <= j < i ==> (#[trigger] children[j])@ == self.children[j]@,
            decreases self.children.len() - i,
        {
            let child = self.children[i].clone();
            children.push(child);
            i = i + 1;
        }
        let copy = Section { heading: self.heading.clone(), content: self.content.clone(), children };
        proof {
            lemma_children_views(copy);
            lemma_children_views(*self);
            assert(views(copy.children@) =~= views(self.children@));
        }
        copy
    }
}

} // verus!
