//! The navigation model: ordered trees of links, one per component
//! version.

use vstd::prelude::*;

verus! {

/// One navigation entry.
#[derive(Debug, Default)]
pub struct NavItem {
    /// The entry's inline content as rendered HTML (link or plain text).
    pub html: String,
    /// The plain-text label.
    pub text: String,
    /// The destination as a site-root-relative URL, when the entry links
    /// to a page in the site.
    pub url: Option<String>,
    /// Child entries.
    pub children: Vec<NavItem>,
}

/// The navigation tree of one component version.
#[derive(Debug, Default)]
pub struct NavTree {
    /// The top-level entries.
    pub items: Vec<NavItem>,
}

/// The entries of a forest in depth-first order: each entry, then its
/// children's entries, then the next sibling.
pub open spec fn preorder(items: Seq<NavItem>) -> Seq<NavItem>
    decreases items,
{
    if items.len() == 0 {
        Seq::empty()
    } else {
        let first = items[0];
        proof {
            assert(decreases_to!(items => items[0]));
            assert(decreases_to!(items[0] => items[0].children));
            assert(decreases_to!(items => items.drop_first()));
        }
        seq![first] + preorder(first.children@) + preorder(items.drop_first())
    }
}

fn push_all<'a>(items: &'a [NavItem], out: &mut Vec<&'a NavItem>)
    ensures
        final(out)@.map_values(|x: &NavItem| *x) == old(out)@.map_values(|x: &NavItem| *x)
            + preorder(items@),
    decreases items@,
{
    let ghost start = out@.map_values(|x: &NavItem| *x);
    let mut i: usize = 0;
    assert(items@.skip(0) == items@);
    while i < items.len()
        invariant
            i <= items.len(),
            start + preorder(items@) == out@.map_values(|x: &NavItem| *x) + preorder(items@.skip(i as int)),
        decreases items.len() - i,
    {
        let item = &items[i];
        let ghost before = out@.map_values(|x: &NavItem| *x);
        assert(items@.skip(i as int).drop_first() == items@.skip(i + 1));
        assert(items@.skip(i as int)[0] == *item);
        out.push(item);
        assert(out@.map_values(|x: &NavItem| *x) =~= before.push(*item));
        assert(decreases_to!(items@ => items@[i as int]));
        push_all(item.children.as_slice(), out);
        i += 1;
        assert(before + preorder(items@.skip(i - 1)) =~= before.push(*item) + preorder(item.children@) + preorder(items@.skip(i as int)));
    }
    assert(items@.skip(i as int) == Seq::<NavItem>::empty());
    assert(preorder(Seq::<NavItem>::empty()) == Seq::<NavItem>::empty());
}

impl NavTree {
    /// Depth-first iteration over all entries.
    pub fn walk(&self) -> (r: Vec<&NavItem>)
        ensures
            r@.map_values(|x: &NavItem| *x) == preorder(self.items@),
    {
        let mut out: Vec<&NavItem> = Vec::new();
        push_all(self.items.as_slice(), &mut out);
        assert(Seq::<&NavItem>::empty().map_values(|x: &NavItem| *x) =~= Seq::<NavItem>::empty());
        out
    }
}

} // verus!
