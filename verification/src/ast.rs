//! The program tree and its mathematical image.

use vstd::prelude::*;

verus! {

/// One node of a parsed program tree.
///
/// The leaf variants are the six primitive operations.  `Brackets` owns a
/// single child subtree, executed repeatedly while the cell under the
/// cursor is nonzero.  `Many` is an ordered composition, executed in
/// order; the top level of every parsed program is a `Many`.
#[derive(Debug, PartialEq, Eq)]
pub enum LanguageNode {
    IncrementPointer,
    DecrementPointer,
    IncrementCounter,
    DecrementCounter,
    ReadFromStd,
    WriteToStd,
    Brackets(Box<LanguageNode>),
    Many(Vec<LanguageNode>),
}

/// The mathematical image of a tree: the same shape with `Vec` replaced
/// by `Seq`, so that contracts can speak of trees by value.
pub enum NodeView {
    IncrementPointer,
    DecrementPointer,
    IncrementCounter,
    DecrementCounter,
    ReadFromStd,
    WriteToStd,
    Brackets(Box<NodeView>),
    Many(Seq<NodeView>),
}

impl LanguageNode {
    /// The mathematical image of this tree.
    pub open spec fn deep_view(self) -> NodeView
        decreases self,
    {
        match self {
            LanguageNode::IncrementPointer => NodeView::IncrementPointer,
            LanguageNode::DecrementPointer => NodeView::DecrementPointer,
            LanguageNode::IncrementCounter => NodeView::IncrementCounter,
            LanguageNode::DecrementCounter => NodeView::DecrementCounter,
            LanguageNode::ReadFromStd => NodeView::ReadFromStd,
            LanguageNode::WriteToStd => NodeView::WriteToStd,
            LanguageNode::Brackets(inner) => NodeView::Brackets(Box::new((*inner).deep_view())),
            LanguageNode::Many(items) => NodeView::Many(deep_view_seq(items@)),
        }
    }
}

/// The tree-rewriting hook.  No rewrite is implemented: every tree is
/// declined, and a caller keeps the tree it already has.
pub fn optimise(n: LanguageNode) -> (r: Option<LanguageNode>)
    ensures
        r is None,
    decreases n,
{
    match n {
        LanguageNode::Brackets(inner) => {
            let i_opt = optimise(*inner);
            match i_opt {
                Some(o) => Some(LanguageNode::Brackets(Box::new(o))),
                None => None,
            }
        },
        LanguageNode::Many(_) => None,
        _ => None,
    }
}

/// The mathematical image of an ordered list of trees, element by element.
pub open spec fn deep_view_seq(items: Seq<LanguageNode>) -> Seq<NodeView>
    decreases items,
{
    if items.len() == 0 {
        Seq::empty()
    } else {
        seq![items[0].deep_view()] + deep_view_seq(items.subrange(1, items.len() as int))
    }
}

/// Appending one tree to a list appends its image to the list's image.
pub proof fn lemma_deep_view_seq_push(items: Seq<LanguageNode>, x: LanguageNode)
    ensures
        deep_view_seq(items.push(x)) == deep_view_seq(items).push(x.deep_view()),
    decreases items,
{
    if items.len() == 0 {
        assert(items.push(x).subrange(1, 1) =~= Seq::<LanguageNode>::empty());
        assert(deep_view_seq(items.push(x).subrange(1, 1)) =~= Seq::<NodeView>::empty());
        assert(items =~= Seq::<LanguageNode>::empty());
        assert(deep_view_seq(items) =~= Seq::<NodeView>::empty());
        assert(items.push(x)[0] == x);
        assert(deep_view_seq(items.push(x)) =~= deep_view_seq(items).push(x.deep_view()));
    } else {
        let tail = items.subrange(1, items.len() as int);
        assert(items.push(x).subrange(1, items.len() as int + 1) =~= tail.push(x));
        lemma_deep_view_seq_push(tail, x);
        assert(deep_view_seq(items.push(x)) =~= deep_view_seq(items).push(x.deep_view()));
    }
}

/// The image of a list has the same length, and images element by element.
pub proof fn lemma_deep_view_seq_index(items: Seq<LanguageNode>)
    ensures
        deep_view_seq(items).len() == items.len(),
        forall|i: int|
            0 <= i < items.len() ==> deep_view_seq(items)[i] == items[i].deep_view(),
    decreases items,
{
    if items.len() > 0 {
        let tail = items.subrange(1, items.len() as int);
        lemma_deep_view_seq_index(tail);
        assert forall|i: int| 0 <= i < items.len() implies deep_view_seq(items)[i]
            == items[i].deep_view() by {
            if i >= 1 {
                assert(deep_view_seq(items)[i] == deep_view_seq(tail)[i - 1]);
                assert(tail[i - 1] == items[i]);
            }
        }
    }
}

/// The number of nodes in a tree, counting every variant as one.
pub open spec fn node_size(n: NodeView) -> nat
    decreases n,
{
    match n {
        NodeView::Brackets(inner) => 1 + node_size(*inner),
        NodeView::Many(items) => 1 + seq_size(items),
        _ => 1,
    }
}

/// The total number of nodes in an ordered list of trees.
pub open spec fn seq_size(items: Seq<NodeView>) -> nat
    decreases items,
{
    if items.len() == 0 {
        0
    } else {
        node_size(items[0]) + seq_size(items.subrange(1, items.len() as int))
    }
}

/// The number of `Brackets` nodes in a tree.
pub open spec fn loop_count(n: NodeView) -> nat
    decreases n,
{
    match n {
        NodeView::Brackets(inner) => 1 + loop_count(*inner),
        NodeView::Many(items) => loop_count_seq(items),
        _ => 0,
    }
}

/// The total number of `Brackets` nodes in an ordered list of trees.
pub open spec fn loop_count_seq(items: Seq<NodeView>) -> nat
    decreases items,
{
    if items.len() == 0 {
        0
    } else {
        loop_count(items[0]) + loop_count_seq(items.subrange(1, items.len() as int))
    }
}

} // verus!
