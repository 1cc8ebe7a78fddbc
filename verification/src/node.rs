use vstd::prelude::*;

verus! {

/// A node of the directory tree: either a leaf holding a file name (or an
/// inline error text), or a directory holding the single path key it stands
/// for together with its children, in enumeration order.
pub enum FSNode {
    File(String),
    Dir { key: String, children: Vec<FSNode> },
}

/// The mathematical shape of an `FSNode`: strings become character
/// sequences, the children a sequence of shapes.
pub enum NodeView {
    File(Seq<char>),
    Dir { key: Seq<char>, children: Seq<NodeView> },
}

/// The shape of one tree node.
pub open spec fn node_view(n: FSNode) -> NodeView
    decreases n,
{
    match n {
        FSNode::File(s) => NodeView::File(s@),
        FSNode::Dir { key, children } => NodeView::Dir {
            key: key@,
            children: nodes_view(children@),
        },
    }
}

/// The shapes of a sequence of tree nodes, in order.
pub open spec fn nodes_view(s: Seq<FSNode>) -> Seq<NodeView>
    decreases s,
{
    if s.len() == 0 {
        Seq::empty()
    } else {
        nodes_view(s.drop_last()).push(node_view(s.last()))
    }
}

impl View for FSNode {
    type V = NodeView;

    open spec fn view(&self) -> NodeView {
        node_view(*self)
    }
}

/// A sequence of nodes and its shape have the same length, and the shapes
/// line up index by index.
pub broadcast proof fn lemma_nodes_view_len(s: Seq<FSNode>)
    ensures
        #[trigger] nodes_view(s).len() == s.len(),
        forall|i: int| 0 <= i < s.len() ==> nodes_view(s)[i] == node_view(s[i]),
    decreases s,
{
    if s.len() > 0 {
        lemma_nodes_view_len(s.drop_last());
        assert forall|i: int| 0 <= i < s.len() implies nodes_view(s)[i] == node_view(s[i]) by {
            if i < s.len() - 1 {
                assert(s.drop_last()[i] == s[i]);
            }
        }
    }
}

/// Appending a node appends its shape.
pub broadcast proof fn lemma_nodes_view_push(s: Seq<FSNode>, n: FSNode)
    ensures
        #[trigger] nodes_view(s.push(n)) == nodes_view(s).push(node_view(n)),
{
    assert(s.push(n).drop_last() =~= s);
    assert(s.push(n).last() == n);
}

} // verus!
