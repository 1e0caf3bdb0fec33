//! Directory entries and trees of them.

use vstd::prelude::*;

verus! {

/// One child of a directory: its name and whether it is a directory.
#[derive(Clone, Debug, PartialEq, Eq)]
pub struct Entry {
    pub name: String,
    pub is_dir: bool,
}

/// An entry as a mathematical value.
pub struct EntryView {
    pub name: Seq<char>,
    pub is_dir: bool,
}

impl View for Entry {
    type V = EntryView;

    open spec fn view(&self) -> EntryView {
        EntryView { name: self.name@, is_dir: self.is_dir }
    }
}

impl DeepView for Entry {
    type V = EntryView;

    open spec fn deep_view(&self) -> EntryView {
        self.view()
    }
}

/// An entry together with what a listing of it yields: the children of a
/// readable directory, in listing order, and nothing for a file or for a
/// directory that cannot be read.
#[derive(Debug, PartialEq, Eq)]
pub struct Node {
    pub entry: Entry,
    pub children: Vec<Node>,
}

/// A tree of entries as a mathematical value.
pub struct NodeView {
    pub entry: EntryView,
    pub children: Seq<NodeView>,
}

impl View for Node {
    type V = NodeView;

    open spec fn view(&self) -> NodeView {
        self.deep_view()
    }
}

impl DeepView for Node {
    type V = NodeView;

    open spec fn deep_view(&self) -> NodeView
        decreases self,
    {
        NodeView { entry: self.entry@, children: forest_view(self.children@) }
    }
}

/// The views of a sequence of trees, in order.
pub open spec fn forest_view(nodes: Seq<Node>) -> Seq<NodeView>
    decreases nodes,
{
    if nodes.len() == 0 {
        Seq::empty()
    } else {
        forest_view(nodes.drop_last()).push(nodes.last().deep_view())
    }
}

/// A value that stands in a listing for one entry of a directory.
pub(crate) trait Listed {
    /// The entry, as a mathematical value.
    spec fn listed(&self) -> EntryView;

    /// The entry.
    fn entry(&self) -> (entry: &Entry)
        ensures
            entry@ == self.listed(),
    ;
}

impl Listed for Entry {
    open spec fn listed(&self) -> EntryView {
        self@
    }

    fn entry(&self) -> (entry: &Entry) {
        self
    }
}

impl Listed for Node {
    open spec fn listed(&self) -> EntryView {
        self.entry@
    }

    fn entry(&self) -> (entry: &Entry) {
        &self.entry
    }
}

/// The entries that a sequence of listed values stands for.
pub(crate) open spec fn listing_of<T: Listed>(items: Seq<T>) -> Seq<EntryView> {
    Seq::new(items.len(), |i: int| items[i].listed())
}

/// The entries of a sequence of trees, without their children.
pub open spec fn entries_of(nodes: Seq<NodeView>) -> Seq<EntryView> {
    Seq::new(nodes.len(), |i: int| nodes[i].entry)
}

/// `forest_view` views each tree in its place.
pub proof fn lemma_forest_view(nodes: Seq<Node>)
    ensures
        forest_view(nodes).len() == nodes.len(),
        forall|i: int| 0 <= i < nodes.len() ==> forest_view(nodes)[i] == nodes[i].deep_view(),
    decreases nodes.len(),
{
    if nodes.len() > 0 {
        lemma_forest_view(nodes.drop_last());
        assert(forest_view(nodes) == forest_view(nodes.drop_last()).push(nodes.last().deep_view()));
        assert(forest_view(nodes).len() == nodes.len());
    } else {
        assert(forest_view(nodes) == Seq::<NodeView>::empty());
        assert(forest_view(nodes).len() == 0);
    }
}

/// The view of a vector of trees holds the view of each tree, and the view
/// of a tree holds the views of its children.
pub proof fn lemma_node_view(nodes: &Vec<Node>)
    ensures
        nodes.deep_view() == forest_view(nodes@),
        forall|i: int|
            0 <= i < nodes.len() ==> (#[trigger] nodes[i]).children.deep_view()
                == nodes.deep_view()[i].children,
{
    lemma_forest_view(nodes@);
    assert(nodes.deep_view() =~= forest_view(nodes@));
    assert forall|i: int| 0 <= i < nodes.len() implies (#[trigger] nodes[i]).children.deep_view()
        == nodes.deep_view()[i].children by {
        lemma_forest_view(nodes[i].children@);
        assert(nodes[i].children.deep_view() =~= forest_view(nodes[i].children@));
    }
}

impl Entry {
    /// An entry of the given name and type.
    pub fn new(name: &str, is_dir: bool) -> (entry: Entry)
        ensures
            entry@ == (EntryView { name: name@, is_dir }),
    {
        Entry { name: name.to_owned(), is_dir }
    }
}

impl Node {
    /// A file: an entry that is no directory and has nothing below it.
    pub fn file(name: &str) -> (node: Node)
        ensures
            node.deep_view() == (NodeView {
                entry: EntryView { name: name@, is_dir: false },
                children: Seq::empty(),
            }),
    {
        let node = Node { entry: Entry::new(name, false), children: Vec::new() };
        proof {
            lemma_forest_view(node.children@);
            assert(node.deep_view().children =~= Seq::<NodeView>::empty());
        }
        node
    }

    /// A directory and what a listing of it yields.
    pub fn dir(name: &str, children: Vec<Node>) -> (node: Node)
        ensures
            node.deep_view() == (NodeView {
                entry: EntryView { name: name@, is_dir: true },
                children: children.deep_view(),
            }),
    {
        proof {
            lemma_forest_view(children@);
            assert(forest_view(children@) =~= children.deep_view());
        }
        Node { entry: Entry::new(name, true), children }
    }
}

} // verus!
