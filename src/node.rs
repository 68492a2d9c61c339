use vstd::prelude::*;

verus! {

/// One entry of the report: the root of a walk, or an entry found under it.
#[derive(Debug)]
pub struct FileNode {
    pub name: String,
    pub size: u64,
    pub location: Option<String>,
    pub children: Vec<FileNode>,
}

/// The mathematical value of a `FileNode`.
pub ghost struct NodeModel {
    pub name: Seq<char>,
    pub size: u64,
    pub location: Option<Seq<char>>,
    pub children: Seq<NodeModel>,
}

pub open spec fn location_view(l: Option<String>) -> Option<Seq<char>> {
    match l {
        Some(s) => Some(s@),
        None => None,
    }
}

pub open spec fn node_view(n: FileNode) -> NodeModel
    decreases n,
{
    NodeModel {
        name: n.name@,
        size: n.size,
        location: location_view(n.location),
        children: nodes_view(n.children@),
    }
}

/// The models of a sequence of nodes, element by element.
pub open spec fn nodes_view(s: Seq<FileNode>) -> Seq<NodeModel>
    decreases s,
{
    if s.len() == 0 {
        Seq::empty()
    } else {
        nodes_view(s.subrange(0, s.len() - 1)).push(node_view(s[s.len() - 1]))
    }
}

impl View for FileNode {
    type V = NodeModel;

    open spec fn view(&self) -> NodeModel {
        node_view(*self)
    }
}

/// `nodes_view` keeps the length and takes the model of each element.
pub proof fn lemma_nodes_view(s: Seq<FileNode>)
    ensures
        nodes_view(s).len() == s.len(),
        forall|i: int| 0 <= i < s.len() ==> #[trigger] nodes_view(s)[i] == node_view(s[i]),
    decreases s.len(),
{
    if s.len() > 0 {
        lemma_nodes_view(s.subrange(0, s.len() - 1));
    }
}

/// The elements of `v` in reverse order.
pub(crate) fn reversed<T>(v: Vec<T>) -> (r: Vec<T>)
    ensures
        r@.len() == v@.len(),
        forall|j: int| 0 <= j < v@.len() ==> #[trigger] r@[j] == v@[v@.len() - 1 - j],
{
    let ghost orig = v@;
    let mut v = v;
    let mut r: Vec<T> = Vec::new();
    while v.len() > 0
        invariant
            v@ == orig.subrange(0, v@.len() as int),
            r@.len() + v@.len() == orig.len(),
            forall|j: int| 0 <= j < r@.len() ==> #[trigger] r@[j] == orig[orig.len() - 1 - j],
        decreases v@.len(),
    {
        let x = v.pop().unwrap();
        r.push(x);
        assert(v@ =~= orig.subrange(0, v@.len() as int));
    }
    r
}

} // verus!
