use vstd::prelude::*;
use crate::node::{FileNode, NodeModel, nodes_view, lemma_nodes_view, reversed};

verus! {

/// `x` placed into `s` after every element whose size is at least `x.size`,
/// counted from the back; on a descending `s` this keeps the order stable.
pub open spec fn insert_desc(s: Seq<NodeModel>, x: NodeModel) -> Seq<NodeModel>
    decreases s.len(),
{
    if s.len() == 0 {
        seq![x]
    } else if s[s.len() - 1].size >= x.size {
        s.push(x)
    } else {
        insert_desc(s.subrange(0, s.len() - 1), x).push(s[s.len() - 1])
    }
}

/// Stable insertion sort of `s`, largest size first.
pub open spec fn sort_desc(s: Seq<NodeModel>) -> Seq<NodeModel>
    decreases s.len(),
{
    if s.len() == 0 {
        Seq::empty()
    } else {
        insert_desc(sort_desc(s.subrange(0, s.len() - 1)), s[s.len() - 1])
    }
}

/// The tree `m` with the children of every node ordered by size, largest first.
pub open spec fn sort_model(m: NodeModel) -> NodeModel
    decreases m,
{
    NodeModel { children: sort_desc(sort_models(m.children)), ..m }
}

/// `sort_model` applied to each element of `s`.
pub open spec fn sort_models(s: Seq<NodeModel>) -> Seq<NodeModel>
    decreases s,
{
    if s.len() == 0 {
        Seq::empty()
    } else {
        sort_models(s.subrange(0, s.len() - 1)).push(sort_model(s[s.len() - 1]))
    }
}

/// `sort_models` keeps the length and sorts each element.
pub proof fn lemma_sort_models(s: Seq<NodeModel>)
    ensures
        sort_models(s).len() == s.len(),
        forall|i: int| 0 <= i < s.len() ==> #[trigger] sort_models(s)[i] == sort_model(s[i]),
    decreases s.len(),
{
    if s.len() > 0 {
        lemma_sort_models(s.subrange(0, s.len() - 1));
    }
}

proof fn lemma_insert_desc_at(s: Seq<NodeModel>, x: NodeModel, j: int)
    requires
        0 <= j <= s.len(),
        j == 0 || s[j - 1].size >= x.size,
        forall|i: int| j <= i < s.len() ==> #[trigger] s[i].size < x.size,
    ensures
        insert_desc(s, x) == s.insert(j, x),
    decreases s.len(),
{
    if s.len() == 0 {
        assert(s.insert(j, x) =~= seq![x]);
    } else if s[s.len() - 1].size >= x.size {
        assert(s.insert(j, x) =~= s.push(x));
    } else {
        let p = s.subrange(0, s.len() - 1);
        lemma_insert_desc_at(p, x, j);
        assert(p.insert(j, x).push(s[s.len() - 1]) =~= s.insert(j, x));
    }
}

/// Returns `n` with the children of every node ordered by size, largest first.
fn sorted_node(n: FileNode) -> (r: FileNode)
    ensures
        r@ == sort_model(n@),
    decreases n,
{
    let ghost m = n@;
    let FileNode { name, size, location, children } = n;
    let ghost orig = children@;
    let mut rest = reversed(children);
    let mut out: Vec<FileNode> = Vec::new();
    proof {
        assert(orig.subrange(0, 0) =~= Seq::<FileNode>::empty());
        assert(nodes_view(out@) =~= Seq::<NodeModel>::empty());
    }
    while rest.len() > 0
        invariant
            rest@.len() <= orig.len(),
            forall|j: int| 0 <= j < rest@.len() ==> #[trigger] rest@[j] == orig[orig.len() - 1 - j],
            nodes_view(out@) == sort_desc(sort_models(nodes_view(orig.subrange(0, orig.len() - rest@.len())))),
            n.children@ == orig,
        decreases rest@.len(),
    {
        let ghost k = orig.len() - rest@.len();
        let c = rest.pop().unwrap();
        assert(c == n.children@[k]);
        assert(decreases_to!(n => n.children@[k]));
        let c = sorted_node(c);
        let mut j: usize = out.len();
        while j > 0 && out[j - 1].size < c.size
            invariant
                j <= out@.len(),
                forall|i: int| j <= i < out@.len() ==> #[trigger] out@[i].size < c.size,
            decreases j,
        {
            j -= 1;
        }
        proof {
            let old_view = nodes_view(out@);
            lemma_nodes_view(out@);
            lemma_insert_desc_at(old_view, c@, j as int);
            let p = orig.subrange(0, k);
            let p2 = orig.subrange(0, k + 1);
            lemma_nodes_view(p);
            lemma_nodes_view(p2);
            assert(nodes_view(p2).subrange(0, k) =~= nodes_view(p));
            let s2 = sort_models(nodes_view(p2));
            assert(s2 == sort_models(nodes_view(p)).push(sort_model(orig[k]@)));
            lemma_sort_models(nodes_view(p));
            assert(s2.subrange(0, k) =~= sort_models(nodes_view(p)));
        }
        let ghost before = out@;
        out.insert(j, c);
        proof {
            lemma_nodes_view(before);
            lemma_nodes_view(out@);
            assert(nodes_view(out@) =~= nodes_view(before).insert(j as int, c@));
        }
    }
    proof {
        assert(orig.subrange(0, orig.len() as int) =~= orig);
    }
    FileNode { name, size, location, children: out }
}

/// Orders the children of every node of the tree by size, largest first;
/// nodes of equal size keep their order.
pub fn sort_tree_by_size(node: &mut FileNode)
    ensures
        final(node)@ == sort_model(old(node)@),
{
    let mut taken = FileNode { name: String::new(), size: 0, location: None, children: Vec::new() };
    std::mem::swap(node, &mut taken);
    let mut sorted = sorted_node(taken);
    std::mem::swap(node, &mut sorted);
}

/// Sizes never increase along `s`.
pub open spec fn descending(s: Seq<NodeModel>) -> bool {
    forall|i: int| 0 <= i < s.len() - 1 ==> #[trigger] s[i].size >= s[i + 1].size
}

/// Every node of the tree `m` has its children in descending order of size.
pub open spec fn sorted_tree(m: NodeModel) -> bool
    decreases m,
{
    &&& descending(m.children)
    &&& forall|i: int| 0 <= i < m.children.len() ==> sorted_tree(#[trigger] m.children[i])
}

proof fn lemma_insert_desc(s: Seq<NodeModel>, x: NodeModel)
    ensures
        insert_desc(s, x).len() == s.len() + 1,
        insert_desc(s, x).last() == x || (s.len() > 0 && insert_desc(s, x).last() == s.last()),
        forall|y: NodeModel| #[trigger] insert_desc(s, x).contains(y) ==> s.contains(y) || y == x,
        descending(s) ==> descending(insert_desc(s, x)),
    decreases s.len(),
{
    if s.len() == 0 {
        assert(insert_desc(s, x) =~= seq![x]);
    } else if s[s.len() - 1].size >= x.size {
        assert forall|y: NodeModel| #[trigger] insert_desc(s, x).contains(y) implies s.contains(y) || y == x by {
            let i = choose|i: int| 0 <= i < s.len() + 1 && insert_desc(s, x)[i] == y;
            if i < s.len() {
                assert(s[i] == y);
            }
        }
    } else {
        let p = s.subrange(0, s.len() - 1);
        lemma_insert_desc(p, x);
        let q = insert_desc(p, x);
        assert forall|y: NodeModel| #[trigger] insert_desc(s, x).contains(y) implies s.contains(y) || y == x by {
            let i = choose|i: int| 0 <= i < s.len() + 1 && insert_desc(s, x)[i] == y;
            if i < s.len() {
                assert(q.contains(y));
                if y != x {
                    let k = choose|k: int| 0 <= k < p.len() && p[k] == y;
                    assert(s[k] == y);
                }
            } else {
                assert(s[s.len() - 1] == y);
            }
        }
        if descending(s) {
            assert(descending(p));
            assert(q.last().size >= s.last().size);
        }
    }
}

proof fn lemma_sort_desc(s: Seq<NodeModel>)
    ensures
        sort_desc(s).len() == s.len(),
        descending(sort_desc(s)),
        forall|y: NodeModel| #[trigger] sort_desc(s).contains(y) ==> s.contains(y),
    decreases s.len(),
{
    if s.len() > 0 {
        let p = s.subrange(0, s.len() - 1);
        lemma_sort_desc(p);
        lemma_insert_desc(sort_desc(p), s[s.len() - 1]);
        assert forall|y: NodeModel| #[trigger] sort_desc(s).contains(y) implies s.contains(y) by {
            if y != s[s.len() - 1] {
                assert(sort_desc(p).contains(y));
                let k = choose|k: int| 0 <= k < p.len() && p[k] == y;
                assert(s[k] == y);
            }
        }
    }
}

/// After sorting, the children of every node are in descending order of size.
pub proof fn lemma_sorted_everywhere(m: NodeModel)
    ensures
        sorted_tree(sort_model(m)),
    decreases m,
{
    let c = sort_models(m.children);
    lemma_sort_models(m.children);
    lemma_sort_desc(c);
    let r = sort_desc(c);
    assert forall|i: int| 0 <= i < r.len() implies sorted_tree(#[trigger] r[i]) by {
        assert(r.contains(r[i]));
        let k = choose|k: int| 0 <= k < c.len() && c[k] == r[i];
        lemma_sorted_everywhere(m.children[k]);
    }
}

} // verus!
