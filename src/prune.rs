use vstd::prelude::*;
use crate::node::{FileNode, NodeModel, nodes_view, lemma_nodes_view, reversed};

verus! {

/// The tree `m` without every child, at any depth, whose size is below
/// `min_size`; the root itself always stays.
pub open spec fn filter_model(m: NodeModel, min_size: u64) -> NodeModel
    decreases m,
{
    NodeModel { children: filter_models(m.children, min_size), ..m }
}

/// The elements of `s` whose size is at least `min_size`, each pruned by
/// `filter_model`, in their order.
pub open spec fn filter_models(s: Seq<NodeModel>, min_size: u64) -> Seq<NodeModel>
    decreases s,
{
    if s.len() == 0 {
        Seq::empty()
    } else {
        let rest = filter_models(s.subrange(0, s.len() - 1), min_size);
        if s[s.len() - 1].size >= min_size {
            rest.push(filter_model(s[s.len() - 1], min_size))
        } else {
            rest
        }
    }
}

/// Returns `n` pruned of every child, at any depth, smaller than `min_size`.
fn filtered_node(n: FileNode, min_size: u64) -> (r: FileNode)
    ensures
        r@ == filter_model(n@, min_size),
    decreases n,
{
    let FileNode { name, size, location, children } = n;
    let ghost orig = children@;
    let mut rest = reversed(children);
    let mut out: Vec<FileNode> = Vec::new();
    proof {
        assert(orig.subrange(0, 0) =~= Seq::<FileNode>::empty());
        assert(nodes_view(out@) =~= Seq::<NodeModel>::empty());
    }
    while rest.len() > 0
        invariant
            rest@.len() <= orig.len(),
            forall|j: int| 0 <= j < rest@.len() ==> #[trigger] rest@[j] == orig[orig.len() - 1 - j],
            nodes_view(out@) == filter_models(nodes_view(orig.subrange(0, orig.len() - rest@.len())), min_size),
            n.children@ == orig,
        decreases rest@.len(),
    {
        let ghost k = orig.len() - rest@.len();
        let c = rest.pop().unwrap();
        assert(c == n.children@[k]);
        assert(decreases_to!(n => n.children@[k]));
        let ghost p = orig.subrange(0, k);
        let ghost p2 = orig.subrange(0, k + 1);
        proof {
            lemma_nodes_view(p);
            lemma_nodes_view(p2);
            assert(nodes_view(p2).subrange(0, k) =~= nodes_view(p));
        }
        if c.size >= min_size {
            let c = filtered_node(c, min_size);
            let ghost before = out@;
            out.push(c);
            proof {
                lemma_nodes_view(before);
                lemma_nodes_view(out@);
                assert(nodes_view(out@) =~= nodes_view(before).push(c@));
            }
        }
    }
    proof {
        assert(orig.subrange(0, orig.len() as int) =~= orig);
    }
    FileNode { name, size, location, children: out }
}

/// Removes every child, at any depth, whose size is below `min_size`; the
/// survivors keep their order and the node itself is left in place.
pub fn filter_tree(node: &mut FileNode, min_size: u64)
    ensures
        final(node)@ == filter_model(old(node)@, min_size),
{
    let mut taken = FileNode { name: String::new(), size: 0, location: None, children: Vec::new() };
    std::mem::swap(node, &mut taken);
    let mut pruned = filtered_node(taken, min_size);
    std::mem::swap(node, &mut pruned);
}

/// Every child, at any depth below `m`, has a size of at least `min_size`.
pub open spec fn all_at_least(m: NodeModel, min_size: u64) -> bool
    decreases m,
{
    forall|i: int|
        #![trigger m.children[i]]
        0 <= i < m.children.len() ==> m.children[i].size >= min_size && all_at_least(
            m.children[i],
            min_size,
        )
}

proof fn lemma_filter_models_elems(s: Seq<NodeModel>, min_size: u64)
    ensures
        filter_models(s, min_size).len() <= s.len(),
        forall|i: int| 0 <= i < filter_models(s, min_size).len() ==>
            exists|k: int| 0 <= k < s.len() && s[k].size >= min_size
                && #[trigger] filter_models(s, min_size)[i] == filter_model(s[k], min_size),
    decreases s.len(),
{
    if s.len() > 0 {
        let p = s.subrange(0, s.len() - 1);
        lemma_filter_models_elems(p, min_size);
        let r = filter_models(s, min_size);
        assert forall|i: int| 0 <= i < r.len() implies
            exists|k: int| 0 <= k < s.len() && s[k].size >= min_size
                && #[trigger] r[i] == filter_model(s[k], min_size) by {
            if i < filter_models(p, min_size).len() {
                let k = choose|k: int| 0 <= k < p.len() && p[k].size >= min_size
                    && #[trigger] filter_models(p, min_size)[i] == filter_model(p[k], min_size);
                assert(s[k] == p[k]);
            } else {
                assert(r[i] == filter_model(s[s.len() - 1], min_size));
            }
        }
    }
}

/// After pruning with `min_size`, no child anywhere in the tree is smaller
/// than `min_size`.
pub proof fn lemma_filter_leaves_no_small(m: NodeModel, min_size: u64)
    ensures
        all_at_least(filter_model(m, min_size), min_size),
    decreases m,
{
    let s = m.children;
    let r = filter_models(s, min_size);
    lemma_filter_models_elems(s, min_size);
    assert forall|i: int| #![trigger r[i]] 0 <= i < r.len() implies r[i].size >= min_size
        && all_at_least(r[i], min_size) by {
        let k = choose|k: int| 0 <= k < s.len() && s[k].size >= min_size
            && #[trigger] r[i] == filter_model(s[k], min_size);
        lemma_filter_leaves_no_small(s[k], min_size);
    }
}

/// Pruning twice with the same `min_size` removes nothing more than pruning once.
pub proof fn lemma_filter_idempotent(m: NodeModel, min_size: u64)
    ensures
        filter_model(filter_model(m, min_size), min_size) == filter_model(m, min_size),
    decreases m,
{
    lemma_filter_models_idempotent(m.children, min_size);
}

proof fn lemma_filter_models_idempotent(s: Seq<NodeModel>, min_size: u64)
    ensures
        filter_models(filter_models(s, min_size), min_size) == filter_models(s, min_size),
    decreases s,
{
    if s.len() > 0 {
        let p = s.subrange(0, s.len() - 1);
        let x = s[s.len() - 1];
        let rest = filter_models(p, min_size);
        lemma_filter_models_idempotent(p, min_size);
        if x.size >= min_size {
            let f = rest.push(filter_model(x, min_size));
            assert(f.subrange(0, f.len() - 1) =~= rest);
            lemma_filter_idempotent(x, min_size);
        }
    }
}

} // verus!
