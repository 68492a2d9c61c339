use vstd::prelude::*;
use crate::node::{FileNode, NodeModel, nodes_view, lemma_nodes_view};
use crate::order::sort_model;
use crate::prune::filter_model;

verus! {

/// Minimum size, in bytes, that an entry needs to stay in the report when the
/// caller names none.
pub const DEFAULT_MIN_SIZE: u64 = 1024;

/// A step of a directory walk whose entry and metadata could both be read.
pub struct WalkEntry {
    /// Base name of the entry.
    pub name: String,
    /// Size of the entry as its metadata gives it.
    pub size: u64,
    /// Path of the entry.
    pub location: String,
    /// Levels below the walk's root; the root itself is at 0.
    pub depth: usize,
}

/// Whether an entry `depth` levels down lies within the bound (none: no bound).
pub open spec fn within(depth: usize, max_depth: Option<usize>) -> bool {
    match max_depth {
        Some(d) => depth <= d,
        None => true,
    }
}

/// The entries that a report takes from the walk `steps`: those of the steps that
/// succeeded and lie within the depth bound, in walk order.
pub open spec fn visited(steps: Seq<Option<WalkEntry>>, max_depth: Option<usize>) -> Seq<WalkEntry>
    decreases steps.len(),
{
    if steps.len() == 0 {
        Seq::empty()
    } else {
        let rest = visited(steps.subrange(0, steps.len() - 1), max_depth);
        match steps[steps.len() - 1] {
            Some(e) => if within(e.depth, max_depth) {
                rest.push(e)
            } else {
                rest
            },
            None => rest,
        }
    }
}

/// Sum of the sizes of `s`.
pub open spec fn total_size(s: Seq<WalkEntry>) -> int
    decreases s.len(),
{
    if s.len() == 0 {
        0
    } else {
        total_size(s.subrange(0, s.len() - 1)) + s[s.len() - 1].size
    }
}

/// The report node of a walked entry: its own size, no children.
pub open spec fn entry_model(e: WalkEntry) -> NodeModel {
    NodeModel { name: e.name@, size: e.size, location: Some(e.location@), children: Seq::empty() }
}

/// The report nodes of the entries `s`, in their order.
pub open spec fn entry_models(s: Seq<WalkEntry>) -> Seq<NodeModel> {
    s.map_values(|e: WalkEntry| entry_model(e))
}

/// The root of the report on the walk `steps` from `path`.
pub open spec fn root_model(path: Seq<char>, steps: Seq<Option<WalkEntry>>, max_depth: Option<usize>) -> NodeModel {
    NodeModel {
        name: path,
        size: total_size(visited(steps, max_depth)) as u64,
        location: None,
        children: entry_models(visited(steps, max_depth)),
    }
}

proof fn lemma_visited_prefix(steps: Seq<Option<WalkEntry>>, max_depth: Option<usize>, j: int)
    requires
        0 <= j <= steps.len(),
    ensures
        total_size(visited(steps.subrange(0, j), max_depth)) <= total_size(visited(steps, max_depth)),
    decreases steps.len(),
{
    if j < steps.len() {
        let p = steps.subrange(0, steps.len() - 1);
        lemma_visited_prefix(p, max_depth, j);
        assert(p.subrange(0, j) =~= steps.subrange(0, j));
        let v = visited(steps, max_depth);
        if v.len() > visited(p, max_depth).len() {
            assert(v.subrange(0, v.len() - 1) =~= visited(p, max_depth));
        }
    } else {
        assert(steps.subrange(0, j) =~= steps);
    }
}

/// Builds the report of a walk from `path`: a root named `path` whose size is
/// the sum of the sizes of the entries taken, and with one childless node per
/// entry taken, in walk order, whatever its depth. The entries taken are those
/// of the steps that succeeded and lie within `depth` levels of the root. Gives
/// `None` exactly when that sum does not fit in a `u64`.
pub fn build_tree(path: &str, depth: Option<usize>, steps: &Vec<Option<WalkEntry>>) -> (r: Option<FileNode>)
    ensures
        r is None <==> total_size(visited(steps@, depth)) > u64::MAX,
        r matches Some(root) ==> root@ == root_model(path@, steps@, depth),
{
    let mut sum: u64 = 0;
    let mut children: Vec<FileNode> = Vec::new();
    let mut i: usize = 0;
    proof {
        assert(steps@.subrange(0, 0) =~= Seq::<Option<WalkEntry>>::empty());
        assert(nodes_view(children@) =~= Seq::<NodeModel>::empty());
    }
    while i < steps.len()
        invariant
            i <= steps@.len(),
            sum == total_size(visited(steps@.subrange(0, i as int), depth)),
            nodes_view(children@) == entry_models(visited(steps@.subrange(0, i as int), depth)),
        decreases steps@.len() - i,
    {
        let ghost p = steps@.subrange(0, i as int);
        let ghost p2 = steps@.subrange(0, i + 1);
        assert(p2.subrange(0, i as int) =~= p);
        match &steps[i] {
            Some(e) => {
                let keep = match depth {
                    Some(d) => e.depth <= d,
                    None => true,
                };
                if keep {
                    let ghost v2 = visited(p2, depth);
                    assert(p2[i as int] == steps@[i as int]);
                    assert(v2 == visited(p, depth).push(*e));
                    assert(v2.subrange(0, v2.len() - 1) =~= visited(p, depth));
                    assert(total_size(v2) == sum + e.size);
                    if e.size > u64::MAX - sum {
                        proof {
                            lemma_visited_prefix(steps@, depth, i + 1);
                        }
                        return None;
                    }
                    sum = sum + e.size;
                    let ghost before = children@;
                    children.push(
                        FileNode {
                            name: e.name.clone(),
                            size: e.size,
                            location: Some(e.location.clone()),
                            children: Vec::new(),
                        },
                    );
                    proof {
                        lemma_nodes_view(before);
                        lemma_nodes_view(children@);
                        assert(nodes_view(children@[children@.len() - 1].children@) =~= Seq::<
                            NodeModel,
                        >::empty());
                        let last = children@[children@.len() - 1];
                        assert(last@ == entry_model(*e));
                        let vp = visited(p, depth);
                        assert forall|j: int| 0 <= j < children@.len() implies #[trigger] nodes_view(
                            children@,
                        )[j] == entry_models(v2)[j] by {
                            if j < before.len() {
                                assert(children@[j] == before[j]);
                                assert(nodes_view(before)[j] == entry_models(vp)[j]);
                                assert(v2[j] == vp[j]);
                            }
                        }
                        assert(nodes_view(children@) =~= entry_models(v2));
                    }
                }
            },
            None => {},
        }
        i += 1;
    }
    proof {
        assert(steps@.subrange(0, steps@.len() as int) =~= steps@);
    }
    Some(FileNode { name: path.to_string(), size: sum, location: None, children })
}

/// The size of a report's root is the sum of the sizes of the entries taken
/// from the walk, before and after sorting and pruning, in either order.
pub proof fn lemma_root_size_is_total(
    path: Seq<char>,
    steps: Seq<Option<WalkEntry>>,
    max_depth: Option<usize>,
    min_size: u64,
)
    requires
        total_size(visited(steps, max_depth)) <= u64::MAX,
    ensures
        ({
            let root = root_model(path, steps, max_depth);
            let total = total_size(visited(steps, max_depth));
            &&& root.size == total
            &&& sort_model(root).size == total
            &&& filter_model(root, min_size).size == total
            &&& filter_model(sort_model(root), min_size).size == total
            &&& sort_model(filter_model(root, min_size)).size == total
        }),
{
    lemma_total_size_nonneg(visited(steps, max_depth));
}

proof fn lemma_total_size_nonneg(s: Seq<WalkEntry>)
    ensures
        total_size(s) >= 0,
    decreases s.len(),
{
    if s.len() > 0 {
        lemma_total_size_nonneg(s.subrange(0, s.len() - 1));
    }
}

proof fn lemma_visited_within(steps: Seq<Option<WalkEntry>>, max_depth: Option<usize>)
    ensures
        forall|i: int| 0 <= i < visited(steps, max_depth).len() ==> within(
            #[trigger] visited(steps, max_depth)[i].depth,
            max_depth,
        ),
    decreases steps.len(),
{
    if steps.len() > 0 {
        let p = steps.subrange(0, steps.len() - 1);
        lemma_visited_within(p, max_depth);
        let v = visited(steps, max_depth);
        assert forall|i: int| 0 <= i < v.len() implies within(#[trigger] v[i].depth, max_depth) by {
            if i < visited(p, max_depth).len() {
                assert(v[i] == visited(p, max_depth)[i]);
            }
        }
    }
}

/// With a depth bound of 0, every entry taken is the walk's root itself.
pub proof fn lemma_depth_zero_takes_root_only(steps: Seq<Option<WalkEntry>>)
    ensures
        forall|i: int| 0 <= i < visited(steps, Some(0usize)).len() ==> #[trigger] visited(
            steps,
            Some(0usize),
        )[i].depth == 0,
{
    lemma_visited_within(steps, Some(0usize));
}

} // verus!
