//! The order of the paths in a file tree.
use vstd::prelude::*;

use crate::lex::lex_lt;
use crate::path::{join, lemma_join_name, parts_diverge_at, path_lt, Part};
use crate::sorted_map::rises;
use crate::torrent::model::{NodeModel, TreeModel};
use crate::torrent::tree::{node_paths, tree_paths};

verus! {

/// A name that is nothing else: it is not empty, has no separators, and is not `.` or `..`.
pub open spec fn plain_name(name: Seq<u8>) -> bool {
    &&& name.len() > 0
    &&& forall|i: int| 0 <= i < name.len() ==> #[trigger] name[i] != 47
    &&& name != seq![46u8]
    &&& name != seq![46u8, 46u8]
}

/// An entry of a tree that stands at `prefix` leads to `q`.
pub open spec fn leads(prefix: Seq<Part>, e: (Seq<u8>, NodeModel), q: Seq<Part>) -> bool {
    node_paths(join(prefix, e.0), e.1).contains(q)
}

/// Going on to a plain name.
pub proof fn lemma_join_plain(prefix: Seq<Part>, name: Seq<u8>)
    requires
        plain_name(name),
    ensures
        join(prefix, name) == prefix.push(Part::Normal(name)),
{
    lemma_join_name(prefix, name);
}

proof fn lemma_contains_concat<A>(a: Seq<A>, b: Seq<A>, x: A)
    ensures
        (a + b).contains(x) <==> a.contains(x) || b.contains(x),
{
    if a.contains(x) {
        let i = choose|i: int| 0 <= i < a.len() && a[i] == x;
        assert((a + b)[i] == x);
    }
    if b.contains(x) {
        let i = choose|i: int| 0 <= i < b.len() && b[i] == x;
        assert((a + b)[a.len() + i] == x);
    }
    if (a + b).contains(x) {
        let i = choose|i: int| 0 <= i < (a + b).len() && (a + b)[i] == x;
        if i < a.len() {
            assert(a[i] == x);
        } else {
            assert(b[i - a.len()] == x);
        }
    }
}

/// A path is in a tree exactly if an entry leads to it.
pub proof fn lemma_paths_contain(prefix: Seq<Part>, tree: TreeModel, q: Seq<Part>)
    ensures
        tree_paths(prefix, tree).contains(q) <==> exists|i: int|
            0 <= i < tree.len() && leads(prefix, #[trigger] tree[i], q),
    decreases tree.len(),
{
    reveal_with_fuel(tree_paths, 2);
    if tree.len() > 0 {
        let t = tree.drop_last();
        lemma_paths_contain(prefix, t, q);
        let last = tree[tree.len() - 1];
        lemma_contains_concat(
            tree_paths(prefix, t),
            node_paths(join(prefix, last.0), last.1),
            q,
        );
        if tree_paths(prefix, t).contains(q) {
            let i = choose|i: int| 0 <= i < t.len() && leads(prefix, #[trigger] t[i], q);
            assert(leads(prefix, tree[i], q));
        }
        if leads(prefix, last, q) {
            assert(leads(prefix, tree[tree.len() - 1], q));
        }
        if exists|i: int| 0 <= i < tree.len() && leads(prefix, #[trigger] tree[i], q) {
            let i = choose|i: int| 0 <= i < tree.len() && leads(prefix, #[trigger] tree[i], q);
            if i < t.len() {
                assert(leads(prefix, t[i], q));
            }
        }
    }
}

/// Paths that go on with different names come in the order of the names.
proof fn lemma_branches(prefix: Seq<Part>, a: Seq<Part>, b: Seq<Part>, x: Seq<u8>, y: Seq<u8>)
    requires
        prefix.is_prefix_of(a),
        prefix.is_prefix_of(b),
        prefix.len() < a.len(),
        prefix.len() < b.len(),
        a[prefix.len() as int] == Part::Normal(x),
        b[prefix.len() as int] == Part::Normal(y),
        lex_lt(x, y),
    ensures
        path_lt(a, b),
{
    let n = prefix.len() as int;
    assert forall|k: int| 0 <= k < n implies a[k] == b[k] by {
        assert(a.subrange(0, n)[k] == prefix[k]);
        assert(b.subrange(0, n)[k] == prefix[k]);
    }
    assert(parts_diverge_at(a, b, n));
}

/// A sorted tree of plain names, in which the empty name too may lead to a file.
pub open spec fn component_tree(tree: TreeModel) -> bool
    decreases tree,
{
    &&& rises(tree)
    &&& forall|i: int| 0 <= i < tree.len() ==> component_node((#[trigger] tree[i]).0, tree[i].1)
}

/// A node under a plain name, or a file under the empty name.
pub open spec fn component_node(name: Seq<u8>, node: NodeModel) -> bool
    decreases node,
{
    match node {
        NodeModel::Directory(tree) => plain_name(name) && component_tree(tree),
        NodeModel::File(_) => plain_name(name) || name.len() == 0,
    }
}

/// Where an entry of such a tree leads.
spec fn goes(prefix: Seq<Part>, name: Seq<u8>, q: Seq<Part>) -> bool {
    &&& prefix.is_prefix_of(q)
    &&& name.len() == 0 ==> q == prefix
    &&& name.len() > 0 ==> prefix.len() < q.len() && q[prefix.len() as int] == Part::Normal(name)
}

proof fn lemma_entry_goes(prefix: Seq<Part>, name: Seq<u8>, node: NodeModel, q: Seq<Part>)
    requires
        component_node(name, node),
        leads(prefix, (name, node), q),
    ensures
        goes(prefix, name, q),
    decreases node,
{
    reveal_with_fuel(node_paths, 2);
    reveal_with_fuel(component_node, 2);
    if name.len() == 0 {
        lemma_join_name(prefix, name);
        let k = choose|k: int| 0 <= k < seq![prefix].len() && seq![prefix][k] == q;
        assert(k == 0);
        assert(prefix =~= q.subrange(0, prefix.len() as int));
    } else {
        lemma_join_plain(prefix, name);
        let path = prefix.push(Part::Normal(name));
        match node {
            NodeModel::Directory(sub) => {
                lemma_paths_contain(path, sub, q);
                let i = choose|i: int| 0 <= i < sub.len() && leads(path, #[trigger] sub[i], q);
                assert(component_node(sub[i].0, sub[i].1));
                assert(decreases_to!(node => sub));
                assert(decreases_to!(sub => sub[i]));
                assert(decreases_to!(sub[i] => sub[i].1));
                lemma_entry_goes(path, sub[i].0, sub[i].1, q);
            },
            NodeModel::File(_) => {
                let k = choose|k: int| 0 <= k < seq![path].len() && seq![path][k] == q;
                assert(k == 0);
                assert(path =~= q.subrange(0, path.len() as int));
            },
        }
        assert(q.subrange(0, path.len() as int)[prefix.len() as int] == Part::Normal(name));
        assert(prefix =~= q.subrange(0, prefix.len() as int)) by {
            assert(path == q.subrange(0, path.len() as int));
            assert(prefix =~= path.take(prefix.len() as int));
        }
    }
}

/// Where two entries lead, the first one's path comes before the second one's.
proof fn lemma_entries_ordered(
    prefix: Seq<Part>,
    x: Seq<u8>,
    y: Seq<u8>,
    a: Seq<Part>,
    b: Seq<Part>,
)
    requires
        goes(prefix, x, a),
        goes(prefix, y, b),
        lex_lt(x, y),
    ensures
        path_lt(a, b),
{
    assert(y.len() > 0);
    if x.len() == 0 {
        assert forall|k: int| 0 <= k < a.len() implies a[k] == b[k] by {
            assert(b.subrange(0, prefix.len() as int)[k] == prefix[k]);
        }
        assert(parts_diverge_at(a, b, a.len() as int));
    } else {
        lemma_branches(prefix, a, b, x, y);
    }
}

/// The paths under the first entries of such a tree rise.
proof fn lemma_paths_rise(prefix: Seq<Part>, tree: TreeModel, k: int)
    requires
        component_tree(tree),
        0 <= k <= tree.len(),
    ensures
        ({
            let paths = tree_paths(prefix, tree.take(k));
            forall|i: int, j: int| 0 <= i < j < paths.len() ==> path_lt(paths[i], paths[j])
        }),
    decreases tree, k,
{
    reveal_with_fuel(tree_paths, 2);
    let paths = tree_paths(prefix, tree.take(k));
    if k > 0 {
        lemma_paths_rise(prefix, tree, k - 1);
        let t = tree.take(k);
        let u = tree.take(k - 1);
        assert(t.drop_last() =~= u);
        assert(t.last() == tree[k - 1]);
        let (name, node) = tree[k - 1];
        assert(component_node(tree[k - 1].0, tree[k - 1].1));
        let before = tree_paths(prefix, u);
        let new = node_paths(join(prefix, name), node);
        assert(paths == before + new);
        reveal_with_fuel(node_paths, 2);
        reveal_with_fuel(component_node, 2);
        match node {
            NodeModel::Directory(sub) => {
                assert(decreases_to!(tree => tree[k - 1]));
                assert(decreases_to!(tree[k - 1] => tree[k - 1].1));
                assert(decreases_to!(node => sub));
                lemma_paths_rise(join(prefix, name), sub, sub.len() as int);
                assert(sub.take(sub.len() as int) =~= sub);
                assert(new == tree_paths(join(prefix, name), sub));
            },
            NodeModel::File(_) => {
                assert(new == seq![join(prefix, name)]);
            },
        }
        assert forall|i: int, j: int| 0 <= i < j < paths.len() implies path_lt(
            paths[i],
            paths[j],
        ) by {
            if j < before.len() {
                assert(paths[i] == before[i] && paths[j] == before[j]);
            } else if i >= before.len() {
                assert(paths[i] == new[i - before.len()] && paths[j] == new[j - before.len()]);
            } else {
                assert(before[i] == paths[i]);
                assert(before.contains(paths[i]));
                lemma_paths_contain(prefix, u, paths[i]);
                let m = choose|m: int| 0 <= m < u.len() && leads(prefix, #[trigger] u[m], paths[i]);
                assert(u[m] == tree[m]);
                assert(component_node(tree[m].0, tree[m].1));
                lemma_entry_goes(prefix, tree[m].0, tree[m].1, paths[i]);
                assert(new[j - before.len()] == paths[j]);
                assert(new.contains(paths[j]));
                lemma_entry_goes(prefix, name, node, paths[j]);
                assert(lex_lt(tree[m].0, tree[k - 1].0));
                lemma_entries_ordered(prefix, tree[m].0, name, paths[i], paths[j]);
            }
        }
    } else {
        assert(tree.take(0) =~= Seq::<(Seq<u8>, NodeModel)>::empty());
    }
}

/// The paths of the files in a tree rise strictly, if every name in it is a plain one. Files may
/// also stand under the empty name, which is how they are read.
pub proof fn law_file_paths_rise(tree: TreeModel)
    requires
        component_tree(tree),
    ensures
        ({
            let paths = tree_paths(Seq::empty(), tree);
            forall|i: int, j: int|
                0 <= i < j < paths.len() ==> path_lt(#[trigger] paths[i], #[trigger] paths[j])
        }),
{
    lemma_paths_rise(Seq::empty(), tree, tree.len() as int);
    assert(tree.take(tree.len() as int) =~= tree);
}

} // verus!
