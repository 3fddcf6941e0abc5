//! A surface with its subsurfaces.

use vstd::prelude::*;

verus! {

pub struct SurfaceTree {
    pub id: u64,
    pub children: Vec<SurfaceTree>,
}

impl SurfaceTree {
    /// All surfaces of the tree: a surface before its subsurfaces, these in
    /// turn with everything below them.
    pub open spec fn order(self) -> Seq<u64>
        decreases self,
    {
        seq![self.id] + forest_order(self.children@)
    }
}

pub open spec fn forest_order(trees: Seq<SurfaceTree>) -> Seq<u64>
    decreases trees,
{
    if trees.len() == 0 {
        seq![]
    } else {
        trees[0].order() + forest_order(trees.drop_first())
    }
}

proof fn lemma_forest_order_take(trees: Seq<SurfaceTree>, n: int)
    requires
        0 <= n < trees.len(),
    ensures
        forest_order(trees.take(n + 1)) == forest_order(trees.take(n)) + trees[n].order(),
    decreases n,
{
    let longer = trees.take(n + 1);
    if n == 0 {
        assert(longer.drop_first() =~= seq![]);
        assert(trees.take(0) =~= seq![]);
        assert(trees[0].order() + forest_order(seq![]) =~= trees[0].order());
        assert(forest_order(seq![]) + trees[0].order() =~= trees[0].order());
    } else {
        let tail = trees.drop_first();
        lemma_forest_order_take(tail, n - 1);
        assert(longer.drop_first() =~= tail.take(n));
        assert(trees.take(n).drop_first() =~= tail.take(n - 1));
        assert(trees[0].order() + (forest_order(tail.take(n - 1)) + trees[n].order())
            =~= forest_order(trees.take(n)) + trees[n].order());
    }
}

/// The surfaces of the tree, in [`SurfaceTree::order`].
pub fn surfaces(tree: &SurfaceTree) -> (r: Vec<u64>)
    ensures
        r@ == tree.order(),
{
    let mut out: Vec<u64> = Vec::new();
    collect(tree, &mut out);
    out
}

fn collect(tree: &SurfaceTree, out: &mut Vec<u64>)
    ensures
        final(out)@ == old(out)@ + tree.order(),
    decreases tree,
{
    let ghost before = out@;
    let ghost trees = tree.children@;
    out.push(tree.id);
    let mut i: usize = 0;
    assert(out@ =~= before + (seq![tree.id] + forest_order(trees.take(0))));
    while i < tree.children.len()
        invariant
            i <= trees.len(),
            trees == tree.children@,
            out@ == before + (seq![tree.id] + forest_order(trees.take(i as int))),
        decreases trees.len() - i,
    {
        let ghost so_far = out@;
        proof {
            lemma_forest_order_take(trees, i as int);
        }
        assert(decreases_to!(tree => tree.children@[i as int]));
        collect(&tree.children[i], out);
        i += 1;
        assert(out@ =~= before + (seq![tree.id] + forest_order(trees.take(i as int))));
    }
    assert(trees.take(i as int) =~= trees);
}

/// Whether `target` is in the tree.
pub fn surface_tree_contains(root: &SurfaceTree, target: u64) -> (r: bool)
    ensures
        r == root.order().contains(target),
    decreases root,
{
    let ghost trees = root.children@;
    let ghost whole = root.order();
    if root.id == target {
        assert(whole[0] == target);
        return true;
    }
    let mut i: usize = 0;
    assert(trees.take(0) =~= seq![]);
    while i < root.children.len()
        invariant
            i <= trees.len(),
            trees == root.children@,
            whole == root.order(),
            root.id != target,
            !forest_order(trees.take(i as int)).contains(target),
        decreases trees.len() - i,
    {
        proof {
            lemma_forest_order_take(trees, i as int);
        }
        assert(decreases_to!(root => root.children@[i as int]));
        let ghost done = forest_order(trees.take(i as int));
        let ghost one = trees[i as int].order();
        if surface_tree_contains(&root.children[i], target) {
            proof {
                let k = choose|k: int| 0 <= k < one.len() && one[k] == target;
                lemma_part_of_forest(trees, i as int);
                assert(whole[1 + done.len() + k] == target);
            }
            return true;
        }
        i += 1;
        assert(!forest_order(trees.take(i as int)).contains(target)) by {
            let next = forest_order(trees.take(i as int));
            if next.contains(target) {
                let k = choose|k: int| 0 <= k < next.len() && next[k] == target;
                if k < done.len() {
                    assert(done[k] == target);
                } else {
                    assert(one[k - done.len()] == target);
                }
            }
        }
    }
    proof {
        assert(trees.take(i as int) =~= trees);
        let rest = forest_order(trees);
        if whole.contains(target) {
            let k = choose|k: int| 0 <= k < whole.len() && whole[k] == target;
            assert(rest[k - 1] == target);
        }
    }
    false
}

/// The surfaces of the first trees, and those of the next, begin the whole.
proof fn lemma_part_of_forest(trees: Seq<SurfaceTree>, n: int)
    requires
        0 <= n < trees.len(),
    ensures
        ({
            let done = forest_order(trees.take(n));
            let one = trees[n].order();
            let all = forest_order(trees);
            &&& done.len() + one.len() <= all.len()
            &&& forall|k: int| 0 <= k < one.len() ==> all[done.len() + k] == #[trigger] one[k]
        }),
    decreases trees.len(),
{
    let tail = trees.drop_first();
    if n == 0 {
        assert(trees.take(0) =~= seq![]);
    } else {
        lemma_part_of_forest(tail, n - 1);
        assert(trees.take(n).drop_first() =~= tail.take(n - 1));
        let done = forest_order(trees.take(n));
        let one = trees[n].order();
        let all = forest_order(trees);
        let head = trees[0].order();
        assert(done == head + forest_order(tail.take(n - 1)));
        assert forall|k: int| 0 <= k < one.len() implies all[done.len() + k]
            == #[trigger] one[k] by {
            assert(all[done.len() + k] == forest_order(tail)[done.len() - head.len() + k]);
        }
    }
}

/// Surface `k` of the tree is asked: all before it can have had nothing.
pub open spec fn is_asked<T, X: Fn(u64) -> Option<T>>(
    tree: SurfaceTree,
    extract: X,
    k: int,
) -> bool {
    &&& 0 <= k < tree.order().len()
    &&& forall|j: int|
        0 <= j < k ==> call_ensures(extract, (#[trigger] tree.order()[j],), None::<T>)
}

/// Asks one surface after the other, in [`SurfaceTree::order`], and stops at the
/// first that has something.
pub fn extract_tree<T, X: Fn(u64) -> Option<T>>(tree: &SurfaceTree, extract: X) -> (r: Option<T>)
    requires
        forall|k: int|
            is_asked(*tree, extract, k) ==> call_requires(extract, (#[trigger] tree.order()[k],)),
    ensures
        match r {
            Some(found) => exists|k: int|
                0 <= k < tree.order().len() && call_ensures(
                    extract,
                    (#[trigger] tree.order()[k],),
                    Some(found),
                ) && forall|j: int|
                    0 <= j < k ==> call_ensures(extract, (#[trigger] tree.order()[j],), None::<T>),
            None => forall|j: int|
                0 <= j < tree.order().len() ==> call_ensures(
                    extract,
                    (#[trigger] tree.order()[j],),
                    None::<T>,
                ),
        },
{
    let ids = surfaces(tree);
    let mut i: usize = 0;
    while i < ids.len()
        invariant
            i <= ids@.len(),
            ids@ == tree.order(),
            forall|k: int|
                is_asked(*tree, extract, k) ==> call_requires(
                    extract,
                    (#[trigger] tree.order()[k],),
                ),
            forall|j: int|
                0 <= j < i ==> call_ensures(extract, (#[trigger] tree.order()[j],), None::<T>),
        decreases ids@.len() - i,
    {
        assert(is_asked(*tree, extract, i as int));
        assert(ids@[i as int] == tree.order()[i as int]);
        let found = extract(ids[i]);
        if found.is_some() {
            assert(call_ensures(extract, (tree.order()[i as int],), found));
            return found;
        }
        assert(call_ensures(extract, (tree.order()[i as int],), None::<T>));
        i += 1;
    }
    None
}

/// A surface comes before all below it, and each of its subsurfaces with
/// everything below it is one stretch, in the order of the subsurfaces. Nothing
/// else is in the order.
pub proof fn lemma_order_is_by_depth(tree: SurfaceTree, i: int)
    requires
        0 <= i < tree.children@.len(),
    ensures
        tree.order()[0] == tree.id,
        tree.order().len() == 1 + forest_order(tree.children@).len(),
        ({
            let from = 1 + forest_order(tree.children@.take(i)).len();
            let one = tree.children@[i].order();
            &&& from + one.len() <= tree.order().len()
            &&& tree.order().subrange(from as int, (from + one.len()) as int) == one
            &&& 1 + forest_order(tree.children@.take(i + 1)).len() == from + one.len()
        }),
        forest_order(tree.children@.take(0)).len() == 0,
{
    let trees = tree.children@;
    lemma_part_of_forest(trees, i);
    lemma_forest_order_take(trees, i);
    let done = forest_order(trees.take(i));
    let one = trees[i].order();
    let from = 1 + done.len();
    assert(tree.order().subrange(from as int, (from + one.len()) as int) =~= one) by {
        assert forall|k: int| 0 <= k < one.len() implies tree.order()[from + k]
            == #[trigger] one[k] by {
            assert(forest_order(trees)[done.len() + k] == one[k]);
        }
    }
    assert(trees.take(0) =~= seq![]);
}

/// A surface without subsurfaces is all there is.
pub proof fn lemma_order_of_one(tree: SurfaceTree)
    requires
        tree.children@.len() == 0,
    ensures
        tree.order() == seq![tree.id],
{
    assert(tree.order() =~= seq![tree.id]);
}

} // verus!
