use vstd::prelude::*;
use crate::rules::{TransformAction, TransformationLoop};
use crate::transform::{Step, Transform, repeat};

verus! {

broadcast use vstd::seq_lib::group_seq_properties;

/// The views of a list of transforms.
pub open spec fn views(ts: Seq<Transform>) -> Seq<Seq<Step>> {
    ts.map_values(|t: Transform| t@)
}

proof fn lemma_views_push(ts: Seq<Transform>, t: Transform)
    ensures
        views(ts.push(t)) == views(ts).push(t@),
{
    assert(views(ts.push(t)) =~= views(ts).push(t@));
}

/// The views of a list of lists of transforms.
pub open spec fn nested_views(ls: Seq<Vec<Transform>>) -> Seq<Seq<Seq<Step>>> {
    ls.map_values(|l: Vec<Transform>| views(l@))
}

/// The terms of one loop: `tx∘t`, `tx∘t∘t`, ..., `count` of them.
pub open spec fn loop_terms(tx: Seq<Step>, t: Seq<Step>, count: nat) -> Seq<Seq<Step>> {
    Seq::new(count, |k: int| tx + repeat(t, (k + 1) as nat))
}

/// Every choice of one item from each list, in order: the first list varies
/// slowest. No list gives one empty choice.
pub open spec fn cartesian<A>(lists: Seq<Seq<A>>) -> Seq<Seq<A>>
    decreases lists.len(),
{
    if lists.len() == 0 {
        seq![Seq::empty()]
    } else {
        let rest = cartesian(lists.drop_first());
        lists[0].map_values(|a: A| rest.map_values(|r: Seq<A>| seq![a] + r)).flatten()
    }
}

/// The placements of an action reached with accumulated transform `tx`:
/// `tx` itself where there is no loop; else, for each choice of one term per
/// loop, the composition of the chosen terms from left to right.
pub open spec fn placements(tx: Seq<Step>, loops: Seq<TransformationLoop>) -> Seq<Seq<Step>> {
    if loops.len() == 0 {
        seq![tx]
    } else {
        cartesian(
            loops.map_values(|l: TransformationLoop| loop_terms(tx, l.transform@, l.count as nat)),
        ).map_values(|c: Seq<Seq<Step>>| c.flatten())
    }
}

/// Relies on itertools' `multi_cartesian_product`: it yields every choice of
/// one item from each list, the last list varying fastest, and nothing when
/// a list is empty.
#[verifier::external_body]
fn product(lists: Vec<Vec<Transform>>) -> (r: Vec<Vec<Transform>>)
    requires
        lists@.len() > 0,
    ensures
        nested_views(r@) == cartesian(nested_views(lists@)),
{
    itertools::Itertools::multi_cartesian_product(lists.into_iter().map(|l| l.into_iter())).collect()
}

/// The terms of a loop of `count` repetitions of `t`, each seeded with `tx`.
fn terms(tx: &Transform, t: &Transform, count: usize) -> (r: Vec<Transform>)
    ensures
        views(r@) == loop_terms(tx@, t@, count as nat),
{
    let mut out: Vec<Transform> = Vec::new();
    let mut state = tx.duplicate();
    let mut k: usize = 0;
    while k < count
        invariant
            k <= count,
            state@ == tx@ + repeat(t@, k as nat),
            views(out@) == loop_terms(tx@, t@, k as nat),
        decreases count - k,
    {
        state = state.compose(t);
        proof {
            assert(state@ =~= tx@ + repeat(t@, (k + 1) as nat));
        }
        let ghost before = out@;
        let next = state.duplicate();
        out.push(next);
        proof {
            lemma_views_push(before, next);
            assert(loop_terms(tx@, t@, (k + 1) as nat) =~= loop_terms(tx@, t@, k as nat).push(next@));
        }
        k = k + 1;
    }
    out
}

/// The composition of `ts` from left to right.
fn fold(ts: &Vec<Transform>) -> (r: Transform)
    ensures
        r@ == views(ts@).flatten(),
{
    let mut acc = Transform::identity();
    let mut i: usize = 0;
    while i < ts.len()
        invariant
            i <= ts@.len(),
            acc@ == views(ts@.take(i as int)).flatten(),
        decreases ts@.len() - i,
    {
        proof {
            assert(views(ts@.take(i + 1)) =~= views(ts@.take(i as int)).push(ts@[i as int]@));
            views(ts@.take(i as int)).lemma_flatten_push(ts@[i as int]@);
        }
        acc = acc.compose(&ts[i]);
        i = i + 1;
    }
    proof {
        assert(ts@.take(i as int) =~= ts@);
    }
    acc
}

impl TransformAction {
    /// The transforms under which this action invokes its rule, when reached
    /// with the accumulated transform `tx`.
    pub fn placements(&self, tx: &Transform) -> (r: Vec<Transform>)
        ensures
            views(r@) == placements(tx@, self.loops@),
    {
        let mut out: Vec<Transform> = Vec::new();
        if self.loops.len() == 0 {
            out.push(tx.duplicate());
            proof {
                assert(views(out@) =~= seq![tx@]);
            }
            return out;
        }
        let ghost per_loop = self.loops@.map_values(
            |l: TransformationLoop| loop_terms(tx@, l.transform@, l.count as nat),
        );
        let mut lists: Vec<Vec<Transform>> = Vec::new();
        let mut j: usize = 0;
        while j < self.loops.len()
            invariant
                j <= self.loops@.len(),
                per_loop == self.loops@.map_values(
                    |l: TransformationLoop| loop_terms(tx@, l.transform@, l.count as nat),
                ),
                nested_views(lists@) == per_loop.take(j as int),
            decreases self.loops@.len() - j,
        {
            let l = &self.loops[j];
            let ts = terms(tx, &l.transform, l.count);
            let ghost before = lists@;
            let ghost tsv = views(ts@);
            lists.push(ts);
            proof {
                assert(nested_views(lists@) =~= nested_views(before).push(tsv));
                assert(per_loop.take(j + 1) =~= per_loop.take(j as int).push(per_loop[j as int]));
            }
            j = j + 1;
        }
        proof {
            assert(per_loop.take(j as int) =~= per_loop);
        }
        let combos = product(lists);
        let ghost all = cartesian(per_loop);
        let mut i: usize = 0;
        while i < combos.len()
            invariant
                i <= combos@.len(),
                nested_views(combos@) == all,
                all == cartesian(per_loop),
                views(out@) == all.take(i as int).map_values(|c: Seq<Seq<Step>>| c.flatten()),
            decreases combos@.len() - i,
        {
            let t = fold(&combos[i]);
            proof {
                assert(all[i as int] == views(combos@[i as int]@));
            }
            let ghost before = out@;
            let ghost tv = t@;
            out.push(t);
            proof {
                lemma_views_push(before, t);
                assert(all.take(i + 1).map_values(|c: Seq<Seq<Step>>| c.flatten()) =~= all.take(
                    i as int,
                ).map_values(|c: Seq<Seq<Step>>| c.flatten()).push(all[i as int].flatten()));
            }
            i = i + 1;
        }
        proof {
            assert(all.take(i as int) =~= all);
        }
        out
    }
}

} // verus!
