use vstd::prelude::*;
use vstd::multiset::Multiset;
use crate::state::{GameState, GameView, expansion, is_solution_view, views, lemma_expansion_counts};

verus! {

broadcast use vstd::seq_lib::group_to_multiset_ensures, vstd::multiset::group_multiset_axioms;

/// The solutions found below `g` when `fuel` more levels may be expanded:
/// each child that is a solution counts once, and each other child adds the
/// solutions below it.
pub open spec fn solutions_below(g: GameView, fuel: nat) -> Multiset<GameView>
    decreases fuel, 0nat,
{
    if fuel == 0 {
        Multiset::empty()
    } else {
        collect(expansion(g), (fuel - 1) as nat)
    }
}

/// The solutions that the states `cs` contribute: a solution itself, or the
/// solutions below a state that is not one.
pub open spec fn collect(cs: Seq<GameView>, fuel: nat) -> Multiset<GameView>
    decreases fuel, cs.len(),
{
    if cs.len() == 0 {
        Multiset::empty()
    } else {
        let c = cs.last();
        collect(cs.drop_last(), fuel).add(
            if is_solution_view(c) {
                Multiset::singleton(c)
            } else {
                solutions_below(c, fuel)
            },
        )
    }
}

/// Every solution state reachable from `g`, with multiplicity: a state's
/// number count bounds the depth of the tree below it.
pub open spec fn solutions_of(g: GameView) -> Multiset<GameView> {
    solutions_below(g, g.numbers.len())
}

/// The solutions still to be found below the states of a work list.
pub open spec fn pending(ws: Seq<GameView>) -> Multiset<GameView>
    decreases ws.len(),
{
    if ws.len() == 0 {
        Multiset::empty()
    } else {
        pending(ws.drop_last()).add(solutions_of(ws.last()))
    }
}

/// A bound on the number of states in the tree below a state with `k`
/// numbers, the state itself included.
pub open spec fn tree_bound(k: nat) -> nat
    decreases k,
{
    if k == 0 {
        1
    } else {
        1 + 4 * (k * (k - 1) as nat) * tree_bound((k - 1) as nat)
    }
}

/// The sum of the tree bounds of a work list's states.
pub open spec fn work_bound(ws: Seq<GameView>) -> nat
    decreases ws.len(),
{
    if ws.len() == 0 {
        0
    } else {
        work_bound(ws.drop_last()) + tree_bound(ws.last().numbers.len())
    }
}

proof fn lemma_collect_prefix(cs: Seq<GameView>, i: int, fuel: nat)
    requires
        0 <= i < cs.len(),
    ensures
        collect(cs.take(i + 1), fuel) == collect(cs.take(i), fuel).add(
            if is_solution_view(cs[i]) {
                Multiset::singleton(cs[i])
            } else {
                solutions_below(cs[i], fuel)
            },
        ),
{
    assert(cs.take(i + 1).drop_last() =~= cs.take(i));
    assert(cs.take(i + 1).last() == cs[i]);
}

proof fn lemma_children_bound(k: nat, count: nat, pushed: nat)
    requires
        k > 0,
        pushed <= count,
        count <= 4 * (k * (k - 1) as nat),
    ensures
        pushed * tree_bound((k - 1) as nat) < tree_bound(k),
{
    let w = tree_bound((k - 1) as nat);
    assert(pushed * w <= count * w) by (nonlinear_arith)
        requires
            pushed <= count,
    ;
    assert(count * w <= 4 * (k * (k - 1) as nat) * w) by (nonlinear_arith)
        requires
            count <= 4 * (k * (k - 1) as nat),
    ;
}

proof fn lemma_collect_sound(cs: Seq<GameView>, fuel: nat, x: GameView, t: i32, h: nat)
    requires
        collect(cs, fuel).count(x) > 0,
        forall|k: int|
            0 <= k < cs.len() ==> (#[trigger] cs[k]).target == t && cs[k].history.len() >= h,
    ensures
        is_solution_view(x),
        x.target == t,
        x.history.len() >= h,
    decreases fuel, cs.len(),
{
    if cs.len() > 0 {
        let c = cs.last();
        assert(c == cs[cs.len() - 1]);
        let pre = cs.drop_last();
        if collect(pre, fuel).count(x) > 0 {
            assert forall|k: int| 0 <= k < pre.len() implies (#[trigger] pre[k]).target == t
                && pre[k].history.len() >= h by {
                assert(pre[k] == cs[k]);
            }
            lemma_collect_sound(pre, fuel, x, t, h);
        } else if !is_solution_view(c) {
            lemma_below_sound(c, fuel, x);
        }
    }
}

proof fn lemma_below_sound(g: GameView, fuel: nat, x: GameView)
    requires
        solutions_below(g, fuel).count(x) > 0,
    ensures
        is_solution_view(x),
        x.target == g.target,
        x.history.len() > g.history.len(),
    decreases fuel, 0nat,
{
    if fuel > 0 {
        lemma_expansion_counts(g);
        lemma_collect_sound(expansion(g), (fuel - 1) as nat, x, g.target, g.history.len() + 1);
    }
}

/// Every state the search collects is a solution: it holds the target, which
/// is the starting state's, and at least one operation was applied to reach
/// it.
pub proof fn lemma_solutions_sound(g: GameView, x: GameView)
    requires
        solutions_of(g).count(x) > 0,
    ensures
        is_solution_view(x),
        x.target == g.target,
        x.history.len() > g.history.len(),
{
    lemma_below_sound(g, g.numbers.len(), x);
}

/// Explores every state reachable from `game_state` and returns all the
/// solutions met on the way; a solution is not expanded further.
pub fn solve(game_state: GameState) -> (r: Vec<GameState>)
    ensures
        views(r@).to_multiset() == solutions_of(game_state@),
{
    let ghost total = solutions_of(game_state@);
    let mut solutions: Vec<GameState> = Vec::new();
    let mut work_queue: Vec<GameState> = Vec::new();
    work_queue.push(game_state);
    proof {
        assert(views(solutions@) =~= Seq::<GameView>::empty());
        vstd::multiset::lemma_multiset_empty_len(views(solutions@).to_multiset());
        assert(views(solutions@).to_multiset() =~= Multiset::empty());
        assert(views(work_queue@) =~= seq![game_state@]);
        assert(views(work_queue@).drop_last() =~= Seq::<GameView>::empty());
        assert(views(work_queue@).last() == game_state@);
        assert(pending(views(work_queue@).drop_last()) =~= Multiset::empty());
        assert(pending(views(work_queue@)) =~= total);
        assert(views(solutions@).to_multiset().add(pending(views(work_queue@))) =~= total);
    }
    while work_queue.len() > 0
        invariant
            views(solutions@).to_multiset().add(pending(views(work_queue@))) == total,
        decreases work_bound(views(work_queue@)),
    {
        let ghost ws = views(work_queue@);
        let state = work_queue.pop().unwrap();
        let ghost g = state@;
        let ghost rest = views(work_queue@);
        let ghost f = g.numbers.len();
        let ghost found = views(solutions@).to_multiset();
        let ghost rest_bound = work_bound(rest);
        proof {
            assert(rest =~= ws.drop_last());
            assert(ws.last() == g);
            assert(pending(ws) == pending(rest).add(solutions_of(g)));
            lemma_expansion_counts(g);
        }
        let mut children = state.apply_operations();
        let ghost cs = views(children@);
        proof {
            if f == 0 {
                assert(cs.len() == 0);
            }
            assert(cs.take(cs.len() as int) =~= cs);
            assert(views(solutions@).to_multiset().add(pending(views(work_queue@))) =~= found.add(
                pending(rest),
            ));
        }
        let ghost pushed: nat = 0;
        while children.len() > 0
            invariant
                cs == expansion(g),
                f == g.numbers.len(),
                children@.len() <= cs.len(),
                views(children@) == cs.take(children@.len() as int),
                f > 0 || cs.len() == 0,
                cs.len() <= 4 * (f * (f - 1) as nat),
                forall|k: int| 0 <= k < cs.len() ==> (#[trigger] cs[k]).numbers.len() == f - 1,
                f > 0 ==> found.add(pending(rest)).add(collect(cs, (f - 1) as nat)) == total,
                views(solutions@).to_multiset().add(pending(views(work_queue@))).add(
                    collect(cs.take(children@.len() as int), (f - 1) as nat),
                ) == found.add(pending(rest)).add(collect(cs, (f - 1) as nat)),
                pushed <= cs.len() - children@.len(),
                work_bound(views(work_queue@)) == rest_bound + pushed * tree_bound(
                    (f - 1) as nat,
                ),
            decreases children@.len(),
        {
            let ghost before_sol = views(solutions@);
            let ghost before_work = views(work_queue@);
            let ghost i = children@.len() - 1;
            let ghost cv = cs[i];
            proof {
                lemma_collect_prefix(cs, i, (f - 1) as nat);
                assert(views(children@)[i] == cv);
            }
            let child = children.pop().unwrap();
            proof {
                assert(child@ == cv);
                assert(views(children@) =~= cs.take(i));
            }
            if child.is_solution() {
                solutions.push(child);
                proof {
                    assert(views(solutions@) =~= before_sol.push(cv));
                    assert(views(solutions@).to_multiset() =~= before_sol.to_multiset().add(
                        Multiset::singleton(cv),
                    ));
                }
            } else {
                work_queue.push(child);
                proof {
                    let nw = views(work_queue@);
                    assert(nw =~= before_work.push(cv));
                    assert(nw.drop_last() =~= before_work);
                    assert(pending(nw) == pending(before_work).add(solutions_of(cv)));
                    assert(work_bound(nw) == work_bound(before_work) + tree_bound((f - 1) as nat));
                    assert((pushed + 1) * tree_bound((f - 1) as nat) == pushed * tree_bound(
                        (f - 1) as nat,
                    ) + tree_bound((f - 1) as nat)) by (nonlinear_arith);
                    pushed = pushed + 1;
                }
            }
            proof {
                assert(views(solutions@).to_multiset().add(pending(views(work_queue@))).add(
                    collect(cs.take(i), (f - 1) as nat),
                ) =~= found.add(pending(rest)).add(collect(cs, (f - 1) as nat)));
            }
        }
        proof {
            assert(cs.take(0) =~= Seq::<GameView>::empty());
            let x = views(solutions@).to_multiset().add(pending(views(work_queue@)));
            assert(collect(cs.take(0), (f - 1) as nat) =~= Multiset::empty());
            assert(x.add(collect(cs.take(0), (f - 1) as nat)) =~= x);
            assert(children@.len() == 0);
            assert(x == found.add(pending(rest)).add(collect(cs, (f - 1) as nat)));
            if f > 0 {
                lemma_children_bound(f, cs.len(), pushed);
                assert(views(solutions@).to_multiset().add(pending(views(work_queue@))) =~= total);
            } else {
                assert(solutions_of(g) =~= Multiset::empty());
                assert(views(solutions@).to_multiset().add(pending(views(work_queue@))) =~= found.add(
                    pending(rest),
                ));
                assert(total =~= found.add(pending(rest)));
            }
        }
    }
    proof {
        assert(views(work_queue@) =~= Seq::<GameView>::empty());
        assert(views(solutions@).to_multiset() =~= total);
    }
    solutions
}

/// `k` is the position of the shortest solution of `s`: no state has a
/// shorter history, and every state before it has a longer one.
pub open spec fn is_shortest_at(s: Seq<GameView>, k: int) -> bool {
    &&& 0 <= k < s.len()
    &&& forall|j: int| 0 <= j < s.len() ==> s[j].history.len() >= s[k].history.len()
    &&& forall|j: int| 0 <= j < k ==> s[j].history.len() > s[k].history.len()
}

/// The solution with the fewest operations, the first such one in the
/// order given; `None` when there is none.
pub fn find_shortest_solution(solutions: Vec<GameState>) -> (r: Option<GameState>)
    ensures
        r is None <==> solutions@.len() == 0,
        r matches Some(g) ==> exists|k: int|
            is_shortest_at(views(solutions@), k) && g@ == views(solutions@)[k],
{
    let mut solutions = solutions;
    if solutions.len() == 0 {
        return None;
    }
    let ghost s = views(solutions@);
    let mut best: usize = 0;
    let mut i: usize = 1;
    while i < solutions.len()
        invariant
            s == views(solutions@),
            1 <= i <= solutions@.len(),
            best < i,
            forall|j: int| 0 <= j < i ==> s[j].history.len() >= s[best as int].history.len(),
            forall|j: int| 0 <= j < best ==> s[j].history.len() > s[best as int].history.len(),
        decreases solutions@.len() - i,
    {
        if solutions[i].history().len() < solutions[best].history().len() {
            best = i;
        }
        i = i + 1;
    }
    let g = solutions.remove(best);
    assert(is_shortest_at(s, best as int));
    Some(g)
}

/// The shortest solution is well defined: at most one position of a sequence
/// of states holds it.
pub proof fn lemma_shortest_unique(s: Seq<GameView>, k1: int, k2: int)
    requires
        is_shortest_at(s, k1),
        is_shortest_at(s, k2),
    ensures
        k1 == k2,
{
    assert(s[k1].history.len() <= s[k2].history.len());
    assert(s[k2].history.len() <= s[k1].history.len());
}

/// The search is deterministic: two runs on states with the same view find
/// the same solutions, as a multiset, whatever order each explored them in.
pub proof fn lemma_search_deterministic(
    g1: GameView,
    g2: GameView,
    r1: Seq<GameView>,
    r2: Seq<GameView>,
)
    requires
        g1 == g2,
        r1.to_multiset() == solutions_of(g1),
        r2.to_multiset() == solutions_of(g2),
    ensures
        r1.to_multiset() == r2.to_multiset(),
{
}

} // verus!
