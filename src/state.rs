use vstd::prelude::*;
use crate::operation::{Operation, OperationKind, operation_value};
use crate::pairs::{get_all_pairs_ordered, ordered_pairs, from_distinct_positions, lemma_ordered_pairs_len, lemma_ordered_pairs_members};

verus! {

/// The mathematical content of a game state.
pub struct GameView {
    pub numbers: Seq<i32>,
    pub target: i32,
    pub history: Seq<Operation>,
}

/// `s` with the first occurrence of `v` taken out; `s` itself when `v` does
/// not occur.
pub open spec fn remove_first(s: Seq<i32>, v: i32) -> Seq<i32>
    decreases s.len(),
{
    if s.len() == 0 {
        s
    } else if s[0] == v {
        s.drop_first()
    } else {
        seq![s[0]] + remove_first(s.drop_first(), v)
    }
}

/// The state reached from `g` by the defined operation `kind` on `pair`,
/// whose value is `v`.
pub open spec fn child(g: GameView, pair: (i32, i32), kind: OperationKind, v: i32) -> GameView {
    GameView {
        numbers: remove_first(remove_first(g.numbers, pair.0), pair.1).push(v),
        target: g.target,
        history: g.history.push(Operation { operands: pair, operation: kind, value: Some(v) }),
    }
}

/// The children of `g` by `kind`, one for each pair of `ps` on which `kind`
/// is defined, in the order of `ps`.
pub open spec fn expand_kind(g: GameView, kind: OperationKind, ps: Seq<(i32, i32)>) -> Seq<
    GameView,
>
    decreases ps.len(),
{
    if ps.len() == 0 {
        Seq::empty()
    } else {
        expand_kind(g, kind, ps.drop_last()) + match operation_value(ps.last(), kind) {
            Some(v) => seq![child(g, ps.last(), kind, v)],
            None => Seq::empty(),
        }
    }
}

/// Every state reachable from `g` by exactly one operation: operators in the
/// order `+ - * /`, and for each the ordered pairs of `g`'s numbers.
pub open spec fn expansion(g: GameView) -> Seq<GameView> {
    let ps = ordered_pairs(g.numbers);
    expand_kind(g, OperationKind::Add, ps) + expand_kind(g, OperationKind::Subtract, ps)
        + expand_kind(g, OperationKind::Multiply, ps) + expand_kind(g, OperationKind::Divide, ps)
}

/// A state is a solution when its numbers hold the target.
pub open spec fn is_solution_view(g: GameView) -> bool {
    g.numbers.contains(g.target)
}

proof fn lemma_remove_first_at(s: Seq<i32>, v: i32, idx: int)
    requires
        0 <= idx < s.len(),
        s[idx] == v,
        forall|k: int| 0 <= k < idx ==> s[k] != v,
    ensures
        remove_first(s, v) == s.remove(idx),
    decreases s.len(),
{
    if idx == 0 {
        assert(s.drop_first() =~= s.remove(0));
    } else {
        lemma_remove_first_at(s.drop_first(), v, idx - 1);
        assert(seq![s[0]] + s.drop_first().remove(idx - 1) =~= s.remove(idx));
    }
}

proof fn lemma_remove_first_absent(s: Seq<i32>, v: i32)
    requires
        !s.contains(v),
    ensures
        remove_first(s, v) == s,
    decreases s.len(),
{
    if s.len() > 0 {
        assert(s[0] != v);
        assert forall|k: int| 0 <= k < s.drop_first().len() implies s.drop_first()[k] != v by {
            assert(s.drop_first()[k] == s[k + 1]);
        }
        lemma_remove_first_absent(s.drop_first(), v);
        assert(seq![s[0]] + s.drop_first() =~= s);
    }
}

/// Removing the value at position `i` keeps the length down by one and keeps
/// the value at every other position `j`.
proof fn lemma_remove_first_keeps(s: Seq<i32>, i: int, j: int)
    requires
        0 <= i < s.len(),
        0 <= j < s.len(),
        i != j,
    ensures
        remove_first(s, s[i]).len() == s.len() - 1,
        remove_first(s, s[i]).contains(s[j]),
    decreases s.len(),
{
    let t = s.drop_first();
    if s[0] == s[i] {
        if j == 0 {
            assert(t[i - 1] == s[j]);
        } else {
            assert(t[j - 1] == s[j]);
        }
    } else {
        assert(t[i - 1] == s[i]);
        lemma_remove_first_len(t, s[i]);
        let r = seq![s[0]] + remove_first(t, s[i]);
        assert(remove_first(s, s[i]) == r);
        if j == 0 {
            assert(r[0] == s[j]);
        } else {
            lemma_remove_first_keeps(t, i - 1, j - 1);
            assert(t[j - 1] == s[j]);
            let k = choose|k: int|
                0 <= k < remove_first(t, s[i]).len() && remove_first(t, s[i])[k] == s[j];
            assert(r[k + 1] == s[j]);
        }
    }
}

proof fn lemma_remove_first_len(s: Seq<i32>, v: i32)
    requires
        s.contains(v),
    ensures
        remove_first(s, v).len() == s.len() - 1,
    decreases s.len(),
{
    if s[0] != v {
        let k = choose|k: int| 0 <= k < s.len() && s[k] == v;
        assert(s.drop_first()[k - 1] == v);
        lemma_remove_first_len(s.drop_first(), v);
    }
}

/// A child made from the values at two distinct positions has one number
/// fewer and one operation more than its parent.
proof fn lemma_child_counts(g: GameView, i: int, j: int, kind: OperationKind, v: i32)
    requires
        0 <= i < g.numbers.len(),
        0 <= j < g.numbers.len(),
        i != j,
    ensures
        child(g, (g.numbers[i], g.numbers[j]), kind, v).numbers.len() == g.numbers.len() - 1,
        child(g, (g.numbers[i], g.numbers[j]), kind, v).history.len() == g.history.len() + 1,
{
    lemma_remove_first_keeps(g.numbers, i, j);
    lemma_remove_first_len(remove_first(g.numbers, g.numbers[i]), g.numbers[j]);
}

proof fn lemma_expand_kind_counts(g: GameView, kind: OperationKind, ps: Seq<(i32, i32)>)
    requires
        forall|k: int| 0 <= k < ps.len() ==> from_distinct_positions(g.numbers, #[trigger] ps[k]),
    ensures
        expand_kind(g, kind, ps).len() <= ps.len(),
        forall|k: int|
            0 <= k < expand_kind(g, kind, ps).len() ==> {
                &&& (#[trigger] expand_kind(g, kind, ps)[k]).numbers.len() == g.numbers.len() - 1
                &&& expand_kind(g, kind, ps)[k].history.len() == g.history.len() + 1
                &&& expand_kind(g, kind, ps)[k].target == g.target
            },
    decreases ps.len(),
{
    if ps.len() > 0 {
        let pre = ps.drop_last();
        assert forall|k: int|
            0 <= k < pre.len() implies from_distinct_positions(g.numbers, #[trigger] pre[k]) by {
            assert(pre[k] == ps[k]);
        }
        lemma_expand_kind_counts(g, kind, pre);
        let last = ps.last();
        assert(last == ps[ps.len() - 1]);
        assert(from_distinct_positions(g.numbers, ps[ps.len() - 1]));
        let (i, j) = choose|i: int, j: int|
            0 <= i < g.numbers.len() && 0 <= j < g.numbers.len() && i != j && last == (
            g.numbers[i], g.numbers[j]);
        if let Some(v) = operation_value(last, kind) {
            lemma_child_counts(g, i, j, kind, v);
        }
    }
}

/// Expansion conserves the count: every child of a state has one number
/// fewer than it, one operation more in its history, and the same target.
pub proof fn lemma_expansion_counts(g: GameView)
    ensures
        expansion(g).len() <= 4 * (g.numbers.len() * (g.numbers.len() - 1)),
        forall|k: int|
            0 <= k < expansion(g).len() ==> {
                &&& (#[trigger] expansion(g)[k]).numbers.len() == g.numbers.len() - 1
                &&& expansion(g)[k].history.len() == g.history.len() + 1
                &&& expansion(g)[k].target == g.target
            },
{
    let ps = ordered_pairs(g.numbers);
    lemma_ordered_pairs_len(g.numbers);
    assert forall|k: int|
        0 <= k < ps.len() implies from_distinct_positions(g.numbers, #[trigger] ps[k]) by {
        lemma_ordered_pairs_members(g.numbers, k);
    }
    let a = expand_kind(g, OperationKind::Add, ps);
    let b = expand_kind(g, OperationKind::Subtract, ps);
    let c = expand_kind(g, OperationKind::Multiply, ps);
    let d = expand_kind(g, OperationKind::Divide, ps);
    lemma_expand_kind_counts(g, OperationKind::Add, ps);
    lemma_expand_kind_counts(g, OperationKind::Subtract, ps);
    lemma_expand_kind_counts(g, OperationKind::Multiply, ps);
    lemma_expand_kind_counts(g, OperationKind::Divide, ps);
    let e = expansion(g);
    assert(e == a + b + c + d);
    assert forall|k: int| 0 <= k < e.len() implies {
        &&& (#[trigger] e[k]).numbers.len() == g.numbers.len() - 1
        &&& e[k].history.len() == g.history.len() + 1
        &&& e[k].target == g.target
    } by {
        if k < a.len() {
            assert(e[k] == a[k]);
        } else if k < a.len() + b.len() {
            assert(e[k] == b[k - a.len()]);
        } else if k < a.len() + b.len() + c.len() {
            assert(e[k] == c[k - a.len() - b.len()]);
        } else {
            assert(e[k] == d[k - a.len() - b.len() - c.len()]);
        }
    }
}

/// A snapshot of the puzzle: the numbers left, the target, and the
/// operations that led here.
#[derive(Debug)]
pub struct GameState {
    numbers: Vec<i32>,
    target: i32,
    history: Vec<Operation>,
}

impl View for GameState {
    type V = GameView;

    closed spec fn view(&self) -> GameView {
        GameView { numbers: self.numbers@, target: self.target, history: self.history@ }
    }
}

/// The views of a sequence of states.
pub open spec fn views(s: Seq<GameState>) -> Seq<GameView> {
    s.map_values(|g: GameState| g@)
}

/// Takes the first occurrence of `x` out of `v`, if there is one.
fn remove_first_value(v: &mut Vec<i32>, x: i32)
    ensures
        final(v)@ == remove_first(old(v)@, x),
{
    let mut idx: usize = 0;
    while idx < v.len()
        invariant
            v@ == old(v)@,
            idx <= v@.len(),
            forall|k: int| 0 <= k < idx ==> v@[k] != x,
        decreases v@.len() - idx,
    {
        if v[idx] == x {
            proof {
                lemma_remove_first_at(v@, x, idx as int);
            }
            v.remove(idx);
            return;
        }
        idx = idx + 1;
    }
    proof {
        assert(!v@.contains(x));
        lemma_remove_first_absent(v@, x);
    }
}

impl GameState {
    /// The initial state: the starting numbers, the target, and no operation
    /// yet.
    pub fn new(numbers: Vec<i32>, target: i32) -> (r: GameState)
        ensures
            r@.numbers == numbers@,
            r@.target == target,
            r@.history == Seq::<Operation>::empty(),
    {
        GameState { numbers, target, history: Vec::new() }
    }

    pub fn numbers(&self) -> (r: &Vec<i32>)
        ensures
            r@ == self@.numbers,
    {
        &self.numbers
    }

    pub fn target(&self) -> (r: i32)
        ensures
            r == self@.target,
    {
        self.target
    }

    pub fn history(&self) -> (r: &Vec<Operation>)
        ensures
            r@ == self@.history,
    {
        &self.history
    }

    /// The state reached by the operation `kind` on `pair`, whose value is
    /// `value`.
    fn make_child(&self, pair: (i32, i32), kind: OperationKind, value: i32) -> (r: GameState)
        ensures
            r@ == child(self@, pair, kind, value),
    {
        let mut numbers: Vec<i32> = Vec::new();
        let mut i: usize = 0;
        while i < self.numbers.len()
            invariant
                i <= self.numbers@.len(),
                numbers@ == self.numbers@.subrange(0, i as int),
            decreases self.numbers@.len() - i,
        {
            numbers.push(self.numbers[i]);
            i = i + 1;
        }
        assert(numbers@ =~= self.numbers@);
        remove_first_value(&mut numbers, pair.0);
        remove_first_value(&mut numbers, pair.1);
        numbers.push(value);
        let mut history: Vec<Operation> = Vec::new();
        let mut h: usize = 0;
        while h < self.history.len()
            invariant
                h <= self.history@.len(),
                history@ == self.history@.subrange(0, h as int),
            decreases self.history@.len() - h,
        {
            history.push(self.history[h]);
            h = h + 1;
        }
        assert(history@ =~= self.history@);
        history.push(Operation { operands: pair, operation: kind, value: Some(value) });
        GameState { numbers, target: self.target, history }
    }

    /// Appends to `out` the children of this state by `kind`, one for each
    /// pair of `pairs` on which `kind` is defined.
    fn push_children(&self, pairs: &Vec<(i32, i32)>, kind: OperationKind, out: &mut Vec<GameState>)
        ensures
            views(final(out)@) == views(old(out)@) + expand_kind(self@, kind, pairs@),
    {
        let ghost start = views(out@);
        let mut p: usize = 0;
        while p < pairs.len()
            invariant
                p <= pairs@.len(),
                views(out@) == start + expand_kind(self@, kind, pairs@.subrange(0, p as int)),
            decreases pairs@.len() - p,
        {
            let pair = pairs[p];
            let operation = Operation::new(pair, kind);
            let ghost before = out@;
            let ghost sub = pairs@.subrange(0, p + 1);
            assert(sub.drop_last() =~= pairs@.subrange(0, p as int));
            assert(sub.last() == pair);
            if let Some(value) = operation.value {
                let c = self.make_child(pair, kind, value);
                out.push(c);
                assert(views(out@) =~= views(before) + seq![c@]);
            }
            p = p + 1;
        }
        assert(pairs@.subrange(0, pairs@.len() as int) =~= pairs@);
    }

    /// Every state reachable from this one by exactly one operation.
    pub fn apply_operations(&self) -> (r: Vec<GameState>)
        ensures
            views(r@) == expansion(self@),
    {
        let pairs = get_all_pairs_ordered(&self.numbers);
        let mut children: Vec<GameState> = Vec::new();
        assert(views(children@) =~= Seq::<GameView>::empty());
        self.push_children(&pairs, OperationKind::Add, &mut children);
        self.push_children(&pairs, OperationKind::Subtract, &mut children);
        self.push_children(&pairs, OperationKind::Multiply, &mut children);
        self.push_children(&pairs, OperationKind::Divide, &mut children);
        children
    }

    /// Whether the target is among the numbers.
    pub fn is_solution(&self) -> (r: bool)
        ensures
            r == is_solution_view(self@),
    {
        let mut i: usize = 0;
        while i < self.numbers.len()
            invariant
                i <= self.numbers@.len(),
                forall|k: int| 0 <= k < i ==> self.numbers@[k] != self.target,
            decreases self.numbers@.len() - i,
        {
            if self.numbers[i] == self.target {
                return true;
            }
            i = i + 1;
        }
        false
    }
}

} // verus!
