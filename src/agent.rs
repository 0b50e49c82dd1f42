use vstd::prelude::*;
use chess_engine::Board;
use crate::board::{
    Side, hash_gamestate, key_of, material, material_totals, side_to_move, starting_board,
    successors, successors_of, terminated, turn_of,
};
use crate::chance::random_below;
use crate::environment::{ChessEnvironment, TerminalState, outcome};
use crate::experience::{
    Experience, Memory, Recollection, fresh, last_index, lemma_last_index, lookup_in, memorized,
    merge_step,
};
use crate::value::{
    ONE, blend, blended, discount_power, discount_weight, div_toward_zero, lemma_discount_weight_bounds,
    lemma_material_balance_bounds, material_balance,
    material_value, scale, scaled,
};

verus! {

/// The reward of a finished game: 1.0 for a win, -1.0 for a loss, 0 for a draw.
pub open spec fn reward(t: TerminalState) -> int {
    match t {
        TerminalState::Win => ONE as int,
        TerminalState::Loss => -ONE,
        TerminalState::Draw => 0,
    }
}

/// Whether `x` is strictly better than `y` for `mover`, values being given
/// from White's point of view.
pub open spec fn better_for(mover: Side, x: int, y: int) -> bool {
    match mover {
        Side::White => x > y,
        Side::Black => x < y,
    }
}

/// The first index among the first `n` values whose value is best for `mover`.
pub open spec fn favoured_among(vals: Seq<i64>, mover: Side, n: nat) -> int
    decreases n,
{
    if n <= 1 {
        0
    } else {
        let b = favoured_among(vals, mover, (n - 1) as nat);
        if better_for(mover, vals[n - 1] as int, vals[b] as int) {
            n - 1
        } else {
            b
        }
    }
}

/// The first index whose value is best for `mover`: the highest for White,
/// the lowest for Black.
pub open spec fn favoured_index(vals: Seq<i64>, mover: Side) -> int {
    favoured_among(vals, mover, vals.len())
}

/// The stored values of positions, as a lookup in `m` gives them.
pub open spec fn stored_values(m: Memory, positions: Seq<Board>) -> Seq<i64> {
    positions.map_values(|p: Board| lookup_in(m, key_of(p)).average_value)
}

/// The key by which `rank_confidence_in_positions` orders index `a`: its
/// stored value for White, the value negated for Black.
pub open spec fn rank_key(vals: Seq<i64>, side: Side, a: int) -> int {
    match side {
        Side::White => vals[a] as int,
        Side::Black => -(vals[a] as int),
    }
}

/// Whether index `a` comes before index `b` in a stable ranking: by key,
/// and by index where the keys are equal.
pub open spec fn ranks_before(vals: Seq<i64>, side: Side, a: int, b: int) -> bool {
    rank_key(vals, side, a) < rank_key(vals, side, b) || (rank_key(vals, side, a) == rank_key(
        vals,
        side,
        b,
    ) && a < b)
}

/// Whether `perm` lists every index of `vals` once, in stable ranking order.
pub open spec fn ranked_by(vals: Seq<i64>, side: Side, perm: Seq<int>) -> bool {
    &&& perm.len() == vals.len()
    &&& forall|k: int| 0 <= k < perm.len() ==> 0 <= #[trigger] perm[k] < vals.len()
    &&& forall|k: int, l: int|
        0 <= k < l < perm.len() ==> ranks_before(vals, side, #[trigger] perm[k], #[trigger] perm[l])
}

/// Whether index `a` ranks before index `b` for `side`.
pub fn sorts_before(vals: &Vec<i64>, side: Side, a: usize, b: usize) -> (r: bool)
    requires
        a < vals@.len(),
        b < vals@.len(),
    ensures
        r == ranks_before(vals@, side, a as int, b as int),
{
    let (ka, kb): (i128, i128) = match side {
        Side::White => (vals[a] as i128, vals[b] as i128),
        Side::Black => (-(vals[a] as i128), -(vals[b] as i128)),
    };
    ka < kb || (ka == kb && a < b)
}

/// A value from White's point of view, seen by `side`.
pub open spec fn own_value(side: Side, v: int) -> int {
    match side {
        Side::White => v,
        Side::Black => -v,
    }
}

/// The value of `b` at `depth` when every step exploits, with the memory
/// after the search. A finished game gives its discounted reward; at the
/// horizon the discounted material heuristic stands. Otherwise the search
/// follows the successor whose stored value is best for the side to move,
/// blends the discounted stored value of `b` with the value found there, and
/// merges the blend into the entry of `b`.
pub open spec fn exploit_eval(
    side: Side,
    foresight: u32,
    discount: i64,
    m: Memory,
    b: Board,
    depth: nat,
) -> (int, Memory)
    decreases foresight - depth,
{
    let w = discount_weight(discount as int, depth);
    if terminated(b) {
        (scaled(reward(outcome(b, side)), w), m)
    } else if depth >= foresight {
        (scaled(material_balance(material(b, Side::White) as int, material(b, Side::Black) as int), w), m)
    } else {
        let succ = successors_of(b);
        let i = favoured_index(stored_values(m, succ), turn_of(b));
        let expected = scaled(lookup_in(m, key_of(b)).average_value as int, w);
        let (next, m1) = exploit_eval(side, foresight, discount, m, succ[i], depth + 1);
        let v = blended(expected, next);
        (v, memorized(m1, key_of(b), v))
    }
}

/// Whether a draw from `[0, ONE)` sends the search exploring: it does when
/// the draw is above the exploration propensity.
pub open spec fn draw_explores(draw: int, propensity: int) -> bool {
    draw > propensity
}

/// `old + n`, saturating at `u64::MAX`.
pub open spec fn counted(old: int, n: nat) -> int {
    if old + n > u64::MAX {
        u64::MAX as int
    } else {
        old + n
    }
}

/// Whether every draw of `steps` lies in `[0, ONE)`.
pub open spec fn draws_in_range(steps: Seq<(int, int)>) -> bool {
    forall|k: int| 0 <= k < steps.len() ==> 0 <= (#[trigger] steps[k]).0 < ONE
}

/// The value of `b` at `depth`, the memory after the search and the number
/// of positions it blended, when the search meets the draws of `steps` in
/// turn, one `(draw, index)` pair per depth below the horizon: a draw that
/// explores sends it into the successor at `index` (the first where `index`
/// names none), any other into the successor whose stored value is best for
/// the side to move. A finished game and the horizon are valued as in
/// `exploit_eval`. Missing steps count as `(0, 0)`.
pub open spec fn search_along(
    side: Side,
    foresight: u32,
    discount: i64,
    propensity: i64,
    m: Memory,
    b: Board,
    depth: nat,
    steps: Seq<(int, int)>,
) -> (int, Memory, nat)
    decreases foresight - depth,
{
    let w = discount_weight(discount as int, depth);
    if terminated(b) {
        (scaled(reward(outcome(b, side)), w), m, 0)
    } else if depth >= foresight {
        (scaled(material_balance(material(b, Side::White) as int, material(b, Side::Black) as int), w), m, 0)
    } else {
        let succ = successors_of(b);
        let step = if steps.len() > 0 {
            steps[0]
        } else {
            (0, 0)
        };
        let i = if draw_explores(step.0, propensity as int) {
            if 0 <= step.1 < succ.len() {
                step.1
            } else {
                0
            }
        } else {
            favoured_index(stored_values(m, succ), turn_of(b))
        };
        let expected = scaled(lookup_in(m, key_of(b)).average_value as int, w);
        let (next, m1, n) = search_along(
            side,
            foresight,
            discount,
            propensity,
            m,
            succ[i],
            depth + 1,
            steps.drop_first(),
        );
        let v = blended(expected, next);
        (v, memorized(m1, key_of(b), v), n + 1)
    }
}

/// Nodes blended by a search never outnumber the plies to the horizon.
pub proof fn lemma_search_nodes(
    side: Side,
    foresight: u32,
    discount: i64,
    propensity: i64,
    m: Memory,
    b: Board,
    depth: nat,
    steps: Seq<(int, int)>,
)
    ensures
        search_along(side, foresight, discount, propensity, m, b, depth, steps).2 <= if depth
            <= foresight {
            foresight - depth
        } else {
            0
        },
    decreases foresight - depth,
{
    if !terminated(b) && depth < foresight {
        let succ = successors_of(b);
        let step = if steps.len() > 0 {
            steps[0]
        } else {
            (0, 0)
        };
        let i = if draw_explores(step.0, propensity as int) {
            if 0 <= step.1 < succ.len() {
                step.1
            } else {
                0
            }
        } else {
            favoured_index(stored_values(m, succ), turn_of(b))
        };
        lemma_search_nodes(side, foresight, discount, propensity, m, succ[i], depth + 1, steps.drop_first());
    }
}

/// The choice among the first `n` successors when the search of successor
/// `k` meets the draws `paths[k]`: the index of the first best value for
/// `side`, that value, and the memory after evaluating them in order.
pub open spec fn choice_along(
    side: Side,
    foresight: u32,
    discount: i64,
    propensity: i64,
    m: Memory,
    succ: Seq<Board>,
    n: nat,
    paths: Seq<Seq<(int, int)>>,
) -> (int, int, Memory)
    decreases n,
{
    if n == 0 {
        (0, 0, m)
    } else {
        let (i, best, m1) = choice_along(side, foresight, discount, propensity, m, succ, (n - 1) as nat, paths);
        let (v, m2, _) = search_along(side, foresight, discount, propensity, m1, succ[n - 1], 1, paths[n - 1]);
        let mine = own_value(side, v);
        if n == 1 || mine > best {
            (n - 1, mine, m2)
        } else {
            (i, best, m2)
        }
    }
}

/// The choice among the first `n` successors reads only the first `n` paths.
pub proof fn lemma_choice_along_prefix(
    side: Side,
    foresight: u32,
    discount: i64,
    propensity: i64,
    m: Memory,
    succ: Seq<Board>,
    n: nat,
    paths: Seq<Seq<(int, int)>>,
    p: Seq<(int, int)>,
)
    requires
        n <= paths.len(),
    ensures
        choice_along(side, foresight, discount, propensity, m, succ, n, paths.push(p)) == choice_along(
            side,
            foresight,
            discount,
            propensity,
            m,
            succ,
            n,
            paths,
        ),
    decreases n,
{
    if n > 0 {
        lemma_choice_along_prefix(side, foresight, discount, propensity, m, succ, (n - 1) as nat, paths, p);
        assert(paths.push(p)[n - 1] == paths[n - 1]);
    }
}

/// The choice among the first `n` successors when every step exploits: the
/// index of the first best value for `side`, that value, and the memory after
/// evaluating them in order.
pub open spec fn exploit_choice_among(
    side: Side,
    foresight: u32,
    discount: i64,
    m: Memory,
    succ: Seq<Board>,
    n: nat,
) -> (int, int, Memory)
    decreases n,
{
    if n == 0 {
        (0, 0, m)
    } else {
        let (i, best, m1) = exploit_choice_among(side, foresight, discount, m, succ, (n - 1) as nat);
        let (v, m2) = exploit_eval(side, foresight, discount, m1, succ[n - 1], 1);
        let mine = own_value(side, v);
        if n == 1 || mine > best {
            (n - 1, mine, m2)
        } else {
            (i, best, m2)
        }
    }
}

/// The choice in `b` when every step exploits: the index of the chosen
/// successor and the memory afterwards.
pub open spec fn exploit_choice(side: Side, foresight: u32, discount: i64, m: Memory, b: Board) -> (
    int,
    Memory,
) {
    let r = exploit_choice_among(side, foresight, discount, m, successors_of(b), successors_of(b).len());
    (r.0, r.2)
}

/// The other side.
pub open spec fn opponent(side: Side) -> Side {
    match side {
        Side::White => Side::Black,
        Side::Black => Side::White,
    }
}

/// A finished game evaluated `depth` plies ahead is worth exactly
/// `discount^depth` when won, its negation when lost, and zero when drawn.
pub proof fn lemma_terminal_value_discounted(discount: int, depth: nat)
    requires
        0 <= discount <= ONE,
    ensures
        scaled(reward(TerminalState::Win), discount_weight(discount, depth)) == discount_weight(
            discount,
            depth,
        ),
        scaled(reward(TerminalState::Loss), discount_weight(discount, depth)) == -discount_weight(
            discount,
            depth,
        ),
        scaled(reward(TerminalState::Draw), discount_weight(discount, depth)) == 0,
{
    let w = discount_weight(discount, depth);
    lemma_discount_weight_bounds(discount, depth);
    assert((ONE as int) * w / (ONE as int) == w) by (nonlinear_arith)
        requires ONE > 0;
    assert(-(-(ONE as int) * w) == (ONE as int) * w);
    assert(0 * w == 0);
}

/// The favoured index is in range, no value is better for `mover` than
/// its value, and it is better than every value before it: ties go to the
/// first.
pub proof fn lemma_favoured_index(vals: Seq<i64>, mover: Side, n: nat)
    requires
        1 <= n <= vals.len(),
    ensures
        0 <= favoured_among(vals, mover, n) < n,
        forall|j: int|
            0 <= j < n ==> !better_for(
                mover,
                #[trigger] vals[j] as int,
                vals[favoured_among(vals, mover, n)] as int,
            ),
        forall|j: int|
            0 <= j < favoured_among(vals, mover, n) ==> better_for(
                mover,
                vals[favoured_among(vals, mover, n)] as int,
                #[trigger] vals[j] as int,
            ),
    decreases n,
{
    if n > 1 {
        lemma_favoured_index(vals, mover, (n - 1) as nat);
    }
}

/// Whether a draw sends the search exploring: it does when the draw is above
/// the exploration propensity.
pub fn explores(draw: u64, propensity: i64) -> (r: bool)
    ensures
        r == draw_explores(draw as int, propensity as int),
{
    (draw as i128) > (propensity as i128)
}

/// The index of the first value best for `mover`.
pub fn pick_favoured(vals: &Vec<i64>, mover: Side) -> (r: usize)
    requires
        vals@.len() > 0,
    ensures
        r == favoured_index(vals@, mover),
        r < vals@.len(),
{
    let mut best: usize = 0;
    let mut i: usize = 1;
    while i < vals.len()
        invariant
            1 <= i <= vals@.len(),
            best == favoured_among(vals@, mover, i as nat),
            best < i,
        decreases vals@.len() - i,
    {
        let better = match mover {
            Side::White => vals[i] > vals[best],
            Side::Black => vals[i] < vals[best],
        };
        if better {
            best = i;
        }
        i = i + 1;
    }
    best
}

/// A decision agent: a bounded search over future positions, steered by and
/// feeding an experience store. Values are from White's point of view.
pub struct ChessAgent {
    pub playing_as: Side,
    pub experience: Experience,
    pub last_decision: Board,
    /// The depth at which the search stops and the material heuristic stands.
    pub foresight: u32,
    /// The discount per ply, in fixed point, strictly between 0 and `ONE`.
    pub discount: i64,
    /// How many positions the search has evaluated, for diagnostics.
    pub positions_evaluated: u64,
    /// A draw from `[0, ONE)` above this explores; `ONE` always exploits.
    pub exploration_propensity: i64,
}

impl ChessAgent {
    /// Settings that the search can run with.
    pub open spec fn wf(&self) -> bool {
        &&& self.foresight >= 1
        &&& 0 < self.discount < ONE
        &&& 0 <= self.exploration_propensity <= ONE
        &&& self.experience.wf()
    }

    /// Whether `other` has the same settings as `self`.
    pub open spec fn same_settings(&self, other: &ChessAgent) -> bool {
        &&& other.playing_as == self.playing_as
        &&& other.foresight == self.foresight
        &&& other.discount == self.discount
        &&& other.exploration_propensity == self.exploration_propensity
        &&& other.experience.location() == self.experience.location()
    }

    /// An agent playing White with foresight 4, discount 0.9 and exploration
    /// propensity 0.5, whose experience is kept under `./experience`.
    pub fn new() -> (r: ChessAgent)
        ensures
            r.wf(),
            r.playing_as == Side::White,
            r.foresight == 4,
            r.discount == 900_000,
            r.exploration_propensity == 500_000,
            r.positions_evaluated == 0,
            r.experience.memory().len() == 0,
    {
        ChessAgent {
            playing_as: Side::White,
            experience: Experience::new("./experience"),
            last_decision: starting_board(),
            foresight: 4,
            discount: 900_000,
            positions_evaluated: 0,
            exploration_propensity: 500_000,
        }
    }

    /// Draws from `[0, ONE)` and answers whether the draw is above the
    /// exploration propensity.
    pub fn will_explore(&self) -> (r: bool)
        ensures
            exists|d: int| 0 <= d < ONE && r == draw_explores(d, self.exploration_propensity as int),
    {
        let draw = random_below(ONE as u64);
        explores(draw, self.exploration_propensity)
    }

    /// The stored values of `positions`, in order.
    pub fn stored_values_of(&self, positions: &Vec<Board>) -> (r: Vec<i64>)
        ensures
            r@ == stored_values(self.experience.memory(), positions@),
    {
        let ghost m = self.experience.memory();
        let mut vals: Vec<i64> = Vec::new();
        let mut i: usize = 0;
        while i < positions.len()
            invariant
                i <= positions@.len(),
                m == self.experience.memory(),
                vals@ == stored_values(m, positions@.take(i as int)),
            decreases positions@.len() - i,
        {
            let key = hash_gamestate(&positions[i]);
            let v = self.experience.lookup(&key).average_value;
            vals.push(v);
            i = i + 1;
            assert(vals@ =~= stored_values(m, positions@.take(i as int)));
        }
        assert(positions@.take(i as int) =~= positions@);
        vals
    }

    /// Reorders `positions` by stored value, stably: ascending when this
    /// agent plays White, descending when it plays Black. Position `k` of the
    /// result is position `perm[k]` of the input, for an ordering `perm` of
    /// the indices that `ranks_before` sorts.
    pub fn rank_confidence_in_positions(&self, positions: &mut Vec<Board>)
        ensures
            final(positions)@.len() == old(positions)@.len(),
            exists|perm: Seq<int>|
                #[trigger] ranked_by(
                    stored_values(self.experience.memory(), old(positions)@),
                    self.playing_as,
                    perm,
                ) && perm.len() == old(positions)@.len() && forall|k: int|
                    0 <= k < perm.len() ==> final(positions)@[k] == old(positions)@[perm[k]],
    {
        let vals = self.stored_values_of(positions);
        let side = self.playing_as;
        let n = positions.len();
        let mut idx: Vec<usize> = Vec::new();
        let mut i: usize = 0;
        while i < n
            invariant
                i <= n,
                idx@.len() == i,
                forall|k: int| 0 <= k < i ==> idx@[k] == k,
            decreases n - i,
        {
            idx.push(i);
            i = i + 1;
        }
        let mut i: usize = 1;
        while i < n
            invariant
                vals@.len() == n,
                idx@.len() == n,
                1 <= i || n == 0,
                i <= n || n == 0,
                forall|k: int| 0 <= k < i && k < n ==> idx@[k] < i,
                forall|k: int| i <= k < n ==> idx@[k] == k,
                forall|k: int, l: int|
                    0 <= k < l < i && l < n ==> ranks_before(vals@, side, idx@[k] as int, idx@[l] as int),
            decreases n - i,
        {
            let mut j: usize = i;
            while j > 0 && sorts_before(&vals, side, idx[j], idx[j - 1])
                invariant
                    vals@.len() == n,
                    idx@.len() == n,
                    1 <= i < n,
                    j <= i,
                    idx@[j as int] == i,
                    forall|k: int| 0 <= k <= i && k != j ==> idx@[k] < i,
                    forall|k: int| i < k < n ==> idx@[k] == k,
                    forall|k: int, l: int|
                        0 <= k < l <= i && k != j && l != j ==> ranks_before(
                            vals@,
                            side,
                            idx@[k] as int,
                            idx@[l] as int,
                        ),
                    forall|l: int| j < l <= i ==> ranks_before(vals@, side, i as int, idx@[l] as int),
                decreases j,
            {
                let a = idx[j - 1];
                let b = idx[j];
                idx.set(j - 1, b);
                idx.set(j, a);
                j = j - 1;
            }
            proof {
                if j > 0 {
                    let p = idx@[j - 1] as int;
                    assert(p < i);
                    assert(ranks_before(vals@, side, p, i as int));
                    assert forall|k: int| 0 <= k < j implies ranks_before(
                        vals@,
                        side,
                        #[trigger] idx@[k] as int,
                        i as int,
                    ) by {
                        if k < j - 1 {
                            assert(ranks_before(vals@, side, idx@[k] as int, p));
                        }
                    }
                }
                assert forall|k: int, l: int|
                    0 <= k < l < i + 1 && l < n implies ranks_before(
                    vals@,
                    side,
                    idx@[k] as int,
                    idx@[l] as int,
                ) by {
                    if l == j {
                        assert(idx@[k] < i);
                    }
                }
            }
            i = i + 1;
        }
        let ghost old_positions = positions@;
        let mut out: Vec<Board> = Vec::new();
        let mut k: usize = 0;
        while k < n
            invariant
                k <= n,
                idx@.len() == n,
                positions@ == old_positions,
                old_positions.len() == n,
                n == 0 || forall|q: int| 0 <= q < n ==> idx@[q] < n,
                out@.len() == k,
                forall|q: int| 0 <= q < k ==> out@[q] == old_positions[idx@[q] as int],
            decreases n - k,
        {
            out.push(positions[idx[k]]);
            k = k + 1;
        }
        *positions = out;
        let ghost perm = idx@.map_values(|x: usize| x as int);
        assert(ranked_by(vals@, side, perm));
        assert(forall|q: int| 0 <= q < perm.len() ==> positions@[q] == old_positions[perm[q]]);
    }

    /// The value of the position of `environment`, `depth` plies ahead of the
    /// decision, from White's point of view. A finished game gives its reward
    /// for the side this agent plays, discounted by `discount^depth`; at the
    /// horizon the discounted material heuristic stands; neither touches the
    /// store or the count of positions evaluated. Otherwise the agent draws
    /// from `[0, ONE)`: a draw above the exploration propensity searches a
    /// successor drawn at random, any other the successor whose stored value
    /// is best for the side to move. The value found there is blended with the
    /// discounted stored value of this position, the blend is merged into this
    /// position's entry, and the count rises by one. The value, the store and
    /// the count are those of `search_along` for the draws that were made;
    /// where exploration is ruled out, those of `exploit_eval`.
    pub fn evaluate(&mut self, environment: &ChessEnvironment, depth: u32) -> (r: i64)
        requires
            old(self).wf(),
            depth <= old(self).foresight || terminated(environment.state),
        ensures
            final(self).wf(),
            old(self).same_settings(final(self)),
            final(self).last_decision == old(self).last_decision,
            terminated(environment.state) ==> r == scaled(
                reward(outcome(environment.state, old(self).playing_as)),
                discount_weight(old(self).discount as int, depth as nat),
            ) && final(self).experience.memory() == old(self).experience.memory()
                && final(self).positions_evaluated == old(self).positions_evaluated,
            !terminated(environment.state) && depth == old(self).foresight ==> r == scaled(
                material_balance(
                    material(environment.state, Side::White) as int,
                    material(environment.state, Side::Black) as int,
                ),
                discount_weight(old(self).discount as int, depth as nat),
            ) && final(self).experience.memory() == old(self).experience.memory()
                && final(self).positions_evaluated == old(self).positions_evaluated,
            exists|steps: Seq<(int, int)>|
                {
                    let s = #[trigger] search_along(
                        old(self).playing_as,
                        old(self).foresight,
                        old(self).discount,
                        old(self).exploration_propensity,
                        old(self).experience.memory(),
                        environment.state,
                        depth as nat,
                        steps,
                    );
                    &&& draws_in_range(steps)
                    &&& r == s.0
                    &&& final(self).experience.memory() == s.1
                    &&& final(self).positions_evaluated == counted(
                        old(self).positions_evaluated as int,
                        s.2,
                    )
                },
            old(self).exploration_propensity == ONE ==> (r as int, final(self).experience.memory())
                == exploit_eval(
                old(self).playing_as,
                old(self).foresight,
                old(self).discount,
                old(self).experience.memory(),
                environment.state,
                depth as nat,
            ),
        decreases old(self).foresight - depth,
    {
        let w = discount_power(self.discount, depth);
        if environment.is_terminated() {
            let value: i64 = match environment.terminal_state(self.playing_as) {
                TerminalState::Win => ONE,
                TerminalState::Loss => -ONE,
                TerminalState::Draw => 0,
            };
            let r = scale(value, w);
            assert(draws_in_range(Seq::<(int, int)>::empty()));
            assert(search_along(
                self.playing_as,
                self.foresight,
                self.discount,
                self.exploration_propensity,
                self.experience.memory(),
                environment.state,
                depth as nat,
                Seq::empty(),
            ) == (r as int, self.experience.memory(), 0nat));
            return r;
        }
        if depth == self.foresight {
            let (white, black) = material_totals(&environment.state);
            let value = material_value(white, black);
            let r = scale(value, w);
            assert(draws_in_range(Seq::<(int, int)>::empty()));
            assert(search_along(
                self.playing_as,
                self.foresight,
                self.discount,
                self.exploration_propensity,
                self.experience.memory(),
                environment.state,
                depth as nat,
                Seq::empty(),
            ) == (r as int, self.experience.memory(), 0nat));
            return r;
        }
        let decisions = successors(&environment.state);
        let draw = random_below(ONE as u64);
        let explore = explores(draw, self.exploration_propensity);
        let random_index: usize = if explore {
            random_below(decisions.len() as u64) as usize
        } else {
            0
        };
        let index: usize = if explore {
            random_index
        } else {
            let vals = self.stored_values_of(&decisions);
            pick_favoured(&vals, side_to_move(&environment.state))
        };
        let next_state = ChessEnvironment { state: decisions[index] };
        let key = hash_gamestate(&environment.state);
        let expected_value = self.experience.lookup(&key).average_value;
        let discounted_value = scale(expected_value, w);
        let ghost m = self.experience.memory();
        let ghost c0 = self.positions_evaluated;
        let value_of_next_state = self.evaluate(&next_state, depth + 1);
        let ghost m1 = self.experience.memory();
        let ghost c1 = self.positions_evaluated;
        let value = blend(discounted_value, value_of_next_state);
        if self.positions_evaluated < u64::MAX {
            self.positions_evaluated = self.positions_evaluated + 1;
        }
        self.experience.merge_observation(&key, value);
        proof {
            let p = choose|p: Seq<(int, int)>|
                {
                    let s = #[trigger] search_along(
                        self.playing_as,
                        self.foresight,
                        self.discount,
                        self.exploration_propensity,
                        m,
                        decisions@[index as int],
                        depth as nat + 1,
                        p,
                    );
                    &&& draws_in_range(p)
                    &&& value_of_next_state == s.0
                    &&& m1 == s.1
                    &&& c1 == counted(c0 as int, s.2)
                };
            let steps = seq![(draw as int, random_index as int)] + p;
            assert(steps.drop_first() =~= p);
            assert(draws_in_range(steps)) by {
                assert forall|k: int| 0 <= k < steps.len() implies 0 <= (#[trigger] steps[k]).0 < ONE by {
                    if k > 0 {
                        assert(steps[k] == p[k - 1]);
                    }
                }
            }
            let s = search_along(
                self.playing_as,
                self.foresight,
                self.discount,
                self.exploration_propensity,
                m,
                environment.state,
                depth as nat,
                steps,
            );
            assert(s.0 == value && s.1 == self.experience.memory());
            assert(self.positions_evaluated == counted(old(self).positions_evaluated as int, s.2));
        }
        value
    }

    /// Chooses the successor of the position of `environment` whose evaluated
    /// value is best for the side this agent plays, the first such in the
    /// engine's order, and remembers it as `last_decision`. Whatever is drawn,
    /// the choice and the store are those of `choice_along` for some search
    /// paths; where exploration is ruled out, those of `exploit_choice`, so that
    /// the same position and store always give the same choice.
    pub fn react(&mut self, environment: &ChessEnvironment) -> (r: Board)
        requires
            old(self).wf(),
            !terminated(environment.state),
        ensures
            final(self).wf(),
            old(self).same_settings(final(self)),
            successors_of(environment.state).contains(r),
            final(self).last_decision == r,
            exists|paths: Seq<Seq<(int, int)>>|
                {
                    let c = #[trigger] choice_along(
                        old(self).playing_as,
                        old(self).foresight,
                        old(self).discount,
                        old(self).exploration_propensity,
                        old(self).experience.memory(),
                        successors_of(environment.state),
                        successors_of(environment.state).len(),
                        paths,
                    );
                    r == successors_of(environment.state)[c.0] && final(self).experience.memory()
                        == c.2
                },
            old(self).exploration_propensity == ONE ==> ({
                let c = exploit_choice(
                    old(self).playing_as,
                    old(self).foresight,
                    old(self).discount,
                    old(self).experience.memory(),
                    environment.state,
                );
                r == successors_of(environment.state)[c.0] && final(self).experience.memory()
                    == c.1
            }),
    {
        let ghost side = self.playing_as;
        let ghost foresight = self.foresight;
        let ghost discount = self.discount;
        let ghost m0 = self.experience.memory();
        let ghost exploit = self.exploration_propensity == ONE;
        let decisions = successors(&environment.state);
        let ghost succ = decisions@;
        let mut best_index: usize = 0;
        let mut best_value: i128 = 0;
        let mut i: usize = 0;
        let ghost mut paths: Seq<Seq<(int, int)>> = Seq::empty();
        let ghost propensity = self.exploration_propensity;
        while i < decisions.len()
            invariant
                succ == decisions@,
                succ == successors_of(environment.state),
                succ.len() > 0,
                i <= succ.len(),
                self.wf(),
                self.playing_as == side,
                self.foresight == foresight,
                self.discount == discount,
                old(self).same_settings(self),
                i > 0 ==> best_index < i,
                exploit == (old(self).exploration_propensity == ONE),
                propensity == old(self).exploration_propensity,
                paths.len() == i,
                choice_along(side, foresight, discount, propensity, m0, succ, i as nat, paths) == (
                    best_index as int,
                    best_value as int,
                    self.experience.memory(),
                ),
                m0 == old(self).experience.memory(),
                exploit ==> ({
                    let c = exploit_choice_among(side, foresight, discount, m0, succ, i as nat);
                    c.2 == self.experience.memory() && (i > 0 ==> c.0 == best_index && c.1
                        == best_value)
                }),
            decreases succ.len() - i,
        {
            let next_environment = ChessEnvironment { state: decisions[i] };
            let ghost before = self.experience.memory();
            let value_for_white = self.evaluate(&next_environment, 1);
            let value_for_self = self.value_from_own_perspective(value_for_white);
            let ghost prev_index = best_index;
            let ghost prev_value = best_value;
            if i == 0 || value_for_self > best_value {
                best_index = i;
                best_value = value_for_self;
            }
            proof {
                let p = choose|p: Seq<(int, int)>|
                    {
                        let s = #[trigger] search_along(
                            side,
                            foresight,
                            discount,
                            propensity,
                            before,
                            succ[i as int],
                            1,
                            p,
                        );
                        value_for_white == s.0 && self.experience.memory() == s.1
                    };
                lemma_choice_along_prefix(side, foresight, discount, propensity, m0, succ, i as nat, paths, p);
                paths = paths.push(p);
                assert((i + 1 - 1) as nat == i as nat);
            }
            proof {
                if exploit {
                    let n = (i + 1) as nat;
                    assert((n - 1) as nat == i as nat);
                    let prev = exploit_choice_among(side, foresight, discount, m0, succ, i as nat);
                    assert(prev.2 == before);
                    let e = exploit_eval(side, foresight, discount, before, succ[i as int], 1);
                    assert(e.0 == value_for_white as int && e.1 == self.experience.memory());
                    let c = exploit_choice_among(side, foresight, discount, m0, succ, n);
                    assert(c.2 == self.experience.memory());
                    if i > 0 {
                        assert(prev.0 == prev_index && prev.1 == prev_value);
                    }
                    assert(c.0 == best_index && c.1 == best_value);
                }
            }
            i = i + 1;
        }
        let chosen = decisions[best_index];
        self.last_decision = chosen;
        chosen
    }

    /// What the store holds for the position of `environment`.
    pub fn recall_experience(&self, environment: &ChessEnvironment) -> (r: Recollection)
        ensures
            r == self.experience.recollection_of(key_of(environment.state)),
    {
        let key = hash_gamestate(&environment.state);
        self.experience.lookup(&key)
    }

    /// Merges an observed value into the entry of the position of `environment`.
    pub fn memorize_experience(&mut self, environment: &ChessEnvironment, value: i64)
        requires
            old(self).wf(),
        ensures
            final(self).wf(),
            old(self).same_settings(final(self)),
            final(self).experience.memory() == memorized(
                old(self).experience.memory(),
                key_of(environment.state),
                value as int,
            ),
    {
        self.experience.memorize(environment, value);
    }

    /// A value from White's point of view, seen by the side this agent plays.
    fn value_from_own_perspective(&self, value: i64) -> (r: i128)
        ensures
            r == own_value(self.playing_as, value as int),
    {
        match self.playing_as {
            Side::White => value as i128,
            Side::Black => -(value as i128),
        }
    }
}

/// How long a training run lasts: `game_limit` games of at most
/// `turn_limit` turns each.
#[derive(Clone, Copy, Debug, PartialEq, Eq, Structural)]
pub struct TrainingOptions {
    pub game_limit: u32,
    pub turn_limit: u32,
}

/// The magnitude of `x`.
pub open spec fn magnitude(x: int) -> int {
    if x < 0 {
        -x
    } else {
        x
    }
}

pub proof fn lemma_magnitude_div(a: int, b: int)
    requires
        b > 0,
    ensures
        magnitude(div_toward_zero(a, b)) * b <= magnitude(a),
{
    if a >= 0 {
        assert(0 <= (a / b) * b <= a) by (nonlinear_arith)
            requires a >= 0, b > 0;
        assert(a / b >= 0) by (nonlinear_arith)
            requires a >= 0, b > 0;
    } else {
        assert(0 <= ((-a) / b) * b <= -a) by (nonlinear_arith)
            requires -a > 0, b > 0;
        assert((-a) / b >= 0) by (nonlinear_arith)
            requires -a > 0, b > 0;
    }
}

/// An entry that a fresh agent searching with foresight 2 and discount 0.9
/// can have written: merged at least once, its average within 1.0, and
/// within 0.405 after a single merge.
pub open spec fn modest_entry(r: Recollection) -> bool {
    &&& r.times_encountered >= 1
    &&& magnitude(r.average_value as int) <= ONE
    &&& r.times_encountered == 1 ==> magnitude(r.average_value as int) <= 405_000
}

/// Whether every entry of `m` is modest.
pub open spec fn modest_memory(m: Memory) -> bool {
    forall|i: int| 0 <= i < m.len() ==> modest_entry(#[trigger] m[i].1)
}

pub proof fn lemma_modest_lookup(m: Memory, k: Seq<u8>)
    requires
        modest_memory(m),
    ensures
        lookup_in(m, k) == fresh() || modest_entry(lookup_in(m, k)),
{
    lemma_last_index(m, k);
}

/// Merging a value bounded as a depth-one search bounds it keeps the memory modest.
pub proof fn lemma_modest_merge(m: Memory, k: Seq<u8>, v: int)
    requires
        modest_memory(m),
        lookup_in(m, k) == fresh() ==> magnitude(v) <= 405_000,
        lookup_in(m, k).times_encountered == 1 ==> magnitude(v) <= 587_250,
        magnitude(v) <= 855_000,
    ensures
        modest_memory(memorized(m, k, v)),
{
    lemma_modest_lookup(m, k);
    lemma_last_index(m, k);
    let prior = lookup_in(m, k);
    let t = prior.times_encountered as int;
    let a = prior.average_value as int;
    let divisor: int = if t >= 1 { t } else { 1 };
    let q = div_toward_zero(a + v, divisor);
    lemma_magnitude_div(a + v, divisor);
    if t >= 2 {
        assert(magnitude(q) * 2 <= magnitude(q) * divisor) by (nonlinear_arith)
            requires divisor >= 2;
    }
    assert(magnitude(q) <= ONE);
    assert(t == 0 ==> magnitude(q) <= 405_000);
    match merge_step(prior, v) {
        Some(r) => {
            assert(modest_entry(r));
            let i = last_index(m, k);
            let m2 = memorized(m, k, v);
            assert forall|j: int| 0 <= j < m2.len() implies modest_entry(#[trigger] m2[j].1) by {
                if i >= 0 {
                    if j != i {
                        assert(m2[j] == m[j]);
                    }
                } else if j < m.len() {
                    assert(m2[j] == m[j]);
                }
            }
        },
        None => {},
    }
}

/// A search from depth 1 with foresight 2 and discount 0.9 by an agent
/// playing White, from a modest memory: a won position gives 0.9 exactly,
/// any other position less, and the memory stays modest.
pub proof fn lemma_depth_one_search(propensity: i64, m: Memory, s: Board, steps: Seq<(int, int)>)
    requires
        modest_memory(m),
    ensures
        ({
            let r = search_along(Side::White, 2, 900_000, propensity, m, s, 1, steps);
            &&& modest_memory(r.1)
            &&& terminated(s) && outcome(s, Side::White) == TerminalState::Win ==> r.0 == 900_000
            &&& !(terminated(s) && outcome(s, Side::White) == TerminalState::Win) ==> r.0 < 900_000
        }),
{
    reveal_with_fuel(discount_weight, 3);
    let w1 = discount_weight(900_000, 1);
    let w2 = discount_weight(900_000, 2);
    assert(w1 == 900_000);
    assert(w2 == 810_000);
    lemma_terminal_value_discounted(900_000, 1);
    lemma_terminal_value_discounted(900_000, 2);
    let r = search_along(Side::White, 2, 900_000, propensity, m, s, 1, steps);
    if !terminated(s) {
        let succ = successors_of(s);
        let step = if steps.len() > 0 {
            steps[0]
        } else {
            (0, 0)
        };
        let i = if draw_explores(step.0, propensity as int) {
            if 0 <= step.1 < succ.len() {
                step.1
            } else {
                0
            }
        } else {
            favoured_index(stored_values(m, succ), turn_of(s))
        };
        let s2 = succ[i];
        let inner = search_along(Side::White, 2, 900_000, propensity, m, s2, 2, steps.drop_first());
        assert(inner.1 == m);
        assert(magnitude(inner.0) <= 810_000) by {
            if terminated(s2) {
            } else {
                let mb = material_balance(material(s2, Side::White) as int, material(s2, Side::Black) as int);
                lemma_material_balance_bounds(material(s2, Side::White), material(s2, Side::Black));
                lemma_magnitude_div(mb * 810_000, ONE as int);
                assert(magnitude(mb * 810_000) <= 810_000 * ONE) by (nonlinear_arith)
                    requires -ONE <= mb <= ONE, ONE == 1_000_000;
            }
        }
        let prior = lookup_in(m, key_of(s));
        let a = prior.average_value as int;
        let e = scaled(a, 900_000);
        lemma_magnitude_div(a * 900_000, ONE as int);
        assert(magnitude(a * 900_000) == magnitude(a) * 900_000) by (nonlinear_arith);
        let v = blended(e, inner.0);
        lemma_magnitude_div(e + inner.0, 2);
        lemma_modest_lookup(m, key_of(s));
        assert(magnitude(e + inner.0) <= magnitude(e) + magnitude(inner.0));
        assert(r.0 == v);
        lemma_modest_merge(m, key_of(s), v);
    }
}

/// Whether `s` is a finished game won by White.
pub open spec fn won_for_white(s: Board) -> bool {
    terminated(s) && outcome(s, Side::White) == TerminalState::Win
}

pub proof fn lemma_choice_finds_first_win(
    propensity: i64,
    m: Memory,
    succ: Seq<Board>,
    n: nat,
    paths: Seq<Seq<(int, int)>>,
)
    requires
        modest_memory(m),
        n <= succ.len(),
    ensures
        ({
            let c = choice_along(Side::White, 2, 900_000, propensity, m, succ, n, paths);
            &&& modest_memory(c.2)
            &&& (exists|j: int| 0 <= j < n && #[trigger] won_for_white(succ[j])) ==> (won_for_white(
                succ[c.0],
            ) && 0 <= c.0 < n && c.1 == 900_000 && forall|j: int|
                0 <= j < c.0 ==> !#[trigger] won_for_white(succ[j]))
            &&& n >= 1 && !(exists|j: int| 0 <= j < n && #[trigger] won_for_white(succ[j])) ==> c.1
                < 900_000
        }),
    decreases n,
{
    if n > 0 {
        let k = (n - 1) as nat;
        lemma_choice_finds_first_win(propensity, m, succ, k, paths);
        let prev = choice_along(Side::White, 2, 900_000, propensity, m, succ, k, paths);
        lemma_depth_one_search(propensity, prev.2, succ[n - 1], paths[n - 1]);
        let c = choice_along(Side::White, 2, 900_000, propensity, m, succ, n, paths);
        if exists|j: int| 0 <= j < k && #[trigger] won_for_white(succ[j]) {
            assert(c.0 == prev.0);
        } else if won_for_white(succ[n - 1]) {
            assert(c.0 == n - 1);
            assert forall|j: int| 0 <= j < c.0 implies !#[trigger] won_for_white(succ[j]) by {}
        } else {
            assert(!(exists|j: int| 0 <= j < n && #[trigger] won_for_white(succ[j]))) by {
                assert forall|j: int| 0 <= j < n implies !#[trigger] won_for_white(succ[j]) by {
                    if j < k {
                    }
                }
            }
        }
    }
}

/// A fresh agent playing White, with foresight 2 and discount 0.9, facing a
/// position where one of its moves wins at once, chooses the first such move
/// in the engine's order, whatever it draws: the won position is worth 0.9,
/// and nothing else it can see is worth as much.
pub proof fn lemma_mate_in_one_is_chosen(propensity: i64, b: Board, paths: Seq<Seq<(int, int)>>)
    requires
        exists|j: int| 0 <= j < successors_of(b).len() && #[trigger] won_for_white(successors_of(b)[j]),
    ensures
        ({
            let succ = successors_of(b);
            let c = choice_along(Side::White, 2, 900_000, propensity, Seq::empty(), succ, succ.len(), paths);
            &&& 0 <= c.0 < succ.len()
            &&& won_for_white(succ[c.0])
            &&& forall|j: int| 0 <= j < c.0 ==> !#[trigger] won_for_white(succ[j])
        }),
{
    let succ = successors_of(b);
    assert(modest_memory(Seq::<(Seq<u8>, Recollection)>::empty()));
    lemma_choice_finds_first_win(propensity, Seq::empty(), succ, succ.len(), paths);
}

/// Whether one turn of a training game leads from `before` to `after`: the
/// game was not over, the agent moved to `decision`, one of its successors,
/// and unless that ended the game a reply moved on to one of the successors
/// of `decision`.
pub open spec fn played_turn(before: Board, decision: Board, after: Board) -> bool {
    &&& !terminated(before)
    &&& successors_of(before).contains(decision)
    &&& if terminated(decision) {
        after == decision
    } else {
        successors_of(decision).contains(after)
    }
}

/// Whether `positions` and `decisions` record a game: each turn leads from
/// one position to the next through the decision made there.
pub open spec fn game_record(positions: Seq<Board>, decisions: Seq<Board>) -> bool {
    &&& positions.len() == decisions.len() + 1
    &&& forall|k: int|
        0 <= k < decisions.len() ==> #[trigger] played_turn(positions[k], decisions[k], positions[k + 1])
}

/// One training game from `environment`: the agent changes sides, then each
/// turn it chooses a move and a random reply is played, until the game is
/// over or `turn_limit` turns have passed. Returns the final position and
/// the number of turns played; the game is on record from the given
/// position to the returned one.
pub fn training_game(agent: &mut ChessAgent, environment: ChessEnvironment, turn_limit: u32) -> (r: (
    ChessEnvironment,
    u32,
))
    requires
        old(agent).wf(),
    ensures
        final(agent).wf(),
        final(agent).playing_as == opponent(old(agent).playing_as),
        final(agent).foresight == old(agent).foresight,
        final(agent).discount == old(agent).discount,
        final(agent).exploration_propensity == old(agent).exploration_propensity,
        final(agent).experience.location() == old(agent).experience.location(),
        r.1 <= turn_limit,
        r.1 < turn_limit ==> terminated(r.0.state),
        exists|positions: Seq<Board>, decisions: Seq<Board>|
            #[trigger] game_record(positions, decisions) && positions[0] == environment.state
                && positions.last() == r.0.state && decisions.len() == r.1,
{
    let mut game = environment;
    let ghost start = game.state;
    agent.playing_as = match agent.playing_as {
        Side::White => Side::Black,
        Side::Black => Side::White,
    };
    let ghost side = agent.playing_as;
    let ghost mut positions: Seq<Board> = seq![start];
    let ghost mut decisions: Seq<Board> = Seq::empty();
    let mut turns: u32 = 0;
    while turns < turn_limit
        invariant
            agent.wf(),
            agent.playing_as == side,
            side == opponent(old(agent).playing_as),
            agent.foresight == old(agent).foresight,
            agent.discount == old(agent).discount,
            agent.exploration_propensity == old(agent).exploration_propensity,
            agent.experience.location() == old(agent).experience.location(),
            turns <= turn_limit,
            game_record(positions, decisions),
            positions[0] == start,
            start == environment.state,
            positions.last() == game.state,
            decisions.len() == turns,
        decreases turn_limit - turns,
    {
        if game.is_terminated() {
            return (game, turns);
        }
        let ghost before = game.state;
        let decision = agent.react(&game);
        game.apply(decision);
        proof {
            if !terminated(decision) {
                let i = choose|i: int|
                    0 <= i < successors_of(decision).len() && game.state
                        == #[trigger] successors_of(decision)[i];
                assert(successors_of(decision)[i] == game.state);
            }
            assert(played_turn(before, decision, game.state));
            let old_positions = positions;
            let old_decisions = decisions;
            positions = positions.push(game.state);
            decisions = decisions.push(decision);
            assert forall|k: int| 0 <= k < decisions.len() implies #[trigger] played_turn(
                positions[k],
                decisions[k],
                positions[k + 1],
            ) by {
                if k < old_decisions.len() {
                    assert(positions[k] == old_positions[k]);
                    assert(positions[k + 1] == old_positions[k + 1]);
                    assert(decisions[k] == old_decisions[k]);
                }
            }
        }
        turns = turns + 1;
    }
    (game, turns)
}

} // verus!
