use rand::rngs::ThreadRng;
use rand::seq::SliceRandom;
use rand::Rng;
use vstd::prelude::*;
use crate::action::Action;
use crate::q_table::{value_or_zero, QTable, SCALE};
use crate::state::State;

verus! {

/// Side length of the default square grid.
pub const GRID_SIZE: usize = 20;

/// The longest a training episode may run before it is abandoned; the
/// updates it made are kept.
pub const MAX_EPISODE_STEPS: usize = 1_000_000;

/// The exploration rate is `EXPLORE_NUMERATOR / EXPLORE_DENOMINATOR`.
pub const EXPLORE_NUMERATOR: u32 = 1;

pub const EXPLORE_DENOMINATOR: u32 = 10;

/// The cell where every episode and every policy run starts.
pub open spec fn start() -> State {
    State { x: 0, y: 0 }
}

/// The goal cell, in the corner opposite the start.
pub open spec fn goal(size: usize) -> State {
    State { x: (size - 1) as usize, y: (size - 1) as usize }
}

pub open spec fn in_bounds(size: usize, s: State) -> bool {
    s.x < size && s.y < size
}

/// Whether `a` keeps the agent on the grid from `s`.
pub open spec fn legal(size: usize, s: State, a: Action) -> bool {
    match a {
        Action::Up => s.y > 0,
        Action::Down => s.y + 1 < size,
        Action::Left => s.x > 0,
        Action::Right => s.x + 1 < size,
    }
}

/// The legal actions from `s`, in the order Left, Right, Up, Down.
pub open spec fn legal_actions(size: usize, s: State) -> Seq<Action> {
    (if s.x > 0 { seq![Action::Left] } else { seq![] })
    + (if s.x + 1 < size { seq![Action::Right] } else { seq![] })
    + (if s.y > 0 { seq![Action::Up] } else { seq![] })
    + (if s.y + 1 < size { seq![Action::Down] } else { seq![] })
}

/// The cell that `a` leads to from `s`; a move off the grid leaves the agent
/// where it is.
pub open spec fn next_state(size: usize, s: State, a: Action) -> State {
    if !legal(size, s, a) {
        s
    } else {
        match a {
            Action::Up => State { x: s.x, y: (s.y - 1) as usize },
            Action::Down => State { x: s.x, y: (s.y + 1) as usize },
            Action::Left => State { x: (s.x - 1) as usize, y: s.y },
            Action::Right => State { x: (s.x + 1) as usize, y: s.y },
        }
    }
}

/// The reward for arriving at `s`: 1 at the goal, -0.1 elsewhere.
pub open spec fn reward_of(size: usize, s: State) -> i64 {
    if s == goal(size) {
        SCALE
    } else {
        (-(SCALE / 10)) as i64
    }
}

/// The highest value of the four actions from `s`.
pub open spec fn best_value(t: Map<(State, Action), i64>, s: State) -> i64 {
    let u = value_or_zero(t, s, Action::Up);
    let d = value_or_zero(t, s, Action::Down);
    let l = value_or_zero(t, s, Action::Left);
    let r = value_or_zero(t, s, Action::Right);
    let m1 = if d > u { d } else { u };
    let m2 = if l > m1 { l } else { m1 };
    if r > m2 { r } else { m2 }
}

/// The first action, in the order Up, Down, Left, Right, whose value from
/// `s` is the highest.
pub open spec fn greedy_action(t: Map<(State, Action), i64>, s: State) -> Action {
    let m = best_value(t, s);
    if value_or_zero(t, s, Action::Up) == m {
        Action::Up
    } else if value_or_zero(t, s, Action::Down) == m {
        Action::Down
    } else if value_or_zero(t, s, Action::Left) == m {
        Action::Left
    } else {
        Action::Right
    }
}

/// The update target: the reward plus the discounted (γ = 0.9) best next
/// value, rounded down.
pub open spec fn td_target(reward: i64, next_max: i64) -> int {
    reward + (9 * next_max) / 10
}

/// The updated value: the old value moved a tenth (α = 0.1) of the way to
/// the target, rounded down.
#[verifier::opaque]
pub open spec fn td_value(old: i64, reward: i64, next_max: i64) -> int {
    old + (td_target(reward, next_max) - old) / 10
}

/// When all four actions from `s` have the same value, the greedy choice is
/// `Up`, the first in the canonical order.
pub proof fn lemma_ties_pick_up(t: Map<(State, Action), i64>, s: State)
    requires
        value_or_zero(t, s, Action::Up) == value_or_zero(t, s, Action::Down),
        value_or_zero(t, s, Action::Up) == value_or_zero(t, s, Action::Left),
        value_or_zero(t, s, Action::Up) == value_or_zero(t, s, Action::Right),
    ensures
        greedy_action(t, s) == Action::Up,
{
}

/// `v / 10`, rounded down.
fn div10_floor(v: i128) -> (r: i128)
    requires
        -0x1_0000_0000_0000_0000_0000 <= v <= 0x1_0000_0000_0000_0000_0000,
    ensures
        r == v / 10,
{
    if v >= 0 {
        ((v as u128) / 10) as i128
    } else {
        let n = (-v) as u128;
        let q = ((n + 9) / 10) as i128;
        assert(-q == v / 10) by (nonlinear_arith)
            requires
                v < 0,
                n == -v,
                q == (n + 9) / 10,
        ;
        -q
    }
}

/// The Q-learning update of a value: `old + α·(reward + γ·next_max − old)`
/// with α = 0.1 and γ = 0.9, in fixed point, each division rounded down.
pub fn td_update(old: i64, reward: i64, next_max: i64) -> (r: i64)
    requires
        i64::MIN <= td_target(reward, next_max) <= i64::MAX,
    ensures
        r == td_value(old, reward, next_max),
{
    reveal(td_value);
    let scaled = div10_floor(9 * (next_max as i128));
    let target = reward as i128 + scaled;
    let step = div10_floor(target - old as i128);
    let ghost t = td_target(reward, next_max);
    let ghost o = old as int;
    assert(o <= o + step <= t || t <= o + step <= o) by (nonlinear_arith)
        requires
            step == (t - o) / 10,
    ;
    (old as i128 + step) as i64
}

/// The thread-local random generator of rand, carried through opaquely.
#[verifier::external_type_specification]
#[verifier::external_body]
pub struct ExThreadRng(ThreadRng);

/// Relies on rand::thread_rng: a handle to the thread's random generator.
#[verifier::external_body]
fn thread_rng() -> ThreadRng {
    rand::thread_rng()
}

/// Relies on rand::Rng::gen_ratio: true with probability
/// `numerator / denominator`; it panics unless `0 < denominator` and
/// `numerator <= denominator`.
#[verifier::external_body]
fn draw_ratio(rng: &mut ThreadRng, numerator: u32, denominator: u32) -> (r: bool)
    requires
        0 < denominator,
        numerator <= denominator,
{
    rng.gen_ratio(numerator, denominator)
}

/// Relies on rand::seq::SliceRandom::choose: a uniformly drawn element of a
/// non-empty slice, and `None` for an empty one.
#[verifier::external_body]
fn choose_from(actions: &Vec<Action>, rng: &mut ThreadRng) -> (r: Option<Action>)
    ensures
        r is Some <==> actions@.len() > 0,
        r is Some ==> actions@.contains(r->Some_0),
{
    actions.choose(rng).copied()
}

/// A run of the greedy policy from the start: each cell but the last is not
/// the goal, and each is followed by the cell that the greedy action leads to.
pub open spec fn is_policy_path(size: usize, t: Map<(State, Action), i64>, path: Seq<State>) -> bool {
    &&& path.len() >= 1
    &&& path[0] == start()
    &&& forall|i: int|
        0 <= i < path.len() - 1 ==> {
            &&& #[trigger] path[i] != goal(size)
            &&& path[i + 1] == next_state(size, path[i], greedy_action(t, path[i]))
        }
}

/// The table after a training run holds every entry it held before, and each
/// entry it gained is at a cell of the grid.
pub open spec fn grows_within(
    size: usize,
    before: Map<(State, Action), i64>,
    after: Map<(State, Action), i64>,
) -> bool {
    &&& forall|k: (State, Action)| before.contains_key(k) ==> #[trigger] after.contains_key(k)
    &&& forall|k: (State, Action)| #[trigger]
        after.contains_key(k) && !before.contains_key(k) ==> in_bounds(size, k.0)
}

/// The table after one Q-learning update of `(s, a)`.
#[verifier::opaque]
pub open spec fn step_update(
    size: usize,
    t: Map<(State, Action), i64>,
    s: State,
    a: Action,
) -> Map<(State, Action), i64> {
    let n = next_state(size, s, a);
    t.insert((s, a), td_value(value_or_zero(t, s, a), reward_of(size, n), best_value(t, n)) as i64)
}

/// The cell an episode has reached after the moves `acts` from the start.
pub open spec fn episode_state(size: usize, acts: Seq<Action>) -> State
    decreases acts.len(),
{
    if acts.len() == 0 {
        start()
    } else {
        next_state(size, episode_state(size, acts.drop_last()), acts.last())
    }
}

/// The table after the moves `acts` from the start, each followed by its
/// update, beginning with table `t`.
pub open spec fn episode_table(size: usize, t: Map<(State, Action), i64>, acts: Seq<Action>) -> Map<
    (State, Action),
    i64,
>
    decreases acts.len(),
{
    if acts.len() == 0 {
        t
    } else {
        step_update(
            size,
            episode_table(size, t, acts.drop_last()),
            episode_state(size, acts.drop_last()),
            acts.last(),
        )
    }
}

/// No move starts at the goal, and each move is legal where it is made or
/// is the greedy choice of the table at that moment.
pub open spec fn episode_moves_ok(size: usize, t: Map<(State, Action), i64>, acts: Seq<Action>) -> bool {
    forall|i: int|
        0 <= i < acts.len() ==> {
            let s = episode_state(size, acts.take(i));
            &&& s != goal(size)
            &&& legal(size, s, #[trigger] acts[i]) || acts[i] == greedy_action(
                episode_table(size, t, acts.take(i)),
                s,
            )
        }
}

/// `acts` is one training episode on table `t`: epsilon-greedy moves from
/// the start that end at the goal or after `cap` moves.
pub open spec fn is_episode(size: usize, t: Map<(State, Action), i64>, acts: Seq<Action>, cap: nat) -> bool {
    &&& episode_moves_ok(size, t, acts)
    &&& acts.len() <= cap
    &&& episode_state(size, acts) == goal(size) || acts.len() == cap
}

/// The table after the episodes `eps`, one after another, from table `t`.
pub open spec fn training_table(
    size: usize,
    t: Map<(State, Action), i64>,
    eps: Seq<Seq<Action>>,
) -> Map<(State, Action), i64>
    decreases eps.len(),
{
    if eps.len() == 0 {
        t
    } else {
        episode_table(size, training_table(size, t, eps.drop_last()), eps.last())
    }
}

/// Training from table `before` ran the episodes `eps` and left `after`.
pub open spec fn trained_by(
    size: usize,
    before: Map<(State, Action), i64>,
    eps: Seq<Seq<Action>>,
    after: Map<(State, Action), i64>,
) -> bool {
    &&& forall|i: int|
        0 <= i < eps.len() ==> is_episode(
            size,
            training_table(size, before, eps.take(i)),
            #[trigger] eps[i],
            MAX_EPISODE_STEPS as nat,
        )
    &&& after == training_table(size, before, eps)
}

/// An update keeps every entry and adds at most the one it writes.
proof fn lemma_step_keys(size: usize, t: Map<(State, Action), i64>, s: State, a: Action)
    ensures
        forall|k: (State, Action)| #[trigger]
            step_update(size, t, s, a).contains_key(k) <==> t.contains_key(k) || k == (s, a),
{
    reveal(step_update);
}

/// One more move that starts off the goal and is legal or greedy extends an
/// episode by one update.
proof fn lemma_episode_extend(
    size: usize,
    t: Map<(State, Action), i64>,
    acts: Seq<Action>,
    a: Action,
)
    requires
        episode_moves_ok(size, t, acts),
        episode_state(size, acts) != goal(size),
        legal(size, episode_state(size, acts), a) || a == greedy_action(
            episode_table(size, t, acts),
            episode_state(size, acts),
        ),
    ensures
        episode_moves_ok(size, t, acts.push(a)),
        episode_state(size, acts.push(a)) == next_state(size, episode_state(size, acts), a),
        episode_table(size, t, acts.push(a)) == step_update(
            size,
            episode_table(size, t, acts),
            episode_state(size, acts),
            a,
        ),
{
    let next = acts.push(a);
    assert(next.drop_last() =~= acts);
    assert forall|i: int| 0 <= i < next.len() implies {
        let s = episode_state(size, next.take(i));
        &&& s != goal(size)
        &&& legal(size, s, #[trigger] next[i]) || next[i] == greedy_action(
            episode_table(size, t, next.take(i)),
            s,
        )
    } by {
        if i < acts.len() {
            assert(next.take(i) =~= acts.take(i));
            assert(next[i] == acts[i]);
        } else {
            assert(next.take(i) =~= acts);
        }
    }
}

/// Every value lies in `[-SCALE, SCALE]` and no entry is at the goal cell.
pub open spec fn unit_bounded(size: usize, t: Map<(State, Action), i64>) -> bool {
    forall|k: (State, Action)| #[trigger]
        t.contains_key(k) ==> -SCALE <= t[k] <= SCALE && k.0 != goal(size)
}

proof fn lemma_step_bounded(size: usize, t: Map<(State, Action), i64>, s: State, a: Action)
    requires
        unit_bounded(size, t),
        s != goal(size),
    ensures
        unit_bounded(size, step_update(size, t, s, a)),
{
    reveal(step_update);
    let n = next_state(size, s, a);
    let o = value_or_zero(t, s, a) as int;
    let nm = best_value(t, n) as int;
    let reward = reward_of(size, n) as int;
    let target = td_target(reward_of(size, n), best_value(t, n));
    assert(-SCALE <= o <= SCALE);
    assert(-SCALE <= value_or_zero(t, n, Action::Up) <= SCALE);
    assert(-SCALE <= value_or_zero(t, n, Action::Down) <= SCALE);
    assert(-SCALE <= value_or_zero(t, n, Action::Left) <= SCALE);
    assert(-SCALE <= value_or_zero(t, n, Action::Right) <= SCALE);
    if n == goal(size) {
        assert(value_or_zero(t, n, Action::Up) == 0);
        assert(value_or_zero(t, n, Action::Down) == 0);
        assert(value_or_zero(t, n, Action::Left) == 0);
        assert(value_or_zero(t, n, Action::Right) == 0);
        assert(target == SCALE);
    } else {
        assert(-SCALE <= target <= SCALE) by (nonlinear_arith)
            requires
                target == reward + (9 * nm) / 10,
                reward == -100_000_000,
                -1_000_000_000 <= nm <= 1_000_000_000,
                SCALE == 1_000_000_000,
        ;
    }
    reveal(td_value);
    let v = td_value(value_or_zero(t, s, a), reward_of(size, n), best_value(t, n));
    assert(o <= v <= target || target <= v <= o) by (nonlinear_arith)
        requires
            v == o + (target - o) / 10,
    ;
}

proof fn lemma_episode_bounded(size: usize, t: Map<(State, Action), i64>, acts: Seq<Action>)
    requires
        unit_bounded(size, t),
        episode_moves_ok(size, t, acts),
    ensures
        unit_bounded(size, episode_table(size, t, acts)),
    decreases acts.len(),
{
    if acts.len() > 0 {
        let p = acts.drop_last();
        assert forall|i: int| 0 <= i < p.len() implies {
            let s = episode_state(size, p.take(i));
            &&& s != goal(size)
            &&& legal(size, s, #[trigger] p[i]) || p[i] == greedy_action(
                episode_table(size, t, p.take(i)),
                s,
            )
        } by {
            assert(p.take(i) =~= acts.take(i));
            assert(p[i] == acts[i]);
        }
        lemma_episode_bounded(size, t, p);
        assert(acts.take(p.len() as int) =~= p);
        assert(acts[p.len() as int] == acts.last());
        lemma_step_bounded(size, episode_table(size, t, p), episode_state(size, p), acts.last());
    }
}

proof fn lemma_training_table_bounded(
    size: usize,
    before: Map<(State, Action), i64>,
    eps: Seq<Seq<Action>>,
)
    requires
        unit_bounded(size, before),
        forall|i: int|
            0 <= i < eps.len() ==> is_episode(
                size,
                training_table(size, before, eps.take(i)),
                #[trigger] eps[i],
                MAX_EPISODE_STEPS as nat,
            ),
    ensures
        unit_bounded(size, training_table(size, before, eps)),
    decreases eps.len(),
{
    if eps.len() > 0 {
        let p = eps.drop_last();
        assert forall|i: int| 0 <= i < p.len() implies is_episode(
            size,
            training_table(size, before, p.take(i)),
            #[trigger] p[i],
            MAX_EPISODE_STEPS as nat,
        ) by {
            assert(p.take(i) =~= eps.take(i));
            assert(p[i] == eps[i]);
        }
        lemma_training_table_bounded(size, before, p);
        assert(eps.take(p.len() as int) =~= p);
        assert(eps[p.len() as int] == eps.last());
        lemma_episode_bounded(size, training_table(size, before, p), eps.last());
    }
}

/// Training keeps every value within `[-SCALE, SCALE]` (-1 to 1) and adds no
/// entry at the goal cell, starting from a table where both hold (as they do
/// of an empty one).
pub proof fn lemma_training_bounded(
    size: usize,
    before: Map<(State, Action), i64>,
    eps: Seq<Seq<Action>>,
    after: Map<(State, Action), i64>,
)
    requires
        trained_by(size, before, eps, after),
        unit_bounded(size, before),
    ensures
        unit_bounded(size, after),
{
    lemma_training_table_bounded(size, before, eps);
}

/// A grid world of `size` by `size` cells with the table an agent learns on it.
pub struct GridWorld {
    pub q_table: QTable,
    pub size: usize,
}

impl GridWorld {
    /// The grid is not empty and the table is well formed.
    pub open spec fn wf(&self) -> bool {
        self.size >= 1 && self.q_table.wf()
    }

    /// A grid of the default size with an empty table.
    pub fn new() -> (r: GridWorld)
        ensures
            r.wf(),
            r.size == GRID_SIZE,
            r.q_table@ == Map::<(State, Action), i64>::empty(),
    {
        GridWorld { q_table: QTable::new(), size: GRID_SIZE }
    }

    /// A grid of `size` by `size` cells with an empty table.
    pub fn with_size(size: usize) -> (r: GridWorld)
        requires
            size >= 1,
        ensures
            r.wf(),
            r.size == size,
            r.q_table@ == Map::<(State, Action), i64>::empty(),
    {
        GridWorld { q_table: QTable::new(), size }
    }

    /// Whether `state` is the goal cell.
    pub fn is_goal(&self, state: State) -> (r: bool)
        requires
            self.size >= 1,
        ensures
            r == (state == goal(self.size)),
    {
        state.x == self.size - 1 && state.y == self.size - 1
    }

    /// The actions that keep the agent on the grid from `state`.
    pub fn get_possible_actions(&self, state: State) -> (r: Vec<Action>)
        requires
            self.size >= 1,
        ensures
            r@ == legal_actions(self.size, state),
            forall|a: Action| r@.contains(a) <==> legal(self.size, state, a),
    {
        let mut actions: Vec<Action> = Vec::new();
        if state.x > 0 {
            actions.push(Action::Left);
        }
        if state.x < self.size - 1 {
            actions.push(Action::Right);
        }
        if state.y > 0 {
            actions.push(Action::Up);
        }
        if state.y < self.size - 1 {
            actions.push(Action::Down);
        }
        proof {
            assert(actions@ =~= legal_actions(self.size, state));
            assert forall|a: Action| legal(self.size, state, a) implies actions@.contains(a) by {
                match a {
                    Action::Left => assert(actions@[0] == a),
                    Action::Right => assert(actions@[if state.x > 0 { 1int } else { 0 }] == a),
                    Action::Up => assert(actions@[(if state.x > 0 { 1int } else { 0 }) + (if state.x + 1 < self.size { 1int } else { 0 })] == a),
                    Action::Down => assert(actions@[actions@.len() - 1] == a),
                }
            }
        }
        actions
    }

    /// The cell that `action` leads to from `state`; a move off the grid
    /// leaves the agent where it is.
    pub fn get_next_state(&self, state: State, action: Action) -> (r: State)
        requires
            self.size >= 1,
        ensures
            r == next_state(self.size, state, action),
            in_bounds(self.size, state) ==> in_bounds(self.size, r),
            r == state <==> !legal(self.size, state, action),
    {
        match action {
            Action::Up if state.y > 0 => State { x: state.x, y: state.y - 1 },
            Action::Down if state.y < self.size - 1 => State { x: state.x, y: state.y + 1 },
            Action::Left if state.x > 0 => State { x: state.x - 1, y: state.y },
            Action::Right if state.x < self.size - 1 => State { x: state.x + 1, y: state.y },
            _ => state,
        }
    }

    /// The reward for arriving at `state`: `SCALE` at the goal, `-SCALE / 10`
    /// elsewhere.
    pub fn get_reward(&self, state: State) -> (r: i64)
        requires
            self.size >= 1,
        ensures
            r == reward_of(self.size, state),
            r == SCALE <==> state == goal(self.size),
    {
        if self.is_goal(state) {
            SCALE
        } else {
            -(SCALE / 10)
        }
    }

    /// The greedy action from `state` and its value: the first action in the
    /// order Up, Down, Left, Right with the highest value.
    fn scan(&self, state: State) -> (r: (Action, i64))
        requires
            self.q_table.wf(),
        ensures
            r.0 == greedy_action(self.q_table@, state),
            r.1 == best_value(self.q_table@, state),
    {
        let mut best_action = Action::Up;
        let mut best = self.q_table.get(&state, &Action::Up);
        let down = self.q_table.get(&state, &Action::Down);
        if down > best {
            best_action = Action::Down;
            best = down;
        }
        let left = self.q_table.get(&state, &Action::Left);
        if left > best {
            best_action = Action::Left;
            best = left;
        }
        let right = self.q_table.get(&state, &Action::Right);
        if right > best {
            best_action = Action::Right;
            best = right;
        }
        (best_action, best)
    }

    /// The action the greedy policy takes from `state`; ties go to the first
    /// in the order Up, Down, Left, Right.
    pub fn best_action(&self, state: State) -> (r: Action)
        requires
            self.q_table.wf(),
        ensures
            r == greedy_action(self.q_table@, state),
    {
        self.scan(state).0
    }

    /// The highest value of the four actions from `state`.
    pub fn max_value(&self, state: State) -> (r: i64)
        requires
            self.q_table.wf(),
        ensures
            r == best_value(self.q_table@, state),
    {
        self.scan(state).1
    }

    /// The epsilon-greedy choice once the random draws are made: the action
    /// drawn for exploration where there is one, else the greedy action.
    pub fn select_action(&self, state: State, drawn: Option<Action>) -> (r: Action)
        requires
            self.q_table.wf(),
        ensures
            r == (match drawn {
                Some(a) => a,
                None => greedy_action(self.q_table@, state),
            }),
    {
        match drawn {
            Some(a) => a,
            None => self.best_action(state),
        }
    }

    /// Takes `action` from `state`, applies the Q-learning update to the value
    /// of `(state, action)`, and returns the cell it led to.
    pub fn train_step(&mut self, state: State, action: Action) -> (r: State)
        requires
            old(self).wf(),
        ensures
            final(self).wf(),
            final(self).size == old(self).size,
            r == next_state(old(self).size, state, action),
            final(self).q_table@ == step_update(old(self).size, old(self).q_table@, state, action),
    {
        let next = self.get_next_state(state, action);
        let reward = self.get_reward(next);
        let old_value = self.q_table.get(&state, &action);
        let next_max = self.max_value(next);
        let ghost n = next_max as int;
        assert(i64::MIN + SCALE <= (9 * n) / 10 <= i64::MAX - SCALE) by (nonlinear_arith)
            requires
                i64::MIN <= n <= i64::MAX,
                SCALE == 1_000_000_000,
        ;
        let value = td_update(old_value, reward, next_max);
        self.q_table.insert(state, action, value);
        proof {
            reveal(step_update);
        }
        next
    }

    /// The epsilon-greedy draw from `state`: with probability
    /// `EXPLORE_NUMERATOR / EXPLORE_DENOMINATOR` a uniformly drawn legal
    /// action, else the greedy one.
    fn draw_action(&self, rng: &mut ThreadRng, state: State) -> (r: Action)
        requires
            self.wf(),
        ensures
            legal(self.size, state, r) || r == greedy_action(self.q_table@, state),
    {
        let explore = draw_ratio(rng, EXPLORE_NUMERATOR, EXPLORE_DENOMINATOR);
        let drawn = if explore {
            let actions = self.get_possible_actions(state);
            let d = choose_from(&actions, rng);
            proof {
                if d is Some {
                    assert(actions@.contains(d->Some_0));
                }
            }
            d
        } else {
            None
        };
        self.select_action(state, drawn)
    }

    /// One training episode from the start cell: epsilon-greedy moves with
    /// updates until the goal is reached or `max_steps` moves were made.
    /// Returns whether the goal was reached.
    fn train_episode(&mut self, rng: &mut ThreadRng, max_steps: usize) -> (r: bool)
        requires
            old(self).wf(),
        ensures
            final(self).wf(),
            final(self).size == old(self).size,
            grows_within(old(self).size, old(self).q_table@, final(self).q_table@),
            exists|acts: Seq<Action>|
                is_episode(old(self).size, old(self).q_table@, acts, max_steps as nat)
                    && final(self).q_table@ == episode_table(
                    old(self).size,
                    old(self).q_table@,
                    acts,
                ),
    {
        let ghost before = self.q_table@;
        let ghost mut acts: Seq<Action> = Seq::empty();
        let mut state = State { x: 0, y: 0 };
        let mut steps: usize = 0;
        while !self.is_goal(state) && steps < max_steps
            invariant
                self.wf(),
                self.size == old(self).size,
                before == old(self).q_table@,
                in_bounds(self.size, state),
                steps <= max_steps,
                acts.len() == steps,
                state == episode_state(self.size, acts),
                self.q_table@ == episode_table(self.size, before, acts),
                episode_moves_ok(self.size, before, acts),
                grows_within(self.size, before, self.q_table@),
            decreases max_steps - steps,
        {
            let action = self.draw_action(rng, state);
            let ghost pre = acts;
            let ghost pre_state = state;
            state = self.train_step(state, action);
            proof {
                lemma_step_keys(self.size, episode_table(self.size, before, pre), pre_state, action);
                lemma_episode_extend(self.size, before, pre, action);
                acts = acts.push(action);
            }
            steps = steps + 1;
        }
        assert(is_episode(self.size, before, acts, max_steps as nat));
        self.is_goal(state)
    }

    /// Runs `num_episodes` training episodes, each capped at
    /// `MAX_EPISODE_STEPS` moves.
    pub fn train_model(&mut self, num_episodes: usize)
        requires
            old(self).wf(),
        ensures
            final(self).wf(),
            final(self).size == old(self).size,
            grows_within(old(self).size, old(self).q_table@, final(self).q_table@),
            exists|eps: Seq<Seq<Action>>|
                eps.len() == num_episodes && trained_by(
                    old(self).size,
                    old(self).q_table@,
                    eps,
                    final(self).q_table@,
                ),
    {
        let ghost before = self.q_table@;
        let mut rng = thread_rng();
        let mut i: usize = 0;
        assert(trained_by(self.size, before, Seq::<Seq<Action>>::empty(), self.q_table@));
        while i < num_episodes
            invariant
                self.wf(),
                self.size == old(self).size,
                before == old(self).q_table@,
                i <= num_episodes,
                grows_within(self.size, before, self.q_table@),
                exists|eps: Seq<Seq<Action>>|
                    eps.len() == i && trained_by(self.size, before, eps, self.q_table@),
            decreases num_episodes - i,
        {
            let ghost eps = choose|eps: Seq<Seq<Action>>|
                eps.len() == i && trained_by(self.size, before, eps, self.q_table@);
            let ghost mid = self.q_table@;
            self.train_episode(&mut rng, MAX_EPISODE_STEPS);
            proof {
                let acts = choose|acts: Seq<Action>|
                    is_episode(self.size, mid, acts, MAX_EPISODE_STEPS as nat)
                        && self.q_table@ == episode_table(self.size, mid, acts);
                let eps2 = eps.push(acts);
                assert(eps2.drop_last() =~= eps);
                assert forall|j: int| 0 <= j < eps2.len() implies is_episode(
                    self.size,
                    training_table(self.size, before, eps2.take(j)),
                    #[trigger] eps2[j],
                    MAX_EPISODE_STEPS as nat,
                ) by {
                    if j < eps.len() {
                        assert(eps2.take(j) =~= eps.take(j));
                        assert(eps2[j] == eps[j]);
                    } else {
                        assert(eps2.take(j) =~= eps);
                    }
                }
                assert(trained_by(self.size, before, eps2, self.q_table@));
            }
            i = i + 1;
        }
    }

    /// The cells that the greedy policy visits from the start: it stops at
    /// the goal, or after `max_steps` moves.
    pub fn policy_path(&self, max_steps: usize) -> (r: Vec<State>)
        requires
            self.wf(),
        ensures
            is_policy_path(self.size, self.q_table@, r@),
            r@.len() <= max_steps + 1,
            r@.last() == goal(self.size) || r@.len() == max_steps + 1,
    {
        let mut state = State { x: 0, y: 0 };
        let mut path: Vec<State> = Vec::new();
        path.push(state);
        let mut steps: usize = 0;
        while !self.is_goal(state) && steps < max_steps
            invariant
                self.wf(),
                steps <= max_steps,
                path@.len() == steps + 1,
                path@.last() == state,
                is_policy_path(self.size, self.q_table@, path@),
            decreases max_steps - steps,
        {
            let action = self.best_action(state);
            let ghost prev = path@;
            state = self.get_next_state(state, action);
            path.push(state);
            proof {
                assert forall|i: int| 0 <= i < path@.len() - 1 implies {
                    &&& #[trigger] path@[i] != goal(self.size)
                    &&& path@[i + 1] == next_state(self.size, path@[i], greedy_action(self.q_table@, path@[i]))
                } by {
                    if i < prev.len() - 1 {
                        assert(path@[i] == prev[i] && path@[i + 1] == prev[i + 1]);
                    } else {
                        assert(path@[i] == prev.last());
                    }
                }
            }
            steps = steps + 1;
        }
        path
    }
}

} // verus!
