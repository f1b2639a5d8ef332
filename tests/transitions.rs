use grid_qlearn::action::Action;
use grid_qlearn::grid_world::{td_update, GridWorld, GRID_SIZE};
use grid_qlearn::q_table::SCALE;
use grid_qlearn::state::State;

fn st(x: usize, y: usize) -> State {
    State { x, y }
}

#[test]
fn step_off_grid_stays() {
    let w = GridWorld::new();
    assert_eq!(w.get_next_state(st(0, 0), Action::Left), st(0, 0));
    assert_eq!(w.get_next_state(st(0, 0), Action::Up), st(0, 0));
    let last = GRID_SIZE - 1;
    assert_eq!(w.get_next_state(st(last, last), Action::Right), st(last, last));
    assert_eq!(w.get_next_state(st(last, last), Action::Down), st(last, last));
}

#[test]
fn step_inside_grid_moves() {
    let w = GridWorld::new();
    assert_eq!(w.get_next_state(st(0, 0), Action::Right), st(1, 0));
    assert_eq!(w.get_next_state(st(0, 0), Action::Down), st(0, 1));
    assert_eq!(w.get_next_state(st(5, 7), Action::Up), st(5, 6));
    assert_eq!(w.get_next_state(st(5, 7), Action::Left), st(4, 7));
}

#[test]
fn step_stays_in_bounds_everywhere() {
    let w = GridWorld::with_size(3);
    let actions = [Action::Up, Action::Down, Action::Left, Action::Right];
    for x in 0..3 {
        for y in 0..3 {
            for a in actions {
                let n = w.get_next_state(st(x, y), a);
                assert!(n.x < 3 && n.y < 3);
            }
        }
    }
}

#[test]
fn reward_goal_and_elsewhere() {
    let w = GridWorld::new();
    assert_eq!(w.get_reward(st(GRID_SIZE - 1, GRID_SIZE - 1)), SCALE);
    assert_eq!(w.get_reward(st(0, 0)), -SCALE / 10);
    assert_eq!(w.get_reward(st(GRID_SIZE - 1, 0)), -100_000_000);
}

#[test]
fn legal_actions_at_corners_and_middle() {
    let w = GridWorld::new();
    assert_eq!(w.get_possible_actions(st(0, 0)), vec![Action::Right, Action::Down]);
    let last = GRID_SIZE - 1;
    assert_eq!(w.get_possible_actions(st(last, last)), vec![Action::Left, Action::Up]);
    assert_eq!(
        w.get_possible_actions(st(3, 4)),
        vec![Action::Left, Action::Right, Action::Up, Action::Down]
    );
    let single = GridWorld::with_size(1);
    assert!(single.get_possible_actions(st(0, 0)).is_empty());
}

#[test]
fn update_rule_first_step_penalty() {
    assert_eq!(td_update(0, -SCALE / 10, 0), -SCALE / 100);
    assert_eq!(td_update(0, -SCALE / 10, 0), -10_000_000);
}

#[test]
fn update_rule_goal_and_discount() {
    assert_eq!(td_update(0, SCALE, 0), SCALE / 10);
    // 0.5 + 0.1 * (-0.1 + 0.9 * 1.0 - 0.5) = 0.53
    assert_eq!(td_update(SCALE / 2, -SCALE / 10, SCALE), 530_000_000);
}

#[test]
fn update_rule_rounds_down() {
    // target = -1 + floor(-9 / 10) = -2; new = 0 + floor(-2 / 10) = -1
    assert_eq!(td_update(0, -1, -1), -1);
    // target = 1 + floor(9 / 10) = 1; new = 0 + floor(1 / 10) = 0
    assert_eq!(td_update(0, 1, 1), 0);
}

#[test]
fn ties_pick_up_on_untrained_table() {
    let w = GridWorld::new();
    assert_eq!(w.best_action(st(0, 0)), Action::Up);
    assert_eq!(w.best_action(st(7, 3)), Action::Up);
    assert_eq!(w.max_value(st(7, 3)), 0);
}

#[test]
fn greedy_picks_highest_and_first_among_equals() {
    let mut w = GridWorld::new();
    w.q_table.insert(st(1, 1), Action::Up, -5);
    w.q_table.insert(st(1, 1), Action::Left, 7);
    w.q_table.insert(st(1, 1), Action::Right, 7);
    assert_eq!(w.best_action(st(1, 1)), Action::Left);
    assert_eq!(w.max_value(st(1, 1)), 7);
    w.q_table.insert(st(2, 2), Action::Up, -3);
    w.q_table.insert(st(2, 2), Action::Down, -3);
    w.q_table.insert(st(2, 2), Action::Left, -3);
    w.q_table.insert(st(2, 2), Action::Right, -3);
    assert_eq!(w.best_action(st(2, 2)), Action::Up);
}

#[test]
fn train_step_updates_entry() {
    let mut w = GridWorld::new();
    let next = w.train_step(st(0, 0), Action::Left);
    assert_eq!(next, st(0, 0));
    assert_eq!(w.q_table.get(&st(0, 0), &Action::Left), -SCALE / 100);
    let next = w.train_step(st(0, 0), Action::Right);
    assert_eq!(next, st(1, 0));
    assert_eq!(w.q_table.get(&st(0, 0), &Action::Right), -SCALE / 100);
}

#[test]
fn train_step_into_goal() {
    let mut w = GridWorld::with_size(2);
    let next = w.train_step(st(1, 0), Action::Down);
    assert_eq!(next, st(1, 1));
    assert_eq!(w.q_table.get(&st(1, 0), &Action::Down), SCALE / 10);
}

#[test]
fn select_action_prefers_the_drawn_action() {
    let mut w = GridWorld::new();
    w.q_table.insert(st(2, 2), Action::Down, 5);
    assert_eq!(w.select_action(st(2, 2), Some(Action::Left)), Action::Left);
    assert_eq!(w.select_action(st(2, 2), None), Action::Down);
    assert_eq!(w.select_action(st(0, 0), None), Action::Up);
}
