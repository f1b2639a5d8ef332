use grid_qlearn::action::Action;
use grid_qlearn::grid_world::GridWorld;
use grid_qlearn::q_table::SCALE;
use grid_qlearn::state::State;

fn st(x: usize, y: usize) -> State {
    State { x, y }
}

#[test]
fn trained_small_grid_reaches_goal_in_two_steps() {
    let mut w = GridWorld::with_size(2);
    w.train_model(2000);
    let path = w.policy_path(100);
    assert_eq!(path.len(), 3);
    assert_eq!(path[0], st(0, 0));
    assert_eq!(path[2], st(1, 1));
    assert!(path[1] == st(1, 0) || path[1] == st(0, 1));
}

#[test]
fn training_only_touches_grid_cells() {
    let mut w = GridWorld::with_size(4);
    w.train_model(1000);
    let records = w.q_table.to_records();
    assert!(!records.is_empty());
    for r in records {
        assert!(r.0 < 4 && r.1 < 4 && r.2 < 4);
    }
    let path = w.policy_path(1000);
    assert_eq!(*path.last().unwrap(), st(3, 3));
}

#[test]
fn untrained_policy_bumps_into_the_wall() {
    let w = GridWorld::with_size(3);
    let path = w.policy_path(5);
    assert_eq!(path, vec![st(0, 0); 6]);
    assert_eq!(w.best_action(st(0, 0)), Action::Up);
}

#[test]
fn policy_on_single_cell_grid_is_already_done() {
    let w = GridWorld::with_size(1);
    assert_eq!(w.policy_path(10), vec![st(0, 0)]);
    assert!(w.is_goal(st(0, 0)));
}

#[test]
fn training_single_cell_grid_changes_nothing() {
    let mut w = GridWorld::with_size(1);
    w.train_model(10);
    assert!(w.q_table.to_records().is_empty());
}

#[test]
fn training_keeps_values_bounded_and_skips_goal() {
    let mut w = GridWorld::with_size(3);
    w.train_model(300);
    for r in w.q_table.to_records() {
        assert!(-SCALE <= r.3 && r.3 <= SCALE);
        assert!(!(r.0 == 2 && r.1 == 2));
    }
}

#[test]
fn zero_episodes_leave_table_unchanged() {
    let mut w = GridWorld::with_size(3);
    w.q_table.insert(st(1, 1), Action::Left, 17);
    w.train_model(0);
    assert_eq!(w.q_table.to_records(), vec![(1, 1, 2u8, 17i64)]);
}
