use sinking_star::{parse_levels, Action, ActionResult, Direction, Game, Level, Pos};

fn one_level(map: &str) -> Level {
    parse_levels(&format!("1-1\n{map}\n")).unwrap().remove(0)
}

#[test]
fn warrior_pushes_a_chain() {
    let level = one_level("A$$-.");
    let mut game = Game::new(&level);
    assert_eq!(
        game.apply(Action::Move(Direction::Right)),
        ActionResult::Moved
    );
    assert_eq!(game.render(), "-A$$.");
    assert_eq!(
        game.apply(Action::Move(Direction::Right)),
        ActionResult::Moved
    );
    assert_eq!(game.render(), "--A$$");
}

#[test]
fn thief_pulls_the_object_behind() {
    let level = one_level("$B--.");
    let mut game = Game::new(&level);
    game.apply(Action::Move(Direction::Right));
    assert_eq!(game.render(), "-$B-.");
}

#[test]
fn wizard_swaps_with_first_visible_object() {
    let level = one_level("C--$.");
    let mut game = Game::new(&level);
    game.apply(Action::Move(Direction::Right));
    assert_eq!(game.render(), "$--C.");
}

#[test]
fn stones_and_actors_both_trigger_switches() {
    let level = one_level("A$_|.");
    let mut game = Game::new(&level);
    assert!(!game.doors_open());
    game.apply(Action::Move(Direction::Right));
    assert!(game.doors_open());
    assert_eq!(game.render(), "-A$|.");
    game.apply(Action::Move(Direction::Right));
    assert!(game.doors_open());
}

#[test]
fn closing_door_crushes_stone() {
    let level = one_level("A$_|--");
    let mut game = Game::new(&level);
    game.apply(Action::Move(Direction::Right));
    game.apply(Action::Move(Direction::Right));
    assert!(game.stones().contains(&Pos { x: 3, y: 0 }));
    game.apply(Action::Move(Direction::Left));
    assert!(!game.doors_open());
    assert!(game.stones().is_empty());
    assert_eq!(game.render(), "-A_|--");
}

#[test]
fn actor_caught_by_closing_door_cannot_move() {
    let level = one_level("A$_|--");
    let mut game = Game::new(&level);
    game.apply(Action::Move(Direction::Right));
    game.apply(Action::Move(Direction::Right));
    game.apply(Action::Move(Direction::Right));
    assert!(game.actor_trapped(0));
    let before = game.render();
    assert_eq!(
        game.apply(Action::Move(Direction::Right)),
        ActionResult::NoEffect
    );
    assert_eq!(game.render(), before);
    assert_eq!(game.apply(Action::Undo), ActionResult::Undone);
    assert!(!game.actor_trapped(0));
}

#[test]
fn reset_can_be_undone_and_sequence_replays() {
    let level = one_level("A--.");
    let mut game = Game::new(&level);
    game.apply(Action::Move(Direction::Right));
    game.apply(Action::Reset);
    assert_eq!(game.action_sequence(), "DR");
    assert_eq!(game.apply(Action::Undo), ActionResult::Undone);
    assert_eq!(game.render(), "-A-.");
    assert_eq!(game.action_sequence(), "D");
}

#[test]
fn actor_on_only_goal_wins() {
    let level = one_level("A.");
    let mut game = Game::new(&level);
    game.apply(Action::Move(Direction::Right));
    assert!(game.won());
}
