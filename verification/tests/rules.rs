use sinking_star::{
    parse_actions, parse_levels, run_script, Action, ActionResult, ActorKind, Direction, Game,
    Level, Pos,
};

fn level_of(map: &str) -> Level {
    parse_levels(&format!("1-1\n{map}\n")).unwrap().remove(0)
}

fn right() -> Action {
    Action::Move(Direction::Right)
}

#[test]
fn undo_takes_back_a_push() {
    let level = level_of("A$-.");
    let mut game = Game::new(&level);
    assert_eq!(game.apply(right()), ActionResult::Moved);
    assert_eq!(game.render(), "-A$.");
    assert_eq!(game.action_sequence(), "D");
    assert_eq!(game.apply(Action::Undo), ActionResult::Undone);
    assert_eq!(game.render(), "A$-.");
    assert_eq!(game.action_sequence(), "");
    assert_eq!(game.apply(Action::Undo), ActionResult::NoEffect);
}

#[test]
fn move_into_a_wall_has_no_effect() {
    let level = level_of("#A.");
    let mut game = Game::new(&level);
    assert_eq!(game.apply(Action::Move(Direction::Left)), ActionResult::NoEffect);
    assert_eq!(game.apply(Action::Move(Direction::Up)), ActionResult::NoEffect);
    assert_eq!(game.render(), "#A.");
    assert_eq!(game.action_sequence(), "");
}

#[test]
fn trigger_never_has_an_effect() {
    let level = level_of("A_|.");
    let mut game = Game::new(&level);
    assert_eq!(game.apply(Action::Trigger), ActionResult::NoEffect);
    assert_eq!(game.action_sequence(), "");
    assert!(!ActionResult::NoEffect.changed());
    assert!(ActionResult::Moved.changed());
}

#[test]
fn switching_cycles_through_the_actors() {
    let level = level_of("AB.");
    let mut game = Game::new(&level);
    assert_eq!(game.selected(), 0);
    assert_eq!(game.apply(Action::SwitchActor), ActionResult::ActorSwitched);
    assert_eq!(game.selected(), 1);
    assert_eq!(game.selected_actor().kind, ActorKind::Thief);
    assert_eq!(game.apply(Action::SwitchActor), ActionResult::ActorSwitched);
    assert_eq!(game.selected(), 0);
    assert_eq!(game.action_sequence(), "CC");

    let single = level_of("A.");
    let mut game = Game::new(&single);
    assert_eq!(game.apply(Action::SwitchActor), ActionResult::NoEffect);
}

#[test]
fn reset_at_the_start_has_no_effect() {
    let level = level_of("A$-.");
    let mut game = Game::new(&level);
    assert_eq!(game.apply(Action::Reset), ActionResult::NoEffect);
    game.apply(right());
    assert_eq!(game.apply(Action::Reset), ActionResult::Reset);
    assert_eq!(game.render(), "A$-.");
    assert_eq!(game.selected(), 0);
}

#[test]
fn warrior_cannot_push_a_chain_into_a_wall() {
    let level = level_of("A$$#");
    let mut game = Game::new(&level);
    assert_eq!(game.apply(right()), ActionResult::NoEffect);
    assert_eq!(game.render(), "A$$#");
}

#[test]
fn warrior_pushes_actors_and_stones_down_a_column() {
    let level = level_of("A-\nB-\n$-\n--");
    let mut game = Game::new(&level);
    assert_eq!(game.apply(Action::Move(Direction::Down)), ActionResult::Moved);
    assert_eq!(game.render(), "--\nA-\nB-\n$-");
}

#[test]
fn thief_pulls_an_actor() {
    let level = level_of("AB-.");
    let mut game = Game::new(&level);
    game.apply(Action::SwitchActor);
    assert_eq!(game.apply(right()), ActionResult::Moved);
    assert_eq!(game.render(), "-AB.");
}

#[test]
fn thief_cannot_push() {
    let level = level_of("B$-.");
    let mut game = Game::new(&level);
    assert_eq!(game.apply(right()), ActionResult::NoEffect);
}

#[test]
fn wizard_without_an_object_ahead_steps() {
    let level = level_of("C--.");
    let mut game = Game::new(&level);
    assert_eq!(game.apply(right()), ActionResult::Moved);
    assert_eq!(game.render(), "-C-.");
}

#[test]
fn wizard_swaps_with_an_actor() {
    let level = level_of("C-A.");
    let mut game = Game::new(&level);
    assert_eq!(game.apply(right()), ActionResult::Moved);
    assert_eq!(game.render(), "A-C.");
}

#[test]
fn wizard_does_not_look_past_a_closed_door() {
    let level = level_of("C|$");
    let mut game = Game::new(&level);
    assert!(!game.doors_open());
    assert_eq!(game.apply(right()), ActionResult::NoEffect);
    assert_eq!(game.render(), "C|$");
}

#[test]
fn doors_stay_shut_without_switches() {
    let level = level_of("A|.");
    let game = Game::new(&level);
    assert!(!game.doors_open());
}

#[test]
fn stone_on_an_open_door_survives() {
    let level = level_of("A$_|-");
    let mut game = Game::new(&level);
    game.apply(right());
    game.apply(right());
    assert!(game.doors_open());
    assert!(game.stones().contains(&Pos { x: 3, y: 0 }));
    assert_eq!(game.render(), "--A$-");
}

#[test]
fn winning_needs_every_goal_covered() {
    let level = level_of("A..");
    let mut game = Game::new(&level);
    game.apply(right());
    assert!(!game.won());
    let no_goals = level_of("A-");
    assert!(!Game::new(&no_goals).won());
    let two = level_of("A-.\nB-.");
    let mut game = Game::new(&two);
    game.apply(right());
    game.apply(right());
    assert!(!game.won());
    game.apply(Action::SwitchActor);
    game.apply(right());
    game.apply(right());
    assert!(game.won());
}

#[test]
fn replaying_the_action_sequence_reaches_the_same_game() {
    let level = level_of("A$_|-\n-B--.\nC----");
    let mut game = Game::new(&level);
    for action in parse_actions("ddsCdzDCwa").unwrap() {
        game.apply(action);
    }
    let sequence = game.action_sequence();
    let replayed = run_script(&level, &sequence).unwrap();
    assert_eq!(replayed.render(), game.render());
    assert_eq!(replayed.action_sequence(), sequence);
    assert_eq!(replayed.selected(), game.selected());
}

#[test]
fn actors_keep_their_kinds_and_cells_stay_single() {
    let level = level_of("A$B-C\n-$--.");
    let mut game = Game::new(&level);
    for action in parse_actions("dCaCdsCwdrzd").unwrap() {
        game.apply(action);
        let actors = game.actors();
        assert_eq!(actors.len(), 3);
        assert_eq!(actors[0].kind, ActorKind::Warrior);
        assert_eq!(actors[1].kind, ActorKind::Thief);
        assert_eq!(actors[2].kind, ActorKind::Wizard);
        for i in 0..actors.len() {
            assert!(!game.stones().contains(&actors[i].pos));
            for j in 0..i {
                assert_ne!(actors[i].pos, actors[j].pos);
            }
        }
    }
}

#[test]
fn undo_after_a_door_closes_restores_the_stone() {
    let level = level_of("A$_|--");
    let mut game = Game::new(&level);
    game.apply(right());
    game.apply(right());
    game.apply(Action::Move(Direction::Left));
    assert!(game.stones().is_empty());
    assert_eq!(game.apply(Action::Undo), ActionResult::Undone);
    assert_eq!(game.render(), "--A$--");
}

#[test]
fn undos_lead_back_to_the_start() {
    let level = level_of("A$-_|.\n-B-C--");
    let mut game = Game::new(&level);
    for action in parse_actions("DDXRZD").unwrap() {
        game.apply(action);
    }
    assert_eq!(game.action_sequence(), "DDD");
    let steps = game.action_sequence().chars().count();
    for _ in 0..steps {
        assert_eq!(game.apply(Action::Undo), ActionResult::Undone);
    }
    assert_eq!(game.action_sequence(), "");
    assert_eq!(game.apply(Action::Undo), ActionResult::NoEffect);
    assert_eq!(game.render(), Game::new(&level).render());
    assert_eq!(game.selected(), 0);
}

#[test]
fn objects_stay_off_walls_and_stones_never_multiply() {
    let level = level_of("#A$$-#\n#-_|.#");
    let start = level.stone_count();
    let mut game = Game::new(&level);
    for action in parse_actions("DDDDSSXAAWDR").unwrap() {
        game.apply(action);
        assert!(game.stones().len() <= start);
        for stone in game.stones() {
            assert!(stone.x > 0 && stone.x < 5);
        }
        for actor in game.actors() {
            assert!(actor.pos.x > 0 && actor.pos.x < 5);
        }
    }
    assert_eq!(game.render(), "#A$$-#\n#-_|.#");
}

#[test]
fn a_read_map_shows_again() {
    let rows = ["A$_|.", "#-B-C", "..$$-"];
    let level = level_of(&rows.join("\n"));
    assert_eq!(level.width, 5);
    assert_eq!(level.height, 3);
    assert_eq!(Game::new(&level).render(), rows.join("\n"));
}
