use sinking_star::{
    find_level, not_found_message, handle_key, is_quit, key_to_action, level_map, parse_actions,
    parse_level_sources, parse_levels, Action, ActionParseError, ActionResult, ActorKind,
    Direction, Game, Key, KeyOutcome, KeyPress, Level, LevelError, Pos, Tile,
};

fn level_of(map: &str) -> Level {
    parse_levels(&format!("1-1\n{map}\n")).unwrap().remove(0)
}

#[test]
fn no_level_header_is_no_levels() {
    assert!(matches!(parse_levels("hello\nA.\n"), Err(LevelError::NoLevels)));
    assert!(matches!(parse_levels(""), Err(LevelError::NoLevels)));
    assert!(matches!(parse_levels("1-\nA.\n"), Err(LevelError::NoLevels)));
    assert!(matches!(parse_levels("a-1\nA.\n"), Err(LevelError::NoLevels)));
}

#[test]
fn repeated_name_is_reported_with_its_line() {
    match parse_levels("1-1\nA.\n1-1\nA.\n") {
        Err(LevelError::DuplicateName { line, name }) => {
            assert_eq!(line, 3);
            assert_eq!(name, "1-1");
        }
        _ => panic!("expected a duplicate name"),
    }
}

#[test]
fn level_without_rows_is_empty() {
    match parse_levels("1-1\n  \n1-2\nA.\n") {
        Err(LevelError::EmptyMap { name }) => assert_eq!(name, "1-1"),
        _ => panic!("expected an empty map"),
    }
}

#[test]
fn rows_of_other_widths_are_reported() {
    match parse_levels("1-1\nA.\n\nA\n") {
        Err(LevelError::UnevenWidth { name, line, actual, expected }) => {
            assert_eq!(name, "1-1");
            assert_eq!(line, 4);
            assert_eq!(actual, 1);
            assert_eq!(expected, 2);
        }
        _ => panic!("expected uneven width"),
    }
}

#[test]
fn unknown_characters_are_reported() {
    match parse_levels("7-2\nA.\n-?\n") {
        Err(LevelError::InvalidTile { name, line, character }) => {
            assert_eq!(name, "7-2");
            assert_eq!(line, 3);
            assert_eq!(character, '?');
        }
        _ => panic!("expected an invalid tile"),
    }
}

#[test]
fn level_without_actors_is_reported() {
    match parse_levels("1-1\n-.\n") {
        Err(LevelError::NoActors { name }) => assert_eq!(name, "1-1"),
        _ => panic!("expected no actors"),
    }
}

#[test]
fn headers_are_trimmed_and_carriage_returns_dropped() {
    let levels = parse_levels(" 2-3 \r\nA.\r\n\r\n10-01\n$C\n").unwrap();
    assert_eq!(levels.len(), 2);
    assert_eq!(levels[0].name, "2-3");
    assert_eq!(levels[1].name, "10-01");
    assert_eq!(levels[0].width, 2);
    assert_eq!(levels[0].height, 1);
    assert_eq!(Game::new(&levels[0]).render(), "A.");
    assert_eq!(Game::new(&levels[1]).render(), "$C");
}

#[test]
fn level_counts_its_tiles_and_objects() {
    let level = level_of("A$$_._|\nB-#-.--");
    assert_eq!(level.stone_count(), 2);
    assert_eq!(level.goal_count(), 2);
    assert_eq!(level.switch_count(), 2);
    assert_eq!(level.actors().len(), 2);
    assert_eq!(level.actors()[1].kind, ActorKind::Thief);
    assert_eq!(level.actors()[1].pos, Pos { x: 0, y: 1 });
    assert_eq!(Tile::Door.symbol(), '|');
}

#[test]
fn action_letters_and_arrows_are_read() {
    let actions = parse_actions("w,a s\nD↑zRxC").unwrap();
    assert_eq!(
        actions,
        vec![
            Action::Move(Direction::Up),
            Action::Move(Direction::Left),
            Action::Move(Direction::Down),
            Action::Move(Direction::Right),
            Action::Move(Direction::Up),
            Action::Undo,
            Action::Reset,
            Action::Trigger,
            Action::SwitchActor,
        ]
    );
    assert_eq!(
        parse_actions("wq"),
        Err(ActionParseError { index: 2, character: 'q' })
    );
}

#[test]
fn every_action_letter_reads_back() {
    let all = [
        Action::Move(Direction::Up),
        Action::Move(Direction::Down),
        Action::Move(Direction::Left),
        Action::Move(Direction::Right),
        Action::Undo,
        Action::Reset,
        Action::Trigger,
        Action::SwitchActor,
    ];
    for action in all {
        let text = action.symbol().to_string();
        assert_eq!(parse_actions(&text).unwrap(), vec![action]);
    }
}

#[test]
fn describe_shows_the_walled_map_and_the_state() {
    let level = level_of("A.");
    let game = Game::new(&level);
    assert_eq!(game.render_bordered(), "####\n#A.#\n####");
    assert_eq!(
        game.describe(),
        "####\n#A.#\n####\n关卡 1-1  当前角色 A(战士) @ (0, 0)  门 关  通关 否\n动作 "
    );
}

#[test]
fn describe_tells_of_a_trapped_actor() {
    let level = level_of("---------A$_|--");
    let mut game = Game::new(&level);
    game.apply(Action::Move(Direction::Right));
    game.apply(Action::Move(Direction::Right));
    game.apply(Action::Move(Direction::Right));
    let text = game.describe();
    assert!(text.ends_with(
        "\n关卡 1-1  当前角色 A(战士) @ (12, 0)  门 关（当前角色被卡住）  通关 否\n动作 DDD"
    ));
}

#[test]
fn report_lists_the_state() {
    let level = level_of("A$_|\n-$-.");
    let mut game = Game::new(&level);
    game.apply(Action::Move(Direction::Right));
    let report = game.report();
    assert_eq!(report.level, "1-1");
    assert_eq!(report.grid, vec!["-A$|".to_string(), "-$-.".to_string()]);
    assert_eq!(report.stones, vec![Pos { x: 2, y: 0 }, Pos { x: 1, y: 1 }]);
    assert_eq!(report.selected_actor, 0);
    assert!(report.doors_open);
    assert!(!report.won);
    assert!(report.trapped_actors.is_empty());
    assert_eq!(report.actions, "D");
    assert_eq!(report.actors[0].pos, Pos { x: 1, y: 0 });
}

#[test]
fn levels_are_found_by_name() {
    let levels = parse_levels("1-1\nA.\n1-2\n.B\n").unwrap();
    assert_eq!(find_level(&levels, "1-2").unwrap().name, "1-2");
    assert_eq!(
        find_level(&levels, "9-9").unwrap_err(),
        "no level \"9-9\"; available: 1-1, 1-2"
    );
    let map = level_map(&levels);
    assert_eq!(map.get("1-1").unwrap().width, 2);
    assert!(map.get("nope").is_none());
    assert_eq!(map.len(), 2);
    assert!(!map.is_empty());
    let names: Vec<&str> = map.entries().iter().map(|l| l.name.as_str()).collect();
    assert_eq!(names, vec!["1-1", "1-2"]);
}

#[test]
fn a_missing_level_lists_the_others() {
    let levels = parse_levels("1-1\nA.\n").unwrap();
    assert_eq!(not_found_message("\"x\"", &levels), "no level \"x\"; available: 1-1");
    assert_eq!(not_found_message("\"x\"", &[]), "no level \"x\"; available: ");
}

#[test]
fn a_space_is_floor() {
    let levels = parse_levels("1-1\nA .\n").unwrap();
    assert_eq!(levels.len(), 1);
    assert_eq!(levels[0].width, 3);
    assert_eq!(Game::new(&levels[0]).render(), "A-.");
}

#[test]
fn errors_read_as_messages() {
    let e = parse_levels("7-2\nA.\n-?\n").unwrap_err();
    assert_eq!(e.message(), "关卡 7-2 第 3 行包含未知字符 '?'");
    assert_eq!(
        ActionParseError { index: 2, character: 'q' }.message(),
        "输入序列第 2 个字符 'q' 无效；可用 WASD、方向箭头、Z、R、X、C"
    );
}

#[test]
fn level_sources_are_joined_into_one_collection() {
    let levels = parse_level_sources(&[("1-1", "A."), ("1-2", "B$.\n")]).unwrap();
    assert_eq!(levels.len(), 2);
    assert_eq!(levels[1].name, "1-2");
    assert_eq!(levels[1].stone_count(), 1);
    assert!(matches!(parse_level_sources(&[]), Err(LevelError::NoLevels)));
}

#[test]
fn keys_map_to_actions_and_quitting() {
    assert_eq!(key_to_action(Key::Char('W')), Some(Action::Move(Direction::Up)));
    assert_eq!(key_to_action(Key::Left), Some(Action::Move(Direction::Left)));
    assert_eq!(key_to_action(Key::Char('z')), Some(Action::Undo));
    assert_eq!(key_to_action(Key::Char('q')), None);
    assert!(is_quit(KeyPress { key: Key::Esc, control: false }));
    assert!(is_quit(KeyPress { key: Key::Char('Q'), control: false }));
    assert!(is_quit(KeyPress { key: Key::Char('c'), control: true }));
    assert!(!is_quit(KeyPress { key: Key::Char('c'), control: false }));

    let level = level_of("A-.");
    let mut game = Game::new(&level);
    assert_eq!(
        handle_key(&mut game, KeyPress { key: Key::Char('d'), control: false }),
        KeyOutcome::Acted(ActionResult::Moved)
    );
    assert_eq!(
        handle_key(&mut game, KeyPress { key: Key::Other, control: false }),
        KeyOutcome::Ignored
    );
    assert_eq!(
        handle_key(&mut game, KeyPress { key: Key::Esc, control: false }),
        KeyOutcome::Quit
    );
    assert_eq!(game.render(), "-A.");
}

#[test]
fn status_line_tells_the_actor_doors_and_actions() {
    let level = level_of("A.");
    let game = Game::new(&level);
    assert_eq!(game.status_line(), "Current: A(战士) @ (0, 0)    Doors: closed    Actions: ");

    let level = level_of("---------A$_|--");
    let mut game = Game::new(&level);
    for _ in 0..3 {
        game.apply(Action::Move(Direction::Right));
    }
    assert_eq!(
        game.status_line(),
        "Current: A(战士) @ (12, 0) [trapped]    Doors: closed    Actions: DDD"
    );
}
