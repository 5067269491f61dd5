use restoration_project::analysis::analyze_story;
use restoration_project::config::GameConfig;
use restoration_project::errors::GameError;
use restoration_project::game::{
    check_condition, check_single_condition, current_room_description, execute_actions, get_available_choices,
    get_room_description, Emission, GameState,
};
use restoration_project::parser::parse_markdown_story;
use restoration_project::ui::{
    content_layout, display_choices, loop_command, parse_user_choice, special_command, wrap_text, LoopCommand,
};
use restoration_project::world::{
    load_world_from_markdown_content, validate_world, Action, Choice, Condition, ConditionalDescription, FlagId,
    Room, World,
};

fn s(x: &str) -> String {
    x.to_string()
}

fn flag(x: &str) -> FlagId {
    FlagId(s(x))
}

fn choice(text: &str, condition: Option<Condition>, actions: Vec<Action>) -> Choice {
    Choice { text: s(text), condition, actions }
}

fn room(choices: &[&str]) -> Room {
    Room {
        descriptions: vec![ConditionalDescription { condition: None, text: s("") }],
        choices: choices.iter().map(|c| s(c)).collect(),
    }
}

fn texts(out: &[Emission]) -> Vec<String> {
    out.iter()
        .filter_map(|e| match e {
            Emission::Text(t) => Some(t.clone()),
            _ => None,
        })
        .collect()
}

fn state_with_flags(flags: &[&str]) -> GameState {
    let mut st = GameState::new(s("start"));
    for f in flags {
        st.flags.push(flag(f));
    }
    st
}

fn all_conditions() -> Vec<Condition> {
    vec![
        Condition::HasFlag(flag("a")),
        Condition::NotHasFlag(flag("a")),
        Condition::HasAllFlags(vec![flag("a"), flag("b")]),
        Condition::HasAnyFlags(vec![flag("a"), flag("b")]),
        Condition::CounterGreaterThan(s("n"), 1),
        Condition::CounterLessThan(s("n"), 1),
        Condition::CounterEquals(s("n"), 0),
    ]
}

fn clone_condition(c: &Condition) -> Condition {
    match c {
        Condition::HasFlag(f) => Condition::HasFlag(f.clone()),
        Condition::NotHasFlag(f) => Condition::NotHasFlag(f.clone()),
        Condition::HasAllFlags(fs) => Condition::HasAllFlags(fs.clone()),
        Condition::HasAnyFlags(fs) => Condition::HasAnyFlags(fs.clone()),
        Condition::CounterGreaterThan(n, v) => Condition::CounterGreaterThan(n.clone(), *v),
        Condition::CounterLessThan(n, v) => Condition::CounterLessThan(n.clone(), *v),
        Condition::CounterEquals(n, v) => Condition::CounterEquals(n.clone(), *v),
        Condition::And(l, r) => Condition::And(Box::new(clone_condition(l)), Box::new(clone_condition(r))),
        Condition::Or(l, r) => Condition::Or(Box::new(clone_condition(l)), Box::new(clone_condition(r))),
    }
}

#[test]
fn and_or_of_same_condition_agree_with_it() {
    let states = vec![state_with_flags(&[]), state_with_flags(&["a"]), state_with_flags(&["a", "b"])];
    for st in &states {
        for c in all_conditions() {
            let base = check_single_condition(&c, st);
            let and = Condition::And(Box::new(clone_condition(&c)), Box::new(clone_condition(&c)));
            let or = Condition::Or(Box::new(clone_condition(&c)), Box::new(clone_condition(&c)));
            assert_eq!(check_single_condition(&and, st), base);
            assert_eq!(check_single_condition(&or, st), base);
        }
    }
}

#[test]
fn empty_flag_lists() {
    for st in [state_with_flags(&[]), state_with_flags(&["x"])] {
        assert!(check_single_condition(&Condition::HasAllFlags(vec![]), &st));
        assert!(!check_single_condition(&Condition::HasAnyFlags(vec![]), &st));
    }
}

#[test]
fn counter_conditions_default_to_zero() {
    let st = GameState::new(s("start"));
    assert!(check_single_condition(&Condition::CounterEquals(s("gold"), 0), &st));
    assert!(!check_single_condition(&Condition::CounterGreaterThan(s("gold"), 0), &st));
    assert!(check_single_condition(&Condition::CounterLessThan(s("gold"), 1), &st));
}

#[test]
fn room_description_follows_condition() {
    let r = Room {
        descriptions: vec![
            ConditionalDescription { condition: Some(Condition::HasFlag(flag("A"))), text: s("x") },
            ConditionalDescription { condition: None, text: s("y") },
        ],
        choices: vec![],
    };
    assert_eq!(get_room_description(&r, &state_with_flags(&[])), "y");
    assert_eq!(get_room_description(&r, &state_with_flags(&["A"])), "x");
    let none = Room {
        descriptions: vec![ConditionalDescription { condition: Some(Condition::HasFlag(flag("A"))), text: s("x") }],
        choices: vec![],
    };
    assert_eq!(get_room_description(&none, &state_with_flags(&[])), "");
}

fn key_world() -> World {
    World {
        rooms: vec![(s("start"), room(&["c_a", "c_b"])), (s("a"), room(&[])), (s("b"), room(&[]))],
        choices: vec![
            (s("c_a"), choice("Open the door", Some(Condition::HasFlag(flag("got_key"))), vec![Action::GoTo(s("a"))])),
            (s("c_b"), choice("Walk away", None, vec![Action::GoTo(s("b"))])),
        ],
        starting_room_id: s("start"),
    }
}

#[test]
fn gated_choice_appears_after_flag() {
    let w = key_world();
    let mut st = GameState::new(s("start"));
    let before: Vec<String> = get_available_choices(&w, &st).unwrap().iter().map(|c| c.text.clone()).collect();
    assert_eq!(before, vec![s("Walk away")]);
    let set = choice("take", None, vec![Action::SetFlag(flag("got_key"))]);
    execute_actions(&set, &mut st);
    let after: Vec<String> = get_available_choices(&w, &st).unwrap().iter().map(|c| c.text.clone()).collect();
    assert_eq!(after, vec![s("Open the door"), s("Walk away")]);
    assert!(check_condition(&w.choices[0].1, &st));
}

#[test]
fn available_choices_report_stale_state() {
    let w = key_world();
    let st = GameState::new(s("cellar"));
    match get_available_choices(&w, &st) {
        Err(GameError::MissingRoom(r)) => assert_eq!(r, "cellar"),
        other => panic!("unexpected {:?}", other.map(|v| v.len())),
    }
    let mut broken = key_world();
    broken.rooms[0].1.choices.push(s("gone"));
    let st = GameState::new(s("start"));
    match get_available_choices(&broken, &st) {
        Err(GameError::MissingChoice(c)) => assert_eq!(c, "gone"),
        other => panic!("unexpected {:?}", other.map(|v| v.len())),
    }
}

#[test]
fn increment_counter_reports_old_and_new() {
    let mut st = GameState::new(s("start"));
    let c = choice("score", None, vec![Action::IncrementCounter(s("score"))]);
    let first = execute_actions(&c, &mut st);
    assert!(matches!(&first[..], [Emission::CounterChanged { counter, old_value: 0, new_value: 1 }] if counter == "score"));
    let second = execute_actions(&c, &mut st);
    assert!(matches!(&second[..], [Emission::CounterChanged { old_value: 1, new_value: 2, .. }]));
}

#[test]
fn counters_decrement_set_and_saturate() {
    let mut st = GameState::new(s("start"));
    let c = choice(
        "c",
        None,
        vec![
            Action::DecrementCounter(s("hp")),
            Action::SetCounter(s("hp"), i32::MAX),
            Action::IncrementCounter(s("hp")),
        ],
    );
    let out = execute_actions(&c, &mut st);
    assert!(matches!(out[0], Emission::CounterChanged { old_value: 0, new_value: -1, .. }));
    assert!(matches!(out[1], Emission::CounterChanged { old_value: -1, new_value: i32::MAX, .. }));
    assert!(matches!(out[2], Emission::CounterChanged { old_value: i32::MAX, new_value: i32::MAX, .. }));
    assert_eq!(st.counters.len(), 1);
}

#[test]
fn quit_does_not_stop_later_actions() {
    let mut st = GameState::new(s("start"));
    let c = choice("bye", None, vec![Action::Quit, Action::DisplayText(s("after"))]);
    let out = execute_actions(&c, &mut st);
    assert!(st.has_quit);
    assert_eq!(texts(&out), vec![s("after")]);
}

#[test]
fn actions_see_earlier_effects() {
    let mut st = GameState::new(s("start"));
    let c = choice(
        "c",
        None,
        vec![
            Action::SetFlag(flag("lit")),
            Action::DisplayTextConditional {
                condition: Condition::HasFlag(flag("lit")),
                text_if_true: s("bright"),
                text_if_false: s("dark"),
            },
            Action::RemoveFlag(flag("lit")),
            Action::DisplayTextConditional {
                condition: Condition::HasFlag(flag("lit")),
                text_if_true: s("bright"),
                text_if_false: s("dark"),
            },
            Action::GoTo(s("hall")),
        ],
    );
    let out = execute_actions(&c, &mut st);
    assert_eq!(texts(&out), vec![s("bright"), s("dark")]);
    assert_eq!(st.current_room_id, "hall");
    assert!(st.flags.is_empty());
}

#[test]
fn set_flag_twice_keeps_one_entry() {
    let mut st = GameState::new(s("start"));
    let c = choice("c", None, vec![Action::SetFlag(flag("k")), Action::SetFlag(flag("k"))]);
    execute_actions(&c, &mut st);
    assert_eq!(st.flags.len(), 1);
}

#[test]
fn validation_errors() {
    let mut w = key_world();
    assert!(validate_world(&w).is_ok());
    w.starting_room_id = s("nowhere");
    assert!(matches!(validate_world(&w), Err(GameError::InvalidStartingRoom(r)) if r == "nowhere"));

    let mut w = key_world();
    w.choices[1].1.actions.push(Action::GoTo(s("void")));
    match validate_world(&w) {
        Err(GameError::MissingRoom(m)) => assert_eq!(m, "Choice 'c_b' references missing room 'void'"),
        other => panic!("unexpected {:?}", other),
    }

    let mut w = key_world();
    w.rooms[1].1.choices.push(s("ghost"));
    match validate_world(&w) {
        Err(GameError::MissingChoice(m)) => assert_eq!(m, "Room 'a' references missing choice 'ghost'"),
        other => panic!("unexpected {:?}", other),
    }
}

#[test]
fn analysis_of_small_world() {
    let w = World {
        rooms: vec![(s("start"), room(&["go_a"])), (s("a"), room(&[])), (s("b"), room(&["b_back"]))],
        choices: vec![
            (s("go_a"), choice("Go", None, vec![Action::GoTo(s("a"))])),
            (s("b_back"), choice("Back", None, vec![Action::GoTo(s("start"))])),
        ],
        starting_room_id: s("start"),
    };
    let st = analyze_story(&w).unwrap();
    assert_eq!(st.unreachable_rooms, vec![s("b")]);
    assert_eq!(st.rooms_with_no_exit, vec![s("a")]);
    assert!(st.dead_end_rooms.is_empty());
    assert_eq!(st.max_depth, 1);
    assert_eq!(st.total_rooms, 3);
    assert_eq!(st.total_choices, 2);
}

#[test]
fn analysis_of_cycle_and_dead_end() {
    let w = World {
        rooms: vec![
            (s("start"), room(&["to_hall"])),
            (s("hall"), room(&["back", "on"])),
            (s("end"), room(&["look"])),
        ],
        choices: vec![
            (s("to_hall"), choice("Hall", Some(Condition::HasFlag(flag("door"))), vec![Action::GoTo(s("hall"))])),
            (s("back"), choice("Back", None, vec![Action::GoTo(s("start"))])),
            (s("on"), choice("On", None, vec![Action::SetFlag(flag("seen")), Action::GoTo(s("end"))])),
            (s("look"), choice("Look", None, vec![Action::DisplayText(s("nothing"))])),
        ],
        starting_room_id: s("start"),
    };
    let st = analyze_story(&w).unwrap();
    assert!(st.unreachable_rooms.is_empty());
    assert_eq!(st.dead_end_rooms, vec![s("end")]);
    assert!(st.rooms_with_no_exit.is_empty());
    assert_eq!(st.max_depth, 2);
    let mut flags = st.total_flags.clone();
    flags.sort();
    assert_eq!(flags, vec![s("door"), s("seen")]);
}

const STORY: &str = "# The Cellar
@start cellar

## @room cellar
It is dark.
Very dark.
[has_lamp]
A lamp glows.

### Take the lamp [!has_lamp]
- say: You take the lamp.
- flag+ has_lamp
- count+ turns

### Climb the stairs [has_lamp & turns > 0]
- goto: hall

## @room hall
<!-- a comment -->
The hall.

### Leave
- @cellar
- quit
";

#[test]
fn parses_a_story() {
    let w = parse_markdown_story(STORY).unwrap();
    assert_eq!(w.starting_room_id, "cellar");
    assert_eq!(w.rooms.len(), 2);
    assert_eq!(w.rooms[0].0, "cellar");
    let cellar = &w.rooms[0].1;
    assert_eq!(cellar.descriptions.len(), 2);
    assert!(cellar.descriptions[0].condition.is_none());
    assert_eq!(cellar.descriptions[0].text, "It is dark. Very dark.");
    assert!(matches!(&cellar.descriptions[1].condition, Some(Condition::HasFlag(f)) if f.0 == "has_lamp"));
    assert_eq!(cellar.descriptions[1].text, "A lamp glows.");
    assert_eq!(cellar.choices, vec![s("choice_0"), s("choice_1")]);
    assert_eq!(w.rooms[1].1.choices, vec![s("choice_2")]);
    let take = &w.choices[0].1;
    assert_eq!(take.text, "Take the lamp");
    assert!(matches!(&take.condition, Some(Condition::NotHasFlag(f)) if f.0 == "has_lamp"));
    assert_eq!(take.actions.len(), 3);
    assert!(matches!(&take.actions[0], Action::DisplayText(t) if t == "You take the lamp."));
    assert!(matches!(&take.actions[1], Action::SetFlag(f) if f.0 == "has_lamp"));
    assert!(matches!(&take.actions[2], Action::IncrementCounter(c) if c == "turns"));
    let climb = &w.choices[1].1;
    match &climb.condition {
        Some(Condition::And(l, r)) => {
            assert!(matches!(&**l, Condition::HasFlag(f) if f.0 == "has_lamp"));
            assert!(matches!(&**r, Condition::CounterGreaterThan(n, 0) if n == "turns"));
        },
        other => panic!("unexpected {:?}", other),
    }
    let leave = &w.choices[2].1;
    assert!(matches!(&leave.actions[0], Action::GoTo(r) if r == "cellar"));
    assert!(matches!(&leave.actions[1], Action::Quit));
    assert_eq!(w.rooms[1].1.descriptions[0].text, "<!-- a comment --> The hall.");
    assert!(validate_world(&w).is_ok());
}

#[test]
fn plays_through_a_parsed_story() {
    let w = load_world_from_markdown_content(STORY).unwrap();
    let mut st = GameState::new(w.starting_room_id.clone());
    let r = &w.rooms[0].1;
    assert_eq!(get_room_description(r, &st), "It is dark. Very dark.");
    let first: Vec<String> = get_available_choices(&w, &st).unwrap().iter().map(|c| c.text.clone()).collect();
    assert_eq!(first, vec![s("Take the lamp")]);
    let out = execute_actions(&w.choices[0].1, &mut st);
    assert_eq!(texts(&out), vec![s("You take the lamp.")]);
    assert_eq!(get_room_description(r, &st), "It is dark. Very dark.");
    let next: Vec<String> = get_available_choices(&w, &st).unwrap().iter().map(|c| c.text.clone()).collect();
    assert_eq!(next, vec![s("Climb the stairs")]);
}

#[test]
fn missing_start_is_an_error() {
    assert!(matches!(parse_markdown_story("## @room a\ntext\n"), Err(GameError::ValidationError(_))));
    assert!(matches!(parse_markdown_story(""), Err(GameError::ValidationError(_))));
}

#[test]
fn load_rejects_dangling_goto() {
    let doc = "@start a\n## @room a\n### Go\n- goto: nowhere\n";
    match load_world_from_markdown_content(doc) {
        Err(GameError::MissingRoom(m)) => assert_eq!(m, "Choice 'choice_0' references missing room 'nowhere'"),
        other => panic!("unexpected {:?}", other.map(|w| w.rooms.len())),
    }
    let doc = "@start b\n## @room a\n";
    assert!(matches!(load_world_from_markdown_content(doc), Err(GameError::InvalidStartingRoom(_))));
}

#[test]
fn last_start_directive_wins() {
    let w = parse_markdown_story("@start a\n@start b\n## @room a\n## @room b\n").unwrap();
    assert_eq!(w.starting_room_id, "b");
}

#[test]
fn redefined_room_replaces_earlier() {
    let doc = "@start a\n## @room a\nfirst\n### One\n- say: 1\n## @room b\n## @room a\nsecond\n";
    let w = parse_markdown_story(doc).unwrap();
    assert_eq!(w.rooms.len(), 2);
    assert_eq!(w.rooms[0].0, "a");
    assert_eq!(w.rooms[0].1.descriptions[0].text, "second");
    assert!(w.rooms[0].1.choices.is_empty());
    assert!(w.choices.is_empty());
    assert_eq!(w.rooms[1].1.descriptions[0].text, "");
}

#[test]
fn comparison_operators() {
    let doc = "@start a\n## @room a\n### A [n >= 2]\n### B [n <= 2]\n### C [n != 2]\n### D [n = 2]\n### E [n < x]\n### F [x | !y]\n";
    let w = parse_markdown_story(doc).unwrap();
    let cond = |i: usize| w.choices[i].1.condition.as_ref().unwrap();
    let at = |v: i32| {
        let mut st = GameState::new(s("a"));
        st.counters.push((s("n"), v));
        st
    };
    let ge = cond(0);
    assert!(matches!(ge, Condition::Or(_, _)));
    assert!(check_single_condition(ge, &at(2)) && check_single_condition(ge, &at(3)) && !check_single_condition(ge, &at(1)));
    let le = cond(1);
    assert!(check_single_condition(le, &at(2)) && !check_single_condition(le, &at(3)) && check_single_condition(le, &at(1)));
    let ne = cond(2);
    assert!(!check_single_condition(ne, &at(2)) && check_single_condition(ne, &at(3)) && check_single_condition(ne, &at(1)));
    assert!(matches!(cond(3), Condition::CounterEquals(n, 2) if n == "n"));
    assert!(matches!(cond(4), Condition::HasFlag(f) if f.0 == "n < x"));
    match cond(5) {
        Condition::Or(l, r) => {
            assert!(matches!(&**l, Condition::HasFlag(f) if f.0 == "x"));
            assert!(matches!(&**r, Condition::NotHasFlag(f) if f.0 == "y"));
        },
        other => panic!("unexpected {:?}", other),
    }
}

#[test]
fn action_grammar() {
    let doc = "@start a\n## @room a\n### Do\n- count- hp\n- count= gold 5\n- count= gold\n- count= gold x\n- end\n- flag- door\n- just words\n";
    let w = parse_markdown_story(doc).unwrap();
    let acts = &w.choices[0].1.actions;
    assert_eq!(acts.len(), 5);
    assert!(matches!(&acts[0], Action::DecrementCounter(c) if c == "hp"));
    assert!(matches!(&acts[1], Action::SetCounter(c, 5) if c == "gold"));
    assert!(matches!(&acts[2], Action::Quit));
    assert!(matches!(&acts[3], Action::RemoveFlag(f) if f.0 == "door"));
    assert!(matches!(&acts[4], Action::DisplayText(t) if t == "just words"));
}

#[test]
fn menu_lines_are_numbered() {
    let a = choice("Open", None, vec![]);
    let b = choice("Close", None, vec![]);
    let lines = display_choices(&[&a, &b]);
    assert_eq!(lines, vec![s("1: Open"), s("2: Close")]);
}

#[test]
fn user_choice_by_number_and_text() {
    let a = choice("Open the Wooden Door", None, vec![Action::GoTo(s("x"))]);
    let b = choice("Leave", None, vec![Action::Quit]);
    let c = choice("Search the shelves", None, vec![]);
    let list = [&a, &b, &c];
    let cfg = GameConfig::default();
    assert_eq!(parse_user_choice(" 2 ", &list, &cfg), Some(1));
    assert_eq!(parse_user_choice("+3", &list, &cfg), Some(2));
    assert_eq!(parse_user_choice("wooden", &list, &cfg), Some(0));
    assert_eq!(parse_user_choice("OPEN THE WOODEN DOOR NOW", &list, &cfg), Some(0));
    assert_eq!(parse_user_choice("shelves please", &list, &cfg), Some(2));
    assert_eq!(parse_user_choice("q", &list, &cfg), Some(1));
    assert_eq!(parse_user_choice("examine", &list, &cfg), Some(2));
    assert_eq!(parse_user_choice("xyz", &list, &cfg), None);
    assert_eq!(parse_user_choice("4", &list, &cfg), None);
    let strict = GameConfig { allow_text_commands: false, ..GameConfig::default() };
    assert_eq!(parse_user_choice("wooden", &list, &strict), None);
    assert_eq!(parse_user_choice("1", &list, &strict), Some(0));
}

#[test]
fn wraps_words_into_lines() {
    assert_eq!(wrap_text("one two three four", 9), vec![s("one two"), s("three"), s("four")]);
    assert_eq!(wrap_text("  ", 10), vec![s("")]);
    assert_eq!(wrap_text("unbreakable word", 4), vec![s("unbreakable"), s("word")]);
    assert_eq!(wrap_text("a b c", 80), vec![s("a b c")]);
}

#[test]
fn loop_commands_ignore_case() {
    assert_eq!(special_command(" SAVE "), Some(LoopCommand::Save));
    assert_eq!(special_command("Load"), Some(LoopCommand::Load));
    assert_eq!(special_command("exit"), Some(LoopCommand::Quit));
    assert_eq!(special_command("QUIT"), Some(LoopCommand::Quit));
    assert_eq!(special_command("saved"), None);
}

#[test]
fn layout_centres_the_text_column() {
    assert_eq!(content_layout(120), (80, 20));
    assert_eq!(content_layout(50), (42, 4));
    assert_eq!(content_layout(5), (0, 2));
}

#[test]
fn current_room_of_stale_state() {
    let w = key_world();
    assert_eq!(current_room_description(&w, &GameState::new(s("a"))).unwrap(), "");
    assert!(matches!(current_room_description(&w, &GameState::new(s("gone"))), Err(GameError::MissingRoom(r)) if r == "gone"));
}

#[test]
fn save_data_round_trip() {
    let mut st = GameState::new(s("hall"));
    st.flags.push(flag("lamp"));
    st.flags.push(flag("lamp"));
    st.flags.push(flag("key"));
    st.counters.push((s("gold"), 3));
    st.counters.push((s("gold"), 9));
    st.counters.push((s("hp"), -2));
    st.has_quit = true;
    let d = st.to_save_data();
    assert_eq!(d.current_room_id, "hall");
    assert_eq!(d.flags, vec![s("lamp"), s("key")]);
    assert_eq!(d.counters, vec![(s("gold"), 3), (s("hp"), -2)]);
    assert!(d.has_quit);
    let back = GameState::from_save_data(d);
    assert!(check_single_condition(&Condition::CounterEquals(s("gold"), 3), &back));
    assert!(check_single_condition(&Condition::HasAllFlags(vec![flag("lamp"), flag("key")]), &back));
    assert_eq!(back.current_room_id, "hall");
    assert!(back.has_quit);
}

#[test]
fn choice_before_any_room_joins_first_room() {
    let w = parse_markdown_story("@start a\n### Early\n- say: hi\n## @room a\n### Late\n").unwrap();
    assert_eq!(w.rooms[0].1.choices, vec![s("choice_0"), s("choice_1")]);
    assert_eq!(w.choices[0].1.text, "Early");
    assert_eq!(w.choices[1].1.text, "Late");
    assert!(matches!(&w.choices[0].1.actions[0], Action::DisplayText(t) if t == "hi"));
}

#[test]
fn condition_lines_without_text_keep_the_last() {
    let w = parse_markdown_story("@start a\n## @room a\n[x]\n[y]\nlit\n\nstill lit\n").unwrap();
    let d = &w.rooms[0].1.descriptions;
    assert_eq!(d.len(), 1);
    assert!(matches!(&d[0].condition, Some(Condition::HasFlag(f)) if f.0 == "y"));
    assert_eq!(d[0].text, "lit still lit");
}

#[test]
fn flags_in_room_descriptions_are_counted() {
    let mut w = World {
        rooms: vec![(s("start"), room(&[]))],
        choices: vec![],
        starting_room_id: s("start"),
    };
    w.rooms[0].1.descriptions.insert(
        0,
        ConditionalDescription {
            condition: Some(Condition::And(
                Box::new(Condition::HasFlag(flag("lamp"))),
                Box::new(Condition::NotHasFlag(flag("dark"))),
            )),
            text: s("lit"),
        },
    );
    let st = analyze_story(&w).unwrap();
    let mut flags = st.total_flags.clone();
    flags.sort();
    assert_eq!(flags, vec![s("dark"), s("lamp")]);
}

#[test]
fn wrap_text_takes_any_width() {
    assert_eq!(wrap_text("a b c", usize::MAX), vec![s("a b c")]);
    assert_eq!(wrap_text("ab cd", 0), vec![s("ab"), s("cd")]);
}

#[test]
fn loop_command_on_lowered_text() {
    assert_eq!(loop_command(&"load".chars().collect()), Some(LoopCommand::Load));
    assert_eq!(loop_command(&"LOAD".chars().collect()), None);
}

#[test]
fn unique_ids_check() {
    let mut w = key_world();
    assert!(w.has_unique_ids());
    w.rooms.push((s("a"), room(&[])));
    assert!(!w.has_unique_ids());
}
