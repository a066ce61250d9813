use tows::manifest::{collect_dependencies, ManifestDocument};
use tows::node_module::{order_for_display, NodeModule};
use tows::selection::{command_for, selection_output, Command, KeyInput, SelectionState};

fn three_rows() -> SelectionState {
    SelectionState::new(3)
}

#[test]
fn initial_state_has_cursor_one_and_nothing_selected() {
    let s = three_rows();
    assert_eq!(s.cursor, 1);
    assert_eq!(s.selected, vec![false, false, false]);
}

#[test]
fn double_toggle_restores_the_flag() {
    let mut s = three_rows();
    s.apply(Command::MoveDown);
    assert!(!s.apply(Command::ToggleSelect));
    assert_eq!(s.selected, vec![false, true, false]);
    assert!(!s.apply(Command::ToggleSelect));
    assert_eq!(s.selected, vec![false, false, false]);
    assert_eq!(s.cursor, 2);
}

#[test]
fn moves_saturate_at_the_edges() {
    let mut s = three_rows();
    assert_eq!(s.cursor, 1);
    s.apply(Command::MoveUp);
    assert_eq!(s.cursor, 1);
    s.apply(Command::MoveDown);
    s.apply(Command::MoveDown);
    assert_eq!(s.cursor, 3);
    s.apply(Command::MoveDown);
    assert_eq!(s.cursor, 3);
    s.apply(Command::MoveUp);
    assert_eq!(s.cursor, 2);
}

#[test]
fn confirm_and_quit_exit_and_change_nothing() {
    let mut s = three_rows();
    s.apply(Command::ToggleSelect);
    assert!(s.apply(Command::Confirm));
    assert_eq!(s.selected, vec![true, false, false]);
    assert_eq!(s.cursor, 1);
    assert!(s.apply(Command::Quit));
    assert_eq!(s.selected, vec![true, false, false]);
}

#[test]
fn ignored_commands_change_nothing() {
    let mut s = three_rows();
    assert!(!s.apply(Command::Ignore));
    assert_eq!(s.cursor, 1);
    assert_eq!(s.selected, vec![false, false, false]);
}

#[test]
fn keys_map_to_their_commands() {
    assert_eq!(command_for(KeyInput::Char('q')), Command::Quit);
    assert_eq!(command_for(KeyInput::Ctrl('c')), Command::Quit);
    assert_eq!(command_for(KeyInput::Char('k')), Command::MoveUp);
    assert_eq!(command_for(KeyInput::Char('j')), Command::MoveDown);
    assert_eq!(command_for(KeyInput::Char(' ')), Command::ToggleSelect);
    assert_eq!(command_for(KeyInput::Char('\n')), Command::Confirm);
    assert_eq!(command_for(KeyInput::Char('x')), Command::Ignore);
    assert_eq!(command_for(KeyInput::Ctrl('q')), Command::Ignore);
    assert_eq!(command_for(KeyInput::Other), Command::Ignore);
}

fn sample_list() -> Vec<NodeModule> {
    vec![
        NodeModule::new_production("typescript".to_owned(), "^3.8.3".to_owned(), "c".to_owned()),
        NodeModule::new_production("redux".to_owned(), "^4.0.5".to_owned(), "p".to_owned()),
        NodeModule::new_peer("react".to_owned(), "^16.13.0".to_owned(), "p".to_owned()),
    ]
}

#[test]
fn empty_selection_serialises_to_the_empty_string() {
    let list = sample_list();
    let selected = vec![false, false, false];
    assert_eq!(selection_output(&list, &selected), "");
}

#[test]
fn output_joins_tokens_without_edge_separators() {
    let list = sample_list();
    let all = vec![true, true, true];
    let out = selection_output(&list, &all);
    assert_eq!(out, "typescript@^3.8.3 redux@^4.0.5 react@^16.13.0");
    assert!(!out.starts_with(' '));
    assert!(!out.ends_with(' '));

    let one = vec![false, true, false];
    assert_eq!(selection_output(&list, &one), "redux@^4.0.5");
}

#[test]
fn end_to_end_two_level_scenario() {
    // A child manifest declares the runtime dependency typescript@^3.8.3; its
    // parent declares the runtime dependency redux@^4.0.5 and the peer
    // dependency react@^16.13.0.
    let docs = vec![
        ManifestDocument {
            path: "proj/child/package.json".to_owned(),
            text: r#"{"dependencies":{"typescript":"^3.8.3"}}"#.to_owned(),
        },
        ManifestDocument {
            path: "proj/package.json".to_owned(),
            text: r#"{"dependencies":{"redux":"^4.0.5"},"peerDependencies":{"react":"^16.13.0"}}"#
                .to_owned(),
        },
    ];
    let collected = collect_dependencies(&docs).unwrap();
    assert_eq!(collected.len(), 3);

    let ordered = order_for_display(collected);
    let names: Vec<&str> = ordered.iter().map(|m| m.name.as_str()).collect();
    assert_eq!(names, vec!["typescript", "redux", "react"]);
    assert_eq!(ordered[0].path, "proj/child/package.json");
    assert_eq!(ordered[1].path, "proj/package.json");
    assert_eq!(ordered[2].path, "proj/package.json");
    assert_eq!(ordered[0].module_type.short, 'S');
    assert_eq!(ordered[2].module_type.short, 'P');

    // Select typescript and react; confirm. The display order is preserved
    // among the selected tokens.
    let mut state = SelectionState::new(3);
    state.apply(Command::ToggleSelect);
    state.apply(Command::MoveDown);
    state.apply(Command::MoveDown);
    state.apply(Command::ToggleSelect);
    assert!(state.apply(Command::Confirm));
    let out = selection_output(&ordered, &state.selected);
    assert_eq!(out, "typescript@^3.8.3 react@^16.13.0");
}

#[test]
fn collection_of_empty_chain_never_reaches_the_loop() {
    // With no manifest anywhere above the start directory the collection is
    // empty; the caller reports the warning and exits before any interaction.
    let collected = collect_dependencies(&Vec::new()).unwrap();
    assert_eq!(collected.len(), 0);
    let ordered = order_for_display(collected);
    assert!(ordered.is_empty());
}
