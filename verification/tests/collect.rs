use tows::manifest::{collect_dependencies, ManifestDocument, ParseError};
use tows::node_module::{order_for_display, NodeModule, NodeModuleType, NodeModuleTypes};

fn doc(path: &str, text: &str) -> ManifestDocument {
    ManifestDocument { path: path.to_owned(), text: text.to_owned() }
}

fn find<'a>(list: &'a [NodeModule], name: &str) -> Option<&'a NodeModule> {
    list.iter().find(|m| m.name == name)
}

fn expected(kind: NodeModuleTypes, name: &str, version: &str, path: &str) -> NodeModule {
    NodeModule {
        module_type: NodeModuleType::from(kind),
        name: name.to_owned(),
        version: version.to_owned(),
        path: path.to_owned(),
        selected: false,
    }
}

const CHILD_PATH: &str = "reproduce/parent-node-project/child-node-project/package.json";
const PARENT_PATH: &str = "reproduce/parent-node-project/package.json";

fn child_text() -> &'static str {
    r#"{
        "name": "child-node-project",
        "dependencies": { "typescript": "^3.8.3" },
        "devDependencies": { "eslint": "^6.8.0" },
        "peerDependencies": { "next": "^9.3.0" }
    }"#
}

fn parent_text() -> &'static str {
    r#"{
        "name": "parent-node-project",
        "dependencies": { "redux": "^4.0.5" },
        "peerDependencies": { "react": "^16.13.0", "react-dom": "^16.13.0" }
    }"#
}

#[test]
fn collect_dependencies_returns_correct_map() {
    let docs = vec![doc(CHILD_PATH, child_text()), doc(PARENT_PATH, parent_text())];
    let result = collect_dependencies(&docs).unwrap();

    assert_eq!(
        find(&result, "typescript"),
        Some(&expected(NodeModuleTypes::Production, "typescript", "^3.8.3", CHILD_PATH))
    );
    assert_eq!(
        find(&result, "redux"),
        Some(&expected(NodeModuleTypes::Production, "redux", "^4.0.5", PARENT_PATH))
    );
    assert_eq!(
        find(&result, "eslint"),
        Some(&expected(NodeModuleTypes::Development, "eslint", "^6.8.0", CHILD_PATH))
    );
    assert_eq!(
        find(&result, "react"),
        Some(&expected(NodeModuleTypes::Peer, "react", "^16.13.0", PARENT_PATH))
    );
    assert_eq!(
        find(&result, "react-dom"),
        Some(&expected(NodeModuleTypes::Peer, "react-dom", "^16.13.0", PARENT_PATH))
    );
    assert_eq!(
        find(&result, "next"),
        Some(&expected(NodeModuleTypes::Peer, "next", "^9.3.0", CHILD_PATH))
    );
    assert_eq!(result.len(), 6);
}

#[test]
fn single_declaration_is_collected_once() {
    let docs = vec![doc("a/package.json", r#"{"dependencies":{"lodash":"^4.17.15"}}"#)];
    let result = collect_dependencies(&docs).unwrap();
    assert_eq!(result.len(), 1);
    assert_eq!(
        result[0],
        expected(NodeModuleTypes::Production, "lodash", "^4.17.15", "a/package.json")
    );
}

#[test]
fn nearer_manifest_wins_even_across_kinds() {
    // The child declares `react` as a development dependency; the parent
    // declares it as a runtime dependency with another version. The nearer
    // declaration wins entirely.
    let docs = vec![
        doc("p/c/package.json", r#"{"devDependencies":{"react":"^16.13.0"}}"#),
        doc("p/package.json", r#"{"dependencies":{"react":"^15.0.0"}}"#),
    ];
    let result = collect_dependencies(&docs).unwrap();
    assert_eq!(result.len(), 1);
    assert_eq!(
        result[0],
        expected(NodeModuleTypes::Development, "react", "^16.13.0", "p/c/package.json")
    );
}

#[test]
fn earlier_section_wins_within_one_manifest() {
    let docs = vec![doc(
        "x/package.json",
        r#"{"dependencies":{"react":"^16.13.0"},"peerDependencies":{"react":"^15.0.0"}}"#,
    )];
    let result = collect_dependencies(&docs).unwrap();
    assert_eq!(result.len(), 1);
    assert_eq!(
        result[0],
        expected(NodeModuleTypes::Production, "react", "^16.13.0", "x/package.json")
    );
}

#[test]
fn empty_chain_collects_nothing() {
    let result = collect_dependencies(&Vec::new()).unwrap();
    assert!(result.is_empty());
}

#[test]
fn manifest_without_sections_contributes_nothing() {
    let docs = vec![doc("y/package.json", r#"{"name":"y","version":"1.0.0"}"#)];
    let result = collect_dependencies(&docs).unwrap();
    assert!(result.is_empty());
}

#[test]
fn malformed_json_fails_with_its_path() {
    let docs = vec![
        doc("ok/package.json", r#"{"dependencies":{"a":"1"}}"#),
        doc("bad/package.json", "not json at all"),
    ];
    let result = collect_dependencies(&docs);
    assert_eq!(result, Err(ParseError { path: "bad/package.json".to_owned() }));
}

#[test]
fn non_object_section_fails_the_parse() {
    let docs = vec![doc("z/package.json", r#"{"dependencies": ["react"]}"#)];
    assert_eq!(
        collect_dependencies(&docs),
        Err(ParseError { path: "z/package.json".to_owned() })
    );
}

#[test]
fn non_string_version_fails_the_parse() {
    let docs = vec![doc("w/package.json", r#"{"devDependencies":{"react": 16}}"#)];
    assert_eq!(
        collect_dependencies(&docs),
        Err(ParseError { path: "w/package.json".to_owned() })
    );
}

#[test]
fn display_order_groups_kinds_and_descends_names() {
    let docs = vec![doc(
        "o/package.json",
        r#"{
            "dependencies": { "alpha": "1", "zeta": "2" },
            "devDependencies": { "beta": "3" },
            "peerDependencies": { "gamma": "4", "delta": "5" }
        }"#,
    )];
    let collected = collect_dependencies(&docs).unwrap();
    let ordered = order_for_display(collected);
    let names: Vec<&str> = ordered.iter().map(|m| m.name.as_str()).collect();
    assert_eq!(names, vec!["zeta", "alpha", "beta", "gamma", "delta"]);
    let glyphs: Vec<char> = ordered.iter().map(|m| m.module_type.short).collect();
    assert_eq!(glyphs, vec!['S', 'S', 'D', 'P', 'P']);
}

#[test]
fn kind_values_carry_name_and_glyph() {
    let prod = NodeModuleType::from(NodeModuleTypes::Production);
    assert_eq!(prod.name, "production");
    assert_eq!(prod.short, 'S');
    let dev = NodeModuleType::from(NodeModuleTypes::Development);
    assert_eq!(dev.name, "development");
    assert_eq!(dev.short, 'D');
    let peer = NodeModuleType::from(NodeModuleTypes::Peer);
    assert_eq!(peer.name, "peer");
    assert_eq!(peer.short, 'P');
}

#[test]
fn constructors_tag_kind_and_leave_unselected() {
    let m = NodeModule::new_production("a".to_owned(), "1".to_owned(), "p".to_owned());
    assert_eq!(m.module_type.short, 'S');
    assert!(!m.selected);
    let m = NodeModule::new_development("a".to_owned(), "1".to_owned(), "p".to_owned());
    assert_eq!(m.module_type.short, 'D');
    assert!(!m.selected);
    let m = NodeModule::new_peer("a".to_owned(), "1".to_owned(), "p".to_owned());
    assert_eq!(m.module_type.short, 'P');
    assert!(!m.selected);
}
