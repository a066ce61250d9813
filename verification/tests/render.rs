use tows::node_module::NodeModule;
use tows::render::{render_ops, RenderOp, Style, MARK_SELECTED, MARK_UNSELECTED};

fn two_rows() -> Vec<NodeModule> {
    vec![
        NodeModule::new_production("react".to_owned(), "^16.13.0".to_owned(), "a/package.json".to_owned()),
        NodeModule::new_development("eslint".to_owned(), "^6.8.0".to_owned(), "b/package.json".to_owned()),
    ]
}

#[test]
fn repaint_writes_every_row_then_parks_and_hides_the_cursor() {
    let list = two_rows();
    let selected = vec![true, false];
    let ops = render_ops(&list, &selected, 2, 80, 24);
    let expected = vec![
        RenderOp::Goto(1, 1),
        RenderOp::Put(Style::Highlight, MARK_SELECTED),
        RenderOp::Put(Style::Plain, ' '),
        RenderOp::Put(Style::Plain, 'S'),
        RenderOp::Put(Style::Plain, ' '),
        RenderOp::Write(Style::Plain, "react@^16.13.0".to_owned()),
        RenderOp::Goto(3, 2),
        RenderOp::Write(Style::Dim, "a/package.json".to_owned()),
        RenderOp::Goto(1, 3),
        RenderOp::Put(Style::Plain, MARK_UNSELECTED),
        RenderOp::Put(Style::Plain, ' '),
        RenderOp::Put(Style::Plain, 'D'),
        RenderOp::Put(Style::Plain, ' '),
        RenderOp::Write(Style::Underline, "eslint@^6.8.0".to_owned()),
        RenderOp::Goto(3, 4),
        RenderOp::Write(Style::Dim, "b/package.json".to_owned()),
        RenderOp::Goto(80, 24),
        RenderOp::HideCursor,
    ];
    assert_eq!(ops, expected);
}

#[test]
fn only_the_cursor_row_is_underlined() {
    let list = two_rows();
    let selected = vec![false, false];
    let ops = render_ops(&list, &selected, 1, 100, 40);
    assert_eq!(ops[5], RenderOp::Write(Style::Underline, "react@^16.13.0".to_owned()));
    assert_eq!(ops[13], RenderOp::Write(Style::Plain, "eslint@^6.8.0".to_owned()));
}

#[test]
fn empty_list_still_parks_and_hides_the_cursor() {
    let ops = render_ops(&Vec::new(), &Vec::new(), 1, 10, 5);
    assert_eq!(ops, vec![RenderOp::Goto(10, 5), RenderOp::HideCursor]);
}
