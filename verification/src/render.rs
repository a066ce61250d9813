//! The renderer: a pure function from the displayed state to the exact
//! sequence of positioned writes that repaints the list on a grid-addressable
//! output surface.

use vstd::prelude::*;
use crate::node_module::{views, ModuleView, NodeModule};

verus! {

/// How a piece of output is styled.
#[derive(Clone, Copy, Debug, PartialEq, Eq, Structural)]
pub enum Style {
    Plain,
    Highlight,
    Underline,
    Dim,
}

/// The mathematical value of one positioned write.
pub enum OpView {
    Goto(u16, u16),
    Put(Style, char),
    Write(Style, Seq<char>),
    HideCursor,
}

/// One instruction to the output surface: move to a (column, row) cell, write
/// one styled glyph, write a styled string, or hide the output cursor.
#[derive(Debug, PartialEq, Eq)]
pub enum RenderOp {
    Goto(u16, u16),
    Put(Style, char),
    Write(Style, String),
    HideCursor,
}

impl View for RenderOp {
    type V = OpView;

    open spec fn view(&self) -> OpView {
        match self {
            RenderOp::Goto(c, r) => OpView::Goto(*c, *r),
            RenderOp::Put(st, g) => OpView::Put(*st, *g),
            RenderOp::Write(st, s) => OpView::Write(*st, s@),
            RenderOp::HideCursor => OpView::HideCursor,
        }
    }
}

/// The views of a sequence of instructions.
pub open spec fn op_views(ops: Seq<RenderOp>) -> Seq<OpView> {
    ops.map_values(|op: RenderOp| op@)
}

/// The filled-circle mark of a selected row.
pub const MARK_SELECTED: char = '\u{25c9}';

/// The empty-circle mark of an unselected row.
pub const MARK_UNSELECTED: char = '\u{25ef}';

/// The writes that paint row `i` (0-indexed) of the list: the selection mark,
/// the kind glyph, the `name@version` label — underlined exactly on the cursor
/// row — and, on the following line, the dimmed source path, indented.
pub open spec fn row_ops(m: ModuleView, i: int, cursor: int, sel: bool) -> Seq<OpView> {
    seq![
        OpView::Goto(1u16, (2 * i + 1) as u16),
        if sel {
            OpView::Put(Style::Highlight, MARK_SELECTED)
        } else {
            OpView::Put(Style::Plain, MARK_UNSELECTED)
        },
        OpView::Put(Style::Plain, ' '),
        OpView::Put(Style::Plain, m.short),
        OpView::Put(Style::Plain, ' '),
        OpView::Write(
            if i + 1 == cursor {
                Style::Underline
            } else {
                Style::Plain
            },
            m.name + "@"@ + m.version,
        ),
        OpView::Goto(3u16, (2 * i + 2) as u16),
        OpView::Write(Style::Dim, m.path),
    ]
}

/// The writes that paint the first `n` rows, in row order.
pub open spec fn rows_ops(ms: Seq<ModuleView>, sel: Seq<bool>, cursor: int, n: int) -> Seq<OpView>
    decreases n,
{
    if n <= 0 {
        Seq::empty()
    } else {
        rows_ops(ms, sel, cursor, n - 1) + row_ops(ms[n - 1], n - 1, cursor, sel[n - 1])
    }
}

/// Every write of one full repaint: all rows, then a move of the output
/// cursor to the bottom-right cell of the surface and a hide, so the cursor
/// leaves the content area.
pub open spec fn render_ops_spec(
    ms: Seq<ModuleView>,
    sel: Seq<bool>,
    cursor: int,
    cols: u16,
    rows: u16,
) -> Seq<OpView> {
    rows_ops(ms, sel, cursor, ms.len() as int) + seq![
        OpView::Goto(cols, rows),
        OpView::HideCursor,
    ]
}

/// Computes the full repaint of the list: a pure function of the displayed
/// state, so every redraw paints the same state the state machine holds.
pub fn render_ops(
    list: &Vec<NodeModule>,
    selected: &Vec<bool>,
    cursor: usize,
    cols: u16,
    rows: u16,
) -> (ops: Vec<RenderOp>)
    requires
        list@.len() == selected@.len(),
        2 * list@.len() + 1 < 65536,
    ensures
        op_views(ops@) == render_ops_spec(views(list@), selected@, cursor as int, cols, rows),
{
    let mut ops: Vec<RenderOp> = Vec::new();
    let mut i: usize = 0;
    proof {
        assert(op_views(ops@) =~= rows_ops(views(list@), selected@, cursor as int, 0));
    }
    while i < list.len()
        invariant
            i <= list@.len(),
            list@.len() == selected@.len(),
            2 * list@.len() + 1 < 65536,
            op_views(ops@) == rows_ops(views(list@), selected@, cursor as int, i as int),
        decreases list@.len() - i,
    {
        let ghost pre = op_views(ops@);
        let node = &list[i];
        ops.push(RenderOp::Goto(1, (2 * i + 1) as u16));
        if selected[i] {
            ops.push(RenderOp::Put(Style::Highlight, MARK_SELECTED));
        } else {
            ops.push(RenderOp::Put(Style::Plain, MARK_UNSELECTED));
        }
        ops.push(RenderOp::Put(Style::Plain, ' '));
        ops.push(RenderOp::Put(Style::Plain, node.module_type.short));
        ops.push(RenderOp::Put(Style::Plain, ' '));
        let label = node.name.clone().concat("@").concat(node.version.as_str());
        let style = if i + 1 == cursor {
            Style::Underline
        } else {
            Style::Plain
        };
        ops.push(RenderOp::Write(style, label));
        ops.push(RenderOp::Goto(3, (2 * i + 2) as u16));
        ops.push(RenderOp::Write(Style::Dim, node.path.clone()));
        proof {
            assert(op_views(ops@) =~= pre + row_ops(
                views(list@)[i as int],
                i as int,
                cursor as int,
                selected@[i as int],
            ));
        }
        i = i + 1;
    }
    ops.push(RenderOp::Goto(cols, rows));
    ops.push(RenderOp::HideCursor);
    proof {
        assert(op_views(ops@) =~= rows_ops(views(list@), selected@, cursor as int, i as int)
            + seq![OpView::Goto(cols, rows), OpView::HideCursor]);
    }
    ops
}

} // verus!
