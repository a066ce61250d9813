//! The interactive browse-and-select state machine and the serialisation of
//! the final selection.

use vstd::prelude::*;
use crate::node_module::{views, ModuleView, NodeModule};

verus! {

/// One key press, as the event source decodes it: a plain character, a
/// control-modified character, or anything else.
#[derive(Clone, Copy, Debug)]
pub enum KeyInput {
    Char(char),
    Ctrl(char),
    Other,
}

/// One discrete command of the interactive loop.
#[derive(Clone, Copy, Debug, PartialEq, Eq, Structural)]
pub enum Command {
    MoveUp,
    MoveDown,
    ToggleSelect,
    Confirm,
    Quit,
    Ignore,
}

/// Which command a key press triggers: `k`/`j` move, space toggles, enter
/// confirms, `q` or control-c quits, and every other key is ignored.
pub open spec fn command_of(key: KeyInput) -> Command {
    match key {
        KeyInput::Char(c) => if c == 'q' {
            Command::Quit
        } else if c == 'k' {
            Command::MoveUp
        } else if c == 'j' {
            Command::MoveDown
        } else if c == ' ' {
            Command::ToggleSelect
        } else if c == '\n' {
            Command::Confirm
        } else {
            Command::Ignore
        },
        KeyInput::Ctrl(c) => if c == 'c' {
            Command::Quit
        } else {
            Command::Ignore
        },
        KeyInput::Other => Command::Ignore,
    }
}

/// Decodes one key press into its command.
pub fn command_for(key: KeyInput) -> (c: Command)
    ensures
        c == command_of(key),
{
    match key {
        KeyInput::Char(ch) => {
            if ch == 'q' {
                Command::Quit
            } else if ch == 'k' {
                Command::MoveUp
            } else if ch == 'j' {
                Command::MoveDown
            } else if ch == ' ' {
                Command::ToggleSelect
            } else if ch == '\n' {
                Command::Confirm
            } else {
                Command::Ignore
            }
        },
        KeyInput::Ctrl(ch) => {
            if ch == 'c' {
                Command::Quit
            } else {
                Command::Ignore
            }
        },
        KeyInput::Other => Command::Ignore,
    }
}

/// The mathematical value of the interactive state: the 1-indexed cursor row
/// and each row's selection flag.
pub struct StateView {
    pub cursor: int,
    pub selected: Seq<bool>,
}

/// Cursor and per-row selection flags over a list of N displayed rows.
#[derive(Debug)]
pub struct SelectionState {
    pub cursor: usize,
    pub selected: Vec<bool>,
}

impl View for SelectionState {
    type V = StateView;

    open spec fn view(&self) -> StateView {
        StateView { cursor: self.cursor as int, selected: self.selected@ }
    }
}

/// The cursor always denotes a displayed row.
pub open spec fn state_wf(s: StateView) -> bool {
    1 <= s.cursor <= s.selected.len()
}

/// One transition of the selection state machine: moves saturate at the first
/// and last row, a toggle flips the cursor row's flag only, and every other
/// command leaves the state untouched.
pub open spec fn step(s: StateView, c: Command) -> StateView {
    match c {
        Command::MoveUp => StateView {
            cursor: if s.cursor > 1 {
                s.cursor - 1
            } else {
                s.cursor
            },
            selected: s.selected,
        },
        Command::MoveDown => StateView {
            cursor: if s.cursor < s.selected.len() {
                s.cursor + 1
            } else {
                s.cursor
            },
            selected: s.selected,
        },
        Command::ToggleSelect => StateView {
            cursor: s.cursor,
            selected: s.selected.update(s.cursor - 1, !s.selected[s.cursor - 1]),
        },
        Command::Confirm => s,
        Command::Quit => s,
        Command::Ignore => s,
    }
}

/// Whether a command ends the interactive loop. Confirming and quitting both
/// merely stop the loop, keeping whatever flags are set.
pub open spec fn exits(c: Command) -> bool {
    c == Command::Confirm || c == Command::Quit
}

impl SelectionState {
    /// The initial state over `n` rows: cursor on the first row, nothing
    /// selected.
    pub fn new(n: usize) -> (r: Self)
        requires
            n > 0,
        ensures
            state_wf(r@),
            r@.cursor == 1,
            r@.selected.len() == n,
            forall|i: int| 0 <= i < n ==> !(#[trigger] r@.selected[i]),
    {
        let mut selected: Vec<bool> = Vec::new();
        let mut i: usize = 0;
        while i < n
            invariant
                i <= n,
                selected@.len() == i,
                forall|t: int| 0 <= t < i ==> !(#[trigger] selected@[t]),
            decreases n - i,
        {
            selected.push(false);
            i = i + 1;
        }
        SelectionState { cursor: 1, selected }
    }

    /// Applies one command; returns whether the loop is over.
    pub fn apply(&mut self, c: Command) -> (exit: bool)
        requires
            state_wf(old(self)@),
        ensures
            state_wf(final(self)@),
            final(self)@ == step(old(self)@, c),
            exit == exits(c),
    {
        match c {
            Command::MoveUp => {
                if self.cursor > 1 {
                    self.cursor = self.cursor - 1;
                }
                false
            },
            Command::MoveDown => {
                if self.cursor < self.selected.len() {
                    self.cursor = self.cursor + 1;
                }
                false
            },
            Command::ToggleSelect => {
                let row = self.cursor - 1;
                let flag = self.selected[row];
                self.selected.set(row, !flag);
                false
            },
            Command::Confirm => true,
            Command::Quit => true,
            Command::Ignore => false,
        }
    }
}

/// No command moves the cursor off the displayed rows.
pub proof fn lemma_step_keeps_cursor_in_range(s: StateView, c: Command)
    requires
        state_wf(s),
    ensures
        state_wf(step(s, c)),
        1 <= step(s, c).cursor <= s.selected.len(),
{
}

/// Moving up on the first row and moving down on the last row change nothing.
pub proof fn lemma_moves_saturate(s: StateView)
    requires
        state_wf(s),
    ensures
        s.cursor == 1 ==> step(s, Command::MoveUp) == s,
        s.cursor == s.selected.len() ==> step(s, Command::MoveDown) == s,
{
}

/// Toggling the same row twice restores the selection flags exactly.
pub proof fn lemma_double_toggle_restores(s: StateView)
    requires
        state_wf(s),
    ensures
        step(step(s, Command::ToggleSelect), Command::ToggleSelect) == s,
{
    let s2 = step(step(s, Command::ToggleSelect), Command::ToggleSelect);
    assert(s2.selected =~= s.selected);
}

/// The `name@version` token of one entity.
pub open spec fn token_of(m: ModuleView) -> Seq<char> {
    m.name + "@"@ + m.version
}

/// The tokens of the selected rows, in display order.
pub open spec fn selected_tokens(ms: Seq<ModuleView>, sel: Seq<bool>) -> Seq<Seq<char>>
    decreases ms.len(),
{
    if ms.len() == 0 || sel.len() == 0 {
        Seq::empty()
    } else {
        let rest = selected_tokens(ms.skip(1), sel.skip(1));
        if sel[0] {
            seq![token_of(ms[0])] + rest
        } else {
            rest
        }
    }
}

/// Tokens joined by one space between neighbours: no leading or trailing
/// separator, and the empty token list yields the empty string.
pub open spec fn join_tokens(ts: Seq<Seq<char>>) -> Seq<char>
    decreases ts.len(),
{
    if ts.len() == 0 {
        Seq::empty()
    } else if ts.len() == 1 {
        ts[0]
    } else {
        ts[0] + " "@ + join_tokens(ts.skip(1))
    }
}

/// Joining one more token appends a space and the token, unless it is the
/// first.
proof fn lemma_join_tokens_push(ts: Seq<Seq<char>>, t: Seq<char>)
    ensures
        ts.len() == 0 ==> join_tokens(ts.push(t)) == t,
        ts.len() > 0 ==> join_tokens(ts.push(t)) == join_tokens(ts) + " "@ + t,
    decreases ts.len(),
{
    if ts.len() == 0 {
        assert(ts.push(t)[0] == t);
    } else {
        assert(ts.push(t)[0] == ts[0]);
        assert(ts.push(t).skip(1) =~= ts.skip(1).push(t));
        lemma_join_tokens_push(ts.skip(1), t);
        if ts.len() == 1 {
            assert(ts.skip(1).len() == 0);
        } else {
            assert(ts[0] + " "@ + (join_tokens(ts.skip(1)) + " "@ + t) =~= (ts[0] + " "@
                + join_tokens(ts.skip(1))) + " "@ + t);
        }
    }
}

/// Appending one row appends its token exactly when the row is selected.
proof fn lemma_selected_tokens_push(ms: Seq<ModuleView>, sel: Seq<bool>, m: ModuleView, b: bool)
    requires
        ms.len() == sel.len(),
    ensures
        selected_tokens(ms.push(m), sel.push(b)) == if b {
            selected_tokens(ms, sel).push(token_of(m))
        } else {
            selected_tokens(ms, sel)
        },
    decreases ms.len(),
{
    if ms.len() == 0 {
        assert(ms.push(m)[0] == m);
        assert(ms.push(m).skip(1) =~= ms);
        assert(sel.push(b).skip(1) =~= sel);
        assert(selected_tokens(ms, sel) =~= Seq::<Seq<char>>::empty());
        if b {
            assert(seq![token_of(m)] + selected_tokens(ms, sel) =~= selected_tokens(
                ms,
                sel,
            ).push(token_of(m)));
        }
    } else {
        assert(ms.push(m)[0] == ms[0]);
        assert(sel.push(b)[0] == sel[0]);
        assert(ms.push(m).skip(1) =~= ms.skip(1).push(m));
        assert(sel.push(b).skip(1) =~= sel.skip(1).push(b));
        lemma_selected_tokens_push(ms.skip(1), sel.skip(1), m, b);
        if b && sel[0] {
            assert(seq![token_of(ms[0])] + selected_tokens(ms.skip(1), sel.skip(1)).push(
                token_of(m),
            ) =~= (seq![token_of(ms[0])] + selected_tokens(ms.skip(1), sel.skip(1))).push(
                token_of(m),
            ));
        }
    }
}

/// Serialises the final selection: the `name@version` tokens of the selected
/// rows, in display order, joined by single spaces. An empty selection yields
/// the empty string.
pub fn selection_output(list: &Vec<NodeModule>, selected: &Vec<bool>) -> (r: String)
    requires
        list@.len() == selected@.len(),
    ensures
        r@ == join_tokens(selected_tokens(views(list@), selected@)),
{
    let mut out = String::new();
    let mut any = false;
    let mut i: usize = 0;
    proof {
        assert(views(list@).take(0) =~= Seq::<ModuleView>::empty());
        assert(selected@.take(0) =~= Seq::<bool>::empty());
    }
    while i < list.len()
        invariant
            i <= list@.len(),
            list@.len() == selected@.len(),
            out@ == join_tokens(
                selected_tokens(views(list@).take(i as int), selected@.take(i as int)),
            ),
            any == (selected_tokens(views(list@).take(i as int), selected@.take(i as int)).len()
                > 0),
        decreases list@.len() - i,
    {
        let ghost pms = views(list@).take(i as int);
        let ghost psel = selected@.take(i as int);
        if selected[i] {
            if any {
                out.append(" ");
            }
            out.append(list[i].name.as_str());
            out.append("@");
            out.append(list[i].version.as_str());
            proof {
                lemma_selected_tokens_push(pms, psel, views(list@)[i as int], true);
                lemma_join_tokens_push(selected_tokens(pms, psel), token_of(views(list@)[i as int]));
            }
            any = true;
        } else {
            proof {
                lemma_selected_tokens_push(pms, psel, views(list@)[i as int], false);
            }
        }
        proof {
            assert(views(list@).take(i as int + 1) =~= pms.push(views(list@)[i as int]));
            assert(selected@.take(i as int + 1) =~= psel.push(selected@[i as int]));
        }
        i = i + 1;
    }
    proof {
        assert(views(list@).take(list@.len() as int) =~= views(list@));
        assert(selected@.take(selected@.len() as int) =~= selected@);
    }
    out
}

/// An all-unselected state serialises to the empty string.
pub proof fn lemma_output_empty_when_nothing_selected(ms: Seq<ModuleView>, sel: Seq<bool>)
    requires
        ms.len() == sel.len(),
        forall|i: int| 0 <= i < sel.len() ==> !(#[trigger] sel[i]),
    ensures
        selected_tokens(ms, sel).len() == 0,
        join_tokens(selected_tokens(ms, sel)) == Seq::<char>::empty(),
    decreases ms.len(),
{
    if ms.len() > 0 {
        assert(!sel[0]);
        assert forall|i: int| 0 <= i < sel.skip(1).len() implies !(#[trigger] sel.skip(1)[i]) by {
            assert(sel.skip(1)[i] == sel[i + 1]);
        }
        lemma_output_empty_when_nothing_selected(ms.skip(1), sel.skip(1));
    }
}

/// Every selected token is the token of some selected row.
proof fn lemma_selected_tokens_member(ms: Seq<ModuleView>, sel: Seq<bool>, k: int)
    requires
        ms.len() == sel.len(),
        0 <= k < selected_tokens(ms, sel).len(),
    ensures
        exists|i: int|
            0 <= i < ms.len() && sel[i] && selected_tokens(ms, sel)[k] == token_of(ms[i]),
    decreases ms.len(),
{
    let ts = selected_tokens(ms, sel);
    let rest = selected_tokens(ms.skip(1), sel.skip(1));
    if sel[0] && k == 0 {
        assert(ts[0] == token_of(ms[0]));
        assert(0 <= 0 < ms.len() && sel[0] && ts[0] == token_of(ms[0]));
    } else {
        let kr: int = if sel[0] {
            k - 1
        } else {
            k
        };
        assert(ts[k] == rest[kr]);
        lemma_selected_tokens_member(ms.skip(1), sel.skip(1), kr);
        let i = choose|i: int| 0 <= i < ms.skip(1).len() && sel.skip(1)[i] && rest[kr] == token_of(
            ms.skip(1)[i],
        );
        assert(ms.skip(1)[i] == ms[i + 1]);
        assert(sel.skip(1)[i] == sel[i + 1]);
        assert(0 <= i + 1 < ms.len() && sel[i + 1] && ts[k] == token_of(ms[i + 1]));
    }
}

/// A non-empty serialised selection neither begins nor ends with the
/// separator, provided no selected entity's name begins with a space and no
/// selected entity's version ends with one.
pub proof fn lemma_output_has_no_edge_separator(ms: Seq<ModuleView>, sel: Seq<bool>)
    requires
        ms.len() == sel.len(),
        forall|i: int|
            0 <= i < ms.len() && sel[i] ==> ((#[trigger] ms[i]).name.len() > 0 ==> ms[i].name[0]
                != ' '),
        forall|i: int|
            0 <= i < ms.len() && sel[i] ==> ((#[trigger] ms[i]).version.len() > 0
                ==> ms[i].version.last() != ' '),
    ensures
        join_tokens(selected_tokens(ms, sel)).len() > 0 ==> join_tokens(
            selected_tokens(ms, sel),
        )[0] != ' ',
        join_tokens(selected_tokens(ms, sel)).len() > 0 ==> join_tokens(
            selected_tokens(ms, sel),
        ).last() != ' ',
{
    let ts = selected_tokens(ms, sel);
    reveal_strlit("@");
    assert forall|k: int| 0 <= k < ts.len() implies (#[trigger] ts[k]).len() > 0 && ts[k][0] != ' '
        && ts[k].last() != ' ' by {
        lemma_selected_tokens_member(ms, sel, k);
        let i = choose|i: int| 0 <= i < ms.len() && sel[i] && ts[k] == token_of(ms[i]);
        let m = ms[i];
        assert(token_of(m).len() == m.name.len() + 1 + m.version.len());
        if m.name.len() > 0 {
            assert(token_of(m)[0] == m.name[0]);
        } else {
            assert(token_of(m)[0] == '@');
        }
        if m.version.len() > 0 {
            assert(token_of(m).last() == m.version.last());
        } else {
            assert(token_of(m).last() == '@');
        }
    }
    lemma_join_has_no_edge_separator(ts);
}

/// A non-empty join of non-empty tokens, none of which begins or ends with a
/// space, neither begins nor ends with the separator.
proof fn lemma_join_has_no_edge_separator(ts: Seq<Seq<char>>)
    requires
        forall|i: int| 0 <= i < ts.len() ==> (#[trigger] ts[i]).len() > 0,
        forall|i: int| 0 <= i < ts.len() ==> (#[trigger] ts[i])[0] != ' ',
        forall|i: int| 0 <= i < ts.len() ==> (#[trigger] ts[i]).last() != ' ',
    ensures
        ts.len() > 0 ==> join_tokens(ts).len() > 0,
        ts.len() > 0 ==> join_tokens(ts)[0] != ' ',
        ts.len() > 0 ==> join_tokens(ts).last() != ' ',
    decreases ts.len(),
{
    if ts.len() > 1 {
        assert forall|i: int| 0 <= i < ts.skip(1).len() implies (#[trigger] ts.skip(1)[i]).len() > 0
            && ts.skip(1)[i][0] != ' ' && ts.skip(1)[i].last() != ' ' by {
            assert(ts.skip(1)[i] == ts[i + 1]);
        }
        lemma_join_has_no_edge_separator(ts.skip(1));
        assert(join_tokens(ts) == ts[0] + " "@ + join_tokens(ts.skip(1)));
        assert(join_tokens(ts)[0] == ts[0][0]);
        assert(join_tokens(ts).last() == join_tokens(ts.skip(1)).last());
    }
}

} // verus!
