//! In-memory editable grid for delimited data, with undo/redo. Every mutating
//! operation records a command that can perfectly invert it; the undo and redo
//! stacks are kept consistent with the grid state, so undo always restores the
//! exact prior state and redo the exact following one.
use crate::editor::{clone_string_vec, views_of, EditCommand, EditCommandView};
use vstd::prelude::*;

verus! {

/// Mathematical state of a grid: header texts and row-major cell texts.
pub struct GridView {
    pub headers: Seq<Seq<char>>,
    pub rows: Seq<Seq<Seq<char>>>,
}

/// Every row has exactly one field per header.
pub open spec fn grid_wf(g: GridView) -> bool {
    forall|i: int| 0 <= i < g.rows.len() ==> (#[trigger] g.rows[i]).len() == g.headers.len()
}

/// The state after a command is applied (the forward, or redo, direction).
/// Out-of-range positions leave the state unchanged.
pub open spec fn apply_view(g: GridView, c: EditCommandView) -> GridView {
    match c {
        EditCommandView::SetCell { row, col, old_value: _, new_value } => {
            if row < g.rows.len() && col < g.rows[row as int].len() {
                GridView {
                    headers: g.headers,
                    rows: g.rows.update(
                        row as int,
                        g.rows[row as int].update(col as int, new_value),
                    ),
                }
            } else {
                g
            }
        },
        EditCommandView::SetHeader { col, old_value: _, new_value } => {
            if col < g.headers.len() {
                GridView { headers: g.headers.update(col as int, new_value), rows: g.rows }
            } else {
                g
            }
        },
        EditCommandView::InsertRow { at, data } => {
            if at <= g.rows.len() {
                GridView { headers: g.headers, rows: g.rows.insert(at as int, data) }
            } else {
                g
            }
        },
        EditCommandView::DeleteRow { at, data: _ } => {
            if at < g.rows.len() {
                GridView { headers: g.headers, rows: g.rows.remove(at as int) }
            } else {
                g
            }
        },
        EditCommandView::InsertColumn { at, header } => {
            if at <= g.headers.len() {
                GridView {
                    headers: g.headers.insert(at as int, header),
                    rows: Seq::new(
                        g.rows.len(),
                        |i: int|
                            if at <= g.rows[i].len() {
                                g.rows[i].insert(at as int, Seq::<char>::empty())
                            } else {
                                g.rows[i]
                            },
                    ),
                }
            } else {
                g
            }
        },
        EditCommandView::DeleteColumn { at, header: _, data: _ } => {
            if at < g.headers.len() {
                GridView {
                    headers: g.headers.remove(at as int),
                    rows: Seq::new(
                        g.rows.len(),
                        |i: int|
                            if at < g.rows[i].len() {
                                g.rows[i].remove(at as int)
                            } else {
                                g.rows[i]
                            },
                    ),
                }
            } else {
                g
            }
        },
    }
}

/// The state after a command is reverted (the undo direction).
pub open spec fn revert_view(g: GridView, c: EditCommandView) -> GridView {
    match c {
        EditCommandView::SetCell { row, col, old_value, new_value: _ } => {
            if row < g.rows.len() && col < g.rows[row as int].len() {
                GridView {
                    headers: g.headers,
                    rows: g.rows.update(
                        row as int,
                        g.rows[row as int].update(col as int, old_value),
                    ),
                }
            } else {
                g
            }
        },
        EditCommandView::SetHeader { col, old_value, new_value: _ } => {
            if col < g.headers.len() {
                GridView { headers: g.headers.update(col as int, old_value), rows: g.rows }
            } else {
                g
            }
        },
        EditCommandView::InsertRow { at, data: _ } => {
            if at < g.rows.len() {
                GridView { headers: g.headers, rows: g.rows.remove(at as int) }
            } else {
                g
            }
        },
        EditCommandView::DeleteRow { at, data } => {
            if at <= g.rows.len() {
                GridView { headers: g.headers, rows: g.rows.insert(at as int, data) }
            } else {
                g
            }
        },
        EditCommandView::InsertColumn { at, header: _ } => {
            if at < g.headers.len() {
                GridView {
                    headers: g.headers.remove(at as int),
                    rows: Seq::new(
                        g.rows.len(),
                        |i: int|
                            if at < g.rows[i].len() {
                                g.rows[i].remove(at as int)
                            } else {
                                g.rows[i]
                            },
                    ),
                }
            } else {
                g
            }
        },
        EditCommandView::DeleteColumn { at, header, data } => {
            if at <= g.headers.len() {
                GridView {
                    headers: g.headers.insert(at as int, header),
                    rows: Seq::new(
                        g.rows.len(),
                        |i: int|
                            if at <= g.rows[i].len() {
                                g.rows[i].insert(
                                    at as int,
                                    if 0 <= i < data.len() {
                                        data[i]
                                    } else {
                                        Seq::<char>::empty()
                                    },
                                )
                            } else {
                                g.rows[i]
                            },
                    ),
                }
            } else {
                g
            }
        },
    }
}

/// `c` is a faithful record of an edit made on state `g`: applying it does
/// what the operation did, and what it stores is what `g` holds.
pub open spec fn records_edit(g: GridView, c: EditCommandView) -> bool {
    match c {
        EditCommandView::SetCell { row, col, old_value, new_value: _ } => row < g.rows.len()
            && col < g.rows[row as int].len() && g.rows[row as int][col as int] == old_value,
        EditCommandView::SetHeader { col, old_value, new_value: _ } => col < g.headers.len()
            && g.headers[col as int] == old_value,
        EditCommandView::InsertRow { at, data } => at <= g.rows.len() && data.len()
            == g.headers.len(),
        EditCommandView::DeleteRow { at, data } => at < g.rows.len() && g.rows[at as int] == data,
        EditCommandView::InsertColumn { at, header: _ } => at <= g.headers.len(),
        EditCommandView::DeleteColumn { at, header, data } => at < g.headers.len()
            && g.headers[at as int] == header && data.len() == g.rows.len() && (forall|i: int|
            0 <= i < g.rows.len() ==> #[trigger] data[i] == g.rows[i][at as int]),
    }
}

/// `c` can be undone at state `g`: `g` is exactly the state `c`'s application
/// left behind.
pub open spec fn undoes_edit(g: GridView, c: EditCommandView) -> bool {
    match c {
        EditCommandView::SetCell { row, col, old_value: _, new_value } => row < g.rows.len()
            && col < g.rows[row as int].len() && g.rows[row as int][col as int] == new_value,
        EditCommandView::SetHeader { col, old_value: _, new_value } => col < g.headers.len()
            && g.headers[col as int] == new_value,
        EditCommandView::InsertRow { at, data } => at < g.rows.len() && g.rows[at as int] == data,
        EditCommandView::DeleteRow { at, data } => at <= g.rows.len() && data.len()
            == g.headers.len(),
        EditCommandView::InsertColumn { at, header } => at < g.headers.len() && g.headers[at
            as int] == header && (forall|i: int|
            0 <= i < g.rows.len() ==> #[trigger] g.rows[i][at as int] == Seq::<char>::empty()),
        EditCommandView::DeleteColumn { at, header: _, data } => at <= g.headers.len()
            && data.len() == g.rows.len(),
    }
}

/// Applying a faithfully recorded command can be perfectly undone: undo
/// restores the state from immediately before the command.
pub proof fn lemma_apply_then_revert(g: GridView, c: EditCommandView)
    requires
        grid_wf(g),
        records_edit(g, c),
    ensures
        grid_wf(apply_view(g, c)),
        undoes_edit(apply_view(g, c), c),
        revert_view(apply_view(g, c), c) == g,
{
    let a = apply_view(g, c);
    let r = revert_view(a, c);
    match c {
        EditCommandView::SetCell { row, col, old_value, new_value } => {
            assert(r.rows =~~= g.rows);
            assert(r == g);
        },
        EditCommandView::SetHeader { col, old_value, new_value } => {
            assert(r.headers =~~= g.headers);
            assert(r == g);
        },
        EditCommandView::InsertRow { at, data } => {
            assert(r.rows =~~= g.rows);
            assert(r == g);
        },
        EditCommandView::DeleteRow { at, data } => {
            assert(r.rows =~~= g.rows);
            assert(r == g);
        },
        EditCommandView::InsertColumn { at, header } => {
            assert(grid_wf(a));
            assert forall|i: int| 0 <= i < a.rows.len() implies #[trigger] a.rows[i][at as int]
                == Seq::<char>::empty() by {
                assert(a.rows[i] == g.rows[i].insert(at as int, Seq::<char>::empty()));
            }
            assert(r.headers =~~= g.headers);
            assert forall|i: int| 0 <= i < r.rows.len() implies #[trigger] r.rows[i] =~=
            g.rows[i] by {
                assert(a.rows[i] == g.rows[i].insert(at as int, Seq::<char>::empty()));
            }
            assert(r.rows =~~= g.rows);
            assert(r == g);
        },
        EditCommandView::DeleteColumn { at, header, data } => {
            assert(grid_wf(a));
            assert(r.headers =~~= g.headers);
            assert forall|i: int| 0 <= i < r.rows.len() implies #[trigger] r.rows[i] =~=
            g.rows[i] by {
                assert(a.rows[i] == g.rows[i].remove(at as int));
                assert(data[i] == g.rows[i][at as int]);
            }
            assert(r.rows =~~= g.rows);
            assert(r == g);
        },
    }
}

/// Reverting an undoable command can be perfectly redone: redo restores the
/// state from immediately after the command.
pub proof fn lemma_revert_then_apply(g: GridView, c: EditCommandView)
    requires
        grid_wf(g),
        undoes_edit(g, c),
    ensures
        grid_wf(revert_view(g, c)),
        records_edit(revert_view(g, c), c),
        apply_view(revert_view(g, c), c) == g,
{
    let r = revert_view(g, c);
    let a = apply_view(r, c);
    match c {
        EditCommandView::SetCell { row, col, old_value, new_value } => {
            assert(a.rows =~~= g.rows);
            assert(a == g);
        },
        EditCommandView::SetHeader { col, old_value, new_value } => {
            assert(a.headers =~~= g.headers);
            assert(a == g);
        },
        EditCommandView::InsertRow { at, data } => {
            assert(a.rows =~~= g.rows);
            assert(a == g);
        },
        EditCommandView::DeleteRow { at, data } => {
            assert(grid_wf(r));
            assert(a.rows =~~= g.rows);
            assert(a == g);
        },
        EditCommandView::InsertColumn { at, header } => {
            assert(grid_wf(r));
            assert(a.headers =~~= g.headers);
            assert forall|i: int| 0 <= i < a.rows.len() implies #[trigger] a.rows[i] =~=
            g.rows[i] by {
                assert(r.rows[i] == g.rows[i].remove(at as int));
                assert(g.rows[i][at as int] == Seq::<char>::empty());
            }
            assert(a.rows =~~= g.rows);
            assert(a == g);
        },
        EditCommandView::DeleteColumn { at, header, data } => {
            assert(grid_wf(r));
            assert forall|i: int| 0 <= i < r.rows.len() implies #[trigger] r.rows[i][at as int]
                == data[i] by {
                assert(r.rows[i] == g.rows[i].insert(at as int, data[i]));
            }
            assert(a.headers =~~= g.headers);
            assert forall|i: int| 0 <= i < a.rows.len() implies #[trigger] a.rows[i] =~=
            g.rows[i] by {
                assert(r.rows[i] == g.rows[i].insert(at as int, data[i]));
            }
            assert(a.rows =~~= g.rows);
            assert(a == g);
        },
    }
}

/// Undoing each stacked command in turn, newest first, is well defined:
/// each one exactly matches the state it meets.
pub open spec fn undo_chain_ok(g: GridView, st: Seq<EditCommandView>) -> bool
    decreases st.len(),
{
    st.len() == 0 || (undoes_edit(g, st.last()) && undo_chain_ok(
        revert_view(g, st.last()),
        st.drop_last(),
    ))
}

/// Redoing each stacked command in turn, newest first, is well defined.
pub open spec fn redo_chain_ok(g: GridView, st: Seq<EditCommandView>) -> bool
    decreases st.len(),
{
    st.len() == 0 || (records_edit(g, st.last()) && redo_chain_ok(
        apply_view(g, st.last()),
        st.drop_last(),
    ))
}

/// Evicting the oldest undo entry keeps the chain consistent.
pub proof fn lemma_undo_chain_drop_oldest(g: GridView, st: Seq<EditCommandView>)
    requires
        undo_chain_ok(g, st),
        st.len() > 0,
    ensures
        undo_chain_ok(g, st.subrange(1, st.len() as int)),
    decreases st.len(),
{
    let t = st.subrange(1, st.len() as int);
    if st.len() > 1 {
        assert(t.last() == st.last());
        assert(t.drop_last() =~= st.drop_last().subrange(1, st.drop_last().len() as int));
        lemma_undo_chain_drop_oldest(revert_view(g, st.last()), st.drop_last());
    }
}

/// Bound on the number of undoable commands; the oldest entry is evicted
/// beyond it.
pub const MAX_HISTORY: usize = 100;

/// A row of `n` empty cells.
pub open spec fn empty_row(n: int) -> Seq<Seq<char>> {
    Seq::new(n as nat, |i: int| Seq::<char>::empty())
}

/// An in-memory editable grid with undo/redo support.
#[derive(Debug)]
pub struct EditableGrid {
    pub headers: Vec<String>,
    pub rows: Vec<Vec<String>>,
    undo_stack: Vec<EditCommand>,
    redo_stack: Vec<EditCommand>,
    modified: bool,
}

impl EditableGrid {
    /// The grid's mathematical state.
    pub closed spec fn state(self) -> GridView {
        GridView { headers: self.headers.deep_view(), rows: self.rows.deep_view() }
    }

    /// Views of the undoable commands, oldest first.
    pub closed spec fn undo_views(self) -> Seq<EditCommandView> {
        views_of(self.undo_stack@)
    }

    /// Views of the redoable commands, oldest first.
    pub closed spec fn redo_views(self) -> Seq<EditCommandView> {
        views_of(self.redo_stack@)
    }

    pub closed spec fn spec_modified(self) -> bool {
        self.modified
    }

    /// Well-formedness: rows are rectangular, both history stacks exactly
    /// match the current state, and history is bounded.
    pub closed spec fn wf(self) -> bool {
        &&& grid_wf(self.state())
        &&& undo_chain_ok(self.state(), self.undo_views())
        &&& redo_chain_ok(self.state(), self.redo_views())
        &&& self.undo_stack@.len() + self.redo_stack@.len() <= MAX_HISTORY
    }

    /// Push a freshly recorded command, clearing the redo chain and evicting
    /// the oldest history entry past the bound. The grid state is untouched.
    fn push_undo(&mut self, cmd: EditCommand)
        requires
            undoes_edit(old(self).state(), cmd@),
            undo_chain_ok(revert_view(old(self).state(), cmd@), old(self).undo_views()),
            old(self).undo_stack@.len() <= MAX_HISTORY,
        ensures
            final(self).headers == old(self).headers,
            final(self).rows == old(self).rows,
            final(self).modified == old(self).modified,
            final(self).undo_views() == crate::editor::history_pushed(
                old(self).undo_views(),
                cmd@,
                MAX_HISTORY as int,
            ),
            final(self).redo_views() == Seq::<EditCommandView>::empty(),
            undo_chain_ok(final(self).state(), final(self).undo_views()),
            redo_chain_ok(final(self).state(), final(self).redo_views()),
            final(self).undo_stack@.len() <= MAX_HISTORY,
            final(self).redo_stack@.len() == 0,
    {
        let ghost pre = self.undo_stack@;
        self.undo_stack.push(cmd);
        self.redo_stack = Vec::new();
        proof {
            assert(views_of(self.undo_stack@) =~= views_of(pre).push(cmd@));
            assert(views_of(self.undo_stack@).drop_last() =~= views_of(pre));
            assert(views_of(self.redo_stack@) =~= Seq::<EditCommandView>::empty());
        }
        if self.undo_stack.len() > MAX_HISTORY {
            let ghost full = self.undo_stack@;
            proof {
                lemma_undo_chain_drop_oldest(self.state(), views_of(full));
            }
            self.undo_stack.remove(0);
            proof {
                assert(views_of(self.undo_stack@) =~= views_of(full).subrange(
                    1,
                    full.len() as int,
                ));
                assert(views_of(self.undo_stack@) =~= crate::editor::history_pushed(
                    views_of(pre),
                    cmd@,
                    MAX_HISTORY as int,
                ));
            }
        }
    }

    /// Create an empty grid with the given dimensions; headers get positional
    /// default names.
    pub fn new(cols: usize, rows: usize) -> (r: Self)
        ensures
            r.wf(),
            r.state().headers.len() == cols,
            forall|j: int|
                0 <= j < cols ==> #[trigger] r.state().headers[j] == "Column "@ + crate::text::dec_str(
                    (j + 1) as nat,
                ),
            r.state().rows =~= Seq::new(rows as nat, |i: int| empty_row(cols as int)),
            r.undo_views().len() == 0,
            r.redo_views().len() == 0,
            !r.spec_modified(),
    {
        let mut headers: Vec<String> = Vec::new();
        let mut j: usize = 0;
        while j < cols
            invariant
                j <= cols,
                headers@.len() == j,
                forall|k: int|
                    0 <= k < j ==> #[trigger] headers.deep_view()[k] == "Column "@
                        + crate::text::dec_str((k + 1) as nat),
            decreases cols - j,
        {
            let name = String::from_str("Column ").concat(
                crate::text::usize_to_string(j + 1).as_str(),
            );
            let ghost prev = headers.deep_view();
            headers.push(name);
            proof {
                assert(headers.deep_view() =~= prev.push("Column "@ + crate::text::dec_str(
                    (j + 1) as nat,
                )));
            }
            j += 1;
        }
        let mut row_data: Vec<Vec<String>> = Vec::new();
        let mut i: usize = 0;
        while i < rows
            invariant
                i <= rows,
                row_data@.len() == i,
                forall|k: int|
                    0 <= k < i ==> #[trigger] row_data.deep_view()[k] == empty_row(cols as int),
            decreases rows - i,
        {
            let mut one: Vec<String> = Vec::new();
            let mut c: usize = 0;
            while c < cols
                invariant
                    c <= cols,
                    one@.len() == c,
                    forall|k: int|
                        0 <= k < c ==> #[trigger] one.deep_view()[k] == Seq::<char>::empty(),
                decreases cols - c,
            {
                let ghost prev = one.deep_view();
                one.push(String::new());
                proof {
                    assert(one.deep_view() =~= prev.push(Seq::<char>::empty()));
                }
                c += 1;
            }
            proof {
                assert(one.deep_view() =~~= empty_row(cols as int));
            }
            let ghost prev_rows = row_data.deep_view();
            row_data.push(one);
            proof {
                assert(row_data.deep_view() =~= prev_rows.push(empty_row(cols as int)));
            }
            i += 1;
        }
        let r = EditableGrid {
            headers,
            rows: row_data,
            undo_stack: Vec::new(),
            redo_stack: Vec::new(),
            modified: false,
        };
        proof {
            assert(r.undo_views() =~= Seq::<EditCommandView>::empty());
            assert(r.redo_views() =~= Seq::<EditCommandView>::empty());
            assert(r.state().rows =~= Seq::new(rows as nat, |i: int| empty_row(cols as int)));
            assert(grid_wf(r.state()));
        }
        r
    }

    pub fn num_cols(&self) -> (r: usize)
        ensures
            r == self.state().headers.len(),
    {
        self.headers.len()
    }

    pub fn num_rows(&self) -> (r: usize)
        ensures
            r == self.state().rows.len(),
    {
        self.rows.len()
    }

    /// The cell's text, or `None` when the position is out of range.
    pub fn get_cell(&self, row: usize, col: usize) -> (r: Option<&String>)
        ensures
            r is Some <==> row < self.state().rows.len() && col < self.state().rows[row as int].len(),
            r matches Some(v) ==> v@ == self.state().rows[row as int][col as int],
    {
        if row < self.rows.len() && col < self.rows[row].len() {
            Some(&self.rows[row][col])
        } else {
            None
        }
    }

    /// The header's text, or `None` when the column is out of range.
    pub fn get_header(&self, col: usize) -> (r: Option<&String>)
        ensures
            r is Some <==> col < self.state().headers.len(),
            r matches Some(v) ==> v@ == self.state().headers[col as int],
    {
        if col < self.headers.len() {
            Some(&self.headers[col])
        } else {
            None
        }
    }

    pub fn is_modified(&self) -> (r: bool)
        ensures
            r == self.spec_modified(),
    {
        self.modified
    }

    pub fn mark_saved(&mut self)
        requires
            old(self).wf(),
        ensures
            final(self).wf(),
            !final(self).spec_modified(),
            final(self).state() == old(self).state(),
            final(self).undo_views() == old(self).undo_views(),
            final(self).redo_views() == old(self).redo_views(),
    {
        self.modified = false;
    }

    pub fn can_undo(&self) -> (r: bool)
        ensures
            r <==> self.undo_views().len() > 0,
    {
        self.undo_stack.len() > 0
    }

    pub fn can_redo(&self) -> (r: bool)
        ensures
            r <==> self.redo_views().len() > 0,
    {
        self.redo_stack.len() > 0
    }

    /// Undo steps available; never above the history bound.
    pub fn undo_count(&self) -> (r: usize)
        requires
            self.wf(),
        ensures
            r == self.undo_views().len(),
            r <= MAX_HISTORY,
    {
        self.undo_stack.len()
    }

    pub fn redo_count(&self) -> (r: usize)
        ensures
            r == self.redo_views().len(),
    {
        self.redo_stack.len()
    }

    /// Apply a command to the grid data (the forward direction). History
    /// stacks and the modified flag are untouched.
    fn apply_command(&mut self, cmd: &EditCommand)
        ensures
            final(self).state() == apply_view(old(self).state(), cmd@),
            final(self).undo_stack == old(self).undo_stack,
            final(self).redo_stack == old(self).redo_stack,
            final(self).modified == old(self).modified,
    {
        match cmd {
            EditCommand::SetCell { row, col, new_value, .. } => {
                if *row < self.rows.len() && *col < self.rows[*row].len() {
                    let mut nr = clone_string_vec(&self.rows[*row]);
                    nr.set(*col, new_value.clone());
                    let ghost nrd = nr.deep_view();
                    self.rows.set(*row, nr);
                    proof {
                        assert(nrd =~= old(self).state().rows[*row as int].update(
                            *col as int,
                            new_value@,
                        ));
                        assert(self.rows.deep_view() =~= old(self).rows.deep_view().update(
                            *row as int,
                            nrd,
                        ));
                    }
                }
            },
            EditCommand::SetHeader { col, new_value, .. } => {
                if *col < self.headers.len() {
                    self.headers.set(*col, new_value.clone());
                    proof {
                        assert(self.headers.deep_view() =~= old(self).headers.deep_view().update(
                            *col as int,
                            new_value@,
                        ));
                    }
                }
            },
            EditCommand::InsertRow { at, data } => {
                if *at <= self.rows.len() {
                    let d = clone_string_vec(data);
                    let ghost dd = d.deep_view();
                    self.rows.insert(*at, d);
                    proof {
                        assert(self.rows.deep_view() =~= old(self).rows.deep_view().insert(
                            *at as int,
                            dd,
                        ));
                    }
                }
            },
            EditCommand::DeleteRow { at, .. } => {
                if *at < self.rows.len() {
                    self.rows.remove(*at);
                    proof {
                        assert(self.rows.deep_view() =~= old(self).rows.deep_view().remove(
                            *at as int,
                        ));
                    }
                }
            },
            EditCommand::InsertColumn { at, header } => {
                if *at <= self.headers.len() {
                    self.headers.insert(*at, header.clone());
                    proof {
                        assert(self.headers.deep_view() =~= old(self).headers.deep_view().insert(
                            *at as int,
                            header@,
                        ));
                    }
                    let ghost pre_hdrs = self.headers;
                    let ghost orig = self.rows@;
                    let ghost at_: int = *at as int;
                    let n = self.rows.len();
                    let mut i: usize = 0;
                    while i < n
                        invariant
                            i <= n,
                            n == self.rows@.len(),
                            orig.len() == n,
                            forall|j: int| i <= j < n ==> self.rows@[j] == orig[j],
                            forall|j: int|
                                0 <= j < i ==> #[trigger] self.rows@[j].deep_view() == (if at_
                                    <= orig[j].deep_view().len() {
                                    orig[j].deep_view().insert(at_, Seq::<char>::empty())
                                } else {
                                    orig[j].deep_view()
                                }),
                            self.headers == pre_hdrs,
                            self.undo_stack == old(self).undo_stack,
                            self.redo_stack == old(self).redo_stack,
                            self.modified == old(self).modified,
                        decreases n - i,
                    {
                        let mut nr = clone_string_vec(&self.rows[i]);
                        if *at <= nr.len() {
                            nr.insert(*at, String::new());
                            proof {
                                assert(nr.deep_view() =~= orig[i as int].deep_view().insert(
                                    at_,
                                    Seq::<char>::empty(),
                                ));
                            }
                        }
                        self.rows.set(i, nr);
                        i += 1;
                    }
                    proof {
                        assert(self.rows.deep_view() =~~= apply_view(
                            old(self).state(),
                            cmd@,
                        ).rows);
                    }
                }
            },
            EditCommand::DeleteColumn { at, .. } => {
                if *at < self.headers.len() {
                    self.headers.remove(*at);
                    proof {
                        assert(self.headers.deep_view() =~= old(self).headers.deep_view().remove(
                            *at as int,
                        ));
                    }
                    let ghost pre_hdrs = self.headers;
                    let ghost orig = self.rows@;
                    let ghost at_: int = *at as int;
                    let n = self.rows.len();
                    let mut i: usize = 0;
                    while i < n
                        invariant
                            i <= n,
                            n == self.rows@.len(),
                            orig.len() == n,
                            forall|j: int| i <= j < n ==> self.rows@[j] == orig[j],
                            forall|j: int|
                                0 <= j < i ==> #[trigger] self.rows@[j].deep_view() == (if at_
                                    < orig[j].deep_view().len() {
                                    orig[j].deep_view().remove(at_)
                                } else {
                                    orig[j].deep_view()
                                }),
                            self.headers == pre_hdrs,
                            self.undo_stack == old(self).undo_stack,
                            self.redo_stack == old(self).redo_stack,
                            self.modified == old(self).modified,
                        decreases n - i,
                    {
                        let mut nr = clone_string_vec(&self.rows[i]);
                        if *at < nr.len() {
                            nr.remove(*at);
                            proof {
                                assert(nr.deep_view() =~= orig[i as int].deep_view().remove(at_));
                            }
                        }
                        self.rows.set(i, nr);
                        i += 1;
                    }
                    proof {
                        assert(self.rows.deep_view() =~~= apply_view(
                            old(self).state(),
                            cmd@,
                        ).rows);
                    }
                }
            },
        }
        proof {
            assert(self.state().headers =~~= apply_view(old(self).state(), cmd@).headers);
            assert(self.state().rows =~~= apply_view(old(self).state(), cmd@).rows);
        }
    }

    /// Revert a command on the grid data (the undo direction). History
    /// stacks and the modified flag are untouched.
    fn apply_inverse(&mut self, cmd: &EditCommand)
        ensures
            final(self).state() == revert_view(old(self).state(), cmd@),
            final(self).undo_stack == old(self).undo_stack,
            final(self).redo_stack == old(self).redo_stack,
            final(self).modified == old(self).modified,
    {
        match cmd {
            EditCommand::SetCell { row, col, old_value, .. } => {
                if *row < self.rows.len() && *col < self.rows[*row].len() {
                    let mut nr = clone_string_vec(&self.rows[*row]);
                    nr.set(*col, old_value.clone());
                    let ghost nrd = nr.deep_view();
                    self.rows.set(*row, nr);
                    proof {
                        assert(nrd =~= old(self).state().rows[*row as int].update(
                            *col as int,
                            old_value@,
                        ));
                        assert(self.rows.deep_view() =~= old(self).rows.deep_view().update(
                            *row as int,
                            nrd,
                        ));
                    }
                }
            },
            EditCommand::SetHeader { col, old_value, .. } => {
                if *col < self.headers.len() {
                    self.headers.set(*col, old_value.clone());
                    proof {
                        assert(self.headers.deep_view() =~= old(self).headers.deep_view().update(
                            *col as int,
                            old_value@,
                        ));
                    }
                }
            },
            EditCommand::InsertRow { at, .. } => {
                if *at < self.rows.len() {
                    self.rows.remove(*at);
                    proof {
                        assert(self.rows.deep_view() =~= old(self).rows.deep_view().remove(
                            *at as int,
                        ));
                    }
                }
            },
            EditCommand::DeleteRow { at, data } => {
                if *at <= self.rows.len() {
                    let d = clone_string_vec(data);
                    let ghost dd = d.deep_view();
                    self.rows.insert(*at, d);
                    proof {
                        assert(self.rows.deep_view() =~= old(self).rows.deep_view().insert(
                            *at as int,
                            dd,
                        ));
                    }
                }
            },
            EditCommand::InsertColumn { at, .. } => {
                if *at < self.headers.len() {
                    self.headers.remove(*at);
                    proof {
                        assert(self.headers.deep_view() =~= old(self).headers.deep_view().remove(
                            *at as int,
                        ));
                    }
                    let ghost pre_hdrs = self.headers;
                    let ghost orig = self.rows@;
                    let ghost at_: int = *at as int;
                    let n = self.rows.len();
                    let mut i: usize = 0;
                    while i < n
                        invariant
                            i <= n,
                            n == self.rows@.len(),
                            orig.len() == n,
                            forall|j: int| i <= j < n ==> self.rows@[j] == orig[j],
                            forall|j: int|
                                0 <= j < i ==> #[trigger] self.rows@[j].deep_view() == (if at_
                                    < orig[j].deep_view().len() {
                                    orig[j].deep_view().remove(at_)
                                } else {
                                    orig[j].deep_view()
                                }),
                            self.headers == pre_hdrs,
                            self.undo_stack == old(self).undo_stack,
                            self.redo_stack == old(self).redo_stack,
                            self.modified == old(self).modified,
                        decreases n - i,
                    {
                        let mut nr = clone_string_vec(&self.rows[i]);
                        if *at < nr.len() {
                            nr.remove(*at);
                            proof {
                                assert(nr.deep_view() =~= orig[i as int].deep_view().remove(at_));
                            }
                        }
                        self.rows.set(i, nr);
                        i += 1;
                    }
                    proof {
                        assert(self.rows.deep_view() =~~= revert_view(
                            old(self).state(),
                            cmd@,
                        ).rows);
                    }
                }
            },
            EditCommand::DeleteColumn { at, header, data } => {
                if *at <= self.headers.len() {
                    self.headers.insert(*at, header.clone());
                    proof {
                        assert(self.headers.deep_view() =~= old(self).headers.deep_view().insert(
                            *at as int,
                            header@,
                        ));
                    }
                    let ghost pre_hdrs = self.headers;
                    let ghost orig = self.rows@;
                    let ghost at_: int = *at as int;
                    let ghost dv = data.deep_view();
                    let n = self.rows.len();
                    let mut i: usize = 0;
                    while i < n
                        invariant
                            i <= n,
                            n == self.rows@.len(),
                            orig.len() == n,
                            dv == data.deep_view(),
                            forall|j: int| i <= j < n ==> self.rows@[j] == orig[j],
                            forall|j: int|
                                0 <= j < i ==> #[trigger] self.rows@[j].deep_view() == (if at_
                                    <= orig[j].deep_view().len() {
                                    orig[j].deep_view().insert(
                                        at_,
                                        if 0 <= j < dv.len() {
                                            dv[j]
                                        } else {
                                            Seq::<char>::empty()
                                        },
                                    )
                                } else {
                                    orig[j].deep_view()
                                }),
                            self.headers == pre_hdrs,
                            self.undo_stack == old(self).undo_stack,
                            self.redo_stack == old(self).redo_stack,
                            self.modified == old(self).modified,
                        decreases n - i,
                    {
                        let val = if i < data.len() {
                            data[i].clone()
                        } else {
                            String::new()
                        };
                        let mut nr = clone_string_vec(&self.rows[i]);
                        if *at <= nr.len() {
                            nr.insert(*at, val);
                            proof {
                                assert(nr.deep_view() =~= orig[i as int].deep_view().insert(
                                    at_,
                                    if 0 <= i < dv.len() {
                                        dv[i as int]
                                    } else {
                                        Seq::<char>::empty()
                                    },
                                ));
                            }
                        }
                        self.rows.set(i, nr);
                        i += 1;
                    }
                    proof {
                        assert(self.rows.deep_view() =~~= revert_view(
                            old(self).state(),
                            cmd@,
                        ).rows);
                    }
                }
            },
        }
        proof {
            assert(self.state().headers =~~= revert_view(old(self).state(), cmd@).headers);
            assert(self.state().rows =~~= revert_view(old(self).state(), cmd@).rows);
        }
    }

    /// Set a cell's text; out-of-range positions are a no-op.
    pub fn set_cell(&mut self, row: usize, col: usize, value: String)
        requires
            old(self).wf(),
        ensures
            final(self).wf(),
            !(row < old(self).state().rows.len() && col < old(self).state().headers.len())
                ==> *final(self) == *old(self),
            row < old(self).state().rows.len() && col < old(self).state().headers.len() ==> {
                &&& final(self).state() == apply_view(
                    old(self).state(),
                    set_cell_cmd(old(self).state(), row, col, value@),
                )
                &&& final(self).undo_views() == crate::editor::history_pushed(
                    old(self).undo_views(),
                    set_cell_cmd(old(self).state(), row, col, value@),
                    MAX_HISTORY as int,
                )
                &&& final(self).redo_views() == Seq::<EditCommandView>::empty()
                &&& final(self).spec_modified()
            },
    {
        if row < self.rows.len() && col < self.rows[row].len() {
            let old_value = self.rows[row][col].clone();
            let cmd = EditCommand::SetCell { row, col, old_value, new_value: value };
            let ghost s0 = self.state();
            proof {
                assert(records_edit(s0, cmd@));
                lemma_apply_then_revert(s0, cmd@);
            }
            self.apply_command(&cmd);
            self.push_undo(cmd);
            self.modified = true;
        }
    }

    /// Set a header's text; an out-of-range column is a no-op.
    pub fn set_header(&mut self, col: usize, name: String)
        requires
            old(self).wf(),
        ensures
            final(self).wf(),
            col >= old(self).state().headers.len() ==> *final(self) == *old(self),
            col < old(self).state().headers.len() ==> {
                &&& final(self).state() == apply_view(
                    old(self).state(),
                    set_header_cmd(old(self).state(), col, name@),
                )
                &&& final(self).undo_views() == crate::editor::history_pushed(
                    old(self).undo_views(),
                    set_header_cmd(old(self).state(), col, name@),
                    MAX_HISTORY as int,
                )
                &&& final(self).redo_views() == Seq::<EditCommandView>::empty()
                &&& final(self).spec_modified()
            },
    {
        if col < self.headers.len() {
            let old_value = self.headers[col].clone();
            let cmd = EditCommand::SetHeader { col, old_value, new_value: name };
            let ghost s0 = self.state();
            proof {
                assert(records_edit(s0, cmd@));
                lemma_apply_then_revert(s0, cmd@);
            }
            self.apply_command(&cmd);
            self.push_undo(cmd);
            self.modified = true;
        }
    }

    /// Insert a row of empty fields immediately after the given index, or
    /// append when the index is absent or out of range.
    pub fn add_row(&mut self, after_row: Option<usize>)
        requires
            old(self).wf(),
        ensures
            final(self).wf(),
            final(self).state() == apply_view(
                old(self).state(),
                add_row_cmd(old(self).state(), after_row),
            ),
            final(self).undo_views() == crate::editor::history_pushed(
                old(self).undo_views(),
                add_row_cmd(old(self).state(), after_row),
                MAX_HISTORY as int,
            ),
            final(self).redo_views() == Seq::<EditCommandView>::empty(),
            final(self).spec_modified(),
    {
        let insert_at: usize = match after_row {
            Some(idx) => {
                if idx < self.rows.len() {
                    idx + 1
                } else {
                    self.rows.len()
                }
            },
            None => self.rows.len(),
        };
        let cols = self.headers.len();
        let mut new_row: Vec<String> = Vec::new();
        let mut c: usize = 0;
        while c < cols
            invariant
                c <= cols,
                new_row@.len() == c,
                forall|k: int| 0 <= k < c ==> #[trigger] new_row.deep_view()[k] == Seq::<char>::empty(),
            decreases cols - c,
        {
            let ghost prev = new_row.deep_view();
            new_row.push(String::new());
            proof {
                assert(new_row.deep_view() =~= prev.push(Seq::<char>::empty()));
            }
            c += 1;
        }
        proof {
            assert(new_row.deep_view() =~~= empty_row(cols as int));
        }
        let cmd = EditCommand::InsertRow { at: insert_at, data: new_row };
        let ghost s0 = self.state();
        proof {
            assert(cmd@ == add_row_cmd(s0, after_row));
            assert(records_edit(s0, cmd@));
            lemma_apply_then_revert(s0, cmd@);
        }
        self.apply_command(&cmd);
        self.push_undo(cmd);
        self.modified = true;
    }

    /// Delete the row at `row`, recording its content so undo can restore it;
    /// an out-of-range index is a no-op.
    pub fn delete_row(&mut self, row: usize)
        requires
            old(self).wf(),
        ensures
            final(self).wf(),
            row >= old(self).state().rows.len() ==> *final(self) == *old(self),
            row < old(self).state().rows.len() ==> {
                &&& final(self).state() == apply_view(
                    old(self).state(),
                    delete_row_cmd(old(self).state(), row),
                )
                &&& final(self).undo_views() == crate::editor::history_pushed(
                    old(self).undo_views(),
                    delete_row_cmd(old(self).state(), row),
                    MAX_HISTORY as int,
                )
                &&& final(self).redo_views() == Seq::<EditCommandView>::empty()
                &&& final(self).spec_modified()
            },
    {
        if row < self.rows.len() {
            let data = clone_string_vec(&self.rows[row]);
            let cmd = EditCommand::DeleteRow { at: row, data };
            let ghost s0 = self.state();
            proof {
                assert(records_edit(s0, cmd@));
                lemma_apply_then_revert(s0, cmd@);
            }
            self.apply_command(&cmd);
            self.push_undo(cmd);
            self.modified = true;
        }
    }

    /// Insert a column with a generated positional header immediately after
    /// the given index, or at the end when the index is absent or out of
    /// range.
    pub fn add_column(&mut self, after_col: Option<usize>)
        requires
            old(self).wf(),
            old(self).state().headers.len() < usize::MAX,
        ensures
            final(self).wf(),
            final(self).state() == apply_view(
                old(self).state(),
                add_column_cmd(old(self).state(), after_col),
            ),
            final(self).undo_views() == crate::editor::history_pushed(
                old(self).undo_views(),
                add_column_cmd(old(self).state(), after_col),
                MAX_HISTORY as int,
            ),
            final(self).redo_views() == Seq::<EditCommandView>::empty(),
            final(self).spec_modified(),
    {
        let insert_pos: usize = match after_col {
            Some(c) => {
                if c < self.headers.len() {
                    c + 1
                } else {
                    self.headers.len()
                }
            },
            None => self.headers.len(),
        };
        let header = String::from_str("Column ").concat(
            crate::text::usize_to_string(self.headers.len() + 1).as_str(),
        );
        let cmd = EditCommand::InsertColumn { at: insert_pos, header };
        let ghost s0 = self.state();
        proof {
            assert(cmd@ == add_column_cmd(s0, after_col));
            assert(records_edit(s0, cmd@));
            lemma_apply_then_revert(s0, cmd@);
        }
        self.apply_command(&cmd);
        self.push_undo(cmd);
        self.modified = true;
    }

    /// Delete the column at `col`, recording its header and every cell so the
    /// deletion can be undone without data loss; out of range is a no-op.
    pub fn delete_column(&mut self, col: usize)
        requires
            old(self).wf(),
        ensures
            final(self).wf(),
            col >= old(self).state().headers.len() ==> *final(self) == *old(self),
            col < old(self).state().headers.len() ==> {
                &&& final(self).state() == apply_view(
                    old(self).state(),
                    delete_column_cmd(old(self).state(), col),
                )
                &&& final(self).undo_views() == crate::editor::history_pushed(
                    old(self).undo_views(),
                    delete_column_cmd(old(self).state(), col),
                    MAX_HISTORY as int,
                )
                &&& final(self).redo_views() == Seq::<EditCommandView>::empty()
                &&& final(self).spec_modified()
            },
    {
        if col < self.headers.len() {
            let header = self.headers[col].clone();
            let n = self.rows.len();
            let mut data: Vec<String> = Vec::new();
            let mut i: usize = 0;
            while i < n
                invariant
                    i <= n,
                    n == self.rows@.len(),
                    self.wf(),
                    col < self.state().headers.len(),
                    data@.len() == i,
                    forall|k: int|
                        0 <= k < i ==> #[trigger] data.deep_view()[k] == self.state().rows[k][col as int],
                decreases n - i,
            {
                proof {
                    assert(self.state().rows[i as int].len() == self.state().headers.len());
                }
                let ghost prev = data.deep_view();
                data.push(self.rows[i][col].clone());
                proof {
                    assert(data.deep_view() =~= prev.push(self.state().rows[i as int][col as int]));
                }
                i += 1;
            }
            let cmd = EditCommand::DeleteColumn { at: col, header, data };
            let ghost s0 = self.state();
            proof {
                assert(cmd@->DeleteColumn_data =~= Seq::new(
                    s0.rows.len(),
                    |k: int| s0.rows[k][col as int],
                ));
                assert(cmd@ == delete_column_cmd(s0, col));
                assert(records_edit(s0, cmd@));
                lemma_apply_then_revert(s0, cmd@);
            }
            self.apply_command(&cmd);
            self.push_undo(cmd);
            self.modified = true;
        }
    }

    /// Undo the most recent command; returns whether one was available. The
    /// grid is restored to the exact state from before that command.
    pub fn undo(&mut self) -> (r: bool)
        requires
            old(self).wf(),
        ensures
            final(self).wf(),
            r == (old(self).undo_views().len() > 0),
            !r ==> *final(self) == *old(self),
            r ==> {
                &&& final(self).state() == revert_view(
                    old(self).state(),
                    old(self).undo_views().last(),
                )
                &&& final(self).undo_views() == old(self).undo_views().drop_last()
                &&& final(self).redo_views() == old(self).redo_views().push(
                    old(self).undo_views().last(),
                )
                &&& final(self).spec_modified() == old(self).spec_modified()
            },
    {
        if self.undo_stack.len() == 0 {
            return false;
        }
        let cmd = self.undo_stack.pop().unwrap();
        let ghost s0 = self.state();
        proof {
            assert(views_of(old(self).undo_stack@).last() == cmd@);
            assert(views_of(self.undo_stack@) =~= views_of(old(self).undo_stack@).drop_last());
            assert(undoes_edit(s0, cmd@));
            lemma_revert_then_apply(s0, cmd@);
        }
        self.apply_inverse(&cmd);
        self.redo_stack.push(cmd);
        proof {
            assert(views_of(self.redo_stack@) =~= views_of(old(self).redo_stack@).push(
                self.redo_stack@.last()@,
            ));
            assert(views_of(self.redo_stack@).drop_last() =~= views_of(old(self).redo_stack@));
        }
        true
    }

    /// Redo the most recently undone command; returns whether one was
    /// available. The grid is restored to the exact state from after it.
    pub fn redo(&mut self) -> (r: bool)
        requires
            old(self).wf(),
        ensures
            final(self).wf(),
            r == (old(self).redo_views().len() > 0),
            !r ==> *final(self) == *old(self),
            r ==> {
                &&& final(self).state() == apply_view(
                    old(self).state(),
                    old(self).redo_views().last(),
                )
                &&& final(self).redo_views() == old(self).redo_views().drop_last()
                &&& final(self).undo_views() == old(self).undo_views().push(
                    old(self).redo_views().last(),
                )
                &&& final(self).spec_modified() == old(self).spec_modified()
            },
    {
        if self.redo_stack.len() == 0 {
            return false;
        }
        let cmd = self.redo_stack.pop().unwrap();
        let ghost s0 = self.state();
        proof {
            assert(views_of(old(self).redo_stack@).last() == cmd@);
            assert(views_of(self.redo_stack@) =~= views_of(old(self).redo_stack@).drop_last());
            assert(records_edit(s0, cmd@));
            lemma_apply_then_revert(s0, cmd@);
        }
        self.apply_command(&cmd);
        self.undo_stack.push(cmd);
        proof {
            assert(views_of(self.undo_stack@) =~= views_of(old(self).undo_stack@).push(
                self.undo_stack@.last()@,
            ));
            assert(views_of(self.undo_stack@).drop_last() =~= views_of(old(self).undo_stack@));
        }
        true
    }
}

/// The command `set_cell` records at state `g`.
pub open spec fn set_cell_cmd(g: GridView, row: usize, col: usize, v: Seq<char>) -> EditCommandView {
    EditCommandView::SetCell {
        row,
        col,
        old_value: g.rows[row as int][col as int],
        new_value: v,
    }
}

/// The command `set_header` records at state `g`.
pub open spec fn set_header_cmd(g: GridView, col: usize, v: Seq<char>) -> EditCommandView {
    EditCommandView::SetHeader { col, old_value: g.headers[col as int], new_value: v }
}

/// Where `add_row` inserts for a given anchor.
pub open spec fn add_row_at(g: GridView, after_row: Option<usize>) -> usize {
    match after_row {
        Some(idx) => if idx < g.rows.len() {
            (idx + 1) as usize
        } else {
            g.rows.len() as usize
        },
        None => g.rows.len() as usize,
    }
}

/// The command `add_row` records at state `g`.
pub open spec fn add_row_cmd(g: GridView, after_row: Option<usize>) -> EditCommandView {
    EditCommandView::InsertRow {
        at: add_row_at(g, after_row),
        data: empty_row(g.headers.len() as int),
    }
}

/// The command `delete_row` records at state `g`.
pub open spec fn delete_row_cmd(g: GridView, row: usize) -> EditCommandView {
    EditCommandView::DeleteRow { at: row, data: g.rows[row as int] }
}

/// Where `add_column` inserts for a given anchor.
pub open spec fn add_col_at(g: GridView, after_col: Option<usize>) -> usize {
    match after_col {
        Some(c) => if c < g.headers.len() {
            (c + 1) as usize
        } else {
            g.headers.len() as usize
        },
        None => g.headers.len() as usize,
    }
}

/// The command `add_column` records at state `g`.
pub open spec fn add_column_cmd(g: GridView, after_col: Option<usize>) -> EditCommandView {
    EditCommandView::InsertColumn {
        at: add_col_at(g, after_col),
        header: "Column "@ + crate::text::dec_str((g.headers.len() + 1) as nat),
    }
}

/// The command `delete_column` records at state `g`.
pub open spec fn delete_column_cmd(g: GridView, col: usize) -> EditCommandView {
    EditCommandView::DeleteColumn {
        at: col,
        header: g.headers[col as int],
        data: Seq::new(g.rows.len(), |i: int| g.rows[i][col as int]),
    }
}

/// Whether a field must be quoted when written out.
pub open spec fn field_needs_quoting(f: Seq<char>) -> bool {
    exists|i: int| 0 <= i < f.len() && (f[i] == ',' || f[i] == '"' || f[i] == '\n')
}

/// A field's text with every quote doubled.
pub open spec fn esc_dq(f: Seq<char>) -> Seq<char>
    decreases f.len(),
{
    if f.len() == 0 {
        Seq::empty()
    } else {
        esc_dq(f.drop_last()) + (if f.last() == '"' {
            seq!['"', '"']
        } else {
            seq![f.last()]
        })
    }
}

/// A field as written out: quoted and escaped when needed, verbatim otherwise.
pub open spec fn quoted_field(f: Seq<char>) -> Seq<char> {
    if field_needs_quoting(f) {
        seq!['"'] + esc_dq(f) + seq!['"']
    } else {
        f
    }
}

/// One row as a comma-joined line (without the newline).
pub open spec fn row_csv(r: Seq<Seq<char>>) -> Seq<char>
    decreases r.len(),
{
    if r.len() == 0 {
        Seq::empty()
    } else if r.len() == 1 {
        quoted_field(r[0])
    } else {
        row_csv(r.drop_last()) + seq![','] + quoted_field(r.last())
    }
}

/// All data rows, each followed by a newline.
pub open spec fn rows_csv(rs: Seq<Seq<Seq<char>>>) -> Seq<char>
    decreases rs.len(),
{
    if rs.len() == 0 {
        Seq::empty()
    } else {
        rows_csv(rs.drop_last()) + row_csv(rs.last()) + seq!['\n']
    }
}

/// The flattened text form of a grid: header line, then one line per row.
pub open spec fn grid_csv(g: GridView) -> Seq<char> {
    row_csv(g.headers) + seq!['\n'] + rows_csv(g.rows)
}

/// A parsed row padded or cut to exactly `n` fields.
pub open spec fn normalize_row(r: Seq<Seq<char>>, n: int) -> Seq<Seq<char>> {
    Seq::new(n as nat, |j: int| if j < r.len() {
        r[j]
    } else {
        Seq::<char>::empty()
    })
}

/// The grid a text loads to: the first line gives the headers, every further
/// line one row, each row padded or cut to the header count.
pub open spec fn from_csv_view(s: Seq<char>) -> GridView {
    let ls = crate::parser::lines_of(s);
    if ls.len() == 0 {
        GridView { headers: Seq::empty(), rows: Seq::empty() }
    } else {
        let headers = crate::parser::fields_of(ls[0], true);
        GridView {
            headers,
            rows: Seq::new(
                (ls.len() - 1) as nat,
                |i: int| normalize_row(crate::parser::fields_of(ls[i + 1], true), headers.len() as int),
            ),
        }
    }
}

/// Whether the field's text requires quoting on output.
fn needs_quoting(f: &String) -> (r: bool)
    ensures
        r == field_needs_quoting(f@),
{
    let cs = crate::text::chars_of(f.as_str());
    let n = cs.len();
    let mut i: usize = 0;
    while i < n
        invariant
            i <= n,
            n == cs@.len(),
            cs@ == f@,
            forall|j: int| 0 <= j < i ==> !(cs@[j] == ',' || cs@[j] == '"' || cs@[j] == '\n'),
        decreases n - i,
    {
        let c = cs[i];
        if c == ',' || c == '"' || c == '\n' {
            return true;
        }
        i += 1;
    }
    false
}

/// The written-out form of one field, as characters.
fn quote_field(f: &String) -> (r: Vec<char>)
    ensures
        r@ == quoted_field(f@),
{
    let cs = crate::text::chars_of(f.as_str());
    if !needs_quoting(f) {
        return cs;
    }
    let mut out: Vec<char> = Vec::new();
    out.push('"');
    let n = cs.len();
    let mut i: usize = 0;
    while i < n
        invariant
            i <= n,
            n == cs@.len(),
            cs@ == f@,
            out@ == seq!['"'] + esc_dq(cs@.take(i as int)),
        decreases n - i,
    {
        proof {
            assert(cs@.take(i as int + 1).drop_last() =~= cs@.take(i as int));
            assert(cs@.take(i as int + 1).last() == cs@[i as int]);
        }
        let c = cs[i];
        if c == '"' {
            out.push('"');
            out.push('"');
            proof {
                assert(out@ =~= seq!['"'] + esc_dq(cs@.take(i as int + 1)));
            }
        } else {
            out.push(c);
            proof {
                assert(out@ =~= seq!['"'] + esc_dq(cs@.take(i as int + 1)));
            }
        }
        i += 1;
    }
    out.push('"');
    proof {
        assert(cs@.take(n as int) =~= cs@);
        assert(out@ =~= seq!['"'] + esc_dq(f@) + seq!['"']);
    }
    out
}

/// One row as comma-joined output characters.
fn row_csv_chars(row: &Vec<String>) -> (r: Vec<char>)
    ensures
        r@ == row_csv(row.deep_view()),
{
    let n = row.len();
    let mut out: Vec<char> = Vec::new();
    let mut i: usize = 0;
    while i < n
        invariant
            i <= n,
            n == row@.len(),
            out@ == row_csv(row.deep_view().take(i as int)),
        decreases n - i,
    {
        proof {
            assert(row.deep_view().take(i as int + 1).drop_last() =~= row.deep_view().take(
                i as int,
            ));
            assert(row.deep_view().take(i as int + 1).last() == row.deep_view()[i as int]);
        }
        if i > 0 {
            out.push(',');
        }
        let q = quote_field(&row[i]);
        crate::text::push_chars(&mut out, &q);
        proof {
            if i == 0 {
                assert(out@ =~= row_csv(row.deep_view().take(1)));
            } else {
                assert(out@ =~= row_csv(row.deep_view().take(i as int)) + seq![','] + quoted_field(
                    row.deep_view()[i as int],
                ));
                assert(out@ =~= row_csv(row.deep_view().take(i as int + 1)));
            }
        }
        i += 1;
    }
    proof {
        assert(row.deep_view().take(n as int) =~= row.deep_view());
    }
    out
}

impl EditableGrid {
    /// Parse one line of delimited text into trimmed fields.
    pub fn parse_csv_row(line: &str) -> (r: Vec<String>)
        ensures
            r.deep_view() == crate::parser::fields_of(line@, true),
    {
        crate::parser::split_fields(line, true)
    }

    /// Build a grid from delimited text: first line headers, the rest rows,
    /// each row padded or cut to the header count.
    pub fn from_csv(csv_text: &str) -> (r: Self)
        ensures
            r.wf(),
            r.state() == from_csv_view(csv_text@),
            r.undo_views().len() == 0,
            r.redo_views().len() == 0,
            !r.spec_modified(),
    {
        let lines = crate::parser::split_lines(csv_text);
        if lines.len() == 0 {
            let r = EditableGrid {
                headers: Vec::new(),
                rows: Vec::new(),
                undo_stack: Vec::new(),
                redo_stack: Vec::new(),
                modified: false,
            };
            proof {
                assert(r.state().headers =~~= from_csv_view(csv_text@).headers);
                assert(r.state().rows =~~= from_csv_view(csv_text@).rows);
                assert(r.undo_views() =~= Seq::<EditCommandView>::empty());
                assert(r.redo_views() =~= Seq::<EditCommandView>::empty());
            }
            return r;
        }
        let headers = crate::parser::split_fields(lines[0].as_str(), true);
        let ncols = headers.len();
        let nlines = lines.len();
        let mut rows: Vec<Vec<String>> = Vec::new();
        let mut i: usize = 1;
        while i < nlines
            invariant
                1 <= i <= nlines,
                nlines == lines@.len(),
                lines.deep_view() == crate::parser::lines_of(csv_text@),
                headers.deep_view() == crate::parser::fields_of(lines.deep_view()[0], true),
                ncols == headers@.len(),
                rows@.len() == i - 1,
                forall|k: int|
                    0 <= k < i - 1 ==> #[trigger] rows.deep_view()[k] == normalize_row(
                        crate::parser::fields_of(lines.deep_view()[k + 1], true),
                        ncols as int,
                    ),
                forall|k: int| 0 <= k < i - 1 ==> #[trigger] rows@[k]@.len() == ncols,
            decreases nlines - i,
        {
            let fs = crate::parser::split_fields(lines[i].as_str(), true);
            let mut nr: Vec<String> = Vec::new();
            let mut j: usize = 0;
            while j < ncols
                invariant
                    j <= ncols,
                    nr@.len() == j,
                    fs.deep_view() == crate::parser::fields_of(lines.deep_view()[i as int], true),
                    forall|k: int|
                        0 <= k < j ==> #[trigger] nr.deep_view()[k] == (if k < fs.deep_view().len() {
                            fs.deep_view()[k]
                        } else {
                            Seq::<char>::empty()
                        }),
                decreases ncols - j,
            {
                let ghost prev = nr.deep_view();
                let v = if j < fs.len() {
                    fs[j].clone()
                } else {
                    String::new()
                };
                nr.push(v);
                proof {
                    assert(nr.deep_view() =~= prev.push(
                        if j < fs.deep_view().len() {
                            fs.deep_view()[j as int]
                        } else {
                            Seq::<char>::empty()
                        },
                    ));
                }
                j += 1;
            }
            proof {
                assert(nr.deep_view() =~= normalize_row(
                    crate::parser::fields_of(lines.deep_view()[i as int], true),
                    ncols as int,
                ));
            }
            let ghost prev_rows = rows.deep_view();
            rows.push(nr);
            proof {
                assert(rows.deep_view() =~= prev_rows.push(normalize_row(
                    crate::parser::fields_of(lines.deep_view()[i as int], true),
                    ncols as int,
                )));
            }
            i += 1;
        }
        let r = EditableGrid {
            headers,
            rows,
            undo_stack: Vec::new(),
            redo_stack: Vec::new(),
            modified: false,
        };
        proof {
            assert(r.state().headers =~~= from_csv_view(csv_text@).headers);
            assert(r.state().rows =~~= from_csv_view(csv_text@).rows);
            assert(r.undo_views() =~= Seq::<EditCommandView>::empty());
            assert(r.redo_views() =~= Seq::<EditCommandView>::empty());
            assert(grid_wf(r.state()));
        }
        r
    }

    /// One row as a comma-joined line, fields quoted where needed.
    pub fn row_to_csv(&self, row: &Vec<String>) -> (r: String)
        ensures
            r@ == row_csv(row.deep_view()),
    {
        let cs = row_csv_chars(row);
        crate::text::string_from_chars(&cs)
    }

    /// The grid's flattened text form: the header line followed by one line
    /// per row, each terminated by a newline.
    pub fn to_csv(&self) -> (r: String)
        ensures
            r@ == grid_csv(self.state()),
    {
        let mut out = row_csv_chars(&self.headers);
        out.push('\n');
        let n = self.rows.len();
        let mut i: usize = 0;
        proof {
            assert(out@ =~= row_csv(self.state().headers) + seq!['\n'] + rows_csv(
                self.state().rows.take(0),
            ));
        }
        while i < n
            invariant
                i <= n,
                n == self.rows@.len(),
                out@ == row_csv(self.state().headers) + seq!['\n'] + rows_csv(
                    self.state().rows.take(i as int),
                ),
            decreases n - i,
        {
            proof {
                assert(self.state().rows.take(i as int + 1).drop_last() =~= self.state().rows.take(
                    i as int,
                ));
                assert(self.state().rows.take(i as int + 1).last() == self.state().rows[i as int]);
            }
            let rc = row_csv_chars(&self.rows[i]);
            crate::text::push_chars(&mut out, &rc);
            out.push('\n');
            proof {
                assert(out@ =~= row_csv(self.state().headers) + seq!['\n'] + rows_csv(
                    self.state().rows.take(i as int + 1),
                ));
            }
            i += 1;
        }
        proof {
            assert(self.state().rows.take(n as int) =~= self.state().rows);
        }
        crate::text::string_from_chars(&out)
    }
}

/// A well-formed grid is rectangular: every row has exactly one field per
/// header. Callers outside this module can rely on it through this lemma.
pub proof fn lemma_wf_rectangular(g: EditableGrid)
    requires
        g.wf(),
    ensures
        grid_wf(g.state()),
{
}

/// Undo after any single recorded command restores the grid to the exact
/// state from immediately before that command — row count, column count and
/// every cell — and redo after that undo restores the post-command state.
pub proof fn lemma_undo_redo_round_trip(g: GridView, c: EditCommandView)
    requires
        grid_wf(g),
        records_edit(g, c),
    ensures
        revert_view(apply_view(g, c), c) == g,
        apply_view(revert_view(apply_view(g, c), c), c) == apply_view(g, c),
{
    lemma_apply_then_revert(g, c);
}

/// Deleting a column and undoing the deletion restores every cell of that
/// column — the whole grid state — to its pre-deletion value.
pub proof fn lemma_delete_column_undo(g: GridView, col: usize)
    requires
        grid_wf(g),
        col < g.headers.len(),
    ensures
        revert_view(apply_view(g, delete_column_cmd(g, col)), delete_column_cmd(g, col)) == g,
{
    assert(records_edit(g, delete_column_cmd(g, col)));
    lemma_apply_then_revert(g, delete_column_cmd(g, col));
}

} // verus!
