//! Reversible edit commands and a delta buffer that tracks cell edits with
//! bounded undo/redo history.
use crate::cellmap::CellMap;
use vstd::prelude::*;

verus! {

/// One reversible grid mutation. Each variant carries enough state to
/// construct its own inverse.
#[derive(Debug)]
pub enum EditCommand {
    /// Set a cell value.
    SetCell { row: usize, col: usize, old_value: String, new_value: String },
    /// Insert a row at a position, with its data.
    InsertRow { at: usize, data: Vec<String> },
    /// Delete the row at a position (its data is kept for undo).
    DeleteRow { at: usize, data: Vec<String> },
    /// Insert a column at a position, with its header.
    InsertColumn { at: usize, header: String },
    /// Delete the column at a position (header and per-row values kept for undo).
    DeleteColumn { at: usize, header: String, data: Vec<String> },
    /// Set a header value.
    SetHeader { col: usize, old_value: String, new_value: String },
}

/// The mathematical shape of an `EditCommand`: text as character sequences.
pub enum EditCommandView {
    SetCell { row: usize, col: usize, old_value: Seq<char>, new_value: Seq<char> },
    InsertRow { at: usize, data: Seq<Seq<char>> },
    DeleteRow { at: usize, data: Seq<Seq<char>> },
    InsertColumn { at: usize, header: Seq<char> },
    DeleteColumn { at: usize, header: Seq<char>, data: Seq<Seq<char>> },
    SetHeader { col: usize, old_value: Seq<char>, new_value: Seq<char> },
}

impl View for EditCommand {
    type V = EditCommandView;

    open spec fn view(&self) -> EditCommandView {
        match self {
            EditCommand::SetCell { row, col, old_value, new_value } => EditCommandView::SetCell {
                row: *row,
                col: *col,
                old_value: old_value@,
                new_value: new_value@,
            },
            EditCommand::InsertRow { at, data } => EditCommandView::InsertRow {
                at: *at,
                data: data.deep_view(),
            },
            EditCommand::DeleteRow { at, data } => EditCommandView::DeleteRow {
                at: *at,
                data: data.deep_view(),
            },
            EditCommand::InsertColumn { at, header } => EditCommandView::InsertColumn {
                at: *at,
                header: header@,
            },
            EditCommand::DeleteColumn { at, header, data } => EditCommandView::DeleteColumn {
                at: *at,
                header: header@,
                data: data.deep_view(),
            },
            EditCommand::SetHeader { col, old_value, new_value } => EditCommandView::SetHeader {
                col: *col,
                old_value: old_value@,
                new_value: new_value@,
            },
        }
    }
}

/// The inverse of a command: what undoes it.
pub open spec fn inverse_view(c: EditCommandView) -> EditCommandView {
    match c {
        EditCommandView::SetCell { row, col, old_value, new_value } => EditCommandView::SetCell {
            row,
            col,
            old_value: new_value,
            new_value: old_value,
        },
        EditCommandView::InsertRow { at, data } => EditCommandView::DeleteRow { at, data },
        EditCommandView::DeleteRow { at, data } => EditCommandView::InsertRow { at, data },
        EditCommandView::InsertColumn { at, header } => EditCommandView::DeleteColumn {
            at,
            header,
            data: Seq::empty(),
        },
        EditCommandView::DeleteColumn { at, header, data: _ } => EditCommandView::InsertColumn {
            at,
            header,
        },
        EditCommandView::SetHeader { col, old_value, new_value } => EditCommandView::SetHeader {
            col,
            old_value: new_value,
            new_value: old_value,
        },
    }
}

/// Clones a vector of strings, preserving its text.
pub fn clone_string_vec(v: &Vec<String>) -> (r: Vec<String>)
    ensures
        r.deep_view() == v.deep_view(),
        r@.len() == v@.len(),
{
    let mut r: Vec<String> = Vec::new();
    let n = v.len();
    let mut i: usize = 0;
    while i < n
        invariant
            i <= n,
            n == v@.len(),
            r@.len() == i,
            forall|j: int| 0 <= j < i ==> r@[j] == v@[j],
        decreases n - i,
    {
        r.push(v[i].clone());
        i += 1;
    }
    proof {
        assert(r.deep_view() =~= v.deep_view());
    }
    r
}

impl Clone for EditCommand {
    /// A clone denotes the same command.
    fn clone(&self) -> (r: Self)
        ensures
            r@ == self@,
    {
        match self {
            EditCommand::SetCell { row, col, old_value, new_value } => EditCommand::SetCell {
                row: *row,
                col: *col,
                old_value: old_value.clone(),
                new_value: new_value.clone(),
            },
            EditCommand::InsertRow { at, data } => EditCommand::InsertRow {
                at: *at,
                data: clone_string_vec(data),
            },
            EditCommand::DeleteRow { at, data } => EditCommand::DeleteRow {
                at: *at,
                data: clone_string_vec(data),
            },
            EditCommand::InsertColumn { at, header } => EditCommand::InsertColumn {
                at: *at,
                header: header.clone(),
            },
            EditCommand::DeleteColumn { at, header, data } => EditCommand::DeleteColumn {
                at: *at,
                header: header.clone(),
                data: clone_string_vec(data),
            },
            EditCommand::SetHeader { col, old_value, new_value } => EditCommand::SetHeader {
                col: *col,
                old_value: old_value.clone(),
                new_value: new_value.clone(),
            },
        }
    }
}

impl EditCommand {
    /// Create the inverse command for undo.
    pub fn inverse(&self) -> (r: Self)
        ensures
            r@ == inverse_view(self@),
    {
        match self {
            EditCommand::SetCell { row, col, old_value, new_value } => EditCommand::SetCell {
                row: *row,
                col: *col,
                old_value: new_value.clone(),
                new_value: old_value.clone(),
            },
            EditCommand::InsertRow { at, data } => EditCommand::DeleteRow {
                at: *at,
                data: clone_string_vec(data),
            },
            EditCommand::DeleteRow { at, data } => EditCommand::InsertRow {
                at: *at,
                data: clone_string_vec(data),
            },
            EditCommand::InsertColumn { at, header } => {
                let empty_data: Vec<String> = Vec::new();
                proof {
                    assert(empty_data.deep_view() =~= Seq::<Seq<char>>::empty());
                }
                EditCommand::DeleteColumn { at: *at, header: header.clone(), data: empty_data }
            },
            EditCommand::DeleteColumn { at, header, data: _ } => EditCommand::InsertColumn {
                at: *at,
                header: header.clone(),
            },
            EditCommand::SetHeader { col, old_value, new_value } => EditCommand::SetHeader {
                col: *col,
                old_value: new_value.clone(),
                new_value: old_value.clone(),
            },
        }
    }
}

/// The views of a stack of commands, oldest first.
pub open spec fn views_of(s: Seq<EditCommand>) -> Seq<EditCommandView> {
    s.map_values(|c: EditCommand| c@)
}

/// The cell-edit map after a command is applied to it. Only cell edits touch
/// the map; structural commands are tracked in the history alone.
pub open spec fn applied_edits(
    m: Map<(usize, usize), Seq<char>>,
    c: EditCommandView,
) -> Map<(usize, usize), Seq<char>> {
    match c {
        EditCommandView::SetCell { row, col, old_value: _, new_value } => {
            if new_value.len() == 0 {
                m.remove((row, col))
            } else {
                m.insert((row, col), new_value)
            }
        },
        _ => m,
    }
}

/// The newest recorded value for the cell at (row, col) among the stacked
/// commands, if any command still sets it.
pub open spec fn latest_set(st: Seq<EditCommandView>, row: usize, col: usize) -> Option<Seq<char>>
    decreases st.len(),
{
    if st.len() == 0 {
        None
    } else {
        match st.last() {
            EditCommandView::SetCell { row: r2, col: c2, old_value: _, new_value } => {
                if r2 == row && c2 == col {
                    Some(new_value)
                } else {
                    latest_set(st.drop_last(), row, col)
                }
            },
            _ => latest_set(st.drop_last(), row, col),
        }
    }
}

/// The cell-edit map after a command is undone: the cell reverts to the
/// newest value the remaining history still records for it, or to no edit at
/// all when none does. Structural commands leave the map alone.
pub open spec fn unapplied_edits(
    m: Map<(usize, usize), Seq<char>>,
    c: EditCommandView,
    rest: Seq<EditCommandView>,
) -> Map<(usize, usize), Seq<char>> {
    match c {
        EditCommandView::SetCell { row, col, old_value: _, new_value: _ } => {
            match latest_set(rest, row, col) {
                Some(v) => if v.len() == 0 {
                    m.remove((row, col))
                } else {
                    m.insert((row, col), v)
                },
                None => m.remove((row, col)),
            }
        },
        _ => m,
    }
}

/// A history stack after `c` is pushed under bound `max`: the oldest entry is
/// evicted once the bound is reached.
pub open spec fn history_pushed(
    s: Seq<EditCommandView>,
    c: EditCommandView,
    max: int,
) -> Seq<EditCommandView> {
    if s.len() < max {
        s.push(c)
    } else {
        s.subrange(1, s.len() as int).push(c)
    }
}

/// History beyond the bound evicts the oldest entry: the stack after a push
/// never exceeds the bound, the new command sits on top, and at the bound the
/// remaining entries are exactly the most recent ones, in order.
pub proof fn lemma_history_bound(s: Seq<EditCommandView>, c: EditCommandView, max: int)
    requires
        max >= 1,
        s.len() <= max,
    ensures
        history_pushed(s, c, max).len() <= max,
        history_pushed(s, c, max).last() == c,
        s.len() < max ==> history_pushed(s, c, max) == s.push(c),
        s.len() == max ==> history_pushed(s, c, max) == s.subrange(1, s.len() as int).push(c),
{
}

/// Delta buffer that tracks cell edits with full undo/redo support.
#[derive(Debug)]
pub struct DeltaBuffer {
    /// Current cell edits.
    edits: CellMap<String>,
    /// Commands that have been executed.
    undo_stack: Vec<EditCommand>,
    /// Commands that have been undone.
    redo_stack: Vec<EditCommand>,
    /// True if there are unsaved changes.
    dirty: bool,
    /// Maximum undo history size.
    max_history: usize,
}

impl DeltaBuffer {
    /// Current cell edits as a map from (row, column) to the cell's text.
    pub closed spec fn edits_view(self) -> Map<(usize, usize), Seq<char>> {
        self.edits@.map_values(|s: String| s@)
    }

    /// Views of the undoable commands, oldest first.
    pub closed spec fn undo_views(self) -> Seq<EditCommandView> {
        views_of(self.undo_stack@)
    }

    /// Views of the redoable commands, oldest first.
    pub closed spec fn redo_views(self) -> Seq<EditCommandView> {
        views_of(self.redo_stack@)
    }

    pub closed spec fn spec_dirty(self) -> bool {
        self.dirty
    }

    pub closed spec fn max_hist(self) -> int {
        self.max_history as int
    }

    pub closed spec fn wf(self) -> bool {
        self.edits.wf() && self.undo_stack@.len() + self.redo_stack@.len() <= self.max_history
            && self.max_history >= 1
    }

    pub fn new() -> (r: Self)
        ensures
            r.wf(),
            r.edits_view() == Map::<(usize, usize), Seq<char>>::empty(),
            r.undo_views() == Seq::<EditCommandView>::empty(),
            r.redo_views() == Seq::<EditCommandView>::empty(),
            !r.spec_dirty(),
            r.max_hist() == 100,
    {
        let r = DeltaBuffer {
            edits: CellMap::new(),
            undo_stack: Vec::new(),
            redo_stack: Vec::new(),
            dirty: false,
            max_history: 100,
        };
        proof {
            assert(r.edits_view() =~= Map::<(usize, usize), Seq<char>>::empty());
            assert(r.undo_views() =~= Seq::<EditCommandView>::empty());
            assert(r.redo_views() =~= Seq::<EditCommandView>::empty());
        }
        r
    }

    /// Apply a command to the edit map.
    fn apply_command(&mut self, cmd: &EditCommand)
        requires
            old(self).wf(),
        ensures
            final(self).wf(),
            final(self).edits_view() == applied_edits(old(self).edits_view(), cmd@),
            final(self).undo_stack == old(self).undo_stack,
            final(self).redo_stack == old(self).redo_stack,
            final(self).dirty == old(self).dirty,
            final(self).max_history == old(self).max_history,
    {
        match cmd {
            EditCommand::SetCell { row, col, new_value, .. } => {
                if new_value.as_str().is_empty() {
                    self.edits.remove(*row, *col);
                    proof {
                        assert(self.edits_view() =~= applied_edits(old(self).edits_view(), cmd@));
                    }
                } else {
                    self.edits.insert(*row, *col, new_value.clone());
                    proof {
                        assert(self.edits_view() =~= applied_edits(old(self).edits_view(), cmd@));
                    }
                }
            },
            _ => {
                // Structural commands are handled at the grid level; the
                // delta buffer only records them in its history.
            },
        }
    }

    /// Execute a command: apply it, push it for undo, and clear the redo
    /// chain. Once the history bound is reached the oldest entry is evicted.
    pub fn execute(&mut self, cmd: EditCommand)
        requires
            old(self).wf(),
        ensures
            final(self).wf(),
            final(self).edits_view() == applied_edits(old(self).edits_view(), cmd@),
            final(self).undo_views() == history_pushed(
                old(self).undo_views(),
                cmd@,
                old(self).max_hist(),
            ),
            final(self).redo_views() == Seq::<EditCommandView>::empty(),
            final(self).spec_dirty(),
            final(self).max_hist() == old(self).max_hist(),
            final(self).undo_views().len() <= old(self).max_hist(),
    {
        let ghost pre_stack = self.undo_stack@;
        self.apply_command(&cmd);
        self.undo_stack.push(cmd);
        self.redo_stack.clear();
        proof {
            assert(views_of(self.undo_stack@) =~= views_of(pre_stack).push(
                self.undo_stack@.last()@,
            ));
            assert(views_of(self.redo_stack@) =~= Seq::<EditCommandView>::empty());
        }
        if self.undo_stack.len() > self.max_history {
            let ghost full = self.undo_stack@;
            self.undo_stack.remove(0);
            proof {
                assert(views_of(self.undo_stack@) =~= views_of(full).subrange(
                    1,
                    full.len() as int,
                ));
                assert(views_of(self.undo_stack@) =~= history_pushed(
                    views_of(pre_stack),
                    full.last()@,
                    old(self).max_hist(),
                ));
            }
        }
        self.dirty = true;
    }

    /// Undo the last command, returning it; `None` when nothing is undoable.
    /// An undone cell edit reverts the cell to the newest value the remaining
    /// history still records, or to no recorded edit at all.
    pub fn undo(&mut self) -> (r: Option<EditCommand>)
        requires
            old(self).wf(),
        ensures
            final(self).wf(),
            r is Some <==> old(self).undo_views().len() > 0,
            old(self).undo_views().len() == 0 ==> *final(self) == *old(self),
            r matches Some(c) ==> {
                &&& c@ == old(self).undo_views().last()
                &&& final(self).undo_views() == old(self).undo_views().drop_last()
                &&& final(self).redo_views() == old(self).redo_views().push(c@)
                &&& final(self).edits_view() == unapplied_edits(
                    old(self).edits_view(),
                    c@,
                    old(self).undo_views().drop_last(),
                )
                &&& final(self).spec_dirty() == (old(self).undo_views().len() > 1)
                &&& final(self).max_hist() == old(self).max_hist()
            },
    {
        if self.undo_stack.len() == 0 {
            return None;
        }
        let cmd = self.undo_stack.pop().unwrap();
        proof {
            assert(views_of(self.undo_stack@) =~= views_of(old(self).undo_stack@).drop_last());
        }
        match &cmd {
            EditCommand::SetCell { row, col, .. } => {
                let ghost pre_edits = self.edits_view();
                let ghost rest = views_of(self.undo_stack@);
                let ghost stk = self.undo_stack@;
                let n = self.undo_stack.len();
                let mut i: usize = n;
                let mut done: bool = false;
                proof {
                    assert(self.undo_stack@.take(n as int) =~= self.undo_stack@);
                }
                while i > 0 && !done
                    invariant
                        i <= n,
                        n == stk.len(),
                        self.undo_stack@ == stk,
                        rest == views_of(stk),
                        self.redo_stack == old(self).redo_stack,
                        self.dirty == old(self).dirty,
                        self.max_history == old(self).max_history,
                        self.edits.wf(),
                        !done ==> self.edits_view() == pre_edits && latest_set(rest, *row, *col)
                            == latest_set(views_of(stk.take(i as int)), *row, *col),
                        done ==> self.edits_view() == unapplied_edits(pre_edits, cmd@, rest),
                    decreases i, (if done {
                        0int
                    } else {
                        1int
                    }),
                {
                    proof {
                        assert(views_of(stk.take(i as int)).drop_last() =~= views_of(
                            stk.take(i as int - 1),
                        ));
                        assert(views_of(stk.take(i as int)).last() == stk[i as int - 1]@);
                    }
                    let mut stepped: bool = false;
                    match &self.undo_stack[i - 1] {
                        EditCommand::SetCell { row: r2, col: c2, new_value, .. } => {
                            if *r2 == *row && *c2 == *col {
                                proof {
                                    assert(latest_set(rest, *row, *col) == Some(new_value@));
                                }
                                if new_value.as_str().is_empty() {
                                    self.edits.remove(*row, *col);
                                } else {
                                    self.edits.insert(*row, *col, new_value.clone());
                                }
                                done = true;
                            } else {
                                stepped = true;
                            }
                        },
                        _ => {
                            stepped = true;
                        },
                    }
                    if stepped {
                        i -= 1;
                    }
                }
                if !done {
                    proof {
                        assert(stk.take(0) =~= Seq::<EditCommand>::empty());
                        assert(views_of(stk.take(0)) =~= Seq::<EditCommandView>::empty());
                        assert(latest_set(rest, *row, *col) is None);
                    }
                    self.edits.remove(*row, *col);
                }
                proof {
                    assert(self.edits_view() =~= unapplied_edits(pre_edits, cmd@, rest));
                }
            },
            _ => {
                proof {
                    assert(self.edits_view() =~= unapplied_edits(
                        old(self).edits_view(),
                        cmd@,
                        views_of(self.undo_stack@),
                    ));
                }
            },
        }
        self.redo_stack.push(cmd.clone());
        proof {
            assert(views_of(self.redo_stack@) =~= views_of(old(self).redo_stack@).push(cmd@));
        }
        self.dirty = self.undo_stack.len() > 0;
        Some(cmd)
    }

    /// Redo the last undone command, returning it; `None` when nothing is
    /// redoable.
    pub fn redo(&mut self) -> (r: Option<EditCommand>)
        requires
            old(self).wf(),
        ensures
            final(self).wf(),
            r is Some <==> old(self).redo_views().len() > 0,
            old(self).redo_views().len() == 0 ==> *final(self) == *old(self),
            r matches Some(c) ==> {
                &&& c@ == old(self).redo_views().last()
                &&& final(self).redo_views() == old(self).redo_views().drop_last()
                &&& final(self).undo_views() == old(self).undo_views().push(c@)
                &&& final(self).edits_view() == applied_edits(old(self).edits_view(), c@)
                &&& final(self).spec_dirty()
                &&& final(self).max_hist() == old(self).max_hist()
            },
    {
        if self.redo_stack.len() == 0 {
            return None;
        }
        let cmd = self.redo_stack.pop().unwrap();
        proof {
            assert(views_of(self.redo_stack@) =~= views_of(old(self).redo_stack@).drop_last());
        }
        self.apply_command(&cmd);
        self.undo_stack.push(cmd.clone());
        proof {
            assert(views_of(self.undo_stack@) =~= views_of(old(self).undo_stack@).push(cmd@));
        }
        self.dirty = true;
        Some(cmd)
    }

    /// Record a cell edit (convenience wrapper that builds a `SetCell`).
    pub fn add_edit(&mut self, row: usize, col: usize, old_value: String, new_value: String)
        requires
            old(self).wf(),
        ensures
            final(self).wf(),
            final(self).edits_view() == (if new_value@.len() == 0 {
                old(self).edits_view().remove((row, col))
            } else {
                old(self).edits_view().insert((row, col), new_value@)
            }),
            final(self).undo_views() == history_pushed(
                old(self).undo_views(),
                (EditCommandView::SetCell {
                    row,
                    col,
                    old_value: old_value@,
                    new_value: new_value@,
                }),
                old(self).max_hist(),
            ),
            final(self).redo_views() == Seq::<EditCommandView>::empty(),
            final(self).spec_dirty(),
            final(self).max_hist() == old(self).max_hist(),
    {
        let cmd = EditCommand::SetCell { row, col, old_value, new_value };
        self.execute(cmd);
    }

    /// Get the edit for a specific cell, if one is recorded.
    pub fn get_edit(&self, row: usize, col: usize) -> (r: Option<&String>)
        requires
            self.wf(),
        ensures
            r is Some <==> self.edits_view().contains_key((row, col)),
            r matches Some(v) ==> v@ == self.edits_view()[(row, col)],
    {
        self.edits.get(row, col)
    }

    /// Whether there are changes that can be undone.
    pub fn can_undo(&self) -> (r: bool)
        ensures
            r <==> self.undo_views().len() > 0,
    {
        self.undo_stack.len() > 0
    }

    /// Whether there are changes that can be redone.
    pub fn can_redo(&self) -> (r: bool)
        ensures
            r <==> self.redo_views().len() > 0,
    {
        self.redo_stack.len() > 0
    }

    /// The number of undo steps available; never above the history bound.
    pub fn undo_count(&self) -> (r: usize)
        requires
            self.wf(),
        ensures
            r == self.undo_views().len(),
            r <= self.max_hist(),
    {
        self.undo_stack.len()
    }

    /// The number of redo steps available.
    pub fn redo_count(&self) -> (r: usize)
        ensures
            r == self.redo_views().len(),
    {
        self.redo_stack.len()
    }

    /// Whether there are unsaved changes.
    pub fn is_dirty(&self) -> (r: bool)
        ensures
            r == self.spec_dirty(),
    {
        self.dirty
    }

    /// Mark as saved (clears the dirty flag and nothing else).
    pub fn mark_saved(&mut self)
        requires
            old(self).wf(),
        ensures
            final(self).wf(),
            !final(self).spec_dirty(),
            final(self).edits_view() == old(self).edits_view(),
            final(self).undo_views() == old(self).undo_views(),
            final(self).redo_views() == old(self).redo_views(),
            final(self).max_hist() == old(self).max_hist(),
    {
        self.dirty = false;
    }

    /// Clear all edits and history.
    pub fn clear(&mut self)
        requires
            old(self).wf(),
        ensures
            final(self).wf(),
            final(self).edits_view() == Map::<(usize, usize), Seq<char>>::empty(),
            final(self).undo_views() == Seq::<EditCommandView>::empty(),
            final(self).redo_views() == Seq::<EditCommandView>::empty(),
            !final(self).spec_dirty(),
            final(self).max_hist() == old(self).max_hist(),
    {
        self.edits.clear();
        self.undo_stack = Vec::new();
        self.redo_stack = Vec::new();
        self.dirty = false;
        proof {
            assert(self.edits_view() =~= Map::<(usize, usize), Seq<char>>::empty());
            assert(self.undo_views() =~= Seq::<EditCommandView>::empty());
            assert(self.redo_views() =~= Seq::<EditCommandView>::empty());
        }
    }
}

/// Former name of the delta buffer, kept for callers that still use it.
pub type EditBuffer = DeltaBuffer;

} // verus!
