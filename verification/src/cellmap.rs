//! A small association list from (row, column) cell coordinates to values,
//! with a `Map` view. It backs the sparse per-cell stores of this crate.
use vstd::prelude::*;

verus! {

/// One stored cell entry.
#[derive(Clone, Copy, Debug)]
pub struct Entry<V> {
    pub row: usize,
    pub col: usize,
    pub val: V,
}

pub open spec fn entry_key<V>(e: Entry<V>) -> (usize, usize) {
    (e.row, e.col)
}

/// Whether some entry of `s` has key `k`.
pub open spec fn seq_has_key<V>(s: Seq<Entry<V>>, k: (usize, usize)) -> bool
    decreases s.len(),
{
    if s.len() == 0 {
        false
    } else {
        entry_key(s.last()) == k || seq_has_key(s.drop_last(), k)
    }
}

/// No two entries of `s` share a key.
pub open spec fn distinct_keys<V>(s: Seq<Entry<V>>) -> bool
    decreases s.len(),
{
    s.len() == 0 || (!seq_has_key(s.drop_last(), entry_key(s.last())) && distinct_keys(
        s.drop_last(),
    ))
}

/// The map an entry sequence denotes; later entries win, though under
/// `distinct_keys` the order never matters.
pub open spec fn map_of<V>(s: Seq<Entry<V>>) -> Map<(usize, usize), V>
    decreases s.len(),
{
    if s.len() == 0 {
        Map::empty()
    } else {
        map_of(s.drop_last()).insert(entry_key(s.last()), s.last().val)
    }
}

pub proof fn lemma_has_key<V>(s: Seq<Entry<V>>, k: (usize, usize))
    ensures
        map_of(s).contains_key(k) <==> seq_has_key(s, k),
    decreases s.len(),
{
    if s.len() > 0 {
        lemma_has_key(s.drop_last(), k);
    }
}

pub proof fn lemma_index_has<V>(s: Seq<Entry<V>>, i: int)
    requires
        0 <= i < s.len(),
    ensures
        seq_has_key(s, entry_key(s[i])),
    decreases s.len(),
{
    if i < s.len() - 1 {
        lemma_index_has(s.drop_last(), i);
    }
}

pub proof fn lemma_no_index_no_key<V>(s: Seq<Entry<V>>, k: (usize, usize))
    requires
        forall|j: int| 0 <= j < s.len() ==> entry_key(#[trigger] s[j]) != k,
    ensures
        !seq_has_key(s, k),
    decreases s.len(),
{
    if s.len() > 0 {
        assert(entry_key(s[s.len() - 1]) != k);
        lemma_no_index_no_key(s.drop_last(), k);
    }
}

/// Under distinct keys, the entry at index `i` gives the map's value at its key.
pub proof fn lemma_index_val<V>(s: Seq<Entry<V>>, i: int)
    requires
        distinct_keys(s),
        0 <= i < s.len(),
    ensures
        map_of(s).contains_key(entry_key(s[i])),
        map_of(s)[entry_key(s[i])] == s[i].val,
    decreases s.len(),
{
    if i == s.len() - 1 {
    } else {
        lemma_index_val(s.drop_last(), i);
        lemma_index_has(s.drop_last(), i);
        assert(entry_key(s[i]) != entry_key(s.last()));
    }
}

pub proof fn lemma_push<V>(s: Seq<Entry<V>>, e: Entry<V>)
    ensures
        map_of(s.push(e)) == map_of(s).insert(entry_key(e), e.val),
        !seq_has_key(s, entry_key(e)) && distinct_keys(s) ==> distinct_keys(s.push(e)),
{
    assert(s.push(e).drop_last() =~= s);
    assert(s.push(e).last() == e);
}

pub proof fn lemma_update<V>(s: Seq<Entry<V>>, i: int, e: Entry<V>)
    requires
        distinct_keys(s),
        0 <= i < s.len(),
        entry_key(s[i]) == entry_key(e),
    ensures
        map_of(s.update(i, e)) == map_of(s).insert(entry_key(e), e.val),
        distinct_keys(s.update(i, e)),
    decreases s.len(),
{
    let t = s.update(i, e);
    if i == s.len() - 1 {
        assert(t.drop_last() =~= s.drop_last());
        assert(t.last() == e);
        lemma_has_key(s.drop_last(), entry_key(e));
        assert(map_of(t) =~= map_of(s).insert(entry_key(e), e.val));
    } else {
        assert(t.drop_last() =~= s.drop_last().update(i, e));
        assert(t.last() == s.last());
        lemma_update(s.drop_last(), i, e);
        lemma_index_has(s.drop_last(), i);
        assert(entry_key(s[i]) != entry_key(s.last()));
        assert(map_of(t) =~= map_of(s).insert(entry_key(e), e.val));
        lemma_keys_unchanged_update(s.drop_last(), i, e);
    }
}

proof fn lemma_keys_unchanged_update<V>(s: Seq<Entry<V>>, i: int, e: Entry<V>)
    requires
        0 <= i < s.len(),
        entry_key(s[i]) == entry_key(e),
    ensures
        forall|k: (usize, usize)| seq_has_key(s.update(i, e), k) == seq_has_key(s, k),
    decreases s.len(),
{
    let t = s.update(i, e);
    if i == s.len() - 1 {
        assert(t.drop_last() =~= s.drop_last());
        assert forall|k: (usize, usize)| seq_has_key(t, k) == seq_has_key(s, k) by {
            assert(seq_has_key(t, k) == (entry_key(t.last()) == k || seq_has_key(
                t.drop_last(),
                k,
            )));
            assert(seq_has_key(s, k) == (entry_key(s.last()) == k || seq_has_key(
                s.drop_last(),
                k,
            )));
        }
    } else {
        assert(t.drop_last() =~= s.drop_last().update(i, e));
        lemma_keys_unchanged_update(s.drop_last(), i, e);
        assert(t.last() == s.last());
        assert forall|k: (usize, usize)| seq_has_key(t, k) == seq_has_key(s, k) by {
            assert(seq_has_key(t.drop_last(), k) == seq_has_key(s.drop_last(), k));
            assert(seq_has_key(t, k) == (entry_key(t.last()) == k || seq_has_key(
                t.drop_last(),
                k,
            )));
            assert(seq_has_key(s, k) == (entry_key(s.last()) == k || seq_has_key(
                s.drop_last(),
                k,
            )));
        }
    }
}

pub proof fn lemma_remove<V>(s: Seq<Entry<V>>, i: int)
    requires
        distinct_keys(s),
        0 <= i < s.len(),
    ensures
        map_of(s.remove(i)) == map_of(s).remove(entry_key(s[i])),
        distinct_keys(s.remove(i)),
        !seq_has_key(s.remove(i), entry_key(s[i])),
    decreases s.len(),
{
    let k = entry_key(s[i]);
    let t = s.remove(i);
    if i == s.len() - 1 {
        assert(t =~= s.drop_last());
        lemma_has_key(s.drop_last(), k);
        assert(map_of(t) =~= map_of(s).remove(k));
    } else {
        assert(t.drop_last() =~= s.drop_last().remove(i));
        assert(t.last() == s.last());
        lemma_remove(s.drop_last(), i);
        lemma_index_has(s.drop_last(), i);
        assert(entry_key(s[i]) != entry_key(s.last()));
        assert(map_of(t) =~= map_of(s).remove(k));
        lemma_remove_no_new_keys(s.drop_last(), i);
    }
}

proof fn lemma_remove_no_new_keys<V>(s: Seq<Entry<V>>, i: int)
    requires
        0 <= i < s.len(),
    ensures
        forall|k: (usize, usize)| seq_has_key(s.remove(i), k) ==> seq_has_key(s, k),
    decreases s.len(),
{
    let t = s.remove(i);
    if i == s.len() - 1 {
        assert(t =~= s.drop_last());
        assert forall|k: (usize, usize)| seq_has_key(t, k) implies seq_has_key(s, k) by {
            assert(seq_has_key(s, k) == (entry_key(s.last()) == k || seq_has_key(
                s.drop_last(),
                k,
            )));
        }
    } else {
        assert(t.drop_last() =~= s.drop_last().remove(i));
        assert(t.last() == s.last());
        lemma_remove_no_new_keys(s.drop_last(), i);
        assert forall|k: (usize, usize)| seq_has_key(t, k) implies seq_has_key(s, k) by {
            assert(seq_has_key(t, k) == (entry_key(t.last()) == k || seq_has_key(
                t.drop_last(),
                k,
            )));
            if seq_has_key(t.drop_last(), k) {
                assert(seq_has_key(s.drop_last(), k));
            }
            assert(seq_has_key(s, k) == (entry_key(s.last()) == k || seq_has_key(
                s.drop_last(),
                k,
            )));
        }
    }
}

/// Sparse store from cell coordinates to values of type `V`.
#[derive(Clone, Debug)]
pub struct CellMap<V> {
    cells: Vec<Entry<V>>,
}

impl<V> View for CellMap<V> {
    type V = Map<(usize, usize), V>;

    closed spec fn view(&self) -> Map<(usize, usize), V> {
        map_of(self.cells@)
    }
}

impl<V> CellMap<V> {
    /// Well-formedness: stored entries have pairwise distinct keys.
    pub closed spec fn wf(self) -> bool {
        distinct_keys(self.cells@)
    }

    pub fn new() -> (r: CellMap<V>)
        ensures
            r.wf(),
            r@ == Map::<(usize, usize), V>::empty(),
    {
        CellMap { cells: Vec::new() }
    }

    /// Number of stored entries.
    pub fn len(&self) -> (r: usize)
        requires
            self.wf(),
        ensures
            r == self@.dom().len(),
    {
        proof {
            lemma_dom_len(self.cells@);
        }
        self.cells.len()
    }

    pub fn is_empty(&self) -> (r: bool)
        requires
            self.wf(),
        ensures
            r <==> self@ == Map::<(usize, usize), V>::empty(),
    {
        proof {
            if self.cells@.len() > 0 {
                lemma_index_has(self.cells@, self.cells@.len() - 1);
                lemma_has_key(self.cells@, entry_key(self.cells@.last()));
            } else {
                assert(map_of(self.cells@) =~= Map::<(usize, usize), V>::empty());
            }
        }
        self.cells.len() == 0
    }

    pub fn get(&self, row: usize, col: usize) -> (r: Option<&V>)
        requires
            self.wf(),
        ensures
            r is Some <==> self@.contains_key((row, col)),
            r matches Some(v) ==> *v == self@[(row, col)],
    {
        let n = self.cells.len();
        let mut i: usize = 0;
        while i < n
            invariant
                i <= n,
                n == self.cells@.len(),
                forall|j: int| 0 <= j < i ==> entry_key(#[trigger] self.cells@[j]) != (row, col),
            decreases n - i,
        {
            if self.cells[i].row == row && self.cells[i].col == col {
                proof {
                    lemma_index_val(self.cells@, i as int);
                }
                return Some(&self.cells[i].val);
            }
            i += 1;
        }
        proof {
            lemma_no_index_no_key(self.cells@, (row, col));
            lemma_has_key(self.cells@, (row, col));
        }
        None
    }

    pub fn insert(&mut self, row: usize, col: usize, val: V)
        requires
            old(self).wf(),
        ensures
            final(self).wf(),
            final(self)@ == old(self)@.insert((row, col), val),
    {
        let n = self.cells.len();
        let mut i: usize = 0;
        while i < n
            invariant
                i <= n,
                n == self.cells@.len(),
                self == old(self),
                forall|j: int| 0 <= j < i ==> entry_key(#[trigger] self.cells@[j]) != (row, col),
            decreases n - i,
        {
            if self.cells[i].row == row && self.cells[i].col == col {
                proof {
                    lemma_update(self.cells@, i as int, Entry { row, col, val });
                }
                self.cells.set(i, Entry { row, col, val });
                return ;
            }
            i += 1;
        }
        proof {
            lemma_no_index_no_key(self.cells@, (row, col));
            lemma_push(self.cells@, Entry { row, col, val });
        }
        self.cells.push(Entry { row, col, val });
    }

    pub fn remove(&mut self, row: usize, col: usize)
        requires
            old(self).wf(),
        ensures
            final(self).wf(),
            final(self)@ == old(self)@.remove((row, col)),
    {
        let n = self.cells.len();
        let mut i: usize = 0;
        while i < n
            invariant
                i <= n,
                n == self.cells@.len(),
                self == old(self),
                forall|j: int| 0 <= j < i ==> entry_key(#[trigger] self.cells@[j]) != (row, col),
            decreases n - i,
        {
            if self.cells[i].row == row && self.cells[i].col == col {
                proof {
                    lemma_remove(self.cells@, i as int);
                }
                self.cells.remove(i);
                return ;
            }
            i += 1;
        }
        proof {
            lemma_no_index_no_key(self.cells@, (row, col));
            lemma_has_key(self.cells@, (row, col));
            assert(map_of(self.cells@).remove((row, col)) =~= map_of(self.cells@));
        }
    }

    pub fn clear(&mut self)
        ensures
            final(self).wf(),
            final(self)@ == Map::<(usize, usize), V>::empty(),
    {
        self.cells = Vec::new();
    }
}

/// The map after the row at `d` is deleted: entries on row `d` are dropped,
/// entries on greater rows move up by one.
pub open spec fn row_deleted_map<V>(m: Map<(usize, usize), V>, d: usize) -> Map<
    (usize, usize),
    V,
> {
    Map::new(
        |k: (usize, usize)|
            (k.0 < d && m.contains_key(k)) || (d <= k.0 < usize::MAX && m.contains_key(
                ((k.0 + 1) as usize, k.1),
            )),
        |k: (usize, usize)| if k.0 < d { m[k] } else { m[((k.0 + 1) as usize, k.1)] },
    )
}

/// The map after a row is inserted at `i`: entries on row `i` or greater move
/// down by one; the fresh row carries no entries.
pub open spec fn row_inserted_map<V>(m: Map<(usize, usize), V>, i: usize) -> Map<
    (usize, usize),
    V,
> {
    Map::new(
        |k: (usize, usize)|
            (k.0 < i && m.contains_key(k)) || (k.0 > i && m.contains_key(
                ((k.0 - 1) as usize, k.1),
            )),
        |k: (usize, usize)| if k.0 < i { m[k] } else { m[((k.0 - 1) as usize, k.1)] },
    )
}

/// The map after the column at `d` is deleted, symmetric to `row_deleted_map`.
pub open spec fn col_deleted_map<V>(m: Map<(usize, usize), V>, d: usize) -> Map<
    (usize, usize),
    V,
> {
    Map::new(
        |k: (usize, usize)|
            (k.1 < d && m.contains_key(k)) || (d <= k.1 < usize::MAX && m.contains_key(
                (k.0, (k.1 + 1) as usize),
            )),
        |k: (usize, usize)| if k.1 < d { m[k] } else { m[(k.0, (k.1 + 1) as usize)] },
    )
}

/// The map after a column is inserted at `i`, symmetric to `row_inserted_map`.
pub open spec fn col_inserted_map<V>(m: Map<(usize, usize), V>, i: usize) -> Map<
    (usize, usize),
    V,
> {
    Map::new(
        |k: (usize, usize)|
            (k.1 < i && m.contains_key(k)) || (k.1 > i && m.contains_key(
                (k.0, (k.1 - 1) as usize),
            )),
        |k: (usize, usize)| if k.1 < i { m[k] } else { m[(k.0, (k.1 - 1) as usize)] },
    )
}

/// The entry list after deleting row `d`, mirroring `row_deleted_map`.
pub open spec fn row_deleted_seq<V>(s: Seq<Entry<V>>, d: usize) -> Seq<Entry<V>>
    decreases s.len(),
{
    if s.len() == 0 {
        Seq::empty()
    } else {
        let rest = row_deleted_seq(s.drop_last(), d);
        let e = s.last();
        if e.row > d {
            rest.push(Entry { row: (e.row - 1) as usize, col: e.col, val: e.val })
        } else if e.row < d {
            rest.push(e)
        } else {
            rest
        }
    }
}

pub open spec fn row_inserted_seq<V>(s: Seq<Entry<V>>, i: usize) -> Seq<Entry<V>>
    decreases s.len(),
{
    if s.len() == 0 {
        Seq::empty()
    } else {
        let rest = row_inserted_seq(s.drop_last(), i);
        let e = s.last();
        if e.row >= i && e.row < usize::MAX {
            rest.push(Entry { row: (e.row + 1) as usize, col: e.col, val: e.val })
        } else if e.row < i {
            rest.push(e)
        } else {
            rest
        }
    }
}

pub open spec fn col_deleted_seq<V>(s: Seq<Entry<V>>, d: usize) -> Seq<Entry<V>>
    decreases s.len(),
{
    if s.len() == 0 {
        Seq::empty()
    } else {
        let rest = col_deleted_seq(s.drop_last(), d);
        let e = s.last();
        if e.col > d {
            rest.push(Entry { row: e.row, col: (e.col - 1) as usize, val: e.val })
        } else if e.col < d {
            rest.push(e)
        } else {
            rest
        }
    }
}

pub open spec fn col_inserted_seq<V>(s: Seq<Entry<V>>, i: usize) -> Seq<Entry<V>>
    decreases s.len(),
{
    if s.len() == 0 {
        Seq::empty()
    } else {
        let rest = col_inserted_seq(s.drop_last(), i);
        let e = s.last();
        if e.col >= i && e.col < usize::MAX {
            rest.push(Entry { row: e.row, col: (e.col + 1) as usize, val: e.val })
        } else if e.col < i {
            rest.push(e)
        } else {
            rest
        }
    }
}

proof fn lemma_row_deleted<V>(s: Seq<Entry<V>>, d: usize)
    requires
        distinct_keys(s),
    ensures
        distinct_keys(row_deleted_seq(s, d)),
        map_of(row_deleted_seq(s, d)) == row_deleted_map(map_of(s), d),
    decreases s.len(),
{
    let t = row_deleted_seq(s, d);
    if s.len() == 0 {
        assert(map_of(t) =~= row_deleted_map(map_of(s), d));
    } else {
        let s0 = s.drop_last();
        let e = s.last();
        lemma_row_deleted(s0, d);
        let t0 = row_deleted_seq(s0, d);
        lemma_has_key(s0, entry_key(e));
        if e.row > d {
            let e2 = Entry { row: (e.row - 1) as usize, col: e.col, val: e.val };
            lemma_has_key(t0, entry_key(e2));
            assert(!seq_has_key(t0, entry_key(e2)));
            lemma_push(t0, e2);
            assert(map_of(t) =~= row_deleted_map(map_of(s), d));
        } else if e.row < d {
            lemma_has_key(t0, entry_key(e));
            assert(!seq_has_key(t0, entry_key(e)));
            lemma_push(t0, e);
            assert(map_of(t) =~= row_deleted_map(map_of(s), d));
        } else {
            assert(map_of(t) =~= row_deleted_map(map_of(s), d));
        }
    }
}

proof fn lemma_row_inserted<V>(s: Seq<Entry<V>>, i: usize)
    requires
        distinct_keys(s),
        forall|j: int| 0 <= j < s.len() ==> (#[trigger] s[j]).row < usize::MAX,
    ensures
        distinct_keys(row_inserted_seq(s, i)),
        map_of(row_inserted_seq(s, i)) == row_inserted_map(map_of(s), i),
    decreases s.len(),
{
    let t = row_inserted_seq(s, i);
    if s.len() == 0 {
        assert(map_of(t) =~= row_inserted_map(map_of(s), i));
    } else {
        let s0 = s.drop_last();
        let e = s.last();
        assert(e == s[s.len() - 1]);
        lemma_row_inserted(s0, i);
        let t0 = row_inserted_seq(s0, i);
        lemma_has_key(s0, entry_key(e));
        if e.row >= i {
            let e2 = Entry { row: (e.row + 1) as usize, col: e.col, val: e.val };
            lemma_has_key(t0, entry_key(e2));
            assert(!seq_has_key(t0, entry_key(e2)));
            lemma_push(t0, e2);
            assert(map_of(t) =~= row_inserted_map(map_of(s), i));
        } else {
            lemma_has_key(t0, entry_key(e));
            assert(!seq_has_key(t0, entry_key(e)));
            lemma_push(t0, e);
            assert(map_of(t) =~= row_inserted_map(map_of(s), i));
        }
    }
}

proof fn lemma_col_deleted<V>(s: Seq<Entry<V>>, d: usize)
    requires
        distinct_keys(s),
    ensures
        distinct_keys(col_deleted_seq(s, d)),
        map_of(col_deleted_seq(s, d)) == col_deleted_map(map_of(s), d),
    decreases s.len(),
{
    let t = col_deleted_seq(s, d);
    if s.len() == 0 {
        assert(map_of(t) =~= col_deleted_map(map_of(s), d));
    } else {
        let s0 = s.drop_last();
        let e = s.last();
        lemma_col_deleted(s0, d);
        let t0 = col_deleted_seq(s0, d);
        lemma_has_key(s0, entry_key(e));
        if e.col > d {
            let e2 = Entry { row: e.row, col: (e.col - 1) as usize, val: e.val };
            lemma_has_key(t0, entry_key(e2));
            assert(!seq_has_key(t0, entry_key(e2)));
            lemma_push(t0, e2);
            assert(map_of(t) =~= col_deleted_map(map_of(s), d));
        } else if e.col < d {
            lemma_has_key(t0, entry_key(e));
            assert(!seq_has_key(t0, entry_key(e)));
            lemma_push(t0, e);
            assert(map_of(t) =~= col_deleted_map(map_of(s), d));
        } else {
            assert(map_of(t) =~= col_deleted_map(map_of(s), d));
        }
    }
}

proof fn lemma_col_inserted<V>(s: Seq<Entry<V>>, i: usize)
    requires
        distinct_keys(s),
        forall|j: int| 0 <= j < s.len() ==> (#[trigger] s[j]).col < usize::MAX,
    ensures
        distinct_keys(col_inserted_seq(s, i)),
        map_of(col_inserted_seq(s, i)) == col_inserted_map(map_of(s), i),
    decreases s.len(),
{
    let t = col_inserted_seq(s, i);
    if s.len() == 0 {
        assert(map_of(t) =~= col_inserted_map(map_of(s), i));
    } else {
        let s0 = s.drop_last();
        let e = s.last();
        assert(e == s[s.len() - 1]);
        lemma_col_inserted(s0, i);
        let t0 = col_inserted_seq(s0, i);
        lemma_has_key(s0, entry_key(e));
        if e.col >= i {
            let e2 = Entry { row: e.row, col: (e.col + 1) as usize, val: e.val };
            lemma_has_key(t0, entry_key(e2));
            assert(!seq_has_key(t0, entry_key(e2)));
            lemma_push(t0, e2);
            assert(map_of(t) =~= col_inserted_map(map_of(s), i));
        } else {
            lemma_has_key(t0, entry_key(e));
            assert(!seq_has_key(t0, entry_key(e)));
            lemma_push(t0, e);
            assert(map_of(t) =~= col_inserted_map(map_of(s), i));
        }
    }
}

impl<V: Copy> CellMap<V> {
    /// The stored entries, in insertion order.
    pub fn entries(&self) -> (r: Vec<Entry<V>>)
        requires
            self.wf(),
        ensures
            distinct_keys(r@),
            map_of(r@) == self@,
    {
        let n = self.cells.len();
        let mut r: Vec<Entry<V>> = Vec::new();
        let mut i: usize = 0;
        while i < n
            invariant
                i <= n,
                n == self.cells@.len(),
                r@ =~= self.cells@.take(i as int),
            decreases n - i,
        {
            r.push(self.cells[i]);
            i += 1;
        }
        proof {
            assert(r@ =~= self.cells@);
        }
        r
    }

    /// Re-key every entry after the row at `deleted_row` is removed.
    pub fn shift_rows_up(&mut self, deleted_row: usize)
        requires
            old(self).wf(),
        ensures
            final(self).wf(),
            final(self)@ == row_deleted_map(old(self)@, deleted_row),
    {
        let mut out: Vec<Entry<V>> = Vec::new();
        let n = self.cells.len();
        let mut i: usize = 0;
        while i < n
            invariant
                i <= n,
                n == self.cells@.len(),
                self == old(self),
                out@ == row_deleted_seq(self.cells@.take(i as int), deleted_row),
            decreases n - i,
        {
            let e = self.cells[i];
            proof {
                assert(self.cells@.take(i as int + 1).drop_last() =~= self.cells@.take(i as int));
                assert(self.cells@.take(i as int + 1).last() == e);
            }
            if e.row > deleted_row {
                out.push(Entry { row: e.row - 1, col: e.col, val: e.val });
            } else if e.row < deleted_row {
                out.push(e);
            }
            i += 1;
        }
        proof {
            assert(self.cells@.take(n as int) =~= self.cells@);
            lemma_row_deleted(self.cells@, deleted_row);
        }
        self.cells = out;
    }

    /// Re-key every entry after a row is inserted at `inserted_row`.
    pub fn shift_rows_down(&mut self, inserted_row: usize)
        requires
            old(self).wf(),
            forall|k: (usize, usize)| old(self)@.contains_key(k) ==> k.0 < usize::MAX,
        ensures
            final(self).wf(),
            final(self)@ == row_inserted_map(old(self)@, inserted_row),
    {
        proof {
            assert forall|j: int| 0 <= j < self.cells@.len() implies (
            #[trigger] self.cells@[j]).row < usize::MAX by {
                lemma_index_has(self.cells@, j);
                lemma_has_key(self.cells@, entry_key(self.cells@[j]));
                assert(old(self)@.contains_key(entry_key(self.cells@[j])));
            }
        }
        let mut out: Vec<Entry<V>> = Vec::new();
        let n = self.cells.len();
        let mut i: usize = 0;
        while i < n
            invariant
                i <= n,
                n == self.cells@.len(),
                self == old(self),
                forall|j: int| 0 <= j < n ==> (#[trigger] self.cells@[j]).row < usize::MAX,
                out@ == row_inserted_seq(self.cells@.take(i as int), inserted_row),
            decreases n - i,
        {
            let e = self.cells[i];
            proof {
                assert(self.cells@.take(i as int + 1).drop_last() =~= self.cells@.take(i as int));
                assert(self.cells@.take(i as int + 1).last() == e);
            }
            if e.row >= inserted_row {
                out.push(Entry { row: e.row + 1, col: e.col, val: e.val });
            } else {
                out.push(e);
            }
            i += 1;
        }
        proof {
            assert(self.cells@.take(n as int) =~= self.cells@);
            lemma_row_inserted(self.cells@, inserted_row);
        }
        self.cells = out;
    }

    /// Re-key every entry after the column at `deleted_col` is removed.
    pub fn shift_cols_left(&mut self, deleted_col: usize)
        requires
            old(self).wf(),
        ensures
            final(self).wf(),
            final(self)@ == col_deleted_map(old(self)@, deleted_col),
    {
        let mut out: Vec<Entry<V>> = Vec::new();
        let n = self.cells.len();
        let mut i: usize = 0;
        while i < n
            invariant
                i <= n,
                n == self.cells@.len(),
                self == old(self),
                out@ == col_deleted_seq(self.cells@.take(i as int), deleted_col),
            decreases n - i,
        {
            let e = self.cells[i];
            proof {
                assert(self.cells@.take(i as int + 1).drop_last() =~= self.cells@.take(i as int));
                assert(self.cells@.take(i as int + 1).last() == e);
            }
            if e.col > deleted_col {
                out.push(Entry { row: e.row, col: e.col - 1, val: e.val });
            } else if e.col < deleted_col {
                out.push(e);
            }
            i += 1;
        }
        proof {
            assert(self.cells@.take(n as int) =~= self.cells@);
            lemma_col_deleted(self.cells@, deleted_col);
        }
        self.cells = out;
    }

    /// Re-key every entry after a column is inserted at `inserted_col`.
    pub fn shift_cols_right(&mut self, inserted_col: usize)
        requires
            old(self).wf(),
            forall|k: (usize, usize)| old(self)@.contains_key(k) ==> k.1 < usize::MAX,
        ensures
            final(self).wf(),
            final(self)@ == col_inserted_map(old(self)@, inserted_col),
    {
        proof {
            assert forall|j: int| 0 <= j < self.cells@.len() implies (
            #[trigger] self.cells@[j]).col < usize::MAX by {
                lemma_index_has(self.cells@, j);
                lemma_has_key(self.cells@, entry_key(self.cells@[j]));
                assert(old(self)@.contains_key(entry_key(self.cells@[j])));
            }
        }
        let mut out: Vec<Entry<V>> = Vec::new();
        let n = self.cells.len();
        let mut i: usize = 0;
        while i < n
            invariant
                i <= n,
                n == self.cells@.len(),
                self == old(self),
                forall|j: int| 0 <= j < n ==> (#[trigger] self.cells@[j]).col < usize::MAX,
                out@ == col_inserted_seq(self.cells@.take(i as int), inserted_col),
            decreases n - i,
        {
            let e = self.cells[i];
            proof {
                assert(self.cells@.take(i as int + 1).drop_last() =~= self.cells@.take(i as int));
                assert(self.cells@.take(i as int + 1).last() == e);
            }
            if e.col >= inserted_col {
                out.push(Entry { row: e.row, col: e.col + 1, val: e.val });
            } else {
                out.push(e);
            }
            i += 1;
        }
        proof {
            assert(self.cells@.take(n as int) =~= self.cells@);
            lemma_col_inserted(self.cells@, inserted_col);
        }
        self.cells = out;
    }
}

pub proof fn lemma_dom_len<V>(s: Seq<Entry<V>>)
    requires
        distinct_keys(s),
    ensures
        map_of(s).dom().len() == s.len(),
        map_of(s).dom().finite(),
    decreases s.len(),
{
    if s.len() > 0 {
        lemma_dom_len(s.drop_last());
        lemma_has_key(s.drop_last(), entry_key(s.last()));
        assert(map_of(s).dom() =~= map_of(s.drop_last()).dom().insert(entry_key(s.last())));
    }
}

} // verus!
