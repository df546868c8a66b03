//! Record store over a byte buffer: a single quote-aware scan finds every
//! record boundary once, and records are then served by index in constant
//! time. A synthetic empty store (declared row and column counts, no bytes)
//! backs newly created documents.
use vstd::prelude::*;

verus! {

/// Whether position `pos` lies inside a quoted span: the parity of the quote
/// bytes strictly before it.
pub open spec fn quote_parity(data: Seq<u8>, pos: int) -> bool
    decreases pos,
{
    if pos <= 0 {
        false
    } else if data[pos - 1] == 34 {
        !quote_parity(data, pos - 1)
    } else {
        quote_parity(data, pos - 1)
    }
}

/// The scan from position `i` onward: a newline outside quotes ends the
/// current record and starts the next at the following byte, when one exists.
pub open spec fn index_rec(data: Seq<u8>, i: int, in_q: bool, acc: Seq<usize>) -> Seq<usize>
    decreases data.len() - i,
{
    if i < 0 || i >= data.len() {
        acc
    } else if data[i] == 34 {
        index_rec(data, i + 1, !in_q, acc)
    } else if data[i] == 10 && !in_q && i + 1 < data.len() {
        index_rec(data, i + 1, in_q, acc.push((i + 1) as usize))
    } else {
        index_rec(data, i + 1, in_q, acc)
    }
}

/// The record offset table of a byte buffer: one starting offset per record,
/// strictly increasing, beginning at zero; empty for an empty buffer.
pub open spec fn record_offsets(data: Seq<u8>) -> Seq<usize> {
    if data.len() == 0 {
        Seq::empty()
    } else {
        index_rec(data, 0, false, seq![0usize])
    }
}

/// An offset is either the start of the buffer or just after a newline that
/// lies outside every quoted span.
pub open spec fn offset_ok(data: Seq<u8>, o: usize) -> bool {
    o == 0 || (data[o - 1] == 10 && !quote_parity(data, o - 1))
}

proof fn lemma_index_rec_props(data: Seq<u8>, i: int, in_q: bool, acc: Seq<usize>)
    requires
        data.len() <= usize::MAX,
        0 <= i <= data.len(),
        in_q == quote_parity(data, i),
        acc.len() >= 1,
        forall|j1: int, j2: int| 0 <= j1 < j2 < acc.len() ==> acc[j1] < acc[j2],
        forall|j: int| 0 <= j < acc.len() ==> #[trigger] acc[j] < data.len(),
        acc.last() <= i,
        forall|j: int| 0 <= j < acc.len() ==> offset_ok(data, #[trigger] acc[j]),
    ensures
        ({
            let r = index_rec(data, i, in_q, acc);
            &&& r.len() >= acc.len()
            &&& r.subrange(0, acc.len() as int) == acc
            &&& forall|j1: int, j2: int| 0 <= j1 < j2 < r.len() ==> r[j1] < r[j2]
            &&& forall|j: int| 0 <= j < r.len() ==> #[trigger] r[j] < data.len()
            &&& forall|j: int| 0 <= j < r.len() ==> offset_ok(data, #[trigger] r[j])
        }),
    decreases data.len() - i,
{
    if i >= data.len() {
        assert(index_rec(data, i, in_q, acc).subrange(0, acc.len() as int) =~= acc);
    } else if data[i] == 34 {
        lemma_index_rec_props(data, i + 1, !in_q, acc);
    } else if data[i] == 10 && !in_q && i + 1 < data.len() {
        let acc2 = acc.push((i + 1) as usize);
        assert(forall|j: int| 0 <= j < acc.len() ==> acc2[j] == acc[j]);
        assert(acc2[acc.len() as int] == (i + 1) as usize);
        assert(((i + 1) as usize) as int == i + 1);
        assert(offset_ok(data, (i + 1) as usize));
        lemma_index_rec_props(data, i + 1, in_q, acc2);
        let r = index_rec(data, i + 1, in_q, acc2);
        assert(r.subrange(0, acc.len() as int) =~= acc2.subrange(0, acc2.len() as int).subrange(
            0,
            acc.len() as int,
        ));
        assert(r.subrange(0, acc.len() as int) =~= acc);
    } else {
        lemma_index_rec_props(data, i + 1, in_q, acc);
    }
}

/// The offset table's shape: for a nonempty buffer there is at least one
/// record, the first offset is zero, offsets are strictly increasing and lie
/// within the buffer, and every interior offset starts just after an
/// unquoted newline — so a newline inside a quoted field never splits a
/// record.
pub proof fn lemma_offsets_shape(data: Seq<u8>)
    requires
        data.len() <= usize::MAX,
    ensures
        data.len() == 0 ==> record_offsets(data).len() == 0,
        data.len() > 0 ==> record_offsets(data).len() >= 1 && record_offsets(data)[0] == 0,
        forall|j1: int, j2: int|
            0 <= j1 < j2 < record_offsets(data).len() ==> record_offsets(data)[j1]
                < record_offsets(data)[j2],
        forall|j: int|
            0 <= j < record_offsets(data).len() ==> #[trigger] record_offsets(data)[j]
                < data.len(),
        forall|j: int|
            0 <= j < record_offsets(data).len() ==> offset_ok(
                data,
                #[trigger] record_offsets(data)[j],
            ),
{
    if data.len() > 0 {
        lemma_index_rec_props(data, 0, false, seq![0usize]);
        let r = index_rec(data, 0, false, seq![0usize]);
        assert(r.subrange(0, 1)[0] == r[0]);
    }
}

/// The raw bytes of record `i` under offset table `offs`: from its offset to
/// the next offset, or to the end of the buffer for the last record.
pub open spec fn record_span(data: Seq<u8>, offs: Seq<usize>, i: int) -> Seq<u8> {
    let start = offs[i] as int;
    let end = if i + 1 < offs.len() {
        offs[i + 1] as int
    } else {
        data.len() as int
    };
    data.subrange(start, end)
}

/// The concatenation of the first `i` record spans.
pub open spec fn concat_spans(data: Seq<u8>, offs: Seq<usize>, i: int) -> Seq<u8>
    decreases i,
{
    if i <= 0 {
        Seq::empty()
    } else {
        concat_spans(data, offs, i - 1) + record_span(data, offs, i - 1)
    }
}

proof fn lemma_concat_prefix(data: Seq<u8>, i: int)
    requires
        data.len() <= usize::MAX,
        data.len() > 0,
        0 <= i <= record_offsets(data).len(),
    ensures
        concat_spans(data, record_offsets(data), i) == (if i < record_offsets(data).len() {
            data.subrange(0, record_offsets(data)[i] as int)
        } else {
            data
        }),
    decreases i,
{
    let offs = record_offsets(data);
    lemma_offsets_shape(data);
    if i == 0 {
        assert(concat_spans(data, offs, 0) =~= data.subrange(0, 0));
    } else {
        lemma_concat_prefix(data, i - 1);
        if i < offs.len() {
            assert(data.subrange(0, offs[i - 1] as int) + data.subrange(
                offs[i - 1] as int,
                offs[i] as int,
            ) =~= data.subrange(0, offs[i] as int));
        } else {
            assert(data.subrange(0, offs[i - 1] as int) + data.subrange(
                offs[i - 1] as int,
                data.len() as int,
            ) =~= data);
        }
    }
}

/// Concatenating all record spans reconstructs the buffer exactly: the table
/// covers every byte once, with no gaps and no overlaps.
pub proof fn lemma_records_reconstruct(data: Seq<u8>)
    requires
        data.len() <= usize::MAX,
    ensures
        concat_spans(data, record_offsets(data), record_offsets(data).len() as int) == data,
{
    if data.len() == 0 {
        assert(concat_spans(data, record_offsets(data), 0) =~= data);
    } else {
        lemma_offsets_shape(data);
        lemma_concat_prefix(data, record_offsets(data).len() as int);
    }
}

/// The column count of a record's bytes: one more than the number of commas
/// outside quoted spans.
pub open spec fn cols_rec(s: Seq<u8>, j: int, in_q: bool, cnt: int) -> int
    decreases s.len() - j,
{
    if j < 0 || j >= s.len() {
        cnt
    } else if s[j] == 34 {
        cols_rec(s, j + 1, !in_q, cnt)
    } else if s[j] == 44 && !in_q {
        cols_rec(s, j + 1, in_q, cnt + 1)
    } else {
        cols_rec(s, j + 1, in_q, cnt)
    }
}

pub open spec fn cols_of(s: Seq<u8>) -> int {
    cols_rec(s, 0, false, 1)
}

/// Store over a byte buffer plus its record offset table, or a synthetic
/// empty store with declared dimensions and no bytes.
#[derive(Debug)]
pub struct CsvLoader {
    data: Vec<u8>,
    record_offsets: Vec<usize>,
    total_records: usize,
    declared_cols: Option<usize>,
}

impl CsvLoader {
    pub closed spec fn bytes(self) -> Seq<u8> {
        self.data@
    }

    pub closed spec fn offsets(self) -> Seq<usize> {
        self.record_offsets@
    }

    pub closed spec fn spec_total(self) -> int {
        self.total_records as int
    }

    pub closed spec fn spec_declared_cols(self) -> Option<usize> {
        self.declared_cols
    }

    /// A store is either file-backed — its table is the scan of its bytes —
    /// or synthetic: no bytes, declared dimensions.
    pub closed spec fn wf(self) -> bool {
        match self.declared_cols {
            None => self.record_offsets@ == record_offsets(self.data@) && self.total_records
                == self.record_offsets@.len(),
            Some(_) => self.record_offsets@.len() == 0 && self.data@.len() == 0,
        }
    }

    /// Scan a buffer once and return the start offset of every record.
    pub fn build_index(data: &Vec<u8>) -> (r: Vec<usize>)
        ensures
            r@ == record_offsets(data@),
    {
        let mut offs: Vec<usize> = Vec::new();
        let n = data.len();
        if n == 0 {
            return offs;
        }
        offs.push(0);
        let mut in_q: bool = false;
        let mut i: usize = 0;
        proof {
            assert(offs@ =~= seq![0usize]);
        }
        while i < n
            invariant
                i <= n,
                n == data@.len(),
                n > 0,
                record_offsets(data@) == index_rec(data@, i as int, in_q, offs@),
            decreases n - i,
        {
            let b = data[i];
            if b == 34 {
                in_q = !in_q;
            } else if b == 10 && !in_q && i + 1 < n {
                offs.push(i + 1);
            }
            i += 1;
        }
        offs
    }

    /// Build a file-backed store from the file's bytes.
    pub fn from_bytes(data: Vec<u8>) -> (r: Self)
        ensures
            r.wf(),
            r.bytes() == data@,
            r.offsets() == record_offsets(data@),
            r.spec_total() == record_offsets(data@).len(),
            r.spec_declared_cols() is None,
    {
        let offsets = Self::build_index(&data);
        let total = offsets.len();
        CsvLoader { data, record_offsets: offsets, total_records: total, declared_cols: None }
    }

    /// Build a synthetic empty store with declared dimensions and no bytes.
    pub fn empty(rows: usize, cols: usize) -> (r: Self)
        ensures
            r.wf(),
            r.bytes() == Seq::<u8>::empty(),
            r.offsets() == Seq::<usize>::empty(),
            r.spec_total() == rows,
            r.spec_declared_cols() == Some(cols),
    {
        let r = CsvLoader {
            data: Vec::new(),
            record_offsets: Vec::new(),
            total_records: rows,
            declared_cols: Some(cols),
        };
        proof {
            assert(r.bytes() =~= Seq::<u8>::empty());
            assert(r.offsets() =~= Seq::<usize>::empty());
        }
        r
    }

    /// The raw bytes of record `index`, newline included except at end of
    /// input; `None` out of range.
    pub fn get_record_line(&self, index: usize) -> (r: Option<Vec<u8>>)
        requires
            self.wf(),
        ensures
            r is Some <==> index < self.offsets().len(),
            r matches Some(v) ==> v@ == record_span(self.bytes(), self.offsets(), index as int),
    {
        if index >= self.record_offsets.len() {
            return None;
        }
        proof {
            assert(self.data@.len() == self.data.len());
            lemma_offsets_shape(self.data@);
        }
        let start = self.record_offsets[index];
        let end = if index + 1 < self.record_offsets.len() {
            self.record_offsets[index + 1]
        } else {
            self.data.len()
        };
        let mut out: Vec<u8> = Vec::new();
        let mut k: usize = start;
        while k < end
            invariant
                start <= k <= end,
                end <= self.data@.len(),
                out@ =~= self.data@.subrange(start as int, k as int),
            decreases end - k,
        {
            out.push(self.data[k]);
            k += 1;
        }
        Some(out)
    }

    /// Total record count: the table length, or the declared row count of a
    /// synthetic store.
    pub fn total_records(&self) -> (r: usize)
        ensures
            r == self.spec_total(),
    {
        self.total_records
    }

    /// The declared column count of a synthetic store, else a quote-aware
    /// comma count over the first record; zero with no records.
    pub open spec fn spec_num_columns(self) -> int {
        match self.spec_declared_cols() {
            Some(c) => c as int,
            None => if self.offsets().len() > 0 {
                cols_of(record_span(self.bytes(), self.offsets(), 0))
            } else {
                0
            },
        }
    }

    pub fn num_columns(&self) -> (r: usize)
        requires
            self.wf(),
            self.bytes().len() < usize::MAX,
        ensures
            r == self.spec_num_columns(),
    {
        match self.declared_cols {
            Some(c) => c,
            None => {
                if self.record_offsets.len() == 0 {
                    return 0;
                }
                let line = self.get_record_line(0).unwrap();
                proof {
                    assert(self.data@.len() == self.data.len());
                    lemma_offsets_shape(self.bytes());
                }
                let n = line.len();
                let mut count: usize = 1;
                let mut in_q: bool = false;
                let mut j: usize = 0;
                while j < n
                    invariant
                        j <= n,
                        n == line@.len(),
                        n <= self.bytes().len(),
                        count <= 1 + j,
                        cols_of(line@) == cols_rec(line@, j as int, in_q, count as int),
                    decreases n - j,
                {
                    let b = line[j];
                    if b == 34 {
                        in_q = !in_q;
                    } else if b == 44 && !in_q {
                        count += 1;
                    }
                    j += 1;
                }
                count
            },
        }
    }
}

pub open spec fn max_i(a: int, b: int) -> int {
    if a >= b {
        a
    } else {
        b
    }
}

/// Per-column maximum field lengths after scanning one record's bytes,
/// starting in column `col` with `cur` bytes of the current field seen.
pub open spec fn scan_line_rec(
    s: Seq<u8>,
    j: int,
    in_q: bool,
    col: int,
    cur: int,
    lens: Seq<int>,
) -> Seq<int>
    decreases s.len() - j,
{
    if j < 0 || j >= s.len() {
        if 0 <= col < lens.len() {
            lens.update(col, max_i(lens[col], cur))
        } else {
            lens
        }
    } else if s[j] == 34 {
        scan_line_rec(s, j + 1, !in_q, col, cur, lens)
    } else if s[j] == 44 && !in_q {
        let l2 = if 0 <= col < lens.len() {
            lens.update(col, max_i(lens[col], cur))
        } else {
            lens
        };
        scan_line_rec(s, j + 1, in_q, col + 1, 0, l2)
    } else {
        scan_line_rec(s, j + 1, in_q, col, cur + 1, lens)
    }
}

/// Per-column maximum field lengths over records `i..upto`.
pub open spec fn scan_records_rec(
    data: Seq<u8>,
    offs: Seq<usize>,
    i: int,
    upto: int,
    lens: Seq<int>,
) -> Seq<int>
    decreases upto - i,
{
    if i >= upto {
        lens
    } else {
        scan_records_rec(
            data,
            offs,
            i + 1,
            upto,
            scan_line_rec(record_span(data, offs, i), 0, false, 0, 0, lens),
        )
    }
}

/// A column's display width in pixels for a maximum field length: eight
/// pixels per byte, clamped to [50, 400].
pub open spec fn width_of(len: int) -> int {
    if 8 * len < 50 {
        50
    } else if 8 * len > 400 {
        400
    } else {
        8 * len
    }
}

proof fn lemma_scan_snoc(data: Seq<u8>, offs: Seq<usize>, a: int, b: int, lens: Seq<int>)
    requires
        a <= b,
    ensures
        scan_records_rec(data, offs, a, b + 1, lens) == scan_line_rec(
            record_span(data, offs, b),
            0,
            false,
            0,
            0,
            scan_records_rec(data, offs, a, b, lens),
        ),
    decreases b - a,
{
    let first = scan_line_rec(record_span(data, offs, a), 0, false, 0, 0, lens);
    if a < b {
        lemma_scan_snoc(data, offs, a + 1, b, first);
    } else {
        assert(scan_records_rec(data, offs, a, b + 1, lens) == scan_records_rec(
            data,
            offs,
            a + 1,
            b + 1,
            first,
        ));
        assert(scan_records_rec(data, offs, a + 1, b + 1, first) == first);
        assert(scan_records_rec(data, offs, a, b, lens) == lens);
    }
}

impl CsvLoader {
    /// Estimated per-column display widths: a scan of up to the first hundred
    /// records tracks the longest field per column (ten bytes at least), and
    /// each length maps to a clamped pixel width.
    pub open spec fn spec_widths(self) -> Seq<int> {
        let nc = self.spec_num_columns();
        if nc == 0 {
            Seq::empty()
        } else {
            let scan = if self.spec_total() < 100 {
                self.spec_total()
            } else {
                100
            };
            let upto = if scan < self.offsets().len() {
                scan
            } else {
                self.offsets().len() as int
            };
            let lens = scan_records_rec(
                self.bytes(),
                self.offsets(),
                0,
                upto,
                Seq::new(nc as nat, |k: int| 10),
            );
            lens.map_values(|l: int| width_of(l))
        }
    }

    pub fn estimate_column_widths(&self) -> (r: Vec<u32>)
        requires
            self.wf(),
            self.bytes().len() < usize::MAX,
        ensures
            r@.len() == self.spec_widths().len(),
            forall|k: int| 0 <= k < r@.len() ==> r@[k] as int == self.spec_widths()[k],
    {
        let num_cols = self.num_columns();
        if num_cols == 0 {
            return Vec::new();
        }
        let mut max_lens: Vec<usize> = Vec::new();
        let mut k: usize = 0;
        while k < num_cols
            invariant
                k <= num_cols,
                max_lens@.len() == k,
                forall|t: int| 0 <= t < k ==> max_lens@[t] == 10usize,
            decreases num_cols - k,
        {
            max_lens.push(10);
            k += 1;
        }
        let ghost init: Seq<int> = Seq::new(num_cols as nat, |t: int| 10);
        proof {
            assert(max_lens@.map_values(|v: usize| v as int) =~= init);
        }
        let records_to_scan = if self.total_records < 100 {
            self.total_records
        } else {
            100
        };
        let bound = if records_to_scan < self.record_offsets.len() {
            records_to_scan
        } else {
            self.record_offsets.len()
        };
        let ghost upto = bound as int;
        let mut i: usize = 0;
        while i < bound
            invariant
                i <= bound,
                self.wf(),
                self.bytes().len() < usize::MAX,
                bound <= self.offsets().len(),
                upto == bound as int,
                max_lens@.len() == num_cols,
                max_lens@.map_values(|v: usize| v as int) == scan_records_rec(
                    self.bytes(),
                    self.offsets(),
                    0,
                    i as int,
                    init,
                ),
            decreases bound - i,
        {
            let line = self.get_record_line(i).unwrap();
            proof {
                assert(self.data@.len() == self.data.len());
                lemma_offsets_shape(self.bytes());
            }
            let n = line.len();
            let ghost lens_in: Seq<int> = max_lens@.map_values(|v: usize| v as int);
            let mut col_idx: usize = 0;
            let mut in_q: bool = false;
            let mut cur: usize = 0;
            let mut j: usize = 0;
            while j < n
                invariant
                    j <= n,
                    n == line@.len(),
                    n <= self.bytes().len(),
                    cur <= j,
                    col_idx <= j,
                    max_lens@.len() == num_cols,
                    scan_line_rec(line@, j as int, in_q, col_idx as int, cur as int, max_lens@.map_values(|v: usize| v as int))
                        == scan_line_rec(line@, 0, false, 0, 0, lens_in),
                decreases n - j,
            {
                let b = line[j];
                if b == 34 {
                    in_q = !in_q;
                } else if b == 44 && !in_q {
                    let ghost pre = max_lens@.map_values(|v: usize| v as int);
                    if col_idx < num_cols {
                        let old_len = max_lens[col_idx];
                        let new_len = if old_len >= cur {
                            old_len
                        } else {
                            cur
                        };
                        max_lens.set(col_idx, new_len);
                        proof {
                            assert(max_lens@.map_values(|v: usize| v as int) =~= pre.update(
                                col_idx as int,
                                max_i(pre[col_idx as int], cur as int),
                            ));
                        }
                    }
                    col_idx += 1;
                    cur = 0;
                } else {
                    cur += 1;
                }
                j += 1;
            }
            let ghost pre = max_lens@.map_values(|v: usize| v as int);
            if col_idx < num_cols {
                let old_len = max_lens[col_idx];
                let new_len = if old_len >= cur {
                    old_len
                } else {
                    cur
                };
                max_lens.set(col_idx, new_len);
                proof {
                    assert(max_lens@.map_values(|v: usize| v as int) =~= pre.update(
                        col_idx as int,
                        max_i(pre[col_idx as int], cur as int),
                    ));
                }
            }
            proof {
                assert(max_lens@.map_values(|v: usize| v as int) == scan_line_rec(
                    line@,
                    0,
                    false,
                    0,
                    0,
                    lens_in,
                ));
                lemma_scan_snoc(self.bytes(), self.offsets(), 0, i as int, init);
            }
            i += 1;
        }
        let mut r: Vec<u32> = Vec::new();
        let mut k2: usize = 0;
        let ghost lens_fin: Seq<int> = max_lens@.map_values(|v: usize| v as int);
        while k2 < num_cols
            invariant
                k2 <= num_cols,
                max_lens@.len() == num_cols,
                lens_fin == max_lens@.map_values(|v: usize| v as int),
                r@.len() == k2,
                forall|t: int| 0 <= t < k2 ==> r@[t] as int == width_of(lens_fin[t]),
            decreases num_cols - k2,
        {
            let len = max_lens[k2];
            let w: u32 = if len >= 50 {
                400
            } else {
                let w8 = 8 * len;
                if w8 < 50 {
                    50
                } else {
                    w8 as u32
                }
            };
            r.push(w);
            k2 += 1;
        }
        proof {
            assert(self.spec_widths() =~= lens_fin.map_values(|l: int| width_of(l)));
        }
        r
    }
}

} // verus!
