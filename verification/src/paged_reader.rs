//! Windowed reading over a record store: a bounded page of records is decoded
//! to text per request, so a consumer's page size is decoupled from the size
//! of the underlying data.
use crate::loader::{record_span, CsvLoader};
use std::sync::Arc;
use vstd::prelude::*;

verus! {

/// The text `String::from_utf8_lossy` decodes from the given bytes; a
/// function of the bytes alone.
pub uninterp spec fn lossy_of(bytes: Seq<u8>) -> Seq<char>;

/// Relies on `String::from_utf8_lossy`: the result is a function of the bytes
/// alone, and valid UTF-8 decodes to exactly the text it encodes.
#[verifier::external_body]
fn utf8_lossy(bytes: &Vec<u8>) -> (r: String)
    ensures
        r@ == lossy_of(bytes@),
        vstd::utf8::valid_utf8(bytes@) ==> r@ == vstd::utf8::decode_utf8(bytes@),
{
    String::from_utf8_lossy(bytes).into_owned()
}

/// The decoded records `start .. end`, stopping early where the store has no
/// record.
pub open spec fn spec_rows(l: CsvLoader, start: int, end: int) -> Seq<Seq<char>>
    decreases end - start,
{
    if start >= end {
        Seq::empty()
    } else if start < l.offsets().len() {
        seq![lossy_of(record_span(l.bytes(), l.offsets(), start))] + spec_rows(l, start + 1, end)
    } else {
        Seq::empty()
    }
}

/// Paginated, lossily decoded view over a shared record store.
#[derive(Debug)]
pub struct PagedReader {
    loader: Arc<CsvLoader>,
    page_size: usize,
}

impl PagedReader {
    pub closed spec fn spec_loader(self) -> CsvLoader {
        *self.loader
    }

    pub closed spec fn spec_page_size(self) -> int {
        self.page_size as int
    }

    pub closed spec fn wf(self) -> bool {
        (*self.loader).wf()
    }

    pub fn new(loader: Arc<CsvLoader>) -> (r: Self)
        requires
            (*loader).wf(),
        ensures
            r.wf(),
            r.spec_loader() == *loader,
            r.spec_page_size() == 100,
    {
        PagedReader { loader, page_size: 100 }
    }

    /// A reader over a synthetic empty store.
    pub fn empty() -> (r: Self)
        ensures
            r.wf(),
            r.spec_loader().spec_total() == 0,
            r.spec_loader().offsets().len() == 0,
            r.spec_page_size() == 100,
    {
        PagedReader { loader: Arc::new(CsvLoader::empty(0, 0)), page_size: 100 }
    }

    pub fn set_page_size(&mut self, size: usize)
        ensures
            final(self).spec_page_size() == size,
            final(self).spec_loader() == old(self).spec_loader(),
            old(self).wf() ==> final(self).wf(),
    {
        self.page_size = size;
    }

    /// The decoded records `[start, start + len)`, stopping early at the end
    /// of the data; out-of-range input yields fewer rows, never an error.
    pub fn get_rows(&self, start: usize, len: usize) -> (r: Vec<String>)
        requires
            self.wf(),
        ensures
            r.deep_view() == spec_rows(
                self.spec_loader(),
                start as int,
                (if start as int + len <= self.spec_loader().spec_total() {
                    start as int + len
                } else {
                    self.spec_loader().spec_total()
                }),
            ),
    {
        let total = self.loader.total_records();
        let end = if start >= total {
            start
        } else if len < total - start {
            start + len
        } else {
            total
        };
        let mut rows: Vec<String> = Vec::new();
        let mut i: usize = start;
        let ghost gend: int = if start as int + len <= self.spec_loader().spec_total() {
            start as int + len
        } else {
            self.spec_loader().spec_total()
        };
        proof {
            if start >= total {
                assert(spec_rows(self.spec_loader(), start as int, gend) =~= Seq::<
                    Seq<char>,
                >::empty());
            }
            assert(rows.deep_view() =~= Seq::<Seq<char>>::empty());
        }
        let mut stopped: bool = false;
        while i < end && !stopped
            invariant
                start <= i <= end,
                gend <= self.spec_loader().spec_total(),
                self.wf(),
                start >= total ==> end == start && gend <= end,
                start < total ==> end as int == gend && end <= total,
                total == self.spec_loader().spec_total(),
                stopped ==> spec_rows(self.spec_loader(), i as int, gend) == Seq::<
                    Seq<char>,
                >::empty(),
                spec_rows(self.spec_loader(), start as int, gend) == rows.deep_view() + spec_rows(
                    self.spec_loader(),
                    i as int,
                    gend,
                ),
            decreases end - i, (if stopped {
                0int
            } else {
                1int
            }),
        {
            match self.loader.get_record_line(i) {
                Some(bytes) => {
                    let ghost prev = rows.deep_view();
                    let line = utf8_lossy(&bytes);
                    rows.push(line);
                    proof {
                        assert(rows.deep_view() =~= prev.push(lossy_of(record_span(
                            self.spec_loader().bytes(),
                            self.spec_loader().offsets(),
                            i as int,
                        ))));
                        assert(spec_rows(self.spec_loader(), i as int, gend) =~= seq![
                            lossy_of(
                                record_span(
                                    self.spec_loader().bytes(),
                                    self.spec_loader().offsets(),
                                    i as int,
                                ),
                            ),
                        ] + spec_rows(self.spec_loader(), i as int + 1, gend));
                        assert(rows.deep_view() + spec_rows(self.spec_loader(), i as int + 1, gend)
                            =~= prev + spec_rows(self.spec_loader(), i as int, gend));
                    }
                    i += 1;
                },
                None => {
                    proof {
                        assert(spec_rows(self.spec_loader(), i as int, gend) =~= Seq::<
                            Seq<char>,
                        >::empty());
                    }
                    stopped = true;
                },
            }
        }
        proof {
            assert(spec_rows(self.spec_loader(), i as int, gend) =~= Seq::<Seq<char>>::empty());
            assert(rows.deep_view() + Seq::<Seq<char>>::empty() =~= rows.deep_view());
        }
        rows
    }
}

} // verus!
