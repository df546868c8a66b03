//! Flat structured export: every row as one object keyed by header name, the
//! whole table as a single array, in the same canonical text form the
//! archive codec writes.
use crate::csvi::{push_str_escaped, ser_str};
use crate::text::{dec_str, usize_to_string};
use vstd::prelude::*;

verus! {

/// The key for field `j`: the matching header, or a positional fallback
/// name when the headers are exhausted.
pub open spec fn key_of(headers: Seq<Seq<char>>, j: int) -> Seq<char> {
    if j < headers.len() {
        headers[j]
    } else {
        "Col "@ + dec_str(j as nat)
    }
}

/// One key/value pair of a row object.
pub open spec fn pair_of(headers: Seq<Seq<char>>, fields: Seq<Seq<char>>, j: int) -> Seq<char> {
    ser_str(key_of(headers, j)) + seq![':'] + ser_str(fields[j])
}

pub open spec fn obj_tail(headers: Seq<Seq<char>>, fields: Seq<Seq<char>>, j: int) -> Seq<char>
    decreases fields.len() - j,
{
    if j < 0 || j >= fields.len() {
        seq!['}']
    } else {
        seq![','] + pair_of(headers, fields, j) + obj_tail(headers, fields, j + 1)
    }
}

/// One row as an object keyed by header name.
pub open spec fn json_obj(headers: Seq<Seq<char>>, fields: Seq<Seq<char>>) -> Seq<char> {
    seq!['{'] + if fields.len() == 0 {
        seq!['}']
    } else {
        pair_of(headers, fields, 0) + obj_tail(headers, fields, 1)
    }
}

pub open spec fn rows_tail(headers: Seq<Seq<char>>, rows: Seq<Seq<Seq<char>>>, i: int) -> Seq<char>
    decreases rows.len() - i,
{
    if i < 0 || i >= rows.len() {
        seq![']']
    } else {
        seq![','] + json_obj(headers, rows[i]) + rows_tail(headers, rows, i + 1)
    }
}

/// The whole table as one array of row objects.
pub open spec fn json_export(headers: Seq<Seq<char>>, rows: Seq<Seq<Seq<char>>>) -> Seq<char> {
    seq!['['] + if rows.len() == 0 {
        seq![']']
    } else {
        json_obj(headers, rows[0]) + rows_tail(headers, rows, 1)
    }
}

/// Append one key/value pair.
fn write_pair(out: &mut Vec<char>, headers: &Vec<String>, field: &String, j: usize)
    ensures
        final(out)@ == old(out)@ + ser_str(key_of(headers.deep_view(), j as int)) + seq![':']
            + ser_str(field@),
{
    if j < headers.len() {
        push_str_escaped(out, &headers[j]);
    } else {
        let key = String::from_str("Col ").concat(usize_to_string(j).as_str());
        push_str_escaped(out, &key);
    }
    out.push(':');
    push_str_escaped(out, field);
    proof {
        assert(out@ =~= old(out)@ + ser_str(key_of(headers.deep_view(), j as int)) + seq![':']
            + ser_str(field@));
    }
}

/// Append one row object.
fn write_obj(out: &mut Vec<char>, headers: &Vec<String>, row: &Vec<String>)
    ensures
        final(out)@ == old(out)@ + json_obj(headers.deep_view(), row.deep_view()),
{
    out.push('{');
    let ghost hs = headers.deep_view();
    let ghost fs = row.deep_view();
    let ghost base = out@;
    let n = row.len();
    let mut j: usize = 0;
    while j < n
        invariant
            j <= n,
            n == row@.len(),
            hs == headers.deep_view(),
            fs == row.deep_view(),
            j == 0 ==> out@ == base,
            j > 0 ==> out@ + obj_tail(hs, fs, j as int) == base + pair_of(hs, fs, 0) + obj_tail(
                hs,
                fs,
                1,
            ),
        decreases n - j,
    {
        if j > 0 {
            out.push(',');
        }
        write_pair(out, headers, &row[j], j);
        proof {
            if j > 0 {
                assert(out@ + obj_tail(hs, fs, j as int + 1) =~= base + pair_of(hs, fs, 0)
                    + obj_tail(hs, fs, 1));
            } else {
                assert(out@ =~= base + pair_of(hs, fs, 0));
            }
        }
        j += 1;
    }
    out.push('}');
    proof {
        if n == 0 {
            assert(out@ =~= old(out)@ + json_obj(hs, fs));
        } else {
            assert(obj_tail(hs, fs, n as int) =~= seq!['}']);
            assert(out@ =~= base + pair_of(hs, fs, 0) + obj_tail(hs, fs, 1));
            assert(out@ =~= old(out)@ + json_obj(hs, fs));
        }
    }
}

/// Build the export text for a table.
pub fn export_rows_json(headers: &Vec<String>, rows: &Vec<Vec<String>>) -> (r: String)
    ensures
        r@ == json_export(headers.deep_view(), rows.deep_view()),
{
    let mut out: Vec<char> = Vec::new();
    out.push('[');
    let ghost hs = headers.deep_view();
    let ghost rs = rows.deep_view();
    let ghost base = out@;
    let n = rows.len();
    let mut i: usize = 0;
    while i < n
        invariant
            i <= n,
            n == rows@.len(),
            hs == headers.deep_view(),
            rs == rows.deep_view(),
            i == 0 ==> out@ == base,
            i > 0 ==> out@ + rows_tail(hs, rs, i as int) == base + json_obj(hs, rs[0]) + rows_tail(
                hs,
                rs,
                1,
            ),
        decreases n - i,
    {
        if i > 0 {
            out.push(',');
        }
        write_obj(&mut out, headers, &rows[i]);
        proof {
            if i > 0 {
                assert(out@ + rows_tail(hs, rs, i as int + 1) =~= base + json_obj(hs, rs[0])
                    + rows_tail(hs, rs, 1));
            } else {
                assert(out@ =~= base + json_obj(hs, rs[0]));
            }
        }
        i += 1;
    }
    out.push(']');
    proof {
        if n == 0 {
            assert(out@ =~= json_export(hs, rs));
        } else {
            assert(rows_tail(hs, rs, n as int) =~= seq![']']);
            assert(out@ =~= seq!['['] + json_obj(hs, rs[0]) + rows_tail(hs, rs, 1));
            assert(out@ =~= json_export(hs, rs));
        }
    }
    crate::text::string_from_chars(&out)
}

} // verus!
