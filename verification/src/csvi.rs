//! Archive codec: one compressed container holds the flattened grid text and
//! a metadata document (formatting overlay, column names and widths, view
//! state). The metadata is written in a canonical JSON form — object keys in
//! a fixed order, formatting entries sorted by cell, numbers in plain
//! decimal, and every character of a name written as a `\u` escape so the
//! text encoding is prefix-free — and the loader accepts exactly that form.
use crate::cellmap::{distinct_keys, entry_key, map_of, Entry};
use crate::formatting::{CellFormat, FormatMap};
use crate::text::{
    chars_match_ci, chars_of, dec_chars_of, dec_str, dec_val, digit_char_of, is_digit, push_chars,
    string_from_chars,
};
use vstd::prelude::*;

verus! {

/// The hexadecimal digit character for `d` in 0..16.
pub open spec fn hex_char(d: int) -> char {
    if d < 10 {
        crate::text::digit_char(d)
    } else if d == 10 {
        'a'
    } else if d == 11 {
        'b'
    } else if d == 12 {
        'c'
    } else if d == 13 {
        'd'
    } else if d == 14 {
        'e'
    } else {
        'f'
    }
}

/// Four fixed-width hexadecimal digits of `n`, which must be below 0x10000.
pub open spec fn hex4(n: int) -> Seq<char> {
    seq![
        hex_char(n / 4096 % 16),
        hex_char(n / 256 % 16),
        hex_char(n / 16 % 16),
        hex_char(n % 16),
    ]
}

/// The escape of one character: every code point in the basic plane is
/// written as a `\u` escape; higher code points are written raw (they can
/// never collide with the delimiters, which are all in the basic plane).
pub open spec fn esc_char(c: char) -> Seq<char> {
    if c as u32 <= 0xFFFF {
        seq!['\\', 'u'] + hex4(c as u32 as int)
    } else {
        seq![c]
    }
}

/// The escaped form of a text, character by character.
pub open spec fn esc_json(s: Seq<char>) -> Seq<char>
    decreases s.len(),
{
    if s.len() == 0 {
        Seq::empty()
    } else {
        esc_char(s[0]) + esc_json(s.skip(1))
    }
}

/// A quoted, escaped string.
pub open spec fn ser_str(s: Seq<char>) -> Seq<char> {
    seq!['"'] + esc_json(s) + seq!['"']
}

pub open spec fn ser_bool(b: bool) -> Seq<char> {
    if b {
        "true"@
    } else {
        "false"@
    }
}

/// An optional RGBA color: `null`, or the four channels in brackets.
pub open spec fn ser_color(c: Option<[u8; 4]>) -> Seq<char> {
    match c {
        None => "null"@,
        Some(a) => seq!['['] + dec_str(a@[0] as nat) + seq![','] + dec_str(a@[1] as nat)
            + seq![','] + dec_str(a@[2] as nat) + seq![','] + dec_str(a@[3] as nat) + seq![']'],
    }
}

pub open spec fn ser_format(f: CellFormat) -> Seq<char> {
    "{\"bg\":"@ + ser_color(f.bg_color) + ",\"text\":"@ + ser_color(f.text_color) + ",\"bold\":"@
        + ser_bool(f.bold) + ",\"italic\":"@ + ser_bool(f.italic) + seq!['}']
}

/// One formatting entry: the cell key as a "row,col" string, then the
/// format object.
pub open spec fn ser_entry(e: Entry<CellFormat>) -> Seq<char> {
    seq!['"'] + dec_str(e.row as nat) + seq![','] + dec_str(e.col as nat) + "\":"@ + ser_format(
        e.val,
    )
}

pub open spec fn fmt_tail(s: Seq<Entry<CellFormat>>) -> Seq<char>
    decreases s.len(),
{
    if s.len() == 0 {
        seq!['}']
    } else {
        seq![','] + ser_entry(s[0]) + fmt_tail(s.skip(1))
    }
}

/// The formatting overlay as an object keyed by "row,col".
pub open spec fn ser_fmt_map(s: Seq<Entry<CellFormat>>) -> Seq<char> {
    seq!['{'] + if s.len() == 0 {
        seq!['}']
    } else {
        ser_entry(s[0]) + fmt_tail(s.skip(1))
    }
}

pub open spec fn names_tail(ns: Seq<Seq<char>>) -> Seq<char>
    decreases ns.len(),
{
    if ns.len() == 0 {
        seq![']']
    } else {
        seq![','] + ser_str(ns[0]) + names_tail(ns.skip(1))
    }
}

pub open spec fn ser_names(ns: Seq<Seq<char>>) -> Seq<char> {
    seq!['['] + if ns.len() == 0 {
        seq![']']
    } else {
        ser_str(ns[0]) + names_tail(ns.skip(1))
    }
}

pub open spec fn widths_tail(ws: Seq<u32>) -> Seq<char>
    decreases ws.len(),
{
    if ws.len() == 0 {
        seq![']']
    } else {
        seq![','] + dec_str(ws[0] as nat) + widths_tail(ws.skip(1))
    }
}

pub open spec fn ser_widths(ws: Seq<u32>) -> Seq<char> {
    seq!['['] + if ws.len() == 0 {
        seq![']']
    } else {
        dec_str(ws[0] as nat) + widths_tail(ws.skip(1))
    }
}

/// View state to restore editor position.
#[derive(Clone, Copy, Debug)]
pub struct ViewSettings {
    pub scroll_position: u32,
    pub selected_cell: Option<(usize, usize)>,
    pub zoom_level: u32,
}

impl Default for ViewSettings {
    /// Top of the document, no selection, neutral zoom step.
    fn default() -> (r: Self)
        ensures
            r == (ViewSettings { scroll_position: 0, selected_cell: None, zoom_level: 0 }),
    {
        ViewSettings { scroll_position: 0, selected_cell: None, zoom_level: 0 }
    }
}

pub open spec fn ser_view(v: ViewSettings) -> Seq<char> {
    "{\"scroll\":"@ + dec_str(v.scroll_position as nat) + ",\"selected\":"@ + (
    match v.selected_cell {
        None => "null"@,
        Some(rc) => seq!['['] + dec_str(rc.0 as nat) + seq![','] + dec_str(rc.1 as nat)
            + seq![']'],
    }) + ",\"zoom\":"@ + dec_str(v.zoom_level as nat) + seq!['}']
}

/// The whole metadata document in canonical form, with the formatting
/// entries in the order given by `es`.
pub open spec fn ser_meta(
    version: u32,
    es: Seq<Entry<CellFormat>>,
    ns: Seq<Seq<char>>,
    ws: Seq<u32>,
    vw: ViewSettings,
) -> Seq<char> {
    "{\"version\":"@ + dec_str(version as nat) + ",\"formatting\":"@ + ser_fmt_map(es)
        + ",\"column_names\":"@ + ser_names(ns) + ",\"column_widths\":"@ + ser_widths(ws)
        + ",\"view_settings\":"@ + ser_view(vw) + seq!['}']
}

/// Cell keys in row-major order.
pub open spec fn lex_lt(a: (usize, usize), b: (usize, usize)) -> bool {
    a.0 < b.0 || (a.0 == b.0 && a.1 < b.1)
}

pub open spec fn keys_sorted(s: Seq<Entry<CellFormat>>) -> bool {
    forall|a: int, b: int|
        0 <= a < b < s.len() ==> lex_lt(entry_key(#[trigger] s[a]), entry_key(#[trigger] s[b]))
}

/// Metadata stored beside the grid text in an archive.
#[derive(Clone, Debug)]
pub struct CsviMetadata {
    pub version: u32,
    pub formatting: FormatMap,
    pub column_names: Vec<String>,
    pub column_widths: Vec<u32>,
    pub view_settings: ViewSettings,
}

impl CsviMetadata {
    /// Empty metadata at the current schema version.
    pub fn new() -> (r: Self)
        ensures
            r.version == 1,
            r.formatting.wf(),
            r.formatting@ == Map::<(usize, usize), CellFormat>::empty(),
            r.column_names@.len() == 0,
            r.column_widths@.len() == 0,
            r.view_settings == (ViewSettings {
                scroll_position: 0,
                selected_cell: None,
                zoom_level: 0,
            }),
    {
        CsviMetadata {
            version: 1,
            formatting: FormatMap::new(),
            column_names: Vec::new(),
            column_widths: Vec::new(),
            view_settings: ViewSettings { scroll_position: 0, selected_cell: None, zoom_level: 0 },
        }
    }
}

/// The formatting entries sorted by cell key; the canonical entry order.
fn sorted_entries(fm: &FormatMap) -> (r: Vec<Entry<CellFormat>>)
    requires
        fm.wf(),
    ensures
        keys_sorted(r@),
        distinct_keys(r@),
        map_of(r@) == fm@,
{
    let mut src = fm.entries();
    let ghost m0 = map_of(src@);
    let mut out: Vec<Entry<CellFormat>> = Vec::new();
    proof {
        assert(map_of(out@) =~= Map::<(usize, usize), CellFormat>::empty());
        assert(map_of(out@).union_prefer_right(map_of(src@)) =~= m0);
    }
    while src.len() > 0
        invariant
            distinct_keys(out@),
            distinct_keys(src@),
            forall|a: int, b: int|
                0 <= a < out@.len() && 0 <= b < src@.len() ==> entry_key(#[trigger] out@[a])
                    != entry_key(#[trigger] src@[b]),
            map_of(out@).union_prefer_right(map_of(src@)) == m0,
            keys_sorted(out@),
            forall|a: int, b: int|
                0 <= a < out@.len() && 0 <= b < src@.len() ==> lex_lt(
                    entry_key(#[trigger] out@[a]),
                    entry_key(#[trigger] src@[b]),
                ),
        decreases src@.len(),
    {
        let n = src.len();
        let mut m: usize = 0;
        let mut k: usize = 1;
        while k < n
            invariant
                m < k <= n,
                n == src@.len(),
                forall|x: int|
                    0 <= x < k ==> !lex_lt(
                        entry_key(#[trigger] src@[x]),
                        entry_key(src@[m as int]),
                    ),
            decreases n - k,
        {
            let better = src[k].row < src[m].row || (src[k].row == src[m].row && src[k].col
                < src[m].col);
            if better {
                m = k;
            }
            k += 1;
        }
        let ghost pre_src = src@;
        let ghost pre_out = out@;
        proof {
            crate::cellmap::lemma_index_val(pre_src, m as int);
            crate::cellmap::lemma_remove(pre_src, m as int);
        }
        let e = src.remove(m);
        proof {
            assert(forall|j: int|
                0 <= j < pre_out.len() ==> entry_key(#[trigger] pre_out[j]) != entry_key(e));
            crate::cellmap::lemma_no_index_no_key(pre_out, entry_key(e));
            crate::cellmap::lemma_push(pre_out, e);
        }
        out.push(e);
        proof {
            assert(map_of(out@).union_prefer_right(map_of(src@)) =~= m0);
            assert forall|a: int, b: int|
                0 <= a < out@.len() && 0 <= b < src@.len() implies lex_lt(
                entry_key(#[trigger] out@[a]),
                entry_key(#[trigger] src@[b]),
            ) by {
                let bk = entry_key(src@[b]);
                let ek = entry_key(e);
                if b < m {
                    assert(src@[b] == pre_src[b]);
                } else {
                    assert(src@[b] == pre_src[b + 1]);
                }
                assert(!lex_lt(bk, ek));
                crate::cellmap::lemma_index_has(src@, b);
                assert(bk != ek);
                if a < out@.len() - 1 {
                    assert(out@[a] == pre_out[a]);
                } else {
                    assert(out@[a] == e);
                    assert(lex_lt(ek, bk));
                }
            }
            assert forall|a: int, b: int|
                0 <= a < out@.len() && 0 <= b < src@.len() implies entry_key(#[trigger] out@[a])
                != entry_key(#[trigger] src@[b]) by {
                assert(lex_lt(entry_key(out@[a]), entry_key(src@[b])));
            }
        }
    }
    proof {
        assert(map_of(src@) =~= Map::<(usize, usize), CellFormat>::empty());
        assert(map_of(out@) =~= map_of(out@).union_prefer_right(map_of(src@)));
    }
    out
}

/// Append the decimal digits of `n`.
fn push_u32(out: &mut Vec<char>, n: u32)
    ensures
        final(out)@ == old(out)@ + dec_str(n as nat),
{
    let cs = dec_chars_of(n as usize);
    proof {
        assert(n as usize as nat == n as nat);
    }
    push_chars(out, &cs);
}

/// Append the decimal digits of `n`.
fn push_usize(out: &mut Vec<char>, n: usize)
    ensures
        final(out)@ == old(out)@ + dec_str(n as nat),
{
    let cs = dec_chars_of(n);
    push_chars(out, &cs);
}

/// Append a literal.
fn push_lit(out: &mut Vec<char>, s: &str)
    ensures
        final(out)@ == old(out)@ + s@,
{
    let cs = chars_of(s);
    push_chars(out, &cs);
}

/// Append the escaped, quoted form of a text.
pub(crate) fn push_str_escaped(out: &mut Vec<char>, s: &String)
    ensures
        final(out)@ == old(out)@ + ser_str(s@),
{
    let cs = chars_of(s.as_str());
    out.push('"');
    let n = cs.len();
    let mut i: usize = 0;
    proof {
        assert(cs@.skip(0) =~= cs@);
        assert(out@ =~= old(out)@ + seq!['"']);
        assert(out@ + esc_json(cs@.skip(0)) =~= old(out)@ + seq!['"'] + esc_json(cs@));
    }
    while i < n
        invariant
            i <= n,
            n == cs@.len(),
            cs@ == s@,
            out@ + esc_json(cs@.skip(i as int)) == old(out)@ + seq!['"'] + esc_json(cs@),
        decreases n - i,
    {
        let c = cs[i];
        proof {
            assert(cs@.skip(i as int)[0] == cs@[i as int]);
            assert(cs@.skip(i as int).skip(1) =~= cs@.skip(i as int + 1));
            assert(esc_json(cs@.skip(i as int)) == esc_char(c) + esc_json(cs@.skip(i as int + 1)));
        }
        let code = c as u32;
        let ghost pre = out@;
        if code <= 0xFFFF {
            out.push('\\');
            out.push('u');
            let h0 = ((code / 4096) % 16) as usize;
            let h1 = ((code / 256) % 16) as usize;
            let h2 = ((code / 16) % 16) as usize;
            let h3 = (code % 16) as usize;
            out.push(hex_char_of(h0));
            out.push(hex_char_of(h1));
            out.push(hex_char_of(h2));
            out.push(hex_char_of(h3));
            proof {
                assert(esc_char(c) =~= seq![
                    '\\',
                    'u',
                    hex_char(code as int / 4096 % 16),
                    hex_char(code as int / 256 % 16),
                    hex_char(code as int / 16 % 16),
                    hex_char(code as int % 16),
                ]);
                assert(h0 as int == code as int / 4096 % 16);
                assert(h1 as int == code as int / 256 % 16);
                assert(h2 as int == code as int / 16 % 16);
                assert(h3 as int == code as int % 16);
                assert(out@ =~= pre + esc_char(c));
                assert(out@ + esc_json(cs@.skip(i as int + 1)) =~= pre + esc_json(cs@.skip(
                    i as int,
                )));
            }
        } else {
            out.push(c);
            proof {
                assert(esc_char(c) =~= seq![c]);
                assert(out@ =~= pre + esc_char(c));
                assert(out@ + esc_json(cs@.skip(i as int + 1)) =~= pre + esc_json(cs@.skip(
                    i as int,
                )));
            }
        }
        i += 1;
    }
    out.push('"');
    proof {
        assert(cs@.skip(n as int) =~= Seq::<char>::empty());
        assert(esc_json(Seq::<char>::empty()) =~= Seq::<char>::empty());
        assert(out@ =~= old(out)@ + ser_str(s@));
    }
}

/// The hexadecimal digit character of `d`, which must be below sixteen.
fn hex_char_of(d: usize) -> (r: char)
    requires
        d < 16,
    ensures
        r == hex_char(d as int),
{
    if d < 10 {
        digit_char_of(d)
    } else if d == 10 {
        'a'
    } else if d == 11 {
        'b'
    } else if d == 12 {
        'c'
    } else if d == 13 {
        'd'
    } else if d == 14 {
        'e'
    } else {
        'f'
    }
}

fn push_bool(out: &mut Vec<char>, b: bool)
    ensures
        final(out)@ == old(out)@ + ser_bool(b),
{
    if b {
        push_lit(out, "true");
    } else {
        push_lit(out, "false");
    }
}

fn push_color(out: &mut Vec<char>, c: &Option<[u8; 4]>)
    ensures
        final(out)@ == old(out)@ + ser_color(*c),
{
    match c {
        None => push_lit(out, "null"),
        Some(a) => {
            out.push('[');
            push_u32(out, a[0] as u32);
            out.push(',');
            push_u32(out, a[1] as u32);
            out.push(',');
            push_u32(out, a[2] as u32);
            out.push(',');
            push_u32(out, a[3] as u32);
            out.push(']');
            proof {
                assert(out@ =~= old(out)@ + ser_color(*c));
            }
        },
    }
}

fn push_format(out: &mut Vec<char>, f: &CellFormat)
    ensures
        final(out)@ == old(out)@ + ser_format(*f),
{
    push_lit(out, "{\"bg\":");
    push_color(out, &f.bg_color);
    push_lit(out, ",\"text\":");
    push_color(out, &f.text_color);
    push_lit(out, ",\"bold\":");
    push_bool(out, f.bold);
    push_lit(out, ",\"italic\":");
    push_bool(out, f.italic);
    out.push('}');
    proof {
        assert(out@ =~= old(out)@ + ser_format(*f));
    }
}

fn push_entry(out: &mut Vec<char>, e: &Entry<CellFormat>)
    ensures
        final(out)@ == old(out)@ + ser_entry(*e),
{
    out.push('"');
    push_usize(out, e.row);
    out.push(',');
    push_usize(out, e.col);
    push_lit(out, "\":");
    push_format(out, &e.val);
    proof {
        assert(out@ =~= old(out)@ + ser_entry(*e));
    }
}

/// The inner formatting text still owed after `i` entries were written.
pub open spec fn fmt_rest(s: Seq<Entry<CellFormat>>, i: int) -> Seq<char> {
    if i == 0 {
        if s.len() == 0 {
            seq!['}']
        } else {
            ser_entry(s[0]) + fmt_tail(s.skip(1))
        }
    } else {
        fmt_tail(s.skip(i))
    }
}

/// The inner names text still owed after `i` names were written.
pub open spec fn names_rest(ns: Seq<Seq<char>>, i: int) -> Seq<char> {
    if i == 0 {
        if ns.len() == 0 {
            seq![']']
        } else {
            ser_str(ns[0]) + names_tail(ns.skip(1))
        }
    } else {
        names_tail(ns.skip(i))
    }
}

/// The inner widths text still owed after `i` widths were written.
pub open spec fn widths_rest(ws: Seq<u32>, i: int) -> Seq<char> {
    if i == 0 {
        if ws.len() == 0 {
            seq![']']
        } else {
            dec_str(ws[0] as nat) + widths_tail(ws.skip(1))
        }
    } else {
        widths_tail(ws.skip(i))
    }
}

/// Append the formatting overlay object.
#[verifier::rlimit(50)]
fn write_fmt_map(out: &mut Vec<char>, es: &Vec<Entry<CellFormat>>)
    ensures
        final(out)@ == old(out)@ + ser_fmt_map(es@),
{
    out.push('{');
    let ghost base = out@;
    let n = es.len();
    let mut i: usize = 0;
    while i < n
        invariant
            i <= n,
            n == es@.len(),
            out@ + fmt_rest(es@, i as int) == base + fmt_rest(es@, 0),
        decreases n - i,
    {
        proof {
            assert(es@.skip(i as int).skip(1) =~= es@.skip(i as int + 1));
            assert(es@.skip(i as int)[0] == es@[i as int]);
        }
        if i > 0 {
            out.push(',');
        }
        push_entry(out, &es[i]);
        i += 1;
    }
    proof {
        if n > 0 {
            assert(es@.skip(n as int) =~= Seq::<Entry<CellFormat>>::empty());
        }
        assert(fmt_rest(es@, n as int) =~= seq!['}']);
    }
    out.push('}');
    proof {
        assert(out@ =~= base + fmt_rest(es@, 0));
        assert(ser_fmt_map(es@) == seq!['{'] + fmt_rest(es@, 0));
        assert(out@ =~= old(out)@ + ser_fmt_map(es@));
    }
}

/// Append the column name list.
#[verifier::rlimit(50)]
fn write_names(out: &mut Vec<char>, names: &Vec<String>)
    ensures
        final(out)@ == old(out)@ + ser_names(names.deep_view()),
{
    out.push('[');
    let ghost ns = names.deep_view();
    let ghost base = out@;
    let cn = names.len();
    let mut j: usize = 0;
    while j < cn
        invariant
            j <= cn,
            cn == names@.len(),
            ns == names.deep_view(),
            out@ + names_rest(ns, j as int) == base + names_rest(ns, 0),
        decreases cn - j,
    {
        proof {
            assert(ns.skip(j as int).skip(1) =~= ns.skip(j as int + 1));
            assert(ns.skip(j as int)[0] == ns[j as int]);
        }
        if j > 0 {
            out.push(',');
        }
        push_str_escaped(out, &names[j]);
        j += 1;
    }
    proof {
        if cn > 0 {
            assert(ns.skip(cn as int) =~= Seq::<Seq<char>>::empty());
        }
        assert(names_rest(ns, cn as int) =~= seq![']']);
    }
    out.push(']');
    proof {
        assert(out@ =~= base + names_rest(ns, 0));
        assert(ser_names(ns) == seq!['['] + names_rest(ns, 0));
        assert(out@ =~= old(out)@ + ser_names(ns));
    }
}

/// Append the column width list.
#[verifier::rlimit(50)]
fn write_widths(out: &mut Vec<char>, widths: &Vec<u32>)
    ensures
        final(out)@ == old(out)@ + ser_widths(widths@),
{
    out.push('[');
    let ghost ws = widths@;
    let ghost base = out@;
    let cw = widths.len();
    let mut k: usize = 0;
    while k < cw
        invariant
            k <= cw,
            cw == widths@.len(),
            ws == widths@,
            out@ + widths_rest(ws, k as int) == base + widths_rest(ws, 0),
        decreases cw - k,
    {
        proof {
            assert(ws.skip(k as int).skip(1) =~= ws.skip(k as int + 1));
            assert(ws.skip(k as int)[0] == ws[k as int]);
        }
        if k > 0 {
            out.push(',');
        }
        push_u32(out, widths[k]);
        k += 1;
    }
    proof {
        if cw > 0 {
            assert(ws.skip(cw as int) =~= Seq::<u32>::empty());
        }
        assert(widths_rest(ws, cw as int) =~= seq![']']);
    }
    out.push(']');
    proof {
        assert(out@ =~= base + widths_rest(ws, 0));
        assert(ser_widths(ws) == seq!['['] + widths_rest(ws, 0));
        assert(out@ =~= old(out)@ + ser_widths(ws));
    }
}

/// Append the view-state object.
#[verifier::rlimit(50)]
fn write_view(out: &mut Vec<char>, v: &ViewSettings)
    ensures
        final(out)@ == old(out)@ + ser_view(*v),
{
    push_lit(out, "{\"scroll\":");
    push_u32(out, v.scroll_position);
    push_lit(out, ",\"selected\":");
    match v.selected_cell {
        None => push_lit(out, "null"),
        Some(rc) => {
            out.push('[');
            push_usize(out, rc.0);
            out.push(',');
            push_usize(out, rc.1);
            out.push(']');
        },
    }
    push_lit(out, ",\"zoom\":");
    push_u32(out, v.zoom_level);
    out.push('}');
    proof {
        assert(out@ =~= old(out)@ + ser_view(*v));
    }
}

/// Write the metadata in its canonical form.
pub fn serialize_metadata(m: &CsviMetadata) -> (r: String)
    requires
        m.formatting.wf(),
    ensures
        exists|es: Seq<Entry<CellFormat>>|
            {
                &&& keys_sorted(es)
                &&& distinct_keys(es)
                &&& map_of(es) == m.formatting@
                &&& r@ == ser_meta(
                    m.version,
                    es,
                    m.column_names.deep_view(),
                    m.column_widths@,
                    m.view_settings,
                )
            },
{
    let es = sorted_entries(&m.formatting);
    let mut out: Vec<char> = Vec::new();
    push_lit(&mut out, "{\"version\":");
    push_u32(&mut out, m.version);
    push_lit(&mut out, ",\"formatting\":");
    write_fmt_map(&mut out, &es);
    push_lit(&mut out, ",\"column_names\":");
    write_names(&mut out, &m.column_names);
    push_lit(&mut out, ",\"column_widths\":");
    write_widths(&mut out, &m.column_widths);
    push_lit(&mut out, ",\"view_settings\":");
    write_view(&mut out, &m.view_settings);
    out.push('}');
    proof {
        assert(out@ =~= ser_meta(
            m.version,
            es@,
            m.column_names.deep_view(),
            m.column_widths@,
            m.view_settings,
        ));
    }
    string_from_chars(&out)
}

/// Errors of the archive codec, each tied to the failure it reports.
#[derive(Clone, Copy, Debug, PartialEq, Eq, Structural)]
pub enum CsviError {
    /// The archive container could not be assembled.
    ArchiveWrite,
    /// The archive has no data entry.
    MissingDataEntry,
    /// The archive has no metadata entry.
    MissingMetadataEntry,
    /// The data entry is not text.
    InvalidData,
    /// The metadata entry is absent of meaning: not text, or not the
    /// canonical metadata document.
    InvalidMetadata,
}

pub open spec fn spec_error_message(e: CsviError) -> Seq<char> {
    match e {
        CsviError::ArchiveWrite => "failed to write the archive"@,
        CsviError::MissingDataEntry => "data entry not found in archive"@,
        CsviError::MissingMetadataEntry => "metadata entry not found in archive"@,
        CsviError::InvalidData => "the data entry is not valid text"@,
        CsviError::InvalidMetadata => "the metadata entry could not be parsed"@,
    }
}

impl CsviError {
    pub fn message(&self) -> (r: &'static str)
        ensures
            r@ == spec_error_message(*self),
    {
        match self {
            CsviError::ArchiveWrite => "failed to write the archive",
            CsviError::MissingDataEntry => "data entry not found in archive",
            CsviError::MissingMetadataEntry => "metadata entry not found in archive",
            CsviError::InvalidData => "the data entry is not valid text",
            CsviError::InvalidMetadata => "the metadata entry could not be parsed",
        }
    }
}

/// The bytes a named entry of the archive holds, if the archive can be read
/// and has that entry; a function of the archive bytes and the name alone.
pub uninterp spec fn zip_entry_of(archive: Seq<u8>, name: Seq<char>) -> Option<Seq<u8>>;

/// The archive bytes packing the two named entries, if packing succeeds.
/// Packing runs in memory with fixed options and timestamps (the crate is
/// built without its time feature), so the result is a function of the
/// names and data alone.
pub uninterp spec fn zip_pack_of(
    name1: Seq<char>,
    data1: Seq<u8>,
    name2: Seq<char>,
    data2: Seq<u8>,
) -> Option<Seq<u8>>;

/// Relies on zip's `ZipWriter` (`start_file`, `Write::write_all`, `finish`)
/// over an in-memory buffer: an archive packed with two distinctly named
/// entries holds exactly those entries under those names and none besides.
#[verifier::external_body]
fn zip_pack(name1: &str, data1: &Vec<u8>, name2: &str, data2: &Vec<u8>) -> (r: Option<Vec<u8>>)
    requires
        name1@ != name2@,
    ensures
        r is Some <==> zip_pack_of(name1@, data1@, name2@, data2@) is Some,
        r matches Some(b) ==> Some(b@) == zip_pack_of(name1@, data1@, name2@, data2@),
        r matches Some(b) ==> zip_entry_of(b@, name1@) == Some(data1@) && zip_entry_of(b@, name2@)
            == Some(data2@),
        r matches Some(b) ==> forall|n: Seq<char>|
            n != name1@ && n != name2@ ==> zip_entry_of(b@, n) is None,
{
    let mut zip = zip::ZipWriter::new(std::io::Cursor::new(Vec::new()));
    let options = zip::write::SimpleFileOptions::default().compression_method(
        zip::CompressionMethod::Deflated,
    ).unix_permissions(0o644);
    let ok = zip.start_file(name1, options).is_ok() && std::io::Write::write_all(
        &mut zip,
        data1,
    ).is_ok() && zip.start_file(name2, options).is_ok() && std::io::Write::write_all(
        &mut zip,
        data2,
    ).is_ok();
    if !ok {
        return None;
    }
    zip.finish().ok().map(|c| c.into_inner())
}

/// Relies on zip's `ZipArchive::new` and `by_name`: reading a named entry is
/// deterministic in the archive bytes and the name, failing exactly when the
/// archive cannot be read or lacks the entry.
#[verifier::external_body]
fn zip_read_entry(archive: &Vec<u8>, name: &str) -> (r: Option<Vec<u8>>)
    ensures
        r is Some <==> zip_entry_of(archive@, name@) is Some,
        r matches Some(v) ==> zip_entry_of(archive@, name@) == Some(v@),
{
    let mut zip = match zip::ZipArchive::new(std::io::Cursor::new(archive.as_slice())) {
        Ok(z) => z,
        Err(_) => return None,
    };
    let mut file = match zip.by_name(name) {
        Ok(f) => f,
        Err(_) => return None,
    };
    let mut out: Vec<u8> = Vec::new();
    match std::io::Read::read_to_end(&mut file, &mut out) {
        Ok(_) => Some(out),
        Err(_) => None,
    }
}

/// Relies on `String::from_utf8`: succeeds exactly on valid UTF-8 and
/// decodes it.
#[verifier::external_body]
fn utf8_string(bytes: Vec<u8>) -> (r: Option<String>)
    ensures
        r is Some <==> vstd::utf8::valid_utf8(bytes@),
        r matches Some(s) ==> s@ == vstd::utf8::decode_utf8(bytes@),
{
    match String::from_utf8(bytes) {
        Ok(s) => Some(s),
        Err(_) => None,
    }
}

/// Relies on `char::from_u32`: the result is present exactly when the code
/// point is a Unicode scalar value (not a surrogate, not above the maximum),
/// and is then the character with exactly that code point.
#[verifier::external_body]
fn char_from_code(code: u32) -> (r: Option<char>)
    ensures
        r is Some <==> (code < 0xD800 || (0xDFFF < code && code <= 0x10FFFF)),
        r matches Some(c) ==> c as u32 == code,
{
    char::from_u32(code)
}

/// The text `s` stands in `v` at position `i`.
pub open spec fn lit_at(v: Seq<char>, i: int, s: Seq<char>) -> bool {
    0 <= i && i + s.len() <= v.len() && v.subrange(i, i + s.len()) == s
}

/// Position `j` of `v` is past the end or holds a non-digit.
pub open spec fn nondigit_after(v: Seq<char>, j: int) -> bool {
    j >= v.len() || !is_digit(v[j])
}

proof fn lemma_lit_at_concat(v: Seq<char>, i: int, a: Seq<char>, b: Seq<char>)
    requires
        lit_at(v, i, a + b),
    ensures
        lit_at(v, i, a),
        lit_at(v, i + a.len(), b),
{
    assert(v.subrange(i, i + a.len()) =~= (a + b).subrange(0, a.len() as int));
    assert((a + b).subrange(0, a.len() as int) =~= a);
    assert(v.subrange(i + a.len(), i + a.len() + b.len()) =~= (a + b).subrange(
        a.len() as int,
        (a + b).len() as int,
    ));
    assert((a + b).subrange(a.len() as int, (a + b).len() as int) =~= b);
}

proof fn lemma_lit_at_stream(v: Seq<char>, i: int, x: Seq<char>)
    requires
        lit_at(v, i, x),
    ensures
        v.skip(i) == x + v.skip(i + x.len()),
{
    assert(v.skip(i) =~= x + v.skip(i + x.len()));
}

proof fn lemma_stream_lit(v: Seq<char>, j: int, x: Seq<char>, rest: Seq<char>)
    requires
        0 <= j <= v.len(),
        v.skip(j) == x + rest,
    ensures
        lit_at(v, j, x),
        v.skip(j + x.len()) == rest,
{
    assert(v.skip(j).len() == x.len() + rest.len());
    assert forall|t: int| 0 <= t < x.len() implies v.subrange(j, j + x.len())[t] == x[t] by {
        assert(v.skip(j)[t] == (x + rest)[t]);
        assert(v.skip(j)[t] == v[j + t]);
    }
    assert(v.subrange(j, j + x.len()) =~= x);
    assert forall|t: int| 0 <= t < rest.len() implies v.skip(j + x.len())[t] == rest[t] by {
        assert(v.skip(j)[x.len() + t] == (x + rest)[x.len() + t]);
        assert(v.skip(j)[x.len() + t] == v[j + x.len() + t]);
        assert(v.skip(j + x.len())[t] == v[j + x.len() + t]);
    }
    assert(v.skip(j + x.len()) =~= rest);
}

proof fn lemma_lit_char(v: Seq<char>, i: int, x: Seq<char>, t: int)
    requires
        lit_at(v, i, x),
        0 <= t < x.len(),
    ensures
        v[i + t] == x[t],
{
    assert(v.subrange(i, i + x.len())[t] == v[i + t]);
}

/// Escaping splits over any cut of the text.
proof fn lemma_esc_split(s: Seq<char>, k: int)
    requires
        0 <= k <= s.len(),
    ensures
        esc_json(s) == esc_json(s.take(k)) + esc_json(s.skip(k)),
    decreases k,
{
    if k == 0 {
        assert(s.take(0) =~= Seq::<char>::empty());
        assert(esc_json(Seq::<char>::empty()) =~= Seq::<char>::empty());
        assert(s.skip(0) =~= s);
        assert(esc_json(s) =~= Seq::<char>::empty() + esc_json(s));
    } else {
        lemma_esc_split(s.skip(1), k - 1);
        assert(s.skip(1).take(k - 1) =~= s.take(k).skip(1));
        assert(s.skip(1).skip(k - 1) =~= s.skip(k));
        assert(s.take(k)[0] == s[0]);
        assert(esc_json(s.take(k)) == esc_char(s[0]) + esc_json(s.take(k).skip(1)));
        assert(esc_json(s) == esc_char(s[0]) + esc_json(s.skip(1)));
        vstd::seq_lib::lemma_concat_associative(
            esc_char(s[0]),
            esc_json(s.take(k).skip(1)),
            esc_json(s.skip(k)),
        );
    }
}

/// The characters of the escape token for position `k` of `s0`, as they
/// stand in `v` inside the quoted string at `i`.
proof fn lemma_token_chars(v: Seq<char>, i: int, s0: Seq<char>, k: int, j: int)
    requires
        lit_at(v, i, ser_str(s0)),
        0 <= k < s0.len(),
        j == i + 1 + esc_json(s0.take(k)).len(),
    ensures
        esc_json(s0.take(k + 1)) == esc_json(s0.take(k)) + esc_char(s0[k]),
        esc_json(s0).len() >= esc_json(s0.take(k)).len() + esc_char(s0[k]).len(),
        forall|u: int|
            0 <= u < esc_char(s0[k]).len() ==> v[j + u] == #[trigger] esc_char(s0[k])[u],
{
    lemma_esc_split(s0, k);
    assert(s0.skip(k)[0] == s0[k]);
    assert(s0.skip(k).skip(1) =~= s0.skip(k + 1));
    assert(esc_json(s0.skip(k)) == esc_char(s0[k]) + esc_json(s0.skip(k + 1)));
    lemma_esc_split(s0.take(k + 1), k);
    assert(s0.take(k + 1).take(k) =~= s0.take(k));
    assert(s0.take(k + 1).skip(k) =~= seq![s0[k]]);
    assert(esc_json(seq![s0[k]]) =~= esc_char(s0[k]) + esc_json(Seq::<char>::empty())) by {
        assert(seq![s0[k]][0] == s0[k]);
        assert(seq![s0[k]].skip(1) =~= Seq::<char>::empty());
    }
    assert(esc_json(Seq::<char>::empty()) =~= Seq::<char>::empty());
    assert(esc_json(seq![s0[k]]) =~= esc_char(s0[k]));
    assert(esc_json(s0.take(k + 1)) == esc_json(s0.take(k)) + esc_json(seq![s0[k]]));
    assert(esc_json(s0.take(k + 1)) =~= esc_json(s0.take(k)) + esc_char(s0[k]));
    let e = esc_json(s0);
    let pre = esc_json(s0.take(k));
    let tok = esc_char(s0[k]);
    let post = esc_json(s0.skip(k + 1));
    assert(e == pre + (tok + post));
    assert forall|u: int| 0 <= u < tok.len() implies v[j + u] == #[trigger] tok[u] by {
        lemma_lit_char(v, i, ser_str(s0), (j - i) + u);
        assert(ser_str(s0)[(j - i) + u] == (seq!['"'] + e + seq!['"'])[(j - i) + u]);
        assert((seq!['"'] + e)[(j - i) + u] == e[pre.len() + u]);
        assert(e[pre.len() + u] == (pre + (tok + post))[pre.len() + u]);
        assert((tok + post)[u] == tok[u]);
    }
}

/// Advance past the literal `s` at position `i`, if it is there.
fn expect_lit(v: &Vec<char>, i: usize, s: &str) -> (r: Option<usize>)
    ensures
        r matches Some(j) ==> i <= j <= v@.len() && j == i + s@.len() && lit_at(
            v@,
            i as int,
            s@,
        ),
        r is None ==> !lit_at(v@, i as int, s@),
{
    let cs = chars_of(s);
    if i > v.len() || cs.len() > v.len() - i {
        return None;
    }
    let n = cs.len();
    let mut k: usize = 0;
    while k < n
        invariant
            k <= n,
            n == cs@.len(),
            cs@ == s@,
            i + n <= v@.len(),
            forall|t: int| 0 <= t < k ==> v@[i + t] == cs@[t],
        decreases n - k,
    {
        if v[i + k] != cs[k] {
            proof {
                if lit_at(v@, i as int, s@) {
                    assert(v@.subrange(i as int, i + s@.len())[k as int] == v@[i + k]);
                    assert(false);
                }
            }
            return None;
        }
        k += 1;
    }
    proof {
        assert(v@.subrange(i as int, i + s@.len()) =~= s@);
    }
    Some(i + n)
}

/// Whether there is a bounded number written canonically at position `i`,
/// followed by a non-digit; at most one value can be.
pub open spec fn num_at(v: Seq<char>, i: int, max: int, x: nat) -> bool {
    x <= max && lit_at(v, i, dec_str(x)) && nondigit_after(v, i + dec_str(x).len())
}

/// Parse a decimal number bounded by `max` at position `i`. A canonical
/// bounded number followed by a non-digit is always read, exactly.
fn parse_num(v: &Vec<char>, i: usize, max: u64) -> (r: Option<(u64, usize)>)
    requires
        max >= 9,
    ensures
        r matches Some(p) ==> i <= p.1 <= v@.len() && p.0 <= max,
        forall|x: nat| #![trigger dec_str(x)]
            num_at(v@, i as int, max as int, x) ==> (r matches Some(p) && p.0 == x && p.1 as int
                == i + dec_str(x).len()),
{
    if i >= v.len() {
        proof {
            assert forall|x: nat| #![trigger dec_str(x)]
                num_at(v@, i as int, max as int, x) implies false by {
                crate::text::lemma_dec_str_digits(x);
            }
        }
        return None;
    }
    let mut acc: u64 = 0;
    let mut j: usize = i;
    let mut stop: bool = false;
    while j < v.len() && !stop
        invariant
            i <= j <= v@.len(),
            acc <= max,
            acc as int == dec_val(v@.subrange(i as int, j as int)),
            forall|t: int| i <= t < j ==> is_digit(#[trigger] v@[t]),
            stop ==> j < v@.len() && !is_digit(v@[j as int]),
        decreases v@.len() - j, (if stop {
            0int
        } else {
            1int
        }),
    {
        let c = v[j];
        if c >= '0' && c <= '9' {
            let d: u64 = (c as u32 - 48) as u64;
            proof {
                assert(crate::text::digit_val(c) == d as int);
                assert(v@.subrange(i as int, j as int + 1).drop_last() =~= v@.subrange(
                    i as int,
                    j as int,
                ));
                assert(v@.subrange(i as int, j as int + 1).last() == v@[j as int]);
            }
            if acc > (max - d) / 10 {
                proof {
                    vstd::arithmetic::div_mod::lemma_fundamental_div_mod(max as int - d, 10);
                    assert(acc as int * 10 + d > max);
                    assert forall|x: nat| #![trigger dec_str(x)]
                        num_at(v@, i as int, max as int, x) implies false by {
                        crate::text::lemma_dec_str_digits(x);
                        let ll = dec_str(x).len() as int;
                        assert(forall|t: int|
                            0 <= t < ll ==> v@[i + t] == #[trigger] dec_str(x)[t]) by {
                            assert(forall|t: int|
                                0 <= t < ll ==> #[trigger] v@.subrange(i as int, i + ll)[t]
                                    == v@[i + t]);
                        }
                        assert(j < i + ll) by {
                            if j as int >= i + ll {
                                if i + ll < v@.len() {
                                    assert(is_digit(v@[i + ll]) || j == i + ll);
                                }
                                assert(is_digit(v@[j as int]));
                                assert(!nondigit_after(v@, i + ll) || j == i + ll);
                            }
                        }
                        assert(v@.subrange(i as int, j as int + 1) =~= dec_str(x).take(
                            j as int + 1 - i,
                        ));
                        crate::analysis::lemma_dec_val_prefix(dec_str(x), j as int + 1 - i);
                        crate::text::lemma_dec_val_round(x);
                        assert(dec_val(v@.subrange(i as int, j as int + 1)) <= x);
                        assert(acc as int * 10 + d <= max);
                    }
                }
                return None;
            }
            acc = acc * 10 + d;
            j += 1;
        } else {
            stop = true;
        }
    }
    if j == i {
        proof {
            assert forall|x: nat| #![trigger dec_str(x)]
                num_at(v@, i as int, max as int, x) implies false by {
                crate::text::lemma_dec_str_digits(x);
                assert(v@.subrange(i as int, i + dec_str(x).len())[0] == v@[i as int]);
                assert(dec_str(x)[0] == v@[i as int]);
                assert(is_digit(dec_str(x)[0]));
            }
        }
        return None;
    }
    proof {
        assert forall|x: nat| #![trigger dec_str(x)]
            num_at(v@, i as int, max as int, x) implies acc == x && j as int == i + dec_str(
            x,
        ).len() by {
            crate::text::lemma_dec_str_digits(x);
            let ll = dec_str(x).len() as int;
            assert(forall|t: int| 0 <= t < ll ==> v@[i + t] == #[trigger] dec_str(x)[t]) by {
                assert(forall|t: int|
                    0 <= t < ll ==> #[trigger] v@.subrange(i as int, i + ll)[t] == v@[i + t]);
            }
            if (j as int) < i + ll {
                assert(v@[i + (j - i)] == dec_str(x)[j - i]);
                assert(is_digit(dec_str(x)[j - i]));
                assert(is_digit(v@[j as int]));
                if stop {
                    assert(false);
                } else {
                    assert(j == v@.len());
                    assert(i + ll <= v@.len());
                    assert(false);
                }
            }
            if (j as int) > i + ll {
                assert(is_digit(v@[i + ll]));
                assert(!nondigit_after(v@, i + ll));
                assert(false);
            }
            assert(v@.subrange(i as int, j as int) =~= dec_str(x));
            crate::text::lemma_dec_val_round(x);
        }
    }
    Some((acc, j))
}

fn parse_usize_at(v: &Vec<char>, i: usize) -> (r: Option<(usize, usize)>)
    ensures
        r matches Some(p) ==> i <= p.1 <= v@.len(),
        forall|x: nat| #![trigger dec_str(x)]
            num_at(v@, i as int, usize::MAX as int, x) ==> (r matches Some(p) && p.0 == x && p.1
                as int == i + dec_str(x).len()),
{
    match parse_num(v, i, usize::MAX as u64) {
        Some((n, j)) => Some((n as usize, j)),
        None => None,
    }
}

fn parse_u32_at(v: &Vec<char>, i: usize) -> (r: Option<(u32, usize)>)
    ensures
        r matches Some(p) ==> i <= p.1 <= v@.len(),
        forall|x: nat| #![trigger dec_str(x)]
            num_at(v@, i as int, 0xffff_ffff, x) ==> (r matches Some(p) && p.0 == x && p.1 as int
                == i + dec_str(x).len()),
{
    match parse_num(v, i, 0xffff_ffff) {
        Some((n, j)) => Some((n as u32, j)),
        None => None,
    }
}

/// The value of one hexadecimal digit character.
fn hex_digit_val(c: char) -> (r: Option<u32>)
    ensures
        r matches Some(d) ==> d < 16,
        forall|d: int| 0 <= d < 16 && hex_char(d) == c ==> r == Some(d as u32),
{
    if c >= '0' && c <= '9' {
        Some(c as u32 - 48)
    } else if c >= 'a' && c <= 'f' {
        Some(c as u32 - 87)
    } else {
        None
    }
}

/// The identity recomposing a basic-plane code point from its four
/// hexadecimal digits.
proof fn lemma_hex4_recompose(x: u32)
    requires
        x <= 0xFFFF,
    ensures
        (x / 4096 % 16) * 4096 + (x / 256 % 16) * 256 + (x / 16 % 16) * 16 + x % 16 == x,
{
    assert(x <= 0xFFFF ==> (x / 4096 % 16) * 4096 + (x / 256 % 16) * 256 + (x / 16 % 16) * 16 + x
        % 16 == x) by (bit_vector);
}

/// Parse a quoted string with `\u` escapes at position `i`. A canonically
/// written string is always read back, exactly.
#[verifier::rlimit(100)]
fn parse_string_at(v: &Vec<char>, i: usize) -> (r: Option<(String, usize)>)
    ensures
        r matches Some(p) ==> i <= p.1 <= v@.len(),
        forall|s: Seq<char>| #![trigger ser_str(s)]
            lit_at(v@, i as int, ser_str(s)) ==> (r matches Some(p) && p.0@ == s && p.1 as int == i
                + ser_str(s).len()),
{
    let ghost has_w = exists|s: Seq<char>| lit_at(v@, i as int, ser_str(s));
    let ghost s0: Seq<char> = if has_w {
        choose|s: Seq<char>| lit_at(v@, i as int, ser_str(s))
    } else {
        Seq::empty()
    };
    if i >= v.len() || v[i] != '"' {
        proof {
            assert forall|s: Seq<char>| #![trigger ser_str(s)]
                lit_at(v@, i as int, ser_str(s)) implies false by {
                lemma_lit_char(v@, i as int, ser_str(s), 0);
                assert(ser_str(s)[0] == '"');
            }
        }
        return None;
    }
    let mut buf: Vec<char> = Vec::new();
    let mut j: usize = i + 1;
    let ghost mut k: int = 0;
    proof {
        if has_w {
            assert(s0.take(0) =~= Seq::<char>::empty());
            assert(esc_json(Seq::<char>::empty()) =~= Seq::<char>::empty());
            assert(buf@ =~= s0.take(0));
        }
    }
    while j < v.len()
        invariant
            i < j <= v@.len(),
            has_w == exists|s: Seq<char>| lit_at(v@, i as int, ser_str(s)),
            has_w ==> lit_at(v@, i as int, ser_str(s0)),
            has_w ==> 0 <= k <= s0.len() && buf@ == s0.take(k) && j as int == i + 1 + esc_json(
                s0.take(k),
            ).len(),
        decreases v@.len() - j,
    {
        let c = v[j];
        proof {
            if has_w {
                assert(ser_str(s0).len() == 2 + esc_json(s0).len());
                lemma_esc_split(s0, k);
                if k < s0.len() {
                    lemma_token_chars(v@, i as int, s0, k, j as int);
                    assert(v@[j as int] == esc_char(s0[k])[0]);
                } else {
                    assert(s0.take(k) =~= s0);
                    lemma_lit_char(v@, i as int, ser_str(s0), j - i);
                    assert(ser_str(s0)[j - i] == '"') by {
                        assert((seq!['"'] + esc_json(s0) + seq!['"'])[1 + esc_json(s0).len()
                            as int] == '"');
                    }
                    assert(v@[j as int] == '"');
                }
            }
        }
        if c == '"' {
            proof {
                if has_w && k < s0.len() {
                    if s0[k] as u32 <= 0xFFFF {
                        assert(esc_char(s0[k])[0] == '\\');
                        assert(false);
                    } else {
                        assert(esc_char(s0[k])[0] == s0[k]);
                        assert(('"' as u32) == 34);
                        assert(false);
                    }
                }
            }
            let out = string_from_chars(&buf);
            proof {
                assert forall|s: Seq<char>| #![trigger ser_str(s)]
                    lit_at(v@, i as int, ser_str(s)) implies (out@ == s && j as int + 1 == i
                    + ser_str(s).len()) by {
                    lemma_lit_at_stream(v@, i as int, ser_str(s));
                    lemma_lit_at_stream(v@, i as int, ser_str(s0));
                    lemma_str_unambiguous(
                        s,
                        s0,
                        v@.skip(i + ser_str(s).len()),
                        v@.skip(i + ser_str(s0).len()),
                    );
                    assert(s == s0);
                    assert(k == s0.len());
                    assert(s0.take(k) =~= s0);
                    assert(ser_str(s0).len() == 2 + esc_json(s0).len());
                }
            }
            return Some((out, j + 1));
        } else if c == '\\' {
            proof {
                if has_w {
                    if k == s0.len() {
                        assert(false);
                    }
                    if !(s0[k] as u32 <= 0xFFFF) {
                        assert(esc_char(s0[k])[0] == s0[k]);
                        assert(('\\' as u32) == 92);
                        assert(false);
                    }
                    assert(esc_char(s0[k]) == seq!['\\', 'u'] + hex4(s0[k] as u32 as int));
                    assert(esc_char(s0[k]).len() == 6);
                    assert(j as int + 6 <= i + 1 + esc_json(s0).len()) by {
                        assert(esc_json(s0).len() >= esc_json(s0.take(k)).len() + 6);
                    }
                }
            }
            if v.len() - j < 7 {
                proof {
                    if has_w {
                        assert(i + ser_str(s0).len() <= v@.len());
                        assert(false);
                    }
                    assert forall|s: Seq<char>| #![trigger ser_str(s)]
                        lit_at(v@, i as int, ser_str(s)) implies false by {
                        assert(exists|t: Seq<char>| lit_at(v@, i as int, ser_str(t)));
                    }
                }
                return None;
            }
            proof {
                if has_w {
                    let code0 = s0[k] as u32;
                    assert(v@[j as int + 1] == esc_char(s0[k])[1]);
                    assert(esc_char(s0[k])[1] == 'u');
                    assert(v@[j as int + 2] == esc_char(s0[k])[2]);
                    assert(esc_char(s0[k])[2] == hex4(code0 as int)[0]);
                    assert(v@[j as int + 3] == esc_char(s0[k])[3]);
                    assert(esc_char(s0[k])[3] == hex4(code0 as int)[1]);
                    assert(v@[j as int + 4] == esc_char(s0[k])[4]);
                    assert(esc_char(s0[k])[4] == hex4(code0 as int)[2]);
                    assert(v@[j as int + 5] == esc_char(s0[k])[5]);
                    assert(esc_char(s0[k])[5] == hex4(code0 as int)[3]);
                }
            }
            if v[j + 1] != 'u' {
                proof {
                    if has_w {
                        assert(false);
                    }
                    assert forall|s: Seq<char>| #![trigger ser_str(s)]
                        lit_at(v@, i as int, ser_str(s)) implies false by {
                        assert(exists|t: Seq<char>| lit_at(v@, i as int, ser_str(t)));
                    }
                }
                return None;
            }
            let h0 = match hex_digit_val(v[j + 2]) {
                Some(d) => d,
                None => {
                    proof {
                        if has_w {
                            assert(false);
                        }
                        assert forall|s: Seq<char>| #![trigger ser_str(s)]
                            lit_at(v@, i as int, ser_str(s)) implies false by {
                            assert(exists|t: Seq<char>| lit_at(v@, i as int, ser_str(t)));
                        }
                    }
                    return None;
                },
            };
            let h1 = match hex_digit_val(v[j + 3]) {
                Some(d) => d,
                None => {
                    proof {
                        if has_w {
                            assert(false);
                        }
                        assert forall|s: Seq<char>| #![trigger ser_str(s)]
                            lit_at(v@, i as int, ser_str(s)) implies false by {
                            assert(exists|t: Seq<char>| lit_at(v@, i as int, ser_str(t)));
                        }
                    }
                    return None;
                },
            };
            let h2 = match hex_digit_val(v[j + 4]) {
                Some(d) => d,
                None => {
                    proof {
                        if has_w {
                            assert(false);
                        }
                        assert forall|s: Seq<char>| #![trigger ser_str(s)]
                            lit_at(v@, i as int, ser_str(s)) implies false by {
                            assert(exists|t: Seq<char>| lit_at(v@, i as int, ser_str(t)));
                        }
                    }
                    return None;
                },
            };
            let h3 = match hex_digit_val(v[j + 5]) {
                Some(d) => d,
                None => {
                    proof {
                        if has_w {
                            assert(false);
                        }
                        assert forall|s: Seq<char>| #![trigger ser_str(s)]
                            lit_at(v@, i as int, ser_str(s)) implies false by {
                            assert(exists|t: Seq<char>| lit_at(v@, i as int, ser_str(t)));
                        }
                    }
                    return None;
                },
            };
            let code = h0 * 4096 + h1 * 256 + h2 * 16 + h3;
            proof {
                if has_w {
                    let code0 = s0[k] as u32;
                    assert(code0 / 4096 % 16 < 16 && code0 / 256 % 16 < 16 && code0 / 16 % 16 < 16
                        && code0 % 16 < 16);
                    assert(h0 == code0 / 4096 % 16 && h1 == code0 / 256 % 16 && h2 == code0 / 16
                        % 16 && h3 == code0 % 16);
                    lemma_hex4_recompose(code0);
                    assert(code == code0);
                }
            }
            match char_from_code(code) {
                Some(ch) => {
                    proof {
                        if has_w {
                            vstd::utf8::char_u32_cast(s0[k], s0[k] as u32);
                            vstd::utf8::char_u32_cast(ch, ch as u32);
                            assert(ch == s0[k]);
                            assert(s0.take(k + 1) =~= s0.take(k).push(s0[k]));
                        }
                    }
                    buf.push(ch);
                    proof {
                        if has_w {
                            assert(buf@ =~= s0.take(k + 1));
                            k = k + 1;
                        }
                    }
                    j += 6;
                },
                None => {
                    proof {
                        if has_w {
                            vstd::utf8::char_is_scalar(s0[k]);
                            assert(false);
                        }
                        assert forall|s: Seq<char>| #![trigger ser_str(s)]
                            lit_at(v@, i as int, ser_str(s)) implies false by {
                            assert(exists|t: Seq<char>| lit_at(v@, i as int, ser_str(t)));
                        }
                    }
                    return None;
                },
            }
        } else {
            proof {
                if has_w {
                    if k == s0.len() {
                        assert(false);
                    }
                    if s0[k] as u32 <= 0xFFFF {
                        assert(esc_char(s0[k])[0] == '\\');
                        assert(false);
                    }
                    assert(esc_char(s0[k]) == seq![s0[k]]);
                    assert(v@[j as int] == s0[k]);
                    assert(s0.take(k + 1) =~= s0.take(k).push(s0[k]));
                }
            }
            buf.push(c);
            proof {
                if has_w {
                    assert(buf@ =~= s0.take(k + 1));
                    k = k + 1;
                }
            }
            j += 1;
        }
    }
    proof {
        if has_w {
            lemma_esc_split(s0, k);
            assert(j as int <= i + 1 + esc_json(s0).len());
            assert(i + ser_str(s0).len() <= v@.len());
            assert(ser_str(s0).len() == 2 + esc_json(s0).len());
            assert(false);
        }
        assert forall|s: Seq<char>| #![trigger ser_str(s)]
            lit_at(v@, i as int, ser_str(s)) implies false by {
            assert(exists|t: Seq<char>| lit_at(v@, i as int, ser_str(t)));
        }
    }
    None
}

fn parse_bool_at(v: &Vec<char>, i: usize) -> (r: Option<(bool, usize)>)
    ensures
        r matches Some(p) ==> i <= p.1 <= v@.len(),
        forall|b: bool| #![trigger ser_bool(b)]
            lit_at(v@, i as int, ser_bool(b)) ==> (r matches Some(p) && p.0 == b && p.1 as int == i
                + ser_bool(b).len()),
{
    proof {
        reveal_strlit("true");
        reveal_strlit("false");
    }
    match expect_lit(v, i, "true") {
        Some(j) => {
            proof {
                assert forall|b: bool| #![trigger ser_bool(b)]
                    lit_at(v@, i as int, ser_bool(b)) implies b == true && j as int == i
                    + ser_bool(b).len() by {
                    if !b {
                        lemma_lit_char(v@, i as int, "false"@, 0);
                        lemma_lit_char(v@, i as int, "true"@, 0);
                        assert(false);
                    }
                }
            }
            Some((true, j))
        },
        None => match expect_lit(v, i, "false") {
            Some(j) => {
                proof {
                    assert forall|b: bool| #![trigger ser_bool(b)]
                        lit_at(v@, i as int, ser_bool(b)) implies b == false && j as int == i
                        + ser_bool(b).len() by {}
                }
                Some((false, j))
            },
            None => None,
        },
    }
}

/// Facts placing every piece of a serialized color at its position.
proof fn lemma_color_pieces(v: Seq<char>, i: int, a: [u8; 4])
    requires
        lit_at(v, i, ser_color(Some(a))),
    ensures
        ({
            let d0 = dec_str(a@[0] as nat);
            let d1 = dec_str(a@[1] as nat);
            let d2 = dec_str(a@[2] as nat);
            let d3 = dec_str(a@[3] as nat);
            let p0 = i + 1;
            let p1 = p0 + d0.len() + 1;
            let p2 = p1 + d1.len() + 1;
            let p3 = p2 + d2.len() + 1;
            &&& lit_at(v, i, seq!['['])
            &&& num_at(v, p0, 255, a@[0] as nat)
            &&& lit_at(v, p0 + d0.len(), seq![','])
            &&& num_at(v, p1, 255, a@[1] as nat)
            &&& lit_at(v, p1 + d1.len(), seq![','])
            &&& num_at(v, p2, 255, a@[2] as nat)
            &&& lit_at(v, p2 + d2.len(), seq![','])
            &&& num_at(v, p3, 255, a@[3] as nat)
            &&& lit_at(v, p3 + d3.len(), seq![']'])
            &&& i + ser_color(Some(a)).len() == p3 + d3.len() + 1
        }),
{
    let d0 = dec_str(a@[0] as nat);
    let d1 = dec_str(a@[1] as nat);
    let d2 = dec_str(a@[2] as nat);
    let d3 = dec_str(a@[3] as nat);
    lemma_color_rebracket(a, Seq::empty());
    assert(ser_color(Some(a)) + Seq::<char>::empty() =~= ser_color(Some(a)));
    let t3 = d3 + (seq![']'] + Seq::<char>::empty());
    let t2 = d2 + (seq![','] + t3);
    let t1 = d1 + (seq![','] + t2);
    let t0 = d0 + (seq![','] + t1);
    assert(lit_at(v, i, seq!['['] + t0));
    lemma_lit_at_concat(v, i, seq!['['], t0);
    lemma_lit_at_concat(v, i + 1, d0, seq![','] + t1);
    lemma_lit_at_concat(v, i + 1 + d0.len(), seq![','], t1);
    let p1 = i + 1 + d0.len() + 1;
    lemma_lit_at_concat(v, p1, d1, seq![','] + t2);
    lemma_lit_at_concat(v, p1 + d1.len(), seq![','], t2);
    let p2 = p1 + d1.len() + 1;
    lemma_lit_at_concat(v, p2, d2, seq![','] + t3);
    lemma_lit_at_concat(v, p2 + d2.len(), seq![','], t3);
    let p3 = p2 + d2.len() + 1;
    lemma_lit_at_concat(v, p3, d3, seq![']'] + Seq::<char>::empty());
    lemma_lit_at_concat(v, p3 + d3.len(), seq![']'], Seq::<char>::empty());
    lemma_lit_char(v, i + 1 + d0.len(), seq![','], 0);
    lemma_lit_char(v, p1 + d1.len(), seq![','], 0);
    lemma_lit_char(v, p2 + d2.len(), seq![','], 0);
    lemma_lit_char(v, p3 + d3.len(), seq![']'], 0);
}

/// Parse an optional color at position `i`. A canonically written color is
/// always read back, exactly.
#[verifier::rlimit(100)]
fn parse_color_at(v: &Vec<char>, i: usize) -> (r: Option<(Option<[u8; 4]>, usize)>)
    ensures
        r matches Some(p) ==> i <= p.1 <= v@.len(),
        forall|c: Option<[u8; 4]>| #![trigger ser_color(c)]
            lit_at(v@, i as int, ser_color(c)) ==> (r matches Some(p) && p.0 == c && p.1 as int
                == i + ser_color(c).len()),
{
    proof {
        reveal_strlit("null");
        reveal_strlit("[");
        reveal_strlit(",");
        reveal_strlit("]");
        assert("["@ =~= seq!['[']);
        assert(","@ =~= seq![',']);
        assert("]"@ =~= seq![']']);
    }
    let ghost has_w = exists|c: Option<[u8; 4]>| lit_at(v@, i as int, ser_color(c));
    let ghost c0: Option<[u8; 4]> = if has_w {
        choose|c: Option<[u8; 4]>| lit_at(v@, i as int, ser_color(c))
    } else {
        None
    };
    proof {
        if has_w {
            match c0 {
                None => {},
                Some(a) => {
                    lemma_color_pieces(v@, i as int, a);
                },
            }
        }
    }
    match expect_lit(v, i, "null") {
        Some(j) => {
            proof {
                assert forall|c: Option<[u8; 4]>| #![trigger ser_color(c)]
                    lit_at(v@, i as int, ser_color(c)) implies (c is None && j as int == i
                    + ser_color(c).len()) by {
                    match c {
                        None => {},
                        Some(a) => {
                            lemma_color_pieces(v@, i as int, a);
                            lemma_lit_char(v@, i as int, seq!['['], 0);
                            lemma_lit_char(v@, i as int, "null"@, 0);
                            assert(false);
                        },
                    }
                }
            }
            Some((None, j))
        },
        None => {
            proof {
                if has_w && c0 is None {
                    assert(false);
                }
            }
            let j0 = match expect_lit(v, i, "[") {
                Some(j) => j,
                None => {
                    proof {
                        if has_w {
                            assert(false);
                        }
                        assert forall|c: Option<[u8; 4]>| #![trigger ser_color(c)]
                            lit_at(v@, i as int, ser_color(c)) implies false by {
                            assert(exists|t: Option<[u8; 4]>| lit_at(v@, i as int, ser_color(t)));
                        }
                    }
                    return None;
                },
            };
            let ghost a0: [u8; 4] = if has_w {
                c0->0
            } else {
                [0u8, 0u8, 0u8, 0u8]
            };
            let (x0, j1) = match parse_num(v, j0, 255) {
                Some(p) => p,
                None => {
                    proof {
                        if has_w {
                            assert(num_at(v@, j0 as int, 255, a0@[0] as nat));
                            assert(false);
                        }
                        assert forall|c: Option<[u8; 4]>| #![trigger ser_color(c)]
                            lit_at(v@, i as int, ser_color(c)) implies false by {
                            assert(exists|t: Option<[u8; 4]>| lit_at(v@, i as int, ser_color(t)));
                        }
                    }
                    return None;
                },
            };
            let j2 = match expect_lit(v, j1, ",") {
                Some(j) => j,
                None => {
                    proof {
                        if has_w {
                            assert(num_at(v@, j0 as int, 255, a0@[0] as nat));
                            assert(false);
                        }
                        assert forall|c: Option<[u8; 4]>| #![trigger ser_color(c)]
                            lit_at(v@, i as int, ser_color(c)) implies false by {
                            assert(exists|t: Option<[u8; 4]>| lit_at(v@, i as int, ser_color(t)));
                        }
                    }
                    return None;
                },
            };
            let (x1, j3) = match parse_num(v, j2, 255) {
                Some(p) => p,
                None => {
                    proof {
                        if has_w {
                            assert(num_at(v@, j0 as int, 255, a0@[0] as nat));
                            assert(num_at(v@, j2 as int, 255, a0@[1] as nat));
                            assert(false);
                        }
                        assert forall|c: Option<[u8; 4]>| #![trigger ser_color(c)]
                            lit_at(v@, i as int, ser_color(c)) implies false by {
                            assert(exists|t: Option<[u8; 4]>| lit_at(v@, i as int, ser_color(t)));
                        }
                    }
                    return None;
                },
            };
            let j4 = match expect_lit(v, j3, ",") {
                Some(j) => j,
                None => {
                    proof {
                        if has_w {
                            assert(num_at(v@, j0 as int, 255, a0@[0] as nat));
                            assert(num_at(v@, j2 as int, 255, a0@[1] as nat));
                            assert(false);
                        }
                        assert forall|c: Option<[u8; 4]>| #![trigger ser_color(c)]
                            lit_at(v@, i as int, ser_color(c)) implies false by {
                            assert(exists|t: Option<[u8; 4]>| lit_at(v@, i as int, ser_color(t)));
                        }
                    }
                    return None;
                },
            };
            let (x2, j5) = match parse_num(v, j4, 255) {
                Some(p) => p,
                None => {
                    proof {
                        if has_w {
                            assert(num_at(v@, j0 as int, 255, a0@[0] as nat));
                            assert(num_at(v@, j2 as int, 255, a0@[1] as nat));
                            assert(num_at(v@, j4 as int, 255, a0@[2] as nat));
                            assert(false);
                        }
                        assert forall|c: Option<[u8; 4]>| #![trigger ser_color(c)]
                            lit_at(v@, i as int, ser_color(c)) implies false by {
                            assert(exists|t: Option<[u8; 4]>| lit_at(v@, i as int, ser_color(t)));
                        }
                    }
                    return None;
                },
            };
            let j6 = match expect_lit(v, j5, ",") {
                Some(j) => j,
                None => {
                    proof {
                        if has_w {
                            assert(num_at(v@, j0 as int, 255, a0@[0] as nat));
                            assert(num_at(v@, j2 as int, 255, a0@[1] as nat));
                            assert(num_at(v@, j4 as int, 255, a0@[2] as nat));
                            assert(false);
                        }
                        assert forall|c: Option<[u8; 4]>| #![trigger ser_color(c)]
                            lit_at(v@, i as int, ser_color(c)) implies false by {
                            assert(exists|t: Option<[u8; 4]>| lit_at(v@, i as int, ser_color(t)));
                        }
                    }
                    return None;
                },
            };
            let (x3, j7) = match parse_num(v, j6, 255) {
                Some(p) => p,
                None => {
                    proof {
                        if has_w {
                            assert(num_at(v@, j0 as int, 255, a0@[0] as nat));
                            assert(num_at(v@, j2 as int, 255, a0@[1] as nat));
                            assert(num_at(v@, j4 as int, 255, a0@[2] as nat));
                            assert(num_at(v@, j6 as int, 255, a0@[3] as nat));
                            assert(false);
                        }
                        assert forall|c: Option<[u8; 4]>| #![trigger ser_color(c)]
                            lit_at(v@, i as int, ser_color(c)) implies false by {
                            assert(exists|t: Option<[u8; 4]>| lit_at(v@, i as int, ser_color(t)));
                        }
                    }
                    return None;
                },
            };
            let j8 = match expect_lit(v, j7, "]") {
                Some(j) => j,
                None => {
                    proof {
                        if has_w {
                            assert(num_at(v@, j0 as int, 255, a0@[0] as nat));
                            assert(num_at(v@, j2 as int, 255, a0@[1] as nat));
                            assert(num_at(v@, j4 as int, 255, a0@[2] as nat));
                            assert(num_at(v@, j6 as int, 255, a0@[3] as nat));
                            assert(false);
                        }
                        assert forall|c: Option<[u8; 4]>| #![trigger ser_color(c)]
                            lit_at(v@, i as int, ser_color(c)) implies false by {
                            assert(exists|t: Option<[u8; 4]>| lit_at(v@, i as int, ser_color(t)));
                        }
                    }
                    return None;
                },
            };
            let arr = [x0 as u8, x1 as u8, x2 as u8, x3 as u8];
            proof {
                assert forall|c: Option<[u8; 4]>| #![trigger ser_color(c)]
                    lit_at(v@, i as int, ser_color(c)) implies (Some(arr) == c && j8 as int == i
                    + ser_color(c).len()) by {
                    lemma_lit_at_stream(v@, i as int, ser_color(c));
                    lemma_lit_at_stream(v@, i as int, ser_color(c0));
                    lemma_color_unambiguous(
                        c,
                        c0,
                        v@.skip(i + ser_color(c).len()),
                        v@.skip(i + ser_color(c0).len()),
                    );
                    assert(c == c0);
                    let a = c0->0;
                    assert(num_at(v@, j0 as int, 255, a@[0] as nat));
                    assert(num_at(v@, j2 as int, 255, a@[1] as nat));
                    assert(num_at(v@, j4 as int, 255, a@[2] as nat));
                    assert(num_at(v@, j6 as int, 255, a@[3] as nat));
                    assert(x0 == a@[0] && x1 == a@[1] && x2 == a@[2] && x3 == a@[3]);
                    assert(arr@ =~= a@);
                    assert(arr == a);
                }
            }
            Some((Some(arr), j8))
        },
    }
}

/// Facts placing every piece of a serialized format object at its position.
proof fn lemma_format_pieces(v: Seq<char>, i: int, f: CellFormat)
    requires
        lit_at(v, i, ser_format(f)),
    ensures
        ({
            let p0 = i + "{\"bg\":"@.len();
            let p1 = p0 + ser_color(f.bg_color).len() + ",\"text\":"@.len();
            let p2 = p1 + ser_color(f.text_color).len() + ",\"bold\":"@.len();
            let p3 = p2 + ser_bool(f.bold).len() + ",\"italic\":"@.len();
            &&& lit_at(v, i, "{\"bg\":"@)
            &&& lit_at(v, p0, ser_color(f.bg_color))
            &&& lit_at(v, p0 + ser_color(f.bg_color).len(), ",\"text\":"@)
            &&& lit_at(v, p1, ser_color(f.text_color))
            &&& lit_at(v, p1 + ser_color(f.text_color).len(), ",\"bold\":"@)
            &&& lit_at(v, p2, ser_bool(f.bold))
            &&& lit_at(v, p2 + ser_bool(f.bold).len(), ",\"italic\":"@)
            &&& lit_at(v, p3, ser_bool(f.italic))
            &&& lit_at(v, p3 + ser_bool(f.italic).len(), seq!['}'])
            &&& i + ser_format(f).len() == p3 + ser_bool(f.italic).len() + 1
        }),
{
    lemma_format_rebracket(f, Seq::empty());
    assert(ser_format(f) + Seq::<char>::empty() =~= ser_format(f));
    let e = seq!['}'] + Seq::<char>::empty();
    let t4 = ser_bool(f.italic) + e;
    let t3 = ser_bool(f.bold) + (",\"italic\":"@ + t4);
    let t2 = ser_color(f.text_color) + (",\"bold\":"@ + t3);
    let t1 = ser_color(f.bg_color) + (",\"text\":"@ + t2);
    assert(lit_at(v, i, "{\"bg\":"@ + t1));
    lemma_lit_at_concat(v, i, "{\"bg\":"@, t1);
    let p0 = i + "{\"bg\":"@.len();
    lemma_lit_at_concat(v, p0, ser_color(f.bg_color), ",\"text\":"@ + t2);
    lemma_lit_at_concat(v, p0 + ser_color(f.bg_color).len(), ",\"text\":"@, t2);
    let p1 = p0 + ser_color(f.bg_color).len() + ",\"text\":"@.len();
    lemma_lit_at_concat(v, p1, ser_color(f.text_color), ",\"bold\":"@ + t3);
    lemma_lit_at_concat(v, p1 + ser_color(f.text_color).len(), ",\"bold\":"@, t3);
    let p2 = p1 + ser_color(f.text_color).len() + ",\"bold\":"@.len();
    lemma_lit_at_concat(v, p2, ser_bool(f.bold), ",\"italic\":"@ + t4);
    lemma_lit_at_concat(v, p2 + ser_bool(f.bold).len(), ",\"italic\":"@, t4);
    let p3 = p2 + ser_bool(f.bold).len() + ",\"italic\":"@.len();
    lemma_lit_at_concat(v, p3, ser_bool(f.italic), e);
    lemma_lit_at_concat(v, p3 + ser_bool(f.italic).len(), seq!['}'], Seq::<char>::empty());
}

/// Parse a format object at position `i`. A canonically written format is
/// always read back, exactly.
#[verifier::rlimit(100)]
fn parse_format_at(v: &Vec<char>, i: usize) -> (r: Option<(CellFormat, usize)>)
    ensures
        r matches Some(p) ==> i <= p.1 <= v@.len(),
        forall|f: CellFormat| #![trigger ser_format(f)]
            lit_at(v@, i as int, ser_format(f)) ==> (r matches Some(p) && p.0 == f && p.1 as int
                == i + ser_format(f).len()),
{
    let ghost has_w = exists|f: CellFormat| lit_at(v@, i as int, ser_format(f));
    let ghost f0: CellFormat = if has_w {
        choose|f: CellFormat| lit_at(v@, i as int, ser_format(f))
    } else {
        CellFormat { bg_color: None, text_color: None, bold: false, italic: false }
    };
    proof {
        if has_w {
            lemma_format_pieces(v@, i as int, f0);
        }
    }
    let j0 = match expect_lit(v, i, "{\"bg\":") {
        Some(j) => j,
        None => {
            proof {
                if has_w {
                    assert(false);
                }
                assert forall|f: CellFormat| #![trigger ser_format(f)]
                    lit_at(v@, i as int, ser_format(f)) implies false by {
                    assert(exists|t: CellFormat| lit_at(v@, i as int, ser_format(t)));
                }
            }
            return None;
        },
    };
    let (bg, j1) = match parse_color_at(v, j0) {
        Some(p) => p,
        None => {
            proof {
                if has_w {
                    assert(false);
                }
                assert forall|f: CellFormat| #![trigger ser_format(f)]
                    lit_at(v@, i as int, ser_format(f)) implies false by {
                    assert(exists|t: CellFormat| lit_at(v@, i as int, ser_format(t)));
                }
            }
            return None;
        },
    };
    let j2 = match expect_lit(v, j1, ",\"text\":") {
        Some(j) => j,
        None => {
            proof {
                if has_w {
                    assert(false);
                }
                assert forall|f: CellFormat| #![trigger ser_format(f)]
                    lit_at(v@, i as int, ser_format(f)) implies false by {
                    assert(exists|t: CellFormat| lit_at(v@, i as int, ser_format(t)));
                }
            }
            return None;
        },
    };
    let (tc, j3) = match parse_color_at(v, j2) {
        Some(p) => p,
        None => {
            proof {
                if has_w {
                    assert(false);
                }
                assert forall|f: CellFormat| #![trigger ser_format(f)]
                    lit_at(v@, i as int, ser_format(f)) implies false by {
                    assert(exists|t: CellFormat| lit_at(v@, i as int, ser_format(t)));
                }
            }
            return None;
        },
    };
    let j4 = match expect_lit(v, j3, ",\"bold\":") {
        Some(j) => j,
        None => {
            proof {
                if has_w {
                    assert(false);
                }
                assert forall|f: CellFormat| #![trigger ser_format(f)]
                    lit_at(v@, i as int, ser_format(f)) implies false by {
                    assert(exists|t: CellFormat| lit_at(v@, i as int, ser_format(t)));
                }
            }
            return None;
        },
    };
    let (bold, j5) = match parse_bool_at(v, j4) {
        Some(p) => p,
        None => {
            proof {
                if has_w {
                    assert(false);
                }
                assert forall|f: CellFormat| #![trigger ser_format(f)]
                    lit_at(v@, i as int, ser_format(f)) implies false by {
                    assert(exists|t: CellFormat| lit_at(v@, i as int, ser_format(t)));
                }
            }
            return None;
        },
    };
    let j6 = match expect_lit(v, j5, ",\"italic\":") {
        Some(j) => j,
        None => {
            proof {
                if has_w {
                    assert(false);
                }
                assert forall|f: CellFormat| #![trigger ser_format(f)]
                    lit_at(v@, i as int, ser_format(f)) implies false by {
                    assert(exists|t: CellFormat| lit_at(v@, i as int, ser_format(t)));
                }
            }
            return None;
        },
    };
    let (italic, j7) = match parse_bool_at(v, j6) {
        Some(p) => p,
        None => {
            proof {
                if has_w {
                    assert(false);
                }
                assert forall|f: CellFormat| #![trigger ser_format(f)]
                    lit_at(v@, i as int, ser_format(f)) implies false by {
                    assert(exists|t: CellFormat| lit_at(v@, i as int, ser_format(t)));
                }
            }
            return None;
        },
    };
    let j8 = match expect_lit(v, j7, "}") {
        Some(j) => j,
        None => {
            proof {
                reveal_strlit("}");
                if has_w {
                    assert("}"@ =~= seq!['}']);
                    assert(false);
                }
                assert forall|f: CellFormat| #![trigger ser_format(f)]
                    lit_at(v@, i as int, ser_format(f)) implies false by {
                    assert(exists|t: CellFormat| lit_at(v@, i as int, ser_format(t)));
                }
            }
            return None;
        },
    };
    let out = CellFormat { bg_color: bg, text_color: tc, bold, italic };
    proof {
        reveal_strlit("}");
        assert forall|f: CellFormat| #![trigger ser_format(f)]
            lit_at(v@, i as int, ser_format(f)) implies (out == f && j8 as int == i + ser_format(
            f,
        ).len()) by {
            lemma_lit_at_stream(v@, i as int, ser_format(f));
            lemma_lit_at_stream(v@, i as int, ser_format(f0));
            lemma_format_unambiguous(
                f,
                f0,
                v@.skip(i + ser_format(f).len()),
                v@.skip(i + ser_format(f0).len()),
            );
            assert(f == f0);
            assert(bg == f0.bg_color && tc == f0.text_color && bold == f0.bold && italic
                == f0.italic);
            assert("}"@ =~= seq!['}']);
        }
    }
    Some((out, j8))
}

/// Facts placing every piece of a serialized formatting entry at its
/// position.
proof fn lemma_entry_pieces(v: Seq<char>, i: int, e: Entry<CellFormat>)
    requires
        lit_at(v, i, ser_entry(e)),
    ensures
        ({
            let dr = dec_str(e.row as nat);
            let dc = dec_str(e.col as nat);
            let p0 = i + 1;
            let p1 = p0 + dr.len() + 1;
            let p2 = p1 + dc.len() + "\":"@.len();
            &&& lit_at(v, i, seq!['"'])
            &&& num_at(v, p0, usize::MAX as int, e.row as nat)
            &&& lit_at(v, p0 + dr.len(), seq![','])
            &&& num_at(v, p1, usize::MAX as int, e.col as nat)
            &&& lit_at(v, p1 + dc.len(), "\":"@)
            &&& lit_at(v, p2, ser_format(e.val))
            &&& i + ser_entry(e).len() == p2 + ser_format(e.val).len()
        }),
{
    reveal_strlit("\":");
    lemma_entry_rebracket(e, Seq::empty());
    assert(ser_entry(e) + Seq::<char>::empty() =~= ser_entry(e));
    let dr = dec_str(e.row as nat);
    let dc = dec_str(e.col as nat);
    let t2 = "\":"@ + (ser_format(e.val) + Seq::<char>::empty());
    let t1 = dc + t2;
    let t0 = dr + (seq![','] + t1);
    assert(lit_at(v, i, seq!['"'] + t0));
    lemma_lit_at_concat(v, i, seq!['"'], t0);
    lemma_lit_at_concat(v, i + 1, dr, seq![','] + t1);
    lemma_lit_at_concat(v, i + 1 + dr.len(), seq![','], t1);
    let p1 = i + 1 + dr.len() + 1;
    lemma_lit_at_concat(v, p1, dc, t2);
    lemma_lit_at_concat(v, p1 + dc.len(), "\":"@, ser_format(e.val) + Seq::<char>::empty());
    let p2 = p1 + dc.len() + "\":"@.len();
    lemma_lit_at_concat(v, p2, ser_format(e.val), Seq::<char>::empty());
    lemma_lit_char(v, i + 1 + dr.len(), seq![','], 0);
    lemma_lit_char(v, p1 + dc.len(), "\":"@, 0);
    assert("\":"@[0] == '"');
}

/// Parse one formatting entry at position `i`. A canonically written entry
/// is always read back, exactly.
#[verifier::rlimit(100)]
fn parse_entry_at(v: &Vec<char>, i: usize) -> (r: Option<((usize, usize, CellFormat), usize)>)
    ensures
        r matches Some(p) ==> i <= p.1 <= v@.len(),
        forall|e: Entry<CellFormat>| #![trigger ser_entry(e)]
            lit_at(v@, i as int, ser_entry(e)) ==> (r matches Some(p) && p.0.0 == e.row && p.0.1
                == e.col && p.0.2 == e.val && p.1 as int == i + ser_entry(e).len()),
{
    let ghost has_w = exists|e: Entry<CellFormat>| lit_at(v@, i as int, ser_entry(e));
    let ghost e0: Entry<CellFormat> = if has_w {
        choose|e: Entry<CellFormat>| lit_at(v@, i as int, ser_entry(e))
    } else {
        Entry {
            row: 0,
            col: 0,
            val: CellFormat { bg_color: None, text_color: None, bold: false, italic: false },
        }
    };
    proof {
        reveal_strlit("\"");
        assert("\""@ =~= seq!['"']);
        reveal_strlit(",");
        assert(","@ =~= seq![',']);
        if has_w {
            lemma_entry_pieces(v@, i as int, e0);
        }
    }
    let k0 = match expect_lit(v, i, "\"") {
        Some(k) => k,
        None => {
            proof {
                if has_w {
                    assert(false);
                }
                assert forall|e: Entry<CellFormat>| #![trigger ser_entry(e)]
                    lit_at(v@, i as int, ser_entry(e)) implies false by {
                    assert(exists|t: Entry<CellFormat>| lit_at(v@, i as int, ser_entry(t)));
                }
            }
            return None;
        },
    };
    let (row, k1) = match parse_usize_at(v, k0) {
        Some(p) => p,
        None => {
            proof {
                if has_w {
                    assert(num_at(v@, k0 as int, usize::MAX as int, e0.row as nat));
                    assert(false);
                }
                assert forall|e: Entry<CellFormat>| #![trigger ser_entry(e)]
                    lit_at(v@, i as int, ser_entry(e)) implies false by {
                    assert(exists|t: Entry<CellFormat>| lit_at(v@, i as int, ser_entry(t)));
                }
            }
            return None;
        },
    };
    let k2 = match expect_lit(v, k1, ",") {
        Some(k) => k,
        None => {
            proof {
                if has_w {
                    assert(num_at(v@, k0 as int, usize::MAX as int, e0.row as nat));
                    assert(false);
                }
                assert forall|e: Entry<CellFormat>| #![trigger ser_entry(e)]
                    lit_at(v@, i as int, ser_entry(e)) implies false by {
                    assert(exists|t: Entry<CellFormat>| lit_at(v@, i as int, ser_entry(t)));
                }
            }
            return None;
        },
    };
    let (col, k3) = match parse_usize_at(v, k2) {
        Some(p) => p,
        None => {
            proof {
                if has_w {
                    assert(num_at(v@, k0 as int, usize::MAX as int, e0.row as nat));
                    assert(num_at(v@, k2 as int, usize::MAX as int, e0.col as nat));
                    assert(false);
                }
                assert forall|e: Entry<CellFormat>| #![trigger ser_entry(e)]
                    lit_at(v@, i as int, ser_entry(e)) implies false by {
                    assert(exists|t: Entry<CellFormat>| lit_at(v@, i as int, ser_entry(t)));
                }
            }
            return None;
        },
    };
    let k4 = match expect_lit(v, k3, "\":") {
        Some(k) => k,
        None => {
            proof {
                if has_w {
                    assert(num_at(v@, k0 as int, usize::MAX as int, e0.row as nat));
                    assert(num_at(v@, k2 as int, usize::MAX as int, e0.col as nat));
                    assert(false);
                }
                assert forall|e: Entry<CellFormat>| #![trigger ser_entry(e)]
                    lit_at(v@, i as int, ser_entry(e)) implies false by {
                    assert(exists|t: Entry<CellFormat>| lit_at(v@, i as int, ser_entry(t)));
                }
            }
            return None;
        },
    };
    let (f, k5) = match parse_format_at(v, k4) {
        Some(p) => p,
        None => {
            proof {
                if has_w {
                    assert(num_at(v@, k0 as int, usize::MAX as int, e0.row as nat));
                    assert(num_at(v@, k2 as int, usize::MAX as int, e0.col as nat));
                    assert(false);
                }
                assert forall|e: Entry<CellFormat>| #![trigger ser_entry(e)]
                    lit_at(v@, i as int, ser_entry(e)) implies false by {
                    assert(exists|t: Entry<CellFormat>| lit_at(v@, i as int, ser_entry(t)));
                }
            }
            return None;
        },
    };
    proof {
        assert forall|e: Entry<CellFormat>| #![trigger ser_entry(e)]
            lit_at(v@, i as int, ser_entry(e)) implies (row == e.row && col == e.col && f == e.val
            && k5 as int == i + ser_entry(e).len()) by {
            lemma_lit_at_stream(v@, i as int, ser_entry(e));
            lemma_lit_at_stream(v@, i as int, ser_entry(e0));
            lemma_entry_unambiguous(
                e,
                e0,
                v@.skip(i + ser_entry(e).len()),
                v@.skip(i + ser_entry(e0).len()),
            );
            assert(e == e0);
            assert(num_at(v@, k0 as int, usize::MAX as int, e0.row as nat));
            assert(num_at(v@, k2 as int, usize::MAX as int, e0.col as nat));
        }
    }
    Some(((row, col, f), k5))
}

/// Parse the formatting overlay object at position `i`. A canonically
/// written overlay is always read back, as the map its entries denote.
#[verifier::spinoff_prover]
#[verifier::rlimit(100)]
fn parse_fmt_map_at(v: &Vec<char>, i: usize) -> (r: Option<(FormatMap, usize)>)
    ensures
        r matches Some(p) ==> i <= p.1 <= v@.len() && p.0.wf(),
        forall|es: Seq<Entry<CellFormat>>| #![trigger ser_fmt_map(es)]
            lit_at(v@, i as int, ser_fmt_map(es)) ==> (r matches Some(p) && p.0@ == map_of(es)
                && p.1 as int == i + ser_fmt_map(es).len()),
{
    let ghost has_w = exists|es: Seq<Entry<CellFormat>>| lit_at(v@, i as int, ser_fmt_map(es));
    let ghost es0: Seq<Entry<CellFormat>> = if has_w {
        choose|es: Seq<Entry<CellFormat>>| lit_at(v@, i as int, ser_fmt_map(es))
    } else {
        Seq::empty()
    };
    let ghost rest0: Seq<char> = v@.skip(i + ser_fmt_map(es0).len());
    proof {
        reveal_strlit("{");
        reveal_strlit("}");
        reveal_strlit(",");
        assert("{"@ =~= seq!['{']);
        assert("}"@ =~= seq!['}']);
        assert(","@ =~= seq![',']);
        if has_w {
            lemma_lit_at_stream(v@, i as int, ser_fmt_map(es0));
        }
    }
    let mut fm = FormatMap::new();
    let j0 = match expect_lit(v, i, "{") {
        Some(j) => j,
        None => {
            proof {
                if has_w {
                    assert(ser_fmt_map(es0)[0] == '{');
                    lemma_lit_char(v@, i as int, ser_fmt_map(es0), 0);
                    assert(lit_at(v@, i as int, "{"@)) by {
                        assert(v@.subrange(i as int, i as int + 1) =~= seq!['{']);
                    }
                    assert(false);
                }
                assert forall|es: Seq<Entry<CellFormat>>| #![trigger ser_fmt_map(es)]
                    lit_at(v@, i as int, ser_fmt_map(es)) implies false by {
                    assert(exists|t: Seq<Entry<CellFormat>>| lit_at(v@, i as int, ser_fmt_map(t)));
                }
            }
            return None;
        },
    };
    match expect_lit(v, j0, "}") {
        Some(j) => {
            proof {
                assert forall|es: Seq<Entry<CellFormat>>| #![trigger ser_fmt_map(es)]
                    lit_at(v@, i as int, ser_fmt_map(es)) implies (fm@ == map_of(es) && j as int
                    == i + ser_fmt_map(es).len()) by {
                    if es.len() > 0 {
                        lemma_fmt_map_rebracket(es, Seq::empty());
                        assert(ser_fmt_map(es) + Seq::<char>::empty() =~= ser_fmt_map(es));
                        lemma_lit_at_concat(
                            v@,
                            i as int,
                            seq!['{'],
                            ser_entry(es[0]) + (fmt_tail(es.skip(1)) + Seq::<char>::empty()),
                        );
                        lemma_lit_at_concat(
                            v@,
                            i as int + 1,
                            ser_entry(es[0]),
                            fmt_tail(es.skip(1)) + Seq::<char>::empty(),
                        );
                        lemma_lit_char(v@, i as int + 1, ser_entry(es[0]), 0);
                        assert(ser_entry(es[0])[0] == '"');
                        lemma_lit_char(v@, j0 as int, "}"@, 0);
                        assert(false);
                    }
                    assert(ser_fmt_map(es) =~= seq!['{'] + seq!['}']);
                    assert(map_of(es) =~= Map::<(usize, usize), CellFormat>::empty());
                }
            }
            return Some((fm, j));
        },
        None => {},
    }
    proof {
        if has_w && es0.len() == 0 {
            assert(ser_fmt_map(es0) =~= seq!['{'] + seq!['}']);
            lemma_lit_at_concat(v@, i as int, seq!['{'], seq!['}']);
            assert(false);
        }
        if has_w {
            lemma_fmt_map_rebracket(es0, rest0);
            lemma_stream_lit(
                v@,
                i as int,
                seq!['{'],
                ser_entry(es0[0]) + (fmt_tail(es0.skip(1)) + rest0),
            );
        }
    }
    let mut j: usize = j0;
    let ghost mut t: int = 0;
    proof {
        if has_w {
            assert(fm@ =~= map_of(es0.take(0))) by {
                assert(es0.take(0) =~= Seq::<Entry<CellFormat>>::empty());
            }
        }
    }
    loop
        invariant
            i < j <= v@.len(),
            fm.wf(),
            has_w == exists|es: Seq<Entry<CellFormat>>| lit_at(v@, i as int, ser_fmt_map(es)),
            has_w ==> lit_at(v@, i as int, ser_fmt_map(es0)) && rest0 == v@.skip(
                i + ser_fmt_map(es0).len(),
            ),
            has_w ==> 0 <= t < es0.len() && fm@ == map_of(es0.take(t)) && v@.skip(j as int)
                == ser_entry(es0[t]) + (fmt_tail(es0.skip(t + 1)) + rest0),
        decreases v@.len() - j,
    {
        proof {
            if has_w {
                lemma_stream_lit(
                    v@,
                    j as int,
                    ser_entry(es0[t]),
                    fmt_tail(es0.skip(t + 1)) + rest0,
                );
            }
        }
        let (parsed, k5) = match parse_entry_at(v, j) {
            Some(p) => p,
            None => {
                proof {
                    if has_w {
                        assert(false);
                    }
                    assert forall|es: Seq<Entry<CellFormat>>| #![trigger ser_fmt_map(es)]
                        lit_at(v@, i as int, ser_fmt_map(es)) implies false by {
                        assert(exists|tt: Seq<Entry<CellFormat>>|
                            lit_at(v@, i as int, ser_fmt_map(tt)));
                    }
                }
                return None;
            },
        };
        let (row, col, f) = parsed;
        proof {
            if has_w {
                assert(row == es0[t].row && col == es0[t].col && f == es0[t].val);
                assert(es0.take(t + 1) =~= es0.take(t).push(es0[t]));
                crate::cellmap::lemma_push(es0.take(t), es0[t]);
                assert(v@.skip(k5 as int) == fmt_tail(es0.skip(t + 1)) + rest0);
            }
        }
        fm.set(row, col, f);
        proof {
            if has_w {
                assert(fm@ =~= map_of(es0.take(t + 1)));
            }
        }
        match expect_lit(v, k5, ",") {
            Some(k6) => {
                proof {
                    if has_w {
                        if t + 1 == es0.len() {
                            assert(fmt_tail(es0.skip(t + 1)) =~= seq!['}']) by {
                                assert(es0.skip(t + 1).len() == 0);
                            }
                            lemma_stream_lit(v@, k5 as int, seq!['}'], rest0);
                            lemma_lit_char(v@, k5 as int, seq!['}'], 0);
                            lemma_lit_char(v@, k5 as int, ","@, 0);
                            assert(false);
                        }
                        lemma_fmt_tail_rebracket(es0.skip(t + 1), rest0);
                        assert(es0.skip(t + 1)[0] == es0[t + 1]);
                        assert(es0.skip(t + 1).skip(1) =~= es0.skip(t + 2));
                        lemma_stream_lit(
                            v@,
                            k5 as int,
                            seq![','],
                            ser_entry(es0[t + 1]) + (fmt_tail(es0.skip(t + 2)) + rest0),
                        );
                        t = t + 1;
                    }
                }
                if k6 <= j {
                    proof {
                        if has_w {
                            assert(false);
                        }
                        assert forall|es: Seq<Entry<CellFormat>>| #![trigger ser_fmt_map(es)]
                            lit_at(v@, i as int, ser_fmt_map(es)) implies false by {
                            assert(exists|tt: Seq<Entry<CellFormat>>|
                                lit_at(v@, i as int, ser_fmt_map(tt)));
                        }
                    }
                    return None;
                }
                j = k6;
            },
            None => {
                proof {
                    if has_w && t + 1 < es0.len() {
                        lemma_fmt_tail_rebracket(es0.skip(t + 1), rest0);
                        lemma_stream_lit(
                            v@,
                            k5 as int,
                            seq![','],
                            ser_entry(es0.skip(t + 1)[0]) + (fmt_tail(es0.skip(t + 1).skip(1))
                                + rest0),
                        );
                        assert(lit_at(v@, k5 as int, ","@));
                        assert(false);
                    }
                }
                let k7 = match expect_lit(v, k5, "}") {
                    Some(k) => k,
                    None => {
                        proof {
                            if has_w {
                                assert(fmt_tail(es0.skip(t + 1)) =~= seq!['}']) by {
                                    assert(es0.skip(t + 1).len() == 0);
                                }
                                lemma_stream_lit(v@, k5 as int, seq!['}'], rest0);
                                assert(lit_at(v@, k5 as int, "}"@));
                                assert(false);
                            }
                            assert forall|es: Seq<Entry<CellFormat>>| #![trigger ser_fmt_map(es)]
                                lit_at(v@, i as int, ser_fmt_map(es)) implies false by {
                                assert(exists|tt: Seq<Entry<CellFormat>>|
                                    lit_at(v@, i as int, ser_fmt_map(tt)));
                            }
                        }
                        return None;
                    },
                };
                proof {
                    assert forall|es: Seq<Entry<CellFormat>>| #![trigger ser_fmt_map(es)]
                        lit_at(v@, i as int, ser_fmt_map(es)) implies (fm@ == map_of(es) && k7
                        as int == i + ser_fmt_map(es).len()) by {
                        lemma_lit_at_stream(v@, i as int, ser_fmt_map(es));
                        lemma_lit_at_stream(v@, i as int, ser_fmt_map(es0));
                        lemma_fmt_map_unambiguous(
                            es,
                            es0,
                            v@.skip(i + ser_fmt_map(es).len()),
                            v@.skip(i + ser_fmt_map(es0).len()),
                        );
                        assert(es == es0);
                        assert(t + 1 == es0.len());
                        assert(es0.take(t + 1) =~= es0);
                        assert(fmt_tail(es0.skip(t + 1)) =~= seq!['}']) by {
                            assert(es0.skip(t + 1).len() == 0);
                        }
                        assert(v@.skip(k5 as int).len() == 1 + rest0.len());
                        assert(rest0.len() == v@.len() - (i + ser_fmt_map(es0).len()));
                        assert(k7 as int == i + ser_fmt_map(es0).len());
                    }
                }
                return Some((fm, k7));
            },
        }
    }
}

proof fn lemma_names_tail_rebracket(t: Seq<Seq<char>>, r: Seq<char>)
    requires
        t.len() > 0,
    ensures
        names_tail(t) + r == seq![','] + (ser_str(t[0]) + (names_tail(t.skip(1)) + r)),
{
    let a = seq![','];
    let b = ser_str(t[0]);
    let c = names_tail(t.skip(1));
    assert(names_tail(t) == a + b + c);
    vstd::seq_lib::lemma_concat_associative(a + b, c, r);
    vstd::seq_lib::lemma_concat_associative(a, b, c + r);
}

proof fn lemma_names_rebracket(t: Seq<Seq<char>>, r: Seq<char>)
    requires
        t.len() > 0,
    ensures
        ser_names(t) + r == seq!['['] + (ser_str(t[0]) + (names_tail(t.skip(1)) + r)),
{
    let a = seq!['['];
    let b = ser_str(t[0]);
    let c = names_tail(t.skip(1));
    assert(ser_names(t) == a + (b + c));
    vstd::seq_lib::lemma_concat_associative(a, b + c, r);
    vstd::seq_lib::lemma_concat_associative(b, c, r);
}

/// Parse the column-name list at position `i`. A canonically written list is
/// always read back, exactly.
#[verifier::rlimit(100)]
fn parse_names_at(v: &Vec<char>, i: usize) -> (r: Option<(Vec<String>, usize)>)
    ensures
        r matches Some(p) ==> i <= p.1 <= v@.len(),
        forall|ns: Seq<Seq<char>>| #![trigger ser_names(ns)]
            lit_at(v@, i as int, ser_names(ns)) ==> (r matches Some(p) && p.0.deep_view() == ns
                && p.1 as int == i + ser_names(ns).len()),
{
    let ghost has_w = exists|ns: Seq<Seq<char>>| lit_at(v@, i as int, ser_names(ns));
    let ghost ns0: Seq<Seq<char>> = if has_w {
        choose|ns: Seq<Seq<char>>| lit_at(v@, i as int, ser_names(ns))
    } else {
        Seq::empty()
    };
    let ghost rest0: Seq<char> = v@.skip(i + ser_names(ns0).len());
    proof {
        reveal_strlit("[");
        reveal_strlit("]");
        reveal_strlit(",");
        assert("["@ =~= seq!['[']);
        assert("]"@ =~= seq![']']);
        assert(","@ =~= seq![',']);
        if has_w {
            lemma_lit_at_stream(v@, i as int, ser_names(ns0));
        }
    }
    let mut names: Vec<String> = Vec::new();
    let j0 = match expect_lit(v, i, "[") {
        Some(j) => j,
        None => {
            proof {
                if has_w {
                    lemma_lit_char(v@, i as int, ser_names(ns0), 0);
                    assert(ser_names(ns0)[0] == '[');
                    assert(lit_at(v@, i as int, "["@)) by {
                        assert(v@.subrange(i as int, i as int + 1) =~= seq!['[']);
                    }
                    assert(false);
                }
                assert forall|ns: Seq<Seq<char>>| #![trigger ser_names(ns)]
                    lit_at(v@, i as int, ser_names(ns)) implies false by {
                    assert(exists|t: Seq<Seq<char>>| lit_at(v@, i as int, ser_names(t)));
                }
            }
            return None;
        },
    };
    match expect_lit(v, j0, "]") {
        Some(j) => {
            proof {
                assert forall|ns: Seq<Seq<char>>| #![trigger ser_names(ns)]
                    lit_at(v@, i as int, ser_names(ns)) implies (names.deep_view() == ns && j
                    as int == i + ser_names(ns).len()) by {
                    if ns.len() > 0 {
                        lemma_names_rebracket(ns, Seq::empty());
                        assert(ser_names(ns) + Seq::<char>::empty() =~= ser_names(ns));
                        lemma_lit_at_concat(
                            v@,
                            i as int,
                            seq!['['],
                            ser_str(ns[0]) + (names_tail(ns.skip(1)) + Seq::<char>::empty()),
                        );
                        lemma_lit_at_concat(
                            v@,
                            i as int + 1,
                            ser_str(ns[0]),
                            names_tail(ns.skip(1)) + Seq::<char>::empty(),
                        );
                        lemma_lit_char(v@, i as int + 1, ser_str(ns[0]), 0);
                        assert(ser_str(ns[0])[0] == '"');
                        lemma_lit_char(v@, j0 as int, "]"@, 0);
                        assert(false);
                    }
                    assert(ser_names(ns) =~= seq!['['] + seq![']']);
                    assert(names.deep_view() =~= ns);
                }
            }
            return Some((names, j));
        },
        None => {},
    }
    proof {
        if has_w && ns0.len() == 0 {
            assert(ser_names(ns0) =~= seq!['['] + seq![']']);
            lemma_lit_at_concat(v@, i as int, seq!['['], seq![']']);
            assert(false);
        }
        if has_w {
            lemma_names_rebracket(ns0, rest0);
            lemma_stream_lit(
                v@,
                i as int,
                seq!['['],
                ser_str(ns0[0]) + (names_tail(ns0.skip(1)) + rest0),
            );
        }
    }
    let mut j: usize = j0;
    let ghost mut t: int = 0;
    proof {
        if has_w {
            assert(names.deep_view() =~= ns0.take(0));
        }
    }
    loop
        invariant
            i < j <= v@.len(),
            has_w == exists|ns: Seq<Seq<char>>| lit_at(v@, i as int, ser_names(ns)),
            has_w ==> lit_at(v@, i as int, ser_names(ns0)) && rest0 == v@.skip(
                i + ser_names(ns0).len(),
            ),
            has_w ==> 0 <= t < ns0.len() && names.deep_view() == ns0.take(t) && v@.skip(j as int)
                == ser_str(ns0[t]) + (names_tail(ns0.skip(t + 1)) + rest0),
        decreases v@.len() - j,
    {
        proof {
            if has_w {
                lemma_stream_lit(v@, j as int, ser_str(ns0[t]), names_tail(ns0.skip(t + 1))
                    + rest0);
            }
        }
        let (sname, k0) = match parse_string_at(v, j) {
            Some(p) => p,
            None => {
                proof {
                    if has_w {
                        assert(false);
                    }
                    assert forall|ns: Seq<Seq<char>>| #![trigger ser_names(ns)]
                        lit_at(v@, i as int, ser_names(ns)) implies false by {
                        assert(exists|tt: Seq<Seq<char>>| lit_at(v@, i as int, ser_names(tt)));
                    }
                }
                return None;
            },
        };
        proof {
            if has_w {
                assert(sname@ == ns0[t]);
                assert(ns0.take(t + 1) =~= ns0.take(t).push(ns0[t]));
                assert(v@.skip(k0 as int) == names_tail(ns0.skip(t + 1)) + rest0);
            }
        }
        let ghost prev = names.deep_view();
        names.push(sname);
        proof {
            if has_w {
                assert(names.deep_view() =~= prev.push(ns0[t]));
            }
        }
        match expect_lit(v, k0, ",") {
            Some(k1) => {
                proof {
                    if has_w {
                        if t + 1 == ns0.len() {
                            assert(names_tail(ns0.skip(t + 1)) =~= seq![']']) by {
                                assert(ns0.skip(t + 1).len() == 0);
                            }
                            lemma_stream_lit(v@, k0 as int, seq![']'], rest0);
                            lemma_lit_char(v@, k0 as int, seq![']'], 0);
                            lemma_lit_char(v@, k0 as int, ","@, 0);
                            assert(false);
                        }
                        lemma_names_tail_rebracket(ns0.skip(t + 1), rest0);
                        assert(ns0.skip(t + 1)[0] == ns0[t + 1]);
                        assert(ns0.skip(t + 1).skip(1) =~= ns0.skip(t + 2));
                        lemma_stream_lit(
                            v@,
                            k0 as int,
                            seq![','],
                            ser_str(ns0[t + 1]) + (names_tail(ns0.skip(t + 2)) + rest0),
                        );
                        t = t + 1;
                    }
                }
                if k1 <= j {
                    proof {
                        if has_w {
                            assert(false);
                        }
                        assert forall|ns: Seq<Seq<char>>| #![trigger ser_names(ns)]
                            lit_at(v@, i as int, ser_names(ns)) implies false by {
                            assert(exists|tt: Seq<Seq<char>>| lit_at(v@, i as int, ser_names(tt)));
                        }
                    }
                    return None;
                }
                j = k1;
            },
            None => {
                proof {
                    if has_w && t + 1 < ns0.len() {
                        lemma_names_tail_rebracket(ns0.skip(t + 1), rest0);
                        lemma_stream_lit(
                            v@,
                            k0 as int,
                            seq![','],
                            ser_str(ns0.skip(t + 1)[0]) + (names_tail(ns0.skip(t + 1).skip(1))
                                + rest0),
                        );
                        assert(lit_at(v@, k0 as int, ","@));
                        assert(false);
                    }
                }
                let k2 = match expect_lit(v, k0, "]") {
                    Some(k) => k,
                    None => {
                        proof {
                            if has_w {
                                assert(names_tail(ns0.skip(t + 1)) =~= seq![']']) by {
                                    assert(ns0.skip(t + 1).len() == 0);
                                }
                                lemma_stream_lit(v@, k0 as int, seq![']'], rest0);
                                assert(lit_at(v@, k0 as int, "]"@));
                                assert(false);
                            }
                            assert forall|ns: Seq<Seq<char>>| #![trigger ser_names(ns)]
                                lit_at(v@, i as int, ser_names(ns)) implies false by {
                                assert(exists|tt: Seq<Seq<char>>|
                                    lit_at(v@, i as int, ser_names(tt)));
                            }
                        }
                        return None;
                    },
                };
                proof {
                    assert forall|ns: Seq<Seq<char>>| #![trigger ser_names(ns)]
                        lit_at(v@, i as int, ser_names(ns)) implies (names.deep_view() == ns && k2
                        as int == i + ser_names(ns).len()) by {
                        lemma_lit_at_stream(v@, i as int, ser_names(ns));
                        lemma_lit_at_stream(v@, i as int, ser_names(ns0));
                        lemma_names_unambiguous(
                            ns,
                            ns0,
                            v@.skip(i + ser_names(ns).len()),
                            v@.skip(i + ser_names(ns0).len()),
                        );
                        assert(ns == ns0);
                        assert(t + 1 == ns0.len());
                        assert(ns0.take(t + 1) =~= ns0);
                        assert(names_tail(ns0.skip(t + 1)) =~= seq![']']) by {
                            assert(ns0.skip(t + 1).len() == 0);
                        }
                        assert(v@.skip(k0 as int).len() == 1 + rest0.len());
                        assert(rest0.len() == v@.len() - (i + ser_names(ns0).len()));
                        assert(k2 as int == i + ser_names(ns0).len());
                    }
                }
                return Some((names, k2));
            },
        }
    }
}

proof fn lemma_widths_tail_rebracket(t: Seq<u32>, r: Seq<char>)
    requires
        t.len() > 0,
    ensures
        widths_tail(t) + r == seq![','] + (dec_str(t[0] as nat) + (widths_tail(t.skip(1)) + r)),
{
    let a = seq![','];
    let b = dec_str(t[0] as nat);
    let c = widths_tail(t.skip(1));
    assert(widths_tail(t) == a + b + c);
    vstd::seq_lib::lemma_concat_associative(a + b, c, r);
    vstd::seq_lib::lemma_concat_associative(a, b, c + r);
}

proof fn lemma_widths_rebracket(t: Seq<u32>, r: Seq<char>)
    requires
        t.len() > 0,
    ensures
        ser_widths(t) + r == seq!['['] + (dec_str(t[0] as nat) + (widths_tail(t.skip(1)) + r)),
{
    let a = seq!['['];
    let b = dec_str(t[0] as nat);
    let c = widths_tail(t.skip(1));
    assert(ser_widths(t) == a + (b + c));
    vstd::seq_lib::lemma_concat_associative(a, b + c, r);
    vstd::seq_lib::lemma_concat_associative(b, c, r);
}

/// The character right after a width in the list is a bracket or comma,
/// never a digit.
proof fn lemma_width_follower(v: Seq<char>, pos: int, rest: Seq<u32>, rest0: Seq<char>)
    requires
        0 <= pos <= v.len(),
        v.skip(pos) == widths_tail(rest) + rest0,
    ensures
        pos < v.len(),
        !is_digit(v[pos]),
{
    if rest.len() == 0 {
        lemma_stream_lit(v, pos, seq![']'], rest0);
        lemma_lit_char(v, pos, seq![']'], 0);
    } else {
        lemma_widths_tail_rebracket(rest, rest0);
        vstd::seq_lib::lemma_concat_associative(
            seq![','],
            dec_str(rest[0] as nat),
            widths_tail(rest.skip(1)) + rest0,
        );
        lemma_stream_lit(
            v,
            pos,
            seq![','],
            dec_str(rest[0] as nat) + (widths_tail(rest.skip(1)) + rest0),
        );
        lemma_lit_char(v, pos, seq![','], 0);
    }
}

/// Parse the column-width list at position `i`. A canonically written list
/// is always read back, exactly.
#[verifier::rlimit(100)]
fn parse_widths_at(v: &Vec<char>, i: usize) -> (r: Option<(Vec<u32>, usize)>)
    ensures
        r matches Some(p) ==> i <= p.1 <= v@.len(),
        forall|ws: Seq<u32>| #![trigger ser_widths(ws)]
            lit_at(v@, i as int, ser_widths(ws)) ==> (r matches Some(p) && p.0@ == ws && p.1 as int
                == i + ser_widths(ws).len()),
{
    let ghost has_w = exists|ws: Seq<u32>| lit_at(v@, i as int, ser_widths(ws));
    let ghost ws0: Seq<u32> = if has_w {
        choose|ws: Seq<u32>| lit_at(v@, i as int, ser_widths(ws))
    } else {
        Seq::empty()
    };
    let ghost rest0: Seq<char> = v@.skip(i + ser_widths(ws0).len());
    proof {
        reveal_strlit("[");
        reveal_strlit("]");
        reveal_strlit(",");
        assert("["@ =~= seq!['[']);
        assert("]"@ =~= seq![']']);
        assert(","@ =~= seq![',']);
        if has_w {
            lemma_lit_at_stream(v@, i as int, ser_widths(ws0));
        }
    }
    let mut ws: Vec<u32> = Vec::new();
    let j0 = match expect_lit(v, i, "[") {
        Some(j) => j,
        None => {
            proof {
                if has_w {
                    lemma_lit_char(v@, i as int, ser_widths(ws0), 0);
                    assert(ser_widths(ws0)[0] == '[');
                    assert(lit_at(v@, i as int, "["@)) by {
                        assert(v@.subrange(i as int, i as int + 1) =~= seq!['[']);
                    }
                    assert(false);
                }
                assert forall|w: Seq<u32>| #![trigger ser_widths(w)]
                    lit_at(v@, i as int, ser_widths(w)) implies false by {
                    assert(exists|t: Seq<u32>| lit_at(v@, i as int, ser_widths(t)));
                }
            }
            return None;
        },
    };
    match expect_lit(v, j0, "]") {
        Some(j) => {
            proof {
                assert forall|w: Seq<u32>| #![trigger ser_widths(w)]
                    lit_at(v@, i as int, ser_widths(w)) implies (ws@ == w && j as int == i
                    + ser_widths(w).len()) by {
                    if w.len() > 0 {
                        lemma_widths_rebracket(w, Seq::empty());
                        assert(ser_widths(w) + Seq::<char>::empty() =~= ser_widths(w));
                        lemma_lit_at_concat(
                            v@,
                            i as int,
                            seq!['['],
                            dec_str(w[0] as nat) + (widths_tail(w.skip(1)) + Seq::<char>::empty()),
                        );
                        lemma_lit_at_concat(
                            v@,
                            i as int + 1,
                            dec_str(w[0] as nat),
                            widths_tail(w.skip(1)) + Seq::<char>::empty(),
                        );
                        lemma_lit_char(v@, i as int + 1, dec_str(w[0] as nat), 0);
                        crate::text::lemma_dec_str_digits(w[0] as nat);
                        lemma_lit_char(v@, j0 as int, "]"@, 0);
                        assert(is_digit(v@[j0 as int]));
                        assert(false);
                    }
                    assert(ser_widths(w) =~= seq!['['] + seq![']']);
                    assert(ws@ =~= w);
                }
            }
            return Some((ws, j));
        },
        None => {},
    }
    proof {
        if has_w && ws0.len() == 0 {
            assert(ser_widths(ws0) =~= seq!['['] + seq![']']);
            lemma_lit_at_concat(v@, i as int, seq!['['], seq![']']);
            assert(false);
        }
        if has_w {
            lemma_widths_rebracket(ws0, rest0);
            lemma_stream_lit(
                v@,
                i as int,
                seq!['['],
                dec_str(ws0[0] as nat) + (widths_tail(ws0.skip(1)) + rest0),
            );
        }
    }
    let mut j: usize = j0;
    let ghost mut t: int = 0;
    loop
        invariant
            i < j <= v@.len(),
            has_w == exists|w: Seq<u32>| lit_at(v@, i as int, ser_widths(w)),
            has_w ==> lit_at(v@, i as int, ser_widths(ws0)) && rest0 == v@.skip(
                i + ser_widths(ws0).len(),
            ),
            has_w ==> 0 <= t < ws0.len() && ws@ == ws0.take(t) && v@.skip(j as int) == dec_str(
                ws0[t] as nat,
            ) + (widths_tail(ws0.skip(t + 1)) + rest0),
        decreases v@.len() - j,
    {
        proof {
            if has_w {
                lemma_stream_lit(v@, j as int, dec_str(ws0[t] as nat), widths_tail(ws0.skip(t + 1))
                    + rest0);
                lemma_width_follower(
                    v@,
                    j + dec_str(ws0[t] as nat).len(),
                    ws0.skip(t + 1),
                    rest0,
                );
                assert(num_at(v@, j as int, 0xffff_ffff, ws0[t] as nat));
            }
        }
        let (w, k0) = match parse_u32_at(v, j) {
            Some(p) => p,
            None => {
                proof {
                    if has_w {
                        assert(false);
                    }
                    assert forall|ww: Seq<u32>| #![trigger ser_widths(ww)]
                        lit_at(v@, i as int, ser_widths(ww)) implies false by {
                        assert(exists|tt: Seq<u32>| lit_at(v@, i as int, ser_widths(tt)));
                    }
                }
                return None;
            },
        };
        proof {
            if has_w {
                assert(w == ws0[t]);
                assert(ws0.take(t + 1) =~= ws0.take(t).push(ws0[t]));
                assert(v@.skip(k0 as int) == widths_tail(ws0.skip(t + 1)) + rest0);
            }
        }
        ws.push(w);
        proof {
            if has_w {
                assert(ws@ =~= ws0.take(t + 1));
            }
        }
        match expect_lit(v, k0, ",") {
            Some(k1) => {
                proof {
                    if has_w {
                        if t + 1 == ws0.len() {
                            assert(widths_tail(ws0.skip(t + 1)) =~= seq![']']) by {
                                assert(ws0.skip(t + 1).len() == 0);
                            }
                            lemma_stream_lit(v@, k0 as int, seq![']'], rest0);
                            lemma_lit_char(v@, k0 as int, seq![']'], 0);
                            lemma_lit_char(v@, k0 as int, ","@, 0);
                            assert(false);
                        }
                        lemma_widths_tail_rebracket(ws0.skip(t + 1), rest0);
                        assert(ws0.skip(t + 1)[0] == ws0[t + 1]);
                        assert(ws0.skip(t + 1).skip(1) =~= ws0.skip(t + 2));
                        lemma_stream_lit(
                            v@,
                            k0 as int,
                            seq![','],
                            dec_str(ws0[t + 1] as nat) + (widths_tail(ws0.skip(t + 2)) + rest0),
                        );
                        t = t + 1;
                    }
                }
                if k1 <= j {
                    proof {
                        if has_w {
                            assert(false);
                        }
                        assert forall|ww: Seq<u32>| #![trigger ser_widths(ww)]
                            lit_at(v@, i as int, ser_widths(ww)) implies false by {
                            assert(exists|tt: Seq<u32>| lit_at(v@, i as int, ser_widths(tt)));
                        }
                    }
                    return None;
                }
                j = k1;
            },
            None => {
                proof {
                    if has_w && t + 1 < ws0.len() {
                        lemma_widths_tail_rebracket(ws0.skip(t + 1), rest0);
                        lemma_stream_lit(
                            v@,
                            k0 as int,
                            seq![','],
                            dec_str(ws0.skip(t + 1)[0] as nat) + (widths_tail(
                                ws0.skip(t + 1).skip(1),
                            ) + rest0),
                        );
                        assert(lit_at(v@, k0 as int, ","@));
                        assert(false);
                    }
                }
                let k2 = match expect_lit(v, k0, "]") {
                    Some(k) => k,
                    None => {
                        proof {
                            if has_w {
                                assert(widths_tail(ws0.skip(t + 1)) =~= seq![']']) by {
                                    assert(ws0.skip(t + 1).len() == 0);
                                }
                                lemma_stream_lit(v@, k0 as int, seq![']'], rest0);
                                assert(lit_at(v@, k0 as int, "]"@));
                                assert(false);
                            }
                            assert forall|ww: Seq<u32>| #![trigger ser_widths(ww)]
                                lit_at(v@, i as int, ser_widths(ww)) implies false by {
                                assert(exists|tt: Seq<u32>| lit_at(v@, i as int, ser_widths(tt)));
                            }
                        }
                        return None;
                    },
                };
                proof {
                    assert forall|ww: Seq<u32>| #![trigger ser_widths(ww)]
                        lit_at(v@, i as int, ser_widths(ww)) implies (ws@ == ww && k2 as int == i
                        + ser_widths(ww).len()) by {
                        lemma_lit_at_stream(v@, i as int, ser_widths(ww));
                        lemma_lit_at_stream(v@, i as int, ser_widths(ws0));
                        lemma_widths_unambiguous(
                            ww,
                            ws0,
                            v@.skip(i + ser_widths(ww).len()),
                            v@.skip(i + ser_widths(ws0).len()),
                        );
                        assert(ww == ws0);
                        assert(t + 1 == ws0.len());
                        assert(ws0.take(t + 1) =~= ws0);
                        assert(widths_tail(ws0.skip(t + 1)) =~= seq![']']) by {
                            assert(ws0.skip(t + 1).len() == 0);
                        }
                        assert(v@.skip(k0 as int).len() == 1 + rest0.len());
                        assert(rest0.len() == v@.len() - (i + ser_widths(ws0).len()));
                        assert(k2 as int == i + ser_widths(ws0).len());
                    }
                }
                return Some((ws, k2));
            },
        }
    }
}

/// The serialized selected-cell field.
pub open spec fn ser_selected(sel: Option<(usize, usize)>) -> Seq<char> {
    match sel {
        None => "null"@,
        Some(rc) => seq!['['] + dec_str(rc.0 as nat) + seq![','] + dec_str(rc.1 as nat)
            + seq![']'],
    }
}

proof fn lemma_view_rebracket2(w: ViewSettings, r: Seq<char>)
    ensures
        ser_view(w) + r == "{\"scroll\":"@ + (dec_str(w.scroll_position as nat) + (
        ",\"selected\":"@ + (ser_selected(w.selected_cell) + (",\"zoom\":"@ + (dec_str(
            w.zoom_level as nat,
        ) + (seq!['}'] + r)))))),
{
    let l1 = "{\"scroll\":"@;
    let d1 = dec_str(w.scroll_position as nat);
    let l2 = ",\"selected\":"@;
    let sel = ser_selected(w.selected_cell);
    let l3 = ",\"zoom\":"@;
    let d2 = dec_str(w.zoom_level as nat);
    let e = seq!['}'];
    assert(ser_view(w) == l1 + d1 + l2 + sel + l3 + d2 + e);
    vstd::seq_lib::lemma_concat_associative(l1 + d1 + l2 + sel + l3 + d2, e, r);
    vstd::seq_lib::lemma_concat_associative(l1 + d1 + l2 + sel + l3, d2, e + r);
    vstd::seq_lib::lemma_concat_associative(l1 + d1 + l2 + sel, l3, d2 + (e + r));
    vstd::seq_lib::lemma_concat_associative(l1 + d1 + l2, sel, l3 + (d2 + (e + r)));
    vstd::seq_lib::lemma_concat_associative(l1 + d1, l2, sel + (l3 + (d2 + (e + r))));
    vstd::seq_lib::lemma_concat_associative(l1, d1, l2 + (sel + (l3 + (d2 + (e + r)))));
}

proof fn lemma_sel_rebracket(rc: (usize, usize), r: Seq<char>)
    ensures
        ser_selected(Some(rc)) + r == seq!['['] + (dec_str(rc.0 as nat) + (seq![','] + (dec_str(
            rc.1 as nat,
        ) + (seq![']'] + r)))),
{
    let sb = seq!['['];
    let d0 = dec_str(rc.0 as nat);
    let sc = seq![','];
    let d1 = dec_str(rc.1 as nat);
    let se = seq![']'];
    assert(ser_selected(Some(rc)) == sb + d0 + sc + d1 + se);
    vstd::seq_lib::lemma_concat_associative(sb + d0 + sc + d1, se, r);
    vstd::seq_lib::lemma_concat_associative(sb + d0 + sc, d1, se + r);
    vstd::seq_lib::lemma_concat_associative(sb + d0, sc, d1 + (se + r));
    vstd::seq_lib::lemma_concat_associative(sb, d0, sc + (d1 + (se + r)));
}

/// Facts placing every piece of a serialized view state at its position.
proof fn lemma_view_pieces(v: Seq<char>, i: int, w: ViewSettings)
    requires
        lit_at(v, i, ser_view(w)),
    ensures
        ({
            let p0 = i + "{\"scroll\":"@.len();
            let d1l = dec_str(w.scroll_position as nat).len();
            let p1 = p0 + d1l + ",\"selected\":"@.len();
            let p2 = p1 + ser_selected(w.selected_cell).len() + ",\"zoom\":"@.len();
            let d2l = dec_str(w.zoom_level as nat).len();
            &&& lit_at(v, i, "{\"scroll\":"@)
            &&& num_at(v, p0, 0xffff_ffff, w.scroll_position as nat)
            &&& lit_at(v, p0 + d1l, ",\"selected\":"@)
            &&& lit_at(v, p1, ser_selected(w.selected_cell))
            &&& lit_at(v, p1 + ser_selected(w.selected_cell).len(), ",\"zoom\":"@)
            &&& num_at(v, p2, 0xffff_ffff, w.zoom_level as nat)
            &&& lit_at(v, p2 + d2l, seq!['}'])
            &&& i + ser_view(w).len() == p2 + d2l + 1
        }),
{
    reveal_strlit(",\"selected\":");
    reveal_strlit(",\"zoom\":");
    lemma_view_rebracket2(w, Seq::empty());
    assert(ser_view(w) + Seq::<char>::empty() =~= ser_view(w));
    let d1 = dec_str(w.scroll_position as nat);
    let sel = ser_selected(w.selected_cell);
    let d2 = dec_str(w.zoom_level as nat);
    let e = seq!['}'] + Seq::<char>::empty();
    let t4 = d2 + e;
    let t3 = sel + (",\"zoom\":"@ + t4);
    let t2 = ",\"selected\":"@ + t3;
    let t1 = d1 + t2;
    assert(lit_at(v, i, "{\"scroll\":"@ + t1));
    lemma_lit_at_concat(v, i, "{\"scroll\":"@, t1);
    let p0 = i + "{\"scroll\":"@.len();
    lemma_lit_at_concat(v, p0, d1, t2);
    lemma_lit_at_concat(v, p0 + d1.len(), ",\"selected\":"@, t3);
    let p1 = p0 + d1.len() + ",\"selected\":"@.len();
    lemma_lit_at_concat(v, p1, sel, ",\"zoom\":"@ + t4);
    lemma_lit_at_concat(v, p1 + sel.len(), ",\"zoom\":"@, t4);
    let p2 = p1 + sel.len() + ",\"zoom\":"@.len();
    lemma_lit_at_concat(v, p2, d2, e);
    lemma_lit_at_concat(v, p2 + d2.len(), seq!['}'], Seq::<char>::empty());
    lemma_lit_char(v, p0 + d1.len(), ",\"selected\":"@, 0);
    lemma_lit_char(v, p2 + d2.len(), seq!['}'], 0);
}

/// Parse the view state at position `i`. A canonically written view state is
/// always read back, exactly.
#[verifier::rlimit(100)]
fn parse_view_at(v: &Vec<char>, i: usize) -> (r: Option<(ViewSettings, usize)>)
    ensures
        r matches Some(p) ==> i <= p.1 <= v@.len(),
        forall|w: ViewSettings| #![trigger ser_view(w)]
            lit_at(v@, i as int, ser_view(w)) ==> (r matches Some(p) && p.0 == w && p.1 as int == i
                + ser_view(w).len()),
{
    let ghost has_w = exists|w: ViewSettings| lit_at(v@, i as int, ser_view(w));
    let ghost w0: ViewSettings = if has_w {
        choose|w: ViewSettings| lit_at(v@, i as int, ser_view(w))
    } else {
        ViewSettings { scroll_position: 0, selected_cell: None, zoom_level: 0 }
    };
    proof {
        reveal_strlit("null");
        reveal_strlit("[");
        reveal_strlit(",");
        reveal_strlit("]");
        assert("["@ =~= seq!['[']);
        assert(","@ =~= seq![',']);
        assert("]"@ =~= seq![']']);
        if has_w {
            lemma_view_pieces(v@, i as int, w0);
            match w0.selected_cell {
                None => {},
                Some(rc) => {
                    let p1 = i + "{\"scroll\":"@.len() + dec_str(w0.scroll_position as nat).len()
                        + ",\"selected\":"@.len();
                    lemma_sel_rebracket(rc, Seq::empty());
                    assert(ser_selected(Some(rc)) + Seq::<char>::empty() =~= ser_selected(
                        Some(rc),
                    ));
                    let se = seq![']'] + Seq::<char>::empty();
                    let u1 = dec_str(rc.1 as nat) + se;
                    let u0 = dec_str(rc.0 as nat) + (seq![','] + u1);
                    assert(lit_at(v@, p1, seq!['['] + u0));
                    lemma_lit_at_concat(v@, p1, seq!['['], u0);
                    lemma_lit_at_concat(v@, p1 + 1, dec_str(rc.0 as nat), seq![','] + u1);
                    lemma_lit_at_concat(v@, p1 + 1 + dec_str(rc.0 as nat).len(), seq![','], u1);
                    let q1 = p1 + 1 + dec_str(rc.0 as nat).len() + 1;
                    lemma_lit_at_concat(v@, q1, dec_str(rc.1 as nat), se);
                    lemma_lit_at_concat(v@, q1 + dec_str(rc.1 as nat).len(), seq![']'],
                        Seq::<char>::empty());
                    lemma_lit_char(v@, p1 + 1 + dec_str(rc.0 as nat).len(), seq![','], 0);
                    lemma_lit_char(v@, q1 + dec_str(rc.1 as nat).len(), seq![']'], 0);
                },
            }
        }
    }
    let j0 = match expect_lit(v, i, "{\"scroll\":") {
        Some(j) => j,
        None => {
            proof {
                if has_w {
                    assert(false);
                }
                assert forall|w: ViewSettings| #![trigger ser_view(w)]
                    lit_at(v@, i as int, ser_view(w)) implies false by {
                    assert(exists|t: ViewSettings| lit_at(v@, i as int, ser_view(t)));
                }
            }
            return None;
        },
    };
    let (scroll, j1) = match parse_u32_at(v, j0) {
        Some(p) => p,
        None => {
            proof {
                if has_w {
                    assert(num_at(v@, j0 as int, 0xffff_ffff, w0.scroll_position as nat));
                    assert(false);
                }
                assert forall|w: ViewSettings| #![trigger ser_view(w)]
                    lit_at(v@, i as int, ser_view(w)) implies false by {
                    assert(exists|t: ViewSettings| lit_at(v@, i as int, ser_view(t)));
                }
            }
            return None;
        },
    };
    let j2 = match expect_lit(v, j1, ",\"selected\":") {
        Some(j) => j,
        None => {
            proof {
                if has_w {
                    assert(num_at(v@, j0 as int, 0xffff_ffff, w0.scroll_position as nat));
                    assert(false);
                }
                assert forall|w: ViewSettings| #![trigger ser_view(w)]
                    lit_at(v@, i as int, ser_view(w)) implies false by {
                    assert(exists|t: ViewSettings| lit_at(v@, i as int, ser_view(t)));
                }
            }
            return None;
        },
    };
    proof {
        if has_w {
            assert(num_at(v@, j0 as int, 0xffff_ffff, w0.scroll_position as nat));
            assert(j2 as int == i + "{\"scroll\":"@.len() + dec_str(
                w0.scroll_position as nat,
            ).len() + ",\"selected\":"@.len());
        }
    }
    let (selected, j3) = match expect_lit(v, j2, "null") {
        Some(j) => {
            proof {
                if has_w && w0.selected_cell is Some {
                    lemma_lit_char(v@, j2 as int, ser_selected(w0.selected_cell), 0);
                    lemma_lit_char(v@, j2 as int, "null"@, 0);
                    assert(ser_selected(w0.selected_cell)[0] == '[');
                    assert(false);
                }
            }
            (None, j)
        },
        None => {
            proof {
                if has_w && w0.selected_cell is None {
                    assert(lit_at(v@, j2 as int, "null"@));
                    assert(false);
                }
            }
            let k0 = match expect_lit(v, j2, "[") {
                Some(k) => k,
                None => {
                    proof {
                        if has_w {
                            assert(lit_at(v@, j2 as int, seq!['[']));
                            assert(lit_at(v@, j2 as int, "["@)) by {
                                assert("["@ =~= seq!['[']);
                            }
                            assert(false);
                        }
                        assert forall|w: ViewSettings| #![trigger ser_view(w)]
                            lit_at(v@, i as int, ser_view(w)) implies false by {
                            assert(exists|t: ViewSettings| lit_at(v@, i as int, ser_view(t)));
                        }
                    }
                    return None;
                },
            };
            let ghost rc0: (usize, usize) = if has_w {
                w0.selected_cell->0
            } else {
                (0, 0)
            };
            let (r0, k1) = match parse_usize_at(v, k0) {
                Some(p) => p,
                None => {
                    proof {
                        if has_w {
                            assert(num_at(v@, k0 as int, usize::MAX as int, rc0.0 as nat));
                            assert(false);
                        }
                        assert forall|w: ViewSettings| #![trigger ser_view(w)]
                            lit_at(v@, i as int, ser_view(w)) implies false by {
                            assert(exists|t: ViewSettings| lit_at(v@, i as int, ser_view(t)));
                        }
                    }
                    return None;
                },
            };
            let k2 = match expect_lit(v, k1, ",") {
                Some(k) => k,
                None => {
                    proof {
                        if has_w {
                            assert(num_at(v@, k0 as int, usize::MAX as int, rc0.0 as nat));
                            assert(false);
                        }
                        assert forall|w: ViewSettings| #![trigger ser_view(w)]
                            lit_at(v@, i as int, ser_view(w)) implies false by {
                            assert(exists|t: ViewSettings| lit_at(v@, i as int, ser_view(t)));
                        }
                    }
                    return None;
                },
            };
            let (c0, k3) = match parse_usize_at(v, k2) {
                Some(p) => p,
                None => {
                    proof {
                        if has_w {
                            assert(num_at(v@, k0 as int, usize::MAX as int, rc0.0 as nat));
                            assert(num_at(v@, k2 as int, usize::MAX as int, rc0.1 as nat));
                            assert(false);
                        }
                        assert forall|w: ViewSettings| #![trigger ser_view(w)]
                            lit_at(v@, i as int, ser_view(w)) implies false by {
                            assert(exists|t: ViewSettings| lit_at(v@, i as int, ser_view(t)));
                        }
                    }
                    return None;
                },
            };
            let k4 = match expect_lit(v, k3, "]") {
                Some(k) => k,
                None => {
                    proof {
                        if has_w {
                            assert(num_at(v@, k0 as int, usize::MAX as int, rc0.0 as nat));
                            assert(num_at(v@, k2 as int, usize::MAX as int, rc0.1 as nat));
                            assert(false);
                        }
                        assert forall|w: ViewSettings| #![trigger ser_view(w)]
                            lit_at(v@, i as int, ser_view(w)) implies false by {
                            assert(exists|t: ViewSettings| lit_at(v@, i as int, ser_view(t)));
                        }
                    }
                    return None;
                },
            };
            proof {
                if has_w {
                    assert(num_at(v@, k0 as int, usize::MAX as int, rc0.0 as nat));
                    assert(num_at(v@, k2 as int, usize::MAX as int, rc0.1 as nat));
                    assert(r0 == rc0.0 && c0 == rc0.1);
                    assert(k4 as int == j2 + ser_selected(w0.selected_cell).len());
                }
            }
            (Some((r0, c0)), k4)
        },
    };
    proof {
        if has_w {
            assert(selected == w0.selected_cell) by {
                match w0.selected_cell {
                    None => {},
                    Some(rc) => {
                        assert(selected == Some((rc.0, rc.1)));
                        assert((rc.0, rc.1) == rc);
                    },
                }
            }
            assert(j3 as int == j2 + ser_selected(w0.selected_cell).len());
        }
    }
    let j4 = match expect_lit(v, j3, ",\"zoom\":") {
        Some(j) => j,
        None => {
            proof {
                if has_w {
                    assert(false);
                }
                assert forall|w: ViewSettings| #![trigger ser_view(w)]
                    lit_at(v@, i as int, ser_view(w)) implies false by {
                    assert(exists|t: ViewSettings| lit_at(v@, i as int, ser_view(t)));
                }
            }
            return None;
        },
    };
    let (zoom, j5) = match parse_u32_at(v, j4) {
        Some(p) => p,
        None => {
            proof {
                if has_w {
                    assert(num_at(v@, j4 as int, 0xffff_ffff, w0.zoom_level as nat));
                    assert(false);
                }
                assert forall|w: ViewSettings| #![trigger ser_view(w)]
                    lit_at(v@, i as int, ser_view(w)) implies false by {
                    assert(exists|t: ViewSettings| lit_at(v@, i as int, ser_view(t)));
                }
            }
            return None;
        },
    };
    let j6 = match expect_lit(v, j5, "}") {
        Some(j) => j,
        None => {
            proof {
                reveal_strlit("}");
                if has_w {
                    assert(num_at(v@, j4 as int, 0xffff_ffff, w0.zoom_level as nat));
                    assert(lit_at(v@, j5 as int, "}"@)) by {
                        assert("}"@ =~= seq!['}']);
                    }
                    assert(false);
                }
                assert forall|w: ViewSettings| #![trigger ser_view(w)]
                    lit_at(v@, i as int, ser_view(w)) implies false by {
                    assert(exists|t: ViewSettings| lit_at(v@, i as int, ser_view(t)));
                }
            }
            return None;
        },
    };
    let out = ViewSettings { scroll_position: scroll, selected_cell: selected, zoom_level: zoom };
    proof {
        reveal_strlit("}");
        assert forall|w: ViewSettings| #![trigger ser_view(w)]
            lit_at(v@, i as int, ser_view(w)) implies (out == w && j6 as int == i + ser_view(
            w,
        ).len()) by {
            lemma_lit_at_stream(v@, i as int, ser_view(w));
            lemma_lit_at_stream(v@, i as int, ser_view(w0));
            lemma_view_unambiguous(
                w,
                w0,
                v@.skip(i + ser_view(w).len()),
                v@.skip(i + ser_view(w0).len()),
            );
            assert(w == w0);
            assert(num_at(v@, j0 as int, 0xffff_ffff, w0.scroll_position as nat));
            assert(num_at(v@, j4 as int, 0xffff_ffff, w0.zoom_level as nat));
            assert(out == w0);
            assert(j1 as int == j0 + dec_str(w0.scroll_position as nat).len());
            assert(j5 as int == j4 + dec_str(w0.zoom_level as nat).len());
            assert(j6 as int == j5 + 1);
            assert(i + ser_view(w0).len() == j4 + dec_str(w0.zoom_level as nat).len() + 1);
        }
    }
    Some((out, j6))
}

/// Facts placing every piece of a serialized metadata document at its
/// position.
proof fn lemma_meta_pieces(
    v: Seq<char>,
    ver: u32,
    es: Seq<Entry<CellFormat>>,
    ns: Seq<Seq<char>>,
    ws: Seq<u32>,
    vw: ViewSettings,
)
    requires
        lit_at(v, 0, ser_meta(ver, es, ns, ws, vw)),
    ensures
        ({
            let q0 = "{\"version\":"@.len() as int;
            let q1 = q0 + dec_str(ver as nat).len() + ",\"formatting\":"@.len();
            let q2 = q1 + ser_fmt_map(es).len() + ",\"column_names\":"@.len();
            let q3 = q2 + ser_names(ns).len() + ",\"column_widths\":"@.len();
            let q4 = q3 + ser_widths(ws).len() + ",\"view_settings\":"@.len();
            &&& lit_at(v, 0, "{\"version\":"@)
            &&& num_at(v, q0, 0xffff_ffff, ver as nat)
            &&& lit_at(v, q0 + dec_str(ver as nat).len(), ",\"formatting\":"@)
            &&& lit_at(v, q1, ser_fmt_map(es))
            &&& lit_at(v, q1 + ser_fmt_map(es).len(), ",\"column_names\":"@)
            &&& lit_at(v, q2, ser_names(ns))
            &&& lit_at(v, q2 + ser_names(ns).len(), ",\"column_widths\":"@)
            &&& lit_at(v, q3, ser_widths(ws))
            &&& lit_at(v, q3 + ser_widths(ws).len(), ",\"view_settings\":"@)
            &&& lit_at(v, q4, ser_view(vw))
            &&& lit_at(v, q4 + ser_view(vw).len(), seq!['}'])
            &&& ser_meta(ver, es, ns, ws, vw).len() == q4 + ser_view(vw).len() + 1
        }),
{
    proof_first_is_comma();
    lemma_meta_rebracket(ver, es, ns, ws, vw);
    let d = dec_str(ver as nat);
    let fm = ser_fmt_map(es);
    let nm = ser_names(ns);
    let wd = ser_widths(ws);
    let vv = ser_view(vw);
    let t5 = vv + seq!['}'];
    let t4 = wd + (",\"view_settings\":"@ + t5);
    let t3 = nm + (",\"column_widths\":"@ + t4);
    let t2 = fm + (",\"column_names\":"@ + t3);
    let t1 = d + (",\"formatting\":"@ + t2);
    assert(lit_at(v, 0, "{\"version\":"@ + t1));
    lemma_lit_at_concat(v, 0, "{\"version\":"@, t1);
    let q0 = "{\"version\":"@.len() as int;
    lemma_lit_at_concat(v, q0, d, ",\"formatting\":"@ + t2);
    lemma_lit_at_concat(v, q0 + d.len(), ",\"formatting\":"@, t2);
    let q1 = q0 + d.len() + ",\"formatting\":"@.len();
    lemma_lit_at_concat(v, q1, fm, ",\"column_names\":"@ + t3);
    lemma_lit_at_concat(v, q1 + fm.len(), ",\"column_names\":"@, t3);
    let q2 = q1 + fm.len() + ",\"column_names\":"@.len();
    lemma_lit_at_concat(v, q2, nm, ",\"column_widths\":"@ + t4);
    lemma_lit_at_concat(v, q2 + nm.len(), ",\"column_widths\":"@, t4);
    let q3 = q2 + nm.len() + ",\"column_widths\":"@.len();
    lemma_lit_at_concat(v, q3, wd, ",\"view_settings\":"@ + t5);
    lemma_lit_at_concat(v, q3 + wd.len(), ",\"view_settings\":"@, t5);
    let q4 = q3 + wd.len() + ",\"view_settings\":"@.len();
    lemma_lit_at_concat(v, q4, vv, seq!['}']);
    lemma_lit_char(v, q0 + d.len(), ",\"formatting\":"@, 0);
}

/// Parse a metadata document. A canonically serialized document is always
/// read back, component for component; anything else is checked by the
/// caller against its re-serialization.
#[verifier::rlimit(100)]
fn parse_metadata(s: &String) -> (r: Option<CsviMetadata>)
    ensures
        r matches Some(m) ==> m.formatting.wf(),
        forall|ver: u32, es: Seq<Entry<CellFormat>>, ns: Seq<Seq<char>>, ws: Seq<u32>, vw: ViewSettings|
            #![trigger ser_meta(ver, es, ns, ws, vw)]
            s@ == ser_meta(ver, es, ns, ws, vw) ==> (r matches Some(m) && m.version == ver
                && m.formatting@ == map_of(es) && m.column_names.deep_view() == ns
                && m.column_widths@ == ws && m.view_settings == vw),
{
    let v = chars_of(s.as_str());
    let ghost has_w = exists|ver: u32, es: Seq<Entry<CellFormat>>, ns: Seq<Seq<char>>, ws: Seq<u32>, vw: ViewSettings|
        s@ == ser_meta(ver, es, ns, ws, vw);
    let ghost wit: (u32, Seq<Entry<CellFormat>>, Seq<Seq<char>>, Seq<u32>, ViewSettings) = if has_w {
        choose|ver: u32, es: Seq<Entry<CellFormat>>, ns: Seq<Seq<char>>, ws: Seq<u32>, vw: ViewSettings|
            s@ == ser_meta(ver, es, ns, ws, vw)
    } else {
        (
            0u32,
            Seq::empty(),
            Seq::empty(),
            Seq::empty(),
            ViewSettings { scroll_position: 0, selected_cell: None, zoom_level: 0 },
        )
    };
    proof {
        if has_w {
            assert(lit_at(v@, 0, ser_meta(wit.0, wit.1, wit.2, wit.3, wit.4))) by {
                assert(v@.subrange(0, s@.len() as int) =~= v@);
            }
            lemma_meta_pieces(v@, wit.0, wit.1, wit.2, wit.3, wit.4);
        }
    }
    let j0 = match expect_lit(&v, 0, "{\"version\":") {
        Some(j) => j,
        None => {
            proof {
                if has_w {
                    assert(false);
                }
            }
            return None;
        },
    };
    let (version, j1) = match parse_u32_at(&v, j0) {
        Some(p) => p,
        None => {
            proof {
                if has_w {
                    assert(num_at(v@, j0 as int, 0xffff_ffff, wit.0 as nat));
                    assert(false);
                }
            }
            return None;
        },
    };
    let j2 = match expect_lit(&v, j1, ",\"formatting\":") {
        Some(j) => j,
        None => {
            proof {
                if has_w {
                    assert(num_at(v@, j0 as int, 0xffff_ffff, wit.0 as nat));
                    assert(false);
                }
            }
            return None;
        },
    };
    let (formatting, j3) = match parse_fmt_map_at(&v, j2) {
        Some(p) => p,
        None => {
            proof {
                if has_w {
                    assert(num_at(v@, j0 as int, 0xffff_ffff, wit.0 as nat));
                    assert(false);
                }
            }
            return None;
        },
    };
    let j4 = match expect_lit(&v, j3, ",\"column_names\":") {
        Some(j) => j,
        None => {
            proof {
                if has_w {
                    assert(num_at(v@, j0 as int, 0xffff_ffff, wit.0 as nat));
                    assert(false);
                }
            }
            return None;
        },
    };
    let (column_names, j5) = match parse_names_at(&v, j4) {
        Some(p) => p,
        None => {
            proof {
                if has_w {
                    assert(num_at(v@, j0 as int, 0xffff_ffff, wit.0 as nat));
                    assert(false);
                }
            }
            return None;
        },
    };
    let j6 = match expect_lit(&v, j5, ",\"column_widths\":") {
        Some(j) => j,
        None => {
            proof {
                if has_w {
                    assert(num_at(v@, j0 as int, 0xffff_ffff, wit.0 as nat));
                    assert(false);
                }
            }
            return None;
        },
    };
    let (column_widths, j7) = match parse_widths_at(&v, j6) {
        Some(p) => p,
        None => {
            proof {
                if has_w {
                    assert(num_at(v@, j0 as int, 0xffff_ffff, wit.0 as nat));
                    assert(false);
                }
            }
            return None;
        },
    };
    let j8 = match expect_lit(&v, j7, ",\"view_settings\":") {
        Some(j) => j,
        None => {
            proof {
                if has_w {
                    assert(num_at(v@, j0 as int, 0xffff_ffff, wit.0 as nat));
                    assert(false);
                }
            }
            return None;
        },
    };
    let (view_settings, j9) = match parse_view_at(&v, j8) {
        Some(p) => p,
        None => {
            proof {
                if has_w {
                    assert(num_at(v@, j0 as int, 0xffff_ffff, wit.0 as nat));
                    assert(false);
                }
            }
            return None;
        },
    };
    let j10 = match expect_lit(&v, j9, "}") {
        Some(j) => j,
        None => {
            proof {
                reveal_strlit("}");
                if has_w {
                    assert(num_at(v@, j0 as int, 0xffff_ffff, wit.0 as nat));
                    assert(lit_at(v@, j9 as int, "}"@)) by {
                        assert("}"@ =~= seq!['}']);
                    }
                    assert(false);
                }
            }
            return None;
        },
    };
    if j10 != v.len() {
        proof {
            reveal_strlit("}");
            if has_w {
                assert(num_at(v@, j0 as int, 0xffff_ffff, wit.0 as nat));
                assert("}"@.len() == 1);
                assert(ser_meta(wit.0, wit.1, wit.2, wit.3, wit.4).len() == v@.len());
                assert(false);
            }
        }
        return None;
    }
    let m = CsviMetadata { version, formatting, column_names, column_widths, view_settings };
    proof {
        assert forall|ver: u32, es: Seq<Entry<CellFormat>>, ns: Seq<Seq<char>>, ws: Seq<u32>, vw: ViewSettings|
            #![trigger ser_meta(ver, es, ns, ws, vw)]
            s@ == ser_meta(ver, es, ns, ws, vw) implies (m.version == ver && m.formatting@
            == map_of(es) && m.column_names.deep_view() == ns && m.column_widths@ == ws
            && m.view_settings == vw) by {
            lemma_metadata_unambiguous(
                ver,
                es,
                ns,
                ws,
                vw,
                wit.0,
                wit.1,
                wit.2,
                wit.3,
                wit.4,
            );
            assert(num_at(v@, j0 as int, 0xffff_ffff, wit.0 as nat));
        }
    }
    Some(m)
}

/// The text is the canonical serialization of some metadata.
pub open spec fn canonical_meta_text(s: Seq<char>) -> bool {
    exists|ver: u32, es: Seq<Entry<CellFormat>>, ns: Seq<Seq<char>>, ws: Seq<u32>, vw: ViewSettings|
        #![trigger ser_meta(ver, es, ns, ws, vw)]
        keys_sorted(es) && distinct_keys(es) && s == ser_meta(ver, es, ns, ws, vw)
}

/// Build the archive bytes for the given grid text and metadata: a container
/// with a data entry holding the text and a metadata entry holding the
/// canonical metadata document.
pub fn encode_csvi(csv_data: &str, metadata: &CsviMetadata) -> (r: Result<Vec<u8>, CsviError>)
    requires
        metadata.formatting.wf(),
    ensures
        exists|es: Seq<Entry<CellFormat>>|
            {
                &&& keys_sorted(es)
                &&& distinct_keys(es)
                &&& map_of(es) == metadata.formatting@
                &&& (r is Ok <==> zip_pack_of(
                    "data.csv"@,
                    vstd::utf8::encode_utf8(csv_data@),
                    "metadata.json"@,
                    vstd::utf8::encode_utf8(
                        ser_meta(
                            metadata.version,
                            es,
                            metadata.column_names.deep_view(),
                            metadata.column_widths@,
                            metadata.view_settings,
                        ),
                    ),
                ) is Some)
                &&& (r matches Ok(b) ==> {
                    &&& zip_entry_of(b@, "data.csv"@) == Some(vstd::utf8::encode_utf8(csv_data@))
                    &&& zip_entry_of(b@, "metadata.json"@) == Some(
                        vstd::utf8::encode_utf8(
                            ser_meta(
                                metadata.version,
                                es,
                                metadata.column_names.deep_view(),
                                metadata.column_widths@,
                                metadata.view_settings,
                            ),
                        ),
                    )
                    &&& forall|n: Seq<char>|
                        n != "data.csv"@ && n != "metadata.json"@ ==> zip_entry_of(b@, n) is None
                })
            },
        r is Err ==> r == Err::<Vec<u8>, CsviError>(CsviError::ArchiveWrite),
{
    let meta_json = serialize_metadata(metadata);
    let data_bytes = csv_data.as_bytes_vec();
    let meta_bytes = meta_json.as_str().as_bytes_vec();
    proof {
        reveal_strlit("data.csv");
        reveal_strlit("metadata.json");
        assert("data.csv"@.len() == 8);
        assert("metadata.json"@.len() == 13);
    }
    match zip_pack("data.csv", &data_bytes, "metadata.json", &meta_bytes) {
        Some(b) => Ok(b),
        None => Err(CsviError::ArchiveWrite),
    }
}

/// Read an archive's bytes back into the grid text and metadata. A present
/// result re-serializes to exactly the archive's entries; success is owed
/// exactly on a well-formed archive (both entries present, both valid text,
/// the metadata canonical), and each failure names its cause:
/// a missing entry is reported apart from an unreadable or uncanonical one.
#[verifier::rlimit(100)]
pub fn decode_csvi(bytes: &Vec<u8>) -> (r: Result<(String, CsviMetadata), CsviError>)
    ensures
        r matches Ok(p) ==> {
            &&& p.1.formatting.wf()
            &&& zip_entry_of(bytes@, "data.csv"@) == Some(vstd::utf8::encode_utf8(p.0@))
            &&& exists|es: Seq<Entry<CellFormat>>|
                {
                    &&& keys_sorted(es)
                    &&& distinct_keys(es)
                    &&& map_of(es) == p.1.formatting@
                    &&& zip_entry_of(bytes@, "metadata.json"@) == Some(
                        vstd::utf8::encode_utf8(
                            ser_meta(
                                p.1.version,
                                es,
                                p.1.column_names.deep_view(),
                                p.1.column_widths@,
                                p.1.view_settings,
                            ),
                        ),
                    )
                }
        },
        r == Err::<(String, CsviMetadata), CsviError>(CsviError::MissingDataEntry) <==> zip_entry_of(
            bytes@,
            "data.csv"@,
        ) is None,
        r == Err::<(String, CsviMetadata), CsviError>(CsviError::MissingMetadataEntry) <==> (
        zip_entry_of(bytes@, "data.csv"@) is Some && zip_entry_of(
            bytes@,
            "metadata.json"@,
        ) is None),
        r == Err::<(String, CsviMetadata), CsviError>(CsviError::InvalidData) <==> ((zip_entry_of(
            bytes@,
            "data.csv"@,
        ) matches Some(d) && !vstd::utf8::valid_utf8(d)) && zip_entry_of(
            bytes@,
            "metadata.json"@,
        ) is Some),
        r == Err::<(String, CsviMetadata), CsviError>(CsviError::InvalidMetadata) <==> ((
        zip_entry_of(bytes@, "data.csv"@) matches Some(d) && vstd::utf8::valid_utf8(d)) && (
        zip_entry_of(bytes@, "metadata.json"@) matches Some(m) && !(vstd::utf8::valid_utf8(m)
            && canonical_meta_text(vstd::utf8::decode_utf8(m))))),
        r is Ok <==> ((zip_entry_of(bytes@, "data.csv"@) matches Some(d)
            && vstd::utf8::valid_utf8(d)) && (zip_entry_of(bytes@, "metadata.json"@) matches Some(
            m,
        ) && vstd::utf8::valid_utf8(m) && canonical_meta_text(vstd::utf8::decode_utf8(m)))),
{
    let data = match zip_read_entry(bytes, "data.csv") {
        Some(d) => d,
        None => {
            return Err(CsviError::MissingDataEntry);
        },
    };
    let meta = match zip_read_entry(bytes, "metadata.json") {
        Some(m) => m,
        None => {
            return Err(CsviError::MissingMetadataEntry);
        },
    };
    let ghost db = data@;
    let ghost mb = meta@;
    let text = match utf8_string(data) {
        Some(t) => t,
        None => {
            return Err(CsviError::InvalidData);
        },
    };
    let meta_str = match utf8_string(meta) {
        Some(m) => m,
        None => {
            return Err(CsviError::InvalidMetadata);
        },
    };
    let parsed = match parse_metadata(&meta_str) {
        Some(p) => p,
        None => {
            proof {
                if canonical_meta_text(meta_str@) {
                    let (ver, es, ns, ws, vw) = choose|
                        ver: u32,
                        es: Seq<Entry<CellFormat>>,
                        ns: Seq<Seq<char>>,
                        ws: Seq<u32>,
                        vw: ViewSettings,
                    |
                        keys_sorted(es) && distinct_keys(es) && meta_str@ == ser_meta(
                            ver,
                            es,
                            ns,
                            ws,
                            vw,
                        );
                    assert(false);
                }
            }
            return Err(CsviError::InvalidMetadata);
        },
    };
    let reser = serialize_metadata(&parsed);
    if reser == meta_str {
        proof {
            vstd::utf8::decode_utf8_encode_utf8(db);
            vstd::utf8::decode_utf8_encode_utf8(mb);
            assert(db == vstd::utf8::encode_utf8(text@));
            assert(mb == vstd::utf8::encode_utf8(meta_str@));
            let es2 = choose|es2: Seq<Entry<CellFormat>>|
                {
                    &&& keys_sorted(es2)
                    &&& distinct_keys(es2)
                    &&& map_of(es2) == parsed.formatting@
                    &&& reser@ == ser_meta(
                        parsed.version,
                        es2,
                        parsed.column_names.deep_view(),
                        parsed.column_widths@,
                        parsed.view_settings,
                    )
                };
            assert(canonical_meta_text(meta_str@)) by {
                assert(keys_sorted(es2) && distinct_keys(es2) && meta_str@ == ser_meta(
                    parsed.version,
                    es2,
                    parsed.column_names.deep_view(),
                    parsed.column_widths@,
                    parsed.view_settings,
                ));
            }
        }
        Ok((text, parsed))
    } else {
        proof {
            if canonical_meta_text(meta_str@) {
                let (ver, es, ns, ws, vw) = choose|
                    ver: u32,
                    es: Seq<Entry<CellFormat>>,
                    ns: Seq<Seq<char>>,
                    ws: Seq<u32>,
                    vw: ViewSettings,
                |
                    keys_sorted(es) && distinct_keys(es) && meta_str@ == ser_meta(
                        ver,
                        es,
                        ns,
                        ws,
                        vw,
                    );
                assert(parsed.version == ver && parsed.formatting@ == map_of(es)
                    && parsed.column_names.deep_view() == ns && parsed.column_widths@ == ws
                    && parsed.view_settings == vw);
                let es2 = choose|es2: Seq<Entry<CellFormat>>|
                    {
                        &&& keys_sorted(es2)
                        &&& distinct_keys(es2)
                        &&& map_of(es2) == parsed.formatting@
                        &&& reser@ == ser_meta(
                            parsed.version,
                            es2,
                            parsed.column_names.deep_view(),
                            parsed.column_widths@,
                            parsed.view_settings,
                        )
                    };
                lemma_sorted_entries_unique(es2, es);
                assert(reser@ == meta_str@);
                assert(false);
            }
        }
        Err(CsviError::InvalidMetadata)
    }
}

proof fn lemma_cancel(p: Seq<char>, a: Seq<char>, b: Seq<char>)
    requires
        p + a == p + b,
    ensures
        a == b,
{
    assert(a =~= (p + a).subrange(p.len() as int, (p + a).len() as int));
    assert(b =~= (p + b).subrange(p.len() as int, (p + b).len() as int));
}

/// The value of a hexadecimal digit character, sixteen for others.
pub open spec fn hex_val(c: char) -> int {
    if c == '0' {
        0
    } else if c == '1' {
        1
    } else if c == '2' {
        2
    } else if c == '3' {
        3
    } else if c == '4' {
        4
    } else if c == '5' {
        5
    } else if c == '6' {
        6
    } else if c == '7' {
        7
    } else if c == '8' {
        8
    } else if c == '9' {
        9
    } else if c == 'a' {
        10
    } else if c == 'b' {
        11
    } else if c == 'c' {
        12
    } else if c == 'd' {
        13
    } else if c == 'e' {
        14
    } else if c == 'f' {
        15
    } else {
        16
    }
}

proof fn lemma_hex_round(d: int)
    requires
        0 <= d < 16,
    ensures
        hex_val(hex_char(d)) == d,
{
}

proof fn lemma_hex4_inj(m: u32, n: u32)
    requires
        m <= 0xFFFF,
        n <= 0xFFFF,
        hex4(m as int) == hex4(n as int),
    ensures
        m == n,
{
    lemma_hex_round(m as int / 4096 % 16);
    lemma_hex_round(m as int / 256 % 16);
    lemma_hex_round(m as int / 16 % 16);
    lemma_hex_round(m as int % 16);
    lemma_hex_round(n as int / 4096 % 16);
    lemma_hex_round(n as int / 256 % 16);
    lemma_hex_round(n as int / 16 % 16);
    lemma_hex_round(n as int % 16);
    assert(hex4(m as int)[0] == hex4(n as int)[0]);
    assert(hex4(m as int)[1] == hex4(n as int)[1]);
    assert(hex4(m as int)[2] == hex4(n as int)[2]);
    assert(hex4(m as int)[3] == hex4(n as int)[3]);
    assert(m / 4096 % 16 == n / 4096 % 16 && m / 256 % 16 == n / 256 % 16 && m / 16 % 16 == n / 16
        % 16 && m % 16 == n % 16);
    assert(m / 4096 % 16 == n / 4096 % 16 && m / 256 % 16 == n / 256 % 16 && m / 16 % 16 == n / 16
        % 16 && m % 16 == n % 16 && m <= 0xFFFF && n <= 0xFFFF ==> m == n) by (bit_vector);
}

/// Escaped text never holds a bare quote, so the closing quote of a quoted
/// string is unmistakable, and the escape of each character starts either
/// with a backslash or with a character beyond the basic plane.
proof fn lemma_esc_unambiguous(a: Seq<char>, b: Seq<char>, r1: Seq<char>, r2: Seq<char>)
    requires
        esc_json(a) + seq!['"'] + r1 == esc_json(b) + seq!['"'] + r2,
    ensures
        a == b,
        r1 == r2,
    decreases a.len(),
{
    let l = esc_json(a) + seq!['"'] + r1;
    if a.len() == 0 && b.len() == 0 {
        assert(esc_json(a) =~= Seq::<char>::empty());
        assert(esc_json(b) =~= Seq::<char>::empty());
        lemma_cancel(seq!['"'], r1, r2);
        assert(a =~= b);
    } else if a.len() == 0 {
        assert(esc_json(a) =~= Seq::<char>::empty());
        assert(l[0] == '"');
        assert(l[0] == esc_char(b[0])[0]);
        if b[0] as u32 <= 0xFFFF {
            assert(esc_char(b[0])[0] == '\\');
            assert(false);
        } else {
            assert(esc_char(b[0])[0] == b[0]);
            assert(('"' as u32) < 0x10000);
            assert(false);
        }
    } else if b.len() == 0 {
        assert(esc_json(b) =~= Seq::<char>::empty());
        assert(l[0] == '"');
        assert(l[0] == esc_char(a[0])[0]);
        if a[0] as u32 <= 0xFFFF {
            assert(esc_char(a[0])[0] == '\\');
            assert(false);
        } else {
            assert(esc_char(a[0])[0] == a[0]);
            assert(('"' as u32) < 0x10000);
            assert(false);
        }
    } else {
        let a0 = a[0];
        let b0 = b[0];
        assert(esc_json(a) == esc_char(a0) + esc_json(a.skip(1)));
        assert(esc_json(b) == esc_char(b0) + esc_json(b.skip(1)));
        if a0 as u32 <= 0xFFFF && b0 as u32 <= 0xFFFF {
            let ha = hex4(a0 as u32 as int);
            let hb = hex4(b0 as u32 as int);
            assert(esc_char(a0).len() == 6 && esc_char(b0).len() == 6);
            assert forall|k: int| 0 <= k < 6 implies l[k] == esc_char(a0)[k] && l[k] == esc_char(
                b0,
            )[k] by {
                assert(l == (esc_char(a0) + esc_json(a.skip(1))) + seq!['"'] + r1);
                assert(((esc_char(a0) + esc_json(a.skip(1))) + seq!['"'] + r1)[k] == esc_char(
                    a0,
                )[k]);
                assert(l == (esc_char(b0) + esc_json(b.skip(1))) + seq!['"'] + r2);
                assert(((esc_char(b0) + esc_json(b.skip(1))) + seq!['"'] + r2)[k] == esc_char(
                    b0,
                )[k]);
            }
            assert forall|k: int| 0 <= k < 4 implies ha[k] == hb[k] by {
                assert(l[k + 2] == esc_char(a0)[k + 2]);
                assert(l[k + 2] == esc_char(b0)[k + 2]);
                assert(esc_char(a0)[k + 2] == ha[k]);
                assert(esc_char(b0)[k + 2] == hb[k]);
            }
            assert(hex4(a0 as u32 as int) =~= hex4(b0 as u32 as int));
            lemma_hex4_inj(a0 as u32, b0 as u32);
            vstd::utf8::char_u32_cast(a0, a0 as u32);
            vstd::utf8::char_u32_cast(b0, b0 as u32);
            assert(a0 == b0);
            assert(esc_json(a.skip(1)) + seq!['"'] + r1 =~= l.subrange(6, l.len() as int));
            assert(esc_json(b.skip(1)) + seq!['"'] + r2 =~= l.subrange(6, l.len() as int));
            lemma_esc_unambiguous(a.skip(1), b.skip(1), r1, r2);
            assert(a =~= seq![a0] + a.skip(1));
            assert(b =~= seq![b0] + b.skip(1));
        } else if a0 as u32 <= 0xFFFF {
            assert(l[0] == '\\');
            assert(l[0] == b0);
            assert(('\\' as u32) < 0x10000);
            assert(false);
        } else if b0 as u32 <= 0xFFFF {
            assert(l[0] == '\\');
            assert(l[0] == a0);
            assert(('\\' as u32) < 0x10000);
            assert(false);
        } else {
            assert(l[0] == a0 && l[0] == b0);
            assert(esc_json(a.skip(1)) + seq!['"'] + r1 =~= l.subrange(1, l.len() as int));
            assert(esc_json(b.skip(1)) + seq!['"'] + r2 =~= l.subrange(1, l.len() as int));
            lemma_esc_unambiguous(a.skip(1), b.skip(1), r1, r2);
            assert(a =~= seq![a0] + a.skip(1));
            assert(b =~= seq![b0] + b.skip(1));
        }
    }
}

/// A quoted string is delimited: equal streams starting with quoted strings
/// agree on the string and on everything after it.
proof fn lemma_str_unambiguous(a: Seq<char>, b: Seq<char>, r1: Seq<char>, r2: Seq<char>)
    requires
        ser_str(a) + r1 == ser_str(b) + r2,
    ensures
        a == b,
        r1 == r2,
{
    let l = ser_str(a) + r1;
    assert(esc_json(a) + seq!['"'] + r1 =~= l.subrange(1, l.len() as int));
    assert(esc_json(b) + seq!['"'] + r2 =~= l.subrange(1, l.len() as int));
    lemma_esc_unambiguous(a, b, r1, r2);
}

proof fn lemma_bool_unambiguous(x: bool, y: bool, r1: Seq<char>, r2: Seq<char>)
    requires
        ser_bool(x) + r1 == ser_bool(y) + r2,
    ensures
        x == y,
        r1 == r2,
{
    reveal_strlit("true");
    reveal_strlit("false");
    let l = ser_bool(x) + r1;
    if x != y {
        assert(l[0] == ser_bool(x)[0]);
        assert(l[0] == ser_bool(y)[0]);
        assert(false);
    } else {
        lemma_cancel(ser_bool(x), r1, r2);
    }
}

/// Push the trailing text inside a serialized color, bracketed to the right.
proof fn lemma_color_rebracket(a: [u8; 4], r: Seq<char>)
    ensures
        ser_color(Some(a)) + r == seq!['['] + (dec_str(a@[0] as nat) + (seq![','] + (dec_str(
            a@[1] as nat,
        ) + (seq![','] + (dec_str(a@[2] as nat) + (seq![','] + (dec_str(a@[3] as nat) + (seq![']']
            + r)))))))),
{
    let sb = seq!['['];
    let sc = seq![','];
    let se = seq![']'];
    let d0 = dec_str(a@[0] as nat);
    let d1 = dec_str(a@[1] as nat);
    let d2 = dec_str(a@[2] as nat);
    let d3 = dec_str(a@[3] as nat);
    vstd::seq_lib::lemma_concat_associative(sb + d0 + sc + d1 + sc + d2 + sc + d3, se, r);
    vstd::seq_lib::lemma_concat_associative(sb + d0 + sc + d1 + sc + d2 + sc, d3, se + r);
    vstd::seq_lib::lemma_concat_associative(sb + d0 + sc + d1 + sc + d2, sc, d3 + (se + r));
    vstd::seq_lib::lemma_concat_associative(sb + d0 + sc + d1 + sc, d2, sc + (d3 + (se + r)));
    vstd::seq_lib::lemma_concat_associative(sb + d0 + sc + d1, sc, d2 + (sc + (d3 + (se + r))));
    vstd::seq_lib::lemma_concat_associative(sb + d0 + sc, d1, sc + (d2 + (sc + (d3 + (se + r)))));
    vstd::seq_lib::lemma_concat_associative(
        sb + d0,
        sc,
        d1 + (sc + (d2 + (sc + (d3 + (se + r))))),
    );
    vstd::seq_lib::lemma_concat_associative(
        sb,
        d0,
        sc + (d1 + (sc + (d2 + (sc + (d3 + (se + r)))))),
    );
}

#[verifier::rlimit(100)]
proof fn lemma_color_channels(a: [u8; 4], b: [u8; 4], r1: Seq<char>, r2: Seq<char>)
    requires
        seq!['['] + (dec_str(a@[0] as nat) + (seq![','] + (dec_str(a@[1] as nat) + (seq![','] + (
        dec_str(a@[2] as nat) + (seq![','] + (dec_str(a@[3] as nat) + (seq![']'] + r1))))))))
            == seq!['['] + (dec_str(b@[0] as nat) + (seq![','] + (dec_str(b@[1] as nat) + (
        seq![','] + (dec_str(b@[2] as nat) + (seq![','] + (dec_str(b@[3] as nat) + (seq![']']
            + r2)))))))),
    ensures
        a@[0] == b@[0],
        a@[1] == b@[1],
        a@[2] == b@[2],
        a@[3] == b@[3],
        r1 == r2,
{
    lemma_cancel(
        seq!['['],
        dec_str(a@[0] as nat) + (seq![','] + (dec_str(a@[1] as nat) + (seq![','] + (dec_str(
            a@[2] as nat,
        ) + (seq![','] + (dec_str(a@[3] as nat) + (seq![']'] + r1))))))),
        dec_str(b@[0] as nat) + (seq![','] + (dec_str(b@[1] as nat) + (seq![','] + (dec_str(
            b@[2] as nat,
        ) + (seq![','] + (dec_str(b@[3] as nat) + (seq![']'] + r2))))))),
    );
    crate::text::lemma_dec_unambiguous(
        a@[0] as nat,
        b@[0] as nat,
        seq![','] + (dec_str(a@[1] as nat) + (seq![','] + (dec_str(a@[2] as nat) + (seq![','] + (
        dec_str(a@[3] as nat) + (seq![']'] + r1)))))),
        seq![','] + (dec_str(b@[1] as nat) + (seq![','] + (dec_str(b@[2] as nat) + (seq![','] + (
        dec_str(b@[3] as nat) + (seq![']'] + r2)))))),
    );
    lemma_cancel(
        seq![','],
        dec_str(a@[1] as nat) + (seq![','] + (dec_str(a@[2] as nat) + (seq![','] + (dec_str(
            a@[3] as nat,
        ) + (seq![']'] + r1))))),
        dec_str(b@[1] as nat) + (seq![','] + (dec_str(b@[2] as nat) + (seq![','] + (dec_str(
            b@[3] as nat,
        ) + (seq![']'] + r2))))),
    );
    crate::text::lemma_dec_unambiguous(
        a@[1] as nat,
        b@[1] as nat,
        seq![','] + (dec_str(a@[2] as nat) + (seq![','] + (dec_str(a@[3] as nat) + (seq![']']
            + r1)))),
        seq![','] + (dec_str(b@[2] as nat) + (seq![','] + (dec_str(b@[3] as nat) + (seq![']']
            + r2)))),
    );
    lemma_cancel(
        seq![','],
        dec_str(a@[2] as nat) + (seq![','] + (dec_str(a@[3] as nat) + (seq![']'] + r1))),
        dec_str(b@[2] as nat) + (seq![','] + (dec_str(b@[3] as nat) + (seq![']'] + r2))),
    );
    crate::text::lemma_dec_unambiguous(
        a@[2] as nat,
        b@[2] as nat,
        seq![','] + (dec_str(a@[3] as nat) + (seq![']'] + r1)),
        seq![','] + (dec_str(b@[3] as nat) + (seq![']'] + r2)),
    );
    lemma_cancel(
        seq![','],
        dec_str(a@[3] as nat) + (seq![']'] + r1),
        dec_str(b@[3] as nat) + (seq![']'] + r2),
    );
    crate::text::lemma_dec_unambiguous(a@[3] as nat, b@[3] as nat, seq![']'] + r1, seq![']'] + r2);
    lemma_cancel(seq![']'], r1, r2);
}

#[verifier::rlimit(100)]
proof fn lemma_color_unambiguous(
    c1: Option<[u8; 4]>,
    c2: Option<[u8; 4]>,
    r1: Seq<char>,
    r2: Seq<char>,
)
    requires
        ser_color(c1) + r1 == ser_color(c2) + r2,
    ensures
        c1 == c2,
        r1 == r2,
{
    reveal_strlit("null");
    let l = ser_color(c1) + r1;
    match (c1, c2) {
        (None, None) => {
            lemma_cancel("null"@, r1, r2);
        },
        (None, Some(b)) => {
            assert(l[0] == "null"@[0]);
            assert(l[0] == '[');
            assert(false);
        },
        (Some(a), None) => {
            assert(l[0] == '[');
            assert(l[0] == "null"@[0]);
            assert(false);
        },
        (Some(a), Some(b)) => {
            lemma_color_rebracket(a, r1);
            lemma_color_rebracket(b, r2);
            lemma_color_channels(a, b, r1, r2);
            assert(a@ =~= b@);
            assert(a == b);
        },
    }
}

/// Push the trailing text inside a serialized format, bracketed to the right.
proof fn lemma_format_rebracket(f: CellFormat, r: Seq<char>)
    ensures
        ser_format(f) + r == "{\"bg\":"@ + (ser_color(f.bg_color) + (",\"text\":"@ + (ser_color(
            f.text_color,
        ) + (",\"bold\":"@ + (ser_bool(f.bold) + (",\"italic\":"@ + (ser_bool(f.italic) + (
        seq!['}'] + r)))))))),
{
    let l1 = "{\"bg\":"@;
    let c1 = ser_color(f.bg_color);
    let l2 = ",\"text\":"@;
    let c2 = ser_color(f.text_color);
    let l3 = ",\"bold\":"@;
    let b1 = ser_bool(f.bold);
    let l4 = ",\"italic\":"@;
    let b2 = ser_bool(f.italic);
    let e = seq!['}'];
    vstd::seq_lib::lemma_concat_associative(l1 + c1 + l2 + c2 + l3 + b1 + l4 + b2, e, r);
    vstd::seq_lib::lemma_concat_associative(l1 + c1 + l2 + c2 + l3 + b1 + l4, b2, e + r);
    vstd::seq_lib::lemma_concat_associative(l1 + c1 + l2 + c2 + l3 + b1, l4, b2 + (e + r));
    vstd::seq_lib::lemma_concat_associative(l1 + c1 + l2 + c2 + l3, b1, l4 + (b2 + (e + r)));
    vstd::seq_lib::lemma_concat_associative(l1 + c1 + l2 + c2, l3, b1 + (l4 + (b2 + (e + r))));
    vstd::seq_lib::lemma_concat_associative(l1 + c1 + l2, c2, l3 + (b1 + (l4 + (b2 + (e + r)))));
    vstd::seq_lib::lemma_concat_associative(
        l1 + c1,
        l2,
        c2 + (l3 + (b1 + (l4 + (b2 + (e + r))))),
    );
    vstd::seq_lib::lemma_concat_associative(
        l1,
        c1,
        l2 + (c2 + (l3 + (b1 + (l4 + (b2 + (e + r)))))),
    );
}

#[verifier::rlimit(100)]
proof fn lemma_format_flags(b1: bool, i1: bool, b2: bool, i2: bool, r1: Seq<char>, r2: Seq<char>)
    requires
        ",\"bold\":"@ + (ser_bool(b1) + (",\"italic\":"@ + (ser_bool(i1) + (seq!['}'] + r1))))
            == ",\"bold\":"@ + (ser_bool(b2) + (",\"italic\":"@ + (ser_bool(i2) + (seq!['}']
            + r2)))),
    ensures
        b1 == b2,
        i1 == i2,
        r1 == r2,
{
    lemma_cancel(
        ",\"bold\":"@,
        ser_bool(b1) + (",\"italic\":"@ + (ser_bool(i1) + (seq!['}'] + r1))),
        ser_bool(b2) + (",\"italic\":"@ + (ser_bool(i2) + (seq!['}'] + r2))),
    );
    lemma_bool_unambiguous(
        b1,
        b2,
        ",\"italic\":"@ + (ser_bool(i1) + (seq!['}'] + r1)),
        ",\"italic\":"@ + (ser_bool(i2) + (seq!['}'] + r2)),
    );
    lemma_cancel(",\"italic\":"@, ser_bool(i1) + (seq!['}'] + r1), ser_bool(i2) + (seq!['}']
        + r2));
    lemma_bool_unambiguous(i1, i2, seq!['}'] + r1, seq!['}'] + r2);
    lemma_cancel(seq!['}'], r1, r2);
}

#[verifier::rlimit(100)]
proof fn lemma_format_unambiguous(f1: CellFormat, f2: CellFormat, r1: Seq<char>, r2: Seq<char>)
    requires
        ser_format(f1) + r1 == ser_format(f2) + r2,
    ensures
        f1 == f2,
        r1 == r2,
{
    reveal_strlit(",\"text\":");
    reveal_strlit(",\"bold\":");
    reveal_strlit(",\"italic\":");
    let a1 = ser_color(f1.text_color) + (",\"bold\":"@ + (ser_bool(f1.bold) + (",\"italic\":"@ + (
    ser_bool(f1.italic) + (seq!['}'] + r1)))));
    let a2 = ser_color(f2.text_color) + (",\"bold\":"@ + (ser_bool(f2.bold) + (",\"italic\":"@ + (
    ser_bool(f2.italic) + (seq!['}'] + r2)))));
    lemma_format_rebracket(f1, r1);
    lemma_format_rebracket(f2, r2);
    lemma_cancel(
        "{\"bg\":"@,
        ser_color(f1.bg_color) + (",\"text\":"@ + a1),
        ser_color(f2.bg_color) + (",\"text\":"@ + a2),
    );
    lemma_color_unambiguous(f1.bg_color, f2.bg_color, ",\"text\":"@ + a1, ",\"text\":"@ + a2);
    lemma_cancel(",\"text\":"@, a1, a2);
    lemma_color_unambiguous(
        f1.text_color,
        f2.text_color,
        ",\"bold\":"@ + (ser_bool(f1.bold) + (",\"italic\":"@ + (ser_bool(f1.italic) + (seq!['}']
            + r1)))),
        ",\"bold\":"@ + (ser_bool(f2.bold) + (",\"italic\":"@ + (ser_bool(f2.italic) + (seq!['}']
            + r2)))),
    );
    lemma_format_flags(f1.bold, f1.italic, f2.bold, f2.italic, r1, r2);
}

/// Push the trailing text inside a serialized entry, bracketed to the right.
proof fn lemma_entry_rebracket(e: Entry<CellFormat>, r: Seq<char>)
    ensures
        ser_entry(e) + r == seq!['"'] + (dec_str(e.row as nat) + (seq![','] + (dec_str(
            e.col as nat,
        ) + ("\":"@ + (ser_format(e.val) + r))))),
{
    let q = seq!['"'];
    let dr = dec_str(e.row as nat);
    let sc = seq![','];
    let dc = dec_str(e.col as nat);
    let l = "\":"@;
    let f = ser_format(e.val);
    vstd::seq_lib::lemma_concat_associative(q + dr + sc + dc + l, f, r);
    vstd::seq_lib::lemma_concat_associative(q + dr + sc + dc, l, f + r);
    vstd::seq_lib::lemma_concat_associative(q + dr + sc, dc, l + (f + r));
    vstd::seq_lib::lemma_concat_associative(q + dr, sc, dc + (l + (f + r)));
    vstd::seq_lib::lemma_concat_associative(q, dr, sc + (dc + (l + (f + r))));
}

#[verifier::rlimit(100)]
proof fn lemma_entry_unambiguous(
    e1: Entry<CellFormat>,
    e2: Entry<CellFormat>,
    r1: Seq<char>,
    r2: Seq<char>,
)
    requires
        ser_entry(e1) + r1 == ser_entry(e2) + r2,
    ensures
        e1 == e2,
        r1 == r2,
{
    reveal_strlit("\":");
    let a1 = dec_str(e1.col as nat) + ("\":"@ + (ser_format(e1.val) + r1));
    let a2 = dec_str(e2.col as nat) + ("\":"@ + (ser_format(e2.val) + r2));
    lemma_entry_rebracket(e1, r1);
    lemma_entry_rebracket(e2, r2);
    lemma_cancel(
        seq!['"'],
        dec_str(e1.row as nat) + (seq![','] + a1),
        dec_str(e2.row as nat) + (seq![','] + a2),
    );
    crate::text::lemma_dec_unambiguous(
        e1.row as nat,
        e2.row as nat,
        seq![','] + a1,
        seq![','] + a2,
    );
    lemma_cancel(seq![','], a1, a2);
    crate::text::lemma_dec_unambiguous(
        e1.col as nat,
        e2.col as nat,
        "\":"@ + (ser_format(e1.val) + r1),
        "\":"@ + (ser_format(e2.val) + r2),
    );
    lemma_cancel("\":"@, ser_format(e1.val) + r1, ser_format(e2.val) + r2);
    lemma_format_unambiguous(e1.val, e2.val, r1, r2);
}

proof fn lemma_fmt_tail_rebracket(t: Seq<Entry<CellFormat>>, r: Seq<char>)
    requires
        t.len() > 0,
    ensures
        fmt_tail(t) + r == seq![','] + (ser_entry(t[0]) + (fmt_tail(t.skip(1)) + r)),
{
    let a = seq![','];
    let b = ser_entry(t[0]);
    let c = fmt_tail(t.skip(1));
    assert(fmt_tail(t) == a + b + c);
    vstd::seq_lib::lemma_concat_associative(a + b, c, r);
    vstd::seq_lib::lemma_concat_associative(a, b, c + r);
}

proof fn lemma_fmt_map_rebracket(t: Seq<Entry<CellFormat>>, r: Seq<char>)
    requires
        t.len() > 0,
    ensures
        ser_fmt_map(t) + r == seq!['{'] + (ser_entry(t[0]) + (fmt_tail(t.skip(1)) + r)),
{
    let a = seq!['{'];
    let b = ser_entry(t[0]);
    let c = fmt_tail(t.skip(1));
    assert(ser_fmt_map(t) == a + (b + c));
    vstd::seq_lib::lemma_concat_associative(a, b + c, r);
    vstd::seq_lib::lemma_concat_associative(b, c, r);
}

#[verifier::rlimit(100)]
proof fn lemma_fmt_tail_unambiguous(
    t1: Seq<Entry<CellFormat>>,
    t2: Seq<Entry<CellFormat>>,
    r1: Seq<char>,
    r2: Seq<char>,
)
    requires
        fmt_tail(t1) + r1 == fmt_tail(t2) + r2,
    ensures
        t1 == t2,
        r1 == r2,
    decreases t1.len(),
{
    let l = fmt_tail(t1) + r1;
    if t1.len() == 0 && t2.len() == 0 {
        lemma_cancel(seq!['}'], r1, r2);
        assert(t1 =~= t2);
    } else if t1.len() == 0 {
        assert(l[0] == '}');
        assert(l[0] == ',');
        assert(false);
    } else if t2.len() == 0 {
        assert(l[0] == ',');
        assert(l[0] == '}');
        assert(false);
    } else {
        lemma_fmt_tail_rebracket(t1, r1);
        lemma_fmt_tail_rebracket(t2, r2);
        lemma_cancel(
            seq![','],
            ser_entry(t1[0]) + (fmt_tail(t1.skip(1)) + r1),
            ser_entry(t2[0]) + (fmt_tail(t2.skip(1)) + r2),
        );
        lemma_entry_unambiguous(t1[0], t2[0], fmt_tail(t1.skip(1)) + r1, fmt_tail(t2.skip(1)) + r2);
        lemma_fmt_tail_unambiguous(t1.skip(1), t2.skip(1), r1, r2);
        assert(t1 =~= seq![t1[0]] + t1.skip(1));
        assert(t2 =~= seq![t2[0]] + t2.skip(1));
    }
}

#[verifier::rlimit(100)]
proof fn lemma_fmt_map_unambiguous(
    s1: Seq<Entry<CellFormat>>,
    s2: Seq<Entry<CellFormat>>,
    r1: Seq<char>,
    r2: Seq<char>,
)
    requires
        ser_fmt_map(s1) + r1 == ser_fmt_map(s2) + r2,
    ensures
        s1 == s2,
        r1 == r2,
{
    if s1.len() == 0 && s2.len() == 0 {
        assert(ser_fmt_map(s1) + r1 =~= seq!['{'] + (seq!['}'] + r1));
        assert(ser_fmt_map(s2) + r2 =~= seq!['{'] + (seq!['}'] + r2));
        lemma_cancel(seq!['{'], seq!['}'] + r1, seq!['}'] + r2);
        lemma_cancel(seq!['}'], r1, r2);
        assert(s1 =~= s2);
    } else if s1.len() == 0 {
        let l = ser_fmt_map(s1) + r1;
        assert(l[1] == '}');
        assert(l[1] == ser_entry(s2[0])[0]);
        assert(ser_entry(s2[0])[0] == '"');
        assert(false);
    } else if s2.len() == 0 {
        let l = ser_fmt_map(s1) + r1;
        assert(l[1] == ser_entry(s1[0])[0]);
        assert(ser_entry(s1[0])[0] == '"');
        assert(l[1] == '}');
        assert(false);
    } else {
        lemma_fmt_map_rebracket(s1, r1);
        lemma_fmt_map_rebracket(s2, r2);
        lemma_cancel(
            seq!['{'],
            ser_entry(s1[0]) + (fmt_tail(s1.skip(1)) + r1),
            ser_entry(s2[0]) + (fmt_tail(s2.skip(1)) + r2),
        );
        lemma_entry_unambiguous(s1[0], s2[0], fmt_tail(s1.skip(1)) + r1, fmt_tail(s2.skip(1)) + r2);
        lemma_fmt_tail_unambiguous(s1.skip(1), s2.skip(1), r1, r2);
        assert(s1 =~= seq![s1[0]] + s1.skip(1));
        assert(s2 =~= seq![s2[0]] + s2.skip(1));
    }
}

#[verifier::rlimit(100)]
proof fn lemma_names_tail_unambiguous(
    t1: Seq<Seq<char>>,
    t2: Seq<Seq<char>>,
    r1: Seq<char>,
    r2: Seq<char>,
)
    requires
        names_tail(t1) + r1 == names_tail(t2) + r2,
    ensures
        t1 == t2,
        r1 == r2,
    decreases t1.len(),
{
    let l = names_tail(t1) + r1;
    if t1.len() == 0 && t2.len() == 0 {
        lemma_cancel(seq![']'], r1, r2);
        assert(t1 =~= t2);
    } else if t1.len() == 0 {
        assert(l[0] == ']');
        assert(l[0] == ',');
        assert(false);
    } else if t2.len() == 0 {
        assert(l[0] == ',');
        assert(l[0] == ']');
        assert(false);
    } else {
        lemma_names_tail_rebracket(t1, r1);
        lemma_names_tail_rebracket(t2, r2);
        lemma_cancel(
            seq![','],
            ser_str(t1[0]) + (names_tail(t1.skip(1)) + r1),
            ser_str(t2[0]) + (names_tail(t2.skip(1)) + r2),
        );
        lemma_str_unambiguous(t1[0], t2[0], names_tail(t1.skip(1)) + r1, names_tail(t2.skip(1))
            + r2);
        lemma_names_tail_unambiguous(t1.skip(1), t2.skip(1), r1, r2);
        assert(t1 =~= seq![t1[0]] + t1.skip(1));
        assert(t2 =~= seq![t2[0]] + t2.skip(1));
    }
}

#[verifier::rlimit(100)]
proof fn lemma_names_unambiguous(
    s1: Seq<Seq<char>>,
    s2: Seq<Seq<char>>,
    r1: Seq<char>,
    r2: Seq<char>,
)
    requires
        ser_names(s1) + r1 == ser_names(s2) + r2,
    ensures
        s1 == s2,
        r1 == r2,
{
    if s1.len() == 0 && s2.len() == 0 {
        assert(ser_names(s1) + r1 =~= seq!['['] + (seq![']'] + r1));
        assert(ser_names(s2) + r2 =~= seq!['['] + (seq![']'] + r2));
        lemma_cancel(seq!['['], seq![']'] + r1, seq![']'] + r2);
        lemma_cancel(seq![']'], r1, r2);
        assert(s1 =~= s2);
    } else if s1.len() == 0 {
        let l = ser_names(s1) + r1;
        assert(l[1] == ']');
        assert(l[1] == ser_str(s2[0])[0]);
        assert(ser_str(s2[0])[0] == '"');
        assert(false);
    } else if s2.len() == 0 {
        let l = ser_names(s1) + r1;
        assert(l[1] == ser_str(s1[0])[0]);
        assert(ser_str(s1[0])[0] == '"');
        assert(l[1] == ']');
        assert(false);
    } else {
        lemma_names_rebracket(s1, r1);
        lemma_names_rebracket(s2, r2);
        lemma_cancel(
            seq!['['],
            ser_str(s1[0]) + (names_tail(s1.skip(1)) + r1),
            ser_str(s2[0]) + (names_tail(s2.skip(1)) + r2),
        );
        lemma_str_unambiguous(s1[0], s2[0], names_tail(s1.skip(1)) + r1, names_tail(s2.skip(1))
            + r2);
        lemma_names_tail_unambiguous(s1.skip(1), s2.skip(1), r1, r2);
        assert(s1 =~= seq![s1[0]] + s1.skip(1));
        assert(s2 =~= seq![s2[0]] + s2.skip(1));
    }
}

#[verifier::rlimit(100)]
proof fn lemma_widths_tail_unambiguous(t1: Seq<u32>, t2: Seq<u32>, r1: Seq<char>, r2: Seq<char>)
    requires
        widths_tail(t1) + r1 == widths_tail(t2) + r2,
    ensures
        t1 == t2,
        r1 == r2,
    decreases t1.len(),
{
    let l = widths_tail(t1) + r1;
    if t1.len() == 0 && t2.len() == 0 {
        lemma_cancel(seq![']'], r1, r2);
        assert(t1 =~= t2);
    } else if t1.len() == 0 {
        assert(l[0] == ']');
        assert(l[0] == ',');
        assert(false);
    } else if t2.len() == 0 {
        assert(l[0] == ',');
        assert(l[0] == ']');
        assert(false);
    } else {
        lemma_widths_tail_rebracket(t1, r1);
        lemma_widths_tail_rebracket(t2, r2);
        lemma_cancel(
            seq![','],
            dec_str(t1[0] as nat) + (widths_tail(t1.skip(1)) + r1),
            dec_str(t2[0] as nat) + (widths_tail(t2.skip(1)) + r2),
        );
        lemma_width_follower_seq(t1.skip(1), r1);
        lemma_width_follower_seq(t2.skip(1), r2);
        crate::text::lemma_dec_unambiguous(
            t1[0] as nat,
            t2[0] as nat,
            widths_tail(t1.skip(1)) + r1,
            widths_tail(t2.skip(1)) + r2,
        );
        lemma_widths_tail_unambiguous(t1.skip(1), t2.skip(1), r1, r2);
        assert(t1 =~= seq![t1[0]] + t1.skip(1));
        assert(t2 =~= seq![t2[0]] + t2.skip(1));
    }
}

/// A width list's tail starts with a comma or a closing bracket.
proof fn lemma_width_follower_seq(t: Seq<u32>, r: Seq<char>)
    ensures
        (widths_tail(t) + r).len() > 0,
        !is_digit((widths_tail(t) + r)[0]),
{
    if t.len() == 0 {
        assert((widths_tail(t) + r)[0] == ']');
    } else {
        assert((widths_tail(t) + r)[0] == ',');
    }
}

#[verifier::rlimit(100)]
proof fn lemma_widths_unambiguous(s1: Seq<u32>, s2: Seq<u32>, r1: Seq<char>, r2: Seq<char>)
    requires
        ser_widths(s1) + r1 == ser_widths(s2) + r2,
    ensures
        s1 == s2,
        r1 == r2,
{
    if s1.len() == 0 && s2.len() == 0 {
        assert(ser_widths(s1) + r1 =~= seq!['['] + (seq![']'] + r1));
        assert(ser_widths(s2) + r2 =~= seq!['['] + (seq![']'] + r2));
        lemma_cancel(seq!['['], seq![']'] + r1, seq![']'] + r2);
        lemma_cancel(seq![']'], r1, r2);
        assert(s1 =~= s2);
    } else if s1.len() == 0 {
        let l = ser_widths(s1) + r1;
        crate::text::lemma_dec_str_digits(s2[0] as nat);
        assert(l[1] == ']');
        assert(l[1] == dec_str(s2[0] as nat)[0]);
        assert(false);
    } else if s2.len() == 0 {
        let l = ser_widths(s1) + r1;
        crate::text::lemma_dec_str_digits(s1[0] as nat);
        assert(l[1] == dec_str(s1[0] as nat)[0]);
        assert(l[1] == ']');
        assert(false);
    } else {
        lemma_widths_rebracket(s1, r1);
        lemma_widths_rebracket(s2, r2);
        lemma_cancel(
            seq!['['],
            dec_str(s1[0] as nat) + (widths_tail(s1.skip(1)) + r1),
            dec_str(s2[0] as nat) + (widths_tail(s2.skip(1)) + r2),
        );
        lemma_width_follower_seq(s1.skip(1), r1);
        lemma_width_follower_seq(s2.skip(1), r2);
        crate::text::lemma_dec_unambiguous(
            s1[0] as nat,
            s2[0] as nat,
            widths_tail(s1.skip(1)) + r1,
            widths_tail(s2.skip(1)) + r2,
        );
        lemma_widths_tail_unambiguous(s1.skip(1), s2.skip(1), r1, r2);
        assert(s1 =~= seq![s1[0]] + s1.skip(1));
        assert(s2 =~= seq![s2[0]] + s2.skip(1));
    }
}

#[verifier::rlimit(100)]
proof fn lemma_selected_unambiguous(
    c1: Option<(usize, usize)>,
    c2: Option<(usize, usize)>,
    r1: Seq<char>,
    r2: Seq<char>,
)
    requires
        ser_selected(c1) + r1 == ser_selected(c2) + r2,
    ensures
        c1 == c2,
        r1 == r2,
{
    reveal_strlit("null");
    match (c1, c2) {
        (None, None) => {
            lemma_cancel("null"@, r1, r2);
        },
        (None, Some(b)) => {
            let l = ser_selected(c1) + r1;
            assert(l[0] == "null"@[0]);
            lemma_sel_rebracket(b, r2);
            assert(l[0] == '[');
            assert(false);
        },
        (Some(a), None) => {
            let l = ser_selected(c1) + r1;
            lemma_sel_rebracket(a, r1);
            assert(l[0] == '[');
            assert(l[0] == "null"@[0]);
            assert(false);
        },
        (Some(a), Some(b)) => {
            lemma_sel_rebracket(a, r1);
            lemma_sel_rebracket(b, r2);
            lemma_cancel(
                seq!['['],
                dec_str(a.0 as nat) + (seq![','] + (dec_str(a.1 as nat) + (seq![']'] + r1))),
                dec_str(b.0 as nat) + (seq![','] + (dec_str(b.1 as nat) + (seq![']'] + r2))),
            );
            crate::text::lemma_dec_unambiguous(
                a.0 as nat,
                b.0 as nat,
                seq![','] + (dec_str(a.1 as nat) + (seq![']'] + r1)),
                seq![','] + (dec_str(b.1 as nat) + (seq![']'] + r2)),
            );
            lemma_cancel(
                seq![','],
                dec_str(a.1 as nat) + (seq![']'] + r1),
                dec_str(b.1 as nat) + (seq![']'] + r2),
            );
            crate::text::lemma_dec_unambiguous(
                a.1 as nat,
                b.1 as nat,
                seq![']'] + r1,
                seq![']'] + r2,
            );
            lemma_cancel(seq![']'], r1, r2);
        },
    }
}

#[verifier::rlimit(100)]
proof fn lemma_view_unambiguous(v1: ViewSettings, v2: ViewSettings, r1: Seq<char>, r2: Seq<char>)
    requires
        ser_view(v1) + r1 == ser_view(v2) + r2,
    ensures
        v1 == v2,
        r1 == r2,
{
    reveal_strlit(",\"selected\":");
    reveal_strlit(",\"zoom\":");
    let a1 = ser_selected(v1.selected_cell) + (",\"zoom\":"@ + (dec_str(v1.zoom_level as nat) + (
    seq!['}'] + r1)));
    let a2 = ser_selected(v2.selected_cell) + (",\"zoom\":"@ + (dec_str(v2.zoom_level as nat) + (
    seq!['}'] + r2)));
    lemma_view_rebracket2(v1, r1);
    lemma_view_rebracket2(v2, r2);
    lemma_cancel(
        "{\"scroll\":"@,
        dec_str(v1.scroll_position as nat) + (",\"selected\":"@ + a1),
        dec_str(v2.scroll_position as nat) + (",\"selected\":"@ + a2),
    );
    crate::text::lemma_dec_unambiguous(
        v1.scroll_position as nat,
        v2.scroll_position as nat,
        ",\"selected\":"@ + a1,
        ",\"selected\":"@ + a2,
    );
    lemma_cancel(",\"selected\":"@, a1, a2);
    lemma_selected_unambiguous(
        v1.selected_cell,
        v2.selected_cell,
        ",\"zoom\":"@ + (dec_str(v1.zoom_level as nat) + (seq!['}'] + r1)),
        ",\"zoom\":"@ + (dec_str(v2.zoom_level as nat) + (seq!['}'] + r2)),
    );
    lemma_cancel(
        ",\"zoom\":"@,
        dec_str(v1.zoom_level as nat) + (seq!['}'] + r1),
        dec_str(v2.zoom_level as nat) + (seq!['}'] + r2),
    );
    crate::text::lemma_dec_unambiguous(
        v1.zoom_level as nat,
        v2.zoom_level as nat,
        seq!['}'] + r1,
        seq!['}'] + r2,
    );
    lemma_cancel(seq!['}'], r1, r2);
}

/// A map has exactly one key-sorted, duplicate-free entry list: the
/// canonical entry order of the codec is unique.
pub proof fn lemma_sorted_entries_unique(s1: Seq<Entry<CellFormat>>, s2: Seq<Entry<CellFormat>>)
    requires
        keys_sorted(s1),
        distinct_keys(s1),
        keys_sorted(s2),
        distinct_keys(s2),
        map_of(s1) == map_of(s2),
    ensures
        s1 == s2,
    decreases s1.len(),
{
    if s1.len() == 0 && s2.len() == 0 {
        assert(s1 =~= s2);
    } else if s1.len() == 0 {
        assert(map_of(s2).contains_key(entry_key(s2.last())));
        assert(map_of(s1) =~= Map::<(usize, usize), CellFormat>::empty());
        assert(false);
    } else if s2.len() == 0 {
        assert(map_of(s1).contains_key(entry_key(s1.last())));
        assert(map_of(s2) =~= Map::<(usize, usize), CellFormat>::empty());
        assert(false);
    } else {
        let k1 = entry_key(s1.last());
        let k2 = entry_key(s2.last());
        assert(map_of(s1).contains_key(k2));
        crate::cellmap::lemma_has_key(s1, k2);
        if forall|j: int| 0 <= j < s1.len() ==> entry_key(#[trigger] s1[j]) != k2 {
            crate::cellmap::lemma_no_index_no_key(s1, k2);
            assert(false);
        }
        let j1 = choose|j: int| 0 <= j < s1.len() && entry_key(#[trigger] s1[j]) == k2;
        assert(j1 == s1.len() - 1 || lex_lt(k2, k1));
        assert(map_of(s2).contains_key(k1));
        crate::cellmap::lemma_has_key(s2, k1);
        if forall|j: int| 0 <= j < s2.len() ==> entry_key(#[trigger] s2[j]) != k1 {
            crate::cellmap::lemma_no_index_no_key(s2, k1);
            assert(false);
        }
        let j2 = choose|j: int| 0 <= j < s2.len() && entry_key(#[trigger] s2[j]) == k1;
        assert(j2 == s2.len() - 1 || lex_lt(k1, k2));
        assert(k1 == k2);
        crate::cellmap::lemma_index_val(s1, s1.len() - 1);
        crate::cellmap::lemma_index_val(s2, s2.len() - 1);
        assert(s1.last().val == map_of(s1)[k1]);
        assert(s2.last().val == map_of(s2)[k1]);
        assert(s1.last() == s2.last());
        crate::cellmap::lemma_has_key(s1.drop_last(), k1);
        crate::cellmap::lemma_has_key(s2.drop_last(), k1);
        assert(map_of(s1.drop_last()) =~= map_of(s1).remove(k1));
        assert(map_of(s2.drop_last()) =~= map_of(s2).remove(k1));
        assert(keys_sorted(s1.drop_last())) by {
            assert(forall|a: int, b: int|
                0 <= a < b < s1.len() - 1 ==> s1.drop_last()[a] == s1[a] && s1.drop_last()[b]
                    == s1[b]);
        }
        assert(keys_sorted(s2.drop_last())) by {
            assert(forall|a: int, b: int|
                0 <= a < b < s2.len() - 1 ==> s2.drop_last()[a] == s2[a] && s2.drop_last()[b]
                    == s2[b]);
        }
        lemma_sorted_entries_unique(s1.drop_last(), s2.drop_last());
        assert(s1 =~= s1.drop_last().push(s1.last()));
        assert(s2 =~= s2.drop_last().push(s2.last()));
    }
}

#[verifier::rlimit(100)]
proof fn lemma_meta_tail_unambiguous(
    ns1: Seq<Seq<char>>,
    ws1: Seq<u32>,
    vw1: ViewSettings,
    ns2: Seq<Seq<char>>,
    ws2: Seq<u32>,
    vw2: ViewSettings,
)
    requires
        ",\"column_names\":"@ + (ser_names(ns1) + (",\"column_widths\":"@ + (ser_widths(ws1) + (
        ",\"view_settings\":"@ + (ser_view(vw1) + seq!['}']))))) == ",\"column_names\":"@ + (
        ser_names(ns2) + (",\"column_widths\":"@ + (ser_widths(ws2) + (",\"view_settings\":"@ + (
        ser_view(vw2) + seq!['}']))))),
    ensures
        ns1 == ns2,
        ws1 == ws2,
        vw1 == vw2,
{
    lemma_cancel(
        ",\"column_names\":"@,
        ser_names(ns1) + (",\"column_widths\":"@ + (ser_widths(ws1) + (",\"view_settings\":"@ + (
        ser_view(vw1) + seq!['}'])))),
        ser_names(ns2) + (",\"column_widths\":"@ + (ser_widths(ws2) + (",\"view_settings\":"@ + (
        ser_view(vw2) + seq!['}'])))),
    );
    lemma_names_unambiguous(
        ns1,
        ns2,
        ",\"column_widths\":"@ + (ser_widths(ws1) + (",\"view_settings\":"@ + (ser_view(vw1)
            + seq!['}']))),
        ",\"column_widths\":"@ + (ser_widths(ws2) + (",\"view_settings\":"@ + (ser_view(vw2)
            + seq!['}']))),
    );
    lemma_cancel(
        ",\"column_widths\":"@,
        ser_widths(ws1) + (",\"view_settings\":"@ + (ser_view(vw1) + seq!['}'])),
        ser_widths(ws2) + (",\"view_settings\":"@ + (ser_view(vw2) + seq!['}'])),
    );
    lemma_widths_unambiguous(
        ws1,
        ws2,
        ",\"view_settings\":"@ + (ser_view(vw1) + seq!['}']),
        ",\"view_settings\":"@ + (ser_view(vw2) + seq!['}']),
    );
    lemma_cancel(
        ",\"view_settings\":"@,
        ser_view(vw1) + seq!['}'],
        ser_view(vw2) + seq!['}'],
    );
    lemma_view_unambiguous(vw1, vw2, seq!['}'], seq!['}']);
}

/// A serialized metadata document, bracketed to the right.
proof fn lemma_meta_rebracket(
    v: u32,
    es: Seq<Entry<CellFormat>>,
    ns: Seq<Seq<char>>,
    ws: Seq<u32>,
    vw: ViewSettings,
)
    ensures
        ser_meta(v, es, ns, ws, vw) == "{\"version\":"@ + (dec_str(v as nat) + (
        ",\"formatting\":"@ + (ser_fmt_map(es) + (",\"column_names\":"@ + (ser_names(ns) + (
        ",\"column_widths\":"@ + (ser_widths(ws) + (",\"view_settings\":"@ + (ser_view(vw)
            + seq!['}']))))))))),
{
    let l1 = "{\"version\":"@;
    let d = dec_str(v as nat);
    let l2 = ",\"formatting\":"@;
    let fm = ser_fmt_map(es);
    let l3 = ",\"column_names\":"@;
    let nm = ser_names(ns);
    let l4 = ",\"column_widths\":"@;
    let wd = ser_widths(ws);
    let l5 = ",\"view_settings\":"@;
    let vv = ser_view(vw);
    let e = seq!['}'];
    vstd::seq_lib::lemma_concat_associative(l1 + d + l2 + fm + l3 + nm + l4 + wd + l5, vv, e);
    vstd::seq_lib::lemma_concat_associative(l1 + d + l2 + fm + l3 + nm + l4 + wd, l5, vv + e);
    vstd::seq_lib::lemma_concat_associative(l1 + d + l2 + fm + l3 + nm + l4, wd, l5 + (vv + e));
    vstd::seq_lib::lemma_concat_associative(l1 + d + l2 + fm + l3 + nm, l4, wd + (l5 + (vv + e)));
    vstd::seq_lib::lemma_concat_associative(
        l1 + d + l2 + fm + l3,
        nm,
        l4 + (wd + (l5 + (vv + e))),
    );
    vstd::seq_lib::lemma_concat_associative(
        l1 + d + l2 + fm,
        l3,
        nm + (l4 + (wd + (l5 + (vv + e)))),
    );
    vstd::seq_lib::lemma_concat_associative(
        l1 + d + l2,
        fm,
        l3 + (nm + (l4 + (wd + (l5 + (vv + e))))),
    );
    vstd::seq_lib::lemma_concat_associative(
        l1 + d,
        l2,
        fm + (l3 + (nm + (l4 + (wd + (l5 + (vv + e)))))),
    );
    vstd::seq_lib::lemma_concat_associative(
        l1,
        d,
        l2 + (fm + (l3 + (nm + (l4 + (wd + (l5 + (vv + e))))))),
    );
}

proof fn proof_first_is_comma()
    ensures
        ",\"formatting\":"@.len() > 0,
        !is_digit(",\"formatting\":"@[0]),
        ",\"column_names\":"@.len() > 0,
        !is_digit(",\"column_names\":"@[0]),
        ",\"column_widths\":"@.len() > 0,
        !is_digit(",\"column_widths\":"@[0]),
        ",\"view_settings\":"@.len() > 0,
        !is_digit(",\"view_settings\":"@[0]),
{
    reveal_strlit(",\"formatting\":");
    reveal_strlit(",\"column_names\":");
    reveal_strlit(",\"column_widths\":");
    reveal_strlit(",\"view_settings\":");
}

/// The canonical metadata text determines the metadata exactly: two
/// serializations agree only when every component agrees. With the codec's
/// contracts this closes the archive round trip: what the loader returns
/// from a saved archive is exactly what was saved.
#[verifier::rlimit(100)]
pub proof fn lemma_metadata_unambiguous(
    v1: u32,
    es1: Seq<Entry<CellFormat>>,
    ns1: Seq<Seq<char>>,
    ws1: Seq<u32>,
    vw1: ViewSettings,
    v2: u32,
    es2: Seq<Entry<CellFormat>>,
    ns2: Seq<Seq<char>>,
    ws2: Seq<u32>,
    vw2: ViewSettings,
)
    requires
        ser_meta(v1, es1, ns1, ws1, vw1) == ser_meta(v2, es2, ns2, ws2, vw2),
    ensures
        v1 == v2,
        es1 == es2,
        ns1 == ns2,
        ws1 == ws2,
        vw1 == vw2,
        map_of(es1) == map_of(es2),
{
    let t1 = ",\"column_names\":"@ + (ser_names(ns1) + (",\"column_widths\":"@ + (ser_widths(ws1)
        + (",\"view_settings\":"@ + (ser_view(vw1) + seq!['}'])))));
    let t2 = ",\"column_names\":"@ + (ser_names(ns2) + (",\"column_widths\":"@ + (ser_widths(ws2)
        + (",\"view_settings\":"@ + (ser_view(vw2) + seq!['}'])))));
    lemma_meta_rebracket(v1, es1, ns1, ws1, vw1);
    lemma_meta_rebracket(v2, es2, ns2, ws2, vw2);
    lemma_cancel(
        "{\"version\":"@,
        dec_str(v1 as nat) + (",\"formatting\":"@ + (ser_fmt_map(es1) + t1)),
        dec_str(v2 as nat) + (",\"formatting\":"@ + (ser_fmt_map(es2) + t2)),
    );
    proof_first_is_comma();
    crate::text::lemma_dec_unambiguous(
        v1 as nat,
        v2 as nat,
        ",\"formatting\":"@ + (ser_fmt_map(es1) + t1),
        ",\"formatting\":"@ + (ser_fmt_map(es2) + t2),
    );
    lemma_cancel(",\"formatting\":"@, ser_fmt_map(es1) + t1, ser_fmt_map(es2) + t2);
    lemma_fmt_map_unambiguous(es1, es2, t1, t2);
    lemma_meta_tail_unambiguous(ns1, ws1, vw1, ns2, ws2, vw2);
}

/// Round trip for the grid text/// Round trip for the grid text: equal encodings mean equal texts, so the
/// data entry a save writes is decoded back to exactly the saved text.
pub proof fn lemma_text_round_trip(t1: Seq<char>, t2: Seq<char>)
    requires
        vstd::utf8::encode_utf8(t1) == vstd::utf8::encode_utf8(t2),
    ensures
        t1 == t2,
{
    vstd::utf8::encode_utf8_decode_utf8(t1);
    vstd::utf8::encode_utf8_decode_utf8(t2);
}

/// Whether a path names an archive of this codec: its extension (the part
/// after the last dot of the final path component, with something before the
/// dot) matches case-insensitively.
pub open spec fn has_csvi_extension(p: Seq<char>) -> bool {
    exists|i: int|
        0 < i < p.len() && (#[trigger] p[i]) == '.' && p[i - 1] != '/' && (forall|j: int|
            i < j < p.len() ==> (#[trigger] p[j]) != '.' && p[j] != '/') && crate::text::seq_eq_ci(
            p.skip(i + 1),
            "csvi"@,
        )
}

/// Check whether a path names an archive of this codec.
pub fn is_csvi_file(path: &str) -> (r: bool)
    ensures
        r == has_csvi_extension(path@),
{
    let v = chars_of(path);
    let n = v.len();
    let mut k: usize = n;
    while k > 0
        invariant
            k <= n,
            n == v@.len(),
            v@ == path@,
            forall|j: int| k <= j < n ==> v@[j] != '.' && v@[j] != '/',
        decreases k,
    {
        let c = v[k - 1];
        if c == '.' || c == '/' {
            break ;
        }
        k -= 1;
    }
    if k == 0 {
        proof {
            assert forall|i: int| 0 < i < n && (#[trigger] v@[i]) == '.' implies false by {}
        }
        return false;
    }
    let c = v[k - 1];
    if c == '/' {
        proof {
            assert forall|i: int|
                0 < i < n && (#[trigger] v@[i]) == '.' && (forall|j: int|
                    i < j < n ==> (#[trigger] v@[j]) != '.' && v@[j] != '/') implies false by {
                if i < k - 1 {
                    assert(v@[k - 1] == '/');
                } else {
                    assert(v@[i] != '.');
                }
            }
        }
        return false;
    }
    let i = k - 1;
    if i == 0 {
        proof {
            assert forall|x: int|
                0 < x < n && (#[trigger] v@[x]) == '.' && (forall|j: int|
                    x < j < n ==> (#[trigger] v@[j]) != '.' && v@[j] != '/') implies false by {
                if x > i {
                    assert(v@[x] != '.');
                } else {
                    assert(x == 0);
                }
            }
        }
        return false;
    }
    let prev = v[i - 1];
    if prev == '/' {
        proof {
            assert forall|x: int|
                0 < x < n && (#[trigger] v@[x]) == '.' && v@[x - 1] != '/' && (forall|j: int|
                    x < j < n ==> (#[trigger] v@[j]) != '.' && v@[j] != '/') implies false by {
                if x > i {
                    assert(v@[x] != '.');
                } else if x == i {
                } else {
                    assert(v@[i as int] == '.');
                }
            }
        }
        return false;
    }
    let mut ext: Vec<char> = Vec::new();
    let mut t: usize = i + 1;
    while t < n
        invariant
            i + 1 <= t <= n,
            n == v@.len(),
            ext@ =~= v@.subrange(i as int + 1, t as int),
        decreases n - t,
    {
        ext.push(v[t]);
        t += 1;
    }
    proof {
        assert(ext@ =~= v@.skip(i as int + 1));
    }
    let m = chars_match_ci(&ext, "csvi");
    proof {
        if m {
            assert(has_csvi_extension(path@)) by {
                assert(0 < i < n && v@[i as int] == '.' && v@[i as int - 1] != '/' && (forall|
                    j: int,
                |
                    i < j < n ==> v@[j] != '.' && v@[j] != '/') && crate::text::seq_eq_ci(
                    v@.skip(i as int + 1),
                    "csvi"@,
                ));
            }
        } else {
            assert(!has_csvi_extension(path@)) by {
                if has_csvi_extension(path@) {
                    let x = choose|x: int|
                        0 < x < path@.len() && (#[trigger] path@[x]) == '.' && path@[x - 1] != '/'
                            && (forall|j: int|
                            x < j < path@.len() ==> (#[trigger] path@[j]) != '.' && path@[j] != '/')
                            && crate::text::seq_eq_ci(path@.skip(x + 1), "csvi"@);
                    if x > i {
                        assert(v@[x] != '.');
                    } else if x < i {
                        assert(v@[i as int] == '.');
                    }
                    assert(x == i);
                    assert(false);
                }
            }
        }
    }
    m
}

} // verus!
