//! Column profiling: null detection, per-value type classification, type
//! inference over a dominance threshold, and value frequency statistics.
use crate::text::{
    chars_match_ci, chars_of, dec_val, is_digit, seq_eq_ci, string_from_chars, trim_chars,
    trim_view,
};
use vstd::multiset::Multiset;
use vstd::prelude::*;

verus! {

/// A value is null when, after trimming, it is empty or names a null marker,
/// case-insensitively.
pub open spec fn is_null_text(s: Seq<char>) -> bool {
    let t = trim_view(s);
    t.len() == 0 || seq_eq_ci(t, "null"@) || seq_eq_ci(t, "na"@) || seq_eq_ci(t, "n/a"@)
}

pub fn is_null_value(v: &String) -> (r: bool)
    ensures
        r == is_null_text(v@),
{
    let cs = chars_of(v.as_str());
    let t = trim_chars(&cs);
    t.len() == 0 || chars_match_ci(&t, "null") || chars_match_ci(&t, "na") || chars_match_ci(
        &t,
        "n/a",
    )
}

/// The text after one optional leading sign.
pub open spec fn sign_split(s: Seq<char>) -> Seq<char> {
    if s.len() > 0 && (s[0] == '+' || s[0] == '-') {
        s.skip(1)
    } else {
        s
    }
}

pub open spec fn all_digits(s: Seq<char>) -> bool {
    s.len() >= 1 && forall|i: int| 0 <= i < s.len() ==> is_digit(#[trigger] s[i])
}

/// Nonempty digits denoting a value no greater than `bound`.
pub open spec fn uint_ok(ds: Seq<char>, bound: int) -> bool {
    all_digits(ds) && dec_val(ds) <= bound
}

/// The text parses as a signed 64-bit integer: an optional sign, then digits,
/// within range.
pub open spec fn int_ok(s: Seq<char>) -> bool {
    if s.len() > 0 && s[0] == '-' {
        uint_ok(s.skip(1), 0x8000_0000_0000_0000)
    } else {
        uint_ok(sign_split(s), 0x7fff_ffff_ffff_ffff)
    }
}

pub proof fn lemma_dec_val_nonneg(s: Seq<char>)
    ensures
        dec_val(s) >= 0,
    decreases s.len(),
{
    if s.len() > 0 {
        lemma_dec_val_nonneg(s.drop_last());
    }
}

pub proof fn lemma_dec_val_prefix(s: Seq<char>, i: int)
    requires
        0 <= i <= s.len(),
    ensures
        dec_val(s.take(i)) <= dec_val(s),
    decreases s.len() - i,
{
    if i == s.len() {
        assert(s.take(i) =~= s);
    } else {
        lemma_dec_val_prefix(s, i + 1);
        assert(s.take(i + 1).drop_last() =~= s.take(i));
        lemma_dec_val_nonneg(s.take(i));
        assert(dec_val(s.take(i + 1)) == dec_val(s.take(i)) * 10 + crate::text::digit_val(
            s.take(i + 1).last(),
        ));
    }
}

/// Check that `t[from..]` is nonempty digits whose value is at most `bound`.
fn check_uint(t: &Vec<char>, from: usize, bound: u64) -> (r: bool)
    requires
        from <= t@.len(),
        bound >= 9,
    ensures
        r == uint_ok(t@.skip(from as int), bound as int),
{
    let ghost ds = t@.skip(from as int);
    let n = t.len();
    if from == n {
        return false;
    }
    let mut acc: u64 = 0;
    let mut j: usize = from;
    while j < n
        invariant
            from <= j <= n,
            n == t@.len(),
            from < n,
            ds == t@.skip(from as int),
            acc as int == dec_val(ds.take(j - from)),
            acc <= bound,
            forall|k: int| 0 <= k < j - from ==> is_digit(#[trigger] ds[k]),
        decreases n - j,
    {
        let c = t[j];
        proof {
            assert(ds[j - from] == t@[j as int]);
        }
        if !(c >= '0' && c <= '9') {
            return false;
        }
        let d: u64 = (c as u32 - 48) as u64;
        proof {
            assert(crate::text::digit_val(c) == d as int);
            assert(ds.take(j - from + 1).drop_last() =~= ds.take(j - from));
            assert(ds.take(j - from + 1).last() == ds[j - from]);
        }
        if acc > (bound - d) / 10 {
            proof {
                vstd::arithmetic::div_mod::lemma_fundamental_div_mod(bound as int - d, 10);
                assert(acc as int * 10 + d > bound);
                assert(dec_val(ds.take(j - from + 1)) > bound);
                lemma_dec_val_prefix(ds, j - from + 1);
            }
            return false;
        }
        acc = acc * 10 + d;
        j += 1;
    }
    proof {
        assert(ds.take(n - from) =~= ds);
    }
    true
}

pub fn is_int_text(t: &Vec<char>) -> (r: bool)
    ensures
        r == int_ok(t@),
{
    if t.len() == 0 {
        return false;
    }
    let c0 = t[0];
    if c0 == '-' {
        check_uint(t, 1, 0x8000_0000_0000_0000)
    } else if c0 == '+' {
        proof {
            assert(sign_split(t@) =~= t@.skip(1));
        }
        check_uint(t, 1, 0x7fff_ffff_ffff_ffff)
    } else {
        proof {
            assert(sign_split(t@) =~= t@.skip(0));
            assert(t@.skip(0) =~= t@);
        }
        check_uint(t, 0, 0x7fff_ffff_ffff_ffff)
    }
}

/// States of the checker for the numeric part of a float, mirroring the
/// grammar the standard library documents for float parsing: digits, one
/// optional dot with at least one digit overall, and an optional exponent.
pub enum NumSt {
    /// Nothing seen yet.
    Start,
    /// Integer digits seen, no dot.
    Int,
    /// A leading dot seen, no digits yet.
    DotOnly,
    /// Digits and a dot seen (in either order).
    Frac,
    /// The exponent marker was just read.
    ExpMark,
    /// The exponent sign was just read.
    ExpSign,
    /// Exponent digits seen.
    ExpDig,
}

/// Whether the remaining text is accepted from state `st`.
pub open spec fn num_rec(s: Seq<char>, st: NumSt) -> bool
    decreases s.len(),
{
    if s.len() == 0 {
        st is Int || st is Frac || st is ExpDig
    } else {
        let c = s[0];
        let rest = s.skip(1);
        match st {
            NumSt::Start => {
                if is_digit(c) {
                    num_rec(rest, NumSt::Int)
                } else if c == '.' {
                    num_rec(rest, NumSt::DotOnly)
                } else {
                    false
                }
            },
            NumSt::Int => {
                if is_digit(c) {
                    num_rec(rest, NumSt::Int)
                } else if c == '.' {
                    num_rec(rest, NumSt::Frac)
                } else if c == 'e' || c == 'E' {
                    num_rec(rest, NumSt::ExpMark)
                } else {
                    false
                }
            },
            NumSt::DotOnly => {
                if is_digit(c) {
                    num_rec(rest, NumSt::Frac)
                } else {
                    false
                }
            },
            NumSt::Frac => {
                if is_digit(c) {
                    num_rec(rest, NumSt::Frac)
                } else if c == 'e' || c == 'E' {
                    num_rec(rest, NumSt::ExpMark)
                } else {
                    false
                }
            },
            NumSt::ExpMark => {
                if is_digit(c) {
                    num_rec(rest, NumSt::ExpDig)
                } else if c == '+' || c == '-' {
                    num_rec(rest, NumSt::ExpSign)
                } else {
                    false
                }
            },
            NumSt::ExpSign => {
                if is_digit(c) {
                    num_rec(rest, NumSt::ExpDig)
                } else {
                    false
                }
            },
            NumSt::ExpDig => {
                if is_digit(c) {
                    num_rec(rest, NumSt::ExpDig)
                } else {
                    false
                }
            },
        }
    }
}

/// The text parses as a float: an optional sign, then an infinity or
/// not-a-number word (case-insensitive) or a number with optional fraction
/// and exponent.
pub open spec fn float_ok(s: Seq<char>) -> bool {
    s.len() > 0 && {
        let r = sign_split(s);
        seq_eq_ci(r, "inf"@) || seq_eq_ci(r, "infinity"@) || seq_eq_ci(r, "nan"@) || num_rec(
            r,
            NumSt::Start,
        )
    }
}

pub fn is_float_text(t: &Vec<char>) -> (r: bool)
    ensures
        r == float_ok(t@),
{
    if t.len() == 0 {
        return false;
    }
    let c0 = t[0];
    let start: usize = if c0 == '+' || c0 == '-' {
        1
    } else {
        0
    };
    let mut rest: Vec<char> = Vec::new();
    let n = t.len();
    let mut k: usize = start;
    while k < n
        invariant
            start <= k <= n,
            n == t@.len(),
            rest@ =~= t@.subrange(start as int, k as int),
        decreases n - k,
    {
        rest.push(t[k]);
        k += 1;
    }
    proof {
        assert(t@.subrange(start as int, n as int) =~= t@.skip(start as int));
        assert(t@.skip(0) =~= t@);
        assert(rest@ == sign_split(t@));
    }
    if chars_match_ci(&rest, "inf") || chars_match_ci(&rest, "infinity") || chars_match_ci(
        &rest,
        "nan",
    ) {
        return true;
    }
    let m = rest.len();
    let mut st: u8 = 0;
    let ghost states: Seq<NumSt> = seq![
        NumSt::Start,
        NumSt::Int,
        NumSt::DotOnly,
        NumSt::Frac,
        NumSt::ExpMark,
        NumSt::ExpSign,
        NumSt::ExpDig,
    ];
    let mut j: usize = 0;
    proof {
        assert(rest@.skip(0) =~= rest@);
    }
    while j < m
        invariant
            j <= m,
            m == rest@.len(),
            st < 7,
            num_rec(rest@, NumSt::Start) == num_rec(rest@.skip(j as int), states[st as int]),
        decreases m - j,
    {
        let c = rest[j];
        proof {
            assert(rest@.skip(j as int)[0] == rest@[j as int]);
            assert(rest@.skip(j as int).skip(1) =~= rest@.skip(j as int + 1));
        }
        let dig = c >= '0' && c <= '9';
        let next: u8 = if st == 0 {
            if dig {
                1
            } else if c == '.' {
                2
            } else {
                return false;
            }
        } else if st == 1 {
            if dig {
                1
            } else if c == '.' {
                3
            } else if c == 'e' || c == 'E' {
                4
            } else {
                return false;
            }
        } else if st == 2 {
            if dig {
                3
            } else {
                return false;
            }
        } else if st == 3 {
            if dig {
                3
            } else if c == 'e' || c == 'E' {
                4
            } else {
                return false;
            }
        } else if st == 4 {
            if dig {
                6
            } else if c == '+' || c == '-' {
                5
            } else {
                return false;
            }
        } else if st == 5 {
            if dig {
                6
            } else {
                return false;
            }
        } else {
            if dig {
                6
            } else {
                return false;
            }
        };
        st = next;
        j += 1;
    }
    proof {
        assert(rest@.skip(m as int) =~= Seq::<char>::empty());
    }
    st == 1 || st == 3 || st == 6
}

pub open spec fn is_sep(c: char) -> bool {
    c == '-' || c == '/'
}

/// One date part: an optional plus sign, then bounded digits, as unsigned
/// 32-bit parsing accepts.
pub open spec fn u32_part_ok(p: Seq<char>) -> bool {
    if p.len() > 0 && p[0] == '+' {
        uint_ok(p.skip(1), 0xffff_ffff)
    } else {
        uint_ok(p, 0xffff_ffff)
    }
}

/// The text looks like a date: exactly three parts separated by `-` or `/`,
/// each parsing as an unsigned 32-bit number.
pub open spec fn date_ok(s: Seq<char>) -> bool {
    exists|i: int, j: int|
        0 <= i < j < s.len() && is_sep(s[i]) && is_sep(s[j]) && (forall|k: int|
            0 <= k < s.len() && k != i && k != j ==> !is_sep(#[trigger] s[k])) && u32_part_ok(
            s.take(i),
        ) && u32_part_ok(s.subrange(i + 1, j)) && u32_part_ok(s.skip(j + 1))
}

fn check_u32_part(part: &Vec<char>) -> (r: bool)
    ensures
        r == u32_part_ok(part@),
{
    if part.len() > 0 && part[0] == '+' {
        check_uint(part, 1, 0xffff_ffff)
    } else {
        proof {
            assert(part@.skip(0) =~= part@);
        }
        check_uint(part, 0, 0xffff_ffff)
    }
}

fn copy_range(t: &Vec<char>, from: usize, to: usize) -> (r: Vec<char>)
    requires
        from <= to <= t@.len(),
    ensures
        r@ == t@.subrange(from as int, to as int),
{
    let mut r: Vec<char> = Vec::new();
    let mut k: usize = from;
    while k < to
        invariant
            from <= k <= to,
            to <= t@.len(),
            r@ =~= t@.subrange(from as int, k as int),
        decreases to - k,
    {
        r.push(t[k]);
        k += 1;
    }
    r
}

pub fn is_date_text(t: &Vec<char>) -> (r: bool)
    ensures
        r == date_ok(t@),
{
    let n = t.len();
    let mut first: usize = n;
    let mut second: usize = n;
    let mut count: usize = 0;
    let mut k: usize = 0;
    while k < n
        invariant
            k <= n,
            n == t@.len(),
            count <= k,
            count == 0 ==> first == n && second == n && (forall|x: int|
                0 <= x < k ==> !is_sep(#[trigger] t@[x])),
            count == 1 ==> first < k && is_sep(t@[first as int]) && second == n && (forall|x: int|
                0 <= x < k && x != first ==> !is_sep(#[trigger] t@[x])),
            count >= 2 ==> first < second < k && is_sep(t@[first as int]) && is_sep(
                t@[second as int],
            ),
            count == 2 ==> (forall|x: int|
                0 <= x < k && x != first && x != second ==> !is_sep(#[trigger] t@[x])),
            count > 2 ==> exists|x: int|
                0 <= x < k && x != first && x != second && is_sep(#[trigger] t@[x]),
        decreases n - k,
    {
        let c = t[k];
        if c == '-' || c == '/' {
            if count == 0 {
                first = k;
            } else if count == 1 {
                second = k;
            }
            count += 1;
        }
        k += 1;
    }
    if count != 2 {
        proof {
            if count < 2 {
                assert(!date_ok(t@)) by {
                    if date_ok(t@) {
                        let (i, j) = choose|i: int, j: int|
                            0 <= i < j < t@.len() && is_sep(t@[i]) && is_sep(t@[j]) && (forall|
                                k: int,
                            |
                                0 <= k < t@.len() && k != i && k != j ==> !is_sep(
                                    #[trigger] t@[k],
                                )) && u32_part_ok(t@.take(i)) && u32_part_ok(t@.subrange(i + 1, j))
                                && u32_part_ok(t@.skip(j + 1));
                        assert(is_sep(t@[i]) && is_sep(t@[j]));
                        assert(false);
                    }
                }
            } else {
                assert(!date_ok(t@)) by {
                    if date_ok(t@) {
                        let (i, j) = choose|i: int, j: int|
                            0 <= i < j < t@.len() && is_sep(t@[i]) && is_sep(t@[j]) && (forall|
                                k: int,
                            |
                                0 <= k < t@.len() && k != i && k != j ==> !is_sep(
                                    #[trigger] t@[k],
                                )) && u32_part_ok(t@.take(i)) && u32_part_ok(t@.subrange(i + 1, j))
                                && u32_part_ok(t@.skip(j + 1));
                        let x = choose|x: int|
                            0 <= x < n && x != first && x != second && is_sep(#[trigger] t@[x]);
                        assert(is_sep(t@[first as int]) && is_sep(t@[second as int]) && is_sep(
                            t@[x],
                        ));
                        assert(false);
                    }
                }
            }
        }
        return false;
    }
    let p1 = copy_range(t, 0, first);
    let p2 = copy_range(t, first + 1, second);
    let p3 = copy_range(t, second + 1, n);
    proof {
        assert(p1@ =~= t@.take(first as int));
        assert(p3@ =~= t@.skip(second as int + 1));
    }
    let ok = check_u32_part(&p1) && check_u32_part(&p2) && check_u32_part(&p3);
    proof {
        if ok {
            assert(date_ok(t@)) by {
                assert(0 <= first < second < t@.len() && is_sep(t@[first as int]) && is_sep(
                    t@[second as int],
                ) && (forall|k: int|
                    0 <= k < t@.len() && k != first && k != second ==> !is_sep(#[trigger] t@[k]))
                    && u32_part_ok(t@.take(first as int)) && u32_part_ok(
                    t@.subrange(first as int + 1, second as int),
                ) && u32_part_ok(t@.skip(second as int + 1)));
            }
        } else {
            assert(!date_ok(t@)) by {
                if date_ok(t@) {
                    let (i, j) = choose|i: int, j: int|
                        0 <= i < j < t@.len() && is_sep(t@[i]) && is_sep(t@[j]) && (forall|k: int|
                            0 <= k < t@.len() && k != i && k != j ==> !is_sep(#[trigger] t@[k]))
                            && u32_part_ok(t@.take(i)) && u32_part_ok(t@.subrange(i + 1, j))
                            && u32_part_ok(t@.skip(j + 1));
                        assert(i == first && j == second) by {
                            if i != first || j != second {
                                if first != i && first != j {
                                    assert(!is_sep(t@[first as int]));
                                } else if second != i && second != j {
                                    assert(!is_sep(t@[second as int]));
                                } else {
                                    assert((first == i || first == j) && (second == i || second
                                        == j));
                                    assert(first < second && i < j);
                                }
                            }
                        }
                    assert(false);
                }
            }
        }
    }
    ok
}

/// Inferred data type for a column.
#[derive(Clone, Copy, Debug, PartialEq, Eq, Structural)]
pub enum InferredType {
    Integer,
    Float,
    Boolean,
    Date,
    Text,
    Empty,
    Mixed,
}

pub open spec fn spec_type_name(t: InferredType) -> Seq<char> {
    match t {
        InferredType::Integer => "Integer"@,
        InferredType::Float => "Float"@,
        InferredType::Boolean => "Boolean"@,
        InferredType::Date => "Date"@,
        InferredType::Text => "Text"@,
        InferredType::Empty => "Empty"@,
        InferredType::Mixed => "Mixed"@,
    }
}

impl InferredType {
    pub fn name(&self) -> (r: &'static str)
        ensures
            r@ == spec_type_name(*self),
    {
        match self {
            InferredType::Integer => "Integer",
            InferredType::Float => "Float",
            InferredType::Boolean => "Boolean",
            InferredType::Date => "Date",
            InferredType::Text => "Text",
            InferredType::Empty => "Empty",
            InferredType::Mixed => "Mixed",
        }
    }
}

/// The boolean vocabulary, matched case-insensitively.
pub open spec fn bool_ok(t: Seq<char>) -> bool {
    seq_eq_ci(t, "true"@) || seq_eq_ci(t, "false"@) || seq_eq_ci(t, "yes"@) || seq_eq_ci(t, "no"@)
        || seq_eq_ci(t, "1"@) || seq_eq_ci(t, "0"@)
}

/// How a single raw value classifies: `None` for null, else the first
/// matching kind in priority order integer, float, boolean, date, text.
pub open spec fn class_of(raw: Seq<char>) -> Option<InferredType> {
    if is_null_text(raw) {
        None
    } else {
        let t = trim_view(raw);
        if int_ok(t) {
            Some(InferredType::Integer)
        } else if float_ok(t) {
            Some(InferredType::Float)
        } else if bool_ok(t) {
            Some(InferredType::Boolean)
        } else if date_ok(t) {
            Some(InferredType::Date)
        } else {
            Some(InferredType::Text)
        }
    }
}

pub fn classify_value(v: &String) -> (r: Option<InferredType>)
    ensures
        r == class_of(v@),
{
    if is_null_value(v) {
        return None;
    }
    let cs = chars_of(v.as_str());
    let t = trim_chars(&cs);
    if is_int_text(&t) {
        Some(InferredType::Integer)
    } else if is_float_text(&t) {
        Some(InferredType::Float)
    } else if chars_match_ci(&t, "true") || chars_match_ci(&t, "false") || chars_match_ci(
        &t,
        "yes",
    ) || chars_match_ci(&t, "no") || chars_match_ci(&t, "1") || chars_match_ci(&t, "0") {
        Some(InferredType::Boolean)
    } else if is_date_text(&t) {
        Some(InferredType::Date)
    } else {
        Some(InferredType::Text)
    }
}

/// How many values classify as `c`.
pub open spec fn count_class(vs: Seq<Seq<char>>, c: Option<InferredType>) -> int
    decreases vs.len(),
{
    if vs.len() == 0 {
        0
    } else {
        count_class(vs.drop_last(), c) + if class_of(vs.last()) == c {
            1int
        } else {
            0int
        }
    }
}

proof fn lemma_count_class_bound(vs: Seq<Seq<char>>, c: Option<InferredType>)
    ensures
        0 <= count_class(vs, c) <= vs.len(),
    decreases vs.len(),
{
    if vs.len() > 0 {
        lemma_count_class_bound(vs.drop_last(), c);
    }
}

/// The column's inferred type: `Empty` without non-null values, else the
/// first kind whose share of the non-null values reaches eighty percent, else
/// `Text` when any value is plain text, else `Mixed`. Integer and float
/// parses count together toward the float share.
pub open spec fn infer_type_spec(vs: Seq<Seq<char>>) -> InferredType {
    let nn = vs.len() - count_class(vs, None);
    if nn == 0 {
        InferredType::Empty
    } else if 5 * count_class(vs, Some(InferredType::Integer)) >= 4 * nn {
        InferredType::Integer
    } else if 5 * (count_class(vs, Some(InferredType::Integer)) + count_class(
        vs,
        Some(InferredType::Float),
    )) >= 4 * nn {
        InferredType::Float
    } else if 5 * count_class(vs, Some(InferredType::Boolean)) >= 4 * nn {
        InferredType::Boolean
    } else if 5 * count_class(vs, Some(InferredType::Date)) >= 4 * nn {
        InferredType::Date
    } else if count_class(vs, Some(InferredType::Text)) > 0 {
        InferredType::Text
    } else {
        InferredType::Mixed
    }
}

/// The distinct trimmed non-null values, in first-seen order.
pub open spec fn distinct_rec(vs: Seq<Seq<char>>, i: int, acc: Seq<Seq<char>>) -> Seq<Seq<char>>
    decreases vs.len() - i,
{
    if i < 0 || i >= vs.len() {
        acc
    } else if is_null_text(vs[i]) {
        distinct_rec(vs, i + 1, acc)
    } else if acc.contains(trim_view(vs[i])) {
        distinct_rec(vs, i + 1, acc)
    } else {
        distinct_rec(vs, i + 1, acc.push(trim_view(vs[i])))
    }
}

pub open spec fn distinct_of(vs: Seq<Seq<char>>) -> Seq<Seq<char>> {
    distinct_rec(vs, 0, Seq::empty())
}

/// How many non-null values trim to `key`.
pub open spec fn occ(vs: Seq<Seq<char>>, key: Seq<char>) -> int
    decreases vs.len(),
{
    if vs.len() == 0 {
        0
    } else {
        occ(vs.drop_last(), key) + if !is_null_text(vs.last()) && trim_view(vs.last()) == key {
            1int
        } else {
            0int
        }
    }
}

proof fn lemma_occ_bound(vs: Seq<Seq<char>>, key: Seq<char>)
    ensures
        0 <= occ(vs, key) <= vs.len(),
    decreases vs.len(),
{
    if vs.len() > 0 {
        lemma_occ_bound(vs.drop_last(), key);
    }
}

/// Each distinct value paired with its occurrence count, in first-seen order.
pub open spec fn ideal_pairs(vs: Seq<Seq<char>>) -> Seq<(Seq<char>, int)> {
    Seq::new(distinct_of(vs).len(), |k: int| (distinct_of(vs)[k], occ(vs, distinct_of(vs)[k])))
}

pub open spec fn pair_views(s: Seq<(String, usize)>) -> Seq<(Seq<char>, int)> {
    s.map_values(|p: (String, usize)| (p.0@, p.1 as int))
}

fn count_occ(values: &Vec<String>, key: &String) -> (r: usize)
    ensures
        r as int == occ(values.deep_view(), key@),
{
    let n = values.len();
    let mut cnt: usize = 0;
    let mut j: usize = 0;
    let ghost dv = values.deep_view();
    while j < n
        invariant
            j <= n,
            n == values@.len(),
            dv == values.deep_view(),
            cnt <= j,
            cnt as int == occ(dv.take(j as int), key@),
        decreases n - j,
    {
        proof {
            assert(dv.take(j as int + 1).drop_last() =~= dv.take(j as int));
            assert(dv.take(j as int + 1).last() == dv[j as int]);
        }
        let hit = if is_null_value(&values[j]) {
            false
        } else {
            let cs = chars_of(values[j].as_str());
            let t = trim_chars(&cs);
            let ts = string_from_chars(&t);
            ts == *key
        };
        if hit {
            cnt += 1;
        }
        j += 1;
    }
    proof {
        assert(dv.take(n as int) =~= dv);
    }
    cnt
}

/// Sort value/count pairs by descending count.
fn sort_pairs_desc(v: Vec<(String, usize)>) -> (r: Vec<(String, usize)>)
    ensures
        pair_views(r@).to_multiset() == pair_views(v@).to_multiset(),
        forall|a: int, b: int| 0 <= a < b < r@.len() ==> r@[a].1 >= r@[b].1,
{
    broadcast use vstd::seq_lib::group_to_multiset_ensures;

    let mut src = v;
    let mut out: Vec<(String, usize)> = Vec::new();
    while src.len() > 0
        invariant
            pair_views(out@).to_multiset().add(pair_views(src@).to_multiset()) == pair_views(
                v@,
            ).to_multiset(),
            forall|a: int, b: int| 0 <= a < b < out@.len() ==> out@[a].1 >= out@[b].1,
            forall|a: int, b: int|
                0 <= a < out@.len() && 0 <= b < src@.len() ==> out@[a].1 >= src@[b].1,
        decreases src@.len(),
    {
        let n = src.len();
        let mut m: usize = 0;
        let mut k: usize = 1;
        while k < n
            invariant
                m < k <= n,
                n == src@.len(),
                forall|x: int| 0 <= x < k ==> src@[m as int].1 >= src@[x].1,
            decreases n - k,
        {
            if src[k].1 > src[m].1 {
                m = k;
            }
            k += 1;
        }
        let ghost pre_src = src@;
        let ghost pre_out = out@;
        let e = src.remove(m);
        out.push(e);
        proof {
            assert(pair_views(src@) =~= pair_views(pre_src).remove(m as int));
            assert(pair_views(pre_src)[m as int] == (e.0@, e.1 as int));
            assert(pair_views(out@) =~= pair_views(pre_out).push((e.0@, e.1 as int)));
            assert(pair_views(out@).to_multiset().add(pair_views(src@).to_multiset())
                =~= pair_views(pre_out).to_multiset().add(pair_views(pre_src).to_multiset()));
            assert forall|b: int| 0 <= b < src@.len() implies e.1 >= src@[b].1 by {
                if b < m {
                    assert(src@[b] == pre_src[b]);
                } else {
                    assert(src@[b] == pre_src[b + 1]);
                }
            }
        }
    }
    proof {
        assert(pair_views(src@).to_multiset() =~= Multiset::<(Seq<char>, int)>::empty());
        assert(pair_views(out@).to_multiset().add(Multiset::<(Seq<char>, int)>::empty())
            =~= pair_views(out@).to_multiset());
    }
    out
}

/// Profile of a single column: identity, inferred type, and counting
/// statistics. Numeric aggregates are computed by the caller from the
/// numeric values, which floating point keeps outside this crate.
#[derive(Clone, Debug)]
pub struct ColumnProfile {
    pub column_index: usize,
    pub header: String,
    pub data_type: Option<InferredType>,
    pub total_count: usize,
    pub null_count: usize,
    pub unique_count: usize,
    /// The most frequent values with their counts, most frequent first.
    pub top_values: Vec<(String, usize)>,
}

/// Analyzer that profiles columns.
pub struct ColumnAnalyzer;

impl ColumnAnalyzer {
    /// Profile one column from its header and its already-extracted values.
    pub fn analyze_column(header: &str, col_index: usize, values: &Vec<String>) -> (p:
        ColumnProfile)
        ensures
            p.column_index == col_index,
            p.header@ == header@,
            p.total_count == values@.len(),
            p.null_count as int == count_class(values.deep_view(), None::<InferredType>),
            p.data_type == Some(infer_type_spec(values.deep_view())),
            p.unique_count as int == distinct_of(values.deep_view()).len(),
            exists|full: Seq<(Seq<char>, int)>|
                {
                    &&& full.to_multiset() == ideal_pairs(values.deep_view()).to_multiset()
                    &&& (forall|a: int, b: int| 0 <= a < b < full.len() ==> full[a].1 >= full[b].1)
                    &&& pair_views(p.top_values@) == full.take(
                        if full.len() < 5 {
                            full.len() as int
                        } else {
                            5
                        },
                    )
                },
    {
        let ghost vs = values.deep_view();
        let n = values.len();
        let mut n_null: usize = 0;
        let mut n_int: usize = 0;
        let mut n_float: usize = 0;
        let mut n_bool: usize = 0;
        let mut n_date: usize = 0;
        let mut n_text: usize = 0;
        let mut i: usize = 0;
        while i < n
            invariant
                i <= n,
                n == values@.len(),
                vs == values.deep_view(),
                n_null as int == count_class(vs.take(i as int), None::<InferredType>),
                n_int as int == count_class(vs.take(i as int), Some(InferredType::Integer)),
                n_float as int == count_class(vs.take(i as int), Some(InferredType::Float)),
                n_bool as int == count_class(vs.take(i as int), Some(InferredType::Boolean)),
                n_date as int == count_class(vs.take(i as int), Some(InferredType::Date)),
                n_text as int == count_class(vs.take(i as int), Some(InferredType::Text)),
                n_null <= i && n_int <= i && n_float <= i && n_bool <= i && n_date <= i && n_text
                    <= i,
            decreases n - i,
        {
            proof {
                assert(vs.take(i as int + 1).drop_last() =~= vs.take(i as int));
                assert(vs.take(i as int + 1).last() == vs[i as int]);
            }
            match classify_value(&values[i]) {
                None => n_null += 1,
                Some(InferredType::Integer) => n_int += 1,
                Some(InferredType::Float) => n_float += 1,
                Some(InferredType::Boolean) => n_bool += 1,
                Some(InferredType::Date) => n_date += 1,
                Some(_) => {
                    proof {
                        assert(class_of(vs[i as int]) == Some(InferredType::Text));
                    }
                    n_text += 1;
                },
            }
            i += 1;
        }
        proof {
            assert(vs.take(n as int) =~= vs);
        }
        let non_null = n - n_null;
        let data_type = if non_null == 0 {
            InferredType::Empty
        } else if (n_int as u128) * 5 >= (non_null as u128) * 4 {
            InferredType::Integer
        } else if ((n_int as u128) + (n_float as u128)) * 5 >= (non_null as u128) * 4 {
            InferredType::Float
        } else if (n_bool as u128) * 5 >= (non_null as u128) * 4 {
            InferredType::Boolean
        } else if (n_date as u128) * 5 >= (non_null as u128) * 4 {
            InferredType::Date
        } else if n_text > 0 {
            InferredType::Text
        } else {
            InferredType::Mixed
        };
        // Distinct trimmed non-null values, in first-seen order.
        let mut dl: Vec<String> = Vec::new();
        let mut i2: usize = 0;
        proof {
            assert(dl.deep_view() =~= Seq::<Seq<char>>::empty());
        }
        while i2 < n
            invariant
                i2 <= n,
                n == values@.len(),
                vs == values.deep_view(),
                distinct_of(vs) == distinct_rec(vs, i2 as int, dl.deep_view()),
            decreases n - i2,
        {
            if !is_null_value(&values[i2]) {
                let cs = chars_of(values[i2].as_str());
                let t = trim_chars(&cs);
                let ts = string_from_chars(&t);
                let dn = dl.len();
                let mut seen: bool = false;
                let mut k: usize = 0;
                while k < dn
                    invariant
                        k <= dn,
                        dn == dl@.len(),
                        ts@ == trim_view(vs[i2 as int]),
                        i2 < n,
                        n == values@.len(),
                        vs == values.deep_view(),
                        seen ==> dl.deep_view().contains(trim_view(vs[i2 as int])),
                        !seen ==> (forall|x: int|
                            0 <= x < k ==> dl.deep_view()[x] != trim_view(vs[i2 as int])),
                    decreases dn - k,
                {
                    if dl[k] == ts {
                        seen = true;
                        proof {
                            assert(dl.deep_view()[k as int] == trim_view(vs[i2 as int]));
                        }
                        k = dn;
                    } else {
                        k += 1;
                    }
                }
                if !seen {
                    let ghost prev = dl.deep_view();
                    proof {
                        assert(!prev.contains(trim_view(vs[i2 as int])));
                    }
                    dl.push(ts);
                    proof {
                        assert(dl.deep_view() =~= prev.push(trim_view(vs[i2 as int])));
                    }
                }
            }
            i2 += 1;
        }
        let unique_count = dl.len();
        // Pair each distinct value with its occurrence count.
        let mut pairs: Vec<(String, usize)> = Vec::new();
        let dn = dl.len();
        let mut k2: usize = 0;
        proof {
            assert(pair_views(pairs@) =~= ideal_pairs(vs).take(0));
        }
        while k2 < dn
            invariant
                k2 <= dn,
                dn == dl@.len(),
                vs == values.deep_view(),
                dl.deep_view() == distinct_of(vs),
                pair_views(pairs@) == ideal_pairs(vs).take(k2 as int),
            decreases dn - k2,
        {
            let ghost prevp = pairs@;
            let key = dl[k2].clone();
            let cnt = count_occ(values, &key);
            pairs.push((key, cnt));
            proof {
                assert(pair_views(pairs@) =~= pair_views(prevp).push((
                    distinct_of(vs)[k2 as int],
                    occ(vs, distinct_of(vs)[k2 as int]),
                )));
                assert(ideal_pairs(vs).take(k2 as int + 1).drop_last() =~= ideal_pairs(vs).take(
                    k2 as int,
                ));
                assert(pair_views(pairs@) =~= ideal_pairs(vs).take(k2 as int + 1));
            }
            k2 += 1;
        }
        proof {
            assert(ideal_pairs(vs).take(dn as int) =~= ideal_pairs(vs));
        }
        let sorted = sort_pairs_desc(pairs);
        let ghost full = pair_views(sorted@);
        let keep = if sorted.len() < 5 {
            sorted.len()
        } else {
            5
        };
        let mut top: Vec<(String, usize)> = Vec::new();
        let mut k3: usize = 0;
        while k3 < keep
            invariant
                k3 <= keep,
                keep <= sorted@.len(),
                full == pair_views(sorted@),
                pair_views(top@) =~= full.take(k3 as int),
            decreases keep - k3,
        {
            let ghost prevt = top@;
            let entry = (sorted[k3].0.clone(), sorted[k3].1);
            top.push(entry);
            proof {
                assert(pair_views(top@) =~= pair_views(prevt).push((
                    sorted@[k3 as int].0@,
                    sorted@[k3 as int].1 as int,
                )));
                assert(full.take(k3 as int + 1).drop_last() =~= full.take(k3 as int));
            }
            k3 += 1;
        }
        let p = ColumnProfile {
            column_index: col_index,
            header: header.to_owned(),
            data_type: Some(data_type),
            total_count: n,
            null_count: n_null,
            unique_count,
            top_values: top,
        };
        proof {
            assert(pair_views(p.top_values@) == full.take(
                if full.len() < 5 {
                    full.len() as int
                } else {
                    5
                },
            ));
        }
        p
    }
}

/// The trimmed numeric values (integer or float) in order; the caller
/// computes floating-point aggregates over them.
pub open spec fn numeric_of(vs: Seq<Seq<char>>) -> Seq<Seq<char>>
    decreases vs.len(),
{
    if vs.len() == 0 {
        Seq::empty()
    } else {
        numeric_of(vs.drop_last()) + (if class_of(vs.last()) == Some(InferredType::Integer)
            || class_of(vs.last()) == Some(InferredType::Float) {
            seq![trim_view(vs.last())]
        } else {
            Seq::empty()
        })
    }
}

/// Extract the numeric values of a column for aggregate computation.
pub fn numeric_values(values: &Vec<String>) -> (r: Vec<String>)
    ensures
        r.deep_view() == numeric_of(values.deep_view()),
{
    let ghost vs = values.deep_view();
    let n = values.len();
    let mut r: Vec<String> = Vec::new();
    let mut i: usize = 0;
    proof {
        assert(r.deep_view() =~= numeric_of(vs.take(0)));
    }
    while i < n
        invariant
            i <= n,
            n == values@.len(),
            vs == values.deep_view(),
            r.deep_view() == numeric_of(vs.take(i as int)),
        decreases n - i,
    {
        proof {
            assert(vs.take(i as int + 1).drop_last() =~= vs.take(i as int));
            assert(vs.take(i as int + 1).last() == vs[i as int]);
        }
        let c = classify_value(&values[i]);
        let keep = match c {
            Some(InferredType::Integer) => true,
            Some(InferredType::Float) => true,
            _ => false,
        };
        if keep {
            let ghost prev = r.deep_view();
            let cs = chars_of(values[i].as_str());
            let t = trim_chars(&cs);
            r.push(string_from_chars(&t));
            proof {
                assert(r.deep_view() =~= prev.push(trim_view(vs[i as int])));
                assert(prev.push(trim_view(vs[i as int])) =~= prev + seq![trim_view(vs[i as int])]);
            }
        }
        i += 1;
    }
    proof {
        assert(vs.take(n as int) =~= vs);
    }
    r
}

} // verus!
