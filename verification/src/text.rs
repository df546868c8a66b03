//! Character-level text utilities: decimal rendering of numbers, whitespace
//! trimming, and conversions between strings and character vectors.
use vstd::prelude::*;

verus! {

/// ASCII whitespace, the set this crate trims.
pub open spec fn is_ws(c: char) -> bool {
    c == ' ' || c == '\t' || c == '\n' || c == '\r' || c == '\u{b}' || c == '\u{c}'
}

pub open spec fn is_digit(c: char) -> bool {
    '0' <= c && c <= '9'
}

/// The decimal digit character for `d` in 0..10.
pub open spec fn digit_char(d: int) -> char {
    if d == 0 {
        '0'
    } else if d == 1 {
        '1'
    } else if d == 2 {
        '2'
    } else if d == 3 {
        '3'
    } else if d == 4 {
        '4'
    } else if d == 5 {
        '5'
    } else if d == 6 {
        '6'
    } else if d == 7 {
        '7'
    } else if d == 8 {
        '8'
    } else {
        '9'
    }
}

/// Canonical decimal rendering of `n`: no leading zeros, "0" for zero.
pub open spec fn dec_str(n: nat) -> Seq<char>
    decreases n,
{
    if n < 10 {
        seq![digit_char(n as int)]
    } else {
        dec_str(n / 10).push(digit_char((n % 10) as int))
    }
}

/// The numeric value of a digit character.
pub open spec fn digit_val(c: char) -> int {
    if c == '0' {
        0
    } else if c == '1' {
        1
    } else if c == '2' {
        2
    } else if c == '3' {
        3
    } else if c == '4' {
        4
    } else if c == '5' {
        5
    } else if c == '6' {
        6
    } else if c == '7' {
        7
    } else if c == '8' {
        8
    } else {
        9
    }
}

/// The number denoted by a digit sequence (most significant first).
pub open spec fn dec_val(s: Seq<char>) -> int
    decreases s.len(),
{
    if s.len() == 0 {
        0
    } else {
        dec_val(s.drop_last()) * 10 + digit_val(s.last())
    }
}

pub proof fn lemma_dec_str_digits(n: nat)
    ensures
        dec_str(n).len() >= 1,
        forall|i: int| 0 <= i < dec_str(n).len() ==> is_digit(#[trigger] dec_str(n)[i]),
        n > 0 ==> dec_str(n)[0] != '0',
    decreases n,
{
    if n >= 10 {
        lemma_dec_str_digits(n / 10);
        assert forall|i: int| 0 <= i < dec_str(n).len() implies is_digit(#[trigger] dec_str(n)[i])
        by {
            if i < dec_str(n / 10).len() {
                assert(dec_str(n)[i] == dec_str(n / 10)[i]);
            }
        }
    }
}

pub proof fn lemma_digit_round(d: int)
    requires
        0 <= d < 10,
    ensures
        digit_val(digit_char(d)) == d,
        is_digit(digit_char(d)),
{
}

pub proof fn lemma_dec_val_round(n: nat)
    ensures
        dec_val(dec_str(n)) == n,
    decreases n,
{
    if n < 10 {
        lemma_digit_round(n as int);
        let s = dec_str(n);
        assert(s.len() == 1);
        assert(dec_val(s) == dec_val(s.drop_last()) * 10 + digit_val(s.last()));
        assert(s.drop_last() =~= Seq::<char>::empty());
        assert(dec_val(Seq::<char>::empty()) == 0);
        assert(s.last() == digit_char(n as int));
    } else {
        lemma_dec_val_round(n / 10);
        lemma_digit_round((n % 10) as int);
        assert(dec_str(n).drop_last() =~= dec_str(n / 10));
        assert(dec_str(n).last() == digit_char((n % 10) as int));
        vstd::arithmetic::div_mod::lemma_fundamental_div_mod(n as int, 10);
        assert(dec_val(dec_str(n)) == (n / 10) * 10 + (n % 10));
    }
}

/// Two canonical decimal renderings followed by non-digit text can only be
/// equal when the numbers and the remainders both agree.
pub proof fn lemma_dec_unambiguous(a: nat, b: nat, r1: Seq<char>, r2: Seq<char>)
    requires
        dec_str(a) + r1 == dec_str(b) + r2,
        r1.len() > 0 ==> !is_digit(r1[0]),
        r2.len() > 0 ==> !is_digit(r2[0]),
    ensures
        a == b,
        r1 == r2,
{
    lemma_dec_str_digits(a);
    lemma_dec_str_digits(b);
    let la = dec_str(a).len() as int;
    let lb = dec_str(b).len() as int;
    if la < lb {
        assert((dec_str(a) + r1)[la] == r1[0]);
        assert((dec_str(b) + r2)[la] == dec_str(b)[la]);
        assert(false);
    } else if lb < la {
        assert((dec_str(b) + r2)[lb] == r2[0]);
        assert((dec_str(a) + r1)[lb] == dec_str(a)[lb]);
        assert(false);
    } else {
        assert(dec_str(a) =~= (dec_str(a) + r1).subrange(0, la));
        assert(dec_str(b) =~= (dec_str(b) + r2).subrange(0, la));
        assert(dec_str(a) == dec_str(b));
        lemma_dec_val_round(a);
        lemma_dec_val_round(b);
        assert(r1 =~= (dec_str(a) + r1).subrange(la, (dec_str(a) + r1).len() as int));
        assert(r2 =~= (dec_str(b) + r2).subrange(la, (dec_str(b) + r2).len() as int));
    }
}

/// Relies on `String`'s `FromIterator` over `char`: collecting yields exactly
/// the characters of the vector, in order.
#[verifier::external_body]
pub fn string_from_chars(v: &Vec<char>) -> (r: String)
    ensures
        r@ == v@,
{
    v.iter().collect()
}

/// The characters of a string slice, as a vector.
pub fn chars_of(s: &str) -> (r: Vec<char>)
    ensures
        r@ == s@,
{
    let n = s.unicode_len();
    let mut r: Vec<char> = Vec::new();
    let mut i: usize = 0;
    while i < n
        invariant
            i <= n,
            n == s@.len(),
            r@ =~= s@.take(i as int),
        decreases n - i,
    {
        r.push(s.get_char(i));
        i += 1;
    }
    proof {
        assert(s@.take(n as int) =~= s@);
    }
    r
}

proof fn lemma_reverse_push(s: Seq<char>, c: char)
    ensures
        s.push(c).reverse() =~= seq![c] + s.reverse(),
{
}

/// The digit character of `d`, which must be below ten.
pub fn digit_char_of(d: usize) -> (r: char)
    requires
        d < 10,
    ensures
        r == digit_char(d as int),
{
    if d == 0 {
        '0'
    } else if d == 1 {
        '1'
    } else if d == 2 {
        '2'
    } else if d == 3 {
        '3'
    } else if d == 4 {
        '4'
    } else if d == 5 {
        '5'
    } else if d == 6 {
        '6'
    } else if d == 7 {
        '7'
    } else if d == 8 {
        '8'
    } else {
        '9'
    }
}

/// The canonical decimal digits of `n`.
pub fn dec_chars_of(n: usize) -> (r: Vec<char>)
    ensures
        r@ == dec_str(n as nat),
{
    let mut rev: Vec<char> = Vec::new();
    let mut m: usize = n;
    if m == 0 {
        rev.push('0');
        return rev;
    }
    while m > 0
        invariant
            m > 0 ==> dec_str(n as nat) == dec_str(m as nat) + rev@.reverse(),
            m == 0 ==> dec_str(n as nat) == rev@.reverse(),
        decreases m,
    {
        let d = m % 10;
        proof {
            lemma_reverse_push(rev@, digit_char(d as int));
            if m >= 10 {
                assert(dec_str(m as nat) == dec_str((m / 10) as nat).push(digit_char(d as int)));
                assert(dec_str((m / 10) as nat).push(digit_char(d as int)) + rev@.reverse()
                    =~= dec_str((m / 10) as nat) + (seq![digit_char(d as int)] + rev@.reverse()));
            } else {
                assert(dec_str(m as nat) =~= seq![digit_char(d as int)]);
                assert(seq![digit_char(d as int)] + rev@.reverse() =~= dec_str(m as nat)
                    + rev@.reverse());
            }
        }
        rev.push(digit_char_of(d));
        m = m / 10;
    }
    let mut r: Vec<char> = Vec::new();
    let len = rev.len();
    let mut i: usize = 0;
    while i < len
        invariant
            i <= len,
            len == rev@.len(),
            r@ =~= rev@.reverse().take(i as int),
        decreases len - i,
    {
        r.push(rev[len - 1 - i]);
        i += 1;
    }
    proof {
        assert(rev@.reverse().take(len as int) =~= rev@.reverse());
    }
    r
}

/// The canonical decimal rendering of `n` as a string.
pub fn usize_to_string(n: usize) -> (r: String)
    ensures
        r@ == dec_str(n as nat),
{
    let chars = dec_chars_of(n);
    string_from_chars(&chars)
}

/// `s` with leading whitespace removed.
pub open spec fn trim_front(s: Seq<char>) -> Seq<char>
    decreases s.len(),
{
    if s.len() > 0 && is_ws(s[0]) {
        trim_front(s.skip(1))
    } else {
        s
    }
}

/// `s` with trailing whitespace removed.
pub open spec fn trim_back(s: Seq<char>) -> Seq<char>
    decreases s.len(),
{
    if s.len() > 0 && is_ws(s.last()) {
        trim_back(s.drop_last())
    } else {
        s
    }
}

/// `s` with whitespace removed from both ends.
pub open spec fn trim_view(s: Seq<char>) -> Seq<char> {
    trim_back(trim_front(s))
}

pub fn is_ws_char(c: char) -> (r: bool)
    ensures
        r == is_ws(c),
{
    c == ' ' || c == '\t' || c == '\n' || c == '\r' || c == '\u{b}' || c == '\u{c}'
}

/// Trim ASCII whitespace from both ends of a character vector.
pub fn trim_chars(v: &Vec<char>) -> (r: Vec<char>)
    ensures
        r@ == trim_view(v@),
{
    let n = v.len();
    proof {
        assert(v@.skip(0) =~= v@);
    }
    let mut start: usize = 0;
    while start < n && is_ws_char(v[start])
        invariant
            start <= n,
            n == v@.len(),
            trim_front(v@) == trim_front(v@.skip(start as int)),
        decreases n - start,
    {
        proof {
            assert(v@.skip(start as int).skip(1) =~= v@.skip(start as int + 1));
        }
        start += 1;
    }
    proof {
        if start < n {
            assert(trim_front(v@.skip(start as int)) == v@.skip(start as int));
        } else {
            assert(v@.skip(start as int) =~= Seq::<char>::empty());
            assert(trim_front(v@) =~= v@.skip(start as int));
        }
    }
    let mut end: usize = n;
    while end > start && is_ws_char(v[end - 1])
        invariant
            start <= end <= n,
            n == v@.len(),
            trim_front(v@) == v@.skip(start as int),
            trim_back(v@.skip(start as int)) == trim_back(v@.subrange(start as int, end as int)),
        decreases end,
    {
        proof {
            assert(v@.subrange(start as int, end as int).drop_last() =~= v@.subrange(
                start as int,
                end as int - 1,
            ));
            assert(v@.subrange(start as int, end as int).last() == v@[end - 1]);
        }
        end -= 1;
    }
    proof {
        let t = v@.subrange(start as int, end as int);
        if end > start {
            assert(t.last() == v@[end - 1]);
            assert(trim_back(t) == t);
        } else {
            assert(t =~= Seq::<char>::empty());
            assert(trim_back(t) == t);
        }
        assert(v@.skip(start as int) =~= v@.subrange(start as int, n as int));
    }
    let mut r: Vec<char> = Vec::new();
    let mut i: usize = start;
    while i < end
        invariant
            start <= i <= end <= n,
            n == v@.len(),
            r@ =~= v@.subrange(start as int, i as int),
        decreases end - i,
    {
        r.push(v[i]);
        i += 1;
    }
    r
}

/// Append all characters of `src` to `dst`.
pub fn push_chars(dst: &mut Vec<char>, src: &Vec<char>)
    ensures
        final(dst)@ == old(dst)@ + src@,
{
    let n = src.len();
    let mut k: usize = 0;
    while k < n
        invariant
            k <= n,
            n == src@.len(),
            dst@ =~= old(dst)@ + src@.take(k as int),
        decreases n - k,
    {
        dst.push(src[k]);
        k += 1;
    }
    proof {
        assert(src@.take(n as int) =~= src@);
        assert(dst@ =~= old(dst)@ + src@);
    }
}

/// Whether two characters match ignoring ASCII case.
pub open spec fn chars_eq_ci(a: char, b: char) -> bool {
    a == b || ('A' <= a && a <= 'Z' && a as int + 32 == b as int) || ('A' <= b && b <= 'Z' && b
        as int + 32 == a as int)
}

/// Whether two character sequences match ignoring ASCII case.
pub open spec fn seq_eq_ci(a: Seq<char>, b: Seq<char>) -> bool {
    a.len() == b.len() && forall|i: int| 0 <= i < a.len() ==> chars_eq_ci(a[i], b[i])
}

pub fn char_eq_ci(a: char, b: char) -> (r: bool)
    ensures
        r == chars_eq_ci(a, b),
{
    a == b || (a >= 'A' && a <= 'Z' && (a as u32) + 32 == (b as u32)) || (b >= 'A' && b <= 'Z' && (
    b as u32) + 32 == (a as u32))
}

/// Whether `v` matches `w` ignoring ASCII case.
pub fn chars_match_ci(v: &Vec<char>, w: &str) -> (r: bool)
    ensures
        r == seq_eq_ci(v@, w@),
{
    let wc = chars_of(w);
    if v.len() != wc.len() {
        return false;
    }
    let n = v.len();
    let mut i: usize = 0;
    while i < n
        invariant
            i <= n,
            n == v@.len() == wc@.len(),
            wc@ == w@,
            forall|j: int| 0 <= j < i ==> chars_eq_ci(v@[j], w@[j]),
        decreases n - i,
    {
        if !char_eq_ci(v[i], wc[i]) {
            return false;
        }
        i += 1;
    }
    true
}

} // verus!
