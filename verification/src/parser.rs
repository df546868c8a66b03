//! Field parsing for one record of delimited text. Fields are separated by
//! commas; a field may be quoted with `"`, inside which a doubled quote means
//! one literal quote and commas are literal. An unterminated quote is
//! tolerated: end of input closes it implicitly, so parsing never fails.
use crate::text::{chars_of, string_from_chars, trim_chars, trim_view};
use vstd::prelude::*;

verus! {

/// The fields of the remaining input `s`, given the quoting state `in_q`,
/// the field collected so far `cur`, and the fields already finished `acc`.
/// With `trim` set, each finished field is trimmed of outer whitespace.
pub open spec fn fields_of_rec(
    s: Seq<char>,
    in_q: bool,
    cur: Seq<char>,
    acc: Seq<Seq<char>>,
    trim: bool,
) -> Seq<Seq<char>>
    decreases s.len(),
{
    if s.len() == 0 {
        acc.push(
            if trim {
                trim_view(cur)
            } else {
                cur
            },
        )
    } else {
        let c = s[0];
        if c == '"' && !in_q {
            fields_of_rec(s.skip(1), true, cur, acc, trim)
        } else if c == '"' && in_q {
            if s.len() > 1 && s[1] == '"' {
                fields_of_rec(s.skip(2), true, cur.push('"'), acc, trim)
            } else {
                fields_of_rec(s.skip(1), false, cur, acc, trim)
            }
        } else if c == ',' && !in_q {
            fields_of_rec(
                s.skip(1),
                false,
                Seq::empty(),
                acc.push(
                    if trim {
                        trim_view(cur)
                    } else {
                        cur
                    },
                ),
                trim,
            )
        } else {
            fields_of_rec(s.skip(1), in_q, cur.push(c), acc, trim)
        }
    }
}

/// The ordered fields of one record's text.
pub open spec fn fields_of(s: Seq<char>, trim: bool) -> Seq<Seq<char>> {
    fields_of_rec(s, false, Seq::empty(), Seq::empty(), trim)
}

/// Split one record's text into its fields; never fails.
pub fn split_fields(line: &str, trim: bool) -> (r: Vec<String>)
    ensures
        r.deep_view() == fields_of(line@, trim),
        r@.len() >= 1,
{
    let cs = chars_of(line);
    let n = cs.len();
    let mut fields: Vec<String> = Vec::new();
    let mut cur: Vec<char> = Vec::new();
    let mut in_q: bool = false;
    let mut i: usize = 0;
    proof {
        assert(cs@.skip(0) =~= cs@);
        assert(fields.deep_view() =~= Seq::<Seq<char>>::empty());
        assert(cur@ =~= Seq::<char>::empty());
    }
    while i < n
        invariant
            i <= n,
            n == cs@.len(),
            cs@ == line@,
            fields_of(line@, trim) == fields_of_rec(
                cs@.skip(i as int),
                in_q,
                cur@,
                fields.deep_view(),
                trim,
            ),
        decreases n - i,
    {
        let c = cs[i];
        proof {
            assert(cs@.skip(i as int)[0] == cs@[i as int]);
            assert(cs@.skip(i as int).skip(1) =~= cs@.skip(i as int + 1));
        }
        if c == '"' && !in_q {
            in_q = true;
            i += 1;
        } else if c == '"' && in_q {
            if i + 1 < n && cs[i + 1] == '"' {
                proof {
                    assert(cs@.skip(i as int)[1] == cs@[i as int + 1]);
                    assert(cs@.skip(i as int).skip(2) =~= cs@.skip(i as int + 2));
                }
                cur.push('"');
                i += 2;
            } else {
                proof {
                    if i + 1 < n {
                        assert(cs@.skip(i as int)[1] == cs@[i as int + 1]);
                    }
                }
                in_q = false;
                i += 1;
            }
        } else if c == ',' && !in_q {
            let ghost prev = fields.deep_view();
            let f = if trim {
                let t = trim_chars(&cur);
                string_from_chars(&t)
            } else {
                string_from_chars(&cur)
            };
            fields.push(f);
            proof {
                assert(fields.deep_view() =~= prev.push(
                    if trim {
                        trim_view(cur@)
                    } else {
                        cur@
                    },
                ));
            }
            cur = Vec::new();
            i += 1;
        } else {
            cur.push(c);
            i += 1;
        }
    }
    proof {
        assert(cs@.skip(n as int) =~= Seq::<char>::empty());
    }
    let ghost prev = fields.deep_view();
    let f = if trim {
        let t = trim_chars(&cur);
        string_from_chars(&t)
    } else {
        string_from_chars(&cur)
    };
    fields.push(f);
    proof {
        assert(fields.deep_view() =~= prev.push(
            if trim {
                trim_view(cur@)
            } else {
                cur@
            },
        ));
    }
    fields
}

/// The lines of `s`: split at `'\n'`, with a `'\r'` immediately before the
/// newline stripped, and no empty final line for text ending in a newline.
pub open spec fn lines_rec(s: Seq<char>, cur: Seq<char>, acc: Seq<Seq<char>>) -> Seq<Seq<char>>
    decreases s.len(),
{
    if s.len() == 0 {
        if cur.len() == 0 {
            acc
        } else {
            acc.push(cur)
        }
    } else if s[0] == '\n' {
        lines_rec(s.skip(1), Seq::empty(), acc.push(strip_cr(cur)))
    } else {
        lines_rec(s.skip(1), cur.push(s[0]), acc)
    }
}

/// Drop one carriage return at the end, if present.
pub open spec fn strip_cr(l: Seq<char>) -> Seq<char> {
    if l.len() > 0 && l.last() == '\r' {
        l.drop_last()
    } else {
        l
    }
}

pub open spec fn lines_of(s: Seq<char>) -> Seq<Seq<char>> {
    lines_rec(s, Seq::empty(), Seq::empty())
}

/// Split text into lines as `lines_of` describes.
pub fn split_lines(text: &str) -> (r: Vec<String>)
    ensures
        r.deep_view() == lines_of(text@),
{
    let cs = chars_of(text);
    let n = cs.len();
    let mut lines: Vec<String> = Vec::new();
    let mut cur: Vec<char> = Vec::new();
    let mut i: usize = 0;
    proof {
        assert(cs@.skip(0) =~= cs@);
        assert(lines.deep_view() =~= Seq::<Seq<char>>::empty());
        assert(cur@ =~= Seq::<char>::empty());
    }
    while i < n
        invariant
            i <= n,
            n == cs@.len(),
            cs@ == text@,
            lines_of(text@) == lines_rec(cs@.skip(i as int), cur@, lines.deep_view()),
        decreases n - i,
    {
        let c = cs[i];
        proof {
            assert(cs@.skip(i as int)[0] == cs@[i as int]);
            assert(cs@.skip(i as int).skip(1) =~= cs@.skip(i as int + 1));
        }
        if c == '\n' {
            let ghost prev = lines.deep_view();
            let ghost cur0 = cur@;
            let stripped = if cur.len() > 0 && cur[cur.len() - 1] == '\r' {
                let mut t = cur;
                t.pop();
                t
            } else {
                cur
            };
            proof {
                assert(stripped@ =~= strip_cr(cur0));
            }
            lines.push(string_from_chars(&stripped));
            proof {
                assert(lines.deep_view() =~= prev.push(strip_cr(cur0)));
            }
            cur = Vec::new();
            i += 1;
        } else {
            cur.push(c);
            i += 1;
        }
    }
    proof {
        assert(cs@.skip(n as int) =~= Seq::<char>::empty());
    }
    if cur.len() > 0 {
        let ghost prev = lines.deep_view();
        lines.push(string_from_chars(&cur));
        proof {
            assert(lines.deep_view() =~= prev.push(cur@));
        }
    }
    lines
}

/// Strict-looking entry point kept for callers that parse one raw line.
pub struct CsvParser;

impl CsvParser {
    /// Parses a raw line into its fields. Parsing is lenient and total; an
    /// empty line yields no fields.
    pub fn parse_line(line: &str) -> (r: Vec<String>)
        ensures
            line@.len() == 0 ==> r.deep_view() == Seq::<Seq<char>>::empty(),
            line@.len() > 0 ==> r.deep_view() == fields_of(line@, false),
    {
        if line.is_empty() {
            let r: Vec<String> = Vec::new();
            proof {
                assert(r.deep_view() =~= Seq::<Seq<char>>::empty());
            }
            r
        } else {
            split_fields(line, false)
        }
    }
}

} // verus!
