//! Character-level JSON scanning shared by the cache codec and the remote
//! response parser: whitespace, string literals with escapes, and a skipper
//! for arbitrary values, each as a spec function with a matching executable
//! function proved equal to it.

use vstd::prelude::*;

use crate::text::{is_digit, chars_to_string};

verus! {

/// JSON insignificant whitespace.
pub open spec fn is_ws(c: char) -> bool {
    c == ' ' || c == '\n' || c == '\t' || c == '\r'
}

/// A character that may occur in a number token. The scanner is lenient:
/// it delimits number tokens by this class and does not validate their
/// inner grammar, since skipped numbers carry no meaning here.
pub open spec fn is_num_char(c: char) -> bool {
    is_digit(c) || c == '-' || c == '+' || c == '.' || c == 'e' || c == 'E'
}

/// Position of the first non-whitespace character at or after `i`.
pub open spec fn spec_skip_ws(s: Seq<char>, i: int) -> int
    decreases s.len() - i,
{
    if 0 <= i < s.len() && is_ws(s[i]) {
        spec_skip_ws(s, i + 1)
    } else {
        i
    }
}

/// End of the number token starting at `i`.
pub open spec fn spec_num_end(s: Seq<char>, i: int) -> int
    decreases s.len() - i,
{
    if 0 <= i < s.len() && is_num_char(s[i]) {
        spec_num_end(s, i + 1)
    } else {
        i
    }
}

/// Numeric value of one hexadecimal digit, or -1.
pub open spec fn hex_val(c: char) -> int {
    if is_digit(c) {
        c as int - 48
    } else if 97 <= c as u32 <= 102 {
        c as int - 87
    } else if 65 <= c as u32 <= 70 {
        c as int - 55
    } else {
        -1
    }
}

/// Value of the four hexadecimal digits at `i`, or -1 if any is malformed.
pub open spec fn spec_hex4(s: Seq<char>, i: int) -> int {
    if 0 <= i && i + 4 <= s.len() && hex_val(s[i]) >= 0 && hex_val(s[i + 1]) >= 0 && hex_val(
        s[i + 2],
    ) >= 0 && hex_val(s[i + 3]) >= 0 {
        hex_val(s[i]) * 4096 + hex_val(s[i + 1]) * 256 + hex_val(s[i + 2]) * 16 + hex_val(s[i + 3])
    } else {
        -1
    }
}

/// The code is a Unicode scalar value expressible by one `\u` escape.
pub open spec fn valid_code(v: int) -> bool {
    (0 <= v < 0xD800) || (0xE000 <= v <= 0xFFFF)
}

/// Prefixes a decoded character onto the result of parsing the rest of a
/// string body.
pub open spec fn prepend(c: char, r: Option<(Seq<char>, int)>) -> Option<(Seq<char>, int)> {
    match r {
        None => None,
        Some((t, j)) => Some((seq![c] + t, j)),
    }
}

/// Parses the body of a string literal from `i` (just after the opening
/// quote) up to and past the closing quote, decoding escapes. Characters
/// other than `"` and `\` are taken verbatim.
pub open spec fn spec_string_body(s: Seq<char>, i: int) -> Option<(Seq<char>, int)>
    decreases s.len() - i,
{
    if i < 0 || i >= s.len() {
        None
    } else if s[i] == '"' {
        Some((Seq::empty(), i + 1))
    } else if s[i] == '\\' {
        if i + 2 > s.len() {
            None
        } else {
            let e = s[i + 1];
            if e == '"' || e == '\\' || e == '/' {
                prepend(e, spec_string_body(s, i + 2))
            } else if e == 'n' {
                prepend('\n', spec_string_body(s, i + 2))
            } else if e == 't' {
                prepend('\t', spec_string_body(s, i + 2))
            } else if e == 'r' {
                prepend('\r', spec_string_body(s, i + 2))
            } else if e == 'b' {
                prepend('\u{8}', spec_string_body(s, i + 2))
            } else if e == 'f' {
                prepend('\u{c}', spec_string_body(s, i + 2))
            } else if e == 'u' {
                if i + 6 > s.len() {
                    None
                } else {
                    let v = spec_hex4(s, i + 2);
                    if valid_code(v) {
                        prepend(v as char, spec_string_body(s, i + 6))
                    } else {
                        None
                    }
                }
            } else {
                None
            }
        }
    } else {
        prepend(s[i], spec_string_body(s, i + 1))
    }
}

/// Parses a whole string literal whose opening quote stands at `i`,
/// returning the decoded characters and the position past the closing
/// quote.
pub open spec fn spec_parse_string(s: Seq<char>, i: int) -> Option<(Seq<char>, int)> {
    if 0 <= i < s.len() && s[i] == '"' {
        spec_string_body(s, i + 1)
    } else {
        None
    }
}

/// Skips one JSON value starting at `i` (no leading whitespace), returning
/// the position just past it. The impossible guard branches keep the
/// recursion well-founded.
pub open spec fn spec_skip_value(s: Seq<char>, i: int) -> Option<int>
    decreases s.len() - i, 0int,
{
    if i < 0 || i >= s.len() {
        None
    } else if s[i] == '"' {
        match spec_parse_string(s, i) {
            None => None,
            Some((t, j)) => Some(j),
        }
    } else if s[i] == '[' {
        let j = spec_skip_ws(s, i + 1);
        if j <= i || j > s.len() {
            None
        } else if j < s.len() && s[j] == ']' {
            Some(j + 1)
        } else {
            spec_skip_elements(s, j)
        }
    } else if s[i] == '{' {
        let j = spec_skip_ws(s, i + 1);
        if j <= i || j > s.len() {
            None
        } else if j < s.len() && s[j] == '}' {
            Some(j + 1)
        } else {
            spec_skip_members(s, j)
        }
    } else if s[i] == 't' {
        if i + 4 <= s.len() && s[i + 1] == 'r' && s[i + 2] == 'u' && s[i + 3] == 'e' {
            Some(i + 4)
        } else {
            None
        }
    } else if s[i] == 'f' {
        if i + 5 <= s.len() && s[i + 1] == 'a' && s[i + 2] == 'l' && s[i + 3] == 's' && s[i + 4]
            == 'e' {
            Some(i + 5)
        } else {
            None
        }
    } else if s[i] == 'n' {
        if i + 4 <= s.len() && s[i + 1] == 'u' && s[i + 2] == 'l' && s[i + 3] == 'l' {
            Some(i + 4)
        } else {
            None
        }
    } else if s[i] == '-' || is_digit(s[i]) {
        let e = spec_num_end(s, i);
        if e <= i {
            None
        } else {
            Some(e)
        }
    } else {
        None
    }
}

/// Skips the elements of an array from the start of its first element up
/// to and past the closing bracket.
pub open spec fn spec_skip_elements(s: Seq<char>, i: int) -> Option<int>
    decreases s.len() - i, 1int,
{
    if i < 0 {
        None
    } else {
        match spec_skip_value(s, i) {
            None => None,
            Some(j) => {
                if j <= i {
                    None
                } else {
                    let j2 = spec_skip_ws(s, j);
                    if j2 < j {
                        None
                    } else if j2 < s.len() && s[j2] == ',' {
                        let j3 = spec_skip_ws(s, j2 + 1);
                        if j3 <= i || j3 > s.len() {
                            None
                        } else {
                            spec_skip_elements(s, j3)
                        }
                    } else if j2 < s.len() && s[j2] == ']' {
                        Some(j2 + 1)
                    } else {
                        None
                    }
                }
            },
        }
    }
}

/// Skips the members of an object from the start of its first key up to
/// and past the closing brace.
pub open spec fn spec_skip_members(s: Seq<char>, i: int) -> Option<int>
    decreases s.len() - i, 1int,
{
    if i < 0 {
        None
    } else {
        match spec_parse_string(s, i) {
            None => None,
            Some((k, j)) => {
                if j <= i {
                    None
                } else {
                    let j2 = spec_skip_ws(s, j);
                    if j2 < j || j2 >= s.len() || s[j2] != ':' {
                        None
                    } else {
                        let j3 = spec_skip_ws(s, j2 + 1);
                        if j3 <= i || j3 > s.len() {
                            None
                        } else {
                            match spec_skip_value(s, j3) {
                                None => None,
                                Some(j4) => {
                                    if j4 <= j3 {
                                        None
                                    } else {
                                        let j5 = spec_skip_ws(s, j4);
                                        if j5 < j4 {
                                            None
                                        } else if j5 < s.len() && s[j5] == ',' {
                                            let j6 = spec_skip_ws(s, j5 + 1);
                                            if j6 <= i || j6 > s.len() {
                                                None
                                            } else {
                                                spec_skip_members(s, j6)
                                            }
                                        } else if j5 < s.len() && s[j5] == '}' {
                                            Some(j5 + 1)
                                        } else {
                                            None
                                        }
                                    }
                                },
                            }
                        }
                    }
                }
            },
        }
    }
}

/// Advances past whitespace.
pub(crate) fn skip_ws(v: &Vec<char>, i: usize) -> (r: usize)
    requires
        i <= v@.len(),
    ensures
        r as int == spec_skip_ws(v@, i as int),
        i <= r <= v@.len(),
{
    let n = v.len();
    let mut p = i;
    while p < n && (v[p] == ' ' || v[p] == '\n' || v[p] == '\t' || v[p] == '\r')
        invariant
            n == v@.len(),
            i <= p <= n,
            spec_skip_ws(v@, i as int) == spec_skip_ws(v@, p as int),
        decreases n - p,
    {
        p = p + 1;
    }
    p
}

/// Advances past a number token.
pub(crate) fn num_end(v: &Vec<char>, i: usize) -> (r: usize)
    requires
        i <= v@.len(),
    ensures
        r as int == spec_num_end(v@, i as int),
        i <= r <= v@.len(),
{
    let n = v.len();
    let mut p = i;
    while p < n && (digit_or_num_char(v[p]))
        invariant
            n == v@.len(),
            i <= p <= n,
            spec_num_end(v@, i as int) == spec_num_end(v@, p as int),
        decreases n - p,
    {
        p = p + 1;
    }
    p
}

/// Tests membership in the number-token character class.
fn digit_or_num_char(c: char) -> (b: bool)
    ensures
        b == is_num_char(c),
{
    let u = c as u32;
    (48 <= u && u <= 57) || c == '-' || c == '+' || c == '.' || c == 'e' || c == 'E'
}

/// Numeric value of one hexadecimal digit, or -1.
fn hex_val_of(c: char) -> (r: i32)
    ensures
        r as int == hex_val(c),
{
    let u = c as u32;
    if 48 <= u && u <= 57 {
        (u - 48) as i32
    } else if 97 <= u && u <= 102 {
        (u - 87) as i32
    } else if 65 <= u && u <= 70 {
        (u - 55) as i32
    } else {
        -1
    }
}

/// Relies on `char::from_u32`: for a value in the Unicode scalar range it
/// returns the character with that code point.
#[verifier::external_body]
fn char_of_code(code: u32) -> (c: char)
    requires
        valid_code(code as int),
    ensures
        c == (code as int) as char,
{
    char::from_u32(code).unwrap()
}

/// Parses a string literal whose opening quote stands at `i`, returning
/// the decoded text and the position past the closing quote.
#[verifier::rlimit(60)]
pub(crate) fn parse_string(v: &Vec<char>, i: usize) -> (r: Option<(String, usize)>)
    requires
        i <= v@.len(),
    ensures
        match r {
            Some((t, j)) => spec_parse_string(v@, i as int) == Some((t@, j as int)) && i < j
                <= v@.len(),
            None => spec_parse_string(v@, i as int) is None,
        },
{
    let ghost s = v@;
    let n = v.len();
    if i >= n || v[i] != '"' {
        return None;
    }
    let mut acc: Vec<char> = Vec::new();
    let mut p: usize = i + 1;
    while p < n
        invariant
            s == v@,
            n == s.len(),
            i < n,
            s[i as int] == '"',
            i + 1 <= p <= n,
            spec_string_body(s, i + 1) == (match spec_string_body(s, p as int) {
                None => None::<(Seq<char>, int)>,
                Some((t, j)) => Some((acc@ + t, j)),
            }),
        decreases n - p,
    {
        let c = v[p];
        if c == '"' {
            proof {
                assert(spec_string_body(s, p as int) == Some((Seq::<char>::empty(), p + 1)));
                assert(acc@ + Seq::<char>::empty() =~= acc@);
            }
            return Some((chars_to_string(&acc), p + 1));
        } else if c == '\\' {
            if p + 1 >= n {
                // the body ends inside an escape: malformed
                proof {
                    assert(spec_string_body(s, p as int) is None);
                }
                return None;
            }
            let e = v[p + 1];
            let dec: char;
            let step: usize;
            if e == '"' || e == '\\' || e == '/' {
                dec = e;
                step = 2;
            } else if e == 'n' {
                dec = '\n';
                step = 2;
            } else if e == 't' {
                dec = '\t';
                step = 2;
            } else if e == 'r' {
                dec = '\r';
                step = 2;
            } else if e == 'b' {
                dec = '\u{8}';
                step = 2;
            } else if e == 'f' {
                dec = '\u{c}';
                step = 2;
            } else if e == 'u' {
                if n - p < 6 {
                    proof {
                        assert(spec_string_body(s, p as int) is None);
                    }
                    return None;
                }
                let d0 = hex_val_of(v[p + 2]);
                let d1 = hex_val_of(v[p + 3]);
                let d2 = hex_val_of(v[p + 4]);
                let d3 = hex_val_of(v[p + 5]);
                if d0 < 0 || d1 < 0 || d2 < 0 || d3 < 0 {
                    proof {
                        assert(spec_hex4(s, p + 2) == -1);
                        assert(spec_string_body(s, p as int) is None);
                    }
                    return None;
                }
                let code: u32 = (d0 as u32) * 4096 + (d1 as u32) * 256 + (d2 as u32) * 16 + (
                d3 as u32);
                proof {
                    assert(code as int == spec_hex4(s, p + 2));
                }
                if code < 0xD800 || 0xE000 <= code {
                    dec = char_of_code(code);
                    step = 6;
                } else {
                    proof {
                        assert(!valid_code(spec_hex4(s, p + 2)));
                        assert(spec_string_body(s, p as int) is None);
                    }
                    return None;
                }
            } else {
                proof {
                    assert(spec_string_body(s, p as int) is None);
                }
                return None;
            }
            proof {
                assert(spec_string_body(s, p as int) == prepend(
                    dec,
                    spec_string_body(s, p + step),
                ));
                match spec_string_body(s, p + step) {
                    None => {},
                    Some((t, j)) => {
                        assert(acc@ + (seq![dec] + t) =~= acc@.push(dec) + t);
                    },
                }
            }
            acc.push(dec);
            p = p + step;
        } else {
            proof {
                assert(spec_string_body(s, p as int) == prepend(c, spec_string_body(s, p + 1)));
                match spec_string_body(s, p + 1) {
                    None => {},
                    Some((t, j)) => {
                        assert(acc@ + (seq![c] + t) =~= acc@.push(c) + t);
                    },
                }
            }
            acc.push(c);
            p = p + 1;
        }
    }
    // the closing quote never came
    proof {
        assert(spec_string_body(s, p as int) is None);
    }
    None
}

/// Skips one JSON value starting at `i`, returning the position past it.
pub(crate) fn skip_value(v: &Vec<char>, i: usize) -> (r: Option<usize>)
    requires
        i <= v@.len(),
    ensures
        match r {
            Some(j) => spec_skip_value(v@, i as int) == Some(j as int) && i < j <= v@.len(),
            None => spec_skip_value(v@, i as int) is None,
        },
    decreases v@.len() - i, 0int,
{
    let n = v.len();
    if i >= n {
        return None;
    }
    let c = v[i];
    if c == '"' {
        match parse_string(v, i) {
            None => None,
            Some((_t, j)) => Some(j),
        }
    } else if c == '[' {
        let j = skip_ws(v, i + 1);
        if j < n && v[j] == ']' {
            Some(j + 1)
        } else {
            skip_elements(v, j)
        }
    } else if c == '{' {
        let j = skip_ws(v, i + 1);
        if j < n && v[j] == '}' {
            Some(j + 1)
        } else {
            skip_members(v, j)
        }
    } else if c == 't' {
        if n - i >= 4 && v[i + 1] == 'r' && v[i + 2] == 'u' && v[i + 3] == 'e' {
            Some(i + 4)
        } else {
            None
        }
    } else if c == 'f' {
        if n - i >= 5 && v[i + 1] == 'a' && v[i + 2] == 'l' && v[i + 3] == 's' && v[i + 4] == 'e' {
            Some(i + 5)
        } else {
            None
        }
    } else if c == 'n' {
        if n - i >= 4 && v[i + 1] == 'u' && v[i + 2] == 'l' && v[i + 3] == 'l' {
            Some(i + 4)
        } else {
            None
        }
    } else {
        let is_num_start = c == '-' || {
            let u = c as u32;
            48 <= u && u <= 57
        };
        if is_num_start {
            let e = num_end(v, i + 1);
            proof {
                assert(is_num_char(v@[i as int]));
                assert(spec_num_end(v@, i as int) == spec_num_end(v@, i + 1));
            }
            Some(e)
        } else {
            None
        }
    }
}

/// Skips array elements from the first element up to and past `]`.
pub(crate) fn skip_elements(v: &Vec<char>, i: usize) -> (r: Option<usize>)
    requires
        i <= v@.len(),
    ensures
        match r {
            Some(j) => spec_skip_elements(v@, i as int) == Some(j as int) && i < j <= v@.len(),
            None => spec_skip_elements(v@, i as int) is None,
        },
    decreases v@.len() - i, 1int,
{
    let n = v.len();
    match skip_value(v, i) {
        None => None,
        Some(j) => {
            let j2 = skip_ws(v, j);
            if j2 < n && v[j2] == ',' {
                let j3 = skip_ws(v, j2 + 1);
                skip_elements(v, j3)
            } else if j2 < n && v[j2] == ']' {
                Some(j2 + 1)
            } else {
                None
            }
        },
    }
}

/// Skips object members from the first key up to and past `}`.
pub(crate) fn skip_members(v: &Vec<char>, i: usize) -> (r: Option<usize>)
    requires
        i <= v@.len(),
    ensures
        match r {
            Some(j) => spec_skip_members(v@, i as int) == Some(j as int) && i < j <= v@.len(),
            None => spec_skip_members(v@, i as int) is None,
        },
    decreases v@.len() - i, 1int,
{
    let n = v.len();
    match parse_string(v, i) {
        None => None,
        Some((_k, j)) => {
            let j2 = skip_ws(v, j);
            if j2 >= n || v[j2] != ':' {
                None
            } else {
                let j3 = skip_ws(v, j2 + 1);
                match skip_value(v, j3) {
                    None => None,
                    Some(j4) => {
                        let j5 = skip_ws(v, j4);
                        if j5 < n && v[j5] == ',' {
                            let j6 = skip_ws(v, j5 + 1);
                            skip_members(v, j6)
                        } else if j5 < n && v[j5] == '}' {
                            Some(j5 + 1)
                        } else {
                            None
                        }
                    },
                }
            }
        },
    }
}

} // verus!
