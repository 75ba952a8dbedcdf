//! Identifier extraction: finds the first whole-word ticket identifier
//! (one or more uppercase letters, a hyphen, one or more digits) in a line.

use vstd::prelude::*;
use vstd::string::*;

use crate::text::{is_upper, is_digit, is_word_char, upper_char, digit_char, word_char, str_to_chars};

verus! {

/// The characters of `s` from `i` (inclusive) to `j` (exclusive) form a
/// whole-word ticket identifier whose hyphen stands at `k`: uppercase
/// letters on `[i, k)`, a hyphen at `k`, digits on `(k, j)`, and no word
/// character immediately before `i` or at `j`.
pub open spec fn match_span(s: Seq<char>, i: int, k: int, j: int) -> bool {
    &&& 0 <= i < k
    &&& k + 1 < j <= s.len()
    &&& (forall|m: int| i <= m < k ==> is_upper(s[m]))
    &&& s[k] == '-'
    &&& (forall|m: int| k < m < j ==> is_digit(s[m]))
    &&& (i == 0 || !is_word_char(s[i - 1]))
    &&& (j == s.len() || !is_word_char(s[j]))
}

/// A whole-word ticket identifier starts at position `i` of `s`.
pub open spec fn match_at(s: Seq<char>, i: int) -> bool {
    exists|k: int, j: int| match_span(s, i, k, j)
}

/// No whole-word ticket identifier starts at position `i` of `s`.
pub open spec fn no_match_at(s: Seq<char>, i: int) -> bool {
    !match_at(s, i)
}

/// `t` is the leftmost whole-word ticket identifier in `s`: it spans some
/// match, and no match starts earlier.
pub open spec fn spec_first_match(s: Seq<char>, t: Seq<char>) -> bool {
    exists|i: int, k: int, j: int|
        #![trigger match_span(s, i, k, j)]
        {
            &&& match_span(s, i, k, j)
            &&& t == s.subrange(i, j)
            &&& (forall|i2: int| 0 <= i2 < i ==> no_match_at(s, i2))
        }
}

/// The leftmost whole-word ticket identifier of a line is unique: any
/// two texts that both satisfy the first-match relation are the same, so
/// the extraction contract pins its result down.
pub proof fn lemma_first_match_unique(s: Seq<char>, t1: Seq<char>, t2: Seq<char>)
    requires
        spec_first_match(s, t1),
        spec_first_match(s, t2),
    ensures
        t1 == t2,
{
    let (i1, k1, j1) = choose|i: int, k: int, j: int|
        #![trigger match_span(s, i, k, j)]
        match_span(s, i, k, j) && t1 == s.subrange(i, j) && (forall|i2: int|
            0 <= i2 < i ==> no_match_at(s, i2));
    let (i2, k2, j2) = choose|i: int, k: int, j: int|
        #![trigger match_span(s, i, k, j)]
        match_span(s, i, k, j) && t2 == s.subrange(i, j) && (forall|i2: int|
            0 <= i2 < i ==> no_match_at(s, i2));
    // the starts coincide: each excludes a match before the other
    assert(match_at(s, i1));
    assert(match_at(s, i2));
    if i1 < i2 {
        assert(no_match_at(s, i1));
        assert(false);
    }
    if i2 < i1 {
        assert(no_match_at(s, i2));
        assert(false);
    }
    // the hyphen position coincides: the shorter uppercase run would put
    // an uppercase letter where the other has its hyphen
    if k1 < k2 {
        assert(is_upper(s[k1]));
        assert(false);
    }
    if k2 < k1 {
        assert(is_upper(s[k2]));
        assert(false);
    }
    // the end coincides: a digit run cannot stop before a digit, and the
    // boundary forbids a word character at the end
    if j1 < j2 {
        assert(is_digit(s[j1]));
        assert(is_word_char(s[j1]));
        assert(false);
    }
    if j2 < j1 {
        assert(is_digit(s[j2]));
        assert(is_word_char(s[j2]));
        assert(false);
    }
}

/// Returns the first whole-word ticket identifier of `line`, or `None`
/// when the line holds none.
pub fn extract_ticket_id(line: &str) -> (r: Option<String>)
    ensures
        match r {
            Some(t) => spec_first_match(line@, t@),
            None => forall|i: int| 0 <= i < line@.len() ==> no_match_at(line@, i),
        },
{
    let ghost s = line@;
    let v = str_to_chars(line);
    let n = v.len();
    let mut i: usize = 0;
    while i < n
        invariant
            s == line@,
            v@ == s,
            n == s.len(),
            i <= n,
            forall|i2: int| 0 <= i2 < i ==> no_match_at(s, i2),
        decreases n - i,
    {
        let ghost ii = i as int;
        let boundary_ok = i == 0 || !word_char(v[i - 1]);
        if boundary_ok && upper_char(v[i]) {
            // scan the uppercase run
            let mut k: usize = i + 1;
            while k < n && upper_char(v[k])
                invariant
                    v@ == s,
                    n == s.len(),
                    ii < k <= n,
                    forall|m: int| ii <= m < k ==> is_upper(s[m]),
                decreases n - k,
            {
                k = k + 1;
            }
            if k < n && v[k] == '-' && k + 1 < n && digit_char(v[k + 1]) {
                let ghost kk = k as int;
                // scan the digit run
                let mut j: usize = k + 2;
                while j < n && digit_char(v[j])
                    invariant
                        v@ == s,
                        n == s.len(),
                        kk + 1 < j <= n,
                        forall|m: int| kk < m < j ==> is_digit(s[m]),
                    decreases n - j,
                {
                    j = j + 1;
                }
                if j == n || !word_char(v[j]) {
                    proof {
                        assert(match_span(s, ii, kk, j as int));
                        assert(s.subrange(ii, j as int) == line@.subrange(ii, j as int));
                    }
                    let found = line.substring_char(i, j);
                    return Some(String::from_str(found));
                } else {
                    proof {
                        assert forall|k2: int, j2: int| !match_span(s, ii, k2, j2) by {
                            if match_span(s, ii, k2, j2) {
                                if k2 < kk {
                                    assert(is_upper(s[k2]));
                                    assert(false);
                                } else if k2 > kk {
                                    assert(is_upper(s[kk]));
                                    assert(false);
                                } else {
                                    // the digit run is forced, and the end
                                    // boundary fails at its end
                                    assert(j2 <= j as int || !is_digit(s[j as int]));
                                    if j2 < j as int {
                                        assert(is_digit(s[j2]));
                                        assert(is_word_char(s[j2]));
                                        assert(false);
                                    } else if j2 == j as int {
                                        assert(is_word_char(s[j2]));
                                        assert(false);
                                    } else {
                                        assert(is_digit(s[j as int]));
                                        assert(false);
                                    }
                                }
                            }
                        }
                        assert(no_match_at(s, ii));
                    }
                }
            } else {
                proof {
                    let kk = k as int;
                    assert forall|k2: int, j2: int| !match_span(s, ii, k2, j2) by {
                        if match_span(s, ii, k2, j2) {
                            if k2 < kk {
                                assert(is_upper(s[k2]));
                                assert(false);
                            } else if k2 > kk {
                                assert(k < n && !is_upper(s[kk]) || k == n);
                                assert(is_upper(s[kk]));
                                assert(false);
                            } else {
                                // k2 == kk: the hyphen or the first digit
                                // is missing there
                                assert(s[kk] == '-');
                                assert(k < n);
                                assert(kk + 1 < j2 <= n);
                                assert(is_digit(s[kk + 1]));
                                assert(false);
                            }
                        }
                    }
                    assert(no_match_at(s, ii));
                }
            }
        } else {
            proof {
                assert forall|k2: int, j2: int| !match_span(s, ii, k2, j2) by {
                    if match_span(s, ii, k2, j2) {
                        assert(is_upper(s[ii]));
                        assert(false);
                    }
                }
                assert(no_match_at(s, ii));
            }
        }
        i = i + 1;
    }
    None
}

} // verus!
