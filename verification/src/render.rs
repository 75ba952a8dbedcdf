//! Output rendering: each input line, newlines stripped and padded to the
//! width of the longest line, followed by a tab and the pretty form of its
//! resolved ticket — or an empty annotation when the line has no id or
//! the id was not resolved.

use vstd::prelude::*;

use crate::extract::{spec_first_match, match_at, match_span};
use crate::models::{Line, TicketModel, spec_pretty, spaces};
use crate::pipeline::{TicketMap, str_views};
use crate::text::{push_str_chars, chars_to_string, str_to_chars};
use vstd::string::*;

verus! {

/// The line with every newline character removed.
pub open spec fn spec_strip(s: Seq<char>) -> Seq<char>
    decreases s.len(),
{
    if s.len() == 0 {
        Seq::empty()
    } else if s[0] == '\n' {
        spec_strip(s.drop_first())
    } else {
        seq![s[0]] + spec_strip(s.drop_first())
    }
}

/// Stripping distributes over concatenation.
pub proof fn lemma_strip_append(a: Seq<char>, b: Seq<char>)
    ensures
        spec_strip(a + b) == spec_strip(a) + spec_strip(b),
    decreases a.len(),
{
    if a.len() == 0 {
        assert(a + b =~= b);
        assert(spec_strip(a) + spec_strip(b) =~= spec_strip(b));
    } else {
        lemma_strip_append(a.drop_first(), b);
        assert((a + b).drop_first() =~= a.drop_first() + b);
        assert(spec_strip(a + b) =~= spec_strip(a) + spec_strip(b));
    }
}

/// The text padded with spaces to the given width; longer text is kept
/// whole.
pub open spec fn spec_pad(s: Seq<char>, w: int) -> Seq<char> {
    if s.len() >= w {
        s
    } else {
        s + spaces((w - s.len()) as nat)
    }
}

/// The width of the longest line, or ten when there are none.
pub open spec fn spec_max_width(lines: Seq<Seq<char>>) -> int
    decreases lines.len(),
{
    if lines.len() == 0 {
        10
    } else if lines.len() == 1 {
        lines[0].len() as int
    } else {
        let rest = spec_max_width(lines.drop_first());
        if lines[0].len() >= rest {
            lines[0].len() as int
        } else {
            rest
        }
    }
}

/// The line holds a whole-word ticket identifier somewhere.
pub open spec fn has_match(line: Seq<char>) -> bool {
    exists|i: int| 0 <= i < line.len() && match_at(line, i)
}

/// The annotation belonging to a line: the pretty form of the resolved
/// ticket of its first identifier, and empty when the line has no
/// identifier or the mapping does not hold it.
pub open spec fn ann_ok(line: Seq<char>, m: Map<Seq<char>, TicketModel>, ann: Seq<char>) -> bool {
    if has_match(line) {
        exists|t: Seq<char>|
            #![trigger spec_first_match(line, t)]
            spec_first_match(line, t) && ann == (if m.dom().contains(t) {
                spec_pretty(m[t])
            } else {
                Seq::<char>::empty()
            })
    } else {
        ann == Seq::<char>::empty()
    }
}

/// One rendered output line: the stripped input padded to the common
/// width, a tab, and the annotation.
pub open spec fn rendered_ok(
    line: Seq<char>,
    w: int,
    m: Map<Seq<char>, TicketModel>,
    out: Seq<char>,
) -> bool {
    exists|ann: Seq<char>|
        #![trigger ann_ok(line, m, ann)]
        ann_ok(line, m, ann) && out == spec_pad(spec_strip(line), w) + seq!['\t'] + ann
}

/// Renders every input line beside its resolved ticket, in input order.
pub fn process_lines(lines: &Vec<String>, tickets: &TicketMap) -> (r: Vec<String>)
    requires
        tickets.wf(),
    ensures
        r@.len() == lines@.len(),
        forall|i: int|
            0 <= i < lines@.len() ==> rendered_ok(
                lines@[i]@,
                spec_max_width(str_views(lines@)),
                tickets@,
                r@[i]@,
            ),
{
    let ghost ls = str_views(lines@);
    let n = lines.len();
    // the width of the longest raw line
    let mut w: usize = 10;
    if n > 0 {
        let mut i: usize = n - 1;
        w = lines[i].as_str().unicode_len();
        proof {
            assert(ls.subrange(i as int, n as int).len() == 1);
            assert(ls.subrange(i as int, n as int)[0] == ls[i as int]);
            assert(w as int == spec_max_width(ls.subrange(i as int, n as int)));
        }
        while i > 0
            invariant
                n == lines@.len(),
                ls == str_views(lines@),
                i < n,
                w as int == spec_max_width(ls.subrange(i as int, n as int)),
            decreases i,
        {
            i = i - 1;
            let li = lines[i].as_str().unicode_len();
            let ghost tail = ls.subrange(i as int, n as int);
            proof {
                assert(tail[0] == ls[i as int]);
                assert(tail.drop_first() =~= ls.subrange(i + 1, n as int));
                assert(tail.len() >= 2);
            }
            if li >= w {
                w = li;
            }
            proof {
                assert(w as int == spec_max_width(ls.subrange(i as int, n as int)));
            }
        }
        proof {
            assert(ls.subrange(0, n as int) =~= ls);
        }
    }
    proof {
        if n == 0 {
            assert(ls.len() == 0);
            assert(w as int == spec_max_width(ls));
        }
    }
    let ghost width = spec_max_width(ls);
    let mut r: Vec<String> = Vec::new();
    let mut i: usize = 0;
    while i < n
        invariant
            tickets.wf(),
            n == lines@.len(),
            ls == str_views(lines@),
            w as int == width,
            width == spec_max_width(ls),
            i <= n,
            r@.len() == i,
            forall|k: int| 0 <= k < i ==> rendered_ok(lines@[k]@, width, tickets@, r@[k]@),
        decreases n - i,
    {
        let line = &lines[i];
        let ghost lv = line@;
        let parsed = Line::new(line);
        let ann: String = match parsed.ticket {
            Some(id) => {
                proof {
                    let (mi, mk, mj) = choose|mi: int, mk: int, mj: int|
                        match_span(lv, mi, mk, mj) && id@ == lv.subrange(mi, mj) && (forall|
                            i2: int,
                        | 0 <= i2 < mi ==> crate::extract::no_match_at(lv, i2));
                    assert(match_at(lv, mi));
                    assert(0 <= mi < lv.len());
                    assert(has_match(lv));
                }
                match tickets.get(id.as_str()) {
                    Some(t) => {
                        let p = t.as_pretty_string();
                        proof {
                            assert(ann_ok(lv, tickets@, p@));
                        }
                        p
                    },
                    None => {
                        let p = String::new();
                        proof {
                            assert(ann_ok(lv, tickets@, p@));
                        }
                        p
                    },
                }
            },
            None => {
                let p = String::new();
                proof {
                    if has_match(lv) {
                        let mi = choose|mi: int| 0 <= mi < lv.len() && match_at(lv, mi);
                        assert(crate::extract::no_match_at(lv, mi));
                        assert(false);
                    }
                    assert(ann_ok(lv, tickets@, p@));
                }
                p
            },
        };
        let ghost annv = ann@;
        // strip newlines
        let chars = str_to_chars(line.as_str());
        let m = chars.len();
        let mut out: Vec<char> = Vec::new();
        let mut k: usize = 0;
        proof {
            assert(lv.subrange(0, 0) =~= Seq::<char>::empty());
            assert(out@ =~= spec_strip(lv.subrange(0, 0)));
        }
        while k < m
            invariant
                chars@ == lv,
                m == lv.len(),
                k <= m,
                out@ == spec_strip(lv.subrange(0, k as int)),
            decreases m - k,
        {
            let c = chars[k];
            let ghost pre = lv.subrange(0, k as int);
            if c != '\n' {
                out.push(c);
            }
            proof {
                lemma_strip_append(pre, seq![c]);
                assert(seq![c].drop_first() =~= Seq::<char>::empty());
                assert(spec_strip(Seq::<char>::empty()) == Seq::<char>::empty());
                assert(spec_strip(seq![c]) =~= (if c == '\n' {
                    Seq::<char>::empty()
                } else {
                    seq![c]
                }));
                assert(lv.subrange(0, k + 1) =~= pre + seq![c]);
                assert(out@ =~= spec_strip(lv.subrange(0, k + 1)));
            }
            k = k + 1;
        }
        proof {
            assert(lv.subrange(0, m as int) =~= lv);
        }
        let ghost stripped = spec_strip(lv);
        // pad to the common width
        let mut padded: usize = out.len();
        let ghost base = padded as int;
        proof {
            assert(out@ =~= stripped + spaces(0));
        }
        while padded < w
            invariant
                w as int == width,
                base <= padded,
                out@ == stripped + spaces((padded - base) as nat),
                base == stripped.len(),
                padded == out@.len(),
                base >= w ==> padded == base,
                base < w ==> padded <= w,
            decreases w - padded,
        {
            out.push(' ');
            padded = padded + 1;
            proof {
                assert(out@ =~= stripped + spaces((padded - base) as nat));
            }
        }
        proof {
            if stripped.len() >= width {
                assert(out@ =~= spec_pad(stripped, width));
            } else {
                assert(padded as int == width);
                assert(out@ =~= spec_pad(stripped, width));
            }
        }
        out.push('\t');
        push_str_chars(&mut out, ann.as_str());
        proof {
            assert(out@ =~= spec_pad(stripped, width) + seq!['\t'] + annv);
        }
        let rendered = chars_to_string(&out);
        r.push(rendered);
        proof {
            assert(rendered_ok(lines@[i as int]@, width, tickets@, r@[i as int]@));
        }
        i = i + 1;
    }
    r
}

} // verus!
