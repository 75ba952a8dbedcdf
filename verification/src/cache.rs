//! The persistence codec: tickets are saved as a flat JSON array of
//! objects with the four string fields `id`, `title`, `assignee` and
//! `status`, and loaded back. A file that does not have that shape is
//! cache corruption, surfaced as an error and never patched around.

use vstd::prelude::*;

use crate::jsontext::{
    spec_skip_ws, spec_parse_string, spec_string_body, spec_skip_value, prepend, is_ws, skip_ws,
    parse_string, skip_value,
};
use crate::models::{Ticket, TicketModel};
use crate::remote::{view_opt, ticket_models};
use crate::text::{str_to_chars, string_eq_lit, push_str_chars, chars_to_string};

verus! {

/// The persistence file exists but does not hold a well-formed ticket
/// array.
#[derive(Debug, PartialEq, Eq, Structural)]
pub enum CacheError {
    Corruption,
}

/// String-body escaping for the persisted JSON: quote and backslash get a
/// backslash; every other character stands for itself.
pub open spec fn esc(s: Seq<char>) -> Seq<char>
    decreases s.len(),
{
    if s.len() == 0 {
        Seq::empty()
    } else {
        let c = s[0];
        let head: Seq<char> = if c == '"' {
            seq!['\\', '"']
        } else if c == '\\' {
            seq!['\\', '\\']
        } else {
            seq![c]
        };
        head + esc(s.drop_first())
    }
}

/// One encoded string literal.
pub open spec fn spec_enc_str(s: Seq<char>) -> Seq<char> {
    seq!['"'] + esc(s) + seq!['"']
}

/// One encoded object member: key, colon, value.
pub open spec fn spec_enc_member(k: Seq<char>, v: Seq<char>) -> Seq<char> {
    spec_enc_str(k) + seq![':'] + spec_enc_str(v)
}

/// Encoded members joined with commas, up to and past the closing brace.
pub open spec fn spec_enc_members(ps: Seq<(Seq<char>, Seq<char>)>) -> Seq<char>
    decreases ps.len(),
{
    if ps.len() == 0 {
        seq!['}']
    } else if ps.len() == 1 {
        spec_enc_member(ps[0].0, ps[0].1) + seq!['}']
    } else {
        spec_enc_member(ps[0].0, ps[0].1) + seq![','] + spec_enc_members(ps.drop_first())
    }
}

/// The key/value pairs of one persisted ticket, in the order written.
pub open spec fn ticket_pairs(t: TicketModel) -> Seq<(Seq<char>, Seq<char>)> {
    seq![("id"@, t.id), ("title"@, t.title), ("assignee"@, t.assignee), ("status"@, t.status)]
}

/// One encoded ticket object, fields in fixed order.
pub open spec fn spec_enc_ticket(t: TicketModel) -> Seq<char> {
    seq!['{'] + spec_enc_members(ticket_pairs(t))
}

/// The encoded ticket objects joined with commas.
pub open spec fn spec_enc_entries(ts: Seq<TicketModel>) -> Seq<char>
    decreases ts.len(),
{
    if ts.len() == 0 {
        Seq::empty()
    } else if ts.len() == 1 {
        spec_enc_ticket(ts[0])
    } else {
        spec_enc_ticket(ts[0]) + seq![','] + spec_enc_entries(ts.drop_first())
    }
}

/// The whole encoded persistence file.
pub open spec fn spec_enc_cache(ts: Seq<TicketModel>) -> Seq<char> {
    seq!['['] + spec_enc_entries(ts) + seq![']']
}

/// Escaping distributes over concatenation.
pub proof fn lemma_esc_append(a: Seq<char>, b: Seq<char>)
    ensures
        esc(a + b) == esc(a) + esc(b),
    decreases a.len(),
{
    if a.len() == 0 {
        assert(a + b =~= b);
        assert(esc(a) + esc(b) =~= esc(b));
    } else {
        lemma_esc_append(a.drop_first(), b);
        assert((a + b).drop_first() =~= a.drop_first() + b);
        assert(esc(a + b) =~= esc(a) + esc(b));
    }
}

/// Appends the escaped body of a string.
fn push_esc(out: &mut Vec<char>, s: &str)
    ensures
        final(out)@ == old(out)@ + esc(s@),
{
    let n = s.unicode_len();
    let mut i: usize = 0;
    while i < n
        invariant
            n == s@.len(),
            i <= n,
            out@ == old(out)@ + esc(s@.subrange(0, i as int)),
        decreases n - i,
    {
        let c = s.get_char(i);
        let ghost pre = s@.subrange(0, i as int);
        if c == '"' {
            out.push('\\');
            out.push('"');
        } else if c == '\\' {
            out.push('\\');
            out.push('\\');
        } else {
            out.push(c);
        }
        proof {
            lemma_esc_append(pre, seq![c]);
            assert(seq![c].drop_first() =~= Seq::<char>::empty());
            assert(esc(Seq::<char>::empty()) =~= Seq::<char>::empty());
            assert(esc(seq![c]) =~= (if c == '"' {
                seq!['\\', '"']
            } else if c == '\\' {
                seq!['\\', '\\']
            } else {
                seq![c]
            }));
            assert(s@.subrange(0, i + 1) =~= pre + seq![c]);
            assert(out@ =~= old(out)@ + esc(s@.subrange(0, i + 1)));
        }
        i = i + 1;
    }
    proof {
        assert(s@.subrange(0, n as int) =~= s@);
    }
}

/// Appends one encoded string literal.
fn push_enc_str(out: &mut Vec<char>, s: &str)
    ensures
        final(out)@ == old(out)@ + spec_enc_str(s@),
{
    out.push('"');
    push_esc(out, s);
    out.push('"');
    proof {
        assert(out@ =~= old(out)@ + spec_enc_str(s@));
    }
}

/// Appends one encoded ticket object.
#[verifier::rlimit(100)]
fn push_enc_ticket(out: &mut Vec<char>, t: &Ticket)
    ensures
        final(out)@ == old(out)@ + spec_enc_ticket(t@),
{
    out.push('{');
    push_enc_str(out, "id");
    out.push(':');
    push_enc_str(out, t.id.as_str());
    out.push(',');
    push_enc_str(out, "title");
    out.push(':');
    push_enc_str(out, t.title.as_str());
    out.push(',');
    push_enc_str(out, "assignee");
    out.push(':');
    push_enc_str(out, t.assignee.as_str());
    out.push(',');
    push_enc_str(out, "status");
    out.push(':');
    push_enc_str(out, t.status.as_str());
    out.push('}');
    proof {
        let ps = ticket_pairs(t@);
        assert(ps.drop_first() =~= seq![("title"@, t@.title), ("assignee"@, t@.assignee), ("status"@, t@.status)]);
        assert(ps.drop_first().drop_first() =~= seq![("assignee"@, t@.assignee), ("status"@, t@.status)]);
        assert(ps.drop_first().drop_first().drop_first() =~= seq![("status"@, t@.status)]);
        assert(spec_enc_members(ps.drop_first().drop_first().drop_first())
            == spec_enc_member("status"@, t@.status) + seq!['}']);
        assert(spec_enc_members(ps.drop_first().drop_first()) == spec_enc_member(
            "assignee"@,
            t@.assignee,
        ) + seq![','] + spec_enc_members(ps.drop_first().drop_first().drop_first()));
        assert(spec_enc_members(ps.drop_first()) == spec_enc_member("title"@, t@.title)
            + seq![','] + spec_enc_members(ps.drop_first().drop_first()));
        assert(spec_enc_members(ps) == spec_enc_member("id"@, t@.id) + seq![',']
            + spec_enc_members(ps.drop_first()));
        assert(out@ =~= old(out)@ + spec_enc_ticket(t@));
    }
}

/// Joining one more entry onto a non-empty prefix appends a comma and the
/// entry.
proof fn lemma_entries_push(a: Seq<TicketModel>, x: TicketModel)
    requires
        a.len() >= 1,
    ensures
        spec_enc_entries(a.push(x)) == spec_enc_entries(a) + seq![','] + spec_enc_ticket(x),
    decreases a.len(),
{
    if a.len() == 1 {
        assert(a.push(x).drop_first() =~= seq![x]);
        assert(spec_enc_entries(seq![x]) == spec_enc_ticket(x));
        assert(spec_enc_entries(a.push(x)) =~= spec_enc_entries(a) + seq![','] + spec_enc_ticket(x));
    } else {
        lemma_entries_push(a.drop_first(), x);
        assert(a.push(x).drop_first() =~= a.drop_first().push(x));
        assert(spec_enc_entries(a.push(x)) =~= spec_enc_entries(a) + seq![','] + spec_enc_ticket(x));
    }
}

/// Serializes the given tickets as the persistence file's full contents.
pub fn encode_tickets(ts: &Vec<Ticket>) -> (r: String)
    ensures
        r@ == spec_enc_cache(ticket_models(ts@)),
{
    let mut out: Vec<char> = Vec::new();
    out.push('[');
    let n = ts.len();
    let mut i: usize = 0;
    proof {
        assert(ticket_models(ts@).subrange(0, 0) =~= Seq::<TicketModel>::empty());
        assert(out@ =~= seq!['['] + spec_enc_entries(ticket_models(ts@).subrange(0, 0)));
    }
    while i < n
        invariant
            n == ts@.len(),
            i <= n,
            out@ == seq!['['] + spec_enc_entries(ticket_models(ts@).subrange(0, i as int)),
        decreases n - i,
    {
        let ghost ms = ticket_models(ts@);
        let ghost pre = ms.subrange(0, i as int);
        if i > 0 {
            out.push(',');
            push_enc_ticket(&mut out, &ts[i]);
            proof {
                lemma_entries_push(pre, ms[i as int]);
                assert(ms.subrange(0, i + 1) =~= pre.push(ms[i as int]));
                assert(out@ =~= seq!['['] + spec_enc_entries(ms.subrange(0, i + 1)));
            }
        } else {
            push_enc_ticket(&mut out, &ts[i]);
            proof {
                assert(ms.subrange(0, 1) =~= seq![ms[0]]);
                assert(spec_enc_entries(seq![ms[0]]) == spec_enc_ticket(ms[0]));
                assert(out@ =~= seq!['['] + spec_enc_entries(ms.subrange(0, i + 1)));
            }
        }
        i = i + 1;
    }
    out.push(']');
    proof {
        assert(ticket_models(ts@).subrange(0, n as int) =~= ticket_models(ts@));
        assert(out@ =~= spec_enc_cache(ticket_models(ts@)));
    }
    chars_to_string(&out)
}

/// Walks the members of one persisted ticket object: the four string
/// fields, each required; unknown members are skipped.
pub open spec fn spec_ticket_members(
    s: Seq<char>,
    i: int,
    id: Option<Seq<char>>,
    title: Option<Seq<char>>,
    assignee: Option<Seq<char>>,
    status: Option<Seq<char>>,
) -> Option<(TicketModel, int)>
    decreases s.len() - i,
{
    match spec_parse_string(s, i) {
        None => None,
        Some((k, j)) => {
            if j <= i || j > s.len() {
                None
            } else {
                let j2 = spec_skip_ws(s, j);
                if j2 < j || j2 >= s.len() || s[j2] != ':' {
                    None
                } else {
                    let j3 = spec_skip_ws(s, j2 + 1);
                    if j3 <= j2 || j3 > s.len() {
                        None
                    } else {
                        let step: Option<
                            (
                                Option<Seq<char>>,
                                Option<Seq<char>>,
                                Option<Seq<char>>,
                                Option<Seq<char>>,
                                int,
                            ),
                        > = if k == "id"@ {
                            match spec_parse_string(s, j3) {
                                None => None,
                                Some((t, j4)) => Some((Some(t), title, assignee, status, j4)),
                            }
                        } else if k == "title"@ {
                            match spec_parse_string(s, j3) {
                                None => None,
                                Some((t, j4)) => Some((id, Some(t), assignee, status, j4)),
                            }
                        } else if k == "assignee"@ {
                            match spec_parse_string(s, j3) {
                                None => None,
                                Some((t, j4)) => Some((id, title, Some(t), status, j4)),
                            }
                        } else if k == "status"@ {
                            match spec_parse_string(s, j3) {
                                None => None,
                                Some((t, j4)) => Some((id, title, assignee, Some(t), j4)),
                            }
                        } else {
                            match spec_skip_value(s, j3) {
                                None => None,
                                Some(j4) => Some((id, title, assignee, status, j4)),
                            }
                        };
                        match step {
                            None => None,
                            Some((id2, title2, assignee2, status2, j4)) => {
                                if j4 <= j3 || j4 > s.len() {
                                    None
                                } else {
                                    let j5 = spec_skip_ws(s, j4);
                                    if j5 < j4 {
                                        None
                                    } else if j5 < s.len() && s[j5] == ',' {
                                        let j6 = spec_skip_ws(s, j5 + 1);
                                        if j6 <= i || j6 > s.len() {
                                            None
                                        } else {
                                            spec_ticket_members(s, j6, id2, title2, assignee2, status2)
                                        }
                                    } else if j5 < s.len() && s[j5] == '}' {
                                        match (id2, title2, assignee2, status2) {
                                            (Some(a), Some(b), Some(c), Some(d)) => Some(
                                                (
                                                    TicketModel {
                                                        id: a,
                                                        title: b,
                                                        assignee: c,
                                                        status: d,
                                                    },
                                                    j5 + 1,
                                                ),
                                            ),
                                            _ => None,
                                        }
                                    } else {
                                        None
                                    }
                                }
                            },
                        }
                    }
                }
            }
        },
    }
}

/// Walks the elements of the persisted array, each a ticket object.
pub open spec fn spec_cache_elements(s: Seq<char>, i: int, acc: Seq<TicketModel>) -> Option<
    (Seq<TicketModel>, int),
>
    decreases s.len() - i,
{
    if i < 0 || i >= s.len() || s[i] != '{' {
        None
    } else {
        let j = spec_skip_ws(s, i + 1);
        if j <= i || j > s.len() {
            None
        } else if j < s.len() && s[j] == '}' {
            // a ticket without its fields
            None
        } else {
            match spec_ticket_members(s, j, None, None, None, None) {
                None => None,
                Some((t, j4)) => {
                    if j4 <= j || j4 > s.len() {
                        None
                    } else {
                        let j5 = spec_skip_ws(s, j4);
                        if j5 < j4 {
                            None
                        } else if j5 < s.len() && s[j5] == ',' {
                            let j6 = spec_skip_ws(s, j5 + 1);
                            if j6 <= i || j6 > s.len() {
                                None
                            } else {
                                spec_cache_elements(s, j6, acc.push(t))
                            }
                        } else if j5 < s.len() && s[j5] == ']' {
                            Some((acc.push(t), j5 + 1))
                        } else {
                            None
                        }
                    }
                },
            }
        }
    }
}

/// Parses a whole persistence file: a JSON array of ticket objects with
/// nothing but whitespace around it.
pub open spec fn spec_dec_cache(s: Seq<char>) -> Option<Seq<TicketModel>> {
    let i = spec_skip_ws(s, 0);
    if 0 <= i < s.len() && s[i] == '[' {
        let j = spec_skip_ws(s, i + 1);
        if j <= i || j > s.len() {
            None
        } else if j < s.len() && s[j] == ']' {
            if spec_skip_ws(s, j + 1) == s.len() {
                Some(Seq::empty())
            } else {
                None
            }
        } else {
            match spec_cache_elements(s, j, Seq::empty()) {
                None => None,
                Some((ts, end)) => {
                    if spec_skip_ws(s, end) == s.len() {
                        Some(ts)
                    } else {
                        None
                    }
                },
            }
        }
    } else {
        None
    }
}

/// Executable walk matching `spec_ticket_members`.
#[verifier::rlimit(100)]
fn ticket_members(
    v: &Vec<char>,
    i: usize,
    id: Option<String>,
    title: Option<String>,
    assignee: Option<String>,
    status: Option<String>,
) -> (r: Option<(Ticket, usize)>)
    requires
        i <= v@.len(),
    ensures
        match r {
            Some((t, j)) => spec_ticket_members(
                v@,
                i as int,
                view_opt(id),
                view_opt(title),
                view_opt(assignee),
                view_opt(status),
            ) == Some((t@, j as int)) && i < j <= v@.len(),
            None => spec_ticket_members(
                v@,
                i as int,
                view_opt(id),
                view_opt(title),
                view_opt(assignee),
                view_opt(status),
            ) is None,
        },
    decreases v@.len() - i,
{
    let n = v.len();
    match parse_string(v, i) {
        None => None,
        Some((k, j)) => {
            let j2 = skip_ws(v, j);
            if j2 >= n || v[j2] != ':' {
                None
            } else {
                let j3 = skip_ws(v, j2 + 1);
                let step: Option<
                    (Option<String>, Option<String>, Option<String>, Option<String>, usize),
                > = if string_eq_lit(&k, "id") {
                    match parse_string(v, j3) {
                        None => None,
                        Some((t, j4)) => Some((Some(t), title, assignee, status, j4)),
                    }
                } else if string_eq_lit(&k, "title") {
                    match parse_string(v, j3) {
                        None => None,
                        Some((t, j4)) => Some((id, Some(t), assignee, status, j4)),
                    }
                } else if string_eq_lit(&k, "assignee") {
                    match parse_string(v, j3) {
                        None => None,
                        Some((t, j4)) => Some((id, title, Some(t), status, j4)),
                    }
                } else if string_eq_lit(&k, "status") {
                    match parse_string(v, j3) {
                        None => None,
                        Some((t, j4)) => Some((id, title, assignee, Some(t), j4)),
                    }
                } else {
                    match skip_value(v, j3) {
                        None => None,
                        Some(j4) => Some((id, title, assignee, status, j4)),
                    }
                };
                match step {
                    None => None,
                    Some((id2, title2, assignee2, status2, j4)) => {
                        let j5 = skip_ws(v, j4);
                        if j5 < n && v[j5] == ',' {
                            let j6 = skip_ws(v, j5 + 1);
                            ticket_members(v, j6, id2, title2, assignee2, status2)
                        } else if j5 < n && v[j5] == '}' {
                            match (id2, title2, assignee2, status2) {
                                (Some(a), Some(b), Some(c), Some(d)) => Some(
                                    (Ticket::new(a, b, c, d), j5 + 1),
                                ),
                                _ => None,
                            }
                        } else {
                            None
                        }
                    },
                }
            }
        },
    }
}

/// Executable walk matching `spec_cache_elements`.
#[verifier::rlimit(100)]
fn cache_elements(v: &Vec<char>, i: usize, acc: Vec<Ticket>) -> (r: Option<(Vec<Ticket>, usize)>)
    requires
        i <= v@.len(),
    ensures
        match r {
            Some((ts, j)) => spec_cache_elements(v@, i as int, ticket_models(acc@)) == Some(
                (ticket_models(ts@), j as int),
            ) && i < j <= v@.len(),
            None => spec_cache_elements(v@, i as int, ticket_models(acc@)) is None,
        },
    decreases v@.len() - i,
{
    let n = v.len();
    if i >= n || v[i] != '{' {
        return None;
    }
    let j = skip_ws(v, i + 1);
    if j < n && v[j] == '}' {
        return None;
    }
    match ticket_members(v, j, None, None, None, None) {
        None => None,
        Some((t, j4)) => {
            let j5 = skip_ws(v, j4);
            if j5 < n && v[j5] == ',' {
                let j6 = skip_ws(v, j5 + 1);
                let ghost old_acc = acc@;
                let mut acc2 = acc;
                acc2.push(t);
                proof {
                    assert(ticket_models(acc2@) =~= ticket_models(old_acc).push(acc2@.last()@));
                }
                cache_elements(v, j6, acc2)
            } else if j5 < n && v[j5] == ']' {
                let ghost old_acc = acc@;
                let mut acc2 = acc;
                acc2.push(t);
                proof {
                    assert(ticket_models(acc2@) =~= ticket_models(old_acc).push(acc2@.last()@));
                }
                Some((acc2, j5 + 1))
            } else {
                None
            }
        },
    }
}

/// One character of an embedded fragment, read off the buffer.
proof fn lemma_frag_index(buf: Seq<char>, i: int, frag: Seq<char>, q: int)
    requires
        0 <= i,
        i + frag.len() <= buf.len(),
        buf.subrange(i, i + frag.len() as int) == frag,
        0 <= q < frag.len(),
    ensures
        buf[i + q] == frag[q],
{
    assert(buf.subrange(i, i + frag.len() as int)[q] == frag[q]);
}

/// A part of an embedded fragment is itself embedded at its offset.
proof fn lemma_sub_fragment(buf: Seq<char>, i: int, frag: Seq<char>, part: Seq<char>, off: int)
    requires
        0 <= i,
        i + frag.len() <= buf.len(),
        buf.subrange(i, i + frag.len() as int) == frag,
        0 <= off,
        off + part.len() <= frag.len(),
        part == frag.subrange(off, off + part.len() as int),
    ensures
        buf.subrange(i + off, i + off + part.len() as int) == part,
{
    assert forall|q: int| 0 <= q < part.len() implies buf.subrange(
        i + off,
        i + off + part.len() as int,
    )[q] == part[q] by {
        assert(buf.subrange(i, i + frag.len() as int)[off + q] == frag[off + q]);
        assert(frag.subrange(off, off + part.len() as int)[q] == frag[off + q]);
    }
    assert(buf.subrange(i + off, i + off + part.len() as int) =~= part);
}

/// Parsing an encoded string body from its start yields the original
/// characters and stops just past the closing quote.
proof fn lemma_body_round(buf: Seq<char>, i: int, t: Seq<char>)
    requires
        0 <= i,
        i + esc(t).len() + 1 <= buf.len(),
        buf.subrange(i, i + esc(t).len() + 1) == esc(t) + seq!['"'],
    ensures
        spec_string_body(buf, i) == Some((t, i + esc(t).len() + 1)),
    decreases t.len(),
{
    let frag = esc(t) + seq!['"'];
    if t.len() == 0 {
        assert(esc(t) == Seq::<char>::empty());
        assert(frag =~= seq!['"']);
        lemma_frag_index(buf, i, frag, 0);
        assert(buf[i] == '"');
        assert(spec_string_body(buf, i) == Some((Seq::<char>::empty(), i + 1)));
        assert(t =~= Seq::<char>::empty());
    } else {
        let c = t[0];
        let rest = t.drop_first();
        let head: Seq<char> = if c == '"' {
            seq!['\\', '"']
        } else if c == '\\' {
            seq!['\\', '\\']
        } else {
            seq![c]
        };
        assert(esc(t) == head + esc(rest));
        let hl = head.len() as int;
        assert(frag.subrange(hl, frag.len() as int) =~= esc(rest) + seq!['"']);
        lemma_sub_fragment(buf, i, frag, esc(rest) + seq!['"'], hl);
        lemma_body_round(buf, i + hl, rest);
        lemma_frag_index(buf, i, frag, 0);
        if c == '"' || c == '\\' {
            lemma_frag_index(buf, i, frag, 1);
            assert(buf[i] == '\\');
            assert(buf[i + 1] == c);
            assert(spec_string_body(buf, i) == prepend(c, spec_string_body(buf, i + 2)));
        } else {
            assert(buf[i] == c);
            assert(buf[i] != '"' && buf[i] != '\\');
            assert(spec_string_body(buf, i) == prepend(c, spec_string_body(buf, i + 1)));
        }
        assert(seq![c] + rest =~= t);
        assert(esc(t).len() == hl + esc(rest).len());
    }
}

/// Parsing an encoded string literal from its opening quote yields the
/// original characters.
proof fn lemma_string_round(buf: Seq<char>, i: int, t: Seq<char>)
    requires
        0 <= i,
        i + spec_enc_str(t).len() <= buf.len(),
        buf.subrange(i, i + spec_enc_str(t).len() as int) == spec_enc_str(t),
    ensures
        spec_parse_string(buf, i) == Some((t, i + spec_enc_str(t).len() as int)),
{
    let frag = spec_enc_str(t);
    assert(frag.len() == esc(t).len() + 2);
    lemma_frag_index(buf, i, frag, 0);
    assert(frag[0] == '"');
    assert(buf[i] == '"');
    assert(frag.subrange(1, frag.len() as int) =~= esc(t) + seq!['"']);
    lemma_sub_fragment(buf, i, frag, esc(t) + seq!['"'], 1);
    lemma_body_round(buf, i + 1, t);
}

/// The accumulator after reading one member, mirroring the decoder's
/// treatment of each key.
pub open spec fn upd_field(
    st: (Option<Seq<char>>, Option<Seq<char>>, Option<Seq<char>>, Option<Seq<char>>),
    k: Seq<char>,
    v: Seq<char>,
) -> (Option<Seq<char>>, Option<Seq<char>>, Option<Seq<char>>, Option<Seq<char>>) {
    if k == "id"@ {
        (Some(v), st.1, st.2, st.3)
    } else if k == "title"@ {
        (st.0, Some(v), st.2, st.3)
    } else if k == "assignee"@ {
        (st.0, st.1, Some(v), st.3)
    } else if k == "status"@ {
        (st.0, st.1, st.2, Some(v))
    } else {
        st
    }
}

/// The accumulator after reading a run of members.
pub open spec fn fold_fields(
    st: (Option<Seq<char>>, Option<Seq<char>>, Option<Seq<char>>, Option<Seq<char>>),
    ps: Seq<(Seq<char>, Seq<char>)>,
) -> (Option<Seq<char>>, Option<Seq<char>>, Option<Seq<char>>, Option<Seq<char>>)
    decreases ps.len(),
{
    if ps.len() == 0 {
        st
    } else {
        fold_fields(upd_field(st, ps[0].0, ps[0].1), ps.drop_first())
    }
}

/// The ticket assembled at the closing brace, if all fields were read.
pub open spec fn finish_ticket(
    st: (Option<Seq<char>>, Option<Seq<char>>, Option<Seq<char>>, Option<Seq<char>>),
    end: int,
) -> Option<(TicketModel, int)> {
    match st {
        (Some(a), Some(b), Some(c), Some(d)) => Some(
            (TicketModel { id: a, title: b, assignee: c, status: d }, end),
        ),
        _ => None,
    }
}

/// Walking encoded members from the first key folds the accumulator over
/// the written pairs and finishes at the closing brace.
#[verifier::rlimit(100)]
proof fn lemma_members_round(
    buf: Seq<char>,
    i: int,
    ps: Seq<(Seq<char>, Seq<char>)>,
    st: (Option<Seq<char>>, Option<Seq<char>>, Option<Seq<char>>, Option<Seq<char>>),
)
    requires
        ps.len() >= 1,
        0 <= i,
        i + spec_enc_members(ps).len() <= buf.len(),
        buf.subrange(i, i + spec_enc_members(ps).len() as int) == spec_enc_members(ps),
    ensures
        spec_ticket_members(buf, i, st.0, st.1, st.2, st.3) == finish_ticket(
            fold_fields(st, ps),
            i + spec_enc_members(ps).len() as int,
        ),
    decreases ps.len(),
{
    let frag = spec_enc_members(ps);
    let k = ps[0].0;
    let v = ps[0].1;
    let lk = spec_enc_str(k).len() as int;
    let lv = spec_enc_str(v).len() as int;
    assert(lk >= 2 && lv >= 2);
    // the key string
    assert(frag.subrange(0, lk) =~= spec_enc_str(k));
    lemma_sub_fragment(buf, i, frag, spec_enc_str(k), 0);
    assert(buf.subrange(i, i + lk) == spec_enc_str(k));
    lemma_string_round(buf, i, k);
    // the colon
    lemma_frag_index(buf, i, frag, lk);
    assert(frag[lk] == ':');
    assert(!is_ws(':'));
    assert(spec_skip_ws(buf, i + lk) == i + lk);
    // the value string
    lemma_frag_index(buf, i, frag, lk + 1);
    assert(frag[lk + 1] == '"');
    assert(spec_skip_ws(buf, i + lk + 1) == i + lk + 1);
    assert(frag.subrange(lk + 1, lk + 1 + lv) =~= spec_enc_str(v));
    lemma_sub_fragment(buf, i, frag, spec_enc_str(v), lk + 1);
    lemma_string_round(buf, i + lk + 1, v);
    let j4 = i + lk + 1 + lv;
    assert(spec_parse_string(buf, i + lk + 1) == Some((v, j4)));
    assert(spec_skip_value(buf, i + lk + 1) == Some(j4));
    // the separator after the member
    lemma_frag_index(buf, i, frag, lk + 1 + lv);
    if ps.len() == 1 {
        assert(frag[lk + 1 + lv] == '}');
        assert(buf[j4] == '}');
        assert(!is_ws('}'));
        assert(spec_skip_ws(buf, j4) == j4);
        assert(ps.drop_first() =~= Seq::<(Seq<char>, Seq<char>)>::empty());
        assert(fold_fields(upd_field(st, k, v), Seq::<(Seq<char>, Seq<char>)>::empty())
            == upd_field(st, k, v));
        assert(fold_fields(st, ps) == upd_field(st, k, v));
        assert(frag.len() == lk + 1 + lv + 1);
        assert(spec_ticket_members(buf, i, st.0, st.1, st.2, st.3) == finish_ticket(
            upd_field(st, k, v),
            j4 + 1,
        ));
    } else {
        assert(frag[lk + 1 + lv] == ',');
        assert(buf[j4] == ',');
        assert(!is_ws(','));
        assert(spec_skip_ws(buf, j4) == j4);
        let rest = spec_enc_members(ps.drop_first());
        assert(rest[0] == '"');
        lemma_frag_index(buf, i, frag, lk + 1 + lv + 1);
        assert(frag[lk + 1 + lv + 1] == '"');
        assert(buf[j4 + 1] == '"');
        assert(spec_skip_ws(buf, j4 + 1) == j4 + 1);
        assert(frag.subrange(lk + 1 + lv + 1, frag.len() as int) =~= rest);
        lemma_sub_fragment(buf, i, frag, rest, lk + 1 + lv + 1);
        lemma_members_round(buf, j4 + 1, ps.drop_first(), upd_field(st, k, v));
        assert(fold_fields(st, ps) == fold_fields(upd_field(st, k, v), ps.drop_first()));
        assert(frag.len() == lk + 1 + lv + 1 + rest.len());
        assert(spec_ticket_members(buf, i, st.0, st.1, st.2, st.3) == finish_ticket(
            fold_fields(st, ps),
            i + frag.len() as int,
        ));
    }
}

/// Walking encoded array elements from the first object collects the
/// written tickets and finishes past the closing bracket.
#[verifier::rlimit(100)]
proof fn lemma_elements_round(buf: Seq<char>, i: int, ts: Seq<TicketModel>, acc: Seq<TicketModel>)
    requires
        ts.len() >= 1,
        0 <= i,
        i + spec_enc_entries(ts).len() + 1 <= buf.len(),
        buf.subrange(i, i + spec_enc_entries(ts).len() + 1) == spec_enc_entries(ts) + seq![']'],
    ensures
        spec_cache_elements(buf, i, acc) == Some((acc + ts, i + spec_enc_entries(ts).len() + 1)),
    decreases ts.len(),
{
    let frag = spec_enc_entries(ts) + seq![']'];
    let t0 = ts[0];
    let e0 = spec_enc_ticket(t0);
    let l0 = e0.len() as int;
    let ps = ticket_pairs(t0);
    let mem = spec_enc_members(ps);
    reveal_strlit("id");
    reveal_strlit("title");
    reveal_strlit("assignee");
    reveal_strlit("status");
    assert(e0 == seq!['{'] + mem);
    assert(e0[0] == '{');
    assert(mem[0] == '"');
    lemma_frag_index(buf, i, frag, 0);
    assert(buf[i] == '{');
    lemma_frag_index(buf, i, frag, 1);
    assert(frag[1] == '"');
    assert(buf[i + 1] == '"');
    assert(spec_skip_ws(buf, i + 1) == i + 1);
    assert(frag.subrange(1, 1 + mem.len() as int) =~= mem);
    lemma_sub_fragment(buf, i, frag, mem, 1);
    lemma_members_round(buf, i + 1, ps, (None, None, None, None));
    // the four pairs fold to the four fields
    assert(ps.drop_first() =~= seq![("title"@, t0.title), ("assignee"@, t0.assignee), ("status"@, t0.status)]);
    assert(ps.drop_first().drop_first() =~= seq![("assignee"@, t0.assignee), ("status"@, t0.status)]);
    assert(ps.drop_first().drop_first().drop_first() =~= seq![("status"@, t0.status)]);
    assert(ps.drop_first().drop_first().drop_first().drop_first() =~= Seq::<(Seq<char>, Seq<char>)>::empty());
    assert("id"@.len() == 2 && "title"@.len() == 5 && "assignee"@.len() == 8 && "status"@.len() == 6);
    let st0 = (None::<Seq<char>>, None::<Seq<char>>, None::<Seq<char>>, None::<Seq<char>>);
    let st1 = upd_field(st0, "id"@, t0.id);
    assert(st1 == (Some(t0.id), None::<Seq<char>>, None::<Seq<char>>, None::<Seq<char>>));
    let st2 = upd_field(st1, "title"@, t0.title);
    assert(st2 == (Some(t0.id), Some(t0.title), None::<Seq<char>>, None::<Seq<char>>));
    let st3 = upd_field(st2, "assignee"@, t0.assignee);
    assert(st3 == (Some(t0.id), Some(t0.title), Some(t0.assignee), None::<Seq<char>>));
    let st4 = upd_field(st3, "status"@, t0.status);
    assert(st4 == (Some(t0.id), Some(t0.title), Some(t0.assignee), Some(t0.status)));
    assert(ps[0] == ("id"@, t0.id));
    assert(ps.drop_first()[0] == ("title"@, t0.title));
    assert(ps.drop_first().drop_first()[0] == ("assignee"@, t0.assignee));
    assert(ps.drop_first().drop_first().drop_first()[0] == ("status"@, t0.status));
    assert(fold_fields(st0, ps) == fold_fields(st1, ps.drop_first()));
    assert(fold_fields(st1, ps.drop_first()) == fold_fields(st2, ps.drop_first().drop_first()));
    assert(fold_fields(st2, ps.drop_first().drop_first()) == fold_fields(
        st3,
        ps.drop_first().drop_first().drop_first(),
    ));
    assert(fold_fields(st3, ps.drop_first().drop_first().drop_first()) == fold_fields(
        st4,
        ps.drop_first().drop_first().drop_first().drop_first(),
    ));
    assert(fold_fields(st4, Seq::<(Seq<char>, Seq<char>)>::empty()) == st4);
    assert(fold_fields(st0, ps) == st4);
    let end0 = i + 1 + mem.len() as int;
    assert(end0 == i + l0);
    assert(spec_ticket_members(buf, i + 1, None, None, None, None) == Some(
        (TicketModel { id: t0.id, title: t0.title, assignee: t0.assignee, status: t0.status }, end0),
    ));
    assert(TicketModel { id: t0.id, title: t0.title, assignee: t0.assignee, status: t0.status }
        == t0);
    if ts.len() == 1 {
        assert(frag =~= e0 + seq![']']);
        lemma_frag_index(buf, i, frag, l0);
        assert(frag[l0] == ']');
        assert(buf[end0] == ']');
        assert(spec_skip_ws(buf, end0) == end0);
        assert(acc.push(t0) =~= acc + ts);
        assert(spec_cache_elements(buf, i, acc) == Some((acc.push(t0), end0 + 1)));
    } else {
        let rest = spec_enc_entries(ts.drop_first());
        assert(spec_enc_entries(ts) == e0 + seq![','] + rest);
        assert(frag =~= e0 + seq![','] + (rest + seq![']']));
        lemma_frag_index(buf, i, frag, l0);
        assert(frag[l0] == ',');
        assert(buf[end0] == ',');
        assert(spec_skip_ws(buf, end0) == end0);
        assert(rest[0] == '{');
        lemma_frag_index(buf, i, frag, l0 + 1);
        assert(frag[l0 + 1] == '{');
        assert(buf[end0 + 1] == '{');
        assert(spec_skip_ws(buf, end0 + 1) == end0 + 1);
        assert(frag.subrange(l0 + 1, frag.len() as int) =~= rest + seq![']']);
        lemma_sub_fragment(buf, i, frag, rest + seq![']'], l0 + 1);
        lemma_elements_round(buf, end0 + 1, ts.drop_first(), acc.push(t0));
        assert(acc.push(t0) + ts.drop_first() =~= acc + ts);
        assert(frag.len() == l0 + 1 + rest.len() + 1);
        assert(spec_cache_elements(buf, i, acc) == Some((acc + ts, i + frag.len() as int)));
    }
}

/// Saving any tickets and loading the result yields exactly those
/// tickets back, in order: the codec round-trips on every well-formed
/// collection.
pub proof fn lemma_cache_round_trip(ts: Seq<TicketModel>)
    ensures
        spec_dec_cache(spec_enc_cache(ts)) == Some(ts),
{
    let buf = spec_enc_cache(ts);
    assert(buf[0] == '[');
    assert(!is_ws('['));
    assert(spec_skip_ws(buf, 0) == 0);
    if ts.len() == 0 {
        assert(spec_enc_entries(ts) == Seq::<char>::empty());
        assert(buf =~= seq!['[', ']']);
        assert(buf[1] == ']');
        assert(spec_skip_ws(buf, 1) == 1);
        assert(spec_skip_ws(buf, 2) == 2);
        assert(Seq::<TicketModel>::empty() =~= ts);
    } else {
        let entries = spec_enc_entries(ts);
        assert(spec_enc_ticket(ts[0])[0] == '{');
        assert(entries[0] == '{');
        assert(buf[1] == '{');
        assert(spec_skip_ws(buf, 1) == 1);
        assert(buf.subrange(0, buf.len() as int) =~= buf);
        assert(buf.subrange(1, buf.len() as int) =~= entries + seq![']']);
        lemma_sub_fragment(buf, 0, buf, entries + seq![']'], 1);
        lemma_elements_round(buf, 1, ts, Seq::empty());
        assert(Seq::<TicketModel>::empty() + ts =~= ts);
        assert(spec_cache_elements(buf, 1, Seq::empty()) == Some((ts, buf.len() as int)));
        assert(spec_skip_ws(buf, buf.len() as int) == buf.len() as int);
    }
}

/// Parses the persistence file's contents back into tickets, in array
/// order. Contents without the persisted shape are cache corruption.
pub fn decode_tickets(content: &str) -> (r: Result<Vec<Ticket>, CacheError>)
    ensures
        match r {
            Ok(ts) => spec_dec_cache(content@) == Some(ticket_models(ts@)),
            Err(e) => spec_dec_cache(content@) is None && e == CacheError::Corruption,
        },
{
    let v = str_to_chars(content);
    let n = v.len();
    let i = skip_ws(&v, 0);
    if i >= n || v[i] != '[' {
        return Err(CacheError::Corruption);
    }
    let j = skip_ws(&v, i + 1);
    if j < n && v[j] == ']' {
        let tail = skip_ws(&v, j + 1);
        if tail == n {
            let empty: Vec<Ticket> = Vec::new();
            proof {
                assert(ticket_models(empty@) =~= Seq::<TicketModel>::empty());
            }
            return Ok(empty);
        } else {
            return Err(CacheError::Corruption);
        }
    }
    let empty: Vec<Ticket> = Vec::new();
    proof {
        assert(ticket_models(empty@) =~= Seq::<TicketModel>::empty());
    }
    match cache_elements(&v, j, empty) {
        None => Err(CacheError::Corruption),
        Some((ts, end)) => {
            let tail = skip_ws(&v, end);
            if tail == n {
                Ok(ts)
            } else {
                Err(CacheError::Corruption)
            }
        },
    }
}

} // verus!
