//! Core data types: the resolved `Ticket` record, the per-line view `Line`,
//! and the tracker credential bundle `JiraConfig`.

use vstd::prelude::*;
use vstd::string::*;

use crate::extract::{extract_ticket_id, spec_first_match, no_match_at};
use crate::text::{push_str_chars, chars_to_string};

verus! {

/// Mathematical model of a ticket: the four fields as character sequences.
pub ghost struct TicketModel {
    pub id: Seq<char>,
    pub title: Seq<char>,
    pub assignee: Seq<char>,
    pub status: Seq<char>,
}

/// Resolved metadata record for one issue-tracker item. Immutable once
/// created; produced by remote resolution or cache deserialization.
#[derive(Debug, PartialEq, Eq)]
pub struct Ticket {
    pub id: String,
    pub title: String,
    pub assignee: String,
    pub status: String,
}

impl View for Ticket {
    type V = TicketModel;

    open spec fn view(&self) -> TicketModel {
        TicketModel {
            id: self.id@,
            title: self.title@,
            assignee: self.assignee@,
            status: self.status@,
        }
    }
}

/// A sequence of spaces of the given length.
pub open spec fn spaces(n: nat) -> Seq<char> {
    Seq::new(n, |i: int| ' ')
}

/// A ticket id padded with spaces to a width of five characters; longer ids
/// are kept whole.
pub open spec fn spec_pad_id(s: Seq<char>) -> Seq<char> {
    if s.len() >= 5 {
        s
    } else {
        s + spaces((5 - s.len()) as nat)
    }
}

/// The human-readable rendering of a ticket: bracketed padded id, then
/// title, assignee and status separated by slashes.
pub open spec fn spec_pretty(t: TicketModel) -> Seq<char> {
    "["@ + spec_pad_id(t.id) + "] "@ + t.title + " / "@ + t.assignee + " / "@ + t.status
}

impl Ticket {
    /// Builds a ticket from its four fields.
    pub fn new(id: String, title: String, assignee: String, status: String) -> (t: Ticket)
        ensures
            t@ == (TicketModel { id: id@, title: title@, assignee: assignee@, status: status@ }),
    {
        Ticket { id, title, assignee, status }
    }

    /// Renders the ticket for display beside its line.
    pub fn as_pretty_string(&self) -> (r: String)
        ensures
            r@ == spec_pretty(self@),
    {
        let mut out: Vec<char> = Vec::new();
        push_str_chars(&mut out, "[");
        push_str_chars(&mut out, self.id.as_str());
        let idlen = self.id.as_str().unicode_len();
        proof {
            assert(out@ =~= "["@ + self@.id + spaces(0));
        }
        let mut i: usize = idlen;
        while i < 5
            invariant
                idlen == self@.id.len(),
                idlen <= i,
                idlen >= 5 ==> i == idlen,
                idlen < 5 ==> i <= 5,
                out@ == "["@ + self@.id + spaces((i - idlen) as nat),
            decreases 5 - i,
        {
            out.push(' ');
            i = i + 1;
            proof {
                assert(out@ =~= "["@ + self@.id + spaces((i - idlen) as nat));
            }
        }
        proof {
            if idlen >= 5 {
                assert(out@ =~= "["@ + spec_pad_id(self@.id));
            } else {
                assert(out@ =~= "["@ + spec_pad_id(self@.id));
            }
        }
        push_str_chars(&mut out, "] ");
        push_str_chars(&mut out, self.title.as_str());
        push_str_chars(&mut out, " / ");
        push_str_chars(&mut out, self.assignee.as_str());
        push_str_chars(&mut out, " / ");
        push_str_chars(&mut out, self.status.as_str());
        proof {
            assert(out@ =~= spec_pretty(self@));
        }
        chars_to_string(&out)
    }
}

/// A transient view over one input line: the raw text and the first
/// extracted ticket id, if the line holds one.
pub struct Line {
    pub contents: String,
    pub ticket: Option<String>,
}

impl Line {
    /// Builds the view of one line, extracting the first whole-word ticket
    /// identifier if present.
    pub fn new(contents: &String) -> (l: Line)
        ensures
            l.contents@ == contents@,
            match l.ticket {
                Some(t) => spec_first_match(contents@, t@),
                None => forall|i: int| 0 <= i < contents@.len() ==> no_match_at(contents@, i),
            },
    {
        let ticket = extract_ticket_id(contents.as_str());
        Line { contents: contents.clone(), ticket }
    }
}

/// Credential bundle for the remote tracker: user, API token and site URL.
/// Treated as opaque by the pipeline; filled in by the caller.
pub struct JiraConfig {
    pub username: String,
    pub api_token: String,
    pub site: String,
}

} // verus!
