//! Remote resolution: interprets the tracker's issue-search response.
//! The response is a JSON object whose `issues` array yields one ticket per
//! issue: the issue key, the summary, the assignee's display name (or the
//! `Unassigned` sentinel when the field is null or absent) and the status
//! name. Unknown fields anywhere are skipped.

use vstd::prelude::*;

use crate::jsontext::{
    spec_skip_ws, spec_parse_string, spec_skip_value, skip_ws, parse_string, skip_value,
};
use crate::models::{Ticket, TicketModel};
use crate::text::{str_to_chars, string_eq_lit, push_str_chars, chars_to_string};

verus! {

/// Failure of the remote batch call: a non-success response, or a body
/// that does not have the response shape.
#[derive(Debug, PartialEq, Eq, Structural)]
pub enum RemoteError {
    BadStatus(u16),
    MalformedBody,
}

/// The view of an optional string.
pub open spec fn view_opt(o: Option<String>) -> Option<Seq<char>> {
    match o {
        None => None,
        Some(x) => Some(x@),
    }
}

/// The views of a sequence of tickets.
pub open spec fn ticket_models(ts: Seq<Ticket>) -> Seq<TicketModel> {
    ts.map_values(|t: Ticket| t@)
}

/// Walks the members of an object that carries one interesting string
/// field named `key_name` (the status object's `name`, the assignee
/// object's `displayName`), skipping the rest, from the first key up to
/// and past the closing brace. The field must be present.
pub open spec fn spec_name_obj_members(
    s: Seq<char>,
    i: int,
    key_name: Seq<char>,
    found: Option<Seq<char>>,
) -> Option<(Seq<char>, int)>
    decreases s.len() - i,
{
    match spec_parse_string(s, i) {
        None => None,
        Some((k, j)) => {
            if j <= i || j > s.len() {
                None
            } else {
                let j2 = spec_skip_ws(s, j);
                if j2 < j || j2 >= s.len() || s[j2] != ':' {
                    None
                } else {
                    let j3 = spec_skip_ws(s, j2 + 1);
                    if j3 <= j2 || j3 > s.len() {
                        None
                    } else {
                        let step: Option<(Option<Seq<char>>, int)> = if k == key_name {
                            match spec_parse_string(s, j3) {
                                None => None,
                                Some((t, j4)) => Some((Some(t), j4)),
                            }
                        } else {
                            match spec_skip_value(s, j3) {
                                None => None,
                                Some(j4) => Some((found, j4)),
                            }
                        };
                        match step {
                            None => None,
                            Some((found2, j4)) => {
                                if j4 <= j3 || j4 > s.len() {
                                    None
                                } else {
                                    let j5 = spec_skip_ws(s, j4);
                                    if j5 < j4 {
                                        None
                                    } else if j5 < s.len() && s[j5] == ',' {
                                        let j6 = spec_skip_ws(s, j5 + 1);
                                        if j6 <= i || j6 > s.len() {
                                            None
                                        } else {
                                            spec_name_obj_members(s, j6, key_name, found2)
                                        }
                                    } else if j5 < s.len() && s[j5] == '}' {
                                        match found2 {
                                            None => None,
                                            Some(nm) => Some((nm, j5 + 1)),
                                        }
                                    } else {
                                        None
                                    }
                                }
                            },
                        }
                    }
                }
            }
        },
    }
}

/// Walks the members of an issue's `fields` object: `summary` (string,
/// required), `assignee` (null or an object with `displayName`, optional)
/// and `status` (an object with `name`, required); other members are
/// skipped. Returns the summary, the rendered assignee and the status name.
pub open spec fn spec_fields_members(
    s: Seq<char>,
    i: int,
    summary: Option<Seq<char>>,
    assignee: Option<Seq<char>>,
    status: Option<Seq<char>>,
) -> Option<((Seq<char>, Seq<char>, Seq<char>), int)>
    decreases s.len() - i,
{
    match spec_parse_string(s, i) {
        None => None,
        Some((k, j)) => {
            if j <= i || j > s.len() {
                None
            } else {
                let j2 = spec_skip_ws(s, j);
                if j2 < j || j2 >= s.len() || s[j2] != ':' {
                    None
                } else {
                    let j3 = spec_skip_ws(s, j2 + 1);
                    if j3 <= j2 || j3 > s.len() {
                        None
                    } else {
                        let step: Option<
                            (Option<Seq<char>>, Option<Seq<char>>, Option<Seq<char>>, int),
                        > = if k == "summary"@ {
                            match spec_parse_string(s, j3) {
                                None => None,
                                Some((t, j4)) => Some((Some(t), assignee, status, j4)),
                            }
                        } else if k == "assignee"@ {
                            if j3 < s.len() && s[j3] == 'n' {
                                // a null assignee resolves to the sentinel
                                match spec_skip_value(s, j3) {
                                    None => None,
                                    Some(j4) => Some((summary, None, status, j4)),
                                }
                            } else if j3 < s.len() && s[j3] == '{' {
                                let ja = spec_skip_ws(s, j3 + 1);
                                if ja <= j3 || ja > s.len() {
                                    None
                                } else if ja < s.len() && s[ja] == '}' {
                                    // an assignee object without displayName
                                    None
                                } else {
                                    match spec_name_obj_members(s, ja, "displayName"@, None) {
                                        None => None,
                                        Some((nm, j4)) => Some((summary, Some(nm), status, j4)),
                                    }
                                }
                            } else {
                                None
                            }
                        } else if k == "status"@ {
                            if j3 < s.len() && s[j3] == '{' {
                                let ja = spec_skip_ws(s, j3 + 1);
                                if ja <= j3 || ja > s.len() {
                                    None
                                } else if ja < s.len() && s[ja] == '}' {
                                    // a status object without name
                                    None
                                } else {
                                    match spec_name_obj_members(s, ja, "name"@, None) {
                                        None => None,
                                        Some((nm, j4)) => Some((summary, assignee, Some(nm), j4)),
                                    }
                                }
                            } else {
                                None
                            }
                        } else {
                            match spec_skip_value(s, j3) {
                                None => None,
                                Some(j4) => Some((summary, assignee, status, j4)),
                            }
                        };
                        match step {
                            None => None,
                            Some((summary2, assignee2, status2, j4)) => {
                                if j4 <= j3 || j4 > s.len() {
                                    None
                                } else {
                                    let j5 = spec_skip_ws(s, j4);
                                    if j5 < j4 {
                                        None
                                    } else if j5 < s.len() && s[j5] == ',' {
                                        let j6 = spec_skip_ws(s, j5 + 1);
                                        if j6 <= i || j6 > s.len() {
                                            None
                                        } else {
                                            spec_fields_members(s, j6, summary2, assignee2, status2)
                                        }
                                    } else if j5 < s.len() && s[j5] == '}' {
                                        match (summary2, status2) {
                                            (Some(sm), Some(st)) => {
                                                let asg = match assignee2 {
                                                    None => "Unassigned"@,
                                                    Some(nm) => nm,
                                                };
                                                Some(((sm, asg, st), j5 + 1))
                                            },
                                            _ => None,
                                        }
                                    } else {
                                        None
                                    }
                                }
                            },
                        }
                    }
                }
            }
        },
    }
}

/// Walks the members of one issue object: `key` (string, required) and
/// `fields` (object, required); other members are skipped.
pub open spec fn spec_issue_members(
    s: Seq<char>,
    i: int,
    key: Option<Seq<char>>,
    fields: Option<(Seq<char>, Seq<char>, Seq<char>)>,
) -> Option<(TicketModel, int)>
    decreases s.len() - i,
{
    match spec_parse_string(s, i) {
        None => None,
        Some((k, j)) => {
            if j <= i || j > s.len() {
                None
            } else {
                let j2 = spec_skip_ws(s, j);
                if j2 < j || j2 >= s.len() || s[j2] != ':' {
                    None
                } else {
                    let j3 = spec_skip_ws(s, j2 + 1);
                    if j3 <= j2 || j3 > s.len() {
                        None
                    } else {
                        let step: Option<
                            (Option<Seq<char>>, Option<(Seq<char>, Seq<char>, Seq<char>)>, int),
                        > = if k == "key"@ {
                            match spec_parse_string(s, j3) {
                                None => None,
                                Some((t, j4)) => Some((Some(t), fields, j4)),
                            }
                        } else if k == "fields"@ {
                            if j3 < s.len() && s[j3] == '{' {
                                let jf = spec_skip_ws(s, j3 + 1);
                                if jf <= j3 || jf > s.len() {
                                    None
                                } else if jf < s.len() && s[jf] == '}' {
                                    // fields without summary and status
                                    None
                                } else {
                                    match spec_fields_members(s, jf, None, None, None) {
                                        None => None,
                                        Some((f, j4)) => Some((key, Some(f), j4)),
                                    }
                                }
                            } else {
                                None
                            }
                        } else {
                            match spec_skip_value(s, j3) {
                                None => None,
                                Some(j4) => Some((key, fields, j4)),
                            }
                        };
                        match step {
                            None => None,
                            Some((key2, fields2, j4)) => {
                                if j4 <= j3 || j4 > s.len() {
                                    None
                                } else {
                                    let j5 = spec_skip_ws(s, j4);
                                    if j5 < j4 {
                                        None
                                    } else if j5 < s.len() && s[j5] == ',' {
                                        let j6 = spec_skip_ws(s, j5 + 1);
                                        if j6 <= i || j6 > s.len() {
                                            None
                                        } else {
                                            spec_issue_members(s, j6, key2, fields2)
                                        }
                                    } else if j5 < s.len() && s[j5] == '}' {
                                        match (key2, fields2) {
                                            (Some(kk), Some(f)) => Some(
                                                (
                                                    TicketModel {
                                                        id: kk,
                                                        title: f.0,
                                                        assignee: f.1,
                                                        status: f.2,
                                                    },
                                                    j5 + 1,
                                                ),
                                            ),
                                            _ => None,
                                        }
                                    } else {
                                        None
                                    }
                                }
                            },
                        }
                    }
                }
            }
        },
    }
}

/// Walks the elements of the `issues` array, each an issue object, from
/// the first element up to and past the closing bracket.
pub open spec fn spec_issues_elements(s: Seq<char>, i: int, acc: Seq<TicketModel>) -> Option<
    (Seq<TicketModel>, int),
>
    decreases s.len() - i,
{
    if i < 0 || i >= s.len() || s[i] != '{' {
        None
    } else {
        let j = spec_skip_ws(s, i + 1);
        if j <= i || j > s.len() {
            None
        } else if j < s.len() && s[j] == '}' {
            // an issue without key and fields
            None
        } else {
            match spec_issue_members(s, j, None, None) {
                None => None,
                Some((t, j4)) => {
                    if j4 <= j || j4 > s.len() {
                        None
                    } else {
                        let j5 = spec_skip_ws(s, j4);
                        if j5 < j4 {
                            None
                        } else if j5 < s.len() && s[j5] == ',' {
                            let j6 = spec_skip_ws(s, j5 + 1);
                            if j6 <= i || j6 > s.len() {
                                None
                            } else {
                                spec_issues_elements(s, j6, acc.push(t))
                            }
                        } else if j5 < s.len() && s[j5] == ']' {
                            Some((acc.push(t), j5 + 1))
                        } else {
                            None
                        }
                    }
                },
            }
        }
    }
}

/// Walks the members of the top-level response object: `issues` (array,
/// required); other members are skipped.
pub open spec fn spec_top_members(s: Seq<char>, i: int, issues: Option<Seq<TicketModel>>) -> Option<
    (Seq<TicketModel>, int),
>
    decreases s.len() - i,
{
    match spec_parse_string(s, i) {
        None => None,
        Some((k, j)) => {
            if j <= i || j > s.len() {
                None
            } else {
                let j2 = spec_skip_ws(s, j);
                if j2 < j || j2 >= s.len() || s[j2] != ':' {
                    None
                } else {
                    let j3 = spec_skip_ws(s, j2 + 1);
                    if j3 <= j2 || j3 > s.len() {
                        None
                    } else {
                        let step: Option<(Option<Seq<TicketModel>>, int)> = if k == "issues"@ {
                            if j3 < s.len() && s[j3] == '[' {
                                let ja = spec_skip_ws(s, j3 + 1);
                                if ja <= j3 || ja > s.len() {
                                    None
                                } else if ja < s.len() && s[ja] == ']' {
                                    Some((Some(Seq::empty()), ja + 1))
                                } else {
                                    match spec_issues_elements(s, ja, Seq::empty()) {
                                        None => None,
                                        Some((ts, j4)) => Some((Some(ts), j4)),
                                    }
                                }
                            } else {
                                None
                            }
                        } else {
                            match spec_skip_value(s, j3) {
                                None => None,
                                Some(j4) => Some((issues, j4)),
                            }
                        };
                        match step {
                            None => None,
                            Some((issues2, j4)) => {
                                if j4 <= j3 || j4 > s.len() {
                                    None
                                } else {
                                    let j5 = spec_skip_ws(s, j4);
                                    if j5 < j4 {
                                        None
                                    } else if j5 < s.len() && s[j5] == ',' {
                                        let j6 = spec_skip_ws(s, j5 + 1);
                                        if j6 <= i || j6 > s.len() {
                                            None
                                        } else {
                                            spec_top_members(s, j6, issues2)
                                        }
                                    } else if j5 < s.len() && s[j5] == '}' {
                                        match issues2 {
                                            None => None,
                                            Some(ts) => Some((ts, j5 + 1)),
                                        }
                                    } else {
                                        None
                                    }
                                }
                            },
                        }
                    }
                }
            }
        },
    }
}

/// Parses a whole response body: a JSON object with an `issues` array,
/// with nothing but whitespace after it. Yields the tickets of the issues
/// in array order.
pub open spec fn spec_parse_issues(s: Seq<char>) -> Option<Seq<TicketModel>> {
    let i = spec_skip_ws(s, 0);
    if 0 <= i < s.len() && s[i] == '{' {
        let j = spec_skip_ws(s, i + 1);
        if j <= i || j > s.len() {
            None
        } else if j < s.len() && s[j] == '}' {
            // the issues member is required
            None
        } else {
            match spec_top_members(s, j, None) {
                None => None,
                Some((ts, end)) => {
                    if spec_skip_ws(s, end) == s.len() {
                        Some(ts)
                    } else {
                        None
                    }
                },
            }
        }
    } else {
        None
    }
}

/// Executable walk matching `spec_name_obj_members`.
#[verifier::rlimit(100)]
fn name_obj_members(v: &Vec<char>, i: usize, key_name: &str, found: Option<String>) -> (r: Option<
    (String, usize),
>)
    requires
        i <= v@.len(),
    ensures
        match r {
            Some((nm, j)) => spec_name_obj_members(v@, i as int, key_name@, view_opt(found))
                == Some((nm@, j as int)) && i < j <= v@.len(),
            None => spec_name_obj_members(v@, i as int, key_name@, view_opt(found)) is None,
        },
    decreases v@.len() - i,
{
    let n = v.len();
    match parse_string(v, i) {
        None => None,
        Some((k, j)) => {
            let j2 = skip_ws(v, j);
            if j2 >= n || v[j2] != ':' {
                None
            } else {
                let j3 = skip_ws(v, j2 + 1);
                let step: Option<(Option<String>, usize)> = if string_eq_lit(&k, key_name) {
                    match parse_string(v, j3) {
                        None => None,
                        Some((t, j4)) => Some((Some(t), j4)),
                    }
                } else {
                    match skip_value(v, j3) {
                        None => None,
                        Some(j4) => Some((found, j4)),
                    }
                };
                match step {
                    None => None,
                    Some((found2, j4)) => {
                        let j5 = skip_ws(v, j4);
                        if j5 < n && v[j5] == ',' {
                            let j6 = skip_ws(v, j5 + 1);
                            name_obj_members(v, j6, key_name, found2)
                        } else if j5 < n && v[j5] == '}' {
                            match found2 {
                                None => None,
                                Some(nm) => Some((nm, j5 + 1)),
                            }
                        } else {
                            None
                        }
                    },
                }
            }
        },
    }
}

/// Executable walk matching `spec_fields_members`.
#[verifier::rlimit(100)]
fn fields_members(
    v: &Vec<char>,
    i: usize,
    summary: Option<String>,
    assignee: Option<String>,
    status: Option<String>,
) -> (r: Option<((String, String, String), usize)>)
    requires
        i <= v@.len(),
    ensures
        match r {
            Some((f, j)) => spec_fields_members(
                v@,
                i as int,
                view_opt(summary),
                view_opt(assignee),
                view_opt(status),
            ) == Some(((f.0@, f.1@, f.2@), j as int)) && i < j <= v@.len(),
            None => spec_fields_members(
                v@,
                i as int,
                view_opt(summary),
                view_opt(assignee),
                view_opt(status),
            ) is None,
        },
    decreases v@.len() - i,
{
    let n = v.len();
    match parse_string(v, i) {
        None => None,
        Some((k, j)) => {
            let j2 = skip_ws(v, j);
            if j2 >= n || v[j2] != ':' {
                None
            } else {
                let j3 = skip_ws(v, j2 + 1);
                let step: Option<(Option<String>, Option<String>, Option<String>, usize)> = if
                string_eq_lit(&k, "summary") {
                    match parse_string(v, j3) {
                        None => None,
                        Some((t, j4)) => Some((Some(t), assignee, status, j4)),
                    }
                } else if string_eq_lit(&k, "assignee") {
                    if j3 < n && v[j3] == 'n' {
                        match skip_value(v, j3) {
                            None => None,
                            Some(j4) => Some((summary, None, status, j4)),
                        }
                    } else if j3 < n && v[j3] == '{' {
                        let ja = skip_ws(v, j3 + 1);
                        if ja < n && v[ja] == '}' {
                            None
                        } else {
                            match name_obj_members(v, ja, "displayName", None) {
                                None => None,
                                Some((nm, j4)) => Some((summary, Some(nm), status, j4)),
                            }
                        }
                    } else {
                        None
                    }
                } else if string_eq_lit(&k, "status") {
                    if j3 < n && v[j3] == '{' {
                        let ja = skip_ws(v, j3 + 1);
                        if ja < n && v[ja] == '}' {
                            None
                        } else {
                            match name_obj_members(v, ja, "name", None) {
                                None => None,
                                Some((nm, j4)) => Some((summary, assignee, Some(nm), j4)),
                            }
                        }
                    } else {
                        None
                    }
                } else {
                    match skip_value(v, j3) {
                        None => None,
                        Some(j4) => Some((summary, assignee, status, j4)),
                    }
                };
                match step {
                    None => None,
                    Some((summary2, assignee2, status2, j4)) => {
                        let j5 = skip_ws(v, j4);
                        if j5 < n && v[j5] == ',' {
                            let j6 = skip_ws(v, j5 + 1);
                            fields_members(v, j6, summary2, assignee2, status2)
                        } else if j5 < n && v[j5] == '}' {
                            match (summary2, status2) {
                                (Some(sm), Some(st)) => {
                                    let asg: String = match assignee2 {
                                        None => String::from_str("Unassigned"),
                                        Some(nm) => nm,
                                    };
                                    Some(((sm, asg, st), j5 + 1))
                                },
                                _ => None,
                            }
                        } else {
                            None
                        }
                    },
                }
            }
        },
    }
}

/// Executable walk matching `spec_issue_members`.
#[verifier::rlimit(100)]
fn issue_members(
    v: &Vec<char>,
    i: usize,
    key: Option<String>,
    fields: Option<(String, String, String)>,
) -> (r: Option<(Ticket, usize)>)
    requires
        i <= v@.len(),
    ensures
        match r {
            Some((t, j)) => spec_issue_members(
                v@,
                i as int,
                view_opt(key),
                match fields {
                    None => None,
                    Some(f) => Some((f.0@, f.1@, f.2@)),
                },
            ) == Some((t@, j as int)) && i < j <= v@.len(),
            None => spec_issue_members(
                v@,
                i as int,
                view_opt(key),
                match fields {
                    None => None,
                    Some(f) => Some((f.0@, f.1@, f.2@)),
                },
            ) is None,
        },
    decreases v@.len() - i,
{
    let n = v.len();
    match parse_string(v, i) {
        None => None,
        Some((k, j)) => {
            let j2 = skip_ws(v, j);
            if j2 >= n || v[j2] != ':' {
                None
            } else {
                let j3 = skip_ws(v, j2 + 1);
                let step: Option<(Option<String>, Option<(String, String, String)>, usize)> = if
                string_eq_lit(&k, "key") {
                    match parse_string(v, j3) {
                        None => None,
                        Some((t, j4)) => Some((Some(t), fields, j4)),
                    }
                } else if string_eq_lit(&k, "fields") {
                    if j3 < n && v[j3] == '{' {
                        let jf = skip_ws(v, j3 + 1);
                        if jf < n && v[jf] == '}' {
                            None
                        } else {
                            match fields_members(v, jf, None, None, None) {
                                None => None,
                                Some((f, j4)) => Some((key, Some(f), j4)),
                            }
                        }
                    } else {
                        None
                    }
                } else {
                    match skip_value(v, j3) {
                        None => None,
                        Some(j4) => Some((key, fields, j4)),
                    }
                };
                match step {
                    None => None,
                    Some((key2, fields2, j4)) => {
                        let j5 = skip_ws(v, j4);
                        if j5 < n && v[j5] == ',' {
                            let j6 = skip_ws(v, j5 + 1);
                            issue_members(v, j6, key2, fields2)
                        } else if j5 < n && v[j5] == '}' {
                            match (key2, fields2) {
                                (Some(kk), Some(f)) => Some(
                                    (Ticket::new(kk, f.0, f.1, f.2), j5 + 1),
                                ),
                                _ => None,
                            }
                        } else {
                            None
                        }
                    },
                }
            }
        },
    }
}

/// Executable walk matching `spec_issues_elements`.
#[verifier::rlimit(100)]
fn issues_elements(v: &Vec<char>, i: usize, acc: Vec<Ticket>) -> (r: Option<(Vec<Ticket>, usize)>)
    requires
        i <= v@.len(),
    ensures
        match r {
            Some((ts, j)) => spec_issues_elements(v@, i as int, ticket_models(acc@)) == Some(
                (ticket_models(ts@), j as int),
            ) && i < j <= v@.len(),
            None => spec_issues_elements(v@, i as int, ticket_models(acc@)) is None,
        },
    decreases v@.len() - i,
{
    let n = v.len();
    if i >= n || v[i] != '{' {
        return None;
    }
    let j = skip_ws(v, i + 1);
    if j < n && v[j] == '}' {
        return None;
    }
    match issue_members(v, j, None, None) {
        None => None,
        Some((t, j4)) => {
            let j5 = skip_ws(v, j4);
            if j5 < n && v[j5] == ',' {
                let j6 = skip_ws(v, j5 + 1);
                let ghost old_acc = acc@;
                let mut acc2 = acc;
                acc2.push(t);
                proof {
                    assert(ticket_models(acc2@) =~= ticket_models(old_acc).push(acc2@.last()@));
                }
                issues_elements(v, j6, acc2)
            } else if j5 < n && v[j5] == ']' {
                let ghost old_acc = acc@;
                let mut acc2 = acc;
                acc2.push(t);
                proof {
                    assert(ticket_models(acc2@) =~= ticket_models(old_acc).push(acc2@.last()@));
                }
                Some((acc2, j5 + 1))
            } else {
                None
            }
        },
    }
}

/// Executable walk matching `spec_top_members`.
#[verifier::rlimit(100)]
fn top_members(v: &Vec<char>, i: usize, issues: Option<Vec<Ticket>>) -> (r: Option<
    (Vec<Ticket>, usize),
>)
    requires
        i <= v@.len(),
    ensures
        match r {
            Some((ts, j)) => spec_top_members(
                v@,
                i as int,
                match issues {
                    None => None,
                    Some(acc) => Some(ticket_models(acc@)),
                },
            ) == Some((ticket_models(ts@), j as int)) && i < j <= v@.len(),
            None => spec_top_members(
                v@,
                i as int,
                match issues {
                    None => None,
                    Some(acc) => Some(ticket_models(acc@)),
                },
            ) is None,
        },
    decreases v@.len() - i,
{
    let n = v.len();
    match parse_string(v, i) {
        None => None,
        Some((k, j)) => {
            let j2 = skip_ws(v, j);
            if j2 >= n || v[j2] != ':' {
                None
            } else {
                let j3 = skip_ws(v, j2 + 1);
                let step: Option<(Option<Vec<Ticket>>, usize)> = if string_eq_lit(&k, "issues") {
                    if j3 < n && v[j3] == '[' {
                        let ja = skip_ws(v, j3 + 1);
                        if ja < n && v[ja] == ']' {
                            let empty: Vec<Ticket> = Vec::new();
                            proof {
                                assert(ticket_models(empty@) =~= Seq::<TicketModel>::empty());
                            }
                            Some((Some(empty), ja + 1))
                        } else {
                            let empty: Vec<Ticket> = Vec::new();
                            proof {
                                assert(ticket_models(empty@) =~= Seq::<TicketModel>::empty());
                            }
                            match issues_elements(v, ja, empty) {
                                None => None,
                                Some((ts, j4)) => Some((Some(ts), j4)),
                            }
                        }
                    } else {
                        None
                    }
                } else {
                    match skip_value(v, j3) {
                        None => None,
                        Some(j4) => Some((issues, j4)),
                    }
                };
                match step {
                    None => None,
                    Some((issues2, j4)) => {
                        let j5 = skip_ws(v, j4);
                        if j5 < n && v[j5] == ',' {
                            let j6 = skip_ws(v, j5 + 1);
                            top_members(v, j6, issues2)
                        } else if j5 < n && v[j5] == '}' {
                            match issues2 {
                                None => None,
                                Some(ts) => Some((ts, j5 + 1)),
                            }
                        } else {
                            None
                        }
                    },
                }
            }
        },
    }
}

/// Parses the body of a successful response into the tickets it carries,
/// in array order. A body without the response shape is a remote error.
pub fn parse_issues(body: &str) -> (r: Result<Vec<Ticket>, RemoteError>)
    ensures
        match r {
            Ok(ts) => spec_parse_issues(body@) == Some(ticket_models(ts@)),
            Err(e) => spec_parse_issues(body@) is None && e == RemoteError::MalformedBody,
        },
{
    let v = str_to_chars(body);
    let n = v.len();
    let i = skip_ws(&v, 0);
    if i >= n || v[i] != '{' {
        return Err(RemoteError::MalformedBody);
    }
    let j = skip_ws(&v, i + 1);
    if j < n && v[j] == '}' {
        return Err(RemoteError::MalformedBody);
    }
    match top_members(&v, j, None) {
        None => Err(RemoteError::MalformedBody),
        Some((ts, end)) => {
            let tail = skip_ws(&v, end);
            if tail == n {
                Ok(ts)
            } else {
                Err(RemoteError::MalformedBody)
            }
        },
    }
}

/// Interprets one batched response: a non-success status is fatal for the
/// run, and a success body is parsed into the tickets the tracker
/// recognized.
pub fn interpret_response(status: u16, body: &str) -> (r: Result<Vec<Ticket>, RemoteError>)
    ensures
        match r {
            Ok(ts) => 200 <= status < 300 && spec_parse_issues(body@) == Some(ticket_models(ts@)),
            Err(RemoteError::BadStatus(st)) => st == status && !(200 <= status < 300),
            Err(RemoteError::MalformedBody) => 200 <= status < 300 && spec_parse_issues(body@)
                is None,
        },
{
    if status < 200 || status >= 300 {
        return Err(RemoteError::BadStatus(status));
    }
    parse_issues(body)
}

/// The ids joined with a comma and a space.
pub open spec fn spec_join(ids: Seq<Seq<char>>) -> Seq<char>
    decreases ids.len(),
{
    if ids.len() == 0 {
        Seq::empty()
    } else if ids.len() == 1 {
        ids[0]
    } else {
        ids[0] + ", "@ + spec_join(ids.drop_first())
    }
}

/// Joining one more id onto a non-empty prefix appends a separator and
/// the id.
proof fn lemma_join_push(a: Seq<Seq<char>>, x: Seq<char>)
    requires
        a.len() >= 1,
    ensures
        spec_join(a.push(x)) == spec_join(a) + ", "@ + x,
    decreases a.len(),
{
    if a.len() == 1 {
        assert(a.push(x).drop_first() =~= seq![x]);
        assert(spec_join(seq![x]) == x);
        assert(spec_join(a.push(x)) =~= spec_join(a) + ", "@ + x);
    } else {
        lemma_join_push(a.drop_first(), x);
        assert(a.push(x).drop_first() =~= a.drop_first().push(x));
        assert(spec_join(a.push(x)) =~= spec_join(a) + ", "@ + x);
    }
}

/// The tracker's query-language filter selecting exactly the given ids.
pub fn build_jql(ids: &Vec<String>) -> (r: String)
    ensures
        r@ == "key in ("@ + spec_join(crate::pipeline::str_views(ids@)) + ")"@,
{
    let mut out: Vec<char> = Vec::new();
    push_str_chars(&mut out, "key in (");
    let n = ids.len();
    let mut i: usize = 0;
    proof {
        assert(crate::pipeline::str_views(ids@).subrange(0, 0) =~= Seq::<Seq<char>>::empty());
        assert(out@ =~= "key in ("@ + spec_join(crate::pipeline::str_views(ids@).subrange(0, 0)));
    }
    while i < n
        invariant
            n == ids@.len(),
            i <= n,
            out@ == "key in ("@ + spec_join(crate::pipeline::str_views(ids@).subrange(0, i as int)),
        decreases n - i,
    {
        let ghost vs = crate::pipeline::str_views(ids@);
        let ghost pre = vs.subrange(0, i as int);
        if i > 0 {
            push_str_chars(&mut out, ", ");
            push_str_chars(&mut out, ids[i].as_str());
            proof {
                lemma_join_push(pre, vs[i as int]);
                assert(vs.subrange(0, i + 1) =~= pre.push(vs[i as int]));
                assert(out@ =~= "key in ("@ + spec_join(vs.subrange(0, i + 1)));
            }
        } else {
            push_str_chars(&mut out, ids[i].as_str());
            proof {
                assert(vs.subrange(0, 1) =~= seq![vs[0]]);
                assert(spec_join(seq![vs[0]]) == vs[0]);
                assert(out@ =~= "key in ("@ + spec_join(vs.subrange(0, i + 1)));
            }
        }
        i = i + 1;
    }
    push_str_chars(&mut out, ")");
    proof {
        assert(crate::pipeline::str_views(ids@).subrange(0, n as int) =~= crate::pipeline::str_views(
            ids@,
        ));
        assert(out@ =~= "key in ("@ + spec_join(crate::pipeline::str_views(ids@)) + ")"@);
    }
    chars_to_string(&out)
}

/// The issue-search endpoint under the configured site.
pub fn search_url(site: &String) -> (r: String)
    ensures
        r@ == site@ + "/rest/api/3/search"@,
{
    let mut out: Vec<char> = Vec::new();
    push_str_chars(&mut out, site.as_str());
    push_str_chars(&mut out, "/rest/api/3/search");
    proof {
        assert(out@ =~= site@ + "/rest/api/3/search"@);
    }
    chars_to_string(&out)
}

} // verus!
