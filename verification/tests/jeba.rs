use jeba::cache::{decode_tickets, encode_tickets, CacheError};
use jeba::extract::extract_ticket_id;
use jeba::models::{Line, Ticket};
use jeba::pipeline::{find_tickets, merge_found, Resolution, TicketMap};
use jeba::remote::{build_jql, interpret_response, parse_issues, search_url, RemoteError};
use jeba::render::process_lines;

fn ticket(id: &str, title: &str, assignee: &str, status: &str) -> Ticket {
    Ticket::new(
        String::from(id),
        String::from(title),
        String::from(assignee),
        String::from(status),
    )
}

fn map_of(tickets: Vec<Ticket>) -> TicketMap {
    merge_found(&TicketMap::new(), &tickets)
}

#[test]
fn test_can_deserialize() {
    let issues_json = "
            {
                \"expand\": \"names,schema\",
                \"startAt\": 0,
                \"maxResults\": 50,
                \"total\": 1,
                \"issues\": [
                    {
                        \"expand\": \"operations,versionedRepresentations,editmeta,changelog,renderedFields\",
                        \"id\": \"000001\",
                        \"self\": \"https://portal.atlassian.net/rest/api/3/issue/000001\",
                        \"key\": \"ETC-0001\",
                        \"fields\": {
                            \"summary\": \"Case with incorrect values \",
                            \"assignee\": null,
                            \"status\": {
                                \"self\": \"https://portal.atlassian.net/rest/api/3/status/10004\",
                                \"description\": \"\",
                                \"iconUrl\": \"https://portal.atlassian.net/images/icons/statuses/open.png\",
                                \"name\": \"Open\",
                                \"id\": \"10004\",
                                \"statusCategory\": {
                                    \"self\": \"https://portal.atlassian.net/rest/api/3/statuscategory/2\",
                                    \"id\": 2,
                                    \"key\": \"new\",
                                    \"colorName\": \"blue-gray\",
                                    \"name\": \"To Do\"
                                }
                            }
                        }
                    }
                ]
            }
        ";

    let u = parse_issues(issues_json);

    assert!(u.is_ok());

    let issues = u.unwrap();

    assert_eq!(issues.len(), 1);

    let first = issues.first().unwrap();

    assert_eq!(first.status, "Open");

    assert_eq!(first.assignee, "Unassigned");
}

#[test]
fn extracts_first_whole_word_identifier() {
    assert_eq!(extract_ticket_id("fix A-1 bug"), Some(String::from("A-1")));
    assert_eq!(
        extract_ticket_id("A-1 before B-22"),
        Some(String::from("A-1"))
    );
    assert_eq!(extract_ticket_id("see PROJ-123."), Some(String::from("PROJ-123")));
    assert_eq!(extract_ticket_id("unrelated text"), None);
    assert_eq!(extract_ticket_id(""), None);
    // word boundaries: embedded identifiers do not count
    assert_eq!(extract_ticket_id("xA-1"), None);
    assert_eq!(extract_ticket_id("A-1x"), None);
    assert_eq!(extract_ticket_id("A-1_"), None);
    assert_eq!(extract_ticket_id("ABC-12, done"), Some(String::from("ABC-12")));
    // lowercase or missing pieces do not match
    assert_eq!(extract_ticket_id("a-1"), None);
    assert_eq!(extract_ticket_id("A-"), None);
    assert_eq!(extract_ticket_id("-1"), None);
    // a failed start must not hide a later match
    assert_eq!(extract_ticket_id("AB-x then CD-7!"), Some(String::from("CD-7")));
}

#[test]
fn extraction_matches_reference_regex() {
    let re = regex::Regex::new(r"\b[A-Z]+-[0-9]+\b").unwrap();
    let samples = [
        "fix A-1 bug",
        "unrelated",
        "xA-1 A-2",
        "TEAM-100 and TEAM-200",
        "edge A-1x B-2",
        "9A-1 ok",
        "(WRAP-77)",
        "A--1 B-3",
    ];
    for line in samples.iter() {
        let ours = extract_ticket_id(line);
        let theirs = re.find(line).map(|m| String::from(m.as_str()));
        assert_eq!(ours, theirs, "line: {}", line);
    }
}

#[test]
fn cache_round_trip() {
    let tickets = vec![
        ticket("A-1", "say \"hi\" \\ there", "Ann", "Open"),
        ticket("B-2", "plain", "Unassigned", "Done"),
    ];
    let encoded = encode_tickets(&tickets);
    let decoded = decode_tickets(&encoded).unwrap();
    assert_eq!(decoded.len(), 2);
    assert_eq!(decoded[0].id, "A-1");
    assert_eq!(decoded[0].title, "say \"hi\" \\ there");
    assert_eq!(decoded[0].assignee, "Ann");
    assert_eq!(decoded[0].status, "Open");
    assert_eq!(decoded[1].id, "B-2");
}

#[test]
fn cache_round_trip_empty() {
    let tickets: Vec<Ticket> = Vec::new();
    let encoded = encode_tickets(&tickets);
    assert_eq!(encoded, "[]");
    let decoded = decode_tickets(&encoded).unwrap();
    assert_eq!(decoded.len(), 0);
}

#[test]
fn encoded_cache_is_valid_json() {
    let tickets = vec![ticket("A-1", "a \"quoted\" title", "Ann", "Open")];
    let encoded = encode_tickets(&tickets);
    let value: serde_json::Value = serde_json::from_str(&encoded).unwrap();
    let arr = value.as_array().unwrap();
    assert_eq!(arr.len(), 1);
    assert_eq!(arr[0]["id"], "A-1");
    assert_eq!(arr[0]["title"], "a \"quoted\" title");
    assert_eq!(arr[0]["assignee"], "Ann");
    assert_eq!(arr[0]["status"], "Open");
}

#[test]
fn corrupt_cache_is_an_error() {
    assert_eq!(decode_tickets("not json"), Err(CacheError::Corruption));
    assert_eq!(decode_tickets("{"), Err(CacheError::Corruption));
    assert_eq!(decode_tickets("[{\"id\":\"A-1\"}]"), Err(CacheError::Corruption));
    assert_eq!(decode_tickets("[] trailing"), Err(CacheError::Corruption));
    assert_eq!(
        decode_tickets("[{\"id\":\"A-1\",\"title\":\"t\",\"assignee\":\"a\",\"status\":"),
        Err(CacheError::Corruption)
    );
}

#[test]
fn decode_accepts_whitespace_and_any_field_order() {
    let text = "[ {\n  \"status\": \"Open\",\n  \"id\": \"A-1\",\n  \"assignee\": \"Ann\",\n  \"title\": \"T\"\n} ]\n";
    let decoded = decode_tickets(text).unwrap();
    assert_eq!(decoded.len(), 1);
    assert_eq!(decoded[0].id, "A-1");
    assert_eq!(decoded[0].title, "T");
    assert_eq!(decoded[0].status, "Open");
}

#[test]
fn delta_requests_only_missing_ids() {
    let cache = map_of(vec![ticket("A-1", "Bug", "Ann", "Open")]);
    let desired = vec![String::from("A-1"), String::from("A-2")];
    match find_tickets(&desired, &cache) {
        Resolution::Fetch(ids) => assert_eq!(ids, vec![String::from("A-2")]),
        Resolution::Done => panic!("a fetch of A-2 was expected"),
    }
    // duplicates collapse, order of first occurrence is kept
    let desired2 = vec![
        String::from("B-9"),
        String::from("A-1"),
        String::from("B-9"),
        String::from("C-3"),
    ];
    match find_tickets(&desired2, &cache) {
        Resolution::Fetch(ids) => {
            assert_eq!(ids, vec![String::from("B-9"), String::from("C-3")])
        }
        Resolution::Done => panic!("a fetch was expected"),
    }
}

#[test]
fn empty_request_short_circuits() {
    let cache = map_of(vec![ticket("A-1", "Bug", "Ann", "Open")]);
    let desired: Vec<String> = Vec::new();
    match find_tickets(&desired, &cache) {
        Resolution::Done => {}
        Resolution::Fetch(_) => panic!("nothing was requested, so nothing may be fetched"),
    }
}

#[test]
fn duplicate_ids_collapse_to_the_last() {
    let m = map_of(vec![
        ticket("A-1", "first", "Ann", "Open"),
        ticket("A-1", "second", "Ann", "Open"),
    ]);
    assert_eq!(m.entries.len(), 1);
    assert_eq!(m.get("A-1").unwrap().title, "second");
}

#[test]
fn second_resolution_needs_no_fetch() {
    let cache = map_of(vec![ticket("A-1", "Bug", "Ann", "Open")]);
    let desired = vec![String::from("A-1"), String::from("A-2")];
    let found = vec![ticket("A-2", "Other", "Bob", "Done")];
    let merged = merge_found(&cache, &found);
    match find_tickets(&desired, &merged) {
        Resolution::Done => {}
        Resolution::Fetch(_) => panic!("everything is cached; no remote call may happen"),
    }
}

#[test]
fn merge_keeps_old_and_new() {
    let cache = map_of(vec![ticket("A-1", "Bug", "Ann", "Open")]);
    let found = vec![ticket("A-2", "Other", "Bob", "Done")];
    let merged = merge_found(&cache, &found);
    assert!(merged.contains_id("A-1"));
    assert!(merged.contains_id("A-2"));
    // the persisted cache holds both
    let persisted = encode_tickets(&merged.entries);
    let reloaded = decode_tickets(&persisted).unwrap();
    let ids: Vec<&str> = reloaded.iter().map(|t| t.id.as_str()).collect();
    assert!(ids.contains(&"A-1"));
    assert!(ids.contains(&"A-2"));
    assert_eq!(reloaded.len(), 2);
    // a fetched ticket replaces a cached one with the same id
    let merged2 = merge_found(&merged, &vec![ticket("A-1", "Bug again", "Cid", "Done")]);
    assert_eq!(merged2.get("A-1").unwrap().title, "Bug again");
    assert_eq!(merged2.entries.len(), 2);
}

#[test]
fn end_to_end_annotation() {
    let lines = vec![String::from("fix A-1 bug\n"), String::from("unrelated text\n")];
    // extract the candidate ids
    let mut desired: Vec<String> = Vec::new();
    for l in lines.iter() {
        if let Some(id) = Line::new(l).ticket {
            desired.push(id);
        }
    }
    assert_eq!(desired, vec![String::from("A-1")]);
    let cache = TicketMap::new();
    let ids = match find_tickets(&desired, &cache) {
        Resolution::Fetch(ids) => ids,
        Resolution::Done => panic!("the empty cache must miss A-1"),
    };
    assert_eq!(ids, vec![String::from("A-1")]);
    let body = "{\"issues\":[{\"key\":\"A-1\",\"fields\":{\"summary\":\"Bug\",\"assignee\":null,\"status\":{\"name\":\"Open\"}}}]}";
    let found = interpret_response(200, body).unwrap();
    let merged = merge_found(&cache, &found);
    let rendered = process_lines(&lines, &merged);
    assert_eq!(rendered.len(), 2);
    assert_eq!(rendered[0], "fix A-1 bug    \t[A-1  ] Bug / Unassigned / Open");
    assert_eq!(rendered[1], "unrelated text \t");
    // the cache file afterwards holds exactly one entry, for A-1
    let persisted = encode_tickets(&merged.entries);
    let reloaded = decode_tickets(&persisted).unwrap();
    assert_eq!(reloaded.len(), 1);
    assert_eq!(reloaded[0].id, "A-1");
}

#[test]
fn unassigned_assignee_sentinel() {
    // a null assignee resolves to the literal sentinel
    let body = "{\"issues\":[{\"key\":\"A-1\",\"fields\":{\"summary\":\"S\",\"assignee\":null,\"status\":{\"name\":\"Open\"}}}]}";
    let found = parse_issues(body).unwrap();
    assert_eq!(found[0].assignee, "Unassigned");
    // an absent assignee field does too
    let body2 = "{\"issues\":[{\"key\":\"A-1\",\"fields\":{\"summary\":\"S\",\"status\":{\"name\":\"Open\"}}}]}";
    let found2 = parse_issues(body2).unwrap();
    assert_eq!(found2[0].assignee, "Unassigned");
    // a present assignee keeps the display name
    let body3 = "{\"issues\":[{\"key\":\"A-1\",\"fields\":{\"summary\":\"S\",\"assignee\":{\"displayName\":\"Ann\"},\"status\":{\"name\":\"Open\"}}}]}";
    let found3 = parse_issues(body3).unwrap();
    assert_eq!(found3[0].assignee, "Ann");
}

#[test]
fn unresolved_id_renders_empty() {
    let lines = vec![String::from("see Z-9\n")];
    let empty = TicketMap::new();
    let rendered = process_lines(&lines, &empty);
    assert_eq!(rendered, vec![String::from("see Z-9 \t")]);
}

#[test]
fn pretty_string_format() {
    let t = ticket("A-1", "Bug", "Unassigned", "Open");
    assert_eq!(t.as_pretty_string(), "[A-1  ] Bug / Unassigned / Open");
    let long = ticket("PROJECT-123", "T", "Ann", "Done");
    assert_eq!(long.as_pretty_string(), "[PROJECT-123] T / Ann / Done");
}

#[test]
fn jql_and_url_building() {
    let ids = vec![String::from("A-1"), String::from("B-2")];
    assert_eq!(build_jql(&ids), "key in (A-1, B-2)");
    let one = vec![String::from("A-1")];
    assert_eq!(build_jql(&one), "key in (A-1)");
    assert_eq!(
        search_url(&String::from("https://portal.atlassian.net")),
        "https://portal.atlassian.net/rest/api/3/search"
    );
}

#[test]
fn bad_status_is_remote_error() {
    assert_eq!(
        interpret_response(404, "{}"),
        Err(RemoteError::BadStatus(404))
    );
    assert_eq!(
        interpret_response(200, "no json here"),
        Err(RemoteError::MalformedBody)
    );
    assert_eq!(interpret_response(200, "{}"), Err(RemoteError::MalformedBody));
    assert_eq!(interpret_response(200, "{\"issues\":[]}").unwrap().len(), 0);
}

#[test]
fn response_with_escapes_and_unknown_fields() {
    let body = "{\"startAt\":0,\"issues\":[{\"labels\":[1,true,null,{\"x\":[]}],\"key\":\"A-1\",\"fields\":{\"summary\":\"tab\\there \\u0041 quote\\\"\",\"assignee\":{\"extra\":-1.5e3,\"displayName\":\"Ann\"},\"status\":{\"name\":\"In\\nProgress\"}}}],\"total\":1}";
    let found = parse_issues(body).unwrap();
    assert_eq!(found.len(), 1);
    assert_eq!(found[0].id, "A-1");
    assert_eq!(found[0].title, "tab\there A quote\"");
    assert_eq!(found[0].assignee, "Ann");
    assert_eq!(found[0].status, "In\nProgress");
}

#[test]
fn response_missing_required_field_is_error() {
    // no key
    let body = "{\"issues\":[{\"fields\":{\"summary\":\"S\",\"status\":{\"name\":\"Open\"}}}]}";
    assert_eq!(parse_issues(body), Err(RemoteError::MalformedBody));
    // no status name
    let body2 = "{\"issues\":[{\"key\":\"A-1\",\"fields\":{\"summary\":\"S\",\"status\":{}}}]}";
    assert_eq!(parse_issues(body2), Err(RemoteError::MalformedBody));
    // no issues member at all
    assert_eq!(parse_issues("{\"total\":0}"), Err(RemoteError::MalformedBody));
}

#[test]
fn ticket_map_operations() {
    let mut m = TicketMap::new();
    assert!(!m.contains_id("A-1"));
    assert!(m.get("A-1").is_none());
    m.insert(ticket("A-1", "Bug", "Ann", "Open"));
    assert!(m.contains_id("A-1"));
    assert_eq!(m.get("A-1").unwrap().title, "Bug");
    m.insert(ticket("A-1", "Bug v2", "Ann", "Open"));
    assert_eq!(m.entries.len(), 1);
    assert_eq!(m.get("A-1").unwrap().title, "Bug v2");
}
