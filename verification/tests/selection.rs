use speedtest_rs::server::{
    candidate_servers, parse_servers, select_best_server, OoklaServer, ServerEntry, ServerError,
    ServerProbe,
};

fn server(tag: &str) -> OoklaServer {
    OoklaServer {
        url: format!("http://{}/speedtest/upload.php", tag),
        name: format!("name-{}", tag),
        sponsor: format!("sponsor-{}", tag),
    }
}

fn probe(tag: &str, samples: Vec<u64>) -> ServerProbe {
    ServerProbe { server: server(tag), samples }
}

#[test]
fn parse_servers_takes_complete_entries_among_first_five() {
    let text = r#"[
        {"url": "http://a/s/upload.php", "name": "A", "sponsor": "SA", "id": 1},
        {"url": "http://b/s/upload.php", "name": "B"},
        {"url": 7, "name": "C", "sponsor": "SC"},
        {"url": "http://d/s/upload.php", "name": "D", "sponsor": "SD"},
        {"url": "http://e/s/upload.php", "name": "E", "sponsor": "SE"},
        {"url": "http://f/s/upload.php", "name": "F", "sponsor": "SF"}
    ]"#;
    let c = parse_servers(text).unwrap();
    let names: Vec<&str> = c.iter().map(|s| s.name.as_str()).collect();
    assert_eq!(names, vec!["A", "D", "E"]);
    assert_eq!(c[0].url, "http://a/s/upload.php");
    assert_eq!(c[2].sponsor, "SE");
}

#[test]
fn parse_servers_errors() {
    assert!(matches!(parse_servers("not json"), Err(ServerError::InvalidJson(_))));
    assert!(matches!(parse_servers(r#"{"url": "x"}"#), Err(ServerError::InvalidJson(_))));
    assert!(matches!(parse_servers("[]"), Err(ServerError::NoServers)));
    assert!(matches!(parse_servers(r#"[{"url": "x", "name": "n"}, 3, null]"#), Err(ServerError::NoServers)));
}

#[test]
fn parse_error_is_carried() {
    match parse_servers("[1, 2") {
        Err(ServerError::InvalidJson(e)) => assert!(e.is_eof()),
        _ => panic!("expected a parse error"),
    }
}

#[test]
fn candidate_servers_from_entries() {
    let e = |u: Option<&str>| ServerEntry {
        url: u.map(String::from),
        name: Some("n".to_string()),
        sponsor: Some("s".to_string()),
    };
    let entries = vec![e(None), e(Some("u1")), e(Some("u2"))];
    let c = candidate_servers(&entries);
    assert_eq!(c.len(), 2);
    assert_eq!(c[0].url, "u1");
    assert_eq!(c[1].url, "u2");
}

#[test]
fn best_server_has_least_mean() {
    let probes = vec![
        probe("a", vec![30, 40, 50]),
        probe("b", vec![]),
        probe("c", vec![10, 20]),
        probe("d", vec![16, 14, 14]),
    ];
    let best = select_best_server(probes).unwrap();
    assert_eq!(best.name, "name-d");
}

#[test]
fn best_server_ties_keep_the_first() {
    let probes = vec![
        probe("a", vec![20, 40]),
        probe("b", vec![30]),
        probe("c", vec![30, 30, 30]),
    ];
    assert_eq!(select_best_server(probes).unwrap().name, "name-a");
}

#[test]
fn best_server_compares_exact_means() {
    // 10/3 < 7/2 even though both round down to 3
    let probes = vec![probe("a", vec![3, 4]), probe("b", vec![3, 3, 4])];
    assert_eq!(select_best_server(probes).unwrap().name, "name-b");
    let probes = vec![probe("a", vec![u64::MAX, u64::MAX, 1]), probe("b", vec![u64::MAX, u64::MAX - 1])];
    assert_eq!(select_best_server(probes).unwrap().name, "name-a");
}

#[test]
fn no_response_when_no_probe_answered() {
    assert!(matches!(select_best_server(vec![]), Err(ServerError::NoResponse)));
    assert!(matches!(select_best_server(vec![probe("a", vec![]), probe("b", vec![])]), Err(ServerError::NoResponse)));
}
