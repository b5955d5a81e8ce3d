use dispatch_log::world::{active_servers, Player, Server, Station};

fn server(code: &str, active: bool) -> Server {
    Server {
        server_name: format!("{code} name"),
        server_code: code.to_string(),
        is_active: active,
    }
}

#[test]
fn active_servers_keeps_only_active_ones_in_order() {
    let servers = vec![
        server("en1", true),
        server("de1", false),
        server("fr1", true),
        server("pl1", false),
    ];
    let active = active_servers(&servers);
    let codes: Vec<&str> = active.iter().map(|s| s.server_code.as_str()).collect();
    assert_eq!(codes, vec!["en1", "fr1"]);
    assert!(active.iter().all(|s| s.is_active));
}

#[test]
fn active_servers_of_nothing_is_nothing() {
    assert!(active_servers(&vec![]).is_empty());
    assert!(active_servers(&vec![server("en1", false)]).is_empty());
}

#[test]
fn controller_is_first_dispatcher_or_bot() {
    let manned = Station {
        name: "Katowice".to_string(),
        prefix: "KO".to_string(),
        dispatched_by: vec![
            Player { steam_id: "765000".to_string() },
            Player { steam_id: "765001".to_string() },
        ],
    };
    assert_eq!(manned.controller_of(), "765000");

    let unmanned = Station {
        name: "Warszawa".to_string(),
        prefix: "WR".to_string(),
        dispatched_by: vec![],
    };
    assert_eq!(unmanned.controller_of(), "BOT");
}
