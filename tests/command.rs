use kvlog::command::Command;

fn show(c: Command) -> String {
    match c {
        Command::Get(k) => format!("get {}", k),
        Command::Put(k, v) => format!("put {} {}", k, v),
        Command::Delete(k) => format!("delete {}", k),
        Command::Unknown => "unknown".to_string(),
    }
}

#[test]
fn parse_get() {
    assert_eq!(show(Command::parse("GET key1\n")), "get key1");
}

#[test]
fn parse_set_keeps_spaces_in_value() {
    assert_eq!(show(Command::parse("  SET k hello big world \r\n")), "put k hello big world");
}

#[test]
fn parse_delete() {
    assert_eq!(show(Command::parse("DELETE k")), "delete k");
}

#[test]
fn parse_unknown_forms() {
    assert_eq!(show(Command::parse("GET")), "unknown");
    assert_eq!(show(Command::parse("GET a b")), "unknown");
    assert_eq!(show(Command::parse("SET a")), "unknown");
    assert_eq!(show(Command::parse("get a")), "unknown");
    assert_eq!(show(Command::parse("")), "unknown");
    assert_eq!(show(Command::parse("PING")), "unknown");
}

#[test]
fn parse_trimmed_does_not_trim() {
    assert_eq!(show(Command::parse_trimmed("GET  a")), "unknown");
    assert_eq!(show(Command::parse_trimmed("SET a ")), "put a ");
}
