use toolkit::schema::{extract_name, parse_statements, schema_blocks_named, statements, wrap_with_drop_if_exists};

#[test]
fn names_after_prefixes() {
    assert_eq!(extract_name("CREATE TABLE foo (id INTEGER)", "CREATE TABLE "), Some("foo"));
    assert_eq!(extract_name("CREATE TABLE foo(id)", "CREATE TABLE "), Some("foo"));
    assert_eq!(extract_name("CREATE TABLE [my table] (id)", "CREATE TABLE "), Some("[my table]"));
    assert_eq!(extract_name("CREATE TABLE [open (id)", "CREATE TABLE "), None);
    assert_eq!(extract_name("CREATE VIEW v", "CREATE TABLE "), None);
    assert_eq!(extract_name("CREATE INDEX idx\tON t(x)", "CREATE INDEX "), Some("idx"));
    assert_eq!(extract_name("CREATE TABLE ", "CREATE TABLE "), Some(""));
}

#[test]
fn drop_before_create() {
    assert_eq!(
        wrap_with_drop_if_exists("  CREATE VIEW v AS SELECT 1"),
        "DROP VIEW IF EXISTS v;\nCREATE VIEW v AS SELECT 1"
    );
    assert_eq!(
        wrap_with_drop_if_exists("CREATE TABLE t (a)"),
        "DROP TABLE IF EXISTS t;\nCREATE TABLE t (a)"
    );
    assert_eq!(
        wrap_with_drop_if_exists("CREATE INDEX i ON t(a)"),
        "DROP INDEX IF EXISTS i;\nCREATE INDEX i ON t(a)"
    );
    assert_eq!(wrap_with_drop_if_exists("\n INSERT INTO t VALUES (1)"), "INSERT INTO t VALUES (1)");
}

#[test]
fn schema_statements() {
    let raw = "-- statement: identify\nCREATE TABLE Identify (identify TEXT);\n\n-- statement:  view \n  CREATE VIEW V AS SELECT * FROM Identify;\n-- statement: \n\n";
    let parsed = parse_statements(raw);
    assert_eq!(parsed.len(), 2);
    assert_eq!(parsed[0].0, "identify");
    assert_eq!(parsed[0].1, "DROP TABLE IF EXISTS Identify;\nCREATE TABLE Identify (identify TEXT);");
    assert_eq!(parsed[1].0, "view");
    assert_eq!(parsed[1].1, "DROP VIEW IF EXISTS V;\nCREATE VIEW V AS SELECT * FROM Identify;");
    assert_eq!(statements(raw), parsed);
    assert!(parse_statements("").is_empty());
}

#[test]
fn schema_block_names_checked() {
    assert!(schema_blocks_named("-- statement: a\nCREATE TABLE A (x);\n-- statement: \n"));
    assert!(schema_blocks_named(""));
    assert!(schema_blocks_named("   \n"));
    assert!(!schema_blocks_named("-- statement: only a name"));
    assert!(!schema_blocks_named("CREATE TABLE A (x);"));
    assert!(!schema_blocks_named("-- statement: a\nCREATE TABLE A (x);\n-- statement: b"));
}
