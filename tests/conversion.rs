use std::collections::BTreeMap;

use dump_tsv::engine::{
    classify_parser_error, Action, ConversionError, Engine, SourceEvent, Statement,
};
use dump_tsv::escape::write_escaped;
use dump_tsv::literal::{header, render_insert_rows, string_of_col, write_row, Literal};

fn create(name: &str, columns: &[&str]) -> SourceEvent {
    SourceEvent::Parsed(Statement::CreateTable {
        name: name.to_string(),
        columns: columns.iter().map(|c| c.to_string()).collect(),
    })
}

fn insert(name: &str, rows: Vec<Vec<Literal>>) -> SourceEvent {
    SourceEvent::Parsed(Statement::Insert { table_name: name.to_string(), rows })
}

fn num(s: &str) -> Literal {
    Literal::Number(s.to_string())
}

fn text(s: &str) -> Literal {
    Literal::QuotedString(s.to_string())
}

/// Runs the events through an engine, keeping each table's file in memory.
fn run(events: Vec<SourceEvent>) -> Result<BTreeMap<String, Vec<u8>>, ConversionError> {
    let mut engine = Engine::new();
    let mut files: BTreeMap<String, Vec<u8>> = BTreeMap::new();
    for event in events {
        match engine.next_action(event)? {
            Action::OpenTable { table, header } => {
                files.insert(table, header);
            }
            Action::Append { table, bytes } => {
                files.get_mut(&table).unwrap().extend_from_slice(&bytes);
            }
            Action::Skip => {}
            Action::Finish => break,
        }
    }
    Ok(files)
}

fn escaped(bytes: &[u8]) -> Vec<u8> {
    let mut out = Vec::new();
    write_escaped(bytes, &mut out);
    out
}

fn rendered(lit: &Literal) -> Vec<u8> {
    let mut out = Vec::new();
    string_of_col(lit, &mut out);
    out
}

fn unescape(t: &[u8]) -> Vec<u8> {
    let mut out = Vec::new();
    let mut i = 0;
    while i < t.len() {
        if t[i] == b'\\' && i + 1 < t.len() && matches!(t[i + 1], b't' | b'n' | b'r') {
            out.push(match t[i + 1] {
                b't' => b'\t',
                b'n' => b'\n',
                _ => b'\r',
            });
            i += 2;
        } else {
            out.push(t[i]);
            i += 1;
        }
    }
    out
}

#[test]
fn escapes_control_bytes() {
    assert_eq!(escaped(b"a\tb\nc\rd"), b"a\\tb\\nc\\rd\t".to_vec());
}

#[test]
fn escape_passes_other_bytes_through() {
    assert_eq!(escaped("é\\x".as_bytes()), "é\\x\t".as_bytes().to_vec());
    assert_eq!(escaped(b""), b"\t".to_vec());
}

#[test]
fn escape_appends_to_existing_output() {
    let mut out = b"id\t".to_vec();
    write_escaped(b"7", &mut out);
    assert_eq!(out, b"id\t7\t".to_vec());
}

#[test]
fn rendering_is_deterministic() {
    let lits = vec![num("3.50"), Literal::NegativeNumber("2".to_string()), text("x\ty"), Literal::Null];
    for lit in &lits {
        assert_eq!(rendered(lit), rendered(lit));
    }
    let mut out = Vec::new();
    string_of_col(&lits[2], &mut out);
    string_of_col(&lits[2], &mut out);
    assert_eq!(out, b"x\\ty\tx\\ty\t".to_vec());
}

#[test]
fn escape_round_trip() {
    let inputs: Vec<&[u8]> = vec![b"", b"plain", b"a\tb\nc\rd", b"\\\t", b"back\\slash", "ü\n".as_bytes()];
    for input in inputs {
        let mut out = escaped(input);
        assert_eq!(out.pop(), Some(b'\t'));
        assert_eq!(unescape(&out), input.to_vec());
    }
}

#[test]
fn literal_forms() {
    assert_eq!(rendered(&num("0012.50")), b"0012.50\t".to_vec());
    assert_eq!(rendered(&Literal::NegativeNumber("7".to_string())), b"-7\t".to_vec());
    assert_eq!(rendered(&text("")), b"\t".to_vec());
    assert_eq!(rendered(&Literal::Null), b"null\t".to_vec());
}

#[test]
fn header_has_trailing_tab() {
    let cols = vec!["id".to_string(), "name".to_string()];
    assert_eq!(header(&cols), b"id\tname\t\n".to_vec());
    assert_eq!(header(&Vec::new()), b"\n".to_vec());
}

#[test]
fn header_only_table() {
    let files = run(vec![create("t", &["id", "name"]), insert("t", vec![])]).unwrap();
    assert_eq!(files["t"], b"id\tname\t\n".to_vec());
    assert_eq!(render_insert_rows(&Vec::new()), Vec::<u8>::new());
}

#[test]
fn one_row_table() {
    let files = run(vec![
        create("t", &["id", "name"]),
        insert("t", vec![vec![num("42"), text("ab")]]),
    ])
    .unwrap();
    assert_eq!(files["t"], b"id\tname\t\n42\tab\t\n".to_vec());
}

#[test]
fn null_and_negative_row() {
    let mut out = Vec::new();
    write_row(&vec![Literal::Null, Literal::NegativeNumber("7".to_string())], &mut out);
    assert_eq!(out, b"null\t-7\t\n".to_vec());
}

#[test]
fn string_with_tab_and_newline() {
    assert_eq!(rendered(&text("a\tb\nc")), b"a\\tb\\nc\t".to_vec());
}

#[test]
fn second_create_truncates() {
    let files = run(vec![
        create("t", &["a"]),
        insert("t", vec![vec![num("1")]]),
        create("t", &["b", "c"]),
        insert("t", vec![vec![num("2"), num("3")]]),
    ])
    .unwrap();
    assert_eq!(files["t"], b"b\tc\t\n2\t3\t\n".to_vec());
    assert_eq!(files.len(), 1);
}

#[test]
fn insert_into_undeclared_table_fails() {
    let r = run(vec![create("a", &["x"]), insert("b", vec![vec![num("1")]])]);
    assert_eq!(r, Err(ConversionError::UndeclaredTable("b".to_string())));
}

#[test]
fn two_tables_end_to_end() {
    let files = run(vec![
        create("users", &["id", "name"]),
        create("scores", &["user", "score"]),
        insert("users", vec![vec![num("1"), text("ann")], vec![num("2"), text("bo\tb")]]),
        insert("scores", vec![vec![num("1"), num("9.5")], vec![num("2"), Literal::NegativeNumber("3".to_string())]]),
        SourceEvent::Parsed(Statement::Other),
        insert("users", vec![vec![num("3"), Literal::Null]]),
        insert("scores", vec![vec![num("3"), num("0")], vec![num("1"), num("4")]]),
        SourceEvent::EndOfStream,
        insert("users", vec![vec![num("99"), text("late")]]),
    ])
    .unwrap();
    assert_eq!(files.len(), 2);
    assert_eq!(files["users"], b"id\tname\t\n1\tann\t\n2\tbo\\tb\t\n3\tnull\t\n".to_vec());
    assert_eq!(files["scores"], b"user\tscore\t\n1\t9.5\t\n2\t-3\t\n3\t0\t\n1\t4\t\n".to_vec());
}

#[test]
fn end_of_stream_finishes() {
    let mut engine = Engine::new();
    assert!(matches!(engine.next_action(SourceEvent::EndOfStream), Ok(Action::Finish)));
    assert!(matches!(engine.next_action(SourceEvent::Parsed(Statement::Other)), Ok(Action::Skip)));
}

#[test]
fn syntax_error_stops_the_run() {
    let r = run(vec![
        create("t", &["a"]),
        SourceEvent::SyntaxError("Expected: ), found: ;".to_string()),
        insert("t", vec![vec![num("1")]]),
    ]);
    assert_eq!(r, Err(ConversionError::Syntax("Expected: ), found: ;".to_string())));
}

#[test]
fn parser_errors_are_classified() {
    assert!(matches!(
        classify_parser_error("sql parser error: Expected: an SQL statement, found: EOF".to_string()),
        SourceEvent::EndOfStream
    ));
    match classify_parser_error("Expected: ), found: ;".to_string()) {
        SourceEvent::SyntaxError(m) => assert_eq!(m, "Expected: ), found: ;"),
        other => panic!("unexpected {:?}", other),
    }
    assert!(matches!(classify_parser_error("EO".to_string()), SourceEvent::SyntaxError(_)));
    assert!(matches!(classify_parser_error("EOF".to_string()), SourceEvent::EndOfStream));
}

#[test]
fn declared_tables_are_remembered() {
    let mut engine = Engine::new();
    assert!(!engine.is_declared(&"t".to_string()));
    engine.next_action(create("t", &["a"])).unwrap();
    engine.next_action(create("t", &["a"])).unwrap();
    assert!(engine.is_declared(&"t".to_string()));
    assert!(!engine.is_declared(&"u".to_string()));
}
