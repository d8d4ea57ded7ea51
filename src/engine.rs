use vstd::prelude::*;

use crate::literal::{header, header_line, render_insert_rows, render_rows, text_bytes, Literal};

verus! {

/// A parsed statement of the dump, as far as the conversion reads it.
#[derive(Debug)]
pub enum Statement {
    /// `CREATE TABLE name (columns...)`.
    CreateTable { name: String, columns: Vec<String> },
    /// `INSERT INTO table_name VALUES (row), (row), ...`.
    Insert { table_name: String, rows: Vec<Vec<Literal>> },
    /// Any other statement, which the conversion passes over.
    Other,
}

/// What the statement source hands over on one request.
#[derive(Debug)]
pub enum SourceEvent {
    /// The next statement of the dump.
    Parsed(Statement),
    /// The dump holds no more statements.
    EndOfStream,
    /// The parser could not read the next statement.
    SyntaxError(String),
}

/// What the caller must do with its sinks after one event.
#[derive(Debug)]
pub enum Action {
    /// Create or truncate the sink of `table`, then write `header` to it.
    OpenTable { table: String, header: Vec<u8> },
    /// Append `bytes` to the sink of `table`.
    Append { table: String, bytes: Vec<u8> },
    /// Nothing to write; ask for the next event.
    Skip,
    /// The source is exhausted: flush and close every sink.
    Finish,
}

/// Why a run stops before the end of the source.
#[derive(Debug, PartialEq, Eq)]
pub enum ConversionError {
    /// The source reported a syntax error that is not the end of the stream.
    Syntax(String),
    /// An `INSERT` names a table that no `CREATE TABLE` declared before it.
    UndeclaredTable(String),
}

/// The bytes of `EOF`, whose presence marks a parser error as the end of the input.
pub open spec fn eof_marker() -> Seq<u8> {
    seq![69u8, 79u8, 70u8]
}

/// `b` holds `EOF` at some position.
pub open spec fn mentions_eof(b: Seq<u8>) -> bool {
    exists|i: int| 0 <= i && i + 3 <= b.len() && #[trigger] b.subrange(i, i + 3) == eof_marker()
}

/// The event that a parser error with this message stands for.
pub open spec fn event_of_parser_error(message: String) -> SourceEvent {
    if mentions_eof(text_bytes(message@)) {
        SourceEvent::EndOfStream
    } else {
        SourceEvent::SyntaxError(message)
    }
}

/// Tells the clean end of the input from a real syntax error: a parser error
/// whose message mentions `EOF` ends the stream.
pub fn classify_parser_error(message: String) -> (r: SourceEvent)
    ensures
        r == event_of_parser_error(message),
{
    let found = {
        let b = message.as_str().as_bytes();
        let n = b.len();
        let mut found = false;
        let mut i: usize = 0;
        while i < n && n - i >= 3
            invariant
                n == b@.len(),
                i <= n,
                found ==> mentions_eof(b@),
                !found ==> forall|k: int|
                    0 <= k < i && k + 3 <= n ==> #[trigger] b@.subrange(k, k + 3) != eof_marker(),
            decreases n - i,
        {
            if b[i] == 69u8 && b[i + 1] == 79u8 && b[i + 2] == 70u8 {
                assert(b@.subrange(i as int, i + 3) =~= eof_marker());
                found = true;
                i = n;
            } else {
                assert(b@.subrange(i as int, i + 3)[0] == b[i as int]);
                assert(b@.subrange(i as int, i + 3)[1] == b[i + 1]);
                assert(b@.subrange(i as int, i + 3)[2] == b[i + 2]);
                i = i + 1;
            }
        }
        found
    };
    if found {
        SourceEvent::EndOfStream
    } else {
        SourceEvent::SyntaxError(message)
    }
}

/// The registry after a `CREATE TABLE name`: the name is added once.
pub open spec fn declare(names: Seq<Seq<char>>, name: Seq<char>) -> Seq<Seq<char>> {
    if names.contains(name) {
        names
    } else {
        names.push(name)
    }
}

/// `r` opens the sink of `name` and writes `head` to it.
pub open spec fn opens(r: Result<Action, ConversionError>, name: Seq<char>, head: Seq<u8>) -> bool {
    match r {
        Ok(Action::OpenTable { table, header }) => table@ == name && header@ == head,
        _ => false,
    }
}

/// `r` appends `bytes` to the sink of `name`.
pub open spec fn appends(r: Result<Action, ConversionError>, name: Seq<char>, bytes: Seq<u8>) -> bool {
    match r {
        Ok(Action::Append { table, bytes: b }) => table@ == name && b@ == bytes,
        _ => false,
    }
}

/// The conversion engine: the registry of the tables declared so far.
/// The sinks themselves belong to the caller, which performs the actions.
pub struct Engine {
    tables: Vec<String>,
}

impl Engine {
    /// The names of the declared tables, in the order of their first declaration.
    pub closed spec fn names(&self) -> Seq<Seq<char>> {
        self.tables@.map_values(|t: String| t@)
    }

    /// Each table name is registered once.
    pub closed spec fn wf(&self) -> bool {
        self.names().no_duplicates()
    }

    /// An engine with no table declared.
    pub fn new() -> (r: Engine)
        ensures
            r.wf(),
            r.names() == Seq::<Seq<char>>::empty(),
    {
        let r = Engine { tables: Vec::new() };
        assert(r.names() =~= Seq::<Seq<char>>::empty());
        r
    }

    /// Whether a `CREATE TABLE` for `name` has been seen.
    pub fn is_declared(&self, name: &String) -> (r: bool)
        ensures
            r == self.names().contains(name@),
    {
        let n = self.tables.len();
        let mut i: usize = 0;
        while i < n
            invariant
                n == self.tables@.len(),
                i <= n,
                forall|k: int| 0 <= k < i ==> self.names()[k] != name@,
            decreases n - i,
        {
            if self.tables[i] == *name {
                assert(self.names()[i as int] == name@);
                return true;
            }
            i = i + 1;
        }
        false
    }

    /// Decides what one event from the statement source asks of the sinks.
    /// A `CREATE TABLE` (re)opens its table's sink with a header line, also
    /// when the table was declared before; an `INSERT` appends its rows to a
    /// declared table; the end of the stream finishes the run; a syntax error
    /// or an `INSERT` into an undeclared table stops it.
    pub fn next_action(&mut self, event: SourceEvent) -> (r: Result<Action, ConversionError>)
        requires
            old(self).wf(),
        ensures
            final(self).wf(),
            match event {
                SourceEvent::EndOfStream => r == Ok::<Action, ConversionError>(Action::Finish)
                    && final(self).names() == old(self).names(),
                SourceEvent::SyntaxError(m) => r == Err::<Action, ConversionError>(
                    ConversionError::Syntax(m),
                ) && final(self).names() == old(self).names(),
                SourceEvent::Parsed(Statement::CreateTable { name, columns }) => opens(
                    r,
                    name@,
                    header_line(columns@),
                ) && final(self).names() == declare(old(self).names(), name@),
                SourceEvent::Parsed(Statement::Insert { table_name, rows }) => (if old(
                    self,
                ).names().contains(table_name@) {
                    appends(r, table_name@, render_rows(rows@))
                } else {
                    r == Err::<Action, ConversionError>(
                        ConversionError::UndeclaredTable(table_name),
                    )
                }) && final(self).names() == old(self).names(),
                SourceEvent::Parsed(Statement::Other) => r == Ok::<Action, ConversionError>(
                    Action::Skip,
                ) && final(self).names() == old(self).names(),
            },
    {
        match event {
            SourceEvent::EndOfStream => Ok(Action::Finish),
            SourceEvent::SyntaxError(m) => Err(ConversionError::Syntax(m)),
            SourceEvent::Parsed(Statement::CreateTable { name, columns }) => {
                let head = header(&columns);
                if !self.is_declared(&name) {
                    let ghost before = self.names();
                    self.tables.push(name.clone());
                    assert(self.names() =~= before.push(name@));
                    assert(self.names().no_duplicates()) by {
                        assert forall|a: int, b: int|
                            0 <= a < b < self.names().len() implies self.names()[a]
                            != self.names()[b] by {
                            if b == before.len() {
                                assert(before[a] != name@);
                            }
                        }
                    }
                }
                Ok(Action::OpenTable { table: name, header: head })
            },
            SourceEvent::Parsed(Statement::Insert { table_name, rows }) => {
                if self.is_declared(&table_name) {
                    let bytes = render_insert_rows(&rows);
                    Ok(Action::Append { table: table_name, bytes })
                } else {
                    Err(ConversionError::UndeclaredTable(table_name))
                }
            },
            SourceEvent::Parsed(Statement::Other) => Ok(Action::Skip),
        }
    }
}

} // verus!
