//! The command language: whitespace-separated words, parsed into statements
//! that are run against a store.
use vstd::prelude::*;
use vstd::string::StringSliceAdditionalSpecFns;
use crate::error::Error;
use crate::record::{Record, RecordView, FIELD_SIZE, stored};
use crate::table::Table;

verus! {

/// The length in bytes of the whitespace character that `s` starts with, or
/// 0 if it starts with none. The whitespace characters are those of Unicode's
/// White_Space property, here in their UTF-8 forms:
/// U+0009 to U+000D and U+0020 (one byte); U+0085 and U+00A0 (two bytes);
/// U+1680, U+2000 to U+200A, U+2028, U+2029, U+202F, U+205F and U+3000
/// (three bytes). Each form begins with an ASCII or a leading byte, so in
/// UTF-8 text a match always begins a whole character.
pub open spec fn space_len(s: Seq<u8>) -> nat {
    if s.len() >= 1 && (s[0] == 0x20 || (0x09 <= s[0] && s[0] <= 0x0d)) {
        1
    } else if s.len() >= 2 && s[0] == 0xc2 && (s[1] == 0x85 || s[1] == 0xa0) {
        2
    } else if s.len() >= 3 && s[0] == 0xe1 && s[1] == 0x9a && s[2] == 0x80 {
        3
    } else if s.len() >= 3 && s[0] == 0xe2 && s[1] == 0x80 && ((0x80 <= s[2] && s[2] <= 0x8a)
        || s[2] == 0xa8 || s[2] == 0xa9 || s[2] == 0xaf) {
        3
    } else if s.len() >= 3 && s[0] == 0xe2 && s[1] == 0x81 && s[2] == 0x9f {
        3
    } else if s.len() >= 3 && s[0] == 0xe3 && s[1] == 0x80 && s[2] == 0x80 {
        3
    } else {
        0
    }
}

/// The words of `s`, given that the word `cur` was being read just before
/// `s`: the maximal runs of bytes that hold no whitespace character.
pub open spec fn words_from(s: Seq<u8>, cur: Seq<u8>) -> Seq<Seq<u8>>
    decreases s.len(),
{
    if s.len() == 0 {
        if cur.len() > 0 {
            seq![cur]
        } else {
            seq![]
        }
    } else if space_len(s) > 0 {
        let rest = words_from(s.skip(space_len(s) as int), seq![]);
        if cur.len() > 0 {
            seq![cur] + rest
        } else {
            rest
        }
    } else {
        words_from(s.drop_first(), cur.push(s[0]))
    }
}

/// The words of `s`, in order: its maximal runs of bytes that hold no
/// whitespace character.
pub open spec fn words(s: Seq<u8>) -> Seq<Seq<u8>> {
    words_from(s, seq![])
}

/// The length of the whitespace character at position `i` of `s`, or 0.
fn space_len_at(s: &[u8], i: usize) -> (r: usize)
    requires
        i <= s@.len(),
    ensures
        r == space_len(s@.skip(i as int)),
{
    let n = s.len() - i;
    let ghost t = s@.skip(i as int);
    assert(n >= 1 ==> t[0] == s@[i as int]);
    assert(n >= 2 ==> t[1] == s@[i + 1]);
    assert(n >= 3 ==> t[2] == s@[i + 2]);
    if n >= 1 && (s[i] == 0x20 || (0x09 <= s[i] && s[i] <= 0x0d)) {
        1
    } else if n >= 2 && s[i] == 0xc2 && (s[i + 1] == 0x85 || s[i + 1] == 0xa0) {
        2
    } else if n >= 3 && s[i] == 0xe1 && s[i + 1] == 0x9a && s[i + 2] == 0x80 {
        3
    } else if n >= 3 && s[i] == 0xe2 && s[i + 1] == 0x80 && ((0x80 <= s[i + 2] && s[i + 2] <= 0x8a)
        || s[i + 2] == 0xa8 || s[i + 2] == 0xa9 || s[i + 2] == 0xaf) {
        3
    } else if n >= 3 && s[i] == 0xe2 && s[i + 1] == 0x81 && s[i + 2] == 0x9f {
        3
    } else if n >= 3 && s[i] == 0xe3 && s[i + 1] == 0x80 && s[i + 2] == 0x80 {
        3
    } else {
        0
    }
}

/// Splits `s` into its words.
fn split_words(s: &[u8]) -> (r: Vec<Vec<u8>>)
    ensures
        r@.len() == words(s@).len(),
        forall|i: int| 0 <= i < r@.len() ==> #[trigger] r@[i]@ == words(s@)[i],
{
    let mut done: Vec<Vec<u8>> = Vec::new();
    let mut cur: Vec<u8> = Vec::new();
    let ghost mut found: Seq<Seq<u8>> = seq![];
    let mut i: usize = 0;
    assert(s@.skip(0) =~= s@);
    while i < s.len()
        invariant
            i <= s@.len(),
            done@.len() == found.len(),
            forall|k: int| 0 <= k < done@.len() ==> #[trigger] done@[k]@ == found[k],
            words(s@) == found + words_from(s@.skip(i as int), cur@),
        decreases s@.len() - i,
    {
        let n = space_len_at(s, i);
        let ghost t = s@.skip(i as int);
        if n > 0 {
            assert(t.skip(n as int) =~= s@.skip(i + n));
            if cur.len() > 0 {
                proof {
                    assert(found.push(cur@) + words_from(s@.skip(i + n), seq![]) =~= found + (seq![cur@]
                        + words_from(s@.skip(i + n), seq![])));
                    found = found.push(cur@);
                }
                done.push(cur);
                cur = Vec::new();
            }
            assert(cur@ =~= seq![]);
            i = i + n;
        } else {
            assert(t.drop_first() =~= s@.skip(i + 1));
            assert(t[0] == s@[i as int]);
            cur.push(s[i]);
            i = i + 1;
        }
    }
    if cur.len() > 0 {
        proof {
            found = found.push(cur@);
        }
        done.push(cur);
    }
    assert(words(s@) =~= found);
    done
}

/// An ASCII decimal digit.
pub open spec fn is_digit(b: u8) -> bool {
    48 <= b && b <= 57
}

/// The number that the decimal digits `d` spell.
pub open spec fn digits_value(d: Seq<u8>) -> nat
    decreases d.len(),
{
    if d.len() == 0 {
        0
    } else {
        digits_value(d.drop_last()) * 10 + (d.last() - 48) as nat
    }
}

/// The digits of a number word: the word without a leading `+`, if it has one.
pub open spec fn unsigned_digits(t: Seq<u8>) -> Seq<u8> {
    if t.len() > 0 && t[0] == 43 {
        t.drop_first()
    } else {
        t
    }
}

/// The identifier that the word `t` spells: an optional `+` and at least one
/// decimal digit, of a value that fits in 64 bits.
pub open spec fn id_spec(t: Seq<u8>) -> Option<u64> {
    let d = unsigned_digits(t);
    if d.len() > 0 && (forall|i: int| 0 <= i < d.len() ==> is_digit(#[trigger] d[i]))
        && digits_value(d) <= u64::MAX {
        Some(digits_value(d) as u64)
    } else {
        None
    }
}

/// More digits never spell a smaller number.
proof fn lemma_digits_monotone(d: Seq<u8>, k: int)
    requires
        0 <= k <= d.len(),
        forall|i: int| 0 <= i < d.len() ==> is_digit(#[trigger] d[i]),
    ensures
        digits_value(d.take(k)) <= digits_value(d),
    decreases d.len(),
{
    if k < d.len() {
        let e = d.drop_last();
        assert(e.take(k) =~= d.take(k));
        assert forall|i: int| 0 <= i < e.len() implies is_digit(#[trigger] e[i]) by {
            assert(e[i] == d[i]);
        }
        lemma_digits_monotone(e, k);
    } else {
        assert(d.take(k) =~= d);
    }
}

/// Reads an identifier word; `None` where it is no number or does not fit
/// in 64 bits.
fn parse_id(t: &Vec<u8>) -> (r: Option<u64>)
    ensures
        r == id_spec(t@),
{
    let start: usize = if t.len() > 0 && t[0] == 43 { 1 } else { 0 };
    let ghost d = unsigned_digits(t@);
    assert(d =~= t@.skip(start as int));
    if start == t.len() {
        return None;
    }
    let mut i: usize = start;
    while i < t.len()
        invariant
            start <= i <= t@.len(),
            d =~= t@.skip(start as int),
            d == unsigned_digits(t@),
            forall|k: int| 0 <= k < i - start ==> is_digit(#[trigger] d[k]),
        decreases t@.len() - i,
    {
        assert(t@[i as int] == d[i - start]);
        if !(48 <= t[i] && t[i] <= 57) {
            assert(!is_digit(d[i - start]));
            return None;
        }
        i = i + 1;
    }
    let mut value: u64 = 0;
    let mut i: usize = start;
    while i < t.len()
        invariant
            start <= i <= t@.len(),
            d =~= t@.skip(start as int),
            d == unsigned_digits(t@),
            forall|k: int| 0 <= k < d.len() ==> is_digit(#[trigger] d[k]),
            value == digits_value(d.take(i - start)),
        decreases t@.len() - i,
    {
        assert(t@[i as int] == d[i - start]);
        assert(is_digit(d[i - start]));
        let digit: u64 = (t[i] - 48) as u64;
        assert(d.take(i - start + 1).drop_last() =~= d.take(i - start));
        assert(d.take(i - start + 1).last() == t@[i as int]);
        assert(digits_value(d.take(i - start + 1)) == value * 10 + digit);
        if value > (u64::MAX - digit) / 10 {
            proof {
                lemma_digits_monotone(d, i - start + 1);
                assert(value * 10 + digit > u64::MAX) by (nonlinear_arith)
                    requires value > (u64::MAX - digit) / 10, digit <= 9;
            }
            return None;
        }
        assert(value * 10 + digit <= u64::MAX) by (nonlinear_arith)
            requires value <= (u64::MAX - digit) / 10, digit <= 9;
        value = value * 10 + digit;
        i = i + 1;
    }
    assert(d.take(d.len() as int) =~= d);
    Some(value)
}

/// The bytes of the word `insert`.
pub open spec fn insert_word() -> Seq<u8> {
    seq![105u8, 110u8, 115u8, 101u8, 114u8, 116u8]
}

/// The bytes of the word `select`.
pub open spec fn select_word() -> Seq<u8> {
    seq![115u8, 101u8, 108u8, 101u8, 99u8, 116u8]
}

/// The bytes of the word `quit`.
pub open spec fn quit_word() -> Seq<u8> {
    seq![113u8, 117u8, 105u8, 116u8]
}

/// The bytes of the word `help`.
pub open spec fn help_word() -> Seq<u8> {
    seq![104u8, 101u8, 108u8, 112u8]
}

/// Whether `w` is the word `insert`.
fn is_insert(w: &Vec<u8>) -> (r: bool)
    ensures
        r == (w@ == insert_word()),
{
    let r = w.len() == 6 && w[0] == 105 && w[1] == 110 && w[2] == 115 && w[3] == 101 && w[4] == 114
        && w[5] == 116;
    if r {
        assert(w@ =~= insert_word());
    }
    r
}

/// Whether `w` is the word `select`.
fn is_select(w: &Vec<u8>) -> (r: bool)
    ensures
        r == (w@ == select_word()),
{
    let r = w.len() == 6 && w[0] == 115 && w[1] == 101 && w[2] == 108 && w[3] == 101 && w[4] == 99
        && w[5] == 116;
    if r {
        assert(w@ =~= select_word());
    }
    r
}

/// Whether `w` is the word `quit`.
fn is_quit(w: &[u8]) -> (r: bool)
    ensures
        r == (w@ == quit_word()),
{
    let r = w.len() == 4 && w[0] == 113 && w[1] == 117 && w[2] == 105 && w[3] == 116;
    if r {
        assert(w@ =~= quit_word());
    }
    r
}

/// Whether `w` is the word `help`.
fn is_help(w: &[u8]) -> (r: bool)
    ensures
        r == (w@ == help_word()),
{
    let r = w.len() == 4 && w[0] == 104 && w[1] == 101 && w[2] == 108 && w[3] == 112;
    if r {
        assert(w@ =~= help_word());
    }
    r
}

/// A parsed command.
pub enum Stmt {
    /// Append a record.
    Insert(Record),
    /// List all records.
    Select,
}

/// The mathematical value of a parsed command.
pub enum StmtView {
    Insert(RecordView),
    Select,
}

impl View for Stmt {
    type V = StmtView;

    open spec fn view(&self) -> StmtView {
        match self {
            Stmt::Insert(r) => StmtView::Insert(r@),
            Stmt::Select => StmtView::Select,
        }
    }
}

/// The meaning of a command line: `insert <id> <username> <email>` or
/// `select`, its words separated by whitespace (see `space_len`).
/// A missing verb, a wrong number of words, an id that is no 64-bit
/// number, or a text field longer than `FIELD_SIZE` bytes is a syntax error;
/// any other verb is unknown.
pub open spec fn parse_spec(line: Seq<u8>) -> Result<StmtView, Error> {
    let w = words(line);
    if w.len() == 0 {
        Err(Error::SyntaxError)
    } else if w[0] == insert_word() {
        if w.len() != 4 {
            Err(Error::SyntaxError)
        } else {
            match id_spec(w[1]) {
                None => Err(Error::SyntaxError),
                Some(id) => if w[2].len() > FIELD_SIZE || w[3].len() > FIELD_SIZE {
                    Err(Error::SyntaxError)
                } else {
                    Ok(StmtView::Insert(RecordView { id, username: w[2], email: w[3] }))
                },
            }
        }
    } else if w[0] == select_word() {
        if w.len() != 1 {
            Err(Error::SyntaxError)
        } else {
            Ok(StmtView::Select)
        }
    } else {
        Err(Error::UnknownCommand)
    }
}

/// Parses one command line.
pub fn parse(stmt: &str) -> (r: Result<Stmt, Error>)
    ensures
        r matches Ok(s) ==> parse_spec(stmt.spec_bytes()) == Ok::<StmtView, Error>(s@),
        r matches Err(e) ==> parse_spec(stmt.spec_bytes()) == Err::<StmtView, Error>(e),
{
    let w = split_words(stmt.as_bytes());
    if w.len() == 0 {
        return Err(Error::SyntaxError);
    }
    if is_insert(&w[0]) {
        if w.len() != 4 {
            return Err(Error::SyntaxError);
        }
        let id = match parse_id(&w[1]) {
            Some(id) => id,
            None => return Err(Error::SyntaxError),
        };
        if w[2].len() > FIELD_SIZE || w[3].len() > FIELD_SIZE {
            return Err(Error::SyntaxError);
        }
        let username = w[2].clone();
        let email = w[3].clone();
        Ok(Stmt::Insert(Record { id, username, email }))
    } else if is_select(&w[0]) {
        if w.len() != 1 {
            return Err(Error::SyntaxError);
        }
        Ok(Stmt::Select)
    } else {
        Err(Error::UnknownCommand)
    }
}

/// A command to the interpreter itself, written after a leading `.`.
#[derive(Debug, Clone, Copy, PartialEq, Eq, Structural)]
pub enum MetaCommand {
    /// `quit`: leave the interpreter.
    Quit,
    /// `help`: list the meta commands.
    Help,
    /// Anything else.
    Unknown,
}

/// The meta command that `cmd` names: exactly the bytes `quit` or `help`,
/// with nothing before or after them.
pub open spec fn meta_spec(cmd: Seq<u8>) -> MetaCommand {
    if cmd == quit_word() {
        MetaCommand::Quit
    } else if cmd == help_word() {
        MetaCommand::Help
    } else {
        MetaCommand::Unknown
    }
}

/// Tells which meta command `command` (the text after the leading `.`) is.
pub fn metacmd(command: &str) -> (r: MetaCommand)
    ensures
        r == meta_spec(command.spec_bytes()),
{
    let bytes = command.as_bytes();
    if is_quit(bytes) {
        MetaCommand::Quit
    } else if is_help(bytes) {
        MetaCommand::Help
    } else {
        MetaCommand::Unknown
    }
}

/// What an input line of the interpreter asks for.
#[derive(Debug, Clone, Copy, PartialEq, Eq, Structural)]
pub enum LineKind {
    /// An empty line: the session ends.
    End,
    /// A line that starts with `.`: a meta command follows.
    Meta,
    /// Any other line: a command for the store.
    Command,
}

/// The kind of an input line, with surrounding whitespace already removed.
pub open spec fn line_kind_spec(line: Seq<u8>) -> LineKind {
    if line.len() == 0 {
        LineKind::End
    } else if line[0] == 46 {
        LineKind::Meta
    } else {
        LineKind::Command
    }
}

/// Tells whether `line` ends the session, is a meta command (it starts with
/// `.`), or is a command for the store.
pub fn classify(line: &str) -> (r: LineKind)
    ensures
        r == line_kind_spec(line.spec_bytes()),
{
    let bytes = line.as_bytes();
    if bytes.len() == 0 {
        LineKind::End
    } else if bytes[0] == 46 {
        LineKind::Meta
    } else {
        LineKind::Command
    }
}

/// What a command that succeeded produced.
pub enum Outcome {
    /// A record was appended.
    Inserted,
    /// The records held, in the order they were appended.
    Selected(Vec<Record>),
}

/// Parses `command` and runs it against `table`. A command that does not
/// parse leaves the store unchanged and returns the parse error; `insert`
/// appends its record unless the store is full; `select` returns every
/// record held.
pub fn execute(command: &str, table: &mut Table) -> (r: Result<Outcome, Error>)
    requires
        old(table).wf(),
    ensures
        final(table).wf(),
        final(table).spec_capacity() == old(table).spec_capacity(),
        parse_spec(command.spec_bytes()) matches Err(e) ==> r == Err::<Outcome, Error>(e)
            && final(table).records() == old(table).records(),
        parse_spec(command.spec_bytes()) matches Ok(StmtView::Insert(rec))
            ==> if old(table).records().len() == old(table).spec_capacity() {
            r == Err::<Outcome, Error>(Error::StoreFull) && final(table).records() == old(table).records()
        } else {
            r matches Ok(Outcome::Inserted) && final(table).records() == old(table).records().push(
                stored(rec),
            )
        },
        parse_spec(command.spec_bytes()) == Ok::<StmtView, Error>(StmtView::Select) ==> final(table).records()
            == old(table).records(),
        parse_spec(command.spec_bytes()) == Ok::<StmtView, Error>(StmtView::Select) ==> (r matches Ok(
            Outcome::Selected(rows),
        ) && rows@.len() == old(table).records().len() && forall|i: int|
            0 <= i < rows@.len() ==> #[trigger] rows@[i]@ == old(table).records()[i]),
{
    match parse(command) {
        Err(e) => Err(e),
        Ok(Stmt::Insert(row)) => match table.insert(&row) {
            Ok(()) => Ok(Outcome::Inserted),
            Err(e) => Err(e),
        },
        Ok(Stmt::Select) => match table.select() {
            Ok(rows) => Ok(Outcome::Selected(rows)),
            Err(e) => Err(e),
        },
    }
}

} // verus!
