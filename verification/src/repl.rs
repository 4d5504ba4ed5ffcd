//! What the interactive shell computes: the prompt, the command that a
//! line gives, and the text of an answer.

use vstd::prelude::*;
use vstd::string::StringExecFns;
use crate::api::Enso;
use crate::error::DbError;
use crate::keys::str_eq;
use crate::pretty::{pretty_rows, table_of, table_widths};
use crate::decimal::{decimal, format_u64};
use crate::sql::ast::QueryResult;
use crate::sql::lexer::{is_whitespace, run_end, whitespace};
use crate::text::{string_of, to_chars};

verus! {

/// The first position at or before `end` from which on every character up
/// to `end` meets `pred`.
pub open spec fn run_start(input: Seq<char>, end: int, pred: spec_fn(char) -> bool) -> int
    decreases end,
{
    if 0 < end <= input.len() && pred(input[end - 1]) {
        run_start(input, end - 1, pred)
    } else {
        end
    }
}

/// `s` without the white space at its beginning and at its end.
pub open spec fn trimmed(s: Seq<char>) -> Seq<char> {
    let from = run_end(s, 0, |c: char| whitespace(c));
    let to = run_start(s, s.len() as int, |c: char| whitespace(c));
    if from < to {
        s.subrange(from, to)
    } else {
        Seq::empty()
    }
}

/// `s` without the semicolons at its end.
pub open spec fn without_semicolons(s: Seq<char>) -> Seq<char> {
    s.subrange(0, run_start(s, s.len() as int, |c: char| c == ';'))
}

/// A line as the shell takes it: trimmed, without the semicolons at its
/// end, and trimmed again.
pub open spec fn normalized(s: Seq<char>) -> Seq<char> {
    trimmed(without_semicolons(trimmed(s)))
}

/// A backward run begins where the character before does not meet the
/// predicate and every character after does.
pub proof fn lemma_run_start(input: Seq<char>, from: int, to: int, pred: spec_fn(char) -> bool)
    requires
        0 <= from <= to <= input.len(),
        forall|i: int| from <= i < to ==> pred(input[i]),
        from == 0 || !pred(input[from - 1]),
    ensures
        run_start(input, to, pred) == from,
    decreases to - from,
{
    if from < to {
        lemma_run_start(input, from, to - 1, pred);
    }
}

/// `chars` without the white space at its beginning and at its end.
pub fn trim_chars(chars: &Vec<char>) -> (res: Vec<char>)
    ensures
        res@ == trimmed(chars@),
{
    let n = chars.len();
    let mut from: usize = 0;
    while from < n && is_whitespace(chars[from])
        invariant
            n == chars@.len(),
            from <= n,
            forall|i: int| 0 <= i < from ==> whitespace(chars@[i]),
        decreases n - from,
    {
        from += 1;
    }
    proof {
        lemma_run_end_here(chars@, 0, from as int);
    }
    let mut to: usize = n;
    while to > 0 && is_whitespace(chars[to - 1])
        invariant
            n == chars@.len(),
            to <= n,
            forall|i: int| to <= i < n ==> whitespace(chars@[i]),
        decreases to,
    {
        to -= 1;
    }
    proof {
        lemma_run_start(chars@, to as int, n as int, |c: char| whitespace(c));
    }
    let mut res: Vec<char> = Vec::new();
    if from < to {
        let mut i: usize = from;
        while i < to
            invariant
                from <= i <= to <= chars@.len(),
                res@ == chars@.subrange(from as int, i as int),
            decreases to - i,
        {
            res.push(chars[i]);
            i += 1;
            assert(res@ =~= chars@.subrange(from as int, i as int));
        }
    }
    res
}

/// A run of white space from `from` ends at `to` where every character
/// between is white space and the one at `to` is not.
pub proof fn lemma_run_end_here(input: Seq<char>, from: int, to: int)
    requires
        0 <= from <= to <= input.len(),
        forall|i: int| from <= i < to ==> whitespace(input[i]),
        to == input.len() || !whitespace(input[to]),
    ensures
        run_end(input, from, |c: char| whitespace(c)) == to,
{
    crate::sql::lexer::lemma_run_end(input, from, to, |c: char| whitespace(c));
}

/// `chars` without the semicolons at its end.
pub fn strip_semicolons(chars: &Vec<char>) -> (res: Vec<char>)
    ensures
        res@ == without_semicolons(chars@),
{
    let n = chars.len();
    let mut to: usize = n;
    while to > 0 && chars[to - 1] == ';'
        invariant
            n == chars@.len(),
            to <= n,
            forall|i: int| to <= i < n ==> chars@[i] == ';',
        decreases to,
    {
        to -= 1;
    }
    proof {
        lemma_run_start(chars@, to as int, n as int, |c: char| c == ';');
    }
    let mut res: Vec<char> = Vec::new();
    let mut i: usize = 0;
    while i < to
        invariant
            i <= to <= chars@.len(),
            res@ == chars@.subrange(0, i as int),
        decreases to - i,
    {
        res.push(chars[i]);
        i += 1;
        assert(res@ =~= chars@.subrange(0, i as int));
    }
    res
}

/// A line as the shell takes it: trimmed, without the semicolons at its
/// end, and trimmed again.
pub fn normalize_input(input: &str) -> (res: String)
    ensures
        res@ == normalized(input@),
{
    let chars = to_chars(input);
    let first = trim_chars(&chars);
    let bare = strip_semicolons(&first);
    let last = trim_chars(&bare);
    let res = string_of(&last, 0, last.len());
    assert(last@.subrange(0, last@.len() as int) =~= last@);
    res
}

/// The words of `s` from `pos` on: the runs of characters that are no
/// white space.
pub open spec fn words_from(s: Seq<char>, pos: int) -> Seq<Seq<char>>
    decreases s.len() - pos,
{
    let start = run_end(s, pos, |c: char| whitespace(c));
    if start < 0 || start >= s.len() {
        Seq::empty()
    } else {
        let end = run_end(s, start, |c: char| !whitespace(c));
        if pos <= start < end <= s.len() {
            seq![s.subrange(start, end)] + words_from(s, end)
        } else {
            Seq::empty()
        }
    }
}

/// The words of `chars`.
pub fn split_words(chars: &Vec<char>) -> (res: Vec<String>)
    ensures
        res@.len() == words_from(chars@, 0).len(),
        forall|i: int| 0 <= i < res@.len() ==> (#[trigger] res@[i])@ == words_from(chars@, 0)[i],
{
    let n = chars.len();
    let mut res: Vec<String> = Vec::new();
    let ghost mut acc: Seq<Seq<char>> = Seq::empty();
    let mut pos: usize = 0;
    loop
        invariant
            n == chars@.len(),
            pos <= n,
            acc.len() == res@.len(),
            forall|i: int| 0 <= i < res@.len() ==> (#[trigger] res@[i])@ == acc[i],
            words_from(chars@, 0) == acc + words_from(chars@, pos as int),
        decreases n - pos,
    {
        let mut start: usize = pos;
        while start < n && is_whitespace(chars[start])
            invariant
                n == chars@.len(),
                pos <= start <= n,
                forall|i: int| pos <= i < start ==> whitespace(chars@[i]),
            decreases n - start,
        {
            start += 1;
        }
        proof {
            lemma_run_end_here(chars@, pos as int, start as int);
        }
        if start >= n {
            proof {
                assert(acc + Seq::<Seq<char>>::empty() =~= acc);
            }
            return res;
        }
        let mut end: usize = start;
        while end < n && !is_whitespace(chars[end])
            invariant
                n == chars@.len(),
                start <= end <= n,
                forall|i: int| start <= i < end ==> !whitespace(chars@[i]),
            decreases n - end,
        {
            end += 1;
        }
        proof {
            crate::sql::lexer::lemma_run_end(
                chars@,
                start as int,
                end as int,
                |c: char| !whitespace(c),
            );
            let word = chars@.subrange(start as int, end as int);
            assert(acc + (seq![word] + words_from(chars@, end as int)) =~= acc.push(word)
                + words_from(chars@, end as int));
        }
        let word = string_of(chars, start, end);
        let ghost before = res@;
        res.push(word);
        proof {
            acc = acc.push(chars@.subrange(start as int, end as int));
            assert forall|i: int| 0 <= i < res@.len() implies (#[trigger] res@[i])@ == acc[i] by {
                if i < before.len() {
                    assert(res@[i] == before[i]);
                }
            }
        }
        pos = end;
    }
}

/// What a line of the shell asks for, if it begins with a dot.
#[derive(Debug, Clone, PartialEq, Eq)]
pub enum MetaCommand {
    /// The line begins with no dot: it is a statement.
    NotMeta,
    Exit,
    Open(String),
    Help,
    Unknown,
}

/// What a line of the shell asks for, as mathematics.
pub ghost enum MetaView {
    NotMeta,
    Exit,
    Open(Seq<char>),
    Help,
    Unknown,
}

/// What the line `line` asks for: no command where it begins with no dot;
/// else, by the words of the normalized line, `.exit`, `.open` with a name,
/// `.help`, or an unknown command.
pub open spec fn meta_of(line: Seq<char>) -> MetaView {
    if line.len() == 0 || line[0] != '.' {
        MetaView::NotMeta
    } else {
        let words = words_from(normalized(line), 0);
        if words.len() == 1 && words[0] == ".exit"@ {
            MetaView::Exit
        } else if words.len() == 2 && words[0] == ".open"@ {
            MetaView::Open(words[1])
        } else if words.len() == 1 && words[0] == ".help"@ {
            MetaView::Help
        } else {
            MetaView::Unknown
        }
    }
}

/// What the line `line` asks for.
pub fn parse_meta_command(line: &str) -> (res: MetaCommand)
    ensures
        match res {
            MetaCommand::NotMeta => meta_of(line@) is NotMeta,
            MetaCommand::Exit => meta_of(line@) is Exit,
            MetaCommand::Open(name) => meta_of(line@) == MetaView::Open(name@),
            MetaCommand::Help => meta_of(line@) is Help,
            MetaCommand::Unknown => meta_of(line@) is Unknown,
        },
{
    let chars = to_chars(line);
    if chars.len() == 0 || chars[0] != '.' {
        return MetaCommand::NotMeta;
    }
    let normal = normalize_input(line);
    let normal_chars = to_chars(normal.as_str());
    let mut words = split_words(&normal_chars);
    if words.len() == 1 && str_eq(words[0].as_str(), ".exit") {
        MetaCommand::Exit
    } else if words.len() == 2 && str_eq(words[0].as_str(), ".open") {
        match words.pop() {
            Some(name) => MetaCommand::Open(name),
            None => MetaCommand::Unknown,
        }
    } else if words.len() == 1 && str_eq(words[0].as_str(), ".help") {
        MetaCommand::Help
    } else {
        MetaCommand::Unknown
    }
}

/// The prompt of the shell: the name of the database selected, or `no-db`,
/// in brackets, a blank and `>`.
pub fn prompt(db: &Enso) -> (res: String)
    ensures
        res@ == match db.db {
            Some(name) => "["@ + name@ + "] >"@,
            None => "[no-db] >"@,
        },
{
    match &db.db {
        Some(name) => {
            let mut res = String::from_str("[");
            res.append(name.as_str());
            res.append("] >");
            res
        },
        None => String::from_str("[no-db] >"),
    }
}

/// The schema of the table whose rows `res` holds, in the database
/// selected.
pub open spec fn shown_schema(db: Enso, res: QueryResult) -> crate::types::TableSchema {
    db.schema.schema_of(
        match db.db {
            Some(name) => name@,
            None => Seq::<char>::empty(),
        },
        res->table@,
    )
}

/// The text of an answer: the number of rows changed; `Empty set` for no
/// rows; else the rows of `texts`, which holds the texts of the values of
/// the rows of `res`, as a table. Fails with `NoDatabaseSelected` and
/// `TableNotFound` where the table of the rows is not known.
pub fn format_response(db: &Enso, res: &QueryResult, texts: &Vec<Vec<String>>) -> (out: Result<
    String,
    DbError,
>)
    requires
        *res is Rows ==> forall|i: int|
            0 <= i < shown_schema(*db, *res).columns@.len() ==> #[trigger] table_widths(
                shown_schema(*db, *res),
                texts@,
            )[i] + 2 <= usize::MAX,
    ensures
        match *res {
            QueryResult::Affected(n) => out is Ok && out->Ok_0@ == decimal(n as nat)
                + " row(s) affected\n"@,
            QueryResult::Rows { table, rows } => if rows is None || rows->0@.len() == 0 {
                out is Ok && out->Ok_0@ == "Empty set\n"@
            } else {
                let name = match db.db {
                    Some(name) => name@,
                    None => Seq::<char>::empty(),
                };
                match out {
                    Ok(text) => db.schema.has_table(name, table@) && text@ == table_of(
                        db.schema.schema_of(name, table@),
                        texts@,
                    ),
                    Err(e) => if db.schema.has_db(name) {
                        e is TableNotFound && !db.schema.has_table(name, table@)
                    } else {
                        e is NoDatabaseSelected
                    },
                }
            },
        },
{
    match res {
        QueryResult::Affected(n) => {
            let mut out = format_u64(*n);
            out.append(" row(s) affected\n");
            Ok(out)
        },
        QueryResult::Rows { table, rows } => {
            let none = match rows {
                None => true,
                Some(rows) => rows.len() == 0,
            };
            if none {
                return Ok(String::from_str("Empty set\n"));
            }
            let schema = match db.schema.get(db.current_db(), table.as_str()) {
                Ok(schema) => schema,
                Err(e) => {
                    return Err(e);
                },
            };
            assert(*schema == shown_schema(*db, *res));
            Ok(pretty_rows(schema, texts))
        },
    }
}

} // verus!
