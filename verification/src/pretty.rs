//! Rows as a table of text.

use vstd::prelude::*;
use vstd::string::{StrSliceExecFns, StringExecFns};
use crate::record::key_bytes;
use crate::decimal::{decimal, format_u64};
use crate::text::string_push;
use crate::types::TableSchema;

verus! {

/// `n` times the character `c`.
pub open spec fn repeat(c: char, n: int) -> Seq<char> {
    Seq::new(
        if n > 0 {
            n as nat
        } else {
            0
        },
        |i: int| c,
    )
}

/// The line that separates the parts of a table: for each column a plus
/// sign, two dashes more than the column is wide, and a plus sign.
pub open spec fn separator_text(widths: Seq<usize>) -> Seq<char>
    decreases widths.len(),
{
    if widths.len() == 0 {
        Seq::empty()
    } else {
        separator_text(widths.drop_last()) + seq!['+'] + repeat('-', widths.last() + 2) + seq![
            '+',
        ]
    }
}

/// The width of column `i` after the first `upto` rows: the greatest
/// length in bytes among `base` and the texts of the column in those rows.
pub open spec fn column_width(rows: Seq<Vec<String>>, i: int, upto: int, base: nat) -> nat
    decreases upto,
{
    if upto <= 0 {
        base
    } else {
        let w = column_width(rows, i, upto - 1, base);
        let row = rows[upto - 1]@;
        if i < row.len() && key_bytes(row[i]@).len() > w {
            key_bytes(row[i]@).len()
        } else {
            w
        }
    }
}

/// The widths of the columns of a table: for each column the greatest
/// length in bytes among its name and its texts.
pub open spec fn table_widths(schema: TableSchema, rows: Seq<Vec<String>>) -> Seq<nat> {
    Seq::new(
        schema.columns@.len(),
        |i: int|
            column_width(rows, i, rows.len() as int, key_bytes(schema.columns@[i].name@).len()),
    )
}

/// The head of a table up to column `upto`: for each column a bar, the
/// column's name with blanks after it up to the column's width, and a
/// blank.
pub open spec fn header_text(schema: TableSchema, widths: Seq<usize>, upto: int) -> Seq<char>
    decreases upto,
{
    if upto <= 0 {
        Seq::empty()
    } else {
        let name = schema.columns@[upto - 1].name@;
        header_text(schema, widths, upto - 1) + seq!['|', ' '] + name + repeat(
            ' ',
            widths[upto - 1] - name.len(),
        ) + seq![' ']
    }
}

/// A row of a table up to cell `upto`: for each cell a bar, a blank, the
/// cell's text and a blank.
pub open spec fn row_text(row: Seq<String>, upto: int) -> Seq<char>
    decreases upto,
{
    if upto <= 0 {
        Seq::empty()
    } else {
        row_text(row, upto - 1) + seq!['|', ' '] + row[upto - 1]@ + seq![' ']
    }
}

/// The first `upto` rows of a table, each closed by a bar and a line feed.
pub open spec fn rows_text(rows: Seq<Vec<String>>, upto: int) -> Seq<char>
    decreases upto,
{
    if upto <= 0 {
        Seq::empty()
    } else {
        rows_text(rows, upto - 1) + row_text(rows[upto - 1]@, rows[upto - 1]@.len() as int)
            + seq!['|', '\n']
    }
}

/// The whole table: separator, head, separator, rows, separator, and the
/// number of rows.
pub open spec fn table_text(schema: TableSchema, rows: Seq<Vec<String>>, widths: Seq<usize>) -> Seq<
    char,
> {
    separator_text(widths) + seq!['\n'] + header_text(
        schema,
        widths,
        schema.columns@.len() as int,
    ) + seq!['|', '\n'] + separator_text(widths) + seq!['\n'] + rows_text(
        rows,
        rows.len() as int,
    ) + separator_text(widths) + seq!['\n'] + seq!['('] + decimal(rows.len()) + " rows)"@
}

/// The widths of the columns of a table as machine numbers.
pub open spec fn machine_widths(schema: TableSchema, rows: Seq<Vec<String>>) -> Seq<usize> {
    Seq::new(schema.columns@.len(), |i: int| table_widths(schema, rows)[i] as usize)
}

/// The rows `rows` of the table `schema` as a table of text.
pub open spec fn table_of(schema: TableSchema, rows: Seq<Vec<String>>) -> Seq<char> {
    table_text(schema, rows, machine_widths(schema, rows))
}

/// Appends `n` times the character `c`.
fn push_repeat(out: &mut String, c: char, n: usize)
    ensures
        final(out)@ == old(out)@ + repeat(c, n as int),
{
    let mut i: usize = 0;
    proof {
        assert(out@ =~= old(out)@ + repeat(c, 0));
    }
    while i < n
        invariant
            i <= n,
            out@ == old(out)@ + repeat(c, i as int),
        decreases n - i,
    {
        string_push(out, c);
        i += 1;
        assert(out@ =~= old(out)@ + repeat(c, i as int));
    }
}

/// The line that separates the parts of a table.
pub fn separator(widths: &[usize]) -> (res: String)
    requires
        forall|i: int| 0 <= i < widths@.len() ==> widths@[i] + 2 <= usize::MAX,
    ensures
        res@ == separator_text(widths@),
{
    let mut out = String::new();
    let mut i: usize = 0;
    proof {
        assert(widths@.subrange(0, 0) =~= Seq::empty());
    }
    while i < widths.len()
        invariant
            i <= widths@.len(),
            forall|j: int| 0 <= j < widths@.len() ==> widths@[j] + 2 <= usize::MAX,
            out@ == separator_text(widths@.subrange(0, i as int)),
        decreases widths@.len() - i,
    {
        let ghost before = out@;
        string_push(&mut out, '+');
        push_repeat(&mut out, '-', widths[i] + 2);
        string_push(&mut out, '+');
        proof {
            let upto = widths@.subrange(0, i + 1);
            assert(upto.drop_last() =~= widths@.subrange(0, i as int));
            assert(upto.last() == widths@[i as int]);
            assert(out@ =~= before + seq!['+'] + repeat('-', widths@[i as int] + 2) + seq!['+']);
        }
        i += 1;
    }
    proof {
        assert(widths@.subrange(0, i as int) =~= widths@);
    }
    out
}

/// The widths of the columns of a table.
pub fn column_widths(schema: &TableSchema, rows: &Vec<Vec<String>>) -> (widths: Vec<usize>)
    ensures
        widths@.len() == schema.columns@.len(),
        forall|i: int|
            0 <= i < widths@.len() ==> widths@[i] as nat == #[trigger] table_widths(
                *schema,
                rows@,
            )[i],
{
    let mut widths: Vec<usize> = Vec::new();
    let mut i: usize = 0;
    while i < schema.columns.len()
        invariant
            i <= schema.columns@.len(),
            widths@.len() == i,
            forall|j: int|
                0 <= j < i ==> widths@[j] as nat == #[trigger] table_widths(*schema, rows@)[j],
        decreases schema.columns@.len() - i,
    {
        let name = schema.columns[i].name.as_str().as_bytes();
        let mut w: usize = name.len();
        let ghost base = key_bytes(schema.columns@[i as int].name@).len();
        let mut r: usize = 0;
        while r < rows.len()
            invariant
                r <= rows@.len(),
                w as nat == column_width(rows@, i as int, r as int, base),
            decreases rows@.len() - r,
        {
            if i < rows[r].len() {
                let cell = rows[r][i].as_str().as_bytes();
                if cell.len() > w {
                    w = cell.len();
                }
            }
            r += 1;
        }
        widths.push(w);
        i += 1;
    }
    widths
}

/// The rows `rows` of the table `schema` as a table of text, where each row
/// holds the texts of its values.
pub fn pretty_rows(schema: &TableSchema, rows: &Vec<Vec<String>>) -> (res: String)
    requires
        forall|i: int|
            0 <= i < schema.columns@.len() ==> #[trigger] table_widths(*schema, rows@)[i] + 2
                <= usize::MAX,
    ensures
        res@ == table_of(*schema, rows@),
{
    let widths = column_widths(schema, rows);
    let mut out = String::new();
    proof {
        assert forall|i: int| 0 <= i < widths@.len() implies widths@[i] + 2 <= usize::MAX by {
            assert(widths@[i] as nat == table_widths(*schema, rows@)[i]);
        }
    }
    let line = separator(widths.as_slice());
    out.append(line.as_str());
    string_push(&mut out, '\n');
    let ghost top = out@;
    let mut i: usize = 0;
    while i < schema.columns.len()
        invariant
            i <= schema.columns@.len(),
            widths@.len() == schema.columns@.len(),
            out@ == top + header_text(*schema, widths@, i as int),
        decreases schema.columns@.len() - i,
    {
        let ghost before = out@;
        let name = schema.columns[i].name.as_str();
        let chars = name.unicode_len();
        string_push(&mut out, '|');
        string_push(&mut out, ' ');
        out.append(name);
        if widths[i] > chars {
            push_repeat(&mut out, ' ', widths[i] - chars);
        }
        string_push(&mut out, ' ');
        proof {
            assert(repeat(' ', 0) =~= Seq::empty());
            assert(out@ =~= before + seq!['|', ' '] + name@ + repeat(
                ' ',
                widths@[i as int] - name@.len(),
            ) + seq![' ']);
        }
        i += 1;
    }
    string_push(&mut out, '|');
    string_push(&mut out, '\n');
    out.append(line.as_str());
    string_push(&mut out, '\n');
    let ghost head = out@;
    let mut r: usize = 0;
    while r < rows.len()
        invariant
            r <= rows@.len(),
            out@ == head + rows_text(rows@, r as int),
        decreases rows@.len() - r,
    {
        let ghost before = out@;
        let row = &rows[r];
        let mut c: usize = 0;
        while c < row.len()
            invariant
                c <= row@.len(),
                out@ == before + row_text(row@, c as int),
            decreases row@.len() - c,
        {
            let ghost cell_before = out@;
            string_push(&mut out, '|');
            string_push(&mut out, ' ');
            out.append(row[c].as_str());
            string_push(&mut out, ' ');
            proof {
                assert(out@ =~= cell_before + seq!['|', ' '] + row@[c as int]@ + seq![' ']);
            }
            c += 1;
        }
        string_push(&mut out, '|');
        string_push(&mut out, '\n');
        proof {
            assert(out@ =~= before + row_text(row@, row@.len() as int) + seq!['|', '\n']);
        }
        r += 1;
    }
    out.append(line.as_str());
    string_push(&mut out, '\n');
    string_push(&mut out, '(');
    let count = format_u64(rows.len() as u64);
    out.append(count.as_str());
    out.append(" rows)");
    proof {
        assert(out@ =~= table_text(*schema, rows@, widths@));
        assert(widths@ =~= machine_widths(*schema, rows@)) by {
            assert forall|i: int| 0 <= i < widths@.len() implies widths@[i] == machine_widths(
                *schema,
                rows@,
            )[i] by {
                assert(widths@[i] as nat == table_widths(*schema, rows@)[i]);
            }
        }
    }
    out
}

} // verus!
