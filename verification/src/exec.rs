//! Statements carried out on a store with tables.

use vstd::prelude::*;
use crate::api::{
    all_rows, compaction_asked, delete_refused, deleted, found_row, insert_refused, inserted, select_all_refused,
    select_refused, table_unknown, Enso,
};
use crate::error::DbError;
use crate::keys::key_eq;
use crate::record::key_bytes;
use crate::sql::ast::{Expr, ExprView, QueryResult, Stmt};
use crate::types::Value;

verus! {

/// What carrying out a statement gave, and whether a compaction is to be
/// started.
pub struct Outcome {
    pub result: QueryResult,
    pub compaction_due: bool,
}

/// The values of literals, one for each expression. Fails with
/// `UnsupportedExpression` where an expression is no literal with a value.
pub fn eval_all(exprs: &Vec<Expr>) -> (res: Result<Vec<Value>, DbError>)
    ensures
        match res {
            Ok(values) => values@.len() == exprs@.len() && forall|i: int|
                0 <= i < exprs@.len() ==> (#[trigger] exprs@[i])@ == ExprView::Literal(
                    values@[i]@,
                ),
            Err(e) => e is UnsupportedExpression && exists|i: int|
                0 <= i < exprs@.len() && !((#[trigger] exprs@[i]) is Literal),
        },
{
    let mut values: Vec<Value> = Vec::new();
    let mut i: usize = 0;
    while i < exprs.len()
        invariant
            i <= exprs@.len(),
            values@.len() == i,
            forall|j: int|
                0 <= j < i ==> (#[trigger] exprs@[j])@ == ExprView::Literal(values@[j]@),
        decreases exprs@.len() - i,
    {
        match exprs[i].eval() {
            Ok(v) => {
                values.push(v);
            },
            Err(e) => {
                return Err(e);
            },
        }
        i += 1;
    }
    Ok(values)
}

/// The value that a filter asks of the primary key: the filter must be an
/// equation of the column named `key_column` with a literal that has a
/// value. Fails with `UnsupportedFilter` for any other filter.
pub fn filter_value(filter: &Expr, key_column: &str) -> (res: Result<Value, DbError>)
    ensures
        match res {
            Ok(v) => filter matches Expr::Eq { column, value } && key_bytes(column@) == key_bytes(
                key_column@,
            ) && value@ == ExprView::Literal(v@),
            Err(e) => e is UnsupportedFilter && !(filter matches Expr::Eq { column, value }
                && key_bytes(column@) == key_bytes(key_column@) && **value is Literal),
        },
{
    match filter {
        Expr::Eq { column, value } => {
            if !key_eq(column.as_str(), key_column) {
                return Err(DbError::UnsupportedFilter);
            }
            match value.eval() {
                Ok(v) => Ok(v),
                Err(_) => Err(DbError::UnsupportedFilter),
            }
        },
        _ => Err(DbError::UnsupportedFilter),
    }
}

/// The store `after` is the store `before` with the values of the literals
/// `values` put into the table `table` as one row at the time `now`.
pub open spec fn put_values(
    before: Enso,
    after: Enso,
    table: Seq<char>,
    values: Seq<Expr>,
    now: u64,
) -> bool {
    exists|row: Seq<Value>|
        {
            &&& row.len() == values.len()
            &&& forall|i: int|
                0 <= i < values.len() ==> (#[trigger] values[i])@ == ExprView::Literal(row[i]@)
            &&& #[trigger] inserted(before, after, table, row, now)
        }
}

/// The filter `filter` asks for the row of the table `table` whose primary
/// key is `pk`: it equates the primary key's column with the literal of
/// `pk`.
pub open spec fn asks_for(e: Enso, table: Seq<char>, filter: Expr, pk: Value) -> bool {
    &&& e.db is Some
    &&& e.schema.has_table(e.db->0@, table)
    &&& {
        let schema = e.schema.schema_of(e.db->0@, table);
        &&& schema.primary_key < schema.columns@.len()
        &&& filter is Eq
        &&& key_bytes(filter->column@) == key_bytes(
            schema.columns@[schema.primary_key as int].name@,
        )
        &&& filter->value@ == ExprView::Literal(pk@)
    }
}

/// `rows` holds the row that the filter `filter` asks for in the table
/// `table`, if the store holds that row, and is nothing if it does not.
pub open spec fn asked_row(
    e: Enso,
    table: Seq<char>,
    filter: Expr,
    rows: Option<Vec<Vec<Value>>>,
) -> bool {
    exists|pk: Value|
        {
            &&& #[trigger] asks_for(e, table, filter, pk)
            &&& match rows {
                Some(rows) => rows@.len() == 1 && found_row(e, table, pk, Some(rows@[0])),
                None => found_row(e, table, pk, None),
            }
        }
}

/// The store `after` is the store `before` after a delete at the time
/// `now` of the row that the filter `filter` asks for in the table `table`;
/// `count` is 1 if there was such a row and 0 if not.
pub open spec fn asked_delete(
    before: Enso,
    after: Enso,
    table: Seq<char>,
    filter: Expr,
    now: u64,
    count: u64,
    due: bool,
) -> bool {
    exists|pk: Value|
        {
            &&& #[trigger] asks_for(before, table, filter, pk)
            &&& count <= 1
            &&& deleted(before, after, table, pk, now, count == 1, due)
        }
}

/// `err` is the error with which the filter `filter` fails to ask for a row
/// of the table `table`: the first of these that holds. The table is not
/// known; its primary key is no column; the filter does not equate the
/// primary key's column with a literal that has a value.
pub open spec fn filter_refused(e: Enso, table: Seq<char>, filter: Expr, err: DbError) -> bool {
    match table_unknown(e, table) {
        Some(says) => says(err),
        None => {
            let schema = e.schema.schema_of(e.db->0@, table);
            if schema.primary_key >= schema.columns@.len() {
                err is InvalidPrimaryKey
            } else {
                &&& err is UnsupportedFilter
                &&& !(filter is Eq && key_bytes(filter->column@) == key_bytes(
                    schema.columns@[schema.primary_key as int].name@,
                ) && *filter->value is Literal)
            }
        },
    }
}

/// `err` is the error with which the statement `stmt` is refused.
pub open spec fn refused(e: Enso, stmt: Stmt, err: DbError) -> bool {
    match stmt {
        Stmt::CreateTable { table, columns, primary_key } => if primary_key >= columns@.len() {
            err is InvalidPrimaryKey
        } else {
            e.db is None && err is NoDatabaseSelected
        },
        Stmt::Insert { table, values } => if exists|i: int|
            0 <= i < values@.len() && !((#[trigger] values@[i]) is Literal) {
            err is UnsupportedExpression
        } else {
            exists|row: Seq<Value>|
                {
                    &&& row.len() == values@.len()
                    &&& forall|i: int|
                        0 <= i < values@.len() ==> (#[trigger] values@[i])@ == ExprView::Literal(
                            row[i]@,
                        )
                    &&& #[trigger] insert_refused(e, table@, row, err)
                }
        },
        Stmt::Select { table, filter } => match filter {
            None => select_all_refused(e, table@, err),
            Some(f) => filter_refused(e, table@, f, err) || exists|pk: Value|
                #[trigger] asks_for(e, table@, f, pk) && select_refused(e, table@, pk, err),
        },
        Stmt::Delete { table, filter } => filter_refused(e, table@, filter, err) || exists|
            pk: Value,
        | #[trigger] asks_for(e, table@, filter, pk) && delete_refused(e, table@, pk, err),
    }
}

impl Enso {
    /// The name of the primary key's column of the table `table`.
    pub fn key_column(&self, table: &str) -> (res: Result<String, DbError>)
        ensures
            match res {
                Ok(name) => self.db is Some && self.schema.has_table(self.db->0@, table@) && {
                    let schema = self.schema.schema_of(self.db->0@, table@);
                    schema.primary_key < schema.columns@.len() && name@
                        == schema.columns@[schema.primary_key as int].name@
                },
                Err(e) => match self.db {
                    None => e is NoDatabaseSelected,
                    Some(db) => if !self.schema.has_db(db@) {
                        e is NoDatabaseSelected
                    } else if !self.schema.has_table(db@, table@) {
                        e is TableNotFound
                    } else {
                        e is InvalidPrimaryKey && self.schema.schema_of(db@, table@).primary_key
                            >= self.schema.schema_of(db@, table@).columns@.len()
                    },
                },
            },
    {
        let db = match &self.db {
            Some(db) => db,
            None => {
                return Err(DbError::NoDatabaseSelected);
            },
        };
        let schema = match self.schema.get(db.as_str(), table) {
            Ok(schema) => schema,
            Err(e) => {
                return Err(e);
            },
        };
        if schema.primary_key >= schema.columns.len() {
            return Err(DbError::InvalidPrimaryKey);
        }
        Ok(schema.columns[schema.primary_key].name.clone())
    }

    /// Carries out `stmt` at the time `now`. A `CREATE TABLE` makes and
    /// selects the table and changes no row; an `INSERT` puts one row; a
    /// `SELECT` gives the rows of the table, or the row whose primary key
    /// the filter names; a `DELETE` deletes the row whose primary key the
    /// filter names and says whether there was one. On failure the store is
    /// as it was.
    pub fn execute_at(&mut self, stmt: Stmt, now: u64) -> (res: Result<Outcome, DbError>)
        requires
            old(self).inv(),
        ensures
            final(self).inv(),
            final(self).db == old(self).db,
            res is Err ==> final(self).engine.storage == old(self).engine.storage,
            res matches Err(e) ==> refused(*old(self), stmt, e),
            res matches Ok(outcome) ==> match stmt {
                Stmt::CreateTable { table, columns, primary_key } => {
                    &&& outcome.result == QueryResult::Affected(0)
                    &&& !outcome.compaction_due
                    &&& final(self).engine == old(self).engine
                    &&& primary_key < columns@.len()
                    &&& old(self).db is Some
                    &&& final(self).table is Some && final(self).table->0@ == table@
                    &&& final(self).schema.has_table(old(self).db->0@, table@)
                    &&& {
                        let made = final(self).schema.schema_of(old(self).db->0@, table@);
                        &&& made.name@ == table@
                        &&& made.columns == columns
                        &&& made.primary_key <= primary_key
                        &&& key_bytes(columns@[made.primary_key as int].name@) == key_bytes(
                            columns@[primary_key as int].name@,
                        )
                    }
                },
                Stmt::Insert { table, values } => {
                    &&& outcome.result == QueryResult::Affected(1)
                    &&& put_values(*old(self), *final(self), table@, values@, now)
                    &&& compaction_asked(*old(self), *final(self), outcome.compaction_due)
                },
                Stmt::Select { table, filter } => {
                    &&& !outcome.compaction_due
                    &&& final(self).engine.storage == old(self).engine.storage
                    &&& final(self).schema == old(self).schema
                    &&& outcome.result is Rows
                    &&& outcome.result->table@ == table@
                    &&& match filter {
                        None => outcome.result->rows is Some && all_rows(
                            *old(self),
                            table@,
                            outcome.result->rows->0@,
                        ),
                        Some(f) => asked_row(*old(self), table@, f, outcome.result->rows),
                    }
                },
                Stmt::Delete { table, filter } => {
                    &&& outcome.result is Affected
                    &&& final(self).schema == old(self).schema
                    &&& asked_delete(
                        *old(self),
                        *final(self),
                        table@,
                        filter,
                        now,
                        outcome.result->Affected_0,
                        outcome.compaction_due,
                    )
                },
            },
    {
        match stmt {
            Stmt::CreateTable { table, columns, primary_key } => {
                if primary_key >= columns.len() {
                    return Err(DbError::InvalidPrimaryKey);
                }
                let key_name = columns[primary_key].name.clone();
                match self.create_table(table.as_str(), columns, key_name.as_str()) {
                    Ok(()) => Ok(
                        Outcome { result: QueryResult::Affected(0), compaction_due: false },
                    ),
                    Err(e) => Err(e),
                }
            },
            Stmt::Insert { table, values } => {
                let row = match eval_all(&values) {
                    Ok(row) => row,
                    Err(e) => {
                        return Err(e);
                    },
                };
                let ghost put = row@;
                match self.insert_into_at(table.as_str(), row, now) {
                    Ok(due) => {
                        proof {
                            assert(inserted(*old(self), *self, table@, put, now));
                        }
                        Ok(Outcome { result: QueryResult::Affected(1), compaction_due: due })
                    },
                    Err(e) => Err(e),
                }
            },
            Stmt::Select { table, filter } => {
                let rows = match filter {
                    None => match self.select_all_from(table.as_str()) {
                        Ok(rows) => Some(rows),
                        Err(e) => {
                            return Err(e);
                        },
                    },
                    Some(filter) => {
                        let key_name = match self.key_column(table.as_str()) {
                            Ok(name) => name,
                            Err(e) => {
                                return Err(e);
                            },
                        };
                        let pk = match filter_value(&filter, key_name.as_str()) {
                            Ok(pk) => pk,
                            Err(e) => {
                                return Err(e);
                            },
                        };
                        let ghost asked = pk;
                        proof {
                            assert(asks_for(*old(self), table@, filter, asked));
                        }
                        match self.select_by_pk_from(table.as_str(), pk) {
                            Ok(Some(row)) => {
                                let mut rows: Vec<Vec<Value>> = Vec::new();
                                rows.push(row);
                                proof {
                                    assert(found_row(*old(self), table@, asked, Some(rows@[0])));
                                    assert(asked_row(*old(self), table@, filter, Some(rows)));
                                }
                                Some(rows)
                            },
                            Ok(None) => {
                                proof {
                                    assert(asked_row(*old(self), table@, filter, None));
                                }
                                None
                            },
                            Err(e) => {
                                return Err(e);
                            },
                        }
                    },
                };
                Ok(
                    Outcome {
                        result: QueryResult::Rows { table, rows },
                        compaction_due: false,
                    },
                )
            },
            Stmt::Delete { table, filter } => {
                let key_name = match self.key_column(table.as_str()) {
                    Ok(name) => name,
                    Err(e) => {
                        return Err(e);
                    },
                };
                let pk = match filter_value(&filter, key_name.as_str()) {
                    Ok(pk) => pk,
                    Err(e) => {
                        return Err(e);
                    },
                };
                let ghost asked = pk;
                proof {
                    assert(asks_for(*old(self), table@, filter, asked));
                }
                match self.delete_by_pk_from_at(table.as_str(), pk, now) {
                    Ok((held, due)) => {
                        let count: u64 = if held {
                            1
                        } else {
                            0
                        };
                        proof {
                            assert(deleted(*old(self), *self, table@, asked, now, held, due));
                            assert(asked_delete(
                                *old(self),
                                *self,
                                table@,
                                filter,
                                now,
                                count,
                                due,
                            ));
                        }
                        Ok(Outcome { result: QueryResult::Affected(count), compaction_due: due })
                    },
                    Err(e) => Err(e),
                }
            },
        }
    }
}

} // verus!
