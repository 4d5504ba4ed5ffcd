//! Tables on top of the store: rows are checked against their table's
//! schema and kept under keys made of database, table and primary key.

use vstd::prelude::*;
use vstd::string::StringExecFns;
use crate::codec::{
    cell_fits, column_types, decode_cells, encode_cells, fails_on_text, RowCodec,
};
use crate::engine::Engine;
use crate::error::DbError;
use crate::keys::{is_prefix, key_eq};
use crate::record::key_bytes;
use crate::schema::SchemaManager;
use crate::types::{cells_of, value_matches, value_text, Column, TableSchema, Value};
use crate::clock::{time_stamp, utc_now};
use crate::writes::{put_record, tombstone};

verus! {

/// A store with tables: the engine, the database and the table that are
/// selected, and the schemas of the tables.
pub struct Enso {
    pub engine: Engine,
    pub db: Option<String>,
    pub table: Option<String>,
    pub schema: SchemaManager,
}

/// The beginning of the keys of the rows of a table: database, colon,
/// table, colon.
pub open spec fn table_prefix(db: Seq<char>, table: Seq<char>) -> Seq<char> {
    db + ":"@ + table + ":"@
}

/// The key of the row with the primary key `pk`.
pub open spec fn row_key(db: Seq<char>, table: Seq<char>, pk: Value) -> Seq<char> {
    table_prefix(db, table) + value_text(pk)
}

/// The position of the first value of `row` that may not stand in its
/// column, or the length of the row where every value may.
pub open spec fn first_mismatch(row: Seq<Value>, columns: Seq<Column>, from: int) -> int
    decreases row.len() - from,
{
    if from < 0 || from >= row.len() || from >= columns.len() {
        row.len() as int
    } else if !value_matches(row[from], columns[from].dtype) {
        from
    } else {
        first_mismatch(row, columns, from + 1)
    }
}

/// The position of the first column named `name`.
pub fn find_column(columns: &Vec<Column>, name: &str) -> (res: Option<usize>)
    ensures
        match res {
            Some(i) => i < columns@.len() && key_bytes(columns@[i as int].name@) == key_bytes(
                name@,
            ) && forall|j: int| 0 <= j < i ==> key_bytes(columns@[j].name@) != key_bytes(name@),
            None => forall|j: int|
                0 <= j < columns@.len() ==> key_bytes(columns@[j].name@) != key_bytes(name@),
        },
{
    let mut i: usize = 0;
    while i < columns.len()
        invariant
            i <= columns@.len(),
            forall|j: int| 0 <= j < i ==> key_bytes(columns@[j].name@) != key_bytes(name@),
        decreases columns@.len() - i,
    {
        if key_eq(columns[i].name.as_str(), name) {
            return Some(i);
        }
        i += 1;
    }
    None
}

/// Checks a row against a table's schema. Fails with `ColumnCountMismatch`
/// where the row has not one value for each column, and with
/// `TypeMismatch`, naming the first such column, where a value may not
/// stand in its column.
pub fn check_row(schema: &TableSchema, row: &Vec<Value>) -> (res: Result<(), DbError>)
    ensures
        match res {
            Ok(()) => row@.len() == schema.columns@.len() && forall|i: int|
                0 <= i < row@.len() ==> value_matches(
                    #[trigger] row@[i],
                    schema.columns@[i].dtype,
                ),
            Err(DbError::ColumnCountMismatch) => row@.len() != schema.columns@.len(),
            Err(DbError::TypeMismatch { column }) => {
                let at = first_mismatch(row@, schema.columns@, 0);
                &&& row@.len() == schema.columns@.len()
                &&& 0 <= at < row@.len()
                &&& column@ == schema.columns@[at].name@
            },
            Err(_) => false,
        },
{
    if row.len() != schema.columns.len() {
        return Err(DbError::ColumnCountMismatch);
    }
    let mut i: usize = 0;
    while i < row.len()
        invariant
            row@.len() == schema.columns@.len(),
            i <= row@.len(),
            forall|j: int|
                0 <= j < i ==> value_matches(#[trigger] row@[j], schema.columns@[j].dtype),
            first_mismatch(row@, schema.columns@, 0) == first_mismatch(
                row@,
                schema.columns@,
                i as int,
            ),
        decreases row@.len() - i,
    {
        if !row[i].matches(&schema.columns[i].dtype) {
            return Err(DbError::TypeMismatch { column: schema.columns[i].name.clone() });
        }
        i += 1;
    }
    Ok(())
}

/// The key of the row of the table `table` of the database `db` with the
/// primary key `pk`; nothing for a floating-point primary key.
pub fn make_key(db: &str, table: &str, pk: &Value) -> (res: Option<String>)
    ensures
        match res {
            Some(key) => !(*pk is Float) && key@ == row_key(db@, table@, *pk),
            None => *pk is Float,
        },
{
    match pk.text() {
        None => None,
        Some(text) => {
            let mut key = make_prefix(db, table);
            key.append(text.as_str());
            Some(key)
        },
    }
}

/// The beginning of the keys of the rows of the table `table` of the
/// database `db`.
pub fn make_prefix(db: &str, table: &str) -> (res: String)
    ensures
        res@ == table_prefix(db@, table@),
{
    let mut prefix = String::from_str(db);
    prefix.append(":");
    prefix.append(table);
    prefix.append(":");
    prefix
}

/// The store `after` is the store `before` with `row` put into the table
/// `table` at the time `now`: the table is known, the row fits it and has
/// a primary key that is no floating-point number, and the row's binary
/// form was written under the key that the primary key makes.
pub open spec fn inserted(before: Enso, after: Enso, table: Seq<char>, row: Seq<Value>, now: u64) -> bool {
    &&& before.db is Some
    &&& before.schema.has_table(before.db->0@, table)
    &&& {
        let schema = before.schema.schema_of(before.db->0@, table);
        let record = put_record(
            row_key(before.db->0@, table, row[schema.primary_key as int]),
            encode_cells(cells_of(row)),
            now,
        );
        &&& row.len() == schema.columns@.len()
        &&& forall|i: int|
            0 <= i < row.len() ==> value_matches(#[trigger] row[i], schema.columns@[i].dtype)
        &&& schema.primary_key < row.len()
        &&& !(row[schema.primary_key as int] is Float)
        &&& before.engine.storage@.can_write(record)
        &&& after.engine.storage@ == before.engine.storage@.written(record)
    }
}

/// `due` says whether a compaction is to be started after a write that
/// made the store `after` of the store `before`: the store has more
/// segments than it should and no compaction was under way; if so, one
/// counts as under way from then on.
pub open spec fn compaction_asked(before: Enso, after: Enso, due: bool) -> bool {
    &&& after.engine.max_segments == before.engine.max_segments
    &&& due == (after.engine.storage@.segments.len() > before.engine.max_segments
        && !before.engine.compaction_running)
    &&& after.engine.compaction_running == (before.engine.compaction_running || due)
}

/// `found` is the row that the store holds in the table `table` under the
/// primary key `pk`, if it holds one.
pub open spec fn found_row(e: Enso, table: Seq<char>, pk: Value, found: Option<Vec<Value>>) -> bool {
    &&& e.db is Some
    &&& e.schema.has_table(e.db->0@, table)
    &&& !(pk is Float)
    &&& {
        let held = e.engine.storage@.lookup(key_bytes(row_key(e.db->0@, table, pk)));
        let types = column_types(e.schema.schema_of(e.db->0@, table));
        match found {
            Some(row) => held is Some && decode_cells(held->0, types) == Some(cells_of(row@)),
            None => held is None,
        }
    }
}

/// `rows` are the rows that the store holds in the table `table`.
pub open spec fn all_rows(e: Enso, table: Seq<char>, rows: Seq<Vec<Value>>) -> bool {
    &&& e.db is Some
    &&& e.schema.has_table(e.db->0@, table)
    &&& selected(
        rows,
        e.engine.storage@,
        key_bytes(table_prefix(e.db->0@, table)),
        column_types(e.schema.schema_of(e.db->0@, table)),
    )
}

/// The store `after` is the store `before` after a delete of the row of
/// the table `table` with the primary key `pk` at the time `now`: `held`
/// says whether there was such a row; if so a tombstone was written for
/// its key, else nothing was written.
pub open spec fn deleted(
    before: Enso,
    after: Enso,
    table: Seq<char>,
    pk: Value,
    now: u64,
    held: bool,
    due: bool,
) -> bool {
    &&& before.db is Some
    &&& before.schema.has_table(before.db->0@, table)
    &&& !(pk is Float)
    &&& {
        let key = row_key(before.db->0@, table, pk);
        let store = before.engine.storage@;
        &&& held == store.lookup(key_bytes(key)) is Some
        &&& if held {
            &&& store.can_write(tombstone(key, now))
            &&& after.engine.storage@ == store.written(tombstone(key, now))
            &&& compaction_asked(before, after, due)
        } else {
            &&& !due
            &&& after.engine.storage == before.engine.storage
            &&& after.engine.max_segments == before.engine.max_segments
            &&& after.engine.compaction_running == before.engine.compaction_running
        }
    }
}

/// The table `table` is not known, and `e` says how: no database is
/// selected or known by the name selected, or the database has no such
/// table. Nothing where the table is known.
pub open spec fn table_unknown(e: Enso, table: Seq<char>) -> Option<spec_fn(DbError) -> bool> {
    match e.db {
        None => Some(|err: DbError| err is NoDatabaseSelected),
        Some(db) => if !e.schema.has_db(db@) {
            Some(|err: DbError| err is NoDatabaseSelected)
        } else if !e.schema.has_table(db@, table) {
            Some(|err: DbError| err is TableNotFound)
        } else {
            None
        },
    }
}

/// `err` is the error with which a put of `row` into the table `table` is
/// refused: the first of these that holds. The table is not known; the row
/// has not one value for each column; a value may not stand in its column;
/// the primary key is no column, or is a floating-point number; a string
/// is too long for the row's binary form; the row cannot be written.
pub open spec fn insert_refused(e: Enso, table: Seq<char>, row: Seq<Value>, err: DbError) -> bool {
    match table_unknown(e, table) {
        Some(says) => says(err),
        None => {
            let schema = e.schema.schema_of(e.db->0@, table);
            let at = first_mismatch(row, schema.columns@, 0);
            if row.len() != schema.columns@.len() {
                err is ColumnCountMismatch
            } else if at < row.len() {
                err is TypeMismatch && err->column@ == schema.columns@[at].name@
            } else if schema.primary_key >= row.len() {
                err is InvalidPrimaryKey
            } else if row[schema.primary_key as int] is Float {
                err is InvalidPrimaryKeyType
            } else if exists|i: int| 0 <= i < row.len() && !cell_fits(#[trigger] row[i]@) {
                err is RecordTooLarge
            } else {
                let record = put_record(
                    row_key(e.db->0@, table, row[schema.primary_key as int]),
                    encode_cells(cells_of(row)),
                    0,
                );
                !e.engine.storage@.can_write(record) && if record.fits() {
                    err is OutOfSegments
                } else {
                    err is RecordTooLarge
                }
            }
        },
    }
}

/// `err` is the error with which a read of the row of the table `table`
/// with the primary key `pk` fails: the first of these that holds. The
/// table is not known; the primary key is a floating-point number; the
/// bytes held under the row's key are no row of the table.
pub open spec fn select_refused(e: Enso, table: Seq<char>, pk: Value, err: DbError) -> bool {
    match table_unknown(e, table) {
        Some(says) => says(err),
        None => if pk is Float {
            err is InvalidPrimaryKeyType
        } else {
            let held = e.engine.storage@.lookup(key_bytes(row_key(e.db->0@, table, pk)));
            let types = column_types(e.schema.schema_of(e.db->0@, table));
            &&& held is Some
            &&& decode_cells(held->0, types) is None
            &&& if fails_on_text(held->0, types) {
                err is Utf8
            } else {
                err is Corrupt
            }
        },
    }
}

/// `err` is the error with which a delete of the row of the table `table`
/// with the primary key `pk` is refused: the first of these that holds.
/// The table is not known; the primary key is a floating-point number; the
/// tombstone cannot be written.
pub open spec fn delete_refused(e: Enso, table: Seq<char>, pk: Value, err: DbError) -> bool {
    match table_unknown(e, table) {
        Some(says) => says(err),
        None => if pk is Float {
            err is InvalidPrimaryKeyType
        } else {
            let record = tombstone(row_key(e.db->0@, table, pk), 0);
            &&& e.engine.storage@.lookup(record.key) is Some
            &&& !e.engine.storage@.can_write(record)
            &&& if record.fits() {
                err is OutOfSegments
            } else {
                err is RecordTooLarge
            }
        },
    }
}

/// `err` is the error with which a read of all rows of the table `table`
/// fails: the table is not known, or the bytes held under a key of the
/// table are no row of it.
pub open spec fn select_all_refused(e: Enso, table: Seq<char>, err: DbError) -> bool {
    match table_unknown(e, table) {
        Some(says) => says(err),
        None => (err is Corrupt || err is Utf8) && exists|k: Seq<u8>|
            {
                let held = #[trigger] e.engine.storage@.lookup(k);
                let types = column_types(e.schema.schema_of(e.db->0@, table));
                &&& is_prefix(key_bytes(table_prefix(e.db->0@, table)), k)
                &&& held is Some
                &&& decode_cells(held->0, types) is None
                &&& err is Utf8 <==> fails_on_text(held->0, types)
            },
    }
}

impl Enso {
    /// The engine is in order.
    pub open spec fn inv(&self) -> bool {
        self.engine.inv()
    }

    /// A new store with no database and no table selected.
    pub fn new() -> (res: Self)
        ensures
            res.inv(),
            res.db is None,
            res.table is None,
            forall|db: Seq<char>| !res.schema.has_db(db),
            res.engine.storage@ == crate::model::StoreModel::fresh(crate::storage::MAX_FILE_SIZE),
            res.engine.max_segments == crate::engine::MAX_SEGMENTS,
            !res.engine.compaction_running,
    {
        Self { engine: Engine::new(), db: None, table: None, schema: SchemaManager::new() }
    }

    /// The store `engine` with the database `db` selected, which has the
    /// tables `tables`.
    pub fn open(db: &str, engine: Engine, tables: Vec<TableSchema>) -> (res: Result<Self, DbError>)
        requires
            engine.inv(),
        ensures
            res is Ok,
            res matches Ok(enso) ==> enso.inv() && enso.engine == engine && enso.table is None
                && enso.schema.has_db(db@) && enso.db is Some && enso.db->0@ == db@,
            res matches Ok(enso) ==> {
                &&& forall|d: Seq<char>|
                    enso.schema.has_db(d) <==> key_bytes(d) == key_bytes(db@)
                &&& forall|t: Seq<char>|
                    enso.schema.has_table(db@, t) <==> exists|i: int|
                        0 <= i < tables@.len() && key_bytes((#[trigger] tables@[i]).name@)
                            == key_bytes(t)
                &&& forall|i: int|
                    0 <= i < tables@.len() && (forall|j: int|
                        i < j < tables@.len() ==> key_bytes(tables@[j].name@) != key_bytes(
                            tables@[i].name@,
                        )) ==> enso.schema.schema_of(db@, (#[trigger] tables@[i]).name@)
                        == tables@[i]
            },
    {
        let mut schema = SchemaManager::new();
        let _ = schema.load_db(db, tables);
        Ok(Self { engine, db: Some(db.to_owned()), table: None, schema })
    }

    /// The name of the database selected, or the empty string.
    pub fn current_db(&self) -> (res: &str)
        ensures
            res@ == match self.db {
                Some(name) => name@,
                None => Seq::<char>::empty(),
            },
    {
        proof {
            reveal_strlit("");
        }
        match &self.db {
            Some(name) => name.as_str(),
            None => "",
        }
    }

    /// Makes the table `table` with the columns `columns`, of which the
    /// first one named `primary_key` is the primary key, and selects it.
    /// Fails with `NoDatabaseSelected` where no database is selected, and
    /// with `InvalidPrimaryKey` where no column has that name.
    pub fn create_table(&mut self, table: &str, columns: Vec<Column>, primary_key: &str) -> (res:
        Result<(), DbError>)
        ensures
            final(self).engine == old(self).engine,
            final(self).db == old(self).db,
            match res {
                Ok(()) => {
                    &&& old(self).db matches Some(db) && final(self).schema.has_table(
                        db@,
                        table@,
                    ) && {
                        let made = final(self).schema.schema_of(db@, table@);
                        &&& made.name@ == table@
                        &&& made.columns == columns
                        &&& made.primary_key < columns@.len()
                        &&& key_bytes(columns@[made.primary_key as int].name@) == key_bytes(
                            primary_key@,
                        )
                        &&& forall|j: int|
                            0 <= j < made.primary_key ==> key_bytes(columns@[j].name@)
                                != key_bytes(primary_key@)
                    }
                    &&& final(self).table matches Some(t) && t@ == table@
                },
                Err(e) => {
                    &&& final(self).schema == old(self).schema
                    &&& final(self).table == old(self).table
                    &&& if old(self).db is None {
                        e is NoDatabaseSelected
                    } else {
                        e is InvalidPrimaryKey && forall|j: int|
                            0 <= j < columns@.len() ==> key_bytes(columns@[j].name@) != key_bytes(
                                primary_key@,
                            )
                    }
                },
            },
    {
        let db = match &self.db {
            Some(db) => db.clone(),
            None => {
                return Err(DbError::NoDatabaseSelected);
            },
        };
        let position = match find_column(&columns, primary_key) {
            Some(position) => position,
            None => {
                return Err(DbError::InvalidPrimaryKey);
            },
        };
        let schema = TableSchema { name: table.to_owned(), columns, primary_key: position };
        let _ = self.schema.insert(db.as_str(), table, schema);
        self.table = Some(table.to_owned());
        Ok(())
    }

    /// Selects the table `table`. Fails with `NoDatabaseSelected` where no
    /// database is selected, and with `TableNotFound` where the database
    /// has no such table.
    pub fn use_table(&mut self, table: &str) -> (res: Result<(), DbError>)
        ensures
            final(self).engine == old(self).engine,
            final(self).db == old(self).db,
            final(self).schema == old(self).schema,
            match res {
                Ok(()) => old(self).db is Some && old(self).schema.has_table(
                    old(self).db->0@,
                    table@,
                ) && final(self).table is Some && final(self).table->0@ == table@,
                Err(e) => final(self).table == old(self).table && match old(self).db {
                    None => e is NoDatabaseSelected,
                    Some(db) => e is TableNotFound && !old(self).schema.has_table(db@, table@),
                },
            },
    {
        let known = match &self.db {
            Some(db) => self.schema.get(db.as_str(), table).is_ok(),
            None => {
                return Err(DbError::NoDatabaseSelected);
            },
        };
        if !known {
            return Err(DbError::TableNotFound);
        }
        self.table = Some(table.to_owned());
        Ok(())
    }

    /// Puts `row` into the table `table` at the time `now`, under the key
    /// that its primary key makes. Returns whether a compaction is to be
    /// started. Fails, and leaves the store as it was, with
    /// `NoDatabaseSelected` and `TableNotFound` where the table is not
    /// known, as `check_row` does where the row does not fit the table, with
    /// `InvalidPrimaryKey` where the schema's primary key is no column, with
    /// `InvalidPrimaryKeyType` for a floating-point primary key, and as
    /// `Engine::put_at` does.
    pub fn insert_into_at(&mut self, table: &str, row: Vec<Value>, now: u64) -> (res: Result<
        bool,
        DbError,
    >)
        requires
            old(self).inv(),
        ensures
            final(self).inv(),
            final(self).db == old(self).db,
            final(self).table == old(self).table,
            final(self).schema == old(self).schema,
            match res {
                Ok(due) => inserted(*old(self), *final(self), table@, row@, now)
                    && compaction_asked(*old(self), *final(self), due),
                Err(e) => final(self).engine.storage == old(self).engine.storage
                    && insert_refused(*old(self), table@, row@, e),
            },
    {
        let db = match &self.db {
            Some(db) => db.clone(),
            None => {
                return Err(DbError::NoDatabaseSelected);
            },
        };
        let schema = match self.schema.get(db.as_str(), table) {
            Ok(schema) => schema,
            Err(e) => {
                return Err(e);
            },
        };
        match check_row(schema, &row) {
            Ok(()) => {
                proof {
                    lemma_no_mismatch(row@, schema.columns@, 0);
                }
            },
            Err(e) => {
                return Err(e);
            },
        }
        if schema.primary_key >= row.len() {
            return Err(DbError::InvalidPrimaryKey);
        }
        let key = match make_key(db.as_str(), table, &row[schema.primary_key]) {
            Some(key) => key,
            None => {
                return Err(DbError::InvalidPrimaryKeyType);
            },
        };
        let value = match RowCodec::encode(row.as_slice()) {
            Ok(value) => value,
            Err(e) => {
                return Err(e);
            },
        };
        self.engine.put_at(key, value, now)
    }

    /// Puts `row` into the table selected, as `insert_into_at` does. Fails
    /// with `NoTableSelected` where no table is selected.
    pub fn insert_at(&mut self, row: Vec<Value>, now: u64) -> (res: Result<bool, DbError>)
        requires
            old(self).inv(),
        ensures
            final(self).inv(),
            final(self).db == old(self).db,
            final(self).table == old(self).table,
            final(self).schema == old(self).schema,
            match res {
                Ok(due) => old(self).table is Some && inserted(
                    *old(self),
                    *final(self),
                    old(self).table->0@,
                    row@,
                    now,
                ) && compaction_asked(*old(self), *final(self), due),
                Err(e) => final(self).engine.storage == old(self).engine.storage && match old(
                    self,
                ).table {
                    None => e is NoTableSelected,
                    Some(table) => insert_refused(*old(self), table@, row@, e),
                },
            },
    {
        let table = match &self.table {
            Some(table) => table.clone(),
            None => {
                return Err(DbError::NoTableSelected);
            },
        };
        self.insert_into_at(table.as_str(), row, now)
    }

    /// Puts `row` into the table `table` with the present time as the
    /// entry's time stamp, or 0 where the clock stands before the Unix
    /// epoch; else as `insert_into_at` does.
    pub fn insert_into(&mut self, table: &str, row: Vec<Value>) -> (res: Result<bool, DbError>)
        requires
            old(self).inv(),
        ensures
            final(self).inv(),
            final(self).db == old(self).db,
            final(self).table == old(self).table,
            final(self).schema == old(self).schema,
            match res {
                Ok(due) => compaction_asked(*old(self), *final(self), due) && exists|now: u64|
                    #[trigger] inserted(*old(self), *final(self), table@, row@, now),
                Err(e) => final(self).engine.storage == old(self).engine.storage
                    && insert_refused(*old(self), table@, row@, e),
            },
    {
        let (seconds, _) = utc_now();
        let now = time_stamp(seconds);
        self.insert_into_at(table, row, now)
    }

    /// Puts `row` into the table selected, as `insert_into` does. Fails
    /// with `NoTableSelected` where no table is selected.
    pub fn insert(&mut self, row: Vec<Value>) -> (res: Result<bool, DbError>)
        requires
            old(self).inv(),
        ensures
            final(self).inv(),
            final(self).db == old(self).db,
            final(self).table == old(self).table,
            final(self).schema == old(self).schema,
            match res {
                Ok(due) => old(self).table is Some && compaction_asked(
                    *old(self),
                    *final(self),
                    due,
                ) && exists|now: u64|
                    #[trigger] inserted(
                        *old(self),
                        *final(self),
                        old(self).table->0@,
                        row@,
                        now,
                    ),
                Err(e) => final(self).engine.storage == old(self).engine.storage && match old(
                    self,
                ).table {
                    None => e is NoTableSelected,
                    Some(table) => insert_refused(*old(self), table@, row@, e),
                },
            },
    {
        let table = match &self.table {
            Some(table) => table.clone(),
            None => {
                return Err(DbError::NoTableSelected);
            },
        };
        self.insert_into(table.as_str(), row)
    }

    /// The row of the table `table` with the primary key `pk`, if the store
    /// holds one. Fails with `NoDatabaseSelected` and `TableNotFound` where
    /// the table is not known, with `InvalidPrimaryKeyType` for a
    /// floating-point primary key, and with `Corrupt` or `Utf8` where the
    /// bytes held are no row of the table.
    pub fn select_by_pk_from(&mut self, table: &str, pk: Value) -> (res: Result<
        Option<Vec<Value>>,
        DbError,
    >)
        requires
            old(self).inv(),
        ensures
            final(self).inv(),
            final(self).db == old(self).db,
            final(self).table == old(self).table,
            final(self).schema == old(self).schema,
            final(self).engine.storage == old(self).engine.storage,
            match res {
                Ok(found) => found_row(*old(self), table@, pk, found),
                Err(e) => select_refused(*old(self), table@, pk, e),
            },
    {
        let db = match &self.db {
            Some(db) => db.clone(),
            None => {
                return Err(DbError::NoDatabaseSelected);
            },
        };
        let schema = match self.schema.get(db.as_str(), table) {
            Ok(schema) => schema,
            Err(e) => {
                return Err(e);
            },
        };
        let key = match make_key(db.as_str(), table, &pk) {
            Some(key) => key,
            None => {
                return Err(DbError::InvalidPrimaryKeyType);
            },
        };
        match self.engine.get_raw(key.as_str()) {
            Some(bytes) => match RowCodec::decode(bytes.as_slice(), schema) {
                Ok(row) => Ok(Some(row)),
                Err(e) => Err(e),
            },
            None => Ok(None),
        }
    }

    /// The row of the table selected with the primary key `pk`, as
    /// `select_by_pk_from` gives it. Fails with `NoTableSelected` where no
    /// table is selected.
    pub fn select_by_pk(&mut self, pk: Value) -> (res: Result<Option<Vec<Value>>, DbError>)
        requires
            old(self).inv(),
        ensures
            final(self).inv(),
            final(self).db == old(self).db,
            final(self).table == old(self).table,
            final(self).schema == old(self).schema,
            final(self).engine.storage == old(self).engine.storage,
            match res {
                Ok(found) => old(self).table is Some && found_row(
                    *old(self),
                    old(self).table->0@,
                    pk,
                    found,
                ),
                Err(e) => if old(self).db is None {
                    e is NoDatabaseSelected
                } else if old(self).table is None {
                    e is NoTableSelected
                } else {
                    select_refused(*old(self), old(self).table->0@, pk, e)
                },
            },
    {
        if self.db.is_none() {
            return Err(DbError::NoDatabaseSelected);
        }
        let table = match &self.table {
            Some(table) => table.clone(),
            None => {
                return Err(DbError::NoTableSelected);
            },
        };
        self.select_by_pk_from(table.as_str(), pk)
    }

    /// The rows of the table `table`: one for each key that begins with the
    /// table's prefix and for which a read gives a value, in no particular
    /// order. Fails with `NoDatabaseSelected` and `TableNotFound` where the
    /// table is not known, and with `Corrupt` or `Utf8` where the bytes held
    /// under such a key are no row of the table.
    #[verifier::loop_isolation(false)]
    pub fn select_all_from(&mut self, table: &str) -> (res: Result<Vec<Vec<Value>>, DbError>)
        requires
            old(self).inv(),
        ensures
            final(self).inv(),
            final(self).db == old(self).db,
            final(self).table == old(self).table,
            final(self).schema == old(self).schema,
            final(self).engine.storage == old(self).engine.storage,
            match res {
                Ok(rows) => all_rows(*old(self), table@, rows@),
                Err(e) => select_all_refused(*old(self), table@, e),
            },
    {
        let db = match &self.db {
            Some(db) => db.clone(),
            None => {
                return Err(DbError::NoDatabaseSelected);
            },
        };
        let schema = match self.schema.get(db.as_str(), table) {
            Ok(schema) => schema,
            Err(e) => {
                return Err(e);
            },
        };
        let prefix = make_prefix(db.as_str(), table);
        let ghost m = self.engine.storage@;
        let ghost pb = key_bytes(prefix@);
        let ghost types = column_types(*schema);
        let found = self.engine.scan_prefix(prefix.as_str());
        let mut rows: Vec<Vec<Value>> = Vec::new();
        let mut i: usize = 0;
        while i < found.len()
            invariant
                i <= found@.len(),
                rows@.len() == i,
                types == column_types(*schema),
                forall|x: int|
                    0 <= x < found@.len() ==> is_prefix(pb, key_bytes((#[trigger] found@[x]).0@))
                        && m.lookup(key_bytes(found@[x].0@)) == Some(found@[x].1@),
                forall|x: int|
                    0 <= x < i ==> decode_cells((#[trigger] found@[x]).1@, types) == Some(
                        cells_of(rows@[x]@),
                    ),
            decreases found@.len() - i,
        {
            let ghost before = rows@;
            match RowCodec::decode(found[i].1.as_slice(), schema) {
                Ok(row) => {
                    rows.push(row);
                },
                Err(e) => {
                    proof {
                        let k = key_bytes(found@[i as int].0@);
                        assert(m.lookup(k) == Some(found@[i as int].1@));
                    }
                    return Err(e);
                },
            }
            proof {
                assert forall|x: int| 0 <= x < i + 1 implies decode_cells(
                    (#[trigger] found@[x]).1@,
                    types,
                ) == Some(cells_of(rows@[x]@)) by {
                    if x < i {
                        assert(rows@[x] == before[x]);
                    }
                }
            }
            i += 1;
        }
        proof {
            let keys = Seq::new(found@.len(), |x: int| key_bytes(found@[x].0@));
            assert forall|x: int| 0 <= x < rows@.len() implies is_prefix(pb, #[trigger] keys[x])
                && m.lookup(keys[x]) is Some && decode_cells(m.lookup(keys[x])->0, types)
                == Some(cells_of(rows@[x]@)) by {
                assert(m.lookup(key_bytes(found@[x].0@)) == Some(found@[x].1@));
            }
            assert forall|k: Seq<u8>| is_prefix(pb, k) && #[trigger] m.lookup(k) is Some implies exists|
                x: int,
            | 0 <= x < keys.len() && #[trigger] keys[x] == k by {
                let x = choose|x: int|
                    0 <= x < found@.len() && key_bytes((#[trigger] found@[x]).0@) == k;
                assert(keys[x] == k);
            }
            assert(rows_of_keys(rows@, keys, m, pb, types));
            assert(selected(rows@, m, pb, types));
        }
        Ok(rows)
    }

    /// Deletes the row of the table `table` with the primary key `pk` at the
    /// time `now`, if the store holds one. Returns whether it held one and
    /// whether a compaction is to be started. Fails, and leaves the store as
    /// it was, with `NoDatabaseSelected` and `TableNotFound` where the table
    /// is not known, with `InvalidPrimaryKeyType` for a floating-point
    /// primary key, and as `Engine::delete_at` does.
    pub fn delete_by_pk_from_at(&mut self, table: &str, pk: Value, now: u64) -> (res: Result<
        (bool, bool),
        DbError,
    >)
        requires
            old(self).inv(),
        ensures
            final(self).inv(),
            final(self).db == old(self).db,
            final(self).table == old(self).table,
            final(self).schema == old(self).schema,
            match res {
                Ok((held, due)) => deleted(*old(self), *final(self), table@, pk, now, held, due),
                Err(e) => final(self).engine.storage == old(self).engine.storage
                    && delete_refused(*old(self), table@, pk, e),
            },
    {
        let db = match &self.db {
            Some(db) => db.clone(),
            None => {
                return Err(DbError::NoDatabaseSelected);
            },
        };
        match self.schema.get(db.as_str(), table) {
            Ok(_) => {},
            Err(e) => {
                return Err(e);
            },
        }
        let key = match make_key(db.as_str(), table, &pk) {
            Some(key) => key,
            None => {
                return Err(DbError::InvalidPrimaryKeyType);
            },
        };
        if self.engine.get_raw(key.as_str()).is_none() {
            return Ok((false, false));
        }
        match self.engine.delete_at(key, now) {
            Ok(due) => Ok((true, due)),
            Err(e) => Err(e),
        }
    }

    /// The rows of the table selected, as `select_all_from` gives them.
    /// Fails with `NoTableSelected` where no table is selected.
    pub fn select_all(&mut self) -> (res: Result<Vec<Vec<Value>>, DbError>)
        requires
            old(self).inv(),
        ensures
            final(self).inv(),
            final(self).db == old(self).db,
            final(self).table == old(self).table,
            final(self).schema == old(self).schema,
            final(self).engine.storage == old(self).engine.storage,
            match res {
                Ok(rows) => old(self).table is Some && all_rows(
                    *old(self),
                    old(self).table->0@,
                    rows@,
                ),
                Err(e) => if old(self).db is None {
                    e is NoDatabaseSelected
                } else if old(self).table is None {
                    e is NoTableSelected
                } else {
                    select_all_refused(*old(self), old(self).table->0@, e)
                },
            },
    {
        if self.db.is_none() {
            return Err(DbError::NoDatabaseSelected);
        }
        let table = match &self.table {
            Some(table) => table.clone(),
            None => {
                return Err(DbError::NoTableSelected);
            },
        };
        self.select_all_from(table.as_str())
    }
}

/// The rows `rows` are those held under the keys with the prefix `prefix`
/// for which a read of the store `m` gives a value, one row for each key.
pub open spec fn selected(
    rows: Seq<Vec<Value>>,
    m: crate::model::StoreModel,
    prefix: Seq<u8>,
    types: Seq<crate::types::DataType>,
) -> bool {
    exists|keys: Seq<Seq<u8>>| rows_of_keys(rows, keys, m, prefix, types)
}

/// The rows `rows` are those held under the keys `keys`, which are,
/// each once, the keys with the prefix `prefix` for which a read of the
/// store `m` gives a value.
pub open spec fn rows_of_keys(
    rows: Seq<Vec<Value>>,
    keys: Seq<Seq<u8>>,
    m: crate::model::StoreModel,
    prefix: Seq<u8>,
    types: Seq<crate::types::DataType>,
) -> bool {
    &&& keys.len() == rows.len()
    &&& forall|x: int|
        0 <= x < rows.len() ==> is_prefix(prefix, #[trigger] keys[x]) && m.lookup(keys[x])
            is Some && decode_cells(m.lookup(keys[x])->0, types) == Some(cells_of(rows[x]@))
    &&& forall|x: int, y: int| 0 <= x < y < keys.len() ==> keys[x] != keys[y]
    &&& forall|k: Seq<u8>|
        is_prefix(prefix, k) && #[trigger] m.lookup(k) is Some ==> exists|x: int|
            0 <= x < keys.len() && #[trigger] keys[x] == k
}

/// What is put is found. After `row` was put into the table `table` of a
/// store with sound indexes, the store holds under the row's key the
/// row's binary form, which reads back as the row, unless a segment that
/// reads consult before the active one holds the key.
pub proof fn law_insert_then_select(
    before: Enso,
    after: Enso,
    table: Seq<char>,
    row: Seq<Value>,
    now: u64,
)
    requires
        before.engine.storage.wf(),
        before.engine.storage@.index_sound(),
        inserted(before, after, table, row, now),
    ensures
        ({
            let schema = before.schema.schema_of(before.db->0@, table);
            let key = key_bytes(row_key(before.db->0@, table, row[schema.primary_key as int]));
            let store = before.engine.storage@;
            let record = put_record(
                row_key(before.db->0@, table, row[schema.primary_key as int]),
                encode_cells(cells_of(row)),
                now,
            );
            &&& decode_cells(encode_cells(cells_of(row)), column_types(schema)) == Some(
                cells_of(row),
            )
            &&& store.needs_rotation(record) || !store.shadowed(key)
                ==> after.engine.storage@.lookup(key) == Some(encode_cells(cells_of(row)))
        }),
{
    let schema = before.schema.schema_of(before.db->0@, table);
    let text = row_key(before.db->0@, table, row[schema.primary_key as int]);
    let cells = cells_of(row);
    let record = put_record(text, encode_cells(cells), now);
    vstd::utf8::encode_utf8_valid_utf8(text);
    crate::laws::law_write_then_read(before.engine.storage@, record, record.key);
    assert forall|i: int| 0 <= i < cells.len() implies crate::codec::cell_of_type(
        #[trigger] cells[i],
        column_types(schema)[i],
    ) by {
        assert(value_matches(row[i], schema.columns@[i].dtype));
        match row[i] {
            Value::String(s) => {
                vstd::utf8::encode_utf8_valid_utf8(s@);
                assert(record.fits());
                lemma_cell_has_room(cells, i);
            },
            _ => {},
        }
    }
    crate::codec::law_row_roundtrip(cells, column_types(schema), Seq::<u8>::empty());
    assert(encode_cells(cells) + Seq::<u8>::empty() =~= encode_cells(cells));
}

/// A value of a row whose binary form has room in 32 bits has room in 32
/// bits.
pub proof fn lemma_cell_has_room(cells: Seq<crate::types::Cell>, i: int)
    requires
        0 <= i < cells.len(),
        encode_cells(cells).len() <= u32::MAX,
    ensures
        crate::codec::cell_fits(cells[i]),
    decreases cells.len(),
{
    let front = cells.drop_last();
    if i < cells.len() - 1 {
        assert(front[i] == cells[i]);
        lemma_cell_has_room(front, i);
    } else {
        crate::utils::lemma_be32_roundtrip(0);
    }
}

/// A row whose every value may stand in its column has no mismatch.
pub proof fn lemma_no_mismatch(row: Seq<Value>, columns: Seq<Column>, from: int)
    requires
        0 <= from <= row.len(),
        row.len() == columns.len(),
        forall|i: int| 0 <= i < row.len() ==> value_matches(#[trigger] row[i], columns[i].dtype),
    ensures
        first_mismatch(row, columns, from) == row.len(),
    decreases row.len() - from,
{
    if from < row.len() {
        lemma_no_mismatch(row, columns, from + 1);
    }
}

} // verus!
