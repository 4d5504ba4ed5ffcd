//! The tables that each database has, by name.

use vstd::prelude::*;
use crate::error::DbError;
use crate::record::key_bytes;
use crate::str_map::StrMap;
use crate::types::TableSchema;

verus! {

/// For each database its tables, and for each table its schema.
pub struct SchemaManager {
    pub schemas: StrMap<StrMap<TableSchema>>,
}

impl SchemaManager {
    /// Whether the database `db` is known.
    pub open spec fn has_db(&self, db: Seq<char>) -> bool {
        self.schemas@.contains_key(key_bytes(db))
    }

    /// Whether the database `db` is known and has a table `table`.
    pub open spec fn has_table(&self, db: Seq<char>, table: Seq<char>) -> bool {
        self.has_db(db) && self.schemas@[key_bytes(db)]@.contains_key(key_bytes(table))
    }

    /// The schema of the table `table` of the database `db`.
    pub open spec fn schema_of(&self, db: Seq<char>, table: Seq<char>) -> TableSchema {
        self.schemas@[key_bytes(db)]@[key_bytes(table)]
    }

    /// A manager that knows no database.
    pub fn new() -> (res: Self)
        ensures
            forall|db: Seq<char>| !res.has_db(db),
            res.schemas.entries@.len() == 0,
    {
        Self { schemas: StrMap::new() }
    }

    /// Holds `schema` for the table `table` of the database `db` from now
    /// on. A database not known before is known afterwards.
    pub fn insert(&mut self, db: &str, table: &str, schema: TableSchema) -> (res: Result<
        (),
        DbError,
    >)
        ensures
            res is Ok,
            final(self).has_table(db@, table@),
            final(self).schema_of(db@, table@) == schema,
            forall|d: Seq<char>|
                final(self).has_db(d) <==> old(self).has_db(d) || key_bytes(d) == key_bytes(db@),
            forall|d: Seq<char>, t: Seq<char>|
                key_bytes(d) != key_bytes(db@) || key_bytes(t) != key_bytes(table@) ==> {
                    &&& final(self).has_table(d, t) <==> old(self).has_table(d, t)
                    &&& old(self).has_table(d, t) ==> final(self).schema_of(d, t) == old(
                        self,
                    ).schema_of(d, t)
                },
    {
        match self.schemas.position(db) {
            Some(i) => {
                let ghost before = self.schemas.pairs();
                let ghost inner = self.schemas.entries@[i as int].1;
                self.schemas.entries[i].1.insert(table.to_owned(), schema);
                proof {
                    let now = self.schemas.entries@[i as int].1;
                    assert(self.schemas.pairs() =~= before.update(
                        i as int,
                        (key_bytes(db@), now),
                    ));
                    crate::assoc::lemma_pairs_map_update(before, i as int, now);
                }
            },
            None => {
                let mut tables: StrMap<TableSchema> = StrMap::new();
                tables.insert(table.to_owned(), schema);
                self.schemas.insert(db.to_owned(), tables);
            },
        }
        Ok(())
    }

    /// Holds for the database `db` the tables `tables`, each under its own
    /// name, in place of any tables held for it before. Of two tables with
    /// the same name the later one counts.
    pub fn load_db(&mut self, db: &str, tables: Vec<TableSchema>) -> (res: Result<(), DbError>)
        ensures
            res is Ok,
            final(self).has_db(db@),
            forall|d: Seq<char>|
                final(self).has_db(d) <==> old(self).has_db(d) || key_bytes(d) == key_bytes(db@),
            forall|d: Seq<char>, t: Seq<char>|
                key_bytes(d) != key_bytes(db@) ==> {
                    &&& final(self).has_table(d, t) <==> old(self).has_table(d, t)
                    &&& old(self).has_table(d, t) ==> final(self).schema_of(d, t) == old(
                        self,
                    ).schema_of(d, t)
                },
            forall|t: Seq<char>|
                final(self).has_table(db@, t) <==> exists|i: int|
                    0 <= i < tables@.len() && key_bytes((#[trigger] tables@[i]).name@)
                        == key_bytes(t),
            forall|i: int|
                0 <= i < tables@.len() && (forall|j: int|
                    i < j < tables@.len() ==> key_bytes(tables@[j].name@) != key_bytes(
                        tables@[i].name@,
                    )) ==> final(self).schema_of(db@, (#[trigger] tables@[i]).name@) == tables@[i],
    {
        let mut held: StrMap<TableSchema> = StrMap::new();
        let mut tables = tables;
        let ghost all = tables@;
        let ghost mut pairs: Seq<(Seq<u8>, TableSchema)> = Seq::empty();
        let mut rest: Vec<TableSchema> = Vec::new();
        // The tables are taken from the end; `rest` holds them in reverse.
        while tables.len() > 0
            invariant
                tables@.len() + rest@.len() == all.len(),
                forall|i: int| 0 <= i < tables@.len() ==> tables@[i] == all[i],
                forall|i: int|
                    0 <= i < rest@.len() ==> rest@[i] == all[all.len() - 1 - i],
            decreases tables@.len(),
        {
            match tables.pop() {
                Some(t) => {
                    rest.push(t);
                },
                None => {},
            }
        }
        while rest.len() > 0
            invariant
                rest@.len() <= all.len(),
                forall|i: int|
                    0 <= i < rest@.len() ==> rest@[i] == all[all.len() - 1 - i],
                pairs.len() == all.len() - rest@.len(),
                forall|i: int|
                    0 <= i < pairs.len() ==> #[trigger] pairs[i] == (
                        key_bytes(all[i].name@),
                        all[i],
                    ),
                held@ == crate::assoc::pairs_map(pairs),
            decreases rest@.len(),
        {
            match rest.pop() {
                Some(t) => {
                    let name = t.name.clone();
                    proof {
                        crate::assoc::lemma_pairs_map_push(pairs, key_bytes(name@), t);
                        pairs = pairs.push((key_bytes(name@), t));
                    }
                    held.insert(name, t);
                },
                None => {},
            }
        }
        proof {
            assert forall|t: Seq<char>|
                held@.contains_key(key_bytes(t)) <==> exists|i: int|
                    0 <= i < all.len() && key_bytes((#[trigger] all[i]).name@) == key_bytes(
                        t,
                    ) by {
                crate::assoc::lemma_pairs_map_dom(pairs, key_bytes(t));
                if held@.contains_key(key_bytes(t)) {
                    let i = choose|i: int| 0 <= i < pairs.len() && pairs[i].0 == key_bytes(t);
                    assert(pairs[i] == (key_bytes(all[i].name@), all[i]));
                    assert(key_bytes(all[i].name@) == key_bytes(t));
                }
                if exists|i: int|
                    0 <= i < all.len() && key_bytes((#[trigger] all[i]).name@) == key_bytes(t) {
                    let i = choose|i: int|
                        0 <= i < all.len() && key_bytes((#[trigger] all[i]).name@) == key_bytes(
                            t,
                        );
                    assert(pairs[i].0 == key_bytes(t));
                }
            }
            assert forall|i: int|
                0 <= i < all.len() && (forall|j: int|
                    i < j < all.len() ==> key_bytes(all[j].name@) != key_bytes(
                        all[i].name@,
                    )) implies held@[key_bytes((#[trigger] all[i]).name@)] == all[i] by {
                assert(pairs[i] == (key_bytes(all[i].name@), all[i]));
                assert forall|j: int| i < j < pairs.len() implies pairs[j].0 != pairs[i].0 by {
                    assert(pairs[j] == (key_bytes(all[j].name@), all[j]));
                }
                crate::assoc::lemma_pairs_map_last(pairs, i);
            }
        }
        self.schemas.insert(db.to_owned(), held);
        Ok(())
    }

    /// The schema of the table `table` of the database `db`. Fails with
    /// `NoDatabaseSelected` where the database is not known, and with
    /// `TableNotFound` where it is and has no such table.
    pub fn get(&self, db: &str, table: &str) -> (res: Result<&TableSchema, DbError>)
        ensures
            match res {
                Ok(schema) => self.has_table(db@, table@) && *schema == self.schema_of(
                    db@,
                    table@,
                ),
                Err(e) => if self.has_db(db@) {
                    e is TableNotFound && !self.has_table(db@, table@)
                } else {
                    e is NoDatabaseSelected
                },
            },
    {
        match self.schemas.get(db) {
            None => Err(DbError::NoDatabaseSelected),
            Some(tables) => match tables.get(table) {
                Some(schema) => Ok(schema),
                None => Err(DbError::TableNotFound),
            },
        }
    }
}

} // verus!
