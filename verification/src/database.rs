//! The storage engine and persistence facade: CRUD over lists and items in
//! an embedded SQLite store, with every read of a full list hydrated by the
//! aggregation engine.
//!
//! The store itself is reached through a handful of trusted wrappers; what
//! each SQL statement does to the store is stated over two model maps,
//! [`db_lists`] and [`db_items`], and everything above the wrappers is
//! verified against those statements.

use vstd::prelude::*;
use vstd::string::*;

use crate::aggregate::compute_total;
use crate::aggregate::hydrated_items;
use crate::aggregate::item_views;
use crate::aggregate::lista_views;
use crate::aggregate::listas_ordered;
use crate::aggregate::sort_items;
use crate::aggregate::sort_listas;
use crate::aggregate::total_of;
use crate::aggregate::lemma_perm_contains;
use crate::aggregate::lemma_perm_distinct_keys;
use crate::lista::Item;
use crate::lista::ItemV;
use crate::lista::Lista;
use crate::lista::ListaV;
use crate::text::is_blank;
use crate::text::str_is_blank;
use crate::text::MAX_MILLI;

verus! {

#[verifier::external_type_specification]
#[verifier::external_body]
pub struct ExConnection(rusqlite::Connection);

#[verifier::external_type_specification]
#[verifier::external_body]
pub struct ExSqlError(rusqlite::Error);

#[verifier::external_type_specification]
#[verifier::external_body]
pub struct ExMigrationError(rusqlite_migration::Error);

/// The lists a store connection holds: id to (name, simple mode).
pub uninterp spec fn db_lists(c: rusqlite::Connection) -> Map<int, (Seq<char>, bool)>;

/// The lists map of a store that holds nothing.
pub open spec fn no_lists() -> Map<int, (Seq<char>, bool)> {
    Map::empty()
}

/// The items a store connection holds, by item id.
pub uninterp spec fn db_items(c: rusqlite::Connection) -> Map<int, ItemV>;

/// The items map of a store that holds nothing.
pub open spec fn no_items() -> Map<int, ItemV> {
    Map::empty()
}

/// Every list id the store has ever assigned. The schema's AUTOINCREMENT
/// keeps a high-water mark, so an id is never handed out twice, not even
/// after the row that carried it is deleted.
pub uninterp spec fn db_lists_ever(c: rusqlite::Connection) -> Set<int>;

/// Every item id the store has ever assigned; never reused, as for lists.
pub uninterp spec fn db_items_ever(c: rusqlite::Connection) -> Set<int>;

/// The connection's two tables carry this library's schema — the declared
/// column types, `INTEGER PRIMARY KEY AUTOINCREMENT` ids, and the CHECK
/// ranges — and every stored row honours it.
pub uninterp spec fn db_schema_ok(c: rusqlite::Connection) -> bool;

/// The schema text SQLite keeps for the lists table: the CREATE statement
/// as the migrations leave it, the added column folded in.
pub open spec fn lists_schema_text() -> Seq<char> {
    "CREATE TABLE lists (id INTEGER PRIMARY KEY AUTOINCREMENT CHECK (id >= 1), name TEXT NOT NULL, simple_mode INTEGER NOT NULL DEFAULT 0)"@
}

/// The schema text SQLite keeps for the items table.
pub open spec fn items_schema_text() -> Seq<char> {
    "CREATE TABLE items (id INTEGER PRIMARY KEY AUTOINCREMENT CHECK (id >= 1), list_id INTEGER NOT NULL CHECK (list_id >= 0), name TEXT NOT NULL, unit TEXT NOT NULL, required_quantity INTEGER NOT NULL CHECK (required_quantity BETWEEN 0 AND 4294967295), purchased_quantity INTEGER NOT NULL CHECK (purchased_quantity BETWEEN 0 AND 4294967295), unit_price INTEGER NOT NULL CHECK (unit_price BETWEEN 0 AND 4294967295))"@
}

/// What the schema forces on whatever the store holds: ids from one up,
/// quantities within the store's range.
pub open spec fn schema_bounds(lists: Map<int, (Seq<char>, bool)>, items: Map<int, ItemV>) -> bool {
    &&& forall|k: int| #[trigger] lists.contains_key(k) ==> k >= 1
    &&& forall|k: int|
        #[trigger] items.contains_key(k) ==> k >= 1 && 0 <= items[k].required_milli <= MAX_MILLI
            && 0 <= items[k].purchased_milli <= MAX_MILLI && 0 <= items[k].price_milli
            <= MAX_MILLI
}

/// A typed failure of the persistence core.
#[derive(Debug)]
pub enum StoreError {
    /// the requested list does not exist
    NotFound,
    /// the underlying store failed during a query
    Sql(rusqlite::Error),
    /// the store could not be opened or brought to the current schema
    Migration(rusqlite_migration::Error),
    /// the store file does not carry this library's schema
    Schema,
}

/// One connection to the embedded store, schema already current. The one
/// value owns the connection outright, so access is serialized by
/// ownership: writes demand exclusive access, and no other handle exists.
pub struct SQLiteConnector {
    conn: rusqlite::Connection,
}

/// The persistence facade: every operation the interface layer may ask of
/// the store, stated over the two model maps.
pub trait DBConnector: Sized {
    /// The lists the store holds: id to (name, simple mode).
    spec fn lists_model(&self) -> Map<int, (Seq<char>, bool)>;

    /// The items the store holds, by item id.
    spec fn items_model(&self) -> Map<int, ItemV>;

    /// Every list id the store has ever assigned; ids are never reused.
    spec fn lists_ever(&self) -> Set<int>;

    /// Every item id the store has ever assigned; ids are never reused.
    spec fn items_ever(&self) -> Set<int>;

    /// Inserts a new list with the given name and simple mode off. A blank
    /// name is a silent no-op.
    fn create_new_list(&mut self, name: String) -> (r: Result<(), StoreError>)
        ensures
            is_blank(name@) ==> r is Ok && final(self).lists_model() == old(self).lists_model()
                && final(self).items_model() == old(self).items_model()
                && final(self).lists_ever() == old(self).lists_ever(),
            r is Ok && !is_blank(name@) ==> final(self).items_model() == old(self).items_model()
                && (exists|id: int|
                1 <= id && !old(self).lists_ever().contains(id)
                    && !old(self).lists_model().contains_key(id) && final(self).lists_model()
                    == old(self).lists_model().insert(id, (name@, false))
                    && final(self).lists_ever() == old(self).lists_ever().insert(id)),
            r matches Err(e) ==> e is Sql && final(self).lists_model() == old(self).lists_model()
                && final(self).items_model() == old(self).items_model()
                && final(self).lists_ever() == old(self).lists_ever(),
            final(self).items_ever() == old(self).items_ever(),
    ;

    /// Replaces name and simple mode of the list with the given id. A blank
    /// name, like an absent id, is a silent no-op.
    fn update_list(&mut self, id: usize, name: String, simple_mode: bool) -> (r: Result<
        (),
        StoreError,
    >)
        ensures
            is_blank(name@) ==> r is Ok && final(self).lists_model() == old(self).lists_model()
                && final(self).items_model() == old(self).items_model(),
            r is Ok && !is_blank(name@) ==> final(self).items_model() == old(self).items_model()
                && final(self).lists_model() == if old(self).lists_model().contains_key(id as int) {
                old(self).lists_model().insert(id as int, (name@, simple_mode))
            } else {
                old(self).lists_model()
            },
            r matches Err(e) ==> e is Sql && final(self).lists_model() == old(self).lists_model()
                && final(self).items_model() == old(self).items_model(),
            final(self).lists_ever() == old(self).lists_ever(),
            final(self).items_ever() == old(self).items_ever(),
    ;

    /// Every list, names ascending, none hydrated.
    fn get_list_of_lists(&self) -> (r: Result<Vec<Lista>, StoreError>)
        ensures
            r matches Ok(v) ==> listing_of(lista_views(v@), self.lists_model()),
            r matches Err(e) ==> e is Sql,
    ;

    /// The list with the given id, hydrated: items present, in display
    /// order, and the total spent computed.
    fn get_list(&self, id: usize) -> (r: Result<Lista, StoreError>)
        ensures
            r matches Ok(l) ==> hydrated_lista(l, self.lists_model(), self.items_model(), id as int),
            r matches Err(e) ==> (e is NotFound || e is Sql) && (e is NotFound
                ==> !self.lists_model().contains_key(id as int)),
            !self.lists_model().contains_key(id as int) ==> !(r is Ok),
    ;

    /// Deletes the list with the given id together with all its items, in
    /// one transaction. An absent id is a silent no-op.
    fn delete_list(&mut self, id: usize) -> (r: Result<(), StoreError>)
        ensures
            r is Ok ==> final(self).lists_model() == old(self).lists_model().remove(id as int)
                && (forall|k: int|
                final(self).items_model().contains_key(k) <==> (old(self).items_model().contains_key(k) && old(self).items_model()[k].list_id != id as int))
                && (forall|k: int|
                #[trigger] final(self).items_model().contains_key(k) ==> final(self).items_model()[k]
                    == old(self).items_model()[k]),
            r matches Err(e) ==> e is Sql && final(self).lists_model() == old(self).lists_model()
                && final(self).items_model() == old(self).items_model(),
            final(self).lists_ever() == old(self).lists_ever(),
            final(self).items_ever() == old(self).items_ever(),
    ;

    /// Inserts the item under the given list id; the item's own id field is
    /// ignored, the store assigns a fresh one. A blank item name is a
    /// silent no-op.
    fn create_new_list_item(&mut self, list_id: usize, item: Item) -> (r: Result<(), StoreError>)
        ensures
            is_blank(item.name@) ==> r is Ok && final(self).lists_model() == old(self).lists_model()
                && final(self).items_model() == old(self).items_model()
                && final(self).items_ever() == old(self).items_ever(),
            r is Ok && !is_blank(item.name@) ==> final(self).lists_model() == old(self).lists_model()
                && (exists|id: int|
                1 <= id && !old(self).items_ever().contains(id)
                    && !old(self).items_model().contains_key(id)
                    && final(self).items_ever() == old(self).items_ever().insert(id)
                    && final(self).items_model()
                    == old(self).items_model().insert(
                    id,
                    (ItemV {
                        id: id,
                        list_id: list_id as int,
                        name: item.name@,
                        unit: item.unit@,
                        required_milli: item.required_milli as int,
                        purchased_milli: item.purchased_milli as int,
                        price_milli: item.price_milli as int,
                    }),
                )),
            r matches Err(e) ==> e is Sql && final(self).lists_model() == old(self).lists_model()
                && final(self).items_model() == old(self).items_model()
                && final(self).items_ever() == old(self).items_ever(),
            final(self).lists_ever() == old(self).lists_ever(),
    ;

    /// Replaces all mutable fields of the item with id `item.id`; the owning
    /// list never changes. A blank name, like an absent id, is a silent
    /// no-op.
    fn update_list_item(&mut self, item: Item) -> (r: Result<(), StoreError>)
        ensures
            is_blank(item.name@) ==> r is Ok && final(self).lists_model() == old(self).lists_model()
                && final(self).items_model() == old(self).items_model(),
            r is Ok && !is_blank(item.name@) ==> final(self).lists_model() == old(self).lists_model()
                && final(self).items_model() == if old(self).items_model().contains_key(
                item.id as int,
            ) {
                old(self).items_model().insert(
                    item.id as int,
                    (ItemV {
                        id: item.id as int,
                        list_id: old(self).items_model()[item.id as int].list_id,
                        name: item.name@,
                        unit: item.unit@,
                        required_milli: item.required_milli as int,
                        purchased_milli: item.purchased_milli as int,
                        price_milli: item.price_milli as int,
                    }),
                )
            } else {
                old(self).items_model()
            },
            r matches Err(e) ==> e is Sql && final(self).lists_model() == old(self).lists_model()
                && final(self).items_model() == old(self).items_model(),
            final(self).lists_ever() == old(self).lists_ever(),
            final(self).items_ever() == old(self).items_ever(),
    ;

    /// Removes the item with the given id; an absent id is a silent no-op.
    fn delete_item(&mut self, id: usize) -> (r: Result<(), StoreError>)
        ensures
            r is Ok ==> final(self).lists_model() == old(self).lists_model() && final(self).items_model() == old(self).items_model().remove(id as int),
            r matches Err(e) ==> e is Sql && final(self).lists_model() == old(self).lists_model()
                && final(self).items_model() == old(self).items_model(),
            final(self).lists_ever() == old(self).lists_ever(),
            final(self).items_ever() == old(self).items_ever(),
    ;

    /// Sets the purchased quantity of every item under the given list to
    /// zero; every other field, and every other list's items, stay as they
    /// were.
    fn clear_list_items(&mut self, list_id: usize) -> (r: Result<(), StoreError>)
        ensures
            r is Ok ==> final(self).lists_model() == old(self).lists_model() && final(self).items_model() == cleared_items(old(self).items_model(), list_id as int),
            r matches Err(e) ==> e is Sql && final(self).lists_model() == old(self).lists_model()
                && final(self).items_model() == old(self).items_model(),
            final(self).lists_ever() == old(self).lists_ever(),
            final(self).items_ever() == old(self).items_ever(),
    ;
}

/// The item map after a clear: purchased quantities under `list_id` zeroed,
/// everything else untouched.
pub open spec fn cleared_items(m: Map<int, ItemV>, list_id: int) -> Map<int, ItemV> {
    Map::new(
        |k: int| m.contains_key(k),
        |k: int|
            if m[k].list_id == list_id {
                ItemV { purchased_milli: 0, ..m[k] }
            } else {
                m[k]
            },
    )
}

/// What `get_list_of_lists` returns: exactly the stored lists, unhydrated,
/// each id once, names ascending.
pub open spec fn listing_of(v: Seq<ListaV>, lists: Map<int, (Seq<char>, bool)>) -> bool {
    &&& forall|i: int|
        0 <= i < v.len() ==> lists.contains_key((#[trigger] v[i]).id) && lists[v[i].id].0
            == v[i].name && lists[v[i].id].1 == v[i].simple_mode && v[i].items is None && v[i].total
            == 0
    &&& forall|k: int|
        #[trigger] lists.contains_key(k) ==> exists|i: int| 0 <= i < v.len() && (#[trigger] v[i]).id == k
    &&& forall|i: int, j: int| 0 <= i < j < v.len() ==> v[i].id != v[j].id
    &&& listas_ordered(v)
}

/// What `get_list` returns on success: the stored name and mode, the items
/// hydrated in display order, and the exact total.
pub open spec fn hydrated_lista(
    l: Lista,
    lists: Map<int, (Seq<char>, bool)>,
    items: Map<int, ItemV>,
    id: int,
) -> bool {
    &&& lists.contains_key(id)
    &&& l.id == id
    &&& l.name@ == lists[id].0
    &&& l.simple_mode == lists[id].1
    &&& match l.items {
        Some(v) => hydrated_items(item_views(v@), items, id) && l.total == total_of(item_views(v@)),
        None => false,
    }
}

/// A list created under a fresh id is listed: any listing of the store
/// after the insertion shows an entry with that id, name and mode; and when
/// no other list bears the name, the name appears exactly once.
pub proof fn lemma_created_list_listed(
    m: Map<int, (Seq<char>, bool)>,
    id: int,
    name: Seq<char>,
    simple_mode: bool,
    v: Seq<ListaV>,
)
    requires
        !m.contains_key(id),
        listing_of(v, m.insert(id, (name, simple_mode))),
    ensures
        exists|i: int|
            0 <= i < v.len() && (#[trigger] v[i]).id == id && v[i].name == name && v[i].simple_mode
                == simple_mode,
        (forall|k: int| #[trigger] m.contains_key(k) ==> m[k].0 != name) ==> (forall|i: int, j: int|
            0 <= i < v.len() && 0 <= j < v.len() && (#[trigger] v[i]).name == name && (#[trigger]
            v[j]).name == name ==> i == j),
{
    let m2 = m.insert(id, (name, simple_mode));
    assert(m2.contains_key(id));
    let i0 = choose|i: int| 0 <= i < v.len() && (#[trigger] v[i]).id == id;
    assert(v[i0].id == id && v[i0].name == name && v[i0].simple_mode == simple_mode);
    if forall|k: int| #[trigger] m.contains_key(k) ==> m[k].0 != name {
        assert forall|i: int, j: int|
            0 <= i < v.len() && 0 <= j < v.len() && (#[trigger] v[i]).name == name && (#[trigger]
            v[j]).name == name implies i == j by {
            if i != j {
                assert(v[i].id != v[j].id);
                if v[i].id != id {
                    assert(m.contains_key(v[i].id));
                    assert(m[v[i].id].0 == name);
                } else {
                    assert(m.contains_key(v[j].id));
                    assert(m[v[j].id].0 == name);
                }
            }
        }
    }
}

/// After a list is deleted the store knows nothing of it: its id is gone
/// from the lists and no surviving item belongs to it — so a later fetch of
/// that id can only answer that it was not found, never a hydrated list.
pub proof fn lemma_deleted_list_gone(
    lists0: Map<int, (Seq<char>, bool)>,
    items0: Map<int, ItemV>,
    lists1: Map<int, (Seq<char>, bool)>,
    items1: Map<int, ItemV>,
    id: int,
)
    requires
        lists1 == lists0.remove(id),
        forall|k: int|
            items1.contains_key(k) <==> (items0.contains_key(k) && items0[k].list_id != id),
        forall|k: int| #[trigger] items1.contains_key(k) ==> items1[k] == items0[k],
    ensures
        !lists1.contains_key(id),
        forall|k: int| #[trigger] items1.contains_key(k) ==> items1[k].list_id != id,
{
}

impl SQLiteConnector {
    /// Every connector the library hands out went through schema
    /// validation, so its tables are this library's.
    #[verifier::type_invariant]
    spec fn schema_inv(self) -> bool {
        db_schema_ok(self.conn)
    }

    /// Relies on rusqlite::Connection::query_row reading, from
    /// sqlite_master, the schema text SQLite keeps for each of the two
    /// tables, and the verdict of PRAGMA integrity_check. When both texts
    /// are exactly this library's and the check answers "ok", the tables
    /// carry the declared types, AUTOINCREMENT primary keys and CHECK
    /// ranges, and every stored row honours them: that is `db_schema_ok`,
    /// and it bounds every stored id and quantity.
    #[verifier::external_body]
    fn exec_read_schema(conn: &rusqlite::Connection) -> (r: Result<
        (String, String, String),
        rusqlite::Error,
    >)
        ensures
            r matches Ok(t) ==> ((t.0@ == lists_schema_text() && t.1@ == items_schema_text()
                && t.2@ == "ok"@) ==> (db_schema_ok(*conn) && schema_bounds(
                db_lists(*conn),
                db_items(*conn),
            ))),
    {
        let ls: String = conn.query_row("SELECT sql FROM sqlite_master WHERE type = 'table' AND name = 'lists';", [], |row| row.get(0))?;
        let its: String = conn.query_row("SELECT sql FROM sqlite_master WHERE type = 'table' AND name = 'items';", [], |row| row.get(0))?;
        let ck: String = conn.query_row("PRAGMA integrity_check;", [], |row| row.get(0))?;
        Ok((ls, its, ck))
    }

    /// Holds a freshly opened connection against this library's schema;
    /// only validated connections become connectors.
    fn validate_schema(conn: &rusqlite::Connection) -> (r: Result<(), StoreError>)
        ensures
            r is Ok ==> db_schema_ok(*conn) && schema_bounds(db_lists(*conn), db_items(*conn)),
    {
        let (ls, its, ck) = match Self::exec_read_schema(conn) {
            Ok(t) => t,
            Err(e) => {
                return Err(StoreError::Sql(e));
            },
        };
        let good = ls == String::from_str(
            "CREATE TABLE lists (id INTEGER PRIMARY KEY AUTOINCREMENT CHECK (id >= 1), name TEXT NOT NULL, simple_mode INTEGER NOT NULL DEFAULT 0)",
        ) && its == String::from_str(
            "CREATE TABLE items (id INTEGER PRIMARY KEY AUTOINCREMENT CHECK (id >= 1), list_id INTEGER NOT NULL CHECK (list_id >= 0), name TEXT NOT NULL, unit TEXT NOT NULL, required_quantity INTEGER NOT NULL CHECK (required_quantity BETWEEN 0 AND 4294967295), purchased_quantity INTEGER NOT NULL CHECK (purchased_quantity BETWEEN 0 AND 4294967295), unit_price INTEGER NOT NULL CHECK (unit_price BETWEEN 0 AND 4294967295))",
        ) && ck == String::from_str("ok");
        if good {
            Ok(())
        } else {
            Err(StoreError::Schema)
        }
    }

    /// Relies on rusqlite::Connection::open_in_memory — a fresh, empty
    /// database — and rusqlite_migration::Migrations::to_latest, which
    /// applies the two schema steps atomically; on a fresh database both
    /// tables come out empty. The schema CHECK constraints keep every
    /// stored id at one or above and every quantity within `MAX_MILLI`.
    #[verifier::external_body]
    fn open_memory_migrated() -> (r: Result<rusqlite::Connection, StoreError>)
        ensures
            r matches Ok(c) ==> db_lists(c) == no_lists() && db_items(c) == no_items()
                && db_lists_ever(c) == Set::<int>::empty() && db_items_ever(c)
                == Set::<int>::empty(),
    {
        let schema = "CREATE TABLE IF NOT EXISTS lists (id INTEGER PRIMARY KEY AUTOINCREMENT CHECK (id >= 1), name TEXT NOT NULL); CREATE TABLE IF NOT EXISTS items (id INTEGER PRIMARY KEY AUTOINCREMENT CHECK (id >= 1), list_id INTEGER NOT NULL CHECK (list_id >= 0), name TEXT NOT NULL, unit TEXT NOT NULL, required_quantity INTEGER NOT NULL CHECK (required_quantity BETWEEN 0 AND 4294967295), purchased_quantity INTEGER NOT NULL CHECK (purchased_quantity BETWEEN 0 AND 4294967295), unit_price INTEGER NOT NULL CHECK (unit_price BETWEEN 0 AND 4294967295));";
        let add_simple = "ALTER TABLE lists ADD COLUMN simple_mode INTEGER NOT NULL DEFAULT 0;";
        let migrations = rusqlite_migration::Migrations::new(vec![rusqlite_migration::M::up(schema), rusqlite_migration::M::up(add_simple)]);
        let mut conn = rusqlite::Connection::open_in_memory().map_err(StoreError::Sql)?;
        migrations.to_latest(&mut conn).map_err(StoreError::Migration)?;
        Ok(conn)
    }

    /// Relies on rusqlite::Connection::open — opens or creates the database
    /// file — Connection::pragma_update setting write-ahead logging, and
    /// rusqlite_migration::Migrations::to_latest applying the two schema
    /// steps atomically. Nothing is assumed about what an existing file
    /// already holds.
    #[verifier::external_body]
    fn open_path_migrated(path: &str) -> (r: Result<rusqlite::Connection, StoreError>)
    {
        let schema = "CREATE TABLE IF NOT EXISTS lists (id INTEGER PRIMARY KEY AUTOINCREMENT CHECK (id >= 1), name TEXT NOT NULL); CREATE TABLE IF NOT EXISTS items (id INTEGER PRIMARY KEY AUTOINCREMENT CHECK (id >= 1), list_id INTEGER NOT NULL CHECK (list_id >= 0), name TEXT NOT NULL, unit TEXT NOT NULL, required_quantity INTEGER NOT NULL CHECK (required_quantity BETWEEN 0 AND 4294967295), purchased_quantity INTEGER NOT NULL CHECK (purchased_quantity BETWEEN 0 AND 4294967295), unit_price INTEGER NOT NULL CHECK (unit_price BETWEEN 0 AND 4294967295));";
        let add_simple = "ALTER TABLE lists ADD COLUMN simple_mode INTEGER NOT NULL DEFAULT 0;";
        let migrations = rusqlite_migration::Migrations::new(vec![rusqlite_migration::M::up(schema), rusqlite_migration::M::up(add_simple)]);
        let mut conn = rusqlite::Connection::open(path).map_err(StoreError::Sql)?;
        conn.pragma_update(None, "journal_mode", "WAL").map_err(StoreError::Sql)?;
        migrations.to_latest(&mut conn).map_err(StoreError::Migration)?;
        Ok(conn)
    }

    /// Opens the store at its place on disk and brings the schema to the
    /// current version. Failure here is fatal to the application: there is
    /// no data layer without it.
    pub fn new() -> (r: Result<SQLiteConnector, StoreError>)
        ensures
            r matches Ok(c) ==> schema_bounds(c.lists_model(), c.items_model()),
    {
        let conn = match Self::open_path_migrated("assets/shopping_list.db") {
            Ok(conn) => conn,
            Err(e) => {
                return Err(e);
            },
        };
        match Self::validate_schema(&conn) {
            Ok(_) => Ok(SQLiteConnector { conn }),
            Err(e) => Err(e),
        }
    }

    /// Opens a fresh, empty store that lives in memory; both model maps
    /// start out empty.
    pub fn new_in_memory() -> (r: Result<SQLiteConnector, StoreError>)
        ensures
            r matches Ok(c) ==> c.lists_model() == no_lists() && c.items_model() == no_items()
                && c.lists_ever() == Set::<int>::empty() && c.items_ever() == Set::<int>::empty(),
    {
        let conn = match Self::open_memory_migrated() {
            Ok(conn) => conn,
            Err(e) => {
                return Err(e);
            },
        };
        match Self::validate_schema(&conn) {
            Ok(_) => Ok(SQLiteConnector { conn }),
            Err(e) => Err(e),
        }
    }

    /// Relies on rusqlite::Connection::execute running the INSERT and
    /// Connection::last_insert_rowid handing back the id SQLite assigned:
    /// one more than the greatest ever used, so fresh and at least one.
    #[verifier::external_body]
    fn exec_insert_list(&mut self, name: &str) -> (r: Result<usize, rusqlite::Error>)
        requires
            db_schema_ok(old(self).conn),
        ensures
            r matches Ok(id) ==> 1 <= id && !db_lists(old(self).conn).contains_key(id as int)
                && !db_lists_ever(old(self).conn).contains(id as int) && db_lists_ever(
                final(self).conn,
            ) == db_lists_ever(old(self).conn).insert(id as int) && db_lists(final(self).conn)
                == db_lists(old(self).conn).insert(
                id as int,
                (name@, false),
            ) && db_items(final(self).conn) == db_items(old(self).conn),
            r is Err ==> db_lists(final(self).conn) == db_lists(old(self).conn) && db_items(
                final(self).conn,
            ) == db_items(old(self).conn) && db_lists_ever(final(self).conn) == db_lists_ever(
                old(self).conn,
            ),
            db_items_ever(final(self).conn) == db_items_ever(old(self).conn),
            db_schema_ok(final(self).conn),
    {
        self.conn.execute("INSERT INTO lists (name, simple_mode) VALUES (?1, 0);", [name])?;
        Ok(self.conn.last_insert_rowid() as usize)
    }

    /// Relies on rusqlite::Connection::execute running the UPDATE: it
    /// rewrites the one row with this id and touches nothing when the id is
    /// absent.
    #[verifier::external_body]
    fn exec_update_list(&mut self, id: usize, name: &str, simple_mode: bool) -> (r: Result<
        (),
        rusqlite::Error,
    >)
        requires
            db_schema_ok(old(self).conn),
        ensures
            r is Ok ==> db_items(final(self).conn) == db_items(old(self).conn) && db_lists(
                final(self).conn,
            ) == if db_lists(old(self).conn).contains_key(id as int) {
                db_lists(old(self).conn).insert(id as int, (name@, simple_mode))
            } else {
                db_lists(old(self).conn)
            },
            r is Err ==> db_lists(final(self).conn) == db_lists(old(self).conn) && db_items(
                final(self).conn,
            ) == db_items(old(self).conn),
            db_lists_ever(final(self).conn) == db_lists_ever(old(self).conn),
            db_items_ever(final(self).conn) == db_items_ever(old(self).conn),
            db_schema_ok(final(self).conn),
    {
        self.conn.execute("UPDATE lists SET name = ?1, simple_mode = ?2 WHERE id = ?3;", (name, simple_mode, id as i64))?;
        Ok(())
    }

    /// Relies on rusqlite::Statement::query_map reading every row of the
    /// lists table, one unhydrated `Lista` per stored list, in no promised
    /// order.
    #[verifier::external_body]
    fn exec_select_lists(&self) -> (r: Result<Vec<(usize, String, bool)>, rusqlite::Error>)
        requires
            db_schema_ok(self.conn),
        ensures
            r matches Ok(v) ==> ({
                let m = db_lists(self.conn);
                &&& forall|i: int|
                    0 <= i < v@.len() ==> m.contains_key((#[trigger] v@[i]).0 as int) && m[v@[i].0
                        as int].0 == v@[i].1@ && m[v@[i].0 as int].1 == v@[i].2 && 1 <= v@[i].0
                &&& forall|k: int|
                    #[trigger] m.contains_key(k) ==> exists|i: int|
                        0 <= i < v@.len() && (#[trigger] v@[i]).0 as int == k
                &&& forall|i: int, j: int| 0 <= i < j < v@.len() ==> v@[i].0 != v@[j].0
            }),
    {
        let mut stmt = self.conn.prepare("SELECT id, name, simple_mode FROM lists;")?;
        let rows = stmt.query_map([], |row| {
            Ok((row.get::<_, i64>(0)? as usize, row.get(1)?, row.get(2)?))
        })?;
        rows.collect()
    }

    /// Relies on rusqlite::Connection::query_row reading the one lists row
    /// with this id; Error::QueryReturnedNoRows, mapped to `None`, is how
    /// SQLite says there is none.
    #[verifier::external_body]
    fn exec_select_list(&self, id: usize) -> (r: Result<Option<(String, bool)>, rusqlite::Error>)
        requires
            db_schema_ok(self.conn),
        ensures
            r matches Ok(v) ==> match v {
                Some(row) => db_lists(self.conn).contains_key(id as int) && db_lists(
                    self.conn,
                )[id as int] == (row.0@, row.1),
                None => !db_lists(self.conn).contains_key(id as int),
            },
    {
        let q = self.conn.query_row("SELECT name, simple_mode FROM lists WHERE id = ?1;", [id as i64], |row| Ok((row.get(0)?, row.get(1)?)));
        match q {
            Ok(v) => Ok(Some(v)),
            Err(rusqlite::Error::QueryReturnedNoRows) => Ok(None),
            Err(e) => Err(e),
        }
    }

    /// Relies on rusqlite::Statement::query_map reading every items row
    /// under this list id, one `Item` per row, in no promised order; the
    /// schema CHECK constraints bound every quantity by `MAX_MILLI` and
    /// keep ids at one or above.
    #[verifier::external_body]
    fn exec_select_items(&self, list_id: usize) -> (r: Result<Vec<Item>, rusqlite::Error>)
        requires
            db_schema_ok(self.conn),
        ensures
            r matches Ok(v) ==> ({
                let m = db_items(self.conn);
                &&& forall|i: int|
                    0 <= i < v@.len() ==> m.contains_key((#[trigger] v@[i]@).id) && m[v@[i]@.id]
                        == v@[i]@ && v@[i]@.list_id == list_id as int && 1 <= v@[i]@.id && v@[i]@.required_milli
                        <= MAX_MILLI && v@[i]@.purchased_milli <= MAX_MILLI && v@[i]@.price_milli
                        <= MAX_MILLI
                &&& forall|k: int|
                    #[trigger] m.contains_key(k) && m[k].list_id == list_id as int ==> exists|i: int|
                        0 <= i < v@.len() && (#[trigger] v@[i]@).id == k
                &&& forall|i: int, j: int| 0 <= i < j < v@.len() ==> v@[i]@.id != v@[j]@.id
            }),
    {
        let mut stmt = self.conn.prepare(
            "SELECT id, name, unit, required_quantity, purchased_quantity, unit_price FROM items WHERE list_id = ?1;",
        )?;
        let rows = stmt.query_map([list_id as i64], |row| {
            Ok(Item { id: row.get::<_, i64>(0)? as usize, list_id, name: row.get(1)?, unit: row.get(2)?, required_milli: row.get::<_, i64>(3)? as u64, purchased_milli: row.get::<_, i64>(4)? as u64, price_milli: row.get::<_, i64>(5)? as u64 })
        })?;
        rows.collect()
    }

    /// Relies on rusqlite::Connection::transaction,
    /// Transaction::execute for the two DELETE statements — items of the
    /// list first, then the list row — and Transaction::commit; either both
    /// deletes last, or on any failure the transaction rolls back and
    /// nothing changes.
    #[verifier::external_body]
    fn exec_delete_list(&mut self, id: usize) -> (r: Result<(), rusqlite::Error>)
        requires
            db_schema_ok(old(self).conn),
        ensures
            r is Ok ==> db_lists(final(self).conn) == db_lists(old(self).conn).remove(id as int)
                && (forall|k: int|
                db_items(final(self).conn).contains_key(k) <==> (db_items(
                    old(self).conn,
                ).contains_key(k) && db_items(old(self).conn)[k].list_id != id as int)) && (forall|
                k: int,
            |
                #[trigger] db_items(final(self).conn).contains_key(k) ==> db_items(
                    final(self).conn,
                )[k] == db_items(old(self).conn)[k]),
            r is Err ==> db_lists(final(self).conn) == db_lists(old(self).conn) && db_items(
                final(self).conn,
            ) == db_items(old(self).conn),
            db_lists_ever(final(self).conn) == db_lists_ever(old(self).conn),
            db_items_ever(final(self).conn) == db_items_ever(old(self).conn),
            db_schema_ok(final(self).conn),
    {
        let tx = self.conn.transaction()?;
        tx.execute("DELETE FROM items WHERE list_id = ?1;", [id as i64])?;
        tx.execute("DELETE FROM lists WHERE id = ?1;", [id as i64])?;
        tx.commit()
    }

    /// Relies on rusqlite::Connection::execute running the INSERT — the
    /// store assigns the id — and Connection::last_insert_rowid handing it
    /// back: one more than the greatest ever used, so fresh and at least
    /// one.
    #[verifier::external_body]
    fn exec_insert_item(&mut self, list_id: usize, item: &Item) -> (r: Result<
        usize,
        rusqlite::Error,
    >)
        requires
            db_schema_ok(old(self).conn),
        ensures
            r matches Ok(id) ==> 1 <= id && !db_items(old(self).conn).contains_key(id as int)
                && !db_items_ever(old(self).conn).contains(id as int) && db_items_ever(
                final(self).conn,
            ) == db_items_ever(old(self).conn).insert(id as int) && db_items(final(self).conn)
                == db_items(old(self).conn).insert(
                id as int,
                (ItemV {
                    id: id as int,
                    list_id: list_id as int,
                    name: item.name@,
                    unit: item.unit@,
                    required_milli: item.required_milli as int,
                    purchased_milli: item.purchased_milli as int,
                    price_milli: item.price_milli as int,
                }),
            ) && db_lists(final(self).conn) == db_lists(old(self).conn),
            r is Err ==> db_lists(final(self).conn) == db_lists(old(self).conn) && db_items(
                final(self).conn,
            ) == db_items(old(self).conn) && db_items_ever(final(self).conn) == db_items_ever(
                old(self).conn,
            ),
            db_lists_ever(final(self).conn) == db_lists_ever(old(self).conn),
            db_schema_ok(final(self).conn),
    {
        self.conn.execute(
            "INSERT INTO items (list_id, name, unit, required_quantity, purchased_quantity, unit_price) VALUES (?1, ?2, ?3, ?4, ?5, ?6);",
            (list_id as i64, &item.name, &item.unit, item.required_milli as i64, item.purchased_milli as i64, item.price_milli as i64),
        )?;
        Ok(self.conn.last_insert_rowid() as usize)
    }

    /// Relies on rusqlite::Connection::execute running the UPDATE: it
    /// rewrites every field but the owning list of the one row with this
    /// id, and touches nothing when the id is absent.
    #[verifier::external_body]
    fn exec_update_item(&mut self, item: &Item) -> (r: Result<(), rusqlite::Error>)
        requires
            db_schema_ok(old(self).conn),
        ensures
            r is Ok ==> db_lists(final(self).conn) == db_lists(old(self).conn) && db_items(
                final(self).conn,
            ) == if db_items(old(self).conn).contains_key(item.id as int) {
                db_items(old(self).conn).insert(
                    item.id as int,
                    (ItemV {
                        id: item.id as int,
                        list_id: db_items(old(self).conn)[item.id as int].list_id,
                        name: item.name@,
                        unit: item.unit@,
                        required_milli: item.required_milli as int,
                        purchased_milli: item.purchased_milli as int,
                        price_milli: item.price_milli as int,
                    }),
                )
            } else {
                db_items(old(self).conn)
            },
            r is Err ==> db_lists(final(self).conn) == db_lists(old(self).conn) && db_items(
                final(self).conn,
            ) == db_items(old(self).conn),
            db_lists_ever(final(self).conn) == db_lists_ever(old(self).conn),
            db_items_ever(final(self).conn) == db_items_ever(old(self).conn),
            db_schema_ok(final(self).conn),
    {
        self.conn.execute(
            "UPDATE items SET name = ?1, unit = ?2, required_quantity = ?3, purchased_quantity = ?4, unit_price = ?5 WHERE id = ?6;",
            (&item.name, &item.unit, item.required_milli as i64, item.purchased_milli as i64, item.price_milli as i64, item.id as i64),
        )?;
        Ok(())
    }

    /// Relies on rusqlite::Connection::execute running the DELETE: the one
    /// row with this id goes, an absent id deletes nothing.
    #[verifier::external_body]
    fn exec_delete_item(&mut self, id: usize) -> (r: Result<(), rusqlite::Error>)
        requires
            db_schema_ok(old(self).conn),
        ensures
            r is Ok ==> db_lists(final(self).conn) == db_lists(old(self).conn) && db_items(
                final(self).conn,
            ) == db_items(old(self).conn).remove(id as int),
            r is Err ==> db_lists(final(self).conn) == db_lists(old(self).conn) && db_items(
                final(self).conn,
            ) == db_items(old(self).conn),
            db_lists_ever(final(self).conn) == db_lists_ever(old(self).conn),
            db_items_ever(final(self).conn) == db_items_ever(old(self).conn),
            db_schema_ok(final(self).conn),
    {
        self.conn.execute("DELETE FROM items WHERE id = ?1;", [id as i64])?;
        Ok(())
    }

    /// Relies on rusqlite::Connection::execute running the UPDATE: it sets
    /// the purchased quantity to zero on every row under this list id and
    /// touches no other column and no other row.
    #[verifier::external_body]
    fn exec_clear_items(&mut self, list_id: usize) -> (r: Result<(), rusqlite::Error>)
        requires
            db_schema_ok(old(self).conn),
        ensures
            r is Ok ==> db_lists(final(self).conn) == db_lists(old(self).conn) && db_items(
                final(self).conn,
            ) == cleared_items(db_items(old(self).conn), list_id as int),
            r is Err ==> db_lists(final(self).conn) == db_lists(old(self).conn) && db_items(
                final(self).conn,
            ) == db_items(old(self).conn),
            db_lists_ever(final(self).conn) == db_lists_ever(old(self).conn),
            db_items_ever(final(self).conn) == db_items_ever(old(self).conn),
            db_schema_ok(final(self).conn),
    {
        self.conn.execute("UPDATE items SET purchased_quantity = 0 WHERE list_id = ?1;", [list_id as i64])?;
        Ok(())
    }
}

impl DBConnector for SQLiteConnector {
    closed spec fn lists_model(&self) -> Map<int, (Seq<char>, bool)> {
        db_lists(self.conn)
    }

    closed spec fn items_model(&self) -> Map<int, ItemV> {
        db_items(self.conn)
    }

    closed spec fn lists_ever(&self) -> Set<int> {
        db_lists_ever(self.conn)
    }

    closed spec fn items_ever(&self) -> Set<int> {
        db_items_ever(self.conn)
    }

    fn create_new_list(&mut self, name: String) -> (r: Result<(), StoreError>) {
        proof {
            use_type_invariant(&*self);
        }
        if str_is_blank(name.as_str()) {
            return Ok(());
        }
        match self.exec_insert_list(name.as_str()) {
            Ok(id) => {
                proof {
                    assert(1 <= id as int && !old(self).lists_ever().contains(id as int)
                        && !old(self).lists_model().contains_key(id as int)
                        && self.lists_ever() == old(self).lists_ever().insert(id as int)
                        && self.lists_model() == old(self).lists_model().insert(
                        id as int,
                        (name@, false),
                    ));
                }
                Ok(())
            },
            Err(e) => Err(StoreError::Sql(e)),
        }
    }

    fn update_list(&mut self, id: usize, name: String, simple_mode: bool) -> (r: Result<
        (),
        StoreError,
    >) {
        proof {
            use_type_invariant(&*self);
        }
        if str_is_blank(name.as_str()) {
            return Ok(());
        }
        match self.exec_update_list(id, name.as_str(), simple_mode) {
            Ok(_) => Ok(()),
            Err(e) => Err(StoreError::Sql(e)),
        }
    }

    fn get_list_of_lists(&self) -> (r: Result<Vec<Lista>, StoreError>) {
        proof {
            use_type_invariant(&*self);
        }
        let rows = match self.exec_select_lists() {
            Ok(v) => v,
            Err(e) => {
                return Err(StoreError::Sql(e));
            },
        };
        let ghost m = self.lists_model();
        let mut raw: Vec<Lista> = Vec::new();
        let mut i: usize = 0;
        while i < rows.len()
            invariant
                i <= rows@.len(),
                raw@.len() == i,
                forall|j: int|
                    0 <= j < i ==> (#[trigger] raw@[j]).id == rows@[j].0 && raw@[j].name@
                        == rows@[j].1@ && raw@[j].simple_mode == rows@[j].2 && raw@[j].items
                        is None && raw@[j].total == 0,
            decreases rows@.len() - i,
        {
            let row = &rows[i];
            raw.push(
                Lista { id: row.0, name: row.1.clone(), simple_mode: row.2, items: None, total: 0 },
            );
            i += 1;
        }
        let ghost raw_views = lista_views(raw@);
        proof {
            assert forall|a: int| 0 <= a < raw_views.len() implies ({
                &&& m.contains_key((#[trigger] raw_views[a]).id)
                &&& m[raw_views[a].id].0 == raw_views[a].name
                &&& m[raw_views[a].id].1 == raw_views[a].simple_mode
                &&& raw_views[a].items is None
                &&& raw_views[a].total == 0
            }) by {
                assert(raw_views[a] == raw@[a]@);
                assert(m.contains_key(rows@[a].0 as int));
            }
            assert forall|k: int| #[trigger] m.contains_key(k) implies exists|a: int|
                0 <= a < raw_views.len() && (#[trigger] raw_views[a]).id == k by {
                let j = choose|j: int| 0 <= j < rows@.len() && (#[trigger] rows@[j]).0 as int == k;
                assert(raw_views[j] == raw@[j]@);
                assert(0 <= j < raw_views.len() && raw_views[j].id == k);
            }
            assert forall|a: int, b: int| 0 <= a < b < raw_views.len() implies (#[trigger]
            raw_views[a]).id != (#[trigger] raw_views[b]).id by {
                assert(raw_views[a] == raw@[a]@);
                assert(raw_views[b] == raw@[b]@);
                assert(rows@[a].0 != rows@[b].0);
            }
        }
        let sorted = sort_listas(raw);
        proof {
            let s = lista_views(sorted@);
            lemma_perm_contains(s, raw_views);
            lemma_perm_distinct_keys(raw_views, s, |l: ListaV| l.id);
            assert forall|i: int| 0 <= i < s.len() implies ({
                &&& m.contains_key((#[trigger] s[i]).id)
                &&& m[s[i].id].0 == s[i].name
                &&& m[s[i].id].1 == s[i].simple_mode
                &&& s[i].items is None
                &&& s[i].total == 0
            }) by {
                assert(s.contains(s[i]));
                assert(raw_views.contains(s[i]));
                let a = choose|a: int| 0 <= a < raw_views.len() && raw_views[a] == s[i];
                assert(m.contains_key(raw_views[a].id));
            }
            assert forall|k: int| #[trigger] m.contains_key(k) implies exists|i: int|
                0 <= i < s.len() && (#[trigger] s[i]).id == k by {
                let a = choose|a: int| 0 <= a < raw_views.len() && (#[trigger] raw_views[a]).id == k;
                assert(raw_views.contains(raw_views[a]));
                assert(s.contains(raw_views[a]));
                let i = choose|i: int| 0 <= i < s.len() && s[i] == raw_views[a];
                assert(s[i].id == k);
            }
        }
        Ok(sorted)
    }

    fn get_list(&self, id: usize) -> (r: Result<Lista, StoreError>) {
        proof {
            use_type_invariant(&*self);
        }
        let head = match self.exec_select_list(id) {
            Ok(Some(row)) => row,
            Ok(None) => {
                return Err(StoreError::NotFound);
            },
            Err(e) => {
                return Err(StoreError::Sql(e));
            },
        };
        let raw = match self.exec_select_items(id) {
            Ok(v) => v,
            Err(e) => {
                return Err(StoreError::Sql(e));
            },
        };
        let ghost raw_views = item_views(raw@);
        let ghost m = self.items_model();
        proof {
            assert forall|i: int| 0 <= i < raw_views.len() implies ({
                &&& m.contains_key((#[trigger] raw_views[i]).id)
                &&& m[raw_views[i].id] == raw_views[i]
                &&& raw_views[i].list_id == id as int
                &&& 0 <= raw_views[i].required_milli <= MAX_MILLI
                &&& 0 <= raw_views[i].purchased_milli <= MAX_MILLI
                &&& 0 <= raw_views[i].price_milli <= MAX_MILLI
            }) by {
                assert(raw_views[i] == raw@[i]@);
            }
            assert forall|k: int|
                #[trigger] m.contains_key(k) && m[k].list_id == id as int implies exists|a: int|
                0 <= a < raw_views.len() && (#[trigger] raw_views[a]).id == k by {
                let i = choose|i: int| 0 <= i < raw@.len() && (#[trigger] raw@[i]@).id == k;
                assert(raw_views[i] == raw@[i]@);
                assert(0 <= i < raw_views.len() && raw_views[i].id == k);
            }
            assert forall|i: int, j: int| 0 <= i < j < raw_views.len() implies (#[trigger]
            raw_views[i]).id != (#[trigger] raw_views[j]).id by {
                assert(raw_views[i] == raw@[i]@);
                assert(raw_views[j] == raw@[j]@);
            }
        }
        let sorted = sort_items(raw);
        proof {
            let s = item_views(sorted@);
            lemma_perm_contains(s, raw_views);
            lemma_perm_distinct_keys(raw_views, s, |it: ItemV| it.id);
            assert forall|j: int| 0 <= j < s.len() implies m.contains_key((#[trigger] s[j]).id)
                && m[s[j].id] == s[j] && s[j].list_id == id as int by {
                assert(s.contains(s[j]));
                assert(raw_views.contains(s[j]));
                let a = choose|a: int| 0 <= a < raw_views.len() && raw_views[a] == s[j];
                assert(m.contains_key(raw_views[a].id));
            }
            assert forall|k: int| #[trigger] m.contains_key(k) && m[k].list_id == id as int implies
                exists|j: int| 0 <= j < s.len() && (#[trigger] s[j]).id == k by {
                let a = choose|a: int| 0 <= a < raw_views.len() && (#[trigger] raw_views[a]).id == k;
                assert(raw_views.contains(raw_views[a]));
                assert(s.contains(raw_views[a]));
                let j = choose|j: int| 0 <= j < s.len() && s[j] == raw_views[a];
                assert(s[j].id == k);
            }
            assert forall|j: int| 0 <= j < sorted@.len() implies (#[trigger] sorted@[j]).wf() by {
                assert(s[j] == sorted@[j]@);
                assert(s.contains(s[j]));
                assert(raw_views.contains(s[j]));
                let a = choose|a: int| 0 <= a < raw_views.len() && raw_views[a] == s[j];
                assert(m.contains_key(raw_views[a].id));
            }
        }
        let total = compute_total(&sorted);
        Ok(
            Lista {
                id,
                name: head.0,
                simple_mode: head.1,
                items: Some(sorted),
                total,
            },
        )
    }

    fn delete_list(&mut self, id: usize) -> (r: Result<(), StoreError>) {
        proof {
            use_type_invariant(&*self);
        }
        match self.exec_delete_list(id) {
            Ok(_) => Ok(()),
            Err(e) => Err(StoreError::Sql(e)),
        }
    }

    fn create_new_list_item(&mut self, list_id: usize, item: Item) -> (r: Result<(), StoreError>) {
        proof {
            use_type_invariant(&*self);
        }
        if str_is_blank(item.name.as_str()) {
            return Ok(());
        }
        match self.exec_insert_item(list_id, &item) {
            Ok(id) => {
                proof {
                    assert(1 <= id as int && !old(self).items_ever().contains(id as int)
                        && !old(self).items_model().contains_key(id as int)
                        && self.items_ever() == old(self).items_ever().insert(id as int)
                        && self.items_model() == old(self).items_model().insert(
                        id as int,
                        (ItemV {
                            id: id as int,
                            list_id: list_id as int,
                            name: item.name@,
                            unit: item.unit@,
                            required_milli: item.required_milli as int,
                            purchased_milli: item.purchased_milli as int,
                            price_milli: item.price_milli as int,
                        }),
                    ));
                }
                Ok(())
            },
            Err(e) => Err(StoreError::Sql(e)),
        }
    }

    fn update_list_item(&mut self, item: Item) -> (r: Result<(), StoreError>) {
        proof {
            use_type_invariant(&*self);
        }
        if str_is_blank(item.name.as_str()) {
            return Ok(());
        }
        match self.exec_update_item(&item) {
            Ok(_) => Ok(()),
            Err(e) => Err(StoreError::Sql(e)),
        }
    }

    fn delete_item(&mut self, id: usize) -> (r: Result<(), StoreError>) {
        proof {
            use_type_invariant(&*self);
        }
        match self.exec_delete_item(id) {
            Ok(_) => Ok(()),
            Err(e) => Err(StoreError::Sql(e)),
        }
    }

    fn clear_list_items(&mut self, list_id: usize) -> (r: Result<(), StoreError>) {
        proof {
            use_type_invariant(&*self);
        }
        match self.exec_clear_items(list_id) {
            Ok(_) => Ok(()),
            Err(e) => Err(StoreError::Sql(e)),
        }
    }
}

} // verus!
