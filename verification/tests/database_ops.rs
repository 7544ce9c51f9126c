use tinydb::{Database, DatabaseError};

/// A dummy struct to use inside of tests.
#[derive(Clone, Hash, Eq, PartialEq, Debug)]
struct DemoStruct {
    name: String,
    age: i32,
}

/// Tests addition to in-memory db.
#[test]
fn item_add() -> Result<(), DatabaseError> {
    let mut my_db = Database::new(String::from("Adding test"), None, true);

    my_db.add_item(DemoStruct { name: String::from("John"), age: 16 })?;

    Ok(())
}

/// Tests removal from in-memory db.
#[test]
fn item_remove() -> Result<(), DatabaseError> {
    let mut my_db = Database::new(String::from("Removal test"), None, true);

    let testing_struct = DemoStruct { name: String::from("Xander"), age: 33 };

    my_db.add_item(testing_struct.clone())?;
    my_db.remove_item(&testing_struct)?;

    Ok(())
}

/// Tests `Database::query_item`.
#[test]
fn query_item_db() {
    let mut my_db = Database::new(
        String::from("Query test"),
        Some(String::from("test.tinydb")),
        true,
    );

    my_db.add_item(DemoStruct { name: String::from("Rimmer"), age: 5 }).unwrap();
    my_db.add_item(DemoStruct { name: String::from("Cat"), age: 10 }).unwrap();
    my_db.add_item(DemoStruct { name: String::from("Kryten"), age: 3000 }).unwrap();
    my_db.add_item(DemoStruct { name: String::from("Lister"), age: 62 }).unwrap();

    assert_eq!(
        my_db.query_item(|f| &f.age, 62).unwrap(),
        &DemoStruct { name: String::from("Lister"), age: 62 }
    );
    assert_eq!(
        my_db.query_item(|f| &f.name, String::from("Cat")).unwrap(),
        &DemoStruct { name: String::from("Cat"), age: 10 }
    );
}

/// Tests `Database::query`.
#[test]
fn query_db() {
    let mut my_db = Database::new(
        String::from("Query test"),
        Some(String::from("test.tinydb")),
        false,
    );

    my_db.add_item(DemoStruct { name: String::from("Rimmer"), age: 5 }).unwrap();
    my_db.add_item(DemoStruct { name: String::from("Cat"), age: 10 }).unwrap();
    my_db.add_item(DemoStruct { name: String::from("Kryten"), age: 3000 }).unwrap();
    my_db.add_item(DemoStruct { name: String::from("Lister"), age: 62 }).unwrap();

    my_db.add_item(DemoStruct { name: String::from("Lister"), age: 64 }).unwrap();

    assert_eq!(my_db.query(|f| &f.name, String::from("Lister")).unwrap().len(), 2);
}

/// Test if the database contains that exact item, related to
/// `Database::contains`.
#[test]
fn db_contains() {
    let exp_struct = DemoStruct { name: String::from("Xander"), age: 33 };

    let mut db = Database::new(String::from("Contains example"), None, false);
    db.add_item(exp_struct.clone()).unwrap();
    assert_eq!(db.contains(&exp_struct), true);
}

/// Tests `Database::auto_from`'s ability to create new databases; an
/// all-round test of its fallback purpose.
#[test]
fn auto_from_creation() {
    let _dummy_db: Database<DemoStruct> =
        Database::new(String::from("alreadyexists"), None, false);

    let _from_db: Database<DemoStruct> =
        Database::auto_from(String::from("alreadyexists.tinydb"), false, None).unwrap();

    let _net_db: Database<DemoStruct> =
        Database::auto_from(String::from("nonexistant.tinydb"), false, None).unwrap();
}

/// Tests `Database::len` returns the number of database entries.
#[test]
fn len() {
    let mut db: Database<DemoStruct> = Database::new(
        String::from("Query test"),
        Some(String::from("test.tinydb")),
        true,
    );

    let demo_mock = DemoStruct { name: String::from("Xander"), age: 33 };

    db.add_item(demo_mock.clone()).unwrap();

    assert_eq!(db.len(), 1);
}

/// A strict database refuses a second equal record, keeps its count, still
/// answers queries, and reports a removal of a gone record.
#[test]
fn strict_dupe_scenario() {
    let mut db = Database::new(String::from("Scenario"), None, true);
    let john = DemoStruct { name: String::from("John"), age: 16 };

    assert_eq!(db.add_item(john.clone()), Ok(()));
    assert_eq!(db.len(), 1);

    assert_eq!(db.add_item(john.clone()), Err(DatabaseError::DupeFound));
    assert_eq!(db.len(), 1);

    let found = db.query(|s| &s.age, 16).unwrap();
    assert_eq!(found, vec![&john]);

    assert_eq!(db.remove_item(&john), Ok(()));
    assert_eq!(db.len(), 0);
    assert_eq!(db.remove_item(&john), Err(DatabaseError::ItemNotFound));
}

/// A lax database accepts a second equal record without growing.
#[test]
fn lax_dupe_add() {
    let mut db = Database::new(String::from("Lax"), None, false);
    let john = DemoStruct { name: String::from("John"), age: 16 };

    assert_eq!(db.add_item(john.clone()), Ok(()));
    assert_eq!(db.add_item(john.clone()), Ok(()));
    assert_eq!(db.len(), 1);
    assert!(db.contains(&john));
}

/// Removing an absent record fails and changes nothing.
#[test]
fn remove_absent() {
    let mut db = Database::new(String::from("Absent"), None, true);
    let john = DemoStruct { name: String::from("John"), age: 16 };
    let ghost_rec = DemoStruct { name: String::from("Nobody"), age: 1 };

    db.add_item(john).unwrap();
    assert_eq!(db.remove_item(&ghost_rec), Err(DatabaseError::ItemNotFound));
    assert_eq!(db.len(), 1);
}

/// Queries that match nothing fail with the not-found error.
#[test]
fn query_not_found() {
    let mut db = Database::new(String::from("Empty query"), None, true);
    db.add_item(DemoStruct { name: String::from("John"), age: 16 }).unwrap();

    assert_eq!(db.query_item(|s| &s.age, 99).unwrap_err(), DatabaseError::ItemNotFound);
    assert_eq!(db.query(|s| &s.age, 99).unwrap_err(), DatabaseError::ItemNotFound);
}

/// Replacing a present record with a fresh one keeps the count and swaps
/// membership.
#[test]
fn update_present() {
    let mut db = Database::new(String::from("Update"), None, true);
    let old_rec = DemoStruct { name: String::from("John"), age: 16 };
    let new_rec = DemoStruct { name: String::from("John"), age: 17 };

    db.add_item(DemoStruct { name: String::from("Xander"), age: 33 }).unwrap();
    db.add_item(old_rec.clone()).unwrap();

    assert_eq!(db.update_item(&old_rec, new_rec.clone()), Ok(()));
    assert_eq!(db.len(), 2);
    assert!(db.contains(&new_rec));
    assert!(!db.contains(&old_rec));
}

/// Replacing an absent record fails before anything is inserted.
#[test]
fn update_absent() {
    let mut db = Database::new(String::from("Update absent"), None, true);
    let old_rec = DemoStruct { name: String::from("John"), age: 16 };
    let new_rec = DemoStruct { name: String::from("John"), age: 17 };

    assert_eq!(db.update_item(&old_rec, new_rec.clone()), Err(DatabaseError::ItemNotFound));
    assert_eq!(db.len(), 0);
    assert!(!db.contains(&new_rec));
}

/// When the insertion half of a replacement collides under the strict
/// policy, the removed record is already gone and nothing was added.
#[test]
fn update_collision_is_not_rolled_back() {
    let mut db = Database::new(String::from("Update collision"), None, true);
    let old_rec = DemoStruct { name: String::from("John"), age: 16 };
    let other = DemoStruct { name: String::from("Xander"), age: 33 };

    db.add_item(old_rec.clone()).unwrap();
    db.add_item(other.clone()).unwrap();

    assert_eq!(db.update_item(&old_rec, other.clone()), Err(DatabaseError::DupeFound));
    assert_eq!(db.len(), 1);
    assert!(!db.contains(&old_rec));
    assert!(db.contains(&other));
}

/// The effective save path is the explicit one when given, else the label
/// with the default extension.
#[test]
fn smart_path() {
    let explicit: Database<DemoStruct> = Database::new(
        String::from("anything"),
        Some(String::from("somewhere/else.bin")),
        false,
    );
    assert_eq!(explicit.smart_path_get(), String::from("somewhere/else.bin"));

    let derived: Database<DemoStruct> = Database::new(String::from("mydb"), None, false);
    assert_eq!(derived.smart_path_get(), String::from("mydb.tinydb"));
}

/// A created-from-path database takes its label from the path's stem and
/// remembers the path itself.
#[test]
fn auto_from_fresh_db() {
    let db: Database<DemoStruct> =
        Database::auto_from(String::from("new.db"), false, None).unwrap();
    assert_eq!(db.label, String::from("new"));
    assert_eq!(db.save_path, Some(String::from("new.db")));
    assert_eq!(db.strict_dupes, false);
    assert_eq!(db.len(), 0);
}

/// Stems are taken up to the last dot, past the last separator; a leading
/// dot does not mark an extension; hopeless paths are refused.
#[test]
fn auto_from_stems() {
    let multi: Database<DemoStruct> =
        Database::auto_from(String::from("x.y.z"), false, None).unwrap();
    assert_eq!(multi.label, String::from("x.y"));

    let plain: Database<DemoStruct> =
        Database::auto_from(String::from("nodot"), false, None).unwrap();
    assert_eq!(plain.label, String::from("nodot"));

    let hidden: Database<DemoStruct> =
        Database::auto_from(String::from(".hidden"), false, None).unwrap();
    assert_eq!(hidden.label, String::from(".hidden"));

    let nested: Database<DemoStruct> =
        Database::auto_from(String::from("dir/name.db"), false, None).unwrap();
    assert_eq!(nested.label, String::from("name"));

    let empty: Result<Database<DemoStruct>, DatabaseError> =
        Database::auto_from(String::from(""), false, None);
    assert_eq!(empty.unwrap_err(), DatabaseError::BadDbName);

    let parent: Result<Database<DemoStruct>, DatabaseError> =
        Database::auto_from(String::from("dir/.."), false, None);
    assert_eq!(parent.unwrap_err(), DatabaseError::BadDbName);
}

/// Trailing separators and current-directory segments do not change which
/// file a path names, matching how the filesystem reads them.
#[test]
fn auto_from_trailing_separators() {
    let slash: Database<DemoStruct> =
        Database::auto_from(String::from("foo/"), false, None).unwrap();
    assert_eq!(slash.label, String::from("foo"));

    let nested: Database<DemoStruct> =
        Database::auto_from(String::from("dir/name//"), false, None).unwrap();
    assert_eq!(nested.label, String::from("name"));

    let curdir: Database<DemoStruct> =
        Database::auto_from(String::from("foo/."), false, None).unwrap();
    assert_eq!(curdir.label, String::from("foo"));

    let ext: Database<DemoStruct> =
        Database::auto_from(String::from("dir/name.db/"), false, None).unwrap();
    assert_eq!(ext.label, String::from("name"));

    let root: Result<Database<DemoStruct>, DatabaseError> =
        Database::auto_from(String::from("/"), false, None);
    assert_eq!(root.unwrap_err(), DatabaseError::BadDbName);

    let dot: Result<Database<DemoStruct>, DatabaseError> =
        Database::auto_from(String::from("./"), false, None);
    assert_eq!(dot.unwrap_err(), DatabaseError::BadDbName);
}

/// A database given back by `auto_from` with a loaded value is that value,
/// whatever the other arguments say.
#[test]
fn auto_from_prefers_loaded() {
    let mut loaded = Database::new(String::from("kept"), None, true);
    loaded.add_item(DemoStruct { name: String::from("John"), age: 16 }).unwrap();

    let db = Database::auto_from(String::from("other.db"), false, Some(loaded)).unwrap();
    assert_eq!(db.label, String::from("kept"));
    assert_eq!(db.strict_dupes, true);
    assert_eq!(db.len(), 1);
}

/// Rebuilding from parts keeps one of each equal record and the metadata
/// as given.
#[test]
fn from_parts_dedups() {
    let john = DemoStruct { name: String::from("John"), age: 16 };
    let records = vec![john.clone(), john.clone(), DemoStruct {
        name: String::from("Xander"),
        age: 33,
    }];

    let db = Database::from_parts(
        String::from("rebuilt"),
        Some(String::from("rebuilt.tinydb")),
        true,
        records,
    );
    assert_eq!(db.len(), 2);
    assert!(db.contains(&john));
    assert_eq!(db.label, String::from("rebuilt"));
}
