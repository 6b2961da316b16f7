//! End-to-end tests of the persistence facade against a real in-memory
//! store.

use shopping_list::DBConnector;
use shopping_list::Item;
use shopping_list::SQLiteConnector;
use shopping_list::StoreError;

fn open_store() -> SQLiteConnector {
    SQLiteConnector::new_in_memory().expect("in-memory store must open")
}

fn plain_item(name: &str, required: u64, purchased: u64, price: u64) -> Item {
    Item {
        id: 0,
        list_id: 0,
        name: String::from(name),
        unit: String::from("unit"),
        required_milli: required,
        purchased_milli: purchased,
        price_milli: price,
    }
}

#[test]
fn fresh_store_is_empty() {
    let store = open_store();
    let lists = store.get_list_of_lists().unwrap();
    assert!(lists.is_empty());
}

#[test]
fn created_list_is_listed_once_and_retrievable() {
    let mut store = open_store();
    store.create_new_list(String::from("Groceries")).unwrap();
    let lists = store.get_list_of_lists().unwrap();
    assert_eq!(lists.len(), 1);
    assert_eq!(lists[0].name, "Groceries");
    assert!(!lists[0].simple_mode);
    assert!(lists[0].items.is_none());
    assert_eq!(lists[0].total, 0);
    assert!(lists[0].id >= 1);
    let fetched = store.get_list(lists[0].id).unwrap();
    assert_eq!(fetched.name, "Groceries");
    assert_eq!(fetched.id, lists[0].id);
}

#[test]
fn blank_list_names_are_silent_noops() {
    let mut store = open_store();
    store.create_new_list(String::new()).unwrap();
    store.create_new_list(String::from("   \t\n ")).unwrap();
    assert!(store.get_list_of_lists().unwrap().is_empty());
}

#[test]
fn blank_update_keeps_the_old_name() {
    let mut store = open_store();
    store.create_new_list(String::from("Pantry")).unwrap();
    let id = store.get_list_of_lists().unwrap()[0].id;
    store.update_list(id, String::from("  "), true).unwrap();
    let l = store.get_list(id).unwrap();
    assert_eq!(l.name, "Pantry");
    assert!(!l.simple_mode);
}

#[test]
fn update_list_replaces_name_and_mode() {
    let mut store = open_store();
    store.create_new_list(String::from("Old")).unwrap();
    let id = store.get_list_of_lists().unwrap()[0].id;
    store.update_list(id, String::from("New"), true).unwrap();
    let l = store.get_list(id).unwrap();
    assert_eq!(l.name, "New");
    assert!(l.simple_mode);
}

#[test]
fn update_of_absent_list_is_a_noop() {
    let mut store = open_store();
    store.create_new_list(String::from("Only")).unwrap();
    store.update_list(9999, String::from("Ghost"), true).unwrap();
    let lists = store.get_list_of_lists().unwrap();
    assert_eq!(lists.len(), 1);
    assert_eq!(lists[0].name, "Only");
}

#[test]
fn lists_come_back_sorted_by_name() {
    let mut store = open_store();
    store.create_new_list(String::from("bananas")).unwrap();
    store.create_new_list(String::from("apples")).unwrap();
    store.create_new_list(String::from("cherries")).unwrap();
    let names: Vec<String> =
        store.get_list_of_lists().unwrap().into_iter().map(|l| l.name).collect();
    assert_eq!(names, vec!["apples", "bananas", "cherries"]);
}

#[test]
fn get_list_of_absent_id_is_not_found() {
    let store = open_store();
    assert!(matches!(store.get_list(42), Err(StoreError::NotFound)));
}

#[test]
fn groceries_milk_scenario() {
    let mut store = open_store();
    store.create_new_list(String::from("Groceries")).unwrap();
    let id = store.get_list_of_lists().unwrap()[0].id;
    // Milk: one unit required, 2.50 a unit, nothing bought yet
    store.create_new_list_item(id, plain_item("Milk", 1000, 0, 2500)).unwrap();
    let l = store.get_list(id).unwrap();
    assert_eq!(l.total, 0);
    let items = l.items.unwrap();
    assert_eq!(items.len(), 1);
    assert!(items[0].purchased_milli < 1);
    // buy the unit of milk
    let mut milk = items[0].clone();
    milk.purchased_milli = 1000;
    store.update_list_item(milk).unwrap();
    let l = store.get_list(id).unwrap();
    assert_eq!(l.total, 2_500_000);  // 2.50, in millionths
    let items = l.items.unwrap();
    assert!(items[0].purchased_milli >= 1);
}

#[test]
fn unpurchased_items_come_first_names_ascending() {
    let mut store = open_store();
    store.create_new_list(String::from("Weekly")).unwrap();
    let id = store.get_list_of_lists().unwrap()[0].id;
    store.create_new_list_item(id, plain_item("Bread", 1000, 0, 1000)).unwrap();
    store.create_new_list_item(id, plain_item("Apples", 1000, 1000, 500)).unwrap();
    store.create_new_list_item(id, plain_item("Carrots", 1000, 0, 700)).unwrap();
    let l = store.get_list(id).unwrap();
    let names: Vec<String> = l.items.unwrap().into_iter().map(|it| it.name).collect();
    // unpurchased first in name order, then the purchased group
    assert_eq!(names, vec!["Bread", "Carrots", "Apples"]);
}

#[test]
fn one_thousandth_counts_as_purchased() {
    let mut store = open_store();
    store.create_new_list(String::from("Edge")).unwrap();
    let id = store.get_list_of_lists().unwrap()[0].id;
    // "Aaa" is bought (exactly the 0.001 boundary), "Zzz" is not: the group
    // outranks the name.
    store.create_new_list_item(id, plain_item("Aaa", 1000, 1, 2000)).unwrap();
    store.create_new_list_item(id, plain_item("Zzz", 1000, 0, 3000)).unwrap();
    let l = store.get_list(id).unwrap();
    let names: Vec<String> = l.items.unwrap().into_iter().map(|it| it.name).collect();
    assert_eq!(names, vec!["Zzz", "Aaa"]);
    assert_eq!(l.total, 2000); // 0.001 * 2.0, in millionths
}

#[test]
fn total_ignores_insertion_order() {
    let mut store = open_store();
    store.create_new_list(String::from("One")).unwrap();
    store.create_new_list(String::from("Two")).unwrap();
    let lists = store.get_list_of_lists().unwrap();
    let (a, b) = (lists[0].id, lists[1].id);
    store.create_new_list_item(a, plain_item("X", 1000, 2000, 1500)).unwrap();
    store.create_new_list_item(a, plain_item("Y", 1000, 500, 800)).unwrap();
    store.create_new_list_item(b, plain_item("Y", 1000, 500, 800)).unwrap();
    store.create_new_list_item(b, plain_item("X", 1000, 2000, 1500)).unwrap();
    let ta = store.get_list(a).unwrap().total;
    let tb = store.get_list(b).unwrap().total;
    // 2.0 * 1.5 + 0.5 * 0.8 = 3.4, in millionths
    assert_eq!(ta, 3_400_000);
    assert_eq!(tb, ta);
}

#[test]
fn clear_items_resets_only_purchased_quantities() {
    let mut store = open_store();
    store.create_new_list(String::from("Clearable")).unwrap();
    store.create_new_list(String::from("Untouched")).unwrap();
    let lists = store.get_list_of_lists().unwrap();
    let (a, b) = (lists[0].id, lists[1].id);
    store.create_new_list_item(a, plain_item("Eggs", 6000, 6000, 300)).unwrap();
    store.create_new_list_item(a, plain_item("Ham", 500, 250, 12000)).unwrap();
    store.create_new_list_item(b, plain_item("Oil", 1000, 1000, 4000)).unwrap();
    store.clear_list_items(a).unwrap();
    let la = store.get_list(a).unwrap();
    assert_eq!(la.total, 0);
    for it in la.items.unwrap() {
        assert_eq!(it.purchased_milli, 0);
    }
    let items = store.get_list(a).unwrap().items.unwrap();
    let eggs = items.iter().find(|it| it.name == "Eggs").unwrap().clone();
    assert_eq!(eggs.required_milli, 6000);
    assert_eq!(eggs.unit, "unit");
    assert_eq!(eggs.price_milli, 300);
    let ham = items.iter().find(|it| it.name == "Ham").unwrap().clone();
    assert_eq!(ham.required_milli, 500);
    assert_eq!(ham.price_milli, 12000);
    // the other list keeps its purchases
    let lb = store.get_list(b).unwrap();
    assert_eq!(lb.items.unwrap()[0].purchased_milli, 1000);
    assert_eq!(lb.total, 4_000_000);
}

#[test]
fn deleting_a_list_removes_it_and_its_items() {
    let mut store = open_store();
    store.create_new_list(String::from("Doomed")).unwrap();
    store.create_new_list(String::from("Kept")).unwrap();
    let lists = store.get_list_of_lists().unwrap();
    let doomed = lists.iter().find(|l| l.name == "Doomed").unwrap().id;
    let kept = lists.iter().find(|l| l.name == "Kept").unwrap().id;
    store.create_new_list_item(doomed, plain_item("Gone", 1000, 0, 100)).unwrap();
    store.create_new_list_item(kept, plain_item("Stays", 1000, 0, 100)).unwrap();
    store.delete_list(doomed).unwrap();
    assert!(matches!(store.get_list(doomed), Err(StoreError::NotFound)));
    let lists = store.get_list_of_lists().unwrap();
    assert_eq!(lists.len(), 1);
    assert_eq!(lists[0].name, "Kept");
    let kept_items = store.get_list(kept).unwrap().items.unwrap();
    assert_eq!(kept_items.len(), 1);
    assert_eq!(kept_items[0].name, "Stays");
}

#[test]
fn item_crud_roundtrip() {
    let mut store = open_store();
    store.create_new_list(String::from("L")).unwrap();
    let id = store.get_list_of_lists().unwrap()[0].id;
    // the id field of a fresh item is ignored on create
    let mut it = plain_item("Thing", 2000, 0, 900);
    it.id = 777;
    store.create_new_list_item(id, it).unwrap();
    let stored = store.get_list(id).unwrap().items.unwrap()[0].clone();
    assert!(stored.id >= 1);
    assert_ne!(stored.id, 777);
    assert_eq!(stored.list_id, id);
    // update every mutable field
    let mut changed = stored.clone();
    changed.name = String::from("Renamed");
    changed.unit = String::from("kg");
    changed.required_milli = 1500;
    changed.purchased_milli = 700;
    changed.price_milli = 1200;
    store.update_list_item(changed).unwrap();
    let after = store.get_list(id).unwrap().items.unwrap()[0].clone();
    assert_eq!(after.name, "Renamed");
    assert_eq!(after.unit, "kg");
    assert_eq!(after.required_milli, 1500);
    assert_eq!(after.purchased_milli, 700);
    assert_eq!(after.price_milli, 1200);
    assert_eq!(after.list_id, id);
    assert_eq!(after.id, stored.id);
    // blank rename is a no-op
    let mut blank = after.clone();
    blank.name = String::from("  ");
    store.update_list_item(blank).unwrap();
    assert_eq!(store.get_list(id).unwrap().items.unwrap()[0].name, "Renamed");
    // delete it; deleting again stays a no-op
    store.delete_item(after.id).unwrap();
    assert!(store.get_list(id).unwrap().items.unwrap().is_empty());
    store.delete_item(after.id).unwrap();
}

#[test]
fn blank_item_name_is_a_silent_noop() {
    let mut store = open_store();
    store.create_new_list(String::from("L")).unwrap();
    let id = store.get_list_of_lists().unwrap()[0].id;
    store.create_new_list_item(id, plain_item("   ", 1000, 0, 100)).unwrap();
    assert!(store.get_list(id).unwrap().items.unwrap().is_empty());
}

#[test]
fn unicode_blank_names_are_noops() {
    let mut store = open_store();
    // no-break space, ogham space mark, line separator: all blank
    store.create_new_list(String::from("\u{a0}\u{1680}\u{2028}")).unwrap();
    assert!(store.get_list_of_lists().unwrap().is_empty());
}

#[test]
fn equal_items_order_by_id() {
    let mut store = open_store();
    store.create_new_list(String::from("Twice")).unwrap();
    let id = store.get_list_of_lists().unwrap()[0].id;
    store.create_new_list_item(id, plain_item("Same", 1000, 0, 100)).unwrap();
    store.create_new_list_item(id, plain_item("Same", 2000, 0, 200)).unwrap();
    let items = store.get_list(id).unwrap().items.unwrap();
    assert_eq!(items.len(), 2);
    // equal group and name: the earlier id comes first
    assert!(items[0].id < items[1].id);
    assert_eq!(items[0].required_milli, 1000);
    assert_eq!(items[1].required_milli, 2000);
}

#[test]
fn equal_list_names_order_by_id() {
    let mut store = open_store();
    store.create_new_list(String::from("Dup")).unwrap();
    store.create_new_list(String::from("Dup")).unwrap();
    let lists = store.get_list_of_lists().unwrap();
    assert_eq!(lists.len(), 2);
    assert!(lists[0].id < lists[1].id);
}

#[test]
fn fresh_list_hydrates_empty_with_zero_total() {
    let mut store = open_store();
    store.create_new_list(String::from("Fresh")).unwrap();
    let id = store.get_list_of_lists().unwrap()[0].id;
    let l = store.get_list(id).unwrap();
    assert_eq!(l.items, Some(Vec::new()));
    assert_eq!(l.total, 0);
}
