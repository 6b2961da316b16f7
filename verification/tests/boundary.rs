//! Tests of the text boundary: the parse-or-default conversion from raw
//! form fields to a typed item, and the item defaults.

use shopping_list::DBConnector;
use shopping_list::Item;
use shopping_list::ItemForm;
use shopping_list::SQLiteConnector;

fn form(id: &str, list_id: &str, name: &str, required: &str, purchased: Option<&str>, price: &str) -> ItemForm {
    ItemForm {
        id: String::from(id),
        list_id: String::from(list_id),
        name: String::from(name),
        unit: String::from("unit"),
        required_quantity: String::from(required),
        purchased_quantity: purchased.map(String::from),
        unit_price: String::from(price),
    }
}

#[test]
fn unparsable_quantity_text_becomes_zero() {
    let it = form("1", "2", "Milk", "abc", Some("x1"), "1,50").into_item();
    assert_eq!(it.required_milli, 0);
    assert_eq!(it.purchased_milli, 0);
    assert_eq!(it.price_milli, 0);
    assert_eq!(it.name, "Milk");
}

#[test]
fn decimal_text_parses_to_thousandths() {
    let it = form("1", "2", "Milk", "2.50", Some("1"), "0.75").into_item();
    assert_eq!(it.required_milli, 2500);
    assert_eq!(it.purchased_milli, 1000);
    assert_eq!(it.price_milli, 750);
}

#[test]
fn decimal_edge_forms() {
    assert_eq!(form("0", "0", "x", "1.", None, "0").into_item().required_milli, 1000);
    assert_eq!(form("0", "0", "x", ".5", None, "0").into_item().required_milli, 500);
    assert_eq!(form("0", "0", "x", ".", None, "0").into_item().required_milli, 0);
    assert_eq!(form("0", "0", "x", "", None, "0").into_item().required_milli, 0);
    assert_eq!(form("0", "0", "x", "007", None, "0").into_item().required_milli, 7000);
    // the fraction is truncated past the third digit
    assert_eq!(form("0", "0", "x", "1.2345", None, "0").into_item().required_milli, 1234);
    assert_eq!(form("0", "0", "x", "0.0005", None, "0").into_item().required_milli, 0);
    // one decimal point at most
    assert_eq!(form("0", "0", "x", "1.2.3", None, "0").into_item().required_milli, 0);
    // out of the store's range
    assert_eq!(
        form("0", "0", "x", "99999999999999999999", None, "0").into_item().required_milli,
        0,
    );
}

#[test]
fn absent_purchased_quantity_is_zero() {
    let it = form("1", "2", "Milk", "1", None, "1").into_item();
    assert_eq!(it.purchased_milli, 0);
}

#[test]
fn identifier_fields_parse_as_plain_integers() {
    let it = form("42", "7", "Milk", "1", None, "1").into_item();
    assert_eq!(it.id, 42);
    assert_eq!(it.list_id, 7);
    let it = form("4.2", "-3", "Milk", "1", None, "1").into_item();
    assert_eq!(it.id, 0);
    assert_eq!(it.list_id, 0);
}

#[test]
fn default_item_wants_one_unit() {
    let it = Item::default();
    assert_eq!(it.id, 0);
    assert_eq!(it.list_id, 0);
    assert_eq!(it.name, "");
    assert_eq!(it.unit, "unit");
    assert_eq!(it.required_milli, 1000);
    assert_eq!(it.purchased_milli, 0);
    assert_eq!(it.price_milli, 0);
}

#[test]
fn unparsable_form_quantity_roundtrips_as_zero() {
    let mut store = SQLiteConnector::new_in_memory().unwrap();
    store.create_new_list(String::from("L")).unwrap();
    let list_id = store.get_list_of_lists().unwrap()[0].id;
    let it = form("0", "0", "Widget", "abc", None, "1.25").into_item();
    store.create_new_list_item(list_id, it).unwrap();
    let stored = store.get_list(list_id).unwrap().items.unwrap()[0].clone();
    assert_eq!(stored.required_milli, 0);
    assert_eq!(stored.price_milli, 1250);
}
