//! The two entities of the store — lists and their items — their
//! mathematical views, and the boundary conversion from raw form text to a
//! typed item.
//!
//! Quantities and prices are fixed-point values in thousandths of a unit
//! (`2500` stands for 2.5); a list's total is in millionths, the product of
//! two thousandths scales.

use vstd::prelude::*;

use crate::text::milli_or_zero;
use crate::text::parse_milli;
use crate::text::parse_uint;
use crate::text::uint_or_zero;
use crate::text::MAX_MILLI;

verus! {

/// A single purchasable entry belonging to one list.
///
/// `id == 0` is the transient "not yet persisted" marker; the store never
/// holds an item with id zero.
#[derive(PartialEq, Clone, Debug)]
pub struct Item {
    pub id: usize,
    pub list_id: usize,
    pub name: String,
    pub unit: String,
    /// thousandths of a unit still wanted, default one unit
    pub required_milli: u64,
    /// thousandths of a unit already bought; below one thousandth counts as
    /// not purchased
    pub purchased_milli: u64,
    /// price of one unit, in thousandths of the currency
    pub price_milli: u64,
}

/// Mathematical view of an [`Item`].
pub struct ItemV {
    pub id: int,
    pub list_id: int,
    pub name: Seq<char>,
    pub unit: Seq<char>,
    pub required_milli: int,
    pub purchased_milli: int,
    pub price_milli: int,
}

impl View for Item {
    type V = ItemV;

    open spec fn view(&self) -> ItemV {
        ItemV {
            id: self.id as int,
            list_id: self.list_id as int,
            name: self.name@,
            unit: self.unit@,
            required_milli: self.required_milli as int,
            purchased_milli: self.purchased_milli as int,
            price_milli: self.price_milli as int,
        }
    }
}

impl Item {
    /// The quantity fields lie within the store's 32-bit range, so any sum
    /// of quantity-price products fits well inside 128 bits.
    pub open spec fn wf(self) -> bool {
        self.required_milli <= MAX_MILLI && self.purchased_milli <= MAX_MILLI
            && self.price_milli <= MAX_MILLI
    }
}

impl Default for Item {
    /// A fresh, unsaved item: one unit wanted, nothing bought, no price.
    fn default() -> (r: Item)
        ensures
            r.id == 0,
            r.list_id == 0,
            r.name@ == Seq::<char>::empty(),
            r.unit@ == "unit"@,
            r.required_milli == 1000,
            r.purchased_milli == 0,
            r.price_milli == 0,
    {
        Item {
            id: 0,
            list_id: 0,
            name: String::new(),
            unit: "unit".to_owned(),
            required_milli: 1000,
            purchased_milli: 0,
            price_milli: 0,
        }
    }
}

/// A named collection of items with an aggregate purchase total.
///
/// `items` is populated only by a full fetch; a list-of-lists entry carries
/// `None` and a zero total. `total` is derived, in millionths of the
/// currency.
#[derive(PartialEq, Clone, Debug)]
pub struct Lista {
    pub id: usize,
    pub name: String,
    pub items: Option<Vec<Item>>,
    pub total: u128,
    pub simple_mode: bool,
}

/// Mathematical view of a [`Lista`].
pub struct ListaV {
    pub id: int,
    pub name: Seq<char>,
    pub items: Option<Seq<ItemV>>,
    pub total: int,
    pub simple_mode: bool,
}

impl View for Lista {
    type V = ListaV;

    open spec fn view(&self) -> ListaV {
        ListaV {
            id: self.id as int,
            name: self.name@,
            items: match self.items {
                Some(v) => Some(v@.map_values(|it: Item| it@)),
                None => None,
            },
            total: self.total as int,
            simple_mode: self.simple_mode,
        }
    }
}

/// Raw text fields as an input form hands them over, before the boundary
/// conversion with its parse-or-default policy.
pub struct ItemForm {
    pub id: String,
    pub list_id: String,
    pub name: String,
    pub unit: String,
    pub required_quantity: String,
    pub purchased_quantity: Option<String>,
    pub unit_price: String,
}

impl ItemForm {
    /// Boundary conversion to a typed item. Every numeric field that fails
    /// to parse, or lies outside the store's range, becomes zero; an absent
    /// purchased quantity becomes zero as well. Name and unit pass through
    /// unchanged.
    pub fn into_item(self) -> (r: Item)
        ensures
            r.id as int == uint_or_zero(self.id@, usize::MAX as int),
            r.list_id as int == uint_or_zero(self.list_id@, usize::MAX as int),
            r.name == self.name,
            r.unit == self.unit,
            r.required_milli as int == milli_or_zero(self.required_quantity@),
            r.purchased_milli as int == match self.purchased_quantity {
                Some(q) => milli_or_zero(q@),
                None => 0,
            },
            r.price_milli as int == milli_or_zero(self.unit_price@),
            r.wf(),
    {
        let id: usize = match parse_uint(self.id.as_str(), usize::MAX as u64) {
            Some(v) => v as usize,
            None => 0,
        };
        let list_id: usize = match parse_uint(self.list_id.as_str(), usize::MAX as u64) {
            Some(v) => v as usize,
            None => 0,
        };
        let required_milli: u64 = match parse_milli(self.required_quantity.as_str()) {
            Some(v) => v,
            None => 0,
        };
        let purchased_milli: u64 = match &self.purchased_quantity {
            Some(q) => match parse_milli(q.as_str()) {
                Some(v) => v,
                None => 0,
            },
            None => 0,
        };
        let price_milli: u64 = match parse_milli(self.unit_price.as_str()) {
            Some(v) => v,
            None => 0,
        };
        Item {
            id,
            list_id,
            name: self.name,
            unit: self.unit,
            required_milli,
            purchased_milli,
            price_milli,
        }
    }
}

} // verus!
