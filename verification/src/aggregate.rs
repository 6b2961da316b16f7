//! The aggregation engine: brings a list's raw item rows into display order
//! — unpurchased items first, names ascending within each group — and
//! computes the total amount spent.

use vstd::prelude::*;
use vstd::seq_lib::group_to_multiset_ensures;

use crate::lista::Item;
use crate::lista::ItemV;
use crate::lista::Lista;
use crate::lista::ListaV;
use crate::text::lemma_lex_le_antisym;
use crate::text::lemma_lex_le_refl;
use crate::text::lemma_lex_le_total;
use crate::text::lemma_lex_le_trans;
use crate::text::lex_le;
use crate::text::str_le;

verus! {

/// An item counts as purchased from one thousandth of a unit upward; below
/// that it is still wanted.
pub open spec fn is_purchased(it: ItemV) -> bool {
    it.purchased_milli >= 1
}

/// Unpurchased items rank before purchased ones.
pub open spec fn group_rank(it: ItemV) -> int {
    if is_purchased(it) {
        1
    } else {
        0
    }
}

/// The display order on items: by group first, then by name, ties between
/// equal names broken by id — a total order, so the display sequence is a
/// function of which items the list holds.
pub open spec fn item_le(a: ItemV, b: ItemV) -> bool {
    group_rank(a) < group_rank(b) || (group_rank(a) == group_rank(b) && (if a.name == b.name {
        a.id <= b.id
    } else {
        lex_le(a.name, b.name)
    }))
}

/// A sequence of items in display order.
pub open spec fn items_ordered(s: Seq<ItemV>) -> bool {
    forall|i: int, j: int| 0 <= i < j < s.len() ==> item_le(s[i], s[j])
}

pub open spec fn item_views(s: Seq<Item>) -> Seq<ItemV> {
    s.map_values(|it: Item| it@)
}

pub open spec fn lista_views(s: Seq<Lista>) -> Seq<ListaV> {
    s.map_values(|l: Lista| l@)
}

pub proof fn lemma_item_le_total(a: ItemV, b: ItemV)
    ensures
        item_le(a, b) || item_le(b, a),
{
    lemma_lex_le_total(a.name, b.name);
}

pub proof fn lemma_item_le_trans(a: ItemV, b: ItemV, c: ItemV)
    requires
        item_le(a, b),
        item_le(b, c),
    ensures
        item_le(a, c),
{
    if group_rank(a) == group_rank(b) && group_rank(b) == group_rank(c) {
        if a.name != b.name && b.name != c.name {
            lemma_lex_le_trans(a.name, b.name, c.name);
            if a.name == c.name {
                lemma_lex_le_antisym(b.name, c.name);
            }
        }
    }
}

/// Mutual order between two items forces the same id: the order is
/// antisymmetric up to ids.
pub proof fn lemma_item_le_antisym_ids(a: ItemV, b: ItemV)
    requires
        item_le(a, b),
        item_le(b, a),
    ensures
        a.id == b.id,
{
    if a.name != b.name {
        lemma_lex_le_antisym(a.name, b.name);
    }
}

/// Decides the display order on two items.
fn item_le_exec(a: &Item, b: &Item) -> (r: bool)
    ensures
        r == item_le(a@, b@),
{
    let ga: u64 = if a.purchased_milli >= 1 {
        1
    } else {
        0
    };
    let gb: u64 = if b.purchased_milli >= 1 {
        1
    } else {
        0
    };
    if ga < gb {
        true
    } else if gb < ga {
        false
    } else if a.name == b.name {
        a.id <= b.id
    } else {
        str_le(a.name.as_str(), b.name.as_str())
    }
}

/// Inserts one item into an already ordered vector, keeping the order.
fn insert_item_sorted(out: &mut Vec<Item>, it: Item)
    requires
        items_ordered(item_views(old(out)@)),
    ensures
        items_ordered(item_views(final(out)@)),
        item_views(final(out)@).to_multiset() == item_views(old(out)@).to_multiset().insert(it@),
        final(out)@.len() == old(out)@.len() + 1,
{
    broadcast use group_to_multiset_ensures;

    let ghost s = item_views(out@);
    let mut p: usize = 0;
    while p < out.len() && item_le_exec(&out[p], &it)
        invariant
            p <= out.len(),
            s == item_views(out@),
            items_ordered(s),
            forall|i: int| 0 <= i < p ==> item_le(s[i], it@),
        decreases out.len() - p,
    {
        p += 1;
    }
    proof {
        if p < out.len() {
            lemma_item_le_total(s[p as int], it@);
        }
    }
    out.insert(p, it);
    proof {
        let s2 = item_views(out@);
        assert(s2.len() == s.len() + 1);
        assert(forall|k: int| 0 <= k < p ==> s2[k] == s[k]);
        assert(s2[p as int] == it@);
        assert(forall|k: int| p < k < s2.len() ==> s2[k] == s[k - 1]);
        assert forall|i: int, j: int| 0 <= i < j < s2.len() implies item_le(s2[i], s2[j]) by {
            if j < p {
            } else if i == p {
                // it@ before a tail element: it@ <= s[p] <= s[j-1]
                if j - 1 > p as int - 1 + 1 {
                    lemma_item_le_trans(it@, s[p as int], s[j - 1]);
                }
            } else if i < p && j == p {
            } else if i < p && j > p {
            } else {
                // both past the insertion point
            }
        }
        s2.to_multiset_ensures();
        assert(s2.remove(p as int) =~= s);
        assert(s.to_multiset() == s2.to_multiset().remove(it@));
        assert(s2.contains(it@));
        assert(s2.to_multiset().count(it@) > 0);
        assert(s2.to_multiset() =~= s.to_multiset().insert(it@));
    }
}

/// Sorts a list's items into display order; the result holds exactly the
/// items given, unpurchased first, names ascending within each group.
pub fn sort_items(items: Vec<Item>) -> (r: Vec<Item>)
    ensures
        item_views(r@).to_multiset() == item_views(items@).to_multiset(),
        items_ordered(item_views(r@)),
        r@.len() == items@.len(),
{
    broadcast use group_to_multiset_ensures;

    let mut rest = items;
    let mut out: Vec<Item> = Vec::new();
    proof {
        assert(item_views(out@) =~= Seq::<ItemV>::empty());
        assert(item_views(rest@) =~= item_views(items@));
    }
    while rest.len() > 0
        invariant
            items_ordered(item_views(out@)),
            item_views(out@).to_multiset().add(item_views(rest@).to_multiset()) == item_views(
                items@,
            ).to_multiset(),
            out@.len() + rest@.len() == items@.len(),
        decreases rest.len(),
    {
        let ghost so = item_views(out@);
        let ghost sr = item_views(rest@);
        let it = rest.remove(0);
        proof {
            sr.to_multiset_ensures();
            assert(item_views(rest@) =~= sr.remove(0));
            assert(sr.remove(0).to_multiset() == sr.to_multiset().remove(sr[0]));
            assert(it@ == sr[0]);
            assert(sr.contains(sr[0]));
            assert(sr.to_multiset().count(sr[0]) > 0);
        }
        insert_item_sorted(&mut out, it);
        proof {
            assert(item_views(out@).to_multiset() == so.to_multiset().insert(it@));
            assert(so.to_multiset().insert(it@).add(sr.to_multiset().remove(it@))
                =~= so.to_multiset().add(sr.to_multiset()));
        }
    }
    proof {
        assert(item_views(rest@) =~= Seq::<ItemV>::empty());
        assert(item_views(out@).to_multiset().add(Seq::<ItemV>::empty().to_multiset())
            =~= item_views(out@).to_multiset());
    }
    out
}

/// A hydrated list's items: exactly the stored items of the list, each id
/// once, in display order.
pub open spec fn hydrated_items(s: Seq<ItemV>, m: Map<int, ItemV>, list_id: int) -> bool {
    &&& items_ordered(s)
    &&& forall|j: int|
        0 <= j < s.len() ==> m.contains_key((#[trigger] s[j]).id) && m[s[j].id] == s[j]
            && s[j].list_id == list_id
    &&& forall|k: int|
        #[trigger] m.contains_key(k) && m[k].list_id == list_id ==> exists|j: int|
            0 <= j < s.len() && (#[trigger] s[j]).id == k
    &&& forall|i: int, j: int| 0 <= i < j < s.len() ==> s[i].id != s[j].id
}

/// The presentation order on lists: names ascending, ties between equal
/// names broken by id — a total order, so the listing is a function of
/// which lists the store holds.
pub open spec fn lista_le(a: ListaV, b: ListaV) -> bool {
    if a.name == b.name {
        a.id <= b.id
    } else {
        lex_le(a.name, b.name)
    }
}

/// A sequence of lists in presentation order.
pub open spec fn listas_ordered(s: Seq<ListaV>) -> bool {
    forall|i: int, j: int| 0 <= i < j < s.len() ==> lista_le(s[i], s[j])
}

pub proof fn lemma_lista_le_total(a: ListaV, b: ListaV)
    ensures
        lista_le(a, b) || lista_le(b, a),
{
    lemma_lex_le_total(a.name, b.name);
}

pub proof fn lemma_lista_le_trans(a: ListaV, b: ListaV, c: ListaV)
    requires
        lista_le(a, b),
        lista_le(b, c),
    ensures
        lista_le(a, c),
{
    if a.name != b.name && b.name != c.name {
        lemma_lex_le_trans(a.name, b.name, c.name);
        if a.name == c.name {
            lemma_lex_le_antisym(b.name, c.name);
        }
    }
}

/// Mutual order between two lists forces the same id.
pub proof fn lemma_lista_le_antisym_ids(a: ListaV, b: ListaV)
    requires
        lista_le(a, b),
        lista_le(b, a),
    ensures
        a.id == b.id,
{
    if a.name != b.name {
        lemma_lex_le_antisym(a.name, b.name);
    }
}

/// Decides the presentation order on two lists.
fn lista_le_exec(a: &Lista, b: &Lista) -> (r: bool)
    ensures
        r == lista_le(a@, b@),
{
    if a.name == b.name {
        a.id <= b.id
    } else {
        str_le(a.name.as_str(), b.name.as_str())
    }
}

/// Inserts one list into an already ordered vector, keeping the order.
fn insert_lista_sorted(out: &mut Vec<Lista>, l: Lista)
    requires
        listas_ordered(lista_views(old(out)@)),
    ensures
        listas_ordered(lista_views(final(out)@)),
        lista_views(final(out)@).to_multiset() == lista_views(old(out)@).to_multiset().insert(l@),
        final(out)@.len() == old(out)@.len() + 1,
{
    broadcast use group_to_multiset_ensures;

    let ghost s = lista_views(out@);
    let mut p: usize = 0;
    while p < out.len() && lista_le_exec(&out[p], &l)
        invariant
            p <= out.len(),
            s == lista_views(out@),
            listas_ordered(s),
            forall|i: int| 0 <= i < p ==> lista_le(s[i], l@),
        decreases out.len() - p,
    {
        p += 1;
    }
    proof {
        if p < out.len() {
            lemma_lista_le_total(s[p as int], l@);
        }
    }
    out.insert(p, l);
    proof {
        let s2 = lista_views(out@);
        assert(s2.len() == s.len() + 1);
        assert(forall|k: int| 0 <= k < p ==> s2[k] == s[k]);
        assert(s2[p as int] == l@);
        assert(forall|k: int| p < k < s2.len() ==> s2[k] == s[k - 1]);
        assert forall|i: int, j: int| 0 <= i < j < s2.len() implies lista_le(s2[i], s2[j]) by {
            if i == p && j > p + 1 {
                lemma_lista_le_trans(l@, s[p as int], s[j - 1]);
            }
        }
        s2.to_multiset_ensures();
        assert(s2.remove(p as int) =~= s);
        assert(s.to_multiset() == s2.to_multiset().remove(l@));
        assert(s2.contains(l@));
        assert(s2.to_multiset().count(l@) > 0);
        assert(s2.to_multiset() =~= s.to_multiset().insert(l@));
    }
}

/// Sorts lists by name ascending; the result holds exactly the lists given.
pub fn sort_listas(ls: Vec<Lista>) -> (r: Vec<Lista>)
    ensures
        lista_views(r@).to_multiset() == lista_views(ls@).to_multiset(),
        listas_ordered(lista_views(r@)),
        r@.len() == ls@.len(),
{
    broadcast use group_to_multiset_ensures;

    let mut rest = ls;
    let mut out: Vec<Lista> = Vec::new();
    proof {
        assert(lista_views(out@) =~= Seq::<ListaV>::empty());
        assert(lista_views(rest@) =~= lista_views(ls@));
    }
    while rest.len() > 0
        invariant
            listas_ordered(lista_views(out@)),
            lista_views(out@).to_multiset().add(lista_views(rest@).to_multiset()) == lista_views(
                ls@,
            ).to_multiset(),
            out@.len() + rest@.len() == ls@.len(),
        decreases rest.len(),
    {
        let ghost so = lista_views(out@);
        let ghost sr = lista_views(rest@);
        let l = rest.remove(0);
        proof {
            sr.to_multiset_ensures();
            assert(lista_views(rest@) =~= sr.remove(0));
            assert(l@ == sr[0]);
            assert(sr.contains(sr[0]));
        }
        insert_lista_sorted(&mut out, l);
        proof {
            assert(so.to_multiset().insert(l@).add(sr.to_multiset().remove(l@)) =~= so.to_multiset()
                .add(sr.to_multiset()));
        }
    }
    proof {
        assert(lista_views(rest@) =~= Seq::<ListaV>::empty());
        assert(lista_views(out@).to_multiset().add(Seq::<ListaV>::empty().to_multiset())
            =~= lista_views(out@).to_multiset());
    }
    out
}

/// The amount spent on a sequence of items: the sum, left to right, of
/// purchased quantity times unit price. Thousandths times thousandths, so
/// the total is in millionths of the currency.
pub open spec fn total_of(s: Seq<ItemV>) -> int
    decreases s.len(),
{
    if s.len() == 0 {
        0
    } else {
        total_of(s.drop_last()) + s.last().purchased_milli * s.last().price_milli
    }
}

/// Greatest value one quantity-price product can take.
pub proof fn lemma_term_bounded(it: ItemV)
    requires
        0 <= it.purchased_milli <= crate::text::MAX_MILLI,
        0 <= it.price_milli <= crate::text::MAX_MILLI,
    ensures
        0 <= it.purchased_milli * it.price_milli <= 0xFFFF_FFFE_0000_0001,
{
    assert(0 <= it.purchased_milli * it.price_milli <= 0xFFFF_FFFE_0000_0001)
        by (nonlinear_arith)
        requires
            0 <= it.purchased_milli <= 0xFFFF_FFFF,
            0 <= it.price_milli <= 0xFFFF_FFFF,
    ;
}

/// Computes the total spent over the given items.
pub fn compute_total(items: &Vec<Item>) -> (t: u128)
    requires
        forall|i: int| 0 <= i < items@.len() ==> (#[trigger] items@[i]).wf(),
    ensures
        t == total_of(item_views(items@)),
{
    let ghost s = item_views(items@);
    let mut t: u128 = 0;
    let mut i: usize = 0;
    proof {
        assert(s.take(0) =~= Seq::<ItemV>::empty());
    }
    while i < items.len()
        invariant
            i <= items.len(),
            s == item_views(items@),
            forall|k: int| 0 <= k < items@.len() ==> (#[trigger] items@[k]).wf(),
            t == total_of(s.take(i as int)),
            t <= i * 0xFFFF_FFFE_0000_0001,
        decreases items.len() - i,
    {
        let it = &items[i];
        proof {
            assert(s[i as int] == items@[i as int]@);
            lemma_term_bounded(s[i as int]);
            assert(s.take(i + 1).drop_last() =~= s.take(i as int));
            assert(s.take(i + 1).last() == s[i as int]);
            assert((i + 1) * 0xFFFF_FFFE_0000_0001 == i * 0xFFFF_FFFE_0000_0001
                + 0xFFFF_FFFE_0000_0001);
            assert(i + 1 <= 0xFFFF_FFFF_FFFF_FFFF);
            assert((i + 1) * 0xFFFF_FFFE_0000_0001 <= 0xFFFF_FFFF_FFFF_FFFF
                * 0xFFFF_FFFE_0000_0001) by (nonlinear_arith)
                requires
                    0 <= i + 1 <= 0xFFFF_FFFF_FFFF_FFFF,
            ;
        }
        t = t + (it.purchased_milli as u128) * (it.price_milli as u128);
        i += 1;
    }
    proof {
        assert(s.take(items@.len() as int) =~= s);
    }
    t
}

/// Removing one item takes exactly its product out of the total.
pub proof fn lemma_total_remove(s: Seq<ItemV>, j: int)
    requires
        0 <= j < s.len(),
    ensures
        total_of(s.remove(j)) == total_of(s) - s[j].purchased_milli * s[j].price_milli,
    decreases s.len(),
{
    if j == s.len() - 1 {
        assert(s.remove(j) =~= s.drop_last());
    } else {
        assert(s.remove(j).drop_last() =~= s.drop_last().remove(j));
        assert(s.remove(j).last() == s.last());
        lemma_total_remove(s.drop_last(), j);
    }
}

/// The total is a function of which items are present, not of their order:
/// any two arrangements of the same items have the same total.
pub proof fn lemma_total_permutation(s1: Seq<ItemV>, s2: Seq<ItemV>)
    requires
        s1.to_multiset() == s2.to_multiset(),
    ensures
        total_of(s1) == total_of(s2),
    decreases s1.len(),
{
    s1.to_multiset_ensures();
    s2.to_multiset_ensures();
    if s1.len() == 0 {
        assert(s2.to_multiset().len() == 0);
        assert(s2.len() == 0);
    } else {
        let x = s1.last();
        let li = s1.len() - 1;
        assert(s1.contains(x));
        assert(s2.to_multiset().count(x) > 0);
        assert(s2.contains(x));
        let j = choose|j: int| 0 <= j < s2.len() && s2[j] == x;
        assert(s1.remove(li).to_multiset() == s1.to_multiset().remove(x));
        assert(s2.remove(j).to_multiset() == s2.to_multiset().remove(x));
        assert(s1.remove(li) =~= s1.drop_last());
        lemma_total_remove(s2, j);
        lemma_total_permutation(s1.drop_last(), s2.remove(j));
    }
}

/// Two arrangements of the same items hold the same elements.
pub proof fn lemma_perm_contains<A>(s1: Seq<A>, s2: Seq<A>)
    requires
        s1.to_multiset() == s2.to_multiset(),
    ensures
        forall|v: A| #[trigger] s1.contains(v) ==> s2.contains(v),
        forall|v: A| #[trigger] s2.contains(v) ==> s1.contains(v),
{
    s1.to_multiset_ensures();
    s2.to_multiset_ensures();
    assert forall|v: A| #[trigger] s1.contains(v) implies s2.contains(v) by {
        assert(s1.to_multiset().count(v) > 0);
        assert(s2.to_multiset().count(v) > 0);
    }
    assert forall|v: A| #[trigger] s2.contains(v) implies s1.contains(v) by {
        assert(s2.to_multiset().count(v) > 0);
        assert(s1.to_multiset().count(v) > 0);
    }
}

/// Rearranging keeps keys distinct: if no two items of `s1` share a key,
/// no two items of any arrangement of `s1` do.
pub proof fn lemma_perm_distinct_keys<A>(s1: Seq<A>, s2: Seq<A>, key: spec_fn(A) -> int)
    requires
        s1.to_multiset() == s2.to_multiset(),
        forall|i: int, j: int| 0 <= i < j < s1.len() ==> key(s1[i]) != key(s1[j]),
    ensures
        forall|i: int, j: int| 0 <= i < j < s2.len() ==> key(s2[i]) != key(s2[j]),
{
    s1.to_multiset_ensures();
    s2.to_multiset_ensures();
    assert forall|i: int, j: int| 0 <= i < j < s2.len() implies key(s2[i]) != key(s2[j]) by {
        if key(s2[i]) == key(s2[j]) {
            if s2[i] == s2[j] {
                let v = s2[i];
                assert(s2.remove(j).to_multiset() == s2.to_multiset().remove(v));
                assert(s2.remove(j)[i] == v);
                assert(s2.remove(j).contains(v));
                s2.remove(j).to_multiset_ensures();
                assert(s2.to_multiset().remove(v).count(v) > 0);
                assert(s1.to_multiset().count(v) >= 2);
                assert(s1.contains(v));
                let a = choose|a: int| 0 <= a < s1.len() && s1[a] == v;
                assert(s1.remove(a).to_multiset() == s1.to_multiset().remove(v));
                s1.remove(a).to_multiset_ensures();
                assert(s1.remove(a).to_multiset().count(v) > 0);
                assert(s1.remove(a).contains(v));
                let b = choose|b: int| 0 <= b < s1.remove(a).len() && s1.remove(a)[b] == v;
                if b < a {
                    assert(s1[b] == v);
                    assert(key(s1[b]) == key(s1[a]));
                } else {
                    assert(s1[b + 1] == v);
                    assert(key(s1[a]) == key(s1[b + 1]));
                }
            } else {
                assert(s2.contains(s2[i]));
                assert(s2.contains(s2[j]));
                assert(s1.to_multiset().count(s2[i]) > 0);
                assert(s1.to_multiset().count(s2[j]) > 0);
                assert(s1.contains(s2[i]));
                assert(s1.contains(s2[j]));
                let a = choose|a: int| 0 <= a < s1.len() && s1[a] == s2[i];
                let b = choose|b: int| 0 <= b < s1.len() && s1[b] == s2[j];
                assert(a != b);
                assert(key(s1[a]) != key(s1[b]));
            }
        }
    }
}

/// In an ordered item sequence, no purchased item stands before an
/// unpurchased one, and names never descend within a group.
pub proof fn lemma_ordered_groups(s: Seq<ItemV>)
    requires
        items_ordered(s),
    ensures
        forall|i: int, j: int|
            0 <= i < j < s.len() && is_purchased(#[trigger] s[i]) ==> is_purchased(#[trigger] s[j]),
        forall|i: int, j: int|
            0 <= i < j < s.len() && is_purchased(#[trigger] s[i]) == is_purchased(#[trigger] s[j])
                ==> lex_le(s[i].name, s[j].name),
{
    assert forall|i: int, j: int|
        0 <= i < j < s.len() && is_purchased(#[trigger] s[i]) == is_purchased(
            #[trigger] s[j],
        ) implies lex_le(s[i].name, s[j].name) by {
        assert(item_le(s[i], s[j]));
        if s[i].name == s[j].name {
            lemma_lex_le_refl(s[i].name);
        }
    }
    assert(forall|i: int, j: int| 0 <= i < j < s.len() ==> item_le(#[trigger] s[i], #[trigger] s[j]));
}

/// An ordered arrangement of a multiset is unique: with a total, transitive
/// order whose mutual pairs share a key, and no key twice, any two ordered
/// sequences of the same elements are equal throughout.
pub proof fn lemma_ordered_arrangement_unique<A>(
    s1: Seq<A>,
    s2: Seq<A>,
    le: spec_fn(A, A) -> bool,
    key: spec_fn(A) -> int,
)
    requires
        s1.to_multiset() == s2.to_multiset(),
        forall|i: int, j: int| 0 <= i < j < s1.len() ==> le(s1[i], s1[j]),
        forall|i: int, j: int| 0 <= i < j < s2.len() ==> le(s2[i], s2[j]),
        forall|i: int, j: int| 0 <= i < j < s1.len() ==> key(s1[i]) != key(s1[j]),
        forall|x: A| #[trigger] le(x, x),
        forall|x: A, y: A| #![trigger le(x, y), le(y, x)] (le(x, y) && le(y, x) ==> key(x) == key(y)),
    ensures
        s1 == s2,
    decreases s1.len(),
{
    s1.to_multiset_ensures();
    s2.to_multiset_ensures();
    if s1.len() == 0 {
        assert(s2.len() == 0);
        assert(s1 =~= s2);
    } else {
        assert(s2.len() == s1.len());
        // each head is an element of the other sequence
        assert(s2.contains(s2[0]));
        assert(s1.to_multiset().count(s2[0]) > 0);
        assert(s1.contains(s2[0]));
        let j = choose|j: int| 0 <= j < s1.len() && s1[j] == s2[0];
        assert(s1.contains(s1[0]));
        assert(s2.to_multiset().count(s1[0]) > 0);
        assert(s2.contains(s1[0]));
        let i = choose|i: int| 0 <= i < s2.len() && s2[i] == s1[0];
        // mutual order between the heads, so they carry the same key
        assert(le(s1[0], s2[0])) by {
            if j > 0 {
                assert(le(s1[0], s1[j]));
            } else {
                assert(le(s1[0], s1[0]));
            }
        }
        assert(le(s2[0], s1[0])) by {
            if i > 0 {
                assert(le(s2[0], s2[i]));
            } else {
                assert(le(s2[0], s2[0]));
            }
        }
        assert(key(s1[0]) == key(s2[0]));
        // the same key pins the same position in s1
        assert(key(s1[j]) == key(s2[0]));
        assert(j == 0);
        assert(s1[0] == s2[0]);
        // peel the heads and recurse
        let t1 = s1.remove(0);
        let t2 = s2.remove(0);
        assert(t1.to_multiset() == s1.to_multiset().remove(s1[0]));
        assert(t2.to_multiset() == s2.to_multiset().remove(s2[0]));
        assert(t1.to_multiset() == t2.to_multiset());
        assert(forall|a: int, b: int| 0 <= a < b < t1.len() ==> le(#[trigger] t1[a], #[trigger] t1[b]));
        assert(forall|a: int, b: int| 0 <= a < b < t2.len() ==> le(#[trigger] t2[a], #[trigger] t2[b]));
        assert(forall|a: int, b: int|
            0 <= a < b < t1.len() ==> key(#[trigger] t1[a]) != key(#[trigger] t1[b]));
        lemma_ordered_arrangement_unique(t1, t2, le, key);
        assert forall|k: int| 0 <= k < s1.len() implies s1[k] == s2[k] by {
            if k > 0 {
                assert(t1[k - 1] == s1[k]);
                assert(t2[k - 1] == s2[k]);
            }
        }
        assert(s1 =~= s2);
    }
}

/// The display order is deterministic: two ordered arrangements of the same
/// items, no id twice, agree everywhere — a hydrated list's item sequence
/// is a function of what the store holds, not of the order rows arrive in.
pub proof fn lemma_display_order_unique(s1: Seq<ItemV>, s2: Seq<ItemV>)
    requires
        s1.to_multiset() == s2.to_multiset(),
        items_ordered(s1),
        items_ordered(s2),
        forall|i: int, j: int| 0 <= i < j < s1.len() ==> s1[i].id != s1[j].id,
    ensures
        s1 == s2,
{
    assert forall|x: ItemV, y: ItemV| #![trigger item_le(x, y), item_le(y, x)]
        (item_le(x, y) && item_le(y, x) ==> x.id == y.id) by {
        if item_le(x, y) && item_le(y, x) {
            lemma_item_le_antisym_ids(x, y);
        }
    }
    assert(forall|x: ItemV| #[trigger] item_le(x, x));
    lemma_ordered_arrangement_unique(s1, s2, |a: ItemV, b: ItemV| item_le(a, b), |a: ItemV| a.id);
}

/// The listing order is deterministic in the same way: two ordered listings
/// of the same lists, no id twice, agree everywhere.
pub proof fn lemma_listing_order_unique(s1: Seq<ListaV>, s2: Seq<ListaV>)
    requires
        s1.to_multiset() == s2.to_multiset(),
        listas_ordered(s1),
        listas_ordered(s2),
        forall|i: int, j: int| 0 <= i < j < s1.len() ==> s1[i].id != s1[j].id,
    ensures
        s1 == s2,
{
    assert forall|x: ListaV, y: ListaV| #![trigger lista_le(x, y), lista_le(y, x)]
        (lista_le(x, y) && lista_le(y, x) ==> x.id == y.id) by {
        if lista_le(x, y) && lista_le(y, x) {
            lemma_lista_le_antisym_ids(x, y);
        }
    }
    assert(forall|x: ListaV| #[trigger] lista_le(x, x));
    lemma_ordered_arrangement_unique(s1, s2, |a: ListaV, b: ListaV| lista_le(a, b), |a: ListaV| a.id);
}

/// A hydrated sequence shows a value once when the store holds it under
/// the list, and never otherwise.
proof fn lemma_hydrated_count(s: Seq<ItemV>, m: Map<int, ItemV>, list_id: int, v: ItemV)
    requires
        hydrated_items(s, m, list_id),
    ensures
        s.to_multiset().count(v) == if m.contains_key(v.id) && m[v.id] == v && v.list_id
            == list_id {
            1nat
        } else {
            0nat
        },
{
    s.to_multiset_ensures();
    if m.contains_key(v.id) && m[v.id] == v && v.list_id == list_id {
        let j = choose|j: int| 0 <= j < s.len() && (#[trigger] s[j]).id == v.id;
        assert(m[s[j].id] == s[j]);
        assert(s[j] == v);
        assert(s.contains(v));
        assert(s.to_multiset().count(v) > 0);
        if s.to_multiset().count(v) >= 2 {
            let t = s.remove(j);
            assert(t.to_multiset() == s.to_multiset().remove(s[j]));
            t.to_multiset_ensures();
            assert(t.to_multiset().count(v) > 0);
            assert(t.contains(v));
            let j2 = choose|j2: int| 0 <= j2 < t.len() && t[j2] == v;
            if j2 < j {
                assert(s[j2] == v);
                assert(s[j2].id == s[j].id);
            } else {
                assert(s[j2 + 1] == v);
                assert(s[j2 + 1].id == s[j].id);
            }
            assert(false);
        }
    } else {
        if s.contains(v) {
            let j = choose|j: int| 0 <= j < s.len() && s[j] == v;
            assert(m.contains_key(s[j].id) && m[s[j].id] == s[j] && s[j].list_id == list_id);
            assert(false);
        }
        assert(s.to_multiset().count(v) == 0);
    }
}

/// A hydrated list is a function of the store alone: any two item
/// sequences hydrated from the same store for the same list are equal
/// throughout — same items, same positions, same total — whatever order
/// the store happened to hand its rows out in.
pub proof fn lemma_hydration_unique(s1: Seq<ItemV>, s2: Seq<ItemV>, m: Map<int, ItemV>, list_id: int)
    requires
        hydrated_items(s1, m, list_id),
        hydrated_items(s2, m, list_id),
    ensures
        s1 == s2,
        total_of(s1) == total_of(s2),
{
    assert forall|v: ItemV|
        #[trigger] s1.to_multiset().count(v) == s2.to_multiset().count(v) by {
        lemma_hydrated_count(s1, m, list_id, v);
        lemma_hydrated_count(s2, m, list_id, v);
    }
    assert(s1.to_multiset() =~= s2.to_multiset());
    lemma_display_order_unique(s1, s2);
}

/// A list no stored item belongs to hydrates empty: the fetched-back item
/// sequence of a list id that no item references holds nothing.
pub proof fn lemma_fresh_list_hydrates_empty(s: Seq<ItemV>, m: Map<int, ItemV>, list_id: int)
    requires
        hydrated_items(s, m, list_id),
        forall|k: int| #[trigger] m.contains_key(k) ==> m[k].list_id != list_id,
    ensures
        s.len() == 0,
        total_of(s) == 0,
{
    if s.len() > 0 {
        assert(m.contains_key(s[0].id) && s[0].list_id == list_id);
    }
}

} // verus!
