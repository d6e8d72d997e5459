//! Choices ordered by a key, those with equal keys in the order they came in.
use vstd::prelude::*;

use crate::audio::choices::{ChoiceView, InputDeviceChoice};
use crate::text::{
    is_text_le, text_le, text_le_antisymmetric, text_le_reflexive, text_le_total,
    text_le_transitive,
};

verus! {

/// A choice with the key that it is ordered by.
pub struct KeyedChoice {
    pub key: String,
    pub choice: InputDeviceChoice,
}

/// Key and choice.
pub struct KeyedView {
    pub key: Seq<char>,
    pub choice: ChoiceView,
}

impl View for KeyedChoice {
    type V = KeyedView;

    open spec fn view(&self) -> KeyedView {
        KeyedView { key: self.key@, choice: self.choice@ }
    }
}

/// The views of a sequence of keyed choices.
pub open spec fn keyed_views(items: Seq<KeyedChoice>) -> Seq<KeyedView> {
    items.map_values(|k: KeyedChoice| k@)
}

/// Keys in dictionary order.
pub open spec fn in_key_order(items: Seq<KeyedView>) -> bool {
    forall|i: int, j: int|
        0 <= i <= j < items.len() ==> text_le(#[trigger] items[i].key, #[trigger] items[j].key)
}

/// The items with one key, in order.
pub open spec fn with_key(items: Seq<KeyedView>, key: Seq<char>) -> Seq<KeyedView> {
    items.filter(|k: KeyedView| k.key == key)
}

/// `output` holds the items of `input` in the order of their keys; items with
/// equal keys stand in the order that they have in `input`.
pub open spec fn is_stable_sort(input: Seq<KeyedView>, output: Seq<KeyedView>) -> bool {
    &&& in_key_order(output)
    &&& forall|key: Seq<char>| #[trigger] with_key(output, key) == with_key(input, key)
}

/// Inserts `item` behind every item whose key is no larger.
pub fn insert_by_key(sorted: &mut Vec<KeyedChoice>, item: KeyedChoice)
    requires
        in_key_order(keyed_views(old(sorted)@)),
    ensures
        is_stable_sort(keyed_views(old(sorted)@).push(item@), keyed_views(final(sorted)@)),
{
    let mut at: usize = sorted.len();
    while at > 0 && !is_text_le(sorted[at - 1].key.as_str(), item.key.as_str())
        invariant
            at <= sorted.len(),
            forall|i: int| at <= i < sorted.len() ==> !text_le(#[trigger] sorted@[i].key@, item.key@),
        decreases at,
    {
        at -= 1;
    }
    let ghost before = keyed_views(sorted@);
    proof {
        assert forall|i: int| at <= i < before.len() implies !text_le(
            #[trigger] before[i].key,
            item.key@,
        ) by {
            assert(before[i] == sorted@[i]@);
        }
        assert forall|i: int| 0 <= i < at implies text_le(#[trigger] before[i].key, item.key@) by {
            assert(before[at - 1].key == sorted@[at - 1].key@);
            text_le_transitive(before[i].key, before[at - 1].key, item.key@);
        }
        insertion_is_stable(before, item@, at as int);
    }
    let ghost item_view = item@;
    sorted.insert(at, item);
    assert(keyed_views(sorted@) =~= before.insert(at as int, item_view));
}

/// An item put behind the last item whose key is no larger is in its place.
proof fn insertion_is_stable(before: Seq<KeyedView>, item: KeyedView, at: int)
    requires
        in_key_order(before),
        0 <= at <= before.len(),
        forall|i: int| 0 <= i < at ==> text_le(#[trigger] before[i].key, item.key),
        forall|i: int| at <= i < before.len() ==> !text_le(#[trigger] before[i].key, item.key),
    ensures
        is_stable_sort(before.push(item), before.insert(at, item)),
{
    let after = before.insert(at, item);
    let low = before.take(at);
    let high = before.skip(at);
    assert(before =~= low + high);
    assert(after =~= low + seq![item] + high);
    assert(before.push(item) =~= before + seq![item]);
    assert forall|i: int, j: int| 0 <= i <= j < after.len() implies text_le(
        #[trigger] after[i].key,
        #[trigger] after[j].key,
    ) by {
        if i == at && j == at {
            text_le_reflexive(item.key);
        } else if i == at {
            text_le_total(before[j - 1].key, item.key);
        } else if i > at {
            assert(text_le(before[i - 1].key, before[j - 1].key));
        } else if j > at {
            assert(text_le(before[i].key, before[j - 1].key));
        }
    }
    assert forall|key: Seq<char>| #[trigger] with_key(after, key) == with_key(
        before.push(item),
        key,
    ) by {
        let pred = |k: KeyedView| k.key == key;
        Seq::filter_distributes_over_add(low + seq![item], high, pred);
        Seq::filter_distributes_over_add(low, seq![item], pred);
        Seq::filter_distributes_over_add(before, seq![item], pred);
        Seq::filter_distributes_over_add(low, high, pred);
        if key == item.key {
            assert forall|x: KeyedView| #[trigger] high.contains(x) implies !pred(x) by {
                let i = choose|i: int| 0 <= i < high.len() && high[i] == x;
                assert(before[at + i] == x);
                text_le_reflexive(key);
            }
            high.lemma_all_neg_filter_empty(pred);
        } else {
            assert forall|x: KeyedView| #[trigger] seq![item].contains(x) implies !pred(x) by {}
            seq![item].lemma_all_neg_filter_empty(pred);
        }
        assert(with_key(after, key) =~= with_key(before.push(item), key));
    }
}

/// Adding an item behind a stably sorted sequence and its input keeps them so.
pub proof fn stable_sort_extends(
    input: Seq<KeyedView>,
    sorted: Seq<KeyedView>,
    item: KeyedView,
    output: Seq<KeyedView>,
)
    requires
        is_stable_sort(input, sorted),
        is_stable_sort(sorted.push(item), output),
    ensures
        is_stable_sort(input.push(item), output),
{
    assert forall|key: Seq<char>| #[trigger] with_key(output, key) == with_key(
        input.push(item),
        key,
    ) by {
        let pred = |k: KeyedView| k.key == key;
        assert(input.push(item) =~= input + seq![item]);
        assert(sorted.push(item) =~= sorted + seq![item]);
        Seq::filter_distributes_over_add(input, seq![item], pred);
        Seq::filter_distributes_over_add(sorted, seq![item], pred);
        assert(with_key(sorted, key) == with_key(input, key));
        assert(with_key(output, key) == with_key(sorted.push(item), key));
    }
}

/// Sorting brings in nothing new.
pub proof fn stable_sort_adds_nothing(input: Seq<KeyedView>, output: Seq<KeyedView>, i: int)
    requires
        is_stable_sort(input, output),
        0 <= i < output.len(),
    ensures
        input.contains(output[i]),
{
    let key = output[i].key;
    let pred = |k: KeyedView| k.key == key;
    assert(with_key(output, key) == with_key(input, key));
    output.lemma_filter_contains(pred, i);
    input.lemma_filter_contains_rev(pred, output[i]);
}

/// Sorting keeps every item, as often as it occurs.
pub proof fn stable_sort_permutes(input: Seq<KeyedView>, output: Seq<KeyedView>)
    requires
        is_stable_sort(input, output),
    ensures
        output.to_multiset() == input.to_multiset(),
        output.len() == input.len(),
{
    broadcast use vstd::seq_lib::group_to_multiset_ensures;

    assert forall|item: KeyedView|
        output.to_multiset().count(item) == #[trigger] input.to_multiset().count(item) by {
        assert(with_key(output, item.key) == with_key(input, item.key));
        count_with_key(input, item);
        count_with_key(output, item);
    }
    assert(output.to_multiset() =~= input.to_multiset());
    vstd::seq_lib::to_multiset_len(input);
    vstd::seq_lib::to_multiset_len(output);
}

/// An item occurs as often among those with its key as among all.
proof fn count_with_key(items: Seq<KeyedView>, item: KeyedView)
    ensures
        items.to_multiset().count(item) == with_key(items, item.key).to_multiset().count(item),
    decreases items.len(),
{
    broadcast use vstd::seq_lib::group_to_multiset_ensures;

    let pred = |k: KeyedView| k.key == item.key;
    reveal(Seq::filter);
    if items.len() > 0 {
        let earlier = items.drop_last();
        count_with_key(earlier, item);
        assert(items =~= earlier.push(items.last()));
        if pred(items.last()) {
            assert(items.filter(pred) =~= earlier.filter(pred).push(items.last()));
        }
    }
}

/// A sequence has one stable sort.
pub proof fn stable_sort_is_unique(
    input: Seq<KeyedView>,
    a: Seq<KeyedView>,
    b: Seq<KeyedView>,
)
    requires
        is_stable_sort(input, a),
        is_stable_sort(input, b),
    ensures
        a == b,
{
    assert forall|key: Seq<char>| #[trigger] with_key(a, key) == with_key(b, key) by {
        assert(with_key(a, key) == with_key(input, key));
        assert(with_key(b, key) == with_key(input, key));
    }
    ordered_items_are_equal(a, b);
}

/// Ordered sequences with the same items of every key are equal.
proof fn ordered_items_are_equal(a: Seq<KeyedView>, b: Seq<KeyedView>)
    requires
        in_key_order(a),
        in_key_order(b),
        forall|key: Seq<char>| #[trigger] with_key(a, key) == with_key(b, key),
    ensures
        a == b,
    decreases a.len(),
{
    if a.len() == 0 {
        if b.len() > 0 {
            key_occurs(b, a, 0);
        }
        assert(a =~= b);
    } else {
        key_occurs(a, b, 0);
        key_occurs(b, a, 0);
        assert(text_le(a[0].key, b[0].key));
        assert(text_le(b[0].key, a[0].key));
        text_le_antisymmetric(a[0].key, b[0].key);
        let key = a[0].key;
        assert(with_key(a, key) == with_key(b, key));
        head_of_key(a, key);
        head_of_key(b, key);
        assert(a[0] == with_key(a, key)[0]);
        assert(b[0] == with_key(b, key)[0]);
        let ta = a.drop_first();
        let tb = b.drop_first();
        assert forall|k: Seq<char>| #[trigger] with_key(ta, k) == with_key(tb, k) by {
            assert(with_key(a, k) == with_key(b, k));
            head_of_key(a, k);
            head_of_key(b, k);
            if k == key {
                assert(with_key(ta, k) =~= with_key(a, k).drop_first());
                assert(with_key(tb, k) =~= with_key(b, k).drop_first());
            }
        }
        assert forall|i: int, j: int| 0 <= i <= j < ta.len() implies text_le(
            #[trigger] ta[i].key,
            #[trigger] ta[j].key,
        ) by {
            assert(text_le(a[i + 1].key, a[j + 1].key));
        }
        assert forall|i: int, j: int| 0 <= i <= j < tb.len() implies text_le(
            #[trigger] tb[i].key,
            #[trigger] tb[j].key,
        ) by {
            assert(text_le(b[i + 1].key, b[j + 1].key));
        }
        ordered_items_are_equal(ta, tb);
        assert(a =~= seq![a[0]] + ta);
        assert(b =~= seq![b[0]] + tb);
    }
}

/// The items with `key` are those of the tail, behind the head where it has `key`.
proof fn head_of_key(a: Seq<KeyedView>, key: Seq<char>)
    requires
        a.len() > 0,
    ensures
        a[0].key == key ==> with_key(a, key) == seq![a[0]] + with_key(a.drop_first(), key),
        a[0].key != key ==> with_key(a, key) == with_key(a.drop_first(), key),
{
    let pred = |k: KeyedView| k.key == key;
    assert(a =~= seq![a[0]] + a.drop_first());
    Seq::filter_distributes_over_add(seq![a[0]], a.drop_first(), pred);
    reveal_with_fuel(Seq::filter, 2);
    assert(seq![a[0]].drop_last() =~= Seq::<KeyedView>::empty());
    if pred(a[0]) {
        assert(seq![a[0]].filter(pred) =~= seq![a[0]]);
    } else {
        assert(seq![a[0]].filter(pred) =~= Seq::<KeyedView>::empty());
        assert(with_key(a, key) =~= with_key(a.drop_first(), key));
    }
}

/// The key of `a[i]` is a key of `b` too, so that the first key of `b` is no larger.
proof fn key_occurs(a: Seq<KeyedView>, b: Seq<KeyedView>, i: int)
    requires
        0 <= i < a.len(),
        in_key_order(b),
        forall|key: Seq<char>| #[trigger] with_key(a, key) == with_key(b, key),
    ensures
        b.len() > 0,
        text_le(b[0].key, a[i].key),
{
    let key = a[i].key;
    let pred = |k: KeyedView| k.key == key;
    assert(with_key(a, key) == with_key(b, key));
    a.lemma_filter_contains(pred, i);
    assert(b.filter(pred).contains(a[i]));
    b.lemma_filter_contains_rev(pred, a[i]);
    let j = choose|j: int| 0 <= j < b.len() && b[j] == a[i];
    assert(text_le(b[0].key, b[j].key));
}

/// Sorting puts the keys in dictionary order.
pub proof fn stable_sort_orders_keys(
    input: Seq<KeyedView>,
    output: Seq<KeyedView>,
    p: int,
    q: int,
)
    requires
        is_stable_sort(input, output),
        0 <= p <= q < output.len(),
    ensures
        text_le(output[p].key, output[q].key),
{
}

/// Items with equal keys come out in the order in which they went in: for two of them
/// there are two places in the input, one behind the other, that hold them.
pub proof fn stable_sort_keeps_equals_in_order(
    input: Seq<KeyedView>,
    output: Seq<KeyedView>,
    p: int,
    q: int,
) -> (places: (int, int))
    requires
        is_stable_sort(input, output),
        0 <= p < q < output.len(),
        output[p].key == output[q].key,
    ensures
        0 <= places.0 < places.1 < input.len(),
        input[places.0] == output[p],
        input[places.1] == output[q],
{
    let key = output[p].key;
    let pred = |k: KeyedView| k.key == key;
    assert(with_key(output, key) == with_key(input, key));
    let (a, b) = places_in_filter(output, pred, p, q);
    places_before_filter(input, pred, a, b)
}

/// Where two items that stay stand once a sequence is filtered.
proof fn places_in_filter(
    items: Seq<KeyedView>,
    pred: spec_fn(KeyedView) -> bool,
    p: int,
    q: int,
) -> (places: (int, int))
    requires
        0 <= p < q < items.len(),
        pred(items[p]),
        pred(items[q]),
    ensures
        0 <= places.0 < places.1 < items.filter(pred).len(),
        items.filter(pred)[places.0] == items[p],
        items.filter(pred)[places.1] == items[q],
    decreases items.len(),
{
    reveal(Seq::filter);
    let rest = items.drop_last();
    if q < rest.len() {
        let places = places_in_filter(rest, pred, p, q);
        assert(items.filter(pred)[places.0] == rest.filter(pred)[places.0]);
        assert(items.filter(pred)[places.1] == rest.filter(pred)[places.1]);
        places
    } else {
        rest.lemma_filter_contains(pred, p);
        let a = choose|a: int|
            0 <= a < rest.filter(pred).len() && rest.filter(pred)[a] == rest[p];
        assert(items.filter(pred)[a] == rest.filter(pred)[a]);
        (a, rest.filter(pred).len() as int)
    }
}

/// Where two items of a filtered sequence stood before.
proof fn places_before_filter(
    items: Seq<KeyedView>,
    pred: spec_fn(KeyedView) -> bool,
    a: int,
    b: int,
) -> (places: (int, int))
    requires
        0 <= a < b < items.filter(pred).len(),
    ensures
        0 <= places.0 < places.1 < items.len(),
        items[places.0] == items.filter(pred)[a],
        items[places.1] == items.filter(pred)[b],
    decreases items.len(),
{
    reveal(Seq::filter);
    let rest = items.drop_last();
    if b < rest.filter(pred).len() {
        places_before_filter(rest, pred, a, b)
    } else {
        assert(rest.filter(pred).contains(rest.filter(pred)[a]));
        rest.lemma_filter_contains_rev(pred, rest.filter(pred)[a]);
        let p = choose|p: int| 0 <= p < rest.len() && rest[p] == rest.filter(pred)[a];
        assert(items[p] == rest[p]);
        (p, rest.len() as int)
    }
}

/// The views of keyed choices hold the texts of the choices and their keys.
pub proof fn keyed_views_hold_their_texts(items: Seq<KeyedChoice>, i: int)
    requires
        0 <= i < items.len(),
    ensures
        keyed_views(items).len() == items.len(),
        keyed_views(items)[i].key == items[i].key@,
        keyed_views(items)[i].choice.id == items[i].choice.id@,
        keyed_views(items)[i].choice.label == items[i].choice.label@,
{
}

} // verus!
