//! The order of the device list.
//!
//! HID enumeration order changes as devices wake, sleep or are selected. The list
//! is ordered by each device's stable identity instead, then by config key, then
//! by display name; records that agree in all three keep their relative order.

use vstd::prelude::*;
use vstd::seq_lib::{group_to_multiset_ensures, to_multiset_build, to_multiset_remove};
use vstd::set_lib::{lemma_int_range, lemma_subset_equality, set_int_range};

use crate::device::{DeviceRoute, DeviceRouteView};
use crate::lexical::{
    code_points, compare_octets, compare_text, lemma_code_points_injective, lemma_lex_irreflexive,
    lemma_lex_total, lemma_lex_transitive, lemma_octets_injective, lex_less, octets, Precedence,
};
use crate::record::{DeviceRecord, DeviceRecordView};

verus! {

/// A device's stable physical identity, in an encoding that keeps its order: one
/// identity precedes another exactly when its key is lexicographically smaller.
#[derive(Debug, PartialEq, Eq)]
pub struct DeviceStableId {
    pub key: Vec<u8>,
}

impl Clone for DeviceStableId {
    fn clone(&self) -> (res: Self)
        ensures
            res.key@ == self.key@,
    {
        let mut key: Vec<u8> = Vec::new();
        let mut i: usize = 0;
        while i < self.key.len()
            invariant
                i <= self.key@.len(),
                key@ =~= self.key@.take(i as int),
            decreases self.key@.len() - i,
        {
            key.push(self.key[i]);
            i += 1;
        }
        DeviceStableId { key }
    }
}

impl DeepView for DeviceStableId {
    type V = Seq<u8>;

    open spec fn deep_view(&self) -> Seq<u8> {
        self.key@
    }
}

/// What a record is ordered by: stable identity, config key, display name.
pub type OrderKey = (Seq<u8>, Seq<char>, Seq<char>);

/// The order key of a record whose stable identity is `id`.
pub open spec fn order_key(record: DeviceRecordView, id: Seq<u8>) -> OrderKey {
    (id, record.config_key, record.display_name)
}

/// `a` comes strictly before `b`.
pub open spec fn key_less(a: OrderKey, b: OrderKey) -> bool {
    ||| lex_less(octets(a.0), octets(b.0))
    ||| a.0 == b.0 && lex_less(code_points(a.1), code_points(b.1))
    ||| a.0 == b.0 && a.1 == b.1 && lex_less(code_points(a.2), code_points(b.2))
}

/// No key comes before itself.
pub proof fn lemma_key_irreflexive(a: OrderKey)
    ensures
        !key_less(a, a),
{
    lemma_lex_irreflexive(octets(a.0));
    lemma_lex_irreflexive(code_points(a.1));
    lemma_lex_irreflexive(code_points(a.2));
}

/// The order of keys is transitive.
pub proof fn lemma_key_transitive(a: OrderKey, b: OrderKey, c: OrderKey)
    requires
        key_less(a, b),
        key_less(b, c),
    ensures
        key_less(a, c),
{
    if lex_less(octets(a.0), octets(b.0)) && lex_less(octets(b.0), octets(c.0)) {
        lemma_lex_transitive(octets(a.0), octets(b.0), octets(c.0));
    } else if a.0 == b.0 && b.0 == c.0 {
        if lex_less(code_points(a.1), code_points(b.1)) && lex_less(
            code_points(b.1),
            code_points(c.1),
        ) {
            lemma_lex_transitive(code_points(a.1), code_points(b.1), code_points(c.1));
        } else if a.1 == b.1 && b.1 == c.1 {
            lemma_lex_irreflexive(octets(a.0));
            lemma_lex_irreflexive(code_points(a.1));
            lemma_lex_transitive(code_points(a.2), code_points(b.2), code_points(c.2));
        } else {
            lemma_lex_irreflexive(octets(a.0));
        }
    }
}

/// Of two different keys one comes before the other.
pub proof fn lemma_key_total(a: OrderKey, b: OrderKey)
    ensures
        key_less(a, b) || key_less(b, a) || a == b,
{
    lemma_lex_total(octets(a.0), octets(b.0));
    if octets(a.0) == octets(b.0) {
        lemma_octets_injective(a.0, b.0);
        lemma_lex_total(code_points(a.1), code_points(b.1));
        if code_points(a.1) == code_points(b.1) {
            lemma_code_points_injective(a.1, b.1);
            lemma_lex_total(code_points(a.2), code_points(b.2));
            if code_points(a.2) == code_points(b.2) {
                lemma_code_points_injective(a.2, b.2);
            }
        }
    }
}

// ---------------------------------------------------------------------------
// Stable sorting
// ---------------------------------------------------------------------------

/// Whether the entry at `a` belongs before the entry at `b`: by its key, and
/// among equal keys by its position.
pub open spec fn ranks_before(keys: Seq<OrderKey>, a: int, b: int) -> bool {
    key_less(keys[a], keys[b]) || (keys[a] == keys[b] && a < b)
}

/// Whether `order` lists positions of `keys`, one for each key, with the earlier
/// ranking before the later.
pub open spec fn is_stable_order(keys: Seq<OrderKey>, order: Seq<int>) -> bool {
    &&& order.len() == keys.len()
    &&& forall|k: int| 0 <= k < order.len() ==> 0 <= #[trigger] order[k] < keys.len()
    &&& forall|i: int, j: int|
        0 <= i < j < order.len() ==> ranks_before(keys, #[trigger] order[i], #[trigger] order[j])
}

/// The entries of `before` at the positions that `order` lists.
pub open spec fn arranged<R>(before: Seq<R>, order: Seq<int>) -> Seq<R> {
    Seq::new(order.len(), |k: int| before[order[k]])
}

/// Whether `after` is `before`, stably sorted by `keys` (`keys[i]` being the key
/// of `before[i]`).
pub open spec fn is_stably_sorted<R>(before: Seq<R>, keys: Seq<OrderKey>, after: Seq<R>) -> bool {
    &&& before.len() == keys.len()
    &&& exists|order: Seq<int>| #[trigger]
        is_stable_order(keys, order) && after == arranged(before, order)
}

/// The order keys of `list`, where `ids` are the stable identities of its records.
pub open spec fn order_keys(list: Seq<DeviceRecordView>, ids: Seq<Seq<u8>>) -> Seq<OrderKey> {
    Seq::new(list.len(), |i: int| order_key(list[i], ids[i]))
}

/// The key that a record with the stable identity `id` is ordered by.
pub fn device_order_key(record: &DeviceRecord, id: &DeviceStableId) -> (res: (
    DeviceStableId,
    String,
    String,
))
    ensures
        res.deep_view() == order_key(record.deep_view(), id.deep_view()),
        res.0.key@ == id.key@,
        res.1@ == record.config_key@,
        res.2@ == record.display_name@,
{
    (id.clone(), record.config_key.clone(), record.display_name.clone())
}

/// Whether the key `a` comes strictly before the key `b`.
fn key_precedes(a: &(DeviceStableId, String, String), b: &(DeviceStableId, String, String)) -> (res:
    bool)
    ensures
        res == key_less(a.deep_view(), b.deep_view()),
{
    proof {
        lemma_lex_irreflexive(octets(a.0.key@));
        lemma_lex_irreflexive(code_points(a.1@));
    }
    match compare_octets(&a.0.key, &b.0.key) {
        Precedence::Before => true,
        Precedence::After => false,
        Precedence::Same => match compare_text(a.1.as_str(), b.1.as_str()) {
            Precedence::Before => true,
            Precedence::After => false,
            Precedence::Same => match compare_text(a.2.as_str(), b.2.as_str()) {
                Precedence::Before => true,
                _ => false,
            },
        },
    }
}

/// Sorts `list` by the order keys of its records, where `ids[i]` is the stable
/// identity of `list[i]`. Records with equal keys keep their relative order.
pub fn sort_by_stable_ids(list: &mut Vec<DeviceRecord>, ids: &Vec<DeviceStableId>)
    requires
        old(list)@.len() == ids@.len(),
    ensures
        is_stably_sorted(
            old(list).deep_view(),
            order_keys(old(list).deep_view(), ids.deep_view()),
            final(list).deep_view(),
        ),
{
    let ghost before = list@;
    let ghost before_view = list.deep_view();
    let ghost keys = order_keys(list.deep_view(), ids.deep_view());
    let n: usize = list.len();
    let mut sort_keys: Vec<(DeviceStableId, String, String)> = Vec::new();
    let mut i: usize = 0;
    while i < n
        invariant
            n == list@.len(),
            n == ids@.len(),
            i <= n,
            list@ == before,
            keys == order_keys(list.deep_view(), ids.deep_view()),
            sort_keys@.len() == i,
            forall|k: int| 0 <= k < i ==> (#[trigger] sort_keys@[k]).deep_view() == keys[k],
        decreases n - i,
    {
        sort_keys.push(device_order_key(&list[i], &ids[i]));
        i += 1;
    }
    let ghost mut order: Seq<int> = Seq::new(n as nat, |k: int| k);
    assert(list@ =~= arranged(before, order));
    i = 0;
    while i < n
        invariant
            n == keys.len(),
            n == before.len(),
            n == list@.len(),
            n == sort_keys@.len(),
            n == order.len(),
            i <= n,
            list@ == arranged(before, order),
            forall|k: int| 0 <= k < n ==> (#[trigger] sort_keys@[k]).deep_view() == keys[order[k]],
            forall|k: int| i <= k < n ==> #[trigger] order[k] == k,
            forall|k: int| 0 <= k < i ==> 0 <= #[trigger] order[k] < i,
            forall|a: int, b: int|
                0 <= a < b < i ==> ranks_before(keys, #[trigger] order[a], #[trigger] order[b]),
        decreases n - i,
    {
        let mut j: usize = i;
        while j > 0 && key_precedes(&sort_keys[i], &sort_keys[j - 1])
            invariant
                n == sort_keys@.len(),
                n == order.len(),
                j <= i < n,
                order[i as int] == i,
                forall|k: int|
                    0 <= k < n ==> (#[trigger] sort_keys@[k]).deep_view() == keys[order[k]],
                forall|k: int| j <= k < i ==> key_less(keys[i as int], keys[#[trigger] order[k]]),
            decreases j,
        {
            assert(sort_keys@[i as int].deep_view() == keys[order[i as int]]);
            assert(sort_keys@[j - 1].deep_view() == keys[order[j - 1]]);
            j -= 1;
        }
        let ghost earlier = order;
        let ghost list_before = list@;
        let ghost keys_before = sort_keys@;
        let record = list.remove(i);
        list.insert(j, record);
        let key = sort_keys.remove(i);
        sort_keys.insert(j, key);
        proof {
            order = earlier.remove(i as int).insert(j as int, i as int);
            lemma_moved(list_before, i as int, j as int);
            lemma_moved(keys_before, i as int, j as int);
            lemma_moved(earlier, i as int, j as int);
            assert(list@ =~= arranged(before, order));
            lemma_inserted_in_order(keys, earlier, order, i as int, j as int);
        }
        i += 1;
    }
    proof {
        assert(is_stable_order(keys, order));
        assert(list.deep_view() =~= arranged(before_view, order));
    }
}

/// What moving the entry at `i` down to `j` does to a sequence.
proof fn lemma_moved<R>(s: Seq<R>, i: int, j: int)
    requires
        0 <= j <= i < s.len(),
    ensures
        s.remove(i).insert(j, s[i]).len() == s.len(),
        forall|k: int|
            0 <= k < s.len() ==> #[trigger] s.remove(i).insert(j, s[i])[k] == if k < j || k > i {
                s[k]
            } else if k == j {
                s[i]
            } else {
                s[k - 1]
            },
{
    s.remove_ensures(i);
    s.remove(i).insert_ensures(j, s[i]);
    let moved = s.remove(i).insert(j, s[i]);
    assert forall|k: int| 0 <= k < s.len() implies #[trigger] moved[k] == if k < j || k > i {
        s[k]
    } else if k == j {
        s[i]
    } else {
        s[k - 1]
    } by {
        if k > j {
            assert(moved[k] == s.remove(i)[k - 1]);
        }
    }
}

/// Moving the next position behind those that it does not rank before keeps the
/// positions in order.
proof fn lemma_inserted_in_order(
    keys: Seq<OrderKey>,
    earlier: Seq<int>,
    order: Seq<int>,
    i: int,
    j: int,
)
    requires
        0 <= j <= i < keys.len(),
        earlier.len() == keys.len(),
        order.len() == keys.len(),
        earlier[i] == i,
        forall|k: int|
            0 <= k < keys.len() ==> #[trigger] order[k] == if k < j || k > i {
                earlier[k]
            } else if k == j {
                earlier[i]
            } else {
                earlier[k - 1]
            },
        forall|k: int| 0 <= k < i ==> 0 <= #[trigger] earlier[k] < i,
        forall|a: int, b: int|
            0 <= a < b < i ==> ranks_before(keys, #[trigger] earlier[a], #[trigger] earlier[b]),
        forall|k: int| j <= k < i ==> key_less(keys[i], keys[#[trigger] earlier[k]]),
        j > 0 ==> !key_less(keys[i], keys[earlier[j - 1]]),
    ensures
        forall|a: int, b: int|
            0 <= a < b < i + 1 ==> ranks_before(keys, #[trigger] order[a], #[trigger] order[b]),
{
    assert forall|a: int| 0 <= a < j implies ranks_before(keys, #[trigger] earlier[a], i) by {
        lemma_key_total(keys[i], keys[earlier[j - 1]]);
        if a < j - 1 {
            assert(ranks_before(keys, earlier[a], earlier[j - 1]));
            if key_less(keys[earlier[a]], keys[earlier[j - 1]]) && key_less(
                keys[earlier[j - 1]],
                keys[i],
            ) {
                lemma_key_transitive(keys[earlier[a]], keys[earlier[j - 1]], keys[i]);
            }
        }
    }
    assert forall|a: int, b: int| 0 <= a < b < i + 1 implies ranks_before(
        keys,
        #[trigger] order[a],
        #[trigger] order[b],
    ) by {
        let x = if a < j { a } else { a - 1 };
        let y = if b < j { b } else { b - 1 };
        if a == j {
            assert(key_less(keys[i], keys[earlier[y]]));
        } else if b == j {
            assert(ranks_before(keys, earlier[x], i));
        } else {
            assert(ranks_before(keys, earlier[x], earlier[y]));
        }
    }
}

// ---------------------------------------------------------------------------
// Sorting by what a host says of each record
// ---------------------------------------------------------------------------

/// Whether `stable_id`, asked about the route, slot, serial number and unit id of
/// `record`, may answer with the identity `id`.
pub open spec fn may_identify<F>(stable_id: F, record: DeviceRecordView, id: Seq<u8>) -> bool where
    F: Fn(Option<&DeviceRoute>, u8, Option<&String>, [u8; 4]) -> DeviceStableId,
 {
    exists|asked: DeviceRecord, answer: DeviceStableId|
        {
            &&& asked.deep_view() == record
            &&& answer.deep_view() == id
            &&& #[trigger] call_ensures(
                stable_id,
                (
                    reference(asked.route),
                    asked.slot,
                    reference(asked.serial_number),
                    asked.unit_id,
                ),
                answer,
            )
        }
}

/// Whether `stable_id` can be asked about every device.
pub open spec fn identifies_all<F>(stable_id: F) -> bool where
    F: Fn(Option<&DeviceRoute>, u8, Option<&String>, [u8; 4]) -> DeviceStableId,
 {
    forall|route: Option<&DeviceRoute>, slot: u8, serial: Option<&String>, unit_id: [u8; 4]|
        #[trigger] call_requires(stable_id, (route, slot, serial, unit_id))
}

pub open spec fn reference<T>(value: Option<T>) -> Option<&'static T> {
    match value {
        Some(x) => Some(&x),
        None => None,
    }
}

/// Whether `ids` are answers of `stable_id` about the records of `list`.
pub open spec fn are_identities<F>(
    stable_id: F,
    list: Seq<DeviceRecordView>,
    ids: Seq<Seq<u8>>,
) -> bool where F: Fn(Option<&DeviceRoute>, u8, Option<&String>, [u8; 4]) -> DeviceStableId {
    &&& ids.len() == list.len()
    &&& forall|i: int| 0 <= i < list.len() ==> may_identify(stable_id, #[trigger] list[i], ids[i])
}

/// Whether `after` is `before`, stably sorted by the order keys that the answers of
/// `stable_id` give its records.
pub open spec fn is_ordered_by<F>(
    stable_id: F,
    before: Seq<DeviceRecordView>,
    after: Seq<DeviceRecordView>,
) -> bool where F: Fn(Option<&DeviceRoute>, u8, Option<&String>, [u8; 4]) -> DeviceStableId {
    exists|ids: Seq<Seq<u8>>| #[trigger]
        are_identities(stable_id, before, ids) && is_stably_sorted(
            before,
            order_keys(before, ids),
            after,
        )
}

/// Whether `stable_id` answers by the device alone, with what `identity` gives.
pub open spec fn answers_by<F>(
    stable_id: F,
    identity: spec_fn(DeviceRecordView) -> Seq<u8>,
) -> bool where F: Fn(Option<&DeviceRoute>, u8, Option<&String>, [u8; 4]) -> DeviceStableId {
    forall|record: DeviceRecordView, id: Seq<u8>| #[trigger]
        may_identify(stable_id, record, id) ==> id == identity(record)
}

/// The order key of a record whose stable identity `identity` gives.
pub open spec fn key_by(identity: spec_fn(DeviceRecordView) -> Seq<u8>) -> spec_fn(
    DeviceRecordView,
) -> OrderKey {
    |record: DeviceRecordView| order_key(record, identity(record))
}

/// Whether `stable_id` answers by what it is asked about alone, with what
/// `identity` gives for the route, slot, serial number and unit id.
pub open spec fn answers_by_parts<F>(
    stable_id: F,
    identity: spec_fn(Option<DeviceRouteView>, u8, Option<Seq<char>>, Seq<u8>) -> Seq<u8>,
) -> bool where F: Fn(Option<&DeviceRoute>, u8, Option<&String>, [u8; 4]) -> DeviceStableId {
    answers_by(stable_id, identity_of_parts(identity))
}

/// The identity of a record by its route, slot, serial number and unit id.
pub open spec fn identity_of_parts(
    identity: spec_fn(Option<DeviceRouteView>, u8, Option<Seq<char>>, Seq<u8>) -> Seq<u8>,
) -> spec_fn(DeviceRecordView) -> Seq<u8> {
    |record: DeviceRecordView|
        identity(record.route, record.slot, record.serial_number, record.unit_id)
}

/// Whether two records agree in everything that decides their place in the list.
/// They may differ in asset, kind, capabilities, online state and battery.
pub open spec fn same_place(a: DeviceRecordView, b: DeviceRecordView) -> bool {
    &&& a.route == b.route
    &&& a.slot == b.slot
    &&& a.serial_number == b.serial_number
    &&& a.unit_id == b.unit_id
    &&& a.config_key == b.config_key
    &&& a.display_name == b.display_name
}

/// Whether two lists agree, position by position, in everything that decides the
/// order.
pub open spec fn same_places(one: Seq<DeviceRecordView>, other: Seq<DeviceRecordView>) -> bool {
    &&& one.len() == other.len()
    &&& forall|i: int| 0 <= i < one.len() ==> same_place(#[trigger] one[i], other[i])
}

/// Orders the list by stable identity, so that a device that has newly appeared
/// lands in its canonical place. `stable_id` gives the identity of a device by
/// its route, slot, serial number and unit id.
pub fn sort_device_list<F>(list: &mut Vec<DeviceRecord>, stable_id: &F) where
    F: Fn(Option<&DeviceRoute>, u8, Option<&String>, [u8; 4]) -> DeviceStableId,

    requires
        identifies_all(*stable_id),
    ensures
        is_ordered_by(*stable_id, old(list).deep_view(), final(list).deep_view()),
{
    let mut ids: Vec<DeviceStableId> = Vec::new();
    let mut i: usize = 0;
    while i < list.len()
        invariant
            i <= list@.len(),
            ids@.len() == i,
            identifies_all(*stable_id),
            forall|k: int|
                0 <= k < i ==> may_identify(
                    *stable_id,
                    (#[trigger] list@[k]).deep_view(),
                    ids@[k].deep_view(),
                ),
        decreases list@.len() - i,
    {
        let record = &list[i];
        let route = record.route.as_ref();
        let serial = record.serial_number.as_ref();
        let id = stable_id(route, record.slot, serial, record.unit_id);
        proof {
            assert(route == reference(record.route));
            assert(serial == reference(record.serial_number));
            assert(call_ensures(
                *stable_id,
                (
                    reference(record.route),
                    record.slot,
                    reference(record.serial_number),
                    record.unit_id,
                ),
                id,
            ));
        }
        ids.push(id);
        assert(may_identify(*stable_id, list@[i as int].deep_view(), ids@[i as int].deep_view()));
        i += 1;
    }
    assert(are_identities(*stable_id, list.deep_view(), ids.deep_view()));
    sort_by_stable_ids(list, &ids);
}

// ---------------------------------------------------------------------------
// Laws
// ---------------------------------------------------------------------------

/// Ranking is strict: of two positions at most one ranks before the other.
proof fn lemma_ranks_asymmetric(keys: Seq<OrderKey>, a: int, b: int)
    requires
        ranks_before(keys, a, b),
    ensures
        !ranks_before(keys, b, a),
        a != b,
{
    lemma_key_irreflexive(keys[a]);
    if key_less(keys[a], keys[b]) && key_less(keys[b], keys[a]) {
        lemma_key_transitive(keys[a], keys[b], keys[a]);
    }
}

/// A stable order lists every position.
proof fn lemma_order_lists_every_position(keys: Seq<OrderKey>, order: Seq<int>, x: int)
    requires
        is_stable_order(keys, order),
        0 <= x < keys.len(),
    ensures
        order.contains(x),
        order.no_duplicates(),
{
    assert forall|i: int, j: int| 0 <= i < j < order.len() implies order[i] != order[j] by {
        lemma_ranks_asymmetric(keys, order[i], order[j]);
    }
    assert(order.no_duplicates());
    order.unique_seq_to_set();
    lemma_int_range(0, keys.len() as int);
    assert(order.to_set().subset_of(set_int_range(0, keys.len() as int)));
    lemma_subset_equality(order.to_set(), set_int_range(0, keys.len() as int));
    assert(order.to_set().contains(x));
}

/// There is only one stable order of given keys.
pub proof fn lemma_stable_order_is_unique(keys: Seq<OrderKey>, one: Seq<int>, other: Seq<int>)
    requires
        is_stable_order(keys, one),
        is_stable_order(keys, other),
    ensures
        one == other,
{
    lemma_orders_agree_up_to(keys, one, other, one.len() as int);
    assert(one =~= other);
}

proof fn lemma_orders_agree_up_to(
    keys: Seq<OrderKey>,
    one: Seq<int>,
    other: Seq<int>,
    n: int,
)
    requires
        is_stable_order(keys, one),
        is_stable_order(keys, other),
        0 <= n <= keys.len(),
    ensures
        forall|k: int| 0 <= k < n ==> one[k] == other[k],
    decreases n,
{
    if n > 0 {
        lemma_orders_agree_up_to(keys, one, other, n - 1);
        let k = n - 1;
        if one[k] != other[k] {
            lemma_order_lists_every_position(keys, other, one[k]);
            lemma_order_lists_every_position(keys, one, other[k]);
            let p = choose|p: int| 0 <= p < other.len() && other[p] == one[k];
            let q = choose|q: int| 0 <= q < one.len() && one[q] == other[k];
            assert(p > k) by {
                if p < k {
                    assert(one[p] == one[k]);
                }
            }
            assert(q > k) by {
                if q < k {
                    assert(other[q] == other[k]);
                }
            }
            assert(ranks_before(keys, other[k], other[p]));
            assert(ranks_before(keys, one[k], one[q]));
            lemma_ranks_asymmetric(keys, one[k], other[k]);
        }
    }
}

/// Sorting leaves nothing open: a list and its keys have one sorted form.
pub proof fn lemma_sorted_form_is_unique<R>(
    before: Seq<R>,
    keys: Seq<OrderKey>,
    one: Seq<R>,
    other: Seq<R>,
)
    requires
        is_stably_sorted(before, keys, one),
        is_stably_sorted(before, keys, other),
    ensures
        one == other,
{
    let p = choose|p: Seq<int>| #[trigger] is_stable_order(keys, p) && one == arranged(before, p);
    let q = choose|q: Seq<int>| #[trigger] is_stable_order(keys, q) && other == arranged(before, q);
    lemma_stable_order_is_unique(keys, p, q);
}

/// Sorting neither loses nor invents a record: the sorted list has the same
/// records, each as often as before.
pub proof fn lemma_sorting_keeps_records<R>(before: Seq<R>, keys: Seq<OrderKey>, after: Seq<R>)
    requires
        is_stably_sorted(before, keys, after),
    ensures
        after.to_multiset() == before.to_multiset(),
{
    let order = choose|order: Seq<int>| #[trigger]
        is_stable_order(keys, order) && after == arranged(before, order);
    if keys.len() > 0 {
        lemma_order_lists_every_position(keys, order, 0);
    }
    lemma_arranging_keeps_records(before, order);
}

proof fn lemma_arranging_keeps_records<R>(before: Seq<R>, order: Seq<int>)
    requires
        order.len() == before.len(),
        order.no_duplicates(),
        forall|k: int| 0 <= k < order.len() ==> 0 <= #[trigger] order[k] < before.len(),
    ensures
        arranged(before, order).to_multiset() == before.to_multiset(),
    decreases before.len(),
{
    let n = before.len() as int;
    if n == 0 {
        assert(arranged(before, order) =~= before);
    } else {
        order.unique_seq_to_set();
        lemma_int_range(0, n);
        assert(order.to_set().subset_of(set_int_range(0, n)));
        lemma_subset_equality(order.to_set(), set_int_range(0, n));
        assert(order.to_set().contains(n - 1));
        let m = choose|m: int| 0 <= m < order.len() && order[m] == n - 1;
        let rest = order.remove(m);
        order.remove_ensures(m);
        assert forall|k: int| 0 <= k < rest.len() implies 0 <= #[trigger] rest[k] < n - 1 by {
            let source = if k < m { k } else { k + 1 };
            assert(rest[k] == order[source]);
        }
        assert(rest.no_duplicates()) by {
            assert forall|a: int, b: int|
                0 <= a < rest.len() && 0 <= b < rest.len() && a != b implies rest[a] != rest[b] by {
                let x = if a < m { a } else { a + 1 };
                let y = if b < m { b } else { b + 1 };
                assert(rest[a] == order[x] && rest[b] == order[y]);
            }
        }
        lemma_arranging_keeps_records(before.drop_last(), rest);
        let after = arranged(before, order);
        assert(after.remove(m) =~= arranged(before.drop_last(), rest)) by {
            after.remove_ensures(m);
        }
        to_multiset_remove(after, m);
        to_multiset_build(before.drop_last(), before.last());
        assert(before.drop_last().push(before.last()) =~= before);
        assert(after[m] == before.last());
        broadcast use group_to_multiset_ensures;

        assert(after.contains(after[m]));
        assert(after.to_multiset() =~= after.to_multiset().remove(after[m]).insert(after[m]));
    }
}

/// The keys of `list`, where `key` gives the key of a record.
pub open spec fn keyed<R>(list: Seq<R>, key: spec_fn(R) -> OrderKey) -> Seq<OrderKey> {
    Seq::new(list.len(), |i: int| key(list[i]))
}

/// In a sorted list no record belongs before an earlier one.
pub proof fn lemma_sorted_list_is_ascending<R>(
    before: Seq<R>,
    key: spec_fn(R) -> OrderKey,
    after: Seq<R>,
)
    requires
        is_stably_sorted(before, keyed(before, key), after),
    ensures
        after.len() == before.len(),
        forall|i: int, j: int|
            0 <= i < j < after.len() ==> key_less(key(#[trigger] after[i]), key(#[trigger] after[j]))
                || key(after[i]) == key(after[j]),
{
    let keys = keyed(before, key);
    let order = choose|order: Seq<int>| #[trigger]
        is_stable_order(keys, order) && after == arranged(before, order);
    assert forall|i: int, j: int| 0 <= i < j < after.len() implies key_less(
        key(#[trigger] after[i]),
        key(#[trigger] after[j]),
    ) || key(after[i]) == key(after[j]) by {
        assert(ranks_before(keys, order[i], order[j]));
    }
}

/// Sorting a sorted list again changes nothing.
pub proof fn lemma_sorting_is_idempotent<R>(
    before: Seq<R>,
    key: spec_fn(R) -> OrderKey,
    once: Seq<R>,
    twice: Seq<R>,
)
    requires
        is_stably_sorted(before, keyed(before, key), once),
        is_stably_sorted(once, keyed(once, key), twice),
    ensures
        twice == once,
{
    lemma_sorted_list_is_ascending(before, key, once);
    let keys = keyed(once, key);
    let order = Seq::new(once.len(), |k: int| k);
    assert forall|i: int, j: int| 0 <= i < j < order.len() implies ranks_before(
        keys,
        #[trigger] order[i],
        #[trigger] order[j],
    ) by {
        assert(key_less(key(once[i]), key(once[j])) || key(once[i]) == key(once[j]));
    }
    assert(is_stable_order(keys, order));
    assert(once =~= arranged(once, order));
    lemma_sorted_form_is_unique(once, keys, once, twice);
}

/// The order in which records are reported does not matter: two lists with the
/// same records sort to the same list, provided that different records have
/// different keys.
pub proof fn lemma_sorting_ignores_report_order<R>(
    one: Seq<R>,
    other: Seq<R>,
    key: spec_fn(R) -> OrderKey,
    one_sorted: Seq<R>,
    other_sorted: Seq<R>,
)
    requires
        one.to_multiset() == other.to_multiset(),
        forall|a: R, b: R| one.contains(a) && one.contains(b) && key(a) == key(b) ==> a == b,
        is_stably_sorted(one, keyed(one, key), one_sorted),
        is_stably_sorted(other, keyed(other, key), other_sorted),
    ensures
        one_sorted == other_sorted,
{
    lemma_sorting_keeps_records(one, keyed(one, key), one_sorted);
    lemma_sorting_keeps_records(other, keyed(other, key), other_sorted);
    lemma_sorted_list_is_ascending(one, key, one_sorted);
    lemma_sorted_list_is_ascending(other, key, other_sorted);
    assert forall|a: R, b: R|
        one_sorted.contains(a) && one_sorted.contains(b) && key(a) == key(b) implies a == b by {
        broadcast use group_to_multiset_ensures;

        assert(one_sorted.to_multiset().count(a) > 0);
        assert(one_sorted.to_multiset().count(b) > 0);
        assert(one.contains(a) && one.contains(b));
    }
    lemma_ascending_lists_agree(one_sorted, other_sorted, key);
}

/// What a sorted list looks like, said of the identities that it was sorted by.
/// `place[k]` is where the record that now stands at `k` stood before. Of two
/// records, the one with the smaller identity stands earlier, whatever their routes
/// are; between equal identities the smaller config key decides, then the smaller
/// display name; and where all three are equal, the one that stood earlier does.
pub proof fn lemma_smaller_identity_stands_earlier(
    before: Seq<DeviceRecordView>,
    ids: Seq<Seq<u8>>,
    after: Seq<DeviceRecordView>,
) -> (place: Seq<int>)
    requires
        ids.len() == before.len(),
        is_stably_sorted(before, order_keys(before, ids), after),
    ensures
        after.len() == before.len(),
        place.len() == before.len(),
        place.no_duplicates(),
        forall|k: int| 0 <= k < place.len() ==> 0 <= #[trigger] place[k] < before.len(),
        forall|k: int| 0 <= k < after.len() ==> #[trigger] after[k] == before[place[k]],
        forall|i: int, j: int|
            0 <= i < after.len() && 0 <= j < after.len() && lex_less(
                octets(ids[#[trigger] place[i]]),
                octets(ids[#[trigger] place[j]]),
            ) ==> i < j,
        forall|i: int, j: int|
            0 <= i < after.len() && 0 <= j < after.len() && ids[#[trigger] place[i]]
                == ids[#[trigger] place[j]] && lex_less(
                code_points(after[i].config_key),
                code_points(after[j].config_key),
            ) ==> i < j,
        forall|i: int, j: int|
            0 <= i < after.len() && 0 <= j < after.len() && ids[#[trigger] place[i]]
                == ids[#[trigger] place[j]] && after[i].config_key == after[j].config_key
                && lex_less(
                code_points(after[i].display_name),
                code_points(after[j].display_name),
            ) ==> i < j,
        forall|i: int, j: int|
            0 <= i < after.len() && 0 <= j < after.len() && ids[#[trigger] place[i]]
                == ids[#[trigger] place[j]] && after[i].config_key == after[j].config_key
                && after[i].display_name == after[j].display_name && place[i] < place[j] ==> i < j,
{
    let keys = order_keys(before, ids);
    let order = choose|order: Seq<int>| #[trigger]
        is_stable_order(keys, order) && after == arranged(before, order);
    if keys.len() > 0 {
        lemma_order_lists_every_position(keys, order, 0);
    }
    assert forall|i: int, j: int|
        0 <= i < after.len() && 0 <= j < after.len() && ranks_before(
            keys,
            #[trigger] order[i],
            #[trigger] order[j],
        ) implies i < j by {
        lemma_ranks_asymmetric(keys, order[i], order[j]);
        if j < i {
            assert(ranks_before(keys, order[j], order[i]));
        }
    }
    assert forall|k: int| 0 <= k < after.len() implies keys[#[trigger] order[k]] == (
        ids[order[k]],
        after[k].config_key,
        after[k].display_name,
    ) by {
        assert(after[k] == before[order[k]]);
    }
    order
}

/// A reference to what is there, and none to what is not.
pub proof fn lemma_reference_to_what_is_there<T>(value: Option<T>)
    ensures
        reference(value) is Some <==> value is Some,
        value is Some ==> *reference(value)->0 == value->0,
{
}

/// Whatever `stable_id` answers, even if it answered differently when asked twice: the
/// list stands in the order of the answers that were given. `ids[k]` is the answer
/// about the record that now stands at `k`; smaller answers stand earlier, and between
/// equal ones the smaller config key decides, then the smaller display name.
pub proof fn lemma_list_stands_in_the_order_of_answers<F>(
    stable_id: F,
    before: Seq<DeviceRecordView>,
    after: Seq<DeviceRecordView>,
) -> (ids: Seq<Seq<u8>>) where
    F: Fn(Option<&DeviceRoute>, u8, Option<&String>, [u8; 4]) -> DeviceStableId,

    requires
        is_ordered_by(stable_id, before, after),
    ensures
        ids.len() == after.len(),
        forall|k: int|
            0 <= k < after.len() ==> may_identify(stable_id, #[trigger] after[k], ids[k]),
        forall|i: int, j: int|
            0 <= i < ids.len() && 0 <= j < ids.len() && lex_less(
                octets(#[trigger] ids[i]),
                octets(#[trigger] ids[j]),
            ) ==> i < j,
        forall|i: int, j: int|
            0 <= i < ids.len() && 0 <= j < ids.len() && #[trigger] ids[i] == #[trigger] ids[j]
                && lex_less(
                code_points(after[i].config_key),
                code_points(after[j].config_key),
            ) ==> i < j,
        forall|i: int, j: int|
            0 <= i < ids.len() && 0 <= j < ids.len() && #[trigger] ids[i] == #[trigger] ids[j]
                && after[i].config_key == after[j].config_key && lex_less(
                code_points(after[i].display_name),
                code_points(after[j].display_name),
            ) ==> i < j,
{
    let given = choose|given: Seq<Seq<u8>>| #[trigger]
        are_identities(stable_id, before, given) && is_stably_sorted(
            before,
            order_keys(before, given),
            after,
        );
    let place = lemma_smaller_identity_stands_earlier(before, given, after);
    let ids = Seq::new(after.len(), |k: int| given[place[k]]);
    assert forall|k: int| 0 <= k < after.len() implies may_identify(
        stable_id,
        #[trigger] after[k],
        ids[k],
    ) by {
        assert(may_identify(stable_id, before[place[k]], given[place[k]]));
    }
    ids
}

/// The list stands in the order of the answers: of two records, the one for which
/// `stable_id` gave the smaller identity, asked about exactly its route, slot,
/// serial number and unit id, stands earlier, directly attached or paired, awake or
/// asleep. Config key and display name decide only between equal identities.
pub proof fn lemma_smaller_answer_stands_earlier<F>(
    stable_id: F,
    identity: spec_fn(Option<DeviceRouteView>, u8, Option<Seq<char>>, Seq<u8>) -> Seq<u8>,
    before: Seq<DeviceRecordView>,
    after: Seq<DeviceRecordView>,
    i: int,
    j: int,
) where F: Fn(Option<&DeviceRoute>, u8, Option<&String>, [u8; 4]) -> DeviceStableId
    requires
        is_ordered_by(stable_id, before, after),
        forall|
            route: Option<&DeviceRoute>,
            slot: u8,
            serial: Option<&String>,
            unit_id: [u8; 4],
            answer: DeviceStableId,
        | #[trigger]
            call_ensures(stable_id, (route, slot, serial, unit_id), answer) ==> answer.key@
                == identity(route.deep_view(), slot, serial.deep_view(), unit_id@),
        0 <= i < after.len(),
        0 <= j < after.len(),
    ensures
        ({
            let a = after[i];
            let b = after[j];
            let id_a = identity(a.route, a.slot, a.serial_number, a.unit_id);
            let id_b = identity(b.route, b.slot, b.serial_number, b.unit_id);
            &&& lex_less(octets(id_a), octets(id_b)) ==> i < j
            &&& id_a == id_b && lex_less(code_points(a.config_key), code_points(b.config_key))
                ==> i < j
            &&& id_a == id_b && a.config_key == b.config_key && lex_less(
                code_points(a.display_name),
                code_points(b.display_name),
            ) ==> i < j
        }),
{
    let ids = choose|ids: Seq<Seq<u8>>| #[trigger]
        are_identities(stable_id, before, ids) && is_stably_sorted(
            before,
            order_keys(before, ids),
            after,
        );
    let place = lemma_smaller_identity_stands_earlier(before, ids, after);
    assert forall|k: int| 0 <= k < before.len() implies #[trigger] ids[k] == identity(
        before[k].route,
        before[k].slot,
        before[k].serial_number,
        before[k].unit_id,
    ) by {
        assert(may_identify(stable_id, before[k], ids[k]));
        let (asked, answer) = choose|asked: DeviceRecord, answer: DeviceStableId|
            {
                &&& asked.deep_view() == before[k]
                &&& answer.deep_view() == ids[k]
                &&& #[trigger] call_ensures(
                    stable_id,
                    (
                        reference(asked.route),
                        asked.slot,
                        reference(asked.serial_number),
                        asked.unit_id,
                    ),
                    answer,
                )
            };
        assert(reference(asked.route).deep_view() == asked.route.deep_view());
        assert(reference(asked.serial_number).deep_view() == asked.serial_number.deep_view());
    }
    assert(after[i] == before[place[i]]);
    assert(after[j] == before[place[j]]);
}

/// Ordering a list neither loses nor invents a record, whatever the answers are.
pub proof fn lemma_ordering_keeps_records<F>(
    stable_id: F,
    before: Seq<DeviceRecordView>,
    after: Seq<DeviceRecordView>,
) where F: Fn(Option<&DeviceRoute>, u8, Option<&String>, [u8; 4]) -> DeviceStableId
    requires
        is_ordered_by(stable_id, before, after),
    ensures
        after.to_multiset() == before.to_multiset(),
{
    let ids = choose|ids: Seq<Seq<u8>>| #[trigger]
        are_identities(stable_id, before, ids) && is_stably_sorted(
            before,
            order_keys(before, ids),
            after,
        );
    lemma_sorting_keeps_records(before, order_keys(before, ids), after);
}

/// Where the answers depend on the device alone, an ordered list is sorted by keys
/// that do so too.
pub proof fn lemma_answers_determine_keys<F>(
    stable_id: F,
    identity: spec_fn(DeviceRecordView) -> Seq<u8>,
    before: Seq<DeviceRecordView>,
    after: Seq<DeviceRecordView>,
) where F: Fn(Option<&DeviceRoute>, u8, Option<&String>, [u8; 4]) -> DeviceStableId
    requires
        answers_by(stable_id, identity),
        is_ordered_by(stable_id, before, after),
    ensures
        is_stably_sorted(before, keyed(before, key_by(identity)), after),
{
    let ids = choose|ids: Seq<Seq<u8>>| #[trigger]
        are_identities(stable_id, before, ids) && is_stably_sorted(
            before,
            order_keys(before, ids),
            after,
        );
    assert forall|i: int| 0 <= i < before.len() implies order_keys(before, ids)[i] == keyed(
        before,
        key_by(identity),
    )[i] by {
        assert(may_identify(stable_id, before[i], ids[i]));
    }
    assert(order_keys(before, ids) =~= keyed(before, key_by(identity)));
}

/// In an ordered list no record belongs before an earlier one, where the answers
/// depend on the device alone.
pub proof fn lemma_ordered_list_is_ascending<F>(
    stable_id: F,
    identity: spec_fn(DeviceRecordView) -> Seq<u8>,
    before: Seq<DeviceRecordView>,
    after: Seq<DeviceRecordView>,
) where F: Fn(Option<&DeviceRoute>, u8, Option<&String>, [u8; 4]) -> DeviceStableId
    requires
        answers_by(stable_id, identity),
        is_ordered_by(stable_id, before, after),
    ensures
        after.len() == before.len(),
        forall|i: int, j: int|
            0 <= i < j < after.len() ==> key_less(
                key_by(identity)(#[trigger] after[i]),
                key_by(identity)(#[trigger] after[j]),
            ) || key_by(identity)(after[i]) == key_by(identity)(after[j]),
{
    lemma_answers_determine_keys(stable_id, identity, before, after);
    lemma_sorted_list_is_ascending(before, key_by(identity), after);
}

/// Ordering leaves nothing open: a list has one ordered form, where the answers
/// depend on the device alone.
pub proof fn lemma_ordered_form_is_unique<F>(
    stable_id: F,
    identity: spec_fn(DeviceRecordView) -> Seq<u8>,
    before: Seq<DeviceRecordView>,
    one: Seq<DeviceRecordView>,
    other: Seq<DeviceRecordView>,
) where F: Fn(Option<&DeviceRoute>, u8, Option<&String>, [u8; 4]) -> DeviceStableId
    requires
        answers_by(stable_id, identity),
        is_ordered_by(stable_id, before, one),
        is_ordered_by(stable_id, before, other),
    ensures
        one == other,
{
    lemma_answers_determine_keys(stable_id, identity, before, one);
    lemma_answers_determine_keys(stable_id, identity, before, other);
    lemma_sorted_form_is_unique(before, keyed(before, key_by(identity)), one, other);
}

/// Ordering an ordered list again changes nothing, where the answers depend on
/// the device alone.
pub proof fn lemma_ordering_is_idempotent<F>(
    stable_id: F,
    identity: spec_fn(DeviceRecordView) -> Seq<u8>,
    before: Seq<DeviceRecordView>,
    once: Seq<DeviceRecordView>,
    twice: Seq<DeviceRecordView>,
) where F: Fn(Option<&DeviceRoute>, u8, Option<&String>, [u8; 4]) -> DeviceStableId
    requires
        answers_by(stable_id, identity),
        is_ordered_by(stable_id, before, once),
        is_ordered_by(stable_id, once, twice),
    ensures
        twice == once,
{
    lemma_answers_determine_keys(stable_id, identity, before, once);
    lemma_answers_determine_keys(stable_id, identity, once, twice);
    lemma_sorting_is_idempotent(before, key_by(identity), once, twice);
}

/// The order in which records are reported does not matter: two lists with the
/// same records are put in the same order, provided that the answers depend on
/// the device alone and that different records have different order keys.
pub proof fn lemma_ordering_ignores_report_order<F>(
    stable_id: F,
    identity: spec_fn(DeviceRecordView) -> Seq<u8>,
    one: Seq<DeviceRecordView>,
    other: Seq<DeviceRecordView>,
    one_ordered: Seq<DeviceRecordView>,
    other_ordered: Seq<DeviceRecordView>,
) where F: Fn(Option<&DeviceRoute>, u8, Option<&String>, [u8; 4]) -> DeviceStableId
    requires
        answers_by(stable_id, identity),
        one.to_multiset() == other.to_multiset(),
        forall|a: DeviceRecordView, b: DeviceRecordView|
            one.contains(a) && one.contains(b) && key_by(identity)(a) == key_by(identity)(b) ==> a
                == b,
        is_ordered_by(stable_id, one, one_ordered),
        is_ordered_by(stable_id, other, other_ordered),
    ensures
        one_ordered == other_ordered,
{
    lemma_answers_determine_keys(stable_id, identity, one, one_ordered);
    lemma_answers_determine_keys(stable_id, identity, other, other_ordered);
    lemma_sorting_ignores_report_order(one, other, key_by(identity), one_ordered, other_ordered);
}

/// Lists with the same records have the same keys, each as often.
proof fn lemma_same_records_same_key_counts<R>(
    one: Seq<R>,
    other: Seq<R>,
    key: spec_fn(R) -> OrderKey,
)
    requires
        one.to_multiset() == other.to_multiset(),
    ensures
        keyed(one, key).to_multiset() == keyed(other, key).to_multiset(),
    decreases one.len(),
{
    broadcast use group_to_multiset_ensures;

    assert(one.len() == one.to_multiset().len());
    assert(other.len() == other.to_multiset().len());
    if one.len() == 0 {
        assert(one =~= other);
    } else {
        assert(one.contains(one[0]));
        assert(other.to_multiset().count(one[0]) > 0);
        assert(other.contains(one[0]));
        let i = choose|i: int| 0 <= i < other.len() && other[i] == one[0];
        let p = keyed(one, key);
        let q = keyed(other, key);
        to_multiset_remove(one, 0);
        to_multiset_remove(other, i);
        lemma_same_records_same_key_counts(one.remove(0), other.remove(i), key);
        assert(p.remove(0) =~= keyed(one.remove(0), key));
        assert(q.remove(i) =~= keyed(other.remove(i), key));
        to_multiset_remove(p, 0);
        to_multiset_remove(q, i);
        assert(p[0] == q[i]);
        assert(p.contains(p[0]) && q.contains(q[i]));
        assert(p.to_multiset() =~= p.remove(0).to_multiset().insert(p[0]));
        assert(q.to_multiset() =~= q.remove(i).to_multiset().insert(q[i]));
    }
}

/// The order in which records are reported never shows in the keys: two lists with
/// the same records, put in order, have the same sequence of order keys, even
/// where different records share a key.
pub proof fn lemma_key_sequence_ignores_report_order<F>(
    stable_id: F,
    identity: spec_fn(DeviceRecordView) -> Seq<u8>,
    one: Seq<DeviceRecordView>,
    other: Seq<DeviceRecordView>,
    one_ordered: Seq<DeviceRecordView>,
    other_ordered: Seq<DeviceRecordView>,
) where F: Fn(Option<&DeviceRoute>, u8, Option<&String>, [u8; 4]) -> DeviceStableId
    requires
        answers_by(stable_id, identity),
        one.to_multiset() == other.to_multiset(),
        is_ordered_by(stable_id, one, one_ordered),
        is_ordered_by(stable_id, other, other_ordered),
    ensures
        keyed(one_ordered, key_by(identity)) == keyed(other_ordered, key_by(identity)),
{
    let key = key_by(identity);
    lemma_ordering_keeps_records(stable_id, one, one_ordered);
    lemma_ordering_keeps_records(stable_id, other, other_ordered);
    lemma_same_records_same_key_counts(one_ordered, other_ordered, key);
    lemma_ordered_list_is_ascending(stable_id, identity, one, one_ordered);
    lemma_ordered_list_is_ascending(stable_id, identity, other, other_ordered);
    let p = keyed(one_ordered, key);
    let q = keyed(other_ordered, key);
    let same = |k: OrderKey| k;
    assert forall|i: int, j: int| 0 <= i < j < p.len() implies key_less(
        same(#[trigger] p[i]),
        same(#[trigger] p[j]),
    ) || same(p[i]) == same(p[j]) by {
        assert(p[i] == key(one_ordered[i]) && p[j] == key(one_ordered[j]));
    }
    assert forall|i: int, j: int| 0 <= i < j < q.len() implies key_less(
        same(#[trigger] q[i]),
        same(#[trigger] q[j]),
    ) || same(q[i]) == same(q[j]) by {
        assert(q[i] == key(other_ordered[i]) && q[j] == key(other_ordered[j]));
    }
    lemma_ascending_lists_agree(p, q, same);
}

/// A device keeps its place when it wakes, sleeps or drains its battery: two lists
/// that agree, position by position, in route, slot, serial number, unit id,
/// config key and display name are arranged alike, provided that the answers
/// depend on the first four alone.
pub proof fn lemma_places_do_not_depend_on_state<F>(
    stable_id: F,
    identity: spec_fn(Option<DeviceRouteView>, u8, Option<Seq<char>>, Seq<u8>) -> Seq<u8>,
    one: Seq<DeviceRecordView>,
    other: Seq<DeviceRecordView>,
    one_ordered: Seq<DeviceRecordView>,
    other_ordered: Seq<DeviceRecordView>,
) where F: Fn(Option<&DeviceRoute>, u8, Option<&String>, [u8; 4]) -> DeviceStableId
    requires
        answers_by_parts(stable_id, identity),
        same_places(one, other),
        is_ordered_by(stable_id, one, one_ordered),
        is_ordered_by(stable_id, other, other_ordered),
    ensures
        exists|order: Seq<int>|
            {
                &&& #[trigger] is_stable_order(
                    keyed(one, key_by(identity_of_parts(identity))),
                    order,
                )
                &&& one_ordered == arranged(one, order)
                &&& other_ordered == arranged(other, order)
            },
        same_places(one_ordered, other_ordered),
{
    let whole = identity_of_parts(identity);
    let keys = keyed(one, key_by(whole));
    lemma_answers_determine_keys(stable_id, whole, one, one_ordered);
    lemma_answers_determine_keys(stable_id, whole, other, other_ordered);
    assert forall|i: int| 0 <= i < one.len() implies keys[i] == keyed(
        other,
        key_by(whole),
    )[i] by {
        assert(same_place(one[i], other[i]));
    }
    assert(keys =~= keyed(other, key_by(whole)));
    let p = choose|p: Seq<int>| #[trigger]
        is_stable_order(keys, p) && one_ordered == arranged(one, p);
    let q = choose|q: Seq<int>| #[trigger]
        is_stable_order(keys, q) && other_ordered == arranged(other, q);
    lemma_stable_order_is_unique(keys, p, q);
    assert forall|k: int| 0 <= k < one_ordered.len() implies same_place(
        #[trigger] one_ordered[k],
        other_ordered[k],
    ) by {
        assert(0 <= p[k] < keys.len());
        assert(same_place(one[p[k]], other[p[k]]));
    }
}

proof fn lemma_ascending_lists_agree<R>(x: Seq<R>, y: Seq<R>, key: spec_fn(R) -> OrderKey)
    requires
        x.to_multiset() == y.to_multiset(),
        forall|a: R, b: R| x.contains(a) && x.contains(b) && key(a) == key(b) ==> a == b,
        forall|i: int, j: int|
            0 <= i < j < x.len() ==> key_less(key(#[trigger] x[i]), key(#[trigger] x[j])) || key(x[i])
                == key(x[j]),
        forall|i: int, j: int|
            0 <= i < j < y.len() ==> key_less(key(#[trigger] y[i]), key(#[trigger] y[j])) || key(y[i])
                == key(y[j]),
    ensures
        x == y,
    decreases x.len(),
{
    broadcast use group_to_multiset_ensures;

    assert(x.len() == x.to_multiset().len());
    assert(y.len() == y.to_multiset().len());
    if x.len() == 0 {
        assert(x =~= y);
    } else {
        assert(x.contains(x[0]));
        assert(y.contains(y[0]));
        assert(x.to_multiset().count(y[0]) > 0 && y.to_multiset().count(x[0]) > 0);
        assert(x.contains(y[0]) && y.contains(x[0]));
        let p = choose|p: int| 0 <= p < x.len() && x[p] == y[0];
        let q = choose|q: int| 0 <= q < y.len() && y[q] == x[0];
        lemma_key_irreflexive(key(x[0]));
        if key(x[0]) != key(y[0]) {
            assert(key_less(key(x[0]), key(x[p])));
            assert(key_less(key(y[0]), key(y[q])));
            lemma_key_transitive(key(x[0]), key(y[0]), key(x[0]));
        }
        assert(x[0] == y[0]);
        let u = x.remove(0);
        let v = y.remove(0);
        assert(u =~= x.drop_first() && v =~= y.drop_first());
        to_multiset_remove(x, 0);
        to_multiset_remove(y, 0);
        assert forall|a: R, b: R| u.contains(a) && u.contains(b) && key(a) == key(b) implies a
            == b by {
            let i = choose|i: int| 0 <= i < u.len() && u[i] == a;
            let j = choose|j: int| 0 <= j < u.len() && u[j] == b;
            assert(x[i + 1] == a && x[j + 1] == b);
            assert(x.contains(a) && x.contains(b));
        }
        assert forall|i: int, j: int| 0 <= i < j < u.len() implies key_less(
            key(#[trigger] u[i]),
            key(#[trigger] u[j]),
        ) || key(u[i]) == key(u[j]) by {
            assert(u[i] == x[i + 1] && u[j] == x[j + 1]);
        }
        assert forall|i: int, j: int| 0 <= i < j < v.len() implies key_less(
            key(#[trigger] v[i]),
            key(#[trigger] v[j]),
        ) || key(v[i]) == key(v[j]) by {
            assert(v[i] == y[i + 1] && v[j] == y[j + 1]);
        }
        lemma_ascending_lists_agree(u, v, key);
        assert(x =~= seq![x[0]] + u);
        assert(y =~= seq![y[0]] + v);
    }
}

} // verus!
