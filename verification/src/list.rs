//! The device list: the union of what a probe found and what the configuration
//! remembers, in stable order.

use vstd::prelude::*;
use vstd::seq_lib::{group_to_multiset_ensures, lemma_multiset_commutative, to_multiset_remove};

use crate::device::{
    Capabilities, DeviceIdentity, DeviceIdentityView, DeviceInventory, DeviceInventoryView,
    DeviceRoute, DeviceRouteView, PairedDeviceView, ReceiverInfoView,
};
use crate::lexical::{compare_text, Precedence};
use crate::order::{
    answers_by, answers_by_parts, arranged, identifies_all, identity_of_parts, is_ordered_by,
    is_stable_order, key_by, keyed, lemma_key_sequence_ignores_report_order,
    lemma_ordering_ignores_report_order, lemma_ordering_keeps_records,
    lemma_places_do_not_depend_on_state, same_place, same_places, sort_device_list, DeviceStableId,
};
use crate::record::{
    demo_keyboard, demo_record, lemma_demo_keyboard_shows_lighting,
    lemma_live_record_mirrors_probe, lemma_placeholder_carries_what_was_remembered, live_record,
    live_record_of, offline_record, placeholder, DeviceRecord, DeviceRecordView,
};

verus! {

/// A remembered device: its config key and its identity.
pub type KnownDevice = (Seq<char>, DeviceIdentityView);

/// Whether a record with the config key `key` is in `list`.
pub open spec fn lists_key(list: Seq<DeviceRecordView>, key: Seq<char>) -> bool {
    exists|i: int| 0 <= i < list.len() && (#[trigger] list[i]).config_key == key
}

/// The remembered devices that `list` has no record of, in the order given.
pub open spec fn absent(list: Seq<DeviceRecordView>, known: Seq<KnownDevice>) -> Seq<KnownDevice> {
    known.filter(|device: KnownDevice| !lists_key(list, device.0))
}

/// `list`, followed by a placeholder for each remembered device it lacks.
pub open spec fn with_known(list: Seq<DeviceRecordView>, known: Seq<KnownDevice>) -> Seq<
    DeviceRecordView,
> {
    list + absent(list, known).map_values(|device: KnownDevice| placeholder(device.0, device.1))
}

/// The records of the devices `paired` with the node `receiver`.
pub open spec fn records_behind(
    receiver: ReceiverInfoView,
    paired: Seq<PairedDeviceView>,
) -> Seq<DeviceRecordView>
    decreases paired.len(),
{
    if paired.len() == 0 {
        seq![]
    } else {
        let before = records_behind(receiver, paired.drop_last());
        match live_record_of(receiver, paired.last()) {
            Some(record) => before.push(record),
            None => before,
        }
    }
}

/// The records of everything that a probe found.
pub open spec fn live_records(inventories: Seq<DeviceInventoryView>) -> Seq<DeviceRecordView>
    decreases inventories.len(),
{
    if inventories.len() == 0 {
        seq![]
    } else {
        let last = inventories.last();
        live_records(inventories.drop_last()) + records_behind(last.receiver, last.paired)
    }
}

/// Everything the device list holds, before it is put in order.
pub open spec fn collected(
    inventories: Seq<DeviceInventoryView>,
    known: Seq<KnownDevice>,
    demo: bool,
) -> Seq<DeviceRecordView> {
    let live = live_records(inventories);
    with_known(
        if demo {
            live.push(demo_record())
        } else {
            live
        },
        known,
    )
}

fn has_key(list: &Vec<DeviceRecord>, key: &str) -> (res: bool)
    ensures
        res == lists_key(list.deep_view(), key@),
{
    let mut i: usize = 0;
    while i < list.len()
        invariant
            i <= list@.len(),
            forall|k: int| 0 <= k < i ==> (#[trigger] list.deep_view()[k]).config_key != key@,
        decreases list@.len() - i,
    {
        if compare_text(list[i].config_key.as_str(), key) == Precedence::Same {
            assert(list.deep_view()[i as int].config_key == key@);
            return true;
        }
        i += 1;
    }
    false
}

/// Appends an offline placeholder for every known device that is not already in
/// `list`, matched by config key. The records already there stay as they are.
pub fn append_offline_known(list: &mut Vec<DeviceRecord>, known: &[(&str, &DeviceIdentity)])
    ensures
        final(list).deep_view() == with_known(old(list).deep_view(), known.deep_view()),
        final(list)@.len() >= old(list)@.len(),
        forall|i: int|
            0 <= i < old(list)@.len() ==> #[trigger] final(list)@[i] == old(list)@[i],
        forall|i: int|
            old(list)@.len() <= i < final(list)@.len() ==> {
                let added = #[trigger] final(list)@[i];
                &&& !added.online
                &&& added.route is None
                &&& forall|k: int|
                    0 <= k < old(list)@.len() ==> (#[trigger] old(list)@[k]).config_key@
                        != added.config_key@
                &&& exists|j: int|
                    {
                        &&& 0 <= j < known@.len()
                        &&& added.config_key@ == (#[trigger] known@[j]).0@
                        &&& added.display_name@ == known@[j].1.display_name@
                        &&& added.kind == known@[j].1.kind
                        &&& added.capabilities == Some(known@[j].1.capabilities)
                    }
            },
        forall|j: int|
            0 <= j < known@.len() ==> exists|i: int|
                0 <= i < final(list)@.len() && (#[trigger] final(list)@[i]).config_key@ == (
                #[trigger] known@[j]).0@,
{
    let ghost pred = |device: KnownDevice| !lists_key(list.deep_view(), device.0);
    let ghost make = |device: KnownDevice| placeholder(device.0, device.1);
    let ghost all = known.deep_view();
    let mut placeholders: Vec<DeviceRecord> = Vec::new();
    let mut i: usize = 0;
    proof {
        reveal(Seq::filter);
        assert(placeholders.deep_view() =~= all.take(0).filter(pred).map_values(make));
    }
    while i < known.len()
        invariant
            i <= known@.len(),
            all == known.deep_view(),
            pred == (|device: KnownDevice| !lists_key(list.deep_view(), device.0)),
            make == (|device: KnownDevice| placeholder(device.0, device.1)),
            placeholders.deep_view() == all.take(i as int).filter(pred).map_values(make),
        decreases known@.len() - i,
    {
        let ghost before = placeholders.deep_view();
        proof {
            reveal(Seq::filter);
            assert(all.take(i + 1).drop_last() =~= all.take(i as int));
            assert(all.take(i + 1).last() == known@[i as int].deep_view());
        }
        let (key, identity) = known[i];
        if !has_key(list, key) {
            placeholders.push(offline_record(key, identity));
            assert(placeholders.deep_view() =~= before.push(make(known@[i as int].deep_view())));
        }
        assert(placeholders.deep_view() =~= all.take(i + 1).filter(pred).map_values(make));
        i += 1;
    }
    assert(all.take(i as int) =~= all);
    let ghost live = list.deep_view();
    let ghost added = placeholders.deep_view();
    list.append(&mut placeholders);
    assert(list.deep_view() =~= live + added);
    proof {
        let n = old(list)@.len();
        assert forall|i: int| n <= i < list@.len() implies {
            let record = #[trigger] list@[i];
            &&& !record.online
            &&& record.route is None
            &&& forall|k: int|
                0 <= k < n ==> (#[trigger] old(list)@[k]).config_key@ != record.config_key@
            &&& exists|j: int|
                {
                    &&& 0 <= j < known@.len()
                    &&& record.config_key@ == (#[trigger] known@[j]).0@
                    &&& record.display_name@ == known@[j].1.display_name@
                    &&& record.kind == known@[j].1.kind
                    &&& record.capabilities == Some(known@[j].1.capabilities)
                }
        } by {
            let record = list@[i];
            lemma_live_records_win(live, all, i);
            assert(list.deep_view()[i] == record.deep_view());
            assert forall|k: int| 0 <= k < n implies (#[trigger] old(list)@[k]).config_key@
                != record.config_key@ by {
                assert(live[k].config_key == old(list)@[k].config_key@);
            }
            let j = choose|j: int|
                0 <= j < all.len() && list.deep_view()[i].config_key == (#[trigger] all[j]).0
                    && list.deep_view()[i].display_name == all[j].1.display_name
                    && list.deep_view()[i].kind == all[j].1.kind
                    && list.deep_view()[i].capabilities == Some(all[j].1.capabilities);
            assert(all[j] == known@[j].deep_view());
        }
        assert forall|j: int| 0 <= j < known@.len() implies exists|i: int|
            0 <= i < list@.len() && (#[trigger] list@[i]).config_key@ == (
            #[trigger] known@[j]).0@ by {
            assert(all[j].0 == known@[j].0@);
            lemma_union_of_live_and_known(live, all, known@[j].0@);
            let i = choose|i: int|
                0 <= i < list.deep_view().len() && (#[trigger] list.deep_view()[i]).config_key
                    == known@[j].0@;
            assert(list@[i].config_key@ == known@[j].0@);
        }
    }
}

/// The records of everything that a probe found, node by node.
pub fn collect_live_records(inventories: &[DeviceInventory]) -> (res: Vec<DeviceRecord>)
    ensures
        res.deep_view() == live_records(inventories.deep_view()),
{
    let ghost all = inventories.deep_view();
    let mut list: Vec<DeviceRecord> = Vec::new();
    let mut i: usize = 0;
    assert(list.deep_view() =~= live_records(all.take(0)));
    while i < inventories.len()
        invariant
            i <= inventories@.len(),
            all == inventories.deep_view(),
            list.deep_view() == live_records(all.take(i as int)),
        decreases inventories@.len() - i,
    {
        let inv = &inventories[i];
        let ghost earlier = list.deep_view();
        let ghost receiver = inv.receiver.deep_view();
        let ghost paired = inv.paired.deep_view();
        let mut j: usize = 0;
        assert(list.deep_view() =~= earlier + records_behind(receiver, paired.take(0)));
        while j < inv.paired.len()
            invariant
                j <= inv.paired@.len(),
                receiver == inv.receiver.deep_view(),
                paired == inv.paired.deep_view(),
                list.deep_view() == earlier + records_behind(receiver, paired.take(j as int)),
            decreases inv.paired@.len() - j,
        {
            let ghost before = list.deep_view();
            proof {
                assert(paired.take(j + 1).drop_last() =~= paired.take(j as int));
                assert(paired.take(j + 1).last() == inv.paired@[j as int].deep_view());
            }
            match live_record(inv, &inv.paired[j]) {
                Some(record) => {
                    list.push(record);
                    assert(list.deep_view() =~= before.push(record.deep_view()));
                },
                None => {},
            }
            assert(list.deep_view() =~= earlier + records_behind(receiver, paired.take(j + 1)));
            j += 1;
        }
        proof {
            assert(paired.take(j as int) =~= paired);
            assert(all.take(i + 1).drop_last() =~= all.take(i as int));
            assert(all.take(i + 1).last() == inv.deep_view());
        }
        i += 1;
    }
    assert(all.take(i as int) =~= all);
    list
}

/// Builds the device list as the union of a probe's findings and the remembered
/// devices, in stable order.
///
/// A remembered device that the probe did not find (asleep, or not yet probed
/// after a cold start) is listed as an offline placeholder. The probe thus only
/// enriches what is shown, and never decides whether a known device is shown.
/// `demo` adds the demo keyboard. `stable_id` gives the stable identity of a
/// device by its route, slot, serial number and unit id.
pub fn build_device_list<F>(
    inventories: &[DeviceInventory],
    known: &[(&str, &DeviceIdentity)],
    demo: bool,
    stable_id: &F,
) -> (res: Vec<DeviceRecord>) where
    F: Fn(Option<&DeviceRoute>, u8, Option<&String>, [u8; 4]) -> DeviceStableId,

    requires
        identifies_all(*stable_id),
    ensures
        is_ordered_by(
            *stable_id,
            collected(inventories.deep_view(), known.deep_view(), demo),
            res.deep_view(),
        ),
{
    let mut list = collect_live_records(inventories);
    if demo {
        let ghost live = list.deep_view();
        list.push(demo_keyboard());
        assert(list.deep_view() =~= live.push(demo_record()));
    }
    append_offline_known(&mut list, known);
    sort_device_list(&mut list, stable_id);
    list
}

/// Whether `index` is the first position in `list` with the config key `key`.
pub open spec fn is_first_with_key(
    list: Seq<DeviceRecordView>,
    key: Seq<char>,
    index: int,
) -> bool {
    &&& 0 <= index < list.len()
    &&& list[index].config_key == key
    &&& forall|i: int| 0 <= i < index ==> (#[trigger] list[i]).config_key != key
}

/// The position of the device to show first: the first one with the saved config
/// key, or the head of the list.
pub fn pick_initial_device(list: &[DeviceRecord], saved: Option<&str>) -> (res: usize)
    ensures
        match saved {
            Some(key) => if lists_key(list.deep_view(), key@) {
                is_first_with_key(list.deep_view(), key@, res as int)
            } else {
                res == 0
            },
            None => res == 0,
        },
        saved is None ==> res == 0,
        saved is Some && (exists|i: int|
            0 <= i < list@.len() && (#[trigger] list@[i]).config_key@ == saved->0@) ==> {
            &&& res < list@.len()
            &&& list@[res as int].config_key@ == saved->0@
            &&& forall|i: int|
                0 <= i < res ==> (#[trigger] list@[i]).config_key@ != saved->0@
        },
        saved is Some && (forall|i: int|
            0 <= i < list@.len() ==> (#[trigger] list@[i]).config_key@ != saved->0@) ==> res == 0,
{
    match saved {
        Some(key) => {
            let mut i: usize = 0;
            while i < list.len()
                invariant
                    saved == Some(key),
                    i <= list@.len(),
                    forall|k: int|
                        0 <= k < i ==> (#[trigger] list.deep_view()[k]).config_key != key@,
                    forall|k: int| 0 <= k < i ==> (#[trigger] list@[k]).config_key@ != key@,
                decreases list@.len() - i,
            {
                if compare_text(list[i].config_key.as_str(), key) == Precedence::Same {
                    assert(list.deep_view()[i as int].config_key == key@);
                    return i;
                }
                i += 1;
            }
            0
        },
        None => 0,
    }
}

// ---------------------------------------------------------------------------
// Laws
// ---------------------------------------------------------------------------

/// Whether a device with the config key `key` is remembered.
pub open spec fn remembers_key(known: Seq<KnownDevice>, key: Seq<char>) -> bool {
    exists|i: int| 0 <= i < known.len() && (#[trigger] known[i]).0 == key
}

/// What is left of the remembered devices: each has no record in `list`, and each
/// that has none is left.
proof fn lemma_absent(list: Seq<DeviceRecordView>, known: Seq<KnownDevice>)
    ensures
        forall|i: int|
            0 <= i < absent(list, known).len() ==> known.contains(
                #[trigger] absent(list, known)[i],
            ) && !lists_key(list, absent(list, known)[i].0),
        forall|i: int|
            0 <= i < known.len() && !lists_key(list, (#[trigger] known[i]).0) ==> absent(
                list,
                known,
            ).contains(known[i]),
    decreases known.len(),
{
    reveal(Seq::filter);
    if known.len() > 0 {
        let before = known.drop_last();
        lemma_absent(list, before);
        let left = absent(list, known);
        assert forall|i: int| 0 <= i < left.len() implies known.contains(#[trigger] left[i])
            && !lists_key(list, left[i].0) by {
            if i < absent(list, before).len() {
                assert(left[i] == absent(list, before)[i]);
                let j = choose|j: int| 0 <= j < before.len() && before[j] == left[i];
                assert(known[j] == left[i]);
            } else {
                assert(left[i] == known[known.len() - 1]);
            }
        }
        assert forall|i: int|
            0 <= i < known.len() && !lists_key(list, (#[trigger] known[i]).0) implies left.contains(
            known[i],
        ) by {
            if i < before.len() {
                assert(before[i] == known[i]);
                let j = choose|j: int|
                    0 <= j < absent(list, before).len() && absent(list, before)[j] == before[i];
                assert(left[j] == known[i]);
            } else {
                assert(left[left.len() - 1] == known[i]);
            }
        }
    }
}

/// The union rule: the keys of the completed list are the keys of the live
/// records and the keys of the remembered devices, and no others.
pub proof fn lemma_union_of_live_and_known(
    list: Seq<DeviceRecordView>,
    known: Seq<KnownDevice>,
    key: Seq<char>,
)
    ensures
        lists_key(with_known(list, known), key) <==> lists_key(list, key) || remembers_key(
            known,
            key,
        ),
{
    lemma_absent(list, known);
    let left = absent(list, known);
    let all = with_known(list, known);
    if lists_key(all, key) {
        let i = choose|i: int| 0 <= i < all.len() && (#[trigger] all[i]).config_key == key;
        if i < list.len() {
            assert(list[i].config_key == key);
        } else {
            let device = left[i - list.len()];
            assert(known.contains(device));
            let j = choose|j: int| 0 <= j < known.len() && known[j] == device;
            assert(known[j].0 == key);
        }
    }
    if lists_key(list, key) {
        let i = choose|i: int| 0 <= i < list.len() && (#[trigger] list[i]).config_key == key;
        assert(all[i].config_key == key);
    } else if remembers_key(known, key) {
        let j = choose|j: int| 0 <= j < known.len() && (#[trigger] known[j]).0 == key;
        assert(left.contains(known[j]));
        let m = choose|m: int| 0 <= m < left.len() && left[m] == known[j];
        assert(all[list.len() + m].config_key == key);
    }
}

/// A live record wins over what is remembered of the same device: completing the
/// list leaves the live records untouched at its head, and whatever is added has
/// a key of its own, no route, and is offline. It carries the key, name, kind and
/// capabilities that are remembered of one device, and nothing that only a probe
/// could tell.
pub proof fn lemma_live_records_win(list: Seq<DeviceRecordView>, known: Seq<KnownDevice>, i: int)
    requires
        0 <= i < with_known(list, known).len(),
    ensures
        i < list.len() ==> with_known(list, known)[i] == list[i],
        i >= list.len() ==> {
            let added = with_known(list, known)[i];
            &&& !lists_key(list, added.config_key)
            &&& exists|j: int|
                0 <= j < known.len() && added == placeholder(
                    (#[trigger] known[j]).0,
                    known[j].1,
                )
            &&& added.route is None
            &&& !added.online
            &&& forall|k: int|
                0 <= k < list.len() ==> (#[trigger] list[k]).config_key != added.config_key
            &&& exists|j: int|
                {
                    &&& 0 <= j < known.len()
                    &&& added.config_key == (#[trigger] known[j]).0
                    &&& added.display_name == known[j].1.display_name
                    &&& added.kind == known[j].1.kind
                    &&& added.capabilities == Some(known[j].1.capabilities)
                }
            &&& added.asset is None
            &&& added.serial_number is None
            &&& added.unit_id == seq![0u8, 0u8, 0u8, 0u8]
            &&& added.slot == 0
            &&& added.battery is None
        },
{
    lemma_absent(list, known);
    if i >= list.len() {
        let device = absent(list, known)[i - list.len()];
        assert(known.contains(device));
        let j = choose|j: int| 0 <= j < known.len() && known[j] == device;
        assert(with_known(list, known)[i] == placeholder(known[j].0, known[j].1));
        lemma_placeholder_carries_what_was_remembered(known[j].0, known[j].1);
    }
}

/// Which remembered devices are left, by their positions.
proof fn lemma_absent_positions(list: Seq<DeviceRecordView>, known: Seq<KnownDevice>) -> (chosen:
    Seq<int>)
    ensures
        chosen.len() == absent(list, known).len(),
        forall|m: int|
            0 <= m < chosen.len() ==> 0 <= #[trigger] chosen[m] < known.len() && absent(
                list,
                known,
            )[m] == known[chosen[m]],
        forall|m: int, n: int|
            0 <= m < n < chosen.len() ==> #[trigger] chosen[m] < #[trigger] chosen[n],
        forall|j: int|
            0 <= j < known.len() ==> (chosen.contains(j) <==> !lists_key(
                list,
                (#[trigger] known[j]).0,
            )),
    decreases known.len(),
{
    reveal(Seq::filter);
    if known.len() == 0 {
        seq![]
    } else {
        let before = known.drop_last();
        let earlier = lemma_absent_positions(list, before);
        let last = known.len() - 1;
        let chosen = if lists_key(list, known[last].0) {
            earlier
        } else {
            earlier.push(last)
        };
        assert forall|j: int| 0 <= j < known.len() implies (chosen.contains(j) <==> !lists_key(
            list,
            (#[trigger] known[j]).0,
        )) by {
            if j < last {
                assert(before[j] == known[j]);
                if earlier.contains(j) {
                    let m = choose|m: int| 0 <= m < earlier.len() && earlier[m] == j;
                    assert(chosen[m] == j);
                }
                if chosen.contains(j) {
                    let m = choose|m: int| 0 <= m < chosen.len() && chosen[m] == j;
                    assert(earlier[m] == j);
                }
            } else {
                if chosen.contains(j) && lists_key(list, known[j].0) {
                    let m = choose|m: int| 0 <= m < chosen.len() && chosen[m] == j;
                    assert(earlier[m] < last);
                }
                if !lists_key(list, known[j].0) {
                    assert(chosen[chosen.len() - 1] == j);
                }
            }
        }
        chosen
    }
}

/// Each remembered device that the list has no record of is added exactly once, and
/// the additions keep the order in which the devices are remembered: `chosen` lists
/// the positions of those devices, and the additions stand in that order.
pub proof fn lemma_additions_follow_memory(
    list: Seq<DeviceRecordView>,
    known: Seq<KnownDevice>,
) -> (chosen: Seq<int>)
    ensures
        with_known(list, known).len() == list.len() + chosen.len(),
        forall|m: int, n: int|
            0 <= m < n < chosen.len() ==> #[trigger] chosen[m] < #[trigger] chosen[n],
        forall|j: int|
            0 <= j < known.len() ==> (#[trigger] chosen.contains(j) <==> forall|k: int|
                0 <= k < list.len() ==> (#[trigger] list[k]).config_key != known[j].0),
        forall|m: int|
            0 <= m < chosen.len() ==> {
                let added = with_known(list, known)[list.len() + m];
                &&& 0 <= #[trigger] chosen[m] < known.len()
                &&& added.config_key == known[chosen[m]].0
                &&& added.display_name == known[chosen[m]].1.display_name
                &&& added.kind == known[chosen[m]].1.kind
                &&& added.capabilities == Some(known[chosen[m]].1.capabilities)
                &&& !added.online
                &&& added.route is None
            },
{
    let chosen = lemma_absent_positions(list, known);
    assert forall|j: int| 0 <= j < known.len() implies (#[trigger] chosen.contains(j)
        <==> forall|k: int|
        0 <= k < list.len() ==> (#[trigger] list[k]).config_key != known[j].0) by {
        assert(chosen.contains(j) <==> !lists_key(list, known[j].0));
    }
    assert forall|m: int| 0 <= m < chosen.len() implies {
        let added = with_known(list, known)[list.len() + m];
        &&& 0 <= #[trigger] chosen[m] < known.len()
        &&& added.config_key == known[chosen[m]].0
        &&& added.display_name == known[chosen[m]].1.display_name
        &&& added.kind == known[chosen[m]].1.kind
        &&& added.capabilities == Some(known[chosen[m]].1.capabilities)
        &&& !added.online
        &&& added.route is None
    } by {
        let device = known[chosen[m]];
        assert(with_known(list, known)[list.len() + m] == placeholder(device.0, device.1));
        lemma_placeholder_carries_what_was_remembered(device.0, device.1);
    }
    chosen
}

/// A key is listed when some record has it, and the first position with a key lies
/// at or before every other position with it.
pub proof fn lemma_first_with_key_is_earliest(
    list: Seq<DeviceRecordView>,
    key: Seq<char>,
    first: int,
    other: int,
)
    requires
        is_first_with_key(list, key, first),
        0 <= other < list.len(),
        list[other].config_key == key,
    ensures
        lists_key(list, key),
        0 <= first <= other,
        list[first].config_key == key,
{
}

/// Completing a completed list adds nothing.
pub proof fn lemma_completing_is_idempotent(list: Seq<DeviceRecordView>, known: Seq<KnownDevice>)
    ensures
        with_known(with_known(list, known), known) == with_known(list, known),
{
    let all = with_known(list, known);
    lemma_absent(all, known);
    assert(absent(all, known).len() == 0) by {
        if absent(all, known).len() > 0 {
            let device = absent(all, known)[0];
            assert(known.contains(device));
            let j = choose|j: int| 0 <= j < known.len() && known[j] == device;
            assert(known[j].0 == device.0);
            lemma_union_of_live_and_known(list, known, device.0);
        }
    }
    assert(with_known(all, known) =~= all);
}

/// A known device never drops out of the list: whatever a probe finds, and
/// whatever the stable identities are, each remembered device has a record.
pub proof fn lemma_known_devices_are_always_listed<F>(
    stable_id: F,
    inventories: Seq<DeviceInventoryView>,
    known: Seq<KnownDevice>,
    demo: bool,
    res: Seq<DeviceRecordView>,
    i: int,
) where F: Fn(Option<&DeviceRoute>, u8, Option<&String>, [u8; 4]) -> DeviceStableId
    requires
        is_ordered_by(stable_id, collected(inventories, known, demo), res),
        0 <= i < known.len(),
    ensures
        lists_key(res, known[i].0),
        exists|k: int| 0 <= k < res.len() && (#[trigger] res[k]).config_key == known[i].0,
{
    broadcast use group_to_multiset_ensures;

    let all = collected(inventories, known, demo);
    let live = live_records(inventories);
    let base = if demo { live.push(demo_record()) } else { live };
    assert(remembers_key(known, known[i].0));
    lemma_union_of_live_and_known(base, known, known[i].0);
    let k = choose|k: int| 0 <= k < all.len() && (#[trigger] all[k]).config_key == known[i].0;
    lemma_ordering_keeps_records(stable_id, all, res);
    assert(all.contains(all[k]));
    assert(res.to_multiset().count(all[k]) > 0);
    assert(res.contains(all[k]));
    let m = choose|m: int| 0 <= m < res.len() && res[m] == all[k];
    assert(res[m].config_key == known[i].0);
}

/// A known device that the probe did not find keeps its panels: it is listed with
/// the very name, kind and capabilities that are remembered of it, offline and
/// without a route. (The first one counts, should a key be remembered twice.)
pub proof fn lemma_sleeping_device_keeps_its_identity<F>(
    stable_id: F,
    inventories: Seq<DeviceInventoryView>,
    known: Seq<KnownDevice>,
    demo: bool,
    res: Seq<DeviceRecordView>,
    i: int,
) where F: Fn(Option<&DeviceRoute>, u8, Option<&String>, [u8; 4]) -> DeviceStableId
    requires
        is_ordered_by(stable_id, collected(inventories, known, demo), res),
        0 <= i < known.len(),
        forall|k: int|
            0 <= k < live_records(inventories).len() ==> (#[trigger] live_records(
                inventories,
            )[k]).config_key != known[i].0,
        demo ==> known[i].0 != "demo-g513"@,
    ensures
        exists|k: int|
            {
                &&& 0 <= k < res.len()
                &&& (#[trigger] res[k]).config_key == known[i].0
                &&& res[k].display_name == known[i].1.display_name
                &&& res[k].kind == known[i].1.kind
                &&& res[k].capabilities == Some(known[i].1.capabilities)
                &&& !res[k].online
                &&& res[k].route is None
            },
{
    broadcast use group_to_multiset_ensures;

    let all = collected(inventories, known, demo);
    let live = live_records(inventories);
    let base = if demo { live.push(demo_record()) } else { live };
    lemma_demo_keyboard_shows_lighting();
    let chosen = lemma_additions_follow_memory(base, known);
    assert forall|k: int| 0 <= k < base.len() implies (#[trigger] base[k]).config_key
        != known[i].0 by {
        if k < live.len() {
            assert(live[k].config_key != known[i].0);
        }
    }
    assert(chosen.contains(i));
    let m = choose|m: int| 0 <= m < chosen.len() && chosen[m] == i;
    let added = all[base.len() + m];
    assert(added.config_key == known[chosen[m]].0);
    lemma_ordering_keeps_records(stable_id, all, res);
    assert(all.contains(added));
    assert(res.to_multiset().count(added) > 0);
    assert(res.contains(added));
    let k = choose|k: int| 0 <= k < res.len() && res[k] == added;
    assert(res[k].config_key == known[i].0);
}

/// Whether the records of `list` have pairwise different config keys.
pub open spec fn has_distinct_keys(list: Seq<DeviceRecordView>) -> bool {
    forall|i: int, j: int|
        0 <= i < j < list.len() ==> (#[trigger] list[i]).config_key != (
        #[trigger] list[j]).config_key
}

/// Whether the remembered devices have pairwise different config keys.
pub open spec fn remembers_distinct_keys(known: Seq<KnownDevice>) -> bool {
    forall|i: int, j: int|
        0 <= i < j < known.len() ==> (#[trigger] known[i]).0 != (#[trigger] known[j]).0
}

proof fn lemma_absent_keys_are_distinct(list: Seq<DeviceRecordView>, known: Seq<KnownDevice>)
    requires
        remembers_distinct_keys(known),
    ensures
        remembers_distinct_keys(absent(list, known)),
    decreases known.len(),
{
    reveal(Seq::filter);
    if known.len() > 0 {
        let before = known.drop_last();
        let left = absent(list, before);
        assert(remembers_distinct_keys(before));
        lemma_absent_keys_are_distinct(list, before);
        lemma_absent(list, before);
        assert forall|i: int| 0 <= i < left.len() implies (#[trigger] left[i]).0
            != known.last().0 by {
            assert(before.contains(left[i]));
            let j = choose|j: int| 0 <= j < before.len() && before[j] == left[i];
            assert(known[j].0 != known[known.len() - 1].0);
        }
    }
}

/// Completing a list lists no device twice: where the config keys of the list and
/// those of the remembered devices are each pairwise different, so are the keys of
/// the completed list.
pub proof fn lemma_completing_keeps_keys_distinct(
    list: Seq<DeviceRecordView>,
    known: Seq<KnownDevice>,
)
    requires
        has_distinct_keys(list),
        remembers_distinct_keys(known),
    ensures
        has_distinct_keys(with_known(list, known)),
{
    let all = with_known(list, known);
    let left = absent(list, known);
    lemma_absent(list, known);
    lemma_absent_keys_are_distinct(list, known);
    assert forall|i: int, j: int| 0 <= i < j < all.len() implies (#[trigger] all[i]).config_key != (
    #[trigger] all[j]).config_key by {
        if j >= list.len() {
            let device = left[j - list.len()];
            assert(!lists_key(list, device.0));
            if i < list.len() {
                assert(list[i].config_key != device.0);
            } else {
                assert(left[i - list.len()].0 != device.0);
            }
        }
    }
}

/// A node without the devices whose model is not known.
pub open spec fn modelled(inventory: DeviceInventoryView) -> DeviceInventoryView {
    DeviceInventoryView {
        receiver: inventory.receiver,
        paired: inventory.paired.filter(|device: PairedDeviceView| device.model_info is Some),
    }
}

proof fn lemma_records_behind_modelled(receiver: ReceiverInfoView, paired: Seq<PairedDeviceView>)
    ensures
        records_behind(receiver, paired) == records_behind(
            receiver,
            paired.filter(|device: PairedDeviceView| device.model_info is Some),
        ),
    decreases paired.len(),
{
    reveal(Seq::filter);
    let pred = |device: PairedDeviceView| device.model_info is Some;
    if paired.len() > 0 {
        let before = paired.drop_last();
        lemma_records_behind_modelled(receiver, before);
        if pred(paired.last()) {
            let kept = paired.filter(pred);
            assert(kept == before.filter(pred).push(paired.last()));
            assert(kept.drop_last() =~= before.filter(pred));
        }
    }
}

/// A device whose model is not known leaves no trace: the live records are those
/// of the enumeration without such devices.
pub proof fn lemma_unmodelled_devices_leave_no_trace(inventories: Seq<DeviceInventoryView>)
    ensures
        live_records(inventories) == live_records(
            inventories.map_values(|inventory: DeviceInventoryView| modelled(inventory)),
        ),
    decreases inventories.len(),
{
    let only = |inventory: DeviceInventoryView| modelled(inventory);
    if inventories.len() > 0 {
        let last = inventories.last();
        lemma_unmodelled_devices_leave_no_trace(inventories.drop_last());
        lemma_records_behind_modelled(last.receiver, last.paired);
        assert(inventories.map_values(only).drop_last() =~= inventories.drop_last().map_values(
            only,
        ));
    } else {
        assert(inventories.map_values(only) =~= inventories);
    }
}

proof fn lemma_records_behind_parts(
    receiver: ReceiverInfoView,
    one: Seq<PairedDeviceView>,
    other: Seq<PairedDeviceView>,
)
    ensures
        records_behind(receiver, one + other) == records_behind(receiver, one) + records_behind(
            receiver,
            other,
        ),
    decreases other.len(),
{
    if other.len() == 0 {
        assert(one + other =~= one);
    } else {
        lemma_records_behind_parts(receiver, one, other.drop_last());
        assert((one + other).drop_last() =~= one + other.drop_last());
        assert((one + other).last() == other.last());
    }
}

/// A probe is read node by node and device by device, in the order of the
/// enumeration: an enumeration in two parts gives the records of the one and then
/// those of the other, and so does a node whose pairings come in two parts. Without
/// nodes there are no records.
pub proof fn lemma_live_records_of_parts(
    one: Seq<DeviceInventoryView>,
    other: Seq<DeviceInventoryView>,
    receiver: ReceiverInfoView,
    first: Seq<PairedDeviceView>,
    second: Seq<PairedDeviceView>,
)
    ensures
        live_records(seq![]) == Seq::<DeviceRecordView>::empty(),
        live_records(one + other) == live_records(one) + live_records(other),
        live_records(seq![(DeviceInventoryView { receiver, paired: first + second })])
            == live_records(seq![(DeviceInventoryView { receiver, paired: first })])
            + live_records(seq![(DeviceInventoryView { receiver, paired: second })]),
    decreases other.len(),
{
    let node = |paired: Seq<PairedDeviceView>| DeviceInventoryView { receiver, paired };
    lemma_records_behind_parts(receiver, first, second);
    assert forall|paired: Seq<PairedDeviceView>| live_records(seq![#[trigger] node(paired)])
        == records_behind(receiver, paired) by {
        let only = seq![node(paired)];
        reveal_with_fuel(live_records, 2);
        assert(only.drop_last() =~= seq![]);
        assert(only.last() == node(paired));
        assert(live_records(only) =~= records_behind(receiver, paired));
    }
    assert(live_records(seq![node(first + second)]) == records_behind(receiver, first + second));
    assert(live_records(seq![node(first)]) == records_behind(receiver, first));
    assert(live_records(seq![node(second)]) == records_behind(receiver, second));
    if other.len() == 0 {
        assert(one + other =~= one);
        assert(live_records(one + other) =~= live_records(one) + live_records(other));
    } else {
        lemma_live_records_of_parts(one, other.drop_last(), receiver, first, second);
        assert((one + other).drop_last() =~= one + other.drop_last());
        assert((one + other).last() == other.last());
        assert(live_records(one + other) =~= live_records(one) + live_records(other));
    }
}

/// One device behind one node gives one record, which mirrors its probe, and none if
/// its model is not known.
pub proof fn lemma_one_device_gives_one_record(
    receiver: ReceiverInfoView,
    device: PairedDeviceView,
)
    ensures
        ({
            let node = DeviceInventoryView { receiver, paired: seq![device] };
            let live = live_records(seq![node]);
            &&& device.model_info is None ==> live.len() == 0
            &&& device.model_info is Some ==> {
                &&& live.len() == 1
                &&& live[0].config_key == device.model_info->0.config_key
                &&& live[0].serial_number == device.model_info->0.serial_number
                &&& live[0].unit_id == device.model_info->0.unit_id
                &&& live[0].asset == device.model_info->0.asset
                &&& live[0].capabilities == device.capabilities
                &&& live[0].slot == device.slot
                &&& live[0].online == device.online
                &&& live[0].battery == device.battery
                &&& live[0] == live_record_of(receiver, device)->0
            }
        }),
{
    let node = DeviceInventoryView { receiver, paired: seq![device] };
    lemma_live_record_mirrors_probe(receiver, device);
    assert(seq![device].drop_last() =~= seq![]);
    assert(seq![node].drop_last() =~= seq![]);
    reveal_with_fuel(records_behind, 2);
    reveal_with_fuel(live_records, 2);
    assert(seq![node].last() == node);
    assert(seq![device].last() == device);
}

/// The list, before it is put in order: the live records as they are, behind them
/// the demo keyboard where it is asked for, and then what is remembered of the
/// devices that neither of these is.
pub proof fn lemma_collected_live_then_demo_then_known(
    inventories: Seq<DeviceInventoryView>,
    known: Seq<KnownDevice>,
    demo: bool,
)
    ensures
        ({
            let live = live_records(inventories);
            let all = collected(inventories, known, demo);
            let shown = if demo { live.len() + 1 } else { live.len() };
            &&& all.len() >= shown
            &&& forall|i: int| 0 <= i < live.len() ==> #[trigger] all[i] == live[i]
            &&& demo ==> all[live.len() as int].config_key == "demo-g513"@ && all[live.len()
                as int].online && all[live.len() as int].route is None && all[live.len()
                as int].capabilities == Some(
                (Capabilities { buttons: false, pointer: false, lighting: true }),
            )
            &&& with_known(all.take(shown as int), known) == all
            &&& forall|i: int|
                shown <= i < all.len() ==> !(#[trigger] all[i]).online && remembers_key(
                    known,
                    all[i].config_key,
                )
        }),
{
    let live = live_records(inventories);
    let all = collected(inventories, known, demo);
    let base = if demo { live.push(demo_record()) } else { live };
    lemma_demo_keyboard_shows_lighting();
    assert(all.take(base.len() as int) =~= base);
    assert forall|i: int| base.len() <= i < all.len() implies !(#[trigger] all[i]).online
        && remembers_key(known, all[i].config_key) by {
        lemma_live_records_win(base, known, i);
    }
}

/// The records behind a node hold the record of each of its probed devices.
proof fn lemma_records_behind_contain(
    receiver: ReceiverInfoView,
    paired: Seq<PairedDeviceView>,
    j: int,
)
    requires
        0 <= j < paired.len(),
        live_record_of(receiver, paired[j]) is Some,
    ensures
        records_behind(receiver, paired).contains(live_record_of(receiver, paired[j])->0),
    decreases paired.len(),
{
    let all = records_behind(receiver, paired);
    if j < paired.len() - 1 {
        let before = records_behind(receiver, paired.drop_last());
        lemma_records_behind_contain(receiver, paired.drop_last(), j);
        let k = choose|k: int|
            0 <= k < before.len() && before[k] == live_record_of(receiver, paired[j])->0;
        assert(all[k] == before[k]);
    } else {
        assert(all.last() == live_record_of(receiver, paired[j])->0);
    }
}

/// The live records hold the record of each probed device.
proof fn lemma_live_records_contain(inventories: Seq<DeviceInventoryView>, i: int, j: int)
    requires
        0 <= i < inventories.len(),
        0 <= j < inventories[i].paired.len(),
        live_record_of(inventories[i].receiver, inventories[i].paired[j]) is Some,
    ensures
        live_records(inventories).contains(
            live_record_of(inventories[i].receiver, inventories[i].paired[j])->0,
        ),
    decreases inventories.len(),
{
    let record = live_record_of(inventories[i].receiver, inventories[i].paired[j])->0;
    let all = live_records(inventories);
    let before = live_records(inventories.drop_last());
    if i < inventories.len() - 1 {
        lemma_live_records_contain(inventories.drop_last(), i, j);
        let k = choose|k: int| 0 <= k < before.len() && before[k] == record;
        assert(all[k] == record);
    } else {
        let last = records_behind(inventories[i].receiver, inventories[i].paired);
        lemma_records_behind_contain(inventories[i].receiver, inventories[i].paired, j);
        let k = choose|k: int| 0 <= k < last.len() && last[k] == record;
        assert(all[before.len() + k] == record);
    }
}

/// Every probed device whose model is known is listed, with the record that the
/// probe gives it: under its own key, with its own capabilities, slot, battery and
/// ids, and awake or asleep as it was found.
pub proof fn lemma_probed_devices_are_listed<F>(
    stable_id: F,
    inventories: Seq<DeviceInventoryView>,
    known: Seq<KnownDevice>,
    demo: bool,
    res: Seq<DeviceRecordView>,
    i: int,
    j: int,
) where F: Fn(Option<&DeviceRoute>, u8, Option<&String>, [u8; 4]) -> DeviceStableId
    requires
        is_ordered_by(stable_id, collected(inventories, known, demo), res),
        0 <= i < inventories.len(),
        0 <= j < inventories[i].paired.len(),
        inventories[i].paired[j].model_info is Some,
    ensures
        res.contains(live_record_of(inventories[i].receiver, inventories[i].paired[j])->0),
        ({
            let device = inventories[i].paired[j];
            exists|k: int|
                {
                    &&& 0 <= k < res.len()
                    &&& (#[trigger] res[k]).config_key == device.model_info->0.config_key
                    &&& res[k].serial_number == device.model_info->0.serial_number
                    &&& res[k].unit_id == device.model_info->0.unit_id
                    &&& res[k].asset == device.model_info->0.asset
                    &&& res[k].capabilities == device.capabilities
                    &&& res[k].slot == device.slot
                    &&& res[k].online == device.online
                    &&& res[k].battery == device.battery
                }
        }),
{
    broadcast use group_to_multiset_ensures;

    let record = live_record_of(inventories[i].receiver, inventories[i].paired[j])->0;
    let live = live_records(inventories);
    let all = collected(inventories, known, demo);
    lemma_live_records_contain(inventories, i, j);
    let k = choose|k: int| 0 <= k < live.len() && live[k] == record;
    assert(all[k] == record);
    assert(all.contains(record));
    lemma_ordering_keeps_records(stable_id, all, res);
    assert(res.to_multiset().count(record) > 0);
    assert(res.contains(record));
    let m = choose|m: int| 0 <= m < res.len() && res[m] == record;
    lemma_live_record_mirrors_probe(inventories[i].receiver, inventories[i].paired[j]);
    assert(res[m].config_key == inventories[i].paired[j].model_info->0.config_key);
}

/// Taking one node out of an enumeration takes its records out of the live ones.
proof fn lemma_live_records_without(inventories: Seq<DeviceInventoryView>, i: int)
    requires
        0 <= i < inventories.len(),
    ensures
        live_records(inventories).to_multiset() == live_records(
            inventories.remove(i),
        ).to_multiset().add(
            records_behind(inventories[i].receiver, inventories[i].paired).to_multiset(),
        ),
    decreases inventories.len(),
{
    let n = inventories.len() - 1;
    let before = inventories.drop_last();
    let last = records_behind(inventories[n].receiver, inventories[n].paired);
    lemma_multiset_commutative(live_records(before), last);
    if i == n {
        assert(inventories.remove(i) =~= before);
    } else {
        let rest = inventories.remove(i);
        lemma_live_records_without(before, i);
        assert(rest.drop_last() =~= before.remove(i));
        assert(rest.last() == inventories[n]);
        lemma_multiset_commutative(live_records(rest.drop_last()), last);
        assert(live_records(inventories).to_multiset() =~= live_records(rest).to_multiset().add(
            records_behind(inventories[i].receiver, inventories[i].paired).to_multiset(),
        ));
    }
}

/// The nodes may be enumerated in any order: the live records are the same.
pub proof fn lemma_enumeration_order_keeps_records(
    one: Seq<DeviceInventoryView>,
    other: Seq<DeviceInventoryView>,
)
    requires
        one.to_multiset() == other.to_multiset(),
    ensures
        live_records(one).to_multiset() == live_records(other).to_multiset(),
    decreases one.len(),
{
    broadcast use group_to_multiset_ensures;

    assert(one.len() == one.to_multiset().len());
    assert(other.len() == other.to_multiset().len());
    if one.len() == 0 {
        assert(one =~= other);
    } else {
        let node = one[0];
        assert(one.contains(node));
        assert(other.to_multiset().count(node) > 0);
        assert(other.contains(node));
        let i = choose|i: int| 0 <= i < other.len() && other[i] == node;
        to_multiset_remove(one, 0);
        to_multiset_remove(other, i);
        lemma_enumeration_order_keeps_records(one.remove(0), other.remove(i));
        lemma_live_records_without(one, 0);
        lemma_live_records_without(other, i);
    }
}

/// Taking one device out of a node's pairings takes its record out.
proof fn lemma_records_behind_without(
    receiver: ReceiverInfoView,
    paired: Seq<PairedDeviceView>,
    j: int,
)
    requires
        0 <= j < paired.len(),
    ensures
        records_behind(receiver, paired).to_multiset() == match live_record_of(
            receiver,
            paired[j],
        ) {
            Some(record) => records_behind(receiver, paired.remove(j)).to_multiset().insert(record),
            None => records_behind(receiver, paired.remove(j)).to_multiset(),
        },
    decreases paired.len(),
{
    broadcast use group_to_multiset_ensures;

    let n = paired.len() - 1;
    let before = paired.drop_last();
    if j == n {
        assert(paired.remove(j) =~= before);
    } else {
        let rest = paired.remove(j);
        lemma_records_behind_without(receiver, before, j);
        assert(rest.drop_last() =~= before.remove(j));
        assert(rest.last() == paired[n]);
        match (live_record_of(receiver, paired[j]), live_record_of(receiver, paired[n])) {
            (Some(x), Some(y)) => {
                assert(records_behind(receiver, paired).to_multiset() =~= records_behind(
                    receiver,
                    rest,
                ).to_multiset().insert(x));
            },
            _ => {},
        }
    }
}

/// A node's devices may be reported in any order: its records are the same.
pub proof fn lemma_pairing_order_keeps_records(
    receiver: ReceiverInfoView,
    one: Seq<PairedDeviceView>,
    other: Seq<PairedDeviceView>,
)
    requires
        one.to_multiset() == other.to_multiset(),
    ensures
        records_behind(receiver, one).to_multiset() == records_behind(
            receiver,
            other,
        ).to_multiset(),
    decreases one.len(),
{
    broadcast use group_to_multiset_ensures;

    assert(one.len() == one.to_multiset().len());
    assert(other.len() == other.to_multiset().len());
    if one.len() == 0 {
        assert(one =~= other);
    } else {
        let device = one[0];
        assert(one.contains(device));
        assert(other.to_multiset().count(device) > 0);
        assert(other.contains(device));
        let j = choose|j: int| 0 <= j < other.len() && other[j] == device;
        to_multiset_remove(one, 0);
        to_multiset_remove(other, j);
        lemma_pairing_order_keeps_records(receiver, one.remove(0), other.remove(j));
        lemma_records_behind_without(receiver, one, 0);
        lemma_records_behind_without(receiver, other, j);
    }
}

/// Lists with the same keys lack the same remembered devices.
proof fn lemma_same_keys_same_absent(
    a: Seq<DeviceRecordView>,
    b: Seq<DeviceRecordView>,
    known: Seq<KnownDevice>,
)
    requires
        forall|key: Seq<char>| #[trigger] lists_key(a, key) == lists_key(b, key),
    ensures
        absent(a, known) == absent(b, known),
{
    assert((|device: KnownDevice| !lists_key(a, device.0)) =~= (|device: KnownDevice|
        !lists_key(b, device.0)));
}

/// Two probes that find the same records lead to the same collection, up to order.
proof fn lemma_same_records_same_collection(
    one: Seq<DeviceInventoryView>,
    other: Seq<DeviceInventoryView>,
    known: Seq<KnownDevice>,
    demo: bool,
)
    requires
        live_records(one).to_multiset() == live_records(other).to_multiset(),
    ensures
        collected(one, known, demo).to_multiset() == collected(other, known, demo).to_multiset(),
{
    broadcast use group_to_multiset_ensures;

    let a = if demo { live_records(one).push(demo_record()) } else { live_records(one) };
    let b = if demo { live_records(other).push(demo_record()) } else { live_records(other) };
    assert(a.to_multiset() == b.to_multiset());
    assert forall|key: Seq<char>| #[trigger] lists_key(a, key) == lists_key(b, key) by {
        if lists_key(a, key) {
            lemma_same_records_same_keys(a, b, key);
        }
        if lists_key(b, key) {
            lemma_same_records_same_keys(b, a, key);
        }
    }
    lemma_same_keys_same_absent(a, b, known);
    let added = absent(a, known).map_values(
        |device: KnownDevice| placeholder(device.0, device.1),
    );
    lemma_multiset_commutative(a, added);
    lemma_multiset_commutative(b, added);
}

/// The list depends on which records a probe finds, and not on the order in which
/// it reports them, provided that the stable identities depend on the device alone
/// and that different records have different order keys.
pub proof fn lemma_list_ignores_report_order<F>(
    stable_id: F,
    identity: spec_fn(DeviceRecordView) -> Seq<u8>,
    one: Seq<DeviceInventoryView>,
    other: Seq<DeviceInventoryView>,
    known: Seq<KnownDevice>,
    demo: bool,
    one_list: Seq<DeviceRecordView>,
    other_list: Seq<DeviceRecordView>,
) where F: Fn(Option<&DeviceRoute>, u8, Option<&String>, [u8; 4]) -> DeviceStableId
    requires
        answers_by(stable_id, identity),
        live_records(one).to_multiset() == live_records(other).to_multiset(),
        forall|a: DeviceRecordView, b: DeviceRecordView|
            collected(one, known, demo).contains(a) && collected(one, known, demo).contains(b)
                && key_by(identity)(a) == key_by(identity)(b) ==> a == b,
        is_ordered_by(stable_id, collected(one, known, demo), one_list),
        is_ordered_by(stable_id, collected(other, known, demo), other_list),
    ensures
        one_list == other_list,
{
    lemma_same_records_same_collection(one, other, known, demo);
    lemma_ordering_ignores_report_order(
        stable_id,
        identity,
        collected(one, known, demo),
        collected(other, known, demo),
        one_list,
        other_list,
    );
}

/// The list does not depend on the order in which the HID nodes are enumerated,
/// provided that the stable identities depend on the device alone and that
/// different records have different order keys.
pub proof fn lemma_list_ignores_enumeration_order<F>(
    stable_id: F,
    identity: spec_fn(DeviceRecordView) -> Seq<u8>,
    one: Seq<DeviceInventoryView>,
    other: Seq<DeviceInventoryView>,
    known: Seq<KnownDevice>,
    demo: bool,
    one_list: Seq<DeviceRecordView>,
    other_list: Seq<DeviceRecordView>,
) where F: Fn(Option<&DeviceRoute>, u8, Option<&String>, [u8; 4]) -> DeviceStableId
    requires
        answers_by(stable_id, identity),
        one.to_multiset() == other.to_multiset(),
        forall|a: DeviceRecordView, b: DeviceRecordView|
            collected(one, known, demo).contains(a) && collected(one, known, demo).contains(b)
                && key_by(identity)(a) == key_by(identity)(b) ==> a == b,
        is_ordered_by(stable_id, collected(one, known, demo), one_list),
        is_ordered_by(stable_id, collected(other, known, demo), other_list),
    ensures
        one_list == other_list,
{
    lemma_enumeration_order_keeps_records(one, other);
    lemma_list_ignores_report_order(
        stable_id,
        identity,
        one,
        other,
        known,
        demo,
        one_list,
        other_list,
    );
}

/// Whether two enumerations name the same nodes with the same devices behind
/// them, in whatever order: `other` is some reordering of the nodes of `one`, with
/// the devices of each node reordered.
pub open spec fn same_findings(
    one: Seq<DeviceInventoryView>,
    other: Seq<DeviceInventoryView>,
) -> bool {
    exists|nodes: Seq<DeviceInventoryView>|
        {
            &&& nodes.to_multiset() == one.to_multiset()
            &&& #[trigger] same_nodes_reordered_within(nodes, other)
        }
}

/// Whether two enumerations name the same nodes in the same order, with the same
/// devices behind each in whatever order.
pub open spec fn same_nodes_reordered_within(
    one: Seq<DeviceInventoryView>,
    other: Seq<DeviceInventoryView>,
) -> bool {
    &&& one.len() == other.len()
    &&& forall|i: int|
        0 <= i < one.len() ==> (#[trigger] one[i]).receiver == other[i].receiver
            && one[i].paired.to_multiset() == other[i].paired.to_multiset()
}

proof fn lemma_reordering_within_keeps_records(
    one: Seq<DeviceInventoryView>,
    other: Seq<DeviceInventoryView>,
)
    requires
        same_nodes_reordered_within(one, other),
    ensures
        live_records(one).to_multiset() == live_records(other).to_multiset(),
    decreases one.len(),
{
    if one.len() > 0 {
        let n = one.len() - 1;
        let before = one.drop_last();
        assert forall|i: int| 0 <= i < before.len() implies (#[trigger] before[i]).receiver
            == other.drop_last()[i].receiver && before[i].paired.to_multiset()
            == other.drop_last()[i].paired.to_multiset() by {
            assert(one[i] == before[i]);
        }
        lemma_reordering_within_keeps_records(before, other.drop_last());
        assert(one[n].receiver == other[n].receiver);
        lemma_pairing_order_keeps_records(one[n].receiver, one[n].paired, other[n].paired);
        lemma_multiset_commutative(
            live_records(before),
            records_behind(one[n].receiver, one[n].paired),
        );
        lemma_multiset_commutative(
            live_records(other.drop_last()),
            records_behind(other[n].receiver, other[n].paired),
        );
    }
}

/// The same findings give the same live records, in whatever order they come.
pub proof fn lemma_same_findings_same_records(
    one: Seq<DeviceInventoryView>,
    other: Seq<DeviceInventoryView>,
)
    requires
        same_findings(one, other),
    ensures
        live_records(one).to_multiset() == live_records(other).to_multiset(),
{
    let nodes = choose|nodes: Seq<DeviceInventoryView>|
        {
            &&& nodes.to_multiset() == one.to_multiset()
            &&& #[trigger] same_nodes_reordered_within(nodes, other)
        };
    lemma_enumeration_order_keeps_records(one, nodes);
    lemma_reordering_within_keeps_records(nodes, other);
}

/// Neither the order of the HID nodes nor that of the devices behind each shows in
/// the order keys: the two lists have the same sequence of keys, even where
/// different records share a key.
pub proof fn lemma_key_sequence_ignores_every_order<F>(
    stable_id: F,
    identity: spec_fn(DeviceRecordView) -> Seq<u8>,
    one: Seq<DeviceInventoryView>,
    other: Seq<DeviceInventoryView>,
    known: Seq<KnownDevice>,
    demo: bool,
    one_list: Seq<DeviceRecordView>,
    other_list: Seq<DeviceRecordView>,
) where F: Fn(Option<&DeviceRoute>, u8, Option<&String>, [u8; 4]) -> DeviceStableId
    requires
        answers_by(stable_id, identity),
        same_findings(one, other),
        is_ordered_by(stable_id, collected(one, known, demo), one_list),
        is_ordered_by(stable_id, collected(other, known, demo), other_list),
    ensures
        keyed(one_list, key_by(identity)) == keyed(other_list, key_by(identity)),
{
    lemma_same_findings_same_records(one, other);
    lemma_same_records_same_collection(one, other, known, demo);
    lemma_key_sequence_ignores_report_order(
        stable_id,
        identity,
        collected(one, known, demo),
        collected(other, known, demo),
        one_list,
        other_list,
    );
}

/// The list depends neither on the order in which the HID nodes are enumerated
/// nor on the order in which each node reports its devices, provided that the
/// stable identities depend on the device alone and that different records have
/// different order keys.
pub proof fn lemma_list_ignores_every_order<F>(
    stable_id: F,
    identity: spec_fn(DeviceRecordView) -> Seq<u8>,
    one: Seq<DeviceInventoryView>,
    other: Seq<DeviceInventoryView>,
    known: Seq<KnownDevice>,
    demo: bool,
    one_list: Seq<DeviceRecordView>,
    other_list: Seq<DeviceRecordView>,
) where F: Fn(Option<&DeviceRoute>, u8, Option<&String>, [u8; 4]) -> DeviceStableId
    requires
        answers_by(stable_id, identity),
        same_findings(one, other),
        forall|a: DeviceRecordView, b: DeviceRecordView|
            collected(one, known, demo).contains(a) && collected(one, known, demo).contains(b)
                && key_by(identity)(a) == key_by(identity)(b) ==> a == b,
        is_ordered_by(stable_id, collected(one, known, demo), one_list),
        is_ordered_by(stable_id, collected(other, known, demo), other_list),
    ensures
        one_list == other_list,
{
    lemma_same_findings_same_records(one, other);
    lemma_list_ignores_report_order(
        stable_id,
        identity,
        one,
        other,
        known,
        demo,
        one_list,
        other_list,
    );
}

/// Whether two probes of a device agree in all but its state: they may differ in
/// kind, online state, battery and capabilities.
pub open spec fn same_device(a: PairedDeviceView, b: PairedDeviceView) -> bool {
    &&& a.slot == b.slot
    &&& a.codename == b.codename
    &&& a.model_info == b.model_info
}

/// Whether two enumerations name the same nodes with the same devices, in the same
/// order, up to the state of the devices.
pub open spec fn same_but_for_state(
    one: Seq<DeviceInventoryView>,
    other: Seq<DeviceInventoryView>,
) -> bool {
    &&& one.len() == other.len()
    &&& forall|i: int|
        0 <= i < one.len() ==> {
            &&& (#[trigger] one[i]).receiver == other[i].receiver
            &&& same_devices(one[i].paired, other[i].paired)
        }
}

/// Whether two reports of a node name the same devices, up to their state.
pub open spec fn same_devices(one: Seq<PairedDeviceView>, other: Seq<PairedDeviceView>) -> bool {
    &&& one.len() == other.len()
    &&& forall|j: int| 0 <= j < one.len() ==> same_device(#[trigger] one[j], other[j])
}

proof fn lemma_state_keeps_places_behind(
    receiver: ReceiverInfoView,
    one: Seq<PairedDeviceView>,
    other: Seq<PairedDeviceView>,
)
    requires
        same_devices(one, other),
    ensures
        same_places(records_behind(receiver, one), records_behind(receiver, other)),
    decreases one.len(),
{
    if one.len() > 0 {
        assert(same_device(one[one.len() - 1], other[other.len() - 1]));
        assert forall|j: int| 0 <= j < one.len() - 1 implies same_device(
            #[trigger] one.drop_last()[j],
            other.drop_last()[j],
        ) by {
            assert(same_device(one[j], other[j]));
        }
        lemma_state_keeps_places_behind(receiver, one.drop_last(), other.drop_last());
    }
}

proof fn lemma_state_keeps_live_places(
    one: Seq<DeviceInventoryView>,
    other: Seq<DeviceInventoryView>,
)
    requires
        same_but_for_state(one, other),
    ensures
        same_places(live_records(one), live_records(other)),
    decreases one.len(),
{
    if one.len() > 0 {
        let n = one.len() - 1;
        let before = one.drop_last();
        assert(one[n].receiver == other[n].receiver);
        lemma_state_keeps_places_behind(one[n].receiver, one[n].paired, other[n].paired);
        assert forall|i: int| 0 <= i < before.len() implies {
            &&& (#[trigger] before[i]).receiver == other.drop_last()[i].receiver
            &&& same_devices(before[i].paired, other.drop_last()[i].paired)
        } by {
            assert(one[i] == before[i]);
        }
        lemma_state_keeps_live_places(before, other.drop_last());
    }
}

proof fn lemma_same_places_same_keys(
    one: Seq<DeviceRecordView>,
    other: Seq<DeviceRecordView>,
    key: Seq<char>,
)
    requires
        same_places(one, other),
    ensures
        lists_key(one, key) == lists_key(other, key),
{
    if lists_key(one, key) {
        let i = choose|i: int| 0 <= i < one.len() && (#[trigger] one[i]).config_key == key;
        assert(same_place(one[i], other[i]));
        assert(other[i].config_key == key);
    }
    if lists_key(other, key) {
        let i = choose|i: int| 0 <= i < other.len() && (#[trigger] other[i]).config_key == key;
        assert(same_place(one[i], other[i]));
        assert(one[i].config_key == key);
    }
}

/// The list keeps its order while the devices a probe reports only change state:
/// one that wakes, falls asleep or drains its battery stays in its place, provided
/// that the stable identities depend on route, slot, serial number and unit id
/// alone.
pub proof fn lemma_list_keeps_places_across_state_changes<F>(
    stable_id: F,
    identity: spec_fn(Option<DeviceRouteView>, u8, Option<Seq<char>>, Seq<u8>) -> Seq<u8>,
    one: Seq<DeviceInventoryView>,
    other: Seq<DeviceInventoryView>,
    known: Seq<KnownDevice>,
    demo: bool,
    one_list: Seq<DeviceRecordView>,
    other_list: Seq<DeviceRecordView>,
) where F: Fn(Option<&DeviceRoute>, u8, Option<&String>, [u8; 4]) -> DeviceStableId
    requires
        answers_by_parts(stable_id, identity),
        same_but_for_state(one, other),
        is_ordered_by(stable_id, collected(one, known, demo), one_list),
        is_ordered_by(stable_id, collected(other, known, demo), other_list),
    ensures
        exists|order: Seq<int>|
            {
                &&& #[trigger] is_stable_order(
                    keyed(
                        collected(one, known, demo),
                        key_by(identity_of_parts(identity)),
                    ),
                    order,
                )
                &&& one_list == arranged(collected(one, known, demo), order)
                &&& other_list == arranged(collected(other, known, demo), order)
            },
        same_places(one_list, other_list),
{
    lemma_state_keeps_live_places(one, other);
    let a = if demo { live_records(one).push(demo_record()) } else { live_records(one) };
    let b = if demo { live_records(other).push(demo_record()) } else { live_records(other) };
    assert(same_places(a, b));
    assert forall|key: Seq<char>| #[trigger] lists_key(a, key) == lists_key(b, key) by {
        lemma_same_places_same_keys(a, b, key);
    }
    lemma_same_keys_same_absent(a, b, known);
    assert(same_places(collected(one, known, demo), collected(other, known, demo)));
    lemma_places_do_not_depend_on_state(
        stable_id,
        identity,
        collected(one, known, demo),
        collected(other, known, demo),
        one_list,
        other_list,
    );
}

proof fn lemma_same_records_same_keys(
    a: Seq<DeviceRecordView>,
    b: Seq<DeviceRecordView>,
    key: Seq<char>,
)
    requires
        a.to_multiset() == b.to_multiset(),
        lists_key(a, key),
    ensures
        lists_key(b, key),
{
    broadcast use group_to_multiset_ensures;

    let i = choose|i: int| 0 <= i < a.len() && (#[trigger] a[i]).config_key == key;
    assert(a.contains(a[i]));
    assert(b.to_multiset().count(a[i]) > 0);
    assert(b.contains(a[i]));
    let j = choose|j: int| 0 <= j < b.len() && b[j] == a[i];
    assert(b[j].config_key == key);
}

} // verus!
