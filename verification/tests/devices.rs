use openlogi_inventory::device::{
    BatteryInfo, Capabilities, DeviceIdentity, DeviceInventory, DeviceKind, DeviceRoute, ModelInfo,
    PairedDevice, ReceiverInfo, ResolvedAsset, DIRECT_DEVICE_INDEX,
};
use openlogi_inventory::lexical::{compare_octets, compare_text, Precedence};
use openlogi_inventory::list::{
    append_offline_known, build_device_list, collect_live_records, pick_initial_device,
};
use openlogi_inventory::order::{
    device_order_key, sort_by_stable_ids, sort_device_list, DeviceStableId,
};
use openlogi_inventory::record::{
    demo_keyboard, device_route, effective_kind, kind_disagrees, live_display_name, live_record,
    offline_record, DeviceRecord,
};

fn mouse_capabilities() -> Capabilities {
    Capabilities {
        buttons: true,
        pointer: true,
        lighting: false,
    }
}

fn online_record(key: &str) -> DeviceRecord {
    DeviceRecord {
        config_key: key.to_string(),
        display_name: format!("live {key}"),
        asset: None,
        serial_number: None,
        unit_id: [1; 4],
        route: None,
        kind: DeviceKind::Mouse,
        capabilities: Some(mouse_capabilities()),
        slot: 1,
        online: true,
        battery: None,
    }
}

fn mouse_identity(name: &str) -> DeviceIdentity {
    DeviceIdentity {
        display_name: name.to_string(),
        kind: DeviceKind::Mouse,
        capabilities: mouse_capabilities(),
    }
}

fn receiver(uid: Option<&str>) -> ReceiverInfo {
    ReceiverInfo {
        unique_id: uid.map(|u| u.to_string()),
        vendor_id: 0x046d,
        product_id: 0xc548,
    }
}

fn model(key: &str, asset: Option<ResolvedAsset>) -> ModelInfo {
    ModelInfo {
        config_key: key.to_string(),
        serial_number: Some(format!("sn-{key}")),
        unit_id: [1, 2, 3, 4],
        asset,
    }
}

fn paired(slot: u8, codename: Option<&str>, model_info: Option<ModelInfo>) -> PairedDevice {
    PairedDevice {
        slot,
        codename: codename.map(|c| c.to_string()),
        kind: DeviceKind::Keyboard,
        online: true,
        battery: Some(BatteryInfo { reading: 7 }),
        model_info,
        capabilities: Some(mouse_capabilities()),
    }
}

/// Orders by slot, then by unit id; devices without a route come last.
fn by_slot(
    route: Option<&DeviceRoute>,
    slot: u8,
    _serial: Option<&String>,
    unit_id: [u8; 4],
) -> DeviceStableId {
    let mut key = vec![if route.is_some() { 0 } else { 1 }, slot];
    key.extend(unit_id);
    DeviceStableId { key }
}

fn keys(list: &[DeviceRecord]) -> Vec<&str> {
    list.iter().map(|r| r.config_key.as_str()).collect()
}

#[test]
fn offline_record_is_present_but_inert() {
    let id = mouse_identity("MX Master 3S");
    let rec = offline_record("2b034", &id);
    assert_eq!(rec.config_key, "2b034");
    assert_eq!(rec.display_name, "MX Master 3S");
    assert!(!rec.online);
    assert!(rec.route.is_none());
    assert_eq!(rec.capabilities, Some(id.capabilities));
}

#[test]
fn known_devices_are_appended_only_when_absent_from_live() {
    let mut list = vec![online_record("A")];
    let a = mouse_identity("live A overwritten?");
    let b = mouse_identity("asleep B");
    append_offline_known(&mut list, &[("A", &a), ("B", &b)]);

    assert_eq!(list.len(), 2);
    assert!(
        list.iter().any(|r| r.config_key == "A" && r.online),
        "the live record for A must win over its identity"
    );
    assert!(
        list.iter().any(|r| r.config_key == "B" && !r.online),
        "B is added back as a persisted offline placeholder"
    );
}

#[test]
fn asset_kind_overrides_a_misreporting_hid_kind() {
    assert_eq!(
        effective_kind(DeviceKind::Keyboard, Some(DeviceKind::Mouse)),
        DeviceKind::Mouse
    );
}

#[test]
fn hid_kind_is_used_without_a_modelled_asset() {
    assert_eq!(effective_kind(DeviceKind::Mouse, None), DeviceKind::Mouse);
    assert_eq!(
        effective_kind(DeviceKind::Mouse, Some(DeviceKind::Unknown)),
        DeviceKind::Mouse
    );
}

#[test]
fn asset_kind_fills_in_an_unknown_hid_kind() {
    let other = DeviceKind::Other { code: 5 };
    assert_eq!(effective_kind(DeviceKind::Unknown, Some(other)), other);
    assert_eq!(
        effective_kind(DeviceKind::Unknown, Some(DeviceKind::Unknown)),
        DeviceKind::Unknown
    );
}

#[test]
fn kinds_disagree_only_when_both_are_known_and_differ() {
    let mouse = DeviceKind::Mouse;
    let keyboard = DeviceKind::Keyboard;
    let unknown = DeviceKind::Unknown;
    assert!(kind_disagrees(keyboard, Some(mouse)));
    assert!(kind_disagrees(
        DeviceKind::Other { code: 1 },
        Some(DeviceKind::Other { code: 2 })
    ));
    assert!(!kind_disagrees(mouse, Some(mouse)));
    assert!(!kind_disagrees(unknown, Some(mouse)));
    assert!(!kind_disagrees(mouse, Some(unknown)));
    assert!(!kind_disagrees(unknown, Some(unknown)));
    assert!(!kind_disagrees(mouse, None));
    // The registry settles it.
    assert_eq!(effective_kind(keyboard, Some(mouse)), mouse);
}

#[test]
fn bolt_devices_route_through_their_receiver() {
    let inv = DeviceInventory {
        receiver: receiver(Some("UID1")),
        paired: vec![],
    };
    assert_eq!(
        device_route(&inv, 2),
        Some(DeviceRoute::Bolt {
            receiver_uid: "UID1".to_string(),
            slot: 2
        })
    );
    assert_eq!(
        device_route(&inv, DIRECT_DEVICE_INDEX),
        Some(DeviceRoute::Bolt {
            receiver_uid: "UID1".to_string(),
            slot: DIRECT_DEVICE_INDEX
        })
    );
}

#[test]
fn direct_devices_route_by_vendor_and_product() {
    let inv = DeviceInventory {
        receiver: receiver(None),
        paired: vec![],
    };
    assert_eq!(
        device_route(&inv, DIRECT_DEVICE_INDEX),
        Some(DeviceRoute::Direct {
            vendor_id: 0x046d,
            product_id: 0xc548
        })
    );
    assert_eq!(device_route(&inv, 1), None);
}

#[test]
fn names_fall_back_from_asset_to_codename_to_slot() {
    let asset = ResolvedAsset {
        display_name: "MX Keys".to_string(),
        kind: DeviceKind::Keyboard,
        image: 1,
    };
    let codename = Some("SHINY KEYBOARD".to_string());
    assert_eq!(live_display_name(&Some(asset), &codename, 3), "MX Keys");
    assert_eq!(live_display_name(&None, &codename, 3), "Shiny Keyboard");
    assert_eq!(live_display_name(&None, &None, 3), "Slot 3");
    assert_eq!(live_display_name(&None, &None, 0), "Slot 0");
    assert_eq!(live_display_name(&None, &None, 40), "Slot 40");
    assert_eq!(live_display_name(&None, &None, 255), "Slot 255");
}

#[test]
fn live_record_mirrors_the_probe() {
    let asset = ResolvedAsset {
        display_name: "MX Master 3S".to_string(),
        kind: DeviceKind::Mouse,
        image: 9,
    };
    let inv = DeviceInventory {
        receiver: receiver(Some("UID1")),
        paired: vec![paired(1, Some("MX3S"), Some(model("2b034", Some(asset))))],
    };
    let rec = live_record(&inv, &inv.paired[0]).unwrap();
    assert_eq!(rec.config_key, "2b034");
    assert_eq!(rec.display_name, "MX Master 3S");
    assert_eq!(rec.asset.as_ref().map(|a| a.image), Some(9));
    assert_eq!(rec.serial_number.as_deref(), Some("sn-2b034"));
    assert_eq!(rec.unit_id, [1, 2, 3, 4]);
    assert_eq!(
        rec.route,
        Some(DeviceRoute::Bolt {
            receiver_uid: "UID1".to_string(),
            slot: 1
        })
    );
    assert_eq!(rec.kind, DeviceKind::Mouse);
    assert_eq!(rec.capabilities, Some(mouse_capabilities()));
    assert_eq!(rec.slot, 1);
    assert!(rec.online);
    assert_eq!(rec.battery, Some(BatteryInfo { reading: 7 }));
}

#[test]
fn devices_without_a_model_are_left_out() {
    let inventories = vec![
        DeviceInventory {
            receiver: receiver(Some("UID1")),
            paired: vec![
                paired(1, None, Some(model("a", None))),
                paired(2, Some("NEVER SEEN"), None),
                paired(3, None, Some(model("b", None))),
            ],
        },
        DeviceInventory {
            receiver: receiver(None),
            paired: vec![paired(DIRECT_DEVICE_INDEX, None, Some(model("c", None)))],
        },
    ];
    assert_eq!(keys(&collect_live_records(&inventories)), vec!["a", "b", "c"]);
}

#[test]
fn demo_keyboard_is_online_and_unrouted() {
    let demo = demo_keyboard();
    assert_eq!(demo.config_key, "demo-g513");
    assert_eq!(demo.display_name, "Logitech G513");
    assert_eq!(demo.kind, DeviceKind::Keyboard);
    assert_eq!(
        demo.capabilities,
        Some(Capabilities {
            lighting: true,
            ..Capabilities::default()
        })
    );
    assert!(demo.online);
    assert!(demo.route.is_none());
    assert!(demo.asset.is_none() && demo.serial_number.is_none() && demo.battery.is_none());
    assert_eq!(demo.unit_id, [0; 4]);
    assert_eq!(demo.slot, 0);
}

#[test]
fn placeholder_carries_nothing_of_the_hardware() {
    let id = mouse_identity("x");
    let rec = offline_record("k", &id);
    assert_eq!(rec.unit_id, [0; 4]);
    assert_eq!(rec.slot, 0);
    assert_eq!(rec.kind, DeviceKind::Mouse);
    assert!(rec.asset.is_none() && rec.serial_number.is_none() && rec.battery.is_none());
}

#[test]
fn completing_a_completed_list_adds_nothing() {
    let a = mouse_identity("a");
    let b = mouse_identity("b");
    let mut list = vec![online_record("A")];
    append_offline_known(&mut list, &[("B", &b), ("A", &a)]);
    append_offline_known(&mut list, &[("B", &b), ("A", &a)]);
    assert_eq!(keys(&list), vec!["A", "B"]);
    assert_eq!(list[0].display_name, "live A");
}

#[test]
fn known_devices_are_listed_without_a_probe() {
    let a = mouse_identity("a");
    let b = mouse_identity("b");
    let list = build_device_list(&[], &[("B", &b), ("A", &a)], false, &by_slot);
    assert_eq!(keys(&list), vec!["A", "B"]);
    assert!(list.iter().all(|r| !r.online && r.route.is_none()));
}

#[test]
fn list_is_the_ordered_union_of_live_demo_and_known() {
    let inventories = vec![DeviceInventory {
        receiver: receiver(Some("UID1")),
        paired: vec![
            paired(2, None, Some(model("two", None))),
            paired(1, None, Some(model("one", None))),
        ],
    }];
    let asleep = mouse_identity("asleep");
    let stale = mouse_identity("stale");
    let known = [("zzz", &asleep), ("one", &stale)];
    let list = build_device_list(&inventories, &known, true, &by_slot);
    assert_eq!(keys(&list), vec!["one", "two", "demo-g513", "zzz"]);
    assert_eq!(list[0].display_name, "Slot 1");
    let plain = build_device_list(&inventories, &known, false, &by_slot);
    assert_eq!(keys(&plain), vec!["one", "two", "zzz"]);
}

#[test]
fn enumeration_order_does_not_matter() {
    let node = |uid: &str, slot: u8, key: &str| DeviceInventory {
        receiver: receiver(Some(uid)),
        paired: vec![
            paired(slot, None, Some(model(key, None))),
            paired(slot + 1, None, Some(model("next", None))),
        ],
    };
    let known_id = mouse_identity("known");
    let known = [("known", &known_id)];
    let one = build_device_list(
        &[node("U1", 1, "a"), node("U2", 4, "b")],
        &known,
        false,
        &by_slot,
    );
    let other = build_device_list(
        &[node("U2", 4, "b"), node("U1", 1, "a")],
        &known,
        false,
        &by_slot,
    );
    assert_eq!(format!("{one:?}"), format!("{other:?}"));
    assert_eq!(keys(&one), vec!["a", "next", "b", "next", "known"]);
}

#[test]
fn order_of_nodes_and_of_devices_does_not_matter() {
    let first = || paired(1, None, Some(model("a", None)));
    let second = || paired(2, None, Some(model("b", None)));
    let third = || paired(3, None, Some(model("c", None)));
    let node = |uid: &str, devices: Vec<PairedDevice>| DeviceInventory {
        receiver: receiver(Some(uid)),
        paired: devices,
    };
    let one = build_device_list(
        &[node("U1", vec![first(), third()]), node("U2", vec![second()])],
        &[],
        true,
        &by_slot,
    );
    let other = build_device_list(
        &[node("U2", vec![second()]), node("U1", vec![third(), first()])],
        &[],
        true,
        &by_slot,
    );
    assert_eq!(format!("{one:?}"), format!("{other:?}"));
    assert_eq!(keys(&one), vec!["a", "b", "c", "demo-g513"]);
}

#[test]
fn shared_keys_keep_the_key_sequence() {
    let node = |uid: &str, battery: u64| {
        let mut device = paired(1, None, Some(model("twin", None)));
        device.battery = Some(BatteryInfo { reading: battery });
        DeviceInventory {
            receiver: receiver(Some(uid)),
            paired: vec![device, paired(2, None, Some(model("b", None)))],
        }
    };
    let one = build_device_list(&[node("U1", 1), node("U2", 2)], &[], false, &by_slot);
    let other = build_device_list(&[node("U2", 2), node("U1", 1)], &[], false, &by_slot);
    assert_eq!(keys(&one), vec!["twin", "twin", "b", "b"]);
    assert_eq!(keys(&one), keys(&other));
    assert_eq!(one[0].battery, Some(BatteryInfo { reading: 1 }));
    assert_eq!(other[0].battery, Some(BatteryInfo { reading: 2 }));
}

#[test]
fn distinct_keys_stay_distinct() {
    let id = mouse_identity("x");
    let mut list = vec![online_record("A"), online_record("B")];
    append_offline_known(&mut list, &[("B", &id), ("C", &id), ("A", &id), ("D", &id)]);
    assert_eq!(keys(&list), vec!["A", "B", "C", "D"]);
}

#[test]
fn a_state_change_does_not_move_a_device() {
    let snapshot = |online: bool, battery: u64| {
        let mut changing = paired(2, None, Some(model("b", None)));
        changing.online = online;
        changing.battery = Some(BatteryInfo { reading: battery });
        changing.kind = if online { DeviceKind::Mouse } else { DeviceKind::Unknown };
        changing.capabilities = None;
        vec![DeviceInventory {
            receiver: receiver(Some("U1")),
            paired: vec![
                paired(3, None, Some(model("c", None))),
                changing,
                paired(1, None, Some(model("a", None))),
            ],
        }]
    };
    let awake = build_device_list(&snapshot(true, 90), &[], false, &by_slot);
    let asleep = build_device_list(&snapshot(false, 10), &[], false, &by_slot);
    assert_eq!(keys(&awake), vec!["a", "b", "c"]);
    assert_eq!(keys(&asleep), vec!["a", "b", "c"]);
    assert!(awake[1].online && !asleep[1].online);
}

#[test]
fn sorting_is_by_identity_then_key_then_name_and_stable() {
    let id = |bytes: &[u8]| DeviceStableId {
        key: bytes.to_vec(),
    };
    let mut list: Vec<DeviceRecord> = ["b", "a", "c", "a", "a"]
        .iter()
        .map(|k| online_record(k))
        .collect();
    list[1].display_name = "second".to_string();
    list[3].display_name = "first".to_string();
    list[4].display_name = "first".to_string();
    list[3].slot = 30;
    list[4].slot = 40;
    let ids = vec![id(&[1]), id(&[1]), id(&[0, 9]), id(&[1]), id(&[1])];
    sort_by_stable_ids(&mut list, &ids);
    let seen: Vec<(&str, &str, u8)> = list
        .iter()
        .map(|r| (r.config_key.as_str(), r.display_name.as_str(), r.slot))
        .collect();
    assert_eq!(
        seen,
        vec![
            ("c", "live c", 1),
            ("a", "first", 30),
            ("a", "first", 40),
            ("a", "second", 1),
            ("b", "live b", 1),
        ]
    );
}

#[test]
fn sorting_again_changes_nothing() {
    let mut list: Vec<DeviceRecord> = ["d", "b", "a", "c"].iter().map(|k| online_record(k)).collect();
    sort_device_list(&mut list, &by_slot);
    assert_eq!(keys(&list), vec!["a", "b", "c", "d"]);
    let before = format!("{list:?}");
    sort_device_list(&mut list, &by_slot);
    assert_eq!(format!("{list:?}"), before);
}

#[test]
fn order_key_has_three_parts() {
    let id = DeviceStableId { key: vec![4, 2] };
    let (first, second, third) = device_order_key(&online_record("k"), &id);
    assert_eq!(first, id);
    assert_eq!(second, "k");
    assert_eq!(third, "live k");
}

#[test]
fn lexicographic_order_matches_std() {
    let texts = ["", "a", "ab", "b", "Z", "é", "\u{ffff}", "\u{10000}", "aé"];
    for x in texts {
        for y in texts {
            let expected = if x < y {
                Precedence::Before
            } else if x == y {
                Precedence::Same
            } else {
                Precedence::After
            };
            assert_eq!(compare_text(x, y), expected);
            assert_eq!(
                compare_octets(&x.as_bytes().to_vec(), &y.as_bytes().to_vec()),
                expected
            );
        }
    }
}

#[test]
fn saved_device_is_picked_first() {
    let list = vec![online_record("A"), online_record("B"), online_record("B")];
    assert_eq!(pick_initial_device(&list, Some("B")), 1);
    assert_eq!(pick_initial_device(&list, Some("C")), 0);
    assert_eq!(pick_initial_device(&list, None), 0);
    assert_eq!(pick_initial_device(&[], Some("A")), 0);
}

#[test]
fn records_clone_field_by_field() {
    let record = online_record("A");
    assert_eq!(format!("{:?}", record.clone()), format!("{record:?}"));
}
