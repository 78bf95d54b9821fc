//! One entry of the device list, and the ways it comes about: from a live probe,
//! from a remembered identity, or as the demo keyboard.

use vstd::prelude::*;

use crate::codename::{lemma_mixed_case_codename_is_unchanged, prettified, prettify_codename};
use crate::device::{
    BatteryInfo, Capabilities, DeviceIdentity, DeviceIdentityView, DeviceInventory,
    DeviceKind, DeviceRoute, DeviceRouteView, PairedDevice, PairedDeviceView,
    ReceiverInfoView, ResolvedAsset, ResolvedAssetView, DIRECT_DEVICE_INDEX,
};
use crate::text::{
    append_decimal, decimal, has_lowercase_property, lemma_decimal_digits,
    lemma_decimal_reads_back,
};

verus! {

/// One paired device with everything the UI needs to switch to it: the config
/// key (for bindings and DPI persistence), a display name, the resolved asset
/// (`None` for the synthetic fallback), and the route that HID++ writes take.
///
/// `kind`, `slot`, `online` and `battery` mirror the probed device, so that the
/// carousel can render straight from the list.
#[derive(Debug)]
pub struct DeviceRecord {
    pub config_key: String,
    pub display_name: String,
    pub asset: Option<ResolvedAsset>,
    pub serial_number: Option<String>,
    pub unit_id: [u8; 4],
    pub route: Option<DeviceRoute>,
    pub kind: DeviceKind,
    /// Capabilities from the device's HID++ feature table. `None` only for a
    /// device that was never probed.
    pub capabilities: Option<Capabilities>,
    pub slot: u8,
    pub online: bool,
    pub battery: Option<BatteryInfo>,
}

impl Clone for DeviceRecord {
    fn clone(&self) -> (res: Self)
        ensures
            res == *self,
    {
        DeviceRecord {
            config_key: self.config_key.clone(),
            display_name: self.display_name.clone(),
            asset: match &self.asset {
                Some(asset) => Some(asset.clone()),
                None => None,
            },
            serial_number: copy_text(&self.serial_number),
            unit_id: self.unit_id,
            route: match &self.route {
                Some(route) => Some(route.clone()),
                None => None,
            },
            kind: self.kind,
            capabilities: self.capabilities,
            slot: self.slot,
            online: self.online,
            battery: self.battery,
        }
    }
}

/// The abstract value of a [`DeviceRecord`].
#[verifier::ext_equal]
pub struct DeviceRecordView {
    pub config_key: Seq<char>,
    pub display_name: Seq<char>,
    pub asset: Option<ResolvedAssetView>,
    pub serial_number: Option<Seq<char>>,
    pub unit_id: Seq<u8>,
    pub route: Option<DeviceRouteView>,
    pub kind: DeviceKind,
    pub capabilities: Option<Capabilities>,
    pub slot: u8,
    pub online: bool,
    pub battery: Option<BatteryInfo>,
}

impl DeepView for DeviceRecord {
    type V = DeviceRecordView;

    open spec fn deep_view(&self) -> DeviceRecordView {
        DeviceRecordView {
            config_key: self.config_key@,
            display_name: self.display_name@,
            asset: self.asset.deep_view(),
            serial_number: self.serial_number.deep_view(),
            unit_id: self.unit_id@,
            route: self.route.deep_view(),
            kind: self.kind,
            capabilities: self.capabilities,
            slot: self.slot,
            online: self.online,
            battery: self.battery,
        }
    }
}

/// The unit id of a record that no probe stands behind.
pub open spec fn no_unit_id() -> Seq<u8> {
    seq![0u8, 0u8, 0u8, 0u8]
}

fn copy_text(text: &Option<String>) -> (res: Option<String>)
    ensures
        res == *text,
{
    match text {
        Some(s) => Some(s.clone()),
        None => None,
    }
}

// ---------------------------------------------------------------------------
// Route
// ---------------------------------------------------------------------------

/// The route to the device at `slot` behind the HID node `receiver`.
pub open spec fn route_of(receiver: ReceiverInfoView, slot: u8) -> Option<DeviceRouteView> {
    match receiver.unique_id {
        Some(uid) => Some(DeviceRouteView::Bolt { receiver_uid: uid, slot }),
        None => if slot == DIRECT_DEVICE_INDEX {
            Some(
                DeviceRouteView::Direct {
                    vendor_id: receiver.vendor_id,
                    product_id: receiver.product_id,
                },
            )
        } else {
            None
        },
    }
}

/// Builds the route that HID++ writes use to reach a device.
///
/// A Bolt-paired device routes through its receiver's id and its slot. A directly
/// attached one has no receiver id, sits at [`DIRECT_DEVICE_INDEX`] and routes by
/// the node's vendor and product id. A Bolt device whose receiver id could not be
/// read gets no route, so that writes are skipped rather than sent to the
/// receiver's own product id.
pub fn device_route(inv: &DeviceInventory, slot: u8) -> (res: Option<DeviceRoute>)
    ensures
        res.deep_view() == route_of(inv.receiver.deep_view(), slot),
        inv.receiver.unique_id is Some ==> {
            &&& res is Some
            &&& res->0 is Bolt
            &&& res->0->receiver_uid@ == inv.receiver.unique_id->0@
            &&& res->0->slot == slot
        },
        inv.receiver.unique_id is None && slot == 0xff ==> {
            &&& res is Some
            &&& res->0 is Direct
            &&& res->0->vendor_id == inv.receiver.vendor_id
            &&& res->0->product_id == inv.receiver.product_id
        },
        inv.receiver.unique_id is None && slot != 0xff ==> res is None,
{
    match &inv.receiver.unique_id {
        Some(receiver_uid) => Some(
            DeviceRoute::Bolt { receiver_uid: receiver_uid.clone(), slot },
        ),
        None => if slot == DIRECT_DEVICE_INDEX {
            Some(
                DeviceRoute::Direct {
                    vendor_id: inv.receiver.vendor_id,
                    product_id: inv.receiver.product_id,
                },
            )
        } else {
            None
        },
    }
}

/// Whatever is paired with a receiver of known id is reached through that very id
/// at its very own slot: the route names both, for every slot.
pub proof fn lemma_bolt_route_names_receiver_and_slot(receiver: ReceiverInfoView, slot: u8)
    requires
        receiver.unique_id is Some,
    ensures
        route_of(receiver, slot) is Some,
        route_of(receiver, slot)->0 is Bolt,
        route_of(receiver, slot)->0->receiver_uid == receiver.unique_id->0,
        route_of(receiver, slot)->0->slot == slot,
{
}

/// Two devices behind receivers of known ids share a route only if they sit at the
/// same slot of the same receiver: a write never reaches the neighbour.
pub proof fn lemma_bolt_routes_are_not_shared(
    one: ReceiverInfoView,
    slot: u8,
    other: ReceiverInfoView,
    other_slot: u8,
)
    requires
        one.unique_id is Some,
        other.unique_id is Some,
        route_of(one, slot) == route_of(other, other_slot),
    ensures
        slot == other_slot,
        one.unique_id == other.unique_id,
{
}

/// Behind a node without an id, only the directly attached device has a route, and
/// it is the node's own vendor and product id. A slot of a receiver whose id could
/// not be read has none.
pub proof fn lemma_unnamed_node_routes_only_itself(receiver: ReceiverInfoView, slot: u8)
    requires
        receiver.unique_id is None,
    ensures
        route_of(receiver, slot) is Some <==> slot == 0xff,
        slot == 0xff ==> {
            &&& route_of(receiver, slot)->0 is Direct
            &&& route_of(receiver, slot)->0->vendor_id == receiver.vendor_id
            &&& route_of(receiver, slot)->0->product_id == receiver.product_id
        },
{
}

// ---------------------------------------------------------------------------
// Kind
// ---------------------------------------------------------------------------

/// The registry's kind where it has one, else the kind by the HID++ sources.
pub open spec fn preferred_kind(hid_kind: DeviceKind, asset_kind: Option<DeviceKind>) -> DeviceKind {
    match asset_kind {
        Some(kind) => if kind == DeviceKind::Unknown {
            hid_kind
        } else {
            kind
        },
        None => hid_kind,
    }
}

/// Last step of the precedence chain for a device's kind: asset registry, then
/// the HID++ sources that `hid_kind` already stands for.
///
/// The registry wins because it is kept per model by people, while a pairing
/// register can misreport. `hid_kind` is used when there is no asset, or when the
/// registry has no kind for it.
pub fn effective_kind(hid_kind: DeviceKind, asset_kind: Option<DeviceKind>) -> (res: DeviceKind)
    ensures
        res == preferred_kind(hid_kind, asset_kind),
        asset_kind is Some && asset_kind->0 != DeviceKind::Unknown ==> res == asset_kind->0,
        asset_kind is None || asset_kind->0 == DeviceKind::Unknown ==> res == hid_kind,
{
    match asset_kind {
        Some(kind) => if kind == DeviceKind::Unknown {
            hid_kind
        } else {
            kind
        },
        None => hid_kind,
    }
}

/// Whether both sources know the kind of a device and name different ones.
pub open spec fn kinds_disagree(hid_kind: DeviceKind, asset_kind: Option<DeviceKind>) -> bool {
    &&& asset_kind is Some
    &&& asset_kind->0 != DeviceKind::Unknown
    &&& hid_kind != DeviceKind::Unknown
    &&& hid_kind != asset_kind->0
}

/// Whether the HID++ sources genuinely disagree with the asset registry. Worth a
/// debug message: it flags a HID++ source that should not be trusted for this
/// device.
pub fn kind_disagrees(hid_kind: DeviceKind, asset_kind: Option<DeviceKind>) -> (res: bool)
    ensures
        res == kinds_disagree(hid_kind, asset_kind),
        asset_kind is None ==> !res,
        asset_kind is Some ==> (res <==> hid_kind != asset_kind->0 && hid_kind
            != DeviceKind::Unknown && asset_kind->0 != DeviceKind::Unknown),
{
    match asset_kind {
        Some(kind) => kind != DeviceKind::Unknown && hid_kind != DeviceKind::Unknown && hid_kind
            != kind,
        None => false,
    }
}

/// A disagreement is settled for the registry; where there is none, the kind that
/// is shown is the one that the HID++ sources gave, if they gave any.
pub proof fn lemma_registry_settles_disagreement(
    hid_kind: DeviceKind,
    asset_kind: Option<DeviceKind>,
)
    ensures
        kinds_disagree(hid_kind, asset_kind) ==> preferred_kind(hid_kind, asset_kind)
            == asset_kind->0,
        hid_kind != DeviceKind::Unknown ==> (kinds_disagree(hid_kind, asset_kind)
            <==> preferred_kind(hid_kind, asset_kind) != hid_kind),
{
}

/// A kind that the registry knows is the kind that is shown, whatever the HID++
/// sources say. A registry that is silent, or does not know, changes nothing.
pub proof fn lemma_known_registry_kind_is_shown(hid_kind: DeviceKind, other_kind: DeviceKind)
    ensures
        other_kind != DeviceKind::Unknown ==> preferred_kind(hid_kind, Some(other_kind))
            == other_kind,
        preferred_kind(hid_kind, Some(DeviceKind::Unknown)) == hid_kind,
        preferred_kind(hid_kind, None) == hid_kind,
{
}

/// Two sources disagree exactly when each names a kind of its own: which source
/// names which makes no difference, and a source that does not know, or is not
/// there, disagrees with nobody.
pub proof fn lemma_disagreement_takes_two_known_kinds(one: DeviceKind, other: DeviceKind)
    ensures
        kinds_disagree(one, Some(other)) == kinds_disagree(other, Some(one)),
        !kinds_disagree(one, None),
        !kinds_disagree(one, Some(one)),
        !kinds_disagree(one, Some(DeviceKind::Unknown)),
        !kinds_disagree(DeviceKind::Unknown, Some(other)),
        one != other && one != DeviceKind::Unknown && other != DeviceKind::Unknown
            ==> kinds_disagree(one, Some(other)),
{
}

// ---------------------------------------------------------------------------
// Records
// ---------------------------------------------------------------------------

/// The placeholder name of a device that has neither an asset nor a codename.
pub open spec fn slot_label(slot: u8) -> Seq<char> {
    "Slot "@ + decimal(slot as nat)
}

/// The name a probed device is shown under: the asset's curated name, else the
/// tidied codename, else the slot.
pub open spec fn display_name_of(
    asset: Option<ResolvedAssetView>,
    codename: Option<Seq<char>>,
    slot: u8,
) -> Seq<char> {
    match (asset, codename) {
        (Some(asset), _) => asset.display_name,
        (None, Some(codename)) => prettified(codename),
        (None, None) => slot_label(slot),
    }
}

/// Names a probed device.
pub fn live_display_name(
    asset: &Option<ResolvedAsset>,
    codename: &Option<String>,
    slot: u8,
) -> (res: String)
    ensures
        res@ == display_name_of(asset.deep_view(), codename.deep_view(), slot),
        asset is Some ==> res@ == asset->0.display_name@,
        asset is None && codename is Some ==> res@ == prettified(codename->0@),
        asset is None && codename is None ==> res@ == "Slot "@ + decimal(slot as nat),
{
    match asset {
        Some(asset) => asset.display_name.clone(),
        None => match codename {
            Some(codename) => prettify_codename(codename.as_str()),
            None => {
                let mut label = "Slot ".to_owned();
                append_decimal(&mut label, slot);
                label
            },
        },
    }
}

/// Where the registry has an asset, its curated name is the name that is shown,
/// whatever codename the device reports, or none, and whatever slot it sits at.
pub proof fn lemma_curated_name_is_shown(
    asset: ResolvedAssetView,
    codename: Option<Seq<char>>,
    slot: u8,
)
    ensures
        display_name_of(Some(asset), codename, slot) == asset.display_name,
{
}

/// Without an asset the tidied codename is shown, at whatever slot; a codename that
/// has a lowercase letter is shown letter by letter as it was reported.
pub proof fn lemma_codename_is_shown_without_asset(codename: Seq<char>, slot: u8)
    ensures
        display_name_of(None, Some(codename), slot) == prettified(codename),
        (exists|i: int| 0 <= i < codename.len() && has_lowercase_property(#[trigger] codename[i]))
            ==> display_name_of(None, Some(codename), slot) == codename,
{
    if exists|i: int| 0 <= i < codename.len() && has_lowercase_property(#[trigger] codename[i]) {
        let i = choose|i: int|
            0 <= i < codename.len() && has_lowercase_property(#[trigger] codename[i]);
        lemma_mixed_case_codename_is_unchanged(codename, i);
    }
}

/// With neither, the name spells out the slot in decimal digits behind `"Slot "`,
/// without a leading zero, so that two slots never get the same name.
pub proof fn lemma_slot_is_spelled_out(slot: u8, other: u8)
    ensures
        slot < 10 ==> display_name_of(None, None, slot) == seq![
            'S',
            'l',
            'o',
            't',
            ' ',
            (48 + slot) as char,
        ],
        10 <= slot < 100 ==> display_name_of(None, None, slot) == seq![
            'S',
            'l',
            'o',
            't',
            ' ',
            (48 + slot / 10) as char,
            (48 + slot % 10) as char,
        ],
        100 <= slot ==> display_name_of(None, None, slot) == seq![
            'S',
            'l',
            'o',
            't',
            ' ',
            (48 + slot / 100) as char,
            (48 + slot / 10 % 10) as char,
            (48 + slot % 10) as char,
        ],
        slot != other ==> display_name_of(None, None, slot) != display_name_of(None, None, other),
{
    reveal_strlit("Slot ");
    lemma_decimal_digits(slot as nat);
    lemma_decimal_digits(other as nat);
    let prefix = "Slot "@;
    if slot != other && display_name_of(None, None, slot) == display_name_of(None, None, other) {
        let one = decimal(slot as nat);
        let two = decimal(other as nat);
        assert((prefix + one).skip(5) =~= one);
        assert((prefix + two).skip(5) =~= two);
        lemma_decimal_reads_back(slot as nat);
        lemma_decimal_reads_back(other as nat);
    }
}

/// The record of a device that a probe found behind `receiver`; none for a
/// device whose model is not known.
pub open spec fn live_record_of(
    receiver: ReceiverInfoView,
    paired: PairedDeviceView,
) -> Option<DeviceRecordView> {
    match paired.model_info {
        Some(model) => Some(
            DeviceRecordView {
                config_key: model.config_key,
                display_name: display_name_of(model.asset, paired.codename, paired.slot),
                asset: model.asset,
                serial_number: model.serial_number,
                unit_id: model.unit_id,
                route: route_of(receiver, paired.slot),
                kind: preferred_kind(
                    paired.kind,
                    match model.asset {
                        Some(asset) => Some(asset.kind),
                        None => None,
                    },
                ),
                capabilities: paired.capabilities,
                slot: paired.slot,
                online: paired.online,
                battery: paired.battery,
            },
        ),
        None => None,
    }
}

/// Turns a probed device into a record.
pub fn live_record(inv: &DeviceInventory, paired: &PairedDevice) -> (res: Option<DeviceRecord>)
    ensures
        res.deep_view() == live_record_of(inv.receiver.deep_view(), paired.deep_view()),
        res is Some <==> paired.model_info is Some,
        res is Some ==> {
            &&& res->0.config_key@ == paired.model_info->0.config_key@
            &&& res->0.serial_number == paired.model_info->0.serial_number
            &&& res->0.unit_id@ == paired.model_info->0.unit_id@
            &&& res->0.asset == paired.model_info->0.asset
            &&& res->0.capabilities == paired.capabilities
            &&& res->0.slot == paired.slot
            &&& res->0.online == paired.online
            &&& res->0.battery == paired.battery
        },
        res is Some && inv.receiver.unique_id is Some ==> {
            &&& res->0.route is Some
            &&& res->0.route->0 is Bolt
            &&& res->0.route->0->receiver_uid@ == inv.receiver.unique_id->0@
            &&& res->0.route->0->slot == paired.slot
        },
        res is Some && inv.receiver.unique_id is None && paired.slot == 0xff ==> {
            &&& res->0.route is Some
            &&& res->0.route->0 is Direct
            &&& res->0.route->0->vendor_id == inv.receiver.vendor_id
            &&& res->0.route->0->product_id == inv.receiver.product_id
        },
        res is Some && inv.receiver.unique_id is None && paired.slot != 0xff
            ==> res->0.route is None,
        res is Some && paired.model_info->0.asset is Some ==> {
            let asset = paired.model_info->0.asset->0;
            &&& res->0.display_name@ == asset.display_name@
            &&& asset.kind != DeviceKind::Unknown ==> res->0.kind == asset.kind
            &&& asset.kind == DeviceKind::Unknown ==> res->0.kind == paired.kind
        },
        res is Some && paired.model_info->0.asset is None ==> {
            &&& res->0.kind == paired.kind
            &&& paired.codename is Some ==> res->0.display_name@ == prettified(
                paired.codename->0@,
            )
            &&& paired.codename is None ==> res->0.display_name@ == "Slot "@ + decimal(
                paired.slot as nat,
            )
        },
{
    match &paired.model_info {
        None => None,
        Some(model) => {
            let asset = match &model.asset {
                Some(asset) => Some(asset.clone()),
                None => None,
            };
            let asset_kind = match &asset {
                Some(asset) => Some(asset.kind),
                None => None,
            };
            Some(
                DeviceRecord {
                    config_key: model.config_key.clone(),
                    display_name: live_display_name(&asset, &paired.codename, paired.slot),
                    asset,
                    serial_number: copy_text(&model.serial_number),
                    unit_id: model.unit_id,
                    route: device_route(inv, paired.slot),
                    kind: effective_kind(paired.kind, asset_kind),
                    capabilities: paired.capabilities,
                    slot: paired.slot,
                    online: paired.online,
                    battery: paired.battery,
                },
            )
        },
    }
}

/// A record mirrors its probe: what the device reported of itself (capabilities,
/// slot, whether it is awake, battery) and what its model says (key, serial number,
/// unit id, asset) stand in it as they were found, asleep or awake.
pub proof fn lemma_live_record_mirrors_probe(receiver: ReceiverInfoView, paired: PairedDeviceView)
    ensures
        live_record_of(receiver, paired) is Some <==> paired.model_info is Some,
        live_record_of(receiver, paired) is Some ==> {
            let record = live_record_of(receiver, paired)->0;
            let model = paired.model_info->0;
            &&& record.config_key == model.config_key
            &&& record.serial_number == model.serial_number
            &&& record.unit_id == model.unit_id
            &&& record.asset == model.asset
            &&& record.capabilities == paired.capabilities
            &&& record.slot == paired.slot
            &&& record.online == paired.online
            &&& record.battery == paired.battery
        },
{
}

/// What a record shows and where its writes go: name and kind are the registry's
/// where it knows them and the device's own otherwise, and the route names the node
/// that the device was found behind and the slot it was found at.
pub proof fn lemma_live_record_is_named_and_routed(
    receiver: ReceiverInfoView,
    paired: PairedDeviceView,
)
    requires
        paired.model_info is Some,
    ensures
        ({
            let record = live_record_of(receiver, paired)->0;
            let asset = paired.model_info->0.asset;
            &&& asset is Some ==> record.display_name == asset->0.display_name
            &&& asset is None && paired.codename is Some ==> record.display_name == prettified(
                paired.codename->0,
            )
            &&& asset is None && paired.codename is None ==> record.display_name == "Slot "@
                + decimal(paired.slot as nat)
            &&& asset is Some && asset->0.kind != DeviceKind::Unknown ==> record.kind
                == asset->0.kind
            &&& asset is None || asset->0.kind == DeviceKind::Unknown ==> record.kind
                == paired.kind
            &&& receiver.unique_id is Some ==> record.route is Some && record.route->0 is Bolt
                && record.route->0->receiver_uid == receiver.unique_id->0
                && record.route->0->slot == paired.slot
            &&& receiver.unique_id is None && paired.slot == 0xff ==> record.route is Some
                && record.route->0 is Direct && record.route->0->vendor_id == receiver.vendor_id
                && record.route->0->product_id == receiver.product_id
            &&& receiver.unique_id is None && paired.slot != 0xff ==> record.route is None
        }),
{
}

/// The offline placeholder of a remembered device.
pub open spec fn placeholder(
    config_key: Seq<char>,
    identity: DeviceIdentityView,
) -> DeviceRecordView {
    DeviceRecordView {
        config_key,
        display_name: identity.display_name,
        asset: None,
        serial_number: None,
        unit_id: no_unit_id(),
        route: None,
        kind: identity.kind,
        capabilities: Some(identity.capabilities),
        slot: 0,
        online: false,
        battery: None,
    }
}

/// Makes an offline placeholder from a remembered identity.
///
/// Without a route every hardware write is a no-op until the device wakes; with
/// the remembered capabilities its configuration panels stay visible while it
/// sleeps.
pub fn offline_record(config_key: &str, identity: &DeviceIdentity) -> (res: DeviceRecord)
    ensures
        res.deep_view() == placeholder(config_key@, identity.deep_view()),
        res.config_key@ == config_key@,
        res.display_name@ == identity.display_name@,
        res.kind == identity.kind,
        res.capabilities == Some(identity.capabilities),
        !res.online,
        res.route is None,
        res.asset is None,
        res.serial_number is None,
        res.battery is None,
        res.slot == 0,
        res.unit_id@ == seq![0u8, 0u8, 0u8, 0u8],
{
    let res = DeviceRecord {
        config_key: config_key.to_owned(),
        display_name: identity.display_name.clone(),
        asset: None,
        serial_number: None,
        unit_id: [0, 0, 0, 0],
        route: None,
        kind: identity.kind,
        capabilities: Some(identity.capabilities),
        slot: 0,
        online: false,
        battery: None,
    };
    assert(res.unit_id@ =~= no_unit_id());
    res
}

/// A placeholder is what was remembered, field by field, and nothing else: the very
/// capabilities (so the same panels stay visible), kind and name, under the same
/// key; nothing that only a live probe could tell.
pub proof fn lemma_placeholder_carries_what_was_remembered(
    config_key: Seq<char>,
    identity: DeviceIdentityView,
)
    ensures
        placeholder(config_key, identity).config_key == config_key,
        placeholder(config_key, identity).display_name == identity.display_name,
        placeholder(config_key, identity).kind == identity.kind,
        placeholder(config_key, identity).capabilities == Some(identity.capabilities),
        !placeholder(config_key, identity).online,
        placeholder(config_key, identity).route is None,
        placeholder(config_key, identity).asset is None,
        placeholder(config_key, identity).serial_number is None,
        placeholder(config_key, identity).battery is None,
        placeholder(config_key, identity).slot == 0,
        placeholder(config_key, identity).unit_id == seq![0u8, 0u8, 0u8, 0u8],
{
}

/// The abstract value of the demo keyboard.
pub open spec fn demo_record() -> DeviceRecordView {
    DeviceRecordView {
        config_key: "demo-g513"@,
        display_name: "Logitech G513"@,
        asset: None,
        serial_number: None,
        unit_id: no_unit_id(),
        route: None,
        kind: DeviceKind::Keyboard,
        capabilities: Some(Capabilities { buttons: false, pointer: false, lighting: true }),
        slot: 0,
        online: true,
        battery: None,
    }
}

/// A synthetic keyboard, so that the keyboard panel and the lighting controls
/// can be shown without the hardware. It has no route: every write is a no-op.
pub fn demo_keyboard() -> (res: DeviceRecord)
    ensures
        res.deep_view() == demo_record(),
        res.config_key@ == "demo-g513"@,
        res.display_name@ == "Logitech G513"@,
        res.kind == DeviceKind::Keyboard,
        res.capabilities is Some,
        res.capabilities->0.lighting,
        !res.capabilities->0.buttons,
        !res.capabilities->0.pointer,
        res.online,
        res.route is None,
        res.asset is None,
        res.serial_number is None,
        res.battery is None,
        res.slot == 0,
        res.unit_id@ == seq![0u8, 0u8, 0u8, 0u8],
{
    let res = DeviceRecord {
        config_key: "demo-g513".to_owned(),
        display_name: "Logitech G513".to_owned(),
        asset: None,
        serial_number: None,
        unit_id: [0, 0, 0, 0],
        route: None,
        kind: DeviceKind::Keyboard,
        capabilities: Some(Capabilities { lighting: true, ..Capabilities::default() }),
        slot: 0,
        online: true,
        battery: None,
    };
    assert(res.unit_id@ =~= no_unit_id());
    res
}

/// The demo keyboard has exactly the one capability that it is there to show, looks
/// awake, and cannot be written to.
pub proof fn lemma_demo_keyboard_shows_lighting()
    ensures
        demo_record().config_key == "demo-g513"@,
        demo_record().display_name == "Logitech G513"@,
        demo_record().kind == DeviceKind::Keyboard,
        demo_record().capabilities is Some,
        demo_record().capabilities->0.lighting,
        !demo_record().capabilities->0.buttons,
        !demo_record().capabilities->0.pointer,
        demo_record().online,
        demo_record().route is None,
        demo_record().asset is None,
        demo_record().serial_number is None,
        demo_record().battery is None,
        demo_record().slot == 0,
        demo_record().unit_id == seq![0u8, 0u8, 0u8, 0u8],
{
}

/// The abstract value of a record is the record, field by field.
pub proof fn lemma_record_view_is_faithful(record: DeviceRecord)
    ensures
        record.deep_view().config_key == record.config_key@,
        record.deep_view().display_name == record.display_name@,
        record.deep_view().asset is Some <==> record.asset is Some,
        record.asset is Some ==> record.deep_view().asset->0 == record.asset->0.deep_view(),
        record.deep_view().serial_number is Some <==> record.serial_number is Some,
        record.serial_number is Some ==> record.deep_view().serial_number->0
            == record.serial_number->0@,
        record.deep_view().unit_id == record.unit_id@,
        record.deep_view().route is Some <==> record.route is Some,
        record.route is Some ==> record.deep_view().route->0 == record.route->0.deep_view(),
        record.deep_view().kind == record.kind,
        record.deep_view().capabilities == record.capabilities,
        record.deep_view().slot == record.slot,
        record.deep_view().online == record.online,
        record.deep_view().battery == record.battery,
{
}

} // verus!
