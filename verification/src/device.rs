//! The data that a HID++ probe, the asset registry and the saved configuration
//! hand to the device list, and the abstract values that contracts speak of.

use vstd::prelude::*;

verus! {

/// HID++ device index at which a directly attached device (USB cable or
/// Bluetooth) answers. Receiver-paired devices sit at their pairing slot.
pub const DIRECT_DEVICE_INDEX: u8 = 0xff;

/// What kind of peripheral a device is. Cosmetic: it picks an icon and a label.
#[derive(Debug, Clone, Copy, PartialEq, Eq, Structural)]
pub enum DeviceKind {
    /// No source could tell.
    Unknown,
    Mouse,
    Keyboard,
    /// Any further kind, by the code that the HID layer gives it.
    Other { code: u8 },
}

/// Configuration capabilities from a device's HID++ feature table.
#[derive(Debug, Clone, Copy, PartialEq, Eq, Structural)]
pub struct Capabilities {
    pub buttons: bool,
    pub pointer: bool,
    pub lighting: bool,
}

impl Default for Capabilities {
    /// No capability at all.
    fn default() -> (res: Self)
        ensures
            res == (Capabilities { buttons: false, pointer: false, lighting: false }),
    {
        Capabilities { buttons: false, pointer: false, lighting: false }
    }
}

/// A battery reading. The reading itself stays with the HID layer; the device
/// list only carries the handle under which it is kept.
#[derive(Debug, Clone, Copy, PartialEq, Eq, Structural)]
pub struct BatteryInfo {
    pub reading: u64,
}

/// What the asset registry knows about a model: its curated name, its kind, and
/// the handle under which the asset cache keeps the photo and its metadata.
#[derive(Debug, PartialEq, Eq)]
pub struct ResolvedAsset {
    pub display_name: String,
    pub kind: DeviceKind,
    pub image: u64,
}

impl Clone for ResolvedAsset {
    fn clone(&self) -> (res: Self)
        ensures
            res == *self,
    {
        ResolvedAsset {
            display_name: self.display_name.clone(),
            kind: self.kind,
            image: self.image,
        }
    }
}

/// How HID++ writes reach a device.
#[derive(Debug, PartialEq, Eq)]
pub enum DeviceRoute {
    /// Through a Bolt receiver, by its unique id and the pairing slot.
    Bolt { receiver_uid: String, slot: u8 },
    /// Straight to a HID node, by its vendor and product id.
    Direct { vendor_id: u16, product_id: u16 },
}

impl Clone for DeviceRoute {
    fn clone(&self) -> (res: Self)
        ensures
            res == *self,
    {
        match self {
            DeviceRoute::Bolt { receiver_uid, slot } => DeviceRoute::Bolt {
                receiver_uid: receiver_uid.clone(),
                slot: *slot,
            },
            DeviceRoute::Direct { vendor_id, product_id } => DeviceRoute::Direct {
                vendor_id: *vendor_id,
                product_id: *product_id,
            },
        }
    }
}

/// The HID node that an inventory was taken through: a receiver, or the device
/// itself when it is attached directly.
#[derive(Debug, PartialEq, Eq)]
pub struct ReceiverInfo {
    /// `None` for a direct attachment, or when a receiver's id could not be read.
    pub unique_id: Option<String>,
    pub vendor_id: u16,
    pub product_id: u16,
}

/// The identity of a probed model.
#[derive(Debug, PartialEq, Eq)]
pub struct ModelInfo {
    /// Key under which the configuration stores this model's bindings.
    pub config_key: String,
    pub serial_number: Option<String>,
    pub unit_id: [u8; 4],
    /// What the asset registry resolved for this model and its codename.
    pub asset: Option<ResolvedAsset>,
}

/// One device paired with (or attached as) the inventory's HID node.
#[derive(Debug, PartialEq, Eq)]
pub struct PairedDevice {
    pub slot: u8,
    pub codename: Option<String>,
    /// Kind by the HID++ sources.
    pub kind: DeviceKind,
    pub online: bool,
    pub battery: Option<BatteryInfo>,
    /// `None` until the device has answered a probe.
    pub model_info: Option<ModelInfo>,
    pub capabilities: Option<Capabilities>,
}

/// One HID node and the devices behind it.
#[derive(Debug, PartialEq, Eq)]
pub struct DeviceInventory {
    pub receiver: ReceiverInfo,
    pub paired: Vec<PairedDevice>,
}

/// What the configuration remembers of a device that was once seen online.
#[derive(Debug, PartialEq, Eq)]
pub struct DeviceIdentity {
    pub display_name: String,
    pub kind: DeviceKind,
    pub capabilities: Capabilities,
}

// ---------------------------------------------------------------------------
// Abstract values
// ---------------------------------------------------------------------------

impl DeepView for DeviceKind {
    type V = DeviceKind;

    open spec fn deep_view(&self) -> DeviceKind {
        *self
    }
}

impl DeepView for Capabilities {
    type V = Capabilities;

    open spec fn deep_view(&self) -> Capabilities {
        *self
    }
}

impl DeepView for BatteryInfo {
    type V = BatteryInfo;

    open spec fn deep_view(&self) -> BatteryInfo {
        *self
    }
}

pub struct ResolvedAssetView {
    pub display_name: Seq<char>,
    pub kind: DeviceKind,
    pub image: u64,
}

impl DeepView for ResolvedAsset {
    type V = ResolvedAssetView;

    open spec fn deep_view(&self) -> ResolvedAssetView {
        ResolvedAssetView {
            display_name: self.display_name@,
            kind: self.kind,
            image: self.image,
        }
    }
}

pub enum DeviceRouteView {
    Bolt { receiver_uid: Seq<char>, slot: u8 },
    Direct { vendor_id: u16, product_id: u16 },
}

impl DeepView for DeviceRoute {
    type V = DeviceRouteView;

    open spec fn deep_view(&self) -> DeviceRouteView {
        match self {
            DeviceRoute::Bolt { receiver_uid, slot } => DeviceRouteView::Bolt {
                receiver_uid: receiver_uid@,
                slot: *slot,
            },
            DeviceRoute::Direct { vendor_id, product_id } => DeviceRouteView::Direct {
                vendor_id: *vendor_id,
                product_id: *product_id,
            },
        }
    }
}

pub struct ReceiverInfoView {
    pub unique_id: Option<Seq<char>>,
    pub vendor_id: u16,
    pub product_id: u16,
}

impl DeepView for ReceiverInfo {
    type V = ReceiverInfoView;

    open spec fn deep_view(&self) -> ReceiverInfoView {
        ReceiverInfoView {
            unique_id: self.unique_id.deep_view(),
            vendor_id: self.vendor_id,
            product_id: self.product_id,
        }
    }
}

pub struct ModelInfoView {
    pub config_key: Seq<char>,
    pub serial_number: Option<Seq<char>>,
    pub unit_id: Seq<u8>,
    pub asset: Option<ResolvedAssetView>,
}

impl DeepView for ModelInfo {
    type V = ModelInfoView;

    open spec fn deep_view(&self) -> ModelInfoView {
        ModelInfoView {
            config_key: self.config_key@,
            serial_number: self.serial_number.deep_view(),
            unit_id: self.unit_id@,
            asset: self.asset.deep_view(),
        }
    }
}

pub struct PairedDeviceView {
    pub slot: u8,
    pub codename: Option<Seq<char>>,
    pub kind: DeviceKind,
    pub online: bool,
    pub battery: Option<BatteryInfo>,
    pub model_info: Option<ModelInfoView>,
    pub capabilities: Option<Capabilities>,
}

impl DeepView for PairedDevice {
    type V = PairedDeviceView;

    open spec fn deep_view(&self) -> PairedDeviceView {
        PairedDeviceView {
            slot: self.slot,
            codename: self.codename.deep_view(),
            kind: self.kind,
            online: self.online,
            battery: self.battery,
            model_info: self.model_info.deep_view(),
            capabilities: self.capabilities,
        }
    }
}

pub struct DeviceInventoryView {
    pub receiver: ReceiverInfoView,
    pub paired: Seq<PairedDeviceView>,
}

impl DeepView for DeviceInventory {
    type V = DeviceInventoryView;

    open spec fn deep_view(&self) -> DeviceInventoryView {
        DeviceInventoryView {
            receiver: self.receiver.deep_view(),
            paired: self.paired.deep_view(),
        }
    }
}

pub struct DeviceIdentityView {
    pub display_name: Seq<char>,
    pub kind: DeviceKind,
    pub capabilities: Capabilities,
}

impl DeepView for DeviceIdentity {
    type V = DeviceIdentityView;

    open spec fn deep_view(&self) -> DeviceIdentityView {
        DeviceIdentityView {
            display_name: self.display_name@,
            kind: self.kind,
            capabilities: self.capabilities,
        }
    }
}

/// The abstract value of an asset or a route is the thing itself, field by field.
pub proof fn lemma_asset_and_route_views_are_faithful(asset: ResolvedAsset, route: DeviceRoute)
    ensures
        asset.deep_view().display_name == asset.display_name@,
        asset.deep_view().kind == asset.kind,
        asset.deep_view().image == asset.image,
        route is Bolt ==> {
            &&& route.deep_view() is Bolt
            &&& route.deep_view()->receiver_uid == route->receiver_uid@
            &&& route.deep_view()->slot == route->slot
        },
        route is Direct ==> {
            &&& route.deep_view() is Direct
            &&& route.deep_view()->vendor_id == route->vendor_id
            &&& route.deep_view()->product_id == route->product_id
        },
{
}

/// The abstract value of a model is the model, field by field.
pub proof fn lemma_model_view_is_faithful(model: ModelInfo)
    ensures
        model.deep_view().config_key == model.config_key@,
        model.deep_view().serial_number is Some <==> model.serial_number is Some,
        model.serial_number is Some ==> model.deep_view().serial_number->0
            == model.serial_number->0@,
        model.deep_view().unit_id == model.unit_id@,
        model.deep_view().asset is Some <==> model.asset is Some,
        model.asset is Some ==> model.deep_view().asset->0 == model.asset->0.deep_view(),
{
}

/// The abstract value of a paired device is the device, field by field.
pub proof fn lemma_device_view_is_faithful(device: PairedDevice)
    ensures
        device.deep_view().slot == device.slot,
        device.deep_view().codename is Some <==> device.codename is Some,
        device.codename is Some ==> device.deep_view().codename->0 == device.codename->0@,
        device.deep_view().kind == device.kind,
        device.deep_view().online == device.online,
        device.deep_view().battery == device.battery,
        device.deep_view().model_info is Some <==> device.model_info is Some,
        device.model_info is Some ==> device.deep_view().model_info->0
            == device.model_info->0.deep_view(),
        device.deep_view().capabilities == device.capabilities,
{
}

/// The abstract value of an inventory is its node and its devices, one for one and in
/// the same order.
pub proof fn lemma_inventory_view_is_faithful(inventory: DeviceInventory)
    ensures
        inventory.deep_view().receiver.unique_id is Some
            <==> inventory.receiver.unique_id is Some,
        inventory.receiver.unique_id is Some ==> inventory.deep_view().receiver.unique_id->0
            == inventory.receiver.unique_id->0@,
        inventory.deep_view().receiver.vendor_id == inventory.receiver.vendor_id,
        inventory.deep_view().receiver.product_id == inventory.receiver.product_id,
        inventory.deep_view().paired.len() == inventory.paired@.len(),
        forall|j: int|
            0 <= j < inventory.paired@.len() ==> #[trigger] inventory.deep_view().paired[j]
                == inventory.paired@[j].deep_view(),
{
}

/// The abstract value of a remembered identity is the identity, field by field.
pub proof fn lemma_identity_view_is_faithful(identity: DeviceIdentity)
    ensures
        identity.deep_view().display_name == identity.display_name@,
        identity.deep_view().kind == identity.kind,
        identity.deep_view().capabilities == identity.capabilities,
{
}

} // verus!
