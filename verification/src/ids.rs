//! Identifier newtypes used as primary keys in the inventory store.
//!
//! Every persisted record is keyed by a unique string identifier within its
//! kind (extension, device manufacturer, device category, device). Each kind
//! gets its own newtype so that identifiers of different kinds cannot be
//! confused, and a common trait gives access to the raw identifier and to its
//! namespaced form `<table>:<id>`.

use vstd::prelude::*;
use vstd::string::StringExecFns;

verus! {

/// A unique string identifier, viewed in specifications as its character
/// sequence. Identifiers of one kind name records of one table.
pub trait UniqueID: Sized + View<V = Seq<char>> {
    /// The name of the table whose records this kind of identifier names.
    spec fn table_name_spec() -> Seq<char>;

    fn table_name() -> (r: String)
        ensures
            r@ == Self::table_name_spec(),
    ;

    fn new(id: String) -> (r: Self)
        ensures
            r@ == id@,
    ;

    fn unnamespaced(&self) -> (r: &str)
        ensures
            r@ == self@,
    ;

    /// The identifier prefixed with its table name, as used by the store.
    fn namespaced(&self) -> (r: String)
        ensures
            r@ == Self::table_name_spec() + ":"@ + self@,
    {
        let mut out = Self::table_name();
        out.append(":");
        out.append(self.unnamespaced());
        out
    }
}

/// An unnamespaced unique extension ID.
#[derive(Debug)]
pub struct InventoryExtensionUniqueID(String);

/// An unnamespaced unique device manufacturer ID.
#[derive(Debug)]
pub struct DeviceManufacturerUniqueID(String);

/// An unnamespaced unique device category ID.
#[derive(Debug)]
pub struct DeviceCategoryUniqueID(String);

/// An unnamespaced unique device ID.
#[derive(Debug)]
pub struct DeviceUniqueID(String);

impl View for InventoryExtensionUniqueID {
    type V = Seq<char>;

    closed spec fn view(&self) -> Seq<char> {
        self.0@
    }
}

impl UniqueID for InventoryExtensionUniqueID {
    open spec fn table_name_spec() -> Seq<char> {
        "extensions"@
    }

    fn table_name() -> (r: String) {
        "extensions".to_owned()
    }

    fn new(id: String) -> (r: Self) {
        InventoryExtensionUniqueID(id)
    }

    fn unnamespaced(&self) -> (r: &str) {
        self.0.as_str()
    }
}

impl Clone for InventoryExtensionUniqueID {
    fn clone(&self) -> (r: Self)
        ensures
            r == *self,
    {
        InventoryExtensionUniqueID(self.0.clone())
    }
}

impl PartialEq for InventoryExtensionUniqueID {
    fn eq(&self, other: &Self) -> (r: bool) {
        self.0 == other.0
    }
}

impl vstd::std_specs::cmp::PartialEqSpecImpl for InventoryExtensionUniqueID {
    open spec fn obeys_eq_spec() -> bool {
        true
    }

    open spec fn eq_spec(&self, other: &Self) -> bool {
        self@ == other@
    }
}

impl Eq for InventoryExtensionUniqueID {

}

impl View for DeviceManufacturerUniqueID {
    type V = Seq<char>;

    closed spec fn view(&self) -> Seq<char> {
        self.0@
    }
}

impl UniqueID for DeviceManufacturerUniqueID {
    open spec fn table_name_spec() -> Seq<char> {
        "device_manufacturers"@
    }

    fn table_name() -> (r: String) {
        "device_manufacturers".to_owned()
    }

    fn new(id: String) -> (r: Self) {
        DeviceManufacturerUniqueID(id)
    }

    fn unnamespaced(&self) -> (r: &str) {
        self.0.as_str()
    }
}

impl Clone for DeviceManufacturerUniqueID {
    fn clone(&self) -> (r: Self)
        ensures
            r == *self,
    {
        DeviceManufacturerUniqueID(self.0.clone())
    }
}

impl PartialEq for DeviceManufacturerUniqueID {
    fn eq(&self, other: &Self) -> (r: bool) {
        self.0 == other.0
    }
}

impl vstd::std_specs::cmp::PartialEqSpecImpl for DeviceManufacturerUniqueID {
    open spec fn obeys_eq_spec() -> bool {
        true
    }

    open spec fn eq_spec(&self, other: &Self) -> bool {
        self@ == other@
    }
}

impl Eq for DeviceManufacturerUniqueID {

}

impl View for DeviceCategoryUniqueID {
    type V = Seq<char>;

    closed spec fn view(&self) -> Seq<char> {
        self.0@
    }
}

impl UniqueID for DeviceCategoryUniqueID {
    open spec fn table_name_spec() -> Seq<char> {
        "device_categories"@
    }

    fn table_name() -> (r: String) {
        "device_categories".to_owned()
    }

    fn new(id: String) -> (r: Self) {
        DeviceCategoryUniqueID(id)
    }

    fn unnamespaced(&self) -> (r: &str) {
        self.0.as_str()
    }
}

impl Clone for DeviceCategoryUniqueID {
    fn clone(&self) -> (r: Self)
        ensures
            r == *self,
    {
        DeviceCategoryUniqueID(self.0.clone())
    }
}

impl PartialEq for DeviceCategoryUniqueID {
    fn eq(&self, other: &Self) -> (r: bool) {
        self.0 == other.0
    }
}

impl vstd::std_specs::cmp::PartialEqSpecImpl for DeviceCategoryUniqueID {
    open spec fn obeys_eq_spec() -> bool {
        true
    }

    open spec fn eq_spec(&self, other: &Self) -> bool {
        self@ == other@
    }
}

impl Eq for DeviceCategoryUniqueID {

}

impl View for DeviceUniqueID {
    type V = Seq<char>;

    closed spec fn view(&self) -> Seq<char> {
        self.0@
    }
}

impl UniqueID for DeviceUniqueID {
    open spec fn table_name_spec() -> Seq<char> {
        "devices"@
    }

    fn table_name() -> (r: String) {
        "devices".to_owned()
    }

    fn new(id: String) -> (r: Self) {
        DeviceUniqueID(id)
    }

    fn unnamespaced(&self) -> (r: &str) {
        self.0.as_str()
    }
}

impl Clone for DeviceUniqueID {
    fn clone(&self) -> (r: Self)
        ensures
            r == *self,
    {
        DeviceUniqueID(self.0.clone())
    }
}

impl PartialEq for DeviceUniqueID {
    fn eq(&self, other: &Self) -> (r: bool) {
        self.0 == other.0
    }
}

impl vstd::std_specs::cmp::PartialEqSpecImpl for DeviceUniqueID {
    open spec fn obeys_eq_spec() -> bool {
        true
    }

    open spec fn eq_spec(&self, other: &Self) -> bool {
        self@ == other@
    }
}

impl Eq for DeviceUniqueID {

}

} // verus!
