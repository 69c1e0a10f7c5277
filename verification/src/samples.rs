//! Sample records for exercising the reconciliation engine: numbered
//! manufacturers, categories, and devices, each owned by a given extension.
//!
//! The record texts embed the sample number in decimal, so the module also
//! carries a verified decimal renderer for unsigned integers.

use vstd::prelude::*;
use vstd::string::StringExecFns;

use crate::ids::{
    DeviceCategoryUniqueID, DeviceManufacturerUniqueID, DeviceUniqueID,
    InventoryExtensionUniqueID, UniqueID,
};
use crate::models::{
    lemma_owner_set_singleton, sole_owner, Device, DeviceCategory, DeviceManufacturer,
};

verus! {

/// The character for one decimal digit.
pub open spec fn decimal_digit(d: nat) -> char {
    if d == 0 {
        '0'
    } else if d == 1 {
        '1'
    } else if d == 2 {
        '2'
    } else if d == 3 {
        '3'
    } else if d == 4 {
        '4'
    } else if d == 5 {
        '5'
    } else if d == 6 {
        '6'
    } else if d == 7 {
        '7'
    } else if d == 8 {
        '8'
    } else {
        '9'
    }
}

/// The decimal rendering of a number: most significant digit first, no leading
/// zeros.
pub open spec fn decimal_rep(n: nat) -> Seq<char>
    decreases n,
{
    if n < 10 {
        seq![decimal_digit(n)]
    } else {
        decimal_rep(n / 10).push(decimal_digit(n % 10))
    }
}

/// One decimal digit as a string slice.
fn decimal_digit_str(d: u32) -> (r: &'static str)
    requires
        d < 10,
    ensures
        r@ == seq![decimal_digit(d as nat)],
{
    proof {
        reveal_strlit("0");
        reveal_strlit("1");
        reveal_strlit("2");
        reveal_strlit("3");
        reveal_strlit("4");
        reveal_strlit("5");
        reveal_strlit("6");
        reveal_strlit("7");
        reveal_strlit("8");
        reveal_strlit("9");
    }
    let s: &'static str = if d == 0 {
        "0"
    } else if d == 1 {
        "1"
    } else if d == 2 {
        "2"
    } else if d == 3 {
        "3"
    } else if d == 4 {
        "4"
    } else if d == 5 {
        "5"
    } else if d == 6 {
        "6"
    } else if d == 7 {
        "7"
    } else if d == 8 {
        "8"
    } else {
        "9"
    };
    proof {
        assert(s@ =~= seq![decimal_digit(d as nat)]);
    }
    s
}

/// Renders a number in decimal.
pub fn decimal_string(n: u32) -> (r: String)
    ensures
        r@ == decimal_rep(n as nat),
    decreases n,
{
    if n < 10 {
        decimal_digit_str(n).to_owned()
    } else {
        let mut s = decimal_string(n / 10);
        s.append(decimal_digit_str(n % 10));
        proof {
            assert(s@ =~= decimal_rep(n as nat));
        }
        s
    }
}

/// A string made of the given prefix followed by the number in decimal.
fn numbered_text(prefix: &str, num: u32) -> (r: String)
    ensures
        r@ == prefix@ + decimal_rep(num as nat),
{
    let mut s = prefix.to_owned();
    s.append(decimal_string(num).as_str());
    s
}

impl DeviceManufacturer {
    /// Creates a basic device manufacturer for testing purposes.
    /// Can be modified to test different scenarios.
    pub fn test(num: u32, extension_id: &InventoryExtensionUniqueID) -> (r: Self)
        ensures
            r.id@ == "test_"@ + decimal_rep(num as nat),
            r.display_name@ == "Test Device Manufacturer "@ + decimal_rep(num as nat),
            sole_owner(r.extensions@, extension_id@),
            r.wf(),
            r@.owners == set![extension_id@],
    {
        let mut owners: Vec<InventoryExtensionUniqueID> = Vec::new();
        owners.push(extension_id.clone());
        let r = DeviceManufacturer {
            id: DeviceManufacturerUniqueID::new(numbered_text("test_", num)),
            display_name: numbered_text("Test Device Manufacturer ", num),
            extensions: owners,
        };
        proof {
            lemma_owner_set_singleton(r.extensions@, extension_id@);
        }
        r
    }
}

impl DeviceCategory {
    /// Creates a basic device category for testing purposes.
    /// Can be modified to test different scenarios.
    pub fn test(num: u32, extension_id: &InventoryExtensionUniqueID) -> (r: Self)
        ensures
            r.id@ == "test_"@ + decimal_rep(num as nat),
            r.display_name@ == "Test Device Category "@ + decimal_rep(num as nat),
            sole_owner(r.extensions@, extension_id@),
            r.wf(),
            r@.owners == set![extension_id@],
    {
        let mut owners: Vec<InventoryExtensionUniqueID> = Vec::new();
        owners.push(extension_id.clone());
        let r = DeviceCategory {
            id: DeviceCategoryUniqueID::new(numbered_text("test_", num)),
            display_name: numbered_text("Test Device Category ", num),
            extensions: owners,
        };
        proof {
            lemma_owner_set_singleton(r.extensions@, extension_id@);
        }
        r
    }
}

impl Device {
    /// Creates a basic device for testing purposes.
    /// Can be modified to test different scenarios.
    pub fn test(
        num: u32,
        extension_id: &InventoryExtensionUniqueID,
        manufacturer_id: &DeviceManufacturerUniqueID,
        category_id: &DeviceCategoryUniqueID,
    ) -> (r: Self)
        ensures
            r.id@ == "test_"@ + decimal_rep(num as nat),
            r.display_name@ == "Test Device "@ + decimal_rep(num as nat),
            r.manufacturer@ == manufacturer_id@,
            r.category@ == category_id@,
            sole_owner(r.extensions@, extension_id@),
            r.wf(),
            r@.owners == set![extension_id@],
            r.primary_model_identifiers@.len() == 1,
            r.primary_model_identifiers@[0]@ == "test_"@ + decimal_rep(num as nat) + "_primary"@,
            r.extended_model_identifiers@.len() == 1,
            r.extended_model_identifiers@[0]@ == "test_"@ + decimal_rep(num as nat) + "_extended"@,
    {
        let mut owners: Vec<InventoryExtensionUniqueID> = Vec::new();
        owners.push(extension_id.clone());
        let mut primary = numbered_text("test_", num);
        primary.append("_primary");
        let mut primary_model_identifiers: Vec<String> = Vec::new();
        primary_model_identifiers.push(primary);
        let mut extended = numbered_text("test_", num);
        extended.append("_extended");
        let mut extended_model_identifiers: Vec<String> = Vec::new();
        extended_model_identifiers.push(extended);
        let r = Device {
            id: DeviceUniqueID::new(numbered_text("test_", num)),
            display_name: numbered_text("Test Device ", num),
            manufacturer: manufacturer_id.clone(),
            category: category_id.clone(),
            extensions: owners,
            primary_model_identifiers,
            extended_model_identifiers,
        };
        proof {
            lemma_owner_set_singleton(r.extensions@, extension_id@);
        }
        r
    }
}

} // verus!
