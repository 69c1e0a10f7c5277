//! Unit tests of the data model, the identifier types, the sample
//! constructors, and the conflict classifier.

use techtriage::conflicts::LoadConflict;
use techtriage::ids::{
    DeviceCategoryUniqueID, DeviceManufacturerUniqueID, DeviceUniqueID,
    InventoryExtensionUniqueID, UniqueID,
};
use techtriage::manager::InventoryExtension;
use techtriage::models::{
    Device, DeviceCategory, DeviceManufacturer, InventoryExtensionMetadata, SemanticVersion,
};
use techtriage::samples::decimal_string;
use techtriage::store::InventoryStore;

fn extension_id(text: &str) -> InventoryExtensionUniqueID {
    InventoryExtensionUniqueID::new(text.to_string())
}

fn metadata(id: &str, version: SemanticVersion) -> InventoryExtensionMetadata {
    InventoryExtensionMetadata {
        id: extension_id(id),
        display_name: format!("Extension {id}"),
        version,
    }
}

#[test]
fn decimal_rendering() {
    assert_eq!(decimal_string(0), "0");
    assert_eq!(decimal_string(7), "7");
    assert_eq!(decimal_string(10), "10");
    assert_eq!(decimal_string(907), "907");
    assert_eq!(decimal_string(u32::MAX), "4294967295");
}

#[test]
fn namespaced_identifiers() {
    assert_eq!(extension_id("abc").namespaced(), "extensions:abc");
    assert_eq!(
        DeviceManufacturerUniqueID::new("apple".to_string()).namespaced(),
        "device_manufacturers:apple"
    );
    assert_eq!(
        DeviceCategoryUniqueID::new("phone".to_string()).namespaced(),
        "device_categories:phone"
    );
    assert_eq!(DeviceUniqueID::new("iphone_15".to_string()).namespaced(), "devices:iphone_15");
    assert_eq!(extension_id("abc").unnamespaced(), "abc");
}

#[test]
fn sample_manufacturer_values() {
    let owner = extension_id("owner");
    let manufacturer = DeviceManufacturer::test(12, &owner);
    assert_eq!(manufacturer.id.unnamespaced(), "test_12");
    assert_eq!(manufacturer.display_name, "Test Device Manufacturer 12");
    assert_eq!(manufacturer.extensions, vec![owner]);
}

#[test]
fn sample_category_values() {
    let owner = extension_id("owner");
    let category = DeviceCategory::test(3, &owner);
    assert_eq!(category.id.unnamespaced(), "test_3");
    assert_eq!(category.display_name, "Test Device Category 3");
    assert_eq!(category.extensions, vec![owner]);
}

#[test]
fn sample_device_values() {
    let owner = extension_id("owner");
    let manufacturer = DeviceManufacturer::test(4, &owner);
    let category = DeviceCategory::test(5, &owner);
    let device = Device::test(40, &owner, &manufacturer.id, &category.id);
    assert_eq!(device.id.unnamespaced(), "test_40");
    assert_eq!(device.display_name, "Test Device 40");
    assert_eq!(device.manufacturer, manufacturer.id);
    assert_eq!(device.category, category.id);
    assert_eq!(device.extensions, vec![owner]);
    assert_eq!(device.primary_model_identifiers, vec!["test_40_primary".to_string()]);
    assert_eq!(device.extended_model_identifiers, vec!["test_40_extended".to_string()]);
}

#[test]
fn merge_unions_owners() {
    let a = extension_id("a");
    let b = extension_id("b");
    let mut manufacturer = DeviceManufacturer {
        id: DeviceManufacturerUniqueID::new("apple".to_string()),
        display_name: "Apple".to_string(),
        extensions: vec![a.clone()],
    };
    let other = DeviceManufacturer {
        id: DeviceManufacturerUniqueID::new("apple".to_string()),
        display_name: "Apple Inc.".to_string(),
        extensions: vec![a.clone(), b.clone()],
    };
    manufacturer.merge(other);
    assert_eq!(manufacturer.display_name, "Apple");
    assert_eq!(manufacturer.extensions.len(), 2);
    assert!(manufacturer.extensions.contains(&a));
    assert!(manufacturer.extensions.contains(&b));
}

#[test]
fn classifier_finds_and_removes_match() {
    let staged = InventoryExtension {
        metadata: metadata("pkg", SemanticVersion::new(1, 0, 0)),
        device_manufacturers: Vec::new(),
        device_categories: Vec::new(),
        devices: Vec::new(),
    };
    let mut loaded = vec![
        metadata("other", SemanticVersion::new(2, 0, 0)),
        metadata("pkg", SemanticVersion::new(1, 0, 0)),
    ];

    let conflict = LoadConflict::new(&staged, &mut loaded).unwrap();
    assert_eq!(conflict, LoadConflict { id: extension_id("pkg"), same_version: true });
    assert_eq!(loaded.len(), 1);
    assert_eq!(loaded[0].id, extension_id("other"));
}

#[test]
fn classifier_reports_version_change() {
    let staged = InventoryExtension {
        metadata: metadata("pkg", SemanticVersion::new(1, 0, 1)),
        device_manufacturers: Vec::new(),
        device_categories: Vec::new(),
        devices: Vec::new(),
    };
    let mut loaded = vec![metadata("pkg", SemanticVersion::new(1, 0, 0))];

    let conflict = LoadConflict::new(&staged, &mut loaded).unwrap();
    assert_eq!(conflict, LoadConflict { id: extension_id("pkg"), same_version: false });
    assert!(loaded.is_empty());
}

#[test]
fn classifier_distinguishes_prerelease() {
    let mut prerelease = SemanticVersion::new(1, 0, 0);
    prerelease.pre = "alpha".to_string();
    let staged = InventoryExtension {
        metadata: InventoryExtensionMetadata {
            id: extension_id("pkg"),
            display_name: "Extension pkg".to_string(),
            version: prerelease,
        },
        device_manufacturers: Vec::new(),
        device_categories: Vec::new(),
        devices: Vec::new(),
    };
    let mut loaded = vec![metadata("pkg", SemanticVersion::new(1, 0, 0))];

    let conflict = LoadConflict::new(&staged, &mut loaded).unwrap();
    assert!(!conflict.same_version);
}

#[test]
fn classifier_passes_fresh_extension() {
    let staged = InventoryExtension {
        metadata: metadata("pkg", SemanticVersion::new(1, 0, 0)),
        device_manufacturers: Vec::new(),
        device_categories: Vec::new(),
        devices: Vec::new(),
    };
    let mut loaded = vec![metadata("other", SemanticVersion::new(1, 0, 0))];

    assert!(LoadConflict::new(&staged, &mut loaded).is_none());
    assert_eq!(loaded.len(), 1);
}

#[test]
fn should_reload_on_version_change_only() {
    let same = LoadConflict { id: extension_id("pkg"), same_version: true };
    let changed = LoadConflict { id: extension_id("pkg"), same_version: false };
    assert!(!same.should_reload());
    assert!(changed.should_reload());
}

#[test]
fn store_add_and_remove_manufacturer() {
    let mut store = InventoryStore::new();
    let owner = extension_id("a");
    let manufacturer = DeviceManufacturer::test(1, &owner);

    store.add_device_manufacturer(manufacturer.clone());
    let listed = store.list_device_manufacturers();
    assert_eq!(listed.len(), 1);
    assert_eq!(listed[0].id, manufacturer.id);
    assert_eq!(listed[0].display_name, manufacturer.display_name);

    store.remove_device_manufacturer(&manufacturer.id);
    assert!(store.list_device_manufacturers().is_empty());
}

#[test]
fn store_merges_same_manufacturer() {
    let mut store = InventoryStore::new();
    let a = extension_id("a");
    let b = extension_id("b");

    store.add_device_manufacturer(DeviceManufacturer::test(1, &a));
    store.add_device_manufacturer(DeviceManufacturer::test(1, &b));

    let listed = store.list_device_manufacturers();
    assert_eq!(listed.len(), 1);
    assert_eq!(listed[0].extensions.len(), 2);
    assert!(listed[0].extensions.contains(&a));
    assert!(listed[0].extensions.contains(&b));
}

#[test]
fn store_add_and_remove_category_and_device() {
    let mut store = InventoryStore::new();
    let owner = extension_id("a");
    let category = DeviceCategory::test(1, &owner);
    let manufacturer = DeviceManufacturer::test(1, &owner);
    let device = Device::test(1, &owner, &manufacturer.id, &category.id);

    store.add_device_category(category.clone());
    store.add_device(device.clone());

    assert_eq!(store.list_device_categories().len(), 1);
    let devices = store.list_devices();
    assert_eq!(devices.len(), 1);
    assert_eq!(devices[0].primary_model_identifiers, device.primary_model_identifiers);

    store.remove_device_category(&category.id);
    store.remove_device(&device.id);
    assert!(store.list_device_categories().is_empty());
    assert!(store.list_devices().is_empty());
}

#[test]
fn store_lists_extension_metadata() {
    let mut store = InventoryStore::new();
    let extension = InventoryExtension {
        metadata: metadata("pkg", SemanticVersion::new(2, 1, 3)),
        device_manufacturers: Vec::new(),
        device_categories: Vec::new(),
        devices: Vec::new(),
    };
    store.load_extension(extension.clone());

    let listed = store.list_extensions();
    assert_eq!(listed.len(), 1);
    assert_eq!(listed[0], extension.metadata);
    assert_eq!(listed[0].version, SemanticVersion::new(2, 1, 3));
}
