//! End-to-end tests of staging, conflict resolution, loading, and unloading
//! against the inventory store.

use techtriage::conflicts::LoadConflict;
use techtriage::ids::{InventoryExtensionUniqueID, UniqueID};
use techtriage::manager::{ExtensionManager, InventoryExtension, LoadError, ResolutionMode};
use techtriage::models::{
    Device, DeviceCategory, DeviceManufacturer, InventoryExtensionMetadata, SemanticVersion,
};
use techtriage::store::{InventoryStore, StoreError};

/// Creates a basic extension with no contents.
fn test_extension(num: u32) -> InventoryExtension {
    InventoryExtension {
        metadata: InventoryExtensionMetadata {
            id: InventoryExtensionUniqueID::new(format!("test_{num}")),
            display_name: format!("Test Extension {num}"),
            version: SemanticVersion::new(1, 0, 0),
        },
        device_manufacturers: Vec::new(),
        device_categories: Vec::new(),
        devices: Vec::new(),
    }
}

/// Creates a single basic extension with one manufacturer, category, and
/// device.
fn test_single(extension_num: u32, contents_num: u32) -> InventoryExtension {
    let mut extension = test_extension(extension_num);

    let device_manufacturer = DeviceManufacturer::test(contents_num, &extension.metadata.id);
    let device_category = DeviceCategory::test(contents_num, &extension.metadata.id);
    let device = Device::test(
        contents_num,
        &extension.metadata.id,
        &device_manufacturer.id,
        &device_category.id,
    );

    extension.device_manufacturers.push(device_manufacturer);
    extension.device_categories.push(device_category);
    extension.devices.push(device);

    extension
}

/// Creates two basic extensions with the same metadata and different contents.
fn test_pair_same_metadata() -> (InventoryExtension, InventoryExtension) {
    (test_single(1, 1), test_single(1, 2))
}

/// Creates two basic extensions with the same ID, a different version, and
/// different contents.
fn test_pair_different_metadata() -> (InventoryExtension, InventoryExtension) {
    let extension_1 = test_single(1, 1);
    let mut extension_2 = test_single(1, 2);
    extension_2.metadata.version = SemanticVersion::new(1, 0, 1);

    (extension_1, extension_2)
}

/// Creates two basic extensions with a different ID, the same version, and the
/// same contents.
fn test_pair_same_contents() -> (InventoryExtension, InventoryExtension) {
    (test_single(1, 1), test_single(2, 1))
}

/// Creates a manager for the provided extensions.
fn with_extensions(
    mode: ResolutionMode,
    extensions: impl IntoIterator<Item = InventoryExtension>,
) -> ExtensionManager {
    let mut manager = ExtensionManager::base_with_context(mode);
    for extension in extensions {
        manager.stage_extension(extension).unwrap();
    }

    manager
}

/// Loads an extension and checks that no conflicts were generated and that the
/// store now holds it.
fn load_and_check_no_conflicts(
    store: &mut InventoryStore,
    mode: ResolutionMode,
    extension: &InventoryExtension,
    only_extension: bool,
    remove_after: bool,
) {
    let manager = with_extensions(mode, [extension.clone()]);
    let load_conflicts = manager.load_extensions(store).unwrap();
    assert!(load_conflicts.is_empty());
    assert!(store.contains(extension, only_extension));

    if remove_after {
        store.unload_extension(&extension.metadata.id).unwrap();
    }
}

/// Tests that an extension will be loaded normally if it does not conflict
/// with an existing extension, regardless of the resolution mode.
#[test]
fn load_new_extension() {
    let mut store = InventoryStore::new();

    let extension = test_single(1, 1);

    load_and_check_no_conflicts(&mut store, ResolutionMode::Manual, &extension, true, true);

    load_and_check_no_conflicts(&mut store, ResolutionMode::Auto, &extension, true, true);

    load_and_check_no_conflicts(&mut store, ResolutionMode::ForceReload, &extension, true, true);
}

/// Tests that a conflicting extension which has the same version as an
/// existing extension will be skipped under automatic resolution.
#[test]
fn skip_duplicate() {
    let mut store = InventoryStore::new();

    let (original_extension, skipped_extension) = test_pair_same_metadata();

    load_and_check_no_conflicts(&mut store, ResolutionMode::Auto, &original_extension, true, false);

    let manager = with_extensions(ResolutionMode::Auto, [skipped_extension.clone()]);
    let load_conflicts = manager.load_extensions(&mut store).unwrap();
    assert_eq!(load_conflicts.len(), 1);
    assert_eq!(
        load_conflicts[0],
        LoadConflict { id: original_extension.metadata.id.clone(), same_version: true }
    );

    assert!(store.contains(&original_extension, true));
}

/// Tests that a conflicting extension which has a different version than an
/// existing extension will be reloaded under automatic resolution.
#[test]
fn version_change() {
    let mut store = InventoryStore::new();

    let (original_extension, updated_extension) = test_pair_different_metadata();

    load_and_check_no_conflicts(&mut store, ResolutionMode::Auto, &original_extension, true, false);

    let manager = with_extensions(ResolutionMode::Auto, [updated_extension.clone()]);
    let load_conflicts = manager.load_extensions(&mut store).unwrap();
    assert_eq!(load_conflicts.len(), 1);
    assert_eq!(
        load_conflicts[0],
        LoadConflict { id: original_extension.metadata.id, same_version: false }
    );

    assert!(store.contains(&updated_extension, true));
}

/// Tests that an extension which conflicts with an existing extension will be
/// reloaded under force-reload resolution, whether or not its version changed.
#[test]
fn auto_reload() {
    let mut store = InventoryStore::new();

    let (original_extension, reloaded_extension) = test_pair_same_metadata();

    load_and_check_no_conflicts(
        &mut store,
        ResolutionMode::ForceReload,
        &original_extension,
        true,
        false,
    );

    let manager = with_extensions(ResolutionMode::ForceReload, [reloaded_extension.clone()]);
    let load_conflicts = manager.load_extensions(&mut store).unwrap();
    assert_eq!(load_conflicts.len(), 1);
    assert_eq!(
        load_conflicts[0],
        LoadConflict { id: original_extension.metadata.id, same_version: true }
    );

    assert!(store.contains(&reloaded_extension, true));
    store.unload_extension(&reloaded_extension.metadata.id).unwrap();

    let (original_extension, reloaded_extension) = test_pair_different_metadata();

    load_and_check_no_conflicts(
        &mut store,
        ResolutionMode::ForceReload,
        &original_extension,
        true,
        false,
    );

    let manager = with_extensions(ResolutionMode::ForceReload, [reloaded_extension.clone()]);
    let load_conflicts = manager.load_extensions(&mut store).unwrap();
    assert_eq!(load_conflicts.len(), 1);
    assert_eq!(
        load_conflicts[0],
        LoadConflict { id: original_extension.metadata.id, same_version: false }
    );

    assert!(store.contains(&reloaded_extension, true));
}

/// Tests that extensions are unloaded correctly.
#[test]
fn unload_extension() {
    let mut store = InventoryStore::new();

    let (extension_1, extension_2) = test_pair_same_contents();

    load_and_check_no_conflicts(&mut store, ResolutionMode::Auto, &extension_1, true, false);

    load_and_check_no_conflicts(&mut store, ResolutionMode::Auto, &extension_2, false, false);

    store.unload_extension(&extension_1.metadata.id).unwrap();

    assert!(store.contains(&extension_2, true));
    assert!(!store.contains(&extension_1, false));
}

/// Under manual resolution a version change is not applied: the store is left
/// as it was and the pass reports the conflicts as a failure.
#[test]
fn manual_version_change_aborts() {
    let mut store = InventoryStore::new();

    let (original_extension, updated_extension) = test_pair_different_metadata();

    load_and_check_no_conflicts(
        &mut store,
        ResolutionMode::Manual,
        &original_extension,
        true,
        false,
    );

    let manager = with_extensions(ResolutionMode::Manual, [updated_extension.clone()]);
    let result = manager.load_extensions(&mut store);
    match result {
        Err(LoadError::UnresolvedConflicts(conflicts)) => {
            assert_eq!(conflicts.len(), 1);
            assert_eq!(
                conflicts[0],
                LoadConflict {
                    id: original_extension.metadata.id.clone(),
                    same_version: false,
                }
            );
        }
        _ => panic!("expected unresolved conflicts"),
    }

    assert!(store.contains(&original_extension, true));
}

/// Under manual resolution a same-version duplicate is also reported as an
/// unresolved conflict, with the store unchanged, while non-conflicting
/// sibling extensions still load.
#[test]
fn manual_duplicate_reported() {
    let mut store = InventoryStore::new();

    let (original_extension, duplicate_extension) = test_pair_same_metadata();
    let sibling = test_single(7, 3);

    load_and_check_no_conflicts(
        &mut store,
        ResolutionMode::Manual,
        &original_extension,
        true,
        false,
    );

    let manager = with_extensions(
        ResolutionMode::Manual,
        [duplicate_extension.clone(), sibling.clone()],
    );
    let result = manager.load_extensions(&mut store);
    match result {
        Err(LoadError::UnresolvedConflicts(conflicts)) => {
            assert_eq!(conflicts.len(), 1);
            assert_eq!(
                conflicts[0],
                LoadConflict {
                    id: original_extension.metadata.id.clone(),
                    same_version: true,
                }
            );
        }
        _ => panic!("expected unresolved conflicts"),
    }

    assert!(store.contains(&original_extension, false));
    assert!(store.contains(&sibling, false));
}

/// Two distinct extensions contributing a manufacturer with the same ID end up
/// sharing one record whose owning set is the union of both, in either order.
#[test]
fn union_on_shared_manufacturer() {
    for order in [false, true] {
        let mut store = InventoryStore::new();

        let mut extension_1 = test_extension(1);
        extension_1.device_manufacturers.push(DeviceManufacturer {
            id: techtriage::ids::DeviceManufacturerUniqueID::new("apple".to_string()),
            display_name: "Apple".to_string(),
            extensions: vec![extension_1.metadata.id.clone()],
        });
        let mut extension_2 = test_extension(2);
        extension_2.device_manufacturers.push(DeviceManufacturer {
            id: techtriage::ids::DeviceManufacturerUniqueID::new("apple".to_string()),
            display_name: "Apple Inc.".to_string(),
            extensions: vec![extension_2.metadata.id.clone()],
        });

        let (first, second) = if order {
            (extension_2.clone(), extension_1.clone())
        } else {
            (extension_1.clone(), extension_2.clone())
        };

        let manager = with_extensions(ResolutionMode::Auto, [first, second]);
        let load_conflicts = manager.load_extensions(&mut store).unwrap();
        assert!(load_conflicts.is_empty());

        let manufacturers = store.list_device_manufacturers();
        assert_eq!(manufacturers.len(), 1);
        let record = &manufacturers[0];
        assert_eq!(record.id.unnamespaced(), "apple");
        assert_eq!(record.extensions.len(), 2);
        assert!(record.extensions.contains(&extension_1.metadata.id));
        assert!(record.extensions.contains(&extension_2.metadata.id));
    }
}

/// Unloading the sole owner of a manufacturer deletes the record; unloading
/// one of two owners keeps the record and only revokes ownership.
#[test]
fn sole_owner_deletion_on_unload() {
    let mut store = InventoryStore::new();

    let mut extension_1 = test_extension(1);
    extension_1.device_manufacturers.push(DeviceManufacturer {
        id: techtriage::ids::DeviceManufacturerUniqueID::new("apple".to_string()),
        display_name: "Apple".to_string(),
        extensions: vec![extension_1.metadata.id.clone()],
    });
    extension_1.device_manufacturers.push(DeviceManufacturer {
        id: techtriage::ids::DeviceManufacturerUniqueID::new("banana".to_string()),
        display_name: "Banana".to_string(),
        extensions: vec![extension_1.metadata.id.clone()],
    });
    let mut extension_2 = test_extension(2);
    extension_2.device_manufacturers.push(DeviceManufacturer {
        id: techtriage::ids::DeviceManufacturerUniqueID::new("apple".to_string()),
        display_name: "Apple".to_string(),
        extensions: vec![extension_2.metadata.id.clone()],
    });

    let manager = with_extensions(
        ResolutionMode::Auto,
        [extension_1.clone(), extension_2.clone()],
    );
    manager.load_extensions(&mut store).unwrap();

    store.unload_extension(&extension_1.metadata.id).unwrap();

    let manufacturers = store.list_device_manufacturers();
    // "banana" was solely owned by the unloaded extension and is gone;
    // "apple" persists with only the remaining owner.
    assert_eq!(manufacturers.len(), 1);
    assert_eq!(manufacturers[0].id.unnamespaced(), "apple");
    assert_eq!(manufacturers[0].extensions.len(), 1);
    assert!(manufacturers[0].extensions.contains(&extension_2.metadata.id));
}

/// A protected (reserved/builtin) extension cannot be unloaded, and the failed
/// attempt leaves the store unchanged.
#[test]
fn protected_extension_unload_fails() {
    let mut store = InventoryStore::new();

    let extension = test_single(1, 1);
    store.mark_protected(extension.metadata.id.clone());

    load_and_check_no_conflicts(&mut store, ResolutionMode::Auto, &extension, true, false);

    let result = store.unload_extension(&extension.metadata.id);
    assert_eq!(result, Err(StoreError::ProtectedExtension));

    assert!(store.contains(&extension, true));
}

/// A reload that would unload a protected extension aborts the pass with a
/// store error.
#[test]
fn protected_extension_reload_fails() {
    let mut store = InventoryStore::new();

    let (original_extension, updated_extension) = test_pair_different_metadata();
    store.mark_protected(original_extension.metadata.id.clone());

    load_and_check_no_conflicts(
        &mut store,
        ResolutionMode::Auto,
        &original_extension,
        true,
        false,
    );

    let manager = with_extensions(ResolutionMode::Auto, [updated_extension.clone()]);
    let result = manager.load_extensions(&mut store);
    assert!(matches!(result, Err(LoadError::Store(StoreError::ProtectedExtension))));

    assert!(store.contains(&original_extension, true));
}

/// Staging two extensions with the same ID rejects the second and reports the
/// metadata of the extension already staged, without disturbing the rest.
#[test]
fn duplicate_staging_rejected() {
    let mut manager = ExtensionManager::base_with_context(ResolutionMode::Auto);

    let first = test_single(1, 1);
    let duplicate = test_single(1, 2);
    let sibling = test_single(2, 1);

    manager.stage_extension(first.clone()).unwrap();
    let conflict = manager.stage_extension(duplicate).unwrap_err();
    assert_eq!(conflict.existing, first.metadata);

    manager.stage_extension(sibling.clone()).unwrap();

    let mut store = InventoryStore::new();
    let load_conflicts = manager.load_extensions(&mut store).unwrap();
    assert!(load_conflicts.is_empty());
    assert!(store.contains(&first, false));
    assert!(store.contains(&sibling, false));
}
