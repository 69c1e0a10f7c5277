//! The inventory store model: the tables of extension metadata, shared
//! entities, and devices, with the per-entity merge engine and the unload
//! logic.
//!
//! Each table is a list of records with pairwise distinct identifiers; in
//! specifications a table is abstracted to a map from identifier to record
//! model, so every contract can state exactly which records an operation
//! creates, merges, or deletes. The store also keeps the set of protected
//! (reserved/builtin) extension identifiers whose deletion it refuses.

use vstd::prelude::*;

use crate::ids::{
    DeviceCategoryUniqueID, DeviceManufacturerUniqueID, DeviceUniqueID,
    InventoryExtensionUniqueID,
};
use crate::manager::{ExtensionView, InventoryExtension};
use crate::models::{
    clone_owner_list, lemma_owner_set_remove_at, lemma_sole_owner_test, owner_set, owners_contain,
    owners_nodup, sole_owner, Device, DeviceCategory, DeviceManufacturer, DeviceView,
    InventoryExtensionMetadata, MetadataView, SharedEntityView,
};

verus! {

/// A record stored in one of the store's tables, keyed by the identifier that
/// the store uses as the record's primary key.
pub trait KeyedRecord: View + Sized {
    /// The record's primary key.
    spec fn key(&self) -> Seq<char>;
}

impl KeyedRecord for InventoryExtensionMetadata {
    open spec fn key(&self) -> Seq<char> {
        self.id@
    }
}

impl KeyedRecord for DeviceManufacturer {
    open spec fn key(&self) -> Seq<char> {
        self.id@
    }
}

impl KeyedRecord for DeviceCategory {
    open spec fn key(&self) -> Seq<char> {
        self.id@
    }
}

impl KeyedRecord for Device {
    open spec fn key(&self) -> Seq<char> {
        self.id@
    }
}

/// The map from primary key to record model that a list of records denotes.
pub open spec fn record_map<T: KeyedRecord>(s: Seq<T>) -> Map<Seq<char>, T::V>
    decreases s.len(),
{
    if s.len() == 0 {
        Map::empty()
    } else {
        record_map(s.drop_last()).insert(s.last().key(), s.last()@)
    }
}

/// Whether some record in the list has the given primary key.
pub open spec fn has_record<T: KeyedRecord>(s: Seq<T>, k: Seq<char>) -> bool {
    exists|i: int| 0 <= i < s.len() && s[i].key() == k
}

/// No two records in the list share a primary key.
pub open spec fn records_nodup<T: KeyedRecord>(s: Seq<T>) -> bool {
    forall|i: int, j: int| 0 <= i < j < s.len() ==> s[i].key() != s[j].key()
}

/// A key is in the record map exactly when some record has that key.
pub proof fn lemma_record_map_contains<T: KeyedRecord>(s: Seq<T>, k: Seq<char>)
    ensures
        record_map(s).dom().contains(k) <==> has_record(s, k),
    decreases s.len(),
{
    if s.len() > 0 {
        let t = s.drop_last();
        lemma_record_map_contains(t, k);
        if s.last().key() == k {
            assert(s[s.len() - 1].key() == k);
        } else {
            if has_record(t, k) {
                let i = choose|i: int| 0 <= i < t.len() && t[i].key() == k;
                assert(s[i].key() == k);
            }
            if has_record(s, k) {
                let i = choose|i: int| 0 <= i < s.len() && s[i].key() == k;
                if i < s.len() - 1 {
                    assert(t[i].key() == k);
                }
            }
        }
    }
}

/// In a duplicate-free list, the record map sends each record's key to that
/// record's model.
pub proof fn lemma_record_map_index<T: KeyedRecord>(s: Seq<T>, i: int)
    requires
        records_nodup(s),
        0 <= i < s.len(),
    ensures
        record_map(s).dom().contains(s[i].key()),
        record_map(s)[s[i].key()] == s[i]@,
    decreases s.len(),
{
    let t = s.drop_last();
    if i < s.len() - 1 {
        assert(records_nodup(t)) by {
            assert(forall|a: int, b: int|
                0 <= a < b < t.len() ==> t[a].key() == s[a].key() && t[b].key() == s[b].key());
        }
        lemma_record_map_index(t, i);
        assert(s.last().key() != s[i].key());
    }
}

/// Appending a record extends the record map at the record's key.
pub proof fn lemma_record_map_push<T: KeyedRecord>(s: Seq<T>, x: T)
    ensures
        record_map(s.push(x)) == record_map(s).insert(x.key(), x@),
{
    assert(s.push(x).drop_last() =~= s);
    assert(s.push(x).last() == x);
}

/// Replacing the record at one position with a record of the same key updates
/// the record map at that key.
pub proof fn lemma_record_map_update<T: KeyedRecord>(s: Seq<T>, i: int, x: T)
    requires
        records_nodup(s),
        0 <= i < s.len(),
        x.key() == s[i].key(),
    ensures
        record_map(s.update(i, x)) == record_map(s).insert(x.key(), x@),
        records_nodup(s.update(i, x)),
    decreases s.len(),
{
    let t = s.drop_last();
    let u = s.update(i, x);
    assert(records_nodup(u)) by {
        assert(forall|a: int|
            0 <= a < u.len() ==> u[a].key() == (if a == i {
                x.key()
            } else {
                s[a].key()
            }));
    }
    if i == s.len() - 1 {
        assert(u.drop_last() =~= t);
        assert(u.last() == x);
        assert(record_map(t).insert(s.last().key(), s.last()@).insert(x.key(), x@)
            =~= record_map(t).insert(x.key(), x@));
    } else {
        assert(records_nodup(t)) by {
            assert(forall|a: int, b: int|
                0 <= a < b < t.len() ==> t[a].key() == s[a].key() && t[b].key() == s[b].key());
        }
        lemma_record_map_update(t, i, x);
        assert(u.drop_last() =~= t.update(i, x));
        assert(u.last() == s.last());
        assert(s.last().key() != s[i].key());
        assert(record_map(t).insert(x.key(), x@).insert(s.last().key(), s.last()@)
            =~= record_map(t).insert(s.last().key(), s.last()@).insert(x.key(), x@));
    }
}

/// Removing the record at one position removes its key from the record map.
pub proof fn lemma_record_map_remove<T: KeyedRecord>(s: Seq<T>, i: int)
    requires
        records_nodup(s),
        0 <= i < s.len(),
    ensures
        record_map(s.remove(i)) == record_map(s).remove(s[i].key()),
        records_nodup(s.remove(i)),
    decreases s.len(),
{
    let t = s.drop_last();
    let u = s.remove(i);
    assert(records_nodup(u)) by {
        assert(forall|a: int|
            0 <= a < u.len() ==> u[a].key() == (if a < i {
                s[a].key()
            } else {
                s[a + 1].key()
            }));
    }
    assert(records_nodup(t)) by {
        assert(forall|a: int, b: int|
            0 <= a < b < t.len() ==> t[a].key() == s[a].key() && t[b].key() == s[b].key());
    }
    if i == s.len() - 1 {
        assert(u =~= t);
        lemma_record_map_contains(t, s[i].key());
        assert(!has_record(t, s[i].key())) by {
            assert(forall|a: int| 0 <= a < t.len() ==> t[a].key() == s[a].key());
        }
        assert(record_map(t).insert(s.last().key(), s.last()@).remove(s[i].key())
            =~= record_map(t));
    } else {
        lemma_record_map_remove(t, i);
        assert(u.drop_last() =~= t.remove(i));
        assert(u.len() == s.len() - 1);
        assert(u.last() == s.last());
        assert(s.last().key() != s[i].key());
        assert(record_map(t).remove(s[i].key()).insert(s.last().key(), s.last()@)
            =~= record_map(t).insert(s.last().key(), s.last()@).remove(s[i].key()));
    }
}

/// In a duplicate-free list the record map has exactly one entry per record.
pub proof fn lemma_record_map_len<T: KeyedRecord>(s: Seq<T>)
    requires
        records_nodup(s),
    ensures
        record_map(s).dom().finite(),
        record_map(s).dom().len() == s.len(),
    decreases s.len(),
{
    if s.len() > 0 {
        let t = s.drop_last();
        assert(records_nodup(t)) by {
            assert(forall|a: int, b: int|
                0 <= a < b < t.len() ==> t[a].key() == s[a].key() && t[b].key() == s[b].key());
        }
        lemma_record_map_len(t);
        lemma_record_map_contains(t, s.last().key());
        assert(!has_record(t, s.last().key())) by {
            assert(forall|a: int| 0 <= a < t.len() ==> t[a].key() == s[a].key());
        }
    }
}

/// Two record lists with pointwise equal keys and models denote the same map.
pub proof fn lemma_record_map_congruence<T: KeyedRecord>(a: Seq<T>, b: Seq<T>)
    requires
        a.len() == b.len(),
        forall|i: int|
            0 <= i < a.len() ==> (#[trigger] a[i]).key() == b[i].key() && a[i]@ == b[i]@,
    ensures
        record_map(a) == record_map(b),
    decreases a.len(),
{
    if a.len() > 0 {
        lemma_record_map_congruence(a.drop_last(), b.drop_last());
        assert(a[a.len() - 1].key() == b[b.len() - 1].key());
        assert(a[a.len() - 1]@ == b[b.len() - 1]@);
    }
}

/// Failure reported by the store.
#[derive(Debug, Clone, Copy, PartialEq, Eq, Structural)]
pub enum StoreError {
    /// The extension is reserved/builtin: the store rejects deletion of
    /// reserved identifiers, and no part of the unload is applied.
    ProtectedExtension,
}

/// The mathematical model of the whole store: one map per table plus the set
/// of protected extension identifiers.
#[verifier::ext_equal]
pub struct StoreView {
    pub extensions: Map<Seq<char>, MetadataView>,
    pub manufacturers: Map<Seq<char>, SharedEntityView>,
    pub categories: Map<Seq<char>, SharedEntityView>,
    pub devices: Map<Seq<char>, DeviceView>,
    pub protected: Set<Seq<char>>,
}

/// Merging an incoming shared entity into a table: the incoming record's
/// fields are authoritative, except that the owning-extension sets are
/// united when a record with the same key already exists.
pub open spec fn upsert_shared(
    m: Map<Seq<char>, SharedEntityView>,
    e: SharedEntityView,
) -> Map<Seq<char>, SharedEntityView> {
    if m.dom().contains(e.id) {
        m.insert(e.id, SharedEntityView { owners: e.owners + m[e.id].owners, ..e })
    } else {
        m.insert(e.id, e)
    }
}

/// Merging an incoming device into the device table, in the same way as a
/// shared entity.
pub open spec fn upsert_device(
    m: Map<Seq<char>, DeviceView>,
    e: DeviceView,
) -> Map<Seq<char>, DeviceView> {
    if m.dom().contains(e.id) {
        m.insert(e.id, DeviceView { owners: e.owners + m[e.id].owners, ..e })
    } else {
        m.insert(e.id, e)
    }
}

/// Loading the shared entities of an extension from position `i` on: each one
/// is merged into the table in turn.
pub open spec fn load_shared_from(
    m: Map<Seq<char>, SharedEntityView>,
    s: Seq<SharedEntityView>,
    i: int,
) -> Map<Seq<char>, SharedEntityView>
    decreases s.len() - i,
{
    if 0 <= i < s.len() {
        load_shared_from(upsert_shared(m, s[i]), s, i + 1)
    } else {
        m
    }
}

/// Loading the devices of an extension from position `i` on.
pub open spec fn load_devices_from(
    m: Map<Seq<char>, DeviceView>,
    s: Seq<DeviceView>,
    i: int,
) -> Map<Seq<char>, DeviceView>
    decreases s.len() - i,
{
    if 0 <= i < s.len() {
        load_devices_from(upsert_device(m, s[i]), s, i + 1)
    } else {
        m
    }
}

/// What loading one extension does to the store: its metadata record is
/// created, and each contributed entity is merged into its table.
pub open spec fn spec_load_extension(v: StoreView, e: ExtensionView) -> StoreView {
    StoreView {
        extensions: v.extensions.insert(e.metadata.id, e.metadata),
        manufacturers: load_shared_from(v.manufacturers, e.manufacturers, 0),
        categories: load_shared_from(v.categories, e.categories, 0),
        devices: load_devices_from(v.devices, e.devices, 0),
        protected: v.protected,
    }
}

/// A shared entity with the given extension removed from its owners.
pub open spec fn strip_owner_shared(e: SharedEntityView, xid: Seq<char>) -> SharedEntityView {
    SharedEntityView { owners: e.owners.remove(xid), ..e }
}

/// A device with the given extension removed from its owners.
pub open spec fn strip_owner_device(e: DeviceView, xid: Seq<char>) -> DeviceView {
    DeviceView { owners: e.owners.remove(xid), ..e }
}

/// What unloading an extension does to a shared-entity table: every record the
/// extension solely owns is deleted, and the extension is removed from the
/// owners of every remaining record.
pub open spec fn spec_unload_shared(
    m: Map<Seq<char>, SharedEntityView>,
    xid: Seq<char>,
) -> Map<Seq<char>, SharedEntityView> {
    Map::new(
        |k: Seq<char>| m.dom().contains(k) && m[k].owners != set![xid],
        |k: Seq<char>| strip_owner_shared(m[k], xid),
    )
}

/// What unloading an extension does to the device table.
pub open spec fn spec_unload_devices(
    m: Map<Seq<char>, DeviceView>,
    xid: Seq<char>,
) -> Map<Seq<char>, DeviceView> {
    Map::new(
        |k: Seq<char>| m.dom().contains(k) && m[k].owners != set![xid],
        |k: Seq<char>| strip_owner_device(m[k], xid),
    )
}

/// What unloading one extension does to the store: its metadata record and its
/// solely-owned entities are deleted, and its ownership is revoked everywhere
/// else.
pub open spec fn spec_unload(v: StoreView, xid: Seq<char>) -> StoreView {
    StoreView {
        extensions: v.extensions.remove(xid),
        manufacturers: spec_unload_shared(v.manufacturers, xid),
        categories: spec_unload_shared(v.categories, xid),
        devices: spec_unload_devices(v.devices, xid),
        protected: v.protected,
    }
}

/// Unloading distributes over adding one record under a fresh key.
proof fn lemma_unload_shared_insert(
    m: Map<Seq<char>, SharedEntityView>,
    e: SharedEntityView,
    xid: Seq<char>,
)
    requires
        !m.dom().contains(e.id),
    ensures
        e.owners == set![xid] ==> spec_unload_shared(m.insert(e.id, e), xid) == spec_unload_shared(
            m,
            xid,
        ),
        e.owners != set![xid] ==> spec_unload_shared(m.insert(e.id, e), xid) == spec_unload_shared(
            m,
            xid,
        ).insert(e.id, strip_owner_shared(e, xid)),
{
    if e.owners == set![xid] {
        assert(spec_unload_shared(m.insert(e.id, e), xid) =~= spec_unload_shared(m, xid));
    } else {
        assert(spec_unload_shared(m.insert(e.id, e), xid) =~= spec_unload_shared(m, xid).insert(
            e.id,
            strip_owner_shared(e, xid),
        ));
    }
}

/// Unloading distributes over adding one device under a fresh key.
proof fn lemma_unload_devices_insert(m: Map<Seq<char>, DeviceView>, e: DeviceView, xid: Seq<char>)
    requires
        !m.dom().contains(e.id),
    ensures
        e.owners == set![xid] ==> spec_unload_devices(m.insert(e.id, e), xid)
            == spec_unload_devices(m, xid),
        e.owners != set![xid] ==> spec_unload_devices(m.insert(e.id, e), xid)
            == spec_unload_devices(m, xid).insert(e.id, strip_owner_device(e, xid)),
{
    if e.owners == set![xid] {
        assert(spec_unload_devices(m.insert(e.id, e), xid) =~= spec_unload_devices(m, xid));
    } else {
        assert(spec_unload_devices(m.insert(e.id, e), xid) =~= spec_unload_devices(m, xid).insert(
            e.id,
            strip_owner_device(e, xid),
        ));
    }
}

/// The in-memory inventory store: the reconciliation engine's view of the
/// persistent tables.
pub struct InventoryStore {
    extensions: Vec<InventoryExtensionMetadata>,
    device_manufacturers: Vec<DeviceManufacturer>,
    device_categories: Vec<DeviceCategory>,
    devices: Vec<Device>,
    protected_extensions: Vec<InventoryExtensionUniqueID>,
}

impl View for InventoryStore {
    type V = StoreView;

    closed spec fn view(&self) -> StoreView {
        StoreView {
            extensions: record_map(self.extensions@),
            manufacturers: record_map(self.device_manufacturers@),
            categories: record_map(self.device_categories@),
            devices: record_map(self.devices@),
            protected: owner_set(self.protected_extensions@),
        }
    }
}

impl InventoryStore {
    /// Every table is free of duplicate keys and every entity record has a
    /// duplicate-free, non-empty owner list.
    pub closed spec fn wf(&self) -> bool {
        &&& records_nodup(self.extensions@)
        &&& records_nodup(self.device_manufacturers@)
        &&& records_nodup(self.device_categories@)
        &&& records_nodup(self.devices@)
        &&& forall|i: int|
            0 <= i < self.device_manufacturers@.len()
                ==> (#[trigger] self.device_manufacturers@[i]).wf()
        &&& forall|i: int|
            0 <= i < self.device_categories@.len()
                ==> (#[trigger] self.device_categories@[i]).wf()
        &&& forall|i: int| 0 <= i < self.devices@.len() ==> (#[trigger] self.devices@[i]).wf()
    }

    /// Creates an empty store with no protected extensions.
    pub fn new() -> (r: Self)
        ensures
            r.wf(),
            r@ == (StoreView {
                extensions: Map::empty(),
                manufacturers: Map::empty(),
                categories: Map::empty(),
                devices: Map::empty(),
                protected: Set::empty(),
            }),
    {
        let r = InventoryStore {
            extensions: Vec::new(),
            device_manufacturers: Vec::new(),
            device_categories: Vec::new(),
            devices: Vec::new(),
            protected_extensions: Vec::new(),
        };
        proof {
            assert(owner_set(r.protected_extensions@) =~= Set::<Seq<char>>::empty());
        }
        r
    }

    /// Marks an extension identifier as reserved: the store will refuse to
    /// unload it.
    pub fn mark_protected(&mut self, extension_id: InventoryExtensionUniqueID)
        requires
            old(self).wf(),
        ensures
            final(self).wf(),
            final(self)@ == (StoreView {
                protected: old(self)@.protected.insert(extension_id@),
                ..old(self)@
            }),
    {
        let ghost prev = self.protected_extensions@;
        self.protected_extensions.push(extension_id);
        proof {
            assert(owner_set(self.protected_extensions@) =~= owner_set(prev).insert(
                extension_id@,
            )) by {
                assert forall|s: Seq<char>|
                    owner_set(self.protected_extensions@).contains(s) implies owner_set(
                    prev,
                ).insert(extension_id@).contains(s) by {
                    let k = choose|k: int|
                        0 <= k < self.protected_extensions@.len()
                            && self.protected_extensions@[k]@ == s;
                    if k < prev.len() {
                        assert(prev[k]@ == s);
                    }
                }
                assert forall|s: Seq<char>|
                    owner_set(prev).insert(extension_id@).contains(s) implies owner_set(
                    self.protected_extensions@,
                ).contains(s) by {
                    if owner_set(prev).contains(s) {
                        let k = choose|k: int| 0 <= k < prev.len() && prev[k]@ == s;
                        assert(self.protected_extensions@[k]@ == s);
                    } else {
                        assert(self.protected_extensions@[prev.len() as int]@ == s);
                    }
                }
            }
            assert(self@ =~= (StoreView {
                protected: old(self)@.protected.insert(extension_id@),
                ..old(self)@
            }));
        }
    }

    /// Lists the metadata of every currently-loaded extension.
    pub fn list_extensions(&self) -> (r: Vec<InventoryExtensionMetadata>)
        requires
            self.wf(),
        ensures
            records_nodup(r@),
            record_map(r@) == self@.extensions,
    {
        let mut r: Vec<InventoryExtensionMetadata> = Vec::new();
        let n = self.extensions.len();
        let mut i: usize = 0;
        while i < n
            invariant
                n == self.extensions@.len(),
                i <= n,
                r@ == self.extensions@.take(i as int),
            decreases n - i,
        {
            r.push(self.extensions[i].clone());
            proof {
                assert(r@ =~= self.extensions@.take(i + 1));
            }
            i += 1;
        }
        proof {
            assert(self.extensions@.take(n as int) =~= self.extensions@);
        }
        r
    }

    /// Adds a device manufacturer to the store, merging it with an existing
    /// record if needed: the incoming fields win, and the owning-extension
    /// sets are united.
    pub fn add_device_manufacturer(&mut self, manufacturer: DeviceManufacturer)
        requires
            old(self).wf(),
            manufacturer.wf(),
        ensures
            final(self).wf(),
            final(self)@ == (StoreView {
                manufacturers: upsert_shared(old(self)@.manufacturers, manufacturer@),
                ..old(self)@
            }),
    {
        let ghost orig = manufacturer;
        let mut manufacturer = manufacturer;
        proof {
            lemma_record_map_contains(self.device_manufacturers@, orig.id@);
        }
        match find_manufacturer(&self.device_manufacturers, &manufacturer.id) {
            Some(i) => {
                let existing = self.device_manufacturers[i].clone();
                proof {
                    lemma_record_map_index(self.device_manufacturers@, i as int);
                }
                manufacturer.merge(existing);
                let ghost prev = self.device_manufacturers@;
                let ghost merged = manufacturer;
                self.device_manufacturers.set(i, manufacturer);
                proof {
                    lemma_record_map_update(prev, i as int, merged);
                    assert(old(self)@.manufacturers[orig.id@] == prev[i as int]@);
                    assert(merged@ =~= (SharedEntityView {
                        owners: orig@.owners + old(self)@.manufacturers[orig.id@].owners,
                        ..orig@
                    }));
                    assert(self@ =~= (StoreView {
                        manufacturers: upsert_shared(old(self)@.manufacturers, orig@),
                        ..old(self)@
                    }));
                }
            },
            None => {
                let ghost prev = self.device_manufacturers@;
                self.device_manufacturers.push(manufacturer);
                proof {
                    lemma_record_map_push(prev, orig);
                    assert(records_nodup(self.device_manufacturers@)) by {
                        assert(forall|a: int|
                            0 <= a < prev.len()
                                ==> self.device_manufacturers@[a].key() == prev[a].key());
                    }
                    assert(self@ =~= (StoreView {
                        manufacturers: upsert_shared(old(self)@.manufacturers, orig@),
                        ..old(self)@
                    }));
                }
            },
        }
    }
}

impl InventoryStore {
    /// Adds a device category to the store, merging it with an existing
    /// record if needed: the incoming fields win, and the owning-extension
    /// sets are united.
    pub fn add_device_category(&mut self, category: DeviceCategory)
        requires
            old(self).wf(),
            category.wf(),
        ensures
            final(self).wf(),
            final(self)@ == (StoreView {
                categories: upsert_shared(old(self)@.categories, category@),
                ..old(self)@
            }),
    {
        let ghost orig = category;
        let mut category = category;
        proof {
            lemma_record_map_contains(self.device_categories@, orig.id@);
        }
        match find_category(&self.device_categories, &category.id) {
            Some(i) => {
                let existing = self.device_categories[i].clone();
                proof {
                    lemma_record_map_index(self.device_categories@, i as int);
                }
                category.merge(existing);
                let ghost prev = self.device_categories@;
                let ghost merged = category;
                self.device_categories.set(i, category);
                proof {
                    lemma_record_map_update(prev, i as int, merged);
                    assert(old(self)@.categories[orig.id@] == prev[i as int]@);
                    assert(merged@ =~= (SharedEntityView {
                        owners: orig@.owners + old(self)@.categories[orig.id@].owners,
                        ..orig@
                    }));
                    assert(self@ =~= (StoreView {
                        categories: upsert_shared(old(self)@.categories, orig@),
                        ..old(self)@
                    }));
                }
            },
            None => {
                let ghost prev = self.device_categories@;
                self.device_categories.push(category);
                proof {
                    lemma_record_map_push(prev, orig);
                    assert(records_nodup(self.device_categories@)) by {
                        assert(forall|a: int|
                            0 <= a < prev.len()
                                ==> self.device_categories@[a].key() == prev[a].key());
                    }
                    assert(self@ =~= (StoreView {
                        categories: upsert_shared(old(self)@.categories, orig@),
                        ..old(self)@
                    }));
                }
            },
        }
    }

    /// Adds a device to the store, merging it with an existing record if
    /// needed, in the same way as a shared entity.
    pub fn add_device(&mut self, device: Device)
        requires
            old(self).wf(),
            device.wf(),
        ensures
            final(self).wf(),
            final(self)@ == (StoreView {
                devices: upsert_device(old(self)@.devices, device@),
                ..old(self)@
            }),
    {
        let ghost orig = device;
        let mut device = device;
        proof {
            lemma_record_map_contains(self.devices@, orig.id@);
        }
        match find_device(&self.devices, &device.id) {
            Some(i) => {
                let existing = self.devices[i].clone();
                proof {
                    lemma_record_map_index(self.devices@, i as int);
                }
                device.merge(existing);
                let ghost prev = self.devices@;
                let ghost merged = device;
                self.devices.set(i, device);
                proof {
                    lemma_record_map_update(prev, i as int, merged);
                    assert(old(self)@.devices[orig.id@] == prev[i as int]@);
                    assert(merged@ =~= (DeviceView {
                        owners: orig@.owners + old(self)@.devices[orig.id@].owners,
                        ..orig@
                    }));
                    assert(self@ =~= (StoreView {
                        devices: upsert_device(old(self)@.devices, orig@),
                        ..old(self)@
                    }));
                }
            },
            None => {
                let ghost prev = self.devices@;
                self.devices.push(device);
                proof {
                    lemma_record_map_push(prev, orig);
                    assert(records_nodup(self.devices@)) by {
                        assert(forall|a: int|
                            0 <= a < prev.len() ==> self.devices@[a].key() == prev[a].key());
                    }
                    assert(self@ =~= (StoreView {
                        devices: upsert_device(old(self)@.devices, orig@),
                        ..old(self)@
                    }));
                }
            },
        }
    }

    /// Removes the device manufacturer with the given ID, if it exists.
    pub fn remove_device_manufacturer(&mut self, id: &DeviceManufacturerUniqueID)
        requires
            old(self).wf(),
        ensures
            final(self).wf(),
            final(self)@ == (StoreView {
                manufacturers: old(self)@.manufacturers.remove(id@),
                ..old(self)@
            }),
    {
        proof {
            lemma_record_map_contains(self.device_manufacturers@, id@);
        }
        match find_manufacturer(&self.device_manufacturers, id) {
            Some(i) => {
                let ghost prev = self.device_manufacturers@;
                self.device_manufacturers.remove(i);
                proof {
                    lemma_record_map_remove(prev, i as int);
                    assert(self@ =~= (StoreView {
                        manufacturers: old(self)@.manufacturers.remove(id@),
                        ..old(self)@
                    }));
                }
            },
            None => {
                proof {
                    assert(old(self)@.manufacturers.remove(id@) =~= old(self)@.manufacturers);
                    assert(self@ =~= (StoreView {
                        manufacturers: old(self)@.manufacturers.remove(id@),
                        ..old(self)@
                    }));
                }
            },
        }
    }

    /// Removes the device category with the given ID, if it exists.
    pub fn remove_device_category(&mut self, id: &DeviceCategoryUniqueID)
        requires
            old(self).wf(),
        ensures
            final(self).wf(),
            final(self)@ == (StoreView {
                categories: old(self)@.categories.remove(id@),
                ..old(self)@
            }),
    {
        proof {
            lemma_record_map_contains(self.device_categories@, id@);
        }
        match find_category(&self.device_categories, id) {
            Some(i) => {
                let ghost prev = self.device_categories@;
                self.device_categories.remove(i);
                proof {
                    lemma_record_map_remove(prev, i as int);
                    assert(self@ =~= (StoreView {
                        categories: old(self)@.categories.remove(id@),
                        ..old(self)@
                    }));
                }
            },
            None => {
                proof {
                    assert(old(self)@.categories.remove(id@) =~= old(self)@.categories);
                    assert(self@ =~= (StoreView {
                        categories: old(self)@.categories.remove(id@),
                        ..old(self)@
                    }));
                }
            },
        }
    }

    /// Removes the device with the given ID, if it exists.
    pub fn remove_device(&mut self, id: &DeviceUniqueID)
        requires
            old(self).wf(),
        ensures
            final(self).wf(),
            final(self)@ == (StoreView { devices: old(self)@.devices.remove(id@), ..old(self)@ }),
    {
        proof {
            lemma_record_map_contains(self.devices@, id@);
        }
        match find_device(&self.devices, id) {
            Some(i) => {
                let ghost prev = self.devices@;
                self.devices.remove(i);
                proof {
                    lemma_record_map_remove(prev, i as int);
                    assert(self@ =~= (StoreView {
                        devices: old(self)@.devices.remove(id@),
                        ..old(self)@
                    }));
                }
            },
            None => {
                proof {
                    assert(old(self)@.devices.remove(id@) =~= old(self)@.devices);
                    assert(self@ =~= (StoreView {
                        devices: old(self)@.devices.remove(id@),
                        ..old(self)@
                    }));
                }
            },
        }
    }
}

impl InventoryStore {
    /// Loads the contents of an inventory extension into the store: its
    /// metadata record is created, and every contributed entity is merged
    /// into its table.
    pub fn load_extension(&mut self, extension: InventoryExtension)
        requires
            old(self).wf(),
            extension.wf(),
            !old(self)@.extensions.dom().contains(extension.metadata.id@),
        ensures
            final(self).wf(),
            final(self)@ == spec_load_extension(old(self)@, extension@),
    {
        proof {
            lemma_record_map_contains(self.extensions@, extension.metadata.id@);
        }
        let ghost prev_meta = self.extensions@;
        self.extensions.push(extension.metadata.clone());
        proof {
            lemma_record_map_push(prev_meta, extension.metadata);
            assert(records_nodup(self.extensions@)) by {
                assert(forall|a: int|
                    0 <= a < prev_meta.len() ==> self.extensions@[a].key() == prev_meta[a].key());
                assert(forall|a: int|
                    0 <= a < prev_meta.len() ==> prev_meta[a].key() != extension.metadata.id@);
            }
        }
        let ghost mid = self@;
        let n_cat = extension.device_categories.len();
        let mut i: usize = 0;
        while i < n_cat
            invariant
                n_cat == extension.device_categories@.len(),
                i <= n_cat,
                self.wf(),
                extension.wf(),
                self@.extensions == mid.extensions,
                self@.manufacturers == mid.manufacturers,
                self@.devices == mid.devices,
                self@.protected == mid.protected,
                load_shared_from(mid.categories, extension@.categories, 0) == load_shared_from(
                    self@.categories,
                    extension@.categories,
                    i as int,
                ),
            decreases n_cat - i,
        {
            let entry = extension.device_categories[i].clone();
            proof {
                assert(sole_owner(entry.extensions@, extension.metadata.id@));
                assert(entry@ == extension@.categories[i as int]);
            }
            self.add_device_category(entry);
            i += 1;
        }
        let n_mfr = extension.device_manufacturers.len();
        let mut i: usize = 0;
        while i < n_mfr
            invariant
                n_mfr == extension.device_manufacturers@.len(),
                i <= n_mfr,
                self.wf(),
                extension.wf(),
                self@.extensions == mid.extensions,
                self@.categories == load_shared_from(mid.categories, extension@.categories, 0),
                self@.devices == mid.devices,
                self@.protected == mid.protected,
                load_shared_from(mid.manufacturers, extension@.manufacturers, 0)
                    == load_shared_from(self@.manufacturers, extension@.manufacturers, i as int),
            decreases n_mfr - i,
        {
            let entry = extension.device_manufacturers[i].clone();
            proof {
                assert(sole_owner(entry.extensions@, extension.metadata.id@));
                assert(entry@ == extension@.manufacturers[i as int]);
            }
            self.add_device_manufacturer(entry);
            i += 1;
        }
        let n_dev = extension.devices.len();
        let mut i: usize = 0;
        while i < n_dev
            invariant
                n_dev == extension.devices@.len(),
                i <= n_dev,
                self.wf(),
                extension.wf(),
                self@.extensions == mid.extensions,
                self@.categories == load_shared_from(mid.categories, extension@.categories, 0),
                self@.manufacturers == load_shared_from(
                    mid.manufacturers,
                    extension@.manufacturers,
                    0,
                ),
                self@.protected == mid.protected,
                load_devices_from(mid.devices, extension@.devices, 0) == load_devices_from(
                    self@.devices,
                    extension@.devices,
                    i as int,
                ),
            decreases n_dev - i,
        {
            let entry = extension.devices[i].clone();
            proof {
                assert(sole_owner(entry.extensions@, extension.metadata.id@));
                assert(entry@ == extension@.devices[i as int]);
            }
            self.add_device(entry);
            i += 1;
        }
        proof {
            assert(self@ =~= spec_load_extension(old(self)@, extension@));
        }
    }

    /// Removes an extension and its contents from the store: the entities it
    /// solely owns are deleted, its ownership of shared entities is revoked,
    /// and its metadata record is deleted. Fails without applying anything if
    /// the extension is protected.
    pub fn unload_extension(&mut self, extension_id: &InventoryExtensionUniqueID) -> (r: Result<
        (),
        StoreError,
    >)
        requires
            old(self).wf(),
        ensures
            final(self).wf(),
            old(self)@.protected.contains(extension_id@) ==> (r == Err::<(), StoreError>(
                StoreError::ProtectedExtension,
            ) && final(self)@ == old(self)@),
            !old(self)@.protected.contains(extension_id@) ==> (r == Ok::<(), StoreError>(())
                && final(self)@ == spec_unload(old(self)@, extension_id@)),
    {
        if owners_contain(&self.protected_extensions, extension_id) {
            return Err(StoreError::ProtectedExtension);
        }
        proof {
            lemma_record_map_contains(self.extensions@, extension_id@);
        }
        match find_extension(&self.extensions, extension_id) {
            Some(i) => {
                let ghost prev = self.extensions@;
                self.extensions.remove(i);
                proof {
                    lemma_record_map_remove(prev, i as int);
                }
            },
            None => {
                proof {
                    assert(record_map(self.extensions@).remove(extension_id@) =~= record_map(
                        self.extensions@,
                    ));
                }
            },
        }
        let stripped_manufacturers = unload_manufacturers(&self.device_manufacturers, extension_id);
        self.device_manufacturers = stripped_manufacturers;
        let stripped_categories = unload_categories(&self.device_categories, extension_id);
        self.device_categories = stripped_categories;
        let stripped_devices = unload_devices(&self.devices, extension_id);
        self.devices = stripped_devices;
        proof {
            assert(self@ =~= spec_unload(old(self)@, extension_id@));
        }
        Ok(())
    }

    /// Removes the extension corresponding to the ID of the given extension,
    /// and loads the given extension in its place. Fails without applying
    /// anything if the extension is protected.
    pub fn reload_extension(&mut self, extension: InventoryExtension) -> (r: Result<
        (),
        StoreError,
    >)
        requires
            old(self).wf(),
            extension.wf(),
        ensures
            final(self).wf(),
            old(self)@.protected.contains(extension.metadata.id@) ==> (r == Err::<(), StoreError>(
                StoreError::ProtectedExtension,
            ) && final(self)@ == old(self)@),
            !old(self)@.protected.contains(extension.metadata.id@) ==> (r == Ok::<(), StoreError>(
                (),
            ) && final(self)@ == spec_load_extension(
                spec_unload(old(self)@, extension.metadata.id@),
                extension@,
            )),
    {
        self.unload_extension(&extension.metadata.id)?;
        self.load_extension(extension);
        Ok(())
    }
}

/// Whether a shared-entity table holds a record matching the given contributed
/// entity: same key, same display name, owned by the contributing extension,
/// and - when `exclusive` - owned by it alone.
pub open spec fn shared_entity_present(
    m: Map<Seq<char>, SharedEntityView>,
    e: SharedEntityView,
    exid: Seq<char>,
    exclusive: bool,
) -> bool {
    &&& m.dom().contains(e.id)
    &&& m[e.id].display_name == e.display_name
    &&& m[e.id].owners.contains(exid)
    &&& (exclusive ==> m[e.id].owners == set![exid])
}

/// Whether the device table holds a record matching the given contributed
/// device.
pub open spec fn device_present(
    m: Map<Seq<char>, DeviceView>,
    e: DeviceView,
    exid: Seq<char>,
    exclusive: bool,
) -> bool {
    &&& m.dom().contains(e.id)
    &&& m[e.id].display_name == e.display_name
    &&& m[e.id].manufacturer == e.manufacturer
    &&& m[e.id].category == e.category
    &&& m[e.id].owners.contains(exid)
    &&& (exclusive ==> m[e.id].owners == set![exid])
}

/// Whether the store holds the given extension and its contents: its metadata
/// record and a matching record for every contributed entity. When `exclusive`
/// the store must hold no other extension and every matched entity must be
/// solely owned.
pub open spec fn spec_contains_extension(v: StoreView, e: ExtensionView, exclusive: bool) -> bool {
    &&& (exclusive ==> v.extensions.dom().finite() && v.extensions.dom().len() == 1)
    &&& v.extensions.dom().contains(e.metadata.id)
    &&& v.extensions[e.metadata.id] == e.metadata
    &&& forall|i: int|
        0 <= i < e.manufacturers.len() ==> shared_entity_present(
            v.manufacturers,
            #[trigger] e.manufacturers[i],
            e.metadata.id,
            exclusive,
        )
    &&& forall|i: int|
        0 <= i < e.categories.len() ==> shared_entity_present(
            v.categories,
            #[trigger] e.categories[i],
            e.metadata.id,
            exclusive,
        )
    &&& forall|i: int|
        0 <= i < e.devices.len() ==> device_present(
            v.devices,
            #[trigger] e.devices[i],
            e.metadata.id,
            exclusive,
        )
}

impl InventoryStore {
    /// Checks that the store contains the given extension and its contents:
    /// its metadata record and, for every contributed entity, a record with
    /// the same identifier and display name owned by this extension. With
    /// `exclusive`, the store must hold no other extension and each matched
    /// entity must be owned by this extension alone.
    pub fn contains(&self, extension: &InventoryExtension, exclusive: bool) -> (r: bool)
        requires
            self.wf(),
        ensures
            r == spec_contains_extension(self@, extension@, exclusive),
    {
        proof {
            lemma_record_map_len(self.extensions@);
        }
        if exclusive && self.extensions.len() != 1 {
            return false;
        }
        proof {
            lemma_record_map_contains(self.extensions@, extension.metadata.id@);
        }
        let meta_ok = match find_extension(&self.extensions, &extension.metadata.id) {
            Some(i) => {
                proof {
                    lemma_record_map_index(self.extensions@, i as int);
                }
                self.extensions[i] == extension.metadata
            },
            None => false,
        };
        if !meta_ok {
            return false;
        }
        let n_mfr = extension.device_manufacturers.len();
        let mut i: usize = 0;
        while i < n_mfr
            invariant
                self.wf(),
                n_mfr == extension.device_manufacturers@.len(),
                i <= n_mfr,
                exclusive ==> self@.extensions.dom().finite() && self@.extensions.dom().len()
                    == 1,
                self@.extensions.dom().contains(extension@.metadata.id),
                self@.extensions[extension@.metadata.id] == extension@.metadata,
                forall|j: int|
                    0 <= j < i ==> shared_entity_present(
                        self@.manufacturers,
                        #[trigger] extension@.manufacturers[j],
                        extension@.metadata.id,
                        exclusive,
                    ),
            decreases n_mfr - i,
        {
            let entity = &extension.device_manufacturers[i];
            proof {
                lemma_record_map_contains(self.device_manufacturers@, entity.id@);
            }
            let ok = match find_manufacturer(&self.device_manufacturers, &entity.id) {
                Some(k) => {
                    proof {
                        lemma_record_map_index(self.device_manufacturers@, k as int);
                        lemma_sole_owner_test(
                            self.device_manufacturers@[k as int].extensions@,
                            extension.metadata.id@,
                        );
                    }
                    let rec = &self.device_manufacturers[k];
                    let matched = rec.display_name == entity.display_name
                        && owners_contain(&rec.extensions, &extension.metadata.id)
                        && (!exclusive || rec.extensions.len() == 1);
                    proof {
                        if matched && exclusive {
                            let a = choose|a: int|
                                0 <= a < rec.extensions@.len() && rec.extensions@[a]@
                                    == extension.metadata.id@;
                            assert(a == 0);
                        }
                        if matched {
                            assert(shared_entity_present(
                                self@.manufacturers,
                                extension@.manufacturers[i as int],
                                extension@.metadata.id,
                                exclusive,
                            ));
                        } else {
                            assert(!shared_entity_present(
                                self@.manufacturers,
                                extension@.manufacturers[i as int],
                                extension@.metadata.id,
                                exclusive,
                            ));
                        }
                    }
                    matched
                },
                None => {
                    proof {
                        assert(!shared_entity_present(
                            self@.manufacturers,
                            extension@.manufacturers[i as int],
                            extension@.metadata.id,
                            exclusive,
                        ));
                    }
                    false
                },
            };
            if !ok {
                return false;
            }
            i += 1;
        }
        let n_cat = extension.device_categories.len();
        let mut i: usize = 0;
        while i < n_cat
            invariant
                self.wf(),
                n_cat == extension.device_categories@.len(),
                i <= n_cat,
                exclusive ==> self@.extensions.dom().finite() && self@.extensions.dom().len()
                    == 1,
                self@.extensions.dom().contains(extension@.metadata.id),
                self@.extensions[extension@.metadata.id] == extension@.metadata,
                forall|j: int|
                    0 <= j < extension@.manufacturers.len() ==> shared_entity_present(
                        self@.manufacturers,
                        #[trigger] extension@.manufacturers[j],
                        extension@.metadata.id,
                        exclusive,
                    ),
                forall|j: int|
                    0 <= j < i ==> shared_entity_present(
                        self@.categories,
                        #[trigger] extension@.categories[j],
                        extension@.metadata.id,
                        exclusive,
                    ),
            decreases n_cat - i,
        {
            let entity = &extension.device_categories[i];
            proof {
                lemma_record_map_contains(self.device_categories@, entity.id@);
            }
            let ok = match find_category(&self.device_categories, &entity.id) {
                Some(k) => {
                    proof {
                        lemma_record_map_index(self.device_categories@, k as int);
                        lemma_sole_owner_test(
                            self.device_categories@[k as int].extensions@,
                            extension.metadata.id@,
                        );
                    }
                    let rec = &self.device_categories[k];
                    let matched = rec.display_name == entity.display_name
                        && owners_contain(&rec.extensions, &extension.metadata.id)
                        && (!exclusive || rec.extensions.len() == 1);
                    proof {
                        if matched && exclusive {
                            let a = choose|a: int|
                                0 <= a < rec.extensions@.len() && rec.extensions@[a]@
                                    == extension.metadata.id@;
                            assert(a == 0);
                        }
                        if matched {
                            assert(shared_entity_present(
                                self@.categories,
                                extension@.categories[i as int],
                                extension@.metadata.id,
                                exclusive,
                            ));
                        } else {
                            assert(!shared_entity_present(
                                self@.categories,
                                extension@.categories[i as int],
                                extension@.metadata.id,
                                exclusive,
                            ));
                        }
                    }
                    matched
                },
                None => {
                    proof {
                        assert(!shared_entity_present(
                            self@.categories,
                            extension@.categories[i as int],
                            extension@.metadata.id,
                            exclusive,
                        ));
                    }
                    false
                },
            };
            if !ok {
                return false;
            }
            i += 1;
        }
        let n_dev = extension.devices.len();
        let mut i: usize = 0;
        while i < n_dev
            invariant
                self.wf(),
                n_dev == extension.devices@.len(),
                i <= n_dev,
                exclusive ==> self@.extensions.dom().finite() && self@.extensions.dom().len()
                    == 1,
                self@.extensions.dom().contains(extension@.metadata.id),
                self@.extensions[extension@.metadata.id] == extension@.metadata,
                forall|j: int|
                    0 <= j < extension@.manufacturers.len() ==> shared_entity_present(
                        self@.manufacturers,
                        #[trigger] extension@.manufacturers[j],
                        extension@.metadata.id,
                        exclusive,
                    ),
                forall|j: int|
                    0 <= j < extension@.categories.len() ==> shared_entity_present(
                        self@.categories,
                        #[trigger] extension@.categories[j],
                        extension@.metadata.id,
                        exclusive,
                    ),
                forall|j: int|
                    0 <= j < i ==> device_present(
                        self@.devices,
                        #[trigger] extension@.devices[j],
                        extension@.metadata.id,
                        exclusive,
                    ),
            decreases n_dev - i,
        {
            let entity = &extension.devices[i];
            proof {
                lemma_record_map_contains(self.devices@, entity.id@);
            }
            let ok = match find_device(&self.devices, &entity.id) {
                Some(k) => {
                    proof {
                        lemma_record_map_index(self.devices@, k as int);
                        lemma_sole_owner_test(
                            self.devices@[k as int].extensions@,
                            extension.metadata.id@,
                        );
                    }
                    let rec = &self.devices[k];
                    let matched = rec.display_name == entity.display_name
                        && rec.manufacturer == entity.manufacturer
                        && rec.category == entity.category
                        && owners_contain(&rec.extensions, &extension.metadata.id)
                        && (!exclusive || rec.extensions.len() == 1);
                    proof {
                        if matched && exclusive {
                            let a = choose|a: int|
                                0 <= a < rec.extensions@.len() && rec.extensions@[a]@
                                    == extension.metadata.id@;
                            assert(a == 0);
                        }
                        if matched {
                            assert(device_present(
                                self@.devices,
                                extension@.devices[i as int],
                                extension@.metadata.id,
                                exclusive,
                            ));
                        } else {
                            assert(!device_present(
                                self@.devices,
                                extension@.devices[i as int],
                                extension@.metadata.id,
                                exclusive,
                            ));
                        }
                    }
                    matched
                },
                None => {
                    proof {
                        assert(!device_present(
                            self@.devices,
                            extension@.devices[i as int],
                            extension@.metadata.id,
                            exclusive,
                        ));
                    }
                    false
                },
            };
            if !ok {
                return false;
            }
            i += 1;
        }
        true
    }

    /// Lists all the device manufacturers in the store.
    pub fn list_device_manufacturers(&self) -> (r: Vec<DeviceManufacturer>)
        requires
            self.wf(),
        ensures
            records_nodup(r@),
            record_map(r@) == self@.manufacturers,
    {
        let mut r: Vec<DeviceManufacturer> = Vec::new();
        let n = self.device_manufacturers.len();
        let mut i: usize = 0;
        while i < n
            invariant
                n == self.device_manufacturers@.len(),
                i <= n,
                r@.len() == i,
                forall|j: int|
                    0 <= j < i ==> (#[trigger] r@[j]).key() == self.device_manufacturers@[j].key()
                        && r@[j]@ == self.device_manufacturers@[j]@,
            decreases n - i,
        {
            r.push(self.device_manufacturers[i].clone());
            i += 1;
        }
        proof {
            lemma_record_map_congruence(r@, self.device_manufacturers@);
            assert(records_nodup(r@)) by {
                assert(forall|a: int, b: int|
                    0 <= a < b < r@.len() ==> r@[a].key() == self.device_manufacturers@[a].key()
                        && r@[b].key() == self.device_manufacturers@[b].key());
            }
        }
        r
    }

    /// Lists all the device categories in the store.
    pub fn list_device_categories(&self) -> (r: Vec<DeviceCategory>)
        requires
            self.wf(),
        ensures
            records_nodup(r@),
            record_map(r@) == self@.categories,
    {
        let mut r: Vec<DeviceCategory> = Vec::new();
        let n = self.device_categories.len();
        let mut i: usize = 0;
        while i < n
            invariant
                n == self.device_categories@.len(),
                i <= n,
                r@.len() == i,
                forall|j: int|
                    0 <= j < i ==> (#[trigger] r@[j]).key() == self.device_categories@[j].key()
                        && r@[j]@ == self.device_categories@[j]@,
            decreases n - i,
        {
            r.push(self.device_categories[i].clone());
            i += 1;
        }
        proof {
            lemma_record_map_congruence(r@, self.device_categories@);
            assert(records_nodup(r@)) by {
                assert(forall|a: int, b: int|
                    0 <= a < b < r@.len() ==> r@[a].key() == self.device_categories@[a].key()
                        && r@[b].key() == self.device_categories@[b].key());
            }
        }
        r
    }

    /// Lists all the devices in the store.
    pub fn list_devices(&self) -> (r: Vec<Device>)
        requires
            self.wf(),
        ensures
            records_nodup(r@),
            record_map(r@) == self@.devices,
    {
        let mut r: Vec<Device> = Vec::new();
        let n = self.devices.len();
        let mut i: usize = 0;
        while i < n
            invariant
                n == self.devices@.len(),
                i <= n,
                r@.len() == i,
                forall|j: int|
                    0 <= j < i ==> (#[trigger] r@[j]).key() == self.devices@[j].key() && r@[j]@
                        == self.devices@[j]@,
            decreases n - i,
        {
            r.push(self.devices[i].clone());
            i += 1;
        }
        proof {
            lemma_record_map_congruence(r@, self.devices@);
            assert(records_nodup(r@)) by {
                assert(forall|a: int, b: int|
                    0 <= a < b < r@.len() ==> r@[a].key() == self.devices@[a].key() && r@[b].key()
                        == self.devices@[b].key());
            }
        }
        r
    }
}

/// Returns the given owner list with the given extension removed.
fn remove_owner(v: &Vec<InventoryExtensionUniqueID>, xid: &InventoryExtensionUniqueID) -> (r: Vec<
    InventoryExtensionUniqueID,
>)
    requires
        owners_nodup(v@),
    ensures
        owners_nodup(r@),
        owner_set(r@) == owner_set(v@).remove(xid@),
        r@.len() + 1 >= v@.len(),
        !owner_set(v@).contains(xid@) ==> r@ == v@,
{
    match find_owner(v, xid) {
        Some(i) => {
            let mut r = clone_owner_list(v);
            r.remove(i);
            proof {
                lemma_owner_set_remove_at(v@, i as int);
            }
            r
        },
        None => {
            let r = clone_owner_list(v);
            proof {
                assert(owner_set(v@).remove(xid@) =~= owner_set(v@));
            }
            r
        },
    }
}

/// Finds the position of the given extension in an owner list, if any.
fn find_owner(v: &Vec<InventoryExtensionUniqueID>, id: &InventoryExtensionUniqueID) -> (r: Option<
    usize,
>)
    ensures
        (r matches Some(i) ==> i < v@.len() && v@[i as int]@ == id@),
        (r is None ==> !owner_set(v@).contains(id@)),
{
    let n = v.len();
    let mut i: usize = 0;
    while i < n
        invariant
            n == v@.len(),
            i <= n,
            forall|j: int| 0 <= j < i ==> v@[j]@ != id@,
        decreases n - i,
    {
        if v[i] == *id {
            return Some(i);
        }
        i += 1;
    }
    None
}

/// The records that remain in the manufacturer table when the given extension
/// is unloaded, with its ownership revoked.
fn unload_manufacturers(v: &Vec<DeviceManufacturer>, xid: &InventoryExtensionUniqueID) -> (r: Vec<
    DeviceManufacturer,
>)
    requires
        records_nodup(v@),
        forall|i: int| 0 <= i < v@.len() ==> (#[trigger] v@[i]).wf(),
    ensures
        records_nodup(r@),
        forall|i: int| 0 <= i < r@.len() ==> (#[trigger] r@[i]).wf(),
        record_map(r@) == spec_unload_shared(record_map(v@), xid@),
{
    let mut r: Vec<DeviceManufacturer> = Vec::new();
    let n = v.len();
    let mut i: usize = 0;
    while i < n
        invariant
            n == v@.len(),
            i <= n,
            records_nodup(v@),
            forall|l: int| 0 <= l < v@.len() ==> (#[trigger] v@[l]).wf(),
            records_nodup(r@),
            forall|j: int| 0 <= j < r@.len() ==> (#[trigger] r@[j]).wf(),
            forall|j: int| 0 <= j < r@.len() ==> has_record(v@.take(i as int), (#[trigger] r@[j]).key()),
            record_map(r@) == spec_unload_shared(record_map(v@.take(i as int)), xid@),
        decreases n - i,
    {
        let ghost prefix = v@.take(i as int);
        proof {
            assert(v@.take(i + 1).drop_last() =~= prefix);
            assert(v@.take(i + 1).last() == v@[i as int]);
            lemma_record_map_contains(prefix, v@[i as int].key());
            assert(!has_record(prefix, v@[i as int].key())) by {
                assert(forall|a: int| 0 <= a < i ==> prefix[a].key() == v@[a].key());
            }
            lemma_unload_shared_insert(record_map(prefix), v@[i as int]@, xid@);
            lemma_sole_owner_test(v@[i as int].extensions@, xid@);
        }
        let sole = v[i].extensions.len() == 1 && v[i].extensions[0] == *xid;
        if !sole {
            let kept = DeviceManufacturer {
                id: v[i].id.clone(),
                display_name: v[i].display_name.clone(),
                extensions: remove_owner(&v[i].extensions, xid),
            };
            proof {
                assert(kept.wf()) by {
                    if v@[i as int].extensions@.len() == 1 {
                        assert(!owner_set(v@[i as int].extensions@).contains(xid@)) by {
                            if owner_set(v@[i as int].extensions@).contains(xid@) {
                                let a = choose|a: int|
                                    0 <= a < v@[i as int].extensions@.len()
                                        && v@[i as int].extensions@[a]@ == xid@;
                                assert(a == 0);
                            }
                        }
                    }
                }
                assert(kept@ =~= strip_owner_shared(v@[i as int]@, xid@));
            }
            let ghost prev_r = r@;
            r.push(kept);
            proof {
                lemma_record_map_push(prev_r, r@.last());
                assert(records_nodup(r@)) by {
                    assert(forall|a: int| 0 <= a < prev_r.len() ==> r@[a].key() == prev_r[a].key());
                    assert forall|a: int| 0 <= a < prev_r.len() implies prev_r[a].key()
                        != v@[i as int].key() by {
                        let l = choose|l: int|
                            0 <= l < prefix.len() && prefix[l].key() == prev_r[a].key();
                        assert(v@[l].key() == prev_r[a].key());
                    }
                }
                assert forall|j: int| 0 <= j < r@.len() implies has_record(
                    v@.take(i + 1),
                    (#[trigger] r@[j]).key(),
                ) by {
                    if j < prev_r.len() {
                        let l = choose|l: int|
                            0 <= l < prefix.len() && prefix[l].key() == prev_r[j].key();
                        assert(v@.take(i + 1)[l].key() == r@[j].key());
                    } else {
                        assert(v@.take(i + 1)[i as int].key() == r@[j].key());
                    }
                }
            }
        } else {
            proof {
                assert forall|j: int| 0 <= j < r@.len() implies has_record(
                    v@.take(i + 1),
                    (#[trigger] r@[j]).key(),
                ) by {
                    let l = choose|l: int|
                        0 <= l < prefix.len() && prefix[l].key() == r@[j].key();
                    assert(v@.take(i + 1)[l].key() == r@[j].key());
                }
            }
        }
        i += 1;
    }
    proof {
        assert(v@.take(n as int) =~= v@);
    }
    r
}

/// The records that remain in the category table when the given extension is
/// unloaded, with its ownership revoked.
fn unload_categories(v: &Vec<DeviceCategory>, xid: &InventoryExtensionUniqueID) -> (r: Vec<
    DeviceCategory,
>)
    requires
        records_nodup(v@),
        forall|i: int| 0 <= i < v@.len() ==> (#[trigger] v@[i]).wf(),
    ensures
        records_nodup(r@),
        forall|i: int| 0 <= i < r@.len() ==> (#[trigger] r@[i]).wf(),
        record_map(r@) == spec_unload_shared(record_map(v@), xid@),
{
    let mut r: Vec<DeviceCategory> = Vec::new();
    let n = v.len();
    let mut i: usize = 0;
    while i < n
        invariant
            n == v@.len(),
            i <= n,
            records_nodup(v@),
            forall|l: int| 0 <= l < v@.len() ==> (#[trigger] v@[l]).wf(),
            records_nodup(r@),
            forall|j: int| 0 <= j < r@.len() ==> (#[trigger] r@[j]).wf(),
            forall|j: int| 0 <= j < r@.len() ==> has_record(v@.take(i as int), (#[trigger] r@[j]).key()),
            record_map(r@) == spec_unload_shared(record_map(v@.take(i as int)), xid@),
        decreases n - i,
    {
        let ghost prefix = v@.take(i as int);
        proof {
            assert(v@.take(i + 1).drop_last() =~= prefix);
            assert(v@.take(i + 1).last() == v@[i as int]);
            lemma_record_map_contains(prefix, v@[i as int].key());
            assert(!has_record(prefix, v@[i as int].key())) by {
                assert(forall|a: int| 0 <= a < i ==> prefix[a].key() == v@[a].key());
            }
            lemma_unload_shared_insert(record_map(prefix), v@[i as int]@, xid@);
            lemma_sole_owner_test(v@[i as int].extensions@, xid@);
        }
        let sole = v[i].extensions.len() == 1 && v[i].extensions[0] == *xid;
        if !sole {
            let kept = DeviceCategory {
                id: v[i].id.clone(),
                display_name: v[i].display_name.clone(),
                extensions: remove_owner(&v[i].extensions, xid),
            };
            proof {
                assert(kept.wf()) by {
                    if v@[i as int].extensions@.len() == 1 {
                        assert(!owner_set(v@[i as int].extensions@).contains(xid@)) by {
                            if owner_set(v@[i as int].extensions@).contains(xid@) {
                                let a = choose|a: int|
                                    0 <= a < v@[i as int].extensions@.len()
                                        && v@[i as int].extensions@[a]@ == xid@;
                                assert(a == 0);
                            }
                        }
                    }
                }
                assert(kept@ =~= strip_owner_shared(v@[i as int]@, xid@));
            }
            let ghost prev_r = r@;
            r.push(kept);
            proof {
                lemma_record_map_push(prev_r, r@.last());
                assert(records_nodup(r@)) by {
                    assert(forall|a: int| 0 <= a < prev_r.len() ==> r@[a].key() == prev_r[a].key());
                    assert forall|a: int| 0 <= a < prev_r.len() implies prev_r[a].key()
                        != v@[i as int].key() by {
                        let l = choose|l: int|
                            0 <= l < prefix.len() && prefix[l].key() == prev_r[a].key();
                        assert(v@[l].key() == prev_r[a].key());
                    }
                }
                assert forall|j: int| 0 <= j < r@.len() implies has_record(
                    v@.take(i + 1),
                    (#[trigger] r@[j]).key(),
                ) by {
                    if j < prev_r.len() {
                        let l = choose|l: int|
                            0 <= l < prefix.len() && prefix[l].key() == prev_r[j].key();
                        assert(v@.take(i + 1)[l].key() == r@[j].key());
                    } else {
                        assert(v@.take(i + 1)[i as int].key() == r@[j].key());
                    }
                }
            }
        } else {
            proof {
                assert forall|j: int| 0 <= j < r@.len() implies has_record(
                    v@.take(i + 1),
                    (#[trigger] r@[j]).key(),
                ) by {
                    let l = choose|l: int|
                        0 <= l < prefix.len() && prefix[l].key() == r@[j].key();
                    assert(v@.take(i + 1)[l].key() == r@[j].key());
                }
            }
        }
        i += 1;
    }
    proof {
        assert(v@.take(n as int) =~= v@);
    }
    r
}

/// The records that remain in the device table when the given extension is
/// unloaded, with its ownership revoked.
fn unload_devices(v: &Vec<Device>, xid: &InventoryExtensionUniqueID) -> (r: Vec<Device>)
    requires
        records_nodup(v@),
        forall|i: int| 0 <= i < v@.len() ==> (#[trigger] v@[i]).wf(),
    ensures
        records_nodup(r@),
        forall|i: int| 0 <= i < r@.len() ==> (#[trigger] r@[i]).wf(),
        record_map(r@) == spec_unload_devices(record_map(v@), xid@),
{
    let mut r: Vec<Device> = Vec::new();
    let n = v.len();
    let mut i: usize = 0;
    while i < n
        invariant
            n == v@.len(),
            i <= n,
            records_nodup(v@),
            forall|l: int| 0 <= l < v@.len() ==> (#[trigger] v@[l]).wf(),
            records_nodup(r@),
            forall|j: int| 0 <= j < r@.len() ==> (#[trigger] r@[j]).wf(),
            forall|j: int| 0 <= j < r@.len() ==> has_record(v@.take(i as int), (#[trigger] r@[j]).key()),
            record_map(r@) == spec_unload_devices(record_map(v@.take(i as int)), xid@),
        decreases n - i,
    {
        let ghost prefix = v@.take(i as int);
        proof {
            assert(v@.take(i + 1).drop_last() =~= prefix);
            assert(v@.take(i + 1).last() == v@[i as int]);
            lemma_record_map_contains(prefix, v@[i as int].key());
            assert(!has_record(prefix, v@[i as int].key())) by {
                assert(forall|a: int| 0 <= a < i ==> prefix[a].key() == v@[a].key());
            }
            lemma_unload_devices_insert(record_map(prefix), v@[i as int]@, xid@);
            lemma_sole_owner_test(v@[i as int].extensions@, xid@);
        }
        let sole = v[i].extensions.len() == 1 && v[i].extensions[0] == *xid;
        if !sole {
            let kept = Device {
                id: v[i].id.clone(),
                display_name: v[i].display_name.clone(),
                manufacturer: v[i].manufacturer.clone(),
                category: v[i].category.clone(),
                extensions: remove_owner(&v[i].extensions, xid),
                primary_model_identifiers: clone_model_identifiers(
                    &v[i].primary_model_identifiers,
                ),
                extended_model_identifiers: clone_model_identifiers(
                    &v[i].extended_model_identifiers,
                ),
            };
            proof {
                assert(kept.wf()) by {
                    if v@[i as int].extensions@.len() == 1 {
                        assert(!owner_set(v@[i as int].extensions@).contains(xid@)) by {
                            if owner_set(v@[i as int].extensions@).contains(xid@) {
                                let a = choose|a: int|
                                    0 <= a < v@[i as int].extensions@.len()
                                        && v@[i as int].extensions@[a]@ == xid@;
                                assert(a == 0);
                            }
                        }
                    }
                }
                assert(kept@.primary_model_identifiers
                    =~= v@[i as int]@.primary_model_identifiers);
                assert(kept@.extended_model_identifiers
                    =~= v@[i as int]@.extended_model_identifiers);
                assert(kept@ =~= strip_owner_device(v@[i as int]@, xid@));
            }
            let ghost prev_r = r@;
            r.push(kept);
            proof {
                lemma_record_map_push(prev_r, r@.last());
                assert(records_nodup(r@)) by {
                    assert(forall|a: int| 0 <= a < prev_r.len() ==> r@[a].key() == prev_r[a].key());
                    assert forall|a: int| 0 <= a < prev_r.len() implies prev_r[a].key()
                        != v@[i as int].key() by {
                        let l = choose|l: int|
                            0 <= l < prefix.len() && prefix[l].key() == prev_r[a].key();
                        assert(v@[l].key() == prev_r[a].key());
                    }
                }
                assert forall|j: int| 0 <= j < r@.len() implies has_record(
                    v@.take(i + 1),
                    (#[trigger] r@[j]).key(),
                ) by {
                    if j < prev_r.len() {
                        let l = choose|l: int|
                            0 <= l < prefix.len() && prefix[l].key() == prev_r[j].key();
                        assert(v@.take(i + 1)[l].key() == r@[j].key());
                    } else {
                        assert(v@.take(i + 1)[i as int].key() == r@[j].key());
                    }
                }
            }
        } else {
            proof {
                assert forall|j: int| 0 <= j < r@.len() implies has_record(
                    v@.take(i + 1),
                    (#[trigger] r@[j]).key(),
                ) by {
                    let l = choose|l: int|
                        0 <= l < prefix.len() && prefix[l].key() == r@[j].key();
                    assert(v@.take(i + 1)[l].key() == r@[j].key());
                }
            }
        }
        i += 1;
    }
    proof {
        assert(v@.take(n as int) =~= v@);
    }
    r
}

/// Clones a list of model-identifier strings element by element.
fn clone_model_identifiers(v: &Vec<String>) -> (r: Vec<String>)
    ensures
        r@ == v@,
{
    let mut r: Vec<String> = Vec::new();
    let n = v.len();
    let mut i: usize = 0;
    while i < n
        invariant
            n == v@.len(),
            i <= n,
            r@ == v@.take(i as int),
        decreases n - i,
    {
        r.push(v[i].clone());
        proof {
            assert(r@ =~= v@.take(i + 1));
        }
        i += 1;
    }
    proof {
        assert(v@.take(n as int) =~= v@);
    }
    r
}

/// Finds the position of the metadata record with the given extension ID, if
/// any.
fn find_extension(v: &Vec<InventoryExtensionMetadata>, id: &InventoryExtensionUniqueID) -> (r:
    Option<usize>)
    ensures
        (r matches Some(i) ==> i < v@.len() && v@[i as int].id@ == id@),
        (r is None ==> !has_record(v@, id@)),
{
    let n = v.len();
    let mut i: usize = 0;
    while i < n
        invariant
            n == v@.len(),
            i <= n,
            forall|j: int| 0 <= j < i ==> v@[j].id@ != id@,
        decreases n - i,
    {
        if v[i].id == *id {
            return Some(i);
        }
        i += 1;
    }
    None
}

/// Finds the position of the device category with the given ID, if any.
fn find_category(v: &Vec<DeviceCategory>, id: &DeviceCategoryUniqueID) -> (r: Option<usize>)
    ensures
        (r matches Some(i) ==> i < v@.len() && v@[i as int].id@ == id@),
        (r is None ==> !has_record(v@, id@)),
{
    let n = v.len();
    let mut i: usize = 0;
    while i < n
        invariant
            n == v@.len(),
            i <= n,
            forall|j: int| 0 <= j < i ==> v@[j].id@ != id@,
        decreases n - i,
    {
        if v[i].id == *id {
            return Some(i);
        }
        i += 1;
    }
    None
}

/// Finds the position of the device with the given ID, if any.
fn find_device(v: &Vec<Device>, id: &DeviceUniqueID) -> (r: Option<usize>)
    ensures
        (r matches Some(i) ==> i < v@.len() && v@[i as int].id@ == id@),
        (r is None ==> !has_record(v@, id@)),
{
    let n = v.len();
    let mut i: usize = 0;
    while i < n
        invariant
            n == v@.len(),
            i <= n,
            forall|j: int| 0 <= j < i ==> v@[j].id@ != id@,
        decreases n - i,
    {
        if v[i].id == *id {
            return Some(i);
        }
        i += 1;
    }
    None
}

/// Finds the position of the device manufacturer with the given ID, if any.
fn find_manufacturer(v: &Vec<DeviceManufacturer>, id: &DeviceManufacturerUniqueID) -> (r: Option<
    usize,
>)
    ensures
        (r matches Some(i) ==> i < v@.len() && v@[i as int].id@ == id@),
        (r is None ==> !has_record(v@, id@)),
{
    let n = v.len();
    let mut i: usize = 0;
    while i < n
        invariant
            n == v@.len(),
            i <= n,
            forall|j: int| 0 <= j < i ==> v@[j].id@ != id@,
        decreases n - i,
    {
        if v[i].id == *id {
            return Some(i);
        }
        i += 1;
    }
    None
}

} // verus!
