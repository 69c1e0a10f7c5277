//! The data model: extension metadata, shared entities, and devices.
//!
//! A *shared entity* (device manufacturer or device category) may be claimed
//! by several extensions at once; its `extensions` field lists every extension
//! that currently asserts the entity exists. In specifications that list is
//! abstracted to the set of its identifiers, so that contracts are insensitive
//! to the order in which owners were recorded. A device carries references to
//! its manufacturer and category plus two ordered lists of model identifiers.

use vstd::prelude::*;
use vstd::string::StringExecFns;

use crate::ids::{
    DeviceCategoryUniqueID, DeviceManufacturerUniqueID, DeviceUniqueID,
    InventoryExtensionUniqueID, UniqueID,
};

verus! {

/// A semantic version: the numeric triple plus the pre-release and
/// build-metadata identifiers. Conflict classification only ever compares
/// versions for equality, and equality covers every component.
#[derive(Debug)]
pub struct SemanticVersion {
    pub major: u64,
    pub minor: u64,
    pub patch: u64,
    pub pre: String,
    pub build: String,
}

/// The mathematical model of a semantic version.
#[verifier::ext_equal]
pub struct VersionView {
    pub major: u64,
    pub minor: u64,
    pub patch: u64,
    pub pre: Seq<char>,
    pub build: Seq<char>,
}

impl View for SemanticVersion {
    type V = VersionView;

    open spec fn view(&self) -> VersionView {
        VersionView {
            major: self.major,
            minor: self.minor,
            patch: self.patch,
            pre: self.pre@,
            build: self.build@,
        }
    }
}

impl SemanticVersion {
    /// A plain numeric version with no pre-release or build identifiers.
    pub fn new(major: u64, minor: u64, patch: u64) -> (r: Self)
        ensures
            r@ == (VersionView {
                major,
                minor,
                patch,
                pre: Seq::<char>::empty(),
                build: Seq::<char>::empty(),
            }),
    {
        let r = SemanticVersion { major, minor, patch, pre: String::new(), build: String::new() };
        proof {
            assert(r@ =~= (VersionView {
                major,
                minor,
                patch,
                pre: Seq::<char>::empty(),
                build: Seq::<char>::empty(),
            }));
        }
        r
    }
}

impl Clone for SemanticVersion {
    fn clone(&self) -> (r: Self)
        ensures
            r == *self,
    {
        SemanticVersion {
            major: self.major,
            minor: self.minor,
            patch: self.patch,
            pre: self.pre.clone(),
            build: self.build.clone(),
        }
    }
}

impl PartialEq for SemanticVersion {
    fn eq(&self, other: &Self) -> (r: bool) {
        let r = self.major == other.major && self.minor == other.minor && self.patch
            == other.patch && self.pre == other.pre && self.build == other.build;
        proof {
            if r {
                assert(self@ =~= other@);
            }
        }
        r
    }
}

impl vstd::std_specs::cmp::PartialEqSpecImpl for SemanticVersion {
    open spec fn obeys_eq_spec() -> bool {
        true
    }

    open spec fn eq_spec(&self, other: &Self) -> bool {
        self@ == other@
    }
}

/// The mathematical model of one extension's metadata record.
#[verifier::ext_equal]
pub struct MetadataView {
    pub id: Seq<char>,
    pub display_name: Seq<char>,
    pub version: VersionView,
}

/// The mathematical model of one shared entity record (device manufacturer or
/// device category): its fields with the owning extensions as a set.
#[verifier::ext_equal]
pub struct SharedEntityView {
    pub id: Seq<char>,
    pub display_name: Seq<char>,
    pub owners: Set<Seq<char>>,
}

/// The mathematical model of one device record.
#[verifier::ext_equal]
pub struct DeviceView {
    pub id: Seq<char>,
    pub display_name: Seq<char>,
    pub manufacturer: Seq<char>,
    pub category: Seq<char>,
    pub owners: Set<Seq<char>>,
    pub primary_model_identifiers: Seq<Seq<char>>,
    pub extended_model_identifiers: Seq<Seq<char>>,
}

/// The set of extension identifiers named by an owner list.
pub open spec fn owner_set(v: Seq<InventoryExtensionUniqueID>) -> Set<Seq<char>> {
    Set::new(|s: Seq<char>| exists|i: int| 0 <= i < v.len() && v[i]@ == s)
}

/// No extension identifier occurs twice in an owner list.
pub open spec fn owners_nodup(v: Seq<InventoryExtensionUniqueID>) -> bool {
    forall|i: int, j: int| 0 <= i < j < v.len() ==> v[i]@ != v[j]@
}

/// An owner list that names exactly the one given extension.
pub open spec fn sole_owner(v: Seq<InventoryExtensionUniqueID>, x: Seq<char>) -> bool {
    v.len() == 1 && v[0]@ == x
}

/// An owner list of exactly one element names exactly that owner.
pub proof fn lemma_owner_set_singleton(v: Seq<InventoryExtensionUniqueID>, x: Seq<char>)
    requires
        v.len() == 1,
        v[0]@ == x,
    ensures
        owner_set(v) == set![x],
{
    assert(owner_set(v).contains(x));
    assert(owner_set(v) =~= set![x]);
}

/// A duplicate-free, non-empty owner list names exactly the one given
/// extension precisely when it is the one-element list of that extension.
pub proof fn lemma_sole_owner_test(v: Seq<InventoryExtensionUniqueID>, x: Seq<char>)
    requires
        owners_nodup(v),
        v.len() >= 1,
    ensures
        (owner_set(v) == set![x]) <==> sole_owner(v, x),
{
    if sole_owner(v, x) {
        lemma_owner_set_singleton(v, x);
    }
    if owner_set(v) == set![x] {
        assert(owner_set(v).contains(v[0]@));
        if v.len() >= 2 {
            assert(owner_set(v).contains(v[1]@));
            assert(false);
        }
    }
}

/// Removing one position from a duplicate-free owner list removes exactly that
/// extension from the named set.
pub proof fn lemma_owner_set_remove_at(v: Seq<InventoryExtensionUniqueID>, i: int)
    requires
        owners_nodup(v),
        0 <= i < v.len(),
    ensures
        owners_nodup(v.remove(i)),
        owner_set(v.remove(i)) == owner_set(v).remove(v[i]@),
{
    let u = v.remove(i);
    assert(forall|a: int|
        0 <= a < u.len() ==> u[a] == (if a < i {
            v[a]
        } else {
            v[a + 1]
        }));
    assert(owner_set(u) =~= owner_set(v).remove(v[i]@)) by {
        assert forall|s: Seq<char>| owner_set(u).contains(s) implies owner_set(v).remove(
            v[i]@,
        ).contains(s) by {
            let a = choose|a: int| 0 <= a < u.len() && u[a]@ == s;
            if a < i {
                assert(v[a]@ == s);
            } else {
                assert(v[a + 1]@ == s);
            }
        }
        assert forall|s: Seq<char>| owner_set(v).remove(v[i]@).contains(s) implies owner_set(
            u,
        ).contains(s) by {
            let a = choose|a: int| 0 <= a < v.len() && v[a]@ == s;
            if a < i {
                assert(u[a]@ == s);
            } else {
                assert(a != i);
                assert(u[a - 1]@ == s);
            }
        }
    }
}

/// The metadata of an inventory extension.
/// This does not include the extension contents, such as devices or
/// manufacturers; it is what the conflict classifier compares a staged
/// extension against.
#[derive(Debug)]
pub struct InventoryExtensionMetadata {
    pub id: InventoryExtensionUniqueID,
    pub display_name: String,
    pub version: SemanticVersion,
}

impl View for InventoryExtensionMetadata {
    type V = MetadataView;

    open spec fn view(&self) -> MetadataView {
        MetadataView { id: self.id@, display_name: self.display_name@, version: self.version@ }
    }
}

impl Clone for InventoryExtensionMetadata {
    fn clone(&self) -> (r: Self)
        ensures
            r == *self,
    {
        InventoryExtensionMetadata {
            id: self.id.clone(),
            display_name: self.display_name.clone(),
            version: self.version.clone(),
        }
    }
}

impl PartialEq for InventoryExtensionMetadata {
    fn eq(&self, other: &Self) -> (r: bool) {
        let r = self.id == other.id && self.display_name == other.display_name
            && self.version == other.version;
        proof {
            if r {
                assert(self@ =~= other@);
            }
        }
        r
    }
}

impl vstd::std_specs::cmp::PartialEqSpecImpl for InventoryExtensionMetadata {
    open spec fn obeys_eq_spec() -> bool {
        true
    }

    open spec fn eq_spec(&self, other: &Self) -> bool {
        self@ == other@
    }
}

/// A device manufacturer.
#[derive(Debug)]
pub struct DeviceManufacturer {
    pub id: DeviceManufacturerUniqueID,
    pub display_name: String,
    pub extensions: Vec<InventoryExtensionUniqueID>,
}

impl View for DeviceManufacturer {
    type V = SharedEntityView;

    open spec fn view(&self) -> SharedEntityView {
        SharedEntityView {
            id: self.id@,
            display_name: self.display_name@,
            owners: owner_set(self.extensions@),
        }
    }
}

impl DeviceManufacturer {
    /// The record's owner list names at least one extension and names none
    /// twice.
    pub open spec fn wf(&self) -> bool {
        owners_nodup(self.extensions@) && self.extensions@.len() >= 1
    }
}

/// A category of device, such as a phone, tablet, or gaming console.
#[derive(Debug)]
pub struct DeviceCategory {
    pub id: DeviceCategoryUniqueID,
    pub display_name: String,
    pub extensions: Vec<InventoryExtensionUniqueID>,
}

impl View for DeviceCategory {
    type V = SharedEntityView;

    open spec fn view(&self) -> SharedEntityView {
        SharedEntityView {
            id: self.id@,
            display_name: self.display_name@,
            owners: owner_set(self.extensions@),
        }
    }
}

impl DeviceCategory {
    /// The record's owner list names at least one extension and names none
    /// twice.
    pub open spec fn wf(&self) -> bool {
        owners_nodup(self.extensions@) && self.extensions@.len() >= 1
    }
}

/// A device and all of its relevant metadata, such as its make and model.
#[derive(Debug)]
pub struct Device {
    pub id: DeviceUniqueID,
    pub display_name: String,
    pub manufacturer: DeviceManufacturerUniqueID,
    pub category: DeviceCategoryUniqueID,
    pub extensions: Vec<InventoryExtensionUniqueID>,
    pub primary_model_identifiers: Vec<String>,
    pub extended_model_identifiers: Vec<String>,
}

impl View for Device {
    type V = DeviceView;

    open spec fn view(&self) -> DeviceView {
        DeviceView {
            id: self.id@,
            display_name: self.display_name@,
            manufacturer: self.manufacturer@,
            category: self.category@,
            owners: owner_set(self.extensions@),
            primary_model_identifiers: Seq::new(
                self.primary_model_identifiers@.len(),
                |i: int| self.primary_model_identifiers@[i]@,
            ),
            extended_model_identifiers: Seq::new(
                self.extended_model_identifiers@.len(),
                |i: int| self.extended_model_identifiers@[i]@,
            ),
        }
    }
}

impl Device {
    /// The record's owner list names at least one extension and names none
    /// twice.
    pub open spec fn wf(&self) -> bool {
        owners_nodup(self.extensions@) && self.extensions@.len() >= 1
    }
}

/// Record equality for device manufacturers: every field holds the same
/// value, with owner lists compared element by element.
pub open spec fn manufacturer_records_equal(a: DeviceManufacturer, b: DeviceManufacturer) -> bool {
    &&& a.id == b.id
    &&& a.display_name == b.display_name
    &&& a.extensions@ == b.extensions@
}

/// Record equality for device categories.
pub open spec fn category_records_equal(a: DeviceCategory, b: DeviceCategory) -> bool {
    &&& a.id == b.id
    &&& a.display_name == b.display_name
    &&& a.extensions@ == b.extensions@
}

/// Record equality for devices.
pub open spec fn device_records_equal(a: Device, b: Device) -> bool {
    &&& a.id == b.id
    &&& a.display_name == b.display_name
    &&& a.manufacturer == b.manufacturer
    &&& a.category == b.category
    &&& a.extensions@ == b.extensions@
    &&& a.primary_model_identifiers@ == b.primary_model_identifiers@
    &&& a.extended_model_identifiers@ == b.extended_model_identifiers@
}

/// Clones an owner list element by element.
pub(crate) fn clone_owner_list(v: &Vec<InventoryExtensionUniqueID>) -> (r: Vec<
    InventoryExtensionUniqueID,
>)
    ensures
        r@ == v@,
{
    let mut r: Vec<InventoryExtensionUniqueID> = Vec::new();
    let n = v.len();
    let mut i: usize = 0;
    while i < n
        invariant
            n == v@.len(),
            i <= n,
            r@ == v@.take(i as int),
        decreases n - i,
    {
        r.push(v[i].clone());
        proof {
            assert(r@ =~= v@.take(i + 1));
        }
        i += 1;
    }
    proof {
        assert(v@.take(n as int) =~= v@);
    }
    r
}

/// Clones a list of strings element by element.
fn clone_string_list(v: &Vec<String>) -> (r: Vec<String>)
    ensures
        r@ == v@,
{
    let mut r: Vec<String> = Vec::new();
    let n = v.len();
    let mut i: usize = 0;
    while i < n
        invariant
            n == v@.len(),
            i <= n,
            r@ == v@.take(i as int),
        decreases n - i,
    {
        r.push(v[i].clone());
        proof {
            assert(r@ =~= v@.take(i + 1));
        }
        i += 1;
    }
    proof {
        assert(v@.take(n as int) =~= v@);
    }
    r
}

impl Clone for DeviceManufacturer {
    fn clone(&self) -> (r: Self)
        ensures
            manufacturer_records_equal(r, *self),
            r@ == self@,
    {
        DeviceManufacturer {
            id: self.id.clone(),
            display_name: self.display_name.clone(),
            extensions: clone_owner_list(&self.extensions),
        }
    }
}

impl Clone for DeviceCategory {
    fn clone(&self) -> (r: Self)
        ensures
            category_records_equal(r, *self),
            r@ == self@,
    {
        DeviceCategory {
            id: self.id.clone(),
            display_name: self.display_name.clone(),
            extensions: clone_owner_list(&self.extensions),
        }
    }
}

impl Clone for Device {
    fn clone(&self) -> (r: Self)
        ensures
            device_records_equal(r, *self),
            r@ == self@,
    {
        let r = Device {
            id: self.id.clone(),
            display_name: self.display_name.clone(),
            manufacturer: self.manufacturer.clone(),
            category: self.category.clone(),
            extensions: clone_owner_list(&self.extensions),
            primary_model_identifiers: clone_string_list(&self.primary_model_identifiers),
            extended_model_identifiers: clone_string_list(&self.extended_model_identifiers),
        };
        proof {
            assert(r@.primary_model_identifiers =~= self@.primary_model_identifiers);
            assert(r@.extended_model_identifiers =~= self@.extended_model_identifiers);
            assert(r@ =~= self@);
        }
        r
    }
}

/// Whether an owner list names the given extension.
pub(crate) fn owners_contain(
    v: &Vec<InventoryExtensionUniqueID>,
    id: &InventoryExtensionUniqueID,
) -> (r: bool)
    ensures
        r == owner_set(v@).contains(id@),
{
    let n = v.len();
    let mut i: usize = 0;
    while i < n
        invariant
            n == v@.len(),
            i <= n,
            forall|j: int| 0 <= j < i ==> v@[j]@ != id@,
        decreases n - i,
    {
        if v[i] == *id {
            return true;
        }
        i += 1;
    }
    false
}

/// Appends the owners of `other` that `acc` does not already name.
fn extend_owners(acc: &mut Vec<InventoryExtensionUniqueID>, other: &Vec<InventoryExtensionUniqueID>)
    requires
        owners_nodup(old(acc)@),
    ensures
        owners_nodup(final(acc)@),
        owner_set(final(acc)@) == owner_set(old(acc)@) + owner_set(other@),
        final(acc)@.len() >= old(acc)@.len(),
{
    let n = other.len();
    let mut i: usize = 0;
    while i < n
        invariant
            n == other@.len(),
            i <= n,
            owners_nodup(acc@),
            owner_set(acc@) == owner_set(old(acc)@) + owner_set(other@.take(i as int)),
            acc@.len() >= old(acc)@.len(),
        decreases n - i,
    {
        let ghost prev = acc@;
        if !owners_contain(acc, &other[i]) {
            acc.push(other[i].clone());
            proof {
                assert(owner_set(acc@) =~= owner_set(prev).insert(other@[i as int]@)) by {
                    assert forall|s: Seq<char>| owner_set(acc@).contains(s) implies owner_set(
                        prev,
                    ).insert(other@[i as int]@).contains(s) by {
                        let k = choose|k: int| 0 <= k < acc@.len() && acc@[k]@ == s;
                        if k < prev.len() {
                            assert(prev[k]@ == s);
                        }
                    }
                    assert forall|s: Seq<char>| owner_set(prev).insert(
                        other@[i as int]@,
                    ).contains(s) implies owner_set(acc@).contains(s) by {
                        if owner_set(prev).contains(s) {
                            let k = choose|k: int| 0 <= k < prev.len() && prev[k]@ == s;
                            assert(acc@[k]@ == s);
                        } else {
                            assert(acc@[acc@.len() - 1]@ == s);
                        }
                    }
                }
            }
        }
        proof {
            assert(owner_set(other@.take(i + 1)) =~= owner_set(other@.take(i as int)).insert(
                other@[i as int]@,
            )) by {
                let t = other@.take(i + 1);
                assert forall|s: Seq<char>| owner_set(t).contains(s) implies owner_set(
                    other@.take(i as int),
                ).insert(other@[i as int]@).contains(s) by {
                    let k = choose|k: int| 0 <= k < t.len() && t[k]@ == s;
                    if k < i {
                        assert(other@.take(i as int)[k]@ == s);
                    }
                }
                assert forall|s: Seq<char>| owner_set(other@.take(i as int)).insert(
                    other@[i as int]@,
                ).contains(s) implies owner_set(t).contains(s) by {
                    if owner_set(other@.take(i as int)).contains(s) {
                        let k = choose|k: int| 0 <= k < i && other@.take(i as int)[k]@ == s;
                        assert(t[k]@ == s);
                    } else {
                        assert(t[i as int]@ == s);
                    }
                }
            }
            assert(owner_set(acc@) =~= owner_set(old(acc)@) + owner_set(other@.take(i + 1)));
        }
        i += 1;
    }
    proof {
        assert(other@.take(n as int) =~= other@);
    }
}

impl DeviceManufacturer {
    /// Merges the extensions field of another device manufacturer into this
    /// one, leaving every other field as it is. Does not check whether the two
    /// device manufacturers share the same ID and other metadata.
    pub fn merge(&mut self, other: DeviceManufacturer)
        requires
            owners_nodup(old(self).extensions@),
        ensures
            final(self).id == old(self).id,
            final(self).display_name == old(self).display_name,
            owners_nodup(final(self).extensions@),
            owner_set(final(self).extensions@) == owner_set(old(self).extensions@) + owner_set(
                other.extensions@,
            ),
            final(self).extensions@.len() >= old(self).extensions@.len(),
    {
        extend_owners(&mut self.extensions, &other.extensions);
    }
}

impl DeviceCategory {
    /// Merges the extensions field of another device category into this one,
    /// leaving every other field as it is. Does not check whether the two
    /// device categories share the same ID and other metadata.
    pub fn merge(&mut self, other: DeviceCategory)
        requires
            owners_nodup(old(self).extensions@),
        ensures
            final(self).id == old(self).id,
            final(self).display_name == old(self).display_name,
            owners_nodup(final(self).extensions@),
            owner_set(final(self).extensions@) == owner_set(old(self).extensions@) + owner_set(
                other.extensions@,
            ),
            final(self).extensions@.len() >= old(self).extensions@.len(),
    {
        extend_owners(&mut self.extensions, &other.extensions);
    }
}

impl Device {
    /// Merges the extensions field of another device into this one, leaving
    /// every other field as it is. Does not check whether the two devices
    /// share the same ID and other metadata.
    pub fn merge(&mut self, other: Device)
        requires
            owners_nodup(old(self).extensions@),
        ensures
            final(self).id == old(self).id,
            final(self).display_name == old(self).display_name,
            final(self).manufacturer == old(self).manufacturer,
            final(self).category == old(self).category,
            final(self).primary_model_identifiers == old(self).primary_model_identifiers,
            final(self).extended_model_identifiers == old(self).extended_model_identifiers,
            owners_nodup(final(self).extensions@),
            owner_set(final(self).extensions@) == owner_set(old(self).extensions@) + owner_set(
                other.extensions@,
            ),
            final(self).extensions@.len() >= old(self).extensions@.len(),
    {
        extend_owners(&mut self.extensions, &other.extensions);
    }
}

} // verus!
