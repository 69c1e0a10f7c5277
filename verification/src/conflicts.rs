//! Conflict classification: comparing one staged extension against the
//! metadata of the extensions currently loaded in the store.

use vstd::prelude::*;

use crate::ids::InventoryExtensionUniqueID;
use crate::manager::InventoryExtension;
use crate::models::InventoryExtensionMetadata;

verus! {

/// Indicator that the manager encountered a collision between a staged
/// extension and an already-loaded extension with the same ID.
#[derive(Debug, PartialEq, Eq)]
pub struct LoadConflict {
    pub id: InventoryExtensionUniqueID,
    pub same_version: bool,
}

/// The model of a load conflict: the shared extension ID and whether the
/// staged and loaded versions are equal.
#[verifier::ext_equal]
pub struct ConflictView {
    pub id: Seq<char>,
    pub same_version: bool,
}

impl View for LoadConflict {
    type V = ConflictView;

    open spec fn view(&self) -> ConflictView {
        ConflictView { id: self.id@, same_version: self.same_version }
    }
}

impl Clone for LoadConflict {
    fn clone(&self) -> (r: Self)
        ensures
            r == *self,
    {
        LoadConflict { id: self.id.clone(), same_version: self.same_version }
    }
}

/// The first position at or after `i` of a metadata record with the given
/// extension ID, or -1 when no such record follows.
pub open spec fn meta_match_from(
    loaded: Seq<InventoryExtensionMetadata>,
    id: Seq<char>,
    i: int,
) -> int
    decreases loaded.len() - i,
{
    if 0 <= i < loaded.len() {
        if loaded[i]@.id == id {
            i
        } else {
            meta_match_from(loaded, id, i + 1)
        }
    } else {
        -1
    }
}

/// The first position of a metadata record with the given extension ID, or -1
/// when there is none.
pub open spec fn meta_match(loaded: Seq<InventoryExtensionMetadata>, id: Seq<char>) -> int {
    meta_match_from(loaded, id, 0)
}

/// `meta_match_from` returns the first match at or after `i`, or -1 exactly
/// when nothing at or after `i` matches.
pub proof fn lemma_meta_match_from(loaded: Seq<InventoryExtensionMetadata>, id: Seq<char>, i: int)
    requires
        0 <= i <= loaded.len(),
    ensures
        ({
            let j = meta_match_from(loaded, id, i);
            &&& (j == -1 ==> forall|k: int|
                i <= k < loaded.len() ==> #[trigger] loaded[k]@.id != id)
            &&& (j != -1 ==> i <= j < loaded.len() && loaded[j]@.id == id && forall|k: int|
                i <= k < j ==> #[trigger] loaded[k]@.id != id)
        }),
    decreases loaded.len() - i,
{
    if i < loaded.len() && loaded[i]@.id != id {
        lemma_meta_match_from(loaded, id, i + 1);
    }
}

impl LoadConflict {
    /// Checks whether a given staged extension conflicts with any of the given
    /// loaded extensions. If it does, the first conflicting metadata record is
    /// removed from the list and the conflict is returned.
    ///
    /// Any staged extension can only logically have up to one conflict with a
    /// loaded extension, and vice versa: conflicts can only arise when a
    /// staged and a loaded extension share the same ID, no two loaded
    /// extensions can share an ID (the store enforces the primary key), and no
    /// two staged extensions can share an ID (the staging set rejects the
    /// duplicate). The removal on match lets later conflict checks skip the
    /// record; it does not change which conflicts are found.
    pub fn new(
        staged_extension: &InventoryExtension,
        loaded_extensions: &mut Vec<InventoryExtensionMetadata>,
    ) -> (r: Option<LoadConflict>)
        ensures
            ({
                let j = meta_match(old(loaded_extensions)@, staged_extension.metadata.id@);
                &&& (j == -1 ==> r is None && final(loaded_extensions)@ == old(
                    loaded_extensions,
                )@)
                &&& (j != -1 ==> (r matches Some(c) && c@.id == staged_extension.metadata.id@
                    && c@.same_version == (old(loaded_extensions)@[j]@.version
                    == staged_extension.metadata@.version) && final(loaded_extensions)@ == old(
                    loaded_extensions,
                )@.remove(j)))
            }),
    {
        let n = loaded_extensions.len();
        let mut i: usize = 0;
        while i < n
            invariant
                n == loaded_extensions@.len(),
                i <= n,
                loaded_extensions@ == old(loaded_extensions)@,
                meta_match(old(loaded_extensions)@, staged_extension.metadata.id@)
                    == meta_match_from(loaded_extensions@, staged_extension.metadata.id@, i as int),
            decreases n - i,
        {
            if loaded_extensions[i].id == staged_extension.metadata.id {
                let conflict = LoadConflict {
                    id: loaded_extensions[i].id.clone(),
                    same_version: staged_extension.metadata.version == loaded_extensions[i].version,
                };
                loaded_extensions.remove(i);
                return Some(conflict);
            }
            i += 1;
        }
        None
    }

    /// Checks whether a conflict should be resolved by reloading the
    /// extension: exactly when the versions differ.
    pub fn should_reload(&self) -> (r: bool)
        ensures
            r == !self.same_version,
    {
        !self.same_version
    }
}

} // verus!
