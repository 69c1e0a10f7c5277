//! The extension manager: staging extensions and loading them into the store
//! under a resolution policy.

use vstd::prelude::*;

use crate::conflicts::{lemma_meta_match_from, meta_match, ConflictView, LoadConflict};
use crate::models::{
    category_records_equal, device_records_equal, manufacturer_records_equal, sole_owner,
    DeviceView, InventoryExtensionMetadata, MetadataView, SharedEntityView,
};
use crate::models::{Device, DeviceCategory, DeviceManufacturer};
use crate::store::{
    has_record, lemma_record_map_contains, lemma_record_map_index, lemma_record_map_remove,
    record_map, records_nodup, spec_load_extension, spec_unload, InventoryStore, KeyedRecord,
    StoreError, StoreView,
};

verus! {

/// An extension of the inventory system: a versioned package of reference
/// data identified by a globally unique ID.
#[derive(Debug)]
pub struct InventoryExtension {
    pub metadata: InventoryExtensionMetadata,
    pub device_manufacturers: Vec<DeviceManufacturer>,
    pub device_categories: Vec<DeviceCategory>,
    pub devices: Vec<Device>,
}

/// The mathematical model of one extension descriptor.
#[verifier::ext_equal]
pub struct ExtensionView {
    pub metadata: MetadataView,
    pub manufacturers: Seq<SharedEntityView>,
    pub categories: Seq<SharedEntityView>,
    pub devices: Seq<DeviceView>,
}

impl View for InventoryExtension {
    type V = ExtensionView;

    open spec fn view(&self) -> ExtensionView {
        ExtensionView {
            metadata: self.metadata@,
            manufacturers: Seq::new(
                self.device_manufacturers@.len(),
                |i: int| self.device_manufacturers@[i]@,
            ),
            categories: Seq::new(
                self.device_categories@.len(),
                |i: int| self.device_categories@[i]@,
            ),
            devices: Seq::new(self.devices@.len(), |i: int| self.devices@[i]@),
        }
    }
}

impl Clone for InventoryExtension {
    fn clone(&self) -> (r: Self)
        ensures
            r.metadata == self.metadata,
            r@ == self@,
            self.wf() ==> r.wf(),
    {
        let r = InventoryExtension {
            metadata: self.metadata.clone(),
            device_manufacturers: clone_manufacturers(&self.device_manufacturers),
            device_categories: clone_categories(&self.device_categories),
            devices: clone_devices(&self.devices),
        };
        proof {
            assert forall|i: int| 0 <= i < r.device_manufacturers@.len() implies (
            #[trigger] r.device_manufacturers@[i])@ == self.device_manufacturers@[i]@
                && r.device_manufacturers@[i].extensions@
                == self.device_manufacturers@[i].extensions@ && r.device_manufacturers@[i].id@
                == self.device_manufacturers@[i].id@ by {
                assert(manufacturer_records_equal(
                    r.device_manufacturers@[i],
                    self.device_manufacturers@[i],
                ));
            }
            assert forall|i: int| 0 <= i < r.device_categories@.len() implies (
            #[trigger] r.device_categories@[i])@ == self.device_categories@[i]@
                && r.device_categories@[i].extensions@ == self.device_categories@[i].extensions@
                && r.device_categories@[i].id@ == self.device_categories@[i].id@ by {
                assert(category_records_equal(
                    r.device_categories@[i],
                    self.device_categories@[i],
                ));
            }
            assert forall|i: int| 0 <= i < r.devices@.len() implies (#[trigger] r.devices@[i])@
                == self.devices@[i]@ && r.devices@[i].extensions@ == self.devices@[i].extensions@
                && r.devices@[i].id@ == self.devices@[i].id@ by {
                assert(device_records_equal(r.devices@[i], self.devices@[i]));
            }
            assert(r@.manufacturers =~= self@.manufacturers);
            assert(r@.categories =~= self@.categories);
            assert(r@.devices =~= self@.devices);
            assert(r@ =~= self@);
        }
        r
    }
}

fn clone_manufacturers(v: &Vec<DeviceManufacturer>) -> (r: Vec<DeviceManufacturer>)
    ensures
        r@.len() == v@.len(),
        forall|i: int|
            0 <= i < v@.len() ==> manufacturer_records_equal(#[trigger] r@[i], v@[i]),
{
    let mut r: Vec<DeviceManufacturer> = Vec::new();
    let n = v.len();
    let mut i: usize = 0;
    while i < n
        invariant
            n == v@.len(),
            i <= n,
            r@.len() == i,
            forall|j: int|
                0 <= j < i ==> manufacturer_records_equal(#[trigger] r@[j], v@[j]),
        decreases n - i,
    {
        r.push(v[i].clone());
        i += 1;
    }
    r
}

fn clone_categories(v: &Vec<DeviceCategory>) -> (r: Vec<DeviceCategory>)
    ensures
        r@.len() == v@.len(),
        forall|i: int| 0 <= i < v@.len() ==> category_records_equal(#[trigger] r@[i], v@[i]),
{
    let mut r: Vec<DeviceCategory> = Vec::new();
    let n = v.len();
    let mut i: usize = 0;
    while i < n
        invariant
            n == v@.len(),
            i <= n,
            r@.len() == i,
            forall|j: int| 0 <= j < i ==> category_records_equal(#[trigger] r@[j], v@[j]),
        decreases n - i,
    {
        r.push(v[i].clone());
        i += 1;
    }
    r
}

fn clone_devices(v: &Vec<Device>) -> (r: Vec<Device>)
    ensures
        r@.len() == v@.len(),
        forall|i: int| 0 <= i < v@.len() ==> device_records_equal(#[trigger] r@[i], v@[i]),
{
    let mut r: Vec<Device> = Vec::new();
    let n = v.len();
    let mut i: usize = 0;
    while i < n
        invariant
            n == v@.len(),
            i <= n,
            r@.len() == i,
            forall|j: int| 0 <= j < i ==> device_records_equal(#[trigger] r@[j], v@[j]),
        decreases n - i,
    {
        r.push(v[i].clone());
        i += 1;
    }
    r
}

impl InventoryExtension {
    /// A validated extension descriptor: every contributed entity is owned by
    /// exactly this extension, and no entity ID repeats within a kind.
    pub open spec fn wf(&self) -> bool {
        &&& forall|i: int|
            0 <= i < self.device_manufacturers@.len() ==> sole_owner(
                #[trigger] self.device_manufacturers@[i].extensions@,
                self.metadata.id@,
            )
        &&& forall|i: int|
            0 <= i < self.device_categories@.len() ==> sole_owner(
                #[trigger] self.device_categories@[i].extensions@,
                self.metadata.id@,
            )
        &&& forall|i: int|
            0 <= i < self.devices@.len() ==> sole_owner(
                #[trigger] self.devices@[i].extensions@,
                self.metadata.id@,
            )
        &&& forall|i: int, j: int|
            0 <= i < j < self.device_manufacturers@.len()
                ==> self.device_manufacturers@[i].id@ != self.device_manufacturers@[j].id@
        &&& forall|i: int, j: int|
            0 <= i < j < self.device_categories@.len()
                ==> self.device_categories@[i].id@ != self.device_categories@[j].id@
        &&& forall|i: int, j: int|
            0 <= i < j < self.devices@.len() ==> self.devices@[i].id@ != self.devices@[j].id@
    }
}

/// The operator-selected policy for resolving a collision between a staged
/// extension and an already-loaded extension with the same ID. It is chosen
/// once per run and never inspects entity-level contents, only extension
/// identity and version.
#[derive(Debug, Clone, Copy, PartialEq, Eq, Structural)]
pub enum ResolutionMode {
    /// Load non-conflicting extensions, skip conflicting ones, and report the
    /// run as failed when any conflict was found.
    Manual,
    /// Skip a conflicting extension whose version is unchanged; reload it when
    /// the version changed.
    Auto,
    /// Reload every conflicting extension, even when its version is unchanged.
    ForceReload,
}

/// Rejection of a staged extension because an extension with the same ID is
/// already staged; carries the metadata of the extension already present.
#[derive(Debug)]
pub struct StageConflict {
    pub existing: InventoryExtensionMetadata,
}

/// Whether some staged extension has the given ID.
pub open spec fn staged_contains(s: Seq<InventoryExtension>, id: Seq<char>) -> bool {
    exists|i: int| 0 <= i < s.len() && s[i].metadata.id@ == id
}

/// Manages the staging and loading of extensions into the store.
pub struct ExtensionManager {
    staged_extensions: Vec<InventoryExtension>,
    mode: ResolutionMode,
}

impl ExtensionManager {
    /// The extensions staged so far, in staging order.
    pub closed spec fn staged(&self) -> Seq<InventoryExtension> {
        self.staged_extensions@
    }

    /// The resolution policy this manager was created with.
    pub closed spec fn mode_spec(&self) -> ResolutionMode {
        self.mode
    }

    /// Every staged extension is validated and no two staged extensions share
    /// an ID.
    pub open spec fn wf(&self) -> bool {
        &&& forall|i: int| 0 <= i < self.staged().len() ==> (#[trigger] self.staged()[i]).wf()
        &&& forall|i: int, j: int|
            0 <= i < j < self.staged().len() ==> self.staged()[i].metadata.id@
                != self.staged()[j].metadata.id@
    }

    /// Creates a manager with no staged extensions.
    pub fn base_with_context(mode: ResolutionMode) -> (r: Self)
        ensures
            r.staged() == Seq::<InventoryExtension>::empty(),
            r.mode_spec() == mode,
            r.wf(),
    {
        ExtensionManager { staged_extensions: Vec::new(), mode }
    }

    /// Stages an extension. Rejects it, returning the metadata of the
    /// extension already present, if an extension with the same ID is already
    /// staged; the rejection does not disturb the extensions staged so far.
    pub fn stage_extension(&mut self, extension: InventoryExtension) -> (r: Result<
        (),
        StageConflict,
    >)
        requires
            old(self).wf(),
            extension.wf(),
        ensures
            final(self).wf(),
            final(self).mode_spec() == old(self).mode_spec(),
            !staged_contains(old(self).staged(), extension.metadata.id@) ==> (r is Ok
                && final(self).staged() == old(self).staged().push(extension)),
            staged_contains(old(self).staged(), extension.metadata.id@) ==> ((r matches Err(c)
                && exists|i: int|
                    0 <= i < old(self).staged().len() && old(self).staged()[i].metadata.id@
                        == extension.metadata.id@ && c.existing@ == old(self).staged()[i].metadata@)
                && final(self).staged() == old(self).staged()),
    {
        let n = self.staged_extensions.len();
        let mut i: usize = 0;
        while i < n
            invariant
                n == self.staged_extensions@.len(),
                i <= n,
                *self == *old(self),
                extension.wf(),
                old(self).wf(),
                forall|j: int| 0 <= j < i ==> self.staged_extensions@[j].metadata.id@
                    != extension.metadata.id@,
            decreases n - i,
        {
            if self.staged_extensions[i].metadata.id == extension.metadata.id {
                return Err(StageConflict { existing: self.staged_extensions[i].metadata.clone() });
            }
            i += 1;
        }
        proof {
            assert forall|j: int| 0 <= j < old(self).staged().len() implies old(
                self,
            ).staged()[j].metadata.id@ != extension.metadata.id@ by {
                assert(self.staged_extensions@[j].metadata.id@ != extension.metadata.id@);
            }
        }
        self.staged_extensions.push(extension);
        proof {
            let s_old = old(self).staged();
            let s_new = self.staged();
            assert forall|k: int| 0 <= k < s_new.len() implies (#[trigger] s_new[k]).wf() by {
                if k < s_old.len() {
                    assert(s_old[k].wf());
                } else {
                    assert(s_new[k] == extension);
                }
            }
            assert forall|k: int, l: int|
                0 <= k < l < s_new.len() implies s_new[k].metadata.id@
                != s_new[l].metadata.id@ by {
                if l < s_old.len() {
                    assert(s_old[k].metadata.id@ != s_old[l].metadata.id@);
                } else {
                    assert(s_new[l] == extension);
                    assert(s_old[k].metadata.id@ != extension.metadata.id@);
                }
            }
        }
        Ok(())
    }
}

} // verus!

verus! {

/// Failure of a load pass over the staged extensions.
#[derive(Debug)]
pub enum LoadError {
    /// Under manual resolution, one or more staged extensions collided with
    /// already-loaded extensions; they were skipped, the rest of the pass ran
    /// to completion, and the collected conflicts are reported so the run can
    /// terminate with a distinct failure instead of succeeding silently.
    UnresolvedConflicts(Vec<LoadConflict>),
    /// The store refused a write during the pass; the rest of the pass is
    /// abandoned.
    Store(StoreError),
}

/// The models of a list of conflicts, in order.
pub open spec fn conflict_views(cs: Seq<LoadConflict>) -> Seq<ConflictView> {
    Seq::new(cs.len(), |i: int| cs[i]@)
}

/// The state of a load pass: the store, the loaded metadata not yet matched by
/// a staged extension, the conflicts recorded so far, and whether the store
/// refused a write.
#[verifier::ext_equal]
pub struct RunView {
    pub store: StoreView,
    pub remaining: Map<Seq<char>, MetadataView>,
    pub conflicts: Seq<ConflictView>,
    pub store_failed: bool,
}

/// Whether a conflict is resolved by reloading under the given mode: never
/// under Manual, on a version change under Auto, always under ForceReload.
pub open spec fn reload_decision(mode: ResolutionMode, same_version: bool) -> bool {
    match mode {
        ResolutionMode::Manual => false,
        ResolutionMode::Auto => !same_version,
        ResolutionMode::ForceReload => true,
    }
}

/// One step of a load pass: how processing one staged extension transforms the
/// pass state. A staged extension with no counterpart among the remaining
/// loaded metadata loads unconditionally; one with a counterpart is recorded
/// as a conflict and skipped or reloaded according to the mode, and a reload
/// of a protected extension fails the pass.
pub open spec fn spec_step(mode: ResolutionMode, st: RunView, e: ExtensionView) -> RunView {
    let id = e.metadata.id;
    if !st.remaining.dom().contains(id) {
        RunView { store: spec_load_extension(st.store, e), ..st }
    } else {
        let same = st.remaining[id].version == e.metadata.version;
        let c = ConflictView { id: id, same_version: same };
        let rem = st.remaining.remove(id);
        if !reload_decision(mode, same) {
            RunView { remaining: rem, conflicts: st.conflicts.push(c), ..st }
        } else if st.store.protected.contains(id) {
            RunView { remaining: rem, store_failed: true, ..st }
        } else {
            RunView {
                store: spec_load_extension(spec_unload(st.store, id), e),
                remaining: rem,
                conflicts: st.conflicts.push(c),
                ..st
            }
        }
    }
}

/// The load pass from position `i` on: steps through the staged extensions in
/// order, stopping early when the store refused a write.
pub open spec fn spec_run_from(
    mode: ResolutionMode,
    staged: Seq<InventoryExtension>,
    st: RunView,
    i: int,
) -> RunView
    decreases staged.len() - i,
{
    if 0 <= i < staged.len() && !st.store_failed {
        spec_run_from(mode, staged, spec_step(mode, st, staged[i]@), i + 1)
    } else {
        st
    }
}

/// The state a load pass starts from: the given store, with all of its loaded
/// metadata still unmatched and no conflicts recorded.
pub open spec fn initial_run(v: StoreView) -> RunView {
    RunView { store: v, remaining: v.extensions, conflicts: Seq::empty(), store_failed: false }
}

/// The final state of a load pass of the staged extensions over the given
/// store.
pub open spec fn spec_run(
    mode: ResolutionMode,
    staged: Seq<InventoryExtension>,
    v: StoreView,
) -> RunView {
    spec_run_from(mode, staged, initial_run(v), 0)
}

/// Whether one of the first `i` staged extensions has the given ID.
pub open spec fn staged_prefix_has(staged: Seq<InventoryExtension>, i: int, k: Seq<char>) -> bool {
    exists|l: int| 0 <= l < i && staged[l].metadata.id@ == k
}

impl ExtensionManager {
    /// Adds all extensions from the manager into the store, handling any
    /// conflicts according to the manager's resolution mode.
    ///
    /// Every staged extension is processed, so that one pass surfaces every
    /// conflict. Under manual resolution a conflict is never resolved by the
    /// pass itself: the conflicting extensions are skipped, and after the pass
    /// the collected conflicts are returned as an error. A store refusal (a
    /// reload of a protected extension) aborts the pass at once.
    pub fn load_extensions(self, store: &mut InventoryStore) -> (r: Result<
        Vec<LoadConflict>,
        LoadError,
    >)
        requires
            self.wf(),
            old(store).wf(),
        ensures
            final(store).wf(),
            ({
                let fin = spec_run(self.mode_spec(), self.staged(), old(store)@);
                &&& final(store)@ == fin.store
                &&& (fin.store_failed ==> r == Err::<Vec<LoadConflict>, LoadError>(
                    LoadError::Store(StoreError::ProtectedExtension),
                ))
                &&& (!fin.store_failed && self.mode_spec() == ResolutionMode::Manual
                    && fin.conflicts.len() > 0 ==> (r matches Err(e) && e matches
                    LoadError::UnresolvedConflicts(cs) && conflict_views(cs@) == fin.conflicts))
                &&& (!fin.store_failed && !(self.mode_spec() == ResolutionMode::Manual
                    && fin.conflicts.len() > 0) ==> (r matches Ok(cs) && conflict_views(cs@)
                    == fin.conflicts))
            }),
    {
        let mode = self.mode;
        let mut loaded_extensions = store.list_extensions();
        let mut conflicts: Vec<LoadConflict> = Vec::new();
        proof {
            assert(conflict_views(conflicts@) =~= Seq::<ConflictView>::empty());
        }
        let n = self.staged_extensions.len();
        let mut idx: usize = 0;
        while idx < n
            invariant
                self.wf(),
                store.wf(),
                mode == self.mode_spec(),
                n == self.staged().len(),
                idx <= n,
                records_nodup(loaded_extensions@),
                forall|k: Seq<char>|
                    #[trigger] store@.extensions.dom().contains(k) ==> record_map(
                        loaded_extensions@,
                    ).dom().contains(k) || staged_prefix_has(self.staged(), idx as int, k),
                spec_run(self.mode_spec(), self.staged(), old(store)@) == spec_run_from(
                    self.mode_spec(),
                    self.staged(),
                    RunView {
                        store: store@,
                        remaining: record_map(loaded_extensions@),
                        conflicts: conflict_views(conflicts@),
                        store_failed: false,
                    },
                    idx as int,
                ),
            decreases n - idx,
        {
            let ghost st_cur = RunView {
                store: store@,
                remaining: record_map(loaded_extensions@),
                conflicts: conflict_views(conflicts@),
                store_failed: false,
            };
            let staged_extension = self.staged_extensions[idx].clone();
            proof {
                assert(self.staged()[idx as int].wf());
                assert(staged_extension@ == self.staged()[idx as int]@);
            }
            let ghost pre_loaded = loaded_extensions@;
            let ghost sid = staged_extension.metadata.id@;
            proof {
                lemma_meta_match_from(pre_loaded, sid, 0);
                lemma_record_map_contains(pre_loaded, sid);
                let j = meta_match(pre_loaded, sid);
                if j != -1 {
                    lemma_record_map_index(pre_loaded, j);
                    lemma_record_map_remove(pre_loaded, j);
                }
            }
            let conflict_opt = LoadConflict::new(&staged_extension, &mut loaded_extensions);
            match conflict_opt {
                None => {
                    proof {
                        assert(!has_record(pre_loaded, sid)) by {
                            if has_record(pre_loaded, sid) {
                                let k = choose|k: int|
                                    0 <= k < pre_loaded.len() && pre_loaded[k].key() == sid;
                                assert(pre_loaded[k]@.id == sid);
                            }
                        }
                        assert(!record_map(pre_loaded).dom().contains(sid));
                        if store@.extensions.dom().contains(sid) {
                            if staged_prefix_has(self.staged(), idx as int, sid) {
                                let l = choose|l: int|
                                    0 <= l < idx && self.staged()[l].metadata.id@ == sid;
                                assert(self.staged()[l].metadata.id@
                                    != self.staged()[idx as int].metadata.id@);
                                assert(false);
                            }
                        }
                    }
                    store.load_extension(staged_extension);
                    proof {
                        assert(spec_step(mode, st_cur, self.staged()[idx as int]@) =~= (RunView {
                            store: store@,
                            remaining: record_map(loaded_extensions@),
                            conflicts: conflict_views(conflicts@),
                            store_failed: false,
                        }));
                        assert forall|k: Seq<char>|
                            #[trigger] store@.extensions.dom().contains(k) implies record_map(
                            loaded_extensions@,
                        ).dom().contains(k) || staged_prefix_has(
                            self.staged(),
                            idx + 1,
                            k,
                        ) by {
                            if k == sid {
                                assert(self.staged()[idx as int].metadata.id@ == k);
                            } else {
                                if staged_prefix_has(self.staged(), idx as int, k) {
                                    let l = choose|l: int|
                                        0 <= l < idx && self.staged()[l].metadata.id@ == k;
                                    assert(0 <= l < idx + 1 && self.staged()[l].metadata.id@ == k);
                                }
                            }
                        }
                    }
                },
                Some(conflict) => {
                    let do_reload = match mode {
                        ResolutionMode::Manual => false,
                        ResolutionMode::Auto => conflict.should_reload(),
                        ResolutionMode::ForceReload => true,
                    };
                    proof {
                        let j = meta_match(pre_loaded, sid);
                        assert(st_cur.remaining[sid] == pre_loaded[j]@);
                        assert(conflict@.same_version == (st_cur.remaining[sid].version
                            == self.staged()[idx as int]@.metadata.version));
                        assert(do_reload == reload_decision(mode, conflict@.same_version));
                    }
                    if do_reload {
                        match store.reload_extension(staged_extension) {
                            Ok(unit) => {
                                let ghost pre_conflicts = conflicts@;
                                conflicts.push(conflict);
                                proof {
                                    assert(conflict_views(conflicts@) =~= conflict_views(
                                        pre_conflicts,
                                    ).push(conflict@));
                                    assert(spec_step(mode, st_cur, self.staged()[idx as int]@)
                                        =~= (RunView {
                                        store: store@,
                                        remaining: record_map(loaded_extensions@),
                                        conflicts: conflict_views(conflicts@),
                                        store_failed: false,
                                    }));
                                    assert forall|k: Seq<char>|
                                        #[trigger] store@.extensions.dom().contains(
                                            k,
                                        ) implies record_map(loaded_extensions@).dom().contains(k)
                                        || staged_prefix_has(self.staged(), idx + 1, k) by {
                                        if k == sid {
                                            assert(self.staged()[idx as int].metadata.id@ == k);
                                        } else {
                                            if record_map(pre_loaded).dom().contains(k) {
                                                assert(record_map(
                                                    loaded_extensions@,
                                                ).dom().contains(k));
                                            } else if staged_prefix_has(
                                                self.staged(),
                                                idx as int,
                                                k,
                                            ) {
                                                let l = choose|l: int|
                                                    0 <= l < idx && self.staged()[l].metadata.id@
                                                        == k;
                                                assert(0 <= l < idx + 1
                                                    && self.staged()[l].metadata.id@ == k);
                                            }
                                        }
                                    }
                                }
                            },
                            Err(store_error) => {
                                proof {
                                    let stepped = spec_step(
                                        mode,
                                        st_cur,
                                        self.staged()[idx as int]@,
                                    );
                                    assert(stepped.store_failed);
                                    assert(stepped.store == store@);
                                    assert(spec_run_from(mode, self.staged(), st_cur, idx as int)
                                        == spec_run_from(mode, self.staged(), stepped, idx + 1));
                                    assert(spec_run_from(mode, self.staged(), stepped, idx + 1)
                                        == stepped);
                                }
                                return Err(LoadError::Store(store_error));
                            },
                        }
                    } else {
                        let ghost pre_conflicts = conflicts@;
                        conflicts.push(conflict);
                        proof {
                            assert(conflict_views(conflicts@) =~= conflict_views(
                                pre_conflicts,
                            ).push(conflict@));
                            assert(spec_step(mode, st_cur, self.staged()[idx as int]@)
                                =~= (RunView {
                                store: store@,
                                remaining: record_map(loaded_extensions@),
                                conflicts: conflict_views(conflicts@),
                                store_failed: false,
                            }));
                            assert forall|k: Seq<char>|
                                #[trigger] store@.extensions.dom().contains(k) implies record_map(
                                loaded_extensions@,
                            ).dom().contains(k) || staged_prefix_has(
                                self.staged(),
                                idx + 1,
                                k,
                            ) by {
                                if record_map(pre_loaded).dom().contains(k) && k != sid {
                                    assert(record_map(loaded_extensions@).dom().contains(k));
                                } else if k == sid {
                                    assert(self.staged()[idx as int].metadata.id@ == k);
                                } else if staged_prefix_has(self.staged(), idx as int, k) {
                                    let l = choose|l: int|
                                        0 <= l < idx && self.staged()[l].metadata.id@ == k;
                                    assert(0 <= l < idx + 1 && self.staged()[l].metadata.id@ == k);
                                }
                            }
                        }
                    }
                },
            }
            idx += 1;
        }
        if mode == ResolutionMode::Manual && conflicts.len() > 0 {
            return Err(LoadError::UnresolvedConflicts(conflicts));
        }
        Ok(conflicts)
    }
}

} // verus!
