//! Laws of the reconciliation engine: what a load pass guarantees about the
//! store, stated over the store and run models and proved once and for all.

use vstd::prelude::*;

use crate::conflicts::ConflictView;
use crate::manager::{
    initial_run, spec_run, spec_run_from, spec_step, ExtensionView, InventoryExtension,
    ResolutionMode, RunView,
};
use crate::models::{lemma_owner_set_singleton, DeviceView, SharedEntityView};
use crate::store::{
    load_devices_from, load_shared_from, spec_load_extension, spec_unload, upsert_device,
    upsert_shared, StoreView,
};

verus! {

/// Keys that none of the remaining contributions name keep their presence and
/// record.
proof fn lemma_load_shared_untouched(
    m: Map<Seq<char>, SharedEntityView>,
    s: Seq<SharedEntityView>,
    i: int,
    k: Seq<char>,
)
    requires
        forall|b: int| i <= b < s.len() ==> (#[trigger] s[b]).id != k,
    ensures
        load_shared_from(m, s, i).dom().contains(k) <==> m.dom().contains(k),
        m.dom().contains(k) ==> load_shared_from(m, s, i)[k] == m[k],
    decreases s.len() - i,
{
    if 0 <= i < s.len() {
        lemma_load_shared_untouched(upsert_shared(m, s[i]), s, i + 1, k);
    }
}

/// A key that exactly one remaining contribution names ends up holding that
/// contribution, merged with the record previously there, if any.
proof fn lemma_load_shared_single_contribution(
    m: Map<Seq<char>, SharedEntityView>,
    s: Seq<SharedEntityView>,
    i: int,
    a: int,
)
    requires
        0 <= i <= a < s.len(),
        forall|b: int| i <= b < s.len() && b != a ==> (#[trigger] s[b]).id != s[a].id,
    ensures
        load_shared_from(m, s, i).dom().contains(s[a].id),
        load_shared_from(m, s, i)[s[a].id] == (if m.dom().contains(s[a].id) {
            SharedEntityView { owners: s[a].owners + m[s[a].id].owners, ..s[a] }
        } else {
            s[a]
        }),
    decreases s.len() - i,
{
    if i == a {
        lemma_load_shared_untouched(upsert_shared(m, s[a]), s, a + 1, s[a].id);
    } else {
        lemma_load_shared_single_contribution(upsert_shared(m, s[i]), s, i + 1, a);
    }
}

/// A key appears after loading contributions exactly when it was there before
/// or some remaining contribution names it.
proof fn lemma_load_shared_dom(m: Map<Seq<char>, SharedEntityView>, s: Seq<SharedEntityView>, i: int, k: Seq<char>)
    requires
        0 <= i,
    ensures
        load_shared_from(m, s, i).dom().contains(k) <==> m.dom().contains(k) || exists|b: int|
            i <= b < s.len() && (#[trigger] s[b]).id == k,
    decreases s.len() - i,
{
    if i < s.len() {
        let m2 = upsert_shared(m, s[i]);
        lemma_load_shared_dom(m2, s, i + 1, k);
        if s[i].id == k {
            assert(i <= i < s.len() && s[i].id == k);
        } else {
            if exists|b: int| i <= b < s.len() && (#[trigger] s[b]).id == k {
                let b = choose|b: int| i <= b < s.len() && (#[trigger] s[b]).id == k;
                assert(i + 1 <= b < s.len() && s[b].id == k);
            }
            if exists|b: int| i + 1 <= b < s.len() && (#[trigger] s[b]).id == k {
                let b = choose|b: int| i + 1 <= b < s.len() && (#[trigger] s[b]).id == k;
                assert(i <= b < s.len() && s[b].id == k);
            }
        }
    }
}

/// `lemma_load_shared_untouched` for the device table.
proof fn lemma_load_devices_untouched(
    m: Map<Seq<char>, DeviceView>,
    s: Seq<DeviceView>,
    i: int,
    k: Seq<char>,
)
    requires
        forall|b: int| i <= b < s.len() ==> (#[trigger] s[b]).id != k,
    ensures
        load_devices_from(m, s, i).dom().contains(k) <==> m.dom().contains(k),
        m.dom().contains(k) ==> load_devices_from(m, s, i)[k] == m[k],
    decreases s.len() - i,
{
    if 0 <= i < s.len() {
        lemma_load_devices_untouched(upsert_device(m, s[i]), s, i + 1, k);
    }
}

/// `lemma_load_shared_single_contribution` for the device table.
proof fn lemma_load_devices_single_contribution(
    m: Map<Seq<char>, DeviceView>,
    s: Seq<DeviceView>,
    i: int,
    a: int,
)
    requires
        0 <= i <= a < s.len(),
        forall|b: int| i <= b < s.len() && b != a ==> (#[trigger] s[b]).id != s[a].id,
    ensures
        load_devices_from(m, s, i).dom().contains(s[a].id),
        load_devices_from(m, s, i)[s[a].id] == (if m.dom().contains(s[a].id) {
            DeviceView { owners: s[a].owners + m[s[a].id].owners, ..s[a] }
        } else {
            s[a]
        }),
    decreases s.len() - i,
{
    if i == a {
        lemma_load_devices_untouched(upsert_device(m, s[a]), s, a + 1, s[a].id);
    } else {
        lemma_load_devices_single_contribution(upsert_device(m, s[i]), s, i + 1, a);
    }
}

/// `lemma_load_shared_dom` for the device table.
proof fn lemma_load_devices_dom(m: Map<Seq<char>, DeviceView>, s: Seq<DeviceView>, i: int, k: Seq<char>)
    requires
        0 <= i,
    ensures
        load_devices_from(m, s, i).dom().contains(k) <==> m.dom().contains(k) || exists|b: int|
            i <= b < s.len() && (#[trigger] s[b]).id == k,
    decreases s.len() - i,
{
    if i < s.len() {
        let m2 = upsert_device(m, s[i]);
        lemma_load_devices_dom(m2, s, i + 1, k);
        if s[i].id == k {
            assert(i <= i < s.len() && s[i].id == k);
        } else {
            if exists|b: int| i <= b < s.len() && (#[trigger] s[b]).id == k {
                let b = choose|b: int| i <= b < s.len() && (#[trigger] s[b]).id == k;
                assert(i + 1 <= b < s.len() && s[b].id == k);
            }
            if exists|b: int| i + 1 <= b < s.len() && (#[trigger] s[b]).id == k {
                let b = choose|b: int| i + 1 <= b < s.len() && (#[trigger] s[b]).id == k;
                assert(i <= b < s.len() && s[b].id == k);
            }
        }
    }
}

/// The final state of a load pass over exactly one staged extension.
proof fn lemma_run_singleton(mode: ResolutionMode, e: InventoryExtension, v: StoreView)
    ensures
        spec_run(mode, seq![e], v) == spec_run_from(
            mode,
            seq![e],
            spec_step(mode, initial_run(v), e@),
            1,
        ),
        spec_run(mode, seq![e], v) == spec_step(mode, initial_run(v), e@),
{
    let st1 = spec_step(mode, initial_run(v), e@);
    assert(seq![e][0] == e);
    assert(spec_run_from(mode, seq![e], st1, 1) == st1);
}

/// Law (idempotent fresh load): loading one staged extension whose ID collides
/// with no loaded extension, into a store that holds none of its entity IDs,
/// succeeds under every resolution mode with no conflict recorded, creates
/// exactly the extension's metadata record and one record per contributed
/// entity — each owned by that extension alone — and leaves every other record
/// of the store unchanged. (A table maps each identifier to at most one
/// record, so each contributed entity exists exactly once.)
pub proof fn lemma_idempotent_fresh_load(mode: ResolutionMode, e: InventoryExtension, v: StoreView)
    requires
        e.wf(),
        !v.extensions.dom().contains(e@.metadata.id),
        forall|i: int|
            0 <= i < e@.manufacturers.len() ==> !v.manufacturers.dom().contains(
                (#[trigger] e@.manufacturers[i]).id,
            ),
        forall|i: int|
            0 <= i < e@.categories.len() ==> !v.categories.dom().contains(
                (#[trigger] e@.categories[i]).id,
            ),
        forall|i: int|
            0 <= i < e@.devices.len() ==> !v.devices.dom().contains((#[trigger] e@.devices[i]).id),
    ensures
        ({
            let fin = spec_run(mode, seq![e], v);
            &&& !fin.store_failed
            &&& fin.conflicts == Seq::<ConflictView>::empty()
            &&& fin.store.extensions == v.extensions.insert(e@.metadata.id, e@.metadata)
            &&& fin.store.protected == v.protected
            &&& forall|i: int|
                0 <= i < e@.manufacturers.len() ==> fin.store.manufacturers.dom().contains(
                    (#[trigger] e@.manufacturers[i]).id,
                ) && fin.store.manufacturers[e@.manufacturers[i].id] == e@.manufacturers[i]
                    && e@.manufacturers[i].owners == set![e@.metadata.id]
            &&& forall|i: int|
                0 <= i < e@.categories.len() ==> fin.store.categories.dom().contains(
                    (#[trigger] e@.categories[i]).id,
                ) && fin.store.categories[e@.categories[i].id] == e@.categories[i]
                    && e@.categories[i].owners == set![e@.metadata.id]
            &&& forall|i: int|
                0 <= i < e@.devices.len() ==> fin.store.devices.dom().contains(
                    (#[trigger] e@.devices[i]).id,
                ) && fin.store.devices[e@.devices[i].id] == e@.devices[i] && e@.devices[i].owners
                    == set![e@.metadata.id]
            &&& forall|k: Seq<char>|
                #[trigger] fin.store.manufacturers.dom().contains(k)
                    <==> v.manufacturers.dom().contains(k) || exists|b: int|
                    0 <= b < e@.manufacturers.len() && (#[trigger] e@.manufacturers[b]).id == k
            &&& forall|k: Seq<char>|
                #[trigger] fin.store.categories.dom().contains(k) <==> v.categories.dom().contains(
                    k,
                ) || exists|b: int|
                    0 <= b < e@.categories.len() && (#[trigger] e@.categories[b]).id == k
            &&& forall|k: Seq<char>|
                #[trigger] fin.store.devices.dom().contains(k) <==> v.devices.dom().contains(k)
                    || exists|b: int|
                    0 <= b < e@.devices.len() && (#[trigger] e@.devices[b]).id == k
            &&& forall|k: Seq<char>|
                v.manufacturers.dom().contains(k) && !(exists|b: int|
                    0 <= b < e@.manufacturers.len() && (#[trigger] e@.manufacturers[b]).id == k)
                    ==> #[trigger] fin.store.manufacturers[k] == v.manufacturers[k]
            &&& forall|k: Seq<char>|
                v.categories.dom().contains(k) && !(exists|b: int|
                    0 <= b < e@.categories.len() && (#[trigger] e@.categories[b]).id == k)
                    ==> #[trigger] fin.store.categories[k] == v.categories[k]
            &&& forall|k: Seq<char>|
                v.devices.dom().contains(k) && !(exists|b: int|
                    0 <= b < e@.devices.len() && (#[trigger] e@.devices[b]).id == k)
                    ==> #[trigger] fin.store.devices[k] == v.devices[k]
        }),
{
    lemma_run_singleton(mode, e, v);
    let fin = spec_run(mode, seq![e], v);
    assert(fin.store == spec_load_extension(v, e@));
    assert forall|i: int| 0 <= i < e@.manufacturers.len() implies fin.store.manufacturers.dom()
        .contains((#[trigger] e@.manufacturers[i]).id) && fin.store.manufacturers[
    e@.manufacturers[i].id] == e@.manufacturers[i] && e@.manufacturers[i].owners == set![
        e@.metadata.id,
    ] by {
        assert(e@.manufacturers[i] == e.device_manufacturers@[i]@);
        lemma_owner_set_singleton(e.device_manufacturers@[i].extensions@, e.metadata.id@);
        assert forall|b: int|
            0 <= b < e@.manufacturers.len() && b != i implies (#[trigger] e@.manufacturers[b]).id
            != e@.manufacturers[i].id by {
            assert(e@.manufacturers[b] == e.device_manufacturers@[b]@);
        }
        lemma_load_shared_single_contribution(v.manufacturers, e@.manufacturers, 0, i);
    }
    assert forall|i: int| 0 <= i < e@.categories.len() implies fin.store.categories.dom().contains(
        (#[trigger] e@.categories[i]).id,
    ) && fin.store.categories[e@.categories[i].id] == e@.categories[i] && e@.categories[i].owners
        == set![e@.metadata.id] by {
        assert(e@.categories[i] == e.device_categories@[i]@);
        lemma_owner_set_singleton(e.device_categories@[i].extensions@, e.metadata.id@);
        assert forall|b: int|
            0 <= b < e@.categories.len() && b != i implies (#[trigger] e@.categories[b]).id
            != e@.categories[i].id by {
            assert(e@.categories[b] == e.device_categories@[b]@);
        }
        lemma_load_shared_single_contribution(v.categories, e@.categories, 0, i);
    }
    assert forall|i: int| 0 <= i < e@.devices.len() implies fin.store.devices.dom().contains(
        (#[trigger] e@.devices[i]).id,
    ) && fin.store.devices[e@.devices[i].id] == e@.devices[i] && e@.devices[i].owners == set![
        e@.metadata.id,
    ] by {
        assert(e@.devices[i] == e.devices@[i]@);
        lemma_owner_set_singleton(e.devices@[i].extensions@, e.metadata.id@);
        assert forall|b: int|
            0 <= b < e@.devices.len() && b != i implies (#[trigger] e@.devices[b]).id
            != e@.devices[i].id by {
            assert(e@.devices[b] == e.devices@[b]@);
        }
        lemma_load_devices_single_contribution(v.devices, e@.devices, 0, i);
    }
    assert forall|k: Seq<char>| #[trigger]
        fin.store.manufacturers.dom().contains(k) <==> v.manufacturers.dom().contains(k) || exists|
            b: int,
        | 0 <= b < e@.manufacturers.len() && (#[trigger] e@.manufacturers[b]).id == k by {
        lemma_load_shared_dom(v.manufacturers, e@.manufacturers, 0, k);
    }
    assert forall|k: Seq<char>| #[trigger]
        fin.store.categories.dom().contains(k) <==> v.categories.dom().contains(k) || exists|
            b: int,
        | 0 <= b < e@.categories.len() && (#[trigger] e@.categories[b]).id == k by {
        lemma_load_shared_dom(v.categories, e@.categories, 0, k);
    }
    assert forall|k: Seq<char>| #[trigger]
        fin.store.devices.dom().contains(k) <==> v.devices.dom().contains(k) || exists|b: int|
            0 <= b < e@.devices.len() && (#[trigger] e@.devices[b]).id == k by {
        lemma_load_devices_dom(v.devices, e@.devices, 0, k);
    }
    assert forall|k: Seq<char>|
        v.manufacturers.dom().contains(k) && !(exists|b: int|
            0 <= b < e@.manufacturers.len() && (#[trigger] e@.manufacturers[b]).id == k) implies
        #[trigger] fin.store.manufacturers[k] == v.manufacturers[k] by {
        assert(forall|b: int|
            0 <= b < e@.manufacturers.len() ==> (#[trigger] e@.manufacturers[b]).id != k);
        lemma_load_shared_untouched(v.manufacturers, e@.manufacturers, 0, k);
    }
    assert forall|k: Seq<char>|
        v.categories.dom().contains(k) && !(exists|b: int|
            0 <= b < e@.categories.len() && (#[trigger] e@.categories[b]).id == k) implies
        #[trigger] fin.store.categories[k] == v.categories[k] by {
        assert(forall|b: int|
            0 <= b < e@.categories.len() ==> (#[trigger] e@.categories[b]).id != k);
        lemma_load_shared_untouched(v.categories, e@.categories, 0, k);
    }
    assert forall|k: Seq<char>|
        v.devices.dom().contains(k) && !(exists|b: int|
            0 <= b < e@.devices.len() && (#[trigger] e@.devices[b]).id == k) implies
        #[trigger] fin.store.devices[k] == v.devices[k] by {
        assert(forall|b: int| 0 <= b < e@.devices.len() ==> (#[trigger] e@.devices[b]).id != k);
        lemma_load_devices_untouched(v.devices, e@.devices, 0, k);
    }
}

/// Law (duplicate-same-version skip): staging an extension whose ID and
/// version both match a loaded extension yields, under Manual or Auto
/// resolution, exactly one conflict with `same_version` set, and the store is
/// unchanged.
pub proof fn lemma_duplicate_same_version_skip(
    mode: ResolutionMode,
    e: InventoryExtension,
    v: StoreView,
)
    requires
        mode == ResolutionMode::Manual || mode == ResolutionMode::Auto,
        v.extensions.dom().contains(e@.metadata.id),
        v.extensions[e@.metadata.id].version == e@.metadata.version,
    ensures
        ({
            let fin = spec_run(mode, seq![e], v);
            &&& !fin.store_failed
            &&& fin.store == v
            &&& fin.conflicts == seq![
                ConflictView { id: e@.metadata.id, same_version: true },
            ]
        }),
{
    lemma_run_singleton(mode, e, v);
    let fin = spec_run(mode, seq![e], v);
    assert(fin.conflicts =~= seq![ConflictView { id: e@.metadata.id, same_version: true }]);
}

/// Law (version-change reload): staging an extension whose ID matches a loaded
/// extension but whose version differs yields, under Auto or ForceReload
/// resolution and an unprotected ID, exactly one conflict with `same_version`
/// clear, and the store afterwards is the store with the old extension
/// unloaded and the new one loaded. In particular the extension's metadata
/// record carries the new version, every entity it now contributes is present,
/// and every entity it solely owned and no longer contributes is gone.
pub proof fn lemma_version_change_reload(mode: ResolutionMode, e: InventoryExtension, v: StoreView)
    requires
        mode == ResolutionMode::Auto || mode == ResolutionMode::ForceReload,
        v.extensions.dom().contains(e@.metadata.id),
        v.extensions[e@.metadata.id].version != e@.metadata.version,
        !v.protected.contains(e@.metadata.id),
    ensures
        ({
            let fin = spec_run(mode, seq![e], v);
            &&& !fin.store_failed
            &&& fin.store == spec_load_extension(spec_unload(v, e@.metadata.id), e@)
            &&& fin.store.extensions.dom().contains(e@.metadata.id)
            &&& fin.store.extensions[e@.metadata.id] == e@.metadata
            &&& fin.conflicts == seq![
                ConflictView { id: e@.metadata.id, same_version: false },
            ]
            &&& forall|i: int|
                0 <= i < e@.manufacturers.len() ==> fin.store.manufacturers.dom().contains(
                    (#[trigger] e@.manufacturers[i]).id,
                )
            &&& forall|i: int|
                0 <= i < e@.categories.len() ==> fin.store.categories.dom().contains(
                    (#[trigger] e@.categories[i]).id,
                )
            &&& forall|i: int|
                0 <= i < e@.devices.len() ==> fin.store.devices.dom().contains(
                    (#[trigger] e@.devices[i]).id,
                )
            &&& forall|k: Seq<char>|
                v.manufacturers.dom().contains(k) && (#[trigger] v.manufacturers[k]).owners
                    == set![e@.metadata.id] && !(exists|b: int|
                    0 <= b < e@.manufacturers.len() && (#[trigger] e@.manufacturers[b]).id == k)
                    ==> !fin.store.manufacturers.dom().contains(k)
            &&& forall|k: Seq<char>|
                v.categories.dom().contains(k) && (#[trigger] v.categories[k]).owners == set![
                    e@.metadata.id,
                ] && !(exists|b: int|
                    0 <= b < e@.categories.len() && (#[trigger] e@.categories[b]).id == k)
                    ==> !fin.store.categories.dom().contains(k)
            &&& forall|k: Seq<char>|
                v.devices.dom().contains(k) && (#[trigger] v.devices[k]).owners == set![
                    e@.metadata.id,
                ] && !(exists|b: int|
                    0 <= b < e@.devices.len() && (#[trigger] e@.devices[b]).id == k)
                    ==> !fin.store.devices.dom().contains(k)
        }),
{
    lemma_run_singleton(mode, e, v);
    let fin = spec_run(mode, seq![e], v);
    assert(fin.conflicts =~= seq![ConflictView { id: e@.metadata.id, same_version: false }]);
    let unloaded = spec_unload(v, e@.metadata.id);
    assert forall|i: int| 0 <= i < e@.manufacturers.len() implies fin.store.manufacturers.dom()
        .contains((#[trigger] e@.manufacturers[i]).id) by {
        lemma_load_shared_dom(unloaded.manufacturers, e@.manufacturers, 0, e@.manufacturers[i].id);
    }
    assert forall|i: int| 0 <= i < e@.categories.len() implies fin.store.categories.dom().contains(
        (#[trigger] e@.categories[i]).id,
    ) by {
        lemma_load_shared_dom(unloaded.categories, e@.categories, 0, e@.categories[i].id);
    }
    assert forall|i: int| 0 <= i < e@.devices.len() implies fin.store.devices.dom().contains(
        (#[trigger] e@.devices[i]).id,
    ) by {
        lemma_load_devices_dom(unloaded.devices, e@.devices, 0, e@.devices[i].id);
    }
    assert forall|k: Seq<char>|
        v.manufacturers.dom().contains(k) && (#[trigger] v.manufacturers[k]).owners == set![
            e@.metadata.id,
        ] && !(exists|b: int|
            0 <= b < e@.manufacturers.len() && (#[trigger] e@.manufacturers[b]).id == k) implies
        !fin.store.manufacturers.dom().contains(k) by {
        assert(!unloaded.manufacturers.dom().contains(k));
        assert(forall|b: int|
            0 <= b < e@.manufacturers.len() ==> (#[trigger] e@.manufacturers[b]).id != k);
        lemma_load_shared_untouched(unloaded.manufacturers, e@.manufacturers, 0, k);
    }
    assert forall|k: Seq<char>|
        v.categories.dom().contains(k) && (#[trigger] v.categories[k]).owners == set![
            e@.metadata.id,
        ] && !(exists|b: int|
            0 <= b < e@.categories.len() && (#[trigger] e@.categories[b]).id == k) implies
        !fin.store.categories.dom().contains(k) by {
        assert(!unloaded.categories.dom().contains(k));
        assert(forall|b: int|
            0 <= b < e@.categories.len() ==> (#[trigger] e@.categories[b]).id != k);
        lemma_load_shared_untouched(unloaded.categories, e@.categories, 0, k);
    }
    assert forall|k: Seq<char>|
        v.devices.dom().contains(k) && (#[trigger] v.devices[k]).owners == set![e@.metadata.id]
            && !(exists|b: int|
            0 <= b < e@.devices.len() && (#[trigger] e@.devices[b]).id == k) implies
        !fin.store.devices.dom().contains(k) by {
        assert(!unloaded.devices.dom().contains(k));
        assert(forall|b: int| 0 <= b < e@.devices.len() ==> (#[trigger] e@.devices[b]).id != k);
        lemma_load_devices_untouched(unloaded.devices, e@.devices, 0, k);
    }
}

/// Law (version-change abort under Manual): the same version-change collision
/// under Manual resolution records exactly one conflict and does not mutate
/// the store; since a conflict was recorded, a load pass under Manual reports
/// failure instead of succeeding silently.
pub proof fn lemma_version_change_manual_abort(e: InventoryExtension, v: StoreView)
    requires
        v.extensions.dom().contains(e@.metadata.id),
        v.extensions[e@.metadata.id].version != e@.metadata.version,
    ensures
        ({
            let fin = spec_run(ResolutionMode::Manual, seq![e], v);
            &&& !fin.store_failed
            &&& fin.store == v
            &&& fin.conflicts == seq![
                ConflictView { id: e@.metadata.id, same_version: false },
            ]
            &&& fin.conflicts.len() > 0
        }),
{
    lemma_run_singleton(ResolutionMode::Manual, e, v);
    let fin = spec_run(ResolutionMode::Manual, seq![e], v);
    assert(fin.conflicts =~= seq![ConflictView { id: e@.metadata.id, same_version: false }]);
}

/// Law (union on a shared entity): when two distinct extensions both
/// contribute a shared entity with the same identifier, loading one and then
/// the other — in either order, since the two extensions are arbitrary here —
/// leaves the store with a record under that identifier whose
/// owning-extensions set is exactly the pair of the two extension IDs, and
/// whose other fields are those of the extension loaded second. (A table maps
/// each identifier to at most one record, so exactly one such record exists.)
pub proof fn lemma_union_on_shared_entity(
    e1: InventoryExtension,
    e2: InventoryExtension,
    v: StoreView,
    i1: int,
    i2: int,
)
    requires
        e1.wf(),
        e2.wf(),
        e1@.metadata.id != e2@.metadata.id,
        0 <= i1 < e1@.manufacturers.len(),
        0 <= i2 < e2@.manufacturers.len(),
        e1@.manufacturers[i1].id == e2@.manufacturers[i2].id,
        !v.manufacturers.dom().contains(e1@.manufacturers[i1].id),
    ensures
        ({
            let w = spec_load_extension(spec_load_extension(v, e1@), e2@);
            let k = e1@.manufacturers[i1].id;
            &&& w.manufacturers.dom().contains(k)
            &&& w.manufacturers[k].owners == set![e1@.metadata.id, e2@.metadata.id]
            &&& w.manufacturers[k].display_name == e2@.manufacturers[i2].display_name
        }),
{
    let k = e1@.manufacturers[i1].id;
    let w1 = spec_load_extension(v, e1@);
    let w = spec_load_extension(w1, e2@);
    assert(e1@.manufacturers[i1] == e1.device_manufacturers@[i1]@);
    assert(e2@.manufacturers[i2] == e2.device_manufacturers@[i2]@);
    lemma_owner_set_singleton(e1.device_manufacturers@[i1].extensions@, e1.metadata.id@);
    lemma_owner_set_singleton(e2.device_manufacturers@[i2].extensions@, e2.metadata.id@);
    assert forall|b: int|
        0 <= b < e1@.manufacturers.len() && b != i1 implies (#[trigger] e1@.manufacturers[b]).id
        != k by {
        assert(e1@.manufacturers[b] == e1.device_manufacturers@[b]@);
    }
    assert forall|b: int|
        0 <= b < e2@.manufacturers.len() && b != i2 implies (#[trigger] e2@.manufacturers[b]).id
        != k by {
        assert(e2@.manufacturers[b] == e2.device_manufacturers@[b]@);
    }
    lemma_load_shared_single_contribution(v.manufacturers, e1@.manufacturers, 0, i1);
    assert(w1.manufacturers[k] == e1@.manufacturers[i1]);
    lemma_load_shared_single_contribution(w1.manufacturers, e2@.manufacturers, 0, i2);
    assert(w.manufacturers[k].owners =~= set![e1@.metadata.id, e2@.metadata.id]);
}

/// Law (sole-owner deletion on unload): unloading an extension deletes every
/// record it solely owns and keeps every other record, with the unloaded
/// extension removed from the record's owning-extensions set. Stated for each
/// of the three entity tables.
pub proof fn lemma_sole_owner_deletion_on_unload(v: StoreView, xid: Seq<char>, k: Seq<char>)
    ensures
        v.manufacturers.dom().contains(k) && v.manufacturers[k].owners == set![xid]
            ==> !spec_unload(v, xid).manufacturers.dom().contains(k),
        v.manufacturers.dom().contains(k) && v.manufacturers[k].owners != set![xid] ==> (
        spec_unload(v, xid).manufacturers.dom().contains(k) && spec_unload(
            v,
            xid,
        ).manufacturers[k].owners == v.manufacturers[k].owners.remove(xid) && spec_unload(
            v,
            xid,
        ).manufacturers[k].display_name == v.manufacturers[k].display_name),
        v.categories.dom().contains(k) && v.categories[k].owners == set![xid] ==> !spec_unload(
            v,
            xid,
        ).categories.dom().contains(k),
        v.categories.dom().contains(k) && v.categories[k].owners != set![xid] ==> (spec_unload(
            v,
            xid,
        ).categories.dom().contains(k) && spec_unload(v, xid).categories[k].owners
            == v.categories[k].owners.remove(xid)),
        v.devices.dom().contains(k) && v.devices[k].owners == set![xid] ==> !spec_unload(
            v,
            xid,
        ).devices.dom().contains(k),
        v.devices.dom().contains(k) && v.devices[k].owners != set![xid] ==> (spec_unload(
            v,
            xid,
        ).devices.dom().contains(k) && spec_unload(v, xid).devices[k].owners
            == v.devices[k].owners.remove(xid)),
{
}

} // verus!

