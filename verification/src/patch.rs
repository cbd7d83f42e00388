//! The tree patcher and the diff emitter: overwrites the slot-count field of
//! every character entry named in the requirement map, and renders the
//! resulting field-level changes as a textual patch document.

use vstd::prelude::*;
use crate::emit::{changes_view, emit_patch_doc, spec_patch_doc, SlotChange};
use crate::prcdb::{
    clone_db, db_entries, db_entry_name, db_entry_slot, db_entry_slot_key, db_len, db_root_key,
    db_root_key_of, db_set_entry_slot,
};
use crate::slot_map::SlotMap;

verus! {

/// Position of the character name field within a character record of the
/// baseline tree: a fixed schema offset.
pub const NAME_FIELD_POS: usize = 1;

/// Position of the slot-count field within a character record of the
/// baseline tree: a fixed schema offset.
pub const SLOT_FIELD_POS: usize = 33;

/// One entry of the costume-database view: name field, slot-count field,
/// slot-field key hash, and a stand-in for every other part of the entry.
pub type DbEntryV = (Option<Seq<char>>, Option<u8>, u64, int);

/// The costume-database view of a tree, at the fixed schema offsets.
pub open spec fn db_view(t: prc::ParamStruct) -> Seq<DbEntryV> {
    db_entries(t, NAME_FIELD_POS as int, SLOT_FIELD_POS as int)
}

/// What patching leaves of one entry: where its name is in the map, its
/// slot-count field holds the mapped value; everything else is untouched.
pub open spec fn patched_entry(e: DbEntryV, m: Map<Seq<char>, u8>) -> DbEntryV {
    if e.0 is Some && m.dom().contains(e.0->0) {
        (e.0, Some(m[e.0->0]), e.2, e.3)
    } else {
        e
    }
}

/// What patching leaves of the whole database view.
pub open spec fn spec_patched(entries: Seq<DbEntryV>, m: Map<Seq<char>, u8>) -> Seq<DbEntryV> {
    Seq::new(entries.len(), |i: int| patched_entry(entries[i], m))
}

/// The database view after the first `k` entries have been patched.
pub open spec fn patched_up_to(entries: Seq<DbEntryV>, m: Map<Seq<char>, u8>, k: int) -> Seq<
    DbEntryV,
> {
    Seq::new(
        entries.len(),
        |j: int|
            if j < k {
                patched_entry(entries[j], m)
            } else {
                entries[j]
            },
    )
}

/// Whether patching changes the entry: its name is mapped and its slot-count
/// field does not already hold the mapped value as a byte.
pub open spec fn entry_changed(e: DbEntryV, m: Map<Seq<char>, u8>) -> bool {
    e.0 is Some && m.dom().contains(e.0->0) && e.1 != Some(m[e.0->0])
}

/// The diff between the baseline view and its patched form: for each changed
/// entry, in order, its position, its slot-field key hash, and the new slot
/// count.
pub open spec fn spec_changes(entries: Seq<DbEntryV>, m: Map<Seq<char>, u8>) -> Seq<
    (int, u64, u8),
>
    decreases entries.len(),
{
    if entries.len() == 0 {
        Seq::empty()
    } else {
        let p = spec_changes(entries.drop_last(), m);
        let e = entries.last();
        if entry_changed(e, m) {
            p.push((entries.len() - 1, e.2, m[e.0->0]))
        } else {
            p
        }
    }
}

/// Patch correctness: patching keeps every entry's name field, slot-field
/// key and every other part; for an entry whose name is in the map only the
/// slot-count field is set, to the mapped value, and an entry whose name is
/// not in the map is left entirely unchanged.
pub proof fn lemma_patch_changes_only_slots(entries: Seq<DbEntryV>, m: Map<Seq<char>, u8>)
    ensures
        spec_patched(entries, m).len() == entries.len(),
        forall|i: int|
            0 <= i < entries.len() ==> {
                let e = #[trigger] entries[i];
                let p = spec_patched(entries, m)[i];
                &&& p.0 == e.0
                &&& p.2 == e.2
                &&& p.3 == e.3
                &&& (e.0 is Some && m.dom().contains(e.0->0) ==> p.1 == Some(m[e.0->0]))
                &&& (!(e.0 is Some && m.dom().contains(e.0->0)) ==> p == e)
            },
{
}

/// Patch purity: where no entry's name is in the map, the patched view is
/// the baseline view and the diff is empty.
pub proof fn lemma_patch_pure(entries: Seq<DbEntryV>, m: Map<Seq<char>, u8>)
    requires
        forall|i: int|
            0 <= i < entries.len() ==> !((#[trigger] entries[i]).0 is Some && m.dom().contains(
                entries[i].0->0,
            )),
    ensures
        spec_patched(entries, m) == entries,
        spec_changes(entries, m) == Seq::<(int, u64, u8)>::empty(),
    decreases entries.len(),
{
    assert(spec_patched(entries, m) =~= entries);
    if entries.len() > 0 {
        assert forall|i: int| 0 <= i < entries.len() - 1 implies !((#[trigger] entries.drop_last()[i]).0
            is Some && m.dom().contains(entries.drop_last()[i].0->0)) by {
            assert(entries.drop_last()[i] == entries[i]);
        }
        lemma_patch_pure(entries.drop_last(), m);
        assert(!entry_changed(entries.last(), m));
    }
}

/// Overwrites the slot-count field of the database entry at `i` where its
/// name field is in the requirement map; otherwise leaves the tree as it
/// was.
pub fn change_value_in_prc(tree: &mut prc::ParamStruct, i: usize, fighter_max: &SlotMap)
    requires
        fighter_max.wf(),
        i < db_view(*old(tree)).len(),
    ensures
        db_view(*final(tree)) == db_view(*old(tree)).update(
            i as int,
            patched_entry(db_view(*old(tree))[i as int], fighter_max@),
        ),
        db_root_key(*final(tree)) == db_root_key(*old(tree)),
        !(db_view(*old(tree))[i as int].0 is Some && fighter_max@.dom().contains(
            db_view(*old(tree))[i as int].0->0,
        )) ==> *final(tree) == *old(tree),
{
    match db_entry_name(tree, i, NAME_FIELD_POS, SLOT_FIELD_POS) {
        Some(name) => {
            match fighter_max.get(&name) {
                Some(value) => {
                    db_set_entry_slot(tree, i, NAME_FIELD_POS, SLOT_FIELD_POS, value);
                },
                None => {
                    proof {
                        assert(db_view(*tree) =~= db_view(*tree).update(
                            i as int,
                            db_view(*tree)[i as int],
                        ));
                    }
                },
            }
        },
        None => {
            proof {
                assert(db_view(*tree) =~= db_view(*tree).update(i as int, db_view(*tree)[i as int]));
            }
        },
    }
}

/// The tree patcher: an independently owned duplicate of the baseline whose
/// slot-count fields hold, for every character entry named in the
/// requirement map, the mapped slot count. A baseline with no matching
/// character names comes back equal to the original.
#[verifier::loop_isolation(false)]
pub fn patch_db(source: &prc::ParamStruct, fighter_max_slot: &SlotMap) -> (modded:
    prc::ParamStruct)
    requires
        fighter_max_slot.wf(),
    ensures
        db_view(modded) == spec_patched(db_view(*source), fighter_max_slot@),
        db_root_key(modded) == db_root_key(*source),
        (forall|i: int|
            0 <= i < db_view(*source).len() ==> !((#[trigger] db_view(*source)[i]).0 is Some
                && fighter_max_slot@.dom().contains(db_view(*source)[i].0->0))) ==> modded
            == *source,
{
    let ghost src = db_view(*source);
    let ghost m = fighter_max_slot@;
    let mut modded = clone_db(source);
    let n = db_len(&modded, NAME_FIELD_POS, SLOT_FIELD_POS);
    proof {
        assert(patched_up_to(src, m, 0) =~= src);
    }
    let mut i: usize = 0;
    while i < n
        invariant
            i <= n,
            n == src.len(),
            db_view(modded) == patched_up_to(src, m, i as int),
            db_root_key(modded) == db_root_key(*source),
            (forall|j: int|
                0 <= j < src.len() ==> !((#[trigger] src[j]).0 is Some && m.dom().contains(
                    src[j].0->0,
                ))) ==> modded == *source,
        decreases n - i,
    {
        proof {
            assert(patched_up_to(src, m, 0) =~= src);
            assert(db_view(modded)[i as int] == src[i as int]);
        }
        change_value_in_prc(&mut modded, i, fighter_max_slot);
        proof {
            assert(db_view(modded) =~= patched_up_to(src, m, i as int + 1));
        }
        i = i + 1;
    }
    proof {
        assert(patched_up_to(src, m, 0) =~= src);
        assert(patched_up_to(src, m, n as int) =~= spec_patched(src, m));
    }
    modded
}


/// The failure reported when the baseline resource cannot be parsed.
#[derive(Clone, Copy, PartialEq, Eq, Structural, Debug)]
pub enum BaselineError {
    /// The baseline bytes are missing or corrupt.
    MissingResource,
}

/// Accepts the outcome of the outside parser on the baseline resource: a
/// successful parse hands the tree on unchanged; anything else is reported
/// as the distinct missing-baseline error, so that no patch is attempted on
/// a missing or corrupt baseline. The binary parse itself stays with the
/// caller: the outside parser does not return cleanly on every byte
/// sequence, so no contract of this crate could stand for it.
pub fn load_baseline(parsed: Option<prc::ParamStruct>) -> (r: Result<
    prc::ParamStruct,
    BaselineError,
>)
    ensures
        r is Ok <==> parsed is Some,
        r matches Ok(t) ==> t == parsed->0,
        r matches Err(e) ==> e == BaselineError::MissingResource,
{
    match parsed {
        Some(t) => Ok(t),
        None => Err(BaselineError::MissingResource),
    }
}

/// The diff emitter: duplicates the baseline, patches the duplicate, and
/// renders the field-level differences between the two trees as a patch
/// document. Where nothing changed, there is no document.
#[verifier::loop_isolation(false)]
pub fn generate_prcxml(source: &prc::ParamStruct, fighter_max_slot: &SlotMap) -> (r: Option<
    Vec<char>,
>)
    requires
        fighter_max_slot.wf(),
    ensures
        r is Some <==> spec_changes(db_view(*source), fighter_max_slot@).len() != 0,
        r is Some ==> r->0@ == spec_patch_doc(
            db_root_key(*source),
            spec_changes(db_view(*source), fighter_max_slot@),
        ),
{
    let ghost src = db_view(*source);
    let ghost m = fighter_max_slot@;
    let modded = patch_db(source, fighter_max_slot);
    let mut changes: Vec<SlotChange> = Vec::new();
    let n = db_len(source, NAME_FIELD_POS, SLOT_FIELD_POS);
    proof {
        assert(changes_view(changes@) =~= spec_changes(src.take(0), m));
    }
    let mut i: usize = 0;
    while i < n
        invariant
            i <= n,
            n == src.len(),
            changes_view(changes@) == spec_changes(src.take(i as int), m),
        decreases n - i,
    {
        proof {
            assert(src.take(i as int + 1).drop_last() =~= src.take(i as int));
            assert(src.take(i as int + 1).last() == src[i as int]);
        }
        let slot_before = db_entry_slot(source, i, NAME_FIELD_POS, SLOT_FIELD_POS);
        let slot_after = db_entry_slot(&modded, i, NAME_FIELD_POS, SLOT_FIELD_POS);
        let differs = match (slot_before, slot_after) {
            (Some(a), Some(b)) => a != b,
            (Some(_), None) => true,
            (None, Some(_)) => true,
            (None, None) => false,
        };
        if differs {
            proof {
                assert(entry_changed(src[i as int], m));
            }
            let key = db_entry_slot_key(source, i, NAME_FIELD_POS, SLOT_FIELD_POS);
            match slot_after {
                Some(value) => {
                    let rec = SlotChange { index: i, key, value };
                    let ghost recv = rec@;
                    changes.push(rec);
                    proof {
                        assert(recv == (i as int, src[i as int].2, m[src[i as int].0->0]));
                        assert(changes_view(changes@) =~= spec_changes(src.take(i as int + 1), m));
                    }
                },
                None => {
                    proof {
                        assert(false);
                    }
                },
            }
        } else {
            proof {
                assert(!entry_changed(src[i as int], m));
                assert(changes_view(changes@) =~= spec_changes(src.take(i as int + 1), m));
            }
        }
        i = i + 1;
    }
    proof {
        assert(src.take(n as int) =~= src);
    }
    if changes.is_empty() {
        proof {
            assert(changes_view(changes@).len() == 0);
        }
        None
    } else {
        let root_key = db_root_key_of(source);
        Some(emit_patch_doc(root_key, &changes))
    }
}

} // verus!
