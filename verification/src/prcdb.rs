//! The trusted boundary around the outside parameter-tree library: a type
//! declaration for its opaque tree, two names for what the tree holds, and
//! small wrappers around the calls the patcher makes. The binary parse
//! itself stays with the caller: the outside parser does not return cleanly
//! on every byte sequence, so no contract here could stand for it.
//!
//! The costume-database view of a tree `t`, written `db_entries(t, np, sp)`,
//! has one element per element of the list stored in the first top-level
//! entry of `t` (an empty sequence where that entry is missing or not a
//! list). For the element at position `i`, with `e` the tree's list element:
//! - component `.0` is `Some` of the character name exactly when `e` is a
//!   record holding a string field at position `np` and any field at
//!   position `sp`;
//! - component `.1` is `Some` of the slot count exactly when `e` is a record
//!   holding an unsigned-byte field at position `sp`;
//! - component `.2` is the key hash of the field at position `sp`, where
//!   component `.0` is `Some`;
//! - component `.3` stands for every remaining part of `e`: everything but
//!   the value stored in the field at position `sp`.
//!
//! `db_root_key(t)` is the key hash of the first top-level entry of `t`, or
//! zero where the tree has none.

use vstd::prelude::*;

verus! {

/// The outside library's parameter tree: a list of key-value pairs of
/// params. Opaque to this crate; read and written only through the wrappers
/// below.
#[verifier::external_type_specification]
#[verifier::external_body]
pub struct ExParamStruct(prc::ParamStruct);

/// The costume-database view of a parameter tree; see the module comment.
pub uninterp spec fn db_entries(t: prc::ParamStruct, name_pos: int, slot_pos: int) -> Seq<
    (Option<Seq<char>>, Option<u8>, u64, int),
>;

/// The key hash of the first top-level entry of a parameter tree, or zero
/// where the tree has none.
pub uninterp spec fn db_root_key(t: prc::ParamStruct) -> u64;

/// Relies on prc::ParamStruct's derived Clone: an independent deep copy,
/// equal to the original.
#[verifier::external_body]
pub(crate) fn clone_db(t: &prc::ParamStruct) -> (r: prc::ParamStruct)
    ensures
        r == *t,
{
    t.clone()
}

/// Relies on the public fields of prc::ParamStruct, prc::ParamKind and
/// prc::ParamList: the length of the database list.
#[verifier::external_body]
pub(crate) fn db_len(t: &prc::ParamStruct, name_pos: usize, slot_pos: usize) -> (n: usize)
    ensures
        n == db_entries(*t, name_pos as int, slot_pos as int).len(),
{
    match t.0.first() {
        Some((_, prc::ParamKind::List(l))) => l.0.len(),
        _ => 0,
    }
}

/// Relies on the public fields of prc::ParamStruct, prc::ParamKind and
/// prc::ParamList: the name field of the database entry at `i`, where the
/// entry is patchable.
#[verifier::external_body]
pub(crate) fn db_entry_name(t: &prc::ParamStruct, i: usize, name_pos: usize, slot_pos: usize) -> (r:
    Option<String>)
    requires
        name_pos != slot_pos,
        i < db_entries(*t, name_pos as int, slot_pos as int).len(),
    ensures
        r is Some <==> db_entries(*t, name_pos as int, slot_pos as int)[i as int].0 is Some,
        r is Some ==> r->0@ == db_entries(*t, name_pos as int, slot_pos as int)[i as int].0->0,
{
    if let Some((_, prc::ParamKind::List(l))) = t.0.first() {
        if let Some(prc::ParamKind::Struct(s)) = l.0.get(i) {
            if slot_pos < s.0.len() {
                if let Some((_, prc::ParamKind::Str(nm))) = s.0.get(name_pos) {
                    return Some(nm.clone());
                }
            }
        }
    }
    None
}

/// Relies on the public fields of prc::ParamStruct, prc::ParamKind and
/// prc::ParamList: the slot-count byte of the database entry at `i`, where
/// that field holds one.
#[verifier::external_body]
pub(crate) fn db_entry_slot(t: &prc::ParamStruct, i: usize, name_pos: usize, slot_pos: usize) -> (r:
    Option<u8>)
    requires
        i < db_entries(*t, name_pos as int, slot_pos as int).len(),
    ensures
        r == db_entries(*t, name_pos as int, slot_pos as int)[i as int].1,
{
    if let Some((_, prc::ParamKind::List(l))) = t.0.first() {
        if let Some(prc::ParamKind::Struct(s)) = l.0.get(i) {
            if let Some((_, prc::ParamKind::U8(v))) = s.0.get(slot_pos) {
                return Some(*v);
            }
        }
    }
    None
}

/// Relies on the public fields of prc::ParamStruct, prc::ParamKind,
/// prc::ParamList and hash40::Hash40: the key hash of the slot-count field
/// of the database entry at `i`.
#[verifier::external_body]
pub(crate) fn db_entry_slot_key(
    t: &prc::ParamStruct,
    i: usize,
    name_pos: usize,
    slot_pos: usize,
) -> (r: u64)
    requires
        i < db_entries(*t, name_pos as int, slot_pos as int).len(),
        db_entries(*t, name_pos as int, slot_pos as int)[i as int].0 is Some,
    ensures
        r == db_entries(*t, name_pos as int, slot_pos as int)[i as int].2,
{
    if let Some((_, prc::ParamKind::List(l))) = t.0.first() {
        if let Some(prc::ParamKind::Struct(s)) = l.0.get(i) {
            if let Some((key, _)) = s.0.get(slot_pos) {
                return key.0;
            }
        }
    }
    0
}

/// Relies on the public fields of prc::ParamStruct, prc::ParamKind and
/// prc::ParamList: overwrites the slot-count field of the database entry at
/// `i` with an unsigned byte holding `v`, leaving every other part of the
/// tree as it was.
#[verifier::external_body]
pub(crate) fn db_set_entry_slot(
    t: &mut prc::ParamStruct,
    i: usize,
    name_pos: usize,
    slot_pos: usize,
    v: u8,
)
    requires
        name_pos != slot_pos,
        i < db_entries(*old(t), name_pos as int, slot_pos as int).len(),
        db_entries(*old(t), name_pos as int, slot_pos as int)[i as int].0 is Some,
    ensures
        db_entries(*final(t), name_pos as int, slot_pos as int) == db_entries(
            *old(t),
            name_pos as int,
            slot_pos as int,
        ).update(
            i as int,
            (
                db_entries(*old(t), name_pos as int, slot_pos as int)[i as int].0,
                Some(v),
                db_entries(*old(t), name_pos as int, slot_pos as int)[i as int].2,
                db_entries(*old(t), name_pos as int, slot_pos as int)[i as int].3,
            ),
        ),
        db_root_key(*final(t)) == db_root_key(*old(t)),
{
    if let Some((_, prc::ParamKind::List(l))) = t.0.first_mut() {
        if let Some(prc::ParamKind::Struct(s)) = l.0.get_mut(i) {
            if let Some(field) = s.0.get_mut(slot_pos) {
                field.1 = prc::ParamKind::U8(v);
            }
        }
    }
}

/// Relies on the public fields of prc::ParamStruct and hash40::Hash40: the
/// key hash of the first top-level entry.
#[verifier::external_body]
pub(crate) fn db_root_key_of(t: &prc::ParamStruct) -> (r: u64)
    ensures
        r == db_root_key(*t),
{
    match t.0.first() {
        Some((key, _)) => key.0,
        None => 0,
    }
}

} // verus!
