//! The slot scanner: walks a model of the mod packages' directory layout and
//! accumulates, per character identifier, the maximum required slot count.
//!
//! A costume directory is one whose name is `c` followed by a decimal index;
//! an index `i` contributes `i + 1` as a candidate requirement. Only the
//! maximum candidate per character is retained.

use vstd::prelude::*;
use vstd::string::StrSliceExecFns;
use crate::slot_map::{SlotMap, upsert_max};
use crate::aliases::{handle_special_names, spec_resolve};

verus! {

/// One immediate entry of a directory, as the filesystem yields it.
pub struct FsEntry {
    pub name: String,
    pub is_dir: bool,
}

/// Mathematical model of an `FsEntry`.
pub struct FsEntryV {
    pub name: Seq<char>,
    pub is_dir: bool,
}

impl View for FsEntry {
    type V = FsEntryV;

    open spec fn view(&self) -> FsEntryV {
        FsEntryV { name: self.name@, is_dir: self.is_dir }
    }
}

/// One immediate entry of a package's `fighter` directory. Its name is the
/// character identifier; `body` and `diver` hold the entries of the costume
/// containers `model/body` and `model/diver` where those exist.
pub struct CharacterDir {
    pub name: String,
    pub is_dir: bool,
    pub body: Option<Vec<FsEntry>>,
    pub diver: Option<Vec<FsEntry>>,
}

/// Mathematical model of a `CharacterDir`.
pub struct CharacterDirV {
    pub name: Seq<char>,
    pub is_dir: bool,
    pub body: Option<Seq<FsEntryV>>,
    pub diver: Option<Seq<FsEntryV>>,
}

/// The view of a sequence of filesystem entries.
pub open spec fn fs_entries_view(s: Seq<FsEntry>) -> Seq<FsEntryV> {
    s.map_values(|e: FsEntry| e@)
}

impl View for CharacterDir {
    type V = CharacterDirV;

    open spec fn view(&self) -> CharacterDirV {
        CharacterDirV {
            name: self.name@,
            is_dir: self.is_dir,
            body: match self.body {
                Some(v) => Some(fs_entries_view(v@)),
                None => None,
            },
            diver: match self.diver {
                Some(v) => Some(fs_entries_view(v@)),
                None => None,
            },
        }
    }
}

/// One immediate entry of the mods root directory: a package. `fighter` holds
/// the entries of its `fighter` subdirectory where that exists.
pub struct PackageDir {
    pub is_dir: bool,
    pub fighter: Option<Vec<CharacterDir>>,
}

/// Mathematical model of a `PackageDir`.
pub struct PackageDirV {
    pub is_dir: bool,
    pub fighter: Option<Seq<CharacterDirV>>,
}

/// The view of a sequence of character directories.
pub open spec fn character_dirs_view(s: Seq<CharacterDir>) -> Seq<CharacterDirV> {
    s.map_values(|c: CharacterDir| c@)
}

impl View for PackageDir {
    type V = PackageDirV;

    open spec fn view(&self) -> PackageDirV {
        PackageDirV {
            is_dir: self.is_dir,
            fighter: match self.fighter {
                Some(v) => Some(character_dirs_view(v@)),
                None => None,
            },
        }
    }
}

/// The view of a sequence of packages.
pub open spec fn packages_view(s: Seq<PackageDir>) -> Seq<PackageDirV> {
    s.map_values(|p: PackageDir| p@)
}

/// What to do when a directory name starts with `c` but the rest is not a
/// usable decimal costume index.
#[derive(Clone, Copy, Debug)]
pub enum MalformedPolicy {
    /// Ignore the directory.
    Skip,
    /// Abort the scan with `ScanError::MalformedCostumeIndex`.
    Abort,
}

/// A fatal scanning failure.
#[derive(Debug, Clone, PartialEq, Eq)]
pub enum ScanError {
    /// A directory name starts with `c` but its suffix is not a decimal
    /// costume index whose slot count fits in one byte. Carries the name.
    MalformedCostumeIndex(String),
}

// ---------------------------------------------------------------------------
// Costume directory names
// ---------------------------------------------------------------------------

/// Whether `c` is a decimal digit.
pub open spec fn char_is_digit(c: char) -> bool {
    '0' <= c <= '9'
}

/// The numeric value of a decimal digit.
pub open spec fn digit_val(c: char) -> int {
    c as int - '0' as int
}

/// Whether every character of `s` is a decimal digit.
pub open spec fn all_digits(s: Seq<char>) -> bool {
    forall|i: int| 0 <= i < s.len() ==> char_is_digit(#[trigger] s[i])
}

/// The value of `s` read as a decimal numeral.
pub open spec fn digits_val(s: Seq<char>) -> int
    decreases s.len(),
{
    if s.len() == 0 {
        0
    } else {
        digits_val(s.drop_last()) * 10 + digit_val(s.last())
    }
}

/// Whether `s` names a costume directory: `c` followed by at least one
/// decimal digit, whose index leaves the slot count `index + 1`
/// representable in one byte.
pub open spec fn is_costume_name(s: Seq<char>) -> bool {
    &&& s.len() >= 2
    &&& s[0] == 'c'
    &&& all_digits(s.skip(1))
    &&& digits_val(s.skip(1)) <= 254
}

/// The slot count a costume directory name contributes: its index plus one.
pub open spec fn costume_slots(s: Seq<char>) -> int {
    digits_val(s.skip(1)) + 1
}

/// Whether `s` starts with `c` without naming a costume directory.
pub open spec fn is_malformed_costume(s: Seq<char>) -> bool {
    s.len() >= 1 && s[0] == 'c' && !is_costume_name(s)
}

proof fn lemma_digits_val_nonneg(s: Seq<char>)
    requires
        all_digits(s),
    ensures
        digits_val(s) >= 0,
    decreases s.len(),
{
    if s.len() > 0 {
        assert(all_digits(s.drop_last()));
        lemma_digits_val_nonneg(s.drop_last());
    }
}

/// A decimal numeral is at least as large as any of its prefixes.
proof fn lemma_digits_val_prefix(s: Seq<char>, i: int)
    requires
        all_digits(s),
        0 <= i <= s.len(),
    ensures
        digits_val(s.take(i)) <= digits_val(s),
    decreases s.len() - i,
{
    if i == s.len() {
        assert(s.take(i) =~= s);
    } else {
        lemma_digits_val_prefix(s, i + 1);
        assert(s.take(i + 1).drop_last() =~= s.take(i));
        assert(all_digits(s.take(i)));
        lemma_digits_val_nonneg(s.take(i));
        assert(digits_val(s.take(i + 1)) == digits_val(s.take(i)) * 10 + digit_val(s.take(i + 1).last()));
    }
}

/// How one directory name classifies as a costume directory.
#[derive(Clone, Copy, PartialEq, Eq, Structural, Debug)]
pub enum CostumeParse {
    /// The name does not start with `c`.
    NotCostume,
    /// A costume directory; carries the slot count its index demands.
    Costume(u8),
    /// The name starts with `c` but is not a usable costume index.
    Malformed,
}

/// The digit value of `c`, if it is a decimal digit.
fn digit_value(c: char) -> (r: Option<u8>)
    ensures
        r == (if char_is_digit(c) {
            Some(digit_val(c) as u8)
        } else {
            None::<u8>
        }),
{
    if c == '0' { Some(0) }
    else if c == '1' { Some(1) }
    else if c == '2' { Some(2) }
    else if c == '3' { Some(3) }
    else if c == '4' { Some(4) }
    else if c == '5' { Some(5) }
    else if c == '6' { Some(6) }
    else if c == '7' { Some(7) }
    else if c == '8' { Some(8) }
    else if c == '9' { Some(9) }
    else { None }
}

/// Classifies a directory name as a costume directory, a malformed costume
/// directory, or neither.
pub fn parse_costume_name(name: &String) -> (r: CostumeParse)
    ensures
        r == (if is_costume_name(name@) {
            CostumeParse::Costume(costume_slots(name@) as u8)
        } else if is_malformed_costume(name@) {
            CostumeParse::Malformed
        } else {
            CostumeParse::NotCostume
        }),
{
    let s = name.as_str();
    let n = s.unicode_len();
    if n == 0 {
        return CostumeParse::NotCostume;
    }
    if s.get_char(0) != 'c' {
        return CostumeParse::NotCostume;
    }
    if n == 1 {
        return CostumeParse::Malformed;
    }
    let mut acc: u16 = 0;
    let mut i: usize = 1;
    while i < n
        invariant
            1 <= i <= n,
            n == name@.len(),
            s@ == name@,
            name@[0] == 'c',
            n >= 2,
            all_digits(name@.subrange(1, i as int)),
            acc as int == digits_val(name@.subrange(1, i as int)),
            acc <= 254,
        decreases n - i,
    {
        let c = s.get_char(i);
        let ghost prefix = name@.subrange(1, i as int);
        match digit_value(c) {
            Some(d) => {
                acc = acc * 10 + (d as u16);
                proof {
                    assert(name@.subrange(1, i as int + 1) =~= prefix.push(c));
                    assert(name@.subrange(1, i as int + 1).drop_last() =~= prefix);
                }
                if acc > 254 {
                    proof {
                        if all_digits(name@.skip(1)) {
                            assert(name@.subrange(1, i as int + 1) =~= name@.skip(1).take(i as int));
                            lemma_digits_val_prefix(name@.skip(1), i as int);
                        }
                    }
                    return CostumeParse::Malformed;
                }
            },
            None => {
                proof {
                    assert(!char_is_digit(name@.skip(1)[i - 1]));
                }
                return CostumeParse::Malformed;
            },
        }
        i = i + 1;
    }
    proof {
        assert(name@.subrange(1, n as int) =~= name@.skip(1));
    }
    CostumeParse::Costume((acc + 1) as u8)
}

// ---------------------------------------------------------------------------
// The scan itself
// ---------------------------------------------------------------------------

/// The costume container a character's costumes are read from: `model/body`
/// where it exists, else `model/diver`.
pub open spec fn chosen_container(c: CharacterDirV) -> Option<Seq<FsEntryV>> {
    if c.body is Some {
        c.body
    } else {
        c.diver
    }
}

/// Folds the costume directories of one container into the map, keyed under
/// `who`; malformed names contribute nothing.
pub open spec fn scan_costumes(m: Map<Seq<char>, u8>, who: Seq<char>, es: Seq<FsEntryV>) -> Map<
    Seq<char>,
    u8,
>
    decreases es.len(),
{
    if es.len() == 0 {
        m
    } else {
        let prev = scan_costumes(m, who, es.drop_last());
        let e = es.last();
        if e.is_dir && is_costume_name(e.name) {
            upsert_max(prev, who, costume_slots(e.name) as u8)
        } else {
            prev
        }
    }
}

/// Folds one character directory into the map.
pub open spec fn scan_character(m: Map<Seq<char>, u8>, c: CharacterDirV) -> Map<Seq<char>, u8> {
    if c.is_dir {
        match chosen_container(c) {
            Some(es) => scan_costumes(m, c.name, es),
            None => m,
        }
    } else {
        m
    }
}

/// Folds a sequence of character directories into the map, in order.
pub open spec fn scan_characters(m: Map<Seq<char>, u8>, cs: Seq<CharacterDirV>) -> Map<
    Seq<char>,
    u8,
>
    decreases cs.len(),
{
    if cs.len() == 0 {
        m
    } else {
        scan_character(scan_characters(m, cs.drop_last()), cs.last())
    }
}

/// Folds one package into the map: its `fighter` directory's characters,
/// where the package is a directory and has one.
pub open spec fn scan_package(m: Map<Seq<char>, u8>, p: PackageDirV) -> Map<Seq<char>, u8> {
    if p.is_dir && p.fighter is Some {
        scan_characters(m, p.fighter->0)
    } else {
        m
    }
}

/// Folds a sequence of packages into the map, in order.
pub open spec fn scan_packages(m: Map<Seq<char>, u8>, ps: Seq<PackageDirV>) -> Map<Seq<char>, u8>
    decreases ps.len(),
{
    if ps.len() == 0 {
        m
    } else {
        scan_package(scan_packages(m, ps.drop_last()), ps.last())
    }
}

/// Whether a container holds a malformed costume directory.
pub open spec fn container_has_malformed(es: Seq<FsEntryV>) -> bool {
    exists|i: int| 0 <= i < es.len() && (#[trigger] es[i]).is_dir && is_malformed_costume(es[i].name)
}

/// Whether a character directory's chosen container holds a malformed
/// costume directory.
pub open spec fn character_has_malformed(c: CharacterDirV) -> bool {
    c.is_dir && match chosen_container(c) {
        Some(es) => container_has_malformed(es),
        None => false,
    }
}

/// Whether any character directory of the sequence holds a malformed costume
/// directory.
pub open spec fn characters_have_malformed(cs: Seq<CharacterDirV>) -> bool {
    exists|i: int| 0 <= i < cs.len() && character_has_malformed(#[trigger] cs[i])
}

/// Whether any package of the sequence holds a malformed costume directory.
pub open spec fn packages_have_malformed(ps: Seq<PackageDirV>) -> bool {
    exists|i: int|
        0 <= i < ps.len() && (#[trigger] ps[i]).is_dir && ps[i].fighter is Some
            && characters_have_malformed(ps[i].fighter->0)
}

/// Scans the characters of one package's `fighter` directory, recording for
/// each the maximum slot count its costume directories demand.
#[verifier::loop_isolation(false)]
pub fn figher_check_max(
    characters: &Vec<CharacterDir>,
    fighter_max_slot: &mut SlotMap,
    policy: MalformedPolicy,
) -> (r: Result<(), ScanError>)
    requires
        old(fighter_max_slot).wf(),
    ensures
        final(fighter_max_slot).wf(),
        r is Ok ==> final(fighter_max_slot)@ == scan_characters(
            old(fighter_max_slot)@,
            character_dirs_view(characters@),
        ),
        r is Ok && policy is Abort ==> !characters_have_malformed(character_dirs_view(characters@)),
        r is Err ==> policy is Abort && characters_have_malformed(
            character_dirs_view(characters@),
        ),
        r matches Err(ScanError::MalformedCostumeIndex(nm)) ==> is_malformed_costume(nm@),
        forall|k: Seq<char>|
            old(fighter_max_slot)@.dom().contains(k) ==> final(fighter_max_slot)@.dom().contains(k)
                && final(fighter_max_slot)@[k] >= old(fighter_max_slot)@[k],
{
    let ghost m0 = fighter_max_slot@;
    let ghost cv = character_dirs_view(characters@);
    let n = characters.len();
    let mut i: usize = 0;
    while i < n
        invariant
            i <= n,
            n == characters@.len(),
            cv == character_dirs_view(characters@),
            fighter_max_slot.wf(),
            fighter_max_slot@ == scan_characters(m0, cv.take(i as int)),
            forall|j: int| 0 <= j < i ==> !character_has_malformed(#[trigger] cv[j]) || policy is Skip,
            forall|k: Seq<char>|
                m0.dom().contains(k) ==> fighter_max_slot@.dom().contains(k) && fighter_max_slot@[k]
                    >= m0[k],
        decreases n - i,
    {
        let ghost m_before = fighter_max_slot@;
        let c = &characters[i];
        proof {
            assert(cv[i as int] == c@);
        }
        if c.is_dir {
            let container: Option<&Vec<FsEntry>> = match &c.body {
                Some(b) => Some(b),
                None => match &c.diver {
                    Some(d) => Some(d),
                    None => None,
                },
            };
            match container {
                Some(es) => {
                    let ghost ev = fs_entries_view(es@);
                    proof {
                        assert(chosen_container(cv[i as int]) == Some(ev));
                    }
                    let en = es.len();
                    let mut j: usize = 0;
                    while j < en
                        invariant
                            j <= en,
                            en == es@.len(),
                            ev == fs_entries_view(es@),
                            fighter_max_slot.wf(),
                            fighter_max_slot@ == scan_costumes(m_before, c@.name, ev.take(j as int)),
                            forall|l: int|
                                0 <= l < j ==> !((#[trigger] ev[l]).is_dir && is_malformed_costume(
                                    ev[l].name,
                                )) || policy is Skip,
                            forall|k: Seq<char>|
                                m0.dom().contains(k) ==> fighter_max_slot@.dom().contains(k)
                                    && fighter_max_slot@[k] >= m0[k],
                            forall|k: Seq<char>|
                                m_before.dom().contains(k) ==> fighter_max_slot@.dom().contains(k)
                                    && fighter_max_slot@[k] >= m_before[k],
                        decreases en - j,
                    {
                        let e = &es[j];
                        proof {
                            assert(ev[j as int] == e@);
                            assert(ev.take(j as int + 1).drop_last() =~= ev.take(j as int));
                        }
                        if e.is_dir {
                            match parse_costume_name(&e.name) {
                                CostumeParse::Costume(v) => {
                                    fighter_max_slot.set_max(&c.name, v);
                                },
                                CostumeParse::NotCostume => {},
                                CostumeParse::Malformed => {
                                    match policy {
                                        MalformedPolicy::Abort => {
                                            proof {
                                                assert(ev[j as int].is_dir
                                                    && is_malformed_costume(ev[j as int].name));
                                                assert(container_has_malformed(ev));
                                                assert(character_has_malformed(cv[i as int]));
                                                assert(characters_have_malformed(cv));
                                            }
                                            return Err(
                                                ScanError::MalformedCostumeIndex(e.name.clone()),
                                            );
                                        },
                                        MalformedPolicy::Skip => {},
                                    }
                                },
                            }
                        }
                        j = j + 1;
                    }
                    proof {
                        assert(ev.take(en as int) =~= ev);
                        assert(fighter_max_slot@ == scan_character(m_before, cv[i as int]));
                    }
                },
                None => {
                    proof {
                        assert(chosen_container(cv[i as int]) is None);
                    }
                },
            }
        }
        proof {
            assert(cv.take(i as int + 1).drop_last() =~= cv.take(i as int));
            assert(fighter_max_slot@ == scan_characters(m0, cv.take(i as int + 1)));
        }
        i = i + 1;
    }
    proof {
        assert(cv.take(n as int) =~= cv);
    }
    Ok(())
}

/// Scans every package under the mods root: each package directory that has
/// a `fighter` directory contributes its characters' costume requirements.
#[verifier::loop_isolation(false)]
pub fn iterate_mods(
    packages: &Vec<PackageDir>,
    fighter_max_slot: &mut SlotMap,
    policy: MalformedPolicy,
) -> (r: Result<(), ScanError>)
    requires
        old(fighter_max_slot).wf(),
    ensures
        final(fighter_max_slot).wf(),
        r is Ok ==> final(fighter_max_slot)@ == scan_packages(
            old(fighter_max_slot)@,
            packages_view(packages@),
        ),
        r is Ok && policy is Abort ==> !packages_have_malformed(packages_view(packages@)),
        r is Err ==> policy is Abort && packages_have_malformed(packages_view(packages@)),
        r matches Err(ScanError::MalformedCostumeIndex(nm)) ==> is_malformed_costume(nm@),
        forall|k: Seq<char>|
            old(fighter_max_slot)@.dom().contains(k) ==> final(fighter_max_slot)@.dom().contains(k)
                && final(fighter_max_slot)@[k] >= old(fighter_max_slot)@[k],
{
    let ghost m0 = fighter_max_slot@;
    let ghost pv = packages_view(packages@);
    let n = packages.len();
    let mut i: usize = 0;
    while i < n
        invariant
            i <= n,
            n == packages@.len(),
            pv == packages_view(packages@),
            fighter_max_slot.wf(),
            fighter_max_slot@ == scan_packages(m0, pv.take(i as int)),
            forall|j: int|
                0 <= j < i ==> !((#[trigger] pv[j]).is_dir && pv[j].fighter is Some
                    && characters_have_malformed(pv[j].fighter->0)) || policy is Skip,
            forall|k: Seq<char>|
                m0.dom().contains(k) ==> fighter_max_slot@.dom().contains(k) && fighter_max_slot@[k]
                    >= m0[k],
        decreases n - i,
    {
        let p = &packages[i];
        proof {
            assert(pv[i as int] == p@);
        }
        if p.is_dir {
            match &p.fighter {
                Some(characters) => {
                    let ghost mb = fighter_max_slot@;
                    match figher_check_max(characters, fighter_max_slot, policy) {
                        Ok(()) => {},
                        Err(e) => {
                            proof {
                                assert(pv[i as int].fighter == Some(
                                    character_dirs_view(characters@),
                                ));
                                assert(packages_have_malformed(pv));
                                assert forall|k: Seq<char>| m0.dom().contains(k)
                                    implies fighter_max_slot@.dom().contains(k)
                                        && fighter_max_slot@[k] >= m0[k] by {
                                    assert(mb.dom().contains(k) && mb[k] >= m0[k]);
                                }
                            }
                            return Err(e);
                        },
                    }
                },
                None => {},
            }
        }
        proof {
            assert(pv.take(i as int + 1).drop_last() =~= pv.take(i as int));
            assert(fighter_max_slot@ == scan_packages(m0, pv.take(i as int + 1)));
        }
        i = i + 1;
    }
    proof {
        assert(pv.take(n as int) =~= pv);
    }
    Ok(())
}


/// `m2` keeps every requirement of `m1`, at least as high.
pub open spec fn never_lowers(m1: Map<Seq<char>, u8>, m2: Map<Seq<char>, u8>) -> bool {
    forall|k: Seq<char>|
        #[trigger] m1.dom().contains(k) ==> m2.dom().contains(k) && m2[k] >= m1[k]
}

proof fn lemma_scan_costumes_monotone(m: Map<Seq<char>, u8>, who: Seq<char>, es: Seq<FsEntryV>)
    ensures
        never_lowers(m, scan_costumes(m, who, es)),
    decreases es.len(),
{
    if es.len() > 0 {
        lemma_scan_costumes_monotone(m, who, es.drop_last());
        let prev = scan_costumes(m, who, es.drop_last());
        let r = scan_costumes(m, who, es);
        assert forall|k: Seq<char>| m.dom().contains(k) implies r.dom().contains(k) && r[k]
            >= m[k] by {
            assert(prev.dom().contains(k) && prev[k] >= m[k]);
        }
    }
}

proof fn lemma_scan_characters_monotone(m: Map<Seq<char>, u8>, cs: Seq<CharacterDirV>)
    ensures
        never_lowers(m, scan_characters(m, cs)),
    decreases cs.len(),
{
    if cs.len() > 0 {
        lemma_scan_characters_monotone(m, cs.drop_last());
        let prev = scan_characters(m, cs.drop_last());
        let c = cs.last();
        if c.is_dir && chosen_container(c) is Some {
            lemma_scan_costumes_monotone(prev, c.name, chosen_container(c)->0);
        }
        let r = scan_characters(m, cs);
        assert forall|k: Seq<char>| m.dom().contains(k) implies r.dom().contains(k) && r[k]
            >= m[k] by {
            assert(prev.dom().contains(k) && prev[k] >= m[k]);
        }
    }
}

/// Aggregation is monotonic: scanning one more package never lowers a stored
/// requirement, whatever costume counts the package holds.
pub proof fn lemma_scan_package_monotone(m: Map<Seq<char>, u8>, p: PackageDirV)
    ensures
        never_lowers(m, scan_package(m, p)),
{
    if p.is_dir && p.fighter is Some {
        lemma_scan_characters_monotone(m, p.fighter->0);
    }
}

proof fn lemma_scan_costumes_bounds(m: Map<Seq<char>, u8>, who: Seq<char>, es: Seq<FsEntryV>)
    ensures
        m.dom().contains(who) ==> scan_costumes(m, who, es).dom().contains(who) && scan_costumes(
            m,
            who,
            es,
        )[who] >= m[who],
        forall|i: int|
            0 <= i < es.len() && (#[trigger] es[i]).is_dir && is_costume_name(es[i].name)
                ==> scan_costumes(m, who, es).dom().contains(who) && scan_costumes(m, who, es)[who]
                >= costume_slots(es[i].name),
        scan_costumes(m, who, es).dom().contains(who) ==> (m.dom().contains(who) && scan_costumes(
            m,
            who,
            es,
        )[who] == m[who]) || (exists|i: int|
            0 <= i < es.len() && (#[trigger] es[i]).is_dir && is_costume_name(es[i].name)
                && scan_costumes(m, who, es)[who] == costume_slots(es[i].name)),
    decreases es.len(),
{
    if es.len() > 0 {
        lemma_scan_costumes_bounds(m, who, es.drop_last());
        let prev = scan_costumes(m, who, es.drop_last());
        let r = scan_costumes(m, who, es);
        let e = es.last();
        assert forall|i: int| 0 <= i < es.len() - 1 implies es.drop_last()[i] == es[i] by {}
        if e.is_dir && is_costume_name(e.name) {
            lemma_digits_val_nonneg(e.name.skip(1));
            let v = costume_slots(e.name) as u8;
            assert(v as int == costume_slots(e.name));
            assert(r == upsert_max(prev, who, v));
            assert(r.dom().contains(who));
            assert(r[who] >= v && r[who] >= if prev.dom().contains(who) {
                prev[who] as int
            } else {
                0
            });
            if prev.dom().contains(who) && prev[who] >= v {
                if !(m.dom().contains(who) && prev[who] == m[who]) {
                    let i = choose|i: int|
                        0 <= i < es.drop_last().len() && (#[trigger] es.drop_last()[i]).is_dir
                            && is_costume_name(es.drop_last()[i].name) && prev[who]
                            == costume_slots(es.drop_last()[i].name);
                    assert((#[trigger] es[i]).is_dir && is_costume_name(es[i].name) && r[who]
                        == costume_slots(es[i].name));
                }
            } else {
                assert(r[who] == v);
                assert((#[trigger] es[es.len() - 1]).is_dir && is_costume_name(
                    es[es.len() - 1].name,
                ) && r[who] == costume_slots(es[es.len() - 1].name));
            }
        } else {
            assert(r == prev);
            if r.dom().contains(who) && !(m.dom().contains(who) && r[who] == m[who]) {
                let i = choose|i: int|
                    0 <= i < es.drop_last().len() && (#[trigger] es.drop_last()[i]).is_dir
                        && is_costume_name(es.drop_last()[i].name) && prev[who] == costume_slots(
                        es.drop_last()[i].name,
                    );
                assert((#[trigger] es[i]).is_dir && is_costume_name(es[i].name) && r[who]
                    == costume_slots(es[i].name));
            }
        }
    }
}

/// For any enumeration of a full set of costume directories `c0 .. cNN`
/// under a character not yet in the map, the derived requirement is exactly
/// `NN + 1`, independent of the order in which the entries are scanned.
pub proof fn lemma_costume_set_requirement(
    m: Map<Seq<char>, u8>,
    who: Seq<char>,
    es: Seq<FsEntryV>,
    nn: u8,
)
    requires
        nn <= 254,
        !m.dom().contains(who),
        forall|i: int|
            0 <= i < es.len() ==> (#[trigger] es[i]).is_dir && is_costume_name(es[i].name)
                && costume_slots(es[i].name) <= nn + 1,
        exists|i: int| 0 <= i < es.len() && costume_slots((#[trigger] es[i]).name) == nn + 1,
    ensures
        scan_costumes(m, who, es).dom().contains(who),
        scan_costumes(m, who, es)[who] == nn + 1,
{
    lemma_scan_costumes_bounds(m, who, es);
    let r = scan_costumes(m, who, es);
    let w = choose|i: int| 0 <= i < es.len() && costume_slots((#[trigger] es[i]).name) == nn + 1;
    assert(es[w].is_dir && is_costume_name(es[w].name));
    assert(r.dom().contains(who) && r[who] >= nn + 1);
    let j = choose|i: int|
        0 <= i < es.len() && (#[trigger] es[i]).is_dir && is_costume_name(es[i].name) && r[who]
            == costume_slots(es[i].name);
    assert(r[who] <= nn + 1);
}

/// Scanning one costume container touches no key but the character's own.
proof fn lemma_scan_costumes_frame(m: Map<Seq<char>, u8>, who: Seq<char>, es: Seq<FsEntryV>)
    ensures
        forall|k: Seq<char>|
            k != who ==> (#[trigger] scan_costumes(m, who, es).dom().contains(k)
                <==> m.dom().contains(k)),
        forall|k: Seq<char>|
            k != who && m.dom().contains(k) ==> #[trigger] scan_costumes(m, who, es)[k] == m[k],
    decreases es.len(),
{
    if es.len() > 0 {
        lemma_scan_costumes_frame(m, who, es.drop_last());
        let prev = scan_costumes(m, who, es.drop_last());
        let r = scan_costumes(m, who, es);
        assert forall|k: Seq<char>| k != who implies (#[trigger] r.dom().contains(k)
            <==> m.dom().contains(k)) by {
            assert(r.dom().contains(k) <==> prev.dom().contains(k));
        }
        assert forall|k: Seq<char>| k != who && m.dom().contains(k) implies #[trigger] r[k]
            == m[k] by {
            assert(r[k] == prev[k]);
        }
    }
}

/// Where one container's scan settles the requirement for `who`, a container
/// holding the same entries settles it at least as high.
proof fn lemma_scan_costumes_dominates(
    m: Map<Seq<char>, u8>,
    who: Seq<char>,
    one: Seq<FsEntryV>,
    two: Seq<FsEntryV>,
)
    requires
        one.to_multiset() == two.to_multiset(),
        scan_costumes(m, who, one).dom().contains(who),
    ensures
        scan_costumes(m, who, two).dom().contains(who),
        scan_costumes(m, who, two)[who] >= scan_costumes(m, who, one)[who],
{
    broadcast use vstd::seq_lib::group_to_multiset_ensures;

    let a = scan_costumes(m, who, one);
    let b = scan_costumes(m, who, two);
    lemma_scan_costumes_bounds(m, who, one);
    lemma_scan_costumes_bounds(m, who, two);
    if m.dom().contains(who) && a[who] == m[who] {
        assert(b.dom().contains(who) && b[who] >= m[who]);
    } else {
        let i = choose|i: int|
            0 <= i < one.len() && (#[trigger] one[i]).is_dir && is_costume_name(one[i].name)
                && a[who] == costume_slots(one[i].name);
        assert(one.contains(one[i]));
        assert(one.to_multiset().count(one[i]) > 0);
        assert(two.to_multiset().count(one[i]) > 0);
        assert(two.contains(one[i]));
        let j = choose|j: int| 0 <= j < two.len() && two[j] == one[i];
        assert((#[trigger] two[j]).is_dir && is_costume_name(two[j].name));
        assert(b.dom().contains(who) && b[who] >= costume_slots(two[j].name));
    }
}

/// The derived requirement is independent of enumeration order: two
/// containers holding the same costume directories, however each is ordered,
/// scan to the same requirement map.
pub proof fn lemma_scan_costumes_order_independent(
    m: Map<Seq<char>, u8>,
    who: Seq<char>,
    es1: Seq<FsEntryV>,
    es2: Seq<FsEntryV>,
)
    requires
        es1.to_multiset() == es2.to_multiset(),
    ensures
        scan_costumes(m, who, es1) == scan_costumes(m, who, es2),
{
    let r1 = scan_costumes(m, who, es1);
    let r2 = scan_costumes(m, who, es2);
    lemma_scan_costumes_frame(m, who, es1);
    lemma_scan_costumes_frame(m, who, es2);
    if r1.dom().contains(who) {
        lemma_scan_costumes_dominates(m, who, es1, es2);
    }
    if r2.dom().contains(who) {
        lemma_scan_costumes_dominates(m, who, es2, es1);
    }
    assert(r1 =~= r2);
}


/// Whether folding this character directory can change the requirement
/// stored under `who`.
spec fn character_touches(c: CharacterDirV, who: Seq<char>) -> bool {
    c.name == who && c.is_dir && chosen_container(c) is Some
}

/// Scanning a container changes the requirement for `who` in the same way
/// from any two maps that agree at `who`.
proof fn lemma_scan_costumes_local(
    p1: Map<Seq<char>, u8>,
    p2: Map<Seq<char>, u8>,
    who: Seq<char>,
    es: Seq<FsEntryV>,
)
    requires
        p1.dom().contains(who) <==> p2.dom().contains(who),
        p1.dom().contains(who) ==> p1[who] == p2[who],
    ensures
        scan_costumes(p1, who, es).dom().contains(who) <==> scan_costumes(p2, who, es).dom().contains(who),
        scan_costumes(p1, who, es).dom().contains(who) ==> scan_costumes(p1, who, es)[who]
            == scan_costumes(p2, who, es)[who],
    decreases es.len(),
{
    if es.len() > 0 {
        lemma_scan_costumes_local(p1, p2, who, es.drop_last());
    }
}

/// Folding characters that cannot contribute under `who` leaves that key
/// untouched.
proof fn lemma_scan_characters_untouched(
    m: Map<Seq<char>, u8>,
    cs: Seq<CharacterDirV>,
    who: Seq<char>,
)
    requires
        forall|j: int| 0 <= j < cs.len() ==> !character_touches(#[trigger] cs[j], who),
    ensures
        scan_characters(m, cs).dom().contains(who) <==> m.dom().contains(who),
        m.dom().contains(who) ==> scan_characters(m, cs)[who] == m[who],
    decreases cs.len(),
{
    if cs.len() > 0 {
        assert forall|j: int| 0 <= j < cs.drop_last().len() implies !character_touches(
            #[trigger] cs.drop_last()[j],
            who,
        ) by {
            assert(cs.drop_last()[j] == cs[j]);
        }
        lemma_scan_characters_untouched(m, cs.drop_last(), who);
        let prev = scan_characters(m, cs.drop_last());
        let c = cs.last();
        if c.is_dir && chosen_container(c) is Some {
            lemma_scan_costumes_frame(prev, c.name, chosen_container(c)->0);
        }
    }
}

/// Where one character of `cs` can contribute under `who` and no other can,
/// the fold leaves at `who` exactly what that character's container alone
/// would, scanned straight from `m`.
proof fn lemma_scan_characters_at_key(
    m: Map<Seq<char>, u8>,
    cs: Seq<CharacterDirV>,
    ci: int,
    who: Seq<char>,
)
    requires
        0 <= ci < cs.len(),
        character_touches(cs[ci], who),
        forall|j: int| 0 <= j < cs.len() && j != ci ==> !character_touches(#[trigger] cs[j], who),
    ensures
        ({
            let direct = scan_costumes(m, who, chosen_container(cs[ci])->0);
            let r = scan_characters(m, cs);
            &&& (r.dom().contains(who) <==> direct.dom().contains(who))
            &&& (r.dom().contains(who) ==> r[who] == direct[who])
        }),
    decreases cs.len(),
{
    let es = chosen_container(cs[ci])->0;
    let prev = scan_characters(m, cs.drop_last());
    if ci == cs.len() - 1 {
        assert forall|j: int| 0 <= j < cs.drop_last().len() implies !character_touches(
            #[trigger] cs.drop_last()[j],
            who,
        ) by {
            assert(cs.drop_last()[j] == cs[j]);
        }
        lemma_scan_characters_untouched(m, cs.drop_last(), who);
        lemma_scan_costumes_local(prev, m, who, es);
        assert(cs.last() == cs[ci]);
        assert(scan_characters(m, cs) == scan_costumes(prev, who, es));
    } else {
        assert(cs.drop_last()[ci] == cs[ci]);
        assert forall|j: int| 0 <= j < cs.drop_last().len() && j != ci implies !character_touches(
            #[trigger] cs.drop_last()[j],
            who,
        ) by {
            assert(cs.drop_last()[j] == cs[j]);
        }
        lemma_scan_characters_at_key(m, cs.drop_last(), ci, who);
        let c = cs.last();
        if c.is_dir && chosen_container(c) is Some {
            assert(c.name != who);
            lemma_scan_costumes_frame(prev, c.name, chosen_container(c)->0);
        }
    }
}

/// A whole fighter directory scans to the same requirement map in whatever
/// order the filesystem yields its character directories, provided no two of
/// them share a name - as directory entries never do.
pub proof fn lemma_scan_characters_order_independent(
    m: Map<Seq<char>, u8>,
    cs1: Seq<CharacterDirV>,
    cs2: Seq<CharacterDirV>,
)
    requires
        cs1.to_multiset() == cs2.to_multiset(),
        forall|i: int, j: int| 0 <= i < j < cs1.len() ==> cs1[i].name != cs1[j].name,
        forall|i: int, j: int| 0 <= i < j < cs2.len() ==> cs2[i].name != cs2[j].name,
    ensures
        scan_characters(m, cs1) == scan_characters(m, cs2),
{
    broadcast use vstd::seq_lib::group_to_multiset_ensures;

    let r1 = scan_characters(m, cs1);
    let r2 = scan_characters(m, cs2);
    assert forall|k: Seq<char>|
        #![trigger r1.dom().contains(k)]
        #![trigger r2.dom().contains(k)]
        (r1.dom().contains(k) <==> r2.dom().contains(k)) && (r1.dom().contains(k) ==> r1[k]
            == r2[k]) by {
        if exists|i: int| 0 <= i < cs1.len() && character_touches(#[trigger] cs1[i], k) {
            let ci = choose|i: int| 0 <= i < cs1.len() && character_touches(#[trigger] cs1[i], k);
            assert forall|j: int| 0 <= j < cs1.len() && j != ci implies !character_touches(
                #[trigger] cs1[j],
                k,
            ) by {
                if j < ci {
                    assert(cs1[j].name != cs1[ci].name);
                } else {
                    assert(cs1[ci].name != cs1[j].name);
                }
            }
            assert(cs1.contains(cs1[ci]));
            assert(cs1.to_multiset().count(cs1[ci]) > 0);
            assert(cs2.to_multiset().count(cs1[ci]) > 0);
            assert(cs2.contains(cs1[ci]));
            let cj = choose|j: int| 0 <= j < cs2.len() && cs2[j] == cs1[ci];
            assert(character_touches(cs2[cj], k));
            assert forall|j: int| 0 <= j < cs2.len() && j != cj implies !character_touches(
                #[trigger] cs2[j],
                k,
            ) by {
                if j < cj {
                    assert(cs2[j].name != cs2[cj].name);
                } else {
                    assert(cs2[cj].name != cs2[j].name);
                }
            }
            lemma_scan_characters_at_key(m, cs1, ci, k);
            lemma_scan_characters_at_key(m, cs2, cj, k);
            assert(chosen_container(cs2[cj]) == chosen_container(cs1[ci]));
        } else {
            assert forall|j: int| 0 <= j < cs1.len() implies !character_touches(
                #[trigger] cs1[j],
                k,
            ) by {}
            assert forall|j: int| 0 <= j < cs2.len() implies !character_touches(
                #[trigger] cs2[j],
                k,
            ) by {
                if character_touches(cs2[j], k) {
                    assert(cs2.contains(cs2[j]));
                    assert(cs2.to_multiset().count(cs2[j]) > 0);
                    assert(cs1.to_multiset().count(cs2[j]) > 0);
                    assert(cs1.contains(cs2[j]));
                    let i = choose|i: int| 0 <= i < cs1.len() && cs1[i] == cs2[j];
                    assert(character_touches(cs1[i], k));
                }
            }
            lemma_scan_characters_untouched(m, cs1, k);
            lemma_scan_characters_untouched(m, cs2, k);
        }
    }
    assert(r1 =~= r2);
}

/// For a fighter directory holding one subdirectory for the character `who`
/// (no other subdirectory carries that name) whose chosen container is a
/// full set of costume directories `c0 .. cNN`, the derived requirement for
/// `who` is exactly `NN + 1` - wherever the character stands among its
/// siblings, whatever they contribute under their own names, and in whatever
/// order anything is enumerated.
pub proof fn lemma_fighter_dir_requirement(
    m: Map<Seq<char>, u8>,
    cs: Seq<CharacterDirV>,
    ci: int,
    nn: u8,
)
    requires
        nn <= 254,
        0 <= ci < cs.len(),
        cs[ci].is_dir,
        chosen_container(cs[ci]) is Some,
        !m.dom().contains(cs[ci].name),
        forall|j: int| 0 <= j < cs.len() && j != ci ==> (#[trigger] cs[j]).name != cs[ci].name,
        forall|i: int|
            0 <= i < chosen_container(cs[ci])->0.len() ==> (#[trigger] chosen_container(
                cs[ci],
            )->0[i]).is_dir && is_costume_name(chosen_container(cs[ci])->0[i].name)
                && costume_slots(chosen_container(cs[ci])->0[i].name) <= nn + 1,
        exists|i: int|
            0 <= i < chosen_container(cs[ci])->0.len() && costume_slots(
                (#[trigger] chosen_container(cs[ci])->0[i]).name,
            ) == nn + 1,
    ensures
        scan_characters(m, cs).dom().contains(cs[ci].name),
        scan_characters(m, cs)[cs[ci].name] == nn + 1,
    decreases cs.len(),
{
    let who = cs[ci].name;
    let prev = scan_characters(m, cs.drop_last());
    if ci == cs.len() - 1 {
        assert forall|j: int| 0 <= j < cs.drop_last().len() implies !character_touches(
            #[trigger] cs.drop_last()[j],
            who,
        ) by {
            assert(cs.drop_last()[j] == cs[j]);
            assert(cs[j].name != who);
        }
        lemma_scan_characters_untouched(m, cs.drop_last(), who);
        let es = chosen_container(cs[ci])->0;
        lemma_costume_set_requirement(prev, who, es, nn);
        assert(cs.last() == cs[ci]);
        assert(scan_characters(m, cs) == scan_costumes(prev, who, es));
    } else {
        assert(cs.drop_last()[ci] == cs[ci]);
        assert forall|j: int|
            0 <= j < cs.drop_last().len() && j != ci implies (#[trigger] cs.drop_last()[j]).name
            != cs.drop_last()[ci].name by {
            assert(cs.drop_last()[j] == cs[j]);
        }
        lemma_fighter_dir_requirement(m, cs.drop_last(), ci, nn);
        let c = cs.last();
        assert(c.name != who);
        if c.is_dir && chosen_container(c) is Some {
            lemma_scan_costumes_frame(prev, c.name, chosen_container(c)->0);
        }
    }
}

/// Scans every package and then expands the alias table: the complete
/// derivation of the slot requirement map from the directory layout.
pub fn parse_max_slot(
    packages: &Vec<PackageDir>,
    fighter_max_slot: &mut SlotMap,
    policy: MalformedPolicy,
) -> (r: Result<(), ScanError>)
    requires
        old(fighter_max_slot).wf(),
    ensures
        final(fighter_max_slot).wf(),
        r is Ok ==> final(fighter_max_slot)@ == spec_resolve(
            scan_packages(old(fighter_max_slot)@, packages_view(packages@)),
        ),
        r is Ok && policy is Abort ==> !packages_have_malformed(packages_view(packages@)),
        r is Err ==> policy is Abort && packages_have_malformed(packages_view(packages@)),
        r matches Err(ScanError::MalformedCostumeIndex(nm)) ==> is_malformed_costume(nm@),
{
    match iterate_mods(packages, fighter_max_slot, policy) {
        Ok(()) => {
            handle_special_names(fighter_max_slot);
            Ok(())
        },
        Err(e) => Err(e),
    }
}

} // verus!
