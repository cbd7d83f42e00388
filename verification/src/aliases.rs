//! The alias resolver: some characters are presented in the baseline tree
//! under several identifiers although one physical fighter's costume set
//! drives them all. A table of rules maps each canonical identifier to the
//! aliases that must share its slot count.

use vstd::prelude::*;
use crate::slot_map::SlotMap;

verus! {

/// One alias rule: every identifier in `aliases` shares the slot count
/// scanned for `canonical`.
pub struct AliasRule {
    pub canonical: String,
    pub aliases: Vec<String>,
}

/// Mathematical model of an `AliasRule`.
pub struct AliasRuleV {
    pub canonical: Seq<char>,
    pub aliases: Seq<Seq<char>>,
}

impl View for AliasRule {
    type V = AliasRuleV;

    open spec fn view(&self) -> AliasRuleV {
        AliasRuleV {
            canonical: self.canonical@,
            aliases: self.aliases@.map_values(|a: String| a@),
        }
    }
}

/// The view of a sequence of alias rules.
pub open spec fn rules_view(s: Seq<AliasRule>) -> Seq<AliasRuleV> {
    s.map_values(|r: AliasRule| r@)
}

/// Inserts every name of `names` with value `v`, in order.
pub open spec fn insert_all(m: Map<Seq<char>, u8>, names: Seq<Seq<char>>, v: u8) -> Map<
    Seq<char>,
    u8,
>
    decreases names.len(),
{
    if names.len() == 0 {
        m
    } else {
        insert_all(m, names.drop_last(), v).insert(names.last(), v)
    }
}

/// Applies one rule: where the map holds the canonical identifier, every
/// alias receives its slot count; where it does not, nothing changes.
pub open spec fn apply_rule(m: Map<Seq<char>, u8>, r: AliasRuleV) -> Map<Seq<char>, u8> {
    if m.dom().contains(r.canonical) {
        insert_all(m, r.aliases, m[r.canonical])
    } else {
        m
    }
}

/// Applies a sequence of rules, in order.
pub open spec fn apply_rules(m: Map<Seq<char>, u8>, rs: Seq<AliasRuleV>) -> Map<Seq<char>, u8>
    decreases rs.len(),
{
    if rs.len() == 0 {
        m
    } else {
        apply_rule(apply_rules(m, rs.drop_last()), rs.last())
    }
}

/// The built-in alias table: the `element` fighter drives four separate
/// baseline entries.
pub open spec fn spec_default_rules() -> Seq<AliasRuleV> {
    seq![
        AliasRuleV {
            canonical: "element"@,
            aliases: seq!["eflame_first"@, "elight_first"@, "eflame_only"@, "elight_only"@],
        },
    ]
}

/// What alias resolution does to a requirement map.
pub open spec fn spec_resolve(m: Map<Seq<char>, u8>) -> Map<Seq<char>, u8> {
    apply_rules(m, spec_default_rules())
}

/// What `insert_all` leaves at each key.
proof fn lemma_insert_all_effect(m: Map<Seq<char>, u8>, names: Seq<Seq<char>>, v: u8)
    ensures
        forall|k: Seq<char>|
            #[trigger] insert_all(m, names, v).dom().contains(k) <==> m.dom().contains(k)
                || names.contains(k),
        forall|k: Seq<char>|
            insert_all(m, names, v).dom().contains(k) ==> #[trigger] insert_all(m, names, v)[k]
                == (if names.contains(k) {
                    v
                } else {
                    m[k]
                }),
    decreases names.len(),
{
    if names.len() > 0 {
        let prev = insert_all(m, names.drop_last(), v);
        let whole = insert_all(m, names, v);
        lemma_insert_all_effect(m, names.drop_last(), v);
        assert(names.contains(names.last())) by {
            assert(names[names.len() - 1] == names.last());
        }
        assert forall|k: Seq<char>| names.drop_last().contains(k) implies names.contains(k) by {
            let i = choose|i: int| 0 <= i < names.drop_last().len() && names.drop_last()[i] == k;
            assert(names[i] == k);
        }
        assert forall|k: Seq<char>| names.contains(k) && k != names.last()
            implies names.drop_last().contains(k) by {
            let i = choose|i: int| 0 <= i < names.len() && names[i] == k;
            if i < names.len() - 1 {
                assert(names.drop_last()[i] == k);
            }
        }
        assert(whole == prev.insert(names.last(), v));
        assert forall|k: Seq<char>| #[trigger] whole.dom().contains(k) <==> m.dom().contains(k)
            || names.contains(k) by {
            if k == names.last() {
                assert(whole.dom().contains(k));
            }
        }
        assert forall|k: Seq<char>| whole.dom().contains(k) implies #[trigger] whole[k] == (
        if names.contains(k) {
            v
        } else {
            m[k]
        }) by {
            if k == names.last() {
                assert(whole[k] == v);
            } else {
                assert(whole[k] == prev[k]);
            }
        }
    }
}

/// Inserting names that already carry the value changes nothing.
proof fn lemma_insert_all_noop(m: Map<Seq<char>, u8>, names: Seq<Seq<char>>, v: u8)
    requires
        forall|i: int|
            0 <= i < names.len() ==> m.dom().contains(#[trigger] names[i]) && m[names[i]] == v,
    ensures
        insert_all(m, names, v) == m,
    decreases names.len(),
{
    if names.len() > 0 {
        lemma_insert_all_noop(m, names.drop_last(), v);
        assert(insert_all(m, names, v) =~= m);
    }
}

/// Alias expansion is idempotent: resolving an already-resolved requirement
/// map changes nothing, so resolving twice yields the same map as resolving
/// once.
pub proof fn lemma_resolve_idempotent(m: Map<Seq<char>, u8>)
    ensures
        spec_resolve(spec_resolve(m)) == spec_resolve(m),
{
    broadcast use vstd::string::group_string_axioms;

    reveal_strlit("element");
    reveal_strlit("eflame_first");
    reveal_strlit("elight_first");
    reveal_strlit("eflame_only");
    reveal_strlit("elight_only");
    let rs = spec_default_rules();
    let r = rs[0];
    let none_rs = Seq::<AliasRuleV>::empty();
    assert(rs.drop_last() =~= none_rs);
    assert(apply_rules(m, none_rs) == m);
    assert(rs.last() == r);
    assert(apply_rules(m, rs) == apply_rule(apply_rules(m, rs.drop_last()), rs.last()));
    assert(spec_resolve(m) == apply_rule(m, r));
    let m1 = spec_resolve(m);
    assert(apply_rules(m1, none_rs) == m1);
    assert(apply_rules(m1, rs) == apply_rule(apply_rules(m1, rs.drop_last()), rs.last()));
    assert(spec_resolve(m1) == apply_rule(m1, r));
    assert("element"@.len() == 7);
    assert("eflame_first"@.len() == 12);
    assert("elight_first"@.len() == 12);
    assert("eflame_only"@.len() == 11);
    assert("elight_only"@.len() == 11);
    if m.dom().contains(r.canonical) {
        let v = m[r.canonical];
        assert(r.aliases[0] != r.canonical && r.aliases[1] != r.canonical && r.aliases[2]
            != r.canonical && r.aliases[3] != r.canonical);
        lemma_insert_all_effect(m, r.aliases, v);
        assert(!r.aliases.contains(r.canonical)) by {
            assert forall|i: int| 0 <= i < r.aliases.len() implies r.aliases[i] != r.canonical by {
                assert(r.aliases.len() == 4);
            }
        }
        assert(m1.dom().contains(r.canonical) && m1[r.canonical] == v);
        assert forall|i: int|
            0 <= i < r.aliases.len() implies m1.dom().contains(#[trigger] r.aliases[i])
                && m1[r.aliases[i]] == v by {
            assert(r.aliases.contains(r.aliases[i]));
        }
        lemma_insert_all_noop(m1, r.aliases, v);
    }
}

/// The built-in alias table, as a value.
pub fn default_alias_rules() -> (r: Vec<AliasRule>)
    ensures
        rules_view(r@) == spec_default_rules(),
{
    let mut aliases: Vec<String> = Vec::new();
    aliases.push("eflame_first".to_owned());
    aliases.push("elight_first".to_owned());
    aliases.push("eflame_only".to_owned());
    aliases.push("elight_only".to_owned());
    let rule = AliasRule { canonical: "element".to_owned(), aliases };
    let mut rules: Vec<AliasRule> = Vec::new();
    rules.push(rule);
    proof {
        assert(rules_view(rules@)[0].aliases =~= spec_default_rules()[0].aliases);
        assert(rules_view(rules@) =~~= spec_default_rules());
    }
    rules
}

/// Applies every rule of `rules` to the map, in order.
#[verifier::loop_isolation(false)]
pub fn apply_alias_rules(map: &mut SlotMap, rules: &Vec<AliasRule>)
    requires
        old(map).wf(),
    ensures
        final(map).wf(),
        final(map)@ == apply_rules(old(map)@, rules_view(rules@)),
{
    let ghost m0 = map@;
    let ghost rv = rules_view(rules@);
    let n = rules.len();
    let mut i: usize = 0;
    while i < n
        invariant
            i <= n,
            map.wf(),
            map@ == apply_rules(m0, rv.take(i as int)),
        decreases n - i,
    {
        let rule = &rules[i];
        proof {
            assert(rv[i as int] == rule@);
        }
        let ghost mr = map@;
        match map.get(&rule.canonical) {
            Some(v) => {
                let ghost av = rule@.aliases;
                let an = rule.aliases.len();
                let mut j: usize = 0;
                while j < an
                    invariant
                        j <= an,
                        map.wf(),
                        map@ == insert_all(mr, av.take(j as int), v),
                    decreases an - j,
                {
                    proof {
                        assert(av[j as int] == rule.aliases@[j as int]@);
                        assert(av.take(j as int + 1).drop_last() =~= av.take(j as int));
                    }
                    map.insert(&rule.aliases[j], v);
                    j = j + 1;
                }
                proof {
                    assert(av.take(an as int) =~= av);
                    assert(map@ == apply_rule(mr, rv[i as int]));
                }
            },
            None => {
                proof {
                    assert(map@ == apply_rule(mr, rv[i as int]));
                }
            },
        }
        proof {
            assert(rv.take(i as int + 1).drop_last() =~= rv.take(i as int));
        }
        i = i + 1;
    }
    proof {
        assert(rv.take(n as int) =~= rv);
    }
}

/// Expands the built-in alias table over the requirement map: where the
/// `element` fighter was scanned, its four derived identifiers receive the
/// same slot count.
pub fn handle_special_names(fighter_max: &mut SlotMap)
    requires
        old(fighter_max).wf(),
    ensures
        final(fighter_max).wf(),
        final(fighter_max)@ == spec_resolve(old(fighter_max)@),
{
    let rules = default_alias_rules();
    apply_alias_rules(fighter_max, &rules);
}

} // verus!
