//! What is known of a customer's situation.
use crate::text::same;
use vstd::prelude::*;

verus! {

/// The kinds of condition that are gathered over a conversation.
#[derive(Debug, Clone, Copy, PartialEq, Eq, Structural)]
pub enum ConditionKey {
    Housing,
    Target,
    Concern,
    Budget,
    Install,
}

impl ConditionKey {
    /// The name of this kind of condition.
    pub open spec fn name(self) -> Seq<char> {
        match self {
            ConditionKey::Housing => "housing"@,
            ConditionKey::Target => "target"@,
            ConditionKey::Concern => "concern"@,
            ConditionKey::Budget => "budget"@,
            ConditionKey::Install => "install"@,
        }
    }

    /// The name of this kind of condition.
    pub fn as_str(self) -> (r: &'static str)
        ensures
            r@ == self.name(),
    {
        match self {
            ConditionKey::Housing => "housing",
            ConditionKey::Target => "target",
            ConditionKey::Concern => "concern",
            ConditionKey::Budget => "budget",
            ConditionKey::Install => "install",
        }
    }

    /// The values that a condition of this kind can have.
    pub open spec fn values(self) -> Seq<Seq<char>> {
        match self {
            ConditionKey::Housing => seq![
                "detached_owned"@,
                "detached_rented"@,
                "apartment_owned"@,
                "apartment_rented"@,
            ],
            ConditionKey::Target => seq![
                "self_home"@,
                "parent_home"@,
                "vacant_home"@,
                "store"@,
            ],
            ConditionKey::Concern => seq![
                "intrusion"@,
                "monitoring"@,
                "package_theft"@,
                "stalking"@,
                "fire_disaster"@,
            ],
            ConditionKey::Budget => seq!["under_10k"@, "10k_50k"@, "over_50k"@],
            ConditionKey::Install => seq!["construction_ok"@, "no_construction"@],
        }
    }
}

/// What was understood of a customer's message.
#[derive(Debug, Clone, PartialEq, Eq)]
pub struct Understanding {
    /// The message is about home security.
    pub in_domain: bool,
    /// Someone may be in danger.
    pub emergency: bool,
    /// The customer needs support for a product that they own.
    pub urtect_support: bool,
    /// The customer wants to be contacted.
    pub lead_interest: bool,
    /// The customer asks for products.
    pub product_intent: bool,
    pub summary_ja: String,
    pub conditions: Vec<(ConditionKey, String)>,
}

/// The kind of condition with the given name.
pub open spec fn key_named(name: Seq<char>) -> Option<ConditionKey> {
    if name == "housing"@ {
        Some(ConditionKey::Housing)
    } else if name == "target"@ {
        Some(ConditionKey::Target)
    } else if name == "concern"@ {
        Some(ConditionKey::Concern)
    } else if name == "budget"@ {
        Some(ConditionKey::Budget)
    } else if name == "install"@ {
        Some(ConditionKey::Install)
    } else {
        None
    }
}

/// Whether `value` is among the given words.
fn one_of(words: &[&'static str], value: &str) -> (r: bool)
    ensures
        r == exists|i: int| 0 <= i < words@.len() && (#[trigger] words@[i])@ == value@,
{
    let mut i: usize = 0;
    while i < words.len()
        invariant
            i <= words.len(),
            forall|j: int| 0 <= j < i ==> (#[trigger] words@[j])@ != value@,
        decreases words.len() - i,
    {
        if same(words[i], value) {
            return true;
        }
        i = i + 1;
    }
    false
}

/// The condition that a name and a value stand for; there is none where the
/// name is unknown or the value is not one of its values.
pub fn normalize_condition(name: &str, value: &str) -> (r: Option<(ConditionKey, String)>)
    ensures
        match r {
            Some((k, v)) => key_named(name@) == Some(k) && v@ == value@ && k.values().contains(value@),
            None => key_named(name@) is None || !(key_named(name@)->0).values().contains(value@),
        },
{
    let key = if same(name, "housing") {
        ConditionKey::Housing
    } else if same(name, "target") {
        ConditionKey::Target
    } else if same(name, "concern") {
        ConditionKey::Concern
    } else if same(name, "budget") {
        ConditionKey::Budget
    } else if same(name, "install") {
        ConditionKey::Install
    } else {
        return None;
    };
    let words: Vec<&'static str> = match key {
        ConditionKey::Housing => vec![
            "detached_owned",
            "detached_rented",
            "apartment_owned",
            "apartment_rented",
        ],
        ConditionKey::Target => vec!["self_home", "parent_home", "vacant_home", "store"],
        ConditionKey::Concern => vec![
            "intrusion",
            "monitoring",
            "package_theft",
            "stalking",
            "fire_disaster",
        ],
        ConditionKey::Budget => vec!["under_10k", "10k_50k", "over_50k"],
        ConditionKey::Install => vec!["construction_ok", "no_construction"],
    };
    assert(key.values() =~= words@.map_values(|w: &'static str| w@));
    let ok = one_of(&words, value);
    proof {
        let all = words@.map_values(|w: &'static str| w@);
        if ok {
            let i = choose|i: int| 0 <= i < words@.len() && (#[trigger] words@[i])@ == value@;
            assert(all[i] == value@);
        } else {
            assert forall|i: int| 0 <= i < all.len() implies all[i] != value@ by {
                assert(words@[i]@ != value@);
            }
        }
    }
    if ok {
        Some((key, value.to_owned()))
    } else {
        None
    }
}

/// The name of each kind of condition stands for that kind, and no other name
/// stands for any.
pub proof fn names_and_kinds_belong_together(key: ConditionKey, name: Seq<char>)
    ensures
        key_named(key.name()) == Some(key),
        key_named(name) is Some ==> (key_named(name)->0).name() == name,
{
    reveal_strlit("housing");
    reveal_strlit("target");
    reveal_strlit("concern");
    reveal_strlit("budget");
    reveal_strlit("install");
    assert("housing"@[0] == 'h');
    assert("target"@[0] == 't');
    assert("concern"@[0] == 'c');
    assert("budget"@[0] == 'b');
    assert("install"@[0] == 'i');
}

/// No value belongs to two kinds of condition, and none is there twice.
pub proof fn values_belong_to_one_kind(a: ConditionKey, b: ConditionKey, i: int, j: int)
    requires
        0 <= i < a.values().len(),
        0 <= j < b.values().len(),
        a.values()[i] == b.values()[j],
    ensures
        a == b,
        i == j,
{
    reveal_strlit("detached_owned");
    reveal_strlit("detached_rented");
    reveal_strlit("apartment_owned");
    reveal_strlit("apartment_rented");
    reveal_strlit("self_home");
    reveal_strlit("parent_home");
    reveal_strlit("vacant_home");
    reveal_strlit("store");
    reveal_strlit("intrusion");
    reveal_strlit("monitoring");
    reveal_strlit("package_theft");
    reveal_strlit("stalking");
    reveal_strlit("fire_disaster");
    reveal_strlit("under_10k");
    reveal_strlit("10k_50k");
    reveal_strlit("over_50k");
    reveal_strlit("construction_ok");
    reveal_strlit("no_construction");
    assert("detached_owned"@.len() == 14 && "detached_owned"@[0] == 'd');
    assert("detached_rented"@.len() == 15 && "detached_rented"@[0] == 'd');
    assert("apartment_owned"@.len() == 15 && "apartment_owned"@[0] == 'a');
    assert("apartment_rented"@.len() == 16);
    assert("self_home"@.len() == 9 && "self_home"@[0] == 's' && "self_home"@[1] == 'e');
    assert("parent_home"@.len() == 11 && "parent_home"@[0] == 'p');
    assert("vacant_home"@.len() == 11 && "vacant_home"@[0] == 'v');
    assert("store"@.len() == 5);
    assert("intrusion"@.len() == 9 && "intrusion"@[0] == 'i');
    assert("monitoring"@.len() == 10);
    assert("package_theft"@.len() == 13 && "package_theft"@[0] == 'p');
    assert("stalking"@.len() == 8 && "stalking"@[0] == 's');
    assert("fire_disaster"@.len() == 13 && "fire_disaster"@[0] == 'f');
    assert("under_10k"@.len() == 9 && "under_10k"@[0] == 'u');
    assert("10k_50k"@.len() == 7);
    assert("over_50k"@.len() == 8 && "over_50k"@[0] == 'o');
    assert("construction_ok"@.len() == 15 && "construction_ok"@[0] == 'c');
    assert("no_construction"@.len() == 15 && "no_construction"@[0] == 'n');
}

} // verus!
