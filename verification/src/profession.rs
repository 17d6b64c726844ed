//! The professions, by the lower-case names that marker packs use to filter
//! markers by profession.

use vstd::prelude::*;
use crate::text::same_text;
use vstd::arithmetic::power2::{pow2, lemma2_to64};

verus! {

/// A profession. A marker filter is a set of them, one bit each.
#[derive(Clone, Copy, Debug, PartialEq, Eq, Structural)]
pub enum Profession {
    Elementalist,
    Engineer,
    Guardian,
    Mesmer,
    Necromancer,
    Ranger,
    Revenant,
    Thief,
    Warrior,
}

/// The lower-case name of a profession.
pub open spec fn profession_name(p: Profession) -> Seq<char> {
    match p {
        Profession::Guardian => "guardian"@,
        Profession::Warrior => "warrior"@,
        Profession::Engineer => "engineer"@,
        Profession::Ranger => "ranger"@,
        Profession::Thief => "thief"@,
        Profession::Elementalist => "elementalist"@,
        Profession::Mesmer => "mesmer"@,
        Profession::Necromancer => "necromancer"@,
        Profession::Revenant => "revenant"@,
    }
}

/// The profession a lower-case name stands for, if any.
pub open spec fn profession_of_name(s: Seq<char>) -> Option<Profession> {
    if s == "guardian"@ {
        Some(Profession::Guardian)
    } else if s == "warrior"@ {
        Some(Profession::Warrior)
    } else if s == "engineer"@ {
        Some(Profession::Engineer)
    } else if s == "ranger"@ {
        Some(Profession::Ranger)
    } else if s == "thief"@ {
        Some(Profession::Thief)
    } else if s == "elementalist"@ {
        Some(Profession::Elementalist)
    } else if s == "mesmer"@ {
        Some(Profession::Mesmer)
    } else if s == "necromancer"@ {
        Some(Profession::Necromancer)
    } else if s == "revenant"@ {
        Some(Profession::Revenant)
    } else {
        None
    }
}

/// The flag of a profession in a filter.
pub open spec fn profession_bits(p: Profession) -> u16 {
    match p {
        Profession::Elementalist => 1,
        Profession::Engineer => 2,
        Profession::Guardian => 4,
        Profession::Mesmer => 8,
        Profession::Necromancer => 16,
        Profession::Ranger => 32,
        Profession::Revenant => 64,
        Profession::Thief => 128,
        Profession::Warrior => 256,
    }
}

impl Profession {
    /// The profession of a lower-case name; any other text is refused with
    /// the message `invalid profession`.
    pub fn from_name(s: &str) -> (r: Result<Profession, &'static str>)
        ensures
            r matches Ok(p) ==> profession_of_name(s@) == Some(p),
            r matches Err(e) ==> profession_of_name(s@) is None && e@ == "invalid profession"@,
    {
        if same_text(s, "guardian") {
            Ok(Profession::Guardian)
        } else if same_text(s, "warrior") {
            Ok(Profession::Warrior)
        } else if same_text(s, "engineer") {
            Ok(Profession::Engineer)
        } else if same_text(s, "ranger") {
            Ok(Profession::Ranger)
        } else if same_text(s, "thief") {
            Ok(Profession::Thief)
        } else if same_text(s, "elementalist") {
            Ok(Profession::Elementalist)
        } else if same_text(s, "mesmer") {
            Ok(Profession::Mesmer)
        } else if same_text(s, "necromancer") {
            Ok(Profession::Necromancer)
        } else if same_text(s, "revenant") {
            Ok(Profession::Revenant)
        } else {
            Err("invalid profession")
        }
    }

    /// The lower-case name of the profession.
    pub fn as_ref(&self) -> (r: &'static str)
        ensures
            r@ == profession_name(*self),
    {
        match self {
            Profession::Guardian => "guardian",
            Profession::Warrior => "warrior",
            Profession::Engineer => "engineer",
            Profession::Ranger => "ranger",
            Profession::Thief => "thief",
            Profession::Elementalist => "elementalist",
            Profession::Mesmer => "mesmer",
            Profession::Necromancer => "necromancer",
            Profession::Revenant => "revenant",
        }
    }

    /// The lower-case name of the profession, owned: what it displays as.
    pub fn to_string(&self) -> (r: String)
        ensures
            r@ == profession_name(*self),
    {
        self.as_ref().to_owned()
    }

    /// The flag of the profession in a filter: one bit per profession.
    pub fn bits(&self) -> (r: u16)
        ensures
            r == profession_bits(*self),
    {
        match self {
            Profession::Elementalist => 1,
            Profession::Engineer => 2,
            Profession::Guardian => 4,
            Profession::Mesmer => 8,
            Profession::Necromancer => 16,
            Profession::Ranger => 32,
            Profession::Revenant => 64,
            Profession::Thief => 128,
            Profession::Warrior => 256,
        }
    }
}

impl core::str::FromStr for Profession {
    type Err = &'static str;

    fn from_str(s: &str) -> (r: Result<Profession, &'static str>)
        ensures
            r matches Ok(p) ==> profession_of_name(s@) == Some(p),
            r matches Err(e) ==> profession_of_name(s@) is None && e@ == "invalid profession"@,
    {
        Profession::from_name(s)
    }
}

/// Law: reading back the name of a profession gives the profession.
pub proof fn law_profession_name_round_trip(p: Profession)
    ensures
        profession_of_name(profession_name(p)) == Some(p),
{
    reveal_strlit("guardian");
    reveal_strlit("warrior");
    reveal_strlit("engineer");
    reveal_strlit("ranger");
    reveal_strlit("thief");
    reveal_strlit("elementalist");
    reveal_strlit("mesmer");
    reveal_strlit("necromancer");
    reveal_strlit("revenant");
    assert("guardian"@[0] == 'g');
    assert("warrior"@[0] == 'w');
    assert("engineer"@[0] == 'e');
    assert("ranger"@[1] == 'a');
    assert("revenant"@[1] == 'e');
    assert("thief"@[0] == 't');
    assert("elementalist"@[0] == 'e');
    assert("elementalist"@[1] == 'l');
    assert("engineer"@[1] == 'n');
    assert("mesmer"@[0] == 'm');
    assert("necromancer"@[0] == 'n');
    assert("ranger"@[0] == 'r');
    assert("revenant"@[0] == 'r');
}

/// Law: a name is accepted exactly when it is the name of a profession.
pub proof fn law_profession_names_accepted(s: Seq<char>)
    ensures
        profession_of_name(s) is Some <==> exists|p: Profession| profession_name(p) == s,
{
    if profession_of_name(s) is Some {
        let p = profession_of_name(s)->0;
        assert(profession_name(p) == s);
    }
    if exists|p: Profession| profession_name(p) == s {
        let p = choose|p: Profession| profession_name(p) == s;
        law_profession_name_round_trip(p);
    }
}

/// Law: distinct professions have distinct flags.
pub proof fn law_profession_bits_distinct(a: Profession, b: Profession)
    requires
        a != b,
    ensures
        profession_bits(a) != profession_bits(b),
{
}

/// Law: the flags follow the professions in the alphabetical order of their
/// names: the `k`-th name of elementalist, engineer, guardian, mesmer,
/// necromancer, ranger, revenant, thief, warrior names the profession whose
/// flag is bit `k`.
pub proof fn law_profession_bits_follow_names(k: int)
    requires
        0 <= k < 9,
    ensures
        ({
            let names = seq!["elementalist"@, "engineer"@, "guardian"@, "mesmer"@, "necromancer"@, "ranger"@,
                "revenant"@, "thief"@, "warrior"@];
            &&& profession_of_name(names[k]) is Some
            &&& profession_bits(profession_of_name(names[k])->0) as int == pow2(k as nat)
            &&& profession_name(profession_of_name(names[k])->0) == names[k]
        }),
{
    lemma2_to64();
    let p = if k == 0 {
        Profession::Elementalist
    } else if k == 1 {
        Profession::Engineer
    } else if k == 2 {
        Profession::Guardian
    } else if k == 3 {
        Profession::Mesmer
    } else if k == 4 {
        Profession::Necromancer
    } else if k == 5 {
        Profession::Ranger
    } else if k == 6 {
        Profession::Revenant
    } else if k == 7 {
        Profession::Thief
    } else {
        Profession::Warrior
    };
    law_profession_name_round_trip(p);
}

} // verus!
