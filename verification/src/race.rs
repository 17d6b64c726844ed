//! The playable races, as the game API names them and as Mumble Link
//! numbers them.

use vstd::prelude::*;
use crate::text::same_text;
use vstd::arithmetic::power2::{pow2, lemma2_to64};

verus! {

/// A playable race. `Unknown` stands for any name or number that is not one
/// of the five races.
#[derive(Clone, Copy, Debug, PartialEq, Eq, Structural)]
pub enum Race {
    Unknown,
    Asura,
    Charr,
    Human,
    Norn,
    Sylvari,
}

/// The name the API uses for a race.
pub open spec fn race_name(r: Race) -> Seq<char> {
    match r {
        Race::Asura => "Asura"@,
        Race::Charr => "Charr"@,
        Race::Human => "Human"@,
        Race::Norn => "Norn"@,
        Race::Sylvari => "Sylvari"@,
        Race::Unknown => "Unknown"@,
    }
}

/// The race an API name stands for.
pub open spec fn race_of_name(s: Seq<char>) -> Race {
    if s == "Asura"@ {
        Race::Asura
    } else if s == "Charr"@ {
        Race::Charr
    } else if s == "Human"@ {
        Race::Human
    } else if s == "Norn"@ {
        Race::Norn
    } else if s == "Sylvari"@ {
        Race::Sylvari
    } else {
        Race::Unknown
    }
}

/// The race a Mumble Link race number stands for.
pub open spec fn race_of_link_id(id: u32) -> Race {
    if id == 0 {
        Race::Asura
    } else if id == 1 {
        Race::Charr
    } else if id == 2 {
        Race::Human
    } else if id == 3 {
        Race::Norn
    } else if id == 4 {
        Race::Sylvari
    } else {
        Race::Unknown
    }
}

/// The flag of a race in a set of races.
pub open spec fn race_bits(r: Race) -> u8 {
    match r {
        Race::Unknown => 2,
        Race::Asura => 4,
        Race::Charr => 8,
        Race::Human => 16,
        Race::Norn => 32,
        Race::Sylvari => 64,
    }
}

impl Race {
    /// The race of a Mumble Link race number; numbers past the five races
    /// give `Unknown`.
    pub fn from_link_id(race_id: u32) -> (r: Race)
        ensures
            r == race_of_link_id(race_id),
    {
        match race_id {
            0 => Race::Asura,
            1 => Race::Charr,
            2 => Race::Human,
            3 => Race::Norn,
            4 => Race::Sylvari,
            _ => Race::Unknown,
        }
    }

    /// The race an API name stands for; any other name gives `Unknown`.
    pub fn from_name(s: &str) -> (r: Race)
        ensures
            r == race_of_name(s@),
    {
        if same_text(s, "Asura") {
            Race::Asura
        } else if same_text(s, "Charr") {
            Race::Charr
        } else if same_text(s, "Human") {
            Race::Human
        } else if same_text(s, "Norn") {
            Race::Norn
        } else if same_text(s, "Sylvari") {
            Race::Sylvari
        } else {
            Race::Unknown
        }
    }

    /// The API name of the race.
    pub fn as_ref(&self) -> (r: &'static str)
        ensures
            r@ == race_name(*self),
    {
        match self {
            Race::Asura => "Asura",
            Race::Charr => "Charr",
            Race::Human => "Human",
            Race::Norn => "Norn",
            Race::Sylvari => "Sylvari",
            Race::Unknown => "Unknown",
        }
    }

    /// The API name of the race, owned.
    pub fn to_string(&self) -> (r: String)
        ensures
            r@ == race_name(*self),
    {
        self.as_ref().to_owned()
    }

    /// The flag of the race in a set of races: one bit per race.
    pub fn bits(&self) -> (r: u8)
        ensures
            r == race_bits(*self),
    {
        match self {
            Race::Unknown => 2,
            Race::Asura => 4,
            Race::Charr => 8,
            Race::Human => 16,
            Race::Norn => 32,
            Race::Sylvari => 64,
        }
    }
}

impl core::str::FromStr for Race {
    type Err = &'static str;

    fn from_str(s: &str) -> (r: Result<Race, &'static str>)
        ensures
            r == Ok::<Race, &'static str>(race_of_name(s@)),
    {
        Ok(Race::from_name(s))
    }
}

/// Law: reading back the name of a race gives the race.
pub proof fn law_race_name_round_trip(r: Race)
    ensures
        race_of_name(race_name(r)) == r,
{
    reveal_strlit("Asura");
    reveal_strlit("Charr");
    reveal_strlit("Human");
    reveal_strlit("Norn");
    reveal_strlit("Sylvari");
    reveal_strlit("Unknown");
    assert("Asura"@[0] == 'A');
    assert("Charr"@[0] == 'C');
    assert("Human"@[0] == 'H');
    assert("Norn"@[0] == 'N');
    assert("Sylvari"@[0] == 'S');
    assert("Unknown"@[0] == 'U');
}

/// Law: distinct races have distinct flags, so a set of races is a set of bits.
pub proof fn law_race_bits_distinct(a: Race, b: Race)
    requires
        a != b,
    ensures
        race_bits(a) != race_bits(b),
{
}

/// Law: the Mumble Link race number is the race's place in the game's
/// order Asura, Charr, Human, Norn, Sylvari: number `k` names the `k`-th of
/// them, whose flag is bit `k + 2`; any larger number is `Unknown`.
pub proof fn law_link_id_follows_game_order(k: u32)
    ensures
        k < 5 ==> race_name(race_of_link_id(k)) == seq!["Asura"@, "Charr"@, "Human"@, "Norn"@, "Sylvari"@][k as int],
        k < 5 ==> race_bits(race_of_link_id(k)) as int == 4 * pow2(k as nat),
        k >= 5 ==> race_of_link_id(k) == Race::Unknown,
{
    lemma2_to64();
}

} // verus!
