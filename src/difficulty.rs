use vstd::prelude::*;

verus! {

/// A chart difficulty, or all of them at once.
#[derive(Debug, Clone, Copy, PartialEq, Eq, Hash, Structural)]
pub enum SpinDifficulty {
    Easy,
    Normal,
    Hard,
    Expert,
    XD,
    RemiXD,
    AllDifficulties,
}

impl Default for SpinDifficulty {
    fn default() -> (r: SpinDifficulty)
        ensures
            r == SpinDifficulty::AllDifficulties,
    {
        SpinDifficulty::AllDifficulties
    }
}

/// The suffix that names a single difficulty in a key.
pub open spec fn upper_name(d: SpinDifficulty) -> Seq<char> {
    match d {
        SpinDifficulty::Easy => "EASY"@,
        SpinDifficulty::Normal => "NORMAL"@,
        SpinDifficulty::Hard => "HARD"@,
        SpinDifficulty::Expert => "EXPERT"@,
        SpinDifficulty::XD => "XD"@,
        SpinDifficulty::RemiXD => "REMIXD"@,
        SpinDifficulty::AllDifficulties => "ALL DIFFICULTIES"@,
    }
}

/// The container key of `base` for a difficulty: the bare base for all
/// difficulties, else `<base>_<NAME>`.
pub open spec fn key_for(base: Seq<char>, d: SpinDifficulty) -> Seq<char> {
    if d == SpinDifficulty::AllDifficulties {
        base
    } else {
        base + "_"@ + upper_name(d)
    }
}

impl SpinDifficulty {
    /// The name shown to users.
    pub fn name(self) -> (r: &'static str)
        ensures
            r@ == match self {
                SpinDifficulty::Easy => "Easy"@,
                SpinDifficulty::Normal => "Normal"@,
                SpinDifficulty::Hard => "Hard"@,
                SpinDifficulty::Expert => "Expert"@,
                SpinDifficulty::XD => "XD"@,
                SpinDifficulty::RemiXD => "RemiXD"@,
                SpinDifficulty::AllDifficulties => "All Difficulties"@,
            },
    {
        match self {
            SpinDifficulty::Easy => "Easy",
            SpinDifficulty::Normal => "Normal",
            SpinDifficulty::Hard => "Hard",
            SpinDifficulty::Expert => "Expert",
            SpinDifficulty::XD => "XD",
            SpinDifficulty::RemiXD => "RemiXD",
            SpinDifficulty::AllDifficulties => "All Difficulties",
        }
    }

    /// The name in upper case.
    pub fn upper_name(self) -> (r: &'static str)
        ensures
            r@ == upper_name(self),
    {
        match self {
            SpinDifficulty::Easy => "EASY",
            SpinDifficulty::Normal => "NORMAL",
            SpinDifficulty::Hard => "HARD",
            SpinDifficulty::Expert => "EXPERT",
            SpinDifficulty::XD => "XD",
            SpinDifficulty::RemiXD => "REMIXD",
            SpinDifficulty::AllDifficulties => "ALL DIFFICULTIES",
        }
    }

    /// The difficulty of a menu choice: 1 to 6 from Easy to RemiXD, 7 for all.
    pub fn from_menu_choice(opt: i32) -> (r: Option<SpinDifficulty>)
        ensures
            r == menu_choice(opt),
    {
        match opt {
            1 => Some(SpinDifficulty::Easy),
            2 => Some(SpinDifficulty::Normal),
            3 => Some(SpinDifficulty::Hard),
            4 => Some(SpinDifficulty::Expert),
            5 => Some(SpinDifficulty::XD),
            6 => Some(SpinDifficulty::RemiXD),
            7 => Some(SpinDifficulty::AllDifficulties),
            _ => None,
        }
    }
}

pub open spec fn menu_choice(opt: i32) -> Option<SpinDifficulty> {
    if opt == 1 {
        Some(SpinDifficulty::Easy)
    } else if opt == 2 {
        Some(SpinDifficulty::Normal)
    } else if opt == 3 {
        Some(SpinDifficulty::Hard)
    } else if opt == 4 {
        Some(SpinDifficulty::Expert)
    } else if opt == 5 {
        Some(SpinDifficulty::XD)
    } else if opt == 6 {
        Some(SpinDifficulty::RemiXD)
    } else if opt == 7 {
        Some(SpinDifficulty::AllDifficulties)
    } else {
        None
    }
}

/// The container key of `base` for a difficulty.
pub fn keyed(base: &str, diff: SpinDifficulty) -> (r: String)
    ensures
        r@ == key_for(base@, diff),
{
    let mut s = base.to_owned();
    if diff != SpinDifficulty::AllDifficulties {
        s.append("_");
        s.append(diff.upper_name());
    }
    s
}

pub const SPEEDS_KEY: &'static str = "SpeedHelper_SpeedTriggers";

pub const CHROMA_KEY: &'static str = "SpeenChroma_ChromaTriggers";

/// The speed-trigger key of a menu choice (see `SpinDifficulty::from_menu_choice`).
pub fn map_num_to_key(opt: i32) -> (r: Option<String>)
    ensures
        r.is_some() == menu_choice(opt).is_some(),
        r.is_some() ==> r.unwrap()@ == key_for(SPEEDS_KEY@, menu_choice(opt).unwrap()),
{
    match SpinDifficulty::from_menu_choice(opt) {
        Some(d) => Some(keyed(SPEEDS_KEY, d)),
        None => None,
    }
}

/// The chroma-trigger key of a menu choice (see `SpinDifficulty::from_menu_choice`).
pub fn chroma_map_num_to_key(opt: i32) -> (r: Option<String>)
    ensures
        r.is_some() == menu_choice(opt).is_some(),
        r.is_some() ==> r.unwrap()@ == key_for(CHROMA_KEY@, menu_choice(opt).unwrap()),
{
    match SpinDifficulty::from_menu_choice(opt) {
        Some(d) => Some(keyed(CHROMA_KEY, d)),
        None => None,
    }
}

/// Every difficulty but "all" gives a key of its own, apart from the bare
/// base key and from the key of every other difficulty.
pub proof fn lemma_keys_distinct(base: Seq<char>, d1: SpinDifficulty, d2: SpinDifficulty)
    requires
        d1 != d2,
    ensures
        key_for(base, d1) != key_for(base, d2),
{
    reveal_strlit("_");
    reveal_strlit("EASY");
    reveal_strlit("NORMAL");
    reveal_strlit("HARD");
    reveal_strlit("EXPERT");
    reveal_strlit("XD");
    reveal_strlit("REMIXD");
    let k1 = key_for(base, d1);
    let k2 = key_for(base, d2);
    if d1 == SpinDifficulty::AllDifficulties {
        assert(k2.len() > k1.len());
    } else if d2 == SpinDifficulty::AllDifficulties {
        assert(k1.len() > k2.len());
    } else if k1 == k2 {
        let n = base.len() + 1;
        assert(k1.subrange(n as int, k1.len() as int) =~= upper_name(d1));
        assert(k2.subrange(n as int, k2.len() as int) =~= upper_name(d2));
        assert(upper_name(d1) == upper_name(d2));
        assert(upper_name(d1).len() == upper_name(d2).len());
        assert(upper_name(d1)[0] == upper_name(d2)[0]);
        assert(upper_name(d1)[1] == upper_name(d2)[1]);
    }
}

} // verus!
