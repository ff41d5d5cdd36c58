//! The widget's params as the manifest declares them: two choice lists and
//! the typed snapshot the Deck hands the widget.
use vstd::prelude::*;
use vstd::string::*;

use crate::text::str_eq;

verus! {

/// The question packs a host can pick.
#[derive(Clone, Copy, Debug, PartialEq, Eq, Structural)]
pub enum CategoryPack {
    Mixed,
    Science,
    Geography,
    History,
    Entertainment,
    Sport,
    Food,
    Animals,
    Tech,
    Bitcoin,
    Kids,
}

/// A pack's manifest wire value.
pub open spec fn pack_value(p: CategoryPack) -> Seq<char> {
    match p {
        CategoryPack::Mixed => "mixed"@,
        CategoryPack::Science => "science"@,
        CategoryPack::Geography => "geography"@,
        CategoryPack::History => "history"@,
        CategoryPack::Entertainment => "entertainment"@,
        CategoryPack::Sport => "sport"@,
        CategoryPack::Food => "food"@,
        CategoryPack::Animals => "animals"@,
        CategoryPack::Tech => "tech"@,
        CategoryPack::Bitcoin => "bitcoin"@,
        CategoryPack::Kids => "kids"@,
    }
}

/// A pack's human-readable label.
pub open spec fn pack_label(p: CategoryPack) -> Seq<char> {
    match p {
        CategoryPack::Mixed => "Mixed"@,
        CategoryPack::Science => "Science and space"@,
        CategoryPack::Geography => "Geography"@,
        CategoryPack::History => "History"@,
        CategoryPack::Entertainment => "Film, TV and music"@,
        CategoryPack::Sport => "Sport"@,
        CategoryPack::Food => "Food and drink"@,
        CategoryPack::Animals => "Animals and nature"@,
        CategoryPack::Tech => "Technology"@,
        CategoryPack::Bitcoin => "Bitcoin and mining"@,
        CategoryPack::Kids => "Kids"@,
    }
}

/// The pack a manifest wire value names, if any.
pub open spec fn pack_from_value(s: Seq<char>) -> Option<CategoryPack> {
    if s == "mixed"@ {
        Some(CategoryPack::Mixed)
    } else if s == "science"@ {
        Some(CategoryPack::Science)
    } else if s == "geography"@ {
        Some(CategoryPack::Geography)
    } else if s == "history"@ {
        Some(CategoryPack::History)
    } else if s == "entertainment"@ {
        Some(CategoryPack::Entertainment)
    } else if s == "sport"@ {
        Some(CategoryPack::Sport)
    } else if s == "food"@ {
        Some(CategoryPack::Food)
    } else if s == "animals"@ {
        Some(CategoryPack::Animals)
    } else if s == "tech"@ {
        Some(CategoryPack::Tech)
    } else if s == "bitcoin"@ {
        Some(CategoryPack::Bitcoin)
    } else if s == "kids"@ {
        Some(CategoryPack::Kids)
    } else {
        None
    }
}

impl CategoryPack {
    /// Every variant, in manifest-declaration order.
    pub const ALL: [CategoryPack; 11] = [
        CategoryPack::Mixed,
        CategoryPack::Science,
        CategoryPack::Geography,
        CategoryPack::History,
        CategoryPack::Entertainment,
        CategoryPack::Sport,
        CategoryPack::Food,
        CategoryPack::Animals,
        CategoryPack::Tech,
        CategoryPack::Bitcoin,
        CategoryPack::Kids,
    ];

    /// Manifest wire value for this variant.
    pub fn as_manifest_value(self) -> (r: &'static str)
        ensures
            r@ == pack_value(self),
    {
        match self {
            CategoryPack::Mixed => "mixed",
            CategoryPack::Science => "science",
            CategoryPack::Geography => "geography",
            CategoryPack::History => "history",
            CategoryPack::Entertainment => "entertainment",
            CategoryPack::Sport => "sport",
            CategoryPack::Food => "food",
            CategoryPack::Animals => "animals",
            CategoryPack::Tech => "tech",
            CategoryPack::Bitcoin => "bitcoin",
            CategoryPack::Kids => "kids",
        }
    }

    /// Human-readable label declared in the manifest.
    pub fn as_manifest_label(self) -> (r: &'static str)
        ensures
            r@ == pack_label(self),
    {
        match self {
            CategoryPack::Mixed => "Mixed",
            CategoryPack::Science => "Science and space",
            CategoryPack::Geography => "Geography",
            CategoryPack::History => "History",
            CategoryPack::Entertainment => "Film, TV and music",
            CategoryPack::Sport => "Sport",
            CategoryPack::Food => "Food and drink",
            CategoryPack::Animals => "Animals and nature",
            CategoryPack::Tech => "Technology",
            CategoryPack::Bitcoin => "Bitcoin and mining",
            CategoryPack::Kids => "Kids",
        }
    }

    /// The variant a manifest wire value names; `None` for anything else.
    pub fn from_manifest_value(s: &str) -> (r: Option<CategoryPack>)
        ensures
            r == pack_from_value(s@),
    {
        if str_eq(s, "mixed") {
            Some(CategoryPack::Mixed)
        } else if str_eq(s, "science") {
            Some(CategoryPack::Science)
        } else if str_eq(s, "geography") {
            Some(CategoryPack::Geography)
        } else if str_eq(s, "history") {
            Some(CategoryPack::History)
        } else if str_eq(s, "entertainment") {
            Some(CategoryPack::Entertainment)
        } else if str_eq(s, "sport") {
            Some(CategoryPack::Sport)
        } else if str_eq(s, "food") {
            Some(CategoryPack::Food)
        } else if str_eq(s, "animals") {
            Some(CategoryPack::Animals)
        } else if str_eq(s, "tech") {
            Some(CategoryPack::Tech)
        } else if str_eq(s, "bitcoin") {
            Some(CategoryPack::Bitcoin)
        } else if str_eq(s, "kids") {
            Some(CategoryPack::Kids)
        } else {
            None
        }
    }
}

/// A pack's wire value reads back as that pack, and only wire values of
/// packs read back as one.
pub proof fn lemma_pack_value_round_trip(p: CategoryPack, s: Seq<char>)
    ensures
        pack_from_value(pack_value(p)) == Some(p),
        pack_from_value(s) matches Some(q) ==> pack_value(q) == s,
{
    reveal_strlit("mixed");
    reveal_strlit("science");
    reveal_strlit("geography");
    reveal_strlit("history");
    reveal_strlit("entertainment");
    reveal_strlit("sport");
    reveal_strlit("food");
    reveal_strlit("animals");
    reveal_strlit("tech");
    reveal_strlit("bitcoin");
    reveal_strlit("kids");
    assert("mixed"@[0] == 'm' && "science"@[0] == 's' && "geography"@[0] == 'g' && "history"@[0]
        == 'h' && "entertainment"@[0] == 'e' && "sport"@[0] == 's' && "food"@[0] == 'f'
        && "animals"@[0] == 'a' && "tech"@[0] == 't' && "bitcoin"@[0] == 'b' && "kids"@[0] == 'k');
    assert("science"@[1] != "sport"@[1]);
}

/// How hard the picked questions are.
#[derive(Clone, Copy, Debug, PartialEq, Eq, Structural)]
pub enum Difficulty {
    Easy,
    Medium,
    Hard,
    Mixed,
}

/// A difficulty's manifest wire value.
pub open spec fn difficulty_value(d: Difficulty) -> Seq<char> {
    match d {
        Difficulty::Easy => "easy"@,
        Difficulty::Medium => "medium"@,
        Difficulty::Hard => "hard"@,
        Difficulty::Mixed => "mixed"@,
    }
}

/// A difficulty's human-readable label.
pub open spec fn difficulty_name(d: Difficulty) -> Seq<char> {
    match d {
        Difficulty::Easy => "Easy"@,
        Difficulty::Medium => "Medium"@,
        Difficulty::Hard => "Hard"@,
        Difficulty::Mixed => "Mixed"@,
    }
}

/// The difficulty a manifest wire value names, if any.
pub open spec fn difficulty_from_value(s: Seq<char>) -> Option<Difficulty> {
    if s == "easy"@ {
        Some(Difficulty::Easy)
    } else if s == "medium"@ {
        Some(Difficulty::Medium)
    } else if s == "hard"@ {
        Some(Difficulty::Hard)
    } else if s == "mixed"@ {
        Some(Difficulty::Mixed)
    } else {
        None
    }
}

impl Difficulty {
    /// Every variant, in manifest-declaration order.
    pub const ALL: [Difficulty; 4] = [
        Difficulty::Easy,
        Difficulty::Medium,
        Difficulty::Hard,
        Difficulty::Mixed,
    ];

    /// Manifest wire value for this variant.
    pub fn as_manifest_value(self) -> (r: &'static str)
        ensures
            r@ == difficulty_value(self),
    {
        match self {
            Difficulty::Easy => "easy",
            Difficulty::Medium => "medium",
            Difficulty::Hard => "hard",
            Difficulty::Mixed => "mixed",
        }
    }

    /// Human-readable label declared in the manifest.
    pub fn as_manifest_label(self) -> (r: &'static str)
        ensures
            r@ == difficulty_name(self),
    {
        match self {
            Difficulty::Easy => "Easy",
            Difficulty::Medium => "Medium",
            Difficulty::Hard => "Hard",
            Difficulty::Mixed => "Mixed",
        }
    }

    /// The variant a manifest wire value names; `None` for anything else.
    pub fn from_manifest_value(s: &str) -> (r: Option<Difficulty>)
        ensures
            r == difficulty_from_value(s@),
    {
        if str_eq(s, "easy") {
            Some(Difficulty::Easy)
        } else if str_eq(s, "medium") {
            Some(Difficulty::Medium)
        } else if str_eq(s, "hard") {
            Some(Difficulty::Hard)
        } else if str_eq(s, "mixed") {
            Some(Difficulty::Mixed)
        } else {
            None
        }
    }
}

/// A difficulty's wire value reads back as that difficulty, and only wire
/// values of difficulties read back as one.
pub proof fn lemma_difficulty_value_round_trip(d: Difficulty, s: Seq<char>)
    ensures
        difficulty_from_value(difficulty_value(d)) == Some(d),
        difficulty_from_value(s) matches Some(e) ==> difficulty_value(e) == s,
{
    reveal_strlit("easy");
    reveal_strlit("medium");
    reveal_strlit("hard");
    reveal_strlit("mixed");
    assert("easy"@[0] == 'e' && "medium"@[0] == 'm' && "hard"@[0] == 'h' && "mixed"@[0] == 'm');
    assert("medium"@[1] != "mixed"@[1]);
}

/// The typed params snapshot.
#[derive(Clone, Copy, Debug, PartialEq, Structural)]
pub struct Params {
    pub answer_time: i32,
    pub category_pack: CategoryPack,
    pub difficulty: Difficulty,
    pub question_count: i32,
    pub show_player_names: bool,
    pub sounds: bool,
}

/// The manifest keys whose value differs between `a` and `b`, in field order.
pub open spec fn keys_changed(a: Params, b: Params) -> Seq<Seq<char>> {
    (if a.answer_time != b.answer_time { seq!["answer_time"@] } else { Seq::empty() })
        + (if a.category_pack != b.category_pack { seq!["category_pack"@] } else { Seq::empty() })
        + (if a.difficulty != b.difficulty { seq!["difficulty"@] } else { Seq::empty() })
        + (if a.question_count != b.question_count { seq!["question_count"@] } else { Seq::empty() })
        + (if a.show_player_names != b.show_player_names {
        seq!["show_player_names"@]
    } else {
        Seq::empty()
    }) + (if a.sounds != b.sounds { seq!["sounds"@] } else { Seq::empty() })
}

impl Params {
    /// Manifest keys whose value differs between `self` and `other`, in
    /// struct-field order so the result is deterministic.
    pub fn changed_keys(&self, other: &Params) -> (r: Vec<&'static str>)
        ensures
            r@.map_values(|k: &'static str| k@) == keys_changed(*self, *other),
    {
        let mut out: Vec<&'static str> = Vec::new();
        if self.answer_time != other.answer_time {
            out.push("answer_time");
        }
        if self.category_pack != other.category_pack {
            out.push("category_pack");
        }
        if self.difficulty != other.difficulty {
            out.push("difficulty");
        }
        if self.question_count != other.question_count {
            out.push("question_count");
        }
        if self.show_player_names != other.show_player_names {
            out.push("show_player_names");
        }
        if self.sounds != other.sounds {
            out.push("sounds");
        }
        assert(out@.map_values(|k: &'static str| k@) =~= keys_changed(*self, *other));
        out
    }
}

/// Comparing a snapshot with itself reports no key, and the keys reported
/// between two snapshots are the same either way round.
pub proof fn lemma_changed_keys_symmetric(a: Params, b: Params)
    ensures
        keys_changed(a, a) == Seq::<Seq<char>>::empty(),
        keys_changed(a, b) == keys_changed(b, a),
        keys_changed(a, b).len() == 0 <==> a == b,
{
    assert(keys_changed(a, a) =~= Seq::<Seq<char>>::empty());
    assert(keys_changed(a, b) =~= keys_changed(b, a));
}

} // verus!
