//! The game rules: players, questions, phases, and scoring.
//!
//! The Deck owns one [`Game`] and drives it from its frame clock (`tick`)
//! and from the phone endpoint (`join`, `answer`, ...).
use vstd::prelude::*;
use vstd::set_lib::*;

use crate::text::{
    char_is_control, char_is_white_space, chars_vec, eq_ignore_ascii_case, is_control,
    is_white_space, joined, lemma_joined_push, lower_ascii, push_char, str_eq, trim_end,
};

verus! {

/// Seats in one game; the lobby refuses the thirteenth phone.
pub const MAX_PLAYERS: usize = 12;

/// A game needs at least two players to start.
pub const MIN_PLAYERS: usize = 2;

/// Player names are cut to this many characters.
pub const MAX_NAME_CHARS: usize = 12;

/// How long the reveal stays on screen.
pub const REVEAL_MS: u32 = 4_000;

/// How long the standings stay on screen between questions.
pub const STANDINGS_MS: u32 = 5_000;

/// How long the podium stays before the Deck returns to a fresh lobby.
pub const PODIUM_MS: u32 = 30_000;

/// Once everyone has answered, the countdown ends after this grace period.
pub const GRACE_MS: u32 = 1_000;

/// Points for a correct answer in the first instant.
pub const MAX_POINTS: u32 = 1_000;

/// Points for a correct answer exactly at the deadline.
pub const MIN_POINTS: u32 = 500;

/// Correct answers in a row before the streak bonus starts paying.
pub const STREAK_THRESHOLD: u32 = 3;

/// Bonus per correct answer once the streak threshold is reached.
pub const STREAK_BONUS: u32 = 200;

/// Every question has exactly four answers.
pub const ANSWER_COUNT: usize = 4;

/// One of the six avatar colours a player picks in the lobby.
#[derive(Clone, Copy, Debug, PartialEq, Eq, Structural)]
pub enum PlayerColor {
    Coral,
    Blue,
    Lime,
    Violet,
    Amber,
    Teal,
}

/// The wire name of each colour.
pub open spec fn color_wire(c: PlayerColor) -> Seq<char> {
    match c {
        PlayerColor::Coral => "coral"@,
        PlayerColor::Blue => "blue"@,
        PlayerColor::Lime => "lime"@,
        PlayerColor::Violet => "violet"@,
        PlayerColor::Amber => "amber"@,
        PlayerColor::Teal => "teal"@,
    }
}

/// The colour a wire name stands for, if any.
pub open spec fn color_from_wire(s: Seq<char>) -> Option<PlayerColor> {
    if s == "coral"@ {
        Some(PlayerColor::Coral)
    } else if s == "blue"@ {
        Some(PlayerColor::Blue)
    } else if s == "lime"@ {
        Some(PlayerColor::Lime)
    } else if s == "violet"@ {
        Some(PlayerColor::Violet)
    } else if s == "amber"@ {
        Some(PlayerColor::Amber)
    } else if s == "teal"@ {
        Some(PlayerColor::Teal)
    } else {
        None
    }
}

/// The six colours in the order the phone offers them.
pub open spec fn all_colors() -> Seq<PlayerColor> {
    seq![
        PlayerColor::Coral,
        PlayerColor::Blue,
        PlayerColor::Lime,
        PlayerColor::Violet,
        PlayerColor::Amber,
        PlayerColor::Teal,
    ]
}

impl PlayerColor {
    /// Every colour, in the order the phone offers them.
    pub const ALL: [PlayerColor; 6] = [
        PlayerColor::Coral,
        PlayerColor::Blue,
        PlayerColor::Lime,
        PlayerColor::Violet,
        PlayerColor::Amber,
        PlayerColor::Teal,
    ];

    /// The wire name the controller page sends.
    pub fn as_wire(self) -> (r: &'static str)
        ensures
            r@ == color_wire(self),
    {
        match self {
            PlayerColor::Coral => "coral",
            PlayerColor::Blue => "blue",
            PlayerColor::Lime => "lime",
            PlayerColor::Violet => "violet",
            PlayerColor::Amber => "amber",
            PlayerColor::Teal => "teal",
        }
    }

    /// Parse the wire name; `None` for anything the phone should not send.
    pub fn from_wire(s: &str) -> (r: Option<PlayerColor>)
        ensures
            r == color_from_wire(s@),
    {
        if str_eq(s, "coral") {
            Some(PlayerColor::Coral)
        } else if str_eq(s, "blue") {
            Some(PlayerColor::Blue)
        } else if str_eq(s, "lime") {
            Some(PlayerColor::Lime)
        } else if str_eq(s, "violet") {
            Some(PlayerColor::Violet)
        } else if str_eq(s, "amber") {
            Some(PlayerColor::Amber)
        } else if str_eq(s, "teal") {
            Some(PlayerColor::Teal)
        } else {
            None
        }
    }
}

/// A colour's wire name reads back as that colour, and only names of
/// colours read back as one.
pub proof fn lemma_color_wire_round_trip(c: PlayerColor, s: Seq<char>)
    ensures
        color_from_wire(color_wire(c)) == Some(c),
        color_from_wire(s) matches Some(d) ==> color_wire(d) == s,
{
    reveal_strlit("coral");
    reveal_strlit("blue");
    reveal_strlit("lime");
    reveal_strlit("violet");
    reveal_strlit("amber");
    reveal_strlit("teal");
    assert("coral"@[0] != "blue"@[0] && "coral"@[0] != "lime"@[0] && "coral"@[0] != "violet"@[0]
        && "coral"@[0] != "amber"@[0] && "coral"@[0] != "teal"@[0]);
    assert("blue"@[0] != "lime"@[0] && "blue"@[0] != "violet"@[0] && "blue"@[0] != "amber"@[0]
        && "blue"@[0] != "teal"@[0]);
    assert("lime"@[0] != "violet"@[0] && "lime"@[0] != "amber"@[0] && "lime"@[0] != "teal"@[0]);
    assert("violet"@[0] != "amber"@[0] && "violet"@[0] != "teal"@[0]);
    assert("amber"@[0] != "teal"@[0]);
}

/// Question difficulty as carried by a pack.
#[derive(Clone, Copy, Debug, PartialEq, Eq, Structural)]
pub enum QuestionDifficulty {
    Easy,
    Medium,
    Hard,
}

/// The pack's wire value of each difficulty.
pub open spec fn difficulty_wire(d: QuestionDifficulty) -> Seq<char> {
    match d {
        QuestionDifficulty::Easy => "easy"@,
        QuestionDifficulty::Medium => "medium"@,
        QuestionDifficulty::Hard => "hard"@,
    }
}

/// The difficulty a pack's wire value stands for, if any.
pub open spec fn difficulty_from_wire(s: Seq<char>) -> Option<QuestionDifficulty> {
    if s == "easy"@ {
        Some(QuestionDifficulty::Easy)
    } else if s == "medium"@ {
        Some(QuestionDifficulty::Medium)
    } else if s == "hard"@ {
        Some(QuestionDifficulty::Hard)
    } else {
        None
    }
}

/// The label on the Deck's chip for each difficulty.
pub open spec fn difficulty_label(d: QuestionDifficulty) -> Seq<char> {
    match d {
        QuestionDifficulty::Easy => "Easy"@,
        QuestionDifficulty::Medium => "Medium"@,
        QuestionDifficulty::Hard => "Hard"@,
    }
}

impl QuestionDifficulty {
    /// Parse the pack's wire value.
    pub fn from_wire(s: &str) -> (r: Option<QuestionDifficulty>)
        ensures
            r == difficulty_from_wire(s@),
    {
        if str_eq(s, "easy") {
            Some(QuestionDifficulty::Easy)
        } else if str_eq(s, "medium") {
            Some(QuestionDifficulty::Medium)
        } else if str_eq(s, "hard") {
            Some(QuestionDifficulty::Hard)
        } else {
            None
        }
    }

    /// Label shown on the Deck's category chip.
    pub fn label(self) -> (r: &'static str)
        ensures
            r@ == difficulty_label(self),
    {
        match self {
            QuestionDifficulty::Easy => "Easy",
            QuestionDifficulty::Medium => "Medium",
            QuestionDifficulty::Hard => "Hard",
        }
    }
}

/// A difficulty's wire value reads back as that difficulty, and only the
/// three wire values read back as one.
pub proof fn lemma_difficulty_wire_round_trip(d: QuestionDifficulty, s: Seq<char>)
    ensures
        difficulty_from_wire(difficulty_wire(d)) == Some(d),
        difficulty_from_wire(s) matches Some(e) ==> difficulty_wire(e) == s,
{
    reveal_strlit("easy");
    reveal_strlit("medium");
    reveal_strlit("hard");
    assert("easy"@[0] != "medium"@[0] && "easy"@[0] != "hard"@[0] && "medium"@[0] != "hard"@[0]);
}

/// One multiple-choice question from a pack.
#[derive(Clone, Debug, PartialEq, Eq)]
pub struct Question {
    pub id: String,
    pub category: String,
    pub difficulty: QuestionDifficulty,
    pub text: String,
    pub answers: [String; ANSWER_COUNT],
    /// Index into `answers`.
    pub correct: usize,
    /// One-line explanation shown on the reveal; `None` when the pack has none.
    pub why: Option<String>,
}

/// A locked-in answer for the current question.
#[derive(Clone, Copy, Debug, PartialEq, Eq, Structural)]
pub struct Answer {
    pub choice: usize,
    /// Milliseconds into the countdown when the answer was locked.
    pub elapsed_ms: u32,
}

/// One seat at the table.
#[derive(Clone, Debug, PartialEq, Eq)]
pub struct Player {
    pub seat: usize,
    /// Secret the phone keeps; every request names its seat with it.
    pub token: u64,
    pub name: String,
    pub color: PlayerColor,
    pub score: u32,
    pub streak: u32,
    /// Answer for the question on screen, cleared when the next one starts.
    pub answer: Option<Answer>,
    /// Points earned on the last scored question.
    pub last_gain: u32,
    pub connected: bool,
}

/// Where the game is. Timers are in milliseconds since the phase began.
#[derive(Clone, Copy, Debug, PartialEq, Eq, Structural)]
pub enum Phase {
    Lobby,
    Question {
        index: usize,
        elapsed_ms: u32,
        /// Countdown position when the last player answered, if everyone has.
        all_answered_at: Option<u32>,
    },
    Reveal { index: usize, elapsed_ms: u32 },
    Standings { index: usize, elapsed_ms: u32 },
    Podium { elapsed_ms: u32 },
}

/// Per-game knobs, mirrored from the widget params.
#[derive(Clone, Copy, Debug, PartialEq, Eq, Structural)]
pub struct Settings {
    pub question_count: usize,
    pub answer_time_ms: u32,
}

impl Default for Settings {
    fn default() -> (s: Settings)
        ensures
            s == (Settings { question_count: 10, answer_time_ms: 20_000 }),
    {
        Settings { question_count: 10, answer_time_ms: 20_000 }
    }
}

/// Why a phone could not join.
#[derive(Clone, Copy, Debug, PartialEq, Eq, Structural)]
pub enum JoinError {
    Full,
    EmptyName,
    ColorTaken,
}

/// Why a phone's action was refused.
#[derive(Clone, Copy, Debug, PartialEq, Eq, Structural)]
pub enum ActionError {
    UnknownToken,
    NotHost,
    NotEnoughPlayers,
    NoQuestions,
    WrongPhase,
    AlreadyAnswered,
    BadChoice,
}

// ── Scoring ──────────────────────────────────────────────────────────

/// Points for a correct answer locked `elapsed_ms` into a countdown of
/// `answer_time_ms`: linear from `MAX_POINTS` at the start down to
/// `MIN_POINTS` at the deadline and after it.
pub open spec fn points(elapsed_ms: u32, answer_time_ms: u32) -> u32 {
    if answer_time_ms == 0 {
        MIN_POINTS
    } else {
        let elapsed = if elapsed_ms <= answer_time_ms { elapsed_ms } else { answer_time_ms };
        (MAX_POINTS - (MAX_POINTS - MIN_POINTS) * elapsed / (answer_time_ms as int)) as u32
    }
}

proof fn lemma_decay_bounded(elapsed: u32, t: u32)
    requires
        t > 0,
        elapsed <= t,
    ensures
        0 <= 500 * elapsed / (t as int) <= 500,
{
    assert(500 * elapsed <= 500 * t) by (nonlinear_arith)
        requires
            elapsed <= t,
    ;
    assert(500 * elapsed / (t as int) <= 500 * (t as int) / (t as int)) by (nonlinear_arith)
        requires
            500 * elapsed <= 500 * t,
            t > 0,
    ;
    assert(500 * (t as int) / (t as int) == 500) by (nonlinear_arith)
        requires
            t > 0,
    ;
    assert(0 <= 500 * elapsed / (t as int)) by (nonlinear_arith)
        requires
            t > 0,
    ;
}

/// Points for a correct answer locked `elapsed_ms` into a countdown of
/// `answer_time_ms`: linear from `MAX_POINTS` down to `MIN_POINTS`.
pub fn points_for(elapsed_ms: u32, answer_time_ms: u32) -> (p: u32)
    ensures
        p == points(elapsed_ms, answer_time_ms),
{
    if answer_time_ms == 0 {
        return MIN_POINTS;
    }
    let elapsed: u64 = if elapsed_ms <= answer_time_ms {
        elapsed_ms as u64
    } else {
        answer_time_ms as u64
    };
    proof {
        lemma_decay_bounded(elapsed as u32, answer_time_ms);
    }
    assert(500 * elapsed <= 500 * 0xffff_ffffu64) by (nonlinear_arith)
        requires
            elapsed <= 0xffff_ffffu64,
    ;
    let span: u64 = (MAX_POINTS - MIN_POINTS) as u64;
    let decay: u64 = span * elapsed / (answer_time_ms as u64);
    MAX_POINTS - (decay as u32)
}

/// Every correct answer earns between `MIN_POINTS` and `MAX_POINTS`; the
/// first instant earns the most, the deadline and anything after it the
/// least, and a later answer never earns more than an earlier one.
pub proof fn lemma_points_decay(e1: u32, e2: u32, t: u32)
    ensures
        MIN_POINTS <= points(e1, t) <= MAX_POINTS,
        points(0, t) == if t == 0 { MIN_POINTS } else { MAX_POINTS },
        e1 >= t ==> points(e1, t) == MIN_POINTS,
        e1 <= e2 ==> points(e2, t) <= points(e1, t),
{
    if t > 0 {
        let a = if e1 <= t { e1 } else { t };
        let b = if e2 <= t { e2 } else { t };
        lemma_decay_bounded(a, t);
        lemma_decay_bounded(b, t);
        assert(500 * (t as int) / (t as int) == 500) by (nonlinear_arith)
            requires
                t > 0,
        ;
        if e1 <= e2 {
            assert(500 * a / (t as int) <= 500 * b / (t as int)) by (nonlinear_arith)
                requires
                    a <= b,
                    t > 0,
            ;
        }
    }
}

// ── Decimal text ─────────────────────────────────────────────────────

/// The ASCII digit for `d` (`d < 10`).
pub open spec fn digit_char(d: nat) -> char {
    if d == 0 {
        '0'
    } else if d == 1 {
        '1'
    } else if d == 2 {
        '2'
    } else if d == 3 {
        '3'
    } else if d == 4 {
        '4'
    } else if d == 5 {
        '5'
    } else if d == 6 {
        '6'
    } else if d == 7 {
        '7'
    } else if d == 8 {
        '8'
    } else {
        '9'
    }
}

/// `n` written in decimal, without leading zeros.
pub open spec fn decimal(n: nat) -> Seq<char>
    decreases n,
{
    if n < 10 {
        seq![digit_char(n)]
    } else {
        decimal(n / 10).push(digit_char(n % 10))
    }
}

fn digit(d: usize) -> (c: char)
    requires
        d < 10,
    ensures
        c == digit_char(d as nat),
{
    if d == 0 {
        '0'
    } else if d == 1 {
        '1'
    } else if d == 2 {
        '2'
    } else if d == 3 {
        '3'
    } else if d == 4 {
        '4'
    } else if d == 5 {
        '5'
    } else if d == 6 {
        '6'
    } else if d == 7 {
        '7'
    } else if d == 8 {
        '8'
    } else {
        '9'
    }
}

/// Append a decimal number.
pub fn push_usize(out: &mut String, n: usize)
    ensures
        final(out)@ == old(out)@ + decimal(n as nat),
    decreases n,
{
    if n >= 10 {
        push_usize(out, n / 10);
    }
    push_char(out, digit(n % 10));
    proof {
        if n >= 10 {
            assert(old(out)@ + decimal(n as nat) =~= old(out)@ + decimal((n / 10) as nat) + seq![
                digit_char((n % 10) as nat),
            ]);
        }
    }
}

/// Digits never change under ASCII lower-casing.
pub proof fn lemma_decimal_lower(n: nat)
    ensures
        lower_ascii(decimal(n)) == decimal(n),
        forall|i: int| 0 <= i < decimal(n).len() ==> '0' <= #[trigger] decimal(n)[i] <= '9',
    decreases n,
{
    if n >= 10 {
        lemma_decimal_lower(n / 10);
    }
    assert(lower_ascii(decimal(n)) =~= decimal(n));
}

/// A number's decimal text has one digit exactly when the number is below ten.
pub proof fn lemma_decimal_len(n: nat)
    ensures
        decimal(n).len() >= 1,
        decimal(n).len() == 1 <==> n < 10,
    decreases n,
{
    if n >= 10 {
        lemma_decimal_len(n / 10);
    }
}

/// Different numbers have different decimal texts.
pub proof fn lemma_decimal_injective(a: nat, b: nat)
    requires
        decimal(a) == decimal(b),
    ensures
        a == b,
    decreases a,
{
    lemma_decimal_len(a);
    lemma_decimal_len(b);
    if a >= 10 {
        assert(decimal(a / 10) =~= decimal(a).drop_last());
        assert(decimal(b / 10) =~= decimal(b).drop_last());
        assert(b >= 10);
        lemma_decimal_injective(a / 10, b / 10);
        assert(decimal(a) == decimal(a / 10).push(digit_char(a % 10)));
        assert(decimal(b) == decimal(b / 10).push(digit_char(b % 10)));
        assert(decimal(a).last() == digit_char(a % 10));
        assert(decimal(b).last() == digit_char(b % 10));
        assert(digit_char(a % 10) == digit_char(b % 10));
        assert(a % 10 == b % 10);
        assert(a == 10 * (a / 10) + a % 10) by (nonlinear_arith);
        assert(b == 10 * (b / 10) + b % 10) by (nonlinear_arith);
    } else {
        assert(b < 10);
        assert(decimal(a) == seq![digit_char(a)]);
        assert(decimal(b) == seq![digit_char(b)]);
        assert(seq![digit_char(a)][0] == digit_char(a));
        assert(seq![digit_char(b)][0] == digit_char(b));
        assert(digit_char(a) == digit_char(b));
    }
}

// ── Names ────────────────────────────────────────────────────────────

/// One character of a requested name read: white space ends a word; a word
/// after the first is joined by one space, added once a kept character of it
/// comes; control characters are dropped; nothing is added once the name is
/// `MAX_NAME_CHARS` long.
pub open spec fn name_step(st: (Seq<char>, bool), c: char) -> (Seq<char>, bool) {
    if is_white_space(c) {
        (st.0, st.0.len() > 0)
    } else if is_control(c) {
        st
    } else {
        let joined = if st.1 && st.0.len() < MAX_NAME_CHARS {
            st.0.push(' ')
        } else {
            st.0
        };
        let kept = if joined.len() < MAX_NAME_CHARS {
            joined.push(c)
        } else {
            joined
        };
        (kept, false)
    }
}

/// The name built from a requested text, and whether a space is owed before
/// the next kept character.
pub open spec fn name_scan(s: Seq<char>) -> (Seq<char>, bool)
    decreases s.len(),
{
    if s.len() == 0 {
        (Seq::empty(), false)
    } else {
        name_step(name_scan(s.drop_last()), s.last())
    }
}

/// A requested name, trimmed, with inner white space collapsed to single
/// spaces, control characters dropped, and cut to `MAX_NAME_CHARS`.
pub open spec fn cleaned_name(s: Seq<char>) -> Seq<char> {
    trim_end(name_scan(s).0)
}

/// The words of a requested name, as `str::split_whitespace` splits it,
/// control characters dropped and words left empty skipped; and whether the
/// last word may still grow (no white space since its last kept character).
pub open spec fn name_words(s: Seq<char>) -> (Seq<Seq<char>>, bool)
    decreases s.len(),
{
    if s.len() == 0 {
        (Seq::empty(), false)
    } else {
        let (ws, open) = name_words(s.drop_last());
        let c = s.last();
        if is_white_space(c) {
            (ws, false)
        } else if is_control(c) {
            (ws, open)
        } else if open {
            (ws.update(ws.len() - 1, ws.last().push(c)), true)
        } else {
            (ws.push(seq![c]), true)
        }
    }
}

/// The first `MAX_NAME_CHARS` characters.
pub open spec fn name_cut(s: Seq<char>) -> Seq<char> {
    if s.len() > MAX_NAME_CHARS {
        s.take(MAX_NAME_CHARS as int)
    } else {
        s
    }
}

proof fn lemma_joined_grow_last(p: Seq<Seq<char>>, c: char, sep: Seq<char>)
    requires
        p.len() > 0,
    ensures
        joined(p.update(p.len() - 1, p.last().push(c)), sep) == joined(p, sep).push(c),
    decreases p.len(),
{
    let q = p.update(p.len() - 1, p.last().push(c));
    if p.len() == 1 {
        assert(joined(q, sep) =~= joined(p, sep).push(c));
    } else {
        assert(q.skip(1) =~= p.skip(1).update(p.skip(1).len() - 1, p.skip(1).last().push(c)));
        lemma_joined_grow_last(p.skip(1), c, sep);
        assert(q[0] == p[0]);
        assert(joined(q, sep) == q[0] + sep + joined(q.skip(1), sep));
        assert(joined(p, sep) == p[0] + sep + joined(p.skip(1), sep));
        assert(joined(q, sep) =~= joined(p, sep).push(c));
    }
}

proof fn lemma_words_nonempty(s: Seq<char>)
    ensures
        name_words(s).1 ==> name_words(s).0.len() > 0,
        forall|i: int|
            0 <= i < name_words(s).0.len() ==> (#[trigger] name_words(s).0[i]).len() > 0,
    decreases s.len(),
{
    if s.len() > 0 {
        lemma_words_nonempty(s.drop_last());
    }
}

proof fn lemma_name_scan_words(s: Seq<char>)
    ensures
        name_scan(s).0 == name_cut(joined(name_words(s).0, seq![' '])),
        name_scan(s).1 == (!name_words(s).1 && name_words(s).0.len() > 0),
    decreases s.len(),
{
    if s.len() > 0 {
        let t = s.drop_last();
        let c = s.last();
        lemma_name_scan_words(t);
        lemma_words_nonempty(t);
        lemma_words_nonempty(s);
        let (ws, open) = name_words(t);
        let j = joined(ws, seq![' ']);
        assert(ws.len() > 0 ==> j.len() > 0) by {
            if ws.len() > 0 {
                if ws.len() == 1 {
                    assert(ws[0].len() > 0);
                } else {
                    assert(ws[0].len() > 0);
                    assert(j == ws[0] + seq![' '] + joined(ws.skip(1), seq![' ']));
                }
            }
        }
        assert(ws.len() == 0 ==> j.len() == 0);
        if is_white_space(c) {
        } else if is_control(c) {
        } else if open {
            lemma_joined_grow_last(ws, c, seq![' ']);
            assert(name_scan(s).0 =~= name_cut(joined(name_words(s).0, seq![' '])));
        } else if ws.len() > 0 {
            lemma_joined_push(ws, seq![c], seq![' ']);
            assert(name_scan(s).0 =~= name_cut(joined(name_words(s).0, seq![' '])));
        } else {
            assert(ws.push(seq![c]) =~= seq![seq![c]]);
            assert(joined(seq![seq![c]], seq![' ']) == seq![c]);
            assert(name_scan(s).0 =~= name_cut(joined(name_words(s).0, seq![' '])));
        }
    }
}

/// A cleaned name is the requested text's words, control characters dropped
/// and empty words skipped, joined by single spaces, cut to
/// `MAX_NAME_CHARS` characters, with trailing white space trimmed.
pub proof fn lemma_cleaned_name_is_joined_words(s: Seq<char>)
    ensures
        cleaned_name(s) == trim_end(name_cut(joined(name_words(s).0, seq![' ']))),
{
    lemma_name_scan_words(s);
}

/// Trim, collapse inner whitespace to single spaces, and cut to
/// `MAX_NAME_CHARS` characters.
pub fn clean_name(raw: &str) -> (r: String)
    ensures
        r@ == cleaned_name(raw@),
        r@.len() <= MAX_NAME_CHARS,
        forall|i: int| 0 <= i < r@.len() ==> !is_control(#[trigger] r@[i]),
        forall|i: int| 0 <= i < r@.len() && is_white_space(#[trigger] r@[i]) ==> r@[i] == ' ',
        forall|i: int| 0 <= i < r@.len() - 1 ==> !(#[trigger] r@[i] == ' ' && r@[i + 1] == ' '),
        r@.len() > 0 ==> !is_white_space(r@[0]) && !is_white_space(r@.last()),
{
    let chars = chars_vec(raw);
    let mut out: Vec<char> = Vec::new();
    let mut pending = false;
    let mut i: usize = 0;
    while i < chars.len()
        invariant
            i <= chars@.len(),
            chars@ == raw@,
            (out@, pending) == name_scan(chars@.take(i as int)),
            out@.len() <= MAX_NAME_CHARS,
            forall|j: int| 0 <= j < out@.len() ==> !is_control(#[trigger] out@[j]),
            forall|j: int|
                0 <= j < out@.len() && is_white_space(#[trigger] out@[j]) ==> out@[j] == ' ',
            forall|j: int|
                0 <= j < out@.len() - 1 ==> !(#[trigger] out@[j] == ' ' && out@[j + 1] == ' '),
            out@.len() > 0 ==> !is_white_space(out@[0]),
            pending ==> out@.len() > 0,
            out@.len() > 0 && out@.last() == ' ' ==> out@.len() == MAX_NAME_CHARS,
        decreases chars.len() - i,
    {
        let c = chars[i];
        assert(chars@.take(i + 1).drop_last() =~= chars@.take(i as int));
        if char_is_white_space(c) {
            pending = out.len() > 0;
        } else if !char_is_control(c) {
            if pending && out.len() < MAX_NAME_CHARS {
                out.push(' ');
            }
            if out.len() < MAX_NAME_CHARS {
                out.push(c);
            }
            pending = false;
        }
        i = i + 1;
    }
    assert(chars@.take(chars@.len() as int) =~= chars@);
    let mut k: usize = out.len();
    assert(out@.take(k as int) =~= out@);
    while k > 0 && char_is_white_space(out[k - 1])
        invariant
            k <= out@.len(),
            trim_end(out@) == trim_end(out@.take(k as int)),
        decreases k,
    {
        assert(out@.take(k as int).drop_last() =~= out@.take(k - 1));
        k = k - 1;
    }
    let mut r = String::new();
    crate::text::push_chars(&mut r, &out, k);
    assert(trim_end(out@.take(k as int)) == out@.take(k as int));
    r
}

// ── Game state ───────────────────────────────────────────────────────

/// What a [`Game`] holds, as plain values.
pub struct GameView {
    pub players: Seq<Player>,
    pub phase: Phase,
    pub deck: Seq<Question>,
    pub settings: Settings,
    pub version: u64,
    /// The answer time of the question on screen: the setting when it opened,
    /// so a settings change waits for the next question.
    pub question_time_ms: u32,
}

/// The whole game state. Every change a phone or the host makes bumps
/// `version` so the phones can poll cheaply.
#[derive(Clone, Debug)]
pub struct Game {
    players: Vec<Player>,
    phase: Phase,
    deck: Vec<Question>,
    settings: Settings,
    version: u64,
    question_time_ms: u32,
}

impl View for Game {
    type V = GameView;

    closed spec fn view(&self) -> GameView {
        GameView {
            players: self.players@,
            phase: self.phase,
            deck: self.deck@,
            settings: self.settings,
            version: self.version,
            question_time_ms: self.question_time_ms,
        }
    }
}

/// The version after one more change.
pub open spec fn next_version(v: u64) -> u64 {
    if v == u64::MAX {
        0
    } else {
        (v + 1) as u64
    }
}

/// The seats whose phone is still around, in seat order.
pub open spec fn connected_players(s: Seq<Player>) -> Seq<Player>
    decreases s.len(),
{
    if s.len() == 0 {
        Seq::empty()
    } else {
        let rest = connected_players(s.drop_last());
        if s.last().connected {
            rest.push(s.last())
        } else {
            rest
        }
    }
}

/// How many phones are still around.
pub open spec fn connected_count(s: Seq<Player>) -> nat {
    connected_players(s).len()
}

/// The seat of the earliest-joined player still connected: the host.
pub open spec fn host_index(s: Seq<Player>) -> Option<int>
    decreases s.len(),
{
    if s.len() == 0 {
        None
    } else {
        match host_index(s.drop_last()) {
            Some(i) => Some(i),
            None => if s.last().connected {
                Some(s.len() - 1)
            } else {
                None
            },
        }
    }
}

/// The first seat holding `token`.
pub open spec fn token_index(s: Seq<Player>, token: u64) -> Option<int>
    decreases s.len(),
{
    if s.len() == 0 {
        None
    } else {
        match token_index(s.drop_last(), token) {
            Some(i) => Some(i),
            None => if s.last().token == token {
                Some(s.len() - 1)
            } else {
                None
            },
        }
    }
}

/// Whether a connected player uses `color`.
pub open spec fn color_in_use(s: Seq<Player>, color: PlayerColor) -> bool {
    exists|i: int| 0 <= i < s.len() && s[i].connected && s[i].color == color
}

/// The colours no connected player uses, in the order the phone offers them.
pub open spec fn free_colors_of(s: Seq<Player>) -> Seq<PlayerColor> {
    all_colors().filter(|c: PlayerColor| !color_in_use(s, c))
}

/// Whether a connected player has locked an answer, counted.
pub open spec fn answered_players(s: Seq<Player>) -> Seq<Player>
    decreases s.len(),
{
    if s.len() == 0 {
        Seq::empty()
    } else {
        let rest = answered_players(s.drop_last());
        if s.last().connected && s.last().answer is Some {
            rest.push(s.last())
        } else {
            rest
        }
    }
}

/// The question index of a phase that shows one.
pub open spec fn phase_index(phase: Phase) -> Option<usize> {
    match phase {
        Phase::Question { index, .. } => Some(index),
        Phase::Reveal { index, .. } => Some(index),
        Phase::Standings { index, .. } => Some(index),
        _ => None,
    }
}

/// `a` ranks above `b`: more points, or as many and an earlier seat.
pub open spec fn ranks_before(a: Player, b: Player) -> bool {
    a.score > b.score || (a.score == b.score && a.seat < b.seat)
}

/// Where `p` goes among the ranked players `r`: before the first of them
/// it ranks above, or last.
pub open spec fn rank_slot(r: Seq<Player>, p: Player) -> int
    decreases r.len(),
{
    if r.len() == 0 {
        0
    } else {
        let k = rank_slot(r.drop_last(), p);
        if k < r.len() - 1 {
            k
        } else if ranks_before(p, r.last()) {
            r.len() - 1
        } else {
            r.len() as int
        }
    }
}

/// The players by score, highest first, ties by seat.
pub open spec fn ranked(s: Seq<Player>) -> Seq<Player>
    decreases s.len(),
{
    if s.len() == 0 {
        Seq::empty()
    } else {
        let r = ranked(s.drop_last());
        r.insert(rank_slot(r, s.last()), s.last())
    }
}

/// Where a player goes among the ranked ones lies within them or just past.
pub proof fn lemma_rank_slot_bounds(r: Seq<Player>, p: Player)
    ensures
        0 <= rank_slot(r, p) <= r.len(),
{
    lemma_rank_slot(r, p);
}

proof fn lemma_rank_slot(r: Seq<Player>, p: Player)
    ensures
        0 <= rank_slot(r, p) <= r.len(),
        forall|k: int| 0 <= k < rank_slot(r, p) ==> !ranks_before(p, #[trigger] r[k]),
        rank_slot(r, p) < r.len() ==> ranks_before(p, r[rank_slot(r, p)]),
    decreases r.len(),
{
    if r.len() > 0 {
        let t = r.drop_last();
        lemma_rank_slot(t, p);
        assert forall|k: int| 0 <= k < t.len() implies t[k] == r[k] by {}
    }
}

/// The standings order the players strictly by score, highest first, ties
/// by seat, and hold every player once: when no two players share a seat,
/// each player is in the standings and each entry is a player.
pub proof fn lemma_ranked_orders_players(s: Seq<Player>)
    requires
        forall|i: int, j: int|
            0 <= i < s.len() && 0 <= j < s.len() && i != j ==> (#[trigger] s[i]).seat != (
            #[trigger] s[j]).seat,
    ensures
        ranked(s).len() == s.len(),
        forall|a: int, b: int|
            0 <= a < b < ranked(s).len() ==> ranks_before(
                #[trigger] ranked(s)[a],
                #[trigger] ranked(s)[b],
            ),
        forall|k: int| 0 <= k < s.len() ==> ranked(s).contains(#[trigger] s[k]),
        forall|k: int| 0 <= k < ranked(s).len() ==> s.contains(#[trigger] ranked(s)[k]),
    decreases s.len(),
{
    if s.len() > 0 {
        let t = s.drop_last();
        assert forall|i: int, j: int|
            0 <= i < t.len() && 0 <= j < t.len() && i != j implies (#[trigger] t[i]).seat != (
            #[trigger] t[j]).seat by {
            assert(t[i] == s[i] && t[j] == s[j]);
        }
        lemma_ranked_orders_players(t);
        let before = ranked(t);
        let x = s.last();
        let slot = rank_slot(before, x);
        lemma_rank_slot(before, x);
        let r = before.insert(slot, x);
        assert(ranked(s) == r);
        assert forall|k: int| 0 <= k < before.len() implies (#[trigger] before[k]).seat != x.seat by {
            assert(t.contains(before[k]));
            let j = choose|j: int| 0 <= j < t.len() && t[j] == before[k];
            assert(t[j] == s[j]);
            assert(s[s.len() - 1] == x);
        }
        assert forall|a: int, b: int| 0 <= a < b < r.len() implies ranks_before(
            #[trigger] r[a],
            #[trigger] r[b],
        ) by {
            if a < slot && b < slot {
                assert(r[a] == before[a] && r[b] == before[b]);
            } else if a < slot && b == slot {
                assert(r[a] == before[a]);
                assert(!ranks_before(x, before[a]));
                assert(before[a].seat != x.seat);
            } else if a < slot {
                assert(r[a] == before[a] && r[b] == before[b - 1]);
            } else if a == slot {
                assert(r[b] == before[b - 1]);
                assert(ranks_before(x, before[slot]));
                if b - 1 > slot {
                    assert(ranks_before(before[slot], before[b - 1]));
                }
            } else {
                assert(r[a] == before[a - 1] && r[b] == before[b - 1]);
            }
        }
        assert forall|k: int| 0 <= k < s.len() implies r.contains(#[trigger] s[k]) by {
            if k == s.len() - 1 {
                assert(r[slot] == s[k]);
            } else {
                assert(t[k] == s[k]);
                assert(before.contains(t[k]));
                let m = choose|m: int| 0 <= m < before.len() && before[m] == t[k];
                if m < slot {
                    assert(r[m] == s[k]);
                } else {
                    assert(r[m + 1] == s[k]);
                }
            }
        }
        assert forall|k: int| 0 <= k < r.len() implies s.contains(#[trigger] r[k]) by {
            if k == slot {
                assert(s[s.len() - 1] == r[k]);
            } else {
                let b = if k < slot { k } else { k - 1 };
                assert(r[k] == before[b]);
                assert(t.contains(before[b]));
                let j = choose|j: int| 0 <= j < t.len() && t[j] == before[b];
                assert(s[j] == r[k]);
            }
        }
    }
}

impl GameView {
    /// The invariant every game keeps: each player sits at its own index,
    /// locked answers name one of the four answers, every question has its
    /// correct answer among the four, and no two names are the same once
    /// ASCII letters are lower-cased.
    pub open spec fn wf(self) -> bool {
        &&& forall|i: int| 0 <= i < self.players.len() ==> (#[trigger] self.players[i]).seat == i
        &&& forall|i: int|
            0 <= i < self.players.len() ==> ((#[trigger] self.players[i]).answer matches Some(a)
                ==> a.choice < ANSWER_COUNT)
        &&& forall|i: int|
            0 <= i < self.deck.len() ==> (#[trigger] self.deck[i]).correct < ANSWER_COUNT
        &&& forall|i: int, j: int|
            0 <= i < self.players.len() && 0 <= j < self.players.len() && i != j ==> lower_ascii(
                (#[trigger] self.players[i]).name@,
            ) != lower_ascii((#[trigger] self.players[j]).name@)
    }

    /// How many questions this game will ask: the setting, capped by the deck.
    pub open spec fn question_total(self) -> nat {
        if self.settings.question_count <= self.deck.len() {
            self.settings.question_count as nat
        } else {
            self.deck.len()
        }
    }

    /// The question on screen during Question, Reveal, and Standings.
    pub open spec fn current_question(self) -> Option<Question> {
        match phase_index(self.phase) {
            Some(i) => if i < self.deck.len() {
                Some(self.deck[i as int])
            } else {
                None
            },
            None => None,
        }
    }

    /// Milliseconds left on the countdown; zero outside the Question phase.
    pub open spec fn remaining_ms(self) -> u32 {
        match self.phase {
            Phase::Question { elapsed_ms, .. } => if elapsed_ms <= self.question_time_ms {
                (self.question_time_ms - elapsed_ms) as u32
            } else {
                0
            },
            _ => 0,
        }
    }

    /// Why the game may not start now, if it may not.
    pub open spec fn start_blocker(self) -> Option<ActionError> {
        if self.phase != Phase::Lobby {
            Some(ActionError::WrongPhase)
        } else if connected_count(self.players) < MIN_PLAYERS {
            Some(ActionError::NotEnoughPlayers)
        } else if self.deck.len() == 0 {
            Some(ActionError::NoQuestions)
        } else {
            None
        }
    }

    /// Whether the player holding `token` may act as host.
    pub open spec fn host_check(self, token: u64) -> Result<(), ActionError> {
        match token_index(self.players, token) {
            None => Err(ActionError::UnknownToken),
            Some(i) => if host_index(self.players) == Some(i) {
                Ok(())
            } else {
                Err(ActionError::NotHost)
            },
        }
    }

    /// The same game with the version bumped.
    pub open spec fn bumped(self) -> GameView {
        GameView { version: next_version(self.version), ..self }
    }
}

proof fn lemma_host_index(s: Seq<Player>)
    ensures
        match host_index(s) {
            Some(i) => 0 <= i < s.len() && s[i].connected && forall|j: int|
                0 <= j < i ==> !(#[trigger] s[j]).connected,
            None => forall|j: int| 0 <= j < s.len() ==> !(#[trigger] s[j]).connected,
        },
    decreases s.len(),
{
    if s.len() > 0 {
        let t = s.drop_last();
        lemma_host_index(s.drop_last());
        assert forall|j: int| 0 <= j < t.len() implies t[j] == s[j] by {}
    }
}

proof fn lemma_token_index(s: Seq<Player>, token: u64)
    ensures
        match token_index(s, token) {
            Some(i) => 0 <= i < s.len() && s[i].token == token && forall|j: int|
                0 <= j < i ==> (#[trigger] s[j]).token != token,
            None => forall|j: int| 0 <= j < s.len() ==> (#[trigger] s[j]).token != token,
        },
    decreases s.len(),
{
    if s.len() > 0 {
        let t = s.drop_last();
        lemma_token_index(s.drop_last(), token);
        assert forall|j: int| 0 <= j < t.len() implies t[j] == s[j] by {}
    }
}

proof fn lemma_connected_players(s: Seq<Player>)
    ensures
        connected_count(s) <= s.len(),
        connected_count(s) == 0 <==> forall|j: int|
            0 <= j < s.len() ==> !(#[trigger] s[j]).connected,
    decreases s.len(),
{
    if s.len() > 0 {
        let t = s.drop_last();
        lemma_connected_players(s.drop_last());
        assert forall|j: int| 0 <= j < t.len() implies t[j] == s[j] by {}
    }
}

/// Whether some seat's name matches `candidate` once ASCII letters are
/// lower-cased.
pub open spec fn name_taken(s: Seq<Player>, candidate: Seq<char>) -> bool {
    exists|i: int| 0 <= i < s.len() && lower_ascii((#[trigger] s[i]).name@) == lower_ascii(candidate)
}

/// `base` followed by a space and `n` in decimal.
pub open spec fn numbered(base: Seq<char>, n: nat) -> Seq<char> {
    base + seq![' '] + decimal(n)
}

/// `name` is what a newcomer asking for `base` is called: `base` itself
/// when free, else `base` and the smallest number from 2 that makes it free.
pub open spec fn is_dedup_name(s: Seq<Player>, base: Seq<char>, name: Seq<char>) -> bool {
    if !name_taken(s, base) {
        name == base
    } else {
        exists|n: nat|
            n >= 2 && name == numbered(base, n) && !name_taken(s, name) && forall|m: nat|
                2 <= m < n ==> name_taken(s, #[trigger] numbered(base, m))
    }
}

/// The smallest number from 2 whose numbered name is free.
pub open spec fn free_number(s: Seq<Player>, base: Seq<char>) -> nat {
    choose|n: nat|
        n >= 2 && !name_taken(s, numbered(base, n)) && forall|m: nat|
            2 <= m < n ==> name_taken(s, #[trigger] numbered(base, m))
}

/// What a newcomer asking for `base` is called: `base` itself when no seat's
/// name matches it, else `base` numbered with the smallest free number.
pub open spec fn dedup_name(s: Seq<Player>, base: Seq<char>) -> Seq<char> {
    if !name_taken(s, base) {
        base
    } else {
        numbered(base, free_number(s, base))
    }
}

/// The name the dedup rule allows is the one it picks.
pub proof fn lemma_dedup_name(s: Seq<Player>, base: Seq<char>, name: Seq<char>)
    requires
        is_dedup_name(s, base, name),
    ensures
        name == dedup_name(s, base),
{
    if name_taken(s, base) {
        let n = choose|n: nat|
            n >= 2 && name == numbered(base, n) && !name_taken(s, name) && forall|m: nat|
                2 <= m < n ==> name_taken(s, #[trigger] numbered(base, m));
        let k = free_number(s, base);
        assert(k >= 2 && !name_taken(s, numbered(base, k)));
        if k < n {
            assert(name_taken(s, numbered(base, k)));
        }
        if n < k {
            assert(name_taken(s, numbered(base, n)));
        }
    }
}

/// Why a phone asking for `requested` in `color` may not join, if it may not.
pub open spec fn join_refusal(v: GameView, requested: Seq<char>, color: PlayerColor) -> Option<
    JoinError,
> {
    if cleaned_name(requested).len() == 0 {
        Some(JoinError::EmptyName)
    } else if connected_count(v.players) >= MAX_PLAYERS {
        Some(JoinError::Full)
    } else if color_in_use(v.players, color) && free_colors_of(v.players).len() > 0 {
        Some(JoinError::ColorTaken)
    } else {
        None
    }
}

/// A player as seated by `join`: fresh scores, connected, at the next seat.
pub open spec fn is_newcomer(
    v: GameView,
    p: Player,
    requested: Seq<char>,
    color: PlayerColor,
    token: u64,
) -> bool {
    &&& p.seat == v.players.len()
    &&& p.token == token
    &&& p.name@ == dedup_name(v.players, cleaned_name(requested))
    &&& p.color == color
    &&& p.score == 0
    &&& p.streak == 0
    &&& p.answer is None
    &&& p.last_gain == 0
    &&& p.connected
}

/// `after` is `v` with a newcomer asking for `requested` in `color` seated
/// at the next seat holding `token`.
pub open spec fn is_joined(
    v: GameView,
    after: GameView,
    requested: Seq<char>,
    color: PlayerColor,
    token: u64,
) -> bool {
    &&& after.players.len() == v.players.len() + 1
    &&& after.players.drop_last() == v.players
    &&& is_newcomer(v, after.players.last(), requested, color, token)
    &&& after.phase == v.phase
    &&& after.deck == v.deck
    &&& after.settings == v.settings
    &&& after.question_time_ms == v.question_time_ms
    &&& after.version == next_version(v.version)
}

/// A player after a question closed: a locked correct answer extends the
/// streak and earns the speed points plus the bonus past the threshold;
/// anything else earns nothing and breaks the streak.
pub open spec fn scored(p: Player, correct: Option<usize>, answer_time_ms: u32) -> Player {
    match p.answer {
        Some(a) => if correct == Some(a.choice) {
            let streak = (p.streak + 1) as u32;
            let bonus = if streak > STREAK_THRESHOLD {
                STREAK_BONUS
            } else {
                0
            };
            let gain = (points(a.elapsed_ms, answer_time_ms) + bonus) as u32;
            Player { streak, last_gain: gain, score: (p.score + gain) as u32, ..p }
        } else {
            Player { streak: 0, last_gain: 0, ..p }
        },
        None => Player { streak: 0, last_gain: 0, ..p },
    }
}

/// A player when a new question opens.
pub open spec fn unanswered(p: Player) -> Player {
    Player { answer: None, last_gain: 0, ..p }
}

/// A player when a game starts.
pub open spec fn zeroed(p: Player) -> Player {
    Player { score: 0, streak: 0, last_gain: 0, answer: None, ..p }
}

/// The seats kept when the game returns to the lobby: the connected ones,
/// moved up to close the gaps, with scores cleared.
pub open spec fn lobby_seats(s: Seq<Player>) -> Seq<Player> {
    connected_players(s).map(|i: int, p: Player| Player { seat: i as usize, ..zeroed(p) })
}

/// `saturating_add` on `u32`.
pub open spec fn sat_add(a: u32, b: u32) -> u32 {
    if a + b > u32::MAX {
        u32::MAX
    } else {
        (a + b) as u32
    }
}

impl GameView {
    /// Whether `p` has locked the right answer of the question open on screen,
    /// so that closing it adds to `p`'s score and streak.
    pub open spec fn scores_now(self, p: Player) -> bool {
        match self.phase {
            Phase::Question { index, .. } => index < self.deck.len() && (p.answer matches Some(
                a,
            ) && a.choice == self.deck[index as int].correct),
            _ => false,
        }
    }

    /// Room left in every counter that closing the open question or counting
    /// the grace period adds to: the score and streak of each player it
    /// scores, and the grace timer.
    pub open spec fn room(self) -> bool {
        &&& forall|i: int|
            0 <= i < self.players.len() && self.scores_now(#[trigger] self.players[i]) ==> (
            self.players[i].score <= u32::MAX - (MAX_POINTS + STREAK_BONUS)
                && self.players[i].streak < u32::MAX)
        &&& (self.phase matches Phase::Question { all_answered_at: Some(at), .. } ==> at
            <= u32::MAX - GRACE_MS)
    }

    /// The game after the question at `index` closed: every player scored,
    /// the reveal on screen.
    pub open spec fn finished(self, index: usize) -> GameView {
        let correct = if index < self.deck.len() {
            Some(self.deck[index as int].correct)
        } else {
            None
        };
        GameView {
            players: self.players.map_values(
                |p: Player| scored(p, correct, self.question_time_ms),
            ),
            phase: Phase::Reveal { index, elapsed_ms: 0 },
            ..self
        }.bumped()
    }

    /// The game with the standings after question `index` on screen.
    pub open spec fn standings_shown(self, index: usize) -> GameView {
        GameView { phase: Phase::Standings { index, elapsed_ms: 0 }, ..self }.bumped()
    }

    /// The game with question `index` open and nobody's answer locked.
    pub open spec fn question_opened(self, index: usize) -> GameView {
        GameView {
            players: self.players.map_values(|p: Player| unanswered(p)),
            phase: Phase::Question { index, elapsed_ms: 0, all_answered_at: None },
            question_time_ms: self.settings.answer_time_ms,
            ..self
        }.bumped()
    }

    /// The game after the standings of question `index`: the next question,
    /// or the podium after the last one.
    pub open spec fn after_standings(self, index: usize) -> GameView {
        if index + 1 < self.question_total() {
            self.question_opened((index + 1) as usize)
        } else {
            GameView { phase: Phase::Podium { elapsed_ms: 0 }, ..self }.bumped()
        }
    }

    /// The game back in the lobby with the connected seats kept.
    pub open spec fn lobby_again(self) -> GameView {
        GameView { players: lobby_seats(self.players), phase: Phase::Lobby, ..self }.bumped()
    }

    /// The game after `delta_ms` of wall clock.
    pub open spec fn ticked(self, delta_ms: u32) -> GameView {
        match self.phase {
            Phase::Lobby => self,
            Phase::Question { index, elapsed_ms, all_answered_at } => {
                let e = sat_add(elapsed_ms, delta_ms);
                let timed_out = e >= self.question_time_ms;
                let grace_over = all_answered_at matches Some(at) && e >= at + GRACE_MS;
                if timed_out || grace_over {
                    self.finished(index)
                } else {
                    GameView {
                        phase: Phase::Question { index, elapsed_ms: e, all_answered_at },
                        ..self
                    }
                }
            },
            Phase::Reveal { index, elapsed_ms } => {
                let e = sat_add(elapsed_ms, delta_ms);
                if e >= REVEAL_MS {
                    self.standings_shown(index)
                } else {
                    GameView { phase: Phase::Reveal { index, elapsed_ms: e }, ..self }
                }
            },
            Phase::Standings { index, elapsed_ms } => {
                let e = sat_add(elapsed_ms, delta_ms);
                if e >= STANDINGS_MS {
                    self.after_standings(index)
                } else {
                    GameView { phase: Phase::Standings { index, elapsed_ms: e }, ..self }
                }
            },
            Phase::Podium { elapsed_ms } => {
                let e = sat_add(elapsed_ms, delta_ms);
                if e >= PODIUM_MS {
                    self.lobby_again()
                } else {
                    GameView { phase: Phase::Podium { elapsed_ms: e }, ..self }
                }
            },
        }
    }

    /// What `answer` says to the holder of `token` choosing `choice`.
    pub open spec fn answer_outcome(self, token: u64, choice: usize) -> Result<(), ActionError> {
        if !(self.phase is Question) {
            Err(ActionError::WrongPhase)
        } else if choice >= ANSWER_COUNT {
            Err(ActionError::BadChoice)
        } else {
            match token_index(self.players, token) {
                None => Err(ActionError::UnknownToken),
                Some(i) => if self.players[i].answer is Some {
                    Err(ActionError::AlreadyAnswered)
                } else {
                    Ok(())
                },
            }
        }
    }

    /// The game after the holder of `token` locked `choice`; when that was
    /// the last connected player to answer, the grace period starts now.
    pub open spec fn answered(self, token: u64, choice: usize) -> GameView {
        match self.phase {
            Phase::Question { index, elapsed_ms, all_answered_at } => {
                let i = token_index(self.players, token)->0;
                let players = self.players.update(
                    i,
                    Player {
                        answer: Some(Answer { choice, elapsed_ms }),
                        ..self.players[i]
                    },
                );
                let everyone = forall|j: int|
                    0 <= j < players.len() ==> (#[trigger] players[j]).connected
                        ==> players[j].answer is Some;
                let phase = if everyone && all_answered_at is None {
                    Phase::Question { index, elapsed_ms, all_answered_at: Some(elapsed_ms) }
                } else {
                    self.phase
                };
                GameView { players, phase, ..self }.bumped()
            },
            _ => self,
        }
    }

    /// What `start` says to the holder of `token`.
    pub open spec fn start_outcome(self, token: u64) -> Result<(), ActionError> {
        match self.host_check(token) {
            Err(e) => Err(e),
            Ok(_) => match self.start_blocker() {
                Some(e) => Err(e),
                None => Ok(()),
            },
        }
    }

    /// The game once started: scores cleared, the first question open.
    pub open spec fn started(self) -> GameView {
        (GameView { players: self.players.map_values(|p: Player| zeroed(p)), ..self }).question_opened(0)
    }

    /// What `end` says to the holder of `token`.
    pub open spec fn end_outcome(self, token: u64) -> Result<(), ActionError> {
        match self.host_check(token) {
            Err(e) => Err(e),
            Ok(_) => match self.phase {
                Phase::Lobby | Phase::Podium { .. } => Err(ActionError::WrongPhase),
                _ => Ok(()),
            },
        }
    }

    /// The game ended early: straight to the podium.
    pub open spec fn ended(self) -> GameView {
        (GameView { phase: Phase::Podium { elapsed_ms: 0 }, ..self }).bumped()
    }

    /// What `new_game` says to the holder of `token`.
    pub open spec fn new_game_outcome(self, token: u64) -> Result<(), ActionError> {
        match self.host_check(token) {
            Err(e) => Err(e),
            Ok(_) => if self.phase == Phase::Lobby {
                Err(ActionError::WrongPhase)
            } else {
                Ok(())
            },
        }
    }

    /// The game after the phone holding `token` left: its seat, if
    /// connected, is marked gone.
    pub open spec fn left(self, token: u64) -> GameView {
        match token_index(self.players, token) {
            Some(i) => if self.players[i].connected {
                (GameView {
                    players: self.players.update(i, Player { connected: false, ..self.players[i] }),
                    ..self
                }).bumped()
            } else {
                self
            },
            None => self,
        }
    }

    /// The game after the phone holding `token` came back: its seat, if
    /// gone, is marked connected.
    pub open spec fn rejoined(self, token: u64) -> GameView {
        match token_index(self.players, token) {
            Some(i) => if self.players[i].connected {
                self
            } else {
                (GameView {
                    players: self.players.update(i, Player { connected: true, ..self.players[i] }),
                    ..self
                }).bumped()
            },
            None => self,
        }
    }

    /// What `skip` says to the holder of `token`.
    pub open spec fn skip_outcome(self, token: u64) -> Result<(), ActionError> {
        match self.host_check(token) {
            Err(e) => Err(e),
            Ok(_) => match self.phase {
                Phase::Lobby | Phase::Podium { .. } => Err(ActionError::WrongPhase),
                _ => Ok(()),
            },
        }
    }

    /// The game after the host skipped ahead.
    pub open spec fn skipped(self) -> GameView {
        match self.phase {
            Phase::Question { index, .. } => self.finished(index),
            Phase::Reveal { index, .. } => self.standings_shown(index),
            Phase::Standings { index, .. } => self.after_standings(index),
            _ => self,
        }
    }
}

/// No two of these players have the same name once ASCII letters are
/// lower-cased.
pub open spec fn distinct_names(s: Seq<Player>) -> bool {
    forall|i: int, j: int|
        0 <= i < s.len() && 0 <= j < s.len() && i != j ==> lower_ascii((#[trigger] s[i]).name@)
            != lower_ascii((#[trigger] s[j]).name@)
}

proof fn lemma_connected_members(s: Seq<Player>)
    ensures
        forall|k: int|
            0 <= k < connected_players(s).len() ==> s.contains(#[trigger] connected_players(s)[k]),
    decreases s.len(),
{
    if s.len() > 0 {
        let t = s.drop_last();
        lemma_connected_members(t);
        assert forall|k: int| 0 <= k < connected_players(s).len() implies s.contains(
            #[trigger] connected_players(s)[k],
        ) by {
            if k < connected_players(t).len() {
                assert(connected_players(s)[k] == connected_players(t)[k]);
                assert(t.contains(connected_players(t)[k]));
                let i = choose|i: int| 0 <= i < t.len() && t[i] == connected_players(t)[k];
                assert(s[i] == t[i]);
            } else {
                assert(connected_players(s)[k] == s[s.len() - 1]);
            }
        }
    }
}

proof fn lemma_connected_distinct(s: Seq<Player>)
    requires
        distinct_names(s),
    ensures
        distinct_names(connected_players(s)),
    decreases s.len(),
{
    if s.len() > 0 {
        let t = s.drop_last();
        assert forall|i: int, j: int|
            0 <= i < t.len() && 0 <= j < t.len() && i != j implies lower_ascii(
            (#[trigger] t[i]).name@,
        ) != lower_ascii((#[trigger] t[j]).name@) by {
            assert(t[i] == s[i] && t[j] == s[j]);
        }
        lemma_connected_distinct(t);
        lemma_connected_members(t);
        let c = connected_players(s);
        let ct = connected_players(t);
        if s.last().connected {
            assert forall|k: int| 0 <= k < ct.len() implies lower_ascii((#[trigger] ct[k]).name@)
                != lower_ascii(s.last().name@) by {
                assert(t.contains(ct[k]));
                let i = choose|i: int| 0 <= i < t.len() && t[i] == ct[k];
                assert(t[i] == s[i]);
            }
            assert forall|i: int, j: int|
                0 <= i < c.len() && 0 <= j < c.len() && i != j implies lower_ascii(
                (#[trigger] c[i]).name@,
            ) != lower_ascii((#[trigger] c[j]).name@) by {
                if i < ct.len() && j < ct.len() {
                    assert(c[i] == ct[i] && c[j] == ct[j]);
                } else if i < ct.len() {
                    assert(c[i] == ct[i]);
                } else {
                    assert(c[j] == ct[j]);
                }
            }
        }
    }
}

proof fn lemma_lower_concat(a: Seq<char>, b: Seq<char>)
    ensures
        lower_ascii(a + b) == lower_ascii(a) + lower_ascii(b),
{
    assert(lower_ascii(a + b) =~= lower_ascii(a) + lower_ascii(b));
}

/// Two numbered names for one base are the same, case aside, only when
/// their numbers are.
pub proof fn lemma_numbered_injective(base: Seq<char>, m: nat, n: nat)
    requires
        lower_ascii(numbered(base, m)) == lower_ascii(numbered(base, n)),
    ensures
        m == n,
{
    let pre = base + seq![' '];
    lemma_lower_concat(pre, decimal(m));
    lemma_lower_concat(pre, decimal(n));
    lemma_decimal_lower(m);
    lemma_decimal_lower(n);
    let lm = lower_ascii(numbered(base, m));
    let ln = lower_ascii(numbered(base, n));
    assert(lm == lower_ascii(pre) + decimal(m));
    assert(ln == lower_ascii(pre) + decimal(n));
    let k = lower_ascii(pre).len() as int;
    assert(decimal(m) =~= lm.skip(k));
    assert(decimal(n) =~= ln.skip(k));
    lemma_decimal_injective(m, n);
}

impl Default for Game {
    fn default() -> (g: Game)
        ensures
            g@.players.len() == 0,
            g@.phase == Phase::Lobby,
            g@.deck.len() == 0,
            g@.settings == (Settings { question_count: 10, answer_time_ms: 20_000 }),
            g@.version == 1,
            g@.wf(),
    {
        Game::new(Settings::default())
    }
}

impl Game {
    pub fn new(settings: Settings) -> (g: Game)
        ensures
            g@.players.len() == 0,
            g@.phase == Phase::Lobby,
            g@.deck.len() == 0,
            g@.settings == settings,
            g@.version == 1,
            g@.question_time_ms == settings.answer_time_ms,
            g@.wf(),
    {
        Game {
            players: Vec::new(),
            phase: Phase::Lobby,
            deck: Vec::new(),
            settings,
            version: 1,
            question_time_ms: settings.answer_time_ms,
        }
    }

    // ── Read side ────────────────────────────────────────────────────

    pub fn version(&self) -> (r: u64)
        ensures
            r == self@.version,
    {
        self.version
    }

    pub fn phase(&self) -> (r: Phase)
        ensures
            r == self@.phase,
    {
        self.phase
    }

    pub fn settings(&self) -> (r: Settings)
        ensures
            r == self@.settings,
    {
        self.settings
    }

    pub fn players(&self) -> (r: &[Player])
        ensures
            r@ == self@.players,
    {
        self.players.as_slice()
    }

    /// Seats whose phone is still around.
    pub fn connected(&self) -> (r: Vec<&Player>)
        ensures
            r@.unref() == connected_players(self@.players),
    {
        let mut r: Vec<&Player> = Vec::new();
        let mut i: usize = 0;
        while i < self.players.len()
            invariant
                i <= self.players@.len(),
                r@.unref() == connected_players(self.players@.take(i as int)),
            decreases self.players.len() - i,
        {
            assert(self.players@.take(i + 1).drop_last() =~= self.players@.take(i as int));
            let p = &self.players[i];
            if p.connected {
                r.push(p);
                assert(r@.unref() =~= connected_players(self.players@.take(i as int)).push(*p));
            }
            i = i + 1;
        }
        assert(self.players@.take(i as int) =~= self.players@);
        r
    }

    /// The host is the earliest-joined player still connected.
    pub fn host(&self) -> (r: Option<&Player>)
        ensures
            match host_index(self@.players) {
                Some(i) => r == Some(&self@.players[i]),
                None => r is None,
            },
    {
        match self.host_seat() {
            Some(i) => Some(&self.players[i]),
            None => None,
        }
    }

    fn host_seat(&self) -> (r: Option<usize>)
        ensures
            r matches Some(i) ==> i < self@.players.len(),
            match r {
                Some(i) => host_index(self@.players) == Some(i as int),
                None => host_index(self@.players) is None,
            },
    {
        let mut i: usize = 0;
        while i < self.players.len()
            invariant
                i <= self.players@.len(),
                forall|j: int| 0 <= j < i ==> !(#[trigger] self.players@[j]).connected,
            decreases self.players.len() - i,
        {
            if self.players[i].connected {
                proof {
                    lemma_host_index(self.players@);
                }
                return Some(i);
            }
            i = i + 1;
        }
        proof {
            lemma_host_index(self.players@);
        }
        None
    }

    fn token_seat(&self, token: u64) -> (r: Option<usize>)
        ensures
            r matches Some(i) ==> i < self@.players.len(),
            match r {
                Some(i) => token_index(self@.players, token) == Some(i as int),
                None => token_index(self@.players, token) is None,
            },
    {
        let mut i: usize = 0;
        while i < self.players.len()
            invariant
                i <= self.players@.len(),
                forall|j: int| 0 <= j < i ==> (#[trigger] self.players@[j]).token != token,
            decreases self.players.len() - i,
        {
            if self.players[i].token == token {
                proof {
                    lemma_token_index(self.players@, token);
                }
                return Some(i);
            }
            i = i + 1;
        }
        proof {
            lemma_token_index(self.players@, token);
        }
        None
    }

    fn connected_total(&self) -> (r: usize)
        ensures
            r == connected_count(self@.players),
    {
        let mut n: usize = 0;
        let mut i: usize = 0;
        while i < self.players.len()
            invariant
                i <= self.players@.len(),
                n == connected_count(self.players@.take(i as int)),
                n <= i,
            decreases self.players.len() - i,
        {
            assert(self.players@.take(i + 1).drop_last() =~= self.players@.take(i as int));
            if self.players[i].connected {
                n = n + 1;
            }
            i = i + 1;
        }
        assert(self.players@.take(i as int) =~= self.players@);
        n
    }

    fn uses_color(&self, color: PlayerColor) -> (r: bool)
        ensures
            r == color_in_use(self@.players, color),
    {
        let mut i: usize = 0;
        while i < self.players.len()
            invariant
                i <= self.players@.len(),
                forall|j: int|
                    0 <= j < i ==> !((#[trigger] self.players@[j]).connected
                        && self.players@[j].color == color),
            decreases self.players.len() - i,
        {
            if self.players[i].connected && self.players[i].color == color {
                return true;
            }
            i = i + 1;
        }
        false
    }

    /// Colours no connected player is using. Empty once six players sit,
    /// after which colours may repeat.
    pub fn free_colors(&self) -> (r: Vec<PlayerColor>)
        ensures
            r@ == free_colors_of(self@.players),
    {
        let mut r: Vec<PlayerColor> = Vec::new();
        let mut i: usize = 0;
        let all = PlayerColor::ALL;
        assert(all@ == all_colors());
        while i < 6
            invariant
                i <= 6,
                all@ == all_colors(),
                r@ == all_colors().take(i as int).filter(|c: PlayerColor| !color_in_use(self@.players, c)),
            decreases 6 - i,
        {
            let c = all[i];
            assert(all_colors().take(i + 1) =~= all_colors().take(i as int).push(c));
            reveal(Seq::filter);
            assert(all_colors().take(i + 1).drop_last() =~= all_colors().take(i as int));
            if !self.uses_color(c) {
                r.push(c);
            }
            i = i + 1;
        }
        assert(all_colors().take(6) =~= all_colors());
        r
    }

    pub fn player_by_token(&self, token: u64) -> (r: Option<&Player>)
        ensures
            match token_index(self@.players, token) {
                Some(i) => r == Some(&self@.players[i]),
                None => r is None,
            },
    {
        match self.token_seat(token) {
            Some(i) => Some(&self.players[i]),
            None => None,
        }
    }

    /// Questions loaded and not yet exhausted by this game.
    pub fn questions_available(&self) -> (r: usize)
        ensures
            r == self@.deck.len(),
    {
        self.deck.len()
    }

    /// How many questions this game will ask: the setting, capped by the deck.
    pub fn question_total(&self) -> (r: usize)
        ensures
            r == self@.question_total(),
    {
        if self.settings.question_count <= self.deck.len() {
            self.settings.question_count
        } else {
            self.deck.len()
        }
    }

    fn question_index(&self) -> (r: usize)
        ensures
            r == match phase_index(self@.phase) {
                Some(i) => i,
                None => 0,
            },
    {
        match self.phase {
            Phase::Question { index, .. } => index,
            Phase::Reveal { index, .. } => index,
            Phase::Standings { index, .. } => index,
            _ => 0,
        }
    }

    /// The question on screen during Question, Reveal, and Standings.
    pub fn current_question(&self) -> (r: Option<&Question>)
        ensures
            match self@.current_question() {
                Some(q) => r == Some(&q),
                None => r is None,
            },
    {
        match self.phase {
            Phase::Question { index, .. } | Phase::Reveal { index, .. } | Phase::Standings {
                index,
                ..
            } => if index < self.deck.len() {
                Some(&self.deck[index])
            } else {
                None
            },
            _ => None,
        }
    }

    /// Connected players who have locked an answer for the current question.
    pub fn answered_count(&self) -> (r: usize)
        ensures
            r == answered_players(self@.players).len(),
    {
        let mut n: usize = 0;
        let mut i: usize = 0;
        while i < self.players.len()
            invariant
                i <= self.players@.len(),
                n == answered_players(self.players@.take(i as int)).len(),
                n <= i,
            decreases self.players.len() - i,
        {
            assert(self.players@.take(i + 1).drop_last() =~= self.players@.take(i as int));
            if self.players[i].connected && self.players[i].answer.is_some() {
                n = n + 1;
            }
            i = i + 1;
        }
        assert(self.players@.take(i as int) =~= self.players@);
        n
    }

    /// Milliseconds left on the countdown; zero outside the Question phase.
    pub fn remaining_ms(&self) -> (r: u32)
        ensures
            r == self@.remaining_ms(),
    {
        match self.phase {
            Phase::Question { elapsed_ms, .. } => self.question_time_ms.saturating_sub(
                elapsed_ms,
            ),
            _ => 0,
        }
    }

    /// The answer time of the question on screen, fixed when it opened.
    pub fn question_time_ms(&self) -> (r: u32)
        ensures
            r == self@.question_time_ms,
    {
        self.question_time_ms
    }

    /// Whether the score and streak of every player the open question scores,
    /// and the grace timer, have room for the
    /// open question to close.
    pub fn has_room(&self) -> (r: bool)
        ensures
            r == self@.room(),
    {
        let correct: Option<usize> = match self.phase {
            Phase::Question { index, .. } => if index < self.deck.len() {
                Some(self.deck[index].correct)
            } else {
                None
            },
            _ => None,
        };
        let mut i: usize = 0;
        while i < self.players.len()
            invariant
                i <= self.players@.len(),
                forall|p: Player| #[trigger] self@.scores_now(p) <==> (correct matches Some(c) && (
                    p.answer matches Some(a) && a.choice == c)),
                forall|j: int|
                    0 <= j < i && self@.scores_now(#[trigger] self.players@[j]) ==> (
                    self.players@[j].score <= u32::MAX - (MAX_POINTS + STREAK_BONUS)
                        && self.players@[j].streak < u32::MAX),
            decreases self.players.len() - i,
        {
            let scores = match (correct, self.players[i].answer) {
                (Some(c), Some(a)) => a.choice == c,
                _ => false,
            };
            if scores && (self.players[i].score > u32::MAX - (MAX_POINTS + STREAK_BONUS)
                || self.players[i].streak == u32::MAX) {
                assert(self@.scores_now(self.players@[i as int]));
                return false;
            }
            i = i + 1;
        }
        match self.phase {
            Phase::Question { all_answered_at: Some(at), .. } => at <= u32::MAX - GRACE_MS,
            _ => true,
        }
    }

    /// Players by score, highest first, ties by seat.
    pub fn standings(&self) -> (r: Vec<&Player>)
        requires
            self@.wf(),
        ensures
            r@.unref() == ranked(self@.players),
            r@.len() == self@.players.len(),
            forall|i: int, j: int|
                0 <= i < j < r@.len() ==> ranks_before(*(#[trigger] r@[i]), *(#[trigger] r@[j])),
            forall|k: int| 0 <= k < self@.players.len() ==> r@.unref().contains(#[trigger] self@.players[k]),
            forall|k: int| 0 <= k < r@.len() ==> self@.players.contains(*(#[trigger] r@[k])),
    {
        let ghost s = self@.players;
        let mut r: Vec<&Player> = Vec::new();
        let mut i: usize = 0;
        while i < self.players.len()
            invariant
                s == self@.players,
                self@.wf(),
                i <= s.len(),
                r@.len() == i,
                r@.unref() == ranked(s.take(i as int)),
                forall|a: int, b: int|
                    0 <= a < b < r@.len() ==> ranks_before(*(#[trigger] r@[a]), *(#[trigger] r@[b])),
                forall|k: int| 0 <= k < i ==> r@.unref().contains(#[trigger] s[k]),
                forall|k: int| 0 <= k < r@.len() ==> s.take(i as int).contains(*(#[trigger] r@[k])),
            decreases self.players.len() - i,
        {
            let p = &self.players[i];
            let mut pos: usize = 0;
            while pos < r.len() && !(p.score > r[pos].score || (p.score == r[pos].score && p.seat
                < r[pos].seat))
                invariant
                    pos <= r@.len(),
                    forall|k: int| 0 <= k < pos ==> !ranks_before(*p, *(#[trigger] r@[k])),
                decreases r.len() - pos,
            {
                pos = pos + 1;
            }
            let ghost before = r@;
            proof {
                lemma_rank_slot(before.unref(), *p);
                let slot = rank_slot(before.unref(), *p);
                if pos < slot {
                    assert(!ranks_before(*p, before.unref()[pos as int]));
                }
                if slot < pos {
                    assert(!ranks_before(*p, *before[slot]));
                }
                assert(pos == slot);
                assert(s.take(i + 1).drop_last() =~= s.take(i as int));
                assert(s.take(i + 1).last() == *p);
                assert forall|k: int| 0 <= k < before.len() implies (#[trigger] before[k]).seat < i by {
                    assert(s.take(i as int).contains(*before[k]));
                    let j = choose|j: int| 0 <= j < i && s.take(i as int)[j] == *before[k];
                    assert(s[j].seat == j);
                }
                assert(p.seat == i);
            }
            r.insert(pos, p);
            proof {
                before.insert_ensures(pos as int, p);
                assert(r@.unref() =~= before.unref().insert(pos as int, *p));
                assert forall|a: int, b: int| 0 <= a < b < r@.len() implies ranks_before(
                    *(#[trigger] r@[a]),
                    *(#[trigger] r@[b]),
                ) by {
                    if a < pos && b < pos {
                        assert(r@[a] == before[a] && r@[b] == before[b]);
                    } else if a < pos && b == pos {
                        assert(r@[a] == before[a]);
                        assert(!ranks_before(*p, *before[a]));
                    } else if a < pos {
                        assert(r@[a] == before[a] && r@[b] == before[b - 1]);
                    } else if a == pos {
                        assert(r@[b] == before[b - 1]);
                        assert(ranks_before(*p, *before[pos as int]));
                        if b - 1 > pos {
                            assert(ranks_before(*before[pos as int], *before[b - 1]));
                        }
                    } else {
                        assert(r@[a] == before[a - 1] && r@[b] == before[b - 1]);
                    }
                }
                assert forall|k: int| 0 <= k < i + 1 implies r@.unref().contains(#[trigger] s[k]) by {
                    if k == i {
                        assert(r@.unref()[pos as int] == s[k]);
                    } else {
                        assert(before.unref().contains(s[k]));
                        let m = choose|m: int| 0 <= m < before.len() && before.unref()[m] == s[k];
                        if m < pos {
                            assert(r@.unref()[m] == s[k]);
                        } else {
                            assert(r@.unref()[m + 1] == s[k]);
                        }
                    }
                }
                assert forall|k: int| 0 <= k < r@.len() implies s.take(i + 1).contains(
                    *(#[trigger] r@[k]),
                ) by {
                    if k == pos {
                        assert(s.take(i + 1)[i as int] == *p);
                    } else {
                        let kk = if k < pos {
                            k
                        } else {
                            k - 1
                        };
                        assert(r@[k] == before[kk]);
                        assert(s.take(i as int).contains(*before[kk]));
                        let j = choose|j: int| 0 <= j < i && s.take(i as int)[j] == *before[kk];
                        assert(s.take(i + 1)[j] == s.take(i as int)[j]);
                    }
                }
            }
            i = i + 1;
        }
        proof {
            assert(s.take(s.len() as int) =~= s);
        }
        r
    }

    /// Whether the game may start right now, and if not, why.
    pub fn start_blocker(&self) -> (r: Option<ActionError>)
        ensures
            r == self@.start_blocker(),
    {
        if self.phase != Phase::Lobby {
            return Some(ActionError::WrongPhase);
        }
        if self.connected_total() < MIN_PLAYERS {
            return Some(ActionError::NotEnoughPlayers);
        }
        if self.deck.len() == 0 {
            return Some(ActionError::NoQuestions);
        }
        None
    }

    /// A phone came back with a token it kept; `false` if the seat is unknown.
    pub fn reconnect(&mut self, token: u64) -> (r: bool)
        requires
            old(self)@.wf(),
        ensures
            final(self)@.wf(),
            r == token_index(old(self)@.players, token) is Some,
            final(self)@ == old(self)@.rejoined(token),
    {
        match self.token_seat(token) {
            None => false,
            Some(i) => {
                if !self.players[i].connected {
                    self.players[i].connected = true;
                    self.bump();
                }
                true
            },
        }
    }

    /// The phone left. The seat and score stay so it can come back.
    pub fn leave(&mut self, token: u64)
        requires
            old(self)@.wf(),
        ensures
            final(self)@.wf(),
            final(self)@ == old(self)@.left(token),
    {
        if let Some(i) = self.token_seat(token) {
            if self.players[i].connected {
                self.players[i].connected = false;
                self.bump();
            }
        }
    }

    /// Replace the settings; takes effect at the next question.
    pub fn set_settings(&mut self, settings: Settings)
        requires
            old(self)@.wf(),
        ensures
            final(self)@.wf(),
            final(self)@ == if old(self)@.settings == settings {
                old(self)@
            } else {
                (GameView { settings, ..old(self)@ }).bumped()
            },
            final(self)@.remaining_ms() == old(self)@.remaining_ms(),
            final(self)@.question_time_ms == old(self)@.question_time_ms,
    {
        if self.settings != settings {
            self.settings = settings;
            self.bump();
        }
    }

    /// Replace the deck. Questions are asked in the order given, so the
    /// caller shuffles and filters out already-played IDs. Questions whose
    /// correct index names no answer are dropped.
    pub fn load_questions(&mut self, questions: Vec<Question>)
        requires
            old(self)@.wf(),
        ensures
            final(self)@.wf(),
            final(self)@ == (GameView {
                deck: questions@.filter(|q: Question| q.correct < ANSWER_COUNT),
                ..old(self)@
            }).bumped(),
    {
        let mut deck: Vec<Question> = Vec::new();
        let ghost all = questions@;
        for q in it: questions.into_iter()
            invariant
                it.seq() == all,
                deck@ == all.take(it.index() as int).filter(|q: Question| q.correct < ANSWER_COUNT),
                forall|j: int| 0 <= j < deck@.len() ==> (#[trigger] deck@[j]).correct < ANSWER_COUNT,
        {
            proof {
                reveal(Seq::filter);
                assert(all.take(it.index() + 1).drop_last() =~= all.take(it.index() as int));
            }
            if q.correct < ANSWER_COUNT {
                deck.push(q);
            }
        }
        proof {
            assert(all.take(all.len() as int) =~= all);
        }
        self.deck = deck;
        self.bump();
    }

    /// Wipe every seat and return to an empty lobby (the Deck's Reset control).
    pub fn reset_all(&mut self)
        requires
            old(self)@.wf(),
        ensures
            final(self)@.wf(),
            final(self)@ == (GameView {
                players: Seq::empty(),
                phase: Phase::Lobby,
                ..old(self)@
            }).bumped(),
    {
        self.players.clear();
        self.phase = Phase::Lobby;
        self.bump();
    }

    fn name_taken(&self, candidate: &str) -> (r: bool)
        ensures
            r == name_taken(self@.players, candidate@),
    {
        let mut i: usize = 0;
        while i < self.players.len()
            invariant
                i <= self.players@.len(),
                forall|j: int|
                    0 <= j < i ==> lower_ascii((#[trigger] self.players@[j]).name@) != lower_ascii(
                        candidate@,
                    ),
            decreases self.players.len() - i,
        {
            if eq_ignore_ascii_case(self.players[i].name.as_str(), candidate) {
                return true;
            }
            i = i + 1;
        }
        false
    }

    /// `base`, or `base` and the smallest number from 2 that no seat's name
    /// matches once ASCII letters are lower-cased.
    fn unique_name(&self, base: String) -> (r: String)
        requires
            self@.players.len() <= usize::MAX - 2,
        ensures
            is_dedup_name(self@.players, base@, r@),
    {
        if !self.name_taken(base.as_str()) {
            return base;
        }
        let ghost s = self@.players;
        let mut n: usize = 2;
        let ghost mut used: Set<int> = Set::empty();
        loop
            invariant
                s == self@.players,
                s.len() <= usize::MAX - 2,
                name_taken(s, base@),
                2 <= n <= s.len() + 2,
                used.finite(),
                used.len() == n - 2,
                forall|i: int| used.contains(i) ==> 0 <= i < s.len(),
                forall|i: int|
                    used.contains(i) ==> exists|m: nat|
                        2 <= m < n && lower_ascii((#[trigger] s[i]).name@) == lower_ascii(
                            numbered(base@, m),
                        ),
                forall|m: nat| 2 <= m < n ==> name_taken(s, #[trigger] numbered(base@, m)),
            decreases s.len() + 2 - n,
        {
            let mut candidate = base.clone();
            push_char(&mut candidate, ' ');
            push_usize(&mut candidate, n);
            assert(candidate@ == numbered(base@, n as nat));
            if !self.name_taken(candidate.as_str()) {
                return candidate;
            }
            proof {
                let i = choose|i: int|
                    0 <= i < s.len() && lower_ascii((#[trigger] s[i]).name@) == lower_ascii(
                        candidate@,
                    );
                if used.contains(i) {
                    let m = choose|m: nat|
                        2 <= m < n && lower_ascii((#[trigger] s[i]).name@) == lower_ascii(
                            numbered(base@, m),
                        );
                    lemma_numbered_injective(base@, m, n as nat);
                }
                let old_used = used;
                used = used.insert(i);
                assert forall|j: int| used.contains(j) implies exists|m: nat|
                    2 <= m < n + 1 && lower_ascii((#[trigger] s[j]).name@) == lower_ascii(
                        numbered(base@, m),
                    ) by {
                    if j == i {
                        assert(lower_ascii(s[j].name@) == lower_ascii(numbered(base@, n as nat)));
                    } else {
                        assert(old_used.contains(j));
                    }
                }
                lemma_int_range(0, s.len() as int);
                assert(used.subset_of(set_int_range(0, s.len() as int)));
                lemma_len_subset(used, set_int_range(0, s.len() as int));
            }
            n = n + 1;
        }
    }

    /// Seat a new player. Returns the seat index on success.
    pub fn join(&mut self, requested: &str, color: PlayerColor, token: u64) -> (r: Result<
        usize,
        JoinError,
    >)
        requires
            old(self)@.wf(),
            old(self)@.players.len() <= usize::MAX - 3,
        ensures
            final(self)@.wf(),
            match join_refusal(old(self)@, requested@, color) {
                Some(e) => r == Err::<usize, JoinError>(e) && final(self)@ == old(self)@,
                None => r == Ok::<usize, JoinError>(old(self)@.players.len() as usize) && is_joined(
                    old(self)@,
                    final(self)@,
                    requested@,
                    color,
                    token,
                ) && is_dedup_name(
                    old(self)@.players,
                    cleaned_name(requested@),
                    final(self)@.players.last().name@,
                ),
            },
    {
        let cleaned = clean_name(requested);
        if cleaned.as_str().is_empty() {
            return Err(JoinError::EmptyName);
        }
        if self.connected_total() >= MAX_PLAYERS {
            return Err(JoinError::Full);
        }
        let color_in_use = self.uses_color(color);
        if color_in_use && self.free_colors().len() > 0 {
            return Err(JoinError::ColorTaken);
        }
        let name = self.unique_name(cleaned);
        proof {
            lemma_dedup_name(self@.players, cleaned_name(requested@), name@);
        }
        let seat = self.players.len();
        let ghost before = self@;
        self.players.push(
            Player {
                seat,
                token,
                name,
                color,
                score: 0,
                streak: 0,
                answer: None,
                last_gain: 0,
                connected: true,
            },
        );
        proof {
            let s = self.players@;
            assert(s.drop_last() =~= before.players);
            assert forall|i: int| 0 <= i < before.players.len() implies lower_ascii(
                (#[trigger] s[i]).name@,
            ) != lower_ascii(s.last().name@) by {
                assert(s[i] == before.players[i]);
                if !name_taken(before.players, cleaned_name(requested@)) {
                } else {
                }
            }
        }
        self.bump();
        Ok(seat)
    }

    fn require_host(&self, token: u64) -> (r: Result<(), ActionError>)
        ensures
            r == self@.host_check(token),
    {
        let seat = match self.token_seat(token) {
            Some(i) => i,
            None => return Err(ActionError::UnknownToken),
        };
        match self.host_seat() {
            Some(h) => if h == seat {
                Ok(())
            } else {
                Err(ActionError::NotHost)
            },
            None => Err(ActionError::NotHost),
        }
    }

    /// Host starts the game from the lobby: scores cleared, the first
    /// question open.
    pub fn start(&mut self, token: u64) -> (r: Result<(), ActionError>)
        requires
            old(self)@.wf(),
        ensures
            final(self)@.wf(),
            r == old(self)@.start_outcome(token),
            r is Err ==> final(self)@ == old(self)@,
            r is Ok ==> final(self)@ == old(self)@.started(),
    {
        self.require_host(token)?;
        if let Some(blocker) = self.start_blocker() {
            return Err(blocker);
        }
        let ghost before = self@;
        let mut i: usize = 0;
        while i < self.players.len()
            invariant
                i <= self.players@.len(),
                self.players@.len() == before.players.len(),
                self.phase == before.phase,
                self.deck@ == before.deck,
                self.settings == before.settings,
                self.version == before.version,
                self.question_time_ms == before.question_time_ms,
                before.wf(),
                forall|j: int| 0 <= j < i ==> self.players@[j] == zeroed(before.players[j]),
                forall|j: int| i <= j < self.players@.len() ==> self.players@[j] == before.players[j],
            decreases self.players.len() - i,
        {
            self.players[i].score = 0;
            self.players[i].streak = 0;
            self.players[i].last_gain = 0;
            self.players[i].answer = None;
            i = i + 1;
        }
        assert(self.players@ =~= before.players.map_values(|p: Player| zeroed(p)));
        self.enter_question(0);
        Ok(())
    }

    /// A player locks in `choice` for the question on screen.
    pub fn answer(&mut self, token: u64, choice: usize) -> (r: Result<(), ActionError>)
        requires
            old(self)@.wf(),
        ensures
            final(self)@.wf(),
            r == old(self)@.answer_outcome(token, choice),
            r is Err ==> final(self)@ == old(self)@,
            r is Ok ==> final(self)@ == old(self)@.answered(token, choice),
    {
        let (index, elapsed_ms, all_answered_at) = match self.phase {
            Phase::Question { index, elapsed_ms, all_answered_at } => (
                index,
                elapsed_ms,
                all_answered_at,
            ),
            _ => return Err(ActionError::WrongPhase),
        };
        if choice >= ANSWER_COUNT {
            return Err(ActionError::BadChoice);
        }
        let i = match self.token_seat(token) {
            Some(i) => i,
            None => return Err(ActionError::UnknownToken),
        };
        if self.players[i].answer.is_some() {
            return Err(ActionError::AlreadyAnswered);
        }
        self.players[i].answer = Some(Answer { choice, elapsed_ms });
        let mut everyone = true;
        let mut j: usize = 0;
        while j < self.players.len()
            invariant
                j <= self.players@.len(),
                everyone == forall|k: int|
                    0 <= k < j ==> (#[trigger] self.players@[k]).connected
                        ==> self.players@[k].answer is Some,
            decreases self.players.len() - j,
        {
            if self.players[j].connected && self.players[j].answer.is_none() {
                everyone = false;
            }
            j = j + 1;
        }
        if everyone && all_answered_at.is_none() {
            self.phase = Phase::Question {
                index,
                elapsed_ms,
                all_answered_at: Some(elapsed_ms),
            };
        }
        self.bump();
        Ok(())
    }

    /// Host jumps to the next step: closes the countdown, or shortens a
    /// reveal or standings screen.
    pub fn skip(&mut self, token: u64) -> (r: Result<(), ActionError>)
        requires
            old(self)@.wf(),
            old(self)@.phase is Question ==> old(self)@.room(),
        ensures
            final(self)@.wf(),
            r == old(self)@.skip_outcome(token),
            r is Err ==> final(self)@ == old(self)@,
            r is Ok ==> final(self)@ == old(self)@.skipped(),
    {
        self.require_host(token)?;
        match self.phase {
            Phase::Question { index, .. } => self.finish_question(index),
            Phase::Reveal { index, .. } => self.enter_standings(index),
            Phase::Standings { index, .. } => self.after_standings(index),
            _ => return Err(ActionError::WrongPhase),
        }
        Ok(())
    }

    /// Host ends the game early: straight to the podium.
    pub fn end(&mut self, token: u64) -> (r: Result<(), ActionError>)
        requires
            old(self)@.wf(),
        ensures
            final(self)@.wf(),
            r == old(self)@.end_outcome(token),
            r is Err ==> final(self)@ == old(self)@,
            r is Ok ==> final(self)@ == old(self)@.ended(),
    {
        self.require_host(token)?;
        match self.phase {
            Phase::Question { .. } | Phase::Reveal { .. } | Phase::Standings { .. } => {
                self.phase = Phase::Podium { elapsed_ms: 0 };
                self.bump();
                Ok(())
            },
            _ => Err(ActionError::WrongPhase),
        }
    }

    /// Host returns to the lobby, keeping the connected seats.
    pub fn new_game(&mut self, token: u64) -> (r: Result<(), ActionError>)
        requires
            old(self)@.wf(),
        ensures
            final(self)@.wf(),
            r == old(self)@.new_game_outcome(token),
            r is Err ==> final(self)@ == old(self)@,
            r is Ok ==> final(self)@ == old(self)@.lobby_again(),
    {
        self.require_host(token)?;
        if self.phase == Phase::Lobby {
            return Err(ActionError::WrongPhase);
        }
        self.reset_to_lobby();
        Ok(())
    }

    /// Advance the phase timers by `delta_ms` of wall clock.
    pub fn tick(&mut self, delta_ms: u32)
        requires
            old(self)@.wf(),
            old(self)@.phase is Question ==> old(self)@.room(),
        ensures
            final(self)@.wf(),
            final(self)@ == old(self)@.ticked(delta_ms),
    {
        match self.phase {
            Phase::Lobby => {},
            Phase::Question { index, elapsed_ms, all_answered_at } => {
                let elapsed_ms = elapsed_ms.saturating_add(delta_ms);
                let timed_out = elapsed_ms >= self.question_time_ms;
                let grace_over = match all_answered_at {
                    Some(at) => elapsed_ms >= at + GRACE_MS,
                    None => false,
                };
                if timed_out || grace_over {
                    self.finish_question(index);
                } else {
                    self.phase = Phase::Question { index, elapsed_ms, all_answered_at };
                }
            },
            Phase::Reveal { index, elapsed_ms } => {
                let elapsed_ms = elapsed_ms.saturating_add(delta_ms);
                if elapsed_ms >= REVEAL_MS {
                    self.enter_standings(index);
                } else {
                    self.phase = Phase::Reveal { index, elapsed_ms };
                }
            },
            Phase::Standings { index, elapsed_ms } => {
                let elapsed_ms = elapsed_ms.saturating_add(delta_ms);
                if elapsed_ms >= STANDINGS_MS {
                    self.after_standings(index);
                } else {
                    self.phase = Phase::Standings { index, elapsed_ms };
                }
            },
            Phase::Podium { elapsed_ms } => {
                let elapsed_ms = elapsed_ms.saturating_add(delta_ms);
                if elapsed_ms >= PODIUM_MS {
                    self.reset_to_lobby();
                } else {
                    self.phase = Phase::Podium { elapsed_ms };
                }
            },
        }
    }

    fn enter_question(&mut self, index: usize)
        requires
            old(self)@.wf(),
        ensures
            final(self)@.wf(),
            final(self)@ == old(self)@.question_opened(index),
    {
        let ghost before = self@;
        let mut i: usize = 0;
        while i < self.players.len()
            invariant
                i <= self.players@.len(),
                self.players@.len() == before.players.len(),
                self.phase == before.phase,
                self.deck@ == before.deck,
                self.settings == before.settings,
                self.version == before.version,
                self.question_time_ms == before.question_time_ms,
                forall|j: int| 0 <= j < i ==> self.players@[j] == unanswered(before.players[j]),
                forall|j: int| i <= j < self.players@.len() ==> self.players@[j] == before.players[j],
            decreases self.players.len() - i,
        {
            self.players[i].answer = None;
            self.players[i].last_gain = 0;
            i = i + 1;
        }
        assert(self.players@ =~= before.players.map_values(|p: Player| unanswered(p)));
        self.phase = Phase::Question { index, elapsed_ms: 0, all_answered_at: None };
        self.question_time_ms = self.settings.answer_time_ms;
        self.bump();
    }

    fn finish_question(&mut self, index: usize)
        requires
            old(self)@.wf(),
            old(self)@.room(),
            old(self)@.phase matches Phase::Question { index: k, .. } && k == index,
        ensures
            final(self)@.wf(),
            final(self)@ == old(self)@.finished(index),
    {
        let ghost before = self@;
        let correct: Option<usize> = if index < self.deck.len() {
            Some(self.deck[index].correct)
        } else {
            None
        };
        let answer_time_ms = self.question_time_ms;
        let mut i: usize = 0;
        while i < self.players.len()
            invariant
                i <= self.players@.len(),
                self.players@.len() == before.players.len(),
                self.phase == before.phase,
                self.deck@ == before.deck,
                self.settings == before.settings,
                self.version == before.version,
                self.question_time_ms == before.question_time_ms,
                answer_time_ms == before.question_time_ms,
                before.room(),
                before.phase matches Phase::Question { index: k, .. } && k == index,
                correct == (if index < before.deck.len() {
                    Some(before.deck[index as int].correct)
                } else {
                    None
                }),
                forall|j: int|
                    0 <= j < i ==> self.players@[j] == scored(
                        before.players[j],
                        correct,
                        answer_time_ms,
                    ),
                forall|j: int| i <= j < self.players@.len() ==> self.players@[j] == before.players[j],
            decreases self.players.len() - i,
        {
            let hit = match self.players[i].answer {
                Some(a) => if correct == Some(a.choice) {
                    Some(a)
                } else {
                    None
                },
                None => None,
            };
            match hit {
                Some(a) => {
                    proof {
                        lemma_points_decay(a.elapsed_ms, a.elapsed_ms, answer_time_ms);
                    }
                    let streak = self.players[i].streak + 1;
                    let bonus = if streak > STREAK_THRESHOLD {
                        STREAK_BONUS
                    } else {
                        0
                    };
                    let gain = points_for(a.elapsed_ms, answer_time_ms) + bonus;
                    let score = self.players[i].score + gain;
                    self.players[i].streak = streak;
                    self.players[i].last_gain = gain;
                    self.players[i].score = score;
                },
                None => {
                    self.players[i].streak = 0;
                    self.players[i].last_gain = 0;
                },
            }
            i = i + 1;
        }
        assert(self.players@ =~= before.players.map_values(
            |p: Player| scored(p, correct, answer_time_ms),
        ));
        self.phase = Phase::Reveal { index, elapsed_ms: 0 };
        self.bump();
    }

    fn enter_standings(&mut self, index: usize)
        requires
            old(self)@.wf(),
        ensures
            final(self)@.wf(),
            final(self)@ == old(self)@.standings_shown(index),
    {
        self.phase = Phase::Standings { index, elapsed_ms: 0 };
        self.bump();
    }

    fn after_standings(&mut self, index: usize)
        requires
            old(self)@.wf(),
        ensures
            final(self)@.wf(),
            final(self)@ == old(self)@.after_standings(index),
    {
        let total = self.question_total();
        if total > 0 && index < total - 1 {
            self.enter_question(index + 1);
        } else {
            self.phase = Phase::Podium { elapsed_ms: 0 };
            self.bump();
        }
    }

    fn reset_to_lobby(&mut self)
        requires
            old(self)@.wf(),
        ensures
            final(self)@.wf(),
            final(self)@ == old(self)@.lobby_again(),
    {
        let ghost before = self@;
        let mut players: Vec<Player> = Vec::new();
        std::mem::swap(&mut players, &mut self.players);
        let mut kept: Vec<Player> = Vec::new();
        for p in it: players.into_iter()
            invariant
                it.seq() == before.players,
                kept@ == lobby_seats(before.players.take(it.index() as int)),
        {
            proof {
                assert(before.players.take(it.index() + 1).drop_last() =~= before.players.take(
                    it.index() as int,
                ));
            }
            if p.connected {
                let mut q = p;
                q.seat = kept.len();
                q.score = 0;
                q.streak = 0;
                q.last_gain = 0;
                q.answer = None;
                kept.push(q);
            }
            proof {
                assert(kept@ =~= lobby_seats(before.players.take(it.index() + 1)));
            }
        }
        proof {
            assert(before.players.take(before.players.len() as int) =~= before.players);
            assert(distinct_names(before.players));
            lemma_connected_distinct(before.players);
            let c = connected_players(before.players);
            assert forall|i: int, j: int|
                0 <= i < kept@.len() && 0 <= j < kept@.len() && i != j implies lower_ascii(
                (#[trigger] kept@[i]).name@,
            ) != lower_ascii((#[trigger] kept@[j]).name@) by {
                assert(kept@[i].name == c[i].name && kept@[j].name == c[j].name);
            }
        }
        let n = kept.len();
        assert(forall|i: int| 0 <= i < n ==> (#[trigger] kept@[i]).seat == i);
        self.players = kept;
        self.phase = Phase::Lobby;
        self.bump();
    }

    fn bump(&mut self)
        ensures
            final(self)@ == old(self)@.bumped(),
    {
        self.version = self.version.wrapping_add(1);
    }
}

// ── Laws ─────────────────────────────────────────────────────────────

/// When the host's phone leaves, the next connected player in join order
/// becomes host; with nobody else connected there is no host.
pub proof fn lemma_host_succession(v: GameView, token: u64)
    requires
        host_index(v.players) is Some,
        token_index(v.players, token) == host_index(v.players),
    ensures
        ({
            let h = host_index(v.players)->0;
            let after = v.left(token).players;
            match host_index(after) {
                Some(k) => h < k < v.players.len() && v.players[k].connected && forall|j: int|
                    h < j < k ==> !(#[trigger] v.players[j]).connected,
                None => forall|j: int| h < j < v.players.len() ==> !(#[trigger] v.players[j]).connected,
            }
        }),
{
    let h = host_index(v.players)->0;
    lemma_host_index(v.players);
    let after = v.left(token).players;
    lemma_host_index(after);
    assert(after == v.players.update(h, Player { connected: false, ..v.players[h] }));
    match host_index(after) {
        Some(k) => {
            assert(after[k] == v.players[k]);
            assert forall|j: int| h < j < k implies !(#[trigger] v.players[j]).connected by {
                assert(after[j] == v.players[j]);
            }
        },
        None => {
            assert forall|j: int| h < j < v.players.len() implies !(
            #[trigger] v.players[j]).connected by {
                assert(after[j] == v.players[j]);
            }
        },
    }
}

/// A phone that comes back to a seat earlier than every connected seat is
/// the host again.
pub proof fn lemma_return_restores_host(v: GameView, token: u64)
    requires
        token_index(v.players, token) matches Some(i) && forall|j: int|
            0 <= j < i ==> !(#[trigger] v.players[j]).connected,
    ensures
        host_index(v.rejoined(token).players) == token_index(v.players, token),
{
    let i = token_index(v.players, token)->0;
    lemma_token_index(v.players, token);
    let after = v.rejoined(token).players;
    lemma_host_index(after);
    assert(after[i].connected);
    assert forall|j: int| 0 <= j < i implies !(#[trigger] after[j]).connected by {
        assert(after[j] == v.players[j]);
    }
}

/// A seat is only ever given while fewer than `MAX_PLAYERS` phones are
/// connected, and while a colour is free the newcomer's colour is one no
/// connected player uses.
pub proof fn lemma_join_capacity_and_colors(v: GameView, requested: Seq<char>, color: PlayerColor)
    requires
        join_refusal(v, requested, color) is None,
    ensures
        connected_count(v.players) < MAX_PLAYERS,
        free_colors_of(v.players).len() > 0 ==> !color_in_use(v.players, color),
{
}

/// An answer only ever changes the seat of the phone that sent it.
pub proof fn lemma_answer_own_seat(v: GameView, token: u64, choice: usize)
    requires
        v.answer_outcome(token, choice) is Ok,
    ensures
        forall|j: int|
            0 <= j < v.players.len() && Some(j) != token_index(v.players, token) ==> (
            #[trigger] v.answered(token, choice).players[j]) == v.players[j],
        v.answered(token, choice).players.len() == v.players.len(),
{
    lemma_token_index(v.players, token);
}

/// Scoring: a correct answer earns its speed points, plus `STREAK_BONUS`
/// once the streak goes past `STREAK_THRESHOLD`; a wrong or missing answer
/// earns nothing and resets the streak.
pub proof fn lemma_streak_bonus(p: Player, correct: Option<usize>, answer_time_ms: u32)
    requires
        p.score <= u32::MAX - (MAX_POINTS + STREAK_BONUS),
        p.streak < u32::MAX,
    ensures
        ({
            let q = scored(p, correct, answer_time_ms);
            match p.answer {
                Some(a) => if correct == Some(a.choice) {
                    &&& q.streak == p.streak + 1
                    &&& q.last_gain == points(a.elapsed_ms, answer_time_ms) + if p.streak
                        >= STREAK_THRESHOLD {
                        STREAK_BONUS
                    } else {
                        0
                    }
                    &&& q.score == p.score + q.last_gain
                } else {
                    q.streak == 0 && q.last_gain == 0 && q.score == p.score
                },
                None => q.streak == 0 && q.last_gain == 0 && q.score == p.score,
            }
        }),
{
    if let Some(a) = p.answer {
        lemma_points_decay(a.elapsed_ms, a.elapsed_ms, answer_time_ms);
    }
}

/// Leaving and coming back change the version exactly when they change the
/// game.
pub proof fn lemma_versions_follow_changes(v: GameView, token: u64)
    ensures
        (v.left(token).version == v.version) == (v.left(token) == v),
        (v.rejoined(token).version == v.version) == (v.rejoined(token) == v),
{
}

proof fn lemma_token_index_same_tokens(s: Seq<Player>, t: Seq<Player>, token: u64)
    requires
        s.len() == t.len(),
        forall|j: int| 0 <= j < s.len() ==> (#[trigger] s[j]).token == t[j].token,
    ensures
        token_index(s, token) == token_index(t, token),
    decreases s.len(),
{
    if s.len() > 0 {
        lemma_token_index_same_tokens(s.drop_last(), t.drop_last(), token);
        assert(s.last().token == t.last().token);
    }
}

/// A phone that leaves and comes back with the token it kept is back at its
/// seat as it was: same name, colour, score, streak and answer.
pub proof fn lemma_leave_then_return(v: GameView, token: u64)
    requires
        token_index(v.players, token) matches Some(i) && v.players[i].connected,
    ensures
        v.left(token).rejoined(token).players == v.players,
{
    let i = token_index(v.players, token)->0;
    lemma_token_index(v.players, token);
    let gone = v.left(token);
    assert(gone.players == v.players.update(i, Player { connected: false, ..v.players[i] }));
    lemma_token_index_same_tokens(v.players, gone.players, token);
    assert(gone.players.update(i, Player { connected: true, ..gone.players[i] }) =~= v.players);
}

/// A join that goes through seats one more connected player, and the table
/// still holds at most `MAX_PLAYERS` of them.
pub proof fn lemma_join_seats_one_more(
    v: GameView,
    after: GameView,
    requested: Seq<char>,
    color: PlayerColor,
    token: u64,
)
    requires
        join_refusal(v, requested, color) is None,
        is_joined(v, after, requested, color, token),
    ensures
        connected_count(after.players) == connected_count(v.players) + 1,
        connected_count(after.players) <= MAX_PLAYERS,
{
    assert(after.players.drop_last() == v.players);
}

/// Closing the question open at `index` scores every seat, connected or not: a
/// locked right answer extends the streak and earns the speed points at the
/// question's answer time, plus the bonus once the streak passes three; any
/// other seat earns nothing and loses its streak. Answers stay, the reveal
/// comes on, and the version moves on.
pub proof fn lemma_closing_scores(v: GameView, index: usize)
    requires
        v.room(),
        v.phase matches Phase::Question { index: k, .. } && k == index,
    ensures
        v.finished(index).phase == (Phase::Reveal { index, elapsed_ms: 0 }),
        v.finished(index).version == next_version(v.version),
        v.finished(index).players.len() == v.players.len(),
        forall|j: int|
            0 <= j < v.players.len() ==> {
                let p = v.players[j];
                let q = #[trigger] v.finished(index).players[j];
                &&& q.answer == p.answer
                &&& q.seat == p.seat && q.token == p.token && q.name == p.name
                &&& match p.answer {
                    Some(a) => if index < v.deck.len() && v.deck[index as int].correct == a.choice {
                        &&& q.streak == p.streak + 1
                        &&& q.last_gain == points(a.elapsed_ms, v.question_time_ms) + if p.streak
                            + 1 > STREAK_THRESHOLD {
                            STREAK_BONUS
                        } else {
                            0
                        }
                        &&& q.score == p.score + q.last_gain
                    } else {
                        q.streak == 0 && q.last_gain == 0 && q.score == p.score
                    },
                    None => q.streak == 0 && q.last_gain == 0 && q.score == p.score,
                }
            },
{
    let correct = if index < v.deck.len() {
        Some(v.deck[index as int].correct)
    } else {
        None
    };
    assert forall|j: int| 0 <= j < v.players.len() implies {
        let p = v.players[j];
        let q = #[trigger] v.finished(index).players[j];
        &&& q.answer == p.answer
        &&& q.seat == p.seat && q.token == p.token && q.name == p.name
        &&& match p.answer {
            Some(a) => if index < v.deck.len() && v.deck[index as int].correct == a.choice {
                &&& q.streak == p.streak + 1
                &&& q.last_gain == points(a.elapsed_ms, v.question_time_ms) + if p.streak + 1
                    > STREAK_THRESHOLD {
                    STREAK_BONUS
                } else {
                    0
                }
                &&& q.score == p.score + q.last_gain
            } else {
                q.streak == 0 && q.last_gain == 0 && q.score == p.score
            },
            None => q.streak == 0 && q.last_gain == 0 && q.score == p.score,
        }
    } by {
        if v.scores_now(v.players[j]) {
            lemma_streak_bonus(v.players[j], correct, v.question_time_ms);
        }
        assert(v.finished(index).players[j] == scored(v.players[j], correct, v.question_time_ms));
    }
}

/// A tick either only moves the clock of the phase on screen, leaving
/// players, deck, settings and version alone (the lobby has no clock and
/// stays as it is), or moves to the next phase and bumps the version once.
pub proof fn lemma_tick_moves_clock_or_phase(v: GameView, delta_ms: u32)
    ensures
        v.phase == Phase::Lobby ==> v.ticked(delta_ms) == v,
        v.ticked(delta_ms).version == v.version ==> v.ticked(delta_ms) == (GameView {
            phase: v.ticked(delta_ms).phase,
            ..v
        }),
        v.ticked(delta_ms).version != v.version ==> v.ticked(delta_ms).version == next_version(
            v.version,
        ),
{
    assert(next_version(v.version) != v.version);
}

/// Questions are asked in deck order: starting opens the first question of
/// the deck, and the standings after question `i` open question `i + 1`
/// while the game has one, else the podium.
pub proof fn lemma_questions_in_deck_order(v: GameView, i: usize)
    ensures
        v.started().phase == (Phase::Question { index: 0, elapsed_ms: 0, all_answered_at: None }),
        v.started().current_question() == if 0 < v.deck.len() {
            Some(v.deck[0])
        } else {
            None::<Question>
        },
        i + 1 < v.question_total() ==> v.after_standings(i).phase == (Phase::Question {
            index: (i + 1) as usize,
            elapsed_ms: 0,
            all_answered_at: None,
        }) && v.after_standings(i).current_question() == Some(v.deck[i + 1]),
        i + 1 >= v.question_total() ==> v.after_standings(i).phase == (Phase::Podium {
            elapsed_ms: 0,
        }),
{
}

/// After an answer is locked, the grace period starts exactly when every
/// connected seat then holds an answer: a seat whose phone left never holds
/// the countdown open. A grace period already running, the question and its
/// clock are kept, and the sender's seat holds the choice and the moment it
/// came.
pub proof fn lemma_answer_grace_waits_for_connected(v: GameView, token: u64, choice: usize)
    requires
        v.answer_outcome(token, choice) is Ok,
    ensures
        ({
            let n = v.answered(token, choice);
            match v.phase {
                Phase::Question { index, elapsed_ms, all_answered_at } => {
                    &&& n.players.len() == v.players.len()
                    &&& exists|i: int|
                        0 <= i < v.players.len() && v.players[i].token == token && #[trigger] n.players[i]
                            == (Player { answer: Some(Answer { choice, elapsed_ms }), ..v.players[i] })
                    &&& n.phase matches Phase::Question { index: ni, elapsed_ms: ne, all_answered_at: na }
                        && ni == index && ne == elapsed_ms && (all_answered_at is Some ==> na
                        == all_answered_at) && (all_answered_at is None ==> na == if forall|j: int|
                        0 <= j < n.players.len() && (#[trigger] n.players[j]).connected
                            ==> n.players[j].answer is Some {
                        Some(elapsed_ms)
                    } else {
                        None
                    })
                },
                _ => false,
            }
        }),
{
    lemma_token_index(v.players, token);
    let i = token_index(v.players, token)->0;
    let n = v.answered(token, choice);
    if let Phase::Question { index, elapsed_ms, all_answered_at } = v.phase {
        let players = v.players.update(
            i,
            Player { answer: Some(Answer { choice, elapsed_ms }), ..v.players[i] },
        );
        assert(n.players == players);
        assert(n.players[i] == (Player { answer: Some(Answer { choice, elapsed_ms }), ..v.players[i] }));
        let everyone = forall|j: int|
            0 <= j < players.len() ==> (#[trigger] players[j]).connected ==> players[j].answer is Some;
        let mine = forall|j: int|
            0 <= j < n.players.len() && (#[trigger] n.players[j]).connected ==> n.players[j].answer is Some;
        assert(everyone == mine);
    }
}

/// A game asks as many questions as the setting asks for, or fewer when the
/// deck holds fewer: the count is at most each of the two and equals one of
/// them, and the standings after question `i` open question `i + 1` exactly
/// when both the setting and the deck reach that far, else the podium.
pub proof fn lemma_game_length_follows_setting(v: GameView, i: usize)
    ensures
        v.question_total() <= v.settings.question_count,
        v.question_total() <= v.deck.len(),
        v.question_total() == v.settings.question_count || v.question_total() == v.deck.len(),
        i + 1 < v.settings.question_count && i + 1 < v.deck.len() ==> v.after_standings(i).phase
            == (Phase::Question { index: (i + 1) as usize, elapsed_ms: 0, all_answered_at: None }),
        i + 1 >= v.settings.question_count || i + 1 >= v.deck.len() ==> v.after_standings(i).phase
            == (Phase::Podium { elapsed_ms: 0 }),
{
}

} // verus!
