//! What the Deck's frame loop decides between frames: the game settings the
//! params ask for, the deck a game draws, the played and best-ever records it
//! keeps, and the lines and tallies its screens show.
use vstd::prelude::*;
use vstd::seq_lib::{to_multiset_build, to_multiset_insert};
use vstd::string::*;

use crate::effects::{Kind, ceil_seconds, seconds_left};
use crate::manifest_params::{CategoryPack, Difficulty, Params, pack_label, pack_value};
use crate::model::{
    ANSWER_COUNT, Game, GameView, PODIUM_MS, Phase, Player, Question, QuestionDifficulty,
    STANDINGS_MS, Settings, decimal, digit_char, lemma_decimal_len, lemma_decimal_lower,
    push_usize, ranked,
};
use crate::pack::{
    Rng, fisher_yates, lemma_shuffle_permutes, opt_view, pack_of, seed_state, select, selected,
    shuffle, was_played,
};
use crate::server::{choice_count, count_choice};
use crate::text::{
    all_digits, chars_vec, joined, lemma_joined_push, digit_value, digits_value, first_index, lemma_first_index,
    parse_decimal, parse_u64, push_char, split_all, split_on, split_once_char, str_eq, strip_cr,
    strip_suffix_char, text_lines, unsigned_part,
};

verus! {

// ── Settings and deck ────────────────────────────────────────────────

/// `secs` seconds in milliseconds, saturating.
pub open spec fn seconds_ms(secs: u32) -> u32 {
    if secs * 1000 > u32::MAX {
        u32::MAX
    } else {
        (secs * 1000) as u32
    }
}

/// The game settings the params ask for: a negative question count means
/// the default ten, a negative answer time the default twenty seconds.
pub open spec fn settings_for(p: Params) -> Settings {
    Settings {
        question_count: if p.question_count >= 0 {
            p.question_count as usize
        } else {
            10
        },
        answer_time_ms: seconds_ms(
            if p.answer_time >= 0 {
                p.answer_time as u32
            } else {
                20
            },
        ),
    }
}

/// The game settings the params ask for.
pub fn settings_from(params: &Params) -> (s: Settings)
    ensures
        s == settings_for(*params),
{
    let question_count: usize = if params.question_count >= 0 {
        params.question_count as usize
    } else {
        10
    };
    let secs: u32 = if params.answer_time >= 0 {
        params.answer_time as u32
    } else {
        20
    };
    let answer_time_ms: u32 = if secs > u32::MAX / 1000 {
        u32::MAX
    } else {
        secs * 1000
    };
    Settings { question_count, answer_time_ms }
}

/// The pack a category param keeps; `Mixed` keeps every pack.
pub open spec fn pack_filter(p: CategoryPack) -> Option<Seq<char>> {
    match p {
        CategoryPack::Mixed => None,
        other => Some(pack_value(other)),
    }
}

/// The difficulty a difficulty param keeps; `Mixed` keeps every one.
pub open spec fn difficulty_filter(d: Difficulty) -> Option<QuestionDifficulty> {
    match d {
        Difficulty::Mixed => None,
        Difficulty::Easy => Some(QuestionDifficulty::Easy),
        Difficulty::Medium => Some(QuestionDifficulty::Medium),
        Difficulty::Hard => Some(QuestionDifficulty::Hard),
    }
}

/// The pack and difficulty the params keep.
pub fn deck_filters(params: &Params) -> (r: (Option<&'static str>, Option<QuestionDifficulty>))
    ensures
        opt_view(r.0) == pack_filter(params.category_pack),
        r.1 == difficulty_filter(params.difficulty),
{
    let pack: Option<&'static str> = match params.category_pack {
        CategoryPack::Mixed => None,
        other => Some(other.as_manifest_value()),
    };
    let difficulty = match params.difficulty {
        Difficulty::Mixed => None,
        Difficulty::Easy => Some(QuestionDifficulty::Easy),
        Difficulty::Medium => Some(QuestionDifficulty::Medium),
        Difficulty::Hard => Some(QuestionDifficulty::Hard),
    };
    (pack, difficulty)
}

/// The questions of `all` in the pack and of the difficulty asked for, not
/// among `played`, in pack order.
pub open spec fn pool(
    all: Seq<Question>,
    pack: Option<Seq<char>>,
    difficulty: Option<QuestionDifficulty>,
    played: Seq<String>,
) -> Seq<Question> {
    all.filter(|q: Question| selected(q, pack, difficulty, played))
}

fn count_selected(
    questions: &[Question],
    pack: Option<&str>,
    difficulty: Option<QuestionDifficulty>,
    played: &[String],
) -> (n: usize)
    ensures
        n == pool(questions@, opt_view(pack), difficulty, played@).len(),
{
    let ghost all = questions@;
    let mut n: usize = 0;
    let mut i: usize = 0;
    while i < questions.len()
        invariant
            i <= all.len(),
            all == questions@,
            n == pool(all.take(i as int), opt_view(pack), difficulty, played@).len(),
            n <= i,
        decreases questions.len() - i,
    {
        proof {
            reveal(Seq::filter);
            assert(all.take(i + 1).drop_last() =~= all.take(i as int));
        }
        let q = &questions[i];
        let in_pack = match pack {
            Some(p) => str_eq(pack_of(q), p),
            None => true,
        };
        let in_difficulty = match difficulty {
            Some(d) => q.difficulty == d,
            None => true,
        };
        if in_pack && in_difficulty && !was_played(played, &q.id) {
            n = n + 1;
        }
        i = i + 1;
    }
    assert(all.take(all.len() as int) =~= all);
    n
}

/// Whether drawing a game of `wanted` questions starts the played record
/// over: fewer than that are left unplayed.
pub open spec fn draw_restarts(
    all: Seq<Question>,
    pack: Option<Seq<char>>,
    difficulty: Option<QuestionDifficulty>,
    played: Seq<String>,
    wanted: usize,
) -> bool {
    pool(all, pack, difficulty, played).len() < wanted
}

/// The deck drawn for a game of `wanted` questions: the unplayed questions
/// the params allow, or all the params allow when too few are unplayed,
/// shuffled by a generator seeded with `seed`.
pub open spec fn drawn(
    all: Seq<Question>,
    pack: Option<Seq<char>>,
    difficulty: Option<QuestionDifficulty>,
    played: Seq<String>,
    wanted: usize,
    seed: u64,
) -> Seq<Question> {
    let source = if draw_restarts(all, pack, difficulty, played, wanted) {
        pool(all, pack, difficulty, Seq::empty())
    } else {
        pool(all, pack, difficulty, played)
    };
    fisher_yates(source, seed_state(seed), source.len()).0
}

/// Draw the deck for a game of `wanted` questions; the flag says whether the
/// played record had to start over.
pub fn draw_deck(
    all: Vec<Question>,
    pack: Option<&str>,
    difficulty: Option<QuestionDifficulty>,
    played: &[String],
    wanted: usize,
    seed: u64,
) -> (r: (Vec<Question>, bool))
    ensures
        r.1 == draw_restarts(all@, opt_view(pack), difficulty, played@, wanted),
        r.0@ == drawn(all@, opt_view(pack), difficulty, played@, wanted, seed),
{
    let fresh = count_selected(all.as_slice(), pack, difficulty, played);
    let restart = fresh < wanted;
    let nothing: Vec<String> = Vec::new();
    let mut questions = if restart {
        select(all, pack, difficulty, nothing.as_slice())
    } else {
        select(all, pack, difficulty, played)
    };
    let mut rng = Rng::new(seed);
    shuffle(questions.as_mut_slice(), &mut rng);
    (questions, restart)
}

/// Load the deck for the next game from the whole pack `all`, filtered by
/// the params and the played record, shuffled by `seed`. Returns whether the
/// played record started over, so the caller clears it.
pub fn reload_deck(
    game: &mut Game,
    all: Vec<Question>,
    params: &Params,
    played: &[String],
    seed: u64,
) -> (restarted: bool)
    requires
        old(game)@.wf(),
    ensures
        final(game)@.wf(),
        restarted == draw_restarts(
            all@,
            pack_filter(params.category_pack),
            difficulty_filter(params.difficulty),
            played@,
            old(game)@.settings.question_count,
        ),
        final(game)@ == (GameView {
            deck: drawn(
                all@,
                pack_filter(params.category_pack),
                difficulty_filter(params.difficulty),
                played@,
                old(game)@.settings.question_count,
                seed,
            ).filter(|q: Question| q.correct < crate::model::ANSWER_COUNT),
            ..old(game)@
        }).bumped(),
{
    let (pack, difficulty) = deck_filters(params);
    let wanted = game.settings().question_count;
    let (questions, restarted) = draw_deck(all, pack, difficulty, played, wanted, seed);
    game.load_questions(questions);
    restarted
}

/// Unless the played record had to start over, a drawn deck asks no
/// question the record lists, and either way it holds exactly the questions
/// the params allow from that source, each as often as the pack does.
pub proof fn lemma_drawn_skips_played(
    all: Seq<Question>,
    pack: Option<Seq<char>>,
    difficulty: Option<QuestionDifficulty>,
    played: Seq<String>,
    wanted: usize,
    seed: u64,
)
    requires
        all.len() <= u64::MAX,
    ensures
        !draw_restarts(all, pack, difficulty, played, wanted) ==> drawn(
            all,
            pack,
            difficulty,
            played,
            wanted,
            seed,
        ).to_multiset() == pool(all, pack, difficulty, played).to_multiset(),
        !draw_restarts(all, pack, difficulty, played, wanted) ==> forall|k: int, j: int|
            0 <= k < drawn(all, pack, difficulty, played, wanted, seed).len() && 0 <= j
                < played.len() ==> (#[trigger] played[j])@ != (#[trigger] drawn(
                all,
                pack,
                difficulty,
                played,
                wanted,
                seed,
            )[k]).id@,
        draw_restarts(all, pack, difficulty, played, wanted) ==> drawn(
            all,
            pack,
            difficulty,
            played,
            wanted,
            seed,
        ).to_multiset() == pool(all, pack, difficulty, Seq::empty()).to_multiset(),
{
    let source = if draw_restarts(all, pack, difficulty, played, wanted) {
        pool(all, pack, difficulty, Seq::empty())
    } else {
        pool(all, pack, difficulty, played)
    };
    assert(source.len() <= all.len()) by {
        all.lemma_filter_len(|q: Question| selected(q, pack, difficulty, Seq::<String>::empty()));
        all.lemma_filter_len(|q: Question| selected(q, pack, difficulty, played));
    }
    lemma_shuffle_permutes(source, seed_state(seed), source.len());
    let d = drawn(all, pack, difficulty, played, wanted, seed);
    assert(d == fisher_yates(source, seed_state(seed), source.len()).0);
    if !draw_restarts(all, pack, difficulty, played, wanted) {
        assert forall|k: int, j: int|
            0 <= k < d.len() && 0 <= j < played.len() implies (#[trigger] played[j])@ != (
            #[trigger] d[k]).id@ by {
            let q = d[k];
            assert(d.to_multiset().count(q) > 0) by {
                assert(d.contains(q));
                d.to_multiset_ensures();
            }
            assert(source.contains(q)) by {
                source.to_multiset_ensures();
            }
            all.lemma_filter_contains_rev(|x: Question| selected(x, pack, difficulty, played), q);
            let i = choose|i: int| 0 <= i < source.len() && source[i] == q;
            all.lemma_filter_pred(|x: Question| selected(x, pack, difficulty, played), i);
        }
    }
}

// ── Played record ────────────────────────────────────────────────────

/// How many played IDs the record keeps; the oldest go first.
pub const PLAYED_KEEP: usize = 2_000;

/// The IDs a stored played record lists: its comma-separated pieces, the
/// empty ones skipped.
pub open spec fn played_list(stored: Seq<char>) -> Seq<Seq<char>> {
    split_on(stored, ',').filter(|id: Seq<char>| id.len() > 0)
}

/// The newest `keep` of `ids`.
pub open spec fn kept_newest(ids: Seq<Seq<char>>, keep: nat) -> Seq<Seq<char>> {
    if ids.len() > keep {
        ids.skip(ids.len() - keep)
    } else {
        ids
    }
}

/// The record to store once question `id` was asked: none to write when the
/// record lists it already, else the record with `id` appended, keeping the
/// newest `PLAYED_KEEP`.
pub open spec fn played_after(stored: Seq<char>, id: Seq<char>) -> Option<Seq<char>> {
    let ids = played_list(stored);
    if ids.contains(id) {
        None
    } else {
        Some(joined(kept_newest(ids.push(id), PLAYED_KEEP as nat), seq![',']))
    }
}

/// The IDs of the questions already asked on this Deck, from the stored
/// record.
pub fn played_ids(stored: &str) -> (r: Vec<String>)
    ensures
        r@.map_values(|s: String| s@) == played_list(stored@),
{
    let pieces = split_all(stored, ',');
    let ghost all = split_on(stored@, ',');
    let mut out: Vec<String> = Vec::new();
    let mut i: usize = 0;
    while i < pieces.len()
        invariant
            i <= pieces@.len(),
            pieces@.map_values(|x: &str| x@) == all,
            out@.map_values(|s: String| s@) == all.take(i as int).filter(
                |id: Seq<char>| id.len() > 0,
            ),
        decreases pieces.len() - i,
    {
        proof {
            reveal(Seq::filter);
            assert(all.take(i + 1).drop_last() =~= all.take(i as int));
            assert(pieces@.map_values(|x: &str| x@)[i as int] == pieces@[i as int]@);
        }
        let piece = pieces[i];
        if !piece.is_empty() {
            let ghost before = out@;
            out.push(piece.to_owned());
            assert(out@.map_values(|s: String| s@) =~= before.map_values(|s: String| s@).push(
                piece@,
            ));
        }
        i = i + 1;
    }
    assert(all.take(all.len() as int) =~= all);
    out
}

/// The record to store once question `id` was asked, from the stored
/// record; `None` when it lists `id` already and nothing needs writing.
pub fn mark_played(stored: &str, id: &str) -> (r: Option<String>)
    ensures
        r is Some == played_after(stored@, id@) is Some,
        r matches Some(t) ==> t@ == played_after(stored@, id@)->0,
{
    let ids = played_ids(stored);
    let ghost v = played_list(stored@);
    assert(ids@.len() == v.len());
    assert(forall|k: int| 0 <= k < v.len() ==> (#[trigger] ids@[k])@ == v[k]) by {
        assert forall|k: int| 0 <= k < v.len() implies (#[trigger] ids@[k])@ == v[k] by {
            assert(ids@.map_values(|s: String| s@)[k] == ids@[k]@);
        }
    }
    let mut k: usize = 0;
    while k < ids.len()
        invariant
            k <= ids@.len(),
            v == played_list(stored@),
            ids@.len() == v.len(),
            forall|j: int| 0 <= j < v.len() ==> (#[trigger] ids@[j])@ == v[j],
            forall|j: int| 0 <= j < k ==> v[j] != id@,
        decreases ids.len() - k,
    {
        if str_eq(ids[k].as_str(), id) {
            assert(v.contains(id@)) by {
                assert(v[k as int] == id@);
            }
            return None;
        }
        k = k + 1;
    }
    assert(!v.contains(id@));
    let start: usize = if ids.len() >= PLAYED_KEEP {
        ids.len() - (PLAYED_KEEP - 1)
    } else {
        0
    };
    let ghost kept = v.skip(start as int);
    let mut out = String::new();
    let mut j: usize = start;
    while j < ids.len()
        invariant
            start <= j <= ids@.len(),
            v == played_list(stored@),
            ids@.len() == v.len(),
            kept == v.skip(start as int),
            forall|m: int| 0 <= m < v.len() ==> (#[trigger] ids@[m])@ == v[m],
            out@ == joined(v.subrange(start as int, j as int), seq![',']),
        decreases ids.len() - j,
    {
        let ghost before = v.subrange(start as int, j as int);
        assert(v.subrange(start as int, j + 1) =~= before.push(v[j as int]));
        if j > start {
            proof {
                lemma_joined_push(before, v[j as int], seq![',']);
            }
            push_char(&mut out, ',');
        } else {
            assert(before.push(v[j as int]) =~= seq![v[j as int]]);
        }
        out.append(ids[j].as_str());
        assert(out@ =~= joined(v.subrange(start as int, j + 1), seq![',']));
        j = j + 1;
    }
    assert(v.subrange(start as int, v.len() as int) =~= kept);
    assert(kept_newest(v.push(id@), PLAYED_KEEP as nat) =~= kept.push(id@));
    if start < ids.len() {
        proof {
            lemma_joined_push(kept, id@, seq![',']);
        }
        push_char(&mut out, ',');
    } else {
        assert(kept.push(id@) =~= seq![id@]);
    }
    out.append(id);
    assert(out@ =~= joined(kept.push(id@), seq![',']));
    Some(out)
}

proof fn lemma_filter_keeps_all(s: Seq<Seq<char>>)
    requires
        forall|i: int| 0 <= i < s.len() ==> (#[trigger] s[i]).len() > 0,
    ensures
        s.filter(|id: Seq<char>| id.len() > 0) == s,
    decreases s.len(),
{
    reveal(Seq::filter);
    if s.len() > 0 {
        lemma_filter_keeps_all(s.drop_last());
        assert(s.drop_last().push(s.last()) =~= s);
    } else {
        assert(s.filter(|id: Seq<char>| id.len() > 0) =~= s);
    }
}

proof fn lemma_first_index_after(a: Seq<char>, b: Seq<char>, d: char)
    requires
        !a.contains(d),
    ensures
        first_index(a + seq![d] + b, d) == Some(a.len() as int),
{
    let s = a + seq![d] + b;
    lemma_first_index(s, d);
    assert(s[a.len() as int] == d);
    match first_index(s, d) {
        Some(i) => {
            if i < a.len() {
                assert(s[i] == a[i]);
            }
        },
        None => {},
    }
}

proof fn lemma_split_joined(ids: Seq<Seq<char>>)
    requires
        ids.len() > 0,
        forall|i: int| 0 <= i < ids.len() ==> !(#[trigger] ids[i]).contains(','),
    ensures
        split_on(joined(ids, seq![',']), ',') == ids,
    decreases ids.len(),
{
    if ids.len() == 1 {
        lemma_first_index(ids[0], ',');
        assert(first_index(ids[0], ',') is None) by {
            if first_index(ids[0], ',') is Some {
                let i = first_index(ids[0], ',')->0;
                assert(ids[0][i] == ',');
                assert(ids[0].contains(','));
            }
        }
        assert(split_on(ids[0], ',') =~= ids);
    } else {
        let rest = joined(ids.skip(1), seq![',']);
        let s = ids[0] + seq![','] + rest;
        lemma_first_index_after(ids[0], rest, ',');
        assert(s.take(ids[0].len() as int) =~= ids[0]);
        assert(s.skip(ids[0].len() as int + 1) =~= rest);
        lemma_split_joined(ids.skip(1));
        assert(split_on(s, ',') =~= seq![ids[0]] + ids.skip(1));
        assert(seq![ids[0]] + ids.skip(1) =~= ids);
    }
}

/// Writing a record of non-empty IDs without commas and reading it back gives
/// the same IDs in the same order.
pub proof fn lemma_played_round_trip(ids: Seq<Seq<char>>)
    requires
        forall|i: int| 0 <= i < ids.len() ==> (#[trigger] ids[i]).len() > 0 && !ids[i].contains(
            ',',
        ),
    ensures
        played_list(joined(ids, seq![','])) == ids,
{
    if ids.len() == 0 {
        let e = Seq::<char>::empty();
        let pieces = split_on(e, ',');
        assert(pieces =~= seq![e]);
        let kept = played_list(e);
        if kept.len() > 0 {
            pieces.lemma_filter_pred(|id: Seq<char>| id.len() > 0, 0);
            assert(kept.contains(kept[0]));
            pieces.lemma_filter_contains_rev(|id: Seq<char>| id.len() > 0, kept[0]);
            assert(kept[0] == e);
        }
        assert(kept =~= ids);
    } else {
        lemma_split_joined(ids);
        lemma_filter_keeps_all(ids);
    }
}

proof fn lemma_split_pieces(s: Seq<char>, d: char)
    ensures
        forall|i: int| 0 <= i < split_on(s, d).len() ==> !(#[trigger] split_on(s, d)[i]).contains(d),
    decreases s.len(),
{
    lemma_first_index(s, d);
    match first_index(s, d) {
        Some(i) => {
            if 0 <= i < s.len() {
                lemma_split_pieces(s.skip(i + 1), d);
                let head = s.take(i);
                assert(!head.contains(d)) by {
                    if head.contains(d) {
                        let k = choose|k: int| 0 <= k < head.len() && head[k] == d;
                        assert(s[k] == d);
                    }
                }
                let rest = split_on(s.skip(i + 1), d);
                assert forall|k: int| 0 <= k < split_on(s, d).len() implies !(#[trigger] split_on(
                    s,
                    d,
                )[k]).contains(d) by {
                    if k > 0 {
                        assert(split_on(s, d)[k] == rest[k - 1]);
                    }
                }
            }
        },
        None => {
            assert(!s.contains(d)) by {
                if s.contains(d) {
                    let k = choose|k: int| 0 <= k < s.len() && s[k] == d;
                }
            }
        },
    }
}

/// Marking a question that the record does not list yet, when its ID is
/// not empty and has no comma, gives a record that reads back as the old
/// one with the ID appended, cut to the newest `PLAYED_KEEP`: the ID is its
/// last entry and the record never grows past the cap.
pub proof fn lemma_mark_played_appends(stored: Seq<char>, id: Seq<char>)
    requires
        id.len() > 0,
        !id.contains(','),
        !played_list(stored).contains(id),
    ensures
        played_after(stored, id) matches Some(t) && played_list(t) == kept_newest(
            played_list(stored).push(id),
            PLAYED_KEEP as nat,
        ),
        played_after(stored, id) matches Some(t) && played_list(t).last() == id && played_list(
            t,
        ).len() <= PLAYED_KEEP,
{
    let ids = played_list(stored);
    let pieces = split_on(stored, ',');
    lemma_split_pieces(stored, ',');
    assert forall|i: int| 0 <= i < ids.len() implies (#[trigger] ids[i]).len() > 0
        && !ids[i].contains(',') by {
        assert(ids.contains(ids[i]));
        pieces.lemma_filter_pred(|x: Seq<char>| x.len() > 0, i);
        pieces.lemma_filter_contains_rev(|x: Seq<char>| x.len() > 0, ids[i]);
        let k = choose|k: int| 0 <= k < pieces.len() && pieces[k] == ids[i];
        assert(!pieces[k].contains(','));
    }
    let next = ids.push(id);
    let kept = kept_newest(next, PLAYED_KEEP as nat);
    assert forall|i: int| 0 <= i < kept.len() implies (#[trigger] kept[i]).len() > 0
        && !kept[i].contains(',') by {
        if next.len() > PLAYED_KEEP {
            assert(kept[i] == next[i + next.len() - PLAYED_KEEP]);
        }
        let j = if next.len() > PLAYED_KEEP {
            i + next.len() - PLAYED_KEEP
        } else {
            i
        };
        if j < ids.len() {
            assert(next[j] == ids[j]);
        }
    }
    lemma_played_round_trip(kept);
}

// ── Best-ever record ─────────────────────────────────────────────────

/// How many finishes the best-ever list keeps.
pub const BEST_KEEP: usize = 10;

/// One finish on the best-ever list.
#[derive(Clone, Debug, PartialEq, Eq)]
pub struct BestEntry {
    pub score: u32,
    pub name: String,
    pub date: String,
}

/// A best-ever entry as plain values.
#[verifier::ext_equal]
pub struct BestView {
    pub score: u32,
    pub name: Seq<char>,
    pub date: Seq<char>,
}

impl View for BestEntry {
    type V = BestView;

    open spec fn view(&self) -> BestView {
        BestView { score: self.score, name: self.name@, date: self.date@ }
    }
}

/// `u32::from_str` as a spec.
pub open spec fn parsed_u32(s: Seq<char>) -> Option<u32> {
    match parse_decimal(s) {
        Some(n) => if n <= u32::MAX {
            Some(n as u32)
        } else {
            None
        },
        None => None,
    }
}

fn parse_u32(s: &str) -> (r: Option<u32>)
    ensures
        r == parsed_u32(s@),
{
    match parse_u64(s) {
        Some(n) => if n <= u32::MAX as u64 {
            Some(n as u32)
        } else {
            None
        },
        None => None,
    }
}

/// A stored line `score|name|date` as an entry: the score must read as a
/// number and the name must be there; a missing date reads as empty, and any
/// further `|` stays in the date.
pub open spec fn best_line(line: Seq<char>) -> Option<BestView> {
    match first_index(line, '|') {
        None => None,
        Some(i) => match parsed_u32(line.take(i)) {
            None => None,
            Some(score) => {
                let rest = line.skip(i + 1);
                match first_index(rest, '|') {
                    Some(j) => Some(BestView { score, name: rest.take(j), date: rest.skip(j + 1) }),
                    None => Some(BestView { score, name: rest, date: Seq::empty() }),
                }
            },
        },
    }
}

/// The entries that stored lines hold, in order; unreadable lines skipped.
pub open spec fn best_entries(lines: Seq<Seq<char>>) -> Seq<BestView>
    decreases lines.len(),
{
    if lines.len() == 0 {
        Seq::empty()
    } else {
        let rest = best_entries(lines.drop_last());
        match best_line(lines.last()) {
            Some(e) => rest.push(e),
            None => rest,
        }
    }
}

/// The entries a stored best-ever list holds, one per line.
pub open spec fn best_read(stored: Seq<char>) -> Seq<BestView> {
    best_entries(text_lines(stored))
}

fn best_line_entry(line: &str) -> (r: Option<BestEntry>)
    ensures
        r is Some == best_line(line@) is Some,
        r matches Some(e) ==> e@ == best_line(line@)->0,
{
    let (head, rest) = match split_once_char(line, '|') {
        Some(parts) => parts,
        None => return None,
    };
    let score = match parse_u32(head) {
        Some(n) => n,
        None => return None,
    };
    proof {
        reveal_strlit("");
    }
    let (name, date) = match split_once_char(rest, '|') {
        Some(parts) => parts,
        None => (rest, ""),
    };
    Some(BestEntry { score, name: name.to_owned(), date: date.to_owned() })
}

/// The entries of a stored best-ever list, one `score|name|date` per line;
/// lines that do not read as one are skipped.
pub fn parse_best(stored: &str) -> (r: Vec<BestEntry>)
    ensures
        r@.map_values(|e: BestEntry| e@) == best_read(stored@),
{
    let mut out: Vec<BestEntry> = Vec::new();
    let mut rest: &str = stored;
    let ghost mut done: Seq<Seq<char>> = Seq::empty();
    loop
        invariant
            text_lines(stored@) == done + text_lines(rest@),
            out@.map_values(|e: BestEntry| e@) == best_entries(done),
        decreases rest@.len(),
    {
        if rest.is_empty() {
            assert(text_lines(rest@) =~= Seq::<Seq<char>>::empty());
            assert(done + text_lines(rest@) =~= done);
            return out;
        }
        proof {
            lemma_first_index(rest@, '\n');
        }
        let (line, next, last) = match split_once_char(rest, '\n') {
            Some((head, tail)) => {
                let line = match strip_suffix_char(head, '\r') {
                    Some(t) => t,
                    None => head,
                };
                assert(line@ == strip_cr(head@));
                assert(text_lines(rest@) == seq![line@] + text_lines(tail@));
                (line, tail, false)
            },
            None => {
                assert(text_lines(rest@) == seq![rest@]);
                (rest, rest, true)
            },
        };
        let ghost before = done;
        proof {
            done = done.push(line@);
            assert(done.drop_last() =~= before);
        }
        match best_line_entry(line) {
            Some(e) => {
                let ghost prev = out@;
                out.push(e);
                assert(out@.map_values(|e: BestEntry| e@) =~= prev.map_values(|e: BestEntry| e@).push(
                    e@,
                ));
            },
            None => {},
        }
        if last {
            assert(text_lines(stored@) =~= done);
            return out;
        }
        assert(text_lines(stored@) =~= done + text_lines(next@));
        rest = next;
    }
}

/// Where an entry scoring `score` goes among entries ranked best first:
/// after every one scoring at least as much.
pub open spec fn best_slot(r: Seq<BestView>, score: u32) -> int
    decreases r.len(),
{
    if r.len() == 0 {
        0
    } else {
        let k = best_slot(r.drop_last(), score);
        if k < r.len() - 1 {
            k
        } else if r.last().score < score {
            r.len() - 1
        } else {
            r.len() as int
        }
    }
}

/// The entries by score, best first, equal scores in their earlier order:
/// what a stable sort by descending score gives.
pub open spec fn best_ranked(s: Seq<BestView>) -> Seq<BestView>
    decreases s.len(),
{
    if s.len() == 0 {
        Seq::empty()
    } else {
        let r = best_ranked(s.drop_last());
        r.insert(best_slot(r, s.last().score), s.last())
    }
}

/// The first `BEST_KEEP` entries.
pub open spec fn best_kept(s: Seq<BestView>) -> Seq<BestView> {
    if s.len() > BEST_KEEP {
        s.take(BEST_KEEP as int)
    } else {
        s
    }
}

proof fn lemma_best_slot(r: Seq<BestView>, score: u32)
    ensures
        0 <= best_slot(r, score) <= r.len(),
        forall|k: int| 0 <= k < best_slot(r, score) ==> (#[trigger] r[k]).score >= score,
        best_slot(r, score) < r.len() ==> r[best_slot(r, score)].score < score,
    decreases r.len(),
{
    if r.len() > 0 {
        let t = r.drop_last();
        lemma_best_slot(t, score);
        assert forall|k: int| 0 <= k < t.len() implies t[k] == r[k] by {}
    }
}

fn best_slot_of(r: &Vec<BestEntry>, score: u32) -> (k: usize)
    ensures
        k == best_slot(r@.map_values(|e: BestEntry| e@), score),
{
    let ghost v = r@.map_values(|e: BestEntry| e@);
    let mut k: usize = 0;
    while k < r.len() && r[k].score >= score
        invariant
            k <= r@.len(),
            v == r@.map_values(|e: BestEntry| e@),
            forall|j: int| 0 <= j < k ==> (#[trigger] v[j]).score >= score,
        decreases r.len() - k,
    {
        assert(v[k as int] == r@[k as int]@);
        k = k + 1;
    }
    proof {
        lemma_best_slot(v, score);
        let s = best_slot(v, score);
        if (k as int) < s {
            assert(v[k as int] == r@[k as int]@);
            assert(v[k as int].score >= score);
        }
        if s < k {
            assert(v[s].score >= score);
        }
    }
    k
}

/// Add a finish to a best-ever list: ranked by score, best first, equal
/// scores in their earlier order (the new one last among them), the first
/// `BEST_KEEP` kept.
pub fn add_best(entries: Vec<BestEntry>, entry: BestEntry) -> (r: Vec<BestEntry>)
    ensures
        r@.map_values(|e: BestEntry| e@) == best_kept(
            best_ranked(entries@.map_values(|e: BestEntry| e@).push(entry@)),
        ),
        r@.len() == if entries@.len() + 1 > BEST_KEEP {
            BEST_KEEP as nat
        } else {
            entries@.len() + 1
        },
        forall|i: int, j: int| 0 <= i < j < r@.len() ==> (#[trigger] r@[i]).score >= (#[trigger] r@[j]).score,
        forall|k: int|
            0 <= k < r@.len() ==> entries@.map_values(|e: BestEntry| e@).push(entry@).contains(
                (#[trigger] r@[k])@,
            ),
{
    proof {
        lemma_add_best_ranked(entries@.map_values(|e: BestEntry| e@), entry@);
    }
    let mut all = entries;
    all.push(entry);
    let ghost s = all@;
    let ghost sv = s.map_values(|e: BestEntry| e@);
    assert(sv =~= entries@.map_values(|e: BestEntry| e@).push(entry@));
    let mut ranked: Vec<BestEntry> = Vec::new();
    for e in it: all.into_iter()
        invariant
            it.seq() == s,
            sv == s.map_values(|e: BestEntry| e@),
            ranked@.map_values(|e: BestEntry| e@) == best_ranked(sv.take(it.index() as int)),
    {
        let ghost before = ranked@;
        proof {
            assert(sv.take(it.index() + 1).drop_last() =~= sv.take(it.index() as int));
            assert(sv.take(it.index() + 1).last() == e@);
            lemma_best_slot(before.map_values(|e: BestEntry| e@), e.score);
        }
        let k = best_slot_of(&ranked, e.score);
        ranked.insert(k, e);
        assert(ranked@.map_values(|e: BestEntry| e@) =~= before.map_values(|e: BestEntry| e@).insert(
            k as int,
            e@,
        ));
    }
    proof {
        assert(sv.take(sv.len() as int) =~= sv);
    }
    let ghost full = ranked@;
    ranked.truncate(BEST_KEEP);
    assert(ranked@.map_values(|e: BestEntry| e@) =~= best_kept(
        full.map_values(|e: BestEntry| e@),
    ));
    proof {
        let rv = ranked@.map_values(|e: BestEntry| e@);
        assert forall|k: int| 0 <= k < ranked@.len() implies rv[k] == (#[trigger] ranked@[k])@ by {}
    }
    ranked
}

/// A name or date as stored: `|` and line breaks become spaces.
pub open spec fn sanitized(s: Seq<char>) -> Seq<char> {
    s.map_values(|c: char| if c == '|' || c == '\n' { ' ' } else { c })
}

/// One stored line of the best-ever list, line break included.
pub open spec fn best_text(e: BestView) -> Seq<char> {
    decimal(e.score as nat) + seq!['|'] + sanitized(e.name) + seq!['|'] + sanitized(e.date) + seq![
        '\n',
    ]
}

/// A best-ever list as stored: one line per entry, in order.
pub open spec fn best_blob_text(s: Seq<BestView>) -> Seq<char>
    decreases s.len(),
{
    if s.len() == 0 {
        Seq::empty()
    } else {
        best_text(s[0]) + best_blob_text(s.skip(1))
    }
}

fn push_sanitized(out: &mut String, s: &str)
    ensures
        final(out)@ == old(out)@ + sanitized(s@),
{
    let chars = chars_vec(s);
    let mut i: usize = 0;
    while i < chars.len()
        invariant
            i <= chars@.len(),
            chars@ == s@,
            out@ == old(out)@ + sanitized(chars@.take(i as int)),
        decreases chars.len() - i,
    {
        let c = chars[i];
        if c == '|' || c == '\n' {
            push_char(out, ' ');
        } else {
            push_char(out, c);
        }
        assert(sanitized(chars@.take(i + 1)) =~= sanitized(chars@.take(i as int)).push(
            if c == '|' || c == '\n' {
                ' '
            } else {
                c
            },
        ));
        assert(out@ =~= old(out)@ + sanitized(chars@.take(i + 1)));
        i = i + 1;
    }
    assert(chars@.take(chars@.len() as int) =~= chars@);
}

proof fn lemma_blob_push(s: Seq<BestView>, e: BestView)
    ensures
        best_blob_text(s.push(e)) == best_blob_text(s) + best_text(e),
    decreases s.len(),
{
    let q = s.push(e);
    if s.len() == 0 {
        assert(q.skip(1) =~= Seq::<BestView>::empty());
        assert(q[0] == e);
        assert(best_blob_text(q.skip(1)) == Seq::<char>::empty());
        assert(best_blob_text(q) =~= best_blob_text(s) + best_text(e));
    } else {
        assert(q.skip(1) =~= s.skip(1).push(e));
        lemma_blob_push(s.skip(1), e);
        assert(q[0] == s[0]);
        assert(best_blob_text(q) == best_text(q[0]) + best_blob_text(q.skip(1)));
        assert(best_blob_text(s) == best_text(s[0]) + best_blob_text(s.skip(1)));
        assert(best_blob_text(q) =~= best_blob_text(s) + best_text(e));
    }
}

/// A best-ever list as stored: `score|name|date` per line, with `|` and line
/// breaks in names and dates written as spaces.
pub fn best_blob(entries: &[BestEntry]) -> (r: String)
    ensures
        r@ == best_blob_text(entries@.map_values(|e: BestEntry| e@)),
{
    let ghost v = entries@.map_values(|e: BestEntry| e@);
    let mut out = String::new();
    let mut i: usize = 0;
    while i < entries.len()
        invariant
            i <= entries@.len(),
            v == entries@.map_values(|e: BestEntry| e@),
            out@ == best_blob_text(v.take(i as int)),
        decreases entries.len() - i,
    {
        let e = &entries[i];
        let ghost before = out@;
        push_usize(&mut out, e.score as usize);
        push_char(&mut out, '|');
        push_sanitized(&mut out, e.name.as_str());
        push_char(&mut out, '|');
        push_sanitized(&mut out, e.date.as_str());
        push_char(&mut out, '\n');
        proof {
            assert(v[i as int] == e@);
            assert(v.take(i + 1) =~= v.take(i as int).push(e@));
            lemma_blob_push(v.take(i as int), e@);
        }
        assert(out@ =~= before + best_text(e@));
        i = i + 1;
    }
    assert(v.take(v.len() as int) =~= v);
    out
}

/// The best-ever list after a game, from the stored list: the winner, when
/// the game has one with points, added with the day's date; `None` when there
/// is nothing to record.
pub open spec fn best_after(v: GameView, stored: Seq<char>, today: Seq<char>) -> Option<
    Seq<BestView>,
> {
    let r = ranked(v.players);
    if r.len() == 0 || r[0].score == 0 {
        None
    } else {
        Some(
            best_kept(
                best_ranked(
                    best_read(stored).push(
                        BestView { score: r[0].score, name: r[0].name@, date: today },
                    ),
                ),
            ),
        )
    }
}

/// The best-ever list after a game, from the stored list and the day's date;
/// `None` when no player scored and there is nothing to record.
pub fn record_best(game: &Game, stored: &str, today: &str) -> (r: Option<Vec<BestEntry>>)
    requires
        game@.wf(),
    ensures
        r is Some == best_after(game@, stored@, today@) is Some,
        r matches Some(e) ==> e@.map_values(|e: BestEntry| e@) == best_after(
            game@,
            stored@,
            today@,
        )->0,
{
    let ranked_players = game.standings();
    if ranked_players.len() == 0 {
        return None;
    }
    let winner = ranked_players[0];
    assert(*winner == ranked(game@.players)[0]);
    if winner.score == 0 {
        return None;
    }
    let entries = parse_best(stored);
    let entry = BestEntry { score: winner.score, name: winner.name.clone(), date: today.to_owned() };
    Some(add_best(entries, entry))
}

proof fn lemma_decimal_reads_back(n: nat)
    ensures
        parse_decimal(decimal(n)) == Some(n),
        all_digits(decimal(n)),
        decimal(n).len() > 0,
    decreases n,
{
    lemma_decimal_lower(n);
    lemma_decimal_len(n);
    let t = decimal(n);
    assert(unsigned_part(t) == t) by {
        assert('0' <= t[0] <= '9');
    }
    assert(all_digits(t));
    if n < 10 {
        assert(t.drop_last() =~= Seq::<char>::empty());
        assert(digit_value(digit_char(n)) == n);
        assert(digits_value(t) == digits_value(t.drop_last()) * 10 + digit_value(t.last()));
        assert(digits_value(t) == n);
    } else {
        lemma_decimal_reads_back(n / 10);
        assert(t.drop_last() =~= decimal(n / 10));
        assert(t.last() == digit_char(n % 10));
        assert(digit_value(digit_char(n % 10)) == n % 10);
        assert(digits_value(t) == digits_value(decimal(n / 10)) * 10 + digit_value(t.last()));
        assert((n / 10) * 10 + n % 10 == n) by (nonlinear_arith);
        assert(digits_value(t) == n);
    }
    assert(parse_decimal(t) == Some(n));
}

/// One stored line of the best-ever list without its line break.
pub open spec fn best_line_text(e: BestView) -> Seq<char> {
    decimal(e.score as nat) + seq!['|'] + sanitized(e.name) + seq!['|'] + sanitized(e.date)
}

/// An entry as the stored list gives it back: `|` and line breaks in its
/// name and date turned to spaces.
pub open spec fn stored_view(e: BestView) -> BestView {
    BestView { score: e.score, name: sanitized(e.name), date: sanitized(e.date) }
}

proof fn lemma_sanitized_clean(s: Seq<char>)
    ensures
        !sanitized(s).contains('|'),
        !sanitized(s).contains('\n'),
        sanitized(s).len() == s.len(),
        s.len() > 0 ==> (sanitized(s).last() == '\r' <==> s.last() == '\r'),
{
    let t = sanitized(s);
    assert(!t.contains('|')) by {
        if t.contains('|') {
            let k = choose|k: int| 0 <= k < t.len() && t[k] == '|';
        }
    }
    assert(!t.contains('\n')) by {
        if t.contains('\n') {
            let k = choose|k: int| 0 <= k < t.len() && t[k] == '\n';
        }
    }
}

proof fn lemma_digits_clean(n: nat, c: char)
    requires
        !('0' <= c <= '9'),
    ensures
        !decimal(n).contains(c),
{
    lemma_decimal_lower(n);
    if decimal(n).contains(c) {
        let k = choose|k: int| 0 <= k < decimal(n).len() && decimal(n)[k] == c;
        assert('0' <= decimal(n)[k] <= '9');
    }
}

proof fn lemma_best_line_reads_back(e: BestView)
    ensures
        best_line(best_line_text(e)) == Some(stored_view(e)),
        !best_line_text(e).contains('\n'),
        strip_cr(best_line_text(e)) == best_line_text(e) <== !(e.date.len() > 0 && e.date.last()
            == '\r'),
{
    let d = decimal(e.score as nat);
    let sn = sanitized(e.name);
    let sd = sanitized(e.date);
    let line = best_line_text(e);
    lemma_sanitized_clean(e.name);
    lemma_sanitized_clean(e.date);
    lemma_digits_clean(e.score as nat, '|');
    lemma_digits_clean(e.score as nat, '\n');
    lemma_decimal_reads_back(e.score as nat);
    let rest = sn + seq!['|'] + sd;
    assert(line =~= d + seq!['|'] + rest);
    lemma_first_index_after(d, rest, '|');
    assert(line.take(d.len() as int) =~= d);
    assert(line.skip(d.len() as int + 1) =~= rest);
    lemma_first_index_after(sn, sd, '|');
    assert(rest.take(sn.len() as int) =~= sn);
    assert(rest.skip(sn.len() as int + 1) =~= sd);
    assert(!line.contains('\n')) by {
        if line.contains('\n') {
            let k = choose|k: int| 0 <= k < line.len() && line[k] == '\n';
            if k < d.len() {
                assert(d[k] == '\n');
            } else if k == d.len() {
            } else if k < d.len() + 1 + sn.len() {
                assert(sn[k - d.len() - 1] == '\n');
            } else if k == d.len() + 1 + sn.len() {
            } else {
                assert(sd[k - d.len() - 2 - sn.len()] == '\n');
            }
        }
    }
    if !(e.date.len() > 0 && e.date.last() == '\r') {
        if sd.len() > 0 {
            assert(line.last() == sd.last());
        } else {
            assert(line.last() == '|');
        }
    }
}

proof fn lemma_blob_lines(s: Seq<BestView>)
    requires
        forall|i: int| 0 <= i < s.len() ==> !((#[trigger] s[i]).date.len() > 0 && s[i].date.last()
            == '\r'),
    ensures
        text_lines(best_blob_text(s)) == s.map_values(|e: BestView| best_line_text(e)),
    decreases s.len(),
{
    if s.len() == 0 {
        assert(text_lines(best_blob_text(s)) =~= s.map_values(|e: BestView| best_line_text(e)));
    } else {
        let line = best_line_text(s[0]);
        let rest = best_blob_text(s.skip(1));
        let blob = best_blob_text(s);
        lemma_best_line_reads_back(s[0]);
        assert(best_text(s[0]) =~= line + seq!['\n']);
        assert(blob =~= line + seq!['\n'] + rest);
        lemma_first_index_after(line, rest, '\n');
        assert(blob.take(line.len() as int) =~= line);
        assert(blob.skip(line.len() as int + 1) =~= rest);
        assert forall|i: int| 0 <= i < s.skip(1).len() implies !((#[trigger] s.skip(1)[i]).date.len()
            > 0 && s.skip(1)[i].date.last() == '\r') by {
            assert(s.skip(1)[i] == s[i + 1]);
        }
        lemma_blob_lines(s.skip(1));
        assert(text_lines(blob) == seq![line] + text_lines(rest));
        assert(text_lines(blob) =~= s.map_values(|e: BestView| best_line_text(e)));
    }
}

proof fn lemma_entries_of_lines(s: Seq<BestView>)
    ensures
        best_entries(s.map_values(|e: BestView| best_line_text(e))) == s.map_values(
            |e: BestView| stored_view(e),
        ),
    decreases s.len(),
{
    let lines = s.map_values(|e: BestView| best_line_text(e));
    if s.len() == 0 {
        assert(best_entries(lines) =~= s.map_values(|e: BestView| stored_view(e)));
    } else {
        assert(lines.drop_last() =~= s.drop_last().map_values(|e: BestView| best_line_text(e)));
        lemma_entries_of_lines(s.drop_last());
        lemma_best_line_reads_back(s.last());
        assert(best_entries(lines) =~= s.map_values(|e: BestView| stored_view(e)));
    }
}

/// What the best-ever list stores it reads back: every entry, in order, with
/// `|` and line breaks in names and dates turned to spaces, as long as no
/// date ends in a carriage return.
pub proof fn lemma_best_round_trip(s: Seq<BestView>)
    requires
        forall|i: int| 0 <= i < s.len() ==> !((#[trigger] s[i]).date.len() > 0 && s[i].date.last()
            == '\r'),
    ensures
        best_read(best_blob_text(s)) == s.map_values(|e: BestView| stored_view(e)),
{
    lemma_blob_lines(s);
    lemma_entries_of_lines(s);
}

/// Ranking the best-ever list keeps every entry and orders them best first.
pub proof fn lemma_best_ranked(s: Seq<BestView>)
    ensures
        best_ranked(s).len() == s.len(),
        best_ranked(s).to_multiset() == s.to_multiset(),
        forall|i: int, j: int|
            0 <= i < j < s.len() ==> (#[trigger] best_ranked(s)[i]).score >= (
            #[trigger] best_ranked(s)[j]).score,
    decreases s.len(),
{
    if s.len() == 0 {
        assert(s =~= Seq::<BestView>::empty());
        assert(best_ranked(s) == s);
    } else {
        let t = s.drop_last();
        let x = s.last();
        lemma_best_ranked(t);
        let r = best_ranked(t);
        let k = best_slot(r, x.score);
        lemma_best_slot(r, x.score);
        let n = r.insert(k, x);
        assert(n == best_ranked(s));
        to_multiset_insert(r, k, x);
        to_multiset_build(t, x);
        assert(t.push(x) =~= s);
        assert(n.to_multiset() == r.to_multiset().insert(x));
        assert(s.to_multiset() == t.to_multiset().insert(x));
        assert forall|i: int, j: int| 0 <= i < j < s.len() implies (#[trigger] n[i]).score >= (
        #[trigger] n[j]).score by {
            if j < k {
                assert(n[i] == r[i] && n[j] == r[j]);
            } else if j == k {
                assert(n[i] == r[i]);
            } else if i < k {
                assert(n[i] == r[i] && n[j] == r[j - 1]);
            } else if i == k {
                assert(n[j] == r[j - 1]);
                assert(r[k].score < x.score);
                if j - 1 > k {
                    assert(r[k].score >= r[j - 1].score);
                }
            } else {
                assert(n[i] == r[i - 1] && n[j] == r[j - 1]);
            }
        }
    }
}

/// A best-ever list after a finish was added is ranked best first, holds
/// `BEST_KEEP` entries at most, and holds the new finish unless
/// `BEST_KEEP` others score at least as much.
pub proof fn lemma_add_best_ranked(entries: Seq<BestView>, entry: BestView)
    ensures
        best_kept(best_ranked(entries.push(entry))).len() == if entries.len() + 1 > BEST_KEEP {
            BEST_KEEP as nat
        } else {
            entries.len() + 1
        },
        forall|i: int, j: int|
            0 <= i < j < best_kept(best_ranked(entries.push(entry))).len() ==> (
            #[trigger] best_kept(best_ranked(entries.push(entry)))[i]).score >= (
            #[trigger] best_kept(best_ranked(entries.push(entry)))[j]).score,
        best_ranked(entries.push(entry)).to_multiset() == entries.to_multiset().insert(entry),
        forall|k: int|
            0 <= k < best_kept(best_ranked(entries.push(entry))).len() ==> entries.push(
                entry,
            ).contains(#[trigger] best_kept(best_ranked(entries.push(entry)))[k]),
{
    let s = entries.push(entry);
    lemma_best_ranked(s);
    to_multiset_build(entries, entry);
    let r = best_ranked(s);
    let kept = best_kept(r);
    assert forall|k: int| 0 <= k < kept.len() implies s.contains(#[trigger] kept[k]) by {
        assert(kept[k] == r[k]);
        assert(r.contains(r[k]));
        r.to_multiset_ensures();
        s.to_multiset_ensures();
        assert(s.to_multiset() == entries.to_multiset().insert(entry));
        assert(r.to_multiset().count(r[k]) > 0);
        assert(s.to_multiset().count(r[k]) > 0);
    }
    assert forall|i: int, j: int| 0 <= i < j < kept.len() implies (#[trigger] kept[i]).score >= (
    #[trigger] kept[j]).score by {
        assert(kept[i] == r[i] && kept[j] == r[j]);
    }
}

// ── Screens ──────────────────────────────────────────────────────────

/// Lobby frames: nothing moves faster than a phone joining.
pub const LOBBY_FRAME_MS: u32 = 1_000;

/// Countdown frames: the ring and the answered dots.
pub const QUESTION_FRAME_MS: u32 = 100;

/// Reveal, standings, podium: only a seconds counter moves.
pub const SLOW_FRAME_MS: u32 = 250;

/// The screen the board shows and the milliseconds until the next frame: a
/// question or reveal without its question falls back to the lobby.
pub open spec fn screen_of(v: GameView) -> (Kind, u32) {
    match v.phase {
        Phase::Lobby => (Kind::Lobby, LOBBY_FRAME_MS),
        Phase::Question { .. } => if v.current_question() is Some {
            (Kind::Question, QUESTION_FRAME_MS)
        } else {
            (Kind::Lobby, LOBBY_FRAME_MS)
        },
        Phase::Reveal { .. } => if v.current_question() is Some {
            (Kind::Reveal, SLOW_FRAME_MS)
        } else {
            (Kind::Lobby, LOBBY_FRAME_MS)
        },
        Phase::Standings { .. } => (Kind::Standings, SLOW_FRAME_MS),
        Phase::Podium { .. } => (Kind::Podium, SLOW_FRAME_MS),
    }
}

/// The screen the board shows and the milliseconds until the next frame.
pub fn screen_for(game: &Game) -> (r: (Kind, u32))
    ensures
        r == screen_of(game@),
{
    match game.phase() {
        Phase::Lobby => (Kind::Lobby, LOBBY_FRAME_MS),
        Phase::Question { .. } => match game.current_question() {
            Some(_) => (Kind::Question, QUESTION_FRAME_MS),
            None => (Kind::Lobby, LOBBY_FRAME_MS),
        },
        Phase::Reveal { .. } => match game.current_question() {
            Some(_) => (Kind::Reveal, SLOW_FRAME_MS),
            None => (Kind::Lobby, LOBBY_FRAME_MS),
        },
        Phase::Standings { .. } => (Kind::Standings, SLOW_FRAME_MS),
        Phase::Podium { .. } => (Kind::Podium, SLOW_FRAME_MS),
    }
}

/// Seconds left of a phase lasting `limit_ms` that has run `elapsed_ms`,
/// rounded up.
pub open spec fn seconds_until(limit_ms: u32, elapsed_ms: u32) -> u32 {
    ceil_seconds(
        if elapsed_ms < limit_ms {
            (limit_ms - elapsed_ms) as u32
        } else {
            0
        },
    )
}

/// Seconds left of a phase lasting `limit_ms` that has run `elapsed_ms`.
pub fn phase_seconds_left(limit_ms: u32, elapsed_ms: u32) -> (r: u32)
    ensures
        r == seconds_until(limit_ms, elapsed_ms),
{
    seconds_left(limit_ms.saturating_sub(elapsed_ms))
}

/// A signed number in decimal.
pub open spec fn signed_decimal(n: int) -> Seq<char> {
    if n < 0 {
        seq!['-'] + decimal((-n) as nat)
    } else {
        decimal(n as nat)
    }
}

fn push_i32(out: &mut String, n: i32)
    ensures
        final(out)@ == old(out)@ + signed_decimal(n as int),
{
    if n < 0 {
        push_char(out, '-');
        let magnitude: usize = (-(n as i64)) as usize;
        push_usize(out, magnitude);
        assert(final(out)@ =~= old(out)@ + signed_decimal(n as int));
    } else {
        push_usize(out, n as usize);
    }
}

/// The lobby's line about the game the params set up.
pub open spec fn status_text(p: Params) -> Seq<char> {
    signed_decimal(p.question_count as int) + " questions \u{b7} "@ + pack_label(p.category_pack)
}

/// The lobby's line about the game the params set up: question count and pack.
pub fn status_line(params: &Params) -> (r: String)
    ensures
        r@ == status_text(*params),
{
    let mut out = String::new();
    push_i32(&mut out, params.question_count);
    out.append(" questions \u{b7} ");
    out.append(params.category_pack.as_manifest_label());
    assert(out@ =~= status_text(*params));
    out
}

/// The standings' status line after question `index` of `total`.
pub open spec fn standings_text(total: usize, index: usize, elapsed_ms: u32) -> Seq<char> {
    let asked = index + 1;
    let left = if total > asked {
        total - asked
    } else {
        0
    };
    let secs = seconds_until(STANDINGS_MS, elapsed_ms);
    if left == 0 {
        "After question "@ + decimal(asked as nat) + " \u{b7} Podium in "@ + decimal(secs as nat)
            + " s"@
    } else {
        "After question "@ + decimal(asked as nat) + " \u{b7} "@ + decimal(left as nat)
            + " to go \u{b7} Next in "@ + decimal(secs as nat) + " s"@
    }
}

/// The standings' status line: which question was asked, how many are left,
/// and when the next screen comes.
pub fn standings_status(total: usize, index: usize, elapsed_ms: u32) -> (r: String)
    requires
        index < usize::MAX,
    ensures
        r@ == standings_text(total, index, elapsed_ms),
{
    let asked = index + 1;
    let left = total.saturating_sub(asked);
    let secs = phase_seconds_left(STANDINGS_MS, elapsed_ms);
    let mut out = String::new();
    out.append("After question ");
    push_usize(&mut out, asked);
    if left == 0 {
        out.append(" \u{b7} Podium in ");
        push_usize(&mut out, secs as usize);
        out.append(" s");
    } else {
        out.append(" \u{b7} ");
        push_usize(&mut out, left);
        out.append(" to go \u{b7} Next in ");
        push_usize(&mut out, secs as usize);
        out.append(" s");
    }
    assert(out@ =~= standings_text(total, index, elapsed_ms));
    out
}

/// The podium's status line.
pub open spec fn podium_text(elapsed_ms: u32) -> Seq<char> {
    "Host taps New game \u{b7} Lobby in "@ + decimal(seconds_until(PODIUM_MS, elapsed_ms) as nat)
        + " s"@
}

/// The podium's status line: when the lobby comes back on its own.
pub fn podium_status(elapsed_ms: u32) -> (r: String)
    ensures
        r@ == podium_text(elapsed_ms),
{
    let secs = phase_seconds_left(PODIUM_MS, elapsed_ms);
    let mut out = String::new();
    out.append("Host taps New game \u{b7} Lobby in ");
    push_usize(&mut out, secs as usize);
    out.append(" s");
    assert(out@ =~= podium_text(elapsed_ms));
    out
}

/// The address phones open, once the Deck has an address and a port.
pub open spec fn lobby_address(ip: Seq<char>, port: u16) -> Option<Seq<char>> {
    if port == 0 || ip.len() == 0 {
        None
    } else {
        Some("http://"@ + ip + ":"@ + decimal(port as nat) + "/"@)
    }
}

/// The address phones open; `None` while the listener or the network is not
/// up yet.
pub fn lobby_url(ip: &str, port: u16) -> (r: Option<String>)
    ensures
        r is Some == lobby_address(ip@, port) is Some,
        r matches Some(u) ==> u@ == lobby_address(ip@, port)->0,
{
    if port == 0 || ip.is_empty() {
        return None;
    }
    let mut out = String::new();
    out.append("http://");
    out.append(ip);
    out.append(":");
    push_usize(&mut out, port as usize);
    out.append("/");
    assert(out@ =~= lobby_address(ip@, port)->0);
    Some(out)
}

// ── Reveal ───────────────────────────────────────────────────────────

/// The names of the players who locked answer `k`, in seat order, joined
/// by `, `.
pub open spec fn choice_names(s: Seq<Player>, k: usize) -> Seq<char>
    decreases s.len(),
{
    if s.len() == 0 {
        Seq::empty()
    } else {
        let acc = choice_names(s.drop_last(), k);
        if s.last().answer matches Some(a) && a.choice == k {
            if acc.len() > 0 {
                acc + ", "@ + s.last().name@
            } else {
                s.last().name@
            }
        } else {
            acc
        }
    }
}

/// The earliest seat among the quickest to lock answer `correct`.
pub open spec fn fastest_seat(s: Seq<Player>, correct: usize) -> Option<int>
    decreases s.len(),
{
    if s.len() == 0 {
        None
    } else {
        let f = fastest_seat(s.drop_last(), correct);
        let quicker = match s.last().answer {
            Some(a) => a.choice < ANSWER_COUNT && a.choice == correct && match f {
                None => true,
                Some(i) => match s[i].answer {
                    Some(fa) => a.elapsed_ms < fa.elapsed_ms,
                    None => false,
                },
            },
            None => false,
        };
        if quicker {
            Some(s.len() - 1)
        } else {
            f
        }
    }
}

/// What the reveal screen tallies: how many players locked each answer, who
/// they were, and the seat of the quickest to lock the right one.
pub struct RevealTally {
    pub counts: [usize; ANSWER_COUNT],
    pub names: [String; ANSWER_COUNT],
    pub fastest: Option<usize>,
}

fn names_for(players: &[Player], k: usize) -> (r: String)
    ensures
        r@ == choice_names(players@, k),
{
    let mut out = String::new();
    let mut i: usize = 0;
    while i < players.len()
        invariant
            i <= players@.len(),
            out@ == choice_names(players@.take(i as int), k),
        decreases players.len() - i,
    {
        assert(players@.take(i + 1).drop_last() =~= players@.take(i as int));
        let p = &players[i];
        let hit = match p.answer {
            Some(a) => a.choice == k,
            None => false,
        };
        if hit {
            if !out.as_str().is_empty() {
                out.append(", ");
            }
            out.append(p.name.as_str());
            assert(out@ =~= choice_names(players@.take(i + 1), k));
        }
        i = i + 1;
    }
    assert(players@.take(players@.len() as int) =~= players@);
    out
}

proof fn lemma_fastest_seat(s: Seq<Player>, correct: usize)
    ensures
        fastest_seat(s, correct) matches Some(i) ==> 0 <= i < s.len() && s[i].answer is Some,
    decreases s.len(),
{
    if s.len() > 0 {
        lemma_fastest_seat(s.drop_last(), correct);
    }
}

fn fastest_of(players: &[Player], correct: usize) -> (r: Option<usize>)
    ensures
        match fastest_seat(players@, correct) {
            Some(i) => r == Some(i as usize),
            None => r is None,
        },
{
    let mut best: Option<usize> = None;
    let mut i: usize = 0;
    while i < players.len()
        invariant
            i <= players@.len(),
            match fastest_seat(players@.take(i as int), correct) {
                Some(j) => best == Some(j as usize),
                None => best is None,
            },
            best matches Some(j) ==> j < i,
        decreases players.len() - i,
    {
        let ghost t = players@.take(i + 1);
        assert(t.drop_last() =~= players@.take(i as int));
        proof {
            lemma_fastest_seat(players@.take(i as int), correct);
        }
        let quicker = match players[i].answer {
            Some(a) => a.choice < ANSWER_COUNT && a.choice == correct && match best {
                None => true,
                Some(j) => match players[j].answer {
                    Some(fa) => a.elapsed_ms < fa.elapsed_ms,
                    None => false,
                },
            },
            None => false,
        };
        proof {
            match best {
                Some(j) => {
                    assert(t[j as int] == players@[j as int]);
                },
                None => {},
            }
        }
        if quicker {
            best = Some(i);
        }
        i = i + 1;
    }
    assert(players@.take(players@.len() as int) =~= players@);
    best
}

/// Tally the reveal of a question whose right answer is `correct`.
pub fn reveal_tally(game: &Game, correct: usize) -> (r: RevealTally)
    ensures
        forall|k: int| 0 <= k < ANSWER_COUNT ==> r.counts@[k] == choice_count(game@.players, k as usize),
        forall|k: int| 0 <= k < ANSWER_COUNT ==> (#[trigger] r.names@[k])@ == choice_names(game@.players, k as usize),
        match fastest_seat(game@.players, correct) {
            Some(i) => r.fastest == Some(i as usize),
            None => r.fastest is None,
        },
{
    let players = game.players();
    let counts: [usize; ANSWER_COUNT] = [
        count_choice(players, 0),
        count_choice(players, 1),
        count_choice(players, 2),
        count_choice(players, 3),
    ];
    let names: [String; ANSWER_COUNT] = [
        names_for(players, 0),
        names_for(players, 1),
        names_for(players, 2),
        names_for(players, 3),
    ];
    let fastest = fastest_of(players, correct);
    RevealTally { counts, names, fastest }
}

/// Whether `p` locked answer `k`.
pub open spec fn locked(p: Player, k: usize) -> bool {
    p.answer matches Some(a) && a.choice == k
}

/// When `p` locked its answer.
pub open spec fn lock_time(p: Player) -> u32 {
    match p.answer {
        Some(a) => a.elapsed_ms,
        None => 0,
    }
}

/// The reveal names the quickest player to lock the right answer: one who
/// locked it, no slower than anyone else who did, and ahead of every
/// earlier seat that was as quick; nobody when nobody locked it.
pub proof fn lemma_fastest_is_quickest(s: Seq<Player>, correct: usize)
    requires
        correct < ANSWER_COUNT,
    ensures
        fastest_seat(s, correct) matches Some(i) ==> {
            &&& 0 <= i < s.len()
            &&& locked(s[i], correct)
            &&& forall|j: int|
                0 <= j < s.len() && locked(#[trigger] s[j], correct) ==> lock_time(s[i])
                    <= lock_time(s[j])
            &&& forall|j: int|
                0 <= j < i && locked(#[trigger] s[j], correct) ==> lock_time(s[i]) < lock_time(
                    s[j],
                )
        },
        fastest_seat(s, correct) is None ==> forall|j: int|
            0 <= j < s.len() ==> !locked(#[trigger] s[j], correct),
    decreases s.len(),
{
    if s.len() > 0 {
        let t = s.drop_last();
        lemma_fastest_is_quickest(t, correct);
        assert forall|j: int| 0 <= j < t.len() implies t[j] == s[j] by {}
    }
}

} // verus!
