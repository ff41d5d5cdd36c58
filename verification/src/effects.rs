//! LED strip and sound cues, decided from phase transitions.
//!
//! The strip takes whole-strip effects (solid, breathe, chase) rather than
//! per-LED pixels, so a player joining becomes a flash in the newest
//! player's colour. This module decides which cues a frame fires; the Deck's
//! glue plays them.
use vstd::prelude::*;

use crate::model::{
    Game, GameView, Phase, Player, PlayerColor, answered_players, connected_players, ranked,
};

verus! {

/// The amber chase starts with this many seconds left.
pub const WARN_FROM_S: u32 = 5;

/// Ticks sound on each of the last seconds from here down.
pub const TICK_FROM_S: u32 = 3;

/// How long the strip flashes a newcomer's colour.
pub const JOIN_FLASH_MS: u32 = 1_500;

/// How long the winner's chase runs on the podium.
pub const PODIUM_CHASE_MS: u32 = 3_000;

/// One lap of a chase.
pub const CHASE_PERIOD_MS: u32 = 500;

/// One breath of the reveal glow.
pub const BREATHE_PERIOD_MS: u32 = 2_000;

/// Which screen a phase belongs to; transitions between kinds fire effects.
#[derive(Clone, Copy, Debug, PartialEq, Eq, Structural)]
pub enum Kind {
    Lobby,
    Question,
    Reveal,
    Standings,
    Podium,
}

/// The screen a phase belongs to.
pub open spec fn kind_of(phase: Phase) -> Kind {
    match phase {
        Phase::Lobby => Kind::Lobby,
        Phase::Question { .. } => Kind::Question,
        Phase::Reveal { .. } => Kind::Reveal,
        Phase::Standings { .. } => Kind::Standings,
        Phase::Podium { .. } => Kind::Podium,
    }
}

/// The screen a phase belongs to.
pub fn kind(phase: Phase) -> (r: Kind)
    ensures
        r == kind_of(phase),
{
    match phase {
        Phase::Lobby => Kind::Lobby,
        Phase::Question { .. } => Kind::Question,
        Phase::Reveal { .. } => Kind::Reveal,
        Phase::Standings { .. } => Kind::Standings,
        Phase::Podium { .. } => Kind::Podium,
    }
}

/// Whole seconds in `ms` milliseconds, rounded up.
pub open spec fn ceil_seconds(ms: u32) -> u32 {
    (ms / 1000 + if ms % 1000 == 0 {
        0u32
    } else {
        1u32
    }) as u32
}

/// Whole seconds left on a countdown, rounded up: the counter shows 1 until
/// the very end.
pub fn seconds_left(remaining_ms: u32) -> (r: u32)
    ensures
        r == ceil_seconds(remaining_ms),
{
    remaining_ms / 1000 + if remaining_ms % 1000 == 0 {
        0
    } else {
        1
    }
}

/// A sound the Deck plays.
#[derive(Clone, Copy, Debug, PartialEq, Eq, Structural)]
pub enum Sound {
    Join,
    Start,
    Question,
    Lock,
    Tick,
    Correct,
    Wrong,
    Standings,
    Fanfare,
}

/// One thing the strip or the speaker does; a frame's cues run in order.
#[derive(Clone, Copy, Debug, PartialEq, Eq, Structural)]
pub enum Cue {
    /// Stop whatever the strip shows.
    LightsOff,
    /// A solid flash in a newcomer's colour.
    JoinFlash(PlayerColor),
    /// The reveal's breathing glow: green when at least half the connected
    /// players had the answer, red otherwise.
    RevealGlow { majority: bool },
    /// A chase in the winner's colour.
    WinnerChase(PlayerColor),
    /// The accent chase warning that the countdown is ending, running for the
    /// milliseconds left (at least one).
    CountdownChase(u32),
    /// Play a sound.
    Play(Sound),
}

/// What the effects remember between frames.
#[derive(Clone, Copy, Debug, PartialEq, Eq, Structural)]
pub struct FrameMemory {
    /// The screen of the last frame.
    pub kind: Kind,
    /// Connected players on the last lobby frame.
    pub players: usize,
    /// Seconds on the countdown on the last question frame.
    pub second: u32,
    /// Whether this question's countdown warning fired.
    pub warned: bool,
    /// Answers locked as of the last question frame.
    pub answered: usize,
}

impl FrameMemory {
    /// Memory before the first frame: the lobby, nobody seen yet.
    pub fn new() -> (m: FrameMemory)
        ensures
            m == (FrameMemory {
                kind: Kind::Lobby,
                players: 0,
                second: u32::MAX,
                warned: false,
                answered: 0,
            }),
    {
        FrameMemory { kind: Kind::Lobby, players: 0, second: u32::MAX, warned: false, answered: 0 }
    }
}

/// The answer of the question on screen, if any.
pub open spec fn correct_choice(v: GameView) -> Option<usize> {
    match v.current_question() {
        Some(q) => Some(q.correct),
        None => None,
    }
}

/// How many of the players in `s` locked `correct`.
pub open spec fn right_count(s: Seq<Player>, correct: Option<usize>) -> nat
    decreases s.len(),
{
    if s.len() == 0 {
        0
    } else {
        right_count(s.drop_last(), correct) + if s.last().answer matches Some(a) && correct == Some(
            a.choice,
        ) {
            1nat
        } else {
            0nat
        }
    }
}

/// Connected players who had the answer, and how many were connected.
pub open spec fn share_of(v: GameView) -> (nat, nat) {
    (
        right_count(connected_players(v.players), correct_choice(v)),
        connected_players(v.players).len(),
    )
}

proof fn lemma_right_count_bound(s: Seq<Player>, correct: Option<usize>)
    ensures
        right_count(s, correct) <= s.len(),
    decreases s.len(),
{
    if s.len() > 0 {
        lemma_right_count_bound(s.drop_last(), correct);
    }
}

/// Connected players who had the answer, and how many were connected.
pub fn correct_share(game: &Game) -> (r: (usize, usize))
    ensures
        r.0 == share_of(game@).0,
        r.1 == share_of(game@).1,
{
    let correct: Option<usize> = match game.current_question() {
        Some(q) => Some(q.correct),
        None => None,
    };
    let connected = game.connected();
    let ghost c = connected_players(game@.players);
    let mut right: usize = 0;
    let mut i: usize = 0;
    while i < connected.len()
        invariant
            i <= c.len(),
            connected@.unref() == c,
            correct == correct_choice(game@),
            right == right_count(c.take(i as int), correct),
            right <= i,
        decreases connected.len() - i,
    {
        proof {
            assert(c.take(i + 1).drop_last() =~= c.take(i as int));
            assert(connected@.unref()[i as int] == *connected@[i as int]);
        }
        let hit = match connected[i].answer {
            Some(a) => match correct {
                Some(k) => a.choice == k,
                None => false,
            },
            None => false,
        };
        if hit {
            right = right + 1;
        }
        i = i + 1;
    }
    assert(c.take(c.len() as int) =~= c);
    (right, connected.len())
}

/// A sound, when sounds are on.
pub open spec fn sound_if(sounds: bool, s: Sound) -> Seq<Cue> {
    if sounds {
        seq![Cue::Play(s)]
    } else {
        Seq::empty()
    }
}

/// The cues of entering screen `k`.
pub open spec fn enter_cues(k: Kind, v: GameView, sounds: bool) -> Seq<Cue> {
    match k {
        Kind::Lobby => seq![Cue::LightsOff],
        Kind::Question => seq![Cue::LightsOff] + sound_if(
            sounds,
            if v.phase matches Phase::Question { index: 0, .. } {
                Sound::Start
            } else {
                Sound::Question
            },
        ),
        Kind::Reveal => {
            let majority = share_of(v).1 > 0 && share_of(v).0 * 2 >= share_of(v).1;
            seq![Cue::RevealGlow { majority }] + sound_if(
                sounds,
                if majority {
                    Sound::Correct
                } else {
                    Sound::Wrong
                },
            )
        },
        Kind::Standings => sound_if(sounds, Sound::Standings),
        Kind::Podium => (if ranked(v.players).len() > 0 {
            seq![Cue::WinnerChase(ranked(v.players)[0].color)]
        } else {
            Seq::empty()
        }) + sound_if(sounds, Sound::Fanfare),
    }
}

/// The memory right after entering screen `k`.
pub open spec fn entered_memory(m: FrameMemory, k: Kind, v: GameView) -> FrameMemory {
    match k {
        Kind::Lobby => FrameMemory { kind: k, players: connected_players(v.players).len() as usize, ..m },
        Kind::Question => FrameMemory { kind: k, second: u32::MAX, warned: false, answered: 0, ..m },
        _ => FrameMemory { kind: k, ..m },
    }
}

/// The memory at the start of a frame's own cues: updated for the screen
/// entered, if the screen changed.
pub open spec fn frame_start(m: FrameMemory, v: GameView) -> FrameMemory {
    let now = kind_of(v.phase);
    if now != m.kind {
        entered_memory(m, now, v)
    } else {
        m
    }
}

/// The cues of a lobby frame: a flash and a chime when someone joined.
pub open spec fn lobby_cues(m: FrameMemory, v: GameView, sounds: bool) -> Seq<Cue> {
    let c = connected_players(v.players);
    if c.len() > m.players && c.len() > 0 {
        seq![Cue::JoinFlash(c.last().color)] + sound_if(sounds, Sound::Join)
    } else {
        Seq::empty()
    }
}

/// The cues of a question frame: the warning chase once the last seconds
/// start, a tick on each of the final seconds, a click when an answer locks.
pub open spec fn question_cues(m: FrameMemory, v: GameView, sounds: bool) -> Seq<Cue> {
    let remaining = v.remaining_ms();
    let secs = ceil_seconds(remaining);
    (if secs <= WARN_FROM_S && !m.warned {
        seq![Cue::CountdownChase(if remaining > 1 { remaining } else { 1 })]
    } else {
        Seq::empty()
    }) + (if sounds && secs != m.second && secs > 0 && secs <= TICK_FROM_S {
        seq![Cue::Play(Sound::Tick)]
    } else {
        Seq::empty()
    }) + (if sounds && answered_players(v.players).len() > m.answered {
        seq![Cue::Play(Sound::Lock)]
    } else {
        Seq::empty()
    })
}

/// Everything a frame fires, in order.
pub open spec fn frame_cue_list(m: FrameMemory, v: GameView, sounds: bool) -> Seq<Cue> {
    let now = kind_of(v.phase);
    let start = frame_start(m, v);
    (if now != m.kind {
        enter_cues(now, v, sounds)
    } else {
        Seq::empty()
    }) + match now {
        Kind::Lobby => lobby_cues(start, v, sounds),
        Kind::Question => question_cues(start, v, sounds),
        _ => Seq::empty(),
    }
}

/// The memory after a frame.
pub open spec fn frame_memory(m: FrameMemory, v: GameView) -> FrameMemory {
    let start = frame_start(m, v);
    match kind_of(v.phase) {
        Kind::Lobby => FrameMemory { players: connected_players(v.players).len() as usize, ..start },
        Kind::Question => {
            let secs = ceil_seconds(v.remaining_ms());
            FrameMemory {
                second: secs,
                warned: start.warned || secs <= WARN_FROM_S,
                answered: answered_players(v.players).len() as usize,
                ..start
            }
        },
        _ => start,
    }
}

/// The screen a frame entered, when the screen changed.
pub open spec fn frame_entered(m: FrameMemory, v: GameView) -> Option<Kind> {
    if kind_of(v.phase) != m.kind {
        Some(kind_of(v.phase))
    } else {
        None
    }
}

fn push_sound(cues: &mut Vec<Cue>, sounds: bool, s: Sound)
    ensures
        final(cues)@ == old(cues)@ + sound_if(sounds, s),
{
    if sounds {
        cues.push(Cue::Play(s));
    }
    assert(final(cues)@ =~= old(cues)@ + sound_if(sounds, s)) by {
        if !sounds {
            assert(old(cues)@ + Seq::<Cue>::empty() =~= old(cues)@);
        }
    }
}

fn push_enter_cues(cues: &mut Vec<Cue>, k: Kind, game: &Game, sounds: bool)
    requires
        game@.wf(),
    ensures
        final(cues)@ == old(cues)@ + enter_cues(k, game@, sounds),
{
    let ghost start = cues@;
    match k {
        Kind::Lobby => {
            cues.push(Cue::LightsOff);
        },
        Kind::Question => {
            cues.push(Cue::LightsOff);
            let first = match game.phase() {
                Phase::Question { index, .. } => index == 0,
                _ => false,
            };
            push_sound(cues, sounds, if first { Sound::Start } else { Sound::Question });
        },
        Kind::Reveal => {
            let (right, total) = correct_share(game);
            proof {
                lemma_right_count_bound(
                    connected_players(game@.players),
                    correct_choice(game@),
                );
            }
            let majority = total > 0 && right >= total - right;
            cues.push(Cue::RevealGlow { majority });
            push_sound(cues, sounds, if majority { Sound::Correct } else { Sound::Wrong });
        },
        Kind::Standings => {
            push_sound(cues, sounds, Sound::Standings);
        },
        Kind::Podium => {
            let ranked_players = game.standings();
            if ranked_players.len() > 0 {
                assert(ranked_players@.unref()[0] == *ranked_players@[0]);
                cues.push(Cue::WinnerChase(ranked_players[0].color));
            }
            push_sound(cues, sounds, Sound::Fanfare);
        },
    }
    assert(cues@ =~= start + enter_cues(k, game@, sounds));
}

/// One frame's effects, after the game ticked: the memory for the next
/// frame, the screen entered on this frame if the phase changed (so the
/// caller can do its own bookkeeping), and the cues to fire, in order.
pub fn frame_cues(memory: FrameMemory, game: &Game, sounds: bool) -> (r: (
    FrameMemory,
    Option<Kind>,
    Vec<Cue>,
))
    requires
        game@.wf(),
    ensures
        r.0 == frame_memory(memory, game@),
        r.1 == frame_entered(memory, game@),
        r.2@ == frame_cue_list(memory, game@, sounds),
{
    let now = kind(game.phase());
    let mut m = memory;
    let mut cues: Vec<Cue> = Vec::new();
    let entered = if now != memory.kind {
        Some(now)
    } else {
        None
    };
    if now != memory.kind {
        push_enter_cues(&mut cues, now, game, sounds);
        m.kind = now;
        match now {
            Kind::Lobby => {
                m.players = game.connected().len();
            },
            Kind::Question => {
                m.warned = false;
                m.second = u32::MAX;
                m.answered = 0;
            },
            _ => {},
        }
    } else {
        assert(cues@ =~= Seq::<Cue>::empty());
    }
    assert(m == frame_start(memory, game@));
    let ghost before = cues@;
    match now {
        Kind::Lobby => {
            let connected = game.connected();
            let count = connected.len();
            let seen = m.players;
            m.players = count;
            if count > seen && count > 0 {
                assert(connected@.unref()[count - 1] == *connected@[count - 1]);
                cues.push(Cue::JoinFlash(connected[count - 1].color));
                push_sound(&mut cues, sounds, Sound::Join);
            }
        },
        Kind::Question => {
            let remaining = game.remaining_ms();
            let secs = seconds_left(remaining);
            let last_second = m.second;
            m.second = secs;
            if secs <= WARN_FROM_S && !m.warned {
                m.warned = true;
                cues.push(Cue::CountdownChase(if remaining > 1 { remaining } else { 1 }));
            }
            if sounds && secs != last_second && secs > 0 && secs <= TICK_FROM_S {
                cues.push(Cue::Play(Sound::Tick));
            }
            let answered = game.answered_count();
            let seen = m.answered;
            m.answered = answered;
            if sounds && answered > seen {
                cues.push(Cue::Play(Sound::Lock));
            }
        },
        _ => {},
    }
    assert(cues@ =~= before + match now {
        Kind::Lobby => lobby_cues(frame_start(memory, game@), game@, sounds),
        Kind::Question => question_cues(frame_start(memory, game@), game@, sounds),
        _ => Seq::empty(),
    });
    (m, entered, cues)
}

/// Entering a screen is reported exactly on the frame the screen changes,
/// and the next frame on the same screen reports nothing.
pub proof fn lemma_entered_once(m: FrameMemory, v: GameView)
    ensures
        frame_entered(m, v) is Some <==> kind_of(v.phase) != m.kind,
        frame_memory(m, v).kind == kind_of(v.phase),
        frame_entered(frame_memory(m, v), v) is None,
{
}

/// With sounds off, a frame plays no sound.
pub proof fn lemma_sounds_off_is_silent(m: FrameMemory, v: GameView, s: Sound)
    ensures
        !frame_cue_list(m, v, false).contains(Cue::Play(s)),
{
    let cues = frame_cue_list(m, v, false);
    if cues.contains(Cue::Play(s)) {
        let k = choose|k: int| 0 <= k < cues.len() && cues[k] == Cue::Play(s);
        assert(false);
    }
}

/// The countdown warning fires at most once per question: once it fired,
/// later frames of the same question fire no other.
pub proof fn lemma_warning_fires_once(m: FrameMemory, v: GameView, sounds: bool, ms: u32)
    requires
        m.kind == Kind::Question,
        m.warned,
        kind_of(v.phase) == Kind::Question,
    ensures
        !frame_cue_list(m, v, sounds).contains(Cue::CountdownChase(ms)),
        frame_memory(m, v).warned,
{
    let cues = frame_cue_list(m, v, sounds);
    if cues.contains(Cue::CountdownChase(ms)) {
        let k = choose|k: int| 0 <= k < cues.len() && cues[k] == Cue::CountdownChase(ms);
        assert(false);
    }
}

} // verus!
