//! The phone controller endpoint: a tiny HTTP API over the Deck's listener.
//!
//! A request comes in as method, path, and body, and a [`Response`] goes
//! out. The Deck owns the listener and the [`Game`]; this module owns the
//! routes, the form parsing, and the JSON the phones poll.
use vstd::prelude::*;
use vstd::string::*;
use vstd::utf8::*;

use vstd::slice::slice_to_vec;

use crate::model::{
    ANSWER_COUNT, ActionError, Answer, Game, GameView, JoinError, MAX_PLAYERS, Phase, Player,
    PlayerColor, Question, answered_players, color_from_wire, color_wire, decimal, difficulty_label,
    host_index, is_joined, next_version, join_refusal, phase_index, push_usize, ranked, token_index,
    lemma_ranked_orders_players, ranks_before,
};
use crate::text::{
    chars_vec, first_index, parse_decimal, parse_u64, parse_usize, push_char, split_all, split_on,
    split_once_char, str_eq,
};

verus! {

// ── Wire helpers ─────────────────────────────────────────────────────

/// A request target split into its path and query string.
pub open spec fn query_split(target: Seq<char>) -> (Seq<char>, Seq<char>) {
    match first_index(target, '?') {
        Some(i) => (target.take(i), target.skip(i + 1)),
        None => (target, Seq::empty()),
    }
}

/// Split a request target into its path and query string.
pub fn split_query(target: &str) -> (r: (&str, &str))
    ensures
        (r.0@, r.1@) == query_split(target@),
{
    match split_once_char(target, '?') {
        Some(parts) => parts,
        None => {
            proof {
                reveal_strlit("");
            }
            (target, "")
        },
    }
}

/// The value of a hex digit byte.
pub open spec fn hex_digit_value(b: u8) -> Option<u8> {
    if 0x30 <= b <= 0x39 {
        Some((b - 0x30) as u8)
    } else if 0x61 <= b <= 0x66 {
        Some((b - 0x61 + 10) as u8)
    } else if 0x41 <= b <= 0x46 {
        Some((b - 0x41 + 10) as u8)
    } else {
        None
    }
}

fn hex_val(b: u8) -> (r: Option<u8>)
    ensures
        r == hex_digit_value(b),
{
    if 0x30 <= b && b <= 0x39 {
        Some(b - 0x30)
    } else if 0x61 <= b && b <= 0x66 {
        Some(b - 0x61 + 10)
    } else if 0x41 <= b && b <= 0x46 {
        Some(b - 0x41 + 10)
    } else {
        None
    }
}

/// Form decoding of bytes: `+` is a space, `%XX` with two hex digits is
/// that byte, anything else (a lone or malformed `%` too) stays as typed.
pub open spec fn percent_bytes(b: Seq<u8>) -> Seq<u8>
    decreases b.len(),
{
    if b.len() == 0 {
        Seq::empty()
    } else if b[0] == 0x2b {
        seq![0x20u8] + percent_bytes(b.skip(1))
    } else if b[0] == 0x25 && 2 < b.len() && hex_digit_value(b[1]) is Some && hex_digit_value(
        b[2],
    ) is Some {
        seq![(hex_digit_value(b[1])->0 * 16 + hex_digit_value(b[2])->0) as u8] + percent_bytes(
            b.skip(3),
        )
    } else {
        seq![b[0]] + percent_bytes(b.skip(1))
    }
}

/// What `String::from_utf8_lossy` makes of a byte sequence.
pub uninterp spec fn utf8_lossy(b: Seq<u8>) -> Seq<char>;

/// `String::from_utf8_lossy`, owned: the text the bytes encode, with each
/// invalid sequence replaced by U+FFFD; valid UTF-8 decodes unchanged.
#[verifier::external_body]
fn lossy_string(bytes: &[u8]) -> (r: String)
    ensures
        r@ == utf8_lossy(bytes@),
        valid_utf8(bytes@) ==> r@ == decode_utf8(bytes@),
{
    String::from_utf8_lossy(bytes).into_owned()
}

/// The text a form field decodes to: the UTF-8 its decoded bytes encode, or,
/// when they are not UTF-8, what `String::from_utf8_lossy` makes of them.
pub open spec fn percent_decoded(s: Seq<char>) -> Seq<char> {
    let b = percent_bytes(encode_utf8(s));
    if valid_utf8(b) {
        decode_utf8(b)
    } else {
        utf8_lossy(b)
    }
}

/// Decode `+` and `%XX` escapes; malformed escapes are kept as typed.
pub fn percent_decode(s: &str) -> (r: String)
    ensures
        r@ == percent_decoded(s@),
        valid_utf8(percent_bytes(encode_utf8(s@))) ==> r@ == decode_utf8(
            percent_bytes(encode_utf8(s@)),
        ),
{
    let bytes = s.as_bytes();
    let mut out: Vec<u8> = Vec::new();
    let mut i: usize = 0;
    assert(bytes@.skip(0) =~= bytes@);
    assert(out@ + percent_bytes(bytes@) =~= percent_bytes(bytes@));
    while i < bytes.len()
        invariant
            i <= bytes@.len(),
            bytes@ == encode_utf8(s@),
            percent_bytes(bytes@) == out@ + percent_bytes(bytes@.skip(i as int)),
        decreases bytes.len() - i,
    {
        let ghost rest = bytes@.skip(i as int);
        let b = bytes[i];
        assert(rest[0] == b);
        if b == 0x2b {
            out.push(0x20);
            assert(rest.skip(1) =~= bytes@.skip(i + 1));
            i = i + 1;
        } else if b == 0x25 && bytes.len() - i > 2 {
            assert(rest[1] == bytes@[i + 1] && rest[2] == bytes@[i + 2]);
            match (hex_val(bytes[i + 1]), hex_val(bytes[i + 2])) {
                (Some(hi), Some(lo)) => {
                    out.push(hi * 16 + lo);
                    assert(rest.skip(3) =~= bytes@.skip(i + 3));
                    i = i + 3;
                },
                _ => {
                    out.push(0x25);
                    assert(rest.skip(1) =~= bytes@.skip(i + 1));
                    i = i + 1;
                },
            }
        } else {
            out.push(b);
            assert(rest.skip(1) =~= bytes@.skip(i + 1));
            i = i + 1;
        }
        assert(out@ + percent_bytes(bytes@.skip(i as int)) =~= out@ + percent_bytes(
            bytes@.skip(i as int),
        ));
    }
    assert(bytes@.skip(i as int) =~= Seq::<u8>::empty());
    assert(out@ + Seq::<u8>::empty() =~= out@);
    lossy_string(out.as_slice())
}

proof fn lemma_percent_plain(b: Seq<u8>)
    requires
        forall|i: int| 0 <= i < b.len() ==> #[trigger] b[i] != 0x2b && b[i] != 0x25,
    ensures
        percent_bytes(b) == b,
    decreases b.len(),
{
    if b.len() > 0 {
        let t = b.skip(1);
        assert forall|i: int| 0 <= i < t.len() implies #[trigger] t[i] != 0x2b && t[i] != 0x25 by {
            assert(t[i] == b[i + 1]);
        }
        lemma_percent_plain(t);
        assert(seq![b[0]] + t =~= b);
    }
}

/// An ASCII field without `+` or `%` decodes to itself: tokens, colours,
/// actions, choices and versions as a phone sends them.
pub proof fn lemma_plain_field(s: Seq<char>)
    requires
        is_ascii_chars(s),
        !s.contains('+'),
        !s.contains('%'),
    ensures
        percent_decoded(s) == s,
{
    let b = encode_utf8(s);
    is_ascii_chars_encode_utf8(s);
    assert forall|i: int| 0 <= i < b.len() implies #[trigger] b[i] != 0x2b && b[i] != 0x25 by {
        assert(s[i] as u8 == b[i]);
        assert('\0' <= s[i] <= '\u{7f}');
        if b[i] == 0x2b {
            assert(s[i] == '+');
        }
        if b[i] == 0x25 {
            assert(s[i] == '%');
        }
    }
    lemma_percent_plain(b);
    encode_utf8_valid_utf8(s);
    encode_utf8_decode_utf8(s);
}

/// The key of a `key=value` pair (the whole pair when there is no `=`).
pub open spec fn pair_key(p: Seq<char>) -> Seq<char> {
    match first_index(p, '=') {
        Some(i) => p.take(i),
        None => p,
    }
}

/// The raw value of a `key=value` pair (empty when there is no `=`).
pub open spec fn pair_value(p: Seq<char>) -> Seq<char> {
    match first_index(p, '=') {
        Some(i) => p.skip(i + 1),
        None => Seq::empty(),
    }
}

/// The raw value of the first pair with `key`.
pub open spec fn first_value(pairs: Seq<Seq<char>>, key: Seq<char>) -> Option<Seq<char>>
    decreases pairs.len(),
{
    if pairs.len() == 0 {
        None
    } else if pair_key(pairs[0]) == key {
        Some(pair_value(pairs[0]))
    } else {
        first_value(pairs.skip(1), key)
    }
}

/// The decoded value of `key` in a form body or query string.
pub open spec fn form_lookup(form: Seq<char>, key: Seq<char>) -> Option<Seq<char>> {
    match first_value(split_on(form, '&'), key) {
        Some(v) => Some(percent_decoded(v)),
        None => None,
    }
}

/// Look up one key in an `application/x-www-form-urlencoded` body or query.
pub fn form_value(form: &str, key: &str) -> (r: Option<String>)
    ensures
        r is Some == form_lookup(form@, key@) is Some,
        r matches Some(v) ==> v@ == form_lookup(form@, key@)->0,
        r matches Some(v) ==> first_value(split_on(form@, '&'), key@) matches Some(raw) && (
        valid_utf8(percent_bytes(encode_utf8(raw))) ==> v@ == decode_utf8(
            percent_bytes(encode_utf8(raw)),
        )),
{
    let pairs = split_all(form, '&');
    let ghost ps = split_on(form@, '&');
    assert(ps.skip(0) =~= ps);
    let mut k: usize = 0;
    while k < pairs.len()
        invariant
            pairs@.map_values(|x: &str| x@) == ps,
            ps == split_on(form@, '&'),
            k <= pairs@.len(),
            first_value(ps, key@) == first_value(ps.skip(k as int), key@),
        decreases pairs.len() - k,
    {
        let pair = pairs[k];
        assert(pairs@.map_values(|x: &str| x@)[k as int] == pair@);
        assert(ps.skip(k as int)[0] == pair@);
        assert(ps.skip(k as int).skip(1) =~= ps.skip(k + 1));
        proof {
            reveal_strlit("");
        }
        let (name, value) = match split_once_char(pair, '=') {
            Some(parts) => parts,
            None => (pair, ""),
        };
        if str_eq(name, key) {
            return Some(percent_decode(value));
        }
        k = k + 1;
    }
    assert(ps.skip(k as int).len() == 0);
    None
}

fn token_from(body: &str) -> (r: Option<u64>)
    ensures
        r == match form_lookup(body@, "t"@) {
            Some(t) => hex_number(encode_utf8(t)),
            None => None,
        },
{
    match form_value(body, "t") {
        Some(t) => parse_hex(t.as_str()),
        None => None,
    }
}

/// Hex digits, most significant first, folded into a number.
pub open spec fn hex_fold(b: Seq<u8>) -> Option<u64>
    decreases b.len(),
{
    if b.len() == 0 {
        Some(0)
    } else {
        match (hex_fold(b.drop_last()), hex_digit_value(b.last())) {
            (Some(acc), Some(v)) => Some((acc << 4u64) | (v as u64)),
            _ => None,
        }
    }
}

/// A token: one to sixteen hex digits.
pub open spec fn hex_number(b: Seq<u8>) -> Option<u64> {
    if b.len() == 0 || b.len() > 16 {
        None
    } else {
        hex_fold(b)
    }
}

/// Parse a token as up to sixteen hex digits.
pub fn parse_hex(s: &str) -> (r: Option<u64>)
    ensures
        r == hex_number(encode_utf8(s@)),
{
    let bytes = s.as_bytes();
    if bytes.len() == 0 || bytes.len() > 16 {
        return None;
    }
    let mut acc: u64 = 0;
    let mut i: usize = 0;
    while i < bytes.len()
        invariant
            i <= bytes@.len(),
            bytes@ == encode_utf8(s@),
            hex_fold(bytes@.take(i as int)) == Some(acc),
        decreases bytes.len() - i,
    {
        assert(bytes@.take(i + 1).drop_last() =~= bytes@.take(i as int));
        match hex_val(bytes[i]) {
            Some(v) => {
                acc = (acc << 4u64) | (v as u64);
            },
            None => {
                proof {
                    lemma_hex_fold_none(bytes@, i + 1);
                }
                return None;
            },
        }
        i = i + 1;
    }
    assert(bytes@.take(i as int) =~= bytes@);
    Some(acc)
}

proof fn lemma_hex_fold_none(b: Seq<u8>, k: int)
    requires
        0 < k <= b.len(),
        hex_fold(b.take(k)) is None,
    ensures
        hex_fold(b) is None,
    decreases b.len() - k,
{
    if k < b.len() {
        assert(b.take(k + 1).drop_last() =~= b.take(k));
        lemma_hex_fold_none(b, k + 1);
    } else {
        assert(b.take(k) =~= b);
    }
}

/// The lowercase hex digit for `v` (`v < 16`).
pub open spec fn hex_char(v: u64) -> char {
    if v < 10 {
        (0x30 + v) as char
    } else {
        (0x61 + v - 10) as char
    }
}

fn hex_digit(v: u64) -> (c: char)
    requires
        v < 16,
    ensures
        c == hex_char(v),
{
    if v < 10 {
        ((0x30 + v) as u8) as char
    } else {
        ((0x61 + v - 10) as u8) as char
    }
}

/// The last `count` hex digits of `n`, most significant first.
pub open spec fn hex_digits(n: u64, count: nat) -> Seq<char>
    decreases count,
{
    if count == 0 {
        Seq::empty()
    } else {
        hex_digits(n >> 4u64, (count - 1) as nat).push(hex_char(n & 0xf))
    }
}

fn push_hex_digits(out: &mut String, n: u64, count: usize)
    ensures
        final(out)@ == old(out)@ + hex_digits(n, count as nat),
    decreases count,
{
    if count > 0 {
        push_hex_digits(out, n >> 4u64, count - 1);
        assert(n & 0xf < 16) by (bit_vector);
        push_char(out, hex_digit(n & 0xf));
        assert(old(out)@ + hex_digits(n, count as nat) =~= old(out)@ + hex_digits(
            n >> 4u64,
            (count - 1) as nat,
        ) + seq![hex_char(n & 0xf)]);
    } else {
        assert(old(out)@ + Seq::<char>::empty() =~= old(out)@);
    }
}

/// Append `n` as sixteen lowercase hex digits.
pub fn push_hex(out: &mut String, n: u64)
    ensures
        final(out)@ == old(out)@ + hex_digits(n, 16),
{
    push_hex_digits(out, n, 16);
}

/// `n` in decimal as `push_u64` writes it: clamped to `usize::MAX`.
pub open spec fn decimal_u64(n: u64) -> Seq<char> {
    if n <= usize::MAX {
        decimal(n as nat)
    } else {
        decimal(usize::MAX as nat)
    }
}

fn push_u32(out: &mut String, n: u32)
    ensures
        final(out)@ == old(out)@ + decimal(n as nat),
{
    push_usize(out, n as usize);
}

fn push_u64(out: &mut String, n: u64)
    ensures
        final(out)@ == old(out)@ + decimal_u64(n),
{
    if n <= usize::MAX as u64 {
        push_usize(out, n as usize);
    } else {
        push_usize(out, usize::MAX);
    }
}

/// How a character is written inside a JSON string.
pub open spec fn json_escape(c: char) -> Seq<char> {
    if c == '"' {
        seq!['\\', '"']
    } else if c == '\\' {
        seq!['\\', '\\']
    } else if c == '\n' {
        seq!['\\', 'n']
    } else if c == '\r' {
        seq!['\\', 'r']
    } else if c == '\t' {
        seq!['\\', 't']
    } else if (c as u32) < 0x20 {
        seq![
            '\\',
            'u',
            '0',
            '0',
            hex_char(((c as u32) / 16) as u64),
            hex_char(((c as u32) % 16) as u64),
        ]
    } else {
        seq![c]
    }
}

/// The characters of a text, each as written inside a JSON string.
pub open spec fn json_escaped(s: Seq<char>) -> Seq<char>
    decreases s.len(),
{
    if s.len() == 0 {
        Seq::empty()
    } else {
        json_escaped(s.drop_last()) + json_escape(s.last())
    }
}

/// A text as a JSON string literal, quotes included.
pub open spec fn json_str(s: Seq<char>) -> Seq<char> {
    seq!['"'] + json_escaped(s) + seq!['"']
}

/// Append `s` as a JSON string literal, quotes included.
pub fn push_json_str(out: &mut String, s: &str)
    ensures
        final(out)@ == old(out)@ + json_str(s@),
{
    push_char(out, '"');
    let chars = chars_vec(s);
    let mut i: usize = 0;
    while i < chars.len()
        invariant
            i <= chars@.len(),
            chars@ == s@,
            out@ == old(out)@ + seq!['"'] + json_escaped(chars@.take(i as int)),
        decreases chars.len() - i,
    {
        let c = chars[i];
        let ghost before = out@;
        if c == '"' {
            push_char(out, '\\');
            push_char(out, '"');
        } else if c == '\\' {
            push_char(out, '\\');
            push_char(out, '\\');
        } else if c == '\n' {
            push_char(out, '\\');
            push_char(out, 'n');
        } else if c == '\r' {
            push_char(out, '\\');
            push_char(out, 'r');
        } else if c == '\t' {
            push_char(out, '\\');
            push_char(out, 't');
        } else if (c as u32) < 0x20 {
            let code = c as u32;
            push_char(out, '\\');
            push_char(out, 'u');
            push_char(out, '0');
            push_char(out, '0');
            push_char(out, hex_digit((code / 16) as u64));
            push_char(out, hex_digit((code % 16) as u64));
        } else {
            push_char(out, c);
        }
        assert(out@ =~= before + json_escape(c));
        assert(chars@.take(i + 1).drop_last() =~= chars@.take(i as int));
        assert(json_escaped(chars@.take(i + 1)) == json_escaped(chars@.take(i as int)) + json_escape(c));
        assert(out@ =~= old(out)@ + seq!['"'] + json_escaped(chars@.take(i + 1)));
        i = i + 1;
    }
    assert(chars@.take(chars@.len() as int) =~= chars@);
    push_char(out, '"');
    assert(out@ =~= old(out)@ + json_str(s@));
}

/// The number the last `count` hex digits of `n` stand for.
pub open spec fn low_nibbles(n: u64, count: nat) -> u64 {
    if count >= 16 {
        n
    } else {
        n & (((1u64 << ((4 * count) as u64)) - 1) as u64)
    }
}

proof fn lemma_hex_char(v: u64)
    requires
        v < 16,
    ensures
        '\0' <= hex_char(v) <= '\u{7f}',
        hex_digit_value(hex_char(v) as u8) == Some(v as u8),
{
}

proof fn lemma_hex_digits_ascii(n: u64, count: nat)
    ensures
        hex_digits(n, count).len() == count,
        is_ascii_chars(hex_digits(n, count)),
    decreases count,
{
    if count > 0 {
        lemma_hex_digits_ascii(n >> 4u64, (count - 1) as nat);
        assert(n & 0xf < 16) by (bit_vector);
        lemma_hex_char(n & 0xf);
    }
}

proof fn lemma_nibble_step(n: u64, count: u64)
    requires
        1 <= count <= 16,
    ensures
        ((low_nibbles(n >> 4u64, (count - 1) as nat) << 4u64) | (n & 0xf)) == low_nibbles(
            n,
            count as nat,
        ),
{
    if count == 16 {
        assert((((n >> 4u64) & 0x0fff_ffff_ffff_ffffu64) << 4u64) | (n & 0xf) == n)
            by (bit_vector);
        assert((((1u64 << 60u64) - 1) as u64) == 0x0fff_ffff_ffff_ffffu64) by (bit_vector);
    } else {
        let c = count;
        assert(((((n >> 4u64) & (((1u64 << ((4 * (c - 1)) as u64)) - 1) as u64)) << 4u64) | (n
            & 0xf)) == n & (((1u64 << ((4 * c) as u64)) - 1) as u64)) by (bit_vector)
            requires
                1 <= c <= 15,
        ;
    }
}

proof fn lemma_hex_fold_digits(n: u64, count: nat)
    requires
        count <= 16,
    ensures
        hex_fold(encode_utf8(hex_digits(n, count))) == Some(low_nibbles(n, count)),
    decreases count,
{
    if count == 0 {
        assert(n & (((1u64 << 0u64) - 1) as u64) == 0) by (bit_vector);
        assert(encode_utf8(Seq::<char>::empty()) =~= Seq::<u8>::empty());
    } else {
        let d = hex_digits(n, count);
        let p = hex_digits(n >> 4u64, (count - 1) as nat);
        lemma_hex_fold_digits(n >> 4u64, (count - 1) as nat);
        lemma_hex_digits_ascii(n, count);
        lemma_hex_digits_ascii(n >> 4u64, (count - 1) as nat);
        is_ascii_chars_encode_utf8(d);
        is_ascii_chars_encode_utf8(p);
        let b = encode_utf8(d);
        let bp = encode_utf8(p);
        assert(b.drop_last() =~= bp) by {
            assert forall|i: int| 0 <= i < bp.len() implies b[i] == bp[i] by {
                assert(d[i] == p[i]);
            }
        }
        assert(n & 0xf < 16) by (bit_vector);
        lemma_hex_char(n & 0xf);
        assert(b.last() == hex_char(n & 0xf) as u8);
        lemma_nibble_step(n, count as u64);
    }
}

/// Sixteen hex digits written by `push_hex` read back, through `parse_hex`,
/// as the same number: a phone's token survives the round trip.
pub proof fn lemma_hex_round_trip(n: u64)
    ensures
        hex_number(encode_utf8(hex_digits(n, 16))) == Some(n),
{
    lemma_hex_fold_digits(n, 16);
    lemma_hex_digits_ascii(n, 16);
    is_ascii_chars_encode_utf8(hex_digits(n, 16));
}

// ── Snapshot ─────────────────────────────────────────────────────────

/// How often, in milliseconds, the phone page polls `/state` while a
/// question is open. The page reads this from the snapshot.
pub const POLL_FAST_MS: u32 = 400;

/// Poll interval outside a question.
pub const POLL_SLOW_MS: u32 = 1_000;

/// The phase name the phone page switches on.
pub open spec fn phase_name(phase: Phase) -> Seq<char> {
    match phase {
        Phase::Lobby => "lobby"@,
        Phase::Question { .. } => "question"@,
        Phase::Reveal { .. } => "reveal"@,
        Phase::Standings { .. } => "standings"@,
        Phase::Podium { .. } => "podium"@,
    }
}

fn phase_label(phase: Phase) -> (r: &'static str)
    ensures
        r@ == phase_name(phase),
{
    match phase {
        Phase::Lobby => "lobby",
        Phase::Question { .. } => "question",
        Phase::Reveal { .. } => "reveal",
        Phase::Standings { .. } => "standings",
        Phase::Podium { .. } => "podium",
    }
}

/// How often the phone should poll in a phase.
pub open spec fn poll_ms(phase: Phase) -> u32 {
    match phase {
        Phase::Question { .. } | Phase::Reveal { .. } => POLL_FAST_MS,
        _ => POLL_SLOW_MS,
    }
}

/// What the phone's Start button says about starting now.
pub open spec fn start_word(blocker: Option<ActionError>) -> Seq<char> {
    match blocker {
        None => "ok"@,
        Some(ActionError::NotEnoughPlayers) => "players"@,
        Some(ActionError::NoQuestions) => "questions"@,
        Some(_) => "phase"@,
    }
}

/// A JSON boolean.
pub open spec fn bool_text(b: bool) -> Seq<char> {
    if b {
        "true"@
    } else {
        "false"@
    }
}

fn push_bool(out: &mut String, b: bool)
    ensures
        final(out)@ == old(out)@ + bool_text(b),
{
    if b {
        out.append("true");
    } else {
        out.append("false");
    }
}

/// The seat of the host, if any.
pub open spec fn host_seat(v: GameView) -> Option<usize> {
    match host_index(v.players) {
        Some(i) => Some(v.players[i].seat),
        None => None,
    }
}

/// One player in the snapshot's list.
pub open spec fn player_json(p: Player, host: Option<usize>) -> Seq<char> {
    "{\"n\":"@ + json_str(p.name@) + ",\"c\":\""@ + color_wire(p.color) + "\",\"s\":"@ + decimal(
        p.score as nat,
    ) + ",\"g\":"@ + decimal(p.last_gain as nat) + ",\"h\":"@ + bool_text(host == Some(p.seat))
        + ",\"a\":"@ + bool_text(p.answer is Some) + ",\"on\":"@ + bool_text(p.connected) + "}"@
}

/// The players, comma-separated.
pub open spec fn player_list(r: Seq<Player>, host: Option<usize>) -> Seq<char>
    decreases r.len(),
{
    if r.len() == 0 {
        Seq::empty()
    } else if r.len() == 1 {
        player_json(r[0], host)
    } else {
        player_list(r.drop_last(), host) + ","@ + player_json(r.last(), host)
    }
}

/// The snapshot's player list, in standings order.
pub open spec fn players_json(v: GameView) -> Seq<char> {
    ",\"players\":["@ + player_list(ranked(v.players), host_seat(v)) + "]"@
}

#[verifier::spinoff_prover]
#[verifier::rlimit(40)]
fn push_player(out: &mut String, p: &Player, host: Option<usize>)
    ensures
        final(out)@ == old(out)@ + player_json(*p, host),
{
    out.append("{\"n\":");
    push_json_str(out, p.name.as_str());
    out.append(",\"c\":\"");
    out.append(p.color.as_wire());
    out.append("\",\"s\":");
    push_u32(out, p.score);
    out.append(",\"g\":");
    push_u32(out, p.last_gain);
    out.append(",\"h\":");
    push_bool(out, host == Some(p.seat));
    out.append(",\"a\":");
    push_bool(out, p.answer.is_some());
    out.append(",\"on\":");
    push_bool(out, p.connected);
    out.append("}");
}

fn push_players(out: &mut String, game: &Game)
    requires
        game@.wf(),
    ensures
        final(out)@ == old(out)@ + players_json(game@),
{
    let host: Option<usize> = match game.host() {
        Some(h) => Some(h.seat),
        None => None,
    };
    let ranked_players = game.standings();
    let ghost r = ranked(game@.players);
    out.append(",\"players\":[");
    let ghost start = out@;
    let mut i: usize = 0;
    while i < ranked_players.len()
        invariant
            ranked_players@.unref() == r,
            i <= r.len(),
            host == host_seat(game@),
            out@ == start + player_list(r.take(i as int), host),
        decreases ranked_players.len() - i,
    {
        if i > 0 {
            out.append(",");
        }
        assert(ranked_players@.unref()[i as int] == *ranked_players@[i as int]);
        push_player(out, ranked_players[i], host);
        assert(r.take(i + 1).drop_last() =~= r.take(i as int));
        assert(r.take(i + 1).last() == r[i as int]);
        if i == 0 {
            assert(r.take(1)[0] == r[0]);
            assert(player_list(r.take(0), host) =~= Seq::<char>::empty());
            assert(out@ =~= start + player_list(r.take(i + 1), host));
        } else {
            assert(out@ =~= start + player_list(r.take(i + 1), host));
        }
        i = i + 1;
    }
    assert(r.take(r.len() as int) =~= r);
    out.append("]");
}

/// The question block of the snapshot: meta only, never question or
/// answer text.
pub open spec fn question_json(v: GameView) -> Seq<char> {
    match v.current_question() {
        Some(q) => ",\"q\":{\"i\":"@ + decimal(
            match phase_index(v.phase) {
                Some(i) => i as nat,
                None => 0,
            },
        ) + ",\"n\":"@ + decimal(v.question_total()) + ",\"cat\":"@ + json_str(q.category@)
            + ",\"diff\":\""@ + difficulty_label(q.difficulty) + "\",\"remaining\":"@ + decimal(
            v.remaining_ms() as nat,
        ) + ",\"total\":"@ + decimal(v.question_time_ms as nat) + ",\"answered\":"@
            + decimal(answered_players(v.players).len()) + "}"@,
        None => Seq::empty(),
    }
}

fn push_question(out: &mut String, game: &Game)
    ensures
        final(out)@ == old(out)@ + question_json(game@),
{
    let q = match game.current_question() {
        Some(q) => q,
        None => {
            assert(old(out)@ + Seq::<char>::empty() =~= old(out)@);
            return;
        },
    };
    let index: usize = match game.phase() {
        Phase::Question { index, .. } | Phase::Reveal { index, .. } | Phase::Standings {
            index,
            ..
        } => index,
        _ => 0,
    };
    out.append(",\"q\":{\"i\":");
    push_usize(out, index);
    out.append(",\"n\":");
    push_usize(out, game.question_total());
    out.append(",\"cat\":");
    push_json_str(out, q.category.as_str());
    out.append(",\"diff\":\"");
    out.append(q.difficulty.label());
    out.append("\",\"remaining\":");
    push_u32(out, game.remaining_ms());
    out.append(",\"total\":");
    push_u32(out, game.question_time_ms());
    out.append(",\"answered\":");
    push_usize(out, game.answered_count());
    out.append("}");
}

/// How many seats locked answer `k`.
pub open spec fn choice_count(s: Seq<Player>, k: usize) -> nat
    decreases s.len(),
{
    if s.len() == 0 {
        0
    } else {
        choice_count(s.drop_last(), k) + if s.last().answer matches Some(a) && a.choice == k {
            1nat
        } else {
            0nat
        }
    }
}

pub(crate) fn count_choice(players: &[Player], k: usize) -> (r: usize)
    ensures
        r == choice_count(players@, k),
{
    let mut n: usize = 0;
    let mut i: usize = 0;
    while i < players.len()
        invariant
            i <= players@.len(),
            n == choice_count(players@.take(i as int), k),
            n <= i,
        decreases players.len() - i,
    {
        assert(players@.take(i + 1).drop_last() =~= players@.take(i as int));
        let hit = match players[i].answer {
            Some(a) => a.choice == k,
            None => false,
        };
        if hit {
            n = n + 1;
        }
        i = i + 1;
    }
    assert(players@.take(i as int) =~= players@);
    n
}

/// Every locked vote counts, whether or not its phone is still connected:
/// the count for answer `k` is the number of seats whose locked answer is
/// `k`.
pub proof fn lemma_vote_count_is_locked_answers(s: Seq<Player>, k: usize)
    ensures
        choice_count(s, k) == s.filter(
            |p: Player| p.answer matches Some(a) && a.choice == k,
        ).len(),
    decreases s.len(),
{
    reveal(Seq::filter);
    if s.len() > 0 {
        lemma_vote_count_is_locked_answers(s.drop_last(), k);
    }
}

/// When every locked answer names one of the four, the four vote counts add
/// up to the number of seats holding a locked answer, connected or not.
pub proof fn lemma_vote_counts_sum_to_locked(s: Seq<Player>)
    requires
        forall|i: int|
            0 <= i < s.len() ==> ((#[trigger] s[i]).answer matches Some(a) ==> a.choice
                < ANSWER_COUNT),
    ensures
        choice_count(s, 0) + choice_count(s, 1) + choice_count(s, 2) + choice_count(s, 3)
            == s.filter(|p: Player| p.answer is Some).len(),
    decreases s.len(),
{
    reveal(Seq::filter);
    if s.len() > 0 {
        let t = s.drop_last();
        assert forall|i: int| 0 <= i < t.len() implies ((#[trigger] t[i]).answer matches Some(a)
            ==> a.choice < ANSWER_COUNT) by {
            assert(t[i] == s[i]);
        }
        lemma_vote_counts_sum_to_locked(t);
        assert(s.last() == s[s.len() - 1]);
    }
}

/// The reveal block of the snapshot: the correct answer, the vote counts,
/// and the explanation when the pack has one.
pub open spec fn reveal_json(v: GameView) -> Seq<char> {
    if v.phase is Reveal || v.phase is Standings {
        match v.current_question() {
            Some(q) => ",\"r\":{\"correct\":"@ + decimal(q.correct as nat) + ",\"counts\":["@
                + decimal(choice_count(v.players, 0)) + ","@ + decimal(choice_count(v.players, 1))
                + ","@ + decimal(choice_count(v.players, 2)) + ","@ + decimal(
                choice_count(v.players, 3),
            ) + "]"@ + match q.why {
                Some(w) => ",\"why\":"@ + json_str(w@),
                None => Seq::empty(),
            } + "}"@,
            None => Seq::empty(),
        }
    } else {
        Seq::empty()
    }
}

fn push_reveal(out: &mut String, game: &Game)
    ensures
        final(out)@ == old(out)@ + reveal_json(game@),
{
    match game.phase() {
        Phase::Reveal { .. } | Phase::Standings { .. } => {},
        _ => {
            assert(old(out)@ + Seq::<char>::empty() =~= old(out)@);
            return;
        },
    }
    let q = match game.current_question() {
        Some(q) => q,
        None => {
            assert(old(out)@ + Seq::<char>::empty() =~= old(out)@);
            return;
        },
    };
    let players = game.players();
    out.append(",\"r\":{\"correct\":");
    push_usize(out, q.correct);
    out.append(",\"counts\":[");
    push_usize(out, count_choice(players, 0));
    out.append(",");
    push_usize(out, count_choice(players, 1));
    out.append(",");
    push_usize(out, count_choice(players, 2));
    out.append(",");
    push_usize(out, count_choice(players, 3));
    out.append("]");
    let ghost mid = out@;
    match &q.why {
        Some(why) => {
            out.append(",\"why\":");
            push_json_str(out, why.as_str());
        },
        None => {
            assert(mid + Seq::<char>::empty() =~= mid);
        },
    }
    out.append("}");
}

/// The 1-based place of `seat` in the ranked list, 0 when absent.
pub open spec fn rank_of(r: Seq<Player>, seat: usize) -> nat
    decreases r.len(),
{
    if r.len() == 0 {
        0
    } else {
        let k = rank_of(r.drop_last(), seat);
        if k > 0 {
            k
        } else if r.last().seat == seat {
            r.len()
        } else {
            0
        }
    }
}

proof fn lemma_rank_of_prefix(r: Seq<Player>, seat: usize, k: int, m: int)
    requires
        0 <= k < r.len(),
        0 <= m <= r.len(),
        r[k].seat == seat,
        forall|j: int| 0 <= j < k ==> (#[trigger] r[j]).seat != seat,
    ensures
        rank_of(r.take(m), seat) == if m > k {
            (k + 1) as nat
        } else {
            0
        },
    decreases m,
{
    if m > 0 {
        lemma_rank_of_prefix(r, seat, k, m - 1);
        assert(r.take(m).drop_last() =~= r.take(m - 1));
        assert(r.take(m).last() == r[m - 1]);
    }
}

proof fn lemma_filter_insert_len(r: Seq<Player>, i: int, x: Player, f: spec_fn(Player) -> bool)
    requires
        0 <= i <= r.len(),
    ensures
        r.insert(i, x).filter(f).len() == r.filter(f).len() + if f(x) {
            1nat
        } else {
            0nat
        },
    decreases r.len(),
{
    reveal(Seq::filter);
    let t = r.insert(i, x);
    if i == r.len() {
        assert(t.drop_last() =~= r);
        assert(t.last() == x);
    } else {
        assert(t.drop_last() =~= r.drop_last().insert(i, x));
        assert(t.last() == r.last());
        lemma_filter_insert_len(r.drop_last(), i, x, f);
    }
}

proof fn lemma_ranked_filter_len(s: Seq<Player>, f: spec_fn(Player) -> bool)
    ensures
        ranked(s).filter(f).len() == s.filter(f).len(),
    decreases s.len(),
{
    reveal(Seq::filter);
    if s.len() > 0 {
        lemma_ranked_filter_len(s.drop_last(), f);
        let before = ranked(s.drop_last());
        crate::model::lemma_rank_slot_bounds(before, s.last());
        lemma_filter_insert_len(before, crate::model::rank_slot(before, s.last()), s.last(), f);
    }
}

proof fn lemma_sorted_prefix_ahead(r: Seq<Player>, f: spec_fn(Player) -> bool, k: int, m: int)
    requires
        0 <= k < r.len(),
        0 <= m <= r.len(),
        forall|a: int, b: int| 0 <= a < b < r.len() ==> ranks_before(#[trigger] r[a], #[trigger] r[b]),
        forall|q: Player| #[trigger] f(q) == ranks_before(q, r[k]),
    ensures
        r.take(m).filter(f).len() == if m < k {
            m
        } else {
            k
        },
    decreases m,
{
    reveal(Seq::filter);
    if m > 0 {
        lemma_sorted_prefix_ahead(r, f, k, m - 1);
        assert(r.take(m).drop_last() =~= r.take(m - 1));
        assert(r.take(m).last() == r[m - 1]);
        if m - 1 < k {
            assert(ranks_before(r[m - 1], r[k]));
        } else if m - 1 > k {
            assert(ranks_before(r[k], r[m - 1]));
        }
        assert(f(r[m - 1]) == (m - 1 < k));
    }
}

/// A phone's place in the standings is one more than the number of players
/// ranked ahead of it (more points, or as many and an earlier seat); so the
/// player with the strictly highest score is first.
pub proof fn lemma_rank_counts_players_ahead(v: GameView, seat: usize)
    requires
        v.wf(),
        seat < v.players.len(),
    ensures
        rank_of(ranked(v.players), seat) == 1 + v.players.filter(
            |q: Player|
                q.score > v.players[seat as int].score || (q.score == v.players[seat as int].score
                    && q.seat < seat),
        ).len(),
        (forall|i: int|
            0 <= i < v.players.len() && i != seat ==> (#[trigger] v.players[i]).score
                < v.players[seat as int].score) ==> rank_of(ranked(v.players), seat) == 1,
{
    let s = v.players;
    let p = s[seat as int];
    let f = |q: Player|
        q.score > v.players[seat as int].score || (q.score == v.players[seat as int].score
            && q.seat < seat);
    assert forall|i: int, j: int|
        0 <= i < s.len() && 0 <= j < s.len() && i != j implies (#[trigger] s[i]).seat != (
        #[trigger] s[j]).seat by {
        assert(s[i].seat == i && s[j].seat == j);
    }
    lemma_ranked_orders_players(s);
    let r = ranked(s);
    assert(r.contains(p));
    let k = choose|k: int| 0 <= k < r.len() && r[k] == p;
    assert(p.seat == seat);
    assert forall|j: int| 0 <= j < k implies (#[trigger] r[j]).seat != seat by {
        assert(s.contains(r[j]));
        let m = choose|m: int| 0 <= m < s.len() && s[m] == r[j];
        assert(s[m].seat == m);
        assert(ranks_before(r[j], r[k]));
    }
    lemma_rank_of_prefix(r, seat, k, r.len() as int);
    assert(r.take(r.len() as int) =~= r);
    assert forall|q: Player| #[trigger] f(q) == ranks_before(q, r[k]) by {}
    lemma_sorted_prefix_ahead(r, f, k, r.len() as int);
    lemma_ranked_filter_len(s, f);
    if forall|i: int|
        0 <= i < s.len() && i != seat ==> (#[trigger] s[i]).score < p.score {
        if s.filter(f).len() > 0 {
            let q = s.filter(f)[0];
            assert(s.filter(f).contains(q));
            s.lemma_filter_contains_rev(f, q);
            let i = choose|i: int| 0 <= i < s.len() && s[i] == q;
            assert(f(q));
            assert(s[i].seat == i);
        }
    }
}

fn rank_in_standings(game: &Game, seat: usize) -> (r: usize)
    requires
        game@.wf(),
    ensures
        r == rank_of(ranked(game@.players), seat),
{
    let ranked_players = game.standings();
    let ghost r = ranked(game@.players);
    let mut rank: usize = 0;
    let mut i: usize = 0;
    while i < ranked_players.len()
        invariant
            ranked_players@.unref() == r,
            i <= r.len(),
            rank == rank_of(r.take(i as int), seat),
            rank <= i,
        decreases ranked_players.len() - i,
    {
        assert(r.take(i + 1).drop_last() =~= r.take(i as int));
        assert(ranked_players@.unref()[i as int] == *ranked_players@[i as int]);
        if rank == 0 && ranked_players[i].seat == seat {
            rank = i + 1;
        }
        i = i + 1;
    }
    assert(r.take(r.len() as int) =~= r);
    rank
}

/// The fixed fields of the caller's block.
pub open spec fn you_fields(p: Player, seat: usize, rank: nat, host: bool) -> Seq<char> {
    ",\"you\":{\"seat\":"@ + decimal(seat as nat) + ",\"name\":"@ + json_str(p.name@)
        + ",\"color\":\""@ + color_wire(p.color) + "\",\"score\":"@ + decimal(p.score as nat)
        + ",\"rank\":"@ + decimal(rank) + ",\"streak\":"@ + decimal(p.streak as nat)
        + ",\"gain\":"@ + decimal(p.last_gain as nat) + ",\"host\":"@ + bool_text(host)
}

#[verifier::spinoff_prover]
#[verifier::rlimit(40)]
fn push_you_fields(out: &mut String, p: &Player, seat: usize, rank: usize, host: bool)
    ensures
        final(out)@ == old(out)@ + you_fields(*p, seat, rank as nat, host),
{
    out.append(",\"you\":{\"seat\":");
    push_usize(out, seat);
    out.append(",\"name\":");
    push_json_str(out, p.name.as_str());
    out.append(",\"color\":\"");
    out.append(p.color.as_wire());
    out.append("\",\"score\":");
    push_u32(out, p.score);
    out.append(",\"rank\":");
    push_usize(out, rank);
    out.append(",\"streak\":");
    push_u32(out, p.streak);
    out.append(",\"gain\":");
    push_u32(out, p.last_gain);
    out.append(",\"host\":");
    push_bool(out, host);
}

/// The locked choice of the caller, if any.
pub open spec fn choice_json(a: Option<Answer>) -> Seq<char> {
    match a {
        Some(a) => ",\"choice\":"@ + decimal(a.choice as nat),
        None => Seq::empty(),
    }
}

/// Whether the caller was right, once revealed.
pub open spec fn correct_json(c: Option<bool>) -> Seq<char> {
    match c {
        Some(c) => ",\"correct\":"@ + bool_text(c),
        None => Seq::empty(),
    }
}

/// Whether the caller's locked answer was right, once the reveal is on.
pub open spec fn caller_correct(v: GameView, p: Player) -> Option<bool> {
    if v.phase is Reveal || v.phase is Standings {
        match (p.answer, v.current_question()) {
            (Some(a), Some(q)) => Some(a.choice == q.correct),
            _ => None,
        }
    } else {
        None
    }
}

fn push_choice(out: &mut String, a: Option<Answer>)
    ensures
        final(out)@ == old(out)@ + choice_json(a),
{
    match a {
        Some(a) => {
            out.append(",\"choice\":");
            push_usize(out, a.choice);
        },
        None => {
            assert(old(out)@ + Seq::<char>::empty() =~= old(out)@);
        },
    }
}

fn push_correct(out: &mut String, c: Option<bool>)
    ensures
        final(out)@ == old(out)@ + correct_json(c),
{
    match c {
        Some(c) => {
            out.append(",\"correct\":");
            push_bool(out, c);
        },
        None => {
            assert(old(out)@ + Seq::<char>::empty() =~= old(out)@);
        },
    }
}

/// The caller's own seat block: score, rank, streak, last gain, whether it
/// hosts, its locked choice, and once revealed whether that was right.
pub open spec fn you_json(v: GameView, seat: usize) -> Seq<char> {
    if seat < v.players.len() {
        let p = v.players[seat as int];
        you_fields(p, seat, rank_of(ranked(v.players), seat), host_seat(v) == Some(seat))
            + choice_json(p.answer) + correct_json(caller_correct(v, p)) + "}"@
    } else {
        Seq::empty()
    }
}

fn push_you(out: &mut String, game: &Game, seat: usize)
    requires
        game@.wf(),
    ensures
        final(out)@ == old(out)@ + you_json(game@, seat),
{
    let players = game.players();
    if seat >= players.len() {
        assert(old(out)@ + Seq::<char>::empty() =~= old(out)@);
        return;
    }
    let p = &players[seat];
    let rank = rank_in_standings(game, seat);
    let host = match game.host() {
        Some(h) => h.seat == seat,
        None => false,
    };
    let correct: Option<bool> = match game.phase() {
        Phase::Reveal { .. } | Phase::Standings { .. } => match (p.answer, game.current_question()) {
            (Some(a), Some(q)) => Some(a.choice == q.correct),
            _ => None,
        },
        _ => None,
    };
    push_you_fields(out, p, seat, rank, host);
    push_choice(out, p.answer);
    push_correct(out, correct);
    out.append("}");
}

/// The caller's block, when its token names a seat.
pub open spec fn caller_json(v: GameView, token: Option<u64>) -> Seq<char> {
    match token {
        Some(t) => match token_index(v.players, t) {
            Some(i) => you_json(v, v.players[i].seat),
            None => Seq::empty(),
        },
        None => Seq::empty(),
    }
}

/// The JSON a phone polls.
pub open spec fn snapshot_text(v: GameView, token: Option<u64>) -> Seq<char> {
    "{\"v\":"@ + decimal_u64(v.version) + ",\"phase\":\""@ + phase_name(v.phase) + "\",\"max\":"@
        + decimal(MAX_PLAYERS as nat) + ",\"poll\":"@ + decimal(poll_ms(v.phase) as nat)
        + ",\"start\":\""@ + start_word(v.start_blocker()) + "\""@ + players_json(v)
        + question_json(v) + reveal_json(v) + caller_json(v, token) + "}"@
}

/// The JSON a phone polls. Never carries question or answer text: the Deck
/// is the board, the phone only needs shapes.
pub fn snapshot(game: &Game, token: Option<u64>) -> (r: String)
    requires
        game@.wf(),
    ensures
        r@ == snapshot_text(game@, token),
{
    let mut out = String::new();
    out.append("{\"v\":");
    assert(out@ =~= "{\"v\":"@);
    push_u64(&mut out, game.version());
    out.append(",\"phase\":\"");
    out.append(phase_label(game.phase()));
    out.append("\",\"max\":");
    push_usize(&mut out, MAX_PLAYERS);
    out.append(",\"poll\":");
    let poll: u32 = match game.phase() {
        Phase::Question { .. } | Phase::Reveal { .. } => POLL_FAST_MS,
        _ => POLL_SLOW_MS,
    };
    push_u32(&mut out, poll);
    out.append(",\"start\":\"");
    let word: &str = match game.start_blocker() {
        None => "ok",
        Some(ActionError::NotEnoughPlayers) => "players",
        Some(ActionError::NoQuestions) => "questions",
        Some(_) => "phase",
    };
    out.append(word);
    out.append("\"");
    push_players(&mut out, game);
    push_question(&mut out, game);
    push_reveal(&mut out, game);
    let ghost mid = out@;
    match token {
        Some(t) => match game.player_by_token(t) {
            Some(p) => push_you(&mut out, game, p.seat),
            None => {
                assert(mid + Seq::<char>::empty() =~= mid);
            },
        },
        None => {
            assert(mid + Seq::<char>::empty() =~= mid);
        },
    }
    out.append("}");
    out
}

/// Two questions that differ at most in their question and answer texts.
pub open spec fn same_but_texts(a: Question, b: Question) -> bool {
    &&& a.category@ == b.category@
    &&& a.difficulty == b.difficulty
    &&& a.correct == b.correct
    &&& match (a.why, b.why) {
        (Some(x), Some(y)) => x@ == y@,
        (None, None) => true,
        _ => false,
    }
}

/// The snapshot never carries question or answer text: two games whose
/// decks differ only in those texts give every phone the same snapshot.
pub proof fn lemma_snapshot_hides_texts(v: GameView, deck: Seq<Question>, token: Option<u64>)
    requires
        deck.len() == v.deck.len(),
        forall|i: int| 0 <= i < deck.len() ==> same_but_texts(#[trigger] v.deck[i], deck[i]),
    ensures
        snapshot_text(v, token) == snapshot_text(GameView { deck, ..v }, token),
{
    let w = GameView { deck, ..v };
    assert(v.start_blocker() == w.start_blocker());
    assert(v.question_total() == w.question_total());
    match phase_index(v.phase) {
        Some(i) => {
            if i < deck.len() {
                assert(same_but_texts(v.deck[i as int], deck[i as int]));
            }
        },
        None => {},
    }
    assert(question_json(v) == question_json(w));
    assert(reveal_json(v) == reveal_json(w));
    match token {
        Some(t) => match token_index(v.players, t) {
            Some(i) => {
                let seat = v.players[i].seat;
                if seat < v.players.len() {
                    let p = v.players[seat as int];
                    assert(caller_correct(v, p) == caller_correct(w, p));
                }
                assert(you_json(v, seat) == you_json(w, seat));
            },
            None => {},
        },
        None => {},
    }
    assert(caller_json(v, token) == caller_json(w, token));
}

/// Before the reveal and after the standings (lobby, question, podium) the
/// snapshot carries neither the correct answer nor its explanation: two games
/// whose decks agree only on each question's category and difficulty give
/// every phone the same snapshot.
pub proof fn lemma_snapshot_hides_answers(v: GameView, deck: Seq<Question>, token: Option<u64>)
    requires
        !(v.phase is Reveal || v.phase is Standings),
        deck.len() == v.deck.len(),
        forall|i: int|
            0 <= i < deck.len() ==> (#[trigger] v.deck[i]).category@ == deck[i].category@
                && v.deck[i].difficulty == deck[i].difficulty,
    ensures
        snapshot_text(v, token) == snapshot_text(GameView { deck, ..v }, token),
{
    let w = GameView { deck, ..v };
    assert(v.start_blocker() == w.start_blocker());
    assert(v.question_total() == w.question_total());
    match phase_index(v.phase) {
        Some(i) => {
            if i < deck.len() {
                assert(v.deck[i as int].category@ == deck[i as int].category@);
            }
        },
        None => {},
    }
    assert(question_json(v) == question_json(w));
    assert(reveal_json(v) == reveal_json(w));
    match token {
        Some(t) => match token_index(v.players, t) {
            Some(i) => {
                let seat = v.players[i].seat;
                if seat < v.players.len() {
                    let p = v.players[seat as int];
                    assert(caller_correct(v, p) == caller_correct(w, p));
                }
                assert(you_json(v, seat) == you_json(w, seat));
            },
            None => {},
        },
        None => {},
    }
    assert(caller_json(v, token) == caller_json(w, token));
}

// ── Routes ───────────────────────────────────────────────────────────

/// Bodies above this are refused before parsing.
pub const MAX_BODY_BYTES: usize = 1_024;

/// Header block for the controller page. The host writes the status line and
/// `Content-Length`, then these lines, then one more `\r\n` as the blank line
/// before the body, so every line here ends with its own `\r\n`.
pub const HTML_HEADERS: &'static str =
    "Content-Type: text/html; charset=utf-8\r\nCache-Control: max-age=3600\r\n";

/// Header block for JSON replies; the phone page is same-origin so no CORS.
pub const JSON_HEADERS: &'static str =
    "Content-Type: application/json; charset=utf-8\r\nCache-Control: no-store\r\n";

/// Header block for a reply without a body.
pub const EMPTY_HEADERS: &'static str = "Cache-Control: no-store\r\n";

/// An inbound request as the host delivers it.
#[derive(Clone, Copy, Debug)]
pub struct Request<'a> {
    pub method: &'a str,
    /// Raw request target, query string included.
    pub path: &'a str,
    pub body: &'a [u8],
}

/// What goes back to the phone.
#[derive(Clone, Debug, PartialEq, Eq)]
pub struct Response {
    pub status: u16,
    /// Header lines, each terminated by `\r\n`; the host prepends
    /// `Content-Length` and appends one more `\r\n` as the blank line.
    pub headers: &'static str,
    pub body: Vec<u8>,
}

/// A response as plain values.
pub struct ResponseView {
    pub status: u16,
    pub headers: Seq<char>,
    pub body: Seq<u8>,
}

impl View for Response {
    type V = ResponseView;

    open spec fn view(&self) -> ResponseView {
        ResponseView { status: self.status, headers: self.headers@, body: self.body@ }
    }
}

/// A JSON reply carrying `text`.
pub open spec fn json_reply(status: u16, text: Seq<char>) -> ResponseView {
    ResponseView { status, headers: JSON_HEADERS@, body: encode_utf8(text) }
}

/// The JSON of a refusal.
pub open spec fn error_text(code: Seq<char>) -> Seq<char> {
    "{\"error\":\""@ + code + "\"}"@
}

/// A refusal naming why.
pub open spec fn error_reply(status: u16, code: Seq<char>) -> ResponseView {
    json_reply(status, error_text(code))
}

/// The reply to an action that went through.
pub open spec fn ok_reply() -> ResponseView {
    json_reply(200, "{\"ok\":true}"@)
}

/// The reply to a poll that already has this version.
pub open spec fn not_modified_reply() -> ResponseView {
    ResponseView { status: 204, headers: EMPTY_HEADERS@, body: Seq::empty() }
}

/// The controller page.
pub open spec fn page_reply(page: Seq<u8>) -> ResponseView {
    ResponseView { status: 200, headers: HTML_HEADERS@, body: page }
}

impl Response {
    fn json(status: u16, body: String) -> (r: Response)
        ensures
            r@ == json_reply(status, body@),
    {
        Response { status, headers: JSON_HEADERS, body: body.as_str().as_bytes_vec() }
    }

    fn error(status: u16, code: &str) -> (r: Response)
        ensures
            r@ == error_reply(status, code@),
    {
        let mut body = String::new();
        body.append("{\"error\":\"");
        body.append(code);
        body.append("\"}");
        assert(body@ =~= error_text(code@));
        Self::json(status, body)
    }

    fn ok() -> (r: Response)
        ensures
            r@ == ok_reply(),
    {
        let mut body = String::new();
        body.append("{\"ok\":true}");
        assert(body@ =~= "{\"ok\":true}"@);
        Self::json(200, body)
    }

    fn not_modified() -> (r: Response)
        ensures
            r@ == not_modified_reply(),
    {
        Response { status: 204, headers: EMPTY_HEADERS, body: Vec::new() }
    }
}

/// Something the request changed, so the Deck should repaint now.
#[derive(Clone, Copy, Debug, PartialEq, Eq, Structural)]
pub enum Effect {
    /// Nothing the Deck shows changed.
    Unchanged,
    GameChanged,
}

/// The effect of a request that took the game from `before` to `after`.
pub open spec fn change_effect(before: GameView, after: GameView) -> Effect {
    if after.version == before.version {
        Effect::Unchanged
    } else {
        Effect::GameChanged
    }
}

/// The text of a request body: its UTF-8, or nothing when it is not UTF-8.
pub open spec fn body_text(b: Seq<u8>) -> Seq<char> {
    if valid_utf8(b) {
        decode_utf8(b)
    } else {
        Seq::empty()
    }
}

/// `core::str::from_utf8`, as an `Option`: the text when the bytes are valid
/// UTF-8, `None` when they are not.
#[verifier::external_body]
fn utf8_str(bytes: &[u8]) -> (r: Option<&str>)
    ensures
        r is Some <==> valid_utf8(bytes@),
        r matches Some(s) ==> s@ == decode_utf8(bytes@),
{
    core::str::from_utf8(bytes).ok()
}

/// The wire word for a refused join.
pub open spec fn join_word(e: JoinError) -> Seq<char> {
    match e {
        JoinError::Full => "full"@,
        JoinError::EmptyName => "empty_name"@,
        JoinError::ColorTaken => "color_taken"@,
    }
}

fn join_code(e: JoinError) -> (r: &'static str)
    ensures
        r@ == join_word(e),
{
    match e {
        JoinError::Full => "full",
        JoinError::EmptyName => "empty_name",
        JoinError::ColorTaken => "color_taken",
    }
}

/// The wire word for a refused action.
pub open spec fn action_word(e: ActionError) -> Seq<char> {
    match e {
        ActionError::UnknownToken => "unknown_token"@,
        ActionError::NotHost => "not_host"@,
        ActionError::NotEnoughPlayers => "not_enough_players"@,
        ActionError::NoQuestions => "no_questions"@,
        ActionError::WrongPhase => "wrong_phase"@,
        ActionError::AlreadyAnswered => "already_answered"@,
        ActionError::BadChoice => "bad_choice"@,
    }
}

fn action_code(e: ActionError) -> (r: &'static str)
    ensures
        r@ == action_word(e),
{
    match e {
        ActionError::UnknownToken => "unknown_token",
        ActionError::NotHost => "not_host",
        ActionError::NotEnoughPlayers => "not_enough_players",
        ActionError::NoQuestions => "no_questions",
        ActionError::WrongPhase => "wrong_phase",
        ActionError::AlreadyAnswered => "already_answered",
        ActionError::BadChoice => "bad_choice",
    }
}

/// The request was refused with `status` and `code`, and nothing changed.
pub open spec fn refused(
    v: GameView,
    status: u16,
    code: Seq<char>,
    resp: ResponseView,
    effect: Effect,
    after: GameView,
) -> bool {
    resp == error_reply(status, code) && effect == Effect::Unchanged && after == v
}

/// The seat token a form names, as hex.
pub open spec fn form_token(form: Seq<char>) -> Option<u64> {
    match form_lookup(form, "t"@) {
        Some(t) => hex_number(encode_utf8(t)),
        None => None,
    }
}

/// The name a join form asks for; empty when it has none.
pub open spec fn join_name(body: Seq<char>) -> Seq<char> {
    match form_lookup(body, "name"@) {
        Some(n) => n,
        None => Seq::empty(),
    }
}

/// The colour a join form asks for, when it names one.
pub open spec fn join_color(body: Seq<char>) -> Option<PlayerColor> {
    match form_lookup(body, "color"@) {
        Some(c) => color_from_wire(c),
        None => None,
    }
}

/// The reply to a seated phone: its token, seat, cleaned name and colour.
pub open spec fn joined_json(token: u64, p: Player) -> Seq<char> {
    "{\"token\":\""@ + hex_digits(token, 16) + "\",\"seat\":"@ + decimal(p.seat as nat)
        + ",\"name\":"@ + json_str(p.name@) + ",\"color\":\""@ + color_wire(p.color) + "\"}"@
}

/// What `POST /join` does.
pub open spec fn join_handled(
    v: GameView,
    body: Seq<char>,
    token: u64,
    resp: ResponseView,
    effect: Effect,
    after: GameView,
) -> bool {
    match join_color(body) {
        None => refused(v, 400, "bad_color"@, resp, effect, after),
        Some(color) => match join_refusal(v, join_name(body), color) {
            Some(e) => refused(v, 400, join_word(e), resp, effect, after),
            None => {
                &&& is_joined(v, after, join_name(body), color, token)
                &&& effect == Effect::GameChanged
                &&& resp == json_reply(200, joined_json(token, after.players.last()))
            },
        },
    }
}

fn join(game: &mut Game, body: &str, fresh_token: u64) -> (r: (Response, Effect))
    requires
        old(game)@.wf(),
        old(game)@.players.len() <= usize::MAX - 3,
    ensures
        final(game)@.wf(),
        join_handled(old(game)@, body@, fresh_token, r.0@, r.1, final(game)@),
{
    let name = match form_value(body, "name") {
        Some(n) => n,
        None => String::new(),
    };
    let color = match form_value(body, "color") {
        Some(c) => PlayerColor::from_wire(c.as_str()),
        None => None,
    };
    let color = match color {
        Some(c) => c,
        None => return (Response::error(400, "bad_color"), Effect::Unchanged),
    };
    match game.join(name.as_str(), color, fresh_token) {
        Ok(seat) => {
            let player = &game.players()[seat];
            let mut out = String::new();
            out.append("{\"token\":\"");
            push_hex(&mut out, fresh_token);
            out.append("\",\"seat\":");
            push_usize(&mut out, seat);
            out.append(",\"name\":");
            push_json_str(&mut out, player.name.as_str());
            out.append(",\"color\":\"");
            out.append(player.color.as_wire());
            out.append("\"}");
            assert(out@ =~= joined_json(fresh_token, game@.players.last()));
            (Response::json(200, out), Effect::GameChanged)
        },
        Err(e) => (Response::error(400, join_code(e)), Effect::Unchanged),
    }
}

/// The answer an answer form locks; one past the last answer when it names
/// none, so that the game refuses it.
pub open spec fn answer_choice(body: Seq<char>) -> usize {
    match form_lookup(body, "c"@) {
        Some(c) => match parse_decimal(c) {
            Some(n) => if n <= usize::MAX {
                n as usize
            } else {
                ANSWER_COUNT
            },
            None => ANSWER_COUNT,
        },
        None => ANSWER_COUNT,
    }
}

/// The reply and game after an action whose outcome is `outcome` and which,
/// when it goes through, leaves the game as `done`.
pub open spec fn acted(
    v: GameView,
    outcome: Result<(), ActionError>,
    done: GameView,
    resp: ResponseView,
    effect: Effect,
    after: GameView,
) -> bool {
    match outcome {
        Ok(_) => resp == ok_reply() && effect == Effect::GameChanged && after == done,
        Err(e) => refused(v, 400, action_word(e), resp, effect, after),
    }
}

/// What `POST /answer` does.
pub open spec fn answer_handled(
    v: GameView,
    body: Seq<char>,
    resp: ResponseView,
    effect: Effect,
    after: GameView,
) -> bool {
    match form_token(body) {
        None => refused(v, 400, "bad_token"@, resp, effect, after),
        Some(t) => acted(
            v,
            v.answer_outcome(t, answer_choice(body)),
            v.answered(t, answer_choice(body)),
            resp,
            effect,
            after,
        ),
    }
}

fn answer(game: &mut Game, body: &str) -> (r: (Response, Effect))
    requires
        old(game)@.wf(),
    ensures
        final(game)@.wf(),
        answer_handled(old(game)@, body@, r.0@, r.1, final(game)@),
{
    let token = match token_from(body) {
        Some(t) => t,
        None => return (Response::error(400, "bad_token"), Effect::Unchanged),
    };
    let choice: usize = match form_value(body, "c") {
        Some(c) => match parse_usize(c.as_str()) {
            Some(n) => n,
            None => ANSWER_COUNT,
        },
        None => ANSWER_COUNT,
    };
    match game.answer(token, choice) {
        Ok(()) => (Response::ok(), Effect::GameChanged),
        Err(e) => (Response::error(400, action_code(e)), Effect::Unchanged),
    }
}

/// What `POST /host` does: start, skip, end, or a new game.
pub open spec fn host_handled(
    v: GameView,
    body: Seq<char>,
    resp: ResponseView,
    effect: Effect,
    after: GameView,
) -> bool {
    match form_token(body) {
        None => refused(v, 400, "bad_token"@, resp, effect, after),
        Some(t) => match form_lookup(body, "a"@) {
            Some(a) => if a == "start"@ {
                acted(v, v.start_outcome(t), v.started(), resp, effect, after)
            } else if a == "skip"@ {
                acted(v, v.skip_outcome(t), v.skipped(), resp, effect, after)
            } else if a == "end"@ {
                acted(v, v.end_outcome(t), v.ended(), resp, effect, after)
            } else if a == "new"@ {
                acted(v, v.new_game_outcome(t), v.lobby_again(), resp, effect, after)
            } else {
                refused(v, 400, "bad_action"@, resp, effect, after)
            },
            None => refused(v, 400, "bad_action"@, resp, effect, after),
        },
    }
}

fn host_action(game: &mut Game, body: &str) -> (r: (Response, Effect))
    requires
        old(game)@.wf(),
        old(game)@.phase is Question ==> old(game)@.room(),
    ensures
        final(game)@.wf(),
        host_handled(old(game)@, body@, r.0@, r.1, final(game)@),
{
    let token = match token_from(body) {
        Some(t) => t,
        None => return (Response::error(400, "bad_token"), Effect::Unchanged),
    };
    let action = match form_value(body, "a") {
        Some(a) => a,
        None => return (Response::error(400, "bad_action"), Effect::Unchanged),
    };
    let result = if str_eq(action.as_str(), "start") {
        game.start(token)
    } else if str_eq(action.as_str(), "skip") {
        game.skip(token)
    } else if str_eq(action.as_str(), "end") {
        game.end(token)
    } else if str_eq(action.as_str(), "new") {
        game.new_game(token)
    } else {
        return (Response::error(400, "bad_action"), Effect::Unchanged);
    };
    match result {
        Ok(()) => (Response::ok(), Effect::GameChanged),
        Err(e) => (Response::error(400, action_code(e)), Effect::Unchanged),
    }
}

/// What `POST /leave` does: the seat is kept, marked gone.
pub open spec fn leave_handled(
    v: GameView,
    body: Seq<char>,
    resp: ResponseView,
    effect: Effect,
    after: GameView,
) -> bool {
    match form_token(body) {
        None => refused(v, 400, "bad_token"@, resp, effect, after),
        Some(t) => {
            &&& after == v.left(t)
            &&& resp == ok_reply()
            &&& effect == change_effect(v, after)
        },
    }
}

fn leave(game: &mut Game, body: &str) -> (r: (Response, Effect))
    requires
        old(game)@.wf(),
    ensures
        final(game)@.wf(),
        leave_handled(old(game)@, body@, r.0@, r.1, final(game)@),
{
    let token = match token_from(body) {
        Some(t) => t,
        None => return (Response::error(400, "bad_token"), Effect::Unchanged),
    };
    let before = game.version();
    game.leave(token);
    let effect = if game.version() == before {
        Effect::Unchanged
    } else {
        Effect::GameChanged
    };
    (Response::ok(), effect)
}

/// The version a poll says it already has.
pub open spec fn known_version(query: Seq<char>) -> Option<u64> {
    match form_lookup(query, "v"@) {
        Some(s) => match parse_decimal(s) {
            Some(n) => if n <= u64::MAX {
                Some(n as u64)
            } else {
                None
            },
            None => None,
        },
        None => None,
    }
}

/// What `GET /state` does: a phone polling with a token it kept is back at
/// its seat; a phone that has this version already gets no body.
pub open spec fn state_handled(
    v: GameView,
    query: Seq<char>,
    resp: ResponseView,
    effect: Effect,
    after: GameView,
) -> bool {
    &&& after == match form_token(query) {
        Some(t) => v.rejoined(t),
        None => v,
    }
    &&& effect == change_effect(v, after)
    &&& resp == if known_version(query) == Some(after.version) {
        not_modified_reply()
    } else {
        json_reply(200, snapshot_text(after, form_token(query)))
    }
}

fn state(game: &mut Game, query: &str) -> (r: (Response, Effect))
    requires
        old(game)@.wf(),
    ensures
        final(game)@.wf(),
        state_handled(old(game)@, query@, r.0@, r.1, final(game)@),
{
    let known: Option<u64> = match form_value(query, "v") {
        Some(s) => parse_u64(s.as_str()),
        None => None,
    };
    let token = token_from(query);
    let before = game.version();
    match token {
        Some(t) => {
            game.reconnect(t);
        },
        None => {},
    }
    let effect = if game.version() == before {
        Effect::Unchanged
    } else {
        Effect::GameChanged
    };
    let same = match known {
        Some(k) => k == game.version(),
        None => false,
    };
    if same {
        return (Response::not_modified(), effect);
    }
    (Response::json(200, snapshot(game, token)), effect)
}

/// What one request does, by method and route.
pub open spec fn handled(
    v: GameView,
    method: Seq<char>,
    path: Seq<char>,
    body: Seq<u8>,
    page: Seq<u8>,
    token: u64,
    resp: ResponseView,
    effect: Effect,
    after: GameView,
) -> bool {
    let route = query_split(path).0;
    let query = query_split(path).1;
    let text = body_text(body);
    if body.len() > MAX_BODY_BYTES {
        refused(v, 400, "too_large"@, resp, effect, after)
    } else if method == "GET"@ && (route == "/"@ || route == "/index.html"@) {
        resp == page_reply(page) && effect == Effect::Unchanged && after == v
    } else if method == "GET"@ && route == "/state"@ {
        state_handled(v, query, resp, effect, after)
    } else if method == "POST"@ && route == "/join"@ {
        join_handled(v, text, token, resp, effect, after)
    } else if method == "POST"@ && route == "/answer"@ {
        answer_handled(v, text, resp, effect, after)
    } else if method == "POST"@ && route == "/host"@ {
        host_handled(v, text, resp, effect, after)
    } else if method == "POST"@ && route == "/leave"@ {
        leave_handled(v, text, resp, effect, after)
    } else {
        refused(v, 404, "not_found"@, resp, effect, after)
    }
}

/// A host action: `POST /host`.
pub open spec fn host_request(method: Seq<char>, path: Seq<char>) -> bool {
    method == "POST"@ && query_split(path).0 == "/host"@
}

/// A join: `POST /join`.
pub open spec fn join_request(method: Seq<char>, path: Seq<char>) -> bool {
    method == "POST"@ && query_split(path).0 == "/join"@
}

/// Route one request. `fresh_token` is the seat token a join would mint.
/// A host action may close a question, so every score needs room to grow;
/// a join needs a seat index left.
pub fn handle(game: &mut Game, req: &Request<'_>, page: &'static [u8], fresh_token: u64) -> (r: (
    Response,
    Effect,
))
    requires
        old(game)@.wf(),
        host_request(req.method@, req.path@) && old(game)@.phase is Question ==> old(game)@.room(),
        join_request(req.method@, req.path@) ==> old(game)@.players.len() <= usize::MAX - 3,
    ensures
        final(game)@.wf(),
        handled(
            old(game)@,
            req.method@,
            req.path@,
            req.body@,
            page@,
            fresh_token,
            r.0@,
            r.1,
            final(game)@,
        ),
{
    if req.body.len() > MAX_BODY_BYTES {
        return (Response::error(400, "too_large"), Effect::Unchanged);
    }
    let (route, query) = split_query(req.path);
    proof {
        reveal_strlit("");
    }
    let body: &str = match utf8_str(req.body) {
        Some(s) => s,
        None => "",
    };
    assert(body@ == body_text(req.body@));
    let get = str_eq(req.method, "GET");
    let post = str_eq(req.method, "POST");
    if get && (str_eq(route, "/") || str_eq(route, "/index.html")) {
        (Response { status: 200, headers: HTML_HEADERS, body: slice_to_vec(page) }, Effect::Unchanged)
    } else if get && str_eq(route, "/state") {
        state(game, query)
    } else if post && str_eq(route, "/join") {
        join(game, body, fresh_token)
    } else if post && str_eq(route, "/answer") {
        answer(game, body)
    } else if post && str_eq(route, "/host") {
        host_action(game, body)
    } else if post && str_eq(route, "/leave") {
        leave(game, body)
    } else {
        (Response::error(404, "not_found"), Effect::Unchanged)
    }
}

/// A request reports a change exactly when it moved the game's version, and
/// a request that reports none left the game as it was: the Deck repaints
/// after every change and only then.
pub proof fn lemma_effect_follows_version(
    v: GameView,
    method: Seq<char>,
    path: Seq<char>,
    body: Seq<u8>,
    page: Seq<u8>,
    token: u64,
    resp: ResponseView,
    effect: Effect,
    after: GameView,
)
    requires
        handled(v, method, path, body, page, token, resp, effect, after),
    ensures
        (effect == Effect::GameChanged) == (after.version != v.version),
        effect == Effect::Unchanged ==> after == v,
{
    assert(next_version(v.version) != v.version);
    let route = query_split(path).0;
    let query = query_split(path).1;
    let text = body_text(body);
    if body.len() > MAX_BODY_BYTES {
    } else if method == "GET"@ && (route == "/"@ || route == "/index.html"@) {
    } else if method == "GET"@ && route == "/state"@ {
        match form_token(query) {
            Some(t) => {
                assert(after == v.rejoined(t));
            },
            None => {},
        }
    } else if method == "POST"@ && route == "/join"@ {
    } else if method == "POST"@ && route == "/answer"@ {
        match form_token(text) {
            Some(t) => {
                let c = answer_choice(text);
                if v.answer_outcome(t, c) is Ok {
                    assert(v.answered(t, c).version == next_version(v.version));
                }
            },
            None => {},
        }
    } else if method == "POST"@ && route == "/host"@ {
        match form_token(text) {
            Some(t) => {
                if v.skip_outcome(t) is Ok {
                    assert(v.skipped().version == next_version(v.version));
                }
                assert(v.started().version == next_version(v.version));
                assert(v.ended().version == next_version(v.version));
                assert(v.lobby_again().version == next_version(v.version));
            },
            None => {},
        }
    } else if method == "POST"@ && route == "/leave"@ {
        match form_token(text) {
            Some(t) => {
                assert(after == v.left(t));
            },
            None => {},
        }
    } else {
    }
}

/// No line break in `l`.
pub open spec fn no_line_break(l: Seq<char>) -> bool
    decreases l.len(),
{
    l.len() == 0 || (l[0] != '\r' && l[0] != '\n' && no_line_break(l.drop_first()))
}

/// `l` holds `": "` at or after position `k`.
pub open spec fn has_colon_space(l: Seq<char>, k: nat) -> bool
    decreases l.len() - k,
{
    if k + 1 >= l.len() {
        false
    } else {
        (l[k as int] == ':' && l[k + 1int] == ' ') || has_colon_space(l, k + 1)
    }
}

/// A header line: `name: value`, with no line break inside.
pub open spec fn header_line(l: Seq<char>) -> bool {
    no_line_break(l) && has_colon_space(l, 0)
}

/// Lines, each followed by its own `\r\n`.
pub open spec fn crlf_lines(lines: Seq<Seq<char>>) -> Seq<char>
    decreases lines.len(),
{
    if lines.len() == 0 {
        Seq::empty()
    } else {
        lines[0] + seq!['\r', '\n'] + crlf_lines(lines.skip(1))
    }
}

/// A header block as the host frames it, made of `lines`: one or more
/// header lines, each ending in its own `\r\n`, so the block ends in one line
/// break and never in a blank line.
pub open spec fn header_block(h: Seq<char>, lines: Seq<Seq<char>>) -> bool {
    &&& lines.len() > 0
    &&& h == crlf_lines(lines)
    &&& forall|i: int| 0 <= i < lines.len() ==> header_line(#[trigger] lines[i])
}

/// Every header block this endpoint sends is framed as the host expects.
pub proof fn lemma_header_blocks()
    ensures
        header_block(
            HTML_HEADERS@,
            seq!["Content-Type: text/html; charset=utf-8"@, "Cache-Control: max-age=3600"@],
        ),
        header_block(
            JSON_HEADERS@,
            seq!["Content-Type: application/json; charset=utf-8"@, "Cache-Control: no-store"@],
        ),
        header_block(EMPTY_HEADERS@, seq!["Cache-Control: no-store"@]),
{
    reveal_with_fuel(no_line_break, 50);
    reveal_with_fuel(has_colon_space, 16);
    reveal_with_fuel(crlf_lines, 3);
    reveal_strlit("Content-Type: text/html; charset=utf-8\r\nCache-Control: max-age=3600\r\n");
    reveal_strlit("Content-Type: application/json; charset=utf-8\r\nCache-Control: no-store\r\n");
    reveal_strlit("Cache-Control: no-store\r\n");
    reveal_strlit("Content-Type: text/html; charset=utf-8");
    reveal_strlit("Cache-Control: max-age=3600");
    reveal_strlit("Content-Type: application/json; charset=utf-8");
    reveal_strlit("Cache-Control: no-store");
    let html = seq!["Content-Type: text/html; charset=utf-8"@, "Cache-Control: max-age=3600"@];
    let json = seq!["Content-Type: application/json; charset=utf-8"@, "Cache-Control: no-store"@];
    let empty = seq!["Cache-Control: no-store"@];
    assert(html.skip(1) =~= seq!["Cache-Control: max-age=3600"@]);
    assert(html.skip(1).skip(1) =~= Seq::<Seq<char>>::empty());
    assert(json.skip(1) =~= seq!["Cache-Control: no-store"@]);
    assert(json.skip(1).skip(1) =~= Seq::<Seq<char>>::empty());
    assert(empty.skip(1) =~= Seq::<Seq<char>>::empty());
    assert(HTML_HEADERS@ =~= crlf_lines(html));
    assert(JSON_HEADERS@ =~= crlf_lines(json));
    assert(EMPTY_HEADERS@ =~= crlf_lines(empty));
    assert(header_line(html[0]));
    assert(header_line(html[1]));
    assert(header_line(json[0]));
    assert(header_line(json[1]));
    assert(header_line(empty[0]));
}

/// Every response is a 200, 204, 400 or 404, and its header lines are framed
/// as the host expects: each ends in its own `\r\n` and reads `name: value`.
pub proof fn lemma_responses_framed(
    v: GameView,
    method: Seq<char>,
    path: Seq<char>,
    body: Seq<u8>,
    page: Seq<u8>,
    token: u64,
    resp: ResponseView,
    effect: Effect,
    after: GameView,
)
    requires
        handled(v, method, path, body, page, token, resp, effect, after),
    ensures
        resp.status == 200 || resp.status == 204 || resp.status == 400 || resp.status == 404,
        exists|lines: Seq<Seq<char>>| header_block(resp.headers, lines),
{
    lemma_header_blocks();
    let html = seq!["Content-Type: text/html; charset=utf-8"@, "Cache-Control: max-age=3600"@];
    let json = seq!["Content-Type: application/json; charset=utf-8"@, "Cache-Control: no-store"@];
    let empty = seq!["Cache-Control: no-store"@];
    assert(resp.headers == HTML_HEADERS@ || resp.headers == JSON_HEADERS@ || resp.headers
        == EMPTY_HEADERS@);
    if resp.headers == HTML_HEADERS@ {
        assert(header_block(resp.headers, html));
    } else if resp.headers == JSON_HEADERS@ {
        assert(header_block(resp.headers, json));
    } else {
        assert(header_block(resp.headers, empty));
    }
}

} // verus!
