//! Question packs: the starter pack's line format, filtering by the widget
//! params, and a small deterministic shuffle.
use vstd::prelude::*;

use crate::model::{
    ANSWER_COUNT, Question, QuestionDifficulty, difficulty_from_wire,
};
use crate::text::{
    first_index, lemma_first_index, parse_decimal, parse_usize, split_all, split_on,
    split_once_char, starts_with_char, str_eq, strip_cr, strip_suffix_char, text_lines, trim,
    trim_str,
};

verus! {

/// The pack a question ID names: the part before the first `-`, or `misc`.
pub open spec fn pack_name(id: Seq<char>) -> Seq<char> {
    match first_index(id, '-') {
        Some(i) => id.take(i),
        None => "misc"@,
    }
}

/// Which pack a question belongs to, as the manifest names them.
pub fn pack_of(question: &Question) -> (r: &str)
    ensures
        r@ == pack_name(question.id@),
{
    match split_once_char(question.id.as_str(), '-') {
        Some((pack, _)) => pack,
        None => "misc",
    }
}

/// `usize::from_str` as a spec.
pub open spec fn parsed_usize(s: Seq<char>) -> Option<usize> {
    match parse_decimal(s) {
        Some(n) => if n <= usize::MAX {
            Some(n as usize)
        } else {
            None
        },
        None => None,
    }
}

/// A pack line's tab-separated fields.
pub open spec fn fields_of(line: Seq<char>) -> Seq<Seq<char>> {
    split_on(line, '\t')
}

/// A pack line reads as a question:
/// `id<TAB>category<TAB>difficulty<TAB>question<TAB>a<TAB>b<TAB>c<TAB>d<TAB>correct<TAB>why`,
/// every field trimmed, with a known difficulty, four non-empty answers, a
/// correct index below four, and a non-empty ID and question; `why` may be
/// empty or missing.
pub open spec fn line_ok(line: Seq<char>) -> bool {
    let f = fields_of(line);
    &&& f.len() >= 9
    &&& difficulty_from_wire(trim(f[2])) is Some
    &&& trim(f[4]).len() > 0
    &&& trim(f[5]).len() > 0
    &&& trim(f[6]).len() > 0
    &&& trim(f[7]).len() > 0
    &&& parsed_usize(trim(f[8])) matches Some(c) && c < ANSWER_COUNT
    &&& trim(f[0]).len() > 0
    &&& trim(f[3]).len() > 0
}

/// `q` is the question a well-formed pack line describes.
pub open spec fn is_parsed(q: Question, line: Seq<char>) -> bool {
    let f = fields_of(line);
    &&& q.id@ == trim(f[0])
    &&& q.category@ == trim(f[1])
    &&& Some(q.difficulty) == difficulty_from_wire(trim(f[2]))
    &&& q.text@ == trim(f[3])
    &&& q.answers@[0]@ == trim(f[4])
    &&& q.answers@[1]@ == trim(f[5])
    &&& q.answers@[2]@ == trim(f[6])
    &&& q.answers@[3]@ == trim(f[7])
    &&& Some(q.correct) == parsed_usize(trim(f[8]))
    &&& if f.len() > 9 && trim(f[9]).len() > 0 {
        q.why matches Some(w) && w@ == trim(f[9])
    } else {
        q.why is None
    }
}

/// A line of a pack that is neither blank nor a `#` comment, and reads as
/// a question.
pub open spec fn usable_line(line: Seq<char>) -> bool {
    &&& trim(line).len() > 0
    &&& !(line.len() > 0 && line[0] == '#')
    &&& line_ok(line)
}

/// The lines of a pack that become questions, in order.
pub open spec fn usable_lines(text: Seq<char>) -> Seq<Seq<char>> {
    text_lines(text).filter(|l: Seq<char>| usable_line(l))
}

fn parse_line(line: &str) -> (r: Option<Question>)
    ensures
        r is Some == line_ok(line@),
        r matches Some(q) ==> is_parsed(q, line@),
{
    let fields = split_all(line, '\t');
    let ghost f = fields_of(line@);
    assert(fields@.len() == f.len());
    assert(forall|k: int| 0 <= k < f.len() ==> (#[trigger] fields@[k])@ == f[k]) by {
        assert forall|k: int| 0 <= k < f.len() implies (#[trigger] fields@[k])@ == f[k] by {
            assert(fields@.map_values(|x: &str| x@)[k] == fields@[k]@);
        }
    }
    if fields.len() < 9 {
        return None;
    }
    let id = trim_str(fields[0]);
    let category = trim_str(fields[1]);
    let difficulty = match QuestionDifficulty::from_wire(trim_str(fields[2])) {
        Some(d) => d,
        None => return None,
    };
    let text = trim_str(fields[3]);
    let a0 = trim_str(fields[4]);
    let a1 = trim_str(fields[5]);
    let a2 = trim_str(fields[6]);
    let a3 = trim_str(fields[7]);
    if a0.is_empty() || a1.is_empty() || a2.is_empty() || a3.is_empty() {
        return None;
    }
    let correct = match parse_usize(trim_str(fields[8])) {
        Some(c) => c,
        None => return None,
    };
    if correct >= ANSWER_COUNT || id.is_empty() || text.is_empty() {
        return None;
    }
    let why: Option<String> = if fields.len() > 9 {
        let w = trim_str(fields[9]);
        if w.is_empty() {
            None
        } else {
            Some(w.to_owned())
        }
    } else {
        None
    };
    let answers: [String; ANSWER_COUNT] = [a0.to_owned(), a1.to_owned(), a2.to_owned(), a3.to_owned()];
    Some(
        Question {
            id: id.to_owned(),
            category: category.to_owned(),
            difficulty,
            text: text.to_owned(),
            answers,
            correct,
            why,
        },
    )
}

/// Parse a tab-separated pack. Blank lines and `#` comments are skipped;
/// malformed lines are dropped, not fatal: one bad line in a 500-line pack
/// must not blank the game.
pub fn parse_tsv(text: &str) -> (r: Vec<Question>)
    ensures
        r@.len() == usable_lines(text@).len(),
        forall|k: int| 0 <= k < r@.len() ==> is_parsed(#[trigger] r@[k], usable_lines(text@)[k]),
{
    let mut out: Vec<Question> = Vec::new();
    let mut rest: &str = text;
    let ghost mut done: Seq<Seq<char>> = Seq::empty();
    loop
        invariant
            text_lines(text@) == done + text_lines(rest@),
            out@.len() == done.filter(|l: Seq<char>| usable_line(l)).len(),
            forall|k: int|
                0 <= k < out@.len() ==> is_parsed(
                    #[trigger] out@[k],
                    done.filter(|l: Seq<char>| usable_line(l))[k],
                ),
        decreases rest@.len(),
    {
        if rest.is_empty() {
            assert(text_lines(rest@) =~= Seq::<Seq<char>>::empty());
            assert(done + text_lines(rest@) =~= done);
            return out;
        }
        proof {
            lemma_first_index(rest@, '\n');
        }
        let (line, next, last) = match split_once_char(rest, '\n') {
            Some((head, tail)) => {
                let line = match strip_suffix_char(head, '\r') {
                    Some(t) => t,
                    None => head,
                };
                assert(line@ == strip_cr(head@));
                assert(text_lines(rest@) == seq![line@] + text_lines(tail@));
                (line, tail, false)
            },
            None => {
                assert(text_lines(rest@) == seq![rest@]);
                (rest, rest, true)
            },
        };
        let ghost before = done;
        proof {
            reveal(Seq::filter);
            done = done.push(line@);
            assert(done.drop_last() =~= before);
        }
        if !trim_str(line).is_empty() && !starts_with_char(line, '#') {
            match parse_line(line) {
                Some(q) => {
                    out.push(q);
                },
                None => {},
            }
        }
        if last {
            assert(text_lines(text@) =~= done);
            return out;
        }
        assert(text_lines(text@) =~= done + text_lines(next@));
        rest = next;
    }
}

/// The questions a game may ask: in the chosen pack (any for `None`), of
/// the chosen difficulty (any for `None`), and not among the played IDs.
pub open spec fn selected(
    q: Question,
    pack: Option<Seq<char>>,
    difficulty: Option<QuestionDifficulty>,
    played: Seq<String>,
) -> bool {
    &&& (pack matches Some(p) ==> pack_name(q.id@) == p)
    &&& (difficulty matches Some(d) ==> q.difficulty == d)
    &&& !exists|k: int| 0 <= k < played.len() && (#[trigger] played[k])@ == q.id@
}

/// A `&str` option as its character view.
pub open spec fn opt_view(o: Option<&str>) -> Option<Seq<char>> {
    match o {
        Some(s) => Some(s@),
        None => None,
    }
}

pub(crate) fn was_played(played: &[String], id: &String) -> (r: bool)
    ensures
        r == exists|k: int| 0 <= k < played@.len() && (#[trigger] played@[k])@ == id@,
{
    let mut k: usize = 0;
    while k < played.len()
        invariant
            k <= played@.len(),
            forall|j: int| 0 <= j < k ==> (#[trigger] played@[j])@ != id@,
        decreases played.len() - k,
    {
        if played[k] == *id {
            return true;
        }
        k = k + 1;
    }
    false
}

/// Keep the questions a game may ask: the chosen pack (or all for `None`),
/// the chosen difficulty (or all), minus the IDs already played.
pub fn select(
    questions: Vec<Question>,
    pack: Option<&str>,
    difficulty: Option<QuestionDifficulty>,
    played: &[String],
) -> (r: Vec<Question>)
    ensures
        r@ == questions@.filter(|q: Question| selected(q, opt_view(pack), difficulty, played@)),
{
    let mut out: Vec<Question> = Vec::new();
    let ghost all = questions@;
    for q in it: questions.into_iter()
        invariant
            it.seq() == all,
            out@ == all.take(it.index() as int).filter(
                |q: Question| selected(q, opt_view(pack), difficulty, played@),
            ),
    {
        proof {
            reveal(Seq::filter);
            assert(all.take(it.index() + 1).drop_last() =~= all.take(it.index() as int));
        }
        let in_pack = match pack {
            Some(p) => str_eq(pack_of(&q), p),
            None => true,
        };
        let in_difficulty = match difficulty {
            Some(d) => q.difficulty == d,
            None => true,
        };
        if in_pack && in_difficulty && !was_played(played, &q.id) {
            out.push(q);
        }
    }
    proof {
        assert(all.take(all.len() as int) =~= all);
    }
    out
}

/// One step of the xorshift generator.
pub open spec fn xorshift(x: u64) -> u64 {
    let a = x ^ (x << 13u64);
    let b = a ^ (a >> 7u64);
    b ^ (b << 17u64)
}

/// The state a seed starts the generator in; zero, a fixed point of
/// xorshift, is nudged.
pub open spec fn seed_state(seed: u64) -> u64 {
    if seed == 0 {
        0x9E37_79B9_7F4A_7C15
    } else {
        seed
    }
}

/// A tiny xorshift generator so the shuffle is deterministic under test and
/// needs one host random for its seed on the device.
#[derive(Clone, Copy, Debug)]
pub struct Rng(u64);

impl View for Rng {
    type V = u64;

    closed spec fn view(&self) -> u64 {
        self.0
    }
}

impl Rng {
    pub fn new(seed: u64) -> (r: Rng)
        ensures
            r@ == seed_state(seed),
    {
        Rng(
            if seed == 0 {
                0x9E37_79B9_7F4A_7C15
            } else {
                seed
            },
        )
    }

    pub fn next_u64(&mut self) -> (r: u64)
        ensures
            r == xorshift(old(self)@),
            final(self)@ == r,
    {
        let mut x = self.0;
        x = x ^ (x << 13u64);
        x = x ^ (x >> 7u64);
        x = x ^ (x << 17u64);
        self.0 = x;
        x
    }

    /// An index below `n` (below one when `n` is zero) from the next draw.
    pub fn below(&mut self, n: usize) -> (r: usize)
        ensures
            final(self)@ == xorshift(old(self)@),
            r == xorshift(old(self)@) % (if n == 0 {
                1
            } else {
                n as u64
            }),
            r < if n == 0 {
                1
            } else {
                n
            },
    {
        let m: u64 = if n == 0 {
            1
        } else {
            n as u64
        };
        let x = self.next_u64();
        (x % m) as usize
    }
}

/// `s` with the items at `i` and `j` exchanged.
pub open spec fn swapped<T>(s: Seq<T>, i: int, j: int) -> Seq<T> {
    s.update(i, s[j]).update(j, s[i])
}

/// Fisher–Yates over the first `n` items from the top down, drawing from a
/// generator in `state`: the shuffled items and the generator's new state.
pub open spec fn fisher_yates<T>(s: Seq<T>, state: u64, n: nat) -> (Seq<T>, u64)
    decreases n,
{
    if n <= 1 {
        (s, state)
    } else {
        let next = xorshift(state);
        let j = (next % (n as u64)) as int;
        fisher_yates(swapped(s, n - 1, j), next, (n - 1) as nat)
    }
}

/// `<[T]>::swap`: exchanges two items.
#[verifier::external_body]
fn swap_items<T>(items: &mut [T], i: usize, j: usize)
    requires
        i < old(items)@.len(),
        j < old(items)@.len(),
    ensures
        final(items)@ == swapped(old(items)@, i as int, j as int),
{
    items.swap(i, j);
}

/// Fisher–Yates in place.
pub fn shuffle<T>(items: &mut [T], rng: &mut Rng)
    ensures
        (final(items)@, final(rng)@) == fisher_yates(old(items)@, old(rng)@, old(items)@.len()),
{
    let len = items.len();
    if len <= 1 {
        return;
    }
    let mut i: usize = len - 1;
    while i >= 1
        invariant
            items@.len() == len,
            i < len,
            fisher_yates(items@, rng@, (i + 1) as nat) == fisher_yates(
                old(items)@,
                old(rng)@,
                len as nat,
            ),
        decreases i,
    {
        let j = rng.below(i + 1);
        swap_items(items, i, j);
        i = i - 1;
    }
}

/// Shuffling only reorders: the same items, as many times each.
pub proof fn lemma_shuffle_permutes<T>(s: Seq<T>, state: u64, n: nat)
    requires
        n <= s.len(),
        s.len() <= u64::MAX,
    ensures
        fisher_yates(s, state, n).0.len() == s.len(),
        fisher_yates(s, state, n).0.to_multiset() == s.to_multiset(),
    decreases n,
{
    if n > 1 {
        let next = xorshift(state);
        assert(next % (n as u64) < n as u64);
        let j = (next % (n as u64)) as int;
        let i = n - 1;
        let t = s.update(i, s[j]);
        vstd::seq_lib::to_multiset_update(s, i, s[j]);
        vstd::seq_lib::to_multiset_update(t, j, s[i]);
        assert(t[j] == s[j]);
        broadcast use vstd::multiset::group_multiset_properties, vstd::seq_lib::group_to_multiset_ensures;
        assert(s.to_multiset().contains(s[i]));
        assert(swapped(s, i, j).to_multiset() =~= s.to_multiset());
        lemma_shuffle_permutes(swapped(s, i, j), next, (n - 1) as nat);
    }
}

/// A pack of one line is one question exactly when that line is usable,
/// and then it is read field by field as `is_parsed` says: with `parse_tsv`,
/// the per-line rule of the format.
pub proof fn lemma_one_line_pack(line: Seq<char>)
    requires
        line.len() > 0,
        !line.contains('\n'),
    ensures
        usable_lines(line) == if usable_line(line) {
            seq![line]
        } else {
            Seq::<Seq<char>>::empty()
        },
{
    lemma_first_index(line, '\n');
    if first_index(line, '\n') is Some {
        let i = first_index(line, '\n')->0;
        assert(line[i] == '\n');
    }
    assert(text_lines(line) == seq![line]);
    let t = seq![line];
    let u = usable_lines(line);
    t.lemma_filter_len(|l: Seq<char>| usable_line(l));
    if usable_line(line) {
        t.lemma_filter_contains(|l: Seq<char>| usable_line(l), 0);
        assert(u.contains(line));
    } else if u.len() > 0 {
        assert(u.contains(u[0]));
        t.lemma_filter_contains_rev(|l: Seq<char>| usable_line(l), u[0]);
        t.lemma_filter_pred(|l: Seq<char>| usable_line(l), 0);
    }
    assert(usable_lines(line) =~= if usable_line(line) {
        seq![line]
    } else {
        Seq::<Seq<char>>::empty()
    });
}

/// The state whose next draw is `y`: each of xorshift's three steps is
/// undone in turn, last first.
pub open spec fn xorshift_inverse(y: u64) -> u64 {
    let b = y ^ (y << 17u64) ^ (y << 34u64) ^ (y << 51u64);
    let a = b ^ (b >> 7u64) ^ (b >> 14u64) ^ (b >> 21u64) ^ (b >> 28u64) ^ (b >> 35u64) ^ (b
        >> 42u64) ^ (b >> 49u64) ^ (b >> 56u64) ^ (b >> 63u64);
    a ^ (a << 13u64) ^ (a << 26u64) ^ (a << 39u64) ^ (a << 52u64)
}

/// Every value is some state's next draw: xorshift is onto, and only zero
/// follows zero.
pub proof fn lemma_xorshift_onto(y: u64)
    ensures
        xorshift(xorshift_inverse(y)) == y,
        y != 0 ==> xorshift_inverse(y) != 0,
{
    let b: u64 = y ^ (y << 17u64) ^ (y << 34u64) ^ (y << 51u64);
    let a: u64 = b ^ (b >> 7u64) ^ (b >> 14u64) ^ (b >> 21u64) ^ (b >> 28u64) ^ (b >> 35u64) ^ (b
        >> 42u64) ^ (b >> 49u64) ^ (b >> 56u64) ^ (b >> 63u64);
    let x: u64 = a ^ (a << 13u64) ^ (a << 26u64) ^ (a << 39u64) ^ (a << 52u64);
    assert(x == xorshift_inverse(y));
    assert(x ^ (x << 13u64) == a) by (bit_vector)
        requires
            x == a ^ (a << 13u64) ^ (a << 26u64) ^ (a << 39u64) ^ (a << 52u64),
    ;
    assert(a ^ (a >> 7u64) == b) by (bit_vector)
        requires
            a == b ^ (b >> 7u64) ^ (b >> 14u64) ^ (b >> 21u64) ^ (b >> 28u64) ^ (b >> 35u64) ^ (b
                >> 42u64) ^ (b >> 49u64) ^ (b >> 56u64) ^ (b >> 63u64),
    ;
    assert(b ^ (b << 17u64) == y) by (bit_vector)
        requires
            b == y ^ (y << 17u64) ^ (y << 34u64) ^ (y << 51u64),
    ;
    let z: u64 = 0;
    assert(xorshift(z) == 0) by {
        assert((z ^ (z << 13u64)) == 0u64 && (0u64 ^ (0u64 >> 7u64)) == 0u64 && (0u64 ^ (0u64
            << 17u64)) == 0u64) by (bit_vector)
            requires
                z == 0,
        ;
    }
}

/// The shuffle leaves the items past its first `n` where they are.
proof fn lemma_shuffle_keeps_tail<T>(s: Seq<T>, state: u64, n: nat, k: int)
    requires
        n <= k < s.len(),
        s.len() <= u64::MAX,
    ensures
        fisher_yates(s, state, n).0.len() == s.len(),
        fisher_yates(s, state, n).0[k] == s[k],
    decreases n,
{
    if n > 1 {
        let next = xorshift(state);
        assert(next % (n as u64) < n as u64);
        let j = (next % (n as u64)) as int;
        lemma_shuffle_keeps_tail(swapped(s, n - 1, j), next, (n - 1) as nat, k);
    }
}

/// Every step of the shuffle can fill its slot with any item not yet
/// placed: shuffling the first `m` items, some seed puts the item at any
/// index below `m` into slot `m - 1`, the first item and slot `m - 1`'s own
/// included.
pub proof fn lemma_shuffle_step_any_item<T>(s: Seq<T>, m: nat, j: int)
    requires
        2 <= m <= s.len() <= u64::MAX,
        0 <= j < m,
    ensures
        exists|seed: u64| (#[trigger] fisher_yates(s, seed_state(seed), m)).0[m - 1] == s[j],
{
    let d: u64 = if j == 0 {
        m as u64
    } else {
        j as u64
    };
    lemma_xorshift_onto(d);
    let seed = xorshift_inverse(d);
    assert(seed_state(seed) == seed);
    assert(xorshift(seed) == d);
    assert(d % (m as u64) == j) by (nonlinear_arith)
        requires
            d == if j == 0 {
                m as u64
            } else {
                j as u64
            },
            0 <= j < m,
            2 <= m <= u64::MAX,
    ;
    let t = swapped(s, m - 1, j);
    assert(fisher_yates(s, seed, m) == fisher_yates(t, d, (m - 1) as nat));
    lemma_shuffle_keeps_tail(t, d, (m - 1) as nat, m - 1);
    assert(fisher_yates(s, seed_state(seed), m).0[m - 1] == s[j]);
}

/// Any item can end up last: for each item of a list of two or more, some
/// seed makes the shuffle finish with it in the last slot.
pub proof fn lemma_shuffle_any_item_last<T>(s: Seq<T>, j: int)
    requires
        2 <= s.len() <= u64::MAX,
        0 <= j < s.len(),
    ensures
        exists|seed: u64|
            (#[trigger] fisher_yates(s, seed_state(seed), s.len())).0[s.len() - 1] == s[j],
{
    lemma_shuffle_step_any_item(s, s.len(), j);
}

/// So with items all different, the first item does not always stay
/// first: some seed moves it.
pub proof fn lemma_shuffle_moves_first_item<T>(s: Seq<T>)
    requires
        2 <= s.len() <= u64::MAX,
        s.no_duplicates(),
    ensures
        exists|seed: u64| (#[trigger] fisher_yates(s, seed_state(seed), s.len())).0[0] != s[0],
{
    lemma_shuffle_any_item_last(s, 0);
    let seed = choose|seed: u64|
        (#[trigger] fisher_yates(s, seed_state(seed), s.len())).0[s.len() - 1] == s[0];
    let r = fisher_yates(s, seed_state(seed), s.len()).0;
    lemma_shuffle_permutes(s, seed_state(seed), s.len());
    s.lemma_multiset_has_no_duplicates();
    r.lemma_multiset_has_no_duplicates_conv();
    assert(r[0] != r[s.len() - 1]);
}

} // verus!
