//! Text helpers: the `char` view of `str` and `String`, and the few std
//! string operations the parsers and writers build on.
use vstd::prelude::*;

verus! {

/// Unicode `White_Space`, the set `char::is_whitespace` tests.
pub open spec fn is_white_space(c: char) -> bool {
    let u = c as u32;
    ||| 0x09 <= u <= 0x0d
    ||| u == 0x20
    ||| u == 0x85
    ||| u == 0xa0
    ||| u == 0x1680
    ||| 0x2000 <= u <= 0x200a
    ||| u == 0x2028
    ||| u == 0x2029
    ||| u == 0x202f
    ||| u == 0x205f
    ||| u == 0x3000
}

/// General category `Cc`, the set `char::is_control` tests.
pub open spec fn is_control(c: char) -> bool {
    let u = c as u32;
    u <= 0x1f || 0x7f <= u <= 0x9f
}

/// ASCII upper case letters mapped to lower case; every other char kept.
pub open spec fn ascii_lower(c: char) -> char {
    if 'A' <= c <= 'Z' {
        ((c as u32) + 32) as char
    } else {
        c
    }
}

/// `to_ascii_lowercase` over a whole text.
pub open spec fn lower_ascii(s: Seq<char>) -> Seq<char> {
    s.map_values(|c: char| ascii_lower(c))
}

/// The text without its trailing white space.
pub open spec fn trim_end(s: Seq<char>) -> Seq<char>
    decreases s.len(),
{
    if s.len() > 0 && is_white_space(s.last()) {
        trim_end(s.drop_last())
    } else {
        s
    }
}

/// The text without its leading white space.
pub open spec fn trim_start(s: Seq<char>) -> Seq<char>
    decreases s.len(),
{
    if s.len() > 0 && is_white_space(s[0]) {
        trim_start(s.drop_first())
    } else {
        s
    }
}

/// The text without leading and trailing white space.
pub open spec fn trim(s: Seq<char>) -> Seq<char> {
    trim_end(trim_start(s))
}

/// Whether `c` is white space, as `char::is_whitespace` decides.
pub fn char_is_white_space(c: char) -> (r: bool)
    ensures
        r == is_white_space(c),
{
    let u = c as u32;
    (0x09 <= u && u <= 0x0d) || u == 0x20 || u == 0x85 || u == 0xa0 || u == 0x1680 || (0x2000 <= u
        && u <= 0x200a) || u == 0x2028 || u == 0x2029 || u == 0x202f || u == 0x205f || u == 0x3000
}

/// Whether `c` is a control character, as `char::is_control` decides.
pub fn char_is_control(c: char) -> (r: bool)
    ensures
        r == is_control(c),
{
    let u = c as u32;
    u <= 0x1f || (0x7f <= u && u <= 0x9f)
}

/// The characters of `s`, in order.
pub fn chars_vec(s: &str) -> (v: Vec<char>)
    ensures
        v@ == s@,
{
    let mut v: Vec<char> = Vec::new();
    for c in it: s.chars()
        invariant
            v@ == it.seq().take(it.index() as int),
            it.seq() == s@,
    {
        v.push(c);
    }
    v
}

/// `String::push`: appends one character.
#[verifier::external_body]
pub(crate) fn push_char(out: &mut String, c: char)
    ensures
        final(out)@ == old(out)@.push(c),
{
    out.push(c);
}

/// Appends the first `n` characters of `chars`.
pub fn push_chars(out: &mut String, chars: &Vec<char>, n: usize)
    requires
        n <= chars@.len(),
    ensures
        final(out)@ == old(out)@ + chars@.take(n as int),
{
    let mut i: usize = 0;
    while i < n
        invariant
            i <= n <= chars@.len(),
            out@ == old(out)@ + chars@.take(i as int),
        decreases n - i,
    {
        push_char(out, chars[i]);
        assert(chars@.take(i + 1) =~= chars@.take(i as int).push(chars@[i as int]));
        i = i + 1;
    }
}

/// A `String` holding exactly `chars`.
pub fn string_from_chars(chars: &Vec<char>) -> (s: String)
    ensures
        s@ == chars@,
{
    let mut s = String::new();
    push_chars(&mut s, chars, chars.len());
    assert(chars@.take(chars@.len() as int) =~= chars@);
    s
}

/// Whether two texts are the same, character by character.
pub fn str_eq(a: &str, b: &str) -> (r: bool)
    ensures
        r == (a@ == b@),
{
    let x = chars_vec(a);
    let y = chars_vec(b);
    if x.len() != y.len() {
        return false;
    }
    let mut i: usize = 0;
    while i < x.len()
        invariant
            i <= x@.len(),
            x@.len() == y@.len(),
            x@ == a@,
            y@ == b@,
            forall|j: int| 0 <= j < i ==> x@[j] == y@[j],
        decreases x.len() - i,
    {
        if x[i] != y[i] {
            return false;
        }
        i = i + 1;
    }
    assert(x@ =~= y@);
    true
}

/// `str::eq_ignore_ascii_case`: equal once ASCII letters are lower-cased.
#[verifier::external_body]
pub(crate) fn eq_ignore_ascii_case(a: &str, b: &str) -> (r: bool)
    ensures
        r == (lower_ascii(a@) == lower_ascii(b@)),
{
    a.eq_ignore_ascii_case(b)
}

/// The position of the first `d` in `s`.
pub open spec fn first_index(s: Seq<char>, d: char) -> Option<int>
    decreases s.len(),
{
    if s.len() == 0 {
        None
    } else {
        match first_index(s.drop_last(), d) {
            Some(i) => Some(i),
            None => if s.last() == d {
                Some(s.len() - 1)
            } else {
                None
            },
        }
    }
}

pub proof fn lemma_first_index(s: Seq<char>, d: char)
    ensures
        match first_index(s, d) {
            Some(i) => 0 <= i < s.len() && s[i] == d && forall|j: int|
                0 <= j < i ==> #[trigger] s[j] != d,
            None => forall|j: int| 0 <= j < s.len() ==> #[trigger] s[j] != d,
        },
    decreases s.len(),
{
    if s.len() > 0 {
        let t = s.drop_last();
        lemma_first_index(t, d);
        assert forall|j: int| 0 <= j < t.len() implies t[j] == s[j] by {}
    }
}

/// The pieces of `s` between the `d`s, as `str::split` yields them.
pub open spec fn split_on(s: Seq<char>, d: char) -> Seq<Seq<char>>
    decreases s.len(),
{
    match first_index(s, d) {
        Some(i) => if 0 <= i < s.len() {
            seq![s.take(i)] + split_on(s.skip(i + 1), d)
        } else {
            seq![s]
        },
        None => seq![s],
    }
}

/// The lines of `s`, as `str::lines` yields them: split at `\n`, a `\r`
/// right before a `\n` dropped, no empty line after a final line end.
pub open spec fn text_lines(s: Seq<char>) -> Seq<Seq<char>>
    decreases s.len(),
{
    if s.len() == 0 {
        Seq::empty()
    } else {
        match first_index(s, '\n') {
            Some(i) => if 0 <= i < s.len() {
                seq![strip_cr(s.take(i))] + text_lines(s.skip(i + 1))
            } else {
                seq![s]
            },
            None => seq![s],
        }
    }
}

/// A line without the `\r` of a `\r\n` line end.
pub open spec fn strip_cr(s: Seq<char>) -> Seq<char> {
    if s.len() > 0 && s.last() == '\r' {
        s.drop_last()
    } else {
        s
    }
}

/// `str::split_once` on a character: the text before and after the first
/// `d`, or `None` when there is none.
#[verifier::external_body]
pub(crate) fn split_once_char(s: &str, d: char) -> (r: Option<(&str, &str)>)
    ensures
        match first_index(s@, d) {
            Some(i) => r matches Some(p) && p.0@ == s@.take(i) && p.1@ == s@.skip(i + 1),
            None => r is None,
        },
{
    s.split_once(d)
}

/// `str::strip_suffix` on a character.
#[verifier::external_body]
pub(crate) fn strip_suffix_char(s: &str, c: char) -> (r: Option<&str>)
    ensures
        r is Some == (s@.len() > 0 && s@.last() == c),
        r matches Some(t) ==> t@ == s@.drop_last(),
{
    s.strip_suffix(c)
}

/// Whether `s` starts with `c`.
pub fn starts_with_char(s: &str, c: char) -> (r: bool)
    ensures
        r == (s@.len() > 0 && s@[0] == c),
{
    let x = chars_vec(s);
    x.len() > 0 && x[0] == c
}

/// `str::trim`: without leading and trailing white space.
#[verifier::external_body]
pub(crate) fn trim_str(s: &str) -> (r: &str)
    ensures
        r@ == trim(s@),
{
    s.trim()
}

/// Every piece of `s` between the `d`s.
pub fn split_all<'a>(s: &'a str, d: char) -> (r: Vec<&'a str>)
    ensures
        r@.map_values(|x: &str| x@) == split_on(s@, d),
{
    let mut r: Vec<&'a str> = Vec::new();
    let mut rest: &'a str = s;
    loop
        invariant
            split_on(s@, d) == r@.map_values(|x: &str| x@) + split_on(rest@, d),
        decreases rest@.len(),
    {
        proof {
            lemma_first_index(rest@, d);
        }
        match split_once_char(rest, d) {
            Some((head, tail)) => {
                let ghost before = r@;
                r.push(head);
                assert(r@.map_values(|x: &str| x@) =~= before.map_values(|x: &str| x@).push(
                    head@,
                ));
                assert(split_on(rest@, d) == seq![head@] + split_on(tail@, d));
                assert(before.map_values(|x: &str| x@) + split_on(rest@, d) =~= r@.map_values(
                    |x: &str| x@,
                ) + split_on(tail@, d));
                rest = tail;
            },
            None => {
                let ghost before = r@;
                r.push(rest);
                assert(r@.map_values(|x: &str| x@) =~= before.map_values(|x: &str| x@).push(
                    rest@,
                ));
                assert(r@.map_values(|x: &str| x@) =~= before.map_values(|x: &str| x@) + split_on(
                    rest@,
                    d,
                ));
                return r;
            },
        }
    }
}

/// An ASCII decimal digit.
pub open spec fn is_digit(c: char) -> bool {
    '0' <= c <= '9'
}

/// The value of an ASCII decimal digit.
pub open spec fn digit_value(c: char) -> nat {
    ((c as u32) - ('0' as u32)) as nat
}

/// The value of a run of decimal digits.
pub open spec fn digits_value(s: Seq<char>) -> nat
    decreases s.len(),
{
    if s.len() == 0 {
        0
    } else {
        digits_value(s.drop_last()) * 10 + digit_value(s.last())
    }
}

/// Every character is a decimal digit.
pub open spec fn all_digits(t: Seq<char>) -> bool {
    forall|i: int| 0 <= i < t.len() ==> is_digit(#[trigger] t[i])
}

/// The text after an optional leading `+`.
pub open spec fn unsigned_part(s: Seq<char>) -> Seq<char> {
    if s.len() > 0 && s[0] == '+' {
        s.drop_first()
    } else {
        s
    }
}

/// What `str::parse` makes of an unsigned number before the range check:
/// an optional `+`, then one or more decimal digits.
pub open spec fn parse_decimal(s: Seq<char>) -> Option<nat> {
    let t = unsigned_part(s);
    if t.len() > 0 && all_digits(t) {
        Some(digits_value(t))
    } else {
        None
    }
}

proof fn lemma_digits_value_grows(s: Seq<char>, k: int)
    requires
        0 <= k <= s.len(),
    ensures
        digits_value(s.take(k)) <= digits_value(s),
    decreases s.len(),
{
    if k < s.len() {
        assert(s.drop_last().take(k) =~= s.take(k));
        lemma_digits_value_grows(s.drop_last(), k);
    } else {
        assert(s.take(k) =~= s);
    }
}

/// `u64::from_str`: the number, or `None` when the text is not one or
/// does not fit.
pub fn parse_u64(s: &str) -> (r: Option<u64>)
    ensures
        r == match parse_decimal(s@) {
            Some(n) => if n <= u64::MAX {
                Some(n as u64)
            } else {
                None
            },
            None => None,
        },
{
    let chars = chars_vec(s);
    let start: usize = if chars.len() > 0 && chars[0] == '+' {
        1
    } else {
        0
    };
    let ghost t = unsigned_part(s@);
    assert(t =~= chars@.skip(start as int));
    if start >= chars.len() {
        return None;
    }
    let mut acc: u64 = 0;
    let mut i: usize = start;
    while i < chars.len()
        invariant
            start <= i <= chars@.len(),
            chars@ == s@,
            t == chars@.skip(start as int),
            t == unsigned_part(s@),
            forall|j: int| 0 <= j < i - start ==> is_digit(#[trigger] t[j]),
            acc == digits_value(t.take(i - start)),
        decreases chars.len() - i,
    {
        let c = chars[i];
        assert(t[i - start] == c);
        if !('0' <= c && c <= '9') {
            assert(!is_digit(t[i - start]));
            assert(parse_decimal(s@) is None);
            return None;
        }
        let d = (c as u32 - '0' as u32) as u64;
        assert(t.take(i - start + 1).drop_last() =~= t.take(i - start));
        assert(t.take(i - start + 1).last() == c);
        assert(digit_value(c) == d);
        assert(digits_value(t.take(i - start + 1)) == acc * 10 + d);
        proof {
            if acc > (u64::MAX - d) / 10 {
                assert(digits_value(t.take(i - start + 1)) > u64::MAX) by (nonlinear_arith)
                    requires
                        digits_value(t.take(i - start + 1)) == acc * 10 + d,
                        acc > (u64::MAX - d) / 10,
                        d <= 9,
                ;
                if all_digits(t) {
                    lemma_digits_value_grows(t, i - start + 1);
                    assert(parse_decimal(s@) == Some(digits_value(t)));
                }
            }
        }
        if acc > (u64::MAX - d) / 10 {
            return None;
        }
        acc = acc * 10 + d;
        i = i + 1;
    }
    assert(t.take(t.len() as int) =~= t);
    Some(acc)
}

/// `usize::from_str`: the number, or `None` when the text is not one or
/// does not fit.
pub fn parse_usize(s: &str) -> (r: Option<usize>)
    ensures
        r == match parse_decimal(s@) {
            Some(n) => if n <= usize::MAX {
                Some(n as usize)
            } else {
                None
            },
            None => None,
        },
{
    match parse_u64(s) {
        Some(n) => if n <= usize::MAX as u64 {
            Some(n as usize)
        } else {
            None
        },
        None => None,
    }
}

/// Pieces joined with `sep` between them, as `[String]::join` writes them.
pub open spec fn joined(pieces: Seq<Seq<char>>, sep: Seq<char>) -> Seq<char>
    decreases pieces.len(),
{
    if pieces.len() == 0 {
        Seq::empty()
    } else if pieces.len() == 1 {
        pieces[0]
    } else {
        pieces[0] + sep + joined(pieces.skip(1), sep)
    }
}

/// Appending a piece to a non-empty list adds a separator and the piece.
pub proof fn lemma_joined_push(p: Seq<Seq<char>>, x: Seq<char>, sep: Seq<char>)
    requires
        p.len() > 0,
    ensures
        joined(p.push(x), sep) == joined(p, sep) + sep + x,
    decreases p.len(),
{
    if p.len() == 1 {
        let q = p.push(x);
        assert(q.skip(1) =~= seq![x]);
        assert(q[0] == p[0]);
        assert(joined(seq![x], sep) == x);
        assert(joined(q, sep) == q[0] + sep + joined(q.skip(1), sep));
        assert(joined(q, sep) =~= joined(p, sep) + sep + x);
    } else {
        let q = p.push(x);
        assert(q.skip(1) =~= p.skip(1).push(x));
        assert(q[0] == p[0]);
        lemma_joined_push(p.skip(1), x, sep);
        assert(joined(q, sep) == q[0] + sep + joined(q.skip(1), sep));
        assert(joined(p, sep) == p[0] + sep + joined(p.skip(1), sep));
        assert(joined(q, sep) =~= joined(p, sep) + sep + x);
    }
}

} // verus!
