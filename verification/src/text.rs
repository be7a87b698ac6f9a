//! Verified text utilities: whitespace tokenization, case-insensitive
//! keyword comparison, decimal parsing and rendering. The command layer and
//! the address parser build on these.

use vstd::prelude::*;

verus! {

/// The character sequences behind a vector of strings.
pub open spec fn views_of(ss: Seq<String>) -> Seq<Seq<char>> {
    ss.map_values(|s: String| s@)
}

/// The whitespace characters the tokenizer recognises.
pub open spec fn is_space(c: char) -> bool {
    c == ' ' || c == '\t' || c == '\r' || c == '\n'
}

/// End of the token that starts at `i`: the first whitespace position at
/// or after `i`, or the end of the sequence.
pub open spec fn token_end(s: Seq<char>, i: int) -> int
    decreases s.len() - i when 0 <= i <= s.len()
{
    if i >= s.len() {
        i
    } else if is_space(s[i]) {
        i
    } else {
        token_end(s, i + 1)
    }
}

pub proof fn lemma_token_end_bounds(s: Seq<char>, i: int)
    requires
        0 <= i <= s.len(),
    ensures
        i <= token_end(s, i) <= s.len(),
    decreases s.len() - i,
{
    if i < s.len() && !is_space(s[i]) {
        lemma_token_end_bounds(s, i + 1);
    }
}

/// The whitespace-separated tokens of the suffix of `s` that starts at `i`.
pub open spec fn tokens_from(s: Seq<char>, i: int) -> Seq<Seq<char>>
    decreases s.len() - i when 0 <= i <= s.len() via tokens_from_decreases
{
    if i >= s.len() {
        Seq::empty()
    } else if is_space(s[i]) {
        tokens_from(s, i + 1)
    } else {
        seq![s.subrange(i, token_end(s, i))] + tokens_from(s, token_end(s, i))
    }
}

#[via_fn]
proof fn tokens_from_decreases(s: Seq<char>, i: int) {
    if 0 <= i < s.len() && !is_space(s[i]) {
        lemma_token_end_bounds(s, i + 1);
        assert(token_end(s, i) == token_end(s, i + 1));
    }
}

/// The whitespace-separated tokens of the whole sequence, in order.
pub open spec fn tokens_of(s: Seq<char>) -> Seq<Seq<char>> {
    tokens_from(s, 0)
}

fn space_char(c: char) -> (r: bool)
    ensures
        r == is_space(c),
{
    c == ' ' || c == '\t' || c == '\r' || c == '\n'
}

/// First whitespace position at or after `i`, or the end.
fn scan_token_end(s: &str, i: usize, slen: usize) -> (j: usize)
    requires
        slen == s@.len(),
        i <= slen,
    ensures
        j == token_end(s@, i as int),
        i <= j <= slen,
    decreases slen - i,
{
    if i >= slen {
        return i;
    }
    let c = s.get_char(i);
    if space_char(c) {
        i
    } else {
        scan_token_end(s, i + 1, slen)
    }
}

/// Split a string into its whitespace-separated tokens, in order. Runs of
/// whitespace separate tokens and never produce empty ones.
pub fn tokenize(s: &String) -> (toks: Vec<String>)
    ensures
        views_of(toks@) == tokens_of(s@),
{
    let sl = s.as_str();
    let n = sl.unicode_len();
    let mut toks: Vec<String> = Vec::new();
    let mut i: usize = 0;
    proof {
        assert(views_of(toks@) =~= Seq::<Seq<char>>::empty());
    }
    while i < n
        invariant
            i <= n,
            n == sl@.len(),
            sl@ == s@,
            views_of(toks@) + tokens_from(s@, i as int) == tokens_of(s@),
        decreases n - i,
    {
        let c = sl.get_char(i);
        if space_char(c) {
            i += 1;
        } else {
            let ghost toks0 = toks@;
            let j = scan_token_end(sl, i, n);
            let piece = sl.substring_char(i, j);
            let t = piece.to_owned();
            toks.push(t);
            proof {
                assert(views_of(toks@) =~= views_of(toks0).push(
                    s@.subrange(i as int, j as int),
                ));
                assert(tokens_from(s@, i as int) == seq![s@.subrange(i as int, j as int)]
                    + tokens_from(s@, j as int));
                assert(views_of(toks0) + tokens_from(s@, i as int) =~= views_of(toks@)
                    + tokens_from(s@, j as int));
            }
            proof {
                lemma_token_end_bounds(s@, i as int);
            }
            i = j;
        }
    }
    proof {
        assert(tokens_from(s@, n as int) =~= Seq::<Seq<char>>::empty());
        assert(views_of(toks@) =~= tokens_of(s@));
    }
    toks
}

/// Upper-case folding of one character, ASCII letters only: a lower-case
/// ASCII letter maps to its upper-case form, every other character to
/// itself. Command keywords are matched through this folding.
pub open spec fn upper_char(c: char) -> char {
    if 97 <= c as int <= 122 {
        (c as int - 32) as char
    } else {
        c
    }
}

/// The same folding over a whole sequence.
pub open spec fn upper_seq(s: Seq<char>) -> Seq<char> {
    s.map_values(|c: char| upper_char(c))
}

fn upper(c: char) -> (r: char)
    ensures
        r == upper_char(c),
{
    let n = c as u32;
    if 97 <= n && n <= 122 {
        ((n - 32) as u8) as char
    } else {
        c
    }
}

/// Whether two strings agree after upper-case folding of ASCII letters,
/// as when a typed keyword is matched against its canonical spelling.
pub fn eq_ignore_case(a: &str, b: &str) -> (r: bool)
    ensures
        r == (upper_seq(a@) == upper_seq(b@)),
{
    let an = a.unicode_len();
    let bn = b.unicode_len();
    if an != bn {
        proof {
            assert(upper_seq(a@).len() == a@.len());
            assert(upper_seq(b@).len() == b@.len());
        }
        return false;
    }
    let mut i: usize = 0;
    while i < an
        invariant
            i <= an,
            an == a@.len(),
            an == b@.len(),
            forall|k: int| 0 <= k < i ==> upper_char(a@[k]) == upper_char(b@[k]),
        decreases an - i,
    {
        let ca = a.get_char(i);
        let cb = b.get_char(i);
        if upper(ca) != upper(cb) {
            proof {
                assert(upper_seq(a@)[i as int] != upper_seq(b@)[i as int]);
            }
            return false;
        }
        i += 1;
    }
    proof {
        assert(upper_seq(a@) =~= upper_seq(b@));
    }
    true
}

/// Trailing whitespace removed.
pub open spec fn rtrim_spec(s: Seq<char>) -> Seq<char>
    decreases s.len(),
{
    if s.len() == 0 {
        s
    } else if is_space(s.last()) {
        rtrim_spec(s.drop_last())
    } else {
        s
    }
}

/// Leading whitespace removed.
pub open spec fn ltrim_spec(s: Seq<char>) -> Seq<char>
    decreases s.len(),
{
    if s.len() == 0 {
        s
    } else if is_space(s.first()) {
        ltrim_spec(s.drop_first())
    } else {
        s
    }
}

/// Both ends trimmed, as an incoming chat line is before display.
pub open spec fn trim_spec(s: Seq<char>) -> Seq<char> {
    ltrim_spec(rtrim_spec(s))
}

fn rtrim_end(s: &str, e: usize) -> (r: usize)
    requires
        e <= s@.len(),
    ensures
        r <= e,
        rtrim_spec(s@.take(e as int)) == s@.take(r as int),
    decreases e,
{
    if e == 0 {
        proof {
            assert(s@.take(0) =~= Seq::<char>::empty());
        }
        0
    } else {
        let c = s.get_char(e - 1);
        proof {
            assert(s@.take(e as int).last() == s@[e as int - 1]);
            assert(s@.take(e as int).drop_last() =~= s@.take(e as int - 1));
        }
        if space_char(c) {
            rtrim_end(s, e - 1)
        } else {
            e
        }
    }
}

fn ltrim_start(s: &str, a: usize, e: usize) -> (r: usize)
    requires
        a <= e <= s@.len(),
    ensures
        a <= r <= e,
        ltrim_spec(s@.subrange(a as int, e as int)) == s@.subrange(r as int, e as int),
    decreases e - a,
{
    if a == e {
        a
    } else {
        let c = s.get_char(a);
        proof {
            assert(s@.subrange(a as int, e as int).first() == s@[a as int]);
            assert(s@.subrange(a as int, e as int).drop_first() =~= s@.subrange(
                a as int + 1,
                e as int,
            ));
        }
        if space_char(c) {
            ltrim_start(s, a + 1, e)
        } else {
            a
        }
    }
}

/// A copy of the string with leading and trailing whitespace removed.
pub fn trim_string(s: &String) -> (r: String)
    ensures
        r@ == trim_spec(s@),
{
    let sl = s.as_str();
    let n = sl.unicode_len();
    let e = rtrim_end(sl, n);
    let a = ltrim_start(sl, 0, e);
    let piece = sl.substring_char(a, e);
    proof {
        assert(s@.take(n as int) =~= s@);
        assert(s@.take(e as int) =~= s@.subrange(0, e as int));
    }
    piece.to_owned()
}

/// The character for one decimal digit value.
pub open spec fn dec_digit(d: int) -> char {
    (48 + d) as char
}

/// The decimal rendering of a non-negative number, most significant digit
/// first, without leading zeroes (a lone zero renders as "0").
pub open spec fn dec_str(n: int) -> Seq<char>
    recommends
        0 <= n,
    decreases n,
{
    if n < 10 {
        seq![dec_digit(n)]
    } else {
        dec_str(n / 10).push(dec_digit(n % 10))
    }
}

fn digit_str(d: u8) -> (s: &'static str)
    requires
        d < 10,
    ensures
        s@ =~= seq![dec_digit(d as int)],
{
    proof {
        reveal_strlit("0");
        reveal_strlit("1");
        reveal_strlit("2");
        reveal_strlit("3");
        reveal_strlit("4");
        reveal_strlit("5");
        reveal_strlit("6");
        reveal_strlit("7");
        reveal_strlit("8");
        reveal_strlit("9");
    }
    match d {
        0 => "0",
        1 => "1",
        2 => "2",
        3 => "3",
        4 => "4",
        5 => "5",
        6 => "6",
        7 => "7",
        8 => "8",
        _ => "9",
    }
}

/// Render a number in decimal, as the ports in endpoint strings are.
pub fn u16_to_string(n: u16) -> (s: String)
    ensures
        s@ == dec_str(n as int),
    decreases n,
{
    if n < 10 {
        let s = digit_str(n as u8).to_owned();
        s
    } else {
        let mut s = u16_to_string(n / 10);
        s.append(digit_str((n % 10) as u8));
        proof {
            assert(s@ =~= dec_str(n as int));
        }
        s
    }
}

/// Whether a character is a decimal digit.
pub open spec fn is_digit(c: char) -> bool {
    48 <= c as int <= 57
}

/// The numeric value of a digit character.
pub open spec fn digit_val(c: char) -> int {
    c as int - 48
}

pub open spec fn all_digits(s: Seq<char>) -> bool {
    forall|i: int| 0 <= i < s.len() ==> is_digit(#[trigger] s[i])
}

/// The numeric value of a digit string, most significant digit first.
pub open spec fn dec_val(s: Seq<char>) -> int
    decreases s.len(),
{
    if s.len() == 0 {
        0
    } else {
        dec_val(s.drop_last()) * 10 + digit_val(s.last())
    }
}

/// A segment that parses as one octet: non-empty, digits only, value at
/// most 255.
pub open spec fn valid_u8_seg(s: Seq<char>) -> bool {
    s.len() > 0 && all_digits(s) && dec_val(s) <= 255
}

pub proof fn lemma_dec_val_nonneg(s: Seq<char>)
    requires
        all_digits(s),
    ensures
        dec_val(s) >= 0,
    decreases s.len(),
{
    if s.len() > 0 {
        assert(all_digits(s.drop_last())) by {
            assert(forall|i: int|
                0 <= i < s.drop_last().len() ==> #[trigger] s.drop_last()[i] == s[i]);
        }
        lemma_dec_val_nonneg(s.drop_last());
    }
}

/// A longer prefix of a digit string never has a smaller value, so a
/// prefix that already exceeds a bound decides the whole string.
pub proof fn lemma_dec_val_prefix(s: Seq<char>, i: int)
    requires
        all_digits(s),
        0 <= i <= s.len(),
    ensures
        dec_val(s) >= dec_val(s.take(i)),
    decreases s.len() - i,
{
    if i < s.len() {
        lemma_dec_val_prefix(s, i + 1);
        assert(s.take(i + 1).drop_last() =~= s.take(i));
        assert(s.take(i + 1).last() == s[i]);
        assert(all_digits(s.take(i))) by {
            assert(forall|k: int| 0 <= k < i ==> #[trigger] s.take(i)[k] == s[k]);
        }
        lemma_dec_val_nonneg(s.take(i));
        assert(dec_val(s.take(i + 1)) == dec_val(s.take(i)) * 10 + digit_val(s[i]));
    } else {
        assert(s.take(i) =~= s);
    }
}

/// Parse a digit string as one octet: `Some` exactly when the segment is
/// non-empty, all digits, and its value fits in eight bits.
pub fn parse_u8_decimal(seg: &str) -> (r: Option<u8>)
    ensures
        match r {
            Some(v) => valid_u8_seg(seg@) && v as int == dec_val(seg@),
            None => !valid_u8_seg(seg@),
        },
{
    let n = seg.unicode_len();
    if n == 0 {
        return None;
    }
    let mut acc: u32 = 0;
    let mut i: usize = 0;
    proof {
        assert(seg@.take(0) =~= Seq::<char>::empty());
    }
    while i < n
        invariant
            i <= n,
            n == seg@.len(),
            all_digits(seg@.take(i as int)),
            acc as int == dec_val(seg@.take(i as int)),
            acc <= 255,
        decreases n - i,
    {
        let c = seg.get_char(i);
        let cv = c as u32;
        if cv < 48 || cv > 57 {
            proof {
                assert(!is_digit(seg@[i as int]));
            }
            return None;
        }
        let d = cv - 48;
        let next = acc * 10 + d;
        proof {
            assert(seg@.take(i as int + 1).drop_last() =~= seg@.take(i as int));
            assert(seg@.take(i as int + 1).last() == seg@[i as int]);
            assert(all_digits(seg@.take(i as int + 1))) by {
                assert(forall|k: int|
                    0 <= k < i + 1 ==> #[trigger] seg@.take(i as int + 1)[k] == seg@[k]);
            }
        }
        if next > 255 {
            proof {
                if all_digits(seg@) {
                    lemma_dec_val_prefix(seg@, i as int + 1);
                }
            }
            return None;
        }
        acc = next;
        i += 1;
    }
    proof {
        assert(seg@.take(n as int) =~= seg@);
    }
    Some(acc as u8)
}

} // verus!
