//! Text helpers shared by the protocol formatters and parsers.

use vstd::prelude::*;

verus! {

/// `<str as PartialEq>::eq`: two string slices are equal exactly when they hold
/// the same characters.
#[verifier::external_body]
pub(crate) fn str_eq(a: &str, b: &str) -> (r: bool)
    ensures
        r == (a@ == b@),
{
    a == b
}

/// `String::push`: appends one character at the end of the string.
#[verifier::external_body]
pub(crate) fn push_char(s: &mut String, c: char)
    ensures
        final(s)@ == old(s)@.push(c),
{
    s.push(c)
}

/// `String::push_str`: appends the characters of `t` at the end of the string.
#[verifier::external_body]
pub(crate) fn push_str(s: &mut String, t: &str)
    ensures
        final(s)@ == old(s)@ + t@,
{
    s.push_str(t)
}

/// `str::to_string`: an owned string with the same characters.
#[verifier::external_body]
pub(crate) fn to_owned_string(t: &str) -> (s: String)
    ensures
        s@ == t@,
{
    t.to_string()
}

/// `String::new`: the empty string.
#[verifier::external_body]
pub(crate) fn empty_string() -> (s: String)
    ensures
        s@ == Seq::<char>::empty(),
{
    String::new()
}

/// The decimal digit character for `d` (`0 <= d < 10`).
pub open spec fn digit_char(d: int) -> char {
    if d == 0 {
        '0'
    } else if d == 1 {
        '1'
    } else if d == 2 {
        '2'
    } else if d == 3 {
        '3'
    } else if d == 4 {
        '4'
    } else if d == 5 {
        '5'
    } else if d == 6 {
        '6'
    } else if d == 7 {
        '7'
    } else if d == 8 {
        '8'
    } else {
        '9'
    }
}

/// Decimal representation of `n`, most significant digit first, without
/// leading zeros (`0` is written `0`).
pub open spec fn decimal(n: nat) -> Seq<char>
    decreases n,
{
    if n < 10 {
        seq![digit_char(n as int)]
    } else {
        decimal(n / 10).push(digit_char((n % 10) as int))
    }
}

fn digit(d: u64) -> (c: char)
    requires
        d < 10,
    ensures
        c == digit_char(d as int),
{
    if d == 0 {
        '0'
    } else if d == 1 {
        '1'
    } else if d == 2 {
        '2'
    } else if d == 3 {
        '3'
    } else if d == 4 {
        '4'
    } else if d == 5 {
        '5'
    } else if d == 6 {
        '6'
    } else if d == 7 {
        '7'
    } else if d == 8 {
        '8'
    } else {
        '9'
    }
}

/// Appends the decimal representation of `n`.
pub fn push_decimal(s: &mut String, n: u64)
    ensures
        final(s)@ == old(s)@ + decimal(n as nat),
    decreases n,
{
    if n < 10 {
        push_char(s, digit(n));
        assert(seq![digit_char(n as int)] =~= decimal(n as nat));
    } else {
        push_decimal(s, n / 10);
        push_char(s, digit(n % 10));
        assert(old(s)@ + decimal(n as nat) =~= old(s)@ + decimal((n / 10) as nat) + seq![digit_char((n % 10) as int)]);
    }
}

/// `n` written in decimal.
pub fn decimal_string(n: u64) -> (s: String)
    ensures
        s@ == decimal(n as nat),
{
    let mut s = empty_string();
    push_decimal(&mut s, n);
    assert(s@ =~= decimal(n as nat));
    s
}

/// The characters of `s`.
pub fn chars_of(s: &str) -> (v: Vec<char>)
    ensures
        v@ == s@,
{
    let n = s.unicode_len();
    let mut v: Vec<char> = Vec::new();
    let mut i: usize = 0;
    while i < n
        invariant
            i <= n,
            n == s@.len(),
            v@ == s@.subrange(0, i as int),
        decreases n - i,
    {
        v.push(s.get_char(i));
        i = i + 1;
        assert(v@ =~= s@.subrange(0, i as int));
    }
    assert(v@ =~= s@);
    v
}

/// An owned string holding `chars[from..to]`.
pub fn string_from(chars: &Vec<char>, from: usize, to: usize) -> (s: String)
    requires
        from <= to <= chars@.len(),
    ensures
        s@ == chars@.subrange(from as int, to as int),
{
    let mut s = empty_string();
    let mut i: usize = from;
    while i < to
        invariant
            from <= i <= to,
            to <= chars@.len(),
            s@ == chars@.subrange(from as int, i as int),
        decreases to - i,
    {
        push_char(&mut s, chars[i]);
        i = i + 1;
        assert(s@ =~= chars@.subrange(from as int, i as int));
    }
    s
}

/// Unicode `White_Space`, as `char::is_whitespace` decides it.
pub open spec fn is_ws(c: char) -> bool {
    ||| c == '\t'
    ||| c == '\n'
    ||| c == '\u{0B}'
    ||| c == '\u{0C}'
    ||| c == '\r'
    ||| c == ' '
    ||| c == '\u{85}'
    ||| c == '\u{A0}'
    ||| c == '\u{1680}'
    ||| ('\u{2000}' <= c && c <= '\u{200A}')
    ||| c == '\u{2028}'
    ||| c == '\u{2029}'
    ||| c == '\u{202F}'
    ||| c == '\u{205F}'
    ||| c == '\u{3000}'
}

pub fn is_whitespace(c: char) -> (b: bool)
    ensures
        b == is_ws(c),
{
    c == '\t' || c == '\n' || c == '\u{0B}' || c == '\u{0C}' || c == '\r' || c == ' ' || c
        == '\u{85}' || c == '\u{A0}' || c == '\u{1680}' || ('\u{2000}' <= c && c <= '\u{200A}')
        || c == '\u{2028}' || c == '\u{2029}' || c == '\u{202F}' || c == '\u{205F}' || c
        == '\u{3000}'
}

/// Length of the whitespace run at the start of `s`.
pub open spec fn ws_run(s: Seq<char>) -> nat
    decreases s.len(),
{
    if s.len() > 0 && is_ws(s[0]) {
        1 + ws_run(s.drop_first())
    } else {
        0
    }
}

/// Length of the non-whitespace run at the start of `s`.
pub open spec fn word_run(s: Seq<char>) -> nat
    decreases s.len(),
{
    if s.len() > 0 && !is_ws(s[0]) {
        1 + word_run(s.drop_first())
    } else {
        0
    }
}

proof fn lemma_runs_bounded(s: Seq<char>)
    ensures
        ws_run(s) <= s.len(),
        word_run(s) <= s.len(),
        s.len() > 0 && !is_ws(s[0]) ==> word_run(s) >= 1,
    decreases s.len(),
{
    if s.len() > 0 {
        lemma_runs_bounded(s.drop_first());
    }
}

/// The whitespace-separated words of `s`, as `str::split_whitespace` yields them.
pub open spec fn words(s: Seq<char>) -> Seq<Seq<char>>
    decreases s.len(),
{
    let t = s.skip(ws_run(s) as int);
    if ws_run(s) > s.len() || t.len() == 0 {
        Seq::empty()
    } else {
        let n = word_run(t);
        if 1 <= n <= t.len() {
            seq![t.take(n as int)] + words(t.skip(n as int))
        } else {
            Seq::empty()
        }
    }
}

/// The whitespace run starting at `i` ends at `j`.
proof fn lemma_ws_run_at(s: Seq<char>, i: int, j: int)
    requires
        0 <= i <= j <= s.len(),
        forall|k: int| i <= k < j ==> is_ws(#[trigger] s[k]),
        j == s.len() || !is_ws(s[j]),
    ensures
        ws_run(s.skip(i)) == j - i,
    decreases j - i,
{
    if i < j {
        lemma_ws_run_at(s, i + 1, j);
        assert(s.skip(i).drop_first() =~= s.skip(i + 1));
    }
}

/// The word run starting at `i` ends at `j`.
proof fn lemma_word_run_at(s: Seq<char>, i: int, j: int)
    requires
        0 <= i <= j <= s.len(),
        forall|k: int| i <= k < j ==> !is_ws(#[trigger] s[k]),
        j == s.len() || is_ws(s[j]),
    ensures
        word_run(s.skip(i)) == j - i,
    decreases j - i,
{
    if i < j {
        lemma_word_run_at(s, i + 1, j);
        assert(s.skip(i).drop_first() =~= s.skip(i + 1));
    }
}

/// The words of `chars`, each as its characters.
pub fn split_words(chars: &Vec<char>) -> (w: Vec<Vec<char>>)
    ensures
        w@.map_values(|v: Vec<char>| v@) == words(chars@),
{
    let n = chars.len();
    let mut out: Vec<Vec<char>> = Vec::new();
    let mut i: usize = 0;
    proof {
        assert(chars@.skip(0) =~= chars@);
    }
    while i < n
        invariant
            i <= n,
            n == chars@.len(),
            words(chars@) == out@.map_values(|v: Vec<char>| v@) + words(chars@.skip(i as int)),
        ensures
            words(chars@) == out@.map_values(|v: Vec<char>| v@),
        decreases n - i,
    {
        let start_ws = i;
        while i < n && is_whitespace(chars[i])
            invariant
                start_ws <= i <= n,
                n == chars@.len(),
                forall|k: int| start_ws <= k < i ==> is_ws(#[trigger] chars@[k]),
            decreases n - i,
        {
            i = i + 1;
        }
        proof {
            lemma_ws_run_at(chars@, start_ws as int, i as int);
            lemma_runs_bounded(chars@.skip(start_ws as int));
            assert(chars@.skip(start_ws as int).skip(i - start_ws) =~= chars@.skip(i as int));
        }
        if i == n {
            proof {
                assert(chars@.skip(i as int).len() == 0);
                assert(words(chars@.skip(start_ws as int)) == Seq::<Seq<char>>::empty());
                assert(out@.map_values(|v: Vec<char>| v@) + Seq::<Seq<char>>::empty() =~= out@.map_values(|v: Vec<char>| v@));
                assert(chars@.skip(n as int) =~= Seq::<char>::empty());
                assert(words(chars@) == out@.map_values(|v: Vec<char>| v@));
            }
            break;
        }
        let start = i;
        let mut word: Vec<char> = Vec::new();
        while i < n && !is_whitespace(chars[i])
            invariant
                start <= i <= n,
                n == chars@.len(),
                forall|k: int| start <= k < i ==> !is_ws(#[trigger] chars@[k]),
                word@ == chars@.subrange(start as int, i as int),
            decreases n - i,
        {
            word.push(chars[i]);
            i = i + 1;
            assert(word@ =~= chars@.subrange(start as int, i as int));
        }
        proof {
            let t = chars@.skip(start as int);
            lemma_word_run_at(chars@, start as int, i as int);
            lemma_runs_bounded(t);
            assert(t.take(i - start) =~= word@);
            assert(t.skip(i - start) =~= chars@.skip(i as int));
            let old_out = out@.map_values(|v: Vec<char>| v@);
            assert(words(chars@.skip(start_ws as int)) == seq![word@] + words(chars@.skip(i as int)));
        }
        let ghost old_out = out@;
        out.push(word);
        proof {
            assert(out@.map_values(|v: Vec<char>| v@) =~= old_out.map_values(|v: Vec<char>| v@).push(out@[out@.len() - 1]@));
            assert(out@.map_values(|v: Vec<char>| v@) + words(chars@.skip(i as int)) =~= old_out.map_values(|v: Vec<char>| v@) + (seq![chars@.subrange(start as int, i as int)] + words(chars@.skip(i as int))));
            if i >= n {
                assert(chars@.skip(i as int) =~= Seq::<char>::empty());
                assert(out@.map_values(|v: Vec<char>| v@) + Seq::<Seq<char>>::empty() =~= out@.map_values(|v: Vec<char>| v@));
            }
        }
    }
    proof {
        if i >= n {
            assert(chars@.skip(i as int) =~= Seq::<char>::empty());
            assert(out@.map_values(|v: Vec<char>| v@) + Seq::<Seq<char>>::empty() =~= out@.map_values(|v: Vec<char>| v@));
        }
    }
    out
}

/// `parts` joined with `sep` between consecutive parts.
pub open spec fn joined(parts: Seq<Seq<char>>, sep: Seq<char>) -> Seq<char>
    decreases parts.len(),
{
    if parts.len() == 0 {
        Seq::empty()
    } else if parts.len() == 1 {
        parts[0]
    } else {
        joined(parts.drop_last(), sep) + sep + parts.last()
    }
}

/// Appending one more part to a joined text.
pub proof fn lemma_joined_push(parts: Seq<Seq<char>>, sep: Seq<char>, p: Seq<char>)
    ensures
        joined(parts.push(p), sep) == (if parts.len() == 0 {
            p
        } else {
            joined(parts, sep) + sep + p
        }),
{
    assert(parts.push(p).drop_last() =~= parts);
}

/// Appends `part` to `s`, preceded by `sep` when `s` already holds a part.
pub fn push_part(s: &mut String, has_part: bool, sep: &str, part: &str)
    ensures
        final(s)@ == (if has_part {
            old(s)@ + sep@ + part@
        } else {
            old(s)@ + part@
        }),
{
    if has_part {
        push_str(s, sep);
    }
    push_str(s, part);
}

} // verus!
