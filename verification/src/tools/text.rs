//! Text as sequences of characters: white space, trimming, searching and
//! splitting into lines and words.

use vstd::prelude::*;
use vstd::std_specs::iter::IteratorSpec;

verus! {

broadcast use {vstd::string::next_postcondition, vstd::string::axiom_spec_iter};

/// The characters of `text`, in order.
pub fn to_chars(text: &str) -> (chars: Vec<char>)
    ensures
        chars@ == text@,
{
    let mut chars: Vec<char> = Vec::new();
    let mut rest = text.chars();
    assert(rest.remaining() == text@);
    loop
        invariant
            rest.obeys_prophetic_iter_laws(),
            chars@ + rest.remaining() == text@,
            rest.decrease() is Some,
        decreases rest.decrease()->0,
    {
        let ghost before = rest.remaining();
        match rest.next() {
            Some(c) => {
                chars.push(c);
                assert(chars@ + rest.remaining() =~= text@) by {
                    assert(before =~= seq![c] + before.drop_first());
                }
            },
            None => {
                assert(chars@ =~= chars@ + rest.remaining());
                return chars;
            },
        }
    }
}

/// White space: the characters that carry Unicode's property of that name.
pub open spec fn is_space(c: char) -> bool {
    let n = c as u32;
    ||| 0x09 <= n <= 0x0D
    ||| n == 0x20
    ||| n == 0x85
    ||| n == 0xA0
    ||| n == 0x1680
    ||| 0x2000 <= n <= 0x200A
    ||| n == 0x2028
    ||| n == 0x2029
    ||| n == 0x202F
    ||| n == 0x205F
    ||| n == 0x3000
}

/// `s` without the white space at its start.
pub open spec fn trim_start(s: Seq<char>) -> Seq<char>
    decreases s.len(),
{
    if s.len() > 0 && is_space(s[0]) {
        trim_start(s.drop_first())
    } else {
        s
    }
}

/// `s` without the white space at its end.
pub open spec fn trim_end(s: Seq<char>) -> Seq<char>
    decreases s.len(),
{
    if s.len() > 0 && is_space(s.last()) {
        trim_end(s.drop_last())
    } else {
        s
    }
}

/// `s` without the white space at its start and at its end.
pub open spec fn trim(s: Seq<char>) -> Seq<char> {
    trim_end(trim_start(s))
}

/// The position of the first `c` in `s`, or the length of `s` where it holds
/// none.
pub open spec fn find(s: Seq<char>, c: char) -> int
    decreases s.len(),
{
    if s.len() == 0 || s[0] == c {
        0
    } else {
        1 + find(s.drop_first(), c)
    }
}

/// The lines of `text`: the pieces between its line feeds. A line feed at the
/// very end opens no further line.
pub open spec fn lines(text: Seq<char>) -> Seq<Seq<char>>
    decreases text.len(),
{
    if text.len() == 0 {
        Seq::empty()
    } else {
        let n = find(text, '\n');
        if 0 <= n < text.len() {
            seq![text.take(n)] + lines(text.skip(n + 1))
        } else {
            seq![text]
        }
    }
}

/// The length of the run of characters at the start of `s` that are not
/// white space.
pub open spec fn word_len(s: Seq<char>) -> int
    decreases s.len(),
{
    if s.len() == 0 || is_space(s[0]) {
        0
    } else {
        1 + word_len(s.drop_first())
    }
}

/// The words of `s`: its longest runs of characters that are not white
/// space, in order.
pub open spec fn words(s: Seq<char>) -> Seq<Seq<char>>
    decreases s.len(),
{
    if s.len() == 0 {
        Seq::empty()
    } else if is_space(s[0]) {
        words(s.drop_first())
    } else {
        let n = word_len(s);
        if 0 < n <= s.len() {
            seq![s.take(n)] + words(s.skip(n))
        } else {
            Seq::empty()
        }
    }
}

/// The pieces of `chars` that `spans` marks, each by its first position and
/// the position after its last.
pub open spec fn pieces(chars: Seq<char>, spans: Seq<(usize, usize)>) -> Seq<Seq<char>> {
    Seq::new(spans.len(), |k: int| chars.subrange(spans[k].0 as int, spans[k].1 as int))
}

/// Whether `c` is white space.
pub fn is_whitespace(c: char) -> (space: bool)
    ensures
        space == is_space(c),
{
    let n: u32 = c as u32;
    (0x09 <= n && n <= 0x0D) || n == 0x20 || n == 0x85 || n == 0xA0 || n == 0x1680 || (0x2000 <= n
        && n <= 0x200A) || n == 0x2028 || n == 0x2029 || n == 0x202F || n == 0x205F || n == 0x3000
}

/// The bounds, within `chars[from..to]`, of that piece without the white
/// space at its start and at its end.
pub fn trim_span(chars: &Vec<char>, from: usize, to: usize) -> (span: (usize, usize))
    requires
        from <= to <= chars@.len(),
    ensures
        from <= span.0 <= span.1 <= to,
        chars@.subrange(span.0 as int, span.1 as int) == trim(
            chars@.subrange(from as int, to as int),
        ),
{
    let mut a: usize = from;
    while a < to && is_whitespace(chars[a])
        invariant
            from <= a <= to <= chars@.len(),
            trim_start(chars@.subrange(from as int, to as int)) == trim_start(
                chars@.subrange(a as int, to as int),
            ),
        decreases to - a,
    {
        assert(chars@.subrange(a as int, to as int).drop_first() =~= chars@.subrange(
            a + 1,
            to as int,
        ));
        a += 1;
    }
    let mut b: usize = to;
    while b > a && is_whitespace(chars[b - 1])
        invariant
            a <= b <= to <= chars@.len(),
            trim_end(chars@.subrange(a as int, to as int)) == trim_end(
                chars@.subrange(a as int, b as int),
            ),
        decreases b,
    {
        assert(chars@.subrange(a as int, b as int).drop_last() =~= chars@.subrange(
            a as int,
            b - 1,
        ));
        b -= 1;
    }
    (a, b)
}

/// The position of the first `c` in `chars[from..to]`, or `to` where that
/// piece holds none.
pub fn find_char(chars: &Vec<char>, from: usize, to: usize, c: char) -> (at: usize)
    requires
        from <= to <= chars@.len(),
    ensures
        from <= at <= to,
        at - from == find(chars@.subrange(from as int, to as int), c),
{
    let mut i: usize = from;
    while i < to && chars[i] != c
        invariant
            from <= i <= to <= chars@.len(),
            find(chars@.subrange(from as int, to as int), c) == (i - from) + find(
                chars@.subrange(i as int, to as int),
                c,
            ),
        decreases to - i,
    {
        assert(chars@.subrange(i as int, to as int).drop_first() =~= chars@.subrange(
            i + 1,
            to as int,
        ));
        i += 1;
    }
    i
}

/// The bounds of the words of `chars[from..to]`, in order.
pub fn word_spans(chars: &Vec<char>, from: usize, to: usize) -> (spans: Vec<(usize, usize)>)
    requires
        from <= to <= chars@.len(),
    ensures
        pieces(chars@, spans@) == words(chars@.subrange(from as int, to as int)),
        forall|k: int|
            0 <= k < spans@.len() ==> from <= (#[trigger] spans@[k]).0 < spans@[k].1 <= to,
{
    let mut spans: Vec<(usize, usize)> = Vec::new();
    let mut i: usize = from;
    assert(pieces(chars@, spans@) =~= Seq::<Seq<char>>::empty());
    while i < to
        invariant
            from <= i <= to <= chars@.len(),
            words(chars@.subrange(from as int, to as int)) == pieces(chars@, spans@) + words(
                chars@.subrange(i as int, to as int),
            ),
            forall|k: int|
                0 <= k < spans@.len() ==> from <= (#[trigger] spans@[k]).0 < spans@[k].1 <= to,
        decreases to - i,
    {
        let ghost rest = chars@.subrange(i as int, to as int);
        if is_whitespace(chars[i]) {
            assert(rest.drop_first() =~= chars@.subrange(i + 1, to as int));
            i += 1;
        } else {
            let mut j: usize = i;
            while j < to && !is_whitespace(chars[j])
                invariant
                    i <= j <= to <= chars@.len(),
                    word_len(rest) == (j - i) + word_len(chars@.subrange(j as int, to as int)),
                    rest == chars@.subrange(i as int, to as int),
                decreases to - j,
            {
                assert(chars@.subrange(j as int, to as int).drop_first() =~= chars@.subrange(
                    j + 1,
                    to as int,
                ));
                j += 1;
            }
            let ghost found = pieces(chars@, spans@);
            spans.push((i, j));
            proof {
                assert(rest.take(j - i) =~= chars@.subrange(i as int, j as int));
                assert(rest.skip(j - i) =~= chars@.subrange(j as int, to as int));
                let word = chars@.subrange(i as int, j as int);
                assert(pieces(chars@, spans@) =~= found + seq![word]);
                assert(pieces(chars@, spans@) + words(chars@.subrange(j as int, to as int))
                    =~= found + words(rest));
            }
            i = j;
        }
    }
    proof {
        assert(pieces(chars@, spans@) + words(chars@.subrange(i as int, to as int)) =~= pieces(
            chars@,
            spans@,
        ));
    }
    spans
}

/// The decimal digit of a number below ten.
pub open spec fn digit(n: nat) -> char {
    (('0' as u8) + (n % 10) as u8) as char
}

/// The decimal notation of `n`, without leading zeros.
pub open spec fn decimal(n: nat) -> Seq<char>
    decreases n,
{
    if n < 10 {
        seq![digit(n)]
    } else {
        decimal(n / 10).push(digit(n % 10))
    }
}

/// `String::push` of the standard library: `c` is appended to `text`, whose
/// earlier contents stay as they are.
#[verifier::external_body]
pub(crate) fn append_char(text: &mut String, c: char)
    ensures
        final(text)@ == old(text)@.push(c),
{
    text.push(c)
}

/// The numbers that are the code of a character: those up to 0x10FFFF
/// that are no surrogates.
pub open spec fn is_char_code(code: u32) -> bool {
    code <= 0xD7FF || 0xE000 <= code <= 0x10FFFF
}

/// `char::from_u32` of the standard library: the character whose code is
/// `code`, or nothing where `code` is the code of no character.
#[verifier::external_body]
pub(crate) fn char_of(code: u32) -> (found: Option<char>)
    ensures
        found == if is_char_code(code) {
            Some(code as char)
        } else {
            None
        },
{
    char::from_u32(code)
}

/// Appends the decimal notation of `n` to `text`.
pub fn append_decimal(text: &mut String, n: usize)
    ensures
        final(text)@ == old(text)@ + decimal(n as nat),
    decreases n,
{
    if n >= 10 {
        append_decimal(text, n / 10);
    }
    let last: u8 = (n % 10) as u8;
    append_char(text, (48u8 + last) as char);
    proof {
        let before = old(text)@;
        if n >= 10 {
            assert(before + decimal(n as nat) =~= (before + decimal((n / 10) as nat)).push(
                digit((n % 10) as nat),
            ));
        } else {
            assert(before + decimal(n as nat) =~= before.push(digit(n as nat)));
        }
    }
}

} // verus!
