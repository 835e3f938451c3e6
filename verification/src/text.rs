//! Text as sequences of characters: trimming, lines, words and numbers.

use vstd::prelude::*;
use vstd::slice::slice_subrange;

verus! {

/// `String::push` appends one character to the end of the string.
pub assume_specification[ String::push ](s: &mut String, c: char)
    ensures
        final(s)@ == old(s)@.push(c),
;

/// The characters with Unicode's `White_Space` property.
pub open spec fn is_white(c: char) -> bool {
    ||| '\u{9}' <= c <= '\u{d}'
    ||| c == ' '
    ||| c == '\u{85}'
    ||| c == '\u{a0}'
    ||| c == '\u{1680}'
    ||| '\u{2000}' <= c <= '\u{200a}'
    ||| c == '\u{2028}'
    ||| c == '\u{2029}'
    ||| c == '\u{202f}'
    ||| c == '\u{205f}'
    ||| c == '\u{3000}'
}

/// The characters of Unicode's general category `Cc`.
pub open spec fn is_control_char(c: char) -> bool {
    ||| c <= '\u{1f}'
    ||| '\u{7f}' <= c <= '\u{9f}'
}

/// `s` without the white space at its end.
pub open spec fn trim_end_of(s: Seq<char>) -> Seq<char>
    decreases s.len(),
{
    if s.len() > 0 && is_white(s.last()) {
        trim_end_of(s.drop_last())
    } else {
        s
    }
}

/// `s` without the white space at its front.
pub open spec fn trim_start_of(s: Seq<char>) -> Seq<char>
    decreases s.len(),
{
    if s.len() > 0 && is_white(s[0]) {
        trim_start_of(s.subrange(1, s.len() as int))
    } else {
        s
    }
}

/// `s` without the white space at either end.
pub open spec fn trimmed(s: Seq<char>) -> Seq<char> {
    trim_end_of(trim_start_of(s))
}

/// Whether `part` stands somewhere in `s`.
pub open spec fn has_part(s: Seq<char>, part: Seq<char>) -> bool {
    exists|i: int| #[trigger] part_at(s, part, i)
}

/// Whether `part` stands in `s` at position `i`.
pub open spec fn part_at<T>(s: Seq<T>, part: Seq<T>, i: int) -> bool {
    0 <= i && i + part.len() <= s.len() && s.subrange(i, i + part.len()) == part
}

/// The position of the first `c` at or after `from`, or the length of `s`.
pub open spec fn next_index<T>(s: Seq<T>, c: T, from: int) -> int
    decreases s.len() - from,
{
    if from < 0 || from >= s.len() {
        s.len() as int
    } else if s[from] == c {
        from
    } else {
        next_index(s, c, from + 1)
    }
}

/// The pieces of `s` between the separators `c`: one more than there are
/// separators.
pub open spec fn pieces<T>(s: Seq<T>, c: T) -> Seq<Seq<T>>
    decreases s.len(),
{
    let i = next_index(s, c, 0);
    if 0 <= i < s.len() {
        seq![s.subrange(0, i)] + pieces(s.subrange(i + 1, s.len() as int), c)
    } else {
        seq![s]
    }
}

/// A line without the carriage return that may end it.
pub open spec fn without_cr(s: Seq<char>) -> Seq<char> {
    if s.len() > 0 && s.last() == '\r' {
        s.drop_last()
    } else {
        s
    }
}

/// The lines of `s`. A line ends at a line feed, with a carriage return before
/// it or without; what follows the last line feed is a line if it is not empty.
pub open spec fn lines_of(s: Seq<char>) -> Seq<Seq<char>>
    decreases s.len(),
{
    if s.len() == 0 {
        Seq::empty()
    } else {
        let i = next_index(s, '\n', 0);
        if 0 <= i < s.len() {
            seq![without_cr(s.subrange(0, i))] + lines_of(s.subrange(i + 1, s.len() as int))
        } else {
            seq![s]
        }
    }
}

/// The first position at or after `from` whose character is white space, or
/// whose character is not, as `white` asks; the length of `s` if there is none.
pub open spec fn next_white(s: Seq<char>, white: bool, from: int) -> int
    decreases s.len() - from,
{
    if from < 0 || from >= s.len() {
        s.len() as int
    } else if is_white(s[from]) == white {
        from
    } else {
        next_white(s, white, from + 1)
    }
}

/// The words of `s`: the longest runs of characters that are not white space.
pub open spec fn words_of(s: Seq<char>) -> Seq<Seq<char>> {
    words_from(s, 0)
}

/// The words of `s` that start at or after `from`.
pub open spec fn words_from(s: Seq<char>, from: int) -> Seq<Seq<char>>
    decreases s.len() - from,
    when 0 <= from <= s.len()
    via words_from_decreases
{
    let start = next_white(s, false, from);
    if start >= s.len() {
        Seq::empty()
    } else {
        let end = next_white(s, true, start);
        seq![s.subrange(start, end)] + words_from(s, end)
    }
}

#[via_fn]
proof fn words_from_decreases(s: Seq<char>, from: int) {
    lemma_next_white(s, false, from);
    let start = next_white(s, false, from);
    if start < s.len() {
        lemma_next_white(s, true, start);
    }
}

proof fn lemma_next_white(s: Seq<char>, white: bool, from: int)
    requires
        0 <= from <= s.len(),
    ensures
        from <= next_white(s, white, from) <= s.len(),
        next_white(s, white, from) < s.len() ==> is_white(s[next_white(s, white, from)]) == white,
        forall|k: int| from <= k < next_white(s, white, from) ==> is_white(#[trigger] s[k]) != white,
    decreases s.len() - from,
{
    if from < s.len() && is_white(s[from]) != white {
        lemma_next_white(s, white, from + 1);
    }
}

/// The characters of a string.
pub fn chars_of(s: &str) -> (r: Vec<char>)
    ensures
        r@ == s@,
{
    let mut out: Vec<char> = Vec::new();
    for c in it: s.chars()
        invariant
            out@ == s@.take(it.index()),
            it.seq() == s@,
    {
        out.push(c);
    }
    out
}

/// The string that holds these characters.
pub fn string_of(cs: &[char]) -> (r: String)
    ensures
        r@ == cs@,
{
    let mut out = String::new();
    let mut i: usize = 0;
    while i < cs.len()
        invariant
            0 <= i <= cs@.len(),
            out@ == cs@.take(i as int),
        decreases cs@.len() - i,
    {
        out.push(cs[i]);
        i += 1;
    }
    assert(cs@.take(cs@.len() as int) =~= cs@);
    out
}

/// The texts of a list of strings.
pub open spec fn texts(v: Seq<String>) -> Seq<Seq<char>> {
    Seq::new(v.len(), |i: int| v[i]@)
}

proof fn lemma_texts_push(v: Seq<String>, s: String)
    ensures
        texts(v.push(s)) == texts(v).push(s@),
{
    assert(texts(v.push(s)) =~= texts(v).push(s@));
}

/// Whether `c` is white space.
pub fn is_whitespace(c: char) -> (r: bool)
    ensures
        r == is_white(c),
{
    ('\u{9}' <= c && c <= '\u{d}') || c == ' ' || c == '\u{85}' || c == '\u{a0}' || c == '\u{1680}'
        || ('\u{2000}' <= c && c <= '\u{200a}') || c == '\u{2028}' || c == '\u{2029}' || c
        == '\u{202f}' || c == '\u{205f}' || c == '\u{3000}'
}

/// Whether `c` is a control character.
pub fn is_control(c: char) -> (r: bool)
    ensures
        r == is_control_char(c),
{
    c <= '\u{1f}' || ('\u{7f}' <= c && c <= '\u{9f}')
}

/// `cs` without the white space at either end.
pub fn trim<'a>(cs: &'a [char]) -> (r: &'a [char])
    ensures
        r@ == trimmed(cs@),
{
    let mut rest = cs;
    while rest.len() > 0 && is_whitespace(rest[0])
        invariant
            trim_start_of(rest@) == trim_start_of(cs@),
        decreases rest@.len(),
    {
        rest = slice_subrange(rest, 1, rest.len());
    }
    let ghost front = rest@;
    while rest.len() > 0 && is_whitespace(rest[rest.len() - 1])
        invariant
            trim_end_of(rest@) == trim_end_of(front),
        decreases rest@.len(),
    {
        proof {
            assert(rest@.subrange(0, rest@.len() - 1) =~= rest@.drop_last());
        }
        rest = slice_subrange(rest, 0, rest.len() - 1);
    }
    rest
}

/// Where the first `c` stands, or the length if it stands nowhere.
pub fn index_of(cs: &[char], c: char) -> (r: usize)
    ensures
        r == next_index(cs@, c, 0),
        r <= cs@.len(),
        r < cs@.len() ==> cs@[r as int] == c,
        forall|k: int| 0 <= k < r ==> cs@[k] != c,
{
    let mut i: usize = 0;
    while i < cs.len() && cs[i] != c
        invariant
            i <= cs@.len(),
            next_index(cs@, c, i as int) == next_index(cs@, c, 0),
            forall|k: int| 0 <= k < i ==> cs@[k] != c,
        decreases cs@.len() - i,
    {
        i += 1;
    }
    i
}

/// The lines of a text.
pub fn lines(cs: &[char]) -> (r: Vec<String>)
    ensures
        texts(r@) == lines_of(cs@),
{
    let mut out: Vec<String> = Vec::new();
    let mut rest = cs;
    proof {
        assert(texts(out@) + lines_of(rest@) =~= lines_of(cs@));
    }
    while rest.len() > 0
        invariant
            texts(out@) + lines_of(rest@) == lines_of(cs@),
        decreases rest@.len(),
    {
        let i: usize = index_of(rest, '\n');
        let ghost before = out@;
        let ghost tail = rest@;
        if i < rest.len() {
            let mut end: usize = i;
            if i > 0 && rest[i - 1] == '\r' {
                end = i - 1;
            }
            let line = string_of(slice_subrange(rest, 0, end));
            proof {
                assert(line@ =~= without_cr(tail.subrange(0, i as int)));
                lemma_texts_push(before, line);
                assert(texts(before).push(line@) + lines_of(tail.subrange(i + 1, tail.len() as int))
                    =~= texts(before) + (seq![line@] + lines_of(
                    tail.subrange(i + 1, tail.len() as int),
                )));
            }
            out.push(line);
            rest = slice_subrange(rest, i + 1, rest.len());
        } else {
            let line = string_of(rest);
            proof {
                lemma_texts_push(before, line);
                assert(texts(before).push(line@) + Seq::<Seq<char>>::empty() =~= texts(before)
                    + seq![line@]);
            }
            out.push(line);
            rest = slice_subrange(rest, rest.len(), rest.len());
        }
    }
    proof {
        assert(texts(out@) + Seq::<Seq<char>>::empty() =~= texts(out@));
    }
    out
}

/// The words of a text.
pub fn words(cs: &[char]) -> (r: Vec<String>)
    ensures
        texts(r@) == words_of(cs@),
{
    let mut out: Vec<String> = Vec::new();
    let mut i: usize = 0;
    proof {
        assert(texts(out@) + words_from(cs@, 0) =~= words_of(cs@));
    }
    loop
        invariant
            i <= cs@.len(),
            texts(out@) + words_from(cs@, i as int) == words_of(cs@),
        ensures
            texts(out@) == words_of(cs@),
        decreases cs@.len() - i,
    {
        let ghost from = i as int;
        while i < cs.len() && is_whitespace(cs[i])
            invariant
                from <= i <= cs@.len(),
                next_white(cs@, false, i as int) == next_white(cs@, false, from),
            decreases cs@.len() - i,
        {
            i += 1;
        }
        if i >= cs.len() {
            proof {
                assert(texts(out@) + Seq::<Seq<char>>::empty() =~= texts(out@));
            }
            break;
        }
        let start: usize = i;
        while i < cs.len() && !is_whitespace(cs[i])
            invariant
                start <= i <= cs@.len(),
                next_white(cs@, true, i as int) == next_white(cs@, true, start as int),
            decreases cs@.len() - i,
        {
            i += 1;
        }
        let word = string_of(slice_subrange(cs, start, i));
        proof {
            lemma_next_white(cs@, true, start as int);
            lemma_texts_push(out@, word);
            assert(texts(out@).push(word@) + words_from(cs@, i as int) =~= texts(out@) + (seq![
                word@,
            ] + words_from(cs@, i as int)));
        }
        out.push(word);
    }
    out
}

/// Whether `cs` starts with `head`.
pub fn starts_with(cs: &[char], head: &[char]) -> (r: bool)
    ensures
        r == head@.is_prefix_of(cs@),
{
    if cs.len() < head.len() {
        return false;
    }
    let mut i: usize = 0;
    while i < head.len()
        invariant
            i <= head@.len() <= cs@.len(),
            forall|k: int| 0 <= k < i ==> cs@[k] == head@[k],
        decreases head@.len() - i,
    {
        if cs[i] != head[i] {
            assert(cs@.subrange(0, head@.len() as int)[i as int] != head@[i as int]);
            return false;
        }
        i += 1;
    }
    assert(head@ =~= cs@.subrange(0, head@.len() as int));
    true
}

/// Whether `cs` ends with `tail`.
pub fn ends_with(cs: &[char], tail: &[char]) -> (r: bool)
    ensures
        r == tail@.is_suffix_of(cs@),
{
    if cs.len() < tail.len() {
        return false;
    }
    let end = slice_subrange(cs, cs.len() - tail.len(), cs.len());
    let r = starts_with(end, tail);
    proof {
        assert(end@.subrange(0, tail@.len() as int) =~= end@);
        assert(r == (tail@ == end@));
    }
    r
}

/// Whether `part` stands somewhere in `cs`.
pub fn contains(cs: &[char], part: &[char]) -> (r: bool)
    ensures
        r == has_part(cs@, part@),
{
    if cs.len() < part.len() {
        assert forall|i: int| !#[trigger] part_at(cs@, part@, i) by {}
        return false;
    }
    let mut i: usize = 0;
    while i <= cs.len() - part.len()
        invariant
            part@.len() <= cs@.len(),
            i <= cs@.len() - part@.len() + 1,
            forall|k: int| 0 <= k < i ==> !#[trigger] part_at(cs@, part@, k),
        decreases cs@.len() - part@.len() + 1 - i,
    {
        let here = slice_subrange(cs, i, i + part.len());
        if starts_with(here, part) {
            assert(here@.subrange(0, part@.len() as int) =~= here@);
            assert(part_at(cs@, part@, i as int));
            return true;
        }
        proof {
            assert(here@.subrange(0, part@.len() as int) =~= here@);
        }
        if i == cs.len() - part.len() {
            return false;
        }
        i += 1;
    }
    false
}

/// Whether two texts are equal.
pub fn same_text(a: &str, b: &str) -> (r: bool)
    ensures
        r == (a@ == b@),
{
    let x = chars_of(a);
    let y = chars_of(b);
    if x.len() != y.len() {
        return false;
    }
    let r = starts_with(x.as_slice(), y.as_slice());
    proof {
        assert(x@.subrange(0, y@.len() as int) =~= x@);
    }
    r
}

/// The digit that stands for `d`.
pub open spec fn digit(d: int) -> char {
    if d == 0 {
        '0'
    } else if d == 1 {
        '1'
    } else if d == 2 {
        '2'
    } else if d == 3 {
        '3'
    } else if d == 4 {
        '4'
    } else if d == 5 {
        '5'
    } else if d == 6 {
        '6'
    } else if d == 7 {
        '7'
    } else if d == 8 {
        '8'
    } else if d == 9 {
        '9'
    } else if d == 10 {
        'a'
    } else if d == 11 {
        'b'
    } else if d == 12 {
        'c'
    } else if d == 13 {
        'd'
    } else if d == 14 {
        'e'
    } else {
        'f'
    }
}

/// A number written in decimal.
pub open spec fn decimal(n: int) -> Seq<char>
    decreases n,
{
    if n < 10 {
        seq![digit(n)]
    } else {
        decimal(n / 10).push(digit(n % 10))
    }
}

/// The lowest `width` hexadecimal digits of a number, in lower case.
pub open spec fn hexadecimal(n: int, width: nat) -> Seq<char>
    decreases width,
{
    if width == 0 {
        Seq::empty()
    } else {
        hexadecimal(n / 16, (width - 1) as nat).push(digit(n % 16))
    }
}

/// How many numbers so many hexadecimal digits tell apart.
pub open spec fn hexadecimal_limit(width: nat) -> nat
    decreases width,
{
    if width == 0 {
        1
    } else {
        16 * hexadecimal_limit((width - 1) as nat)
    }
}

/// Numbers that fit in so many hexadecimal digits have digits of their own, and
/// no digit is a slash.
pub proof fn lemma_hexadecimal(a: int, b: int, width: nat)
    requires
        0 <= a < hexadecimal_limit(width),
        0 <= b < hexadecimal_limit(width),
    ensures
        hexadecimal(a, width).len() == width,
        vstd::utf8::is_ascii_chars(hexadecimal(a, width)),
        forall|i: int| 0 <= i < width ==> #[trigger] hexadecimal(a, width)[i] != '/',
        hexadecimal(a, width) == hexadecimal(b, width) ==> a == b,
    decreases width,
{
    if width > 0 {
        lemma_hexadecimal(a / 16, b / 16, (width - 1) as nat);
        let high = hexadecimal(a / 16, (width - 1) as nat);
        let other = hexadecimal(b / 16, (width - 1) as nat);
        if hexadecimal(a, width) == hexadecimal(b, width) {
            assert(high =~= hexadecimal(a, width).drop_last());
            assert(other =~= hexadecimal(b, width).drop_last());
            assert(hexadecimal(a, width).last() == digit(a % 16));
            assert(hexadecimal(b, width).last() == digit(b % 16));
        }
    }
}

/// A signed number written in decimal.
pub open spec fn signed_decimal(n: int) -> Seq<char> {
    if n < 0 {
        seq!['-'] + decimal(-n)
    } else {
        decimal(n)
    }
}

/// The digit that stands for `d`.
pub fn digit_char(d: u8) -> (r: char)
    requires
        d < 16,
    ensures
        r == digit(d as int),
{
    match d {
        0 => '0',
        1 => '1',
        2 => '2',
        3 => '3',
        4 => '4',
        5 => '5',
        6 => '6',
        7 => '7',
        8 => '8',
        9 => '9',
        10 => 'a',
        11 => 'b',
        12 => 'c',
        13 => 'd',
        14 => 'e',
        _ => 'f',
    }
}

/// Appends `n` in decimal.
pub fn push_decimal(out: &mut String, n: u64)
    ensures
        final(out)@ == old(out)@ + decimal(n as int),
    decreases n,
{
    let ghost before = out@;
    if n >= 10 {
        push_decimal(out, n / 10);
    }
    out.push(digit_char((n % 10) as u8));
    proof {
        if n < 10 {
            assert(out@ =~= before + decimal(n as int));
        } else {
            assert(out@ =~= before + decimal(n as int / 10).push(digit(n as int % 10)));
        }
    }
}

/// Appends `n` in decimal, with a sign where it is negative.
pub fn push_signed(out: &mut String, n: i64)
    ensures
        final(out)@ == old(out)@ + signed_decimal(n as int),
{
    if n < 0 {
        let ghost before = out@;
        out.push('-');
        let magnitude: u64 = (-(n as i128)) as u64;
        push_decimal(out, magnitude);
        proof {
            assert(out@ =~= before + (seq!['-'] + decimal(-(n as int))));
        }
    } else {
        push_decimal(out, n as u64);
    }
}

/// Appends the lowest `width` hexadecimal digits of `n`.
pub fn push_hex(out: &mut String, n: u64, width: usize)
    ensures
        final(out)@ == old(out)@ + hexadecimal(n as int, width as nat),
    decreases width,
{
    let ghost before = out@;
    if width > 0 {
        push_hex(out, n / 16, width - 1);
        out.push(digit_char((n % 16) as u8));
        proof {
            assert(out@ =~= before + hexadecimal(n as int / 16, (width - 1) as nat).push(
                digit(n as int % 16),
            ));
        }
    } else {
        proof {
            assert(out@ =~= before + Seq::<char>::empty());
        }
    }
}

/// Three texts in a row.
pub fn concat3(a: &str, b: &str, c: &str) -> (r: String)
    ensures
        r@ == a@ + b@ + c@,
{
    let mut out = a.to_owned();
    out.append(b);
    out.append(c);
    out
}

/// What `String::from_utf8_lossy` makes of bytes that are not UTF-8.
pub uninterp spec fn utf8_lossy(bytes: Seq<u8>) -> Seq<char>;

/// `String::from_utf8_lossy`: the text that `bytes` encode, with replacement
/// characters where they are not UTF-8. Bytes that are UTF-8 throughout stand
/// for the text that they encode.
#[verifier::external_body]
pub(crate) fn lossy_text(bytes: &[u8]) -> (r: String)
    ensures
        r@ == utf8_lossy(bytes@),
        vstd::utf8::valid_utf8(bytes@) ==> r@ == vstd::utf8::decode_utf8(bytes@),
{
    String::from_utf8_lossy(bytes).into_owned()
}

/// A text without the white space at either end.
pub fn trim_text(s: &str) -> (r: String)
    ensures
        r@ == trimmed(s@),
{
    let chars = chars_of(s);
    string_of(trim(chars.as_slice()))
}

/// A copy of a list of strings.
pub fn copy_texts(v: &Vec<String>) -> (r: Vec<String>)
    ensures
        texts(r@) == texts(v@),
{
    let mut out: Vec<String> = Vec::new();
    let mut i: usize = 0;
    while i < v.len()
        invariant
            i <= v@.len(),
            out@.len() == i,
            forall|k: int| 0 <= k < i ==> (#[trigger] out@[k])@ == v@[k]@,
        decreases v@.len() - i,
    {
        out.push(v[i].clone());
        i += 1;
    }
    assert(texts(out@) =~= texts(v@));
    out
}

/// Appends a text to a list.
pub fn push_text(v: &mut Vec<String>, s: &str)
    ensures
        texts(final(v)@) == texts(old(v)@).push(s@),
{
    let ghost before = v@;
    let owned = s.to_owned();
    proof {
        lemma_texts_push(before, owned);
    }
    v.push(owned);
}

/// Whether `a` comes before `b` character by character, a prefix before what it
/// is a prefix of.
pub open spec fn text_before(a: Seq<char>, b: Seq<char>) -> bool
    decreases a.len(),
{
    if b.len() == 0 {
        false
    } else if a.len() == 0 {
        true
    } else if a[0] != b[0] {
        a[0] < b[0]
    } else {
        text_before(a.skip(1), b.skip(1))
    }
}

proof fn lemma_text_before_at(a: Seq<char>, b: Seq<char>, i: int)
    requires
        0 <= i <= a.len(),
        i <= b.len(),
        forall|k: int| 0 <= k < i ==> a[k] == b[k],
    ensures
        text_before(a, b) == text_before(a.skip(i), b.skip(i)),
    decreases i,
{
    if i == 0 {
        assert(a.skip(0) =~= a);
        assert(b.skip(0) =~= b);
    } else {
        assert(a[0] == b[0]);
        lemma_text_before_at(a.skip(1), b.skip(1), i - 1);
        assert(a.skip(1).skip(i - 1) =~= a.skip(i));
        assert(b.skip(1).skip(i - 1) =~= b.skip(i));
    }
}

/// The order of texts is a strict total order.
pub proof fn lemma_text_before_is_total(a: Seq<char>, b: Seq<char>)
    ensures
        text_before(a, b) || text_before(b, a) || a == b,
        !(text_before(a, b) && text_before(b, a)),
        !text_before(a, a),
    decreases a.len(),
{
    if a.len() > 0 && b.len() > 0 {
        lemma_text_before_is_total(a.skip(1), b.skip(1));
        if a[0] == b[0] && a.skip(1) == b.skip(1) {
            assert(a =~= seq![a[0]] + a.skip(1));
            assert(b =~= seq![b[0]] + b.skip(1));
        }
    } else if a.len() == 0 && b.len() == 0 {
        assert(a =~= b);
    }
    if a.len() > 0 {
        lemma_text_before_is_total(a.skip(1), a.skip(1));
    }
}

/// The order of texts is transitive.
pub proof fn lemma_text_before_is_transitive(a: Seq<char>, b: Seq<char>, c: Seq<char>)
    requires
        text_before(a, b),
        text_before(b, c),
    ensures
        text_before(a, c),
    decreases a.len(),
{
    if a.len() > 0 && a[0] == b[0] && b[0] == c[0] {
        lemma_text_before_is_transitive(a.skip(1), b.skip(1), c.skip(1));
    }
}

/// Whether `a` comes before `b`.
pub fn is_text_before(a: &str, b: &str) -> (r: bool)
    ensures
        r == text_before(a@, b@),
{
    let x = chars_of(a);
    let y = chars_of(b);
    let mut i: usize = 0;
    while i < x.len() && i < y.len()
        invariant
            x@ == a@,
            y@ == b@,
            i <= x@.len(),
            i <= y@.len(),
            forall|k: int| 0 <= k < i ==> x@[k] == y@[k],
        decreases x@.len() - i,
    {
        let c: char = x[i];
        let d: char = y[i];
        if c != d {
            proof {
                lemma_text_before_at(x@, y@, i as int);
            }
            return c < d;
        }
        i += 1;
    }
    proof {
        lemma_text_before_at(x@, y@, i as int);
    }
    i < y.len()
}

/// What a decimal digit stands for.
pub open spec fn digit_value(c: char) -> int {
    c as int - '0' as int
}

/// The number that decimal digits stand for, if they are all digits.
pub open spec fn digits_value(s: Seq<char>) -> Option<int>
    decreases s.len(),
{
    if s.len() == 0 {
        Some(0int)
    } else {
        match digits_value(s.drop_last()) {
            Some(high) => if '0' <= s.last() <= '9' {
                Some(high * 10 + digit_value(s.last()))
            } else {
                None
            },
            None => None,
        }
    }
}

/// The integer that a text stands for: decimal digits, with a sign or without,
/// that make a 64-bit integer.
pub open spec fn integer_of(s: Seq<char>) -> Option<i64> {
    let signed = s.len() > 0 && (s[0] == '+' || s[0] == '-');
    let digits = if signed {
        s.subrange(1, s.len() as int)
    } else {
        s
    };
    if digits.len() == 0 {
        None
    } else {
        match digits_value(digits) {
            Some(n) => {
                let value = if signed && s[0] == '-' {
                    -n
                } else {
                    n
                };
                if i64::MIN <= value <= i64::MAX {
                    Some(value as i64)
                } else {
                    None
                }
            },
            None => None,
        }
    }
}

proof fn lemma_digits_prefix(s: Seq<char>, n: int)
    requires
        0 <= n <= s.len(),
    ensures
        digits_value(s.take(n)) is None ==> digits_value(s) is None,
        digits_value(s) matches Some(v) ==> digits_value(s.take(n)) is Some && 0 <= digits_value(
            s.take(n),
        )->0 <= v,
    decreases s.len(),
{
    if n == s.len() {
        assert(s.take(n) =~= s);
        if n > 0 {
            lemma_digits_prefix(s.drop_last(), n - 1);
        }
    } else {
        assert(s.drop_last().take(n) =~= s.take(n));
        lemma_digits_prefix(s.drop_last(), n);
    }
}

/// The integer that a text stands for.
pub fn parse_integer(text: &str) -> (r: Option<i64>)
    ensures
        r == integer_of(text@),
{
    let chars = chars_of(text);
    let signed = chars.len() > 0 && (chars[0] == '+' || chars[0] == '-');
    let negative = signed && chars[0] == '-';
    let start: usize = if signed {
        1
    } else {
        0
    };
    if chars.len() == start {
        return None;
    }
    let digits = slice_subrange(chars.as_slice(), start, chars.len());
    proof {
        if !signed {
            assert(digits@ =~= text@);
        }
        assert(digits@.take(0) =~= Seq::<char>::empty());
    }
    let mut n: i128 = 0;
    let mut i: usize = 0;
    while i < digits.len()
        invariant
            i <= digits@.len(),
            digits_value(digits@.take(i as int)) == Some(n as int),
            0 <= n <= 0x8000_0000_0000_0000,
            signed == (text@.len() > 0 && (text@[0] == '+' || text@[0] == '-')),
            digits@ == if signed {
                text@.subrange(1, text@.len() as int)
            } else {
                text@
            },
            digits@.len() > 0,
        decreases digits@.len() - i,
    {
        let c: char = digits[i];
        proof {
            let next = digits@.take(i + 1);
            assert(next.drop_last() =~= digits@.take(i as int));
            assert(next.last() == c);
            lemma_digits_prefix(digits@, i + 1);
        }
        if !('0' <= c && c <= '9') {
            return None;
        }
        n = n * 10 + (c as u32 as i128 - '0' as u32 as i128);
        if n > 0x8000_0000_0000_0000 {
            return None;
        }
        i += 1;
    }
    proof {
        assert(digits@.take(digits@.len() as int) =~= digits@);
    }
    if negative {
        Some((-n) as i64)
    } else if n < 0x8000_0000_0000_0000 {
        Some(n as i64)
    } else {
        None
    }
}

/// White space is what Unicode counts as such: among the first 128 characters
/// the blank and the five from tab to carriage return, and above them the next
/// line, the no-break space and the spaces and separators of the higher blocks.
pub proof fn law_white_space_is_that_of_unicode(c: char)
    ensures
        c as int <= 0x7f ==> (is_white(c) <==> c as int == 0x20 || 9 <= c as int <= 13),
        0x80 <= c as int <= 0xff ==> (is_white(c) <==> c as int == 0x85 || c as int == 0xa0),
        0x100 <= c as int <= 0x1fff ==> (is_white(c) <==> c as int == 0x1680),
        0x2000 <= c as int <= 0x206f ==> (is_white(c) <==> c as int <= 0x200a || c as int
            == 0x2028 || c as int == 0x2029 || c as int == 0x202f || c as int == 0x205f),
        c as int >= 0x2070 ==> (is_white(c) <==> c as int == 0x3000),
{
}

/// The control characters are the 32 first, the 32 from the 128th on, and the
/// one before those.
pub proof fn law_control_characters_are_those_of_unicode(c: char)
    ensures
        is_control_char(c) <==> c as int / 32 == 0 || c as int / 32 == 4 || c as int == 127,
{
}

proof fn lemma_trim_end(s: Seq<char>)
    ensures
        trim_end_of(s).len() <= s.len(),
        trim_end_of(s) == s.take(trim_end_of(s).len() as int),
        forall|i: int| trim_end_of(s).len() <= i < s.len() ==> is_white(#[trigger] s[i]),
        trim_end_of(s).len() > 0 ==> !is_white(trim_end_of(s).last()),
    decreases s.len(),
{
    if s.len() > 0 && is_white(s.last()) {
        let front = s.drop_last();
        lemma_trim_end(front);
        assert(front.take(trim_end_of(front).len() as int) =~= s.take(
            trim_end_of(front).len() as int,
        ));
        assert forall|i: int| trim_end_of(s).len() <= i < s.len() implies is_white(
            #[trigger] s[i],
        ) by {
            if i < front.len() {
                assert(is_white(front[i]));
            }
        }
    } else {
        assert(s.take(s.len() as int) =~= s);
    }
}

proof fn lemma_trim_start(s: Seq<char>)
    ensures
        trim_start_of(s).len() <= s.len(),
        trim_start_of(s) == s.skip(s.len() - trim_start_of(s).len()),
        forall|i: int| 0 <= i < s.len() - trim_start_of(s).len() ==> is_white(#[trigger] s[i]),
        trim_start_of(s).len() > 0 ==> !is_white(trim_start_of(s)[0]),
    decreases s.len(),
{
    if s.len() > 0 && is_white(s[0]) {
        let rest = s.subrange(1, s.len() as int);
        lemma_trim_start(rest);
        let n = trim_start_of(rest).len();
        assert(rest.skip(rest.len() - n) =~= s.skip(s.len() - n));
        assert forall|i: int| 0 <= i < s.len() - n implies is_white(#[trigger] s[i]) by {
            if i > 0 {
                assert(is_white(rest[i - 1]));
            }
        }
    } else {
        assert(s.skip(0) =~= s);
    }
}

/// Trimming takes away white space at the two ends and nothing else: what is
/// left is the text between its first and its last character that is none.
pub proof fn law_trimming_takes_white_space_at_the_ends(s: Seq<char>, i: int, j: int)
    requires
        0 <= i <= j <= s.len(),
        forall|k: int| 0 <= k < i ==> is_white(#[trigger] s[k]),
        forall|k: int| j <= k < s.len() ==> is_white(#[trigger] s[k]),
        i < j ==> !is_white(s[i]) && !is_white(s[j - 1]),
    ensures
        trimmed(s) == s.subrange(i, j),
{
    lemma_trim_start(s);
    let rest = trim_start_of(s);
    lemma_trim_end(rest);
    let start = s.len() - rest.len();
    let out = trimmed(s);
    assert(rest =~= s.skip(start));
    if i == j {
        assert forall|k: int| 0 <= k < s.len() implies is_white(#[trigger] s[k]) by {
            if k < i {
            }
        }
        if rest.len() > 0 {
            assert(is_white(s[start]));
            assert(rest[0] == s[start]);
        }
        assert(out =~= s.subrange(i, j));
    } else {
        if start > i {
            assert(is_white(s[i]));
        }
        if start < i {
            assert(rest[0] == s[start]);
            assert(is_white(s[start]));
        }
        let n = out.len() as int;
        assert(out =~= rest.take(n));
        if n < j - i {
            assert(is_white(rest[j - 1 - i]));
            assert(rest[j - 1 - i] == s[j - 1]);
        }
        if n > j - i {
            assert(out.last() == rest[n - 1]);
            assert(rest[n - 1] == s[i + n - 1]);
            assert(is_white(s[i + n - 1]));
        }
        assert(out =~= s.subrange(i, j));
    }
}

/// A part that neither starts nor ends with white space stands in a text exactly
/// where it stands in the trimmed text.
pub proof fn law_trimming_keeps_the_parts(s: Seq<char>, part: Seq<char>)
    requires
        part.len() > 0,
        !is_white(part[0]),
        !is_white(part.last()),
    ensures
        has_part(trimmed(s), part) <==> has_part(s, part),
{
    lemma_trim_start(s);
    let rest = trim_start_of(s);
    lemma_trim_end(rest);
    let start = s.len() - rest.len();
    let out = trimmed(s);
    let n = out.len() as int;
    assert(out =~= s.subrange(start, start + n));
    if has_part(out, part) {
        let i = choose|i: int| part_at(out, part, i);
        assert(s.subrange(start + i, start + i + part.len()) =~= out.subrange(
            i,
            i + part.len(),
        ));
        assert(part_at(s, part, start + i));
    }
    if has_part(s, part) {
        let i = choose|i: int| part_at(s, part, i);
        assert(s.subrange(i, i + part.len())[0] == s[i]);
        assert(s.subrange(i, i + part.len()).last() == s[i + part.len() - 1]);
        if i < start {
            assert(is_white(s[i]));
        }
        if i + part.len() > start + n {
            assert(is_white(rest[i + part.len() - 1 - start]));
        }
        assert(out.subrange(i - start, i - start + part.len()) =~= s.subrange(
            i,
            i + part.len(),
        ));
        assert(part_at(out, part, i - start));
    }
}

proof fn lemma_next_index<T>(s: Seq<T>, c: T, from: int)
    requires
        0 <= from <= s.len(),
    ensures
        from <= next_index(s, c, from) <= s.len(),
        next_index(s, c, from) < s.len() ==> s[next_index(s, c, from)] == c,
        forall|k: int| from <= k < next_index(s, c, from) ==> #[trigger] s[k] != c,
    decreases s.len() - from,
{
    if from < s.len() && s[from] != c {
        lemma_next_index(s, c, from + 1);
    }
}

/// Separators part a text: a text without the separator is one piece, and what
/// stands before the first separator is the first piece, whatever follows.
pub proof fn law_separators_part_a_text<T>(first: Seq<T>, c: T, rest: Seq<T>)
    requires
        !first.contains(c),
    ensures
        pieces(first, c) == seq![first],
        pieces(first + seq![c] + rest, c) == seq![first] + pieces(rest, c),
{
    let s = first + seq![c] + rest;
    lemma_next_index(first, c, 0);
    lemma_next_index(s, c, 0);
    let i = next_index(s, c, 0);
    let n = first.len() as int;
    assert(s[n] == c);
    if i < n {
        assert(first[i] == s[i]);
    }
    assert(i == n);
    assert(s.subrange(0, n) =~= first);
    assert(s.subrange(n + 1, s.len() as int) =~= rest);
    if next_index(first, c, 0) < n {
        assert(first.contains(first[next_index(first, c, 0)]));
    }
}

/// Line feeds part a text into lines: what stands before the first line feed,
/// without one carriage return at its end, is the first line, whatever follows.
/// A text without a line feed is one line as it stands, and an empty text none.
pub proof fn law_line_feeds_part_a_text(first: Seq<char>, rest: Seq<char>)
    requires
        !first.contains('\n'),
    ensures
        lines_of(Seq::<char>::empty()).len() == 0,
        first.len() > 0 ==> lines_of(first) == seq![first],
        lines_of(first + seq!['\r', '\n'] + rest) == seq![first] + lines_of(rest),
        first.len() == 0 || first.last() != '\r' ==> lines_of(first + seq!['\n'] + rest)
            == seq![first] + lines_of(rest),
{
    lemma_first_line(first, rest);
    let with_cr = first.push('\r');
    assert forall|k: int| 0 <= k < with_cr.len() implies with_cr[k] != '\n' by {
        if k < first.len() {
            assert(with_cr[k] == first[k]);
            assert(first.contains(first[k]));
        }
    }
    lemma_first_line(with_cr, rest);
    assert(with_cr.drop_last() =~= first);
    assert(with_cr + seq!['\n'] + rest =~= first + seq!['\r', '\n'] + rest);
}

proof fn lemma_first_line(first: Seq<char>, rest: Seq<char>)
    requires
        !first.contains('\n'),
    ensures
        first.len() > 0 ==> lines_of(first) == seq![first],
        lines_of(first + seq!['\n'] + rest) == seq![without_cr(first)] + lines_of(rest),
{
    let s = first + seq!['\n'] + rest;
    lemma_next_index(first, '\n', 0);
    lemma_next_index(s, '\n', 0);
    let i = next_index(s, '\n', 0);
    let n = first.len() as int;
    assert(s[n] == '\n');
    if i < n {
        assert(first[i] == s[i]);
    }
    assert(s.subrange(0, n) =~= first);
    assert(s.subrange(n + 1, s.len() as int) =~= rest);
    if next_index(first, '\n', 0) < n {
        assert(first.contains(first[next_index(first, '\n', 0)]));
    }
}

proof fn lemma_next_white_shifts(s: Seq<char>, white: bool, from: int, by: int)
    requires
        0 <= by <= from <= s.len(),
    ensures
        next_white(s.skip(by), white, from - by) == next_white(s, white, from) - by,
    decreases s.len() - from,
{
    let rest = s.skip(by);
    if from < s.len() {
        assert(rest[from - by] == s[from]);
        if is_white(s[from]) != white {
            lemma_next_white_shifts(s, white, from + 1, by);
        }
    }
}

proof fn lemma_words_from(s: Seq<char>, from: int)
    requires
        0 <= from <= s.len(),
    ensures
        words_from(s, from) == words_of(s.skip(from)),
    decreases s.len() - from,
{
    let rest = s.skip(from);
    lemma_next_white(s, false, from);
    lemma_next_white_shifts(s, false, from, from);
    let start = next_white(s, false, from);
    if start < s.len() {
        lemma_next_white(s, true, start);
        lemma_next_white_shifts(s, true, start, from);
        let end = next_white(s, true, start);
        assert(s.subrange(start, end) =~= rest.subrange(start - from, end - from));
        assert(end > start);
        lemma_words_from(s, end);
        lemma_words_from(rest, end - from);
        assert(rest.skip(end - from) =~= s.skip(end));
    }
}

proof fn lemma_leading_white(s: Seq<char>)
    requires
        s.len() > 0,
        is_white(s[0]),
    ensures
        words_of(s) == words_of(s.skip(1)),
{
    lemma_words_from(s, 1);
    assert(next_white(s, false, 0) == next_white(s, false, 1));
    lemma_next_white(s, false, 1);
    let start = next_white(s, false, 1);
    if start < s.len() {
        assert(words_from(s, 0) =~= words_from(s, 1));
    }
}

/// White space parts words, and nothing else does: the words of two texts with
/// white space between them are those of the one and those of the other; a text
/// of white space has none, and one without is a word.
pub proof fn law_white_space_parts_words(a: Seq<char>, c: char, b: Seq<char>)
    requires
        is_white(c),
    ensures
        words_of(a + seq![c] + b) == words_of(a) + words_of(b),
        (forall|i: int| 0 <= i < a.len() ==> is_white(#[trigger] a[i])) ==> words_of(a).len() == 0,
        a.len() > 0 && (forall|i: int| 0 <= i < a.len() ==> !is_white(#[trigger] a[i]))
            ==> words_of(a) == seq![a],
    decreases a.len(),
{
    let s = a + seq![c] + b;
    lemma_next_white(a, false, 0);
    if a.len() == 0 {
        lemma_leading_white(s);
        assert(s.skip(1) =~= b);
        assert(words_of(a) + words_of(b) =~= words_of(b));
    } else if is_white(a[0]) {
        let rest = a.skip(1);
        lemma_leading_white(a);
        assert(s[0] == a[0]);
        lemma_leading_white(s);
        assert(s.skip(1) =~= rest + seq![c] + b);
        law_white_space_parts_words(rest, c, b);
        if forall|i: int| 0 <= i < a.len() ==> is_white(#[trigger] a[i]) {
            assert forall|i: int| 0 <= i < rest.len() implies is_white(#[trigger] rest[i]) by {
                assert(rest[i] == a[i + 1]);
            }
        }
    } else {
        lemma_next_white(a, true, 0);
        let end = next_white(a, true, 0);
        assert(next_white(a, false, 0) == 0);
        assert(s[0] == a[0]);
        assert(next_white(s, false, 0) == 0);
        lemma_next_white(s, true, 0);
        let same = next_white(s, true, 0);
        assert(s[a.len() as int] == c);
        assert(same == end) by {
            if same < end {
                assert(s[same] == a[same]);
            } else if end < same {
                if end < a.len() {
                    assert(s[end] == a[end]);
                }
                assert(is_white(s[end]));
            }
        }
        assert(s.subrange(0, end) =~= a.subrange(0, end));
        let rest = a.skip(end);
        lemma_words_from(a, end);
        lemma_words_from(s, end);
        assert(s.skip(end) =~= rest + seq![c] + b);
        assert(end > 0);
        law_white_space_parts_words(rest, c, b);
        assert(words_of(s) =~= seq![a.subrange(0, end)] + (words_of(rest) + words_of(b)));
        assert(words_of(a) =~= seq![a.subrange(0, end)] + words_of(rest));
        assert(words_of(s) =~= words_of(a) + words_of(b));
        if end == a.len() {
            assert(rest =~= Seq::<char>::empty());
            assert(a.subrange(0, end) =~= a);
            assert(words_of(a) =~= seq![a]);
        } else {
            assert(is_white(a[end]));
        }
        assert(!is_white(a[0]));
    }
}

/// The order of texts goes by the first character in which they differ, and a
/// text comes before those that it is the start of.
pub proof fn law_texts_are_ordered_by_their_first_difference(
    a: Seq<char>,
    b: Seq<char>,
    i: int,
)
    requires
        0 <= i <= a.len(),
        i <= b.len(),
        a.take(i) == b.take(i),
        i < a.len() && i < b.len() ==> a[i] != b[i],
    ensures
        text_before(a, b) <==> i < b.len() && (i == a.len() || (a[i] as int) < (b[i] as int)),
    decreases i,
{
    assert forall|k: int| 0 <= k < i implies a[k] == b[k] by {
        assert(a.take(i)[k] == a[k]);
        assert(b.take(i)[k] == b[k]);
    }
    lemma_text_before_at(a, b, i);
    if i < a.len() {
        assert(a.skip(i)[0] == a[i]);
    }
    if i < b.len() {
        assert(b.skip(i)[0] == b[i]);
    }
}

proof fn lemma_decimal_digits(n: int)
    requires
        n >= 0,
    ensures
        digits_value(decimal(n)) == Some(n),
        decimal(n).len() > 0,
        decimal(n)[0] == '0' ==> n == 0,
        forall|i: int| 0 <= i < decimal(n).len() ==> '0' <= #[trigger] decimal(n)[i] <= '9',
    decreases n,
{
    if n < 10 {
        let s = decimal(n);
        assert(s.drop_last() =~= Seq::<char>::empty());
        assert(digits_value(s.drop_last()) == Some(0int));
    } else {
        lemma_decimal_digits(n / 10);
        let high = decimal(n / 10);
        let s = decimal(n);
        assert(s.drop_last() =~= high);
        assert(s[0] == high[0]);
        assert(s.last() == digit(n % 10));
        assert forall|i: int| 0 <= i < s.len() implies '0' <= #[trigger] s[i] <= '9' by {
            if i < high.len() {
                assert(s[i] == high[i]);
            }
        }
    }
}

/// A number is read back from its decimal digits, which start with a zero for
/// zero alone.
pub proof fn law_decimal_digits_round_trip(n: int)
    ensures
        i64::MIN <= n <= i64::MAX ==> integer_of(signed_decimal(n)) == Some(n as i64),
        !(i64::MIN <= n <= i64::MAX) ==> integer_of(signed_decimal(n)) is None,
        0 <= n <= i64::MAX ==> integer_of(seq!['+'] + decimal(n)) == Some(n as i64),
        0 < n ==> decimal(n)[0] != '0',
        decimal(0) == seq!['0'],
{
    if n >= 0 {
        lemma_decimal_digits(n);
        assert(decimal(n)[0] != '-' && decimal(n)[0] != '+');
        let plus = seq!['+'] + decimal(n);
        assert(plus.subrange(1, plus.len() as int) =~= decimal(n));
    } else {
        lemma_decimal_digits(-n);
        let s = signed_decimal(n);
        assert(s.subrange(1, s.len() as int) =~= decimal(-n));
    }
}

proof fn lemma_all_digits(s: Seq<char>)
    ensures
        digits_value(s) is Some <==> (forall|i: int| 0 <= i < s.len() ==> '0' <= #[trigger] s[i]
            <= '9'),
    decreases s.len(),
{
    if s.len() > 0 {
        let front = s.drop_last();
        lemma_all_digits(front);
        if digits_value(s) is Some {
            assert forall|i: int| 0 <= i < s.len() implies '0' <= #[trigger] s[i] <= '9' by {
                if i < front.len() {
                    assert(s[i] == front[i]);
                }
            }
        }
        if forall|i: int| 0 <= i < s.len() ==> '0' <= #[trigger] s[i] <= '9' {
            assert forall|i: int| 0 <= i < front.len() implies '0' <= #[trigger] front[i]
                <= '9' by {
                assert(s[i] == front[i]);
            }
            assert('0' <= s[s.len() - 1] <= '9');
        }
    }
}

/// Only digits with at most a sign before them make a number, and zeros before
/// the digits change nothing.
pub proof fn law_only_digits_make_a_number(s: Seq<char>, i: int)
    ensures
        s.len() == 0 ==> integer_of(s) is None,
        0 <= i < s.len() && !('0' <= s[i] <= '9') && (i > 0 || s.len() == 1 || s[0] != '+' && s[0]
            != '-') ==> integer_of(s) is None,
        s.len() > 0 && s[0] != '+' && s[0] != '-' ==> integer_of(seq!['0'] + s) == integer_of(s),
{
    let signed = s.len() > 0 && (s[0] == '+' || s[0] == '-');
    let digits = if signed {
        s.subrange(1, s.len() as int)
    } else {
        s
    };
    lemma_all_digits(digits);
    if 0 <= i < s.len() {
        if signed && i > 0 {
            assert(digits[i - 1] == s[i]);
        } else if !signed {
            assert(digits[i] == s[i]);
        }
    }
    lemma_leading_zero(s);
}

proof fn lemma_leading_zero(s: Seq<char>)
    ensures
        digits_value(seq!['0'] + s) == digits_value(s),
    decreases s.len(),
{
    let more = seq!['0'] + s;
    if s.len() == 0 {
        assert(more.drop_last() =~= Seq::<char>::empty());
        assert(digits_value(more.drop_last()) == Some(0int));
    } else {
        lemma_leading_zero(s.drop_last());
        assert(more.drop_last() =~= seq!['0'] + s.drop_last());
    }
}

} // verus!
