//! How counts, sizes and paragraphs are shown to a person.

use vstd::prelude::*;
use vstd::slice::slice_subrange;
use vstd::utf8::encode_utf8;

use crate::numbers::{
    as_double, distance, law_a_quotient_is_rounded_to_the_nearest, nearest_double, round_half_even,
    rounded_quotient,
};
use crate::text::{
    chars_of, decimal, digit, digit_char, law_separators_part_a_text, pieces, push_decimal,
    push_text, string_of, texts, words, words_of,
};

verus! {

/// The last three digits of a number.
pub open spec fn three_digits(n: int) -> Seq<char> {
    seq![digit((n / 100) % 10), digit((n / 10) % 10), digit(n % 10)]
}

/// A number with a comma before each group of three digits but the first.
pub open spec fn grouped(n: int) -> Seq<char>
    decreases n,
{
    if n < 1000 {
        decimal(n)
    } else {
        grouped(n / 1000) + ","@ + three_digits(n)
    }
}

fn push_grouped(out: &mut String, n: u64)
    ensures
        final(out)@ == old(out)@ + grouped(n as int),
    decreases n,
{
    if n < 1000 {
        push_decimal(out, n);
    } else {
        let ghost before = out@;
        push_grouped(out, n / 1000);
        out.append(",");
        out.push(digit_char(((n / 100) % 10) as u8));
        out.push(digit_char(((n / 10) % 10) as u8));
        out.push(digit_char((n % 10) as u8));
        proof {
            assert(out@ =~= before + grouped(n as int));
        }
    }
}

/// A count with a comma before each group of three digits but the first.
pub fn human_count(n: u64) -> (r: String)
    ensures
        r@ == grouped(n as int),
{
    let mut out = String::new();
    push_grouped(&mut out, n);
    proof {
        assert(out@ =~= grouped(n as int));
    }
    out
}

/// A text without its commas.
pub open spec fn without_commas(s: Seq<char>) -> Seq<char>
    decreases s.len(),
{
    if s.len() == 0 {
        Seq::empty()
    } else if s.last() == ',' {
        without_commas(s.drop_last())
    } else {
        without_commas(s.drop_last()).push(s.last())
    }
}

proof fn lemma_without_commas_sum(a: Seq<char>, b: Seq<char>)
    ensures
        without_commas(a + b) == without_commas(a) + without_commas(b),
    decreases b.len(),
{
    if b.len() == 0 {
        assert(a + b =~= a);
        assert(without_commas(a) + without_commas(b) =~= without_commas(a));
    } else {
        assert((a + b).drop_last() =~= a + b.drop_last());
        lemma_without_commas_sum(a, b.drop_last());
        assert(without_commas(a + b) =~= without_commas(a) + without_commas(b));
    }
}

proof fn lemma_no_commas(s: Seq<char>)
    requires
        !s.contains(','),
    ensures
        without_commas(s) == s,
    decreases s.len(),
{
    if s.len() > 0 {
        let front = s.drop_last();
        assert forall|i: int| 0 <= i < front.len() implies front[i] != ',' by {
            assert(s[i] != ',');
        }
        lemma_no_commas(front);
        assert(s[s.len() - 1] != ',');
        assert(without_commas(s) =~= s);
    }
}

proof fn lemma_decimal_has_no_commas(n: int)
    requires
        n >= 0,
    ensures
        !decimal(n).contains(','),
    decreases n,
{
    if n >= 10 {
        lemma_decimal_has_no_commas(n / 10);
        assert forall|i: int| 0 <= i < decimal(n).len() implies decimal(n)[i] != ',' by {
            if i < decimal(n / 10).len() {
                assert(decimal(n)[i] == decimal(n / 10)[i]);
            }
        }
    }
}

proof fn lemma_decimal_in_groups(n: int)
    requires
        n >= 1000,
    ensures
        decimal(n) == decimal(n / 1000) + three_digits(n),
{
    assert(decimal(n) == decimal(n / 10).push(digit(n % 10)));
    assert(decimal(n / 10) == decimal(n / 10 / 10).push(digit((n / 10) % 10)));
    assert(n / 10 / 10 == n / 100);
    assert(decimal(n / 100) == decimal(n / 100 / 10).push(digit((n / 100) % 10)));
    assert(n / 100 / 10 == n / 1000);
    assert(decimal(n) =~= decimal(n / 1000) + three_digits(n));
}

/// A count differs from the number that it shows by its commas alone.
pub proof fn law_only_commas_are_added(n: int)
    requires
        n >= 0,
    ensures
        without_commas(grouped(n)) == decimal(n),
    decreases n,
{
    if n < 1000 {
        lemma_decimal_has_no_commas(n);
        lemma_no_commas(decimal(n));
    } else {
        reveal_strlit(",");
        law_only_commas_are_added(n / 1000);
        lemma_without_commas_sum(grouped(n / 1000) + ","@, three_digits(n));
        lemma_without_commas_sum(grouped(n / 1000), ","@);
        assert(","@.drop_last() =~= Seq::<char>::empty());
        assert(without_commas(","@.drop_last()) =~= Seq::<char>::empty());
        assert(without_commas(","@) =~= Seq::<char>::empty());
        lemma_no_commas(three_digits(n));
        lemma_decimal_in_groups(n);
        assert(without_commas(grouped(n)) =~= decimal(n));
    }
}

/// The unit that a size of so many bytes is shown in, and its size.
pub open spec fn unit_of(n: nat) -> (nat, Seq<char>) {
    if n < 0x10_0000 {
        (0x400, "KiB"@)
    } else if n < 0x4000_0000 {
        (0x10_0000, "MiB"@)
    } else if n < 0x100_0000_0000 {
        (0x4000_0000, "GiB"@)
    } else {
        (0x100_0000_0000, "TiB"@)
    }
}

/// How a size is shown: in bytes, or in the largest binary unit that is not
/// larger, to one decimal.
///
/// The size is first rounded to a number that a double holds, and then to
/// tenths, to the even one where two are equally near.
pub open spec fn size_text(n: nat) -> Seq<char> {
    if n < 1024 {
        decimal(n as int) + " B"@
    } else {
        let tenths = round_half_even(10 * nearest_double(n), unit_of(n).0);
        decimal(tenths as int / 10) + "."@ + decimal(tenths as int % 10) + " "@ + unit_of(n).1
    }
}

/// A size in binary units.
pub fn human_bytes(n: u64) -> (r: String)
    ensures
        r@ == size_text(n as nat),
{
    let mut out = String::new();
    if n < 1024 {
        push_decimal(&mut out, n);
        out.append(" B");
        proof {
            assert(out@ =~= size_text(n as nat));
        }
        return out;
    }
    let (unit, name): (u128, &str) = if n < 0x10_0000 {
        (0x400, "KiB")
    } else if n < 0x4000_0000 {
        (0x10_0000, "MiB")
    } else if n < 0x100_0000_0000 {
        (0x4000_0000, "GiB")
    } else {
        (0x100_0000_0000, "TiB")
    };
    let value: u128 = as_double(n);
    let tenths: u128 = rounded_quotient(10 * value, unit);
    push_decimal(&mut out, (tenths / 10) as u64);
    out.append(".");
    push_decimal(&mut out, (tenths % 10) as u64);
    out.append(" ");
    out.append(name);
    proof {
        assert(out@ =~= size_text(n as nat));
    }
    out
}

/// How many bytes a text takes.
pub open spec fn byte_len(s: Seq<char>) -> nat {
    encode_utf8(s).len()
}

proof fn lemma_byte_len_sum(a: Seq<char>, b: Seq<char>)
    ensures
        byte_len(a + b) == byte_len(a) + byte_len(b),
    decreases a.len(),
{
    if a.len() == 0 {
        assert(a + b =~= b);
    } else {
        assert((a + b).drop_first() =~= a.drop_first() + b);
        lemma_byte_len_sum(a.drop_first(), b);
    }
}

/// How many bytes of a name of an object are shown.
pub const SHORT_OID_LEN: usize = 12;

/// Whether the first `n` characters of a name are what is shown of it: those
/// that make up its first bytes.
pub open spec fn is_short(oid: Seq<char>, n: int) -> bool {
    0 <= n <= oid.len() && byte_len(oid.take(n)) == if byte_len(oid) < SHORT_OID_LEN {
        byte_len(oid)
    } else {
        SHORT_OID_LEN as nat
    }
}

proof fn lemma_byte_len_grows(s: Seq<char>, a: int, b: int)
    requires
        0 <= a < b <= s.len(),
    ensures
        byte_len(s.take(a)) < byte_len(s.take(b)),
{
    let more = s.subrange(a, b);
    assert(s.take(b) =~= s.take(a) + more);
    lemma_byte_len_sum(s.take(a), more);
    vstd::utf8::encode_utf8_first_scalar(more);
}

/// What is shown of a name is one text, not one of several.
pub proof fn law_a_name_is_shortened_in_one_way(oid: Seq<char>, a: int, b: int)
    requires
        is_short(oid, a),
        is_short(oid, b),
    ensures
        a == b,
{
    if a < b {
        lemma_byte_len_grows(oid, a, b);
    } else if b < a {
        lemma_byte_len_grows(oid, b, a);
    }
}

/// The name of an object, cut to its first bytes.
pub fn short_oid(oid: &str) -> (r: String)
    requires
        exists|n: int| #[trigger] is_short(oid@, n),
    ensures
        exists|n: int| #[trigger] is_short(oid@, n) && r@ == oid@.take(n),
{
    let chars = chars_of(oid);
    let all: usize = oid.as_bytes().len();
    let wanted: usize = if all < SHORT_OID_LEN {
        all
    } else {
        SHORT_OID_LEN
    };
    let ghost end = choose|n: int| #[trigger] is_short(oid@, n);
    let total: usize = chars.len();
    let mut n: usize = 0;
    loop
        invariant
            chars@ == oid@,
            total == chars@.len(),
            is_short(oid@, end),
            n <= end <= chars@.len(),
            wanted == if byte_len(oid@) < SHORT_OID_LEN {
                byte_len(oid@) as int
            } else {
                SHORT_OID_LEN as int
            },
        decreases chars@.len() - n,
    {
        let head = string_of(slice_subrange(chars.as_slice(), 0, n));
        proof {
            assert(head@ =~= oid@.take(n as int));
        }
        if head.as_str().as_bytes().len() == wanted {
            assert(is_short(oid@, n as int));
            return head;
        }
        proof {
            if n == end {
                assert(byte_len(oid@.take(end)) == wanted);
            }
            assert(n < end);
        }
        n += 1;
    }
}

/// What is left to show of a paragraph, where `line` is what the current line
/// holds and `rest` the words to come.
pub open spec fn wrapped(line: Seq<char>, rest: Seq<Seq<char>>, width: nat) -> Seq<Seq<char>>
    decreases rest.len(),
{
    if rest.len() == 0 {
        if line.len() == 0 {
            Seq::empty()
        } else {
            seq![line]
        }
    } else if line.len() == 0 {
        wrapped(rest[0], rest.skip(1), width)
    } else if byte_len(line) + 1 + byte_len(rest[0]) > width {
        seq![line] + wrapped(rest[0], rest.skip(1), width)
    } else {
        wrapped(line + " "@ + rest[0], rest.skip(1), width)
    }
}

/// A paragraph in lines of up to `width` bytes, broken at white space. A word
/// that is longer has a line to itself.
pub fn wrap(text: &str, width: usize) -> (r: Vec<String>)
    ensures
        texts(r@) == wrapped(Seq::empty(), words_of(text@), width as nat),
{
    let chars = chars_of(text);
    let all = words(chars.as_slice());
    let ghost names = texts(all@);
    let ghost whole = wrapped(Seq::empty(), names, width as nat);
    let mut out: Vec<String> = Vec::new();
    let mut line = String::new();
    let mut i: usize = 0;
    proof {
        assert(names.skip(0) =~= names);
        assert(texts(out@) =~= Seq::<Seq<char>>::empty());
        assert(line@ =~= Seq::<char>::empty());
        assert(texts(out@) + wrapped(line@, names.skip(0), width as nat) =~= whole);
    }
    while i < all.len()
        invariant
            i <= all@.len(),
            names == texts(all@),
            texts(out@) + wrapped(line@, names.skip(i as int), width as nat) == whole,
        decreases all@.len() - i,
    {
        let word = all[i].as_str();
        let ghost rest = names.skip(i as int);
        let ghost done = texts(out@);
        let ghost held = line@;
        proof {
            assert(rest[0] == word@);
            assert(rest.skip(1) =~= names.skip(i + 1));
        }
        let empty = line.as_str().is_empty();
        if !empty && line.as_str().as_bytes().len() as u128 + 1 + word.as_bytes().len() as u128
            > width as u128 {
            push_text(&mut out, line.as_str());
            line = word.to_owned();
            proof {
                assert(texts(out@) + wrapped(line@, names.skip(i + 1), width as nat) =~= done
                    + wrapped(held, rest, width as nat));
            }
        } else {
            if !empty {
                line.append(" ");
            }
            line.append(word);
            proof {
                if held.len() == 0 {
                    assert(line@ =~= word@);
                }
            }
        }
        i += 1;
    }
    proof {
        assert(names.skip(names.len() as int) =~= Seq::<Seq<char>>::empty());
    }
    if !line.as_str().is_empty() {
        push_text(&mut out, line.as_str());
        proof {
            assert(texts(out@) =~= whole);
        }
    } else {
        proof {
            assert(texts(out@) =~= whole);
        }
    }
    out
}

/// Words with a blank between them.
pub open spec fn spaced(words: Seq<Seq<char>>) -> Seq<char>
    decreases words.len(),
{
    if words.len() == 0 {
        Seq::empty()
    } else if words.len() == 1 {
        words[0]
    } else {
        words[0] + " "@ + spaced(words.skip(1))
    }
}

/// Wrapping loses no word and changes no order: the lines, with a blank between
/// them, are the words with a blank between them.
pub proof fn law_wrapping_keeps_the_words(
    line: Seq<char>,
    rest: Seq<Seq<char>>,
    width: nat,
)
    requires
        forall|i: int| 0 <= i < rest.len() ==> (#[trigger] rest[i]).len() > 0,
    ensures
        line.len() == 0 ==> spaced(wrapped(line, rest, width)) == spaced(rest),
        line.len() > 0 ==> spaced(wrapped(line, rest, width)) == spaced(seq![line] + rest),
        rest.len() > 0 || line.len() > 0 ==> wrapped(line, rest, width).len() > 0,
    decreases rest.len(),
{
    if rest.len() == 0 {
        assert(seq![line] + rest =~= seq![line]);
    } else {
        let later = rest.skip(1);
        assert forall|i: int| 0 <= i < later.len() implies (#[trigger] later[i]).len() > 0 by {
            assert(later[i] == rest[i + 1]);
        }
        assert(rest[0].len() > 0);
        assert(seq![rest[0]] + later =~= rest);
        if line.len() == 0 {
            law_wrapping_keeps_the_words(rest[0], later, width);
        } else if byte_len(line) + 1 + byte_len(rest[0]) > width {
            law_wrapping_keeps_the_words(rest[0], later, width);
            let below = wrapped(rest[0], later, width);
            assert((seq![line] + below).skip(1) =~= below);
            assert((seq![line] + rest).skip(1) =~= rest);
        } else {
            let longer = line + " "@ + rest[0];
            reveal_strlit(" ");
            law_wrapping_keeps_the_words(longer, later, width);
            assert((seq![line] + rest).skip(1) =~= rest);
            assert((seq![longer] + later).skip(1) =~= later);
            if later.len() == 0 {
                assert(seq![longer] + later =~= seq![longer]);
                assert(spaced(rest) == rest[0]);
                assert(spaced(seq![line] + rest) =~= longer);
            } else {
                assert(spaced(rest) == rest[0] + " "@ + spaced(later));
                assert(spaced(seq![line] + rest) =~= longer + " "@ + spaced(later));
            }
        }
    }
}

/// A wrapped line is longer than the width only where it is a single word.
pub proof fn law_wrapped_lines_fit(
    line: Seq<char>,
    rest: Seq<Seq<char>>,
    width: nat,
    i: int,
)
    requires
        0 <= i < wrapped(line, rest, width).len(),
    ensures
        byte_len(wrapped(line, rest, width)[i]) <= width || wrapped(line, rest, width)[i] == line
            || rest.contains(wrapped(line, rest, width)[i]),
    decreases rest.len(),
{
    if rest.len() > 0 {
        let later = rest.skip(1);
        let out = wrapped(line, rest, width);
        if line.len() == 0 {
            law_wrapped_lines_fit(rest[0], later, width, i);
            lemma_among(rest, out[i]);
        } else if byte_len(line) + 1 + byte_len(rest[0]) > width {
            if i > 0 {
                law_wrapped_lines_fit(rest[0], later, width, i - 1);
                assert(out[i] == wrapped(rest[0], later, width)[i - 1]);
                lemma_among(rest, out[i]);
            }
        } else {
            let longer = line + " "@ + rest[0];
            reveal_strlit(" ");
            lemma_byte_len_sum(line + " "@, rest[0]);
            lemma_byte_len_sum(line, " "@);
            assert(vstd::utf8::is_ascii_chars(" "@));
            vstd::utf8::is_ascii_chars_encode_utf8(" "@);
            law_wrapped_lines_fit(longer, later, width, i);
            lemma_among(rest, out[i]);
        }
    }
}

proof fn lemma_among(rest: Seq<Seq<char>>, word: Seq<char>)
    requires
        rest.len() > 0,
    ensures
        rest[0] == word || rest.skip(1).contains(word) ==> rest.contains(word),
{
    if rest.skip(1).contains(word) {
        let i = choose|i: int| 0 <= i < rest.skip(1).len() && rest.skip(1)[i] == word;
        assert(rest[i + 1] == word);
    }
}

/// A text with blanks behind it, up to `width` characters.
pub open spec fn padded_right(s: Seq<char>, width: nat) -> Seq<char> {
    if s.len() >= width {
        s
    } else {
        s + Seq::new((width - s.len()) as nat, |i: int| ' ')
    }
}

/// A text with blanks before it, up to `width` characters.
pub open spec fn padded_left(s: Seq<char>, width: nat) -> Seq<char> {
    if s.len() >= width {
        s
    } else {
        Seq::new((width - s.len()) as nat, |i: int| ' ') + s
    }
}

fn push_blanks(out: &mut String, n: usize)
    ensures
        final(out)@ == old(out)@ + Seq::new(n as nat, |i: int| ' '),
{
    let ghost before = out@;
    let mut i: usize = 0;
    proof {
        assert(before + Seq::new(0nat, |k: int| ' ') =~= before);
    }
    while i < n
        invariant
            i <= n,
            out@ == before + Seq::new(i as nat, |k: int| ' '),
        decreases n - i,
    {
        out.push(' ');
        proof {
            assert(out@ =~= before + Seq::new((i + 1) as nat, |k: int| ' '));
        }
        i += 1;
    }
}

/// Appends a text with blanks behind it, up to `width` characters.
pub fn push_padded_right(out: &mut String, s: &str, width: usize)
    ensures
        final(out)@ == old(out)@ + padded_right(s@, width as nat),
{
    let ghost before = out@;
    let n: usize = chars_of(s).len();
    out.append(s);
    if n < width {
        push_blanks(out, width - n);
    }
    proof {
        assert(out@ =~= before + padded_right(s@, width as nat));
    }
}

/// Appends a text with blanks before it, up to `width` characters.
pub fn push_padded_left(out: &mut String, s: &str, width: usize)
    ensures
        final(out)@ == old(out)@ + padded_left(s@, width as nat),
{
    let ghost before = out@;
    let n: usize = chars_of(s).len();
    if n < width {
        push_blanks(out, width - n);
    }
    out.append(s);
    proof {
        assert(out@ =~= before + padded_left(s@, width as nat));
    }
}

/// Texts with a separator between them.
pub open spec fn separated(v: Seq<Seq<char>>, by: Seq<char>) -> Seq<char>
    decreases v.len(),
{
    if v.len() == 0 {
        Seq::empty()
    } else if v.len() == 1 {
        v[0]
    } else {
        separated(v.drop_last(), by) + by + v.last()
    }
}

/// Texts with a separator between them.
pub fn join_texts(v: &Vec<String>, by: &str) -> (r: String)
    ensures
        r@ == separated(texts(v@), by@),
{
    let ghost all = texts(v@);
    let mut out = String::new();
    let mut i: usize = 0;
    proof {
        assert(all.take(0) =~= Seq::<Seq<char>>::empty());
        assert(out@ =~= Seq::<char>::empty());
    }
    while i < v.len()
        invariant
            i <= v@.len(),
            all == texts(v@),
            out@ == separated(all.take(i as int), by@),
        decreases v@.len() - i,
    {
        let ghost held = out@;
        proof {
            let next = all.take(i + 1);
            assert(next.drop_last() =~= all.take(i as int));
            assert(next.last() == v@[i as int]@);
        }
        if i > 0 {
            out.append(by);
        }
        out.append(v[i].as_str());
        proof {
            assert(out@ =~= separated(all.take(i + 1), by@));
        }
        i += 1;
    }
    proof {
        assert(all.take(all.len() as int) =~= all);
    }
    out
}

proof fn lemma_group_digits(n: int)
    requires
        n >= 0,
    ensures
        three_digits(n).len() == 3,
        forall|i: int| 0 <= i < 3 ==> #[trigger] three_digits(n)[i] != ',',
{
}

/// A comma stands wherever the number of characters from it to the end is a
/// multiple of four, and nowhere else; no count starts with one.
pub proof fn law_commas_stand_before_each_three_digits(n: int, i: int)
    requires
        n >= 0,
        0 <= i < grouped(n).len(),
    ensures
        grouped(n)[i] == ',' <==> (grouped(n).len() - i) % 4 == 0,
        grouped(n)[0] != ',',
    decreases n,
{
    reveal_strlit(",");
    if n < 1000 {
        lemma_decimal_has_no_commas(n);
        assert(decimal(n).contains(decimal(n)[i]));
        assert(decimal(n).contains(decimal(n)[0]));
        assert(decimal(n).len() <= 3) by {
            reveal_with_fuel(decimal, 3);
        }
    } else {
        lemma_group_digits(n);
        let high = grouped(n / 1000);
        let m = high.len() as int;
        assert(m > 0) by {
            lemma_grouped_is_not_empty(n / 1000);
        }
        law_commas_stand_before_each_three_digits(n / 1000, 0);
        if i < m {
            law_commas_stand_before_each_three_digits(n / 1000, i);
            assert(grouped(n)[i] == high[i]);
        } else if i > m {
            assert(grouped(n)[i] == three_digits(n)[i - m - 1]);
        }
        assert(grouped(n)[0] == high[0]);
    }
}

proof fn lemma_grouped_is_not_empty(n: int)
    requires
        n >= 0,
    ensures
        grouped(n).len() > 0,
    decreases n,
{
}

/// The names of the binary units, from that of 1024 bytes on.
pub open spec fn binary_units() -> Seq<Seq<char>> {
    seq!["KiB"@, "MiB"@, "GiB"@, "TiB"@]
}

/// Whether a size of so many bytes is shown in the `k`th binary unit, of `unit`
/// bytes: the unit fits, and no greater one does.
pub open spec fn fits_unit(n: nat, k: int, unit: nat) -> bool {
    &&& 1 <= k <= 4
    &&& unit == vstd::arithmetic::power::pow(1024, k as nat)
    &&& unit <= n
    &&& n < 1024 * unit || k == 4
}

/// Whether so many units are nearest to `value`: at most half a unit off, and an
/// even number of them where they are half a unit off.
pub open spec fn is_nearest(count: int, unit: nat, value: nat) -> bool {
    &&& 2 * distance(count * unit, value as int) <= unit
    &&& 2 * distance(count * unit, value as int) == unit ==> count % 2 == 0
}

/// A size is shown in the greatest binary unit that fits, to the nearest tenth of
/// it, and in bytes where none fits.
pub proof fn law_a_size_is_shown_to_the_nearest_tenth(n: nat, k: int, unit: nat)
    ensures
        n < 1024 ==> size_text(n) == decimal(n as int) + " B"@,
        fits_unit(n, k, unit) ==> exists|tenths: int|
            {
                &&& #[trigger] is_nearest(tenths, unit, 10 * nearest_double(n))
                &&& size_text(n) == decimal(tenths / 10) + "."@ + decimal(tenths % 10)
                    + " "@ + binary_units()[k - 1]
            },
{
    if fits_unit(n, k, unit) {
        reveal_with_fuel(vstd::arithmetic::power::pow, 5);
        assert(vstd::arithmetic::power::pow(1024, 1) == 0x400);
        assert(vstd::arithmetic::power::pow(1024, 2) == 0x10_0000);
        assert(vstd::arithmetic::power::pow(1024, 3) == 0x4000_0000);
        assert(vstd::arithmetic::power::pow(1024, 4) == 0x100_0000_0000);
        assert(unit_of(n) == (unit, binary_units()[k - 1]));
        let tenths = round_half_even(10 * nearest_double(n), unit);
        law_a_quotient_is_rounded_to_the_nearest(10 * nearest_double(n), unit);
        assert(is_nearest(tenths as int, unit, 10 * nearest_double(n)));
        assert(size_text(n) == decimal(tenths as int / 10) + "."@ + decimal(tenths as int % 10)
            + " "@ + binary_units()[k - 1]);
    }
}

/// Of a name of plain characters the first twelve are shown, or all where there
/// are fewer.
pub proof fn law_twelve_characters_of_a_name_are_shown(oid: Seq<char>, n: int)
    requires
        vstd::utf8::is_ascii_chars(oid),
    ensures
        is_short(oid, n) <==> n == if oid.len() < 12 {
            oid.len() as int
        } else {
            12
        },
{
    vstd::utf8::is_ascii_chars_encode_utf8(oid);
    let wanted: int = if oid.len() < 12 {
        oid.len() as int
    } else {
        12
    };
    let head = oid.take(wanted);
    assert(vstd::utf8::is_ascii_chars(head)) by {
        assert forall|i: int| 0 <= i < head.len() implies 0 <= #[trigger] head[i] as nat && head[i] as nat
            <= 127 by {
            assert(head[i] == oid[i]);
        }
    }
    vstd::utf8::is_ascii_chars_encode_utf8(head);
    assert(is_short(oid, wanted));
    if is_short(oid, n) {
        law_a_name_is_shortened_in_one_way(oid, n, wanted);
    }
}

/// Whether `next` starts with one of the words, and that word had no room behind
/// `line`.
pub open spec fn has_no_room_for(
    line: Seq<char>,
    next: Seq<char>,
    words: Seq<Seq<char>>,
    width: nat,
) -> bool {
    exists|w: int|
        0 <= w < words.len() && (#[trigger] words[w]).is_prefix_of(next) && byte_len(line) + 1
            + byte_len(words[w]) > width
}

/// A line is broken only where the next word has no room on it.
pub proof fn law_lines_are_broken_only_for_want_of_room(
    line: Seq<char>,
    rest: Seq<Seq<char>>,
    width: nat,
    i: int,
)
    requires
        forall|w: int| 0 <= w < rest.len() ==> (#[trigger] rest[w]).len() > 0,
        0 <= i,
        i + 1 < wrapped(line, rest, width).len(),
    ensures
        has_no_room_for(
            wrapped(line, rest, width)[i],
            wrapped(line, rest, width)[i + 1],
            rest,
            width,
        ),
    decreases rest.len(),
{
    let out = wrapped(line, rest, width);
    if rest.len() > 0 {
        let later = rest.skip(1);
        assert forall|w: int| 0 <= w < later.len() implies (#[trigger] later[w]).len() > 0 by {
            assert(later[w] == rest[w + 1]);
        }
        let word = rest[0];
        assert(word.len() > 0);
        if line.len() == 0 {
            law_lines_are_broken_only_for_want_of_room(word, later, width, i);
            lemma_no_room_for_more(out[i], out[i + 1], rest, width);
        } else if byte_len(line) + 1 + byte_len(word) > width {
            let below = wrapped(word, later, width);
            assert(out =~= seq![line] + below);
            if i > 0 {
                law_lines_are_broken_only_for_want_of_room(word, later, width, i - 1);
                lemma_no_room_for_more(out[i], out[i + 1], rest, width);
            } else {
                lemma_first_line_starts_with(word, later, width);
                assert(rest[0].is_prefix_of(out[1]));
            }
        } else {
            reveal_strlit(" ");
            law_lines_are_broken_only_for_want_of_room(
                line + " "@ + word,
                later,
                width,
                i,
            );
            lemma_no_room_for_more(out[i], out[i + 1], rest, width);
        }
    }
}

proof fn lemma_no_room_for_more(
    line: Seq<char>,
    next: Seq<char>,
    rest: Seq<Seq<char>>,
    width: nat,
)
    requires
        rest.len() > 0,
        has_no_room_for(line, next, rest.skip(1), width),
    ensures
        has_no_room_for(line, next, rest, width),
{
    let later = rest.skip(1);
    let w = choose|w: int|
        0 <= w < later.len() && (#[trigger] later[w]).is_prefix_of(next) && byte_len(line) + 1
            + byte_len(later[w]) > width;
    assert(rest[w + 1] == later[w]);
}

proof fn lemma_first_line_starts_with(line: Seq<char>, rest: Seq<Seq<char>>, width: nat)
    requires
        line.len() > 0,
    ensures
        wrapped(line, rest, width).len() > 0,
        line.is_prefix_of(wrapped(line, rest, width)[0]),
    decreases rest.len(),
{
    let out = wrapped(line, rest, width);
    if rest.len() == 0 || byte_len(line) + 1 + byte_len(rest[0]) > width {
        assert(out[0] =~= line);
        assert(line.subrange(0, line.len() as int) =~= line);
    } else {
        let longer = line + " "@ + rest[0];
        reveal_strlit(" ");
        lemma_first_line_starts_with(longer, rest.skip(1), width);
        assert(out[0].subrange(0, longer.len() as int) =~= longer);
        assert(out[0].subrange(0, line.len() as int) =~= line) by {
            assert forall|k: int| 0 <= k < line.len() implies out[0][k] == line[k] by {
                assert(out[0].subrange(0, longer.len() as int)[k] == longer[k]);
            }
        }
    }
}

/// Padding fills a text up to the width with blanks, behind it or before it, and
/// cuts nothing off.
pub proof fn law_padding_adds_blanks_on_one_side(s: Seq<char>, width: nat, i: int)
    requires
        0 <= i,
    ensures
        padded_right(s, width).len() == padded_left(s, width).len(),
        padded_right(s, width).len() == s.len() || padded_right(s, width).len() == width,
        padded_right(s, width).len() >= s.len(),
        padded_right(s, width).len() >= width,
        i < s.len() ==> padded_right(s, width)[i] == s[i] && padded_left(s, width)[padded_left(
            s,
            width,
        ).len() - s.len() + i] == s[i],
        s.len() <= i < width ==> padded_right(s, width)[i] == ' ' && padded_left(s, width)[i
            - s.len()] == ' ',
{
}

/// Texts are found again between their separators, where none of them holds the
/// separator.
pub proof fn law_separated_texts_are_found_again(v: Seq<Seq<char>>, c: char)
    requires
        v.len() > 0,
        forall|i: int| 0 <= i < v.len() ==> !(#[trigger] v[i]).contains(c),
    ensures
        pieces(separated(v, seq![c]), c) == v,
    decreases v.len(),
{
    law_separators_part_a_text(v[0], c, Seq::empty());
    if v.len() == 1 {
        assert(seq![v[0]] =~= v);
    } else {
        let rest = v.skip(1);
        assert forall|i: int| 0 <= i < rest.len() implies !(#[trigger] rest[i]).contains(c) by {
            assert(rest[i] == v[i + 1]);
        }
        law_separated_texts_are_found_again(rest, c);
        lemma_separated_first(v, seq![c]);
        law_separators_part_a_text(v[0], c, separated(rest, seq![c]));
        assert(seq![v[0]] + rest =~= v);
    }
}

proof fn lemma_separated_first(v: Seq<Seq<char>>, by: Seq<char>)
    requires
        v.len() > 1,
    ensures
        separated(v, by) == v[0] + by + separated(v.skip(1), by),
    decreases v.len(),
{
    let front = v.drop_last();
    let rest = v.skip(1);
    if v.len() == 2 {
        assert(front =~= seq![v[0]]);
        assert(rest =~= seq![v[1]]);
        assert(separated(front, by) == v[0]);
        assert(separated(rest, by) == v[1]);
        assert(separated(v, by) == separated(front, by) + by + v.last());
    } else {
        lemma_separated_first(front, by);
        assert(front.skip(1) =~= rest.drop_last());
        assert(rest.last() == v.last());
        assert(separated(v, by) =~= v[0] + by + separated(rest, by));
    }
}

} // verus!
