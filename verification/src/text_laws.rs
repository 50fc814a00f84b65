//! What holds of numbers, words and lists in text.
use crate::text;
use vstd::prelude::*;

verus! {

/// Decimal digits: a number below ten is one character, and a digit behind a number makes it ten times
/// as large and adds the digit. No number but 0 starts with a 0.
pub proof fn law_decimal_grows_by_digits(n: nat, d: nat)
    requires
        d < 10,
    ensures
        text::decimal(d) == seq![(48 + d) as char],
        n > 0 ==> text::decimal(10 * n + d) == text::decimal(n).push((48 + d) as char),
        text::decimal(n).len() > 0,
        n > 0 ==> text::decimal(n)[0] != '0',
        forall|i: int|
            0 <= i < text::decimal(n).len() ==> 48 <= #[trigger] text::decimal(n)[i] as u32 <= 57,
{
    text::lemma_decimal(n);
    lemma_first_digit(n);
    assert((10 * n + d) / 10 == n && (10 * n + d) % 10 == d);
    assert forall|i: int| 0 <= i < text::decimal(n).len() implies 48 <= #[trigger] text::decimal(
        n,
    )[i] as u32 <= 57 by {
        assert(text::is_digit(text::decimal(n)[i]));
    }
}

/// The first digit of a number that is not 0 is no 0.
proof fn lemma_first_digit(n: nat)
    ensures
        text::decimal(n).len() > 0,
        n > 0 ==> text::decimal(n)[0] as u32 > 48,
    decreases n,
{
    if n >= 10 {
        lemma_first_digit(n / 10);
    }
}

/// Zeros are put in front of a number up to four digits and no further: what follows them is the
/// number's decimal digits.
pub proof fn law_four_digits_are_filled_up(n: nat)
    ensures
        text::decimal4(n).len() == if text::decimal(n).len() < 4 {
            4
        } else {
            text::decimal(n).len()
        },
        text::decimal4(n).skip(text::decimal4(n).len() - text::decimal(n).len()) == text::decimal(n),
        forall|i: int|
            0 <= i < text::decimal4(n).len() - text::decimal(n).len() ==> #[trigger] text::decimal4(
                n,
            )[i] == '0',
{
    let d = text::decimal(n);
    let s = text::decimal4(n);
    assert(s.skip(s.len() - d.len()) =~= d);
}

/// Numbers are read digit by digit. One digit stands for itself; a digit behind a number makes it ten
/// times as large and adds the digit, as long as 64 bits hold it, and no number if they do not; and a
/// plus sign in front changes nothing.
pub proof fn law_number_is_read_digit_by_digit(s: Seq<char>, n: u64, d: u64)
    requires
        d < 10,
    ensures
        text::parsed_u64(seq![(48 + d) as char]) == Some(d),
        text::parsed_u64(s) == Some(n) && 10 * n + d <= u64::MAX ==> text::parsed_u64(
            s.push((48 + d) as char),
        ) == Some((10 * n + d) as u64),
        text::parsed_u64(s) == Some(n) && 10 * n + d > u64::MAX ==> text::parsed_u64(
            s.push((48 + d) as char),
        ) is None,
        s.len() > 0 && s[0] != '+' ==> text::parsed_u64(seq!['+'] + s) == text::parsed_u64(s),
{
    let c = (48 + d) as char;
    let one = seq![c];
    assert(c as u32 == 48 + d);
    assert(one.drop_last() =~= Seq::<char>::empty());
    assert(text::digits_value(one.drop_last()) == 0);
    assert(text::digit_value(c) == d);
    assert(text::digits_value(one) == d);
    assert(text::all_digits(one));
    assert('+' as u32 == 43);
    assert(text::without_plus(one) == one);
    if text::parsed_u64(s) == Some(n) {
        let t = s.push(c);
        let a = text::without_plus(s);
        let b = text::without_plus(t);
        assert(b =~= a.push(c));
        assert(b.drop_last() =~= a);
        assert(text::digits_value(b) == 10 * n + d);
        assert forall|i: int| 0 <= i < b.len() implies text::is_digit(#[trigger] b[i]) by {
            if i < a.len() {
                assert(text::is_digit(a[i]));
            }
        }
    }
    let plus = seq!['+'] + s;
    assert(plus.subrange(1, plus.len() as int) =~= s);
}

/// A text with anything but decimal digits behind an optional plus sign stands for no number, and
/// neither does one without digits.
pub proof fn law_other_text_is_no_number(s: Seq<char>, i: int)
    requires
        0 <= i < s.len(),
        !(48 <= s[i] as u32 <= 57),
        s[i] != '+' || i > 0,
    ensures
        text::parsed_u64(s) is None,
        text::parsed_u64(Seq::empty()) is None,
        text::parsed_u64(seq!['+']) is None,
{
    let d = text::without_plus(s);
    if s[0] == '+' {
        assert(d[i - 1] == s[i]);
    } else {
        assert(d[i] == s[i]);
    }
    assert(!text::all_digits(d));
    assert(seq!['+'].subrange(1, 1).len() == 0);
}

/// Trimming takes the separators at both ends and nothing else: what is left begins and ends with
/// another character, or is empty, and stands between separators alone.
pub proof fn law_trimming_takes_the_ends(s: Seq<char>) -> (bounds: (int, int))
    ensures
        0 <= bounds.0 <= bounds.1 <= s.len(),
        text::trimmed(s) == s.subrange(bounds.0, bounds.1),
        forall|i: int|
            0 <= i < bounds.0 || bounds.1 <= i < s.len() ==> text::is_space(#[trigger] s[i]),
        bounds.0 < bounds.1 ==> !text::is_space(s[bounds.0]) && !text::is_space(s[bounds.1 - 1]),
    decreases s.len(),
{
    if s.len() == 0 {
        assert(s.subrange(0, 0) =~= s);
        (0, 0)
    } else if text::is_space(s[0]) {
        let rest = s.drop_first();
        let (a, b) = law_trimming_takes_the_ends(rest);
        assert(s.subrange(a + 1, b + 1) =~= rest.subrange(a, b));
        assert forall|i: int| 0 <= i < a + 1 || b + 1 <= i < s.len() implies text::is_space(
            #[trigger] s[i],
        ) by {
            if i > 0 {
                assert(s[i] == rest[i - 1]);
            }
        }
        (a + 1, b + 1)
    } else if text::is_space(s.last()) {
        let rest = s.drop_last();
        let (a, b) = law_trimming_takes_the_ends(rest);
        assert(s.subrange(a, b) =~= rest.subrange(a, b));
        assert forall|i: int| 0 <= i < a || b <= i < s.len() implies text::is_space(
            #[trigger] s[i],
        ) by {
            if i < s.len() - 1 {
                assert(s[i] == rest[i]);
            }
        }
        (a, b)
    } else {
        assert(s.subrange(0, s.len() as int) =~= s);
        (0, s.len() as int)
    }
}

/// Positions of words count from the reading position.
proof fn lemma_word_shift(s: Seq<char>, k: int, i: int)
    requires
        0 <= k,
        0 <= i,
        k + i <= s.len(),
    ensures
        text::word_start(s, k + i) == k + text::word_start(s.skip(k), i),
        text::word_end(s, k + i) == k + text::word_end(s.skip(k), i),
        text::comma_at(s, k + i) == k + text::comma_at(s.skip(k), i),
        i <= text::word_start(s.skip(k), i) <= s.len() - k,
        i <= text::word_end(s.skip(k), i) <= s.len() - k,
        i <= text::comma_at(s.skip(k), i) <= s.len() - k,
    decreases s.len() - k - i,
{
    if k + i < s.len() {
        assert(s.skip(k)[i] == s[k + i]);
        lemma_word_shift(s, k, i + 1);
    }
}

/// The words from a position on are those of the text from there on.
proof fn lemma_words_shift(s: Seq<char>, k: int, i: int)
    requires
        0 <= k,
        0 <= i,
        k + i <= s.len(),
    ensures
        text::words_from(s, k + i) == text::words_from(s.skip(k), i),
    decreases s.len() - k - i,
{
    let t = s.skip(k);
    lemma_word_shift(s, k, i);
    let a = text::word_start(t, i);
    lemma_word_shift(s, k, a);
    let b = text::word_end(t, a);
    if a < b {
        assert(s.subrange(k + a, k + b) =~= t.subrange(a, b));
        lemma_words_shift(s, k, b);
    }
}

/// The list from a position on is that of the text from there on.
proof fn lemma_list_shift(s: Seq<char>, k: int, i: int)
    requires
        0 <= k,
        0 <= i,
        k + i <= s.len(),
    ensures
        text::list_from(s, k + i) == text::list_from(s.skip(k), i),
    decreases s.len() - k - i,
{
    let t = s.skip(k);
    lemma_word_shift(s, k, i);
    let b = text::comma_at(t, i);
    if b < t.len() {
        assert(s.subrange(k + i, k + b) =~= t.subrange(i, b));
        lemma_list_shift(s, k, b + 1);
    } else {
        assert(s.subrange(k + i, s.len() as int) =~= t.subrange(i, t.len() as int));
    }
}

/// A run of characters that are no commas ends at the comma behind it, or at the end.
proof fn lemma_comma_is_at(s: Seq<char>, i: int, j: int)
    requires
        0 <= i <= j <= s.len(),
        forall|k: int| i <= k < j ==> #[trigger] s[k] != ',',
        j < s.len() ==> s[j] == ',',
    ensures
        text::comma_at(s, i) == j,
    decreases j - i,
{
    if i < j {
        lemma_comma_is_at(s, i + 1, j);
    }
}

/// A list is split at each of its commas: what stands before the first one, trimmed, is the first
/// entry, and what stands behind it is the rest of the list. A text without commas is a list of one.
pub proof fn law_list_is_split_at_commas(first: Seq<char>, rest: Seq<char>)
    requires
        forall|i: int| 0 <= i < first.len() ==> #[trigger] first[i] != ',',
    ensures
        text::list_from(first, 0) == seq![text::trimmed(first)],
        text::list_from(first + seq![','] + rest, 0) == seq![text::trimmed(first)]
            + text::list_from(rest, 0),
{
    let s = first + seq![','] + rest;
    let n = first.len() as int;
    lemma_comma_is_at(first, 0, n);
    assert(first.subrange(0, n) =~= first);
    assert forall|k: int| 0 <= k < n implies #[trigger] s[k] != ',' by {
        assert(s[k] == first[k]);
    }
    assert(s[n] == ',');
    lemma_comma_is_at(s, 0, n);
    assert(s.subrange(0, n) =~= first);
    lemma_list_shift(s, n + 1, 0);
    assert(s.skip(n + 1) =~= rest);
}

/// Words are what stands between separators: a word in front of a separator is the first word, the
/// words behind it are those of the rest, and separators in front of all make no word.
pub proof fn law_words_stand_between_separators(word: Seq<char>, c: char, rest: Seq<char>)
    requires
        word.len() > 0,
        forall|i: int| 0 <= i < word.len() ==> !text::is_space(#[trigger] word[i]),
        text::is_space(c),
    ensures
        text::words_from(word + seq![c] + rest, 0) == seq![word] + text::words_from(rest, 0),
        text::words_from(seq![c] + rest, 0) == text::words_from(rest, 0),
        text::words_from(Seq::empty(), 0).len() == 0,
{
    let s = word + seq![c] + rest;
    let n = word.len() as int;
    assert forall|k: int| 0 <= k < n implies !text::is_space(#[trigger] s[k]) by {
        assert(s[k] == word[k]);
    }
    assert(s[n] == c);
    text::lemma_word_ends_at(s, 0, n);
    assert(!text::is_space(s[0]));
    assert(text::word_start(s, 0) == 0);
    assert(s.subrange(0, n) =~= word);
    lemma_separator_is_passed(s, n);
    lemma_words_shift(s, n + 1, 0);
    assert(s.skip(n + 1) =~= rest);
    let t = seq![c] + rest;
    assert(t[0] == c);
    lemma_separator_is_passed(t, 0);
    lemma_words_shift(t, 1, 0);
    assert(t.skip(1) =~= rest);
}

/// A separator makes no word.
proof fn lemma_separator_is_passed(s: Seq<char>, i: int)
    requires
        0 <= i < s.len(),
        text::is_space(s[i]),
    ensures
        text::words_from(s, i) == text::words_from(s, i + 1),
{
    lemma_word_shift(s, 0, i + 1);
    assert(s.skip(0) =~= s);
    assert(text::word_start(s, i) == text::word_start(s, i + 1));
    let a = text::word_start(s, i);
    lemma_word_shift(s, 0, a);
}

/// In ASCII, a blank, a tab and the ends of lines separate words, and nothing else does. Beyond ASCII
/// the next line, the blanks of any width that end a line or keep it together, and the separators of
/// lines and paragraphs do.
pub proof fn law_blanks_separate_words(c: char)
    ensures
        c as u32 <= 127 ==> (text::is_space(c) <==> c as u32 == 32 || 9 <= c as u32 <= 13),
        c as u32 > 127 ==> (text::is_space(c) <==> seq![
            0x85u32, 0xa0, 0x1680, 0x2000, 0x2001, 0x2002, 0x2003, 0x2004, 0x2005, 0x2006, 0x2007,
            0x2008, 0x2009, 0x200a, 0x2028, 0x2029, 0x202f, 0x205f, 0x3000,
        ].contains(c as u32)),
{
    let u = c as u32;
    let wide = seq![
        0x85u32, 0xa0, 0x1680, 0x2000, 0x2001, 0x2002, 0x2003, 0x2004, 0x2005, 0x2006, 0x2007,
        0x2008, 0x2009, 0x200a, 0x2028, 0x2029, 0x202f, 0x205f, 0x3000,
    ];
    assert(wide.len() == 19);
    assert(wide[0] == 0x85 && wide[1] == 0xa0 && wide[2] == 0x1680);
    assert(wide[14] == 0x2028 && wide[15] == 0x2029 && wide[16] == 0x202f && wide[17] == 0x205f
        && wide[18] == 0x3000);
    assert forall|i: int| 3 <= i < 14 implies #[trigger] wide[i] == 0x2000 + i - 3 by {}
    if 0x2000 <= u <= 0x200a {
        assert(wide[u - 0x2000 + 3] == u);
    }
}

/// `head` stands at the beginning of `whole`, and there is nothing behind it or `stop`.
pub open spec fn stands(whole: Seq<char>, head: Seq<char>, stop: char) -> bool {
    &&& head.is_prefix_of(whole)
    &&& head.len() == whole.len() || whole[head.len() as int] == stop
}

/// In `whole` stands `label` and right behind it the number `n` in decimal, which ends there.
pub open spec fn says(whole: Seq<char>, label: Seq<char>, n: nat, stop: char) -> bool {
    exists|front: Seq<char>| #[trigger] stands(whole, front + label + text::decimal(n), stop)
}

/// A text that goes on with a label and a number.
pub proof fn lemma_goes_on(whole: Seq<char>, head: Seq<char>, label: Seq<char>, n: nat, stop: char)
    requires
        (head + label + text::decimal(n)).is_prefix_of(whole),
        label.len() > 0,
        label[0] == stop,
    ensures
        stands(whole, head, stop),
{
    let longer = head + label + text::decimal(n);
    assert(longer.is_prefix_of(whole));
    assert(whole.subrange(0, head.len() as int) =~= longer.subrange(0, head.len() as int));
    assert(head =~= whole.subrange(0, head.len() as int));
    assert(longer[head.len() as int] == label[0]);
    assert(whole[head.len() as int] == longer[head.len() as int]);
}

/// A longer label says what its end says.
pub proof fn lemma_label_end(
    whole: Seq<char>,
    front: Seq<char>,
    label: Seq<char>,
    end: Seq<char>,
    n: nat,
    stop: char,
)
    requires
        stands(whole, front + label + text::decimal(n), stop),
        end.len() <= label.len(),
        label.skip(label.len() - end.len()) == end,
    ensures
        says(whole, end, n, stop),
{
    let more = front + label.take(label.len() - end.len());
    assert(more + end + text::decimal(n) =~= front + label + text::decimal(n));
    assert(stands(whole, more + end + text::decimal(n), stop));
}

} // verus!
