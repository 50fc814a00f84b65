//! Decimal numbers and words in text.
use vstd::prelude::*;

verus! {

/// `String::push` of the standard library: it puts one character at the end.
pub assume_specification[ String::push ](s: &mut String, c: char)
    ensures
        final(s)@ == old(s)@.push(c),
;

/// The character of a decimal digit.
pub open spec fn digit_char(d: nat) -> char {
    (48 + d) as char
}

/// `c` is a decimal digit.
pub open spec fn is_digit(c: char) -> bool {
    48 <= c as u32 <= 57
}

/// The number that a decimal digit stands for.
pub open spec fn digit_value(c: char) -> nat {
    (c as u32 - 48) as nat
}

/// `n` in decimal, without leading zeros.
pub open spec fn decimal(n: nat) -> Seq<char>
    decreases n,
{
    if n < 10 {
        seq![digit_char(n)]
    } else {
        decimal(n / 10).push(digit_char(n % 10))
    }
}

/// `n` in decimal, with zeros put in front up to four digits.
pub open spec fn decimal4(n: nat) -> Seq<char> {
    let d = decimal(n);
    if d.len() < 4 {
        Seq::new((4 - d.len()) as nat, |i: int| '0') + d
    } else {
        d
    }
}

/// The number that a run of decimal digits stands for.
pub open spec fn digits_value(s: Seq<char>) -> nat
    decreases s.len(),
{
    if s.len() == 0 {
        0
    } else {
        digits_value(s.drop_last()) * 10 + digit_value(s.last())
    }
}

/// Every character of `s` is a decimal digit.
pub open spec fn all_digits(s: Seq<char>) -> bool {
    forall|i: int| 0 <= i < s.len() ==> is_digit(#[trigger] s[i])
}

/// `s` without a plus sign in front.
pub open spec fn without_plus(s: Seq<char>) -> Seq<char> {
    if s.len() > 0 && s[0] == '+' {
        s.subrange(1, s.len() as int)
    } else {
        s
    }
}

/// The number that `s` stands for: at least one decimal digit, with or without a plus sign in
/// front, and no more than 64 bits.
pub open spec fn parsed_u64(s: Seq<char>) -> Option<u64> {
    let d = without_plus(s);
    if d.len() > 0 && all_digits(d) && digits_value(d) <= u64::MAX {
        Some(digits_value(d) as u64)
    } else {
        None
    }
}

/// The characters that separate words: those with the Unicode property White_Space.
pub open spec fn is_space(c: char) -> bool {
    let u = c as u32;
    ||| 0x09 <= u <= 0x0d
    ||| u == 0x20
    ||| u == 0x85
    ||| u == 0xa0
    ||| u == 0x1680
    ||| 0x2000 <= u <= 0x200a
    ||| u == 0x2028
    ||| u == 0x2029
    ||| u == 0x202f
    ||| u == 0x205f
    ||| u == 0x3000
}

/// Zeros in front do not change the number.
proof fn lemma_leading_zeros(k: nat, s: Seq<char>)
    requires
        all_digits(s),
    ensures
        all_digits(Seq::new(k, |i: int| '0') + s),
        digits_value(Seq::new(k, |i: int| '0') + s) == digits_value(s),
    decreases k + s.len(),
{
    let z = Seq::new(k, |i: int| '0');
    let t = z + s;
    if s.len() > 0 {
        lemma_leading_zeros(k, s.drop_last());
        assert(t.drop_last() =~= z + s.drop_last());
    } else if k > 0 {
        lemma_leading_zeros((k - 1) as nat, s);
        assert(t.drop_last() =~= Seq::new((k - 1) as nat, |i: int| '0') + s);
    } else {
        assert(t =~= s);
    }
}

/// A number's decimal digits stand for the number.
pub proof fn lemma_decimal(n: nat)
    ensures
        decimal(n).len() > 0,
        all_digits(decimal(n)),
        digits_value(decimal(n)) == n,
    decreases n,
{
    let s = decimal(n);
    if n >= 10 {
        lemma_decimal(n / 10);
        assert(s.drop_last() =~= decimal(n / 10));
        assert forall|i: int| 0 <= i < s.len() implies is_digit(#[trigger] s[i]) by {
            if i < s.len() - 1 {
                assert(s[i] == decimal(n / 10)[i]);
            }
        }
    } else {
        assert(s.drop_last() =~= Seq::<char>::empty());
        assert(digits_value(s.drop_last()) == 0);
    }
}

/// Reading a number that was written with at least four digits gives the number back.
pub proof fn law_decimal4_reads_back(n: u64)
    ensures
        parsed_u64(decimal4(n as nat)) == Some(n),
{
    lemma_decimal(n as nat);
    let d = decimal(n as nat);
    let s = decimal4(n as nat);
    if d.len() < 4 {
        lemma_leading_zeros((4 - d.len()) as nat, d);
    }
    assert(is_digit(s[0]));
    assert(without_plus(s) == s);
}

/// Reading a number that was written in decimal gives the number back.
pub proof fn law_decimal_reads_back(n: u64)
    ensures
        parsed_u64(decimal(n as nat)) == Some(n),
{
    lemma_decimal(n as nat);
    assert(is_digit(decimal(n as nat)[0]));
}

/// Appends `n` in decimal.
pub fn push_decimal(out: &mut String, n: u64)
    ensures
        final(out)@ == old(out)@ + decimal(n as nat),
    decreases n,
{
    let ghost before = out@;
    if n >= 10 {
        push_decimal(out, n / 10);
    }
    let d: u8 = (n % 10) as u8;
    out.push((48 + d) as char);
    assert(out@ =~= before + decimal(n as nat));
}

/// The number of decimal digits of `n`, counted up to four.
fn digits_up_to_four(n: u64) -> (r: usize)
    ensures
        r == if decimal(n as nat).len() < 4 { decimal(n as nat).len() } else { 4 },
{
    proof {
        reveal_with_fuel(decimal, 5);
    }
    if n < 10 {
        1
    } else if n < 100 {
        2
    } else if n < 1000 {
        3
    } else {
        4
    }
}

/// Appends `n` in decimal, with zeros in front up to four digits.
pub fn push_decimal4(out: &mut String, n: u64)
    ensures
        final(out)@ == old(out)@ + decimal4(n as nat),
{
    let ghost before = out@;
    let len: usize = digits_up_to_four(n);
    let mut i: usize = len;
    while i < 4
        invariant
            len <= i <= 4,
            out@ == before + Seq::new((i - len) as nat, |j: int| '0'),
        decreases 4 - i,
    {
        out.push('0');
        i = i + 1;
        assert(out@ =~= before + Seq::new((i - len) as nat, |j: int| '0'));
    }
    push_decimal(out, n);
    assert(out@ =~= before + decimal4(n as nat));
}

/// The characters of `s`.
pub fn chars_of(s: &str) -> (r: Vec<char>)
    ensures
        r@ == s@,
{
    let mut v: Vec<char> = Vec::new();
    for c in it: s.chars()
        invariant
            v@ == it.seq().take(it.index() as int),
            it.seq() == s@,
    {
        v.push(c);
        assert(v@ =~= it.seq().take(it.index() + 1));
    }
    assert(v@ =~= s@);
    v
}

/// The text made of `chars[from..to]`.
pub fn text_of(chars: &Vec<char>, from: usize, to: usize) -> (r: String)
    requires
        from <= to <= chars@.len(),
    ensures
        r@ == chars@.subrange(from as int, to as int),
{
    let mut s: String = String::new();
    let mut i: usize = from;
    while i < to
        invariant
            from <= i <= to <= chars@.len(),
            s@ == chars@.subrange(from as int, i as int),
        decreases to - i,
    {
        s.push(chars[i]);
        i = i + 1;
        assert(s@ =~= chars@.subrange(from as int, i as int));
    }
    s
}

/// `c` is a decimal digit.
pub fn char_is_digit(c: char) -> (r: bool)
    ensures
        r == is_digit(c),
{
    let u: u32 = c as u32;
    48 <= u && u <= 57
}

/// `c` separates words.
pub fn char_is_space(c: char) -> (r: bool)
    ensures
        r == is_space(c),
{
    let u: u32 = c as u32;
    (0x09 <= u && u <= 0x0d) || u == 0x20 || u == 0x85 || u == 0xa0 || u == 0x1680 || (0x2000 <= u
        && u <= 0x200a) || u == 0x2028 || u == 0x2029 || u == 0x202f || u == 0x205f || u == 0x3000
}

/// More digits behind a run of digits do not make the number smaller.
proof fn lemma_prefix_value(s: Seq<char>, k: int)
    requires
        0 <= k <= s.len(),
    ensures
        digits_value(s.take(k)) <= digits_value(s),
    decreases s.len(),
{
    if k < s.len() {
        lemma_prefix_value(s.drop_last(), k);
        assert(s.drop_last().take(k) =~= s.take(k));
    } else {
        assert(s.take(k) =~= s);
    }
}

/// The number that `chars[from..to]` stands for.
pub fn parse_u64(chars: &Vec<char>, from: usize, to: usize) -> (r: Option<u64>)
    requires
        from <= to <= chars@.len(),
    ensures
        r == parsed_u64(chars@.subrange(from as int, to as int)),
{
    let ghost text = chars@.subrange(from as int, to as int);
    let mut start: usize = from;
    if from < to && chars[from] == '+' {
        start = from + 1;
    }
    let ghost d = without_plus(text);
    assert(d =~= chars@.subrange(start as int, to as int));
    if start == to {
        return None;
    }
    let mut value: u64 = 0;
    let mut i: usize = start;
    while i < to
        invariant
            start <= i <= to <= chars@.len(),
            d == chars@.subrange(start as int, to as int),
            d.len() == to - start,
            text == chars@.subrange(from as int, to as int),
            d == without_plus(text),
            all_digits(d.take(i - start)),
            value == digits_value(d.take(i - start)),
        decreases to - i,
    {
        let c: char = chars[i];
        proof {
            assert(d[i - start] == c);
            assert(d.take(i + 1 - start).drop_last() =~= d.take(i - start));
            assert(d.take(i + 1 - start).last() == c);
        }
        if !char_is_digit(c) {
            return None;
        }
        let next: u128 = value as u128 * 10 + (c as u32 - 48) as u128;
        if next > u64::MAX as u128 {
            proof {
                lemma_prefix_value(d, i + 1 - start);
            }
            return None;
        }
        value = next as u64;
        proof {
            let t = d.take(i + 1 - start);
            assert forall|j: int| 0 <= j < t.len() implies is_digit(#[trigger] t[j]) by {
                if j < i - start {
                    assert(t[j] == d.take(i - start)[j]);
                }
            }
        }
        i = i + 1;
    }
    assert(d.take(to - start) =~= d);
    Some(value)
}

/// The first position from `i` on where no word separator stands.
pub open spec fn word_start(s: Seq<char>, i: int) -> int
    decreases s.len() - i,
{
    if 0 <= i < s.len() && is_space(s[i]) {
        word_start(s, i + 1)
    } else {
        i
    }
}

/// The first position from `i` on where a word separator stands, or the end.
pub open spec fn word_end(s: Seq<char>, i: int) -> int
    decreases s.len() - i,
{
    if 0 <= i < s.len() && !is_space(s[i]) {
        word_end(s, i + 1)
    } else {
        i
    }
}

/// A word ends behind its start and inside the text.
proof fn lemma_word_bounds(s: Seq<char>, i: int)
    requires
        0 <= i <= s.len(),
    ensures
        i <= word_start(s, i) <= s.len(),
        word_start(s, i) < s.len() ==> !is_space(s[word_start(s, i)]),
        i <= word_end(s, i) <= s.len(),
        i < s.len() && !is_space(s[i]) ==> i < word_end(s, i),
    decreases s.len() - i,
{
    if i < s.len() {
        lemma_word_bounds(s, i + 1);
    }
}

/// The words of `s` from position `i` on: what stands between runs of separators.
pub open spec fn words_from(s: Seq<char>, i: int) -> Seq<Seq<char>>
    decreases s.len() - i,
{
    if !(0 <= i <= s.len()) {
        Seq::empty()
    } else {
        let a = word_start(s, i);
        let b = word_end(s, a);
        if i <= a < b <= s.len() {
            seq![s.subrange(a, b)] + words_from(s, b)
        } else {
            Seq::empty()
        }
    }
}

/// A word that starts at `i` and is followed by a separator at `j` ends there.
pub proof fn lemma_word_ends_at(s: Seq<char>, i: int, j: int)
    requires
        0 <= i <= j < s.len(),
        forall|k: int| i <= k < j ==> !is_space(#[trigger] s[k]),
        is_space(s[j]),
    ensures
        word_end(s, i) == j,
    decreases j - i,
{
    if i < j {
        assert(!is_space(s[i]));
        lemma_word_ends_at(s, i + 1, j);
    }
}

/// The bounds of the first word of `chars` from position `i` on.
fn next_word(chars: &Vec<char>, i: usize) -> (r: (usize, usize))
    requires
        i <= chars@.len(),
    ensures
        r.0 == word_start(chars@, i as int),
        r.1 == word_end(chars@, r.0 as int),
        i <= r.0 <= r.1 <= chars@.len(),
{
    proof {
        lemma_word_bounds(chars@, i as int);
    }
    let mut a: usize = i;
    while a < chars.len() && char_is_space(chars[a])
        invariant
            i <= a <= chars@.len(),
            word_start(chars@, a as int) == word_start(chars@, i as int),
        decreases chars@.len() - a,
    {
        a = a + 1;
    }
    proof {
        lemma_word_bounds(chars@, a as int);
    }
    let mut b: usize = a;
    while b < chars.len() && !char_is_space(chars[b])
        invariant
            a <= b <= chars@.len(),
            word_end(chars@, b as int) == word_end(chars@, a as int),
        decreases chars@.len() - b,
    {
        b = b + 1;
    }
    (a, b)
}

/// The bounds of the second word of `chars`, if it has two.
pub fn second_word(chars: &Vec<char>) -> (r: Option<(usize, usize)>)
    ensures
        r is Some <==> words_from(chars@, 0).len() >= 2,
        r matches Some((a, b)) ==> {
            &&& a <= b <= chars@.len()
            &&& chars@.subrange(a as int, b as int) == words_from(chars@, 0)[1]
        },
{
    let (a, b) = next_word(chars, 0);
    proof {
        lemma_word_bounds(chars@, 0);
        lemma_word_bounds(chars@, a as int);
    }
    if a == b {
        return None;
    }
    let (c, d) = next_word(chars, b);
    proof {
        lemma_word_bounds(chars@, b as int);
        lemma_word_bounds(chars@, c as int);
        assert(words_from(chars@, 0) == seq![chars@.subrange(a as int, b as int)] + words_from(
            chars@,
            b as int,
        ));
    }
    if c == d {
        return None;
    }
    proof {
        assert(words_from(chars@, b as int) == seq![chars@.subrange(c as int, d as int)]
            + words_from(chars@, d as int));
        assert(words_from(chars@, 0)[1] == words_from(chars@, b as int)[0]);
    }
    Some((c, d))
}

/// `s` without the separators at its two ends.
pub open spec fn trimmed(s: Seq<char>) -> Seq<char>
    decreases s.len(),
{
    if s.len() == 0 {
        s
    } else if is_space(s[0]) {
        trimmed(s.drop_first())
    } else if is_space(s.last()) {
        trimmed(s.drop_last())
    } else {
        s
    }
}

/// The first comma from position `i` on, or the end.
pub open spec fn comma_at(s: Seq<char>, i: int) -> int
    decreases s.len() - i,
{
    if 0 <= i < s.len() && s[i] != ',' {
        comma_at(s, i + 1)
    } else {
        i
    }
}

/// The first comma lies inside the text or at its end.
proof fn lemma_comma_bounds(s: Seq<char>, i: int)
    requires
        0 <= i <= s.len(),
    ensures
        i <= comma_at(s, i) <= s.len(),
    decreases s.len() - i,
{
    if i < s.len() {
        lemma_comma_bounds(s, i + 1);
    }
}

/// What stands between the commas of `s` from position `i` on, each trimmed.
pub open spec fn list_from(s: Seq<char>, i: int) -> Seq<Seq<char>>
    decreases s.len() - i,
{
    if !(0 <= i <= s.len()) {
        Seq::empty()
    } else {
        let b = comma_at(s, i);
        if i <= b < s.len() {
            seq![trimmed(s.subrange(i, b))] + list_from(s, b + 1)
        } else {
            seq![trimmed(s.subrange(i, s.len() as int))]
        }
    }
}

/// The texts of a list of strings.
pub open spec fn texts(v: Seq<String>) -> Seq<Seq<char>> {
    Seq::new(v.len(), |i: int| v[i]@)
}

/// The text of `chars[from..to]` without the separators at its two ends.
fn trim_text(chars: &Vec<char>, from: usize, to: usize) -> (r: String)
    requires
        from <= to <= chars@.len(),
    ensures
        r@ == trimmed(chars@.subrange(from as int, to as int)),
{
    let mut a: usize = from;
    while a < to && char_is_space(chars[a])
        invariant
            from <= a <= to <= chars@.len(),
            trimmed(chars@.subrange(a as int, to as int)) == trimmed(
                chars@.subrange(from as int, to as int),
            ),
        decreases to - a,
    {
        assert(chars@.subrange(a as int, to as int).drop_first() =~= chars@.subrange(
            a + 1,
            to as int,
        ));
        a = a + 1;
    }
    let mut b: usize = to;
    while a < b && char_is_space(chars[b - 1])
        invariant
            from <= a <= b <= to <= chars@.len(),
            a < to ==> !is_space(chars@[a as int]),
            trimmed(chars@.subrange(a as int, b as int)) == trimmed(
                chars@.subrange(from as int, to as int),
            ),
        decreases b - a,
    {
        assert(chars@.subrange(a as int, b as int).drop_last() =~= chars@.subrange(
            a as int,
            b - 1,
        ));
        b = b - 1;
    }
    text_of(chars, a, b)
}

/// What stands between the commas of `s`, each trimmed.
pub fn split_list(s: &str) -> (r: Vec<String>)
    ensures
        texts(r@) == list_from(s@, 0),
        r@.len() > 0,
{
    let chars: Vec<char> = chars_of(s);
    let mut out: Vec<String> = Vec::new();
    let mut i: usize = 0;
    assert(texts(out@) + list_from(s@, 0) =~= list_from(s@, 0));
    loop
        invariant
            chars@ == s@,
            i <= chars@.len(),
            texts(out@) + list_from(s@, i as int) == list_from(s@, 0),
        decreases chars@.len() - i,
    {
        proof {
            lemma_comma_bounds(chars@, i as int);
        }
        let mut b: usize = i;
        while b < chars.len() && chars[b] != ','
            invariant
                i <= b <= chars@.len(),
                comma_at(chars@, b as int) == comma_at(chars@, i as int),
            decreases chars@.len() - b,
        {
            b = b + 1;
        }
        let item: String = trim_text(&chars, i, b);
        let ghost before = texts(out@);
        let ghost text = item@;
        out.push(item);
        assert(texts(out@) =~= before.push(text));
        if b == chars.len() {
            assert(before + seq![text] =~= texts(out@));
            return out;
        }
        assert(before.push(text) + list_from(s@, b + 1) =~= before + (seq![text] + list_from(
            s@,
            b + 1,
        )));
        i = b + 1;
    }
}

} // verus!
