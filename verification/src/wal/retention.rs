//! Which segment files there are, which go, and what the ledger says of them.
use crate::text;
use crate::text_laws;
use crate::wal::rotate;
use vstd::prelude::*;

verus! {

/// The name of a segment is `segment_`, its number with at least four digits, and `.wal`.
pub proof fn law_segment_name_has_its_number(no: u64)
    ensures
        ({
            let name = rotate::segment_name(no);
            let digits = name.subrange(8, name.len() - 4);
            &&& name.len() >= 16
            &&& name.take(8) == "segment_"@
            &&& name.skip(name.len() - 4) == ".wal"@
            &&& forall|i: int| 0 <= i < digits.len() ==> 48 <= #[trigger] digits[i] as u32 <= 57
            &&& text::digits_value(digits) == no
            &&& no >= 1000 ==> digits == text::decimal(no as nat)
            &&& no < 1000 ==> digits.len() == 4
        }),
{
    reveal_strlit("segment_");
    reveal_strlit(".wal");
    let name = rotate::segment_name(no);
    let d = text::decimal4(no as nat);
    assert(name.take(8) =~= "segment_"@);
    assert(name.skip(name.len() - 4) =~= ".wal"@);
    assert(name.subrange(8, name.len() - 4) =~= d);
    text_laws::law_four_digits_are_filled_up(no as nat);
    text::lemma_decimal(no as nat);
    text::law_decimal4_reads_back(no);
    assert(text::decimal4(no as nat).skip(0) =~= text::decimal4(no as nat));
    assert forall|i: int| 0 <= i < d.len() implies 48 <= #[trigger] d[i] as u32 <= 57 by {
        let z = d.len() - text::decimal(no as nat).len();
        if i >= z {
            assert(d.skip(z)[i - z] == d[i]);
            assert(text::is_digit(text::decimal(no as nat)[i - z]));
        } else {
            assert(d[i] == '0');
        }
    }
    assert('0' as u32 == 48);
    assert('+' as u32 == 43);
    assert(d[0] != '+');
    assert(text::without_plus(d) == d);
    lemma_digits(no as nat);
}

/// How many digits a number has.
proof fn lemma_digits(n: nat)
    ensures
        n < 1000 <==> text::decimal(n).len() < 4,
{
    reveal_with_fuel(text::decimal, 5);
}

/// The number of a segment is read from any name of that form, whatever the number of its digits, and
/// from no other name.
pub proof fn law_segment_number_is_in_its_name(name: Seq<char>, no: Seq<char>)
    ensures
        rotate::segment_no_of("segment_"@ + no + ".wal"@) == text::parsed_u64(no),
        rotate::segment_no_of(name) is Some ==> name.len() > 12 && name.take(8) == "segment_"@
            && name.skip(name.len() - 4) == ".wal"@ && rotate::segment_no_of(name)
            == text::parsed_u64(name.subrange(8, name.len() - 4)),
{
    reveal_strlit("segment_");
    reveal_strlit(".wal");
    let s = "segment_"@ + no + ".wal"@;
    assert(s.take(8) =~= "segment_"@);
    assert(s.skip(8) =~= no + ".wal"@);
    assert(s.skip(8).skip(s.skip(8).len() - 4) =~= ".wal"@);
    assert(s.subrange(8, s.len() - 4) =~= no);
    if rotate::segment_no_of(name) is Some {
        assert(name.skip(8).skip(name.skip(8).len() - 4) =~= name.skip(name.len() - 4));
        assert(name.subrange(8, name.len() - 4).len() > 0);
    }
}

/// A path in a directory is the directory, one slash, and the name.
pub proof fn law_path_has_one_slash(dir: Seq<char>, name: Seq<char>)
    ensures
        dir.len() > 0 && dir.last() != '/' ==> rotate::joined(dir, name) == dir + seq!['/'] + name,
        rotate::joined(dir + seq!['/'], name) == dir + seq!['/'] + name,
        rotate::joined(Seq::empty(), name) == name,
{
    reveal_strlit("/");
    assert("/"@ =~= seq!['/']);
    assert((dir + seq!['/']).last() == '/');
}

/// The files that go are exactly those of the directory whose names are those of segments with a
/// number in the range, in the order of the names.
pub proof fn law_files_that_go(dir: Seq<char>, names: Seq<String>, from: u64, to: u64)
    ensures
        rotate::paths_between(dir, names, from, to, names.len() as int) == names.filter(
            |s: String|
                rotate::segment_no_of(s@) is Some && from <= rotate::segment_no_of(s@)->0 < to,
        ).map_values(|s: String| rotate::joined(dir, s@)),
{
    lemma_files_that_go(dir, names, from, to, names.len() as int);
    assert(names.take(names.len() as int) =~= names);
}

/// The files that go among the first names.
proof fn lemma_files_that_go(dir: Seq<char>, names: Seq<String>, from: u64, to: u64, k: int)
    requires
        0 <= k <= names.len(),
    ensures
        rotate::paths_between(dir, names, from, to, k) == names.take(k).filter(
            |s: String|
                rotate::segment_no_of(s@) is Some && from <= rotate::segment_no_of(s@)->0 < to,
        ).map_values(|s: String| rotate::joined(dir, s@)),
    decreases k,
{
    let goes = |s: String|
        rotate::segment_no_of(s@) is Some && from <= rotate::segment_no_of(s@)->0 < to;
    let path = |s: String| rotate::joined(dir, s@);
    reveal(Seq::filter);
    if k > 0 {
        lemma_files_that_go(dir, names, from, to, k - 1);
        assert(names.take(k).drop_last() =~= names.take(k - 1));
        let front = names.take(k - 1).filter(goes);
        if goes(names[k - 1]) {
            assert(front.push(names[k - 1]).map_values(path) =~= front.map_values(path).push(
                path(names[k - 1]),
            ));
        }
    }
    assert(rotate::paths_between(dir, names, from, to, k) =~= names.take(k).filter(
        goes,
    ).map_values(path));
}

/// What is counted as left are the segments that do not go, and what is counted as existing are all
/// segments; no other file is counted.
pub proof fn law_segments_are_counted(names: Seq<String>, from: u64, to: u64)
    ensures
        rotate::count_left(names, from, to, names.len() as int) == names.filter(
            |s: String|
                rotate::segment_no_of(s@) is Some && !(from <= rotate::segment_no_of(s@)->0 < to),
        ).len(),
        rotate::count_segments(names, names.len() as int) == names.filter(
            |s: String| rotate::segment_no_of(s@) is Some,
        ).len(),
{
    lemma_segments_are_counted(names, from, to, names.len() as int);
    assert(names.take(names.len() as int) =~= names);
}

/// Counting among the first names.
proof fn lemma_segments_are_counted(names: Seq<String>, from: u64, to: u64, k: int)
    requires
        0 <= k <= names.len(),
    ensures
        rotate::count_left(names, from, to, k) == names.take(k).filter(
            |s: String|
                rotate::segment_no_of(s@) is Some && !(from <= rotate::segment_no_of(s@)->0 < to),
        ).len(),
        rotate::count_segments(names, k) == names.take(k).filter(
            |s: String| rotate::segment_no_of(s@) is Some,
        ).len(),
    decreases k,
{
    reveal(Seq::filter);
    if k > 0 {
        lemma_segments_are_counted(names, from, to, k - 1);
        assert(names.take(k).drop_last() =~= names.take(k - 1));
        assert(names.take(k).last() == names[k - 1]);
    }
}

/// No segment goes that could stay: nothing goes while no more exist than are allowed, and if any went,
/// then without the last number that went more would have been left than are allowed. Those that go
/// are the ones with the smallest numbers.
pub proof fn law_no_segment_goes_needlessly(names: Seq<String>, from: u64, to: u64, max: nat)
    requires
        from <= to,
    ensures
        ({
            let stay = rotate::stay_from(names, from, to, max);
            &&& stay >= to
            &&& names.filter(
                |s: String|
                    rotate::segment_no_of(s@) is Some && !(from <= rotate::segment_no_of(s@)->0
                        < to),
            ).len() <= max ==> stay == to
            &&& stay > to ==> rotate::count_left(
                names,
                from,
                (stay - 1) as u64,
                names.len() as int,
            ) > max
        }),
    decreases u64::MAX - to,
{
    law_segments_are_counted(names, from, to);
    let stay = rotate::stay_from(names, from, to, max);
    if rotate::count_left(names, from, to, names.len() as int) > max && rotate::has_segment_from(
        names,
        to,
    ) && to < u64::MAX {
        law_no_segment_goes_needlessly(names, from, (to + 1) as u64, max);
        if stay == to + 1 {
            assert((stay - 1) as u64 == to);
        }
    }
}

/// The ledger states both cursors, the write cursor first, and nothing else, on one line.
pub proof fn law_ledger_states_both_cursors(write_cursor: u64, read_cursor: u64)
    ensures
        ({
            let line = rotate::ledger_text(write_cursor, read_cursor);
            let words = text::words_from(line, 0);
            &&& words.len() == 2
            &&& text::parsed_u64(words[0]) == Some(write_cursor)
            &&& text::parsed_u64(words[1]) == Some(read_cursor)
            &&& line.last() == '\n'
        }),
{
    reveal_strlit(" ");
    reveal_strlit("\n");
    let w = text::decimal(write_cursor as nat);
    let r = text::decimal(read_cursor as nat);
    let line = rotate::ledger_text(write_cursor, read_cursor);
    lemma_number_is_a_word(write_cursor);
    lemma_number_is_a_word(read_cursor);
    text::law_decimal_reads_back(write_cursor);
    text::law_decimal_reads_back(read_cursor);
    text_laws::law_blanks_separate_words(' ');
    text_laws::law_blanks_separate_words('\n');
    assert(' ' as u32 == 32 && '\n' as u32 == 10);
    let tail = r + seq!['\n'] + Seq::<char>::empty();
    assert(line =~= w + seq![' '] + tail);
    text_laws::law_words_stand_between_separators(w, ' ', tail);
    text_laws::law_words_stand_between_separators(r, '\n', Seq::empty());
    let words = text::words_from(line, 0);
    assert(words =~= seq![w] + (seq![r] + text::words_from(Seq::<char>::empty(), 0)));
    assert(words[0] == w && words[1] == r);
}

/// No separator stands in a number.
proof fn lemma_number_is_a_word(n: u64)
    ensures
        text::decimal(n as nat).len() > 0,
        forall|i: int|
            0 <= i < text::decimal(n as nat).len() ==> !text::is_space(
                #[trigger] text::decimal(n as nat)[i],
            ),
{
    text::lemma_decimal(n as nat);
    assert forall|i: int| 0 <= i < text::decimal(n as nat).len() implies !text::is_space(
        #[trigger] text::decimal(n as nat)[i],
    ) by {
        assert(text::is_digit(text::decimal(n as nat)[i]));
    }
}

/// The read cursor is the second word of the ledger, if that is a number; else nothing was read and it
/// is the write cursor.
pub proof fn law_read_cursor_is_the_second_word(ledger: Seq<char>, write_cursor: u64, n: u64)
    ensures
        rotate::ledger_read_cursor(None, write_cursor) == write_cursor,
        text::words_from(ledger, 0).len() < 2 ==> rotate::ledger_read_cursor(
            Some(ledger),
            write_cursor,
        ) == write_cursor,
        text::words_from(ledger, 0).len() >= 2 && text::parsed_u64(text::words_from(ledger, 0)[1])
            == Some(n) ==> rotate::ledger_read_cursor(Some(ledger), write_cursor) == n,
        text::words_from(ledger, 0).len() >= 2 && text::parsed_u64(text::words_from(ledger, 0)[1])
            is None ==> rotate::ledger_read_cursor(Some(ledger), write_cursor) == write_cursor,
{
}

/// After a look at a directory, the next number is the one behind the greatest and the smallest number
/// is among the names; there is one such pair, and it is 0 and 0 for a directory without segments.
pub proof fn law_scan_is_determined(names: Seq<String>, next: u64, min: u64, i: int)
    requires
        rotate::is_scan(names, next, min),
    ensures
        0 <= i < names.len() && rotate::segment_no_of(names[i]@) is Some ==> min
            <= rotate::segment_no_of(names[i]@)->0 < next,
        next > 0 ==> exists|j: int|
            0 <= j < names.len() && rotate::segment_no_of(#[trigger] names[j]@) == Some(
                (next - 1) as u64,
            ),
        next > 0 ==> exists|j: int|
            0 <= j < names.len() && rotate::segment_no_of(#[trigger] names[j]@) == Some(min),
        next == 0 ==> min == 0,
{
    if 0 <= i < names.len() && rotate::segment_no_of(names[i]@) is Some {
        assert(rotate::has_segment(names, rotate::segment_no_of(names[i]@)->0));
    }
    if next > 0 {
        assert(rotate::has_segment(names, (next - 1) as u64));
        assert(rotate::has_segment(names, min));
    }
}

} // verus!
