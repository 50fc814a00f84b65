//! The segment files: their names, their numbers, and which of them go when there are too many.
//!
//! Segment numbers only grow, and a name is never used twice. When more segments exist than are
//! allowed, the oldest are removed.
use crate::config::ConfigError;
use crate::text::{
    self, chars_of, parse_u64, push_decimal, push_decimal4, second_word,
};
use vstd::prelude::*;
use vstd::string::StringExecFns;

verus! {

/// `s` starts with `prefix`.
pub open spec fn starts_with(s: Seq<char>, prefix: Seq<char>) -> bool {
    prefix.len() <= s.len() && s.take(prefix.len() as int) == prefix
}

/// `s` ends with `suffix`.
pub open spec fn ends_with(s: Seq<char>, suffix: Seq<char>) -> bool {
    suffix.len() <= s.len() && s.skip(s.len() - suffix.len()) == suffix
}

/// The file name of a segment.
pub open spec fn segment_name(no: u64) -> Seq<char> {
    "segment_"@ + text::decimal4(no as nat) + ".wal"@
}

/// The number of the segment with the given file name, if it is a segment's.
pub open spec fn segment_no_of(name: Seq<char>) -> Option<u64> {
    if starts_with(name, "segment_"@) && ends_with(name.skip(8), ".wal"@) {
        text::parsed_u64(name.subrange(8, name.len() - 4))
    } else {
        None
    }
}

/// The path of a file in a directory.
pub open spec fn joined(dir: Seq<char>, name: Seq<char>) -> Seq<char> {
    if dir.len() == 0 {
        name
    } else if dir.last() == '/' {
        dir + name
    } else {
        dir + "/"@ + name
    }
}

/// What the ledger file says: the write cursor and the read cursor.
pub open spec fn ledger_text(write_cursor: u64, read_cursor: u64) -> Seq<char> {
    text::decimal(write_cursor as nat) + " "@ + text::decimal(read_cursor as nat) + "\n"@
}

/// The read cursor that a ledger file states, or else `write_cursor`.
pub open spec fn ledger_read_cursor(ledger: Option<Seq<char>>, write_cursor: u64) -> u64 {
    match ledger {
        Some(s) => {
            let words = text::words_from(s, 0);
            if words.len() >= 2 {
                match text::parsed_u64(words[1]) {
                    Some(n) => n,
                    None => write_cursor,
                }
            } else {
                write_cursor
            }
        },
        None => write_cursor,
    }
}

/// The ledger keeps its read cursor: what was written is read back, whatever the write cursor is
/// by then.
pub proof fn law_ledger_reads_back(write_cursor: u64, read_cursor: u64, later: u64)
    ensures
        ledger_read_cursor(Some(ledger_text(write_cursor, read_cursor)), later) == read_cursor,
{
    reveal_strlit(" ");
    reveal_strlit("\n");
    let w = text::decimal(write_cursor as nat);
    let r = text::decimal(read_cursor as nat);
    let s = ledger_text(write_cursor, read_cursor);
    let b = w.len() as int;
    let e = b + 1 + r.len();
    text::lemma_decimal(write_cursor as nat);
    text::lemma_decimal(read_cursor as nat);
    text::law_decimal_reads_back(read_cursor);
    assert(text::is_space(' ') && text::is_space('\n'));
    assert forall|k: int| 0 <= k < b implies !text::is_space(#[trigger] s[k]) by {
        assert(s[k] == w[k] && text::is_digit(w[k]));
    }
    assert forall|k: int| b + 1 <= k < e implies !text::is_space(#[trigger] s[k]) by {
        assert(s[k] == r[k - b - 1] && text::is_digit(r[k - b - 1]));
    }
    assert(s[b] == ' ' && s[e] == '\n');
    assert(!text::is_space(s[0]) && !text::is_space(s[b + 1]));
    text::lemma_word_ends_at(s, 0, b);
    text::lemma_word_ends_at(s, b + 1, e);
    assert(text::word_start(s, b) == b + 1) by {
        reveal_with_fuel(text::word_start, 2);
    }
    assert(s.subrange(b + 1, e) =~= r);
    let words = text::words_from(s, 0);
    assert(words == seq![s.subrange(0, b)] + text::words_from(s, b));
    assert(text::words_from(s, b) == seq![r] + text::words_from(s, e));
    assert(words[1] == r);
}

/// The view of an optional text.
pub open spec fn text_view(s: Option<&str>) -> Option<Seq<char>> {
    match s {
        Some(t) => Some(t@),
        None => None,
    }
}

/// How many of the first `k` names are those of segments.
pub open spec fn count_segments(names: Seq<String>, k: int) -> nat
    decreases k,
{
    if k <= 0 {
        0
    } else {
        count_segments(names, k - 1) + if segment_no_of(names[k - 1]@) is Some {
            1nat
        } else {
            0nat
        }
    }
}

/// The name is that of a segment with a number from `from` up to `to`.
pub open spec fn is_between(name: Seq<char>, from: u64, to: u64) -> bool {
    segment_no_of(name) matches Some(n) && from <= n < to
}

/// How many of the first `k` names are those of segments, without the numbers from `from` up to
/// `to`.
pub open spec fn count_left(names: Seq<String>, from: u64, to: u64, k: int) -> nat
    decreases k,
{
    if k <= 0 {
        0
    } else {
        count_left(names, from, to, k - 1) + if segment_no_of(names[k - 1]@) is Some && !is_between(
            names[k - 1]@,
            from,
            to,
        ) {
            1nat
        } else {
            0nat
        }
    }
}

/// Some of the names is that of a segment with a number from `to` on.
pub open spec fn has_segment_from(names: Seq<String>, to: u64) -> bool {
    exists|n: u64| n >= to && #[trigger] has_segment(names, n)
}

/// The number from which on segments stay, where those from `from` up to `to` go already: one
/// number goes after the other, until no more than `max` segments are left, or none that could go.
pub open spec fn stay_from(names: Seq<String>, from: u64, to: u64, max: nat) -> u64
    decreases u64::MAX - to,
{
    if count_left(names, from, to, names.len() as int) > max && has_segment_from(names, to) && to
        < u64::MAX {
        stay_from(names, from, (to + 1) as u64, max)
    } else {
        to
    }
}

/// Numbers that no segment has make no difference to how many segments are left.
proof fn lemma_gap_leaves_as_many(names: Seq<String>, from: u64, to: u64, next: u64, k: int)
    requires
        0 <= k <= names.len(),
        from <= to <= next,
        forall|n: u64| #[trigger] has_segment(names, n) ==> n < to || n >= next,
    ensures
        count_left(names, from, next, k) == count_left(names, from, to, k),
    decreases k,
{
    if k > 0 {
        lemma_gap_leaves_as_many(names, from, to, next, k - 1);
        if let Some(n) = segment_no_of(names[k - 1]@) {
            assert(has_segment(names, n));
        }
    }
}

/// Numbers that no segment has may be passed over.
proof fn lemma_gap_is_passed(names: Seq<String>, from: u64, to: u64, next: u64, max: nat)
    requires
        from <= to <= next,
        count_left(names, from, to, names.len() as int) > max,
        has_segment(names, next),
        forall|n: u64| #[trigger] has_segment(names, n) ==> n < to || n >= next,
    ensures
        stay_from(names, from, to, max) == stay_from(names, from, next, max),
        count_left(names, from, next, names.len() as int) > max,
        has_segment_from(names, next),
    decreases next - to,
{
    lemma_gap_leaves_as_many(names, from, to, next, names.len() as int);
    assert(has_segment_from(names, to));
    if to < next {
        let up = (to + 1) as u64;
        lemma_gap_leaves_as_many(names, from, to, up, names.len() as int);
        lemma_gap_is_passed(names, from, up, next, max);
    }
}

/// The paths of the segments among the first `k` names with numbers from `from` up to `to`.
pub open spec fn paths_between(
    dir: Seq<char>,
    names: Seq<String>,
    from: u64,
    to: u64,
    k: int,
) -> Seq<Seq<char>>
    decreases k,
{
    if k <= 0 {
        Seq::empty()
    } else if is_between(names[k - 1]@, from, to) {
        paths_between(dir, names, from, to, k - 1).push(joined(dir, names[k - 1]@))
    } else {
        paths_between(dir, names, from, to, k - 1)
    }
}

/// `n` is the number of a segment among `names`.
pub open spec fn has_segment(names: Seq<String>, n: u64) -> bool {
    exists|i: int| 0 <= i < names.len() && segment_no_of(#[trigger] names[i]@) == Some(n)
}

/// The number of a segment name is the one that the name was made of.
pub proof fn law_segment_name_reads_back(no: u64)
    ensures
        segment_no_of(segment_name(no)) == Some(no),
        starts_with(segment_name(no), "segment_"@),
{
    reveal_strlit("segment_");
    reveal_strlit(".wal");
    let d = text::decimal4(no as nat);
    let s = segment_name(no);
    assert(s.take(8) =~= "segment_"@);
    assert(s.skip(8) =~= d + ".wal"@);
    assert(s.skip(8).skip(s.skip(8).len() - 4) =~= ".wal"@);
    assert(s.subrange(8, s.len() - 4) =~= d);
    text::law_decimal4_reads_back(no);
}

/// Two segments never have the same name.
pub proof fn law_segment_names_are_unique(a: u64, b: u64)
    requires
        a != b,
    ensures
        segment_name(a) != segment_name(b),
{
    law_segment_name_reads_back(a);
    law_segment_name_reads_back(b);
}

/// `chars` starts with `prefix`.
fn has_prefix(chars: &Vec<char>, prefix: &str) -> (r: bool)
    ensures
        r == starts_with(chars@, prefix@),
{
    let p: Vec<char> = chars_of(prefix);
    if p.len() > chars.len() {
        return false;
    }
    let mut i: usize = 0;
    while i < p.len()
        invariant
            p@ == prefix@,
            i <= p@.len() <= chars@.len(),
            forall|j: int| 0 <= j < i ==> chars@[j] == p@[j],
        decreases p@.len() - i,
    {
        if chars[i] != p[i] {
            assert(chars@.take(p@.len() as int)[i as int] != p@[i as int]);
            return false;
        }
        i = i + 1;
    }
    assert(chars@.take(p@.len() as int) =~= p@);
    true
}

/// The number of the segment with file name `name`, if it is a segment's.
pub fn segment_no(name: &str) -> (r: Option<u64>)
    ensures
        r == segment_no_of(name@),
{
    proof {
        reveal_strlit("segment_");
        reveal_strlit(".wal");
    }
    let chars: Vec<char> = chars_of(name);
    if !has_prefix(&chars, "segment_") {
        return None;
    }
    let n: usize = chars.len();
    if n < 12 {
        return None;
    }
    let ghost tail = name@.skip(8);
    proof {
        assert(tail.skip(tail.len() - 4) =~= name@.subrange(n - 4, n as int));
    }
    if chars[n - 4] != '.' || chars[n - 3] != 'w' || chars[n - 2] != 'a' || chars[n - 1] != 'l' {
        proof {
            if ends_with(tail, ".wal"@) {
                let w = name@.subrange(n - 4, n as int);
                assert(w[0] == name@[n - 4] && w[1] == name@[n - 3] && w[2] == name@[n - 2]
                    && w[3] == name@[n - 1]);
            }
        }
        return None;
    }
    assert(name@.subrange(n - 4, n as int) =~= ".wal"@);
    parse_u64(&chars, 8, n - 4)
}

/// The path of `name` in the directory `dir`.
pub fn join(dir: &str, name: &str) -> (r: String)
    ensures
        r@ == joined(dir@, name@),
{
    let mut out: String = String::from_str(dir);
    let chars: Vec<char> = chars_of(dir);
    if chars.len() > 0 && chars[chars.len() - 1] != '/' {
        out.append("/");
    }
    out.append(name);
    assert(dir@.len() == 0 ==> dir@ + name@ =~= name@);
    out
}

/// The line of the ledger file. Without a read cursor of its own, the one in the ledger's former
/// content `previous` stays.
pub fn ledger_line(write_cursor: u64, read_cursor: Option<u64>, previous: Option<&str>) -> (r:
    String)
    ensures
        r@ == ledger_text(
            write_cursor,
            match read_cursor {
                Some(n) => n,
                None => ledger_read_cursor(text_view(previous), write_cursor),
            },
        ),
{
    let read: u64 = match read_cursor {
        Some(n) => n,
        None => match previous {
            Some(s) => {
                let chars: Vec<char> = chars_of(s);
                match second_word(&chars) {
                    Some((a, b)) => match parse_u64(&chars, a, b) {
                        Some(n) => n,
                        None => write_cursor,
                    },
                    None => write_cursor,
                }
            },
            None => write_cursor,
        },
    };
    let mut out: String = String::new();
    push_decimal(&mut out, write_cursor);
    out.append(" ");
    push_decimal(&mut out, read);
    out.append("\n");
    assert(out@ =~= ledger_text(write_cursor, read));
    out
}

/// The smallest segment number among `names` that is not below `to`.
fn first_from(names: &Vec<String>, to: u64) -> (r: Option<u64>)
    ensures
        match r {
            Some(no) => {
                &&& no >= to
                &&& has_segment(names@, no)
                &&& forall|n: u64| #[trigger] has_segment(names@, n) ==> n < to || n >= no
            },
            None => !has_segment_from(names@, to),
        },
{
    let mut first: Option<u64> = None;
    let mut i: usize = 0;
    while i < names.len()
        invariant
            i <= names@.len(),
            match first {
                Some(no) => {
                    &&& no >= to
                    &&& has_segment(names@, no)
                    &&& forall|j: int|
                        0 <= j < i ==> (segment_no_of(#[trigger] names@[j]@) matches Some(n) ==> n
                            < to || n >= no)
                },
                None => forall|j: int|
                    0 <= j < i ==> (segment_no_of(#[trigger] names@[j]@) matches Some(n) ==> n
                        < to),
            },
        decreases names@.len() - i,
    {
        if let Some(no) = segment_no(names[i].as_str()) {
            assert(segment_no_of(names@[i as int]@) == Some(no));
            assert(has_segment(names@, no));
            if no >= to {
                match first {
                    Some(least) => {
                        if no < least {
                            first = Some(no);
                        }
                    },
                    None => {
                        first = Some(no);
                    },
                }
            }
        }
        i = i + 1;
    }
    proof {
        assert forall|n: u64| #[trigger] has_segment(names@, n) implies n < to || (first matches Some(
            no,
        ) && n >= no) by {
            let j = choose|j: int|
                0 <= j < names@.len() && segment_no_of(#[trigger] names@[j]@) == Some(n);
            assert(segment_no_of(names@[j]@) == Some(n));
        }
    }
    first
}

/// The segments that are to go, and the ledger's new content if any number went.
#[derive(Debug)]
pub struct Removal {
    pub paths: Vec<String>,
    pub ledger: Option<String>,
}

/// The state of the rotation: the directory, how many segments it may hold, the number of the next
/// segment, and the number up to which segments were removed.
#[derive(Debug)]
pub struct Rotator {
    pub shm_path: String,
    pub max_segments: usize,
    pub seg_no: u64,
    pub min_no: u64,
}

impl Rotator {
    /// A rotation over a directory that holds files with the given names. It goes on behind the
    /// greatest segment number there.
    pub fn new(shm_path: &str, max_segments: usize, names: &Vec<String>) -> (r: Result<
        Self,
        ConfigError,
    >)
        requires
            !has_segment(names@, u64::MAX),
        ensures
            r is Err <==> max_segments == 0,
            r matches Err(e) ==> e == ConfigError::MaxSegments,
            r matches Ok(rot) ==> {
                &&& rot.shm_path@ == shm_path@
                &&& rot.max_segments == max_segments
                &&& is_scan(names@, rot.seg_no, rot.min_no)
            },
    {
        if max_segments == 0 {
            return Err(ConfigError::MaxSegments);
        }
        let (seg_no, min_no) = Self::scan_existing(names);
        Ok(Rotator { shm_path: String::from_str(shm_path), max_segments, seg_no, min_no })
    }

    /// The number behind the greatest segment number among `names`, and the smallest one; 0 and 0
    /// if there is none.
    pub fn scan_existing(names: &Vec<String>) -> (r: (u64, u64))
        requires
            !has_segment(names@, u64::MAX),
        ensures
            is_scan(names@, r.0, r.1),
    {
        let mut found: bool = false;
        let mut next: u64 = 0;
        let mut min: u64 = 0;
        let mut i: usize = 0;
        while i < names.len()
            invariant
                i <= names@.len(),
                !has_segment(names@, u64::MAX),
                !found ==> next == 0 && min == 0,
                forall|j: int|
                    0 <= j < i ==> (segment_no_of(#[trigger] names@[j]@) matches Some(n) ==> found
                        && min <= n < next),
                found ==> next > 0 && has_segment(names@, (next - 1) as u64) && has_segment(
                    names@,
                    min,
                ),
            decreases names@.len() - i,
        {
            if let Some(no) = segment_no(names[i].as_str()) {
                assert(segment_no_of(names@[i as int]@) == Some(no));
                assert(has_segment(names@, no));
                if !found {
                    found = true;
                    next = no + 1;
                    min = no;
                } else {
                    if no >= next {
                        next = no + 1;
                    }
                    if no < min {
                        min = no;
                    }
                }
            }
            i = i + 1;
        }
        proof {
            assert forall|n: u64| has_segment(names@, n) implies found && min <= n < next by {
                let j = choose|j: int|
                    0 <= j < names@.len() && segment_no_of(#[trigger] names@[j]@) == Some(n);
                assert(segment_no_of(names@[j]@) == Some(n));
            }
        }
        (next, min)
    }

    /// The path of the segment with number `no`.
    pub fn seg_path(&self, no: u64) -> (r: String)
        ensures
            r@ == joined(self.shm_path@, segment_name(no)),
    {
        let mut name: String = String::from_str("segment_");
        push_decimal4(&mut name, no);
        name.append(".wal");
        join(self.shm_path.as_str(), name.as_str())
    }

    /// The path of the ledger file.
    pub fn ledger_path(&self) -> (r: String)
        ensures
            r@ == joined(self.shm_path@, "ledger"@),
    {
        join(self.shm_path.as_str(), "ledger")
    }

    /// Takes the next segment number. The result is the path of the file to be created.
    pub fn next_segment(&mut self) -> (r: String)
        requires
            old(self).seg_no < u64::MAX,
        ensures
            r@ == joined(old(self).shm_path@, segment_name(old(self).seg_no)),
            final(self).seg_no == old(self).seg_no + 1,
            final(self).min_no == old(self).min_no,
            final(self).max_segments == old(self).max_segments,
            final(self).shm_path@ == old(self).shm_path@,
    {
        let no: u64 = self.seg_no;
        self.seg_no = no + 1;
        self.seg_path(no)
    }

    /// How many of the files with the given names are segments, without the numbers from `min_no`
    /// up to `to`.
    fn left(&self, names: &Vec<String>, to: u64) -> (r: usize)
        ensures
            r == count_left(names@, self.min_no, to, names@.len() as int),
    {
        let mut count: usize = 0;
        let mut i: usize = 0;
        while i < names.len()
            invariant
                i <= names@.len(),
                count <= i,
                count == count_left(names@, self.min_no, to, i as int),
            decreases names@.len() - i,
        {
            if let Some(no) = segment_no(names[i].as_str()) {
                if no < self.min_no || no >= to {
                    count = count + 1;
                }
            }
            i = i + 1;
        }
        count
    }

    /// Decides which of the files with the given names go, so that no more segments stay than are
    /// allowed: the oldest ones, one number after the other.
    pub fn enforce_budget(&mut self, names: &Vec<String>) -> (r: Removal)
        ensures
            final(self).min_no == stay_from(
                names@,
                old(self).min_no,
                old(self).min_no,
                old(self).max_segments as nat,
            ),
            final(self).seg_no == old(self).seg_no,
            final(self).max_segments == old(self).max_segments,
            final(self).shm_path@ == old(self).shm_path@,
            text::texts(r.paths@) == paths_between(
                old(self).shm_path@,
                names@,
                old(self).min_no,
                final(self).min_no,
                names@.len() as int,
            ),
            match r.ledger {
                Some(line) => {
                    &&& final(self).min_no != old(self).min_no
                    &&& line@ == ledger_text(old(self).seg_no, final(self).min_no)
                },
                None => final(self).min_no == old(self).min_no,
            },
    {
        let from: u64 = self.min_no;
        let mut to: u64 = from;
        loop
            invariant
                self.min_no == from,
                from <= to,
                stay_from(names@, from, to, self.max_segments as nat) == stay_from(
                    names@,
                    from,
                    from,
                    self.max_segments as nat,
                ),
            ensures
                to == stay_from(names@, from, from, self.max_segments as nat),
            decreases u64::MAX - to,
        {
            if self.left(names, to) <= self.max_segments {
                break;
            }
            match first_from(names, to) {
                Some(no) => {
                    proof {
                        lemma_gap_is_passed(names@, from, to, no, self.max_segments as nat);
                    }
                    if no == u64::MAX {
                        to = no;
                        break;
                    }
                    to = no + 1;
                },
                None => {
                    break;
                },
            }
        }
        let mut paths: Vec<String> = Vec::new();
        let mut i: usize = 0;
        assert(text::texts(paths@) =~= Seq::<Seq<char>>::empty());
        while i < names.len()
            invariant
                i <= names@.len(),
                text::texts(paths@) == paths_between(self.shm_path@, names@, from, to, i as int),
            decreases names@.len() - i,
        {
            if let Some(no) = segment_no(names[i].as_str()) {
                if from <= no && no < to {
                    let ghost before = text::texts(paths@);
                    let path: String = join(self.shm_path.as_str(), names[i].as_str());
                    let ghost p = path@;
                    paths.push(path);
                    assert(text::texts(paths@) =~= before.push(p));
                }
            }
            i = i + 1;
        }
        let ledger: Option<String> = if to != from {
            Some(ledger_line(self.seg_no, Some(to), None))
        } else {
            None
        };
        self.min_no = to;
        Removal { paths, ledger }
    }

    /// The ledger's new content once segments up to `read_cursor` were read.
    pub fn mark_read(&self, read_cursor: u64) -> (r: String)
        ensures
            r@ == ledger_text(self.seg_no, read_cursor),
    {
        ledger_line(self.seg_no, Some(read_cursor), None)
    }

    /// How many of the files with the given names are segments.
    pub fn existing_count(&self, names: &Vec<String>) -> (r: usize)
        ensures
            r == count_segments(names@, names@.len() as int),
    {
        let mut count: usize = 0;
        let mut i: usize = 0;
        while i < names.len()
            invariant
                i <= names@.len(),
                count <= i,
                count == count_segments(names@, i as int),
            decreases names@.len() - i,
        {
            if segment_no(names[i].as_str()).is_some() {
                count = count + 1;
            }
            i = i + 1;
        }
        count
    }

    /// The smallest segment number among `names`, or the next number if none is smaller.
    pub fn min_existing_no(&self, names: &Vec<String>) -> (r: u64)
        ensures
            r <= self.seg_no,
            r == self.seg_no || has_segment(names@, r),
            forall|n: u64| has_segment(names@, n) ==> r <= n,
    {
        let mut min: u64 = self.seg_no;
        let mut i: usize = 0;
        while i < names.len()
            invariant
                i <= names@.len(),
                min <= self.seg_no,
                min == self.seg_no || has_segment(names@, min),
                forall|j: int|
                    0 <= j < i ==> (segment_no_of(#[trigger] names@[j]@) matches Some(n) ==> min
                        <= n),
            decreases names@.len() - i,
        {
            if let Some(no) = segment_no(names[i].as_str()) {
                assert(segment_no_of(names@[i as int]@) == Some(no));
                if no < min {
                    min = no;
                }
            }
            i = i + 1;
        }
        proof {
            assert forall|n: u64| has_segment(names@, n) implies min <= n by {
                let j = choose|j: int|
                    0 <= j < names@.len() && segment_no_of(#[trigger] names@[j]@) == Some(n);
                assert(segment_no_of(names@[j]@) == Some(n));
            }
        }
        min
    }

    /// The number up to which segments were removed.
    pub fn min_no(&self) -> (r: u64)
        ensures
            r == self.min_no,
    {
        self.min_no
    }
}

/// `next` is the number behind the greatest segment number among `names` and `min` is the smallest
/// one; both are 0 if there is none.
pub open spec fn is_scan(names: Seq<String>, next: u64, min: u64) -> bool {
    &&& forall|n: u64| #[trigger] has_segment(names, n) ==> min <= n < next
    &&& next == 0 && min == 0 || next > 0 && has_segment(names, (next - 1) as u64) && has_segment(
        names,
        min,
    )
}

/// After a restart, no name that the rotation hands out is taken already.
pub proof fn law_restart_uses_new_names(names: Seq<String>, next: u64, min: u64, no: u64, i: int)
    requires
        is_scan(names, next, min),
        no >= next,
        0 <= i < names.len(),
    ensures
        names[i]@ != segment_name(no),
{
    law_segment_name_reads_back(no);
    if names[i]@ == segment_name(no) {
        assert(segment_no_of(names[i]@) == Some(no));
        assert(has_segment(names, no));
    }
}

/// A directory of segments: the numbers of those that exist, the number up to which segments were
/// removed, and the number of the next one.
#[verifier::ext_equal]
pub struct SegmentDir {
    pub segments: Set<int>,
    pub min_no: int,
    pub seg_no: int,
}

impl SegmentDir {
    /// Every segment was handed out, and none below `min_no` is left.
    pub open spec fn inv(self) -> bool {
        &&& self.segments.finite()
        &&& self.min_no <= self.seg_no
        &&& forall|n: int| #[trigger] self.segments.contains(n) ==> self.min_no <= n < self.seg_no
    }

    /// The directory once the next segment was created.
    pub open spec fn created(self) -> SegmentDir {
        SegmentDir {
            segments: self.segments.insert(self.seg_no),
            min_no: self.min_no,
            seg_no: self.seg_no + 1,
        }
    }

    /// The directory once the oldest segment was removed.
    pub open spec fn evicted(self) -> SegmentDir {
        SegmentDir {
            segments: self.segments.remove(self.min_no),
            min_no: self.min_no + 1,
            seg_no: self.seg_no,
        }
    }

    /// The directory once the oldest segments were removed one by one, until no more than `max`
    /// exist.
    pub open spec fn enforced(self, max: nat) -> SegmentDir
        decreases self.seg_no - self.min_no,
    {
        if self.segments.len() > max && self.min_no < self.seg_no {
            self.evicted().enforced(max)
        } else {
            self
        }
    }
}

/// No two of the names are those of segments with one number.
pub open spec fn has_distinct_numbers(names: Seq<String>) -> bool {
    forall|i: int, j: int|
        0 <= i < j < names.len() && segment_no_of(#[trigger] names[i]@) is Some ==> segment_no_of(
            names[i]@,
        ) != segment_no_of(#[trigger] names[j]@)
}

/// The directory that holds files with the given names.
pub open spec fn dir_of(names: Seq<String>, min_no: u64, seg_no: u64) -> SegmentDir {
    SegmentDir {
        segments: Set::new(|n: int| 0 <= n <= u64::MAX && has_segment(names, n as u64)),
        min_no: min_no as int,
        seg_no: seg_no as int,
    }
}

/// The numbers of the segments among the first `k` names, without those from `from` up to `to`.
spec fn numbers_left(names: Seq<String>, from: u64, to: u64, k: int) -> Set<int>
    decreases k,
{
    if k <= 0 {
        Set::empty()
    } else {
        match segment_no_of(names[k - 1]@) {
            Some(n) => if from <= n < to {
                numbers_left(names, from, to, k - 1)
            } else {
                numbers_left(names, from, to, k - 1).insert(n as int)
            },
            None => numbers_left(names, from, to, k - 1),
        }
    }
}

/// A number is left among the first `k` names exactly if one of them has it.
proof fn lemma_numbers_left(names: Seq<String>, from: u64, to: u64, k: int, n: int)
    requires
        0 <= k <= names.len(),
    ensures
        numbers_left(names, from, to, k).finite(),
        numbers_left(names, from, to, k).contains(n) <==> !(from <= n < to) && exists|i: int|
            0 <= i < k && (segment_no_of(#[trigger] names[i]@) matches Some(m) && m == n),
    decreases k,
{
    if k > 0 {
        lemma_numbers_left(names, from, to, k - 1, n);
        if segment_no_of(names[k - 1]@) == Some(n as u64) && 0 <= n <= u64::MAX {
            assert(segment_no_of(names[k - 1]@) matches Some(m) && m == n);
        }
        if exists|i: int|
            0 <= i < k && (segment_no_of(#[trigger] names[i]@) matches Some(m) && m == n) {
            let i = choose|i: int|
                0 <= i < k && (segment_no_of(#[trigger] names[i]@) matches Some(m) && m == n);
            if i < k - 1 {
                assert(segment_no_of(names[i]@) matches Some(m) && m == n);
            }
        }
    }
}

/// As many names are left as numbers.
proof fn lemma_left_is_len(names: Seq<String>, from: u64, to: u64, k: int)
    requires
        0 <= k <= names.len(),
        has_distinct_numbers(names),
    ensures
        count_left(names, from, to, k) == numbers_left(names, from, to, k).len(),
    decreases k,
{
    if k > 0 {
        lemma_left_is_len(names, from, to, k - 1);
        if let Some(n) = segment_no_of(names[k - 1]@) {
            lemma_numbers_left(names, from, to, k - 1, n as int);
            if numbers_left(names, from, to, k - 1).contains(n as int) {
                let i = choose|i: int|
                    0 <= i < k - 1 && (segment_no_of(#[trigger] names[i]@) matches Some(m) && m
                        == n as int);
                assert(segment_no_of(names[i]@) != segment_no_of(names[k - 1]@));
            }
        }
    }
}

/// The numbers that are left of a directory whose segments have none below `from` are those from
/// `to` on.
proof fn lemma_left_of_dir(names: Seq<String>, from: u64, to: u64, seg_no: u64)
    requires
        has_distinct_numbers(names),
        forall|n: u64| #[trigger] has_segment(names, n) ==> from <= n,
        from <= to,
    ensures
        ({
            let all = dir_of(names, from, seg_no).segments;
            let left = Set::new(|n: int| all.contains(n) && n >= to);
            &&& left.finite()
            &&& count_left(names, from, to, names.len() as int) == left.len()
        }),
{
    let k = names.len() as int;
    let all = dir_of(names, from, seg_no).segments;
    let left = Set::new(|n: int| all.contains(n) && n >= to);
    lemma_left_is_len(names, from, to, k);
    lemma_numbers_left(names, from, to, k, 0);
    assert forall|n: int| #[trigger] numbers_left(names, from, to, k).contains(n)
        <==> left.contains(n) by {
        lemma_numbers_left(names, from, to, k, n);
        if numbers_left(names, from, to, k).contains(n) {
            let i = choose|i: int|
                0 <= i < k && (segment_no_of(#[trigger] names[i]@) matches Some(m) && m == n);
            assert(segment_no_of(names[i]@) == Some(n as u64));
            assert(has_segment(names, n as u64));
        }
        if left.contains(n) {
            let i = choose|i: int|
                0 <= i < names.len() && segment_no_of(#[trigger] names[i]@) == Some(n as u64);
            assert(segment_no_of(names[i]@) matches Some(m) && m == n);
        }
    }
    assert(numbers_left(names, from, to, k) =~= left);
}

/// Counting names counts segments: whatever other files there are, the count is the number of
/// segments, as long as no two files have one number.
pub proof fn law_count_is_the_number_of_segments(names: Seq<String>, min_no: u64, seg_no: u64)
    requires
        has_distinct_numbers(names),
    ensures
        count_segments(names, names.len() as int) == dir_of(names, min_no, seg_no).segments.len(),
{
    let all = dir_of(names, min_no, seg_no).segments;
    lemma_left_of_dir(names, 0, 0, seg_no);
    lemma_count_is_left(names, names.len() as int);
    let left = Set::new(
        |n: int| dir_of(names, 0, seg_no).segments.contains(n) && n >= 0u64,
    );
    assert(left =~= all);
}

/// Without any number left out, every segment is left.
proof fn lemma_count_is_left(names: Seq<String>, k: int)
    ensures
        count_segments(names, k) == count_left(names, 0, 0, k),
    decreases k,
{
    if k > 0 {
        lemma_count_is_left(names, k - 1);
    }
}

/// What `enforce_budget` decides is what removing the oldest segment of a directory again and again
/// leads to.
proof fn lemma_stay_from(names: Seq<String>, from: u64, to: u64, seg_no: u64, max: nat)
    requires
        has_distinct_numbers(names),
        from <= to <= seg_no,
        forall|n: u64| #[trigger] has_segment(names, n) ==> from <= n < seg_no,
    ensures
        ({
            let all = dir_of(names, from, seg_no).segments;
            let left = Set::new(|n: int| all.contains(n) && n >= to);
            let e = (SegmentDir { segments: left, min_no: to as int, seg_no: seg_no as int })
                .enforced(max);
            &&& stay_from(names, from, to, max) == e.min_no
            &&& forall|n: int| #[trigger]
                e.segments.contains(n) <==> all.contains(n) && n >= e.min_no
        }),
    decreases seg_no - to,
{
    let all = dir_of(names, from, seg_no).segments;
    let left = Set::new(|n: int| all.contains(n) && n >= to);
    let d = SegmentDir { segments: left, min_no: to as int, seg_no: seg_no as int };
    lemma_left_of_dir(names, from, to, seg_no);
    if count_left(names, from, to, names.len() as int) > max {
        let n = left.choose();
        assert(left.contains(n));
        assert(has_segment(names, n as u64));
        assert(has_segment_from(names, to));
        let next = (to + 1) as u64;
        let fewer = Set::new(|n: int| all.contains(n) && n >= next);
        lemma_stay_from(names, from, next, seg_no, max);
        assert(d.evicted().segments =~= fewer);
        assert(d.evicted() =~= SegmentDir {
            segments: fewer,
            min_no: next as int,
            seg_no: seg_no as int,
        });
    }
}

/// Where every number from `from` on goes that a segment has, and none has a smaller one, no segment
/// is left.
proof fn lemma_none_left(names: Seq<String>, from: u64, to: u64, k: int)
    requires
        0 <= k <= names.len(),
        forall|n: u64| #[trigger] has_segment(names, n) ==> from <= n,
        !has_segment_from(names, to),
    ensures
        count_left(names, from, to, k) == 0,
    decreases k,
{
    if k > 0 {
        lemma_none_left(names, from, to, k - 1);
        if let Some(n) = segment_no_of(names[k - 1]@) {
            assert(has_segment(names, n));
        }
    }
}

/// The budget is kept whoever put the segments there: what `enforce_budget` leaves is no more than
/// allowed, as long as no segment has a number below those that went before, or the last number that
/// there is.
pub proof fn law_budget_is_kept(names: Seq<String>, from: u64, to: u64, max: nat)
    requires
        from <= to,
        forall|n: u64| #[trigger] has_segment(names, n) ==> from <= n < u64::MAX,
    ensures
        stay_from(names, from, to, max) >= to,
        count_left(
            names,
            from,
            stay_from(names, from, to, max),
            names.len() as int,
        ) <= max,
    decreases u64::MAX - to,
{
    if count_left(names, from, to, names.len() as int) > max {
        if !has_segment_from(names, to) {
            lemma_none_left(names, from, to, names.len() as int);
        } else {
            law_budget_is_kept(names, from, (to + 1) as u64, max);
        }
    }
}

/// Opening the next segment and keeping the budget, as `next_segment` and `enforce_budget` do it:
/// `before` are the files before, `after` those once the segment was created, whatever their order.
/// The new segment has a number behind all others; those that stay are the newest ones, as many as
/// are allowed; and none goes unless more than allowed exist.
pub proof fn law_next_segment_keeps_the_newest(
    before: Seq<String>,
    after: Seq<String>,
    min_no: u64,
    seg_no: u64,
    max: nat,
)
    requires
        max >= 1,
        min_no <= seg_no < u64::MAX,
        forall|n: u64| #[trigger] has_segment(before, n) ==> min_no <= n < seg_no,
        has_distinct_numbers(after),
        forall|n: u64| #[trigger]
            has_segment(after, n) <==> has_segment(before, n) || n == seg_no,
    ensures
        ({
            let d = dir_of(before, min_no, seg_no);
            let e = d.created().enforced(max);
            let stay = stay_from(after, min_no, min_no, max);
            &&& stay == e.min_no
            &&& dir_of(after, min_no, (seg_no + 1) as u64) == d.created()
            &&& forall|n: u64| #[trigger]
                e.segments.contains(n as int) <==> has_segment(after, n) && n >= stay
            &&& e.segments.contains(seg_no as int)
            &&& e.segments.len() == if d.segments.len() + 1 <= max {
                d.segments.len() + 1
            } else {
                max
            }
            &&& e.inv()
        }),
{
    let d = dir_of(before, min_no, seg_no);
    let c = d.created();
    let next = (seg_no + 1) as u64;
    assert forall|n: u64| #[trigger] has_segment(after, n) implies min_no <= n < next by {
        assert(has_segment(before, n) || n == seg_no);
    }
    assert(dir_of(after, min_no, next).segments =~= c.segments) by {
        assert forall|n: int| dir_of(after, min_no, next).segments.contains(n)
            <==> #[trigger] c.segments.contains(n) by {
            if 0 <= n <= u64::MAX {
                assert(has_segment(after, n as u64) <==> has_segment(before, n as u64) || n as u64
                    == seg_no);
            }
        }
    }
    assert(dir_of(after, min_no, next) =~= c);
    lemma_stay_from(after, min_no, min_no, next, max);
    lemma_left_of_dir(after, min_no, min_no, next);
    let all = c.segments;
    let left = Set::new(|n: int| all.contains(n) && n >= min_no);
    assert(left =~= all) by {
        assert forall|n: int| #[trigger] all.contains(n) implies n >= min_no by {
            if n != seg_no {
                assert(has_segment(before, n as u64));
            }
        }
    }
    assert(d.segments =~= c.segments.remove(seg_no as int)) by {
        assert forall|n: int| #[trigger] d.segments.contains(n) implies n != seg_no by {
            assert(has_segment(before, n as u64));
        }
    }
    assert(d.inv()) by {
        assert forall|n: int| #[trigger] d.segments.contains(n) implies d.min_no <= n
            < d.seg_no by {
            assert(has_segment(before, n as u64));
        }
    }
    law_oldest_segments_go(d, max);
    let e = c.enforced(max);
    assert forall|n: u64| #[trigger] e.segments.contains(n as int) <==> has_segment(after, n) && n
        >= e.min_no by {
        assert(all.contains(n as int) <==> has_segment(after, n));
    }
}

/// Removing the oldest segments keeps the budget and the newest ones.
proof fn lemma_enforced(d: SegmentDir, max: nat)
    requires
        d.inv(),
    ensures
        ({
            let e = d.enforced(max);
            &&& e.inv()
            &&& e.seg_no == d.seg_no
            &&& e.segments.len() <= max
            &&& e.segments.len() == if d.segments.len() <= max { d.segments.len() } else { max }
            &&& e.segments.subset_of(d.segments)
            &&& forall|n: int, k: int|
                d.segments.contains(n) && !e.segments.contains(n) && #[trigger] e.segments.contains(
                    k,
                ) ==> #[trigger] d.segments.contains(n) && n < k
        }),
    decreases d.seg_no - d.min_no,
{
    let e = d.enforced(max);
    if d.segments.len() > max && d.min_no < d.seg_no {
        let s = d.evicted();
        assert(s.inv());
        lemma_enforced(s, max);
        assert forall|n: int, k: int|
            d.segments.contains(n) && !e.segments.contains(n) && #[trigger] e.segments.contains(
                k,
            ) implies #[trigger] d.segments.contains(n) && n < k by {
            assert(s.segments.contains(k));
            if n != d.min_no {
                assert(s.segments.contains(n));
            }
        }
    } else if d.segments.len() > max {
        assert(d.segments =~= Set::<int>::empty());
    }
}

/// Creating a segment and removing the oldest ones keeps the number of segments within the budget
/// and no smaller than it need be, keeps the new segment, and removes only segments older than all
/// that stay.
pub proof fn law_oldest_segments_go(d: SegmentDir, max: nat)
    requires
        d.inv(),
        max >= 1,
    ensures
        ({
            let c = d.created();
            let e = c.enforced(max);
            &&& e.inv()
            &&& e.seg_no == d.seg_no + 1
            &&& e.segments.len() == if d.segments.len() + 1 <= max { d.segments.len() + 1 } else {
                max
            }
            &&& e.segments.contains(d.seg_no)
            &&& e.segments.subset_of(c.segments)
            &&& forall|n: int, k: int|
                c.segments.contains(n) && !e.segments.contains(n) && #[trigger] e.segments.contains(
                    k,
                ) ==> #[trigger] c.segments.contains(n) && n < k
        }),
{
    let c = d.created();
    let e = c.enforced(max);
    assert(!d.segments.contains(d.seg_no));
    assert(c.inv());
    lemma_enforced(c, max);
    if !e.segments.contains(d.seg_no) {
        assert(c.segments.contains(d.seg_no));
        let k = e.segments.choose();
        assert(e.segments.contains(k));
        assert(c.segments.contains(k));
        assert(d.seg_no < k);
    }
}

/// The bytes of segments of the given sizes.
pub open spec fn total_size(sizes: Seq<nat>) -> nat
    decreases sizes.len(),
{
    if sizes.len() == 0 {
        0
    } else {
        total_size(sizes.drop_last()) + sizes.last()
    }
}

/// The memory disk is bounded: segments within the budget, none larger than a segment may be, take
/// no more than the budget times that size.
pub proof fn law_ram_disk_is_bounded(sizes: Seq<nat>, max_segments: nat, segment_size: nat)
    requires
        sizes.len() <= max_segments,
        forall|i: int| 0 <= i < sizes.len() ==> #[trigger] sizes[i] <= segment_size,
    ensures
        total_size(sizes) <= max_segments * segment_size,
    decreases sizes.len(),
{
    if sizes.len() > 0 {
        let rest = sizes.drop_last();
        law_ram_disk_is_bounded(rest, (max_segments - 1) as nat, segment_size);
        assert((max_segments - 1) * segment_size + segment_size == max_segments * segment_size)
            by (nonlinear_arith);
    } else {
        assert(0 <= max_segments * segment_size) by (nonlinear_arith);
    }
}

} // verus!
