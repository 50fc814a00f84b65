//! Hexadecimal text: cipher keys and the chunk identifiers in topic names.
use crate::endian;
use crate::text::{chars_of, text_of};
use vstd::prelude::*;

verus! {

/// `c` is a hexadecimal digit.
pub open spec fn is_hex(c: char) -> bool {
    let u = c as u32;
    48 <= u <= 57 || 65 <= u <= 70 || 97 <= u <= 102
}

/// The number that a hexadecimal digit stands for.
pub open spec fn hex_value(c: char) -> int {
    let u = c as u32;
    if u <= 57 {
        u - 48
    } else if u <= 70 {
        u - 55
    } else {
        u - 87
    }
}

/// Every character of `s` is a hexadecimal digit.
pub open spec fn all_hex(s: Seq<char>) -> bool {
    forall|i: int| 0 <= i < s.len() ==> is_hex(#[trigger] s[i])
}

/// The bytes that pairs of hexadecimal digits stand for.
pub open spec fn hex_bytes(s: Seq<char>) -> Seq<u8> {
    Seq::new(s.len() / 2, |i: int| (hex_value(s[2 * i]) * 16 + hex_value(s[2 * i + 1])) as u8)
}

/// The bytes of a hexadecimal text: an even number of digits and nothing else.
pub open spec fn hex_decoded(s: Seq<char>) -> Option<Seq<u8>> {
    if s.len() % 2 == 0 && all_hex(s) {
        Some(hex_bytes(s))
    } else {
        None
    }
}

/// Calls `hex::decode`: the bytes of a text of an even number of hexadecimal digits, of either
/// case; any other text is refused.
#[verifier::external_body]
fn hex_decode(s: &str) -> (r: Option<Vec<u8>>)
    ensures
        endian::bytes_view(r) == hex_decoded(s@),
{
    hex::decode(s).ok()
}

/// `c` is a hexadecimal digit.
fn char_is_hex(c: char) -> (r: bool)
    ensures
        r == is_hex(c),
{
    let u: u32 = c as u32;
    (48 <= u && u <= 57) || (65 <= u && u <= 70) || (97 <= u && u <= 102)
}

/// What stands behind the last slash of `s`; all of it if there is none.
pub open spec fn last_part(s: Seq<char>) -> Seq<char>
    decreases s.len(),
{
    if s.len() == 0 || s.last() == '/' {
        Seq::empty()
    } else {
        last_part(s.drop_last()).push(s.last())
    }
}

/// The identifier at the end of a topic name: 32 hexadecimal digits behind the last slash.
pub open spec fn blind_id_of(key: Seq<char>) -> Option<Seq<u8>> {
    let part = last_part(key);
    if part.len() == 32 && all_hex(part) {
        Some(hex_bytes(part))
    } else {
        None
    }
}

/// Where the last part of `chars` begins.
fn last_part_start(chars: &Vec<char>) -> (r: usize)
    ensures
        r <= chars@.len(),
        chars@.subrange(r as int, chars@.len() as int) == last_part(chars@),
{
    let mut i: usize = chars.len();
    proof {
        assert(chars@.take(i as int) =~= chars@);
        assert(last_part(chars@) + chars@.subrange(i as int, i as int) =~= last_part(chars@));
    }
    while i > 0 && chars[i - 1] != '/'
        invariant
            i <= chars@.len(),
            last_part(chars@) == last_part(chars@.take(i as int)) + chars@.subrange(
                i as int,
                chars@.len() as int,
            ),
        decreases i,
    {
        proof {
            let head = chars@.take(i as int);
            assert(head.drop_last() =~= chars@.take(i - 1));
            assert(last_part(head) + chars@.subrange(i as int, chars@.len() as int) =~= last_part(
                chars@.take(i - 1),
            ) + chars@.subrange(i - 1, chars@.len() as int));
        }
        i = i - 1;
    }
    proof {
        assert(last_part(chars@.take(i as int)) =~= Seq::<char>::empty());
        assert(last_part(chars@) =~= chars@.subrange(i as int, chars@.len() as int));
    }
    i
}

/// The view of an optional identifier.
pub open spec fn id_view(r: Option<[u8; 16]>) -> Option<Seq<u8>> {
    match r {
        Some(id) => Some(id@),
        None => None,
    }
}

/// The identifier at the end of a topic name.
pub fn blind_id_from_key(key: &str) -> (r: Option<[u8; 16]>)
    ensures
        id_view(r) == blind_id_of(key@),
{
    let chars: Vec<char> = chars_of(key);
    let start: usize = last_part_start(&chars);
    let ghost part = last_part(key@);
    if chars.len() - start != 32 {
        return None;
    }
    let mut i: usize = start;
    while i < chars.len()
        invariant
            start <= i <= chars@.len(),
            part == chars@.subrange(start as int, chars@.len() as int),
            part == last_part(key@),
            forall|j: int| 0 <= j < i - start ==> is_hex(#[trigger] part[j]),
        decreases chars@.len() - i,
    {
        assert(part[i - start] == chars@[i as int]);
        if !char_is_hex(chars[i]) {
            return None;
        }
        i = i + 1;
    }
    let text: String = text_of(&chars, start, chars.len());
    match hex_decode(text.as_str()) {
        Some(v) => {
            let id: [u8; 16] = [
                v[0], v[1], v[2], v[3], v[4], v[5], v[6], v[7], v[8], v[9], v[10], v[11], v[12],
                v[13], v[14], v[15],
            ];
            assert(id@ =~= v@);
            Some(id)
        },
        None => None,
    }
}

/// Why a text is no cipher key.
#[derive(Debug, Clone, Copy, PartialEq, Eq, Structural)]
pub enum KeyError {
    /// It is not hexadecimal.
    NotHex,
    /// It does not stand for 32 bytes.
    WrongLength,
}

/// The cipher key that a text of 64 hexadecimal digits stands for.
pub fn parse_key(text: &str) -> (r: Result<[u8; 32], KeyError>)
    ensures
        match hex_decoded(text@) {
            None => r == Err::<[u8; 32], KeyError>(KeyError::NotHex),
            Some(bytes) => if bytes.len() == 32 {
                r matches Ok(key) && key@ == bytes
            } else {
                r == Err::<[u8; 32], KeyError>(KeyError::WrongLength)
            },
        },
{
    match hex_decode(text) {
        Some(v) => {
            if v.len() != 32 {
                return Err(KeyError::WrongLength);
            }
            let mut key: [u8; 32] = [0; 32];
            let mut i: usize = 0;
            while i < 32
                invariant
                    i <= 32,
                    v@.len() == 32,
                    forall|j: int| 0 <= j < i ==> key@[j] == v@[j],
                decreases 32 - i,
            {
                key[i] = v[i];
                i = i + 1;
            }
            assert(key@ =~= v@);
            Ok(key)
        },
        None => Err(KeyError::NotHex),
    }
}

/// What stands behind the last slash is the last part, and a text without a slash is its own.
proof fn lemma_last_part(front: Seq<char>, part: Seq<char>)
    requires
        forall|i: int| 0 <= i < part.len() ==> #[trigger] part[i] != '/',
    ensures
        last_part(front + seq!['/'] + part) == part,
        last_part(part) == part,
    decreases part.len(),
{
    let s = front + seq!['/'] + part;
    if part.len() == 0 {
        assert(s.last() == '/');
        assert(last_part(s) =~= part);
        assert(last_part(part) =~= part);
    } else {
        let less = part.drop_last();
        lemma_last_part(front, less);
        assert(s.drop_last() =~= front + seq!['/'] + less);
        assert(s.last() == part.last());
        assert(part[part.len() - 1] != '/');
        assert(less.push(part.last()) =~= part);
    }
}

/// The identifier of a topic is what stands behind its last slash, whatever stands before it: 32
/// hexadecimal digits, of either case, two for each of 16 bytes. Behind the last slash stands no
/// identifier if there are more or fewer characters or any that is no hexadecimal digit.
pub proof fn law_identifier_stands_behind_the_last_slash(front: Seq<char>, part: Seq<char>)
    requires
        forall|i: int| 0 <= i < part.len() ==> #[trigger] part[i] != '/',
    ensures
        blind_id_of(front + seq!['/'] + part) == blind_id_of(part),
        blind_id_of(part) is Some <==> part.len() == 32 && forall|i: int|
            0 <= i < 32 ==> {
                let u = #[trigger] part[i] as u32;
                48 <= u <= 57 || 65 <= u <= 70 || 97 <= u <= 102
            },
        blind_id_of(part) matches Some(id) ==> {
            &&& id.len() == 16
            &&& hex_decoded(part) == Some(id)
            &&& forall|i: int|
                0 <= i < 16 ==> #[trigger] id[i] == hex_value(part[2 * i]) * 16 + hex_value(
                    part[2 * i + 1],
                )
        },
{
    lemma_last_part(front, part);
    if part.len() == 32 && all_hex(part) {
        let id = hex_bytes(part);
        assert forall|i: int| 0 <= i < 16 implies #[trigger] id[i] == hex_value(part[2 * i]) * 16
            + hex_value(part[2 * i + 1]) by {
            assert(is_hex(part[2 * i]) && is_hex(part[2 * i + 1]));
        }
        assert forall|i: int| 0 <= i < 32 implies {
            let u = #[trigger] part[i] as u32;
            48 <= u <= 57 || 65 <= u <= 70 || 97 <= u <= 102
        } by {
            assert(is_hex(part[i]));
        }
    }
}

/// Two topics with different identifiers, digit for digit and in one case, name different chunks.
pub proof fn law_different_digits_are_different_identifiers(a: Seq<char>, b: Seq<char>, i: int)
    requires
        a.len() == 32,
        b.len() == 32,
        forall|k: int| 0 <= k < 32 ==> 48 <= #[trigger] a[k] as u32 <= 57 || 97 <= a[k] as u32 <= 102,
        forall|k: int| 0 <= k < 32 ==> 48 <= #[trigger] b[k] as u32 <= 57 || 97 <= b[k] as u32 <= 102,
        0 <= i < 32,
        a[i] as u32 != b[i] as u32,
    ensures
        blind_id_of(a) is Some,
        blind_id_of(b) is Some,
        blind_id_of(a) != blind_id_of(b),
{
    assert('/' as u32 == 47);
    assert forall|k: int| 0 <= k < 32 implies #[trigger] a[k] != '/' && is_hex(a[k]) by {}
    assert forall|k: int| 0 <= k < 32 implies #[trigger] b[k] != '/' && is_hex(b[k]) by {}
    law_identifier_stands_behind_the_last_slash(Seq::empty(), a);
    law_identifier_stands_behind_the_last_slash(Seq::empty(), b);
    let k = i / 2;
    let x = blind_id_of(a)->0;
    let y = blind_id_of(b)->0;
    assert(i == 2 * k || i == 2 * k + 1);
    assert(is_hex(a[2 * k]) && is_hex(a[2 * k + 1]) && is_hex(b[2 * k]) && is_hex(b[2 * k + 1]));
    assert(x[k] == hex_value(a[2 * k]) * 16 + hex_value(a[2 * k + 1]));
    assert(y[k] == hex_value(b[2 * k]) * 16 + hex_value(b[2 * k + 1]));
    assert(hex_value(a[i]) != hex_value(b[i]));
    assert(x[k] != y[k]);
}

} // verus!
