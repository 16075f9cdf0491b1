//! The file name under which a record is kept: its key in lower-case
//! hexadecimal digits, two for each byte, the high half first.
//!
//! Different keys have different names, and a name is read back only if it is
//! the name of a key.

use vstd::prelude::*;

verus! {

/// The digit for a value below sixteen: `0` to `9`, then `a` to `f`.
pub open spec fn digit_of(value: u8) -> u8 {
    if value < 10 {
        (48 + value) as u8
    } else {
        (87 + value) as u8
    }
}

/// The value of a digit, if it is one.
pub open spec fn value_of(digit: u8) -> Option<u8> {
    if 48 <= digit <= 57 {
        Some((digit - 48) as u8)
    } else if 97 <= digit <= 102 {
        Some((digit - 87) as u8)
    } else {
        None
    }
}

/// The name of a key.
pub open spec fn name_of(key: Seq<u8>) -> Seq<u8> {
    Seq::new(
        2 * key.len(),
        |i: int|
            if i % 2 == 0 {
                digit_of(key[i / 2] / 16)
            } else {
                digit_of(key[i / 2] % 16)
            },
    )
}

/// The name is made of digits, two for each byte.
pub open spec fn is_name(name: Seq<u8>) -> bool {
    &&& name.len() % 2 == 0
    &&& forall|i: int| 0 <= i < name.len() ==> value_of(#[trigger] name[i]) is Some
}

/// The key that a name stands for; nothing where it is no name.
pub open spec fn key_of(name: Seq<u8>) -> Option<Seq<u8>> {
    if is_name(name) {
        Some(
            Seq::new(
                name.len() / 2,
                |i: int| (16 * value_of(name[2 * i])->Some_0 + value_of(name[2 * i + 1])->Some_0) as u8,
            ),
        )
    } else {
        None
    }
}

/// The name of a key stands for that key.
pub proof fn lemma_name_round_trip(key: Seq<u8>)
    ensures
        key_of(name_of(key)) == Some(key),
{
    let name = name_of(key);
    assert forall|i: int| 0 <= i < name.len() implies value_of(#[trigger] name[i]) is Some by {
        let byte = key[i / 2];
        assert(byte / 16 < 16 && byte % 16 < 16);
    }
    assert(key_of(name)->Some_0 =~= key) by {
        assert forall|i: int| 0 <= i < key.len() implies key_of(name)->Some_0[i] == key[i] by {
            let byte = key[i];
            assert((2 * i) / 2 == i && (2 * i) % 2 == 0);
            assert((2 * i + 1) / 2 == i && (2 * i + 1) % 2 == 1);
            assert(byte / 16 < 16 && byte % 16 < 16);
            assert(16 * (byte / 16) + byte % 16 == byte);
        }
    }
}

/// A name stands for a key only if it is the name of that key: no key has
/// two names.
pub proof fn lemma_name_canonical(name: Seq<u8>, key: Seq<u8>)
    requires
        key_of(name) == Some(key),
    ensures
        name_of(key) == name,
{
    assert(name_of(key) =~= name) by {
        assert forall|i: int| 0 <= i < name.len() implies name_of(key)[i] == name[i] by {
            let k = i / 2;
            let high = value_of(name[2 * k])->Some_0;
            let low = value_of(name[2 * k + 1])->Some_0;
            assert(value_of(name[2 * k]) is Some);
            assert(value_of(name[2 * k + 1]) is Some);
            assert(high < 16 && low < 16);
            assert(key[k] == 16 * high + low);
            assert((16 * high + low) / 16 == high && (16 * high + low) % 16 == low);
            if i % 2 == 0 {
                assert(i == 2 * k);
            } else {
                assert(i == 2 * k + 1);
            }
        }
    }
}

/// The digit for `value`.
fn digit(value: u8) -> (d: u8)
    requires
        value < 16,
    ensures
        d == digit_of(value),
{
    if value < 10 {
        48 + value
    } else {
        87 + value
    }
}

/// The value of `digit`, if it is a digit.
fn value(digit: u8) -> (v: Option<u8>)
    ensures
        v == value_of(digit),
        v is Some ==> v->Some_0 < 16,
{
    if 48 <= digit && digit <= 57 {
        Some(digit - 48)
    } else if 97 <= digit && digit <= 102 {
        Some(digit - 87)
    } else {
        None
    }
}

/// The file name of the record with the key `key`. Reading the name gives
/// the key back.
pub fn file_name(key: &[u8]) -> (name: Vec<u8>)
    ensures
        name@ == name_of(key@),
        key_of(name@) == Some(key@),
{
    let mut name: Vec<u8> = Vec::new();
    let mut i: usize = 0;
    while i < key.len()
        invariant
            i <= key@.len(),
            name@.len() == 2 * i,
            forall|j: int| 0 <= j < 2 * i ==> name@[j] == name_of(key@)[j],
        decreases key@.len() - i,
    {
        let byte: u8 = key[i];
        name.push(digit(byte / 16));
        name.push(digit(byte % 16));
        proof {
            assert((2 * i) / 2 == i && (2 * i) % 2 == 0);
            assert((2 * i + 1) / 2 == i && (2 * i + 1) % 2 == 1);
        }
        i += 1;
    }
    proof {
        assert(name@ =~= name_of(key@));
        lemma_name_round_trip(key@);
    }
    name
}

/// The key that the file name `name` stands for, if it is the name of one.
pub fn parse_file_name(name: &[u8]) -> (key: Option<Vec<u8>>)
    ensures
        match key {
            Some(k) => key_of(name@) == Some(k@) && name_of(k@) == name@,
            None => key_of(name@) is None,
        },
{
    if name.len() % 2 != 0 {
        return None;
    }
    let mut key: Vec<u8> = Vec::new();
    let mut i: usize = 0;
    while i < name.len() / 2
        invariant
            name@.len() % 2 == 0,
            i <= name@.len() / 2,
            key@.len() == i,
            forall|j: int| 0 <= j < 2 * i ==> value_of(#[trigger] name@[j]) is Some,
            forall|j: int|
                0 <= j < i ==> key@[j] == (16 * value_of(name@[2 * j])->Some_0 + value_of(
                    name@[2 * j + 1],
                )->Some_0) as u8,
        decreases name@.len() / 2 - i,
    {
        let high = match value(name[2 * i]) {
            Some(v) => v,
            None => { return None; },
        };
        let low = match value(name[2 * i + 1]) {
            Some(v) => v,
            None => { return None; },
        };
        key.push(16 * high + low);
        i += 1;
    }
    proof {
        assert(is_name(name@));
        assert(key@ =~= key_of(name@)->Some_0);
        lemma_name_canonical(name@, key@);
    }
    Some(key)
}

} // verus!
