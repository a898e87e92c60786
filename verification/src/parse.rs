//! Parsing and validation of command-line values: `key=value` restriction
//! arguments and `+controller` flags, and the controller a restriction key
//! belongs to.

use crate::text::{find_byte, has_byte, index_of_byte, lemma_index_of_byte, slice_to_vec, DOT,
    EQUALS, PLUS};
use vstd::prelude::*;

verus! {

/// Why a `key=value` restriction argument was rejected.
#[derive(Debug, Clone, Copy, PartialEq, Eq, Structural)]
pub enum KeyValueError {
    /// No `=` separator.
    MissingEquals,
    /// The key holds a byte outside lower-case letters, `_` and `.`.
    InvalidKeyChar,
    /// The key is not of the `controller.attribute` form: it has no `.`.
    MissingDot,
}

/// Why a controller flag was rejected.
#[derive(Debug, Clone, Copy, PartialEq, Eq, Structural)]
pub enum ControllerFlagError {
    /// Controllers may only be enabled for now: the flag did not start with
    /// `+`, as in `+cpu`.
    OnlyEnableSupported,
}

/// A controller named on the command line, with the requested polarity.
/// Only enabling is supported, so `enable` always holds.
#[derive(Debug, Clone)]
pub struct ControllerFlag {
    pub name: Vec<u8>,
    pub enable: bool,
}

/// Holds for the bytes a restriction key may contain: `_`, `.`, `a`
/// through `z`.
pub open spec fn key_char_ok(b: u8) -> bool {
    b == 95 || b == DOT || (97 <= b <= 122)
}

/// Holds when every byte of `s` may stand in a restriction key.
pub open spec fn all_key_chars(s: Seq<u8>) -> bool {
    forall|i: int| 0 <= i < s.len() ==> key_char_ok(#[trigger] s[i])
}

/// Says whether `b` may stand in a restriction key.
fn key_char(b: u8) -> (r: bool)
    ensures
        r == key_char_ok(b),
{
    b == 95 || b == DOT || (97 <= b && b <= 122)
}

/// Parses a `key=value` restriction argument. The key is everything before
/// the first `=`, the value everything after it, kept verbatim. The key
/// must consist of lower-case letters, `_` and `.`, and must name a
/// controller attribute, so it must contain a `.`.
pub fn parse_key_value(input: &[u8]) -> (r: Result<(Vec<u8>, Vec<u8>), KeyValueError>)
    ensures
        ({
            let e = index_of_byte(input@, EQUALS);
            match r {
                Result::Ok(kv) => has_byte(input@, EQUALS) && kv.0@ == input@.take(e) && kv.1@
                    == input@.skip(e + 1) && all_key_chars(kv.0@) && has_byte(kv.0@, DOT),
                Result::Err(KeyValueError::MissingEquals) => !has_byte(input@, EQUALS),
                Result::Err(KeyValueError::InvalidKeyChar) => has_byte(input@, EQUALS)
                    && !all_key_chars(input@.take(e)),
                Result::Err(KeyValueError::MissingDot) => has_byte(input@, EQUALS)
                    && all_key_chars(input@.take(e)) && !has_byte(input@.take(e), DOT),
            }
        }),
{
    proof {
        lemma_index_of_byte(input@, EQUALS);
    }
    let e = find_byte(input, EQUALS);
    if e == input.len() {
        return Result::Err(KeyValueError::MissingEquals);
    }
    let mut key: Vec<u8> = Vec::new();
    let mut i: usize = 0;
    while i < e
        invariant
            i <= e <= input@.len(),
            e < input@.len(),
            e as int == index_of_byte(input@, EQUALS),
            has_byte(input@, EQUALS),
            key@ == input@.subrange(0, i as int),
            forall|m: int| 0 <= m < i ==> key_char_ok(#[trigger] input@[m]),
        decreases e - i,
    {
        let b = input[i];
        if !key_char(b) {
            proof {
                assert(input@.take(e as int)[i as int] == b);
            }
            return Result::Err(KeyValueError::InvalidKeyChar);
        }
        key.push(b);
        proof {
            assert(key@ =~= input@.subrange(0, i + 1));
        }
        i += 1;
    }
    proof {
        assert(key@ =~= input@.take(e as int));
        assert forall|m: int| 0 <= m < key@.len() implies key_char_ok(key@[m]) by {
            assert(key@[m] == input@[m]);
        }
    }
    let d = find_byte(key.as_slice(), DOT);
    proof {
        lemma_index_of_byte(key@, DOT);
    }
    if d == key.len() {
        return Result::Err(KeyValueError::MissingDot);
    }
    let mut value: Vec<u8> = Vec::new();
    let mut j: usize = e + 1;
    while j < input.len()
        invariant
            e + 1 <= j <= input@.len(),
            value@ == input@.subrange(e + 1, j as int),
        decreases input@.len() - j,
    {
        let b = input[j];
        value.push(b);
        proof {
            assert(value@ =~= input@.subrange(e + 1, j + 1));
        }
        j += 1;
    }
    proof {
        assert(value@ =~= input@.skip(e + 1));
    }
    Result::Ok((key, value))
}

/// Parses a controller flag: `+` followed by the controller name enables
/// that controller; anything else is rejected, since disabling is not
/// supported.
pub fn parse_controller_flag(input: &[u8]) -> (r: Result<ControllerFlag, ControllerFlagError>)
    ensures
        match r {
            Result::Ok(f) => input@.len() > 0 && input@[0] == PLUS && f.name@ == input@.skip(1)
                && f.enable,
            Result::Err(_) => input@.len() == 0 || input@[0] != PLUS,
        },
{
    if input.len() == 0 || input[0] != PLUS {
        return Result::Err(ControllerFlagError::OnlyEnableSupported);
    }
    let mut name: Vec<u8> = Vec::new();
    let mut i: usize = 1;
    while i < input.len()
        invariant
            1 <= i <= input@.len(),
            name@ == input@.subrange(1, i as int),
        decreases input@.len() - i,
    {
        let b = input[i];
        name.push(b);
        proof {
            assert(name@ =~= input@.subrange(1, i + 1));
        }
        i += 1;
    }
    proof {
        assert(name@ =~= input@.skip(1));
    }
    Result::Ok(ControllerFlag { name, enable: true })
}

/// The controller a restriction key belongs to: the prefix of the key up to
/// its first `.`, or the whole key when it has none.
pub fn restriction_controller(key: &[u8]) -> (r: Vec<u8>)
    ensures
        r@ == key@.take(index_of_byte(key@, DOT)),
{
    proof {
        lemma_index_of_byte(key@, DOT);
    }
    let d = find_byte(key, DOT);
    let mut r: Vec<u8> = Vec::new();
    let mut i: usize = 0;
    while i < d
        invariant
            i <= d <= key@.len(),
            r@ == key@.subrange(0, i as int),
        decreases d - i,
    {
        let b = key[i];
        r.push(b);
        proof {
            assert(r@ =~= key@.subrange(0, i + 1));
        }
        i += 1;
    }
    proof {
        assert(r@ =~= key@.take(index_of_byte(key@, DOT)));
    }
    r
}

} // verus!
