//! Service-name and command validity: the byte-level rules that a name or a
//! shell command must satisfy before it may enter the registry, and the
//! normalization applied to user-supplied names.

use vstd::prelude::*;

verus! {

/// Bytes allowed in a service name: ASCII letters, digits, `_` and `-`.
pub open spec fn is_word_byte(b: u8) -> bool {
    (97 <= b && b <= 122)
        || (65 <= b && b <= 90)
        || (48 <= b && b <= 57)
        || b == 95
        || b == 45
}

/// A valid name is a non-empty run of word bytes.
pub open spec fn valid_name(s: Seq<u8>) -> bool {
    s.len() > 0 && forall|i: int| 0 <= i < s.len() ==> is_word_byte(s[i])
}

/// A valid command is non-empty and holds no newline, so that it fits on one
/// record line of the registry file.
pub open spec fn valid_command(s: Seq<u8>) -> bool {
    s.len() > 0 && forall|i: int| 0 <= i < s.len() ==> s[i] != 10
}

/// Names longer than this are rejected before they reach the registry.
pub const MAX_NAME_LEN: usize = 15;

/// How a single byte of a user-supplied name is normalized: spaces become
/// `-`, ASCII upper case becomes lower case, everything else is kept.
pub open spec fn normalize_byte(b: u8) -> u8 {
    if b == 32 {
        45
    } else if 65 <= b && b <= 90 {
        (b + 32) as u8
    } else {
        b
    }
}

/// Replaces every space with `-` and lowercases ASCII letters, as the
/// command line front end does before validating a name.
pub fn normalize_name(raw: &Vec<u8>) -> (r: Vec<u8>)
    ensures
        r@.len() == raw@.len(),
        forall|i: int| 0 <= i < raw@.len() ==> r@[i] == normalize_byte(raw@[i]),
{
    let mut out: Vec<u8> = Vec::new();
    let mut i: usize = 0;
    while i < raw.len()
        invariant
            i <= raw.len(),
            out@.len() == i,
            forall|j: int| 0 <= j < i ==> out@[j] == normalize_byte(raw@[j]),
        decreases raw.len() - i,
    {
        let b = raw[i];
        if b == 32 {
            out.push(45);
        } else if 65 <= b && b <= 90 {
            out.push(b + 32);
        } else {
            out.push(b);
        }
        i += 1;
    }
    out
}

/// Exec check for `is_word_byte`.
pub fn word_byte(b: u8) -> (r: bool)
    ensures
        r == is_word_byte(b),
{
    (97 <= b && b <= 122)
        || (65 <= b && b <= 90)
        || (48 <= b && b <= 57)
        || b == 95
        || b == 45
}

/// True exactly when `name` is a valid service name that is short enough to
/// be accepted by the front end.
pub fn check_name(name: &Vec<u8>) -> (r: bool)
    ensures
        r == (valid_name(name@) && name@.len() <= MAX_NAME_LEN),
{
    if name.len() == 0 || name.len() > MAX_NAME_LEN {
        return false;
    }
    let mut i: usize = 0;
    while i < name.len()
        invariant
            i <= name.len(),
            forall|j: int| 0 <= j < i ==> is_word_byte(name@[j]),
        decreases name.len() - i,
    {
        if !word_byte(name[i]) {
            return false;
        }
        i += 1;
    }
    true
}

/// True exactly when `command` may be embedded in a record line.
pub fn check_command(command: &Vec<u8>) -> (r: bool)
    ensures
        r == valid_command(command@),
{
    if command.len() == 0 {
        return false;
    }
    let mut i: usize = 0;
    while i < command.len()
        invariant
            i <= command.len(),
            forall|j: int| 0 <= j < i ==> command@[j] != 10,
        decreases command.len() - i,
    {
        if command[i] == 10 {
            return false;
        }
        i += 1;
    }
    true
}

} // verus!
