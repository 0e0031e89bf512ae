//! Participants and the closed set of roles they may queue for.

use vstd::prelude::*;

verus! {

/// The closed set of roles that form a group.
#[derive(Clone, Copy, PartialEq, Eq, Structural, Debug)]
pub enum Roles {
    Tank,
    Healer,
    DPS,
}

/// A waiting participant: an opaque stable identity plus a display label.
/// The queue engine never mutates a participant; it only stores and returns it.
pub struct Participant {
    pub id: u64,
    pub label: String,
}

/// The Unicode scalar value of `c` with an ASCII upper-case letter folded to
/// its lower-case counterpart; every other character is left as it is.
pub open spec fn lower_val(c: char) -> int {
    if 'A' <= c && c <= 'Z' {
        c as int + 32
    } else {
        c as int
    }
}

/// `s` equals `name` up to ASCII case, where `name` is already lower case.
pub open spec fn matches_ignore_case(s: Seq<char>, name: Seq<char>) -> bool {
    &&& s.len() == name.len()
    &&& forall|i: int| 0 <= i < s.len() ==> lower_val(s[i]) == #[trigger] name[i] as int
}

/// The role named by `s`, matched case-insensitively against the configured
/// role names, or `None` if `s` names no role.
pub open spec fn role_of_name(s: Seq<char>) -> Option<Roles> {
    if matches_ignore_case(s, "tank"@) {
        Some(Roles::Tank)
    } else if matches_ignore_case(s, "healer"@) {
        Some(Roles::Healer)
    } else if matches_ignore_case(s, "dps"@) {
        Some(Roles::DPS)
    } else {
        None
    }
}

/// Whether `c` case-folds (ASCII) to the lower-case character `l`.
fn char_matches_lower(c: char, l: char) -> (b: bool)
    ensures
        b == (lower_val(c) == l as int),
{
    let cu: u32 = c as u32;
    let lu: u32 = l as u32;
    let folded: u32 = if 65 <= cu && cu <= 90 {
        cu + 32
    } else {
        cu
    };
    folded == lu
}

/// Whether `s` equals the lower-case name `name` up to ASCII case.
fn str_matches_ignore_case(s: &str, name: &str) -> (b: bool)
    ensures
        b == matches_ignore_case(s@, name@),
{
    let n: usize = s.unicode_len();
    if n != name.unicode_len() {
        return false;
    }
    let mut i: usize = 0;
    while i < n
        invariant
            0 <= i <= n,
            n == s@.len(),
            n == name@.len(),
            forall|j: int| 0 <= j < i ==> lower_val(s@[j]) == #[trigger] name@[j] as int,
        decreases n - i,
    {
        if !char_matches_lower(s.get_char(i), name.get_char(i)) {
            return false;
        }
        i = i + 1;
    }
    true
}

/// Parses a role name, case-insensitively: "tank", "healer" or "dps" in any
/// mix of case name a role; anything else is rejected.
pub fn string_to_role(role_str: String) -> (r: Option<Roles>)
    ensures
        r == role_of_name(role_str@),
{
    let s: &str = role_str.as_str();
    if str_matches_ignore_case(s, "tank") {
        Some(Roles::Tank)
    } else if str_matches_ignore_case(s, "healer") {
        Some(Roles::Healer)
    } else if str_matches_ignore_case(s, "dps") {
        Some(Roles::DPS)
    } else {
        None
    }
}

} // verus!
