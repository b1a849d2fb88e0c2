//! Names of groups and parameters: byte strings that are told apart without
//! regard to the case of ASCII letters.

use vstd::prelude::*;

verus! {

/// The longest name that the signed length byte of a record can announce.
pub const MAX_NAME_LEN: usize = 127;

/// `b` with an ASCII lower-case letter replaced by its upper-case form.
pub open spec fn upper(b: u8) -> u8 {
    if 97 <= b <= 122 {
        (b - 32) as u8
    } else {
        b
    }
}

/// `name` with every ASCII letter in upper case.
pub open spec fn folded(name: Seq<u8>) -> Seq<u8> {
    Seq::new(name.len(), |i: int| upper(name[i]))
}

/// Whether two names are the same but for the case of their letters.
pub open spec fn same_name(a: Seq<u8>, b: Seq<u8>) -> bool {
    folded(a) == folded(b)
}

/// Whether a name can stand in a record: between 1 and 127 bytes.
pub open spec fn valid_name(name: Seq<u8>) -> bool {
    1 <= name.len() <= MAX_NAME_LEN
}

/// Compares two names without regard to the case of their letters.
pub fn names_match(a: &[u8], b: &[u8]) -> (same: bool)
    ensures
        same == same_name(a@, b@),
{
    if a.len() != b.len() {
        assert(folded(a@).len() != folded(b@).len());
        return false;
    }
    let mut i: usize = 0;
    while i < a.len()
        invariant
            a.len() == b.len(),
            i <= a.len(),
            forall|k: int| 0 <= k < i ==> upper(a@[k]) == upper(b@[k]),
        decreases a.len() - i,
    {
        let x: u8 = a[i];
        let y: u8 = b[i];
        let ux: u8 = if 97 <= x && x <= 122 { x - 32 } else { x };
        let uy: u8 = if 97 <= y && y <= 122 { y - 32 } else { y };
        if ux != uy {
            assert(folded(a@)[i as int] != folded(b@)[i as int]);
            return false;
        }
        i += 1;
    }
    assert(folded(a@) =~= folded(b@));
    true
}

} // verus!
