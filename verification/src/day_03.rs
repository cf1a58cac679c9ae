//! Rucksack items: finding the item common to both compartments, the badge
//! common to a group of three packs, and item priorities.

use vstd::prelude::*;
use vstd::string::StringSliceAdditionalSpecFns;

verus! {

/// `b` occurs in `s`.
pub open spec fn occurs(s: Seq<u8>, b: u8) -> bool {
    exists|i: int| 0 <= i < s.len() && s[i] == b
}

/// Whether `needle` occurs in `hay`.
fn contains_byte(hay: &Vec<u8>, needle: u8) -> (r: bool)
    ensures
        r == occurs(hay@, needle),
{
    let mut i: usize = 0;
    while i < hay.len()
        invariant
            0 <= i <= hay@.len(),
            forall|k: int| 0 <= k < i ==> #[trigger] hay@[k] != needle,
        decreases hay@.len() - i,
    {
        if hay[i] == needle {
            proof {
                assert(hay@[i as int] == needle);
            }
            return true;
        }
        i = i + 1;
    }
    false
}

/// Finds an item that sits in both halves of the rucksack: the first byte
/// of the first half that also occurs in the second half.  `None` exactly
/// when the halves share nothing.
pub fn shared_item(rucksack: &str) -> (r: Option<u8>)
    requires
        rucksack.is_ascii(),
    ensures
        ({
            let s = rucksack.spec_bytes();
            let mid = s.len() as int / 2;
            match r {
                Some(b) => occurs(s.take(mid), b) && occurs(s.skip(mid), b),
                None => forall|b: u8| !(occurs(s.take(mid), b) && occurs(s.skip(mid), b)),
            }
        }),
{
    let bytes = rucksack.as_bytes_vec();
    let mid = bytes.len() / 2;
    let ghost s = rucksack.spec_bytes();
    let mut second: Vec<u8> = Vec::new();
    let mut j: usize = mid;
    while j < bytes.len()
        invariant
            mid <= j <= s.len(),
            mid == s.len() as int / 2,
            s == rucksack.spec_bytes(),
            bytes@ == s,
            second@ =~= s.subrange(mid as int, j as int),
        decreases s.len() - j,
    {
        second.push(bytes[j]);
        j = j + 1;
    }
    proof {
        assert(second@ =~= s.skip(mid as int));
    }
    let mut i: usize = 0;
    while i < mid
        invariant
            0 <= i <= mid,
            mid == s.len() as int / 2,
            mid <= s.len(),
            s == rucksack.spec_bytes(),
            bytes@ == s,
            second@ == s.skip(mid as int),
            forall|k: int| 0 <= k < i ==> !occurs(s.skip(mid as int), #[trigger] s[k]),
        decreases mid - i,
    {
        let b = bytes[i];
        if contains_byte(&second, b) {
            proof {
                assert(s.take(mid as int)[i as int] == b);
                assert(occurs(s.take(mid as int), b));
                assert(occurs(s.skip(mid as int), b));
            }
            return Some(b);
        }
        i = i + 1;
    }
    proof {
        assert forall|b: u8| !(occurs(s.take(mid as int), b) && occurs(
            s.skip(mid as int),
            b,
        )) by {
            if occurs(s.take(mid as int), b) {
                let k = choose|k: int| 0 <= k < s.take(mid as int).len() && s.take(mid as int)[k]
                    == b;
                assert(s[k] == b);
                assert(!occurs(s.skip(mid as int), s[k]));
            }
        }
    }
    None
}

/// Finds the badge carried by all three elves: the first byte of the first
/// pack that occurs in the second and third packs too.  `None` exactly when
/// no item is common to all three.
pub fn badge_item(first_elf: &str, second_elf: &str, third_elf: &str) -> (r: Option<u8>)
    requires
        first_elf.is_ascii(),
        second_elf.is_ascii(),
        third_elf.is_ascii(),
    ensures
        ({
            let a = first_elf.spec_bytes();
            let b = second_elf.spec_bytes();
            let c = third_elf.spec_bytes();
            match r {
                Some(x) => occurs(a, x) && occurs(b, x) && occurs(c, x),
                None => forall|x: u8| !(occurs(a, x) && occurs(b, x) && occurs(c, x)),
            }
        }),
{
    let a = first_elf.as_bytes_vec();
    let b = second_elf.as_bytes_vec();
    let c = third_elf.as_bytes_vec();
    let mut i: usize = 0;
    while i < a.len()
        invariant
            0 <= i <= a@.len(),
            a@ == first_elf.spec_bytes(),
            b@ == second_elf.spec_bytes(),
            c@ == third_elf.spec_bytes(),
            forall|k: int| 0 <= k < i ==> !(occurs(b@, #[trigger] a@[k]) && occurs(c@, a@[k])),
        decreases a@.len() - i,
    {
        let x = a[i];
        if contains_byte(&b, x) && contains_byte(&c, x) {
            proof {
                assert(a@[i as int] == x);
            }
            return Some(x);
        }
        i = i + 1;
    }
    proof {
        assert forall|x: u8| !(occurs(a@, x) && occurs(b@, x) && occurs(c@, x)) by {
            if occurs(a@, x) {
                let k = choose|k: int| 0 <= k < a@.len() && a@[k] == x;
            }
        }
    }
    None
}

/// The priority of an item: lowercase items score 1 through 26, uppercase
/// items 27 through 52.
pub fn priority(chr: u8) -> (p: usize)
    requires
        (65 <= chr <= 90) || (97 <= chr <= 122),
    ensures
        97 <= chr <= 122 ==> p == chr - 96,
        65 <= chr <= 90 ==> p == chr - 38,
{
    if chr > 96 {
        (chr - 96) as usize
    } else {
        (chr - 38) as usize
    }
}

} // verus!
