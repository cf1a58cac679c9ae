//! Section assignments: inclusive ranges of section numbers, and the two
//! overlap tests used to compare a pair of elves.

use vstd::prelude::*;
use vstd::string::StringSliceAdditionalSpecFns;
use crate::text::{all_digits, digits_val, joined, sep_free};

verus! {

/// An inclusive range of section numbers.
#[derive(Clone, Copy, Debug, PartialEq, Eq, Structural)]
pub struct Assignment {
    pub start: u64,
    pub end: u64,
}

/// `lo` and `hi` joined by the given separator byte.
pub open spec fn sep_joined(lo: Seq<u8>, hi: Seq<u8>, sep: u8) -> Seq<u8> {
    lo + seq![sep] + hi
}

/// `piece` spells `a` as two decimal numbers joined by a dash.
pub open spec fn reads_assignment(piece: Seq<u8>, a: Assignment) -> bool {
    exists|lo: Seq<u8>, hi: Seq<u8>|
        {
            &&& #[trigger] sep_joined(lo, hi, 45) == piece
            &&& all_digits(lo) && lo.len() >= 1
            &&& all_digits(hi) && hi.len() >= 1
            &&& a.start == digits_val(lo)
            &&& a.end == digits_val(hi)
        }
}

/// `piece` spells some assignment: two dash-joined decimal numbers whose
/// values fit the section type.
pub open spec fn spells_assignment(piece: Seq<u8>) -> bool {
    exists|a: Assignment| #[trigger] reads_assignment(piece, a)
}

/// The two halves of a spelled assignment hold only digits and the dash.
proof fn lemma_assignment_bytes(piece: Seq<u8>)
    requires
        spells_assignment(piece),
    ensures
        forall|i: int| 0 <= i < piece.len() ==> 45 <= #[trigger] piece[i] <= 57,
{
    let a = choose|a: Assignment| #[trigger] reads_assignment(piece, a);
    let (lo, hi) = choose|lo: Seq<u8>, hi: Seq<u8>|
        {
            &&& #[trigger] sep_joined(lo, hi, 45) == piece
            &&& all_digits(lo) && lo.len() >= 1
            &&& all_digits(hi) && hi.len() >= 1
            &&& a.start == digits_val(lo)
            &&& a.end == digits_val(hi)
        };
    assert forall|i: int| 0 <= i < piece.len() implies 45 <= #[trigger] piece[i] <= 57 by {
        if i < lo.len() {
            assert(piece[i] == lo[i]);
            assert(crate::text::is_digit(lo[i]));
        } else if i == lo.len() {
            assert(piece[i] == 45);
        } else {
            assert(piece[i] == hi[i - lo.len() - 1]);
            assert(crate::text::is_digit(hi[i - lo.len() - 1]));
        }
    }
}

/// A spelled assignment splits on the dash into exactly its two digit
/// halves: any other split is impossible.
proof fn lemma_assignment_split(piece: Seq<u8>, parts: Seq<Seq<u8>>)
    requires
        spells_assignment(piece),
        parts.len() >= 1,
        joined(parts, 45) == piece,
        sep_free(parts, 45),
    ensures
        parts.len() == 2,
        all_digits(parts[0]) && parts[0].len() >= 1,
        all_digits(parts[1]) && parts[1].len() >= 1,
        digits_val(parts[0]) <= u64::MAX,
        digits_val(parts[1]) <= u64::MAX,
{
    let a = choose|a: Assignment| #[trigger] reads_assignment(piece, a);
    let (lo, hi) = choose|lo: Seq<u8>, hi: Seq<u8>|
        {
            &&& #[trigger] sep_joined(lo, hi, 45) == piece
            &&& all_digits(lo) && lo.len() >= 1
            &&& all_digits(hi) && hi.len() >= 1
            &&& a.start == digits_val(lo)
            &&& a.end == digits_val(hi)
        };
    let ps2 = seq![lo, hi];
    assert(joined(ps2, 45) == piece) by {
        assert(ps2.drop_first() =~= seq![hi]);
        assert(joined(ps2.drop_first(), 45) == hi);
        assert(joined(ps2, 45) =~= sep_joined(lo, hi, 45));
    }
    assert(sep_free(ps2, 45)) by {
        assert forall|k: int, i: int|
            0 <= k < ps2.len() && 0 <= i < ps2[k].len() implies #[trigger] ps2[k][i] != 45 by {
            if k == 0 {
                assert(crate::text::is_digit(lo[i]));
            } else {
                assert(crate::text::is_digit(hi[i]));
            }
        }
    }
    crate::text::lemma_joined_unique(parts, ps2, 45);
}

/// Parses one `a-b` piece given as raw bytes.  Succeeds exactly when the
/// piece spells an assignment.
fn parse_piece(piece: &Vec<u8>) -> (r: Option<Assignment>)
    ensures
        match r {
            Some(a) => reads_assignment(piece@, a),
            None => !spells_assignment(piece@),
        },
{
    let parts = crate::text::split(piece, 45);
    let ghost ps = parts@.map_values(|p: Vec<u8>| p@);
    if parts.len() != 2 {
        proof {
            if spells_assignment(piece@) {
                lemma_assignment_split(piece@, ps);
            }
        }
        return None;
    }
    proof {
        assert(ps =~= seq![parts@[0]@, parts@[1]@]);
        assert(ps.drop_first() =~= seq![parts@[1]@]);
        assert(joined(ps.drop_first(), 45) == parts@[1]@);
        assert(sep_joined(parts@[0]@, parts@[1]@, 45) =~= joined(ps, 45));
    }
    let lo = match crate::text::parse_u64(&parts[0]) {
        Some(n) => n,
        None => {
            proof {
                if spells_assignment(piece@) {
                    lemma_assignment_split(piece@, ps);
                }
            }
            return None;
        },
    };
    let hi = match crate::text::parse_u64(&parts[1]) {
        Some(n) => n,
        None => {
            proof {
                if spells_assignment(piece@) {
                    lemma_assignment_split(piece@, ps);
                }
            }
            return None;
        },
    };
    Some(Assignment { start: lo, end: hi })
}

/// Parses one assignment `a-b`.  A success names exactly the two numbers
/// the input spells; failure means the input is not ASCII or spells no
/// assignment.
pub fn parse_assignment(input: &str) -> (r: Option<Assignment>)
    ensures
        match r {
            Some(a) => reads_assignment(input.spec_bytes(), a),
            None => !input.is_ascii() || !spells_assignment(input.spec_bytes()),
        },
{
    if !input.is_ascii() {
        return None;
    }
    let bytes = input.as_bytes_vec();
    parse_piece(&bytes)
}

/// `bytes` spells a comma-joined pair of assignments.
pub open spec fn spells_pair(bytes: Seq<u8>) -> bool {
    exists|left: Seq<u8>, right: Seq<u8>|
        {
            &&& #[trigger] sep_joined(left, right, 44) == bytes
            &&& spells_assignment(left)
            &&& spells_assignment(right)
        }
}

/// A spelled pair splits on the comma into exactly its two assignments.
proof fn lemma_pair_split(bytes: Seq<u8>, parts: Seq<Seq<u8>>)
    requires
        spells_pair(bytes),
        parts.len() >= 1,
        joined(parts, 44) == bytes,
        sep_free(parts, 44),
    ensures
        parts.len() == 2,
        spells_assignment(parts[0]),
        spells_assignment(parts[1]),
{
    let (left, right) = choose|left: Seq<u8>, right: Seq<u8>|
        {
            &&& #[trigger] sep_joined(left, right, 44) == bytes
            &&& spells_assignment(left)
            &&& spells_assignment(right)
        };
    let ps2 = seq![left, right];
    assert(joined(ps2, 44) == bytes) by {
        assert(ps2.drop_first() =~= seq![right]);
        assert(joined(ps2.drop_first(), 44) == right);
        assert(joined(ps2, 44) =~= sep_joined(left, right, 44));
    }
    lemma_assignment_bytes(left);
    lemma_assignment_bytes(right);
    assert(sep_free(ps2, 44)) by {
        assert forall|k: int, i: int|
            0 <= k < ps2.len() && 0 <= i < ps2[k].len() implies #[trigger] ps2[k][i] != 44 by {
            if k == 0 {
                assert(45 <= left[i] <= 57);
            } else {
                assert(45 <= right[i] <= 57);
            }
        }
    }
    crate::text::lemma_joined_unique(parts, ps2, 44);
}

/// Parses a pair of assignments `a-b,c-d`.  Succeeds exactly on ASCII
/// input spelling such a pair.
pub fn parse_pair(input: &str) -> (r: Option<(Assignment, Assignment)>)
    ensures
        match r {
            Some((a, b)) => exists|left: Seq<u8>, right: Seq<u8>|
                {
                    &&& #[trigger] sep_joined(left, right, 44) == input.spec_bytes()
                    &&& reads_assignment(left, a)
                    &&& reads_assignment(right, b)
                },
            None => !input.is_ascii() || !spells_pair(input.spec_bytes()),
        },
{
    if !input.is_ascii() {
        return None;
    }
    let bytes = input.as_bytes_vec();
    let parts = crate::text::split(&bytes, 44);
    let ghost ps = parts@.map_values(|p: Vec<u8>| p@);
    if parts.len() != 2 {
        proof {
            if spells_pair(bytes@) {
                lemma_pair_split(bytes@, ps);
            }
        }
        return None;
    }
    proof {
        assert(ps =~= seq![parts@[0]@, parts@[1]@]);
        assert(ps.drop_first() =~= seq![parts@[1]@]);
        assert(joined(ps.drop_first(), 44) == parts@[1]@);
        assert(sep_joined(parts@[0]@, parts@[1]@, 44) =~= joined(ps, 44));
    }
    let first = match parse_piece(&parts[0]) {
        Some(a) => a,
        None => {
            proof {
                if spells_pair(bytes@) {
                    lemma_pair_split(bytes@, ps);
                }
            }
            return None;
        },
    };
    let second = match parse_piece(&parts[1]) {
        Some(a) => a,
        None => {
            proof {
                if spells_pair(bytes@) {
                    lemma_pair_split(bytes@, ps);
                }
            }
            return None;
        },
    };
    Some((first, second))
}

/// Whether one of the two ranges contains the other completely.
pub fn is_completely_overlapping(first: &Assignment, second: &Assignment) -> (r: bool)
    ensures
        r == ((first.start <= second.start && first.end >= second.end) || (first.start
            >= second.start && first.end <= second.end)),
{
    (first.start <= second.start && first.end >= second.end) || (first.start >= second.start
        && first.end <= second.end)
}

/// Whether the two ranges share at least one section.
pub fn has_any_overlap(first: &Assignment, second: &Assignment) -> (r: bool)
    ensures
        r == (first.start <= second.end && first.end >= second.start),
{
    first.start <= second.end && first.end >= second.start
}

} // verus!
