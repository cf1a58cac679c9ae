//! Calorie counting: the input lists numbers, one per line, in groups
//! separated by blank lines; each group's sum is one elf's load.

use vstd::prelude::*;
use vstd::string::StringSliceAdditionalSpecFns;
use crate::text::{all_digits, digits_val, joined, sep_free};

verus! {

/// The per-group sums of the lines `ps`: a blank line starts a new group,
/// every other line adds its decimal value to the current group.
pub open spec fn elf_sums(ps: Seq<Seq<u8>>) -> Seq<int>
    decreases ps.len(),
{
    if ps.len() == 0 {
        seq![0int]
    } else {
        let rest = elf_sums(ps.drop_last());
        if ps.last().len() == 0 {
            rest.push(0int)
        } else {
            rest.update(rest.len() - 1, rest.last() + digits_val(ps.last()))
        }
    }
}

proof fn lemma_elf_sums_nonempty(ps: Seq<Seq<u8>>)
    ensures
        elf_sums(ps).len() >= 1,
    decreases ps.len(),
{
    if ps.len() > 0 {
        lemma_elf_sums_nonempty(ps.drop_last());
    }
}

/// Parses the calorie list into one total per elf, in input order: the
/// exact group sums.  Failure means the input was not ASCII, or some
/// non-blank line is not a decimal number that fits the total type, or
/// some elf's running total overflows.
#[verifier::rlimit(30)]
pub fn parse_calories(input: &str) -> (r: Option<Vec<u64>>)
    ensures
        match r {
            Some(v) => exists|ps: Seq<Seq<u8>>|
                {
                    &&& #[trigger] joined(ps, 10) == input.spec_bytes()
                    &&& sep_free(ps, 10)
                    &&& v@.len() == elf_sums(ps).len()
                    &&& forall|k: int| 0 <= k < v@.len() ==> (#[trigger] v@[k]) == elf_sums(ps)[k]
                },
            None => !input.is_ascii() || exists|ps: Seq<Seq<u8>>|
                {
                    &&& #[trigger] joined(ps, 10) == input.spec_bytes()
                    &&& sep_free(ps, 10)
                    &&& ((exists|i: int|
                        0 <= i < ps.len() && (#[trigger] ps[i]).len() >= 1 && !(all_digits(ps[i])
                            && digits_val(ps[i]) <= u64::MAX)) || (exists|j: int|
                        0 <= j <= ps.len() && elf_sums(#[trigger] ps.take(j)).last()
                            > u64::MAX))
                },
        },
{
    if !input.is_ascii() {
        return None;
    }
    let bytes = input.as_bytes_vec();
    let lines = crate::text::split(&bytes, 10);
    let ghost ps = lines@.map_values(|p: Vec<u8>| p@);
    let mut out: Vec<u64> = Vec::new();
    out.push(0);
    let mut i: usize = 0;
    proof {
        assert(ps.take(0) =~= Seq::<Seq<u8>>::empty());
        assert(out@.len() == 1);
        assert(out@[0] == 0);
        assert(elf_sums(ps.take(0)) =~= seq![0int]);
    }
    while i < lines.len()
        invariant
            0 <= i <= lines@.len(),
            ps == lines@.map_values(|p: Vec<u8>| p@),
            joined(ps, 10) == input.spec_bytes(),
            sep_free(ps, 10),
            out@.len() == elf_sums(ps.take(i as int)).len(),
            out@.len() >= 1,
            forall|k: int|
                0 <= k < out@.len() ==> (#[trigger] out@[k]) == elf_sums(ps.take(i as int))[k],
        decreases lines@.len() - i,
    {
        let line = &lines[i];
        proof {
            assert(ps[i as int] == lines@[i as int]@);
            assert(ps.take(i + 1).drop_last() =~= ps.take(i as int));
            assert(ps.take(i + 1).last() == ps[i as int]);
        }
        if line.len() == 0 {
            out.push(0);
        } else {
            let n = match crate::text::parse_u64(line) {
                Some(n) => n,
                None => {
                    proof {
                        assert(ps[i as int].len() >= 1 && !(all_digits(ps[i as int])
                            && digits_val(ps[i as int]) <= u64::MAX));
                    }
                    return None;
                },
            };
            let last = out[out.len() - 1];
            if last > u64::MAX - n {
                proof {
                    lemma_elf_sums_nonempty(ps.take(i as int));
                    assert(elf_sums(ps.take(i + 1)).last() > u64::MAX) by {
                        assert(ps.take(i + 1).drop_last() =~= ps.take(i as int));
                        assert(ps.take(i + 1).last() == ps[i as int]);
                        assert(elf_sums(ps.take(i as int)).last() == last);
                    }
                }
                return None;
            }
            let ghost out0 = out@;
            let idx = out.len() - 1;
            out.set(idx, last + n);
            proof {
                assert(out@ =~= out0.update(out0.len() - 1, (last + n) as u64));
            }
        }
        i = i + 1;
    }
    proof {
        assert(ps.take(ps.len() as int) =~= ps);
    }
    Some(out)
}

} // verus!
