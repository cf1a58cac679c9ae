//! Stacks of crates moved by a crane: one crane moves crates one at a time
//! (reversing each batch), the other moves whole batches in order.

use vstd::prelude::*;
use vstd::string::StringSliceAdditionalSpecFns;
use crate::text::{all_digits, digits_val, joined};

verus! {

/// One crane order: move `count` crates from stack `from` to stack `to`.
#[derive(Clone, Copy, Debug, PartialEq, Eq, Structural)]
pub struct CraneMove {
    pub count: usize,
    pub from: usize,
    pub to: usize,
}

/// The stacks of crates, bottom first; crates are ASCII letters.
pub struct Stacks {
    pub inner: Vec<Vec<u8>>,
}

impl Stacks {
    /// Crates are printable ASCII and never the blank placeholder.
    pub open spec fn wf(&self) -> bool {
        forall|k: int, i: int|
            0 <= k < self.inner@.len() && 0 <= i < self.inner@[k]@.len() ==> 32 < (
            #[trigger] self.inner@[k]@[i]) < 127
    }

    /// Reads the crate drawing: lines of `[X]` cells four columns apart,
    /// bottom line (the stack numbers) ignored, read bottom-up.  Returns
    /// `None` when the drawing is not ASCII or ends without a numbers line.
    pub fn from_layout(input: &str) -> (r: Option<Self>)
        ensures
            match r {
                Some(s) => s.wf(),
                None => true,
            },
    {
        if !input.is_ascii() {
            return None;
        }
        let bytes = input.as_bytes_vec();
        let lines = crate::text::split(&bytes, 10);
        if lines.len() < 1 {
            return None;
        }
        let mut inner: Vec<Vec<u8>> = Vec::new();
        // Walk the crate lines bottom-up, skipping the numbers line.
        let mut r: usize = lines.len() - 1;
        while r > 0
            invariant
                0 <= r <= lines@.len() - 1,
                forall|k: int, i: int|
                    0 <= k < inner@.len() && 0 <= i < inner@[k]@.len() ==> 32 < (
                    #[trigger] inner@[k]@[i]) < 127,
            decreases r,
        {
            r = r - 1;
            let line = &lines[r];
            let mut index: usize = 0;
            let mut c: usize = 1;
            while c < line.len()
                invariant
                    forall|k: int, i: int|
                        0 <= k < inner@.len() && 0 <= i < inner@[k]@.len() ==> 32 < (
                        #[trigger] inner@[k]@[i]) < 127,
                    c >= 1,
                decreases line@.len() - c,
            {
                while index >= inner.len()
                    invariant
                        forall|k: int, i: int|
                            0 <= k < inner@.len() && 0 <= i < inner@[k]@.len() ==> 32 < (
                            #[trigger] inner@[k]@[i]) < 127,
                    decreases index + 1 - inner@.len(),
                {
                    inner.push(Vec::new());
                }
                let chr = line[c];
                if chr != 32 {
                    if chr <= 32 || chr >= 127 {
                        return None;
                    }
                    let ghost before = inner@;
                    let stack = &mut inner[index];
                    stack.push(chr);
                    proof {
                        assert forall|k: int, i: int|
                            0 <= k < inner@.len() && 0 <= i < inner@[k]@.len() implies 32 < (
                        #[trigger] inner@[k]@[i]) < 127 by {
                            if k != index {
                                assert(inner@[k] == before[k]);
                            }
                        }
                    }
                }
                index = index + 1;
                if line.len() - c <= 4 {
                    c = line.len();
                } else {
                    c = c + 4;
                }
            }
        }
        Some(Stacks { inner })
    }

    /// Moves `mv.count` crates one at a time: the batch arrives reversed.
    pub fn apply_move(&mut self, mv: CraneMove)
        requires
            mv.from < old(self).inner@.len(),
            mv.to < old(self).inner@.len(),
            mv.from != mv.to,
            mv.count <= old(self).inner@[mv.from as int]@.len(),
        ensures
            final(self).inner@.len() == old(self).inner@.len(),
            forall|k: int|
                0 <= k < old(self).inner@.len() && k != mv.from && k != mv.to
                    ==> final(self).inner@[k] == old(self).inner@[k],
            final(self).inner@[mv.from as int]@ == old(self).inner@[mv.from as int]@.take(
                old(self).inner@[mv.from as int]@.len() - mv.count,
            ),
            final(self).inner@[mv.to as int]@ == old(self).inner@[mv.to as int]@
                + old(self).inner@[mv.from as int]@.skip(
                old(self).inner@[mv.from as int]@.len() - mv.count,
            ).reverse(),
    {
        let ghost from0 = self.inner@[mv.from as int]@;
        let ghost to0 = self.inner@[mv.to as int]@;
        let from_len = self.inner[mv.from].len();
        let index = from_len - mv.count;
        let from_stack = &mut self.inner[mv.from];
        let containers = from_stack.split_off(index);
        let mut j: usize = containers.len();
        while j > 0
            invariant
                0 <= j <= containers@.len(),
                containers@ == from0.skip(from0.len() - mv.count as int),
                mv.to < self.inner@.len(),
                mv.from < self.inner@.len(),
                mv.from != mv.to,
                self.inner@.len() == old(self).inner@.len(),
                self.inner@[mv.from as int]@ == from0.take(from0.len() - mv.count as int),
                forall|k: int|
                    0 <= k < old(self).inner@.len() && k != mv.from && k != mv.to
                        ==> #[trigger] self.inner@[k] == old(self).inner@[k],
                self.inner@[mv.to as int]@ =~= to0 + containers@.skip(j as int).reverse(),
            decreases j,
        {
            j = j - 1;
            let ghost tos = self.inner@[mv.to as int]@;
            let crate_byte = containers[j];
            let to_stack = &mut self.inner[mv.to];
            to_stack.push(crate_byte);
            proof {
                assert(containers@.skip(j as int) =~= seq![containers@[j as int]] + containers@.skip(
                    j + 1,
                ));
                assert(containers@.skip(j as int).reverse() =~= containers@.skip(j + 1).reverse()
                    + seq![containers@[j as int]]);
                assert(self.inner@[mv.to as int]@ =~= tos.push(containers@[j as int]));
            }
        }
    }

    /// Moves `mv.count` crates as one batch: the batch keeps its order.
    pub fn apply_move_9001(&mut self, mv: CraneMove)
        requires
            mv.from < old(self).inner@.len(),
            mv.to < old(self).inner@.len(),
            mv.from != mv.to,
            mv.count <= old(self).inner@[mv.from as int]@.len(),
        ensures
            final(self).inner@.len() == old(self).inner@.len(),
            forall|k: int|
                0 <= k < old(self).inner@.len() && k != mv.from && k != mv.to
                    ==> final(self).inner@[k] == old(self).inner@[k],
            final(self).inner@[mv.from as int]@ == old(self).inner@[mv.from as int]@.take(
                old(self).inner@[mv.from as int]@.len() - mv.count,
            ),
            final(self).inner@[mv.to as int]@ == old(self).inner@[mv.to as int]@
                + old(self).inner@[mv.from as int]@.skip(old(self).inner@[mv.from as int]@.len() - mv.count),
    {
        let ghost from0 = self.inner@[mv.from as int]@;
        let ghost to0 = self.inner@[mv.to as int]@;
        let from_len = self.inner[mv.from].len();
        let index = from_len - mv.count;
        let from_stack = &mut self.inner[mv.from];
        let containers = from_stack.split_off(index);
        let mut j: usize = 0;
        while j < containers.len()
            invariant
                0 <= j <= containers@.len(),
                containers@ == from0.skip(from0.len() - mv.count as int),
                mv.to < self.inner@.len(),
                mv.from < self.inner@.len(),
                mv.from != mv.to,
                self.inner@.len() == old(self).inner@.len(),
                self.inner@[mv.from as int]@ == from0.take(from0.len() - mv.count as int),
                forall|k: int|
                    0 <= k < old(self).inner@.len() && k != mv.from && k != mv.to
                        ==> #[trigger] self.inner@[k] == old(self).inner@[k],
                self.inner@[mv.to as int]@ =~= to0 + containers@.take(j as int),
            decreases containers@.len() - j,
        {
            let ghost tos = self.inner@[mv.to as int]@;
            let crate_byte = containers[j];
            let to_stack = &mut self.inner[mv.to];
            to_stack.push(crate_byte);
            proof {
                assert(containers@.take(j + 1) =~= containers@.take(j as int).push(
                    containers@[j as int],
                ));
            }
            j = j + 1;
        }
        proof {
            assert(containers@.take(containers@.len() as int) =~= containers@);
        }
    }

    /// The top crate of each stack, left to right, as a string.
    pub fn top_values(&self) -> (r: String)
        requires
            self.wf(),
            forall|k: int| 0 <= k < self.inner@.len() ==> (#[trigger] self.inner@[k])@.len() > 0,
        ensures
            r@.len() == self.inner@.len(),
            forall|k: int|
                0 <= k < self.inner@.len() ==> (#[trigger] r@[k]) == self.inner@[k]@.last() as char,
    {
        let mut tops: Vec<u8> = Vec::new();
        let mut k: usize = 0;
        while k < self.inner.len()
            invariant
                0 <= k <= self.inner@.len(),
                self.wf(),
                forall|kk: int|
                    0 <= kk < self.inner@.len() ==> (#[trigger] self.inner@[kk])@.len() > 0,
                tops@.len() == k,
                forall|kk: int|
                    0 <= kk < k ==> (#[trigger] tops@[kk]) == self.inner@[kk]@.last() && tops@[kk]
                        < 127,
            decreases self.inner@.len() - k,
        {
            let stack = &self.inner[k];
            let top = stack[stack.len() - 1];
            tops.push(top);
            k = k + 1;
        }
        crate::text::ascii_string(&tops)
    }
}

/// `line` spells a crane order: `move N from A to B`, with `A` and `B`
/// one-based stack numbers.
pub open spec fn reads_crane_move(line: Seq<u8>, m: CraneMove) -> bool {
    exists|ws: Seq<Seq<u8>>|
        {
            &&& #[trigger] joined(ws, 32) == line
            &&& ws.len() == 6
            &&& all_digits(ws[1]) && ws[1].len() >= 1 && m.count == digits_val(ws[1])
            &&& all_digits(ws[3]) && ws[3].len() >= 1 && m.from == digits_val(ws[3]) - 1
            &&& all_digits(ws[5]) && ws[5].len() >= 1 && m.to == digits_val(ws[5]) - 1
        }
}

/// `line` spells an acceptable crane order: six space-free words, words
/// one, three and five being decimal numbers with the order's count and
/// one-based stack numbers in the supported range.
pub open spec fn spells_crane_move(line: Seq<u8>) -> bool {
    exists|ws: Seq<Seq<u8>>|
        {
            &&& #[trigger] joined(ws, 32) == line
            &&& crate::text::sep_free(ws, 32)
            &&& ws.len() == 6
            &&& all_digits(ws[1]) && ws[1].len() >= 1 && digits_val(ws[1]) <= 100_000
            &&& all_digits(ws[3]) && ws[3].len() >= 1 && 1 <= digits_val(ws[3]) <= 100_000
            &&& all_digits(ws[5]) && ws[5].len() >= 1 && 1 <= digits_val(ws[5]) <= 100_000
        }
}

/// A spelled crane order splits on spaces into exactly its six words.
proof fn lemma_crane_split(line: Seq<u8>, parts: Seq<Seq<u8>>)
    requires
        spells_crane_move(line),
        parts.len() >= 1,
        joined(parts, 32) == line,
        crate::text::sep_free(parts, 32),
    ensures
        parts.len() == 6,
        all_digits(parts[1]) && parts[1].len() >= 1 && digits_val(parts[1]) <= 100_000,
        all_digits(parts[3]) && parts[3].len() >= 1 && 1 <= digits_val(parts[3]) <= 100_000,
        all_digits(parts[5]) && parts[5].len() >= 1 && 1 <= digits_val(parts[5]) <= 100_000,
{
    let ws = choose|ws: Seq<Seq<u8>>|
        {
            &&& #[trigger] joined(ws, 32) == line
            &&& crate::text::sep_free(ws, 32)
            &&& ws.len() == 6
            &&& all_digits(ws[1]) && ws[1].len() >= 1 && digits_val(ws[1]) <= 100_000
            &&& all_digits(ws[3]) && ws[3].len() >= 1 && 1 <= digits_val(ws[3]) <= 100_000
            &&& all_digits(ws[5]) && ws[5].len() >= 1 && 1 <= digits_val(ws[5]) <= 100_000
        };
    crate::text::lemma_joined_unique(parts, ws, 32);
}

/// Parses crane orders, one `move N from A to B` per line; stack numbers
/// become zero-based.  Failure means the input is not ASCII or some line
/// spells no acceptable order.
pub fn parse_moves(input: &str) -> (r: Option<Vec<CraneMove>>)
    ensures
        match r {
            Some(v) => exists|ps: Seq<Seq<u8>>|
                {
                    &&& #[trigger] joined(ps, 10) == input.spec_bytes()
                    &&& v@.len() == ps.len()
                    &&& forall|i: int| 0 <= i < ps.len() ==> reads_crane_move(
                        #[trigger] ps[i],
                        v@[i],
                    )
                },
            None => !input.is_ascii() || exists|ps: Seq<Seq<u8>>|
                {
                    &&& #[trigger] joined(ps, 10) == input.spec_bytes()
                    &&& crate::text::sep_free(ps, 10)
                    &&& exists|i: int| 0 <= i < ps.len() && !spells_crane_move(#[trigger] ps[i])
                },
        },
{
    if !input.is_ascii() {
        return None;
    }
    let bytes = input.as_bytes_vec();
    let lines = crate::text::split(&bytes, 10);
    let ghost ps = lines@.map_values(|p: Vec<u8>| p@);
    let mut out: Vec<CraneMove> = Vec::new();
    let mut i: usize = 0;
    while i < lines.len()
        invariant
            0 <= i <= lines@.len(),
            ps == lines@.map_values(|p: Vec<u8>| p@),
            joined(ps, 10) == input.spec_bytes(),
            crate::text::sep_free(ps, 10),
            out@.len() == i,
            forall|k: int| 0 <= k < i ==> reads_crane_move(#[trigger] ps[k], out@[k]),
        decreases lines@.len() - i,
    {
        let line = &lines[i];
        proof {
            assert(ps[i as int] == lines@[i as int]@);
        }
        let words = crate::text::split(line, 32);
        let ghost wseq = words@.map_values(|p: Vec<u8>| p@);
        if words.len() != 6 {
            proof {
                if spells_crane_move(ps[i as int]) {
                    lemma_crane_split(ps[i as int], wseq);
                }
            }
            return None;
        }
        let count = match crate::text::parse_u64(&words[1]) {
            Some(n) => n,
            None => {
                proof {
                    if spells_crane_move(ps[i as int]) {
                        lemma_crane_split(ps[i as int], wseq);
                    }
                }
                return None;
            },
        };
        let from = match crate::text::parse_u64(&words[3]) {
            Some(n) => n,
            None => {
                proof {
                    if spells_crane_move(ps[i as int]) {
                        lemma_crane_split(ps[i as int], wseq);
                    }
                }
                return None;
            },
        };
        let to = match crate::text::parse_u64(&words[5]) {
            Some(n) => n,
            None => {
                proof {
                    if spells_crane_move(ps[i as int]) {
                        lemma_crane_split(ps[i as int], wseq);
                    }
                }
                return None;
            },
        };
        if count > 100_000 || from < 1 || from > 100_000 || to < 1 || to > 100_000 {
            proof {
                if spells_crane_move(ps[i as int]) {
                    lemma_crane_split(ps[i as int], wseq);
                }
            }
            return None;
        }
        let m = CraneMove {
            count: count as usize,
            from: (from - 1) as usize,
            to: (to - 1) as usize,
        };
        proof {
            let ws = words@.map_values(|p: Vec<u8>| p@);
            assert(reads_crane_move(ps[i as int], m)) by {
                assert(joined(ws, 32) == line@);
                assert(ws[1] == words@[1]@ && ws[3] == words@[3]@ && ws[5] == words@[5]@);
            }
        }
        out.push(m);
        i = i + 1;
    }
    Some(out)
}

} // verus!
