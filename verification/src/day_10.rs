//! A one-register CPU: `noop` takes one cycle, `addx` takes two and then
//! adds to the register.  The communicator records the `(cycle, register)`
//! pair at every observation point, in order.

use vstd::prelude::*;
use vstd::string::StringSliceAdditionalSpecFns;
use crate::text::{joined, reads_i64, sep_free};

verus! {

/// One CPU instruction.
#[derive(Clone, Copy, Debug, PartialEq, Eq, Structural)]
pub enum Instruction {
    Noop,
    Addx(i64),
}

/// The CPU with its observation log: each executed instruction appends the
/// `(cycle, register)` samples a cycle callback would have seen.
pub struct Communicator {
    pub register: i64,
    pub cycle: i64,
    pub samples: Vec<(i64, i64)>,
}

impl Communicator {
    /// A fresh CPU: register 1 at cycle 1, that first state already
    /// observed.
    pub fn new() -> (c: Self)
        ensures
            c.register == 1,
            c.cycle == 1,
            c.samples@ =~= seq![(1i64, 1i64)],
    {
        let mut samples: Vec<(i64, i64)> = Vec::new();
        samples.push((1, 1));
        proof {
            assert(samples@ =~= seq![(1i64, 1i64)]);
        }
        Self { register: 1, cycle: 1, samples }
    }

    /// Executes one instruction: `noop` advances one cycle and records the
    /// state; `addx d` advances a cycle, records, advances another cycle,
    /// adds `d`, and records again.
    pub fn execute_instruction(&mut self, instruction: Instruction)
        requires
            -1_000_000_000 <= old(self).register <= 1_000_000_000,
            0 <= old(self).cycle <= 1_000_000_000,
            instruction matches Instruction::Addx(d) ==> -1_000_000 <= d <= 1_000_000,
        ensures
            match instruction {
                Instruction::Noop => {
                    &&& final(self).cycle == old(self).cycle + 1
                    &&& final(self).register == old(self).register
                    &&& final(self).samples@ =~= old(self).samples@.push(
                        (final(self).cycle, old(self).register),
                    )
                },
                Instruction::Addx(d) => {
                    &&& final(self).cycle == old(self).cycle + 2
                    &&& final(self).register == old(self).register + d
                    &&& final(self).samples@ =~= old(self).samples@.push(
                        ((old(self).cycle + 1) as i64, old(self).register),
                    ).push((final(self).cycle, final(self).register))
                },
            },
    {
        match instruction {
            Instruction::Noop => {
                self.cycle = self.cycle + 1;
            },
            Instruction::Addx(delta) => {
                self.cycle = self.cycle + 1;
                let sample = (self.cycle, self.register);
                self.samples.push(sample);
                self.cycle = self.cycle + 1;
                self.register = self.register + delta;
            },
        }
        let sample = (self.cycle, self.register);
        self.samples.push(sample);
    }
}

/// `line` spells an instruction: `noop`, or `addx ` and a signed number.
pub open spec fn reads_instruction(line: Seq<u8>, instr: Instruction) -> bool {
    match instr {
        Instruction::Noop => line =~= seq![110u8, 111u8, 111u8, 112u8],
        Instruction::Addx(d) => {
            &&& line.len() >= 6
            &&& line.take(5) =~= seq![97u8, 100u8, 100u8, 120u8, 32u8]
            &&& reads_i64(line.skip(5), d as int)
        },
    }
}

/// Parses a program, one instruction per line.
pub fn parse_instructions(input: &str) -> (r: Option<Vec<Instruction>>)
    ensures
        match r {
            Some(v) => exists|ps: Seq<Seq<u8>>|
                {
                    &&& #[trigger] joined(ps, 10) == input.spec_bytes()
                    &&& sep_free(ps, 10)
                    &&& v@.len() == ps.len()
                    &&& forall|i: int| 0 <= i < ps.len() ==> reads_instruction(
                        #[trigger] ps[i],
                        v@[i],
                    )
                },
            None => true,
        },
{
    if !input.is_ascii() {
        return None;
    }
    let bytes = input.as_bytes_vec();
    let lines = crate::text::split(&bytes, 10);
    let ghost ps = lines@.map_values(|p: Vec<u8>| p@);
    let mut out: Vec<Instruction> = Vec::new();
    let mut i: usize = 0;
    while i < lines.len()
        invariant
            0 <= i <= lines@.len(),
            ps == lines@.map_values(|p: Vec<u8>| p@),
            out@.len() == i,
            forall|k: int| 0 <= k < i ==> reads_instruction(#[trigger] ps[k], out@[k]),
        decreases lines@.len() - i,
    {
        let line = &lines[i];
        proof {
            assert(ps[i as int] == lines@[i as int]@);
        }
        if line.len() == 4 && line[0] == 110 && line[1] == 111 && line[2] == 111 && line[3] == 112 {
            proof {
                assert(line@ =~= seq![110u8, 111u8, 111u8, 112u8]);
            }
            out.push(Instruction::Noop);
        } else if line.len() >= 6 && line[0] == 97 && line[1] == 100 && line[2] == 100 && line[3]
            == 120 && line[4] == 32 {
            let mut digits: Vec<u8> = Vec::new();
            let mut j: usize = 5;
            while j < line.len()
                invariant
                    5 <= j <= line@.len(),
                    digits@ =~= line@.subrange(5, j as int),
                decreases line@.len() - j,
            {
                digits.push(line[j]);
                j = j + 1;
            }
            proof {
                assert(digits@ =~= line@.skip(5));
                assert(line@.take(5) =~= seq![97u8, 100u8, 100u8, 120u8, 32u8]);
            }
            let d = match crate::text::parse_i64(&digits) {
                Some(n) => n,
                None => {
                    return None;
                },
            };
            out.push(Instruction::Addx(d));
        } else {
            return None;
        }
        i = i + 1;
    }
    Some(out)
}

} // verus!
