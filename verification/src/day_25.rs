//! Balanced base-5 ("SNAFU") numerals: digits worth 2, 1, 0, -1 and -2,
//! written `2 1 0 - =`, most significant first.

use vstd::prelude::*;
use vstd::string::StringSliceAdditionalSpecFns;

verus! {

/// A SNAFU numeral, least significant digit first; every digit lies in
/// `-2..=2`.
#[derive(Clone, Debug, Default)]
pub struct SnafuNumber {
    pub digits: Vec<i8>,
}

/// All digits lie in `-2..=2`.
pub open spec fn snafu_wf(digits: Seq<i8>) -> bool {
    forall|i: int| 0 <= i < digits.len() ==> -2 <= #[trigger] digits[i] <= 2
}

/// The value of a digit sequence, least significant digit first.
pub open spec fn snafu_val(digits: Seq<i8>) -> int
    decreases digits.len(),
{
    if digits.len() == 0 {
        0
    } else {
        digits[0] + 5 * snafu_val(digits.drop_first())
    }
}

/// The digit spelled by the byte `b`, if any.
pub open spec fn digit_of(b: u8) -> Option<i8> {
    if b == 50 {
        Some(2i8)
    } else if b == 49 {
        Some(1i8)
    } else if b == 48 {
        Some(0i8)
    } else if b == 45 {
        Some(-1i8)
    } else if b == 61 {
        Some(-2i8)
    } else {
        None
    }
}

/// The byte spelling the digit `d`.
pub open spec fn byte_of(d: i8) -> u8 {
    if d == 2 {
        50
    } else if d == 1 {
        49
    } else if d == 0 {
        48
    } else if d == -1 {
        45
    } else {
        61
    }
}

/// Five to the `n`.
pub open spec fn pow5(n: nat) -> int
    decreases n,
{
    if n == 0 {
        1
    } else {
        5 * pow5((n - 1) as nat)
    }
}

proof fn lemma_pow5_pos(n: nat)
    ensures
        pow5(n) >= 1,
    decreases n,
{
    if n > 0 {
        lemma_pow5_pos((n - 1) as nat);
    }
}

/// Appending a digit adds its value at the next power of five.
proof fn lemma_snafu_val_push(s: Seq<i8>, d: i8)
    ensures
        snafu_val(s.push(d)) == snafu_val(s) + d * pow5(s.len()),
    decreases s.len(),
{
    if s.len() == 0 {
        assert(s.push(d).drop_first() =~= Seq::<i8>::empty());
        assert(snafu_val(s.push(d)) == d + 5 * snafu_val(Seq::<i8>::empty()));
        assert(d * pow5(0) == d) by (nonlinear_arith);
        assert(s =~= Seq::<i8>::empty());
    } else {
        lemma_snafu_val_push(s.drop_first(), d);
        assert(s.push(d).drop_first() =~= s.drop_first().push(d));
        assert(snafu_val(s.push(d)) == s[0] + 5 * snafu_val(s.drop_first().push(d)));
        assert(snafu_val(s.drop_first().push(d)) == snafu_val(s.drop_first()) + d * pow5(
            (s.len() - 1) as nat,
        ));
        assert(5 * (snafu_val(s.drop_first()) + d * pow5((s.len() - 1) as nat)) == 5 * snafu_val(
            s.drop_first(),
        ) + d * (5 * pow5((s.len() - 1) as nat))) by (nonlinear_arith);
        assert(pow5(s.len()) == 5 * pow5((s.len() - 1) as nat));
    }
}

impl SnafuNumber {
    /// Reads a numeral written most significant digit first.  Succeeds
    /// exactly when every character is a SNAFU digit, and stores the digits
    /// reversed.
    pub fn from_str(input: &str) -> (r: Option<Self>)
        requires
            input.is_ascii(),
        ensures
            match r {
                Some(n) => {
                    let s = input.spec_bytes();
                    &&& n.digits@.len() == s.len()
                    &&& forall|i: int|
                        0 <= i < s.len() ==> digit_of(s[s.len() - 1 - i]) == Some(
                            #[trigger] n.digits@[i],
                        )
                    &&& snafu_wf(n.digits@)
                },
                None => exists|i: int|
                    0 <= i < input.spec_bytes().len() && digit_of(#[trigger] input.spec_bytes()[i])
                        is None,
            },
    {
        let bytes = input.as_bytes_vec();
        let ghost s = input.spec_bytes();
        let mut digits: Vec<i8> = Vec::new();
        let mut i: usize = bytes.len();
        while i > 0
            invariant
                0 <= i <= s.len(),
                s == input.spec_bytes(),
                bytes@ == s,
                digits@.len() == s.len() - i,
                forall|k: int|
                    0 <= k < digits@.len() ==> digit_of(s[s.len() - 1 - k]) == Some(
                        #[trigger] digits@[k],
                    ) && -2 <= digits@[k] <= 2,
            decreases i,
        {
            i = i - 1;
            let b = bytes[i];
            let d: i8 = if b == 50 {
                2
            } else if b == 49 {
                1
            } else if b == 48 {
                0
            } else if b == 45 {
                -1
            } else if b == 61 {
                -2
            } else {
                proof {
                    assert(input.spec_bytes()[i as int] == b);
                    assert(digit_of(input.spec_bytes()[i as int]) is None);
                }
                return None;
            };
            digits.push(d);
        }
        Some(SnafuNumber { digits })
    }

    /// Writes the numeral most significant digit first.
    pub fn into_str(self) -> (r: String)
        requires
            snafu_wf(self.digits@),
        ensures
            r@.len() == self.digits@.len(),
            forall|i: int|
                0 <= i < self.digits@.len() ==> (#[trigger] r@[i]) == byte_of(
                    self.digits@[self.digits@.len() - 1 - i],
                ) as char,
    {
        let mut out: Vec<u8> = Vec::new();
        let mut i: usize = self.digits.len();
        while i > 0
            invariant
                0 <= i <= self.digits@.len(),
                snafu_wf(self.digits@),
                out@.len() == self.digits@.len() - i,
                forall|k: int|
                    0 <= k < out@.len() ==> (#[trigger] out@[k]) == byte_of(
                        self.digits@[self.digits@.len() - 1 - k],
                    ),
            decreases i,
        {
            i = i - 1;
            let d = self.digits[i];
            let b: u8 = if d == 2 {
                50
            } else if d == 1 {
                49
            } else if d == 0 {
                48
            } else if d == -1 {
                45
            } else {
                61
            };
            out.push(b);
        }
        proof {
            assert forall|k: int| 0 <= k < out@.len() implies out@[k] < 128 by {
                assert(out@[k] == byte_of(self.digits@[self.digits@.len() - 1 - k]));
            }
        }
        crate::text::ascii_string(&out)
    }

    /// Adds two numerals digit by digit with a balanced carry.  The result
    /// is worth exactly the sum of the two inputs.
    pub fn add(self, rhs: Self) -> (r: Self)
        requires
            snafu_wf(self.digits@),
            snafu_wf(rhs.digits@),
            self.digits@.len() < 1_000_000,
            rhs.digits@.len() < 1_000_000,
        ensures
            snafu_wf(r.digits@),
            snafu_val(r.digits@) == snafu_val(self.digits@) + snafu_val(rhs.digits@),
    {
        let ghost a = self.digits@;
        let ghost b = rhs.digits@;
        let mut digits: Vec<i8> = Vec::new();
        let mut carry: i8 = 0;
        let alen = self.digits.len();
        let blen = rhs.digits.len();
        let max_len = if alen > blen {
            alen
        } else {
            blen
        };
        let mut i: usize = 0;
        while i < max_len
            invariant
                0 <= i <= max_len,
                max_len == if a.len() > b.len() {
                    a.len()
                } else {
                    b.len()
                },
                alen == a.len(),
                blen == b.len(),
                a == self.digits@,
                b == rhs.digits@,
                snafu_wf(a),
                snafu_wf(b),
                -1 <= carry <= 1,
                digits@.len() == i,
                snafu_wf(digits@),
                snafu_val(digits@) + carry * pow5(i as nat) == snafu_val(
                    a.take(if i <= a.len() {
                        i as int
                    } else {
                        a.len() as int
                    }),
                ) + snafu_val(
                    b.take(if i <= b.len() {
                        i as int
                    } else {
                        b.len() as int
                    }),
                ),
            decreases max_len - i,
        {
            let left: i8 = if i < alen {
                self.digits[i]
            } else {
                0
            };
            let right: i8 = if i < blen {
                rhs.digits[i]
            } else {
                0
            };
            let t: i8 = left + right + carry;
            let (new_carry, digit): (i8, i8) = if t == 5 {
                (1, 0)
            } else if t == 4 {
                (1, -1)
            } else if t == 3 {
                (1, -2)
            } else if t == -3 {
                (-1, 2)
            } else if t == -4 {
                (-1, 1)
            } else if t == -5 {
                (-1, 0)
            } else {
                (0, t)
            };
            proof {
                assert(left + right + carry == new_carry * 5 + digit);
                lemma_snafu_val_push(digits@, digit);
                if i < a.len() {
                    assert(a.take(i + 1).drop_last() =~= a.take(i as int));
                    assert(a.take(i + 1).last() == a[i as int]);
                    lemma_snafu_val_push(a.take(i as int), a[i as int]);
                    assert(a.take(i + 1) =~= a.take(i as int).push(a[i as int]));
                } else {
                    assert(a.take(a.len() as int) =~= a.take(a.len() as int));
                }
                if i < b.len() {
                    assert(b.take(i + 1) =~= b.take(i as int).push(b[i as int]));
                    lemma_snafu_val_push(b.take(i as int), b[i as int]);
                }
                assert((new_carry * 5) * pow5(i as nat) == new_carry * pow5((i + 1) as nat))
                    by (nonlinear_arith)
                    requires
                        pow5((i + 1) as nat) == 5 * pow5(i as nat),
                ;
                assert((left + right + carry) * pow5(i as nat) == left * pow5(i as nat) + right
                    * pow5(i as nat) + carry * pow5(i as nat)) by (nonlinear_arith);
                assert((new_carry * 5 + digit) * pow5(i as nat) == (new_carry * 5) * pow5(i as nat)
                    + digit * pow5(i as nat)) by (nonlinear_arith);
            }
            digits.push(digit);
            carry = new_carry;
            i = i + 1;
        }
        proof {
            assert(a.take(a.len() as int) =~= a);
            assert(b.take(b.len() as int) =~= b);
        }
        if carry != 0 {
            proof {
                lemma_snafu_val_push(digits@, carry);
            }
            digits.push(carry);
        }
        SnafuNumber { digits }
    }
}

} // verus!
