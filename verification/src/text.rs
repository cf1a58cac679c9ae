//! Byte-level text helpers shared by the puzzle parsers: splitting on a
//! separator and reading decimal numbers.

use vstd::prelude::*;

verus! {

/// `b` is an ASCII decimal digit.
pub open spec fn is_digit(b: u8) -> bool {
    48 <= b <= 57
}

/// Every byte of `s` is an ASCII decimal digit.
pub open spec fn all_digits(s: Seq<u8>) -> bool {
    forall|i: int| 0 <= i < s.len() ==> is_digit(#[trigger] s[i])
}

/// The value of the big-endian decimal digit string `s`.
pub open spec fn digits_val(s: Seq<u8>) -> int
    decreases s.len(),
{
    if s.len() == 0 {
        0
    } else {
        digits_val(s.drop_last()) * 10 + (s.last() - 48)
    }
}

/// Digit strings have non-negative values.
pub proof fn lemma_digits_val_nonneg(s: Seq<u8>)
    requires
        all_digits(s),
    ensures
        digits_val(s) >= 0,
    decreases s.len(),
{
    if s.len() > 0 {
        assert(all_digits(s.drop_last())) by {
            assert forall|i: int| 0 <= i < s.drop_last().len() implies is_digit(
                #[trigger] s.drop_last()[i],
            ) by {
                assert(s.drop_last()[i] == s[i]);
            }
        }
        lemma_digits_val_nonneg(s.drop_last());
    }
}

/// A digit string is worth at least any of its prefixes.
pub proof fn lemma_digits_val_prefix(s: Seq<u8>, k: int)
    requires
        all_digits(s),
        0 <= k <= s.len(),
    ensures
        digits_val(s) >= digits_val(s.take(k)),
    decreases s.len() - k,
{
    if k < s.len() {
        lemma_digits_val_prefix(s, k + 1);
        let t = s.take(k + 1);
        assert(t.drop_last() =~= s.take(k));
        assert(t.last() == s[k]);
        assert(digits_val(t) == digits_val(s.take(k)) * 10 + (s[k] - 48));
        assert(all_digits(s.take(k))) by {
            assert forall|i: int| 0 <= i < s.take(k).len() implies is_digit(
                #[trigger] s.take(k)[i],
            ) by {
                assert(s.take(k)[i] == s[i]);
            }
        }
        lemma_digits_val_nonneg(s.take(k));
        assert(is_digit(s[k]));
    } else {
        assert(s.take(k) =~= s);
    }
}

/// The parts of `ps` joined with the separator `sep` between them.
pub open spec fn joined(ps: Seq<Seq<u8>>, sep: u8) -> Seq<u8>
    decreases ps.len(),
{
    if ps.len() == 0 {
        Seq::empty()
    } else if ps.len() == 1 {
        ps[0]
    } else {
        ps[0] + seq![sep] + joined(ps.drop_first(), sep)
    }
}

/// No part of `ps` contains the separator.
pub open spec fn sep_free(ps: Seq<Seq<u8>>, sep: u8) -> bool {
    forall|k: int, i: int|
        0 <= k < ps.len() && 0 <= i < ps[k].len() ==> #[trigger] ps[k][i] != sep
}

proof fn lemma_joined_push(ps: Seq<Seq<u8>>, sep: u8, part: Seq<u8>)
    requires
        ps.len() >= 1,
    ensures
        joined(ps.push(part), sep) == joined(ps, sep) + seq![sep] + part,
    decreases ps.len(),
{
    if ps.len() == 1 {
        let two = ps.push(part);
        assert(two.drop_first() =~= seq![part]);
        assert(joined(two.drop_first(), sep) == part);
        assert(two[0] == ps[0]);
        assert(joined(two, sep) == ps[0] + seq![sep] + part);
        assert(joined(ps, sep) == ps[0]);
    } else {
        lemma_joined_push(ps.drop_first(), sep, part);
        assert(ps.push(part).drop_first() =~= ps.drop_first().push(part));
        assert(ps.push(part)[0] == ps[0]);
        assert(joined(ps.push(part), sep) == ps[0] + seq![sep] + joined(
            ps.drop_first().push(part),
            sep,
        ));
        assert(joined(ps, sep) + seq![sep] + part =~= ps[0] + seq![sep] + (joined(
            ps.drop_first(),
            sep,
        ) + seq![sep] + part));
    }
}

proof fn lemma_joined_extend_last(ps: Seq<Seq<u8>>, sep: u8, part: Seq<u8>, b: u8)
    ensures
        joined(ps.push(part.push(b)), sep) =~= joined(ps.push(part), sep).push(b),
{
    if ps.len() == 0 {
        assert(joined(ps.push(part.push(b)), sep) == part.push(b));
        assert(joined(ps.push(part), sep) == part);
        assert(part.push(b) =~= part.push(b));
    } else {
        lemma_joined_push(ps, sep, part.push(b));
        lemma_joined_push(ps, sep, part);
        assert((joined(ps, sep) + seq![sep] + part.push(b)) =~= (joined(ps, sep) + seq![sep]
            + part).push(b));
    }
}

/// How a join of two or more parts is laid out: the first part, the
/// separator, then the join of the rest.
proof fn lemma_joined_parts(ps: Seq<Seq<u8>>, sep: u8)
    requires
        ps.len() >= 2,
    ensures
        joined(ps, sep).len() == ps[0].len() + 1 + joined(ps.drop_first(), sep).len(),
        forall|i: int| 0 <= i < ps[0].len() ==> #[trigger] joined(ps, sep)[i] == ps[0][i],
        joined(ps, sep)[ps[0].len() as int] == sep,
        forall|j: int|
            0 <= j < joined(ps.drop_first(), sep).len() ==> #[trigger] joined(ps, sep)[ps[0].len()
                + 1 + j] == joined(ps.drop_first(), sep)[j],
{
    assert(joined(ps, sep) == ps[0] + seq![sep] + joined(ps.drop_first(), sep));
}

/// A byte string splits into separator-free parts in only one way: the
/// parts returned by [`split`] are the only decomposition satisfying its
/// contract.
pub proof fn lemma_joined_unique(ps1: Seq<Seq<u8>>, ps2: Seq<Seq<u8>>, sep: u8)
    requires
        ps1.len() >= 1,
        ps2.len() >= 1,
        joined(ps1, sep) == joined(ps2, sep),
        sep_free(ps1, sep),
        sep_free(ps2, sep),
    ensures
        ps1 == ps2,
    decreases ps1.len(),
{
    let w = joined(ps1, sep);
    if ps1.len() == 1 && ps2.len() == 1 {
        assert(w == ps1[0] && w == ps2[0]);
        assert(ps1 =~= ps2);
    } else if ps1.len() == 1 {
        lemma_joined_parts(ps2, sep);
        assert(w == ps1[0]);
        assert(w[ps2[0].len() as int] == sep);
        assert(ps1[0][ps2[0].len() as int] != sep);
        assert(false);
    } else if ps2.len() == 1 {
        lemma_joined_parts(ps1, sep);
        assert(w == ps2[0]);
        assert(w[ps1[0].len() as int] == sep);
        assert(ps2[0][ps1[0].len() as int] != sep);
        assert(false);
    } else {
        lemma_joined_parts(ps1, sep);
        lemma_joined_parts(ps2, sep);
        let l1 = ps1[0].len() as int;
        let l2 = ps2[0].len() as int;
        if l1 < l2 {
            assert(w[l1] == sep);
            assert(w[l1] == ps2[0][l1]);
            assert(ps2[0][l1] != sep);
            assert(false);
        }
        if l2 < l1 {
            assert(w[l2] == sep);
            assert(w[l2] == ps1[0][l2]);
            assert(ps1[0][l2] != sep);
            assert(false);
        }
        assert(ps1[0] =~= ps2[0]) by {
            assert forall|i: int| 0 <= i < l1 implies ps1[0][i] == ps2[0][i] by {
                assert(w[i] == ps1[0][i]);
                assert(w[i] == ps2[0][i]);
            }
        }
        let r1 = ps1.drop_first();
        let r2 = ps2.drop_first();
        assert(joined(r1, sep) =~= joined(r2, sep)) by {
            assert(joined(r1, sep).len() == joined(r2, sep).len());
            assert forall|j: int| 0 <= j < joined(r1, sep).len() implies joined(r1, sep)[j]
                == joined(r2, sep)[j] by {
                assert(w[l1 + 1 + j] == joined(r1, sep)[j]);
                assert(w[l2 + 1 + j] == joined(r2, sep)[j]);
            }
        }
        assert(sep_free(r1, sep)) by {
            assert forall|k: int, i: int|
                0 <= k < r1.len() && 0 <= i < r1[k].len() implies #[trigger] r1[k][i] != sep by {
                assert(r1[k] == ps1[k + 1]);
                assert(ps1[k + 1][i] != sep);
            }
        }
        assert(sep_free(r2, sep)) by {
            assert forall|k: int, i: int|
                0 <= k < r2.len() && 0 <= i < r2[k].len() implies #[trigger] r2[k][i] != sep by {
                assert(r2[k] == ps2[k + 1]);
                assert(ps2[k + 1][i] != sep);
            }
        }
        lemma_joined_unique(r1, r2, sep);
        assert(ps1 =~= ps2) by {
            assert forall|k: int| 0 <= k < ps1.len() implies ps1[k] == ps2[k] by {
                if k > 0 {
                    assert(ps1[k] == r1[k - 1]);
                    assert(ps2[k] == r2[k - 1]);
                }
            }
        }
    }
}

/// Splits `v` on the separator byte.  The parts, joined back with the
/// separator, are exactly `v`, and no part contains the separator; together
/// this pins the result down completely.
pub fn split(v: &Vec<u8>, sep: u8) -> (parts: Vec<Vec<u8>>)
    ensures
        parts@.len() >= 1,
        joined(parts@.map_values(|p: Vec<u8>| p@), sep) == v@,
        sep_free(parts@.map_values(|p: Vec<u8>| p@), sep),
{
    let mut parts: Vec<Vec<u8>> = Vec::new();
    let mut cur: Vec<u8> = Vec::new();
    let mut i: usize = 0;
    while i < v.len()
        invariant
            0 <= i <= v@.len(),
            joined(parts@.map_values(|p: Vec<u8>| p@).push(cur@), sep) =~= v@.take(i as int),
            sep_free(parts@.map_values(|p: Vec<u8>| p@).push(cur@), sep),
        decreases v@.len() - i,
    {
        let ghost done = parts@.map_values(|p: Vec<u8>| p@);
        let ghost cur0 = cur@;
        let b = v[i];
        if b == sep {
            parts.push(cur);
            cur = Vec::new();
            proof {
                let done2 = parts@.map_values(|p: Vec<u8>| p@);
                assert(done2 =~= done.push(cur0));
                lemma_joined_push(done.push(cur0), sep, Seq::empty());
                assert(done2.push(cur@) =~= done.push(cur0).push(Seq::empty()));
                assert(joined(done2.push(cur@), sep) =~= v@.take(i as int) + seq![sep]);
                assert(v@.take(i + 1) =~= v@.take(i as int) + seq![v@[i as int]]);
                assert(sep_free(done2.push(cur@), sep)) by {
                    assert forall|k: int, j: int|
                        0 <= k < done2.push(cur@).len() && 0 <= j < done2.push(cur@)[k].len()
                            implies #[trigger] done2.push(cur@)[k][j] != sep by {
                        if k < done.len() {
                            assert(done2.push(cur@)[k] == done.push(cur0)[k]);
                        } else if k == done.len() {
                            assert(done2.push(cur@)[k] == cur0);
                            assert(done.push(cur0)[k] == cur0);
                        }
                    }
                }
            }
        } else {
            cur.push(b);
            proof {
                lemma_joined_extend_last(done, sep, cur0, b);
                assert(done.push(cur@) =~= done.push(cur0.push(b)));
                assert(v@.take(i + 1) =~= v@.take(i as int).push(v@[i as int]));
                assert(sep_free(done.push(cur@), sep)) by {
                    assert forall|k: int, j: int|
                        0 <= k < done.push(cur@).len() && 0 <= j < done.push(cur@)[k].len()
                            implies #[trigger] done.push(cur@)[k][j] != sep by {
                        if k < done.len() {
                            assert(done.push(cur@)[k] == done.push(cur0)[k]);
                        } else {
                            assert(done.push(cur@)[k] == cur0.push(b));
                            assert(done.push(cur0)[k] == cur0);
                            if j < cur0.len() {
                                assert(cur0.push(b)[j] == cur0[j]);
                            }
                        }
                    }
                }
            }
        }
        i = i + 1;
    }
    let ghost done = parts@.map_values(|p: Vec<u8>| p@);
    let ghost cur0 = cur@;
    parts.push(cur);
    proof {
        assert(parts@.map_values(|p: Vec<u8>| p@) =~= done.push(cur0));
        assert(v@.take(v@.len() as int) =~= v@);
    }
    parts
}

/// Reads `s` as a big-endian decimal `u64`.  Succeeds exactly on non-empty
/// all-digit strings whose value fits the type.
pub fn parse_u64(s: &Vec<u8>) -> (r: Option<u64>)
    ensures
        match r {
            Some(n) => s@.len() >= 1 && all_digits(s@) && n == digits_val(s@),
            None => !(s@.len() >= 1 && all_digits(s@) && digits_val(s@) <= u64::MAX),
        },
{
    if s.len() == 0 {
        return None;
    }
    let mut acc: u64 = 0;
    let mut i: usize = 0;
    while i < s.len()
        invariant
            0 <= i <= s@.len(),
            all_digits(s@.take(i as int)),
            acc == digits_val(s@.take(i as int)),
        decreases s@.len() - i,
    {
        let b = s[i];
        if b < 48 || b > 57 {
            proof {
                assert(!is_digit(s@[i as int]));
            }
            return None;
        }
        let d: u64 = (b - 48) as u64;
        if acc > (u64::MAX - d) / 10 {
            proof {
                if all_digits(s@) {
                    assert(s@.take(i + 1).drop_last() =~= s@.take(i as int));
                    assert(s@.take(i + 1).last() == s@[i as int]);
                    assert(digits_val(s@.take(i + 1)) == acc * 10 + d);
                    assert(acc * 10 + d > u64::MAX) by {
                        assert(acc >= (u64::MAX - d) / 10 + 1);
                        assert(((u64::MAX - d) / 10 + 1) * 10 > u64::MAX - d) by (nonlinear_arith)
                            requires
                                d <= 9u64,
                        ;
                        assert(acc * 10 >= ((u64::MAX - d) / 10 + 1) * 10) by (nonlinear_arith)
                            requires
                                acc >= (u64::MAX - d) / 10 + 1,
                        ;
                    }
                    lemma_digits_val_prefix(s@, i + 1);
                }
            }
            return None;
        }
        proof {
            assert(acc * 10 + d <= u64::MAX) by {
                assert(acc <= (u64::MAX - d) / 10);
                assert(((u64::MAX - d) / 10) * 10 <= u64::MAX - d) by (nonlinear_arith);
                assert(acc * 10 <= ((u64::MAX - d) / 10) * 10) by (nonlinear_arith)
                    requires
                        acc <= (u64::MAX - d) / 10,
                ;
            }
            assert(s@.take(i + 1).drop_last() =~= s@.take(i as int));
            assert(s@.take(i + 1).last() == s@[i as int]);
            assert(all_digits(s@.take(i + 1))) by {
                assert forall|j: int| 0 <= j < i + 1 implies is_digit(
                    #[trigger] s@.take(i + 1)[j],
                ) by {
                    assert(s@.take(i + 1)[j] == s@[j]);
                    if j < i {
                        assert(s@.take(i as int)[j] == s@[j]);
                        assert(is_digit(s@.take(i as int)[j]));
                    }
                }
            }
        }
        acc = acc * 10 + d;
        i = i + 1;
    }
    proof {
        assert(s@.take(s@.len() as int) =~= s@);
    }
    Some(acc)
}

/// `s` spells the integer `n` in decimal, with an optional leading minus.
pub open spec fn reads_i64(s: Seq<u8>, n: int) -> bool {
    ||| (s.len() >= 1 && all_digits(s) && n == digits_val(s))
    ||| (s.len() >= 2 && s[0] == 45 && all_digits(s.skip(1)) && n == -digits_val(s.skip(1)))
}

/// Reads `s` as a decimal `i64` with an optional leading minus sign.
pub fn parse_i64(s: &Vec<u8>) -> (r: Option<i64>)
    ensures
        match r {
            Some(n) => reads_i64(s@, n as int),
            None => true,
        },
{
    if s.len() == 0 {
        return None;
    }
    if s[0] == 45 {
        let mut rest: Vec<u8> = Vec::new();
        let mut i: usize = 1;
        while i < s.len()
            invariant
                1 <= i <= s@.len(),
                rest@ =~= s@.subrange(1, i as int),
            decreases s@.len() - i,
        {
            rest.push(s[i]);
            i = i + 1;
        }
        proof {
            assert(rest@ =~= s@.skip(1));
        }
        match crate::text::parse_u64(&rest) {
            Some(n) => {
                if n <= 0x7fff_ffff_ffff_ffff {
                    proof {
                        lemma_digits_val_nonneg(rest@);
                    }
                    Some(-(n as i64))
                } else {
                    None
                }
            },
            None => None,
        }
    } else {
        match crate::text::parse_u64(s) {
            Some(n) => {
                if n <= 0x7fff_ffff_ffff_ffff {
                    Some(n as i64)
                } else {
                    None
                }
            },
            None => None,
        }
    }
}

/// Builds a `String` from ASCII bytes, one character per byte.
/// Relies on `String::from_utf8`: ASCII bytes are valid UTF-8 and decode to
/// the characters with the same code points.
#[verifier::external_body]
pub(crate) fn ascii_string(bytes: &Vec<u8>) -> (s: String)
    requires
        forall|i: int| 0 <= i < bytes@.len() ==> #[trigger] bytes@[i] < 128,
    ensures
        s@.len() == bytes@.len(),
        forall|i: int| 0 <= i < bytes@.len() ==> #[trigger] s@[i] == bytes@[i] as char,
{
    String::from_utf8(bytes.clone()).unwrap_or_default()
}

} // verus!
