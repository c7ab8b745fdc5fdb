//! Decimal parsing for the amounts that cross the wire as text.
//!
//! The principal of a loan is carried as a string to avoid precision loss,
//! and the registry's approval callback carries a confirmation token as the
//! decimal digits of an unsigned integer. Both are read here, against an
//! exact specification of the decimal value.

use vstd::prelude::*;
use vstd::std_specs::iter::IteratorSpec;

verus! {

broadcast use vstd::string::group_string_axioms, vstd::string::next_postcondition;

/// True for the ten ASCII decimal digit characters.
pub open spec fn is_dec_digit(c: char) -> bool {
    '0' <= c && c <= '9'
}

/// True when `s` is one or more decimal digit characters.
pub open spec fn all_dec_digits(s: Seq<char>) -> bool {
    forall|i: int| 0 <= i < s.len() ==> is_dec_digit(#[trigger] s[i])
}

/// The unsigned value of a sequence of decimal digit characters, most
/// significant digit first.
pub open spec fn dec_value(s: Seq<char>) -> nat
    decreases s.len(),
{
    if s.len() == 0 {
        0
    } else {
        (dec_value(s.drop_last()) * 10 + (s.last() as int - '0' as int)) as nat
    }
}

/// What parsing a decimal string as a `u128` yields: the value of the
/// digits when the string is nonempty, all digits, and in range; nothing
/// otherwise.
pub open spec fn spec_parse_u128(s: Seq<char>) -> Option<u128> {
    if s.len() > 0 && all_dec_digits(s) && dec_value(s) <= u128::MAX {
        Some(dec_value(s) as u128)
    } else {
        None
    }
}

/// In an all-digit string, a longer prefix never has a smaller value.
proof fn lemma_dec_value_take_le(s: Seq<char>, i: int, j: int)
    requires
        0 <= i <= j <= s.len(),
        all_dec_digits(s),
    ensures
        dec_value(s.take(i)) <= dec_value(s.take(j)),
    decreases j - i,
{
    if i < j {
        lemma_dec_value_take_le(s, i, j - 1);
        assert(s.take(j).drop_last() =~= s.take(j - 1));
        assert(is_dec_digit(s[j - 1]));
        assert(dec_value(s.take(j)) >= dec_value(s.take(j - 1)));
    }
}

/// Reads a decimal unsigned integer from `s`, exactly as
/// [`spec_parse_u128`] describes.
pub fn parse_u128(s: &str) -> (r: Option<u128>)
    ensures
        r == spec_parse_u128(s@),
{
    let ghost all = s@;
    let mut it = s.chars();
    let mut acc: u128 = 0;
    let ghost mut count: int = 0;
    loop
        invariant
            all == s@,
            it.obeys_prophetic_iter_laws(),
            0 <= count <= all.len(),
            it.remaining() =~= all.skip(count),
            all_dec_digits(all.take(count)),
            acc == dec_value(all.take(count)),
        decreases all.len() - count,
    {
        let ghost prev = it;
        match it.next() {
            None => {
                proof {
                    assert(all.take(count) =~= all);
                }
                if s.is_empty() {
                    return None;
                }
                return Some(acc);
            },
            Some(c) => {
                proof {
                    assert(prev.remaining()[0] == all[count]);
                }
                if c < '0' || c > '9' {
                    proof {
                        assert(!is_dec_digit(all[count]));
                    }
                    return None;
                }
                let d: u128 = (c as u32 - '0' as u32) as u128;
                let next_acc: u128 = match acc.checked_mul(10) {
                    Some(m) => match m.checked_add(d) {
                        Some(a) => a,
                        None => {
                            proof {
                                if all_dec_digits(all) {
                                    assert(all.take(count + 1).drop_last() =~= all.take(
                                        count,
                                    ));
                                    assert(dec_value(all.take(count + 1)) > u128::MAX);
                                    lemma_dec_value_take_le(
                                        all,
                                        count + 1,
                                        all.len() as int,
                                    );
                                    assert(all.take(all.len() as int) =~= all);
                                }
                            }
                            return None;
                        },
                    },
                    None => {
                        proof {
                            if all_dec_digits(all) {
                                assert(all.take(count + 1).drop_last() =~= all.take(
                                    count,
                                ));
                                assert(dec_value(all.take(count + 1)) >= acc * 10);
                                lemma_dec_value_take_le(all, count + 1, all.len() as int);
                                assert(all.take(all.len() as int) =~= all);
                            }
                        }
                        return None;
                    },
                };
                proof {
                    assert(all.take(count + 1).drop_last() =~= all.take(count));
                    assert(is_dec_digit(all[count]));
                    count = count + 1;
                }
                acc = next_acc;
            },
        }
    }
}

/// True for the ten ASCII decimal digit bytes.
pub open spec fn is_dec_digit_byte(b: u8) -> bool {
    48 <= b && b <= 57
}

/// True when `s` is one or more decimal digit bytes.
pub open spec fn all_dec_digit_bytes(s: Seq<u8>) -> bool {
    forall|i: int| 0 <= i < s.len() ==> is_dec_digit_byte(#[trigger] s[i])
}

/// The unsigned value of a sequence of decimal digit bytes, most
/// significant digit first.
pub open spec fn dec_value_bytes(s: Seq<u8>) -> nat
    decreases s.len(),
{
    if s.len() == 0 {
        0
    } else {
        (dec_value_bytes(s.drop_last()) * 10 + (s.last() as int - 48)) as nat
    }
}

/// What parsing decimal bytes as a `u64` yields.
pub open spec fn spec_parse_u64_bytes(s: Seq<u8>) -> Option<u64> {
    if s.len() > 0 && all_dec_digit_bytes(s) && dec_value_bytes(s) <= u64::MAX {
        Some(dec_value_bytes(s) as u64)
    } else {
        None
    }
}

/// In an all-digit byte string, a longer prefix never has a smaller value.
proof fn lemma_dec_value_bytes_take_le(s: Seq<u8>, i: int, j: int)
    requires
        0 <= i <= j <= s.len(),
        all_dec_digit_bytes(s),
    ensures
        dec_value_bytes(s.take(i)) <= dec_value_bytes(s.take(j)),
    decreases j - i,
{
    if i < j {
        lemma_dec_value_bytes_take_le(s, i, j - 1);
        assert(s.take(j).drop_last() =~= s.take(j - 1));
        assert(is_dec_digit_byte(s[j - 1]));
        assert(dec_value_bytes(s.take(j)) >= dec_value_bytes(s.take(j - 1)));
    }
}

/// Reads a decimal unsigned integer from raw bytes, exactly as
/// [`spec_parse_u64_bytes`] describes.
pub fn parse_u64_bytes(bytes: &[u8]) -> (r: Option<u64>)
    ensures
        r == spec_parse_u64_bytes(bytes@),
{
    if bytes.len() == 0 {
        return None;
    }
    let mut acc: u64 = 0;
    let mut i: usize = 0;
    while i < bytes.len()
        invariant
            0 <= i <= bytes@.len(),
            all_dec_digit_bytes(bytes@.take(i as int)),
            acc == dec_value_bytes(bytes@.take(i as int)),
        decreases bytes@.len() - i,
    {
        let b = bytes[i];
        if b < 48 || b > 57 {
            return None;
        }
        let d: u64 = (b - 48) as u64;
        let next_acc: u64 = match acc.checked_mul(10) {
            Some(m) => match m.checked_add(d) {
                Some(a) => a,
                None => {
                    proof {
                        if all_dec_digit_bytes(bytes@) {
                            assert(bytes@.take(i as int + 1).drop_last() =~= bytes@.take(i as int));
                            assert(dec_value_bytes(bytes@.take(i as int + 1)) > u64::MAX);
                            lemma_dec_value_bytes_take_le(
                                bytes@,
                                i as int + 1,
                                bytes@.len() as int,
                            );
                            assert(bytes@.take(bytes@.len() as int) =~= bytes@);
                        }
                    }
                    return None;
                },
            },
            None => {
                proof {
                    if all_dec_digit_bytes(bytes@) {
                        assert(bytes@.take(i as int + 1).drop_last() =~= bytes@.take(i as int));
                        assert(dec_value_bytes(bytes@.take(i as int + 1)) >= acc * 10);
                        lemma_dec_value_bytes_take_le(bytes@, i as int + 1, bytes@.len() as int);
                        assert(bytes@.take(bytes@.len() as int) =~= bytes@);
                    }
                }
                return None;
            },
        };
        proof {
            assert(bytes@.take(i as int + 1).drop_last() =~= bytes@.take(i as int));
        }
        acc = next_acc;
        i = i + 1;
    }
    proof {
        assert(bytes@.take(bytes@.len() as int) =~= bytes@);
    }
    Some(acc)
}

} // verus!
