//! Parsing of percentage arguments such as `"60%"`.
//!
//! The host's command line accepts a screen fraction as a decimal number
//! with any number of trailing `%` signs stripped off. The value must be
//! made of decimal digits only and lie between 0 and 100.

use vstd::prelude::*;

use vstd::string::StringSliceAdditionalSpecFns;

verus! {

/// Why a percentage failed to parse.
#[derive(Clone, Copy, Debug, PartialEq, Eq, Structural)]
pub enum PercentError {
    /// After stripping `%` signs nothing was left, or a character was not
    /// a decimal digit.
    NotANumber,
    /// The number is above 100.
    OutOfRange,
}

/// An ASCII decimal digit.
pub open spec fn spec_is_digit(b: u8) -> bool {
    0x30 <= b <= 0x39
}

/// The input with every trailing `%` (byte 0x25) removed.
pub open spec fn spec_strip_percents(bs: Seq<u8>) -> Seq<u8>
    decreases bs.len(),
{
    if bs.len() > 0 && bs.last() == 0x25u8 {
        spec_strip_percents(bs.drop_last())
    } else {
        bs
    }
}

/// The number the digits from index `i` on spell, continuing from `acc`.
pub open spec fn spec_digits_value(bs: Seq<u8>, i: int, acc: int) -> int
    decreases bs.len() - i,
{
    if i < 0 || i >= bs.len() {
        acc
    } else {
        spec_digits_value(bs, i + 1, acc * 10 + (bs[i] - 0x30))
    }
}

/// The number a digit string spells.
pub open spec fn spec_percent_value(bs: Seq<u8>) -> int {
    spec_digits_value(bs, 0, 0)
}

/// A value already above 100 can only grow as more digits follow.
proof fn lemma_digits_value_grows(bs: Seq<u8>, i: int, acc: int)
    requires
        acc > 100,
        forall|k: int| 0 <= k < bs.len() ==> spec_is_digit(#[trigger] bs[k]),
    ensures
        spec_digits_value(bs, i, acc) > 100,
    decreases bs.len() - i,
{
    if 0 <= i < bs.len() {
        lemma_digits_value_grows(bs, i + 1, acc * 10 + (bs[i] - 0x30));
    }
}

/// Parses a percentage: decimal digits with any trailing `%` signs, value
/// between 0 and 100.
///
/// Returns `Ok` exactly when, after stripping trailing `%` signs, at least
/// one character remains, all of them are decimal digits, and the number
/// they spell is at most 100; the `Ok` value is that number. Anything with
/// a stray character is `NotANumber`, a well-formed number above 100 is
/// `OutOfRange`.
pub fn parse_percentage(val: &str) -> (r: Result<u32, PercentError>)
    ensures
        ({
            let core = spec_strip_percents(val.spec_bytes());
            &&& (r is Ok <==> core.len() > 0 && (forall|k: int|
                0 <= k < core.len() ==> spec_is_digit(#[trigger] core[k])) && spec_percent_value(
                core,
            ) <= 100)
            &&& (r is Ok ==> r->Ok_0 == spec_percent_value(core) && r->Ok_0 <= 100)
            &&& (r is Err ==> ((r->Err_0 == PercentError::NotANumber) <==> (core.len() == 0
                || exists|k: int|
                0 <= k < core.len() && !spec_is_digit(#[trigger] core[k]))))
        }),
{
    let bytes = val.as_bytes();
    let ghost all = val.spec_bytes();
    // strip trailing '%' signs
    let mut end: usize = bytes.len();
    proof {
        assert(all.take(all.len() as int) =~= all);
    }
    while end > 0 && bytes[end - 1] == 0x25u8
        invariant
            all == val.spec_bytes(),
            end <= all.len(),
            bytes@ == all,
            spec_strip_percents(all.take(end as int)) == spec_strip_percents(all),
        decreases end,
    {
        proof {
            assert(all.take(end as int).last() == 0x25u8);
            assert(all.take(end as int).drop_last() =~= all.take(end - 1));
        }
        end = end - 1;
    }
    let ghost core = spec_strip_percents(all);
    proof {
        assert(spec_strip_percents(all.take(end as int)) == all.take(end as int));
        assert(core == all.take(end as int));
    }
    if end == 0 {
        return Err(PercentError::NotANumber);
    }
    // every remaining character must be a decimal digit
    let mut i: usize = 0;
    while i < end
        invariant
            all == val.spec_bytes(),
            core == spec_strip_percents(all),
            end <= all.len(),
            bytes@ == all,
            core == all.take(end as int),
            core.len() == end,
            i <= end,
            forall|k: int| 0 <= k < i ==> spec_is_digit(#[trigger] core[k]),
        decreases end - i,
    {
        let b = bytes[i];
        if b < 0x30u8 || b > 0x39u8 {
            proof {
                assert(!spec_is_digit(core[i as int]));
                assert(exists|k: int|
                    0 <= k < core.len() && !spec_is_digit(#[trigger] core[k]));
                assert(!(forall|k: int|
                    0 <= k < core.len() ==> spec_is_digit(#[trigger] core[k]))) by {
                    assert(0 <= i < core.len() && !spec_is_digit(core[i as int]));
                }
            }
            return Err(PercentError::NotANumber);
        }
        i = i + 1;
    }
    // read the value, capping once it exceeds 100
    let mut acc: u32 = 0;
    let ghost acc_g: int = 0;
    let mut j: usize = 0;
    while j < end
        invariant
            all == val.spec_bytes(),
            core == spec_strip_percents(all),
            end <= all.len(),
            bytes@ == all,
            core == all.take(end as int),
            core.len() == end,
            j <= end,
            forall|k: int| 0 <= k < core.len() ==> spec_is_digit(#[trigger] core[k]),
            spec_digits_value(core, j as int, acc_g) == spec_percent_value(core),
            (acc <= 100 && acc == acc_g) || (acc == 101 && acc_g > 100),
        decreases end - j,
    {
        let d = bytes[j];
        let ghost acc_g_old = acc_g;
        proof {
            acc_g = acc_g * 10 + (core[j as int] - 0x30);
        }
        if acc <= 100 {
            let next = acc * 10 + (d - 0x30u8) as u32;
            if next > 100 {
                acc = 101;
            } else {
                acc = next;
            }
        } else {
            proof {
                assert(acc_g_old > 100);
                assert(acc_g > 100) by (nonlinear_arith)
                    requires
                        acc_g == acc_g_old * 10 + (core[j as int] - 0x30),
                        acc_g_old > 100,
                        spec_is_digit(core[j as int]),
                ;
            }
        }
        j = j + 1;
    }
    proof {
        assert(spec_digits_value(core, end as int, acc_g) == acc_g);
    }
    if acc > 100 {
        return Err(PercentError::OutOfRange);
    }
    Ok(acc)
}

} // verus!
