//! Validation of the optional `EX seconds` clause of `SET`: the option word
//! must be exactly `EX` and the argument must parse as a non-negative integer.
use vstd::prelude::*;

use crate::bytes_helper::{bytes_eq, to_vec};
use crate::types::CmdError;
use vstd::slice::slice_subrange;

verus! {

/// The option word `EX`.
pub open spec fn opt_ex() -> Seq<u8> {
    seq![69u8, 88]
}

/// ASCII decimal digit.
pub open spec fn is_digit(b: u8) -> bool {
    48 <= b && b <= 57
}

pub open spec fn all_digits(s: Seq<u8>) -> bool {
    forall|i: int| 0 <= i < s.len() ==> is_digit(s[i])
}

/// Value of a digit string read in base ten.
pub open spec fn dec_val(s: Seq<u8>) -> int
    decreases s.len(),
{
    if s.len() == 0 {
        0
    } else {
        dec_val(s.drop_last()) * 10 + (s.last() - 48)
    }
}

/// The digits of a decimal numeral after an optional leading `+` sign.
pub open spec fn digits_part(s: Seq<u8>) -> Seq<u8> {
    if s.len() >= 1 && s[0] == 43 {
        s.skip(1)
    } else {
        s
    }
}

/// Whether `s` is a well-formed non-negative decimal numeral that fits the
/// machine's integer range.
pub open spec fn ex_num_ok(s: Seq<u8>) -> bool {
    let d = digits_part(s);
    d.len() >= 1 && all_digits(d) && dec_val(d) <= u64::MAX
}

proof fn lemma_dec_val_nonneg(s: Seq<u8>)
    requires
        all_digits(s),
    ensures
        dec_val(s) >= 0,
    decreases s.len(),
{
    if s.len() > 0 {
        assert(all_digits(s.drop_last())) by {
            assert(forall|i: int| 0 <= i < s.len() - 1 ==> s.drop_last()[i] == s[i]);
        }
        lemma_dec_val_nonneg(s.drop_last());
    }
}

/// Extending a digit string can only grow its value.
proof fn lemma_dec_val_prefix(s: Seq<u8>, j: int)
    requires
        all_digits(s),
        0 <= j <= s.len(),
    ensures
        dec_val(s) >= dec_val(s.take(j)),
    decreases s.len(),
{
    if j == s.len() {
        assert(s.take(j) =~= s);
    } else {
        assert(all_digits(s.drop_last())) by {
            assert(forall|i: int| 0 <= i < s.len() - 1 ==> s.drop_last()[i] == s[i]);
        }
        lemma_dec_val_nonneg(s.drop_last());
        lemma_dec_val_prefix(s.drop_last(), j);
        assert(s.drop_last().take(j) =~= s.take(j));
        assert(is_digit(s.last()));
    }
}

/// Checks that `d` is one or more digits whose value fits in `u64`.
fn dec_check(d: &[u8]) -> (r: bool)
    ensures
        r == (d@.len() >= 1 && all_digits(d@) && dec_val(d@) <= u64::MAX),
{
    if d.len() == 0 {
        return false;
    }
    let mut acc: u64 = 0;
    let mut i: usize = 0;
    while i < d.len()
        invariant
            i <= d.len(),
            all_digits(d@.take(i as int)),
            acc == dec_val(d@.take(i as int)),
        decreases d.len() - i,
    {
        let b = d[i];
        if b < 48 || b > 57 {
            return false;
        }
        let dig = (b - 48) as u64;
        proof {
            assert(d@.take(i + 1).drop_last() =~= d@.take(i as int));
            assert(d@.take(i + 1).last() == d@[i as int]);
            assert(all_digits(d@.take(i + 1)));
        }
        if acc > (u64::MAX - dig) / 10 {
            proof {
                assert(acc * 10 + dig > u64::MAX) by (nonlinear_arith)
                    requires
                        acc > (u64::MAX - dig) / 10,
                        dig <= 9,
                ;
                assert(dec_val(d@.take(i + 1)) > u64::MAX);
                assert(all_digits(d@) ==> dec_val(d@) > u64::MAX) by {
                    if all_digits(d@) {
                        lemma_dec_val_prefix(d@, i + 1);
                    }
                }
            }
            return false;
        }
        proof {
            assert(acc * 10 + dig <= u64::MAX) by (nonlinear_arith)
                requires
                    acc <= (u64::MAX - dig) / 10,
                    dig <= 9,
            ;
        }
        acc = acc * 10 + dig;
        i += 1;
    }
    proof {
        assert(d@.take(d@.len() as int) =~= d@);
    }
    true
}

/// Validates the `EX seconds` clause: `opt` must equal `EX` and `arg` must be
/// a non-negative decimal numeral in range.
pub fn validate_ex(opt: &Vec<u8>, arg: &Vec<u8>) -> (r: Result<(), CmdError>)
    ensures
        match r {
            Ok(()) => opt@ == opt_ex() && ex_num_ok(arg@),
            Err(e) => !(opt@ == opt_ex() && ex_num_ok(arg@)) && (if opt@ != opt_ex() {
                &&& e matches CmdError::InvalidExOption { found }
                &&& found@ == opt@
            } else {
                e is InvalidExNumber
            }),
        },
{
    let ex: [u8; 2] = [69, 88];
    proof {
        assert(ex@ =~= opt_ex());
    }
    if !bytes_eq(opt.as_slice(), ex.as_slice()) {
        return Err(CmdError::InvalidExOption { found: to_vec(opt.as_slice()) });
    }
    let d_ok = if arg.len() >= 1 && arg[0] == 43 {
        let d = slice_subrange(arg.as_slice(), 1, arg.len());
        proof {
            assert(d@ =~= digits_part(arg@));
        }
        dec_check(d)
    } else {
        proof {
            assert(arg@ =~= digits_part(arg@));
        }
        dec_check(arg.as_slice())
    };
    if d_ok {
        Ok(())
    } else {
        Err(CmdError::InvalidExNumber)
    }
}

} // verus!
