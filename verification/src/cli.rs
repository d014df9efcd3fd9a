//! Command-line level values: the configuration-parsing failures, and
//! the verified decimal parsing that argument handling rests on. The
//! argument vector itself, the environment and the file probe stay with
//! the caller.

use vstd::prelude::*;

verus! {

/// A configuration failure: the run is aborted before simulation
/// begins, with the offending value riding along for the diagnostic.
#[derive(Debug)]
pub enum ParseError {
    InvalidUsage(String),
    InvalidAntCount(String),
    FileNotFound(String),
    InvalidSeed(String),
}

/// Whether the byte is an ASCII decimal digit.
pub open spec fn is_digit(b: u8) -> bool {
    48 <= b <= 57
}

/// The number the digit string denotes.
pub open spec fn dec_value(s: Seq<u8>) -> int
    decreases s.len(),
{
    if s.len() == 0 {
        0
    } else {
        dec_value(s.drop_last()) * 10 + (s.last() - 48)
    }
}

/// Whether every byte is a decimal digit.
pub open spec fn all_digits(s: Seq<u8>) -> bool {
    forall|i: int| 0 <= i < s.len() ==> is_digit(#[trigger] s[i])
}

/// The digits of a number, stripped of one optional leading plus sign.
pub open spec fn digit_body(s: Seq<u8>) -> Seq<u8> {
    if s.len() >= 1 && s[0] == 43 {
        s.drop_first()
    } else {
        s
    }
}

/// A digit string denotes a number no smaller than any prefix denotes.
pub proof fn lemma_dec_value_bounds(s: Seq<u8>, k: int)
    requires
        0 <= k <= s.len(),
        all_digits(s),
    ensures
        dec_value(s) >= dec_value(s.subrange(0, k)) >= 0,
    decreases s.len() - k,
{
    if k == s.len() {
        assert(s.subrange(0, k) =~= s);
        lemma_dec_value_nonneg(s);
    } else {
        lemma_dec_value_bounds(s, k + 1);
        let p = s.subrange(0, k + 1);
        assert(p.drop_last() =~= s.subrange(0, k));
        lemma_dec_value_nonneg(s.subrange(0, k));
        assert(dec_value(p) == dec_value(s.subrange(0, k)) * 10 + (p.last() - 48));
    }
}

/// A digit string denotes nothing negative.
pub proof fn lemma_dec_value_nonneg(s: Seq<u8>)
    requires
        all_digits(s),
    ensures
        dec_value(s) >= 0,
    decreases s.len(),
{
    if s.len() > 0 {
        assert(all_digits(s.drop_last()));
        lemma_dec_value_nonneg(s.drop_last());
    }
}

/// Parses an unsigned decimal number with one optional leading plus
/// sign, exactly when the digits denote a value that fits in 64 bits.
pub fn parse_u64_bytes(s: &Vec<u8>) -> (r: Option<u64>)
    ensures
        ({
            let body = digit_body(s@);
            let ok = body.len() >= 1 && all_digits(body) && dec_value(body) <= u64::MAX;
            r == (if ok {
                Some(dec_value(body) as u64)
            } else {
                None::<u64>
            })
        }),
{
    let ghost body = digit_body(s@);
    let start: usize = if s.len() >= 1 && s[0] == 43 {
        1
    } else {
        0
    };
    proof {
        assert(body =~= s@.subrange(start as int, s@.len() as int));
    }
    if s.len() == start {
        return None;
    }
    let mut acc: u64 = 0;
    let mut i: usize = start;
    while i < s.len()
        invariant
            start <= i <= s@.len(),
            body == digit_body(s@),
            body == s@.subrange(start as int, s@.len() as int),
            all_digits(body.subrange(0, i - start)),
            acc as int == dec_value(body.subrange(0, i - start)),
        decreases s.len() - i,
    {
        let b = s[i];
        if b < 48 || b > 57 {
            proof {
                assert(body[i - start] == s@[i as int]);
                assert(!all_digits(body));
            }
            return None;
        }
        let d = (b - 48) as u64;
        proof {
            assert(body.subrange(0, i - start + 1).drop_last() =~= body.subrange(0, i - start));
            assert(body.subrange(0, i - start + 1).last() == s@[i as int]);
        }
        if acc > (u64::MAX - d) / 10 {
            proof {
                let p = body.subrange(0, i - start + 1);
                assert(dec_value(p) == acc as int * 10 + d);
                assert(acc as int * 10 + d > u64::MAX) by (nonlinear_arith)
                    requires
                        acc as int > ((u64::MAX - d) as int) / 10,
                        0 <= d <= 9,
                ;
                if all_digits(body) && dec_value(body) <= u64::MAX {
                    lemma_dec_value_bounds(body, i - start + 1);
                }
            }
            return None;
        }
        proof {
            assert(acc as int * 10 + d <= u64::MAX) by (nonlinear_arith)
                requires
                    acc as int <= ((u64::MAX - d) as int) / 10,
                    0 <= d <= 9,
            ;
        }
        acc = acc * 10 + d;
        i = i + 1;
    }
    proof {
        assert(body.subrange(0, i - start) =~= body);
    }
    Some(acc)
}

/// Parses an unsigned decimal number into sixteen bits, exactly when the
/// digits denote a value that fits.
pub fn parse_u16_bytes(s: &Vec<u8>) -> (r: Option<u16>)
    ensures
        ({
            let body = digit_body(s@);
            let ok = body.len() >= 1 && all_digits(body) && dec_value(body) <= u16::MAX;
            r == (if ok {
                Some(dec_value(body) as u16)
            } else {
                None::<u16>
            })
        }),
{
    match parse_u64_bytes(s) {
        Some(v) => {
            proof {
                let body = digit_body(s@);
                if all_digits(body) {
                    lemma_dec_value_nonneg(body);
                }
            }
            if v <= 0xFFFF {
                Some(v as u16)
            } else {
                None
            }
        },
        None => {
            proof {
                let body = digit_body(s@);
                if body.len() >= 1 && all_digits(body) && dec_value(body) <= u16::MAX {
                    assert(dec_value(body) <= u64::MAX);
                }
            }
            None
        },
    }
}

} // verus!
