//! The read side of the synchronization boundary: a diff request names the
//! state it starts from by a checksum written in decimal.

use vstd::prelude::*;
use vstd::string::StringSliceAdditionalSpecFns;
use crate::checksum::Checksum;
use crate::entity_map::ids_increasing;
use crate::store::{
    answers, diff_outcome, has_base, Diff, DiffError, Snapshot, WorldStateStore,
};

verus! {

/// The byte is an ASCII digit.
pub open spec fn is_digit(b: u8) -> bool {
    48 <= b <= 57
}

/// Every byte is an ASCII digit.
pub open spec fn all_digits(digits: Seq<u8>) -> bool {
    forall|i: int| 0 <= i < digits.len() ==> is_digit(#[trigger] digits[i])
}

/// The number that a run of ASCII digits writes in decimal.
pub open spec fn decimal_value(digits: Seq<u8>) -> nat
    decreases digits.len(),
{
    if digits.len() == 0 {
        0
    } else {
        decimal_value(digits.drop_last()) * 10 + (digits.last() - 48) as nat
    }
}

/// The text without a leading plus sign.
pub open spec fn unsigned_part(bytes: Seq<u8>) -> Seq<u8> {
    if bytes.len() > 0 && bytes[0] == 43 {
        bytes.subrange(1, bytes.len() as int)
    } else {
        bytes
    }
}

/// The checksum that a text writes: an optional plus sign, then one or more
/// decimal digits whose value fits in 64 bits. Any other text writes none.
pub open spec fn parsed_checksum(bytes: Seq<u8>) -> Option<Checksum> {
    let digits = unsigned_part(bytes);
    if digits.len() > 0 && all_digits(digits) && decimal_value(digits) <= u64::MAX {
        Some(decimal_value(digits) as u64)
    } else {
        None
    }
}

/// A run of digits is worth at least as much as any of its beginnings.
pub proof fn lemma_decimal_grows(digits: Seq<u8>, k: int)
    requires
        all_digits(digits),
        0 <= k <= digits.len(),
    ensures
        decimal_value(digits.take(k)) <= decimal_value(digits),
    decreases digits.len() - k,
{
    if k == digits.len() {
        assert(digits.take(k) =~= digits);
    } else {
        lemma_decimal_grows(digits, k + 1);
        assert(digits.take(k + 1).drop_last() =~= digits.take(k));
        assert(is_digit(digits[k]));
    }
}

/// Reads a checksum written in decimal.
pub fn parse_checksum(text: &str) -> (r: Option<Checksum>)
    ensures
        r == parsed_checksum(text.spec_bytes()),
{
    let bytes = text.as_bytes();
    let n = bytes.len();
    let first: usize = if n > 0 && bytes[0] == 43 {
        1
    } else {
        0
    };
    if first == n {
        return None;
    }
    let ghost digits = unsigned_part(bytes@);
    let mut value: u64 = 0;
    let mut i: usize = first;
    proof {
        assert(digits.take(0) =~= Seq::<u8>::empty());
    }
    while i < n
        invariant
            n == bytes@.len(),
            bytes@ == text.spec_bytes(),
            first <= i <= n,
            first <= 1,
            digits == unsigned_part(bytes@),
            digits.len() == n - first,
            forall|k: int| 0 <= k < digits.len() ==> digits[k] == bytes@[k + first],
            all_digits(digits.take(i - first)),
            value == decimal_value(digits.take(i - first)),
        decreases n - i,
    {
        let b = bytes[i];
        let ghost done = digits.take(i - first);
        let ghost more = digits.take(i - first + 1);
        proof {
            assert(more.drop_last() =~= done);
            assert(more.last() == b);
        }
        if b < 48 || b > 57 {
            proof {
                assert(!is_digit(digits[i - first]));
            }
            return None;
        }
        proof {
            assert(all_digits(more)) by {
                assert forall|k: int| 0 <= k < more.len() implies is_digit(#[trigger] more[k]) by {
                    if k < done.len() {
                        assert(more[k] == done[k]);
                    }
                }
            }
            if all_digits(digits) {
                lemma_decimal_grows(digits, i - first + 1);
            }
        }
        let digit: u64 = (b - 48) as u64;
        let tenfold = match value.checked_mul(10) {
            Some(v) => v,
            None => {
                return None;
            },
        };
        value = match tenfold.checked_add(digit) {
            Some(v) => v,
            None => {
                return None;
            },
        };
        i += 1;
    }
    proof {
        assert(digits.take(i - first) =~= digits);
    }
    Some(value)
}

/// What a diff request is answered with: `MissingSince` if it names no
/// checksum, `ParseError` if what it names is no checksum, and else what the
/// store answers for that checksum.
pub fn diff_request(store: &WorldStateStore, since: Option<&str>) -> (r: Result<Diff, DiffError>)
    requires
        store.wf(),
    ensures
        match since {
            None => r == Err::<Diff, DiffError>(DiffError::MissingSince),
            Some(text) => match parsed_checksum(text.spec_bytes()) {
                None => r == Err::<Diff, DiffError>(DiffError::ParseError),
                Some(c) => {
                    &&& answers(
                        r,
                        diff_outcome(
                            store.history(),
                            store.retired(),
                            store.tick(),
                            store.checksum(),
                            c,
                        ),
                    )
                    &&& r is Ok <==> c == store.checksum() || has_base(store.history(), c)
                    &&& r == Err::<Diff, DiffError>(DiffError::ChecksumTooOld) <==> c
                        != store.checksum() && !has_base(store.history(), c)
                        && store.seen().contains(c)
                    &&& r == Err::<Diff, DiffError>(DiffError::UnknownChecksum)
                        <==> !store.seen().contains(c)
                },
            },
        },
{
    let text = match since {
        Some(text) => text,
        None => {
            return Err(DiffError::MissingSince);
        },
    };
    let checksum = match parse_checksum(text) {
        Some(value) => value,
        None => {
            return Err(DiffError::ParseError);
        },
    };
    store.diff_since(checksum)
}

/// What a snapshot request is answered with: the whole current state.
pub fn snapshot_request(store: &WorldStateStore) -> (s: Snapshot)
    requires
        store.wf(),
    ensures
        s.tick == store.tick(),
        s.checksum == store.checksum(),
        s.entities@ == store.listing(),
        ids_increasing(s.entities@),
{
    store.snapshot()
}

} // verus!
