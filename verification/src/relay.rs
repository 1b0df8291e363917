//! Fanning a signed transaction out to every private relay.

use vstd::prelude::*;

verus! {

/// What one private relay answered.
#[derive(Clone, Copy, PartialEq, Eq, Structural, Debug)]
pub enum RelayOutcome {
    /// The relay accepted the transaction and returned its hash.
    Accepted { tx_hash: u64 },
    /// The relay failed; a code for its error.
    Failed { code: u64 },
}

/// The hash returned by the first relay to accept, in dispatch order.
pub open spec fn first_success(s: Seq<RelayOutcome>) -> Option<u64>
    decreases s.len(),
{
    if s.len() == 0 {
        None
    } else if s[0] matches RelayOutcome::Accepted { tx_hash } {
        Some(s[0]->Accepted_tx_hash)
    } else {
        first_success(s.drop_first())
    }
}

/// Error code of a failed outcome.
pub open spec fn code_of(o: RelayOutcome) -> u64 {
    match o {
        RelayOutcome::Accepted { tx_hash } => 0,
        RelayOutcome::Failed { code } => code,
    }
}

/// Combines the relays' answers: the client gets the first success, and
/// only when every relay failed a consolidated error listing each
/// relay's outcome.
pub fn combine_relay_outcomes(outcomes: &Vec<RelayOutcome>) -> (r: Result<u64, Vec<u64>>)
    ensures
        (r is Ok) <==> first_success(outcomes@) is Some,
        r matches Ok(h) ==> first_success(outcomes@) == Some(h),
        r matches Err(codes) ==> codes@.len() == outcomes@.len() && (forall|k: int|
            0 <= k < outcomes@.len() ==> codes@[k] == code_of(#[trigger] outcomes@[k])
                && outcomes@[k] is Failed),
{
    proof {
        assert(outcomes@.skip(0) =~= outcomes@);
    }
    let n = outcomes.len();
    let mut codes: Vec<u64> = Vec::new();
    for i in 0..n
        invariant
            n == outcomes@.len(),
            first_success(outcomes@.skip(i as int)) == first_success(outcomes@),
            codes@.len() == i,
            forall|k: int|
                0 <= k < i ==> codes@[k] == code_of(#[trigger] outcomes@[k]) && outcomes@[k]
                    is Failed,
    {
        proof {
            assert(outcomes@.skip(i as int)[0] == outcomes@[i as int]);
        }
        match &outcomes[i] {
            RelayOutcome::Accepted { tx_hash } => {
                return Ok(*tx_hash);
            },
            RelayOutcome::Failed { code } => {
                codes.push(*code);
            },
        }
        proof {
            assert(outcomes@.skip(i as int).drop_first() =~= outcomes@.skip(i + 1));
        }
    }
    proof {
        assert(outcomes@.skip(n as int) =~= Seq::<RelayOutcome>::empty());
    }
    Err(codes)
}

} // verus!
