//! Relay latencies and the choice of the fastest relay.
use vstd::prelude::*;

verus! {

/// A relay with its measured round-trip time, `None` when it did not answer.
#[derive(Debug, Clone)]
pub struct RelayWithLatency {
    pub id: String,
    pub name: String,
    pub address: String,
    pub latency_ms: Option<u64>,
}

/// `i` is the first relay with the lowest measured latency.
pub open spec fn is_first_fastest(relays: Seq<RelayWithLatency>, i: int) -> bool {
    &&& 0 <= i < relays.len()
    &&& relays[i].latency_ms is Some
    &&& forall|j: int|
        0 <= j < relays.len() && relays[j].latency_ms is Some ==> relays[i].latency_ms->0
            <= relays[j].latency_ms->0
    &&& forall|j: int|
        0 <= j < i && relays[j].latency_ms is Some ==> relays[i].latency_ms->0
            < relays[j].latency_ms->0
}

/// The index of the fastest relay that answered, the first among equals.
pub fn fastest_relay_index(relays: &[RelayWithLatency]) -> (res: Option<usize>)
    ensures
        match res {
            Some(i) => is_first_fastest(relays@, i as int),
            None => forall|j: int| 0 <= j < relays@.len() ==> relays@[j].latency_ms is None,
        },
{
    let mut best: Option<usize> = None;
    let mut i: usize = 0;
    while i < relays.len()
        invariant
            i <= relays@.len(),
            match best {
                Some(b) => is_first_fastest(relays@.take(i as int), b as int),
                None => forall|j: int| 0 <= j < i ==> relays@[j].latency_ms is None,
            },
        decreases relays@.len() - i,
    {
        let ghost prefix = relays@.take(i + 1);
        match relays[i].latency_ms {
            Some(l) => {
                match best {
                    Some(b) => {
                        let bl = relays[b].latency_ms.unwrap();
                        if l < bl {
                            best = Some(i);
                            proof {
                                assert forall|j: int|
                                    0 <= j < prefix.len() && prefix[j].latency_ms is Some implies l
                                    <= prefix[j].latency_ms->0 by {
                                    if j < i {
                                        assert(relays@.take(i as int)[j] == prefix[j]);
                                        assert(relays@.take(i as int)[b as int] == relays@[b as int]);
                                    }
                                }
                                assert forall|j: int|
                                    0 <= j < i && prefix[j].latency_ms is Some implies l
                                    < prefix[j].latency_ms->0 by {
                                    assert(relays@.take(i as int)[j] == prefix[j]);
                                    assert(relays@.take(i as int)[b as int] == relays@[b as int]);
                                }
                            }
                        } else {
                            proof {
                                assert(relays@.take(i as int)[b as int] == relays@[b as int]);
                                assert forall|j: int|
                                    0 <= j < prefix.len() && prefix[j].latency_ms is Some implies bl
                                    <= prefix[j].latency_ms->0 by {
                                    if j < i {
                                        assert(relays@.take(i as int)[j] == prefix[j]);
                                    }
                                }
                                assert forall|j: int|
                                    0 <= j < b && prefix[j].latency_ms is Some implies bl
                                    < prefix[j].latency_ms->0 by {
                                    assert(relays@.take(i as int)[j] == prefix[j]);
                                }
                            }
                        }
                    },
                    None => {
                        best = Some(i);
                    },
                }
            },
            None => {
                proof {
                    if let Some(b) = best {
                        assert(relays@.take(i as int)[b as int] == relays@[b as int]);
                        assert forall|j: int|
                            0 <= j < prefix.len() && prefix[j].latency_ms is Some implies relays@[b as int].latency_ms->0
                            <= prefix[j].latency_ms->0 by {
                            if j < i {
                                assert(relays@.take(i as int)[j] == prefix[j]);
                            }
                        }
                        assert forall|j: int|
                            0 <= j < b && prefix[j].latency_ms is Some implies relays@[b as int].latency_ms->0
                            < prefix[j].latency_ms->0 by {
                            assert(relays@.take(i as int)[j] == prefix[j]);
                        }
                    }
                }
            },
        }
        i = i + 1;
    }
    assert(relays@.take(relays@.len() as int) =~= relays@);
    best
}

/// The fastest relay that answered, the first among equals; `None` when no
/// relay answered.
pub fn select_best_relay(relays: &[RelayWithLatency]) -> (res: Option<&RelayWithLatency>)
    ensures
        match res {
            Some(r) => exists|i: int| is_first_fastest(relays@, i) && *r == relays@[i],
            None => forall|j: int| 0 <= j < relays@.len() ==> relays@[j].latency_ms is None,
        },
{
    match fastest_relay_index(relays) {
        Some(i) => Some(&relays[i]),
        None => None,
    }
}

} // verus!
