//! The round-robin policy: one pick-first child per endpoint, RPCs spread
//! over the children in turn. This module holds its decisions: which
//! children a picker spreads over, when the children must leave `Idle`, and
//! the order in which a picker goes through its children.

use crate::client::load_balancing::aggregate_spec;
use crate::client::name_resolution::Address;
use crate::client::ConnectivityState;
use vstd::prelude::*;

verus! {

/// The error a round-robin policy fails with when the resolver gives no
/// address at all.
pub open spec fn empty_address_list_error() -> Seq<char> {
    "received empty address list from the name resolver"@
}

/// Whether any endpoint has an address.
pub fn addresses_available(endpoints: &Vec<Vec<Address>>) -> (r: bool)
    ensures
        r == exists|i: int| 0 <= i < endpoints@.len() && endpoints@[i]@.len() > 0,
{
    let mut i: usize = 0;
    while i < endpoints.len()
        invariant
            0 <= i <= endpoints@.len(),
            forall|j: int| 0 <= j < i ==> endpoints@[j]@.len() == 0,
        decreases endpoints@.len() - i,
    {
        if endpoints[i].len() > 0 {
            return true;
        }
        i = i + 1;
    }
    false
}

/// The error message of a resolver update without any address.
pub fn empty_address_list_message() -> (r: String)
    ensures
        r@ == empty_address_list_error(),
{
    String::from_str("received empty address list from the name resolver")
}

/// Whether some child is idle, in which case all children are asked to
/// leave `Idle`.
pub fn should_exit_idle(states: &Vec<ConnectivityState>) -> (r: bool)
    ensures
        r == states@.contains(ConnectivityState::Idle),
{
    let mut i: usize = 0;
    while i < states.len()
        invariant
            0 <= i <= states@.len(),
            forall|j: int| 0 <= j < i ==> states@[j] != ConnectivityState::Idle,
        decreases states@.len() - i,
    {
        if states[i] == ConnectivityState::Idle {
            proof {
                assert(states@[i as int] == ConnectivityState::Idle);
            }
            return true;
        }
        i = i + 1;
    }
    false
}

/// The state of the children a picker spreads over, given the aggregate
/// state: connecting ones when the aggregate is idle or connecting, and
/// otherwise those in the aggregate state.
pub open spec fn picker_target(aggregate: ConnectivityState) -> ConnectivityState {
    match aggregate {
        ConnectivityState::Idle => ConnectivityState::Connecting,
        other => other,
    }
}

/// The indices, in increasing order, of the states equal to `target`.
pub open spec fn indices_in_state(states: Seq<ConnectivityState>, target: ConnectivityState) -> Seq<usize>
    decreases states.len(),
{
    if states.len() == 0 {
        Seq::empty()
    } else {
        let prev = indices_in_state(states.drop_last(), target);
        if states.last() == target {
            prev.push((states.len() - 1) as usize)
        } else {
            prev
        }
    }
}

/// The picker a round-robin policy publishes for children in `states`: the
/// state it reports, the aggregate of the children's (idle reported as
/// connecting), and the children it spreads RPCs over.
pub fn aggregate_picker(states: &Vec<ConnectivityState>) -> (r: (ConnectivityState, Vec<usize>))
    ensures
        r.0 == picker_target(aggregate_spec(states@)),
        r.1@ == indices_in_state(states@, r.0),
{
    let aggregate = crate::client::load_balancing::aggregate_states(states);
    let target = match aggregate {
        ConnectivityState::Idle => ConnectivityState::Connecting,
        other => other,
    };
    let mut out: Vec<usize> = Vec::new();
    let mut i: usize = 0;
    while i < states.len()
        invariant
            0 <= i <= states@.len(),
            out@ == indices_in_state(states@.take(i as int), target),
        decreases states@.len() - i,
    {
        proof {
            assert(states@.take(i + 1).drop_last() =~= states@.take(i as int));
        }
        if states[i] == target {
            out.push(i);
        }
        i = i + 1;
    }
    proof {
        assert(states@.take(states@.len() as int) =~= states@);
    }
    (aggregate_target(aggregate, target), out)
}

fn aggregate_target(aggregate: ConnectivityState, target: ConnectivityState) -> (r: ConnectivityState)
    requires
        target == picker_target(aggregate),
    ensures
        r == picker_target(aggregate),
{
    target
}

/// A uniformly random index below `len`: `rand::random_range(..len)`, which
/// panics on an empty range (hence `len > 0`). Nothing is claimed of which
/// index comes out beyond its range.
#[verifier::external_body]
fn random_index(len: usize) -> (r: usize)
    requires
        len > 0,
    ensures
        r < len,
{
    rand::random_range(..len)
}

/// The rotation of a round-robin picker through its children: it starts at
/// a random child and then takes them in turn.
#[derive(Debug)]
pub struct RoundRobinIndex {
    len: usize,
    next: usize,
}

impl RoundRobinIndex {
    pub closed spec fn len(&self) -> nat {
        self.len as nat
    }

    /// The counter the next pick is taken from.
    pub closed spec fn counter(&self) -> nat {
        self.next as nat
    }

    /// A rotation over `len` children, starting at a random one.
    pub fn new(len: usize) -> (r: Self)
        requires
            len > 0,
        ensures
            r.len() == len,
            r.counter() < len,
    {
        RoundRobinIndex { len, next: random_index(len) }
    }

    /// The child the next RPC goes to; the counter moves on by one (and
    /// wraps around at `usize::MAX`).
    pub fn pick(&mut self) -> (r: usize)
        requires
            old(self).len() > 0,
        ensures
            final(self).len() == old(self).len(),
            r == old(self).counter() % old(self).len(),
            r < old(self).len(),
            final(self).counter() == if old(self).counter() < usize::MAX {
                old(self).counter() + 1
            } else {
                0
            },
    {
        let r = self.next % self.len;
        self.next = self.next.wrapping_add(1);
        r
    }
}

/// Which children a round-robin picker spreads over: when some child is
/// ready, exactly the ready children; when none is ready but some is
/// connecting, exactly the connecting ones; when all fail, all of them. In
/// each of these cases there is at least one.
pub proof fn lemma_picker_children(states: Seq<ConnectivityState>)
    requires
        states.len() <= usize::MAX,
    ensures
        forall|i: int|
            0 <= i < indices_in_state(states, picker_target(aggregate_spec(states))).len() ==> {
                let k = #[trigger] indices_in_state(states, picker_target(aggregate_spec(states)))[i];
                k < states.len() && states[k as int] == picker_target(aggregate_spec(states))
            },
        forall|k: int|
            0 <= k < states.len() && states[k] == picker_target(aggregate_spec(states)) ==> #[trigger] indices_in_state(
                states,
                picker_target(aggregate_spec(states)),
            ).contains(k as usize),
        aggregate_spec(states) != ConnectivityState::Idle && states.len() > 0 ==> indices_in_state(
            states,
            picker_target(aggregate_spec(states)),
        ).len() > 0,
{
    let t = picker_target(aggregate_spec(states));
    lemma_indices_in_state(states, t);
    if aggregate_spec(states) != ConnectivityState::Idle && states.len() > 0 {
        if aggregate_spec(states) == ConnectivityState::TransientFailure {
            // No child is ready, connecting or idle: the first one fails.
            assert(states[0] == ConnectivityState::TransientFailure) by {
                assert(!states.contains(states[0]) || states[0] == ConnectivityState::TransientFailure);
            }
        } else {
            let k = choose|k: int| 0 <= k < states.len() && states[k] == t;
            assert(indices_in_state(states, t).contains(k as usize));
        }
    }
}

proof fn lemma_indices_in_state(states: Seq<ConnectivityState>, t: ConnectivityState)
    requires
        states.len() <= usize::MAX,
    ensures
        forall|i: int|
            0 <= i < indices_in_state(states, t).len() ==> #[trigger] indices_in_state(states, t)[i]
                < states.len() && states[indices_in_state(states, t)[i] as int] == t,
        forall|k: int|
            0 <= k < states.len() && states[k] == t ==> #[trigger] indices_in_state(states, t).contains(
                k as usize,
            ),
    decreases states.len(),
{
    if states.len() > 0 {
        let p = states.drop_last();
        lemma_indices_in_state(p, t);
        let prev = indices_in_state(p, t);
        let cur = indices_in_state(states, t);
        assert forall|i: int| 0 <= i < cur.len() implies #[trigger] cur[i] < states.len() && states[cur[i] as int]
            == t by {
            if i < prev.len() {
                assert(cur[i] == prev[i]);
                assert(states[prev[i] as int] == p[prev[i] as int]);
            }
        }
        assert forall|k: int| 0 <= k < states.len() && states[k] == t implies #[trigger] cur.contains(k as usize) by {
            if k < states.len() - 1 {
                assert(p[k] == t);
                assert(prev.contains(k as usize));
                let j = choose|j: int| 0 <= j < prev.len() && prev[j] == k as usize;
                assert(cur[j] == k as usize);
            } else {
                assert(cur[cur.len() - 1] == k as usize);
            }
        }
    }
}

/// What a round-robin policy does with a resolver update.
#[derive(Debug)]
pub enum RrUpdatePlan {
    /// No endpoint has an address: the update is still forwarded to the
    /// children, then the policy fails with this error (a failing picker and
    /// a request for re-resolution) and refuses the update with it.
    FailEmpty(String),
    /// The update is forwarded to the children; then the children leave
    /// `Idle` if some is idle, and the aggregate picker is published if a
    /// child changed its picker. The update is accepted.
    Forward,
    /// A resolver error while there is no child: the policy fails with it
    /// and refuses the update with it.
    FailNoChildren(String),
}

/// Decides what a round-robin policy does with a resolver update (endpoints,
/// each a list of addresses, or an error), given whether it has children.
pub fn resolver_update_plan(update: &Result<Vec<Vec<Address>>, String>, has_children: bool) -> (r: RrUpdatePlan)
    ensures
        match update {
            Ok(eps) => if exists|i: int| 0 <= i < eps@.len() && eps@[i]@.len() > 0 {
                r is Forward
            } else {
                r matches RrUpdatePlan::FailEmpty(e) && e@ == empty_address_list_error()
            },
            Err(e) => if has_children {
                r is Forward
            } else {
                r matches RrUpdatePlan::FailNoChildren(x) && x@ == e@
            },
        },
{
    match update {
        Ok(eps) => {
            if addresses_available(eps) {
                RrUpdatePlan::Forward
            } else {
                RrUpdatePlan::FailEmpty(empty_address_list_message())
            }
        },
        Err(e) => {
            if has_children {
                RrUpdatePlan::Forward
            } else {
                RrUpdatePlan::FailNoChildren(e.clone())
            }
        },
    }
}

/// The child the `i`-th pick after counter `c` goes to, among `n`.
pub open spec fn rr_pick(c: int, i: int, n: int) -> int {
    (c + i) % n
}

/// Whether one of the `n` picks after counter `c` goes to child `k`.
pub open spec fn picked_in_round(c: int, n: int, k: int) -> bool {
    exists|i: int| 0 <= i < n && rr_pick(c, i, n) == k
}

/// Picks go round: from any counter, the next `len` picks (while the
/// counter does not wrap) go to `len` different children, so each child
/// gets exactly one of them.
pub proof fn lemma_round_robin_fair(counter: nat, len: nat)
    requires
        len > 0,
    ensures
        forall|i: int, j: int|
            0 <= i < j < len ==> #[trigger] rr_pick(counter as int, i, len as int) != #[trigger] rr_pick(
                counter as int,
                j,
                len as int,
            ),
        forall|k: int| 0 <= k < len ==> #[trigger] picked_in_round(counter as int, len as int, k),
{
    let n = len as int;
    let c = counter as int;
    assert forall|i: int, j: int| 0 <= i < j < n implies #[trigger] rr_pick(c, i, n) != #[trigger] rr_pick(c, j, n) by {
        lemma_mod_distinct(c, i, j, n);
    }
    assert forall|k: int| 0 <= k < n implies #[trigger] picked_in_round(c, n, k) by {
        let i = ((k - c % n) + n) % n;
        lemma_mod_hit(c, k, n);
        assert(rr_pick(c, i, n) == k);
    }
}

proof fn lemma_mod_distinct(c: int, i: int, j: int, n: int)
    by (nonlinear_arith)
    requires
        0 <= c,
        0 <= i < j < n,
    ensures
        (c + i) % n != (c + j) % n,
{
}

proof fn lemma_mod_hit(c: int, k: int, n: int)
    by (nonlinear_arith)
    requires
        0 <= c,
        0 <= k < n,
    ensures
        0 <= ((k - c % n) + n) % n < n,
        (c + ((k - c % n) + n) % n) % n == k,
{
}

} // verus!
