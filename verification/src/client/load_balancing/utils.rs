//! Sharding of resolver updates for parent policies with one child per
//! endpoint.

use crate::client::load_balancing::pick_first::{addr_views, endpoint_views};
use crate::client::name_resolution::Address;
use vstd::prelude::*;

verus! {

fn clone_addresses(v: &Vec<Address>) -> (r: Vec<Address>)
    ensures
        addr_views(r@) == addr_views(v@),
{
    let mut out: Vec<Address> = Vec::new();
    let mut i: usize = 0;
    while i < v.len()
        invariant
            0 <= i <= v@.len(),
            addr_views(out@) == addr_views(v@.take(i as int)),
        decreases v@.len() - i,
    {
        let ghost o = out@;
        out.push(v[i].clone());
        proof {
            assert(v@.take(i + 1) =~= v@.take(i as int).push(v@[i as int]));
            assert(addr_views(out@) =~= addr_views(o).push(v@[i as int]@));
            assert(addr_views(v@.take(i + 1)) =~= addr_views(v@.take(i as int)).push(v@[i as int]@));
        }
        i = i + 1;
    }
    proof {
        assert(v@.take(v@.len() as int) =~= v@);
    }
    out
}

/// One child per endpoint: for each endpoint in order, the child's
/// identifier (the endpoint) and the endpoints of the update it receives
/// (that endpoint alone).
pub fn shard_by_endpoint(endpoints: &Vec<Vec<Address>>) -> (r: Vec<(Vec<Address>, Vec<Vec<Address>>)>)
    ensures
        r@.len() == endpoints@.len(),
        forall|i: int|
            0 <= i < r@.len() ==> addr_views((#[trigger] r@[i]).0@) == addr_views(endpoints@[i]@)
                && endpoint_views(r@[i].1@) == seq![addr_views(endpoints@[i]@)],
{
    let mut out: Vec<(Vec<Address>, Vec<Vec<Address>>)> = Vec::new();
    let mut i: usize = 0;
    while i < endpoints.len()
        invariant
            0 <= i <= endpoints@.len(),
            out@.len() == i,
            forall|j: int|
                0 <= j < i ==> addr_views((#[trigger] out@[j]).0@) == addr_views(endpoints@[j]@)
                    && endpoint_views(out@[j].1@) == seq![addr_views(endpoints@[j]@)],
        decreases endpoints@.len() - i,
    {
        let id = clone_addresses(&endpoints[i]);
        let single = clone_addresses(&endpoints[i]);
        let mut update: Vec<Vec<Address>> = Vec::new();
        update.push(single);
        proof {
            assert(endpoint_views(update@) =~= seq![addr_views(endpoints@[i as int]@)]);
        }
        out.push((id, update));
        i = i + 1;
    }
    out
}

} // verus!
