//! The reconciliation engine: diffing a request's resource lines against a
//! stock snapshot. Each line is judged independently against the same
//! snapshot: a line whose stock covers the requested amount is completed and
//! reported with the requested amount; any other line is remaining and
//! reported with the shortfall. Equality counts as completed.

use vstd::prelude::*;
use crate::inventory::{Inventory, stock_in};
use crate::normalize::{normalize_spec, normalize_resource_key};
use crate::parse::items_view;

verus! {

/// Whether stock covers one requested line; the boundary `stock == amount`
/// is completed.
pub open spec fn line_completed(item: (u64, Seq<char>), inv: Seq<(String, u64)>) -> bool {
    stock_in(inv, normalize_spec(item.1)) >= item.0
}

/// The shortfall of a line that stock does not cover.
pub open spec fn line_shortfall(item: (u64, Seq<char>), inv: Seq<(String, u64)>) -> u64 {
    (item.0 - stock_in(inv, normalize_spec(item.1))) as u64
}

/// The covered lines, in input order, each with its requested amount.
pub open spec fn completed_of(rs: Seq<(u64, Seq<char>)>, inv: Seq<(String, u64)>) -> Seq<
    (u64, Seq<char>),
>
    decreases rs.len(),
{
    if rs.len() == 0 {
        Seq::empty()
    } else {
        completed_of(rs.drop_last(), inv) + (if line_completed(rs.last(), inv) {
            seq![rs.last()]
        } else {
            Seq::empty()
        })
    }
}

/// The uncovered lines, in input order, each with its shortfall.
pub open spec fn remaining_of(rs: Seq<(u64, Seq<char>)>, inv: Seq<(String, u64)>) -> Seq<
    (u64, Seq<char>),
>
    decreases rs.len(),
{
    if rs.len() == 0 {
        Seq::empty()
    } else {
        remaining_of(rs.drop_last(), inv) + (if !line_completed(rs.last(), inv) {
            seq![(line_shortfall(rs.last(), inv), rs.last().1)]
        } else {
            Seq::empty()
        })
    }
}

/// Splits a request's lines into completed and remaining against one
/// unmutated snapshot. Pure: every line is judged independently, a missing
/// key counts as zero stock, and `stock == requested` is completed.
pub fn compute_completed_remaining(resources: &Vec<(u64, String)>, inventory: &Inventory) -> (r: (
    Vec<(u64, String)>,
    Vec<(u64, String)>,
))
    ensures
        items_view(r.0@) == completed_of(items_view(resources@), inventory@),
        items_view(r.1@) == remaining_of(items_view(resources@), inventory@),
{
    let mut completed: Vec<(u64, String)> = Vec::new();
    let mut remaining: Vec<(u64, String)> = Vec::new();
    let mut i: usize = 0;
    let ghost full = items_view(resources@);
    proof {
        assert(items_view(completed@) =~= Seq::<(u64, Seq<char>)>::empty());
        assert(items_view(remaining@) =~= Seq::<(u64, Seq<char>)>::empty());
        assert(full.take(0) =~= Seq::<(u64, Seq<char>)>::empty());
    }
    while i < resources.len()
        invariant
            i <= resources@.len(),
            full == items_view(resources@),
            items_view(completed@) == completed_of(full.take(i as int), inventory@),
            items_view(remaining@) == remaining_of(full.take(i as int), inventory@),
        decreases resources@.len() - i,
    {
        let line = &resources[i];
        let key = normalize_resource_key(line.1.as_str());
        let stock = inventory.stock_of(&key);
        let ghost comp0 = completed@;
        let ghost rem0 = remaining@;
        if stock >= line.0 {
            completed.push((line.0, line.1.clone()));
        } else {
            remaining.push((line.0 - stock, line.1.clone()));
        }
        i = i + 1;
        proof {
            assert(full.take(i as int).drop_last() =~= full.take(i as int - 1));
            assert(full.take(i as int).last() == full[i as int - 1]);
            assert(full[i as int - 1] == (resources@[i as int - 1].0, resources@[i as int - 1].1@));
            if stock >= resources@[i as int - 1].0 {
                assert(items_view(completed@) =~= items_view(comp0) + seq![full[i as int - 1]]);
                assert(items_view(remaining@) =~= items_view(rem0) + Seq::<
                    (u64, Seq<char>),
                >::empty());
            } else {
                assert(items_view(completed@) =~= items_view(comp0) + Seq::<
                    (u64, Seq<char>),
                >::empty());
                assert(items_view(remaining@) =~= items_view(rem0) + seq![
                    (line_shortfall(full[i as int - 1], inventory@), full[i as int - 1].1),
                ]);
            }
        }
    }
    proof {
        assert(full.take(resources@.len() as int) =~= full);
    }
    (completed, remaining)
}

} // verus!
