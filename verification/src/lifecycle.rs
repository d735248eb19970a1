//! The request lifecycle: start (open an entry), bulk add (parse and replace
//! the entry's resources), update (preview the diff against stock), finish
//! (consume the entry, assign a correlation identifier, emit the rows to
//! persist), and settlement (check cover, debit stock, mark rows done).
//! Everything here is pure apart from drawing the correlation identifier;
//! the callers perform the transport and persistence around it.

use vstd::prelude::*;
use crate::errors::RequestError;
use crate::inventory::{
    Inventory, stock_in, has_key_in, lemma_index_stock, lemma_stock_witness,
    lemma_absent_stock_zero,
};
use crate::normalize::{normalize_spec, normalize_resource_key, lemma_normalize_idempotent};
use crate::parse::{
    scan, sanitize_spec, parse_spec, preview_spec, preview_view, items_view, PreviewLine,
    parse_raw_items, convert_resources, preview_resources,
};
use crate::reconcile::{completed_of, remaining_of, compute_completed_remaining};
use crate::registry::{RequestRegistry, take_succeeds};
use crate::rows::{RowStatus, RequestRow, RequestRowModel, rows_view};

verus! {

/// A request that has just been posted: what the persistence and front-end
/// collaborators need to record it.
#[derive(Debug)]
pub struct FinishedRequest {
    /// The correlation identifier drawn at posting time.
    pub request_id: String,
    /// The request's free-text title.
    pub product: String,
    /// The resource lines to persist, one row each.
    pub resources: Vec<(u64, String)>,
    /// The front-end message that confirmed the start.
    pub message_ref: u64,
}

/// Relies on `uuid::Uuid::new_v4` and its `Display` form: a freshly drawn
/// random version-4 identifier, rendered hyphenated, 36 characters long.
/// The value depends on randomness, so nothing more is promised of it.
#[verifier::external_body]
fn fresh_request_id() -> (r: String)
    ensures
        r@.len() == 36,
{
    uuid::Uuid::new_v4().to_string()
}

/// Parses a pasted resource list and replaces the open request's resources
/// wholesale. Fails with `NoOpenRequest` if none is open, and with
/// `ParseError` (leaving the stored list untouched) if some quantity does
/// not fit; the preview reports every parsed line, conversions included.
pub fn bulk_add(registry: &mut RequestRegistry, user: u64, raw: &str) -> (r: Result<
    Vec<PreviewLine>,
    RequestError,
>)
    ensures
        r is Ok <==> take_succeeds(old(registry)@, user) && scan(sanitize_spec(raw@)) is Some,
        r is Err ==> final(registry)@ == old(registry)@,
        match r {
            Ok(preview) => {
                &&& preview_view(preview@) == preview_spec(scan(sanitize_spec(raw@)).unwrap())
                &&& final(registry)@.contains_key(user)
                &&& final(registry)@[user].product == old(registry)@[user].product
                &&& final(registry)@[user].message_ref == old(registry)@[user].message_ref
                &&& items_view(final(registry)@[user].resources@) == parse_spec(raw@).unwrap()
                &&& final(registry)@ == old(registry)@.insert(user, final(registry)@[user])
            },
            Err(e) => {
                if !take_succeeds(old(registry)@, user) {
                    e == RequestError::NoOpenRequest
                } else {
                    e == RequestError::ParseError && scan(sanitize_spec(raw@)) is None
                }
            },
        },
{
    if !registry.contains(user) {
        return Err(RequestError::NoOpenRequest);
    }
    match parse_raw_items(raw) {
        Err(e) => Err(e),
        Ok(items) => {
            let converted = convert_resources(&items);
            let preview = preview_resources(&items);
            match registry.replace_resources(user, converted) {
                Ok(()) => Ok(preview),
                Err(e) => {
                    // never reached: the entry's presence was checked above
                    proof {
                        assert(false);
                    }
                    Err(e)
                },
            }
        },
    }
}

/// Diffs the open request's resources against a stock snapshot, mutating
/// nothing. Fails with `NoOpenRequest` if none is open.
pub fn update(registry: &RequestRegistry, user: u64, inventory: &Inventory) -> (r: Result<
    (Vec<(u64, String)>, Vec<(u64, String)>),
    RequestError,
>)
    ensures
        r is Ok <==> take_succeeds(registry@, user),
        match r {
            Ok(diff) => {
                &&& items_view(diff.0@) == completed_of(
                    items_view(registry@[user].resources@),
                    inventory@,
                )
                &&& items_view(diff.1@) == remaining_of(
                    items_view(registry@[user].resources@),
                    inventory@,
                )
            },
            Err(e) => e == RequestError::NoOpenRequest,
        },
{
    match registry.peek(user) {
        Ok(entry) => Ok(compute_completed_remaining(&entry.resources, inventory)),
        Err(e) => Err(e),
    }
}

/// Consumes the open request and assigns it a fresh correlation identifier:
/// the transition to the posted state. Fails with `NoOpenRequest`, changing
/// nothing, if none is open.
pub fn finish(registry: &mut RequestRegistry, user: u64) -> (r: Result<
    FinishedRequest,
    RequestError,
>)
    ensures
        r is Ok <==> take_succeeds(old(registry)@, user),
        match r {
            Ok(f) => {
                &&& f.product == old(registry)@[user].product
                &&& f.resources == old(registry)@[user].resources
                &&& f.message_ref == old(registry)@[user].message_ref
                &&& f.request_id@.len() == 36
                &&& final(registry)@ == old(registry)@.remove(user)
            },
            Err(e) => e == RequestError::NoOpenRequest && final(registry)@ == old(registry)@,
        },
{
    match registry.take(user) {
        Ok(entry) => Ok(
            FinishedRequest {
                request_id: fresh_request_id(),
                product: entry.product,
                resources: entry.resources,
                message_ref: entry.message_ref,
            },
        ),
        Err(e) => Err(e),
    }
}

/// The rows a finished request persists: one per resource line, in order,
/// all in progress, all carrying the request's identifier and thread.
pub fn persisted_rows(fin: &FinishedRequest, thread_ref: &String) -> (rows: Vec<RequestRow>)
    ensures
        rows@.len() == fin.resources@.len(),
        forall|i: int|
            0 <= i < rows@.len() ==> {
                &&& (#[trigger] rows@[i]).request_id@ == fin.request_id@
                &&& rows@[i].product@ == fin.product@
                &&& rows@[i].resource@ == fin.resources@[i].1@
                &&& rows@[i].amount == fin.resources@[i].0
                &&& rows@[i].status == RowStatus::InProgress
                &&& rows@[i].thread_ref@ == thread_ref@
            },
{
    let mut rows: Vec<RequestRow> = Vec::new();
    let mut i: usize = 0;
    while i < fin.resources.len()
        invariant
            i <= fin.resources@.len(),
            rows@.len() == i,
            forall|m: int|
                0 <= m < i ==> {
                    &&& (#[trigger] rows@[m]).request_id@ == fin.request_id@
                    &&& rows@[m].product@ == fin.product@
                    &&& rows@[m].resource@ == fin.resources@[m].1@
                    &&& rows@[m].amount == fin.resources@[m].0
                    &&& rows@[m].status == RowStatus::InProgress
                    &&& rows@[m].thread_ref@ == thread_ref@
                },
        decreases fin.resources@.len() - i,
    {
        let line = &fin.resources[i];
        rows.push(
            RequestRow {
                request_id: fin.request_id.clone(),
                product: fin.product.clone(),
                resource: line.1.clone(),
                amount: line.0,
                status: RowStatus::InProgress,
                thread_ref: thread_ref.clone(),
            },
        );
        i = i + 1;
    }
    rows
}

/// Reads the correlation token off a front-end action: when the action's
/// identifier starts with the given prefix, the rest is the request id.
pub fn action_token(custom_id: &str, prefix: &str) -> (r: Option<String>)
    ensures
        match r {
            Some(id) => custom_id@.len() >= prefix@.len() && custom_id@.take(prefix@.len() as int)
                == prefix@ && id@ == custom_id@.skip(prefix@.len() as int),
            None => custom_id@.len() < prefix@.len() || custom_id@.take(prefix@.len() as int)
                != prefix@,
        },
{
    let v = crate::text::chars_of(custom_id);
    let p = crate::text::chars_of(prefix);
    if v.len() < p.len() {
        return None;
    }
    let n = p.len();
    let mut i: usize = 0;
    while i < n
        invariant
            i <= n == p@.len() <= v@.len(),
            v@ == custom_id@,
            p@ == prefix@,
            forall|m: int| 0 <= m < i ==> v@[m] == p@[m],
        decreases n - i,
    {
        if v[i] != p[i] {
            proof {
                assert(custom_id@.take(n as int)[i as int] != prefix@[i as int]);
            }
            return None;
        }
        i = i + 1;
    }
    proof {
        assert(custom_id@.take(n as int) =~= prefix@);
    }
    let mut rest: Vec<char> = Vec::new();
    let mut j: usize = n;
    proof {
        assert(rest@ =~= custom_id@.subrange(n as int, n as int));
    }
    while j < v.len()
        invariant
            n <= j <= v@.len(),
            v@ == custom_id@,
            rest@ =~= custom_id@.subrange(n as int, j as int),
        decreases v@.len() - j,
    {
        rest.push(v[j]);
        j = j + 1;
        proof {
            assert(rest@ =~= custom_id@.subrange(n as int, j as int));
        }
    }
    proof {
        assert(custom_id@.subrange(n as int, custom_id@.len() as int) =~= custom_id@.skip(
            n as int,
        ));
    }
    Some(crate::text::chars_to_string(&rest))
}

/// Whether a row belongs to a request's outstanding demand: it carries the
/// request's identifier and is still in progress.
pub open spec fn row_counts(r: RequestRowModel, id: Seq<char>) -> bool {
    r.request_id == id && r.status == RowStatus::InProgress
}

/// The outstanding demand a request's rows put on one resource key: the
/// last in-progress row of that request naming the key wins, as each row
/// read overwrites the one before it.
pub open spec fn requirements_stock(rows: Seq<RequestRowModel>, id: Seq<char>, k: Seq<char>) -> u64
    decreases rows.len(),
{
    if rows.len() == 0 {
        0
    } else if row_counts(rows.last(), id) && normalize_spec(rows.last().resource) == k {
        rows.last().amount
    } else {
        requirements_stock(rows.drop_last(), id, k)
    }
}

/// Whether any in-progress row of the request names the key.
pub open spec fn requirements_have(rows: Seq<RequestRowModel>, id: Seq<char>, k: Seq<char>) -> bool
    decreases rows.len(),
{
    if rows.len() == 0 {
        false
    } else {
        (row_counts(rows.last(), id) && normalize_spec(rows.last().resource) == k)
            || requirements_have(rows.drop_last(), id, k)
    }
}

/// The product title the rows give a request: its first row's, whatever the
/// row's status; empty if the request has no row.
pub open spec fn product_of(rows: Seq<RequestRowModel>, id: Seq<char>) -> Seq<char>
    decreases rows.len(),
{
    if rows.len() == 0 {
        Seq::empty()
    } else if rows[0].request_id == id {
        rows[0].product
    } else {
        product_of(rows.drop_first(), id)
    }
}

/// Collects a posted request's product title and outstanding demand from
/// the persisted rows, as [`product_of`] and [`requirements_stock`]
/// describe.
pub fn request_from_rows(rows: &Vec<RequestRow>, request_id: &String) -> (r: (String, Inventory))
    ensures
        r.0@ == product_of(rows_view(rows@), request_id@),
        r.1.wf(),
        forall|k: Seq<char>| #[trigger]
            r.1.stock(k) == requirements_stock(rows_view(rows@), request_id@, k),
        forall|k: Seq<char>| #[trigger]
            r.1.contains(k) == requirements_have(rows_view(rows@), request_id@, k),
{
    let mut product: String = String::new();
    let mut found: bool = false;
    let mut req = Inventory::new();
    let mut i: usize = 0;
    let ghost full = rows_view(rows@);
    proof {
        assert(full.take(0) =~= Seq::<RequestRowModel>::empty());
        assert(full.skip(0) =~= full);
    }
    while i < rows.len()
        invariant
            i <= rows@.len(),
            full == rows_view(rows@),
            full.len() == rows@.len(),
            req.wf(),
            product_of(full, request_id@) == if found {
                product@
            } else {
                product_of(full.skip(i as int), request_id@)
            },
            !found ==> product@ == Seq::<char>::empty(),
            forall|k: Seq<char>| #[trigger]
                req.stock(k) == requirements_stock(full.take(i as int), request_id@, k),
            forall|k: Seq<char>| #[trigger]
                req.contains(k) == requirements_have(full.take(i as int), request_id@, k),
        decreases rows@.len() - i,
    {
        let row = &rows[i];
        proof {
            assert(full[i as int] == rows@[i as int]@);
            assert(full.skip(i as int)[0] == full[i as int]);
            assert(full.skip(i as int).drop_first() =~= full.skip(i as int + 1));
            assert(full.take(i as int + 1).drop_last() =~= full.take(i as int));
            assert(full.take(i as int + 1).last() == full[i as int]);
        }
        if row.request_id == *request_id {
            if !found {
                product = row.product.clone();
                found = true;
            }
            match row.status {
                RowStatus::InProgress => {
                    let key = normalize_resource_key(row.resource.as_str());
                    proof {
                        lemma_normalize_idempotent(rows@[i as int].resource@);
                    }
                    req.set_stock(key, row.amount);
                },
                RowStatus::Completed => {},
            }
        }
        i = i + 1;
    }
    proof {
        assert(full.take(rows@.len() as int) =~= full);
        assert(full.skip(rows@.len() as int) =~= Seq::<RequestRowModel>::empty());
    }
    (product, req)
}

/// Whether stock covers a demand on every key.
pub open spec fn all_covered(req: Seq<(String, u64)>, inv: Seq<(String, u64)>) -> bool {
    forall|k: Seq<char>| #[trigger] stock_in(req, k) <= stock_in(inv, k)
}

/// Checks that stock covers a posted request's whole demand and debits it:
/// all lines settle or none do. Fails with `InsufficientStock`, debiting
/// nothing, when any key's demand exceeds its stock.
pub fn settle_inventory(requirements: &Inventory, inventory: &Inventory) -> (r: Result<
    Inventory,
    RequestError,
>)
    requires
        requirements.wf(),
        inventory.wf(),
    ensures
        r is Ok <==> all_covered(requirements@, inventory@),
        match r {
            Ok(debited) => {
                &&& debited.wf()
                &&& forall|k: Seq<char>| #[trigger]
                    debited.stock(k) == (inventory.stock(k) - requirements.stock(k)) as u64
                &&& forall|k: Seq<char>| #[trigger] debited.contains(k) == inventory.contains(k)
            },
            Err(e) => e == RequestError::InsufficientStock,
        },
{
    let n = requirements.len();
    let mut i: usize = 0;
    while i < n
        invariant
            i <= n == requirements@.len(),
            requirements.wf(),
            inventory.wf(),
            forall|m: int|
                0 <= m < i ==> #[trigger] requirements@[m].1 <= stock_in(
                    inventory@,
                    requirements@[m].0@,
                ),
        decreases n - i,
    {
        let e = requirements.entry_at(i);
        if inventory.stock_of(&e.0) < e.1 {
            proof {
                lemma_index_stock(requirements@, i as int);
                assert(stock_in(requirements@, requirements@[i as int].0@) > stock_in(
                    inventory@,
                    requirements@[i as int].0@,
                ));
            }
            return Err(RequestError::InsufficientStock);
        }
        i = i + 1;
    }
    proof {
        assert forall|k: Seq<char>| #[trigger] stock_in(requirements@, k) <= stock_in(
            inventory@,
            k,
        ) by {
            if has_key_in(requirements@, k) {
                lemma_stock_witness(requirements@, k);
            } else {
                lemma_absent_stock_zero(requirements@, k);
            }
        }
    }
    let mut out = Inventory::new();
    let mut j: usize = 0;
    let ghost inv0 = inventory@;
    proof {
        assert(inv0.take(0) =~= Seq::<(String, u64)>::empty());
    }
    while j < inventory.len()
        invariant
            j <= inv0.len(),
            inv0 == inventory@,
            requirements.wf(),
            inventory.wf(),
            all_covered(requirements@, inventory@),
            out.wf(),
            forall|k: Seq<char>| #[trigger]
                out.stock(k) == if has_key_in(inv0.take(j as int), k) {
                    (stock_in(inv0, k) - stock_in(requirements@, k)) as u64
                } else {
                    0
                },
            forall|k: Seq<char>| #[trigger] out.contains(k) == has_key_in(inv0.take(j as int), k),
        decreases inv0.len() - j,
    {
        let e = inventory.entry_at(j);
        let demanded = requirements.stock_of(&e.0);
        proof {
            lemma_index_stock(inv0, j as int);
            assert(stock_in(requirements@, inv0[j as int].0@) <= stock_in(
                inv0,
                inv0[j as int].0@,
            ));
        }
        let left = e.1 - demanded;
        out.set_stock(e.0, left);
        j = j + 1;
        proof {
            assert(inv0.take(j as int).drop_last() =~= inv0.take(j as int - 1));
            assert(inv0.take(j as int) =~= inv0.take(j as int - 1).push(inv0[j as int - 1]));
            assert forall|k: Seq<char>| #[trigger] has_key_in(inv0.take(j as int), k) == (k
                == inv0[j as int - 1].0@ || has_key_in(inv0.take(j as int - 1), k)) by {
                crate::inventory::lemma_has_key_push(
                    inv0.take(j as int - 1),
                    inv0[j as int - 1],
                    k,
                );
            }
        }
    }
    proof {
        assert(inv0.take(inv0.len() as int) =~= inv0);
        assert forall|k: Seq<char>| #[trigger] out.stock(k) == (stock_in(inv0, k) - stock_in(
            requirements@,
            k,
        )) as u64 by {
            if !has_key_in(inv0, k) {
                lemma_absent_stock_zero(inv0, k);
            }
        }
    }
    Ok(out)
}

/// One row after settlement marking: a row of the settled request is
/// completed; every other row is untouched.
pub open spec fn marked_row(r: RequestRowModel, id: Seq<char>) -> RequestRowModel {
    if r.request_id == id {
        RequestRowModel {
            request_id: r.request_id,
            product: r.product,
            resource: r.resource,
            amount: r.amount,
            status: RowStatus::Completed,
            thread_ref: r.thread_ref,
        }
    } else {
        r
    }
}

/// All rows after settlement marking, in place.
pub open spec fn mark_spec(rows: Seq<RequestRowModel>, id: Seq<char>) -> Seq<RequestRowModel> {
    rows.map_values(|r: RequestRowModel| marked_row(r, id))
}

/// Marks every row of the settled request completed, as [`mark_spec`]
/// describes.
pub fn mark_rows_completed(rows: &Vec<RequestRow>, request_id: &String) -> (out: Vec<RequestRow>)
    ensures
        rows_view(out@) == mark_spec(rows_view(rows@), request_id@),
{
    let mut out: Vec<RequestRow> = Vec::new();
    let mut i: usize = 0;
    let ghost full = rows_view(rows@);
    proof {
        assert(rows_view(out@) =~= mark_spec(full.take(0), request_id@));
    }
    while i < rows.len()
        invariant
            i <= rows@.len(),
            full == rows_view(rows@),
            full.len() == rows@.len(),
            rows_view(out@) == mark_spec(full.take(i as int), request_id@),
        decreases rows@.len() - i,
    {
        let row = &rows[i];
        let ghost out0 = out@;
        let status = if row.request_id == *request_id {
            RowStatus::Completed
        } else {
            row.status
        };
        out.push(
            RequestRow {
                request_id: row.request_id.clone(),
                product: row.product.clone(),
                resource: row.resource.clone(),
                amount: row.amount,
                status,
                thread_ref: row.thread_ref.clone(),
            },
        );
        i = i + 1;
        proof {
            assert(full[i as int - 1] == rows@[i as int - 1]@);
            assert(rows_view(out@) =~= rows_view(out0).push(marked_row(
                full[i as int - 1],
                request_id@,
            )));
            assert(mark_spec(full.take(i as int), request_id@) =~= mark_spec(
                full.take(i as int - 1),
                request_id@,
            ).push(marked_row(full[i as int - 1], request_id@)));
        }
    }
    proof {
        assert(full.take(rows@.len() as int) =~= full);
    }
    out
}

/// Settlement is idempotent: once a request's rows are marked completed,
/// they demand nothing, so a second settlement finds nothing to cover and
/// debits no stock.
pub proof fn lemma_settlement_idempotent(rows: Seq<RequestRowModel>, id: Seq<char>, k: Seq<char>)
    ensures
        requirements_stock(mark_spec(rows, id), id, k) == 0,
    decreases rows.len(),
{
    let marked = mark_spec(rows, id);
    if rows.len() > 0 {
        assert(marked.last() == marked_row(rows.last(), id));
        assert(marked.drop_last() =~= mark_spec(rows.drop_last(), id));
        lemma_settlement_idempotent(rows.drop_last(), id, k);
        assert(!row_counts(marked.last(), id));
    }
}

/// Debiting a demand of zero leaves every stock unchanged and is always
/// covered.
pub proof fn lemma_settle_nothing(req: Seq<(String, u64)>, inv: Seq<(String, u64)>)
    requires
        forall|k: Seq<char>| #[trigger] stock_in(req, k) == 0,
    ensures
        all_covered(req, inv),
        forall|k: Seq<char>| #[trigger] (stock_in(inv, k) - stock_in(req, k)) as u64 == stock_in(
            inv,
            k,
        ),
{
}

/// A row's status only moves forward: marking never turns a completed row
/// back to in progress.
pub proof fn lemma_status_monotonic(rows: Seq<RequestRowModel>, id: Seq<char>, i: int)
    requires
        0 <= i < rows.len(),
        rows[i].status == RowStatus::Completed,
    ensures
        mark_spec(rows, id)[i].status == RowStatus::Completed,
{
}

} // verus!
