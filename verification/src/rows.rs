//! Coercion of raw ledger cells to typed values. The persistence
//! collaborator hands rows back as untyped arrays of cell text; everything
//! here validates and types them. The inventory sheet carries `(resource
//! name, quantity)` rows; the requests sheet carries `(request id, product,
//! resource name, amount, status, thread reference)` rows.

use vstd::prelude::*;
use crate::inventory::Inventory;
use crate::normalize::{normalize_spec, normalize_resource_key, lemma_normalize_idempotent};
use crate::parse::{parse_u64_or_zero, parse_u64_cell};
use crate::text::{dec_digits, u64_to_string};

verus! {

/// The settlement status of one persisted request row. It only ever moves
/// from in progress to completed, never back.
#[derive(Clone, Copy, Debug, PartialEq, Eq, Structural)]
pub enum RowStatus {
    InProgress,
    Completed,
}

/// One persisted row of the requests sheet. A posted request owns one row
/// per resource line, all sharing its request id.
pub struct RequestRow {
    /// The correlation identifier assigned when the request was posted.
    pub request_id: String,
    /// The request's free-text title.
    pub product: String,
    /// The resource this line asks for.
    pub resource: String,
    /// How much of the resource this line asks for.
    pub amount: u64,
    /// Whether the line has been settled.
    pub status: RowStatus,
    /// The front-end thread carrying the request.
    pub thread_ref: String,
}

/// Spec-level image of a request row.
pub struct RequestRowModel {
    pub request_id: Seq<char>,
    pub product: Seq<char>,
    pub resource: Seq<char>,
    pub amount: u64,
    pub status: RowStatus,
    pub thread_ref: Seq<char>,
}

impl View for RequestRow {
    type V = RequestRowModel;

    open spec fn view(&self) -> RequestRowModel {
        RequestRowModel {
            request_id: self.request_id@,
            product: self.product@,
            resource: self.resource@,
            amount: self.amount,
            status: self.status,
            thread_ref: self.thread_ref@,
        }
    }
}

/// The models of a vector of rows.
pub open spec fn rows_view(v: Seq<RequestRow>) -> Seq<RequestRowModel> {
    v.map_values(|r: RequestRow| r@)
}

/// How a status cell is read: the literal `completed` marks a settled row;
/// every other value is still in progress.
pub open spec fn status_of_cell(s: Seq<char>) -> RowStatus {
    if s == "completed"@ {
        RowStatus::Completed
    } else {
        RowStatus::InProgress
    }
}

/// Exec mirror of [`status_of_cell`].
pub fn read_status_cell(s: &String) -> (r: RowStatus)
    ensures
        r == status_of_cell(s@),
{
    let done: String = "completed".to_owned();
    if *s == done {
        RowStatus::Completed
    } else {
        RowStatus::InProgress
    }
}

/// The label a status is written back as.
pub open spec fn status_label_spec(st: RowStatus) -> Seq<char> {
    if st is Completed {
        "completed"@
    } else {
        "in_progress"@
    }
}

/// Exec mirror of [`status_label_spec`].
pub fn status_label(st: RowStatus) -> (r: String)
    ensures
        r@ == status_label_spec(st),
{
    match st {
        RowStatus::Completed => "completed".to_owned(),
        RowStatus::InProgress => "in_progress".to_owned(),
    }
}

/// The typed rows raw request-sheet cells yield: a row needs at least the
/// five columns id, product, resource, amount and status; shorter rows are
/// dropped; a sixth column, when present, is the thread reference.
pub open spec fn cells_rows_model(cells: Seq<Seq<Seq<char>>>) -> Seq<RequestRowModel>
    decreases cells.len(),
{
    if cells.len() == 0 {
        Seq::empty()
    } else {
        let pre = cells_rows_model(cells.drop_last());
        let c = cells.last();
        if c.len() >= 5 {
            pre.push(
                RequestRowModel {
                    request_id: c[0],
                    product: c[1],
                    resource: c[2],
                    amount: parse_u64_or_zero(c[3]),
                    status: status_of_cell(c[4]),
                    thread_ref: if c.len() >= 6 {
                        c[5]
                    } else {
                        Seq::empty()
                    },
                },
            )
        } else {
            pre
        }
    }
}

/// Types the raw rows of the requests sheet, as [`cells_rows_model`]
/// describes.
pub fn request_rows_from_cells(cells: &Vec<Vec<String>>) -> (out: Vec<RequestRow>)
    ensures
        rows_view(out@) == cells_rows_model(cells.deep_view()),
{
    let mut out: Vec<RequestRow> = Vec::new();
    let mut i: usize = 0;
    let ghost full = cells.deep_view();
    proof {
        assert(rows_view(out@) =~= Seq::<RequestRowModel>::empty());
        assert(full.take(0) =~= Seq::<Seq<Seq<char>>>::empty());
        assert(full.len() == cells@.len());
    }
    while i < cells.len()
        invariant
            i <= cells@.len(),
            full == cells.deep_view(),
            full.len() == cells@.len(),
            rows_view(out@) == cells_rows_model(full.take(i as int)),
        decreases cells@.len() - i,
    {
        let c = &cells[i];
        let ghost out0 = out@;
        proof {
            assert(full[i as int] == cells@[i as int].deep_view());
            assert(cells@[i as int].deep_view().len() == c@.len());
        }
        if c.len() >= 5 {
            let thread_ref: String = if c.len() >= 6 {
                c[5].clone()
            } else {
                String::new()
            };
            let row = RequestRow {
                request_id: c[0].clone(),
                product: c[1].clone(),
                resource: c[2].clone(),
                amount: parse_u64_cell(&c[3]),
                status: read_status_cell(&c[4]),
                thread_ref,
            };
            proof {
                assert forall|j: int| 0 <= j < c@.len() implies #[trigger] full[i as int][j]
                    == c@[j]@ by {
                    assert(cells@[i as int].deep_view()[j] == cells@[i as int]@[j]@);
                }
            }
            out.push(row);
        }
        i = i + 1;
        proof {
            assert(full.take(i as int).drop_last() =~= full.take(i as int - 1));
            assert(full.take(i as int).last() == full[i as int - 1]);
            if full[i as int - 1].len() >= 5 {
                assert(rows_view(out@) =~= rows_view(out0).push(out@.last()@));
            } else {
                assert(rows_view(out@) =~= rows_view(out0));
            }
        }
    }
    proof {
        assert(full.take(cells@.len() as int) =~= full);
    }
    out
}

/// The raw cells a typed row is written back as: the six columns id,
/// product, resource, amount in decimal, status label, thread reference.
pub fn row_to_cells(row: &RequestRow) -> (out: Vec<String>)
    ensures
        out@.len() == 6,
        out@[0]@ == row.request_id@,
        out@[1]@ == row.product@,
        out@[2]@ == row.resource@,
        out@[3]@ == dec_digits(row.amount),
        out@[4]@ == status_label_spec(row.status),
        out@[5]@ == row.thread_ref@,
{
    let mut out: Vec<String> = Vec::new();
    out.push(row.request_id.clone());
    out.push(row.product.clone());
    out.push(row.resource.clone());
    out.push(u64_to_string(row.amount));
    out.push(status_label(row.status));
    out.push(row.thread_ref.clone());
    out
}

/// The raw rows a stock snapshot is written back as: one `(name, quantity)`
/// row per entry, quantities in decimal, in the snapshot's own order.
pub fn inventory_to_rows(inv: &Inventory) -> (out: Vec<(String, String)>)
    ensures
        out@.len() == inv@.len(),
        forall|i: int|
            0 <= i < out@.len() ==> (#[trigger] out@[i]).0 == inv@[i].0 && out@[i].1@
                == dec_digits(inv@[i].1),
{
    let mut out: Vec<(String, String)> = Vec::new();
    let n = inv.len();
    let mut i: usize = 0;
    while i < n
        invariant
            i <= n == inv@.len(),
            out@.len() == i,
            forall|m: int|
                0 <= m < i ==> (#[trigger] out@[m]).0 == inv@[m].0 && out@[m].1@ == dec_digits(
                    inv@[m].1,
                ),
        decreases n - i,
    {
        let e = inv.entry_at(i);
        out.push((e.0, u64_to_string(e.1)));
        i = i + 1;
    }
    out
}

/// The stock the inventory sheet's rows give one key: a row needs a name and
/// a quantity column; the name is normalized, the quantity read as
/// [`parse_u64_or_zero`]; a later row for the same key overwrites an earlier
/// one; short rows are dropped.
pub open spec fn rows_stock(cells: Seq<Seq<Seq<char>>>, k: Seq<char>) -> u64
    decreases cells.len(),
{
    if cells.len() == 0 {
        0
    } else if cells.last().len() >= 2 && normalize_spec(cells.last()[0]) == k {
        parse_u64_or_zero(cells.last()[1])
    } else {
        rows_stock(cells.drop_last(), k)
    }
}

/// Whether the inventory sheet's rows mention a key at all.
pub open spec fn rows_have(cells: Seq<Seq<Seq<char>>>, k: Seq<char>) -> bool
    decreases cells.len(),
{
    if cells.len() == 0 {
        false
    } else {
        (cells.last().len() >= 2 && normalize_spec(cells.last()[0]) == k) || rows_have(
            cells.drop_last(),
            k,
        )
    }
}

/// Builds a stock snapshot from the inventory sheet's raw rows, as
/// [`rows_stock`] describes.
pub fn inventory_from_rows(cells: &Vec<Vec<String>>) -> (inv: Inventory)
    ensures
        inv.wf(),
        forall|k: Seq<char>| #[trigger] inv.stock(k) == rows_stock(cells.deep_view(), k),
        forall|k: Seq<char>| #[trigger] inv.contains(k) == rows_have(cells.deep_view(), k),
{
    let mut inv = Inventory::new();
    let mut i: usize = 0;
    let ghost full = cells.deep_view();
    proof {
        assert(full.take(0) =~= Seq::<Seq<Seq<char>>>::empty());
        assert(full.len() == cells@.len());
    }
    while i < cells.len()
        invariant
            i <= cells@.len(),
            full == cells.deep_view(),
            full.len() == cells@.len(),
            inv.wf(),
            forall|k: Seq<char>| #[trigger] inv.stock(k) == rows_stock(full.take(i as int), k),
            forall|k: Seq<char>| #[trigger] inv.contains(k) == rows_have(full.take(i as int), k),
        decreases cells@.len() - i,
    {
        let c = &cells[i];
        proof {
            assert(full[i as int] == cells@[i as int].deep_view());
            assert(cells@[i as int].deep_view().len() == c@.len());
            assert(full.take(i as int + 1).drop_last() =~= full.take(i as int));
            assert(full.take(i as int + 1).last() == full[i as int]);
        }
        if c.len() >= 2 {
            let key = normalize_resource_key(c[0].as_str());
            let amount = parse_u64_cell(&c[1]);
            proof {
                assert(full[i as int][0] == c@[0]@);
                assert(full[i as int][1] == c@[1]@);
                lemma_normalize_idempotent(c@[0]@);
            }
            inv.set_stock(key, amount);
        }
        i = i + 1;
    }
    proof {
        assert(full.take(cells@.len() as int) =~= full);
    }
    inv
}

} // verus!
