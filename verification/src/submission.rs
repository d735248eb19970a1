//! Crediting donated stock: a submission names a resource and an amount.
//! The amount is added to the ledger, and the freshly available stock is
//! then distributed over the open request rows for that resource, in row
//! order, reporting per line how far each request got.

use vstd::prelude::*;
use crate::inventory::Inventory;
use crate::normalize::{normalize_spec, normalize_resource_key, lower_all, lemma_normalize_idempotent};
use crate::rows::{RowStatus, RequestRow, RequestRowModel, rows_view};
use crate::text::{lowercase_char, chars_of};

verus! {

/// ASCII-case-insensitive string equality.
pub fn eq_ignore_case(a: &String, b: &String) -> (r: bool)
    ensures
        r == (lower_all(a@) == lower_all(b@)),
{
    let va = chars_of(a.as_str());
    let vb = chars_of(b.as_str());
    if va.len() != vb.len() {
        proof {
            assert(lower_all(a@).len() == a@.len());
            assert(lower_all(b@).len() == b@.len());
        }
        return false;
    }
    let n = va.len();
    let mut i: usize = 0;
    while i < n
        invariant
            i <= n == va@.len() == vb@.len(),
            va@ == a@,
            vb@ == b@,
            forall|m: int| 0 <= m < i ==> lower_all(a@)[m] == lower_all(b@)[m],
        decreases n - i,
    {
        if lowercase_char(va[i]) != lowercase_char(vb[i]) {
            proof {
                assert(lower_all(a@)[i as int] != lower_all(b@)[i as int]);
            }
            return false;
        }
        i = i + 1;
    }
    proof {
        assert(lower_all(a@) =~= lower_all(b@));
    }
    true
}

/// Whether `needle` occurs contiguously inside `hay`; an empty needle is
/// found everywhere.
pub open spec fn contains_seq(hay: Seq<char>, needle: Seq<char>) -> bool {
    exists|i: int|
        0 <= i <= hay.len() - needle.len() && #[trigger] hay.subrange(i, i + needle.len() as int)
            == needle
}

fn matches_at(hv: &Vec<char>, nv: &Vec<char>, i: usize) -> (r: bool)
    requires
        i + nv@.len() <= hv@.len(),
    ensures
        r == (lower_all(hv@).subrange(i as int, i as int + nv@.len() as int) == lower_all(nv@)),
{
    let nl = nv.len();
    let hl = hv.len();
    let mut j: usize = 0;
    while j < nl
        invariant
            j <= nl == nv@.len(),
            hl == hv@.len(),
            i + nl <= hl,
            forall|q: int| 0 <= q < j ==> lower_all(hv@)[i + q] == lower_all(nv@)[q],
        decreases nl - j,
    {
        if lowercase_char(hv[i + j]) != lowercase_char(nv[j]) {
            proof {
                assert(lower_all(hv@).subrange(i as int, i as int + nl as int)[j as int]
                    != lower_all(nv@)[j as int]);
            }
            return false;
        }
        j = j + 1;
    }
    proof {
        assert(lower_all(hv@).subrange(i as int, i as int + nl as int) =~= lower_all(nv@));
    }
    true
}

/// ASCII-case-insensitive substring search, for filtering the resource
/// catalog against what the user has typed so far.
pub fn contains_ignore_case(hay: &String, needle: &String) -> (r: bool)
    ensures
        r == contains_seq(lower_all(hay@), lower_all(needle@)),
{
    let hv = chars_of(hay.as_str());
    let nv = chars_of(needle.as_str());
    let hl = hv.len();
    let nl = nv.len();
    proof {
        assert(lower_all(hay@).len() == hay@.len());
        assert(lower_all(needle@).len() == needle@.len());
    }
    if nl > hl {
        return false;
    }
    if nl == 0 {
        proof {
            assert(lower_all(needle@).len() == 0);
            assert(lower_all(hay@).subrange(0, 0 + lower_all(needle@).len() as int) =~= lower_all(
                needle@,
            ));
            assert(contains_seq(lower_all(hay@), lower_all(needle@)));
        }
        return true;
    }
    let mut i: usize = 0;
    while i <= hl - nl
        invariant
            1 <= nl <= hl,
            i <= hl - nl + 1,
            hl == hv@.len() && nl == nv@.len(),
            hv@ == hay@ && nv@ == needle@,
            forall|m: int|
                0 <= m < i ==> #[trigger] lower_all(hay@).subrange(m, m + nl as int)
                    != lower_all(needle@),
        decreases hl - nl - i + 1,
    {
        if matches_at(&hv, &nv, i) {
            proof {
                assert(0 <= i as int <= lower_all(hay@).len() - lower_all(needle@).len());
            }
            return true;
        }
        i = i + 1;
    }
    proof {
        assert forall|m: int| 0 <= m <= lower_all(hay@).len() - lower_all(needle@).len()
            implies #[trigger] lower_all(hay@).subrange(m, m + lower_all(needle@).len() as int)
            != lower_all(needle@) by {}
    }
    false
}

/// Whether a submitted resource name matches the catalog of known
/// resources, ignoring ASCII case.
pub fn resource_is_known(catalog: &Vec<String>, resource: &String) -> (r: bool)
    ensures
        r == exists|i: int|
            0 <= i < catalog@.len() && lower_all(#[trigger] catalog@[i]@) == lower_all(resource@),
{
    let mut i: usize = 0;
    while i < catalog.len()
        invariant
            i <= catalog@.len(),
            forall|m: int|
                0 <= m < i ==> lower_all(#[trigger] catalog@[m]@) != lower_all(resource@),
        decreases catalog@.len() - i,
    {
        if eq_ignore_case(&catalog[i], resource) {
            return true;
        }
        i = i + 1;
    }
    false
}

/// Credits a submitted amount to the ledger: the resource's stock grows by
/// the amount (saturating at the integer bound); every other key keeps its
/// stock. A resource the ledger never saw gets a fresh entry.
pub fn credit_stock(inventory: &mut Inventory, resource: &String, amount: u64)
    requires
        old(inventory).wf(),
    ensures
        final(inventory).wf(),
        forall|k: Seq<char>| #[trigger]
            final(inventory).stock(k) == if k == normalize_spec(resource@) {
                if old(inventory).stock(k) + amount <= u64::MAX {
                    (old(inventory).stock(k) + amount) as u64
                } else {
                    u64::MAX
                }
            } else {
                old(inventory).stock(k)
            },
        forall|k: Seq<char>| #[trigger]
            final(inventory).contains(k) == (k == normalize_spec(resource@) || old(
                inventory,
            ).contains(k)),
{
    let key = normalize_resource_key(resource.as_str());
    proof {
        lemma_normalize_idempotent(resource@);
    }
    let current = inventory.stock_of(&key);
    inventory.set_stock(key, current.saturating_add(amount));
}

/// How far one open request line got after a submission.
pub struct RowProgress {
    /// The request's product title, for the report.
    pub product: String,
    /// The resource name as the row carries it.
    pub resource: String,
    /// Whether the line is now fully covered.
    pub covered: bool,
    /// The full requested amount when covered; the remaining shortfall
    /// otherwise.
    pub amount: u64,
}

/// Spec-level image of a progress report line.
pub struct RowProgressModel {
    pub product: Seq<char>,
    pub resource: Seq<char>,
    pub covered: bool,
    pub amount: u64,
}

impl View for RowProgress {
    type V = RowProgressModel;

    open spec fn view(&self) -> RowProgressModel {
        RowProgressModel {
            product: self.product@,
            resource: self.resource@,
            covered: self.covered,
            amount: self.amount,
        }
    }
}

/// The models of a vector of progress lines.
pub open spec fn progress_view(v: Seq<RowProgress>) -> Seq<RowProgressModel> {
    v.map_values(|p: RowProgress| p@)
}

/// Whether a submission against `key` touches a row: the row is still in
/// progress and asks for that resource.
pub open spec fn row_touched(r: RequestRowModel, key: Seq<char>) -> bool {
    r.status == RowStatus::InProgress && normalize_spec(r.resource) == key
}

/// Distributing `avail` units of the submitted resource over the rows, in
/// order. A touched row consumes stock: if enough is left it is fully
/// covered and its outstanding amount drops to zero, else it takes all that
/// is left and keeps the shortfall. Untouched rows pass through. Yields the
/// updated rows, the stock left over, and one progress line per touched row.
pub open spec fn advance_spec(rows: Seq<RequestRowModel>, key: Seq<char>, avail: u64) -> (
    Seq<RequestRowModel>,
    u64,
    Seq<RowProgressModel>,
)
    decreases rows.len(),
{
    if rows.len() == 0 {
        (Seq::empty(), avail, Seq::empty())
    } else {
        let head = rows[0];
        if row_touched(head, key) {
            if avail >= head.amount {
                let rest = advance_spec(rows.drop_first(), key, (avail - head.amount) as u64);
                (
                    seq![
                        RequestRowModel {
                            request_id: head.request_id,
                            product: head.product,
                            resource: head.resource,
                            amount: 0,
                            status: head.status,
                            thread_ref: head.thread_ref,
                        },
                    ] + rest.0,
                    rest.1,
                    seq![
                        RowProgressModel {
                            product: head.product,
                            resource: head.resource,
                            covered: true,
                            amount: head.amount,
                        },
                    ] + rest.2,
                )
            } else {
                let rest = advance_spec(rows.drop_first(), key, 0);
                (
                    seq![
                        RequestRowModel {
                            request_id: head.request_id,
                            product: head.product,
                            resource: head.resource,
                            amount: (head.amount - avail) as u64,
                            status: head.status,
                            thread_ref: head.thread_ref,
                        },
                    ] + rest.0,
                    rest.1,
                    seq![
                        RowProgressModel {
                            product: head.product,
                            resource: head.resource,
                            covered: false,
                            amount: (head.amount - avail) as u64,
                        },
                    ] + rest.2,
                )
            }
        } else {
            let rest = advance_spec(rows.drop_first(), key, avail);
            (seq![head] + rest.0, rest.1, rest.2)
        }
    }
}

/// Applies a submission's stock to the open request rows for that resource,
/// as [`advance_spec`] describes. `resource` may be raw; it is normalized
/// first. Returns the updated rows, the snapshot with the leftover stock,
/// and the progress report.
pub fn advance_requests(rows: &Vec<RequestRow>, resource: &String, inventory: &Inventory) -> (r: (
    Vec<RequestRow>,
    Inventory,
    Vec<RowProgress>,
))
    requires
        inventory.wf(),
    ensures
        ({
            let key = normalize_spec(resource@);
            let outcome = advance_spec(rows_view(rows@), key, inventory.stock(key));
            &&& rows_view(r.0@) == outcome.0
            &&& r.1.wf()
            &&& forall|k: Seq<char>| #[trigger]
                r.1.stock(k) == if k == key {
                    outcome.1
                } else {
                    inventory.stock(k)
                }
            &&& forall|k: Seq<char>| #[trigger]
                r.1.contains(k) == (k == key || inventory.contains(k))
            &&& progress_view(r.2@) == outcome.2
        }),
{
    let key = normalize_resource_key(resource.as_str());
    proof {
        lemma_normalize_idempotent(resource@);
    }
    let mut avail = inventory.stock_of(&key);
    let mut out_rows: Vec<RequestRow> = Vec::new();
    let mut progress: Vec<RowProgress> = Vec::new();
    let mut i: usize = 0;
    let ghost full = rows_view(rows@);
    let ghost outcome = advance_spec(full, key@, avail);
    proof {
        assert(full.skip(0) =~= full);
        assert(rows_view(out_rows@) + advance_spec(full, key@, avail).0 =~= advance_spec(
            full,
            key@,
            avail,
        ).0);
        assert(progress_view(progress@) + advance_spec(full, key@, avail).2 =~= advance_spec(
            full,
            key@,
            avail,
        ).2);
    }
    while i < rows.len()
        invariant
            i <= rows@.len(),
            full == rows_view(rows@),
            full.len() == rows@.len(),
            outcome.0 == rows_view(out_rows@) + advance_spec(full.skip(i as int), key@, avail).0,
            outcome.1 == advance_spec(full.skip(i as int), key@, avail).1,
            outcome.2 == progress_view(progress@) + advance_spec(full.skip(i as int), key@, avail).2,
        decreases rows@.len() - i,
    {
        let row = &rows[i];
        let ghost rest = full.skip(i as int);
        let ghost out0 = out_rows@;
        let ghost prog0 = progress@;
        let ghost avail0 = avail;
        proof {
            assert(rest[0] == full[i as int]);
            assert(full[i as int] == rows@[i as int]@);
            assert(rest.drop_first() =~= full.skip(i as int + 1));
        }
        let touched = match row.status {
            RowStatus::InProgress => {
                let row_key = normalize_resource_key(row.resource.as_str());
                row_key == key
            },
            RowStatus::Completed => false,
        };
        if touched {
            if avail >= row.amount {
                out_rows.push(
                    RequestRow {
                        request_id: row.request_id.clone(),
                        product: row.product.clone(),
                        resource: row.resource.clone(),
                        amount: 0,
                        status: row.status,
                        thread_ref: row.thread_ref.clone(),
                    },
                );
                progress.push(
                    RowProgress {
                        product: row.product.clone(),
                        resource: row.resource.clone(),
                        covered: true,
                        amount: row.amount,
                    },
                );
                avail = avail - row.amount;
            } else {
                out_rows.push(
                    RequestRow {
                        request_id: row.request_id.clone(),
                        product: row.product.clone(),
                        resource: row.resource.clone(),
                        amount: row.amount - avail,
                        status: row.status,
                        thread_ref: row.thread_ref.clone(),
                    },
                );
                progress.push(
                    RowProgress {
                        product: row.product.clone(),
                        resource: row.resource.clone(),
                        covered: false,
                        amount: row.amount - avail,
                    },
                );
                avail = 0;
            }
        } else {
            out_rows.push(
                RequestRow {
                    request_id: row.request_id.clone(),
                    product: row.product.clone(),
                    resource: row.resource.clone(),
                    amount: row.amount,
                    status: row.status,
                    thread_ref: row.thread_ref.clone(),
                },
            );
        }
        i = i + 1;
        proof {
            assert(row_touched(rest[0], key@) == touched);
            if touched {
                assert(rows_view(out_rows@) =~= rows_view(out0).push(out_rows@.last()@));
                assert(progress_view(progress@) =~= progress_view(prog0).push(
                    progress@.last()@,
                ));
                if avail0 >= rest[0].amount {
                    assert(rows_view(out0).push(out_rows@.last()@) + advance_spec(
                        rest.drop_first(),
                        key@,
                        avail,
                    ).0 =~= rows_view(out0) + (seq![out_rows@.last()@] + advance_spec(
                        rest.drop_first(),
                        key@,
                        avail,
                    ).0));
                    assert(progress_view(prog0).push(progress@.last()@) + advance_spec(
                        rest.drop_first(),
                        key@,
                        avail,
                    ).2 =~= progress_view(prog0) + (seq![progress@.last()@] + advance_spec(
                        rest.drop_first(),
                        key@,
                        avail,
                    ).2));
                } else {
                    assert(rows_view(out0).push(out_rows@.last()@) + advance_spec(
                        rest.drop_first(),
                        key@,
                        avail,
                    ).0 =~= rows_view(out0) + (seq![out_rows@.last()@] + advance_spec(
                        rest.drop_first(),
                        key@,
                        avail,
                    ).0));
                    assert(progress_view(prog0).push(progress@.last()@) + advance_spec(
                        rest.drop_first(),
                        key@,
                        avail,
                    ).2 =~= progress_view(prog0) + (seq![progress@.last()@] + advance_spec(
                        rest.drop_first(),
                        key@,
                        avail,
                    ).2));
                }
            } else {
                assert(rows_view(out_rows@) =~= rows_view(out0).push(rest[0]));
                assert(rows_view(out0).push(rest[0]) + advance_spec(
                    rest.drop_first(),
                    key@,
                    avail,
                ).0 =~= rows_view(out0) + (seq![rest[0]] + advance_spec(
                    rest.drop_first(),
                    key@,
                    avail,
                ).0));
            }
        }
    }
    proof {
        assert(full.skip(rows@.len() as int) =~= Seq::<RequestRowModel>::empty());
        assert(rows_view(out_rows@) + Seq::<RequestRowModel>::empty() =~= rows_view(out_rows@));
        assert(progress_view(progress@) + Seq::<RowProgressModel>::empty() =~= progress_view(
            progress@,
        ));
    }
    let updated = rebuild_with(inventory, &key, avail);
    (out_rows, updated, progress)
}

/// The snapshot with one key's stock replaced, everything else kept.
fn rebuild_with(inventory: &Inventory, key: &String, amount: u64) -> (r: Inventory)
    requires
        inventory.wf(),
        key@ == normalize_spec(key@),
    ensures
        r.wf(),
        forall|k: Seq<char>| #[trigger]
            r.stock(k) == if k == key@ {
                amount
            } else {
                inventory.stock(k)
            },
        forall|k: Seq<char>| #[trigger] r.contains(k) == (k == key@ || inventory.contains(k)),
{
    let mut out = Inventory::new();
    let n = inventory.len();
    let mut i: usize = 0;
    let ghost inv0 = inventory@;
    proof {
        assert(inv0.take(0) =~= Seq::<(String, u64)>::empty());
    }
    while i < n
        invariant
            i <= n == inv0.len(),
            inv0 == inventory@,
            inventory.wf(),
            out.wf(),
            forall|k: Seq<char>| #[trigger]
                out.stock(k) == if crate::inventory::has_key_in(inv0.take(i as int), k) {
                    crate::inventory::stock_in(inv0, k)
                } else {
                    0
                },
            forall|k: Seq<char>| #[trigger]
                out.contains(k) == crate::inventory::has_key_in(inv0.take(i as int), k),
        decreases n - i,
    {
        let e = inventory.entry_at(i);
        proof {
            crate::inventory::lemma_index_stock(inv0, i as int);
        }
        out.set_stock(e.0, e.1);
        i = i + 1;
        proof {
            assert(inv0.take(i as int) =~= inv0.take(i as int - 1).push(inv0[i as int - 1]));
            assert forall|k: Seq<char>| #[trigger] crate::inventory::has_key_in(
                inv0.take(i as int),
                k,
            ) == (k == inv0[i as int - 1].0@ || crate::inventory::has_key_in(
                inv0.take(i as int - 1),
                k,
            )) by {
                crate::inventory::lemma_has_key_push(
                    inv0.take(i as int - 1),
                    inv0[i as int - 1],
                    k,
                );
            }
        }
    }
    proof {
        assert(inv0.take(n as int) =~= inv0);
        assert forall|k: Seq<char>| #[trigger] out.stock(k) == crate::inventory::stock_in(
            inv0,
            k,
        ) by {
            if !crate::inventory::has_key_in(inv0, k) {
                crate::inventory::lemma_absent_stock_zero(inv0, k);
            }
        }
    }
    out.set_stock(key.clone(), amount);
    out
}

} // verus!
