//! The request registry: at most one in-flight request per requester, keyed
//! by requester identity. An entry is created on start (only if none exists),
//! its resource list is replaced wholesale on each successful bulk add, and
//! it is consumed and removed on finish. The store is process-local memory;
//! nothing here persists.

use vstd::prelude::*;
use vstd::hash_map::HashMapWithView;
use crate::errors::RequestError;

verus! {

broadcast use vstd::std_specs::hash::axiom_u64_obeys_hash_table_key_model;

/// A requester's in-flight request: a staging area between start and finish.
pub struct InProgressRequest {
    /// Free-text title of the thing being crafted.
    pub product: String,
    /// The parsed resource list, replaced wholesale on each bulk add.
    pub resources: Vec<(u64, String)>,
    /// The front-end message that confirmed the start, for later reference.
    pub message_ref: u64,
}

/// Opening succeeds exactly when the requester has no entry yet.
pub open spec fn open_succeeds(m: Map<u64, InProgressRequest>, user: u64) -> bool {
    !m.contains_key(user)
}

/// The store after a successful open for `user`.
pub open spec fn after_open(
    m: Map<u64, InProgressRequest>,
    user: u64,
    e: InProgressRequest,
) -> Map<u64, InProgressRequest> {
    m.insert(user, e)
}

/// Taking (and every other act on an existing entry) succeeds exactly when
/// the requester has one.
pub open spec fn take_succeeds(m: Map<u64, InProgressRequest>, user: u64) -> bool {
    m.contains_key(user)
}

/// The store after a successful take for `user`.
pub open spec fn after_take(m: Map<u64, InProgressRequest>, user: u64) -> Map<
    u64,
    InProgressRequest,
> {
    m.remove(user)
}

/// The keyed store of in-flight requests, one per requester.
pub struct RequestRegistry {
    entries: HashMapWithView<u64, InProgressRequest>,
}

impl View for RequestRegistry {
    type V = Map<u64, InProgressRequest>;

    closed spec fn view(&self) -> Map<u64, InProgressRequest> {
        self.entries@
    }
}

impl RequestRegistry {
    /// An empty registry: nobody has an open request.
    pub fn new() -> (r: RequestRegistry)
        ensures
            r@ == Map::<u64, InProgressRequest>::empty(),
    {
        RequestRegistry { entries: HashMapWithView::new() }
    }

    /// Whether a requester has an open request.
    pub fn contains(&self, user: u64) -> (r: bool)
        ensures
            r == self@.contains_key(user),
    {
        self.entries.contains_key(&user)
    }

    /// Opens a fresh request for `user` with no resources yet. Fails with
    /// `AlreadyOpen`, changing nothing, if one is already open.
    pub fn open(&mut self, user: u64, product: String, message_ref: u64) -> (r: Result<
        (),
        RequestError,
    >)
        ensures
            r is Ok <==> open_succeeds(old(self)@, user),
            r is Ok ==> {
                &&& final(self)@.contains_key(user)
                &&& final(self)@[user].product == product
                &&& final(self)@[user].resources@ =~= Seq::<(u64, String)>::empty()
                &&& final(self)@[user].message_ref == message_ref
                &&& final(self)@ == after_open(old(self)@, user, final(self)@[user])
            },
            r is Err ==> r == Err::<(), RequestError>(RequestError::AlreadyOpen) && final(self)@
                == old(self)@,
    {
        if self.entries.contains_key(&user) {
            Err(RequestError::AlreadyOpen)
        } else {
            let entry = InProgressRequest { product, resources: Vec::new(), message_ref };
            self.entries.insert(user, entry);
            Ok(())
        }
    }

    /// Borrows the open request of `user`. Fails with `NoOpenRequest` if
    /// none exists.
    pub fn peek(&self, user: u64) -> (r: Result<&InProgressRequest, RequestError>)
        ensures
            r is Ok <==> take_succeeds(self@, user),
            match r {
                Ok(e) => self@.contains_key(user) && *e == self@[user],
                Err(err) => err == RequestError::NoOpenRequest && !self@.contains_key(user),
            },
    {
        match self.entries.get(&user) {
            Some(e) => Ok(e),
            None => Err(RequestError::NoOpenRequest),
        }
    }

    /// Replaces the resource list of the open request of `user` wholesale.
    /// Fails with `NoOpenRequest`, changing nothing, if none exists.
    pub fn replace_resources(&mut self, user: u64, resources: Vec<(u64, String)>) -> (r: Result<
        (),
        RequestError,
    >)
        ensures
            r is Ok <==> take_succeeds(old(self)@, user),
            r is Ok ==> {
                &&& final(self)@.contains_key(user)
                &&& final(self)@[user].product == old(self)@[user].product
                &&& final(self)@[user].message_ref == old(self)@[user].message_ref
                &&& final(self)@[user].resources == resources
                &&& final(self)@ == old(self)@.insert(user, final(self)@[user])
            },
            r is Err ==> r == Err::<(), RequestError>(RequestError::NoOpenRequest) && final(self)@
                == old(self)@,
    {
        match self.entries.remove(&user) {
            Some(entry) => {
                let updated = InProgressRequest {
                    product: entry.product,
                    resources,
                    message_ref: entry.message_ref,
                };
                self.entries.insert(user, updated);
                proof {
                    assert(final(self)@ =~= old(self)@.insert(user, final(self)@[user]));
                }
                Ok(())
            },
            None => Err(RequestError::NoOpenRequest),
        }
    }

    /// Removes and returns the open request of `user`: the transition to the
    /// posted state. Fails with `NoOpenRequest`, changing nothing, if none
    /// exists.
    pub fn take(&mut self, user: u64) -> (r: Result<InProgressRequest, RequestError>)
        ensures
            r is Ok <==> take_succeeds(old(self)@, user),
            match r {
                Ok(e) => old(self)@.contains_key(user) && e == old(self)@[user] && final(self)@
                    == after_take(old(self)@, user),
                Err(err) => err == RequestError::NoOpenRequest && !old(self)@.contains_key(user)
                    && final(self)@ == old(self)@,
            },
    {
        match self.entries.remove(&user) {
            Some(e) => Ok(e),
            None => Err(RequestError::NoOpenRequest),
        }
    }
}

/// One requester never holds two open requests: a second start without an
/// intervening finish is refused.
pub proof fn lemma_second_open_fails(m: Map<u64, InProgressRequest>, user: u64, e: InProgressRequest)
    requires
        open_succeeds(m, user),
    ensures
        !open_succeeds(after_open(m, user, e), user),
{
}

/// Finishing consumes the entry: a second finish without a new start is
/// refused.
pub proof fn lemma_second_take_fails(m: Map<u64, InProgressRequest>, user: u64)
    requires
        take_succeeds(m, user),
    ensures
        !take_succeeds(after_take(m, user), user),
{
}

/// Finishing without a prior start is refused: a fresh registry has no entry
/// to take.
pub proof fn lemma_take_without_open_fails(user: u64)
    ensures
        !take_succeeds(Map::<u64, InProgressRequest>::empty(), user),
{
}

/// Requesters are independent: an open or take for one requester never
/// touches another's entry.
pub proof fn lemma_requesters_independent(
    m: Map<u64, InProgressRequest>,
    user: u64,
    other: u64,
    e: InProgressRequest,
)
    requires
        user != other,
    ensures
        after_open(m, user, e).contains_key(other) == m.contains_key(other),
        after_open(m, user, e).contains_key(other) ==> after_open(m, user, e)[other] == m[other],
        after_take(m, user).contains_key(other) == m.contains_key(other),
        after_take(m, user).contains_key(other) ==> after_take(m, user)[other] == m[other],
{
}

} // verus!
