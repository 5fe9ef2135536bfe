//! The dependency bundle a contract call works against.
//!
//! `OwnedDeps` owns the three collaborators — a storage, an API and a
//! querier — and hands out borrowed views of them: `Deps` read-only and
//! `DepsMut` for a call that may also write. Both views can be re-borrowed
//! freely (`branch`, `as_ref`), so sub-calls can each receive their own
//! view of the same bundle.

use vstd::prelude::*;

verus! {

/// Marker for query namespaces a querier can serve.
pub trait CustomQuery {

}

/// The trivial query namespace.
pub struct Empty {}

impl CustomQuery for Empty {

}

/// Wraps a borrowed querier for issuing queries against it.
pub struct QuerierWrapper<'a, Q> {
    pub querier: &'a Q,
}

impl<'a, Q> QuerierWrapper<'a, Q> {
    /// The querier this wrapper forwards to.
    pub closed spec fn source(self) -> Q {
        *self.querier
    }

    /// Wraps the given querier.
    pub fn new(querier: &'a Q) -> (r: Self)
        ensures
            r.source() == *querier,
    {
        QuerierWrapper { querier }
    }
}

/// Owns all external collaborators of a contract.
/// Handed out only as borrowed views, so exactly one writer can exist.
pub struct OwnedDeps<S, A, Q> {
    pub storage: S,
    pub api: A,
    pub querier: Q,
}

/// A view of the collaborators for a call that may write to storage.
pub struct DepsMut<'a, S, A, Q> {
    pub storage: &'a mut S,
    pub api: &'a A,
    /// Prefer `querier()` or `custom_querier()` over reading this directly.
    pub querier: &'a Q,
}

/// A read-only view of the collaborators.
#[derive(Clone, Copy)]
pub struct Deps<'a, S, A, Q> {
    pub storage: &'a S,
    pub api: &'a A,
    /// Prefer `querier()` or `custom_querier()` over reading this directly.
    pub querier: &'a Q,
}

impl<S, A, Q> OwnedDeps<S, A, Q> {
    /// A read-only view of this bundle.
    pub fn as_ref<'b>(&'b self) -> (d: Deps<'b, S, A, Q>)
        ensures
            *d.storage == self.storage,
            *d.api == self.api,
            d.queried() == self.querier,
    {
        Deps { storage: &self.storage, api: &self.api, querier: &self.querier }
    }

    /// A writable view of this bundle: whatever the holder of the view
    /// leaves in storage is what the bundle then owns.
    pub fn as_mut<'b>(&'b mut self) -> (d: DepsMut<'b, S, A, Q>)
        ensures
            *d.storage == old(self).storage,
            *d.api == old(self).api,
            d.queried() == old(self).querier,
            final(self).storage == *final(d.storage),
            final(self).api == old(self).api,
            final(self).querier == old(self).querier,
    {
        DepsMut { storage: &mut self.storage, api: &self.api, querier: &self.querier }
    }
}

impl<'a, S, A, Q> DepsMut<'a, S, A, Q> {
    /// The querier this view exposes.
    pub closed spec fn queried(self) -> Q {
        *self.querier
    }

    /// What this view's storage currently holds.
    pub closed spec fn stored(self) -> S {
        *self.storage
    }

    /// A read-only view of the same collaborators.
    pub fn as_ref<'b>(&'b self) -> (d: Deps<'b, S, A, Q>)
        ensures
            *d.storage == self.stored(),
            *d.api == *self.api,
            d.queried() == self.queried(),
    {
        Deps { storage: &*self.storage, api: self.api, querier: self.querier }
    }

    /// A re-borrowed writable view, for handing to a sub-call while keeping
    /// this one usable afterwards.
    pub fn branch<'b>(&'b mut self) -> (d: DepsMut<'b, S, A, Q>)
        ensures
            *d.storage == *old(self).storage,
            *d.api == *old(self).api,
            d.queried() == old(self).queried(),
            *final(self).storage == *final(d.storage),
            final(self).api == old(self).api,
            final(self).queried() == old(self).queried(),
    {
        DepsMut { storage: &mut *self.storage, api: self.api, querier: self.querier }
    }

    /// A wrapper over this view's querier, for plain queries.
    pub fn querier<'b>(&'b self) -> (r: QuerierWrapper<'b, Q>)
        ensures
            r.source() == self.queried(),
    {
        self.custom_querier::<Empty>()
    }

    /// A wrapper over this view's querier, for a custom query namespace.
    pub fn custom_querier<'b, C: CustomQuery>(&'b self) -> (r: QuerierWrapper<'b, Q>)
        ensures
            r.source() == self.queried(),
    {
        QuerierWrapper::new(self.querier)
    }
}

impl<'a, S, A, Q> Deps<'a, S, A, Q> {
    /// The querier this view exposes.
    pub closed spec fn queried(self) -> Q {
        *self.querier
    }

    /// A wrapper over this view's querier, for plain queries.
    pub fn querier<'b>(&'b self) -> (r: QuerierWrapper<'b, Q>)
        ensures
            r.source() == self.queried(),
    {
        self.custom_querier::<Empty>()
    }

    /// A wrapper over this view's querier, for a custom query namespace.
    pub fn custom_querier<'b, C: CustomQuery>(&'b self) -> (r: QuerierWrapper<'b, Q>)
        ensures
            r.source() == self.queried(),
    {
        QuerierWrapper::new(self.querier)
    }
}

} // verus!
