//! The long-lived side of the server: one key, any number of clients.
//!
//! Each connection becomes a session holding the preprocessing it did; the
//! sessions and their transport are driven by the application.
use vstd::prelude::*;
use crate::prf::SecretKey;
use std::sync::Arc;

verus! {

/// A server's key, shared by every session it opens.
#[derive(Clone)]
pub struct OprfServer {
    sk: Arc<SecretKey>,
}

impl OprfServer {
    pub fn new(sk: SecretKey) -> (r: Self)
        ensures
            r.key_view() == sk@,
    {
        OprfServer { sk: Arc::new(sk) }
    }

    /// The key's bits.
    pub closed spec fn key_view(&self) -> Seq<u8> {
        (*self.sk)@
    }

    /// The key this server evaluates under.
    pub fn key(&self) -> (r: &SecretKey)
        ensures
            r@ == self.key_view(),
    {
        &self.sk
    }
}

} // verus!
