//! The endpoint roles a non-relay node can take.

use vstd::prelude::*;

verus! {

/// Which application an endpoint runs on top of the delivery engine.
#[derive(Debug, Clone, PartialEq, Eq, Structural)]
pub enum ClientType {
    ChatClient,
    WebBrowser,
}

} // verus!
