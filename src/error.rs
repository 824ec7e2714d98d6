use vstd::prelude::*;

use crate::address::Address;

verus! {

/// Every way in which an operation of the registry can be refused.
#[derive(Clone, Copy, Debug, PartialEq, Eq, Structural)]
pub enum PoapError {
    /// Badges are soulbound: transfers and approvals are never allowed.
    TransferDisabled,
    /// The caller is neither a minter of the event nor the registry owner.
    OnlyEventMinterOrOwner,
    /// The recipient already holds a badge of the event.
    TokenAlreadyMinted { recipient: Address, event_id: u64 },
    /// The event was never created, or (for issuance) is no longer active.
    EventDoesNotExist { event_id: u64 },
    /// Issuance is paused.
    Paused,
    /// The ledger refused to record the new badge.
    MintFailed,
    /// The caller is not the registry owner.
    OwnableUnauthorizedAccount { account: Address },
    /// The null address cannot become the registry owner.
    OwnableInvalidOwner { owner: Address },
    /// No badge with this id has been issued.
    NonexistentToken { token_id: u64 },
    /// An index past the end of an enumeration (`owner` is null for the global one).
    OutOfBoundsIndex { owner: Address, index: u64 },
    /// The token is not listed under the given owner.
    TokenNotIndexed { owner: Address, token_id: u64 },
}

} // verus!
