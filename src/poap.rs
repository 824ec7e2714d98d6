use vstd::prelude::*;

use crate::address::Address;
use crate::address_set::AddressSet;
use crate::enumeration::EnumerationIndex;
use crate::error::PoapError;
use crate::uri::{build_token_uri, token_uri_of};

verus! {

pub const INTERFACE_ERC165: u32 = 0x01ffc9a7;

pub const INTERFACE_ERC721: u32 = 0x80ac58cd;

pub const INTERFACE_ERC721_METADATA: u32 = 0x5b5e139f;

pub const INTERFACE_ERC721_ENUMERABLE: u32 = 0x780e9d63;

/// The record of one event.
#[derive(Clone, Debug)]
pub struct EventData {
    pub name: String,
    pub description: String,
    pub image_uri: String,
    pub date: String,
    pub organizer: Address,
    pub active: bool,
}

/// What the registry reports of its own changes, in the order they happen.
#[derive(Clone, Debug, PartialEq, Eq)]
pub enum LogRecord {
    EventCreated { event_id: u64, name: String, organizer: Address },
    EventMinterAdded { event_id: u64, minter: Address },
    EventMinterRemoved { event_id: u64, minter: Address },
    BadgeMinted { recipient: Address, token_id: u64, event_id: u64 },
}

/// The recipients of a batch that receive a badge, in order: each one that
/// is not the null address and is not yet in `seen`, which then grows by it.
pub open spec fn accepted(seen: Set<Address>, rs: Seq<Address>) -> Seq<Address>
    decreases rs.len(),
{
    if rs.len() == 0 {
        Seq::empty()
    } else if seen.contains(rs[0]) || rs[0].is_null() {
        accepted(seen, rs.drop_first())
    } else {
        seq![rs[0]] + accepted(seen.insert(rs[0]), rs.drop_first())
    }
}

/// An address already seen never appears among the accepted recipients.
pub proof fn lemma_accepted_skips_seen(seen: Set<Address>, rs: Seq<Address>, a: Address)
    requires
        seen.contains(a),
    ensures
        !accepted(seen, rs).contains(a),
    decreases rs.len(),
{
    if rs.len() > 0 {
        lemma_accepted_skips_seen(seen, rs.drop_first(), a);
        if !(seen.contains(rs[0]) || rs[0].is_null()) {
            lemma_accepted_skips_seen(seen.insert(rs[0]), rs.drop_first(), a);
            let tail = accepted(seen.insert(rs[0]), rs.drop_first());
            assert(accepted(seen, rs) == seq![rs[0]] + tail);
            if accepted(seen, rs).contains(a) {
                let i = choose|i: int| 0 <= i < accepted(seen, rs).len() && accepted(seen, rs)[i] == a;
                if i > 0 {
                    assert(tail[i - 1] == a);
                }
            }
        }
    }
}

/// A registry of soulbound attendance badges.
///
/// Event `e` is stored at position `e - 1` of `events`, `event_minters` and
/// `event_attendance`; badge `t` at position `t - 1` of `token_owners` and
/// `token_event`. Ids are handed out in order, from 1, and never reused.
pub struct Poap {
    name: String,
    symbol: String,
    base_uri: String,
    owner: Address,
    paused: bool,
    events: Vec<EventData>,
    event_minters: Vec<AddressSet>,
    event_attendance: Vec<AddressSet>,
    token_owners: Vec<Address>,
    token_event: Vec<u64>,
    enumerable: EnumerationIndex,
    log: Vec<LogRecord>,
}

impl Poap {
    pub closed spec fn owner_spec(&self) -> Address {
        self.owner
    }

    pub closed spec fn paused_spec(&self) -> bool {
        self.paused
    }

    pub closed spec fn name_spec(&self) -> Seq<char> {
        self.name@
    }

    pub closed spec fn symbol_spec(&self) -> Seq<char> {
        self.symbol@
    }

    pub closed spec fn base_uri_spec(&self) -> Seq<char> {
        self.base_uri@
    }

    /// The events created so far; event `e` is at position `e - 1`.
    pub closed spec fn events_spec(&self) -> Seq<EventData> {
        self.events@
    }

    /// The addresses allowed to issue badges of event `e`.
    pub closed spec fn minters(&self, e: int) -> Set<Address> {
        if 1 <= e <= self.events@.len() {
            self.event_minters@[e - 1]@
        } else {
            Set::empty()
        }
    }

    /// The addresses that hold a badge of event `e`.
    pub closed spec fn attendees(&self, e: int) -> Set<Address> {
        if 1 <= e <= self.events@.len() {
            self.event_attendance@[e - 1]@
        } else {
            Set::empty()
        }
    }

    /// The holder of each badge issued so far; badge `t` at position `t - 1`.
    pub closed spec fn holders(&self) -> Seq<Address> {
        self.token_owners@
    }

    /// The event of each badge issued so far; badge `t` at position `t - 1`.
    pub closed spec fn token_events(&self) -> Seq<u64> {
        self.token_event@
    }

    /// The global enumeration of badges.
    pub closed spec fn all_tokens(&self) -> Seq<u64> {
        self.enumerable.all()
    }

    /// The enumeration of the badges of `a`.
    pub closed spec fn tokens_of(&self, a: Address) -> Seq<u64> {
        self.enumerable.tokens_of(a)
    }

    pub closed spec fn log_records(&self) -> Seq<LogRecord> {
        self.log@
    }

    pub open spec fn event_exists(&self, e: int) -> bool {
        1 <= e <= self.events_spec().len()
    }

    pub open spec fn event_active(&self, e: int) -> bool {
        self.event_exists(e) && self.events_spec()[e - 1].active
    }

    pub open spec fn token_exists(&self, t: int) -> bool {
        1 <= t <= self.holders().len()
    }

    /// May `caller` issue badges of event `e`?
    pub open spec fn can_mint(&self, e: int, caller: Address) -> bool {
        self.minters(e).contains(caller) || caller == self.owner_spec()
    }

    /// The registry's invariant: the event tables line up; every badge has a
    /// real holder and an existing event, is listed in its holder's
    /// enumeration, and makes its holder an attendee of its event; the
    /// enumerations list only badges of their holders; and no address holds
    /// two badges of one event; each holder's enumeration is in issuance
    /// order; and an attendee of an event holds a badge of it.
    pub closed spec fn wf(&self) -> bool {
        &&& self.event_minters@.len() == self.events@.len()
        &&& self.event_attendance@.len() == self.events@.len()
        &&& self.events@.len() < u64::MAX
        &&& forall|i: int| 0 <= i < self.events@.len() ==> #[trigger] self.event_minters@[i].wf()
        &&& forall|i: int| 0 <= i < self.events@.len() ==> #[trigger] self.event_attendance@[i].wf()
        &&& self.token_event@.len() == self.token_owners@.len()
        &&& self.enumerable.all().len() == self.token_owners@.len()
        &&& self.enumerable.wf()
        &&& forall|i: int|
            0 <= i < self.token_owners@.len() ==> {
                &&& !(#[trigger] self.token_owners@[i]).is_null()
                &&& 1 <= self.token_event@[i] <= self.events@.len()
                &&& self.enumerable.tokens_of(self.token_owners@[i]).contains((i + 1) as u64)
                &&& self.attendees(self.token_event@[i] as int).contains(self.token_owners@[i])
            }
        &&& forall|a: Address, i: int|
            0 <= i < self.enumerable.tokens_of(a).len() ==> self.token_owners@[#[trigger] self.enumerable.tokens_of(a)[i] - 1] == a
        &&& forall|i: int, j: int|
            0 <= i < self.token_owners@.len() && 0 <= j < self.token_owners@.len() && i != j
                && #[trigger] self.token_owners@[i] == #[trigger] self.token_owners@[j] ==> self.token_event@[i] != self.token_event@[j]
        &&& forall|a: Address, i: int, j: int|
            0 <= i < j < self.enumerable.tokens_of(a).len() ==> #[trigger] self.enumerable.tokens_of(a)[i]
                < #[trigger] self.enumerable.tokens_of(a)[j]
        &&& forall|e: int, a: Address|
            #[trigger] self.attendees(e).contains(a) ==> exists|i: int|
                0 <= i < self.token_owners@.len() && self.token_owners@[i] == a && self.token_event@[i] == e
    }

    /// A new registry with no events, no badges, not paused, owned by `owner`.
    pub fn new(name: String, symbol: String, base_uri: String, owner: Address) -> (r: Poap)
        ensures
            r.wf(),
            r.name_spec() == name@,
            r.symbol_spec() == symbol@,
            r.base_uri_spec() == base_uri@,
            r.owner_spec() == owner,
            !r.paused_spec(),
            r.events_spec().len() == 0,
            r.holders().len() == 0,
            r.token_events().len() == 0,
            r.all_tokens().len() == 0,
            forall|e: int| #[trigger] r.minters(e) == Set::<Address>::empty(),
            forall|e: int| #[trigger] r.attendees(e) == Set::<Address>::empty(),
            forall|a: Address| #[trigger] r.tokens_of(a).len() == 0,
            r.log_records().len() == 0,
    {
        Poap {
            name,
            symbol,
            base_uri,
            owner,
            paused: false,
            events: Vec::new(),
            event_minters: Vec::new(),
            event_attendance: Vec::new(),
            token_owners: Vec::new(),
            token_event: Vec::new(),
            enumerable: EnumerationIndex::new(),
            log: Vec::new(),
        }
    }

    /// The badges, their enumerations and the ledger are as in `other`.
    pub open spec fn same_badges(&self, other: &Poap) -> bool {
        &&& self.holders() == other.holders()
        &&& self.token_events() == other.token_events()
        &&& self.all_tokens() == other.all_tokens()
        &&& forall|a: Address| #[trigger] self.tokens_of(a) == other.tokens_of(a)
    }

    /// Name, symbol, base URI, owner and pause flag are as in `other`.
    pub open spec fn same_settings(&self, other: &Poap) -> bool {
        &&& self.name_spec() == other.name_spec()
        &&& self.symbol_spec() == other.symbol_spec()
        &&& self.base_uri_spec() == other.base_uri_spec()
        &&& self.owner_spec() == other.owner_spec()
        &&& self.paused_spec() == other.paused_spec()
    }

    /// Attendance of every event is as in `other`.
    pub open spec fn same_attendance(&self, other: &Poap) -> bool {
        forall|e: int| #[trigger] self.attendees(e) == other.attendees(e)
    }

    // ---- access control ----

    fn ensure_owner(&self, caller: Address) -> (r: Result<(), PoapError>)
        ensures
            caller == self.owner_spec() ==> r is Ok,
            caller != self.owner_spec() ==> r == Err::<(), PoapError>(
                PoapError::OwnableUnauthorizedAccount { account: caller },
            ),
    {
        if caller == self.owner {
            Ok(())
        } else {
            Err(PoapError::OwnableUnauthorizedAccount { account: caller })
        }
    }

    pub fn get_owner(&self) -> (r: Address)
        ensures
            r == self.owner_spec(),
    {
        self.owner
    }

    /// Hands the registry to `new_owner`; only the owner may, and never to
    /// the null address.
    pub fn transfer_ownership(&mut self, caller: Address, new_owner: Address) -> (r: Result<
        (),
        PoapError,
    >)
        requires
            old(self).wf(),
        ensures
            final(self).wf(),
            caller != old(self).owner_spec() ==> r == Err::<(), PoapError>(
                PoapError::OwnableUnauthorizedAccount { account: caller },
            ),
            caller == old(self).owner_spec() && new_owner.is_null() ==> r == Err::<(), PoapError>(
                PoapError::OwnableInvalidOwner { owner: new_owner },
            ),
            r is Err ==> *final(self) == *old(self),
            r is Ok <==> caller == old(self).owner_spec() && !new_owner.is_null(),
            r is Ok ==> final(self).owner_spec() == new_owner,
            final(self).name_spec() == old(self).name_spec(),
            final(self).symbol_spec() == old(self).symbol_spec(),
            final(self).base_uri_spec() == old(self).base_uri_spec(),
            final(self).paused_spec() == old(self).paused_spec(),
            final(self).events_spec() == old(self).events_spec(),
            forall|e: int| #[trigger] final(self).minters(e) == old(self).minters(e),
            final(self).same_attendance(&*old(self)),
            final(self).same_badges(&*old(self)),
            final(self).log_records() == old(self).log_records(),
    {
        self.ensure_owner(caller)?;
        if new_owner.is_zero() {
            return Err(PoapError::OwnableInvalidOwner { owner: new_owner });
        }
        let ghost pre = *self;
        self.owner = new_owner;
        proof {
            self.lemma_wf_frame(pre);
        }
        Ok(())
    }

    // ---- pause switch ----

    /// Stops all issuance; only the owner may. Pausing a paused registry is
    /// a success that changes nothing.
    pub fn pause(&mut self, caller: Address) -> (r: Result<(), PoapError>)
        requires
            old(self).wf(),
        ensures
            final(self).wf(),
            caller != old(self).owner_spec() ==> r == Err::<(), PoapError>(
                PoapError::OwnableUnauthorizedAccount { account: caller },
            ) && *final(self) == *old(self),
            caller == old(self).owner_spec() ==> r is Ok && final(self).paused_spec(),
            final(self).paused_spec() == (old(self).paused_spec() || caller == old(self).owner_spec()),
            final(self).owner_spec() == old(self).owner_spec(),
            final(self).name_spec() == old(self).name_spec(),
            final(self).symbol_spec() == old(self).symbol_spec(),
            final(self).base_uri_spec() == old(self).base_uri_spec(),
            final(self).events_spec() == old(self).events_spec(),
            forall|e: int| #[trigger] final(self).minters(e) == old(self).minters(e),
            final(self).same_attendance(&*old(self)),
            final(self).same_badges(&*old(self)),
            final(self).log_records() == old(self).log_records(),
    {
        self.ensure_owner(caller)?;
        let ghost pre = *self;
        self.paused = true;
        proof {
            self.lemma_wf_frame(pre);
        }
        Ok(())
    }

    /// Resumes issuance; only the owner may. Unpausing a running registry
    /// is a success that changes nothing.
    pub fn unpause(&mut self, caller: Address) -> (r: Result<(), PoapError>)
        requires
            old(self).wf(),
        ensures
            final(self).wf(),
            caller != old(self).owner_spec() ==> r == Err::<(), PoapError>(
                PoapError::OwnableUnauthorizedAccount { account: caller },
            ) && *final(self) == *old(self),
            caller == old(self).owner_spec() ==> r is Ok && !final(self).paused_spec(),
            final(self).paused_spec() == (old(self).paused_spec() && caller != old(self).owner_spec()),
            final(self).owner_spec() == old(self).owner_spec(),
            final(self).name_spec() == old(self).name_spec(),
            final(self).symbol_spec() == old(self).symbol_spec(),
            final(self).base_uri_spec() == old(self).base_uri_spec(),
            final(self).events_spec() == old(self).events_spec(),
            forall|e: int| #[trigger] final(self).minters(e) == old(self).minters(e),
            final(self).same_attendance(&*old(self)),
            final(self).same_badges(&*old(self)),
            final(self).log_records() == old(self).log_records(),
    {
        self.ensure_owner(caller)?;
        let ghost pre = *self;
        self.paused = false;
        proof {
            self.lemma_wf_frame(pre);
        }
        Ok(())
    }

    pub fn is_paused(&self) -> (r: bool)
        ensures
            r == self.paused_spec(),
    {
        self.paused
    }

    // ---- soulbound: every transfer and approval is refused ----

    pub fn safe_transfer_from(&mut self, from: Address, to: Address, token_id: u64) -> (r: Result<
        (),
        PoapError,
    >)
        ensures
            r == Err::<(), PoapError>(PoapError::TransferDisabled),
            *final(self) == *old(self),
    {
        Err(PoapError::TransferDisabled)
    }

    pub fn safe_transfer_from_with_data(
        &mut self,
        from: Address,
        to: Address,
        token_id: u64,
        data: Vec<u8>,
    ) -> (r: Result<(), PoapError>)
        ensures
            r == Err::<(), PoapError>(PoapError::TransferDisabled),
            *final(self) == *old(self),
    {
        Err(PoapError::TransferDisabled)
    }

    pub fn transfer_from(&mut self, from: Address, to: Address, token_id: u64) -> (r: Result<
        (),
        PoapError,
    >)
        ensures
            r == Err::<(), PoapError>(PoapError::TransferDisabled),
            *final(self) == *old(self),
    {
        Err(PoapError::TransferDisabled)
    }

    pub fn approve(&mut self, to: Address, token_id: u64) -> (r: Result<(), PoapError>)
        ensures
            r == Err::<(), PoapError>(PoapError::TransferDisabled),
            *final(self) == *old(self),
    {
        Err(PoapError::TransferDisabled)
    }

    pub fn set_approval_for_all(&mut self, operator: Address, approved: bool) -> (r: Result<
        (),
        PoapError,
    >)
        ensures
            r == Err::<(), PoapError>(PoapError::TransferDisabled),
            *final(self) == *old(self),
    {
        Err(PoapError::TransferDisabled)
    }

    /// No address is ever approved for a badge: the null address for every
    /// issued one.
    pub fn get_approved(&self, token_id: u64) -> (r: Result<Address, PoapError>)
        ensures
            self.token_exists(token_id as int) ==> r == Ok::<Address, PoapError>(
                Address { high: 0, low: 0 },
            ),
            !self.token_exists(token_id as int) ==> r == Err::<Address, PoapError>(
                PoapError::NonexistentToken { token_id },
            ),
    {
        if token_id >= 1 && token_id <= self.token_owners.len() as u64 {
            Ok(Address::zero())
        } else {
            Err(PoapError::NonexistentToken { token_id })
        }
    }

    /// No operator is ever approved.
    pub fn is_approved_for_all(&self, owner: Address, operator: Address) -> (r: bool)
        ensures
            !r,
    {
        false
    }

    // ---- event registry ----

    /// The position of an existing event in the event tables.
    fn event_index(&self, event_id: u64) -> (r: Result<usize, PoapError>)
        ensures
            self.event_exists(event_id as int) ==> r is Ok && r->Ok_0 == event_id - 1,
            !self.event_exists(event_id as int) ==> r == Err::<usize, PoapError>(
                PoapError::EventDoesNotExist { event_id },
            ),
    {
        if event_id >= 1 && event_id <= self.events.len() as u64 {
            Ok((event_id - 1) as usize)
        } else {
            Err(PoapError::EventDoesNotExist { event_id })
        }
    }

    /// Registers a new event under the next event id, active, with its
    /// organizer as its first minter; only the owner may.
    pub fn create_event(
        &mut self,
        caller: Address,
        name: String,
        description: String,
        image_uri: String,
        date: String,
        organizer: Address,
    ) -> (r: Result<u64, PoapError>)
        requires
            old(self).wf(),
            old(self).events_spec().len() + 1 < u64::MAX,
        ensures
            final(self).wf(),
            caller != old(self).owner_spec() ==> r == Err::<u64, PoapError>(
                PoapError::OwnableUnauthorizedAccount { account: caller },
            ) && *final(self) == *old(self),
            caller == old(self).owner_spec() ==> {
                let id = old(self).events_spec().len() + 1int;
                &&& r == Ok::<u64, PoapError>(id as u64)
                &&& final(self).events_spec() == old(self).events_spec().push(
                    (EventData { name, description, image_uri, date, organizer, active: true }),
                )
                &&& final(self).minters(id) == Set::<Address>::empty().insert(organizer)
                &&& forall|e: int| e != id ==> #[trigger] final(self).minters(e) == old(self).minters(e)
                &&& final(self).attendees(id) == Set::<Address>::empty()
                &&& final(self).log_records() == old(self).log_records().push(
                    LogRecord::EventCreated { event_id: id as u64, name, organizer },
                )
            },
            final(self).same_settings(&*old(self)),
            forall|e: int|
                e != old(self).events_spec().len() + 1 ==> #[trigger] final(self).attendees(e) == old(self).attendees(e),
            final(self).same_badges(&*old(self)),
    {
        self.ensure_owner(caller)?;
        let new_event_id = self.events.len() as u64 + 1;
        let record_name = name.clone();
        let ghost pre = *self;
        self.events.push(EventData { name, description, image_uri, date, organizer, active: true });
        let mut minters = AddressSet::new();
        minters.insert(organizer);
        self.event_minters.push(minters);
        self.event_attendance.push(AddressSet::new());
        self.log.push(LogRecord::EventCreated { event_id: new_event_id, name: record_name, organizer });
        proof {
            let n = pre.events@.len();
            assert forall|i: int| 0 <= i < self.events@.len() implies #[trigger] self.event_minters@[i].wf() by {
                if i < n {
                    assert(self.event_minters@[i] == pre.event_minters@[i]);
                }
            }
            assert forall|i: int| 0 <= i < self.events@.len() implies #[trigger] self.event_attendance@[i].wf() by {
                if i < n {
                    assert(self.event_attendance@[i] == pre.event_attendance@[i]);
                }
            }
            assert(self.event_attendance@[n as int]@ == Set::<Address>::empty());
            assert forall|e: int| e != n + 1 implies #[trigger] self.attendees(e) == pre.attendees(e) by {
                if 1 <= e <= n {
                    assert(self.event_attendance@[e - 1] == pre.event_attendance@[e - 1]);
                }
            }
            assert forall|e: int| e != n + 1 implies #[trigger] self.minters(e) == pre.minters(e) by {
                if 1 <= e <= n {
                    assert(self.event_minters@[e - 1] == pre.event_minters@[e - 1]);
                }
            }
            assert forall|i: int| 0 <= i < self.token_owners@.len() implies
                self.attendees(self.token_event@[i] as int).contains(#[trigger] self.token_owners@[i]) by {
                assert(pre.attendees(pre.token_event@[i] as int).contains(pre.token_owners@[i]));
            }
        }
        Ok(new_event_id)
    }

    /// Ends issuance for an event, for good; only the owner may. Deactivating
    /// an inactive event is a success that changes nothing.
    pub fn deactivate_event(&mut self, caller: Address, event_id: u64) -> (r: Result<(), PoapError>)
        requires
            old(self).wf(),
        ensures
            final(self).wf(),
            caller != old(self).owner_spec() ==> r == Err::<(), PoapError>(
                PoapError::OwnableUnauthorizedAccount { account: caller },
            ),
            caller == old(self).owner_spec() && !old(self).event_exists(event_id as int)
                ==> r == Err::<(), PoapError>(PoapError::EventDoesNotExist { event_id }),
            r is Ok <==> caller == old(self).owner_spec() && old(self).event_exists(event_id as int),
            r is Err ==> *final(self) == *old(self),
            r is Ok ==> final(self).events_spec() == old(self).events_spec().update(
                event_id - 1,
                (EventData { active: false, ..old(self).events_spec()[event_id - 1] }),
            ),
            forall|e: int| #[trigger] final(self).minters(e) == old(self).minters(e),
            final(self).same_settings(&*old(self)),
            final(self).same_attendance(&*old(self)),
            final(self).same_badges(&*old(self)),
            final(self).log_records() == old(self).log_records(),
    {
        self.ensure_owner(caller)?;
        let i = self.event_index(event_id)?;
        self.events[i].active = false;
        assert(self.events@ =~= old(self).events@.update(
            event_id - 1,
            (EventData { active: false, ..old(self).events@[event_id - 1] }),
        ));
        proof {
            self.lemma_wf_frame(*old(self));
        }
        Ok(())
    }

    /// Lets `minter` issue badges of an existing event (active or not); only
    /// the owner may.
    pub fn add_event_minter(&mut self, caller: Address, event_id: u64, minter: Address) -> (r: Result<
        (),
        PoapError,
    >)
        requires
            old(self).wf(),
        ensures
            final(self).wf(),
            caller != old(self).owner_spec() ==> r == Err::<(), PoapError>(
                PoapError::OwnableUnauthorizedAccount { account: caller },
            ),
            caller == old(self).owner_spec() && !old(self).event_exists(event_id as int)
                ==> r == Err::<(), PoapError>(PoapError::EventDoesNotExist { event_id }),
            r is Ok <==> caller == old(self).owner_spec() && old(self).event_exists(event_id as int),
            r is Err ==> *final(self) == *old(self),
            r is Ok ==> final(self).minters(event_id as int) == old(self).minters(event_id as int).insert(minter)
                && final(self).log_records() == old(self).log_records().push(
                LogRecord::EventMinterAdded { event_id, minter },
            ),
            forall|e: int| e != event_id ==> #[trigger] final(self).minters(e) == old(self).minters(e),
            final(self).events_spec() == old(self).events_spec(),
            final(self).same_settings(&*old(self)),
            final(self).same_attendance(&*old(self)),
            final(self).same_badges(&*old(self)),
    {
        self.ensure_owner(caller)?;
        let i = self.event_index(event_id)?;
        let ghost pre = *self;
        self.event_minters[i].insert(minter);
        self.log.push(LogRecord::EventMinterAdded { event_id, minter });
        proof {
            self.lemma_minters_frame(pre, i as int);
        }
        Ok(())
    }

    /// Withdraws the grant of `minter` for an existing event; only the
    /// owner may.
    pub fn remove_event_minter(&mut self, caller: Address, event_id: u64, minter: Address) -> (r: Result<
        (),
        PoapError,
    >)
        requires
            old(self).wf(),
        ensures
            final(self).wf(),
            caller != old(self).owner_spec() ==> r == Err::<(), PoapError>(
                PoapError::OwnableUnauthorizedAccount { account: caller },
            ),
            caller == old(self).owner_spec() && !old(self).event_exists(event_id as int)
                ==> r == Err::<(), PoapError>(PoapError::EventDoesNotExist { event_id }),
            r is Ok <==> caller == old(self).owner_spec() && old(self).event_exists(event_id as int),
            r is Err ==> *final(self) == *old(self),
            r is Ok ==> final(self).minters(event_id as int) == old(self).minters(event_id as int).remove(minter)
                && final(self).log_records() == old(self).log_records().push(
                LogRecord::EventMinterRemoved { event_id, minter },
            ),
            forall|e: int| e != event_id ==> #[trigger] final(self).minters(e) == old(self).minters(e),
            final(self).events_spec() == old(self).events_spec(),
            final(self).same_settings(&*old(self)),
            final(self).same_attendance(&*old(self)),
            final(self).same_badges(&*old(self)),
    {
        self.ensure_owner(caller)?;
        let i = self.event_index(event_id)?;
        let ghost pre = *self;
        self.event_minters[i].remove(minter);
        self.log.push(LogRecord::EventMinterRemoved { event_id, minter });
        proof {
            self.lemma_minters_frame(pre, i as int);
        }
        Ok(())
    }

    /// A change that leaves the badge tables, the attendance, the minters and
    /// the number of events alone keeps the invariant.
    proof fn lemma_wf_frame(&self, pre: Poap)
        requires
            pre.wf(),
            self.events@.len() == pre.events@.len(),
            self.event_minters == pre.event_minters,
            self.event_attendance == pre.event_attendance,
            self.token_owners == pre.token_owners,
            self.token_event == pre.token_event,
            self.enumerable == pre.enumerable,
        ensures
            self.wf(),
    {
        assert forall|e: int| #[trigger] self.attendees(e) == pre.attendees(e) by {}
        assert forall|t: int| 0 <= t < self.token_owners@.len() implies
            self.attendees(self.token_event@[t] as int).contains(#[trigger] self.token_owners@[t]) by {
            assert(pre.attendees(pre.token_event@[t] as int).contains(pre.token_owners@[t]));
        }
        assert forall|e: int, a: Address| #[trigger] self.attendees(e).contains(a) implies exists|i: int|
            0 <= i < self.token_owners@.len() && self.token_owners@[i] == a && self.token_event@[i] == e by {
            assert(pre.attendees(e).contains(a));
        }
    }

    /// After one minter set changed, every other one and all attendance are
    /// as before, and the invariant still holds.
    proof fn lemma_minters_frame(&self, pre: Poap, i: int)
        requires
            pre.wf(),
            0 <= i < pre.events@.len(),
            self.event_minters@.len() == pre.event_minters@.len(),
            self.event_minters@[i].wf(),
            forall|j: int| 0 <= j < self.event_minters@.len() && j != i ==> self.event_minters@[j] == pre.event_minters@[j],
            self.events == pre.events,
            self.event_attendance == pre.event_attendance,
            self.token_owners == pre.token_owners,
            self.token_event == pre.token_event,
            self.enumerable == pre.enumerable,
        ensures
            self.wf(),
            forall|e: int| e != i + 1 ==> #[trigger] self.minters(e) == pre.minters(e),
            self.same_attendance(&pre),
    {
        assert forall|j: int| 0 <= j < self.events@.len() implies #[trigger] self.event_minters@[j].wf() by {
            if j != i {
                assert(self.event_minters@[j] == pre.event_minters@[j]);
            }
        }
        assert forall|e: int| e != i + 1 implies #[trigger] self.minters(e) == pre.minters(e) by {
            if 1 <= e <= self.events@.len() {
                assert(self.event_minters@[e - 1] == pre.event_minters@[e - 1]);
            }
        }
        assert forall|t: int| 0 <= t < self.token_owners@.len() implies
            self.attendees(self.token_event@[t] as int).contains(#[trigger] self.token_owners@[t]) by {
            assert(pre.attendees(pre.token_event@[t] as int).contains(pre.token_owners@[t]));
        }
        assert forall|e: int, a: Address| #[trigger] self.attendees(e).contains(a) implies exists|t: int|
            0 <= t < self.token_owners@.len() && self.token_owners@[t] == a && self.token_event@[t] == e by {
            assert(pre.attendees(e).contains(a));
        }
    }

    pub fn get_last_event_id(&self) -> (r: u64)
        ensures
            r == self.events_spec().len(),
    {
        self.events.len() as u64
    }

    pub fn is_event_active(&self, event_id: u64) -> (r: bool)
        ensures
            r == self.event_active(event_id as int),
    {
        if event_id >= 1 && event_id <= self.events.len() as u64 {
            self.events[(event_id - 1) as usize].active
        } else {
            false
        }
    }

    pub fn is_event_minter(&self, event_id: u64, minter: Address) -> (r: bool)
        requires
            self.wf(),
        ensures
            r == self.minters(event_id as int).contains(minter),
            !self.event_exists(event_id as int) ==> !r,
    {
        if event_id >= 1 && event_id <= self.events.len() as u64 {
            self.event_minters[(event_id - 1) as usize].contains(minter)
        } else {
            false
        }
    }

    pub fn has_attended(&self, event_id: u64, attendee: Address) -> (r: bool)
        requires
            self.wf(),
        ensures
            r == self.attendees(event_id as int).contains(attendee),
            !self.event_exists(event_id as int) ==> !r,
    {
        if event_id >= 1 && event_id <= self.events.len() as u64 {
            self.event_attendance[(event_id - 1) as usize].contains(attendee)
        } else {
            false
        }
    }

    /// The name of an event; empty for an id never allocated.
    pub fn get_event_name(&self, event_id: u64) -> (r: String)
        ensures
            self.event_exists(event_id as int) ==> r@ == self.events_spec()[event_id - 1].name@,
            !self.event_exists(event_id as int) ==> r@ == Seq::<char>::empty(),
    {
        if event_id >= 1 && event_id <= self.events.len() as u64 {
            self.events[(event_id - 1) as usize].name.clone()
        } else {
            String::new()
        }
    }

    /// The description of an event; empty for an id never allocated.
    pub fn get_event_description(&self, event_id: u64) -> (r: String)
        ensures
            self.event_exists(event_id as int) ==> r@ == self.events_spec()[event_id - 1].description@,
            !self.event_exists(event_id as int) ==> r@ == Seq::<char>::empty(),
    {
        if event_id >= 1 && event_id <= self.events.len() as u64 {
            self.events[(event_id - 1) as usize].description.clone()
        } else {
            String::new()
        }
    }

    /// The image reference of an event; empty for an id never allocated.
    pub fn get_event_image_uri(&self, event_id: u64) -> (r: String)
        ensures
            self.event_exists(event_id as int) ==> r@ == self.events_spec()[event_id - 1].image_uri@,
            !self.event_exists(event_id as int) ==> r@ == Seq::<char>::empty(),
    {
        if event_id >= 1 && event_id <= self.events.len() as u64 {
            self.events[(event_id - 1) as usize].image_uri.clone()
        } else {
            String::new()
        }
    }

    /// The date of an event; empty for an id never allocated.
    pub fn get_event_date(&self, event_id: u64) -> (r: String)
        ensures
            self.event_exists(event_id as int) ==> r@ == self.events_spec()[event_id - 1].date@,
            !self.event_exists(event_id as int) ==> r@ == Seq::<char>::empty(),
    {
        if event_id >= 1 && event_id <= self.events.len() as u64 {
            self.events[(event_id - 1) as usize].date.clone()
        } else {
            String::new()
        }
    }

    /// The organizer of an event; the null address for an id never allocated.
    pub fn get_event_organizer(&self, event_id: u64) -> (r: Address)
        ensures
            self.event_exists(event_id as int) ==> r == self.events_spec()[event_id - 1].organizer,
            !self.event_exists(event_id as int) ==> r.is_null(),
    {
        if event_id >= 1 && event_id <= self.events.len() as u64 {
            self.events[(event_id - 1) as usize].organizer
        } else {
            Address::zero()
        }
    }

    // ---- issuance ----

    /// The first reason, in order of checking, for refusing to let `caller`
    /// issue a badge of event `e`: paused, event missing or inactive, caller
    /// without the right.
    pub open spec fn batch_refusal(&self, caller: Address, e: u64) -> Option<PoapError> {
        if self.paused_spec() {
            Some(PoapError::Paused)
        } else if !self.event_active(e as int) {
            Some(PoapError::EventDoesNotExist { event_id: e })
        } else if !self.can_mint(e as int, caller) {
            Some(PoapError::OnlyEventMinterOrOwner)
        } else {
            None
        }
    }

    /// The first reason, in order of checking, for refusing to let `caller`
    /// issue a badge of event `e` to `to`: those of `batch_refusal`, then a
    /// recipient who already attended, then a ledger that refuses the null
    /// address.
    pub open spec fn issue_refusal(&self, caller: Address, e: u64, to: Address) -> Option<PoapError> {
        if self.batch_refusal(caller, e) is Some {
            self.batch_refusal(caller, e)
        } else if self.attendees(e as int).contains(to) {
            Some(PoapError::TokenAlreadyMinted { recipient: to, event_id: e })
        } else if to.is_null() {
            Some(PoapError::MintFailed)
        } else {
            None
        }
    }

    /// `post` is `self` with one more badge, the next id, of event `e`, held
    /// by `to`; nothing else differs.
    pub open spec fn issues_one(&self, post: &Poap, e: u64, to: Address) -> bool {
        let t = (self.holders().len() + 1) as u64;
        &&& post.holders() == self.holders().push(to)
        &&& post.token_events() == self.token_events().push(e)
        &&& post.all_tokens() == self.all_tokens().push(t)
        &&& post.tokens_of(to) == self.tokens_of(to).push(t)
        &&& forall|b: Address| b != to ==> #[trigger] post.tokens_of(b) == self.tokens_of(b)
        &&& post.attendees(e as int) == self.attendees(e as int).insert(to)
        &&& forall|e2: int| e2 != e ==> #[trigger] post.attendees(e2) == self.attendees(e2)
        &&& post.log_records() == self.log_records().push(
            LogRecord::BadgeMinted { recipient: to, token_id: t, event_id: e },
        )
        &&& post.same_settings(self)
        &&& post.events_spec() == self.events_spec()
        &&& forall|e2: int| #[trigger] post.minters(e2) == self.minters(e2)
    }

    fn ensure_not_paused(&self) -> (r: Result<(), PoapError>)
        ensures
            self.paused_spec() ==> r == Err::<(), PoapError>(PoapError::Paused),
            !self.paused_spec() ==> r is Ok,
    {
        if self.paused {
            Err(PoapError::Paused)
        } else {
            Ok(())
        }
    }

    fn ensure_event_active(&self, event_id: u64) -> (r: Result<usize, PoapError>)
        ensures
            self.event_active(event_id as int) ==> r is Ok && r->Ok_0 == event_id - 1,
            !self.event_active(event_id as int) ==> r == Err::<usize, PoapError>(
                PoapError::EventDoesNotExist { event_id },
            ),
    {
        let i = self.event_index(event_id)?;
        if self.events[i].active {
            Ok(i)
        } else {
            Err(PoapError::EventDoesNotExist { event_id })
        }
    }

    fn ensure_mint_permissions(&self, caller: Address, i: usize) -> (r: Result<(), PoapError>)
        requires
            self.wf(),
            i < self.events_spec().len(),
        ensures
            self.can_mint(i + 1, caller) ==> r is Ok,
            !self.can_mint(i + 1, caller) ==> r == Err::<(), PoapError>(PoapError::OnlyEventMinterOrOwner),
    {
        if self.event_minters[i].contains(caller) || caller == self.owner {
            Ok(())
        } else {
            Err(PoapError::OnlyEventMinterOrOwner)
        }
    }

    fn ensure_recipient_not_attending(&self, i: usize, recipient: Address) -> (r: Result<(), PoapError>)
        requires
            self.wf(),
            i < self.events_spec().len(),
        ensures
            self.attendees(i + 1).contains(recipient) ==> r == Err::<(), PoapError>(
                PoapError::TokenAlreadyMinted { recipient, event_id: (i + 1) as u64 },
            ),
            !self.attendees(i + 1).contains(recipient) ==> r is Ok,
    {
        if self.event_attendance[i].contains(recipient) {
            Err(PoapError::TokenAlreadyMinted { recipient, event_id: i as u64 + 1 })
        } else {
            Ok(())
        }
    }

    /// Records the next badge of event `i + 1` for `recipient`: ledger,
    /// event association, attendance, both enumerations and the log. The
    /// ledger refuses the null address, and then nothing changes.
    fn mint_badge_internal(&mut self, i: usize, recipient: Address) -> (r: Result<u64, PoapError>)
        requires
            old(self).wf(),
            i < old(self).events_spec().len(),
            !old(self).attendees(i + 1).contains(recipient),
            old(self).holders().len() + 2 < u64::MAX,
        ensures
            final(self).wf(),
            recipient.is_null() ==> r == Err::<u64, PoapError>(PoapError::MintFailed)
                && *final(self) == *old(self),
            !recipient.is_null() ==> r == Ok::<u64, PoapError>((old(self).holders().len() + 1) as u64)
                && old(self).issues_one(&*final(self), (i + 1) as u64, recipient),
    {
        if recipient.is_zero() {
            return Err(PoapError::MintFailed);
        }
        let ghost pre = *self;
        let event_id = i as u64 + 1;
        let new_token_id = self.token_owners.len() as u64 + 1;
        self.token_owners.push(recipient);
        self.token_event.push(event_id);
        self.event_attendance[i].insert(recipient);
        self.enumerable.append(recipient, new_token_id);
        self.log.push(LogRecord::BadgeMinted { recipient, token_id: new_token_id, event_id });
        proof {
            let n = pre.token_owners@.len();
            assert forall|j: int| 0 <= j < self.events@.len() implies #[trigger] self.event_attendance@[j].wf() by {
                if j != i {
                    assert(self.event_attendance@[j] == pre.event_attendance@[j]);
                }
            }
            assert forall|e2: int| e2 != event_id implies #[trigger] self.attendees(e2) == pre.attendees(e2) by {
                if 1 <= e2 <= self.events@.len() {
                    assert(self.event_attendance@[e2 - 1] == pre.event_attendance@[e2 - 1]);
                }
            }
            assert forall|j: int| 0 <= j < self.token_owners@.len() implies {
                &&& !(#[trigger] self.token_owners@[j]).is_null()
                &&& 1 <= self.token_event@[j] <= self.events@.len()
                &&& self.enumerable.tokens_of(self.token_owners@[j]).contains((j + 1) as u64)
                &&& self.attendees(self.token_event@[j] as int).contains(self.token_owners@[j])
            } by {
                if j < n {
                    let a = pre.token_owners@[j];
                    assert(self.token_owners@[j] == a);
                    assert(self.token_event@[j] == pre.token_event@[j]);
                    assert(pre.enumerable.tokens_of(a).contains((j + 1) as u64));
                    let k = choose|k: int| 0 <= k < pre.enumerable.tokens_of(a).len()
                        && pre.enumerable.tokens_of(a)[k] == (j + 1) as u64;
                    if a == recipient {
                        assert(self.enumerable.tokens_of(a)[k] == (j + 1) as u64);
                    } else {
                        assert(self.enumerable.tokens_of(a) == pre.enumerable.tokens_of(a));
                    }
                    assert(pre.attendees(pre.token_event@[j] as int).contains(a));
                } else {
                    assert(self.enumerable.tokens_of(recipient).last() == new_token_id);
                }
            }
            assert forall|a: Address, k: int|
                0 <= k < self.enumerable.tokens_of(a).len() implies self.token_owners@[#[trigger] self.enumerable.tokens_of(a)[k] - 1] == a by {
                if a == recipient && k == pre.enumerable.tokens_of(a).len() {
                } else {
                    assert(self.enumerable.tokens_of(a)[k] == pre.enumerable.tokens_of(a)[k]);
                    pre.enumerable.lemma_listed_in_range(a, k);
                }
            }
            assert forall|j1: int, j2: int|
                0 <= j1 < self.token_owners@.len() && 0 <= j2 < self.token_owners@.len() && j1 != j2
                    && #[trigger] self.token_owners@[j1] == #[trigger] self.token_owners@[j2]
                implies self.token_event@[j1] != self.token_event@[j2] by {
                if j1 == n {
                    assert(pre.attendees(pre.token_event@[j2] as int).contains(pre.token_owners@[j2]));
                } else if j2 == n {
                    assert(pre.attendees(pre.token_event@[j1] as int).contains(pre.token_owners@[j1]));
                } else {
                    assert(pre.token_owners@[j1] == pre.token_owners@[j2]);
                }
            }
            assert forall|a: Address, j1: int, j2: int|
                0 <= j1 < j2 < self.enumerable.tokens_of(a).len() implies #[trigger] self.enumerable.tokens_of(a)[j1]
                    < #[trigger] self.enumerable.tokens_of(a)[j2] by {
                if a == recipient && j2 == pre.enumerable.tokens_of(a).len() {
                    assert(self.enumerable.tokens_of(a)[j1] == pre.enumerable.tokens_of(a)[j1]);
                    pre.enumerable.lemma_listed_in_range(a, j1);
                } else {
                    assert(self.enumerable.tokens_of(a)[j1] == pre.enumerable.tokens_of(a)[j1]);
                    assert(self.enumerable.tokens_of(a)[j2] == pre.enumerable.tokens_of(a)[j2]);
                }
            }
            assert forall|e: int, a: Address| #[trigger] self.attendees(e).contains(a) implies exists|j: int|
                0 <= j < self.token_owners@.len() && self.token_owners@[j] == a && self.token_event@[j] == e by {
                if e == event_id && a == recipient {
                    assert(self.token_owners@[n as int] == a && self.token_event@[n as int] == e);
                } else {
                    assert(pre.attendees(e).contains(a));
                    let j = choose|j: int|
                        0 <= j < pre.token_owners@.len() && pre.token_owners@[j] == a && pre.token_event@[j] == e;
                    assert(self.token_owners@[j] == a && self.token_event@[j] == e);
                }
            }
        }
        Ok(new_token_id)
    }

    /// Issues the next badge of event `event_id` to `to`. Refused, with
    /// nothing changed, for the first reason of `issue_refusal` that holds.
    pub fn mint_token(&mut self, caller: Address, event_id: u64, to: Address) -> (r: Result<u64, PoapError>)
        requires
            old(self).wf(),
            old(self).holders().len() + 2 < u64::MAX,
        ensures
            final(self).wf(),
            match old(self).issue_refusal(caller, event_id, to) {
                Some(err) => r == Err::<u64, PoapError>(err) && *final(self) == *old(self),
                None => r == Ok::<u64, PoapError>((old(self).holders().len() + 1) as u64)
                    && old(self).issues_one(&*final(self), event_id, to),
            },
    {
        self.ensure_not_paused()?;
        let i = self.ensure_event_active(event_id)?;
        self.ensure_mint_permissions(caller, i)?;
        self.ensure_recipient_not_attending(i, to)?;
        self.mint_badge_internal(i, to)
    }

    /// `post` is `self` with one badge of event `e` for each of `acc`, in
    /// order, under the next ids; nothing else differs.
    pub open spec fn issues_many(&self, post: &Poap, e: u64, acc: Seq<Address>) -> bool {
        let n = self.holders().len();
        &&& post.holders() == self.holders() + acc
        &&& post.token_events() == self.token_events() + Seq::new(acc.len(), |j: int| e)
        &&& post.all_tokens() == self.all_tokens() + Seq::new(acc.len(), |j: int| (n + 1 + j) as u64)
        &&& forall|j: int|
            0 <= j < acc.len() ==> #[trigger] post.tokens_of(acc[j]) == self.tokens_of(acc[j]).push(
                (n + 1 + j) as u64,
            )
        &&& forall|b: Address| !acc.contains(b) ==> #[trigger] post.tokens_of(b) == self.tokens_of(b)
        &&& forall|b: Address|
            #[trigger] post.attendees(e as int).contains(b) == (self.attendees(e as int).contains(b)
                || acc.contains(b))
        &&& forall|e2: int| e2 != e ==> #[trigger] post.attendees(e2) == self.attendees(e2)
        &&& post.log_records() == self.log_records() + Seq::new(
            acc.len(),
            |j: int| LogRecord::BadgeMinted { recipient: acc[j], token_id: (n + 1 + j) as u64, event_id: e },
        )
        &&& post.same_settings(self)
        &&& post.events_spec() == self.events_spec()
        &&& forall|e2: int| #[trigger] post.minters(e2) == self.minters(e2)
    }

    /// Issues badges of event `event_id` to each of `recipients` in turn.
    /// A recipient who already attended, or whom the ledger refuses, is
    /// skipped without an error; the result lists the ids issued, in order.
    /// The batch as a whole is refused, with nothing changed, for the first
    /// reason of `batch_refusal` that holds.
    pub fn batch_mint_event_to_many(
        &mut self,
        caller: Address,
        event_id: u64,
        recipients: Vec<Address>,
    ) -> (r: Result<Vec<u64>, PoapError>)
        requires
            old(self).wf(),
            old(self).holders().len() + recipients@.len() + 2 < u64::MAX,
        ensures
            final(self).wf(),
            match old(self).batch_refusal(caller, event_id) {
                Some(err) => r == Err::<Vec<u64>, PoapError>(err) && *final(self) == *old(self),
                None => {
                    let acc = accepted(old(self).attendees(event_id as int), recipients@);
                    &&& r is Ok
                    &&& r->Ok_0@ == Seq::new(acc.len(), |j: int| (old(self).holders().len() + 1 + j) as u64)
                    &&& old(self).issues_many(&*final(self), event_id, acc)
                },
            },
    {
        self.ensure_not_paused()?;
        let i = self.ensure_event_active(event_id)?;
        self.ensure_mint_permissions(caller, i)?;
        let ghost pre = *self;
        let ghost rs = recipients@;
        let ghost n = pre.holders().len();
        let ghost mut acc: Seq<Address> = Seq::empty();
        let mut token_ids: Vec<u64> = Vec::new();
        let mut k: usize = 0;
        proof {
            assert(rs.skip(0) =~= rs);
            assert(pre.all_tokens() + Seq::new(0, |j: int| (n + 1 + j) as u64) =~= pre.all_tokens());
            assert(pre.holders() + acc =~= pre.holders());
            assert(pre.token_events() + Seq::new(0, |j: int| event_id) =~= pre.token_events());
            assert(pre.log_records() + Seq::new(
                0,
                |j: int| LogRecord::BadgeMinted { recipient: acc[j], token_id: (n + 1 + j) as u64, event_id },
            ) =~= pre.log_records());
        }
        while k < recipients.len()
            invariant
                pre.wf(),
                i == event_id - 1,
                i < pre.events_spec().len(),
                rs == recipients@,
                n == pre.holders().len(),
                n + rs.len() + 2 < u64::MAX,
                k <= rs.len(),
                acc.len() <= k,
                self.wf(),
                acc + accepted(self.attendees(event_id as int), rs.skip(k as int)) == accepted(
                    pre.attendees(event_id as int),
                    rs,
                ),
                token_ids@ == Seq::new(acc.len(), |j: int| (n + 1 + j) as u64),
                pre.issues_many(&*self, event_id, acc),
                forall|b: Address| #[trigger] acc.contains(b) ==> self.attendees(event_id as int).contains(b),
            decreases rs.len() - k,
        {
            let recipient = recipients[k];
            let ghost before = *self;
            proof {
                assert(rs.skip(k as int)[0] == recipient);
                assert(rs.skip(k as int).drop_first() =~= rs.skip(k + 1));
            }
            if self.ensure_recipient_not_attending(i, recipient).is_ok() {
                match self.mint_badge_internal(i, recipient) {
                    Ok(new_token_id) => {
                        token_ids.push(new_token_id);
                        proof {
                            let acc2 = acc.push(recipient);
                            let m = acc.len();
                            assert(!acc.contains(recipient));
                            assert(acc2 + accepted(self.attendees(event_id as int), rs.skip(k + 1))
                                =~= acc + accepted(before.attendees(event_id as int), rs.skip(k as int)));
                            assert(token_ids@ =~= Seq::new(acc2.len(), |j: int| (n + 1 + j) as u64));
                            assert(self.holders() =~= pre.holders() + acc2);
                            assert(self.token_events() =~= pre.token_events() + Seq::new(acc2.len(), |j: int| event_id));
                            assert(self.all_tokens() =~= pre.all_tokens() + Seq::new(acc2.len(), |j: int| (n + 1 + j) as u64));
                            assert(self.log_records() =~= pre.log_records() + Seq::new(
                                acc2.len(),
                                |j: int| LogRecord::BadgeMinted { recipient: acc2[j], token_id: (n + 1 + j) as u64, event_id },
                            ));
                            assert forall|j: int| 0 <= j < acc2.len() implies #[trigger] self.tokens_of(acc2[j])
                                == pre.tokens_of(acc2[j]).push((n + 1 + j) as u64) by {
                                if j < m {
                                    assert(acc2[j] == acc[j]);
                                    assert(acc[j] != recipient);
                                }
                            }
                            assert forall|b: Address| !acc2.contains(b) implies #[trigger] self.tokens_of(b)
                                == pre.tokens_of(b) by {
                                assert(acc2[m as int] == recipient);
                                if acc.contains(b) {
                                    let j = choose|j: int| 0 <= j < acc.len() && acc[j] == b;
                                    assert(acc2[j] == b);
                                }
                            }
                            assert forall|b: Address| #[trigger] acc2.contains(b) == (acc.contains(b) || b == recipient) by {
                                assert(acc2[m as int] == recipient);
                                if acc.contains(b) {
                                    let j = choose|j: int| 0 <= j < acc.len() && acc[j] == b;
                                    assert(acc2[j] == b);
                                }
                                if acc2.contains(b) && b != recipient {
                                    let j = choose|j: int| 0 <= j < acc2.len() && acc2[j] == b;
                                    assert(acc[j] == b);
                                }
                            }
                            acc = acc2;
                        }
                    },
                    Err(_) => {
                        proof {
                            assert(accepted(self.attendees(event_id as int), rs.skip(k as int))
                                == accepted(self.attendees(event_id as int), rs.skip(k + 1)));
                        }
                    },
                }
            } else {
                proof {
                    assert(accepted(self.attendees(event_id as int), rs.skip(k as int))
                        == accepted(self.attendees(event_id as int), rs.skip(k + 1)));
                }
            }
            k = k + 1;
        }
        proof {
            assert(rs.skip(k as int) =~= Seq::<Address>::empty());
            assert(acc + accepted(self.attendees(event_id as int), rs.skip(k as int)) =~= acc);
        }
        Ok(token_ids)
    }

    // ---- badge queries ----

    /// `<base>/<event id>/<token id>` for an issued badge.
    pub fn token_uri(&self, token_id: u64) -> (r: Result<String, PoapError>)
        requires
            self.wf(),
        ensures
            self.token_exists(token_id as int) ==> r is Ok && r->Ok_0@ == token_uri_of(
                self.base_uri_spec(),
                self.token_events()[token_id - 1] as nat,
                token_id as nat,
            ),
            !self.token_exists(token_id as int) ==> r == Err::<String, PoapError>(
                PoapError::NonexistentToken { token_id },
            ),
    {
        self.owner_of(token_id)?;
        let event_id = self.token_event(token_id);
        Ok(build_token_uri(&self.base_uri, event_id, token_id))
    }

    /// The event of a badge; 0 for an id never issued.
    pub fn token_event(&self, token_id: u64) -> (r: u64)
        requires
            self.wf(),
        ensures
            self.token_exists(token_id as int) ==> r == self.token_events()[token_id - 1]
                && 1 <= r <= self.events_spec().len(),
            !self.token_exists(token_id as int) ==> r == 0,
    {
        proof {
            self.lemma_badge_events();
        }
        if token_id >= 1 && token_id <= self.token_event.len() as u64 {
            self.token_event[(token_id - 1) as usize]
        } else {
            0
        }
    }

    /// The holder of an issued badge.
    pub fn owner_of(&self, token_id: u64) -> (r: Result<Address, PoapError>)
        ensures
            self.token_exists(token_id as int) ==> r == Ok::<Address, PoapError>(
                self.holders()[token_id - 1],
            ),
            !self.token_exists(token_id as int) ==> r == Err::<Address, PoapError>(
                PoapError::NonexistentToken { token_id },
            ),
    {
        if token_id >= 1 && token_id <= self.token_owners.len() as u64 {
            Ok(self.token_owners[(token_id - 1) as usize])
        } else {
            Err(PoapError::NonexistentToken { token_id })
        }
    }

    /// The number of badges held by `owner`.
    pub fn balance_of(&self, owner: Address) -> (r: u64)
        requires
            self.wf(),
        ensures
            r == self.tokens_of(owner).len(),
    {
        self.enumerable.balance_of(owner)
    }

    /// The number of badges issued so far.
    pub fn total_supply(&self) -> (r: u64)
        requires
            self.wf(),
        ensures
            r == self.all_tokens().len(),
            r == self.holders().len(),
    {
        self.enumerable.total_supply()
    }

    /// The id of the latest badge; 0 before the first.
    pub fn get_last_token_id(&self) -> (r: u64)
        requires
            self.wf(),
        ensures
            r == self.holders().len(),
    {
        self.token_owners.len() as u64
    }

    pub fn token_by_index(&self, index: u64) -> (r: Result<u64, PoapError>)
        requires
            self.wf(),
        ensures
            index < self.all_tokens().len() ==> r == Ok::<u64, PoapError>(self.all_tokens()[index as int]),
            index >= self.all_tokens().len() ==> r == Err::<u64, PoapError>(
                PoapError::OutOfBoundsIndex { owner: Address { high: 0, low: 0 }, index },
            ),
    {
        self.enumerable.token_by_index(index)
    }

    pub fn token_of_owner_by_index(&self, owner: Address, index: u64) -> (r: Result<u64, PoapError>)
        requires
            self.wf(),
        ensures
            index < self.tokens_of(owner).len() ==> r == Ok::<u64, PoapError>(
                self.tokens_of(owner)[index as int],
            ),
            index >= self.tokens_of(owner).len() ==> r == Err::<u64, PoapError>(
                PoapError::OutOfBoundsIndex { owner, index },
            ),
    {
        self.enumerable.token_of_owner_by_index(owner, index)
    }

    pub fn name(&self) -> (r: String)
        ensures
            r@ == self.name_spec(),
    {
        self.name.clone()
    }

    pub fn symbol(&self) -> (r: String)
        ensures
            r@ == self.symbol_spec(),
    {
        self.symbol.clone()
    }

    /// The records logged so far, oldest first.
    pub fn logs(&self) -> (r: &Vec<LogRecord>)
        ensures
            r@ == self.log_records(),
    {
        &self.log
    }

    /// Whether the registry implements the interface with this ERC-165 id:
    /// ERC-165 itself, ERC-721, its metadata and its enumeration extensions.
    pub fn supports_interface(&self, interface_id: u32) -> (r: bool)
        ensures
            r == (interface_id == INTERFACE_ERC165 || interface_id == INTERFACE_ERC721
                || interface_id == INTERFACE_ERC721_METADATA || interface_id
                == INTERFACE_ERC721_ENUMERABLE),
    {
        interface_id == INTERFACE_ERC165 || interface_id == INTERFACE_ERC721 || interface_id
            == INTERFACE_ERC721_METADATA || interface_id == INTERFACE_ERC721_ENUMERABLE
    }

    // ---- laws ----

    /// Badge ids run from 1 without gaps: the global enumeration lists badge
    /// `t` at position `t - 1`, and its length is the number of badges issued.
    pub proof fn lemma_token_ids_sequential(&self)
        requires
            self.wf(),
        ensures
            self.all_tokens().len() == self.holders().len(),
            forall|i: int| 0 <= i < self.all_tokens().len() ==> #[trigger] self.all_tokens()[i] == i + 1,
    {
        self.enumerable.lemma_all_is_range();
    }

    /// No address holds two badges of one event.
    pub proof fn lemma_one_badge_per_attendee(&self, t1: int, t2: int)
        requires
            self.wf(),
            self.token_exists(t1),
            self.token_exists(t2),
            t1 != t2,
            self.holders()[t1 - 1] == self.holders()[t2 - 1],
        ensures
            self.token_events()[t1 - 1] != self.token_events()[t2 - 1],
    {
    }

    /// Every holder of a badge of event `e` counts as having attended `e`.
    pub proof fn lemma_holder_attended(&self, t: int)
        requires
            self.wf(),
            self.token_exists(t),
        ensures
            self.attendees(self.token_events()[t - 1] as int).contains(self.holders()[t - 1]),
    {
        assert(self.token_owners@[t - 1] == self.holders()[t - 1]);
    }

    /// Once `a` attended event `e`, an issuance of `e` to `a` is refused and
    /// no batch of `e` issues to `a`, whatever its recipients.
    pub proof fn lemma_attended_not_reissued(&self, caller: Address, e: u64, a: Address, rs: Seq<Address>)
        requires
            self.attendees(e as int).contains(a),
        ensures
            self.issue_refusal(caller, e, a) is Some,
            !accepted(self.attendees(e as int), rs).contains(a),
    {
        lemma_accepted_skips_seen(self.attendees(e as int), rs, a);
    }

    /// Issuing, one badge or a batch, never takes attendance away.
    pub proof fn lemma_issuance_keeps_attendance(
        &self,
        post: &Poap,
        e: u64,
        acc: Seq<Address>,
        e2: int,
        a: Address,
    )
        requires
            (acc.len() == 1 && self.issues_one(post, e, acc[0])) || self.issues_many(post, e, acc),
            self.attendees(e2).contains(a),
        ensures
            post.attendees(e2).contains(a),
    {
    }

    /// Each issued badge is listed exactly once in the enumeration of its
    /// holder, in no other holder's, and exactly once in the global one.
    pub proof fn lemma_enumeration_consistent(&self, t: int)
        requires
            self.wf(),
            self.token_exists(t),
        ensures
            self.tokens_of(self.holders()[t - 1]).contains(t as u64),
            forall|i: int, j: int|
                0 <= i < self.tokens_of(self.holders()[t - 1]).len() && 0 <= j < self.tokens_of(
                    self.holders()[t - 1],
                ).len() && #[trigger] self.tokens_of(self.holders()[t - 1])[i] == t
                    && #[trigger] self.tokens_of(self.holders()[t - 1])[j] == t ==> i == j,
            forall|b: Address| b != self.holders()[t - 1] ==> !(#[trigger] self.tokens_of(b)).contains(t as u64),
            self.all_tokens()[t - 1] == t,
            forall|i: int| 0 <= i < self.all_tokens().len() && #[trigger] self.all_tokens()[i] == t ==> i == t - 1,
    {
        let o = self.token_owners@[t - 1];
        assert(self.enumerable.tokens_of(o).contains(t as u64));
        self.enumerable.lemma_all_is_range();
        assert forall|i: int, j: int|
            0 <= i < self.tokens_of(o).len() && 0 <= j < self.tokens_of(o).len()
                && #[trigger] self.tokens_of(o)[i] == t && #[trigger] self.tokens_of(o)[j] == t
            implies i == j by {
            self.enumerable.lemma_listed_once(o, o, i, j);
        }
        assert forall|b: Address| b != o implies !(#[trigger] self.tokens_of(b)).contains(t as u64) by {
            if self.tokens_of(b).contains(t as u64) {
                let i = choose|i: int| 0 <= i < self.tokens_of(b).len() && self.tokens_of(b)[i] == t as u64;
                let j = choose|j: int| 0 <= j < self.tokens_of(o).len() && self.tokens_of(o)[j] == t as u64;
                self.enumerable.lemma_listed_once(b, o, i, j);
            }
        }
    }

    /// Each issued badge has exactly one event, an existing one.
    pub proof fn lemma_badge_events(&self)
        requires
            self.wf(),
        ensures
            self.token_events().len() == self.holders().len(),
            forall|i: int|
                0 <= i < self.token_events().len() ==> 1 <= #[trigger] self.token_events()[i]
                    <= self.events_spec().len(),
    {
        assert forall|i: int| 0 <= i < self.token_events().len() implies 1 <= #[trigger] self.token_events()[i]
            <= self.events_spec().len() by {
            assert(!self.token_owners@[i].is_null());
        }
    }

    /// The enumeration of `a` lists, in issuance order, exactly the badges
    /// that `a` holds; so its length, the balance of `a`, is their number.
    pub proof fn lemma_owner_list(&self, a: Address)
        requires
            self.wf(),
        ensures
            forall|i: int|
                0 <= i < self.tokens_of(a).len() ==> self.token_exists(#[trigger] self.tokens_of(a)[i] as int)
                    && self.holders()[self.tokens_of(a)[i] - 1] == a,
            forall|i: int, j: int|
                0 <= i < j < self.tokens_of(a).len() ==> #[trigger] self.tokens_of(a)[i] < #[trigger] self.tokens_of(a)[j],
            self.tokens_of(a).to_set() == Set::new(
                |t: u64| self.token_exists(t as int) && self.holders()[t - 1] == a,
            ),
            self.tokens_of(a).len() == Set::new(
                |t: u64| self.token_exists(t as int) && self.holders()[t - 1] == a,
            ).len(),
    {
        let l = self.tokens_of(a);
        let held = Set::new(|t: u64| self.token_exists(t as int) && self.holders()[t - 1] == a);
        assert forall|i: int| 0 <= i < l.len() implies self.token_exists(#[trigger] l[i] as int)
            && self.holders()[l[i] - 1] == a by {
            self.enumerable.lemma_listed_in_range(a, i);
        }
        assert forall|t: u64| #[trigger] l.to_set().contains(t) == held.contains(t) by {
            if held.contains(t) {
                assert(self.enumerable.tokens_of(self.token_owners@[t - 1]).contains(((t - 1) + 1) as u64));
            }
            if l.to_set().contains(t) {
                let i = choose|i: int| 0 <= i < l.len() && l[i] == t;
                assert(self.token_exists(l[i] as int));
            }
        }
        assert(l.to_set() =~= held);
        assert forall|i: int, j: int| 0 <= i < j < l.len() implies l[i] != l[j] by {
            assert(l[i] < l[j]);
        }
        l.unique_seq_to_set();
    }

    /// `a` attended event `e` exactly when `a` holds a badge of `e`.
    pub proof fn lemma_attended_iff_holder(&self, e: int, a: Address)
        requires
            self.wf(),
        ensures
            self.attendees(e).contains(a) <==> exists|i: int|
                0 <= i < self.holders().len() && #[trigger] self.holders()[i] == a && self.token_events()[i] == e,
    {
        if exists|i: int| 0 <= i < self.holders().len() && #[trigger] self.holders()[i] == a && self.token_events()[i] == e {
            let i = choose|i: int| 0 <= i < self.holders().len() && #[trigger] self.holders()[i] == a && self.token_events()[i] == e;
            assert(self.attendees(self.token_event@[i] as int).contains(self.token_owners@[i]));
        }
        if self.attendees(e).contains(a) {
            let i = choose|i: int| 0 <= i < self.token_owners@.len() && self.token_owners@[i] == a && self.token_event@[i] == e;
            assert(self.holders()[i] == a);
        }
    }

    /// The balance of `a` is the number of events that `a` attended: one
    /// badge per attended event.
    pub proof fn lemma_balance_counts_attended_events(&self, a: Address)
        requires
            self.wf(),
        ensures
            self.tokens_of(a).len() == Set::new(|e: int| self.attendees(e).contains(a)).len(),
    {
        let l = self.tokens_of(a);
        let evs = l.map_values(|t: u64| self.token_events()[t - 1] as int);
        let attended = Set::new(|e: int| self.attendees(e).contains(a));
        self.lemma_owner_list(a);
        assert forall|i: int, j: int| 0 <= i < evs.len() && 0 <= j < evs.len() && i != j implies evs[i] != evs[j] by {
            if i < j {
                assert(l[i] < l[j]);
            } else {
                assert(l[j] < l[i]);
            }
            let ti = l[i] - 1;
            let tj = l[j] - 1;
            assert(self.token_owners@[ti] == a);
            assert(self.token_owners@[tj] == a);
            assert(self.token_owners@[ti] == self.token_owners@[tj]);
        }
        assert forall|e: int| #[trigger] evs.to_set().contains(e) == attended.contains(e) by {
            if evs.to_set().contains(e) {
                let i = choose|i: int| 0 <= i < evs.len() && evs[i] == e;
                let t = l[i] - 1;
                assert(self.attendees(self.token_event@[t] as int).contains(self.token_owners@[t]));
            }
            if attended.contains(e) {
                self.lemma_attended_iff_holder(e, a);
                let t = choose|t: int| 0 <= t < self.holders().len() && #[trigger] self.holders()[t] == a && self.token_events()[t] == e;
                assert(self.enumerable.tokens_of(self.token_owners@[t]).contains((t + 1) as u64));
                self.enumerable.lemma_all_is_range();
                assert((t + 1) as u64 == t + 1);
                let i = choose|i: int| 0 <= i < l.len() && l[i] == (t + 1) as u64;
                assert(l[i] - 1 == t);
                assert(evs[i] == e);
            }
        }
        assert(evs.to_set() =~= attended);
        evs.unique_seq_to_set();
    }
}

} // verus!
