//! The registry's data types and their ghost views.

use vstd::prelude::*;

verus! {

/// The kind of a resource record.
#[derive(Clone, Copy, PartialEq, Eq, Structural, Debug)]
pub enum Type {
    A,
    AAAA,
    MX,
    CNAME,
    IPFS,
}

impl Default for Type {
    fn default() -> (r: Self)
        ensures
            r == Type::A,
    {
        Type::A
    }
}

/// A resource record attached to a subdomain. `ttl` is advisory only.
#[derive(Clone, PartialEq, Eq, Debug)]
pub struct Record {
    pub rr_type: Type,
    pub ip: Vec<u8>,
    pub ttl: u32,
}

/// The ghost image of a `Record`.
pub struct RecordView {
    pub rr_type: Type,
    pub ip: Seq<u8>,
    pub ttl: u32,
}

impl DeepView for Record {
    type V = RecordView;

    open spec fn deep_view(&self) -> RecordView {
        RecordView { rr_type: self.rr_type, ip: self.ip@, ttl: self.ttl }
    }
}

/// A registered top-level domain: its owner and its lease window.
#[derive(Clone, Copy, PartialEq, Eq, Structural, Debug)]
pub struct DomainInfo {
    pub owner: u64,
    pub lease_start: u128,
    pub lease_duration: u128,
}

impl DeepView for DomainInfo {
    type V = DomainInfo;

    open spec fn deep_view(&self) -> DomainInfo {
        *self
    }
}

/// The errors an operation can abort with. Any error leaves the operation's
/// own writes uncommitted.
#[derive(Clone, Copy, PartialEq, Eq, Structural, Debug)]
pub enum Error {
    DomainAlreadyExist,
    NoDomain,
    NotDomainOwner,
    ErrorData,
    ErrorBalance,
}

/// Who asked for an operation: a signed account, or the system itself when a
/// lapsed lease is reclaimed from inside the lease check.
#[derive(Clone, Copy, PartialEq, Eq, Structural, Debug)]
pub enum Auth {
    User(u64),
    System,
}

/// A lifecycle event, appended to the pallet's event log.
#[derive(Clone, PartialEq, Eq, Debug)]
pub enum Event {
    SomethingStored(u32, u64),
    Register(Vec<u8>, u64),
    Withdraw(Vec<u8>),
    ExistDomain(Vec<u8>),
    NoDomain(Vec<u8>),
}

/// The ghost image of an `Event`.
pub enum EventView {
    SomethingStored(u32, u64),
    Register(Seq<u8>, u64),
    Withdraw(Seq<u8>),
    ExistDomain(Seq<u8>),
    NoDomain(Seq<u8>),
}

impl DeepView for Event {
    type V = EventView;

    open spec fn deep_view(&self) -> EventView {
        match self {
            Event::SomethingStored(x, who) => EventView::SomethingStored(*x, *who),
            Event::Register(d, who) => EventView::Register(d@, *who),
            Event::Withdraw(d) => EventView::Withdraw(d@),
            Event::ExistDomain(d) => EventView::ExistDomain(d@),
            Event::NoDomain(d) => EventView::NoDomain(d@),
        }
    }
}

} // verus!
