//! The registry's mathematical model.
//!
//! A `StateView` is the ghost image of the whole pallet: the four storage
//! tables, the admin account and the event log. Every public operation is
//! specified as a total function from a `StateView` and plain arguments to the
//! next `StateView` and a result; the executable code is proved to compute
//! exactly these functions. The cross-table invariant — the account index
//! mirrors the registry — is stated here and proved preserved by every
//! transition.

use vstd::prelude::*;

use crate::name::{buf_len, buf_ok, canon, top_len, top_of};
use crate::price::{spec_cost, MAX_DURATION, MIN_DURATION, MIN_LEN};
use crate::types::{Auth, DomainInfo, Error, EventView, RecordView, Type};

verus! {

/// The ghost image of the whole pallet.
#[verifier::ext_equal]
pub struct StateView {
    pub domains: Map<Seq<u8>, DomainInfo>,
    pub accounts: Map<u64, Seq<Seq<u8>>>,
    pub subdomains: Map<Seq<u8>, Seq<Seq<u8>>>,
    pub records: Map<Seq<u8>, Seq<RecordView>>,
    pub admin: u64,
    pub events: Seq<EventView>,
}

/// The state at genesis: empty tables, the configured admin, no events.
pub open spec fn init_state(admin: u64) -> StateView {
    StateView {
        domains: Map::empty(),
        accounts: Map::empty(),
        subdomains: Map::empty(),
        records: Map::empty(),
        admin,
        events: Seq::empty(),
    }
}

/// `l` with every occurrence of `x` removed, order kept.
pub open spec fn remove_name(l: Seq<Seq<u8>>, x: Seq<u8>) -> Seq<Seq<u8>>
    decreases l.len(),
{
    if l.len() == 0 {
        Seq::empty()
    } else if l.last() == x {
        remove_name(l.drop_last(), x)
    } else {
        remove_name(l.drop_last(), x).push(l.last())
    }
}

/// `l` with every record matching `(t, ip)` removed, order kept.
pub open spec fn strip_records(l: Seq<RecordView>, t: Type, ip: Seq<u8>) -> Seq<RecordView>
    decreases l.len(),
{
    if l.len() == 0 {
        Seq::empty()
    } else if l.last().rr_type == t && l.last().ip == ip {
        strip_records(l.drop_last(), t, ip)
    } else {
        strip_records(l.drop_last(), t, ip).push(l.last())
    }
}

/// `m` with the entry of every listed subdomain removed.
pub open spec fn purge_records(m: Map<Seq<u8>, Seq<RecordView>>, subs: Seq<Seq<u8>>) -> Map<
    Seq<u8>,
    Seq<RecordView>,
>
    decreases subs.len(),
{
    if subs.len() == 0 {
        m
    } else {
        purge_records(m, subs.drop_last()).remove(subs.last())
    }
}

/// The account's list of owned names, empty when it has no entry.
pub open spec fn acct_list(s: StateView, a: u64) -> Seq<Seq<u8>> {
    if s.accounts.contains_key(a) {
        s.accounts[a]
    } else {
        Seq::empty()
    }
}

/// The top domain's list of subdomains, empty when it has no entry.
pub open spec fn sub_list(s: StateView, top: Seq<u8>) -> Seq<Seq<u8>> {
    if s.subdomains.contains_key(top) {
        s.subdomains[top]
    } else {
        Seq::empty()
    }
}

/// The subdomain's list of records, empty when it has no entry.
pub open spec fn rec_list(s: StateView, name: Seq<u8>) -> Seq<RecordView> {
    if s.records.contains_key(name) {
        s.records[name]
    } else {
        Seq::empty()
    }
}

/// Withdrawal is open to the domain's owner, the admin, and the system.
pub open spec fn authorized(auth: Auth, owner: u64, admin: u64) -> bool {
    auth == Auth::System || auth == Auth::User(owner) || auth == Auth::User(admin)
}

/// The registered domain's lease has elapsed at `now`.
pub open spec fn expired(s: StateView, top: Seq<u8>, now: u128) -> bool {
    s.domains[top].lease_start + s.domains[top].lease_duration <= now
}

pub open spec fn push_event(s: StateView, e: EventView) -> StateView {
    StateView { events: s.events.push(e), ..s }
}

/// Full reclaim of a registered top domain: its registry entry goes, it
/// leaves its owner's account list (the list itself going when it empties),
/// its subdomain list goes, and so does the record store of every listed
/// subdomain. A withdrawal event is logged.
pub open spec fn reclaim_from(s: StateView, top: Seq<u8>) -> StateView {
    let owner = s.domains[top].owner;
    let rest = remove_name(acct_list(s, owner), top);
    StateView {
        domains: s.domains.remove(top),
        accounts: if rest.len() == 0 {
            s.accounts.remove(owner)
        } else {
            s.accounts.insert(owner, rest)
        },
        subdomains: s.subdomains.remove(top),
        records: if s.subdomains.contains_key(top) {
            purge_records(s.records, s.subdomains[top])
        } else {
            s.records
        },
        admin: s.admin,
        events: s.events.push(EventView::Withdraw(top)),
    }
}

/// The lazy lease check on a normalized name: looks its top-level suffix up;
/// an elapsed lease is reclaimed on the spot, otherwise only an event is
/// logged.
pub open spec fn spec_lease(s: StateView, name: Seq<u8>, now: u128) -> StateView {
    let top = top_of(name);
    if s.domains.contains_key(top) {
        if expired(s, top, now) {
            reclaim_from(s, top)
        } else {
            push_event(s, EventView::ExistDomain(name))
        }
    } else {
        push_event(s, EventView::NoDomain(name))
    }
}

/// Registration: duration bounds, strict normalization and minimum length,
/// the lease check (which may reclaim a lapsed same-named domain), a
/// fresh-name check, a balance check, then the atomic insert into the
/// registry and the caller's account list.
pub open spec fn spec_register(
    s: StateView,
    who: u64,
    buf: Seq<u8>,
    duration: u128,
    now: u128,
    balance: u128,
) -> (StateView, Result<(), Error>) {
    if duration < MIN_DURATION || duration > MAX_DURATION {
        (s, Err(Error::ErrorData))
    } else if !buf_ok(buf, false) {
        (s, Err(Error::ErrorData))
    } else if buf_len(buf) < MIN_LEN as int {
        (s, Err(Error::ErrorData))
    } else {
        let name = canon(buf);
        let s1 = spec_lease(s, name, now);
        if s1.domains.contains_key(name) {
            (s1, Err(Error::DomainAlreadyExist))
        } else if (balance as int) < spec_cost(buf_len(buf), duration as int) {
            (s1, Err(Error::ErrorBalance))
        } else {
            let info = DomainInfo { owner: who, lease_start: now, lease_duration: duration };
            let s2 = StateView {
                domains: s1.domains.insert(name, info),
                accounts: s1.accounts.insert(who, acct_list(s1, who).push(name)),
                events: s1.events.push(EventView::Register(name, who)),
                ..s1
            };
            (s2, Ok(()))
        }
    }
}

/// Adding a subdomain: permissive normalization, the lease check on the
/// top-level suffix, existence and ownership of the top domain, then an
/// append to its subdomain list (duplicates are kept).
pub open spec fn spec_add_subdomain(s: StateView, who: u64, buf: Seq<u8>, now: u128) -> (
    StateView,
    Result<(), Error>,
) {
    if !buf_ok(buf, true) || buf_len(buf) == 0 {
        (s, Err(Error::ErrorData))
    } else {
        let name = canon(buf);
        if top_len(name) == 0 {
            (s, Err(Error::ErrorData))
        } else {
            let top = top_of(name);
            let s1 = spec_lease(s, top, now);
            if !s1.domains.contains_key(top) {
                (s1, Err(Error::NoDomain))
            } else if s1.domains[top].owner != who {
                (s1, Err(Error::NotDomainOwner))
            } else {
                let s2 = StateView {
                    subdomains: s1.subdomains.insert(top, sub_list(s1, top).push(name)),
                    ..s1
                };
                (s2, Ok(()))
            }
        }
    }
}

/// Deleting a subdomain: ownership of the top domain, an existing subdomain
/// list, then every occurrence of the name leaves the list and its record
/// store is purged unconditionally. No lease check runs.
pub open spec fn spec_delete_subdomain(s: StateView, who: u64, buf: Seq<u8>) -> (
    StateView,
    Result<(), Error>,
) {
    if !buf_ok(buf, true) || buf_len(buf) == 0 {
        (s, Err(Error::ErrorData))
    } else {
        let name = canon(buf);
        let top = top_of(name);
        if !s.domains.contains_key(top) {
            (s, Err(Error::NoDomain))
        } else if s.domains[top].owner != who {
            (s, Err(Error::NotDomainOwner))
        } else if !s.subdomains.contains_key(top) {
            (s, Err(Error::NoDomain))
        } else {
            let s2 = StateView {
                subdomains: s.subdomains.insert(top, remove_name(s.subdomains[top], name)),
                records: s.records.remove(name),
                ..s
            };
            (s2, Ok(()))
        }
    }
}

/// Adding a record: ownership of the top domain, the name registered in its
/// subdomain list, the lease check on the name, then an append to the name's
/// record list (duplicates are kept).
pub open spec fn spec_add_record(
    s: StateView,
    who: u64,
    buf: Seq<u8>,
    t: Type,
    ip: Seq<u8>,
    ttl: u32,
    now: u128,
) -> (StateView, Result<(), Error>) {
    if !buf_ok(buf, true) || buf_len(buf) == 0 {
        (s, Err(Error::ErrorData))
    } else {
        let name = canon(buf);
        let top = top_of(name);
        if !s.domains.contains_key(top) {
            (s, Err(Error::NoDomain))
        } else if s.domains[top].owner != who {
            (s, Err(Error::NotDomainOwner))
        } else if !s.subdomains.contains_key(top) {
            (s, Err(Error::NoDomain))
        } else if !s.subdomains[top].contains(name) {
            (s, Err(Error::NoDomain))
        } else {
            let s1 = spec_lease(s, name, now);
            let rec = RecordView { rr_type: t, ip, ttl };
            let s2 = StateView {
                records: s1.records.insert(name, rec_list(s1, name).push(rec)),
                ..s1
            };
            (s2, Ok(()))
        }
    }
}

/// Deleting records: ownership of the top domain, an existing record list,
/// then every record matching `(t, ip)` leaves; an emptied list's entry is
/// removed outright. No lease check runs.
pub open spec fn spec_delete_record(s: StateView, who: u64, buf: Seq<u8>, t: Type, ip: Seq<u8>) -> (
    StateView,
    Result<(), Error>,
) {
    if !buf_ok(buf, true) || buf_len(buf) == 0 {
        (s, Err(Error::ErrorData))
    } else {
        let name = canon(buf);
        let top = top_of(name);
        if !s.domains.contains_key(top) {
            (s, Err(Error::NoDomain))
        } else if s.domains[top].owner != who {
            (s, Err(Error::NotDomainOwner))
        } else if !s.records.contains_key(name) {
            (s, Err(Error::NoDomain))
        } else {
            let rest = strip_records(s.records[name], t, ip);
            let s2 = StateView {
                records: if rest.len() == 0 {
                    s.records.remove(name)
                } else {
                    s.records.insert(name, rest)
                },
                ..s
            };
            (s2, Ok(()))
        }
    }
}

/// Withdrawal: on an absent top domain a silent no-op; otherwise the caller
/// must be the owner, the admin or the system, and the domain is fully
/// reclaimed.
pub open spec fn spec_withdraw(s: StateView, auth: Auth, buf: Seq<u8>) -> (
    StateView,
    Result<(), Error>,
) {
    if !buf_ok(buf, true) || buf_len(buf) == 0 {
        (s, Err(Error::ErrorData))
    } else {
        let name = canon(buf);
        let top = top_of(name);
        if !s.domains.contains_key(top) {
            (s, Ok(()))
        } else if authorized(auth, s.domains[top].owner, s.admin) {
            (reclaim_from(s, top), Ok(()))
        } else {
            (s, Err(Error::ErrorData))
        }
    }
}

/// The public lease check: normalization, then `spec_lease`.
pub open spec fn spec_exist(s: StateView, buf: Seq<u8>, now: u128) -> (
    StateView,
    Result<(), Error>,
) {
    if !buf_ok(buf, true) || buf_len(buf) == 0 {
        (s, Err(Error::ErrorData))
    } else {
        (spec_lease(s, canon(buf), now), Ok(()))
    }
}

/// Transfer: the lease check first (a lapsed domain is reclaimed and the
/// transfer then fails), then existence and ownership, then the name moves
/// between the two account lists and the registry entry is rewritten to the
/// new owner with the lease window untouched.
pub open spec fn spec_transfer(s: StateView, who: u64, buf: Seq<u8>, to: u64, now: u128) -> (
    StateView,
    Result<(), Error>,
) {
    if !buf_ok(buf, true) || buf_len(buf) == 0 {
        (s, Err(Error::ErrorData))
    } else {
        let name = canon(buf);
        let s1 = spec_lease(s, name, now);
        if !s1.domains.contains_key(name) {
            (s1, Err(Error::NoDomain))
        } else if s1.domains[name].owner != who {
            (s1, Err(Error::NotDomainOwner))
        } else {
            let info = s1.domains[name];
            let acc1 = s1.accounts.insert(who, remove_name(acct_list(s1, who), name));
            let to_list = if acc1.contains_key(to) {
                acc1[to]
            } else {
                Seq::empty()
            };
            let moved = DomainInfo {
                owner: to,
                lease_start: info.lease_start,
                lease_duration: info.lease_duration,
            };
            let s2 = StateView {
                domains: s1.domains.insert(name, moved),
                accounts: acc1.insert(to, to_list.push(name)),
                ..s1
            };
            (s2, Ok(()))
        }
    }
}

/// The sample call: logs an event and does nothing else.
pub open spec fn spec_do_something(s: StateView, who: u64, something: u32) -> (
    StateView,
    Result<(), Error>,
) {
    (push_event(s, EventView::SomethingStored(something, who)), Ok(()))
}

// ---------------------------------------------------------------------------
// The cross-table invariant.
// ---------------------------------------------------------------------------

/// Every name listed under an account is registered to that account.
pub open spec fn owners_ok(s: StateView) -> bool {
    forall|a: u64, i: int|
        #![trigger s.accounts[a][i]]
        s.accounts.contains_key(a) && 0 <= i < s.accounts[a].len() ==> s.domains.contains_key(
            s.accounts[a][i],
        ) && s.domains[s.accounts[a][i]].owner == a
}

/// Every registered domain is listed under its owner.
pub open spec fn domains_indexed(s: StateView) -> bool {
    forall|d: Seq<u8>|
        #[trigger] s.domains.contains_key(d) ==> s.accounts.contains_key(s.domains[d].owner)
            && s.accounts[s.domains[d].owner].contains(d)
}

/// No account lists the same name twice.
pub open spec fn no_dup_accounts(s: StateView) -> bool {
    forall|a: u64, i: int, j: int|
        #![trigger s.accounts[a][i], s.accounts[a][j]]
        s.accounts.contains_key(a) && 0 <= i < j < s.accounts[a].len() ==> s.accounts[a][i]
            != s.accounts[a][j]
}

/// Every lease window's end fits in a `u128`.
pub open spec fn leases_bounded(s: StateView) -> bool {
    forall|d: Seq<u8>|
        #[trigger] s.domains.contains_key(d) ==> s.domains[d].lease_start
            + s.domains[d].lease_duration <= u128::MAX
}

/// The state invariant: the account index mirrors the registry (each way),
/// account lists hold no duplicates, and lease arithmetic cannot overflow.
pub open spec fn state_inv(s: StateView) -> bool {
    owners_ok(s) && domains_indexed(s) && no_dup_accounts(s) && leases_bounded(s)
}

pub proof fn lemma_init_inv(admin: u64)
    ensures
        state_inv(init_state(admin)),
{
}

// ---------------------------------------------------------------------------
// List lemmas.
// ---------------------------------------------------------------------------

/// What `remove_name` keeps: exactly the other elements, no duplicates added.
pub proof fn lemma_remove_name_props(l: Seq<Seq<u8>>, x: Seq<u8>)
    ensures
        forall|i: int|
            0 <= i < remove_name(l, x).len() ==> (#[trigger] remove_name(l, x)[i]) != x
                && l.contains(remove_name(l, x)[i]),
        forall|y: Seq<u8>| l.contains(y) && y != x ==> remove_name(l, x).contains(y),
        remove_name(l, x).len() <= l.len(),
    decreases l.len(),
{
    if l.len() > 0 {
        let pre = l.drop_last();
        lemma_remove_name_props(pre, x);
        let out = remove_name(l, x);
        assert forall|i: int| 0 <= i < out.len() implies (#[trigger] out[i]) != x && l.contains(
            out[i],
        ) by {
            let sub = remove_name(pre, x);
            if i < sub.len() {
                assert(out[i] == sub[i]);
                let j = choose|j: int| 0 <= j < pre.len() && pre[j] == sub[i];
                assert(l[j] == out[i]);
            } else {
                assert(out[i] == l.last());
                assert(l[l.len() - 1] == l.last());
            }
        }
        assert forall|y: Seq<u8>| l.contains(y) && y != x implies out.contains(y) by {
            let j = choose|j: int| 0 <= j < l.len() && l[j] == y;
            if j < l.len() - 1 {
                assert(pre[j] == y);
                assert(pre.contains(y));
                let sub = remove_name(pre, x);
                let i = choose|i: int| 0 <= i < sub.len() && sub[i] == y;
                assert(out[i] == y);
            } else {
                assert(y == l.last());
                assert(out[out.len() - 1] == y);
            }
        }
    }
}

/// `remove_name` of a duplicate-free list is duplicate-free.
pub proof fn lemma_remove_name_nodup(l: Seq<Seq<u8>>, x: Seq<u8>)
    requires
        forall|i: int, j: int| 0 <= i < j < l.len() ==> (#[trigger] l[i]) != (#[trigger] l[j]),
    ensures
        forall|i: int, j: int|
            0 <= i < j < remove_name(l, x).len() ==> (#[trigger] remove_name(l, x)[i])
                != (#[trigger] remove_name(l, x)[j]),
    decreases l.len(),
{
    if l.len() > 0 {
        let pre = l.drop_last();
        assert forall|i: int, j: int| 0 <= i < j < pre.len() implies (#[trigger] pre[i])
            != (#[trigger] pre[j]) by {
            assert(l[i] == pre[i]);
            assert(l[j] == pre[j]);
        }
        lemma_remove_name_nodup(pre, x);
        lemma_remove_name_props(pre, x);
        let out = remove_name(l, x);
        let sub = remove_name(pre, x);
        if l.last() != x {
            assert forall|i: int, j: int| 0 <= i < j < out.len() implies (#[trigger] out[i])
                != (#[trigger] out[j]) by {
                if j < sub.len() {
                    assert(out[i] == sub[i]);
                    assert(out[j] == sub[j]);
                } else {
                    assert(out[j] == l.last());
                    assert(out[i] == sub[i]);
                    let k = choose|k: int| 0 <= k < pre.len() && pre[k] == sub[i];
                    assert(l[k] == sub[i]);
                    assert(l[k] != l[l.len() - 1]);
                }
            }
        }
    }
}

/// What `strip_records` keeps: exactly the records not matching `(t, ip)`.
pub proof fn lemma_strip_records_props(l: Seq<RecordView>, t: Type, ip: Seq<u8>)
    ensures
        forall|i: int|
            0 <= i < strip_records(l, t, ip).len() ==> !((#[trigger] strip_records(l, t, ip)[i]).rr_type
                == t && strip_records(l, t, ip)[i].ip == ip) && l.contains(
                strip_records(l, t, ip)[i],
            ),
        forall|r: RecordView|
            l.contains(r) && !(r.rr_type == t && r.ip == ip) ==> strip_records(l, t, ip).contains(
                r,
            ),
        strip_records(l, t, ip).len() <= l.len(),
    decreases l.len(),
{
    if l.len() > 0 {
        let pre = l.drop_last();
        lemma_strip_records_props(pre, t, ip);
        let out = strip_records(l, t, ip);
        assert forall|i: int| 0 <= i < out.len() implies !((#[trigger] out[i]).rr_type == t
            && out[i].ip == ip) && l.contains(out[i]) by {
            let sub = strip_records(pre, t, ip);
            if i < sub.len() {
                assert(out[i] == sub[i]);
                let j = choose|j: int| 0 <= j < pre.len() && pre[j] == sub[i];
                assert(l[j] == out[i]);
            } else {
                assert(out[i] == l.last());
                assert(l[l.len() - 1] == l.last());
            }
        }
        assert forall|r: RecordView| l.contains(r) && !(r.rr_type == t && r.ip == ip) implies out
            .contains(r) by {
            let j = choose|j: int| 0 <= j < l.len() && l[j] == r;
            if j < l.len() - 1 {
                assert(pre[j] == r);
                assert(pre.contains(r));
                let sub = strip_records(pre, t, ip);
                let i = choose|i: int| 0 <= i < sub.len() && sub[i] == r;
                assert(out[i] == r);
            } else {
                assert(r == l.last());
                assert(out[out.len() - 1] == r);
            }
        }
    }
}

/// What `purge_records` leaves: exactly the entries of unlisted names, with
/// their lists unchanged.
pub proof fn lemma_purge_props(m: Map<Seq<u8>, Seq<RecordView>>, subs: Seq<Seq<u8>>)
    ensures
        forall|y: Seq<u8>|
            #[trigger] purge_records(m, subs).contains_key(y) <==> (m.contains_key(y)
                && !subs.contains(y)),
        forall|y: Seq<u8>|
            #[trigger] purge_records(m, subs).contains_key(y) ==> purge_records(m, subs)[y]
                == m[y],
    decreases subs.len(),
{
    if subs.len() > 0 {
        let pre = subs.drop_last();
        lemma_purge_props(m, pre);
        let out = purge_records(m, subs);
        assert forall|y: Seq<u8>| #[trigger] out.contains_key(y) implies (m.contains_key(y)
            && !subs.contains(y)) by {
            assert(purge_records(m, pre).contains_key(y));
            if subs.contains(y) {
                let i = choose|i: int| 0 <= i < subs.len() && subs[i] == y;
                if i < subs.len() - 1 {
                    assert(pre[i] == y);
                    assert(pre.contains(y));
                } else {
                    assert(y == subs.last());
                }
            }
        }
        assert forall|y: Seq<u8>| m.contains_key(y) && !subs.contains(y) implies out.contains_key(
            y,
        ) by {
            if pre.contains(y) {
                let i = choose|i: int| 0 <= i < pre.len() && pre[i] == y;
                assert(subs[i] == y);
            }
            assert(purge_records(m, pre).contains_key(y));
            assert(subs[subs.len() - 1] == subs.last());
        }
        assert forall|y: Seq<u8>| #[trigger] out.contains_key(y) implies out[y] == m[y] by {
            assert(purge_records(m, pre).contains_key(y));
            assert(out[y] == purge_records(m, pre)[y]);
        }
    }
}

/// One step of the purge, for loop proofs.
pub proof fn lemma_purge_step(m: Map<Seq<u8>, Seq<RecordView>>, subs: Seq<Seq<u8>>, i: int)
    requires
        0 <= i < subs.len(),
    ensures
        purge_records(m, subs.take(i + 1)) == purge_records(m, subs.take(i)).remove(subs[i]),
{
    assert(subs.take(i + 1).drop_last() =~= subs.take(i));
    assert(subs.take(i + 1).last() == subs[i]);
}

/// One step of `remove_name`, for loop proofs.
pub proof fn lemma_remove_name_step(l: Seq<Seq<u8>>, x: Seq<u8>, i: int)
    requires
        0 <= i < l.len(),
    ensures
        remove_name(l.take(i + 1), x) == (if l[i] == x {
            remove_name(l.take(i), x)
        } else {
            remove_name(l.take(i), x).push(l[i])
        }),
{
    assert(l.take(i + 1).drop_last() =~= l.take(i));
    assert(l.take(i + 1).last() == l[i]);
}

// ---------------------------------------------------------------------------
// Invariant preservation.
// ---------------------------------------------------------------------------

/// An account's list holds no duplicates (vacuous for an absent account).
proof fn lemma_list_nodup(s: StateView, a: u64)
    requires
        state_inv(s),
    ensures
        forall|i: int, j: int|
            0 <= i < j < acct_list(s, a).len() ==> (#[trigger] acct_list(s, a)[i])
                != (#[trigger] acct_list(s, a)[j]),
{
    if s.accounts.contains_key(a) {
        assert forall|i: int, j: int| 0 <= i < j < acct_list(s, a).len() implies (
        #[trigger] acct_list(s, a)[i]) != (#[trigger] acct_list(s, a)[j]) by {
            assert(s.accounts[a][i] == acct_list(s, a)[i]);
            assert(s.accounts[a][j] == acct_list(s, a)[j]);
        }
    }
}

/// A change that leaves the registry and the account index alone leaves the
/// invariant alone.
pub proof fn lemma_inv_same_tables(s: StateView, s2: StateView)
    requires
        state_inv(s),
        s2.domains == s.domains,
        s2.accounts == s.accounts,
    ensures
        state_inv(s2),
{
    assert forall|a: u64, i: int|
        #![trigger s2.accounts[a][i]]
        s2.accounts.contains_key(a) && 0 <= i < s2.accounts[a].len() implies s2.domains.contains_key(
        s2.accounts[a][i]) && s2.domains[s2.accounts[a][i]].owner == a by {
        assert(s.accounts[a][i] == s2.accounts[a][i]);
    }
    assert forall|d: Seq<u8>| #[trigger] s2.domains.contains_key(d) implies s2.accounts.contains_key(
        s2.domains[d].owner,
    ) && s2.accounts[s2.domains[d].owner].contains(d) by {
        assert(s.domains.contains_key(d));
    }
    assert forall|a: u64, i: int, j: int|
        #![trigger s2.accounts[a][i], s2.accounts[a][j]]
        s2.accounts.contains_key(a) && 0 <= i < j < s2.accounts[a].len() implies s2.accounts[a][i]
        != s2.accounts[a][j] by {
        assert(s.accounts[a][i] == s2.accounts[a][i]);
        assert(s.accounts[a][j] == s2.accounts[a][j]);
    }
    assert forall|d: Seq<u8>| #[trigger] s2.domains.contains_key(d) implies s2.domains[d].lease_start
        + s2.domains[d].lease_duration <= u128::MAX by {
        assert(s.domains.contains_key(d));
    }
}

/// Reclaiming a registered domain preserves the invariant.
pub proof fn lemma_reclaim_inv(s: StateView, top: Seq<u8>)
    requires
        state_inv(s),
        s.domains.contains_key(top),
    ensures
        state_inv(reclaim_from(s, top)),
{
    let o = s.domains[top].owner;
    assert(s.accounts.contains_key(o) && s.accounts[o].contains(top));
    let l = s.accounts[o];
    let rest = remove_name(l, top);
    lemma_remove_name_props(l, top);
    lemma_list_nodup(s, o);
    assert forall|i: int, j: int| 0 <= i < j < l.len() implies (#[trigger] l[i])
        != (#[trigger] l[j]) by {
        assert(acct_list(s, o)[i] == l[i]);
        assert(acct_list(s, o)[j] == l[j]);
    }
    lemma_remove_name_nodup(l, top);
    let s2 = reclaim_from(s, top);
    assert forall|a: u64, i: int|
        #![trigger s2.accounts[a][i]]
        s2.accounts.contains_key(a) && 0 <= i < s2.accounts[a].len() implies s2.domains.contains_key(
        s2.accounts[a][i]) && s2.domains[s2.accounts[a][i]].owner == a by {
        if a == o {
            assert(s2.accounts[a] == rest);
            let d = rest[i];
            assert(l.contains(d) && d != top);
            let j = choose|j: int| 0 <= j < l.len() && l[j] == d;
            assert(s.accounts[o][j] == d);
        } else {
            assert(s2.accounts[a] == s.accounts[a]);
            let d = s.accounts[a][i];
            assert(s.domains.contains_key(d) && s.domains[d].owner == a);
            assert(d != top);
        }
    }
    assert forall|d: Seq<u8>| #[trigger] s2.domains.contains_key(d) implies s2.accounts.contains_key(
        s2.domains[d].owner,
    ) && s2.accounts[s2.domains[d].owner].contains(d) by {
        assert(s.domains.contains_key(d) && d != top);
        let a = s.domains[d].owner;
        assert(s.accounts.contains_key(a) && s.accounts[a].contains(d));
        if a == o {
            assert(l.contains(d));
            assert(rest.contains(d));
            let i = choose|i: int| 0 <= i < rest.len() && rest[i] == d;
            assert(rest.len() > 0);
            assert(s2.accounts.contains_key(o));
            assert(s2.accounts[o] == rest);
        } else {
            assert(s2.accounts.contains_key(a));
            assert(s2.accounts[a] == s.accounts[a]);
        }
    }
    assert forall|a: u64, i: int, j: int|
        #![trigger s2.accounts[a][i], s2.accounts[a][j]]
        s2.accounts.contains_key(a) && 0 <= i < j < s2.accounts[a].len() implies s2.accounts[a][i]
        != s2.accounts[a][j] by {
        if a == o {
            assert(s2.accounts[a] == rest);
            assert(rest[i] != rest[j]);
        } else {
            assert(s2.accounts[a] == s.accounts[a]);
            assert(s.accounts[a][i] != s.accounts[a][j]);
        }
    }
    assert forall|d: Seq<u8>| #[trigger] s2.domains.contains_key(d) implies s2.domains[d].lease_start
        + s2.domains[d].lease_duration <= u128::MAX by {
        assert(s.domains.contains_key(d));
    }
}

/// The lease check preserves the invariant.
pub proof fn lemma_lease_inv(s: StateView, name: Seq<u8>, now: u128)
    requires
        state_inv(s),
    ensures
        state_inv(spec_lease(s, name, now)),
{
    let top = top_of(name);
    if s.domains.contains_key(top) && expired(s, top, now) {
        lemma_reclaim_inv(s, top);
    } else {
        lemma_inv_same_tables(s, spec_lease(s, name, now));
    }
}

/// No account of `s` lists a name the registry does not hold.
proof fn lemma_unregistered_unlisted(s: StateView, name: Seq<u8>)
    requires
        state_inv(s),
        !s.domains.contains_key(name),
    ensures
        forall|a: u64, j: int|
            #![trigger s.accounts[a][j]]
            s.accounts.contains_key(a) && 0 <= j < s.accounts[a].len() ==> s.accounts[a][j] != name,
{
}

/// Registration preserves the invariant.
pub proof fn lemma_register_inv(
    s: StateView,
    who: u64,
    buf: Seq<u8>,
    duration: u128,
    now: u128,
    balance: u128,
)
    requires
        state_inv(s),
        now <= u128::MAX - MAX_DURATION,
    ensures
        state_inv(spec_register(s, who, buf, duration, now, balance).0),
{
    if duration < MIN_DURATION || duration > MAX_DURATION || !buf_ok(buf, false) || buf_len(buf)
        < MIN_LEN as int {
    } else {
        let name = canon(buf);
        lemma_lease_inv(s, name, now);
        let s1 = spec_lease(s, name, now);
        if s1.domains.contains_key(name) || (balance as int) < spec_cost(
            buf_len(buf),
            duration as int,
        ) {
        } else {
            lemma_unregistered_unlisted(s1, name);
            lemma_list_nodup(s1, who);
            let l0 = acct_list(s1, who);
            let nl = l0.push(name);
            let s2 = spec_register(s, who, buf, duration, now, balance).0;
            assert(s2.accounts == s1.accounts.insert(who, nl));
            assert forall|a: u64, i: int|
                #![trigger s2.accounts[a][i]]
                s2.accounts.contains_key(a) && 0 <= i < s2.accounts[a].len() implies s2.domains.contains_key(
                s2.accounts[a][i]) && s2.domains[s2.accounts[a][i]].owner == a by {
                if a == who {
                    assert(s2.accounts[a] == nl);
                    if i < l0.len() {
                        assert(s1.accounts.contains_key(who));
                        assert(nl[i] == s1.accounts[who][i]);
                        assert(s1.domains.contains_key(s1.accounts[who][i]));
                        assert(s1.accounts[who][i] != name);
                    } else {
                        assert(nl[i] == name);
                    }
                } else {
                    assert(s2.accounts[a] == s1.accounts[a]);
                    let d = s1.accounts[a][i];
                    assert(s1.domains.contains_key(d) && s1.domains[d].owner == a);
                    assert(d != name);
                }
            }
            assert forall|d: Seq<u8>| #[trigger] s2.domains.contains_key(d) implies s2.accounts.contains_key(
                s2.domains[d].owner,
            ) && s2.accounts[s2.domains[d].owner].contains(d) by {
                if d == name {
                    assert(s2.accounts[who] == nl);
                    assert(nl[l0.len() as int] == name);
                } else {
                    assert(s1.domains.contains_key(d));
                    let a = s1.domains[d].owner;
                    assert(s1.accounts.contains_key(a) && s1.accounts[a].contains(d));
                    if a == who {
                        let i = choose|i: int| 0 <= i < l0.len() && l0[i] == d;
                        assert(nl[i] == d);
                    } else {
                        assert(s2.accounts[a] == s1.accounts[a]);
                    }
                }
            }
            assert forall|a: u64, i: int, j: int|
                #![trigger s2.accounts[a][i], s2.accounts[a][j]]
                s2.accounts.contains_key(a) && 0 <= i < j < s2.accounts[a].len() implies s2.accounts[a][i]
                != s2.accounts[a][j] by {
                if a == who {
                    assert(s2.accounts[a] == nl);
                    if j < l0.len() {
                        assert(acct_list(s1, who)[i] != acct_list(s1, who)[j]);
                    } else {
                        assert(nl[j] == name);
                        if s1.accounts.contains_key(who) {
                            assert(nl[i] == s1.accounts[who][i]);
                            assert(s1.accounts[who][i] != name);
                        }
                    }
                } else {
                    assert(s2.accounts[a] == s1.accounts[a]);
                    assert(s1.accounts[a][i] != s1.accounts[a][j]);
                }
            }
            assert forall|d: Seq<u8>| #[trigger] s2.domains.contains_key(d) implies s2.domains[d].lease_start
                + s2.domains[d].lease_duration <= u128::MAX by {
                if d != name {
                    assert(s1.domains.contains_key(d));
                }
            }
        }
    }
}

/// Transfer preserves the invariant.
pub proof fn lemma_transfer_inv(s: StateView, who: u64, buf: Seq<u8>, to: u64, now: u128)
    requires
        state_inv(s),
    ensures
        state_inv(spec_transfer(s, who, buf, to, now).0),
{
    if !buf_ok(buf, true) || buf_len(buf) == 0 {
    } else {
        let name = canon(buf);
        lemma_lease_inv(s, name, now);
        let s1 = spec_lease(s, name, now);
        if !s1.domains.contains_key(name) || s1.domains[name].owner != who {
        } else {
            assert(s1.accounts.contains_key(who) && s1.accounts[who].contains(name));
            let lw = acct_list(s1, who);
            lemma_remove_name_props(lw, name);
            lemma_list_nodup(s1, who);
            assert forall|i: int, j: int| 0 <= i < j < lw.len() implies (#[trigger] lw[i])
                != (#[trigger] lw[j]) by {
                assert(acct_list(s1, who)[i] == lw[i]);
                assert(acct_list(s1, who)[j] == lw[j]);
            }
            lemma_remove_name_nodup(lw, name);
            let rw = remove_name(lw, name);
            let acc1 = s1.accounts.insert(who, rw);
            let lt = if acc1.contains_key(to) {
                acc1[to]
            } else {
                Seq::empty()
            };
            let nl = lt.push(name);
            let s2 = spec_transfer(s, who, buf, to, now).0;
            assert(s2.accounts == acc1.insert(to, nl));
            // `name` never sits in `lt`.
            assert forall|i: int| 0 <= i < lt.len() implies (#[trigger] lt[i]) != name by {
                if to == who {
                    assert(lt == rw);
                } else {
                    assert(lt == s1.accounts[to]);
                    if lt[i] == name {
                        assert(s1.accounts[to][i] == name);
                        assert(s1.domains[name].owner == to);
                    }
                }
            }
            // `lt` holds no duplicates.
            assert forall|i: int, j: int| 0 <= i < j < lt.len() implies (#[trigger] lt[i])
                != (#[trigger] lt[j]) by {
                if to == who {
                    assert(lt == rw);
                } else {
                    assert(lt == s1.accounts[to]);
                    assert(s1.accounts[to][i] != s1.accounts[to][j]);
                }
            }
            assert forall|a: u64, i: int|
                #![trigger s2.accounts[a][i]]
                s2.accounts.contains_key(a) && 0 <= i < s2.accounts[a].len() implies s2.domains.contains_key(
                s2.accounts[a][i]) && s2.domains[s2.accounts[a][i]].owner == a by {
                if a == to {
                    assert(s2.accounts[a] == nl);
                    if i < lt.len() {
                        let d = lt[i];
                        assert(d != name);
                        if to == who {
                            assert(lt == rw);
                            assert(lw.contains(d));
                            let j = choose|j: int| 0 <= j < lw.len() && lw[j] == d;
                            assert(s1.accounts[who][j] == d);
                        } else {
                            assert(lt == s1.accounts[to]);
                            assert(s1.accounts[to][i] == d);
                        }
                        assert(s1.domains.contains_key(d) && s1.domains[d].owner == a);
                    } else {
                        assert(nl[i] == name);
                    }
                } else if a == who {
                    assert(s2.accounts[a] == rw);
                    let d = rw[i];
                    assert(d != name && lw.contains(d));
                    let j = choose|j: int| 0 <= j < lw.len() && lw[j] == d;
                    assert(s1.accounts[who][j] == d);
                    assert(s1.domains.contains_key(d) && s1.domains[d].owner == who);
                } else {
                    assert(s2.accounts[a] == s1.accounts[a]);
                    let d = s1.accounts[a][i];
                    assert(s1.domains.contains_key(d) && s1.domains[d].owner == a);
                    assert(d != name);
                }
            }
            assert forall|d: Seq<u8>| #[trigger] s2.domains.contains_key(d) implies s2.accounts.contains_key(
                s2.domains[d].owner,
            ) && s2.accounts[s2.domains[d].owner].contains(d) by {
                if d == name {
                    assert(s2.accounts[to] == nl);
                    assert(nl[lt.len() as int] == name);
                } else {
                    assert(s1.domains.contains_key(d));
                    let a = s1.domains[d].owner;
                    assert(s1.accounts.contains_key(a) && s1.accounts[a].contains(d));
                    if a == to {
                        if to == who {
                            assert(rw.contains(d));
                            let i = choose|i: int| 0 <= i < rw.len() && rw[i] == d;
                            assert(lt == rw);
                            assert(nl[i] == d);
                        } else {
                            assert(lt == s1.accounts[to]);
                            let i = choose|i: int| 0 <= i < lt.len() && lt[i] == d;
                            assert(nl[i] == d);
                        }
                    } else if a == who {
                        assert(s2.accounts[who] == rw);
                        assert(lw.contains(d));
                        assert(rw.contains(d));
                    } else {
                        assert(s2.accounts[a] == s1.accounts[a]);
                    }
                }
            }
            assert forall|a: u64, i: int, j: int|
                #![trigger s2.accounts[a][i], s2.accounts[a][j]]
                s2.accounts.contains_key(a) && 0 <= i < j < s2.accounts[a].len() implies s2.accounts[a][i]
                != s2.accounts[a][j] by {
                if a == to {
                    assert(s2.accounts[a] == nl);
                    if j < lt.len() {
                        assert(lt[i] != lt[j]);
                    } else {
                        assert(nl[j] == name);
                        assert(lt[i] != name);
                    }
                } else if a == who {
                    assert(s2.accounts[a] == rw);
                    assert(rw[i] != rw[j]);
                } else {
                    assert(s2.accounts[a] == s1.accounts[a]);
                    assert(s1.accounts[a][i] != s1.accounts[a][j]);
                }
            }
            assert forall|d: Seq<u8>| #[trigger] s2.domains.contains_key(d) implies s2.domains[d].lease_start
                + s2.domains[d].lease_duration <= u128::MAX by {
                assert(s1.domains.contains_key(name));
                if d != name {
                    assert(s1.domains.contains_key(d));
                }
            }
        }
    }
}

// ---------------------------------------------------------------------------
// Stated laws.
// ---------------------------------------------------------------------------

/// The account index mirrors the registry: a name is listed under an account
/// exactly when the registry holds it with that account as owner.
pub proof fn lemma_account_mirror(s: StateView, a: u64, d: Seq<u8>)
    requires
        state_inv(s),
    ensures
        (s.accounts.contains_key(a) && s.accounts[a].contains(d)) <==> (s.domains.contains_key(d)
            && s.domains[d].owner == a),
{
    if s.accounts.contains_key(a) && s.accounts[a].contains(d) {
        let i = choose|i: int| 0 <= i < s.accounts[a].len() && s.accounts[a][i] == d;
        assert(s.accounts[a][i] == d);
    }
}

/// A live lease is left untouched by the lease check: only an event is
/// logged.
pub proof fn lemma_lease_live_unchanged(s: StateView, name: Seq<u8>, now: u128)
    requires
        s.domains.contains_key(top_of(name)),
        !expired(s, top_of(name), now),
    ensures
        spec_lease(s, name, now).domains == s.domains,
        spec_lease(s, name, now).accounts == s.accounts,
        spec_lease(s, name, now).subdomains == s.subdomains,
        spec_lease(s, name, now).records == s.records,
{
}

/// An elapsed lease is reclaimed by the lease check: the domain leaves the
/// registry.
pub proof fn lemma_lease_expired_reclaimed(s: StateView, name: Seq<u8>, now: u128)
    requires
        s.domains.contains_key(top_of(name)),
        expired(s, top_of(name), now),
    ensures
        !spec_lease(s, name, now).domains.contains_key(top_of(name)),
{
}

/// Withdrawal cascades: after a reclaim the domain has no registry entry, no
/// subdomain list, no record store under any previously listed subdomain, and
/// no account lists it.
pub proof fn lemma_reclaim_cascades(s: StateView, top: Seq<u8>)
    requires
        state_inv(s),
        s.domains.contains_key(top),
    ensures
        !reclaim_from(s, top).domains.contains_key(top),
        !reclaim_from(s, top).subdomains.contains_key(top),
        forall|i: int|
            0 <= i < sub_list(s, top).len() ==> !reclaim_from(s, top).records.contains_key(
                #[trigger] sub_list(s, top)[i],
            ),
        forall|a: u64|
            #[trigger] reclaim_from(s, top).accounts.contains_key(a) ==> !reclaim_from(
                s,
                top,
            ).accounts[a].contains(top),
{
    let s2 = reclaim_from(s, top);
    let o = s.domains[top].owner;
    let l = acct_list(s, o);
    lemma_remove_name_props(l, top);
    if s.subdomains.contains_key(top) {
        lemma_purge_props(s.records, s.subdomains[top]);
        assert forall|i: int| 0 <= i < sub_list(s, top).len() implies !s2.records.contains_key(
            #[trigger] sub_list(s, top)[i],
        ) by {
            assert(s.subdomains[top][i] == sub_list(s, top)[i]);
            assert(s.subdomains[top].contains(sub_list(s, top)[i]));
        }
    }
    assert forall|a: u64| #[trigger] s2.accounts.contains_key(a) implies !s2.accounts[a].contains(
        top,
    ) by {
        if a == o {
            if s2.accounts[a].contains(top) {
                let rest = remove_name(l, top);
                assert(s2.accounts[a] == rest);
                let i = choose|i: int| 0 <= i < rest.len() && rest[i] == top;
                assert(rest[i] != top);
            }
        } else {
            if s2.accounts[a].contains(top) {
                assert(s2.accounts[a] == s.accounts[a]);
                let i = choose|i: int|
                    0 <= i < s.accounts[a].len() && s.accounts[a][i] == top;
                assert(s.accounts[a][i] == top);
                assert(s.domains[top].owner == a);
            }
        }
    }
}

/// Transfer preserves the lease: on success the registry entry keeps its
/// window, only its owner changes, and the name moves between the two
/// account lists.
pub proof fn lemma_transfer_preserves_lease(
    s: StateView,
    who: u64,
    buf: Seq<u8>,
    to: u64,
    now: u128,
)
    requires
        state_inv(s),
    ensures
        ({
            let (s2, r) = spec_transfer(s, who, buf, to, now);
            let name = canon(buf);
            r == Ok::<(), Error>(()) ==> {
                &&& s.domains.contains_key(name)
                &&& s2.domains.contains_key(name)
                &&& s2.domains[name].owner == to
                &&& s2.domains[name].lease_start == s.domains[name].lease_start
                &&& s2.domains[name].lease_duration == s.domains[name].lease_duration
                &&& s2.accounts.contains_key(to) && s2.accounts[to].contains(name)
                &&& (who != to ==> s2.accounts.contains_key(who) && !s2.accounts[who].contains(
                    name,
                ))
            }
        }),
{
    let (s2, r) = spec_transfer(s, who, buf, to, now);
    if r == Ok::<(), Error>(()) {
        let name = canon(buf);
        let s1 = spec_lease(s, name, now);
        assert(s1.domains.contains_key(name));
        assert(s.domains.contains_key(name) && s1.domains[name] == s.domains[name]);
        let lw = acct_list(s1, who);
        lemma_remove_name_props(lw, name);
        let rw = remove_name(lw, name);
        let acc1 = s1.accounts.insert(who, rw);
        let lt = if acc1.contains_key(to) {
            acc1[to]
        } else {
            Seq::empty()
        };
        let nl = lt.push(name);
        assert(s2.accounts[to] == nl);
        assert(nl[lt.len() as int] == name);
        if who != to {
            assert(s2.accounts[who] == rw);
            if s2.accounts[who].contains(name) {
                let i = choose|i: int| 0 <= i < rw.len() && rw[i] == name;
                assert(rw[i] != name);
            }
        }
    }
}

/// One step of `strip_records`, for loop proofs.
pub proof fn lemma_strip_records_step(l: Seq<RecordView>, t: Type, ip: Seq<u8>, i: int)
    requires
        0 <= i < l.len(),
    ensures
        strip_records(l.take(i + 1), t, ip) == (if l[i].rr_type == t && l[i].ip == ip {
            strip_records(l.take(i), t, ip)
        } else {
            strip_records(l.take(i), t, ip).push(l[i])
        }),
{
    assert(l.take(i + 1).drop_last() =~= l.take(i));
    assert(l.take(i + 1).last() == l[i]);
}

} // verus!
