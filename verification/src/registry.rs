//! The pallet: the registry's state aggregate and its public operations.
//!
//! Every operation validates its plain-value inputs, runs the lazy lease
//! check where the protocol calls for it, and then either commits its writes
//! or returns an error with its own writes untouched. Each operation's
//! contract says it computes exactly the corresponding transition of
//! `crate::model`, and that the cross-table invariant holds afterwards.

use vstd::prelude::*;

use crate::model::{
    acct_list, lemma_account_mirror, lemma_init_inv, lemma_inv_same_tables, lemma_lease_inv,
    lemma_purge_step, lemma_reclaim_inv, lemma_register_inv, lemma_remove_name_step,
    lemma_strip_records_step, lemma_transfer_inv, purge_records, reclaim_from, remove_name,
    spec_add_record, spec_add_subdomain, spec_delete_record, spec_delete_subdomain,
    spec_do_something, spec_exist, spec_lease, spec_register, spec_transfer, spec_withdraw,
    state_inv, strip_records, init_state, StateView,
};
use crate::name::{
    buf_len, bytes_eq, canon, copy_name, get_top, lemma_buf_len_bounds, lemma_canon_idempotent,
    lemma_top_props, logical_len, normalize, top_of,
};
use crate::price::{cost, MAX_DURATION, MIN_DURATION, MIN_LEN};
use crate::table::{lemma_name_list_deep, lemma_vec_u8_deep, AccountTable, NameTable};
use crate::types::{Auth, DomainInfo, Error, Event, EventView, Record, RecordView, Type};

verus! {

/// `l` without the occurrences of `x`, as `crate::model::remove_name` says.
fn retain_names(l: Vec<Vec<u8>>, x: &Vec<u8>) -> (r: Vec<Vec<u8>>)
    ensures
        r.deep_view() == remove_name(l.deep_view(), x@),
{
    proof {
        lemma_name_list_deep(l);
    }
    let ghost ldv = l.deep_view();
    let mut out: Vec<Vec<u8>> = Vec::new();
    let mut i: usize = 0;
    proof {
        assert(out.deep_view() =~= remove_name(ldv.take(0), x@));
    }
    while i < l.len()
        invariant
            ldv == l.deep_view(),
            ldv.len() == l@.len(),
            forall|j: int| 0 <= j < l@.len() ==> (#[trigger] ldv[j]) == l@[j]@,
            0 <= i <= l@.len(),
            out.deep_view() == remove_name(ldv.take(i as int), x@),
        decreases l@.len() - i,
    {
        proof {
            lemma_remove_name_step(ldv, x@, i as int);
        }
        if bytes_eq(&l[i], x) {
            proof {
                assert(ldv[i as int] == x@);
            }
        } else {
            let ghost pre = out.deep_view();
            let copied = copy_name(&l[i]);
            proof {
                lemma_vec_u8_deep(copied);
                assert(copied.deep_view() == ldv[i as int]);
            }
            out.push(copied);
            proof {
                assert(out.deep_view() =~= pre.push(ldv[i as int]));
            }
        }
        i = i + 1;
    }
    proof {
        assert(ldv.take(l@.len() as int) =~= ldv);
    }
    out
}

/// `l` without the records matching `(t, ip)`, as `crate::model::strip_records`
/// says.
fn retain_records(l: Vec<Record>, t: Type, ip: &Vec<u8>) -> (r: Vec<Record>)
    ensures
        r.deep_view() == strip_records(l.deep_view(), t, ip@),
{
    let ghost ldv = l.deep_view();
    let mut out: Vec<Record> = Vec::new();
    let mut i: usize = 0;
    proof {
        assert(out.deep_view() =~= strip_records(ldv.take(0), t, ip@));
    }
    while i < l.len()
        invariant
            ldv == l.deep_view(),
            ldv.len() == l@.len(),
            0 <= i <= l@.len(),
            out.deep_view() == strip_records(ldv.take(i as int), t, ip@),
        decreases l@.len() - i,
    {
        proof {
            lemma_strip_records_step(ldv, t, ip@, i as int);
            assert(ldv[i as int] == l@[i as int].deep_view());
        }
        let matches_kind = l[i].rr_type == t;
        let matches_ip = bytes_eq(&l[i].ip, ip);
        if matches_kind && matches_ip {
            proof {
                assert(ldv[i as int].rr_type == t && ldv[i as int].ip == ip@);
            }
        } else {
            let ghost pre = out.deep_view();
            let copied = Record { rr_type: l[i].rr_type, ip: copy_name(&l[i].ip), ttl: l[i].ttl };
            proof {
                lemma_vec_u8_deep(copied.ip);
                assert(copied.deep_view() == ldv[i as int]);
            }
            out.push(copied);
            proof {
                assert(out.deep_view() =~= pre.push(ldv[i as int]));
            }
        }
        i = i + 1;
    }
    proof {
        assert(ldv.take(l@.len() as int) =~= ldv);
    }
    out
}

/// Whether the list holds the name.
fn list_contains(l: &Vec<Vec<u8>>, x: &Vec<u8>) -> (r: bool)
    ensures
        r == l.deep_view().contains(x@),
{
    proof {
        lemma_name_list_deep(*l);
    }
    let mut i: usize = 0;
    while i < l.len()
        invariant
            0 <= i <= l@.len(),
            forall|j: int| 0 <= j < i ==> (#[trigger] l@[j]@) != x@,
        decreases l@.len() - i,
    {
        if bytes_eq(&l[i], x) {
            proof {
                assert(l.deep_view()[i as int] == x@);
                assert(l.deep_view().contains(x@));
            }
            return true;
        }
        i = i + 1;
    }
    proof {
        if l.deep_view().contains(x@) {
            let j = choose|j: int| 0 <= j < l.deep_view().len() && l.deep_view()[j] == x@;
            assert(l.deep_view()[j] == l@[j]@);
        }
    }
    false
}

/// The whole registry: the four storage tables, the admin account, and the
/// event log.
pub struct Pallet {
    registry: NameTable<DomainInfo>,
    account_index: AccountTable,
    subdomain_index: NameTable<Vec<Vec<u8>>>,
    record_store: NameTable<Vec<Record>>,
    admin_acct: u64,
    event_log: Vec<Event>,
}

impl View for Pallet {
    type V = StateView;

    closed spec fn view(&self) -> StateView {
        StateView {
            domains: self.registry@,
            accounts: self.account_index@,
            subdomains: self.subdomain_index@,
            records: self.record_store@,
            admin: self.admin_acct,
            events: self.event_log.deep_view(),
        }
    }
}

/// The genesis configuration: the single privileged admin account, set once
/// before any operation runs.
pub struct GenesisConfig {
    pub admin: u64,
}

impl Default for GenesisConfig {
    fn default() -> (r: Self)
        ensures
            r.admin == 0,
    {
        GenesisConfig { admin: 0 }
    }
}

impl GenesisConfig {
    /// Builds the initial pallet state.
    pub fn build(&self) -> (p: Pallet)
        ensures
            p.inv(),
            p@ == init_state(self.admin),
    {
        let p = Pallet {
            registry: NameTable::new(),
            account_index: AccountTable::new(),
            subdomain_index: NameTable::new(),
            record_store: NameTable::new(),
            admin_acct: self.admin,
            event_log: Vec::new(),
        };
        proof {
            lemma_init_inv(self.admin);
            assert(p@ =~= init_state(self.admin));
        }
        p
    }
}

impl Pallet {
    /// The pallet's invariant: each table denotes its map faithfully, and the
    /// cross-table invariant of the model holds.
    pub closed spec fn inv(&self) -> bool {
        &&& self.registry.wf()
        &&& self.account_index.wf()
        &&& self.subdomain_index.wf()
        &&& self.record_store.wf()
        &&& state_inv(self@)
    }

    /// The account index mirrors the registry: a name is listed under an
    /// account exactly when the registry holds it with that owner.
    pub proof fn lemma_mirror(&self, a: u64, d: Seq<u8>)
        requires
            self.inv(),
        ensures
            (self@.accounts.contains_key(a) && self@.accounts[a].contains(d)) <==> (
            self@.domains.contains_key(d) && self@.domains[d].owner == a),
    {
        lemma_account_mirror(self@, a, d);
    }

    /// Fully reclaims a registered top domain, as `reclaim_from` says.
    fn reclaim_top(&mut self, top: &Vec<u8>)
        requires
            old(self).inv(),
            old(self)@.domains.contains_key(top@),
        ensures
            final(self).inv(),
            final(self)@ == reclaim_from(old(self)@, top@),
    {
        let info = *self.registry.get(top).unwrap();
        let owner = info.owner;
        proof {
            assert(old(self)@.accounts.contains_key(owner));
            assert(old(self)@.accounts[owner].contains(top@));
        }
        let list = self.account_index.take_value(owner).unwrap();
        proof {
            lemma_name_list_deep(list);
        }
        let retained = retain_names(list, top);
        if retained.len() == 0 {
            proof {
                assert(remove_name(acct_list(old(self)@, owner), top@).len() == 0);
            }
        } else {
            self.account_index.set(owner, retained);
        }
        let subs_opt = self.subdomain_index.take_value(top);
        match subs_opt {
            Some(subs) => {
                let ghost subs_dv = subs.deep_view();
                let ghost recs0 = self.record_store@;
                let ghost snap = *self;
                let mut i: usize = 0;
                proof {
                    assert(self.record_store@ =~= purge_records(recs0, subs_dv.take(0)));
                }
                while i < subs.len()
                    invariant
                        self.record_store.wf(),
                        subs_dv.len() == subs@.len(),
                        forall|j: int|
                            0 <= j < subs@.len() ==> (#[trigger] subs_dv[j]) == subs@[j]@,
                        0 <= i <= subs@.len(),
                        self.record_store@ == purge_records(recs0, subs_dv.take(i as int)),
                        self.registry == snap.registry,
                        self.account_index == snap.account_index,
                        self.subdomain_index == snap.subdomain_index,
                        self.admin_acct == snap.admin_acct,
                        self.event_log == snap.event_log,
                    decreases subs@.len() - i,
                {
                    proof {
                        lemma_purge_step(recs0, subs_dv, i as int);
                    }
                    self.record_store.remove_key(&subs[i]);
                    i = i + 1;
                }
                proof {
                    lemma_name_list_deep(subs);
                    assert(subs_dv.take(subs@.len() as int) =~= subs_dv);
                }
            },
            None => {
                proof {
                    assert(old(self)@.subdomains.remove(top@) =~= old(self)@.subdomains);
                }
            },
        }
        self.registry.remove_key(top);
        let ghost epre = self.event_log.deep_view();
        let stamp = copy_name(top);
        proof {
            lemma_vec_u8_deep(stamp);
        }
        self.event_log.push(Event::Withdraw(stamp));
        proof {
            lemma_reclaim_inv(old(self)@, top@);
            assert(self.event_log.deep_view() =~= epre.push(EventView::Withdraw(top@)));
            assert(self@ =~= reclaim_from(old(self)@, top@));
        }
    }

    /// The lazy lease check on a normalized name: reclaims an elapsed lease,
    /// otherwise only logs whether the top domain exists.
    fn lease_check(&mut self, name: &Vec<u8>, len: usize, now: u128)
        requires
            old(self).inv(),
            name@.len() == 32,
            len == buf_len(name@),
            0 < len <= 32,
        ensures
            final(self).inv(),
            final(self)@ == spec_lease(old(self)@, name@, now),
    {
        let top = get_top(name, len);
        proof {
            lemma_lease_inv(old(self)@, name@, now);
        }
        let found = self.registry.get(&top);
        match found {
            Some(info_ref) => {
                let info = *info_ref;
                proof {
                    assert(old(self)@.domains.contains_key(top@));
                }
                if info.lease_start + info.lease_duration <= now {
                    self.reclaim_top(&top);
                } else {
                    let ghost epre = self.event_log.deep_view();
                    let stamp = copy_name(name);
                    proof {
                        lemma_vec_u8_deep(stamp);
                    }
                    self.event_log.push(Event::ExistDomain(stamp));
                    proof {
                        assert(self.event_log.deep_view() =~= epre.push(
                            EventView::ExistDomain(name@),
                        ));
                        assert(self@ =~= spec_lease(old(self)@, name@, now));
                    }
                }
            },
            None => {
                let ghost epre = self.event_log.deep_view();
                let stamp = copy_name(name);
                proof {
                    lemma_vec_u8_deep(stamp);
                }
                self.event_log.push(Event::NoDomain(stamp));
                proof {
                    assert(self.event_log.deep_view() =~= epre.push(EventView::NoDomain(name@)));
                    assert(self@ =~= spec_lease(old(self)@, name@, now));
                }
            },
        }
    }

    /// Registers a dot-free name for `duration` milliseconds, paid from a
    /// balance of `balance` at time `now`.
    pub fn register(
        &mut self,
        who: u64,
        domain: Vec<u8>,
        duration: u128,
        now: u128,
        balance: u128,
    ) -> (r: Result<(), Error>)
        requires
            old(self).inv(),
            domain@.len() == 32,
            now <= u128::MAX - MAX_DURATION,
        ensures
            final(self).inv(),
            ({
                let (s2, rr) = spec_register(old(self)@, who, domain@, duration, now, balance);
                final(self)@ == s2 && r == rr
            }),
    {
        if duration < MIN_DURATION || duration > MAX_DURATION {
            return Err(Error::ErrorData);
        }
        let parsed = normalize(&domain, false);
        let (name, len) = match parsed {
            Ok(p) => p,
            Err(_) => {
                return Err(Error::ErrorData);
            },
        };
        if len < MIN_LEN {
            return Err(Error::ErrorData);
        }
        proof {
            lemma_buf_len_bounds(domain@);
            lemma_canon_idempotent(domain@, false);
            lemma_register_inv(old(self)@, who, domain@, duration, now, balance);
        }
        self.lease_check(&name, len, now);
        let ghost s1 = spec_lease(old(self)@, canon(domain@), now);
        if self.registry.contains_key(&name) {
            return Err(Error::DomainAlreadyExist);
        }
        let c = cost(len, duration);
        if balance < c {
            return Err(Error::ErrorBalance);
        }
        let info = DomainInfo { owner: who, lease_start: now, lease_duration: duration };
        let key = copy_name(&name);
        proof {
            lemma_vec_u8_deep(key);
        }
        self.registry.set(key, info);
        let mut list = match self.account_index.take_value(who) {
            Some(l) => l,
            None => Vec::new(),
        };
        let ghost lpre = list.deep_view();
        proof {
            assert(lpre =~= acct_list(s1, who));
        }
        let entry = copy_name(&name);
        proof {
            lemma_vec_u8_deep(entry);
        }
        list.push(entry);
        proof {
            assert(list.deep_view() =~= acct_list(s1, who).push(name@));
        }
        self.account_index.set(who, list);
        let ghost epre = self.event_log.deep_view();
        proof {
            lemma_vec_u8_deep(name);
        }
        self.event_log.push(Event::Register(name, who));
        proof {
            assert(self.event_log.deep_view() =~= epre.push(EventView::Register(
                canon(domain@),
                who,
            )));
            let s2 = spec_register(old(self)@, who, domain@, duration, now, balance).0;
            assert(self@.domains =~~= s2.domains);
            assert(self@.accounts =~~= s2.accounts);
            assert(self@.events =~~= s2.events);
            assert(self@ =~~= s2);
        }
        Ok(())
    }

    /// Attaches a (possibly dotted) subdomain to its registered top domain.
    pub fn add_subdomain(&mut self, who: u64, subdomain: Vec<u8>, now: u128) -> (r: Result<
        (),
        Error,
    >)
        requires
            old(self).inv(),
            subdomain@.len() == 32,
        ensures
            final(self).inv(),
            ({
                let (s2, rr) = spec_add_subdomain(old(self)@, who, subdomain@, now);
                final(self)@ == s2 && r == rr
            }),
    {
        let parsed = normalize(&subdomain, true);
        let (name, len) = match parsed {
            Ok(p) => p,
            Err(_) => {
                return Err(Error::ErrorData);
            },
        };
        if len == 0 {
            return Err(Error::ErrorData);
        }
        proof {
            lemma_buf_len_bounds(subdomain@);
            lemma_canon_idempotent(subdomain@, true);
            lemma_top_props(name@);
        }
        let top = get_top(&name, len);
        let tlen = logical_len(&top);
        if tlen == 0 {
            return Err(Error::ErrorData);
        }
        self.lease_check(&top, tlen, now);
        let ghost s1 = spec_lease(old(self)@, top_of(canon(subdomain@)), now);
        let found = self.registry.get(&top);
        let info = match found {
            Some(i) => *i,
            None => {
                return Err(Error::NoDomain);
            },
        };
        if info.owner != who {
            return Err(Error::NotDomainOwner);
        }
        let mut list = match self.subdomain_index.take_value(&top) {
            Some(l) => l,
            None => Vec::new(),
        };
        let ghost lpre = list.deep_view();
        proof {
            lemma_vec_u8_deep(name);
        }
        list.push(name);
        proof {
            assert(list.deep_view() =~= lpre.push(canon(subdomain@)));
        }
        self.subdomain_index.set(top, list);
        proof {
            lemma_lease_inv(old(self)@, top_of(canon(subdomain@)), now);
            lemma_inv_same_tables(s1, spec_add_subdomain(old(self)@, who, subdomain@, now).0);
            let s2 = spec_add_subdomain(old(self)@, who, subdomain@, now).0;
            assert(self@.subdomains =~~= s2.subdomains);
            assert(self@ =~~= s2);
        }
        Ok(())
    }

    /// Detaches every occurrence of a subdomain from its top domain and
    /// purges its record store.
    pub fn delete_subdomain(&mut self, who: u64, subdomain: Vec<u8>) -> (r: Result<(), Error>)
        requires
            old(self).inv(),
            subdomain@.len() == 32,
        ensures
            final(self).inv(),
            ({
                let (s2, rr) = spec_delete_subdomain(old(self)@, who, subdomain@);
                final(self)@ == s2 && r == rr
            }),
    {
        let parsed = normalize(&subdomain, true);
        let (name, len) = match parsed {
            Ok(p) => p,
            Err(_) => {
                return Err(Error::ErrorData);
            },
        };
        if len == 0 {
            return Err(Error::ErrorData);
        }
        proof {
            lemma_canon_idempotent(subdomain@, true);
        }
        let top = get_top(&name, len);
        let found = self.registry.get(&top);
        let info = match found {
            Some(i) => *i,
            None => {
                return Err(Error::NoDomain);
            },
        };
        if info.owner != who {
            return Err(Error::NotDomainOwner);
        }
        let list = match self.subdomain_index.take_value(&top) {
            Some(l) => l,
            None => {
                return Err(Error::NoDomain);
            },
        };
        let retained = retain_names(list, &name);
        self.subdomain_index.set(top, retained);
        self.record_store.remove_key(&name);
        proof {
            lemma_inv_same_tables(
                old(self)@,
                spec_delete_subdomain(old(self)@, who, subdomain@).0,
            );
            assert(self@ =~= spec_delete_subdomain(old(self)@, who, subdomain@).0);
        }
        Ok(())
    }

    /// Attaches a resource record to a registered subdomain.
    pub fn add_record(
        &mut self,
        who: u64,
        domain: Vec<u8>,
        rr_type: Type,
        ip: Vec<u8>,
        ttl: u32,
        now: u128,
    ) -> (r: Result<(), Error>)
        requires
            old(self).inv(),
            domain@.len() == 32,
        ensures
            final(self).inv(),
            ({
                let (s2, rr) = spec_add_record(old(self)@, who, domain@, rr_type, ip@, ttl, now);
                final(self)@ == s2 && r == rr
            }),
    {
        let parsed = normalize(&domain, true);
        let (name, len) = match parsed {
            Ok(p) => p,
            Err(_) => {
                return Err(Error::ErrorData);
            },
        };
        if len == 0 {
            return Err(Error::ErrorData);
        }
        proof {
            lemma_buf_len_bounds(domain@);
            lemma_canon_idempotent(domain@, true);
        }
        let top = get_top(&name, len);
        let found = self.registry.get(&top);
        let info = match found {
            Some(i) => *i,
            None => {
                return Err(Error::NoDomain);
            },
        };
        if info.owner != who {
            return Err(Error::NotDomainOwner);
        }
        let registered = match self.subdomain_index.get(&top) {
            Some(list) => list_contains(list, &name),
            None => {
                return Err(Error::NoDomain);
            },
        };
        if !registered {
            return Err(Error::NoDomain);
        }
        self.lease_check(&name, len, now);
        let ghost s1 = spec_lease(old(self)@, canon(domain@), now);
        let mut list = match self.record_store.take_value(&name) {
            Some(l) => l,
            None => Vec::new(),
        };
        let ghost lpre = list.deep_view();
        let rec = Record { rr_type, ip, ttl };
        proof {
            lemma_vec_u8_deep(rec.ip);
        }
        list.push(rec);
        proof {
            assert(list.deep_view() =~= lpre.push(RecordView { rr_type, ip: ip@, ttl }));
        }
        self.record_store.set(name, list);
        proof {
            lemma_lease_inv(old(self)@, canon(domain@), now);
            lemma_inv_same_tables(
                s1,
                spec_add_record(old(self)@, who, domain@, rr_type, ip@, ttl, now).0,
            );
            let s2 = spec_add_record(old(self)@, who, domain@, rr_type, ip@, ttl, now).0;
            assert(self@.records =~~= s2.records);
            assert(self@ =~~= s2);
        }
        Ok(())
    }

    /// Removes every record matching `(rr_type, ip)` from a subdomain; an
    /// emptied record list loses its entry outright.
    pub fn delete_record(&mut self, who: u64, domain: Vec<u8>, rr_type: Type, ip: Vec<u8>) -> (r:
        Result<(), Error>)
        requires
            old(self).inv(),
            domain@.len() == 32,
        ensures
            final(self).inv(),
            ({
                let (s2, rr) = spec_delete_record(old(self)@, who, domain@, rr_type, ip@);
                final(self)@ == s2 && r == rr
            }),
    {
        let parsed = normalize(&domain, true);
        let (name, len) = match parsed {
            Ok(p) => p,
            Err(_) => {
                return Err(Error::ErrorData);
            },
        };
        if len == 0 {
            return Err(Error::ErrorData);
        }
        proof {
            lemma_canon_idempotent(domain@, true);
        }
        let top = get_top(&name, len);
        let found = self.registry.get(&top);
        let info = match found {
            Some(i) => *i,
            None => {
                return Err(Error::NoDomain);
            },
        };
        if info.owner != who {
            return Err(Error::NotDomainOwner);
        }
        let list = match self.record_store.take_value(&name) {
            Some(l) => l,
            None => {
                return Err(Error::NoDomain);
            },
        };
        let retained = retain_records(list, rr_type, &ip);
        if retained.len() == 0 {
            proof {
                assert(strip_records(old(self)@.records[canon(domain@)], rr_type, ip@).len()
                    == 0);
            }
        } else {
            self.record_store.set(name, retained);
        }
        proof {
            lemma_inv_same_tables(old(self)@, spec_delete_record(old(self)@, who, domain@, rr_type, ip@).0);
            assert(self@ =~= spec_delete_record(old(self)@, who, domain@, rr_type, ip@).0);
        }
        Ok(())
    }

    /// Withdraws a top domain: a silent no-op when it is not registered;
    /// otherwise the caller must be the owner, the admin or the system, and
    /// the domain is fully reclaimed.
    pub fn withdraw(&mut self, auth: Auth, domain: Vec<u8>) -> (r: Result<(), Error>)
        requires
            old(self).inv(),
            domain@.len() == 32,
        ensures
            final(self).inv(),
            ({
                let (s2, rr) = spec_withdraw(old(self)@, auth, domain@);
                final(self)@ == s2 && r == rr
            }),
    {
        let parsed = normalize(&domain, true);
        let (name, len) = match parsed {
            Ok(p) => p,
            Err(_) => {
                return Err(Error::ErrorData);
            },
        };
        if len == 0 {
            return Err(Error::ErrorData);
        }
        proof {
            lemma_canon_idempotent(domain@, true);
        }
        let top = get_top(&name, len);
        let found = self.registry.get(&top);
        let info = match found {
            Some(i) => *i,
            None => {
                return Ok(());
            },
        };
        let allowed = match auth {
            Auth::System => true,
            Auth::User(a) => a == info.owner || a == self.admin_acct,
        };
        if !allowed {
            return Err(Error::ErrorData);
        }
        self.reclaim_top(&top);
        Ok(())
    }

    /// The public lease check: normalizes the name and runs the lazy expiry
    /// protocol on its top-level suffix.
    pub fn exist(&mut self, domain: Vec<u8>, now: u128) -> (r: Result<(), Error>)
        requires
            old(self).inv(),
            domain@.len() == 32,
        ensures
            final(self).inv(),
            ({
                let (s2, rr) = spec_exist(old(self)@, domain@, now);
                final(self)@ == s2 && r == rr
            }),
    {
        let parsed = normalize(&domain, true);
        let (name, len) = match parsed {
            Ok(p) => p,
            Err(_) => {
                return Err(Error::ErrorData);
            },
        };
        if len == 0 {
            return Err(Error::ErrorData);
        }
        proof {
            lemma_buf_len_bounds(domain@);
            lemma_canon_idempotent(domain@, true);
        }
        self.lease_check(&name, len, now);
        Ok(())
    }

    /// Transfers a registered domain to another account, leaving its lease
    /// window untouched. An elapsed lease is reclaimed instead.
    pub fn transfer(&mut self, who: u64, domain: Vec<u8>, to: u64, now: u128) -> (r: Result<
        (),
        Error,
    >)
        requires
            old(self).inv(),
            domain@.len() == 32,
        ensures
            final(self).inv(),
            ({
                let (s2, rr) = spec_transfer(old(self)@, who, domain@, to, now);
                final(self)@ == s2 && r == rr
            }),
    {
        let parsed = normalize(&domain, true);
        let (name, len) = match parsed {
            Ok(p) => p,
            Err(_) => {
                return Err(Error::ErrorData);
            },
        };
        if len == 0 {
            return Err(Error::ErrorData);
        }
        proof {
            lemma_buf_len_bounds(domain@);
            lemma_canon_idempotent(domain@, true);
            lemma_transfer_inv(old(self)@, who, domain@, to, now);
        }
        self.lease_check(&name, len, now);
        let ghost s1 = spec_lease(old(self)@, canon(domain@), now);
        let found = self.registry.get(&name);
        let info = match found {
            Some(i) => *i,
            None => {
                return Err(Error::NoDomain);
            },
        };
        if info.owner != who {
            return Err(Error::NotDomainOwner);
        }
        proof {
            assert(s1.accounts.contains_key(who) && s1.accounts[who].contains(canon(domain@)));
        }
        let lw = self.account_index.take_value(who).unwrap();
        proof {
            lemma_name_list_deep(lw);
        }
        let rw = retain_names(lw, &name);
        self.account_index.set(who, rw);
        let ghost acc1 = s1.accounts.insert(who, remove_name(acct_list(s1, who), canon(domain@)));
        proof {
            assert(self.account_index@ =~= acc1);
        }
        let mut lt = match self.account_index.take_value(to) {
            Some(l) => l,
            None => Vec::new(),
        };
        let ghost lpre = lt.deep_view();
        let entry = copy_name(&name);
        proof {
            lemma_vec_u8_deep(entry);
        }
        lt.push(entry);
        proof {
            assert(lt.deep_view() =~= lpre.push(canon(domain@)));
        }
        self.account_index.set(to, lt);
        let moved = DomainInfo {
            owner: to,
            lease_start: info.lease_start,
            lease_duration: info.lease_duration,
        };
        self.registry.set(name, moved);
        proof {
            let s2 = spec_transfer(old(self)@, who, domain@, to, now).0;
            assert(self@.domains =~~= s2.domains);
            assert(self@.accounts =~~= s2.accounts);
            assert(self@ =~~= s2);
        }
        Ok(())
    }

    /// The sample call kept by the pallet: logs an event, nothing more.
    pub fn do_something(&mut self, who: u64, something: u32) -> (r: Result<(), Error>)
        requires
            old(self).inv(),
        ensures
            final(self).inv(),
            ({
                let (s2, rr) = spec_do_something(old(self)@, who, something);
                final(self)@ == s2 && r == rr
            }),
    {
        let ghost epre = self.event_log.deep_view();
        self.event_log.push(Event::SomethingStored(something, who));
        proof {
            assert(self.event_log.deep_view() =~= epre.push(EventView::SomethingStored(
                something,
                who,
            )));
            lemma_inv_same_tables(old(self)@, spec_do_something(old(self)@, who, something).0);
            assert(self@ =~= spec_do_something(old(self)@, who, something).0);
        }
        Ok(())
    }

    /// The sample error path kept by the pallet: does nothing.
    pub fn cause_error(&self, who: u64) -> (r: Result<(), Error>)
        ensures
            r == Ok::<(), Error>(()),
    {
        let _ = who;
        Ok(())
    }

    /// Looks a top domain up in the registry.
    pub fn domains(&self, name: &Vec<u8>) -> (r: Option<&DomainInfo>)
        requires
            self.inv(),
        ensures
            match r {
                Some(i) => self@.domains.contains_key(name@) && *i == self@.domains[name@],
                None => !self@.domains.contains_key(name@),
            },
    {
        self.registry.get(name)
    }

    /// Looks an account's owned-name list up.
    pub fn accounts(&self, who: u64) -> (r: Option<&Vec<Vec<u8>>>)
        requires
            self.inv(),
        ensures
            match r {
                Some(l) => self@.accounts.contains_key(who) && l.deep_view() == self@.accounts[who],
                None => !self@.accounts.contains_key(who),
            },
    {
        self.account_index.get(who)
    }

    /// Looks a top domain's subdomain list up.
    pub fn subdomains(&self, top: &Vec<u8>) -> (r: Option<&Vec<Vec<u8>>>)
        requires
            self.inv(),
        ensures
            match r {
                Some(l) => self@.subdomains.contains_key(top@) && l.deep_view()
                    == self@.subdomains[top@],
                None => !self@.subdomains.contains_key(top@),
            },
    {
        self.subdomain_index.get(top)
    }

    /// Looks a subdomain's record list up.
    pub fn records(&self, name: &Vec<u8>) -> (r: Option<&Vec<Record>>)
        requires
            self.inv(),
        ensures
            match r {
                Some(l) => self@.records.contains_key(name@) && l.deep_view()
                    == self@.records[name@],
                None => !self@.records.contains_key(name@),
            },
    {
        self.record_store.get(name)
    }

    /// The admin account.
    pub fn admin(&self) -> (a: u64)
        ensures
            a == self@.admin,
    {
        self.admin_acct
    }

    /// The event log so far.
    pub fn events(&self) -> (e: &Vec<Event>)
        ensures
            e.deep_view() == self@.events,
    {
        &self.event_log
    }
}

} // verus!
