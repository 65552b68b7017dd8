use dns_registry::price::{cost, MAX_DURATION, MIN_DURATION};
use dns_registry::registry::{GenesisConfig, Pallet};
use dns_registry::name::normalize;
use dns_registry::types::{Auth, Error, Event, Type};

const ADMIN: u64 = 99;
const ALICE: u64 = 1;
const BOB: u64 = 2;
const RICH: u128 = 1_000_000_000_000_000;

fn buf(s: &str) -> Vec<u8> {
    let mut v: Vec<u8> = s.as_bytes().to_vec();
    assert!(v.len() <= 32);
    while v.len() < 32 {
        v.push(0);
    }
    v
}

fn fresh() -> Pallet {
    GenesisConfig { admin: ADMIN }.build()
}

#[test]
fn normalize_mixed_case_scenario() {
    let raw = buf("EXAMPLE.com");
    let (canon, len) = normalize(&raw, true).unwrap();
    assert_eq!(len, 11);
    assert_eq!(canon, buf("example.com"));
}

#[test]
fn normalize_idempotent_on_canonical() {
    let raw = buf("example.com");
    let (canon, len) = normalize(&raw, true).unwrap();
    assert_eq!(len, 11);
    assert_eq!(canon, raw);
    let (again, len2) = normalize(&canon, true).unwrap();
    assert_eq!(len2, 11);
    assert_eq!(again, canon);
}

#[test]
fn normalize_rejects_bad_bytes() {
    let mut raw = buf("abcd");
    raw[2] = 58; // ':'
    assert_eq!(normalize(&raw, true), Err(Error::ErrorData));
    let mut raw2 = buf("abcd");
    raw2[1] = 95; // '_'
    assert_eq!(normalize(&raw2, false), Err(Error::ErrorData));
}

#[test]
fn normalize_strict_rejects_dot() {
    let raw = buf("ab.cd");
    assert_eq!(normalize(&raw, false), Err(Error::ErrorData));
    assert!(normalize(&raw, true).is_ok());
}

#[test]
fn normalize_empty_buffer() {
    let raw = buf("");
    let (canon, len) = normalize(&raw, true).unwrap();
    assert_eq!(len, 0);
    assert_eq!(canon, vec![0u8; 32]);
}

#[test]
fn pricing_formula() {
    assert_eq!(cost(4, 700_000_000), 700_000_000 * 28 * 10);
    assert_eq!(cost(32, MAX_DURATION), 0);
    assert_eq!(cost(11, 1_000_000_000), 1_000_000_000 * 21 * 10);
}

#[test]
fn register_duration_boundaries() {
    let mut p = fresh();
    assert_eq!(
        p.register(ALICE, buf("test"), MIN_DURATION - 1, 1000, RICH),
        Err(Error::ErrorData)
    );
    assert_eq!(
        p.register(ALICE, buf("test"), MAX_DURATION + 1, 1000, RICH),
        Err(Error::ErrorData)
    );
    assert_eq!(p.register(ALICE, buf("test"), MIN_DURATION, 1000, RICH), Ok(()));
}

#[test]
fn register_length_boundaries() {
    let mut p = fresh();
    assert_eq!(p.register(ALICE, buf("abc"), MIN_DURATION, 1000, RICH), Err(Error::ErrorData));
    assert_eq!(p.register(ALICE, buf("abcd"), MIN_DURATION, 1000, RICH), Ok(()));
}

#[test]
fn register_rejects_dotted_name() {
    let mut p = fresh();
    assert_eq!(
        p.register(ALICE, buf("ab.cd"), MIN_DURATION, 1000, RICH),
        Err(Error::ErrorData)
    );
}

#[test]
fn register_folds_case() {
    let mut p = fresh();
    assert_eq!(p.register(ALICE, buf("TEST"), MIN_DURATION, 1000, RICH), Ok(()));
    let info = p.domains(&buf("test")).unwrap();
    assert_eq!(info.owner, ALICE);
    assert_eq!(info.lease_start, 1000);
    assert_eq!(info.lease_duration, MIN_DURATION);
    assert!(p.domains(&buf("TEST")).is_none());
}

#[test]
fn register_twice_fails() {
    let mut p = fresh();
    assert_eq!(p.register(ALICE, buf("test"), MIN_DURATION, 1000, RICH), Ok(()));
    assert_eq!(
        p.register(BOB, buf("test"), MIN_DURATION, 2000, RICH),
        Err(Error::DomainAlreadyExist)
    );
    assert_eq!(p.domains(&buf("test")).unwrap().owner, ALICE);
}

#[test]
fn register_insufficient_balance() {
    let mut p = fresh();
    let c = cost(4, MIN_DURATION);
    assert_eq!(
        p.register(ALICE, buf("test"), MIN_DURATION, 1000, c - 1),
        Err(Error::ErrorBalance)
    );
    assert!(p.domains(&buf("test")).is_none());
    // Draining the account to exactly zero is allowed.
    assert_eq!(p.register(ALICE, buf("test"), MIN_DURATION, 1000, c), Ok(()));
}

#[test]
fn register_updates_account_index() {
    let mut p = fresh();
    assert_eq!(p.register(ALICE, buf("test"), MIN_DURATION, 1000, RICH), Ok(()));
    let owned = p.accounts(ALICE).unwrap();
    assert_eq!(owned.len(), 1);
    assert_eq!(owned[0], buf("test"));
    let events = p.events();
    assert_eq!(events.last().unwrap(), &Event::Register(buf("test"), ALICE));
}

#[test]
fn lease_round_trip() {
    let mut p = fresh();
    assert_eq!(p.register(ALICE, buf("test"), MIN_DURATION, 1000, RICH), Ok(()));
    // Before the lease end the registry is left unchanged.
    assert_eq!(p.exist(buf("test"), 1000 + MIN_DURATION - 1), Ok(()));
    assert_eq!(p.domains(&buf("test")).unwrap().owner, ALICE);
    // At the lease end the reclaim path removes it.
    assert_eq!(p.exist(buf("test"), 1000 + MIN_DURATION), Ok(()));
    assert!(p.domains(&buf("test")).is_none());
    assert!(p.accounts(ALICE).is_none());
    // A fresh registration of the same name now succeeds.
    assert_eq!(p.register(BOB, buf("test"), MIN_DURATION, 5000, RICH), Ok(()));
    assert_eq!(p.domains(&buf("test")).unwrap().owner, BOB);
}

#[test]
fn expired_domain_reclaimed_inside_register() {
    let mut p = fresh();
    assert_eq!(p.register(ALICE, buf("test"), MIN_DURATION, 1000, RICH), Ok(()));
    let later = 1000 + MIN_DURATION;
    assert_eq!(p.register(BOB, buf("test"), MIN_DURATION, later, RICH), Ok(()));
    let info = p.domains(&buf("test")).unwrap();
    assert_eq!(info.owner, BOB);
    assert_eq!(info.lease_start, later);
}

#[test]
fn exist_rejects_empty_name() {
    let mut p = fresh();
    assert_eq!(p.exist(buf(""), 1000), Err(Error::ErrorData));
}

#[test]
fn exist_logs_events() {
    let mut p = fresh();
    assert_eq!(p.exist(buf("nothere"), 1000), Ok(()));
    assert_eq!(p.events().last().unwrap(), &Event::NoDomain(buf("nothere")));
    assert_eq!(p.register(ALICE, buf("test"), MIN_DURATION, 1000, RICH), Ok(()));
    assert_eq!(p.exist(buf("test"), 2000), Ok(()));
    assert_eq!(p.events().last().unwrap(), &Event::ExistDomain(buf("test")));
}

#[test]
fn add_subdomain_requires_registered_owner() {
    let mut p = fresh();
    assert_eq!(p.add_subdomain(ALICE, buf("mail.example"), 1000), Err(Error::NoDomain));
    assert_eq!(p.register(ALICE, buf("example"), MIN_DURATION, 1000, RICH), Ok(()));
    assert_eq!(p.add_subdomain(BOB, buf("mail.example"), 1000), Err(Error::NotDomainOwner));
    assert_eq!(p.add_subdomain(ALICE, buf("mail.example"), 1000), Ok(()));
    let subs = p.subdomains(&buf("example")).unwrap();
    assert_eq!(subs.len(), 1);
    assert_eq!(subs[0], buf("mail.example"));
}

#[test]
fn add_subdomain_keeps_duplicates() {
    let mut p = fresh();
    assert_eq!(p.register(ALICE, buf("example"), MIN_DURATION, 1000, RICH), Ok(()));
    assert_eq!(p.add_subdomain(ALICE, buf("mail.example"), 1000), Ok(()));
    assert_eq!(p.add_subdomain(ALICE, buf("mail.example"), 1000), Ok(()));
    assert_eq!(p.subdomains(&buf("example")).unwrap().len(), 2);
}

#[test]
fn add_subdomain_rejects_trailing_dot() {
    let mut p = fresh();
    assert_eq!(p.register(ALICE, buf("example"), MIN_DURATION, 1000, RICH), Ok(()));
    // The top-level suffix of "example." is empty.
    assert_eq!(p.add_subdomain(ALICE, buf("example."), 1000), Err(Error::ErrorData));
}

#[test]
fn delete_subdomain_removes_every_occurrence() {
    let mut p = fresh();
    assert_eq!(p.register(ALICE, buf("example"), MIN_DURATION, 1000, RICH), Ok(()));
    assert_eq!(p.add_subdomain(ALICE, buf("mail.example"), 1000), Ok(()));
    assert_eq!(p.add_subdomain(ALICE, buf("www.example"), 1000), Ok(()));
    assert_eq!(p.add_subdomain(ALICE, buf("mail.example"), 1000), Ok(()));
    assert_eq!(
        p.add_record(ALICE, buf("mail.example"), Type::MX, vec![1, 2, 3, 4], 60, 1000),
        Ok(())
    );
    assert_eq!(p.delete_subdomain(ALICE, buf("mail.example")), Ok(()));
    let subs = p.subdomains(&buf("example")).unwrap();
    assert_eq!(subs.len(), 1);
    assert_eq!(subs[0], buf("www.example"));
    assert!(p.records(&buf("mail.example")).is_none());
}

#[test]
fn delete_subdomain_errors() {
    let mut p = fresh();
    assert_eq!(p.delete_subdomain(ALICE, buf("mail.example")), Err(Error::NoDomain));
    assert_eq!(p.register(ALICE, buf("example"), MIN_DURATION, 1000, RICH), Ok(()));
    assert_eq!(p.delete_subdomain(BOB, buf("mail.example")), Err(Error::NotDomainOwner));
    assert_eq!(p.delete_subdomain(ALICE, buf("mail.example")), Err(Error::NoDomain));
}

#[test]
fn add_record_requires_registered_subdomain() {
    let mut p = fresh();
    assert_eq!(p.register(ALICE, buf("example"), MIN_DURATION, 1000, RICH), Ok(()));
    assert_eq!(
        p.add_record(ALICE, buf("mail.example"), Type::A, vec![127, 0, 0, 1], 60, 1000),
        Err(Error::NoDomain)
    );
    assert_eq!(p.add_subdomain(ALICE, buf("www.example"), 1000), Ok(()));
    assert_eq!(
        p.add_record(ALICE, buf("mail.example"), Type::A, vec![127, 0, 0, 1], 60, 1000),
        Err(Error::NoDomain)
    );
    assert_eq!(
        p.add_record(BOB, buf("www.example"), Type::A, vec![127, 0, 0, 1], 60, 1000),
        Err(Error::NotDomainOwner)
    );
    assert_eq!(
        p.add_record(ALICE, buf("www.example"), Type::A, vec![127, 0, 0, 1], 60, 1000),
        Ok(())
    );
    let recs = p.records(&buf("www.example")).unwrap();
    assert_eq!(recs.len(), 1);
    assert_eq!(recs[0].rr_type, Type::A);
    assert_eq!(recs[0].ip, vec![127, 0, 0, 1]);
    assert_eq!(recs[0].ttl, 60);
}

#[test]
fn delete_record_empties_entry() {
    let mut p = fresh();
    assert_eq!(p.register(ALICE, buf("example"), MIN_DURATION, 1000, RICH), Ok(()));
    assert_eq!(p.add_subdomain(ALICE, buf("www.example"), 1000), Ok(()));
    assert_eq!(
        p.add_record(ALICE, buf("www.example"), Type::A, vec![10, 0, 0, 1], 60, 1000),
        Ok(())
    );
    assert_eq!(
        p.add_record(ALICE, buf("www.example"), Type::CNAME, vec![7], 60, 1000),
        Ok(())
    );
    // Removing one kind leaves the other.
    assert_eq!(
        p.delete_record(ALICE, buf("www.example"), Type::A, vec![10, 0, 0, 1]),
        Ok(())
    );
    let recs = p.records(&buf("www.example")).unwrap();
    assert_eq!(recs.len(), 1);
    assert_eq!(recs[0].rr_type, Type::CNAME);
    // Removing the last one removes the entry outright.
    assert_eq!(p.delete_record(ALICE, buf("www.example"), Type::CNAME, vec![7]), Ok(()));
    assert!(p.records(&buf("www.example")).is_none());
    // And a further delete reports the missing entry.
    assert_eq!(
        p.delete_record(ALICE, buf("www.example"), Type::CNAME, vec![7]),
        Err(Error::NoDomain)
    );
}

#[test]
fn delete_record_matches_type_and_value() {
    let mut p = fresh();
    assert_eq!(p.register(ALICE, buf("example"), MIN_DURATION, 1000, RICH), Ok(()));
    assert_eq!(p.add_subdomain(ALICE, buf("www.example"), 1000), Ok(()));
    assert_eq!(
        p.add_record(ALICE, buf("www.example"), Type::A, vec![10, 0, 0, 1], 60, 1000),
        Ok(())
    );
    assert_eq!(
        p.add_record(ALICE, buf("www.example"), Type::A, vec![10, 0, 0, 2], 60, 1000),
        Ok(())
    );
    assert_eq!(
        p.add_record(ALICE, buf("www.example"), Type::A, vec![10, 0, 0, 1], 90, 1000),
        Ok(())
    );
    // Both records with the matching (type, value) go, whatever their ttl.
    assert_eq!(
        p.delete_record(ALICE, buf("www.example"), Type::A, vec![10, 0, 0, 1]),
        Ok(())
    );
    let recs = p.records(&buf("www.example")).unwrap();
    assert_eq!(recs.len(), 1);
    assert_eq!(recs[0].ip, vec![10, 0, 0, 2]);
}

#[test]
fn cascading_withdraw() {
    let mut p = fresh();
    assert_eq!(p.register(ALICE, buf("example"), MIN_DURATION, 1000, RICH), Ok(()));
    assert_eq!(p.add_subdomain(ALICE, buf("mail.example"), 1000), Ok(()));
    assert_eq!(
        p.add_record(ALICE, buf("mail.example"), Type::MX, vec![5, 5, 5, 5], 60, 1000),
        Ok(())
    );
    assert_eq!(p.withdraw(Auth::User(ALICE), buf("example")), Ok(()));
    assert!(p.domains(&buf("example")).is_none());
    assert!(p.subdomains(&buf("example")).is_none());
    assert!(p.records(&buf("mail.example")).is_none());
    assert!(p.accounts(ALICE).is_none());
    assert_eq!(p.events().last().unwrap(), &Event::Withdraw(buf("example")));
}

#[test]
fn withdraw_keeps_other_domains_of_owner() {
    let mut p = fresh();
    assert_eq!(p.register(ALICE, buf("first"), MIN_DURATION, 1000, RICH), Ok(()));
    assert_eq!(p.register(ALICE, buf("second"), MIN_DURATION, 1000, RICH), Ok(()));
    assert_eq!(p.withdraw(Auth::User(ALICE), buf("first")), Ok(()));
    assert!(p.domains(&buf("first")).is_none());
    assert!(p.domains(&buf("second")).is_some());
    let owned = p.accounts(ALICE).unwrap();
    assert_eq!(owned.len(), 1);
    assert_eq!(owned[0], buf("second"));
}

#[test]
fn withdraw_authorization() {
    let mut p = fresh();
    assert_eq!(p.register(ALICE, buf("example"), MIN_DURATION, 1000, RICH), Ok(()));
    assert_eq!(p.withdraw(Auth::User(BOB), buf("example")), Err(Error::ErrorData));
    assert!(p.domains(&buf("example")).is_some());
    // The admin may force-withdraw any domain.
    assert_eq!(p.withdraw(Auth::User(ADMIN), buf("example")), Ok(()));
    assert!(p.domains(&buf("example")).is_none());
}

#[test]
fn withdraw_absent_is_silent() {
    let mut p = fresh();
    assert_eq!(p.withdraw(Auth::User(ALICE), buf("ghost")), Ok(()));
    assert_eq!(p.withdraw(Auth::System, buf("ghost")), Ok(()));
}

#[test]
fn withdraw_by_subdomain_name_hits_top() {
    let mut p = fresh();
    assert_eq!(p.register(ALICE, buf("example"), MIN_DURATION, 1000, RICH), Ok(()));
    assert_eq!(p.add_subdomain(ALICE, buf("mail.example"), 1000), Ok(()));
    // A dotted name resolves to its top-level suffix.
    assert_eq!(p.withdraw(Auth::User(ALICE), buf("mail.example")), Ok(()));
    assert!(p.domains(&buf("example")).is_none());
}

#[test]
fn transfer_preserves_lease() {
    let mut p = fresh();
    assert_eq!(p.register(ALICE, buf("example"), MIN_DURATION, 1234, RICH), Ok(()));
    assert_eq!(p.transfer(ALICE, buf("example"), BOB, 2000), Ok(()));
    let info = p.domains(&buf("example")).unwrap();
    assert_eq!(info.owner, BOB);
    assert_eq!(info.lease_start, 1234);
    assert_eq!(info.lease_duration, MIN_DURATION);
    let bobs = p.accounts(BOB).unwrap();
    assert_eq!(bobs.len(), 1);
    assert_eq!(bobs[0], buf("example"));
    // The old owner's entry stays, emptied: only withdrawal deletes it.
    assert_eq!(p.accounts(ALICE).unwrap().len(), 0);
}

#[test]
fn transfer_errors() {
    let mut p = fresh();
    assert_eq!(p.transfer(ALICE, buf("ghost"), BOB, 1000), Err(Error::NoDomain));
    assert_eq!(p.register(ALICE, buf("example"), MIN_DURATION, 1000, RICH), Ok(()));
    assert_eq!(p.transfer(BOB, buf("example"), ALICE, 2000), Err(Error::NotDomainOwner));
}

#[test]
fn transfer_of_expired_domain_reclaims_it() {
    let mut p = fresh();
    assert_eq!(p.register(ALICE, buf("example"), MIN_DURATION, 1000, RICH), Ok(()));
    let later = 1000 + MIN_DURATION;
    assert_eq!(p.transfer(ALICE, buf("example"), BOB, later), Err(Error::NoDomain));
    assert!(p.domains(&buf("example")).is_none());
    assert!(p.accounts(BOB).is_none());
}

#[test]
fn register_full_length_name_is_free() {
    let mut p = fresh();
    let name = "abcdefghijklmnopqrstuvwxyz012345";
    assert_eq!(name.len(), 32);
    // A 32-byte name has no headroom under the cap, so its cost is zero and
    // even an empty account can register it.
    assert_eq!(p.register(ALICE, buf(name), MIN_DURATION, 1000, 0), Ok(()));
    assert_eq!(p.domains(&buf(name)).unwrap().owner, ALICE);
}

#[test]
fn genesis_and_samples() {
    let g = GenesisConfig::default();
    assert_eq!(g.admin, 0);
    let mut p = GenesisConfig { admin: ADMIN }.build();
    assert_eq!(p.admin(), ADMIN);
    assert!(p.events().is_empty());
    assert_eq!(p.do_something(ALICE, 7), Ok(()));
    assert_eq!(p.events().last().unwrap(), &Event::SomethingStored(7, ALICE));
    assert_eq!(p.cause_error(ALICE), Ok(()));
}
