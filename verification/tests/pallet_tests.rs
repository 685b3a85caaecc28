use identity_bridge::pallet::{Pallet, Error, Event, IdentityRecord};

fn digest(b: u8) -> [u8; 32] {
    [b; 32]
}

const GOV: [u8; 32] = [9u8; 32];
const RECV: [u8; 32] = [8u8; 32];
const FEE: u64 = 10;

fn funded_pallet() -> Pallet {
    let mut p = Pallet::new(GOV, FEE, RECV);
    assert!(p.add_issuer(&GOV, digest(1)).is_ok());
    assert!(p.add_schema(&GOV, digest(2)).is_ok());
    assert!(p.deposit(&digest(1), 100));
    p
}

#[test]
fn governance_gates_the_whitelists() {
    let mut p = Pallet::new(GOV, FEE, RECV);
    assert_eq!(p.add_issuer(&digest(1), digest(1)).unwrap_err(), Error::BadOrigin);
    assert_eq!(p.add_schema(&digest(1), digest(2)).unwrap_err(), Error::BadOrigin);
    assert!(p.add_issuer(&GOV, digest(1)).is_ok());
    assert!(p.add_schema(&GOV, digest(2)).is_ok());
    assert_eq!(p.events[0], Event::IssuerAdded { issuer: digest(1) });
    assert_eq!(p.events[1], Event::SchemaAdded { hash: digest(2) });
    // re-adding is a no-op for the whitelist, but still acknowledged
    assert!(p.add_issuer(&GOV, digest(1)).is_ok());
    assert_eq!(p.issuers.len(), 1);
    assert_eq!(p.events.len(), 3);
}

#[test]
fn issuance_scenario() {
    let issuer = digest(1);
    let schema = digest(2);
    let data = digest(3);
    let did = digest(4);
    let mut p = funded_pallet();

    assert!(p.issue_identity(&issuer, did, schema, data).is_ok());
    assert_eq!(p.size(), 1);
    let root = p.root();
    assert_eq!(
        p.record_of(&did),
        Some(IdentityRecord { did, active: true, leaf_index: 0 })
    );
    assert_eq!(p.balance_of(&issuer), 90);
    assert_eq!(p.balance_of(&RECV), 10);
    let n = p.events.len();
    assert_eq!(p.events[n - 2], Event::FeePaid { who: issuer, amount: FEE });
    assert_eq!(p.events[n - 1], Event::IdentityIssued { did, index: 0, root });

    // a second issuance of the same did fails and moves nothing
    let size_before = p.size();
    let events_before = p.events.len();
    assert_eq!(
        p.issue_identity(&issuer, did, schema, data).unwrap_err(),
        Error::AlreadyExists
    );
    assert_eq!(p.size(), size_before);
    assert_eq!(p.root(), root);
    assert_eq!(p.events.len(), events_before);
    assert_eq!(p.balance_of(&issuer), 90);
}

#[test]
fn issue_checks_run_in_order() {
    let issuer = digest(1);
    let schema = digest(2);
    let mut p = funded_pallet();
    assert_eq!(
        p.issue_identity(&digest(7), digest(4), schema, digest(3)).unwrap_err(),
        Error::NotAuthorizedIssuer
    );
    assert_eq!(
        p.issue_identity(&issuer, digest(4), digest(7), digest(3)).unwrap_err(),
        Error::InvalidSchema
    );
    // an authorized but unfunded issuer is stopped by the fee
    assert!(p.add_issuer(&GOV, digest(5)).is_ok());
    assert_eq!(
        p.issue_identity(&digest(5), digest(4), schema, digest(3)).unwrap_err(),
        Error::InsufficientBalance
    );
    assert_eq!(p.size(), 0);
    assert_eq!(p.record_of(&digest(4)), None);
}

#[test]
fn revocation_is_terminal_and_preserves_history() {
    let issuer = digest(1);
    let schema = digest(2);
    let did = digest(4);
    let mut p = funded_pallet();
    assert!(p.issue_identity(&issuer, did, schema, digest(3)).is_ok());
    let root = p.root();
    let size = p.size();

    assert_eq!(p.revoke_identity(&digest(7), did).unwrap_err(), Error::NotAuthorizedIssuer);
    assert_eq!(p.revoke_identity(&issuer, digest(9)).unwrap_err(), Error::NotFound);

    assert!(p.revoke_identity(&issuer, did).is_ok());
    // only the active flag changed: the leaf, the root and the size stay
    assert_eq!(p.root(), root);
    assert_eq!(p.size(), size);
    assert_eq!(
        p.record_of(&did),
        Some(IdentityRecord { did, active: false, leaf_index: 0 })
    );
    assert_eq!(*p.events.last().unwrap(), Event::IdentityRevoked { did });

    // revoking again is refused, and the did can never be reissued
    assert_eq!(p.revoke_identity(&issuer, did).unwrap_err(), Error::AlreadyExists);
    assert_eq!(
        p.issue_identity(&issuer, did, schema, digest(3)).unwrap_err(),
        Error::AlreadyExists
    );
    assert_eq!(p.root(), root);
    assert_eq!(p.size(), size);
}

#[test]
fn fees_are_conserved() {
    let issuer = digest(1);
    let mut p = funded_pallet();
    assert!(p.issue_identity(&issuer, digest(4), digest(2), digest(3)).is_ok());
    assert!(p.issue_identity(&issuer, digest(5), digest(2), digest(3)).is_ok());
    assert_eq!(p.balance_of(&issuer), 80);
    assert_eq!(p.balance_of(&RECV), 20);
    assert_eq!(p.size(), 2);
    assert_eq!(p.record_of(&digest(5)), Some(IdentityRecord { did: digest(5), active: true, leaf_index: 1 }));
}
