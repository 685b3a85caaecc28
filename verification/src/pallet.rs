//! The attestation ledger: whitelists, per-identity status, fee
//! balances, the embedded accumulator, and the issued events.

use vstd::prelude::*;
use crate::hashing::{Digest, digest_eq};
use crate::attestation::{AttestationLeaf, leaf_digest, leaf_digest_spec};
use crate::mmr::{Mmr, mmr_root_spec};

verus! {

/// Why the ledger refuses an operation.
#[derive(Clone, Copy, PartialEq, Eq, Debug)]
pub enum Error {
    /// The identity has already been issued (revocation is terminal, so
    /// this also refuses re-issuing a revoked `did`), or an idempotence
    /// check failed.
    AlreadyExists,
    /// The identity was not found.
    NotFound,
    /// The caller is not a whitelisted issuer.
    NotAuthorizedIssuer,
    /// The schema is not whitelisted.
    InvalidSchema,
    /// Not enough funds to pay the issuance fee.
    InsufficientBalance,
    /// The caller is not the governance authority.
    BadOrigin,
}

/// What the ledger emits; kept in order of emission.
#[derive(Clone, Copy, PartialEq, Eq, Debug)]
pub enum Event {
    IdentityIssued { did: Digest, index: u64, root: Digest },
    IdentityRevoked { did: Digest },
    IssuerAdded { issuer: Digest },
    SchemaAdded { hash: Digest },
    FeePaid { who: Digest, amount: u64 },
}

/// Status of one `did`: created on first issuance, its leaf index is
/// permanent; only `active` ever changes, and only to `false`.
#[derive(Clone, Copy, PartialEq, Eq, Debug)]
pub struct IdentityRecord {
    pub did: Digest,
    pub active: bool,
    pub leaf_index: u64,
}

/// Whether a digest row holds `k`.
pub open spec fn contains_digest(v: Seq<Digest>, k: Seq<u8>) -> bool {
    exists|j: int| 0 <= j < v.len() && v[j]@ == k
}

/// Membership test for a digest row.
fn digest_in(v: &Vec<Digest>, k: &Digest) -> (r: bool)
    ensures
        r == contains_digest(v@, k@),
{
    let mut i: usize = 0;
    while i < v.len()
        invariant
            i <= v.len(),
            forall|j: int| 0 <= j < i ==> v@[j]@ != k@,
        decreases v@.len() - i,
    {
        if digest_eq(&v[i], k) {
            return true;
        }
        i += 1;
    }
    false
}

/// The balance held for `k` in an account row: the first matching entry,
/// or zero.
pub open spec fn bal_of(s: Seq<(Digest, u64)>, k: Seq<u8>) -> u64
    decreases s.len(),
{
    if s.len() == 0 {
        0
    } else if s[0].0@ == k {
        s[0].1
    } else {
        bal_of(s.drop_first(), k)
    }
}

/// The sum of all entries of an account row.
pub open spec fn total_of(s: Seq<(Digest, u64)>) -> int
    decreases s.len(),
{
    if s.len() == 0 {
        0
    } else {
        s[0].1 + total_of(s.drop_first())
    }
}

proof fn lemma_total_nonneg(s: Seq<(Digest, u64)>)
    ensures
        total_of(s) >= 0,
    decreases s.len(),
{
    if s.len() > 0 {
        lemma_total_nonneg(s.drop_first());
    }
}

/// A first-match entry is what `bal_of` reads.
proof fn lemma_bal_first(s: Seq<(Digest, u64)>, j: int, k: Seq<u8>)
    requires
        0 <= j < s.len(),
        s[j].0@ == k,
        forall|j2: int| 0 <= j2 < j ==> s[j2].0@ != k,
    ensures
        bal_of(s, k) == s[j].1,
    decreases j,
{
    if j > 0 {
        lemma_bal_first(s.drop_first(), j - 1, k);
    }
}

/// With no matching entry the balance reads zero.
proof fn lemma_bal_absent(s: Seq<(Digest, u64)>, k: Seq<u8>)
    requires
        forall|j: int| 0 <= j < s.len() ==> s[j].0@ != k,
    ensures
        bal_of(s, k) == 0,
    decreases s.len(),
{
    if s.len() > 0 {
        lemma_bal_absent(s.drop_first(), k);
    }
}

/// Overwriting the first-match entry moves exactly that key's balance.
proof fn lemma_bal_update(s: Seq<(Digest, u64)>, j: int, v2: u64)
    requires
        0 <= j < s.len(),
        forall|j2: int| 0 <= j2 < j ==> s[j2].0@ != s[j].0@,
    ensures
        forall|k2: Seq<u8>| #[trigger] bal_of(s.update(j, (s[j].0, v2)), k2) == if k2 == s[j].0@ {
            v2
        } else {
            bal_of(s, k2)
        },
        total_of(s.update(j, (s[j].0, v2))) == total_of(s) - s[j].1 + v2,
    decreases j,
{
    let t = s.update(j, (s[j].0, v2));
    if j == 0 {
        assert(t.drop_first() =~= s.drop_first());
        assert forall|k2: Seq<u8>| #[trigger] bal_of(t, k2) == (if k2 == s[j].0@ {
            v2
        } else {
            bal_of(s, k2)
        }) by {
            assert(t[0] == (s[0].0, v2));
        }
    } else {
        lemma_bal_update(s.drop_first(), j - 1, v2);
        assert(s.drop_first()[j - 1] == s[j]);
        assert(t.drop_first() =~= s.drop_first().update(j - 1, (s[j].0, v2)));
        assert forall|k2: Seq<u8>| #[trigger] bal_of(t, k2) == (if k2 == s[j].0@ {
            v2
        } else {
            bal_of(s, k2)
        }) by {
            assert(t[0] == s[0]);
            assert(bal_of(t.drop_first(), k2) == (if k2 == s[j].0@ {
                v2
            } else {
                bal_of(s.drop_first(), k2)
            }));
        }
        assert(total_of(t) == t[0].1 + total_of(t.drop_first()));
    }
}

/// Appending an entry for a fresh key funds exactly that key.
proof fn lemma_bal_push(s: Seq<(Digest, u64)>, d: Digest, v: u64)
    requires
        forall|j: int| 0 <= j < s.len() ==> s[j].0@ != d@,
    ensures
        forall|k2: Seq<u8>| #[trigger] bal_of(s.push((d, v)), k2) == if k2 == d@ {
            v
        } else {
            bal_of(s, k2)
        },
        total_of(s.push((d, v))) == total_of(s) + v,
    decreases s.len(),
{
    let t = s.push((d, v));
    if s.len() == 0 {
        assert(t.drop_first() =~= Seq::<(Digest, u64)>::empty());
        assert forall|k2: Seq<u8>| #[trigger] bal_of(t, k2) == (if k2 == d@ {
            v
        } else {
            bal_of(s, k2)
        }) by {
            assert(t[0] == (d, v));
            assert(bal_of(t.drop_first(), k2) == 0);
            assert(bal_of(s, k2) == 0);
        }
        assert(total_of(t) == t[0].1 + total_of(t.drop_first()));
        assert(total_of(t.drop_first()) == 0);
        assert(total_of(s) == 0);
    } else {
        lemma_bal_push(s.drop_first(), d, v);
        assert(t.drop_first() =~= s.drop_first().push((d, v)));
        assert forall|k2: Seq<u8>| #[trigger] bal_of(t, k2) == (if k2 == d@ {
            v
        } else {
            bal_of(s, k2)
        }) by {
            assert(t[0] == s[0]);
            assert(bal_of(t.drop_first(), k2) == (if k2 == d@ {
                v
            } else {
                bal_of(s.drop_first(), k2)
            }));
        }
        assert(total_of(t) == t[0].1 + total_of(t.drop_first()));
    }
}

/// No single balance exceeds the row's total.
proof fn lemma_bal_le_total(s: Seq<(Digest, u64)>, k: Seq<u8>)
    ensures
        bal_of(s, k) <= total_of(s),
    decreases s.len(),
{
    if s.len() > 0 {
        lemma_bal_le_total(s.drop_first(), k);
        lemma_total_nonneg(s.drop_first());
    }
}

/// The fee accounts: a row of balances whose running total is tracked so
/// a credit can never overflow.  Models the currency collaborator:
/// `transfer` fails exactly on insufficient funds and conserves the
/// total supply.
pub struct Balances {
    pub entries: Vec<(Digest, u64)>,
    pub total: u64,
}

impl Balances {
    /// The tracked total matches the row.
    pub open spec fn wf(&self) -> bool {
        self.total as int == total_of(self.entries@)
    }

    /// The balance held for `k`.
    pub open spec fn balance_spec(&self, k: Seq<u8>) -> u64 {
        bal_of(self.entries@, k)
    }

    /// An empty book: every balance zero.
    pub fn new() -> (b: Balances)
        ensures
            b.wf(),
            b.entries@.len() == 0,
            forall|k: Seq<u8>| #[trigger] b.balance_spec(k) == 0,
    {
        Balances { entries: Vec::new(), total: 0 }
    }

    /// Index of the first entry for `who`, if any.
    fn find(&self, who: &Digest) -> (r: Option<usize>)
        ensures
            r matches Some(j) ==> j < self.entries@.len() && self.entries@[j as int].0@ == who@
                && forall|j2: int| 0 <= j2 < j ==> self.entries@[j2].0@ != who@,
            r is None ==> forall|j: int| 0 <= j < self.entries@.len() ==> self.entries@[j].0@ != who@,
    {
        let mut i: usize = 0;
        while i < self.entries.len()
            invariant
                i <= self.entries@.len(),
                forall|j: int| 0 <= j < i ==> self.entries@[j].0@ != who@,
            decreases self.entries@.len() - i,
        {
            if digest_eq(&self.entries[i].0, who) {
                return Some(i);
            }
            i += 1;
        }
        None
    }

    /// Reads a balance.
    pub fn balance_of(&self, who: &Digest) -> (r: u64)
        ensures
            r == self.balance_spec(who@),
    {
        match self.find(who) {
            Some(j) => {
                proof {
                    lemma_bal_first(self.entries@, j as int, who@);
                }
                self.entries[j].1
            },
            None => {
                proof {
                    lemma_bal_absent(self.entries@, who@);
                }
                0
            },
        }
    }

    /// Credits `who`, unless the total supply would overflow.
    pub fn deposit(&mut self, who: &Digest, amount: u64) -> (ok: bool)
        requires
            old(self).wf(),
        ensures
            final(self).wf(),
            ok <==> total_of(old(self).entries@) + amount <= u64::MAX,
            !ok ==> *final(self) == *old(self),
            ok ==> final(self).balance_spec(who@) == old(self).balance_spec(who@) + amount,
            ok ==> forall|k2: Seq<u8>| k2 != who@ ==> #[trigger] final(self).balance_spec(k2)
                == old(self).balance_spec(k2),
            ok ==> total_of(final(self).entries@) == total_of(old(self).entries@) + amount,
    {
        if amount > u64::MAX - self.total {
            return false;
        }
        match self.find(who) {
            Some(j) => {
                proof {
                    lemma_bal_first(self.entries@, j as int, who@);
                    lemma_bal_le_total(self.entries@, who@);
                    lemma_total_nonneg(self.entries@);
                    lemma_bal_update(self.entries@, j as int, (self.entries@[j as int].1 + amount) as u64);
                }
                let key = self.entries[j].0;
                let bal = self.entries[j].1;
                self.entries[j] = (key, bal + amount);
                self.total = self.total + amount;
            },
            None => {
                proof {
                    lemma_bal_absent(self.entries@, who@);
                    lemma_bal_push(self.entries@, *who, amount);
                }
                self.entries.push((*who, amount));
                self.total = self.total + amount;
            },
        }
        true
    }

    /// Moves `amount` from `from` to `to`; fails exactly when `from`
    /// holds less than `amount`, and then changes nothing.  The total
    /// supply is conserved either way.
    pub fn transfer(&mut self, from: &Digest, to: &Digest, amount: u64) -> (r: Result<(), Error>)
        requires
            old(self).wf(),
        ensures
            final(self).wf(),
            r is Ok <==> old(self).balance_spec(from@) >= amount,
            r is Err ==> r == Result::<(), Error>::Err(Error::InsufficientBalance) && *final(self) == *old(self),
            r is Ok ==> forall|k2: Seq<u8>| #[trigger] final(self).balance_spec(k2) == (if from@ == to@ {
                old(self).balance_spec(k2)
            } else if k2 == from@ {
                (old(self).balance_spec(k2) - amount) as u64
            } else if k2 == to@ {
                (old(self).balance_spec(k2) + amount) as u64
            } else {
                old(self).balance_spec(k2)
            }),
            total_of(final(self).entries@) == total_of(old(self).entries@),
    {
        let jf = match self.find(from) {
            Some(j) => {
                proof {
                    lemma_bal_first(self.entries@, j as int, from@);
                }
                j
            },
            None => {
                proof {
                    lemma_bal_absent(self.entries@, from@);
                }
                if amount == 0 {
                    return Ok(());
                }
                return Err(Error::InsufficientBalance);
            },
        };
        let from_bal = self.entries[jf].1;
        if from_bal < amount {
            return Err(Error::InsufficientBalance);
        }
        if digest_eq(from, to) {
            return Ok(());
        }
        // debit the sender
        proof {
            lemma_bal_update(self.entries@, jf as int, (from_bal - amount) as u64);
        }
        let from_key = self.entries[jf].0;
        self.entries[jf] = (from_key, from_bal - amount);
        let ghost mid = self.entries@;
        // credit the receiver; the conserved total keeps the sum in range
        proof {
            lemma_total_nonneg(mid);
            lemma_bal_le_total(mid, to@);
        }
        match self.find(to) {
            Some(jt) => {
                proof {
                    lemma_bal_first(mid, jt as int, to@);
                    lemma_bal_update(mid, jt as int, (bal_of(mid, to@) + amount) as u64);
                }
                let to_key = self.entries[jt].0;
                let to_bal = self.entries[jt].1;
                self.entries[jt] = (to_key, to_bal + amount);
            },
            None => {
                proof {
                    lemma_bal_absent(mid, to@);
                    lemma_bal_push(mid, *to, amount);
                }
                self.entries.push((*to, amount));
            },
        }
        Ok(())
    }
}

/// The record held for `did`: the first matching entry, if any.
pub open spec fn rec_of(s: Seq<IdentityRecord>, did: Seq<u8>) -> Option<IdentityRecord>
    decreases s.len(),
{
    if s.len() == 0 {
        Option::None
    } else if s[0].did@ == did {
        Option::Some(s[0])
    } else {
        rec_of(s.drop_first(), did)
    }
}

/// A first-match entry is what `rec_of` reads.
proof fn lemma_rec_first(s: Seq<IdentityRecord>, j: int)
    requires
        0 <= j < s.len(),
        forall|j2: int| 0 <= j2 < j ==> s[j2].did@ != s[j].did@,
    ensures
        rec_of(s, s[j].did@) == Option::Some(s[j]),
    decreases j,
{
    if j > 0 {
        assert(s.drop_first()[j - 1] == s[j]);
        lemma_rec_first(s.drop_first(), j - 1);
    }
}

/// With no matching entry there is no record.
proof fn lemma_rec_absent(s: Seq<IdentityRecord>, did: Seq<u8>)
    requires
        forall|j: int| 0 <= j < s.len() ==> s[j].did@ != did,
    ensures
        rec_of(s, did) is None,
    decreases s.len(),
{
    if s.len() > 0 {
        lemma_rec_absent(s.drop_first(), did);
    }
}

/// Overwriting the first-match entry, keeping its key, changes exactly
/// that key's record.
proof fn lemma_rec_update(s: Seq<IdentityRecord>, j: int, r2: IdentityRecord)
    requires
        0 <= j < s.len(),
        forall|j2: int| 0 <= j2 < j ==> s[j2].did@ != s[j].did@,
        r2.did == s[j].did,
    ensures
        forall|d2: Seq<u8>| #[trigger] rec_of(s.update(j, r2), d2) == (if d2 == s[j].did@ {
            Option::Some(r2)
        } else {
            rec_of(s, d2)
        }),
    decreases j,
{
    let t = s.update(j, r2);
    if j == 0 {
        assert(t.drop_first() =~= s.drop_first());
        assert forall|d2: Seq<u8>| #[trigger] rec_of(t, d2) == (if d2 == s[j].did@ {
            Option::Some(r2)
        } else {
            rec_of(s, d2)
        }) by {
            assert(t[0] == r2);
        }
    } else {
        assert(s.drop_first()[j - 1] == s[j]);
        lemma_rec_update(s.drop_first(), j - 1, r2);
        assert(t.drop_first() =~= s.drop_first().update(j - 1, r2));
        assert forall|d2: Seq<u8>| #[trigger] rec_of(t, d2) == (if d2 == s[j].did@ {
            Option::Some(r2)
        } else {
            rec_of(s, d2)
        }) by {
            assert(t[0] == s[0]);
            assert(rec_of(t.drop_first(), d2) == (if d2 == s[j].did@ {
                Option::Some(r2)
            } else {
                rec_of(s.drop_first(), d2)
            }));
        }
    }
}

/// Appending a record for a fresh `did` creates exactly that record.
proof fn lemma_rec_push(s: Seq<IdentityRecord>, r: IdentityRecord)
    requires
        forall|j: int| 0 <= j < s.len() ==> s[j].did@ != r.did@,
    ensures
        forall|d2: Seq<u8>| #[trigger] rec_of(s.push(r), d2) == (if d2 == r.did@ {
            Option::Some(r)
        } else {
            rec_of(s, d2)
        }),
    decreases s.len(),
{
    let t = s.push(r);
    if s.len() == 0 {
        assert(t.drop_first() =~= Seq::<IdentityRecord>::empty());
        assert forall|d2: Seq<u8>| #[trigger] rec_of(t, d2) == (if d2 == r.did@ {
            Option::Some(r)
        } else {
            rec_of(s, d2)
        }) by {
            assert(t[0] == r);
            assert(rec_of(t.drop_first(), d2) is None);
            assert(rec_of(s, d2) is None);
        }
    } else {
        lemma_rec_push(s.drop_first(), r);
        assert(t.drop_first() =~= s.drop_first().push(r));
        assert forall|d2: Seq<u8>| #[trigger] rec_of(t, d2) == (if d2 == r.did@ {
            Option::Some(r)
        } else {
            rec_of(s, d2)
        }) by {
            assert(t[0] == s[0]);
            assert(rec_of(t.drop_first(), d2) == (if d2 == r.did@ {
                Option::Some(r)
            } else {
                rec_of(s.drop_first(), d2)
            }));
        }
    }
}

/// The hub ledger.  It exclusively owns the whitelists, the identity
/// records, the fee book, and the embedded accumulator; every mutating
/// operation either commits all of its state changes or none.
pub struct Pallet {
    /// The account allowed to manage the whitelists.
    pub governance: Digest,
    /// The fixed fee debited on each issuance.
    pub issuance_fee: u64,
    /// The account the fee is paid to.
    pub fee_receiver: Digest,
    /// Whitelisted issuer accounts.
    pub issuers: Vec<Digest>,
    /// Whitelisted schema hashes.
    pub schemas: Vec<Digest>,
    /// Per-identity status, keyed by `did`.
    pub records: Vec<IdentityRecord>,
    /// The fee book.
    pub balances: Balances,
    /// The accumulator of committed leaf hashes.
    pub accumulator: Mmr,
    /// Everything emitted so far, in order.
    pub events: Vec<Event>,
}

impl Pallet {
    /// The fee book is consistent and every record points into the
    /// accumulator.
    pub open spec fn wf(&self) -> bool {
        &&& self.balances.wf()
        &&& forall|j: int| 0 <= j < self.records@.len() ==> #[trigger] self.records@[j].leaf_index < self.accumulator@.len()
    }

    /// Whether `who` is a whitelisted issuer.
    pub open spec fn has_issuer(&self, who: Seq<u8>) -> bool {
        contains_digest(self.issuers@, who)
    }

    /// Whether `h` is a whitelisted schema.
    pub open spec fn has_schema(&self, h: Seq<u8>) -> bool {
        contains_digest(self.schemas@, h)
    }

    /// The record held for `did`.
    pub open spec fn record_spec(&self, did: Seq<u8>) -> Option<IdentityRecord> {
        rec_of(self.records@, did)
    }

    /// The accumulator's current root.
    pub open spec fn root_spec(&self) -> Seq<u8> {
        mmr_root_spec(self.accumulator@)
    }

    /// How many leaves the accumulator holds.
    pub open spec fn size_spec(&self) -> nat {
        self.accumulator@.len()
    }

    /// A fresh ledger: empty whitelists, no records, no balances, an
    /// empty accumulator, no events.
    pub fn new(governance: Digest, issuance_fee: u64, fee_receiver: Digest) -> (p: Pallet)
        ensures
            p.wf(),
            p.governance == governance,
            p.issuance_fee == issuance_fee,
            p.fee_receiver == fee_receiver,
            p.issuers@.len() == 0,
            p.schemas@.len() == 0,
            p.records@.len() == 0,
            p.events@.len() == 0,
            p.size_spec() == 0,
            forall|k: Seq<u8>| #[trigger] p.balances.balance_spec(k) == 0,
    {
        Pallet {
            governance,
            issuance_fee,
            fee_receiver,
            issuers: Vec::new(),
            schemas: Vec::new(),
            records: Vec::new(),
            balances: Balances::new(),
            accumulator: Mmr::new(),
            events: Vec::new(),
        }
    }

    /// The current root.
    pub fn root(&self) -> (r: Digest)
        ensures
            r@ == self.root_spec(),
    {
        self.accumulator.root()
    }

    /// The current accumulator size.
    pub fn size(&self) -> (n: u64)
        ensures
            n as nat == self.size_spec(),
    {
        self.accumulator.size()
    }

    /// Reads the record for `did`.
    pub fn record_of(&self, did: &Digest) -> (r: Option<IdentityRecord>)
        ensures
            r == self.record_spec(did@),
    {
        let mut i: usize = 0;
        while i < self.records.len()
            invariant
                i <= self.records@.len(),
                forall|j: int| 0 <= j < i ==> self.records@[j].did@ != did@,
            decreases self.records@.len() - i,
        {
            if digest_eq(&self.records[i].did, did) {
                proof {
                    lemma_rec_first(self.records@, i as int);
                }
                return Some(self.records[i]);
            }
            i += 1;
        }
        proof {
            lemma_rec_absent(self.records@, did@);
        }
        None
    }

    /// Credits an account of the fee book; fails only if the book's
    /// total supply would overflow.
    pub fn deposit(&mut self, who: &Digest, amount: u64) -> (ok: bool)
        requires
            old(self).wf(),
        ensures
            final(self).wf(),
            ok <==> total_of(old(self).balances.entries@) + amount <= u64::MAX,
            !ok ==> *final(self) == *old(self),
            ok ==> final(self).balances.balance_spec(who@) == old(self).balances.balance_spec(who@) + amount,
            ok ==> forall|k2: Seq<u8>| k2 != who@ ==> #[trigger] final(self).balances.balance_spec(k2)
                == old(self).balances.balance_spec(k2),
            final(self).governance == old(self).governance,
            final(self).issuance_fee == old(self).issuance_fee,
            final(self).fee_receiver == old(self).fee_receiver,
            final(self).issuers == old(self).issuers,
            final(self).schemas == old(self).schemas,
            final(self).records == old(self).records,
            final(self).accumulator == old(self).accumulator,
            final(self).events == old(self).events,
    {
        self.balances.deposit(who, amount)
    }

    /// Reads a balance of the fee book.
    pub fn balance_of(&self, who: &Digest) -> (r: u64)
        ensures
            r == self.balances.balance_spec(who@),
    {
        self.balances.balance_of(who)
    }

    /// Whitelists an issuer.  Governance-gated; idempotent on the
    /// whitelist, and emits an `IssuerAdded` event on every accepted
    /// call.
    pub fn add_issuer(&mut self, origin: &Digest, issuer: Digest) -> (r: Result<(), Error>)
        requires
            old(self).wf(),
        ensures
            final(self).wf(),
            r is Ok <==> origin@ == old(self).governance@,
            r is Err ==> r == Result::<(), Error>::Err(Error::BadOrigin) && *final(self) == *old(self),
            r is Ok ==> {
                &&& final(self).has_issuer(issuer@)
                &&& forall|k: Seq<u8>| #[trigger] final(self).has_issuer(k) <==> (old(self).has_issuer(k) || k == issuer@)
                &&& final(self).events@ == old(self).events@.push(Event::IssuerAdded { issuer })
                &&& final(self).schemas == old(self).schemas
                &&& final(self).records == old(self).records
                &&& final(self).balances == old(self).balances
                &&& final(self).accumulator == old(self).accumulator
                &&& final(self).governance == old(self).governance
                &&& final(self).issuance_fee == old(self).issuance_fee
                &&& final(self).fee_receiver == old(self).fee_receiver
            },
    {
        if !digest_eq(origin, &self.governance) {
            return Err(Error::BadOrigin);
        }
        if !digest_in(&self.issuers, &issuer) {
            self.issuers.push(issuer);
        }
        self.events.push(Event::IssuerAdded { issuer });
        proof {
            assert forall|k: Seq<u8>| #[trigger] self.has_issuer(k) <==> (old(self).has_issuer(k) || k == issuer@) by {
                let pre = old(self).issuers@;
                let post = self.issuers@;
                if contains_digest(pre, k) {
                    let j = choose|j: int| 0 <= j < pre.len() && pre[j]@ == k;
                    assert(post[j]@ == k);
                }
                if !contains_digest(pre, issuer@) && k == issuer@ {
                    assert(post[post.len() - 1]@ == issuer@);
                }
                if contains_digest(post, k) {
                    let j = choose|j: int| 0 <= j < post.len() && post[j]@ == k;
                    if j < pre.len() {
                        assert(pre[j]@ == k);
                    } else {
                        assert(k == issuer@);
                    }
                }
            }
        }
        Ok(())
    }

    /// Whitelists a schema hash.  Governance-gated; idempotent on the
    /// whitelist, and emits a `SchemaAdded` event on every accepted call.
    pub fn add_schema(&mut self, origin: &Digest, schema_hash: Digest) -> (r: Result<(), Error>)
        requires
            old(self).wf(),
        ensures
            final(self).wf(),
            r is Ok <==> origin@ == old(self).governance@,
            r is Err ==> r == Result::<(), Error>::Err(Error::BadOrigin) && *final(self) == *old(self),
            r is Ok ==> {
                &&& final(self).has_schema(schema_hash@)
                &&& forall|k: Seq<u8>| #[trigger] final(self).has_schema(k) <==> (old(self).has_schema(k) || k == schema_hash@)
                &&& final(self).events@ == old(self).events@.push(Event::SchemaAdded { hash: schema_hash })
                &&& final(self).issuers == old(self).issuers
                &&& final(self).records == old(self).records
                &&& final(self).balances == old(self).balances
                &&& final(self).accumulator == old(self).accumulator
                &&& final(self).governance == old(self).governance
                &&& final(self).issuance_fee == old(self).issuance_fee
                &&& final(self).fee_receiver == old(self).fee_receiver
            },
    {
        if !digest_eq(origin, &self.governance) {
            return Err(Error::BadOrigin);
        }
        if !digest_in(&self.schemas, &schema_hash) {
            self.schemas.push(schema_hash);
        }
        self.events.push(Event::SchemaAdded { hash: schema_hash });
        proof {
            assert forall|k: Seq<u8>| #[trigger] self.has_schema(k) <==> (old(self).has_schema(k) || k == schema_hash@) by {
                let pre = old(self).schemas@;
                let post = self.schemas@;
                if contains_digest(pre, k) {
                    let j = choose|j: int| 0 <= j < pre.len() && pre[j]@ == k;
                    assert(post[j]@ == k);
                }
                if !contains_digest(pre, schema_hash@) && k == schema_hash@ {
                    assert(post[post.len() - 1]@ == schema_hash@);
                }
                if contains_digest(post, k) {
                    let j = choose|j: int| 0 <= j < post.len() && post[j]@ == k;
                    if j < pre.len() {
                        assert(pre[j]@ == k);
                    } else {
                        assert(k == schema_hash@);
                    }
                }
            }
        }
        Ok(())
    }

    /// The first check an issuance fails, if any: authorization, then
    /// schema, then uniqueness of the `did`, then the fee.
    pub open spec fn issue_check(&self, origin: Seq<u8>, did: Seq<u8>, schema_hash: Seq<u8>) -> Option<Error> {
        if !self.has_issuer(origin) {
            Option::Some(Error::NotAuthorizedIssuer)
        } else if !self.has_schema(schema_hash) {
            Option::Some(Error::InvalidSchema)
        } else if self.record_spec(did) is Some {
            Option::Some(Error::AlreadyExists)
        } else if self.balances.balance_spec(origin) < self.issuance_fee {
            Option::Some(Error::InsufficientBalance)
        } else {
            Option::None
        }
    }

    /// What a successful issuance does: the fee moves, the leaf hash is
    /// appended, a record is created at the new leaf's index, and a
    /// `FeePaid` then an `IdentityIssued` event are emitted, the latter
    /// carrying the new root.
    pub open spec fn issue_post(pre: Pallet, post: Pallet, origin: Digest, did: Digest, schema_hash: Digest, data_hash: Digest) -> bool {
        let lh = leaf_digest_spec(did@, schema_hash@, data_hash@, Option::None);
        let n = pre.events@.len() as int;
        &&& post.accumulator@ == pre.accumulator@.push(lh)
        &&& post.records@ == pre.records@.push(IdentityRecord { did, active: true, leaf_index: pre.accumulator@.len() as u64 })
        &&& post.events@.len() == n + 2
        &&& post.events@.take(n) == pre.events@
        &&& post.events@[n] == Event::FeePaid { who: origin, amount: pre.issuance_fee }
        &&& (post.events@[n + 1] matches Event::IdentityIssued { did: d2, index, root } ==> {
            &&& d2 == did
            &&& index as nat == pre.accumulator@.len()
            &&& root@ == mmr_root_spec(post.accumulator@)
        })
        &&& post.events@[n + 1] is IdentityIssued
        &&& forall|k2: Seq<u8>| #[trigger] post.balances.balance_spec(k2) == (if pre.fee_receiver@ == origin@ {
            pre.balances.balance_spec(k2)
        } else if k2 == origin@ {
            (pre.balances.balance_spec(k2) - pre.issuance_fee) as u64
        } else if k2 == pre.fee_receiver@ {
            (pre.balances.balance_spec(k2) + pre.issuance_fee) as u64
        } else {
            pre.balances.balance_spec(k2)
        })
        &&& post.issuers == pre.issuers
        &&& post.schemas == pre.schemas
        &&& post.governance == pre.governance
        &&& post.issuance_fee == pre.issuance_fee
        &&& post.fee_receiver == pre.fee_receiver
    }

    /// Issues a new identity attestation.  Checks run in a fixed order
    /// and a failed check leaves every part of the state untouched; on
    /// success the whole issuance commits at once.
    pub fn issue_identity(&mut self, origin: &Digest, did: Digest, schema_hash: Digest, data_hash: Digest) -> (r: Result<(), Error>)
        requires
            old(self).wf(),
            old(self).size_spec() < u64::MAX,
        ensures
            final(self).wf(),
            old(self).issue_check(origin@, did@, schema_hash@) matches Some(er) ==> {
                &&& r == Result::<(), Error>::Err(er)
                &&& *final(self) == *old(self)
            },
            old(self).issue_check(origin@, did@, schema_hash@) is None ==> {
                &&& r == Result::<(), Error>::Ok(())
                &&& Pallet::issue_post(*old(self), *final(self), *origin, did, schema_hash, data_hash)
            },
    {
        if !digest_in(&self.issuers, origin) {
            return Err(Error::NotAuthorizedIssuer);
        }
        if !digest_in(&self.schemas, &schema_hash) {
            return Err(Error::InvalidSchema);
        }
        if self.record_of(&did).is_some() {
            return Err(Error::AlreadyExists);
        }
        let receiver = self.fee_receiver;
        let fee = self.issuance_fee;
        match self.balances.transfer(origin, &receiver, fee) {
            Ok(()) => {},
            Err(e) => {
                return Err(e);
            },
        }
        let leaf = AttestationLeaf { did, schema_hash, data_hash, expiration: None };
        let lh = leaf_digest(&leaf);
        let (index, new_root) = self.accumulator.append(&lh);
        self.records.push(IdentityRecord { did, active: true, leaf_index: index });
        let ghost pre_events = self.events@;
        self.events.push(Event::FeePaid { who: *origin, amount: fee });
        self.events.push(Event::IdentityIssued { did, index, root: new_root });
        proof {
            assert(self.events@.take(pre_events.len() as int) =~= pre_events);
        }
        Ok(())
    }

    /// The first check a revocation fails, if any: authorization, then
    /// existence, then the idempotence check on an already-revoked
    /// record.
    pub open spec fn revoke_check(&self, origin: Seq<u8>, did: Seq<u8>) -> Option<Error> {
        if !self.has_issuer(origin) {
            Option::Some(Error::NotAuthorizedIssuer)
        } else if self.record_spec(did) is None {
            Option::Some(Error::NotFound)
        } else if !self.record_spec(did)->Some_0.active {
            Option::Some(Error::AlreadyExists)
        } else {
            Option::None
        }
    }

    /// Revokes an identity: flips its record inactive and emits an
    /// `IdentityRevoked` event.  The committed leaf, the accumulator —
    /// its root and size — and every other record stay exactly as they
    /// were; revocation never rewrites history.
    pub fn revoke_identity(&mut self, origin: &Digest, did: Digest) -> (r: Result<(), Error>)
        requires
            old(self).wf(),
        ensures
            final(self).wf(),
            old(self).revoke_check(origin@, did@) matches Some(er) ==> {
                &&& r == Result::<(), Error>::Err(er)
                &&& *final(self) == *old(self)
            },
            old(self).revoke_check(origin@, did@) is None ==> {
                &&& r == Result::<(), Error>::Ok(())
                &&& final(self).accumulator == old(self).accumulator
                &&& final(self).root_spec() == old(self).root_spec()
                &&& final(self).size_spec() == old(self).size_spec()
                &&& final(self).record_spec(did@) == Option::Some(IdentityRecord {
                    did: old(self).record_spec(did@)->Some_0.did,
                    active: false,
                    leaf_index: old(self).record_spec(did@)->Some_0.leaf_index,
                })
                &&& forall|d2: Seq<u8>| d2 != did@ ==> #[trigger] final(self).record_spec(d2) == old(self).record_spec(d2)
                &&& final(self).events@ == old(self).events@.push(Event::IdentityRevoked { did })
                &&& final(self).issuers == old(self).issuers
                &&& final(self).schemas == old(self).schemas
                &&& final(self).balances == old(self).balances
                &&& final(self).governance == old(self).governance
                &&& final(self).issuance_fee == old(self).issuance_fee
                &&& final(self).fee_receiver == old(self).fee_receiver
            },
    {
        if !digest_in(&self.issuers, origin) {
            return Err(Error::NotAuthorizedIssuer);
        }
        let mut i: usize = 0;
        while i < self.records.len()
            invariant
                *self == *old(self),
                old(self).wf(),
                old(self).has_issuer(origin@),
                i <= self.records@.len(),
                forall|j: int| 0 <= j < i ==> self.records@[j].did@ != did@,
            decreases self.records@.len() - i,
        {
            if digest_eq(&self.records[i].did, &did) {
                proof {
                    lemma_rec_first(self.records@, i as int);
                }
                let old_rec = self.records[i];
                proof {
                    assert(old(self).record_spec(did@) == Option::Some(old_rec));
                    assert(old(self).has_issuer(origin@));
                }
                if !old_rec.active {
                    proof {
                        assert(old(self).revoke_check(origin@, did@) == Option::Some(Error::AlreadyExists));
                    }
                    return Err(Error::AlreadyExists);
                }
                let new_rec = IdentityRecord { did: old_rec.did, active: false, leaf_index: old_rec.leaf_index };
                proof {
                    lemma_rec_update(self.records@, i as int, new_rec);
                    assert(old(self).revoke_check(origin@, did@) is None);
                }
                self.records[i] = new_rec;
                self.events.push(Event::IdentityRevoked { did });
                return Ok(());
            }
            i += 1;
        }
        proof {
            lemma_rec_absent(self.records@, did@);
        }
        Err(Error::NotFound)
    }
}

/// Issuance is permanent: once a `did` has been issued, any further
/// issuance of the same `did` by an authorized caller with a whitelisted
/// schema is refused as `AlreadyExists` — also after revocation, since a
/// revoked record stays in place.  By `issue_identity`'s contract the
/// refused attempt changes nothing, so the accumulator's size and root
/// are untouched by it.
pub proof fn lemma_reissue_rejected(pre: Pallet, post: Pallet, origin: Digest, did: Digest, schema_hash: Digest, data_hash: Digest, origin2: Seq<u8>, schema2: Seq<u8>)
    requires
        Pallet::issue_post(pre, post, origin, did, schema_hash, data_hash),
        post.has_issuer(origin2),
        post.has_schema(schema2),
    ensures
        post.issue_check(origin2, did@, schema2) == Option::Some(Error::AlreadyExists),
{
    let rec = IdentityRecord { did, active: true, leaf_index: pre.accumulator@.len() as u64 };
    assert(post.records@ == pre.records@.push(rec));
    if rec_of(pre.records@, did@) is Some {
        lemma_rec_push_keeps(pre.records@, rec, did@);
    } else {
        lemma_rec_push_finds(pre.records@, rec, did@);
    }
}

/// Pushing any record keeps an existing first match in place.
proof fn lemma_rec_push_keeps(s: Seq<IdentityRecord>, r: IdentityRecord, did: Seq<u8>)
    requires
        rec_of(s, did) is Some,
    ensures
        rec_of(s.push(r), did) == rec_of(s, did),
    decreases s.len(),
{
    let t = s.push(r);
    if s.len() > 0 {
        assert(t[0] == s[0]);
        assert(t.drop_first() =~= s.drop_first().push(r));
        if s[0].did@ != did {
            lemma_rec_push_keeps(s.drop_first(), r, did);
        }
    }
}

/// Pushing a record for an unknown `did` makes it findable.
proof fn lemma_rec_push_finds(s: Seq<IdentityRecord>, r: IdentityRecord, did: Seq<u8>)
    requires
        rec_of(s, did) is None,
        r.did@ == did,
    ensures
        rec_of(s.push(r), did) == Option::Some(r),
    decreases s.len(),
{
    let t = s.push(r);
    if s.len() == 0 {
        assert(t[0] == r);
    } else {
        assert(t[0] == s[0]);
        assert(t.drop_first() =~= s.drop_first().push(r));
        lemma_rec_push_finds(s.drop_first(), r, did);
    }
}

} // verus!
