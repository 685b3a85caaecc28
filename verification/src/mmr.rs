//! The append-only Merkle Mountain Range accumulator.
//!
//! An accumulator over `n` leaf hashes is a row of perfect binary trees
//! ("peaks"), one per set bit of `n`, largest first.  The root is the
//! peaks bagged left to right.  A membership proof carries the leaf, its
//! index, the accumulator size, the audit path inside the owning peak,
//! and the full peak row.

use vstd::prelude::*;
use crate::hashing::{Digest, node_hash, zero_hash, digest_eq, pair_digest, zero_digest};
use crate::arith::{p2, exp_above, lemma_exp_above_unique};

verus! {

broadcast use crate::arith::p2_pos;

/// The digest views of a row of digests.
pub open spec fn hview(v: Seq<Digest>) -> Seq<Seq<u8>> {
    v.map_values(|d: Digest| d@)
}

/// The root of the perfect tree of height `e` over the leaf hashes `s`
/// (`s` is expected to hold exactly `p2(e)` leaves).
pub open spec fn tree_root_spec(s: Seq<Seq<u8>>, e: nat) -> Seq<u8>
    decreases e,
{
    if e == 0 {
        if s.len() >= 1 {
            s[0]
        } else {
            zero_hash()
        }
    } else {
        let half = p2((e - 1) as nat) as int;
        node_hash(tree_root_spec(s.take(half), (e - 1) as nat), tree_root_spec(s.skip(half), (e - 1) as nat))
    }
}

/// The peak roots of the leaf hashes `s`, scanning candidate peak sizes
/// downward from `p2(e)`: one peak per set bit of `s.len()`, largest first,
/// provided `p2(e) > s.len()` at the start.
pub open spec fn peaks_spec(s: Seq<Seq<u8>>, e: nat) -> Seq<Seq<u8>>
    decreases e, s.len(),
{
    if s.len() == 0 {
        Seq::empty()
    } else if p2(e) <= s.len() {
        seq![tree_root_spec(s.take(p2(e) as int), e)] + peaks_spec(s.skip(p2(e) as int), e)
    } else if e == 0 {
        Seq::empty()
    } else {
        peaks_spec(s, (e - 1) as nat)
    }
}

/// The peak roots of an accumulator holding the leaf hashes `s`.
pub open spec fn mmr_peaks(s: Seq<Seq<u8>>) -> Seq<Seq<u8>> {
    peaks_spec(s, exp_above(s.len()))
}

/// Bags a row of peaks into one root, left (highest peak) to right.
pub open spec fn bag_spec(ps: Seq<Seq<u8>>) -> Seq<u8>
    decreases ps.len(),
{
    if ps.len() == 0 {
        zero_hash()
    } else if ps.len() == 1 {
        ps[0]
    } else {
        node_hash(bag_spec(ps.drop_last()), ps.last())
    }
}

/// The root of an accumulator holding the leaf hashes `s`: a function of
/// the ordered leaf sequence alone.
pub open spec fn mmr_root_spec(s: Seq<Seq<u8>>) -> Seq<u8> {
    bag_spec(mmr_peaks(s))
}

/// How many peaks the scan starting at `p2(e)` yields over `n` leaves.
pub open spec fn pk_count(n: nat, e: nat) -> nat
    decreases e, n,
{
    if n == 0 {
        0
    } else if p2(e) <= n {
        1 + pk_count((n - p2(e)) as nat, e)
    } else if e == 0 {
        0
    } else {
        pk_count(n, (e - 1) as nat)
    }
}

/// Position of leaf `i` inside its owning peak, for the scan state `(n, e)`.
pub open spec fn loc_rel(n: nat, e: nat, i: nat) -> nat
    decreases e, n,
{
    if n == 0 {
        0
    } else if p2(e) <= n {
        if i < p2(e) {
            i
        } else {
            loc_rel((n - p2(e)) as nat, e, (i - p2(e)) as nat)
        }
    } else if e == 0 {
        0
    } else {
        loc_rel(n, (e - 1) as nat, i)
    }
}

/// Height of the peak owning leaf `i`, for the scan state `(n, e)`.
pub open spec fn loc_exp(n: nat, e: nat, i: nat) -> nat
    decreases e, n,
{
    if n == 0 {
        0
    } else if p2(e) <= n {
        if i < p2(e) {
            e
        } else {
            loc_exp((n - p2(e)) as nat, e, (i - p2(e)) as nat)
        }
    } else if e == 0 {
        0
    } else {
        loc_exp(n, (e - 1) as nat, i)
    }
}

/// Index, in the peak row, of the peak owning leaf `i`.
pub open spec fn loc_idx(n: nat, e: nat, i: nat) -> nat
    decreases e, n,
{
    if n == 0 {
        0
    } else if p2(e) <= n {
        if i < p2(e) {
            0
        } else {
            1 + loc_idx((n - p2(e)) as nat, e, (i - p2(e)) as nat)
        }
    } else if e == 0 {
        0
    } else {
        loc_idx(n, (e - 1) as nat, i)
    }
}

/// First leaf index covered by the peak owning leaf `i`.
pub open spec fn loc_start(n: nat, e: nat, i: nat) -> nat
    decreases e, n,
{
    if n == 0 {
        0
    } else if p2(e) <= n {
        if i < p2(e) {
            0
        } else {
            p2(e) + loc_start((n - p2(e)) as nat, e, (i - p2(e)) as nat)
        }
    } else if e == 0 {
        0
    } else {
        loc_start(n, (e - 1) as nat, i)
    }
}

/// The audit path for the leaf at position `rel` of a perfect tree of
/// height `e` over `s`: sibling subtree roots, leaf level first.
pub open spec fn audit_path_spec(s: Seq<Seq<u8>>, e: nat, rel: nat) -> Seq<Seq<u8>>
    decreases e,
{
    if e == 0 {
        Seq::empty()
    } else {
        let half = p2((e - 1) as nat);
        if rel < half {
            audit_path_spec(s.take(half as int), (e - 1) as nat, rel).push(tree_root_spec(s.skip(half as int), (e - 1) as nat))
        } else {
            audit_path_spec(s.skip(half as int), (e - 1) as nat, (rel - half) as nat).push(tree_root_spec(s.take(half as int), (e - 1) as nat))
        }
    }
}

/// Recomputes a peak root from a leaf, its position inside the peak, and
/// an audit path, consuming the path leaf level first.
pub open spec fn fold_path_spec(leaf: Seq<u8>, rel: nat, path: Seq<Seq<u8>>) -> Seq<u8>
    decreases path.len(),
{
    if path.len() == 0 {
        leaf
    } else {
        let step = if rel % 2 == 0 {
            node_hash(leaf, path[0])
        } else {
            node_hash(path[0], leaf)
        };
        fold_path_spec(step, (rel / 2) as nat, path.drop_first())
    }
}

/// Audit paths of a height-`e` tree have length `e`.
pub proof fn lemma_audit_len(s: Seq<Seq<u8>>, e: nat, rel: nat)
    ensures
        audit_path_spec(s, e, rel).len() == e,
    decreases e,
{
    if e > 0 {
        let half = p2((e - 1) as nat);
        if rel < half {
            lemma_audit_len(s.take(half as int), (e - 1) as nat, rel);
        } else {
            lemma_audit_len(s.skip(half as int), (e - 1) as nat, (rel - half) as nat);
        }
    }
}

/// Folding one more sibling onto a path whose positions stay in the left
/// half hashes the extra sibling on the right.
proof fn lemma_fold_push_lo(leaf: Seq<u8>, rel: nat, path: Seq<Seq<u8>>, x: Seq<u8>)
    requires
        rel < p2(path.len()),
    ensures
        fold_path_spec(leaf, rel, path.push(x)) == node_hash(fold_path_spec(leaf, rel, path), x),
    decreases path.len(),
{
    if path.len() == 0 {
        assert(rel == 0);
        assert(path.push(x).drop_first() =~= path);
        assert(fold_path_spec(leaf, rel, path.push(x)) == fold_path_spec(node_hash(leaf, x), 0, path));
    } else {
        let step = if rel % 2 == 0 {
            node_hash(leaf, path[0])
        } else {
            node_hash(path[0], leaf)
        };
        assert(path.push(x)[0] == path[0]);
        assert(path.push(x).drop_first() =~= path.drop_first().push(x));
        assert(p2(path.len()) == 2 * p2((path.len() - 1) as nat));
        assert(rel / 2 < p2(path.drop_first().len()));
        lemma_fold_push_lo(step, (rel / 2) as nat, path.drop_first(), x);
    }
}

/// Folding one more sibling onto a path whose position is in the right
/// half hashes the extra sibling on the left.
proof fn lemma_fold_push_hi(leaf: Seq<u8>, rel: nat, path: Seq<Seq<u8>>, x: Seq<u8>)
    requires
        p2(path.len()) <= rel < 2 * p2(path.len()),
    ensures
        fold_path_spec(leaf, rel, path.push(x)) == node_hash(x, fold_path_spec(leaf, (rel - p2(path.len())) as nat, path)),
    decreases path.len(),
{
    if path.len() == 0 {
        assert(rel == 1);
        assert(path.push(x).drop_first() =~= path);
        assert(fold_path_spec(leaf, rel, path.push(x)) == fold_path_spec(node_hash(x, leaf), 0, path));
    } else {
        let k = path.len();
        let pk = p2((k - 1) as nat);
        assert(p2(k) == 2 * pk);
        let step = if rel % 2 == 0 {
            node_hash(leaf, path[0])
        } else {
            node_hash(path[0], leaf)
        };
        assert(path.push(x)[0] == path[0]);
        assert(path.push(x).drop_first() =~= path.drop_first().push(x));
        // the halved position still lies in the right half one level up
        assert(pk <= rel / 2 < 2 * pk) by {
            assert(rel >= 2 * pk);
            assert(rel < 4 * pk);
        };
        lemma_fold_push_hi(step, (rel / 2) as nat, path.drop_first(), x);
        // the reduced position drives the same fold
        let relr = (rel - p2(k)) as nat;
        assert(relr % 2 == rel % 2) by {
            assert(rel == relr + 2 * pk);
        };
        assert(relr / 2 == rel / 2 - pk) by {
            assert(rel == relr + 2 * pk);
        };
        assert(fold_path_spec(leaf, relr, path) == fold_path_spec(step, (relr / 2) as nat, path.drop_first()));
    }
}

/// Folding the leaf at `rel` up its audit path recomputes the root of the
/// perfect tree it sits in.
pub proof fn lemma_tree_path(s: Seq<Seq<u8>>, e: nat, rel: nat)
    requires
        s.len() == p2(e),
        rel < p2(e),
    ensures
        fold_path_spec(s[rel as int], rel, audit_path_spec(s, e, rel)) == tree_root_spec(s, e),
    decreases e,
{
    if e > 0 {
        let half = p2((e - 1) as nat);
        assert(p2(e) == 2 * half);
        let l = s.take(half as int);
        let r = s.skip(half as int);
        if rel < half {
            let a = audit_path_spec(l, (e - 1) as nat, rel);
            lemma_audit_len(l, (e - 1) as nat, rel);
            lemma_tree_path(l, (e - 1) as nat, rel);
            assert(l[rel as int] == s[rel as int]);
            lemma_fold_push_lo(s[rel as int], rel, a, tree_root_spec(r, (e - 1) as nat));
        } else {
            let relr = (rel - half) as nat;
            let a = audit_path_spec(r, (e - 1) as nat, relr);
            lemma_audit_len(r, (e - 1) as nat, relr);
            lemma_tree_path(r, (e - 1) as nat, relr);
            assert(r[relr as int] == s[rel as int]);
            lemma_fold_push_hi(s[rel as int], rel, a, tree_root_spec(l, (e - 1) as nat));
        }
    }
}

/// The peak scan yields as many peaks as `pk_count` says.
pub proof fn lemma_pk_count(s: Seq<Seq<u8>>, e: nat)
    ensures
        peaks_spec(s, e).len() == pk_count(s.len(), e),
    decreases e, s.len(),
{
    if s.len() == 0 {
    } else if p2(e) <= s.len() {
        lemma_pk_count(s.skip(p2(e) as int), e);
    } else if e == 0 {
    } else {
        lemma_pk_count(s, (e - 1) as nat);
    }
}

/// A scan never yields more peaks than leaves.
pub proof fn lemma_pk_count_le(n: nat, e: nat)
    ensures
        pk_count(n, e) <= n,
    decreases e, n,
{
    if n == 0 {
    } else if p2(e) <= n {
        lemma_pk_count_le((n - p2(e)) as nat, e);
    } else if e == 0 {
    } else {
        lemma_pk_count_le(n, (e - 1) as nat);
    }
}

/// Where the peak scan puts leaf `i`: its peak's index in the row, the
/// peak's height and first leaf, and the leaf's position inside it — and
/// that the row's entry there is the root of exactly that leaf range.
pub proof fn lemma_locate(s: Seq<Seq<u8>>, e: nat, i: nat)
    requires
        i < s.len(),
    ensures
        loc_start(s.len(), e, i) + p2(loc_exp(s.len(), e, i)) <= s.len(),
        loc_rel(s.len(), e, i) == i - loc_start(s.len(), e, i),
        loc_rel(s.len(), e, i) < p2(loc_exp(s.len(), e, i)),
        loc_idx(s.len(), e, i) < peaks_spec(s, e).len(),
        peaks_spec(s, e)[loc_idx(s.len(), e, i) as int] == tree_root_spec(
            s.subrange(loc_start(s.len(), e, i) as int, loc_start(s.len(), e, i) as int + p2(loc_exp(s.len(), e, i)) as int),
            loc_exp(s.len(), e, i),
        ),
    decreases e, s.len(),
{
    let n = s.len();
    if p2(e) <= n {
        let p = p2(e) as int;
        if i < p2(e) {
            assert(s.subrange(0, p) =~= s.take(p));
        } else {
            let t = s.skip(p);
            lemma_locate(t, e, (i - p2(e)) as nat);
            let st1 = loc_start(t.len(), e, (i - p2(e)) as nat);
            let ex1 = loc_exp(t.len(), e, (i - p2(e)) as nat);
            assert(s.subrange(p + st1, p + st1 + p2(ex1)) =~= t.subrange(st1 as int, st1 as int + p2(ex1) as int));
        }
    } else {
        // here p2(e) > n >= 1, so e > 0
        assert(e > 0) by {
            if e == 0 {
                assert(p2(0nat) == 1);
            }
        };
        lemma_locate(s, (e - 1) as nat, i);
    }
}

/// Why the accumulator refuses a request.
#[derive(Clone, Copy, PartialEq, Eq, Debug)]
pub enum MmrError {
    /// The requested leaf index is at or past the accumulator size.
    IndexOutOfRange,
}

/// Everything needed to check one leaf against one root, with no other
/// state: the leaf hash, its position, the accumulator size, the audit
/// path inside the owning peak, and the full peak row.
#[derive(Clone, Debug)]
pub struct MembershipProof {
    pub leaf: Digest,
    pub index: u64,
    pub mmr_size: u64,
    pub path: Vec<Digest>,
    pub peaks: Vec<Digest>,
}

/// The mathematical content of a membership proof.
pub ghost struct MembershipProofV {
    pub leaf: Seq<u8>,
    pub index: nat,
    pub mmr_size: nat,
    pub path: Seq<Seq<u8>>,
    pub peaks: Seq<Seq<u8>>,
}

impl View for MembershipProof {
    type V = MembershipProofV;

    open spec fn view(&self) -> MembershipProofV {
        MembershipProofV {
            leaf: self.leaf@,
            index: self.index as nat,
            mmr_size: self.mmr_size as nat,
            path: hview(self.path@),
            peaks: hview(self.peaks@),
        }
    }
}

/// When a proof convinces a verifier that holds only `root`: the sizes
/// line up with the claimed accumulator size, folding the leaf up the
/// path recomputes the owning peak, and bagging the peak row gives the
/// root.
pub open spec fn verify_spec(root: Seq<u8>, p: MembershipProofV) -> bool {
    let n = p.mmr_size;
    let e0 = exp_above(n);
    &&& p.index < n
    &&& p.peaks.len() == pk_count(n, e0)
    &&& p.path.len() == loc_exp(n, e0, p.index)
    &&& loc_idx(n, e0, p.index) < p.peaks.len()
    &&& p.peaks[loc_idx(n, e0, p.index) as int] == fold_path_spec(p.leaf, loc_rel(n, e0, p.index), p.path)
    &&& bag_spec(p.peaks) == root
}

/// The proof the accumulator builds for leaf `i` of the leaf hashes `s`.
pub open spec fn proof_spec(s: Seq<Seq<u8>>, i: nat) -> MembershipProofV {
    let n = s.len();
    let e0 = exp_above(n);
    let st = loc_start(n, e0, i);
    let ex = loc_exp(n, e0, i);
    MembershipProofV {
        leaf: s[i as int],
        index: i,
        mmr_size: n,
        path: audit_path_spec(s.subrange(st as int, st as int + p2(ex) as int), ex, loc_rel(n, e0, i)),
        peaks: mmr_peaks(s),
    }
}

/// Completeness: the proof built for any present leaf verifies against
/// the root of the same leaf sequence.
pub proof fn lemma_prove_then_verify(s: Seq<Seq<u8>>, i: nat)
    requires
        i < s.len(),
    ensures
        verify_spec(mmr_root_spec(s), proof_spec(s, i)),
{
    let n = s.len();
    let e0 = exp_above(n);
    lemma_locate(s, e0, i);
    lemma_pk_count(s, e0);
    let st = loc_start(n, e0, i);
    let ex = loc_exp(n, e0, i);
    let rel = loc_rel(n, e0, i);
    let sub = s.subrange(st as int, st as int + p2(ex) as int);
    lemma_audit_len(sub, ex, rel);
    lemma_tree_path(sub, ex, rel);
    assert(sub[rel as int] == s[i as int]);
}

/// Append-only non-interference: appending further leaves never disturbs
/// a committed leaf — the proof built for an old index out of the grown
/// accumulator verifies against the grown accumulator's root.
pub proof fn lemma_membership_survives_append(s: Seq<Seq<u8>>, ext: Seq<Seq<u8>>, i: nat)
    requires
        i < s.len(),
    ensures
        verify_spec(mmr_root_spec(s + ext), proof_spec(s + ext, i)),
        proof_spec(s + ext, i).leaf == s[i as int],
        proof_spec(s + ext, i).index == i,
{
    lemma_prove_then_verify(s + ext, i);
    assert((s + ext)[i as int] == s[i as int]);
}

/// Smallest power of two above `n`, with its exponent.
fn pow_above(n: u64) -> (r: (u128, u64))
    ensures
        r.0 as nat == p2(r.1 as nat),
        r.1 as nat == exp_above(n as nat),
{
    let mut p: u128 = 1;
    let mut e: u64 = 0;
    proof {
        assert(p2(0nat) == 1);
    }
    while p <= n as u128
        invariant
            p as nat == p2(e as nat),
            e as nat == 0 || p2((e as nat - 1) as nat) <= n as nat,
            e as nat + 1 <= p as nat,
            p <= 2 * (n as u128) + 2,
        decreases 2 * (n as int) + 2 - p as int,
    {
        p = p * 2;
        e = e + 1;
    }
    proof {
        lemma_exp_above_unique(n as nat, e as nat);
    }
    (p, e)
}

/// Finds the peak owning leaf `i`: position inside the peak, the peak's
/// height, its index in the row, its first leaf, and its leaf count.
fn locate(n_rem: u64, e64: u64, p: u128, i_rem: u64, Ghost(e): Ghost<nat>) -> (r: (u64, u64, u64, u64, u64))
    requires
        i_rem < n_rem,
        p as nat == p2(e),
        e64 as nat == e,
    ensures
        r.0 as nat == loc_rel(n_rem as nat, e, i_rem as nat),
        r.1 as nat == loc_exp(n_rem as nat, e, i_rem as nat),
        r.2 as nat == loc_idx(n_rem as nat, e, i_rem as nat),
        r.3 as nat == loc_start(n_rem as nat, e, i_rem as nat),
        r.4 as nat == p2(loc_exp(n_rem as nat, e, i_rem as nat)),
        r.2 < n_rem,
        r.3 as nat + r.4 as nat <= n_rem as nat,
    decreases e, n_rem,
{
    if p <= n_rem as u128 {
        if (i_rem as u128) < p {
            (i_rem, e64, 0, 0, p as u64)
        } else {
            let pu = p as u64;
            let r = locate(n_rem - pu, e64, p, i_rem - pu, Ghost(e));
            (r.0, r.1, r.2 + 1, r.3 + pu, r.4)
        }
    } else {
        proof {
            assert(e != 0) by {
                if e == 0 {
                    assert(p2(0nat) == 1);
                }
            };
            assert(p2(e) == 2 * p2((e - 1) as nat));
        }
        locate(n_rem, e64 - 1, p / 2, i_rem, Ghost((e - 1) as nat))
    }
}

/// Counts the peaks of an accumulator of `n_rem` leaves.
fn count_rec(n_rem: u64, e64: u64, p: u128, Ghost(e): Ghost<nat>) -> (c: u64)
    requires
        p as nat == p2(e),
        e64 as nat == e,
    ensures
        c as nat == pk_count(n_rem as nat, e),
        c <= n_rem,
    decreases e, n_rem,
{
    if n_rem == 0 {
        0
    } else if p <= n_rem as u128 {
        1 + count_rec(n_rem - p as u64, e64, p, Ghost(e))
    } else {
        proof {
            assert(e != 0) by {
                if e == 0 {
                    assert(p2(0nat) == 1);
                }
            };
            assert(p2(e) == 2 * p2((e - 1) as nat));
        }
        count_rec(n_rem, e64 - 1, p / 2, Ghost((e - 1) as nat))
    }
}

/// The root of the perfect tree over `leaves[start .. start + p]`.
fn tree_root(leaves: &Vec<Digest>, start: usize, p: usize, Ghost(e): Ghost<nat>) -> (out: Digest)
    requires
        p as nat == p2(e),
        start + p <= leaves.len(),
    ensures
        out@ == tree_root_spec(hview(leaves@).subrange(start as int, start as int + p as int), e),
    decreases e,
{
    if p == 1 {
        proof {
            assert(e == 0) by {
                if e != 0 {
                    assert(p2(e) == 2 * p2((e - 1) as nat));
                }
            };
        }
        leaves[start]
    } else {
        proof {
            assert(e != 0) by {
                if e == 0 {
                    assert(p2(0nat) == 1);
                }
            };
            assert(p2(e) == 2 * p2((e - 1) as nat));
        }
        let half = p / 2;
        let l = tree_root(leaves, start, half, Ghost((e - 1) as nat));
        let r = tree_root(leaves, start + half, half, Ghost((e - 1) as nat));
        proof {
            let s = hview(leaves@).subrange(start as int, start as int + p as int);
            assert(s.take(half as int) =~= hview(leaves@).subrange(start as int, start as int + half as int));
            assert(s.skip(half as int) =~= hview(leaves@).subrange(start as int + half as int, start as int + p as int));
        }
        pair_digest(&l, &r)
    }
}

/// The audit path for position `rel` of the perfect tree over
/// `leaves[start .. start + p]`, leaf level first.
fn tree_path(leaves: &Vec<Digest>, start: usize, p: usize, rel: u64, Ghost(e): Ghost<nat>) -> (v: Vec<Digest>)
    requires
        p as nat == p2(e),
        start + p <= leaves.len(),
        (rel as nat) < p as nat,
    ensures
        hview(v@) == audit_path_spec(hview(leaves@).subrange(start as int, start as int + p as int), e, rel as nat),
    decreases e,
{
    if p == 1 {
        proof {
            assert(e == 0) by {
                if e != 0 {
                    assert(p2(e) == 2 * p2((e - 1) as nat));
                }
            };
            assert(hview(Seq::<Digest>::empty()) =~= audit_path_spec(
                hview(leaves@).subrange(start as int, start as int + 1), 0, rel as nat));
        }
        Vec::new()
    } else {
        proof {
            assert(e != 0) by {
                if e == 0 {
                    assert(p2(0nat) == 1);
                }
            };
            assert(p2(e) == 2 * p2((e - 1) as nat));
        }
        let half = p / 2;
        let ghost s = hview(leaves@).subrange(start as int, start as int + p as int);
        proof {
            assert(s.take(half as int) =~= hview(leaves@).subrange(start as int, start as int + half as int));
            assert(s.skip(half as int) =~= hview(leaves@).subrange(start as int + half as int, start as int + p as int));
        }
        if rel < half as u64 {
            let mut v = tree_path(leaves, start, half, rel, Ghost((e - 1) as nat));
            let sib = tree_root(leaves, start + half, half, Ghost((e - 1) as nat));
            v.push(sib);
            proof {
                assert(hview(v@) =~= audit_path_spec(s.take(half as int), (e - 1) as nat, rel as nat).push(
                    tree_root_spec(s.skip(half as int), (e - 1) as nat)));
            }
            v
        } else {
            let mut v = tree_path(leaves, start + half, half, rel - half as u64, Ghost((e - 1) as nat));
            let sib = tree_root(leaves, start, half, Ghost((e - 1) as nat));
            v.push(sib);
            proof {
                assert(hview(v@) =~= audit_path_spec(s.skip(half as int), (e - 1) as nat, (rel - half) as nat).push(
                    tree_root_spec(s.take(half as int), (e - 1) as nat)));
            }
            v
        }
    }
}

/// Pushes the peak roots of `leaves[offset ..]` onto `out`, scanning
/// candidate peak sizes downward from `p`.
fn peaks_rec(leaves: &Vec<Digest>, offset: usize, e64: u64, p: u128, Ghost(e): Ghost<nat>, out: &mut Vec<Digest>)
    requires
        p as nat == p2(e),
        e64 as nat == e,
        offset <= leaves.len(),
    ensures
        hview(final(out)@) == hview(old(out)@) + peaks_spec(hview(leaves@).skip(offset as int), e),
    decreases e, leaves@.len() - offset,
{
    let n_rem = leaves.len() - offset;
    if n_rem == 0 {
        proof {
            assert(hview(leaves@).skip(offset as int).len() == 0);
            assert(hview(out@) =~= hview(out@) + peaks_spec(hview(leaves@).skip(offset as int), e));
        }
    } else if p <= n_rem as u128 {
        let pu = p as usize;
        let root = tree_root(leaves, offset, pu, Ghost(e));
        out.push(root);
        let ghost mid = out@;
        peaks_rec(leaves, offset + pu, e64, p, Ghost(e), out);
        proof {
            let s = hview(leaves@).skip(offset as int);
            assert(s.take(p as int) =~= hview(leaves@).subrange(offset as int, offset as int + p as int));
            assert(s.skip(p as int) =~= hview(leaves@).skip(offset as int + p as int));
            assert(hview(mid) =~= hview(old(out)@).push(root@));
            assert(hview(final(out)@) =~= hview(old(out)@) + peaks_spec(s, e));
        }
    } else {
        proof {
            assert(e != 0) by {
                if e == 0 {
                    assert(p2(0nat) == 1);
                }
            };
            assert(p2(e) == 2 * p2((e - 1) as nat));
        }
        peaks_rec(leaves, offset, e64 - 1, p / 2, Ghost((e - 1) as nat), out);
    }
}

/// Computes the full peak row of the given leaf hashes.
fn compute_peaks(leaves: &Vec<Digest>) -> (out: Vec<Digest>)
    ensures
        hview(out@) == mmr_peaks(hview(leaves@)),
{
    let (p, e64) = pow_above(leaves.len() as u64);
    let mut out: Vec<Digest> = Vec::new();
    peaks_rec(leaves, 0, e64, p, Ghost(e64 as nat), &mut out);
    proof {
        assert(hview(leaves@).skip(0) =~= hview(leaves@));
        assert(hview(out@) =~= peaks_spec(hview(leaves@), e64 as nat));
    }
    out
}

/// Bags a peak row into one root, left to right.
fn bag_digests(peaks: &Vec<Digest>) -> (out: Digest)
    ensures
        out@ == bag_spec(hview(peaks@)),
{
    if peaks.len() == 0 {
        return zero_digest();
    }
    let mut acc: Digest = peaks[0];
    let mut j: usize = 1;
    proof {
        assert(hview(peaks@).take(1)[0] == hview(peaks@)[0]);
    }
    while j < peaks.len()
        invariant
            1 <= j <= peaks.len(),
            acc@ == bag_spec(hview(peaks@).take(j as int)),
        decreases peaks@.len() - j,
    {
        let next = peaks[j];
        let merged = pair_digest(&acc, &next);
        proof {
            let hv = hview(peaks@);
            assert(hv.take(j as int + 1).drop_last() =~= hv.take(j as int));
            assert(hv.take(j as int + 1).last() == hv[j as int]);
        }
        acc = merged;
        j += 1;
    }
    proof {
        assert(hview(peaks@).take(peaks@.len() as int) =~= hview(peaks@));
    }
    acc
}

/// The accumulator: the ordered, append-only sequence of committed leaf
/// hashes.  Its view is that sequence; root and proofs are functions of
/// it alone.
pub struct Mmr {
    pub leaves: Vec<Digest>,
}

impl View for Mmr {
    type V = Seq<Seq<u8>>;

    open spec fn view(&self) -> Seq<Seq<u8>> {
        hview(self.leaves@)
    }
}

/// The root over the first `upto` of the given leaf hashes: lets a
/// verifier recompute roots of historical accumulator states.
pub fn root_of_hashes(leaves: &Vec<Digest>, upto: usize) -> (r: Digest)
    requires
        upto <= leaves@.len(),
    ensures
        r@ == mmr_root_spec(hview(leaves@).take(upto as int)),
{
    let mut prefix: Vec<Digest> = Vec::new();
    let mut i: usize = 0;
    while i < upto
        invariant
            i <= upto <= leaves@.len(),
            prefix@ =~= leaves@.take(i as int),
        decreases upto - i,
    {
        prefix.push(leaves[i]);
        i += 1;
    }
    let peaks = compute_peaks(&prefix);
    let r = bag_digests(&peaks);
    proof {
        assert(hview(prefix@) =~= hview(leaves@).take(upto as int));
    }
    r
}

impl Mmr {
    /// An empty accumulator.
    pub fn new() -> (m: Mmr)
        ensures
            m@.len() == 0,
    {
        Mmr { leaves: Vec::new() }
    }

    /// How many leaves have been committed.
    pub fn size(&self) -> (n: u64)
        ensures
            n as nat == self@.len(),
    {
        self.leaves.len() as u64
    }

    /// The current bagged root: a function of the leaf sequence alone.
    pub fn root(&self) -> (r: Digest)
        ensures
            r@ == mmr_root_spec(self@),
    {
        let peaks = compute_peaks(&self.leaves);
        bag_digests(&peaks)
    }

    /// Appends a leaf hash at the next free index and returns that index
    /// together with the new root.
    pub fn append(&mut self, leaf_hash: &Digest) -> (r: (u64, Digest))
        requires
            old(self)@.len() < u64::MAX,
        ensures
            final(self)@ == old(self)@.push(leaf_hash@),
            r.0 as nat == old(self)@.len(),
            r.1@ == mmr_root_spec(final(self)@),
    {
        let index = self.leaves.len() as u64;
        self.leaves.push(*leaf_hash);
        proof {
            assert(hview(self.leaves@) =~= hview(old(self).leaves@).push(leaf_hash@));
        }
        let root = self.root();
        (index, root)
    }

    /// Builds the membership proof for the leaf at `index`, or reports
    /// `IndexOutOfRange` exactly when `index` is at or past the size.
    pub fn prove_membership(&self, index: u64) -> (r: Result<MembershipProof, MmrError>)
        ensures
            (index as nat >= self@.len()) <==> r is Err,
            r matches Err(er) ==> er == MmrError::IndexOutOfRange,
            r matches Ok(pf) ==> pf@ == proof_spec(self@, index as nat),
    {
        let n = self.leaves.len() as u64;
        if index >= n {
            return Err(MmrError::IndexOutOfRange);
        }
        let (p0, e64) = pow_above(n);
        let loc = locate(n, e64, p0, index, Ghost(e64 as nat));
        let rel = loc.0;
        let st = loc.3;
        let psize = loc.4;
        proof {
            lemma_locate(self@, e64 as nat, index as nat);
        }
        let path = tree_path(&self.leaves, st as usize, psize as usize, rel, Ghost(loc_exp(n as nat, e64 as nat, index as nat)));
        let peaks = compute_peaks(&self.leaves);
        let pf = MembershipProof {
            leaf: self.leaves[index as usize],
            index,
            mmr_size: n,
            path,
            peaks,
        };
        proof {
            let s = self@;
            assert(pf@ == proof_spec(s, index as nat));
        }
        Ok(pf)
    }
}

/// Checks a membership proof against a root, with no other state: a pure
/// function usable standalone by a spoke.
pub fn verify_membership(root: &Digest, proof: &MembershipProof) -> (b: bool)
    ensures
        b == verify_spec(root@, proof@),
{
    let n = proof.mmr_size;
    if proof.index >= n {
        return false;
    }
    let (p0, e64) = pow_above(n);
    let loc = locate(n, e64, p0, proof.index, Ghost(e64 as nat));
    let rel = loc.0;
    let ex = loc.1;
    let idx = loc.2;
    let c = count_rec(n, e64, p0, Ghost(e64 as nat));
    if proof.peaks.len() as u64 != c {
        return false;
    }
    if proof.path.len() as u64 != ex {
        return false;
    }
    proof {
        // the location indices depend on the size alone, so any sequence
        // of that length places them inside the peak row
        let s0 = Seq::<Seq<u8>>::new(n as nat, |j: int| zero_hash());
        lemma_locate(s0, e64 as nat, proof.index as nat);
        lemma_pk_count(s0, e64 as nat);
    }
    let mut cur: Digest = proof.leaf;
    let mut r: u64 = rel;
    let mut lvl: usize = 0;
    proof {
        assert(hview(proof.path@).skip(0) =~= hview(proof.path@));
    }
    while lvl < proof.path.len()
        invariant
            lvl <= proof.path.len(),
            fold_path_spec(proof.leaf@, rel as nat, hview(proof.path@)) == fold_path_spec(
                cur@, r as nat, hview(proof.path@).skip(lvl as int)),
        decreases proof.path@.len() - lvl,
    {
        let sib = proof.path[lvl];
        let step = if r % 2 == 0 {
            pair_digest(&cur, &sib)
        } else {
            pair_digest(&sib, &cur)
        };
        proof {
            let tail = hview(proof.path@).skip(lvl as int);
            assert(tail[0] == hview(proof.path@)[lvl as int]);
            assert(tail.drop_first() =~= hview(proof.path@).skip(lvl as int + 1));
        }
        cur = step;
        r = r / 2;
        lvl += 1;
    }
    proof {
        assert(hview(proof.path@).skip(proof.path@.len() as int) =~= Seq::<Seq<u8>>::empty());
    }
    if !digest_eq(&cur, &proof.peaks[idx as usize]) {
        return false;
    }
    let bag = bag_digests(&proof.peaks);
    digest_eq(&bag, root)
}

} // verus!
