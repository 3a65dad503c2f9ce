//! The BB84 protocol engine: preparation, interception, measurement,
//! reconciliation, error estimation and key extraction.
use crate::encoding::{basis_label, basis_to_string, bits_to_hex, hex_of};
use crate::entropy::{random_below, random_bit};
use vstd::prelude::*;

verus! {

/// A measurement basis.
#[derive(Debug, Clone, Copy, PartialEq, Eq, Structural)]
pub enum Basis {
    Rectilinear,
    Diagonal,
}

/// One qubit as classically simulated: the bit it carries and the basis it
/// was prepared in.
#[derive(Debug, Clone, Copy, PartialEq, Eq, Structural)]
pub struct Qubit {
    pub bit: bool,
    pub basis: Basis,
}

/// The probability with which an eavesdropper intercepts a qubit, held as a
/// threshold out of `RATE_SCALE`: a qubit is intercepted when a uniform draw
/// below `RATE_SCALE` falls below the threshold.
pub struct InterceptRate {
    scaled: u64,
}

/// The number of equally likely outcomes of an interception draw.
pub const RATE_SCALE: u64 = 9007199254740992;

/// The result of sampling a shared key for errors.
pub struct ErrorEstimate {
    /// Sampled positions at which the two keys differ.
    pub errors: usize,
    /// Number of distinct positions sampled.
    pub sampled: usize,
    /// Whether the error rate `errors / sampled` exceeds eleven percent.
    pub eavesdropping_detected: bool,
}

/// Everything one run of the protocol produces.
pub struct KeyGenerationResult {
    pub alice_bits: Vec<bool>,
    pub alice_bases: Vec<String>,
    pub bob_bases: Vec<String>,
    pub raw_key: Vec<bool>,
    pub final_key: Vec<bool>,
    /// Sampled positions at which the two sides' sifted keys differ.
    pub errors: usize,
    /// Number of distinct positions sampled; the error rate is
    /// `errors / sampled`, or zero when nothing was sampled.
    pub sampled: usize,
    pub eavesdropping_detected: bool,
    pub key_hex: String,
}

/// A run of the protocol that asks for keys of a fixed length.
pub struct BB84Protocol {
    key_length: usize,
}

/// The basis that a random draw selects.
pub open spec fn basis_of_draw(draw: bool) -> Basis {
    if draw {
        Basis::Diagonal
    } else {
        Basis::Rectilinear
    }
}

/// The error rate `errors / sampled` exceeds the eleven percent threshold.
pub open spec fn exceeds_threshold(errors: int, sampled: int) -> bool {
    errors * 100 > sampled * 11
}

/// The bits of `bits` at the positions where the two basis sequences agree,
/// in order.
pub open spec fn sift(bits: Seq<bool>, a: Seq<Basis>, b: Seq<Basis>) -> Seq<bool>
    decreases a.len(),
{
    if a.len() == 0 {
        seq![]
    } else {
        let rest = sift(bits.drop_last(), a.drop_last(), b.drop_last());
        if a.last() == b.last() {
            rest.push(bits.last())
        } else {
            rest
        }
    }
}

/// The sequence of labels of a basis sequence.
pub open spec fn labels(bases: Seq<Basis>) -> Seq<Seq<char>> {
    bases.map_values(|b: Basis| basis_label(b))
}

/// The number of sampled positions at which two keys differ.
pub open spec fn mismatches(a: Seq<bool>, b: Seq<bool>, idx: Seq<usize>) -> nat
    decreases idx.len(),
{
    if idx.len() == 0 {
        0
    } else {
        mismatches(a, b, idx.drop_last()) + if a[idx.last() as int] != b[idx.last() as int] {
            1nat
        } else {
            0nat
        }
    }
}

/// No element of the sequence occurs twice.
pub open spec fn distinct(s: Seq<usize>) -> bool {
    forall|i: int, j: int| 0 <= i < j < s.len() ==> s[i] != s[j]
}

/// The text of each string of a sequence.
pub open spec fn texts(v: Seq<String>) -> Seq<Seq<char>> {
    v.map_values(|s: String| s@)
}

/// The number of positions sampled when the sifted key has `n` bits: a
/// quarter of the key but at least ten, capped at half of the key.
pub open spec fn sample_count(n: int) -> int {
    let wanted = if n / 4 > 10 { n / 4 } else { 10 };
    if wanted < n / 2 { wanted } else { n / 2 }
}

/// What every run produces for a key length of `key_length`: twice as many
/// raw bits and bases as the key length; a sifted key made of Alice's bits
/// where the two parties' bases agree; a final key that is its first
/// `min(len(sifted key), key_length)` bits, in hexadecimal; and a sample of
/// distinct positions whose error rate, at most one, is judged against the
/// eleven percent threshold.
pub open spec fn run_shape(r: KeyGenerationResult, key_length: nat) -> bool {
    let raw_len = r.raw_key@.len() as int;
    &&& r.alice_bits@.len() == 2 * key_length
    &&& r.alice_bases@.len() == 2 * key_length
    &&& r.bob_bases@.len() == 2 * key_length
    &&& exists|a: Seq<Basis>, b: Seq<Basis>|
        a.len() == 2 * key_length && b.len() == 2 * key_length
            && texts(r.alice_bases@) == labels(a) && texts(r.bob_bases@) == labels(b)
            && #[trigger] sift(r.alice_bits@, a, b) == r.raw_key@
    &&& raw_len <= 2 * key_length
    &&& r.final_key@ == r.raw_key@.take(if raw_len < key_length { raw_len } else { key_length as int })
    &&& r.final_key@.len() <= key_length
    &&& r.key_hex@ == hex_of(r.final_key@)
    &&& r.sampled == sample_count(raw_len)
    &&& r.errors <= r.sampled
    &&& r.eavesdropping_detected == exceeds_threshold(r.errors as int, r.sampled as int)
}

/// The qubit after Eve's draws: intercepted when `draw` is below
/// `threshold`, and its bit replaced by `new_bit` when the basis selected by
/// `eve_draw` is not the qubit's.
pub open spec fn intercepted(q: Qubit, draw: int, eve_draw: bool, new_bit: bool, threshold: nat) -> Qubit {
    if draw < threshold && basis_of_draw(eve_draw) != q.basis {
        Qubit { bit: new_bit, basis: q.basis }
    } else {
        q
    }
}

/// `after` is what Eve makes of `before` for some draw below `RATE_SCALE`.
pub open spec fn interception_outcome(before: Qubit, after: Qubit, threshold: nat) -> bool {
    exists|draw: int, eve_draw: bool, new_bit: bool|
        0 <= draw < RATE_SCALE && after == #[trigger] intercepted(before, draw, eve_draw, new_bit, threshold)
}

/// The sifted key is no longer than the basis sequences.
pub proof fn lemma_sift_len(bits: Seq<bool>, a: Seq<Basis>, b: Seq<Basis>)
    ensures
        sift(bits, a, b).len() <= a.len(),
    decreases a.len(),
{
    if a.len() > 0 {
        lemma_sift_len(bits.drop_last(), a.drop_last(), b.drop_last());
    }
}

proof fn lemma_no_mismatch(a: Seq<bool>, b: Seq<bool>, idx: Seq<usize>, n: int)
    requires
        forall|i: int| 0 <= i < n ==> a[i] == b[i],
        forall|j: int| 0 <= j < idx.len() ==> idx[j] < n,
    ensures
        mismatches(a, b, idx) == 0,
    decreases idx.len(),
{
    if idx.len() > 0 {
        lemma_no_mismatch(a, b, idx.drop_last(), n);
    }
}

impl InterceptRate {
    /// The threshold out of `RATE_SCALE`.
    pub closed spec fn threshold(&self) -> nat {
        self.scaled as nat
    }

    /// A rate of `scaled / RATE_SCALE`; `None` when that exceeds one.
    pub fn from_scaled(scaled: u64) -> (r: Option<InterceptRate>)
        ensures
            r.is_some() == (scaled <= RATE_SCALE),
            r.is_some() ==> r.unwrap().threshold() == scaled,
    {
        if scaled <= RATE_SCALE {
            Some(InterceptRate { scaled })
        } else {
            None
        }
    }

    /// The threshold out of `RATE_SCALE`.
    pub fn scaled(&self) -> (r: u64)
        ensures
            r == self.threshold(),
    {
        self.scaled
    }
}

impl BB84Protocol {
    /// The requested key length.
    pub closed spec fn key_len(&self) -> nat {
        self.key_length as nat
    }

    /// A protocol that produces keys of `key_length` bits from twice as many
    /// raw bits.
    pub fn new(key_length: usize) -> (r: Self)
        requires
            0 < key_length <= usize::MAX / 2,
        ensures
            r.key_len() == key_length,
    {
        BB84Protocol { key_length }
    }

    /// The requested key length.
    pub fn key_length(&self) -> (r: usize)
        ensures
            r == self.key_len(),
    {
        self.key_length
    }

    /// Alice's random bits and bases, twice as many as the key length.
    pub fn alice_generate(&self) -> (r: (Vec<bool>, Vec<Basis>))
        requires
            self.key_len() <= usize::MAX / 2,
        ensures
            r.0@.len() == 2 * self.key_len(),
            r.1@.len() == 2 * self.key_len(),
    {
        let count = self.key_length * 2;
        let mut bits: Vec<bool> = Vec::new();
        let mut i: usize = 0;
        while i < count
            invariant
                i <= count,
                bits@.len() == i,
            decreases count - i,
        {
            bits.push(random_bit());
            i = i + 1;
        }
        let bases = random_bases(count);
        (bits, bases)
    }

    /// Bob's random measurement bases, twice as many as the key length.
    pub fn bob_choose_bases(&self) -> (r: Vec<Basis>)
        requires
            self.key_len() <= usize::MAX / 2,
        ensures
            r@.len() == 2 * self.key_len(),
    {
        random_bases(self.key_length * 2)
    }

    /// Bob's measurement: the qubit's bit where his basis is the qubit's
    /// basis, a fresh random bit elsewhere.
    pub fn bob_measure(&self, qubits: &[Qubit], bob_bases: &[Basis]) -> (r: Vec<bool>)
        requires
            qubits@.len() == bob_bases@.len(),
        ensures
            r@.len() == qubits@.len(),
            forall|i: int| 0 <= i < r@.len() && qubits@[i].basis == bob_bases@[i] ==> r@[i] == qubits@[i].bit,
    {
        let mut r: Vec<bool> = Vec::new();
        let mut i: usize = 0;
        while i < qubits.len()
            invariant
                i <= qubits@.len(),
                qubits@.len() == bob_bases@.len(),
                r@.len() == i,
                forall|k: int| 0 <= k < i && qubits@[k].basis == bob_bases@[k] ==> r@[k] == qubits@[k].bit,
            decreases qubits.len() - i,
        {
            let q = qubits[i];
            if q.basis == bob_bases[i] {
                r.push(q.bit);
            } else {
                r.push(random_bit());
            }
            i = i + 1;
        }
        r
    }

    /// Eve intercepts each qubit with the given probability, measuring it in
    /// a random basis; a wrong guess replaces the bit with a random one. Each
    /// qubit becomes what `intercept_qubit` makes of it for some draw, and
    /// nothing changes at a rate of zero.
    pub fn intercept(&self, qubits: &mut Vec<Qubit>, rate: &InterceptRate)
        ensures
            final(qubits)@.len() == old(qubits)@.len(),
            forall|i: int| 0 <= i < final(qubits)@.len() ==>
                interception_outcome(old(qubits)@[i], #[trigger] final(qubits)@[i], rate.threshold()),
            forall|i: int| 0 <= i < final(qubits)@.len() ==> final(qubits)@[i].basis == old(qubits)@[i].basis,
            rate.threshold() == 0 ==> final(qubits)@ == old(qubits)@,
    {
        if rate.scaled == 0 {
            proof {
                assert forall|i: int| 0 <= i < qubits@.len() implies
                    interception_outcome(old(qubits)@[i], #[trigger] qubits@[i], rate.threshold()) by {
                    assert(intercepted(qubits@[i], 0, false, false, 0) == qubits@[i]);
                }
            }
            return;
        }
        let mut i: usize = 0;
        while i < qubits.len()
            invariant
                i <= qubits@.len(),
                qubits@.len() == old(qubits)@.len(),
                forall|k: int| i <= k < qubits@.len() ==> qubits@[k] == old(qubits)@[k],
                forall|k: int| 0 <= k < i ==>
                    interception_outcome(old(qubits)@[k], #[trigger] qubits@[k], rate.threshold()),
                forall|k: int| 0 <= k < qubits@.len() ==> qubits@[k].basis == old(qubits)@[k].basis,
            decreases qubits@.len() - i,
        {
            let draw = random_below(RATE_SCALE);
            let eve_draw = random_bit();
            let new_bit = random_bit();
            let q = qubits[i];
            let r = intercept_qubit(q, draw, eve_draw, new_bit, rate);
            qubits.set(i, r);
            proof {
                assert(r == intercepted(q, draw as int, eve_draw, new_bit, rate.threshold()));
            }
            i = i + 1;
        }
    }

    /// Samples distinct positions of the common part of two keys for errors:
    /// `sample_size` of them, but no more than half of the common part.
    pub fn detect_eavesdropping(&self, alice_key: &[bool], bob_key: &[bool], sample_size: usize) -> (r: ErrorEstimate)
        ensures
            ({
                let n = if alice_key@.len() < bob_key@.len() { alice_key@.len() as int } else { bob_key@.len() as int };
                &&& r.sampled == (if sample_size < n / 2 { sample_size as int } else { n / 2 })
                &&& r.errors <= r.sampled
                &&& r.eavesdropping_detected == exceeds_threshold(r.errors as int, r.sampled as int)
                &&& (exists|idx: Seq<usize>|
                    idx.len() == r.sampled && distinct(idx) && (forall|j: int| 0 <= j < idx.len() ==> idx[j] < n)
                        && r.errors == mismatches(alice_key@, bob_key@, idx))
                &&& ((forall|i: int| 0 <= i < n ==> alice_key@[i] == bob_key@[i]) ==> r.errors == 0)
            }),
    {
        let key_len = if alice_key.len() < bob_key.len() { alice_key.len() } else { bob_key.len() };
        if key_len == 0 {
            proof {
                assert(mismatches(alice_key@, bob_key@, seq![]) == 0);
            }
            return ErrorEstimate { errors: 0, sampled: 0, eavesdropping_detected: false };
        }
        let actual = if sample_size < key_len / 2 { sample_size } else { key_len / 2 };
        let indices = sample_indices(key_len, actual);
        let r = estimate_errors(alice_key, bob_key, &indices);
        proof {
            assert(indices@.len() == r.sampled);
            if forall|i: int| 0 <= i < key_len ==> alice_key@[i] == bob_key@[i] {
                lemma_no_mismatch(alice_key@, bob_key@, indices@, key_len as int);
            }
        }
        r
    }

    /// A clean run: no interception, and the sifted key is checked against
    /// itself, so no error is ever found.
    pub fn generate_key(&self) -> (r: KeyGenerationResult)
        requires
            self.key_len() <= usize::MAX / 2,
        ensures
            run_shape(r, self.key_len()),
            r.errors == 0,
            !r.eavesdropping_detected,
    {
        let (alice_bits, alice_bases) = self.alice_generate();
        let qubits = self.alice_prepare(&alice_bits, &alice_bases);
        let bob_bases = self.bob_choose_bases();
        let bob_bits = self.bob_measure(&qubits, &bob_bases);
        let (sifted_key, _) = self.reconcile_bases(&alice_bits, &alice_bases, &bob_bits, &bob_bases);
        let sample_size = detection_sample_size(sifted_key.len());
        let estimate = self.detect_eavesdropping(&sifted_key, &sifted_key, sample_size);
        let final_key = self.extract_final_key(&sifted_key, self.key_length);
        let key_hex = bits_to_hex(&final_key);
        let alice_labels = basis_labels(&alice_bases);
        let bob_labels = basis_labels(&bob_bases);
        proof {
            lemma_sift_len(alice_bits@, alice_bases@, bob_bases@);
        }
        let r = KeyGenerationResult {
            alice_bits,
            alice_bases: alice_labels,
            bob_bases: bob_labels,
            raw_key: sifted_key,
            final_key,
            errors: estimate.errors,
            sampled: estimate.sampled,
            eavesdropping_detected: estimate.eavesdropping_detected,
            key_hex,
        };
        proof {
            assert(r.alice_bits@.len() == alice_bases@.len() && r.raw_key@ == sift(r.alice_bits@, alice_bases@, bob_bases@));
        }
        r
    }

    /// A run in which Eve intercepts each qubit with the given probability;
    /// Bob's bits at the matching positions are checked against Alice's.
    pub fn generate_key_with_eve(&self, eve_intercept_rate: InterceptRate) -> (r: KeyGenerationResult)
        requires
            self.key_len() <= usize::MAX / 2,
        ensures
            run_shape(r, self.key_len()),
            eve_intercept_rate.threshold() == 0 ==> r.errors == 0 && !r.eavesdropping_detected,
    {
        let (alice_bits, alice_bases) = self.alice_generate();
        let mut qubits = self.alice_prepare(&alice_bits, &alice_bases);
        let ghost sent = qubits@;
        self.intercept(&mut qubits, &eve_intercept_rate);
        let bob_bases = self.bob_choose_bases();
        let bob_bits = self.bob_measure(&qubits, &bob_bases);
        let (alice_sifted, matching_indices) = self.reconcile_bases(&alice_bits, &alice_bases, &bob_bits, &bob_bases);
        let bob_sifted = select(&bob_bits, &matching_indices);
        let sample_size = detection_sample_size(alice_sifted.len());
        let estimate = self.detect_eavesdropping(&alice_sifted, &bob_sifted, sample_size);
        proof {
            if eve_intercept_rate.threshold() == 0 {
                assert forall|j: int| 0 <= j < alice_sifted@.len() implies alice_sifted@[j] == bob_sifted@[j] by {
                    let i = matching_indices@[j] as int;
                    assert(alice_bases@[i] == bob_bases@[i]);
                    assert(qubits@[i] == sent[i]);
                }
            }
        }
        let final_key = self.extract_final_key(&alice_sifted, self.key_length);
        let key_hex = bits_to_hex(&final_key);
        let alice_labels = basis_labels(&alice_bases);
        let bob_labels = basis_labels(&bob_bases);
        proof {
            lemma_sift_len(alice_bits@, alice_bases@, bob_bases@);
        }
        let r = KeyGenerationResult {
            alice_bits,
            alice_bases: alice_labels,
            bob_bases: bob_labels,
            raw_key: alice_sifted,
            final_key,
            errors: estimate.errors,
            sampled: estimate.sampled,
            eavesdropping_detected: estimate.eavesdropping_detected,
            key_hex,
        };
        proof {
            assert(r.alice_bits@.len() == alice_bases@.len() && r.raw_key@ == sift(r.alice_bits@, alice_bases@, bob_bases@));
        }
        r
    }

    /// Pairs each bit with the basis at the same position.
    pub fn alice_prepare(&self, bits: &[bool], bases: &[Basis]) -> (r: Vec<Qubit>)
        requires
            bits@.len() == bases@.len(),
        ensures
            r@.len() == bits@.len(),
            forall|i: int| 0 <= i < r@.len() ==> r@[i] == (Qubit { bit: bits@[i], basis: bases@[i] }),
    {
        let mut r: Vec<Qubit> = Vec::new();
        let mut i: usize = 0;
        while i < bits.len()
            invariant
                i <= bits@.len(),
                bits@.len() == bases@.len(),
                r@.len() == i,
                forall|k: int| 0 <= k < i ==> r@[k] == (Qubit { bit: bits@[k], basis: bases@[k] }),
            decreases bits.len() - i,
        {
            r.push(Qubit { bit: bits[i], basis: bases[i] });
            i = i + 1;
        }
        r
    }

    /// Keeps Alice's bits where the two parties chose the same basis, with the
    /// positions kept, in ascending order.
    pub fn reconcile_bases(
        &self,
        alice_bits: &[bool],
        alice_bases: &[Basis],
        _bob_bits: &[bool],
        bob_bases: &[Basis],
    ) -> (r: (Vec<bool>, Vec<usize>))
        requires
            alice_bits@.len() == alice_bases@.len(),
            alice_bases@.len() == bob_bases@.len(),
        ensures
            r.0@ == sift(alice_bits@, alice_bases@, bob_bases@),
            r.0@.len() == r.1@.len(),
            forall|j: int| 0 <= j < r.1@.len() ==> r.1@[j] < alice_bases@.len(),
            forall|j: int, k: int| 0 <= j < k < r.1@.len() ==> r.1@[j] < r.1@[k],
            forall|j: int| 0 <= j < r.1@.len() ==> alice_bases@[r.1@[j] as int] == bob_bases@[r.1@[j] as int],
            forall|m: int| 0 <= m < alice_bases@.len() && alice_bases@[m] == bob_bases@[m] ==>
                exists|j: int| 0 <= j < r.1@.len() && r.1@[j] == m,
            forall|j: int| 0 <= j < r.0@.len() ==> r.0@[j] == alice_bits@[r.1@[j] as int],
    {
        let mut sifted_key: Vec<bool> = Vec::new();
        let mut matching_indices: Vec<usize> = Vec::new();
        let mut i: usize = 0;
        while i < alice_bases.len()
            invariant
                i <= alice_bases@.len(),
                alice_bits@.len() == alice_bases@.len(),
                alice_bases@.len() == bob_bases@.len(),
                sifted_key@ == sift(alice_bits@.take(i as int), alice_bases@.take(i as int), bob_bases@.take(i as int)),
                sifted_key@.len() == matching_indices@.len(),
                forall|j: int| 0 <= j < matching_indices@.len() ==> matching_indices@[j] < i,
                forall|j: int, k: int| 0 <= j < k < matching_indices@.len() ==> matching_indices@[j] < matching_indices@[k],
                forall|j: int| 0 <= j < matching_indices@.len() ==>
                    alice_bases@[matching_indices@[j] as int] == bob_bases@[matching_indices@[j] as int],
                forall|m: int| 0 <= m < i && alice_bases@[m] == bob_bases@[m] ==>
                    exists|j: int| 0 <= j < matching_indices@.len() && matching_indices@[j] == m,
                forall|j: int| 0 <= j < sifted_key@.len() ==> sifted_key@[j] == alice_bits@[matching_indices@[j] as int],
            decreases alice_bases.len() - i,
        {
            proof {
                assert(alice_bits@.take(i + 1).drop_last() =~= alice_bits@.take(i as int));
                assert(alice_bases@.take(i + 1).drop_last() =~= alice_bases@.take(i as int));
                assert(bob_bases@.take(i + 1).drop_last() =~= bob_bases@.take(i as int));
            }
            let ghost prev = matching_indices@;
            if alice_bases[i] == bob_bases[i] {
                sifted_key.push(alice_bits[i]);
                matching_indices.push(i);
                proof {
                    assert forall|m: int| 0 <= m < i + 1 && alice_bases@[m] == bob_bases@[m] implies
                        exists|j: int| 0 <= j < matching_indices@.len() && matching_indices@[j] == m by {
                        if m < i {
                            let j = choose|j: int| 0 <= j < prev.len() && prev[j] == m;
                            assert(matching_indices@[j] == m);
                        } else {
                            assert(matching_indices@[prev.len() as int] == m);
                        }
                    }
                }
            }
            i = i + 1;
        }
        proof {
            assert(alice_bits@.take(i as int) =~= alice_bits@);
            assert(alice_bases@.take(i as int) =~= alice_bases@);
            assert(bob_bases@.take(i as int) =~= bob_bases@);
        }
        let r = (sifted_key, matching_indices);
        proof {
            assert forall|m: int| 0 <= m < alice_bases@.len() && alice_bases@[m] == bob_bases@[m] implies
                exists|j: int| 0 <= j < r.1@.len() && r.1@[j] == m by {
                assert(m < i);
                let j = choose|j: int| 0 <= j < matching_indices@.len() && matching_indices@[j] == m;
                assert(r.1@[j] == m);
            }
        }
        r
    }

    /// The first `min(sifted_key.len(), target_length)` bits of the sifted key.
    pub fn extract_final_key(&self, sifted_key: &[bool], target_length: usize) -> (r: Vec<bool>)
        ensures
            r@ == sifted_key@.take(
                if sifted_key@.len() < target_length { sifted_key@.len() as int } else { target_length as int },
            ),
            r@.len() <= target_length,
    {
        let available = if sifted_key.len() < target_length { sifted_key.len() } else { target_length };
        let mut r: Vec<bool> = Vec::new();
        let mut i: usize = 0;
        while i < available
            invariant
                i <= available,
                available <= sifted_key@.len(),
                r@ == sifted_key@.take(i as int),
            decreases available - i,
        {
            r.push(sifted_key[i]);
            proof {
                assert(r@ =~= sifted_key@.take(i + 1));
            }
            i = i + 1;
        }
        r
    }
}


/// What Eve does to one qubit, given her draws: when `draw` falls below the
/// rate's threshold she measures in the basis that `eve_draw` selects, and a
/// wrong guess leaves `new_bit` in place of the qubit's bit.
pub fn intercept_qubit(q: Qubit, draw: u64, eve_draw: bool, new_bit: bool, rate: &InterceptRate) -> (r: Qubit)
    ensures
        r == intercepted(q, draw as int, eve_draw, new_bit, rate.threshold()),
{
    if draw < rate.scaled {
        let eve_basis = basis_from(eve_draw);
        if eve_basis != q.basis {
            return Qubit { bit: new_bit, basis: q.basis };
        }
    }
    q
}

/// The basis that a random draw selects.
fn basis_from(draw: bool) -> (r: Basis)
    ensures
        r == basis_of_draw(draw),
{
    if draw {
        Basis::Diagonal
    } else {
        Basis::Rectilinear
    }
}

fn random_bases(count: usize) -> (r: Vec<Basis>)
    ensures
        r@.len() == count,
{
    let mut bases: Vec<Basis> = Vec::new();
    let mut i: usize = 0;
    while i < count
        invariant
            i <= count,
            bases@.len() == i,
        decreases count - i,
    {
        bases.push(basis_from(random_bit()));
        i = i + 1;
    }
    bases
}

/// The number of positions to sample from a sifted key of `len` bits: a
/// quarter of it, but at least ten.
fn detection_sample_size(len: usize) -> (r: usize)
    ensures
        r == (if len / 4 > 10 { len / 4 } else { 10 }),
{
    if len / 4 > 10 {
        len / 4
    } else {
        10
    }
}

fn basis_labels(bases: &[Basis]) -> (r: Vec<String>)
    ensures
        r@.len() == bases@.len(),
        texts(r@) == labels(bases@),
{
    let mut r: Vec<String> = Vec::new();
    let mut i: usize = 0;
    while i < bases.len()
        invariant
            i <= bases@.len(),
            r@.len() == i,
            forall|k: int| 0 <= k < i ==> r@[k]@ == basis_label(bases@[k]),
        decreases bases.len() - i,
    {
        let label = basis_to_string(&bases[i]);
        r.push(label);
        i = i + 1;
    }
    proof {
        assert(texts(r@) =~= labels(bases@));
    }
    r
}

fn select(bits: &[bool], indices: &[usize]) -> (r: Vec<bool>)
    requires
        forall|j: int| 0 <= j < indices@.len() ==> indices@[j] < bits@.len(),
    ensures
        r@.len() == indices@.len(),
        forall|j: int| 0 <= j < r@.len() ==> r@[j] == bits@[indices@[j] as int],
{
    let mut r: Vec<bool> = Vec::new();
    let mut j: usize = 0;
    while j < indices.len()
        invariant
            j <= indices@.len(),
            forall|m: int| 0 <= m < indices@.len() ==> indices@[m] < bits@.len(),
            r@.len() == j,
            forall|m: int| 0 <= m < j ==> r@[m] == bits@[indices@[m] as int],
        decreases indices.len() - j,
    {
        r.push(bits[indices[j]]);
        j = j + 1;
    }
    r
}

/// Draws `amount` distinct positions below `len`, each ordered selection
/// equally likely (a partial Fisher-Yates shuffle of `0..len`).
pub fn sample_indices(len: usize, amount: usize) -> (r: Vec<usize>)
    requires
        amount <= len,
    ensures
        r@.len() == amount,
        distinct(r@),
        forall|j: int| 0 <= j < r@.len() ==> r@[j] < len,
{
    let mut pool: Vec<usize> = Vec::new();
    let mut n: usize = 0;
    while n < len
        invariant
            n <= len,
            pool@.len() == n,
            forall|k: int| 0 <= k < n ==> pool@[k] == k,
        decreases len - n,
    {
        pool.push(n);
        n = n + 1;
    }
    let mut picked: Vec<usize> = Vec::new();
    let mut k: usize = 0;
    while k < amount
        invariant
            amount <= len,
            k <= amount,
            pool@.len() == len,
            distinct(pool@),
            forall|m: int| 0 <= m < len ==> pool@[m] < len,
            picked@ == pool@.take(k as int),
        decreases amount - k,
    {
        let j = k + random_below((len - k) as u64) as usize;
        let a = pool[k];
        let b = pool[j];
        pool.set(k, b);
        pool.set(j, a);
        picked.push(b);
        proof {
            assert(picked@ =~= pool@.take(k + 1));
        }
        k = k + 1;
    }
    picked
}

/// Counts the sampled positions at which two keys differ and applies the
/// eleven percent threshold to the resulting error rate.
pub fn estimate_errors(alice_key: &[bool], bob_key: &[bool], indices: &[usize]) -> (r: ErrorEstimate)
    requires
        forall|j: int| 0 <= j < indices@.len() ==> indices@[j] < alice_key@.len() && indices@[j] < bob_key@.len(),
    ensures
        r.errors == mismatches(alice_key@, bob_key@, indices@),
        r.sampled == indices@.len(),
        r.errors <= r.sampled,
        r.eavesdropping_detected == exceeds_threshold(r.errors as int, r.sampled as int),
{
    let mut errors: usize = 0;
    let mut j: usize = 0;
    while j < indices.len()
        invariant
            j <= indices@.len(),
            forall|m: int| 0 <= m < indices@.len() ==> indices@[m] < alice_key@.len() && indices@[m] < bob_key@.len(),
            errors == mismatches(alice_key@, bob_key@, indices@.take(j as int)),
            errors <= j,
        decreases indices.len() - j,
    {
        proof {
            assert(indices@.take(j + 1).drop_last() =~= indices@.take(j as int));
        }
        let idx = indices[j];
        if alice_key[idx] != bob_key[idx] {
            errors = errors + 1;
        }
        j = j + 1;
    }
    proof {
        assert(indices@.take(j as int) =~= indices@);
    }
    let detected = errors as u128 * 100 > indices.len() as u128 * 11;
    ErrorEstimate { errors, sampled: indices.len(), eavesdropping_detected: detected }
}

} // verus!
