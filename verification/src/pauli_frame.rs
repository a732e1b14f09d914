//! Pauli frame tracking.
//!
//! Two packed bit registers record which qubits carry an accumulated X or
//! Z error.  Clifford gates act by conjugation: a Hadamard swaps a
//! qubit's X and Z bits, a CNOT propagates X from control to target and Z
//! from target to control.  The frame predicts measurement outcomes; a
//! measurement that disagrees with the prediction fires a syndrome.

use vstd::prelude::*;

verus! {

use crate::bit_utils::{BitPack, bit_get, lemma_zero_words};

/// Pauli frame over a fixed number of qubits, X and Z error bits packed
/// into `u64` words.
pub struct PauliFrame {
    x_register: Vec<u64>,
    z_register: Vec<u64>,
}

impl PauliFrame {
    /// Number of qubit slots carried (a multiple of 64).
    pub closed spec fn bit_len(&self) -> int {
        self.x_register@.len() * 64int
    }

    /// Frame invariant: the two registers cover the same qubits.
    pub closed spec fn wf(&self) -> bool {
        self.x_register@.len() == self.z_register@.len()
    }

    /// The X error bits.
    pub closed spec fn x_bits(&self) -> Seq<bool> {
        Seq::new((self.x_register@.len() * 64) as nat, |i: int| bit_get(self.x_register@, i))
    }

    /// The Z error bits.
    pub closed spec fn z_bits(&self) -> Seq<bool> {
        Seq::new((self.z_register@.len() * 64) as nat, |i: int| bit_get(self.z_register@, i))
    }

    /// Allocates a frame for `num_qubits` qubits with no errors recorded.
    pub fn new(num_qubits: usize) -> (r: Self)
        requires
            num_qubits + 63 <= usize::MAX,
        ensures
            r.wf(),
            r.bit_len() == ((num_qubits + 63) / 64) * 64,
            r.bit_len() >= num_qubits,
            forall|i: int| 0 <= i < r.bit_len() ==> !(#[trigger] r.x_bits()[i]),
            forall|i: int| 0 <= i < r.bit_len() ==> !(#[trigger] r.z_bits()[i]),
    {
        let num_u64 = (num_qubits + 63) / 64;
        let mut x_register: Vec<u64> = Vec::new();
        let mut z_register: Vec<u64> = Vec::new();
        let mut k: usize = 0;
        while k < num_u64
            invariant
                k <= num_u64,
                x_register@.len() == k,
                z_register@.len() == k,
                forall|i: int| 0 <= i < k ==> (#[trigger] x_register@[i]) == 0u64,
                forall|i: int| 0 <= i < k ==> (#[trigger] z_register@[i]) == 0u64,
            decreases num_u64 - k,
        {
            x_register.push(0);
            z_register.push(0);
            k = k + 1;
        }
        proof {
            lemma_zero_words(x_register@);
            lemma_zero_words(z_register@);
        }
        PauliFrame { x_register, z_register }
    }

    /// Clears both registers: no qubit carries an error.
    pub fn reset(&mut self)
        requires
            old(self).wf(),
        ensures
            final(self).wf(),
            final(self).bit_len() == old(self).bit_len(),
            forall|i: int| 0 <= i < final(self).bit_len() ==> !(#[trigger] final(self).x_bits()[i]),
            forall|i: int| 0 <= i < final(self).bit_len() ==> !(#[trigger] final(self).z_bits()[i]),
    {
        let words = self.x_register.len();
        let mut k: usize = 0;
        while k < words
            invariant
                k <= words,
                self.x_register@.len() == words,
                self.z_register@.len() == words,
                forall|i: int| 0 <= i < k ==> (#[trigger] self.x_register@[i]) == 0u64,
                forall|i: int| 0 <= i < k ==> (#[trigger] self.z_register@[i]) == 0u64,
            decreases words - k,
        {
            self.x_register[k] = 0;
            self.z_register[k] = 0;
            k = k + 1;
        }
        proof {
            lemma_zero_words(self.x_register@);
            lemma_zero_words(self.z_register@);
        }
    }

    /// Applies a Hadamard gate to qubit `q`: its X and Z bits swap.
    pub fn apply_hadamard(&mut self, q: usize)
        requires
            old(self).wf(),
            q < old(self).bit_len(),
        ensures
            final(self).wf(),
            final(self).bit_len() == old(self).bit_len(),
            final(self).x_bits() == old(self).x_bits().update(q as int, old(self).z_bits()[q as int]),
            final(self).z_bits() == old(self).z_bits().update(q as int, old(self).x_bits()[q as int]),
    {
        let has_x = BitPack::get(self.x_register.as_slice(), q);
        let has_z = BitPack::get(self.z_register.as_slice(), q);
        BitPack::set(self.x_register.as_mut_slice(), q, has_z);
        BitPack::set(self.z_register.as_mut_slice(), q, has_x);
        proof {
            assert(self.x_bits() =~= old(self).x_bits().update(
                q as int,
                old(self).z_bits()[q as int],
            ));
            assert(self.z_bits() =~= old(self).z_bits().update(
                q as int,
                old(self).x_bits()[q as int],
            ));
        }
    }

    /// Applies a CNOT gate with control `c` and target `t`: an X error on
    /// the control toggles the target's X bit, a Z error on the target
    /// toggles the control's Z bit.
    pub fn apply_cnot(&mut self, c: usize, t: usize)
        requires
            old(self).wf(),
            c < old(self).bit_len(),
            t < old(self).bit_len(),
        ensures
            final(self).wf(),
            final(self).bit_len() == old(self).bit_len(),
            final(self).x_bits() == old(self).x_bits().update(
                t as int,
                old(self).x_bits()[t as int] != old(self).x_bits()[c as int],
            ),
            final(self).z_bits() == old(self).z_bits().update(
                c as int,
                old(self).z_bits()[c as int] != old(self).z_bits()[t as int],
            ),
    {
        if BitPack::get(self.x_register.as_slice(), c) {
            BitPack::toggle(self.x_register.as_mut_slice(), t);
        }
        if BitPack::get(self.z_register.as_slice(), t) {
            BitPack::toggle(self.z_register.as_mut_slice(), c);
        }
        proof {
            assert(self.x_bits() =~= old(self).x_bits().update(
                t as int,
                old(self).x_bits()[t as int] != old(self).x_bits()[c as int],
            ));
            assert(self.z_bits() =~= old(self).z_bits().update(
                c as int,
                old(self).z_bits()[c as int] != old(self).z_bits()[t as int],
            ));
        }
    }

    /// Whether qubit `q` carries an X error (flipping its measurement).
    pub fn has_x_error(&self, q: usize) -> (r: bool)
        requires
            self.wf(),
            q < self.bit_len(),
        ensures
            r == self.x_bits()[q as int],
    {
        BitPack::get(self.x_register.as_slice(), q)
    }
}

} // verus!
