use crate::hashing::digest_of;
use crate::hashing::hash_set_of;
use crate::hashing::sha256_digest;

use vstd::prelude::*;

verus! {

/// A transaction output: a value owed to an address.
#[derive(Clone)]
pub struct Output {
    pub to_address: String,
    pub value: u64,
}

/// Canonical bytes of an output: the address's UTF-8 bytes, then the value in
/// little-endian byte order.
pub open spec fn output_bytes(o: Output) -> Seq<u8> {
    vstd::utf8::encode_utf8(o.to_address@) + vstd::bytes::spec_u64_to_le_bytes(o.value)
}

/// The content identifier of an output: the digest of its canonical bytes.
/// Outputs are content-addressed, so outputs with equal address and value
/// share their identifier.
pub open spec fn output_hash(o: Output) -> Seq<u8> {
    digest_of(output_bytes(o))
}

/// Append the bytes of `src` to `dst`.
pub(crate) fn push_bytes(dst: &mut Vec<u8>, src: &[u8])
    ensures
        final(dst)@ == old(dst)@ + src@,
{
    let mut i: usize = 0;
    while i < src.len()
        invariant
            i <= src@.len(),
            dst@ == old(dst)@ + src@.take(i as int),
        decreases src@.len() - i,
    {
        let b: u8 = *vstd::slice::slice_index_get(src, i);
        dst.push(b);
        proof {
            assert(dst@ =~= old(dst)@ + src@.take(i + 1));
        }
        i = i + 1;
    }
    proof {
        assert(src@.take(src@.len() as int) =~= src@);
    }
}

impl Output {
    /// The canonical byte serialization of this output.
    pub fn bytes(&self) -> (r: Vec<u8>)
        ensures
            r@ == output_bytes(*self),
    {
        let mut r: Vec<u8> = Vec::new();
        push_bytes(&mut r, self.to_address.as_str().as_bytes());
        let vb = vstd::bytes::u64_to_le_bytes(self.value);
        push_bytes(&mut r, vb.as_slice());
        proof {
            assert(r@ =~= output_bytes(*self));
        }
        r
    }

    /// The content identifier of this output.
    pub fn hash(&self) -> (r: crate::hashing::Hash)
        ensures
            r@ == output_hash(*self),
            r@.len() == 32,
    {
        let b = self.bytes();
        sha256_digest(&b)
    }
}

/// A transfer of value: zero or more consumed outputs (the inputs, carried by
/// value) and one or more newly created outputs.
#[derive(Clone)]
pub struct Transaction {
    pub inputs: Vec<Output>,
    pub outputs: Vec<Output>,
}

/// The sum of the values of a sequence of outputs, as an unbounded integer.
pub open spec fn values_sum(outs: Seq<Output>) -> int
    decreases outs.len(),
{
    if outs.len() == 0 {
        0
    } else {
        values_sum(outs.drop_last()) + outs.last().value
    }
}

/// A sum of output values is non-negative and at most one `u64::MAX` per output.
pub proof fn lemma_values_sum_bounds(outs: Seq<Output>)
    ensures
        0 <= values_sum(outs) <= outs.len() * 0xffff_ffff_ffff_ffff,
    decreases outs.len(),
{
    if outs.len() == 0 {
    } else {
        lemma_values_sum_bounds(outs.drop_last());
        assert((outs.len() - 1) * 0xffff_ffff_ffff_ffff + 0xffff_ffff_ffff_ffff == outs.len()
            * 0xffff_ffff_ffff_ffff) by (nonlinear_arith);
    }
}

/// Canonical bytes of a sequence of outputs: their canonical bytes, in order.
pub open spec fn outputs_bytes(outs: Seq<Output>) -> Seq<u8>
    decreases outs.len(),
{
    if outs.len() == 0 {
        Seq::<u8>::empty()
    } else {
        outputs_bytes(outs.drop_last()) + output_bytes(outs.last())
    }
}

/// Canonical bytes of a transaction: the bytes of its inputs, then the bytes
/// of its outputs.
pub open spec fn tx_bytes(tx: Transaction) -> Seq<u8> {
    outputs_bytes(tx.inputs@) + outputs_bytes(tx.outputs@)
}

/// A transaction is a coinbase transaction iff it has no inputs.
pub open spec fn is_coinbase_spec(tx: Transaction) -> bool {
    tx.inputs@.len() == 0
}

/// The set of content identifiers of the outputs a transaction consumes.
pub open spec fn input_hash_set(tx: Transaction) -> Set<Seq<u8>> {
    Set::new(
        |x: Seq<u8>| exists|i: int| 0 <= i < tx.inputs@.len() && output_hash(tx.inputs@[i]) == x,
    )
}

/// The set of content identifiers of the outputs a transaction creates.
pub open spec fn output_hash_set(tx: Transaction) -> Set<Seq<u8>> {
    Set::new(
        |x: Seq<u8>| exists|i: int| 0 <= i < tx.outputs@.len() && output_hash(tx.outputs@[i]) == x,
    )
}

/// Sum the values of a list of outputs. The result fits in a `u128` because
/// each value fits in a `u64` and the list's length fits in a `u64`.
fn sum_values(outs: &Vec<Output>) -> (r: u128)
    ensures
        r == values_sum(outs@),
{
    let mut sum: u128 = 0;
    let mut i: usize = 0;
    while i < outs.len()
        invariant
            i <= outs@.len(),
            sum == values_sum(outs@.take(i as int)),
            sum <= i * 0xffff_ffff_ffff_ffff,
        decreases outs@.len() - i,
    {
        proof {
            assert(outs@.take(i + 1).drop_last() =~= outs@.take(i as int));
            assert(sum + outs@[i as int].value < 0x1_0000_0000_0000_0000_0000_0000_0000_0000)
                by (nonlinear_arith)
                requires
                    sum <= i * 0xffff_ffff_ffff_ffff,
                    i <= 0xffff_ffff_ffff_ffffu64,
                    outs@[i as int].value <= 0xffff_ffff_ffff_ffffu64,
            ;
        }
        sum = sum + (outs[i].value as u128);
        i = i + 1;
    }
    proof {
        assert(outs@.take(outs@.len() as int) =~= outs@);
    }
    sum
}

/// Append the canonical bytes of each output of `outs` to `dst`, in order.
fn append_outputs_bytes(dst: &mut Vec<u8>, outs: &Vec<Output>)
    ensures
        final(dst)@ == old(dst)@ + outputs_bytes(outs@),
{
    let mut i: usize = 0;
    while i < outs.len()
        invariant
            i <= outs@.len(),
            dst@ == old(dst)@ + outputs_bytes(outs@.take(i as int)),
        decreases outs@.len() - i,
    {
        let ob = outs[i].bytes();
        push_bytes(dst, ob.as_slice());
        proof {
            assert(outs@.take(i + 1).drop_last() =~= outs@.take(i as int));
            assert(dst@ =~= old(dst)@ + outputs_bytes(outs@.take(i + 1)));
        }
        i = i + 1;
    }
    proof {
        assert(outs@.take(outs@.len() as int) =~= outs@);
    }
}

impl Transaction {
    /// Whether this transaction is a coinbase transaction: true iff it
    /// consumes no outputs.
    pub fn is_coinbase(&self) -> (r: bool)
        ensures
            r == is_coinbase_spec(*self),
    {
        self.inputs.len() == 0
    }

    /// The total value of the outputs this transaction consumes.
    pub fn input_value(&self) -> (r: u128)
        ensures
            r == values_sum(self.inputs@),
    {
        sum_values(&self.inputs)
    }

    /// The total value of the outputs this transaction creates.
    pub fn output_value(&self) -> (r: u128)
        ensures
            r == values_sum(self.outputs@),
    {
        sum_values(&self.outputs)
    }

    /// The content identifiers of the outputs this transaction consumes.
    pub fn input_hashes(&self) -> (r: Vec<crate::hashing::Hash>)
        ensures
            r@.len() == self.inputs@.len(),
            forall|i: int| 0 <= i < r@.len() ==> r@[i]@ == output_hash(self.inputs@[i]),
            hash_set_of(r@) == input_hash_set(*self),
    {
        hashes_of_outputs(&self.inputs)
    }

    /// The content identifiers of the outputs this transaction creates.
    pub fn output_hashes(&self) -> (r: Vec<crate::hashing::Hash>)
        ensures
            r@.len() == self.outputs@.len(),
            forall|i: int| 0 <= i < r@.len() ==> r@[i]@ == output_hash(self.outputs@[i]),
            hash_set_of(r@) == output_hash_set(*self),
    {
        hashes_of_outputs(&self.outputs)
    }

    /// The canonical byte serialization of this transaction.
    pub fn bytes(&self) -> (r: Vec<u8>)
        ensures
            r@ == tx_bytes(*self),
    {
        let mut r: Vec<u8> = Vec::new();
        append_outputs_bytes(&mut r, &self.inputs);
        append_outputs_bytes(&mut r, &self.outputs);
        proof {
            assert(r@ =~= tx_bytes(*self));
        }
        r
    }

    /// The digest of this transaction's canonical bytes.
    pub fn hash(&self) -> (r: crate::hashing::Hash)
        ensures
            r@ == digest_of(tx_bytes(*self)),
            r@.len() == 32,
    {
        let b = self.bytes();
        sha256_digest(&b)
    }
}

/// The content identifier of each output of `outs`, in order.
fn hashes_of_outputs(outs: &Vec<Output>) -> (r: Vec<crate::hashing::Hash>)
    ensures
        r@.len() == outs@.len(),
        forall|i: int| 0 <= i < r@.len() ==> r@[i]@ == output_hash(outs@[i]),
        hash_set_of(r@) == Set::new(
            |x: Seq<u8>| exists|i: int| 0 <= i < outs@.len() && output_hash(outs@[i]) == x,
        ),
{
    let mut r: Vec<crate::hashing::Hash> = Vec::new();
    let mut i: usize = 0;
    while i < outs.len()
        invariant
            r@.len() == i <= outs@.len(),
            forall|k: int| 0 <= k < i ==> r@[k]@ == output_hash(outs@[k]),
        decreases outs@.len() - i,
    {
        r.push(outs[i].hash());
        i = i + 1;
    }
    proof {
        let target = Set::new(
            |x: Seq<u8>| exists|i: int| 0 <= i < outs@.len() && output_hash(outs@[i]) == x,
        );
        assert forall|x: Seq<u8>| hash_set_of(r@).contains(x) implies target.contains(x) by {
            let k = choose|k: int| 0 <= k < r@.len() && r@[k]@ == x;
            assert(output_hash(outs@[k]) == x);
        }
        assert forall|x: Seq<u8>| target.contains(x) implies hash_set_of(r@).contains(x) by {
            let k = choose|k: int| 0 <= k < outs@.len() && output_hash(outs@[k]) == x;
            assert(r@[k]@ == x);
        }
        assert(hash_set_of(r@) =~= target);
    }
    r
}

} // verus!
