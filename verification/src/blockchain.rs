use crate::block::check_difficulty;
use crate::block::pow_ok;
use crate::block::Block;
use crate::hashing::add_missing;
use crate::hashing::all_in;
use crate::hashing::contains_hash;
use crate::hashing::distinct_views;
use crate::hashing::hash_eq;
use crate::hashing::hash_set_of;
use crate::hashing::make_zero_hash;
use crate::hashing::none_in;
use crate::hashing::remove_all;
use crate::hashing::zero_hash;
use crate::transaction::input_hash_set;
use crate::transaction::is_coinbase_spec;
use crate::transaction::lemma_values_sum_bounds;
use crate::transaction::output_hash_set;
use crate::transaction::values_sum;
use crate::transaction::Transaction;
use vstd::prelude::*;

verus! {

/// The reasons a block is refused. Every refusal leaves the chain exactly as
/// it was.
#[derive(Clone, Copy, Debug, PartialEq, Eq, Structural)]
pub enum BlockValidationError {
    MismatchedIndex,
    InvalidHash,
    AchronicalTimestamp,
    MismatchedPreviousHash,
    InvalidGenesisBlockFormat,
    InvalidInput,
    InsufficientInputValue,
    InvalidCoinbaseTransaction,
}

/// The content identifiers consumed by a sequence of transactions.
pub open spec fn txs_input_set(txs: Seq<Transaction>) -> Set<Seq<u8>>
    decreases txs.len(),
{
    if txs.len() == 0 {
        Set::<Seq<u8>>::empty()
    } else {
        input_hash_set(txs[0]).union(txs_input_set(txs.skip(1)))
    }
}

/// The content identifiers created by a sequence of transactions.
pub open spec fn txs_output_set(txs: Seq<Transaction>) -> Set<Seq<u8>>
    decreases txs.len(),
{
    if txs.len() == 0 {
        Set::<Seq<u8>>::empty()
    } else {
        output_hash_set(txs[0]).union(txs_output_set(txs.skip(1)))
    }
}

/// Settle a run of non-coinbase transactions, in order, against the unspent
/// set `utxo`. `spent`, `created` and `fee` accumulate the outputs consumed
/// so far in the same block, the outputs created so far, and the running
/// fee. A transaction is refused if it consumes an output that is not
/// unspent or that an earlier transaction of the same block already
/// consumed, or if it creates more value than it consumes.
pub open spec fn settle(
    txs: Seq<Transaction>,
    utxo: Set<Seq<u8>>,
    spent: Set<Seq<u8>>,
    created: Set<Seq<u8>>,
    fee: int,
) -> Result<(Set<Seq<u8>>, Set<Seq<u8>>, int), BlockValidationError>
    decreases txs.len(),
{
    if txs.len() == 0 {
        Ok((spent, created, fee))
    } else if !input_hash_set(txs[0]).subset_of(utxo) || !input_hash_set(txs[0]).disjoint(spent) {
        Err(BlockValidationError::InvalidInput)
    } else if values_sum(txs[0].outputs@) > values_sum(txs[0].inputs@) {
        Err(BlockValidationError::InsufficientInputValue)
    } else {
        settle(
            txs.skip(1),
            utxo,
            spent.union(input_hash_set(txs[0])),
            created.union(output_hash_set(txs[0])),
            fee + values_sum(txs[0].inputs@) - values_sum(txs[0].outputs@),
        )
    }
}

/// The content identifiers a block consumes: everything its non-coinbase
/// transactions consume.
pub open spec fn block_spent_set(b: Block) -> Set<Seq<u8>> {
    if b.transactions@.len() == 0 {
        Set::<Seq<u8>>::empty()
    } else {
        txs_input_set(b.transactions@.skip(1))
    }
}

/// The content identifiers a block creates: everything its transactions,
/// the coinbase included, create.
pub open spec fn block_created_set(b: Block) -> Set<Seq<u8>> {
    if b.transactions@.len() == 0 {
        Set::<Seq<u8>>::empty()
    } else {
        txs_output_set(b.transactions@.skip(1)).union(output_hash_set(b.transactions@[0]))
    }
}

/// The whole acceptance decision for `b` against a chain with blocks
/// `blocks` and unspent set `utxo`: either the consumed and created sets the
/// commit will apply, or the first error, in the order the checks run.
pub open spec fn validate_spec(blocks: Seq<Block>, utxo: Set<Seq<u8>>, b: Block) -> Result<
    (Set<Seq<u8>>, Set<Seq<u8>>),
    BlockValidationError,
> {
    if b.index as int != blocks.len() {
        Err(BlockValidationError::MismatchedIndex)
    } else if !pow_ok(b) {
        Err(BlockValidationError::InvalidHash)
    } else if blocks.len() != 0 && b.timestamp <= blocks.last().timestamp {
        Err(BlockValidationError::AchronicalTimestamp)
    } else if blocks.len() != 0 && b.previous_block_hash@ != blocks.last().hash@ {
        Err(BlockValidationError::MismatchedPreviousHash)
    } else if blocks.len() == 0 && b.previous_block_hash@ != zero_hash() {
        Err(BlockValidationError::InvalidGenesisBlockFormat)
    } else if b.transactions@.len() == 0 {
        Ok((Set::<Seq<u8>>::empty(), Set::<Seq<u8>>::empty()))
    } else if !is_coinbase_spec(b.transactions@[0]) {
        Err(BlockValidationError::InvalidCoinbaseTransaction)
    } else {
        match settle(
            b.transactions@.skip(1),
            utxo,
            Set::<Seq<u8>>::empty(),
            Set::<Seq<u8>>::empty(),
            0,
        ) {
            Err(e) => Err(e),
            Ok((spent, created, fee)) => {
                if values_sum(b.transactions@[0].outputs@) < fee {
                    Err(BlockValidationError::InvalidCoinbaseTransaction)
                } else {
                    Ok((spent, created.union(output_hash_set(b.transactions@[0]))))
                }
            },
        }
    }
}

/// The unspent set a sequence of accepted blocks leaves behind: each block
/// in turn removes what it consumed, then adds what it created.
pub open spec fn chain_utxo(blocks: Seq<Block>) -> Set<Seq<u8>>
    decreases blocks.len(),
{
    if blocks.len() == 0 {
        Set::<Seq<u8>>::empty()
    } else {
        chain_utxo(blocks.drop_last()).difference(block_spent_set(blocks.last())).union(
            block_created_set(blocks.last()),
        )
    }
}

/// Structural health of an accepted chain: positions match indices, every
/// block meets its own proof-of-work ceiling, each block links to the stored
/// hash of its predecessor under a strictly later timestamp, and a genesis
/// block links to the all-zero sentinel.
pub open spec fn chain_wf(blocks: Seq<Block>) -> bool {
    &&& forall|i: int| 0 <= i < blocks.len() ==> #[trigger] blocks[i].index as int == i
    &&& forall|i: int| 0 <= i < blocks.len() ==> pow_ok(#[trigger] blocks[i])
    &&& forall|i: int|
        1 <= i < blocks.len() ==> (#[trigger] blocks[i]).previous_block_hash@ == blocks[i
            - 1].hash@
    &&& forall|i: int|
        1 <= i < blocks.len() ==> (#[trigger] blocks[i]).timestamp > blocks[i - 1].timestamp
    &&& blocks.len() > 0 ==> blocks[0].previous_block_hash@ == zero_hash()
}

/// When settlement succeeds, the sets it hands back are the accumulators
/// joined with everything the transactions consume and create.
pub proof fn lemma_settle_sets(
    txs: Seq<Transaction>,
    utxo: Set<Seq<u8>>,
    spent: Set<Seq<u8>>,
    created: Set<Seq<u8>>,
    fee: int,
)
    requires
        settle(txs, utxo, spent, created, fee) is Ok,
    ensures
        settle(txs, utxo, spent, created, fee)->Ok_0.0 == spent.union(txs_input_set(txs)),
        settle(txs, utxo, spent, created, fee)->Ok_0.1 == created.union(txs_output_set(txs)),
    decreases txs.len(),
{
    if txs.len() == 0 {
        assert(spent.union(txs_input_set(txs)) =~= spent);
        assert(created.union(txs_output_set(txs)) =~= created);
    } else {
        lemma_settle_sets(
            txs.skip(1),
            utxo,
            spent.union(input_hash_set(txs[0])),
            created.union(output_hash_set(txs[0])),
            fee + values_sum(txs[0].inputs@) - values_sum(txs[0].outputs@),
        );
        assert(spent.union(input_hash_set(txs[0])).union(txs_input_set(txs.skip(1)))
            =~= spent.union(txs_input_set(txs)));
        assert(created.union(output_hash_set(txs[0])).union(txs_output_set(txs.skip(1)))
            =~= created.union(txs_output_set(txs)));
    }
}

/// Settlement refuses a run of transactions in which some transaction
/// consumes an identifier that is not unspent.
pub proof fn lemma_unknown_input_rejected(
    txs: Seq<Transaction>,
    utxo: Set<Seq<u8>>,
    spent: Set<Seq<u8>>,
    created: Set<Seq<u8>>,
    fee: int,
    j: int,
    x: Seq<u8>,
)
    requires
        0 <= j < txs.len(),
        input_hash_set(txs[j]).contains(x),
        !utxo.contains(x),
    ensures
        settle(txs, utxo, spent, created, fee) is Err,
    decreases txs.len(),
{
    if !input_hash_set(txs[0]).subset_of(utxo) || !input_hash_set(txs[0]).disjoint(spent) {
    } else if values_sum(txs[0].outputs@) > values_sum(txs[0].inputs@) {
    } else {
        assert(j != 0);
        assert(txs.skip(1)[j - 1] == txs[j]);
        lemma_unknown_input_rejected(
            txs.skip(1),
            utxo,
            spent.union(input_hash_set(txs[0])),
            created.union(output_hash_set(txs[0])),
            fee + values_sum(txs[0].inputs@) - values_sum(txs[0].outputs@),
            j - 1,
            x,
        );
    }
}

/// Settlement refuses a run of transactions in which some transaction
/// consumes an identifier that the same block has already consumed.
pub proof fn lemma_spent_input_rejected(
    txs: Seq<Transaction>,
    utxo: Set<Seq<u8>>,
    spent: Set<Seq<u8>>,
    created: Set<Seq<u8>>,
    fee: int,
    k: int,
    x: Seq<u8>,
)
    requires
        0 <= k < txs.len(),
        input_hash_set(txs[k]).contains(x),
        spent.contains(x),
    ensures
        settle(txs, utxo, spent, created, fee) is Err,
    decreases txs.len(),
{
    if !input_hash_set(txs[0]).subset_of(utxo) || !input_hash_set(txs[0]).disjoint(spent) {
    } else if values_sum(txs[0].outputs@) > values_sum(txs[0].inputs@) {
    } else {
        assert(k != 0);
        assert(txs.skip(1)[k - 1] == txs[k]);
        lemma_spent_input_rejected(
            txs.skip(1),
            utxo,
            spent.union(input_hash_set(txs[0])),
            created.union(output_hash_set(txs[0])),
            fee + values_sum(txs[0].inputs@) - values_sum(txs[0].outputs@),
            k - 1,
            x,
        );
    }
}

/// Settlement refuses a run of transactions in which two transactions both
/// consume the same identifier, wherever in the block they stand.
pub proof fn lemma_double_spend_rejected(
    txs: Seq<Transaction>,
    utxo: Set<Seq<u8>>,
    spent: Set<Seq<u8>>,
    created: Set<Seq<u8>>,
    fee: int,
    j: int,
    k: int,
    x: Seq<u8>,
)
    requires
        0 <= j < k < txs.len(),
        input_hash_set(txs[j]).contains(x),
        input_hash_set(txs[k]).contains(x),
    ensures
        settle(txs, utxo, spent, created, fee) is Err,
    decreases txs.len(),
{
    if !input_hash_set(txs[0]).subset_of(utxo) || !input_hash_set(txs[0]).disjoint(spent) {
    } else if values_sum(txs[0].outputs@) > values_sum(txs[0].inputs@) {
    } else {
        assert(txs.skip(1)[k - 1] == txs[k]);
        if j == 0 {
            lemma_spent_input_rejected(
                txs.skip(1),
                utxo,
                spent.union(input_hash_set(txs[0])),
                created.union(output_hash_set(txs[0])),
                fee + values_sum(txs[0].inputs@) - values_sum(txs[0].outputs@),
                k - 1,
                x,
            );
        } else {
            assert(txs.skip(1)[j - 1] == txs[j]);
            lemma_double_spend_rejected(
                txs.skip(1),
                utxo,
                spent.union(input_hash_set(txs[0])),
                created.union(output_hash_set(txs[0])),
                fee + values_sum(txs[0].inputs@) - values_sum(txs[0].outputs@),
                j - 1,
                k - 1,
                x,
            );
        }
    }
}

/// Settlement refuses a run of transactions in which some transaction
/// creates more value than it consumes, whatever the coinbase offers.
pub proof fn lemma_excess_output_rejected(
    txs: Seq<Transaction>,
    utxo: Set<Seq<u8>>,
    spent: Set<Seq<u8>>,
    created: Set<Seq<u8>>,
    fee: int,
    j: int,
)
    requires
        0 <= j < txs.len(),
        values_sum(txs[j].outputs@) > values_sum(txs[j].inputs@),
    ensures
        settle(txs, utxo, spent, created, fee) is Err,
    decreases txs.len(),
{
    if !input_hash_set(txs[0]).subset_of(utxo) || !input_hash_set(txs[0]).disjoint(spent) {
    } else if values_sum(txs[0].outputs@) > values_sum(txs[0].inputs@) {
    } else {
        assert(j != 0);
        assert(txs.skip(1)[j - 1] == txs[j]);
        lemma_excess_output_rejected(
            txs.skip(1),
            utxo,
            spent.union(input_hash_set(txs[0])),
            created.union(output_hash_set(txs[0])),
            fee + values_sum(txs[0].inputs@) - values_sum(txs[0].outputs@),
            j - 1,
        );
    }
}

/// A block whose non-coinbase transactions do not settle — because one
/// consumes an unavailable or twice-consumed output, or creates more value
/// than it consumes — is never accepted, whatever its other fields hold.
pub proof fn lemma_failed_settlement_rejected(blocks: Seq<Block>, utxo: Set<Seq<u8>>, b: Block)
    requires
        b.transactions@.len() > 0,
        settle(
            b.transactions@.skip(1),
            utxo,
            Set::<Seq<u8>>::empty(),
            Set::<Seq<u8>>::empty(),
            0,
        ) is Err,
    ensures
        !(validate_spec(blocks, utxo, b) is Ok),
{
}

/// A failed settlement fails for an unavailable input or for excess output
/// value; no other error arises there.
pub proof fn lemma_settle_err_kind(
    txs: Seq<Transaction>,
    utxo: Set<Seq<u8>>,
    spent: Set<Seq<u8>>,
    created: Set<Seq<u8>>,
    fee: int,
)
    ensures
        settle(txs, utxo, spent, created, fee) is Err ==> (settle(txs, utxo, spent, created, fee)
            == Err::<(Set<Seq<u8>>, Set<Seq<u8>>, int), BlockValidationError>(
            BlockValidationError::InvalidInput,
        ) || settle(txs, utxo, spent, created, fee) == Err::<
            (Set<Seq<u8>>, Set<Seq<u8>>, int),
            BlockValidationError,
        >(BlockValidationError::InsufficientInputValue)),
    decreases txs.len(),
{
    if txs.len() == 0 {
    } else if !input_hash_set(txs[0]).subset_of(utxo) || !input_hash_set(txs[0]).disjoint(spent) {
    } else if values_sum(txs[0].outputs@) > values_sum(txs[0].inputs@) {
    } else {
        lemma_settle_err_kind(
            txs.skip(1),
            utxo,
            spent.union(input_hash_set(txs[0])),
            created.union(output_hash_set(txs[0])),
            fee + values_sum(txs[0].inputs@) - values_sum(txs[0].outputs@),
        );
    }
}

/// A chain with no blocks refuses a first block whose previous-block link is
/// not the all-zero sentinel, with exactly the genesis-format error, once the
/// index and proof-of-work checks have passed.
pub proof fn lemma_genesis_format(blocks: Seq<Block>, utxo: Set<Seq<u8>>, b: Block)
    requires
        blocks.len() == 0,
        b.index == 0,
        pow_ok(b),
    ensures
        (validate_spec(blocks, utxo, b) == Err::<(Set<Seq<u8>>, Set<Seq<u8>>), BlockValidationError>(
            BlockValidationError::InvalidGenesisBlockFormat,
        )) <==> b.previous_block_hash@ != zero_hash(),
{
    if b.previous_block_hash@ == zero_hash() && b.transactions@.len() != 0 {
        lemma_settle_err_kind(
            b.transactions@.skip(1),
            utxo,
            Set::<Seq<u8>>::empty(),
            Set::<Seq<u8>>::empty(),
            0,
        );
    }
}

/// An append-only chain of blocks and the authoritative set of unspent
/// outputs, mutated only by accepting a block.
pub struct BlockChain {
    pub blocks: Vec<Block>,
    pub unspent_outputs: Vec<crate::hashing::Hash>,
}

impl BlockChain {
    /// The set of content identifiers currently unspent.
    pub open spec fn utxos(&self) -> Set<Seq<u8>> {
        hash_set_of(self.unspent_outputs@)
    }

    /// The chain's invariant: its blocks are structurally healthy, the
    /// unspent list holds no duplicate identifier, and the unspent set is
    /// exactly what the accepted blocks created minus what they consumed.
    pub open spec fn wf(&self) -> bool {
        &&& chain_wf(self.blocks@)
        &&& distinct_views(self.unspent_outputs@)
        &&& self.utxos() == chain_utxo(self.blocks@)
    }

    /// An empty chain with an empty unspent set.
    pub fn new() -> (r: BlockChain)
        ensures
            r.blocks@.len() == 0,
            r.utxos() == Set::<Seq<u8>>::empty(),
            r.wf(),
    {
        let r = BlockChain { blocks: Vec::new(), unspent_outputs: Vec::new() };
        proof {
            assert(r.utxos() =~= Set::<Seq<u8>>::empty());
        }
        r
    }

    /// Whether the output with content identifier `hash` is unspent.
    pub fn is_unspent(&self, hash: &crate::hashing::Hash) -> (r: bool)
        ensures
            r == self.utxos().contains(hash@),
    {
        contains_hash(&self.unspent_outputs, hash)
    }

    /// The identifiers currently unspent, one entry each.
    pub fn unspent_hashes(&self) -> (r: &Vec<crate::hashing::Hash>)
        ensures
            hash_set_of(r@) == self.utxos(),
            self.wf() ==> distinct_views(r@),
    {
        &self.unspent_outputs
    }

    /// The sole mutator of the chain: run the acceptance state machine on
    /// `block` against the current tail and unspent set, and either commit
    /// it — append the block and apply its consumed and created outputs to
    /// the unspent set — or refuse it with the first failing check's error
    /// and no change at all.
    #[verifier::loop_isolation(false)]
    #[verifier::rlimit(60)]
    pub fn update_with_block(&mut self, block: Block) -> (r: Result<(), BlockValidationError>)
        requires
            old(self).wf(),
        ensures
            final(self).wf(),
            match validate_spec(old(self).blocks@, old(self).utxos(), block) {
                Ok(sc) => r == Ok::<(), BlockValidationError>(()) && final(self).blocks@ == old(
                    self,
                ).blocks@.push(block) && final(self).utxos() == old(self).utxos().difference(
                    sc.0,
                ).union(sc.1),
                Err(e) => r == Err::<(), BlockValidationError>(e) && final(self).blocks@ == old(
                    self,
                ).blocks@ && final(self).utxos() == old(self).utxos(),
            },
    {
        let i = self.blocks.len();
        if block.index as usize != i {
            return Err(BlockValidationError::MismatchedIndex);
        }
        let h = block.hash();
        if !check_difficulty(&h, block.difficulty) {
            return Err(BlockValidationError::InvalidHash);
        }
        if i != 0 {
            let previous_block = &self.blocks[i - 1];
            if block.timestamp <= previous_block.timestamp {
                return Err(BlockValidationError::AchronicalTimestamp);
            }
            if !hash_eq(&block.previous_block_hash, &previous_block.hash) {
                return Err(BlockValidationError::MismatchedPreviousHash);
            }
        } else {
            let z = make_zero_hash();
            if !hash_eq(&block.previous_block_hash, &z) {
                return Err(BlockValidationError::InvalidGenesisBlockFormat);
            }
        }
        let ghost utxo0 = old(self).utxos();
        let ghost mut spent_final = Set::<Seq<u8>>::empty();
        let ghost mut created_final = Set::<Seq<u8>>::empty();
        if block.transactions.len() > 0 {
            if !block.transactions[0].is_coinbase() {
                return Err(BlockValidationError::InvalidCoinbaseTransaction);
            }
            let mut block_spent: Vec<crate::hashing::Hash> = Vec::new();
            let mut block_created: Vec<crate::hashing::Hash> = Vec::new();
            let mut total_fee: u128 = 0;
            let ghost mut fee_int: int = 0;
            let ghost txs = block.transactions@;
            proof {
                assert(hash_set_of(block_spent@) =~= Set::<Seq<u8>>::empty());
                assert(hash_set_of(block_created@) =~= Set::<Seq<u8>>::empty());
            }
            let mut j: usize = 1;
            while j < block.transactions.len()
                invariant
                    1 <= j <= txs.len(),
                    settle(txs.skip(1), utxo0, Set::<Seq<u8>>::empty(), Set::<Seq<u8>>::empty(), 0)
                        == settle(
                        txs.skip(j as int),
                        utxo0,
                        hash_set_of(block_spent@),
                        hash_set_of(block_created@),
                        fee_int,
                    ),
                    0 <= fee_int,
                    fee_int <= u128::MAX ==> total_fee == fee_int,
                    fee_int > u128::MAX ==> total_fee == u128::MAX,
                decreases txs.len() - j,
            {
                proof {
                    assert(txs.skip(j as int)[0] == txs[j as int]);
                }
                let tx = &block.transactions[j];
                let input_hashes = tx.input_hashes();
                let in_utxo = all_in(&input_hashes, &self.unspent_outputs);
                let reused = !none_in(&input_hashes, &block_spent);
                if !in_utxo || reused {
                    return Err(BlockValidationError::InvalidInput);
                }
                let input_value = tx.input_value();
                let output_value = tx.output_value();
                if output_value > input_value {
                    return Err(BlockValidationError::InsufficientInputValue);
                }
                let fee = input_value - output_value;
                let ghost pre_spent = hash_set_of(block_spent@);
                let ghost pre_created = hash_set_of(block_created@);
                if total_fee > u128::MAX - fee {
                    total_fee = u128::MAX;
                } else {
                    total_fee = total_fee + fee;
                }
                proof {
                    fee_int = fee_int + fee;
                }
                add_missing(&mut block_spent, &input_hashes);
                let output_hashes = tx.output_hashes();
                add_missing(&mut block_created, &output_hashes);
                proof {
                    assert(txs.skip(j as int).skip(1) =~= txs.skip(j + 1));
                    assert(hash_set_of(block_spent@) == pre_spent.union(
                        input_hash_set(txs[j as int]),
                    ));
                    assert(hash_set_of(block_created@) == pre_created.union(
                        output_hash_set(txs[j as int]),
                    ));
                }
                j = j + 1;
            }
            let ghost settled_spent = hash_set_of(block_spent@);
            let ghost settled_created = hash_set_of(block_created@);
            proof {
                assert(txs.skip(txs.len() as int) =~= Seq::<Transaction>::empty());
                assert(settle(
                    txs.skip(1),
                    utxo0,
                    Set::<Seq<u8>>::empty(),
                    Set::<Seq<u8>>::empty(),
                    0,
                ) == Ok::<_, BlockValidationError>((settled_spent, settled_created, fee_int)));
                lemma_values_sum_bounds(txs[0].outputs@);
            }
            let coinbase_value = block.transactions[0].output_value();
            if coinbase_value < total_fee {
                return Err(BlockValidationError::InvalidCoinbaseTransaction);
            }
            let cb_len = block.transactions[0].outputs.len();
            proof {
                if fee_int > u128::MAX {
                    assert(txs[0].outputs@.len() == cb_len as int);
                    assert(txs[0].outputs@.len() <= 0xffff_ffff_ffff_ffffu64);
                    assert(values_sum(txs[0].outputs@) < u128::MAX) by (nonlinear_arith)
                        requires
                            values_sum(txs[0].outputs@) <= txs[0].outputs@.len()
                                * 0xffff_ffff_ffff_ffff,
                            txs[0].outputs@.len() <= 0xffff_ffff_ffff_ffffu64,
                    ;
                    assert(false);
                }
                assert(values_sum(txs[0].outputs@) >= fee_int);
            }
            let cb_hashes = block.transactions[0].output_hashes();
            add_missing(&mut block_created, &cb_hashes);
            proof {
                spent_final = hash_set_of(block_spent@);
                created_final = hash_set_of(block_created@);
                assert(created_final == settled_created.union(output_hash_set(txs[0])));
                assert(validate_spec(old(self).blocks@, utxo0, block) == Ok::<
                    _,
                    BlockValidationError,
                >((spent_final, created_final)));
                lemma_settle_sets(
                    txs.skip(1),
                    utxo0,
                    Set::<Seq<u8>>::empty(),
                    Set::<Seq<u8>>::empty(),
                    0,
                );
                assert(block_spent_set(block) =~= spent_final);
                assert(block_created_set(block) =~= created_final);
            }
            remove_all(&mut self.unspent_outputs, &block_spent);
            add_missing(&mut self.unspent_outputs, &block_created);
            proof {
                assert(self.utxos() == utxo0.difference(spent_final).union(created_final));
            }
        } else {
            proof {
                assert(validate_spec(old(self).blocks@, utxo0, block) == Ok::<
                    _,
                    BlockValidationError,
                >((spent_final, created_final)));
                assert(block_spent_set(block) =~= spent_final);
                assert(block_created_set(block) =~= created_final);
                assert(self.utxos().difference(spent_final).union(created_final) =~= self.utxos());
            }
        }
        self.blocks.push(block);
        proof {
            let obs = old(self).blocks@;
            let nb = self.blocks@;
            assert(nb.drop_last() =~= obs);
            assert(nb.last() == block);
            assert forall|k: int| 0 <= k < nb.len() implies #[trigger] nb[k].index as int == k by {
                if k < obs.len() {
                    assert(obs[k].index as int == k);
                }
            }
            assert forall|k: int| 0 <= k < nb.len() implies pow_ok(#[trigger] nb[k]) by {
                if k < obs.len() {
                    assert(pow_ok(obs[k]));
                }
            }
            assert forall|k: int|
                1 <= k < nb.len() implies (#[trigger] nb[k]).previous_block_hash@ == nb[k
                - 1].hash@ by {
                if k < obs.len() {
                    assert(obs[k].previous_block_hash@ == obs[k - 1].hash@);
                }
            }
            assert forall|k: int|
                1 <= k < nb.len() implies (#[trigger] nb[k]).timestamp > nb[k - 1].timestamp by {
                if k < obs.len() {
                    assert(obs[k].timestamp > obs[k - 1].timestamp);
                }
            }
            assert(chain_utxo(nb) == chain_utxo(obs).difference(block_spent_set(block)).union(
                block_created_set(block),
            ));
        }
        Ok(())
    }

    /// Accepted chains are hash-linked in order under strictly increasing
    /// timestamps, and every accepted block meets its proof-of-work ceiling.
    pub proof fn lemma_chain_linked(&self)
        requires
            self.wf(),
        ensures
            chain_wf(self.blocks@),
            forall|i: int|
                1 <= i < self.blocks@.len() ==> (#[trigger] self.blocks@[i]).previous_block_hash@
                    == self.blocks@[i - 1].hash@,
            forall|i: int|
                1 <= i < self.blocks@.len() ==> (#[trigger] self.blocks@[i]).timestamp
                    > self.blocks@[i - 1].timestamp,
    {
    }

    /// The unspent set equals the fold of the accepted blocks' consumed and
    /// created outputs: it is the sole source of truth for spendability.
    pub proof fn lemma_utxo_tracks_chain(&self)
        requires
            self.wf(),
        ensures
            self.utxos() == chain_utxo(self.blocks@),
    {
    }
}

} // verus!
