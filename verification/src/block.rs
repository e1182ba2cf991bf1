//! The ledger: transactions, blocks, and the chain that owns them.
//!
//! A `Blockchain` owns an append-only sequence of blocks: `length` committed
//! blocks followed by exactly one open block that collects pending
//! transactions.  `commit` validates balances, seals the open block behind a
//! digest of its canonical byte form, and opens a fresh block with a new
//! random proof byte.
use crate::block::operations::{has_key, sorted_keys};
use crate::encoding::{enc_block, encode_block, sha256, sha256_of};
use crate::model::{
    balance_of, chain_txs, lists_negatives, mentions, no_negatives, BlockView, ErrorView, TxView,
};
use crate::order::lex_lt;
use vstd::prelude::*;

/// Actions to perform upon the blockchain.
pub mod operations;

verus! {

/// The proof byte of the genesis block.
pub const GENESIS_PROOF: u8 = 253;

/// The amount granted for a correct proof guess.
pub const GRANT_AMOUNT: i64 = 4;

/// A typed ledger entry.
pub enum Transaction {
    /// Grant a user coins when they successfully mine them.
    Grant { to: String, amount: i64 },
    /// Wire money from one user to another.
    Wire { from: String, to: String, amount: i64 },
}

impl View for Transaction {
    type V = TxView;

    open spec fn view(&self) -> TxView {
        match self {
            Transaction::Grant { to, amount } => TxView::Grant { to: to@, amount: *amount },
            Transaction::Wire { from, to, amount } => TxView::Wire {
                from: from@,
                to: to@,
                amount: *amount,
            },
        }
    }
}

/// One batch of transactions, chained to its predecessor by a digest.
pub struct Block {
    /// 0-based position in the chain.
    pub index: u64,
    /// Milliseconds since the epoch at creation.
    pub timestamp: i64,
    /// The transactions, in insertion order.
    pub transactions: Vec<Transaction>,
    /// Digest of the preceding block's canonical byte form, or the fixed
    /// sentinel for the genesis block.
    pub previous_hash: Vec<u8>,
    /// The byte a miner must guess while this block is open.
    pub proof: u8,
}

impl View for Block {
    type V = BlockView;

    open spec fn view(&self) -> BlockView {
        BlockView {
            index: self.index,
            timestamp: self.timestamp,
            transactions: self.transactions@.map_values(|t: Transaction| t@),
            previous_hash: self.previous_hash@,
            proof: self.proof,
        }
    }
}

/// Reasons a ledger operation can fail.  Every one is recoverable: the caller
/// corrects its input, or the balances, and retries.
pub enum BlockchainError {
    /// In the current state, these accounts would end up with negative funds,
    /// sorted by account identifier.
    NegativeBalances(Vec<(String, i64)>),
    /// A wire tried to move a negative amount.
    NegativeTransfer { from: String, to: String, amount: i64 },
}

impl View for BlockchainError {
    type V = ErrorView;

    open spec fn view(&self) -> ErrorView {
        match self {
            BlockchainError::NegativeBalances(l) => ErrorView::NegativeBalances(
                l@.map_values(|p: (String, i64)| (p.0@, p.1)),
            ),
            BlockchainError::NegativeTransfer { from, to, amount } => ErrorView::NegativeTransfer {
                from: from@,
                to: to@,
                amount: *amount,
            },
        }
    }
}

/// The sentinel standing in place of a predecessor digest for the genesis
/// block: the bytes of `genesis_` four times over.
pub open spec fn genesis_sentinel() -> Seq<u8> {
    seq![
        103u8, 101, 110, 101, 115, 105, 115, 95,
        103, 101, 110, 101, 115, 105, 115, 95,
        103, 101, 110, 101, 115, 105, 115, 95,
        103, 101, 110, 101, 115, 105, 115, 95,
    ]
}

fn genesis_sentinel_bytes() -> (v: Vec<u8>)
    ensures
        v@ == genesis_sentinel(),
{
    let v: Vec<u8> = vec![
        103u8, 101, 110, 101, 115, 105, 115, 95,
        103, 101, 110, 101, 115, 105, 115, 95,
        103, 101, 110, 101, 115, 105, 115, 95,
        103, 101, 110, 101, 115, 105, 115, 95,
    ];
    proof {
        assert(v@ =~= genesis_sentinel());
    }
    v
}

/// Relies on rand::random: draws one byte uniformly at random; nothing is
/// promised of its value.
#[verifier::external_body]
fn random_byte() -> u8 {
    rand::random::<u8>()
}

/// Relies on chrono::Utc::now and DateTime::timestamp_millis: the current
/// time as milliseconds since the epoch; nothing is promised of its value.
#[verifier::external_body]
fn now_millis() -> i64 {
    chrono::Utc::now().timestamp_millis()
}

/// The ledger: the chain of blocks plus its bookkeeping state.
pub struct Blockchain {
    /// How many blocks are committed; the chain also holds one open block.
    pub length: u64,
    /// The amount to grant a user when they successfully guess the proof
    /// number.
    pub grant_amount: i64,
    /// The committed blocks followed by the one open block.
    pub blocks: Vec<Block>,
}

impl Blockchain {
    /// The ghost mirror of the whole chain, open block included.
    pub open spec fn model(&self) -> Seq<BlockView> {
        self.blocks@.map_values(|b: Block| b@)
    }

    /// Every transaction of the chain, in replay order.
    pub open spec fn all_txs(&self) -> Seq<TxView> {
        chain_txs(self.model())
    }

    /// The open (last, uncommitted) block.
    pub open spec fn current(&self) -> BlockView {
        self.model().last()
    }

    /// The chain always holds the committed blocks plus exactly one open
    /// block, and every block's index matches its position.
    pub open spec fn wf(&self) -> bool {
        &&& self.blocks@.len() == self.length + 1
        &&& forall|i: int| 0 <= i < self.model().len() ==> (#[trigger] self.model()[i]).index == i
    }

    fn genesis_block() -> (b: Block)
        ensures
            b@.index == 0,
            b@.transactions == Seq::<TxView>::empty(),
            b@.previous_hash == genesis_sentinel(),
            b@.proof == GENESIS_PROOF,
    {
        let transactions: Vec<Transaction> = Vec::new();
        proof {
            assert(transactions@.map_values(|t: Transaction| t@) =~= Seq::<TxView>::empty());
        }
        Block {
            index: 0,
            timestamp: now_millis(),
            transactions,
            previous_hash: genesis_sentinel_bytes(),
            proof: GENESIS_PROOF,
        }
    }

    /// A fresh ledger: nothing committed, one empty genesis block open.
    pub fn new() -> (r: Blockchain)
        ensures
            r.wf(),
            r.length == 0,
            r.grant_amount == GRANT_AMOUNT,
            r.blocks@.len() == 1,
            r.current().index == 0,
            r.current().transactions == Seq::<TxView>::empty(),
            r.current().previous_hash == genesis_sentinel(),
            r.current().proof == GENESIS_PROOF,
    {
        let mut blocks: Vec<Block> = Vec::new();
        blocks.push(Self::genesis_block());
        let chain = Blockchain { length: 0, grant_amount: GRANT_AMOUNT, blocks };
        proof {
            assert(chain.model().len() == 1);
            assert(chain.current() == chain.model()[0]);
        }
        chain
    }

    /// Validate state: committing is allowed only while no account's balance,
    /// over the whole chain including the open block, is negative.
    fn validate_state(&self) -> (r: Result<(), BlockchainError>)
        requires
            self.wf(),
        ensures
            (r is Ok) == no_negatives(self.all_txs()),
            r matches Err(e) ==> e@ matches ErrorView::NegativeBalances(l) && lists_negatives(
                l,
                self.all_txs(),
            ),
    {
        let ghost txs = self.all_txs();
        let balances = self.balance();
        let mut negative: Vec<(String, i64)> = Vec::new();
        let n = balances.len();
        let mut i: usize = 0;
        while i < n
            invariant
                n == balances@.len(),
                i <= n,
                sorted_keys(balances@),
                forall|a: Seq<char>| has_key(balances@, a) == mentions(txs, a),
                forall|k: int|
                    0 <= k < balances@.len() ==> balances@[k].1 == balance_of(
                        txs,
                        #[trigger] balances@[k].0@,
                    ) && mentions(txs, balances@[k].0@),
                forall|x: int|
                    0 <= x < negative@.len() ==> exists|j: int|
                        0 <= j < i && balances@[j].0@ == (#[trigger] negative@[x]).0@
                            && balances@[j].1 == negative@[x].1,
                forall|x: int| 0 <= x < negative@.len() ==> (#[trigger] negative@[x]).1 < 0,
                forall|x: int, y: int|
                    0 <= x < y < negative@.len() ==> lex_lt(negative@[x].0@, negative@[y].0@),
                forall|j: int|
                    0 <= j < i && (#[trigger] balances@[j]).1 < 0 ==> exists|x: int|
                        0 <= x < negative@.len() && negative@[x].0@ == balances@[j].0@,
            decreases n - i,
        {
            let ghost before = negative@;
            let value = balances[i].1;
            if value < 0 {
                let account = balances[i].0.clone();
                negative.push((account, value));
                proof {
                    assert(negative@[before.len() as int].0@ == balances@[i as int].0@);
                    assert forall|x: int, y: int|
                        0 <= x < y < negative@.len() implies lex_lt(
                        negative@[x].0@,
                        negative@[y].0@,
                    ) by {
                        if y == before.len() {
                            let j = choose|j: int|
                                0 <= j < i && balances@[j].0@ == negative@[x].0@ && balances@[j].1
                                    == negative@[x].1;
                            assert(lex_lt(balances@[j].0@, balances@[i as int].0@));
                        }
                    }
                }
            }
            proof {
                assert forall|j: int|
                    0 <= j < i + 1 && (#[trigger] balances@[j]).1 < 0 implies exists|x: int|
                    0 <= x < negative@.len() && negative@[x].0@ == balances@[j].0@ by {
                    if j < i {
                        let x = choose|x: int|
                            0 <= x < before.len() && before[x].0@ == balances@[j].0@;
                        assert(negative@[x].0@ == balances@[j].0@);
                    } else {
                        assert(negative@[before.len() as int].0@ == balances@[j].0@);
                    }
                }
            }
            i = i + 1;
        }
        if negative.is_empty() {
            proof {
                assert forall|a: Seq<char>| mentions(txs, a) implies balance_of(txs, a) >= 0 by {
                    assert(has_key(balances@, a));
                    let k = choose|k: int| 0 <= k < balances@.len() && balances@[k].0@ == a;
                    assert(balances@[k].1 == balance_of(txs, balances@[k].0@));
                }
            }
            Ok(())
        } else {
            proof {
                let j0 = choose|j: int|
                    0 <= j < i && balances@[j].0@ == negative@[0].0@ && balances@[j].1
                        == negative@[0].1;
                assert(balances@[j0].1 == balance_of(txs, balances@[j0].0@));
                assert(mentions(txs, negative@[0].0@) && balance_of(txs, negative@[0].0@) < 0);
            }
            let r = BlockchainError::NegativeBalances(negative);
            proof {
                let l = r@->NegativeBalances_0;
                assert(l.len() == negative@.len());
                assert(forall|x: int|
                    0 <= x < l.len() ==> #[trigger] l[x] == (negative@[x].0@, negative@[x].1));
                assert forall|x: int| 0 <= x < l.len() implies l[x].1 == balance_of(txs, l[x].0)
                    && l[x].1 < 0 && mentions(txs, l[x].0) by {
                    let j = choose|j: int|
                        0 <= j < i && balances@[j].0@ == negative@[x].0@ && balances@[j].1
                            == negative@[x].1;
                    assert(balances@[j].1 == balance_of(txs, balances@[j].0@));
                }
                assert forall|a: Seq<char>|
                    #[trigger] mentions(txs, a) && balance_of(txs, a) < 0 implies exists|x: int|
                    0 <= x < l.len() && l[x].0 == a by {
                    assert(has_key(balances@, a));
                    let k = choose|k: int| 0 <= k < balances@.len() && balances@[k].0@ == a;
                    assert(balances@[k].1 == balance_of(txs, balances@[k].0@));
                    let x = choose|x: int|
                        0 <= x < negative@.len() && negative@[x].0@ == balances@[k].0@;
                    assert(l[x].0 == a);
                }
                assert(lists_negatives(l, txs));
            }
            Err(r)
        }
    }

    /// Closes the current block and starts a new one.
    ///
    /// Either the chain gains exactly one new, empty block — indexed one past
    /// the old open block, carrying the digest of that block's canonical byte
    /// form and a fresh random proof — or a `NegativeBalances` error reports
    /// every overdrawn account and the chain is left exactly as it was.
    pub fn commit(&mut self) -> (r: Result<(), BlockchainError>)
        requires
            old(self).wf(),
        ensures
            final(self).wf(),
            final(self).grant_amount == old(self).grant_amount,
            (r is Ok) == no_negatives(old(self).all_txs()),
            r is Err ==> final(self).length == old(self).length,
            r is Err ==> final(self).blocks@ == old(self).blocks@,
            r matches Err(e) ==> e@ matches ErrorView::NegativeBalances(l) && lists_negatives(
                l,
                old(self).all_txs(),
            ),
            r is Ok ==> final(self).length == old(self).length + 1,
            r is Ok ==> final(self).blocks@.len() == old(self).blocks@.len() + 1,
            r is Ok ==> forall|i: int|
                0 <= i < old(self).blocks@.len() ==> final(self).blocks@[i] == old(self).blocks@[i],
            r is Ok ==> final(self).current().index == old(self).length + 1,
            r is Ok ==> final(self).current().transactions == Seq::<TxView>::empty(),
            r is Ok ==> final(self).current().previous_hash == sha256_of(
                enc_block(old(self).current()),
            ),
    {
        match self.validate_state() {
            Err(e) => {
                return Err(e);
            },
            Ok(_) => {},
        }
        let n = self.blocks.len();
        proof {
            assert(n as int == self.length + 1);
        }
        self.length = self.length + 1;
        let last_block_bytes = encode_block(&self.blocks[n - 1]);
        let previous_hash = sha256(last_block_bytes.as_slice());
        let proof_value = random_byte();
        let transactions: Vec<Transaction> = Vec::new();
        proof {
            assert(transactions@.map_values(|t: Transaction| t@) =~= Seq::<TxView>::empty());
        }
        let new_block = Block {
            index: self.length,
            proof: proof_value,
            previous_hash,
            timestamp: now_millis(),
            transactions,
        };
        self.blocks.push(new_block);
        proof {
            let n2 = self.blocks@.len() as int;
            assert(forall|i: int| 0 <= i < n2 - 1 ==> self.blocks@[i] == old(self).blocks@[i]);
            assert(self.current() == self.model()[n2 - 1]);
            assert(self.blocks@[n2 - 2]@ == old(self).current());
            assert forall|i: int|
                0 <= i < self.model().len() implies (#[trigger] self.model()[i]).index == i by {
                if i < n2 - 1 {
                    assert(self.model()[i] == old(self).model()[i]);
                    assert(old(self).model()[i].index == i);
                } else {
                    assert(self.model()[i] == self.current());
                }
            }
        }
        Ok(())
    }
}

} // verus!
