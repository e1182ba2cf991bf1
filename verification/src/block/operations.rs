//! Actions to perform upon the blockchain.
//!
//! The balance listing is an association list sorted strictly by account
//! name; `lookup` reads it as a total mapping that is zero for absent
//! accounts, which matches the implicit zero every unseen account starts at.
use crate::block::{Block, Blockchain, BlockchainError, Transaction};
use crate::model::{
    balance_of, chain_txs, lemma_balance_push, lemma_chain_txs_step, mentions, BlockView,
    ErrorView, TxView,
};
use crate::order::{
    lemma_lex_connected, lemma_lex_irreflexive, lemma_lex_transitive, lex_lt, str_lt,
};
use vstd::prelude::*;

verus! {

/// Account names strictly ascend through the listing.
pub open spec fn sorted_keys(m: Seq<(String, i64)>) -> bool {
    forall|i: int, j: int| 0 <= i < j < m.len() ==> lex_lt(m[i].0@, m[j].0@)
}

/// Is some account named `a` listed?
pub open spec fn has_key(m: Seq<(String, i64)>, a: Seq<char>) -> bool {
    exists|k: int| 0 <= k < m.len() && m[k].0@ == a
}

/// The balance listed for `a`, zero when `a` is absent.
pub open spec fn lookup(m: Seq<(String, i64)>, a: Seq<char>) -> i64
    decreases m.len(),
{
    if m.len() == 0 {
        0i64
    } else if m.last().0@ == a {
        m.last().1
    } else {
        lookup(m.drop_last(), a)
    }
}

/// In a sorted listing, the entry at `k` is what `lookup` returns for its key.
proof fn lemma_lookup_entry(m: Seq<(String, i64)>, k: int)
    requires
        sorted_keys(m),
        0 <= k < m.len(),
    ensures
        lookup(m, m[k].0@) == m[k].1,
    decreases m.len(),
{
    if k == m.len() - 1 {
    } else {
        lemma_lex_irreflexive(m[k].0@);
        assert(lex_lt(m[k].0@, m.last().0@));
        assert(m.drop_last()[k] == m[k]);
        lemma_lookup_entry(m.drop_last(), k);
    }
}

/// An absent account is listed with zero.
proof fn lemma_lookup_absent(m: Seq<(String, i64)>, a: Seq<char>)
    requires
        !has_key(m, a),
    ensures
        lookup(m, a) == 0i64,
    decreases m.len(),
{
    if m.len() > 0 {
        assert(m.last() == m[m.len() - 1]);
        assert(forall|k: int| 0 <= k < m.len() - 1 ==> m.drop_last()[k] == m[k]);
        lemma_lookup_absent(m.drop_last(), a);
    }
}

/// Replacing the entry at `i` by one with the same account updates that
/// account's balance and nothing else.
proof fn lemma_lookup_update(m: Seq<(String, i64)>, i: int, p: (String, i64))
    requires
        sorted_keys(m),
        0 <= i < m.len(),
        p.0@ == m[i].0@,
    ensures
        sorted_keys(m.update(i, p)),
        lookup(m.update(i, p), p.0@) == p.1,
        forall|a: Seq<char>| a != p.0@ ==> lookup(m.update(i, p), a) == lookup(m, a),
        forall|a: Seq<char>| has_key(m.update(i, p), a) == has_key(m, a),
    decreases m.len(),
{
    let m2 = m.update(i, p);
    assert forall|a: Seq<char>| has_key(m2, a) == has_key(m, a) by {
        if has_key(m2, a) {
            let k = choose|k: int| 0 <= k < m2.len() && m2[k].0@ == a;
            assert(m[k].0@ == a);
        }
        if has_key(m, a) {
            let k = choose|k: int| 0 <= k < m.len() && m[k].0@ == a;
            assert(m2[k].0@ == a);
        }
    }
    if i == m.len() - 1 {
        assert(m2.last() == p);
        assert(m2.drop_last() =~= m.drop_last());
    } else {
        assert(m2.last() == m.last());
        assert(m2.drop_last() =~= m.drop_last().update(i, p));
        assert(forall|k: int| 0 <= k < m.len() - 1 ==> m.drop_last()[k] == m[k]);
        lemma_lookup_update(m.drop_last(), i, p);
        lemma_lex_irreflexive(m.last().0@);
        assert(lex_lt(m[i].0@, m.last().0@));
    }
    assert forall|a: Seq<char>| a != p.0@ implies lookup(m2, a) == lookup(m, a) by {
        if i == m.len() - 1 {
            assert(m.last().0@ == p.0@);
            assert(lookup(m2, a) == lookup(m2.drop_last(), a));
            assert(lookup(m, a) == lookup(m.drop_last(), a));
        } else if m.last().0@ != a {
            assert(lookup(m2, a) == lookup(m2.drop_last(), a));
            assert(lookup(m, a) == lookup(m.drop_last(), a));
        }
    }
}

/// Inserting an absent account at its sorted position lists it with its new
/// balance, keeps the listing sorted, and changes nothing else.
proof fn lemma_lookup_insert(m: Seq<(String, i64)>, i: int, p: (String, i64))
    requires
        sorted_keys(m),
        0 <= i <= m.len(),
        forall|k: int| 0 <= k < i ==> lex_lt(m[k].0@, p.0@),
        forall|k: int| i <= k < m.len() ==> lex_lt(p.0@, m[k].0@),
    ensures
        sorted_keys(m.insert(i, p)),
        lookup(m.insert(i, p), p.0@) == p.1,
        forall|a: Seq<char>| a != p.0@ ==> lookup(m.insert(i, p), a) == lookup(m, a),
        forall|a: Seq<char>| has_key(m.insert(i, p), a) == (has_key(m, a) || a == p.0@),
    decreases m.len(),
{
    let m2 = m.insert(i, p);
    assert(m2.len() == m.len() + 1);
    assert(forall|k: int| 0 <= k < i ==> m2[k] == m[k]);
    assert(m2[i] == p);
    assert(forall|k: int| i < k < m2.len() ==> m2[k] == m[k - 1]);
    assert forall|a: Seq<char>| has_key(m2, a) == (has_key(m, a) || a == p.0@) by {
        if has_key(m2, a) {
            let k = choose|k: int| 0 <= k < m2.len() && m2[k].0@ == a;
            if k < i {
                assert(m[k].0@ == a);
            } else if k > i {
                assert(m[k - 1].0@ == a);
            }
        }
        if has_key(m, a) {
            let k = choose|k: int| 0 <= k < m.len() && m[k].0@ == a;
            if k < i {
                assert(m2[k].0@ == a);
            } else {
                assert(m2[k + 1].0@ == a);
            }
        }
        if a == p.0@ {
            assert(m2[i].0@ == a);
        }
    }
    assert forall|x: int, y: int| 0 <= x < y < m2.len() implies lex_lt(m2[x].0@, m2[y].0@) by {
        if x == i {
            assert(lex_lt(p.0@, m[y - 1].0@));
        } else if y == i {
            assert(lex_lt(m[x].0@, p.0@));
        } else if x < i && y > i {
            assert(lex_lt(m[x].0@, m[y - 1].0@));
        }
    }
    if i == m.len() {
        assert(m2.last() == p);
        assert(m2.drop_last() =~= m);
    } else {
        assert(m2.last() == m.last());
        assert(m2.drop_last() =~= m.drop_last().insert(i, p));
        assert(forall|k: int| 0 <= k < m.len() - 1 ==> m.drop_last()[k] == m[k]);
        lemma_lookup_insert(m.drop_last(), i, p);
        lemma_lex_irreflexive(m.last().0@);
        assert(lex_lt(p.0@, m.last().0@));
        assert(m2.last().0@ != p.0@);
        assert(lookup(m2, p.0@) == lookup(m2.drop_last(), p.0@));
    }
    assert forall|a: Seq<char>| a != p.0@ implies lookup(m2, a) == lookup(m, a) by {
        if i == m.len() {
            assert(lookup(m2, a) == lookup(m2.drop_last(), a));
        } else if m.last().0@ != a {
            assert(lookup(m2, a) == lookup(m2.drop_last(), a));
            assert(lookup(m, a) == lookup(m.drop_last(), a));
        }
    }
}

/// Find where `key` is, or belongs, in the sorted listing.
fn locate(m: &Vec<(String, i64)>, key: &String) -> (r: usize)
    requires
        sorted_keys(m@),
    ensures
        r <= m@.len(),
        forall|k: int| 0 <= k < r ==> lex_lt(m@[k].0@, key@),
        r < m@.len() ==> (m@[r as int].0@ == key@ || lex_lt(key@, m@[r as int].0@)),
{
    let n = m.len();
    let mut i: usize = 0;
    while i < n && str_lt(&m[i].0, key)
        invariant
            i <= n,
            n == m@.len(),
            sorted_keys(m@),
            forall|k: int| 0 <= k < i ==> lex_lt(m@[k].0@, key@),
        decreases n - i,
    {
        i = i + 1;
    }
    if i < n {
        proof {
            lemma_lex_connected(m@[i as int].0@, key@);
        }
    }
    i
}

/// Add `amount` to `key`'s balance (or subtract it, when `subtract` is set),
/// with `i64` wrapping, starting an absent account at zero.
fn adjust(m: &mut Vec<(String, i64)>, key: &String, amount: i64, subtract: bool)
    requires
        sorted_keys(old(m)@),
    ensures
        sorted_keys(final(m)@),
        lookup(final(m)@, key@) == (if subtract {
            lookup(old(m)@, key@).wrapping_sub(amount)
        } else {
            lookup(old(m)@, key@).wrapping_add(amount)
        }),
        forall|a: Seq<char>| a != key@ ==> lookup(final(m)@, a) == lookup(old(m)@, a),
        forall|a: Seq<char>| has_key(final(m)@, a) == (has_key(old(m)@, a) || a == key@),
{
    let i = locate(m, key);
    let n = m.len();
    if i < n && m[i].0 == *key {
        let stored = m[i].1;
        let account = m[i].0.clone();
        let updated: i64 = if subtract {
            stored.wrapping_sub(amount)
        } else {
            stored.wrapping_add(amount)
        };
        proof {
            assert(has_key(m@, key@)) by {
                assert(m@[i as int].0@ == key@);
            }
            lemma_lookup_entry(m@, i as int);
            lemma_lookup_update(m@, i as int, (account, updated));
        }
        m.set(i, (account, updated));
    } else {
        proof {
            assert forall|k: int| i <= k < m@.len() implies lex_lt(key@, m@[k].0@) by {
                if k == i {
                } else {
                    lemma_lex_transitive(key@, m@[i as int].0@, m@[k].0@);
                }
            }
            assert(!has_key(m@, key@)) by {
                if has_key(m@, key@) {
                    let k = choose|k: int| 0 <= k < m@.len() && m@[k].0@ == key@;
                    lemma_lex_irreflexive(key@);
                }
            }
            lemma_lookup_absent(m@, key@);
        }
        let zero: i64 = 0;
        let fresh: i64 = if subtract {
            zero.wrapping_sub(amount)
        } else {
            zero.wrapping_add(amount)
        };
        let account = key.clone();
        proof {
            lemma_lookup_insert(m@, i as int, (account, fresh));
        }
        m.insert(i, (account, fresh));
    }
}

fn copy_tx(t: &Transaction) -> (r: Transaction)
    ensures
        r@ == t@,
{
    match t {
        Transaction::Grant { to, amount } => Transaction::Grant {
            to: to.clone(),
            amount: *amount,
        },
        Transaction::Wire { from, to, amount } => Transaction::Wire {
            from: from.clone(),
            to: to.clone(),
            amount: *amount,
        },
    }
}

impl Blockchain {
    /// Calculate everyone's balance: replay every transaction of every block,
    /// committed and open, in order, starting each unseen account at an
    /// implicit zero.  The listing is sorted by account and holds exactly the
    /// accounts some transaction names.
    pub fn balance(&self) -> (r: Vec<(String, i64)>)
        requires
            self.wf(),
        ensures
            sorted_keys(r@),
            forall|a: Seq<char>| lookup(r@, a) == balance_of(self.all_txs(), a),
            forall|a: Seq<char>| has_key(r@, a) == mentions(self.all_txs(), a),
            forall|k: int|
                0 <= k < r@.len() ==> r@[k].1 == balance_of(self.all_txs(), #[trigger] r@[k].0@)
                    && mentions(self.all_txs(), r@[k].0@),
    {
        let ghost blocks = self.model();
        let mut m: Vec<(String, i64)> = Vec::new();
        proof {
            assert(blocks.take(0) =~= Seq::<BlockView>::empty());
        }
        let nblocks = self.blocks.len();
        let mut bi: usize = 0;
        while bi < nblocks
            invariant
                self.wf(),
                blocks == self.model(),
                nblocks == self.blocks@.len(),
                bi <= nblocks,
                sorted_keys(m@),
                forall|a: Seq<char>|
                    lookup(m@, a) == balance_of(chain_txs(blocks.take(bi as int)), a),
                forall|a: Seq<char>|
                    has_key(m@, a) == mentions(chain_txs(blocks.take(bi as int)), a),
            decreases nblocks - bi,
        {
            let ghost done_blocks = chain_txs(blocks.take(bi as int));
            let blk = &self.blocks[bi];
            let ntx = blk.transactions.len();
            let mut ti: usize = 0;
            while ti < ntx
                invariant
                    bi < blocks.len(),
                    blk@ == blocks[bi as int],
                    ntx == blk.transactions@.len(),
                    ti <= ntx,
                    sorted_keys(m@),
                    forall|a: Seq<char>|
                        lookup(m@, a) == balance_of(
                            done_blocks + blocks[bi as int].transactions.take(ti as int),
                            a,
                        ),
                    forall|a: Seq<char>|
                        has_key(m@, a) == mentions(
                            done_blocks + blocks[bi as int].transactions.take(ti as int),
                            a,
                        ),
                decreases ntx - ti,
            {
                let ghost done = done_blocks + blocks[bi as int].transactions.take(ti as int);
                let t = &blk.transactions[ti];
                proof {
                    assert(t@ == blocks[bi as int].transactions[ti as int]);
                    assert((done_blocks + blocks[bi as int].transactions.take(ti as int + 1))
                        =~= done.push(t@));
                }
                match t {
                    Transaction::Grant { to, amount } => {
                        adjust(&mut m, to, *amount, false);
                    },
                    Transaction::Wire { from, to, amount } => {
                        adjust(&mut m, from, *amount, true);
                        adjust(&mut m, to, *amount, false);
                    },
                }
                proof {
                    assert forall|a: Seq<char>|
                        lookup(m@, a) == balance_of(done.push(t@), a) && has_key(m@, a)
                            == mentions(done.push(t@), a) by {
                        lemma_balance_push(done, t@, a);
                    }
                }
                ti = ti + 1;
            }
            proof {
                assert(blocks[bi as int].transactions.take(ntx as int)
                    =~= blocks[bi as int].transactions);
                lemma_chain_txs_step(blocks, bi as int);
            }
            bi = bi + 1;
        }
        proof {
            assert(blocks.take(nblocks as int) =~= blocks);
            assert forall|k: int| 0 <= k < m@.len() implies m@[k].1 == balance_of(
                self.all_txs(),
                m@[k].0@,
            ) && mentions(self.all_txs(), m@[k].0@) by {
                lemma_lookup_entry(m@, k);
                assert(has_key(m@, m@[k].0@));
            }
        }
        m
    }

    /// Return the currently pending transactions: a copy of the open block's
    /// list.
    pub fn pending(&self) -> (r: Vec<Transaction>)
        requires
            self.wf(),
        ensures
            r@.len() == self.current().transactions.len(),
            r@.map_values(|t: Transaction| t@) == self.current().transactions,
    {
        let n = self.blocks.len();
        let blk = &self.blocks[n - 1];
        let ghost target = self.current().transactions;
        proof {
            assert(blk@ == self.model()[n - 1]);
            assert(blk@.transactions == target);
        }
        let ntx = blk.transactions.len();
        let mut r: Vec<Transaction> = Vec::new();
        let mut i: usize = 0;
        while i < ntx
            invariant
                i <= ntx,
                ntx == blk.transactions@.len(),
                blk@.transactions == target,
                r@.len() == i,
                forall|k: int| 0 <= k < i ==> (#[trigger] r@[k])@ == target[k],
            decreases ntx - i,
        {
            let c = copy_tx(&blk.transactions[i]);
            r.push(c);
            i = i + 1;
        }
        proof {
            assert(r@.map_values(|t: Transaction| t@) =~= target);
        }
        r
    }

    /// Guess the proof.  Reward the miner if, and only if, the guess matches
    /// the open block's proof byte: exactly one `Grant` of `grant_amount` is
    /// then appended to the open block.  A wrong guess changes nothing.
    pub fn guess(&mut self, guess: u8, miner: String) -> (r: bool)
        requires
            old(self).wf(),
        ensures
            final(self).wf(),
            r == (guess == old(self).current().proof),
            final(self).length == old(self).length,
            final(self).grant_amount == old(self).grant_amount,
            final(self).blocks@.len() == old(self).blocks@.len(),
            forall|i: int|
                0 <= i < old(self).blocks@.len() - 1 ==> final(self).blocks@[i] == old(
                    self,
                ).blocks@[i],
            !r ==> final(self).blocks@ == old(self).blocks@,
            r ==> final(self).current() == (BlockView {
                transactions: old(self).current().transactions.push(
                    TxView::Grant { to: miner@, amount: old(self).grant_amount },
                ),
                ..old(self).current()
            }),
            !r ==> final(self).current() == old(self).current(),
    {
        let n = self.blocks.len();
        let correct = guess == self.blocks[n - 1].proof;
        proof {
            assert(self.blocks@[n - 1]@ == self.model()[n - 1]);
        }
        if correct {
            let grant = Transaction::Grant { to: miner, amount: self.grant_amount };
            let mut blk = self.blocks.pop().unwrap();
            blk.transactions.push(grant);
            proof {
                assert(blk@.transactions =~= old(self).current().transactions.push(
                    TxView::Grant { to: miner@, amount: old(self).grant_amount },
                ));
            }
            self.blocks.push(blk);
            proof {
                let n2 = self.blocks@.len() as int;
                assert(forall|i: int|
                    0 <= i < n2 - 1 ==> self.blocks@[i] == old(self).blocks@[i]);
                assert(self.current() =~= (BlockView {
                    transactions: old(self).current().transactions.push(
                        TxView::Grant { to: miner@, amount: old(self).grant_amount },
                    ),
                    ..old(self).current()
                }));
                assert forall|i: int|
                    0 <= i < self.model().len() implies (#[trigger] self.model()[i]).index
                    == i by {
                    if i < n2 - 1 {
                        assert(self.model()[i] == old(self).model()[i]);
                        assert(old(self).model()[i].index == i);
                    } else {
                        assert(self.model()[i] == self.current());
                    }
                }
            }
            true
        } else {
            proof {
                assert(self.blocks@ =~= old(self).blocks@);
            }
            false
        }
    }

    /// Wire someone money.  A negative amount is rejected with
    /// `NegativeTransfer` and changes nothing; otherwise the `Wire` is
    /// appended to the open block.  Overdrafts are not caught here: they
    /// surface at commit time.
    pub fn wire(&mut self, from: String, to: String, amount: i64) -> (r: Result<
        (),
        BlockchainError,
    >)
        requires
            old(self).wf(),
        ensures
            final(self).wf(),
            final(self).length == old(self).length,
            final(self).grant_amount == old(self).grant_amount,
            r is Ok <==> amount >= 0,
            amount < 0 ==> final(self).blocks@ == old(self).blocks@ && (r matches Err(e) && e@
                == (ErrorView::NegativeTransfer { from: from@, to: to@, amount })),
            amount >= 0 ==> final(self).blocks@.len() == old(self).blocks@.len() && (forall|i: int|
                0 <= i < old(self).blocks@.len() - 1 ==> final(self).blocks@[i] == old(
                    self,
                ).blocks@[i]) && final(self).current() == (BlockView {
                transactions: old(self).current().transactions.push(
                    TxView::Wire { from: from@, to: to@, amount },
                ),
                ..old(self).current()
            }),
    {
        if amount < 0 {
            return Err(BlockchainError::NegativeTransfer { from, to, amount });
        }
        let wire = Transaction::Wire { from, to, amount };
        let mut blk = self.blocks.pop().unwrap();
        blk.transactions.push(wire);
        proof {
            assert(blk@.transactions =~= old(self).current().transactions.push(
                TxView::Wire { from: from@, to: to@, amount },
            ));
        }
        self.blocks.push(blk);
        proof {
            let n2 = self.blocks@.len() as int;
            assert(forall|i: int| 0 <= i < n2 - 1 ==> self.blocks@[i] == old(self).blocks@[i]);
            assert(self.current() =~= (BlockView {
                transactions: old(self).current().transactions.push(
                    TxView::Wire { from: from@, to: to@, amount },
                ),
                ..old(self).current()
            }));
            assert forall|i: int|
                0 <= i < self.model().len() implies (#[trigger] self.model()[i]).index == i by {
                if i < n2 - 1 {
                    assert(self.model()[i] == old(self).model()[i]);
                    assert(old(self).model()[i].index == i);
                } else {
                    assert(self.model()[i] == self.current());
                }
            }
        }
        Ok(())
    }

    /// Return all the committed blocks, the whole chain up to now, excluding
    /// the open block.
    pub fn chain(&self) -> (r: Vec<Block>)
        requires
            self.wf(),
        ensures
            r@.len() == self.length,
            forall|i: int| 0 <= i < r@.len() ==> (#[trigger] r@[i])@ == self.model()[i],
    {
        let committed = self.blocks.len() - 1;
        let mut r: Vec<Block> = Vec::new();
        let mut i: usize = 0;
        while i < committed
            invariant
                committed == self.blocks@.len() - 1,
                i <= committed,
                r@.len() == i,
                forall|k: int| 0 <= k < i ==> (#[trigger] r@[k])@ == self.model()[k],
            decreases committed - i,
        {
            let c = copy_block(&self.blocks[i]);
            proof {
                assert(self.blocks@[i as int]@ == self.model()[i as int]);
            }
            r.push(c);
            i = i + 1;
        }
        r
    }
}

fn copy_block(b: &Block) -> (r: Block)
    ensures
        r@ == b@,
{
    let ntx = b.transactions.len();
    let mut transactions: Vec<Transaction> = Vec::new();
    let mut i: usize = 0;
    while i < ntx
        invariant
            i <= ntx,
            ntx == b.transactions@.len(),
            transactions@.len() == i,
            forall|k: int| 0 <= k < i ==> (#[trigger] transactions@[k])@ == b@.transactions[k],
        decreases ntx - i,
    {
        let c = copy_tx(&b.transactions[i]);
        transactions.push(c);
        i = i + 1;
    }
    let mut previous_hash: Vec<u8> = Vec::new();
    previous_hash.extend_from_slice(b.previous_hash.as_slice());
    proof {
        assert(previous_hash@ =~= b.previous_hash@);
    }
    let r = Block {
        index: b.index,
        timestamp: b.timestamp,
        transactions,
        previous_hash,
        proof: b.proof,
    };
    proof {
        assert(r@.transactions =~= b@.transactions);
        assert(r@ =~= b@);
    }
    r
}

} // verus!
