//! The mathematical model of the ledger.
//!
//! Transactions, blocks and the chain are mirrored by ghost values, and the
//! effect of replaying transactions on account balances is a fold over those
//! ghost values.  Balances are held in `i64` cells, so each step of the fold
//! wraps exactly as two's-complement `i64` arithmetic does; `exact_balance`
//! is the unbounded counterpart, and the lemmas at the end relate the two.
use crate::order::lex_lt;
use vstd::prelude::*;

verus! {

/// Ghost mirror of a `Transaction`.
pub ghost enum TxView {
    Grant { to: Seq<char>, amount: i64 },
    Wire { from: Seq<char>, to: Seq<char>, amount: i64 },
}

/// Ghost mirror of a `Block`.
#[verifier::ext_equal]
pub ghost struct BlockView {
    pub index: u64,
    pub timestamp: i64,
    pub transactions: Seq<TxView>,
    pub previous_hash: Seq<u8>,
    pub proof: u8,
}

/// Ghost mirror of a `BlockchainError`.
pub ghost enum ErrorView {
    NegativeBalances(Seq<(Seq<char>, i64)>),
    NegativeTransfer { from: Seq<char>, to: Seq<char>, amount: i64 },
}

/// One transaction's effect on `a`'s balance, with `i64` wrapping, applied in
/// the order the replay applies it: a wire first debits the sender, then
/// credits the receiver.
pub open spec fn apply_tx(bal: i64, t: TxView, a: Seq<char>) -> i64 {
    match t {
        TxView::Grant { to, amount } => if to == a {
            bal.wrapping_add(amount)
        } else {
            bal
        },
        TxView::Wire { from, to, amount } => {
            let debited = if from == a {
                bal.wrapping_sub(amount)
            } else {
                bal
            };
            if to == a {
                debited.wrapping_add(amount)
            } else {
                debited
            }
        },
    }
}

/// `a`'s balance after replaying `txs` in order, starting from zero.
pub open spec fn balance_of(txs: Seq<TxView>, a: Seq<char>) -> i64
    decreases txs.len(),
{
    if txs.len() == 0 {
        0i64
    } else {
        apply_tx(balance_of(txs.drop_last(), a), txs.last(), a)
    }
}

/// Does `t` name account `a` at all?
pub open spec fn touches(t: TxView, a: Seq<char>) -> bool {
    match t {
        TxView::Grant { to, .. } => to == a,
        TxView::Wire { from, to, .. } => from == a || to == a,
    }
}

/// Does any transaction in `txs` name account `a`?
pub open spec fn mentions(txs: Seq<TxView>, a: Seq<char>) -> bool {
    exists|i: int| 0 <= i < txs.len() && touches(txs[i], a)
}

/// All transactions of `blocks`, committed first, in block order and then in
/// insertion order.
pub open spec fn chain_txs(blocks: Seq<BlockView>) -> Seq<TxView>
    decreases blocks.len(),
{
    if blocks.len() == 0 {
        Seq::empty()
    } else {
        chain_txs(blocks.drop_last()) + blocks.last().transactions
    }
}

/// Replaying one more transaction applies its effect to the fold, and extends
/// the set of named accounts by the ones it touches.
pub proof fn lemma_balance_push(s: Seq<TxView>, t: TxView, a: Seq<char>)
    ensures
        balance_of(s.push(t), a) == apply_tx(balance_of(s, a), t, a),
        mentions(s.push(t), a) == (mentions(s, a) || touches(t, a)),
{
    assert(s.push(t).drop_last() =~= s);
    assert(s.push(t).last() == t);
    if mentions(s, a) {
        let i = choose|i: int| 0 <= i < s.len() && touches(s[i], a);
        assert(touches(s.push(t)[i], a));
    }
    if touches(t, a) {
        assert(touches(s.push(t)[s.len() as int], a));
    }
    if mentions(s.push(t), a) {
        let i = choose|i: int| 0 <= i < s.push(t).len() && touches(s.push(t)[i], a);
        if i < s.len() {
            assert(touches(s[i], a));
        }
    }
}

/// One more block contributes exactly its transactions, after all earlier
/// ones.
pub proof fn lemma_chain_txs_step(blocks: Seq<BlockView>, i: int)
    requires
        0 <= i < blocks.len(),
    ensures
        chain_txs(blocks.take(i + 1)) == chain_txs(blocks.take(i)) + blocks[i].transactions,
{
    assert(blocks.take(i + 1).drop_last() =~= blocks.take(i));
    assert(blocks.take(i + 1).last() == blocks[i]);
}

/// Every account named in `txs` ends with a non-negative balance.
pub open spec fn no_negatives(txs: Seq<TxView>) -> bool {
    forall|a: Seq<char>| mentions(txs, a) ==> balance_of(txs, a) >= 0
}

/// `l` is the negative-balance report for `txs`: sorted strictly by account,
/// and holding exactly the named accounts whose balance is negative, each with
/// its balance.
pub open spec fn lists_negatives(l: Seq<(Seq<char>, i64)>, txs: Seq<TxView>) -> bool {
    &&& forall|i: int, j: int| 0 <= i < j < l.len() ==> lex_lt(l[i].0, l[j].0)
    &&& forall|i: int|
        0 <= i < l.len() ==> l[i].1 == balance_of(txs, #[trigger] l[i].0) && l[i].1 < 0
            && mentions(txs, l[i].0)
    &&& forall|a: Seq<char>|
        #[trigger] mentions(txs, a) && balance_of(txs, a) < 0 ==> exists|i: int|
            0 <= i < l.len() && l[i].0 == a
}

/// One transaction's effect on `a`'s balance over the unbounded integers.
pub open spec fn tx_delta(t: TxView, a: Seq<char>) -> int {
    match t {
        TxView::Grant { to, amount } => if to == a {
            amount as int
        } else {
            0
        },
        TxView::Wire { from, to, amount } => (if to == a {
            amount as int
        } else {
            0
        }) - (if from == a {
            amount as int
        } else {
            0
        }),
    }
}

/// `a`'s balance after replaying `txs`, over the unbounded integers.
pub open spec fn exact_balance(txs: Seq<TxView>, a: Seq<char>) -> int
    decreases txs.len(),
{
    if txs.len() == 0 {
        0
    } else {
        exact_balance(txs.drop_last(), a) + tx_delta(txs.last(), a)
    }
}

/// The sum of all amounts granted to `a`.
pub open spec fn grant_total(txs: Seq<TxView>, a: Seq<char>) -> int
    decreases txs.len(),
{
    if txs.len() == 0 {
        0
    } else {
        grant_total(txs.drop_last(), a) + (match txs.last() {
            TxView::Grant { to, amount } => if to == a {
                amount as int
            } else {
                0
            },
            TxView::Wire { .. } => 0,
        })
    }
}

/// The sum of all amounts wired out of `a`.
pub open spec fn wired_out_total(txs: Seq<TxView>, a: Seq<char>) -> int
    decreases txs.len(),
{
    if txs.len() == 0 {
        0
    } else {
        wired_out_total(txs.drop_last(), a) + (match txs.last() {
            TxView::Grant { .. } => 0,
            TxView::Wire { from, amount, .. } => if from == a {
                amount as int
            } else {
                0
            },
        })
    }
}

/// The sum of all amounts wired into `a`.
pub open spec fn wired_in_total(txs: Seq<TxView>, a: Seq<char>) -> int
    decreases txs.len(),
{
    if txs.len() == 0 {
        0
    } else {
        wired_in_total(txs.drop_last(), a) + (match txs.last() {
            TxView::Grant { .. } => 0,
            TxView::Wire { to, amount, .. } => if to == a {
                amount as int
            } else {
                0
            },
        })
    }
}

/// Every partial replay of `txs` keeps `a`'s exact balance inside `i64`.
pub open spec fn prefix_bounded(txs: Seq<TxView>, a: Seq<char>) -> bool {
    forall|k: int|
        0 <= k <= txs.len() ==> i64::MIN <= #[trigger] exact_balance(txs.take(k), a) <= i64::MAX
}

/// Wrapping a debit and a credit of the same amount cancels exactly.
proof fn lemma_wrap_cancel(bal: i64, amount: i64)
    ensures
        bal.wrapping_sub(amount).wrapping_add(amount) == bal,
{
}

/// The exact balance decomposes into the three totals: grants in, wires out,
/// wires in.
pub proof fn lemma_balance_decomposition(txs: Seq<TxView>, a: Seq<char>)
    ensures
        exact_balance(txs, a) == grant_total(txs, a) - wired_out_total(txs, a) + wired_in_total(
            txs,
            a,
        ),
    decreases txs.len(),
{
    if txs.len() > 0 {
        lemma_balance_decomposition(txs.drop_last(), a);
    }
}

/// While every partial balance stays inside `i64`, the wrapping replay agrees
/// with the exact one.
pub proof fn lemma_balance_exact(txs: Seq<TxView>, a: Seq<char>)
    requires
        prefix_bounded(txs, a),
    ensures
        balance_of(txs, a) == exact_balance(txs, a),
    decreases txs.len(),
{
    if txs.len() > 0 {
        let pre = txs.drop_last();
        assert forall|k: int| 0 <= k <= pre.len() implies i64::MIN <= #[trigger] exact_balance(
            pre.take(k),
            a,
        ) <= i64::MAX by {
            assert(pre.take(k) =~= txs.take(k));
        }
        lemma_balance_exact(pre, a);
        assert(pre.take(pre.len() as int) =~= pre);
        assert(txs.take(txs.len() as int) =~= txs);
        let bal = balance_of(pre, a);
        match txs.last() {
            TxView::Grant { to, amount } => {},
            TxView::Wire { from, to, amount } => {
                if from == a && to == a {
                    lemma_wrap_cancel(bal, amount);
                }
            },
        }
    }
}

/// The balance a replay computes is a pure fold: grants to the account, minus
/// wires out of it, plus wires into it, whenever every partial sum fits in
/// `i64`.
pub proof fn lemma_balance_is_pure_sum(txs: Seq<TxView>, a: Seq<char>)
    requires
        prefix_bounded(txs, a),
    ensures
        balance_of(txs, a) == grant_total(txs, a) - wired_out_total(txs, a) + wired_in_total(
            txs,
            a,
        ),
{
    lemma_balance_exact(txs, a);
    lemma_balance_decomposition(txs, a);
}

} // verus!
