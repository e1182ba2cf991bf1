//! Canonical byte form of a block, and its digest.
//!
//! When a block is committed, its canonical byte form is digested and the
//! digest becomes the next block's `previous_hash`.  The encoding is fixed
//! here: little-endian 8-byte integers, length-prefixed UTF-8 strings, a tag
//! byte per transaction variant.  Only the digest itself comes from outside.
use crate::block::{Block, Transaction};
use crate::model::{BlockView, TxView};
use vstd::bytes::{spec_u64_to_le_bytes, u64_to_le_bytes};
use vstd::prelude::*;
use vstd::utf8::encode_utf8;

verus! {

/// The byte form of one account name: its UTF-8 bytes behind an 8-byte
/// little-endian byte count.
pub open spec fn enc_str(s: Seq<char>) -> Seq<u8> {
    spec_u64_to_le_bytes(encode_utf8(s).len() as u64) + encode_utf8(s)
}

/// The byte form of one transaction: a tag byte, the accounts, the amount's
/// two's-complement bits.
pub open spec fn enc_tx(t: TxView) -> Seq<u8> {
    match t {
        TxView::Grant { to, amount } => seq![0u8] + enc_str(to) + spec_u64_to_le_bytes(
            amount as u64,
        ),
        TxView::Wire { from, to, amount } => seq![1u8] + enc_str(from) + enc_str(to)
            + spec_u64_to_le_bytes(amount as u64),
    }
}

/// The byte forms of `txs`, in order.
pub open spec fn enc_txs(txs: Seq<TxView>) -> Seq<u8>
    decreases txs.len(),
{
    if txs.len() == 0 {
        Seq::empty()
    } else {
        enc_txs(txs.drop_last()) + enc_tx(txs.last())
    }
}

/// The canonical byte form of a whole block.
pub open spec fn enc_block(b: BlockView) -> Seq<u8> {
    spec_u64_to_le_bytes(b.index) + spec_u64_to_le_bytes(b.timestamp as u64)
        + spec_u64_to_le_bytes(b.previous_hash.len() as u64) + b.previous_hash + seq![b.proof]
        + spec_u64_to_le_bytes(b.transactions.len() as u64) + enc_txs(b.transactions)
}

fn push_bytes(out: &mut Vec<u8>, bytes: &[u8])
    ensures
        final(out)@ == old(out)@ + bytes@,
{
    let ghost pre = out@;
    out.extend_from_slice(bytes);
    proof {
        assert(out@ =~= pre + bytes@);
    }
}

fn push_u64(out: &mut Vec<u8>, x: u64)
    ensures
        final(out)@ == old(out)@ + spec_u64_to_le_bytes(x),
{
    let bytes = u64_to_le_bytes(x);
    push_bytes(out, bytes.as_slice());
}

fn push_str(out: &mut Vec<u8>, s: &String)
    ensures
        final(out)@ == old(out)@ + enc_str(s@),
{
    let ghost pre = out@;
    let bytes = s.as_str().as_bytes();
    let count: u64 = bytes.len() as u64;
    push_u64(out, count);
    push_bytes(out, bytes);
    proof {
        assert(out@ =~= pre + enc_str(s@));
    }
}

fn push_tx(out: &mut Vec<u8>, t: &Transaction)
    ensures
        final(out)@ == old(out)@ + enc_tx(t@),
{
    let ghost pre = out@;
    match t {
        Transaction::Grant { to, amount } => {
            out.push(0u8);
            push_str(out, to);
            push_u64(out, #[verifier::truncate] (*amount as u64));
        },
        Transaction::Wire { from, to, amount } => {
            out.push(1u8);
            push_str(out, from);
            push_str(out, to);
            push_u64(out, #[verifier::truncate] (*amount as u64));
        },
    }
    proof {
        assert(out@ =~= pre + enc_tx(t@));
    }
}

/// Build the canonical byte form of `b`.
pub fn encode_block(b: &Block) -> (r: Vec<u8>)
    ensures
        r@ == enc_block(b@),
{
    let mut out: Vec<u8> = Vec::new();
    push_u64(&mut out, b.index);
    push_u64(&mut out, #[verifier::truncate] (b.timestamp as u64));
    push_u64(&mut out, b.previous_hash.len() as u64);
    push_bytes(&mut out, b.previous_hash.as_slice());
    out.push(b.proof);
    push_u64(&mut out, b.transactions.len() as u64);
    let ghost header = out@;
    let ghost txs = b@.transactions;
    proof {
        assert(out@ =~= header + enc_txs(txs.take(0)));
    }
    let mut i: usize = 0;
    while i < b.transactions.len()
        invariant
            i <= b.transactions.len(),
            b.transactions@.len() == txs.len(),
            txs == b@.transactions,
            out@ == header + enc_txs(txs.take(i as int)),
        decreases b.transactions.len() - i,
    {
        push_tx(&mut out, &b.transactions[i]);
        proof {
            assert(txs.take(i as int + 1).drop_last() =~= txs.take(i as int));
            assert(txs.take(i as int + 1).last() == txs[i as int]);
            assert(txs[i as int] == b.transactions@[i as int]@);
            assert(out@ =~= header + enc_txs(txs.take(i as int + 1)));
        }
        i = i + 1;
    }
    proof {
        assert(txs.take(txs.len() as int) =~= txs);
        assert(out@ =~= enc_block(b@));
    }
    out
}

/// The SHA-256 digest of `bytes`: a fixed function of the bytes alone.
pub uninterp spec fn sha256_of(bytes: Seq<u8>) -> Seq<u8>;

/// Relies on sha2::Sha256 through digest::Digest::digest: the digest is a
/// function of the input bytes alone and is 32 bytes long.
#[verifier::external_body]
pub(crate) fn sha256(bytes: &[u8]) -> (r: Vec<u8>)
    ensures
        r@ == sha256_of(bytes@),
        r@.len() == 32,
{
    <sha2::Sha256 as sha2::Digest>::digest(bytes).to_vec()
}

} // verus!
