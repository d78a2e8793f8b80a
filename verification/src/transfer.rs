//! The transfers to Ethereum that wait in the bridge pool.
//!
//! A transfer is hashed in the form in which a contract on Ethereum encodes
//! it: as the arguments (asset, fee, recipient, amount, fee payer, nonce) of
//! the types address, uint256, address, uint256, string and uint256.
use crate::hex;
use crate::keccak;
use crate::keccak::{keccak_hash, KeccakHash};
use crate::storage::{Address, DbKeySeg, Key};
use crate::storage::{AddressView, SegView};
use vstd::prelude::*;
use vstd::string::*;

verus! {

/// An address on Ethereum.
#[derive(Clone, Copy, Debug)]
pub struct EthAddress(pub [u8; 20]);

/// An amount of a token, in its smallest unit.
#[derive(Clone, Copy, Debug)]
pub struct Amount {
    /// The number of units
    pub micro: u64,
}

impl Default for Amount {
    /// Nothing.
    fn default() -> (amount: Amount)
        ensures
            amount.micro == 0,
    {
        Amount { micro: 0 }
    }
}

impl From<u64> for Amount {
    fn from(micro: u64) -> (amount: Amount) {
        Amount { micro }
    }
}

impl vstd::std_specs::convert::FromSpecImpl<u64> for Amount {
    open spec fn obeys_from_spec() -> bool {
        true
    }

    open spec fn from_spec(micro: u64) -> Amount {
        Amount { micro }
    }
}

/// An unsigned 256 bit integer, as four words, the least significant first.
#[derive(Clone, Copy, Debug)]
pub struct Uint(pub [u64; 4]);

impl From<u64> for Uint {
    fn from(value: u64) -> (uint: Uint) {
        Uint([value, 0, 0, 0])
    }
}

impl vstd::std_specs::convert::FromSpecImpl<u64> for Uint {
    open spec fn obeys_from_spec() -> bool {
        true
    }

    open spec fn from_spec(value: u64) -> Uint {
        Uint([value, 0, 0, 0])
    }
}

/// A transfer of a token to Ethereum.
#[derive(Clone, Copy, Debug)]
pub struct TransferToEthereum {
    /// The token to be transferred
    pub asset: EthAddress,
    /// The receiver
    pub recipient: EthAddress,
    /// The amount to be transferred
    pub amount: Amount,
    /// The nonce of the transfer
    pub nonce: Uint,
}

/// The fee for relaying a transfer, and who pays it.
#[derive(Debug)]
pub struct GasFee {
    /// The amount of the fee
    pub amount: Amount,
    /// The account that pays the fee
    pub payer: Address,
}

/// A transfer in the bridge pool, with its fee.
#[derive(Debug)]
pub struct PendingTransfer {
    /// The transfer
    pub transfer: TransferToEthereum,
    /// The fee for relaying the transfer
    pub gas_fee: GasFee,
}

/// What a [`PendingTransfer`] says.
pub struct PendingTransferView {
    pub transfer: TransferToEthereum,
    pub fee: Amount,
    pub payer: AddressView,
}

impl View for PendingTransfer {
    type V = PendingTransferView;

    open spec fn view(&self) -> PendingTransferView {
        PendingTransferView {
            transfer: self.transfer,
            fee: self.gas_fee.amount,
            payer: self.gas_fee.payer@,
        }
    }
}

impl Clone for PendingTransfer {
    fn clone(&self) -> (r: PendingTransfer)
        ensures
            r@ == self@,
    {
        PendingTransfer {
            transfer: self.transfer,
            gas_fee: GasFee { amount: self.gas_fee.amount, payer: self.gas_fee.payer.clone() },
        }
    }
}

/// The bytes of an integer, the most significant first.
pub open spec fn be_bytes(value: u64) -> Seq<u8> {
    Seq::new(8, |i: int| ((value >> ((56 - 8 * i) as u64)) % 256) as u8)
}

/// A sequence of zero bytes.
pub open spec fn zeros(len: nat) -> Seq<u8> {
    Seq::new(len, |i: int| 0u8)
}

/// A word that holds an address.
pub open spec fn address_word(address: EthAddress) -> Seq<u8> {
    zeros(12) + address.0@
}

/// A word that holds a small integer.
pub open spec fn small_word(value: u64) -> Seq<u8> {
    zeros(24) + be_bytes(value)
}

/// A word that holds an integer.
pub open spec fn uint_word(value: Uint) -> Seq<u8> {
    be_bytes(value.0@[3]) + be_bytes(value.0@[2]) + be_bytes(value.0@[1]) + be_bytes(value.0@[0])
}

/// The length of a text in bytes, its bytes, and zeros up to a full word.
pub open spec fn text_words(bytes: Seq<u8>) -> Seq<u8> {
    small_word(bytes.len() as u64) + bytes + zeros(((32 - bytes.len() % 32) % 32) as nat)
}

impl PendingTransferView {
    /// The encoding of the transfer: one word for each argument, where that of
    /// the text holds its offset, and behind them the text.
    pub open spec fn encoding(self) -> Seq<u8> {
        address_word(self.transfer.asset) + small_word(self.fee.micro) + address_word(
            self.transfer.recipient,
        ) + small_word(self.transfer.amount.micro) + small_word(192) + uint_word(
            self.transfer.nonce,
        ) + text_words(vstd::utf8::encode_utf8(self.payer.text()))
    }

    /// The hash of the transfer.
    pub open spec fn hash(self) -> KeccakHash {
        KeccakHash(keccak::keccak256(self.encoding()))
    }

    /// The storage key of the transfer.
    pub open spec fn key(self) -> Seq<SegView> {
        seq![SegView::StringSeg(hex::text_of_hash(self.hash()))]
    }
}

/// The encoding of a transfer holds seven words at least.
pub proof fn lemma_encoding_len(transfer: PendingTransferView)
    ensures
        transfer.encoding().len() >= 224,
{
}

fn push_zeros(out: &mut Vec<u8>, len: usize)
    ensures
        final(out)@ == old(out)@ + zeros(len as nat),
{
    let ghost before = out@;
    let mut i: usize = 0;
    while i < len
        invariant
            i <= len,
            out@ == before + zeros(i as nat),
        decreases len - i,
    {
        out.push(0);
        i += 1;
        assert(out@ =~= before + zeros(i as nat));
    }
}

fn push_be_bytes(out: &mut Vec<u8>, value: u64)
    ensures
        final(out)@ == old(out)@ + be_bytes(value),
{
    let ghost before = out@;
    let mut i: u64 = 0;
    while i < 8
        invariant
            i <= 8,
            out@ == before + be_bytes(value).take(i as int),
        decreases 8 - i,
    {
        out.push(((value >> (56 - 8 * i)) % 256) as u8);
        i += 1;
        assert(out@ =~= before + be_bytes(value).take(i as int));
    }
    assert(be_bytes(value).take(8) =~= be_bytes(value));
}

fn push_address(out: &mut Vec<u8>, address: &EthAddress)
    ensures
        final(out)@ == old(out)@ + address_word(*address),
{
    let ghost before = out@;
    push_zeros(out, 12);
    out.extend_from_slice(address.0.as_slice());
    assert(out@ =~= before + address_word(*address));
}

fn push_small(out: &mut Vec<u8>, value: u64)
    ensures
        final(out)@ == old(out)@ + small_word(value),
{
    let ghost before = out@;
    push_zeros(out, 24);
    push_be_bytes(out, value);
    assert(out@ =~= before + small_word(value));
}

fn push_uint(out: &mut Vec<u8>, value: &Uint)
    ensures
        final(out)@ == old(out)@ + uint_word(*value),
{
    let ghost before = out@;
    push_be_bytes(out, value.0[3]);
    push_be_bytes(out, value.0[2]);
    push_be_bytes(out, value.0[1]);
    push_be_bytes(out, value.0[0]);
    assert(out@ =~= before + uint_word(*value));
}

fn push_text(out: &mut Vec<u8>, bytes: &[u8])
    ensures
        final(out)@ == old(out)@ + text_words(bytes@),
{
    let ghost before = out@;
    push_small(out, bytes.len() as u64);
    out.extend_from_slice(bytes);
    push_zeros(out, (32 - bytes.len() % 32) % 32);
    assert(out@ =~= before + text_words(bytes@));
}

impl PendingTransfer {
    /// Encode the transfer as a contract on Ethereum does.
    pub fn encode(&self) -> (bytes: Vec<u8>)
        ensures
            bytes@ == self@.encoding(),
    {
        let mut bytes: Vec<u8> = Vec::new();
        let payer = self.gas_fee.payer.to_string();
        push_address(&mut bytes, &self.transfer.asset);
        push_small(&mut bytes, self.gas_fee.amount.micro);
        push_address(&mut bytes, &self.transfer.recipient);
        push_small(&mut bytes, self.transfer.amount.micro);
        push_small(&mut bytes, 192);
        push_uint(&mut bytes, &self.transfer.nonce);
        push_text(&mut bytes, payer.as_str().as_bytes());
        assert(bytes@ =~= self@.encoding());
        bytes
    }

    /// The Keccak hash of the encoded transfer.
    pub fn keccak256(&self) -> (hash: KeccakHash)
        ensures
            hash == self@.hash(),
    {
        keccak_hash(self.encode().as_slice())
    }
}

impl<'a> From<&'a PendingTransfer> for Key {
    /// The key of a transfer has the hash of the transfer as its only segment.
    fn from(transfer: &'a PendingTransfer) -> (key: Key)
        ensures
            key@ == transfer@.key(),
    {
        let key = Key { segments: vec![DbKeySeg::StringSeg(transfer.keccak256().to_string())] };
        assert(key@ =~= transfer@.key());
        key
    }
}

impl<'a> vstd::std_specs::convert::FromSpecImpl<&'a PendingTransfer> for Key {
    open spec fn obeys_from_spec() -> bool {
        false
    }

    open spec fn from_spec(transfer: &'a PendingTransfer) -> Key {
        arbitrary()
    }
}

} // verus!
