//! What the encoding, the hash and the key of a transfer say of it.
use crate::hex;
use crate::keccak;
use crate::keccak::KeccakHash;
use crate::storage::{Address, SegView};
use crate::transfer;
use crate::transfer::{Amount, PendingTransfer, Uint};
use vstd::arithmetic::power2::pow2;
use vstd::prelude::*;
use vstd::std_specs::convert::FromSpec;

verus! {

/// The text of an account is what its address was made of.
pub proof fn law_account_text(address: Address)
    ensures
        address matches Address::Established(text) ==> address@.text() == text@,
        address matches Address::Implicit(text) ==> address@.text() == text@,
{
}

/// What a transfer says is all that it holds.
pub proof fn law_transfer_says_its_fields(transfer: PendingTransfer)
    ensures
        transfer@.transfer == transfer.transfer,
        transfer@.fee == transfer.gas_fee.amount,
        transfer@.payer == transfer.gas_fee.payer@,
{
}

/// An amount made from a number is that many units, and an integer made from a
/// number has it as its least significant word.
pub proof fn law_made_from_number(value: u64)
    ensures
        <Amount as FromSpec<u64>>::from_spec(value).micro == value,
        <Uint as FromSpec<u64>>::from_spec(value).0@ == seq![value, 0, 0, 0],
{
    assert(<Uint as FromSpec<u64>>::from_spec(value).0@ =~= seq![value, 0, 0, 0]);
}

proof fn lemma_byte(value: u64, i: int)
    requires
        0 <= i < 8,
    ensures
        transfer::be_bytes(value)[i] as int == (value as int / pow2((56 - 8 * i) as nat) as int)
            % 256,
{
    let shift = (56 - 8 * i) as u64;
    vstd::bits::lemma_u64_shr_is_div(value, shift);
    assert((value >> shift) % 256 < 256);
}

proof fn lemma_bytes_fix_value(a: u64, b: u64)
    requires
        transfer::be_bytes(a) == transfer::be_bytes(b),
    ensures
        a == b,
{
    let x = transfer::be_bytes(a);
    let y = transfer::be_bytes(b);
    assert(x[0] == y[0] && x[1] == y[1] && x[2] == y[2] && x[3] == y[3]);
    assert(x[4] == y[4] && x[5] == y[5] && x[6] == y[6] && x[7] == y[7]);
    assert(a == b) by (bit_vector)
        requires
            ((a >> 56u64) % 256) as u8 == ((b >> 56u64) % 256) as u8,
            ((a >> 48u64) % 256) as u8 == ((b >> 48u64) % 256) as u8,
            ((a >> 40u64) % 256) as u8 == ((b >> 40u64) % 256) as u8,
            ((a >> 32u64) % 256) as u8 == ((b >> 32u64) % 256) as u8,
            ((a >> 24u64) % 256) as u8 == ((b >> 24u64) % 256) as u8,
            ((a >> 16u64) % 256) as u8 == ((b >> 16u64) % 256) as u8,
            ((a >> 8u64) % 256) as u8 == ((b >> 8u64) % 256) as u8,
            ((a >> 0u64) % 256) as u8 == ((b >> 0u64) % 256) as u8,
    ;
}

/// The first six words of the encoding hold the asset, the fee, the recipient,
/// the amount, the offset of the text and the nonce, each at the end of its
/// word and the most significant byte first.
pub proof fn law_encoding_words(transfer: PendingTransfer)
    ensures
        ({
            let bytes = transfer@.encoding();
            let sent = transfer.transfer;
            let fee = transfer.gas_fee.amount.micro as int;
            let amount = sent.amount.micro as int;
            &&& forall|i: int| 0 <= i < 12 ==> #[trigger] bytes[i] == 0
            &&& forall|i: int| 12 <= i < 32 ==> #[trigger] bytes[i] == sent.asset.0@[i - 12]
            &&& forall|i: int| 32 <= i < 56 ==> #[trigger] bytes[i] == 0
            &&& forall|i: int|
                56 <= i < 64 ==> #[trigger] bytes[i] as int == (fee / pow2(
                    (8 * (63 - i)) as nat,
                ) as int) % 256
            &&& forall|i: int| 64 <= i < 76 ==> #[trigger] bytes[i] == 0
            &&& forall|i: int| 76 <= i < 96 ==> #[trigger] bytes[i] == sent.recipient.0@[i - 76]
            &&& forall|i: int| 96 <= i < 120 ==> #[trigger] bytes[i] == 0
            &&& forall|i: int|
                120 <= i < 128 ==> #[trigger] bytes[i] as int == (amount / pow2(
                    (8 * (127 - i)) as nat,
                ) as int) % 256
            &&& forall|i: int| 128 <= i < 159 ==> #[trigger] bytes[i] == 0
            &&& bytes[159] == 192
            &&& forall|i: int|
                160 <= i < 192 ==> #[trigger] bytes[i] as int == (sent.nonce.0@[(191 - i) / 8] as int
                    / pow2((8 * ((191 - i) % 8)) as nat) as int) % 256
        }),
{
    let bytes = transfer@.encoding();
    let sent = transfer.transfer;
    let fee = transfer.gas_fee.amount.micro;
    let amount = sent.amount.micro;
    assert forall|i: int| 56 <= i < 64 implies #[trigger] bytes[i] as int == (fee as int / pow2(
        (8 * (63 - i)) as nat,
    ) as int) % 256 by {
        lemma_byte(fee, i - 56);
    }
    assert forall|i: int| 120 <= i < 128 implies #[trigger] bytes[i] as int == (amount as int
        / pow2((8 * (127 - i)) as nat) as int) % 256 by {
        lemma_byte(amount, i - 120);
    }
    assert forall|i: int| 128 <= i < 160 implies #[trigger] bytes[i] == if i < 159 {
        0u8
    } else {
        192u8
    } by {
        if i >= 152 {
            let shift = (56 - 8 * (i - 152)) as u64;
            assert(bytes[i] == ((192u64 >> shift) % 256) as u8);
            assert(192u64 >> 0u64 == 192) by (bit_vector);
            assert(8 <= shift < 64 ==> 192u64 >> shift == 0) by (bit_vector);
        }
    }
    assert forall|i: int| 160 <= i < 192 implies #[trigger] bytes[i] as int == (
    sent.nonce.0@[(191 - i) / 8] as int / pow2((8 * ((191 - i) % 8)) as nat) as int) % 256 by {
        let word = (191 - i) / 8;
        let at = 7 - (191 - i) % 8;
        assert(bytes[i] == transfer::be_bytes(sent.nonce.0@[word])[at]);
        lemma_byte(sent.nonce.0@[word], at);
    }
}

/// Behind the first six words stand the length of the text of the payer, its
/// bytes in UTF-8, and zeros up to a full word.
pub proof fn law_encoding_text(transfer: PendingTransfer)
    requires
        vstd::utf8::encode_utf8(transfer.gas_fee.payer@.text()).len() < 0x1_0000_0000_0000_0000,
    ensures
        ({
            let bytes = transfer@.encoding();
            let text = vstd::utf8::encode_utf8(transfer.gas_fee.payer@.text());
            let len = text.len() as int;
            &&& forall|i: int| 192 <= i < 216 ==> #[trigger] bytes[i] == 0
            &&& forall|i: int|
                216 <= i < 224 ==> #[trigger] bytes[i] as int == (len / pow2(
                    (8 * (223 - i)) as nat,
                ) as int) % 256
            &&& forall|i: int| 224 <= i < 224 + len ==> #[trigger] bytes[i] == text[i - 224]
            &&& forall|i: int| 224 + len <= i < bytes.len() ==> #[trigger] bytes[i] == 0
            &&& bytes.len() % 32 == 0
            &&& 224 + len <= bytes.len() < 224 + len + 32
        }),
{
    let bytes = transfer@.encoding();
    let text = vstd::utf8::encode_utf8(transfer.gas_fee.payer@.text());
    assert forall|i: int| 216 <= i < 224 implies #[trigger] bytes[i] as int == (text.len() as int
        / pow2((8 * (223 - i)) as nat) as int) % 256 by {
        lemma_byte(text.len() as u64, i - 216);
    }
}

/// The encoding tells transfers apart: two transfers with the same encoding
/// have all they say in common.
pub proof fn law_encoding_tells_transfers_apart(a: PendingTransfer, b: PendingTransfer)
    requires
        a@.encoding() == b@.encoding(),
        vstd::utf8::encode_utf8(a.gas_fee.payer@.text()).len() < 0x1_0000_0000_0000_0000,
        vstd::utf8::encode_utf8(b.gas_fee.payer@.text()).len() < 0x1_0000_0000_0000_0000,
    ensures
        a.transfer.asset.0@ == b.transfer.asset.0@,
        a.transfer.recipient.0@ == b.transfer.recipient.0@,
        a.transfer.amount.micro == b.transfer.amount.micro,
        a.transfer.nonce.0@ == b.transfer.nonce.0@,
        a.gas_fee.amount.micro == b.gas_fee.amount.micro,
        a.gas_fee.payer@.text() == b.gas_fee.payer@.text(),
{
    let x = a@.encoding();
    let y = b@.encoding();
    let s = vstd::utf8::encode_utf8(a.gas_fee.payer@.text());
    let t = vstd::utf8::encode_utf8(b.gas_fee.payer@.text());
    assert(a.transfer.asset.0@ =~= x.subrange(12, 32));
    assert(b.transfer.asset.0@ =~= y.subrange(12, 32));
    lemma_same_number(x, y, 56, a.gas_fee.amount.micro, b.gas_fee.amount.micro);
    assert(a.transfer.recipient.0@ =~= x.subrange(76, 96));
    assert(b.transfer.recipient.0@ =~= y.subrange(76, 96));
    lemma_same_number(x, y, 120, a.transfer.amount.micro, b.transfer.amount.micro);
    lemma_same_number(x, y, 160, a.transfer.nonce.0@[3], b.transfer.nonce.0@[3]);
    lemma_same_number(x, y, 168, a.transfer.nonce.0@[2], b.transfer.nonce.0@[2]);
    lemma_same_number(x, y, 176, a.transfer.nonce.0@[1], b.transfer.nonce.0@[1]);
    lemma_same_number(x, y, 184, a.transfer.nonce.0@[0], b.transfer.nonce.0@[0]);
    assert(a.transfer.nonce.0@ =~= b.transfer.nonce.0@);
    lemma_same_number(x, y, 216, s.len() as u64, t.len() as u64);
    assert(s =~= x.subrange(224, 224 + s.len() as int));
    assert(t =~= y.subrange(224, 224 + t.len() as int));
    vstd::utf8::encode_utf8_decode_utf8(a.gas_fee.payer@.text());
    vstd::utf8::encode_utf8_decode_utf8(b.gas_fee.payer@.text());
}

proof fn lemma_same_number(x: Seq<u8>, y: Seq<u8>, at: int, a: u64, b: u64)
    requires
        x == y,
        0 <= at,
        at + 8 <= x.len(),
        x.subrange(at, at + 8) =~= transfer::be_bytes(a),
        y.subrange(at, at + 8) =~= transfer::be_bytes(b),
    ensures
        a == b,
{
    lemma_bytes_fix_value(a, b);
}

/// The hash of a transfer is the digest of its encoding, and its key is a
/// single text that is read back as that hash.
pub proof fn law_hash_and_key(transfer: PendingTransfer)
    ensures
        transfer@.hash().0 == keccak::keccak256(transfer@.encoding()),
        transfer@.key().len() == 1,
        transfer@.key()[0] matches SegView::StringSeg(text) && hex::hash_of_text(text) == Some(
            transfer@.hash(),
        ),
{
    hex::law_text_round_trip(transfer@.hash());
}

/// Transfers that differ in anything they say have different keys, as long as
/// their encodings, which then differ, have different digests.
pub proof fn law_keys_tell_transfers_apart(a: PendingTransfer, b: PendingTransfer)
    requires
        a@.encoding() != b@.encoding() ==> keccak::keccak256(a@.encoding()) != keccak::keccak256(
            b@.encoding(),
        ),
        vstd::utf8::encode_utf8(a.gas_fee.payer@.text()).len() < 0x1_0000_0000_0000_0000,
        vstd::utf8::encode_utf8(b.gas_fee.payer@.text()).len() < 0x1_0000_0000_0000_0000,
    ensures
        a@.key() == b@.key() <==> {
            &&& a.transfer.asset.0@ == b.transfer.asset.0@
            &&& a.transfer.recipient.0@ == b.transfer.recipient.0@
            &&& a.transfer.amount.micro == b.transfer.amount.micro
            &&& a.transfer.nonce.0@ == b.transfer.nonce.0@
            &&& a.gas_fee.amount.micro == b.gas_fee.amount.micro
            &&& a.gas_fee.payer@.text() == b.gas_fee.payer@.text()
        },
{
    hex::law_text_round_trip(a@.hash());
    hex::law_text_round_trip(b@.hash());
    if a@.key() == b@.key() {
        assert(a@.key()[0] == b@.key()[0]);
        law_encoding_tells_transfers_apart(a, b);
    } else if a.transfer.asset.0@ == b.transfer.asset.0@ && a.transfer.recipient.0@
        == b.transfer.recipient.0@ && a.transfer.amount.micro == b.transfer.amount.micro
        && a.transfer.nonce.0@ == b.transfer.nonce.0@ && a.gas_fee.amount.micro
        == b.gas_fee.amount.micro && a.gas_fee.payer@.text() == b.gas_fee.payer@.text() {
        assert(a@.encoding() =~= b@.encoding());
    }
}

} // verus!
