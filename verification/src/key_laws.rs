//! What storage keys and the texts of hashes mean.
use crate::hex;
use crate::keccak::KeccakHash;
use crate::pool;
use crate::pool::{Error, KeyError};
use crate::storage::{Address, AddressView, DbKeySeg, InternalAddress, Key, SegView};
use vstd::prelude::*;
use vstd::std_specs::cmp::PartialEqSpec;

verus! {

/// A text is read as a hash if and only if it has two hexadecimal digits for
/// each of the 32 bytes, the one for the higher half first, in either case.
pub proof fn law_hash_text(text: Seq<char>, hash: KeccakHash)
    ensures
        hex::hash_of_text(text) == Some(hash) <==> {
            &&& text.len() == 64
            &&& forall|i: int|
                0 <= i < 64 ==> {
                    let half = if i % 2 == 0 {
                        hash.0@[i / 2] as int / 16
                    } else {
                        hash.0@[i / 2] as int % 16
                    };
                    let c = #[trigger] text[i] as int;
                    ||| half < 10 && c == 48 + half
                    ||| half >= 10 && c == 55 + half
                    ||| half >= 10 && c == 87 + half
                }
        },
{
    let half = |i: int|
        if i % 2 == 0 {
            hash.0@[i / 2] as int / 16
        } else {
            hash.0@[i / 2] as int % 16
        };
    if hex::hash_of_text(text) == Some(hash) {
        hex::lemma_read_hash_is_written(text);
        assert(hex::writes(text, hash));
        assert forall|i: int| 0 <= i < 64 implies {
            let c = #[trigger] text[i] as int;
            ||| half(i) < 10 && c == 48 + half(i)
            ||| half(i) >= 10 && c == 55 + half(i)
            ||| half(i) >= 10 && c == 87 + half(i)
        } by {
            let k = i / 2;
            let high = hex::digit_value(text[2 * k])->0;
            let low = hex::digit_value(text[2 * k + 1])->0;
            assert(hash.0@[k] == 16 * high + low);
            assert(hex::digit_value(text[2 * k]) is Some);
            assert(hex::digit_value(text[2 * k + 1]) is Some);
            assert(i == 2 * k || i == 2 * k + 1);
        }
    }
    if text.len() == 64 && forall|i: int|
        0 <= i < 64 ==> {
            let c = #[trigger] text[i] as int;
            ||| half(i) < 10 && c == 48 + half(i)
            ||| half(i) >= 10 && c == 55 + half(i)
            ||| half(i) >= 10 && c == 87 + half(i)
        } {
        assert forall|i: int| 0 <= i < 64 implies hex::digit_value(#[trigger] text[i]) is Some
            && hex::digit_value(text[i])->0 == half(i) by {}
        assert forall|k: int| 0 <= k < 32 implies #[trigger] hash.0@[k] == 16 * hex::digit_value(
            text[2 * k],
        )->0 + hex::digit_value(text[2 * k + 1])->0 by {
            assert(half(2 * k) == hash.0@[k] as int / 16);
            assert(half(2 * k + 1) == hash.0@[k] as int % 16);
        }
        assert(hex::writes(text, hash));
        hex::lemma_read_hash_is_written(text);
        hex::lemma_writes_unique(text, hash, hex::hash_of_text(text)->0);
    }
}

/// A hash is written as two upper case digits for each byte, the one for the
/// higher half first.
pub proof fn law_written_hash(hash: KeccakHash)
    ensures
        hex::text_of_hash(hash).len() == 64,
        forall|i: int|
            0 <= i < 64 ==> {
                let half = if i % 2 == 0 {
                    hash.0@[i / 2] as int / 16
                } else {
                    hash.0@[i / 2] as int % 16
                };
                #[trigger] hex::text_of_hash(hash)[i] as int == if half < 10 {
                    48 + half
                } else {
                    55 + half
                }
            },
{
}

/// A key says what its segments say, each at its place.
pub proof fn law_key_says_its_segments(key: Key)
    ensures
        key@.len() == key.segments@.len(),
        forall|i: int|
            0 <= i < key.segments@.len() ==> #[trigger] key@[i] == match key.segments@[i] {
                DbKeySeg::StringSeg(text) => SegView::StringSeg(text@),
                DbKeySeg::AddressSeg(Address::Established(text)) => {
                    SegView::AddressSeg(AddressView::Established(text@))
                },
                DbKeySeg::AddressSeg(Address::Implicit(text)) => {
                    SegView::AddressSeg(AddressView::Implicit(text@))
                },
                DbKeySeg::AddressSeg(Address::Internal(internal)) => {
                    SegView::AddressSeg(AddressView::Internal(internal))
                },
            },
{
}

/// Two keys compare equal if and only if they have the same number of segments
/// and say the same in each.
pub proof fn law_equal_keys(a: Key, b: Key)
    ensures
        a.eq_spec(&b) <==> {
            &&& a.segments@.len() == b.segments@.len()
            &&& forall|i: int|
                0 <= i < a.segments@.len() ==> match (#[trigger] a.segments@[i], b.segments@[i]) {
                    (DbKeySeg::StringSeg(s), DbKeySeg::StringSeg(t)) => s@ == t@,
                    (
                        DbKeySeg::AddressSeg(Address::Established(s)),
                        DbKeySeg::AddressSeg(Address::Established(t)),
                    ) => s@ == t@,
                    (
                        DbKeySeg::AddressSeg(Address::Implicit(s)),
                        DbKeySeg::AddressSeg(Address::Implicit(t)),
                    ) => s@ == t@,
                    (
                        DbKeySeg::AddressSeg(Address::Internal(s)),
                        DbKeySeg::AddressSeg(Address::Internal(t)),
                    ) => s == t,
                    _ => false,
                }
        },
{
    if a@ == b@ {
        assert forall|i: int| 0 <= i < a.segments@.len() implies (
        #[trigger] a.segments@[i])@ == b.segments@[i]@ by {
            assert(a@[i] == b@[i]);
        }
    } else if a.segments@.len() == b.segments@.len() {
        if forall|i: int| 0 <= i < a.segments@.len() ==> (#[trigger] a.segments@[i])@
            == b.segments@[i]@ {
            assert(a@ =~= b@);
        }
    }
}

/// A key stands for a leaf if and only if it has exactly one segment, and that
/// is the text of a hash. The error tells which of these is not so, the number
/// of segments first.
pub proof fn law_parsed_key(key: Key)
    ensures
        key.segments@.len() != 1 ==> pool::parsed_key(key@) == Err::<KeccakHash, Error>(
            Error(KeyError::SegmentCount),
        ),
        key.segments@.len() == 1 && key.segments@[0] is AddressSeg ==> pool::parsed_key(key@)
            == Err::<KeccakHash, Error>(Error(KeyError::NotAString)),
        key.segments@.len() == 1 ==> (key.segments@[0] matches DbKeySeg::StringSeg(text)
            ==> pool::parsed_key(key@) == match hex::hash_of_text(text@) {
            Some(hash) => Ok::<KeccakHash, Error>(hash),
            None => Err::<KeccakHash, Error>(Error(KeyError::NotAHash)),
        }),
{
}

/// A key belongs to the pool if and only if its first segment is the address
/// of the pool, whatever comes behind. It is then protected, unless all that
/// comes behind is the text for the pending transfers.
pub proof fn law_pool_storage(key: Key)
    requires
        key.segments@.len() > 0,
    ensures
        pool::in_pool_storage(key@) <==> (key.segments@[0] matches DbKeySeg::AddressSeg(
            Address::Internal(InternalAddress::EthBridgePool),
        )),
        pool::is_protected(key@) <==> {
            &&& (key.segments@[0] matches DbKeySeg::AddressSeg(
                Address::Internal(InternalAddress::EthBridgePool),
            ))
            &&& !(key.segments@.len() == 2 && (key.segments@[1] matches DbKeySeg::StringSeg(text)
                && text@ == "pending_transfers"@))
        },
{
    let pending = pool::pool_key(pool::PENDING_TRANSFERS_SEG@);
    if key@.len() == 2 && key@[0] == pending[0] && key@[1] == pending[1] {
        assert(key@ =~= pending);
    } else {
        assert(key@ == pending ==> key@[0] == pending[0] && key@[1] == pending[1] && key@.len()
            == 2);
    }
}

/// The keys of the pool are its address and a text.
pub proof fn law_pool_keys()
    ensures
        pool::pool_key(pool::PENDING_TRANSFERS_SEG@) == seq![
            SegView::AddressSeg(AddressView::Internal(InternalAddress::EthBridgePool)),
            SegView::StringSeg("pending_transfers"@),
        ],
        pool::pool_key(pool::SIGNED_ROOT_SEG@) == seq![
            SegView::AddressSeg(AddressView::Internal(InternalAddress::EthBridgePool)),
            SegView::StringSeg("signed_root"@),
        ],
{
}

} // verus!
