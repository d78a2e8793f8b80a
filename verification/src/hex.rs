//! The hexadecimal text of a hash: 64 digits, two per byte.
use crate::keccak::KeccakHash;
use vstd::prelude::*;
use vstd::string::*;

verus! {

/// The value of a hexadecimal digit, in upper or in lower case.
pub open spec fn digit_value(c: char) -> Option<u8> {
    if '0' <= c <= '9' {
        Some((c as u8 - '0' as u8) as u8)
    } else if 'a' <= c <= 'f' {
        Some((c as u8 - 'a' as u8 + 10) as u8)
    } else if 'A' <= c <= 'F' {
        Some((c as u8 - 'A' as u8 + 10) as u8)
    } else {
        None
    }
}

/// The upper case digit with the given value.
pub open spec fn digit_char(value: u8) -> char {
    if value < 10 {
        ('0' as u8 + value) as char
    } else {
        ('A' as u8 + value - 10) as char
    }
}

/// Is the text made of 64 hexadecimal digits?
pub open spec fn is_hash_text(text: Seq<char>) -> bool {
    &&& text.len() == 64
    &&& forall|i: int| 0 <= i < 64 ==> digit_value(#[trigger] text[i]) is Some
}

/// The text writes the bytes of the hash, the higher half of each first.
pub open spec fn writes(text: Seq<char>, hash: KeccakHash) -> bool {
    &&& is_hash_text(text)
    &&& forall|i: int|
        0 <= i < 32 ==> #[trigger] hash.0@[i] == 16 * digit_value(text[2 * i])->0 + digit_value(
            text[2 * i + 1],
        )->0
}

/// The hash that a text writes, if it writes one.
pub open spec fn hash_of_text(text: Seq<char>) -> Option<KeccakHash> {
    if is_hash_text(text) {
        Some(choose|hash: KeccakHash| writes(text, hash))
    } else {
        None
    }
}

/// The text of a hash in upper case.
pub open spec fn text_of_hash(hash: KeccakHash) -> Seq<char> {
    Seq::new(
        64,
        |i: int|
            digit_char(
                if i % 2 == 0 {
                    hash.0@[i / 2] / 16
                } else {
                    hash.0@[i / 2] % 16
                },
            ),
    )
}

/// A text writes one hash at most.
pub proof fn lemma_writes_unique(text: Seq<char>, a: KeccakHash, b: KeccakHash)
    requires
        writes(text, a),
        writes(text, b),
    ensures
        a == b,
{
    assert forall|i: int| 0 <= i < 32 implies a.0@[i] == b.0@[i] by {}
    assert(a.0 =~= b.0);
}

/// The hash that is read from a text is one that the text writes.
pub proof fn lemma_read_hash_is_written(text: Seq<char>)
    requires
        is_hash_text(text),
    ensures
        writes(text, hash_of_text(text)->0),
{
    let bytes = lemma_array_of(read_bytes(text), 32);
    assert forall|i: int| 0 <= i < 32 implies #[trigger] bytes@[i] == 16 * digit_value(
        text[2 * i],
    )->0 + digit_value(text[2 * i + 1])->0 by {
        assert(read_bytes(text)[i] == bytes@[i]);
        assert(digit_value(text[2 * i]) is Some && digit_value(text[2 * i + 1]) is Some);
    }
    assert(writes(text, KeccakHash(bytes)));
}

/// The bytes that a text writes.
spec fn read_bytes(text: Seq<char>) -> Seq<u8> {
    Seq::new(
        32,
        |i: int|
            (16 * digit_value(text[2 * i])->0 + digit_value(text[2 * i + 1])->0) as u8,
    )
}

/// There is an array that starts with the first `n` of the bytes.
proof fn lemma_array_of(bytes: Seq<u8>, n: int) -> (array: [u8; 32])
    requires
        bytes.len() == 32,
        0 <= n <= 32,
    ensures
        forall|i: int| 0 <= i < n ==> array@[i] == bytes[i],
    decreases n,
{
    if n == 0 {
        vstd::array::spec_array_fill_for_copy_type::<u8, 32>(0u8)
    } else {
        let before = lemma_array_of(bytes, n - 1);
        vstd::array::spec_array_update(before, n - 1, bytes[n - 1])
    }
}

/// A hash is read back from its own text.
pub proof fn law_text_round_trip(hash: KeccakHash)
    ensures
        hash_of_text(text_of_hash(hash)) == Some(hash),
{
    let text = text_of_hash(hash);
    assert forall|i: int| 0 <= i < 64 implies digit_value(#[trigger] text[i]) is Some by {}
    assert forall|i: int| 0 <= i < 32 implies #[trigger] hash.0@[i] == 16 * digit_value(
        text[2 * i],
    )->0 + digit_value(text[2 * i + 1])->0 by {
        assert((2 * i) % 2 == 0 && (2 * i) / 2 == i);
        assert((2 * i + 1) % 2 == 1 && (2 * i + 1) / 2 == i);
    }
    assert(writes(text, hash));
    let read = choose|h: KeccakHash| writes(text, h);
    lemma_writes_unique(text, read, hash);
}

/// The value of a hexadecimal digit.
fn value_of(c: char) -> (value: Option<u8>)
    ensures
        value == digit_value(c),
        value matches Some(v) ==> v < 16,
{
    if '0' <= c && c <= '9' {
        Some(c as u8 - '0' as u8)
    } else if 'a' <= c && c <= 'f' {
        Some(c as u8 - 'a' as u8 + 10)
    } else if 'A' <= c && c <= 'F' {
        Some(c as u8 - 'A' as u8 + 10)
    } else {
        None
    }
}

/// The upper case digit with the given value, as a text.
fn digit(value: u8) -> (text: &'static str)
    requires
        value < 16,
    ensures
        text@ == seq![digit_char(value)],
{
    proof {
        reveal_strlit("0");
        reveal_strlit("1");
        reveal_strlit("2");
        reveal_strlit("3");
        reveal_strlit("4");
        reveal_strlit("5");
        reveal_strlit("6");
        reveal_strlit("7");
        reveal_strlit("8");
        reveal_strlit("9");
        reveal_strlit("A");
        reveal_strlit("B");
        reveal_strlit("C");
        reveal_strlit("D");
        reveal_strlit("E");
        reveal_strlit("F");
    }
    match value {
        0 => "0",
        1 => "1",
        2 => "2",
        3 => "3",
        4 => "4",
        5 => "5",
        6 => "6",
        7 => "7",
        8 => "8",
        9 => "9",
        10 => "A",
        11 => "B",
        12 => "C",
        13 => "D",
        14 => "E",
        _ => "F",
    }
}

impl KeccakHash {
    /// Read a hash from 64 hexadecimal digits.
    pub fn from_hex(text: &str) -> (hash: Option<KeccakHash>)
        ensures
            hash == hash_of_text(text@),
    {
        if text.unicode_len() != 64 {
            return None;
        }
        let mut bytes: [u8; 32] = [0; 32];
        let mut i: usize = 0;
        while i < 32
            invariant
                i <= 32,
                text@.len() == 64,
                forall|j: int| 0 <= j < 2 * i ==> digit_value(#[trigger] text@[j]) is Some,
                forall|j: int|
                    0 <= j < i ==> #[trigger] bytes@[j] == 16 * digit_value(text@[2 * j])->0
                        + digit_value(text@[2 * j + 1])->0,
            decreases 32 - i,
        {
            match (value_of(text.get_char(2 * i)), value_of(text.get_char(2 * i + 1))) {
                (Some(high), Some(low)) => {
                    bytes[i] = 16 * high + low;
                },
                _ => {
                    return None;
                },
            }
            i += 1;
        }
        let hash = KeccakHash(bytes);
        proof {
            assert(writes(text@, hash));
            let read = choose|h: KeccakHash| writes(text@, h);
            lemma_writes_unique(text@, read, hash);
        }
        Some(hash)
    }

    /// The hash as 64 hexadecimal digits, in upper case.
    pub fn to_string(&self) -> (text: String)
        ensures
            text@ == text_of_hash(*self),
    {
        let mut text = String::new();
        let mut i: usize = 0;
        while i < 32
            invariant
                i <= 32,
                text@ == text_of_hash(*self).take(2 * i),
            decreases 32 - i,
        {
            text.append(digit(self.0[i] / 16));
            text.append(digit(self.0[i] % 16));
            i += 1;
            assert(text@ =~= text_of_hash(*self).take(2 * i));
        }
        assert(text@ =~= text_of_hash(*self));
        text
    }
}

} // verus!
