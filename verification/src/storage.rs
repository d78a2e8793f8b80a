//! Addresses and the keys under which values are stored.
use vstd::prelude::*;

verus! {

/// An internal address, which belongs to a part of the ledger itself.
#[derive(Clone, Copy, Debug, PartialEq, Eq, Structural)]
pub enum InternalAddress {
    /// The Ethereum bridge
    EthBridge,
    /// The pool of transfers to Ethereum
    EthBridgePool,
}

/// The address of an account.
#[derive(Debug)]
pub enum Address {
    /// An established address, in its encoded form
    Established(String),
    /// An implicit address, in its encoded form
    Implicit(String),
    /// An internal address
    Internal(InternalAddress),
}

/// What an [`Address`] says.
pub enum AddressView {
    Established(Seq<char>),
    Implicit(Seq<char>),
    Internal(InternalAddress),
}

impl AddressView {
    /// The text by which the address is known.
    pub open spec fn text(self) -> Seq<char> {
        match self {
            AddressView::Established(text) => text,
            AddressView::Implicit(text) => text,
            AddressView::Internal(InternalAddress::EthBridge) => "ano::ETH Bridge Address"@,
            AddressView::Internal(InternalAddress::EthBridgePool) => {
                "ano::ETH Bridge Pool Address"@
            },
        }
    }
}

impl Address {
    /// The text by which the address is known.
    pub fn to_string(&self) -> (text: String)
        ensures
            text@ == self@.text(),
    {
        match self {
            Address::Established(text) => text.clone(),
            Address::Implicit(text) => text.clone(),
            Address::Internal(InternalAddress::EthBridge) => {
                "ano::ETH Bridge Address".to_string()
            },
            Address::Internal(InternalAddress::EthBridgePool) => {
                "ano::ETH Bridge Pool Address".to_string()
            },
        }
    }
}

impl View for Address {
    type V = AddressView;

    open spec fn view(&self) -> AddressView {
        match *self {
            Address::Established(text) => AddressView::Established(text@),
            Address::Implicit(text) => AddressView::Implicit(text@),
            Address::Internal(internal) => AddressView::Internal(internal),
        }
    }
}

impl Clone for Address {
    fn clone(&self) -> (r: Address)
        ensures
            r@ == self@,
    {
        match self {
            Address::Established(text) => Address::Established(text.clone()),
            Address::Implicit(text) => Address::Implicit(text.clone()),
            Address::Internal(internal) => Address::Internal(*internal),
        }
    }
}

impl PartialEq for Address {
    fn eq(&self, other: &Address) -> (r: bool) {
        match (self, other) {
            (Address::Established(a), Address::Established(b)) => *a == *b,
            (Address::Implicit(a), Address::Implicit(b)) => *a == *b,
            (Address::Internal(a), Address::Internal(b)) => *a == *b,
            _ => false,
        }
    }
}

impl vstd::std_specs::cmp::PartialEqSpecImpl for Address {
    open spec fn obeys_eq_spec() -> bool {
        true
    }

    open spec fn eq_spec(&self, other: &Address) -> bool {
        self@ == other@
    }
}

/// A segment of a storage key.
#[derive(Debug)]
pub enum DbKeySeg {
    /// A segment that holds an address
    AddressSeg(Address),
    /// A segment that holds a text
    StringSeg(String),
}

/// What a [`DbKeySeg`] says.
pub enum SegView {
    AddressSeg(AddressView),
    StringSeg(Seq<char>),
}

impl View for DbKeySeg {
    type V = SegView;

    open spec fn view(&self) -> SegView {
        match *self {
            DbKeySeg::AddressSeg(address) => SegView::AddressSeg(address@),
            DbKeySeg::StringSeg(text) => SegView::StringSeg(text@),
        }
    }
}

impl Clone for DbKeySeg {
    fn clone(&self) -> (r: DbKeySeg)
        ensures
            r@ == self@,
    {
        match self {
            DbKeySeg::AddressSeg(address) => DbKeySeg::AddressSeg(address.clone()),
            DbKeySeg::StringSeg(text) => DbKeySeg::StringSeg(text.clone()),
        }
    }
}

impl PartialEq for DbKeySeg {
    fn eq(&self, other: &DbKeySeg) -> (r: bool) {
        match (self, other) {
            (DbKeySeg::AddressSeg(a), DbKeySeg::AddressSeg(b)) => *a == *b,
            (DbKeySeg::StringSeg(a), DbKeySeg::StringSeg(b)) => *a == *b,
            _ => false,
        }
    }
}

impl vstd::std_specs::cmp::PartialEqSpecImpl for DbKeySeg {
    open spec fn obeys_eq_spec() -> bool {
        true
    }

    open spec fn eq_spec(&self, other: &DbKeySeg) -> bool {
        self@ == other@
    }
}

/// A storage key.
#[derive(Debug)]
pub struct Key {
    /// The segments of the key, in the order in which they are written
    pub segments: Vec<DbKeySeg>,
}

impl View for Key {
    type V = Seq<SegView>;

    open spec fn view(&self) -> Seq<SegView> {
        Seq::new(self.segments@.len(), |i: int| self.segments@[i]@)
    }
}

impl Clone for Key {
    fn clone(&self) -> (r: Key)
        ensures
            r@ == self@,
    {
        let key = Key { segments: self.segments.clone() };
        assert(key@ =~= self@);
        key
    }
}

impl PartialEq for Key {
    fn eq(&self, other: &Key) -> (r: bool) {
        if self.segments.len() != other.segments.len() {
            assert(self@.len() != other@.len());
            return false;
        }
        let mut i: usize = 0;
        while i < self.segments.len()
            invariant
                i <= self.segments.len() == other.segments.len(),
                forall|j: int| 0 <= j < i ==> self@[j] == other@[j],
            decreases self.segments.len() - i,
        {
            if self.segments[i] != other.segments[i] {
                assert(self@[i as int] != other@[i as int]);
                return false;
            }
            i += 1;
        }
        assert(self@ =~= other@);
        true
    }
}

impl vstd::std_specs::cmp::PartialEqSpecImpl for Key {
    open spec fn obeys_eq_spec() -> bool {
        true
    }

    open spec fn eq_spec(&self, other: &Key) -> bool {
        self@ == other@
    }
}

} // verus!
