use vstd::prelude::*;

verus! {

/// A 32-byte SHA-256 digest, as used for transaction hashes.
#[derive(Clone, Copy, Debug)]
pub struct Sha256(pub [u8; 32]);

/// A byte slice did not have the length of a digest.
#[derive(Clone, Copy, Debug, PartialEq, Eq, Structural)]
pub struct IncorrectLength;

impl View for Sha256 {
    type V = Seq<u8>;

    open spec fn view(&self) -> Seq<u8> {
        self.0@
    }
}

impl Sha256 {
    /// Reads a digest from a slice of exactly 32 bytes.
    pub fn try_from(value: &[u8]) -> (r: Result<Sha256, IncorrectLength>)
        ensures
            value@.len() == 32 <==> r is Ok,
            r matches Ok(h) ==> h@ == value@,
    {
        if value.len() == 32 {
            let mut array = [0u8; 32];
            let mut i: usize = 0;
            while i < 32
                invariant
                    value@.len() == 32,
                    i <= 32,
                    forall|j: int| 0 <= j < i ==> array@[j] == value@[j],
                decreases 32 - i,
            {
                array[i] = value[i];
                i += 1;
            }
            proof {
                assert(array@ =~= value@);
            }
            Ok(Sha256(array))
        } else {
            Err(IncorrectLength)
        }
    }
}

impl PartialEq for Sha256 {
    fn eq(&self, other: &Sha256) -> (r: bool) {
        let mut i: usize = 0;
        while i < 32
            invariant
                i <= 32,
                forall|j: int| 0 <= j < i ==> self.0@[j] == other.0@[j],
            decreases 32 - i,
        {
            if self.0[i] != other.0[i] {
                return false;
            }
            i += 1;
        }
        proof {
            assert(self.0@ =~= other.0@);
        }
        true
    }
}

impl vstd::std_specs::cmp::PartialEqSpecImpl for Sha256 {
    open spec fn obeys_eq_spec() -> bool {
        true
    }

    open spec fn eq_spec(&self, other: &Sha256) -> bool {
        self@ == other@
    }
}

impl Eq for Sha256 {}

/// The address of a smart contract instance on chain.
#[derive(Clone, Copy, Debug, PartialEq, Eq, Structural)]
pub struct ContractAddress {
    pub index: u64,
    pub subindex: u64,
}

/// The identity of an indexed event: block height, transaction hash and the
/// position of the event in the transaction's event log.
#[derive(Clone, Copy, Debug)]
pub struct EventKey {
    pub block_height: u64,
    pub transaction_hash: Sha256,
    pub event_index: u64,
}

/// Mathematical form of an [`EventKey`].
pub struct KeyView {
    pub height: u64,
    pub tx: Seq<u8>,
    pub index: u64,
}

impl View for EventKey {
    type V = KeyView;

    open spec fn view(&self) -> KeyView {
        KeyView { height: self.block_height, tx: self.transaction_hash@, index: self.event_index }
    }
}

impl PartialEq for EventKey {
    fn eq(&self, other: &EventKey) -> (r: bool) {
        self.block_height == other.block_height && self.event_index == other.event_index
            && self.transaction_hash == other.transaction_hash
    }
}

impl vstd::std_specs::cmp::PartialEqSpecImpl for EventKey {
    open spec fn obeys_eq_spec() -> bool {
        true
    }

    open spec fn eq_spec(&self, other: &EventKey) -> bool {
        self@ == other@
    }
}

impl Eq for EventKey {}

/// The checkpoint order: by block height, then by event index.
pub open spec fn position_le(a: KeyView, b: KeyView) -> bool {
    a.height < b.height || (a.height == b.height && a.index <= b.index)
}

} // verus!
