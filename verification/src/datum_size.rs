//! The size classes of data.
use vstd::prelude::*;

verus! {

/// The largest size class.
pub const LARGEST_CLASS: u8 = 10;

/// The size class of a datum. A sized table keeps data of one class in slots of equal length;
/// a datum that is too long for any class goes to an oversize table.
#[derive(Clone, Copy, Debug, PartialEq, Eq, Structural)]
pub enum DatumSize {
    Size(u8),
    Oversize,
}

/// The length of a slot of a size class: 32 bytes, doubled from each class to the next.
pub open spec fn slot_bytes(class: nat) -> int
    decreases class,
{
    if class == 0 {
        32
    } else {
        2 * slot_bytes((class - 1) as nat)
    }
}

pub proof fn lemma_slot_bytes()
    ensures
        forall|class: nat|
            class <= LARGEST_CLASS ==> 32 <= #[trigger] slot_bytes(class) <= 32768,
        slot_bytes(LARGEST_CLASS as nat) == 32768,
{
    reveal_with_fuel(slot_bytes, 11);
    assert forall|class: nat| class <= LARGEST_CLASS implies 32 <= #[trigger] slot_bytes(class)
        <= 32768 by {
        reveal_with_fuel(slot_bytes, 11);
    }
}

impl DatumSize {
    /// Whether this is the class of data of a length: the smallest whose slots are long enough.
    pub open spec fn suits(self, len: nat) -> bool {
        match self {
            DatumSize::Size(class) => {
                &&& class <= LARGEST_CLASS
                &&& len <= slot_bytes(class as nat)
                &&& class > 0 ==> len > slot_bytes((class - 1) as nat)
            },
            DatumSize::Oversize => len > slot_bytes(LARGEST_CLASS as nat),
        }
    }

    /// The bytes that a slot takes, which for an oversize table is not fixed.
    pub open spec fn spec_size(self) -> int {
        match self {
            DatumSize::Size(class) => slot_bytes(class as nat),
            DatumSize::Oversize => 0,
        }
    }

    /// The class of data of a length.
    pub fn nearest(len: usize) -> (r: DatumSize)
        ensures
            r.suits(len as nat),
    {
        proof {
            lemma_slot_bytes();
        }
        let mut class: u8 = 0;
        let mut bytes: usize = 32;
        while bytes < len
            invariant
                class <= LARGEST_CLASS,
                bytes == slot_bytes(class as nat),
                class > 0 ==> len > slot_bytes((class - 1) as nat),
            decreases LARGEST_CLASS - class,
        {
            proof {
                lemma_slot_bytes();
            }
            if class == LARGEST_CLASS {
                return DatumSize::Oversize;
            }
            class = class + 1;
            bytes = bytes * 2;
        }
        DatumSize::Size(class)
    }

    /// The bytes that a slot takes, or 0 where that is not fixed.
    pub fn size(self) -> (r: usize)
        requires
            self matches DatumSize::Size(class) ==> class <= LARGEST_CLASS,
        ensures
            r == self.spec_size(),
            r <= 32768,
    {
        match self {
            DatumSize::Oversize => 0,
            DatumSize::Size(class) => {
                proof {
                    lemma_slot_bytes();
                }
                let mut c: u8 = 0;
                let mut bytes: usize = 32;
                while c < class
                    invariant
                        c <= class <= LARGEST_CLASS,
                        bytes == slot_bytes(c as nat),
                    decreases class - c,
                {
                    proof {
                        lemma_slot_bytes();
                        assert(slot_bytes((c + 1) as nat) <= 32768);
                    }
                    c = c + 1;
                    bytes = bytes * 2;
                }
                bytes
            },
        }
    }
}

/// A length has one class.
pub proof fn lemma_class_unique(a: DatumSize, b: DatumSize, len: nat)
    requires
        a.suits(len),
        b.suits(len),
    ensures
        a == b,
{
    lemma_slot_bytes();
    if let DatumSize::Size(i) = a {
        if let DatumSize::Size(j) = b {
            if i < j {
                lemma_slot_bytes_grow(i as nat, (j - 1) as nat);
            } else if j < i {
                lemma_slot_bytes_grow(j as nat, (i - 1) as nat);
            }
        } else {
            lemma_slot_bytes_grow(i as nat, LARGEST_CLASS as nat);
        }
    } else if let DatumSize::Size(j) = b {
        lemma_slot_bytes_grow(j as nat, LARGEST_CLASS as nat);
    }
}

proof fn lemma_slot_bytes_grow(a: nat, b: nat)
    requires
        a <= b,
    ensures
        0 < slot_bytes(a) <= slot_bytes(b),
    decreases b,
{
    if a < b {
        lemma_slot_bytes_grow(a, (b - 1) as nat);
    } else if b > 0 {
        lemma_slot_bytes_grow((a - 1) as nat, (b - 1) as nat);
    }
}

} // verus!
