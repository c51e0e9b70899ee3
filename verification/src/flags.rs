use vstd::prelude::*;

verus! {

/// Bit of the `Static` flag.
pub const BIT_STATIC: u16 = 0x1;

/// Bit of the `Compressed` flag.
pub const BIT_COMPRESSED: u16 = 0x2;

/// Bit of the `RO` (read-only) flag.
pub const BIT_RO: u16 = 0x4;

/// Bit of the `Preserve` flag.
pub const BIT_PRESERVE: u16 = 0x8;

/// All the bits that name a flag.
pub const KNOWN_BITS: u16 = 0xf;

/// Property flags of one area of a flash map: a set over
/// `Static`, `Compressed`, `RO` and `Preserve`.
///
/// The view of a value is its bit pattern. A value never holds a bit outside
/// [`KNOWN_BITS`]: the field is private and every constructor keeps it so.
///
/// A constant cannot have a struct type here, so the four flags are
/// functions: `FMapFlags::Static()`, and so on.
#[derive(Clone, Copy, Debug, Default, PartialEq, Eq, Hash, Structural)]
pub struct FMapFlags {
    bits: u16,
}

impl View for FMapFlags {
    type V = u16;

    closed spec fn view(&self) -> u16 {
        self.bits
    }
}

impl FMapFlags {
    #[verifier::type_invariant]
    spec fn only_known_bits(self) -> bool {
        self.bits & !KNOWN_BITS == 0
    }

    /// The set with no flag.
    pub fn empty() -> (r: FMapFlags)
        ensures
            r@ == 0,
    {
        assert(0u16 & !0xfu16 == 0) by (bit_vector);
        FMapFlags { bits: 0 }
    }

    /// The set that holds `Static` alone.
    #[allow(non_snake_case)]
    pub fn Static() -> (r: FMapFlags)
        ensures
            r@ == BIT_STATIC,
    {
        assert(0x1u16 & !0xfu16 == 0) by (bit_vector);
        FMapFlags { bits: BIT_STATIC }
    }

    /// The set that holds `Compressed` alone.
    #[allow(non_snake_case)]
    pub fn Compressed() -> (r: FMapFlags)
        ensures
            r@ == BIT_COMPRESSED,
    {
        assert(0x2u16 & !0xfu16 == 0) by (bit_vector);
        FMapFlags { bits: BIT_COMPRESSED }
    }

    /// The set that holds `RO` alone.
    #[allow(non_snake_case)]
    pub fn RO() -> (r: FMapFlags)
        ensures
            r@ == BIT_RO,
    {
        assert(0x4u16 & !0xfu16 == 0) by (bit_vector);
        FMapFlags { bits: BIT_RO }
    }

    /// The set that holds `Preserve` alone.
    #[allow(non_snake_case)]
    pub fn Preserve() -> (r: FMapFlags)
        ensures
            r@ == BIT_PRESERVE,
    {
        assert(0x8u16 & !0xfu16 == 0) by (bit_vector);
        FMapFlags { bits: BIT_PRESERVE }
    }

    /// The bit pattern. No bit outside [`KNOWN_BITS`] is ever set.
    pub fn bits(&self) -> (r: u16)
        ensures
            r == self@,
            r & !KNOWN_BITS == 0,
    {
        proof {
            use_type_invariant(self);
        }
        self.bits
    }

    /// The set with exactly these bits, if each of them names a flag.
    pub fn from_bits(bits: u16) -> (r: Option<FMapFlags>)
        ensures
            r is Some <==> bits & !KNOWN_BITS == 0,
            r matches Some(f) ==> f@ == bits,
    {
        if bits & !KNOWN_BITS == 0 {
            Some(FMapFlags { bits })
        } else {
            None
        }
    }

    /// The set of the flags whose bits are set in `bits`; bits that name no
    /// flag are dropped.
    pub fn from_bits_truncate(bits: u16) -> (r: FMapFlags)
        ensures
            r@ == bits & KNOWN_BITS,
    {
        assert((bits & 0xfu16) & !0xfu16 == 0) by (bit_vector);
        FMapFlags { bits: bits & KNOWN_BITS }
    }

    /// Whether no flag is set.
    pub fn is_empty(&self) -> (r: bool)
        ensures
            r <==> self@ == 0,
    {
        self.bits == 0
    }

    /// Whether every flag of `other` is set in `self`.
    pub fn contains(&self, other: FMapFlags) -> (r: bool)
        ensures
            r <==> self@ & other@ == other@,
    {
        self.bits & other.bits == other.bits
    }

    /// The flags set in `self` or in `other`.
    pub fn union(self, other: FMapFlags) -> (r: FMapFlags)
        ensures
            r@ == self@ | other@,
            r == self.spec_union(other),
    {
        proof {
            use_type_invariant(&self);
            use_type_invariant(&other);
        }
        let a: u16 = self.bits;
        let b: u16 = other.bits;
        assert((a | b) & !0xfu16 == 0) by (bit_vector)
            requires
                a & !0xfu16 == 0,
                b & !0xfu16 == 0,
        ;
        FMapFlags { bits: a | b }
    }

    /// What `|` means in contracts.
    pub closed spec fn spec_union(self, other: FMapFlags) -> FMapFlags {
        FMapFlags { bits: self.bits | other.bits }
    }

    /// The union has the bits of both sets and no other.
    pub proof fn lemma_union_bits(self, other: FMapFlags)
        ensures
            self.spec_union(other)@ == self@ | other@,
    {
    }
}

impl core::ops::BitOr for FMapFlags {
    type Output = FMapFlags;

    fn bitor(self, rhs: FMapFlags) -> (r: FMapFlags) {
        self.union(rhs)
    }
}

impl vstd::std_specs::ops::BitOrSpecImpl for FMapFlags {
    open spec fn obeys_bitor_spec() -> bool {
        true
    }

    open spec fn bitor_req(self, rhs: FMapFlags) -> bool {
        true
    }

    open spec fn bitor_spec(self, rhs: FMapFlags) -> FMapFlags {
        self.spec_union(rhs)
    }
}

} // verus!
