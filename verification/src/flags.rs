//! Board identifiers and the variant bit flags.
use vstd::prelude::*;

verus! {

/// The kind of a board: its number of sides and its variant bits.
#[derive(Debug, Clone, Copy, PartialEq, Eq, PartialOrd, Ord, Structural)]
pub struct PcbId {
    pub n_gon: usize,
    pub variant: usize,
}

/// The `nth_ngon`-th board of kind `pcb_id`.
#[derive(Debug, Clone, Copy, PartialEq, Eq, Structural)]
pub struct VarId {
    pub nth_ngon: usize,
    pub pcb_id: PcbId,
}

/// Planned variants; each is one bit of a variant number.
///
/// Not all variants exist physically for all ngons.
#[derive(Debug, Clone, Copy, PartialEq, Eq, Structural)]
pub enum VarFlags {
    Cut,
    HalfLeds,
    Controller,
    Power,
}

/// All variant flags, in order of their bits.
pub struct AllVarFlags(pub [VarFlags; 4]);

impl VarFlags {
    /// The bit of this flag.
    pub open spec fn bit(self) -> usize {
        match self {
            VarFlags::Cut => 1,
            VarFlags::HalfLeds => 2,
            VarFlags::Controller => 4,
            VarFlags::Power => 8,
        }
    }

    /// Get the binary representation
    pub fn b0(self) -> (r: usize)
        ensures
            r == self.bit(),
    {
        match self {
            VarFlags::Cut => 1,
            VarFlags::HalfLeds => 2,
            VarFlags::Controller => 4,
            VarFlags::Power => 8,
        }
    }

    /// Remove this option
    pub fn rm(self, var: &mut usize)
        ensures
            *final(var) == *old(var) & !self.bit(),
    {
        *var = *var & !self.b0();
    }

    /// The flag is set in `var`.
    pub open spec fn is_set(self, var: usize) -> bool {
        self.bit() & var != 0
    }

    /// check if this bit is set
    pub fn has(self, var: usize) -> (r: bool)
        ensures
            r == self.is_set(var),
    {
        self.b0() & var != 0
    }

    /// Add this option
    pub fn add(self, var: &mut usize)
        ensures
            *final(var) == *old(var) | self.bit(),
    {
        *var = *var | self.b0();
    }

    /// Toggle this option
    pub fn switch(self, var: &mut usize)
        ensures
            *final(var) == *old(var) ^ self.bit(),
    {
        *var = *var ^ self.b0();
    }
}

/// The bits of flags, one bit each.
pub open spec fn one_bit(b: usize) -> bool {
    b == 1 || b == 2 || b == 4 || b == 8
}

proof fn bv_add(v: usize, a: usize, b: usize)
    by (bit_vector)
    requires
        one_bit(a),
        one_bit(b),
    ensures
        a & (v | a) != 0,
        a != b ==> ((b & (v | a) != 0) == (b & v != 0)),
{
}

proof fn bv_rm(v: usize, a: usize, b: usize)
    by (bit_vector)
    requires
        one_bit(a),
        one_bit(b),
    ensures
        a & (v & !a) == 0,
        a != b ==> ((b & (v & !a) != 0) == (b & v != 0)),
{
}

proof fn bv_switch(v: usize, a: usize, b: usize)
    by (bit_vector)
    requires
        one_bit(a),
        one_bit(b),
    ensures
        (v ^ a) ^ a == v,
        (a & (v ^ a) != 0) == (a & v == 0),
        a != b ==> ((b & (v ^ a) != 0) == (b & v != 0)),
{
}

/// Each flag is one bit of its own.
pub proof fn lemma_bits_distinct(f: VarFlags, g: VarFlags)
    ensures
        one_bit(f.bit()),
        f != g ==> f.bit() != g.bit(),
{
}

/// Adding a flag sets it and leaves every other flag as it was.
pub proof fn lemma_add_sets(f: VarFlags, g: VarFlags, v: usize)
    ensures
        f.is_set(v | f.bit()),
        g != f ==> g.is_set(v | f.bit()) == g.is_set(v),
{
    lemma_bits_distinct(f, g);
    lemma_bits_distinct(g, f);
    bv_add(v, f.bit(), g.bit());
}

/// Removing a flag clears it and leaves every other flag as it was.
pub proof fn lemma_rm_clears(f: VarFlags, g: VarFlags, v: usize)
    ensures
        !f.is_set(v & !f.bit()),
        g != f ==> g.is_set(v & !f.bit()) == g.is_set(v),
{
    lemma_bits_distinct(f, g);
    lemma_bits_distinct(g, f);
    bv_rm(v, f.bit(), g.bit());
}

/// Toggling a flag flips it, leaves every other flag as it was, and toggling
/// it twice gives the variant back.
pub proof fn lemma_switch_flips(f: VarFlags, g: VarFlags, v: usize)
    ensures
        f.is_set(v ^ f.bit()) == !f.is_set(v),
        g != f ==> g.is_set(v ^ f.bit()) == g.is_set(v),
        (v ^ f.bit()) ^ f.bit() == v,
{
    lemma_bits_distinct(f, g);
    lemma_bits_distinct(g, f);
    bv_switch(v, f.bit(), g.bit());
}

/// All variant flags, in order of their bits.
pub fn var_flags() -> (r: AllVarFlags)
    ensures
        r.0@ == seq![VarFlags::Cut, VarFlags::HalfLeds, VarFlags::Controller, VarFlags::Power],
{
    AllVarFlags([VarFlags::Cut, VarFlags::HalfLeds, VarFlags::Controller, VarFlags::Power])
}

} // verus!
