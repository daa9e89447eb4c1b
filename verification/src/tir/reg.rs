use vstd::prelude::*;

verus! {

/// Register class: integer, floating point or vector, with the width of
/// the value in bytes. The width must be a power of two.
#[derive(Clone, Copy, PartialEq, Eq, Structural, Debug)]
pub enum RegClass {
    Int(u8),
    Float(u8),
    Vec(u8),
}

/// Storage class of a register: an unbounded virtual id, a target machine
/// register, or a stack spill slot.
#[derive(Clone, Copy, PartialEq, Eq, Structural, Debug)]
pub enum RegType {
    Virtual,
    Physical,
    Spill,
}

pub const VIRT_BIT: u32 = 0x8000_0000;

pub const SPILL_BIT: u32 = 0x4000_0000;

pub const REG_CLASS_INT_BIT: u32 = 0x2000_0000;

pub const REG_CLASS_FLOAT_BIT: u32 = 0x1000_0000;

pub const REG_CLASS_SIZE_BITS: u32 = 4;

pub const REG_CLASS_SIZE_OFFSET: u32 = 28 - REG_CLASS_SIZE_BITS;

pub const REG_CLASS_MASK: u32 = 0x0F00_0000;

pub const ID_MASK: u32 = 0x00FF_FFFF;

/// The width carried by a register class.
pub open spec fn class_size(cls: RegClass) -> u8 {
    match cls {
        RegClass::Int(s) => s,
        RegClass::Float(s) => s,
        RegClass::Vec(s) => s,
    }
}

/// Whether the width of `cls` is one of the supported powers of two.
pub open spec fn class_size_valid(cls: RegClass) -> bool {
    let s = class_size(cls);
    s == 1 || s == 2 || s == 4 || s == 8 || s == 16 || s == 32 || s == 64 || s == 128
}

/// The base-two logarithm of a supported width.
pub open spec fn size_log2(s: u8) -> u32 {
    if s == 1 {
        0
    } else if s == 2 {
        1
    } else if s == 4 {
        2
    } else if s == 8 {
        3
    } else if s == 16 {
        4
    } else if s == 32 {
        5
    } else if s == 64 {
        6
    } else {
        7
    }
}

/// A register identifier packed into one 32-bit word: storage class,
/// register class with width, and a dense numeric id.
///
/// The packing round-trips exactly: what `new` is given, the three
/// accessors return.
#[derive(Clone, Copy, Debug, PartialEq, Eq, Structural, Hash)]
pub struct Reg {
    repr: u32,
}

impl Reg {
    /// The packed word.
    pub closed spec fn repr_spec(self) -> u32 {
        self.repr
    }

    /// The stored width exponent stays in range, which `new` guarantees.
    pub open spec fn wf(self) -> bool {
        (self.repr_spec() & REG_CLASS_MASK) >> REG_CLASS_SIZE_OFFSET < 8
    }

    /// The storage class encoded in the packed word.
    pub open spec fn type_spec(self) -> RegType {
        if self.repr_spec() & VIRT_BIT != 0 {
            RegType::Virtual
        } else if self.repr_spec() & SPILL_BIT != 0 {
            RegType::Spill
        } else {
            RegType::Physical
        }
    }

    /// The width exponent encoded in the packed word.
    pub open spec fn size_exp_spec(self) -> u32 {
        (self.repr_spec() & REG_CLASS_MASK) >> REG_CLASS_SIZE_OFFSET
    }

    /// The register class encoded in the packed word.
    pub open spec fn class_spec(self) -> RegClass {
        let s = (1u8 << self.size_exp_spec()) as u8;
        if self.repr_spec() & REG_CLASS_INT_BIT != 0 {
            RegClass::Int(s)
        } else if self.repr_spec() & REG_CLASS_FLOAT_BIT != 0 {
            RegClass::Float(s)
        } else {
            RegClass::Vec(s)
        }
    }

    /// The numeric id encoded in the packed word.
    pub open spec fn id_spec(self) -> u32 {
        self.repr_spec() & ID_MASK
    }

    /// Packs storage class, register class and id into one word.
    pub fn new(typ: RegType, cls: RegClass, id: u32) -> (r: Self)
        requires
            class_size_valid(cls),
            id <= ID_MASK,
        ensures
            r.wf(),
            r.type_spec() == typ,
            r.class_spec() == cls,
            r.id_spec() == id,
    {
        let r = Reg {
            repr: id | Self::get_size_mask(cls) | Self::get_class_mask(cls) | Self::get_type_mask(
                typ,
            ),
        };
        proof {
            let k: u32 = size_log2(class_size(cls));
            let cbit: u32 = if cls is Int {
                REG_CLASS_INT_BIT
            } else if cls is Float {
                REG_CLASS_FLOAT_BIT
            } else {
                0
            };
            let tbit: u32 = if typ is Virtual {
                VIRT_BIT
            } else if typ is Spill {
                SPILL_BIT
            } else {
                0
            };
            let w = r.repr;
            assert(w == id | (k << 24) | cbit | tbit);
            assert({
                &&& (w & 0x0F00_0000u32) >> 24 == k
                &&& w & 0x00FF_FFFFu32 == id
                &&& (w & 0x8000_0000u32 != 0) == (tbit == 0x8000_0000u32)
                &&& (w & 0x4000_0000u32 != 0) == (tbit == 0x4000_0000u32)
                &&& (w & 0x2000_0000u32 != 0) == (cbit == 0x2000_0000u32)
                &&& (w & 0x1000_0000u32 != 0) == (cbit == 0x1000_0000u32)
            }) by (bit_vector)
                requires
                    w == id | (k << 24) | cbit | tbit,
                    id <= 0x00FF_FFFFu32,
                    k < 8,
                    cbit == 0x2000_0000u32 || cbit == 0x1000_0000u32 || cbit == 0,
                    tbit == 0x8000_0000u32 || tbit == 0x4000_0000u32 || tbit == 0,
            ;
            assert(1u8 << 0 == 1 && 1u8 << 1 == 2 && 1u8 << 2 == 4 && 1u8 << 3 == 8 && 1u8 << 4
                == 16 && 1u8 << 5 == 32 && 1u8 << 6 == 64 && 1u8 << 7 == 128) by (bit_vector);
        }
        r
    }

    /// The storage class of this register.
    pub fn get_type(self) -> (r: RegType)
        ensures
            r == self.type_spec(),
    {
        if self.repr & VIRT_BIT != 0 {
            RegType::Virtual
        } else if self.repr & SPILL_BIT != 0 {
            RegType::Spill
        } else {
            RegType::Physical
        }
    }

    /// The register class of this register, width included.
    pub fn get_class(self) -> (r: RegClass)
        requires
            self.wf(),
        ensures
            r == self.class_spec(),
    {
        let e = self.reg_class_size();
        assert(e < 8);
        let size = 1u8 << (e as u32);
        if self.repr & REG_CLASS_INT_BIT != 0 {
            RegClass::Int(size)
        } else if self.repr & REG_CLASS_FLOAT_BIT != 0 {
            RegClass::Float(size)
        } else {
            RegClass::Vec(size)
        }
    }

    /// The numeric id of this register.
    pub fn get_id(self) -> (r: u32)
        ensures
            r == self.id_spec(),
    {
        self.repr & ID_MASK
    }

    fn reg_class_size(self) -> (r: u8)
        ensures
            r == self.size_exp_spec(),
            r < 16,
    {
        let w = self.repr;
        proof {
            assert((w & 0x0F00_0000u32) >> 24 < 16) by (bit_vector);
        }
        ((self.repr & REG_CLASS_MASK) >> REG_CLASS_SIZE_OFFSET) as u8
    }

    fn get_size_mask(class: RegClass) -> (r: u32)
        requires
            class_size_valid(class),
        ensures
            r == size_log2(class_size(class)) << 24,
    {
        let sz = match class {
            RegClass::Int(s) => s,
            RegClass::Float(s) => s,
            RegClass::Vec(s) => s,
        };
        let lg: u32 = match sz {
            1 => 0,
            2 => 1,
            4 => 2,
            8 => 3,
            16 => 4,
            32 => 5,
            64 => 6,
            _ => 7,
        };
        lg << REG_CLASS_SIZE_OFFSET
    }

    fn get_class_mask(class: RegClass) -> (r: u32)
        ensures
            class is Int ==> r == REG_CLASS_INT_BIT,
            class is Float ==> r == REG_CLASS_FLOAT_BIT,
            class is Vec ==> r == 0,
    {
        match class {
            RegClass::Int(_) => REG_CLASS_INT_BIT,
            RegClass::Float(_) => REG_CLASS_FLOAT_BIT,
            RegClass::Vec(_) => 0,
        }
    }

    fn get_type_mask(typ: RegType) -> (r: u32)
        ensures
            typ is Virtual ==> r == VIRT_BIT,
            typ is Spill ==> r == SPILL_BIT,
            typ is Physical ==> r == 0,
    {
        match typ {
            RegType::Virtual => VIRT_BIT,
            RegType::Physical => 0,
            RegType::Spill => SPILL_BIT,
        }
    }
}

} // verus!
