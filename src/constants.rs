//! Record types, classes and header flag bits (RFC 1035, sections 3.2 and 4.1.1).
#![allow(non_camel_case_types)]
#![allow(clippy::upper_case_acronyms)]

use vstd::prelude::*;

verus! {

/// A record type (RFC 1035, section 3.2.2).
#[derive(Clone, Copy, Debug, PartialEq, Eq, Structural)]
pub enum Type {
    A,
    NS,
    CNAME,
    SOA,
    HINFO,
    MX,
    TXT,
    AAAA,
    ALL_RECORDS,
}

/// A record class (RFC 1035, section 3.2.4).
#[derive(Clone, Copy, Debug, PartialEq, Eq, Structural)]
pub enum Class {
    IN,
}

/// The header flag bits that this library models.
#[derive(Clone, Copy, Debug, PartialEq, Eq, Structural)]
pub enum Flags {
    RECURSION_DESIRED,
    MESSAGE_RESPONSE,
}

/// The 16-bit code of a record type.
pub open spec fn type_code(t: Type) -> u16 {
    match t {
        Type::A => 1,
        Type::NS => 2,
        Type::CNAME => 5,
        Type::SOA => 6,
        Type::HINFO => 13,
        Type::MX => 15,
        Type::TXT => 16,
        Type::AAAA => 28,
        Type::ALL_RECORDS => 255,
    }
}

/// The record type with a given code, if the code is known.
pub open spec fn type_of_code(v: u16) -> Option<Type> {
    if v == 1 {
        Some(Type::A)
    } else if v == 2 {
        Some(Type::NS)
    } else if v == 5 {
        Some(Type::CNAME)
    } else if v == 6 {
        Some(Type::SOA)
    } else if v == 13 {
        Some(Type::HINFO)
    } else if v == 15 {
        Some(Type::MX)
    } else if v == 16 {
        Some(Type::TXT)
    } else if v == 28 {
        Some(Type::AAAA)
    } else if v == 255 {
        Some(Type::ALL_RECORDS)
    } else {
        None
    }
}

/// The 16-bit code of a record class.
pub open spec fn class_code(c: Class) -> u16 {
    match c {
        Class::IN => 1,
    }
}

/// The record class with a given code, if the code is known.
pub open spec fn class_of_code(v: u16) -> Option<Class> {
    if v == 1 {
        Some(Class::IN)
    } else {
        None
    }
}

/// The bit of the header's flags field that a flag occupies.
pub open spec fn flag_bits(f: Flags) -> u16 {
    match f {
        Flags::RECURSION_DESIRED => 0x0100,
        Flags::MESSAGE_RESPONSE => 0x8000,
    }
}

/// A code names the type that it is the code of.
pub proof fn lemma_type_code_round_trip(t: Type)
    ensures
        type_of_code(type_code(t)) == Some(t),
{
}

/// A class code names the class that it is the code of.
pub proof fn lemma_class_code_round_trip(c: Class)
    ensures
        class_of_code(class_code(c)) == Some(c),
{
}

impl Type {
    /// The type's 16-bit code.
    pub fn code(&self) -> (r: u16)
        ensures
            r == type_code(*self),
    {
        match self {
            Type::A => 1,
            Type::NS => 2,
            Type::CNAME => 5,
            Type::SOA => 6,
            Type::HINFO => 13,
            Type::MX => 15,
            Type::TXT => 16,
            Type::AAAA => 28,
            Type::ALL_RECORDS => 255,
        }
    }

    /// The type with code `v`, or `None` for a code that names no known type.
    pub fn from_code(v: u16) -> (r: Option<Type>)
        ensures
            r == type_of_code(v),
    {
        if v == 1 {
            Some(Type::A)
        } else if v == 2 {
            Some(Type::NS)
        } else if v == 5 {
            Some(Type::CNAME)
        } else if v == 6 {
            Some(Type::SOA)
        } else if v == 13 {
            Some(Type::HINFO)
        } else if v == 15 {
            Some(Type::MX)
        } else if v == 16 {
            Some(Type::TXT)
        } else if v == 28 {
            Some(Type::AAAA)
        } else if v == 255 {
            Some(Type::ALL_RECORDS)
        } else {
            None
        }
    }
}

impl Class {
    /// The class's 16-bit code.
    pub fn code(&self) -> (r: u16)
        ensures
            r == class_code(*self),
    {
        match self {
            Class::IN => 1,
        }
    }

    /// The class with code `v`, or `None` for a code that names no known class.
    pub fn from_code(v: u16) -> (r: Option<Class>)
        ensures
            r == class_of_code(v),
    {
        if v == 1 {
            Some(Class::IN)
        } else {
            None
        }
    }
}

impl Flags {
    /// The flag's bit in the header's flags field.
    pub fn bits(&self) -> (r: u16)
        ensures
            r == flag_bits(*self),
    {
        match self {
            Flags::RECURSION_DESIRED => 0x0100,
            Flags::MESSAGE_RESPONSE => 0x8000,
        }
    }
}

} // verus!
