use crate::question::{
    QTYPE_A, QTYPE_CNAME, QTYPE_HINFO, QTYPE_MB, QTYPE_MD, QTYPE_MF, QTYPE_MG, QTYPE_MINFO,
    QTYPE_MR, QTYPE_MX, QTYPE_NS, QTYPE_NULL, QTYPE_PTR, QTYPE_SOA, QTYPE_TXT, QTYPE_WKS,
};
use vstd::prelude::*;

verus! {

/// Type code of an IPv6 address record.
pub const QTYPE_AAAA: u16 = 28;

/// Query types that stand for sets of record types.
pub const AXFR: u16 = 252;
pub const MAILB: u16 = 253;
pub const MAILA: u16 = 254;
pub const ANY: u16 = 255;

/// A record's data, by record type.
#[allow(non_camel_case_types)]
#[derive(Debug, Copy, Clone)]
pub enum Record {
    A([u8; 4]),
    AAAA([u8; 16]),
    NS,
    MD,
    MF,
    CNAME,
    SOA,
    MB,
    MG,
    MR,
    NULL,
    WKS,
    PTR,
    HINFO,
    MINFO,
    MX,
    TXT,
}

/// The outcome of a lookup that may not be able to answer.
#[derive(Debug)]
pub enum Maybe<T> {
    /// No matching value.
    NoneSuch,
    /// Cannot answer.
    Unknown,
    /// Correct response.
    Have(T),
}

/// The type code of each kind of record.
pub open spec fn type_code(r: Record) -> u16 {
    match r {
        Record::A(_) => QTYPE_A,
        Record::AAAA(_) => QTYPE_AAAA,
        Record::NS => QTYPE_NS,
        Record::MD => QTYPE_MD,
        Record::MF => QTYPE_MF,
        Record::CNAME => QTYPE_CNAME,
        Record::SOA => QTYPE_SOA,
        Record::MB => QTYPE_MB,
        Record::MG => QTYPE_MG,
        Record::MR => QTYPE_MR,
        Record::NULL => QTYPE_NULL,
        Record::WKS => QTYPE_WKS,
        Record::PTR => QTYPE_PTR,
        Record::HINFO => QTYPE_HINFO,
        Record::MINFO => QTYPE_MINFO,
        Record::MX => QTYPE_MX,
        Record::TXT => QTYPE_TXT,
    }
}

/// Whether a query of type `qtype` asks for record `r`: ANY asks for every
/// record, MAILB for MG, MF and MR records, MAILA for MX records, AXFR for
/// none held here, and any other type for records of that type.
pub open spec fn answers(r: Record, qtype: u16) -> bool {
    if qtype == MAILB {
        r is MG || r is MF || r is MR
    } else if qtype == MAILA {
        r is MX
    } else if qtype == ANY {
        true
    } else {
        qtype == type_code(r)
    }
}

/// Whether a query of type `qtype` asks for records of type code `code`,
/// as `answers` says of records.
pub open spec fn code_answers(code: u16, qtype: u16) -> bool {
    if qtype == MAILB {
        code == QTYPE_MG || code == QTYPE_MF || code == QTYPE_MR
    } else if qtype == MAILA {
        code == QTYPE_MX
    } else if qtype == ANY {
        true
    } else if qtype == AXFR {
        false
    } else {
        code == qtype
    }
}

/// Whether a query of type `qtype` asks for records of type code `code`.
pub fn code_matches(code: u16, qtype: u16) -> (r: bool)
    ensures
        r == code_answers(code, qtype),
{
    if qtype == MAILB {
        code == QTYPE_MG || code == QTYPE_MF || code == QTYPE_MR
    } else if qtype == MAILA {
        code == QTYPE_MX
    } else if qtype == ANY {
        true
    } else if qtype == AXFR {
        false
    } else {
        code == qtype
    }
}

impl Record {
    pub fn rtype(&self) -> (r: u16)
        ensures
            r == type_code(*self),
    {
        match self {
            Record::A(_) => QTYPE_A,
            Record::AAAA(_) => QTYPE_AAAA,
            Record::NS => QTYPE_NS,
            Record::MD => QTYPE_MD,
            Record::MF => QTYPE_MF,
            Record::CNAME => QTYPE_CNAME,
            Record::SOA => QTYPE_SOA,
            Record::MB => QTYPE_MB,
            Record::MG => QTYPE_MG,
            Record::MR => QTYPE_MR,
            Record::NULL => QTYPE_NULL,
            Record::WKS => QTYPE_WKS,
            Record::PTR => QTYPE_PTR,
            Record::HINFO => QTYPE_HINFO,
            Record::MINFO => QTYPE_MINFO,
            Record::MX => QTYPE_MX,
            Record::TXT => QTYPE_TXT,
        }
    }

    pub fn matches_qtype(&self, qtype: u16) -> (r: bool)
        ensures
            r == answers(*self, qtype),
    {
        if qtype == MAILB {
            match self {
                Record::MG | Record::MF | Record::MR => true,
                _ => false,
            }
        } else if qtype == MAILA {
            match self {
                Record::MX => true,
                _ => false,
            }
        } else if qtype == ANY {
            true
        } else {
            qtype == self.rtype()
        }
    }
}

} // verus!
