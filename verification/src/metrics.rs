//! Bounded metric labels of the data plane: every label is an enum, so the
//! number of label sets is fixed whatever the query traffic.
use crate::wire::header::RCode;
use crate::wire::question::QType;
use vstd::prelude::*;

verus! {

/// Labels of the query counter and latency histogram.
#[derive(Debug, Clone, Copy, Hash, PartialEq, Eq, Structural)]
pub struct QueryLabels {
    pub proto: Proto,
    pub qtype: QTypeLabel,
    pub rcode: RcodeLabel,
}

/// Transport a query came in on.
#[derive(Debug, Clone, Copy, Hash, PartialEq, Eq, Structural)]
pub enum Proto {
    Udp,
    Tcp,
}

/// A bounded QType label: the common types, everything else `Other`.
#[derive(Debug, Clone, Copy, Hash, PartialEq, Eq, Structural)]
pub enum QTypeLabel {
    A,
    Aaaa,
    Ns,
    Cname,
    Soa,
    Ptr,
    Mx,
    Txt,
    Srv,
    Caa,
    Axfr,
    Ixfr,
    Any,
    Other,
}

/// The label of a TYPE value.
pub open spec fn qtype_label(t: u16) -> QTypeLabel {
    if t == 1 {
        QTypeLabel::A
    } else if t == 2 {
        QTypeLabel::Ns
    } else if t == 5 {
        QTypeLabel::Cname
    } else if t == 6 {
        QTypeLabel::Soa
    } else if t == 12 {
        QTypeLabel::Ptr
    } else if t == 15 {
        QTypeLabel::Mx
    } else if t == 16 {
        QTypeLabel::Txt
    } else if t == 28 {
        QTypeLabel::Aaaa
    } else if t == 33 {
        QTypeLabel::Srv
    } else if t == 251 {
        QTypeLabel::Ixfr
    } else if t == 252 {
        QTypeLabel::Axfr
    } else if t == 255 {
        QTypeLabel::Any
    } else if t == 257 {
        QTypeLabel::Caa
    } else {
        QTypeLabel::Other
    }
}

impl QTypeLabel {
    /// The label of a wire QTYPE.
    pub fn from_wire(t: QType) -> (r: Self)
        ensures
            r == qtype_label(t.0),
    {
        match t.0 {
            1 => QTypeLabel::A,
            2 => QTypeLabel::Ns,
            5 => QTypeLabel::Cname,
            6 => QTypeLabel::Soa,
            12 => QTypeLabel::Ptr,
            15 => QTypeLabel::Mx,
            16 => QTypeLabel::Txt,
            28 => QTypeLabel::Aaaa,
            33 => QTypeLabel::Srv,
            251 => QTypeLabel::Ixfr,
            252 => QTypeLabel::Axfr,
            255 => QTypeLabel::Any,
            257 => QTypeLabel::Caa,
            _ => QTypeLabel::Other,
        }
    }

    /// The label value as exposed.
    pub fn as_str(&self) -> (r: &'static str)
        ensures
            r@ == qtype_label_text(*self),
    {
        match self {
            QTypeLabel::A => "A",
            QTypeLabel::Aaaa => "AAAA",
            QTypeLabel::Ns => "NS",
            QTypeLabel::Cname => "CNAME",
            QTypeLabel::Soa => "SOA",
            QTypeLabel::Ptr => "PTR",
            QTypeLabel::Mx => "MX",
            QTypeLabel::Txt => "TXT",
            QTypeLabel::Srv => "SRV",
            QTypeLabel::Caa => "CAA",
            QTypeLabel::Axfr => "AXFR",
            QTypeLabel::Ixfr => "IXFR",
            QTypeLabel::Any => "ANY",
            QTypeLabel::Other => "other",
        }
    }
}

pub open spec fn qtype_label_text(l: QTypeLabel) -> Seq<char> {
    match l {
        QTypeLabel::A => "A"@,
        QTypeLabel::Aaaa => "AAAA"@,
        QTypeLabel::Ns => "NS"@,
        QTypeLabel::Cname => "CNAME"@,
        QTypeLabel::Soa => "SOA"@,
        QTypeLabel::Ptr => "PTR"@,
        QTypeLabel::Mx => "MX"@,
        QTypeLabel::Txt => "TXT"@,
        QTypeLabel::Srv => "SRV"@,
        QTypeLabel::Caa => "CAA"@,
        QTypeLabel::Axfr => "AXFR"@,
        QTypeLabel::Ixfr => "IXFR"@,
        QTypeLabel::Any => "ANY"@,
        QTypeLabel::Other => "other"@,
    }
}

/// A bounded RCODE label.
#[derive(Debug, Clone, Copy, Hash, PartialEq, Eq, Structural)]
pub enum RcodeLabel {
    NoError,
    FormErr,
    ServFail,
    NxDomain,
    NotImp,
    Refused,
    Other,
}

/// The label of a response code.
pub open spec fn rcode_label(r: RCode) -> RcodeLabel {
    match r {
        RCode::NoError => RcodeLabel::NoError,
        RCode::FormErr => RcodeLabel::FormErr,
        RCode::ServFail => RcodeLabel::ServFail,
        RCode::NxDomain => RcodeLabel::NxDomain,
        RCode::NotImp => RcodeLabel::NotImp,
        RCode::Refused => RcodeLabel::Refused,
        _ => RcodeLabel::Other,
    }
}

impl RcodeLabel {
    /// The label of a response code.
    pub fn from_rcode(r: RCode) -> (l: Self)
        ensures
            l == rcode_label(r),
    {
        match r {
            RCode::NoError => RcodeLabel::NoError,
            RCode::FormErr => RcodeLabel::FormErr,
            RCode::ServFail => RcodeLabel::ServFail,
            RCode::NxDomain => RcodeLabel::NxDomain,
            RCode::NotImp => RcodeLabel::NotImp,
            RCode::Refused => RcodeLabel::Refused,
            _ => RcodeLabel::Other,
        }
    }

    /// The label value as exposed.
    pub fn as_str(&self) -> (r: &'static str)
        ensures
            r@ == rcode_label_text(*self),
    {
        match self {
            RcodeLabel::NoError => "NOERROR",
            RcodeLabel::FormErr => "FORMERR",
            RcodeLabel::ServFail => "SERVFAIL",
            RcodeLabel::NxDomain => "NXDOMAIN",
            RcodeLabel::NotImp => "NOTIMP",
            RcodeLabel::Refused => "REFUSED",
            RcodeLabel::Other => "OTHER",
        }
    }
}

pub open spec fn rcode_label_text(l: RcodeLabel) -> Seq<char> {
    match l {
        RcodeLabel::NoError => "NOERROR"@,
        RcodeLabel::FormErr => "FORMERR"@,
        RcodeLabel::ServFail => "SERVFAIL"@,
        RcodeLabel::NxDomain => "NXDOMAIN"@,
        RcodeLabel::NotImp => "NOTIMP"@,
        RcodeLabel::Refused => "REFUSED"@,
        RcodeLabel::Other => "OTHER"@,
    }
}

impl Proto {
    /// The label value as exposed.
    pub fn as_str(&self) -> (r: &'static str)
        ensures
            r@ == (match self {
                Proto::Udp => "udp"@,
                Proto::Tcp => "tcp"@,
            }),
    {
        match self {
            Proto::Udp => "udp",
            Proto::Tcp => "tcp",
        }
    }
}

/// Labels of the drop counter.
#[derive(Debug, Clone, Copy, Hash, PartialEq, Eq, Structural)]
pub struct DropLabels {
    pub reason: DropReason,
}

/// Why a request was dropped before a response.
#[derive(Debug, Clone, Copy, Hash, PartialEq, Eq, Structural)]
pub enum DropReason {
    Malformed,
    RateLimited,
    Policy,
    Overload,
    TsigFail,
    AclDeny,
}

impl DropReason {
    /// The label value as exposed.
    pub fn as_str(&self) -> (r: &'static str)
        ensures
            r@ == (match self {
                DropReason::Malformed => "malformed"@,
                DropReason::RateLimited => "rate_limited"@,
                DropReason::Policy => "policy"@,
                DropReason::Overload => "overload"@,
                DropReason::TsigFail => "tsig_fail"@,
                DropReason::AclDeny => "acl_deny"@,
            }),
    {
        match self {
            DropReason::Malformed => "malformed",
            DropReason::RateLimited => "rate_limited",
            DropReason::Policy => "policy",
            DropReason::Overload => "overload",
            DropReason::TsigFail => "tsig_fail",
            DropReason::AclDeny => "acl_deny",
        }
    }
}

/// Build-info labels.
pub struct BuildInfoLabels {
    pub version: String,
    pub commit: String,
    pub rustc: String,
    pub target: String,
}

} // verus!
