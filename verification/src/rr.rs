//! Resource records: type and class codes, and the record envelope.

use crate::errors::{decoded_at, ParseError};
use crate::rdata::{name_text, rdata_spec, u32_at, RData, RDataView};
use crate::text::{decimal, decimal_string, join_all, str_eq};
use crate::utils::{be16, byte_combine, extract_name, name_spec, read_u32};
use vstd::prelude::*;
use vstd::std_specs::convert::FromSpecImpl;
use vstd::std_specs::convert::TryFromSpecImpl;

verus! {

/// The type of a resource record. Codes that name no type of the base
/// protocol are kept as they are, in `UNKNOWN`.
#[derive(Debug, Clone, Copy, PartialEq, Eq, Structural)]
pub enum RRType {
    /// 1: a host address
    A,
    /// 2: an authoritative name server
    NS,
    /// 3: a mail destination (obsolete)
    MD,
    /// 4: a mail forwarder (obsolete)
    MF,
    /// 5: the canonical name for an alias
    CNAME,
    /// 6: marks the start of a zone of authority
    SOA,
    /// 7: a mailbox domain name (experimental)
    MB,
    /// 8: a mail group member (experimental)
    MG,
    /// 9: a mail rename domain name (experimental)
    MR,
    /// 10: a null record (experimental)
    NULL,
    /// 11: a well known service description
    WKS,
    /// 12: a domain name pointer
    PTR,
    /// 13: host information
    HINFO,
    /// 14: mailbox or mail list information
    MINFO,
    /// 15: mail exchange
    MX,
    /// 16: text strings
    TXT,
    /// 28: an IPv6 host address
    AAAA,
    /// any other code
    UNKNOWN(u16),
}

impl RRType {
    /// The code of the type on the wire.
    pub open spec fn code(self) -> u16 {
        match self {
            RRType::A => 1,
            RRType::NS => 2,
            RRType::MD => 3,
            RRType::MF => 4,
            RRType::CNAME => 5,
            RRType::SOA => 6,
            RRType::MB => 7,
            RRType::MG => 8,
            RRType::MR => 9,
            RRType::NULL => 10,
            RRType::WKS => 11,
            RRType::PTR => 12,
            RRType::HINFO => 13,
            RRType::MINFO => 14,
            RRType::MX => 15,
            RRType::TXT => 16,
            RRType::AAAA => 28,
            RRType::UNKNOWN(c) => c,
        }
    }

    /// The codes that name a type.
    pub open spec fn known(code: u16) -> bool {
        1 <= code <= 16 || code == 28
    }

    /// The type that a code stands for; `UNKNOWN` where it names none.
    pub open spec fn of_code(code: u16) -> RRType {
        if code == 1 {
            RRType::A
        } else if code == 2 {
            RRType::NS
        } else if code == 3 {
            RRType::MD
        } else if code == 4 {
            RRType::MF
        } else if code == 5 {
            RRType::CNAME
        } else if code == 6 {
            RRType::SOA
        } else if code == 7 {
            RRType::MB
        } else if code == 8 {
            RRType::MG
        } else if code == 9 {
            RRType::MR
        } else if code == 10 {
            RRType::NULL
        } else if code == 11 {
            RRType::WKS
        } else if code == 12 {
            RRType::PTR
        } else if code == 13 {
            RRType::HINFO
        } else if code == 14 {
            RRType::MINFO
        } else if code == 15 {
            RRType::MX
        } else if code == 16 {
            RRType::TXT
        } else if code == 28 {
            RRType::AAAA
        } else {
            RRType::UNKNOWN(code)
        }
    }

    /// The type that a token names, if any. Tokens are upper case.
    pub open spec fn of_token(token: Seq<char>) -> Option<RRType> {
        if token == "A"@ {
            Some(RRType::A)
        } else if token == "NS"@ {
            Some(RRType::NS)
        } else if token == "MD"@ {
            Some(RRType::MD)
        } else if token == "MF"@ {
            Some(RRType::MF)
        } else if token == "CNAME"@ {
            Some(RRType::CNAME)
        } else if token == "SOA"@ {
            Some(RRType::SOA)
        } else if token == "MB"@ {
            Some(RRType::MB)
        } else if token == "MG"@ {
            Some(RRType::MG)
        } else if token == "MR"@ {
            Some(RRType::MR)
        } else if token == "NULL"@ {
            Some(RRType::NULL)
        } else if token == "WKS"@ {
            Some(RRType::WKS)
        } else if token == "PTR"@ {
            Some(RRType::PTR)
        } else if token == "HINFO"@ {
            Some(RRType::HINFO)
        } else if token == "MINFO"@ {
            Some(RRType::MINFO)
        } else if token == "MX"@ {
            Some(RRType::MX)
        } else if token == "TXT"@ {
            Some(RRType::TXT)
        } else if token == "AAAA"@ {
            Some(RRType::AAAA)
        } else {
            None
        }
    }

    /// An `UNKNOWN` holds no code that names a type.
    pub open spec fn wf(self) -> bool {
        self matches RRType::UNKNOWN(c) ==> !RRType::known(c)
    }

    /// How the type is shown: its name, or the number of an unknown code.
    pub open spec fn text(self) -> Seq<char> {
        match self {
            RRType::A => "A"@,
            RRType::NS => "NS"@,
            RRType::MD => "MD"@,
            RRType::MF => "MF"@,
            RRType::CNAME => "CNAME"@,
            RRType::SOA => "SOA"@,
            RRType::MB => "MB"@,
            RRType::MG => "MG"@,
            RRType::MR => "MR"@,
            RRType::NULL => "NULL"@,
            RRType::WKS => "WKS"@,
            RRType::PTR => "PTR"@,
            RRType::HINFO => "HINFO"@,
            RRType::MINFO => "MINFO"@,
            RRType::MX => "MX"@,
            RRType::TXT => "TXT"@,
            RRType::AAAA => "AAAA"@,
            RRType::UNKNOWN(c) => decimal(c as nat),
        }
    }

    /// Decodes a type code; no code is refused.
    pub fn from_code(code: u16) -> (t: RRType)
        ensures
            t == RRType::of_code(code),
            t.wf(),
            t.code() == code,
    {
        match code {
            1 => RRType::A,
            2 => RRType::NS,
            3 => RRType::MD,
            4 => RRType::MF,
            5 => RRType::CNAME,
            6 => RRType::SOA,
            7 => RRType::MB,
            8 => RRType::MG,
            9 => RRType::MR,
            10 => RRType::NULL,
            11 => RRType::WKS,
            12 => RRType::PTR,
            13 => RRType::HINFO,
            14 => RRType::MINFO,
            15 => RRType::MX,
            16 => RRType::TXT,
            28 => RRType::AAAA,
            _ => RRType::UNKNOWN(code),
        }
    }

    /// The type that a token names, if any. Tokens are upper case.
    pub fn from_token(token: &str) -> (r: Option<RRType>)
        ensures
            r == RRType::of_token(token@),
    {
        if str_eq(token, "A") {
            Some(RRType::A)
        } else if str_eq(token, "NS") {
            Some(RRType::NS)
        } else if str_eq(token, "MD") {
            Some(RRType::MD)
        } else if str_eq(token, "MF") {
            Some(RRType::MF)
        } else if str_eq(token, "CNAME") {
            Some(RRType::CNAME)
        } else if str_eq(token, "SOA") {
            Some(RRType::SOA)
        } else if str_eq(token, "MB") {
            Some(RRType::MB)
        } else if str_eq(token, "MG") {
            Some(RRType::MG)
        } else if str_eq(token, "MR") {
            Some(RRType::MR)
        } else if str_eq(token, "NULL") {
            Some(RRType::NULL)
        } else if str_eq(token, "WKS") {
            Some(RRType::WKS)
        } else if str_eq(token, "PTR") {
            Some(RRType::PTR)
        } else if str_eq(token, "HINFO") {
            Some(RRType::HINFO)
        } else if str_eq(token, "MINFO") {
            Some(RRType::MINFO)
        } else if str_eq(token, "MX") {
            Some(RRType::MX)
        } else if str_eq(token, "TXT") {
            Some(RRType::TXT)
        } else if str_eq(token, "AAAA") {
            Some(RRType::AAAA)
        } else {
            None
        }
    }

    /// Renders the value as text.
    pub fn to_string(&self) -> (s: String)
        ensures
            s@ == self.text(),
    {
        match self {
            RRType::A => "A".to_owned(),
            RRType::NS => "NS".to_owned(),
            RRType::MD => "MD".to_owned(),
            RRType::MF => "MF".to_owned(),
            RRType::CNAME => "CNAME".to_owned(),
            RRType::SOA => "SOA".to_owned(),
            RRType::MB => "MB".to_owned(),
            RRType::MG => "MG".to_owned(),
            RRType::MR => "MR".to_owned(),
            RRType::NULL => "NULL".to_owned(),
            RRType::WKS => "WKS".to_owned(),
            RRType::PTR => "PTR".to_owned(),
            RRType::HINFO => "HINFO".to_owned(),
            RRType::MINFO => "MINFO".to_owned(),
            RRType::MX => "MX".to_owned(),
            RRType::TXT => "TXT".to_owned(),
            RRType::AAAA => "AAAA".to_owned(),
            RRType::UNKNOWN(c) => decimal_string(*c as u32),
        }
    }
}

impl TryFrom<u16> for RRType {
    type Error = ParseError;

    /// Decodes the code of a known type.
    fn try_from(original: u16) -> (r: Result<Self, Self::Error>) {
        if (1 <= original && original <= 16) || original == 28 {
            Ok(RRType::from_code(original))
        } else {
            Err(ParseError::InvalidRRType)
        }
    }
}

impl TryFromSpecImpl<u16> for RRType {
    open spec fn obeys_try_from_spec() -> bool {
        true
    }

    open spec fn try_from_spec(original: u16) -> Result<Self, Self::Error> {
        if RRType::known(original) {
            Ok(RRType::of_code(original))
        } else {
            Err(ParseError::InvalidRRType)
        }
    }
}

impl From<RRType> for u16 {
    fn from(original: RRType) -> (r: u16) {
        match original {
            RRType::A => 1,
            RRType::NS => 2,
            RRType::MD => 3,
            RRType::MF => 4,
            RRType::CNAME => 5,
            RRType::SOA => 6,
            RRType::MB => 7,
            RRType::MG => 8,
            RRType::MR => 9,
            RRType::NULL => 10,
            RRType::WKS => 11,
            RRType::PTR => 12,
            RRType::HINFO => 13,
            RRType::MINFO => 14,
            RRType::MX => 15,
            RRType::TXT => 16,
            RRType::AAAA => 28,
            RRType::UNKNOWN(c) => c,
        }
    }
}

impl FromSpecImpl<RRType> for u16 {
    open spec fn obeys_from_spec() -> bool {
        true
    }

    open spec fn from_spec(original: RRType) -> u16 {
        original.code()
    }
}

impl TryFrom<String> for RRType {
    type Error = ParseError;

    /// Reads the name of a type, in upper case.
    fn try_from(original: String) -> (r: Result<Self, Self::Error>) {
        match RRType::from_token(original.as_str()) {
            Some(t) => Ok(t),
            None => Err(ParseError::InvalidRRType),
        }
    }
}

impl TryFromSpecImpl<String> for RRType {
    open spec fn obeys_try_from_spec() -> bool {
        true
    }

    open spec fn try_from_spec(original: String) -> Result<Self, Self::Error> {
        match RRType::of_token(original@) {
            Some(t) => Ok(t),
            None => Err(ParseError::InvalidRRType),
        }
    }
}

/// The class of a resource record.
#[derive(Debug, Clone, Copy, PartialEq, Eq, Structural)]
pub enum Class {
    /// 1: the Internet
    IN,
    /// 2: CSNET
    CS,
    /// 3: CHAOS
    CH,
    /// 4: Hesiod
    HS,
}

impl Class {
    /// The code of the class on the wire.
    pub open spec fn code(self) -> u16 {
        match self {
            Class::IN => 1,
            Class::CS => 2,
            Class::CH => 3,
            Class::HS => 4,
        }
    }

    /// The class that a code stands for, if any.
    pub open spec fn of_code(code: u16) -> Option<Class> {
        if code == 1 {
            Some(Class::IN)
        } else if code == 2 {
            Some(Class::CS)
        } else if code == 3 {
            Some(Class::CH)
        } else if code == 4 {
            Some(Class::HS)
        } else {
            None
        }
    }

    /// How the class is shown: its name.
    pub open spec fn text(self) -> Seq<char> {
        match self {
            Class::IN => "IN"@,
            Class::CS => "CS"@,
            Class::CH => "CH"@,
            Class::HS => "HS"@,
        }
    }

    /// Renders the value as text.
    pub fn to_string(&self) -> (s: String)
        ensures
            s@ == self.text(),
    {
        match self {
            Class::IN => "IN".to_owned(),
            Class::CS => "CS".to_owned(),
            Class::CH => "CH".to_owned(),
            Class::HS => "HS".to_owned(),
        }
    }
}

impl TryFrom<u16> for Class {
    type Error = ParseError;

    fn try_from(original: u16) -> (r: Result<Self, Self::Error>) {
        match original {
            1 => Ok(Class::IN),
            2 => Ok(Class::CS),
            3 => Ok(Class::CH),
            4 => Ok(Class::HS),
            _ => Err(ParseError::InvalidClass),
        }
    }
}

impl TryFromSpecImpl<u16> for Class {
    open spec fn obeys_try_from_spec() -> bool {
        true
    }

    open spec fn try_from_spec(original: u16) -> Result<Self, Self::Error> {
        match Class::of_code(original) {
            Some(class) => Ok(class),
            None => Err(ParseError::InvalidClass),
        }
    }
}

/// The time to live: the big-endian 32-bit field that starts at `offset`.
pub fn extract_ttl(bytes: &[u8], offset: usize) -> (ttl: u32)
    requires
        offset + 4 <= bytes.len(),
    ensures
        ttl == u32_at(bytes@, offset as int),
{
    read_u32(bytes, offset)
}

/// A resource record, as a value.
pub struct RRView {
    pub name: Seq<Seq<char>>,
    pub rrtype: RRType,
    pub class: Class,
    pub ttl: u32,
    pub rdlength: u16,
    pub rdata: RDataView,
}

impl RRView {
    /// How the record is shown: the envelope on one line, the payload on
    /// the next.
    pub open spec fn text(self) -> Seq<char> {
        name_text(self.name) + "\t"@ + self.rrtype.text() + "\t"@ + self.class.text() + "\tTTL: "@
            + decimal(self.ttl as nat) + ", RDLEN: "@ + decimal(self.rdlength as nat) + "\n"@
            + self.rdata.text()
    }
}

/// One entry of the answer, authority or additional section.
#[derive(Debug, PartialEq, Eq)]
pub struct RR {
    name: Vec<String>,
    rrtype: RRType,
    class: Class,
    ttl: u32,
    rdlength: u16,
    rdata_parsed: RData,
}

impl View for RR {
    type V = RRView;

    closed spec fn view(&self) -> RRView {
        RRView {
            name: self.name.deep_view(),
            rrtype: self.rrtype,
            class: self.class,
            ttl: self.ttl,
            rdlength: self.rdlength,
            rdata: self.rdata_parsed@,
        }
    }
}

/// The 16-bit field at `offset`.
pub open spec fn u16_at(buf: Seq<u8>, offset: int) -> u16 {
    be16(buf[offset], buf[offset + 1]) as u16
}

/// The record that starts at `offset`, and the offset of what follows it:
/// the name, then type and class, the time to live, the length of the
/// payload, and the payload itself, which must lie inside the message.
pub open spec fn rr_spec(buf: Seq<u8>, offset: int) -> Result<(RRView, int), ParseError> {
    match name_spec(buf, offset) {
        Err(e) => Err(e),
        Ok((name, fixed)) => if fixed + 4 > buf.len() {
            Err(ParseError::OutOfRange)
        } else {
            match Class::of_code(u16_at(buf, fixed + 2)) {
                None => Err(ParseError::InvalidClass),
                Some(class) => if fixed + 10 + u16_at(buf, fixed + 8) > buf.len() {
                    Err(ParseError::OutOfRange)
                } else {
                    match rdata_spec(
                        RRType::of_code(u16_at(buf, fixed)),
                        buf,
                        fixed + 10,
                        u16_at(buf, fixed + 8) as int,
                    ) {
                        Err(e) => Err(e),
                        Ok(rdata) => Ok(
                            (
                                RRView {
                                    name,
                                    rrtype: RRType::of_code(u16_at(buf, fixed)),
                                    class,
                                    ttl: u32_at(buf, fixed + 4),
                                    rdlength: u16_at(buf, fixed + 8),
                                    rdata,
                                },
                                fixed + 10 + u16_at(buf, fixed + 8),
                            ),
                        ),
                    }
                },
            }
        },
    }
}

impl RR {
    /// The labels of the owner name.
    pub fn name(&self) -> (name: &Vec<String>)
        ensures
            name.deep_view() == self@.name,
    {
        &self.name
    }

    /// The type of the record.
    pub fn rrtype(&self) -> (rrtype: RRType)
        ensures
            rrtype == self@.rrtype,
    {
        self.rrtype
    }

    /// The class of the record.
    pub fn class(&self) -> (class: Class)
        ensures
            class == self@.class,
    {
        self.class
    }

    /// The time to live, in seconds.
    pub fn ttl(&self) -> (ttl: u32)
        ensures
            ttl == self@.ttl,
    {
        self.ttl
    }

    /// The length of the payload on the wire.
    pub fn rdlength(&self) -> (rdlength: u16)
        ensures
            rdlength == self@.rdlength,
    {
        self.rdlength
    }

    /// The decoded payload.
    pub fn rdata(&self) -> (rdata: &RData)
        ensures
            rdata@ == self@.rdata,
    {
        &self.rdata_parsed
    }

    /// Decodes the record that starts at `offset`.
    pub fn from_wire(buf: &[u8], offset: usize) -> (r: Result<(RR, usize), ParseError>)
        ensures
            decoded_at(r, rr_spec(buf@, offset as int)),
            r matches Ok((_, next)) ==> offset < next <= buf.len(),
    {
        let (name, fixed) = match extract_name(buf, offset) {
            Ok(found) => found,
            Err(e) => {
                return Err(e);
            },
        };
        let n: usize = buf.len();
        if n - fixed < 4 {
            return Err(ParseError::OutOfRange);
        }
        let rrtype = RRType::from_code(byte_combine(buf[fixed], buf[fixed + 1]));
        let class = match Class::try_from(byte_combine(buf[fixed + 2], buf[fixed + 3])) {
            Ok(class) => class,
            Err(e) => {
                return Err(e);
            },
        };
        if n - fixed < 10 {
            return Err(ParseError::OutOfRange);
        }
        let ttl = extract_ttl(buf, fixed + 4);
        let rdlength: u16 = byte_combine(buf[fixed + 8], buf[fixed + 9]);
        let data: usize = fixed + 10;
        if n - data < rdlength as usize {
            return Err(ParseError::OutOfRange);
        }
        let rdata_parsed = match RData::from_wire(rrtype, buf, data, rdlength as usize) {
            Ok(rdata) => rdata,
            Err(e) => {
                return Err(e);
            },
        };
        let rr = RR { name, rrtype, class, ttl, rdlength, rdata_parsed };
        Ok((rr, data + rdlength as usize))
    }

    /// Renders the value as text.
    pub fn to_string(&self) -> (s: String)
        ensures
            s@ == self@.text(),
    {
        let mut s = join_all(&self.name, ".");
        s.append("\t");
        s.append(self.rrtype.to_string().as_str());
        s.append("\t");
        s.append(self.class.to_string().as_str());
        s.append("\tTTL: ");
        s.append(decimal_string(self.ttl).as_str());
        s.append(", RDLEN: ");
        s.append(decimal_string(self.rdlength as u32).as_str());
        s.append("\n");
        s.append(self.rdata_parsed.to_string().as_str());
        s
    }
}

} // verus!
