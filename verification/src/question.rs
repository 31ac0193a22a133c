//! Questions: what a query asks for.

use crate::errors::decoded_at;
use crate::rdata::name_text;
use crate::rr::{u16_at, RRType};
use crate::text::{decimal, decimal_string, join_all, str_eq};
use crate::utils::{byte_combine, extract_name, name_spec};
use vstd::prelude::*;
use vstd::std_specs::convert::FromSpecImpl;
use vstd::std_specs::convert::TryFromSpecImpl;

verus! {

/// The type that a question asks for: a record type, or one of the types
/// that only a query can name.
#[derive(Debug, Clone, Copy, PartialEq, Eq, Structural)]
pub enum QType {
    RRType(RRType),
    /// 252: a request for a transfer of an entire zone
    AXFR,
    /// 253: a request for mailbox-related records
    MAILB,
    /// 254: a request for mail agent records (obsolete)
    MAILA,
    /// 255: a request for all records
    ANY,
}

/// A code or a token that names no question type.
#[derive(Debug, Clone, Copy, PartialEq, Eq, Structural)]
pub struct ParseError;

impl ParseError {
    /// The text by which the failure is reported.
    pub open spec fn text(self) -> Seq<char> {
        "invalid qtype"@
    }

    /// The text by which the failure is reported.
    pub fn description(&self) -> (s: &'static str)
        ensures
            s@ == self.text(),
    {
        "invalid qtype"
    }

    /// Renders the value as text.
    pub fn to_string(&self) -> (s: String)
        ensures
            s@ == self.text(),
    {
        "invalid qtype".to_owned()
    }
}

/// The upper-case form of a text, as `str::to_uppercase` defines it over
/// all of Unicode.
pub uninterp spec fn uppercase(text: Seq<char>) -> Seq<char>;

/// `str::to_uppercase`. Nothing is claimed of the upper-case form but that it
/// depends on the text alone.
#[verifier::external_body]
fn to_uppercase(text: &str) -> (upper: String)
    ensures
        upper@ == uppercase(text@),
{
    text.to_uppercase()
}

impl QType {
    /// The code of the type on the wire.
    pub open spec fn code(self) -> u16 {
        match self {
            QType::RRType(rrtype) => rrtype.code(),
            QType::AXFR => 252,
            QType::MAILB => 253,
            QType::MAILA => 254,
            QType::ANY => 255,
        }
    }

    /// The question type that a code stands for, if any: a known record
    /// type, or one of the four query-only types.
    pub open spec fn of_code(code: u16) -> Option<QType> {
        if RRType::known(code) {
            Some(QType::RRType(RRType::of_code(code)))
        } else if code == 252 {
            Some(QType::AXFR)
        } else if code == 253 {
            Some(QType::MAILB)
        } else if code == 254 {
            Some(QType::MAILA)
        } else if code == 255 {
            Some(QType::ANY)
        } else {
            None
        }
    }

    /// The query-only type that a token in upper case names, if any.
    pub open spec fn of_upper(token: Seq<char>) -> Option<QType> {
        if token == "AXFR"@ {
            Some(QType::AXFR)
        } else if token == "MAILB"@ {
            Some(QType::MAILB)
        } else if token == "MAILA"@ {
            Some(QType::MAILA)
        } else if token == "ANY"@ {
            Some(QType::ANY)
        } else {
            None
        }
    }

    /// The question type that a token names, if any: a record type by its
    /// name in upper case, or a query-only type by its name in any case.
    pub open spec fn of_token(token: Seq<char>) -> Option<QType> {
        match RRType::of_token(token) {
            Some(rrtype) => Some(QType::RRType(rrtype)),
            None => QType::of_upper(uppercase(token)),
        }
    }

    /// How the type is shown.
    pub open spec fn text(self) -> Seq<char> {
        match self {
            QType::RRType(rrtype) => rrtype.text(),
            QType::AXFR => "AXFR"@,
            QType::MAILB => "MAILB"@,
            QType::MAILA => "MAILA"@,
            QType::ANY => "ANY"@,
        }
    }

    /// The query-only type that a token in upper case names.
    pub fn from_upper(token: &str) -> (r: Option<QType>)
        ensures
            r == QType::of_upper(token@),
    {
        if str_eq(token, "AXFR") {
            Some(QType::AXFR)
        } else if str_eq(token, "MAILB") {
            Some(QType::MAILB)
        } else if str_eq(token, "MAILA") {
            Some(QType::MAILA)
        } else if str_eq(token, "ANY") {
            Some(QType::ANY)
        } else {
            None
        }
    }

    /// Renders the value as text.
    pub fn to_string(&self) -> (s: String)
        ensures
            s@ == self.text(),
    {
        match self {
            QType::RRType(rrtype) => rrtype.to_string(),
            QType::AXFR => "AXFR".to_owned(),
            QType::MAILB => "MAILB".to_owned(),
            QType::MAILA => "MAILA".to_owned(),
            QType::ANY => "ANY".to_owned(),
        }
    }
}

impl From<QType> for u16 {
    fn from(original: QType) -> (r: u16) {
        match original {
            QType::RRType(rrtype) => u16::from(rrtype),
            QType::AXFR => 252,
            QType::MAILB => 253,
            QType::MAILA => 254,
            QType::ANY => 255,
        }
    }
}

impl FromSpecImpl<QType> for u16 {
    open spec fn obeys_from_spec() -> bool {
        true
    }

    open spec fn from_spec(original: QType) -> u16 {
        original.code()
    }
}

impl TryFrom<String> for QType {
    type Error = ParseError;

    fn try_from(original: String) -> (r: Result<Self, Self::Error>) {
        match RRType::from_token(original.as_str()) {
            Some(rrtype) => Ok(QType::RRType(rrtype)),
            None => {
                let upper = to_uppercase(original.as_str());
                match QType::from_upper(upper.as_str()) {
                    Some(qtype) => Ok(qtype),
                    None => Err(ParseError),
                }
            },
        }
    }
}

impl TryFromSpecImpl<String> for QType {
    open spec fn obeys_try_from_spec() -> bool {
        true
    }

    open spec fn try_from_spec(original: String) -> Result<Self, Self::Error> {
        match QType::of_token(original@) {
            Some(qtype) => Ok(qtype),
            None => Err(ParseError),
        }
    }
}

impl TryFrom<u16> for QType {
    type Error = ParseError;

    fn try_from(original: u16) -> (r: Result<Self, Self::Error>) {
        match original {
            1..=251 => match RRType::try_from(original) {
                Ok(rrtype) => Ok(QType::RRType(rrtype)),
                Err(_) => Err(ParseError),
            },
            252 => Ok(QType::AXFR),
            253 => Ok(QType::MAILB),
            254 => Ok(QType::MAILA),
            255 => Ok(QType::ANY),
            _ => Err(ParseError),
        }
    }
}

impl TryFromSpecImpl<u16> for QType {
    open spec fn obeys_try_from_spec() -> bool {
        true
    }

    open spec fn try_from_spec(original: u16) -> Result<Self, Self::Error> {
        match QType::of_code(original) {
            Some(qtype) => Ok(qtype),
            None => Err(ParseError),
        }
    }
}

/// A question, as a value.
pub struct QuestionView {
    pub qname: Seq<Seq<char>>,
    pub qtype: QType,
    pub qclass: u16,
}

impl QuestionView {
    /// How the question is shown.
    pub open spec fn text(self) -> Seq<char> {
        name_text(self.qname) + "\tQTYPE: "@ + self.qtype.text() + "; CLASS: "@ + decimal(
            self.qclass as nat,
        )
    }
}

/// One entry of the question section. The name is given by its labels; the
/// root, which ends every name, may stand as an empty last label or be left
/// out, and is written once either way. A decoded name holds no empty label.
#[derive(Debug, PartialEq, Eq)]
pub struct Question {
    pub qname: Vec<String>,
    pub qtype: QType,
    pub qclass: u16,
}

impl View for Question {
    type V = QuestionView;

    open spec fn view(&self) -> QuestionView {
        QuestionView { qname: self.qname.deep_view(), qtype: self.qtype, qclass: self.qclass }
    }
}

/// The question that starts at `offset`, and the offset of what follows it:
/// the name, the type, which must be a question type, and the class.
pub open spec fn question_spec(buf: Seq<u8>, offset: int) -> Result<
    (QuestionView, int),
    crate::errors::ParseError,
> {
    match name_spec(buf, offset) {
        Err(e) => Err(e),
        Ok((qname, fixed)) => if fixed + 2 > buf.len() {
            Err(crate::errors::ParseError::OutOfRange)
        } else {
            match QType::of_code(u16_at(buf, fixed)) {
                None => Err(crate::errors::ParseError::InvalidQType),
                Some(qtype) => if fixed + 4 > buf.len() {
                    Err(crate::errors::ParseError::OutOfRange)
                } else {
                    Ok((QuestionView { qname, qtype, qclass: u16_at(buf, fixed + 2) }, fixed + 4))
                },
            }
        },
    }
}

impl Question {
    /// Decodes the question that starts at `offset`.
    pub fn from_wire(wire: &[u8], offset: usize) -> (r: Result<
        (Question, usize),
        crate::errors::ParseError,
    >)
        ensures
            decoded_at(r, question_spec(wire@, offset as int)),
            r matches Ok((_, next)) ==> offset < next <= wire.len(),
    {
        let (qname, fixed) = match extract_name(wire, offset) {
            Ok(found) => found,
            Err(e) => {
                return Err(e);
            },
        };
        let n: usize = wire.len();
        if n - fixed < 2 {
            return Err(crate::errors::ParseError::OutOfRange);
        }
        let qtype = match QType::try_from(byte_combine(wire[fixed], wire[fixed + 1])) {
            Ok(qtype) => qtype,
            Err(_) => {
                return Err(crate::errors::ParseError::InvalidQType);
            },
        };
        if n - fixed < 4 {
            return Err(crate::errors::ParseError::OutOfRange);
        }
        let qclass = byte_combine(wire[fixed + 2], wire[fixed + 3]);
        Ok((Question { qname, qtype, qclass }, fixed + 4))
    }

    /// A question from its parts.
    pub fn new(qname: Vec<String>, qtype: QType, qclass: u16) -> (q: Question)
        ensures
            q.qname == qname,
            q.qtype == qtype,
            q.qclass == qclass,
    {
        Question { qname, qtype, qclass }
    }

    /// Renders the value as text.
    pub fn to_string(&self) -> (s: String)
        ensures
            s@ == self@.text(),
    {
        let mut s = join_all(&self.qname, ".");
        s.append("\tQTYPE: ");
        s.append(self.qtype.to_string().as_str());
        s.append("; CLASS: ");
        s.append(decimal_string(self.qclass as u32).as_str());
        s
    }
}

} // verus!
