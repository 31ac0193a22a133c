//! Messages: the header, its bit fields, and the four sections.

use crate::errors::{decoded, ParseError};
use crate::question::{question_spec, QType, Question, QuestionView};
use crate::rr::{rr_spec, u16_at, RRView, RR};
use crate::text::{decimal, decimal_string, join, join_all, join_strings, str_eq};
use crate::compression::{
    encode_labels, encode_name, label_wire, lemma_fresh_name_is_plain, plain_name, without_root,
    writable_name, Encoder,
};
use crate::utils::{u16_wire, views};
use byteorder::{BigEndian, ReadBytesExt};
use vstd::prelude::*;
use vstd::std_specs::convert::FromSpecImpl;
use vstd::utf8::encode_utf8;

verus! {

/// The largest message handled: what fits a classic UDP datagram.
pub const DNS_MSG_MAX: usize = 512;

/// The response code of a message. The codes 6 to 15 are reserved, and
/// kept as they are.
#[derive(Debug, Clone, Copy, PartialEq, Eq, Structural)]
pub enum RCode {
    NoError,
    FormatError,
    ServFail,
    NameError,
    NotImp,
    Refused,
    Reserved(u16),
}

impl RCode {
    /// The code on the wire.
    pub open spec fn code(self) -> u16 {
        match self {
            RCode::NoError => 0,
            RCode::FormatError => 1,
            RCode::ServFail => 2,
            RCode::NameError => 3,
            RCode::NotImp => 4,
            RCode::Refused => 5,
            RCode::Reserved(code) => code,
        }
    }

    /// The response code that a number stands for.
    pub open spec fn of_code(code: u16) -> RCode {
        if code == 0 {
            RCode::NoError
        } else if code == 1 {
            RCode::FormatError
        } else if code == 2 {
            RCode::ServFail
        } else if code == 3 {
            RCode::NameError
        } else if code == 4 {
            RCode::NotImp
        } else if code == 5 {
            RCode::Refused
        } else {
            RCode::Reserved(code)
        }
    }

    /// A reserved code is one of 6 to 15.
    pub open spec fn wf(self) -> bool {
        self matches RCode::Reserved(code) ==> 6 <= code <= 15
    }

    /// How the code is shown: its name.
    pub open spec fn text(self) -> Seq<char> {
        match self {
            RCode::NoError => "NoError"@,
            RCode::FormatError => "FormatError"@,
            RCode::ServFail => "ServFail"@,
            RCode::NameError => "NameError"@,
            RCode::NotImp => "NotImp"@,
            RCode::Refused => "Refused"@,
            RCode::Reserved(_) => "Reserved"@,
        }
    }

    /// Renders the value as text.
    pub fn to_string(&self) -> (s: String)
        ensures
            s@ == self.text(),
    {
        match self {
            RCode::NoError => "NoError".to_owned(),
            RCode::FormatError => "FormatError".to_owned(),
            RCode::ServFail => "ServFail".to_owned(),
            RCode::NameError => "NameError".to_owned(),
            RCode::NotImp => "NotImp".to_owned(),
            RCode::Refused => "Refused".to_owned(),
            RCode::Reserved(_) => "Reserved".to_owned(),
        }
    }
}

impl From<u16> for RCode {
    fn from(original: u16) -> (r: RCode) {
        match original {
            0 => RCode::NoError,
            1 => RCode::FormatError,
            2 => RCode::ServFail,
            3 => RCode::NameError,
            4 => RCode::NotImp,
            5 => RCode::Refused,
            _ => RCode::Reserved(original),
        }
    }
}

impl FromSpecImpl<u16> for RCode {
    open spec fn obeys_from_spec() -> bool {
        true
    }

    open spec fn from_spec(original: u16) -> RCode {
        RCode::of_code(original)
    }
}

/// Whether a message is a query or a response.
#[derive(Debug, Clone, Copy, PartialEq, Eq, Structural)]
pub enum QR {
    Q,
    R,
}

impl QR {
    /// How the flag is shown.
    pub open spec fn text(self) -> Seq<char> {
        match self {
            QR::Q => "Q"@,
            QR::R => "R"@,
        }
    }

    /// Renders the value as text.
    pub fn to_string(&self) -> (s: String)
        ensures
            s@ == self.text(),
    {
        match self {
            QR::Q => "Q".to_owned(),
            QR::R => "R".to_owned(),
        }
    }
}

impl From<bool> for QR {
    fn from(original: bool) -> (r: QR) {
        match original {
            false => QR::Q,
            true => QR::R,
        }
    }
}

impl FromSpecImpl<bool> for QR {
    open spec fn obeys_from_spec() -> bool {
        true
    }

    open spec fn from_spec(original: bool) -> QR {
        if original {
            QR::R
        } else {
            QR::Q
        }
    }
}

/// The second 16 bits of the header, field by field. From the highest bit:
/// QR (1 bit), opcode (4), AA, TC, RD, RA (1 each), Z (3), response code (4).
#[derive(Debug, Clone, Copy, PartialEq, Eq, Structural)]
pub struct MessageMeta {
    pub qr: QR,
    pub opcode: u8,
    pub aa: bool,
    pub tc: bool,
    pub rd: bool,
    pub ra: bool,
    pub z: u8,
    pub rcode: RCode,
}

/// One for a set flag, zero for a clear one.
pub open spec fn bit(flag: bool) -> int {
    if flag {
        1
    } else {
        0
    }
}

/// A flag as text.
pub open spec fn bool_text(flag: bool) -> Seq<char> {
    if flag {
        "true"@
    } else {
        "false"@
    }
}

impl MessageMeta {
    /// Every field fits the bits it has on the wire.
    pub open spec fn wf(self) -> bool {
        &&& self.opcode < 16
        &&& self.z < 8
        &&& self.rcode.wf()
    }

    /// The 16 bits that hold the fields.
    pub open spec fn packed(self) -> int {
        bit(self.qr == QR::R) * 32768 + self.opcode * 2048 + bit(self.aa) * 1024 + bit(self.tc)
            * 512 + bit(self.rd) * 256 + bit(self.ra) * 128 + self.z * 16 + self.rcode.code()
    }

    /// The fields that 16 bits hold.
    pub open spec fn unpacked(meta: u16) -> MessageMeta {
        MessageMeta {
            qr: if meta / 32768 == 1 {
                QR::R
            } else {
                QR::Q
            },
            opcode: (meta / 2048 % 16) as u8,
            aa: meta / 1024 % 2 == 1,
            tc: meta / 512 % 2 == 1,
            rd: meta / 256 % 2 == 1,
            ra: meta / 128 % 2 == 1,
            z: (meta / 16 % 8) as u8,
            rcode: RCode::of_code(meta % 16),
        }
    }

    /// The two bytes of the fields on the wire.
    pub open spec fn wire(self) -> Seq<u8> {
        seq![(self.packed() / 256) as u8, (self.packed() % 256) as u8]
    }

    /// How the fields are shown.
    pub open spec fn text(self) -> Seq<char> {
        "QR: "@ + self.qr.text() + "; Opcode: "@ + decimal(self.opcode as nat) + "\nFLAGS: AA "@
            + bool_text(self.aa) + "; TC "@ + bool_text(self.tc) + "; RD: "@ + bool_text(self.rd)
            + "; RA: "@ + bool_text(self.ra) + "; Z: "@ + decimal(self.z as nat) + "; "@
            + self.rcode.text()
    }

    /// Unpacks the fields from their 16 bits.
    pub fn new(meta: u16) -> (m: MessageMeta)
        ensures
            m == MessageMeta::unpacked(meta),
            m.wf(),
            m.packed() == meta,
    {
        assert(meta >> 15 == meta / 32768) by (bit_vector);
        assert((meta >> 11) & 0b1111 == meta / 2048 % 16) by (bit_vector);
        assert((meta >> 10) & 0b1 == meta / 1024 % 2) by (bit_vector);
        assert((meta >> 9) & 0b1 == meta / 512 % 2) by (bit_vector);
        assert((meta >> 8) & 0b1 == meta / 256 % 2) by (bit_vector);
        assert((meta >> 7) & 0b1 == meta / 128 % 2) by (bit_vector);
        assert((meta >> 4) & 0b111 == meta / 16 % 8) by (bit_vector);
        assert(meta & 0b1111 == meta % 16) by (bit_vector);
        proof {
            MessageMeta::lemma_unpack_pack(meta);
        }
        MessageMeta {
            qr: QR::from((meta >> 15) != 0),
            opcode: ((meta >> 11) & 0b1111) as u8,
            aa: ((meta >> 10) & 0b1) != 0,
            tc: ((meta >> 9) & 0b1) != 0,
            rd: ((meta >> 8) & 0b1) != 0,
            ra: ((meta >> 7) & 0b1) != 0,
            z: ((meta >> 4) & 0b111) as u8,
            rcode: RCode::from(meta & 0b1111),
        }
    }

    /// Packs the fields into their two bytes.
    pub fn to_wire(&self) -> (wire: Vec<u8>)
        requires
            self.wf(),
        ensures
            wire@ == self.wire(),
    {
        let qr: u8 = match self.qr {
            QR::Q => 0,
            QR::R => 1,
        };
        let rcode: u8 = match self.rcode {
            RCode::NoError => 0,
            RCode::FormatError => 1,
            RCode::ServFail => 2,
            RCode::NameError => 3,
            RCode::NotImp => 4,
            RCode::Refused => 5,
            RCode::Reserved(code) => code as u8,
        };
        let mut byte_1: u8 = qr * 128;
        byte_1 += self.opcode * 8;
        byte_1 += (self.aa as u8) * 4;
        byte_1 += (self.tc as u8) * 2;
        byte_1 += self.rd as u8;
        let mut byte_2: u8 = (self.ra as u8) * 128;
        byte_2 += self.z * 16;
        byte_2 += rcode;
        let mut wire: Vec<u8> = Vec::new();
        wire.push(byte_1);
        wire.push(byte_2);
        proof {
            let p = self.packed();
            assert(bit(self.qr == QR::R) == qr);
            assert(self.rcode.code() == rcode);
            assert(p == byte_1 * 256 + byte_2);
            assert(p / 256 == byte_1 && p % 256 == byte_2);
            assert(wire@ =~= self.wire());
        }
        wire
    }

    /// Renders the value as text.
    pub fn to_string(&self) -> (s: String)
        ensures
            s@ == self.text(),
    {
        let mut s = "QR: ".to_owned();
        s.append(self.qr.to_string().as_str());
        s.append("; Opcode: ");
        s.append(decimal_string(self.opcode as u32).as_str());
        s.append("\nFLAGS: AA ");
        s.append(bool_str(self.aa));
        s.append("; TC ");
        s.append(bool_str(self.tc));
        s.append("; RD: ");
        s.append(bool_str(self.rd));
        s.append("; RA: ");
        s.append(bool_str(self.ra));
        s.append("; Z: ");
        s.append(decimal_string(self.z as u32).as_str());
        s.append("; ");
        s.append(self.rcode.to_string().as_str());
        s
    }

    /// Unpacking then packing gives back the 16 bits, whatever they are; the
    /// fields unpacked are well formed, and their two bytes on the wire are
    /// the two bytes of the 16 bits.
    pub proof fn lemma_unpack_pack(meta: u16)
        ensures
            MessageMeta::unpacked(meta).wf(),
            MessageMeta::unpacked(meta).packed() == meta,
            MessageMeta::unpacked(meta).wire() == u16_wire(meta),
    {
        assert((meta / 32768) * 32768 + (meta / 2048 % 16) * 2048 + (meta / 1024 % 2) * 1024 + (meta
            / 512 % 2) * 512 + (meta / 256 % 2) * 256 + (meta / 128 % 2) * 128 + (meta / 16 % 8)
            * 16 + meta % 16 == meta) by (bit_vector);
        let m = MessageMeta::unpacked(meta);
        assert(bit(m.qr == QR::R) == meta / 32768);
        assert(bit(m.aa) == meta / 1024 % 2);
        assert(bit(m.tc) == meta / 512 % 2);
        assert(bit(m.rd) == meta / 256 % 2);
        assert(bit(m.ra) == meta / 128 % 2);
        assert(m.rcode.code() == meta % 16);
        assert(m.packed() == meta);
    }

    /// Packing well-formed fields then unpacking gives back the fields.
    pub proof fn lemma_pack_unpack(m: MessageMeta)
        requires
            m.wf(),
        ensures
            0 <= m.packed() < 65536,
            MessageMeta::unpacked(m.packed() as u16) == m,
    {
        let q = bit(m.qr == QR::R) as u16;
        let aa = bit(m.aa) as u16;
        let tc = bit(m.tc) as u16;
        let rd = bit(m.rd) as u16;
        let ra = bit(m.ra) as u16;
        let rc = m.rcode.code();
        lemma_fields(q, m.opcode as u16, aa, tc, rd, ra, m.z as u16, rc);
    }
}

proof fn lemma_fields(q: u16, op: u16, aa: u16, tc: u16, rd: u16, ra: u16, z: u16, rc: u16)
    by (bit_vector)
    requires
        q < 2,
        op < 16,
        aa < 2,
        tc < 2,
        rd < 2,
        ra < 2,
        z < 8,
        rc < 16,
    ensures
        q * 32768 + op * 2048 + aa * 1024 + tc * 512 + rd * 256 + ra * 128 + z * 16 + rc < 65536,
        ({
            let p = (q * 32768 + op * 2048 + aa * 1024 + tc * 512 + rd * 256 + ra * 128 + z * 16
                + rc) as u16;
            &&& p / 32768 == q
            &&& p / 2048 % 16 == op
            &&& p / 1024 % 2 == aa
            &&& p / 512 % 2 == tc
            &&& p / 256 % 2 == rd
            &&& p / 128 % 2 == ra
            &&& p / 16 % 8 == z
            &&& p % 16 == rc
        }),
{
}

fn bool_str(flag: bool) -> (s: &'static str)
    ensures
        s@ == bool_text(flag),
{
    if flag {
        "true"
    } else {
        "false"
    }
}

/// A message, as a value.
pub struct MessageView {
    pub id: u16,
    pub meta: MessageMeta,
    pub qdcount: u16,
    pub ancount: u16,
    pub nscount: u16,
    pub arcount: u16,
    pub question: Seq<QuestionView>,
    pub answer: Seq<RRView>,
    pub authority: Seq<RRView>,
    pub additional: Seq<RRView>,
}

/// A message: the header and the entries of its four sections.
#[derive(Debug, PartialEq, Eq)]
pub struct Message {
    pub id: u16,
    pub meta: MessageMeta,
    pub qdcount: u16,
    pub ancount: u16,
    pub nscount: u16,
    pub arcount: u16,
    pub question: Vec<Question>,
    pub answer: Vec<RR>,
    pub authority: Vec<RR>,
    pub additional: Vec<RR>,
}

impl View for Message {
    type V = MessageView;

    open spec fn view(&self) -> MessageView {
        MessageView {
            id: self.id,
            meta: self.meta,
            qdcount: self.qdcount,
            ancount: self.ancount,
            nscount: self.nscount,
            arcount: self.arcount,
            question: views(self.question@),
            answer: views(self.answer@),
            authority: views(self.authority@),
            additional: views(self.additional@),
        }
    }
}

/// `count` questions, the first at `offset`, each behind the one before it;
/// and the offset of what follows the last.
pub open spec fn questions_spec(buf: Seq<u8>, offset: int, count: nat) -> Result<
    (Seq<QuestionView>, int),
    ParseError,
>
    decreases count,
{
    if count == 0 {
        Ok((Seq::empty(), offset))
    } else {
        match question_spec(buf, offset) {
            Err(e) => Err(e),
            Ok((first, next)) => match questions_spec(buf, next, (count - 1) as nat) {
                Err(e) => Err(e),
                Ok((rest, end)) => Ok((seq![first] + rest, end)),
            },
        }
    }
}

/// `count` resource records, the first at `offset`, each behind the one
/// before it; and the offset of what follows the last.
pub open spec fn rrset_spec(buf: Seq<u8>, offset: int, count: nat) -> Result<
    (Seq<RRView>, int),
    ParseError,
>
    decreases count,
{
    if count == 0 {
        Ok((Seq::empty(), offset))
    } else {
        match rr_spec(buf, offset) {
            Err(e) => Err(e),
            Ok((first, next)) => match rrset_spec(buf, next, (count - 1) as nat) {
                Err(e) => Err(e),
                Ok((rest, end)) => Ok((seq![first] + rest, end)),
            },
        }
    }
}

/// The message that a buffer holds: twelve bytes of header, then as many
/// questions and records as the four counts say.
pub open spec fn message_spec(buf: Seq<u8>) -> Result<MessageView, ParseError> {
    if buf.len() < 12 {
        Err(ParseError::OutOfRange)
    } else {
        match questions_spec(buf, 12, u16_at(buf, 4) as nat) {
            Err(e) => Err(e),
            Ok((question, answers)) => match rrset_spec(buf, answers, u16_at(buf, 6) as nat) {
                Err(e) => Err(e),
                Ok((answer, authorities)) => match rrset_spec(
                    buf,
                    authorities,
                    u16_at(buf, 8) as nat,
                ) {
                    Err(e) => Err(e),
                    Ok((authority, additionals)) => match rrset_spec(
                        buf,
                        additionals,
                        u16_at(buf, 10) as nat,
                    ) {
                        Err(e) => Err(e),
                        Ok((additional, _)) => Ok(
                            MessageView {
                                id: u16_at(buf, 0),
                                meta: MessageMeta::unpacked(u16_at(buf, 2)),
                                qdcount: u16_at(buf, 4),
                                ancount: u16_at(buf, 6),
                                nscount: u16_at(buf, 8),
                                arcount: u16_at(buf, 10),
                                question,
                                answer,
                                authority,
                                additional,
                            },
                        ),
                    },
                },
            },
        }
    }
}

/// What a section holds once `items` are decoded and the rest of it yields
/// `rest`.
spec fn extend<V>(items: Seq<V>, rest: Result<(Seq<V>, int), ParseError>) -> Result<
    (Seq<V>, int),
    ParseError,
> {
    match rest {
        Ok((more, end)) => Ok((items + more, end)),
        Err(e) => Err(e),
    }
}

/// Decodes `rrcount` resource records, the first at `offset`.
pub fn extract_rrset(buf: &[u8], offset: usize, rrcount: u16) -> (r: Result<
    (Vec<RR>, usize),
    ParseError,
>)
    ensures
        match r {
            Ok((rrset, next)) => rrset_spec(buf@, offset as int, rrcount as nat) == Ok::<
                (Seq<RRView>, int),
                ParseError,
            >((views(rrset@), next as int)) && rrset.len() == rrcount,
            Err(e) => rrset_spec(buf@, offset as int, rrcount as nat) == Err::<
                (Seq<RRView>, int),
                ParseError,
            >(e),
        },
{
    let mut idx: usize = offset;
    let mut processed_rrs: u16 = 0;
    let mut rrset: Vec<RR> = Vec::new();
    assert(views(rrset@) + Seq::<RRView>::empty() =~= views(rrset@));
    while processed_rrs < rrcount
        invariant
            processed_rrs <= rrcount,
            rrset.len() == processed_rrs,
            rrset_spec(buf@, offset as int, rrcount as nat) == extend(
                views(rrset@),
                rrset_spec(buf@, idx as int, (rrcount - processed_rrs) as nat),
            ),
        decreases rrcount - processed_rrs,
    {
        let (rr, l_idx) = match RR::from_wire(buf, idx) {
            Ok(found) => found,
            Err(e) => {
                return Err(e);
            },
        };
        proof {
            let before = views(rrset@);
            let rest = rrset_spec(buf@, l_idx as int, (rrcount - processed_rrs - 1) as nat);
            assert(views(rrset@.push(rr)) =~= before.push(rr@));
            if let Ok((more, _)) = rest {
                assert(before + (seq![rr@] + more) =~= before.push(rr@) + more);
            }
        }
        rrset.push(rr);
        idx = l_idx;
        processed_rrs += 1;
    }
    assert(views(rrset@) + Seq::<RRView>::empty() =~= views(rrset@));
    Ok((rrset, idx))
}

/// Decodes `qdcount` questions, the first at `offset`.
pub fn extract_questions(reply: &[u8], offset: usize, qdcount: u16) -> (r: Result<
    (Vec<Question>, usize),
    ParseError,
>)
    ensures
        match r {
            Ok((questions, next)) => questions_spec(reply@, offset as int, qdcount as nat) == Ok::<
                (Seq<QuestionView>, int),
                ParseError,
            >((views(questions@), next as int)) && questions.len() == qdcount,
            Err(e) => questions_spec(reply@, offset as int, qdcount as nat) == Err::<
                (Seq<QuestionView>, int),
                ParseError,
            >(e),
        },
{
    let mut idx: usize = offset;
    let mut questions_processed: u16 = 0;
    let mut questions: Vec<Question> = Vec::new();
    assert(views(questions@) + Seq::<QuestionView>::empty() =~= views(questions@));
    while questions_processed < qdcount
        invariant
            questions_processed <= qdcount,
            questions.len() == questions_processed,
            questions_spec(reply@, offset as int, qdcount as nat) == extend(
                views(questions@),
                questions_spec(reply@, idx as int, (qdcount - questions_processed) as nat),
            ),
        decreases qdcount - questions_processed,
    {
        let (question, l_offset) = match Question::from_wire(reply, idx) {
            Ok(found) => found,
            Err(e) => {
                return Err(e);
            },
        };
        proof {
            let before = views(questions@);
            let rest = questions_spec(
                reply@,
                l_offset as int,
                (qdcount - questions_processed - 1) as nat,
            );
            assert(views(questions@.push(question)) =~= before.push(question@));
            if let Ok((more, _)) = rest {
                assert(before + (seq![question@] + more) =~= before.push(question@) + more);
            }
        }
        idx = l_offset;
        questions.push(question);
        questions_processed += 1;
    }
    assert(views(questions@) + Seq::<QuestionView>::empty() =~= views(questions@));
    Ok((questions, idx))
}

/// `byteorder`'s `read_u16::<BigEndian>` on the bytes from `offset` on:
/// the two bytes there as a big-endian value, or nothing where fewer than
/// two bytes are left.
#[verifier::external_body]
fn read_u16_be(buf: &[u8], offset: usize) -> (r: Option<u16>)
    requires
        offset <= buf.len(),
    ensures
        r == (if offset + 2 <= buf.len() {
            Some(u16_at(buf@, offset as int))
        } else {
            None
        }),
{
    let mut rest: &[u8] = &buf[offset..];
    rest.read_u16::<BigEndian>().ok()
}

/// Writes a question: the name, the type, the class.
pub open spec fn encode_question(q: QuestionView, st: Encoder) -> Encoder {
    Encoder {
        wire: encode_name(q.qname, st).wire + u16_wire(q.qtype.code()) + u16_wire(q.qclass),
        seen: encode_name(q.qname, st).seen,
    }
}

/// Writes the questions in order, each with what the ones before it left.
pub open spec fn encode_questions(qs: Seq<QuestionView>, st: Encoder) -> Encoder
    decreases qs.len(),
{
    if qs.len() == 0 {
        st
    } else {
        encode_questions(qs.drop_first(), encode_question(qs[0], st))
    }
}

/// The twelve bytes of the header.
pub open spec fn header_wire(m: MessageView) -> Seq<u8> {
    u16_wire(m.id) + m.meta.wire() + u16_wire(m.qdcount) + u16_wire(m.ancount) + u16_wire(
        m.nscount,
    ) + u16_wire(m.arcount)
}

/// A message on the wire: the header, then the questions, with names
/// compressed over the whole message. Resource records are not written.
pub open spec fn message_wire(m: MessageView) -> Seq<u8> {
    encode_questions(m.question, Encoder { wire: header_wire(m), seen: Map::empty() }).wire
}

/// A message with one question has nothing to reuse: behind the header
/// stand the labels of the name in full, the zero byte of the root, the type
/// and the class.
pub proof fn lemma_single_question_is_plain(m: MessageView)
    requires
        m.question.len() == 1,
    ensures
        message_wire(m) == header_wire(m) + plain_name(without_root(m.question[0].qname))
            + seq![0u8] + u16_wire(m.question[0].qtype.code()) + u16_wire(m.question[0].qclass),
{
    let start = Encoder { wire: header_wire(m), seen: Map::empty() };
    lemma_fresh_name_is_plain(without_root(m.question[0].qname), start);
    assert(m.question.drop_first().len() == 0);
    assert(encode_questions(m.question, start) == encode_question(m.question[0], start)) by {
        reveal_with_fuel(encode_questions, 2);
    }
}

/// The fields of the header of a query: all clear, but for the wish for
/// recursion.
pub open spec fn query_meta() -> MessageMeta {
    MessageMeta {
        qr: QR::Q,
        opcode: 0,
        aa: false,
        tc: false,
        rd: true,
        ra: false,
        z: 0,
        rcode: RCode::NoError,
    }
}

/// The message that asks one question of class IN, with recursion desired.
pub open spec fn query_view(id: u16, name: Seq<Seq<char>>, qtype: QType) -> MessageView {
    MessageView {
        id,
        meta: query_meta(),
        qdcount: 1,
        ancount: 0,
        nscount: 0,
        arcount: 0,
        question: seq![QuestionView { qname: name, qtype, qclass: 1 }],
        answer: Seq::empty(),
        authority: Seq::empty(),
        additional: Seq::empty(),
    }
}

/// Each question as text.
pub open spec fn question_texts(qs: Seq<QuestionView>) -> Seq<Seq<char>> {
    Seq::new(qs.len(), |i: int| qs[i].text())
}

/// Each record as text.
pub open spec fn rr_texts(rrs: Seq<RRView>) -> Seq<Seq<char>> {
    Seq::new(rrs.len(), |i: int| rrs[i].text())
}

/// A section as text: nothing where the count is zero; else two line breaks,
/// the title, and the entries, each on a line of its own.
pub open spec fn section_text(count: u16, title: Seq<char>, items: Seq<Seq<char>>) -> Seq<char> {
    if count > 0 {
        "\n\n"@ + title + "\n"@ + join(items, "\n"@)
    } else {
        Seq::empty()
    }
}

/// The offsets of the name suffixes written so far, in the order in which
/// they were written. No suffix is held twice.
struct SuffixOffsets {
    suffixes: Vec<String>,
    offsets: Vec<u16>,
    seen: Ghost<Map<Seq<char>, int>>,
}

impl SuffixOffsets {
    spec fn wf(&self) -> bool {
        &&& self.suffixes.len() == self.offsets.len()
        &&& forall|i: int|
            0 <= i < self.suffixes.len() ==> self.seen@.contains_key(#[trigger] self.suffixes[i]@)
                && self.seen@[self.suffixes[i]@] == self.offsets[i] && self.offsets[i] < 16384
        &&& forall|k: Seq<char>|
            self.seen@.contains_key(k) ==> exists|i: int|
                0 <= i < self.suffixes.len() && #[trigger] self.suffixes[i]@ == k
    }

    fn new() -> (r: SuffixOffsets)
        ensures
            r.wf(),
            r.seen@ == Map::<Seq<char>, int>::empty(),
    {
        SuffixOffsets { suffixes: Vec::new(), offsets: Vec::new(), seen: Ghost(Map::empty()) }
    }

    fn get(&self, suffix: &str) -> (r: Option<u16>)
        requires
            self.wf(),
        ensures
            match r {
                Some(offset) => self.seen@.contains_key(suffix@) && self.seen@[suffix@] == offset
                    && offset < 16384,
                None => !self.seen@.contains_key(suffix@),
            },
    {
        let mut i: usize = 0;
        while i < self.suffixes.len()
            invariant
                self.wf(),
                i <= self.suffixes.len(),
                forall|k: int| 0 <= k < i ==> self.suffixes[k]@ != suffix@,
            decreases self.suffixes.len() - i,
        {
            if str_eq(self.suffixes[i].as_str(), suffix) {
                return Some(self.offsets[i]);
            }
            i = i + 1;
        }
        None
    }

    fn insert(&mut self, suffix: String, offset: u16)
        requires
            old(self).wf(),
            !old(self).seen@.contains_key(suffix@),
            offset < 16384,
        ensures
            final(self).wf(),
            final(self).seen@ == old(self).seen@.insert(suffix@, offset as int),
    {
        let ghost before = *self;
        self.seen = Ghost(self.seen@.insert(suffix@, offset as int));
        self.suffixes.push(suffix);
        self.offsets.push(offset);
        proof {
            assert forall|i: int| 0 <= i < self.suffixes.len() implies self.seen@.contains_key(
                #[trigger] self.suffixes[i]@,
            ) && self.seen@[self.suffixes[i]@] == self.offsets[i] && self.offsets[i] < 16384 by {
                if i < before.suffixes.len() {
                    assert(self.suffixes[i]@ == before.suffixes[i]@);
                }
            }
            assert forall|k: Seq<char>| self.seen@.contains_key(k) implies exists|i: int|
                0 <= i < self.suffixes.len() && #[trigger] self.suffixes[i]@ == k by {
                if k == suffix@ {
                    assert(self.suffixes[self.suffixes.len() - 1]@ == k);
                } else {
                    let i = choose|i: int|
                        0 <= i < before.suffixes.len() && #[trigger] before.suffixes[i]@ == k;
                    assert(self.suffixes[i]@ == k);
                }
            }
        }
    }
}

/// Appends a 16-bit value, the high byte first.
fn push_u16(wire: &mut Vec<u8>, value: u16)
    ensures
        final(wire)@ == old(wire)@ + u16_wire(value),
{
    assert(value >> 8 == value / 256) by (bit_vector);
    assert(value & 255 == value % 256) by (bit_vector);
    wire.push((value >> 8) as u8);
    wire.push((value & 255) as u8);
    assert(wire@ =~= old(wire)@ + u16_wire(value));
}

/// A number drawn by `rand::random`. Nothing is known of it.
#[verifier::external_body]
fn random_id() -> u16 {
    rand::random::<u16>()
}

fn question_strings(questions: &Vec<Question>) -> (parts: Vec<String>)
    ensures
        parts.deep_view() == question_texts(views(questions@)),
{
    let mut parts: Vec<String> = Vec::new();
    let mut i: usize = 0;
    while i < questions.len()
        invariant
            i <= questions.len(),
            parts.len() == i,
            forall|k: int| 0 <= k < i ==> parts[k]@ == questions[k]@.text(),
        decreases questions.len() - i,
    {
        parts.push(questions[i].to_string());
        i = i + 1;
    }
    assert(parts.deep_view() =~= question_texts(views(questions@)));
    parts
}

fn rr_strings(rrs: &Vec<RR>) -> (parts: Vec<String>)
    ensures
        parts.deep_view() == rr_texts(views(rrs@)),
{
    let mut parts: Vec<String> = Vec::new();
    let mut i: usize = 0;
    while i < rrs.len()
        invariant
            i <= rrs.len(),
            parts.len() == i,
            forall|k: int| 0 <= k < i ==> parts[k]@ == rrs[k]@.text(),
        decreases rrs.len() - i,
    {
        parts.push(rrs[i].to_string());
        i = i + 1;
    }
    assert(parts.deep_view() =~= rr_texts(views(rrs@)));
    parts
}

/// Appends a section to the text of a message.
fn append_section(s: &mut String, count: u16, title: &str, items: &Vec<String>)
    ensures
        final(s)@ == old(s)@ + section_text(count, title@, items.deep_view()),
{
    if count > 0 {
        s.append("\n\n");
        s.append(title);
        s.append("\n");
        s.append(join_all(items, "\n").as_str());
    } else {
        assert(s@ + Seq::<char>::empty() =~= s@);
    }
}

/// The number of labels of a name before the empty label that may stand for
/// the root at its end.
pub fn label_count(qname: &Vec<String>) -> (count: usize)
    ensures
        count <= qname.len(),
        qname.deep_view().take(count as int) == without_root(qname.deep_view()),
{
    let n = qname.len();
    if n > 0 && qname[n - 1].as_str().is_empty() {
        assert(qname.deep_view().take(n - 1) =~= qname.deep_view().drop_last());
        n - 1
    } else {
        assert(qname.deep_view().take(n as int) =~= qname.deep_view());
        n
    }
}

/// Whether a name can be written.
pub fn is_writable_name(qname: &Vec<String>) -> (ok: bool)
    ensures
        ok == writable_name(qname.deep_view()),
{
    let count = label_count(qname);
    let ghost labels = without_root(qname.deep_view());
    let mut j: usize = 0;
    while j < count
        invariant
            j <= count <= qname.len(),
            labels == qname.deep_view().take(count as int),
            labels == without_root(qname.deep_view()),
            forall|b: int| 0 <= b < j ==> 1 <= encode_utf8(#[trigger] labels[b]).len() <= 63,
        decreases count - j,
    {
        let len = qname[j].as_str().as_bytes().len();
        if len == 0 || len > 63 {
            assert(encode_utf8(labels[j as int]).len() == len);
            return false;
        }
        j = j + 1;
    }
    true
}

impl MessageView {
    /// The counts of the header are the lengths of the sections, and the
    /// header's fields fit their bits.
    pub open spec fn wf(self) -> bool {
        &&& self.meta.wf()
        &&& self.qdcount == self.question.len()
        &&& self.ancount == self.answer.len()
        &&& self.nscount == self.authority.len()
        &&& self.arcount == self.additional.len()
    }

    /// The message can be written: it is well formed, and the name of every
    /// question can be written.
    pub open spec fn encodable(self) -> bool {
        &&& self.wf()
        &&& forall|i: int|
            0 <= i < self.question.len() ==> writable_name(#[trigger] self.question[i].qname)
    }

    /// How the message is shown: the header on four lines, then each
    /// section that the header counts entries for.
    pub open spec fn text(self) -> Seq<char> {
        "ID: "@ + decimal(self.id as nat) + "\n"@ + self.meta.text() + "\nQDCOUNT "@ + decimal(
            self.qdcount as nat,
        ) + "; ANCOUNT "@ + decimal(self.ancount as nat) + "; NSCOUNT "@ + decimal(
            self.nscount as nat,
        ) + "; ARCOUNT "@ + decimal(self.arcount as nat) + section_text(
            self.qdcount,
            "Question"@,
            question_texts(self.question),
        ) + section_text(self.ancount, "Answer"@, rr_texts(self.answer)) + section_text(
            self.nscount,
            "Authority"@,
            rr_texts(self.authority),
        ) + section_text(self.arcount, "Additional"@, rr_texts(self.additional))
    }
}

impl Message {
    /// Decodes a whole message.
    pub fn from_wire(buf: &[u8]) -> (r: Result<Message, ParseError>)
        ensures
            decoded(r, message_spec(buf@)),
            r matches Ok(m) ==> m@.wf(),
    {
        if buf.len() < 12 {
            return Err(ParseError::OutOfRange);
        }
        let id = match read_u16_be(buf, 0) {
            Some(v) => v,
            None => {
                return Err(ParseError::OutOfRange);
            },
        };
        let meta = match read_u16_be(buf, 2) {
            Some(v) => MessageMeta::new(v),
            None => {
                return Err(ParseError::OutOfRange);
            },
        };
        let qdcount = match read_u16_be(buf, 4) {
            Some(v) => v,
            None => {
                return Err(ParseError::OutOfRange);
            },
        };
        let ancount = match read_u16_be(buf, 6) {
            Some(v) => v,
            None => {
                return Err(ParseError::OutOfRange);
            },
        };
        let nscount = match read_u16_be(buf, 8) {
            Some(v) => v,
            None => {
                return Err(ParseError::OutOfRange);
            },
        };
        let arcount = match read_u16_be(buf, 10) {
            Some(v) => v,
            None => {
                return Err(ParseError::OutOfRange);
            },
        };
        let (question, offset) = match extract_questions(buf, 12, qdcount) {
            Ok(found) => found,
            Err(e) => {
                return Err(e);
            },
        };
        let (answer, offset) = match extract_rrset(buf, offset, ancount) {
            Ok(found) => found,
            Err(e) => {
                return Err(e);
            },
        };
        let (authority, offset) = match extract_rrset(buf, offset, nscount) {
            Ok(found) => found,
            Err(e) => {
                return Err(e);
            },
        };
        let (additional, _offset) = match extract_rrset(buf, offset, arcount) {
            Ok(found) => found,
            Err(e) => {
                return Err(e);
            },
        };
        Ok(
            Message {
                id,
                meta,
                qdcount,
                ancount,
                nscount,
                arcount,
                question,
                answer,
                authority,
                additional,
            },
        )
    }

    /// Whether the message can be written.
    pub fn is_encodable(&self) -> (ok: bool)
        ensures
            ok == self@.encodable(),
    {
        if self.meta.opcode >= 16 || self.meta.z >= 8 {
            return false;
        }
        if let RCode::Reserved(code) = self.meta.rcode {
            if code < 6 || code > 15 {
                return false;
            }
        }
        if self.question.len() != self.qdcount as usize || self.answer.len()
            != self.ancount as usize || self.authority.len() != self.nscount as usize
            || self.additional.len() != self.arcount as usize {
            return false;
        }
        let mut i: usize = 0;
        while i < self.question.len()
            invariant
                i <= self.question.len(),
                self@.wf(),
                forall|a: int| 0 <= a < i ==> writable_name(#[trigger] self@.question[a].qname),
            decreases self.question.len() - i,
        {
            if !is_writable_name(&self.question[i].qname) {
                assert(!writable_name(self@.question[i as int].qname));
                return false;
            }
            i = i + 1;
        }
        true
    }

    /// Encodes the header and the questions, with names compressed.
    pub fn to_wire(&self) -> (wire: Vec<u8>)
        requires
            self@.encodable(),
        ensures
            wire@ == message_wire(self@),
    {
        let mut wire: Vec<u8> = Vec::new();
        push_u16(&mut wire, self.id);
        let meta_wire = self.meta.to_wire();
        wire.push(meta_wire[0]);
        wire.push(meta_wire[1]);
        push_u16(&mut wire, self.qdcount);
        push_u16(&mut wire, self.ancount);
        push_u16(&mut wire, self.nscount);
        push_u16(&mut wire, self.arcount);
        assert(wire@ =~= header_wire(self@));
        let mut offset_map = SuffixOffsets::new();
        let mut qi: usize = 0;
        assert(self@.question.skip(0) =~= self@.question);
        while qi < self.question.len()
            invariant
                qi <= self.question.len(),
                offset_map.wf(),
                self@.encodable(),
                message_wire(self@) == encode_questions(
                    self@.question.skip(qi as int),
                    Encoder { wire: wire@, seen: offset_map.seen@ },
                ).wire,
            decreases self.question.len() - qi,
        {
            let q = &self.question[qi];
            let count = label_count(&q.qname);
            let ghost labels = without_root(q.qname.deep_view());
            let ghost named = encode_labels(labels, Encoder { wire: wire@, seen: offset_map.seen@ });
            assert(q.qname.deep_view() == self@.question[qi as int].qname);
            assert(writable_name(self@.question[qi as int].qname));
            assert(self@.question.skip(qi as int).drop_first() =~= self@.question.skip(qi + 1));
            assert(labels.skip(0) =~= labels);
            let mut index: usize = 0;
            let mut pointed: bool = false;
            while index < count && !pointed
                invariant
                    index <= count <= q.qname.len(),
                    offset_map.wf(),
                    labels == q.qname.deep_view().take(count as int),
                    forall|j: int|
                        0 <= j < labels.len() ==> 1 <= encode_utf8(#[trigger] labels[j]).len()
                            <= 63,
                    !pointed ==> named == encode_labels(
                        labels.skip(index as int),
                        Encoder { wire: wire@, seen: offset_map.seen@ },
                    ),
                    pointed ==> named == (Encoder { wire: wire@, seen: offset_map.seen@ }),
                decreases count - index + (if pointed { 0int } else { 1int }),
            {
                let name = join_strings(&q.qname, index, count, ".");
                assert(labels.skip(index as int) =~= q.qname.deep_view().subrange(
                    index as int,
                    count as int,
                ));
                assert(labels.skip(index as int).drop_first() =~= labels.skip(index + 1));
                match offset_map.get(name.as_str()) {
                    Some(offset) => {
                        push_u16(&mut wire, 49152 + offset);
                        pointed = true;
                    },
                    None => {
                        if wire.len() < 16384 {
                            offset_map.insert(name, wire.len() as u16);
                        }
                        let bytes = q.qname[index].as_str().as_bytes();
                        assert(bytes@ == encode_utf8(labels[index as int]));
                        let ghost before = wire@;
                        wire.push(bytes.len() as u8);
                        wire.extend_from_slice(bytes);
                        assert(wire@ =~= before + label_wire(labels[index as int]));
                        index = index + 1;
                    },
                }
            }
            if !pointed {
                let ghost before = wire@;
                assert(labels.skip(index as int).len() == 0);
                wire.push(0);
                assert(wire@ =~= before + seq![0u8]);
            }
            assert(named == (Encoder { wire: wire@, seen: offset_map.seen@ }));
            push_u16(&mut wire, u16::from(q.qtype));
            push_u16(&mut wire, q.qclass);
            qi = qi + 1;
        }
        wire
    }

    /// The query that asks for the records of type `qtype` at `name`, under
    /// the given id.
    pub fn query(id: u16, name: Vec<String>, qtype: QType) -> (m: Message)
        ensures
            m@ == query_view(id, name.deep_view(), qtype),
            m@.wf(),
    {
        let mut question: Vec<Question> = Vec::new();
        question.push(Question::new(name, qtype, 1));
        let m = Message {
            id,
            meta: MessageMeta::new(256),
            qdcount: 1,
            ancount: 0,
            nscount: 0,
            arcount: 0,
            question,
            answer: Vec::new(),
            authority: Vec::new(),
            additional: Vec::new(),
        };
        assert(m@.question =~= seq![QuestionView { qname: name.deep_view(), qtype, qclass: 1 }]);
        assert(m@.answer =~= Seq::empty());
        assert(m@.authority =~= Seq::empty());
        assert(m@.additional =~= Seq::empty());
        m
    }

    /// The query that asks for the records at `name` of the type that the
    /// token `qtype` names, under an id drawn at random.
    pub fn new(name: Vec<String>, qtype: String) -> (m: Message)
        requires
            QType::of_token(qtype@) is Some,
        ensures
            m@ == query_view(m.id, name.deep_view(), QType::of_token(qtype@)->0),
            m@.wf(),
    {
        match QType::try_from(qtype) {
            Ok(qtype) => Message::query(random_id(), name, qtype),
            Err(_) => unreached(),
        }
    }

    /// As `new`, for any token: fails where the token names no question type.
    pub fn try_new(name: Vec<String>, qtype: String) -> (r: Result<
        Message,
        crate::question::ParseError,
    >)
        ensures
            match r {
                Ok(m) => QType::of_token(qtype@) is Some && m@ == query_view(
                    m.id,
                    name.deep_view(),
                    QType::of_token(qtype@)->0,
                ) && m@.wf(),
                Err(_) => QType::of_token(qtype@) is None,
            },
    {
        match QType::try_from(qtype.clone()) {
            Ok(_) => Ok(Message::new(name, qtype)),
            Err(e) => Err(e),
        }
    }

    /// Renders the value as text.
    pub fn to_string(&self) -> (s: String)
        ensures
            s@ == self@.text(),
    {
        let mut s = "ID: ".to_owned();
        s.append(decimal_string(self.id as u32).as_str());
        s.append("\n");
        s.append(self.meta.to_string().as_str());
        s.append("\nQDCOUNT ");
        s.append(decimal_string(self.qdcount as u32).as_str());
        s.append("; ANCOUNT ");
        s.append(decimal_string(self.ancount as u32).as_str());
        s.append("; NSCOUNT ");
        s.append(decimal_string(self.nscount as u32).as_str());
        s.append("; ARCOUNT ");
        s.append(decimal_string(self.arcount as u32).as_str());
        append_section(&mut s, self.qdcount, "Question", &question_strings(&self.question));
        append_section(&mut s, self.ancount, "Answer", &rr_strings(&self.answer));
        append_section(&mut s, self.nscount, "Authority", &rr_strings(&self.authority));
        append_section(&mut s, self.arcount, "Additional", &rr_strings(&self.additional));
        s
    }
}

} // verus!
