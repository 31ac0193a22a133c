//! The payload of a resource record, decoded by record type.

use crate::errors::decoded;
use crate::errors::ParseError;
use crate::rr::RRType;
use crate::text::{decimal, decimal_string, hex, hex_string, join, join_all};
use crate::utils::{
    be16, be32, byte_combine, extract_name, name_spec, read_u32, utf8_text,
};
use vstd::prelude::*;
use vstd::slice::slice_subrange;
use vstd::slice::slice_to_vec;
use vstd::utf8::{decode_utf8, valid_utf8};

verus! {

/// The labels of the name at `offset`, where it decodes.
pub open spec fn name_only(buf: Seq<u8>, offset: int) -> Result<Seq<Seq<char>>, ParseError> {
    match name_spec(buf, offset) {
        Ok((labels, _)) => Ok(labels),
        Err(e) => Err(e),
    }
}

/// The `len` bytes at `offset`, where the message has them.
pub open spec fn bytes_at(buf: Seq<u8>, offset: int, len: int) -> Result<Seq<u8>, ParseError> {
    if offset + len <= buf.len() {
        Ok(buf.subrange(offset, offset + len))
    } else {
        Err(ParseError::OutOfRange)
    }
}

fn decode_name_only(buf: &[u8], offset: usize) -> (r: Result<Vec<String>, ParseError>)
    ensures
        match r {
            Ok(name) => name_only(buf@, offset as int) == Ok::<Seq<Seq<char>>, ParseError>(
                name.deep_view(),
            ),
            Err(e) => name_only(buf@, offset as int) == Err::<Seq<Seq<char>>, ParseError>(e),
        },
{
    match extract_name(buf, offset) {
        Ok((name, _)) => Ok(name),
        Err(e) => Err(e),
    }
}

/// An IPv4 host address.
#[derive(Debug, PartialEq, Eq)]
pub struct AData {
    address: [u8; 4],
}

impl View for AData {
    type V = Seq<u8>;

    closed spec fn view(&self) -> Seq<u8> {
        self.address@
    }
}

impl AData {
    /// The four bytes of the address.
    pub fn address(&self) -> (address: [u8; 4])
        ensures
            address@ == self@,
    {
        self.address
    }

    /// Reads the four bytes of the address.
    pub fn from_wire(buf: &[u8], offset: usize) -> (r: Result<AData, ParseError>)
        ensures
            decoded(r, bytes_at(buf@, offset as int, 4)),
    {
        if buf.len() < 4 || offset > buf.len() - 4 {
            return Err(ParseError::OutOfRange);
        }
        let a = AData { address: [buf[offset], buf[offset + 1], buf[offset + 2], buf[offset + 3]] };
        assert(a@ =~= buf@.subrange(offset as int, offset + 4));
        Ok(a)
    }
}

/// The name of an authoritative name server.
#[derive(Debug, PartialEq, Eq)]
pub struct NSData {
    nsdname: Vec<String>,
}

impl View for NSData {
    type V = Seq<Seq<char>>;

    closed spec fn view(&self) -> Seq<Seq<char>> {
        self.nsdname.deep_view()
    }
}

impl NSData {
    /// The labels of the name.
    pub fn nsdname(&self) -> (name: &Vec<String>)
        ensures
            name.deep_view() == self@,
    {
        &self.nsdname
    }

    /// Decodes the name that starts at `offset`.
    pub fn from_wire(buf: &[u8], offset: usize) -> (r: Result<NSData, ParseError>)
        ensures
            decoded(r, name_only(buf@, offset as int)),
    {
        match decode_name_only(buf, offset) {
            Ok(nsdname) => Ok(NSData { nsdname }),
            Err(e) => Err(e),
        }
    }
}

/// The canonical name for an alias.
#[derive(Debug, PartialEq, Eq)]
pub struct CNAMEData {
    cname: Vec<String>,
}

impl View for CNAMEData {
    type V = Seq<Seq<char>>;

    closed spec fn view(&self) -> Seq<Seq<char>> {
        self.cname.deep_view()
    }
}

impl CNAMEData {
    /// The labels of the name.
    pub fn cname(&self) -> (name: &Vec<String>)
        ensures
            name.deep_view() == self@,
    {
        &self.cname
    }

    /// Decodes the name that starts at `offset`.
    pub fn from_wire(buf: &[u8], offset: usize) -> (r: Result<CNAMEData, ParseError>)
        ensures
            decoded(r, name_only(buf@, offset as int)),
    {
        match decode_name_only(buf, offset) {
            Ok(cname) => Ok(CNAMEData { cname }),
            Err(e) => Err(e),
        }
    }
}

/// A start of authority, as a value.
pub struct SOAView {
    pub mname: Seq<Seq<char>>,
    pub rname: Seq<Seq<char>>,
    pub serial: u32,
    pub refresh: u32,
    pub retry: u32,
    pub expire: u32,
}

/// The start of a zone of authority.
#[derive(Debug, PartialEq, Eq)]
pub struct SOAData {
    mname: Vec<String>,
    rname: Vec<String>,
    serial: u32,
    refresh: u32,
    retry: u32,
    expire: u32,
}

impl View for SOAData {
    type V = SOAView;

    closed spec fn view(&self) -> SOAView {
        SOAView {
            mname: self.mname.deep_view(),
            rname: self.rname.deep_view(),
            serial: self.serial,
            refresh: self.refresh,
            retry: self.retry,
            expire: self.expire,
        }
    }
}

/// The big-endian 32-bit field at `offset`.
pub open spec fn u32_at(buf: Seq<u8>, offset: int) -> u32 {
    be32(buf[offset], buf[offset + 1], buf[offset + 2], buf[offset + 3]) as u32
}

/// Two names, the second behind the first, then four 32-bit fields.
pub open spec fn soa_spec(buf: Seq<u8>, offset: int) -> Result<SOAView, ParseError> {
    match name_spec(buf, offset) {
        Err(e) => Err(e),
        Ok((mname, after_mname)) => match name_spec(buf, after_mname) {
            Err(e) => Err(e),
            Ok((rname, fields)) => if fields + 16 > buf.len() {
                Err(ParseError::OutOfRange)
            } else {
                Ok(
                    SOAView {
                        mname,
                        rname,
                        serial: u32_at(buf, fields),
                        refresh: u32_at(buf, fields + 4),
                        retry: u32_at(buf, fields + 8),
                        expire: u32_at(buf, fields + 12),
                    },
                )
            },
        },
    }
}

impl SOAData {
    /// The name server that is the primary source of the zone.
    pub fn mname(&self) -> (name: &Vec<String>)
        ensures
            name.deep_view() == self@.mname,
    {
        &self.mname
    }

    /// The mailbox of the person responsible for the zone.
    pub fn rname(&self) -> (name: &Vec<String>)
        ensures
            name.deep_view() == self@.rname,
    {
        &self.rname
    }

    /// The version number of the zone.
    pub fn serial(&self) -> (serial: u32)
        ensures
            serial == self@.serial,
    {
        self.serial
    }

    /// The seconds after which the zone should be refreshed.
    pub fn refresh(&self) -> (refresh: u32)
        ensures
            refresh == self@.refresh,
    {
        self.refresh
    }

    /// The seconds after which a failed refresh should be tried again.
    pub fn retry(&self) -> (retry: u32)
        ensures
            retry == self@.retry,
    {
        self.retry
    }

    /// The seconds after which the zone is no longer authoritative.
    pub fn expire(&self) -> (expire: u32)
        ensures
            expire == self@.expire,
    {
        self.expire
    }

    /// Decodes both names and the four numbers behind them.
    pub fn from_wire(buf: &[u8], offset: usize) -> (r: Result<SOAData, ParseError>)
        ensures
            decoded(r, soa_spec(buf@, offset as int)),
    {
        let (mname, offset) = match extract_name(buf, offset) {
            Ok(found) => found,
            Err(e) => {
                return Err(e);
            },
        };
        let (rname, offset) = match extract_name(buf, offset) {
            Ok(found) => found,
            Err(e) => {
                return Err(e);
            },
        };
        if buf.len() < 16 || offset > buf.len() - 16 {
            return Err(ParseError::OutOfRange);
        }
        let serial = read_u32(buf, offset);
        let refresh = read_u32(buf, offset + 4);
        let retry = read_u32(buf, offset + 8);
        let expire = read_u32(buf, offset + 12);
        Ok(SOAData { mname, rname, serial, refresh, retry, expire })
    }
}

/// A mail exchange, as a value.
pub struct MXView {
    pub preference: u16,
    pub exchange: Seq<Seq<char>>,
}

/// A mail exchange and the preference given to it.
#[derive(Debug, PartialEq, Eq)]
pub struct MXData {
    preference: u16,
    exchange: Vec<String>,
}

impl View for MXData {
    type V = MXView;

    closed spec fn view(&self) -> MXView {
        MXView { preference: self.preference, exchange: self.exchange.deep_view() }
    }
}

/// A 16-bit preference, then a name.
pub open spec fn mx_spec(buf: Seq<u8>, offset: int) -> Result<MXView, ParseError> {
    if offset + 2 > buf.len() {
        Err(ParseError::OutOfRange)
    } else {
        match name_spec(buf, offset + 2) {
            Ok((exchange, _)) => Ok(
                MXView { preference: be16(buf[offset], buf[offset + 1]) as u16, exchange },
            ),
            Err(e) => Err(e),
        }
    }
}

impl MXData {
    /// The preference given to the exchange; lower is preferred.
    pub fn preference(&self) -> (preference: u16)
        ensures
            preference == self@.preference,
    {
        self.preference
    }

    /// The labels of the name of the exchange.
    pub fn exchange(&self) -> (name: &Vec<String>)
        ensures
            name.deep_view() == self@.exchange,
    {
        &self.exchange
    }

    /// Decodes the preference and the name behind it.
    pub fn from_wire(buf: &[u8], offset: usize) -> (r: Result<MXData, ParseError>)
        ensures
            decoded(r, mx_spec(buf@, offset as int)),
    {
        if buf.len() < 2 || offset > buf.len() - 2 {
            return Err(ParseError::OutOfRange);
        }
        let preference = byte_combine(buf[offset], buf[offset + 1]);
        match extract_name(buf, offset + 2) {
            Ok((exchange, _)) => Ok(MXData { preference, exchange }),
            Err(e) => Err(e),
        }
    }
}

/// A domain name pointer.
#[derive(Debug, PartialEq, Eq)]
pub struct PTRData {
    ptrdname: Vec<String>,
}

impl View for PTRData {
    type V = Seq<Seq<char>>;

    closed spec fn view(&self) -> Seq<Seq<char>> {
        self.ptrdname.deep_view()
    }
}

impl PTRData {
    /// The labels of the name.
    pub fn ptrdname(&self) -> (name: &Vec<String>)
        ensures
            name.deep_view() == self@,
    {
        &self.ptrdname
    }

    /// Decodes the name that starts at `offset`.
    pub fn from_wire(buf: &[u8], offset: usize) -> (r: Result<PTRData, ParseError>)
        ensures
            decoded(r, name_only(buf@, offset as int)),
    {
        match decode_name_only(buf, offset) {
            Ok(ptrdname) => Ok(PTRData { ptrdname }),
            Err(e) => Err(e),
        }
    }
}

/// A text payload: bytes that are valid UTF-8.
#[derive(Debug, PartialEq, Eq)]
pub struct TXTData {
    txtdata: Vec<u8>,
}

impl View for TXTData {
    type V = Seq<u8>;

    closed spec fn view(&self) -> Seq<u8> {
        self.txtdata@
    }
}

/// The `len` bytes at `offset`, which must be valid UTF-8.
pub open spec fn txt_spec(buf: Seq<u8>, offset: int, len: int) -> Result<Seq<u8>, ParseError> {
    if offset + len > buf.len() {
        Err(ParseError::OutOfRange)
    } else if !valid_utf8(buf.subrange(offset, offset + len)) {
        Err(ParseError::InvalidUtf8)
    } else {
        Ok(buf.subrange(offset, offset + len))
    }
}

impl TXTData {
    #[verifier::type_invariant]
    spec fn is_text(self) -> bool {
        valid_utf8(self.txtdata@)
    }

    /// The bytes of the text.
    pub fn txtdata(&self) -> (bytes: &Vec<u8>)
        ensures
            bytes@ == self@,
            valid_utf8(bytes@),
    {
        proof {
            use_type_invariant(self);
        }
        &self.txtdata
    }

    /// Takes the `rdlength` bytes at `offset`, which must be valid UTF-8.
    pub fn from_wire(buf: &[u8], offset: usize, rdlength: usize) -> (r: Result<
        TXTData,
        ParseError,
    >)
        ensures
            decoded(r, txt_spec(buf@, offset as int, rdlength as int)),
    {
        if buf.len() < rdlength || offset > buf.len() - rdlength {
            return Err(ParseError::OutOfRange);
        }
        let blob = slice_subrange(buf, offset, offset + rdlength);
        if utf8_text(blob).is_none() {
            return Err(ParseError::InvalidUtf8);
        }
        Ok(TXTData { txtdata: slice_to_vec(blob) })
    }
}

/// An IPv6 host address.
#[derive(Debug, PartialEq, Eq)]
pub struct AAAAData {
    address: [u8; 16],
}

impl View for AAAAData {
    type V = Seq<u8>;

    closed spec fn view(&self) -> Seq<u8> {
        self.address@
    }
}

impl AAAAData {
    /// The sixteen bytes of the address.
    pub fn address(&self) -> (address: [u8; 16])
        ensures
            address@ == self@,
    {
        self.address
    }

    /// Reads the sixteen bytes of the address.
    pub fn from_wire(buf: &[u8], offset: usize) -> (r: Result<AAAAData, ParseError>)
        ensures
            decoded(r, bytes_at(buf@, offset as int, 16)),
    {
        if buf.len() < 16 || offset > buf.len() - 16 {
            return Err(ParseError::OutOfRange);
        }
        let a = AAAAData {
            address: [
                buf[offset],
                buf[offset + 1],
                buf[offset + 2],
                buf[offset + 3],
                buf[offset + 4],
                buf[offset + 5],
                buf[offset + 6],
                buf[offset + 7],
                buf[offset + 8],
                buf[offset + 9],
                buf[offset + 10],
                buf[offset + 11],
                buf[offset + 12],
                buf[offset + 13],
                buf[offset + 14],
                buf[offset + 15],
            ],
        };
        assert(a@ =~= buf@.subrange(offset as int, offset + 16));
        Ok(a)
    }
}

/// Each byte in decimal.
pub open spec fn decimals(bytes: Seq<u8>) -> Seq<Seq<char>> {
    Seq::new(bytes.len(), |i: int| decimal(bytes[i] as nat))
}

/// Each group in lower-case hexadecimal, without leading zeros.
pub open spec fn hexes(groups: Seq<u16>) -> Seq<Seq<char>> {
    Seq::new(groups.len(), |i: int| hex(groups[i] as nat))
}

/// The 16-bit groups of an address, each from two bytes, the high one first.
pub open spec fn quibbles(address: Seq<u8>) -> Seq<u16> {
    Seq::new(address.len() / 2, |i: int| be16(address[2 * i], address[2 * i + 1]) as u16)
}

/// The groups from `lo` up to `hi` (not included) are a run of zeros that
/// cannot be made longer at either end.
pub open spec fn zero_run(groups: Seq<u16>, lo: int, hi: int) -> bool {
    &&& 0 <= lo < hi <= groups.len()
    &&& forall|k: int| lo <= k < hi ==> groups[k] == 0
    &&& lo == 0 || groups[lo - 1] != 0
    &&& hi == groups.len() || groups[hi] != 0
}

/// The run that is written as `::`: a run of at least two zero groups than
/// which none is longer, and the leftmost of those as long as it.
pub open spec fn collapsed_run(groups: Seq<u16>, lo: int, hi: int) -> bool {
    &&& zero_run(groups, lo, hi)
    &&& hi - lo >= 2
    &&& forall|a: int, b: int| #[trigger]
        zero_run(groups, a, b) ==> b - a < hi - lo || (b - a == hi - lo && a >= lo)
}

/// At most one run is the collapsed one.
pub proof fn lemma_collapsed_run_unique(groups: Seq<u16>, lo: int, hi: int, lo2: int, hi2: int)
    requires
        collapsed_run(groups, lo, hi),
        collapsed_run(groups, lo2, hi2),
    ensures
        lo == lo2,
        hi == hi2,
{
}

/// An IPv4 address in dotted decimal.
pub open spec fn a_text(address: Seq<u8>) -> Seq<char> {
    join(decimals(address), "."@)
}

/// An IPv6 address: its groups in hexadecimal with colons between them,
/// the collapsed run, if there is one, written as `::`.
pub open spec fn ipv6_text(groups: Seq<u16>) -> Seq<char> {
    if exists|lo: int, hi: int| collapsed_run(groups, lo, hi) {
        let (lo, hi) = choose|lo: int, hi: int| collapsed_run(groups, lo, hi);
        join(hexes(groups.subrange(0, lo)), ":"@) + "::"@ + join(
            hexes(groups.subrange(hi, groups.len() as int)),
            ":"@,
        )
    } else {
        join(hexes(groups), ":"@)
    }
}

/// Finds the run of zero groups that is written as `::`, if there is one.
pub fn longest_zero_run(groups: &[u16]) -> (r: Option<(usize, usize)>)
    ensures
        match r {
            Some((lo, hi)) => collapsed_run(groups@, lo as int, hi as int),
            None => forall|lo: int, hi: int| !collapsed_run(groups@, lo, hi),
        },
{
    let n: usize = groups.len();
    let mut best: Option<(usize, usize)> = None;
    let mut start: Option<usize> = None;
    let mut i: usize = 0;
    while i < n
        invariant
            i <= n,
            n == groups.len(),
            match start {
                Some(s) => s < i && (forall|k: int| s <= k < i ==> groups@[k] == 0) && (s == 0
                    || groups@[s - 1] != 0),
                None => i == 0 || groups@[i - 1] != 0,
            },
            match best {
                Some((lo, hi)) => zero_run(groups@, lo as int, hi as int) && hi - lo >= 2 && hi
                    < i && (forall|a: int, b: int| #[trigger]
                    zero_run(groups@, a, b) && b < i ==> b - a < hi - lo || (b - a == hi - lo && a
                        >= lo)),
                None => forall|a: int, b: int| #[trigger] zero_run(groups@, a, b) && b < i ==> b - a < 2,
            },
        decreases n - i,
    {
        if groups[i] == 0 {
            if start.is_none() {
                start = Some(i);
            }
        } else {
            if let Some(s) = start {
                let longer = match best {
                    Some((lo, hi)) => i - s > hi - lo,
                    None => i - s >= 2,
                };
                if longer {
                    best = Some((s, i));
                }
                start = None;
            }
        }
        i = i + 1;
    }
    if let Some(s) = start {
        let longer = match best {
            Some((lo, hi)) => n - s > hi - lo,
            None => n - s >= 2,
        };
        if longer {
            best = Some((s, n));
        }
    }
    best
}

fn decimal_strings(bytes: &[u8]) -> (parts: Vec<String>)
    ensures
        parts.deep_view() == decimals(bytes@),
{
    let mut parts: Vec<String> = Vec::new();
    let mut i: usize = 0;
    while i < bytes.len()
        invariant
            i <= bytes.len(),
            parts.len() == i,
            forall|k: int| 0 <= k < i ==> parts[k]@ == decimal(bytes@[k] as nat),
        decreases bytes.len() - i,
    {
        parts.push(decimal_string(bytes[i] as u32));
        i = i + 1;
    }
    assert(parts.deep_view() =~= decimals(bytes@));
    parts
}

fn hex_strings(groups: &[u16], from: usize, to: usize) -> (parts: Vec<String>)
    requires
        from <= to <= groups.len(),
    ensures
        parts.deep_view() == hexes(groups@.subrange(from as int, to as int)),
{
    let mut parts: Vec<String> = Vec::new();
    let mut i: usize = from;
    while i < to
        invariant
            from <= i <= to <= groups.len(),
            parts.len() == i - from,
            forall|k: int| 0 <= k < i - from ==> parts[k]@ == hex(groups@[from + k] as nat),
        decreases to - i,
    {
        parts.push(hex_string(groups[i]));
        i = i + 1;
    }
    assert(parts.deep_view() =~= hexes(groups@.subrange(from as int, to as int)));
    parts
}

impl AData {
    /// The address in dotted decimal.
    pub fn to_string(&self) -> (s: String)
        ensures
            s@ == a_text(self@),
    {
        let parts = decimal_strings(self.address.as_slice());
        join_all(&parts, ".")
    }
}

impl AAAAData {
    /// The eight 16-bit groups of the address.
    pub fn groups(&self) -> (q: Vec<u16>)
        ensures
            q@ == quibbles(self@),
    {
        let mut q: Vec<u16> = Vec::new();
        let mut i: usize = 0;
        while i < 8
            invariant
                i <= 8,
                q.len() == i,
                forall|k: int|
                    0 <= k < i ==> q[k] as int == be16(
                        self.address@[2 * k],
                        self.address@[2 * k + 1],
                    ),
            decreases 8 - i,
        {
            q.push(byte_combine(self.address[2 * i], self.address[2 * i + 1]));
            i = i + 1;
        }
        assert(q@ =~= quibbles(self@));
        q
    }

    /// The address in hexadecimal groups, the longest run of zero groups
    /// collapsed.
    pub fn to_string(&self) -> (s: String)
        ensures
            s@ == ipv6_text(quibbles(self@)),
    {
        let q = self.groups();
        match longest_zero_run(q.as_slice()) {
            Some((lo, hi)) => {
                let head = hex_strings(q.as_slice(), 0, lo);
                let tail = hex_strings(q.as_slice(), hi, q.len());
                let mut s = join_all(&head, ":");
                s.append("::");
                s.append(join_all(&tail, ":").as_str());
                proof {
                    let (l, h) = choose|l: int, h: int| collapsed_run(q@, l, h);
                    lemma_collapsed_run_unique(q@, lo as int, hi as int, l, h);
                }
                s
            },
            None => {
                let all = hex_strings(q.as_slice(), 0, q.len());
                assert(q@.subrange(0, q.len() as int) =~= q@);
                join_all(&all, ":")
            },
        }
    }
}

/// A name as text: its labels with dots between them.
pub open spec fn name_text(labels: Seq<Seq<char>>) -> Seq<char> {
    join(labels, "."@)
}

/// `str`'s `Debug` form of a text: the text between double quotes, with
/// escapes where the text holds quotes, backslashes or what does not print.
pub uninterp spec fn quoted(text: Seq<char>) -> Seq<char>;

/// The `Debug` form of a string slice, as `format!` gives it for `{:?}`.
/// Nothing is claimed of that form but that it depends on the text alone.
#[verifier::external_body]
fn quote(text: &str) -> (s: String)
    ensures
        s@ == quoted(text@),
{
    format!("{:?}", text)
}

/// A start of authority as text: both names and the four numbers, with tabs
/// between them.
pub open spec fn soa_text(soa: SOAView) -> Seq<char> {
    name_text(soa.mname) + "\t"@ + name_text(soa.rname) + "\t"@ + decimal(soa.serial as nat) + "\t"@
        + decimal(soa.refresh as nat) + "\t"@ + decimal(soa.retry as nat) + "\t"@ + decimal(
        soa.expire as nat,
    )
}

/// A mail exchange as text: the preference, a tab, the name.
pub open spec fn mx_text(mx: MXView) -> Seq<char> {
    decimal(mx.preference as nat) + "\t"@ + name_text(mx.exchange)
}

/// A text payload as text: what the bytes say in UTF-8, quoted.
pub open spec fn txt_text(bytes: Seq<u8>) -> Seq<char> {
    quoted(decode_utf8(bytes))
}

impl NSData {
    /// Renders the value as text.
    pub fn to_string(&self) -> (s: String)
        ensures
            s@ == name_text(self@),
    {
        join_all(&self.nsdname, ".")
    }
}

impl CNAMEData {
    /// Renders the value as text.
    pub fn to_string(&self) -> (s: String)
        ensures
            s@ == name_text(self@),
    {
        join_all(&self.cname, ".")
    }
}

impl PTRData {
    /// Renders the value as text.
    pub fn to_string(&self) -> (s: String)
        ensures
            s@ == name_text(self@),
    {
        join_all(&self.ptrdname, ".")
    }
}

impl SOAData {
    /// Renders the value as text.
    pub fn to_string(&self) -> (s: String)
        ensures
            s@ == soa_text(self@),
    {
        let mut s = join_all(&self.mname, ".");
        s.append("\t");
        s.append(join_all(&self.rname, ".").as_str());
        s.append("\t");
        s.append(decimal_string(self.serial).as_str());
        s.append("\t");
        s.append(decimal_string(self.refresh).as_str());
        s.append("\t");
        s.append(decimal_string(self.retry).as_str());
        s.append("\t");
        s.append(decimal_string(self.expire).as_str());
        s
    }
}

impl MXData {
    /// Renders the value as text.
    pub fn to_string(&self) -> (s: String)
        ensures
            s@ == mx_text(self@),
    {
        let mut s = decimal_string(self.preference as u32);
        s.append("\t");
        s.append(join_all(&self.exchange, ".").as_str());
        s
    }
}

impl TXTData {
    /// Renders the value as text.
    pub fn to_string(&self) -> (s: String)
        ensures
            s@ == txt_text(self@),
    {
        proof {
            use_type_invariant(self);
        }
        match utf8_text(self.txtdata.as_slice()) {
            Some(text) => quote(text.as_str()),
            None => unreached(),
        }
    }
}

/// A decoded payload, as a value.
pub enum RDataView {
    A(Seq<u8>),
    NS(Seq<Seq<char>>),
    CNAME(Seq<Seq<char>>),
    SOA(SOAView),
    PTR(Seq<Seq<char>>),
    MX(MXView),
    TXT(Seq<u8>),
    AAAA(Seq<u8>),
    UNKNOWN(u16),
}

impl RDataView {
    /// How the payload is shown.
    pub open spec fn text(self) -> Seq<char> {
        match self {
            RDataView::A(address) => a_text(address),
            RDataView::NS(name) => name_text(name),
            RDataView::CNAME(name) => name_text(name),
            RDataView::SOA(soa) => soa_text(soa),
            RDataView::PTR(name) => name_text(name),
            RDataView::MX(mx) => mx_text(mx),
            RDataView::TXT(bytes) => txt_text(bytes),
            RDataView::AAAA(address) => ipv6_text(quibbles(address)),
            RDataView::UNKNOWN(code) => decimal(code as nat),
        }
    }
}

/// The payload of a resource record. A type whose payload is not
/// interpreted is kept as its code alone.
#[derive(Debug, PartialEq, Eq)]
pub enum RData {
    A(AData),
    NS(NSData),
    CNAME(CNAMEData),
    SOA(SOAData),
    PTR(PTRData),
    MX(MXData),
    TXT(TXTData),
    AAAA(AAAAData),
    UNKNOWN(u16),
}

impl View for RData {
    type V = RDataView;

    open spec fn view(&self) -> RDataView {
        match self {
            RData::A(data) => RDataView::A(data@),
            RData::NS(data) => RDataView::NS(data@),
            RData::CNAME(data) => RDataView::CNAME(data@),
            RData::SOA(data) => RDataView::SOA(data@),
            RData::PTR(data) => RDataView::PTR(data@),
            RData::MX(data) => RDataView::MX(data@),
            RData::TXT(data) => RDataView::TXT(data@),
            RData::AAAA(data) => RDataView::AAAA(data@),
            RData::UNKNOWN(code) => RDataView::UNKNOWN(*code),
        }
    }
}

/// The payload of a record of type `rrtype` whose `rdlength` bytes start at
/// `offset`. A name in it may lead, by a pointer, to bytes before `offset`.
pub open spec fn rdata_spec(rrtype: RRType, buf: Seq<u8>, offset: int, rdlength: int) -> Result<
    RDataView,
    ParseError,
> {
    match rrtype {
        RRType::A => match bytes_at(buf, offset, 4) {
            Ok(address) => Ok(RDataView::A(address)),
            Err(e) => Err(e),
        },
        RRType::NS => match name_only(buf, offset) {
            Ok(name) => Ok(RDataView::NS(name)),
            Err(e) => Err(e),
        },
        RRType::CNAME => match name_only(buf, offset) {
            Ok(name) => Ok(RDataView::CNAME(name)),
            Err(e) => Err(e),
        },
        RRType::SOA => match soa_spec(buf, offset) {
            Ok(soa) => Ok(RDataView::SOA(soa)),
            Err(e) => Err(e),
        },
        RRType::PTR => match name_only(buf, offset) {
            Ok(name) => Ok(RDataView::PTR(name)),
            Err(e) => Err(e),
        },
        RRType::MX => match mx_spec(buf, offset) {
            Ok(mx) => Ok(RDataView::MX(mx)),
            Err(e) => Err(e),
        },
        RRType::TXT => match txt_spec(buf, offset, rdlength) {
            Ok(bytes) => Ok(RDataView::TXT(bytes)),
            Err(e) => Err(e),
        },
        RRType::AAAA => match bytes_at(buf, offset, 16) {
            Ok(address) => Ok(RDataView::AAAA(address)),
            Err(e) => Err(e),
        },
        _ => Ok(RDataView::UNKNOWN(rrtype.code())),
    }
}

/// The codes of the types whose payload is interpreted.
pub open spec fn interpreted(code: u16) -> bool {
    code == 1 || code == 2 || code == 5 || code == 6 || code == 12 || code == 15 || code == 16
        || code == 28
}

/// A record of a type whose payload is not interpreted never fails to
/// decode: its payload is the code alone, shown as the number.
pub proof fn lemma_uninterpreted_type(code: u16, buf: Seq<u8>, offset: int, rdlength: int)
    requires
        !interpreted(code),
    ensures
        rdata_spec(RRType::of_code(code), buf, offset, rdlength) == Ok::<RDataView, ParseError>(
            RDataView::UNKNOWN(code),
        ),
        RDataView::UNKNOWN(code).text() == decimal(code as nat),
{
}

impl RData {
    /// Decodes the payload that the record type calls for.
    pub fn from_wire(rrtype: RRType, buf: &[u8], offset: usize, rdlength: usize) -> (r: Result<
        RData,
        ParseError,
    >)
        ensures
            decoded(r, rdata_spec(rrtype, buf@, offset as int, rdlength as int)),
    {
        match rrtype {
            RRType::A => match AData::from_wire(buf, offset) {
                Ok(a) => Ok(RData::A(a)),
                Err(e) => Err(e),
            },
            RRType::NS => match NSData::from_wire(buf, offset) {
                Ok(ns) => Ok(RData::NS(ns)),
                Err(e) => Err(e),
            },
            RRType::CNAME => match CNAMEData::from_wire(buf, offset) {
                Ok(cname) => Ok(RData::CNAME(cname)),
                Err(e) => Err(e),
            },
            RRType::SOA => match SOAData::from_wire(buf, offset) {
                Ok(soa) => Ok(RData::SOA(soa)),
                Err(e) => Err(e),
            },
            RRType::PTR => match PTRData::from_wire(buf, offset) {
                Ok(ptr) => Ok(RData::PTR(ptr)),
                Err(e) => Err(e),
            },
            RRType::MX => match MXData::from_wire(buf, offset) {
                Ok(mx) => Ok(RData::MX(mx)),
                Err(e) => Err(e),
            },
            RRType::TXT => match TXTData::from_wire(buf, offset, rdlength) {
                Ok(txt) => Ok(RData::TXT(txt)),
                Err(e) => Err(e),
            },
            RRType::AAAA => match AAAAData::from_wire(buf, offset) {
                Ok(aaaa) => Ok(RData::AAAA(aaaa)),
                Err(e) => Err(e),
            },
            _ => Ok(RData::UNKNOWN(u16::from(rrtype))),
        }
    }

    /// Renders the value as text.
    pub fn to_string(&self) -> (s: String)
        ensures
            s@ == self@.text(),
    {
        match self {
            RData::A(data) => data.to_string(),
            RData::NS(data) => data.to_string(),
            RData::CNAME(data) => data.to_string(),
            RData::SOA(data) => data.to_string(),
            RData::PTR(data) => data.to_string(),
            RData::MX(data) => data.to_string(),
            RData::TXT(data) => data.to_string(),
            RData::AAAA(data) => data.to_string(),
            RData::UNKNOWN(code) => decimal_string(*code as u32),
        }
    }
}

} // verus!
