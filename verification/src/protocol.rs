//! The protocol for client/server communication.
//!
//! The protocol uses TCP over port 48578 and is dead-simple:
//! each packet is prefixed by its size in 4 little-endian bytes (`frame` writes that prefix,
//! and an `Unframer` cuts a stream of bytes back into packets).

use crate::world::Action;
use vstd::prelude::*;
use vstd::string::*;
use vstd::utf8::*;

verus! {

pub type ClientIdentifier = u64;

/// Default port for esprit servers to listen on.
///
/// This is derived from "esprit", where each letter's index (distance from 'a') was adjusted to
/// a single digit via modulus: `(character - 'a') % 10`.
pub const DEFAULT_PORT: u16 = 48578;

pub type Checksum = u64;

/// The 8 bytes `c[0..8]` read as a little-endian `u64`.
pub open spec fn le_word(c: Seq<u8>) -> u64 {
    (c[0] as u64) | ((c[1] as u64) << 8u64) | ((c[2] as u64) << 16u64) | ((c[3] as u64) << 24u64)
        | ((c[4] as u64) << 32u64) | ((c[5] as u64) << 40u64) | ((c[6] as u64) << 48u64) | ((
    c[7] as u64) << 56u64)
}

/// The exclusive or of the first `n` little-endian words of `bytes`.
pub open spec fn xor_words(bytes: Seq<u8>, n: nat) -> u64
    decreases n,
{
    if n == 0 {
        0
    } else {
        xor_words(bytes, (n - 1) as nat) ^ le_word(bytes.subrange(8 * (n - 1), 8 * (n as int)))
    }
}

/// The checksum of `bytes`: the exclusive or of its whole 8-byte words, read little-endian;
/// bytes after the last whole word are not counted.
pub open spec fn checksum_of(bytes: Seq<u8>) -> u64 {
    xor_words(bytes, bytes.len() / 8)
}

/// The exclusive or of the whole 8-byte little-endian words of `bytes`.
pub fn checksum(bytes: &[u8]) -> (res: Checksum)
    ensures
        res == checksum_of(bytes@),
{
    let len = bytes.len();
    let words = len / 8;
    let mut acc: u64 = 0;
    let mut k: usize = 0;
    while k < words
        invariant
            0 <= k <= words,
            words == len / 8,
            len == bytes@.len(),
            acc == xor_words(bytes@, k as nat),
        decreases words - k,
    {
        assert(8 * k + 8 <= len) by (nonlinear_arith)
            requires
                k < words,
                words == len / 8,
        ;
        let b = 8 * k;
        let word = (bytes[b] as u64) | ((bytes[b + 1] as u64) << 8u64) | ((bytes[b + 2] as u64)
            << 16u64) | ((bytes[b + 3] as u64) << 24u64) | ((bytes[b + 4] as u64) << 32u64) | ((
        bytes[b + 5] as u64) << 40u64) | ((bytes[b + 6] as u64) << 48u64) | ((bytes[b + 7] as u64)
            << 56u64);
        let ghost chunk = bytes@.subrange(8 * k, 8 * (k + 1));
        assert(word == le_word(chunk));
        acc = acc ^ word;
        k = k + 1;
    }
    acc
}

proof fn lemma_xor_words_prefix(a: Seq<u8>, b: Seq<u8>, n: nat)
    requires
        8 * n <= a.len(),
    ensures
        xor_words(a + b, n) == xor_words(a, n),
    decreases n,
{
    if n > 0 {
        lemma_xor_words_prefix(a, b, (n - 1) as nat);
        assert((a + b).subrange(8 * (n - 1), 8 * (n as int)) == a.subrange(8 * (n - 1), 8 * (n as int)));
    }
}

proof fn lemma_xor_words_suffix(a: Seq<u8>, b: Seq<u8>, n: nat)
    requires
        a.len() % 8 == 0,
        8 * n <= b.len(),
    ensures
        xor_words(a + b, a.len() / 8 + n) == xor_words(a, a.len() / 8) ^ xor_words(b, n),
    decreases n,
{
    let m = a.len() / 8;
    if n == 0 {
        lemma_xor_words_prefix(a, b, m);
        let x = xor_words(a, m);
        assert(x ^ 0u64 == x) by (bit_vector);
    } else {
        lemma_xor_words_suffix(a, b, (n - 1) as nat);
        assert((a + b).subrange(8 * (m + n - 1), 8 * ((m + n) as int)) == b.subrange(8 * (n - 1), 8 * (n as int)));
        let x = xor_words(a, m);
        let y = xor_words(b, (n - 1) as nat);
        let w = le_word(b.subrange(8 * (n - 1), 8 * (n as int)));
        assert((x ^ y) ^ w == x ^ (y ^ w)) by (bit_vector);
        assert(m + n - 1 == (m + n - 1) as nat);
    }
}

/// The checksum of bytes made of whole words followed by more bytes is the exclusive or of the
/// two checksums.
pub proof fn lemma_checksum_concat(a: Seq<u8>, b: Seq<u8>)
    requires
        a.len() % 8 == 0,
    ensures
        checksum_of(a + b) == checksum_of(a) ^ checksum_of(b),
{
    lemma_xor_words_suffix(a, b, b.len() / 8);
    assert((a + b).len() / 8 == a.len() / 8 + b.len() / 8);
}

/// Whole words repeated twice cancel out: their checksum is 0.
pub proof fn lemma_checksum_repeat_cancels(a: Seq<u8>)
    requires
        a.len() % 8 == 0,
    ensures
        checksum_of(a + a) == 0,
{
    lemma_checksum_concat(a, a);
    let c = checksum_of(a);
    assert(c ^ c == 0) by (bit_vector);
}

/// Bytes after the last whole word do not change the checksum.
pub proof fn lemma_checksum_ignores_tail(bytes: Seq<u8>, k: int)
    requires
        8 * (bytes.len() / 8) <= k <= bytes.len(),
    ensures
        checksum_of(bytes.take(k)) == checksum_of(bytes),
{
    let n = bytes.len() / 8;
    lemma_xor_words_prefix(bytes.take(k), bytes.skip(k), n);
    assert(bytes.take(k) + bytes.skip(k) == bytes);
    assert(bytes.take(k).len() / 8 == n);
}

#[derive(Clone, Debug)]
pub struct ClientAuthentication {
    pub username: String,
}

#[derive(Clone, Debug)]
pub struct ClientRouting {
    pub instance_id: u32,
    pub instance_password: Option<String>,
}

#[verifier::external_type_specification]
#[verifier::external_body]
pub struct ExUrlParseError(url::ParseError);

#[verifier::external_type_specification]
#[verifier::external_body]
pub struct ExParseIntError(core::num::ParseIntError);

#[verifier::external_type_specification]
#[verifier::external_body]
pub struct ExUtf8Error(core::str::Utf8Error);

#[derive(Debug)]
pub enum ClientRoutingError {
    MalformedUrl(url::ParseError),
    MissingHost,
    MissingInstance,
    MalformedInstance(core::num::ParseIntError),
    MalformedPassword(core::str::Utf8Error),
}

/// Which error a routing request is refused with: one for each variant of `ClientRoutingError`.
pub enum RoutingFault {
    Url,
    Host,
    NoInstance,
    Instance,
    Password,
}

impl ClientRoutingError {
    pub open spec fn fault(self) -> RoutingFault {
        match self {
            ClientRoutingError::MalformedUrl(_) => RoutingFault::Url,
            ClientRoutingError::MissingHost => RoutingFault::Host,
            ClientRoutingError::MissingInstance => RoutingFault::NoInstance,
            ClientRoutingError::MalformedInstance(_) => RoutingFault::Instance,
            ClientRoutingError::MalformedPassword(_) => RoutingFault::Password,
        }
    }
}

/// What a URL holds that routing reads: its path segments (none for a URL that cannot be a
/// base), its host and its port.
pub struct UrlParts {
    pub path_segments: Option<Vec<String>>,
    pub host: Option<String>,
    pub port: Option<u16>,
}

pub open spec fn strings_view(v: Seq<String>) -> Seq<Seq<char>> {
    v.map_values(|s: String| s@)
}

impl UrlParts {
    pub open spec fn parts(self) -> (Option<Seq<Seq<char>>>, Option<Seq<char>>, Option<u16>) {
        (
            match self.path_segments {
                Some(v) => Some(strings_view(v@)),
                None => None,
            },
            match self.host {
                Some(h) => Some(h@),
                None => None,
            },
            self.port,
        )
    }
}

/// What `url::Url::parse` makes of `input`, read through `path_segments`, `host_str` and `port`;
/// `None` where it is refused.
pub uninterp spec fn parsed_url(input: Seq<char>) -> Option<
    (Option<Seq<Seq<char>>>, Option<Seq<char>>, Option<u16>),
>;

/// Parses `input` with `url::Url::parse` and reads the parsed URL's `path_segments`,
/// `host_str` and `port`; what comes out is the named `parsed_url`.
#[verifier::external_body]
fn parse_url(input: &str) -> (res: Result<UrlParts, url::ParseError>)
    ensures
        match res {
            Ok(parts) => parsed_url(input@) == Some(parts.parts()),
            Err(_) => parsed_url(input@) is None,
        },
{
    match url::Url::parse(input) {
        Ok(url) => Ok(UrlParts {
            path_segments: url.path_segments().map(|segments| segments.map(String::from).collect()),
            host: url.host_str().map(String::from),
            port: url.port(),
        }),
        Err(e) => Err(e),
    }
}

/// The value of a hexadecimal digit.
pub open spec fn hex_value(b: u8) -> Option<u8> {
    if 0x30 <= b <= 0x39 {
        Some((b - 0x30) as u8)
    } else if 0x41 <= b <= 0x46 {
        Some((b - 0x41 + 10) as u8)
    } else if 0x61 <= b <= 0x66 {
        Some((b - 0x61 + 10) as u8)
    } else {
        None
    }
}

/// `bytes` with each `%` followed by two hexadecimal digits replaced by the byte they spell.
pub open spec fn percent_decoded(bytes: Seq<u8>) -> Seq<u8>
    decreases bytes.len(),
{
    if bytes.len() == 0 {
        Seq::empty()
    } else if bytes[0] == 0x25 && bytes.len() >= 3 && hex_value(bytes[1]) is Some && hex_value(
        bytes[2],
    ) is Some {
        seq![(hex_value(bytes[1])->0 * 16 + hex_value(bytes[2])->0) as u8] + percent_decoded(
            bytes.skip(3),
        )
    } else {
        seq![bytes[0]] + percent_decoded(bytes.skip(1))
    }
}

/// `percent_encoding::percent_decode_str(s).decode_utf8()`: the percent-decoded bytes of `s`,
/// as text when they are valid UTF-8.
#[verifier::external_body]
fn decode_percent(s: &str) -> (res: Result<String, core::str::Utf8Error>)
    ensures
        match res {
            Ok(text) => valid_utf8(percent_decoded(s.spec_bytes())) && text@ == decode_utf8(
                percent_decoded(s.spec_bytes()),
            ),
            Err(_) => !valid_utf8(percent_decoded(s.spec_bytes())),
        },
{
    match percent_encoding::percent_decode_str(s).decode_utf8() {
        Ok(text) => Ok(text.into_owned()),
        Err(e) => Err(e),
    }
}

/// The value of decimal digits.
pub open spec fn digits_value(d: Seq<char>) -> int
    decreases d.len(),
{
    if d.len() == 0 {
        0
    } else {
        digits_value(d.drop_last()) * 10 + (d.last() as u32 - '0' as u32)
    }
}

/// `s` read as a `u32`: an optional `+` followed by decimal digits, of a value that fits.
pub open spec fn decimal_u32(s: Seq<char>) -> Option<u32> {
    let digits = if s.len() > 0 && s[0] == '+' {
        s.skip(1)
    } else {
        s
    };
    if digits.len() > 0 && (forall|j: int| 0 <= j < digits.len() ==> '0' <= #[trigger] digits[j] <= '9')
        && digits_value(digits) <= u32::MAX {
        Some(digits_value(digits) as u32)
    } else {
        None
    }
}

/// `str::parse::<u32>`: an optional `+` and decimal digits, without overflow.
#[verifier::external_body]
fn parse_u32(s: &str) -> (res: Result<u32, core::num::ParseIntError>)
    ensures
        match res {
            Ok(v) => decimal_u32(s@) == Some(v),
            Err(_) => decimal_u32(s@) is None,
        },
{
    s.parse::<u32>()
}

/// `bytes` percent-decoded, as text when the result is valid UTF-8.
pub open spec fn decoded_text(s: Seq<char>) -> Option<Seq<char>> {
    let bytes = percent_decoded(encode_utf8(s));
    if valid_utf8(bytes) {
        Some(decode_utf8(bytes))
    } else {
        None
    }
}

/// The routing that the path segments of a URL ask for: an instance (its identifier, then an
/// optional percent-encoded password); none where there is no path or its first segment is
/// empty.
pub open spec fn routing_of(segments: Option<Seq<Seq<char>>>) -> Result<
    Option<(u32, Option<Seq<char>>)>,
    RoutingFault,
> {
    match segments {
        None => Ok(None),
        Some(ss) => if ss.len() == 0 || ss[0].len() == 0 {
            Ok(None)
        } else {
            match decimal_u32(ss[0]) {
                None => Err(RoutingFault::Instance),
                Some(id) => if ss.len() < 2 {
                    Ok(Some((id, None)))
                } else {
                    match decoded_text(ss[1]) {
                        Some(password) => Ok(Some((id, Some(password)))),
                        None => Err(RoutingFault::Password),
                    }
                },
            }
        },
    }
}

/// What routing by `url` gives: the instance asked for, the host (percent-decoded) and the
/// port (`DEFAULT_PORT` where the URL names none), or the fault it is refused for.
pub open spec fn route(url: Seq<char>) -> Result<
    (Option<(u32, Option<Seq<char>>)>, Seq<char>, u16),
    RoutingFault,
> {
    match parsed_url(url) {
        None => Err(RoutingFault::Url),
        Some((segments, host, port)) => match routing_of(segments) {
            Err(f) => Err(f),
            Ok(routing) => match host {
                None => Err(RoutingFault::Host),
                Some(h) => match decoded_text(h) {
                    None => Err(RoutingFault::Password),
                    Some(text) => Ok(
                        (
                            routing,
                            text,
                            match port {
                                Some(p) => p,
                                None => DEFAULT_PORT,
                            },
                        ),
                    ),
                },
            },
        },
    }
}

impl ClientRouting {
    pub open spec fn routing_view(self) -> (u32, Option<Seq<char>>) {
        (
            self.instance_id,
            match self.instance_password {
                Some(p) => Some(p@),
                None => None,
            },
        )
    }

    /// Reads the instance to join, and the address of the server, from a URL such as
    /// `esprit://host:port/instance/password`.
    pub fn new(url: &str) -> (res: Result<(Option<ClientRouting>, (String, u16)), ClientRoutingError>)
        ensures
            match (res, route(url@)) {
                (Ok((routing, (host, port))), Ok((r, h, p))) => (match routing {
                    Some(c) => r == Some(c.routing_view()),
                    None => r is None,
                }) && host@ == h && port == p,
                (Err(e), Err(f)) => e.fault() == f,
                _ => false,
            },
    {
        let parts = match parse_url(url) {
            Ok(parts) => parts,
            Err(e) => return Err(ClientRoutingError::MalformedUrl(e)),
        };
        let routing = match Self::from_segments(&parts.path_segments) {
            Ok(routing) => routing,
            Err(e) => return Err(e),
        };
        let host = match &parts.host {
            Some(host) => host,
            None => return Err(ClientRoutingError::MissingHost),
        };
        let host = match decode_percent(host.as_str()) {
            Ok(text) => text,
            Err(e) => return Err(ClientRoutingError::MalformedPassword(e)),
        };
        let port = match parts.port {
            Some(p) => p,
            None => DEFAULT_PORT,
        };
        Ok((routing, (host, port)))
    }

    fn from_segments(segments: &Option<Vec<String>>) -> (res: Result<Option<ClientRouting>, ClientRoutingError>)
        ensures
            match (res, routing_of(match segments { Some(v) => Some(strings_view(v@)), None => None })) {
                (Ok(Some(c)), Ok(Some(r))) => c.routing_view() == r,
                (Ok(None), Ok(None)) => true,
                (Err(e), Err(f)) => e.fault() == f,
                _ => false,
            },
    {
        let segments = match segments {
            Some(v) => v,
            None => return Ok(None),
        };
        if segments.len() == 0 {
            return Ok(None);
        }
        let first = segments[0].as_str();
        if first.unicode_len() == 0 {
            return Ok(None);
        }
        let instance_id = match parse_u32(first) {
            Ok(i) => i,
            Err(e) => return Err(ClientRoutingError::MalformedInstance(e)),
        };
        if segments.len() < 2 {
            return Ok(Some(ClientRouting { instance_id, instance_password: None }));
        }
        match decode_percent(segments[1].as_str()) {
            Ok(password) => Ok(Some(ClientRouting { instance_id, instance_password: Some(password) })),
            Err(e) => Err(ClientRoutingError::MalformedPassword(e)),
        }
    }
}

#[derive(Clone, Debug)]
pub enum ClientPacket {
    // Generic packets
    Ping,
    // Root packets
    Authenticate(ClientAuthentication),
    Route(ClientRouting),
    Instantiate,
    // Instance packets
    Action { action: Action },
}

/// `n` in 4 little-endian bytes.
pub open spec fn le_u32(n: nat) -> Seq<u8> {
    seq![(n % 256) as u8, (n / 256 % 256) as u8, (n / 65536 % 256) as u8, (n / 16777216 % 256) as u8]
}

/// The number that the first 4 bytes of `b` spell, little-endian.
pub open spec fn read_le_u32(b: Seq<u8>) -> nat {
    (b[0] as nat) + (b[1] as nat) * 256 + (b[2] as nat) * 65536 + (b[3] as nat) * 16777216
}

/// Reading back the 4 bytes that a size was written in gives the size.
pub proof fn lemma_size_round_trip(n: nat)
    requires
        n <= u32::MAX,
    ensures
        read_le_u32(le_u32(n)) == n,
{
    let b = le_u32(n);
    assert(b[0] as nat == n % 256);
    assert(b[1] as nat == n / 256 % 256);
    assert(b[2] as nat == n / 65536 % 256);
    assert(b[3] as nat == n / 16777216 % 256);
    assert((n % 256) + (n / 256 % 256) * 256 + (n / 65536 % 256) * 65536 + (n / 16777216 % 256) * 16777216 == n)
        by (nonlinear_arith)
        requires
            n <= 0xffff_ffff,
    ;
}

/// The packets that `bytes` holds, each prefixed by its size in 4 little-endian bytes, and
/// the bytes left after the last whole packet.
pub open spec fn unframe(bytes: Seq<u8>) -> (Seq<Seq<u8>>, Seq<u8>)
    decreases bytes.len(),
{
    if bytes.len() < 4 {
        (Seq::empty(), bytes)
    } else {
        let size = read_le_u32(bytes) as int;
        if bytes.len() < 4 + size {
            (Seq::empty(), bytes)
        } else {
            let rest = unframe(bytes.skip(4 + size));
            (seq![bytes.subrange(4, 4 + size)] + rest.0, rest.1)
        }
    }
}

/// A framed packet followed by more bytes is cut back out whole, and the cutting goes on with
/// what follows it.
pub proof fn lemma_unframe_frame(packet: Seq<u8>, rest: Seq<u8>)
    requires
        packet.len() <= u32::MAX,
    ensures
        unframe(le_u32(packet.len() as nat) + packet + rest) == (
            seq![packet] + unframe(rest).0,
            unframe(rest).1,
        ),
{
    let n = packet.len() as nat;
    let bytes = le_u32(n) + packet + rest;
    lemma_size_round_trip(n);
    assert(read_le_u32(bytes) == read_le_u32(le_u32(n)));
    assert(bytes.subrange(4, 4 + n as int) == packet);
    assert(bytes.skip(4 + n as int) == rest);
}

/// `packet`, prefixed by its size in 4 little-endian bytes.
pub fn frame(packet: &[u8]) -> (res: Vec<u8>)
    requires
        packet@.len() <= u32::MAX,
    ensures
        res@ == le_u32(packet@.len() as nat) + packet@,
{
    let n = packet.len() as u32;
    let mut res: Vec<u8> = Vec::new();
    res.push((n % 256) as u8);
    res.push((n / 256 % 256) as u8);
    res.push((n / 65536 % 256) as u8);
    res.push((n / 16777216 % 256) as u8);
    let mut i: usize = 0;
    while i < packet.len()
        invariant
            0 <= i <= packet@.len(),
            res@ == le_u32(packet@.len() as nat) + packet@.take(i as int),
        decreases packet@.len() - i,
    {
        res.push(packet[i]);
        assert(packet@.take(i + 1) == packet@.take(i as int).push(packet@[i as int]));
        i += 1;
    }
    assert(packet@.take(packet@.len() as int) == packet@);
    res
}

/// The views of some byte vectors.
pub open spec fn packet_views(ps: Seq<Vec<u8>>) -> Seq<Seq<u8>> {
    ps.map_values(|p: Vec<u8>| p@)
}

/// Cuts a stream of bytes into packets, each prefixed by its size in 4 little-endian bytes,
/// keeping what has come of a packet not yet whole.
pub struct Unframer {
    pending: Vec<u8>,
}

impl Unframer {
    /// The bytes received that do not make a whole packet yet.
    pub closed spec fn pending(&self) -> Seq<u8> {
        self.pending@
    }

    /// An unframer that has received nothing.
    pub fn new() -> (res: Unframer)
        ensures
            res.pending() == Seq::<u8>::empty(),
    {
        Unframer { pending: Vec::new() }
    }

    /// How many bytes are still to come before the next packet is whole: those of its size
    /// while fewer than 4 have come, else those of the packet itself.
    pub fn wanted(&self) -> (res: u64)
        ensures
            self.pending().len() < 4 ==> res == 4 - self.pending().len(),
            self.pending().len() >= 4 ==> res == if self.pending().len() < 4 + read_le_u32(self.pending()) {
                4 + read_le_u32(self.pending()) - self.pending().len()
            } else {
                0
            },
    {
        let len = self.pending.len() as u64;
        if len < 4 {
            return 4 - len;
        }
        let size = self.pending[0] as u64 + self.pending[1] as u64 * 256 + self.pending[2] as u64 * 65536
            + self.pending[3] as u64 * 16777216;
        if len < 4 + size {
            4 + size - len
        } else {
            0
        }
    }

    /// Takes the bytes `read` from the stream and gives back the packets that are now whole,
    /// in order.
    pub fn feed(&mut self, read: &[u8]) -> (packets: Vec<Vec<u8>>)
        requires
            old(self).pending().len() + read@.len() <= usize::MAX,
        ensures
            (packet_views(packets@), final(self).pending()) == unframe(old(self).pending() + read@),
    {
        let mut all: Vec<u8> = Vec::new();
        std::mem::swap(&mut all, &mut self.pending);
        let ghost before = all@;
        let mut i: usize = 0;
        while i < read.len()
            invariant
                0 <= i <= read@.len(),
                all@ == before + read@.take(i as int),
            decreases read@.len() - i,
        {
            all.push(read[i]);
            assert(read@.take(i + 1) == read@.take(i as int).push(read@[i as int]));
            i += 1;
        }
        assert(read@.take(read@.len() as int) == read@);
        let ghost whole = all@;
        let mut packets: Vec<Vec<u8>> = Vec::new();
        let mut pos: usize = 0;
        assert(whole.skip(0) == whole);
        loop
            invariant
                all@ == whole,
                0 <= pos <= whole.len(),
                unframe(whole) == (packet_views(packets@) + unframe(whole.skip(pos as int)).0, unframe(
                    whole.skip(pos as int),
                ).1),
            ensures
                unframe(whole.skip(pos as int)) == (Seq::<Seq<u8>>::empty(), whole.skip(pos as int)),
            decreases whole.len() - pos,
        {
            let ghost rest = whole.skip(pos as int);
            if all.len() - pos < 4 {
                assert(rest.len() < 4);
                break;
            }
            let size = all[pos] as usize + all[pos + 1] as usize * 256 + all[pos + 2] as usize * 65536
                + all[pos + 3] as usize * 16777216;
            assert(size == read_le_u32(rest));
            if all.len() - pos - 4 < size {
                break;
            }
            let start = pos + 4;
            let end = start + size;
            let mut packet: Vec<u8> = Vec::new();
            let mut j: usize = 0;
            while j < size
                invariant
                    all@ == whole,
                    start == pos + 4,
                    end == start + size,
                    end <= whole.len(),
                    0 <= j <= size,
                    packet@ == whole.subrange(pos + 4, pos + 4 + j),
                decreases size - j,
            {
                packet.push(all[start + j]);
                assert(whole.subrange(pos + 4, pos + 4 + j + 1) == whole.subrange(pos + 4, pos + 4 + j).push(
                    whole[pos + 4 + j],
                ));
                j += 1;
            }
            let ghost views = packet_views(packets@);
            packets.push(packet);
            proof {
                assert(rest.subrange(4, 4 + size as int) == whole.subrange(pos + 4, pos + 4 + size));
                assert(rest.skip(4 + size as int) == whole.skip(pos + 4 + size));
                assert(packet_views(packets@) == views.push(whole.subrange(pos + 4, pos + 4 + size)));
                assert(unframe(rest).0 == seq![whole.subrange(pos + 4, pos + 4 + size)] + unframe(
                    whole.skip(pos + 4 + size),
                ).0);
                assert(views + unframe(rest).0 == packet_views(packets@) + unframe(whole.skip(pos + 4 + size)).0);
            }
            pos = pos + 4 + size;
        }
        let mut left: Vec<u8> = Vec::new();
        let mut k: usize = pos;
        while k < all.len()
            invariant
                all@ == whole,
                pos <= k <= whole.len(),
                left@ == whole.subrange(pos as int, k as int),
            decreases whole.len() - k,
        {
            left.push(all[k]);
            assert(whole.subrange(pos as int, k + 1) == whole.subrange(pos as int, k as int).push(whole[k as int]));
            k += 1;
        }
        proof {
            let rest = whole.skip(pos as int);
            assert(unframe(rest) == (Seq::<Seq<u8>>::empty(), rest));
            assert(left@ == rest);
            assert(packet_views(packets@) + Seq::<Seq<u8>>::empty() == packet_views(packets@));
        }
        self.pending = left;
        packets
    }
}

} // verus!
