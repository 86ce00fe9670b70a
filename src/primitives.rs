//! Fixed-format primitives that the input codec is built from: field
//! elements, presence flags and length-prefixed payloads.
use vstd::prelude::*;

verus! {

/// Number of bytes in the little-endian encoding of a field element.
pub const FIELD_SIZE: usize = 32;

/// Largest payload length that a two-byte length prefix can describe.
pub const MAX_PAYLOAD_LEN: usize = 65535;

/// Why a byte sequence could not be decoded.
#[derive(Debug, Clone, Copy, PartialEq, Eq, Structural)]
pub enum DecodeError {
    /// The bytes ended before a field was complete.
    Truncated,
    /// A presence flag held a byte other than 0 or 1.
    InvalidFlag(u8),
    /// The leading variant tag names no input variant.
    InvalidVariant(u8),
    /// The origin tag of a record names no origin variant.
    InvalidOrigin(u8),
}

/// A field element, held as its canonical little-endian bytes.
#[derive(Debug, Clone, PartialEq, Eq)]
pub struct Field {
    pub bytes: Vec<u8>,
}

impl Field {
    pub open spec fn wf(&self) -> bool {
        self.bytes@.len() == FIELD_SIZE
    }

    /// Builds a field element from exactly `FIELD_SIZE` bytes.
    pub fn new(bytes: Vec<u8>) -> (r: Option<Field>)
        ensures
            r.is_some() <==> bytes@.len() == FIELD_SIZE,
            r.is_some() ==> r.unwrap().bytes@ == bytes@ && r.unwrap().wf(),
    {
        if bytes.len() == FIELD_SIZE {
            Some(Field { bytes })
        } else {
            None
        }
    }
}

impl View for Field {
    type V = Seq<u8>;

    open spec fn view(&self) -> Seq<u8> {
        self.bytes@
    }
}

/// A plaintext payload, held as its bytes.
#[derive(Debug, Clone, PartialEq, Eq)]
pub struct Plaintext {
    pub bytes: Vec<u8>,
}

impl Plaintext {
    pub open spec fn wf(&self) -> bool {
        self.bytes@.len() <= MAX_PAYLOAD_LEN
    }

    /// Builds a plaintext from at most `MAX_PAYLOAD_LEN` bytes.
    pub fn new(bytes: Vec<u8>) -> (r: Option<Plaintext>)
        ensures
            r.is_some() <==> bytes@.len() <= MAX_PAYLOAD_LEN,
            r.is_some() ==> r.unwrap().bytes@ == bytes@ && r.unwrap().wf(),
    {
        if bytes.len() <= MAX_PAYLOAD_LEN {
            Some(Plaintext { bytes })
        } else {
            None
        }
    }
}

impl View for Plaintext {
    type V = Seq<u8>;

    open spec fn view(&self) -> Seq<u8> {
        self.bytes@
    }
}

/// A ciphertext payload, held as its bytes.
#[derive(Debug, Clone, PartialEq, Eq)]
pub struct Ciphertext {
    pub bytes: Vec<u8>,
}

impl Ciphertext {
    pub open spec fn wf(&self) -> bool {
        self.bytes@.len() <= MAX_PAYLOAD_LEN
    }

    /// Builds a ciphertext from at most `MAX_PAYLOAD_LEN` bytes.
    pub fn new(bytes: Vec<u8>) -> (r: Option<Ciphertext>)
        ensures
            r.is_some() <==> bytes@.len() <= MAX_PAYLOAD_LEN,
            r.is_some() ==> r.unwrap().bytes@ == bytes@ && r.unwrap().wf(),
    {
        if bytes.len() <= MAX_PAYLOAD_LEN {
            Some(Ciphertext { bytes })
        } else {
            None
        }
    }
}

impl View for Ciphertext {
    type V = Seq<u8>;

    open spec fn view(&self) -> Seq<u8> {
        self.bytes@
    }
}

/// What `parse_field` and friends return: the value read and the number of
/// bytes consumed, or the reason for failure.
pub type Parsed<T> = Result<(T, nat), DecodeError>;

/// Encoding of a field element: its bytes as they are.
pub open spec fn encode_field(f: Seq<u8>) -> Seq<u8> {
    f
}

/// Reading a field element takes the first `FIELD_SIZE` bytes.
pub open spec fn parse_field(s: Seq<u8>) -> Parsed<Seq<u8>> {
    if s.len() < FIELD_SIZE {
        Err(DecodeError::Truncated)
    } else {
        Ok((s.take(FIELD_SIZE as int), FIELD_SIZE as nat))
    }
}

/// Encoding of a presence flag: one byte, 1 for true and 0 for false.
pub open spec fn encode_flag(b: bool) -> Seq<u8> {
    if b { seq![1u8] } else { seq![0u8] }
}

/// Reading a presence flag: 0 is false, 1 is true, any other byte fails.
pub open spec fn parse_flag(s: Seq<u8>) -> Parsed<bool> {
    if s.len() < 1 {
        Err(DecodeError::Truncated)
    } else if s[0] == 0 {
        Ok((false, 1))
    } else if s[0] == 1 {
        Ok((true, 1))
    } else {
        Err(DecodeError::InvalidFlag(s[0]))
    }
}

/// Encoding of a payload: its length as two little-endian bytes, then the
/// bytes themselves.
pub open spec fn encode_payload(p: Seq<u8>) -> Seq<u8> {
    seq![(p.len() % 256) as u8, (p.len() / 256) as u8] + p
}

/// Reading a payload: a two-byte little-endian length, then that many bytes.
pub open spec fn parse_payload(s: Seq<u8>) -> Parsed<Seq<u8>> {
    if s.len() < 2 {
        Err(DecodeError::Truncated)
    } else {
        let n = s[0] as nat + 256 * (s[1] as nat);
        if s.len() < 2 + n {
            Err(DecodeError::Truncated)
        } else {
            Ok((s.subrange(2, 2 + n as int), 2 + n))
        }
    }
}

/// Encoding of an optional payload: a presence flag, then the payload if
/// there is one.
pub open spec fn encode_opt_payload(o: Option<Seq<u8>>) -> Seq<u8> {
    match o {
        Some(p) => encode_flag(true) + encode_payload(p),
        None => encode_flag(false),
    }
}

/// Reading an optional payload: a presence flag, then a payload when the
/// flag is set.
pub open spec fn parse_opt_payload(s: Seq<u8>) -> Parsed<Option<Seq<u8>>> {
    match parse_flag(s) {
        Err(e) => Err(e),
        Ok((false, n)) => Ok((None, n)),
        Ok((true, n)) => match parse_payload(s.skip(n as int)) {
            Err(e) => Err(e),
            Ok((p, m)) => Ok((Some(p), n + m)),
        },
    }
}

/// An optional payload fits its length prefix.
pub open spec fn payload_wf(o: Option<Seq<u8>>) -> bool {
    o matches Some(p) ==> p.len() <= MAX_PAYLOAD_LEN
}

/// A field element is read back from its encoding, whatever follows it.
pub proof fn lemma_field_round_trip(f: Seq<u8>, rest: Seq<u8>)
    requires
        f.len() == FIELD_SIZE,
    ensures
        parse_field(encode_field(f) + rest) == Ok::<(Seq<u8>, nat), DecodeError>(
            (f, encode_field(f).len()),
        ),
{
    assert((f + rest).take(FIELD_SIZE as int) =~= f);
}

/// A strict prefix of a field element's encoding is truncated.
pub proof fn lemma_field_prefix(f: Seq<u8>, k: int)
    requires
        f.len() == FIELD_SIZE,
        0 <= k < encode_field(f).len(),
    ensures
        parse_field(encode_field(f).take(k)) == Err::<(Seq<u8>, nat), DecodeError>(
            DecodeError::Truncated,
        ),
{
}

/// A presence flag is read back from its encoding, whatever follows it.
pub proof fn lemma_flag_round_trip(b: bool, rest: Seq<u8>)
    ensures
        parse_flag(encode_flag(b) + rest) == Ok::<(bool, nat), DecodeError>(
            (b, encode_flag(b).len()),
        ),
{
}

/// The two bytes of a length prefix give back the length.
proof fn lemma_length_prefix(n: nat)
    requires
        n <= MAX_PAYLOAD_LEN,
    ensures
        ((n % 256) as u8) as nat + 256 * (((n / 256) as u8) as nat) == n,
{
    assert(n % 256 + 256 * (n / 256) == n) by (nonlinear_arith);
    assert(n / 256 < 256) by (nonlinear_arith)
        requires
            n <= 65535,
    ;
}

/// A payload is read back from its encoding, whatever follows it.
pub proof fn lemma_payload_round_trip(p: Seq<u8>, rest: Seq<u8>)
    requires
        p.len() <= MAX_PAYLOAD_LEN,
    ensures
        parse_payload(encode_payload(p) + rest) == Ok::<(Seq<u8>, nat), DecodeError>(
            (p, encode_payload(p).len()),
        ),
{
    lemma_length_prefix(p.len());
    let s = encode_payload(p) + rest;
    assert(s[0] == (p.len() % 256) as u8 && s[1] == (p.len() / 256) as u8);
    assert(s.subrange(2, 2 + p.len() as int) =~= p);
}

/// A strict prefix of a payload's encoding is truncated.
pub proof fn lemma_payload_prefix(p: Seq<u8>, k: int)
    requires
        p.len() <= MAX_PAYLOAD_LEN,
        0 <= k < encode_payload(p).len(),
    ensures
        parse_payload(encode_payload(p).take(k)) == Err::<(Seq<u8>, nat), DecodeError>(
            DecodeError::Truncated,
        ),
{
    lemma_length_prefix(p.len());
    let s = encode_payload(p).take(k);
    if k >= 2 {
        assert(s[0] == (p.len() % 256) as u8 && s[1] == (p.len() / 256) as u8);
    }
}

/// An optional payload is read back from its encoding, whatever follows it.
pub proof fn lemma_opt_payload_round_trip(o: Option<Seq<u8>>, rest: Seq<u8>)
    requires
        payload_wf(o),
    ensures
        parse_opt_payload(encode_opt_payload(o) + rest) == Ok::<(Option<Seq<u8>>, nat), DecodeError>(
            (o, encode_opt_payload(o).len()),
        ),
{
    match o {
        Some(p) => {
            let s = encode_opt_payload(o) + rest;
            assert(s =~= encode_flag(true) + (encode_payload(p) + rest));
            lemma_flag_round_trip(true, encode_payload(p) + rest);
            assert(s.skip(1) =~= encode_payload(p) + rest);
            lemma_payload_round_trip(p, rest);
        },
        None => {
            lemma_flag_round_trip(false, rest);
        },
    }
}

/// A strict prefix of an optional payload's encoding is truncated.
pub proof fn lemma_opt_payload_prefix(o: Option<Seq<u8>>, k: int)
    requires
        payload_wf(o),
        0 <= k < encode_opt_payload(o).len(),
    ensures
        parse_opt_payload(encode_opt_payload(o).take(k)) == Err::<(Option<Seq<u8>>, nat), DecodeError>(
            DecodeError::Truncated,
        ),
{
    if let Some(p) = o {
        if k >= 1 {
            let s = encode_opt_payload(o).take(k);
            assert(s[0] == 1);
            assert(s.skip(1) =~= encode_payload(p).take(k - 1));
            lemma_payload_prefix(p, k - 1);
        }
    }
}

/// Reads a field element at `pos`; returns it and the position after it.
pub fn read_field(bytes: &[u8], pos: usize) -> (r: Result<(Field, usize), DecodeError>)
    requires
        pos <= bytes@.len(),
    ensures
        match parse_field(bytes@.skip(pos as int)) {
            Ok((v, n)) => r matches Ok((f, p)) && f@ == v && f.wf() && p == pos + n,
            Err(e) => r == Err::<(Field, usize), DecodeError>(e),
        },
{
    if bytes.len() - pos < FIELD_SIZE {
        return Err(DecodeError::Truncated);
    }
    let out = copy_range(bytes, pos, pos + FIELD_SIZE);
    assert(out@ =~= bytes@.skip(pos as int).take(FIELD_SIZE as int));
    Ok((Field { bytes: out }, pos + FIELD_SIZE))
}

/// Reads a presence flag at `pos`; returns it and the position after it.
pub fn read_flag(bytes: &[u8], pos: usize) -> (r: Result<(bool, usize), DecodeError>)
    requires
        pos <= bytes@.len(),
    ensures
        match parse_flag(bytes@.skip(pos as int)) {
            Ok((v, n)) => r matches Ok((b, q)) && b == v && q == pos + n,
            Err(e) => r == Err::<(bool, usize), DecodeError>(e),
        },
{
    if pos >= bytes.len() {
        return Err(DecodeError::Truncated);
    }
    let b = bytes[pos];
    if b == 0 {
        Ok((false, pos + 1))
    } else if b == 1 {
        Ok((true, pos + 1))
    } else {
        Err(DecodeError::InvalidFlag(b))
    }
}

/// Appends the encoding of the flag `b` to `out`.
pub fn write_flag(b: bool, out: &mut Vec<u8>)
    ensures
        final(out)@ == old(out)@ + encode_flag(b),
{
    if b {
        out.push(1u8);
    } else {
        out.push(0u8);
    }
    assert(final(out)@ =~= old(out)@ + encode_flag(b));
}

/// Reads a length-prefixed payload at `pos`; returns its bytes and the
/// position after it.
pub fn read_payload(bytes: &[u8], pos: usize) -> (r: Result<(Vec<u8>, usize), DecodeError>)
    requires
        pos <= bytes@.len(),
    ensures
        match parse_payload(bytes@.skip(pos as int)) {
            Ok((v, n)) => r matches Ok((p, q)) && p@ == v && p@.len() <= MAX_PAYLOAD_LEN
                && q == pos + n,
            Err(e) => r == Err::<(Vec<u8>, usize), DecodeError>(e),
        },
{
    let ghost s = bytes@.skip(pos as int);
    if bytes.len() - pos < 2 {
        return Err(DecodeError::Truncated);
    }
    let n: usize = bytes[pos] as usize + 256 * (bytes[pos + 1] as usize);
    assert(s[0] == bytes@[pos as int] && s[1] == bytes@[pos + 1]);
    if bytes.len() - pos - 2 < n {
        return Err(DecodeError::Truncated);
    }
    let start: usize = pos + 2;
    let out = copy_range(bytes, start, start + n);
    assert(out@ =~= s.subrange(2, 2 + n as int));
    Ok((out, start + n))
}

/// Appends the encoding of the payload `p` to `out`.
pub fn write_payload(p: &Vec<u8>, out: &mut Vec<u8>)
    requires
        p@.len() <= MAX_PAYLOAD_LEN,
    ensures
        final(out)@ == old(out)@ + encode_payload(p@),
{
    let n = p.len();
    out.push((n % 256) as u8);
    out.push((n / 256) as u8);
    append_bytes(p, out);
    assert(final(out)@ =~= old(out)@ + encode_payload(p@));
}

/// Reads an optional payload at `pos`: a presence flag, then the payload
/// when the flag is set.
pub fn read_opt_payload(bytes: &[u8], pos: usize) -> (r: Result<(Option<Vec<u8>>, usize), DecodeError>)
    requires
        pos <= bytes@.len(),
    ensures
        match parse_opt_payload(bytes@.skip(pos as int)) {
            Ok((v, n)) => r matches Ok((o, q)) && q == pos + n && match (o, v) {
                (Some(p), Some(w)) => p@ == w && p@.len() <= MAX_PAYLOAD_LEN,
                (None, None) => true,
                _ => false,
            },
            Err(e) => r == Err::<(Option<Vec<u8>>, usize), DecodeError>(e),
        },
{
    let ghost s = bytes@.skip(pos as int);
    match read_flag(bytes, pos) {
        Err(e) => Err(e),
        Ok((present, q)) => {
            if present {
                assert(s.skip(1) =~= bytes@.skip(q as int));
                match read_payload(bytes, q) {
                    Err(e) => Err(e),
                    Ok((p, q2)) => Ok((Some(p), q2)),
                }
            } else {
                Ok((None, q))
            }
        },
    }
}

/// Copies `bytes[start..end]` into a new vector.
fn copy_range(bytes: &[u8], start: usize, end: usize) -> (r: Vec<u8>)
    requires
        start <= end <= bytes@.len(),
    ensures
        r@ == bytes@.subrange(start as int, end as int),
{
    let mut out: Vec<u8> = Vec::with_capacity(end - start);
    let mut i: usize = start;
    while i < end
        invariant
            start <= i <= end <= bytes@.len(),
            out@ == bytes@.subrange(start as int, i as int),
        decreases end - i,
    {
        out.push(bytes[i]);
        i = i + 1;
        assert(out@ =~= bytes@.subrange(start as int, i as int));
    }
    out
}

/// Appends the encoding of `f` to `out`.
pub fn write_field(f: &Field, out: &mut Vec<u8>)
    ensures
        final(out)@ == old(out)@ + encode_field(f@),
{
    append_bytes(&f.bytes, out);
}

/// Appends every byte of `src` to `out`.
fn append_bytes(src: &Vec<u8>, out: &mut Vec<u8>)
    ensures
        final(out)@ == old(out)@ + src@,
{
    let ghost start = out@;
    let mut i: usize = 0;
    while i < src.len()
        invariant
            i <= src@.len(),
            out@ == start + src@.take(i as int),
        decreases src@.len() - i,
    {
        out.push(src[i]);
        i = i + 1;
        assert(out@ =~= start + src@.take(i as int));
    }
    assert(src@.take(src@.len() as int) =~= src@);
}

} // verus!
