//! The transition input and its canonical encoding: a variant tag byte, then
//! the variant's fields in order.
use vstd::prelude::*;

use crate::origin::{
    encode_origin, lemma_origin_prefix, lemma_origin_round_trip, parse_origin, Origin, OriginModel,
    ORIGIN_STATE_ROOT,
};
use crate::primitives::{
    encode_field, encode_opt_payload, lemma_field_prefix, lemma_field_round_trip,
    lemma_opt_payload_prefix, lemma_opt_payload_round_trip, parse_field, parse_opt_payload, read_field,
    read_opt_payload, write_field, write_flag, write_payload, Ciphertext, DecodeError, Field,
    Parsed, Plaintext, payload_wf, FIELD_SIZE, MAX_PAYLOAD_LEN,
};

verus! {

/// Tag byte of `Input::Constant`.
pub const TAG_CONSTANT: u8 = 0;

/// Tag byte of `Input::Public`.
pub const TAG_PUBLIC: u8 = 1;

/// Tag byte of `Input::Private`.
pub const TAG_PRIVATE: u8 = 2;

/// Tag byte of `Input::Record`.
pub const TAG_RECORD: u8 = 3;

/// Tag byte of `Input::ExternalRecord`.
pub const TAG_EXTERNAL_RECORD: u8 = 4;

/// One input to a step of a ledger transaction.
#[derive(Debug, Clone, PartialEq, Eq)]
pub enum Input {
    /// A constant value: its hash, and the plaintext if it is disclosed.
    Constant(Field, Option<Plaintext>),
    /// A public value: its hash, and the plaintext if it is disclosed.
    Public(Field, Option<Plaintext>),
    /// A private value: its hash, and the ciphertext if it is disclosed.
    Private(Field, Option<Ciphertext>),
    /// A consumed record: serial number, tag and origin.
    Record(Field, Field, Origin),
    /// A record held elsewhere, known by its commitment.
    ExternalRecord(Field),
}

/// The mathematical value of an `Input`: field elements and payloads as bytes.
pub enum InputModel {
    Constant(Seq<u8>, Option<Seq<u8>>),
    Public(Seq<u8>, Option<Seq<u8>>),
    Private(Seq<u8>, Option<Seq<u8>>),
    Record(Seq<u8>, Seq<u8>, OriginModel),
    ExternalRecord(Seq<u8>),
}

pub open spec fn plaintext_view(o: Option<Plaintext>) -> Option<Seq<u8>> {
    match o {
        Some(p) => Some(p@),
        None => None,
    }
}

pub open spec fn ciphertext_view(o: Option<Ciphertext>) -> Option<Seq<u8>> {
    match o {
        Some(c) => Some(c@),
        None => None,
    }
}

impl View for Input {
    type V = InputModel;

    open spec fn view(&self) -> InputModel {
        match self {
            Input::Constant(h, p) => InputModel::Constant(h@, plaintext_view(*p)),
            Input::Public(h, p) => InputModel::Public(h@, plaintext_view(*p)),
            Input::Private(h, c) => InputModel::Private(h@, ciphertext_view(*c)),
            Input::Record(sn, t, o) => InputModel::Record(sn@, t@, o@),
            Input::ExternalRecord(c) => InputModel::ExternalRecord(c@),
        }
    }
}

impl InputModel {
    /// Every field element has `FIELD_SIZE` bytes and every payload fits its
    /// length prefix.
    pub open spec fn wf(&self) -> bool {
        match self {
            InputModel::Constant(h, p) => h.len() == FIELD_SIZE && payload_wf(*p),
            InputModel::Public(h, p) => h.len() == FIELD_SIZE && payload_wf(*p),
            InputModel::Private(h, c) => h.len() == FIELD_SIZE && payload_wf(*c),
            InputModel::Record(sn, t, o) => sn.len() == FIELD_SIZE && t.len() == FIELD_SIZE
                && o.wf(),
            InputModel::ExternalRecord(c) => c.len() == FIELD_SIZE,
        }
    }

    /// The tag byte that the encoding of this variant starts with.
    pub open spec fn tag(&self) -> u8 {
        match self {
            InputModel::Constant(..) => TAG_CONSTANT,
            InputModel::Public(..) => TAG_PUBLIC,
            InputModel::Private(..) => TAG_PRIVATE,
            InputModel::Record(..) => TAG_RECORD,
            InputModel::ExternalRecord(..) => TAG_EXTERNAL_RECORD,
        }
    }
}

/// Canonical encoding of an input.
pub open spec fn encode_input(v: InputModel) -> Seq<u8> {
    match v {
        InputModel::Constant(h, p) => seq![TAG_CONSTANT] + encode_field(h) + encode_opt_payload(p),
        InputModel::Public(h, p) => seq![TAG_PUBLIC] + encode_field(h) + encode_opt_payload(p),
        InputModel::Private(h, c) => seq![TAG_PRIVATE] + encode_field(h) + encode_opt_payload(c),
        InputModel::Record(sn, t, o) => seq![TAG_RECORD] + encode_field(sn) + encode_field(t)
            + encode_origin(o),
        InputModel::ExternalRecord(c) => seq![TAG_EXTERNAL_RECORD] + encode_field(c),
    }
}

/// The input variant with tag `tag` (one of the first three) built from a
/// hash and an optional payload.
pub open spec fn hashed_variant(tag: u8, h: Seq<u8>, p: Option<Seq<u8>>) -> InputModel {
    if tag == TAG_CONSTANT {
        InputModel::Constant(h, p)
    } else if tag == TAG_PUBLIC {
        InputModel::Public(h, p)
    } else {
        InputModel::Private(h, p)
    }
}

/// Decoding of an input from the front of `s`: the value and the number of
/// bytes it took, or the first failure met. Bytes after the value are not
/// looked at.
pub open spec fn parse_input(s: Seq<u8>) -> Parsed<InputModel> {
    if s.len() < 1 {
        Err(DecodeError::Truncated)
    } else {
        let tag = s[0];
        if tag <= TAG_PRIVATE {
            match parse_field(s.skip(1)) {
                Err(e) => Err(e),
                Ok((h, n)) => match parse_opt_payload(s.skip(1 + n as int)) {
                    Err(e) => Err(e),
                    Ok((p, m)) => Ok((hashed_variant(tag, h, p), 1 + n + m)),
                },
            }
        } else if tag == TAG_RECORD {
            match parse_field(s.skip(1)) {
                Err(e) => Err(e),
                Ok((sn, n)) => match parse_field(s.skip(1 + n as int)) {
                    Err(e) => Err(e),
                    Ok((t, m)) => match parse_origin(s.skip(1 + n as int + m as int)) {
                        Err(e) => Err(e),
                        Ok((o, k)) => Ok((InputModel::Record(sn, t, o), 1 + n + m + k)),
                    },
                },
            }
        } else if tag == TAG_EXTERNAL_RECORD {
            match parse_field(s.skip(1)) {
                Err(e) => Err(e),
                Ok((c, n)) => Ok((InputModel::ExternalRecord(c), 1 + n)),
            }
        } else {
            Err(DecodeError::InvalidVariant(tag))
        }
    }
}

proof fn lemma_hashed_round_trip(tag: u8, h: Seq<u8>, p: Option<Seq<u8>>, rest: Seq<u8>)
    requires
        tag <= TAG_PRIVATE,
        hashed_variant(tag, h, p).wf(),
    ensures
        parse_input(encode_input(hashed_variant(tag, h, p)) + rest) == Ok::<
            (InputModel, nat),
            DecodeError,
        >((hashed_variant(tag, h, p), encode_input(hashed_variant(tag, h, p)).len())),
{
    let e = seq![tag] + encode_field(h) + encode_opt_payload(p);
    assert(encode_input(hashed_variant(tag, h, p)) == e);
    let s = e + rest;
    assert(s[0] == tag);
    assert(s.skip(1) =~= encode_field(h) + (encode_opt_payload(p) + rest));
    lemma_field_round_trip(h, encode_opt_payload(p) + rest);
    assert(s.skip(1 + FIELD_SIZE) =~= encode_opt_payload(p) + rest);
    lemma_opt_payload_round_trip(p, rest);
}

proof fn lemma_hashed_prefix(tag: u8, h: Seq<u8>, p: Option<Seq<u8>>, k: int)
    requires
        tag <= TAG_PRIVATE,
        hashed_variant(tag, h, p).wf(),
        0 <= k < encode_input(hashed_variant(tag, h, p)).len(),
    ensures
        parse_input(encode_input(hashed_variant(tag, h, p)).take(k)) == Err::<
            (InputModel, nat),
            DecodeError,
        >(DecodeError::Truncated),
{
    let e = seq![tag] + encode_field(h) + encode_opt_payload(p);
    assert(encode_input(hashed_variant(tag, h, p)) == e);
    let s = e.take(k);
    if k >= 1 {
        assert(s[0] == tag);
        if k - 1 < FIELD_SIZE {
            assert(s.skip(1) =~= encode_field(h).take(k - 1));
            lemma_field_prefix(h, k - 1);
        } else {
            let tail = encode_opt_payload(p).take(k - 1 - FIELD_SIZE);
            assert(s.skip(1) =~= encode_field(h) + tail);
            lemma_field_round_trip(h, tail);
            assert(s.skip(1 + FIELD_SIZE) =~= tail);
            lemma_opt_payload_prefix(p, k - 1 - FIELD_SIZE);
        }
    }
}

/// Decoding the encoding of a well-formed input gives that input back and
/// consumes exactly its encoding, whatever bytes follow it.
pub proof fn lemma_round_trip(v: InputModel, rest: Seq<u8>)
    requires
        v.wf(),
    ensures
        parse_input(encode_input(v) + rest) == Ok::<(InputModel, nat), DecodeError>(
            (v, encode_input(v).len()),
        ),
{
    match v {
        InputModel::Constant(h, p) => {
            assert(v == hashed_variant(TAG_CONSTANT, h, p));
            lemma_hashed_round_trip(TAG_CONSTANT, h, p, rest);
        },
        InputModel::Public(h, p) => {
            assert(v == hashed_variant(TAG_PUBLIC, h, p));
            lemma_hashed_round_trip(TAG_PUBLIC, h, p, rest);
        },
        InputModel::Private(h, c) => {
            assert(v == hashed_variant(TAG_PRIVATE, h, c));
            lemma_hashed_round_trip(TAG_PRIVATE, h, c, rest);
        },
        InputModel::Record(sn, t, o) => {
            let s = encode_input(v) + rest;
            let after_sn = encode_field(t) + encode_origin(o) + rest;
            assert(s.skip(1) =~= encode_field(sn) + after_sn);
            lemma_field_round_trip(sn, after_sn);
            assert(s.skip(1 + FIELD_SIZE) =~= encode_field(t) + (encode_origin(o) + rest));
            lemma_field_round_trip(t, encode_origin(o) + rest);
            assert(s.skip(1 + FIELD_SIZE + FIELD_SIZE) =~= encode_origin(o) + rest);
            lemma_origin_round_trip(o, rest);
        },
        InputModel::ExternalRecord(c) => {
            let s = encode_input(v) + rest;
            assert(s.skip(1) =~= encode_field(c) + rest);
            lemma_field_round_trip(c, rest);
        },
    }
}

/// Every strict prefix of the encoding of a well-formed input fails to
/// decode as truncated: never as another value, never as a bad tag.
pub proof fn lemma_prefix_rejected(v: InputModel, k: int)
    requires
        v.wf(),
        0 <= k < encode_input(v).len(),
    ensures
        parse_input(encode_input(v).take(k)) == Err::<(InputModel, nat), DecodeError>(
            DecodeError::Truncated,
        ),
{
    match v {
        InputModel::Constant(h, p) => {
            assert(v == hashed_variant(TAG_CONSTANT, h, p));
            lemma_hashed_prefix(TAG_CONSTANT, h, p, k);
        },
        InputModel::Public(h, p) => {
            assert(v == hashed_variant(TAG_PUBLIC, h, p));
            lemma_hashed_prefix(TAG_PUBLIC, h, p, k);
        },
        InputModel::Private(h, c) => {
            assert(v == hashed_variant(TAG_PRIVATE, h, c));
            lemma_hashed_prefix(TAG_PRIVATE, h, c, k);
        },
        InputModel::Record(sn, t, o) => {
            let s = encode_input(v).take(k);
            if k >= 1 {
                assert(s[0] == TAG_RECORD);
                if k - 1 < FIELD_SIZE {
                    assert(s.skip(1) =~= encode_field(sn).take(k - 1));
                    lemma_field_prefix(sn, k - 1);
                } else if k - 1 - FIELD_SIZE < FIELD_SIZE {
                    let tail = encode_field(t).take(k - 1 - FIELD_SIZE);
                    assert(s.skip(1) =~= encode_field(sn) + tail);
                    lemma_field_round_trip(sn, tail);
                    assert(s.skip(1 + FIELD_SIZE) =~= tail);
                    lemma_field_prefix(t, k - 1 - FIELD_SIZE);
                } else {
                    let tail = encode_origin(o).take(k - 1 - 2 * FIELD_SIZE);
                    assert(s.skip(1) =~= encode_field(sn) + (encode_field(t) + tail));
                    lemma_field_round_trip(sn, encode_field(t) + tail);
                    assert(s.skip(1 + FIELD_SIZE) =~= encode_field(t) + tail);
                    lemma_field_round_trip(t, tail);
                    assert(s.skip(1 + FIELD_SIZE + FIELD_SIZE) =~= tail);
                    lemma_origin_prefix(o, k - 1 - 2 * FIELD_SIZE);
                }
            }
        },
        InputModel::ExternalRecord(c) => {
            let s = encode_input(v).take(k);
            if k >= 1 {
                assert(s.skip(1) =~= encode_field(c).take(k - 1));
                lemma_field_prefix(c, k - 1);
            }
        },
    }
}

/// Decoding the encoding of a well-formed input yields the variant it was
/// encoded from: the encoding starts with that variant's tag, and so does
/// the decoded value.
pub proof fn lemma_tag_fidelity(v: InputModel)
    requires
        v.wf(),
    ensures
        encode_input(v)[0] == v.tag(),
        parse_input(encode_input(v)) matches Ok((w, _)) && w.tag() == v.tag(),
{
    lemma_round_trip(v, seq![]);
    assert(encode_input(v) + seq![] =~= encode_input(v));
}

/// A leading tag above the last variant's is rejected as an invalid
/// variant, whatever follows it.
pub proof fn lemma_invalid_variant_rejected(s: Seq<u8>)
    requires
        s.len() >= 1,
        s[0] > TAG_EXTERNAL_RECORD,
    ensures
        parse_input(s) == Err::<(InputModel, nat), DecodeError>(DecodeError::InvalidVariant(s[0])),
{
}

/// Behind a record tag and two field elements, an origin tag above the last
/// origin variant's is rejected as an invalid origin.
pub proof fn lemma_invalid_origin_rejected(s: Seq<u8>)
    requires
        s.len() > 1 + 2 * FIELD_SIZE,
        s[0] == TAG_RECORD,
        s[1 + 2 * FIELD_SIZE] > ORIGIN_STATE_ROOT,
    ensures
        parse_input(s) == Err::<(InputModel, nat), DecodeError>(
            DecodeError::InvalidOrigin(s[1 + 2 * FIELD_SIZE]),
        ),
{
    assert(s.skip(1 + FIELD_SIZE + FIELD_SIZE)[0] == s[1 + 2 * FIELD_SIZE]);
}

/// For the variants with an optional payload, leaving the payload out gives
/// a strictly shorter encoding than putting it in, and each encoding
/// decodes back with the payload absent or present as it was.
pub proof fn lemma_payload_presence(tag: u8, h: Seq<u8>, p: Seq<u8>)
    requires
        tag <= TAG_PRIVATE,
        h.len() == FIELD_SIZE,
        p.len() <= MAX_PAYLOAD_LEN,
    ensures
        encode_input(hashed_variant(tag, h, None)).len() < encode_input(
            hashed_variant(tag, h, Some(p)),
        ).len(),
        parse_input(encode_input(hashed_variant(tag, h, None))) matches Ok((w, _)) && w
            == hashed_variant(tag, h, None),
        parse_input(encode_input(hashed_variant(tag, h, Some(p)))) matches Ok((w, _)) && w
            == hashed_variant(tag, h, Some(p)),
{
    let absent = hashed_variant(tag, h, None);
    let present = hashed_variant(tag, h, Some(p));
    assert(encode_input(absent) == seq![tag] + encode_field(h) + encode_opt_payload(None));
    assert(encode_input(present) == seq![tag] + encode_field(h) + encode_opt_payload(Some(p)));
    lemma_round_trip(absent, seq![]);
    assert(encode_input(absent) + seq![] =~= encode_input(absent));
    lemma_round_trip(present, seq![]);
    assert(encode_input(present) + seq![] =~= encode_input(present));
}

impl Input {
    pub open spec fn wf(&self) -> bool {
        self@.wf()
    }

    /// Reads an input at `pos`; returns it and the position after it.
    pub fn read_at(bytes: &[u8], pos: usize) -> (r: Result<(Input, usize), DecodeError>)
        requires
            pos <= bytes@.len(),
        ensures
            match parse_input(bytes@.skip(pos as int)) {
                Ok((v, n)) => r matches Ok((x, q)) && x@ == v && x.wf() && q == pos + n,
                Err(e) => r == Err::<(Input, usize), DecodeError>(e),
            },
    {
        let ghost s = bytes@.skip(pos as int);
        if pos >= bytes.len() {
            return Err(DecodeError::Truncated);
        }
        let tag = bytes[pos];
        assert(s.skip(1) =~= bytes@.skip(pos + 1));
        if tag <= TAG_PRIVATE {
            let (h, q) = match read_field(bytes, pos + 1) {
                Err(e) => return Err(e),
                Ok(x) => x,
            };
            assert(s.skip(q - pos) =~= bytes@.skip(q as int));
            let (p, q2) = match read_opt_payload(bytes, q) {
                Err(e) => return Err(e),
                Ok(x) => x,
            };
            let v = if tag == TAG_CONSTANT {
                Input::Constant(h, wrap_plaintext(p))
            } else if tag == TAG_PUBLIC {
                Input::Public(h, wrap_plaintext(p))
            } else {
                Input::Private(h, wrap_ciphertext(p))
            };
            Ok((v, q2))
        } else if tag == TAG_RECORD {
            let (sn, q) = match read_field(bytes, pos + 1) {
                Err(e) => return Err(e),
                Ok(x) => x,
            };
            assert(s.skip(q - pos) =~= bytes@.skip(q as int));
            let (t, q2) = match read_field(bytes, q) {
                Err(e) => return Err(e),
                Ok(x) => x,
            };
            assert(s.skip(q2 - pos) =~= bytes@.skip(q2 as int));
            let (o, q3) = match Origin::read_at(bytes, q2) {
                Err(e) => return Err(e),
                Ok(x) => x,
            };
            Ok((Input::Record(sn, t, o), q3))
        } else if tag == TAG_EXTERNAL_RECORD {
            let (c, q) = match read_field(bytes, pos + 1) {
                Err(e) => return Err(e),
                Ok(x) => x,
            };
            Ok((Input::ExternalRecord(c), q))
        } else {
            Err(DecodeError::InvalidVariant(tag))
        }
    }

    /// Decodes an input from the front of `bytes`. Bytes after the input
    /// are left unread.
    pub fn read_le(bytes: &[u8]) -> (r: Result<Input, DecodeError>)
        ensures
            match parse_input(bytes@) {
                Ok((v, n)) => r matches Ok(x) && x@ == v && x.wf(),
                Err(e) => r == Err::<Input, DecodeError>(e),
            },
    {
        assert(bytes@.skip(0) =~= bytes@);
        match Input::read_at(bytes, 0) {
            Ok((x, _)) => Ok(x),
            Err(e) => Err(e),
        }
    }

    /// Appends the canonical encoding of this input to `out`.
    pub fn write_le(&self, out: &mut Vec<u8>)
        requires
            self.wf(),
        ensures
            final(out)@ == old(out)@ + encode_input(self@),
    {
        match self {
            Input::Constant(h, p) => {
                out.push(TAG_CONSTANT);
                write_field(h, out);
                match p {
                    Some(p) => {
                        write_flag(true, out);
                        write_payload(&p.bytes, out);
                    },
                    None => write_flag(false, out),
                }
            },
            Input::Public(h, p) => {
                out.push(TAG_PUBLIC);
                write_field(h, out);
                match p {
                    Some(p) => {
                        write_flag(true, out);
                        write_payload(&p.bytes, out);
                    },
                    None => write_flag(false, out),
                }
            },
            Input::Private(h, c) => {
                out.push(TAG_PRIVATE);
                write_field(h, out);
                match c {
                    Some(c) => {
                        write_flag(true, out);
                        write_payload(&c.bytes, out);
                    },
                    None => write_flag(false, out),
                }
            },
            Input::Record(sn, t, o) => {
                out.push(TAG_RECORD);
                write_field(sn, out);
                write_field(t, out);
                o.write_le(out);
            },
            Input::ExternalRecord(c) => {
                out.push(TAG_EXTERNAL_RECORD);
                write_field(c, out);
            },
        }
        assert(final(out)@ =~= old(out)@ + encode_input(self@));
    }

    /// The canonical encoding of this input.
    pub fn to_bytes_le(&self) -> (r: Vec<u8>)
        requires
            self.wf(),
        ensures
            r@ == encode_input(self@),
    {
        let mut out: Vec<u8> = Vec::new();
        self.write_le(&mut out);
        assert(out@ =~= encode_input(self@));
        out
    }
}

fn wrap_plaintext(p: Option<Vec<u8>>) -> (r: Option<Plaintext>)
    ensures
        plaintext_view(r) == match p {
            Some(b) => Some(b@),
            None => None::<Seq<u8>>,
        },
{
    match p {
        Some(bytes) => Some(Plaintext { bytes }),
        None => None,
    }
}

fn wrap_ciphertext(p: Option<Vec<u8>>) -> (r: Option<Ciphertext>)
    ensures
        ciphertext_view(r) == match p {
            Some(b) => Some(b@),
            None => None::<Seq<u8>>,
        },
{
    match p {
        Some(bytes) => Some(Ciphertext { bytes }),
        None => None,
    }
}

} // verus!
