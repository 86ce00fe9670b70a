//! The origin of a consumed record: a commitment or a state root, behind a
//! one-byte tag of its own.
use vstd::prelude::*;

use crate::primitives::{
    encode_field, lemma_field_prefix, lemma_field_round_trip, parse_field, read_field, write_field,
    DecodeError, Field, Parsed,
};

verus! {

/// Tag byte of `Origin::Commitment`.
pub const ORIGIN_COMMITMENT: u8 = 0;

/// Tag byte of `Origin::StateRoot`.
pub const ORIGIN_STATE_ROOT: u8 = 1;

/// Where a consumed record came from.
#[derive(Debug, Clone, PartialEq, Eq)]
pub enum Origin {
    /// A direct commitment to the record.
    Commitment(Field),
    /// A historical state root.
    StateRoot(Field),
}

/// The mathematical value of an `Origin`: its field elements as bytes.
pub enum OriginModel {
    Commitment(Seq<u8>),
    StateRoot(Seq<u8>),
}

impl View for Origin {
    type V = OriginModel;

    open spec fn view(&self) -> OriginModel {
        match self {
            Origin::Commitment(c) => OriginModel::Commitment(c@),
            Origin::StateRoot(r) => OriginModel::StateRoot(r@),
        }
    }
}

impl OriginModel {
    pub open spec fn wf(&self) -> bool {
        match self {
            OriginModel::Commitment(c) => c.len() == crate::primitives::FIELD_SIZE,
            OriginModel::StateRoot(r) => r.len() == crate::primitives::FIELD_SIZE,
        }
    }
}

/// Canonical encoding of an origin: its tag byte, then its field element.
pub open spec fn encode_origin(o: OriginModel) -> Seq<u8> {
    match o {
        OriginModel::Commitment(c) => seq![ORIGIN_COMMITMENT] + encode_field(c),
        OriginModel::StateRoot(r) => seq![ORIGIN_STATE_ROOT] + encode_field(r),
    }
}

/// Decoding of an origin from the front of `s`.
pub open spec fn parse_origin(s: Seq<u8>) -> Parsed<OriginModel> {
    if s.len() < 1 {
        Err(DecodeError::Truncated)
    } else if s[0] == ORIGIN_COMMITMENT || s[0] == ORIGIN_STATE_ROOT {
        match parse_field(s.skip(1)) {
            Err(e) => Err(e),
            Ok((f, n)) => Ok(
                (
                    if s[0] == ORIGIN_COMMITMENT {
                        OriginModel::Commitment(f)
                    } else {
                        OriginModel::StateRoot(f)
                    },
                    1 + n,
                ),
            ),
        }
    } else {
        Err(DecodeError::InvalidOrigin(s[0]))
    }
}

/// An origin is read back from its encoding, whatever follows it.
pub proof fn lemma_origin_round_trip(o: OriginModel, rest: Seq<u8>)
    requires
        o.wf(),
    ensures
        parse_origin(encode_origin(o) + rest) == Ok::<(OriginModel, nat), DecodeError>(
            (o, encode_origin(o).len()),
        ),
{
    let s = encode_origin(o) + rest;
    let f = match o {
        OriginModel::Commitment(c) => c,
        OriginModel::StateRoot(r) => r,
    };
    assert(s.skip(1) =~= encode_field(f) + rest);
    lemma_field_round_trip(f, rest);
}

/// A strict prefix of an origin's encoding is truncated.
pub proof fn lemma_origin_prefix(o: OriginModel, k: int)
    requires
        o.wf(),
        0 <= k < encode_origin(o).len(),
    ensures
        parse_origin(encode_origin(o).take(k)) == Err::<(OriginModel, nat), DecodeError>(
            DecodeError::Truncated,
        ),
{
    if k >= 1 {
        let s = encode_origin(o).take(k);
        let f = match o {
            OriginModel::Commitment(c) => c,
            OriginModel::StateRoot(r) => r,
        };
        assert(s.skip(1) =~= encode_field(f).take(k - 1));
        lemma_field_prefix(f, k - 1);
    }
}

impl Origin {
    pub open spec fn wf(&self) -> bool {
        match self {
            Origin::Commitment(c) => c.wf(),
            Origin::StateRoot(r) => r.wf(),
        }
    }

    /// Reads an origin at `pos`; returns it and the position after it.
    pub fn read_at(bytes: &[u8], pos: usize) -> (r: Result<(Origin, usize), DecodeError>)
        requires
            pos <= bytes@.len(),
        ensures
            match parse_origin(bytes@.skip(pos as int)) {
                Ok((v, n)) => r matches Ok((o, q)) && o@ == v && o.wf() && q == pos + n,
                Err(e) => r == Err::<(Origin, usize), DecodeError>(e),
            },
    {
        let ghost s = bytes@.skip(pos as int);
        if pos >= bytes.len() {
            return Err(DecodeError::Truncated);
        }
        let tag = bytes[pos];
        if tag != ORIGIN_COMMITMENT && tag != ORIGIN_STATE_ROOT {
            return Err(DecodeError::InvalidOrigin(tag));
        }
        assert(s.skip(1) =~= bytes@.skip(pos + 1));
        match read_field(bytes, pos + 1) {
            Err(e) => Err(e),
            Ok((f, q)) => {
                if tag == ORIGIN_COMMITMENT {
                    Ok((Origin::Commitment(f), q))
                } else {
                    Ok((Origin::StateRoot(f), q))
                }
            },
        }
    }

    /// Appends the canonical encoding of this origin to `out`.
    pub fn write_le(&self, out: &mut Vec<u8>)
        ensures
            final(out)@ == old(out)@ + encode_origin(self@),
    {
        match self {
            Origin::Commitment(c) => {
                out.push(ORIGIN_COMMITMENT);
                write_field(c, out);
            },
            Origin::StateRoot(r) => {
                out.push(ORIGIN_STATE_ROOT);
                write_field(r, out);
            },
        }
        assert(final(out)@ =~= old(out)@ + encode_origin(self@));
    }
}

} // verus!
