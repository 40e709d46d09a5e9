//! Statements about parachain candidates and their encoding.
use vstd::prelude::*;
use crate::codec::{
    Input, decode_h256, enc_h256, encode_h256, is_codec, is_h256, lemma_codec_prefix_fails,
    lemma_h256_round_trip, lemma_skip_concat, lemma_take_step, parse_h256,
};
use crate::parachain;
use crate::receipt::{
    CandidateReceipt, CandidateReceiptView, enc_receipt, parse_receipt, wf_receipt, lemma_receipt_round_trip,
    lemma_receipt_sound,
};

verus! {

// ---------------------------------------------------------------------------
// Statements about parachain candidates.
// ---------------------------------------------------------------------------

/// Statements which can be made about parachain candidates.
#[derive(Clone, PartialEq, Eq, Debug)]
pub enum Statement {
    /// Proposal of a parachain candidate.
    Candidate(CandidateReceipt),
    /// State that a parachain candidate is valid.
    Valid(parachain::Hash),
    /// Vote to commit to a candidate.
    Invalid(parachain::Hash),
    /// Vote to advance round after inactive primary.
    Available(parachain::Hash),
}

/// The value a `Statement` holds.
pub enum StatementView {
    Candidate(CandidateReceiptView),
    Valid(Seq<u8>),
    Invalid(Seq<u8>),
    Available(Seq<u8>),
}

impl View for Statement {
    type V = StatementView;

    open spec fn view(&self) -> StatementView {
        match self {
            Statement::Candidate(r) => StatementView::Candidate(r@),
            Statement::Valid(h) => StatementView::Valid(h@),
            Statement::Invalid(h) => StatementView::Invalid(h@),
            Statement::Available(h) => StatementView::Available(h@),
        }
    }
}

/// Discriminant byte of `Statement::Candidate`.
pub const STATEMENT_CANDIDATE: u8 = 1;

/// Discriminant byte of `Statement::Valid`.
pub const STATEMENT_VALID: u8 = 2;

/// Discriminant byte of `Statement::Invalid`.
pub const STATEMENT_INVALID: u8 = 3;

/// Discriminant byte of `Statement::Available`.
pub const STATEMENT_AVAILABLE: u8 = 4;

pub open spec fn enc_statement(v: StatementView) -> Seq<u8> {
    match v {
        StatementView::Candidate(r) => seq![STATEMENT_CANDIDATE] + enc_receipt(r),
        StatementView::Valid(h) => seq![STATEMENT_VALID] + enc_h256(h),
        StatementView::Invalid(h) => seq![STATEMENT_INVALID] + enc_h256(h),
        StatementView::Available(h) => seq![STATEMENT_AVAILABLE] + enc_h256(h),
    }
}

pub open spec fn parse_statement(s: Seq<u8>) -> Option<(StatementView, nat)> {
    if s.len() == 0 {
        None
    } else if s[0] == STATEMENT_CANDIDATE {
        match parse_receipt(s.skip(1)) {
            Some((r, k)) => Some((StatementView::Candidate(r), 1 + k)),
            None => None,
        }
    } else if s[0] == STATEMENT_VALID || s[0] == STATEMENT_INVALID || s[0] == STATEMENT_AVAILABLE {
        match parse_h256(s.skip(1)) {
            Some((h, k)) => Some((
                if s[0] == STATEMENT_VALID {
                    StatementView::Valid(h)
                } else if s[0] == STATEMENT_INVALID {
                    StatementView::Invalid(h)
                } else {
                    StatementView::Available(h)
                },
                1 + k,
            )),
            None => None,
        }
    } else {
        None
    }
}

pub open spec fn wf_statement(v: StatementView) -> bool {
    match v {
        StatementView::Candidate(r) => wf_receipt(r),
        StatementView::Valid(h) => is_h256(h),
        StatementView::Invalid(h) => is_h256(h),
        StatementView::Available(h) => is_h256(h),
    }
}

pub open spec fn statement_enc() -> spec_fn(StatementView) -> Seq<u8> {
    |v: StatementView| enc_statement(v)
}

pub open spec fn statement_parse() -> spec_fn(Seq<u8>) -> Option<(StatementView, nat)> {
    |s: Seq<u8>| parse_statement(s)
}

pub open spec fn statement_wf() -> spec_fn(StatementView) -> bool {
    |v: StatementView| wf_statement(v)
}

proof fn lemma_statement_round_trip(v: StatementView, rest: Seq<u8>)
    requires
        wf_statement(v),
    ensures
        parse_statement(enc_statement(v) + rest) == Some((v, enc_statement(v).len())),
{
    let s = enc_statement(v) + rest;
    match v {
        StatementView::Candidate(r) => {
            lemma_skip_concat(seq![STATEMENT_CANDIDATE], enc_receipt(r) + rest);
            assert(s =~= seq![STATEMENT_CANDIDATE] + (enc_receipt(r) + rest));
            lemma_receipt_round_trip(r, rest);
        },
        StatementView::Valid(h) => {
            assert(s.skip(1) =~= h + rest);
            lemma_h256_round_trip(h, rest);
        },
        StatementView::Invalid(h) => {
            assert(s.skip(1) =~= h + rest);
            lemma_h256_round_trip(h, rest);
        },
        StatementView::Available(h) => {
            assert(s.skip(1) =~= h + rest);
            lemma_h256_round_trip(h, rest);
        },
    }
}

proof fn lemma_statement_sound(s: Seq<u8>)
    ensures
        parse_statement(s) is Some ==> {
            let (x, k) = parse_statement(s)->Some_0;
            &&& k <= s.len()
            &&& s.take(k as int) == enc_statement(x)
            &&& wf_statement(x)
        },
{
    if parse_statement(s) is Some {
        let k = parse_statement(s)->Some_0.1;
        if s[0] == STATEMENT_CANDIDATE {
            lemma_receipt_sound(s.skip(1));
        }
        lemma_take_step(s, 1, k - 1);
        assert(s.take(1) =~= seq![s[0]]);
    }
}

/// Every encodable `Statement` reads back from its encoding, and whatever reads
/// as a `Statement` is the encoding of the value read.
pub proof fn lemma_statement_codec()
    ensures
        is_codec(statement_enc(), statement_parse(), statement_wf()),
{
    assert forall|x: StatementView, rest: Seq<u8>| statement_wf()(x) implies #[trigger] statement_parse()(
        statement_enc()(x) + rest) == Some((x, statement_enc()(x).len())) by {
        lemma_statement_round_trip(x, rest);
    }
    assert forall|s: Seq<u8>| #[trigger] statement_parse()(s) is Some implies {
        let (x, k) = statement_parse()(s)->Some_0;
        &&& k <= s.len()
        &&& s.take(k as int) == statement_enc()(x)
        &&& statement_wf()(x)
    } by {
        lemma_statement_sound(s);
    }
}

/// A `Statement` whose first byte is no known discriminant does not decode;
/// in particular zero is none.
pub proof fn lemma_statement_unknown_discriminant(s: Seq<u8>)
    requires
        s.len() > 0,
        s[0] < STATEMENT_CANDIDATE || s[0] > STATEMENT_AVAILABLE,
    ensures
        parse_statement(s) is None,
{
}

/// No strict prefix of a `Statement`'s encoding decodes.
pub proof fn lemma_statement_truncated(v: StatementView, n: int)
    requires
        wf_statement(v),
        0 <= n < enc_statement(v).len(),
    ensures
        parse_statement(enc_statement(v).take(n)) is None,
{
    lemma_statement_codec();
    lemma_codec_prefix_fails(statement_enc(), statement_parse(), statement_wf(), v, n);
}

/// A statement that a candidate is valid reads back as that statement, and its
/// bytes differ from those of the statement that the same candidate is invalid.
pub proof fn lemma_valid_not_invalid(h: Seq<u8>)
    requires
        is_h256(h),
    ensures
        parse_statement(enc_statement(StatementView::Valid(h))) == Some((StatementView::Valid(h), 33nat)),
        enc_statement(StatementView::Valid(h)) != enc_statement(StatementView::Invalid(h)),
{
    lemma_statement_round_trip(StatementView::Valid(h), Seq::empty());
    assert(enc_statement(StatementView::Valid(h)) + Seq::<u8>::empty() =~= enc_statement(StatementView::Valid(h)));
    assert(enc_statement(StatementView::Valid(h))[0] != enc_statement(StatementView::Invalid(h))[0]);
}

impl Statement {
    /// The statement can be encoded: a candidate in it can.
    pub open spec fn encodable(&self) -> bool {
        match self {
            Statement::Candidate(r) => r.encodable(),
            _ => true,
        }
    }

    pub fn encode_to(&self, out: &mut Vec<u8>)
        requires
            self.encodable(),
        ensures
            final(out)@ == old(out)@ + enc_statement(self@),
    {
        match self {
            Statement::Candidate(r) => {
                out.push(STATEMENT_CANDIDATE);
                r.encode_to(out);
            },
            Statement::Valid(h) => {
                out.push(STATEMENT_VALID);
                encode_h256(h, out);
            },
            Statement::Invalid(h) => {
                out.push(STATEMENT_INVALID);
                encode_h256(h, out);
            },
            Statement::Available(h) => {
                out.push(STATEMENT_AVAILABLE);
                encode_h256(h, out);
            },
        }
        assert(out@ =~= old(out)@ + enc_statement(self@));
    }

    pub fn encode(&self) -> (r: Vec<u8>)
        requires
            self.encodable(),
        ensures
            r@ == enc_statement(self@),
    {
        let mut v: Vec<u8> = Vec::new();
        self.encode_to(&mut v);
        assert(v@ =~= enc_statement(self@));
        v
    }

    pub fn decode(input: &mut Input) -> (r: Option<Statement>)
        ensures
            match parse_statement(old(input).rest()) {
                Some((v, k)) => r is Some && r->Some_0@ == v && final(input).rest() == old(input).rest().skip(k as int),
                None => r is None,
            },
    {
        let ghost s = input.rest();
        let disc = input.read_byte()?;
        if disc == STATEMENT_CANDIDATE {
            let r = CandidateReceipt::decode(input)?;
            proof {
                let k = parse_receipt(s.skip(1))->Some_0.1;
                lemma_receipt_sound(s.skip(1));
                lemma_take_step(s, 1, k as int);
            }
            Some(Statement::Candidate(r))
        } else if disc == STATEMENT_VALID || disc == STATEMENT_INVALID || disc == STATEMENT_AVAILABLE {
            let h = decode_h256(input)?;
            proof { lemma_take_step(s, 1, 32); }
            if disc == STATEMENT_VALID {
                Some(Statement::Valid(h))
            } else if disc == STATEMENT_INVALID {
                Some(Statement::Invalid(h))
            } else {
                Some(Statement::Available(h))
            }
        } else {
            None
        }
    }
}


} // verus!
