//! Candidate receipts: their encoding, their canonical order and their hash.
use vstd::prelude::*;
use core::cmp::Ordering;
use crate::codec::{
    Input, decode_bytes, decode_h256, decode_u32, decode_u64, enc_elems, enc_h256, enc_seq, enc_u32, enc_u64,
    encode_bytes, encode_h256, encode_u32, encode_u64, is_codec, is_h256, lemma_codec_prefix_fails,
    lemma_elems_fail_more, lemma_h256_round_trip, lemma_seq_codec, lemma_skip_concat, lemma_take_step,
    lemma_u32_round_trip, lemma_u32_sound, lemma_u64_round_trip, lemma_u64_sound, lemma_u8_codec, parse_elems,
    parse_h256, parse_seq, parse_u32, parse_u64, seq_enc, seq_parse, seq_wf, u8_enc, u8_parse, u8_wf, wf_seq,
};
use crate::parachain;
use crate::parachain::{
    Id, HeadData, AccountId, enc_id, parse_id,
};

verus! {

// ---------------------------------------------------------------------------
// Balance uploads: an account id and an amount.
// ---------------------------------------------------------------------------

pub open spec fn enc_upload(x: (Seq<u8>, u64)) -> Seq<u8> {
    enc_h256(x.0) + enc_u64(x.1)
}

pub open spec fn parse_upload(s: Seq<u8>) -> Option<((Seq<u8>, u64), nat)> {
    match parse_h256(s) {
        Some((a, k)) => match parse_u64(s.skip(k as int)) {
            Some((v, m)) => Some(((a, v), k + m)),
            None => None,
        },
        None => None,
    }
}

pub open spec fn wf_upload(x: (Seq<u8>, u64)) -> bool {
    is_h256(x.0)
}

pub open spec fn upload_enc() -> spec_fn((Seq<u8>, u64)) -> Seq<u8> {
    |x: (Seq<u8>, u64)| enc_upload(x)
}

pub open spec fn upload_parse() -> spec_fn(Seq<u8>) -> Option<((Seq<u8>, u64), nat)> {
    |s: Seq<u8>| parse_upload(s)
}

pub open spec fn upload_wf() -> spec_fn((Seq<u8>, u64)) -> bool {
    |x: (Seq<u8>, u64)| wf_upload(x)
}

pub open spec fn uploads_view(v: Seq<(AccountId, u64)>) -> Seq<(Seq<u8>, u64)> {
    v.map_values(|x: (AccountId, u64)| (x.0@, x.1))
}

proof fn lemma_upload_codec()
    ensures
        is_codec(upload_enc(), upload_parse(), upload_wf()),
{
    assert forall|x: (Seq<u8>, u64), rest: Seq<u8>| upload_wf()(x) implies #[trigger] upload_parse()(upload_enc()(x) + rest)
        == Some((x, upload_enc()(x).len())) by {
        let s = enc_upload(x) + rest;
        assert(s =~= x.0 + (enc_u64(x.1) + rest));
        lemma_h256_round_trip(x.0, enc_u64(x.1) + rest);
        assert(s.skip(32) =~= enc_u64(x.1) + rest);
        lemma_u64_round_trip(x.1, rest);
    }
    assert forall|s: Seq<u8>| #[trigger] upload_parse()(s) is Some implies {
        let (x, k) = upload_parse()(s)->Some_0;
        &&& k <= s.len()
        &&& s.take(k as int) == upload_enc()(x)
        &&& upload_wf()(x)
    } by {
        lemma_u64_sound(s.skip(32));
        lemma_take_step(s, 32, 8);
    }
}

fn encode_upload(x: &(AccountId, u64), out: &mut Vec<u8>)
    ensures
        final(out)@ == old(out)@ + enc_upload((x.0@, x.1)),
{
    encode_h256(&x.0, out);
    encode_u64(x.1, out);
    assert(out@ =~= old(out)@ + enc_upload((x.0@, x.1)));
}

fn decode_upload(input: &mut Input) -> (r: Option<(AccountId, u64)>)
    ensures
        match parse_upload(old(input).rest()) {
            Some((v, k)) => r is Some && (r->Some_0.0@, r->Some_0.1) == v && final(input).rest() == old(input).rest().skip(k as int),
            None => r is None,
        },
{
    let ghost s = input.rest();
    let a = decode_h256(input)?;
    let v = decode_u64(input)?;
    proof { lemma_take_step(s, 32, 8); }
    Some((a, v))
}

/// Writes a length-prefixed sequence of balance uploads.
pub fn encode_uploads(v: &Vec<(AccountId, u64)>, out: &mut Vec<u8>)
    requires
        v.len() <= u32::MAX,
    ensures
        final(out)@ == old(out)@ + enc_seq(uploads_view(v@), upload_enc()),
{
    encode_u32(v.len() as u32, out);
    let ghost start = out@;
    let mut i: usize = 0;
    while i < v.len()
        invariant
            i <= v.len(),
            out@ == start + enc_elems(uploads_view(v@.take(i as int)), upload_enc()),
        decreases v.len() - i,
    {
        encode_upload(&v[i], out);
        i = i + 1;
        assert(uploads_view(v@.take(i as int)).drop_last() =~= uploads_view(v@.take(i - 1)));
        assert(out@ =~= start + enc_elems(uploads_view(v@.take(i as int)), upload_enc()));
    }
    assert(v@.take(v.len() as int) =~= v@);
}

/// Reads a length-prefixed sequence of balance uploads.
pub fn decode_uploads(input: &mut Input) -> (r: Option<Vec<(AccountId, u64)>>)
    ensures
        match parse_seq(old(input).rest(), upload_parse()) {
            Some((v, k)) => r is Some && uploads_view(r->Some_0@) == v && final(input).rest() == old(input).rest().skip(k as int),
            None => r is None,
        },
{
    let ghost s0 = input.rest();
    let n = decode_u32(input)?;
    let ghost s = input.rest();
    let ghost mut c: nat = 0;
    let mut out: Vec<(AccountId, u64)> = Vec::new();
    let mut i: u32 = 0;
    while i < n
        invariant
            i <= n,
            s0 == old(input).rest(),
            s == s0.skip(4),
            s0.len() >= 4,
            parse_u32(s0) == Some((n, 4nat)),
            c <= s.len(),
            parse_elems(s, i as nat, upload_parse()) == Some((uploads_view(out@), c)),
            input.rest() == s.skip(c as int),
        decreases n - i,
    {
        match decode_upload(input) {
            Some(x) => {
                let ghost k = parse_upload(s.skip(c as int))->Some_0.1;
                proof {
                    lemma_upload_codec();
                    lemma_take_step(s, c as int, k as int);
                    c = c + k;
                }
                let ghost prev = out@;
                out.push(x);
                assert(uploads_view(out@) =~= uploads_view(prev).push((x.0@, x.1)));
            },
            None => {
                assert(upload_parse()(s.skip(c as int)) is None);
                assert(parse_elems(s, (i + 1) as nat, upload_parse()) is None);
                proof { lemma_elems_fail_more(s, (i + 1) as nat, n as nat, upload_parse()); }
                return None;
            },
        }
        i = i + 1;
    }
    assert(s0.skip(4).skip(c as int) =~= s0.skip((4 + c) as int));
    Some(out)
}

// ---------------------------------------------------------------------------
// Egress queue roots: a parachain id and a hash.
// ---------------------------------------------------------------------------

pub open spec fn enc_root(x: (Id, Seq<u8>)) -> Seq<u8> {
    enc_id(x.0) + enc_h256(x.1)
}

pub open spec fn parse_root(s: Seq<u8>) -> Option<((Id, Seq<u8>), nat)> {
    match parse_id(s) {
        Some((id, k)) => match parse_h256(s.skip(k as int)) {
            Some((h, m)) => Some(((id, h), k + m)),
            None => None,
        },
        None => None,
    }
}

pub open spec fn wf_root(x: (Id, Seq<u8>)) -> bool {
    is_h256(x.1)
}

pub open spec fn root_enc() -> spec_fn((Id, Seq<u8>)) -> Seq<u8> {
    |x: (Id, Seq<u8>)| enc_root(x)
}

pub open spec fn root_parse() -> spec_fn(Seq<u8>) -> Option<((Id, Seq<u8>), nat)> {
    |s: Seq<u8>| parse_root(s)
}

pub open spec fn root_wf() -> spec_fn((Id, Seq<u8>)) -> bool {
    |x: (Id, Seq<u8>)| wf_root(x)
}

pub open spec fn roots_view(v: Seq<(Id, parachain::Hash)>) -> Seq<(Id, Seq<u8>)> {
    v.map_values(|x: (Id, parachain::Hash)| (x.0, x.1@))
}

proof fn lemma_root_codec()
    ensures
        is_codec(root_enc(), root_parse(), root_wf()),
{
    assert forall|x: (Id, Seq<u8>), rest: Seq<u8>| root_wf()(x) implies #[trigger] root_parse()(root_enc()(x) + rest)
        == Some((x, root_enc()(x).len())) by {
        let s = enc_root(x) + rest;
        assert(s =~= enc_u32(x.0.0) + (x.1 + rest));
        lemma_u32_round_trip(x.0.0, x.1 + rest);
        assert(s.skip(4) =~= x.1 + rest);
        lemma_h256_round_trip(x.1, rest);
    }
    assert forall|s: Seq<u8>| #[trigger] root_parse()(s) is Some implies {
        let (x, k) = root_parse()(s)->Some_0;
        &&& k <= s.len()
        &&& s.take(k as int) == root_enc()(x)
        &&& root_wf()(x)
    } by {
        lemma_u32_sound(s);
        lemma_take_step(s, 4, 32);
    }
}

fn encode_root(x: &(Id, parachain::Hash), out: &mut Vec<u8>)
    ensures
        final(out)@ == old(out)@ + enc_root((x.0, x.1@)),
{
    x.0.encode_to(out);
    encode_h256(&x.1, out);
    assert(out@ =~= old(out)@ + enc_root((x.0, x.1@)));
}

fn decode_root(input: &mut Input) -> (r: Option<(Id, parachain::Hash)>)
    ensures
        match parse_root(old(input).rest()) {
            Some((v, k)) => r is Some && (r->Some_0.0, r->Some_0.1@) == v && final(input).rest() == old(input).rest().skip(k as int),
            None => r is None,
        },
{
    let ghost s = input.rest();
    let id = Id::decode(input)?;
    let h = decode_h256(input)?;
    proof { lemma_take_step(s, 4, 32); }
    Some((id, h))
}

/// Writes a length-prefixed sequence of egress queue roots.
pub fn encode_roots(v: &Vec<(Id, parachain::Hash)>, out: &mut Vec<u8>)
    requires
        v.len() <= u32::MAX,
    ensures
        final(out)@ == old(out)@ + enc_seq(roots_view(v@), root_enc()),
{
    encode_u32(v.len() as u32, out);
    let ghost start = out@;
    let mut i: usize = 0;
    while i < v.len()
        invariant
            i <= v.len(),
            out@ == start + enc_elems(roots_view(v@.take(i as int)), root_enc()),
        decreases v.len() - i,
    {
        encode_root(&v[i], out);
        i = i + 1;
        assert(roots_view(v@.take(i as int)).drop_last() =~= roots_view(v@.take(i - 1)));
        assert(out@ =~= start + enc_elems(roots_view(v@.take(i as int)), root_enc()));
    }
    assert(v@.take(v.len() as int) =~= v@);
}

/// Reads a length-prefixed sequence of egress queue roots.
pub fn decode_roots(input: &mut Input) -> (r: Option<Vec<(Id, parachain::Hash)>>)
    ensures
        match parse_seq(old(input).rest(), root_parse()) {
            Some((v, k)) => r is Some && roots_view(r->Some_0@) == v && final(input).rest() == old(input).rest().skip(k as int),
            None => r is None,
        },
{
    let ghost s0 = input.rest();
    let n = decode_u32(input)?;
    let ghost s = input.rest();
    let ghost mut c: nat = 0;
    let mut out: Vec<(Id, parachain::Hash)> = Vec::new();
    let mut i: u32 = 0;
    while i < n
        invariant
            i <= n,
            s0 == old(input).rest(),
            s == s0.skip(4),
            s0.len() >= 4,
            parse_u32(s0) == Some((n, 4nat)),
            c <= s.len(),
            parse_elems(s, i as nat, root_parse()) == Some((roots_view(out@), c)),
            input.rest() == s.skip(c as int),
        decreases n - i,
    {
        match decode_root(input) {
            Some(x) => {
                let ghost k = parse_root(s.skip(c as int))->Some_0.1;
                proof {
                    lemma_root_codec();
                    lemma_take_step(s, c as int, k as int);
                    c = c + k;
                }
                let ghost prev = out@;
                out.push(x);
                assert(roots_view(out@) =~= roots_view(prev).push((x.0, x.1@)));
            },
            None => {
                assert(root_parse()(s.skip(c as int)) is None);
                assert(parse_elems(s, (i + 1) as nat, root_parse()) is None);
                proof { lemma_elems_fail_more(s, (i + 1) as nat, n as nat, root_parse()); }
                return None;
            },
        }
        i = i + 1;
    }
    assert(s0.skip(4).skip(c as int) =~= s0.skip((4 + c) as int));
    Some(out)
}


// ---------------------------------------------------------------------------
// Candidate receipts.
// ---------------------------------------------------------------------------

/// Candidate receipt type.
#[derive(Clone, PartialEq, Eq, Debug)]
pub struct CandidateReceipt {
    /// The id of the parachain this is a candidate for.
    pub parachain_index: Id,
    /// The collator's relay-chain account id.
    pub collator: AccountId,
    /// The head data.
    pub head_data: HeadData,
    /// Balance uploads to the relay chain.
    pub balance_uploads: Vec<(AccountId, u64)>,
    /// Egress queue roots.
    pub egress_queue_roots: Vec<(Id, parachain::Hash)>,
    /// Fees paid from the chain to the relay chain validators.
    pub fees: u64,
}

/// The value a `CandidateReceipt` holds.
pub struct CandidateReceiptView {
    pub parachain_index: Id,
    pub collator: Seq<u8>,
    pub head_data: Seq<u8>,
    pub balance_uploads: Seq<(Seq<u8>, u64)>,
    pub egress_queue_roots: Seq<(Id, Seq<u8>)>,
    pub fees: u64,
}

impl View for CandidateReceipt {
    type V = CandidateReceiptView;

    open spec fn view(&self) -> CandidateReceiptView {
        CandidateReceiptView {
            parachain_index: self.parachain_index,
            collator: self.collator@,
            head_data: self.head_data.0@,
            balance_uploads: uploads_view(self.balance_uploads@),
            egress_queue_roots: roots_view(self.egress_queue_roots@),
            fees: self.fees,
        }
    }
}

/// The fields in declaration order, each in its own encoding.
pub open spec fn enc_receipt(r: CandidateReceiptView) -> Seq<u8> {
    enc_id(r.parachain_index) + enc_h256(r.collator) + enc_seq(r.head_data, u8_enc()) + enc_seq(
        r.balance_uploads,
        upload_enc(),
    ) + enc_seq(r.egress_queue_roots, root_enc()) + enc_u64(r.fees)
}

pub open spec fn parse_receipt(s: Seq<u8>) -> Option<(CandidateReceiptView, nat)> {
    match parse_id(s) {
        None => None,
        Some((parachain_index, k1)) => match parse_h256(s.skip(k1 as int)) {
            None => None,
            Some((collator, k2)) => match parse_seq(s.skip((k1 + k2) as int), u8_parse()) {
                None => None,
                Some((head_data, k3)) => match parse_seq(s.skip((k1 + k2 + k3) as int), upload_parse()) {
                    None => None,
                    Some((balance_uploads, k4)) => match parse_seq(s.skip((k1 + k2 + k3 + k4) as int), root_parse()) {
                        None => None,
                        Some((egress_queue_roots, k5)) => match parse_u64(s.skip((k1 + k2 + k3 + k4 + k5) as int)) {
                            None => None,
                            Some((fees, k6)) => Some((
                                CandidateReceiptView {
                                    parachain_index,
                                    collator,
                                    head_data,
                                    balance_uploads,
                                    egress_queue_roots,
                                    fees,
                                },
                                k1 + k2 + k3 + k4 + k5 + k6,
                            )),
                        },
                    },
                },
            },
        },
    }
}

/// The collator is a 32-byte id and every sequence fits its length prefix.
pub open spec fn wf_receipt(r: CandidateReceiptView) -> bool {
    &&& is_h256(r.collator)
    &&& wf_seq(r.head_data, u8_wf())
    &&& wf_seq(r.balance_uploads, upload_wf())
    &&& wf_seq(r.egress_queue_roots, root_wf())
}

pub open spec fn receipt_enc() -> spec_fn(CandidateReceiptView) -> Seq<u8> {
    |r: CandidateReceiptView| enc_receipt(r)
}

pub open spec fn receipt_parse() -> spec_fn(Seq<u8>) -> Option<(CandidateReceiptView, nat)> {
    |s: Seq<u8>| parse_receipt(s)
}

pub open spec fn receipt_wf() -> spec_fn(CandidateReceiptView) -> bool {
    |r: CandidateReceiptView| wf_receipt(r)
}

proof fn lemma_receipt_parts()
    ensures
        is_codec(seq_enc(u8_enc()), seq_parse(u8_parse()), seq_wf(u8_wf())),
        is_codec(seq_enc(upload_enc()), seq_parse(upload_parse()), seq_wf(upload_wf())),
        is_codec(seq_enc(root_enc()), seq_parse(root_parse()), seq_wf(root_wf())),
{
    lemma_u8_codec();
    lemma_seq_codec(u8_enc(), u8_parse(), u8_wf());
    lemma_upload_codec();
    lemma_seq_codec(upload_enc(), upload_parse(), upload_wf());
    lemma_root_codec();
    lemma_seq_codec(root_enc(), root_parse(), root_wf());
}

pub(crate) proof fn lemma_receipt_round_trip(x: CandidateReceiptView, rest: Seq<u8>)
    requires
        wf_receipt(x),
    ensures
        parse_receipt(enc_receipt(x) + rest) == Some((x, enc_receipt(x).len())),
{
    lemma_receipt_parts();
    let e1 = enc_id(x.parachain_index);
    let e2 = enc_h256(x.collator);
    let e3 = enc_seq(x.head_data, u8_enc());
    let e4 = enc_seq(x.balance_uploads, upload_enc());
    let e5 = enc_seq(x.egress_queue_roots, root_enc());
    let e6 = enc_u64(x.fees);
    let r6 = e6 + rest;
    let r5 = e5 + r6;
    let r4 = e4 + r5;
    let r3 = e3 + r4;
    let r2 = e2 + r3;
    let s = enc_receipt(x) + rest;
    assert(s =~= e1 + r2);
    lemma_u32_round_trip(x.parachain_index.0, r2);
    lemma_skip_concat(e1, r2);
    lemma_h256_round_trip(x.collator, r3);
    lemma_skip_concat(e2, r3);
    lemma_take_step(s, 4, 32);
    assert(seq_wf(u8_wf())(x.head_data));
    assert(seq_parse(u8_parse())(seq_enc(u8_enc())(x.head_data) + r4) == Some((x.head_data, e3.len())));
    lemma_skip_concat(e3, r4);
    lemma_take_step(s, 36, e3.len() as int);
    assert(seq_wf(upload_wf())(x.balance_uploads));
    assert(seq_parse(upload_parse())(seq_enc(upload_enc())(x.balance_uploads) + r5) == Some((x.balance_uploads, e4.len())));
    lemma_skip_concat(e4, r5);
    lemma_take_step(s, (36 + e3.len()) as int, e4.len() as int);
    assert(seq_wf(root_wf())(x.egress_queue_roots));
    assert(seq_parse(root_parse())(seq_enc(root_enc())(x.egress_queue_roots) + r6)
        == Some((x.egress_queue_roots, e5.len())));
    lemma_skip_concat(e5, r6);
    lemma_take_step(s, (36 + e3.len() + e4.len()) as int, e5.len() as int);
    lemma_u64_round_trip(x.fees, rest);
}

pub(crate) proof fn lemma_receipt_sound(s: Seq<u8>)
    ensures
        parse_receipt(s) is Some ==> {
            let (x, k) = parse_receipt(s)->Some_0;
            &&& k <= s.len()
            &&& s.take(k as int) == enc_receipt(x)
            &&& wf_receipt(x)
        },
{
    if parse_receipt(s) is Some {
        lemma_receipt_parts();
        lemma_u32_sound(s);
        lemma_take_step(s, 4, 32);
        let t3 = s.skip(36);
        assert(seq_parse(u8_parse())(t3) is Some);
        let k3 = parse_seq(t3, u8_parse())->Some_0.1 as int;
        lemma_take_step(s, 36, k3);
        let t4 = s.skip(36 + k3);
        assert(seq_parse(upload_parse())(t4) is Some);
        let k4 = parse_seq(t4, upload_parse())->Some_0.1 as int;
        lemma_take_step(s, 36 + k3, k4);
        let t5 = s.skip(36 + k3 + k4);
        assert(seq_parse(root_parse())(t5) is Some);
        let k5 = parse_seq(t5, root_parse())->Some_0.1 as int;
        lemma_take_step(s, 36 + k3 + k4, k5);
        let t6 = s.skip(36 + k3 + k4 + k5);
        lemma_u64_sound(t6);
        lemma_take_step(s, 36 + k3 + k4 + k5, 8);
    }
}

/// Every encodable `CandidateReceipt` reads back from its encoding, and whatever
/// reads as a `CandidateReceipt` is the encoding of the value read.
pub proof fn lemma_receipt_codec()
    ensures
        is_codec(receipt_enc(), receipt_parse(), receipt_wf()),
{
    assert forall|x: CandidateReceiptView, rest: Seq<u8>| receipt_wf()(x) implies #[trigger] receipt_parse()(
        receipt_enc()(x) + rest) == Some((x, receipt_enc()(x).len())) by {
        lemma_receipt_round_trip(x, rest);
    }
    assert forall|s: Seq<u8>| #[trigger] receipt_parse()(s) is Some implies {
        let (x, k) = receipt_parse()(s)->Some_0;
        &&& k <= s.len()
        &&& s.take(k as int) == receipt_enc()(x)
        &&& receipt_wf()(x)
    } by {
        lemma_receipt_sound(s);
    }
}

/// No strict prefix of a `CandidateReceipt`'s encoding decodes.
pub proof fn lemma_receipt_truncated(r: CandidateReceiptView, n: int)
    requires
        wf_receipt(r),
        0 <= n < enc_receipt(r).len(),
    ensures
        parse_receipt(enc_receipt(r).take(n)) is None,
{
    lemma_receipt_codec();
    lemma_codec_prefix_fails(receipt_enc(), receipt_parse(), receipt_wf(), r, n);
}

impl CandidateReceipt {
    /// The receipt can be encoded: no sequence in it outgrows its length prefix.
    pub open spec fn encodable(&self) -> bool {
        &&& self.head_data.0.len() <= u32::MAX
        &&& self.balance_uploads.len() <= u32::MAX
        &&& self.egress_queue_roots.len() <= u32::MAX
    }

    pub fn encode_to(&self, out: &mut Vec<u8>)
        requires
            self.encodable(),
        ensures
            final(out)@ == old(out)@ + enc_receipt(self@),
    {
        self.parachain_index.encode_to(out);
        encode_h256(&self.collator, out);
        encode_bytes(&self.head_data.0, out);
        encode_uploads(&self.balance_uploads, out);
        encode_roots(&self.egress_queue_roots, out);
        encode_u64(self.fees, out);
        assert(out@ =~= old(out)@ + enc_receipt(self@));
    }

    pub fn encode(&self) -> (r: Vec<u8>)
        requires
            self.encodable(),
        ensures
            r@ == enc_receipt(self@),
    {
        let mut v: Vec<u8> = Vec::new();
        self.encode_to(&mut v);
        assert(v@ =~= enc_receipt(self@));
        v
    }

    pub fn decode(input: &mut Input) -> (r: Option<CandidateReceipt>)
        ensures
            match parse_receipt(old(input).rest()) {
                Some((v, k)) => r is Some && r->Some_0@ == v && final(input).rest() == old(input).rest().skip(k as int),
                None => r is None,
            },
    {
        let ghost s = input.rest();
        let parachain_index = Id::decode(input)?;
        proof { lemma_u32_sound(s); }
        let collator = decode_h256(input)?;
        proof { lemma_take_step(s, 4, 32); }
        let head_data = decode_bytes(input)?;
        let ghost k3 = parse_seq(s.skip(36), u8_parse())->Some_0.1 as int;
        proof {
            lemma_receipt_parts();
            assert(seq_parse(u8_parse())(s.skip(36)) is Some);
            lemma_take_step(s, 36, k3);
        }
        let balance_uploads = decode_uploads(input)?;
        let ghost k4 = parse_seq(s.skip(36 + k3), upload_parse())->Some_0.1 as int;
        proof {
            assert(seq_parse(upload_parse())(s.skip(36 + k3)) is Some);
            lemma_take_step(s, 36 + k3, k4);
        }
        let egress_queue_roots = decode_roots(input)?;
        let ghost k5 = parse_seq(s.skip(36 + k3 + k4), root_parse())->Some_0.1 as int;
        proof {
            assert(seq_parse(root_parse())(s.skip(36 + k3 + k4)) is Some);
            lemma_take_step(s, 36 + k3 + k4, k5);
        }
        let fees = decode_u64(input)?;
        proof {
            lemma_u64_sound(s.skip(36 + k3 + k4 + k5));
            lemma_take_step(s, 36 + k3 + k4 + k5, 8);
        }
        Some(CandidateReceipt {
            parachain_index,
            collator,
            head_data: HeadData(head_data),
            balance_uploads,
            egress_queue_roots,
            fees,
        })
    }
}


// ---------------------------------------------------------------------------
// Canonical order of receipts and their hash.
// ---------------------------------------------------------------------------

/// Byte-lexicographic comparison; a proper prefix comes first.
pub open spec fn lex_cmp(a: Seq<u8>, b: Seq<u8>) -> Ordering
    decreases a.len(),
{
    if a.len() == 0 {
        if b.len() == 0 {
            Ordering::Equal
        } else {
            Ordering::Less
        }
    } else if b.len() == 0 {
        Ordering::Greater
    } else if a[0] < b[0] {
        Ordering::Less
    } else if a[0] > b[0] {
        Ordering::Greater
    } else {
        lex_cmp(a.drop_first(), b.drop_first())
    }
}

/// Receipts are ordered by parachain index, then by head data. Nothing else is
/// looked at: receipts that differ elsewhere may compare equal.
pub open spec fn receipt_cmp(a: CandidateReceiptView, b: CandidateReceiptView) -> Ordering {
    if a.parachain_index.0 < b.parachain_index.0 {
        Ordering::Less
    } else if a.parachain_index.0 > b.parachain_index.0 {
        Ordering::Greater
    } else {
        lex_cmp(a.head_data, b.head_data)
    }
}

pub open spec fn flip(o: Ordering) -> Ordering {
    match o {
        Ordering::Less => Ordering::Greater,
        Ordering::Equal => Ordering::Equal,
        Ordering::Greater => Ordering::Less,
    }
}

/// Byte order is antisymmetric, and two byte strings compare equal exactly when
/// they are the same.
pub proof fn lemma_lex_cmp_order(a: Seq<u8>, b: Seq<u8>)
    ensures
        lex_cmp(b, a) == flip(lex_cmp(a, b)),
        lex_cmp(a, b) == Ordering::Equal <==> a == b,
    decreases a.len(),
{
    if a.len() == 0 && b.len() == 0 {
        assert(a =~= b);
    } else if a.len() > 0 && b.len() > 0 && a[0] == b[0] {
        lemma_lex_cmp_order(a.drop_first(), b.drop_first());
        if a.drop_first() == b.drop_first() {
            assert(a =~= b) by {
                assert forall|i: int| 0 <= i < a.len() implies a[i] == b[i] by {
                    if i > 0 {
                        assert(a[i] == a.drop_first()[i - 1]);
                        assert(b[i] == b.drop_first()[i - 1]);
                    }
                }
            }
        }
        if a == b {
            assert(a.drop_first() == b.drop_first());
        }
    }
}

/// The receipt order is antisymmetric, and two receipts compare equal exactly
/// when their parachain indices and head data are the same, whatever else differs.
pub proof fn lemma_receipt_cmp_order(a: CandidateReceiptView, b: CandidateReceiptView)
    ensures
        receipt_cmp(b, a) == flip(receipt_cmp(a, b)),
        receipt_cmp(a, b) == Ordering::Equal <==> a.parachain_index == b.parachain_index && a.head_data == b.head_data,
{
    lemma_lex_cmp_order(a.head_data, b.head_data);
}

/// Compares two byte strings lexicographically.
pub fn compare_bytes(a: &Vec<u8>, b: &Vec<u8>) -> (r: Ordering)
    ensures
        r == lex_cmp(a@, b@),
{
    let mut i: usize = 0;
    assert(a@.skip(0) =~= a@);
    assert(b@.skip(0) =~= b@);
    while i < a.len() && i < b.len()
        invariant
            i <= a.len(),
            i <= b.len(),
            lex_cmp(a@, b@) == lex_cmp(a@.skip(i as int), b@.skip(i as int)),
        decreases a.len() - i,
    {
        if a[i] < b[i] {
            return Ordering::Less;
        } else if a[i] > b[i] {
            return Ordering::Greater;
        }
        assert(a@.skip(i as int).drop_first() =~= a@.skip(i + 1));
        assert(b@.skip(i as int).drop_first() =~= b@.skip(i + 1));
        i = i + 1;
    }
    if i < b.len() {
        Ordering::Less
    } else if i < a.len() {
        Ordering::Greater
    } else {
        Ordering::Equal
    }
}

pub uninterp spec fn blake2_256_of(data: Seq<u8>) -> Seq<u8>;

/// Relies on blake2_rfc::blake2b::blake2b: called with an output length of 32 and
/// an empty key it returns the BLAKE2b-256 digest of the data, 32 bytes long.
#[verifier::external_body]
fn blake2_256(data: &[u8]) -> (r: [u8; 32])
    ensures
        r@ == blake2_256_of(data@),
{
    let digest = blake2_rfc::blake2b::blake2b(32, &[], data);
    let mut r = [0u8; 32];
    r.copy_from_slice(digest.as_bytes());
    r
}

impl CandidateReceipt {
    /// The canonical order: by parachain index, then by head data.
    pub fn cmp(&self, other: &CandidateReceipt) -> (r: Ordering)
        ensures
            r == receipt_cmp(self@, other@),
    {
        if self.parachain_index.0 < other.parachain_index.0 {
            Ordering::Less
        } else if self.parachain_index.0 > other.parachain_index.0 {
            Ordering::Greater
        } else {
            compare_bytes(&self.head_data.0, &other.head_data.0)
        }
    }

    /// The BLAKE2b-256 hash of the receipt's encoding.
    pub fn hash(&self) -> (r: parachain::Hash)
        requires
            self.encodable(),
        ensures
            r@ == blake2_256_of(enc_receipt(self@)),
    {
        let bytes = self.encode();
        blake2_256(bytes.as_slice())
    }
}

impl PartialOrd for CandidateReceipt {
    fn partial_cmp(&self, other: &CandidateReceipt) -> (r: Option<Ordering>) {
        Some(self.cmp(other))
    }
}

impl vstd::std_specs::cmp::PartialOrdSpecImpl for CandidateReceipt {
    open spec fn obeys_partial_cmp_spec() -> bool {
        true
    }

    open spec fn partial_cmp_spec(&self, other: &CandidateReceipt) -> Option<Ordering> {
        Some(receipt_cmp(self@, other@))
    }
}

} // verus!
