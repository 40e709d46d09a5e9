//! Ingress queues and their encoding.
use vstd::prelude::*;
use crate::codec::{
    Input, decode_bytes, decode_u32, enc_elems, enc_seq, enc_u32, encode_bytes, encode_u32, is_codec,
    lemma_codec_prefix_fails, lemma_elems_fail_more, lemma_seq_codec, lemma_skip_concat, lemma_take_step,
    lemma_u32_round_trip, lemma_u32_sound, lemma_u8_codec, parse_elems, parse_seq, parse_u32, seq_enc,
    seq_parse, seq_wf, u8_enc, u8_parse, u8_wf, wf_seq,
};
use crate::parachain::{
    Id, Message, ConsolidatedIngress, enc_id, parse_id, id_enc, id_parse, id_wf, lemma_id_codec,
};

verus! {

// ---------------------------------------------------------------------------
// Ingress queues: per parachain, a sequence of messages.
// ---------------------------------------------------------------------------

pub open spec fn bytes_enc() -> spec_fn(Seq<u8>) -> Seq<u8> {
    seq_enc(u8_enc())
}

pub open spec fn bytes_parse() -> spec_fn(Seq<u8>) -> Option<(Seq<u8>, nat)> {
    seq_parse(u8_parse())
}

pub open spec fn bytes_wf() -> spec_fn(Seq<u8>) -> bool {
    seq_wf(u8_wf())
}

pub open spec fn messages_view(v: Seq<Message>) -> Seq<Seq<u8>> {
    v.map_values(|m: Message| m.0@)
}

/// A parachain id, then its messages with their count.
pub open spec fn enc_ingress_entry(x: (Id, Seq<Seq<u8>>)) -> Seq<u8> {
    enc_id(x.0) + enc_seq(x.1, bytes_enc())
}

pub open spec fn parse_ingress_entry(s: Seq<u8>) -> Option<((Id, Seq<Seq<u8>>), nat)> {
    match parse_id(s) {
        Some((id, k)) => match parse_seq(s.skip(k as int), bytes_parse()) {
            Some((m, j)) => Some(((id, m), k + j)),
            None => None,
        },
        None => None,
    }
}

pub open spec fn wf_ingress_entry(x: (Id, Seq<Seq<u8>>)) -> bool {
    wf_seq(x.1, bytes_wf())
}

pub open spec fn ingress_entry_enc() -> spec_fn((Id, Seq<Seq<u8>>)) -> Seq<u8> {
    |x: (Id, Seq<Seq<u8>>)| enc_ingress_entry(x)
}

pub open spec fn ingress_entry_parse() -> spec_fn(Seq<u8>) -> Option<((Id, Seq<Seq<u8>>), nat)> {
    |s: Seq<u8>| parse_ingress_entry(s)
}

pub open spec fn ingress_entry_wf() -> spec_fn((Id, Seq<Seq<u8>>)) -> bool {
    |x: (Id, Seq<Seq<u8>>)| wf_ingress_entry(x)
}

/// Byte strings, and sequences of them, read back from their encodings, and
/// whatever reads as one is the encoding of the value read.
pub proof fn lemma_messages_codec()
    ensures
        is_codec(bytes_enc(), bytes_parse(), bytes_wf()),
        is_codec(seq_enc(bytes_enc()), seq_parse(bytes_parse()), seq_wf(bytes_wf())),
{
    lemma_u8_codec();
    lemma_seq_codec(u8_enc(), u8_parse(), u8_wf());
    lemma_seq_codec(bytes_enc(), bytes_parse(), bytes_wf());
}

proof fn lemma_ingress_entry_codec()
    ensures
        is_codec(ingress_entry_enc(), ingress_entry_parse(), ingress_entry_wf()),
{
    lemma_messages_codec();
    assert forall|x: (Id, Seq<Seq<u8>>), rest: Seq<u8>| ingress_entry_wf()(x) implies #[trigger] ingress_entry_parse()(
        ingress_entry_enc()(x) + rest) == Some((x, ingress_entry_enc()(x).len())) by {
        let e2 = enc_seq(x.1, bytes_enc());
        let s = enc_ingress_entry(x) + rest;
        assert(s =~= enc_u32(x.0.0) + (e2 + rest));
        lemma_u32_round_trip(x.0.0, e2 + rest);
        lemma_skip_concat(enc_u32(x.0.0), e2 + rest);
        assert(seq_wf(bytes_wf())(x.1));
        assert(seq_parse(bytes_parse())(seq_enc(bytes_enc())(x.1) + rest) == Some((x.1, e2.len())));
    }
    assert forall|s: Seq<u8>| #[trigger] ingress_entry_parse()(s) is Some implies {
        let (x, k) = ingress_entry_parse()(s)->Some_0;
        &&& k <= s.len()
        &&& s.take(k as int) == ingress_entry_enc()(x)
        &&& ingress_entry_wf()(x)
    } by {
        lemma_u32_sound(s);
        assert(seq_parse(bytes_parse())(s.skip(4)) is Some);
        let j = parse_seq(s.skip(4), bytes_parse())->Some_0.1;
        lemma_take_step(s, 4, j as int);
    }
}

/// Every encodable ingress queue reads back from its encoding, and whatever
/// reads as an ingress queue is the encoding of the value read.
pub proof fn lemma_ingress_codec()
    ensures
        is_codec(seq_enc(ingress_entry_enc()), seq_parse(ingress_entry_parse()), seq_wf(ingress_entry_wf())),
{
    lemma_ingress_entry_codec();
    lemma_seq_codec(ingress_entry_enc(), ingress_entry_parse(), ingress_entry_wf());
}

/// No strict prefix of an ingress queue's encoding decodes.
pub proof fn lemma_ingress_truncated(v: Seq<(Id, Seq<Seq<u8>>)>, n: int)
    requires
        wf_seq(v, ingress_entry_wf()),
        0 <= n < enc_seq(v, ingress_entry_enc()).len(),
    ensures
        parse_seq(enc_seq(v, ingress_entry_enc()).take(n), ingress_entry_parse()) is None,
{
    lemma_ingress_codec();
    lemma_codec_prefix_fails(seq_enc(ingress_entry_enc()), seq_parse(ingress_entry_parse()), seq_wf(ingress_entry_wf()), v, n);
}

/// No strict prefix of a byte string's encoding decodes.
pub proof fn lemma_bytes_truncated(b: Seq<u8>, n: int)
    requires
        b.len() <= u32::MAX,
        0 <= n < enc_seq(b, u8_enc()).len(),
    ensures
        parse_seq(enc_seq(b, u8_enc()).take(n), u8_parse()) is None,
{
    lemma_messages_codec();
    lemma_codec_prefix_fails(bytes_enc(), bytes_parse(), bytes_wf(), b, n);
}

/// No strict prefix of an `Id`'s encoding decodes.
pub proof fn lemma_id_truncated(id: Id, n: int)
    requires
        0 <= n < enc_id(id).len(),
    ensures
        parse_id(enc_id(id).take(n)) is None,
{
    lemma_id_codec();
    lemma_codec_prefix_fails(id_enc(), id_parse(), id_wf(), id, n);
}

/// Writes a length-prefixed sequence of messages.
pub fn encode_messages(v: &Vec<Message>, out: &mut Vec<u8>)
    requires
        wf_seq(messages_view(v@), bytes_wf()),
    ensures
        final(out)@ == old(out)@ + enc_seq(messages_view(v@), bytes_enc()),
{
    encode_u32(v.len() as u32, out);
    let ghost start = out@;
    let mut i: usize = 0;
    while i < v.len()
        invariant
            i <= v.len(),
            wf_seq(messages_view(v@), bytes_wf()),
            out@ == start + enc_elems(messages_view(v@.take(i as int)), bytes_enc()),
        decreases v.len() - i,
    {
        assert(bytes_wf()(messages_view(v@)[i as int]));
        encode_bytes(&v[i].0, out);
        i = i + 1;
        assert(messages_view(v@.take(i as int)).drop_last() =~= messages_view(v@.take(i - 1)));
        assert(out@ =~= start + enc_elems(messages_view(v@.take(i as int)), bytes_enc()));
    }
    assert(v@.take(v.len() as int) =~= v@);
}

/// Reads a length-prefixed sequence of messages.
pub fn decode_messages(input: &mut Input) -> (r: Option<Vec<Message>>)
    ensures
        match parse_seq(old(input).rest(), bytes_parse()) {
            Some((v, k)) => r is Some && messages_view(r->Some_0@) == v && final(input).rest() == old(input).rest().skip(k as int),
            None => r is None,
        },
{
    let ghost s0 = input.rest();
    let n = decode_u32(input)?;
    let ghost s = input.rest();
    let ghost mut c: nat = 0;
    let mut out: Vec<Message> = Vec::new();
    let mut i: u32 = 0;
    while i < n
        invariant
            i <= n,
            s0 == old(input).rest(),
            s == s0.skip(4),
            s0.len() >= 4,
            parse_u32(s0) == Some((n, 4nat)),
            c <= s.len(),
            parse_elems(s, i as nat, bytes_parse()) == Some((messages_view(out@), c)),
            input.rest() == s.skip(c as int),
        decreases n - i,
    {
        match decode_bytes(input) {
            Some(x) => {
                let ghost k = parse_seq(s.skip(c as int), u8_parse())->Some_0.1;
                proof {
                    lemma_messages_codec();
                    assert(bytes_parse()(s.skip(c as int)) is Some);
                    lemma_take_step(s, c as int, k as int);
                    c = c + k;
                }
                let ghost prev = out@;
                out.push(Message(x));
                assert(messages_view(out@) =~= messages_view(prev).push(x@));
            },
            None => {
                assert(bytes_parse()(s.skip(c as int)) is None);
                assert(parse_elems(s, (i + 1) as nat, bytes_parse()) is None);
                proof { lemma_elems_fail_more(s, (i + 1) as nat, n as nat, bytes_parse()); }
                return None;
            },
        }
        i = i + 1;
    }
    assert(s0.skip(4).skip(c as int) =~= s0.skip((4 + c) as int));
    Some(out)
}

pub open spec fn ingress_view(v: Seq<(Id, Vec<Message>)>) -> Seq<(Id, Seq<Seq<u8>>)> {
    v.map_values(|x: (Id, Vec<Message>)| (x.0, messages_view(x.1@)))
}

impl View for ConsolidatedIngress {
    type V = Seq<(Id, Seq<Seq<u8>>)>;

    open spec fn view(&self) -> Seq<(Id, Seq<Seq<u8>>)> {
        ingress_view(self.0@)
    }
}

impl ConsolidatedIngress {
    pub fn encode_to(&self, out: &mut Vec<u8>)
        requires
            wf_seq(self@, ingress_entry_wf()),
        ensures
            final(out)@ == old(out)@ + enc_seq(self@, ingress_entry_enc()),
    {
        let v = &self.0;
        encode_u32(v.len() as u32, out);
        let ghost start = out@;
        let mut i: usize = 0;
        while i < v.len()
            invariant
                i <= v.len(),
                v == &self.0,
                wf_seq(self@, ingress_entry_wf()),
                out@ == start + enc_elems(ingress_view(v@.take(i as int)), ingress_entry_enc()),
            decreases v.len() - i,
        {
            assert(ingress_entry_wf()(self@[i as int]));
            let ghost before = out@;
            v[i].0.encode_to(out);
            encode_messages(&v[i].1, out);
            assert(out@ =~= before + enc_ingress_entry(ingress_view(v@)[i as int]));
            i = i + 1;
            assert(ingress_view(v@.take(i as int)).drop_last() =~= ingress_view(v@.take(i - 1)));
            assert(out@ =~= start + enc_elems(ingress_view(v@.take(i as int)), ingress_entry_enc()));
        }
        assert(v@.take(v.len() as int) =~= v@);
    }

    pub fn encode(&self) -> (r: Vec<u8>)
        requires
            wf_seq(self@, ingress_entry_wf()),
        ensures
            r@ == enc_seq(self@, ingress_entry_enc()),
    {
        let mut v: Vec<u8> = Vec::new();
        self.encode_to(&mut v);
        assert(v@ =~= enc_seq(self@, ingress_entry_enc()));
        v
    }

    pub fn decode(input: &mut Input) -> (r: Option<ConsolidatedIngress>)
        ensures
            match parse_seq(old(input).rest(), ingress_entry_parse()) {
                Some((v, k)) => r is Some && r->Some_0@ == v && final(input).rest() == old(input).rest().skip(k as int),
                None => r is None,
            },
    {
        let ghost s0 = input.rest();
        let n = decode_u32(input)?;
        let ghost s = input.rest();
        let ghost mut c: nat = 0;
        let mut out: Vec<(Id, Vec<Message>)> = Vec::new();
        let mut i: u32 = 0;
        while i < n
            invariant
                i <= n,
                s0 == old(input).rest(),
                s == s0.skip(4),
                s0.len() >= 4,
                parse_u32(s0) == Some((n, 4nat)),
                c <= s.len(),
                parse_elems(s, i as nat, ingress_entry_parse()) == Some((ingress_view(out@), c)),
                input.rest() == s.skip(c as int),
            decreases n - i,
        {
            let ghost t = s.skip(c as int);
            proof { lemma_u32_sound(t); }
            let id = match Id::decode(input) {
                Some(id) => id,
                None => {
                    assert(ingress_entry_parse()(t) is None);
                    assert(parse_elems(s, (i + 1) as nat, ingress_entry_parse()) is None);
                    proof { lemma_elems_fail_more(s, (i + 1) as nat, n as nat, ingress_entry_parse()); }
                    return None;
                },
            };
            proof { lemma_take_step(s, c as int, 4); }
            let msgs = match decode_messages(input) {
                Some(m) => m,
                None => {
                    assert(ingress_entry_parse()(t) is None);
                    assert(parse_elems(s, (i + 1) as nat, ingress_entry_parse()) is None);
                    proof { lemma_elems_fail_more(s, (i + 1) as nat, n as nat, ingress_entry_parse()); }
                    return None;
                },
            };
            let ghost k = parse_ingress_entry(t)->Some_0.1;
            proof {
                lemma_ingress_entry_codec();
                assert(ingress_entry_parse()(t) is Some);
                lemma_take_step(s, c as int, k as int);
                lemma_take_step(s, (c + 4) as int, k - 4);
                c = c + k;
            }
            let ghost prev = out@;
            out.push((id, msgs));
            assert(ingress_view(out@) =~= ingress_view(prev).push((id, messages_view(msgs@))));
            i = i + 1;
        }
        assert(s0.skip(4).skip(c as int) =~= s0.skip((4 + c) as int));
        Some(ConsolidatedIngress(out))
    }
}

} // verus!
