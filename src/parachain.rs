//! Parachain data types and their canonical encodings.
use vstd::prelude::*;
use crate::codec::{
    Input, decode_bytes, decode_u32, enc_elems, enc_seq, enc_u32, encode_bytes, encode_u32, is_codec,
    lemma_codec_prefix_fails, lemma_elems_fail_more, lemma_seq_codec, lemma_take_step, lemma_u32_round_trip,
    lemma_u32_sound, parse_elems, parse_seq, parse_u32, seq_enc, seq_parse, seq_wf, u8_enc, u8_parse, wf_seq,
};

verus! {

/// Unique identifier of a parachain.
#[derive(Clone, Copy, PartialEq, Eq, Structural, PartialOrd, Ord, Hash, Debug)]
pub struct Id(pub u32);

impl Id {
    /// Convert this id into its inner representation.
    pub fn into_inner(self) -> (r: u32)
        ensures
            r == self.0,
    {
        self.0
    }
}

impl From<u32> for Id {
    fn from(x: u32) -> (r: Id) {
        Id(x)
    }
}

impl vstd::std_specs::convert::FromSpecImpl<u32> for Id {
    open spec fn obeys_from_spec() -> bool {
        true
    }

    open spec fn from_spec(x: u32) -> Id {
        Id(x)
    }
}

impl From<Id> for u32 {
    fn from(x: Id) -> (r: u32) {
        x.0
    }
}

impl vstd::std_specs::convert::FromSpecImpl<Id> for u32 {
    open spec fn obeys_from_spec() -> bool {
        true
    }

    open spec fn from_spec(x: Id) -> u32 {
        x.0
    }
}

pub open spec fn enc_id(id: Id) -> Seq<u8> {
    enc_u32(id.0)
}

pub open spec fn parse_id(s: Seq<u8>) -> Option<(Id, nat)> {
    match parse_u32(s) {
        Some((x, k)) => Some((Id(x), k)),
        None => None,
    }
}

pub open spec fn id_enc() -> spec_fn(Id) -> Seq<u8> {
    |id: Id| enc_id(id)
}

pub open spec fn id_parse() -> spec_fn(Seq<u8>) -> Option<(Id, nat)> {
    |s: Seq<u8>| parse_id(s)
}

pub open spec fn any_id(id: Id) -> bool {
    true
}

pub open spec fn id_wf() -> spec_fn(Id) -> bool {
    |id: Id| any_id(id)
}

/// An `Id` reads back from its four bytes.
pub proof fn lemma_id_codec()
    ensures
        is_codec(id_enc(), id_parse(), id_wf()),
{
    assert forall|x: Id, rest: Seq<u8>| id_wf()(x) implies #[trigger] id_parse()(id_enc()(x) + rest)
        == Some((x, id_enc()(x).len())) by {
        lemma_u32_round_trip(x.0, rest);
    }
    assert forall|s: Seq<u8>| #[trigger] id_parse()(s) is Some implies {
        let (x, k) = id_parse()(s)->Some_0;
        &&& k <= s.len()
        &&& s.take(k as int) == id_enc()(x)
        &&& id_wf()(x)
    } by {
        lemma_u32_sound(s);
    }
}

impl Id {
    pub fn encode_to(&self, out: &mut Vec<u8>)
        ensures
            final(out)@ == old(out)@ + enc_id(*self),
    {
        encode_u32(self.0, out);
    }

    pub fn decode(input: &mut Input) -> (r: Option<Id>)
        ensures
            match parse_id(old(input).rest()) {
                Some((v, k)) => r == Some(v) && final(input).rest() == old(input).rest().skip(k as int),
                None => r is None,
            },
    {
        let x = decode_u32(input)?;
        Some(Id(x))
    }
}

/// Identifier for a chain: the relay chain or one of the parachains.
#[derive(Clone, Copy, PartialEq, Eq, Structural, Debug)]
pub enum Chain {
    /// The relay chain.
    Relay,
    /// A parachain of the given index.
    Parachain(Id),
}

/// Discriminant byte of `Chain::Relay`.
pub const CHAIN_RELAY: u8 = 0;

/// Discriminant byte of `Chain::Parachain`.
pub const CHAIN_PARACHAIN: u8 = 1;

pub open spec fn enc_chain(c: Chain) -> Seq<u8> {
    match c {
        Chain::Relay => seq![CHAIN_RELAY],
        Chain::Parachain(id) => seq![CHAIN_PARACHAIN] + enc_id(id),
    }
}

pub open spec fn parse_chain(s: Seq<u8>) -> Option<(Chain, nat)> {
    if s.len() == 0 {
        None
    } else if s[0] == CHAIN_RELAY {
        Some((Chain::Relay, 1))
    } else if s[0] == CHAIN_PARACHAIN {
        match parse_id(s.skip(1)) {
            Some((id, k)) => Some((Chain::Parachain(id), 1 + k)),
            None => None,
        }
    } else {
        None
    }
}

pub open spec fn chain_enc() -> spec_fn(Chain) -> Seq<u8> {
    |c: Chain| enc_chain(c)
}

pub open spec fn chain_parse() -> spec_fn(Seq<u8>) -> Option<(Chain, nat)> {
    |s: Seq<u8>| parse_chain(s)
}

pub open spec fn any_chain(c: Chain) -> bool {
    true
}

pub open spec fn chain_wf() -> spec_fn(Chain) -> bool {
    |c: Chain| any_chain(c)
}

/// Every `Chain` reads back from its encoding, and whatever reads as a `Chain`
/// is the encoding of the value read.
pub proof fn lemma_chain_codec()
    ensures
        is_codec(chain_enc(), chain_parse(), chain_wf()),
{
    assert forall|x: Chain, rest: Seq<u8>| chain_wf()(x) implies #[trigger] chain_parse()(chain_enc()(x) + rest)
        == Some((x, chain_enc()(x).len())) by {
        let s = enc_chain(x) + rest;
        match x {
            Chain::Relay => {
                assert(s[0] == CHAIN_RELAY);
            },
            Chain::Parachain(id) => {
                assert(s[0] == CHAIN_PARACHAIN);
                assert(s.skip(1) =~= enc_u32(id.0) + rest);
                lemma_u32_round_trip(id.0, rest);
            },
        }
    }
    assert forall|s: Seq<u8>| #[trigger] chain_parse()(s) is Some implies {
        let (x, k) = chain_parse()(s)->Some_0;
        &&& k <= s.len()
        &&& s.take(k as int) == chain_enc()(x)
        &&& chain_wf()(x)
    } by {
        if s[0] == CHAIN_RELAY {
            assert(s.take(1) =~= seq![CHAIN_RELAY]);
        } else {
            lemma_u32_sound(s.skip(1));
            lemma_take_step(s, 1, 4);
            assert(s.take(1) =~= seq![CHAIN_PARACHAIN]);
        }
    }
}

/// A `Chain` whose first byte is no known discriminant does not decode.
pub proof fn lemma_chain_unknown_discriminant(s: Seq<u8>)
    requires
        s.len() > 0,
        s[0] != CHAIN_RELAY,
        s[0] != CHAIN_PARACHAIN,
    ensures
        parse_chain(s) is None,
{
}

/// No strict prefix of a `Chain`'s encoding decodes.
pub proof fn lemma_chain_truncated(c: Chain, n: int)
    requires
        0 <= n < enc_chain(c).len(),
    ensures
        parse_chain(enc_chain(c).take(n)) is None,
{
    lemma_chain_codec();
    lemma_codec_prefix_fails(chain_enc(), chain_parse(), chain_wf(), c, n);
}

impl Chain {
    pub fn encode_to(&self, out: &mut Vec<u8>)
        ensures
            final(out)@ == old(out)@ + enc_chain(*self),
    {
        match *self {
            Chain::Relay => {
                out.push(CHAIN_RELAY);
                assert(out@ =~= old(out)@ + enc_chain(*self));
            },
            Chain::Parachain(id) => {
                out.push(CHAIN_PARACHAIN);
                id.encode_to(out);
                assert(out@ =~= old(out)@ + enc_chain(*self));
            },
        }
    }

    pub fn encode(&self) -> (r: Vec<u8>)
        ensures
            r@ == enc_chain(*self),
    {
        let mut v: Vec<u8> = Vec::new();
        self.encode_to(&mut v);
        assert(v@ =~= enc_chain(*self));
        v
    }

    pub fn decode(input: &mut Input) -> (r: Option<Chain>)
        ensures
            match parse_chain(old(input).rest()) {
                Some((v, k)) => r == Some(v) && final(input).rest() == old(input).rest().skip(k as int),
                None => r is None,
            },
    {
        let ghost s = input.rest();
        let disc = input.read_byte()?;
        if disc == CHAIN_RELAY {
            Some(Chain::Relay)
        } else if disc == CHAIN_PARACHAIN {
            let id = Id::decode(input)?;
            proof {
                if s.len() >= 5 {
                    lemma_take_step(s, 1, 4);
                }
            }
            Some(Chain::Parachain(id))
        } else {
            None
        }
    }
}

/// Writes a length-prefixed sequence of chains.
pub fn encode_chains(v: &Vec<Chain>, out: &mut Vec<u8>)
    requires
        v.len() <= u32::MAX,
    ensures
        final(out)@ == old(out)@ + enc_seq(v@, chain_enc()),
{
    encode_u32(v.len() as u32, out);
    let ghost start = out@;
    let mut i: usize = 0;
    while i < v.len()
        invariant
            i <= v.len(),
            out@ == start + enc_elems(v@.take(i as int), chain_enc()),
        decreases v.len() - i,
    {
        v[i].encode_to(out);
        i = i + 1;
        assert(v@.take(i as int).drop_last() =~= v@.take(i - 1));
        assert(out@ =~= start + enc_elems(v@.take(i as int), chain_enc()));
    }
    assert(v@.take(v.len() as int) =~= v@);
}

/// Reads a length-prefixed sequence of chains.
pub fn decode_chains(input: &mut Input) -> (r: Option<Vec<Chain>>)
    ensures
        match parse_seq(old(input).rest(), chain_parse()) {
            Some((v, k)) => r is Some && r->Some_0@ == v && final(input).rest() == old(input).rest().skip(k as int),
            None => r is None,
        },
{
    let ghost s0 = input.rest();
    let n = decode_u32(input)?;
    let ghost s = input.rest();
    let ghost mut c: nat = 0;
    let mut out: Vec<Chain> = Vec::new();
    let mut i: u32 = 0;
    while i < n
        invariant
            i <= n,
            s0 == old(input).rest(),
            s == s0.skip(4),
            s0.len() >= 4,
            parse_u32(s0) == Some((n, 4nat)),
            c <= s.len(),
            parse_elems(s, i as nat, chain_parse()) == Some((out@, c)),
            input.rest() == s.skip(c as int),
        decreases n - i,
    {
        match Chain::decode(input) {
            Some(x) => {
                let ghost k = parse_chain(s.skip(c as int))->Some_0.1;
                proof {
                    lemma_chain_codec();
                    lemma_take_step(s, c as int, k as int);
                    c = c + k;
                }
                out.push(x);
            },
            None => {
                assert(chain_parse()(s.skip(c as int)) is None);
                assert(parse_elems(s, (i + 1) as nat, chain_parse()) is None);
                proof { lemma_elems_fail_more(s, (i + 1) as nat, n as nat, chain_parse()); }
                return None;
            },
        }
        i = i + 1;
    }
    assert(s0.skip(4).skip(c as int) =~= s0.skip((4 + c) as int));
    Some(out)
}


/// The duty roster specifying what jobs each validator must do.
#[derive(Clone, PartialEq, Eq, Debug)]
pub struct DutyRoster {
    /// Lookup from validator index to chain on which that validator has a duty to validate.
    pub validator_duty: Vec<Chain>,
    /// Lookup from validator index to chain on which that validator has a duty to guarantee
    /// availability.
    pub guarantor_duty: Vec<Chain>,
}

/// The value a `DutyRoster` holds.
pub struct DutyRosterView {
    pub validator_duty: Seq<Chain>,
    pub guarantor_duty: Seq<Chain>,
}

impl View for DutyRoster {
    type V = DutyRosterView;

    open spec fn view(&self) -> DutyRosterView {
        DutyRosterView { validator_duty: self.validator_duty@, guarantor_duty: self.guarantor_duty@ }
    }
}

/// Both duty lists encoded one after the other, each with its length.
pub open spec fn enc_duty_roster(d: DutyRosterView) -> Seq<u8> {
    enc_seq(d.validator_duty, chain_enc()) + enc_seq(d.guarantor_duty, chain_enc())
}

pub open spec fn parse_duty_roster(s: Seq<u8>) -> Option<(DutyRosterView, nat)> {
    match parse_seq(s, chain_parse()) {
        Some((a, k)) => match parse_seq(s.skip(k as int), chain_parse()) {
            Some((b, m)) => Some((DutyRosterView { validator_duty: a, guarantor_duty: b }, k + m)),
            None => None,
        },
        None => None,
    }
}

/// Both lists are short enough for their length prefix.
pub open spec fn wf_duty_roster(d: DutyRosterView) -> bool {
    wf_seq(d.validator_duty, chain_wf()) && wf_seq(d.guarantor_duty, chain_wf())
}

pub open spec fn duty_roster_enc() -> spec_fn(DutyRosterView) -> Seq<u8> {
    |d: DutyRosterView| enc_duty_roster(d)
}

pub open spec fn duty_roster_parse() -> spec_fn(Seq<u8>) -> Option<(DutyRosterView, nat)> {
    |s: Seq<u8>| parse_duty_roster(s)
}

pub open spec fn duty_roster_wf() -> spec_fn(DutyRosterView) -> bool {
    |d: DutyRosterView| wf_duty_roster(d)
}

/// Every encodable `DutyRoster` reads back from its encoding, and whatever reads
/// as a `DutyRoster` is the encoding of the value read.
pub proof fn lemma_duty_roster_codec()
    ensures
        is_codec(duty_roster_enc(), duty_roster_parse(), duty_roster_wf()),
{
    lemma_chain_codec();
    lemma_seq_codec(chain_enc(), chain_parse(), chain_wf());
    assert forall|x: DutyRosterView, rest: Seq<u8>| duty_roster_wf()(x) implies #[trigger] duty_roster_parse()(
        duty_roster_enc()(x) + rest) == Some((x, duty_roster_enc()(x).len())) by {
        let ea = enc_seq(x.validator_duty, chain_enc());
        let eb = enc_seq(x.guarantor_duty, chain_enc());
        let s = ea + eb + rest;
        assert(s =~= ea + (eb + rest));
        assert(seq_wf(chain_wf())(x.validator_duty));
        assert(seq_wf(chain_wf())(x.guarantor_duty));
        assert(seq_parse(chain_parse())(seq_enc(chain_enc())(x.validator_duty) + (eb + rest))
            == Some((x.validator_duty, ea.len())));
        assert(s.skip(ea.len() as int) =~= eb + rest);
        assert(seq_parse(chain_parse())(seq_enc(chain_enc())(x.guarantor_duty) + rest)
            == Some((x.guarantor_duty, eb.len())));
    }
    assert forall|s: Seq<u8>| #[trigger] duty_roster_parse()(s) is Some implies {
        let (x, k) = duty_roster_parse()(s)->Some_0;
        &&& k <= s.len()
        &&& s.take(k as int) == duty_roster_enc()(x)
        &&& duty_roster_wf()(x)
    } by {
        assert(seq_parse(chain_parse())(s) is Some);
        let k = parse_seq(s, chain_parse())->Some_0.1;
        assert(seq_parse(chain_parse())(s.skip(k as int)) is Some);
        let m = parse_seq(s.skip(k as int), chain_parse())->Some_0.1;
        lemma_take_step(s, k as int, m as int);
    }
}

/// No strict prefix of a `DutyRoster`'s encoding decodes.
pub proof fn lemma_duty_roster_truncated(d: DutyRosterView, n: int)
    requires
        wf_duty_roster(d),
        0 <= n < enc_duty_roster(d).len(),
    ensures
        parse_duty_roster(enc_duty_roster(d).take(n)) is None,
{
    lemma_duty_roster_codec();
    lemma_codec_prefix_fails(duty_roster_enc(), duty_roster_parse(), duty_roster_wf(), d, n);
}

impl DutyRoster {
    pub fn encode_to(&self, out: &mut Vec<u8>)
        requires
            wf_duty_roster(self@),
        ensures
            final(out)@ == old(out)@ + enc_duty_roster(self@),
    {
        encode_chains(&self.validator_duty, out);
        encode_chains(&self.guarantor_duty, out);
        assert(out@ =~= old(out)@ + enc_duty_roster(self@));
    }

    pub fn encode(&self) -> (r: Vec<u8>)
        requires
            wf_duty_roster(self@),
        ensures
            r@ == enc_duty_roster(self@),
    {
        let mut v: Vec<u8> = Vec::new();
        self.encode_to(&mut v);
        assert(v@ =~= enc_duty_roster(self@));
        v
    }

    pub fn decode(input: &mut Input) -> (r: Option<DutyRoster>)
        ensures
            match parse_duty_roster(old(input).rest()) {
                Some((v, k)) => r is Some && r->Some_0@ == v && final(input).rest() == old(input).rest().skip(k as int),
                None => r is None,
            },
    {
        let ghost s = input.rest();
        let validator_duty = decode_chains(input)?;
        let guarantor_duty = decode_chains(input)?;
        proof {
            lemma_chain_codec();
            lemma_seq_codec(chain_enc(), chain_parse(), chain_wf());
            assert(seq_parse(chain_parse())(s) is Some);
            let k = parse_seq(s, chain_parse())->Some_0.1;
            assert(seq_parse(chain_parse())(s.skip(k as int)) is Some);
            let m = parse_seq(s.skip(k as int), chain_parse())->Some_0.1;
            lemma_take_step(s, k as int, m as int);
        }
        Some(DutyRoster { validator_duty, guarantor_duty })
    }
}


/// Account id of the relay chain: a 32-byte public key.
pub type AccountId = [u8; 32];

/// A 32-byte hash of some data used by the relay chain.
pub type Hash = [u8; 32];

/// Parachain ingress queue message.
#[derive(Clone, PartialEq, Eq, Debug)]
pub struct Message(pub Vec<u8>);

/// Consolidated ingress queue data: other parachains' egress queues, ordered by
/// parachain id and block number.
#[derive(Clone, PartialEq, Eq, Debug, Default)]
pub struct ConsolidatedIngress(pub Vec<(Id, Vec<Message>)>);

/// Extrinsic data for a parachain.
#[derive(Clone, PartialEq, Eq, Debug)]
pub struct Extrinsic;

/// An Ed25519 signature.
pub type Signature = [u8; 64];

/// Candidate parachain block.
#[derive(Clone, PartialEq, Eq, Debug)]
pub struct Candidate {
    /// The id of the parachain this is a proposal for.
    pub parachain_index: Id,
    /// Collator's signature.
    pub collator_signature: Signature,
    /// Unprocessed ingress queue, ordered by parachain id and block number.
    pub unprocessed_ingress: ConsolidatedIngress,
    /// Block data.
    pub block: BlockData,
}

/// Parachain block data: everything required to validate a parachain block.
#[derive(Clone, PartialEq, Eq, Debug)]
pub struct BlockData(pub Vec<u8>);

/// Parachain header raw bytes.
#[derive(PartialEq, Eq, Debug)]
pub struct Header(pub Vec<u8>);

/// Parachain head data included in the chain.
#[derive(Clone, PartialEq, Eq, PartialOrd, Ord, Debug)]
pub struct HeadData(pub Vec<u8>);

/// Parachain validation code.
#[derive(PartialEq, Eq, Debug)]
pub struct ValidationCode(pub Vec<u8>);

/// Activity bit field.
#[derive(Clone, PartialEq, Eq, Debug, Default)]
pub struct Activity(pub Vec<u8>);

impl Activity {
    pub fn encode_to(&self, out: &mut Vec<u8>)
        requires
            self.0.len() <= u32::MAX,
        ensures
            final(out)@ == old(out)@ + enc_seq(self.0@, u8_enc()),
    {
        encode_bytes(&self.0, out);
    }

    pub fn decode(input: &mut Input) -> (r: Option<Activity>)
        ensures
            match parse_seq(old(input).rest(), u8_parse()) {
                Some((v, k)) => r is Some && r->Some_0.0@ == v && final(input).rest() == old(input).rest().skip(k as int),
                None => r is None,
            },
    {
        let b = decode_bytes(input)?;
        Some(Activity(b))
    }
}

} // verus!
