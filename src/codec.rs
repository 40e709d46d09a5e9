//! Canonical binary encoding: fixed-width little-endian integers, length-prefixed
//! sequences and a forward-only reader over a byte buffer.
use vstd::prelude::*;

verus! {

/// A forward-only cursor over an immutable byte buffer.
pub struct Input {
    data: Vec<u8>,
    pos: usize,
}

impl Input {
    #[verifier::type_invariant]
    spec fn inv(&self) -> bool {
        self.pos <= self.data.len()
    }

    /// The bytes that have not been read yet.
    pub closed spec fn rest(&self) -> Seq<u8> {
        self.data@.skip(self.pos as int)
    }

    pub fn new(data: Vec<u8>) -> (r: Input)
        ensures
            r.rest() == data@,
    {
        let r = Input { data, pos: 0 };
        assert(r.rest() =~= r.data@);
        r
    }

    /// Number of bytes that have not been read yet.
    pub fn remaining(&self) -> (r: usize)
        ensures
            r == self.rest().len(),
    {
        proof { use_type_invariant(self); }
        self.data.len() - self.pos
    }

    /// Reads the next byte, or `None` at the end of the input.
    pub fn read_byte(&mut self) -> (r: Option<u8>)
        ensures
            match parse_u8(old(self).rest()) {
                Some((b, k)) => r == Some(b) && final(self).rest() == old(self).rest().skip(k as int),
                None => r is None && final(self).rest() == old(self).rest(),
            },
    {
        proof { use_type_invariant(&*self); }
        if self.pos < self.data.len() {
            let b = self.data[self.pos];
            self.pos = self.pos + 1;
            assert(self.rest() =~= old(self).rest().skip(1));
            Some(b)
        } else {
            None
        }
    }

    /// Reads the next `n` bytes, or nothing at all if fewer than `n` remain.
    pub fn read_bytes(&mut self, n: usize) -> (r: Option<Vec<u8>>)
        ensures
            n <= old(self).rest().len() ==> r is Some && r->Some_0@ == old(self).rest().take(n as int)
                && final(self).rest() == old(self).rest().skip(n as int),
            n > old(self).rest().len() ==> r is None && final(self).rest() == old(self).rest(),
    {
        proof { use_type_invariant(&*self); }
        if n > self.data.len() - self.pos {
            return None;
        }
        let mut out: Vec<u8> = Vec::new();
        let start: usize = self.pos;
        let mut i: usize = 0;
        while i < n
            invariant
                start == old(self).pos,
                self.data == old(self).data,
                start + n <= self.data.len(),
                self.pos == start,
                i <= n,
                out@ == self.data@.subrange(start as int, start + i),
            decreases n - i,
        {
            out.push(self.data[start + i]);
            i = i + 1;
            assert(out@ =~= self.data@.subrange(start as int, start + i));
        }
        self.pos = start + n;
        assert(out@ =~= old(self).rest().take(n as int));
        assert(self.rest() =~= old(self).rest().skip(n as int));
        Some(out)
    }
}

// ---------------------------------------------------------------------------
// What it means for an encoding function and a parser to agree.
// ---------------------------------------------------------------------------

/// `p` reads back every encodable value that `f` wrote, whatever follows it.
pub open spec fn round_trips<A>(f: spec_fn(A) -> Seq<u8>, p: spec_fn(Seq<u8>) -> Option<(A, nat)>, wf: spec_fn(A) -> bool) -> bool {
    forall|x: A, rest: Seq<u8>| wf(x) ==> #[trigger] p(f(x) + rest) == Some((x, f(x).len()))
}

/// Whatever `p` accepts is an encodable value whose encoding opens the input.
pub open spec fn parses_soundly<A>(f: spec_fn(A) -> Seq<u8>, p: spec_fn(Seq<u8>) -> Option<(A, nat)>, wf: spec_fn(A) -> bool) -> bool {
    forall|s: Seq<u8>| #[trigger] p(s) is Some ==> {
        let (x, k) = p(s)->Some_0;
        &&& k <= s.len()
        &&& s.take(k as int) == f(x)
        &&& wf(x)
    }
}

/// `f` and `p` form a codec for the values that satisfy `wf`.
pub open spec fn is_codec<A>(f: spec_fn(A) -> Seq<u8>, p: spec_fn(Seq<u8>) -> Option<(A, nat)>, wf: spec_fn(A) -> bool) -> bool {
    round_trips(f, p, wf) && parses_soundly(f, p, wf)
}

/// Of a codec, a strict prefix of an encoding never parses.
pub proof fn lemma_codec_prefix_fails<A>(
    f: spec_fn(A) -> Seq<u8>,
    p: spec_fn(Seq<u8>) -> Option<(A, nat)>,
    wf: spec_fn(A) -> bool,
    x: A,
    n: int,
)
    requires
        is_codec(f, p, wf),
        wf(x),
        0 <= n < f(x).len(),
    ensures
        p(f(x).take(n)) is None,
{
    let e = f(x);
    let t = e.take(n);
    if p(t) is Some {
        let (y, k) = p(t)->Some_0;
        assert(t.take(k as int) == f(y));
        assert(e =~= f(y) + e.skip(k as int));
        assert(p(f(y) + e.skip(k as int)) == Some((y, f(y).len())));
        assert(e =~= e + Seq::<u8>::empty());
        assert(p(f(x) + Seq::<u8>::empty()) == Some((x, f(x).len())));
        assert(false);
    }
}

/// Reading `k` bytes and then `m` more is reading `k + m` bytes.
pub proof fn lemma_take_step(s: Seq<u8>, k: int, m: int)
    requires
        0 <= k,
        0 <= m,
        k + m <= s.len(),
    ensures
        s.take(k + m) == s.take(k) + s.skip(k).take(m),
        s.skip(k).skip(m) == s.skip(k + m),
{
    assert(s.take(k + m) =~= s.take(k) + s.skip(k).take(m));
    assert(s.skip(k).skip(m) =~= s.skip(k + m));
}

/// What follows a prefix is the rest of the concatenation.
pub proof fn lemma_skip_concat(a: Seq<u8>, b: Seq<u8>)
    ensures
        (a + b).skip(a.len() as int) == b,
{
    assert((a + b).skip(a.len() as int) =~= b);
}

// ---------------------------------------------------------------------------
// Single bytes and fixed-width integers.
// ---------------------------------------------------------------------------

pub open spec fn enc_u8(b: u8) -> Seq<u8> {
    seq![b]
}

pub open spec fn parse_u8(s: Seq<u8>) -> Option<(u8, nat)> {
    if s.len() >= 1 { Some((s[0], 1)) } else { None }
}

pub open spec fn any_u8(b: u8) -> bool {
    true
}

pub open spec fn u8_enc() -> spec_fn(u8) -> Seq<u8> {
    |b: u8| enc_u8(b)
}

pub open spec fn u8_parse() -> spec_fn(Seq<u8>) -> Option<(u8, nat)> {
    |s: Seq<u8>| parse_u8(s)
}

pub open spec fn u8_wf() -> spec_fn(u8) -> bool {
    |b: u8| any_u8(b)
}

pub proof fn lemma_u8_codec()
    ensures
        is_codec(u8_enc(), u8_parse(), u8_wf()),
{
    assert forall|x: u8, rest: Seq<u8>| any_u8(x) implies #[trigger] parse_u8(enc_u8(x) + rest) == Some((x, enc_u8(x).len())) by {
        assert((enc_u8(x) + rest)[0] == x);
    }
    assert forall|s: Seq<u8>| #[trigger] parse_u8(s) is Some implies s.take(1) == enc_u8(s[0]) by {
        assert(s.take(1) =~= enc_u8(s[0]));
    }
}

/// The little-endian value of four bytes.
pub open spec fn le_u32(b0: u8, b1: u8, b2: u8, b3: u8) -> u32 {
    (b0 as u32) | ((b1 as u32) << 8u32) | ((b2 as u32) << 16u32) | ((b3 as u32) << 24u32)
}

/// Four bytes, least significant first.
pub open spec fn enc_u32(x: u32) -> Seq<u8> {
    seq![(x & 0xff) as u8, ((x >> 8u32) & 0xff) as u8, ((x >> 16u32) & 0xff) as u8, ((x >> 24u32) & 0xff) as u8]
}

pub open spec fn parse_u32(s: Seq<u8>) -> Option<(u32, nat)> {
    if s.len() >= 4 { Some((le_u32(s[0], s[1], s[2], s[3]), 4)) } else { None }
}

pub open spec fn any_u32(x: u32) -> bool {
    true
}

proof fn lemma_le_u32_bytes(x: u32)
    ensures
        le_u32((x & 0xff) as u8, ((x >> 8u32) & 0xff) as u8, ((x >> 16u32) & 0xff) as u8, ((x >> 24u32) & 0xff) as u8) == x,
{
    assert(((((x & 0xff) as u8) as u32) | (((((x >> 8u32) & 0xff) as u8) as u32) << 8u32) | (((((x >> 16u32) & 0xff) as u8) as u32) << 16u32) | (((((x >> 24u32) & 0xff) as u8) as u32) << 24u32)) == x) by (bit_vector);
}

proof fn lemma_u32_le_bytes(b0: u8, b1: u8, b2: u8, b3: u8)
    ensures
        enc_u32(le_u32(b0, b1, b2, b3)) == seq![b0, b1, b2, b3],
{
    let x = le_u32(b0, b1, b2, b3);
    assert((x & 0xff) as u8 == b0 && ((x >> 8u32) & 0xff) as u8 == b1 && ((x >> 16u32) & 0xff) as u8 == b2 && ((x >> 24u32) & 0xff) as u8 == b3) by (bit_vector)
        requires x == (b0 as u32) | ((b1 as u32) << 8u32) | ((b2 as u32) << 16u32) | ((b3 as u32) << 24u32);
    assert(enc_u32(x) =~= seq![b0, b1, b2, b3]);
}

pub proof fn lemma_u32_codec()
    ensures
        is_codec(|x: u32| enc_u32(x), |s: Seq<u8>| parse_u32(s), |x: u32| any_u32(x)),
{
    assert forall|x: u32, rest: Seq<u8>| any_u32(x) implies #[trigger] parse_u32(enc_u32(x) + rest) == Some((x, enc_u32(x).len())) by {
        lemma_le_u32_bytes(x);
    }
    assert forall|s: Seq<u8>| #[trigger] parse_u32(s) is Some implies s.take(4) == enc_u32(parse_u32(s)->Some_0.0) by {
        lemma_u32_le_bytes(s[0], s[1], s[2], s[3]);
        assert(s.take(4) =~= seq![s[0], s[1], s[2], s[3]]);
    }
}



pub proof fn lemma_u32_round_trip(x: u32, rest: Seq<u8>)
    ensures
        parse_u32(enc_u32(x) + rest) == Some((x, 4nat)),
        enc_u32(x).len() == 4,
{
    lemma_le_u32_bytes(x);
}

pub proof fn lemma_u32_sound(s: Seq<u8>)
    ensures
        parse_u32(s) is Some ==> s.len() >= 4 && s.take(4) == enc_u32(parse_u32(s)->Some_0.0),
{
    if s.len() >= 4 {
        lemma_u32_le_bytes(s[0], s[1], s[2], s[3]);
        assert(s.take(4) =~= seq![s[0], s[1], s[2], s[3]]);
    }
}

/// The little-endian value of eight bytes.
pub open spec fn le_u64(b: Seq<u8>) -> u64 {
    (b[0] as u64) | ((b[1] as u64) << 8u64) | ((b[2] as u64) << 16u64) | ((b[3] as u64) << 24u64)
        | ((b[4] as u64) << 32u64) | ((b[5] as u64) << 40u64) | ((b[6] as u64) << 48u64) | ((b[7] as u64) << 56u64)
}

/// Eight bytes, least significant first.
pub open spec fn enc_u64(x: u64) -> Seq<u8> {
    seq![(x & 0xff) as u8, ((x >> 8u64) & 0xff) as u8, ((x >> 16u64) & 0xff) as u8, ((x >> 24u64) & 0xff) as u8,
        ((x >> 32u64) & 0xff) as u8, ((x >> 40u64) & 0xff) as u8, ((x >> 48u64) & 0xff) as u8, ((x >> 56u64) & 0xff) as u8]
}

pub open spec fn parse_u64(s: Seq<u8>) -> Option<(u64, nat)> {
    if s.len() >= 8 { Some((le_u64(s), 8)) } else { None }
}

pub proof fn lemma_u64_round_trip(x: u64, rest: Seq<u8>)
    ensures
        parse_u64(enc_u64(x) + rest) == Some((x, 8nat)),
        enc_u64(x).len() == 8,
{
    let s = enc_u64(x) + rest;
    assert(le_u64(s) == ((((x & 0xff) as u8) as u64) | (((((x >> 8u64) & 0xff) as u8) as u64) << 8u64)
        | (((((x >> 16u64) & 0xff) as u8) as u64) << 16u64) | (((((x >> 24u64) & 0xff) as u8) as u64) << 24u64)
        | (((((x >> 32u64) & 0xff) as u8) as u64) << 32u64) | (((((x >> 40u64) & 0xff) as u8) as u64) << 40u64)
        | (((((x >> 48u64) & 0xff) as u8) as u64) << 48u64) | (((((x >> 56u64) & 0xff) as u8) as u64) << 56u64)));
    assert(((((x & 0xff) as u8) as u64) | (((((x >> 8u64) & 0xff) as u8) as u64) << 8u64)
        | (((((x >> 16u64) & 0xff) as u8) as u64) << 16u64) | (((((x >> 24u64) & 0xff) as u8) as u64) << 24u64)
        | (((((x >> 32u64) & 0xff) as u8) as u64) << 32u64) | (((((x >> 40u64) & 0xff) as u8) as u64) << 40u64)
        | (((((x >> 48u64) & 0xff) as u8) as u64) << 48u64) | (((((x >> 56u64) & 0xff) as u8) as u64) << 56u64)) == x)
        by (bit_vector);
}

pub proof fn lemma_u64_sound(s: Seq<u8>)
    ensures
        parse_u64(s) is Some ==> s.len() >= 8 && s.take(8) == enc_u64(parse_u64(s)->Some_0.0),
{
    if s.len() >= 8 {
        let (b0, b1, b2, b3, b4, b5, b6, b7) = (s[0], s[1], s[2], s[3], s[4], s[5], s[6], s[7]);
        let x = le_u64(s);
        assert((x & 0xff) as u8 == b0 && ((x >> 8u64) & 0xff) as u8 == b1 && ((x >> 16u64) & 0xff) as u8 == b2
            && ((x >> 24u64) & 0xff) as u8 == b3 && ((x >> 32u64) & 0xff) as u8 == b4 && ((x >> 40u64) & 0xff) as u8 == b5
            && ((x >> 48u64) & 0xff) as u8 == b6 && ((x >> 56u64) & 0xff) as u8 == b7) by (bit_vector)
            requires x == (b0 as u64) | ((b1 as u64) << 8u64) | ((b2 as u64) << 16u64) | ((b3 as u64) << 24u64)
                | ((b4 as u64) << 32u64) | ((b5 as u64) << 40u64) | ((b6 as u64) << 48u64) | ((b7 as u64) << 56u64);
        assert(s.take(8) =~= enc_u64(x));
    }
}

// ---------------------------------------------------------------------------
// 32-byte hashes and account ids: the bytes as they are.
// ---------------------------------------------------------------------------

pub open spec fn enc_h256(h: Seq<u8>) -> Seq<u8> {
    h
}

pub open spec fn parse_h256(s: Seq<u8>) -> Option<(Seq<u8>, nat)> {
    if s.len() >= 32 { Some((s.take(32), 32)) } else { None }
}

pub open spec fn is_h256(h: Seq<u8>) -> bool {
    h.len() == 32
}

pub proof fn lemma_h256_round_trip(h: Seq<u8>, rest: Seq<u8>)
    requires
        is_h256(h),
    ensures
        parse_h256(enc_h256(h) + rest) == Some((h, 32nat)),
{
    assert((h + rest).take(32) =~= h);
}

// ---------------------------------------------------------------------------
// Length-prefixed sequences: a 32-bit count, then each element's encoding.
// ---------------------------------------------------------------------------

/// The elements' encodings, one after the other.
pub open spec fn enc_elems<A>(xs: Seq<A>, f: spec_fn(A) -> Seq<u8>) -> Seq<u8>
    decreases xs.len(),
{
    if xs.len() == 0 {
        Seq::empty()
    } else {
        enc_elems(xs.drop_last(), f) + f(xs.last())
    }
}

pub open spec fn enc_seq<A>(xs: Seq<A>, f: spec_fn(A) -> Seq<u8>) -> Seq<u8> {
    enc_u32(xs.len() as u32) + enc_elems(xs, f)
}

/// Reads `n` elements one after the other; the count of bytes they took.
pub open spec fn parse_elems<A>(s: Seq<u8>, n: nat, p: spec_fn(Seq<u8>) -> Option<(A, nat)>) -> Option<(Seq<A>, nat)>
    decreases n,
{
    if n == 0 {
        Some((Seq::empty(), 0))
    } else {
        match parse_elems(s, (n - 1) as nat, p) {
            Some((xs, m)) => match p(s.skip(m as int)) {
                Some((x, k)) => Some((xs.push(x), m + k)),
                None => None,
            },
            None => None,
        }
    }
}

pub open spec fn parse_seq<A>(s: Seq<u8>, p: spec_fn(Seq<u8>) -> Option<(A, nat)>) -> Option<(Seq<A>, nat)> {
    match parse_u32(s) {
        Some((n, k)) => match parse_elems(s.skip(k as int), n as nat, p) {
            Some((xs, m)) => Some((xs, k + m)),
            None => None,
        },
        None => None,
    }
}

/// A sequence can be encoded when its length fits the prefix and each element can.
pub open spec fn wf_seq<A>(xs: Seq<A>, wf: spec_fn(A) -> bool) -> bool {
    xs.len() <= u32::MAX && forall|i: int| 0 <= i < xs.len() ==> #[trigger] wf(xs[i])
}

pub open spec fn seq_enc<A>(f: spec_fn(A) -> Seq<u8>) -> spec_fn(Seq<A>) -> Seq<u8> {
    |xs: Seq<A>| enc_seq(xs, f)
}

pub open spec fn seq_parse<A>(p: spec_fn(Seq<u8>) -> Option<(A, nat)>) -> spec_fn(Seq<u8>) -> Option<(Seq<A>, nat)> {
    |s: Seq<u8>| parse_seq(s, p)
}

pub open spec fn seq_wf<A>(wf: spec_fn(A) -> bool) -> spec_fn(Seq<A>) -> bool {
    |xs: Seq<A>| wf_seq(xs, wf)
}

pub proof fn lemma_elems_round_trip<A>(
    f: spec_fn(A) -> Seq<u8>,
    p: spec_fn(Seq<u8>) -> Option<(A, nat)>,
    wf: spec_fn(A) -> bool,
    xs: Seq<A>,
    rest: Seq<u8>,
)
    requires
        round_trips(f, p, wf),
        forall|i: int| 0 <= i < xs.len() ==> #[trigger] wf(xs[i]),
    ensures
        parse_elems(enc_elems(xs, f) + rest, xs.len(), p) == Some((xs, enc_elems(xs, f).len())),
    decreases xs.len(),
{
    if xs.len() == 0 {
        assert(xs =~= Seq::<A>::empty());
    } else {
        let ys = xs.drop_last();
        let x = xs.last();
        let rest2 = f(x) + rest;
        assert forall|i: int| 0 <= i < ys.len() implies #[trigger] wf(ys[i]) by {
            assert(wf(xs[i]));
        }
        lemma_elems_round_trip(f, p, wf, ys, rest2);
        let s = enc_elems(xs, f) + rest;
        assert(s =~= enc_elems(ys, f) + rest2);
        assert(s.skip(enc_elems(ys, f).len() as int) =~= f(x) + rest);
        assert(wf(xs[xs.len() - 1]));
        assert(p(f(x) + rest) == Some((x, f(x).len())));
        assert(ys.push(x) =~= xs);
    }
}

pub proof fn lemma_elems_sound<A>(
    f: spec_fn(A) -> Seq<u8>,
    p: spec_fn(Seq<u8>) -> Option<(A, nat)>,
    wf: spec_fn(A) -> bool,
    s: Seq<u8>,
    n: nat,
)
    requires
        parses_soundly(f, p, wf),
    ensures
        parse_elems(s, n, p) is Some ==> {
            let (xs, m) = parse_elems(s, n, p)->Some_0;
            &&& xs.len() == n
            &&& m <= s.len()
            &&& s.take(m as int) == enc_elems(xs, f)
            &&& forall|i: int| 0 <= i < xs.len() ==> #[trigger] wf(xs[i])
        },
    decreases n,
{
    if n == 0 {
        assert(s.take(0) =~= Seq::<u8>::empty());
    } else {
        lemma_elems_sound(f, p, wf, s, (n - 1) as nat);
        if parse_elems(s, n, p) is Some {
            let (ys, m) = parse_elems(s, (n - 1) as nat, p)->Some_0;
            let t = s.skip(m as int);
            let (x, k) = p(t)->Some_0;
            assert(t.take(k as int) == f(x));
            let xs = ys.push(x);
            assert(xs.drop_last() =~= ys);
            assert(s.take((m + k) as int) =~= s.take(m as int) + t.take(k as int));
            assert forall|i: int| 0 <= i < xs.len() implies #[trigger] wf(xs[i]) by {
                if i < ys.len() {
                    assert(xs[i] == ys[i]);
                }
            }
        }
    }
}

/// Once `n` elements fail to parse, more of them fail too.
pub proof fn lemma_elems_fail_more<A>(s: Seq<u8>, n: nat, n2: nat, p: spec_fn(Seq<u8>) -> Option<(A, nat)>)
    requires
        n <= n2,
        parse_elems(s, n, p) is None,
    ensures
        parse_elems(s, n2, p) is None,
    decreases n2 - n,
{
    if n < n2 {
        lemma_elems_fail_more(s, n, (n2 - 1) as nat, p);
    }
}

/// A codec for elements gives a codec for length-prefixed sequences of them.
pub proof fn lemma_seq_codec<A>(f: spec_fn(A) -> Seq<u8>, p: spec_fn(Seq<u8>) -> Option<(A, nat)>, wf: spec_fn(A) -> bool)
    requires
        is_codec(f, p, wf),
    ensures
        is_codec(seq_enc(f), seq_parse(p), seq_wf(wf)),
{
    assert forall|xs: Seq<A>, rest: Seq<u8>| seq_wf(wf)(xs) implies #[trigger] seq_parse(p)(seq_enc(f)(xs) + rest)
        == Some((xs, seq_enc(f)(xs).len())) by {
        let e = enc_elems(xs, f);
        let s = enc_seq(xs, f) + rest;
        assert(s =~= enc_u32(xs.len() as u32) + (e + rest));
        lemma_u32_round_trip(xs.len() as u32, e + rest);
        assert(s.skip(4) =~= e + rest);
        lemma_elems_round_trip(f, p, wf, xs, rest);
    }
    assert forall|s: Seq<u8>| #[trigger] seq_parse(p)(s) is Some implies {
        let (xs, k) = seq_parse(p)(s)->Some_0;
        &&& k <= s.len()
        &&& s.take(k as int) == seq_enc(f)(xs)
        &&& seq_wf(wf)(xs)
    } by {
        lemma_u32_sound(s);
        let n = parse_u32(s)->Some_0.0;
        let t = s.skip(4);
        lemma_elems_sound(f, p, wf, t, n as nat);
        let (xs, m) = parse_elems(t, n as nat, p)->Some_0;
        assert(s.take((4 + m) as int) =~= s.take(4) + t.take(m as int));
    }
}

// ---------------------------------------------------------------------------
// Writing and reading the encodings.
// ---------------------------------------------------------------------------

pub fn encode_u32(x: u32, out: &mut Vec<u8>)
    ensures
        final(out)@ == old(out)@ + enc_u32(x),
{
    out.push((x & 0xff) as u8);
    out.push(((x >> 8u32) & 0xff) as u8);
    out.push(((x >> 16u32) & 0xff) as u8);
    out.push(((x >> 24u32) & 0xff) as u8);
    assert(out@ =~= old(out)@ + enc_u32(x));
}

pub fn decode_u32(input: &mut Input) -> (r: Option<u32>)
    ensures
        match parse_u32(old(input).rest()) {
            Some((v, k)) => r == Some(v) && final(input).rest() == old(input).rest().skip(k as int),
            None => r is None,
        },
{
    let b = input.read_bytes(4)?;
    Some((b[0] as u32) | ((b[1] as u32) << 8u32) | ((b[2] as u32) << 16u32) | ((b[3] as u32) << 24u32))
}

pub fn encode_u64(x: u64, out: &mut Vec<u8>)
    ensures
        final(out)@ == old(out)@ + enc_u64(x),
{
    out.push((x & 0xff) as u8);
    out.push(((x >> 8u64) & 0xff) as u8);
    out.push(((x >> 16u64) & 0xff) as u8);
    out.push(((x >> 24u64) & 0xff) as u8);
    out.push(((x >> 32u64) & 0xff) as u8);
    out.push(((x >> 40u64) & 0xff) as u8);
    out.push(((x >> 48u64) & 0xff) as u8);
    out.push(((x >> 56u64) & 0xff) as u8);
    assert(out@ =~= old(out)@ + enc_u64(x));
}

pub fn decode_u64(input: &mut Input) -> (r: Option<u64>)
    ensures
        match parse_u64(old(input).rest()) {
            Some((v, k)) => r == Some(v) && final(input).rest() == old(input).rest().skip(k as int),
            None => r is None,
        },
{
    let b = input.read_bytes(8)?;
    Some((b[0] as u64) | ((b[1] as u64) << 8u64) | ((b[2] as u64) << 16u64) | ((b[3] as u64) << 24u64)
        | ((b[4] as u64) << 32u64) | ((b[5] as u64) << 40u64) | ((b[6] as u64) << 48u64) | ((b[7] as u64) << 56u64))
}

pub fn encode_h256(h: &[u8; 32], out: &mut Vec<u8>)
    ensures
        final(out)@ == old(out)@ + enc_h256(h@),
{
    let mut i: usize = 0;
    while i < 32
        invariant
            i <= 32,
            h@.len() == 32,
            out@ == old(out)@ + h@.take(i as int),
        decreases 32 - i,
    {
        out.push(h[i]);
        i = i + 1;
        assert(out@ =~= old(out)@ + h@.take(i as int));
    }
    assert(h@.take(32) =~= h@);
}

pub fn decode_h256(input: &mut Input) -> (r: Option<[u8; 32]>)
    ensures
        match parse_h256(old(input).rest()) {
            Some((v, k)) => r is Some && r->Some_0@ == v && final(input).rest() == old(input).rest().skip(k as int),
            None => r is None,
        },
{
    let b = input.read_bytes(32)?;
    let mut h: [u8; 32] = [0u8; 32];
    let mut i: usize = 0;
    while i < 32
        invariant
            i <= 32,
            b@.len() == 32,
            forall|j: int| 0 <= j < i ==> h@[j] == b@[j],
        decreases 32 - i,
    {
        h[i] = b[i];
        i = i + 1;
    }
    assert(h@ =~= b@);
    Some(h)
}

/// Writes a byte string: its length, then the bytes.
pub fn encode_bytes(b: &Vec<u8>, out: &mut Vec<u8>)
    requires
        b.len() <= u32::MAX,
    ensures
        final(out)@ == old(out)@ + enc_seq(b@, u8_enc()),
{
    encode_u32(b.len() as u32, out);
    let ghost start = out@;
    let mut i: usize = 0;
    while i < b.len()
        invariant
            i <= b.len(),
            out@ == start + enc_elems(b@.take(i as int), u8_enc()),
        decreases b.len() - i,
    {
        out.push(b[i]);
        i = i + 1;
        assert(b@.take(i as int).drop_last() =~= b@.take(i - 1));
        assert(out@ =~= start + enc_elems(b@.take(i as int), u8_enc()));
    }
    assert(b@.take(b.len() as int) =~= b@);
}

/// Reads a byte string: its length, then that many bytes.
pub fn decode_bytes(input: &mut Input) -> (r: Option<Vec<u8>>)
    ensures
        match parse_seq(old(input).rest(), u8_parse()) {
            Some((v, k)) => r is Some && r->Some_0@ == v && final(input).rest() == old(input).rest().skip(k as int),
            None => r is None,
        },
{
    let ghost s0 = input.rest();
    let n = decode_u32(input)?;
    let ghost s = input.rest();
    let ghost mut c: nat = 0;
    let mut out: Vec<u8> = Vec::new();
    let mut i: u32 = 0;
    while i < n
        invariant
            i <= n,
            s0 == old(input).rest(),
            s == s0.skip(4),
            s0.len() >= 4,
            parse_u32(s0) == Some((n, 4nat)),
            c <= s.len(),
            parse_elems(s, i as nat, u8_parse()) == Some((out@, c)),
            input.rest() == s.skip(c as int),
        decreases n - i,
    {
        match input.read_byte() {
            Some(b) => {
                out.push(b);
                assert(input.rest() =~= s.skip((c + 1) as int));
                proof { c = c + 1; }
            },
            None => {
                assert(parse_u8(s.skip(c as int)) is None);
                assert(u8_parse()(s.skip(c as int)) is None);
                assert(parse_elems(s, (i + 1) as nat, u8_parse()) is None);
                proof { lemma_elems_fail_more(s, (i + 1) as nat, n as nat, u8_parse()); }
                return None;
            },
        }
        i = i + 1;
    }
    assert(s0.skip(4).skip(c as int) =~= s0.skip((4 + c) as int));
    Some(out)
}

} // verus!
