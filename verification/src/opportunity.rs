use vstd::prelude::*;
use vstd::string::*;
use vstd::utf8::{encode_utf8, encode_utf8_decode_utf8};

use sha2::{Digest, Sha256};

use crate::clock::nanos;
use crate::types::ArbitrageOpportunity;

verus! {

/// SHA-256 digest of a byte string.
pub uninterp spec fn sha256(data: Seq<u8>) -> Seq<u8>;

/// Calls `sha2::Sha256::digest` on `data` and returns the 32-byte digest.
/// The digest is named, not described: the same bytes give the same digest.
#[verifier::external_body]
fn sha256_digest(data: &[u8]) -> (r: [u8; 32])
    ensures
        r@ == sha256(data@),
{
    Sha256::digest(data).into()
}

/// Deterministic identifier of an arbitrage opportunity: the SHA-256 digest
/// of its triangle's six currency codes, each prefixed with its length, so
/// that each triangle gets its own identifier.
#[derive(Debug, Clone, Copy, PartialEq, Eq, Hash)]
pub struct OpportunityId(pub [u8; 32]);

impl View for OpportunityId {
    type V = Seq<u8>;

    open spec fn view(&self) -> Seq<u8> {
        self.0@
    }
}

/// Eight bytes of `n`, most significant first.
pub open spec fn be_bytes(n: u64) -> Seq<u8> {
    seq![
        ((n >> 56u64) & 0xff) as u8,
        ((n >> 48u64) & 0xff) as u8,
        ((n >> 40u64) & 0xff) as u8,
        ((n >> 32u64) & 0xff) as u8,
        ((n >> 24u64) & 0xff) as u8,
        ((n >> 16u64) & 0xff) as u8,
        ((n >> 8u64) & 0xff) as u8,
        (n & 0xff) as u8,
    ]
}

/// One currency code in the hashed key: the length of its UTF-8 encoding
/// as eight big-endian bytes, then the encoding.
pub open spec fn code_piece(code: Seq<char>) -> Seq<u8> {
    be_bytes(encode_utf8(code).len() as u64) + encode_utf8(code)
}

/// The pieces of the codes, concatenated in order.
pub open spec fn codes_key(codes: Seq<Seq<char>>) -> Seq<u8>
    decreases codes.len(),
{
    if codes.len() == 0 {
        Seq::empty()
    } else {
        code_piece(codes[0]) + codes_key(codes.drop_first())
    }
}

/// The six currency codes of an opportunity's triangle, in leg order.
pub open spec fn triangle_codes(opp: ArbitrageOpportunity) -> Seq<Seq<char>> {
    seq![
        opp.triangle.leg_a.0@,
        opp.triangle.leg_a.1@,
        opp.triangle.leg_b.0@,
        opp.triangle.leg_b.1@,
        opp.triangle.leg_c.0@,
        opp.triangle.leg_c.1@,
    ]
}

/// The bytes hashed for an opportunity: its six currency codes, each
/// prefixed with its length, so that different code tuples never give the
/// same bytes.
pub open spec fn opportunity_key(opp: ArbitrageOpportunity) -> Seq<u8> {
    codes_key(triangle_codes(opp))
}

/// Appending a code to the list appends its piece to the key.
proof fn lemma_codes_key_push(codes: Seq<Seq<char>>, c: Seq<char>)
    ensures
        codes_key(codes.push(c)) == codes_key(codes) + code_piece(c),
    decreases codes.len(),
{
    if codes.len() == 0 {
        assert(codes.push(c).drop_first() =~= Seq::<Seq<char>>::empty());
        assert(codes_key(codes.push(c)) =~= code_piece(c) + codes_key(Seq::<Seq<char>>::empty()));
    } else {
        assert(codes.push(c).drop_first() =~= codes.drop_first().push(c));
        lemma_codes_key_push(codes.drop_first(), c);
        assert(codes_key(codes.push(c)) =~= codes_key(codes) + code_piece(c));
    }
}

proof fn lemma_be_bytes_injective(n: u64, m: u64)
    requires
        be_bytes(n) == be_bytes(m),
    ensures
        n == m,
{
    let bn = be_bytes(n);
    let bm = be_bytes(m);
    assert(bn[0] == bm[0] && bn[1] == bm[1] && bn[2] == bm[2] && bn[3] == bm[3]);
    assert(bn[4] == bm[4] && bn[5] == bm[5] && bn[6] == bm[6] && bn[7] == bm[7]);
    assert(n == m) by (bit_vector)
        requires
            ((n >> 56u64) & 0xff) as u8 == ((m >> 56u64) & 0xff) as u8,
            ((n >> 48u64) & 0xff) as u8 == ((m >> 48u64) & 0xff) as u8,
            ((n >> 40u64) & 0xff) as u8 == ((m >> 40u64) & 0xff) as u8,
            ((n >> 32u64) & 0xff) as u8 == ((m >> 32u64) & 0xff) as u8,
            ((n >> 24u64) & 0xff) as u8 == ((m >> 24u64) & 0xff) as u8,
            ((n >> 16u64) & 0xff) as u8 == ((m >> 16u64) & 0xff) as u8,
            ((n >> 8u64) & 0xff) as u8 == ((m >> 8u64) & 0xff) as u8,
            (n & 0xff) as u8 == (m & 0xff) as u8,
    ;
}

/// A piece can be read back off the front of a key.
proof fn lemma_piece_prefix(a: Seq<char>, b: Seq<char>, x: Seq<u8>, y: Seq<u8>)
    requires
        code_piece(a) + x == code_piece(b) + y,
        encode_utf8(a).len() <= u64::MAX,
        encode_utf8(b).len() <= u64::MAX,
    ensures
        a == b,
        x == y,
{
    let ea = encode_utf8(a);
    let eb = encode_utf8(b);
    let ka = code_piece(a) + x;
    let kb = code_piece(b) + y;
    assert(ka.subrange(0, 8) =~= be_bytes(ea.len() as u64));
    assert(kb.subrange(0, 8) =~= be_bytes(eb.len() as u64));
    lemma_be_bytes_injective(ea.len() as u64, eb.len() as u64);
    assert(ea.len() == eb.len());
    let l = ea.len() as int;
    assert(ka.subrange(8, 8 + l) =~= ea);
    assert(kb.subrange(8, 8 + l) =~= eb);
    encode_utf8_decode_utf8(a);
    encode_utf8_decode_utf8(b);
    assert(ka.subrange(8 + l, ka.len() as int) =~= x);
    assert(kb.subrange(8 + l, kb.len() as int) =~= y);
}

/// Equal keys come from equal code lists (of equal length, every code's
/// encoding no longer than `u64::MAX` bytes).
proof fn lemma_codes_key_injective(c1: Seq<Seq<char>>, c2: Seq<Seq<char>>)
    requires
        c1.len() == c2.len(),
        codes_key(c1) == codes_key(c2),
        forall|k: int| 0 <= k < c1.len() ==> encode_utf8(#[trigger] c1[k]).len() <= u64::MAX,
        forall|k: int| 0 <= k < c2.len() ==> encode_utf8(#[trigger] c2[k]).len() <= u64::MAX,
    ensures
        c1 == c2,
    decreases c1.len(),
{
    if c1.len() > 0 {
        lemma_piece_prefix(c1[0], c2[0], codes_key(c1.drop_first()), codes_key(c2.drop_first()));
        assert forall|k: int| 0 <= k < c1.drop_first().len() implies encode_utf8(#[trigger] c1.drop_first()[k]).len()
            <= u64::MAX by {
            assert(c1.drop_first()[k] == c1[k + 1]);
        }
        assert forall|k: int| 0 <= k < c2.drop_first().len() implies encode_utf8(#[trigger] c2.drop_first()[k]).len()
            <= u64::MAX by {
            assert(c2.drop_first()[k] == c2[k + 1]);
        }
        lemma_codes_key_injective(c1.drop_first(), c2.drop_first());
        assert(c1 =~= seq![c1[0]] + c1.drop_first());
        assert(c2 =~= seq![c2[0]] + c2.drop_first());
    } else {
        assert(c1 =~= c2);
    }
}

/// Different triangles give different keys: when the keys of two
/// opportunities are equal, so are their six currency codes. (A code's
/// encoding must fit the 64-bit length prefix.)
pub proof fn lemma_key_identifies_triangle(a: ArbitrageOpportunity, b: ArbitrageOpportunity)
    requires
        opportunity_key(a) == opportunity_key(b),
        forall|k: int| 0 <= k < 6 ==> encode_utf8(#[trigger] triangle_codes(a)[k]).len() <= u64::MAX,
        forall|k: int| 0 <= k < 6 ==> encode_utf8(#[trigger] triangle_codes(b)[k]).len() <= u64::MAX,
    ensures
        triangle_codes(a) == triangle_codes(b),
{
    lemma_codes_key_injective(triangle_codes(a), triangle_codes(b));
}

/// Lower-case hexadecimal digit of a value below 16.
pub open spec fn hex_digit(d: int) -> char {
    "0123456789abcdef"@[d]
}

/// Two lower-case hexadecimal digits of a byte.
pub open spec fn hex_byte(b: u8) -> Seq<char> {
    seq![hex_digit(b as int / 16), hex_digit(b as int % 16)]
}

/// Hexadecimal of the bytes `s[lo..hi]`.
pub open spec fn hex_bytes(s: Seq<u8>, lo: int, hi: int) -> Seq<char>
    decreases hi - lo,
{
    if lo >= hi {
        Seq::empty()
    } else {
        hex_bytes(s, lo, hi - 1) + hex_byte(s[hi - 1])
    }
}

fn append_piece(out: &mut Vec<u8>, s: &String)
    ensures
        final(out)@ == old(out)@ + code_piece(s@),
{
    let b = s.as_str().as_bytes();
    let ghost o0 = out@;
    let n: u64 = b.len() as u64;
    out.push(((n >> 56u64) & 0xff) as u8);
    out.push(((n >> 48u64) & 0xff) as u8);
    out.push(((n >> 40u64) & 0xff) as u8);
    out.push(((n >> 32u64) & 0xff) as u8);
    out.push(((n >> 24u64) & 0xff) as u8);
    out.push(((n >> 16u64) & 0xff) as u8);
    out.push(((n >> 8u64) & 0xff) as u8);
    out.push((n & 0xff) as u8);
    assert(out@ =~= o0 + be_bytes(encode_utf8(s@).len() as u64));
    let ghost o1 = out@;
    let mut k: usize = 0;
    while k < b.len()
        invariant
            k <= b.len(),
            b@ == encode_utf8(s@),
            out@ == o1 + b@.subrange(0, k as int),
        decreases b.len() - k,
    {
        out.push(b[k]);
        k = k + 1;
        assert(b@.subrange(0, k as int) =~= b@.subrange(0, k - 1).push(b@[k - 1]));
        assert(out@ =~= o1 + b@.subrange(0, k as int));
    }
    assert(b@.subrange(0, b.len() as int) =~= b@);
    assert(out@ =~= o0 + code_piece(s@));
}

fn push_hex_digit(out: &mut String, d: u8)
    requires
        d < 16,
    ensures
        final(out)@ == old(out)@.push(hex_digit(d as int)),
{
    let digits = "0123456789abcdef";
    proof {
        reveal_strlit("0123456789abcdef");
    }
    let one = digits.substring_char(d as usize, d as usize + 1);
    out.append(one);
    assert(one@ =~= seq![hex_digit(d as int)]);
}

impl OpportunityId {
    /// Identifier of an opportunity: SHA-256 of its triangle's currency codes,
    /// each prefixed with its byte length.
    pub fn from_opportunity(opp: &ArbitrageOpportunity) -> (id: OpportunityId)
        ensures
            id@ == sha256(opportunity_key(*opp)),
    {
        let mut key: Vec<u8> = Vec::new();
        let ghost codes = triangle_codes(*opp);
        append_piece(&mut key, &opp.triangle.leg_a.0);
        append_piece(&mut key, &opp.triangle.leg_a.1);
        append_piece(&mut key, &opp.triangle.leg_b.0);
        append_piece(&mut key, &opp.triangle.leg_b.1);
        append_piece(&mut key, &opp.triangle.leg_c.0);
        append_piece(&mut key, &opp.triangle.leg_c.1);
        proof {
            let e = Seq::<Seq<char>>::empty();
            lemma_codes_key_push(e, codes[0]);
            lemma_codes_key_push(codes.take(1), codes[1]);
            lemma_codes_key_push(codes.take(2), codes[2]);
            lemma_codes_key_push(codes.take(3), codes[3]);
            lemma_codes_key_push(codes.take(4), codes[4]);
            lemma_codes_key_push(codes.take(5), codes[5]);
            assert(e.push(codes[0]) =~= codes.take(1));
            assert(codes.take(1).push(codes[1]) =~= codes.take(2));
            assert(codes.take(2).push(codes[2]) =~= codes.take(3));
            assert(codes.take(3).push(codes[3]) =~= codes.take(4));
            assert(codes.take(4).push(codes[4]) =~= codes.take(5));
            assert(codes.take(5).push(codes[5]) =~= codes);
            assert(codes_key(e) == Seq::<u8>::empty());
            assert(key@ =~= opportunity_key(*opp));
        }
        OpportunityId(sha256_digest(key.as_slice()))
    }

    /// Byte-wise equality.
    pub fn same_as(&self, other: &OpportunityId) -> (r: bool)
        ensures
            r == (self@ == other@),
    {
        let mut k: usize = 0;
        while k < 32
            invariant
                k <= 32,
                self@.len() == 32,
                other@.len() == 32,
                forall|q: int| 0 <= q < k ==> self@[q] == other@[q],
            decreases 32 - k,
        {
            if self.0[k] != other.0[k] {
                return false;
            }
            k = k + 1;
        }
        assert(self@ =~= other@);
        true
    }

    fn push_hex_range(&self, out: &mut String, lo: usize, hi: usize)
        requires
            lo <= hi <= 32,
        ensures
            final(out)@ == old(out)@ + hex_bytes(self@, lo as int, hi as int),
    {
        let ghost o0 = out@;
        let mut k: usize = lo;
        while k < hi
            invariant
                lo <= k <= hi,
                hi <= 32,
                self@.len() == 32,
                out@ == o0 + hex_bytes(self@, lo as int, k as int),
                o0 == old(out)@,
            decreases hi - k,
        {
            let b = self.0[k];
            push_hex_digit(out, b / 16);
            push_hex_digit(out, b % 16);
            k = k + 1;
            assert(out@ =~= o0 + hex_bytes(self@, lo as int, k as int));
        }
    }

    /// Short text form: the first and last four bytes in hexadecimal,
    /// joined by `..`.
    pub fn debug_string(&self) -> (s: String)
        ensures
            s@ == hex_bytes(self@, 0, 4) + ".."@ + hex_bytes(self@, 28, 32),
    {
        let mut s = String::new();
        self.push_hex_range(&mut s, 0, 4);
        s.append("..");
        self.push_hex_range(&mut s, 28, 32);
        s
    }
}

/// Whether `id` has an entry in a table.
pub open spec fn has_id(entries: Seq<(Seq<u8>, u64)>, id: Seq<u8>) -> bool {
    exists|p: int| 0 <= p < entries.len() && entries[p].0 == id
}

/// An entry inserted at `t` is still live at `now` for a time-to-live `ttl`.
pub open spec fn live_at(t: u64, now: u64, ttl: u64) -> bool {
    t > now - ttl
}

/// Time-to-live table of opportunity identifiers, for deduplication.
pub struct DedupTable {
    entries: Vec<(OpportunityId, u64)>,
    ttl_ns: u64,
}

impl DedupTable {
    /// Entries as (identifier bytes, insertion time) in insertion order.
    pub closed spec fn entries(&self) -> Seq<(Seq<u8>, u64)> {
        self.entries@.map_values(|e: (OpportunityId, u64)| (e.0@, e.1))
    }

    pub closed spec fn ttl(&self) -> u64 {
        self.ttl_ns
    }

    pub closed spec fn wf(&self) -> bool {
        forall|p: int, q: int|
            0 <= p < self.entries().len() && 0 <= q < self.entries().len() && p != q ==> (
            #[trigger] self.entries()[p]).0 != (#[trigger] self.entries()[q]).0
    }

    pub fn new(ttl_ns: u64) -> (t: DedupTable)
        ensures
            t.wf(),
            t.entries().len() == 0,
            t.ttl() == ttl_ns,
    {
        let t = DedupTable { entries: Vec::new(), ttl_ns };
        assert(t.entries() =~= Seq::<(Seq<u8>, u64)>::empty());
        t
    }

    fn contains(&self, id: &OpportunityId) -> (r: bool)
        ensures
            r == has_id(self.entries(), id@),
    {
        let mut k: usize = 0;
        while k < self.entries.len()
            invariant
                k <= self.entries.len(),
                forall|q: int| 0 <= q < k ==> self.entries()[q].0 != id@,
            decreases self.entries.len() - k,
        {
            if self.entries[k].0.same_as(id) {
                assert(self.entries()[k as int].0 == id@);
                return true;
            }
            k = k + 1;
        }
        false
    }

    /// `true` when `id` is new; it is then recorded as inserted at `now_ns`.
    pub fn check_and_insert_at(&mut self, id: OpportunityId, now_ns: u64) -> (fresh: bool)
        requires
            old(self).wf(),
        ensures
            final(self).wf(),
            fresh == !has_id(old(self).entries(), id@),
            final(self).entries() == if fresh {
                old(self).entries().push((id@, now_ns))
            } else {
                old(self).entries()
            },
            final(self).ttl() == old(self).ttl(),
    {
        if self.contains(&id) {
            return false;
        }
        let ghost e0 = self.entries();
        self.entries.push((id, now_ns));
        proof {
            assert(self.entries() =~= e0.push((id@, now_ns)));
            assert forall|p: int, q: int|
                0 <= p < self.entries().len() && 0 <= q < self.entries().len() && p != q implies (
                #[trigger] self.entries()[p]).0 != (#[trigger] self.entries()[q]).0 by {
                if p == e0.len() {
                    assert(!(0 <= q < e0.len() && e0[q].0 == id@));
                } else if q == e0.len() {
                    assert(!(0 <= p < e0.len() && e0[p].0 == id@));
                }
            }
        }
        true
    }

    /// `true` when `id` is new (not a duplicate); it is then recorded.
    pub fn check_and_insert(&mut self, id: OpportunityId) -> (fresh: bool)
        requires
            old(self).wf(),
        ensures
            final(self).wf(),
            fresh == !has_id(old(self).entries(), id@),
            fresh ==> exists|t: u64| final(self).entries() == #[trigger] old(self).entries().push((id@, t)),
            !fresh ==> final(self).entries() == old(self).entries(),
            final(self).ttl() == old(self).ttl(),
    {
        let now = nanos();
        self.check_and_insert_at(id, now)
    }

    /// Drops the entries that are no longer live at `now_ns`.
    pub fn gc_at(&mut self, now_ns: u64)
        requires
            old(self).wf(),
        ensures
            final(self).wf(),
            final(self).entries() == old(self).entries().filter(
                |e: (Seq<u8>, u64)| live_at(e.1, now_ns, old(self).ttl()),
            ),
            final(self).ttl() == old(self).ttl(),
    {
        let ghost e0 = self.entries();
        let ghost pred = |e: (Seq<u8>, u64)| live_at(e.1, now_ns, self.ttl_ns);
        let mut kept: Vec<(OpportunityId, u64)> = Vec::new();
        let mut k: usize = 0;
        while k < self.entries.len()
            invariant
                k <= self.entries.len(),
                e0 == self.entries(),
                pred == (|e: (Seq<u8>, u64)| live_at(e.1, now_ns, self.ttl_ns)),
                kept@.map_values(|e: (OpportunityId, u64)| (e.0@, e.1)) == e0.take(k as int).filter(pred),
            decreases self.entries.len() - k,
        {
            let e = self.entries[k];
            proof {
                e0.take(k as int).lemma_filter_push(e0[k as int], pred);
                assert(e0.take(k + 1) =~= e0.take(k as int).push(e0[k as int]));
            }
            if now_ns < self.ttl_ns || e.1 > now_ns - self.ttl_ns {
                kept.push(e);
            }
            k = k + 1;
            assert(kept@.map_values(|e: (OpportunityId, u64)| (e.0@, e.1)) =~= e0.take(k as int).filter(pred));
        }
        proof {
            assert(e0.take(e0.len() as int) =~= e0);
        }
        self.entries = kept;
        proof {
            let f = e0.filter(pred);
            assert forall|p: int, q: int|
                0 <= p < f.len() && 0 <= q < f.len() && p != q implies (#[trigger] f[p]).0 != (#[trigger] f[q]).0 by {
                lemma_filter_distinct(e0, pred);
            }
        }
    }

    /// Drops the entries older than the time-to-live.
    pub fn gc(&mut self)
        requires
            old(self).wf(),
        ensures
            final(self).wf(),
            exists|now: u64|
                final(self).entries() == old(self).entries().filter(
                    #[trigger] ttl_filter(now, old(self).ttl()),
                ),
            final(self).ttl() == old(self).ttl(),
    {
        let now = nanos();
        self.gc_at(now);
        assert(ttl_filter(now, self.ttl()) == (|e: (Seq<u8>, u64)| live_at(e.1, now, self.ttl())));
    }

    pub fn len(&self) -> (r: usize)
        ensures
            r == self.entries().len(),
    {
        self.entries.len()
    }

    pub fn is_empty(&self) -> (r: bool)
        ensures
            r == (self.entries().len() == 0),
    {
        self.entries.len() == 0
    }
}

/// The liveness test of entries at `now` for time-to-live `ttl`.
pub open spec fn ttl_filter(now: u64, ttl: u64) -> spec_fn((Seq<u8>, u64)) -> bool {
    |e: (Seq<u8>, u64)| live_at(e.1, now, ttl)
}

/// Filtering keeps keys distinct.
pub proof fn lemma_filter_distinct(s: Seq<(Seq<u8>, u64)>, pred: spec_fn((Seq<u8>, u64)) -> bool)
    requires
        forall|p: int, q: int|
            0 <= p < s.len() && 0 <= q < s.len() && p != q ==> (#[trigger] s[p]).0 != (#[trigger] s[q]).0,
    ensures
        forall|p: int, q: int|
            0 <= p < s.filter(pred).len() && 0 <= q < s.filter(pred).len() && p != q ==> (
            #[trigger] s.filter(pred)[p]).0 != (#[trigger] s.filter(pred)[q]).0,
    decreases s.len(),
{
    reveal(Seq::filter);
    if s.len() > 0 {
        let d = s.drop_last();
        lemma_filter_distinct(d, pred);
        let fd = d.filter(pred);
        if pred(s.last()) {
            let f = fd.push(s.last());
            assert forall|p: int| 0 <= p < fd.len() implies (#[trigger] fd[p]).0 != s.last().0 by {
                assert(fd.contains(fd[p]));
                d.lemma_filter_contains_rev(pred, fd[p]);
                let k = choose|k: int| 0 <= k < d.len() && d[k] == fd[p];
                assert(s[k] == d[k]);
                assert(s[k].0 != s[s.len() - 1].0);
            }
            assert(s.filter(pred) == f);
        }
    }
}

/// The identifier depends on the triangle's currency codes only: two
/// opportunities over the same triangle get the same identifier whatever
/// their routes or timestamps.
pub proof fn lemma_id_depends_on_triangle(a: ArbitrageOpportunity, b: ArbitrageOpportunity)
    requires
        a.triangle.leg_a.0@ == b.triangle.leg_a.0@,
        a.triangle.leg_a.1@ == b.triangle.leg_a.1@,
        a.triangle.leg_b.0@ == b.triangle.leg_b.0@,
        a.triangle.leg_b.1@ == b.triangle.leg_b.1@,
        a.triangle.leg_c.0@ == b.triangle.leg_c.0@,
        a.triangle.leg_c.1@ == b.triangle.leg_c.1@,
    ensures
        sha256(opportunity_key(a)) == sha256(opportunity_key(b)),
{
}

/// Once an identifier is admitted, the table holds it, so a second
/// check of it within the time-to-live reports a duplicate.
pub proof fn lemma_admitted_is_duplicate(entries: Seq<(Seq<u8>, u64)>, id: Seq<u8>, now: u64)
    ensures
        has_id(entries.push((id, now)), id),
{
    assert(entries.push((id, now))[entries.len() as int].0 == id);
}

/// An entry inserted at `t` survives a collection at `now` exactly when it
/// is younger than the time-to-live.
pub proof fn lemma_gc_keeps_live(entries: Seq<(Seq<u8>, u64)>, now: u64, ttl: u64, k: int)
    requires
        0 <= k < entries.len(),
    ensures
        entries.filter(ttl_filter(now, ttl)).contains(entries[k]) <==> live_at(entries[k].1, now, ttl),
        entries.filter(ttl_filter(now, ttl)).contains(entries[k]) <==> entries[k].1 + ttl > now,
{
    let f = ttl_filter(now, ttl);
    if live_at(entries[k].1, now, ttl) {
        entries.lemma_filter_contains(f, k);
    }
    if entries.filter(f).contains(entries[k]) {
        let p = choose|p: int| 0 <= p < entries.filter(f).len() && entries.filter(f)[p] == entries[k];
        entries.lemma_filter_pred(f, p);
    }
}

} // verus!
