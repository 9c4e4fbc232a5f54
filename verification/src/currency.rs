use vstd::prelude::*;

use crate::types::SymbolId;

verus! {

/// Whether `s` ends with `t`.
pub open spec fn ends_with(s: Seq<char>, t: Seq<char>) -> bool {
    t.len() <= s.len() && s.subrange(s.len() - t.len(), s.len() as int) == t
}

/// `s` with every trailing repetition of a non-empty `t` removed.
pub open spec fn trim_end(s: Seq<char>, t: Seq<char>) -> Seq<char>
    decreases s.len(),
{
    if t.len() > 0 && ends_with(s, t) {
        trim_end(s.subrange(0, s.len() - t.len()), t)
    } else {
        s
    }
}

/// Splits an instrument name into base and quote currency by the first
/// matching quote suffix; an unknown suffix is read as a `USDT` quote.
pub open spec fn spec_parse_currency(s: Seq<char>) -> (Seq<char>, Seq<char>) {
    if ends_with(s, "USDT"@) {
        (trim_end(s, "USDT"@), "USDT"@)
    } else if ends_with(s, "BTC"@) {
        (trim_end(s, "BTC"@), "BTC"@)
    } else if ends_with(s, "ETH"@) {
        (trim_end(s, "ETH"@), "ETH"@)
    } else if ends_with(s, "SOL"@) {
        (trim_end(s, "SOL"@), "SOL"@)
    } else if ends_with(s, "BNB"@) {
        (trim_end(s, "BNB"@), "BNB"@)
    } else if ends_with(s, "BUSD"@) {
        (trim_end(s, "BUSD"@), "BUSD"@)
    } else if ends_with(s, "FDUSD"@) {
        (trim_end(s, "FDUSD"@), "FDUSD"@)
    } else {
        (s, "USDT"@)
    }
}

/// Whether `s` ends with `t`, comparing characters.
pub fn str_ends_with(s: &str, t: &str) -> (r: bool)
    ensures
        r == ends_with(s@, t@),
{
    let sl = s.unicode_len();
    let tl = t.unicode_len();
    if tl > sl {
        return false;
    }
    let off = sl - tl;
    let mut k: usize = 0;
    while k < tl
        invariant
            sl == s@.len(),
            tl == t@.len(),
            off == sl - tl,
            k <= tl,
            forall|q: int| 0 <= q < k ==> s@[off + q] == t@[q],
        decreases tl - k,
    {
        if s.get_char(off + k) != t.get_char(k) {
            assert(s@.subrange(off as int, sl as int)[k as int] != t@[k as int]);
            return false;
        }
        k = k + 1;
    }
    assert(s@.subrange(off as int, sl as int) =~= t@);
    true
}

/// `s` with every trailing repetition of `t` removed (`t` must not be empty).
pub fn str_trim_end<'a>(s: &'a str, t: &str) -> (r: &'a str)
    requires
        t@.len() > 0,
    ensures
        r@ == trim_end(s@, t@),
{
    let mut cur: &str = s;
    let tl = t.unicode_len();
    while str_ends_with(cur, t)
        invariant
            tl == t@.len(),
            tl > 0,
            trim_end(cur@, t@) == trim_end(s@, t@),
        decreases cur@.len(),
    {
        let cl = cur.unicode_len();
        cur = cur.substring_char(0, cl - tl);
    }
    cur
}

fn split_quote(s: &str, quote: &str) -> (r: (String, String))
    requires
        quote@.len() > 0,
    ensures
        r.0@ == trim_end(s@, quote@),
        r.1@ == quote@,
{
    (str_trim_end(s, quote).to_owned(), quote.to_owned())
}

/// Base and quote currency of an instrument, read from its name's suffix.
pub fn parse_currency(symbol: &SymbolId) -> (r: (String, String))
    ensures
        (r.0@, r.1@) == spec_parse_currency(symbol.symbol@),
{
    let s = symbol.symbol.as_str();
    proof {
        reveal_strlit("USDT");
        reveal_strlit("BTC");
        reveal_strlit("ETH");
        reveal_strlit("SOL");
        reveal_strlit("BNB");
        reveal_strlit("BUSD");
        reveal_strlit("FDUSD");
    }
    if str_ends_with(s, "USDT") {
        split_quote(s, "USDT")
    } else if str_ends_with(s, "BTC") {
        split_quote(s, "BTC")
    } else if str_ends_with(s, "ETH") {
        split_quote(s, "ETH")
    } else if str_ends_with(s, "SOL") {
        split_quote(s, "SOL")
    } else if str_ends_with(s, "BNB") {
        split_quote(s, "BNB")
    } else if str_ends_with(s, "BUSD") {
        split_quote(s, "BUSD")
    } else if str_ends_with(s, "FDUSD") {
        split_quote(s, "FDUSD")
    } else {
        (s.to_owned(), "USDT".to_owned())
    }
}

/// `b + q` ends with `q`, and removing that suffix gives `b` back.
proof fn lemma_concat_suffix(b: Seq<char>, q: Seq<char>)
    ensures
        ends_with(b + q, q),
        (b + q).subrange(0, (b + q).len() - q.len()) == b,
{
    assert((b + q).subrange((b + q).len() - q.len(), (b + q).len() as int) =~= q);
    assert((b + q).subrange(0, (b + q).len() - q.len()) =~= b);
}

/// `b + q` does not end with `p` when the two disagree at some position
/// counted from the end of the shorter.
proof fn lemma_not_suffix(b: Seq<char>, q: Seq<char>, p: Seq<char>, i: int)
    requires
        0 <= i < p.len(),
        i < q.len(),
        p[p.len() - 1 - i] != q[q.len() - 1 - i],
    ensures
        !ends_with(b + q, p),
{
    let s = b + q;
    if ends_with(s, p) {
        assert(s.subrange(s.len() - p.len(), s.len() as int)[p.len() - 1 - i] == s[s.len() - 1 - i]);
        assert(s[s.len() - 1 - i] == q[q.len() - 1 - i]);
    }
}

/// Trimming a non-empty suffix `q` from `b + q` gives `b` when `b` does
/// not itself end with `q`.
proof fn lemma_trim_once(b: Seq<char>, q: Seq<char>)
    requires
        q.len() > 0,
        !ends_with(b, q),
    ensures
        trim_end(b + q, q) == b,
{
    lemma_concat_suffix(b, q);
    assert(trim_end(b, q) == b);
    assert(trim_end(b + q, q) == trim_end((b + q).subrange(0, (b + q).len() - q.len()), q));
}

/// Every known quote currency is read off the end of a symbol: for a quote
/// `q` among USDT, BTC, ETH, SOL, BNB, BUSD and FDUSD, and any base `b` that
/// does not itself end with `q`, the symbol `b + q` splits into `(b, q)`.
pub proof fn lemma_parse_known_quote(b: Seq<char>, q: Seq<char>)
    requires
        q == "USDT"@ || q == "BTC"@ || q == "ETH"@ || q == "SOL"@ || q == "BNB"@ || q == "BUSD"@ || q
            == "FDUSD"@,
        !ends_with(b, q),
    ensures
        spec_parse_currency(b + q) == (b, q),
{
    reveal_strlit("USDT");
    reveal_strlit("BTC");
    reveal_strlit("ETH");
    reveal_strlit("SOL");
    reveal_strlit("BNB");
    reveal_strlit("BUSD");
    reveal_strlit("FDUSD");
    lemma_concat_suffix(b, q);
    lemma_trim_once(b, q);
    let usdt = "USDT"@;
    let btc = "BTC"@;
    let eth = "ETH"@;
    let sol = "SOL"@;
    let bnb = "BNB"@;
    let busd = "BUSD"@;
    // Distinct quotes differ in their last character, but for BUSD and
    // FDUSD, which differ in their fourth-last.
    if q != usdt {
        lemma_not_suffix(b, q, usdt, 0);
    }
    if q != usdt && q != btc {
        lemma_not_suffix(b, q, btc, 0);
    }
    if q != usdt && q != btc && q != eth {
        lemma_not_suffix(b, q, eth, 0);
    }
    if q != usdt && q != btc && q != eth && q != sol {
        lemma_not_suffix(b, q, sol, 0);
    }
    if q != usdt && q != btc && q != eth && q != sol && q != bnb {
        lemma_not_suffix(b, q, bnb, 0);
    }
    if q == "FDUSD"@ {
        lemma_not_suffix(b, q, busd, 3);
    }
}

/// A symbol ending in none of the known quotes reads as its own base with a
/// `USDT` quote.
pub proof fn lemma_parse_unknown_quote(s: Seq<char>)
    requires
        !ends_with(s, "USDT"@),
        !ends_with(s, "BTC"@),
        !ends_with(s, "ETH"@),
        !ends_with(s, "SOL"@),
        !ends_with(s, "BNB"@),
        !ends_with(s, "BUSD"@),
        !ends_with(s, "FDUSD"@),
    ensures
        spec_parse_currency(s) == (s, "USDT"@),
{
}

} // verus!
