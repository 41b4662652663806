//! Resolution of spot pair names like "BTCUSDC" to coin identifiers like
//! "@142", from Hyperliquid's spot metadata.

use vstd::prelude::*;
use crate::text::{chars_eq, decimal_chars, push_decimal, to_chars};

verus! {

/// A spot pair of the metadata: its index and its base and quote tokens.
#[derive(Debug)]
pub struct SpotPair {
    pub index: u32,
    pub tokens: [u32; 2],
}

/// A token of the metadata.
#[derive(Debug)]
pub struct Token {
    pub index: u32,
    pub name: String,
}

/// Hyperliquid's spot metadata (the `spotMeta` info request).
#[derive(Debug)]
pub struct SpotMeta {
    pub universe: Vec<SpotPair>,
    pub tokens: Vec<Token>,
}

/// Why a spot pair could not be resolved.
#[derive(Debug, Clone, Copy, PartialEq, Eq, Structural)]
pub enum SpotError {
    /// No pair of the metadata has this name.
    UnknownPair,
}

/// What `str::to_uppercase` returns for a string that is not all ASCII
/// (full Unicode case mapping).
pub uninterp spec fn uppercase(s: Seq<char>) -> Seq<char>;

/// The string is all ASCII.
pub open spec fn is_ascii_text(s: Seq<char>) -> bool {
    forall|i: int| 0 <= i < s.len() ==> (#[trigger] s[i] as u32) < 128
}

/// ASCII upper-casing of one character: `a`..`z` to `A`..`Z`, others kept.
pub open spec fn ascii_upper_char(c: char) -> char {
    if 'a' <= c && c <= 'z' { ((c as u32) - 32) as char } else { c }
}

/// What `str::to_uppercase` returns: for an ASCII string each letter
/// upper-cased and every other character kept; otherwise `uppercase`.
pub open spec fn upper_text(s: Seq<char>) -> Seq<char> {
    if is_ascii_text(s) { s.map_values(|c: char| ascii_upper_char(c)) } else { uppercase(s) }
}

/// Upper-cases a string with `str::to_uppercase`. Claimed: an ASCII
/// string comes back with `a`..`z` mapped to `A`..`Z` and every other
/// character kept (the Unicode uppercase mapping of each ASCII character
/// is that single character); any other string comes back as the name
/// `uppercase` gives.
#[verifier::external_body]
fn to_uppercase(s: &str) -> (r: String)
    ensures
        is_ascii_text(s@) ==> r@ == s@.map_values(|c: char| ascii_upper_char(c)),
        !is_ascii_text(s@) ==> r@ == uppercase(s@),
{
    s.to_uppercase()
}

/// The name of the token with index `idx`; the last such token when
/// several share it (as collecting into a map keeps the last), `?` when
/// there is none.
pub open spec fn token_name(tokens: Seq<Token>, idx: u32) -> Seq<char>
    decreases tokens.len(),
{
    if tokens.len() == 0 {
        seq!['?']
    } else if tokens.last().index == idx {
        tokens.last().name@
    } else {
        token_name(tokens.drop_last(), idx)
    }
}

/// The name of a pair: base token name followed by quote token name.
pub open spec fn pair_name(tokens: Seq<Token>, sp: SpotPair) -> Seq<char> {
    token_name(tokens, sp.tokens[0]) + token_name(tokens, sp.tokens[1])
}

/// `s` without `/`, `-` and `_`.
pub open spec fn strip_separators(s: Seq<char>) -> Seq<char>
    decreases s.len(),
{
    if s.len() == 0 {
        seq![]
    } else if s.last() == '/' || s.last() == '-' || s.last() == '_' {
        strip_separators(s.drop_last())
    } else {
        strip_separators(s.drop_last()).push(s.last())
    }
}

/// How a user's pair name is compared: upper-cased, separators removed.
pub open spec fn normalize(pair: Seq<char>) -> Seq<char> {
    strip_separators(upper_text(pair))
}

/// The first position at or after `q` where `pat` occurs in `s`.
pub open spec fn find_from(s: Seq<char>, pat: Seq<char>, q: int) -> Option<int>
    decreases s.len() + 1 - q,
{
    if q < 0 || q + pat.len() > s.len() {
        None
    } else if s.subrange(q, q + pat.len()) == pat {
        Some(q)
    } else {
        find_from(s, pat, q + 1)
    }
}

/// `s` with its first occurrence of `pat` replaced by `to`
/// (`str::replacen(pat, to, 1)`).
pub open spec fn replace_first(s: Seq<char>, pat: Seq<char>, to: Seq<char>) -> Seq<char> {
    match find_from(s, pat, 0) {
        Some(q) => s.subrange(0, q) + to + s.subrange(q + pat.len(), s.len() as int),
        None => s,
    }
}

/// The aliases tried on a user's pair name: wrapped spot tokens.
pub open spec fn aliases() -> Seq<(Seq<char>, Seq<char>)> {
    seq![("BTC"@, "UBTC"@), ("ETH"@, "UETH"@), ("SOL"@, "USOL"@)]
}

/// The pair `sp` answers to the normalized name `norm`: directly, or
/// after one of the aliases.
pub open spec fn pair_matches(tokens: Seq<Token>, sp: SpotPair, norm: Seq<char>) -> bool {
    let candidate = pair_name(tokens, sp);
    candidate == norm || exists|a: int| 0 <= a < aliases().len()
        && candidate == #[trigger] replace_first(norm, aliases()[a].0, aliases()[a].1)
}

/// The coin identifier of a pair index: `@{index}`.
pub open spec fn coin_id(index: u32) -> Seq<char> {
    seq!['@'] + decimal_chars(index as nat)
}

fn token_name_of(tokens: &Vec<Token>, idx: u32) -> (r: String)
    ensures
        r@ == token_name(tokens@, idx),
{
    let mut i = tokens.len();
    assert(tokens@.take(i as int) =~= tokens@);
    while i > 0
        invariant
            i <= tokens@.len(),
            token_name(tokens@, idx) == token_name(tokens@.take(i as int), idx),
        decreases i,
    {
        let ghost pre = tokens@.take(i as int);
        assert(pre.drop_last() =~= tokens@.take(i - 1));
        if tokens[i - 1].index == idx {
            return tokens[i - 1].name.clone();
        }
        i = i - 1;
    }
    proof {
        reveal_strlit("?");
    }
    let r = String::from_str("?");
    assert(r@ =~= seq!['?']);
    r
}

fn pair_name_chars(tokens: &Vec<Token>, sp: &SpotPair) -> (r: Vec<char>)
    ensures
        r@ == pair_name(tokens@, *sp),
{
    let base = token_name_of(tokens, sp.tokens[0]);
    let quote = token_name_of(tokens, sp.tokens[1]);
    let mut name = to_chars(base.as_str());
    let q = to_chars(quote.as_str());
    let ghost b = name@;
    for k in 0..q.len()
        invariant
            name@ == b + q@.take(k as int),
    {
        name.push(q[k]);
        assert(name@ =~= b + q@.take(k + 1));
    }
    assert(q@.take(q@.len() as int) =~= q@);
    name
}

fn strip(s: &Vec<char>) -> (r: Vec<char>)
    ensures
        r@ == strip_separators(s@),
{
    let mut r: Vec<char> = Vec::new();
    for k in 0..s.len()
        invariant
            r@ == strip_separators(s@.take(k as int)),
    {
        let c = s[k];
        assert(s@.take(k + 1).drop_last() =~= s@.take(k as int));
        if !(c == '/' || c == '-' || c == '_') {
            r.push(c);
        }
    }
    assert(s@.take(s@.len() as int) =~= s@);
    r
}

fn find_first(s: &Vec<char>, pat: &Vec<char>) -> (r: Option<usize>)
    ensures
        match r {
            Some(q) => find_from(s@, pat@, 0) == Some(q as int),
            None => find_from(s@, pat@, 0) is None,
        },
{
    let m = pat.len();
    if m > s.len() {
        return None;
    }
    let mut q: usize = 0;
    let len = s.len();
    while q <= len - m
        invariant
            len == s@.len(),
            m == pat@.len(),
            m <= s@.len(),
            find_from(s@, pat@, 0) == find_from(s@, pat@, q as int),
        decreases s.len() - q,
    {
        let mut k: usize = 0;
        while k < m && s[q + k] == pat[k]
            invariant
                k <= m,
                len == s@.len(),
                q + m <= len,
                m == pat@.len(),
                forall|x: int| 0 <= x < k ==> s@[q + x] == pat@[x],
            decreases m - k,
        {
            k = k + 1;
        }
        if k == m {
            assert(s@.subrange(q as int, q + m) =~= pat@);
            return Some(q);
        }
        assert(s@.subrange(q as int, q + m)[k as int] != pat@[k as int]);
        q = q + 1;
    }
    None
}

fn replace_first_chars(s: &Vec<char>, pat: &Vec<char>, to: &Vec<char>) -> (r: Vec<char>)
    ensures
        r@ == replace_first(s@, pat@, to@),
{
    match find_first(s, pat) {
        None => s.clone(),
        Some(q) => {
            proof {
                lemma_find_from_bounds(s@, pat@, 0);
            }
            let mut r: Vec<char> = Vec::new();
            for k in 0..q
                invariant
                    q <= s@.len(),
                    r@ == s@.subrange(0, k as int),
            {
                r.push(s[k]);
                assert(r@ =~= s@.subrange(0, k + 1));
            }
            let ghost head = r@;
            for k in 0..to.len()
                invariant
                    r@ == head + to@.take(k as int),
            {
                r.push(to[k]);
                assert(r@ =~= head + to@.take(k + 1));
            }
            assert(to@.take(to@.len() as int) =~= to@);
            let ghost mid = r@;
            let start = q + pat.len();
            for k in start..s.len()
                invariant
                    start <= s@.len(),
                    r@ == mid + s@.subrange(start as int, k as int),
            {
                r.push(s[k]);
                assert(r@ =~= mid + s@.subrange(start as int, k + 1));
            }
            r
        }
    }
}

proof fn lemma_find_from_bounds(s: Seq<char>, pat: Seq<char>, q: int)
    ensures
        find_from(s, pat, q) matches Some(p) ==> q <= p && p + pat.len() <= s.len(),
    decreases s.len() + 1 - q,
{
    if !(q < 0 || q + pat.len() > s.len()) && s.subrange(q, q + pat.len()) != pat {
        lemma_find_from_bounds(s, pat, q + 1);
    }
}

/// The coin identifier `@{index}`.
fn coin_id_string(index: u32) -> (r: String)
    ensures
        r@ == coin_id(index),
{
    let mut r = String::from_str("@");
    proof {
        reveal_strlit("@");
    }
    push_decimal(&mut r, index as u64);
    r
}

/// Whether pair `sp` answers to the normalized name `norm`.
fn matches_pair(tokens: &Vec<Token>, sp: &SpotPair, norm: &Vec<char>) -> (r: bool)
    ensures
        r == pair_matches(tokens@, *sp, norm@),
{
    let candidate = pair_name_chars(tokens, sp);
    if chars_eq(&candidate, norm) {
        return true;
    }
    let froms = [to_chars("BTC"), to_chars("ETH"), to_chars("SOL")];
    let tos = [to_chars("UBTC"), to_chars("UETH"), to_chars("USOL")];
    let ghost al = aliases();
    assert(froms@[0]@ == al[0].0 && froms@[1]@ == al[1].0 && froms@[2]@ == al[2].0);
    assert(tos@[0]@ == al[0].1 && tos@[1]@ == al[1].1 && tos@[2]@ == al[2].1);
    let mut a: usize = 0;
    while a < 3
        invariant
            a <= 3,
            al == aliases(),
            candidate@ == pair_name(tokens@, *sp),
            forall|x: int| 0 <= x < 3 ==> froms@[x]@ == al[x].0 && tos@[x]@ == al[x].1,
            forall|x: int| 0 <= x < a ==> candidate@ != #[trigger] replace_first(norm@, al[x].0, al[x].1),
        decreases 3 - a,
    {
        let aliased = replace_first_chars(norm, &froms[a], &tos[a]);
        if chars_eq(&candidate, &aliased) {
            assert(candidate@ == replace_first(norm@, al[a as int].0, al[a as int].1));
            return true;
        }
        a = a + 1;
    }
    false
}

/// What `resolve_spot_coin` returns: the identifier of the first pair of
/// the universe that answers to the name, or `UnknownPair`.
pub open spec fn resolve_spec(meta: SpotMeta, pair: Seq<char>) -> Result<Seq<char>, SpotError> {
    resolve_from(meta.universe@, meta.tokens@, normalize(pair), 0)
}

/// The identifier of the first pair at or after `i` that answers to `norm`.
pub open spec fn resolve_from(universe: Seq<SpotPair>, tokens: Seq<Token>, norm: Seq<char>, i: int)
    -> Result<Seq<char>, SpotError>
    decreases universe.len() - i,
{
    if i < 0 || i >= universe.len() {
        Err(SpotError::UnknownPair)
    } else if pair_matches(tokens, universe[i], norm) {
        Ok(coin_id(universe[i].index))
    } else {
        resolve_from(universe, tokens, norm, i + 1)
    }
}

/// Resolves a human-readable spot pair like "BTCUSDC" (also "BTC/USDC",
/// "btc-usdc", ...) to its coin identifier like "@142": the name is
/// upper-cased and stripped of `/`, `-` and `_`, then compared with each
/// pair's base and quote token names, directly and with BTC, ETH and SOL
/// read as UBTC, UETH and USOL.
pub fn resolve_spot_coin(meta: &SpotMeta, pair: &str) -> (r: Result<String, SpotError>)
    ensures
        match resolve_spec(*meta, pair@) {
            Ok(id) => r matches Ok(s) && s@ == id,
            Err(e) => r == Err::<String, SpotError>(e),
        },
{
    let upper = to_uppercase(pair);
    let norm = strip(&to_chars(upper.as_str()));
    let n = meta.universe.len();
    for i in 0..n
        invariant
            n == meta.universe@.len(),
            norm@ == normalize(pair@),
            resolve_spec(*meta, pair@) == resolve_from(meta.universe@, meta.tokens@, norm@, i as int),
    {
        if matches_pair(&meta.tokens, &meta.universe[i], &norm) {
            return Ok(coin_id_string(meta.universe[i].index));
        }
    }
    Err(SpotError::UnknownPair)
}

/// The available spot pairs as (name, coin identifier), in universe order.
pub fn list_spot_pairs(meta: &SpotMeta) -> (r: Vec<(String, String)>)
    ensures
        r@.len() == meta.universe@.len(),
        forall|i: int| 0 <= i < r@.len() ==> r@[i].0@ == pair_name(meta.tokens@, #[trigger] meta.universe@[i])
            && r@[i].1@ == coin_id(meta.universe@[i].index),
{
    let mut pairs: Vec<(String, String)> = Vec::new();
    let n = meta.universe.len();
    for i in 0..n
        invariant
            n == meta.universe@.len(),
            pairs@.len() == i,
            forall|j: int| 0 <= j < i ==> pairs@[j].0@ == pair_name(meta.tokens@, #[trigger] meta.universe@[j])
                && pairs@[j].1@ == coin_id(meta.universe@[j].index),
    {
        let sp = &meta.universe[i];
        let base = token_name_of(&meta.tokens, sp.tokens[0]);
        let quote = token_name_of(&meta.tokens, sp.tokens[1]);
        let mut name = base;
        name.append(quote.as_str());
        pairs.push((name, coin_id_string(sp.index)));
    }
    pairs
}

proof fn lemma_resolve_finds(universe: Seq<SpotPair>, tokens: Seq<Token>, norm: Seq<char>, i: int, k: int)
    requires
        0 <= i <= k < universe.len(),
        pair_matches(tokens, universe[k], norm),
        forall|j: int| i <= j < k ==> !pair_matches(tokens, #[trigger] universe[j], norm),
    ensures
        resolve_from(universe, tokens, norm, i) == Ok::<Seq<char>, SpotError>(coin_id(universe[k].index)),
    decreases k - i,
{
    if i < k {
        lemma_resolve_finds(universe, tokens, norm, i + 1, k);
        assert(!pair_matches(tokens, universe[i], norm));
    }
}

/// BTC/USDC spot resolves under its usual spellings: when the metadata
/// has a pair whose token names read `UBTC` and `USDC` and no pair
/// before it answers to the name, a name that normalizes to `BTCUSDC`
/// or `UBTCUSDC` resolves to that pair's identifier. For ASCII names
/// normalizing is upper-casing and dropping `/`, `-` and `_`, so this
/// covers "BTCUSDC", "btc/usdc", "BTC-USDC", "btc_usdc" and "UBTCUSDC".
pub proof fn law_btc_usdc_spellings_resolve(meta: SpotMeta, pair: Seq<char>, k: int)
    requires
        0 <= k < meta.universe@.len(),
        pair_name(meta.tokens@, meta.universe@[k]) == "UBTCUSDC"@,
        normalize(pair) == "BTCUSDC"@ || normalize(pair) == "UBTCUSDC"@,
        forall|i: int| 0 <= i < k ==> !pair_matches(meta.tokens@, #[trigger] meta.universe@[i], normalize(pair)),
    ensures
        resolve_spec(meta, pair) == Ok::<Seq<char>, SpotError>(coin_id(meta.universe@[k].index)),
{
    reveal_strlit("UBTCUSDC");
    reveal_strlit("BTCUSDC");
    reveal_strlit("BTC");
    reveal_strlit("UBTC");
    reveal_strlit("ETH");
    reveal_strlit("UETH");
    reveal_strlit("SOL");
    reveal_strlit("USOL");
    let norm = normalize(pair);
    if norm == "BTCUSDC"@ {
        assert(norm.subrange(0, 3) =~= "BTC"@);
        assert(find_from(norm, "BTC"@, 0) == Some(0int));
        assert(replace_first(norm, aliases()[0].0, aliases()[0].1) =~= "UBTCUSDC"@);
    }
    assert(pair_matches(meta.tokens@, meta.universe@[k], norm));
    lemma_resolve_finds(meta.universe@, meta.tokens@, norm, 0, k);
}

/// The aliases are exactly BTC read as UBTC, ETH as UETH and SOL as USOL.
pub proof fn law_aliases_are_wrapped_tokens()
    ensures
        aliases() == seq![("BTC"@, "UBTC"@), ("ETH"@, "UETH"@), ("SOL"@, "USOL"@)],
{
}

/// Wrapped spot tokens resolve under their plain names: for `x` one of
/// BTC, ETH and SOL and any quote token name `q`, when the metadata has a
/// pair whose token names read `U{x}{q}` and no pair before it answers to
/// the name, a name that normalizes to `{x}{q}` (or to `U{x}{q}`)
/// resolves to that pair's identifier.
pub proof fn law_wrapped_spellings_resolve(meta: SpotMeta, pair: Seq<char>, k: int, x: Seq<char>, q: Seq<char>)
    requires
        x == "BTC"@ || x == "ETH"@ || x == "SOL"@,
        0 <= k < meta.universe@.len(),
        pair_name(meta.tokens@, meta.universe@[k]) == seq!['U'] + x + q,
        normalize(pair) == x + q || normalize(pair) == seq!['U'] + x + q,
        forall|i: int| 0 <= i < k ==> !pair_matches(meta.tokens@, #[trigger] meta.universe@[i], normalize(pair)),
    ensures
        resolve_spec(meta, pair) == Ok::<Seq<char>, SpotError>(coin_id(meta.universe@[k].index)),
{
    reveal_strlit("BTC");
    reveal_strlit("UBTC");
    reveal_strlit("ETH");
    reveal_strlit("UETH");
    reveal_strlit("SOL");
    reveal_strlit("USOL");
    let norm = normalize(pair);
    let candidate = pair_name(meta.tokens@, meta.universe@[k]);
    if norm == x + q {
        assert(norm.subrange(0, 3) =~= x);
        assert(find_from(norm, x, 0) == Some(0int));
        let a: int = if x == "BTC"@ { 0 } else if x == "ETH"@ { 1 } else { 2 };
        assert(aliases()[a].0 == x);
        assert(aliases()[a].1 =~= seq!['U'] + x);
        assert(replace_first(norm, aliases()[a].0, aliases()[a].1) =~= candidate);
    }
    assert(pair_matches(meta.tokens@, meta.universe@[k], norm));
    lemma_resolve_finds(meta.universe@, meta.tokens@, norm, 0, k);
}

} // verus!
