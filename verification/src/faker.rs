//! Deterministic faker.
//!
//! A replacement value is derived from the original cell bytes alone: the
//! bytes are hashed with FNV-1a 64, the hash seeds a ChaCha8 stream, and
//! the stream drives the recipe for the requested strategy. The same input
//! bytes and strategy therefore always yield the same output within a
//! process — and, with these frozen algorithms, across processes too. The
//! substitution preserves no length relation to the input.

use vstd::prelude::*;

use rand::{RngCore, SeedableRng};

verus! {

use crate::wire::be32;
use vstd::slice::slice_to_vec;
use vstd::wrapping::u64_specs;
use vstd::string::StringSliceAdditionalSpecFns;
use vstd::utf8::{encode_utf8, is_ascii_chars, is_ascii_chars_encode_utf8};

/// The closed set of replacement recipes. Unknown strategy names degrade
/// to `Mask`, the verbatim constant.
#[derive(Clone, Copy, Debug, PartialEq, Eq, Structural)]
pub enum Strategy {
    Email,
    Phone,
    Address,
    CreditCard,
    Mask,
}

pub const FNV_OFFSET: u64 = 0xcbf29ce484222325;

pub const FNV_PRIME: u64 = 0x100000001b3;

/// One FNV-1a step: fold a byte in, then multiply by the prime modulo 2^64.
pub open spec fn fnv1a_step(h: u64, b: u8) -> u64 {
    u64_specs::wrapping_mul(h ^ (b as u64), FNV_PRIME)
}

/// FNV-1a 64 over a byte string, processed left to right.
pub open spec fn fnv1a64(bytes: Seq<u8>) -> u64
    decreases bytes.len(),
{
    if bytes.len() == 0 {
        FNV_OFFSET
    } else {
        fnv1a_step(fnv1a64(bytes.drop_last()), bytes.last())
    }
}

/// Hashes a byte string with FNV-1a 64.
pub fn fnv1a64_hash(bytes: &[u8]) -> (h: u64)
    ensures
        h == fnv1a64(bytes@),
{
    let mut h: u64 = FNV_OFFSET;
    let mut i: usize = 0;
    proof {
        assert(bytes@.take(0) =~= Seq::<u8>::empty());
    }
    while i < bytes.len()
        invariant
            i <= bytes@.len(),
            h == fnv1a64(bytes@.take(i as int)),
        decreases bytes@.len() - i,
    {
        h = (h ^ (bytes[i] as u64)).wrapping_mul(FNV_PRIME);
        i += 1;
        proof {
            assert(bytes@.take(i as int).drop_last() =~= bytes@.take(i as int - 1));
            assert(bytes@.take(i as int).last() == bytes@[i as int - 1]);
        }
    }
    proof {
        assert(bytes@.take(bytes@.len() as int) =~= bytes@);
    }
    h
}

/// The first `n` 32-bit draws of a ChaCha8 generator seeded from `seed`.
/// The stream is a pure function of the seed, so this name stands for what
/// the generator returns; nothing else is assumed about the values.
pub uninterp spec fn chacha8_stream(seed: u64, n: int) -> Seq<u32>;

/// Relies on `rand_chacha::ChaCha8Rng::seed_from_u64` and
/// `rand::RngCore::next_u32`: a ChaCha8 generator is a deterministic stream
/// cipher, so the first `n` draws after seeding depend on `seed` and `n`
/// alone, and `n` draws yield `n` words.
#[verifier::external_body]
fn chacha8_words(seed: u64, n: usize) -> (r: Vec<u32>)
    ensures
        r@ == chacha8_stream(seed, n as int),
        r@.len() == n,
{
    let mut rng = rand_chacha::ChaCha8Rng::seed_from_u64(seed);
    let mut out = Vec::with_capacity(n);
    for _ in 0..n {
        out.push(rng.next_u32());
    }
    out
}

/// How many stream words every recipe draws.
pub const STREAM_WORDS: usize = 16;

/// The lowercase word at `i` of the eight-entry word list.
pub open spec fn spec_word(i: int) -> Seq<char> {
    if i == 0 {
        "acacia"@
    } else if i == 1 {
        "birch"@
    } else if i == 2 {
        "cedar"@
    } else if i == 3 {
        "dahlia"@
    } else if i == 4 {
        "elm"@
    } else if i == 5 {
        "fern"@
    } else if i == 6 {
        "hazel"@
    } else {
        "iris"@
    }
}

fn word_str(i: u32) -> (w: &'static str)
    requires
        i < 8,
    ensures
        w@ == spec_word(i as int),
{
    match i {
        0 => "acacia",
        1 => "birch",
        2 => "cedar",
        3 => "dahlia",
        4 => "elm",
        5 => "fern",
        6 => "hazel",
        _ => "iris",
    }
}

/// The top-level domain at `i` of the four-entry list.
pub open spec fn spec_tld(i: int) -> Seq<char> {
    if i == 0 {
        "com"@
    } else if i == 1 {
        "net"@
    } else if i == 2 {
        "org"@
    } else {
        "dev"@
    }
}

fn tld_str(i: u32) -> (w: &'static str)
    requires
        i < 4,
    ensures
        w@ == spec_tld(i as int),
{
    match i {
        0 => "com",
        1 => "net",
        2 => "org",
        _ => "dev",
    }
}

/// The city token at `i` of the twelve-entry list.
pub open spec fn spec_city(i: int) -> Seq<char> {
    if i == 0 {
        "avalon"@
    } else if i == 1 {
        "brookfield"@
    } else if i == 2 {
        "cedarville"@
    } else if i == 3 {
        "dover"@
    } else if i == 4 {
        "elmwood"@
    } else if i == 5 {
        "fairview"@
    } else if i == 6 {
        "georgetown"@
    } else if i == 7 {
        "harborview"@
    } else if i == 8 {
        "irvington"@
    } else if i == 9 {
        "jasper"@
    } else if i == 10 {
        "kentfield"@
    } else {
        "lakewood"@
    }
}

fn city_str(i: u32) -> (w: &'static str)
    requires
        i < 12,
    ensures
        w@ == spec_city(i as int),
{
    match i {
        0 => "avalon",
        1 => "brookfield",
        2 => "cedarville",
        3 => "dover",
        4 => "elmwood",
        5 => "fairview",
        6 => "georgetown",
        7 => "harborview",
        8 => "irvington",
        9 => "jasper",
        10 => "kentfield",
        _ => "lakewood",
    }
}

/// The UTF-8 bytes of a list word; the lists are ASCII, so one byte per
/// character.
pub open spec fn word_bytes(i: int) -> Seq<u8> {
    encode_utf8(spec_word(i))
}

pub open spec fn tld_bytes(i: int) -> Seq<u8> {
    encode_utf8(spec_tld(i))
}

pub open spec fn city_bytes(i: int) -> Seq<u8> {
    encode_utf8(spec_city(i))
}

pub open spec fn masked_bytes() -> Seq<u8> {
    encode_utf8("MASKED"@)
}

/// `n` decimal digit bytes taken from stream words `lo` to `lo + n`.
pub open spec fn digits_from(ws: Seq<u32>, lo: int, n: int) -> Seq<u8> {
    Seq::new(n as nat, |k: int| (48 + (ws[lo + k] % 10)) as u8)
}

/// `<word>.<word>@<word>.<tld>`: a syntactically valid email address.
pub open spec fn email_from(ws: Seq<u32>) -> Seq<u8> {
    word_bytes((ws[0] % 8) as int) + seq![46u8] + word_bytes((ws[1] % 8) as int) + seq![64u8]
        + word_bytes((ws[2] % 8) as int) + seq![46u8] + tld_bytes((ws[3] % 4) as int)
}

/// `+1` and ten digits: E.164-shaped.
pub open spec fn phone_from(ws: Seq<u32>) -> Seq<u8> {
    seq![43u8, 49u8] + digits_from(ws, 0, 10)
}

/// Sixteen digits grouped 4-4-4-4 with dashes.
pub open spec fn card_from(ws: Seq<u32>) -> Seq<u8> {
    digits_from(ws, 0, 4) + seq![45u8] + digits_from(ws, 4, 4) + seq![45u8] + digits_from(ws, 8, 4)
        + seq![45u8] + digits_from(ws, 12, 4)
}

/// A single city-name token.
pub open spec fn city_from(ws: Seq<u32>) -> Seq<u8> {
    city_bytes((ws[0] % 12) as int)
}

/// The replacement for cell bytes `v` under a strategy: the FNV-1a hash of
/// `v` seeds a ChaCha8 stream, and the stream drives the recipe.
pub open spec fn mask_spec(v: Seq<u8>, s: Strategy) -> Seq<u8> {
    let ws = chacha8_stream(fnv1a64(v), STREAM_WORDS as int);
    match s {
        Strategy::Email => email_from(ws),
        Strategy::Phone => phone_from(ws),
        Strategy::Address => city_from(ws),
        Strategy::CreditCard => card_from(ws),
        Strategy::Mask => masked_bytes(),
    }
}

/// Every replacement is short: at most 32 bytes, whatever the input was.
pub proof fn lemma_mask_spec_len(v: Seq<u8>, s: Strategy)
    ensures
        mask_spec(v, s).len() <= 32,
{
    let ws = chacha8_stream(fnv1a64(v), STREAM_WORDS as int);
    lemma_word_bytes_len((ws[0] % 8) as int);
    lemma_word_bytes_len((ws[1] % 8) as int);
    lemma_word_bytes_len((ws[2] % 8) as int);
    lemma_tld_bytes_len((ws[3] % 4) as int);
    lemma_city_bytes_len((ws[0] % 12) as int);
    lemma_masked_bytes_len();
}

proof fn lemma_ascii_len(cs: Seq<char>)
    requires
        is_ascii_chars(cs),
    ensures
        encode_utf8(cs).len() == cs.len(),
{
    is_ascii_chars_encode_utf8(cs);
}

proof fn lemma_word_bytes_len(i: int)
    ensures
        word_bytes(i).len() <= 6,
{
    reveal_strlit("acacia");
    reveal_strlit("birch");
    reveal_strlit("cedar");
    reveal_strlit("dahlia");
    reveal_strlit("elm");
    reveal_strlit("fern");
    reveal_strlit("hazel");
    reveal_strlit("iris");
    lemma_ascii_len(spec_word(i));
}

proof fn lemma_tld_bytes_len(i: int)
    ensures
        tld_bytes(i).len() == 3,
{
    reveal_strlit("com");
    reveal_strlit("net");
    reveal_strlit("org");
    reveal_strlit("dev");
    lemma_ascii_len(spec_tld(i));
}

proof fn lemma_city_bytes_len(i: int)
    ensures
        city_bytes(i).len() <= 10,
{
    reveal_strlit("avalon");
    reveal_strlit("brookfield");
    reveal_strlit("cedarville");
    reveal_strlit("dover");
    reveal_strlit("elmwood");
    reveal_strlit("fairview");
    reveal_strlit("georgetown");
    reveal_strlit("harborview");
    reveal_strlit("irvington");
    reveal_strlit("jasper");
    reveal_strlit("kentfield");
    reveal_strlit("lakewood");
    lemma_ascii_len(spec_city(i));
}

proof fn lemma_masked_bytes_len()
    ensures
        masked_bytes().len() == 6,
{
    reveal_strlit("MASKED");
    lemma_ascii_len("MASKED"@);
}

/// Appends a word from the eight-entry list.
fn push_word(out: &mut Vec<u8>, i: u32)
    requires
        i < 8,
    ensures
        final(out)@ == old(out)@ + word_bytes(i as int),
{
    let w = word_str(i);
    out.extend_from_slice(w.as_bytes());
}

/// Appends `n` decimal digits taken from `ws[lo..lo + n]`.
fn push_digits(out: &mut Vec<u8>, ws: &Vec<u32>, lo: usize, n: usize)
    requires
        lo + n <= ws@.len(),
    ensures
        final(out)@ == old(out)@ + digits_from(ws@, lo as int, n as int),
{
    let mut k: usize = 0;
    proof {
        assert(out@ =~= old(out)@ + digits_from(ws@, lo as int, 0));
    }
    let len = ws.len();
    while k < n
        invariant
            lo + n <= ws@.len(),
            len == ws@.len(),
            k <= n,
            out@ == old(out)@ + digits_from(ws@, lo as int, k as int),
        decreases n - k,
    {
        out.push(48 + (ws[lo + k] % 10) as u8);
        k += 1;
        proof {
            assert(digits_from(ws@, lo as int, k as int) =~= digits_from(
                ws@,
                lo as int,
                k as int - 1,
            ).push((48 + (ws@[lo + k - 1] % 10)) as u8));
        }
    }
}

/// Computes the replacement for cell bytes `v` under a strategy.
pub fn mask(v: &[u8], s: Strategy) -> (r: Vec<u8>)
    ensures
        r@ == mask_spec(v@, s),
        r@.len() <= 32,
{
    proof {
        lemma_mask_spec_len(v@, s);
    }
    let seed = fnv1a64_hash(v);
    let ghost ws_spec = chacha8_stream(fnv1a64(v@), STREAM_WORDS as int);
    match s {
        Strategy::Mask => {
            let r = slice_to_vec("MASKED".as_bytes());
            proof {
                assert(r@ =~= masked_bytes());
            }
            r
        },
        Strategy::Email => {
            let ws = chacha8_words(seed, STREAM_WORDS);
            let mut out: Vec<u8> = Vec::new();
            push_word(&mut out, ws[0] % 8);
            out.push(46);
            push_word(&mut out, ws[1] % 8);
            out.push(64);
            push_word(&mut out, ws[2] % 8);
            out.push(46);
            let t = tld_str(ws[3] % 4);
            out.extend_from_slice(t.as_bytes());
            proof {
                assert(out@ =~= email_from(ws_spec));
            }
            out
        },
        Strategy::Phone => {
            let ws = chacha8_words(seed, STREAM_WORDS);
            let mut out: Vec<u8> = Vec::new();
            out.push(43);
            out.push(49);
            push_digits(&mut out, &ws, 0, 10);
            proof {
                assert(out@ =~= phone_from(ws_spec));
            }
            out
        },
        Strategy::Address => {
            let ws = chacha8_words(seed, STREAM_WORDS);
            let c = city_str(ws[0] % 12);
            let out = slice_to_vec(c.as_bytes());
            proof {
                assert(out@ =~= city_from(ws_spec));
            }
            out
        },
        Strategy::CreditCard => {
            let ws = chacha8_words(seed, STREAM_WORDS);
            let mut out: Vec<u8> = Vec::new();
            push_digits(&mut out, &ws, 0, 4);
            out.push(45);
            push_digits(&mut out, &ws, 4, 4);
            out.push(45);
            push_digits(&mut out, &ws, 8, 4);
            out.push(45);
            push_digits(&mut out, &ws, 12, 4);
            proof {
                assert(out@ =~= card_from(ws_spec));
            }
            out
        },
    }
}

/// Determinism of masking: the replacement is a mathematical function of
/// the cell bytes and the strategy, so two calls with equal inputs in the
/// same process yield equal bytes.
pub proof fn lemma_mask_deterministic(v1: Seq<u8>, v2: Seq<u8>, s1: Strategy, s2: Strategy)
    requires
        v1 == v2,
        s1 == s2,
    ensures
        mask_spec(v1, s1) == mask_spec(v2, s2),
{
}

/// The name of a strategy as configuration spells it; anything else is the
/// verbatim `MASKED` recipe.
pub open spec fn spec_strategy_of(name: Seq<char>) -> Strategy {
    if name == "email"@ {
        Strategy::Email
    } else if name == "phone"@ {
        Strategy::Phone
    } else if name == "address"@ {
        Strategy::Address
    } else if name == "credit_card"@ {
        Strategy::CreditCard
    } else {
        Strategy::Mask
    }
}

/// Parses a configured strategy name; unknown names degrade to `Mask`.
pub fn strategy_of(name: &String) -> (s: Strategy)
    ensures
        s == spec_strategy_of(name@),
{
    if string_eq_lit(name, "email") {
        Strategy::Email
    } else if string_eq_lit(name, "phone") {
        Strategy::Phone
    } else if string_eq_lit(name, "address") {
        Strategy::Address
    } else if string_eq_lit(name, "credit_card") {
        Strategy::CreditCard
    } else {
        Strategy::Mask
    }
}

/// Whether a string equals a literal, as their character sequences.
fn string_eq_lit(a: &String, lit: &str) -> (r: bool)
    ensures
        r == (a@ == lit@),
{
    let b: String = lit.to_owned();
    a.eq(&b)
}

} // verus!
