//! Rolling n-gram extraction over a token stream, n-gram hashing, and the
//! construction of a document's sketch.

use vstd::string::StrSliceExecFns;

use vstd::prelude::*;

use crate::sketch::{retained, Sketch};

verus! {

/// The characters of each token.
pub open spec fn words(v: Seq<String>) -> Seq<Seq<char>> {
    v.map_values(|s: String| s@)
}

/// The tokens of `t` that are not empty, in order.
pub open spec fn kept(t: Seq<Seq<char>>) -> Seq<Seq<char>>
    decreases t.len(),
{
    if t.len() == 0 {
        Seq::empty()
    } else if t.last().len() > 0 {
        kept(t.drop_last()).push(t.last())
    } else {
        kept(t.drop_last())
    }
}

/// How many windows of width `k` a sequence of `m` tokens has.
pub open spec fn window_count(m: nat, k: nat) -> nat {
    if m >= k {
        (m - k + 1) as nat
    } else {
        0
    }
}

/// The xxh3 hash of a byte string.
pub uninterp spec fn xxh3_hash(b: Seq<u8>) -> u64;

/// The `n` low bytes of `x`, least significant first.
pub open spec fn le_bytes(x: nat, n: nat) -> Seq<u8>
    decreases n,
{
    if n == 0 {
        Seq::empty()
    } else {
        seq![(x % 256) as u8] + le_bytes(x / 256, (n - 1) as nat)
    }
}

/// Each character of `w` as its code point in four little-endian bytes.
pub open spec fn chars_bytes(w: Seq<char>) -> Seq<u8>
    decreases w.len(),
{
    if w.len() == 0 {
        Seq::empty()
    } else {
        chars_bytes(w.drop_last()) + le_bytes(w.last() as u32 as nat, 4)
    }
}

/// The tokens of `g`, each as its length in characters (eight little-endian
/// bytes) followed by its characters.
pub open spec fn tokens_bytes(g: Seq<Seq<char>>) -> Seq<u8>
    decreases g.len(),
{
    if g.len() == 0 {
        Seq::empty()
    } else {
        tokens_bytes(g.drop_last()) + le_bytes(g.last().len(), 8) + chars_bytes(g.last())
    }
}

/// The byte encoding of an n-gram: the number of tokens (eight little-endian
/// bytes), then each token. It is the same on every platform.
pub open spec fn ngram_encoding(g: Seq<Seq<char>>) -> Seq<u8> {
    le_bytes(g.len(), 8) + tokens_bytes(g)
}

/// The hash of an n-gram: the xxh3 hash of its byte encoding.
pub open spec fn ngram_hash(g: Seq<Seq<char>>) -> u64 {
    xxh3_hash(ngram_encoding(g))
}

/// The hashes of all windows of width `k` over `t`.
pub open spec fn window_hashes(t: Seq<Seq<char>>, k: nat) -> Set<u64> {
    Set::new(|h: u64| exists|i: int| 0 <= i && i + k <= t.len() && h == ngram_hash(#[trigger] t.subrange(i, i + k)))
}

/// The non-empty tokens of `tokens`, in order.
pub fn non_empty_tokens(tokens: &Vec<String>) -> (r: Vec<String>)
    ensures
        words(r@) == kept(words(tokens@)),
{
    let mut r: Vec<String> = Vec::new();
    let mut i: usize = 0;
    while i < tokens.len()
        invariant
            i <= tokens.len(),
            words(r@) == kept(words(tokens@.take(i as int))),
        decreases tokens.len() - i,
    {
        let w = &tokens[i];
        proof {
            assert(words(tokens@.take(i + 1)).drop_last() =~= words(tokens@.take(i as int)));
            assert(words(tokens@.take(i + 1)).last() == w@);
        }
        let ghost r0 = r@;
        if !w.as_str().is_empty() {
            r.push(w.clone());
            proof {
                assert(words(r@) =~= words(r0).push(w@));
            }
        }
        i = i + 1;
    }
    proof {
        assert(tokens@.take(tokens@.len() as int) =~= tokens@);
    }
    r
}

/// Relies on twox_hash's one-shot `xxh3::hash128` (seed 0, default secret),
/// which reads only its input: the low 64 bits of the hash of the bytes
/// depend on the bytes alone.
#[verifier::external_body]
fn xxh3_of(bytes: &Vec<u8>) -> (r: u64)
    ensures
        r == xxh3_hash(bytes@),
{
    twox_hash::xxh3::hash128(bytes) as u64
}

/// Appends the `n` low bytes of `x` to `out`, least significant first.
fn push_le(out: &mut Vec<u8>, x: u64, n: usize)
    ensures
        final(out)@ == old(out)@ + le_bytes(x as nat, n as nat),
{
    let mut v: u64 = x;
    let mut i: usize = 0;
    while i < n
        invariant
            i <= n,
            out@ + le_bytes(v as nat, (n - i) as nat) == old(out)@ + le_bytes(x as nat, n as nat),
        decreases n - i,
    {
        let ghost before = out@;
        let b: u8 = (v % 256) as u8;
        out.push(b);
        proof {
            assert(le_bytes(v as nat, (n - i) as nat) =~= seq![b] + le_bytes((v / 256) as nat, (n - i - 1) as nat));
            assert(out@ + le_bytes((v / 256) as nat, (n - i - 1) as nat) =~= before + le_bytes(v as nat, (n - i) as nat));
        }
        v = v / 256;
        i = i + 1;
    }
    proof {
        assert(out@ + le_bytes(v as nat, 0) =~= out@);
    }
}

/// Appends the encoding of one token: its length in characters, then each
/// character's code point.
fn push_token(out: &mut Vec<u8>, w: &String)
    ensures
        final(out)@ == old(out)@ + le_bytes(w@.len(), 8) + chars_bytes(w@),
{
    let s: &str = w.as_str();
    let len: usize = s.unicode_len();
    push_le(out, len as u64, 8);
    let ghost base = out@;
    let mut i: usize = 0;
    while i < len
        invariant
            i <= len,
            len == w@.len(),
            s@ == w@,
            out@ == base + chars_bytes(w@.take(i as int)),
        decreases len - i,
    {
        let c = s.get_char(i);
        let ghost before = out@;
        push_le(out, c as u32 as u64, 4);
        proof {
            assert(w@.take(i + 1).drop_last() =~= w@.take(i as int));
            assert(out@ =~= base + chars_bytes(w@.take(i + 1)));
        }
        i = i + 1;
    }
    proof {
        assert(w@.take(len as int) =~= w@);
        assert(old(out)@ + le_bytes(w@.len(), 8) + chars_bytes(w@) =~= base + chars_bytes(w@));
    }
}

/// The byte encoding of an n-gram, from which its hash is computed.
pub fn ngram_bytes(g: &Vec<String>) -> (r: Vec<u8>)
    ensures
        r@ == ngram_encoding(words(g@)),
{
    let mut out: Vec<u8> = Vec::new();
    push_le(&mut out, g.len() as u64, 8);
    let ghost base = out@;
    let mut i: usize = 0;
    while i < g.len()
        invariant
            i <= g.len(),
            base == le_bytes(g@.len(), 8),
            out@ == base + tokens_bytes(words(g@.take(i as int))),
        decreases g.len() - i,
    {
        push_token(&mut out, &g[i]);
        proof {
            assert(words(g@.take(i + 1)).drop_last() =~= words(g@.take(i as int)));
            assert(words(g@.take(i + 1)).last() == g@[i as int]@);
            assert(out@ =~= base + tokens_bytes(words(g@.take(i + 1))));
        }
        i = i + 1;
    }
    proof {
        assert(g@.take(g@.len() as int) =~= g@);
        assert(words(g@).len() == g@.len());
    }
    out
}

/// The hash of one n-gram.
fn hash_ngram(g: &Vec<String>) -> (r: u64)
    ensures
        r == ngram_hash(words(g@)),
{
    let bytes = ngram_bytes(g);
    xxh3_of(&bytes)
}

/// The windows of `k` consecutive non-empty tokens, one per position, sliding
/// by one token.
pub fn ngrams(tokens: &Vec<String>, k: usize) -> (r: Vec<Vec<String>>)
    requires
        k >= 1,
    ensures
        r@.len() == window_count(kept(words(tokens@)).len(), k as nat),
        forall|i: int| 0 <= i < r@.len() ==> words(#[trigger] r@[i]@) == kept(words(tokens@)).subrange(i, i + k),
{
    let t = non_empty_tokens(tokens);
    let ghost tw = words(t@);
    let mut r: Vec<Vec<String>> = Vec::new();
    if t.len() < k {
        return r;
    }
    let last: usize = t.len() - k;
    let mut i: usize = 0;
    while i <= last
        invariant
            k >= 1,
            last + k == t.len(),
            tw == words(t@),
            i <= last + 1,
            r@.len() == i,
            forall|q: int| 0 <= q < r@.len() ==> words(#[trigger] r@[q]@) == tw.subrange(q, q + k),
        decreases last + 1 - i,
    {
        let mut g: Vec<String> = Vec::new();
        let mut j: usize = 0;
        while j < k
            invariant
                i <= last,
                last + k == t.len(),
                tw == words(t@),
                j <= k,
                words(g@) == tw.subrange(i as int, i + j),
            decreases k - j,
        {
            let ghost g0 = g@;
            g.push(t[i + j].clone());
            proof {
                assert(words(g@) =~= words(g0).push(t@[i + j]@));
                assert(tw.subrange(i as int, i + j + 1) =~= tw.subrange(i as int, i + j).push(tw[i + j]));
            }
            j = j + 1;
        }
        r.push(g);
        i = i + 1;
    }
    r
}

/// The hash of each n-gram, in order.
pub fn ngram_hashes(grams: &Vec<Vec<String>>) -> (r: Vec<u64>)
    ensures
        r@.len() == grams@.len(),
        forall|q: int| 0 <= q < r@.len() ==> #[trigger] r@[q] == ngram_hash(words(grams@[q]@)),
{
    let mut hashes: Vec<u64> = Vec::new();
    let mut i: usize = 0;
    while i < grams.len()
        invariant
            i <= grams.len(),
            hashes@.len() == i,
            forall|q: int| 0 <= q < i ==> #[trigger] hashes@[q] == ngram_hash(words(grams@[q]@)),
        decreases grams.len() - i,
    {
        let h = hash_ngram(&grams[i]);
        hashes.push(h);
        i = i + 1;
    }
    hashes
}

/// A sketch made from `template` by offering it the hash of every n-gram of
/// `tokens`, with the n-gram width the template's `ksize`.
pub fn sketch_tokens(tokens: &Vec<String>, template: &Sketch) -> (r: Sketch)
    requires
        template.wf(),
        template.ksize >= 1,
    ensures
        r.wf(),
        r.ksize == template.ksize,
        r.mode == template.mode,
        r.hashes() == retained(
            template.mode,
            template.hashes().union(window_hashes(kept(words(tokens@)), template.ksize as nat)),
        ),
        window_hashes(kept(words(tokens@)), template.ksize as nat).finite(),
{
    let k: usize = template.ksize as usize;
    let grams = ngrams(tokens, k);
    let ghost t = kept(words(tokens@));
    let hashes = ngram_hashes(&grams);
    proof {
        assert forall|h: u64| hashes@.to_set().contains(h) <==> window_hashes(t, k as nat).contains(h) by {
            if hashes@.contains(h) {
                let q = choose|q: int| 0 <= q < hashes@.len() && hashes@[q] == h;
                assert(words(grams@[q]@) == t.subrange(q, q + k));
            }
            if window_hashes(t, k as nat).contains(h) {
                let q = choose|q: int| 0 <= q && q + k <= t.len() && h == ngram_hash(#[trigger] t.subrange(q, q + k));
                assert(words(grams@[q]@) == t.subrange(q, q + k));
                assert(hashes@[q] == h);
            }
        }
        assert(hashes@.to_set() =~= window_hashes(t, k as nat));
        vstd::seq_lib::seq_to_set_is_finite(hashes@);
    }
    let mut r = template.duplicate();
    r.add_many(&hashes);
    r
}

} // verus!
