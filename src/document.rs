//! From the lines of a text document to its sketch: tokenizing, stemming,
//! stop-word removal, case folding, and the sketch template.

use rust_stemmers::{Algorithm, Stemmer};
use vtext::tokenize::{RegexpTokenizer, Tokenizer};
use vstd::prelude::*;

use crate::ngram::{kept, sketch_tokens, window_hashes, words};
use crate::sketch::{retained, ScaleMode, Sketch};

verus! {

/// The words that the default word tokenizer finds in a line.
pub uninterp spec fn regexp_words(line: Seq<char>) -> Seq<Seq<char>>;

/// The English stem of a word.
pub uninterp spec fn english_stem(w: Seq<char>) -> Seq<char>;

/// Whether a word is on the English stop-word list.
pub uninterp spec fn english_stop_word(w: Seq<char>) -> bool;

/// A word in lower case.
pub uninterp spec fn lowercase(w: Seq<char>) -> Seq<char>;

/// Relies on vtext's `RegexpTokenizer` with its default pattern: the words it
/// yields for a line, in order, depend on the line alone.
#[verifier::external_body]
fn tokenize_line(line: &String) -> (r: Vec<String>)
    ensures
        words(r@) == regexp_words(line@),
{
    let tokenizer = RegexpTokenizer::default();
    tokenizer.tokenize(line).map(|w| w.to_string()).collect()
}

/// Relies on rust_stemmers' English (Porter 2) stemmer: the stem depends on
/// the word alone.
#[verifier::external_body]
fn stem_word(w: &String) -> (r: String)
    ensures
        r@ == english_stem(w@),
{
    Stemmer::create(Algorithm::English).stem(w).into_owned()
}

/// Relies on stop_words' English list (code "en", present with the crate's
/// default features): whether the list holds the word.
#[verifier::external_body]
fn is_stop_word(w: &String) -> (r: bool)
    ensures
        r == english_stop_word(w@),
{
    stop_words::get("en").contains(&w.as_str())
}

/// Relies on str::to_lowercase: the result depends on the characters alone.
#[verifier::external_body]
fn to_lower(w: &String) -> (r: String)
    ensures
        r@ == lowercase(w@),
{
    w.to_lowercase()
}

/// Whether a stemmed word becomes a token: it is not empty and not a stop word.
pub fn accept_stem(stem: &String, stop_word: bool) -> (r: bool)
    ensures
        r == (stem@.len() > 0 && !stop_word),
{
    !stem.as_str().is_empty() && !stop_word
}

/// The token a word becomes, if any.
pub open spec fn normalized(w: Seq<char>) -> Option<Seq<char>> {
    let s = english_stem(w);
    if s.len() > 0 && !english_stop_word(s) {
        Some(lowercase(s))
    } else {
        None
    }
}

/// The tokens that the words `ws` become, in order.
pub open spec fn normalize_all(ws: Seq<Seq<char>>) -> Seq<Seq<char>>
    decreases ws.len(),
{
    if ws.len() == 0 {
        Seq::empty()
    } else {
        match normalized(ws.last()) {
            Some(t) => normalize_all(ws.drop_last()).push(t),
            None => normalize_all(ws.drop_last()),
        }
    }
}

/// The words of all lines, line after line.
pub open spec fn line_words(lines: Seq<Seq<char>>) -> Seq<Seq<char>>
    decreases lines.len(),
{
    if lines.len() == 0 {
        Seq::empty()
    } else {
        line_words(lines.drop_last()) + regexp_words(lines.last())
    }
}

/// The tokens of a document given as lines.
pub open spec fn document_tokens_of(lines: Seq<Seq<char>>) -> Seq<Seq<char>> {
    normalize_all(line_words(lines))
}

/// The token that a word becomes, if any.
pub fn normalize_word(w: &String) -> (r: Option<String>)
    ensures
        r matches Some(t) ==> normalized(w@) == Some(t@),
        r is None ==> normalized(w@) is None,
{
    let stem = stem_word(w);
    let stop = is_stop_word(&stem);
    if accept_stem(&stem, stop) {
        Some(to_lower(&stem))
    } else {
        None
    }
}

/// The tokens of a document given as lines, in order.
pub fn document_tokens(lines: &Vec<String>) -> (r: Vec<String>)
    ensures
        words(r@) == document_tokens_of(words(lines@)),
{
    let mut r: Vec<String> = Vec::new();
    let mut i: usize = 0;
    while i < lines.len()
        invariant
            i <= lines.len(),
            words(r@) == normalize_all(line_words(words(lines@.take(i as int)))),
        decreases lines.len() - i,
    {
        let ws = tokenize_line(&lines[i]);
        let ghost before = line_words(words(lines@.take(i as int)));
        let mut j: usize = 0;
        while j < ws.len()
            invariant
                j <= ws.len(),
                words(r@) == normalize_all(before + words(ws@).take(j as int)),
            decreases ws.len() - j,
        {
            let ghost r0 = r@;
            let tok = normalize_word(&ws[j]);
            proof {
                let full = before + words(ws@).take(j + 1);
                assert(full.drop_last() =~= before + words(ws@).take(j as int));
                assert(full.last() == ws@[j as int]@);
            }
            if let Some(t) = tok {
                r.push(t);
                proof {
                    assert(words(r@) =~= words(r0).push(t@));
                }
            }
            j = j + 1;
        }
        proof {
            assert(words(lines@.take(i + 1)).drop_last() =~= words(lines@.take(i as int)));
            assert(words(ws@).take(ws@.len() as int) =~= regexp_words(lines@[i as int]@));
        }
        i = i + 1;
    }
    proof {
        assert(lines@.take(lines@.len() as int) =~= lines@);
    }
    r
}

/// The sketch of a document given as lines: every n-gram of its tokens, of the
/// template's width, offered to a copy of the template.
pub fn sketch_fancy(lines: &Vec<String>, template: &Sketch) -> (r: Sketch)
    requires
        template.wf(),
        template.ksize >= 1,
    ensures
        r.wf(),
        r.ksize == template.ksize,
        r.mode == template.mode,
        r.hashes() == retained(
            template.mode,
            template.hashes().union(
                window_hashes(kept(document_tokens_of(words(lines@))), template.ksize as nat),
            ),
        ),
        window_hashes(kept(document_tokens_of(words(lines@))), template.ksize as nat).finite(),
{
    let tokens = document_tokens(lines);
    sketch_tokens(&tokens, template)
}

/// The largest hash a scaled sketch keeps when it samples one hash in
/// `scaled`: the floor of 2^64 / `scaled`, capped at the largest 64-bit value.
pub open spec fn threshold_for(scaled: nat) -> nat {
    if scaled == 1 {
        0xffff_ffff_ffff_ffff
    } else {
        0x1_0000_0000_0000_0000nat / scaled
    }
}

/// The threshold of a scaled sketch that keeps about one hash in `scaled`.
pub fn max_hash_for_scaled(scaled: u64) -> (r: u64)
    requires
        scaled >= 1,
    ensures
        r as nat == threshold_for(scaled as nat),
{
    if scaled == 1 {
        return 0xffff_ffff_ffff_ffff;
    }
    let q: u64 = 0xffff_ffff_ffff_ffff / scaled;
    let rem: u64 = 0xffff_ffff_ffff_ffff % scaled;
    proof {
        let m: int = 0xffff_ffff_ffff_ffff;
        let s: int = scaled as int;
        assert(m == q as int * s + rem as int && 0 <= rem < s) by (nonlinear_arith)
            requires q as int == m / s, rem as int == m % s, s >= 2;
        assert(q as int * s <= m) by (nonlinear_arith)
            requires m == q as int * s + rem as int, rem >= 0;
        assert(q as int * 2 <= m) by (nonlinear_arith)
            requires q as int * s <= m, s >= 2, q >= 0;
        if rem as int == s - 1 {
            assert(m + 1 == (q as int + 1) * s) by (nonlinear_arith)
                requires m == q as int * s + rem as int, rem as int == s - 1;
            assert((m + 1) / s == q as int + 1) by (nonlinear_arith)
                requires m + 1 == (q as int + 1) * s, s >= 2;
        } else {
            assert((m + 1) / s == q as int) by (nonlinear_arith)
                requires m + 1 == q as int * s + rem as int + 1, 0 <= rem as int + 1 < s, s >= 2;
        }
    }
    if rem == scaled - 1 {
        q + 1
    } else {
        q
    }
}

/// An empty scaled sketch of n-gram width `ngram` that keeps about one hash
/// in `scaled`.
pub fn build_template(scaled: usize, ngram: u8) -> (r: Sketch)
    requires
        scaled >= 1,
        ngram >= 1,
    ensures
        r.wf(),
        r.ksize == ngram as u32,
        r.mode == (ScaleMode::Scaled { max_hash: threshold_for(scaled as nat) as u64 }),
        r.mins@.len() == 0,
{
    let max_hash = max_hash_for_scaled(scaled as u64);
    Sketch::new(ngram as u32, ScaleMode::Scaled { max_hash })
}

} // verus!
