use ansible::document::{
    accept_stem, build_template, document_tokens, max_hash_for_scaled, normalize_word, sketch_fancy,
};
use ansible::ngram::{ngram_bytes, ngram_hashes, ngrams, non_empty_tokens, sketch_tokens};
use ansible::signature::{intersect, intersect_optional, subtract, Signature};
use ansible::sketch::{ScaleMode, Sketch, SketchError};

fn toks(words: &[&str]) -> Vec<String> {
    words.iter().map(|w| w.to_string()).collect()
}

fn scaled_sketch(ksize: u32, max_hash: u64, hashes: &[u64]) -> Sketch {
    let mut s = Sketch::new(ksize, ScaleMode::Scaled { max_hash });
    s.add_many(&hashes.to_vec());
    s
}

fn signature_of(name: &str, sketches: Vec<Sketch>) -> Signature {
    Signature::new(Some(name.to_string()), "0.xxhash_ngram".to_string(), None, sketches)
}

#[test]
fn ngram_count_and_windows() {
    let t = toks(&["a", "b", "c", "d", "e"]);
    for k in 1..=7usize {
        let g = ngrams(&t, k);
        let expected = if t.len() >= k { t.len() - k + 1 } else { 0 };
        assert_eq!(g.len(), expected);
        for (i, w) in g.iter().enumerate() {
            assert_eq!(w, &t[i..i + k].to_vec());
        }
    }
}

#[test]
fn ngram_skips_empty_tokens() {
    let t = toks(&["a", "", "b", "", "", "c"]);
    assert_eq!(non_empty_tokens(&t), toks(&["a", "b", "c"]));
    let g = ngrams(&t, 2);
    assert_eq!(g, vec![toks(&["a", "b"]), toks(&["b", "c"])]);
}

#[test]
fn ngram_short_input_yields_nothing() {
    assert!(ngrams(&toks(&["a", "b"]), 3).is_empty());
    assert!(ngrams(&Vec::new(), 1).is_empty());
}

#[test]
fn hash_is_deterministic_and_order_sensitive() {
    let g = toks(&["the", "cat"]);
    let h = ngram_hashes(&vec![g.clone(), g.clone(), toks(&["cat", "the"]), toks(&["thecat"])]);
    assert_eq!(h.len(), 4);
    assert_eq!(h[0], h[1]);
    assert_eq!(h, ngram_hashes(&vec![g.clone(), g, toks(&["cat", "the"]), toks(&["thecat"])]));
    assert_ne!(h[0], h[2]);
    assert_ne!(h[0], h[3]);
}

#[test]
fn scaled_keeps_exactly_hashes_at_or_below_threshold() {
    let mut s = Sketch::new(1, ScaleMode::Scaled { max_hash: 100 });
    for h in [150u64, 7, 100, 101, 7, 3, 0, u64::MAX] {
        s.add_hash(h);
    }
    assert_eq!(s.mins, vec![0, 3, 7, 100]);
}

#[test]
fn fixed_count_keeps_smallest() {
    let mut s = Sketch::new(2, ScaleMode::FixedCount { num: 3 });
    for h in [50u64, 10, 40, 10, 30, 60, 20, 5] {
        s.add_hash(h);
        assert!(s.mins.len() <= 3);
    }
    assert_eq!(s.mins, vec![5, 10, 20]);
    let mut t = Sketch::new(2, ScaleMode::FixedCount { num: 3 });
    t.add_many(&vec![5, 20, 60, 30, 10, 40, 10, 50]);
    assert_eq!(t.mins, s.mins);
    let mut z = Sketch::new(2, ScaleMode::FixedCount { num: 0 });
    z.add_many(&vec![1, 2, 3]);
    assert!(z.mins.is_empty());
}

#[test]
fn add_many_order_does_not_matter() {
    let a = scaled_sketch(1, 1000, &[9, 1, 5, 2000, 5]);
    let b = scaled_sketch(1, 1000, &[5, 2000, 1, 9]);
    assert_eq!(a.mins, b.mins);
    assert_eq!(a.mins, vec![1, 5, 9]);
}

#[test]
fn remove_many_ignores_absent() {
    let mut s = scaled_sketch(1, u64::MAX, &[1, 2, 3, 4]);
    s.remove_many(&vec![4, 2, 99, 2]);
    assert_eq!(s.mins, vec![1, 3]);
    assert_eq!(s.ksize, 1);
    s.clear();
    assert!(s.mins.is_empty());
    assert_eq!(s.mode, ScaleMode::Scaled { max_hash: u64::MAX });
}

#[test]
fn algebra_laws_on_values() {
    let a = scaled_sketch(2, u64::MAX, &[1, 3, 5, 7, 9]);
    let b = scaled_sketch(2, u64::MAX, &[3, 4, 5, 6, 7]);
    let c = scaled_sketch(2, u64::MAX, &[5, 7, 11]);
    assert_eq!(a.intersection(&a).unwrap().mins, a.mins);
    let ab = a.intersection(&b).unwrap();
    assert_eq!(ab.mins, vec![3, 5, 7]);
    assert_eq!(ab.mins, b.intersection(&a).unwrap().mins);
    let left = ab.intersection(&c).unwrap();
    let right = a.intersection(&b.intersection(&c).unwrap()).unwrap();
    assert_eq!(left.mins, right.mins);
    assert_eq!(left.mins, vec![5, 7]);
    assert!(a.subtract(&a).unwrap().mins.is_empty());
    assert_eq!(a.subtract(&b).unwrap().mins, vec![1, 9]);
    assert_eq!(a.union(&b).unwrap().mins, vec![1, 3, 4, 5, 6, 7, 9]);
}

#[test]
fn union_fixed_count_keeps_smallest() {
    let mut a = Sketch::new(1, ScaleMode::FixedCount { num: 3 });
    a.add_many(&vec![2, 8, 9]);
    let mut b = Sketch::new(1, ScaleMode::FixedCount { num: 3 });
    b.add_many(&vec![1, 8, 4]);
    assert_eq!(a.union(&b).unwrap().mins, vec![1, 2, 4]);
}

#[test]
fn incompatible_operands_fail() {
    let a = scaled_sketch(1, 100, &[1, 2]);
    let other_k = scaled_sketch(2, 100, &[1, 2]);
    let other_t = scaled_sketch(1, 200, &[1, 2]);
    let fixed = Sketch::new(1, ScaleMode::FixedCount { num: 100 });
    for b in [&other_k, &other_t, &fixed] {
        assert_eq!(a.intersection(b).unwrap_err(), SketchError::IncompatibleSketch);
        assert_eq!(a.subtract(b).unwrap_err(), SketchError::IncompatibleSketch);
        assert_eq!(a.union(b).unwrap_err(), SketchError::IncompatibleSketch);
    }
}

#[test]
fn threshold_values() {
    assert_eq!(max_hash_for_scaled(1), u64::MAX);
    assert_eq!(max_hash_for_scaled(2), 1u64 << 63);
    assert_eq!(max_hash_for_scaled(3), 6148914691236517205);
    assert_eq!(max_hash_for_scaled(100), 184467440737095516);
    assert_eq!(max_hash_for_scaled(1u64 << 32), 1u64 << 32);
    assert_eq!(max_hash_for_scaled(u64::MAX), 1);
    let t = build_template(100, 2);
    assert_eq!(t.ksize, 2);
    assert_eq!(t.mode, ScaleMode::Scaled { max_hash: 184467440737095516 });
    assert!(t.mins.is_empty());
}

#[test]
fn scenario_distinct_bigrams() {
    let t = toks(&["the", "cat", "sat", "on", "the", "mat"]);
    let g = ngrams(&t, 2);
    assert_eq!(
        g,
        vec![
            toks(&["the", "cat"]),
            toks(&["cat", "sat"]),
            toks(&["sat", "on"]),
            toks(&["on", "the"]),
            toks(&["the", "mat"]),
        ]
    );
    let s = sketch_tokens(&t, &build_template(1, 2));
    assert_eq!(s.mins.len(), 5);
    let mut expected: Vec<u64> = ngram_hashes(&g);
    expected.sort();
    assert_eq!(s.mins, expected);
}

#[test]
fn scenario_repeated_bigram() {
    let t = toks(&["a", "b", "a", "b"]);
    assert_eq!(ngrams(&t, 2).len(), 3);
    let s = sketch_tokens(&t, &build_template(1, 2));
    assert_eq!(s.mins.len(), 2);
}

#[test]
fn scenario_intersection_with_disjoint_member() {
    let a = scaled_sketch(1, u64::MAX, &[1, 2, 3]);
    let b = scaled_sketch(1, u64::MAX, &[2, 3, 4]);
    let c = scaled_sketch(1, u64::MAX, &[7, 8]);
    let template = Sketch::new(1, ScaleMode::Scaled { max_hash: u64::MAX });
    let sigs = vec![signature_of("a", vec![a]), signature_of("b", vec![b]), signature_of("c", vec![c])];
    let r = intersect(&sigs, &template).unwrap();
    assert!(r.mins.is_empty());
    assert_eq!(r.ksize, 1);
    let r2 = intersect(&sigs[..2].to_vec(), &template).unwrap();
    assert_eq!(r2.mins, vec![2, 3]);
}

#[test]
fn intersect_selects_by_template_and_reports_missing() {
    let t1 = Sketch::new(1, ScaleMode::Scaled { max_hash: u64::MAX });
    let t2 = Sketch::new(2, ScaleMode::Scaled { max_hash: u64::MAX });
    let a = signature_of("a", vec![scaled_sketch(2, u64::MAX, &[9]), scaled_sketch(1, u64::MAX, &[1, 2])]);
    let b = signature_of("b", vec![scaled_sketch(1, u64::MAX, &[2, 5])]);
    let sigs = vec![a.clone(), b];
    assert_eq!(intersect(&sigs, &t1).unwrap().mins, vec![2]);
    assert_eq!(intersect(&sigs, &t2).unwrap_err(), SketchError::SketchNotFound);
    assert_eq!(intersect(&vec![a.clone()], &t2).unwrap().mins, vec![9]);
    assert_eq!(a.select_sketch(&t1).unwrap().mins, vec![1, 2]);
    let t3 = Sketch::new(3, ScaleMode::Scaled { max_hash: u64::MAX });
    assert_eq!(a.select_sketch(&t3).unwrap_err(), SketchError::SketchNotFound);
}

#[test]
fn absent_operand_is_identity() {
    let a = scaled_sketch(1, u64::MAX, &[1, 2]);
    let b = scaled_sketch(1, u64::MAX, &[2, 3]);
    assert_eq!(intersect_optional(None, Some(a.clone())).unwrap().unwrap().mins, vec![1, 2]);
    assert_eq!(intersect_optional(Some(a.clone()), None).unwrap().unwrap().mins, vec![1, 2]);
    assert!(intersect_optional(None, None).unwrap().is_none());
    assert_eq!(intersect_optional(Some(a), Some(b)).unwrap().unwrap().mins, vec![2]);
}

#[test]
fn scenario_subtract_self() {
    let template = build_template(1, 2);
    let mut s = template.clone();
    s.add_many(&vec![4, 8, 15]);
    let sig = signature_of("doc", vec![s]);
    let r = subtract(sig.clone(), &sig, &template).unwrap();
    assert_eq!(r.sketches.len(), 1);
    assert!(r.sketches[0].mins.is_empty());
    assert_eq!(r.sketches[0].ksize, 2);
    assert_eq!(r.sketches[0].mode, template.mode);
    assert_eq!(r.name, Some("doc".to_string()));
}

#[test]
fn subtract_removes_other_hashes_and_reports_missing() {
    let template = build_template(1, 1);
    let q = signature_of("q", vec![scaled_sketch(1, u64::MAX, &[1, 2, 3])]);
    let o = signature_of("o", vec![scaled_sketch(1, u64::MAX, &[2, 9])]);
    let r = subtract(q.clone(), &o, &template).unwrap();
    assert_eq!(r.sketches[0].mins, vec![1, 3]);
    let other_template = build_template(1, 3);
    assert_eq!(subtract(q, &o, &other_template).unwrap_err(), SketchError::SketchNotFound);
}

#[test]
fn words_are_stemmed_filtered_and_lowered() {
    assert_eq!(normalize_word(&"Cats".to_string()), Some("cat".to_string()));
    assert_eq!(normalize_word(&"the".to_string()), None);
    assert!(accept_stem(&"cat".to_string(), false));
    assert!(!accept_stem(&"cat".to_string(), true));
    assert!(!accept_stem(&String::new(), false));
}

#[test]
fn document_lines_become_tokens() {
    let lines = toks(&["Cats chase mice, in the gardens.", "", "x"]);
    assert_eq!(document_tokens(&lines), toks(&["cat", "chase", "mice", "garden"]));
}

#[test]
fn document_sketch_matches_token_sketch() {
    let lines = toks(&["Cats chase mice", "in the gardens"]);
    let template = build_template(1, 2);
    let s = sketch_fancy(&lines, &template);
    let direct = sketch_tokens(&toks(&["cat", "chase", "mice", "garden"]), &template);
    assert_eq!(s.mins, direct.mins);
    assert_eq!(s.mins.len(), 3);
}

#[test]
fn ngram_encoding_is_fixed_little_endian() {
    let b = ngram_bytes(&toks(&["ab", "\u{e9}"]));
    let expected: Vec<u8> = vec![
        2, 0, 0, 0, 0, 0, 0, 0, // two tokens
        2, 0, 0, 0, 0, 0, 0, 0, 97, 0, 0, 0, 98, 0, 0, 0, // "ab"
        1, 0, 0, 0, 0, 0, 0, 0, 0xe9, 0, 0, 0, // "\u{e9}"
    ];
    assert_eq!(b, expected);
    assert_ne!(ngram_bytes(&toks(&["ab", "c"])), ngram_bytes(&toks(&["a", "bc"])));
}

#[test]
fn fixed_count_with_fewer_distinct_hashes() {
    let mut s = Sketch::new(1, ScaleMode::FixedCount { num: 5 });
    s.add_many(&vec![3, 3, 1, 3]);
    assert_eq!(s.mins, vec![1, 3]);
}

#[test]
fn long_ngram_hash_is_one_shot_xxh3_of_encoding() {
    for chars in 60..=76usize {
        let token: String = "abcdefghij".chars().cycle().take(chars).collect();
        let g = vec![token];
        let bytes = ngram_bytes(&g);
        assert_eq!(bytes.len(), 16 + 4 * chars);
        let h = ngram_hashes(&vec![g.clone(), g.clone()]);
        assert_eq!(h[0], twox_hash::xxh3::hash128(&bytes) as u64);
        assert_eq!(h[0], h[1]);
    }
    let eight = toks(&["abcdef", "bcdefg", "cdefgh", "defghi", "efghij", "fghijk", "ghijkl", "hijklm"]);
    let bytes = ngram_bytes(&eight);
    assert_eq!(bytes.len(), 264);
    assert_eq!(ngram_hashes(&vec![eight])[0], twox_hash::xxh3::hash128(&bytes) as u64);
}
