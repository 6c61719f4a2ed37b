//! Signatures: named containers of sketches, looked up by template, and the
//! operations that derive a new sketch from stored ones.

use vstd::prelude::*;

use crate::sketch::{is_intersection, Sketch, SketchError};

verus! {

/// A named set of sketches of one document, with the identifier of the hash
/// function that made them.
#[derive(Clone, Debug)]
pub struct Signature {
    pub name: Option<String>,
    pub hash_function: String,
    pub filename: Option<String>,
    pub sketches: Vec<Sketch>,
}

impl Signature {
    /// Every sketch is well formed.
    pub open spec fn wf(&self) -> bool {
        forall|i: int| 0 <= i < self.sketches@.len() ==> (#[trigger] self.sketches@[i]).wf()
    }

    /// The `i`-th sketch is the first one compatible with `template`.
    pub open spec fn first_match_at(&self, template: Sketch, i: int) -> bool {
        &&& 0 <= i < self.sketches@.len()
        &&& self.sketches@[i].compatible_with(&template)
        &&& forall|j: int| 0 <= j < i ==> !(#[trigger] self.sketches@[j]).compatible_with(&template)
    }

    /// Some sketch is compatible with `template`.
    pub open spec fn has_match(&self, template: Sketch) -> bool {
        exists|i: int| 0 <= i < self.sketches@.len() && (#[trigger] self.sketches@[i]).compatible_with(&template)
    }

    /// The first sketch compatible with `template`.
    pub open spec fn selected(&self, template: Sketch) -> Sketch {
        self.sketches@[choose|i: int| self.first_match_at(template, i)]
    }

    /// A signature holding `sketches`.
    pub fn new(
        name: Option<String>,
        hash_function: String,
        filename: Option<String>,
        sketches: Vec<Sketch>,
    ) -> (r: Signature)
        ensures
            r.name == name,
            r.hash_function == hash_function,
            r.filename == filename,
            r.sketches == sketches,
    {
        Signature { name, hash_function, filename, sketches }
    }

    /// The first sketch whose n-gram size and mode match `template`.
    pub fn select_sketch(&self, template: &Sketch) -> (r: Result<&Sketch, SketchError>)
        ensures
            r matches Ok(s) ==> self.has_match(*template) && *s == self.selected(*template),
            r matches Err(e) ==> !self.has_match(*template) && e == SketchError::SketchNotFound,
    {
        let mut i: usize = 0;
        while i < self.sketches.len()
            invariant
                i <= self.sketches.len(),
                forall|j: int| 0 <= j < i ==> !(#[trigger] self.sketches@[j]).compatible_with(template),
            decreases self.sketches.len() - i,
        {
            if self.sketches[i].is_compatible(template) {
                proof {
                    assert(self.first_match_at(*template, i as int));
                    let c = choose|c: int| self.first_match_at(*template, c);
                    if c < i as int {
                        assert(!self.sketches@[c].compatible_with(template));
                    } else if c > i as int {
                        assert(!self.sketches@[i as int].compatible_with(template));
                    }
                }
                return Ok(&self.sketches[i]);
            }
            i = i + 1;
        }
        Err(SketchError::SketchNotFound)
    }

    /// The same signature with its sketches replaced, all at once, by `sketches`.
    pub fn replace_sketches(self, sketches: Vec<Sketch>) -> (r: Signature)
        ensures
            r.name == self.name,
            r.hash_function == self.hash_function,
            r.filename == self.filename,
            r.sketches == sketches,
    {
        Signature { sketches, ..self }
    }
}

/// The first compatible sketch of a signature that has one is well formed.
proof fn lemma_selected_wf(sig: Signature, template: Sketch)
    requires
        sig.wf(),
        sig.has_match(template),
    ensures
        sig.selected(template).wf(),
        sig.selected(template).compatible_with(&template),
{
    let w = choose|i: int| 0 <= i < sig.sketches@.len() && (#[trigger] sig.sketches@[i]).compatible_with(&template);
    lemma_first_match_exists(sig, template, w);
    let c = choose|c: int| sig.first_match_at(template, c);
    assert(sig.sketches@[c].wf());
}

/// Among the sketches up to `w`, one that is compatible, the first compatible one exists.
proof fn lemma_first_match_exists(sig: Signature, template: Sketch, w: int)
    requires
        0 <= w < sig.sketches@.len(),
        sig.sketches@[w].compatible_with(&template),
    ensures
        exists|c: int| sig.first_match_at(template, c),
    decreases w,
{
    if forall|j: int| 0 <= j < w ==> !(#[trigger] sig.sketches@[j]).compatible_with(&template) {
        assert(sig.first_match_at(template, w));
    } else {
        let j = choose|j: int| 0 <= j < w && (#[trigger] sig.sketches@[j]).compatible_with(&template);
        lemma_first_match_exists(sig, template, j);
    }
}

/// The query's selected sketch with the hashes of the other signature's
/// selected sketch taken out, as the query's only sketch; the query's name,
/// hash function and file name are kept.
pub fn subtract(query_sig: Signature, to_remove: &Signature, template: &Sketch) -> (r: Result<Signature, SketchError>)
    requires
        query_sig.wf(),
        to_remove.wf(),
    ensures
        r matches Ok(s) ==> {
            &&& query_sig.has_match(*template)
            &&& to_remove.has_match(*template)
            &&& s.name == query_sig.name
            &&& s.hash_function == query_sig.hash_function
            &&& s.filename == query_sig.filename
            &&& s.sketches@.len() == 1
            &&& s.wf()
            &&& s.sketches@[0].ksize == template.ksize
            &&& s.sketches@[0].mode == template.mode
            &&& s.sketches@[0].hashes() == query_sig.selected(*template).hashes().difference(
                to_remove.selected(*template).hashes(),
            )
        },
        r matches Err(e) ==> e == SketchError::SketchNotFound && !(query_sig.has_match(*template)
            && to_remove.has_match(*template)),
{
    let mut query_mh = match query_sig.select_sketch(template) {
        Ok(s) => s.duplicate(),
        Err(e) => return Err(e),
    };
    let to_remove_mh = match to_remove.select_sketch(template) {
        Ok(s) => s,
        Err(e) => return Err(e),
    };
    proof {
        lemma_selected_wf(query_sig, *template);
        lemma_selected_wf(*to_remove, *template);
    }
    query_mh.remove_many(&to_remove_mh.mins);
    let ghost kept = query_mh;
    let sketches = vec![query_mh];
    let r = query_sig.replace_sketches(sketches);
    proof {
        assert(r.sketches@[0] == kept);
    }
    Ok(r)
}

/// Combines two partial results of an intersection: an absent one yields the
/// other, two present ones their intersection.
pub fn intersect_optional(a: Option<Sketch>, b: Option<Sketch>) -> (r: Result<Option<Sketch>, SketchError>)
    requires
        a matches Some(x) ==> x.wf(),
        b matches Some(y) ==> y.wf(),
    ensures
        a is None ==> r == Ok::<Option<Sketch>, SketchError>(b),
        a is Some && b is None ==> r == Ok::<Option<Sketch>, SketchError>(a),
        a matches Some(x) ==> (b matches Some(y) ==> match r {
            Ok(Some(s)) => is_intersection(s, x, y),
            Ok(None) => false,
            Err(e) => !x.compatible_with(&y) && e == SketchError::IncompatibleSketch,
        }),
{
    match a {
        None => Ok(b),
        Some(x) => match b {
            None => Ok(Some(x)),
            Some(y) => match x.intersection(&y) {
                Ok(s) => Ok(Some(s)),
                Err(e) => Err(e),
            },
        },
    }
}

/// Every signature has a sketch compatible with `template`.
pub open spec fn all_match(sigs: Seq<Signature>, template: Sketch) -> bool {
    forall|i: int| 0 <= i < sigs.len() ==> (#[trigger] sigs[i]).has_match(template)
}

/// The hashes that the selected sketches of all the signatures share.
pub open spec fn common_hashes(sigs: Seq<Signature>, template: Sketch) -> Set<u64>
    decreases sigs.len(),
{
    if sigs.len() == 0 {
        Set::empty()
    } else if sigs.len() == 1 {
        sigs[0].selected(template).hashes()
    } else {
        common_hashes(sigs.drop_last(), template).intersect(sigs.last().selected(template).hashes())
    }
}

/// The intersection of the sketches that `template` selects from each of
/// `sigs`, folded from the first signature to the last.
pub fn intersect(sigs: &Vec<Signature>, template: &Sketch) -> (r: Result<Sketch, SketchError>)
    requires
        sigs@.len() >= 1,
        forall|i: int| 0 <= i < sigs@.len() ==> (#[trigger] sigs@[i]).wf(),
    ensures
        r is Ok <==> all_match(sigs@, *template),
        r matches Ok(s) ==> {
            &&& s.wf()
            &&& s.ksize == template.ksize
            &&& s.mode == template.mode
            &&& s.hashes() == common_hashes(sigs@, *template)
        },
        r matches Err(e) ==> e == SketchError::SketchNotFound,
{
    let mut acc: Option<Sketch> = None;
    let mut i: usize = 0;
    while i < sigs.len()
        invariant
            i <= sigs.len(),
            forall|q: int| 0 <= q < sigs@.len() ==> (#[trigger] sigs@[q]).wf(),
            all_match(sigs@.take(i as int), *template),
            i == 0 ==> acc is None,
            i > 0 ==> (acc matches Some(s) && s.wf() && s.ksize == template.ksize && s.mode == template.mode
                && s.hashes() == common_hashes(sigs@.take(i as int), *template)),
        decreases sigs.len() - i,
    {
        let selected = match sigs[i].select_sketch(template) {
            Ok(s) => s.duplicate(),
            Err(e) => {
                proof {
                    assert(!sigs@[i as int].has_match(*template));
                    assert(!all_match(sigs@, *template));
                }
                return Err(e);
            },
        };
        proof {
            lemma_selected_wf(sigs@[i as int], *template);
            let pre = sigs@.take(i + 1);
            assert(pre.drop_last() =~= sigs@.take(i as int));
            assert(pre.last() == sigs@[i as int]);
            assert forall|q: int| 0 <= q < pre.len() implies (#[trigger] pre[q]).has_match(*template) by {
                if q < i as int {
                    assert(sigs@.take(i as int)[q] == pre[q]);
                }
            }
            if i == 0 {
                assert(pre.len() == 1);
            }
        }
        let combined = intersect_optional(acc, Some(selected));
        acc = match combined {
            Ok(c) => c,
            Err(e) => {
                return Err(e);
            },
        };
        i = i + 1;
    }
    proof {
        assert(sigs@.take(sigs@.len() as int) =~= sigs@);
    }
    match acc {
        Some(s) => Ok(s),
        None => Err(SketchError::SketchNotFound),
    }
}

} // verus!
