//! The MinHash sketch: a sorted, duplicate-free set of 64-bit hashes kept
//! under one of two sampling rules, and the set algebra over sketches.

use vstd::prelude::*;

verus! {

/// Every element is smaller than the next one: sorted, without duplicates.
pub open spec fn strictly_sorted(s: Seq<u64>) -> bool {
    forall|i: int, j: int| 0 <= i < j < s.len() ==> s[i] < s[j]
}

/// The members of `s` that are smaller than `x`.
pub open spec fn below(s: Set<u64>, x: u64) -> Set<u64> {
    s.filter(|y: u64| y < x)
}

/// The `n` smallest members of `s` (all of them when `s` has fewer).
pub open spec fn smallest(s: Set<u64>, n: nat) -> Set<u64> {
    s.filter(|x: u64| below(s, x).len() < n)
}

/// How a sketch samples the hashes it is given.
#[derive(PartialEq, Eq, Structural, Clone, Copy, Debug)]
pub enum ScaleMode {
    /// Keep every hash not above `max_hash`.
    Scaled { max_hash: u64 },
    /// Keep the `num` smallest hashes.
    FixedCount { num: usize },
}

/// What a sketch in mode `mode` keeps of the hashes `s` it has been given.
pub open spec fn retained(mode: ScaleMode, s: Set<u64>) -> Set<u64> {
    match mode {
        ScaleMode::Scaled { max_hash } => s.filter(|h: u64| h <= max_hash),
        ScaleMode::FixedCount { num } => smallest(s, num as nat),
    }
}

/// The failures of the sketch algebra and of sketch lookup.
#[derive(PartialEq, Eq, Structural, Clone, Copy, Debug)]
pub enum SketchError {
    /// Two sketches differ in n-gram size or in sampling mode.
    IncompatibleSketch,
    /// A signature holds no sketch that matches the requested template.
    SketchNotFound,
}

/// A MinHash sketch of the n-grams of width `ksize` of one document.
#[derive(Clone, Debug)]
pub struct Sketch {
    pub ksize: u32,
    pub mode: ScaleMode,
    pub mins: Vec<u64>,
}

impl Sketch {
    /// The set of hashes the sketch holds.
    pub open spec fn hashes(&self) -> Set<u64> {
        self.mins@.to_set()
    }

    /// `mins` is sorted without duplicates and each member obeys the mode's rule.
    pub open spec fn wf(&self) -> bool {
        &&& strictly_sorted(self.mins@)
        &&& match self.mode {
            ScaleMode::Scaled { max_hash } => forall|i: int|
                0 <= i < self.mins@.len() ==> self.mins@[i] <= max_hash,
            ScaleMode::FixedCount { num } => self.mins@.len() <= num,
        }
    }

    /// Same n-gram size and same sampling mode.
    pub open spec fn compatible_with(&self, other: &Sketch) -> bool {
        self.ksize == other.ksize && self.mode == other.mode
    }

    /// An empty sketch.
    pub fn new(ksize: u32, mode: ScaleMode) -> (r: Sketch)
        ensures
            r.wf(),
            r.ksize == ksize,
            r.mode == mode,
            r.mins@ == Seq::<u64>::empty(),
    {
        Sketch { ksize, mode, mins: Vec::new() }
    }
}

/// Position of `h` in the strictly sorted `v`: the first index whose element is
/// not below `h`, and whether `h` stands there.
fn search(v: &Vec<u64>, h: u64) -> (r: (bool, usize))
    requires
        strictly_sorted(v@),
    ensures
        r.1 <= v.len(),
        forall|i: int| 0 <= i < r.1 ==> v@[i] < h,
        forall|i: int| r.1 <= i < v.len() ==> h <= v@[i],
        r.0 <==> (r.1 < v.len() && v@[r.1 as int] == h),
        r.0 <==> v@.contains(h),
{
    let mut lo: usize = 0;
    let mut hi: usize = v.len();
    while lo < hi
        invariant
            lo <= hi <= v.len(),
            strictly_sorted(v@),
            forall|i: int| 0 <= i < lo ==> v@[i] < h,
            forall|i: int| hi <= i < v.len() ==> h <= v@[i],
        decreases hi - lo,
    {
        let mid: usize = lo + (hi - lo) / 2;
        if v[mid] < h {
            lo = mid + 1;
        } else {
            hi = mid;
        }
    }
    let found = lo < v.len() && v[lo] == h;
    proof {
        if !found {
            assert forall|i: int| 0 <= i < v@.len() implies v@[i] != h by {
                if i > lo as int {
                    assert(v@[lo as int] < v@[i]);
                }
            }
        }
    }
    (found, lo)
}

/// Adds `h` to the strictly sorted `v`, keeping it strictly sorted.
fn insert_sorted(v: &mut Vec<u64>, h: u64)
    requires
        strictly_sorted(old(v)@),
    ensures
        strictly_sorted(final(v)@),
        final(v)@.to_set() == old(v)@.to_set().insert(h),
        final(v)@.len() <= old(v)@.len() + 1,
        forall|x: u64| final(v)@.contains(x) ==> x == h || old(v)@.contains(x),
{
    let (found, pos) = search(v, h);
    if !found {
        let ghost s = v@;
        v.insert(pos, h);
        proof {
            s.insert_ensures(pos as int, h);
            assert forall|i: int, j: int| 0 <= i < j < v@.len() implies v@[i] < v@[j] by {
                if j < pos as int {
                    assert(v@[i] == s[i] && v@[j] == s[j]);
                } else if j == pos as int {
                    assert(v@[i] == s[i]);
                } else if i < pos as int {
                    assert(v@[i] == s[i] && v@[j] == s[j - 1]);
                } else if i == pos as int {
                    assert(v@[j] == s[j - 1]);
                } else {
                    assert(v@[i] == s[i - 1] && v@[j] == s[j - 1]);
                }
            }
            assert forall|x: u64| v@.contains(x) <==> (x == h || s.contains(x)) by {
                if v@.contains(x) {
                    let k = choose|k: int| 0 <= k < v@.len() && v@[k] == x;
                    if k > pos as int {
                        assert(v@[k] == s[k - 1]);
                        assert(s.contains(x));
                    } else if k < pos as int {
                        assert(v@[k] == s[k]);
                        assert(s.contains(x));
                    }
                }
                if x == h {
                    assert(v@[pos as int] == h);
                }
                if s.contains(x) {
                    let k = choose|k: int| 0 <= k < s.len() && s[k] == x;
                    if k >= pos as int {
                        assert(v@[k + 1] == s[k]);
                    } else {
                        assert(v@[k] == s[k]);
                    }
                }
            }
        }
    }
    proof {
        assert(v@.to_set() =~= old(v)@.to_set().insert(h));
    }
}

/// In a strictly sorted sequence, exactly `j` members lie below the `j`-th.
pub proof fn lemma_below_index(s: Seq<u64>, j: int)
    requires
        strictly_sorted(s),
        0 <= j < s.len(),
    ensures
        below(s.to_set(), s[j]) == s.take(j).to_set(),
        below(s.to_set(), s[j]).len() == j,
{
    assert forall|x: u64| below(s.to_set(), s[j]).contains(x) <==> s.take(j).to_set().contains(x) by {
        if below(s.to_set(), s[j]).contains(x) {
            let k = choose|k: int| 0 <= k < s.len() && s[k] == x;
            if k >= j {
                assert(s[j] <= s[k]);
            }
            assert(s.take(j)[k] == x);
        }
        if s.take(j).to_set().contains(x) {
            let k = choose|k: int| 0 <= k < j && s.take(j)[k] == x;
            assert(s[k] == x);
        }
    }
    assert(below(s.to_set(), s[j]) =~= s.take(j).to_set());
    assert(s.take(j).no_duplicates()) by {
        assert forall|a: int, b: int| 0 <= a < s.take(j).len() && 0 <= b < s.take(j).len() && a != b
            implies s.take(j)[a] != s.take(j)[b] by {
            if a < b {
                assert(s[a] < s[b]);
            } else {
                assert(s[b] < s[a]);
            }
        }
    }
    s.take(j).unique_seq_to_set();
}

/// The first `n` members of a strictly sorted sequence are its `n` smallest.
pub proof fn lemma_prefix_is_smallest(s: Seq<u64>, n: nat)
    requires
        strictly_sorted(s),
    ensures
        s.take(if n < s.len() { n as int } else { s.len() as int }).to_set() == smallest(s.to_set(), n),
{
    let m: int = if n < s.len() { n as int } else { s.len() as int };
    assert forall|x: u64| s.take(m).to_set().contains(x) <==> smallest(s.to_set(), n).contains(x) by {
        if s.to_set().contains(x) {
            let k = choose|k: int| 0 <= k < s.len() && s[k] == x;
            lemma_below_index(s, k);
            if k < m {
                assert(s.take(m)[k] == x);
            }
        }
        if s.take(m).to_set().contains(x) {
            let k = choose|k: int| 0 <= k < m && s.take(m)[k] == x;
            assert(s[k] == x);
            assert(s.to_set().contains(x));
        }
    }
    assert(s.take(m).to_set() =~= smallest(s.to_set(), n));
}

impl Sketch {
    /// Offers one hash to the sketch, which keeps it if the mode's rule allows.
    pub fn add_hash(&mut self, h: u64)
        requires
            old(self).wf(),
        ensures
            final(self).wf(),
            final(self).ksize == old(self).ksize,
            final(self).mode == old(self).mode,
            final(self).hashes() == retained(old(self).mode, old(self).hashes().insert(h)),
    {
        let ghost before = self.mins@;
        match self.mode {
            ScaleMode::Scaled { max_hash } => {
                if h <= max_hash {
                    insert_sorted(&mut self.mins, h);
                }
                proof {
                    assert forall|i: int| 0 <= i < self.mins@.len() implies self.mins@[i] <= max_hash by {
                        let x = self.mins@[i];
                        assert(self.mins@.contains(x));
                        if x != h {
                            let k = choose|k: int| 0 <= k < before.len() && before[k] == x;
                        }
                    }
                    assert(self.hashes() =~= retained(self.mode, before.to_set().insert(h)));
                }
            },
            ScaleMode::FixedCount { num } => {
                insert_sorted(&mut self.mins, h);
                let ghost grown = self.mins@;
                self.mins.truncate(num);
                proof {
                    lemma_prefix_is_smallest(grown, num as nat);
                    assert(self.mins@ =~= grown.take(
                        if (num as nat) < grown.len() { num as int } else { grown.len() as int },
                    ));
                }
            },
        }
    }
}

/// Taking one element more of a sequence adds that element to the set taken.
proof fn lemma_take_next_to_set(s: Seq<u64>, i: int)
    requires
        0 <= i < s.len(),
    ensures
        s.take(i + 1).to_set() == s.take(i).to_set().insert(s[i]),
{
    assert forall|x: u64| s.take(i + 1).to_set().contains(x) <==> s.take(i).to_set().insert(s[i]).contains(x) by {
        if s.take(i + 1).to_set().contains(x) && x != s[i] {
            let k = choose|k: int| 0 <= k < i + 1 && #[trigger] s.take(i + 1)[k] == x;
            assert(s.take(i)[k] == x);
        }
        if s.take(i).to_set().contains(x) {
            let k = choose|k: int| 0 <= k < i && #[trigger] s.take(i)[k] == x;
            assert(s.take(i + 1)[k] == x);
        }
        if x == s[i] {
            assert(s.take(i + 1)[i] == x);
        }
    }
    assert(s.take(i + 1).to_set() =~= s.take(i).to_set().insert(s[i]));
}

/// The members of the strictly sorted `a` whose presence in the strictly
/// sorted `b` equals `present`, in order.
fn filter_by(a: &Vec<u64>, b: &Vec<u64>, present: bool) -> (r: Vec<u64>)
    requires
        strictly_sorted(a@),
        strictly_sorted(b@),
    ensures
        strictly_sorted(r@),
        r@.len() <= a@.len(),
        forall|x: u64| r@.contains(x) <==> (a@.contains(x) && b@.contains(x) == present),
{
    let mut r: Vec<u64> = Vec::new();
    let mut i: usize = 0;
    while i < a.len()
        invariant
            i <= a.len(),
            strictly_sorted(a@),
            strictly_sorted(b@),
            strictly_sorted(r@),
            r@.len() <= i,
            forall|x: u64| r@.contains(x) <==> (a@.take(i as int).contains(x) && b@.contains(x) == present),
        decreases a.len() - i,
    {
        let x = a[i];
        let (found, _) = search(b, x);
        let ghost r0 = r@;
        if found == present {
            proof {
                assert forall|q: int| 0 <= q < r0.len() implies r0[q] < x by {
                    assert(r0.contains(r0[q]));
                    let k = choose|k: int| 0 <= k < i && #[trigger] a@.take(i as int)[k] == r0[q];
                    assert(a@[k] == r0[q]);
                }
            }
            r.push(x);
        }
        proof {
            if a@.take(i as int).contains(x) {
                let k = choose|k: int| 0 <= k < i && #[trigger] a@.take(i as int)[k] == x;
                assert(a@[k] < a@[i as int]);
            }
            assert(!r0.contains(x));
            assert(a@.take(i + 1)[i as int] == x);
            assert(a@.take(i + 1) =~= a@.take(i as int).push(x));
            assert forall|y: u64| r@.contains(y) <==> (a@.take(i + 1).contains(y) && b@.contains(y) == present) by {
                if r@.contains(y) && y != x {
                    let k = choose|k: int| 0 <= k < r@.len() && r@[k] == y;
                    assert(r0[k] == y);
                }
                if a@.take(i + 1).contains(y) && y != x {
                    let k = choose|k: int| 0 <= k < i + 1 && #[trigger] a@.take(i + 1)[k] == y;
                    assert(a@.take(i as int)[k] == y);
                }
                if y == x && found == present {
                    assert(r@[r@.len() - 1] == x);
                }
                if r0.contains(y) {
                    let k = choose|k: int| 0 <= k < r0.len() && r0[k] == y;
                    assert(r@[k] == y);
                }
                if a@.take(i as int).contains(y) {
                    let k = choose|k: int| 0 <= k < i && #[trigger] a@.take(i as int)[k] == y;
                    assert(a@.take(i + 1)[k] == y);
                }
            }
        }
        i = i + 1;
    }
    proof {
        assert(a@.take(a@.len() as int) =~= a@);
    }
    r
}

/// `r` is derived from `a` and `b`: the two are compatible, and `r` carries
/// their parameters, is well formed, and holds exactly `hashes`.
pub open spec fn derives(r: Sketch, a: Sketch, b: Sketch, hashes: Set<u64>) -> bool {
    &&& a.compatible_with(&b)
    &&& r.wf()
    &&& r.ksize == a.ksize
    &&& r.mode == a.mode
    &&& r.hashes() == hashes
}

/// `r` is the intersection of `a` and `b`.
pub open spec fn is_intersection(r: Sketch, a: Sketch, b: Sketch) -> bool {
    derives(r, a, b, a.hashes().intersect(b.hashes()))
}

/// `r` is `a` with the hashes of `b` taken out.
pub open spec fn is_difference(r: Sketch, a: Sketch, b: Sketch) -> bool {
    derives(r, a, b, a.hashes().difference(b.hashes()))
}

/// `r` is the union of `a` and `b`, cut down again by the mode's rule.
pub open spec fn is_union(r: Sketch, a: Sketch, b: Sketch) -> bool {
    derives(r, a, b, retained(a.mode, a.hashes().union(b.hashes())))
}

/// The outcome of a binary operation: a result exactly when the operands are
/// compatible, `IncompatibleSketch` otherwise.
pub open spec fn algebra_outcome(
    res: Result<Sketch, SketchError>,
    a: Sketch,
    b: Sketch,
    ok: spec_fn(Sketch) -> bool,
) -> bool {
    match res {
        Ok(r) => a.compatible_with(&b) && ok(r),
        Err(e) => !a.compatible_with(&b) && e == SketchError::IncompatibleSketch,
    }
}

impl Sketch {
    /// Whether the two sketches share n-gram size and sampling mode.
    pub fn is_compatible(&self, other: &Sketch) -> (r: bool)
        ensures
            r == self.compatible_with(other),
    {
        self.ksize == other.ksize && self.mode == other.mode
    }

    /// A copy of the sketch.
    pub fn duplicate(&self) -> (r: Sketch)
        ensures
            r.ksize == self.ksize,
            r.mode == self.mode,
            r.mins@ == self.mins@,
    {
        let mins = self.mins.clone();
        proof {
            assert(mins@ =~= self.mins@);
        }
        Sketch { ksize: self.ksize, mode: self.mode, mins }
    }

    /// Removes every hash.
    pub fn clear(&mut self)
        ensures
            final(self).wf(),
            final(self).ksize == old(self).ksize,
            final(self).mode == old(self).mode,
            final(self).mins@ == Seq::<u64>::empty(),
    {
        self.mins = Vec::new();
    }

    /// The hashes both sketches hold.
    pub fn intersection(&self, other: &Sketch) -> (res: Result<Sketch, SketchError>)
        requires
            self.wf(),
            other.wf(),
        ensures
            algebra_outcome(res, *self, *other, |r: Sketch| is_intersection(r, *self, *other)),
    {
        if !self.is_compatible(other) {
            return Err(SketchError::IncompatibleSketch);
        }
        let mins = filter_by(&self.mins, &other.mins, true);
        let r = Sketch { ksize: self.ksize, mode: self.mode, mins };
        proof {
            self.lemma_subset_wf(r);
            assert(r.hashes() =~= self.hashes().intersect(other.hashes()));
        }
        Ok(r)
    }

    /// The hashes of `self` that `other` does not hold.
    pub fn subtract(&self, other: &Sketch) -> (res: Result<Sketch, SketchError>)
        requires
            self.wf(),
            other.wf(),
        ensures
            algebra_outcome(res, *self, *other, |r: Sketch| is_difference(r, *self, *other)),
    {
        if !self.is_compatible(other) {
            return Err(SketchError::IncompatibleSketch);
        }
        let mins = filter_by(&self.mins, &other.mins, false);
        let r = Sketch { ksize: self.ksize, mode: self.mode, mins };
        proof {
            self.lemma_subset_wf(r);
            assert(r.hashes() =~= self.hashes().difference(other.hashes()));
        }
        Ok(r)
    }

    /// A sketch with the parameters of `self` whose sorted hashes all occur in
    /// `self` and which is no longer than it is well formed.
    proof fn lemma_subset_wf(&self, r: Sketch)
        requires
            self.wf(),
            strictly_sorted(r.mins@),
            r.mins@.len() <= self.mins@.len(),
            r.mode == self.mode,
            forall|x: u64| r.mins@.contains(x) ==> self.mins@.contains(x),
        ensures
            r.wf(),
    {
        if let ScaleMode::Scaled { max_hash } = self.mode {
            assert forall|i: int| 0 <= i < r.mins@.len() implies r.mins@[i] <= max_hash by {
                assert(r.mins@.contains(r.mins@[i]));
                let k = choose|k: int| 0 <= k < self.mins@.len() && self.mins@[k] == r.mins@[i];
            }
        }
    }
}

/// A member `y` of `s` outside `smallest(s, n)` has a member of `s` at or below
/// it, also outside, all of whose smaller members of `s` are inside.
pub proof fn lemma_first_outside(s: Set<u64>, n: nat, y: u64) -> (m: u64)
    requires
        s.finite(),
        s.contains(y),
        !smallest(s, n).contains(y),
    ensures
        s.contains(m),
        !smallest(s, n).contains(m),
        m <= y,
        below(s, m).subset_of(smallest(s, n)),
    decreases y,
{
    if below(s, y).subset_of(smallest(s, n)) {
        y
    } else {
        let z = choose|z: u64| below(s, y).contains(z) && !smallest(s, n).contains(z);
        lemma_first_outside(s, n, z)
    }
}

/// Keeping the `n` smallest of what has been seen, one hash at a time, leaves
/// the `n` smallest of everything seen: adding `h` to `smallest(s, n)` and
/// keeping the `n` smallest gives the same set as adding `h` to `s` first.
pub proof fn lemma_smallest_insert(s: Set<u64>, n: nat, h: u64)
    requires
        s.finite(),
    ensures
        smallest(smallest(s, n).insert(h), n) == smallest(s.insert(h), n),
{
    let b = smallest(s, n);
    let u = s.insert(h);
    let v = b.insert(h);
    assert forall|x: u64| smallest(v, n).contains(x) <==> smallest(u, n).contains(x) by {
        u.lemma_len_filter(|y: u64| y < x);
        s.lemma_len_filter(|y: u64| y < x);
        if smallest(u, n).contains(x) {
            assert(below(v, x).subset_of(below(u, x)));
            vstd::set_lib::lemma_len_subset(below(v, x), below(u, x));
            if x != h {
                assert(below(s, x).subset_of(below(u, x)));
                vstd::set_lib::lemma_len_subset(below(s, x), below(u, x));
            }
        }
        if smallest(v, n).contains(x) {
            assert forall|y: u64| below(u, x).contains(y) implies below(v, x).contains(y) by {
                if y != h && !b.contains(y) {
                    let m = lemma_first_outside(s, n, y);
                    s.lemma_len_filter(|z: u64| z < m);
                    assert(below(s, m).subset_of(below(v, x)));
                    v.lemma_len_filter(|z: u64| z < x);
                    vstd::set_lib::lemma_len_subset(below(s, m), below(v, x));
                }
            }
            assert(below(u, x) =~= below(v, x));
        }
    }
    assert(smallest(v, n) =~= smallest(u, n));
}

/// Sampling again what a sketch already kept, with one hash more, keeps what
/// sampling everything seen with that hash would.
pub proof fn lemma_retained_insert(mode: ScaleMode, s: Set<u64>, h: u64)
    requires
        s.finite(),
    ensures
        retained(mode, retained(mode, s).insert(h)) == retained(mode, s.insert(h)),
{
    match mode {
        ScaleMode::Scaled { max_hash } => {
            assert(retained(mode, retained(mode, s).insert(h)) =~= retained(mode, s.insert(h)));
        },
        ScaleMode::FixedCount { num } => {
            lemma_smallest_insert(s, num as nat, h);
        },
    }
}

impl Sketch {
    /// A well-formed sketch is left as it is by its own sampling rule.
    pub proof fn lemma_wf_retained(&self)
        requires
            self.wf(),
        ensures
            retained(self.mode, self.hashes()) == self.hashes(),
            self.hashes().finite(),
    {
        vstd::seq_lib::seq_to_set_is_finite(self.mins@);
        match self.mode {
            ScaleMode::Scaled { max_hash } => {
                assert forall|x: u64| self.hashes().contains(x) implies x <= max_hash by {
                    let k = choose|k: int| 0 <= k < self.mins@.len() && self.mins@[k] == x;
                }
                assert(retained(self.mode, self.hashes()) =~= self.hashes());
            },
            ScaleMode::FixedCount { num } => {
                lemma_prefix_is_smallest(self.mins@, num as nat);
                assert(self.mins@.take(self.mins@.len() as int) =~= self.mins@);
            },
        }
    }

    /// Offers each of `hashes` in turn; the outcome does not depend on their order.
    pub fn add_many(&mut self, hashes: &Vec<u64>)
        requires
            old(self).wf(),
        ensures
            final(self).wf(),
            final(self).ksize == old(self).ksize,
            final(self).mode == old(self).mode,
            final(self).hashes() == retained(old(self).mode, old(self).hashes().union(hashes@.to_set())),
    {
        let ghost start = self.hashes();
        proof {
            self.lemma_wf_retained();
            assert(start.union(hashes@.take(0).to_set()) =~= start);
        }
        let mut i: usize = 0;
        while i < hashes.len()
            invariant
                i <= hashes.len(),
                self.wf(),
                self.ksize == old(self).ksize,
                self.mode == old(self).mode,
                start == old(self).hashes(),
                start.finite(),
                self.hashes() == retained(self.mode, start.union(hashes@.take(i as int).to_set())),
            decreases hashes.len() - i,
        {
            let h = hashes[i];
            let ghost seen = start.union(hashes@.take(i as int).to_set());
            self.add_hash(h);
            proof {
                vstd::seq_lib::seq_to_set_is_finite(hashes@.take(i as int));
                lemma_retained_insert(self.mode, seen, h);
                assert(hashes@.take(i + 1) =~= hashes@.take(i as int).push(h));
                lemma_take_next_to_set(hashes@, i as int);
                assert(seen.insert(h) =~= start.union(hashes@.take(i + 1).to_set()));
            }
            i = i + 1;
        }
        proof {
            assert(hashes@.take(hashes@.len() as int) =~= hashes@);
        }
    }

    /// Takes out each of `hashes` that the sketch holds; absent ones are ignored.
    pub fn remove_many(&mut self, hashes: &Vec<u64>)
        requires
            old(self).wf(),
        ensures
            final(self).wf(),
            final(self).ksize == old(self).ksize,
            final(self).mode == old(self).mode,
            final(self).hashes() == old(self).hashes().difference(hashes@.to_set()),
    {
        let ghost before = *self;
        let mut i: usize = 0;
        while i < hashes.len()
            invariant
                i <= hashes.len(),
                before.wf(),
                self.wf(),
                self.ksize == before.ksize,
                self.mode == before.mode,
                self.mins@.len() <= before.mins@.len(),
                forall|x: u64| self.mins@.contains(x) ==> before.mins@.contains(x),
                self.hashes() == before.hashes().difference(hashes@.take(i as int).to_set()),
            decreases hashes.len() - i,
        {
            let h = hashes[i];
            let ghost cur = self.mins@;
            let (found, pos) = search(&self.mins, h);
            if found {
                self.mins.remove(pos);
                proof {
                    cur.remove_ensures(pos as int);
                    assert forall|a: int, b: int| 0 <= a < b < self.mins@.len() implies self.mins@[a] < self.mins@[b] by {
                        if b < pos as int {
                        } else if a < pos as int {
                            assert(self.mins@[b] == cur[b + 1]);
                        } else {
                            assert(self.mins@[a] == cur[a + 1] && self.mins@[b] == cur[b + 1]);
                        }
                    }
                }
            }
            proof {
                assert forall|x: u64| self.mins@.contains(x) <==> (cur.contains(x) && x != h) by {
                    if found {
                        if self.mins@.contains(x) {
                            let k = choose|k: int| 0 <= k < self.mins@.len() && self.mins@[k] == x;
                            if k < pos as int {
                                assert(cur[k] == x);
                                assert(cur[k] < cur[pos as int]);
                            } else {
                                assert(cur[k + 1] == x);
                                assert(cur[pos as int] < cur[k + 1]);
                            }
                        }
                        if cur.contains(x) && x != h {
                            let k = choose|k: int| 0 <= k < cur.len() && cur[k] == x;
                            if k < pos as int {
                                assert(self.mins@[k] == x);
                            } else {
                                assert(k != pos as int);
                                assert(self.mins@[k - 1] == x);
                            }
                        }
                    }
                }
                lemma_take_next_to_set(hashes@, i as int);
                assert forall|x: u64| self.hashes().contains(x)
                    <==> before.hashes().difference(hashes@.take(i + 1).to_set()).contains(x) by {
                    assert(cur.to_set().contains(x) <==> cur.contains(x));
                    assert(self.hashes().contains(x) <==> self.mins@.contains(x));
                }
                assert(self.hashes() =~= before.hashes().difference(hashes@.take(i + 1).to_set()));
                before.lemma_subset_wf(*self);
            }
            i = i + 1;
        }
        proof {
            assert(hashes@.take(hashes@.len() as int) =~= hashes@);
        }
    }
}

impl Sketch {
    /// The hashes either sketch holds, cut down again by the mode's rule.
    pub fn union(&self, other: &Sketch) -> (res: Result<Sketch, SketchError>)
        requires
            self.wf(),
            other.wf(),
        ensures
            algebra_outcome(res, *self, *other, |r: Sketch| is_union(r, *self, *other)),
    {
        if !self.is_compatible(other) {
            return Err(SketchError::IncompatibleSketch);
        }
        let mut mins = self.mins.clone();
        proof {
            assert(mins@ =~= self.mins@);
            assert(self.hashes().union(other.mins@.take(0).to_set()) =~= self.hashes());
        }
        let mut i: usize = 0;
        while i < other.mins.len()
            invariant
                i <= other.mins.len(),
                self.wf(),
                other.wf(),
                self.compatible_with(other),
                strictly_sorted(mins@),
                mins@.to_set() == self.hashes().union(other.mins@.take(i as int).to_set()),
            decreases other.mins.len() - i,
        {
            let h = other.mins[i];
            insert_sorted(&mut mins, h);
            proof {
                let t1 = other.mins@.take(i + 1);
                lemma_take_next_to_set(other.mins@, i as int);
                assert(mins@.to_set() =~= self.hashes().union(t1.to_set()));
            }
            i = i + 1;
        }
        proof {
            assert(other.mins@.take(other.mins@.len() as int) =~= other.mins@);
        }
        match self.mode {
            ScaleMode::Scaled { max_hash } => {
                let r = Sketch { ksize: self.ksize, mode: self.mode, mins };
                proof {
                    self.lemma_wf_retained();
                    other.lemma_wf_retained();
                    assert forall|k: int| 0 <= k < r.mins@.len() implies r.mins@[k] <= max_hash by {
                        assert(r.hashes().contains(r.mins@[k]));
                    }
                    assert(retained(self.mode, self.hashes().union(other.hashes())) =~= r.hashes());
                }
                Ok(r)
            },
            ScaleMode::FixedCount { num } => {
                let ghost merged = mins@;
                mins.truncate(num);
                let r = Sketch { ksize: self.ksize, mode: self.mode, mins };
                proof {
                    lemma_prefix_is_smallest(merged, num as nat);
                    assert(r.mins@ =~= merged.take(
                        if (num as nat) < merged.len() { num as int } else { merged.len() as int },
                    ));
                }
                Ok(r)
            },
        }
    }
}

} // verus!
