//! The incidence structure of an exact cover instance over integer handles,
//! and the mathematical meaning of a solution.
use vstd::prelude::*;

verus! {

/// An exact cover instance whose items and options are numbered from zero.
pub struct Incidence {
    /// `covers[o]`: the items that option `o` covers, in a fixed order.
    pub covers: Vec<Vec<usize>>,
    /// `covered_by[i]`: the options that cover item `i`, in a fixed order.
    pub covered_by: Vec<Vec<usize>>,
    /// `mandatory[i]`: whether item `i` must be covered (otherwise it may be).
    pub mandatory: Vec<bool>,
    /// Options that every solution contains.
    pub required: Vec<usize>,
}

impl Incidence {
    pub open spec fn n_items(&self) -> nat {
        self.covered_by@.len()
    }

    pub open spec fn n_opts(&self) -> nat {
        self.covers@.len()
    }

    pub open spec fn items_of(&self, o: usize) -> Seq<usize> {
        self.covers@[o as int]@
    }

    pub open spec fn options_of(&self, i: usize) -> Seq<usize> {
        self.covered_by@[i as int]@
    }

    pub open spec fn is_mandatory(&self, i: usize) -> bool {
        self.mandatory@[i as int]
    }

    pub open spec fn covers_item(&self, o: usize, i: usize) -> bool {
        self.items_of(o).contains(i)
    }

    /// `covers` and `covered_by` are mutual inverses over in-range handles,
    /// no list repeats an entry, and the required options are distinct options.
    pub open spec fn wf(&self) -> bool {
        &&& self.mandatory@.len() == self.n_items()
        &&& forall|o: usize| #![trigger self.items_of(o)]
            o < self.n_opts() ==> {
                &&& self.items_of(o).no_duplicates()
                &&& forall|k: int| 0 <= k < self.items_of(o).len() ==> self.items_of(o)[k] < self.n_items()
            }
        &&& forall|i: usize| #![trigger self.options_of(i)]
            i < self.n_items() ==> {
                &&& self.options_of(i).no_duplicates()
                &&& forall|k: int| 0 <= k < self.options_of(i).len() ==> self.options_of(i)[k] < self.n_opts()
            }
        &&& forall|o: usize, i: usize|
            o < self.n_opts() && i < self.n_items() ==> (#[trigger] self.covers_item(o, i)
                <==> self.options_of(i).contains(o))
        &&& self.required@.no_duplicates()
        &&& forall|k: int| 0 <= k < self.required@.len() ==> self.required@[k] < self.n_opts()
    }

    /// A set of options is a solution when it contains every required option,
    /// no item is covered by two of its options (so each optional item is
    /// covered at most once), every mandatory item is covered (so exactly
    /// once), and each option that is not required covers a mandatory item.
    pub open spec fn is_solution(&self, t: Set<usize>) -> bool {
        &&& forall|o: usize| t.contains(o) ==> o < self.n_opts()
        &&& forall|o1: usize, o2: usize, i: usize|
            t.contains(o1) && t.contains(o2) && #[trigger] self.covers_item(o1, i)
                && #[trigger] self.covers_item(o2, i) ==> o1 == o2
        &&& forall|i: usize|
            i < self.n_items() && #[trigger] self.is_mandatory(i) ==> exists|o: usize|
                t.contains(o) && #[trigger] self.covers_item(o, i)
        &&& forall|k: int| 0 <= k < self.required@.len() ==> t.contains(#[trigger] self.required@[k])
        &&& forall|o: usize|
            #[trigger] t.contains(o) ==> self.required@.contains(o) || self.covers_mandatory(o)
    }

    pub open spec fn covers_mandatory(&self, o: usize) -> bool {
        exists|i: usize| i < self.n_items() && self.is_mandatory(i) && #[trigger] self.covers_item(o, i)
    }

    /// All solutions of the instance.
    pub open spec fn solutions(&self) -> Set<Set<usize>> {
        Set::new(|t: Set<usize>| self.is_solution(t))
    }

    /// The solutions that contain every option of `sel`.
    pub open spec fn extensions(&self, sel: Seq<usize>) -> Set<Set<usize>> {
        Set::new(|t: Set<usize>| self.is_solution(t) && forall|k: int| 0 <= k < sel.len() ==> t.contains(#[trigger] sel[k]))
    }

    /// The items covered by the options of `sel`.
    pub open spec fn covered(&self, sel: Seq<usize>) -> Set<usize> {
        Set::new(|j: usize| exists|k: int| 0 <= k < sel.len() && #[trigger] self.covers_item(sel[k], j))
    }

    /// Option `o` covers an item of `c`.
    pub open spec fn blocked(&self, c: Set<usize>, o: usize) -> bool {
        exists|j: usize| c.contains(j) && #[trigger] self.covers_item(o, j)
    }

    /// A partial selection: distinct, in-range options, no two sharing an
    /// item, each required or covering a mandatory item.
    pub open spec fn valid_selection(&self, sel: Seq<usize>) -> bool {
        &&& forall|k: int| 0 <= k < sel.len() ==> #[trigger] sel[k] < self.n_opts()
        &&& sel.no_duplicates()
        &&& forall|k1: int, k2: int, j: usize|
            0 <= k1 < sel.len() && 0 <= k2 < sel.len() && #[trigger] self.covers_item(sel[k1], j)
                && #[trigger] self.covers_item(sel[k2], j) ==> k1 == k2
        &&& forall|k: int|
            0 <= k < sel.len() ==> self.required@.contains(#[trigger] sel[k])
                || self.covers_mandatory(sel[k])
    }

    /// Every required option is in `sel`.
    pub open spec fn holds_required(&self, sel: Seq<usize>) -> bool {
        forall|k: int| 0 <= k < self.required@.len() ==> sel.contains(#[trigger] self.required@[k])
    }

    /// Number of mandatory items below `n` that are not in `c`.
    pub open spec fn open_mandatory(&self, c: Set<usize>, n: nat) -> nat
        decreases n,
    {
        if n == 0 {
            0
        } else {
            self.open_mandatory(c, (n - 1) as nat) + if self.is_mandatory((n - 1) as usize)
                && !c.contains((n - 1) as usize) {
                1nat
            } else {
                0nat
            }
        }
    }
}

/// All sets of handles below `n`.
pub open spec fn subsets_below(n: nat) -> Set<Set<usize>> {
    Set::new(|t: Set<usize>| forall|o: usize| t.contains(o) ==> o < n)
}

/// Finitely many sets of handles lie below `n`.
pub proof fn lemma_subsets_finite(n: nat)
    requires
        n <= usize::MAX,
    ensures
        subsets_below(n).finite(),
    decreases n,
{
    if n == 0 {
        assert(subsets_below(0) =~= Set::<Set<usize>>::empty().insert(Set::<usize>::empty())) by {
            assert forall|t: Set<usize>| subsets_below(0).contains(t) implies t =~= Set::<usize>::empty() by {
            }
        }
    } else {
        let m = (n - 1) as nat;
        let top = m as usize;
        lemma_subsets_finite(m);
        let prev = subsets_below(m);
        let add_top = |t: Set<usize>| t.insert(top);
        prev.lemma_map_finite(add_top);
        assert(subsets_below(n) =~= prev.union(prev.map(add_top))) by {
            assert forall|t: Set<usize>| subsets_below(n).contains(t) implies #[trigger] prev.union(
                prev.map(add_top),
            ).contains(t) by {
                if t.contains(top) {
                    let t0 = t.remove(top);
                    assert(prev.contains(t0));
                    assert(add_top(t0) =~= t);
                } else {
                    assert(prev.contains(t));
                }
            }
        }
    }
}

impl Incidence {
    pub proof fn lemma_extensions_finite(&self, sel: Seq<usize>)
        requires
            self.n_opts() <= usize::MAX,
        ensures
            self.extensions(sel).finite(),
    {
        lemma_subsets_finite(self.n_opts());
        assert(self.extensions(sel).subset_of(subsets_below(self.n_opts())));
        vstd::set_lib::lemma_set_subset_finite(subsets_below(self.n_opts()), self.extensions(sel));
    }

    pub proof fn lemma_covered_push(&self, sel: Seq<usize>, o: usize)
        ensures
            forall|j: usize|
                #[trigger] self.covered(sel.push(o)).contains(j) <==> (self.covered(sel).contains(j)
                    || self.covers_item(o, j)),
    {
        let s2 = sel.push(o);
        assert forall|j: usize| #[trigger] self.covered(s2).contains(j) <==> (self.covered(sel).contains(j)
            || self.covers_item(o, j)) by {
            if self.covered(sel).contains(j) {
                let k = choose|k: int| 0 <= k < sel.len() && #[trigger] self.covers_item(sel[k], j);
                assert(s2[k] == sel[k]);
            }
            if self.covers_item(o, j) {
                assert(s2[sel.len() as int] == o);
            }
            if self.covered(s2).contains(j) {
                let k = choose|k: int| 0 <= k < s2.len() && #[trigger] self.covers_item(s2[k], j);
                if k < sel.len() {
                    assert(s2[k] == sel[k]);
                }
            }
        }
    }

    /// Adding an option that is not blocked by the selection, and that covers
    /// a mandatory item or is required, keeps the selection valid.
    pub proof fn lemma_valid_push(&self, sel: Seq<usize>, o: usize)
        requires
            self.wf(),
            self.valid_selection(sel),
            o < self.n_opts(),
            !sel.contains(o),
            !self.blocked(self.covered(sel), o),
            self.required@.contains(o) || self.covers_mandatory(o),
        ensures
            self.valid_selection(sel.push(o)),
    {
        let s2 = sel.push(o);
        let n = sel.len() as int;
        assert forall|k: int| 0 <= k < s2.len() implies #[trigger] s2[k] < self.n_opts() by {
            if k < n {
                assert(s2[k] == sel[k]);
            }
        }
        assert forall|k1: int, k2: int, j: usize|
            0 <= k1 < s2.len() && 0 <= k2 < s2.len() && #[trigger] self.covers_item(s2[k1], j)
                && #[trigger] self.covers_item(s2[k2], j) implies k1 == k2 by {
            if k1 < n && k2 < n {
                assert(s2[k1] == sel[k1] && s2[k2] == sel[k2]);
            } else if k1 < n {
                assert(s2[k1] == sel[k1]);
                assert(self.covered(sel).contains(j));
            } else if k2 < n {
                assert(s2[k2] == sel[k2]);
                assert(self.covered(sel).contains(j));
            }
        }
        assert forall|k: int| 0 <= k < s2.len() implies self.required@.contains(#[trigger] s2[k])
            || self.covers_mandatory(s2[k]) by {
            if k < n {
                assert(s2[k] == sel[k]);
            }
        }
    }

    /// When every mandatory item is covered, the only solution that extends a
    /// valid selection holding the required options is the selection itself.
    pub proof fn lemma_leaf(&self, sel: Seq<usize>)
        requires
            self.wf(),
            self.valid_selection(sel),
            self.holds_required(sel),
            forall|i: usize|
                i < self.n_items() && self.is_mandatory(i) ==> #[trigger] self.covered(sel).contains(i),
        ensures
            self.extensions(sel) =~= Set::<Set<usize>>::empty().insert(sel.to_set()),
    {
        let st = sel.to_set();
        assert forall|o: usize| st.contains(o) implies o < self.n_opts() by {
            let k = choose|k: int| 0 <= k < sel.len() && sel[k] == o;
            assert(sel[k] < self.n_opts());
        }
        assert forall|o1: usize, o2: usize, i: usize|
            st.contains(o1) && st.contains(o2) && #[trigger] self.covers_item(o1, i)
                && #[trigger] self.covers_item(o2, i) implies o1 == o2 by {
            let k1 = choose|k: int| 0 <= k < sel.len() && sel[k] == o1;
            let k2 = choose|k: int| 0 <= k < sel.len() && sel[k] == o2;
            assert(self.covers_item(sel[k1], i) && self.covers_item(sel[k2], i));
        }
        assert forall|i: usize| i < self.n_items() && #[trigger] self.is_mandatory(i) implies exists|o: usize|
            st.contains(o) && #[trigger] self.covers_item(o, i) by {
            assert(self.covered(sel).contains(i));
            let k = choose|k: int| 0 <= k < sel.len() && #[trigger] self.covers_item(sel[k], i);
            assert(st.contains(sel[k]));
        }
        assert forall|k: int| 0 <= k < self.required@.len() implies st.contains(
            #[trigger] self.required@[k],
        ) by {
            assert(sel.contains(self.required@[k]));
        }
        assert forall|o: usize| #[trigger] st.contains(o) implies self.required@.contains(o)
            || self.covers_mandatory(o) by {
            let k = choose|k: int| 0 <= k < sel.len() && sel[k] == o;
            assert(self.required@.contains(sel[k]) || self.covers_mandatory(sel[k]));
        }
        assert(self.is_solution(st));
        assert forall|k: int| 0 <= k < sel.len() implies st.contains(#[trigger] sel[k]) by {
            assert(sel.contains(sel[k]));
        }
        assert(self.extensions(sel).contains(st));
        assert forall|t: Set<usize>| #[trigger] self.extensions(sel).contains(t) implies t == st by {
            assert forall|o: usize| t.contains(o) implies st.contains(o) by {
                if self.required@.contains(o) {
                    let k = choose|k: int| 0 <= k < self.required@.len() && self.required@[k] == o;
                    assert(sel.contains(self.required@[k]));
                } else {
                    assert(self.covers_mandatory(o));
                    let i = choose|i: usize|
                        i < self.n_items() && self.is_mandatory(i) && #[trigger] self.covers_item(o, i);
                    assert(self.covered(sel).contains(i));
                    let k = choose|k: int| 0 <= k < sel.len() && #[trigger] self.covers_item(sel[k], i);
                    assert(t.contains(sel[k]));
                    assert(sel.contains(sel[k]));
                }
            }
            assert forall|o: usize| st.contains(o) implies t.contains(o) by {
                let k = choose|k: int| 0 <= k < sel.len() && sel[k] == o;
                assert(t.contains(sel[k]));
            }
            assert(t =~= st);
        }
    }

    /// Branching on an uncovered mandatory item `i`: every solution that
    /// extends `sel` extends `sel` plus exactly one of the options of `snap`,
    /// the options of `i` that the selection leaves available.
    pub proof fn lemma_branch(&self, sel: Seq<usize>, i: usize, snap: Seq<usize>)
        requires
            self.wf(),
            self.valid_selection(sel),
            i < self.n_items(),
            self.is_mandatory(i),
            !self.covered(sel).contains(i),
            snap.no_duplicates(),
            forall|o: usize|
                #[trigger] snap.contains(o) <==> (self.options_of(i).contains(o) && !self.blocked(
                    self.covered(sel),
                    o,
                )),
        ensures
            forall|t: Set<usize>|
                #[trigger] self.extensions(sel).contains(t) ==> exists|k: int|
                    0 <= k < snap.len() && #[trigger] self.extensions(sel.push(snap[k])).contains(t),
            forall|k: int, t: Set<usize>|
                0 <= k < snap.len() && #[trigger] self.extensions(sel.push(snap[k])).contains(t)
                    ==> self.extensions(sel).contains(t),
            forall|k1: int, k2: int, t: Set<usize>|
                0 <= k1 < snap.len() && 0 <= k2 < snap.len() && k1 != k2 && #[trigger] self.extensions(
                    sel.push(snap[k1]),
                ).contains(t) ==> !#[trigger] self.extensions(sel.push(snap[k2])).contains(t),
    {
        assert forall|t: Set<usize>| #[trigger] self.extensions(sel).contains(t) implies exists|k: int|
            0 <= k < snap.len() && #[trigger] self.extensions(sel.push(snap[k])).contains(t) by {
            let o = choose|o: usize| t.contains(o) && #[trigger] self.covers_item(o, i);
            assert(o < self.n_opts());
            assert(self.options_of(i).contains(o));
            if self.blocked(self.covered(sel), o) {
                let j = choose|j: usize| self.covered(sel).contains(j) && #[trigger] self.covers_item(o, j);
                let k = choose|k: int| 0 <= k < sel.len() && #[trigger] self.covers_item(sel[k], j);
                assert(t.contains(sel[k]));
                assert(o == sel[k]);
                assert(self.covered(sel).contains(i));
            }
            assert(snap.contains(o));
            let k = choose|k: int| 0 <= k < snap.len() && snap[k] == o;
            let s2 = sel.push(o);
            assert forall|k2: int| 0 <= k2 < s2.len() implies t.contains(#[trigger] s2[k2]) by {
                if k2 < sel.len() {
                    assert(s2[k2] == sel[k2]);
                }
            }
            assert(self.extensions(sel.push(snap[k])).contains(t));
        }
        assert forall|k: int, t: Set<usize>|
            0 <= k < snap.len() && #[trigger] self.extensions(sel.push(snap[k])).contains(t)
                implies self.extensions(sel).contains(t) by {
            let s2 = sel.push(snap[k]);
            assert forall|k2: int| 0 <= k2 < sel.len() implies t.contains(#[trigger] sel[k2]) by {
                assert(s2[k2] == sel[k2]);
            }
        }
        assert forall|k1: int, k2: int, t: Set<usize>|
            0 <= k1 < snap.len() && 0 <= k2 < snap.len() && k1 != k2 && #[trigger] self.extensions(
                sel.push(snap[k1]),
            ).contains(t) implies !#[trigger] self.extensions(sel.push(snap[k2])).contains(t) by {
            let a = snap[k1];
            let b = snap[k2];
            assert(snap.contains(a) && snap.contains(b));
            if self.extensions(sel.push(b)).contains(t) {
                assert(sel.push(a)[sel.len() as int] == a);
                assert(sel.push(b)[sel.len() as int] == b);
                assert(t.contains(a) && t.contains(b));
                assert(self.covers_item(a, i) && self.covers_item(b, i));
            }
        }
    }
}

impl Incidence {
    /// Builds the incidence from `covered_by` (per item, distinct options
    /// below `n_opts`), deriving `covers` as its inverse with the items of
    /// each option in increasing order.
    pub fn from_covered_by(
        covered_by: Vec<Vec<usize>>,
        mandatory: Vec<bool>,
        required: Vec<usize>,
        n_opts: usize,
    ) -> (r: Incidence)
        requires
            mandatory@.len() == covered_by@.len(),
            forall|i: int|
                0 <= i < covered_by@.len() ==> (#[trigger] covered_by@[i])@.no_duplicates(),
            forall|i: int, k: int|
                0 <= i < covered_by@.len() && 0 <= k < covered_by@[i]@.len() ==> #[trigger] covered_by@[i]@[k]
                    < n_opts,
            required@.no_duplicates(),
            forall|k: int| 0 <= k < required@.len() ==> required@[k] < n_opts,
        ensures
            r.wf(),
            r.covered_by == covered_by,
            r.mandatory == mandatory,
            r.required == required,
            r.n_opts() == n_opts,
    {
        let n_items = covered_by.len();
        let mut covers: Vec<Vec<usize>> = Vec::new();
        let mut o: usize = 0;
        while o < n_opts
            invariant
                o <= n_opts,
                covers@.len() == o,
                forall|k: int| 0 <= k < o ==> (#[trigger] covers@[k])@.len() == 0,
            decreases n_opts - o,
        {
            covers.push(Vec::new());
            o = o + 1;
        }
        let mut i: usize = 0;
        while i < n_items
            invariant
                n_items == covered_by@.len(),
                i <= n_items,
                covers@.len() == n_opts,
                forall|i2: int|
                    0 <= i2 < covered_by@.len() ==> (#[trigger] covered_by@[i2])@.no_duplicates(),
                forall|i2: int, k: int|
                    0 <= i2 < covered_by@.len() && 0 <= k < covered_by@[i2]@.len() ==> #[trigger] covered_by@[i2]@[k]
                        < n_opts,
                forall|o2: int| 0 <= o2 < n_opts ==> (#[trigger] covers@[o2])@.no_duplicates(),
                forall|o2: int, k: int|
                    0 <= o2 < n_opts && 0 <= k < covers@[o2]@.len() ==> #[trigger] covers@[o2]@[k] < i,
                forall|o2: usize, i2: usize|
                    o2 < n_opts ==> (#[trigger] covers@[o2 as int]@.contains(i2) <==> (i2 < i
                        && covered_by@[i2 as int]@.contains(o2))),
            decreases n_items - i,
        {
            let deg = covered_by[i].len();
            let ghost opts = covered_by@[i as int]@;
            let mut m: usize = 0;
            while m < deg
                invariant
                    n_items == covered_by@.len(),
                    i < n_items,
                    opts == covered_by@[i as int]@,
                    opts.no_duplicates(),
                    deg == opts.len(),
                    m <= deg,
                    covers@.len() == n_opts,
                    forall|k: int| 0 <= k < opts.len() ==> #[trigger] opts[k] < n_opts,
                    forall|o2: int| 0 <= o2 < n_opts ==> (#[trigger] covers@[o2])@.no_duplicates(),
                    forall|o2: int, k: int|
                        0 <= o2 < n_opts && 0 <= k < covers@[o2]@.len() ==> #[trigger] covers@[o2]@[k] <= i,
                    forall|o2: usize, i2: usize|
                        o2 < n_opts ==> (#[trigger] covers@[o2 as int]@.contains(i2) <==> ((i2 < i
                            && covered_by@[i2 as int]@.contains(o2)) || (i2 == i && opts.take(
                            m as int,
                        ).contains(o2)))),
                decreases deg - m,
            {
                let o = covered_by[i][m];
                let ghost old_covers = covers@;
                proof {
                    assert(!opts.take(m as int).contains(o)) by {
                        if opts.take(m as int).contains(o) {
                            let k = choose|k: int| 0 <= k < m && opts.take(m as int)[k] == o;
                            assert(opts[k] == opts[m as int]);
                        }
                    }
                    assert(!old_covers[o as int]@.contains(i)) by {
                        if old_covers[o as int]@.contains(i) {
                            assert(i < i || opts.take(m as int).contains(o));
                        }
                    }
                    let t0 = opts.take(m as int);
                    let t1 = opts.take(m as int + 1);
                    assert(t1 =~= t0.push(o));
                    assert(t1[m as int] == o);
                    assert forall|y: usize| #[trigger] t1.contains(y) <==> (t0.contains(y) || y == o) by {
                        if t1.contains(y) && y != o {
                            let k = choose|k: int| 0 <= k < t1.len() && t1[k] == y;
                            assert(t0[k] == y);
                        }
                        if t0.contains(y) {
                            let k = choose|k: int| 0 <= k < t0.len() && t0[k] == y;
                            assert(t1[k] == y);
                        }
                    }
                }
                covers[o].push(i);
                proof {
                    let nv = covers@[o as int]@;
                    let ov = old_covers[o as int]@;
                    assert(nv =~= ov.push(i));
                    assert forall|y: usize| #[trigger] nv.contains(y) <==> (ov.contains(y) || y == i) by {
                        if nv.contains(y) && y != i {
                            let k = choose|k: int| 0 <= k < nv.len() && nv[k] == y;
                            assert(ov[k] == y);
                        }
                        if y == i {
                            assert(nv[ov.len() as int] == i);
                        }
                        if ov.contains(y) {
                            let k = choose|k: int| 0 <= k < ov.len() && ov[k] == y;
                            assert(nv[k] == y);
                        }
                    }
                    assert forall|a: int, b: int| 0 <= a < b < nv.len() implies nv[a] != nv[b] by {
                        if b == ov.len() {
                            assert(ov.contains(nv[a]));
                        } else {
                            assert(ov[a] == nv[a] && ov[b] == nv[b]);
                        }
                    }
                    assert forall|o2: int| 0 <= o2 < n_opts && o2 != o implies covers@[o2] == old_covers[o2] by {
                    }
                }
                m = m + 1;
            }
            proof {
                assert(opts.take(deg as int) =~= opts);
            }
            i = i + 1;
        }
        let r = Incidence { covers, covered_by, mandatory, required };
        proof {
            assert forall|o2: usize, i2: usize|
                o2 < r.n_opts() && i2 < r.n_items() implies (#[trigger] r.covers_item(o2, i2)
                <==> r.options_of(i2).contains(o2)) by {
            }
            assert forall|o2: usize| o2 < r.n_opts() implies forall|k: int|
                0 <= k < #[trigger] r.items_of(o2).len() ==> r.items_of(o2)[k] < r.n_items() by {
                assert forall|k: int| 0 <= k < r.items_of(o2).len() implies r.items_of(o2)[k] < r.n_items() by {
                    assert(r.covers@[o2 as int]@[k] < i);
                }
            }
        }
        r
    }
}

} // verus!
