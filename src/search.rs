//! The search driver: Algorithm X with the minimum-remaining-values rule,
//! run on the state of the engine.
use crate::engine::{open_count, queue_view, SearchState};
use crate::incidence::Incidence;
use crate::priority_index::{queue_entries, queue_new, queue_pop, queue_push};
use vstd::prelude::*;

verus! {

/// The solutions that extend `sel` plus one of the first `k` options of `snap`.
pub open spec fn branch_union(inst: &Incidence, sel: Seq<usize>, snap: Seq<usize>, k: nat) -> Set<
    Set<usize>,
>
    decreases k,
{
    if k == 0 {
        Set::empty()
    } else {
        branch_union(inst, sel, snap, (k - 1) as nat).union(
            inst.extensions(sel.push(snap[k - 1])),
        )
    }
}

pub open spec fn min_int(a: int, b: int) -> int {
    if a <= b {
        a
    } else {
        b
    }
}

proof fn lemma_branch_union_member(
    inst: &Incidence,
    sel: Seq<usize>,
    snap: Seq<usize>,
    k: nat,
    t: Set<usize>,
)
    requires
        branch_union(inst, sel, snap, k).contains(t),
    ensures
        exists|k2: int| 0 <= k2 < k && #[trigger] inst.extensions(sel.push(snap[k2])).contains(t),
    decreases k,
{
    if k > 0 {
        if !inst.extensions(sel.push(snap[k - 1])).contains(t) {
            lemma_branch_union_member(inst, sel, snap, (k - 1) as nat, t);
            let k2 = choose|k2: int| 0 <= k2 < k - 1 && #[trigger] inst.extensions(sel.push(snap[k2])).contains(t);
            assert(inst.extensions(sel.push(snap[k2])).contains(t));
        }
    }
}

proof fn lemma_branch_union_contains(
    inst: &Incidence,
    sel: Seq<usize>,
    snap: Seq<usize>,
    k: nat,
    k2: int,
    t: Set<usize>,
)
    requires
        0 <= k2 < k,
        inst.extensions(sel.push(snap[k2])).contains(t),
    ensures
        branch_union(inst, sel, snap, k).contains(t),
    decreases k,
{
    if k2 < k - 1 {
        lemma_branch_union_contains(inst, sel, snap, (k - 1) as nat, k2, t);
    }
}

proof fn lemma_branch_union_finite(inst: &Incidence, sel: Seq<usize>, snap: Seq<usize>, k: nat)
    requires
        inst.n_opts() <= usize::MAX,
    ensures
        branch_union(inst, sel, snap, k).finite(),
    decreases k,
{
    if k > 0 {
        lemma_branch_union_finite(inst, sel, snap, (k - 1) as nat);
        inst.lemma_extensions_finite(sel.push(snap[k - 1]));
    }
}

proof fn lemma_open_mandatory_decreases(inst: &Incidence, c: Set<usize>, c2: Set<usize>, i: usize, n: nat)
    requires
        forall|j: usize| c.contains(j) ==> c2.contains(j),
        i < n,
        inst.is_mandatory(i),
        !c.contains(i),
        c2.contains(i),
    ensures
        inst.open_mandatory(c2, n) < inst.open_mandatory(c, n),
    decreases n,
{
    lemma_open_mandatory_mono(inst, c, c2, (n - 1) as nat);
    if i < n - 1 {
        lemma_open_mandatory_decreases(inst, c, c2, i, (n - 1) as nat);
    }
}

proof fn lemma_open_mandatory_mono(inst: &Incidence, c: Set<usize>, c2: Set<usize>, n: nat)
    requires
        forall|j: usize| c.contains(j) ==> c2.contains(j),
    ensures
        inst.open_mandatory(c2, n) <= inst.open_mandatory(c, n),
    decreases n,
{
    if n > 0 {
        lemma_open_mandatory_mono(inst, c, c2, (n - 1) as nat);
    }
}

/// Searches below the selection `sel` for up to `limit` solutions. Returns
/// how many it found, which is `limit` or the number of solutions that
/// extend `sel`, whichever is smaller, and the first one found. The state
/// is left as it was.
fn search(state: &mut SearchState, inst: &Incidence, limit: u64, Ghost(sel): Ghost<Seq<usize>>) -> (r: (
    u64,
    Option<Vec<usize>>,
))
    requires
        inst.wf(),
        old(state).inv(inst, sel),
        inst.valid_selection(sel),
        inst.holds_required(sel),
    ensures
        final(state).inv(inst, sel),
        inst.extensions(sel).finite(),
        r.0 as int == min_int(limit as int, inst.extensions(sel).len() as int),
        r.1 is Some <==> r.0 > 0,
        r.1 matches Some(v) ==> inst.extensions(sel).contains(v@.to_set()) && inst.valid_selection(v@),
    decreases inst.open_mandatory(inst.covered(sel), inst.n_items()),
{
    proof {
        assert(inst.covers.len() as nat == inst.n_opts());
        inst.lemma_extensions_finite(sel);
    }
    if limit == 0 {
        return (0, None);
    }
    let ghost c = inst.covered(sel);
    let popped = queue_pop(&mut state.queue);
    match popped {
        None => {
            proof {
                assert forall|i: usize| i < inst.n_items() && inst.is_mandatory(i) implies #[trigger] c.contains(i) by {
                    if !c.contains(i) {
                        assert(queue_entries(state.queue).contains_key(i));
                    }
                }
                inst.lemma_leaf(sel);
                assert(Set::<Set<usize>>::empty().insert(sel.to_set()).len() == 1);
            }
            let v = state.selected.clone();
            proof {
                assert(v@ =~= sel);
            }
            (1, Some(v))
        },
        Some((i, _p)) => {
            proof {
                assert(queue_entries(state.queue) =~= crate::engine::queue_view(inst, state.avail@, c.insert(i)));
            }
            // The available options of `i`, copied so that the state can
            // change while they are tried.
            let ghost opts = inst.options_of(i);
            let deg = inst.covered_by[i].len();
            let mut snap: Vec<usize> = Vec::new();
            let mut m: usize = 0;
            while m < deg
                invariant
                    inst.wf(),
                    i < inst.n_items(),
                    opts == inst.options_of(i),
                    deg == opts.len(),
                    m <= deg,
                    state.hides(inst, c),
                    state.hidden@.len() == inst.n_opts(),
                    snap@.no_duplicates(),
                    forall|o: usize|
                        #[trigger] snap@.contains(o) <==> (opts.take(m as int).contains(o)
                            && !inst.blocked(c, o)),
                decreases deg - m,
            {
                let o = inst.covered_by[i][m];
                let ghost s0 = snap@;
                proof {
                    let t0 = opts.take(m as int);
                    let t1 = opts.take(m as int + 1);
                    assert(t1 =~= t0.push(o));
                    assert(t1[m as int] == o);
                    assert forall|y: usize| #[trigger] t1.contains(y) <==> (t0.contains(y) || y == o) by {
                        if t1.contains(y) && y != o {
                            let k = choose|k: int| 0 <= k < t1.len() && t1[k] == y;
                            assert(t0[k] == y);
                        }
                        if t0.contains(y) {
                            let k = choose|k: int| 0 <= k < t0.len() && t0[k] == y;
                            assert(t1[k] == y);
                        }
                    }
                    assert(!t0.contains(o)) by {
                        if t0.contains(o) {
                            let k = choose|k: int| 0 <= k < t0.len() && t0[k] == o;
                            assert(opts[k] == opts[m as int]);
                        }
                    }
                }
                if !state.hidden[o] {
                    assert(!s0.contains(o));
                    snap.push(o);
                    proof {
                        assert forall|a: int, b: int| 0 <= a < b < snap@.len() implies snap@[a] != snap@[b] by {
                            if b == s0.len() {
                                assert(s0.contains(snap@[a]));
                            } else {
                                assert(s0[a] == snap@[a] && s0[b] == snap@[b]);
                            }
                        }
                        assert forall|y: usize| #[trigger] snap@.contains(y) <==> (s0.contains(y) || y == o) by {
                            if snap@.contains(y) && y != o {
                                let k = choose|k: int| 0 <= k < snap@.len() && snap@[k] == y;
                                assert(s0[k] == y);
                            }
                            if y == o {
                                assert(snap@[s0.len() as int] == o);
                            }
                            if s0.contains(y) {
                                let k = choose|k: int| 0 <= k < s0.len() && s0[k] == y;
                                assert(snap@[k] == y);
                            }
                        }
                    }
                }
                m = m + 1;
            }
            proof {
                assert(opts.take(deg as int) =~= opts);
                inst.lemma_branch(sel, i, snap@);
            }
            if snap.len() == 0 {
                // No option can cover `i` on this branch.
                queue_push(&mut state.queue, i, (usize::MAX - state.avail[i], usize::MAX - i));
                proof {
                    assert(queue_entries(state.queue) =~= crate::engine::queue_view(inst, state.avail@, c));
                    assert(inst.extensions(sel) =~= Set::<Set<usize>>::empty()) by {
                        assert forall|t: Set<usize>| !#[trigger] inst.extensions(sel).contains(t) by {
                            if inst.extensions(sel).contains(t) {
                                let k = choose|k: int|
                                    0 <= k < snap@.len() && #[trigger] inst.extensions(sel.push(snap@[k])).contains(t);
                            }
                        }
                    }
                }
                return (0, None);
            }
            let ghost sn = snap@;
            assert(inst.covers.len() as nat == inst.n_opts());
            let mut found: u64 = 0;
            let mut first: Option<Vec<usize>> = None;
            let mut k: usize = 0;
            while k < snap.len() && found < limit
                invariant
                    inst.wf(),
                    inst.n_opts() <= usize::MAX,
                    c == inst.covered(sel),
                    inst.valid_selection(sel),
                    inst.holds_required(sel),
                    i < inst.n_items(),
                    inst.is_mandatory(i),
                    !c.contains(i),
                    sn == snap@,
                    sn.len() > 0,
                    k <= sn.len(),
                    sn.no_duplicates(),
                    forall|o: usize| #[trigger] sn.contains(o) <==> (opts.contains(o) && !inst.blocked(c, o)),
                    opts == inst.options_of(i),
                    k == 0 ==> state.matches(inst, c.insert(i)),
                    k == 0 ==> state.hides(inst, c),
                    k == 0 ==> state.selected@ == sel,
                    k > 0 ==> state.inv(inst, sel),
                    inst.extensions(sel).finite(),
                    branch_union(inst, sel, sn, k as nat).finite(),
                    found <= limit,
                    found as int == min_int(limit as int, branch_union(inst, sel, sn, k as nat).len() as int),
                    first is Some <==> found > 0,
                    first matches Some(v) ==> inst.extensions(sel).contains(v@.to_set()) && inst.valid_selection(v@),
                    forall|k2: int, t: Set<usize>|
                        0 <= k2 < sn.len() && #[trigger] inst.extensions(sel.push(sn[k2])).contains(t)
                            ==> inst.extensions(sel).contains(t),
                    forall|k1: int, k2: int, t: Set<usize>|
                        0 <= k1 < sn.len() && 0 <= k2 < sn.len() && k1 != k2 && #[trigger] inst.extensions(
                            sel.push(sn[k1]),
                        ).contains(t) ==> !#[trigger] inst.extensions(sel.push(sn[k2])).contains(t),
                decreases sn.len() - k,
            {
                let o = snap[k];
                let ghost cq = if k == 0 { c.insert(i) } else { c };
                proof {
                    assert(sn.contains(o));
                    assert(inst.covers_item(o, i));
                    assert(o < inst.n_opts());
                    if sel.contains(o) {
                        let k3 = choose|k3: int| 0 <= k3 < sel.len() && sel[k3] == o;
                        assert(inst.covers_item(sel[k3], i));
                    }
                    inst.lemma_valid_push(sel, o);
                    inst.lemma_covered_push(sel, o);
                    lemma_open_mandatory_decreases(inst, c, inst.covered(sel.push(o)), i, inst.n_items());
                    assert forall|k3: int| 0 <= k3 < inst.required@.len() implies sel.push(o).contains(
                        #[trigger] inst.required@[k3],
                    ) by {
                        assert(sel.contains(inst.required@[k3]));
                        let k4 = choose|k4: int| 0 <= k4 < sel.len() && sel[k4] == inst.required@[k3];
                        assert(sel.push(o)[k4] == sel[k4]);
                    }
                }
                let record = state.select(inst, o, Ghost(sel), Ghost(cq));
                let sub = search(state, inst, limit - found, Ghost(sel.push(o)));
                state.unselect(inst, o, record, Ghost(sel));
                proof {
                    let u0 = branch_union(inst, sel, sn, k as nat);
                    let e = inst.extensions(sel.push(o));
                    assert(branch_union(inst, sel, sn, (k + 1) as nat) == u0.union(e));
                    assert(u0.disjoint(e)) by {
                        assert forall|t: Set<usize>| !(u0.contains(t) && e.contains(t)) by {
                            if u0.contains(t) && e.contains(t) {
                                lemma_branch_union_member(inst, sel, sn, k as nat, t);
                                let k2 = choose|k2: int| 0 <= k2 < k && #[trigger] inst.extensions(sel.push(sn[k2])).contains(t);
                            }
                        }
                    }
                    vstd::set_lib::lemma_set_disjoint_lens(u0, e);
                    if sub.1.is_some() {
                        assert(inst.extensions(sel.push(sn[k as int])).contains(sub.1.unwrap()@.to_set()));
                    }
                }
                found = found + sub.0;
                if first.is_none() {
                    first = sub.1;
                }
                k = k + 1;
            }
            proof {
                let u = branch_union(inst, sel, sn, k as nat);
                assert forall|t: Set<usize>| #[trigger] u.contains(t) implies inst.extensions(sel).contains(t) by {
                    lemma_branch_union_member(inst, sel, sn, k as nat, t);
                }
                vstd::set_lib::lemma_len_subset(u, inst.extensions(sel));
                if found < limit {
                    assert(u =~= inst.extensions(sel)) by {
                        assert forall|t: Set<usize>| #[trigger] inst.extensions(sel).contains(t) implies u.contains(t) by {
                            let k2 = choose|k2: int| 0 <= k2 < sn.len() && #[trigger] inst.extensions(sel.push(sn[k2])).contains(t);
                            lemma_branch_union_contains(inst, sel, sn, k as nat, k2, t);
                        }
                    }
                }
            }
            (found, first)
        },
    }
}

proof fn lemma_open_count_all_open(flags: Seq<bool>, s: Seq<usize>)
    requires
        forall|k: int| 0 <= k < s.len() ==> s[k] < flags.len() && !flags[s[k] as int],
    ensures
        open_count(flags, s) == s.len(),
    decreases s.len(),
{
    if s.len() > 0 {
        lemma_open_count_all_open(flags, s.drop_last());
    }
}

/// The state that belongs to the empty selection: every option available,
/// every mandatory item in the index.
pub fn initial_state(inst: &Incidence) -> (st: SearchState)
    requires
        inst.wf(),
    ensures
        st.inv(inst, Seq::empty()),
{
    let n_opts = inst.covers.len();
    let n_items = inst.covered_by.len();
    let mut hidden: Vec<bool> = Vec::new();
    let mut o: usize = 0;
    while o < n_opts
        invariant
            n_opts == inst.n_opts(),
            o <= n_opts,
            hidden@.len() == o,
            forall|k: int| 0 <= k < o ==> !#[trigger] hidden@[k],
        decreases n_opts - o,
    {
        hidden.push(false);
        o = o + 1;
    }
    let mut avail: Vec<usize> = Vec::new();
    let mut queue = queue_new();
    let mut j: usize = 0;
    while j < n_items
        invariant
            inst.wf(),
            n_items == inst.n_items(),
            j <= n_items,
            hidden@.len() == inst.n_opts(),
            forall|k: int| 0 <= k < hidden@.len() ==> !#[trigger] hidden@[k],
            avail@.len() == j,
            forall|k: usize| k < j ==> #[trigger] avail@[k as int] == open_count(hidden@, inst.options_of(k)),
            queue_entries(queue) == Map::new(
                |k: usize| k < j && inst.is_mandatory(k),
                |k: usize| crate::engine::prio_of(k, avail@[k as int] as nat),
            ),
        decreases n_items - j,
    {
        let deg = inst.covered_by[j].len();
        proof {
            lemma_open_count_all_open(hidden@, inst.options_of(j));
        }
        avail.push(deg);
        if inst.mandatory[j] {
            queue_push(&mut queue, j, (usize::MAX - deg, usize::MAX - j));
        }
        proof {
            assert(queue_entries(queue) =~= Map::new(
                |k: usize| k < j + 1 && inst.is_mandatory(k),
                |k: usize| crate::engine::prio_of(k, avail@[k as int] as nat),
            ));
        }
        j = j + 1;
    }
    let st = SearchState { hidden, avail, queue, selected: Vec::new() };
    proof {
        let e = Seq::<usize>::empty();
        assert(inst.covered(e) =~= Set::<usize>::empty());
        assert(queue_entries(st.queue) =~= queue_view(inst, st.avail@, inst.covered(e)));
        assert(st.selected@ =~= e);
    }
    st
}

impl Incidence {
    /// Looks for up to `limit` solutions: selects the required options, then
    /// searches. Returns how many were found, which is `limit` or the number
    /// of solutions, whichever is smaller, and the first one found.
    pub fn solve_until(&self, limit: u64) -> (r: (u64, Option<Vec<usize>>))
        requires
            self.wf(),
        ensures
            self.solutions().finite(),
            r.0 as int == min_int(limit as int, self.solutions().len() as int),
            r.1 is Some <==> r.0 > 0,
            r.1 matches Some(v) ==> self.is_solution(v@.to_set()) && v@.no_duplicates(),
    {
        let mut state = initial_state(self);
        let req = &self.required;
        let n = req.len();
        proof {
            assert(self.covers.len() as nat == self.n_opts());
            self.lemma_extensions_finite(Seq::empty());
            assert(self.extensions(Seq::empty()) =~= self.solutions());
            assert(req@.take(0) =~= Seq::<usize>::empty());
        }
        let mut k: usize = 0;
        while k < n
            invariant
                self.wf(),
                req@ == self.required@,
                n == req@.len(),
                k <= n,
                self.solutions().finite(),
                state.inv(self, req@.take(k as int)),
                self.valid_selection(req@.take(k as int)),
            decreases n - k,
        {
            let o = req[k];
            let ghost sel = req@.take(k as int);
            if state.hidden[o] {
                proof {
                    let c = self.covered(sel);
                    let j = choose|j: usize| c.contains(j) && #[trigger] self.covers_item(o, j);
                    let k2 = choose|k2: int| 0 <= k2 < sel.len() && #[trigger] self.covers_item(sel[k2], j);
                    assert(sel[k2] == req@[k2]);
                    assert forall|t: Set<usize>| !#[trigger] self.solutions().contains(t) by {
                        if self.solutions().contains(t) {
                            assert(t.contains(self.required@[k2]));
                            assert(t.contains(self.required@[k as int]));
                        }
                    }
                    assert(self.solutions() =~= Set::<Set<usize>>::empty());
                }
                return (0, None);
            }
            proof {
                if sel.contains(o) {
                    let k2 = choose|k2: int| 0 <= k2 < sel.len() && sel[k2] == o;
                    assert(req@[k2] == req@[k as int]);
                }
                assert(self.required@.contains(o)) by {
                    assert(self.required@[k as int] == o);
                }
                self.lemma_valid_push(sel, o);
                assert(req@.take(k as int + 1) =~= sel.push(o));
            }
            let _record = state.select(self, o, Ghost(sel), Ghost(self.covered(sel)));
            k = k + 1;
        }
        proof {
            let sel = req@.take(n as int);
            assert(sel =~= self.required@);
            assert forall|k2: int| 0 <= k2 < self.required@.len() implies sel.contains(
                #[trigger] self.required@[k2],
            ) by {
                assert(sel[k2] == self.required@[k2]);
            }
            assert(self.extensions(sel) =~= self.solutions());
        }
        search(&mut state, self, limit, Ghost(self.required@))
    }

    /// One solution, or None exactly when there is none.
    pub fn solve_one(&self) -> (r: Option<Vec<usize>>)
        requires
            self.wf(),
        ensures
            r is None <==> self.solutions().len() == 0,
            r matches Some(v) ==> self.is_solution(v@.to_set()) && v@.no_duplicates(),
    {
        let (_found, first) = self.solve_until(1);
        first
    }

    /// The number of solutions, saturating at `u64::MAX`.
    pub fn count_all(&self) -> (r: u64)
        requires
            self.wf(),
        ensures
            r as int == min_int(u64::MAX as int, self.solutions().len() as int),
    {
        let (found, _first) = self.solve_until(u64::MAX);
        found
    }
}

} // verus!
