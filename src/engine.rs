//! The mutable search state (availability, priority index, selection stack)
//! and the two dual operations that select and unselect an option.
use crate::incidence::Incidence;
use crate::priority_index::{
    queue_change_priority, queue_entries, queue_push, queue_remove, ItemQueue, Prio,
};
use vstd::prelude::*;

verus! {

/// Number of entries of `s` whose flag in `flags` is off.
pub open spec fn open_count(flags: Seq<bool>, s: Seq<usize>) -> nat
    decreases s.len(),
{
    if s.len() == 0 {
        0
    } else {
        open_count(flags, s.drop_last()) + if flags[s.last() as int] {
            0nat
        } else {
            1nat
        }
    }
}

/// Priority of an item with `count` available options: fewer options first,
/// then lower handles first.
pub open spec fn prio_of(item: usize, count: nat) -> Prio {
    ((usize::MAX - count) as usize, (usize::MAX - item) as usize)
}

pub proof fn lemma_open_count_le(flags: Seq<bool>, s: Seq<usize>)
    ensures
        open_count(flags, s) <= s.len(),
    decreases s.len(),
{
    if s.len() > 0 {
        lemma_open_count_le(flags, s.drop_last());
    }
}

/// Turning on the flag of `x` closes `x` in every list that holds it once.
pub proof fn lemma_open_count_hide(flags: Seq<bool>, s: Seq<usize>, x: usize)
    requires
        x < flags.len(),
        !flags[x as int],
        s.no_duplicates(),
        forall|k: int| 0 <= k < s.len() ==> s[k] < flags.len(),
    ensures
        open_count(flags.update(x as int, true), s) + (if s.contains(x) {
            1nat
        } else {
            0nat
        }) == open_count(flags, s),
    decreases s.len(),
{
    if s.len() > 0 {
        let p = s.drop_last();
        assert(p.no_duplicates());
        lemma_open_count_hide(flags, p, x);
        assert(s =~= p.push(s.last()));
        if s.last() == x {
            assert(!p.contains(x));
        } else {
            assert(p.contains(x) == s.contains(x));
        }
    }
}

/// The priority index holds each mandatory item outside `cq`, keyed by its
/// available count.
pub open spec fn queue_view(inst: &Incidence, avail: Seq<usize>, cq: Set<usize>) -> Map<
    usize,
    Prio,
> {
    Map::new(
        |j: usize| j < inst.n_items() && inst.is_mandatory(j) && !cq.contains(j),
        |j: usize| prio_of(j, avail[j as int] as nat),
    )
}

/// The state that the search mutates in place.
pub struct SearchState {
    /// `hidden[o]`: option `o` is unavailable on the current branch.
    pub hidden: Vec<bool>,
    /// `avail[i]`: how many options of `covered_by[i]` are available.
    pub avail: Vec<usize>,
    /// The active mandatory items, fewest available options first.
    pub queue: ItemQueue,
    /// The options chosen on the current branch, in order.
    pub selected: Vec<usize>,
}

impl SearchState {
    /// Counts agree with the flags; the index holds the mandatory items
    /// outside `cq` with their current counts.
    pub open spec fn matches(&self, inst: &Incidence, cq: Set<usize>) -> bool {
        &&& self.hidden@.len() == inst.n_opts()
        &&& self.avail@.len() == inst.n_items()
        &&& forall|j: usize|
            j < inst.n_items() ==> #[trigger] self.avail@[j as int] == open_count(
                self.hidden@,
                inst.options_of(j),
            )
        &&& queue_entries(self.queue) == queue_view(inst, self.avail@, cq)
    }

    /// Exactly the options that meet an item of `c` are hidden.
    pub open spec fn hides(&self, inst: &Incidence, c: Set<usize>) -> bool {
        forall|o: usize| o < inst.n_opts() ==> #[trigger] self.hidden@[o as int] == inst.blocked(c, o)
    }

    /// The state that belongs to the selection `sel`.
    pub open spec fn inv(&self, inst: &Incidence, sel: Seq<usize>) -> bool {
        &&& self.matches(inst, inst.covered(sel))
        &&& self.hides(inst, inst.covered(sel))
        &&& self.selected@ == sel
    }

    /// Hides option `x`: one fewer available option for each of its items.
    fn hide_option(&mut self, inst: &Incidence, x: usize, Ghost(cq): Ghost<Set<usize>>)
        requires
            inst.wf(),
            x < inst.n_opts(),
            old(self).matches(inst, cq),
            !old(self).hidden@[x as int],
        ensures
            final(self).matches(inst, cq),
            final(self).hidden@ == old(self).hidden@.update(x as int, true),
            final(self).selected@ == old(self).selected@,
    {
        let ghost f0 = self.hidden@;
        self.hidden.set(x, true);
        let ghost f1 = self.hidden@;
        let n = inst.covers[x].len();
        proof {
            assert(inst.items_of(x).subrange(0, n as int) =~= inst.items_of(x));
            assert forall|j: usize| j < inst.n_items() implies #[trigger] self.avail@[j as int]
                == open_count(f1, inst.options_of(j)) + (if inst.items_of(x).subrange(
                0,
                n as int,
            ).contains(j) {
                1nat
            } else {
                0nat
            }) by {
                lemma_open_count_hide(f0, inst.options_of(j), x);
                assert(inst.covers_item(x, j) == inst.options_of(j).contains(x));
            }
        }
        let mut t: usize = 0;
        while t < n
            invariant
                inst.wf(),
                x < inst.n_opts(),
                n == inst.items_of(x).len(),
                t <= n,
                f0.len() == inst.n_opts(),
                !f0[x as int],
                f1 == f0.update(x as int, true),
                self.hidden@ == f1,
                self.selected@ == old(self).selected@,
                self.avail@.len() == inst.n_items(),
                forall|j: usize|
                    j < inst.n_items() ==> #[trigger] self.avail@[j as int] == open_count(
                        f1,
                        inst.options_of(j),
                    ) + (if inst.items_of(x).subrange(t as int, n as int).contains(j) {
                        1nat
                    } else {
                        0nat
                    }),
                queue_entries(self.queue) == queue_view(inst, self.avail@, cq),
            decreases n - t,
        {
            let j = inst.covers[x][t];
            assert(inst.items_of(x).subrange(t as int, n as int).contains(j)) by {
                assert(inst.items_of(x).subrange(t as int, n as int)[0] == j);
            }
            self.avail.set(j, self.avail[j] - 1);
            if inst.mandatory[j] {
                queue_change_priority(&mut self.queue, j, (usize::MAX - self.avail[j], usize::MAX - j));
            }
            proof {
                let rest = inst.items_of(x).subrange(t as int, n as int);
                let rest2 = inst.items_of(x).subrange(t as int + 1, n as int);
                assert(rest =~= seq![j] + rest2);
                assert forall|j2: usize| j2 != j implies rest.contains(j2) == rest2.contains(j2) by {
                    if rest.contains(j2) {
                        let k = choose|k: int| 0 <= k < rest.len() && rest[k] == j2;
                        assert(rest2[k - 1] == j2);
                    }
                    if rest2.contains(j2) {
                        let k = choose|k: int| 0 <= k < rest2.len() && rest2[k] == j2;
                        assert(rest[k + 1] == j2);
                    }
                }
                assert(!rest2.contains(j)) by {
                    if rest2.contains(j) {
                        let k = choose|k: int| 0 <= k < rest2.len() && rest2[k] == j;
                        assert(inst.items_of(x)[t + 1 + k] == j);
                        assert(inst.items_of(x)[t as int] == j);
                    }
                }
                assert(queue_entries(self.queue) =~= queue_view(inst, self.avail@, cq));
            }
            t = t + 1;
        }
        proof {
            assert forall|j: usize| j < inst.n_items() implies #[trigger] self.avail@[j as int]
                == open_count(self.hidden@, inst.options_of(j)) by {
                assert(inst.items_of(x).subrange(n as int, n as int) =~= Seq::<usize>::empty());
            }
        }
    }

    /// Makes option `x` available again: one more available option for each
    /// of its items.
    fn unhide_option(&mut self, inst: &Incidence, x: usize, Ghost(cq): Ghost<Set<usize>>)
        requires
            inst.wf(),
            x < inst.n_opts(),
            old(self).matches(inst, cq),
            old(self).hidden@[x as int],
        ensures
            final(self).matches(inst, cq),
            final(self).hidden@ == old(self).hidden@.update(x as int, false),
            final(self).selected@ == old(self).selected@,
    {
        let ghost f0 = self.hidden@;
        self.hidden.set(x, false);
        let ghost f1 = self.hidden@;
        let n = inst.covers[x].len();
        proof {
            assert(f1.update(x as int, true) =~= f0);
            assert(inst.items_of(x).subrange(0, n as int) =~= inst.items_of(x));
            assert forall|j: usize| j < inst.n_items() implies #[trigger] self.avail@[j as int]
                + (if inst.items_of(x).subrange(0, n as int).contains(j) {
                1nat
            } else {
                0nat
            }) == open_count(f1, inst.options_of(j)) by {
                lemma_open_count_hide(f1, inst.options_of(j), x);
                assert(inst.covers_item(x, j) == inst.options_of(j).contains(x));
            }
        }
        let mut t: usize = 0;
        while t < n
            invariant
                inst.wf(),
                x < inst.n_opts(),
                n == inst.items_of(x).len(),
                t <= n,
                f1.len() == inst.n_opts(),
                self.hidden@ == f1,
                self.selected@ == old(self).selected@,
                self.avail@.len() == inst.n_items(),
                forall|j: usize|
                    j < inst.n_items() ==> #[trigger] self.avail@[j as int] + (if inst.items_of(
                        x,
                    ).subrange(t as int, n as int).contains(j) {
                        1nat
                    } else {
                        0nat
                    }) == open_count(f1, inst.options_of(j)),
                queue_entries(self.queue) == queue_view(inst, self.avail@, cq),
            decreases n - t,
        {
            let j = inst.covers[x][t];
            assert(inst.items_of(x).subrange(t as int, n as int).contains(j)) by {
                assert(inst.items_of(x).subrange(t as int, n as int)[0] == j);
            }
            proof {
                lemma_open_count_le(f1, inst.options_of(j));
                assert(inst.covered_by@[j as int].len() == inst.options_of(j).len());
            }
            self.avail.set(j, self.avail[j] + 1);
            if inst.mandatory[j] {
                queue_change_priority(&mut self.queue, j, (usize::MAX - self.avail[j], usize::MAX - j));
            }
            proof {
                let rest = inst.items_of(x).subrange(t as int, n as int);
                let rest2 = inst.items_of(x).subrange(t as int + 1, n as int);
                assert(rest =~= seq![j] + rest2);
                assert forall|j2: usize| j2 != j implies rest.contains(j2) == rest2.contains(j2) by {
                    if rest.contains(j2) {
                        let k = choose|k: int| 0 <= k < rest.len() && rest[k] == j2;
                        assert(rest2[k - 1] == j2);
                    }
                    if rest2.contains(j2) {
                        let k = choose|k: int| 0 <= k < rest2.len() && rest2[k] == j2;
                        assert(rest[k + 1] == j2);
                    }
                }
                assert(!rest2.contains(j)) by {
                    if rest2.contains(j) {
                        let k = choose|k: int| 0 <= k < rest2.len() && rest2[k] == j;
                        assert(inst.items_of(x)[t + 1 + k] == j);
                        assert(inst.items_of(x)[t as int] == j);
                    }
                }
                assert(queue_entries(self.queue) =~= queue_view(inst, self.avail@, cq));
            }
            t = t + 1;
        }
        proof {
            assert forall|j: usize| j < inst.n_items() implies #[trigger] self.avail@[j as int]
                == open_count(self.hidden@, inst.options_of(j)) by {
                assert(inst.items_of(x).subrange(n as int, n as int) =~= Seq::<usize>::empty());
            }
        }
    }

    /// Covers item `i`: takes it out of the index and hides every option of
    /// `covered_by[i]` that is still available, logging each in `record`.
    fn cover_item(
        &mut self,
        inst: &Incidence,
        i: usize,
        record: &mut Vec<usize>,
        Ghost(c): Ghost<Set<usize>>,
        Ghost(c0): Ghost<Set<usize>>,
        Ghost(q): Ghost<Set<usize>>,
    )
        requires
            inst.wf(),
            i < inst.n_items(),
            old(self).matches(inst, q),
            old(self).hides(inst, c),
            forall|j: usize| c0.contains(j) ==> c.contains(j),
            old(record)@.no_duplicates(),
            forall|x: usize|
                #[trigger] old(record)@.contains(x) <==> (x < inst.n_opts() && inst.blocked(c, x)
                    && !inst.blocked(c0, x)),
        ensures
            final(self).matches(inst, q.insert(i)),
            final(self).hides(inst, c.insert(i)),
            final(self).selected@ == old(self).selected@,
            final(record)@.no_duplicates(),
            forall|x: usize|
                #[trigger] final(record)@.contains(x) <==> (x < inst.n_opts() && inst.blocked(
                    c.insert(i),
                    x,
                ) && !inst.blocked(c0, x)),
    {
        queue_remove(&mut self.queue, i);
        proof {
            assert(queue_entries(self.queue) =~= queue_view(inst, self.avail@, q.insert(i)));
        }
        let ghost opts = inst.options_of(i);
        let n = inst.covered_by[i].len();
        let mut m: usize = 0;
        while m < n
            invariant
                inst.wf(),
                i < inst.n_items(),
                opts == inst.options_of(i),
                n == opts.len(),
                m <= n,
                self.matches(inst, q.insert(i)),
                self.selected@ == old(self).selected@,
                forall|j: usize| c0.contains(j) ==> c.contains(j),
                forall|x: usize|
                    x < inst.n_opts() ==> #[trigger] self.hidden@[x as int] == (inst.blocked(c, x)
                        || opts.take(m as int).contains(x)),
                record@.no_duplicates(),
                forall|x: usize|
                    #[trigger] record@.contains(x) <==> (x < inst.n_opts() && (inst.blocked(c, x)
                        || opts.take(m as int).contains(x)) && !inst.blocked(c0, x)),
            decreases n - m,
        {
            let x = inst.covered_by[i][m];
            let ghost r0 = record@;
            proof {
                let t0 = opts.take(m as int);
                let t1 = opts.take(m as int + 1);
                assert(t1 =~= t0.push(x));
                assert forall|y: usize| #[trigger] t1.contains(y) <==> (t0.contains(y) || y == x) by {
                    if t1.contains(y) && y != x {
                        let k = choose|k: int| 0 <= k < t1.len() && t1[k] == y;
                        assert(t0[k] == y);
                    }
                    if y == x {
                        assert(t1[m as int] == x);
                    }
                    if t0.contains(y) {
                        let k = choose|k: int| 0 <= k < t0.len() && t0[k] == y;
                        assert(t1[k] == y);
                    }
                }
            }
            if !self.hidden[x] {
                self.hide_option(inst, x, Ghost(q.insert(i)));
                record.push(x);
                proof {
                    assert(!r0.contains(x));
                    assert(!inst.blocked(c0, x)) by {
                        if inst.blocked(c0, x) {
                            let j = choose|j: usize| c0.contains(j) && #[trigger] inst.covers_item(x, j);
                            assert(c.contains(j));
                        }
                    }
                    assert forall|y: usize| #[trigger] record@.contains(y) <==> (r0.contains(y) || y == x) by {
                        if record@.contains(y) && y != x {
                            let k = choose|k: int| 0 <= k < record@.len() && record@[k] == y;
                            assert(r0[k] == y);
                        }
                        if y == x {
                            assert(record@[r0.len() as int] == x);
                        }
                        if r0.contains(y) {
                            let k = choose|k: int| 0 <= k < r0.len() && r0[k] == y;
                            assert(record@[k] == y);
                        }
                    }
                }
            }
            m = m + 1;
        }
        proof {
            assert(opts.take(n as int) =~= opts);
            assert forall|x: usize| x < inst.n_opts() implies inst.blocked(c.insert(i), x) == (
            inst.blocked(c, x) || opts.contains(x)) by {
                assert(inst.covers_item(x, i) == opts.contains(x));
                if inst.blocked(c.insert(i), x) {
                    let j = choose|j: usize| c.insert(i).contains(j) && #[trigger] inst.covers_item(x, j);
                    if j != i {
                        assert(c.contains(j));
                    }
                }
                if inst.blocked(c, x) {
                    let j = choose|j: usize| c.contains(j) && #[trigger] inst.covers_item(x, j);
                    assert(c.insert(i).contains(j));
                }
                if opts.contains(x) {
                    assert(c.insert(i).contains(i));
                }
            }
        }
    }

    /// Selects option `o`: pushes it on the stack and covers each of its
    /// items in the order of `covers[o]`. Returns the options it hid, which
    /// are exactly those that meet an item of `o` and were available before.
    /// The index may already lack some items of `o` (`cq`).
    pub fn select(
        &mut self,
        inst: &Incidence,
        o: usize,
        Ghost(sel): Ghost<Seq<usize>>,
        Ghost(cq): Ghost<Set<usize>>,
    ) -> (record: Vec<usize>)
        requires
            inst.wf(),
            o < inst.n_opts(),
            old(self).matches(inst, cq),
            old(self).hides(inst, inst.covered(sel)),
            old(self).selected@ == sel,
            forall|j: usize| #[trigger]
                cq.contains(j) <==> (inst.covered(sel).contains(j) || (cq.contains(j)
                    && inst.covers_item(o, j))),
        ensures
            final(self).inv(inst, sel.push(o)),
            record@.no_duplicates(),
            forall|x: usize|
                #[trigger] record@.contains(x) <==> (x < inst.n_opts() && inst.blocked(
                    inst.covered(sel.push(o)),
                    x,
                ) && !inst.blocked(inst.covered(sel), x)),
    {
        self.selected.push(o);
        let mut record: Vec<usize> = Vec::new();
        let ghost c0 = inst.covered(sel);
        let ghost mut c = c0;
        let ghost mut q = cq;
        let ghost items = inst.items_of(o);
        let n = inst.covers[o].len();
        let mut t: usize = 0;
        while t < n
            invariant
                inst.wf(),
                o < inst.n_opts(),
                items == inst.items_of(o),
                n == items.len(),
                t <= n,
                c0 == inst.covered(sel),
                self.matches(inst, q),
                self.hides(inst, c),
                self.selected@ == sel.push(o),
                forall|j: usize| #[trigger]
                    c.contains(j) <==> (c0.contains(j) || items.take(t as int).contains(j)),
                forall|j: usize| #[trigger]
                    q.contains(j) <==> (cq.contains(j) || items.take(t as int).contains(j)),
                forall|j: usize| #[trigger]
                    cq.contains(j) <==> (c0.contains(j) || (cq.contains(j) && inst.covers_item(o, j))),
                record@.no_duplicates(),
                forall|x: usize|
                    #[trigger] record@.contains(x) <==> (x < inst.n_opts() && inst.blocked(c, x)
                        && !inst.blocked(c0, x)),
            decreases n - t,
        {
            let i = inst.covers[o][t];
            self.cover_item(inst, i, &mut record, Ghost(c), Ghost(c0), Ghost(q));
            proof {
                let t0 = items.take(t as int);
                let t1 = items.take(t as int + 1);
                assert(t1 =~= t0.push(i));
                assert forall|y: usize| #[trigger] t1.contains(y) <==> (t0.contains(y) || y == i) by {
                    if t1.contains(y) && y != i {
                        let k = choose|k: int| 0 <= k < t1.len() && t1[k] == y;
                        assert(t0[k] == y);
                    }
                    if y == i {
                        assert(t1[t as int] == i);
                    }
                    if t0.contains(y) {
                        let k = choose|k: int| 0 <= k < t0.len() && t0[k] == y;
                        assert(t1[k] == y);
                    }
                }
                c = c.insert(i);
                q = q.insert(i);
            }
            t = t + 1;
        }
        proof {
            let c1 = inst.covered(sel.push(o));
            inst.lemma_covered_push(sel, o);
            assert(items.take(n as int) =~= items);
            assert(c =~= c1);
            assert(q =~= c1);
        }
        record
    }

    /// Unselects option `o`, the last one selected, given the record that its
    /// selection returned: makes the hidden options available again, newest
    /// first, puts the mandatory items of `o` back in the index, and pops the
    /// stack. The state is then the one that belongs to `sel` again.
    pub fn unselect(
        &mut self,
        inst: &Incidence,
        o: usize,
        record: Vec<usize>,
        Ghost(sel): Ghost<Seq<usize>>,
    )
        requires
            inst.wf(),
            o < inst.n_opts(),
            old(self).inv(inst, sel.push(o)),
            !inst.blocked(inst.covered(sel), o),
            record@.no_duplicates(),
            forall|x: usize|
                #[trigger] record@.contains(x) <==> (x < inst.n_opts() && inst.blocked(
                    inst.covered(sel.push(o)),
                    x,
                ) && !inst.blocked(inst.covered(sel), x)),
        ensures
            final(self).inv(inst, sel),
    {
        let ghost c0 = inst.covered(sel);
        let ghost c1 = inst.covered(sel.push(o));
        proof {
            inst.lemma_covered_push(sel, o);
            assert(record@.take(record@.len() as int) =~= record@);
            assert forall|x: usize| x < inst.n_opts() && inst.blocked(c0, x) implies inst.blocked(c1, x) by {
                let j = choose|j: usize| c0.contains(j) && #[trigger] inst.covers_item(x, j);
                assert(c1.contains(j));
            }
        }
        let mut t = record.len();
        while t > 0
            invariant
                inst.wf(),
                o < inst.n_opts(),
                t <= record@.len(),
                c0 == inst.covered(sel),
                c1 == inst.covered(sel.push(o)),
                self.matches(inst, c1),
                self.selected@ == sel.push(o),
                record@.no_duplicates(),
                forall|x: usize|
                    #[trigger] record@.contains(x) <==> (x < inst.n_opts() && inst.blocked(c1, x)
                        && !inst.blocked(c0, x)),
                forall|x: usize| x < inst.n_opts() && inst.blocked(c0, x) ==> inst.blocked(c1, x),
                forall|x: usize|
                    x < inst.n_opts() ==> #[trigger] self.hidden@[x as int] == (inst.blocked(c0, x)
                        || (inst.blocked(c1, x) && record@.take(t as int).contains(x))),
            decreases t,
        {
            t = t - 1;
            let x = record[t];
            proof {
                assert(record@.contains(x));
                let t0 = record@.take(t as int);
                let t1 = record@.take(t as int + 1);
                assert(t1 =~= t0.push(x));
                assert(t1[t as int] == x);
                assert forall|y: usize| #[trigger] t1.contains(y) <==> (t0.contains(y) || y == x) by {
                    if t1.contains(y) && y != x {
                        let k = choose|k: int| 0 <= k < t1.len() && t1[k] == y;
                        assert(t0[k] == y);
                    }
                    if t0.contains(y) {
                        let k = choose|k: int| 0 <= k < t0.len() && t0[k] == y;
                        assert(t1[k] == y);
                    }
                }
                assert(!t0.contains(x)) by {
                    if t0.contains(x) {
                        let k = choose|k: int| 0 <= k < t0.len() && t0[k] == x;
                        assert(record@[k] == record@[t as int]);
                    }
                }
            }
            self.unhide_option(inst, x, Ghost(c1));
        }
        let ghost items = inst.items_of(o);
        let ghost mut q = c1;
        let n = inst.covers[o].len();
        proof {
            assert(items.subrange(0, n as int) =~= items);
            assert forall|j: usize| #[trigger] items.contains(j) implies !c0.contains(j) by {
                if c0.contains(j) {
                    assert(inst.covers_item(o, j));
                }
            }
        }
        let mut k: usize = 0;
        while k < n
            invariant
                inst.wf(),
                o < inst.n_opts(),
                items == inst.items_of(o),
                n == items.len(),
                k <= n,
                c0 == inst.covered(sel),
                self.matches(inst, q),
                self.hides(inst, c0),
                self.selected@ == sel.push(o),
                forall|j: usize| #[trigger] items.contains(j) ==> !c0.contains(j),
                forall|j: usize| #[trigger]
                    q.contains(j) <==> (c0.contains(j) || items.subrange(k as int, n as int).contains(j)),
            decreases n - k,
        {
            let j = inst.covers[o][k];
            if inst.mandatory[j] {
                queue_push(&mut self.queue, j, (usize::MAX - self.avail[j], usize::MAX - j));
            }
            proof {
                let rest = items.subrange(k as int, n as int);
                let rest2 = items.subrange(k as int + 1, n as int);
                assert(rest =~= seq![j] + rest2);
                assert(items.contains(j)) by {
                    assert(items[k as int] == j);
                }
                assert forall|j2: usize| j2 != j implies rest.contains(j2) == rest2.contains(j2) by {
                    if rest.contains(j2) {
                        let k2 = choose|k2: int| 0 <= k2 < rest.len() && rest[k2] == j2;
                        assert(rest2[k2 - 1] == j2);
                    }
                    if rest2.contains(j2) {
                        let k2 = choose|k2: int| 0 <= k2 < rest2.len() && rest2[k2] == j2;
                        assert(rest[k2 + 1] == j2);
                    }
                }
                assert(!rest2.contains(j)) by {
                    if rest2.contains(j) {
                        let k2 = choose|k2: int| 0 <= k2 < rest2.len() && rest2[k2] == j;
                        assert(items[k + 1 + k2] == j);
                        assert(items[k as int] == j);
                    }
                }
                assert(rest[0] == j);
                q = q.remove(j);
                assert(queue_entries(self.queue) =~= queue_view(inst, self.avail@, q));
            }
            k = k + 1;
        }
        proof {
            assert(items.subrange(n as int, n as int) =~= Seq::<usize>::empty());
            assert(q =~= c0);
        }
        self.selected.pop();
        proof {
            assert(self.selected@ =~= sel);
        }
    }
}

/// The state of a selection is unique. So unselecting an option right
/// after selecting it restores availability, index and stack exactly:
/// `select` takes the state of `sel` to the state of `sel.push(o)`, and
/// `unselect` takes that to the state of `sel` again.
pub proof fn lemma_state_unique(inst: &Incidence, a: &SearchState, b: &SearchState, sel: Seq<usize>)
    requires
        a.inv(inst, sel),
        b.inv(inst, sel),
    ensures
        a.hidden@ == b.hidden@,
        a.avail@ == b.avail@,
        queue_entries(a.queue) == queue_entries(b.queue),
        a.selected@ == b.selected@,
{
    assert(inst.covers.len() as nat == inst.n_opts());
    assert(inst.covered_by.len() as nat == inst.n_items());
    assert forall|o: int| 0 <= o < a.hidden@.len() implies a.hidden@[o] == b.hidden@[o] by {
        assert(a.hidden@[(o as usize) as int] == inst.blocked(inst.covered(sel), o as usize));
    }
    assert(a.hidden@ =~= b.hidden@);
    assert forall|j: int| 0 <= j < a.avail@.len() implies a.avail@[j] == b.avail@[j] by {
        assert(a.avail@[(j as usize) as int] == open_count(a.hidden@, inst.options_of(j as usize)));
    }
    assert(a.avail@ =~= b.avail@);
}

} // verus!
