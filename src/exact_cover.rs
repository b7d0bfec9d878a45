//! The exact cover problem over named items and options: validation of the
//! declarations, interning of the names into handles, and the solver's
//! public entry points.
use crate::incidence::Incidence;
use crate::search::min_int;
use vstd::prelude::*;

verus! {

/// The names held by a vector of strings.
pub open spec fn names_view(v: Seq<String>) -> Seq<Seq<char>> {
    v.map_values(|s: String| s@)
}

/// The item names declared by `covered_by`, in order.
pub open spec fn declared_items(cb: Seq<(String, Vec<String>)>) -> Seq<Seq<char>> {
    cb.map_values(|e: (String, Vec<String>)| e.0@)
}

/// The option names listed for the `i`-th declared item.
pub open spec fn listed_options(cb: Seq<(String, Vec<String>)>, i: int) -> Seq<Seq<char>> {
    names_view(cb[i].1@)
}

/// `name` is listed for some declared item.
pub open spec fn is_declared_option(cb: Seq<(String, Vec<String>)>, name: Seq<char>) -> bool {
    exists|i: int| 0 <= i < cb.len() && #[trigger] listed_options(cb, i).contains(name)
}

pub open spec fn has_empty_id(
    ri: Seq<String>,
    ro: Seq<String>,
    cb: Seq<(String, Vec<String>)>,
) -> bool {
    ||| exists|k: int| 0 <= k < ri.len() && (#[trigger] ri[k])@.len() == 0
    ||| exists|k: int| 0 <= k < ro.len() && (#[trigger] ro[k])@.len() == 0
    ||| exists|i: int| 0 <= i < cb.len() && (#[trigger] cb[i]).0@.len() == 0
    ||| exists|i: int, m: int|
        0 <= i < cb.len() && 0 <= m < cb[i].1@.len() && (#[trigger] cb[i].1@[m])@.len() == 0
}

pub open spec fn has_duplicate_item(ri: Seq<String>, cb: Seq<(String, Vec<String>)>) -> bool {
    !declared_items(cb).no_duplicates() || !names_view(ri).no_duplicates()
}

pub open spec fn has_undeclared_item(ri: Seq<String>, cb: Seq<(String, Vec<String>)>) -> bool {
    exists|k: int| 0 <= k < ri.len() && !declared_items(cb).contains(#[trigger] ri[k]@)
}

pub open spec fn has_duplicate_option(ro: Seq<String>, cb: Seq<(String, Vec<String>)>) -> bool {
    ||| exists|i: int| 0 <= i < cb.len() && !(#[trigger] listed_options(cb, i)).no_duplicates()
    ||| !names_view(ro).no_duplicates()
}

pub open spec fn has_undeclared_option(ro: Seq<String>, cb: Seq<(String, Vec<String>)>) -> bool {
    exists|k: int| 0 <= k < ro.len() && !is_declared_option(cb, #[trigger] ro[k]@)
}

/// Option `x` covers a mandatory item.
pub open spec fn covers_mandatory_name(
    ri: Seq<String>,
    cb: Seq<(String, Vec<String>)>,
    x: Seq<char>,
) -> bool {
    exists|i: int|
        0 <= i < cb.len() && names_view(ri).contains(cb[i].0@) && #[trigger] listed_options(
            cb,
            i,
        ).contains(x)
}

/// `s` is an exact cover of the declarations: its options are listed ones;
/// no item lists two of them, so each optional item is covered at most
/// once; each mandatory item lists one of them, so exactly one; it holds
/// every required option; and each of its options is required or covers a
/// mandatory item.
pub open spec fn is_cover(
    ri: Seq<String>,
    ro: Seq<String>,
    cb: Seq<(String, Vec<String>)>,
    s: Set<Seq<char>>,
) -> bool {
    &&& forall|x: Seq<char>| #[trigger] s.contains(x) ==> is_declared_option(cb, x)
    &&& forall|i: int, x1: Seq<char>, x2: Seq<char>|
        0 <= i < cb.len() && s.contains(x1) && s.contains(x2) && #[trigger] listed_options(
            cb,
            i,
        ).contains(x1) && #[trigger] listed_options(cb, i).contains(x2) ==> x1 == x2
    &&& forall|i: int|
        0 <= i < cb.len() && names_view(ri).contains(#[trigger] cb[i].0@) ==> exists|x: Seq<char>|
            s.contains(x) && #[trigger] listed_options(cb, i).contains(x)
    &&& forall|k: int| 0 <= k < ro.len() ==> s.contains(#[trigger] ro[k]@)
    &&& forall|x: Seq<char>|
        #[trigger] s.contains(x) ==> names_view(ro).contains(x) || covers_mandatory_name(ri, cb, x)
}

/// All exact covers of the declarations.
pub open spec fn named_covers(
    ri: Seq<String>,
    ro: Seq<String>,
    cb: Seq<(String, Vec<String>)>,
) -> Set<Set<Seq<char>>> {
    Set::new(|s: Set<Seq<char>>| is_cover(ri, ro, cb, s))
}

/// Why a set of declarations is not an instance.
#[derive(Debug, PartialEq, Eq, Structural)]
pub enum MalformedInstance {
    /// An item or option name is the empty string.
    EmptyId,
    /// An item is declared twice, or listed twice as mandatory.
    DuplicateItem,
    /// A mandatory item is not declared.
    UndeclaredItem,
    /// An item lists an option twice, or an option is required twice.
    DuplicateOption,
    /// A required option covers no declared item.
    UndeclaredOption,
}

/// An exact cover problem: items named by strings (mandatory ones must be
/// covered once, the others at most once) and options named by strings.
pub struct ExactCoverProblem {
    /// Item names; an item's handle is its position.
    pub items: Vec<String>,
    /// Distinct option names in order of first mention; an option's handle
    /// is its position.
    pub options: Vec<String>,
    /// The instance over handles.
    pub inc: Incidence,
    /// The declarations the problem was built from: mandatory items,
    /// required options, and each item with its options.
    pub declarations: Ghost<(Seq<String>, Seq<String>, Seq<(String, Vec<String>)>)>,
}

/// A solution: the names of the selected options.
#[derive(Debug)]
pub struct ExactCoverSolution {
    pub selected_options: Vec<String>,
}

impl ExactCoverProblem {
    pub open spec fn wf(&self) -> bool {
        &&& self.inc.wf()
        &&& self.items@.len() == self.inc.n_items()
        &&& self.options@.len() == self.inc.n_opts()
        &&& names_view(self.options@).no_duplicates()
        &&& self.encodes(self.declarations@.0, self.declarations@.1, self.declarations@.2)
    }

    /// The exact covers of the declarations.
    pub open spec fn named_covers(&self) -> Set<Set<Seq<char>>> {
        named_covers(self.declarations@.0, self.declarations@.1, self.declarations@.2)
    }

    /// The problem stands for the declarations: its items are the declared
    /// ones in order, its options are the listed names, each item's options
    /// are its listed ones in order, its mandatory items are those of `ri`,
    /// and its required options are those of `ro`, in order.
    pub open spec fn encodes(
        &self,
        ri: Seq<String>,
        ro: Seq<String>,
        cb: Seq<(String, Vec<String>)>,
    ) -> bool {
        &&& names_view(self.items@) == declared_items(cb)
        &&& forall|o: int|
            0 <= o < self.options@.len() ==> is_declared_option(cb, #[trigger] self.options@[o]@)
        &&& forall|i: int|
            0 <= i < cb.len() ==> self.option_names(#[trigger] self.inc.covered_by@[i]@)
                == listed_options(cb, i)
        &&& forall|i: int|
            0 <= i < cb.len() ==> #[trigger] self.inc.mandatory@[i] == names_view(ri).contains(
                cb[i].0@,
            )
        &&& self.option_names(self.inc.required@) == names_view(ro)
    }

    /// The names of a sequence of option handles.
    pub open spec fn option_names(&self, hs: Seq<usize>) -> Seq<Seq<char>> {
        hs.map_values(|o: usize| self.options@[o as int]@)
    }
}

/// The first position holding `x`, if any.
pub(crate) fn find_name(names: &Vec<String>, x: &String) -> (r: Option<usize>)
    ensures
        r matches Some(k) ==> k < names@.len() && names@[k as int]@ == x@,
        r is None ==> forall|k: int| 0 <= k < names@.len() ==> names@[k]@ != x@,
        r is None <==> !names_view(names@).contains(x@),
{
    let mut k: usize = 0;
    while k < names.len()
        invariant
            k <= names@.len(),
            forall|k2: int| 0 <= k2 < k ==> names@[k2]@ != x@,
        decreases names@.len() - k,
    {
        if names[k] == *x {
            proof {
                assert(names_view(names@)[k as int] == x@);
            }
            return Some(k);
        }
        k = k + 1;
    }
    proof {
        if names_view(names@).contains(x@) {
            let k2 = choose|k2: int| 0 <= k2 < names@.len() && names_view(names@)[k2] == x@;
            assert(names@[k2]@ == x@);
        }
    }
    None
}

/// Whether no name occurs twice.
fn all_distinct(names: &Vec<String>) -> (r: bool)
    ensures
        r == names_view(names@).no_duplicates(),
{
    let ghost nv = names_view(names@);
    let n = names.len();
    let mut a: usize = 0;
    while a < n
        invariant
            n == names@.len(),
            nv == names_view(names@),
            a <= n,
            forall|a2: int, b2: int| 0 <= a2 < a && a2 < b2 < n ==> nv[a2] != nv[b2],
        decreases n - a,
    {
        let mut b: usize = a + 1;
        while b < n
            invariant
                n == names@.len(),
                nv == names_view(names@),
                a < n,
                a < b <= n,
                forall|a2: int, b2: int| 0 <= a2 < a && a2 < b2 < n ==> nv[a2] != nv[b2],
                forall|b2: int| a < b2 < b ==> nv[a as int] != nv[b2],
            decreases n - b,
        {
            if names[a] == names[b] {
                proof {
                    assert(nv[a as int] == nv[b as int]);
                }
                return false;
            }
            b = b + 1;
        }
        a = a + 1;
    }
    true
}

/// Whether some name is the empty string.
fn any_empty(names: &Vec<String>) -> (r: bool)
    ensures
        r == exists|k: int| 0 <= k < names@.len() && (#[trigger] names@[k])@.len() == 0,
{
    let mut k: usize = 0;
    while k < names.len()
        invariant
            k <= names@.len(),
            forall|k2: int| 0 <= k2 < k ==> names@[k2]@.len() != 0,
        decreases names@.len() - k,
    {
        if names[k].as_str().is_empty() {
            return true;
        }
        k = k + 1;
    }
    false
}

/// Whether `name` is listed for some declared item.
fn is_listed(cb: &Vec<(String, Vec<String>)>, name: &String) -> (r: bool)
    ensures
        r == is_declared_option(cb@, name@),
{
    let mut i: usize = 0;
    while i < cb.len()
        invariant
            i <= cb@.len(),
            forall|i2: int| 0 <= i2 < i ==> !#[trigger] listed_options(cb@, i2).contains(name@),
        decreases cb@.len() - i,
    {
        if find_name(&cb[i].1, name).is_some() {
            assert(listed_options(cb@, i as int).contains(name@));
            return true;
        }
        i = i + 1;
    }
    false
}

/// The first rule that the declarations break, if any, in the order
/// empty names, repeated items, undeclared items, repeated options,
/// undeclared options.
fn validate(ri: &Vec<String>, ro: &Vec<String>, cb: &Vec<(String, Vec<String>)>) -> (r: Option<
    MalformedInstance,
>)
    ensures
        r == Some(MalformedInstance::EmptyId) <==> has_empty_id(ri@, ro@, cb@),
        r == Some(MalformedInstance::DuplicateItem) <==> !has_empty_id(ri@, ro@, cb@)
            && has_duplicate_item(ri@, cb@),
        r == Some(MalformedInstance::UndeclaredItem) <==> !has_empty_id(ri@, ro@, cb@)
            && !has_duplicate_item(ri@, cb@) && has_undeclared_item(ri@, cb@),
        r == Some(MalformedInstance::DuplicateOption) <==> !has_empty_id(ri@, ro@, cb@)
            && !has_duplicate_item(ri@, cb@) && !has_undeclared_item(ri@, cb@)
            && has_duplicate_option(ro@, cb@),
        r == Some(MalformedInstance::UndeclaredOption) <==> !has_empty_id(ri@, ro@, cb@)
            && !has_duplicate_item(ri@, cb@) && !has_undeclared_item(ri@, cb@)
            && !has_duplicate_option(ro@, cb@) && has_undeclared_option(ro@, cb@),
        r is None <==> !has_empty_id(ri@, ro@, cb@) && !has_duplicate_item(ri@, cb@)
            && !has_undeclared_item(ri@, cb@) && !has_duplicate_option(ro@, cb@)
            && !has_undeclared_option(ro@, cb@),
{
    if any_empty(ri) || any_empty(ro) {
        return Some(MalformedInstance::EmptyId);
    }
    let n = cb.len();
    let mut items: Vec<String> = Vec::new();
    let mut i: usize = 0;
    while i < n
        invariant
            n == cb@.len(),
            i <= n,
            names_view(items@) == declared_items(cb@).take(i as int),
            forall|i2: int| 0 <= i2 < i ==> (#[trigger] cb@[i2]).0@.len() != 0,
            forall|i2: int, m: int|
                0 <= i2 < i && 0 <= m < cb@[i2].1@.len() ==> (#[trigger] cb@[i2].1@[m])@.len() != 0,
        decreases n - i,
    {
        if cb[i].0.as_str().is_empty() || any_empty(&cb[i].1) {
            return Some(MalformedInstance::EmptyId);
        }
        let ghost before = items@;
        items.push(cb[i].0.clone());
        proof {
            assert(names_view(before) == declared_items(cb@).take(i as int));
            assert(names_view(before).len() == i);
            assert(items@ == before.push(cb@[i as int].0));
            assert forall|k2: int| 0 <= k2 <= i implies names_view(items@)[k2] == declared_items(
                cb@,
            ).take(i as int + 1)[k2] by {
                if k2 < i {
                    assert(names_view(before)[k2] == declared_items(cb@).take(i as int)[k2]);
                    assert(items@[k2] == before[k2]);
                }
            }
            assert(names_view(items@) =~= declared_items(cb@).take(i as int + 1));
        }
        i = i + 1;
    }
    proof {
        assert(declared_items(cb@).take(n as int) =~= declared_items(cb@));
    }
    assert(!has_empty_id(ri@, ro@, cb@));
    if !all_distinct(&items) || !all_distinct(ri) {
        return Some(MalformedInstance::DuplicateItem);
    }
    assert(!has_duplicate_item(ri@, cb@));
    let mut k: usize = 0;
    while k < ri.len()
        invariant
            k <= ri@.len(),
            names_view(items@) == declared_items(cb@),
            forall|k2: int| 0 <= k2 < k ==> declared_items(cb@).contains(#[trigger] ri@[k2]@),
            !has_empty_id(ri@, ro@, cb@),
            !has_duplicate_item(ri@, cb@),
        decreases ri@.len() - k,
    {
        if find_name(&items, &ri[k]).is_none() {
            return Some(MalformedInstance::UndeclaredItem);
        }
        k = k + 1;
    }
    let mut i: usize = 0;
    while i < n
        invariant
            n == cb@.len(),
            i <= n,
            forall|i2: int| 0 <= i2 < i ==> (#[trigger] listed_options(cb@, i2)).no_duplicates(),
            !has_empty_id(ri@, ro@, cb@),
            !has_duplicate_item(ri@, cb@),
            !has_undeclared_item(ri@, cb@),
        decreases n - i,
    {
        if !all_distinct(&cb[i].1) {
            assert(!listed_options(cb@, i as int).no_duplicates());
            return Some(MalformedInstance::DuplicateOption);
        }
        i = i + 1;
    }
    if !all_distinct(ro) {
        return Some(MalformedInstance::DuplicateOption);
    }
    let mut k: usize = 0;
    while k < ro.len()
        invariant
            k <= ro@.len(),
            forall|k2: int| 0 <= k2 < k ==> is_declared_option(cb@, #[trigger] ro@[k2]@),
            !has_empty_id(ri@, ro@, cb@),
            !has_duplicate_item(ri@, cb@),
            !has_undeclared_item(ri@, cb@),
            !has_duplicate_option(ro@, cb@),
        decreases ro@.len() - k,
    {
        if !is_listed(cb, &ro[k]) {
            return Some(MalformedInstance::UndeclaredOption);
        }
        k = k + 1;
    }
    None
}

/// Interns the names: option handles in order of first mention, and each
/// item's list of options as handles.
fn build(ri: &Vec<String>, ro: &Vec<String>, cb: &Vec<(String, Vec<String>)>) -> (p: ExactCoverProblem)
    requires
        !has_duplicate_option(ro@, cb@),
        !has_undeclared_option(ro@, cb@),
    ensures
        p.wf(),
        p.encodes(ri@, ro@, cb@),
        p.declarations@ == (ri@, ro@, cb@),
{
    let n = cb.len();
    let mut options: Vec<String> = Vec::new();
    let mut handles: Vec<Vec<usize>> = Vec::new();
    let mut i: usize = 0;
    while i < n
        invariant
            n == cb@.len(),
            i <= n,
            !has_duplicate_option(ro@, cb@),
            handles@.len() == i,
            names_view(options@).no_duplicates(),
            forall|o: int| 0 <= o < options@.len() ==> is_declared_option(cb@, #[trigger] options@[o]@),
            forall|i2: int, m: int|
                0 <= i2 < i && 0 <= m < listed_options(cb@, i2).len() ==> names_view(options@).contains(
                    #[trigger] listed_options(cb@, i2)[m],
                ),
            forall|i2: int|
                0 <= i2 < i ==> (#[trigger] handles@[i2])@.len() == listed_options(cb@, i2).len(),
            forall|i2: int, m: int|
                0 <= i2 < i && 0 <= m < handles@[i2]@.len() ==> #[trigger] handles@[i2]@[m]
                    < options@.len() && options@[handles@[i2]@[m] as int]@ == listed_options(cb@, i2)[m],
            forall|i2: int| 0 <= i2 < i ==> (#[trigger] handles@[i2])@.no_duplicates(),
        decreases n - i,
    {
        let list = &cb[i].1;
        let ghost names = listed_options(cb@, i as int);
        let deg = list.len();
        let mut hs: Vec<usize> = Vec::new();
        let mut m: usize = 0;
        while m < deg
            invariant
                n == cb@.len(),
                i < n,
                list@ == cb@[i as int].1@,
                names == listed_options(cb@, i as int),
                deg == names.len(),
                m <= deg,
                handles@.len() == i,
                hs@.len() == m,
                names_view(options@).no_duplicates(),
                forall|o: int| 0 <= o < options@.len() ==> is_declared_option(cb@, #[trigger] options@[o]@),
                forall|i2: int, m2: int|
                    0 <= i2 < i && 0 <= m2 < listed_options(cb@, i2).len() ==> names_view(options@).contains(
                        #[trigger] listed_options(cb@, i2)[m2],
                    ),
                forall|m2: int| 0 <= m2 < m ==> names_view(options@).contains(#[trigger] names[m2]),
                forall|i2: int|
                    0 <= i2 < i ==> (#[trigger] handles@[i2])@.len() == listed_options(cb@, i2).len(),
                forall|i2: int, m2: int|
                    0 <= i2 < i && 0 <= m2 < handles@[i2]@.len() ==> #[trigger] handles@[i2]@[m2]
                        < options@.len() && options@[handles@[i2]@[m2] as int]@ == listed_options(
                        cb@,
                        i2,
                    )[m2],
                forall|m2: int|
                    0 <= m2 < m ==> #[trigger] hs@[m2] < options@.len() && options@[hs@[m2] as int]@
                        == names[m2],
                forall|i2: int| 0 <= i2 < i ==> (#[trigger] handles@[i2])@.no_duplicates(),
            decreases deg - m,
        {
            let name = &list[m];
            assert(name@ == names[m as int]);
            match find_name(&options, name) {
                Some(o) => {
                    hs.push(o);
                },
                None => {
                    let ghost before = options@;
                    options.push(name.clone());
                    proof {
                        assert(listed_options(cb@, i as int).contains(name@)) by {
                            assert(listed_options(cb@, i as int)[m as int] == name@);
                        }
                        assert(names_view(options@) =~= names_view(before).push(name@));
                        assert forall|a: int, b: int|
                            0 <= a < b < names_view(options@).len() implies names_view(options@)[a]
                            != names_view(options@)[b] by {
                            if b == before.len() {
                                assert(before[a]@ != name@);
                            } else {
                                assert(names_view(before)[a] == names_view(options@)[a]);
                                assert(names_view(before)[b] == names_view(options@)[b]);
                            }
                        }
                        assert forall|x: Seq<char>| names_view(before).contains(x) implies names_view(
                            options@,
                        ).contains(x) by {
                            let k = choose|k: int| 0 <= k < before.len() && names_view(before)[k] == x;
                            assert(names_view(options@)[k] == x);
                        }
                    }
                    hs.push(options.len() - 1);
                },
            }
            proof {
                assert(names_view(options@).contains(names[m as int])) by {
                    let o = hs@[m as int];
                    assert(names_view(options@)[o as int] == names[m as int]);
                }
            }
            m = m + 1;
        }
        proof {
            assert forall|a: int, b: int| 0 <= a < b < hs@.len() implies hs@[a] != hs@[b] by {
                assert(names.no_duplicates());
                assert(names[a] != names[b]);
            }
            assert(!has_duplicate_option(ro@, cb@));
            assert(listed_options(cb@, i as int).no_duplicates());
        }
        handles.push(hs);
        proof {
            assert forall|i2: int, m2: int|
                0 <= i2 <= i && 0 <= m2 < listed_options(cb@, i2).len() implies names_view(
                options@,
            ).contains(#[trigger] listed_options(cb@, i2)[m2]) by {
                if i2 == i {
                    assert(names[m2] == listed_options(cb@, i2)[m2]);
                }
            }
        }
        i = i + 1;
    }
    let mut mandatory: Vec<bool> = Vec::new();
    let mut i: usize = 0;
    while i < n
        invariant
            n == cb@.len(),
            i <= n,
            mandatory@.len() == i,
            forall|i2: int| 0 <= i2 < i ==> #[trigger] mandatory@[i2] == names_view(ri@).contains(cb@[i2].0@),
        decreases n - i,
    {
        mandatory.push(find_name(ri, &cb[i].0).is_some());
        i = i + 1;
    }
    let mut req: Vec<usize> = Vec::new();
    let mut k: usize = 0;
    while k < ro.len()
        invariant
            k <= ro@.len(),
            n == cb@.len(),
            !has_duplicate_option(ro@, cb@),
            !has_undeclared_option(ro@, cb@),
            forall|i2: int, m: int|
                0 <= i2 < n && 0 <= m < listed_options(cb@, i2).len() ==> names_view(options@).contains(
                    #[trigger] listed_options(cb@, i2)[m],
                ),
            req@.len() == k,
            forall|k2: int| 0 <= k2 < k ==> #[trigger] req@[k2] < options@.len() && options@[req@[k2] as int]@
                == ro@[k2]@,
        decreases ro@.len() - k,
    {
        proof {
            assert(is_declared_option(cb@, ro@[k as int]@));
            let i2 = choose|i2: int| 0 <= i2 < cb@.len() && #[trigger] listed_options(cb@, i2).contains(ro@[k as int]@);
            let m = choose|m: int| 0 <= m < listed_options(cb@, i2).len() && listed_options(cb@, i2)[m] == ro@[k as int]@;
            assert(names_view(options@).contains(listed_options(cb@, i2)[m]));
        }
        let o = find_name(&options, &ro[k]).unwrap();
        req.push(o);
        k = k + 1;
    }
    proof {
        assert forall|a: int, b: int| 0 <= a < b < req@.len() implies req@[a] != req@[b] by {
            assert(names_view(ro@)[a] != names_view(ro@)[b]);
        }
    }
    let ghost hv = handles@;
    let n_opts = options.len();
    let inc = Incidence::from_covered_by(handles, mandatory, req, n_opts);
    let mut items: Vec<String> = Vec::new();
    let mut i: usize = 0;
    while i < n
        invariant
            n == cb@.len(),
            i <= n,
            names_view(items@) == declared_items(cb@).take(i as int),
        decreases n - i,
    {
        let ghost before = items@;
        items.push(cb[i].0.clone());
        proof {
            assert(names_view(before).len() == i);
            assert(items@ == before.push(cb@[i as int].0));
            assert forall|k2: int| 0 <= k2 <= i implies names_view(items@)[k2] == declared_items(
                cb@,
            ).take(i as int + 1)[k2] by {
                if k2 < i {
                    assert(names_view(before)[k2] == declared_items(cb@).take(i as int)[k2]);
                    assert(items@[k2] == before[k2]);
                }
            }
            assert(names_view(items@) =~= declared_items(cb@).take(i as int + 1));
        }
        i = i + 1;
    }
    let p = ExactCoverProblem { items, options, inc, declarations: Ghost((ri@, ro@, cb@)) };
    proof {
        assert(declared_items(cb@).take(n as int) =~= declared_items(cb@));
        assert forall|i2: int| 0 <= i2 < cb@.len() implies p.option_names(
            #[trigger] p.inc.covered_by@[i2]@,
        ) == listed_options(cb@, i2) by {
            assert(p.inc.covered_by@[i2] == hv[i2]);
            assert(p.option_names(hv[i2]@) =~= listed_options(cb@, i2));
        }
        assert(p.option_names(p.inc.required@) =~= names_view(ro@));
    }
    p
}

impl ExactCoverProblem {
    /// Validates the declarations and builds the problem. `covered_by` lists
    /// each item (mandatory or optional) with the options that cover it;
    /// the options are the names listed there. `required_items` are the
    /// mandatory items; `required_options` are forced into every solution.
    pub fn new(
        required_items: Vec<String>,
        required_options: Vec<String>,
        covered_by: Vec<(String, Vec<String>)>,
    ) -> (r: Result<ExactCoverProblem, MalformedInstance>)
        ensures
            r matches Ok(p) ==> p.wf() && p.declarations@ == (
                required_items@,
                required_options@,
                covered_by@,
            ),
            r == Err::<ExactCoverProblem, _>(MalformedInstance::EmptyId) <==> has_empty_id(
                required_items@,
                required_options@,
                covered_by@,
            ),
            r == Err::<ExactCoverProblem, _>(MalformedInstance::DuplicateItem) <==> !has_empty_id(
                required_items@,
                required_options@,
                covered_by@,
            ) && has_duplicate_item(required_items@, covered_by@),
            r == Err::<ExactCoverProblem, _>(MalformedInstance::UndeclaredItem) <==> !has_empty_id(
                required_items@,
                required_options@,
                covered_by@,
            ) && !has_duplicate_item(required_items@, covered_by@) && has_undeclared_item(
                required_items@,
                covered_by@,
            ),
            r == Err::<ExactCoverProblem, _>(MalformedInstance::DuplicateOption) <==> !has_empty_id(
                required_items@,
                required_options@,
                covered_by@,
            ) && !has_duplicate_item(required_items@, covered_by@) && !has_undeclared_item(
                required_items@,
                covered_by@,
            ) && has_duplicate_option(required_options@, covered_by@),
            r == Err::<ExactCoverProblem, _>(MalformedInstance::UndeclaredOption) <==> !has_empty_id(
                required_items@,
                required_options@,
                covered_by@,
            ) && !has_duplicate_item(required_items@, covered_by@) && !has_undeclared_item(
                required_items@,
                covered_by@,
            ) && !has_duplicate_option(required_options@, covered_by@) && has_undeclared_option(
                required_options@,
                covered_by@,
            ),
    {
        match validate(&required_items, &required_options, &covered_by) {
            Some(e) => Err(e),
            None => Ok(build(&required_items, &required_options, &covered_by)),
        }
    }

    /// One solution, or None exactly when the declarations have no exact
    /// cover. The solution names distinct options and is an exact cover.
    pub fn solve(&self) -> (r: Option<ExactCoverSolution>)
        requires
            self.wf(),
        ensures
            r is None <==> self.named_covers().len() == 0,
            r matches Some(s) ==> names_view(s.selected_options@).no_duplicates()
                && self.named_covers().contains(names_view(s.selected_options@).to_set()),
            r matches Some(s) ==> exists|v: Seq<usize>|
                #![trigger self.option_names(v)]
                self.inc.is_solution(v.to_set()) && v.no_duplicates() && names_view(
                    s.selected_options@,
                ) == self.option_names(v),
    {
        proof {
            self.lemma_names_correspond();
        }
        match self.inc.solve_one() {
            None => None,
            Some(v) => {
                proof {
                    assert forall|k: int| 0 <= k < v@.len() implies v@[k] < self.options@.len() by {
                        assert(v@.to_set().contains(v@[k]));
                    }
                }
                let sol = self.solution_names(&v);
                proof {
                    let names = names_view(sol.selected_options@);
                    let t = v@.to_set();
                    assert(self.inc.solutions().contains(t));
                    assert(self.inc.solutions().map(|t: Set<usize>| self.name_set(t)).contains(
                        self.name_set(t),
                    ));
                    assert forall|x: Seq<char>| names.to_set().contains(x) <==> self.name_set(t).contains(x) by {
                        if names.to_set().contains(x) {
                            let k = choose|k: int| 0 <= k < names.len() && names[k] == x;
                            assert(self.option_names(v@)[k] == x);
                            assert(t.contains(v@[k]));
                        }
                        if self.name_set(t).contains(x) {
                            let o = choose|o: usize| t.contains(o) && self.options@[o as int]@ == x;
                            let k = choose|k: int| 0 <= k < v@.len() && v@[k] == o;
                            assert(names[k] == x);
                        }
                    }
                    assert(names.to_set() =~= self.name_set(t));
                    assert forall|a: int, b: int| 0 <= a < b < names.len() implies names[a] != names[b] by {
                        if names[a] == names[b] {
                            self.lemma_name_unique(v@[a], v@[b]);
                        }
                    }
                }
                Some(sol)
            },
        }
    }

    /// The number of exact covers of the declarations, saturating at
    /// `u64::MAX`.
    pub fn count_all_solutions(&self) -> (r: u64)
        requires
            self.wf(),
        ensures
            r as int == min_int(u64::MAX as int, self.named_covers().len() as int),
    {
        proof {
            self.lemma_names_correspond();
        }
        self.inc.count_all()
    }

    fn solution_names(&self, v: &Vec<usize>) -> (s: ExactCoverSolution)
        requires
            self.wf(),
            forall|k: int| 0 <= k < v@.len() ==> v@[k] < self.options@.len(),
        ensures
            names_view(s.selected_options@) == self.option_names(v@),
    {
        let mut names: Vec<String> = Vec::new();
        let mut k: usize = 0;
        while k < v.len()
            invariant
                k <= v@.len(),
                forall|k2: int| 0 <= k2 < v@.len() ==> v@[k2] < self.options@.len(),
                names@.len() == k,
                forall|k2: int| 0 <= k2 < k ==> (#[trigger] names@[k2])@ == self.options@[v@[k2] as int]@,
            decreases v@.len() - k,
        {
            names.push(self.options[v[k]].clone());
            k = k + 1;
        }
        let s = ExactCoverSolution { selected_options: names };
        proof {
            assert(names_view(s.selected_options@) =~= self.option_names(v@));
        }
        s
    }
}

impl ExactCoverProblem {
    pub proof fn lemma_listed_iff(&self, ri: Seq<String>, ro: Seq<String>, cb: Seq<(String, Vec<String>)>, i: int, o: usize)
        requires
            self.wf(),
            self.encodes(ri, ro, cb),
            0 <= i < cb.len(),
            o < self.inc.n_opts(),
        ensures
            listed_options(cb, i).contains(self.options@[o as int]@) <==> self.inc.covers_item(o, i as usize),
    {
        let hs = self.inc.covered_by@[i]@;
        assert(names_view(self.items@).len() == cb.len());
        assert(self.inc.covered_by.len() as nat == self.inc.n_items());
        assert(self.option_names(hs) == listed_options(cb, i));
        assert(self.inc.options_of(i as usize) == hs);
        if listed_options(cb, i).contains(self.options@[o as int]@) {
            let m = choose|m: int| 0 <= m < listed_options(cb, i).len() && listed_options(cb, i)[m] == self.options@[o as int]@;
            assert(self.option_names(hs)[m] == self.options@[hs[m] as int]@);
            assert(hs[m] < self.inc.n_opts());
            assert(names_view(self.options@)[hs[m] as int] == names_view(self.options@)[o as int]);
            assert(hs.contains(o));
        }
        if hs.contains(o) {
            let m = choose|m: int| 0 <= m < hs.len() && hs[m] == o;
            assert(self.option_names(hs)[m] == self.options@[o as int]@);
        }
    }

    /// `count_all_solutions` returns 0 exactly when `solve` returns None.
    pub proof fn lemma_count_zero_iff_no_solution(&self)
        ensures
            min_int(u64::MAX as int, self.named_covers().len() as int) == 0 <==> self.named_covers().len()
                == 0,
    {
    }

    /// `count_all_solutions` gives the same number on every call: its result
    /// is a function of the problem alone.
    pub proof fn lemma_count_deterministic(&self, r1: u64, r2: u64)
        requires
            r1 as int == min_int(u64::MAX as int, self.named_covers().len() as int),
            r2 as int == min_int(u64::MAX as int, self.named_covers().len() as int),
        ensures
            r1 == r2,
    {
    }
}

impl ExactCoverProblem {
    /// The names of a set of option handles.
    pub open spec fn name_set(&self, t: Set<usize>) -> Set<Seq<char>> {
        t.map(|o: usize| self.options@[o as int]@)
    }

    /// The handles of the options named in `s`.
    pub open spec fn handle_set(&self, s: Set<Seq<char>>) -> Set<usize> {
        Set::new(|o: usize| o < self.inc.n_opts() && s.contains(self.options@[o as int]@))
    }

    proof fn lemma_name_unique(&self, o1: usize, o2: usize)
        requires
            self.wf(),
            o1 < self.inc.n_opts(),
            o2 < self.inc.n_opts(),
            self.options@[o1 as int]@ == self.options@[o2 as int]@,
        ensures
            o1 == o2,
    {
        assert(names_view(self.options@)[o1 as int] == names_view(self.options@)[o2 as int]);
    }

    /// A listed option is one of the problem's options.
    proof fn lemma_listed_is_option(&self, i: int, x: Seq<char>) -> (o: usize)
        requires
            self.wf(),
            0 <= i < self.declarations@.2.len(),
            listed_options(self.declarations@.2, i).contains(x),
        ensures
            o < self.inc.n_opts(),
            self.options@[o as int]@ == x,
    {
        let cb = self.declarations@.2;
        assert(names_view(self.items@).len() == cb.len());
        assert(self.inc.covered_by.len() as nat == self.inc.n_items());
        let hs = self.inc.covered_by@[i]@;
        assert(self.option_names(hs) == listed_options(cb, i));
        let m = choose|m: int| 0 <= m < listed_options(cb, i).len() && listed_options(cb, i)[m] == x;
        assert(self.option_names(hs)[m] == self.options@[hs[m] as int]@);
        assert(self.inc.options_of(i as usize) == hs);
        hs[m]
    }

    proof fn lemma_solution_names_cover(&self, t: Set<usize>)
        requires
            self.wf(),
            self.inc.is_solution(t),
        ensures
            is_cover(self.declarations@.0, self.declarations@.1, self.declarations@.2, self.name_set(t)),
    {
        let (ri, ro, cb) = self.declarations@;
        let inc = self.inc;
        let st = self.name_set(t);
        assert(names_view(self.items@).len() == cb.len());
        assert(inc.covered_by.len() as nat == inc.n_items());
        assert(self.option_names(inc.required@).len() == names_view(ro).len());
        assert forall|x: Seq<char>| #[trigger] st.contains(x) implies is_declared_option(cb, x) by {
            let o = choose|o: usize| t.contains(o) && self.options@[o as int]@ == x;
        }
        assert forall|i: int, x1: Seq<char>, x2: Seq<char>|
            0 <= i < cb.len() && st.contains(x1) && st.contains(x2) && #[trigger] listed_options(
                cb,
                i,
            ).contains(x1) && #[trigger] listed_options(cb, i).contains(x2) implies x1 == x2 by {
            let o1 = choose|o: usize| t.contains(o) && self.options@[o as int]@ == x1;
            let o2 = choose|o: usize| t.contains(o) && self.options@[o as int]@ == x2;
            self.lemma_listed_iff(ri, ro, cb, i, o1);
            self.lemma_listed_iff(ri, ro, cb, i, o2);
            assert(inc.covers_item(o1, i as usize) && inc.covers_item(o2, i as usize));
        }
        assert forall|i: int|
            0 <= i < cb.len() && names_view(ri).contains(#[trigger] cb[i].0@) implies exists|x: Seq<char>|
                st.contains(x) && #[trigger] listed_options(cb, i).contains(x) by {
            assert(inc.is_mandatory(i as usize));
            let o = choose|o: usize| t.contains(o) && #[trigger] inc.covers_item(o, i as usize);
            self.lemma_listed_iff(ri, ro, cb, i, o);
            assert(st.contains(self.options@[o as int]@));
        }
        assert forall|k: int| 0 <= k < ro.len() implies st.contains(#[trigger] ro[k]@) by {
            assert(names_view(ro)[k] == ro[k]@);
            assert(self.option_names(inc.required@)[k] == ro[k]@);
            assert(t.contains(inc.required@[k]));
        }
        assert forall|x: Seq<char>| #[trigger] st.contains(x) implies names_view(ro).contains(x)
            || covers_mandatory_name(ri, cb, x) by {
            let o = choose|o: usize| t.contains(o) && self.options@[o as int]@ == x;
            if inc.required@.contains(o) {
                let k = choose|k: int| 0 <= k < inc.required@.len() && inc.required@[k] == o;
                assert(self.option_names(inc.required@)[k] == x);
                assert(names_view(ro)[k] == x);
            } else {
                let i = choose|i: usize| i < inc.n_items() && inc.is_mandatory(i) && #[trigger] inc.covers_item(o, i);
                self.lemma_listed_iff(ri, ro, cb, i as int, o);
                assert(listed_options(cb, i as int).contains(x));
            }
        }
    }

    proof fn lemma_cover_handles(&self, s: Set<Seq<char>>)
        requires
            self.wf(),
            is_cover(self.declarations@.0, self.declarations@.1, self.declarations@.2, s),
        ensures
            self.inc.is_solution(self.handle_set(s)),
            self.name_set(self.handle_set(s)) == s,
    {
        let (ri, ro, cb) = self.declarations@;
        let inc = self.inc;
        let t = self.handle_set(s);
        assert(names_view(self.items@).len() == cb.len());
        assert(inc.covered_by.len() as nat == inc.n_items());
        assert(self.option_names(inc.required@).len() == names_view(ro).len());
        assert forall|x: Seq<char>| #[trigger] s.contains(x) implies self.name_set(t).contains(x) by {
            let i = choose|i: int| 0 <= i < cb.len() && #[trigger] listed_options(cb, i).contains(x);
            let o = self.lemma_listed_is_option(i, x);
            assert(t.contains(o));
        }
        assert(self.name_set(t) =~= s);
        assert forall|o1: usize, o2: usize, i: usize|
            t.contains(o1) && t.contains(o2) && #[trigger] inc.covers_item(o1, i)
                && #[trigger] inc.covers_item(o2, i) implies o1 == o2 by {
            assert(inc.items_of(o1).contains(i));
            let k = choose|k: int| 0 <= k < inc.items_of(o1).len() && inc.items_of(o1)[k] == i;
            assert(i < inc.n_items());
            self.lemma_listed_iff(ri, ro, cb, i as int, o1);
            self.lemma_listed_iff(ri, ro, cb, i as int, o2);
            self.lemma_name_unique(o1, o2);
        }
        assert forall|i: usize| i < inc.n_items() && #[trigger] inc.is_mandatory(i) implies exists|o: usize|
            t.contains(o) && #[trigger] inc.covers_item(o, i) by {
            assert(names_view(ri).contains(cb[i as int].0@));
            let x = choose|x: Seq<char>| s.contains(x) && #[trigger] listed_options(cb, i as int).contains(x);
            let o = self.lemma_listed_is_option(i as int, x);
            self.lemma_listed_iff(ri, ro, cb, i as int, o);
            assert(t.contains(o));
        }
        assert forall|k: int| 0 <= k < inc.required@.len() implies t.contains(#[trigger] inc.required@[k]) by {
            assert(self.option_names(inc.required@)[k] == names_view(ro)[k]);
            assert(s.contains(ro[k]@));
        }
        assert forall|o: usize| #[trigger] t.contains(o) implies inc.required@.contains(o)
            || inc.covers_mandatory(o) by {
            let x = self.options@[o as int]@;
            if names_view(ro).contains(x) {
                let k = choose|k: int| 0 <= k < names_view(ro).len() && names_view(ro)[k] == x;
                assert(self.option_names(inc.required@)[k] == x);
                self.lemma_name_unique(o, inc.required@[k]);
                assert(inc.required@[k] == o);
            } else {
                let i = choose|i: int|
                    0 <= i < cb.len() && names_view(ri).contains(cb[i].0@) && #[trigger] listed_options(
                        cb,
                        i,
                    ).contains(x);
                self.lemma_listed_iff(ri, ro, cb, i, o);
                assert(inc.is_mandatory(i as usize));
                assert(inc.covers_item(o, i as usize));
            }
        }
    }

    /// Naming the options is a one-to-one map from the solutions over
    /// handles onto the exact covers of the declarations.
    pub proof fn lemma_names_correspond(&self)
        requires
            self.wf(),
        ensures
            self.inc.solutions().map(|t: Set<usize>| self.name_set(t)) == self.named_covers(),
            self.named_covers().finite(),
            self.named_covers().len() == self.inc.solutions().len(),
    {
        let f = |t: Set<usize>| self.name_set(t);
        let sols = self.inc.solutions();
        assert(self.inc.covers.len() as nat == self.inc.n_opts());
        self.inc.lemma_extensions_finite(Seq::empty());
        assert(self.inc.extensions(Seq::empty()) =~= sols);
        assert forall|x: Set<Seq<char>>| #[trigger] sols.map(f).contains(x) <==> self.named_covers().contains(x) by {
            if sols.map(f).contains(x) {
                let t = choose|t: Set<usize>| sols.contains(t) && f(t) == x;
                self.lemma_solution_names_cover(t);
            }
            if self.named_covers().contains(x) {
                self.lemma_cover_handles(x);
                assert(sols.contains(self.handle_set(x)));
            }
        }
        assert(sols.map(f) =~= self.named_covers());
        assert forall|t1: Set<usize>, t2: Set<usize>|
            sols.contains(t1) && sols.contains(t2) && #[trigger] f(t1) == #[trigger] f(t2) implies t1 == t2 by {
            assert forall|o: usize| t1.contains(o) implies t2.contains(o) by {
                assert(f(t2).contains(self.options@[o as int]@));
                let o2 = choose|o2: usize| t2.contains(o2) && self.options@[o2 as int]@ == self.options@[o as int]@;
                self.lemma_name_unique(o, o2);
            }
            assert forall|o: usize| t2.contains(o) implies t1.contains(o) by {
                assert(f(t1).contains(self.options@[o as int]@));
                let o1 = choose|o1: usize| t1.contains(o1) && self.options@[o1 as int]@ == self.options@[o as int]@;
                self.lemma_name_unique(o, o1);
            }
            assert(t1 =~= t2);
        }
        vstd::set_lib::lemma_map_size(sols, self.named_covers(), f);
    }
}

} // verus!
