//! A toy reduction: items are single characters, and an option, given as a
//! string, covers the items named by its characters.
use crate::exact_cover::{
    covers_mandatory_name, declared_items, find_name, has_duplicate_item, has_duplicate_option,
    has_empty_id, has_undeclared_item, has_undeclared_option, is_cover, is_declared_option,
    listed_options, names_view, ExactCoverProblem, ExactCoverSolution, MalformedInstance,
};
use crate::text::push_char;
use vstd::prelude::*;

verus! {

/// The problem: mandatory and optional item names, and the options.
pub struct BasicExampleProblem<'a> {
    pub required_items: Vec<&'a str>,
    pub optional_items: Vec<&'a str>,
    pub options: Vec<&'a str>,
}

/// A solution: the selected options.
pub struct BasicExampleSolution {
    pub selected_options: Vec<String>,
}

pub open spec fn strs(v: Seq<&str>) -> Seq<Seq<char>> {
    v.map_values(|s: &str| s@)
}

/// Option `option` covers item `item`: the item is one character of it.
pub open spec fn char_covers(option: Seq<char>, item: Seq<char>) -> bool {
    item.len() == 1 && option.contains(item[0])
}

/// Some option of `sel` covers `item`.
pub open spec fn covered_by_some(sel: Seq<Seq<char>>, item: Seq<char>) -> bool {
    exists|k: int| 0 <= k < sel.len() && char_covers(sel[k], item)
}

/// `sel` solves the problem: its options are options of the problem, none
/// twice; each mandatory item is covered by exactly one of them and each
/// optional item by at most one.
pub open spec fn solves(b: &BasicExampleProblem, sel: Seq<Seq<char>>) -> bool {
    &&& forall|k: int| 0 <= k < sel.len() ==> strs(b.options@).contains(#[trigger] sel[k])
    &&& sel.no_duplicates()
    &&& forall|t: int|
        0 <= t < b.required_items@.len() ==> covered_by_some(sel, #[trigger] b.required_items@[t]@)
    &&& forall|t: int, k1: int, k2: int|
        0 <= t < b.required_items@.len() && 0 <= k1 < sel.len() && 0 <= k2 < sel.len()
            && #[trigger] char_covers(sel[k1], b.required_items@[t]@) && #[trigger] char_covers(
            sel[k2],
            b.required_items@[t]@,
        ) ==> k1 == k2
    &&& forall|t: int, k1: int, k2: int|
        0 <= t < b.optional_items@.len() && 0 <= k1 < sel.len() && 0 <= k2 < sel.len()
            && #[trigger] char_covers(sel[k1], b.optional_items@[t]@) && #[trigger] char_covers(
            sel[k2],
            b.optional_items@[t]@,
        ) ==> k1 == k2
}

/// The items named by the characters of an option, one string each.
fn get_items_which_can_be_covered_by_option(option_name: &str) -> (r: Vec<String>)
    ensures
        r@.len() == option_name@.len(),
        forall|k: int| 0 <= k < r@.len() ==> (#[trigger] r@[k])@ == seq![option_name@[k]],
{
    let n = option_name.unicode_len();
    let mut r: Vec<String> = Vec::new();
    let mut k: usize = 0;
    while k < n
        invariant
            n == option_name@.len(),
            k <= n,
            r@.len() == k,
            forall|k2: int| 0 <= k2 < k ==> (#[trigger] r@[k2])@ == seq![option_name@[k2]],
        decreases n - k,
    {
        let mut s = String::new();
        push_char(&mut s, option_name.get_char(k));
        proof {
            assert(s@ =~= seq![option_name@[k as int]]);
        }
        r.push(s);
        k = k + 1;
    }
    r
}

/// The mandatory items followed by the optional ones.
pub open spec fn all_items(b: &BasicExampleProblem) -> Seq<Seq<char>> {
    strs(b.required_items@) + strs(b.optional_items@)
}

/// The declarations of the problem: each item with the options that cover
/// it, in the order of the options.
fn declarations(b: &BasicExampleProblem) -> (cb: Vec<(String, Vec<String>)>)
    requires
        b.required_items@.len() + b.optional_items@.len() <= usize::MAX,
    ensures
        cb@.len() == all_items(b).len(),
        forall|i: int| 0 <= i < cb@.len() ==> (#[trigger] cb@[i]).0@ == all_items(b)[i],
        forall|i: int, name: Seq<char>|
            0 <= i < cb@.len() ==> (#[trigger] listed_options(cb@, i).contains(name) <==> (strs(
                b.options@,
            ).contains(name) && char_covers(name, all_items(b)[i]))),
        strs(b.options@).no_duplicates() ==> forall|i: int|
            0 <= i < cb@.len() ==> (#[trigger] listed_options(cb@, i)).no_duplicates(),
{
    let n_opts = b.options.len();
    let mut option_items: Vec<Vec<String>> = Vec::new();
    let mut q: usize = 0;
    while q < n_opts
        invariant
            n_opts == b.options@.len(),
            q <= n_opts,
            option_items@.len() == q,
            forall|q2: int, x: Seq<char>|
                0 <= q2 < q ==> (#[trigger] names_view(option_items@[q2]@).contains(x) <==> char_covers(
                    b.options@[q2]@,
                    x,
                )),
        decreases n_opts - q,
    {
        let its = get_items_which_can_be_covered_by_option(b.options[q]);
        proof {
            let o = b.options@[q as int]@;
            assert forall|x: Seq<char>| #[trigger] names_view(its@).contains(x) <==> char_covers(o, x) by {
                if names_view(its@).contains(x) {
                    let k = choose|k: int| 0 <= k < its@.len() && names_view(its@)[k] == x;
                    assert(its@[k]@ == seq![o[k]]);
                    assert(o.contains(x[0]));
                }
                if char_covers(o, x) {
                    let k = choose|k: int| 0 <= k < o.len() && o[k] == x[0];
                    assert(its@[k]@ == seq![o[k]]);
                    assert(x =~= seq![o[k]]);
                    assert(names_view(its@)[k] == x);
                }
            }
        }
        option_items.push(its);
        q = q + 1;
    }
    let ghost items = all_items(b);
    let n_req = b.required_items.len();
    let n_all = n_req + b.optional_items.len();
    let mut cb: Vec<(String, Vec<String>)> = Vec::new();
    let mut i: usize = 0;
    while i < n_all
        invariant
            n_opts == b.options@.len(),
            n_req == b.required_items@.len(),
            n_all == items.len(),
            items == all_items(b),
            i <= n_all,
            option_items@.len() == n_opts,
            forall|q2: int, x: Seq<char>|
                0 <= q2 < n_opts ==> (#[trigger] names_view(option_items@[q2]@).contains(x)
                    <==> char_covers(b.options@[q2]@, x)),
            cb@.len() == i,
            forall|i2: int| 0 <= i2 < i ==> (#[trigger] cb@[i2]).0@ == items[i2],
            forall|i2: int, name: Seq<char>|
                0 <= i2 < i ==> (#[trigger] listed_options(cb@, i2).contains(name) <==> (strs(
                    b.options@,
                ).contains(name) && char_covers(name, items[i2]))),
            strs(b.options@).no_duplicates() ==> forall|i2: int|
                0 <= i2 < i ==> (#[trigger] listed_options(cb@, i2)).no_duplicates(),
        decreases n_all - i,
    {
        let x: &str = if i < n_req {
            b.required_items[i]
        } else {
            b.optional_items[i - n_req]
        };
        assert(x@ == items[i as int]);
        let xs = x.to_owned();
        let mut list: Vec<String> = Vec::new();
        let mut q: usize = 0;
        while q < n_opts
            invariant
                n_opts == b.options@.len(),
                q <= n_opts,
                option_items@.len() == n_opts,
                forall|q2: int, y: Seq<char>|
                    0 <= q2 < n_opts ==> (#[trigger] names_view(option_items@[q2]@).contains(y)
                        <==> char_covers(b.options@[q2]@, y)),
                forall|name: Seq<char>|
                    #[trigger] names_view(list@).contains(name) <==> exists|q2: int|
                        0 <= q2 < q && b.options@[q2]@ == name && char_covers(name, xs@),
                strs(b.options@).no_duplicates() ==> names_view(list@).no_duplicates(),
            decreases n_opts - q,
        {
            let ghost before = list@;
            if find_name(&option_items[q], &xs).is_some() {
                list.push(b.options[q].to_owned());
                proof {
                    assert(names_view(list@) =~= names_view(before).push(b.options@[q as int]@));
                    if strs(b.options@).no_duplicates() {
                        let nl = names_view(list@);
                        assert forall|a: int, c: int| 0 <= a < c < nl.len() implies nl[a] != nl[c] by {
                            if c == before.len() && nl[a] == nl[c] {
                                assert(names_view(before).contains(nl[a]));
                                let q2 = choose|q2: int|
                                    0 <= q2 < q && b.options@[q2]@ == nl[a] && char_covers(nl[a], xs@);
                                assert(strs(b.options@)[q2] == strs(b.options@)[q as int]);
                            } else if c < before.len() {
                                assert(names_view(before)[a] == nl[a]);
                                assert(names_view(before)[c] == nl[c]);
                            }
                        }
                    }
                }
            }
            proof {
                assert forall|name: Seq<char>| #[trigger] names_view(list@).contains(name) <==> exists|q2: int|
                    0 <= q2 < q + 1 && b.options@[q2]@ == name && char_covers(name, xs@) by {
                    if names_view(list@).contains(name) {
                        if names_view(before).contains(name) {
                            let q2 = choose|q2: int| 0 <= q2 < q && b.options@[q2]@ == name && char_covers(name, xs@);
                        } else {
                            let k = choose|k: int| 0 <= k < names_view(list@).len() && names_view(list@)[k] == name;
                            assert(k == before.len());
                            assert(char_covers(name, xs@));
                        }
                    }
                    if exists|q2: int| 0 <= q2 < q + 1 && b.options@[q2]@ == name && char_covers(name, xs@) {
                        let q2 = choose|q2: int| 0 <= q2 < q + 1 && b.options@[q2]@ == name && char_covers(name, xs@);
                        if q2 < q {
                            assert(names_view(before).contains(name));
                            let k = choose|k: int| 0 <= k < before.len() && names_view(before)[k] == name;
                            assert(names_view(list@)[k] == name);
                        } else {
                            assert(names_view(option_items@[q2]@).contains(xs@));
                            assert(names_view(list@)[before.len() as int] == name);
                        }
                    }
                }
            }
            q = q + 1;
        }
        let ghost lv = list@;
        let ghost cb0 = cb@;
        cb.push((xs, list));
        proof {
            assert forall|i2: int| 0 <= i2 < i implies #[trigger] cb@[i2] == cb0[i2] by {}
            assert forall|i2: int| 0 <= i2 < i implies listed_options(cb@, i2) == listed_options(cb0, i2) by {
                assert(cb@[i2] == cb0[i2]);
            }
            assert(cb@[i as int].1@ == lv);
            assert forall|name: Seq<char>| #[trigger] listed_options(cb@, i as int).contains(name) <==> (strs(
                b.options@,
            ).contains(name) && char_covers(name, items[i as int])) by {
                if strs(b.options@).contains(name) && char_covers(name, items[i as int]) {
                    let q2 = choose|q2: int| 0 <= q2 < b.options@.len() && strs(b.options@)[q2] == name;
                    assert(b.options@[q2]@ == name);
                }
                if listed_options(cb@, i as int).contains(name) {
                    let q2 = choose|q2: int| 0 <= q2 < n_opts && b.options@[q2]@ == name && char_covers(name, xs@);
                    assert(strs(b.options@)[q2] == name);
                }
            }
            assert(listed_options(cb@, i as int) == names_view(lv));
            if strs(b.options@).no_duplicates() {
                assert forall|i2: int| 0 <= i2 < i + 1 implies (#[trigger] listed_options(cb@, i2)).no_duplicates() by {
                    if i2 < i {
                        assert(listed_options(cb@, i2) == listed_options(cb0, i2));
                    }
                }
            }
            assert forall|i2: int, name: Seq<char>| 0 <= i2 < i + 1 implies (#[trigger] listed_options(
                cb@,
                i2,
            ).contains(name) <==> (strs(b.options@).contains(name) && char_covers(name, items[i2]))) by {
                if i2 < i {
                    assert(listed_options(cb@, i2) == listed_options(cb0, i2));
                    assert(listed_options(cb0, i2).contains(name) <==> (strs(b.options@).contains(name)
                        && char_covers(name, items[i2])));
                }
            }
        }
        i = i + 1;
    }
    cb
}

/// No name is empty, no item is named twice, and no option is given twice.
pub open spec fn well_formed(b: &BasicExampleProblem) -> bool {
    &&& forall|k: int| 0 <= k < all_items(b).len() ==> (#[trigger] all_items(b)[k]).len() > 0
    &&& all_items(b).no_duplicates()
    &&& forall|q: int| 0 <= q < b.options@.len() ==> (#[trigger] b.options@[q])@.len() > 0
    &&& strs(b.options@).no_duplicates()
}

/// The declarations `d` (mandatory items, required options, and each item
/// with its options) are those of `b`.
pub open spec fn declares_basic(
    b: &BasicExampleProblem,
    d: (Seq<String>, Seq<String>, Seq<(String, Vec<String>)>),
) -> bool {
    &&& names_view(d.0) == strs(b.required_items@)
    &&& d.1.len() == 0
    &&& declared_items(d.2) == all_items(b)
    &&& forall|i: int, name: Seq<char>|
        0 <= i < d.2.len() ==> (#[trigger] listed_options(d.2, i).contains(name) <==> (strs(
            b.options@,
        ).contains(name) && char_covers(name, all_items(b)[i])))
}

/// From a solution of a well-formed problem, the options that cover a
/// mandatory item form an exact cover of its declarations.
proof fn lemma_solution_gives_cover(
    b: &BasicExampleProblem,
    d: (Seq<String>, Seq<String>, Seq<(String, Vec<String>)>),
    sel: Seq<Seq<char>>,
)
    requires
        well_formed(b),
        declares_basic(b, d),
        solves(b, sel),
    ensures
        exists|c: Set<Seq<char>>| is_cover(d.0, d.1, d.2, c),
{
    let (ri, ro, cb) = d;
    let items = all_items(b);
    let nr = b.required_items@.len();
    let c = Set::new(
        |x: Seq<char>| sel.contains(x) && exists|i: int| 0 <= i < nr && char_covers(x, items[i]),
    );
    assert(declared_items(cb).len() == cb.len());
    assert forall|i: int| 0 <= i < cb.len() implies #[trigger] cb[i].0@ == items[i] by {
        assert(declared_items(cb)[i] == cb[i].0@);
    }
    assert forall|i: int| 0 <= i < cb.len() && names_view(ri).contains(#[trigger] cb[i].0@) implies i < nr by {
        let t = choose|t: int| 0 <= t < names_view(ri).len() && names_view(ri)[t] == cb[i].0@;
        assert(strs(b.required_items@)[t] == items[t]);
    }
    assert forall|x: Seq<char>| #[trigger] c.contains(x) implies is_declared_option(cb, x) by {
        let i = choose|i: int| 0 <= i < nr && char_covers(x, items[i]);
        let k = choose|k: int| 0 <= k < sel.len() && sel[k] == x;
        assert(strs(b.options@).contains(sel[k]));
        assert(listed_options(cb, i).contains(x));
    }
    assert forall|i: int, x1: Seq<char>, x2: Seq<char>|
        0 <= i < cb.len() && c.contains(x1) && c.contains(x2) && #[trigger] listed_options(cb, i).contains(x1)
            && #[trigger] listed_options(cb, i).contains(x2) implies x1 == x2 by {
        let k1 = choose|k: int| 0 <= k < sel.len() && sel[k] == x1;
        let k2 = choose|k: int| 0 <= k < sel.len() && sel[k] == x2;
        if i < nr {
            assert(items[i] == b.required_items@[i]@);
            assert(char_covers(sel[k1], b.required_items@[i]@));
            assert(char_covers(sel[k2], b.required_items@[i]@));
        } else {
            let t = i - nr;
            assert(items[i] == b.optional_items@[t]@);
            assert(char_covers(sel[k1], b.optional_items@[t]@));
            assert(char_covers(sel[k2], b.optional_items@[t]@));
        }
    }
    assert forall|i: int| 0 <= i < cb.len() && names_view(ri).contains(#[trigger] cb[i].0@) implies exists|
        x: Seq<char>,
    | c.contains(x) && #[trigger] listed_options(cb, i).contains(x) by {
        assert(i < nr);
        assert(items[i] == b.required_items@[i]@);
        assert(covered_by_some(sel, b.required_items@[i]@));
        let k = choose|k: int| 0 <= k < sel.len() && char_covers(sel[k], b.required_items@[i]@);
        assert(sel.contains(sel[k]));
        assert(c.contains(sel[k]));
        assert(listed_options(cb, i).contains(sel[k]));
    }
    assert forall|x: Seq<char>| #[trigger] c.contains(x) implies names_view(ro).contains(x)
        || covers_mandatory_name(ri, cb, x) by {
        let i = choose|i: int| 0 <= i < nr && char_covers(x, items[i]);
        let k = choose|k: int| 0 <= k < sel.len() && sel[k] == x;
        assert(strs(b.options@).contains(sel[k]));
        assert(listed_options(cb, i).contains(x));
        assert(names_view(ri)[i] == cb[i].0@);
    }
    assert(is_cover(ri, ro, cb, c));
}

/// The problem `p` stands for `b`: its items are the mandatory items then
/// the optional ones, an option covers the items named by its characters,
/// every option is one of `b`'s, and no option is required.
pub open spec fn encodes_basic(b: &BasicExampleProblem, p: &ExactCoverProblem) -> bool {
    &&& p.inc.n_items() == all_items(b).len()
    &&& forall|i: usize|
        i < p.inc.n_items() ==> (#[trigger] p.inc.is_mandatory(i) <==> i < b.required_items@.len())
    &&& forall|o: usize, i: usize|
        o < p.inc.n_opts() && i < p.inc.n_items() ==> (#[trigger] p.inc.covers_item(o, i)
            <==> char_covers(p.options@[o as int]@, all_items(b)[i as int]))
    &&& forall|o: int| 0 <= o < p.inc.n_opts() ==> strs(b.options@).contains(#[trigger] p.options@[o]@)
    &&& p.inc.required@.len() == 0
}

/// Builds the exact cover problem of `b`.
fn convert_to_exact_cover_problem(b: &BasicExampleProblem) -> (r: Result<
    ExactCoverProblem,
    MalformedInstance,
>)
    requires
        b.required_items@.len() + b.optional_items@.len() <= usize::MAX,
    ensures
        r matches Ok(p) ==> p.wf() && encodes_basic(b, &p) && declares_basic(b, p.declarations@),
        well_formed(b) ==> r is Ok,
{
    let cb = declarations(b);
    let mut ri: Vec<String> = Vec::new();
    let mut k: usize = 0;
    while k < b.required_items.len()
        invariant
            k <= b.required_items@.len(),
            ri@.len() == k,
            forall|k2: int| 0 <= k2 < k ==> (#[trigger] ri@[k2])@ == b.required_items@[k2]@,
        decreases b.required_items@.len() - k,
    {
        ri.push(b.required_items[k].to_owned());
        k = k + 1;
    }
    let ghost riv = ri@;
    let ghost cbv = cb@;
    let ro: Vec<String> = Vec::new();
    let r = ExactCoverProblem::new(ri, ro, cb);
    proof {
        let items = all_items(b);
        let nr = b.required_items@.len();
        assert(names_view(riv) =~= strs(b.required_items@));
        assert(declared_items(cbv) =~= items);
        if well_formed(b) {
            let ro0 = Seq::<String>::empty();
            assert(!has_empty_id(riv, ro0, cbv)) by {
                assert forall|k: int| 0 <= k < riv.len() implies (#[trigger] riv[k])@.len() != 0 by {
                    assert(items[k] == riv[k]@);
                }
                assert forall|i: int| 0 <= i < cbv.len() implies (#[trigger] cbv[i]).0@.len() != 0 by {
                    assert(declared_items(cbv)[i] == cbv[i].0@);
                }
                assert forall|i: int, m: int| 0 <= i < cbv.len() && 0 <= m < cbv[i].1@.len() implies (
                #[trigger] cbv[i].1@[m])@.len() != 0 by {
                    let x = cbv[i].1@[m]@;
                    assert(listed_options(cbv, i)[m] == x);
                    assert(listed_options(cbv, i).contains(x));
                    let q = choose|q: int| 0 <= q < b.options@.len() && strs(b.options@)[q] == x;
                    assert(b.options@[q]@ == x);
                }
            }
            assert(!has_duplicate_item(riv, cbv)) by {
                assert forall|a: int, c: int| 0 <= a < c < names_view(riv).len() implies names_view(riv)[a]
                    != names_view(riv)[c] by {
                    assert(items[a] == names_view(riv)[a] && items[c] == names_view(riv)[c]);
                }
            }
            assert(!has_undeclared_item(riv, cbv)) by {
                assert forall|k: int| 0 <= k < riv.len() implies declared_items(cbv).contains(#[trigger] riv[k]@) by {
                    assert(items[k] == riv[k]@);
                }
            }
            assert(!has_duplicate_option(ro0, cbv)) by {
                assert(names_view(ro0) =~= Seq::<Seq<char>>::empty());
            }
            assert(!has_undeclared_option(ro0, cbv));
            if r is Err {
                let e = r->Err_0;
                assert(r == Err::<ExactCoverProblem, MalformedInstance>(e));
                match e {
                    MalformedInstance::EmptyId => {},
                    MalformedInstance::DuplicateItem => {},
                    MalformedInstance::UndeclaredItem => {},
                    MalformedInstance::DuplicateOption => {},
                    MalformedInstance::UndeclaredOption => {},
                }
            }
        }
    }
    proof {
        if r is Ok {
            let p = r->Ok_0;
            let items = all_items(b);
            let nr = b.required_items@.len();
            assert(names_view(riv) =~= strs(b.required_items@));
            assert(names_view(p.items@).len() == cbv.len());
            assert(declared_items(cbv) =~= items);
            assert(!has_duplicate_item(riv, cbv));
            assert forall|i: usize| i < p.inc.n_items() implies (#[trigger] p.inc.is_mandatory(i) <==> i
                < nr) by {
                assert(p.inc.mandatory@[i as int] == names_view(riv).contains(cbv[i as int].0@));
                if i < nr {
                    assert(strs(b.required_items@)[i as int] == items[i as int]);
                } else if names_view(riv).contains(cbv[i as int].0@) {
                    let t = choose|t: int| 0 <= t < nr && strs(b.required_items@)[t] == items[i as int];
                    assert(items[t] == items[i as int]);
                }
            }
            assert forall|o: usize, i: usize|
                o < p.inc.n_opts() && i < p.inc.n_items() implies (#[trigger] p.inc.covers_item(o, i)
                <==> char_covers(p.options@[o as int]@, items[i as int])) by {
                p.lemma_listed_iff(riv, Seq::empty(), cbv, i as int, o);
                let name = p.options@[o as int]@;
                assert(is_declared_option(cbv, name));
                let i2 = choose|i2: int| 0 <= i2 < cbv.len() && #[trigger] listed_options(cbv, i2).contains(name);
                assert(strs(b.options@).contains(name));
            }
            assert forall|o: int| 0 <= o < p.inc.n_opts() implies strs(b.options@).contains(
                #[trigger] p.options@[o]@,
            ) by {
                let name = p.options@[o]@;
                assert(is_declared_option(cbv, name));
                let i2 = choose|i2: int| 0 <= i2 < cbv.len() && #[trigger] listed_options(cbv, i2).contains(name);
            }
            assert(p.option_names(p.inc.required@).len() == 0);
            assert(names_view(riv).len() == nr);
            assert(declares_basic(b, p.declarations@));
        }
    }
    r
}

/// The options of a solution of the exact cover problem of `b`.
fn convert_to_basic_example_solution(solution: ExactCoverSolution) -> (r: BasicExampleSolution)
    ensures
        r.selected_options@ == solution.selected_options@,
{
    BasicExampleSolution { selected_options: solution.selected_options }
}

/// Solves `b`: a solution, if the problem is well formed and has one.
pub fn solve_basic_example_with_exact_cover(b: &BasicExampleProblem) -> (r: Option<
    BasicExampleSolution,
>)
    requires
        b.required_items@.len() + b.optional_items@.len() <= usize::MAX,
    ensures
        r matches Some(s) ==> solves(b, names_view(s.selected_options@)),
        well_formed(b) && (exists|sel: Seq<Seq<char>>| solves(b, sel)) ==> r is Some,
{
    let p = match convert_to_exact_cover_problem(b) {
        Ok(p) => p,
        Err(_) => {
            return None;
        },
    };
    let sol = match p.solve() {
        Some(sol) => sol,
        None => {
            proof {
                if well_formed(b) && (exists|sel: Seq<Seq<char>>| solves(b, sel)) {
                    let sel = choose|sel: Seq<Seq<char>>| solves(b, sel);
                    lemma_solution_gives_cover(b, p.declarations@, sel);
                    let c = choose|c: Set<Seq<char>>|
                        is_cover(p.declarations@.0, p.declarations@.1, p.declarations@.2, c);
                    p.lemma_names_correspond();
                    assert(p.named_covers().contains(c));
                    vstd::set_lib::lemma_set_empty_equivalency_len(p.named_covers());
                }
            }
            return None;
        },
    };
    let r = convert_to_basic_example_solution(sol);
    proof {
        let names = names_view(r.selected_options@);
        let v = choose|v: Seq<usize>|
            #![trigger p.option_names(v)]
            p.inc.is_solution(v.to_set()) && v.no_duplicates() && names_view(sol.selected_options@)
                == p.option_names(v);
        let inc = p.inc;
        let items = all_items(b);
        assert(names == p.option_names(v));
        assert forall|k: int| 0 <= k < v.len() implies #[trigger] v[k] < inc.n_opts() by {
            assert(v.to_set().contains(v[k]));
        }
        assert forall|k: int| 0 <= k < names.len() implies strs(b.options@).contains(#[trigger] names[k]) by {
            assert(names[k] == p.options@[v[k] as int]@);
        }
        assert forall|a: int, c: int| 0 <= a < c < names.len() implies names[a] != names[c] by {
            assert(names_view(p.options@)[v[a] as int] == names[a]);
            assert(names_view(p.options@)[v[c] as int] == names[c]);
        }
        assert(inc.covered_by.len() as nat == inc.n_items());
        assert forall|t: int| 0 <= t < b.required_items@.len() implies covered_by_some(
            names,
            #[trigger] b.required_items@[t]@,
        ) by {
            assert(items[t] == b.required_items@[t]@);
            assert(inc.is_mandatory(t as usize));
            let o = choose|o: usize| v.to_set().contains(o) && #[trigger] inc.covers_item(o, t as usize);
            let k = choose|k: int| 0 <= k < v.len() && v[k] == o;
            assert(names[k] == p.options@[o as int]@);
            assert(char_covers(names[k], b.required_items@[t]@));
        }
        assert forall|i: int, k1: int, k2: int|
            0 <= i < items.len() && 0 <= k1 < names.len() && 0 <= k2 < names.len() && char_covers(
                names[k1],
                items[i],
            ) && char_covers(names[k2], items[i]) implies k1 == k2 by {
            assert(names[k1] == p.options@[v[k1] as int]@);
            assert(names[k2] == p.options@[v[k2] as int]@);
            assert(inc.covers_item(v[k1], i as usize));
            assert(inc.covers_item(v[k2], i as usize));
            assert(v.to_set().contains(v[k1]) && v.to_set().contains(v[k2]));
        }
        assert forall|t: int, k1: int, k2: int|
            0 <= t < b.required_items@.len() && 0 <= k1 < names.len() && 0 <= k2 < names.len()
                && #[trigger] char_covers(names[k1], b.required_items@[t]@) && #[trigger] char_covers(
                names[k2],
                b.required_items@[t]@,
            ) implies k1 == k2 by {
            assert(items[t] == b.required_items@[t]@);
        }
        assert forall|t: int, k1: int, k2: int|
            0 <= t < b.optional_items@.len() && 0 <= k1 < names.len() && 0 <= k2 < names.len()
                && #[trigger] char_covers(names[k1], b.optional_items@[t]@) && #[trigger] char_covers(
                names[k2],
                b.optional_items@[t]@,
            ) implies k1 == k2 by {
            assert(items[b.required_items@.len() + t] == b.optional_items@[t]@);
        }
    }
    Some(r)
}

} // verus!
