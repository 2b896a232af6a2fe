//! Enumeration of an action's parameter bindings, pruned by its static
//! precondition literals.
//!
//! A binding gives each parameter a value from its (type-restricted)
//! domain; it is written as the tuple of domain indices, one per parameter
//! in declaration order. The enumeration yields exactly the bindings under
//! which every decidable static literal is in the initial state, in
//! row-major (lexicographic) order, and abandons the walk once its tick
//! budget is spent.

use vstd::prelude::*;
use crate::text::str_eq;
use crate::types::{Sym, Term};

verus! {

/// A ground atom by its characters: predicate and arguments.
pub type AtomView = (Seq<char>, Seq<Seq<char>>);

pub open spec fn strs(v: Seq<Sym>) -> Seq<Seq<char>> {
    v.map(|i: int, s: Sym| s@)
}

pub open spec fn atom_views(v: Seq<(Sym, Vec<Sym>)>) -> Seq<AtomView> {
    v.map(|i: int, a: (Sym, Vec<Sym>)| (a.0@, strs(a.1@)))
}

/// The position of the first parameter named `v`, or -1 when none is.
pub open spec fn param_pos(params: Seq<(Sym, Sym)>, v: Seq<char>) -> int
    decreases params.len(),
{
    if params.len() == 0 {
        -1
    } else {
        let r = param_pos(params.drop_last(), v);
        if r >= 0 {
            r
        } else if params.last().0@ == v {
            params.len() - 1
        } else {
            -1
        }
    }
}

/// The values of a binding, by domain index, one per parameter.
pub open spec fn vals_of(t: Seq<usize>, domains: Seq<Vec<Sym>>) -> Seq<Seq<char>> {
    Seq::new(t.len(), |i: int| domains[i]@[t[i] as int]@)
}

/// A term under a binding: a parameter reads its value, a constant is
/// itself, and a variable that names no parameter stays as written.
pub open spec fn term_val(t: Term, params: Seq<(Sym, Sym)>, vals: Seq<Seq<char>>) -> Seq<char> {
    match t {
        Term::Const(c) => c@,
        Term::Var(v) => {
            let p = param_pos(params, v@);
            if p >= 0 {
                vals[p]
            } else {
                v@
            }
        },
    }
}

pub open spec fn lit_args(args: Seq<Term>, params: Seq<(Sym, Sym)>, vals: Seq<Seq<char>>) -> Seq<
    Seq<char>,
> {
    args.map(|i: int, t: Term| term_val(t, params, vals))
}

/// Whether a literal, under a binding, is an atom of the initial state.
pub open spec fn lit_holds(
    lit: (Sym, Vec<Term>),
    params: Seq<(Sym, Sym)>,
    vals: Seq<Seq<char>>,
    init: Seq<AtomView>,
) -> bool {
    init.contains((lit.0@, lit_args(lit.1@, params, vals)))
}

pub open spec fn has_var(args: Seq<Term>) -> bool {
    exists|i: int| 0 <= i < args.len() && (#[trigger] args[i]) is Var
}

pub open spec fn all_known(args: Seq<Term>, params: Seq<(Sym, Sym)>) -> bool {
    forall|i: int|
        0 <= i < args.len() && (#[trigger] args[i]) is Var ==> param_pos(params, args[i]->Var_0@)
            >= 0
}

/// A literal that the enumeration decides: it has a variable, and every
/// variable is a parameter.
pub open spec fn decidable(lit: (Sym, Vec<Term>), params: Seq<(Sym, Sym)>) -> bool {
    has_var(lit.1@) && all_known(lit.1@, params)
}

/// A literal over constants only: it decides the whole action at once.
pub open spec fn ground_lit(lit: (Sym, Vec<Term>)) -> bool {
    !has_var(lit.1@)
}

/// Whether every literal over constants only is in the initial state.
pub open spec fn action_live(
    lits: Seq<(Sym, Vec<Term>)>,
    params: Seq<(Sym, Sym)>,
    init: Seq<AtomView>,
) -> bool {
    forall|q: int|
        0 <= q < lits.len() && ground_lit(#[trigger] lits[q]) ==> lit_holds(
            lits[q],
            params,
            Seq::empty(),
            init,
        )
}

/// Whether every decidable literal holds under the binding `t`.
pub open spec fn static_ok(
    t: Seq<usize>,
    params: Seq<(Sym, Sym)>,
    domains: Seq<Vec<Sym>>,
    lits: Seq<(Sym, Vec<Term>)>,
    init: Seq<AtomView>,
) -> bool {
    forall|q: int|
        0 <= q < lits.len() && decidable(#[trigger] lits[q], params) ==> lit_holds(
            lits[q],
            params,
            vals_of(t, domains),
            init,
        )
}

/// Whether `t` picks one value from each domain.
pub open spec fn in_product(t: Seq<usize>, domains: Seq<Vec<Sym>>) -> bool {
    &&& t.len() == domains.len()
    &&& forall|i: int| 0 <= i < t.len() ==> #[trigger] t[i] < domains[i].len()
}

/// Lexicographic order of bindings, the parameters read in `order`.
pub open spec fn lex_lt_by(a: Seq<usize>, b: Seq<usize>, order: Seq<usize>) -> bool {
    exists|k: int|
        0 <= k < order.len() && a[order[k] as int] < b[order[k] as int] && forall|i: int|
            0 <= i < k ==> a[order[i] as int] == b[order[i] as int]
}

pub open spec fn identity(n: nat) -> Seq<usize> {
    Seq::new(n, |i: int| i as usize)
}

pub open spec fn sorted_by(r: Seq<Seq<usize>>, order: Seq<usize>) -> bool {
    forall|i: int, j: int| 0 <= i < j < r.len() ==> lex_lt_by(#[trigger] r[i], #[trigger] r[j], order)
}

/// The bindings that the enumeration yields, described directly: in
/// row-major order, exactly those that pick a value from every domain and
/// satisfy every decidable static literal (none when a literal over
/// constants only fails).
pub open spec fn surviving(
    r: Seq<Seq<usize>>,
    params: Seq<(Sym, Sym)>,
    domains: Seq<Vec<Sym>>,
    lits: Seq<(Sym, Vec<Term>)>,
    init: Seq<AtomView>,
) -> bool {
    &&& sorted_by(r, identity(domains.len()))
    &&& forall|t: Seq<usize>|
        r.contains(t) <==> (in_product(t, domains) && action_live(lits, params, init) && static_ok(
            t,
            params,
            domains,
            lits,
            init,
        ))
}

/// The first parameter named `v`.
fn find_param(params: &Vec<(Sym, Sym)>, v: &Sym) -> (r: Option<usize>)
    ensures
        r is None <==> param_pos(params@, v@) < 0,
        r matches Some(i) ==> i == param_pos(params@, v@) && i < params.len(),
{
    let mut i: usize = 0;
    while i < params.len()
        invariant
            i <= params.len(),
            param_pos(params@.subrange(0, i as int), v@) == -1,
        decreases params.len() - i,
    {
        let ghost pre = params@.subrange(0, i as int);
        assert(params@.subrange(0, i + 1).drop_last() =~= pre);
        if str_eq(params[i].0.as_str(), v.as_str()) {
            proof { lemma_param_pos_prefix(params@, v@, i + 1); }
            return Some(i);
        }
        i = i + 1;
    }
    assert(params@.subrange(0, i as int) =~= params@);
    None
}

/// A prefix that holds the first match decides the position.
proof fn lemma_param_pos_prefix(params: Seq<(Sym, Sym)>, v: Seq<char>, k: int)
    requires
        0 <= k <= params.len(),
        param_pos(params.subrange(0, k), v) >= 0,
    ensures
        param_pos(params, v) == param_pos(params.subrange(0, k), v),
    decreases params.len() - k,
{
    if k < params.len() {
        assert(params.subrange(0, k + 1).drop_last() =~= params.subrange(0, k));
        lemma_param_pos_prefix(params, v, k + 1);
    } else {
        assert(params.subrange(0, k) =~= params);
    }
}

/// Whether a term names a parameter whose value `idx` has set.
pub open spec fn bound_ok(t: Term, params: Seq<(Sym, Sym)>, domains: Seq<Vec<Sym>>, idx: Seq<usize>) -> bool {
    match t {
        Term::Var(v) => {
            let p = param_pos(params, v@);
            p >= 0 ==> idx[p] < domains[p].len()
        },
        Term::Const(_) => true,
    }
}

/// The arguments of a literal under the binding `idx`.
fn subst(args: &Vec<Term>, params: &Vec<(Sym, Sym)>, domains: &Vec<Vec<Sym>>, idx: &Vec<usize>) -> (r: Vec<Sym>)
    requires
        params.len() == domains.len(),
        idx.len() == domains.len(),
        forall|i: int| 0 <= i < args.len() ==> bound_ok(#[trigger] args@[i], params@, domains@, idx@),
    ensures
        strs(r@) == lit_args(args@, params@, vals_of(idx@, domains@)),
{
    let mut r: Vec<Sym> = Vec::new();
    let mut i: usize = 0;
    while i < args.len()
        invariant
            i <= args.len(),
            r.len() == i,
            params.len() == domains.len(),
            idx.len() == domains.len(),
            forall|k: int| 0 <= k < args.len() ==> bound_ok(#[trigger] args@[k], params@, domains@, idx@),
            forall|k: int| 0 <= k < i ==> (#[trigger] r@[k])@ == term_val(args@[k], params@, vals_of(idx@, domains@)),
        decreases args.len() - i,
    {
        assert(bound_ok(args@[i as int], params@, domains@, idx@));
        let s = match &args[i] {
            Term::Const(c) => c.clone(),
            Term::Var(v) => match find_param(params, v) {
                Some(p) => domains[p][idx[p]].clone(),
                None => v.clone(),
            },
        };
        r.push(s);
        i = i + 1;
    }
    assert(strs(r@) =~= lit_args(args@, params@, vals_of(idx@, domains@)));
    r
}

/// Whether two lists of symbols hold the same characters.
fn strs_eq(a: &Vec<Sym>, b: &Vec<Sym>) -> (r: bool)
    ensures
        r == (strs(a@) == strs(b@)),
{
    if a.len() != b.len() {
        assert(strs(a@).len() != strs(b@).len());
        return false;
    }
    let mut i: usize = 0;
    while i < a.len()
        invariant
            i <= a.len(),
            a.len() == b.len(),
            forall|k: int| 0 <= k < i ==> (#[trigger] a@[k])@ == b@[k]@,
        decreases a.len() - i,
    {
        if !str_eq(a[i].as_str(), b[i].as_str()) {
            assert(strs(a@)[i as int] != strs(b@)[i as int]);
            return false;
        }
        i = i + 1;
    }
    assert(strs(a@) =~= strs(b@));
    true
}

/// Whether two lists of symbols hold the same characters.
pub(crate) fn strs_eq_pub(a: &Vec<Sym>, b: &Vec<Sym>) -> (r: bool)
    ensures
        r == (strs(a@) == strs(b@)),
{
    strs_eq(a, b)
}

/// Whether the atom `(pred, args)` is in `init`.
pub(crate) fn atom_in(init: &Vec<(Sym, Vec<Sym>)>, pred: &Sym, args: &Vec<Sym>) -> (r: bool)
    ensures
        r == atom_views(init@).contains((pred@, strs(args@))),
{
    let ghost target: AtomView = (pred@, strs(args@));
    let mut i: usize = 0;
    while i < init.len()
        invariant
            i <= init.len(),
            target == (pred@, strs(args@)),
            forall|k: int| 0 <= k < i ==> #[trigger] atom_views(init@)[k] != target,
        decreases init.len() - i,
    {
        if str_eq(init[i].0.as_str(), pred.as_str()) && strs_eq(&init[i].1, args) {
            assert(atom_views(init@)[i as int] == target);
            return true;
        }
        assert(atom_views(init@)[i as int] != target);
        i = i + 1;
    }
    assert(!atom_views(init@).contains(target));
    false
}

/// Whether a literal holds under the binding `idx`.
fn lit_check(
    lit: &(Sym, Vec<Term>),
    params: &Vec<(Sym, Sym)>,
    domains: &Vec<Vec<Sym>>,
    idx: &Vec<usize>,
    init: &Vec<(Sym, Vec<Sym>)>,
) -> (r: bool)
    requires
        params.len() == domains.len(),
        idx.len() == domains.len(),
        forall|i: int| 0 <= i < lit.1.len() ==> bound_ok(#[trigger] lit.1@[i], params@, domains@, idx@),
    ensures
        r == lit_holds(*lit, params@, vals_of(idx@, domains@), atom_views(init@)),
{
    let args = subst(&lit.1, params, domains, idx);
    atom_in(init, &lit.0, &args)
}

pub open spec fn tuples(v: Seq<Vec<usize>>) -> Seq<Seq<usize>> {
    v.map(|i: int, t: Vec<usize>| t@)
}

/// `order` lists the parameters `0..n` once each, and `at` gives each
/// parameter's place in it.
pub open spec fn perm_ok(order: Seq<usize>, at: Seq<usize>, n: nat) -> bool {
    &&& order.len() == n
    &&& at.len() == n
    &&& forall|k: int| 0 <= k < n ==> #[trigger] order[k] < n && at[order[k] as int] == k
    &&& forall|p: int| 0 <= p < n ==> #[trigger] at[p] < n && order[at[p] as int] == p
}

/// `lvl[q]` is a place in the walk by which every variable of the
/// decidable literal `q` is bound.
pub open spec fn levels_ok(
    lvl: Seq<usize>,
    lits: Seq<(Sym, Vec<Term>)>,
    params: Seq<(Sym, Sym)>,
    at: Seq<usize>,
) -> bool {
    &&& lvl.len() == lits.len()
    &&& forall|q: int|
        0 <= q < lits.len() && decidable(#[trigger] lits[q], params) ==> {
            &&& lvl[q] < params.len()
            &&& forall|i: int|
                0 <= i < lits[q].1.len() && (#[trigger] lits[q].1@[i]) is Var ==> at[param_pos(
                    params,
                    lits[q].1@[i]->Var_0@,
                ) as int] <= lvl[q]
        }
}

/// Whether two bindings agree on the first `j` parameters of the walk.
pub open spec fn agree(t: Seq<usize>, u: Seq<usize>, order: Seq<usize>, j: int) -> bool {
    forall|i: int| 0 <= i < j ==> t[#[trigger] order[i] as int] == u[order[i] as int]
}

/// Whether the decidable literals checked at places `lo..hi` of the walk
/// hold under `idx`.
pub open spec fn checked(
    lo: int,
    hi: int,
    idx: Seq<usize>,
    params: Seq<(Sym, Sym)>,
    domains: Seq<Vec<Sym>>,
    lits: Seq<(Sym, Vec<Term>)>,
    lvl: Seq<usize>,
    init: Seq<AtomView>,
) -> bool {
    forall|q: int|
        0 <= q < lits.len() && decidable(#[trigger] lits[q], params) && lo <= lvl[q] < hi
            ==> lit_holds(lits[q], params, vals_of(idx, domains), init)
}

/// The ticks the walk spends below place `j` of `idx`, from the value `d`
/// of the parameter placed there on: one for the node itself, and those of
/// each child whose literals hold.
pub open spec fn span(
    j: int,
    idx: Seq<usize>,
    d: int,
    order: Seq<usize>,
    params: Seq<(Sym, Sym)>,
    domains: Seq<Vec<Sym>>,
    lits: Seq<(Sym, Vec<Term>)>,
    lvl: Seq<usize>,
    init: Seq<AtomView>,
) -> nat
    decreases domains.len() - j, domains[order[j] as int].len() - d,
{
    if j < 0 || j >= domains.len() || d < 0 || d >= domains[order[j] as int].len() {
        1
    } else {
        let kid = idx.update(order[j] as int, d as usize);
        let here = if checked(j, j + 1, kid, params, domains, lits, lvl, init) {
            span(j + 1, kid, 0, order, params, domains, lits, lvl, init)
        } else {
            0
        };
        here + span(j, idx, d + 1, order, params, domains, lits, lvl, init)
    }
}

proof fn lemma_param_pos_range(params: Seq<(Sym, Sym)>, v: Seq<char>)
    ensures
        param_pos(params, v) < params.len(),
        param_pos(params, v) >= 0 ==> params[param_pos(params, v)].0@ == v,
    decreases params.len(),
{
    if params.len() > 0 {
        lemma_param_pos_range(params.drop_last(), v);
    }
}

/// A decidable literal reads only the parameters bound by its place.
proof fn lemma_holds_by_prefix(
    q: int,
    t: Seq<usize>,
    u: Seq<usize>,
    order: Seq<usize>,
    at: Seq<usize>,
    params: Seq<(Sym, Sym)>,
    domains: Seq<Vec<Sym>>,
    lits: Seq<(Sym, Vec<Term>)>,
    lvl: Seq<usize>,
    init: Seq<AtomView>,
)
    requires
        params.len() == domains.len(),
        perm_ok(order, at, params.len()),
        levels_ok(lvl, lits, params, at),
        0 <= q < lits.len(),
        decidable(lits[q], params),
        t.len() == params.len(),
        u.len() == params.len(),
        agree(t, u, order, lvl[q] + 1),
    ensures
        lit_holds(lits[q], params, vals_of(t, domains), init) == lit_holds(
            lits[q],
            params,
            vals_of(u, domains),
            init,
        ),
{
    let args = lits[q].1@;
    let vt = vals_of(t, domains);
    let vu = vals_of(u, domains);
    assert forall|i: int| 0 <= i < args.len() implies term_val(args[i], params, vt) == term_val(
        args[i],
        params,
        vu,
    ) by {
        if args[i] is Var {
            let v = args[i]->Var_0@;
            lemma_param_pos_range(params, v);
            let p = param_pos(params, v);
            assert(all_known(args, params));
            assert(p >= 0);
            let k = at[p] as int;
            assert(order[k] == p);
            assert(k <= lvl[q]);
            assert(t[order[k] as int] == u[order[k] as int]);
        }
    }
    assert(lit_args(args, params, vt) =~= lit_args(args, params, vu));
}

proof fn lemma_span_pos(
    j: int,
    idx: Seq<usize>,
    d: int,
    order: Seq<usize>,
    params: Seq<(Sym, Sym)>,
    domains: Seq<Vec<Sym>>,
    lits: Seq<(Sym, Vec<Term>)>,
    lvl: Seq<usize>,
    init: Seq<AtomView>,
)
    ensures
        span(j, idx, d, order, params, domains, lits, lvl, init) >= 1,
    decreases domains.len() - j, domains[order[j] as int].len() - d,
{
    if j < 0 || j >= domains.len() || d < 0 || d >= domains[order[j] as int].len() {
    } else {
        lemma_span_pos(j, idx, d + 1, order, params, domains, lits, lvl, init);
    }
}

/// Every variable of a literal checked at place `j` is bound by then.
proof fn lemma_bound_at(
    q: int,
    j: int,
    d: usize,
    idx0: Seq<usize>,
    order: Seq<usize>,
    at: Seq<usize>,
    params: Seq<(Sym, Sym)>,
    domains: Seq<Vec<Sym>>,
    lits: Seq<(Sym, Vec<Term>)>,
    lvl: Seq<usize>,
)
    requires
        params.len() == domains.len(),
        perm_ok(order, at, params.len()),
        levels_ok(lvl, lits, params, at),
        0 <= q < lits.len(),
        decidable(lits[q], params),
        lvl[q] == j,
        0 <= j < params.len(),
        idx0.len() == params.len(),
        forall|i: int| 0 <= i < j ==> idx0[#[trigger] order[i] as int] < domains[order[i] as int].len(),
        d < domains[order[j] as int].len(),
    ensures
        forall|i: int|
            0 <= i < lits[q].1.len() ==> bound_ok(
                #[trigger] lits[q].1@[i],
                params,
                domains,
                idx0.update(order[j] as int, d),
            ),
{
    let kid = idx0.update(order[j] as int, d);
    assert forall|i: int| 0 <= i < lits[q].1.len() implies bound_ok(
        #[trigger] lits[q].1@[i],
        params,
        domains,
        kid,
    ) by {
        let t = lits[q].1@[i];
        if t is Var {
            lemma_param_pos_range(params, t->Var_0@);
            let pp = param_pos(params, t->Var_0@);
            assert(all_known(lits[q].1@, params));
            assert(pp >= 0);
            let k = at[pp] as int;
            assert(order[k] == pp);
            assert(k <= j);
            if k < j {
                assert(idx0[order[k] as int] < domains[order[k] as int].len());
                assert(at[order[k] as int] == k);
                assert(at[order[j] as int] == j);
                assert(kid[pp] == idx0[pp]);
            } else {
                assert(pp == order[j] as int);
            }
        }
    }
}

/// What a walk below place `j` of `idx` adds: the surviving bindings that
/// agree with `idx` on the places before `j`, in the walk's order.
pub open spec fn grown(
    new: Seq<Seq<usize>>,
    j: int,
    idx: Seq<usize>,
    order: Seq<usize>,
    params: Seq<(Sym, Sym)>,
    domains: Seq<Vec<Sym>>,
    lits: Seq<(Sym, Vec<Term>)>,
    init: Seq<AtomView>,
) -> bool {
    &&& sorted_by(new, order)
    &&& forall|t: Seq<usize>|
        new.contains(t) <==> (in_product(t, domains) && agree(t, idx, order, j) && static_ok(
            t,
            params,
            domains,
            lits,
            init,
        ))
}

/// Binding the parameter at place `j` to `d` extends the agreement by one
/// place.
proof fn lemma_agree_step(
    t: Seq<usize>,
    idx: Seq<usize>,
    order: Seq<usize>,
    at: Seq<usize>,
    n: nat,
    j: int,
    d: usize,
)
    requires
        perm_ok(order, at, n),
        0 <= j < n,
        t.len() == n,
        idx.len() == n,
    ensures
        agree(t, idx.update(order[j] as int, d), order, j + 1) <==> (agree(t, idx, order, j)
            && t[order[j] as int] == d),
        agree(idx.update(order[j] as int, d), idx, order, j),
{
    let p = order[j] as int;
    let kid = idx.update(p, d);
    assert forall|i: int| 0 <= i < j implies #[trigger] order[i] as int != p by {
        assert(at[order[i] as int] == i);
        assert(at[order[j] as int] == j);
    }
    if agree(t, kid, order, j + 1) {
        assert forall|i: int| 0 <= i < j implies t[#[trigger] order[i] as int] == idx[order[i] as int] by {
            assert(t[order[i] as int] == kid[order[i] as int]);
        }
        assert(t[order[j] as int] == kid[order[j] as int]);
    }
    if agree(t, idx, order, j) && t[p] == d {
        assert forall|i: int| 0 <= i < j + 1 implies t[#[trigger] order[i] as int] == kid[order[i] as int] by {
            if i < j {
                assert(t[order[i] as int] == idx[order[i] as int]);
            }
        }
    }
    assert forall|i: int| 0 <= i < j implies kid[#[trigger] order[i] as int] == idx[order[i] as int] by {}
}

/// Walk the bindings below place `j` of `idx`, appending each survivor to
/// `out`; one tick per node, and `false` once the ticks run out.
fn walk(
    j: usize,
    order: &Vec<usize>,
    at: &Vec<usize>,
    params: &Vec<(Sym, Sym)>,
    domains: &Vec<Vec<Sym>>,
    lits: &Vec<(Sym, Vec<Term>)>,
    dec: &Vec<bool>,
    lvl: &Vec<usize>,
    init: &Vec<(Sym, Vec<Sym>)>,
    idx: &mut Vec<usize>,
    budget: &mut u64,
    out: &mut Vec<Vec<usize>>,
) -> (ok: bool)
    requires
        params.len() == domains.len(),
        perm_ok(order@, at@, params.len() as nat),
        levels_ok(lvl@, lits@, params@, at@),
        dec.len() == lits.len(),
        forall|q: int| 0 <= q < lits.len() ==> dec@[q] == decidable(#[trigger] lits@[q], params@),
        j <= params.len(),
        old(idx).len() == params.len(),
        forall|i: int|
            0 <= i < j ==> old(idx)@[#[trigger] order@[i] as int] < domains@[order@[i] as int].len(),
        checked(0, j as int, old(idx)@, params@, domains@, lits@, lvl@, atom_views(init@)),
    ensures
        final(idx)@ == old(idx)@,
        old(out)@.len() <= final(out)@.len(),
        final(out)@.subrange(0, old(out)@.len() as int) == old(out)@,
        ok <==> span(j as int, old(idx)@, 0, order@, params@, domains@, lits@, lvl@, atom_views(init@))
            <= *old(budget),
        ok ==> *final(budget) == *old(budget) - span(
            j as int,
            old(idx)@,
            0,
            order@,
            params@,
            domains@,
            lits@,
            lvl@,
            atom_views(init@),
        ),
        ok ==> grown(
            tuples(final(out)@.subrange(old(out)@.len() as int, final(out)@.len() as int)),
            j as int,
            old(idx)@,
            order@,
            params@,
            domains@,
            lits@,
            atom_views(init@),
        ),
    decreases params.len() - j,
{
    let ghost idx0 = idx@;
    let ghost b0 = *budget;
    let ghost out0 = out@;
    let ghost n = params.len() as nat;
    let ghost iv = atom_views(init@);
    proof {
        lemma_span_pos(j as int, idx0, 0, order@, params@, domains@, lits@, lvl@, iv);
    }
    if *budget == 0 {
        return false;
    }
    *budget = *budget - 1;
    if j == params.len() {
        let t = idx.clone();
        assert(t@ =~= idx0);
        out.push(t);
        proof {
            let new = tuples(out@.subrange(out0.len() as int, out@.len() as int));
            assert(new =~= seq![idx0]);
            assert(in_product(idx0, domains@)) by {
                assert forall|i: int| 0 <= i < idx0.len() implies #[trigger] idx0[i] < domains@[i].len() by {
                    assert(order@[at@[i] as int] == i);
                    assert(idx0[order@[at@[i] as int] as int] < domains@[order@[at@[i] as int] as int].len());
                }
            }
            assert(static_ok(idx0, params@, domains@, lits@, iv)) by {
                assert forall|q: int| 0 <= q < lits.len() && decidable(#[trigger] lits@[q], params@)
                    implies lit_holds(lits@[q], params@, vals_of(idx0, domains@), iv) by {
                    assert(lvl@[q] < n);
                }
            }
            assert(agree(idx0, idx0, order@, j as int));
            assert forall|u: Seq<usize>|
                new.contains(u) <==> (in_product(u, domains@) && agree(u, idx0, order@, j as int)
                    && static_ok(u, params@, domains@, lits@, iv)) by {
                if new.contains(u) {
                    assert(new[0] == idx0);
                    assert(u == idx0);
                }
                if in_product(u, domains@) && agree(u, idx0, order@, j as int) {
                    assert forall|i: int| 0 <= i < u.len() implies #[trigger] u[i] == idx0[i] by {
                        assert(order@[at@[i] as int] == i);
                        assert(u[order@[at@[i] as int] as int] == idx0[order@[at@[i] as int] as int]);
                    }
                    assert(u =~= idx0);
                    assert(new[0] == idx0);
                }
            }
            assert(out@.subrange(0, out0.len() as int) =~= out0);
        }
        return true;
    }
    let p = order[j];
    let len = domains[p].len();
    let mut d: usize = 0;
    while d < len
        invariant
            params.len() == domains.len(),
            perm_ok(order@, at@, n),
            n == params.len(),
            levels_ok(lvl@, lits@, params@, at@),
            dec.len() == lits.len(),
            forall|q: int| 0 <= q < lits.len() ==> dec@[q] == decidable(#[trigger] lits@[q], params@),
            j < params.len(),
            p == order@[j as int],
            len == domains@[p as int].len(),
            d <= len,
            iv == atom_views(init@),
            idx@ == idx0,
            idx0 == old(idx)@,
            out0 == old(out)@,
            b0 == *old(budget),
            idx0.len() == n,
            forall|i: int| 0 <= i < j ==> idx0[#[trigger] order@[i] as int] < domains@[order@[i] as int].len(),
            checked(0, j as int, idx0, params@, domains@, lits@, lvl@, iv),
            b0 >= 1,
            *budget + 1 + (span(j as int, idx0, 0, order@, params@, domains@, lits@, lvl@, iv) - span(
                j as int,
                idx0,
                d as int,
                order@,
                params@,
                domains@,
                lits@,
                lvl@,
                iv,
            )) == b0,
            out0.len() <= out@.len(),
            out@.subrange(0, out0.len() as int) == out0,
            sorted_by(tuples(out@.subrange(out0.len() as int, out@.len() as int)), order@),
            forall|t: Seq<usize>|
                tuples(out@.subrange(out0.len() as int, out@.len() as int)).contains(t) <==> (
                in_product(t, domains@) && agree(t, idx0, order@, j as int) && t[p as int] < d
                    && static_ok(t, params@, domains@, lits@, iv)),
        decreases len - d,
    {
        let ghost kid = idx0.update(p as int, d);
        let ghost before = out@;
        let ghost bb = *budget;
        let saved = idx[p];
        assert(forall|t: Seq<usize>| #[trigger] tuples(before.subrange(out0.len() as int, before.len() as int)).contains(t)
            ==> in_product(t, domains@) && agree(t, idx0, order@, j as int) && t[p as int] < d);
        assert(sorted_by(tuples(before.subrange(out0.len() as int, before.len() as int)), order@));
        idx.set(p, d);
        assert(idx@ == kid);
        proof {
            lemma_agree_step(idx0, idx0, order@, at@, n, j as int, d);
        }
        // The literals that become decidable at this place.
        let mut good = true;
        let mut q: usize = 0;
        while q < lits.len() && good
            invariant
                q <= lits.len(),
                idx@ == kid,
                kid.len() == n,
                params.len() == domains.len(),
                n == params.len(),
                perm_ok(order@, at@, n),
                levels_ok(lvl@, lits@, params@, at@),
                dec.len() == lits.len(),
                forall|r: int| 0 <= r < lits.len() ==> dec@[r] == decidable(#[trigger] lits@[r], params@),
                j < n,
                p == order@[j as int],
                d < domains@[p as int].len(),
                iv == atom_views(init@),
                forall|i: int| 0 <= i < j ==> idx0[#[trigger] order@[i] as int] < domains@[order@[i] as int].len(),
                kid == idx0.update(p as int, d),
                idx0.len() == n,
                good ==> forall|r: int|
                    0 <= r < q && decidable(#[trigger] lits@[r], params@) && lvl@[r] == j
                        ==> lit_holds(lits@[r], params@, vals_of(kid, domains@), iv),
                !good ==> exists|r: int|
                    0 <= r < lits.len() && decidable(#[trigger] lits@[r], params@) && lvl@[r] == j
                        && !lit_holds(lits@[r], params@, vals_of(kid, domains@), iv),
            decreases lits.len() - q,
        {
            if dec[q] && lvl[q] == j {
                proof {
                    lemma_bound_at(q as int, j as int, d, idx0, order@, at@, params@, domains@, lits@, lvl@);
                }
                if !lit_check(&lits[q], params, domains, idx, init) {
                    good = false;
                }
            }
            q = q + 1;
        }
        proof {
            if good {
                assert forall|r: int|
                    0 <= r < lits.len() && decidable(#[trigger] lits@[r], params@) && j <= lvl@[r] < j + 1
                    implies lit_holds(lits@[r], params@, vals_of(kid, domains@), iv) by {}
            }
        }
        assert(good == checked(j as int, j as int + 1, kid, params@, domains@, lits@, lvl@, iv));
        assert(span(j as int, idx0, d as int, order@, params@, domains@, lits@, lvl@, iv) == (if good {
            span(j as int + 1, kid, 0, order@, params@, domains@, lits@, lvl@, iv)
        } else {
            0
        }) + span(j as int, idx0, d as int + 1, order@, params@, domains@, lits@, lvl@, iv));
        if good {
            proof {
                assert forall|r: int|
                    0 <= r < lits.len() && decidable(#[trigger] lits@[r], params@) && 0 <= lvl@[r] < j + 1
                    implies lit_holds(lits@[r], params@, vals_of(kid, domains@), iv) by {
                    if lvl@[r] < j {
                        assert(agree(kid, idx0, order@, lvl@[r] + 1));
                        lemma_holds_by_prefix(r, kid, idx0, order@, at@, params@, domains@, lits@, lvl@, iv);
                    }
                }
                assert forall|i: int| 0 <= i < j + 1 implies kid[#[trigger] order@[i] as int] < domains@[order@[i] as int].len() by {
                    if i < j {
                        assert(kid[order@[i] as int] == idx0[order@[i] as int]);
                    }
                }
            }
            let ok = walk(j + 1, order, at, params, domains, lits, dec, lvl, init, idx, budget, out);
            if !ok {
                proof {
                    lemma_span_pos(j as int, idx0, d as int + 1, order@, params@, domains@, lits@, lvl@, iv);
                }
                idx.set(p, saved);
                assert(idx@ =~= idx0);
                assert(out0.len() <= before.len() <= out@.len());
                proof {
                    assert(out@.subrange(0, out0.len() as int) =~= before.subrange(0, out0.len() as int));
                }
                return false;
            }
            proof {
                let prev = tuples(before.subrange(out0.len() as int, before.len() as int));
                let kids = tuples(out@.subrange(before.len() as int, out@.len() as int));
                let all = tuples(out@.subrange(out0.len() as int, out@.len() as int));
                assert(out@.subrange(out0.len() as int, out@.len() as int) =~= before.subrange(
                    out0.len() as int,
                    before.len() as int,
                ) + out@.subrange(before.len() as int, out@.len() as int)) by {
                    assert(out@.subrange(0, before.len() as int) == before);
                }
                assert(all =~= prev + kids);
                assert(out@.subrange(0, out0.len() as int) =~= before.subrange(0, out0.len() as int)) by {
                    assert(out@.subrange(0, before.len() as int) == before);
                }
                assert forall|t: Seq<usize>| kids.contains(t) implies t.len() == n && agree(t, idx0, order@, j as int)
                    && t[p as int] == d by {
                    lemma_agree_step(t, idx0, order@, at@, n, j as int, d);
                }
                assert forall|t: Seq<usize>| prev.contains(t) implies t.len() == n && agree(t, idx0, order@, j as int)
                    && t[p as int] < d by {}
                assert forall|a: int, b: int| 0 <= a < b < all.len() implies lex_lt_by(#[trigger] all[a], #[trigger] all[b], order@) by {
                    if a < prev.len() && b >= prev.len() {
                        let x = all[a];
                        let y = all[b];
                        assert(prev.contains(x)) by { assert(prev[a] == x); }
                        assert(kids.contains(y)) by { assert(kids[b - prev.len()] == y); }
                        assert forall|i: int| 0 <= i < j implies x[#[trigger] order@[i] as int] == y[order@[i] as int] by {
                            assert(x[order@[i] as int] == idx0[order@[i] as int]);
                            assert(y[order@[i] as int] == idx0[order@[i] as int]);
                        }
                        assert(x[order@[j as int] as int] < y[order@[j as int] as int]);
                    } else if a >= prev.len() {
                        assert(all[a] == kids[a - prev.len()]);
                        assert(all[b] == kids[b - prev.len()]);
                    } else {
                        assert(all[a] == prev[a]);
                        assert(all[b] == prev[b]);
                    }
                }
                assert forall|t: Seq<usize>|
                    all.contains(t) <==> (in_product(t, domains@) && agree(t, idx0, order@, j as int)
                        && t[p as int] < d + 1 && static_ok(t, params@, domains@, lits@, iv)) by {
                    if all.contains(t) {
                        let k = choose|k: int| 0 <= k < all.len() && all[k] == t;
                        if k < prev.len() {
                            assert(prev[k] == t);
                        } else {
                            assert(kids[k - prev.len()] == t);
                            lemma_agree_step(t, idx0, order@, at@, n, j as int, d);
                        }
                    }
                    if in_product(t, domains@) && agree(t, idx0, order@, j as int) && t[p as int] < d + 1
                        && static_ok(t, params@, domains@, lits@, iv) {
                        if t[p as int] < d {
                            let k = choose|k: int| 0 <= k < prev.len() && prev[k] == t;
                            assert(all[k] == t);
                        } else {
                            lemma_agree_step(t, idx0, order@, at@, n, j as int, d);
                            let k = choose|k: int| 0 <= k < kids.len() && kids[k] == t;
                            assert(all[k + prev.len()] == t);
                        }
                    }
                }
            }
        } else {
            proof {
                assert(out@ == before);
                let r = choose|r: int|
                    0 <= r < lits.len() && decidable(#[trigger] lits@[r], params@) && lvl@[r] == j
                        && !lit_holds(lits@[r], params@, vals_of(kid, domains@), iv);
                assert forall|t: Seq<usize>|
                    tuples(out@.subrange(out0.len() as int, out@.len() as int)).contains(t) <==> (
                    in_product(t, domains@) && agree(t, idx0, order@, j as int) && t[p as int] < d + 1
                        && static_ok(t, params@, domains@, lits@, iv)) by {
                    if in_product(t, domains@) && agree(t, idx0, order@, j as int) && t[p as int] == d
                        && static_ok(t, params@, domains@, lits@, iv) {
                        lemma_agree_step(t, idx0, order@, at@, n, j as int, d);
                        assert(agree(t, kid, order@, lvl@[r] + 1));
                        lemma_holds_by_prefix(r, t, kid, order@, at@, params@, domains@, lits@, lvl@, iv);
                        assert(false);
                    }
                }
            }
        }
        idx.set(p, saved);
        assert(idx@ =~= idx0);
        d = d + 1;
    }
    proof {
        assert forall|t: Seq<usize>| in_product(t, domains@) implies t[p as int] < len by {
            assert(t[p as int] < domains@[p as int].len());
        }
        assert(out@.subrange(0, out0.len() as int) =~= out0);
    }
    true
}

/// The place in the walk by which every parameter that a literal's
/// arguments name is bound: the latest of their places.
pub open spec fn lit_place(args: Seq<Term>, params: Seq<(Sym, Sym)>, at: Seq<usize>) -> int
    decreases args.len(),
{
    if args.len() == 0 {
        0
    } else {
        let r = lit_place(args.drop_last(), params, at);
        let here = match args.last() {
            Term::Var(v) => {
                let p = param_pos(params, v@);
                if p >= 0 {
                    at[p] as int
                } else {
                    0
                }
            },
            Term::Const(_) => 0,
        };
        if here > r {
            here
        } else {
            r
        }
    }
}

pub open spec fn places(lits: Seq<(Sym, Vec<Term>)>, params: Seq<(Sym, Sym)>, at: Seq<usize>) -> Seq<
    usize,
> {
    lits.map(|q: int, lit: (Sym, Vec<Term>)| lit_place(lit.1@, params, at) as usize)
}

proof fn lemma_lit_place(args: Seq<Term>, params: Seq<(Sym, Sym)>, at: Seq<usize>)
    requires
        at.len() == params.len(),
        forall|p: int| 0 <= p < at.len() ==> #[trigger] at[p] < at.len(),
    ensures
        0 <= lit_place(args, params, at),
        params.len() > 0 ==> lit_place(args, params, at) < params.len(),
        forall|i: int|
            0 <= i < args.len() && (#[trigger] args[i]) is Var && param_pos(params, args[i]->Var_0@)
                >= 0 ==> at[param_pos(params, args[i]->Var_0@) as int] <= lit_place(args, params, at),
    decreases args.len(),
{
    if args.len() > 0 {
        let init = args.drop_last();
        lemma_lit_place(init, params, at);
        if args.last() is Var {
            lemma_param_pos_range(params, args.last()->Var_0@);
        }
        assert forall|i: int|
            0 <= i < args.len() && (#[trigger] args[i]) is Var && param_pos(params, args[i]->Var_0@)
                >= 0 implies at[param_pos(params, args[i]->Var_0@) as int] <= lit_place(args, params, at) by {
            if i < args.len() - 1 {
                assert(init[i] == args[i]);
            }
        }
    }
}

fn place_of(args: &Vec<Term>, params: &Vec<(Sym, Sym)>, at: &Vec<usize>) -> (r: usize)
    requires
        at.len() == params.len(),
        forall|p: int| 0 <= p < at.len() ==> #[trigger] at@[p] < at.len(),
    ensures
        r == lit_place(args@, params@, at@),
{
    let mut m: usize = 0;
    let mut i: usize = 0;
    while i < args.len()
        invariant
            i <= args.len(),
            at.len() == params.len(),
            forall|p: int| 0 <= p < at.len() ==> #[trigger] at@[p] < at.len(),
            m == lit_place(args@.subrange(0, i as int), params@, at@),
        decreases args.len() - i,
    {
        assert(args@.subrange(0, i + 1).drop_last() =~= args@.subrange(0, i as int));
        assert(args@.subrange(0, i + 1).last() == args@[i as int]);
        let here: usize = match &args[i] {
            Term::Var(v) => match find_param(params, v) {
                Some(p) => at[p],
                None => 0,
            },
            Term::Const(_) => 0,
        };
        if here > m {
            m = here;
        }
        i = i + 1;
    }
    assert(args@.subrange(0, i as int) =~= args@);
    m
}

/// Whether a literal has a variable, and whether every variable is a
/// parameter.
fn classify(args: &Vec<Term>, params: &Vec<(Sym, Sym)>) -> (r: (bool, bool))
    ensures
        r.0 == has_var(args@),
        r.1 == all_known(args@, params@),
{
    let mut any_var = false;
    let mut known = true;
    let mut i: usize = 0;
    while i < args.len()
        invariant
            i <= args.len(),
            any_var == exists|k: int| 0 <= k < i && (#[trigger] args@[k]) is Var,
            known == forall|k: int|
                0 <= k < i && (#[trigger] args@[k]) is Var ==> param_pos(params@, args@[k]->Var_0@) >= 0,
        decreases args.len() - i,
    {
        if let Term::Var(v) = &args[i] {
            any_var = true;
            if find_param(params, v).is_none() {
                known = false;
            }
        }
        i = i + 1;
    }
    (any_var, known)
}

/// The arguments of a literal over constants only.
fn const_args(args: &Vec<Term>, params: &Vec<(Sym, Sym)>) -> (r: Vec<Sym>)
    requires
        !has_var(args@),
    ensures
        strs(r@) == lit_args(args@, params@, Seq::empty()),
{
    let mut r: Vec<Sym> = Vec::new();
    let mut i: usize = 0;
    while i < args.len()
        invariant
            i <= args.len(),
            r.len() == i,
            !has_var(args@),
            forall|k: int| 0 <= k < i ==> (#[trigger] r@[k])@ == term_val(args@[k], params@, Seq::empty()),
        decreases args.len() - i,
    {
        let s = match &args[i] {
            Term::Const(c) => c.clone(),
            Term::Var(v) => {
                assert(has_var(args@));
                v.clone()
            },
        };
        r.push(s);
        i = i + 1;
    }
    assert(strs(r@) =~= lit_args(args@, params@, Seq::empty()));
    r
}

pub open spec fn zeros(n: nat) -> Seq<usize> {
    Seq::new(n, |i: int| 0usize)
}

/// The ticks a walk in declaration order spends.
pub open spec fn cost(
    params: Seq<(Sym, Sym)>,
    domains: Seq<Vec<Sym>>,
    lits: Seq<(Sym, Vec<Term>)>,
    init: Seq<AtomView>,
) -> nat {
    let n = domains.len();
    span(0, zeros(n), 0, identity(n), params, domains, lits, places(lits, params, identity(n)), init)
}

/// Whether a walk in some parameter order runs out of `budget` ticks:
/// alone, or with one tick more for each surviving binding it hands out.
pub open spec fn reordered_cost_exceeds(
    params: Seq<(Sym, Sym)>,
    domains: Seq<Vec<Sym>>,
    lits: Seq<(Sym, Vec<Term>)>,
    init: Seq<AtomView>,
    budget: u64,
) -> bool {
    let n = domains.len();
    ||| exists|order: Seq<usize>, at: Seq<usize>|
        perm_ok(order, at, n) && #[trigger] span(0, zeros(n), 0, order, params, domains, lits, places(lits, params, at), init) > budget
    ||| exists|order: Seq<usize>, at: Seq<usize>, r: Seq<Seq<usize>>|
        #![trigger span(0, zeros(n), 0, order, params, domains, lits, places(lits, params, at), init), surviving(r, params, domains, lits, init)]
        perm_ok(order, at, n) && surviving(r, params, domains, lits, init) && span(
            0,
            zeros(n),
            0,
            order,
            params,
            domains,
            lits,
            places(lits, params, at),
            init,
        ) + r.len() > budget
}

/// Whether every domain has a value.
pub open spec fn all_nonempty(domains: Seq<Vec<Sym>>) -> bool {
    forall|i: int| 0 <= i < domains.len() ==> (#[trigger] domains[i]).len() > 0
}

/// Walk every binding from place 0 in `order`: the survivors, in the
/// walk's order, and the ticks left.
fn walk_all(
    order: &Vec<usize>,
    at: &Vec<usize>,
    params: &Vec<(Sym, Sym)>,
    domains: &Vec<Vec<Sym>>,
    lits: &Vec<(Sym, Vec<Term>)>,
    dec: &Vec<bool>,
    init: &Vec<(Sym, Vec<Sym>)>,
    budget: u64,
) -> (r: (bool, Vec<Vec<usize>>, u64))
    requires
        params.len() == domains.len(),
        perm_ok(order@, at@, params.len() as nat),
        dec.len() == lits.len(),
        forall|q: int| 0 <= q < lits.len() ==> dec@[q] == decidable(#[trigger] lits@[q], params@),
    ensures
        r.0 <==> span(0, zeros(params.len() as nat), 0, order@, params@, domains@, lits@, places(lits@, params@, at@), atom_views(init@)) <= budget,
        r.0 ==> r.2 == budget - span(0, zeros(params.len() as nat), 0, order@, params@, domains@, lits@, places(lits@, params@, at@), atom_views(init@)),
        r.0 ==> grown(tuples(r.1@), 0, zeros(params.len() as nat), order@, params@, domains@, lits@, atom_views(init@)),
{
    let n = params.len();
    let mut lvl: Vec<usize> = Vec::new();
    let mut q: usize = 0;
    while q < lits.len()
        invariant
            q <= lits.len(),
            lvl.len() == q,
            perm_ok(order@, at@, n as nat),
            n == params.len(),
            forall|r: int| 0 <= r < q ==> lvl@[r] == lit_place(#[trigger] lits@[r].1@, params@, at@),
        decreases lits.len() - q,
    {
        lvl.push(place_of(&lits[q].1, params, at));
        q = q + 1;
    }
    assert(lvl@ =~= places(lits@, params@, at@));
    proof {
        assert forall|r: int| 0 <= r < lits.len() && decidable(#[trigger] lits@[r], params@) implies {
            &&& lvl@[r] < params.len()
            &&& forall|i: int|
                0 <= i < lits@[r].1.len() && (#[trigger] lits@[r].1@[i]) is Var ==> at@[param_pos(
                    params@,
                    lits@[r].1@[i]->Var_0@,
                ) as int] <= lvl@[r]
        } by {
            lemma_lit_place(lits@[r].1@, params@, at@);
            let args = lits@[r].1@;
            let w = choose|i: int| 0 <= i < args.len() && (#[trigger] args[i]) is Var;
            assert(all_known(args, params@));
            lemma_param_pos_range(params@, args[w]->Var_0@);
            assert forall|i: int|
                0 <= i < args.len() && (#[trigger] args[i]) is Var implies at@[param_pos(params@, args[i]->Var_0@) as int]
                    <= lvl@[r] by {
                assert(param_pos(params@, args[i]->Var_0@) >= 0);
            }
        }
    }
    let mut idx: Vec<usize> = Vec::new();
    let mut k: usize = 0;
    while k < n
        invariant
            k <= n,
            idx@ =~= zeros(k as nat),
        decreases n - k,
    {
        idx.push(0);
        k = k + 1;
    }
    let mut left = budget;
    let mut out: Vec<Vec<usize>> = Vec::new();
    let ok = walk(0, order, at, params, domains, lits, dec, &lvl, init, &mut idx, &mut left, &mut out);
    proof {
        assert(out@.subrange(0, out@.len() as int) =~= out@);
    }
    (ok, out, left)
}

/// Whether `a` precedes `b` as a (class, size, index) key.
fn key_less(a: (u8, usize, usize), b: (u8, usize, usize)) -> (r: bool)
    ensures
        r == (a.0 < b.0 || (a.0 == b.0 && (a.1 < b.1 || (a.1 == b.1 && a.2 < b.2)))),
{
    a.0 < b.0 || (a.0 == b.0 && (a.1 < b.1 || (a.1 == b.1 && a.2 < b.2)))
}

/// The greedy most-constrained-variable order: repeatedly take, among the
/// parameters not yet taken, first one that shares a literal with a taken
/// parameter, then one that occurs in a literal at all, then the rest; ties
/// go to the smaller domain, then the earlier parameter. Literals that name
/// every parameter say nothing about the order and are left out. `None`
/// when the order is the declaration order, or when no literal speaks.
fn mcv_order(params: &Vec<(Sym, Sym)>, domains: &Vec<Vec<Sym>>, lits: &Vec<(Sym, Vec<Term>)>, dec: &Vec<bool>) -> (r: Option<Vec<usize>>)
    requires
        params.len() == domains.len(),
        dec.len() == lits.len(),
    ensures
        r matches Some(o) ==> o.len() == params.len() && o@ != identity(params.len() as nat),
{
    let n = params.len();
    if n <= 1 {
        return None;
    }
    let mut any_lit = false;
    let mut lit_vars: Vec<Vec<usize>> = Vec::new();
    let mut q: usize = 0;
    while q < lits.len()
        invariant
            q <= lits.len(),
            dec.len() == lits.len(),
        decreases lits.len() - q,
    {
        if dec[q] {
            any_lit = true;
            let args = &lits[q].1;
            let mut vars: Vec<usize> = Vec::new();
            let mut i: usize = 0;
            while i < args.len()
                invariant
                    i <= args.len(),
                decreases args.len() - i,
            {
                if let Term::Var(v) = &args[i] {
                    if let Some(p) = find_param(params, v) {
                        let mut seen = false;
                        let mut m: usize = 0;
                        while m < vars.len()
                            invariant
                                m <= vars.len(),
                            decreases vars.len() - m,
                        {
                            if vars[m] == p {
                                seen = true;
                            }
                            m = m + 1;
                        }
                        if !seen {
                            vars.push(p);
                        }
                    }
                }
                i = i + 1;
            }
            if vars.len() < n {
                lit_vars.push(vars);
            }
        }
        q = q + 1;
    }
    if !any_lit || lit_vars.len() == 0 {
        return None;
    }
    let mut chosen: Vec<bool> = Vec::new();
    let mut k: usize = 0;
    while k < n
        invariant
            k <= n,
            chosen.len() == k,
        decreases n - k,
    {
        chosen.push(false);
        k = k + 1;
    }
    let mut order: Vec<usize> = Vec::new();
    let mut round: usize = 0;
    while round < n
        invariant
            round <= n,
            chosen.len() == n,
            n == domains.len(),
            order.len() == round,
        decreases n - round,
    {
        let mut best: Option<(u8, usize, usize)> = None;
        let mut p: usize = 0;
        while p < n
            invariant
                p <= n,
                chosen.len() == n,
                n == domains.len(),
            decreases n - p,
        {
            if !chosen[p] {
                let mut occurs = false;
                let mut connected = false;
                let mut l: usize = 0;
                while l < lit_vars.len() && !connected
                    invariant
                        l <= lit_vars.len(),
                        chosen.len() == n,
                    decreases lit_vars.len() - l,
                {
                    let vars = &lit_vars[l];
                    let mut has_p = false;
                    let mut has_chosen = false;
                    let mut m: usize = 0;
                    while m < vars.len()
                        invariant
                            m <= vars.len(),
                            chosen.len() == n,
                        decreases vars.len() - m,
                    {
                        if vars[m] == p {
                            has_p = true;
                        }
                        if vars[m] < n && chosen[vars[m]] {
                            has_chosen = true;
                        }
                        m = m + 1;
                    }
                    if has_p {
                        occurs = true;
                        if has_chosen {
                            connected = true;
                        }
                    }
                    l = l + 1;
                }
                let class: u8 = if connected {
                    0
                } else if occurs {
                    1
                } else {
                    2
                };
                let key = (class, domains[p].len(), p);
                let better = match best {
                    None => true,
                    Some(b) => key_less(key, b),
                };
                if better {
                    best = Some(key);
                }
            }
            p = p + 1;
        }
        match best {
            Some(b) => {
                if b.2 < n {
                    chosen.set(b.2, true);
                }
                order.push(b.2);
            },
            None => {
                return None;
            },
        }
        round = round + 1;
    }
    let mut same = true;
    let mut i: usize = 0;
    while i < n
        invariant
            i <= n,
            order.len() == n,
            same == forall|k: int| 0 <= k < i ==> order@[k] == k,
        decreases n - i,
    {
        if order[i] != i {
            same = false;
        }
        i = i + 1;
    }
    if same {
        return None;
    }
    proof {
        let k = choose|k: int| 0 <= k < n && order@[k] != k;
        assert(identity(n as nat)[k] == k);
    }
    Some(order)
}

/// Every binding of an action's parameters under which each decidable
/// static literal is an atom of `init`, as domain-index tuples in row-major
/// order. A literal over constants only that is not in `init` leaves no
/// binding at all; a literal with a variable that names no parameter is
/// left to the caller. The walk binds the parameters one at a time and
/// checks each literal as soon as all its variables are bound, so a
/// failing literal prunes the whole subtree below it. With `mcv` the walk
/// binds them in the most-constrained-variable order instead and the
/// survivors are sorted back, which yields the same list. Each node visited
/// and, after a reordered walk, each survivor spends one tick; when
/// `budget` ticks do not suffice the walk is abandoned and `None` returned.
pub fn bindings(
    params: &Vec<(Sym, Sym)>,
    domains: &Vec<Vec<Sym>>,
    static_lits: &Vec<(Sym, Vec<Term>)>,
    init: &Vec<(Sym, Vec<Sym>)>,
    mcv: bool,
    budget: u64,
) -> (r: Option<Vec<Vec<usize>>>)
    requires
        params.len() == domains.len(),
    ensures
        r matches Some(bs) ==> surviving(
            tuples(bs@),
            params@,
            domains@,
            static_lits@,
            atom_views(init@),
        ),
        r is None ==> all_nonempty(domains@) && action_live(static_lits@, params@, atom_views(init@)),
        r is None ==> cost(params@, domains@, static_lits@, atom_views(init@)) > budget
            || reordered_cost_exceeds(params@, domains@, static_lits@, atom_views(init@), budget),
        !mcv ==> (r is None <==> (all_nonempty(domains@) && action_live(static_lits@, params@, atom_views(init@))
            && cost(params@, domains@, static_lits@, atom_views(init@)) > budget)),
{
    let n = params.len();
    let ghost iv = atom_views(init@);
    let mut i: usize = 0;
    while i < n
        invariant
            i <= n,
            n == domains.len(),
            forall|k: int| 0 <= k < i ==> (#[trigger] domains@[k]).len() > 0,
        decreases n - i,
    {
        if domains[i].len() == 0 {
            let empty: Vec<Vec<usize>> = Vec::new();
            proof {
                assert(tuples(empty@) =~= Seq::<Seq<usize>>::empty());
                assert forall|t: Seq<usize>| !in_product(t, domains@) by {
                    if in_product(t, domains@) {
                        assert(t[i as int] < domains@[i as int].len());
                    }
                }
            }
            return Some(empty);
        }
        i = i + 1;
    }
    // Classify the literals; one over constants only decides the action.
    let mut dec: Vec<bool> = Vec::new();
    let mut q: usize = 0;
    while q < static_lits.len()
        invariant
            q <= static_lits.len(),
            dec.len() == q,
            iv == atom_views(init@),
            forall|r: int| 0 <= r < q ==> dec@[r] == decidable(#[trigger] static_lits@[r], params@),
            forall|r: int|
                0 <= r < q && ground_lit(#[trigger] static_lits@[r]) ==> lit_holds(
                    static_lits@[r],
                    params@,
                    Seq::empty(),
                    iv,
                ),
        decreases static_lits.len() - q,
    {
        let (any_var, known) = classify(&static_lits[q].1, params);
        if !any_var {
            let consts = const_args(&static_lits[q].1, params);
            if !atom_in(init, &static_lits[q].0, &consts) {
                let empty: Vec<Vec<usize>> = Vec::new();
                proof {
                    assert(tuples(empty@) =~= Seq::<Seq<usize>>::empty());
                    assert(!action_live(static_lits@, params@, iv));
                }
                return Some(empty);
            }
        }
        dec.push(any_var && known);
        q = q + 1;
    }
    if mcv {
        if let Some(order) = mcv_order(params, domains, static_lits, &dec) {
            if let Some(at) = places_of(&order, n) {
                let (ok, found, left) = walk_all(&order, &at, params, domains, static_lits, &dec, init, budget);
                if !ok {
                    proof {
                        assert(perm_ok(order@, at@, n as nat) && span(0, zeros(n as nat), 0, order@, params@, domains@, static_lits@, places(static_lits@, params@, at@), iv) > budget);
                    }
                    return None;
                }
                proof {
                    let ft = tuples(found@);
                    assert forall|a: int, b: int| 0 <= a < b < found.len() implies (#[trigger] found@[a])@ != (#[trigger] found@[b])@ by {
                        assert(lex_lt_by(ft[a], ft[b], order@));
                        if ft[a] == ft[b] {
                            let k = choose|k: int| 0 <= k < order@.len() && ft[a][order@[k] as int] < ft[b][order@[k] as int]
                                && forall|i: int| 0 <= i < k ==> ft[a][order@[i] as int] == ft[b][order@[i] as int];
                        }
                    }
                    assert forall|a: int| 0 <= a < found.len() implies (#[trigger] found@[a]).len() == n by {
                        assert(ft.contains(ft[a]));
                    }
                }
                let back = sort_back(&found, n);
                proof {
                    assert forall|t: Seq<usize>| #[trigger] agree(t, zeros(n as nat), order@, 0) by {}
                    assert(surviving(tuples(back@), params@, domains@, static_lits@, iv));
                }
                // One tick per survivor as it is handed out.
                if back.len() as u64 > left {
                    proof {
                        assert(perm_ok(order@, at@, n as nat) && surviving(tuples(back@), params@, domains@, static_lits@, iv)
                            && span(0, zeros(n as nat), 0, order@, params@, domains@, static_lits@, places(static_lits@, params@, at@), iv)
                            + tuples(back@).len() > budget);
                    }
                    return None;
                }
                return Some(back);
            }
        }
    }
    let mut order: Vec<usize> = Vec::new();
    let mut k: usize = 0;
    while k < n
        invariant
            k <= n,
            order@ =~= identity(k as nat),
        decreases n - k,
    {
        order.push(k);
        k = k + 1;
    }
    assert(perm_ok(order@, order@, n as nat));
    let (ok, out, left) = walk_all(&order, &order, params, domains, static_lits, &dec, init, budget);
    proof {
        assert(forall|t: Seq<usize>| #[trigger] agree(t, zeros(n as nat), identity(n as nat), 0));
    }
    if ok {
        Some(out)
    } else {
        None
    }
}

/// Row-major order is a strict order on bindings of one length: never
/// both ways, transitive, and total on distinct bindings.
proof fn lemma_lex_order(a: Seq<usize>, b: Seq<usize>, c: Seq<usize>, n: nat)
    requires
        a.len() == n,
        b.len() == n,
        c.len() == n,
        n <= usize::MAX,
    ensures
        !lex_lt_by(a, a, identity(n)),
        lex_lt_by(a, b, identity(n)) ==> !lex_lt_by(b, a, identity(n)),
        lex_lt_by(a, b, identity(n)) && lex_lt_by(b, c, identity(n)) ==> lex_lt_by(a, c, identity(n)),
        a != b ==> lex_lt_by(a, b, identity(n)) || lex_lt_by(b, a, identity(n)),
{
    let id = identity(n);
    if lex_lt_by(a, b, id) && lex_lt_by(b, a, id) {
        let k1 = choose|k: int| 0 <= k < id.len() && a[id[k] as int] < b[id[k] as int] && forall|i: int|
            0 <= i < k ==> a[id[i] as int] == b[id[i] as int];
        let k2 = choose|k: int| 0 <= k < id.len() && b[id[k] as int] < a[id[k] as int] && forall|i: int|
            0 <= i < k ==> b[id[i] as int] == a[id[i] as int];
        if k1 < k2 {
            assert(b[id[k1] as int] == a[id[k1] as int]);
        } else if k2 < k1 {
            assert(a[id[k2] as int] == b[id[k2] as int]);
        }
    }
    if lex_lt_by(a, b, id) && lex_lt_by(b, c, id) {
        let k1 = choose|k: int| 0 <= k < id.len() && a[id[k] as int] < b[id[k] as int] && forall|i: int|
            0 <= i < k ==> a[id[i] as int] == b[id[i] as int];
        let k2 = choose|k: int| 0 <= k < id.len() && b[id[k] as int] < c[id[k] as int] && forall|i: int|
            0 <= i < k ==> b[id[i] as int] == c[id[i] as int];
        let k = if k1 < k2 { k1 } else { k2 };
        assert(a[id[k] as int] < c[id[k] as int]);
        assert forall|i: int| 0 <= i < k implies a[id[i] as int] == c[id[i] as int] by {
            assert(a[id[i] as int] == b[id[i] as int]);
            assert(b[id[i] as int] == c[id[i] as int]);
        }
        assert(lex_lt_by(a, c, id));
    }
    if a != b {
        if forall|i: int| 0 <= i < n ==> a[i] == b[i] {
            assert(a =~= b);
        }
        let w = choose|i: int| 0 <= i < n && a[i] != b[i];
        let k = lemma_first_diff(a, b, n, 0, w);
        assert(id[k] == k);
        assert forall|i: int| 0 <= i < k implies a[id[i] as int] == b[id[i] as int] by {
            assert(id[i] == i);
        }
        if a[k] < b[k] {
            assert(lex_lt_by(a, b, id));
        } else {
            assert forall|i: int| 0 <= i < k implies b[id[i] as int] == a[id[i] as int] by {
                assert(id[i] == i);
            }
            assert(lex_lt_by(b, a, id));
        }
    }
}

/// The first place at or after `k` where two bindings differ.
proof fn lemma_first_diff(a: Seq<usize>, b: Seq<usize>, n: nat, k: int, w: int) -> (f: int)
    requires
        a.len() == n,
        b.len() == n,
        0 <= k <= w < n,
        a[w] != b[w],
        forall|i: int| 0 <= i < k ==> a[i] == b[i],
    ensures
        0 <= f < n,
        a[f] != b[f],
        forall|i: int| 0 <= i < f ==> a[i] == b[i],
    decreases w - k,
{
    if a[k] != b[k] {
        k
    } else {
        lemma_first_diff(a, b, n, k + 1, w)
    }
}

/// Two lists strictly sorted in row-major order with the same members are
/// the same list.
proof fn lemma_sorted_unique(r1: Seq<Seq<usize>>, r2: Seq<Seq<usize>>, n: nat)
    requires
        n <= usize::MAX,
        sorted_by(r1, identity(n)),
        sorted_by(r2, identity(n)),
        forall|t: Seq<usize>| r1.contains(t) ==> t.len() == n,
        forall|t: Seq<usize>| r1.contains(t) <==> r2.contains(t),
    ensures
        r1 == r2,
    decreases r1.len(),
{
    let id = identity(n);
    if r1.len() == 0 {
        if r2.len() > 0 {
            assert(r2.contains(r2[0]));
        }
        assert(r1 =~= r2);
    } else {
        assert(r1.contains(r1[0]));
        let k = choose|k: int| 0 <= k < r2.len() && r2[k] == r1[0];
        assert(r2.contains(r2[0]));
        let m = choose|m: int| 0 <= m < r1.len() && r1[m] == r2[0];
        if k > 0 {
            assert(lex_lt_by(r2[0], r2[k], id));
            if m > 0 {
                assert(lex_lt_by(r1[0], r1[m], id));
                assert(r1.contains(r1[m]));
                lemma_lex_order(r1[0], r2[0], r2[0], n);
            } else {
                assert(r1[0] == r2[0]);
                assert(r1.contains(r1[0]));
                lemma_lex_order(r2[0], r2[0], r2[0], n);
            }
        }
        assert(k == 0);
        let t1 = r1.drop_first();
        let t2 = r2.drop_first();
        assert forall|i: int, j: int| 0 <= i < j < t1.len() implies lex_lt_by(#[trigger] t1[i], #[trigger] t1[j], id) by {
            assert(t1[i] == r1[i + 1]);
            assert(t1[j] == r1[j + 1]);
        }
        assert forall|i: int, j: int| 0 <= i < j < t2.len() implies lex_lt_by(#[trigger] t2[i], #[trigger] t2[j], id) by {
            assert(t2[i] == r2[i + 1]);
            assert(t2[j] == r2[j + 1]);
        }
        assert forall|t: Seq<usize>| t1.contains(t) <==> t2.contains(t) by {
            if t1.contains(t) {
                let i = choose|i: int| 0 <= i < t1.len() && t1[i] == t;
                assert(r1[i + 1] == t);
                assert(lex_lt_by(r1[0], r1[i + 1], id));
                assert(r1.contains(r1[0]));
                lemma_lex_order(r1[0], r1[0], r1[0], n);
                assert(t != r1[0]);
                assert(r2.contains(t));
                let j = choose|j: int| 0 <= j < r2.len() && r2[j] == t;
                assert(j != 0);
                assert(t2[j - 1] == t);
            }
            if t2.contains(t) {
                let j = choose|j: int| 0 <= j < t2.len() && t2[j] == t;
                assert(r2[j + 1] == t);
                assert(lex_lt_by(r2[0], r2[j + 1], id));
                assert(r1.contains(r1[0]));
                lemma_lex_order(r1[0], r1[0], r1[0], n);
                assert(t != r2[0]);
                assert(r1.contains(t));
                let i = choose|i: int| 0 <= i < r1.len() && r1[i] == t;
                assert(i != 0);
                assert(t1[i - 1] == t);
            }
        }
        assert forall|t: Seq<usize>| t1.contains(t) implies t.len() == n by {
            let i = choose|i: int| 0 <= i < t1.len() && t1[i] == t;
            assert(r1[i + 1] == t);
            assert(r1.contains(t));
        }
        lemma_sorted_unique(t1, t2, n);
        assert(r1 =~= seq![r1[0]] + t1);
        assert(r2 =~= seq![r2[0]] + t2);
    }
}

/// Row-major comparison of two bindings of one length.
fn lex_less(a: &Vec<usize>, b: &Vec<usize>) -> (r: bool)
    requires
        a.len() == b.len(),
    ensures
        r == lex_lt_by(a@, b@, identity(a.len() as nat)),
{
    let ghost id = identity(a.len() as nat);
    let mut i: usize = 0;
    while i < a.len()
        invariant
            i <= a.len(),
            a.len() == b.len(),
            id == identity(a.len() as nat),
            forall|k: int| 0 <= k < i ==> a@[k] == b@[k],
        decreases a.len() - i,
    {
        if a[i] != b[i] {
            proof {
                assert(id[i as int] == i);
                assert forall|k: int| 0 <= k < i implies a@[id[k] as int] == b@[id[k] as int] by {
                    assert(id[k] == k);
                }
            }
            if a[i] < b[i] {
                return true;
            }
            proof {
                if lex_lt_by(a@, b@, id) {
                    let k = choose|k: int| 0 <= k < id.len() && a@[id[k] as int] < b@[id[k] as int] && forall|m: int|
                        0 <= m < k ==> a@[id[m] as int] == b@[id[m] as int];
                    assert(id[k] == k);
                    if k > i {
                        assert(a@[id[i as int] as int] == b@[id[i as int] as int]);
                    }
                }
            }
            return false;
        }
        i = i + 1;
    }
    proof {
        if lex_lt_by(a@, b@, id) {
            let k = choose|k: int| 0 <= k < id.len() && a@[id[k] as int] < b@[id[k] as int] && forall|m: int|
                0 <= m < k ==> a@[id[m] as int] == b@[id[m] as int];
            assert(id[k] == k);
        }
    }
    false
}

/// Sort distinct bindings of length `n` back into row-major order.
fn sort_back(v: &Vec<Vec<usize>>, n: usize) -> (r: Vec<Vec<usize>>)
    requires
        forall|i: int| 0 <= i < v.len() ==> (#[trigger] v@[i]).len() == n,
        forall|i: int, j: int| 0 <= i < j < v.len() ==> (#[trigger] v@[i])@ != (#[trigger] v@[j])@,
    ensures
        sorted_by(tuples(r@), identity(n as nat)),
        forall|t: Seq<usize>| tuples(r@).contains(t) <==> tuples(v@).contains(t),
{
    let ghost id = identity(n as nat);
    let mut r: Vec<Vec<usize>> = Vec::new();
    let mut i: usize = 0;
    while i < v.len()
        invariant
            i <= v.len(),
            id == identity(n as nat),
            forall|k: int| 0 <= k < v.len() ==> (#[trigger] v@[k]).len() == n,
            forall|a: int, b: int| 0 <= a < b < v.len() ==> (#[trigger] v@[a])@ != (#[trigger] v@[b])@,
            sorted_by(tuples(r@), id),
            forall|k: int| 0 <= k < r.len() ==> (#[trigger] r@[k]).len() == n,
            forall|t: Seq<usize>| tuples(r@).contains(t) <==> tuples(v@.subrange(0, i as int)).contains(t),
        decreases v.len() - i,
    {
        let x = v[i].clone();
        assert(x@ =~= v@[i as int]@);
        let mut pos: usize = 0;
        while pos < r.len() && lex_less(&r[pos], &x)
            invariant
                pos <= r.len(),
                x.len() == n,
                forall|k: int| 0 <= k < r.len() ==> (#[trigger] r@[k]).len() == n,
                id == identity(n as nat),
                forall|k: int| 0 <= k < pos ==> lex_lt_by((#[trigger] r@[k])@, x@, id),
            decreases r.len() - pos,
        {
            pos = pos + 1;
        }
        proof {
            let old_t = tuples(r@);
            assert(!tuples(v@.subrange(0, i as int)).contains(x@)) by {
                if tuples(v@.subrange(0, i as int)).contains(x@) {
                    let k = choose|k: int| 0 <= k < i && tuples(v@.subrange(0, i as int))[k] == x@;
                    assert(v@[k]@ == x@);
                }
            }
            assert(!old_t.contains(x@));
            if pos < r.len() {
                assert(!lex_lt_by(r@[pos as int]@, x@, id));
                assert(old_t.contains(r@[pos as int]@)) by { assert(old_t[pos as int] == r@[pos as int]@); }
                lemma_lex_order(x@, r@[pos as int]@, r@[pos as int]@, n as nat);
                assert(lex_lt_by(x@, r@[pos as int]@, id));
            }
            assert forall|k: int| pos < k < r.len() implies lex_lt_by(x@, #[trigger] r@[k]@, id) by {
                assert(old_t[pos as int] == r@[pos as int]@);
                assert(old_t[k] == r@[k]@);
                lemma_lex_order(x@, r@[pos as int]@, r@[k]@, n as nat);
            }
            assert forall|k: int| 0 <= k < pos implies lex_lt_by(#[trigger] old_t[k], x@, id) by {
                assert(old_t[k] == r@[k]@);
            }
            assert forall|k: int| pos <= k < old_t.len() implies lex_lt_by(x@, #[trigger] old_t[k], id) by {
                assert(old_t[k] == r@[k]@);
            }
        }
        let ghost old_r = r@;
        r.insert(pos, x);
        proof {
            let old_t = tuples(old_r);
            let new_t = tuples(r@);
            assert(new_t =~= old_t.insert(pos as int, x@));
            assert forall|a: int, b: int| 0 <= a < b < new_t.len() implies lex_lt_by(#[trigger] new_t[a], #[trigger] new_t[b], id) by {
                if b < pos {
                    assert(new_t[a] == old_t[a] && new_t[b] == old_t[b]);
                } else if b == pos {
                    assert(new_t[a] == old_t[a]);
                } else if a == pos {
                    assert(new_t[b] == old_t[b - 1]);
                } else if a < pos {
                    assert(new_t[a] == old_t[a] && new_t[b] == old_t[b - 1]);
                } else {
                    assert(new_t[a] == old_t[a - 1] && new_t[b] == old_t[b - 1]);
                }
            }
            assert forall|k: int| 0 <= k < r.len() implies (#[trigger] r@[k]).len() == n by {
                if k < pos {
                    assert(r@[k] == old_r[k]);
                } else if k > pos {
                    assert(r@[k] == old_r[k - 1]);
                }
            }
            let pre = tuples(v@.subrange(0, i as int));
            let pre2 = tuples(v@.subrange(0, i + 1));
            assert(pre2 =~= pre.push(x@));
            assert forall|t: Seq<usize>| new_t.contains(t) <==> pre2.contains(t) by {
                if new_t.contains(t) {
                    let k = choose|k: int| 0 <= k < new_t.len() && new_t[k] == t;
                    if k < pos {
                        assert(old_t[k] == t);
                        assert(old_t.contains(t));
                        let m = choose|m: int| 0 <= m < pre.len() && pre[m] == t;
                        assert(pre2[m] == t);
                    } else if k > pos {
                        assert(old_t[k - 1] == t);
                        assert(old_t.contains(t));
                        let m = choose|m: int| 0 <= m < pre.len() && pre[m] == t;
                        assert(pre2[m] == t);
                    } else {
                        assert(pre2[i as int] == t);
                    }
                }
                if pre2.contains(t) {
                    let m = choose|m: int| 0 <= m < pre2.len() && pre2[m] == t;
                    if m < i {
                        assert(pre[m] == t);
                        assert(old_t.contains(t));
                        let k = choose|k: int| 0 <= k < old_t.len() && old_t[k] == t;
                        if k < pos {
                            assert(new_t[k] == t);
                        } else {
                            assert(new_t[k + 1] == t);
                        }
                    } else {
                        assert(new_t[pos as int] == t);
                    }
                }
            }
        }
        i = i + 1;
    }
    assert(v@.subrange(0, i as int) =~= v@);
    r
}

/// The place of each parameter in `order`, when `order` lists the
/// parameters `0..n` once each.
fn places_of(order: &Vec<usize>, n: usize) -> (r: Option<Vec<usize>>)
    ensures
        r matches Some(at) ==> perm_ok(order@, at@, n as nat),
{
    if order.len() != n {
        return None;
    }
    let mut at: Vec<usize> = Vec::new();
    let mut p: usize = 0;
    while p < n
        invariant
            p <= n,
            at.len() == p,
            forall|k: int| 0 <= k < p ==> at@[k] == n,
        decreases n - p,
    {
        at.push(n);
        p = p + 1;
    }
    let mut k: usize = 0;
    while k < n
        invariant
            k <= n,
            order.len() == n,
            at.len() == n,
            forall|i: int| 0 <= i < k ==> #[trigger] order@[i] < n && at@[order@[i] as int] == i,
            forall|q: int| 0 <= q < n ==> #[trigger] at@[q] == n || (at@[q] < k && order@[at@[q] as int] == q),
        decreases n - k,
    {
        let q = order[k];
        if q >= n || at[q] != n {
            return None;
        }
        at.set(q, k);
        k = k + 1;
    }
    let mut q: usize = 0;
    while q < n
        invariant
            q <= n,
            at.len() == n,
            order.len() == n,
            forall|i: int| 0 <= i < n ==> #[trigger] order@[i] < n && at@[order@[i] as int] == i,
            forall|c: int| 0 <= c < n ==> #[trigger] at@[c] == n || (at@[c] < n && order@[at@[c] as int] == c),
            forall|c: int| 0 <= c < q ==> #[trigger] at@[c] < n,
        decreases n - q,
    {
        if at[q] == n {
            return None;
        }
        q = q + 1;
    }
    Some(at)
}

/// Whatever order the walk binds the parameters in, the bindings come out
/// as one list: two lists that each hold exactly the surviving bindings of
/// an action, in row-major order, are the same list.
pub proof fn law_walk_order_does_not_move_the_list(
    r1: Seq<Seq<usize>>,
    r2: Seq<Seq<usize>>,
    params: Seq<(Sym, Sym)>,
    domains: Seq<Vec<Sym>>,
    lits: Seq<(Sym, Vec<Term>)>,
    init: Seq<AtomView>,
)
    requires
        domains.len() <= usize::MAX,
        surviving(r1, params, domains, lits, init),
        surviving(r2, params, domains, lits, init),
    ensures
        r1 == r2,
{
    lemma_sorted_unique(r1, r2, domains.len());
}

/// The objects of type `ty` in a type table: those its first entry for
/// `ty` lists, none when it has no entry.
pub open spec fn objects_of(table: Seq<(Sym, Vec<Sym>)>, ty: Seq<char>) -> Seq<Seq<char>>
    decreases table.len(),
{
    if table.len() == 0 {
        Seq::empty()
    } else if table[0].0@ == ty {
        strs(table[0].1@)
    } else {
        objects_of(table.drop_first(), ty)
    }
}

/// Whether `o` may stand for parameter `i` under every unary static
/// literal on that parameter: each such `(P ?x)` needs `(P o)` in `init`.
pub open spec fn unary_ok(
    o: Seq<char>,
    i: int,
    params: Seq<(Sym, Sym)>,
    lits: Seq<(Sym, Vec<Term>)>,
    init: Seq<AtomView>,
) -> bool {
    forall|q: int|
        0 <= q < lits.len() && (#[trigger] lits[q]).1.len() == 1 && lits[q].1@[0] is Var && param_pos(
            params,
            lits[q].1@[0]->Var_0@,
        ) == i ==> init.contains((lits[q].0@, seq![o]))
}

pub open spec fn unary_filter(
    i: int,
    params: Seq<(Sym, Sym)>,
    lits: Seq<(Sym, Vec<Term>)>,
    init: Seq<AtomView>,
) -> spec_fn(Seq<char>) -> bool {
    |o: Seq<char>| unary_ok(o, i, params, lits, init)
}

/// Each parameter's domain: the objects of its type that every unary
/// static literal on it admits, in the type table's order.
pub open spec fn restricted(
    i: int,
    params: Seq<(Sym, Sym)>,
    table: Seq<(Sym, Vec<Sym>)>,
    lits: Seq<(Sym, Vec<Term>)>,
    init: Seq<AtomView>,
) -> Seq<Seq<char>> {
    objects_of(table, params[i].1@).filter(unary_filter(i, params, lits, init))
}

pub(crate) fn objects_for(table: &Vec<(Sym, Vec<Sym>)>, ty: &Sym) -> (r: Vec<Sym>)
    ensures
        strs(r@) == objects_of(table@, ty@),
{
    let mut k: usize = 0;
    assert(table@.subrange(0, table.len() as int) =~= table@);
    while k < table.len()
        invariant
            k <= table.len(),
            objects_of(table@.subrange(k as int, table.len() as int), ty@) == objects_of(table@, ty@),
        decreases table.len() - k,
    {
        let ghost rest = table@.subrange(k as int, table.len() as int);
        assert(rest.drop_first() =~= table@.subrange(k + 1, table.len() as int));
        assert(rest[0] == table@[k as int]);
        if str_eq(table[k].0.as_str(), ty.as_str()) {
            let v = table[k].1.clone();
            proof {
                assert forall|m: int| 0 <= m < v.len() implies (#[trigger] v@[m])@ == table@[k as int].1@[m]@ by {}
                assert(strs(v@) =~= strs(table@[k as int].1@));
            }
            return v;
        }
        k = k + 1;
    }
    Vec::new()
}

/// Whether `o` may stand for parameter `i` (see [`unary_ok`]).
fn admitted(
    o: &Sym,
    i: usize,
    params: &Vec<(Sym, Sym)>,
    lits: &Vec<(Sym, Vec<Term>)>,
    init: &Vec<(Sym, Vec<Sym>)>,
) -> (r: bool)
    ensures
        r == unary_ok(o@, i as int, params@, lits@, atom_views(init@)),
{
    let mut q: usize = 0;
    while q < lits.len()
        invariant
            q <= lits.len(),
            forall|r: int|
                0 <= r < q && (#[trigger] lits@[r]).1.len() == 1 && lits@[r].1@[0] is Var && param_pos(
                    params@,
                    lits@[r].1@[0]->Var_0@,
                ) == i ==> atom_views(init@).contains((lits@[r].0@, seq![o@])),
        decreases lits.len() - q,
    {
        if lits[q].1.len() == 1 {
            if let Term::Var(v) = &lits[q].1[0] {
                if let Some(pos) = find_param(params, v) {
                    if pos == i {
                        let one = vec![o.clone()];
                        assert(strs(one@) =~= seq![o@]);
                        if !atom_in(init, &lits[q].0, &one) {
                            return false;
                        }
                    }
                }
            }
        }
        q = q + 1;
    }
    true
}

/// Each parameter's domain: the objects of its type (by `table`, as
/// `objects_by_type` gives it), narrowed by every unary static literal on
/// the parameter to the objects that `init` holds it of.
pub fn restricted_domains(
    params: &Vec<(Sym, Sym)>,
    table: &Vec<(Sym, Vec<Sym>)>,
    static_lits: &Vec<(Sym, Vec<Term>)>,
    init: &Vec<(Sym, Vec<Sym>)>,
) -> (r: Vec<Vec<Sym>>)
    ensures
        r.len() == params.len(),
        forall|i: int|
            0 <= i < params.len() ==> strs((#[trigger] r@[i])@) == restricted(
                i,
                params@,
                table@,
                static_lits@,
                atom_views(init@),
            ),
{
    let ghost iv = atom_views(init@);
    let mut out: Vec<Vec<Sym>> = Vec::new();
    let mut i: usize = 0;
    while i < params.len()
        invariant
            i <= params.len(),
            out.len() == i,
            iv == atom_views(init@),
            forall|k: int|
                0 <= k < i ==> strs((#[trigger] out@[k])@) == restricted(k, params@, table@, static_lits@, iv),
        decreases params.len() - i,
    {
        let objs = objects_for(table, &params[i].1);
        let ghost f = unary_filter(i as int, params@, static_lits@, iv);
        let mut keep: Vec<Sym> = Vec::new();
        let mut m: usize = 0;
        while m < objs.len()
            invariant
                m <= objs.len(),
                iv == atom_views(init@),
                f == unary_filter(i as int, params@, static_lits@, iv),
                strs(keep@) == strs(objs@).subrange(0, m as int).filter(f),
            decreases objs.len() - m,
        {
            let ghost pre = strs(objs@).subrange(0, m as int);
            assert(strs(objs@).subrange(0, m + 1).drop_last() =~= pre);
            assert(strs(objs@).subrange(0, m + 1).last() == objs@[m as int]@);
            let ok = admitted(&objs[m], i, params, static_lits, init);
            assert(ok == f(objs@[m as int]@));
            proof {
                reveal(Seq::filter);
            }
            if ok {
                let o = objs[m].clone();
                keep.push(o);
                assert(strs(keep@) =~= pre.filter(f).push(objs@[m as int]@));
            } else {
                assert(strs(keep@) =~= pre.filter(f));
            }
            assert(strs(objs@).subrange(0, m + 1).filter(f) == if f(objs@[m as int]@) {
                pre.filter(f).push(objs@[m as int]@)
            } else {
                pre.filter(f)
            });
            m = m + 1;
        }
        assert(strs(objs@).subrange(0, m as int) =~= strs(objs@));
        out.push(keep);
        i = i + 1;
    }
    out
}

} // verus!
