//! The `type -> objects` table of a task, honoring the full type hierarchy:
//! subtypes ride along, `OBJECT` catches everything.

use vstd::prelude::*;
use vstd::set_lib::{lemma_int_range, lemma_len_subset, set_int_range};
use crate::text::{chars_are, chars_eq, chars_of, string_from};
use crate::binding::atom_views;
use crate::grounding::{ground_core, grounded_ok, wall_hit, Grounded, LiftedTask};
use crate::reach::{first_unreached, goal_verdict, unsettled, GoalVerdict};
use crate::types::{Domain, Problem, Sym};

verus! {

/// A finite map kept as a list of `(key, value)` pairs with distinct keys.
pub type Table = Seq<(Seq<char>, Seq<char>)>;

/// Position of `k` in the table, or `-1`.
pub open spec fn key_index(m: Table, k: Seq<char>) -> int
    decreases m.len(),
{
    if m.len() == 0 {
        -1
    } else if m.last().0 == k {
        m.len() - 1
    } else {
        key_index(m.drop_last(), k)
    }
}

pub open spec fn lookup(m: Table, k: Seq<char>) -> Option<Seq<char>> {
    if key_index(m, k) >= 0 {
        Some(m[key_index(m, k)].1)
    } else {
        None
    }
}

/// `m` with `k` mapped to `v`: the entry replaced in place, or appended.
pub open spec fn put(m: Table, k: Seq<char>, v: Seq<char>) -> Table {
    if key_index(m, k) >= 0 {
        m.update(key_index(m, k), (k, v))
    } else {
        m.push((k, v))
    }
}

/// `m` with `ty` mapped to `OBJECT` unless `ty` is `OBJECT` or already
/// present.
pub open spec fn ensure_type(m: Table, ty: Seq<char>) -> Table {
    if ty != "OBJECT"@ && key_index(m, ty) < 0 {
        m.push((ty, "OBJECT"@))
    } else {
        m
    }
}

pub open spec fn put_all(m: Table, pairs: Seq<(Seq<char>, Seq<char>)>) -> Table
    decreases pairs.len(),
{
    if pairs.len() == 0 {
        m
    } else {
        put(put_all(m, pairs.drop_last()), pairs.last().0, pairs.last().1)
    }
}

pub open spec fn ensure_all(m: Table, tys: Seq<Seq<char>>) -> Table
    decreases tys.len(),
{
    if tys.len() == 0 {
        m
    } else {
        ensure_type(ensure_all(m, tys.drop_last()), tys.last())
    }
}

pub open spec fn pair_views(v: Seq<(Sym, Sym)>) -> Seq<(Seq<char>, Seq<char>)> {
    v.map_values(|p: (Sym, Sym)| (p.0@, p.1@))
}

/// Every object of the task with its type: constants first, then the
/// problem's objects.
pub open spec fn all_objects(d: Domain, p: Problem) -> Seq<(Seq<char>, Seq<char>)> {
    pair_views(d.constants@) + pair_views(p.objects@)
}

/// The full parent table: the declared pairs (a later pair for a type
/// overriding an earlier one), then every type an object carries or a
/// declaration names as parent mapped to `OBJECT` when it has no parent.
pub open spec fn parent_table(d: Domain, p: Problem) -> Table {
    let declared = put_all(seq![], pair_views(d.type_parent@));
    let object_types = all_objects(d, p).map_values(|o: (Seq<char>, Seq<char>)| o.1);
    let parent_types = pair_views(d.type_parent@).map_values(|o: (Seq<char>, Seq<char>)| o.1);
    ensure_all(ensure_all(declared, object_types), parent_types)
}

/// The `k`-th ancestor of type `a` (`a` itself for `k == 0`), if the
/// parent chain reaches that far.
pub open spec fn ancestor(m: Table, a: Seq<char>, k: nat) -> Option<Seq<char>>
    decreases k,
{
    if k == 0 {
        Some(a)
    } else {
        match ancestor(m, a, (k - 1) as nat) {
            Some(c) => lookup(m, c),
            None => None,
        }
    }
}

/// `a` is a subtype of `b`: `b` is `OBJECT`, or `b` is met within
/// `m.len()` steps up the parent chain of `a` (the bound makes a cyclic
/// table degrade to "not a subtype").
pub open spec fn subtype(m: Table, a: Seq<char>, b: Seq<char>) -> bool {
    b == "OBJECT"@ || exists|k: nat| k <= m.len() && ancestor(m, a, k) == Some(b)
}

/// The type names of the table: its keys in order, then `OBJECT` unless it
/// is a key already.
pub open spec fn type_names(m: Table) -> Seq<Seq<char>> {
    m.map_values(|e: (Seq<char>, Seq<char>)| e.0) + if key_index(m, "OBJECT"@) < 0 {
        seq!["OBJECT"@]
    } else {
        seq![]
    }
}

/// The objects whose type is a subtype of `ty`, in object order.
pub open spec fn members(m: Table, objs: Seq<(Seq<char>, Seq<char>)>, ty: Seq<char>) -> Seq<
    Seq<char>,
>
    decreases objs.len(),
{
    if objs.len() == 0 {
        seq![]
    } else {
        let rest = members(m, objs.drop_last(), ty);
        if subtype(m, objs.last().1, ty) {
            rest.push(objs.last().0)
        } else {
            rest
        }
    }
}

// ----- the executable table ----------------------------------------------------------

pub open spec fn table_view(v: Seq<(Vec<char>, Vec<char>)>) -> Table {
    v.map_values(|e: (Vec<char>, Vec<char>)| (e.0@, e.1@))
}

fn find_key(m: &Vec<(Vec<char>, Vec<char>)>, k: &[char]) -> (r: Option<usize>)
    ensures
        match r {
            Some(i) => i as int == key_index(table_view(m@), k@),
            None => key_index(table_view(m@), k@) == -1,
        },
{
    let ghost t = table_view(m@);
    let mut i: usize = m.len();
    proof {
        assert(t.take(i as int) =~= t);
    }
    while i > 0
        invariant
            i <= m@.len(),
            t == table_view(m@),
            key_index(t, k@) == key_index(t.take(i as int), k@),
        decreases i,
    {
        proof {
            assert(t.take(i as int).drop_last() =~= t.take(i - 1));
            assert(t.take(i as int).last() == t[i - 1]);
        }
        if chars_eq(m[i - 1].0.as_slice(), k) {
            return Some(i - 1);
        }
        i = i - 1;
    }
    None
}

proof fn lemma_key_index_range(m: Table, k: Seq<char>)
    ensures
        -1 <= key_index(m, k) < m.len(),
        key_index(m, k) >= 0 ==> m[key_index(m, k)].0 == k,
    decreases m.len(),
{
    if m.len() > 0 && m.last().0 != k {
        lemma_key_index_range(m.drop_last(), k);
    }
}

fn copy_chars(v: &Vec<char>) -> (c: Vec<char>)
    ensures
        c@ == v@,
{
    let mut c: Vec<char> = Vec::new();
    let mut i: usize = 0;
    while i < v.len()
        invariant
            i <= v@.len(),
            c@ == v@.subrange(0, i as int),
        decreases v@.len() - i,
    {
        c.push(v[i]);
        i = i + 1;
        assert(c@ =~= v@.subrange(0, i as int));
    }
    assert(v@.subrange(0, v@.len() as int) =~= v@);
    c
}

fn put_entry(m: &mut Vec<(Vec<char>, Vec<char>)>, k: Vec<char>, v: Vec<char>)
    ensures
        table_view(final(m)@) == put(table_view(old(m)@), k@, v@),
{
    match find_key(m, k.as_slice()) {
        Some(i) => {
            proof {
                lemma_key_index_range(table_view(m@), k@);
            }
            let ghost before = table_view(m@);
            m.set(i, (k, v));
            proof {
                assert(table_view(m@) =~= before.update(i as int, (k@, v@)));
            }
        },
        None => {
            let ghost before = table_view(m@);
            m.push((k, v));
            proof {
                assert(table_view(m@) =~= before.push((k@, v@)));
            }
        },
    }
}

fn ensure_entry(m: &mut Vec<(Vec<char>, Vec<char>)>, ty: &Vec<char>)
    ensures
        table_view(final(m)@) == ensure_type(table_view(old(m)@), ty@),
{
    if chars_are(ty.as_slice(), "OBJECT") {
        return;
    }
    if find_key(m, ty.as_slice()).is_none() {
        let ghost before = table_view(m@);
        m.push((copy_chars(ty), chars_of("OBJECT")));
        proof {
            assert(table_view(m@) =~= before.push((ty@, "OBJECT"@)));
        }
    }
}

fn lookup_entry(m: &Vec<(Vec<char>, Vec<char>)>, k: &[char]) -> (r: Option<Vec<char>>)
    ensures
        match lookup(table_view(m@), k@) {
            Some(v) => r matches Some(x) && x@ == v,
            None => r is None,
        },
{
    match find_key(m, k) {
        Some(i) => {
            proof {
                lemma_key_index_range(table_view(m@), k@);
                assert(table_view(m@)[i as int] == (m@[i as int].0@, m@[i as int].1@));
            }
            Some(copy_chars(&m[i].1))
        },
        None => None,
    }
}

proof fn lemma_no_parent_ends_chain(m: Table, a: Seq<char>, h: nat, k: nat)
    requires
        ancestor(m, a, h) matches Some(c) && lookup(m, c) is None,
        k > h,
    ensures
        ancestor(m, a, k) is None,
    decreases k,
{
    if k > h + 1 {
        lemma_no_parent_ends_chain(m, a, h, (k - 1) as nat);
    }
}

fn is_subtype(m: &Vec<(Vec<char>, Vec<char>)>, a: &Vec<char>, b: &Vec<char>) -> (r: bool)
    ensures
        r == subtype(table_view(m@), a@, b@),
{
    let ghost t = table_view(m@);
    if chars_are(b.as_slice(), "OBJECT") {
        return true;
    }
    let mut cur = copy_chars(a);
    let mut hops: usize = 0;
    loop
        invariant
            t == table_view(m@),
            b@ != "OBJECT"@,
            hops <= m@.len(),
            ancestor(t, a@, hops as nat) == Some(cur@),
            forall|k: nat| k < hops ==> ancestor(t, a@, k) != Some(b@),
        decreases m@.len() - hops,
    {
        if chars_eq(cur.as_slice(), b.as_slice()) {
            return true;
        }
        match lookup_entry(m, cur.as_slice()) {
            Some(p) => {
                cur = p;
            },
            None => {
                proof {
                    assert forall|k: nat| k <= t.len() implies ancestor(t, a@, k) != Some(b@) by {
                        if k > hops {
                            lemma_no_parent_ends_chain(t, a@, hops as nat, k);
                        }
                    }
                }
                return false;
            },
        }
        if hops >= m.len() {
            proof {
                assert forall|k: nat| k <= t.len() implies ancestor(t, a@, k) != Some(b@) by {}
            }
            return false;
        }
        hops = hops + 1;
    }
}

fn pairs_of(v: &Vec<(Sym, Sym)>) -> (r: Vec<(Vec<char>, Vec<char>)>)
    ensures
        table_view(r@) == pair_views(v@),
{
    let mut r: Vec<(Vec<char>, Vec<char>)> = Vec::new();
    let mut i: usize = 0;
    while i < v.len()
        invariant
            i <= v@.len(),
            table_view(r@) == pair_views(v@).take(i as int),
        decreases v@.len() - i,
    {
        let ghost before = table_view(r@);
        let x = chars_of(v[i].0.as_str());
        let y = chars_of(v[i].1.as_str());
        let ghost e = (x@, y@);
        r.push((x, y));
        assert(table_view(r@) =~= before.push(e));
        i = i + 1;
        assert(table_view(r@) =~= pair_views(v@).take(i as int));
    }
    assert(pair_views(v@).take(v@.len() as int) =~= pair_views(v@));
    r
}

/// Build the `type -> objects` table, honoring the full type hierarchy:
/// one entry per type name (declared, carried by an object, or named as a
/// parent, plus `OBJECT`), listing in object order every object whose type
/// is a subtype of it.
pub fn objects_by_type(domain: &Domain, problem: &Problem) -> (r: Vec<(Sym, Vec<Sym>)>)
    ensures
        ({
            let m = parent_table(*domain, *problem);
            let names = type_names(m);
            &&& r@.len() == names.len()
            &&& forall|j: int|
                0 <= j < r@.len() ==> (#[trigger] r@[j]).0@ == names[j] && r@[j].1@.map_values(
                    |s: Sym| s@,
                ) == members(m, all_objects(*domain, *problem), names[j])
        }),
{
    let declared_pairs = pairs_of(&domain.type_parent);
    let constants = pairs_of(&domain.constants);
    let objects = pairs_of(&problem.objects);
    let mut objs: Vec<(Vec<char>, Vec<char>)> = Vec::new();
    let mut i: usize = 0;
    while i < constants.len()
        invariant
            i <= constants@.len(),
            table_view(objs@) == table_view(constants@).take(i as int),
        decreases constants@.len() - i,
    {
        let ghost before = table_view(objs@);
        let x = copy_chars(&constants[i].0);
        let y = copy_chars(&constants[i].1);
        let ghost e = (x@, y@);
        objs.push((x, y));
        assert(table_view(objs@) =~= before.push(e));
        i = i + 1;
        assert(table_view(objs@) =~= table_view(constants@).take(i as int));
    }
    let mut i: usize = 0;
    while i < objects.len()
        invariant
            i <= objects@.len(),
            table_view(objs@) == table_view(constants@) + table_view(objects@).take(i as int),
        decreases objects@.len() - i,
    {
        let ghost before = table_view(objs@);
        let x = copy_chars(&objects[i].0);
        let y = copy_chars(&objects[i].1);
        let ghost e = (x@, y@);
        objs.push((x, y));
        assert(table_view(objs@) =~= before.push(e));
        i = i + 1;
        assert(table_view(objs@) =~= table_view(constants@) + table_view(objects@).take(i as int));
    }
    proof {
        assert(table_view(constants@).take(constants@.len() as int) =~= table_view(constants@));
        assert(table_view(objects@).take(objects@.len() as int) =~= table_view(objects@));
        assert(table_view(objs@) == all_objects(*domain, *problem));
    }
    // The declared parents, later pairs overriding earlier ones.
    let mut tp: Vec<(Vec<char>, Vec<char>)> = Vec::new();
    let mut i: usize = 0;
    while i < declared_pairs.len()
        invariant
            i <= declared_pairs@.len(),
            table_view(tp@) == put_all(seq![], table_view(declared_pairs@).take(i as int)),
        decreases declared_pairs@.len() - i,
    {
        proof {
            assert(table_view(declared_pairs@).take(i + 1).drop_last() =~= table_view(
                declared_pairs@,
            ).take(i as int));
        }
        put_entry(&mut tp, copy_chars(&declared_pairs[i].0), copy_chars(&declared_pairs[i].1));
        i = i + 1;
    }
    proof {
        assert(table_view(declared_pairs@).take(declared_pairs@.len() as int) =~= table_view(
            declared_pairs@,
        ));
    }
    let ghost declared = table_view(tp@);
    let ghost otys = table_view(objs@).map_values(|o: (Seq<char>, Seq<char>)| o.1);
    let mut i: usize = 0;
    while i < objs.len()
        invariant
            i <= objs@.len(),
            otys == table_view(objs@).map_values(|o: (Seq<char>, Seq<char>)| o.1),
            table_view(tp@) == ensure_all(declared, otys.take(i as int)),
        decreases objs@.len() - i,
    {
        proof {
            assert(otys.take(i + 1).drop_last() =~= otys.take(i as int));
            assert(otys.take(i + 1).last() == objs@[i as int].1@);
        }
        ensure_entry(&mut tp, &objs[i].1);
        i = i + 1;
    }
    proof {
        assert(otys.take(objs@.len() as int) =~= otys);
    }
    let ghost mid = table_view(tp@);
    let ghost ptys = table_view(declared_pairs@).map_values(|o: (Seq<char>, Seq<char>)| o.1);
    let mut i: usize = 0;
    while i < declared_pairs.len()
        invariant
            i <= declared_pairs@.len(),
            ptys == table_view(declared_pairs@).map_values(|o: (Seq<char>, Seq<char>)| o.1),
            table_view(tp@) == ensure_all(mid, ptys.take(i as int)),
        decreases declared_pairs@.len() - i,
    {
        proof {
            assert(ptys.take(i + 1).drop_last() =~= ptys.take(i as int));
            assert(ptys.take(i + 1).last() == declared_pairs@[i as int].1@);
        }
        ensure_entry(&mut tp, &declared_pairs[i].1);
        i = i + 1;
    }
    proof {
        assert(ptys.take(declared_pairs@.len() as int) =~= ptys);
        assert(table_view(tp@) == parent_table(*domain, *problem));
    }
    let ghost m = table_view(tp@);
    let ghost all = all_objects(*domain, *problem);
    // The type names: the table's keys, then OBJECT unless already a key.
    let mut names: Vec<Vec<char>> = Vec::new();
    let mut i: usize = 0;
    while i < tp.len()
        invariant
            i <= tp@.len(),
            names@.len() == i,
            forall|j: int| 0 <= j < i ==> (#[trigger] names@[j])@ == tp@[j].0@,
        decreases tp@.len() - i,
    {
        names.push(copy_chars(&tp[i].0));
        i = i + 1;
    }
    let object = chars_of("OBJECT");
    let has_object = find_key(&tp, object.as_slice()).is_some();
    if !has_object {
        names.push(object);
    }
    proof {
        assert forall|j: int| 0 <= j < names@.len() implies names@[j]@ == type_names(m)[j] by {
            if j < tp@.len() {
                assert(m[j] == (tp@[j].0@, tp@[j].1@));
            }
        }
    }
    let mut out: Vec<(Sym, Vec<Sym>)> = Vec::new();
    let mut j: usize = 0;
    while j < names.len()
        invariant
            j <= names@.len(),
            m == table_view(tp@),
            all == table_view(objs@),
            names@.len() == type_names(m).len(),
            forall|x: int| 0 <= x < names@.len() ==> (#[trigger] names@[x])@ == type_names(m)[x],
            out@.len() == j,
            forall|x: int|
                0 <= x < j ==> (#[trigger] out@[x]).0@ == type_names(m)[x] && out@[x].1@.map_values(
                    |s: Sym| s@,
                ) == members(m, all, type_names(m)[x]),
        decreases names@.len() - j,
    {
        let mut list: Vec<Sym> = Vec::new();
        let mut k: usize = 0;
        while k < objs.len()
            invariant
                k <= objs@.len(),
                j < names@.len(),
                m == table_view(tp@),
                all == table_view(objs@),
                list@.map_values(|s: Sym| s@) == members(m, all.take(k as int), names@[j as int]@),
            decreases objs@.len() - k,
        {
            proof {
                assert(all.take(k + 1).drop_last() =~= all.take(k as int));
                assert(all.take(k + 1).last() == (objs@[k as int].0@, objs@[k as int].1@));
            }
            let ghost before = list@.map_values(|s: Sym| s@);
            if is_subtype(&tp, &objs[k].1, &names[j]) {
                let o = string_from(objs[k].0.as_slice());
                let ghost ov = o@;
                list.push(o);
                proof {
                    assert(list@.map_values(|s: Sym| s@) =~= before.push(ov));
                }
            }
            k = k + 1;
        }
        proof {
            assert(all.take(objs@.len() as int) =~= all);
        }
        out.push((string_from(names[j].as_slice()), list));
        j = j + 1;
    }
    out
}


/// How a task is grounded.
#[derive(Clone, Copy, Debug)]
pub struct GroundMode {
    /// Fold static knowledge into preconditions and effects.
    pub dnf_static: bool,
    /// Walk each action's bindings most-constrained parameter first.
    pub mcv: bool,
    /// Hand the task on whatever the goal analysis would conclude, as a
    /// validator needs.
    pub validate: bool,
}

/// What grounding a task gives.
pub enum Outcome {
    /// The grounded task, with the goal left open for search.
    Task(Grounded),
    /// The goal holds from the start and nothing can undo it.
    GoalTrue,
    /// The goal cannot be reached: the first goal atom, in goal order,
    /// that no surviving operator adds.
    GoalFalse((Sym, Vec<Sym>)),
    /// An action's binding walk ran out of its tick budget: no verdict on
    /// the task.
    WallExhausted,
}

/// The goal facts of `g` that inertia does not settle, in goal order.
pub open spec fn goal_left(g: Grounded) -> Seq<usize> {
    g.goal@.filter(unsettled(g.init_true@, g.ops@, g.live@, seq![]))
}

/// Whether `r` is what grounding `task` in `mode` with `budget` ticks per
/// action gives.
pub open spec fn outcome_of(task: LiftedTask, mode: GroundMode, budget: u64, r: Outcome) -> bool {
    match r {
        Outcome::WallExhausted => exists|k: int| 0 <= k < task.actions.len() && #[trigger] wall_hit(task, k, budget),
        Outcome::Task(g) => grounded_ok(task, mode.dnf_static, g) && (mode.validate || (goal_left(g).len() > 0
            && first_unreached(goal_left(g), g.reached@) < 0)),
        Outcome::GoalTrue => !mode.validate && exists|g: Grounded|
            #[trigger] grounded_ok(task, mode.dnf_static, g) && goal_left(g).len() == 0,
        Outcome::GoalFalse(a) => !mode.validate && exists|g: Grounded|
            #[trigger] grounded_ok(task, mode.dnf_static, g) && goal_left(g).len() > 0 && first_unreached(
                goal_left(g),
                g.reached@,
            ) >= 0 && atom_views(seq![a])[0] == atom_views(g.facts@)[goal_left(g)[first_unreached(
                goal_left(g),
                g.reached@,
            )] as int],
    }
}

proof fn lemma_first_unreached_in(fs: Seq<usize>, reached: Seq<bool>)
    ensures
        first_unreached(fs, reached) < fs.len(),
    decreases fs.len(),
{
    if fs.len() > 0 {
        lemma_first_unreached_in(fs.drop_first(), reached);
    }
}

/// Ground a lifted task and simplify its goal: a goal settled by inertia
/// is true, a goal atom left that relaxed reachability does not reach
/// makes it false, and otherwise the grounded task goes on to search (in
/// `validate` mode always). `WallExhausted` when an action's binding walk
/// runs out of `budget` ticks.
pub fn ground(task: &LiftedTask, mode: GroundMode, budget: u64) -> (r: Outcome)
    requires
        forall|k: int| 0 <= k < task.actions.len() ==> #[trigger] task.actions@[k].params.len() < usize::MAX,
    ensures
        outcome_of(*task, mode, budget, r),
{
    let g = match ground_core(task, mode.dnf_static, mode.mcv, budget) {
        Some(g) => g,
        None => return Outcome::WallExhausted,
    };
    let shared: Vec<usize> = Vec::new();
    proof {
        assert(shared@ =~= Seq::<usize>::empty());
        assert forall|k: int| 0 <= k < g.goal.len() implies #[trigger] g.goal@[k] < g.init_true.len() by {}
    }
    let v = goal_verdict(&g.init_true, &g.reached, &g.ops, &g.live, &shared, &g.goal, false, mode.validate);
    match v {
        GoalVerdict::Met => {
            assert(grounded_ok(*task, mode.dnf_static, g));
            Outcome::GoalTrue
        },
        GoalVerdict::Unreachable(f) => {
            assert(grounded_ok(*task, mode.dnf_static, g));
            let ghost g0 = g;
            let ghost left = goal_left(g0);
            let ghost j = first_unreached(left, g0.reached@);
            proof {
                lemma_first_unreached_in(left, g0.reached@);
            }
            proof {
                assert(left[j] == f);
                assert(left.contains(f));
                g0.goal@.lemma_filter_contains_rev(unsettled(g0.init_true@, g0.ops@, g0.live@, seq![]), f);
                let k = choose|k: int| 0 <= k < g0.goal.len() && g0.goal@[k] == f;
                assert(g0.goal@[k] < g0.facts.len());
            }
            let mut facts = g.facts;
            let a = facts.remove(f);
            proof {
                assert(atom_views(seq![a])[0] == atom_views(g0.facts@)[f as int]);
            }
            Outcome::GoalFalse(a)
        },
        GoalVerdict::Open(_) => Outcome::Task(g),
    }
}


/// The grounded task whatever the goal analysis would conclude, as a
/// validator needs it to replay a plan; `None` only when an action's
/// binding walk runs out of `budget` ticks.
pub fn ground_task(task: &LiftedTask, dnf_static: bool, mcv: bool, budget: u64) -> (r: Option<Grounded>)
    requires
        forall|k: int| 0 <= k < task.actions.len() ==> #[trigger] task.actions@[k].params.len() < usize::MAX,
    ensures
        r matches Some(g) ==> grounded_ok(*task, dnf_static, g),
        r is None ==> exists|k: int| 0 <= k < task.actions.len() && #[trigger] wall_hit(*task, k, budget),
{
    match ground(task, GroundMode { dnf_static, mcv, validate: true }, budget) {
        Outcome::Task(g) => Some(g),
        _ => None,
    }
}

/// In validation mode grounding draws no verdict on the goal: it hands
/// back the task, or reports the exhausted budget.
pub proof fn law_validation_draws_no_goal_verdict(task: LiftedTask, mode: GroundMode, budget: u64, r: Outcome)
    requires
        mode.validate,
        outcome_of(task, mode, budget, r),
    ensures
        r is Task || r is WallExhausted,
{
}

/// Whether the parent chain of `a` never comes back to a type it passed.
pub open spec fn chain_acyclic(m: Table, a: Seq<char>) -> bool {
    forall|i: nat, j: nat|
        #![trigger ancestor(m, a, i), ancestor(m, a, j)]
        i < j && ancestor(m, a, j) is Some ==> ancestor(m, a, i) != ancestor(m, a, j)
}

proof fn lemma_chain_defined(m: Table, a: Seq<char>, j: nat)
    requires
        ancestor(m, a, j) is Some,
    ensures
        forall|i: nat| i < j ==> (#[trigger] ancestor(m, a, i)) is Some && key_index(m, ancestor(m, a, i)->0) >= 0,
    decreases j,
{
    if j > 0 {
        let c = ancestor(m, a, (j - 1) as nat);
        assert(c is Some);
        assert(lookup(m, c->0) is Some);
        lemma_chain_defined(m, a, (j - 1) as nat);
        assert forall|i: nat| i < j implies (#[trigger] ancestor(m, a, i)) is Some && key_index(m, ancestor(m, a, i)->0)
            >= 0 by {
            if i < j - 1 {
            }
        }
    }
}

/// Every type on the parent chain of `a`, however far up, is a supertype
/// of `a` when the chain has no cycle: subtypes ride along the whole
/// hierarchy, not just to the direct parent.
pub proof fn law_every_type_up_the_parent_chain_is_a_supertype(m: Table, a: Seq<char>, b: Seq<char>, k: nat)
    requires
        chain_acyclic(m, a),
        ancestor(m, a, k) == Some(b),
    ensures
        subtype(m, a, b),
{
    let n = m.len();
    if k > n {
        lemma_chain_defined(m, a, k);
        let idxs = Seq::new(n + 1, |i: int| key_index(m, ancestor(m, a, i as nat)->0));
        assert forall|i: int, j: int| 0 <= i < j < idxs.len() implies idxs[i] != idxs[j] by {
            let ci = ancestor(m, a, i as nat);
            let cj = ancestor(m, a, j as nat);
            assert(ci is Some && cj is Some);
            lemma_key_index_range(m, ci->0);
            lemma_key_index_range(m, cj->0);
            if idxs[i] == idxs[j] {
                assert(ci->0 == cj->0);
                assert(ci == cj);
            }
        }
        assert(idxs.no_duplicates());
        idxs.unique_seq_to_set();
        assert forall|x: int| idxs.to_set().contains(x) implies set_int_range(0, n as int).contains(x) by {
            let i = choose|i: int| 0 <= i < idxs.len() && idxs[i] == x;
            lemma_key_index_range(m, ancestor(m, a, i as nat)->0);
        }
        lemma_int_range(0, n as int);
        lemma_len_subset(idxs.to_set(), set_int_range(0, n as int));
        assert(false);
    }
}

/// `OBJECT` is a supertype of every type.
pub proof fn law_object_is_above_every_type(m: Table, a: Seq<char>)
    ensures
        subtype(m, a, "OBJECT"@),
{
}

/// The subtype relation is closed under one more parent step along an
/// acyclic chain: a subtype of `b` is a subtype of `b`'s parent.
pub proof fn law_subtype_climbs_to_the_parent(m: Table, a: Seq<char>, b: Seq<char>, c: Seq<char>, k: nat)
    requires
        chain_acyclic(m, a),
        ancestor(m, a, k) == Some(b),
        lookup(m, b) == Some(c),
    ensures
        subtype(m, a, b),
        subtype(m, a, c),
{
    law_every_type_up_the_parent_chain_is_a_supertype(m, a, b, k);
    assert(ancestor(m, a, k + 1) == Some(c));
    law_every_type_up_the_parent_chain_is_a_supertype(m, a, c, k + 1);
}
} // verus!
