//! Interning of ground operators: every fact an operator names gets an id,
//! in the order the operators first name them (preconditions, adds,
//! deletes, then each conditional effect's tests and effects), and each
//! operator becomes a [`ReachOp`] over those ids.

use vstd::prelude::*;
use crate::action::{raw_view, RawOp};
use crate::binding::{atom_in, atom_views, strs, AtomView};
use crate::dnf::{copy_strs, Conjunct};
use crate::effect::{CondEffect, GroundEffect};
use crate::reach::ReachOp;
use crate::text::{cat3, join_sp, join_spaces, str_eq, views};
use crate::types::Sym;

verus! {

/// The fact table after naming the atoms `ks` in order: each atom not yet
/// in the table is appended.
pub open spec fn absorb(t: Seq<AtomView>, ks: Seq<AtomView>) -> Seq<AtomView>
    decreases ks.len(),
{
    if ks.len() == 0 {
        t
    } else {
        let u = absorb(t, ks.drop_last());
        if u.contains(ks.last()) {
            u
        } else {
            u.push(ks.last())
        }
    }
}

/// The atoms named by the ids `ids`.
pub open spec fn named(t: Seq<AtomView>, ids: Seq<usize>) -> Seq<AtomView> {
    ids.map_values(|k: usize| t[k as int])
}

pub open spec fn ids_in(t: Seq<AtomView>, ids: Seq<usize>) -> bool {
    forall|k: int| 0 <= k < ids.len() ==> #[trigger] ids[k] < t.len()
}

pub(crate) proof fn lemma_absorb_grows(t: Seq<AtomView>, ks: Seq<AtomView>)
    ensures
        absorb(t, ks).len() >= t.len(),
        forall|i: int| 0 <= i < t.len() ==> #[trigger] absorb(t, ks)[i] == t[i],
        t.no_duplicates() ==> absorb(t, ks).no_duplicates(),
        forall|k: int| 0 <= k < ks.len() ==> absorb(t, ks).contains(#[trigger] ks[k]),
        forall|a: AtomView| t.contains(a) ==> absorb(t, ks).contains(a),
    decreases ks.len(),
{
    if ks.len() > 0 {
        let u = absorb(t, ks.drop_last());
        lemma_absorb_grows(t, ks.drop_last());
        assert forall|k: int| 0 <= k < ks.len() implies absorb(t, ks).contains(#[trigger] ks[k]) by {
            if k < ks.len() - 1 {
                assert(ks.drop_last()[k] == ks[k]);
                assert(u.contains(ks[k]));
                if !u.contains(ks.last()) {
                    let j = choose|j: int| 0 <= j < u.len() && u[j] == ks[k];
                    assert(absorb(t, ks)[j] == ks[k]);
                }
            } else if !u.contains(ks.last()) {
                assert(absorb(t, ks)[u.len() as int] == ks.last());
            }
        }
        assert forall|a: AtomView| t.contains(a) implies absorb(t, ks).contains(a) by {
            assert(u.contains(a));
            if !u.contains(ks.last()) {
                let j = choose|j: int| 0 <= j < u.len() && u[j] == a;
                assert(absorb(t, ks)[j] == a);
            }
        }
    }
}

/// Name the atom `key`: its id in `facts`, appending it when new.
fn intern_atom(facts: &mut Vec<(Sym, Vec<Sym>)>, key: &(Sym, Vec<Sym>)) -> (id: usize)
    requires
        atom_views(old(facts)@).no_duplicates(),
    ensures
        atom_views(final(facts)@) == absorb(atom_views(old(facts)@), seq![(key.0@, strs(key.1@))]),
        atom_views(final(facts)@).no_duplicates(),
        id < final(facts).len(),
        atom_views(final(facts)@)[id as int] == (key.0@, strs(key.1@)),
{
    let ghost kv: AtomView = (key.0@, strs(key.1@));
    let ghost t = atom_views(facts@);
    assert(seq![kv].drop_last() =~= Seq::<AtomView>::empty());
    let mut i: usize = 0;
    while i < facts.len()
        invariant
            i <= facts.len(),
            t == atom_views(facts@),
            t.no_duplicates(),
            kv == (key.0@, strs(key.1@)),
            seq![kv].drop_last() == Seq::<AtomView>::empty(),
            forall|k: int| 0 <= k < i ==> #[trigger] t[k] != kv,
        decreases facts.len() - i,
    {
        if str_eq(facts[i].0.as_str(), key.0.as_str()) && crate::binding::strs_eq_pub(&facts[i].1, &key.1) {
            assert(t[i as int] == kv);
            assert(t.contains(kv));
            assert(absorb(t, seq![kv].drop_last()) == t);
            return i;
        }
        i = i + 1;
    }
    assert(!t.contains(kv));
    assert(absorb(t, seq![kv].drop_last()) == t);
    facts.push((key.0.clone(), copy_strs(&key.1)));
    proof {
        assert(atom_views(facts@) =~= t.push(kv));
        assert forall|a: int, b: int| 0 <= a < b < t.len() + 1 implies atom_views(facts@)[a] != atom_views(facts@)[b] by {
            if b == t.len() {
                assert(atom_views(facts@)[b] == kv);
                assert(t[a] != kv);
            }
        }
    }
    i
}

/// Name each atom of `keys` in order.
pub(crate) fn intern_atoms(facts: &mut Vec<(Sym, Vec<Sym>)>, keys: &Vec<(Sym, Vec<Sym>)>) -> (ids: Vec<usize>)
    requires
        atom_views(old(facts)@).no_duplicates(),
    ensures
        atom_views(final(facts)@) == absorb(atom_views(old(facts)@), atom_views(keys@)),
        atom_views(final(facts)@).no_duplicates(),
        ids_in(atom_views(final(facts)@), ids@),
        named(atom_views(final(facts)@), ids@) == atom_views(keys@),
{
    let ghost t0 = atom_views(facts@);
    let mut ids: Vec<usize> = Vec::new();
    let mut i: usize = 0;
    assert(atom_views(keys@).take(0) =~= Seq::<AtomView>::empty());
    while i < keys.len()
        invariant
            i <= keys.len(),
            ids.len() == i,
            atom_views(facts@) == absorb(t0, atom_views(keys@).take(i as int)),
            atom_views(facts@).no_duplicates(),
            forall|k: int| 0 <= k < i ==> #[trigger] ids@[k] < facts.len() && atom_views(facts@)[ids@[k] as int] == atom_views(keys@)[k],
        decreases keys.len() - i,
    {
        let ghost before = atom_views(facts@);
        let id = intern_atom(facts, &keys[i]);
        proof {
            let pre = atom_views(keys@).take(i + 1);
            assert(pre.drop_last() =~= atom_views(keys@).take(i as int));
            assert(pre.last() == atom_views(keys@)[i as int]);
            let one = seq![(keys@[i as int].0@, strs(keys@[i as int].1@))];
            assert(one.drop_last() =~= Seq::<AtomView>::empty());
            assert(absorb(before, one.drop_last()) == before);
            assert(one.last() == atom_views(keys@)[i as int]);
            lemma_absorb_grows(before, one);
            assert forall|k: int| 0 <= k < i implies #[trigger] ids@[k] < facts.len() && atom_views(facts@)[ids@[k] as int] == atom_views(keys@)[k] by {
                assert(atom_views(facts@)[ids@[k] as int] == before[ids@[k] as int]);
            }
        }
        ids.push(id);
        i = i + 1;
    }
    proof {
        assert(atom_views(keys@).take(i as int) =~= atom_views(keys@));
        assert(named(atom_views(facts@), ids@) =~= atom_views(keys@));
    }
    ids
}

pub open spec fn cond_refs(cs: Seq<CondEffect>) -> Seq<AtomView>
    decreases cs.len(),
{
    if cs.len() == 0 {
        seq![]
    } else {
        let c = cs.last();
        cond_refs(cs.drop_last()) + (atom_views(c.cond.pos@) + atom_views(c.cond.neg@) + atom_views(c.add@)
            + atom_views(c.del@))
    }
}

/// The atoms an operator names, in the order it names them.
pub open spec fn op_refs(o: RawOp) -> Seq<AtomView> {
    atom_views(o.pre.pos@) + atom_views(o.eff.add@) + atom_views(o.eff.del@) + cond_refs(o.eff.cond@)
}

pub open spec fn all_refs(ops: Seq<RawOp>) -> Seq<AtomView>
    decreases ops.len(),
{
    if ops.len() == 0 {
        seq![]
    } else {
        all_refs(ops.drop_last()) + op_refs(ops.last())
    }
}

pub open spec fn cond_pres(cs: Seq<CondEffect>) -> Seq<AtomView>
    decreases cs.len(),
{
    if cs.len() == 0 {
        seq![]
    } else {
        cond_pres(cs.drop_last()) + atom_views(cs.last().cond.pos@) + atom_views(cs.last().cond.neg@)
    }
}

pub open spec fn cond_adds(cs: Seq<CondEffect>) -> Seq<AtomView>
    decreases cs.len(),
{
    if cs.len() == 0 {
        seq![]
    } else {
        cond_adds(cs.drop_last()) + atom_views(cs.last().add@)
    }
}

pub open spec fn cond_dels(cs: Seq<CondEffect>) -> Seq<AtomView>
    decreases cs.len(),
{
    if cs.len() == 0 {
        seq![]
    } else {
        cond_dels(cs.drop_last()) + atom_views(cs.last().del@)
    }
}

/// What the interned operator says, by the atoms its ids name: its
/// preconditions, adds, conditional adds, deletes (plain, then
/// conditional), conditional tests, and whether it is monitored.
pub open spec fn interned_as(t: Seq<AtomView>, r: ReachOp, o: RawOp) -> bool {
    &&& ids_in(t, r.pre@) && named(t, r.pre@) == atom_views(o.pre.pos@)
    &&& ids_in(t, r.add@) && named(t, r.add@) == atom_views(o.eff.add@)
    &&& ids_in(t, r.cond_add@) && named(t, r.cond_add@) == cond_adds(o.eff.cond@)
    &&& ids_in(t, r.del@) && named(t, r.del@) == atom_views(o.eff.del@) + cond_dels(o.eff.cond@)
    &&& ids_in(t, r.cond_pre@) && named(t, r.cond_pre@) == cond_pres(o.eff.cond@)
    &&& r.monitored == o.monitored
}

proof fn lemma_absorb_cat(t: Seq<AtomView>, a: Seq<AtomView>, b: Seq<AtomView>)
    ensures
        absorb(t, a + b) == absorb(absorb(t, a), b),
    decreases b.len(),
{
    if b.len() == 0 {
        assert(a + b =~= a);
    } else {
        assert((a + b).drop_last() =~= a + b.drop_last());
        assert((a + b).last() == b.last());
        lemma_absorb_cat(t, a, b.drop_last());
    }
}

/// Ids stay valid, naming the same atoms, as the table grows.
pub(crate) proof fn lemma_named_stable(t: Seq<AtomView>, ks: Seq<AtomView>, ids: Seq<usize>)
    requires
        ids_in(t, ids),
    ensures
        ids_in(absorb(t, ks), ids),
        named(absorb(t, ks), ids) == named(t, ids),
{
    lemma_absorb_grows(t, ks);
    assert(named(absorb(t, ks), ids) =~= named(t, ids));
}

fn append_ids(dst: &mut Vec<usize>, src: Vec<usize>)
    ensures
        final(dst)@ == old(dst)@ + src@,
{
    let mut s = src;
    dst.append(&mut s);
}

proof fn lemma_named_cat(t: Seq<AtomView>, a: Seq<usize>, b: Seq<usize>)
    ensures
        named(t, a + b) == named(t, a) + named(t, b),
{
    assert(named(t, a + b) =~= named(t, a) + named(t, b));
}

/// Intern the atoms one operator names and give its [`ReachOp`].
pub fn intern_op(facts: &mut Vec<(Sym, Vec<Sym>)>, o: &RawOp) -> (r: ReachOp)
    requires
        atom_views(old(facts)@).no_duplicates(),
    ensures
        atom_views(final(facts)@) == absorb(atom_views(old(facts)@), op_refs(*o)),
        atom_views(final(facts)@).no_duplicates(),
        interned_as(atom_views(final(facts)@), r, *o),
{
    let ghost t0 = atom_views(facts@);
    let pre = intern_atoms(facts, &o.pre.pos);
    let ghost t1 = atom_views(facts@);
    let add = intern_atoms(facts, &o.eff.add);
    let ghost t2 = atom_views(facts@);
    let mut del = intern_atoms(facts, &o.eff.del);
    let ghost t3 = atom_views(facts@);
    proof {
        lemma_absorb_cat(t0, atom_views(o.pre.pos@), atom_views(o.eff.add@));
        lemma_absorb_cat(t0, atom_views(o.pre.pos@) + atom_views(o.eff.add@), atom_views(o.eff.del@));
        lemma_named_stable(t1, atom_views(o.eff.add@), pre@);
        lemma_named_stable(t2, atom_views(o.eff.del@), pre@);
        lemma_named_stable(t2, atom_views(o.eff.del@), add@);
    }
    let cs = &o.eff.cond;
    let mut cond_pre: Vec<usize> = Vec::new();
    let mut cond_add: Vec<usize> = Vec::new();
    let mut cond_del: Vec<usize> = Vec::new();
    let mut i: usize = 0;
    assert(cs@.take(0) =~= Seq::<CondEffect>::empty());
    while i < cs.len()
        invariant
            i <= cs.len(),
            *cs == o.eff.cond,
            atom_views(facts@) == absorb(t3, cond_refs(cs@.take(i as int))),
            atom_views(facts@).no_duplicates(),
            ids_in(atom_views(facts@), pre@) && named(atom_views(facts@), pre@) == atom_views(o.pre.pos@),
            ids_in(atom_views(facts@), add@) && named(atom_views(facts@), add@) == atom_views(o.eff.add@),
            ids_in(atom_views(facts@), del@) && named(atom_views(facts@), del@) == atom_views(o.eff.del@),
            ids_in(atom_views(facts@), cond_pre@) && named(atom_views(facts@), cond_pre@) == cond_pres(cs@.take(i as int)),
            ids_in(atom_views(facts@), cond_add@) && named(atom_views(facts@), cond_add@) == cond_adds(cs@.take(i as int)),
            ids_in(atom_views(facts@), cond_del@) && named(atom_views(facts@), cond_del@) == cond_dels(cs@.take(i as int)),
        decreases cs.len() - i,
    {
        let c = &cs[i];
        let ghost u0 = atom_views(facts@);
        let cp = intern_atoms(facts, &c.cond.pos);
        let ghost u1 = atom_views(facts@);
        let cn = intern_atoms(facts, &c.cond.neg);
        let ghost u2 = atom_views(facts@);
        let ca = intern_atoms(facts, &c.add);
        let ghost u3 = atom_views(facts@);
        let cd = intern_atoms(facts, &c.del);
        let ghost u4 = atom_views(facts@);
        proof {
            let p1 = atom_views(c.cond.pos@);
            let p2 = atom_views(c.cond.neg@);
            let p3 = atom_views(c.add@);
            let p4 = atom_views(c.del@);
            lemma_absorb_cat(u0, p1, p2);
            lemma_absorb_cat(u0, p1 + p2, p3);
            lemma_absorb_cat(u0, p1 + p2 + p3, p4);
            let pre_i = cs@.take(i + 1);
            assert(pre_i.drop_last() =~= cs@.take(i as int));
            assert(pre_i.last() == cs@[i as int]);
            lemma_absorb_cat(t3, cond_refs(cs@.take(i as int)), p1 + p2 + p3 + p4);
            // Earlier ids keep naming the same atoms.
            let all_k = p1 + p2 + p3 + p4;
            assert(u4 == absorb(u0, all_k));
            lemma_named_stable(u0, all_k, pre@);
            lemma_named_stable(u0, all_k, add@);
            lemma_named_stable(u0, all_k, del@);
            lemma_named_stable(u0, all_k, cond_pre@);
            lemma_named_stable(u0, all_k, cond_add@);
            lemma_named_stable(u0, all_k, cond_del@);
            lemma_named_stable(u1, p2 + p3 + p4, cp@);
            assert(absorb(u1, p2 + p3 + p4) == u4) by {
                lemma_absorb_cat(u1, p2, p3);
                lemma_absorb_cat(u1, p2 + p3, p4);
                assert(p2 + p3 + p4 =~= (p2 + p3) + p4);
            }
            lemma_named_stable(u2, p3 + p4, cn@);
            assert(absorb(u2, p3 + p4) == u4) by {
                lemma_absorb_cat(u2, p3, p4);
            }
            lemma_named_stable(u3, p4, ca@);
            lemma_named_cat(u4, cond_pre@, cp@);
            lemma_named_cat(u4, cond_pre@ + cp@, cn@);
            lemma_named_cat(u4, cond_add@, ca@);
            lemma_named_cat(u4, cond_del@, cd@);
            assert((cond_pre@ + cp@) + cn@ =~= cond_pre@ + cp@ + cn@);
        }
        append_ids(&mut cond_pre, cp);
        append_ids(&mut cond_pre, cn);
        append_ids(&mut cond_add, ca);
        append_ids(&mut cond_del, cd);
        i = i + 1;
    }
    proof {
        assert(cs@.take(i as int) =~= cs@);
        let t = atom_views(facts@);
        lemma_absorb_cat(t0, atom_views(o.pre.pos@) + atom_views(o.eff.add@) + atom_views(o.eff.del@), cond_refs(cs@));
        lemma_named_cat(t, del@, cond_del@);
    }
    append_ids(&mut del, cond_del);
    ReachOp { pre, add, cond_add, del, cond_pre, monitored: o.monitored }
}

/// Intern every operator in order: the fact table, with no atom twice,
/// and each operator's [`ReachOp`].
pub fn intern_ops(ops: &Vec<RawOp>) -> (r: (Vec<(Sym, Vec<Sym>)>, Vec<ReachOp>))
    ensures
        atom_views(r.0@) == absorb(seq![], all_refs(ops@)),
        atom_views(r.0@).no_duplicates(),
        r.1.len() == ops.len(),
        forall|i: int| 0 <= i < ops.len() ==> interned_as(atom_views(r.0@), #[trigger] r.1@[i], ops@[i]),
{
    let mut facts: Vec<(Sym, Vec<Sym>)> = Vec::new();
    let mut out: Vec<ReachOp> = Vec::new();
    let mut i: usize = 0;
    assert(atom_views(facts@) =~= Seq::<AtomView>::empty());
    assert(ops@.take(0) =~= Seq::<RawOp>::empty());
    while i < ops.len()
        invariant
            i <= ops.len(),
            out.len() == i,
            atom_views(facts@) == absorb(seq![], all_refs(ops@.take(i as int))),
            atom_views(facts@).no_duplicates(),
            forall|k: int| 0 <= k < i ==> interned_as(atom_views(facts@), #[trigger] out@[k], ops@[k]),
        decreases ops.len() - i,
    {
        let ghost before = atom_views(facts@);
        let r = intern_op(&mut facts, &ops[i]);
        proof {
            let pre_i = ops@.take(i + 1);
            assert(pre_i.drop_last() =~= ops@.take(i as int));
            assert(pre_i.last() == ops@[i as int]);
            lemma_absorb_cat(seq![], all_refs(ops@.take(i as int)), op_refs(ops@[i as int]));
            let t = atom_views(facts@);
            assert forall|k: int| 0 <= k < i implies interned_as(t, #[trigger] out@[k], ops@[k]) by {
                let q = out@[k];
                lemma_named_stable(before, op_refs(ops@[i as int]), q.pre@);
                lemma_named_stable(before, op_refs(ops@[i as int]), q.add@);
                lemma_named_stable(before, op_refs(ops@[i as int]), q.cond_add@);
                lemma_named_stable(before, op_refs(ops@[i as int]), q.del@);
                lemma_named_stable(before, op_refs(ops@[i as int]), q.cond_pre@);
            }
        }
        out.push(r);
        i = i + 1;
    }
    assert(ops@.take(i as int) =~= ops@);
    (facts, out)
}

} // verus!
