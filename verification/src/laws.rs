//! Engine-level laws: what the rewrite passes guarantee, stated and proved
//! over the pass mirrors.

use vstd::prelude::*;
use crate::expr::ExprV;
use crate::num::Frac;
use crate::simplify::{SimplifcationOpts, SimOut, SimplifyError, spec_sim, spec_flat,
    spec_fix, sim_seq, sim_ch_seq, sim_ok_seq, flat_seq, lits_upto, nonlits_upto,
    has_zero_upto, fold_add_lits, lower_upto};

verus! {

/// A child list whose members the structural pass leaves unchanged passes
/// through unchanged as a whole.
pub proof fn lemma_sim_seq_stable(cs: Seq<ExprV>, o: SimplifcationOpts)
    requires
        forall|i: int|
            0 <= i < cs.len() ==> (#[trigger] spec_sim(cs[i], o)) == (SimOut {
                t: cs[i],
                changed: false,
                ok: true,
            }),
    ensures
        sim_seq(cs, o) == cs,
        sim_ch_seq(cs, o) == false,
        sim_ok_seq(cs, o) == true,
    decreases cs.len(),
{
    if cs.len() > 0 {
        assert forall|i: int| 0 <= i < cs.drop_last().len() implies (#[trigger] spec_sim(
        cs.drop_last()[i], o)) == (SimOut { t: cs.drop_last()[i], changed: false, ok: true })
            by {
            assert(cs.drop_last()[i] == cs[i]);
        }
        lemma_sim_seq_stable(cs.drop_last(), o);
        assert(spec_sim(cs.last(), o) == (SimOut { t: cs.last(), changed: false, ok: true }));
        assert(sim_seq(cs, o) =~= cs);
    }
}

/// In a list of literals, every prefix counts as all-literal and keeps no
/// non-literal member.
pub proof fn lemma_all_lits(cs: Seq<ExprV>, i: int)
    requires
        0 <= i <= cs.len(),
        forall|j: int| 0 <= j < cs.len() ==> (#[trigger] cs[j]) is Lit,
    ensures
        lits_upto(cs, i) == i,
        nonlits_upto(cs, i) == Seq::<ExprV>::empty(),
    decreases i,
{
    if i > 0 {
        lemma_all_lits(cs, i - 1);
        assert(nonlits_upto(cs, i) =~= Seq::<ExprV>::empty());
    }
}

/// Fixpoint idempotence: a tree that both passes leave unchanged is
/// returned unchanged, at once, by any further run of the engine.
pub proof fn lemma_fixpoint_idempotent(t: ExprV, o: SimplifcationOpts, fuel: nat)
    requires
        spec_sim(t, o) == (SimOut { t, changed: false, ok: true }),
        spec_flat(t, o) == (t, false),
        fuel >= 1,
    ensures
        spec_fix(t, o, fuel) == (t, Ok::<(), SimplifyError>(())),
{
}

/// Addition-zero collapse: a sum of literals alone whose engine fold comes
/// to zero becomes the single literal zero after one structural pass and
/// one flattening pass — never an empty child list.
pub proof fn lemma_add_zero_collapse(cs: Seq<ExprV>, o: SimplifcationOpts, f: Frac)
    requires
        cs.len() >= 1,
        forall|j: int| 0 <= j < cs.len() ==> (#[trigger] cs[j]) is Lit,
        forall|i: int|
            0 <= i < cs.len() ==> (#[trigger] spec_sim(cs[i], o)) == (SimOut {
                t: cs[i],
                changed: false,
                ok: true,
            }),
        fold_add_lits(cs, 0, Frac { num: 0, denom: 1 }) == Some(f),
        f.num == 0,
        cs.len() >= 2 || has_zero_upto(cs, cs.len() as int),
    ensures
        spec_sim(ExprV::AddN { ts: cs }, o) == (SimOut {
            t: ExprV::AddN { ts: seq![ExprV::Lit { f: Frac { num: 0, denom: 1 } }] },
            changed: true,
            ok: true,
        }),
        spec_flat(spec_sim(ExprV::AddN { ts: cs }, o).t, o) == (
            ExprV::Lit { f: Frac { num: 0, denom: 1 } },
            true,
        ),
{
    lemma_sim_seq_stable(cs, o);
    lemma_all_lits(cs, cs.len() as int);
    let zs = seq![ExprV::Lit { f: Frac { num: 0, denom: 1 } }];
    let out = spec_sim(ExprV::AddN { ts: cs }, o);
    assert(nonlits_upto(cs, cs.len() as int).push(
        ExprV::Lit { f: Frac { num: 0, denom: 1 } },
    ) =~= zs);
    assert(out.t == ExprV::AddN { ts: zs });
    assert(zs.drop_last() =~= Seq::<ExprV>::empty());
    assert(zs.last() == ExprV::Lit { f: Frac { num: 0, denom: 1 } });
    assert(flat_seq(Seq::<ExprV>::empty(), o) == Seq::<ExprV>::empty());
    assert(spec_flat(zs.last(), o) == (zs.last(), false));
    assert(flat_seq(zs, o) == flat_seq(zs.drop_last(), o).push(spec_flat(zs.last(), o).0));
    assert(flat_seq(zs, o) =~= zs);
    assert(crate::simplify::splice_add_upto(zs, 0) == Seq::<ExprV>::empty());
    assert(crate::simplify::splice_add_one(zs[0]) =~= seq![zs[0]]);
    assert(crate::simplify::splice_add_upto(zs, 1) =~= zs);
}

/// Multiplication-zero absorption: a product with any zero literal among
/// its already-stable factors collapses to the literal zero in one
/// structural pass, whatever the other factors are, literal or not.
pub proof fn lemma_mul_zero_absorb(cs: Seq<ExprV>, o: SimplifcationOpts)
    requires
        forall|i: int|
            0 <= i < cs.len() ==> (#[trigger] spec_sim(cs[i], o)) == (SimOut {
                t: cs[i],
                changed: false,
                ok: true,
            }),
        has_zero_upto(cs, cs.len() as int),
    ensures
        spec_sim(ExprV::MulN { ms: cs }, o) == (SimOut {
            t: ExprV::Lit { f: Frac { num: 0, denom: 1 } },
            changed: true,
            ok: true,
        }),
{
    lemma_sim_seq_stable(cs, o);
}

/// Subtraction lowering: after flattening, a subtraction is elementwise a
/// sum whose first child is the flattened minuend and whose later children
/// are the flattened subtrahends each multiplied by the literal minus one;
/// the lowering itself is always reported as a change.
pub proof fn lemma_sub_lowering(cs: Seq<ExprV>, o: SimplifcationOpts)
    ensures
        spec_flat(ExprV::SubN { ss: cs }, o).1 == true,
        ({
            let ts2 = flat_seq(cs, o);
            let low = lower_upto(ts2, ts2.len() as int);
            &&& spec_flat(ExprV::SubN { ss: cs }, o).0 == ExprV::AddN { ts: low }
            &&& low.len() == ts2.len()
            &&& (ts2.len() >= 1 ==> low[0] == ts2[0])
            &&& forall|i: int|
                1 <= i < ts2.len() ==> low[i] == (ExprV::MulN {
                    ms: seq![ts2[i], ExprV::Lit { f: Frac { num: -1i64, denom: 1 } }],
                })
        }),
{
    let ts2 = flat_seq(cs, o);
    lemma_lower_upto(ts2, ts2.len() as int);
}

pub proof fn lemma_lower_upto(ts: Seq<ExprV>, i: int)
    requires
        0 <= i <= ts.len(),
    ensures
        lower_upto(ts, i).len() == i,
        forall|j: int|
            0 <= j < i ==> lower_upto(ts, i)[j] == (if j == 0 {
                ts[0]
            } else {
                ExprV::MulN { ms: seq![ts[j], ExprV::Lit { f: Frac { num: -1i64, denom: 1 } }] }
            }),
    decreases i,
{
    if i > 0 {
        lemma_lower_upto(ts, i - 1);
    }
}

/// Division-by-literal inversion: with the integer-target policy off, a
/// division whose divisor is the stable, non-zero literal holding p over q
/// becomes a multiplication by the literal holding q over p.
pub proof fn lemma_div_inversion(a: ExprV, p: Frac, o: SimplifcationOpts)
    requires
        !o.target_integers,
        spec_sim(a, o) == (SimOut { t: a, changed: false, ok: true }),
        spec_sim(ExprV::Lit { f: p }, o) == (SimOut {
            t: ExprV::Lit { f: p },
            changed: false,
            ok: true,
        }),
        p.num != 0,
    ensures
        spec_sim(ExprV::DivN { qs: seq![a, ExprV::Lit { f: p }] }, o) == (SimOut {
            t: ExprV::MulN {
                ms: seq![a, ExprV::Lit { f: Frac { num: p.denom, denom: p.num } }],
            },
            changed: true,
            ok: true,
        }),
{
    let cs = seq![a, ExprV::Lit { f: p }];
    assert forall|i: int| 0 <= i < cs.len() implies (#[trigger] spec_sim(cs[i], o)) == (SimOut {
        t: cs[i],
        changed: false,
        ok: true,
    }) by {
        if i == 0 {
            assert(cs[0] == a);
        } else {
            assert(cs[1] == ExprV::Lit { f: p });
        }
    }
    lemma_sim_seq_stable(cs, o);
    let ts2 = sim_seq(cs, o);
    assert(ts2[1] == ExprV::Lit { f: p });
    assert(ts2.update(1, ExprV::Lit { f: Frac { num: p.denom, denom: p.num } }) =~= seq![
        a,
        ExprV::Lit { f: Frac { num: p.denom, denom: p.num } },
    ]);
}

} // verus!
