//! The rewrite engine: a structural pass (literal folding, zero collapse,
//! policy-gated division and distribution rewrites, per-function rules) and
//! a flattening pass (associativity splicing, singleton collapse,
//! subtraction lowering), alternated to a fixpoint.
//!
//! Every pass is mirrored by a spec function, so the engine's result is a
//! function of its input; arithmetic that would leave the word range sets a
//! failure flag instead of folding, and the driver reports it.

use vstd::prelude::*;
use crate::expr::{Expr, ExprV, FuncV, Operator, FuncIdentifier, wf, kids_view, views_of,
    lemma_views_of, abs_spec, abs_node};
use crate::num::{Frac, reduce_ok, spec_reduce, add_ok, spec_add, mul_ok, spec_mul};

verus! {

/// The rewrite policy: distribute literal factors over sums, and prefer a
/// division-by-integer form over multiplication by a reciprocal.
#[derive(Clone, Copy)]
pub struct SimplifcationOpts {
    pub expand: bool,
    pub target_integers: bool,
}

impl SimplifcationOpts {
    /// Neither policy switch set.
    pub fn default() -> (r: SimplifcationOpts)
        ensures
            !r.expand,
            !r.target_integers,
    {
        SimplifcationOpts { target_integers: false, expand: false }
    }

    /// Distribution of literal factors over sums switched on.
    pub fn expand() -> (r: SimplifcationOpts)
        ensures
            r.expand,
            !r.target_integers,
    {
        SimplifcationOpts { target_integers: false, expand: true }
    }

    /// Division-by-integer rendering switched on.
    pub fn integers() -> (r: SimplifcationOpts)
        ensures
            !r.expand,
            r.target_integers,
    {
        SimplifcationOpts { expand: false, target_integers: true }
    }
}

/// What one structural pass leaves at a node: the rewritten tree, whether
/// anything changed, and whether every arithmetic step stayed in range.
pub struct SimOut {
    pub t: ExprV,
    pub changed: bool,
    pub ok: bool,
}

/// How many of the first `i` nodes are literals.
pub open spec fn lits_upto(ts: Seq<ExprV>, i: int) -> nat
    decreases i,
{
    if i <= 0 {
        0
    } else {
        lits_upto(ts, i - 1) + (if ts[i - 1] is Lit {
            1nat
        } else {
            0nat
        })
    }
}

/// Some literal among the first `i` nodes is zero.
pub open spec fn has_zero_upto(ts: Seq<ExprV>, i: int) -> bool
    decreases i,
{
    if i <= 0 {
        false
    } else {
        has_zero_upto(ts, i - 1) || (ts[i - 1] matches ExprV::Lit { f } && f.num == 0)
    }
}

/// The non-literal nodes among the first `i`, in order.
pub open spec fn nonlits_upto(ts: Seq<ExprV>, i: int) -> Seq<ExprV>
    decreases i,
{
    if i <= 0 {
        Seq::empty()
    } else {
        nonlits_upto(ts, i - 1) + (if ts[i - 1] is Lit {
            Seq::empty()
        } else {
            seq![ts[i - 1]]
        })
    }
}

/// The literals folded left to right into `acc` by reduced addition;
/// nothing if a step leaves the word range.
pub open spec fn fold_add_lits(ts: Seq<ExprV>, i: int, acc: Frac) -> Option<Frac>
    decreases ts.len() - i,
{
    if i < 0 || i >= ts.len() {
        Some(acc)
    } else {
        match ts[i] {
            ExprV::Lit { f } => if add_ok(acc, f) {
                fold_add_lits(ts, i + 1, spec_add(acc, f))
            } else {
                None
            },
            _ => fold_add_lits(ts, i + 1, acc),
        }
    }
}

/// The literals folded left to right into `acc` by reduced multiplication.
pub open spec fn fold_mul_lits(ts: Seq<ExprV>, i: int, acc: Frac) -> Option<Frac>
    decreases ts.len() - i,
{
    if i < 0 || i >= ts.len() {
        Some(acc)
    } else {
        match ts[i] {
            ExprV::Lit { f } => if mul_ok(acc, f) {
                fold_mul_lits(ts, i + 1, spec_mul(acc, f))
            } else {
                None
            },
            _ => fold_mul_lits(ts, i + 1, acc),
        }
    }
}

/// One step of the left fold that distributes: a literal times a sum is
/// pushed into each term; anything else pairs up as a product node.
pub open spec fn expand_one(acc: ExprV, next: ExprV) -> (ExprV, bool) {
    match next {
        ExprV::Lit { f } => match acc {
            ExprV::AddN { ts } => (
                ExprV::AddN { ts: dist_upto(ts, ts.len() as int, f) },
                true,
            ),
            _ => (ExprV::MulN { ms: seq![acc, next] }, false),
        },
        _ => (ExprV::MulN { ms: seq![acc, next] }, false),
    }
}

/// The first `i` terms each multiplied by the literal `f`, in order.
pub open spec fn dist_upto(ts: Seq<ExprV>, i: int, f: Frac) -> Seq<ExprV>
    decreases i,
{
    if i <= 0 {
        Seq::empty()
    } else {
        dist_upto(ts, i - 1, f).push(
            ExprV::MulN { ms: seq![ts[i - 1], ExprV::Lit { f }] },
        )
    }
}

/// The left fold of `expand_one` over the nodes from index `i` on.
pub open spec fn expand_fold(ts: Seq<ExprV>, i: int, acc: ExprV) -> (ExprV, bool)
    decreases ts.len() - i,
{
    if i < 0 || i >= ts.len() {
        (acc, false)
    } else {
        let (acc2, ch) = expand_one(acc, ts[i]);
        let (accf, chr) = expand_fold(ts, i + 1, acc2);
        (accf, ch || chr)
    }
}

/// The distribution step of the structural pass on a product's rebuilt
/// child list.
pub open spec fn expand_rule(ts: Seq<ExprV>, ch: bool, o: SimplifcationOpts) -> SimOut {
    if o.expand && ts.len() > 1 {
        let (t2, ch2) = expand_fold(ts, 1, ts[0]);
        SimOut { t: t2, changed: ch || ch2, ok: true }
    } else {
        SimOut { t: ExprV::MulN { ms: ts }, changed: ch, ok: true }
    }
}

/// The node-level rule of the structural pass at a sum, applied to the
/// already-simplified children.
pub open spec fn add_rule(ts: Seq<ExprV>, ch0: bool, o: SimplifcationOpts) -> SimOut {
    let nl = lits_upto(ts, ts.len() as int);
    let hz = has_zero_upto(ts, ts.len() as int);
    if nl <= 1 && !hz {
        SimOut { t: ExprV::AddN { ts }, changed: ch0, ok: true }
    } else {
        match fold_add_lits(ts, 0, Frac { num: 0, denom: 1 }) {
            None => SimOut { t: ExprV::AddN { ts }, changed: ch0, ok: false },
            Some(f) => {
                let keep = nonlits_upto(ts, ts.len() as int);
                let ts3 = if f.num != 0 {
                    keep.push(ExprV::Lit { f })
                } else if keep.len() == 0 {
                    keep.push(ExprV::Lit { f: Frac { num: 0, denom: 1 } })
                } else {
                    keep
                };
                SimOut { t: ExprV::AddN { ts: ts3 }, changed: true, ok: true }
            },
        }
    }
}

/// The node-level rule of the structural pass at a product.
pub open spec fn mul_rule(ts: Seq<ExprV>, ch0: bool, o: SimplifcationOpts) -> SimOut {
    let nl = lits_upto(ts, ts.len() as int);
    if has_zero_upto(ts, ts.len() as int) {
        SimOut { t: ExprV::Lit { f: Frac { num: 0, denom: 1 } }, changed: true, ok: true }
    } else if nl >= 1 {
        match fold_mul_lits(ts, 0, Frac { num: 1, denom: 1 }) {
            None => SimOut { t: ExprV::MulN { ms: ts }, changed: ch0, ok: false },
            Some(f) => {
                let keep = nonlits_upto(ts, ts.len() as int);
                if o.target_integers && f.num == 1 && f.denom != 1 {
                    SimOut {
                        t: ExprV::DivN {
                            qs: seq![
                                ExprV::MulN { ms: keep },
                                ExprV::Lit { f: Frac { num: f.denom, denom: f.num } },
                            ],
                        },
                        changed: true,
                        ok: true,
                    }
                } else {
                    let ts3 = if f.num != f.denom {
                        keep.push(ExprV::Lit { f })
                    } else {
                        keep
                    };
                    let ch1 = if nl >= 2 {
                        true
                    } else {
                        ch0
                    };
                    expand_rule(ts3, ch1, o)
                }
            },
        }
    } else {
        expand_rule(ts, ch0, o)
    }
}

/// The per-function dispatch of the structural pass, on the simplified
/// argument list.
pub open spec fn func_rule(f: FuncV, ts: Seq<ExprV>, ch0: bool) -> SimOut {
    match f {
        FuncV::SineF => if ts[0] == (ExprV::Lit { f: Frac { num: 0, denom: 1 } }) {
            SimOut {
                t: ExprV::Lit { f: Frac { num: 0, denom: 1 } },
                changed: true,
                ok: true,
            }
        } else {
            SimOut { t: ExprV::Apply { f, args: ts }, changed: ch0, ok: true }
        },
        FuncV::AbsF => SimOut {
            t: abs_spec(ts[0]).0,
            changed: ch0 || abs_spec(ts[0]).0 != (ExprV::Apply { f: FuncV::AbsF, args: ts }),
            ok: abs_spec(ts[0]).1,
        },
        _ => SimOut { t: ExprV::Apply { f, args: ts }, changed: ch0, ok: true },
    }
}

/// One structural pass over a tree: children first, then the node rule.
pub open spec fn spec_sim(e: ExprV, o: SimplifcationOpts) -> SimOut
    decreases e, 0int,
{
    match e {
        ExprV::Lit { f } => if reduce_ok(f) {
            SimOut {
                t: ExprV::Lit { f: spec_reduce(f).0 },
                changed: spec_reduce(f).1,
                ok: true,
            }
        } else {
            SimOut { t: e, changed: false, ok: false }
        },
        ExprV::AddN { ts } => {
            let ts2 = sim_seq(ts, o);
            if !sim_ok_seq(ts, o) {
                SimOut { t: ExprV::AddN { ts: ts2 }, changed: sim_ch_seq(ts, o), ok: false }
            } else {
                add_rule(ts2, sim_ch_seq(ts, o), o)
            }
        },
        ExprV::MulN { ms } => {
            let ts2 = sim_seq(ms, o);
            if !sim_ok_seq(ms, o) {
                SimOut { t: ExprV::MulN { ms: ts2 }, changed: sim_ch_seq(ms, o), ok: false }
            } else {
                mul_rule(ts2, sim_ch_seq(ms, o), o)
            }
        },
        ExprV::DivN { qs } => {
            let ts2 = sim_seq(qs, o);
            let ch0 = sim_ch_seq(qs, o);
            if !sim_ok_seq(qs, o) {
                SimOut { t: ExprV::DivN { qs: ts2 }, changed: ch0, ok: false }
            } else if !o.target_integers {
                match ts2[1] {
                    ExprV::Lit { f } => if f.num == 0 {
                        SimOut { t: ExprV::DivN { qs: ts2 }, changed: ch0, ok: false }
                    } else {
                        SimOut {
                            t: ExprV::MulN {
                                ms: ts2.update(
                                    1,
                                    ExprV::Lit { f: Frac { num: f.denom, denom: f.num } },
                                ),
                            },
                            changed: true,
                            ok: true,
                        }
                    },
                    _ => SimOut { t: ExprV::DivN { qs: ts2 }, changed: ch0, ok: true },
                }
            } else {
                SimOut { t: ExprV::DivN { qs: ts2 }, changed: ch0, ok: true }
            }
        },
        ExprV::SubN { ss } => SimOut {
            t: ExprV::SubN { ss: sim_seq(ss, o) },
            changed: sim_ch_seq(ss, o),
            ok: sim_ok_seq(ss, o),
        },
        ExprV::PowN { ps } => SimOut {
            t: ExprV::PowN { ps: sim_seq(ps, o) },
            changed: sim_ch_seq(ps, o),
            ok: sim_ok_seq(ps, o),
        },
        ExprV::Var { name } => SimOut { t: e, changed: false, ok: true },
        ExprV::Apply { f, args } => {
            let ts2 = sim_seq(args, o);
            let ch0 = sim_ch_seq(args, o);
            if !sim_ok_seq(args, o) {
                SimOut { t: ExprV::Apply { f, args: ts2 }, changed: ch0, ok: false }
            } else {
                func_rule(f, ts2, ch0)
            }
        },
        ExprV::Cst { c } => SimOut { t: e, changed: false, ok: true },
    }
}

/// The structural pass applied to each member of a child list.
pub open spec fn sim_seq(cs: Seq<ExprV>, o: SimplifcationOpts) -> Seq<ExprV>
    decreases cs, 1int,
{
    if cs.len() == 0 {
        Seq::empty()
    } else {
        sim_seq(cs.drop_last(), o).push(spec_sim(cs.last(), o).t)
    }
}

/// Whether the structural pass changed any member of a child list.
pub open spec fn sim_ch_seq(cs: Seq<ExprV>, o: SimplifcationOpts) -> bool
    decreases cs, 1int,
{
    if cs.len() == 0 {
        false
    } else {
        sim_ch_seq(cs.drop_last(), o) || spec_sim(cs.last(), o).changed
    }
}

/// Whether the structural pass stayed in range on every member.
pub open spec fn sim_ok_seq(cs: Seq<ExprV>, o: SimplifcationOpts) -> bool
    decreases cs, 1int,
{
    if cs.len() == 0 {
        true
    } else {
        sim_ok_seq(cs.drop_last(), o) && spec_sim(cs.last(), o).ok
    }
}

pub proof fn lemma_sim_seq(cs: Seq<ExprV>, o: SimplifcationOpts)
    ensures
        sim_seq(cs, o).len() == cs.len(),
        forall|i: int|
            0 <= i < cs.len() ==> sim_seq(cs, o)[i] == (#[trigger] spec_sim(cs[i], o)).t,
    decreases cs.len(),
{
    if cs.len() > 0 {
        lemma_sim_seq(cs.drop_last(), o);
        assert forall|i: int| 0 <= i < cs.len() implies sim_seq(cs, o)[i] == (
        #[trigger] spec_sim(cs[i], o)).t by {
            if i < cs.len() - 1 {
                assert(sim_seq(cs, o)[i] == sim_seq(cs.drop_last(), o)[i]);
                assert(cs.drop_last()[i] == cs[i]);
            } else {
                assert(sim_seq(cs, o)[i] == spec_sim(cs.last(), o).t);
            }
        }
    }
}

/// The splice of one node into a sum's child list: a nested sum contributes
/// its children, anything else itself.
pub open spec fn splice_add_one(t: ExprV) -> Seq<ExprV> {
    match t {
        ExprV::AddN { ts } => ts,
        _ => seq![t],
    }
}

pub open spec fn splice_mul_one(t: ExprV) -> Seq<ExprV> {
    match t {
        ExprV::MulN { ms } => ms,
        _ => seq![t],
    }
}

/// The first `i` nodes spliced into a sum's new child list.
pub open spec fn splice_add_upto(ts: Seq<ExprV>, i: int) -> Seq<ExprV>
    decreases i,
{
    if i <= 0 {
        Seq::empty()
    } else {
        splice_add_upto(ts, i - 1) + splice_add_one(ts[i - 1])
    }
}

pub open spec fn splice_mul_upto(ts: Seq<ExprV>, i: int) -> Seq<ExprV>
    decreases i,
{
    if i <= 0 {
        Seq::empty()
    } else {
        splice_mul_upto(ts, i - 1) + splice_mul_one(ts[i - 1])
    }
}

/// A sum node among the first `i`.
pub open spec fn any_add_upto(ts: Seq<ExprV>, i: int) -> bool
    decreases i,
{
    if i <= 0 {
        false
    } else {
        any_add_upto(ts, i - 1) || ts[i - 1] is AddN
    }
}

pub open spec fn any_mul_upto(ts: Seq<ExprV>, i: int) -> bool
    decreases i,
{
    if i <= 0 {
        false
    } else {
        any_mul_upto(ts, i - 1) || ts[i - 1] is MulN
    }
}

/// The first `i` children of a lowered subtraction: the minuend unchanged,
/// every later child multiplied by the literal minus one.
pub open spec fn lower_upto(ts: Seq<ExprV>, i: int) -> Seq<ExprV>
    decreases i,
{
    if i <= 0 {
        Seq::empty()
    } else {
        lower_upto(ts, i - 1).push(
            if i - 1 == 0 {
                ts[0]
            } else {
                ExprV::MulN { ms: seq![ts[i - 1], ExprV::Lit { f: Frac { num: -1i64, denom: 1 } }] }
            },
        )
    }
}

/// One flattening pass over a tree: children first, then associativity
/// splicing and singleton collapse at sums and products, and the lowering
/// of subtraction into signed addition.
pub open spec fn spec_flat(e: ExprV, o: SimplifcationOpts) -> (ExprV, bool)
    decreases e, 0int,
{
    match e {
        ExprV::AddN { ts } => {
            let ts2 = flat_seq(ts, o);
            let ch0 = flat_ch_seq(ts, o);
            let sp = splice_add_upto(ts2, ts2.len() as int);
            if sp.len() == 1 {
                (sp[0], true)
            } else {
                (ExprV::AddN { ts: sp }, ch0 || any_add_upto(ts2, ts2.len() as int))
            }
        },
        ExprV::MulN { ms } => {
            let ts2 = flat_seq(ms, o);
            let ch0 = flat_ch_seq(ms, o);
            let sp = splice_mul_upto(ts2, ts2.len() as int);
            if sp.len() == 1 {
                (sp[0], true)
            } else {
                (ExprV::MulN { ms: sp }, ch0 || any_mul_upto(ts2, ts2.len() as int))
            }
        },
        ExprV::DivN { qs } => (ExprV::DivN { qs: flat_seq(qs, o) }, flat_ch_seq(qs, o)),
        ExprV::SubN { ss } => {
            let ts2 = flat_seq(ss, o);
            (ExprV::AddN { ts: lower_upto(ts2, ts2.len() as int) }, true)
        },
        ExprV::PowN { ps } => (ExprV::PowN { ps: flat_seq(ps, o) }, flat_ch_seq(ps, o)),
        ExprV::Apply { f, args } => (
            ExprV::Apply { f, args: flat_seq(args, o) },
            flat_ch_seq(args, o),
        ),
        _ => (e, false),
    }
}

/// The flattening pass applied to each member of a child list.
pub open spec fn flat_seq(cs: Seq<ExprV>, o: SimplifcationOpts) -> Seq<ExprV>
    decreases cs, 1int,
{
    if cs.len() == 0 {
        Seq::empty()
    } else {
        flat_seq(cs.drop_last(), o).push(spec_flat(cs.last(), o).0)
    }
}

pub open spec fn flat_ch_seq(cs: Seq<ExprV>, o: SimplifcationOpts) -> bool
    decreases cs, 1int,
{
    if cs.len() == 0 {
        false
    } else {
        flat_ch_seq(cs.drop_last(), o) || spec_flat(cs.last(), o).1
    }
}

pub proof fn lemma_flat_seq(cs: Seq<ExprV>, o: SimplifcationOpts)
    ensures
        flat_seq(cs, o).len() == cs.len(),
        forall|i: int|
            0 <= i < cs.len() ==> flat_seq(cs, o)[i] == (#[trigger] spec_flat(cs[i], o)).0,
    decreases cs.len(),
{
    if cs.len() > 0 {
        lemma_flat_seq(cs.drop_last(), o);
        assert forall|i: int| 0 <= i < cs.len() implies flat_seq(cs, o)[i] == (
        #[trigger] spec_flat(cs[i], o)).0 by {
            if i < cs.len() - 1 {
                assert(flat_seq(cs, o)[i] == flat_seq(cs.drop_last(), o)[i]);
                assert(cs.drop_last()[i] == cs[i]);
            } else {
                assert(flat_seq(cs, o)[i] == spec_flat(cs.last(), o).0);
            }
        }
    }
}

/// The way a run of the engine can end.
#[derive(Clone, Copy, PartialEq, Eq, Structural, Debug)]
pub enum SimplifyError {
    /// A literal fold or reciprocal would leave the word range or divide by
    /// zero.
    Arithmetic,
    /// The round cap was reached before the passes stabilized.
    IterationLimit,
}

/// The fixpoint driver: structural pass, flattening pass, again while
/// either reports a change, with a round budget.
pub open spec fn spec_fix(t: ExprV, o: SimplifcationOpts, fuel: nat) -> (
    ExprV,
    Result<(), SimplifyError>,
)
    decreases fuel,
{
    if fuel == 0 {
        (t, Err(SimplifyError::IterationLimit))
    } else {
        let s = spec_sim(t, o);
        if !s.ok {
            (s.t, Err(SimplifyError::Arithmetic))
        } else {
            let (t2, c2) = spec_flat(s.t, o);
            if !s.changed && !c2 {
                (t2, Ok(()))
            } else {
                spec_fix(t2, o, (fuel - 1) as nat)
            }
        }
    }
}

/// The round budget of the fixpoint driver.
pub const MAX_ROUNDS: u64 = 4294967295;

impl Expr {
    /// A literal factor distributed over this node: into every term of a
    /// sum, or paired up as a plain product otherwise.
    pub fn mul_frac(self, frac: Frac, _opts: &SimplifcationOpts) -> (r: (Expr, bool))
        requires
            wf(self),
        ensures
            (r.0)@ == expand_one(self@, ExprV::Lit { f: frac }).0,
            r.1 == expand_one(self@, ExprV::Lit { f: frac }).1,
            wf(r.0),
    {
        let ghost sv = self@;
        match self.operator {
            Operator::Add => {
                let els = self.elements.unwrap();
                let ghost orig = els@;
                let ghost ts = views_of(orig);
                proof {
                    lemma_views_of(orig);
                    assert(sv == ExprV::AddN { ts });
                }
                let mut rest = els;
                let mut out: Vec<Expr> = Vec::new();
                while rest.len() > 0
                    invariant
                        out@.len() + rest@.len() == orig.len(),
                        ts == views_of(orig),
                        ts.len() == orig.len(),
                        forall|j: int| 0 <= j < orig.len() ==> (#[trigger] orig[j])@ == ts[j],
                        forall|j: int| 0 <= j < orig.len() ==> wf(#[trigger] orig[j]),
                        forall|j: int|
                            0 <= j < rest@.len() ==> #[trigger] rest@[j] == orig[out@.len() + j],
                        views_of(out@) == dist_upto(ts, out@.len() as int, frac),
                        forall|j: int| 0 <= j < out@.len() ==> wf(#[trigger] out@[j]),
                    decreases rest@.len(),
                {
                    let ghost done = out@.len() as int;
                    let child = rest.remove(0);
                    proof {
                        assert(child == orig[done]);
                    }
                    let term = child.mul(Expr::frac_cpy(&frac));
                    let ghost prevout = out@;
                    out.push(term);
                    proof {
                        assert(out@.drop_last() =~= prevout);
                        assert(out@.last() == term);
                        assert(views_of(out@) == views_of(out@.drop_last()).push(
                        out@.last()@));
                        assert(views_of(out@) =~= dist_upto(ts, done + 1, frac));
                    }
                }
                let r = Expr { operator: Operator::Add, elements: Some(out) };
                proof {
                    assert(kids_view(r.elements) == views_of(r.elements->0@));
                }
                (r, true)
            },
            op => {
                let kept = Expr { operator: op, elements: self.elements };
                proof {
                    assert(kept == self);
                }
                let r = kept.mul(Expr::frac_cpy(&frac));
                (r, false)
            },
        }
    }

    /// One step of the distributing left fold: a literal right operand is
    /// distributed by `mul_frac`, anything else pairs up as a product.
    pub fn expand_mul(self, other: Expr, opts: &SimplifcationOpts) -> (r: (Expr, bool))
        requires
            wf(self),
            wf(other),
        ensures
            (r.0)@ == expand_one(self@, other@).0,
            r.1 == expand_one(self@, other@).1,
            wf(r.0),
    {
        match other.operator {
            Operator::Frac(f) => self.mul_frac(f, opts),
            op => {
                let o2 = Expr { operator: op, elements: other.elements };
                proof {
                    assert(o2 == other);
                }
                let r = self.mul(o2);
                (r, false)
            },
        }
    }
}

/// The structural pass applied to every member of a child list, in order.
fn sim_children(els: Vec<Expr>, opts: &SimplifcationOpts, Ghost(pv): Ghost<ExprV>) -> (r: (
    Vec<Expr>,
    bool,
    bool,
))
    requires
        forall|i: int|
            0 <= i < els@.len() ==> wf(#[trigger] els@[i]) && decreases_to!(pv => els@[i]@),
    ensures
        r.0@.len() == els@.len(),
        views_of(r.0@) == sim_seq(views_of(els@), *opts),
        r.1 == sim_ch_seq(views_of(els@), *opts),
        r.2 == sim_ok_seq(views_of(els@), *opts),
        forall|i: int| 0 <= i < r.0@.len() ==> wf(#[trigger] r.0@[i]),
    decreases pv, 1int,
{
    let ghost orig = els@;
    let ghost cs = views_of(orig);
    proof {
        lemma_views_of(orig);
    }
    let mut rest = els;
    let mut out: Vec<Expr> = Vec::new();
    let mut ch = false;
    let mut ok = true;
    while rest.len() > 0
        invariant
            out@.len() + rest@.len() == orig.len(),
            cs == views_of(orig),
            cs.len() == orig.len(),
            forall|j: int| 0 <= j < orig.len() ==> (#[trigger] orig[j])@ == cs[j],
            forall|j: int|
                0 <= j < orig.len() ==> wf(#[trigger] orig[j]) && decreases_to!(pv => orig[j]@),
            forall|j: int| 0 <= j < rest@.len() ==> #[trigger] rest@[j] == orig[out@.len() + j],
            views_of(out@) == sim_seq(cs.take(out@.len() as int), *opts),
            ch == sim_ch_seq(cs.take(out@.len() as int), *opts),
            ok == sim_ok_seq(cs.take(out@.len() as int), *opts),
            forall|j: int| 0 <= j < out@.len() ==> wf(#[trigger] out@[j]),
        decreases rest@.len(),
    {
        let ghost done = out@.len() as int;
        let child = rest.remove(0);
        proof {
            assert(child == orig[done]);
            assert(decreases_to!(pv => child@));
        }
        let (c2, cch, cok) = sim_node(child, opts, Ghost(pv));
        let ghost prevout = out@;
        out.push(c2);
        ch = ch || cch;
        ok = ok && cok;
        proof {
            let t1 = cs.take(done + 1);
            assert(t1.drop_last() =~= cs.take(done));
            assert(t1.last() == cs[done]);
            assert(out@.drop_last() =~= prevout);
            assert(out@.last() == c2);
            assert(views_of(out@) == views_of(out@.drop_last()).push(out@.last()@));
            assert(views_of(out@) =~= sim_seq(t1, *opts));
        }
    }
    proof {
        assert(cs.take(cs.len() as int) =~= cs);
    }
    (out, ch, ok)
}

/// One structural pass at a node, by value: children first, then the rule
/// for this node's tag, every arithmetic step checked.
#[verifier::spinoff_prover]
#[verifier::rlimit(100)]
fn sim_node(e: Expr, opts: &SimplifcationOpts, Ghost(pv): Ghost<ExprV>) -> (r: (Expr, bool, bool))
    requires
        wf(e),
        decreases_to!(pv => e@),
    ensures
        (r.0)@ == spec_sim(e@, *opts).t,
        r.1 == spec_sim(e@, *opts).changed,
        r.2 == spec_sim(e@, *opts).ok,
        wf(r.0),
    decreases pv, 0int,
{
    let ghost ev = e@;
    let Expr { operator, elements } = e;
    match operator {
        Operator::Frac(f) => {
            if (f.num == i64::MIN && f.denom == -1) || (f.num == -1 && f.denom == i64::MIN) || (
            f.num == 0 && f.denom == 0) {
                return (Expr { operator: Operator::Frac(f), elements }, false, false);
            }
            let g = crate::num::gcdi64(f.num, f.denom);
            if g == -1 && (f.num == i64::MIN || f.denom == i64::MIN) {
                return (Expr { operator: Operator::Frac(f), elements }, false, false);
            }
            let mut fr = f;
            let ch = fr.simplify();
            (Expr { operator: Operator::Frac(fr), elements }, ch, true)
        },
        Operator::Add => {
            let els = elements.unwrap();
            let ghost cs = views_of(els@);
            proof {
                lemma_views_of(els@);
                assert(ev == ExprV::AddN { ts: cs });
                assert forall|i: int| 0 <= i < els@.len() implies wf(#[trigger] els@[i])
                    && decreases_to!(ev => els@[i]@) by {
                    assert(els@[i]@ == cs[i]);
                    assert(decreases_to!(ev => ev->ts));
                    assert(decreases_to!(ev->ts => ev->ts[i]));
                }
            }
            let (els2, ch0, ok0) = sim_children(els, opts, Ghost(ev));
            let ghost ts2 = views_of(els2@);
            proof {
                lemma_views_of(els2@);
            }
            if !ok0 {
                let r = Expr { operator: Operator::Add, elements: Some(els2) };
                return (r, ch0, false);
            }
            let mut nlit: usize = 0;
            let mut haszero = false;
            let mut i: usize = 0;
            while i < els2.len()
                invariant
                    i <= els2@.len(),
                    ts2 == views_of(els2@),
                    ts2.len() == els2@.len(),
                    forall|j: int| 0 <= j < els2@.len() ==> (#[trigger] els2@[j])@ == ts2[j],
                    nlit <= i,
                    nlit as nat == lits_upto(ts2, i as int),
                    haszero == has_zero_upto(ts2, i as int),
                decreases els2@.len() - i,
            {
                proof {
                    assert(els2@[i as int]@ == ts2[i as int]);
                }
                match &els2[i].operator {
                    Operator::Frac(ff) => {
                        nlit = nlit + 1;
                        if ff.num == 0 {
                            haszero = true;
                        }
                    },
                    _ => {},
                }
                i = i + 1;
            }
            if nlit <= 1 && !haszero {
                let r = Expr { operator: Operator::Add, elements: Some(els2) };
                return (r, ch0, true);
            }
            let mut acc = Frac::new(0, 1);
            let mut fold_ok = true;
            let mut i2: usize = 0;
            while i2 < els2.len() && fold_ok
                invariant
                    i2 <= els2@.len(),
                    ts2 == views_of(els2@),
                    ts2.len() == els2@.len(),
                    forall|j: int| 0 <= j < els2@.len() ==> (#[trigger] els2@[j])@ == ts2[j],
                    fold_ok ==> fold_add_lits(ts2, 0, Frac { num: 0, denom: 1 })
                        == fold_add_lits(ts2, i2 as int, acc),
                    !fold_ok ==> fold_add_lits(ts2, 0, Frac { num: 0, denom: 1 }) is None,
                decreases els2@.len() - i2,
            {
                proof {
                    assert(els2@[i2 as int]@ == ts2[i2 as int]);
                }
                match &els2[i2].operator {
                    Operator::Frac(ff) => {
                        match acc.checked_add(*ff) {
                            Some(a2) => {
                                acc = a2;
                            },
                            None => {
                                fold_ok = false;
                            },
                        }
                    },
                    _ => {},
                }
                i2 = i2 + 1;
            }
            if !fold_ok {
                let r = Expr { operator: Operator::Add, elements: Some(els2) };
                return (r, ch0, false);
            }
            let ghost foldres = fold_add_lits(ts2, 0, Frac { num: 0, denom: 1 });
            proof {
                assert(foldres == Some(acc));
            }
            let mut rest2 = els2;
            let mut keep: Vec<Expr> = Vec::new();
            let ghost orig2 = rest2@;
            while rest2.len() > 0
                invariant
                    rest2@.len() <= orig2.len(),
                    keep@.len() <= orig2.len() - rest2@.len(),
                    ts2.len() == orig2.len(),
                    forall|j: int| 0 <= j < orig2.len() ==> (#[trigger] orig2[j])@ == ts2[j],
                    forall|j: int| 0 <= j < orig2.len() ==> wf(#[trigger] orig2[j]),
                    forall|j: int|
                        0 <= j < rest2@.len() ==> #[trigger] rest2@[j] == orig2[orig2.len()
                            - rest2@.len() + j],
                    views_of(keep@) == nonlits_upto(ts2, orig2.len() - rest2@.len()),
                    forall|j: int| 0 <= j < keep@.len() ==> wf(#[trigger] keep@[j]),
                decreases rest2@.len(),
            {
                let ghost k = orig2.len() - rest2@.len();
                let child = rest2.remove(0);
                proof {
                    assert(child == orig2[k]);
                    assert(child@ == ts2[k]);
                }
                let is_lit = match &child.operator {
                    Operator::Frac(_) => true,
                    _ => false,
                };
                if !is_lit {
                    let ghost prevkeep = keep@;
                    keep.push(child);
                    proof {
                        assert(keep@.drop_last() =~= prevkeep);
                        assert(keep@.last() == child);
                        assert(views_of(keep@) == views_of(keep@.drop_last()).push(
                        keep@.last()@));
                        assert(views_of(keep@) =~= nonlits_upto(ts2, k + 1));
                    }
                } else {
                    proof {
                        assert(views_of(keep@) =~= nonlits_upto(ts2, k + 1));
                    }
                }
            }
            let ghost nls = nonlits_upto(ts2, ts2.len() as int);
            if acc.num != 0 {
                let ghost prevkeep = keep@;
                keep.push(Expr::frac_cpy(&acc));
                proof {
                    assert(keep@.drop_last() =~= prevkeep);
                    assert(keep@.drop_last() == prevkeep);
                    assert(views_of(keep@) == views_of(keep@.drop_last()).push(keep@.last()@));
                    assert(keep@.last()@ == (ExprV::Lit { f: acc }));
                    assert(views_of(keep@) =~= nls.push(ExprV::Lit { f: acc }));
                }
            } else if keep.len() == 0 {
                keep.push(Expr::integer(0));
                proof {
                    assert(keep@.drop_last() =~= Seq::<Expr>::empty());
                    assert(keep@.drop_last() == Seq::<Expr>::empty());
                    assert(views_of(keep@) == views_of(keep@.drop_last()).push(keep@.last()@));
                    assert(views_of(keep@) =~= nls.push(
                        ExprV::Lit { f: Frac { num: 0, denom: 1 } },
                    ));
                }
            }
            let r = Expr { operator: Operator::Add, elements: Some(keep) };
            proof {
                assert(spec_sim(ev, *opts) == add_rule(ts2, ch0, *opts));
                assert(r@ == add_rule(ts2, ch0, *opts).t);
            }
            (r, true, true)
        },
        Operator::Sub => {
            let els = elements.unwrap();
            let ghost cs = views_of(els@);
            proof {
                lemma_views_of(els@);
                assert(ev == ExprV::SubN { ss: cs });
                assert forall|i: int| 0 <= i < els@.len() implies wf(#[trigger] els@[i])
                    && decreases_to!(ev => els@[i]@) by {
                    assert(els@[i]@ == cs[i]);
                    assert(decreases_to!(ev => ev->ss));
                    assert(decreases_to!(ev->ss => ev->ss[i]));
                }
            }
            let (els2, ch0, ok0) = sim_children(els, opts, Ghost(ev));
            let r = Expr { operator: Operator::Sub, elements: Some(els2) };
            (r, ch0, ok0)
        },
        Operator::Pow => {
            let els = elements.unwrap();
            let ghost cs = views_of(els@);
            proof {
                lemma_views_of(els@);
                assert(ev == ExprV::PowN { ps: cs });
                assert forall|i: int| 0 <= i < els@.len() implies wf(#[trigger] els@[i])
                    && decreases_to!(ev => els@[i]@) by {
                    assert(els@[i]@ == cs[i]);
                    assert(decreases_to!(ev => ev->ps));
                    assert(decreases_to!(ev->ps => ev->ps[i]));
                }
            }
            let (els2, ch0, ok0) = sim_children(els, opts, Ghost(ev));
            let r = Expr { operator: Operator::Pow, elements: Some(els2) };
            (r, ch0, ok0)
        },
        Operator::Name(s) => (Expr { operator: Operator::Name(s), elements }, false, true),
        Operator::Const(c) => (Expr { operator: Operator::Const(c), elements }, false, true),
        Operator::Div => {
            let els = elements.unwrap();
            let ghost cs = views_of(els@);
            proof {
                lemma_views_of(els@);
                assert(ev == ExprV::DivN { qs: cs });
                assert forall|i: int| 0 <= i < els@.len() implies wf(#[trigger] els@[i])
                    && decreases_to!(ev => els@[i]@) by {
                    assert(els@[i]@ == cs[i]);
                    assert(decreases_to!(ev => ev->qs));
                    assert(decreases_to!(ev->qs => ev->qs[i]));
                }
            }
            let (els2, ch0, ok0) = sim_children(els, opts, Ghost(ev));
            let ghost ts2 = views_of(els2@);
            proof {
                lemma_views_of(els2@);
            }
            if !ok0 {
                let r = Expr { operator: Operator::Div, elements: Some(els2) };
                return (r, ch0, false);
            }
            if !opts.target_integers {
                proof {
                    assert(els2@[1]@ == ts2[1]);
                }
                let mut invf: Option<Frac> = None;
                let mut zero_den = false;
                match &els2[1].operator {
                    Operator::Frac(ff) => {
                        if ff.num == 0 {
                            zero_den = true;
                        } else {
                            invf = Some(ff.inv());
                        }
                    },
                    _ => {},
                }
                if zero_den {
                    let r = Expr { operator: Operator::Div, elements: Some(els2) };
                    return (r, ch0, false);
                }
                match invf {
                    Some(nf) => {
                        let mut els3 = els2;
                        let ghost before = els3@;
                        let lit = Expr::frac_cpy(&nf);
                        let _removed = els3.remove(1);
                        els3.insert(1, lit);
                        proof {
                            assert(els3@ =~= before.update(1, lit));
                            lemma_views_of(els3@);
                            assert forall|j: int| 0 <= j < els3@.len() implies views_of(
                            els3@)[j] == ts2.update(1, ExprV::Lit { f: nf })[j] by {
                                assert(views_of(els3@)[j] == els3@[j]@);
                                if j != 1 {
                                    assert(els3@[j] == before[j]);
                                }
                            }
                            assert(views_of(els3@) =~= ts2.update(1, ExprV::Lit { f: nf }));
                        }
                        let r = Expr { operator: Operator::Mul, elements: Some(els3) };
                        (r, true, true)
                    },
                    None => {
                        let r = Expr { operator: Operator::Div, elements: Some(els2) };
                        (r, ch0, true)
                    },
                }
            } else {
                let r = Expr { operator: Operator::Div, elements: Some(els2) };
                (r, ch0, true)
            }
        },
        Operator::Func(f) => {
            let els = elements.unwrap();
            let ghost cs = views_of(els@);
            proof {
                lemma_views_of(els@);
                assert(ev == ExprV::Apply { f: crate::expr::func_view(f), args: cs });
                assert forall|i: int| 0 <= i < els@.len() implies wf(#[trigger] els@[i])
                    && decreases_to!(ev => els@[i]@) by {
                    assert(els@[i]@ == cs[i]);
                    assert(decreases_to!(ev => ev->args));
                    assert(decreases_to!(ev->args => ev->args[i]));
                }
            }
            let (els2, ch0, ok0) = sim_children(els, opts, Ghost(ev));
            let ghost ts2 = views_of(els2@);
            proof {
                lemma_views_of(els2@);
            }
            if !ok0 {
                let r = Expr { operator: Operator::Func(f), elements: Some(els2) };
                return (r, ch0, false);
            }
            match &f {
                FuncIdentifier::Name(_) | FuncIdentifier::Cosine | FuncIdentifier::Tangent => {
                    let r = Expr { operator: Operator::Func(f), elements: Some(els2) };
                    (r, ch0, true)
                },
                FuncIdentifier::Sine => {
                    proof {
                        assert(els2@[0]@ == ts2[0]);
                    }
                    let mut zero = false;
                    match &els2[0].operator {
                        Operator::Frac(ff) => {
                            if ff.num == 0 && ff.denom == 1 {
                                zero = true;
                            }
                        },
                        _ => {},
                    }
                    if zero {
                        (Expr::integer(0), true, true)
                    } else {
                        let r = Expr { operator: Operator::Func(f), elements: Some(els2) };
                        (r, ch0, true)
                    }
                },
                FuncIdentifier::Abs => {
                    let mut els3 = els2;
                    proof {
                        assert(els3@[0]@ == ts2[0]);
                    }
                    let nargs = els3.len();
                    let first = els3.remove(0);
                    let wraps = match &first.operator {
                        Operator::Sub => true,
                        Operator::Pow => true,
                        Operator::Name(_) => true,
                        Operator::Func(_) => true,
                        _ => false,
                    };
                    let same = wraps && nargs == 1;
                    proof {
                        let ghost same_g = abs_spec(ts2[0]).0 == (ExprV::Apply {
                            f: FuncV::AbsF,
                            args: ts2,
                        });
                        assert(first@ == ts2[0]);
                        match first.operator {
                            Operator::Sub | Operator::Pow | Operator::Name(_)
                                | Operator::Func(_) => {
                                assert(abs_spec(ts2[0]).0 == (ExprV::Apply {
                                    f: FuncV::AbsF,
                                    args: seq![ts2[0]],
                                }));
                                if nargs == 1 {
                                    assert(ts2 =~= seq![ts2[0]]);
                                    assert(same_g);
                                } else {
                                    assert(seq![ts2[0]].len() == 1 && ts2.len() != 1);
                                    assert(!same_g);
                                }
                            },
                            Operator::Frac(_) => {
                                assert(!(abs_spec(ts2[0]).0 is Apply));
                                assert(!same_g);
                            },
                            Operator::Add => {
                                assert(!(abs_spec(ts2[0]).0 is Apply));
                                assert(!same_g);
                            },
                            Operator::Mul => {
                                assert(!(abs_spec(ts2[0]).0 is Apply));
                                assert(!same_g);
                            },
                            Operator::Div => {
                                assert(!(abs_spec(ts2[0]).0 is Apply));
                                assert(!same_g);
                            },
                            Operator::Const(_) => {
                                assert(!(abs_spec(ts2[0]).0 is Apply));
                                assert(!same_g);
                            },
                        }
                        assert(same == same_g);
                    }
                    let ghost apv = ExprV::AddN { ts: seq![first@] };
                    proof {
                        assert(decreases_to!(apv => apv->ts));
                        assert(decreases_to!(apv->ts => apv->ts[0]));
                    }
                    let (t2, aok) = abs_node(first, Ghost(apv));
                    (t2, ch0 || !same, aok)
                },
            }
        },
        Operator::Mul => {
            let els = elements.unwrap();
            let ghost cs = views_of(els@);
            proof {
                lemma_views_of(els@);
                assert(ev == ExprV::MulN { ms: cs });
                assert forall|i: int| 0 <= i < els@.len() implies wf(#[trigger] els@[i])
                    && decreases_to!(ev => els@[i]@) by {
                    assert(els@[i]@ == cs[i]);
                    assert(decreases_to!(ev => ev->ms));
                    assert(decreases_to!(ev->ms => ev->ms[i]));
                }
            }
            let (els2, ch0, ok0) = sim_children(els, opts, Ghost(ev));
            let ghost ts2 = views_of(els2@);
            proof {
                lemma_views_of(els2@);
            }
            if !ok0 {
                let r = Expr { operator: Operator::Mul, elements: Some(els2) };
                return (r, ch0, false);
            }
            let mut nlit: usize = 0;
            let mut iszero = false;
            let mut i: usize = 0;
            while i < els2.len()
                invariant
                    i <= els2@.len(),
                    ts2 == views_of(els2@),
                    ts2.len() == els2@.len(),
                    forall|j: int| 0 <= j < els2@.len() ==> (#[trigger] els2@[j])@ == ts2[j],
                    nlit <= i,
                    nlit as nat == lits_upto(ts2, i as int),
                    iszero == has_zero_upto(ts2, i as int),
                decreases els2@.len() - i,
            {
                proof {
                    assert(els2@[i as int]@ == ts2[i as int]);
                }
                match &els2[i].operator {
                    Operator::Frac(ff) => {
                        nlit = nlit + 1;
                        if ff.num == 0 {
                            iszero = true;
                        }
                    },
                    _ => {},
                }
                i = i + 1;
            }
            if iszero {
                return (Expr::integer(0), true, true);
            }
            let mut cur: Vec<Expr>;
            let chx: bool;
            if nlit >= 1 {
                let mut acc = Frac::new(1, 1);
                let mut fold_ok = true;
                let mut i2: usize = 0;
                while i2 < els2.len() && fold_ok
                    invariant
                        i2 <= els2@.len(),
                        ts2 == views_of(els2@),
                        ts2.len() == els2@.len(),
                        forall|j: int| 0 <= j < els2@.len() ==> (#[trigger] els2@[j])@ == ts2[j],
                        fold_ok ==> fold_mul_lits(ts2, 0, Frac { num: 1, denom: 1 })
                            == fold_mul_lits(ts2, i2 as int, acc),
                        !fold_ok ==> fold_mul_lits(ts2, 0, Frac { num: 1, denom: 1 }) is None,
                    decreases els2@.len() - i2,
                {
                    proof {
                        assert(els2@[i2 as int]@ == ts2[i2 as int]);
                    }
                    match &els2[i2].operator {
                        Operator::Frac(ff) => {
                            match acc.checked_mul(*ff) {
                                Some(a2) => {
                                    acc = a2;
                                },
                                None => {
                                    fold_ok = false;
                                },
                            }
                        },
                        _ => {},
                    }
                    i2 = i2 + 1;
                }
                if !fold_ok {
                    let r = Expr { operator: Operator::Mul, elements: Some(els2) };
                    return (r, ch0, false);
                }
                let mut rest2 = els2;
                let mut keep: Vec<Expr> = Vec::new();
                let ghost orig2 = rest2@;
                while rest2.len() > 0
                    invariant
                        rest2@.len() <= orig2.len(),
                        keep@.len() <= orig2.len() - rest2@.len(),
                        ts2.len() == orig2.len(),
                        forall|j: int| 0 <= j < orig2.len() ==> (#[trigger] orig2[j])@ == ts2[j],
                        forall|j: int| 0 <= j < orig2.len() ==> wf(#[trigger] orig2[j]),
                        forall|j: int|
                            0 <= j < rest2@.len() ==> #[trigger] rest2@[j] == orig2[orig2.len()
                                - rest2@.len() + j],
                        views_of(keep@) == nonlits_upto(ts2, orig2.len() - rest2@.len()),
                        forall|j: int| 0 <= j < keep@.len() ==> wf(#[trigger] keep@[j]),
                    decreases rest2@.len(),
                {
                    let ghost k = orig2.len() - rest2@.len();
                    let child = rest2.remove(0);
                    proof {
                        assert(child == orig2[k]);
                        assert(child@ == ts2[k]);
                    }
                    let is_lit = match &child.operator {
                        Operator::Frac(_) => true,
                        _ => false,
                    };
                    if !is_lit {
                        let ghost prevkeep = keep@;
                        keep.push(child);
                        proof {
                            assert(keep@.drop_last() =~= prevkeep);
                            assert(keep@.last() == child);
                            assert(views_of(keep@) == views_of(keep@.drop_last()).push(
                            keep@.last()@));
                            assert(views_of(keep@) =~= nonlits_upto(ts2, k + 1));
                        }
                    } else {
                        proof {
                            assert(views_of(keep@) =~= nonlits_upto(ts2, k + 1));
                        }
                    }
                }
                if opts.target_integers && acc.num == 1 && acc.denom != 1 {
                    let inner = Expr { operator: Operator::Mul, elements: Some(keep) };
                    let lit = Expr::frac_cpy(&acc.inv());
                    let r = Expr {
                        operator: Operator::Div,
                        elements: Some(vec![inner, lit]),
                    };
                    proof {
                        assert(r.elements->0@.len() == 2);
                        lemma_views_of(r.elements->0@);
                        assert(r.elements->0@[0] == inner);
                        assert(r.elements->0@[1] == lit);
                        assert(wf(inner));
                        assert(wf(lit));
                        assert(views_of(r.elements->0@) =~= seq![
                            r.elements->0@[0]@,
                            r.elements->0@[1]@,
                        ]);
                    }
                    return (r, true, true);
                }
                if acc.num != acc.denom {
                    let ghost prevkeep = keep@;
                    keep.push(Expr::frac_cpy(&acc));
                    proof {
                        assert(keep@.drop_last() =~= prevkeep);
                        assert(views_of(keep@) == views_of(keep@.drop_last()).push(
                        keep@.last()@));
                    }
                }
                cur = keep;
                chx = if nlit >= 2 {
                    true
                } else {
                    ch0
                };
            } else {
                cur = els2;
                chx = ch0;
            }
            let ghost ts3 = views_of(cur@);
            proof {
                lemma_views_of(cur@);
            }
            if opts.expand && cur.len() > 1 {
                let mut rest3 = cur;
                let ghost orig3 = rest3@;
                let mut acc_e = rest3.remove(0);
                proof {
                    assert(acc_e == orig3[0]);
                    assert(acc_e@ == ts3[0]);
                }
                let mut ech = false;
                while rest3.len() > 0
                    invariant
                        rest3@.len() < orig3.len(),
                        ts3.len() == orig3.len(),
                        ts3.len() > 1,
                        forall|j: int| 0 <= j < orig3.len() ==> (#[trigger] orig3[j])@ == ts3[j],
                        forall|j: int| 0 <= j < orig3.len() ==> wf(#[trigger] orig3[j]),
                        forall|j: int|
                            0 <= j < rest3@.len() ==> #[trigger] rest3@[j] == orig3[orig3.len()
                                - rest3@.len() + j],
                        wf(acc_e),
                        expand_fold(ts3, 1, ts3[0]).0 == expand_fold(
                            ts3,
                            orig3.len() - rest3@.len(),
                            acc_e@,
                        ).0,
                        expand_fold(ts3, 1, ts3[0]).1 == (ech || expand_fold(
                            ts3,
                            orig3.len() - rest3@.len(),
                            acc_e@,
                        ).1),
                    decreases rest3@.len(),
                {
                    let ghost k = orig3.len() - rest3@.len();
                    let nxt = rest3.remove(0);
                    proof {
                        assert(nxt == orig3[k]);
                        assert(nxt@ == ts3[k]);
                    }
                    let (a2, c2) = acc_e.expand_mul(nxt, opts);
                    acc_e = a2;
                    ech = ech || c2;
                }
                proof {
                    assert(acc_e@ == expand_rule(ts3, chx, *opts).t);
                    assert(spec_sim(ev, *opts).t == expand_rule(ts3, chx, *opts).t);
                }
                (acc_e, chx || ech, true)
            } else {
                let r = Expr { operator: Operator::Mul, elements: Some(cur) };
                proof {
                    assert(r@ == expand_rule(ts3, chx, *opts).t);
                    assert(spec_sim(ev, *opts).t == expand_rule(ts3, chx, *opts).t);
                }
                (r, chx, true)
            }
        },
    }
}

proof fn lemma_views_of_concat(a: Seq<Expr>, b: Seq<Expr>)
    ensures
        views_of(a + b) == views_of(a) + views_of(b),
    decreases b.len(),
{
    if b.len() == 0 {
        assert(a + b =~= a);
        assert(views_of(a) + views_of(b) =~= views_of(a));
    } else {
        lemma_views_of_concat(a, b.drop_last());
        assert((a + b).drop_last() =~= a + b.drop_last());
        assert((a + b).last() == b.last());
        assert(views_of(a + b) == views_of((a + b).drop_last()).push((a + b).last()@));
        assert(views_of(b) == views_of(b.drop_last()).push(b.last()@));
        assert(views_of(a) + views_of(b) =~= (views_of(a) + views_of(b.drop_last())).push(
        b.last()@));
    }
}

/// The flattening pass applied to every member of a child list, in order.
fn flat_children(els: Vec<Expr>, opts: &SimplifcationOpts, Ghost(pv): Ghost<ExprV>) -> (r: (
    Vec<Expr>,
    bool,
))
    requires
        forall|i: int|
            0 <= i < els@.len() ==> wf(#[trigger] els@[i]) && decreases_to!(pv => els@[i]@),
    ensures
        r.0@.len() == els@.len(),
        views_of(r.0@) == flat_seq(views_of(els@), *opts),
        r.1 == flat_ch_seq(views_of(els@), *opts),
        forall|i: int| 0 <= i < r.0@.len() ==> wf(#[trigger] r.0@[i]),
    decreases pv, 1int,
{
    let ghost orig = els@;
    let ghost cs = views_of(orig);
    proof {
        lemma_views_of(orig);
    }
    let mut rest = els;
    let mut out: Vec<Expr> = Vec::new();
    let mut ch = false;
    while rest.len() > 0
        invariant
            out@.len() + rest@.len() == orig.len(),
            cs == views_of(orig),
            cs.len() == orig.len(),
            forall|j: int| 0 <= j < orig.len() ==> (#[trigger] orig[j])@ == cs[j],
            forall|j: int|
                0 <= j < orig.len() ==> wf(#[trigger] orig[j]) && decreases_to!(pv => orig[j]@),
            forall|j: int| 0 <= j < rest@.len() ==> #[trigger] rest@[j] == orig[out@.len() + j],
            views_of(out@) == flat_seq(cs.take(out@.len() as int), *opts),
            ch == flat_ch_seq(cs.take(out@.len() as int), *opts),
            forall|j: int| 0 <= j < out@.len() ==> wf(#[trigger] out@[j]),
        decreases rest@.len(),
    {
        let ghost done = out@.len() as int;
        let child = rest.remove(0);
        proof {
            assert(child == orig[done]);
            assert(decreases_to!(pv => child@));
        }
        let (c2, cch) = flat_node(child, opts, Ghost(pv));
        let ghost prevout = out@;
        out.push(c2);
        ch = ch || cch;
        proof {
            let t1 = cs.take(done + 1);
            assert(t1.drop_last() =~= cs.take(done));
            assert(t1.last() == cs[done]);
            assert(out@.drop_last() =~= prevout);
            assert(out@.last() == c2);
            assert(views_of(out@) == views_of(out@.drop_last()).push(out@.last()@));
            assert(views_of(out@) =~= flat_seq(t1, *opts));
        }
    }
    proof {
        assert(cs.take(cs.len() as int) =~= cs);
    }
    (out, ch)
}

/// One flattening pass at a node, by value: children first, then splicing,
/// singleton collapse and subtraction lowering.
#[verifier::spinoff_prover]
#[verifier::rlimit(100)]
fn flat_node(e: Expr, opts: &SimplifcationOpts, Ghost(pv): Ghost<ExprV>) -> (r: (Expr, bool))
    requires
        wf(e),
        decreases_to!(pv => e@),
    ensures
        (r.0)@ == spec_flat(e@, *opts).0,
        r.1 == spec_flat(e@, *opts).1,
        wf(r.0),
    decreases pv, 0int,
{
    let ghost ev = e@;
    let Expr { operator, elements } = e;
    match operator {
        Operator::Frac(f) => (Expr { operator: Operator::Frac(f), elements }, false),
        Operator::Name(s) => (Expr { operator: Operator::Name(s), elements }, false),
        Operator::Const(c) => (Expr { operator: Operator::Const(c), elements }, false),
        Operator::Add => {
            let els = elements.unwrap();
            let ghost cs = views_of(els@);
            proof {
                lemma_views_of(els@);
                assert(ev == ExprV::AddN { ts: cs });
                assert forall|i: int| 0 <= i < els@.len() implies wf(#[trigger] els@[i])
                    && decreases_to!(ev => els@[i]@) by {
                    assert(els@[i]@ == cs[i]);
                    assert(decreases_to!(ev => ev->ts));
                    assert(decreases_to!(ev->ts => ev->ts[i]));
                }
            }
            let (els2, ch0) = flat_children(els, opts, Ghost(ev));
            let ghost ts2 = views_of(els2@);
            proof {
                lemma_views_of(els2@);
            }
            let mut rest2 = els2;
            let ghost orig2 = rest2@;
            let mut out: Vec<Expr> = Vec::new();
            let mut any = false;
            while rest2.len() > 0
                invariant
                    rest2@.len() <= orig2.len(),
                    ts2.len() == orig2.len(),
                    ts2 == views_of(orig2),
                    forall|j: int| 0 <= j < orig2.len() ==> (#[trigger] orig2[j])@ == ts2[j],
                    forall|j: int| 0 <= j < orig2.len() ==> wf(#[trigger] orig2[j]),
                    forall|j: int|
                        0 <= j < rest2@.len() ==> #[trigger] rest2@[j] == orig2[orig2.len()
                            - rest2@.len() + j],
                    views_of(out@) == splice_add_upto(ts2, orig2.len() - rest2@.len()),
                    any == any_add_upto(ts2, orig2.len() - rest2@.len()),
                    forall|j: int| 0 <= j < out@.len() ==> wf(#[trigger] out@[j]),
                decreases rest2@.len(),
            {
                let ghost k = orig2.len() - rest2@.len();
                let child = rest2.remove(0);
                proof {
                    assert(child == orig2[k]);
                    assert(child@ == ts2[k]);
                }
                let ghost prevout = out@;
                let is_add = match &child.operator {
                    Operator::Add => true,
                    _ => false,
                };
                if is_add {
                    let mut inner = child.elements.unwrap();
                    proof {
                        lemma_views_of(inner@);
                        assert(child@ == ExprV::AddN { ts: views_of(inner@) });
                        assert(splice_add_one(ts2[k]) == views_of(inner@));
                    }
                    let ghost innerv = inner@;
                    out.append(&mut inner);
                    any = true;
                    proof {
                        lemma_views_of_concat(prevout, innerv);
                        assert(out@ == prevout + innerv);
                        assert(views_of(out@) =~= splice_add_upto(ts2, k + 1));
                    }
                } else {
                    out.push(child);
                    proof {
                        assert(out@.drop_last() =~= prevout);
                        assert(out@.last() == child);
                        assert(views_of(out@) == views_of(out@.drop_last()).push(out@.last()@));
                        assert(splice_add_one(ts2[k]) =~= seq![ts2[k]]);
                        assert(views_of(out@) =~= splice_add_upto(ts2, k + 1));
                    }
                }
            }
            if out.len() == 1 {
                let ghost spout = out@;
                let el = out.remove(0);
                proof {
                    lemma_views_of(spout);
                    assert(el == spout[0]);
                    assert(el@ == views_of(spout)[0]);
                    assert(el@ == spec_flat(ev, *opts).0);
                }
                (el, true)
            } else {
                let r = Expr { operator: Operator::Add, elements: Some(out) };
                proof {
                    lemma_views_of(out@);
                    assert(r@ == spec_flat(ev, *opts).0);
                    assert((ch0 || any) == spec_flat(ev, *opts).1);
                }
                (r, ch0 || any)
            }
        },
        Operator::Mul => {
            let els = elements.unwrap();
            let ghost cs = views_of(els@);
            proof {
                lemma_views_of(els@);
                assert(ev == ExprV::MulN { ms: cs });
                assert forall|i: int| 0 <= i < els@.len() implies wf(#[trigger] els@[i])
                    && decreases_to!(ev => els@[i]@) by {
                    assert(els@[i]@ == cs[i]);
                    assert(decreases_to!(ev => ev->ms));
                    assert(decreases_to!(ev->ms => ev->ms[i]));
                }
            }
            let (els2, ch0) = flat_children(els, opts, Ghost(ev));
            let ghost ts2 = views_of(els2@);
            proof {
                lemma_views_of(els2@);
            }
            let mut rest2 = els2;
            let ghost orig2 = rest2@;
            let mut out: Vec<Expr> = Vec::new();
            let mut any = false;
            while rest2.len() > 0
                invariant
                    rest2@.len() <= orig2.len(),
                    ts2.len() == orig2.len(),
                    ts2 == views_of(orig2),
                    forall|j: int| 0 <= j < orig2.len() ==> (#[trigger] orig2[j])@ == ts2[j],
                    forall|j: int| 0 <= j < orig2.len() ==> wf(#[trigger] orig2[j]),
                    forall|j: int|
                        0 <= j < rest2@.len() ==> #[trigger] rest2@[j] == orig2[orig2.len()
                            - rest2@.len() + j],
                    views_of(out@) == splice_mul_upto(ts2, orig2.len() - rest2@.len()),
                    any == any_mul_upto(ts2, orig2.len() - rest2@.len()),
                    forall|j: int| 0 <= j < out@.len() ==> wf(#[trigger] out@[j]),
                decreases rest2@.len(),
            {
                let ghost k = orig2.len() - rest2@.len();
                let child = rest2.remove(0);
                proof {
                    assert(child == orig2[k]);
                    assert(child@ == ts2[k]);
                }
                let ghost prevout = out@;
                let is_mul = match &child.operator {
                    Operator::Mul => true,
                    _ => false,
                };
                if is_mul {
                    let mut inner = child.elements.unwrap();
                    proof {
                        lemma_views_of(inner@);
                        assert(child@ == ExprV::MulN { ms: views_of(inner@) });
                        assert(splice_mul_one(ts2[k]) == views_of(inner@));
                    }
                    let ghost innerv = inner@;
                    out.append(&mut inner);
                    any = true;
                    proof {
                        lemma_views_of_concat(prevout, innerv);
                        assert(out@ == prevout + innerv);
                        assert(views_of(out@) =~= splice_mul_upto(ts2, k + 1));
                    }
                } else {
                    out.push(child);
                    proof {
                        assert(out@.drop_last() =~= prevout);
                        assert(out@.last() == child);
                        assert(views_of(out@) == views_of(out@.drop_last()).push(out@.last()@));
                        assert(splice_mul_one(ts2[k]) =~= seq![ts2[k]]);
                        assert(views_of(out@) =~= splice_mul_upto(ts2, k + 1));
                    }
                }
            }
            if out.len() == 1 {
                let ghost spout = out@;
                let el = out.remove(0);
                proof {
                    lemma_views_of(spout);
                    assert(el == spout[0]);
                    assert(el@ == views_of(spout)[0]);
                    assert(el@ == spec_flat(ev, *opts).0);
                }
                (el, true)
            } else {
                let r = Expr { operator: Operator::Mul, elements: Some(out) };
                proof {
                    lemma_views_of(out@);
                    assert(r@ == spec_flat(ev, *opts).0);
                    assert((ch0 || any) == spec_flat(ev, *opts).1);
                }
                (r, ch0 || any)
            }
        },
        Operator::Sub => {
            let els = elements.unwrap();
            let ghost cs = views_of(els@);
            proof {
                lemma_views_of(els@);
                assert(ev == ExprV::SubN { ss: cs });
                assert forall|i: int| 0 <= i < els@.len() implies wf(#[trigger] els@[i])
                    && decreases_to!(ev => els@[i]@) by {
                    assert(els@[i]@ == cs[i]);
                    assert(decreases_to!(ev => ev->ss));
                    assert(decreases_to!(ev->ss => ev->ss[i]));
                }
            }
            let (els2, ch0) = flat_children(els, opts, Ghost(ev));
            let ghost ts2 = views_of(els2@);
            proof {
                lemma_views_of(els2@);
            }
            let mut rest2 = els2;
            let ghost orig2 = rest2@;
            let mut out: Vec<Expr> = Vec::new();
            while rest2.len() > 0
                invariant
                    out@.len() == orig2.len() - rest2@.len(),
                    rest2@.len() <= orig2.len(),
                    ts2.len() == orig2.len(),
                    forall|j: int| 0 <= j < orig2.len() ==> (#[trigger] orig2[j])@ == ts2[j],
                    forall|j: int| 0 <= j < orig2.len() ==> wf(#[trigger] orig2[j]),
                    forall|j: int|
                        0 <= j < rest2@.len() ==> #[trigger] rest2@[j] == orig2[orig2.len()
                            - rest2@.len() + j],
                    views_of(out@) == lower_upto(ts2, out@.len() as int),
                    forall|j: int| 0 <= j < out@.len() ==> wf(#[trigger] out@[j]),
                decreases rest2@.len(),
            {
                let ghost k = out@.len() as int;
                let child = rest2.remove(0);
                proof {
                    assert(child == orig2[k]);
                    assert(child@ == ts2[k]);
                }
                let ghost prevout = out@;
                if out.len() == 0 {
                    out.push(child);
                } else {
                    let term = child.mul(Expr::frac(-1, 1));
                    out.push(term);
                }
                proof {
                    assert(out@.drop_last() =~= prevout);
                    assert(views_of(out@) == views_of(out@.drop_last()).push(out@.last()@));
                    assert(views_of(out@) =~= lower_upto(ts2, k + 1));
                }
            }
            let r = Expr { operator: Operator::Add, elements: Some(out) };
            proof {
                assert(r@ == spec_flat(ev, *opts).0);
            }
            (r, true)
        },
        Operator::Div => {
            let els = elements.unwrap();
            let ghost cs = views_of(els@);
            proof {
                lemma_views_of(els@);
                assert(ev == ExprV::DivN { qs: cs });
                assert forall|i: int| 0 <= i < els@.len() implies wf(#[trigger] els@[i])
                    && decreases_to!(ev => els@[i]@) by {
                    assert(els@[i]@ == cs[i]);
                    assert(decreases_to!(ev => ev->qs));
                    assert(decreases_to!(ev->qs => ev->qs[i]));
                }
            }
            let (els2, ch0) = flat_children(els, opts, Ghost(ev));
            let r = Expr { operator: Operator::Div, elements: Some(els2) };
            (r, ch0)
        },
        Operator::Pow => {
            let els = elements.unwrap();
            let ghost cs = views_of(els@);
            proof {
                lemma_views_of(els@);
                assert(ev == ExprV::PowN { ps: cs });
                assert forall|i: int| 0 <= i < els@.len() implies wf(#[trigger] els@[i])
                    && decreases_to!(ev => els@[i]@) by {
                    assert(els@[i]@ == cs[i]);
                    assert(decreases_to!(ev => ev->ps));
                    assert(decreases_to!(ev->ps => ev->ps[i]));
                }
            }
            let (els2, ch0) = flat_children(els, opts, Ghost(ev));
            let r = Expr { operator: Operator::Pow, elements: Some(els2) };
            (r, ch0)
        },
        Operator::Func(f) => {
            let els = elements.unwrap();
            let ghost cs = views_of(els@);
            proof {
                lemma_views_of(els@);
                assert(ev == ExprV::Apply { f: crate::expr::func_view(f), args: cs });
                assert forall|i: int| 0 <= i < els@.len() implies wf(#[trigger] els@[i])
                    && decreases_to!(ev => els@[i]@) by {
                    assert(els@[i]@ == cs[i]);
                    assert(decreases_to!(ev => ev->args));
                    assert(decreases_to!(ev->args => ev->args[i]));
                }
            }
            let (els2, ch0) = flat_children(els, opts, Ghost(ev));
            let r = Expr { operator: Operator::Func(f), elements: Some(els2) };
            (r, ch0)
        },
    }
}

impl Expr {
    /// The rewrite engine: the structural and flattening passes alternated
    /// until neither reports a change. An arithmetic step that would leave
    /// the word range or invert a zero stops the run, as does reaching the
    /// round budget; either way the tree is left at the last state reached.
    pub fn simplify(&mut self, opts: &SimplifcationOpts) -> (r: Result<(), SimplifyError>)
        requires
            wf(*old(self)),
        ensures
            wf(*final(self)),
            final(self)@ == spec_fix(old(self)@, *opts, MAX_ROUNDS as nat).0,
            r == spec_fix(old(self)@, *opts, MAX_ROUNDS as nat).1,
    {
        let ghost t0 = self@;
        proof {
            assert(t0 == old(self)@);
        }
        let mut fuel: u64 = MAX_ROUNDS;
        loop
            invariant
                wf(*self),
                fuel <= MAX_ROUNDS,
                t0 == old(self)@,
                spec_fix(t0, *opts, MAX_ROUNDS as nat) == spec_fix(self@, *opts, fuel as nat),
            decreases fuel,
        {
            if fuel == 0 {
                proof {
                    assert(spec_fix(self@, *opts, 0nat) == (self@, Err::<(), SimplifyError>(
                    SimplifyError::IterationLimit)));
                    assert(spec_fix(t0, *opts, MAX_ROUNDS as nat) == (self@, Err::<(
                    ), SimplifyError>(SimplifyError::IterationLimit)));
                }
                return Err(SimplifyError::IterationLimit);
            }
            let ghost pre = self@;
            let mut tmp = Expr::new_empty(Operator::Add);
            core::mem::swap(self, &mut tmp);
            let ghost pv = ExprV::AddN { ts: seq![tmp@] };
            proof {
                assert(decreases_to!(pv => pv->ts));
                assert(decreases_to!(pv->ts => pv->ts[0]));
            }
            let (t1, c1, ok1) = sim_node(tmp, opts, Ghost(pv));
            *self = t1;
            if !ok1 {
                proof {
                    assert(fuel as nat > 0);
                    assert(spec_fix(pre, *opts, fuel as nat) == (self@, Err::<(
                    ), SimplifyError>(SimplifyError::Arithmetic)));
                    assert(spec_fix(t0, *opts, MAX_ROUNDS as nat) == (self@, Err::<(
                    ), SimplifyError>(SimplifyError::Arithmetic)));
                }
                return Err(SimplifyError::Arithmetic);
            }
            let mut tmp2 = Expr::new_empty(Operator::Add);
            core::mem::swap(self, &mut tmp2);
            let ghost pv2 = ExprV::AddN { ts: seq![tmp2@] };
            proof {
                assert(decreases_to!(pv2 => pv2->ts));
                assert(decreases_to!(pv2->ts => pv2->ts[0]));
            }
            let (t2, c2) = flat_node(tmp2, opts, Ghost(pv2));
            *self = t2;
            if !c1 && !c2 {
                proof {
                    assert(spec_fix(pre, *opts, fuel as nat) == (self@, Ok::<(
                    ), SimplifyError>(())));
                    assert(spec_fix(t0, *opts, MAX_ROUNDS as nat) == (self@, Ok::<(
                    ), SimplifyError>(())));
                }
                return Ok(());
            }
            fuel = fuel - 1;
            proof {
                assert(spec_fix(pre, *opts, (fuel + 1) as nat) == spec_fix(
                    self@,
                    *opts,
                    fuel as nat,
                ));
            }
        }
    }
}

impl FuncIdentifier {
    /// The sine rule: an application whose single argument is the literal
    /// integer zero becomes that literal; any other argument is returned
    /// unchanged under the application.
    fn sine_simplify_value(&self, params: Vec<Expr>) -> (r: Expr)
        requires
            params@.len() >= 1,
            forall|i: int| 0 <= i < params@.len() ==> wf(#[trigger] params@[i]),
        ensures
            r@ == func_rule(FuncV::SineF, views_of(params@), false).t,
            wf(r),
    {
        proof {
            lemma_views_of(params@);
        }
        let mut zero = false;
        match &params[0].operator {
            Operator::Frac(ff) => {
                if ff.num == 0 && ff.denom == 1 {
                    zero = true;
                }
            },
            _ => {},
        }
        if zero {
            Expr::integer(0)
        } else {
            let r = Expr { operator: Operator::Func(FuncIdentifier::Sine), elements: Some(
                params,
            ) };
            (r)
        }
    }

    /// The per-function simplification rule, dispatched on the tag: named,
    /// cosine and tangent applications are opaque; sine folds a literal
    /// zero; absolute value applies the tree transform to its argument.
    pub fn simplify_value(&self, params: Vec<Expr>) -> (r: Expr)
        requires
            (self is Sine || self is Abs) ==> params@.len() >= 1,
            forall|i: int| 0 <= i < params@.len() ==> wf(#[trigger] params@[i]),
        ensures
            r@ == func_rule(crate::expr::func_view(*self), views_of(params@), false).t,
            wf(r),
    {
        proof {
            lemma_views_of(params@);
        }
        match self {
            FuncIdentifier::Name(name) => {
                let r = Expr {
                    operator: Operator::Func(FuncIdentifier::Name(name.clone())),
                    elements: Some(params),
                };
                (r)
            },
            FuncIdentifier::Sine => self.sine_simplify_value(params),
            FuncIdentifier::Cosine => {
                let r = Expr {
                    operator: Operator::Func(FuncIdentifier::Cosine),
                    elements: Some(params),
                };
                (r)
            },
            FuncIdentifier::Tangent => {
                let r = Expr {
                    operator: Operator::Func(FuncIdentifier::Tangent),
                    elements: Some(params),
                };
                (r)
            },
            FuncIdentifier::Abs => {
                let mut ps = params;
                let first = ps.remove(0);
                let ghost apv = ExprV::AddN { ts: seq![first@] };
                proof {
                    assert(decreases_to!(apv => apv->ts));
                    assert(decreases_to!(apv->ts => apv->ts[0]));
                }
                let (t2, _aok) = abs_node(first, Ghost(apv));
                t2
            },
        }
    }
}

} // verus!
