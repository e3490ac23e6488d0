//! The expression tree: a tagged node over rational literals, n-ary sums
//! and products, binary-style subtraction, division and power, named
//! variables, function applications and named constants.
//!
//! The ghost model `ExprV` merges the operator tag and the child list into
//! one recursive datatype; `wf` states the structural invariant the
//! operations expect (children present where the tag requires them, none
//! where it forbids them).

use vstd::prelude::*;
use crate::num::Frac;

verus! {

/// Which function a function-application node invokes.
#[derive(Clone)]
pub enum FuncIdentifier {
    Name(String),
    Sine,
    Cosine,
    Tangent,
    Abs,
}

/// A named constant.
#[derive(Clone, Copy, PartialEq, Eq, Structural)]
pub enum Constant {
    Pi,
    E,
}

/// The operator tag of a node.
pub enum Operator {
    Frac(Frac),
    Add,
    Mul,
    Div,
    Sub,
    Pow,
    Name(String),
    Func(FuncIdentifier),
    Const(Constant),
}

/// One node of an expression tree: a tag, and an optional ordered list of
/// children.
pub struct Expr {
    pub operator: Operator,
    pub elements: Option<Vec<Expr>>,
}

/// Ghost mirror of `FuncIdentifier`.
pub enum FuncV {
    Named { name: Seq<char> },
    SineF,
    CosineF,
    TangentF,
    AbsF,
}

/// Ghost mirror of a node: tag and children merged into one recursive sum.
pub enum ExprV {
    Lit { f: Frac },
    AddN { ts: Seq<ExprV> },
    MulN { ms: Seq<ExprV> },
    DivN { qs: Seq<ExprV> },
    SubN { ss: Seq<ExprV> },
    PowN { ps: Seq<ExprV> },
    Var { name: Seq<char> },
    Apply { f: FuncV, args: Seq<ExprV> },
    Cst { c: Constant },
}

impl ExprV {
    /// The children of an operator node; empty for leaves.
    pub open spec fn kids(self) -> Seq<ExprV> {
        match self {
            ExprV::AddN { ts } => ts,
            ExprV::MulN { ms } => ms,
            ExprV::DivN { qs } => qs,
            ExprV::SubN { ss } => ss,
            ExprV::PowN { ps } => ps,
            ExprV::Apply { f, args } => args,
            _ => Seq::empty(),
        }
    }
}

pub open spec fn func_view(f: FuncIdentifier) -> FuncV {
    match f {
        FuncIdentifier::Name(s) => FuncV::Named { name: s@ },
        FuncIdentifier::Sine => FuncV::SineF,
        FuncIdentifier::Cosine => FuncV::CosineF,
        FuncIdentifier::Tangent => FuncV::TangentF,
        FuncIdentifier::Abs => FuncV::AbsF,
    }
}

/// The views of an optional child list; absent children view as no
/// children.
pub open spec fn kids_view(o: Option<Vec<Expr>>) -> Seq<ExprV>
    decreases o,
{
    match o {
        Some(v) => views_of(v@),
        None => Seq::empty(),
    }
}

/// The views of the members of a list, in order.
pub open spec fn views_of(s: Seq<Expr>) -> Seq<ExprV>
    decreases s,
{
    if s.len() == 0 {
        Seq::empty()
    } else {
        views_of(s.drop_last()).push(s.last().view())
    }
}

pub proof fn lemma_views_of(s: Seq<Expr>)
    ensures
        views_of(s).len() == s.len(),
        forall|i: int| 0 <= i < s.len() ==> views_of(s)[i] == (#[trigger] s[i])@,
    decreases s.len(),
{
    if s.len() > 0 {
        lemma_views_of(s.drop_last());
        assert(views_of(s) == views_of(s.drop_last()).push(s.last().view()));
        assert forall|i: int| 0 <= i < s.len() implies views_of(s)[i] == (#[trigger] s[i])@ by {
            if i < s.len() - 1 {
                assert(views_of(s)[i] == views_of(s.drop_last())[i]);
                assert(s.drop_last()[i] == s[i]);
            } else {
                assert(views_of(s)[i] == s.last()@);
            }
        }
    } else {
        assert(views_of(s) == Seq::<ExprV>::empty());
    }
}

/// The view of each member of an optional child list.
pub proof fn lemma_kids(o: Option<Vec<Expr>>)
    ensures
        o is Some ==> kids_view(o).len() == o->0@.len(),
        o is Some ==> forall|i: int|
            0 <= i < o->0@.len() ==> kids_view(o)[i] == (#[trigger] o->0@[i])@,
        o is None ==> kids_view(o) == Seq::<ExprV>::empty(),
{
    if o is Some {
        lemma_views_of(o->0@);
    }
}

/// The views of a list of nodes.
pub open spec fn seq_view(s: Seq<Expr>) -> Seq<ExprV> {
    Seq::new(s.len(), |i: int| s[i].view())
}

impl View for Expr {
    type V = ExprV;

    open spec fn view(&self) -> ExprV
        decreases self,
    {
        match self.operator {
            Operator::Frac(f) => ExprV::Lit { f },
            Operator::Add => ExprV::AddN { ts: kids_view(self.elements) },
            Operator::Mul => ExprV::MulN { ms: kids_view(self.elements) },
            Operator::Div => ExprV::DivN { qs: kids_view(self.elements) },
            Operator::Sub => ExprV::SubN { ss: kids_view(self.elements) },
            Operator::Pow => ExprV::PowN { ps: kids_view(self.elements) },
            Operator::Name(s) => ExprV::Var { name: s@ },
            Operator::Func(f) => ExprV::Apply {
                f: func_view(f),
                args: kids_view(self.elements),
            },
            Operator::Const(c) => ExprV::Cst { c },
        }
    }
}

/// The structural invariant: leaves carry no child list, operator nodes
/// carry one, a division has at least a dividend and a divisor, and the
/// built-in one-argument functions have their argument.
pub open spec fn wf(e: Expr) -> bool
    decreases e,
{
    match e.operator {
        Operator::Frac(_) => e.elements is None,
        Operator::Name(_) => e.elements is None,
        Operator::Const(_) => e.elements is None,
        Operator::Div => {
            &&& e.elements is Some
            &&& e.elements->0@.len() >= 2
            &&& forall|i: int|
                0 <= i < e.elements->0@.len() ==> wf(#[trigger] e.elements->0@[i])
        },
        Operator::Func(f) => {
            &&& e.elements is Some
            &&& ((f is Sine || f is Abs) ==> e.elements->0@.len() >= 1)
            &&& forall|i: int|
                0 <= i < e.elements->0@.len() ==> wf(#[trigger] e.elements->0@[i])
        },
        _ => {
            &&& e.elements is Some
            &&& forall|i: int|
                0 <= i < e.elements->0@.len() ==> wf(#[trigger] e.elements->0@[i])
        },
    }
}

/// The display name of a function tag.
pub open spec fn func_name_spec(f: FuncV) -> Seq<char> {
    match f {
        FuncV::Named { name } => name,
        FuncV::SineF => "sin"@,
        FuncV::CosineF => "cos"@,
        FuncV::TangentF => "tan"@,
        FuncV::AbsF => "abs"@,
    }
}

/// The display name of a constant.
pub open spec fn const_name_spec(c: Constant) -> Seq<char> {
    match c {
        Constant::Pi => "pi"@,
        Constant::E => "e"@,
    }
}

pub open spec fn digit_char(d: nat) -> char {
    if d == 0 {
        '0'
    } else if d == 1 {
        '1'
    } else if d == 2 {
        '2'
    } else if d == 3 {
        '3'
    } else if d == 4 {
        '4'
    } else if d == 5 {
        '5'
    } else if d == 6 {
        '6'
    } else if d == 7 {
        '7'
    } else if d == 8 {
        '8'
    } else {
        '9'
    }
}

/// Decimal digits of a natural number, most significant first.
pub open spec fn dec_nat(m: nat) -> Seq<char>
    decreases m,
{
    if m < 10 {
        seq![digit_char(m)]
    } else {
        dec_nat(m / 10).push(digit_char(m % 10))
    }
}

/// Decimal rendering of an integer, with a leading minus sign when
/// negative.
pub open spec fn int_ascii(n: int) -> Seq<char> {
    if n < 0 {
        seq!['-'] + dec_nat(crate::num::iabs(n))
    } else {
        dec_nat(n as nat)
    }
}

/// The fully parenthesized infix rendering of a tree.
pub open spec fn ascii_spec(e: ExprV) -> Seq<char>
    decreases e, 1int,
{
    match e {
        ExprV::Lit { f } => if f.denom == 1 {
            int_ascii(f.num as int)
        } else {
            seq!['('] + int_ascii(f.num as int) + seq!['/'] + int_ascii(f.denom as int)
                + seq![')']
        },
        ExprV::AddN { ts } => seq!['('] + join_spec(ts, " + "@) + seq![')'],
        ExprV::MulN { ms } => seq!['('] + join_spec(ms, " * "@) + seq![')'],
        ExprV::DivN { qs } => seq!['('] + join_spec(qs, " / "@) + seq![')'],
        ExprV::SubN { ss } => seq!['('] + join_spec(ss, " - "@) + seq![')'],
        ExprV::PowN { ps } => seq!['('] + join_spec(ps, " ^ "@) + seq![')'],
        ExprV::Var { name } => name,
        ExprV::Apply { f, args } => func_name_spec(f) + seq!['('] + join_spec(args, ", "@)
            + seq![')'],
        ExprV::Cst { c } => const_name_spec(c),
    }
}

/// The renderings of a child list, joined by a delimiter.
pub open spec fn join_spec(ts: Seq<ExprV>, delim: Seq<char>) -> Seq<char>
    decreases ts, 0int,
{
    if ts.len() == 0 {
        Seq::empty()
    } else if ts.len() == 1 {
        ascii_spec(ts[0])
    } else {
        join_spec(ts.drop_last(), delim) + delim + ascii_spec(ts.last())
    }
}

/// What the absolute-value transform produces, and whether every literal
/// negation stayed inside the word range.
pub open spec fn abs_spec(e: ExprV) -> (ExprV, bool)
    decreases e,
{
    match e {
        ExprV::Lit { f } => if f.num * f.denom < 0 {
            if f.num == i64::MIN {
                (e, false)
            } else {
                (ExprV::Lit { f: Frac { num: (-(f.num as int)) as i64, denom: f.denom } }, true)
            }
        } else {
            (e, true)
        },
        ExprV::AddN { ts } => (ExprV::AddN { ts: abs_seq(ts) }, abs_seq_ok(ts)),
        ExprV::MulN { ms } => (ExprV::MulN { ms: abs_seq(ms) }, abs_seq_ok(ms)),
        ExprV::DivN { qs } => (ExprV::DivN { qs: abs_seq(qs) }, abs_seq_ok(qs)),
        ExprV::SubN { ss } => (ExprV::Apply { f: FuncV::AbsF, args: seq![e] }, true),
        ExprV::PowN { ps } => (ExprV::Apply { f: FuncV::AbsF, args: seq![e] }, true),
        ExprV::Var { name } => (ExprV::Apply { f: FuncV::AbsF, args: seq![e] }, true),
        ExprV::Apply { f, args } => (ExprV::Apply { f: FuncV::AbsF, args: seq![e] }, true),
        ExprV::Cst { c } => (e, true),
    }
}

/// The transform pushed onto each member of a child list.
pub open spec fn abs_seq(ts: Seq<ExprV>) -> Seq<ExprV>
    decreases ts,
{
    if ts.len() == 0 {
        Seq::empty()
    } else {
        abs_seq(ts.drop_last()).push(abs_spec(ts.last()).0)
    }
}

pub proof fn lemma_abs_seq(ts: Seq<ExprV>)
    ensures
        abs_seq(ts).len() == ts.len(),
        forall|i: int| 0 <= i < ts.len() ==> abs_seq(ts)[i] == (#[trigger] abs_spec(ts[i])).0,
    decreases ts.len(),
{
    if ts.len() > 0 {
        lemma_abs_seq(ts.drop_last());
        assert(abs_seq(ts) == abs_seq(ts.drop_last()).push(abs_spec(ts.last()).0));
        assert forall|i: int| 0 <= i < ts.len() implies abs_seq(ts)[i] == (#[trigger] abs_spec(
        ts[i])).0 by {
            if i < ts.len() - 1 {
                assert(abs_seq(ts)[i] == abs_seq(ts.drop_last())[i]);
                assert(ts.drop_last()[i] == ts[i]);
            } else {
                assert(abs_seq(ts)[i] == abs_spec(ts.last()).0);
            }
        }
    } else {
        assert(abs_seq(ts) == Seq::<ExprV>::empty());
    }
}

pub open spec fn abs_seq_ok(ts: Seq<ExprV>) -> bool
    decreases ts,
{
    if ts.len() == 0 {
        true
    } else {
        abs_seq_ok(ts.drop_last()) && abs_spec(ts.last()).1
    }
}

pub proof fn lemma_abs_seq_ok(ts: Seq<ExprV>)
    ensures
        abs_seq_ok(ts) <==> (forall|i: int|
            0 <= i < ts.len() ==> (#[trigger] abs_spec(ts[i])).1),
    decreases ts.len(),
{
    if ts.len() > 0 {
        lemma_abs_seq_ok(ts.drop_last());
        assert(abs_seq_ok(ts) == (abs_seq_ok(ts.drop_last()) && abs_spec(ts.last()).1));
        if abs_seq_ok(ts) {
            assert forall|i: int| 0 <= i < ts.len() implies (#[trigger] abs_spec(ts[i])).1 by {
                if i < ts.len() - 1 {
                    assert(ts.drop_last()[i] == ts[i]);
                    assert(abs_spec(ts.drop_last()[i]).1);
                } else {
                    assert(abs_spec(ts.last()).1);
                }
            }
        } else {
            if !abs_spec(ts.last()).1 {
                assert(!abs_spec(ts[ts.len() - 1]).1);
            } else {
                let j = choose|j: int|
                    0 <= j < ts.drop_last().len() && !(#[trigger] abs_spec(
                    ts.drop_last()[j])).1;
                assert(ts.drop_last()[j] == ts[j]);
                assert(!abs_spec(ts[j]).1);
            }
        }
    }
}

impl FuncIdentifier {
    /// The display name of this function tag.
    pub fn get_name(&self) -> (r: String)
        ensures
            r@ == func_name_spec(func_view(*self)),
    {
        match self {
            FuncIdentifier::Name(name) => name.clone(),
            FuncIdentifier::Sine => String::from_str("sin"),
            FuncIdentifier::Cosine => String::from_str("cos"),
            FuncIdentifier::Tangent => String::from_str("tan"),
            FuncIdentifier::Abs => String::from_str("abs"),
        }
    }
}

/// How each function tag appears in the ghost view.
pub proof fn lemma_func_view_shape(f: FuncIdentifier)
    ensures
        f is Name <==> func_view(f) is Named,
        f is Sine <==> func_view(f) is SineF,
        f is Cosine <==> func_view(f) is CosineF,
        f is Tangent <==> func_view(f) is TangentF,
        f is Abs <==> func_view(f) is AbsF,
        f is Name ==> func_view(f) == (FuncV::Named { name: f->Name_0@ }),
{
}

/// How each operator tag appears in the ghost view.
pub proof fn lemma_view_shape(e: Expr)
    ensures
        (e.operator is Frac) <==> e@ is Lit,
        (e.operator is Add) <==> e@ is AddN,
        (e.operator is Mul) <==> e@ is MulN,
        (e.operator is Div) <==> e@ is DivN,
        (e.operator is Sub) <==> e@ is SubN,
        (e.operator is Pow) <==> e@ is PowN,
        (e.operator is Name) <==> e@ is Var,
        (e.operator is Func) <==> e@ is Apply,
        (e.operator is Const) <==> e@ is Cst,
        e.operator is Frac ==> e@ == (ExprV::Lit { f: e.operator->Frac_0 }),
        e.operator is Name ==> e@ == (ExprV::Var { name: e.operator->Name_0@ }),
        e.operator is Const ==> e@ == (ExprV::Cst { c: e.operator->Const_0 }),
        e.operator is Add ==> e@ == (ExprV::AddN { ts: kids_view(e.elements) }),
        e.operator is Mul ==> e@ == (ExprV::MulN { ms: kids_view(e.elements) }),
        e.operator is Div ==> e@ == (ExprV::DivN { qs: kids_view(e.elements) }),
        e.operator is Sub ==> e@ == (ExprV::SubN { ss: kids_view(e.elements) }),
        e.operator is Pow ==> e@ == (ExprV::PowN { ps: kids_view(e.elements) }),
        e.operator is Func ==> e@ == (ExprV::Apply {
            f: func_view(e.operator->Func_0),
            args: kids_view(e.elements),
        }),
{
}

impl FuncIdentifier {
    /// Whether two tags name the same function.
    pub fn tag_eq(&self, other: &FuncIdentifier) -> (r: bool)
        ensures
            r == (func_view(*self) == func_view(*other)),
    {
        proof {
            lemma_func_view_shape(*self);
            lemma_func_view_shape(*other);
        }
        match self {
            FuncIdentifier::Name(a) => match other {
                FuncIdentifier::Name(b) => {
                    let r = a.eq(b);
                    proof {
                        assert(func_view(*self) == (FuncV::Named { name: a@ }));
                        assert(func_view(*other) == (FuncV::Named { name: b@ }));
                        assert((FuncV::Named { name: a@ })->name == a@);
                        assert((FuncV::Named { name: b@ })->name == b@);
                        if a@ != b@ {
                            assert(func_view(*self) != func_view(*other));
                        } else {
                            assert(func_view(*self) == func_view(*other));
                        }
                        assert(r == (func_view(*self) == func_view(*other)));
                    }
                    return r;
                },
                _ => {
                    return false;
                },
            },
            FuncIdentifier::Sine => match other {
                FuncIdentifier::Sine => {
                    return true;
                },
                _ => {
                    return false;
                },
            },
            FuncIdentifier::Cosine => match other {
                FuncIdentifier::Cosine => {
                    return true;
                },
                _ => {
                    return false;
                },
            },
            FuncIdentifier::Tangent => match other {
                FuncIdentifier::Tangent => {
                    return true;
                },
                _ => {
                    return false;
                },
            },
            FuncIdentifier::Abs => match other {
                FuncIdentifier::Abs => {
                    return true;
                },
                _ => {
                    return false;
                },
            },
        }
    }
}

impl Constant {
    /// The display name of this constant.
    pub fn get_name(&self) -> (r: String)
        ensures
            r@ == const_name_spec(*self),
    {
        match self {
            Constant::Pi => String::from_str("pi"),
            Constant::E => String::from_str("e"),
        }
    }
}

fn digit_str(d: u64) -> (s: &'static str)
    requires
        d < 10,
    ensures
        s@ == seq![digit_char(d as nat)],
{
    proof {
        reveal_strlit("0");
        reveal_strlit("1");
        reveal_strlit("2");
        reveal_strlit("3");
        reveal_strlit("4");
        reveal_strlit("5");
        reveal_strlit("6");
        reveal_strlit("7");
        reveal_strlit("8");
        reveal_strlit("9");
        assert("0"@ =~= seq!['0']);
        assert("1"@ =~= seq!['1']);
        assert("2"@ =~= seq!['2']);
        assert("3"@ =~= seq!['3']);
        assert("4"@ =~= seq!['4']);
        assert("5"@ =~= seq!['5']);
        assert("6"@ =~= seq!['6']);
        assert("7"@ =~= seq!['7']);
        assert("8"@ =~= seq!['8']);
        assert("9"@ =~= seq!['9']);
    }
    if d == 0 {
        "0"
    } else if d == 1 {
        "1"
    } else if d == 2 {
        "2"
    } else if d == 3 {
        "3"
    } else if d == 4 {
        "4"
    } else if d == 5 {
        "5"
    } else if d == 6 {
        "6"
    } else if d == 7 {
        "7"
    } else if d == 8 {
        "8"
    } else {
        "9"
    }
}

fn u64_dec(m: u64) -> (s: String)
    ensures
        s@ == dec_nat(m as nat),
    decreases m,
{
    if m < 10 {
        String::from_str(digit_str(m))
    } else {
        let mut s = u64_dec(m / 10);
        s.append(digit_str(m % 10));
        proof {
            assert(s@ =~= dec_nat((m as nat) / 10).push(digit_char((m as nat) % 10)));
        }
        s
    }
}

fn i64_ascii(n: i64) -> (s: String)
    ensures
        s@ == int_ascii(n as int),
{
    if n >= 0 {
        u64_dec(n as u64)
    } else {
        let m: u64 = if n == i64::MIN {
            9223372036854775808u64
        } else {
            (-n) as u64
        };
        proof {
            assert(m as nat == crate::num::iabs(n as int));
        }
        let mut s = String::from_str("-");
        let t = u64_dec(m);
        s.append(t.as_str());
        proof {
            reveal_strlit("-");
            assert(s@ =~= seq!['-'] + dec_nat(crate::num::iabs(n as int)));
        }
        s
    }
}

impl Expr {
    pub fn new(operator: Operator, elements: Option<Vec<Expr>>) -> (r: Expr)
        ensures
            r.operator == operator,
            r.elements == elements,
    {
        Expr { operator, elements }
    }

    pub fn new_empty(operator: Operator) -> (r: Expr)
        ensures
            r.operator == operator,
            r.elements is None,
    {
        Expr { operator, elements: None }
    }

    /// A rational literal.
    pub fn frac(num: i64, denom: i64) -> (r: Expr)
        ensures
            r@ == (ExprV::Lit { f: Frac { num, denom } }),
            wf(r),
    {
        Expr { operator: Operator::Frac(Frac::new(num, denom)), elements: None }
    }

    /// A literal copied from an existing fraction.
    pub fn frac_cpy(f: &Frac) -> (r: Expr)
        ensures
            r@ == (ExprV::Lit { f: *f }),
            wf(r),
    {
        Expr { operator: Operator::Frac(Frac::new(f.num, f.denom)), elements: None }
    }

    /// An integer literal: a rational with denominator one.
    pub fn integer(val: i64) -> (r: Expr)
        ensures
            r@ == (ExprV::Lit { f: Frac { num: val, denom: 1 } }),
            wf(r),
    {
        Expr { operator: Operator::Frac(Frac::new(val, 1)), elements: None }
    }

    /// A free variable.
    pub fn var(name: &str) -> (r: Expr)
        ensures
            r@ == (ExprV::Var { name: name@ }),
            wf(r),
    {
        Expr { operator: Operator::Name(name.to_owned()), elements: None }
    }

    /// A function application.
    pub fn func(func: FuncIdentifier, params: Vec<Expr>) -> (r: Expr)
        ensures
            r@ == (ExprV::Apply { f: func_view(func), args: seq_view(params@) }),
            r.elements == Some(params),
            r.operator == Operator::Func(func),
    {
        let r = Expr { operator: Operator::Func(func), elements: Some(params) };
        proof {
            lemma_kids(r.elements);
            assert(kids_view(r.elements) =~= seq_view(params@));
        }
        r
    }

    /// The constant pi.
    pub fn pi() -> (r: Expr)
        ensures
            r@ == (ExprV::Cst { c: Constant::Pi }),
            wf(r),
    {
        Expr { operator: Operator::Const(Constant::Pi), elements: None }
    }

    /// The constant e.
    pub fn e() -> (r: Expr)
        ensures
            r@ == (ExprV::Cst { c: Constant::E }),
            wf(r),
    {
        Expr { operator: Operator::Const(Constant::E), elements: None }
    }

    /// The sum of two expressions, as a node.
    pub fn add(self, other: Expr) -> (r: Expr)
        ensures
            r@ == (ExprV::AddN { ts: seq![self@, other@] }),
            wf(self) && wf(other) ==> wf(r),
    {
        let r = Expr { operator: Operator::Add, elements: Some(vec![self, other]) };
        proof {
            lemma_kids(r.elements);
            assert(kids_view(r.elements) =~= seq![r.elements->0@[0]@, r.elements->0@[1]@]);
        }
        r
    }

    /// The difference of two expressions, as a node.
    pub fn sub(self, other: Expr) -> (r: Expr)
        ensures
            r@ == (ExprV::SubN { ss: seq![self@, other@] }),
            wf(self) && wf(other) ==> wf(r),
    {
        let r = Expr { operator: Operator::Sub, elements: Some(vec![self, other]) };
        proof {
            lemma_kids(r.elements);
            assert(kids_view(r.elements) =~= seq![r.elements->0@[0]@, r.elements->0@[1]@]);
        }
        r
    }

    /// The product of two expressions, as a node.
    pub fn mul(self, other: Expr) -> (r: Expr)
        ensures
            r@ == (ExprV::MulN { ms: seq![self@, other@] }),
            wf(self) && wf(other) ==> wf(r),
    {
        let r = Expr { operator: Operator::Mul, elements: Some(vec![self, other]) };
        proof {
            lemma_kids(r.elements);
            assert(kids_view(r.elements) =~= seq![r.elements->0@[0]@, r.elements->0@[1]@]);
        }
        r
    }

    /// The quotient of two expressions, as a node.
    pub fn div(self, other: Expr) -> (r: Expr)
        ensures
            r@ == (ExprV::DivN { qs: seq![self@, other@] }),
            wf(self) && wf(other) ==> wf(r),
    {
        let r = Expr { operator: Operator::Div, elements: Some(vec![self, other]) };
        proof {
            lemma_kids(r.elements);
            assert(kids_view(r.elements) =~= seq![r.elements->0@[0]@, r.elements->0@[1]@]);
        }
        r
    }
}

/// Each child of a node stands below it in the well-founded order that
/// justifies recursion over trees.
pub proof fn lemma_kids_decrease(ev: ExprV)
    ensures
        forall|i: int|
            0 <= i < ev.kids().len() ==> decreases_to!(ev => ev.kids()[i]),
{
    assert forall|i: int| 0 <= i < ev.kids().len() implies decreases_to!(ev => ev.kids()[i]) by {
        match ev {
            ExprV::AddN { ts } => {
                assert(decreases_to!(ev => ts));
                assert(decreases_to!(ts => ts[i]));
            },
            ExprV::MulN { ms } => {
                assert(decreases_to!(ev => ms));
                assert(decreases_to!(ms => ms[i]));
            },
            ExprV::DivN { qs } => {
                assert(decreases_to!(ev => qs));
                assert(decreases_to!(qs => qs[i]));
            },
            ExprV::SubN { ss } => {
                assert(decreases_to!(ev => ss));
                assert(decreases_to!(ss => ss[i]));
            },
            ExprV::PowN { ps } => {
                assert(decreases_to!(ev => ps));
                assert(decreases_to!(ps => ps[i]));
            },
            ExprV::Apply { f, args } => {
                assert(decreases_to!(ev => args));
                assert(decreases_to!(args => args[i]));
            },
            _ => {},
        }
    }
}

impl Expr {
    /// The renderings of this node's children, joined by `delim`.
    #[verifier::rlimit(50)]
    fn join_operands_ascii(&self, delim: &str) -> (r: String)
        requires
            self.elements is Some,
            !(self.operator is Frac),
            !(self.operator is Name),
            !(self.operator is Const),
            forall|i: int|
                0 <= i < self.elements->0@.len() ==> wf(#[trigger] self.elements->0@[i]),
        ensures
            r@ == join_spec(kids_view(self.elements), delim@),
        decreases self@, 0int,
    {
        let ghost ts = kids_view(self.elements);
        proof {
            lemma_kids(self.elements);
            lemma_kids_decrease(self@);
            assert(self@.kids() =~= ts);
        }
        let els = self.elements.as_ref().unwrap();
        let mut s = String::new();
        let mut i: usize = 0;
        while i < els.len()
            invariant
                i <= els.len(),
                els == self.elements->0,
                self.elements is Some,
                forall|k: int| 0 <= k < els@.len() ==> wf(#[trigger] els@[k]),
                ts == kids_view(self.elements),
                forall|k: int| 0 <= k < ts.len() ==> decreases_to!(self@ => ts[k]),
                ts.len() == els@.len(),
                s@ == join_spec(ts.take(i as int), delim@),
            decreases els.len() - i,
        {
            if i > 0 {
                s.append(delim);
            }
            proof {
                lemma_kids(self.elements);
                assert(decreases_to!(self@ => ts[i as int]));
                assert(els@[i as int]@ == ts[i as int]);
            }
            let cs = els[i].to_ascii();
            s.append(cs.as_str());
            proof {
                let t1 = ts.take(i as int + 1);
                if i == 0 {
                    assert(t1.len() == 1);
                    assert(t1[0] == ts[0]);
                    assert(s@ == join_spec(t1, delim@));
                } else {
                    assert(t1.len() >= 2);
                    assert(t1.drop_last() =~= ts.take(i as int));
                    assert(t1.last() == ts[i as int]);
                    assert(s@ == join_spec(t1, delim@));
                }
            }
            i += 1;
        }
        proof {
            assert(ts.take(ts.len() as int) =~= ts);
        }
        s
    }

    /// The fully parenthesized infix rendering of this tree.
    pub fn to_ascii(&self) -> (r: String)
        requires
            wf(*self),
        ensures
            r@ == ascii_spec(self@),
        decreases self@, 1int,
    {
        match &self.operator {
            Operator::Frac(frac) => {
                if frac.is_int() {
                    i64_ascii(frac.num)
                } else {
                    let mut s = String::from_str("(");
                    let a = i64_ascii(frac.num);
                    s.append(a.as_str());
                    s.append("/");
                    let b = i64_ascii(frac.denom);
                    s.append(b.as_str());
                    s.append(")");
                    proof {
                        reveal_strlit("(");
                        reveal_strlit("/");
                        reveal_strlit(")");
                        assert(s@ =~= ascii_spec(self@));
                    }
                    s
                }
            },
            Operator::Add => {
                let mut s = String::from_str("(");
                let j = self.join_operands_ascii(" + ");
                s.append(j.as_str());
                s.append(")");
                proof {
                    reveal_strlit("(");
                    reveal_strlit(")");
                    assert(s@ =~= ascii_spec(self@));
                }
                s
            },
            Operator::Mul => {
                let mut s = String::from_str("(");
                let j = self.join_operands_ascii(" * ");
                s.append(j.as_str());
                s.append(")");
                proof {
                    reveal_strlit("(");
                    reveal_strlit(")");
                    assert(s@ =~= ascii_spec(self@));
                }
                s
            },
            Operator::Div => {
                let mut s = String::from_str("(");
                let j = self.join_operands_ascii(" / ");
                s.append(j.as_str());
                s.append(")");
                proof {
                    reveal_strlit("(");
                    reveal_strlit(")");
                    assert(s@ =~= ascii_spec(self@));
                }
                s
            },
            Operator::Sub => {
                let mut s = String::from_str("(");
                let j = self.join_operands_ascii(" - ");
                s.append(j.as_str());
                s.append(")");
                proof {
                    reveal_strlit("(");
                    reveal_strlit(")");
                    assert(s@ =~= ascii_spec(self@));
                }
                s
            },
            Operator::Pow => {
                let mut s = String::from_str("(");
                let j = self.join_operands_ascii(" ^ ");
                s.append(j.as_str());
                s.append(")");
                proof {
                    reveal_strlit("(");
                    reveal_strlit(")");
                    assert(s@ =~= ascii_spec(self@));
                }
                s
            },
            Operator::Name(name) => name.clone(),
            Operator::Func(ident) => {
                let mut s = ident.get_name();
                s.append("(");
                let j = self.join_operands_ascii(", ");
                s.append(j.as_str());
                s.append(")");
                proof {
                    reveal_strlit("(");
                    reveal_strlit(")");
                    assert(s@ =~= ascii_spec(self@));
                }
                s
            },
            Operator::Const(cst) => cst.get_name(),
        }
    }
}

/// The absolute-value transform pushed onto every member of a child list.
pub(crate) fn abs_children(els: Vec<Expr>, Ghost(pv): Ghost<ExprV>) -> (r: (Vec<Expr>, bool))
    requires
        forall|i: int|
            0 <= i < els@.len() ==> wf(#[trigger] els@[i]) && decreases_to!(pv => els@[i]@),
    ensures
        r.0@.len() == els@.len(),
        forall|i: int|
            0 <= i < els@.len() ==> (#[trigger] r.0@[i])@ == abs_spec(els@[i]@).0 && wf(
            r.0@[i]),
        r.1 == (forall|i: int| 0 <= i < els@.len() ==> (#[trigger] abs_spec(els@[i]@)).1),
    decreases pv, 1int,
{
    let ghost orig = els@;
    let mut rest = els;
    let mut out: Vec<Expr> = Vec::new();
    let mut ok = true;
    while rest.len() > 0
        invariant
            out@.len() + rest@.len() == orig.len(),
            forall|j: int| 0 <= j < rest@.len() ==> rest@[j] == orig[out@.len() + j],
            forall|j: int|
                0 <= j < orig.len() ==> wf(#[trigger] orig[j]) && decreases_to!(pv => orig[j]@),
            forall|j: int|
                0 <= j < out@.len() ==> (#[trigger] out@[j])@ == abs_spec(orig[j]@).0 && wf(
                out@[j]),
            ok == (forall|j: int| 0 <= j < out@.len() ==> (#[trigger] abs_spec(orig[j]@)).1),
        decreases rest@.len(),
    {
        let ghost done = out@.len() as int;
        let child = rest.remove(0);
        proof {
            assert(child == orig[done]);
            assert(decreases_to!(pv => child@));
        }
        let (c2, cok) = abs_node(child, Ghost(pv));
        out.push(c2);
        ok = ok && cok;
        proof {
            assert forall|j: int| 0 <= j < rest@.len() implies rest@[j] == orig[out@.len()
                + j] by {}
        }
    }
    (out, ok)
}

/// One node of the absolute-value transform, by value.
pub(crate) fn abs_node(e: Expr, Ghost(pv): Ghost<ExprV>) -> (r: (Expr, bool))
    requires
        wf(e),
        decreases_to!(pv => e@),
    ensures
        r.0@ == abs_spec(e@).0,
        r.1 == abs_spec(e@).1,
        wf(r.0),
    decreases pv, 0int,
{
    let ghost ev = e@;
    proof {
        lemma_kids_decrease(ev);
    }
    let Expr { operator, elements } = e;
    match operator {
        Operator::Frac(f) => {
            let neg = f.is_negative();
            if neg {
                if f.num == i64::MIN {
                    (Expr { operator: Operator::Frac(f), elements }, false)
                } else {
                    (
                        Expr {
                            operator: Operator::Frac(Frac::new(-f.num, f.denom)),
                            elements,
                        },
                        true,
                    )
                }
            } else {
                (Expr { operator: Operator::Frac(f), elements }, true)
            }
        },
        Operator::Add => {
            let els = elements.unwrap();
            proof {
                assert(elements == Some(els));
                lemma_kids(Some(els));
                assert(ev == ExprV::AddN { ts: kids_view(Some(els)) });
                assert forall|i: int| 0 <= i < els@.len() implies wf(#[trigger] els@[i])
                    && decreases_to!(ev => els@[i]@) by {
                    assert(els@[i]@ == kids_view(Some(els))[i]);
                    assert(decreases_to!(ev => ev->ts));
                    assert(decreases_to!(ev->ts => ev->ts[i]));
                }
            }
            let (els2, ok) = abs_children(els, Ghost(ev));
            let r = Expr { operator: Operator::Add, elements: Some(els2) };
            proof {
                lemma_kids(r.elements);
                lemma_abs_seq(ev->ts);
                assert forall|i: int| 0 <= i < els@.len() implies kids_view(r.elements)[i]
                    == abs_seq(ev->ts)[i] by {
                    assert(ev->ts[i] == els@[i]@);
                    assert(abs_seq(ev->ts)[i] == abs_spec(ev->ts[i]).0);
                    assert(els2@[i]@ == abs_spec(els@[i]@).0);
                }
                assert(kids_view(r.elements) =~= abs_seq(ev->ts));
                lemma_abs_seq_ok(ev->ts);
                if ok {
                    assert forall|i: int| 0 <= i < ev->ts.len() implies (#[trigger] abs_spec(
                    ev->ts[i])).1 by {
                        assert(ev->ts[i] == els@[i]@);
                        assert(abs_spec(els@[i]@).1);
                    }
                    assert(abs_seq_ok(ev->ts));
                } else {
                    let j = choose|j: int|
                        0 <= j < els@.len() && !(#[trigger] abs_spec(els@[j]@)).1;
                    assert(ev->ts[j] == els@[j]@);
                    assert(!abs_spec(ev->ts[j]).1);
                    assert(!abs_seq_ok(ev->ts));
                }
            }
            (r, ok)
        },
        Operator::Mul => {
            let els = elements.unwrap();
            proof {
                assert(elements == Some(els));
                lemma_kids(Some(els));
                assert(ev == ExprV::MulN { ms: kids_view(Some(els)) });
                assert forall|i: int| 0 <= i < els@.len() implies wf(#[trigger] els@[i])
                    && decreases_to!(ev => els@[i]@) by {
                    assert(els@[i]@ == kids_view(Some(els))[i]);
                    assert(decreases_to!(ev => ev->ms));
                    assert(decreases_to!(ev->ms => ev->ms[i]));
                }
            }
            let (els2, ok) = abs_children(els, Ghost(ev));
            let r = Expr { operator: Operator::Mul, elements: Some(els2) };
            proof {
                lemma_kids(r.elements);
                lemma_abs_seq(ev->ms);
                assert forall|i: int| 0 <= i < els@.len() implies kids_view(r.elements)[i]
                    == abs_seq(ev->ms)[i] by {
                    assert(ev->ms[i] == els@[i]@);
                    assert(abs_seq(ev->ms)[i] == abs_spec(ev->ms[i]).0);
                    assert(els2@[i]@ == abs_spec(els@[i]@).0);
                }
                assert(kids_view(r.elements) =~= abs_seq(ev->ms));
                lemma_abs_seq_ok(ev->ms);
                if ok {
                    assert forall|i: int| 0 <= i < ev->ms.len() implies (#[trigger] abs_spec(
                    ev->ms[i])).1 by {
                        assert(ev->ms[i] == els@[i]@);
                        assert(abs_spec(els@[i]@).1);
                    }
                    assert(abs_seq_ok(ev->ms));
                } else {
                    let j = choose|j: int|
                        0 <= j < els@.len() && !(#[trigger] abs_spec(els@[j]@)).1;
                    assert(ev->ms[j] == els@[j]@);
                    assert(!abs_spec(ev->ms[j]).1);
                    assert(!abs_seq_ok(ev->ms));
                }
            }
            (r, ok)
        },
        Operator::Div => {
            let els = elements.unwrap();
            proof {
                assert(elements == Some(els));
                lemma_kids(Some(els));
                assert(ev == ExprV::DivN { qs: kids_view(Some(els)) });
                assert forall|i: int| 0 <= i < els@.len() implies wf(#[trigger] els@[i])
                    && decreases_to!(ev => els@[i]@) by {
                    assert(els@[i]@ == kids_view(Some(els))[i]);
                    assert(decreases_to!(ev => ev->qs));
                    assert(decreases_to!(ev->qs => ev->qs[i]));
                }
            }
            let (els2, ok) = abs_children(els, Ghost(ev));
            let r = Expr { operator: Operator::Div, elements: Some(els2) };
            proof {
                lemma_kids(r.elements);
                lemma_abs_seq(ev->qs);
                assert forall|i: int| 0 <= i < els@.len() implies kids_view(r.elements)[i]
                    == abs_seq(ev->qs)[i] by {
                    assert(ev->qs[i] == els@[i]@);
                    assert(abs_seq(ev->qs)[i] == abs_spec(ev->qs[i]).0);
                    assert(els2@[i]@ == abs_spec(els@[i]@).0);
                }
                assert(kids_view(r.elements) =~= abs_seq(ev->qs));
                lemma_abs_seq_ok(ev->qs);
                if ok {
                    assert forall|i: int| 0 <= i < ev->qs.len() implies (#[trigger] abs_spec(
                    ev->qs[i])).1 by {
                        assert(ev->qs[i] == els@[i]@);
                        assert(abs_spec(els@[i]@).1);
                    }
                    assert(abs_seq_ok(ev->qs));
                } else {
                    let j = choose|j: int|
                        0 <= j < els@.len() && !(#[trigger] abs_spec(els@[j]@)).1;
                    assert(ev->qs[j] == els@[j]@);
                    assert(!abs_spec(ev->qs[j]).1);
                    assert(!abs_seq_ok(ev->qs));
                }
            }
            (r, ok)
        },
        Operator::Sub => {
            let inner = Expr { operator: Operator::Sub, elements };
            let r = Expr {
                operator: Operator::Func(FuncIdentifier::Abs),
                elements: Some(vec![inner]),
            };
            proof {
                lemma_kids(r.elements);
                assert(kids_view(r.elements) =~= seq![ev]);
            }
            (r, true)
        },
        Operator::Pow => {
            let inner = Expr { operator: Operator::Pow, elements };
            let r = Expr {
                operator: Operator::Func(FuncIdentifier::Abs),
                elements: Some(vec![inner]),
            };
            proof {
                lemma_kids(r.elements);
                assert(kids_view(r.elements) =~= seq![ev]);
            }
            (r, true)
        },
        Operator::Name(s) => {
            let inner = Expr { operator: Operator::Name(s), elements };
            let r = Expr {
                operator: Operator::Func(FuncIdentifier::Abs),
                elements: Some(vec![inner]),
            };
            proof {
                lemma_kids(r.elements);
                assert(kids_view(r.elements) =~= seq![ev]);
            }
            (r, true)
        },
        Operator::Func(f) => {
            let inner = Expr { operator: Operator::Func(f), elements };
            let r = Expr {
                operator: Operator::Func(FuncIdentifier::Abs),
                elements: Some(vec![inner]),
            };
            proof {
                lemma_kids(r.elements);
                assert(kids_view(r.elements) =~= seq![ev]);
            }
            (r, true)
        },
        Operator::Const(c) => (Expr { operator: Operator::Const(c), elements }, true),
    }
}

impl Expr {
    /// Elementwise comparison of the children of two operator nodes.
    fn children_eq(&self, other: &Expr) -> (r: bool)
        requires
            !(self.operator is Frac),
            !(self.operator is Name),
            !(self.operator is Const),
        ensures
            r == (kids_view(self.elements) == kids_view(other.elements)),
        decreases self@, 0int,
    {
        proof {
            lemma_kids(self.elements);
            lemma_kids(other.elements);
        }
        let ghost ka = kids_view(self.elements);
        let ghost kb = kids_view(other.elements);
        let la = match &self.elements {
            Some(v) => v.len(),
            None => 0,
        };
        let lb = match &other.elements {
            Some(v) => v.len(),
            None => 0,
        };
        if la != lb {
            proof {
                assert(ka.len() != kb.len());
            }
            return false;
        }
        if la == 0 {
            proof {
                assert(ka =~= kb);
            }
            return true;
        }
        let va = self.elements.as_ref().unwrap();
        let vb = other.elements.as_ref().unwrap();
        let mut i: usize = 0;
        while i < la
            invariant
                i <= la,
                la == va@.len(),
                la == vb@.len(),
                va == self.elements->0,
                vb == other.elements->0,
                self.elements is Some,
                other.elements is Some,
                !(self.operator is Frac),
                !(self.operator is Name),
                !(self.operator is Const),
                ka == kids_view(self.elements),
                kb == kids_view(other.elements),
                ka.len() == la,
                kb.len() == la,
                forall|j: int| 0 <= j < la ==> ka[j] == (#[trigger] va@[j])@,
                forall|j: int| 0 <= j < la ==> kb[j] == (#[trigger] vb@[j])@,
                forall|j: int| 0 <= j < i ==> ka[j] == #[trigger] kb[j],
            decreases la - i,
        {
            proof {
                lemma_kids_decrease(self@);
                assert(self@.kids() =~= ka);
                assert(decreases_to!(self@ => self@.kids()[i as int]));
                assert(va@[i as int]@ == ka[i as int]);
                assert(vb@[i as int]@ == kb[i as int]);
            }
            let same = va[i].struct_eq(&vb[i]);
            if !same {
                proof {
                    assert(ka[i as int] != kb[i as int]);
                }
                return false;
            }
            i = i + 1;
        }
        proof {
            assert(ka =~= kb);
        }
        true
    }

    /// Elementwise structural equality of two trees: the same tags with
    /// the same children in the same order. This is not a mathematical
    /// comparison: differently shaped but equal-valued trees compare
    /// unequal, and un-reduced literals do not match their reduced forms.
    pub fn struct_eq(&self, other: &Expr) -> (r: bool)
        ensures
            r == (self@ == other@),
        decreases self@, 1int,
    {
        proof {
            lemma_view_shape(*self);
            lemma_view_shape(*other);
        }
        match &self.operator {
            Operator::Frac(a) => match &other.operator {
                Operator::Frac(b) => {
                    return a.num == b.num && a.denom == b.denom;
                },
                _ => {
                    return false;
                },
            },
            Operator::Name(a) => match &other.operator {
                Operator::Name(b) => {
                    let r = a.eq(b);
                    proof {
                        assert(self@ == (ExprV::Var { name: a@ }));
                        assert(other@ == (ExprV::Var { name: b@ }));
                        assert((ExprV::Var { name: a@ })->name == a@);
                        assert((ExprV::Var { name: b@ })->name == b@);
                        if a@ != b@ {
                            assert(self@ != other@);
                        } else {
                            assert(self@ == other@);
                        }
                        assert(r == (self@ == other@));
                    }
                    return r;
                },
                _ => {
                    return false;
                },
            },
            Operator::Const(a) => match &other.operator {
                Operator::Const(b) => {
                    return *a == *b;
                },
                _ => {
                    return false;
                },
            },
            Operator::Add => match &other.operator {
                Operator::Add => {
                    return self.children_eq(other);
                },
                _ => {
                    return false;
                },
            },
            Operator::Mul => match &other.operator {
                Operator::Mul => {
                    return self.children_eq(other);
                },
                _ => {
                    return false;
                },
            },
            Operator::Div => match &other.operator {
                Operator::Div => {
                    return self.children_eq(other);
                },
                _ => {
                    return false;
                },
            },
            Operator::Sub => match &other.operator {
                Operator::Sub => {
                    return self.children_eq(other);
                },
                _ => {
                    return false;
                },
            },
            Operator::Pow => match &other.operator {
                Operator::Pow => {
                    return self.children_eq(other);
                },
                _ => {
                    return false;
                },
            },
            Operator::Func(f) => match &other.operator {
                Operator::Func(g) => {
                    return f.tag_eq(g) && self.children_eq(other);
                },
                _ => {
                    return false;
                },
            },
        }
    }

    /// The in-place absolute-value transform: literals lose their sign,
    /// sign-linear aggregates push the transform onto their children, and
    /// every other node is wrapped in an absolute-value application. A
    /// literal whose numerator is the smallest word value cannot be negated
    /// and is left in place.
    pub fn abs(&mut self)
        requires
            wf(*old(self)),
        ensures
            final(self)@ == abs_spec(old(self)@).0,
            wf(*final(self)),
    {
        let _ = self.abs_checked();
    }

    /// The absolute-value transform, reporting whether it was complete:
    /// false exactly when some negative literal numerator was the smallest
    /// word value and could not be negated, and was left in place.
    pub fn abs_checked(&mut self) -> (complete: bool)
        requires
            wf(*old(self)),
        ensures
            final(self)@ == abs_spec(old(self)@).0,
            complete == abs_spec(old(self)@).1,
            wf(*final(self)),
    {
        let mut tmp = Expr::new_empty(Operator::Add);
        core::mem::swap(self, &mut tmp);
        let ghost pv = ExprV::AddN { ts: seq![tmp@] };
        proof {
            assert(decreases_to!(pv => pv->ts));
            assert(decreases_to!(pv->ts => pv->ts[0]));
        }
        let (r, complete) = abs_node(tmp, Ghost(pv));
        *self = r;
        complete
    }
}

} // verus!
