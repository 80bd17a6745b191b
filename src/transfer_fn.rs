//! Compilation of predicate expressions into predicates, and their evaluation.
use vstd::prelude::*;
use crate::context::{Checks, Exhausted, args_view};
use crate::parse::{BinOp, Expr, ExprModel};

verus! {

/// The mathematical form of a compiled predicate.
pub enum Pred {
    Always,
    Check { name: Seq<u8>, args: Seq<Seq<u8>> },
    And(Box<Pred>, Box<Pred>),
    Or(Box<Pred>, Box<Pred>),
}

/// A compiled edge predicate.
#[derive(PartialEq, Eq, Debug)]
pub enum Predicate {
    /// Always true; leaves the context as it is.
    Always,
    /// The check `name(args)` of the check set.
    Check { name: Vec<u8>, args: Vec<Vec<u8>> },
    /// Short-circuit conjunction.
    And(Box<Predicate>, Box<Predicate>),
    /// Short-circuit disjunction.
    Or(Box<Predicate>, Box<Predicate>),
}

/// The mathematical form of a predicate tree.
pub open spec fn pred_model(p: Predicate) -> Pred
    decreases p,
{
    match p {
        Predicate::Always => Pred::Always,
        Predicate::Check { name, args } => Pred::Check { name: name@, args: args_view(args@) },
        Predicate::And(l, r) => Pred::And(Box::new(pred_model(*l)), Box::new(pred_model(*r))),
        Predicate::Or(l, r) => Pred::Or(Box::new(pred_model(*l)), Box::new(pred_model(*r))),
    }
}

impl View for Predicate {
    type V = Pred;

    open spec fn view(&self) -> Pred {
        pred_model(*self)
    }
}

/// Evaluates `p` on context `c` with the checks of `k`: the verdict and the
/// context afterwards. The right operand of `And` runs only when the left one
/// held, that of `Or` only when the left one failed; each leaf runs at most once.
pub open spec fn eval<C: Exhausted, K: Checks<C>>(p: Pred, k: K, c: C) -> (bool, C)
    decreases p,
{
    match p {
        Pred::Always => (true, c),
        Pred::Check { name, args } => k.check_spec(name, args, c),
        Pred::And(l, r) => {
            let left = eval(*l, k, c);
            if !left.0 {
                left
            } else {
                eval(*r, k, left.1)
            }
        },
        Pred::Or(l, r) => {
            let left = eval(*l, k, c);
            if left.0 {
                left
            } else {
                eval(*r, k, left.1)
            }
        },
    }
}

/// Evaluation keeps the limit, never moves the position back nor past the
/// limit, and changes nothing where it does not move the position.
pub proof fn lemma_eval_progress<C: Exhausted, K: Checks<C>>(p: Pred, k: K, c: C)
    requires
        c.position() <= c.limit(),
    ensures
        eval(p, k, c).1.limit() == c.limit(),
        c.position() <= eval(p, k, c).1.position() <= c.limit(),
        eval(p, k, c).1.position() == c.position() ==> eval(p, k, c).1 == c,
    decreases p,
{
    match p {
        Pred::Check { name, args } => {
            k.lemma_check_progress(name, args, c);
        },
        Pred::And(l, r) => {
            lemma_eval_progress(*l, k, c);
            lemma_eval_progress(*r, k, eval(*l, k, c).1);
        },
        Pred::Or(l, r) => {
            lemma_eval_progress(*l, k, c);
            lemma_eval_progress(*r, k, eval(*l, k, c).1);
        },
        _ => {},
    }
}

/// When the left operand of `And` fails, the right one is never evaluated:
/// verdict and context are those of the left operand, whatever the right one is.
pub proof fn lemma_and_short_circuit<C: Exhausted, K: Checks<C>>(l: Pred, r: Pred, k: K, c: C)
    requires
        !eval(l, k, c).0,
    ensures
        eval(Pred::And(Box::new(l), Box::new(r)), k, c) == eval(l, k, c),
{
}

/// When the left operand of `Or` holds, the right one is never evaluated:
/// verdict and context are those of the left operand, whatever the right one is.
pub proof fn lemma_or_short_circuit<C: Exhausted, K: Checks<C>>(l: Pred, r: Pred, k: K, c: C)
    requires
        eval(l, k, c).0,
    ensures
        eval(Pred::Or(Box::new(l), Box::new(r)), k, c) == eval(l, k, c),
{
}

/// The predicate that an expression compiles to: each named check becomes a
/// call of that check of the check set, `_` is always true.
pub open spec fn compile_expr(e: ExprModel) -> Pred
    decreases e,
{
    match e {
        ExprModel::Wildcard => Pred::Always,
        ExprModel::Call { name, args } => Pred::Check { name, args },
        ExprModel::Paren(inner) => compile_expr(*inner),
        ExprModel::Binary { op, left, right } => match op {
            BinOp::And => Pred::And(Box::new(compile_expr(*left)), Box::new(compile_expr(*right))),
            BinOp::Or => Pred::Or(Box::new(compile_expr(*left)), Box::new(compile_expr(*right))),
        },
    }
}

/// The predicate of an edge: `Always` for an epsilon edge.
pub open spec fn compile_transfer(t: Option<ExprModel>) -> Pred {
    match t {
        None => Pred::Always,
        Some(e) => compile_expr(e),
    }
}

fn copy_bytes(b: &Vec<u8>) -> (r: Vec<u8>)
    ensures
        r@ == b@,
{
    let mut r: Vec<u8> = Vec::new();
    let mut i: usize = 0;
    while i < b.len()
        invariant
            i <= b@.len(),
            r@ == b@.subrange(0, i as int),
        decreases b@.len() - i,
    {
        r.push(b[i]);
        i = i + 1;
    }
    proof {
        assert(b@.subrange(0, b@.len() as int) =~= b@);
    }
    r
}

fn copy_args(a: &Vec<Vec<u8>>) -> (r: Vec<Vec<u8>>)
    ensures
        args_view(r@) == args_view(a@),
{
    let mut r: Vec<Vec<u8>> = Vec::new();
    let mut i: usize = 0;
    while i < a.len()
        invariant
            i <= a@.len(),
            args_view(r@) == args_view(a@).subrange(0, i as int),
        decreases a@.len() - i,
    {
        let ghost before = r@;
        let x = copy_bytes(&a[i]);
        r.push(x);
        i = i + 1;
        assert(args_view(r@) =~= args_view(a@).subrange(0, i as int)) by {
            assert(r@ == before.push(x));
            assert(args_view(r@) =~= args_view(before).push(x@));
        }
    }
    proof {
        assert(args_view(a@).subrange(0, a@.len() as int) =~= args_view(a@));
    }
    r
}

/// Compiles one predicate expression.
pub fn make_binary_clause(expr: &Expr) -> (r: Predicate)
    ensures
        r@ == compile_expr(expr@),
    decreases expr,
{
    match expr {
        Expr::Wildcard => Predicate::Always,
        Expr::Call { name, args } => Predicate::Check { name: copy_bytes(name), args: copy_args(args) },
        Expr::Paren(inner) => make_binary_clause(inner),
        Expr::Binary { op, left, right } => {
            let l = make_binary_clause(left);
            let r = make_binary_clause(right);
            match op {
                BinOp::And => Predicate::And(Box::new(l), Box::new(r)),
                BinOp::Or => Predicate::Or(Box::new(l), Box::new(r)),
            }
        },
    }
}

/// Compiles the predicate of an edge; an absent one is always true.
pub fn make_transfer_fn(func: &Option<Expr>) -> (r: Predicate)
    ensures
        r@ == compile_transfer(
            match func {
                Some(e) => Some(e@),
                None => None,
            },
        ),
{
    match func {
        None => Predicate::Always,
        Some(e) => make_binary_clause(e),
    }
}

impl Predicate {
    /// Applies the predicate to a context with the checks of `checks`, in the
    /// short-circuit order of `eval`.
    pub fn eval<C: Exhausted, K: Checks<C>>(&self, checks: &K, context: &mut C) -> (r: bool)
        requires
            old(context).position() <= old(context).limit(),
        ensures
            (r, *final(context)) == eval(self@, *checks, *old(context)),
        decreases self,
    {
        match self {
            Predicate::Always => true,
            Predicate::Check { name, args } => checks.check(name.as_slice(), args, context),
            Predicate::And(l, r) => {
                proof {
                    lemma_eval_progress(l@, *checks, *context);
                }
                if !l.eval(checks, context) {
                    false
                } else {
                    r.eval(checks, context)
                }
            },
            Predicate::Or(l, r) => {
                proof {
                    lemma_eval_progress(l@, *checks, *context);
                }
                if l.eval(checks, context) {
                    true
                } else {
                    r.eval(checks, context)
                }
            },
        }
    }
}

} // verus!
