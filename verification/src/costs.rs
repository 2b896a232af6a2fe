//! The classical cost metric: which `(:metric ...)` shape this engine
//! reports and optimizes.

use vstd::prelude::*;
use crate::text::{cat3, join_sp, join_spaces, to_uppercase, unicode_upper, views};
use crate::types::{Expr, MetricDir, Problem, Term};

verus! {

/// The uppercased constants of a ground argument list, or `None` when an
/// argument is a variable.
pub open spec fn ground_args(args: Seq<Term>) -> Option<Seq<Seq<char>>>
    decreases args.len(),
{
    if args.len() == 0 {
        Some(seq![])
    } else {
        match ground_args(args.drop_last()) {
            None => None,
            Some(v) => match args.last() {
                Term::Const(c) => Some(v.push(unicode_upper(c@))),
                Term::Var(_) => None,
            },
        }
    }
}

/// The display of the fluent a problem's metric minimizes: `(NAME ARG...)`,
/// uppercased; `None` for any other metric shape.
pub open spec fn spec_metric_fluent(p: Problem) -> Option<Seq<char>> {
    match p.metric {
        Some((MetricDir::Minimize, Expr::Fluent(name, args))) => match ground_args(args@) {
            Some(parts) => Some("("@ + join_sp(seq![unicode_upper(name@)] + parts) + ")"@),
            None => None,
        },
        _ => None,
    }
}

/// The one supported cost-metric shape on a classical problem:
/// `(:metric minimize <ground fluent>)`. Returns the fluent's display
/// (e.g. `"(TOTAL-COST)"`). Anything else (maximize, compound expressions,
/// lifted terms) comes back `None`: those metrics are never silently
/// optimized.
pub fn metric_fluent(problem: &Problem) -> (r: Option<String>)
    ensures
        match spec_metric_fluent(*problem) {
            Some(d) => r matches Some(s) && s@ == d,
            None => r is None,
        },
{
    let (dir, e) = match &problem.metric {
        Some(m) => (m.0, &m.1),
        None => return None,
    };
    match dir {
        MetricDir::Minimize => {},
        MetricDir::Maximize => return None,
    }
    match e {
        Expr::Fluent(name, args) => {
            let mut parts: Vec<String> = Vec::new();
            parts.push(to_uppercase(name.as_str()));
            let mut i: usize = 0;
            while i < args.len()
                invariant
                    i <= args@.len(),
                    problem.metric == Some((MetricDir::Minimize, Expr::Fluent(*name, *args))),
                    ground_args(args@.take(i as int)) matches Some(v) && views(parts@) == seq![
                        unicode_upper(name@),
                    ] + v,
                decreases args@.len() - i,
            {
                proof {
                    assert(args@.take(i + 1).drop_last() =~= args@.take(i as int));
                    assert(args@.take(i + 1).last() == args@[i as int]);
                }
                let ghost before = views(parts@);
                match &args[i] {
                    Term::Const(c) => {
                        let u = to_uppercase(c.as_str());
                        let ghost uv = u@;
                        parts.push(u);
                        proof {
                            let v = ground_args(args@.take(i as int))->0;
                            assert(views(parts@) =~= before.push(uv));
                            assert(views(parts@) =~= seq![unicode_upper(name@)] + v.push(
                                unicode_upper(c@),
                            ));
                        }
                    },
                    Term::Var(_) => {
                        proof {
                            assert(ground_args(args@.take(i + 1)) is None);
                            lemma_lifted_stays_lifted(args@, i + 1, args@.len() as int);
                            assert(args@.take(args@.len() as int) =~= args@);
                        }
                        return None;
                    },
                }
                i = i + 1;
            }
            proof {
                assert(args@.take(args@.len() as int) =~= args@);
            }
            let joined = join_spaces(&parts);
            Some(cat3("(", joined.as_str(), ")"))
        },
        Expr::Compound => None,
    }
}

proof fn lemma_lifted_stays_lifted(args: Seq<Term>, i: int, j: int)
    requires
        0 <= i <= j <= args.len(),
        ground_args(args.take(i)) is None,
    ensures
        ground_args(args.take(j)) is None,
    decreases j - i,
{
    if i < j {
        assert(args.take(i + 1).drop_last() =~= args.take(i));
        lemma_lifted_stays_lifted(args, i + 1, j);
    }
}

} // verus!
