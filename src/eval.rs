//! What each stage of a pipeline asks for: the operation that its name
//! selects, the check of its arguments, and the draw or rounding it stands for.
use vstd::prelude::*;
use crate::decimal::{
    Decimal, DecimalView, int_part, is_positive, is_probability, is_whole, less_than,
};
use crate::expr::{CalcError, Expr, Term, TermView, decimals_view};
use crate::parser::{chars_of, parse_spec};

verus! {

/// The operations that a stage can name.
#[derive(Debug, Clone, Copy, PartialEq, Eq, Structural)]
pub enum Op {
    Seed,
    Floor,
    Round,
    Uniform,
    Gauss,
    Exp,
    Binom,
    Bernoulli,
}

/// The operation that a name selects; names are matched exactly.
pub open spec fn op_spec(name: Seq<char>) -> Option<Op> {
    if name == seq!['s', 'e', 'e', 'd'] {
        Some(Op::Seed)
    } else if name == seq!['i', 'n', 't'] || name == seq!['f', 'l', 'o', 'o', 'r'] {
        Some(Op::Floor)
    } else if name == seq!['r', 'o', 'u', 'n', 'd'] {
        Some(Op::Round)
    } else if name == seq!['u', 'n', 'i', 'f', 'o', 'r', 'm'] {
        Some(Op::Uniform)
    } else if name == seq!['g', 'a', 'u', 's', 's'] || name == seq![
        'g',
        'a',
        'u',
        's',
        's',
        'i',
        'a',
        'n',
    ] || name == seq!['n', 'o', 'r', 'm', 'a', 'l'] || name == seq!['n', 'o', 'r', 'm'] {
        Some(Op::Gauss)
    } else if name == seq!['e', 'x', 'p'] || name == seq![
        'e',
        'x',
        'p',
        'o',
        'n',
        'e',
        'n',
        't',
        'i',
        'a',
        'l',
    ] {
        Some(Op::Exp)
    } else if name == seq!['b', 'i', 'n', 'o', 'm'] {
        Some(Op::Binom)
    } else if name == seq!['b', 'e', 'r', 'n', 'o', 'u', 'l', 'l', 'i'] {
        Some(Op::Bernoulli)
    } else {
        None
    }
}

/// How many arguments an operation takes: an exact count, or at most a count.
pub open spec fn arity_allows(op: Op, n: nat) -> bool {
    match op {
        Op::Seed => n == 1,
        Op::Floor | Op::Round => n == 0,
        Op::Uniform | Op::Gauss => n <= 2,
        Op::Exp | Op::Bernoulli => n <= 1,
        Op::Binom => n == 2,
    }
}

pub open spec fn zero_view() -> DecimalView {
    (false, seq![0u8], Seq::empty())
}

pub open spec fn one_view() -> DecimalView {
    (false, seq![1u8], Seq::empty())
}

pub open spec fn half_view() -> DecimalView {
    (false, seq![0u8], seq![5u8])
}

/// The parameters of an operation when none is given.
pub open spec fn defaults(op: Op) -> Seq<DecimalView> {
    match op {
        Op::Uniform | Op::Gauss => seq![zero_view(), one_view()],
        Op::Exp => seq![one_view()],
        Op::Bernoulli => seq![half_view()],
        _ => Seq::empty(),
    }
}

/// The defaults with the first of them replaced, place by place, by the
/// arguments given.
pub open spec fn fill_args(given: Seq<DecimalView>, dflt: Seq<DecimalView>) -> Seq<DecimalView> {
    Seq::new(
        dflt.len(),
        |i: int|
            if i < given.len() {
                given[i]
            } else {
                dflt[i]
            },
    )
}

/// A seed argument truncated towards zero into the `u64` range.
pub open spec fn seed_value(d: DecimalView) -> u64 {
    if d.0 {
        0
    } else if int_part(d) <= u64::MAX {
        int_part(d) as u64
    } else {
        u64::MAX
    }
}

/// A checked stage, ready to run.
pub enum Step {
    /// Reseed the generator.
    Seed(u64),
    /// Round the running result down.
    Floor,
    /// Round the running result to the nearest integer.
    Round,
    /// Draw uniformly from `[min, max)`.
    Uniform(Decimal, Decimal),
    /// Draw from a normal distribution with this mean and variance.
    Gauss(Decimal, Decimal),
    /// Draw from an exponential distribution with this rate.
    Exp(Decimal),
    /// Count the successes of this many trials with this probability.
    Binom(u64, Decimal),
}

pub enum StepView {
    Seed(u64),
    Floor,
    Round,
    Uniform(DecimalView, DecimalView),
    Gauss(DecimalView, DecimalView),
    Exp(DecimalView),
    Binom(u64, DecimalView),
}

impl View for Step {
    type V = StepView;

    open spec fn view(&self) -> StepView {
        match self {
            Step::Seed(s) => StepView::Seed(*s),
            Step::Floor => StepView::Floor,
            Step::Round => StepView::Round,
            Step::Uniform(a, b) => StepView::Uniform(a@, b@),
            Step::Gauss(a, b) => StepView::Gauss(a@, b@),
            Step::Exp(a) => StepView::Exp(a@),
            Step::Binom(n, p) => StepView::Binom(*n, p@),
        }
    }
}

/// The step for stage `i`, or the first rule it breaks: an unknown name, then
/// the argument count, then the range of an argument.
pub open spec fn step_spec(t: TermView, i: nat) -> Result<StepView, CalcError> {
    match op_spec(t.0) {
        None => Err(CalcError::UnknownOperation(i as usize)),
        Some(op) => {
            if !arity_allows(op, t.1.len()) {
                Err(CalcError::Arity(i as usize))
            } else {
                let a = fill_args(t.1, defaults(op));
                match op {
                    Op::Seed => Ok(StepView::Seed(seed_value(t.1[0]))),
                    Op::Floor => Ok(StepView::Floor),
                    Op::Round => Ok(StepView::Round),
                    Op::Uniform => {
                        if less_than(a[0], a[1]) {
                            Ok(StepView::Uniform(a[0], a[1]))
                        } else {
                            Err(CalcError::Domain(i as usize))
                        }
                    },
                    Op::Gauss => {
                        if is_positive(a[1]) {
                            Ok(StepView::Gauss(a[0], a[1]))
                        } else {
                            Err(CalcError::Domain(i as usize))
                        }
                    },
                    Op::Exp => {
                        if is_positive(a[0]) {
                            Ok(StepView::Exp(a[0]))
                        } else {
                            Err(CalcError::Domain(i as usize))
                        }
                    },
                    Op::Binom => {
                        if is_whole(t.1[0]) && int_part(t.1[0]) <= u64::MAX && is_probability(
                            t.1[1],
                        ) {
                            Ok(StepView::Binom(int_part(t.1[0]) as u64, t.1[1]))
                        } else {
                            Err(CalcError::Domain(i as usize))
                        }
                    },
                    Op::Bernoulli => {
                        if is_probability(a[0]) {
                            Ok(StepView::Binom(1, a[0]))
                        } else {
                            Err(CalcError::Domain(i as usize))
                        }
                    },
                }
            }
        },
    }
}

/// The steps of a whole pipeline, or the error of its first bad stage.
pub open spec fn plan_spec(ts: Seq<TermView>) -> Result<Seq<StepView>, CalcError>
    decreases ts.len(),
{
    if ts.len() == 0 {
        Ok(Seq::empty())
    } else {
        match plan_spec(ts.drop_last()) {
            Err(e) => Err(e),
            Ok(ss) => match step_spec(ts.last(), (ts.len() - 1) as nat) {
                Err(e) => Err(e),
                Ok(s) => Ok(ss.push(s)),
            },
        }
    }
}

/// What a whole input gives: the steps, or the first error.
pub open spec fn compile_spec(s: Seq<char>) -> Result<Seq<StepView>, CalcError> {
    match parse_spec(s) {
        Err(p) => Err(CalcError::Parse(p as usize)),
        Ok(ts) => plan_spec(ts),
    }
}

/// Whether `a` holds the characters of `b`.
fn same_chars(a: &Vec<char>, b: &[char]) -> (r: bool)
    ensures
        r == (a@ == b@),
{
    if a.len() != b.len() {
        return false;
    }
    let mut i: usize = 0;
    while i < a.len()
        invariant
            i <= a@.len(),
            a@.len() == b@.len(),
            forall|j: int| 0 <= j < i ==> a@[j] == b@[j],
        decreases a@.len() - i,
    {
        if a[i] != b[i] {
            return false;
        }
        i = i + 1;
    }
    proof {
        assert(a@ =~= b@);
    }
    true
}

/// The operation that a stage's name selects.
pub fn op_of(name: &String) -> (r: Option<Op>)
    ensures
        r == op_spec(name@),
{
    let c = chars_of(name.as_str());
    proof {
        assert(c@ == name@);
    }
    if same_chars(&c, &['s', 'e', 'e', 'd']) {
        Some(Op::Seed)
    } else if same_chars(&c, &['i', 'n', 't']) || same_chars(&c, &['f', 'l', 'o', 'o', 'r']) {
        Some(Op::Floor)
    } else if same_chars(&c, &['r', 'o', 'u', 'n', 'd']) {
        Some(Op::Round)
    } else if same_chars(&c, &['u', 'n', 'i', 'f', 'o', 'r', 'm']) {
        Some(Op::Uniform)
    } else if same_chars(&c, &['g', 'a', 'u', 's', 's']) || same_chars(
        &c,
        &['g', 'a', 'u', 's', 's', 'i', 'a', 'n'],
    ) || same_chars(&c, &['n', 'o', 'r', 'm', 'a', 'l']) || same_chars(&c, &['n', 'o', 'r', 'm']) {
        Some(Op::Gauss)
    } else if same_chars(&c, &['e', 'x', 'p']) || same_chars(
        &c,
        &['e', 'x', 'p', 'o', 'n', 'e', 'n', 't', 'i', 'a', 'l'],
    ) {
        Some(Op::Exp)
    } else if same_chars(&c, &['b', 'i', 'n', 'o', 'm']) {
        Some(Op::Binom)
    } else if same_chars(&c, &['b', 'e', 'r', 'n', 'o', 'u', 'l', 'l', 'i']) {
        Some(Op::Bernoulli)
    } else {
        None
    }
}

/// Whether an operation takes `n` arguments.
pub fn arity_ok(op: Op, n: usize) -> (r: bool)
    ensures
        r == arity_allows(op, n as nat),
{
    match op {
        Op::Seed => n == 1,
        Op::Floor | Op::Round => n == 0,
        Op::Uniform | Op::Gauss => n <= 2,
        Op::Exp | Op::Bernoulli => n <= 1,
        Op::Binom => n == 2,
    }
}

/// Replaces the first entries of `args` by those of `given`, place by place.
pub fn fillarg(given: &Vec<Decimal>, args: Vec<Decimal>) -> (r: Vec<Decimal>)
    ensures
        r@.len() == args@.len(),
        decimals_view(r@) == fill_args(decimals_view(given@), decimals_view(args@)),
        (forall|j: int| 0 <= j < given@.len() ==> (#[trigger] given@[j]).wf()) && (forall|j: int|
            0 <= j < args@.len() ==> (#[trigger] args@[j]).wf()) ==> forall|j: int|
            0 <= j < r@.len() ==> (#[trigger] r@[j]).wf(),
{
    let mut args = args;
    let ghost orig = args@;
    let n = if given.len() < args.len() {
        given.len()
    } else {
        args.len()
    };
    let mut i: usize = 0;
    while i < n
        invariant
            i <= n,
            n <= given@.len(),
            n <= orig.len(),
            args@.len() == orig.len(),
            forall|j: int| 0 <= j < i ==> (#[trigger] args@[j])@ == given@[j]@ && (given@[j].wf()
                ==> args@[j].wf()),
            forall|j: int| i <= j < args@.len() ==> #[trigger] args@[j] == orig[j],
        decreases n - i,
    {
        let d = given[i].duplicate();
        args.set(i, d);
        i = i + 1;
    }
    proof {
        assert(decimals_view(args@) =~= fill_args(decimals_view(given@), decimals_view(orig)));
    }
    args
}

/// The defaults `[0, 1]` of the two-parameter draws.
fn pair_defaults() -> (r: Vec<Decimal>)
    ensures
        decimals_view(r@) == seq![zero_view(), one_view()],
        forall|j: int| 0 <= j < r@.len() ==> (#[trigger] r@[j]).wf(),
{
    let r = vec![Decimal::zero(), Decimal::one()];
    proof {
        assert(decimals_view(r@) =~= seq![zero_view(), one_view()]);
    }
    r
}

/// Checks stage `i` and turns it into its step.
pub fn step(t: &Term, i: usize) -> (r: Result<Step, CalcError>)
    requires
        forall|j: int| 0 <= j < t.1@.len() ==> (#[trigger] t.1@[j]).wf(),
    ensures
        match r {
            Ok(s) => step_spec(t@, i as nat) == Ok::<StepView, CalcError>(s@),
            Err(e) => step_spec(t@, i as nat) == Err::<StepView, CalcError>(e),
        },
{
    let op = match op_of(&t.0) {
        None => {
            return Err(CalcError::UnknownOperation(i));
        },
        Some(op) => op,
    };
    if !arity_ok(op, t.1.len()) {
        return Err(CalcError::Arity(i));
    }
    let ghost given = decimals_view(t.1@);
    proof {
        assert(t@.1 == given);
    }
    match op {
        Op::Seed => {
            let x = &t.1[0];
            proof {
                assert(given[0] == x@);
            }
            let s = if x.negative {
                0
            } else {
                match x.int_part_u64() {
                    Some(v) => v,
                    None => u64::MAX,
                }
            };
            Ok(Step::Seed(s))
        },
        Op::Floor => Ok(Step::Floor),
        Op::Round => Ok(Step::Round),
        Op::Uniform => {
            let a = fillarg(&t.1, pair_defaults());
            proof {
                assert(decimals_view(a@)[0] == a@[0]@ && decimals_view(a@)[1] == a@[1]@);
            }
            if a[0].lt(&a[1]) {
                Ok(Step::Uniform(a[0].duplicate(), a[1].duplicate()))
            } else {
                Err(CalcError::Domain(i))
            }
        },
        Op::Gauss => {
            let a = fillarg(&t.1, pair_defaults());
            proof {
                assert(decimals_view(a@)[0] == a@[0]@ && decimals_view(a@)[1] == a@[1]@);
            }
            if a[1].positive() {
                Ok(Step::Gauss(a[0].duplicate(), a[1].duplicate()))
            } else {
                Err(CalcError::Domain(i))
            }
        },
        Op::Exp => {
            let d = vec![Decimal::one()];
            proof {
                assert(decimals_view(d@) =~= defaults(op));
            }
            let a = fillarg(&t.1, d);
            proof {
                assert(decimals_view(a@)[0] == a@[0]@);
            }
            if a[0].positive() {
                Ok(Step::Exp(a[0].duplicate()))
            } else {
                Err(CalcError::Domain(i))
            }
        },
        Op::Bernoulli => {
            let d = vec![Decimal::half()];
            proof {
                assert(decimals_view(d@) =~= defaults(op));
            }
            let a = fillarg(&t.1, d);
            proof {
                assert(decimals_view(a@)[0] == a@[0]@);
            }
            if a[0].probability() {
                Ok(Step::Binom(1, a[0].duplicate()))
            } else {
                Err(CalcError::Domain(i))
            }
        },
        Op::Binom => {
            let n = &t.1[0];
            let p = &t.1[1];
            proof {
                assert(given[0] == n@ && given[1] == p@);
            }
            if !n.is_whole_number() || !p.probability() {
                return Err(CalcError::Domain(i));
            }
            match n.int_part_u64() {
                Some(count) => Ok(Step::Binom(count, p.duplicate())),
                None => Err(CalcError::Domain(i)),
            }
        },
    }
}

/// Once a prefix of the stages fails, the whole pipeline fails with the same error.
proof fn lemma_plan_stops(ts: Seq<TermView>, k: int)
    requires
        0 <= k <= ts.len(),
        plan_spec(ts.subrange(0, k)) is Err,
    ensures
        plan_spec(ts) == plan_spec(ts.subrange(0, k)),
    decreases ts.len() - k,
{
    if k < ts.len() {
        let next = ts.subrange(0, k + 1);
        assert(next.drop_last() =~= ts.subrange(0, k));
        lemma_plan_stops(ts, k + 1);
    } else {
        assert(ts.subrange(0, k) =~= ts);
    }
}

/// Checks every stage of a pipeline, left to right: the steps to run, or
/// the error of the first stage that breaks a rule.
pub fn plan(expr: &Expr) -> (r: Result<Vec<Step>, CalcError>)
    requires
        expr.wf(),
    ensures
        match r {
            Ok(ss) => plan_spec(expr@) == Ok::<Seq<StepView>, CalcError>(ss@.map_values(|s: Step| s@)),
            Err(e) => plan_spec(expr@) == Err::<Seq<StepView>, CalcError>(e),
        },
{
    let mut steps: Vec<Step> = Vec::new();
    let mut i: usize = 0;
    proof {
        assert(expr@.subrange(0, 0) =~= Seq::<TermView>::empty());
        assert(steps@.map_values(|s: Step| s@) =~= Seq::<StepView>::empty());
    }
    while i < expr.code.len()
        invariant
            i <= expr.code@.len(),
            expr.wf(),
            plan_spec(expr@.subrange(0, i as int)) == Ok::<Seq<StepView>, CalcError>(
                steps@.map_values(|s: Step| s@),
            ),
        decreases expr.code@.len() - i,
    {
        let t = &expr.code[i];
        proof {
            assert forall|j: int| 0 <= j < t.1@.len() implies (#[trigger] t.1@[j]).wf() by {
                assert(expr.code@[i as int].1@[j].wf());
            }
            let ts = expr@.subrange(0, i + 1);
            assert(ts.drop_last() =~= expr@.subrange(0, i as int));
            assert(ts.last() == t@);
        }
        match step(t, i) {
            Err(e) => {
                proof {
                    lemma_plan_stops(expr@, i + 1);
                }
                return Err(e);
            },
            Ok(s) => {
                let ghost before = steps@;
                steps.push(s);
                proof {
                    assert(steps@.map_values(|s: Step| s@) =~= before.map_values(|s: Step| s@).push(
                        s@,
                    ));
                }
            },
        }
        i = i + 1;
    }
    proof {
        assert(expr@.subrange(0, i as int) =~= expr@);
    }
    Ok(steps)
}

/// Parses a pipeline and checks every stage: the steps to run, or the first
/// error, a parse error before any stage error.
pub fn compile(input: String) -> (r: Result<Vec<Step>, CalcError>)
    ensures
        match r {
            Ok(ss) => compile_spec(input@) == Ok::<Seq<StepView>, CalcError>(ss@.map_values(|s: Step| s@)),
            Err(e) => compile_spec(input@) == Err::<Seq<StepView>, CalcError>(e),
        },
{
    match crate::parser::parse(input) {
        Err(e) => Err(e),
        Ok(expr) => plan(&expr),
    }
}

/// A draw given fewer parameters than it takes behaves exactly as if the
/// missing trailing parameters had been written out with their defaults:
/// `uniform()` is `uniform(0, 1)`, `gauss(m)` is `gauss(m, 1)`, `exp()` is
/// `exp(1)`, `bernoulli()` is `bernoulli(0.5)`.
pub proof fn lemma_defaults_fill_in(name: Seq<char>, given: Seq<DecimalView>, i: nat)
    requires
        op_spec(name) == Some(Op::Uniform) || op_spec(name) == Some(Op::Gauss) || op_spec(name)
            == Some(Op::Exp) || op_spec(name) == Some(Op::Bernoulli),
        arity_allows(op_spec(name)->Some_0, given.len()),
    ensures
        step_spec((name, given), i) == step_spec(
            (name, fill_args(given, defaults(op_spec(name)->Some_0))),
            i,
        ),
{
    let d = defaults(op_spec(name)->Some_0);
    let full = fill_args(given, d);
    assert(fill_args(full, d) =~= full);
}

} // verus!
