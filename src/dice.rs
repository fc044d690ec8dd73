//! The expression tree: sums and products of signed terms, die groups and constants.
use vstd::prelude::*;

use rand::distributions::Distribution;

use crate::log::{in_i32, log_wf, DiceRoll, RollLog};
use crate::parse::{
    lemma_slices_shorter, scan, splits_view, DiceParseError, ParseFailure, ParseKind, ParseState,
};
use crate::text::{decimal, int_value, parse_int, push_char, push_int};

verus! {

broadcast use vstd::std_specs::vec::axiom_vec_index_decreases;

/// Relies on rand's `Uniform::new_inclusive(low, high)` sampled with `thread_rng()`:
/// a value in `low..=high`. It panics when `low > high`.
#[verifier::external_body]
fn uniform(low: i32, high: i32) -> (r: i32)
    requires
        low <= high,
    ensures
        low <= r <= high,
{
    rand::distributions::Uniform::new_inclusive(low, high).sample(&mut rand::thread_rng())
}

/// The model of an expression: signed terms of a sum or of a product, a die group
/// (count, faces), or a constant. In a term, `true` means negated.
pub ghost enum Expr {
    Sum(Seq<(bool, Expr)>),
    Mult(Seq<(bool, Expr)>),
    Die(int, int),
    Const(int),
}

/// A dice expression.
#[derive(Debug)]
pub enum DiceSet {
    Sum(Vec<SignedDice>),
    Mult(Vec<SignedDice>),
    Die(Die),
    Const(i32),
}

/// A term of a sum or a factor of a product, with its sign.
#[derive(Debug)]
pub enum SignedDice {
    Pos(DiceSet),
    Neg(DiceSet),
}

/// `number` dice of `sides` faces each.
#[derive(Debug)]
pub struct Die {
    pub number: i32,
    pub sides: i32,
}

pub open spec fn set_view(d: DiceSet) -> Expr
    decreases d,
{
    match d {
        DiceSet::Sum(v) => Expr::Sum(terms_view(v@)),
        DiceSet::Mult(v) => Expr::Mult(terms_view(v@)),
        DiceSet::Die(x) => Expr::Die(x.number as int, x.sides as int),
        DiceSet::Const(c) => Expr::Const(c as int),
    }
}

pub open spec fn terms_view(s: Seq<SignedDice>) -> Seq<(bool, Expr)>
    decreases s,
{
    if s.len() == 0 {
        Seq::empty()
    } else {
        terms_view(s.drop_last()).push(signed_view(s.last()))
    }
}

pub open spec fn signed_view(t: SignedDice) -> (bool, Expr)
    decreases t,
{
    match t {
        SignedDice::Pos(d) => (false, set_view(d)),
        SignedDice::Neg(d) => (true, set_view(d)),
    }
}

impl View for DiceSet {
    type V = Expr;

    open spec fn view(&self) -> Expr {
        set_view(*self)
    }
}

impl View for SignedDice {
    type V = (bool, Expr);

    open spec fn view(&self) -> (bool, Expr) {
        signed_view(*self)
    }
}

proof fn lemma_terms_view(s: Seq<SignedDice>)
    ensures
        terms_view(s).len() == s.len(),
        forall|i: int| 0 <= i < s.len() ==> #[trigger] terms_view(s)[i] == signed_view(s[i]),
    decreases s.len(),
{
    if s.len() > 0 {
        lemma_terms_view(s.drop_last());
    }
}

proof fn lemma_terms_view_push(s: Seq<SignedDice>, t: SignedDice)
    ensures
        terms_view(s.push(t)) == terms_view(s).push(signed_view(t)),
{
    assert(s.push(t).drop_last() =~= s);
}

// ---------------------------------------------------------------- canonical text

/// The canonical text: terms of a sum joined by ` + ` and ` - `, factors of a product
/// by `x` and `x-`, a leading `-` on a negative first one, `<count>d<faces>` for a
/// die group and the decimal value of a constant.
pub open spec fn render(e: Expr) -> Seq<char>
    decreases e,
{
    match e {
        Expr::Sum(ts) => render_chain(ts, seq![' ', '+', ' '], seq![' ', '-', ' ']),
        Expr::Mult(ts) => render_chain(ts, seq!['x'], seq!['x', '-']),
        Expr::Die(n, s) => decimal(n) + seq!['d'] + decimal(s),
        Expr::Const(c) => decimal(c),
    }
}

pub open spec fn render_chain(ts: Seq<(bool, Expr)>, plus: Seq<char>, minus: Seq<char>) -> Seq<char>
    decreases ts,
{
    if ts.len() == 0 {
        Seq::empty()
    } else if ts.len() == 1 {
        (if ts[0].0 { seq!['-'] } else { Seq::empty() }) + render(ts[0].1)
    } else {
        render_chain(ts.drop_last(), plus, minus) + (if ts.last().0 { minus } else { plus }) + render(
            ts.last().1,
        )
    }
}

// ---------------------------------------------------------------- parsing

/// The expression that a text denotes, or why it denotes none.
///
/// A sum's slices are its terms, negative after a `-`; an empty first term is a
/// `1d20`, another empty term is an error. A product's slices are its factors, one
/// that starts with `-` negative. A die group has a count (1 when empty) and a face
/// count of at least 1. A constant is the whole text read as an `i32`.
pub open spec fn parse_expr(text: Seq<char>) -> Result<Expr, ParseFailure>
    decreases text.len() + 1, 0int,
{
    match scan(text) {
        Err(c) => Err(ParseFailure::Char(c)),
        Ok(st) => match st.kind {
            ParseKind::Sum => match sum_terms(st.split, text) {
                Ok(ts) => Ok(Expr::Sum(ts)),
                Err(f) => Err(f),
            },
            ParseKind::Mult => match mult_terms(st.split, text) {
                Ok(ts) => Ok(Expr::Mult(ts)),
                Err(f) => Err(f),
            },
            ParseKind::Die => die_of(st.split, text),
            ParseKind::Const => match int_value(text) {
                Some(v) => Ok(Expr::Const(v)),
                None => Err(ParseFailure::Number(text)),
            },
        },
    }
}

pub open spec fn shorter_slices(slices: Seq<(char, Seq<char>)>, text: Seq<char>) -> bool {
    forall|i: int| 0 <= i < slices.len() ==> (#[trigger] slices[i]).1.len() < text.len()
}

/// The terms of a sum, left to right; the first failure wins.
pub open spec fn sum_terms(slices: Seq<(char, Seq<char>)>, text: Seq<char>) -> Result<
    Seq<(bool, Expr)>,
    ParseFailure,
>
    decreases text.len(), slices.len(),
    when shorter_slices(slices, text)
{
    if slices.len() == 0 {
        Ok(Seq::empty())
    } else {
        match sum_terms(slices.drop_last(), text) {
            Err(f) => Err(f),
            Ok(ts) => {
                let body = slices.last().1;
                if body.len() == 0 {
                    if slices.len() == 1 {
                        Ok(ts.push((false, Expr::Die(1, 20))))
                    } else {
                        Err(ParseFailure::Math(text))
                    }
                } else {
                    match parse_expr(body) {
                        Err(f) => Err(f),
                        Ok(e) => Ok(ts.push((slices.last().0 == '-', e))),
                    }
                }
            },
        }
    }
}

/// The factors of a product, left to right; the first failure wins.
pub open spec fn mult_terms(slices: Seq<(char, Seq<char>)>, text: Seq<char>) -> Result<
    Seq<(bool, Expr)>,
    ParseFailure,
>
    decreases text.len(), slices.len(),
    when shorter_slices(slices, text)
{
    if slices.len() == 0 {
        Ok(Seq::empty())
    } else {
        match mult_terms(slices.drop_last(), text) {
            Err(f) => Err(f),
            Ok(ts) => {
                let body = slices.last().1;
                if body.len() == 0 {
                    Err(ParseFailure::Math(text))
                } else if body[0] == '-' {
                    match parse_expr(body.skip(1)) {
                        Err(f) => Err(f),
                        Ok(e) => Ok(ts.push((true, e))),
                    }
                } else {
                    match parse_expr(body) {
                        Err(f) => Err(f),
                        Ok(e) => Ok(ts.push((false, e))),
                    }
                }
            },
        }
    }
}

/// A die group from its two slices, count and faces.
pub open spec fn die_of(slices: Seq<(char, Seq<char>)>, text: Seq<char>) -> Result<Expr, ParseFailure> {
    if slices.len() == 2 {
        let count = if slices[0].1.len() == 0 {
            Some(1int)
        } else {
            int_value(slices[0].1)
        };
        match count {
            None => Err(ParseFailure::Number(slices[0].1)),
            Some(n) => match int_value(slices[1].1) {
                Some(s) if s >= 1 => Ok(Expr::Die(n, s)),
                _ => Err(ParseFailure::Number(slices[1].1)),
            },
        }
    } else {
        Err(ParseFailure::Die(text))
    }
}

pub open spec fn parsed(r: Result<DiceSet, DiceParseError>) -> Result<Expr, ParseFailure> {
    match r {
        Ok(d) => Ok(d@),
        Err(e) => Err(e@),
    }
}

pub open spec fn parsed_signed(r: Result<SignedDice, DiceParseError>) -> Result<(bool, Expr), ParseFailure> {
    match r {
        Ok(d) => Ok(d@),
        Err(e) => Err(e@),
    }
}

pub open spec fn signed_result(r: Result<Expr, ParseFailure>, neg: bool) -> Result<(bool, Expr), ParseFailure> {
    match r {
        Ok(e) => Ok((neg, e)),
        Err(f) => Err(f),
    }
}

proof fn lemma_sum_terms_failed(slices: Seq<(char, Seq<char>)>, text: Seq<char>, j: int)
    requires
        shorter_slices(slices, text),
        0 <= j <= slices.len(),
        sum_terms(slices.take(j), text) is Err,
    ensures
        sum_terms(slices, text) == sum_terms(slices.take(j), text),
    decreases slices.len(),
{
    if j < slices.len() {
        assert(slices.drop_last().take(j) =~= slices.take(j));
        lemma_sum_terms_failed(slices.drop_last(), text, j);
    } else {
        assert(slices.take(j) =~= slices);
    }
}

proof fn lemma_mult_terms_failed(slices: Seq<(char, Seq<char>)>, text: Seq<char>, j: int)
    requires
        shorter_slices(slices, text),
        0 <= j <= slices.len(),
        mult_terms(slices.take(j), text) is Err,
    ensures
        mult_terms(slices, text) == mult_terms(slices.take(j), text),
    decreases slices.len(),
{
    if j < slices.len() {
        assert(slices.drop_last().take(j) =~= slices.take(j));
        lemma_mult_terms_failed(slices.drop_last(), text, j);
    } else {
        assert(slices.take(j) =~= slices);
    }
}

// ---------------------------------------------------------------- die groups and values

/// The die groups of an expression, (count, faces), in the order they are rolled.
pub open spec fn groups(e: Expr) -> Seq<(int, int)>
    decreases e,
{
    match e {
        Expr::Sum(ts) => groups_of(ts),
        Expr::Mult(ts) => groups_of(ts),
        Expr::Die(n, s) => seq![(n, s)],
        Expr::Const(_) => Seq::empty(),
    }
}

pub open spec fn groups_of(ts: Seq<(bool, Expr)>) -> Seq<(int, int)>
    decreases ts,
{
    if ts.len() == 0 {
        Seq::empty()
    } else {
        groups_of(ts.drop_last()) + groups(ts.last().1)
    }
}

/// The logs are one for each group, of its faces and its count, each face in range.
pub open spec fn logs_fit(g: Seq<(int, int)>, logs: Seq<(i32, Seq<i32>)>) -> bool {
    &&& logs.len() == g.len()
    &&& forall|i: int|
        0 <= i < g.len() ==> {
            &&& (#[trigger] logs[i]).0 == g[i].1
            &&& logs[i].1.len() == g[i].0
            &&& log_wf(logs[i])
        }
}

/// The sum of the faces.
pub open spec fn total(rolls: Seq<i32>) -> int
    decreases rolls.len(),
{
    if rolls.len() == 0 {
        0
    } else {
        total(rolls.drop_last()) + rolls.last()
    }
}

/// The value of an expression given the faces drawn for its die groups.
pub open spec fn eval(e: Expr, logs: Seq<(i32, Seq<i32>)>) -> int
    decreases e,
{
    match e {
        Expr::Sum(ts) => eval_sum(ts, logs),
        Expr::Mult(ts) => eval_mult(ts, logs),
        Expr::Die(_, _) => total(logs[0].1),
        Expr::Const(c) => c,
    }
}

/// From 0, each term added or subtracted in turn.
pub open spec fn eval_sum(ts: Seq<(bool, Expr)>, logs: Seq<(i32, Seq<i32>)>) -> int
    decreases ts,
{
    if ts.len() == 0 {
        0
    } else {
        let k = groups_of(ts.drop_last()).len() as int;
        let v = eval_sum(ts.drop_last(), logs.take(k));
        let x = eval(ts.last().1, logs.skip(k));
        if ts.last().0 {
            v - x
        } else {
            v + x
        }
    }
}

/// From 1, each factor multiplied in turn; a negative factor first negates the product.
pub open spec fn eval_mult(ts: Seq<(bool, Expr)>, logs: Seq<(i32, Seq<i32>)>) -> int
    decreases ts,
{
    if ts.len() == 0 {
        1
    } else {
        let k = groups_of(ts.drop_last()).len() as int;
        let v = eval_mult(ts.drop_last(), logs.take(k));
        let x = eval(ts.last().1, logs.skip(k));
        if ts.last().0 {
            -v * x
        } else {
            v * x
        }
    }
}

pub open spec fn min4(a: int, b: int, c: int, d: int) -> int {
    let x = if a <= b { a } else { b };
    let y = if c <= d { c } else { d };
    if x <= y { x } else { y }
}

pub open spec fn max4(a: int, b: int, c: int, d: int) -> int {
    let x = if a >= b { a } else { b };
    let y = if c >= d { c } else { d };
    if x >= y { x } else { y }
}

/// The least and the greatest value that a roll can give.
pub open spec fn bounds(e: Expr) -> (int, int)
    decreases e,
{
    match e {
        Expr::Sum(ts) => sum_bounds(ts),
        Expr::Mult(ts) => mult_bounds(ts),
        Expr::Die(n, s) => (n, n * s),
        Expr::Const(c) => (c, c),
    }
}

pub open spec fn sum_bounds(ts: Seq<(bool, Expr)>) -> (int, int)
    decreases ts,
{
    if ts.len() == 0 {
        (0, 0)
    } else {
        let p = sum_bounds(ts.drop_last());
        let q = bounds(ts.last().1);
        if ts.last().0 {
            (p.0 - q.1, p.1 - q.0)
        } else {
            (p.0 + q.0, p.1 + q.1)
        }
    }
}

pub open spec fn mult_bounds(ts: Seq<(bool, Expr)>) -> (int, int)
    decreases ts,
{
    if ts.len() == 0 {
        (1, 1)
    } else {
        let p0 = mult_bounds(ts.drop_last());
        let p = if ts.last().0 { (-p0.1, -p0.0) } else { p0 };
        let q = bounds(ts.last().1);
        (min4(p.0 * q.0, p.0 * q.1, p.1 * q.0, p.1 * q.1), max4(p.0 * q.0, p.0 * q.1, p.1 * q.0, p.1 * q.1))
    }
}

pub open spec fn bounds_in_i32(b: (int, int)) -> bool {
    in_i32(b.0) && in_i32(b.1)
}

/// Whether every die group has a face and a count that is not negative, and every
/// value met along the way while rolling fits in an `i32`.
pub open spec fn fits(e: Expr) -> bool
    decreases e,
{
    match e {
        Expr::Sum(ts) => sum_fits(ts),
        Expr::Mult(ts) => mult_fits(ts),
        Expr::Die(n, s) => 0 <= n && 1 <= s && n * s <= i32::MAX,
        Expr::Const(c) => in_i32(c),
    }
}

pub open spec fn sum_fits(ts: Seq<(bool, Expr)>) -> bool
    decreases ts,
{
    if ts.len() == 0 {
        true
    } else {
        sum_fits(ts.drop_last()) && fits(ts.last().1) && bounds_in_i32(sum_bounds(ts))
    }
}

pub open spec fn mult_fits(ts: Seq<(bool, Expr)>) -> bool
    decreases ts,
{
    if ts.len() == 0 {
        true
    } else {
        let p = mult_bounds(ts.drop_last());
        &&& mult_fits(ts.drop_last())
        &&& fits(ts.last().1)
        &&& (ts.last().0 ==> in_i32(-p.0) && in_i32(-p.1))
        &&& bounds_in_i32(mult_bounds(ts))
    }
}

// ---------------------------------------------------------------- lemmas on rolls

proof fn lemma_logs_fit_split(g1: Seq<(int, int)>, g2: Seq<(int, int)>, logs: Seq<(i32, Seq<i32>)>)
    requires
        logs_fit(g1 + g2, logs),
    ensures
        logs_fit(g1, logs.take(g1.len() as int)),
        logs_fit(g2, logs.skip(g1.len() as int)),
{
    let k = g1.len() as int;
    assert forall|i: int| 0 <= i < g1.len() implies {
        &&& (#[trigger] logs.take(k)[i]).0 == g1[i].1
        &&& logs.take(k)[i].1.len() == g1[i].0
        &&& log_wf(logs.take(k)[i])
    } by {
        assert(logs.take(k)[i] == logs[i]);
        assert((g1 + g2)[i] == g1[i]);
    }
    assert forall|i: int| 0 <= i < g2.len() implies {
        &&& (#[trigger] logs.skip(k)[i]).0 == g2[i].1
        &&& logs.skip(k)[i].1.len() == g2[i].0
        &&& log_wf(logs.skip(k)[i])
    } by {
        assert(logs.skip(k)[i] == logs[k + i]);
        assert((g1 + g2)[k + i] == g2[i]);
    }
}

proof fn lemma_logs_fit_join(
    g1: Seq<(int, int)>,
    g2: Seq<(int, int)>,
    l1: Seq<(i32, Seq<i32>)>,
    l2: Seq<(i32, Seq<i32>)>,
)
    requires
        logs_fit(g1, l1),
        logs_fit(g2, l2),
    ensures
        logs_fit(g1 + g2, l1 + l2),
        (l1 + l2).take(g1.len() as int) == l1,
        (l1 + l2).skip(g1.len() as int) == l2,
{
    let g = g1 + g2;
    let l = l1 + l2;
    assert forall|i: int| 0 <= i < g.len() implies {
        &&& (#[trigger] l[i]).0 == g[i].1
        &&& l[i].1.len() == g[i].0
        &&& log_wf(l[i])
    } by {
        if i < g1.len() {
            assert(l[i] == l1[i]);
        } else {
            assert(l[i] == l2[i - g1.len()]);
        }
    }
    assert(l.take(g1.len() as int) =~= l1);
    assert(l.skip(g1.len() as int) =~= l2);
}

proof fn lemma_total_bounds(rolls: Seq<i32>, s: int)
    requires
        forall|j: int| 0 <= j < rolls.len() ==> 1 <= #[trigger] rolls[j] <= s,
    ensures
        rolls.len() <= total(rolls) <= rolls.len() * s,
    decreases rolls.len(),
{
    if rolls.len() > 0 {
        let p = rolls.drop_last();
        assert forall|j: int| 0 <= j < p.len() implies 1 <= #[trigger] p[j] <= s by {
            assert(p[j] == rolls[j]);
        }
        lemma_total_bounds(p, s);
        assert(1 <= rolls[rolls.len() - 1] <= s);
        assert(p.len() * s + s == rolls.len() * s) by (nonlinear_arith)
            requires
                p.len() + 1 == rolls.len(),
        ;
    }
}

proof fn lemma_mul_in_box(v: int, lo: int, hi: int, x: int, a: int, b: int)
    requires
        lo <= v <= hi,
        a <= x <= b,
    ensures
        min4(lo * a, lo * b, hi * a, hi * b) <= v * x <= max4(lo * a, lo * b, hi * a, hi * b),
{
    if x >= 0 {
        assert(lo * x <= v * x <= hi * x) by (nonlinear_arith)
            requires
                lo <= v <= hi,
                x >= 0,
        ;
    } else {
        assert(hi * x <= v * x <= lo * x) by (nonlinear_arith)
            requires
                lo <= v <= hi,
                x < 0,
        ;
    }
    if lo >= 0 {
        assert(lo * a <= lo * x <= lo * b) by (nonlinear_arith)
            requires
                a <= x <= b,
                lo >= 0,
        ;
    } else {
        assert(lo * b <= lo * x <= lo * a) by (nonlinear_arith)
            requires
                a <= x <= b,
                lo < 0,
        ;
    }
    if hi >= 0 {
        assert(hi * a <= hi * x <= hi * b) by (nonlinear_arith)
            requires
                a <= x <= b,
                hi >= 0,
        ;
    } else {
        assert(hi * b <= hi * x <= hi * a) by (nonlinear_arith)
            requires
                a <= x <= b,
                hi < 0,
        ;
    }
}

/// A roll's value lies within the bounds of its expression.
pub proof fn lemma_eval_bounds(e: Expr, logs: Seq<(i32, Seq<i32>)>)
    requires
        logs_fit(groups(e), logs),
    ensures
        bounds(e).0 <= eval(e, logs) <= bounds(e).1,
    decreases e,
{
    match e {
        Expr::Sum(ts) => lemma_sum_bounds(ts, logs),
        Expr::Mult(ts) => lemma_mult_bounds(ts, logs),
        Expr::Die(n, s) => {
            assert(logs[0].0 == s);
            assert(log_wf(logs[0]));
            lemma_total_bounds(logs[0].1, s);
        },
        Expr::Const(c) => {},
    }
}

proof fn lemma_sum_bounds(ts: Seq<(bool, Expr)>, logs: Seq<(i32, Seq<i32>)>)
    requires
        logs_fit(groups_of(ts), logs),
    ensures
        sum_bounds(ts).0 <= eval_sum(ts, logs) <= sum_bounds(ts).1,
    decreases ts,
{
    if ts.len() > 0 {
        let g1 = groups_of(ts.drop_last());
        lemma_logs_fit_split(g1, groups(ts.last().1), logs);
        lemma_sum_bounds(ts.drop_last(), logs.take(g1.len() as int));
        lemma_eval_bounds(ts.last().1, logs.skip(g1.len() as int));
    }
}

proof fn lemma_mult_bounds(ts: Seq<(bool, Expr)>, logs: Seq<(i32, Seq<i32>)>)
    requires
        logs_fit(groups_of(ts), logs),
    ensures
        mult_bounds(ts).0 <= eval_mult(ts, logs) <= mult_bounds(ts).1,
    decreases ts,
{
    if ts.len() > 0 {
        let g1 = groups_of(ts.drop_last());
        let k = g1.len() as int;
        lemma_logs_fit_split(g1, groups(ts.last().1), logs);
        lemma_mult_bounds(ts.drop_last(), logs.take(k));
        lemma_eval_bounds(ts.last().1, logs.skip(k));
        let v = eval_mult(ts.drop_last(), logs.take(k));
        let x = eval(ts.last().1, logs.skip(k));
        let p0 = mult_bounds(ts.drop_last());
        let q = bounds(ts.last().1);
        if ts.last().0 {
            lemma_mul_in_box(-v, -p0.1, -p0.0, x, q.0, q.1);
            assert(-v * x == (-v) * x);
        } else {
            lemma_mul_in_box(v, p0.0, p0.1, x, q.0, q.1);
        }
    }
}

proof fn lemma_product_fits_i64(p: int, a: int)
    requires
        -2147483648 <= p <= 2147483648,
        -2147483648 <= a <= 2147483648,
    ensures
        -4611686018427387904 <= p * a <= 4611686018427387904,
{
    let k: int = 2147483648;
    let ap = if p >= 0 { p } else { -p };
    let aa = if a >= 0 { a } else { -a };
    assert(ap * aa <= k * aa) by (nonlinear_arith)
        requires
            0 <= ap <= k,
            0 <= aa,
    ;
    assert(k * aa <= k * k) by (nonlinear_arith)
        requires
            0 <= aa <= k,
            0 <= k,
    ;
    assert(p * a == ap * aa || p * a == -(ap * aa)) by (nonlinear_arith)
        requires
            ap == p || ap == -p,
            aa == a || aa == -a,
    ;
    assert(k * k == 4611686018427387904);
}

/// A prefix of the terms keeps what `fits` says of the whole.
proof fn lemma_fits_prefix(ts: Seq<(bool, Expr)>, i: int, mult: bool)
    requires
        0 <= i < ts.len(),
        if mult { mult_fits(ts) } else { sum_fits(ts) },
    ensures
        if mult { mult_fits(ts.take(i + 1)) } else { sum_fits(ts.take(i + 1)) },
    decreases ts.len(),
{
    if i + 1 == ts.len() {
        assert(ts.take(i + 1) =~= ts);
    } else {
        assert(ts.drop_last().take(i + 1) =~= ts.take(i + 1));
        lemma_fits_prefix(ts.drop_last(), i, mult);
    }
}

// ---------------------------------------------------------------- executable code

/// The terms of a sum (`product` false) or the factors of a product, joined.
fn chain_text(series: &Vec<SignedDice>, product: bool) -> (r: String)
    ensures
        r@ == (if product {
            render_chain(terms_view(series@), seq!['x'], seq!['x', '-'])
        } else {
            render_chain(terms_view(series@), seq![' ', '+', ' '], seq![' ', '-', ' '])
        }),
    decreases series, 0int,
{
    let ghost ts = terms_view(series@);
    let ghost plus = if product { seq!['x'] } else { seq![' ', '+', ' '] };
    let ghost minus = if product { seq!['x', '-'] } else { seq![' ', '-', ' '] };
    proof {
        lemma_terms_view(series@);
    }
    let mut out = String::new();
    let mut i: usize = 0;
    assert(ts.take(0) =~= Seq::<(bool, Expr)>::empty());
    while i < series.len()
        invariant
            ts == terms_view(series@),
            ts.len() == series@.len(),
            forall|j: int| 0 <= j < series@.len() ==> #[trigger] ts[j] == signed_view(series@[j]),
            i <= series@.len(),
            plus == (if product { seq!['x'] } else { seq![' ', '+', ' '] }),
            minus == (if product { seq!['x', '-'] } else { seq![' ', '-', ' '] }),
            out@ == render_chain(ts.take(i as int), plus, minus),
        decreases series@.len() - i,
    {
        let ghost t = ts.take(i + 1);
        assert(t.drop_last() =~= ts.take(i as int));
        assert(t.last() == ts[i as int]);
        proof {
            assert(decreases_to!(*series => series[i as int]));
        }
        let (neg, inner) = match &series[i] {
            SignedDice::Pos(d) => (false, d),
            SignedDice::Neg(d) => (true, d),
        };
        let piece = inner.to_string();
        assert(ts[i as int] == (neg, inner@));
        let ghost before = out@;
        if i == 0 {
            if neg {
                push_char(&mut out, '-');
            }
            out.append(piece.as_str());
            assert(t.len() == 1);
            assert(t[0] == ts[0]);
            assert(out@ =~= (if neg { seq!['-'] } else { Seq::empty() }) + render(inner@));
        } else {
            if product {
                push_char(&mut out, 'x');
                if neg {
                    push_char(&mut out, '-');
                }
            } else {
                push_char(&mut out, ' ');
                push_char(&mut out, if neg { '-' } else { '+' });
                push_char(&mut out, ' ');
            }
            out.append(piece.as_str());
            assert(out@ =~= before + (if neg { minus } else { plus }) + render(inner@));
        }
        assert(out@ =~= render_chain(t, plus, minus));
        i = i + 1;
    }
    assert(ts.take(i as int) =~= ts);
    out
}

impl Die {
    /// `<count>d<faces>`.
    pub fn to_string(&self) -> (r: String)
        ensures
            r@ == render(Expr::Die(self.number as int, self.sides as int)),
    {
        let mut out = String::new();
        push_int(&mut out, self.number);
        push_char(&mut out, 'd');
        push_int(&mut out, self.sides);
        assert(out@ =~= render(Expr::Die(self.number as int, self.sides as int)));
        out
    }

    pub fn new(n: i32, s: i32) -> (r: Die)
        ensures
            r.number == n,
            r.sides == s,
    {
        Die { number: n, sides: s }
    }

    /// Rolls each die once: one log of the faces, and their sum.
    pub fn roll(&self) -> (r: DiceRoll)
        requires
            fits(Expr::Die(self.number as int, self.sides as int)),
        ensures
            logs_fit(seq![(self.number as int, self.sides as int)], r@.1),
            r.rolled == total(r@.1[0].1),
            self.number <= r.rolled <= self.number * self.sides,
            self.sides == 1 ==> r.rolled == self.number,
    {
        let mut sum: i32 = 0;
        let mut log = RollLog::new(self.sides);
        let mut i: i32 = 0;
        while i < self.number
            invariant
                0 <= i <= self.number,
                1 <= self.sides,
                self.number * self.sides <= i32::MAX,
                log@.0 == self.sides,
                log.wf(),
                log@.1.len() == i,
                sum == total(log@.1),
                sum <= i * self.sides,
            decreases self.number - i,
        {
            let r = uniform(1, self.sides);
            assert(sum + r <= (i + 1) * self.sides <= self.number * self.sides) by (nonlinear_arith)
                requires
                    sum <= i * self.sides,
                    r <= self.sides,
                    i + 1 <= self.number,
                    1 <= self.sides,
            ;
            proof {
                lemma_total_bounds(log@.1, self.sides as int);
            }
            let ghost before = log@.1;
            sum = sum + r;
            log.log(r);
            assert(log@.1.drop_last() =~= before);
            i = i + 1;
        }
        proof {
            lemma_total_bounds(log@.1, self.sides as int);
            if self.sides == 1 {
                assert(sum <= self.number * 1);
            }
        }
        let result = DiceRoll::new_roll(sum, log);
        result
    }
}

impl DiceSet {
    /// The empty expression, the constant 0.
    pub fn new() -> (r: Self)
        ensures
            r@ == Expr::Const(0),
    {
        DiceSet::Const(0)
    }

    /// Reads an expression; see `parse_expr`.
    pub fn parse(text: &str) -> (r: Result<Self, DiceParseError>)
        ensures
            parsed(r) == parse_expr(text@),
        decreases text@.len(), 1int,
    {
        let parser = match ParseState::parse_from(text) {
            Ok(p) => p,
            Err(e) => return Err(DiceParseError::InvalidChar(e)),
        };
        proof {
            lemma_slices_shorter(text@);
        }
        let splits = parser.splits();
        let ghost sl = splits_view(splits@);
        assert(sl.len() == splits@.len());
        match parser.kind() {
            ParseKind::Sum => {
                let mut series: Vec<SignedDice> = Vec::new();
                let mut i: usize = 0;
                assert(sl.take(0) =~= Seq::<(char, Seq<char>)>::empty());
                assert(terms_view(series@) =~= Seq::<(bool, Expr)>::empty());
                while i < splits.len()
                    invariant
                        scan(text@) == Ok::<_, char>(parser@),
                        parser@.kind == ParseKind::Sum,
                        sl == parser@.split,
                        sl == splits_view(splits@),
                        sl.len() == splits@.len(),
                        shorter_slices(sl, text@),
                        i <= splits@.len(),
                        sum_terms(sl.take(i as int), text@) == Ok::<_, ParseFailure>(terms_view(series@)),
                    decreases splits@.len() - i,
                {
                    let s = &splits[i];
                    let ghost pre = sl.take(i as int);
                    let ghost t = sl.take(i + 1);
                    assert(t.drop_last() =~= pre);
                    assert(t.last() == sl[i as int]);
                    assert(sl[i as int] == (s.0, s.1@));
                    assert(shorter_slices(t, text@));
                    assert(shorter_slices(pre, text@));
                    if s.1.as_str().is_empty() {
                        if i == 0 {
                            let d = SignedDice::Pos(DiceSet::Die(Die::new(1, 20)));
                            proof {
                                lemma_terms_view_push(series@, d);
                            }
                            series.push(d);
                        } else {
                            proof {
                                lemma_sum_terms_failed(sl, text@, i + 1);
                            }
                            return Err(DiceParseError::InvalidMath(String::from_str(text)));
                        }
                    } else {
                        let item = if s.0 == '-' {
                            SignedDice::parse_neg(s.1.as_str())
                        } else {
                            SignedDice::parse_pos(s.1.as_str())
                        };
                        match item {
                            Ok(d) => {
                                proof {
                                    lemma_terms_view_push(series@, d);
                                }
                                series.push(d);
                            },
                            Err(e) => {
                                proof {
                                    lemma_sum_terms_failed(sl, text@, i + 1);
                                }
                                return Err(e);
                            },
                        }
                    }
                    i = i + 1;
                }
                assert(sl.take(i as int) =~= sl);
                Ok(DiceSet::Sum(series))
            },
            ParseKind::Mult => {
                let mut series: Vec<SignedDice> = Vec::new();
                let mut i: usize = 0;
                assert(sl.take(0) =~= Seq::<(char, Seq<char>)>::empty());
                assert(terms_view(series@) =~= Seq::<(bool, Expr)>::empty());
                while i < splits.len()
                    invariant
                        scan(text@) == Ok::<_, char>(parser@),
                        parser@.kind == ParseKind::Mult,
                        sl == parser@.split,
                        sl == splits_view(splits@),
                        sl.len() == splits@.len(),
                        shorter_slices(sl, text@),
                        i <= splits@.len(),
                        mult_terms(sl.take(i as int), text@) == Ok::<_, ParseFailure>(terms_view(series@)),
                    decreases splits@.len() - i,
                {
                    let s = &splits[i];
                    let ghost pre = sl.take(i as int);
                    let ghost t = sl.take(i + 1);
                    assert(t.drop_last() =~= pre);
                    assert(t.last() == sl[i as int]);
                    assert(sl[i as int] == (s.0, s.1@));
                    assert(shorter_slices(t, text@));
                    assert(shorter_slices(pre, text@));
                    let body = s.1.as_str();
                    if body.is_empty() {
                        proof {
                            lemma_mult_terms_failed(sl, text@, i + 1);
                        }
                        return Err(DiceParseError::InvalidMath(String::from_str(text)));
                    }
                    let item = if body.get_char(0) == '-' {
                        let rest = body.substring_char(1, body.unicode_len());
                        assert(rest@ =~= body@.skip(1));
                        SignedDice::parse_neg(rest)
                    } else {
                        SignedDice::parse_pos(body)
                    };
                    match item {
                        Ok(d) => {
                            proof {
                                lemma_terms_view_push(series@, d);
                            }
                            series.push(d);
                        },
                        Err(e) => {
                            proof {
                                lemma_mult_terms_failed(sl, text@, i + 1);
                            }
                            return Err(e);
                        },
                    }
                    i = i + 1;
                }
                assert(sl.take(i as int) =~= sl);
                Ok(DiceSet::Mult(series))
            },
            ParseKind::Die => {
                if splits.len() == 2 {
                    assert(sl[0] == (splits@[0].0, splits@[0].1@));
                    assert(sl[1] == (splits@[1].0, splits@[1].1@));
                    let mut num: i32 = 1;
                    if !splits[0].1.as_str().is_empty() {
                        num = match parse_int(splits[0].1.as_str()) {
                            Some(v) => v,
                            None => return Err(DiceParseError::InvalidNumber(splits[0].1.clone())),
                        };
                    }
                    let size = match parse_int(splits[1].1.as_str()) {
                        Some(v) => v,
                        None => return Err(DiceParseError::InvalidNumber(splits[1].1.clone())),
                    };
                    if size < 1 {
                        return Err(DiceParseError::InvalidNumber(splits[1].1.clone()));
                    }
                    Ok(DiceSet::Die(Die::new(num, size)))
                } else {
                    Err(DiceParseError::InvalidDie(String::from_str(text)))
                }
            },
            ParseKind::Const => {
                match parse_int(text) {
                    Some(v) => Ok(DiceSet::Const(v)),
                    None => Err(DiceParseError::InvalidNumber(String::from_str(text))),
                }
            },
        }
    }

    /// The canonical text of the expression.
    pub fn to_string(&self) -> (r: String)
        ensures
            r@ == render(self@),
        decreases self,
    {
        match self {
            DiceSet::Sum(series) => chain_text(series, false),
            DiceSet::Mult(series) => chain_text(series, true),
            DiceSet::Die(d) => d.to_string(),
            DiceSet::Const(n) => crate::text::int_text(*n),
        }
    }

    /// The least and the greatest value a roll can give, when every value met while
    /// rolling fits in an `i32`; `None` when one may not.
    pub fn range(&self) -> (r: Option<(i32, i32)>)
        ensures
            r is Some <==> fits(self@),
            r is Some ==> r->0 == (bounds(self@).0 as i32, bounds(self@).1 as i32),
            fits(self@) ==> bounds_in_i32(bounds(self@)),
        decreases self,
    {
        match self {
            DiceSet::Sum(series) => {
                let ghost ts = terms_view(series@);
                proof {
                    lemma_terms_view(series@);
                }
                let mut lo: i32 = 0;
                let mut hi: i32 = 0;
                let mut i: usize = 0;
                assert(ts.take(0) =~= Seq::<(bool, Expr)>::empty());
                while i < series.len()
                    invariant
                        self@ == Expr::Sum(ts),
                        *self == DiceSet::Sum(*series),
                        ts == terms_view(series@),
                        ts.len() == series@.len(),
                        forall|j: int| 0 <= j < series@.len() ==> #[trigger] ts[j] == signed_view(series@[j]),
                        i <= series@.len(),
                        sum_fits(ts.take(i as int)),
                        lo == sum_bounds(ts.take(i as int)).0,
                        hi == sum_bounds(ts.take(i as int)).1,
                    decreases series@.len() - i,
                {
                    let ghost t = ts.take(i + 1);
                    assert(t.drop_last() =~= ts.take(i as int));
                    assert(t.last() == ts[i as int]);
                    proof {
                        assert(decreases_to!(*series => series[i as int]));
                        if sum_fits(ts) {
                            lemma_fits_prefix(ts, i as int, false);
                        }
                    }
                    let (neg, inner) = match &series[i] {
                        SignedDice::Pos(d) => (false, d),
                        SignedDice::Neg(d) => (true, d),
                    };
                    assert(ts[i as int] == (neg, inner@));
                    let (a, b) = match inner.range() {
                        Some(p) => p,
                        None => return None,
                    };
                    let (nlo, nhi): (i64, i64) = if neg {
                        (lo as i64 - b as i64, hi as i64 - a as i64)
                    } else {
                        (lo as i64 + a as i64, hi as i64 + b as i64)
                    };
                    if nlo < -2147483648 || nlo > 2147483647 || nhi < -2147483648 || nhi > 2147483647 {
                        return None;
                    }
                    lo = nlo as i32;
                    hi = nhi as i32;
                    i = i + 1;
                }
                assert(ts.take(i as int) =~= ts);
                Some((lo, hi))
            },
            DiceSet::Mult(series) => {
                let ghost ts = terms_view(series@);
                proof {
                    lemma_terms_view(series@);
                }
                let mut lo: i32 = 1;
                let mut hi: i32 = 1;
                let mut i: usize = 0;
                assert(ts.take(0) =~= Seq::<(bool, Expr)>::empty());
                while i < series.len()
                    invariant
                        self@ == Expr::Mult(ts),
                        *self == DiceSet::Mult(*series),
                        ts == terms_view(series@),
                        ts.len() == series@.len(),
                        forall|j: int| 0 <= j < series@.len() ==> #[trigger] ts[j] == signed_view(series@[j]),
                        i <= series@.len(),
                        mult_fits(ts.take(i as int)),
                        lo == mult_bounds(ts.take(i as int)).0,
                        hi == mult_bounds(ts.take(i as int)).1,
                    decreases series@.len() - i,
                {
                    let ghost t = ts.take(i + 1);
                    assert(t.drop_last() =~= ts.take(i as int));
                    assert(t.last() == ts[i as int]);
                    proof {
                        assert(decreases_to!(*series => series[i as int]));
                        if mult_fits(ts) {
                            lemma_fits_prefix(ts, i as int, true);
                        }
                    }
                    let (neg, inner) = match &series[i] {
                        SignedDice::Pos(d) => (false, d),
                        SignedDice::Neg(d) => (true, d),
                    };
                    assert(ts[i as int] == (neg, inner@));
                    let (a, b) = match inner.range() {
                        Some(p) => p,
                        None => return None,
                    };
                    let (plo, phi): (i64, i64) = if neg {
                        (0 - hi as i64, 0 - lo as i64)
                    } else {
                        (lo as i64, hi as i64)
                    };
                    if plo < -2147483648 || phi > 2147483647 {
                        return None;
                    }
                    proof {
                        lemma_product_fits_i64(plo as int, a as int);
                    }
                    proof {
                        lemma_product_fits_i64(plo as int, b as int);
                    }
                    proof {
                        lemma_product_fits_i64(phi as int, a as int);
                    }
                    proof {
                        lemma_product_fits_i64(phi as int, b as int);
                    }
                    let w = plo * a as i64;
                    let x = plo * b as i64;
                    let y = phi * a as i64;
                    let z = phi * b as i64;
                    let m1 = if w <= x { w } else { x };
                    let m2 = if y <= z { y } else { z };
                    let nlo = if m1 <= m2 { m1 } else { m2 };
                    let n1 = if w >= x { w } else { x };
                    let n2 = if y >= z { y } else { z };
                    let nhi = if n1 >= n2 { n1 } else { n2 };
                    if nlo < -2147483648 || nlo > 2147483647 || nhi < -2147483648 || nhi > 2147483647 {
                        return None;
                    }
                    lo = nlo as i32;
                    hi = nhi as i32;
                    i = i + 1;
                }
                assert(ts.take(i as int) =~= ts);
                Some((lo, hi))
            },
            DiceSet::Die(d) => {
                if d.number < 0 || d.sides < 1 {
                    return None;
                }
                proof {
                    lemma_product_fits_i64(d.number as int, d.sides as int);
                }
                let top = d.number as i64 * d.sides as i64;
                if top > 2147483647 {
                    return None;
                }
                assert(d.number <= top) by (nonlinear_arith)
                    requires
                        0 <= d.number,
                        1 <= d.sides,
                        top == d.number * d.sides,
                ;
                Some((d.number, top as i32))
            },
            DiceSet::Const(c) => Some((*c, *c)),
        }
    }

    /// Rolls every die group once and combines the values: the result's logs are
    /// those of the groups in order, its value is the expression's on them, and it lies
    /// within the bounds that `range` reports.
    pub fn roll(&self) -> (r: DiceRoll)
        requires
            fits(self@),
        ensures
            logs_fit(groups(self@), r@.1),
            r.rolled == eval(self@, r@.1),
            bounds(self@).0 <= r.rolled <= bounds(self@).1,
        decreases self, 1int,
    {
        let r = self.roll_groups();
        proof {
            lemma_eval_bounds(self@, r@.1);
        }
        r
    }

    /// The roll itself, group by group.
    fn roll_groups(&self) -> (r: DiceRoll)
        requires
            fits(self@),
        ensures
            logs_fit(groups(self@), r@.1),
            r.rolled == eval(self@, r@.1),
        decreases self, 0int,
    {
        match self {
            DiceSet::Mult(series) => {
                let ghost ts = terms_view(series@);
                proof {
                    lemma_terms_view(series@);
                }
                let mut result = DiceRoll::new(1);
                let mut i: usize = 0;
                assert(ts.take(0) =~= Seq::<(bool, Expr)>::empty());
                while i < series.len()
                    invariant
                        self@ == Expr::Mult(ts),
                        *self == DiceSet::Mult(*series),
                        ts == terms_view(series@),
                        ts.len() == series@.len(),
                        forall|j: int| 0 <= j < series@.len() ==> #[trigger] ts[j] == signed_view(series@[j]),
                        mult_fits(ts),
                        i <= series@.len(),
                        logs_fit(groups_of(ts.take(i as int)), result@.1),
                        result.rolled == eval_mult(ts.take(i as int), result@.1),
                    decreases series@.len() - i,
                {
                    let ghost pre = ts.take(i as int);
                    let ghost t = ts.take(i + 1);
                    assert(t.drop_last() =~= pre);
                    assert(t.last() == ts[i as int]);
                    proof {
                        lemma_fits_prefix(ts, i as int, true);
                    }
                    let ghost before = result@;
                    match &series[i] {
                        SignedDice::Pos(x) => {
                            proof {
                                assert(decreases_to!(*series => series[i as int]));
                            }
                            let r = x.roll();
                            proof {
                                lemma_logs_fit_join(groups_of(pre), groups(x@), before.1, r@.1);
                                lemma_mult_bounds(t, before.1 + r@.1);
                            }
                            result.mult(&r);
                        },
                        SignedDice::Neg(x) => {
                            proof {
                                assert(decreases_to!(*series => series[i as int]));
                            }
                            let r = x.roll();
                            proof {
                                lemma_logs_fit_join(groups_of(pre), groups(x@), before.1, r@.1);
                                lemma_mult_bounds(t, before.1 + r@.1);
                                lemma_mult_bounds(pre, before.1);
                            }
                            result.mult_neg(&r);
                        },
                    }
                    i = i + 1;
                }
                assert(ts.take(i as int) =~= ts);
                result
            },
            DiceSet::Sum(series) => {
                let ghost ts = terms_view(series@);
                proof {
                    lemma_terms_view(series@);
                }
                let mut result = DiceRoll::new(0);
                let mut i: usize = 0;
                assert(ts.take(0) =~= Seq::<(bool, Expr)>::empty());
                while i < series.len()
                    invariant
                        self@ == Expr::Sum(ts),
                        *self == DiceSet::Sum(*series),
                        ts == terms_view(series@),
                        ts.len() == series@.len(),
                        forall|j: int| 0 <= j < series@.len() ==> #[trigger] ts[j] == signed_view(series@[j]),
                        sum_fits(ts),
                        i <= series@.len(),
                        logs_fit(groups_of(ts.take(i as int)), result@.1),
                        result.rolled == eval_sum(ts.take(i as int), result@.1),
                    decreases series@.len() - i,
                {
                    let ghost pre = ts.take(i as int);
                    let ghost t = ts.take(i + 1);
                    assert(t.drop_last() =~= pre);
                    assert(t.last() == ts[i as int]);
                    proof {
                        lemma_fits_prefix(ts, i as int, false);
                    }
                    let ghost before = result@;
                    match &series[i] {
                        SignedDice::Pos(x) => {
                            proof {
                                assert(decreases_to!(*series => series[i as int]));
                            }
                            let r = x.roll();
                            proof {
                                lemma_logs_fit_join(groups_of(pre), groups(x@), before.1, r@.1);
                                lemma_sum_bounds(t, before.1 + r@.1);
                            }
                            result.add(&r);
                        },
                        SignedDice::Neg(x) => {
                            proof {
                                assert(decreases_to!(*series => series[i as int]));
                            }
                            let r = x.roll();
                            proof {
                                lemma_logs_fit_join(groups_of(pre), groups(x@), before.1, r@.1);
                                lemma_sum_bounds(t, before.1 + r@.1);
                            }
                            result.sub(&r);
                        },
                    }
                    i = i + 1;
                }
                assert(ts.take(i as int) =~= ts);
                result
            },
            DiceSet::Die(d) => {
                let r = d.roll();
                r
            },
            DiceSet::Const(x) => DiceRoll::new(*x),
        }
    }
}

impl SignedDice {
    /// A positive term from a text.
    pub fn parse_pos(text: &str) -> (r: Result<SignedDice, DiceParseError>)
        ensures
            parsed_signed(r) == signed_result(parse_expr(text@), false),
        decreases text@.len(), 2int,
    {
        match DiceSet::parse(text) {
            Ok(d) => Ok(SignedDice::Pos(d)),
            Err(e) => Err(e),
        }
    }

    /// A negative term from a text.
    pub fn parse_neg(text: &str) -> (r: Result<SignedDice, DiceParseError>)
        ensures
            parsed_signed(r) == signed_result(parse_expr(text@), true),
        decreases text@.len(), 2int,
    {
        match DiceSet::parse(text) {
            Ok(d) => Ok(SignedDice::Neg(d)),
            Err(e) => Err(e),
        }
    }
}

} // verus!
