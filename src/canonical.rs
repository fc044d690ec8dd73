//! Canonical expressions: what parsing yields, and why its canonical text reads
//! back to the same text.
use vstd::prelude::*;

use crate::dice::{
    eval, groups, lemma_eval_bounds, logs_fit, mult_terms, parse_expr, render, render_chain,
    shorter_slices, sum_terms, Expr,
};
use crate::parse::{
    close_scan, cut, is_mult_char, lemma_slices_shorter, regroup, scan, scan_from, scan_init,
    scan_step, seen, ParseKind, ScanModel,
};
use crate::log::{log_text, rolls_text, sized_logs_text};
use crate::text::{
    all_digits, decimal, digit_char, digits_of, digits_value, int_value, is_digit, is_space,
    lemma_digits_value_nonneg,
};

verus! {

// ---------------------------------------------------------------- scanning

proof fn lemma_scan_concat(s: ScanModel, a: Seq<char>, b: Seq<char>)
    ensures
        scan_from(s, a + b) == match scan_from(s, a) {
            Ok(t) => scan_from(t, b),
            Err(c) => Err(c),
        },
    decreases b.len(),
{
    if b.len() == 0 {
        assert(a + b =~= a);
    } else {
        lemma_scan_concat(s, a, b.drop_last());
        assert((a + b).drop_last() =~= a + b.drop_last());
        assert((a + b).last() == b.last());
    }
}

/// Each character of `w` only grows the slice being read, when read after `prev` in form `k`.
pub open spec fn extends_in(k: ParseKind, prev: char, w: Seq<char>) -> bool {
    forall|i: int|
        0 <= i < w.len() ==> {
            let c = #[trigger] w[i];
            let p = if i == 0 { prev } else { w[i - 1] };
            is_digit(c) || (c == 'd' && (k == ParseKind::Sum || k == ParseKind::Mult)) || (c == 'x'
                && k == ParseKind::Sum) || (c == '-' && is_mult_char(p))
        }
}

pub open spec fn grown(s: ScanModel, w: Seq<char>) -> ScanModel {
    ScanModel {
        current: s.current + w,
        history: s.history + w,
        previous: if w.len() == 0 { s.previous } else { w.last() },
        ..s
    }
}

proof fn lemma_scan_extends(s: ScanModel, w: Seq<char>)
    requires
        extends_in(s.kind, s.previous, w),
    ensures
        scan_from(s, w) == Ok::<ScanModel, char>(grown(s, w)),
    decreases w.len(),
{
    if w.len() > 0 {
        let p = w.drop_last();
        assert forall|i: int| 0 <= i < p.len() implies {
            let c = #[trigger] p[i];
            let q = if i == 0 { s.previous } else { p[i - 1] };
            is_digit(c) || (c == 'd' && (s.kind == ParseKind::Sum || s.kind == ParseKind::Mult)) || (c
                == 'x' && s.kind == ParseKind::Sum) || (c == '-' && is_mult_char(q))
        } by {
            assert(p[i] == w[i]);
            if i > 0 {
                assert(p[i - 1] == w[i - 1]);
            }
        }
        lemma_scan_extends(s, p);
        let t = grown(s, p);
        let c = w.last();
        assert(w[w.len() - 1] == c);
        if w.len() > 1 {
            assert(p.last() == w[w.len() - 2]);
        }
        assert(t.current + seq![c] =~= s.current + w);
        assert(t.history + seq![c] =~= s.history + w);
        assert(t.current.push(c) =~= s.current + w);
        assert(t.history.push(c) =~= s.history + w);
    }
}

proof fn lemma_extends_concat(k: ParseKind, prev: char, a: Seq<char>, b: Seq<char>)
    requires
        a.len() > 0,
        extends_in(k, prev, a),
        extends_in(k, a.last(), b),
    ensures
        extends_in(k, prev, a + b),
{
    let w = a + b;
    assert forall|i: int| 0 <= i < w.len() implies {
        let c = #[trigger] w[i];
        let p = if i == 0 { prev } else { w[i - 1] };
        is_digit(c) || (c == 'd' && (k == ParseKind::Sum || k == ParseKind::Mult)) || (c == 'x' && k
            == ParseKind::Sum) || (c == '-' && is_mult_char(p))
    } by {
        if i < a.len() {
            assert(w[i] == a[i]);
            if i > 0 {
                assert(w[i - 1] == a[i - 1]);
            }
        } else {
            let j = i - a.len();
            assert(w[i] == b[j]);
            if j > 0 {
                assert(w[i - 1] == b[j - 1]);
            } else {
                assert(w[i - 1] == a.last());
            }
        }
    }
}

// ---------------------------------------------------------------- decimal digits

proof fn lemma_digit_char(d: int)
    requires
        0 <= d <= 9,
    ensures
        is_digit(digit_char(d)),
        digit_char(d) as int - 48 == d,
{
}

proof fn lemma_digits_of(n: nat)
    ensures
        digits_of(n).len() > 0,
        all_digits(digits_of(n)),
        digits_value(digits_of(n)) == n,
    decreases n,
{
    if n < 10 {
        lemma_digit_char(n as int);
        assert(digits_of(n).drop_last() =~= Seq::<char>::empty());
        assert(digits_value(Seq::<char>::empty()) == 0);
        assert(digits_value(digits_of(n)) == digits_value(Seq::<char>::empty()) * 10 + (digit_char(n as int) as int - 48));
    } else {
        lemma_digits_of(n / 10);
        lemma_digit_char((n % 10) as int);
        let w = digits_of(n);
        assert(w.drop_last() =~= digits_of(n / 10));
        assert(w.last() == digit_char((n % 10) as int));
        assert(n == (n / 10) * 10 + n % 10);
        assert(digits_value(w) == digits_value(digits_of(n / 10)) * 10 + (digit_char((n % 10) as int) as int - 48));
        assert forall|i: int| 0 <= i < w.len() implies is_digit(#[trigger] w[i]) by {
            if i < w.len() - 1 {
                assert(w[i] == digits_of(n / 10)[i]);
            }
        }
    }
}

proof fn lemma_decimal_word(n: int, k: ParseKind, prev: char)
    requires
        0 <= n,
    ensures
        decimal(n) == digits_of(n as nat),
        decimal(n).len() > 0,
        is_digit(decimal(n)[0]),
        is_digit(decimal(n).last()),
        extends_in(k, prev, decimal(n)),
        n <= i32::MAX ==> int_value(decimal(n)) == Some(n),
{
    lemma_digits_of(n as nat);
    let w = decimal(n);
    assert(is_digit(w[0]));
    assert(is_digit(w[w.len() - 1]));
}

// ---------------------------------------------------------------- canonical expressions

/// A constant or a die group as parsing makes them: nothing negative, at least one face.
pub open spec fn canon_atom(e: Expr) -> bool {
    match e {
        Expr::Die(n, s) => 0 <= n <= i32::MAX && 1 <= s <= i32::MAX,
        Expr::Const(c) => 0 <= c <= i32::MAX,
        _ => false,
    }
}

/// Two or more factors, each a canonical atom, the first positive.
pub open spec fn canon_product(ts: Seq<(bool, Expr)>) -> bool {
    &&& ts.len() >= 2
    &&& !ts[0].0
    &&& forall|i: int| 0 <= i < ts.len() ==> canon_atom(#[trigger] ts[i].1)
}

/// A term of a canonical sum: an atom or a canonical product.
pub open spec fn canon_term(e: Expr) -> bool {
    canon_atom(e) || (e is Mult && canon_product(e->Mult_0))
}

/// One or more terms, each canonical.
pub open spec fn canon_sum(ts: Seq<(bool, Expr)>) -> bool {
    &&& ts.len() >= 1
    &&& forall|i: int| 0 <= i < ts.len() ==> canon_term(#[trigger] ts[i].1)
}

/// The shapes that parsing yields.
pub open spec fn canon(e: Expr) -> bool {
    canon_term(e) || (e is Sum && canon_sum(e->Sum_0))
}

proof fn lemma_atom_word(e: Expr, k: ParseKind, p: char)
    requires
        canon_atom(e),
        k == ParseKind::Sum || k == ParseKind::Mult,
    ensures
        extends_in(k, p, render(e)),
        render(e).len() > 0,
        is_digit(render(e)[0]),
        is_digit(render(e).last()),
{
    match e {
        Expr::Die(n, s) => {
            lemma_decimal_word(n, k, p);
            lemma_decimal_word(s, k, 'd');
            let a = decimal(n) + seq!['d'];
            assert forall|i: int| 0 <= i < a.len() implies {
                let c = #[trigger] a[i];
                let q = if i == 0 { p } else { a[i - 1] };
                is_digit(c) || (c == 'd' && (k == ParseKind::Sum || k == ParseKind::Mult)) || (c == 'x'
                    && k == ParseKind::Sum) || (c == '-' && is_mult_char(q))
            } by {
                if i < decimal(n).len() {
                    assert(a[i] == decimal(n)[i]);
                    if i > 0 {
                        assert(a[i - 1] == decimal(n)[i - 1]);
                    }
                }
            }
            assert(a.last() == 'd');
            lemma_extends_concat(k, p, a, decimal(s));
            assert(render(e) == a + decimal(s));
            assert(render(e)[0] == decimal(n)[0]);
            assert(render(e).last() == decimal(s).last());
        },
        Expr::Const(c) => {
            lemma_decimal_word(c, k, p);
        },
        _ => {},
    }
}

/// The text of an atom, read from the start: a constant or a die group, all of it
/// read, the last character a digit; and it parses back to the atom.
proof fn lemma_atom_scan(e: Expr)
    requires
        canon_atom(e),
    ensures
        scan_from(scan_init(), render(e)) is Ok,
        scan_from(scan_init(), render(e))->Ok_0.kind == ParseKind::Const || scan_from(
            scan_init(),
            render(e),
        )->Ok_0.kind == ParseKind::Die,
        scan_from(scan_init(), render(e))->Ok_0.history == render(e),
        is_digit(scan_from(scan_init(), render(e))->Ok_0.previous),
        parse_expr(render(e)) == Ok::<Expr, crate::parse::ParseFailure>(e),
{
    let init = scan_init();
    match e {
        Expr::Die(n, s) => {
            let dn = decimal(n);
            let ds = decimal(s);
            lemma_decimal_word(n, ParseKind::Const, ' ');
            lemma_decimal_word(s, ParseKind::Die, 'd');
            let text = dn + seq!['d'] + ds;
            assert(render(e) == text);
            lemma_scan_concat(init, dn + seq!['d'], ds);
            lemma_scan_concat(init, dn, seq!['d']);
            lemma_scan_extends(init, dn);
            let s1 = grown(init, dn);
            assert(s1.history =~= dn);
            assert(seq!['d'].drop_last() =~= Seq::<char>::empty());
            assert(seq!['d'].last() == 'd');
            assert(scan_from(s1, Seq::<char>::empty()) == Ok::<ScanModel, char>(s1));
            assert(s1.kind == ParseKind::Const);
            assert(scan_step(s1, 'd') == Some(seen(regroup(s1, ParseKind::Die, 'd', 'd'), 'd')));
            assert(scan_from(s1, seq!['d']) == Ok::<ScanModel, char>(seen(regroup(s1, ParseKind::Die, 'd', 'd'), 'd')));
            let s2 = seen(regroup(s1, ParseKind::Die, 'd', 'd'), 'd');
            assert(s2.kind == ParseKind::Die);
            lemma_scan_extends(s2, ds);
            let s3 = grown(s2, ds);
            assert(s3.history =~= text);
            assert(s3.current =~= ds);
            assert(scan_from(init, text) == Ok::<ScanModel, char>(s3));
            let st = close_scan(s3);
            assert(st.split =~= seq![('d', dn), ('d', ds)]);
            assert(scan(text) == Ok::<ScanModel, char>(st));
        },
        Expr::Const(c) => {
            lemma_decimal_word(c, ParseKind::Const, ' ');
            lemma_scan_extends(init, decimal(c));
            assert(grown(init, decimal(c)).history =~= decimal(c));
        },
        _ => {},
    }
}

proof fn lemma_scan_one(s: ScanModel, c: char)
    ensures
        scan_from(s, seq![c]) == match scan_step(s, c) {
            Some(t) => Ok(t),
            None => Err(c),
        },
{
    assert(seq![c].drop_last() =~= Seq::<char>::empty());
    assert(seq![c].last() == c);
    assert(scan_from(s, Seq::<char>::empty()) == Ok::<ScanModel, char>(s));
}

/// The text of a factor: its value's text, after a `-` when negative.
pub open spec fn factor_text(t: (bool, Expr)) -> Seq<char> {
    (if t.0 { seq!['-'] } else { Seq::empty() }) + render(t.1)
}

pub open spec fn factor_slices(ts: Seq<(bool, Expr)>) -> Seq<(char, Seq<char>)> {
    Seq::new(ts.len(), |i: int| ('*', factor_text(ts[i])))
}

proof fn lemma_factor_word(t: (bool, Expr))
    requires
        canon_atom(t.1),
    ensures
        extends_in(ParseKind::Mult, 'x', factor_text(t)),
        extends_in(ParseKind::Sum, 'x', factor_text(t)),
        factor_text(t).len() > 0,
        is_digit(factor_text(t).last()),
        (factor_text(t)[0] == '-') == t.0,
        t.0 ==> factor_text(t).skip(1) == render(t.1),
        !t.0 ==> factor_text(t) == render(t.1),
{
    lemma_atom_word(t.1, ParseKind::Mult, '-');
    lemma_atom_word(t.1, ParseKind::Sum, '-');
    lemma_atom_word(t.1, ParseKind::Mult, 'x');
    lemma_atom_word(t.1, ParseKind::Sum, 'x');
    let r = render(t.1);
    if t.0 {
        lemma_extends_concat(ParseKind::Mult, 'x', seq!['-'], r);
        lemma_extends_concat(ParseKind::Sum, 'x', seq!['-'], r);
        assert(factor_text(t).skip(1) =~= r);
        assert(factor_text(t).last() == r.last());
    } else {
        assert(factor_text(t) =~= r);
        assert(r[0] != '-');
    }
}

/// The text of a canonical product read from the start: a product whose finished
/// slices are its factors but the last, which is the slice being read.
proof fn lemma_product_scan(ts: Seq<(bool, Expr)>)
    requires
        canon_product(ts),
    ensures
        scan_from(scan_init(), render_chain(ts, seq!['x'], seq!['x', '-'])) == Ok::<ScanModel, char>(
            ScanModel {
                split: factor_slices(ts.drop_last()),
                kind: ParseKind::Mult,
                history: render_chain(ts, seq!['x'], seq!['x', '-']),
                current: factor_text(ts.last()),
                breakchar: '*',
                previous: scan_from(scan_init(), render_chain(ts, seq!['x'], seq!['x', '-']))->Ok_0.previous,
            },
        ),
        is_digit(scan_from(scan_init(), render_chain(ts, seq!['x'], seq!['x', '-']))->Ok_0.previous),
    decreases ts.len(),
{
    let init = scan_init();
    let pre = ts.drop_last();
    let a = render_chain(pre, seq!['x'], seq!['x', '-']);
    let last = ts.last();
    let w = factor_text(last);
    let text = render_chain(ts, seq!['x'], seq!['x', '-']);
    assert(canon_atom(ts[ts.len() - 1].1));
    lemma_factor_word(last);
    assert(text =~= a + seq!['x'] + w);
    lemma_scan_concat(init, a + seq!['x'], w);
    lemma_scan_concat(init, a, seq!['x']);
    let s1 = scan_from(init, a)->Ok_0;
    if ts.len() == 2 {
        assert(pre.len() == 1);
        assert(canon_atom(ts[0].1));
        assert(a =~= render(ts[0].1));
        lemma_atom_scan(ts[0].1);
        lemma_scan_one(s1, 'x');
        let s2 = seen(regroup(s1, ParseKind::Mult, '*', '*'), 'x');
        assert(factor_slices(pre) =~= seq![('*', render(ts[0].1))]) by {
            assert(factor_text(ts[0]) =~= render(ts[0].1));
        }
        lemma_scan_extends(s2, w);
        assert(grown(s2, w).current =~= w);
        assert(grown(s2, w).history =~= text);
    } else {
        assert forall|i: int| 0 <= i < pre.len() implies canon_atom(#[trigger] pre[i].1) by {
            assert(pre[i] == ts[i]);
        }
        lemma_product_scan(pre);
        lemma_scan_one(s1, 'x');
        let s2 = seen(cut(s1, '*'), 'x');
        assert(factor_slices(pre) =~= factor_slices(pre.drop_last()).push(('*', factor_text(pre.last()))));
        lemma_scan_extends(s2, w);
        assert(grown(s2, w).current =~= w);
        assert(grown(s2, w).history =~= text);
    }
}

proof fn lemma_mult_terms_canon(ts: Seq<(bool, Expr)>, text: Seq<char>)
    requires
        forall|i: int| 0 <= i < ts.len() ==> canon_atom(#[trigger] ts[i].1),
        shorter_slices(factor_slices(ts), text),
    ensures
        mult_terms(factor_slices(ts), text) == Ok::<Seq<(bool, Expr)>, crate::parse::ParseFailure>(ts),
    decreases ts.len(),
{
    if ts.len() > 0 {
        let sl = factor_slices(ts);
        let pre = ts.drop_last();
        assert(sl.drop_last() =~= factor_slices(pre));
        assert forall|i: int| 0 <= i < pre.len() implies canon_atom(#[trigger] pre[i].1) by {
            assert(pre[i] == ts[i]);
        }
        assert forall|i: int| 0 <= i < factor_slices(pre).len() implies (#[trigger] factor_slices(pre)[i]).1.len() < text.len() by {
            assert(factor_slices(pre)[i] == sl[i]);
        }
        lemma_mult_terms_canon(pre, text);
        let last = ts.last();
        assert(canon_atom(ts[ts.len() - 1].1));
        lemma_factor_word(last);
        lemma_atom_scan(last.1);
        assert(sl.last() == ('*', factor_text(last)));
        assert(pre.push(last) =~= ts);
        let body = sl.last().1;
        assert(body == factor_text(last));
        assert(body.len() > 0);
        if last.0 {
            assert(body[0] == '-');
            assert(body.skip(1) == render(last.1));
            assert(parse_expr(body.skip(1)) == Ok::<Expr, crate::parse::ParseFailure>(last.1));
        } else {
            assert(body[0] != '-');
            assert(parse_expr(body) == Ok::<Expr, crate::parse::ParseFailure>(last.1));
        }
        assert(mult_terms(sl.drop_last(), text) == Ok::<Seq<(bool, Expr)>, crate::parse::ParseFailure>(pre));
    } else {
        assert(factor_slices(ts) =~= Seq::<(char, Seq<char>)>::empty());
        assert(ts =~= Seq::<(bool, Expr)>::empty());
    }
}

/// A canonical product's text parses back to the product.
proof fn lemma_product_parse(ts: Seq<(bool, Expr)>)
    requires
        canon_product(ts),
    ensures
        parse_expr(render(Expr::Mult(ts))) == Ok::<Expr, crate::parse::ParseFailure>(Expr::Mult(ts)),
{
    let text = render(Expr::Mult(ts));
    lemma_product_scan(ts);
    let s = scan_from(scan_init(), text)->Ok_0;
    let st = close_scan(s);
    assert(st.split =~= factor_slices(ts));
    lemma_slices_shorter(text);
    lemma_mult_terms_canon(ts, text);
}

proof fn lemma_chain_word(ts: Seq<(bool, Expr)>, p: char)
    requires
        ts.len() >= 1,
        !ts[0].0,
        forall|i: int| 0 <= i < ts.len() ==> canon_atom(#[trigger] ts[i].1),
    ensures
        extends_in(ParseKind::Sum, p, render_chain(ts, seq!['x'], seq!['x', '-'])),
        render_chain(ts, seq!['x'], seq!['x', '-']).len() > 0,
        is_digit(render_chain(ts, seq!['x'], seq!['x', '-'])[0]),
        is_digit(render_chain(ts, seq!['x'], seq!['x', '-']).last()),
    decreases ts.len(),
{
    let text = render_chain(ts, seq!['x'], seq!['x', '-']);
    if ts.len() == 1 {
        assert(canon_atom(ts[0].1));
        lemma_atom_word(ts[0].1, ParseKind::Sum, p);
        assert(text =~= render(ts[0].1));
    } else {
        let pre = ts.drop_last();
        assert forall|i: int| 0 <= i < pre.len() implies canon_atom(#[trigger] pre[i].1) by {
            assert(pre[i] == ts[i]);
        }
        lemma_chain_word(pre, p);
        let a = render_chain(pre, seq!['x'], seq!['x', '-']);
        let last = ts.last();
        assert(canon_atom(ts[ts.len() - 1].1));
        lemma_factor_word(last);
        let w = factor_text(last);
        assert(text =~= a + (seq!['x'] + w));
        lemma_extends_concat(ParseKind::Sum, a.last(), seq!['x'], w);
        lemma_extends_concat(ParseKind::Sum, p, a, seq!['x'] + w);
        assert(text[0] == a[0]);
        assert(text.last() == w.last());
    }
}

/// A canonical term: its text, read from the start, is no sum, is read whole, ends
/// on a digit, and parses back to the term.
proof fn lemma_term(e: Expr, p: char)
    requires
        canon_term(e),
    ensures
        scan_from(scan_init(), render(e)) is Ok,
        scan_from(scan_init(), render(e))->Ok_0.kind != ParseKind::Sum,
        scan_from(scan_init(), render(e))->Ok_0.history == render(e),
        is_digit(scan_from(scan_init(), render(e))->Ok_0.previous),
        parse_expr(render(e)) == Ok::<Expr, crate::parse::ParseFailure>(e),
        extends_in(ParseKind::Sum, p, render(e)),
        render(e).len() > 0,
        is_digit(render(e)[0]),
{
    if canon_atom(e) {
        lemma_atom_scan(e);
        lemma_atom_word(e, ParseKind::Sum, p);
    } else {
        let ts = e->Mult_0;
        lemma_product_scan(ts);
        lemma_product_parse(ts);
        lemma_chain_word(ts, p);
    }
}

pub open spec fn sign_char(neg: bool) -> char {
    if neg { '-' } else { '+' }
}

pub open spec fn term_slices(ts: Seq<(bool, Expr)>) -> Seq<(char, Seq<char>)> {
    Seq::new(ts.len(), |i: int| (sign_char(ts[i].0), render(ts[i].1)))
}

proof fn lemma_scan_sep(s: ScanModel, c: char)
    requires
        c == '+' || c == '-',
        is_digit(s.previous),
    ensures
        scan_step(s, c) is Some,
        scan_from(s, seq![' ', c, ' ']) == Ok::<ScanModel, char>(scan_step(s, c)->0),
{
    lemma_scan_one(s, ' ');
    let t = scan_step(s, c)->0;
    lemma_scan_one(s, c);
    lemma_scan_one(t, ' ');
    lemma_scan_concat(s, seq![' '], seq![c]);
    assert(seq![' '] + seq![c] =~= seq![' ', c]);
    lemma_scan_concat(s, seq![' ', c], seq![' ']);
    assert(seq![' ', c] + seq![' '] =~= seq![' ', c, ' ']);
}

/// The text of a canonical sum read from the start, when its first term is
/// negative or it has two or more: a sum whose finished slices are its terms but
/// the last, which is the slice being read.
proof fn lemma_sum_scan(ts: Seq<(bool, Expr)>)
    requires
        canon_sum(ts),
        ts.len() >= 2 || ts[0].0,
    ensures
        scan_from(scan_init(), render_chain(ts, seq![' ', '+', ' '], seq![' ', '-', ' '])) == Ok::<
            ScanModel,
            char,
        >(
            ScanModel {
                split: term_slices(ts.drop_last()),
                kind: ParseKind::Sum,
                history: scan_from(scan_init(), render_chain(ts, seq![' ', '+', ' '], seq![' ', '-', ' ']))->Ok_0.history,
                current: render(ts.last().1),
                breakchar: sign_char(ts.last().0),
                previous: scan_from(scan_init(), render_chain(ts, seq![' ', '+', ' '], seq![' ', '-', ' ']))->Ok_0.previous,
            },
        ),
        is_digit(scan_from(scan_init(), render_chain(ts, seq![' ', '+', ' '], seq![' ', '-', ' ']))->Ok_0.previous),
    decreases ts.len(),
{
    let init = scan_init();
    let plus = seq![' ', '+', ' '];
    let minus = seq![' ', '-', ' '];
    let text = render_chain(ts, plus, minus);
    let last = ts.last();
    assert(canon_term(ts[ts.len() - 1].1));
    if ts.len() == 1 {
        let r = render(ts[0].1);
        lemma_term(ts[0].1, '-');
        assert(text =~= seq!['-'] + r);
        lemma_scan_concat(init, seq!['-'], r);
        lemma_scan_one(init, '-');
        let s1 = seen(ScanModel { kind: ParseKind::Sum, current: Seq::empty(), breakchar: '-', ..init }, '-');
        assert(scan_step(init, '-') == Some(s1));
        lemma_scan_extends(s1, r);
        assert(grown(s1, r).current =~= r);
        assert(term_slices(ts.drop_last()) =~= Seq::<(char, Seq<char>)>::empty());
        assert(init.split =~= Seq::<(char, Seq<char>)>::empty());
        if canon_atom(ts[0].1) {
            lemma_atom_word(ts[0].1, ParseKind::Sum, ' ');
        } else {
            lemma_chain_word(ts[0].1->Mult_0, ' ');
        }
    } else {
        let pre = ts.drop_last();
        let a = render_chain(pre, plus, minus);
        let c = sign_char(last.0);
        let r = render(last.1);
        lemma_term(last.1, c);
        if last.1 is Mult {
            lemma_chain_word(last.1->Mult_0, c);
        } else {
            lemma_atom_word(last.1, ParseKind::Sum, c);
        }
        assert(text =~= a + seq![' ', c, ' '] + r) by {
            if last.0 {
                assert(minus =~= seq![' ', c, ' ']);
            } else {
                assert(plus =~= seq![' ', c, ' ']);
            }
        }
        lemma_scan_concat(init, a + seq![' ', c, ' '], r);
        lemma_scan_concat(init, a, seq![' ', c, ' ']);
        if pre.len() == 1 && !pre[0].0 {
            assert(canon_term(ts[0].1));
            lemma_term(ts[0].1, ' ');
            assert(a =~= render(ts[0].1));
            let s1 = scan_from(init, a)->Ok_0;
            lemma_scan_sep(s1, c);
            let s2 = seen(regroup(s1, ParseKind::Sum, '+', c), c);
            assert(scan_step(s1, c) == Some(s2));
            lemma_scan_extends(s2, r);
            assert(grown(s2, r).current =~= r);
            assert(term_slices(pre) =~= seq![('+', render(ts[0].1))]);
        } else {
            assert(canon_sum(pre)) by {
                assert forall|i: int| 0 <= i < pre.len() implies canon_term(#[trigger] pre[i].1) by {
                    assert(pre[i] == ts[i]);
                }
            }
            lemma_sum_scan(pre);
            let s1 = scan_from(init, a)->Ok_0;
            lemma_scan_sep(s1, c);
            let s2 = seen(cut(s1, c), c);
            assert(scan_step(s1, c) == Some(s2));
            lemma_scan_extends(s2, r);
            assert(grown(s2, r).current =~= r);
            assert(term_slices(pre) =~= term_slices(pre.drop_last()).push((sign_char(pre.last().0), render(pre.last().1))));
        }
    }
}

proof fn lemma_sum_terms_canon(ts: Seq<(bool, Expr)>, text: Seq<char>)
    requires
        forall|i: int| 0 <= i < ts.len() ==> canon_term(#[trigger] ts[i].1),
        shorter_slices(term_slices(ts), text),
    ensures
        sum_terms(term_slices(ts), text) == Ok::<Seq<(bool, Expr)>, crate::parse::ParseFailure>(ts),
    decreases ts.len(),
{
    if ts.len() > 0 {
        let sl = term_slices(ts);
        let pre = ts.drop_last();
        assert(sl.drop_last() =~= term_slices(pre));
        assert forall|i: int| 0 <= i < pre.len() implies canon_term(#[trigger] pre[i].1) by {
            assert(pre[i] == ts[i]);
        }
        assert forall|i: int| 0 <= i < term_slices(pre).len() implies (#[trigger] term_slices(pre)[i]).1.len() < text.len() by {
            assert(term_slices(pre)[i] == sl[i]);
        }
        lemma_sum_terms_canon(pre, text);
        let last = ts.last();
        assert(canon_term(ts[ts.len() - 1].1));
        lemma_term(last.1, ' ');
        assert(sl.last() == (sign_char(last.0), render(last.1)));
        assert(pre.push(last) =~= ts);
        assert(sum_terms(sl.drop_last(), text) == Ok::<Seq<(bool, Expr)>, crate::parse::ParseFailure>(pre));
    } else {
        assert(term_slices(ts) =~= Seq::<(char, Seq<char>)>::empty());
        assert(ts =~= Seq::<(bool, Expr)>::empty());
    }
}

/// The canonical text of a canonical expression reads back to an expression with
/// the same canonical text: the expression itself, or, for a sum of one positive
/// term, that term.
pub proof fn law_render_parse_render(e: Expr)
    requires
        canon(e),
    ensures
        parse_expr(render(e)) is Ok,
        render(parse_expr(render(e))->Ok_0) == render(e),
{
    if canon_term(e) {
        lemma_term(e, ' ');
    } else {
        let ts = e->Sum_0;
        let text = render(e);
        if ts.len() == 1 && !ts[0].0 {
            assert(canon_term(ts[0].1));
            lemma_term(ts[0].1, ' ');
            assert(text =~= render(ts[0].1));
        } else {
            lemma_sum_scan(ts);
            let s = scan_from(scan_init(), text)->Ok_0;
            let st = close_scan(s);
            assert(st.split =~= term_slices(ts));
            lemma_slices_shorter(text);
            lemma_sum_terms_canon(ts, text);
            assert(parse_expr(text) == Ok::<Expr, crate::parse::ParseFailure>(e));
        }
    }
}

// ---------------------------------------------------------------- what parsing yields

/// Digits and `d`: the text of a constant or a die group.
pub open spec fn atom_chars(w: Seq<char>) -> bool {
    forall|i: int| 0 <= i < w.len() ==> is_digit(#[trigger] w[i]) || w[i] == 'd' || w[i] == 'D'
}

/// The text of a factor: an atom's, with perhaps a `-` first.
pub open spec fn factor_chars(w: Seq<char>) -> bool {
    forall|i: int|
        0 <= i < w.len() ==> is_digit(#[trigger] w[i]) || w[i] == 'd' || w[i] == 'D' || (i == 0 && w[i]
            == '-')
}

/// The text of a term: digits, `d`, multiplications, and `-` right after a multiplication.
pub open spec fn term_chars(w: Seq<char>) -> bool {
    forall|i: int|
        0 <= i < w.len() ==> {
            let c = #[trigger] w[i];
            is_digit(c) || c == 'd' || c == 'D' || is_mult_char(c) || (c == '-' && i > 0 && is_mult_char(
                w[i - 1],
            ))
        }
}

proof fn lemma_push_term(w: Seq<char>, c: char)
    requires
        term_chars(w),
        is_digit(c) || c == 'd' || c == 'D' || is_mult_char(c) || (c == '-' && w.len() > 0
            && is_mult_char(w.last())),
    ensures
        term_chars(w.push(c)),
{
    let v = w.push(c);
    assert forall|i: int| 0 <= i < v.len() implies {
        let d = #[trigger] v[i];
        is_digit(d) || d == 'd' || d == 'D' || is_mult_char(d) || (d == '-' && i > 0 && is_mult_char(v[i - 1]))
    } by {
        if i < w.len() {
            assert(v[i] == w[i]);
            if i > 0 {
                assert(v[i - 1] == w[i - 1]);
            }
        } else if w.len() > 0 {
            assert(v[i - 1] == w.last());
        }
    }
}

proof fn lemma_push_factor(w: Seq<char>, c: char)
    requires
        factor_chars(w),
        is_digit(c) || c == 'd' || c == 'D' || (c == '-' && w.len() == 0),
    ensures
        factor_chars(w.push(c)),
{
    let v = w.push(c);
    assert forall|i: int| 0 <= i < v.len() implies is_digit(#[trigger] v[i]) || v[i] == 'd' || v[i] == 'D'
        || (i == 0 && v[i] == '-') by {
        if i < w.len() {
            assert(v[i] == w[i]);
        }
    }
}

proof fn lemma_push_atom(w: Seq<char>, c: char)
    requires
        atom_chars(w),
        is_digit(c) || c == 'd' || c == 'D',
    ensures
        atom_chars(w.push(c)),
{
    let v = w.push(c);
    assert forall|i: int| 0 <= i < v.len() implies is_digit(#[trigger] v[i]) || v[i] == 'd' || v[i] == 'D' by {
        if i < w.len() {
            assert(v[i] == w[i]);
        }
    }
}

proof fn lemma_push_digit(w: Seq<char>, c: char)
    requires
        all_digits(w),
        is_digit(c),
    ensures
        all_digits(w.push(c)),
{
    let v = w.push(c);
    assert forall|i: int| 0 <= i < v.len() implies is_digit(#[trigger] v[i]) by {
        if i < w.len() {
            assert(v[i] == w[i]);
        }
    }
}

proof fn lemma_char_classes(w: Seq<char>)
    ensures
        all_digits(w) ==> atom_chars(w),
        atom_chars(w) ==> factor_chars(w),
        atom_chars(w) ==> term_chars(w),
{
    if all_digits(w) {
        assert forall|i: int| 0 <= i < w.len() implies is_digit(#[trigger] w[i]) || w[i] == 'd' || w[i] == 'D' by {
        }
    }
}

/// What the scan keeps true of the characters in each slice.
pub open spec fn slices_inv(st: ScanModel) -> bool {
    &&& st.history.len() == 0 ==> st.previous == ' '
    &&& st.history.len() > 0 ==> st.previous == st.history.last()
    &&& st.kind != ParseKind::Sum ==> term_chars(st.history)
    &&& (st.kind == ParseKind::Die || st.kind == ParseKind::Mult) ==> st.history.len() > 0
    &&& match st.kind {
        ParseKind::Const => st.split.len() == 0 && st.current == st.history && all_digits(st.history),
        ParseKind::Die => {
            &&& st.split.len() >= 1
            &&& forall|i: int| 0 <= i < st.split.len() ==> all_digits(#[trigger] st.split[i].1)
            &&& all_digits(st.current)
            &&& atom_chars(st.history)
            &&& !is_mult_char(st.previous)
        },
        ParseKind::Mult => {
            &&& st.split.len() >= 1
            &&& atom_chars(st.split[0].1)
            &&& forall|i: int| 0 <= i < st.split.len() ==> factor_chars(#[trigger] st.split[i].1)
            &&& factor_chars(st.current)
            &&& (is_mult_char(st.previous) <==> st.current.len() == 0)
        },
        ParseKind::Sum => {
            &&& forall|i: int| 0 <= i < st.split.len() ==> term_chars(#[trigger] st.split[i].1)
            &&& term_chars(st.current)
            &&& (is_mult_char(st.previous) <==> (st.current.len() > 0 && is_mult_char(st.current.last())))
        },
    }
}

proof fn lemma_slices_inv_step(s: ScanModel, c: char)
    requires
        slices_inv(s),
        scan_step(s, c) is Some,
    ensures
        slices_inv(scan_step(s, c)->0),
{
    let t = scan_step(s, c)->0;
    lemma_char_classes(s.history);
    lemma_char_classes(s.current);
    if is_space(c) && !(c == '+' || c == '-' || is_mult_char(c) || c == 'd' || c == 'D' || is_digit(c)) {
        assert(t == s);
    } else {
        assert(t.history == s.history.push(c));
        assert(t.previous == c);
        assert(t.history.last() == c);
        if s.kind != ParseKind::Sum && t.kind != ParseKind::Sum {
            if c == '-' {
                assert(s.history.len() > 0 && is_mult_char(s.history.last()));
            }
            lemma_push_term(s.history, c);
        }
        if s.kind == ParseKind::Die && (is_digit(c) || c == 'd' || c == 'D') {
            lemma_push_atom(s.history, c);
        }
        if s.kind == ParseKind::Const && (c == 'd' || c == 'D') {
            lemma_push_atom(s.history, c);
        }
        if t.kind == ParseKind::Const {
            lemma_push_digit(s.history, c);
        }
        if t.kind == ParseKind::Die && is_digit(c) {
            lemma_push_digit(s.current, c);
        }
        if t.kind == ParseKind::Mult && s.kind == ParseKind::Mult && t.current.len() > 0 {
            lemma_push_factor(s.current, c);
        }
        if t.kind == ParseKind::Sum && s.kind == ParseKind::Sum && t.current.len() > 0 {
            if c == '-' {
                assert(is_mult_char(s.previous));
            }
            if c == 'd' || c == 'D' {
                lemma_push_term(s.current, 'd');
            } else {
                lemma_push_term(s.current, c);
            }
        }
        if t.split.len() > s.split.len() && t.split.len() > 1 {
            assert forall|i: int| 0 <= i < s.split.len() implies t.split[i] == s.split[i] by {}
        }
        if t.kind == ParseKind::Sum {
            assert(t.current.len() == 0 || t.current.last() == c || t.current.last() == 'd');
            assert forall|i: int| 0 <= i < t.split.len() implies term_chars(#[trigger] t.split[i].1) by {
                if s.kind == ParseKind::Sum {
                    if i < s.split.len() {
                        assert(t.split[i] == s.split[i]);
                    } else {
                        assert(t.split[i].1 == s.current);
                    }
                } else if s.history.len() > 0 || c == '+' {
                    assert(t.split.len() == 1);
                    assert(t.split[i].1 == s.history);
                }
            }
            assert(term_chars(t.current));
            assert(is_mult_char(t.previous) <==> (t.current.len() > 0 && is_mult_char(t.current.last())));
        }
        if t.kind == ParseKind::Mult {
            assert(t.split.len() >= 1);
            assert(atom_chars(t.split[0].1));
            assert(forall|i: int| 0 <= i < t.split.len() ==> factor_chars(#[trigger] t.split[i].1));
            assert(factor_chars(t.current));
            assert(is_mult_char(t.previous) <==> t.current.len() == 0);
        }
        if t.kind == ParseKind::Die {
            assert(t.split.len() >= 1);
            assert(forall|i: int| 0 <= i < t.split.len() ==> all_digits(#[trigger] t.split[i].1));
            assert(all_digits(t.current));
            assert(atom_chars(t.history));
            assert(!is_mult_char(t.previous));
        }
        if t.kind == ParseKind::Const {
            assert(t.split.len() == 0 && t.current == t.history && all_digits(t.history));
        }
        assert(t.kind != ParseKind::Sum ==> term_chars(t.history));
    }
}

proof fn lemma_scan_classes(text: Seq<char>)
    requires
        scan_from(scan_init(), text) is Ok,
    ensures
        slices_inv(scan_from(scan_init(), text)->Ok_0),
        scan_from(scan_init(), text)->Ok_0.kind == ParseKind::Const ==> forall|i: int|
            0 <= i < text.len() ==> is_digit(#[trigger] text[i]) || is_space(text[i]),
        term_chars(text) ==> scan_from(scan_init(), text)->Ok_0.history == text
            && scan_from(scan_init(), text)->Ok_0.kind != ParseKind::Sum,
        atom_chars(text) ==> scan_from(scan_init(), text)->Ok_0.kind == ParseKind::Const
            || scan_from(scan_init(), text)->Ok_0.kind == ParseKind::Die,
    decreases text.len(),
{
    if text.len() == 0 {
        assert(scan_init().current =~= scan_init().history);
        assert(scan_init().history =~= text);
    } else {
        let p = text.drop_last();
        let c = text.last();
        lemma_scan_classes(p);
        let s = scan_from(scan_init(), p)->Ok_0;
        let t = scan_from(scan_init(), text)->Ok_0;
        assert(scan_step(s, c) == Some(t));
        lemma_slices_inv_step(s, c);
        if s.kind == ParseKind::Const {
            assert(s.history.len() > 0 ==> is_digit(s.history.last()));
        }
        if t.kind == ParseKind::Const {
            assert forall|i: int| 0 <= i < text.len() implies is_digit(#[trigger] text[i]) || is_space(
                text[i],
            ) by {
                if i < p.len() {
                    assert(text[i] == p[i]);
                }
            }
        }
        if term_chars(text) {
            assert forall|i: int| 0 <= i < p.len() implies {
                let d = #[trigger] p[i];
                is_digit(d) || d == 'd' || d == 'D' || is_mult_char(d) || (d == '-' && i > 0 && is_mult_char(
                    p[i - 1],
                ))
            } by {
                assert(p[i] == text[i]);
                if i > 0 {
                    assert(p[i - 1] == text[i - 1]);
                }
            }
            assert(text[text.len() - 1] == c);
            if c == '-' {
                assert(is_mult_char(text[text.len() - 2]));
                assert(s.history.last() == p.last());
            }
            assert(t.history =~= text);
        }
        if atom_chars(text) {
            assert forall|i: int| 0 <= i < p.len() implies is_digit(#[trigger] p[i]) || p[i] == 'd' || p[i]
                == 'D' by {
                assert(p[i] == text[i]);
            }
            assert(text[text.len() - 1] == c);
        }
    }
}

/// The factors that parsing yields: atoms, the first positive.
proof fn lemma_mult_terms_parsed(slices: Seq<(char, Seq<char>)>, text: Seq<char>)
    requires
        shorter_slices(slices, text),
        mult_terms(slices, text) is Ok,
        forall|i: int| 0 <= i < slices.len() ==> factor_chars(#[trigger] slices[i].1),
        slices.len() > 0 ==> atom_chars(slices[0].1),
    ensures
        mult_terms(slices, text)->Ok_0.len() == slices.len(),
        forall|i: int|
            0 <= i < slices.len() ==> canon_atom(#[trigger] mult_terms(slices, text)->Ok_0[i].1),
        slices.len() > 0 ==> !mult_terms(slices, text)->Ok_0[0].0,
    decreases text.len(), slices.len(),
{
    if slices.len() > 0 {
        let pre = slices.drop_last();
        assert forall|i: int| 0 <= i < pre.len() implies (#[trigger] pre[i]).1.len() < text.len() by {
            assert(pre[i] == slices[i]);
        }
        assert forall|i: int| 0 <= i < pre.len() implies factor_chars(#[trigger] pre[i].1) by {
            assert(pre[i] == slices[i]);
        }
        if pre.len() > 0 {
            assert(pre[0] == slices[0]);
        }
        lemma_mult_terms_parsed(pre, text);
        let ts0 = mult_terms(pre, text)->Ok_0;
        let ts = mult_terms(slices, text)->Ok_0;
        let body = slices.last().1;
        assert(factor_chars(slices[slices.len() - 1].1));
        assert(body.len() < text.len());
        if body[0] == '-' {
            let rest = body.skip(1);
            assert forall|i: int| 0 <= i < rest.len() implies is_digit(#[trigger] rest[i]) || rest[i] == 'd'
                || rest[i] == 'D' by {
                assert(rest[i] == body[i + 1]);
            }
            lemma_parsed_canon(rest);
        } else {
            assert forall|i: int| 0 <= i < body.len() implies is_digit(#[trigger] body[i]) || body[i] == 'd'
                || body[i] == 'D' by {
            }
            lemma_parsed_canon(body);
        }
        assert(ts.drop_last() == ts0);
        assert forall|i: int| 0 <= i < slices.len() implies canon_atom(#[trigger] ts[i].1) by {
            if i < pre.len() {
                assert(ts[i] == ts0[i]);
            }
        }
        if slices.len() == 1 {
            assert(slices[0].1 == body);
            assert(atom_chars(body));
        } else {
            assert(ts[0] == ts0[0]);
        }
    }
}

/// The terms that parsing yields: atoms and products.
proof fn lemma_sum_terms_parsed(slices: Seq<(char, Seq<char>)>, text: Seq<char>)
    requires
        shorter_slices(slices, text),
        sum_terms(slices, text) is Ok,
        forall|i: int| 0 <= i < slices.len() ==> term_chars(#[trigger] slices[i].1),
    ensures
        sum_terms(slices, text)->Ok_0.len() == slices.len(),
        forall|i: int|
            0 <= i < slices.len() ==> canon_term(#[trigger] sum_terms(slices, text)->Ok_0[i].1),
    decreases text.len(), slices.len(),
{
    if slices.len() > 0 {
        let pre = slices.drop_last();
        assert forall|i: int| 0 <= i < pre.len() implies (#[trigger] pre[i]).1.len() < text.len() by {
            assert(pre[i] == slices[i]);
        }
        assert forall|i: int| 0 <= i < pre.len() implies term_chars(#[trigger] pre[i].1) by {
            assert(pre[i] == slices[i]);
        }
        lemma_sum_terms_parsed(pre, text);
        let ts0 = sum_terms(pre, text)->Ok_0;
        let ts = sum_terms(slices, text)->Ok_0;
        let body = slices.last().1;
        assert(term_chars(slices[slices.len() - 1].1));
        assert(body.len() < text.len());
        if body.len() > 0 {
            lemma_parsed_canon(body);
        }
        assert(ts.drop_last() == ts0);
        assert forall|i: int| 0 <= i < slices.len() implies canon_term(#[trigger] ts[i].1) by {
            if i < pre.len() {
                assert(ts[i] == ts0[i]);
            }
        }
    }
}

/// What parsing yields is canonical; from the text of a term, a term; from the text
/// of an atom, an atom.
proof fn lemma_parsed_canon(text: Seq<char>)
    requires
        parse_expr(text) is Ok,
    ensures
        canon(parse_expr(text)->Ok_0),
        term_chars(text) ==> canon_term(parse_expr(text)->Ok_0),
        atom_chars(text) ==> canon_atom(parse_expr(text)->Ok_0),
    decreases text.len() + 1, 0int,
{
    lemma_scan_classes(text);
    lemma_slices_shorter(text);
    let s = scan_from(scan_init(), text)->Ok_0;
    let st = close_scan(s);
    assert(scan(text) == Ok::<ScanModel, char>(st));
    let sl = st.split;
    assert forall|i: int| 0 <= i < sl.len() - 1 implies sl[i] == s.split[i] by {}
    match st.kind {
        ParseKind::Const => {
            let v = int_value(text)->0;
            if text.len() > 0 {
                assert(is_digit(text[0]) || is_space(text[0]));
            }
            lemma_digits_value_nonneg(text);
        },
        ParseKind::Die => {
            assert(all_digits(sl[0].1)) by {
                if sl.len() > 1 {
                    assert(sl[0] == s.split[0]);
                }
            }
            assert(all_digits(sl[1].1)) by {
                if sl.len() == 2 {
                    assert(sl[1].1 == s.current);
                }
            }
            if sl.len() == 2 {
                lemma_digits_value_nonneg(sl[0].1);
                if sl[0].1.len() > 0 {
                    assert(is_digit(sl[0].1[0]));
                }
                assert(is_digit(sl[1].1[0]) || sl[1].1.len() == 0);
            }
        },
        ParseKind::Mult => {
            assert forall|i: int| 0 <= i < sl.len() implies factor_chars(#[trigger] sl[i].1) by {
                if i < s.split.len() {
                    assert(sl[i] == s.split[i]);
                }
            }
            assert(sl[0] == s.split[0]);
            lemma_mult_terms_parsed(sl, text);
        },
        ParseKind::Sum => {
            assert forall|i: int| 0 <= i < sl.len() implies term_chars(#[trigger] sl[i].1) by {
                if i < s.split.len() {
                    assert(sl[i] == s.split[i]);
                }
            }
            lemma_sum_terms_parsed(sl, text);
        },
    }
}

/// Parsing the canonical text of whatever a text parses to gives an expression
/// with that same canonical text.
pub proof fn law_parse_render_fixpoint(text: Seq<char>)
    requires
        parse_expr(text) is Ok,
    ensures
        parse_expr(render(parse_expr(text)->Ok_0)) is Ok,
        render(parse_expr(render(parse_expr(text)->Ok_0))->Ok_0) == render(parse_expr(text)->Ok_0),
{
    lemma_parsed_canon(text);
    law_render_parse_render(parse_expr(text)->Ok_0);
}

/// The log text of the die groups `g` with faces `logs`: `| d<faces>: ` and the
/// faces drawn, for each group in order.
pub open spec fn groups_log_text(g: Seq<(int, int)>, logs: Seq<(i32, Seq<i32>)>) -> Seq<char>
    decreases g.len(),
{
    if g.len() == 0 || logs.len() < g.len() {
        Seq::empty()
    } else {
        groups_log_text(g.drop_last(), logs) + seq!['|', ' ', 'd'] + decimal(g.last().1) + seq![':', ' ']
            + rolls_text(logs[g.len() - 1].1)
    }
}

/// The log of a roll names each die group of the expression by its faces, in the
/// order they are rolled, and follows it with that group's faces; a roll of a
/// single group shows its faces alone.
pub proof fn law_log_names_groups(e: Expr, logs: Seq<(i32, Seq<i32>)>)
    requires
        logs_fit(groups(e), logs),
    ensures
        groups(e).len() == 1 ==> log_text(logs) == seq!['|', ' '] + rolls_text(logs[0].1),
        groups(e).len() != 1 ==> log_text(logs) == groups_log_text(groups(e), logs),
{
    lemma_groups_log_text(groups(e), logs, groups(e).len() as int);
    assert(logs.take(logs.len() as int) =~= logs);
    assert(groups(e).take(groups(e).len() as int) =~= groups(e));
}

proof fn lemma_groups_log_text(g: Seq<(int, int)>, logs: Seq<(i32, Seq<i32>)>, j: int)
    requires
        logs_fit(g, logs),
        0 <= j <= g.len(),
    ensures
        sized_logs_text(logs.take(j)) == groups_log_text(g.take(j), logs),
    decreases j,
{
    if j > 0 {
        lemma_groups_log_text(g, logs, j - 1);
        assert(logs.take(j).drop_last() =~= logs.take(j - 1));
        assert(g.take(j).drop_last() =~= g.take(j - 1));
        assert(logs[j - 1].0 == g[j - 1].1);
        assert(decimal(logs[j - 1].0 as int) == decimal(g.take(j).last().1));
    } else {
        assert(logs.take(0) =~= Seq::<(i32, Seq<i32>)>::empty());
    }
}

/// The text `NdS` reads as that die group; a roll of it gives from N to N×S, and
/// exactly N when S is 1.
pub proof fn law_die_text_roll(n: int, s: int, logs: Seq<(i32, Seq<i32>)>)
    requires
        0 <= n <= i32::MAX,
        1 <= s <= i32::MAX,
        logs_fit(groups(Expr::Die(n, s)), logs),
    ensures
        parse_expr(decimal(n) + seq!['d'] + decimal(s)) == Ok::<Expr, crate::parse::ParseFailure>(
            Expr::Die(n, s),
        ),
        n <= eval(Expr::Die(n, s), logs) <= n * s,
        s == 1 ==> eval(Expr::Die(n, s), logs) == n,
{
    lemma_atom_scan(Expr::Die(n, s));
    lemma_eval_bounds(Expr::Die(n, s), logs);
    if s == 1 {
        assert(n * s == n) by (nonlinear_arith)
            requires
                s == 1,
        ;
    }
}

} // verus!
