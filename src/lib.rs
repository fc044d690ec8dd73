//! Dice expressions: parsing, rolling and rendering of texts such as `3d6+2*-1d4-5`.
use vstd::prelude::*;

pub mod canonical;
pub mod dice;
pub mod log;
pub mod parse;
pub mod scores;
pub mod stats;


pub mod text;

pub use dice::{DiceSet, Die, Expr, SignedDice};
pub use log::{DiceRoll, RollLog};
pub use parse::{DiceParseError, ParseKind, ParseState};
pub use scores::Scores;
pub use stats::Stats;



use dice::{eval, fits, groups, logs_fit, parse_expr, render};
use log::log_text;

verus! {

/// A dice expression with an optional name and the rolls made with it, the latest last.
#[derive(Debug)]
pub struct Dice {
    pub name: Option<String>,
    pub set: DiceSet,
    pub history: Vec<DiceRoll>,
}

/// The text of a named expression: `<name>: <expression>`.
pub open spec fn dice_text(name: Option<Seq<char>>, e: Expr) -> Seq<char> {
    match name {
        Some(n) => n + seq![':', ' '] + render(e),
        None => render(e),
    }
}

impl Dice {
    /// The constant 0, unnamed, never rolled.
    pub fn new() -> (r: Self)
        ensures
            r.name is None,
            r.set@ == Expr::Const(0),
            r.history@.len() == 0,
    {
        Self { name: None, set: DiceSet::new(), history: Vec::new() }
    }

    /// Reads an expression; unnamed, never rolled.
    pub fn from(text: &str) -> (r: Result<Self, DiceParseError>)
        ensures
            match parse_expr(text@) {
                Ok(e) => r is Ok && r->Ok_0.set@ == e && r->Ok_0.name is None && r->Ok_0.history@.len()
                    == 0,
                Err(f) => r is Err && r->Err_0@ == f,
            },
    {
        match DiceSet::parse(text) {
            Ok(d) => Ok(Self { name: None, set: d, history: Vec::new() }),
            Err(e) => Err(e),
        }
    }

    /// Names the expression.
    pub fn name(&mut self, new_name: &str)
        ensures
            final(self).name is Some,
            final(self).name->Some_0@ == new_name@,
            final(self).set == old(self).set,
            final(self).history == old(self).history,
    {
        self.name = Some(String::from_str(new_name));
    }

    /// Whether a roll stays within `i32` all along; `roll` asks for it.
    pub fn can_roll(&self) -> (r: bool)
        ensures
            r == fits(self.set@),
    {
        self.set.range().is_some()
    }

    /// Rolls the expression, keeps the roll in the history and returns its value.
    pub fn roll(&mut self) -> (r: i32)
        requires
            fits(old(self).set@),
        ensures
            final(self).set == old(self).set,
            final(self).name == old(self).name,
            final(self).history@.len() == old(self).history@.len() + 1,
            final(self).history@.drop_last() == old(self).history@,
            logs_fit(groups(old(self).set@), final(self).history@.last()@.1),
            r == final(self).history@.last().rolled,
            r == eval(old(self).set@, final(self).history@.last()@.1),
    {
        let result = self.set.roll();
        let r = result.num();
        self.history.push(result);
        assert(self.history@.drop_last() =~= old(self).history@);
        r
    }

    /// The log of the `i`-th latest roll, 0 for the latest.
    pub fn log(&self, i: usize) -> (r: String)
        requires
            i < self.history@.len(),
        ensures
            r@ == log_text(self.history@[self.history@.len() - 1 - i]@.1),
    {
        self.history[self.history.len() - 1 - i].full_log()
    }

    /// `<name>: <expression>`, or the expression alone when unnamed.
    pub fn to_string(&self) -> (r: String)
        ensures
            r@ == dice_text(
                match self.name {
                    Some(n) => Some(n@),
                    None => None,
                },
                self.set@,
            ),
    {
        let expr = self.set.to_string();
        match &self.name {
            Some(n) => {
                let mut out = n.clone();
                out.append(": ");
                out.append(expr.as_str());
                proof {
                    reveal_strlit(": ");
                }
                assert(out@ =~= n@ + seq![':', ' '] + render(self.set@));
                out
            },
            None => expr,
        }
    }
}

impl std::str::FromStr for Dice {
    type Err = DiceParseError;

    fn from_str(s: &str) -> Result<Self, DiceParseError> {
        Dice::from(s)
    }
}

} // verus!
