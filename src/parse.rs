//! The scanner: one pass over an expression text that decides its outermost form
//! and cuts it into the slices that stand between that form's operators.
use vstd::prelude::*;

use crate::text::{is_digit, is_space, is_space_char, push_char};

verus! {

/// Why a text is not a dice expression.
#[derive(Debug)]
pub enum DiceParseError {
    InvalidNumber(String),
    InvalidDie(String),
    InvalidChar(char),
    InvalidMath(String),
}

/// The model of a `DiceParseError`.
pub ghost enum ParseFailure {
    Number(Seq<char>),
    Die(Seq<char>),
    Char(char),
    Math(Seq<char>),
}

impl View for DiceParseError {
    type V = ParseFailure;

    open spec fn view(&self) -> ParseFailure {
        match self {
            DiceParseError::InvalidNumber(s) => ParseFailure::Number(s@),
            DiceParseError::InvalidDie(s) => ParseFailure::Die(s@),
            DiceParseError::InvalidChar(c) => ParseFailure::Char(*c),
            DiceParseError::InvalidMath(s) => ParseFailure::Math(s@),
        }
    }
}

/// The message for a failure, the offending text quoted.
pub open spec fn failure_text(f: ParseFailure) -> Seq<char> {
    match f {
        ParseFailure::Number(s) => "Invalid number '"@ + s + seq!['\''],
        ParseFailure::Die(s) => "Invalid die '"@ + s + seq!['\''],
        ParseFailure::Char(c) => "Invalid character '"@ + seq![c, '\''],
        ParseFailure::Math(s) => "Invalid expression '"@ + s + seq!['\''],
    }
}

impl DiceParseError {
    /// The message for this error.
    pub fn to_string(&self) -> (r: String)
        ensures
            r@ == failure_text(self@),
    {
        let mut out;
        match self {
            DiceParseError::InvalidNumber(s) => {
                out = String::from_str("Invalid number '");
                out.append(s.as_str());
            },
            DiceParseError::InvalidDie(s) => {
                out = String::from_str("Invalid die '");
                out.append(s.as_str());
            },
            DiceParseError::InvalidChar(c) => {
                out = String::from_str("Invalid character '");
                push_char(&mut out, *c);
            },
            DiceParseError::InvalidMath(s) => {
                out = String::from_str("Invalid expression '");
                out.append(s.as_str());
            },
        }
        push_char(&mut out, '\'');
        assert(out@ =~= failure_text(self@));
        out
    }
}

/// The outermost form of an expression.
#[derive(Debug, Copy, Clone, PartialEq, Eq, Structural)]
pub enum ParseKind {
    Sum,
    Mult,
    Die,
    Const,
}

/// The model of the scanner's state.
pub ghost struct ScanModel {
    pub split: Seq<(char, Seq<char>)>,
    pub kind: ParseKind,
    pub history: Seq<char>,
    pub current: Seq<char>,
    pub breakchar: char,
    pub previous: char,
}

/// The scanner's state: the finished slices, each with the operator before it, the
/// form decided so far, every character read but whitespace, the slice being read,
/// the operator before it, and the last character read but whitespace.
#[derive(Debug)]
pub struct ParseState {
    pub split: Vec<(char, String)>,
    pub kind: ParseKind,
    pub history: String,
    pub current: String,
    pub breakchar: char,
    pub previous: char,
}

pub open spec fn splits_view(v: Seq<(char, String)>) -> Seq<(char, Seq<char>)> {
    v.map_values(|p: (char, String)| (p.0, p.1@))
}

impl View for ParseState {
    type V = ScanModel;

    open spec fn view(&self) -> ScanModel {
        ScanModel {
            split: splits_view(self.split@),
            kind: self.kind,
            history: self.history@,
            current: self.current@,
            breakchar: self.breakchar,
            previous: self.previous,
        }
    }
}

/// `*`, `x` and `X` all multiply.
pub open spec fn is_mult_char(c: char) -> bool {
    c == '*' || c == 'x' || c == 'X'
}

pub open spec fn scan_init() -> ScanModel {
    ScanModel {
        split: Seq::empty(),
        kind: ParseKind::Const,
        history: Seq::empty(),
        current: Seq::empty(),
        breakchar: '+',
        previous: ' ',
    }
}

/// Records a character that is not whitespace as read.
pub open spec fn seen(s: ScanModel, c: char) -> ScanModel {
    ScanModel { history: s.history.push(c), previous: c, ..s }
}

/// Starts a new slice after operator `b`, the finished one going to the list.
pub open spec fn cut(s: ScanModel, b: char) -> ScanModel {
    ScanModel { split: s.split.push((s.breakchar, s.current)), current: Seq::empty(), breakchar: b, ..s }
}

/// Starts over as form `k` with everything read so far as the first slice, led by `lead`.
pub open spec fn regroup(s: ScanModel, k: ParseKind, lead: char, b: char) -> ScanModel {
    ScanModel {
        split: seq![(lead, s.history)],
        kind: k,
        current: Seq::empty(),
        breakchar: b,
        ..s
    }
}

pub open spec fn extend(s: ScanModel, c: char) -> ScanModel {
    ScanModel { current: s.current.push(c), ..s }
}

/// One character of the scan; `None` for a character outside the language.
///
/// An additive operator makes the expression a sum (a `-` right after a
/// multiplication is a sign instead); a multiplication makes it a product unless it
/// is a sum; a `d` makes it a die group unless it is a sum or a product. Inside the
/// outer form, operators of the inner forms stay in the slice. A leading `+` gives
/// an empty first slice; a leading `-` makes the first slice negative.
pub open spec fn scan_step(s: ScanModel, c: char) -> Option<ScanModel> {
    if c == '+' || (c == '-' && !is_mult_char(s.previous)) {
        Some(
            seen(
                if s.kind == ParseKind::Sum {
                    cut(s, c)
                } else if s.history.len() > 0 || c == '+' {
                    regroup(s, ParseKind::Sum, '+', c)
                } else {
                    ScanModel { kind: ParseKind::Sum, current: Seq::empty(), breakchar: c, ..s }
                },
                c,
            ),
        )
    } else if is_mult_char(c) {
        Some(
            seen(
                match s.kind {
                    ParseKind::Sum => extend(s, c),
                    ParseKind::Mult => cut(s, '*'),
                    _ => regroup(s, ParseKind::Mult, '*', '*'),
                },
                c,
            ),
        )
    } else if c == 'd' || c == 'D' {
        Some(
            seen(
                match s.kind {
                    ParseKind::Sum => extend(s, 'd'),
                    ParseKind::Mult => extend(s, 'd'),
                    ParseKind::Die => cut(s, 'd'),
                    ParseKind::Const => regroup(s, ParseKind::Die, 'd', 'd'),
                },
                c,
            ),
        )
    } else if is_digit(c) || c == '-' {
        Some(seen(extend(s, c), c))
    } else if is_space(c) {
        Some(s)
    } else {
        None
    }
}

/// The state after reading `text` from `s`, or the first character refused.
pub open spec fn scan_from(s: ScanModel, text: Seq<char>) -> Result<ScanModel, char>
    decreases text.len(),
{
    if text.len() == 0 {
        Ok(s)
    } else {
        match scan_from(s, text.drop_last()) {
            Err(c) => Err(c),
            Ok(t) => match scan_step(t, text.last()) {
                Some(u) => Ok(u),
                None => Err(text.last()),
            },
        }
    }
}

/// The last slice joins the list.
pub open spec fn close_scan(s: ScanModel) -> ScanModel {
    ScanModel { split: s.split.push((s.breakchar, s.current)), ..s }
}

/// The whole scan of a text.
pub open spec fn scan(text: Seq<char>) -> Result<ScanModel, char> {
    match scan_from(scan_init(), text) {
        Ok(s) => Ok(close_scan(s)),
        Err(c) => Err(c),
    }
}

proof fn lemma_scan_refused(s: ScanModel, text: Seq<char>, i: int)
    requires
        0 <= i < text.len(),
        scan_from(s, text.take(i)) is Ok,
        scan_step(scan_from(s, text.take(i))->Ok_0, text[i]) is None,
    ensures
        scan_from(s, text) == Err::<ScanModel, char>(text[i]),
    decreases text.len(),
{
    if i + 1 == text.len() {
        assert(text.drop_last() =~= text.take(i));
    } else {
        assert(text.drop_last().take(i) =~= text.take(i));
        lemma_scan_refused(s, text.drop_last(), i);
    }
}

/// What the scan keeps true: a constant has read only its own slice; in any other
/// form every slice is shorter than what has been read.
pub open spec fn scan_inv(s: ScanModel) -> bool {
    &&& s.kind == ParseKind::Const ==> s.split.len() == 0 && s.current == s.history
    &&& s.kind != ParseKind::Const ==> {
        &&& s.current.len() < s.history.len()
        &&& forall|i: int| 0 <= i < s.split.len() ==> (#[trigger] s.split[i]).1.len() < s.history.len()
    }
}

proof fn lemma_step_inv(s: ScanModel, c: char)
    requires
        scan_inv(s),
        scan_step(s, c) is Some,
    ensures
        scan_inv(scan_step(s, c)->0),
        scan_step(s, c)->0.history.len() <= s.history.len() + 1,
{
    let t = scan_step(s, c)->0;
    if t.kind != ParseKind::Const {
        assert forall|i: int| 0 <= i < t.split.len() implies (#[trigger] t.split[i]).1.len()
            < t.history.len() by {
            if i < s.split.len() && t.split.len() > s.split.len() {
                assert(t.split[i] == s.split[i]);
            }
        }
    }
}

proof fn lemma_scan_from_inv(text: Seq<char>)
    requires
        scan_from(scan_init(), text) is Ok,
    ensures
        scan_inv(scan_from(scan_init(), text)->Ok_0),
        scan_from(scan_init(), text)->Ok_0.history.len() <= text.len(),
    decreases text.len(),
{
    if text.len() > 0 {
        lemma_scan_from_inv(text.drop_last());
        let s = scan_from(scan_init(), text.drop_last())->Ok_0;
        lemma_step_inv(s, text.last());
    } else {
        assert(scan_init().current =~= scan_init().history);
    }
}

/// Every slice of an expression that is not a constant is shorter than the text.
pub proof fn lemma_slices_shorter(text: Seq<char>)
    ensures
        scan(text) is Ok && scan(text)->Ok_0.kind != ParseKind::Const ==> forall|i: int|
            0 <= i < scan(text)->Ok_0.split.len() ==> (#[trigger] scan(text)->Ok_0.split[i]).1.len()
                < text.len(),
{
    if scan_from(scan_init(), text) is Ok {
        lemma_scan_from_inv(text);
        let s = scan_from(scan_init(), text)->Ok_0;
        let t = close_scan(s);
        if t.kind != ParseKind::Const {
            assert forall|i: int| 0 <= i < t.split.len() implies (#[trigger] t.split[i]).1.len()
                < text.len() by {
                if i < s.split.len() {
                    assert(t.split[i] == s.split[i]);
                }
            }
        }
    }
}

impl ParseState {
    pub fn new() -> (r: Self)
        ensures
            r@ == scan_init(),
    {
        let r = Self {
            split: Vec::new(),
            kind: ParseKind::Const,
            history: String::new(),
            current: String::new(),
            breakchar: '+',
            previous: ' ',
        };
        assert(r@.split =~= Seq::<(char, Seq<char>)>::empty());
        r
    }

    pub fn splits(&self) -> (r: &Vec<(char, String)>)
        ensures
            splits_view(r@) == self@.split,
    {
        &self.split
    }

    pub fn kind(&self) -> (r: ParseKind)
        ensures
            r == self.kind,
    {
        self.kind
    }

    /// Scans a whole text; the first character outside the language is the error.
    pub fn parse_from(text: &str) -> (r: Result<Self, char>)
        ensures
            match scan(text@) {
                Ok(s) => r is Ok && r->Ok_0@ == s,
                Err(c) => r == Err::<Self, char>(c),
            },
    {
        let mut state = Self::new();
        let n = text.unicode_len();
        let mut i: usize = 0;
        while i < n
            invariant
                n == text@.len(),
                i <= n,
                scan_from(scan_init(), text@.take(i as int)) == Ok::<ScanModel, char>(state@),
            decreases n - i,
        {
            let c = text.get_char(i);
            proof {
                let t = text@.take(i + 1);
                assert(t.drop_last() =~= text@.take(i as int));
            }
            match state.next(c) {
                Ok(_) => (),
                Err(_) => {
                    proof {
                        lemma_scan_refused(scan_init(), text@, i as int);
                    }
                    return Err(c);
                },
            }
            i = i + 1;
        }
        assert(text@.take(i as int) =~= text@);
        state.close();
        Ok(state)
    }

    fn start_slice(&mut self, b: char)
        ensures
            final(self)@ == cut(old(self)@, b),
    {
        let ghost before = self@;
        let piece = self.current.clone();
        self.split.push((self.breakchar, piece));
        self.current = String::new();
        self.breakchar = b;
        assert(self@.split =~= before.split.push((before.breakchar, before.current)));
        assert(self@.current =~= Seq::<char>::empty());
    }

    fn start_over(&mut self, k: ParseKind, lead: char, b: char)
        ensures
            final(self)@ == regroup(old(self)@, k, lead, b),
    {
        let whole = self.history.clone();
        self.split = vec![(lead, whole)];
        self.current = String::new();
        self.breakchar = b;
        self.kind = k;
        assert(self@.split =~= seq![(lead, old(self)@.history)]);
        assert(self@.current =~= Seq::<char>::empty());
    }

    /// Reads one character; a character outside the language leaves the state as it was.
    pub fn next(&mut self, c: char) -> (r: Result<(), ()>)
        ensures
            match scan_step(old(self)@, c) {
                Some(t) => r is Ok && final(self)@ == t,
                None => r is Err && final(self)@ == old(self)@,
            },
    {
        let p = self.previous;
        if c == '+' || (c == '-' && !(p == '*' || p == 'x' || p == 'X')) {
            match self.kind {
                ParseKind::Sum => self.start_slice(c),
                _ => {
                    if self.history.as_str().unicode_len() > 0 || c == '+' {
                        self.start_over(ParseKind::Sum, '+', c);
                    } else {
                        self.current = String::new();
                        self.breakchar = c;
                        self.kind = ParseKind::Sum;
                        assert(self@.current =~= Seq::<char>::empty());
                    }
                },
            }
        } else if c == '*' || c == 'x' || c == 'X' {
            match self.kind {
                ParseKind::Sum => push_char(&mut self.current, c),
                ParseKind::Mult => self.start_slice('*'),
                _ => self.start_over(ParseKind::Mult, '*', '*'),
            }
        } else if c == 'd' || c == 'D' {
            match self.kind {
                ParseKind::Sum => push_char(&mut self.current, 'd'),
                ParseKind::Mult => push_char(&mut self.current, 'd'),
                ParseKind::Die => self.start_slice('d'),
                ParseKind::Const => self.start_over(ParseKind::Die, 'd', 'd'),
            }
        } else if ('0' <= c && c <= '9') || c == '-' {
            push_char(&mut self.current, c);
        } else if is_space_char(c) {
            return Ok(());
        } else {
            return Err(());
        }
        self.previous = c;
        push_char(&mut self.history, c);
        Ok(())
    }

    /// The slice being read joins the list.
    pub fn close(&mut self)
        ensures
            final(self)@ == close_scan(old(self)@),
    {
        let piece = self.current.clone();
        self.split.push((self.breakchar, piece));
        assert(self@.split =~= old(self)@.split.push((old(self)@.breakchar, old(self)@.current)));
    }
}

} // verus!
