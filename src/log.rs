//! What a roll produced: the value, and the faces drawn for each group of dice.
use vstd::prelude::*;

use crate::text::{decimal, int_text, push_int, push_char};

verus! {

/// The faces drawn for one group of dice, each in `1..=size`.
#[derive(Debug)]
pub struct RollLog {
    pub size: i32,
    pub rolls: Vec<i32>,
}

impl View for RollLog {
    type V = (i32, Seq<i32>);

    open spec fn view(&self) -> (i32, Seq<i32>) {
        (self.size, self.rolls@)
    }
}

/// Every face in range for a die of `log.0` sides.
pub open spec fn log_wf(log: (i32, Seq<i32>)) -> bool {
    &&& log.0 >= 1
    &&& forall|j: int| 0 <= j < log.1.len() ==> 1 <= #[trigger] log.1[j] <= log.0
}

/// The faces, each followed by a space: `2 5 `.
pub open spec fn rolls_text(rolls: Seq<i32>) -> Seq<char>
    decreases rolls.len(),
{
    if rolls.len() == 0 {
        Seq::empty()
    } else {
        rolls_text(rolls.drop_last()) + decimal(rolls.last() as int) + seq![' ']
    }
}

/// Each log as `| d<size>: <faces>`, in order.
pub open spec fn sized_logs_text(logs: Seq<(i32, Seq<i32>)>) -> Seq<char>
    decreases logs.len(),
{
    if logs.len() == 0 {
        Seq::empty()
    } else {
        sized_logs_text(logs.drop_last()) + seq!['|', ' ', 'd'] + decimal(logs.last().0 as int)
            + seq![':', ' '] + rolls_text(logs.last().1)
    }
}

/// A single log as `| <faces>`; several with their sizes.
pub open spec fn log_text(logs: Seq<(i32, Seq<i32>)>) -> Seq<char> {
    if logs.len() == 1 {
        seq!['|', ' '] + rolls_text(logs[0].1)
    } else {
        sized_logs_text(logs)
    }
}

pub open spec fn logs_view(logs: Seq<RollLog>) -> Seq<(i32, Seq<i32>)> {
    logs.map_values(|l: RollLog| l@)
}

impl RollLog {
    pub open spec fn wf(&self) -> bool {
        log_wf(self@)
    }

    /// An empty log for dice of `s` sides.
    pub fn new(s: i32) -> (r: Self)
        requires
            s >= 1,
        ensures
            r@ == (s, Seq::<i32>::empty()),
            r.wf(),
    {
        Self { size: s, rolls: Vec::new() }
    }

    pub fn size(&self) -> (r: i32)
        ensures
            r == self.size,
    {
        self.size
    }

    /// Records one face; a face outside `1..=size` is a caller's error.
    pub fn log(&mut self, s: i32)
        requires
            1 <= s <= old(self).size,
        ensures
            final(self)@ == (old(self).size, old(self).rolls@.push(s)),
            old(self).wf() ==> final(self).wf(),
    {
        self.rolls.push(s);
        proof {
            if old(self).wf() {
                assert forall|j: int| 0 <= j < self.rolls@.len() implies 1 <= #[trigger] self.rolls@[j]
                    <= self.size by {
                    if j < old(self).rolls@.len() {
                        assert(self.rolls@[j] == old(self)@.1[j]);
                        assert(1 <= old(self)@.1[j] <= old(self)@.0);
                    }
                }
            }
        }
    }

    /// The faces, each followed by a space.
    pub fn to_string(&self) -> (r: String)
        ensures
            r@ == rolls_text(self.rolls@),
    {
        let mut out = String::new();
        let mut i: usize = 0;
        while i < self.rolls.len()
            invariant
                i <= self.rolls@.len(),
                out@ == rolls_text(self.rolls@.take(i as int)),
            decreases self.rolls@.len() - i,
        {
            push_int(&mut out, self.rolls[i]);
            push_char(&mut out, ' ');
            proof {
                let t = self.rolls@.take(i + 1);
                assert(t.drop_last() =~= self.rolls@.take(i as int));
                assert(out@ =~= rolls_text(t));
            }
            i = i + 1;
        }
        assert(self.rolls@.take(i as int) =~= self.rolls@);
        out
    }
}

impl Clone for RollLog {
    fn clone(&self) -> (r: Self)
        ensures
            r@ == self@,
    {
        let mut fin = Self { size: self.size, rolls: Vec::new() };
        let mut i: usize = 0;
        while i < self.rolls.len()
            invariant
                i <= self.rolls@.len(),
                fin.size == self.size,
                fin.rolls@ == self.rolls@.take(i as int),
            decreases self.rolls@.len() - i,
        {
            fin.rolls.push(self.rolls[i]);
            assert(fin.rolls@ =~= self.rolls@.take(i + 1));
            i = i + 1;
        }
        assert(self.rolls@.take(i as int) =~= self.rolls@);
        fin
    }
}

/// The value of a roll and the logs of every group of dice that it rolled.
#[derive(Debug)]
pub struct DiceRoll {
    pub rolled: i32,
    pub log: Vec<RollLog>,
}

impl View for DiceRoll {
    type V = (i32, Seq<(i32, Seq<i32>)>);

    open spec fn view(&self) -> (i32, Seq<(i32, Seq<i32>)>) {
        (self.rolled, logs_view(self.log@))
    }
}

pub open spec fn in_i32(v: int) -> bool {
    i32::MIN <= v <= i32::MAX
}

impl DiceRoll {
    /// A value with no logs.
    pub fn new(x: i32) -> (r: DiceRoll)
        ensures
            r@ == (x, Seq::<(i32, Seq<i32>)>::empty()),
    {
        let r = DiceRoll { rolled: x, log: Vec::new() };
        assert(r@.1 =~= Seq::<(i32, Seq<i32>)>::empty());
        r
    }

    /// A value with the log of one group of dice.
    pub fn new_roll(x: i32, roll: RollLog) -> (r: DiceRoll)
        ensures
            r@ == (x, seq![roll@]),
    {
        let r = DiceRoll { rolled: x, log: vec![roll] };
        assert(r@.1 =~= seq![roll@]);
        r
    }

    pub fn num(&self) -> (r: i32)
        ensures
            r == self.rolled,
    {
        self.rolled
    }

    /// The faces of every log: `| 2 5 ` for one log, `| d8: 7 3 | d4: 2 ` for several.
    pub fn full_log(&self) -> (r: String)
        ensures
            r@ == log_text(self@.1),
    {
        let mut result = String::new();
        if self.log.len() == 1 {
            push_char(&mut result, '|');
            push_char(&mut result, ' ');
            let rolls = self.log[0].to_string();
            result.append(rolls.as_str());
            assert(result@ =~= log_text(self@.1));
        } else {
            let mut i: usize = 0;
            while i < self.log.len()
                invariant
                    i <= self.log@.len(),
                    result@ == sized_logs_text(self@.1.take(i as int)),
                decreases self.log@.len() - i,
            {
                let l = &self.log[i];
                push_char(&mut result, '|');
                push_char(&mut result, ' ');
                push_char(&mut result, 'd');
                push_int(&mut result, l.size());
                push_char(&mut result, ':');
                push_char(&mut result, ' ');
                let rolls = l.to_string();
                result.append(rolls.as_str());
                proof {
                    let t = self@.1.take(i + 1);
                    assert(t.drop_last() =~= self@.1.take(i as int));
                    assert(t.last() == l@);
                    assert(result@ =~= sized_logs_text(t));
                }
                i = i + 1;
            }
            assert(self@.1.take(i as int) =~= self@.1);
        }
        result
    }

    /// Appends copies of the other roll's logs; the value stays.
    pub fn join(&mut self, other: &DiceRoll)
        ensures
            final(self).rolled == old(self).rolled,
            final(self)@.1 == old(self)@.1 + other@.1,
    {
        let mut i: usize = 0;
        while i < other.log.len()
            invariant
                i <= other.log@.len(),
                self.rolled == old(self).rolled,
                self@.1 == old(self)@.1 + other@.1.take(i as int),
            decreases other.log@.len() - i,
        {
            let c = other.log[i].clone();
            let ghost before = self@.1;
            self.log.push(c);
            assert(self@.1 =~= before.push(c@));
            assert(other@.1.take(i + 1) =~= other@.1.take(i as int).push(other@.1[i as int]));
            assert(self@.1 =~= old(self)@.1 + other@.1.take(i + 1));
            i = i + 1;
        }
        assert(other@.1.take(i as int) =~= other@.1);
    }

    pub fn add(&mut self, other: &DiceRoll)
        requires
            in_i32(old(self).rolled + other.rolled),
        ensures
            final(self).rolled == old(self).rolled + other.rolled,
            final(self)@.1 == old(self)@.1 + other@.1,
    {
        self.rolled = self.rolled + other.rolled;
        self.join(other);
    }

    pub fn sub(&mut self, other: &DiceRoll)
        requires
            in_i32(old(self).rolled - other.rolled),
        ensures
            final(self).rolled == old(self).rolled - other.rolled,
            final(self)@.1 == old(self)@.1 + other@.1,
    {
        self.rolled = self.rolled - other.rolled;
        self.join(other);
    }

    pub fn mult(&mut self, other: &DiceRoll)
        requires
            in_i32(old(self).rolled * other.rolled),
        ensures
            final(self).rolled == old(self).rolled * other.rolled,
            final(self)@.1 == old(self)@.1 + other@.1,
    {
        self.rolled = self.rolled * other.rolled;
        self.join(other);
    }

    /// Negates the value, then multiplies it by the other's.
    pub fn mult_neg(&mut self, other: &DiceRoll)
        requires
            in_i32(-old(self).rolled),
            in_i32(-old(self).rolled * other.rolled),
        ensures
            final(self).rolled == -old(self).rolled * other.rolled,
            final(self)@.1 == old(self)@.1 + other@.1,
    {
        self.rolled = 0 - self.rolled;
        self.mult(other);
    }

    /// The value in decimal.
    pub fn to_string(&self) -> (r: String)
        ensures
            r@ == decimal(self.rolled as int),
    {
        int_text(self.rolled)
    }
}

} // verus!
