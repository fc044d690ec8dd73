//! Six ability scores, generated by a named method.
use vstd::multiset::Multiset;
use vstd::prelude::*;

use crate::dice::{min4, Die};
use crate::text::{decimal, push_char, push_int, same_text};

verus! {

broadcast use vstd::seq_lib::group_to_multiset_ensures;

/// A number in a field of two characters, right-aligned.
pub open spec fn field2(n: int) -> Seq<char> {
    if 0 <= n < 10 {
        seq![' '] + decimal(n)
    } else {
        decimal(n)
    }
}

/// Six numbers, each in a field of two, separated by spaces.
pub open spec fn fields_text(nums: Seq<int>) -> Seq<char> {
    field2(nums[0]) + seq![' '] + field2(nums[1]) + seq![' '] + field2(nums[2]) + seq![' ']
        + field2(nums[3]) + seq![' '] + field2(nums[4]) + seq![' '] + field2(nums[5])
}

pub(crate) fn push_field2(s: &mut String, n: i32)
    ensures
        final(s)@ == old(s)@ + field2(n as int),
{
    if 0 <= n && n < 10 {
        push_char(s, ' ');
    }
    push_int(s, n);
    assert(s@ =~= old(s)@ + field2(n as int));
}

pub(crate) fn fields_string(nums: [i32; 6]) -> (r: String)
    ensures
        r@ == fields_text(nums@.map_values(|x: i32| x as int)),
{
    let mut out = String::new();
    let mut i: usize = 0;
    let ghost v = nums@.map_values(|x: i32| x as int);
    while i < 6
        invariant
            i <= 6,
            v == nums@.map_values(|x: i32| x as int),
            i == 0 ==> out@ == Seq::<char>::empty(),
            i == 1 ==> out@ == field2(v[0]),
            i == 2 ==> out@ == field2(v[0]) + seq![' '] + field2(v[1]),
            i == 3 ==> out@ == field2(v[0]) + seq![' '] + field2(v[1]) + seq![' '] + field2(v[2]),
            i == 4 ==> out@ == field2(v[0]) + seq![' '] + field2(v[1]) + seq![' '] + field2(v[2])
                + seq![' '] + field2(v[3]),
            i == 5 ==> out@ == field2(v[0]) + seq![' '] + field2(v[1]) + seq![' '] + field2(v[2])
                + seq![' '] + field2(v[3]) + seq![' '] + field2(v[4]),
            i == 6 ==> out@ == fields_text(v),
        decreases 6 - i,
    {
        let ghost before = out@;
        if i > 0 {
            push_char(&mut out, ' ');
        }
        push_field2(&mut out, nums[i]);
        assert(v[i as int] == nums[i as int] as int);
        proof {
            if i == 0 {
                assert(out@ =~= field2(v[0]));
            } else {
                assert(out@ =~= before + seq![' '] + field2(v[i as int]));
            }
        }
        i = i + 1;
    }
    out
}

/// One roll of 1d20.
pub(crate) fn d20_value() -> (r: i32)
    ensures
        1 <= r <= 20,
{
    let dice = Die::new(1, 20);
    dice.roll().num()
}

/// The sum of four faces without the lowest one.
pub open spec fn best3(f: Seq<int>) -> int {
    f[0] + f[1] + f[2] + f[3] - min4(f[0], f[1], f[2], f[3])
}

/// Four faces of a d6.
pub open spec fn faces_ok(f: Seq<int>) -> bool {
    f.len() == 4 && forall|k: int| 0 <= k < 4 ==> 1 <= #[trigger] f[k] <= 6
}

/// Six times four faces of a d6, one four for each score.
pub open spec fn draws_ok(draws: Seq<Seq<int>>) -> bool {
    draws.len() == 6 && forall|i: int| 0 <= i < 6 ==> faces_ok(#[trigger] draws[i])
}

/// For each score, the best three of its four faces.
pub open spec fn best_threes(draws: Seq<Seq<int>>) -> Seq<int> {
    Seq::new(6, |i: int| best3(draws[i]))
}

/// The scores are, in some order, the best three of four faces of six draws of
/// four d6.
pub open spec fn best_three_scores(nums: Seq<i32>) -> bool {
    exists|draws: Seq<Seq<int>>|
        draws_ok(draws) && nums.to_multiset() == (#[trigger] best_threes(draws)).map_values(
            |v: int| v as i32,
        ).to_multiset()
}

proof fn lemma_best3_range(f: Seq<int>)
    requires
        faces_ok(f),
    ensures
        3 <= best3(f) <= 18,
{
    assert(1 <= f[0] <= 6 && 1 <= f[1] <= 6 && 1 <= f[2] <= 6 && 1 <= f[3] <= 6);
}

/// The lowest of the first `j` faces.
spec fn low_of(f: Seq<i32>, j: int) -> int
    decreases j,
{
    if j <= 1 {
        f[0] as int
    } else if f[j - 1] < low_of(f, j - 1) {
        f[j - 1] as int
    } else {
        low_of(f, j - 1)
    }
}

/// The sum of the first `j` faces.
spec fn sum_of(f: Seq<i32>, j: int) -> int
    decreases j,
{
    if j <= 0 {
        0
    } else {
        sum_of(f, j - 1) + f[j - 1]
    }
}

/// The sum of four faces of a d6 without the lowest one.
pub fn best_three(faces: [i32; 4]) -> (r: i32)
    requires
        forall|k: int| 0 <= k < 4 ==> 1 <= #[trigger] faces[k] <= 6,
    ensures
        r == faces[0] + faces[1] + faces[2] + faces[3] - min4(
            faces[0] as int,
            faces[1] as int,
            faces[2] as int,
            faces[3] as int,
        ),
{
    assert(1 <= faces[0] <= 6 && 1 <= faces[1] <= 6 && 1 <= faces[2] <= 6 && 1 <= faces[3] <= 6);
    let mut sum: i32 = 0;
    let mut min = faces[0];
    let mut j: usize = 1;
    proof {
        reveal_with_fuel(sum_of, 2);
    }
    while j < 4
        invariant
            1 <= j <= 4,
            forall|k: int| 0 <= k < 4 ==> 1 <= #[trigger] faces[k] <= 6,
            1 <= min <= 6,
            min == low_of(faces@, j as int),
            sum + min == sum_of(faces@, j as int),
            sum <= 6 * (j - 1),
        decreases 4 - j,
    {
        let temp = faces[j];
        if temp >= min {
            sum = sum + temp;
        } else {
            sum = sum + min;
            min = temp;
        }
        j = j + 1;
    }
    proof {
        reveal_with_fuel(low_of, 4);
        reveal_with_fuel(sum_of, 5);
    }
    sum
}

/// Four rolls of 1d6.
pub(crate) fn four_faces() -> (r: [i32; 4])
    ensures
        forall|k: int| 0 <= k < 4 ==> 1 <= #[trigger] r[k] <= 6,
{
    let dice = Die::new(1, 6);
    let mut faces: [i32; 4] = [1; 4];
    let mut k: usize = 0;
    while k < 4
        invariant
            k <= 4,
            dice.number == 1,
            dice.sides == 6,
            forall|m: int| 0 <= m < 4 ==> 1 <= #[trigger] faces[m] <= 6,
        decreases 4 - k,
    {
        faces[k] = dice.roll().num();
        k = k + 1;
    }
    faces
}

/// The faces of six draws of four d6, as numbers.
pub open spec fn draws_of(faces: [[i32; 4]; 6]) -> Seq<Seq<int>> {
    Seq::new(6, |i: int| Seq::new(4, |k: int| faces@[i]@[k] as int))
}

/// For each of six draws of four d6, the best three faces summed, in draw order.
pub(crate) fn best_three_each(faces: [[i32; 4]; 6]) -> (r: [i32; 6])
    requires
        draws_ok(draws_of(faces)),
    ensures
        r@ == best_threes(draws_of(faces)).map_values(|v: int| v as i32),
        all_within(r@, 3, 18),
{
    let ghost d = draws_of(faces);
    let mut out: [i32; 6] = [3; 6];
    let mut i: usize = 0;
    while i < 6
        invariant
            i <= 6,
            d == draws_of(faces),
            draws_ok(d),
            forall|k: int| 0 <= k < i ==> out@[k] == best3(#[trigger] d[k]),
            all_within(out@, 3, 18),
        decreases 6 - i,
    {
        let f = faces[i];
        assert(faces_ok(d[i as int]));
        assert forall|k: int| 0 <= k < 4 implies 1 <= #[trigger] f[k] <= 6 by {
            assert(d[i as int][k] == f@[k] as int);
        }
        let v = best_three(f);
        proof {
            assert(d[i as int] =~= seq![f[0] as int, f[1] as int, f[2] as int, f[3] as int]);
            lemma_best3_range(d[i as int]);
        }
        out[i] = v;
        i = i + 1;
    }
    assert(out@ =~= best_threes(d).map_values(|v: int| v as i32));
    out
}

/// Which preset a method names.
pub ghost enum Method {
    Standard,
    D20,
    FourD6,
}

/// `std` and `standard` name the standard array, `d20` and `1d20` one d20 per
/// score, `4d6` and `3d6` the best three of four d6 per score.
pub open spec fn method_of(m: Seq<char>) -> Option<Method> {
    if m == "std"@ || m == "standard"@ {
        Some(Method::Standard)
    } else if m == "d20"@ || m == "1d20"@ {
        Some(Method::D20)
    } else if m == "4d6"@ || m == "3d6"@ {
        Some(Method::FourD6)
    } else {
        None
    }
}

pub(crate) fn method(m: &str) -> (r: u8)
    ensures
        r == match method_of(m@) {
            Some(Method::Standard) => 0u8,
            Some(Method::D20) => 1u8,
            Some(Method::FourD6) => 2u8,
            None => 3u8,
        },
{
    if same_text(m, "std") || same_text(m, "standard") {
        0
    } else if same_text(m, "d20") || same_text(m, "1d20") {
        1
    } else if same_text(m, "4d6") || same_text(m, "3d6") {
        2
    } else {
        3
    }
}

pub open spec fn all_within(nums: Seq<i32>, lo: int, hi: int) -> bool {
    forall|i: int| 0 <= i < nums.len() ==> lo <= #[trigger] nums[i] <= hi
}

pub open spec fn high_first(s: Seq<i32>) -> bool {
    forall|i: int, j: int| 0 <= i < j < s.len() ==> s[i] >= s[j]
}

/// What lies in a range for every member of a sequence does for a permutation of it.
proof fn lemma_permutation_within(a: Seq<i32>, b: Seq<i32>, lo: int, hi: int)
    requires
        a.to_multiset() == b.to_multiset(),
        all_within(a, lo, hi),
    ensures
        all_within(b, lo, hi),
{
    assert forall|i: int| 0 <= i < b.len() implies lo <= #[trigger] b[i] <= hi by {
        assert(b.contains(b[i]));
        assert(a.to_multiset().count(b[i]) > 0);
        assert(a.contains(b[i]));
    }
}

/// Six ability scores, highest first.
#[derive(Debug)]
pub struct Stats {
    pub nums: [i32; 6],
}

impl Stats {
    /// Scores by the method that `m` names; `Err` for a name of none.
    pub fn new(m: &str) -> (r: Result<Self, ()>)
        ensures
            match method_of(m@) {
                Some(Method::Standard) => r is Ok && r->Ok_0.nums@ == seq![15i32, 14, 13, 12, 10, 8],
                Some(Method::D20) => r is Ok && high_first(r->Ok_0.nums@) && all_within(r->Ok_0.nums@, 1, 20),
                Some(Method::FourD6) => r is Ok && high_first(r->Ok_0.nums@) && all_within(r->Ok_0.nums@, 3, 18)
                    && best_three_scores(r->Ok_0.nums@),
                None => r is Err,
            },
    {
        let k = method(m);
        if k == 0 {
            Ok(Self::standard())
        } else if k == 1 {
            Ok(Self::d20())
        } else if k == 2 {
            Ok(Self::lowest3_4d6())
        } else {
            Err(())
        }
    }

    /// The scores sorted highest first; each must lie in `1..=30`.
    fn from(nums_array: [i32; 6]) -> (r: Self)
        requires
            all_within(nums_array@, 1, 30),
        ensures
            high_first(r.nums@),
            r.nums@.to_multiset() == nums_array@.to_multiset(),
    {
        let mut rest: Vec<i32> = Vec::new();
        let mut i: usize = 0;
        while i < 6
            invariant
                i <= 6,
                rest@ == nums_array@.take(i as int),
            decreases 6 - i,
        {
            rest.push(nums_array[i]);
            assert(rest@ =~= nums_array@.take(i + 1));
            i = i + 1;
        }
        assert(rest@ =~= nums_array@);
        let mut out: Vec<i32> = Vec::new();
        while rest.len() > 0
            invariant
                out@.len() + rest@.len() == 6,
                out@.to_multiset().add(rest@.to_multiset()) == nums_array@.to_multiset(),
                high_first(out@),
                forall|a: int, b: int| 0 <= a < out@.len() && 0 <= b < rest@.len() ==> out@[a] >= rest@[b],
            decreases rest@.len(),
        {
            let mut best: usize = 0;
            let mut j: usize = 1;
            while j < rest.len()
                invariant
                    best < rest@.len(),
                    1 <= j <= rest@.len(),
                    forall|b: int| 0 <= b < j ==> rest@[best as int] >= rest@[b],
                decreases rest@.len() - j,
            {
                if rest[j] > rest[best] {
                    best = j;
                }
                j = j + 1;
            }
            let ghost r0 = rest@;
            let ghost o0 = out@;
            let x = rest.remove(best);
            out.push(x);
            proof {
                assert(r0.remove(best as int).to_multiset() =~= r0.to_multiset().remove(x));
                assert(out@.to_multiset() =~= o0.to_multiset().insert(x));
                assert(out@.to_multiset().add(rest@.to_multiset()) =~= nums_array@.to_multiset());
                assert forall|a: int, b: int| 0 <= a < out@.len() && 0 <= b < rest@.len() implies out@[a]
                    >= rest@[b] by {
                    let k = if b < best { b } else { b + 1 };
                    assert(rest@[b] == r0[k]);
                }
            }
        }
        assert(rest@.to_multiset() =~= Multiset::<i32>::empty());
        let mut nums: [i32; 6] = [0; 6];
        let mut k: usize = 0;
        while k < 6
            invariant
                k <= 6,
                out@.len() == 6,
                forall|m: int| 0 <= m < k ==> nums@[m] == out@[m],
            decreases 6 - k,
        {
            nums[k] = out[k];
            k = k + 1;
        }
        assert(nums@ =~= out@);
        Self { nums }
    }

    /// The standard array: 15, 14, 13, 12, 10, 8.
    pub fn standard() -> (r: Self)
        ensures
            r.nums@ == seq![15i32, 14, 13, 12, 10, 8],
    {
        let a: [i32; 6] = [15, 14, 13, 12, 10, 8];
        assert(a@ =~= seq![15i32, 14, 13, 12, 10, 8]);
        Self { nums: a }
    }

    /// One d20 for each score, highest first.
    pub fn d20() -> (r: Self)
        ensures
            high_first(r.nums@),
            all_within(r.nums@, 1, 20),
    {
        let mut stats: [i32; 6] = [1; 6];
        let mut i: usize = 0;
        while i < 6
            invariant
                i <= 6,
                all_within(stats@, 1, 20),
            decreases 6 - i,
        {
            stats[i] = d20_value();
            i = i + 1;
        }
        let r = Self::from(stats);
        proof {
            lemma_permutation_within(stats@, r.nums@, 1, 20);
        }
        r
    }

    /// The scores of six draws of four d6: for each, the best three faces summed;
    /// highest first.
    pub fn from_draws(faces: [[i32; 4]; 6]) -> (r: Self)
        requires
            draws_ok(draws_of(faces)),
        ensures
            high_first(r.nums@),
            r.nums@.to_multiset() == best_threes(draws_of(faces)).map_values(|v: int| v as i32).to_multiset(),
            all_within(r.nums@, 3, 18),
    {
        let sums = best_three_each(faces);
        let r = Self::from(sums);
        proof {
            lemma_permutation_within(sums@, r.nums@, 3, 18);
        }
        r
    }

    /// For each score, the best three of four d6; highest first.
    pub fn lowest3_4d6() -> (r: Self)
        ensures
            high_first(r.nums@),
            all_within(r.nums@, 3, 18),
            best_three_scores(r.nums@),
    {
        let mut faces: [[i32; 4]; 6] = [[1; 4]; 6];
        let mut i: usize = 0;
        while i < 6
            invariant
                i <= 6,
                forall|j: int, k: int| 0 <= j < 6 && 0 <= k < 4 ==> 1 <= #[trigger] faces@[j]@[k] <= 6,
            decreases 6 - i,
        {
            faces[i] = four_faces();
            i = i + 1;
        }
        assert(draws_ok(draws_of(faces))) by {
            assert forall|j: int| 0 <= j < 6 implies faces_ok(#[trigger] draws_of(faces)[j]) by {
                assert forall|k: int| 0 <= k < 4 implies 1 <= #[trigger] draws_of(faces)[j][k] <= 6 by {
                    assert(draws_of(faces)[j][k] == faces@[j]@[k] as int);
                }
            }
        }
        Self::from_draws(faces)
    }

    /// The scores, each in a field of two, separated by spaces.
    pub fn to_string(&self) -> (r: String)
        ensures
            r@ == fields_text(self.nums@.map_values(|x: i32| x as int)),
    {
        fields_string(self.nums)
    }
}

} // verus!
