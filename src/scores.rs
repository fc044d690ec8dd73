//! Six ability scores, highest first, generated by a named method.
use vstd::multiset::Multiset;
use vstd::prelude::*;

use crate::stats::{
    best_three_each, best_threes, d20_value, draws_of, draws_ok, faces_ok, fields_string, fields_text,
    four_faces,
    method, method_of, Method,
};

verus! {

broadcast use vstd::seq_lib::group_to_multiset_ensures;

pub open spec fn sorted_desc(s: Seq<u8>) -> bool {
    forall|i: int, j: int| 0 <= i < j < s.len() ==> s[i] >= s[j]
}

pub open spec fn all_in(s: Seq<u8>, lo: int, hi: int) -> bool {
    forall|i: int| 0 <= i < s.len() ==> lo <= #[trigger] s[i] <= hi
}

/// The scores are, in some order, the best three of four faces of six draws of
/// four d6.
pub open spec fn best_three_preset(nums: Seq<u8>) -> bool {
    exists|draws: Seq<Seq<int>>|
        draws_ok(draws) && nums.to_multiset() == (#[trigger] best_threes(draws)).map_values(
            |v: int| v as u8,
        ).to_multiset()
}

/// What holds of every member of a sequence holds of every member of a permutation of it.
proof fn lemma_permutation_in(a: Seq<u8>, b: Seq<u8>, lo: int, hi: int)
    requires
        a.to_multiset() == b.to_multiset(),
        all_in(a, lo, hi),
    ensures
        all_in(b, lo, hi),
{
    assert forall|i: int| 0 <= i < b.len() implies lo <= #[trigger] b[i] <= hi by {
        assert(b.contains(b[i]));
        assert(a.to_multiset().count(b[i]) > 0);
        assert(a.contains(b[i]));
    }
}

/// Six ability scores, highest first.
#[derive(Debug)]
pub struct Scores {
    pub nums: [u8; 6],
}

impl Scores {
    /// The scores sorted highest first; each must lie in `1..=30`.
    fn new(nums_array: [u8; 6]) -> (r: Self)
        requires
            all_in(nums_array@, 1, 30),
        ensures
            sorted_desc(r.nums@),
            r.nums@.to_multiset() == nums_array@.to_multiset(),
    {
        let mut rest: Vec<u8> = Vec::new();
        let mut i: usize = 0;
        while i < 6
            invariant
                i <= 6,
                rest@ == nums_array@.take(i as int),
            decreases 6 - i,
        {
            rest.push(nums_array[i]);
            assert(rest@ =~= nums_array@.take(i + 1));
            i = i + 1;
        }
        assert(rest@ =~= nums_array@);
        let mut out: Vec<u8> = Vec::new();
        while rest.len() > 0
            invariant
                out@.len() + rest@.len() == 6,
                out@.to_multiset().add(rest@.to_multiset()) == nums_array@.to_multiset(),
                sorted_desc(out@),
                forall|a: int, b: int| 0 <= a < out@.len() && 0 <= b < rest@.len() ==> out@[a] >= rest@[b],
            decreases rest@.len(),
        {
            let mut best: usize = 0;
            let mut j: usize = 1;
            while j < rest.len()
                invariant
                    best < rest@.len(),
                    1 <= j <= rest@.len(),
                    forall|b: int| 0 <= b < j ==> rest@[best as int] >= rest@[b],
                decreases rest@.len() - j,
            {
                if rest[j] > rest[best] {
                    best = j;
                }
                j = j + 1;
            }
            let ghost r0 = rest@;
            let ghost o0 = out@;
            let x = rest.remove(best);
            out.push(x);
            proof {
                assert(r0.remove(best as int).to_multiset() =~= r0.to_multiset().remove(x));
                assert(out@.to_multiset() =~= o0.to_multiset().insert(x));
                assert(out@.to_multiset().add(rest@.to_multiset()) =~= nums_array@.to_multiset());
                assert forall|a: int, b: int| 0 <= a < out@.len() && 0 <= b < rest@.len() implies out@[a]
                    >= rest@[b] by {
                    let k = if b < best { b } else { b + 1 };
                    assert(rest@[b] == r0[k]);
                }
            }
        }
        assert(rest@.to_multiset() =~= Multiset::<u8>::empty());
        let mut nums: [u8; 6] = [0; 6];
        let mut k: usize = 0;
        while k < 6
            invariant
                k <= 6,
                out@.len() == 6,
                forall|m: int| 0 <= m < k ==> nums@[m] == out@[m],
            decreases 6 - k,
        {
            nums[k] = out[k];
            k = k + 1;
        }
        assert(nums@ =~= out@);
        Self { nums }
    }

    /// Scores by the method that `method_name` names; `Err` for a name of none.
    pub fn from(method_name: &str) -> (r: Result<Self, ()>)
        ensures
            match method_of(method_name@) {
                Some(Method::Standard) => r is Ok && r->Ok_0.nums@ == seq![15u8, 14, 13, 12, 10, 8],
                Some(Method::D20) => r is Ok && sorted_desc(r->Ok_0.nums@) && all_in(r->Ok_0.nums@, 1, 20),
                Some(Method::FourD6) => r is Ok && sorted_desc(r->Ok_0.nums@) && all_in(r->Ok_0.nums@, 3, 18)
                    && best_three_preset(r->Ok_0.nums@),
                None => r is Err,
            },
    {
        let k = method(method_name);
        if k == 0 {
            Ok(Self::standard())
        } else if k == 1 {
            Ok(Self::d20())
        } else if k == 2 {
            Ok(Self::lowest3_4d6())
        } else {
            Err(())
        }
    }

    /// The standard array: 15, 14, 13, 12, 10, 8.
    pub fn standard() -> (r: Self)
        ensures
            r.nums@ == seq![15u8, 14, 13, 12, 10, 8],
    {
        let a: [u8; 6] = [15, 14, 13, 12, 10, 8];
        Self { nums: a }
    }

    /// One d20 for each score.
    pub fn d20() -> (r: Self)
        ensures
            sorted_desc(r.nums@),
            all_in(r.nums@, 1, 20),
    {
        let mut stats: [u8; 6] = [1; 6];
        let mut i: usize = 0;
        while i < 6
            invariant
                i <= 6,
                all_in(stats@, 1, 20),
            decreases 6 - i,
        {
            stats[i] = d20_value() as u8;
            i = i + 1;
        }
        let r = Self::new(stats);
        proof {
            lemma_permutation_in(stats@, r.nums@, 1, 20);
        }
        r
    }

    /// The scores of six draws of four d6: for each, the best three faces summed;
    /// highest first.
    pub fn from_draws(faces: [[i32; 4]; 6]) -> (r: Self)
        requires
            draws_ok(draws_of(faces)),
        ensures
            sorted_desc(r.nums@),
            r.nums@.to_multiset() == best_threes(draws_of(faces)).map_values(|v: int| v as u8).to_multiset(),
            all_in(r.nums@, 3, 18),
    {
        let sums = best_three_each(faces);
        let mut small: [u8; 6] = [3; 6];
        let mut i: usize = 0;
        while i < 6
            invariant
                i <= 6,
                forall|k: int| 0 <= k < 6 ==> 3 <= #[trigger] sums@[k] <= 18,
                forall|k: int| 0 <= k < i ==> small@[k] == sums@[k] as u8,
                all_in(small@, 3, 18),
            decreases 6 - i,
        {
            small[i] = sums[i] as u8;
            i = i + 1;
        }
        assert(small@ =~= best_threes(draws_of(faces)).map_values(|v: int| v as u8)) by {
            assert forall|k: int| 0 <= k < 6 implies small@[k] == best_threes(draws_of(faces)).map_values(|v: int| v as u8)[k] by {
                assert(sums@[k] == best_threes(draws_of(faces)).map_values(|v: int| v as i32)[k]);
            }
        }
        let r = Self::new(small);
        proof {
            lemma_permutation_in(small@, r.nums@, 3, 18);
        }
        r
    }

    /// For each score, the best three of four d6.
    pub fn lowest3_4d6() -> (r: Self)
        ensures
            sorted_desc(r.nums@),
            all_in(r.nums@, 3, 18),
            best_three_preset(r.nums@),
    {
        let mut faces: [[i32; 4]; 6] = [[1; 4]; 6];
        let mut i: usize = 0;
        while i < 6
            invariant
                i <= 6,
                forall|j: int, k: int| 0 <= j < 6 && 0 <= k < 4 ==> 1 <= #[trigger] faces@[j]@[k] <= 6,
            decreases 6 - i,
        {
            faces[i] = four_faces();
            i = i + 1;
        }
        assert(draws_ok(draws_of(faces))) by {
            assert forall|j: int| 0 <= j < 6 implies faces_ok(#[trigger] draws_of(faces)[j]) by {
                assert forall|k: int| 0 <= k < 4 implies 1 <= #[trigger] draws_of(faces)[j][k] <= 6 by {
                    assert(draws_of(faces)[j][k] == faces@[j]@[k] as int);
                }
            }
        }
        Self::from_draws(faces)
    }

    /// The scores, each in a field of two, separated by spaces.
    pub fn to_string(&self) -> (r: String)
        ensures
            r@ == fields_text(self.nums@.map_values(|x: u8| x as int)),
    {
        let wide: [i32; 6] = [
            self.nums[0] as i32,
            self.nums[1] as i32,
            self.nums[2] as i32,
            self.nums[3] as i32,
            self.nums[4] as i32,
            self.nums[5] as i32,
        ];
        let r = fields_string(wide);
        assert(wide@.map_values(|x: i32| x as int) =~= self.nums@.map_values(|x: u8| x as int));
        r
    }
}

} // verus!
