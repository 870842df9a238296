//! Battle-cost tallies: each enemy kind has a base cost, and enemies
//! fighting in pairs or trios cost extra, with `x` marking an empty slot.

use vstd::prelude::*;
use vstd::string::{StrSliceExecFns, StringSliceAdditionalSpecFns};

use itertools::Itertools;

use crate::text::{trim_bytes, trim_spec};

verus! {

/// Base cost of one enemy letter; anything unknown costs nothing.
pub open spec fn enemy_cost_spec(c: u8) -> u64 {
    if c == 65 {
        0
    } else if c == 66 {
        1
    } else if c == 67 {
        3
    } else if c == 68 {
        5
    } else {
        0
    }
}

/// Base cost of one enemy letter (`A`, `B`, `C` or `D`).
pub fn enemy_cost(c: u8) -> (r: u64)
    ensures
        r == enemy_cost_spec(c),
{
    if c == 65 {
        0
    } else if c == 66 {
        1
    } else if c == 67 {
        3
    } else if c == 68 {
        5
    } else {
        0
    }
}

/// Sum of base costs over a string of enemies.
pub open spec fn cost_sum(s: Seq<u8>) -> int
    decreases s.len(),
{
    if s.len() == 0 {
        0
    } else {
        cost_sum(s.drop_last()) + enemy_cost_spec(s.last())
    }
}

/// Cost of a pair fighting together: both base costs, plus 2 unless a slot
/// is empty.
pub open spec fn p2_cost_spec(l: u8, r: u8) -> u64 {
    let grouped: u64 = if l == 120 || r == 120 {
        0
    } else {
        2
    };
    (enemy_cost_spec(l) + enemy_cost_spec(r) + grouped) as u64
}

/// Cost of a pair fighting together.
pub fn p2_cost(l: u8, r: u8) -> (res: u64)
    ensures
        res == p2_cost_spec(l, r),
{
    let grouped: u64 = if l == 120 || r == 120 {
        0
    } else {
        2
    };
    enemy_cost(l) + enemy_cost(r) + grouped
}

/// Cost of a trio fighting together: base costs, plus 6 when all three
/// slots are filled, 2 when exactly two are.
pub open spec fn p3_cost_spec(l: u8, m: u8, r: u8) -> u64 {
    let xs = (if l == 120 {
        1int
    } else {
        0int
    }) + (if m == 120 {
        1int
    } else {
        0int
    }) + (if r == 120 {
        1int
    } else {
        0int
    });
    let grouped: u64 = if xs == 2 {
        0
    } else if xs == 1 {
        2
    } else if xs == 0 {
        6
    } else {
        0
    };
    (enemy_cost_spec(l) + enemy_cost_spec(m) + enemy_cost_spec(r) + grouped) as u64
}

/// Cost of a trio fighting together.
pub fn p3_cost(l: u8, m: u8, r: u8) -> (res: u64)
    ensures
        res == p3_cost_spec(l, m, r),
{
    let mut xs: u64 = 0;
    if l == 120 {
        xs = xs + 1;
    }
    if m == 120 {
        xs = xs + 1;
    }
    if r == 120 {
        xs = xs + 1;
    }
    let grouped: u64 = if xs == 2 {
        0
    } else if xs == 1 {
        2
    } else if xs == 0 {
        6
    } else {
        0
    };
    enemy_cost(l) + enemy_cost(m) + enemy_cost(r) + grouped
}

/// Sum of pair costs over consecutive non-overlapping pairs.
pub open spec fn pair_cost_sum(s: Seq<(u8, u8)>) -> int
    decreases s.len(),
{
    if s.len() == 0 {
        0
    } else {
        pair_cost_sum(s.drop_last()) + p2_cost_spec(s.last().0, s.last().1)
    }
}

/// Sum of trio costs over consecutive non-overlapping trios.
pub open spec fn trio_cost_sum(s: Seq<(u8, u8, u8)>) -> int
    decreases s.len(),
{
    if s.len() == 0 {
        0
    } else {
        trio_cost_sum(s.drop_last()) + p3_cost_spec(s.last().0, s.last().1, s.last().2)
    }
}

/// Relies on `Itertools::tuples`: consecutive non-overlapping pairs, with a
/// trailing leftover element dropped.
#[verifier::external_body]
fn byte_pairs(s: &Vec<u8>) -> (r: Vec<(u8, u8)>)
    ensures
        r@.len() == s@.len() / 2,
        forall|i: int| 0 <= i < r@.len() ==> #[trigger] r@[i] == (s@[2 * i], s@[2 * i + 1]),
{
    s.iter().copied().tuples().collect()
}

/// Relies on `Itertools::tuples`: consecutive non-overlapping trios, with
/// trailing leftover elements dropped.
#[verifier::external_body]
fn byte_trios(s: &Vec<u8>) -> (r: Vec<(u8, u8, u8)>)
    ensures
        r@.len() == s@.len() / 3,
        forall|i: int|
            0 <= i < r@.len() ==> #[trigger] r@[i] == (s@[3 * i], s@[3 * i + 1], s@[3 * i + 2]),
{
    s.iter().copied().tuples().collect()
}

/// The trimmed input for part one.
pub fn parse_input1(input: &str) -> (r: Vec<u8>)
    ensures
        r@ == trim_spec(input.spec_bytes()),
{
    let bytes = input.as_bytes_vec();
    trim_bytes(&bytes)
}

/// The trimmed input for part two.
pub fn parse_input2(input: &str) -> (r: Vec<u8>)
    ensures
        r@ == trim_spec(input.spec_bytes()),
{
    let bytes = input.as_bytes_vec();
    trim_bytes(&bytes)
}

/// The trimmed input for part three.
pub fn parse_input3(input: &str) -> (r: Vec<u8>)
    ensures
        r@ == trim_spec(input.spec_bytes()),
{
    let bytes = input.as_bytes_vec();
    trim_bytes(&bytes)
}

/// Total base cost of every enemy, one by one.
pub fn p1(input: &Vec<u8>) -> (r: u64)
    requires
        input@.len() < 0x1000_0000_0000_0000,
    ensures
        r == cost_sum(input@),
{
    let mut total: u64 = 0;
    let mut i: usize = 0;
    while i < input.len()
        invariant
            i <= input@.len(),
            input@.len() < 0x1000_0000_0000_0000,
            total == cost_sum(input@.take(i as int)),
            total <= 5 * i,
        decreases input@.len() - i,
    {
        proof {
            assert(input@.take(i + 1).drop_last() =~= input@.take(i as int));
        }
        total = total + enemy_cost(input[i]);
        i = i + 1;
    }
    proof {
        assert(input@.take(input@.len() as int) =~= input@);
    }
    total
}

/// Total cost with enemies grouped in pairs.
pub fn p2(input: &Vec<u8>) -> (r: u64)
    requires
        input@.len() < 0x1000_0000_0000_0000,
    ensures
        ({
            let pairs = Seq::new(input@.len() / 2, |i: int| (input@[2 * i], input@[2 * i + 1]));
            r == pair_cost_sum(pairs)
        }),
{
    let pairs = byte_pairs(input);
    let ghost pseq = Seq::new(input@.len() / 2, |i: int| (input@[2 * i], input@[2 * i + 1]));
    proof {
        assert(pairs@ =~= pseq);
    }
    let mut total: u64 = 0;
    let mut i: usize = 0;
    while i < pairs.len()
        invariant
            i <= pairs@.len(),
            pairs@.len() < 0x1000_0000_0000_0000,
            total == pair_cost_sum(pairs@.take(i as int)),
            total <= 12 * i,
        decreases pairs@.len() - i,
    {
        proof {
            assert(pairs@.take(i + 1).drop_last() =~= pairs@.take(i as int));
        }
        let (l, r) = pairs[i];
        total = total + p2_cost(l, r);
        i = i + 1;
    }
    proof {
        assert(pairs@.take(pairs@.len() as int) =~= pairs@);
    }
    total
}

/// Total cost with enemies grouped in trios.
pub fn p3(input: &Vec<u8>) -> (r: u64)
    requires
        input@.len() < 0x0400_0000_0000_0000,
    ensures
        ({
            let trios = Seq::new(
                input@.len() / 3,
                |i: int| (input@[3 * i], input@[3 * i + 1], input@[3 * i + 2]),
            );
            r == trio_cost_sum(trios)
        }),
{
    let trios = byte_trios(input);
    let ghost tseq = Seq::new(
        input@.len() / 3,
        |i: int| (input@[3 * i], input@[3 * i + 1], input@[3 * i + 2]),
    );
    proof {
        assert(trios@ =~= tseq);
    }
    let mut total: u64 = 0;
    let mut i: usize = 0;
    while i < trios.len()
        invariant
            i <= trios@.len(),
            trios@.len() < 0x0400_0000_0000_0000,
            total == trio_cost_sum(trios@.take(i as int)),
            total <= 21 * i,
        decreases trios@.len() - i,
    {
        proof {
            assert(trios@.take(i + 1).drop_last() =~= trios@.take(i as int));
        }
        let (l, m, r) = trios[i];
        total = total + p3_cost(l, m, r);
        i = i + 1;
    }
    proof {
        assert(trios@.take(trios@.len() as int) =~= trios@);
    }
    total
}

} // verus!
