//! The clapper dance: each turn the front dancer of one column jumps into
//! the next column at a position set by their number, and everyone shouts
//! the four front numbers read as one number.

use vstd::prelude::*;

verus! {

/// Powers of ten.
pub open spec fn pow10(k: int) -> int
    decreases k,
{
    if k <= 0 {
        1
    } else {
        10 * pow10(k - 1)
    }
}

/// How many decimal digits a number prints with.
pub open spec fn ndigits(v: int) -> int
    decreases v,
{
    if v < 10 {
        1
    } else {
        1 + ndigits(v / 10)
    }
}

pub proof fn lemma_pow10_pos(k: int)
    ensures
        pow10(k) >= 1,
    decreases k,
{
    if k > 0 {
        lemma_pow10_pos(k - 1);
    }
}

/// The digit window pins the digit count.
pub proof fn lemma_ndigits_unique(v: int, k: int)
    requires
        v >= 0,
        k >= 1,
        pow10(k - 1) <= v < pow10(k),
    ensures
        ndigits(v) == k,
    decreases k,
{
    if k == 1 {
    } else {
        lemma_pow10_pos(k - 2);
        assert(v >= 10) by {
            assert(pow10(k - 1) == 10 * pow10(k - 2));
        }
        assert(pow10(k - 1) == 10 * pow10(k - 2));
        assert(pow10(k) == 10 * pow10(k - 1));
        vstd::arithmetic::div_mod::lemma_fundamental_div_mod(v, 10);
        assert(pow10(k - 2) <= v / 10 < pow10(k - 1)) by (nonlinear_arith)
            requires
                10 * pow10(k - 2) <= v,
                v < 10 * pow10(k - 1),
                v == 10 * (v / 10) + v % 10,
                0 <= v % 10 < 10,
                pow10(k - 2) >= 1,
        ;
        lemma_ndigits_unique(v / 10, k - 1);
    }
}

/// The four front numbers read left to right as one decimal number.
pub open spec fn shout_spec(cols: Seq<Seq<u64>>, k: int) -> int
    decreases k,
{
    if k <= 0 {
        0
    } else {
        shout_spec(cols, k - 1) * pow10(ndigits(cols[k - 1][0] as int)) + cols[k - 1][0]
    }
}

proof fn lemma_shout_nonneg(cols: Seq<Seq<u64>>, k: int)
    ensures
        shout_spec(cols, k) >= 0,
    decreases k,
{
    if k > 0 {
        lemma_shout_nonneg(cols, k - 1);
        lemma_pow10_pos(ndigits(cols[k - 1][0] as int));
        assert(shout_spec(cols, k - 1) * pow10(ndigits(cols[k - 1][0] as int)) >= 0) by (
        nonlinear_arith)
            requires
                shout_spec(cols, k - 1) >= 0,
                pow10(ndigits(cols[k - 1][0] as int)) >= 1,
        ;
    }
}

proof fn lemma_shout_mono(cols: Seq<Seq<u64>>, k1: int, k2: int)
    requires
        0 <= k1 <= k2,
    ensures
        0 <= shout_spec(cols, k1) <= shout_spec(cols, k2),
    decreases k2 - k1,
{
    lemma_shout_nonneg(cols, k1);
    if k1 < k2 {
        lemma_shout_mono(cols, k1, k2 - 1);
        lemma_pow10_pos(ndigits(cols[k2 - 1][0] as int));
        assert(shout_spec(cols, k2 - 1) * pow10(ndigits(cols[k2 - 1][0] as int)) >= shout_spec(
            cols,
            k2 - 1,
        )) by (nonlinear_arith)
            requires
                shout_spec(cols, k2 - 1) >= 0,
                pow10(ndigits(cols[k2 - 1][0] as int)) >= 1,
        ;
    }
}

/// Where the clapper lands in the next column: their number walks around a
/// circuit twice the column's length, and the nearer end wins.
pub open spec fn landing(clapper: u64, circuit: int) -> int {
    let pos = (clapper - 1) % circuit;
    if pos <= circuit - pos {
        pos
    } else {
        circuit - pos
    }
}

/// The columns after one turn: the front dancer of column `t` moves into
/// column `(t + 1) % 4` at the landing position.
pub open spec fn stepped(cols: Seq<Seq<u64>>, t: int) -> Seq<Seq<u64>> {
    let clapper = cols[t][0];
    let tgt = (t + 1) % 4;
    let shrunk = cols.update(t, cols[t].drop_first());
    let circuit = 2 * shrunk[tgt].len();
    shrunk.update(tgt, shrunk[tgt].insert(landing(clapper, circuit as int), clapper))
}

/// Plays one turn and returns the shout. Every column keeps at least one
/// dancer, and the front numbers stay small enough to read as one number.
pub fn step(input: &mut Vec<Vec<u64>>, turn: usize) -> (r: u64)
    requires
        old(input)@.len() == 4,
        forall|c: int| 0 <= c < 4 ==> (#[trigger] old(input)@[c]@).len() >= 1,
        old(input)@[turn as int % 4]@.len() >= 2,
        old(input)@[turn as int % 4]@[0] >= 1,
        forall|c: int| 0 <= c < 4 ==> (#[trigger] old(input)@[c]@).len() < 0x1000_0000_0000_0000,
        ({
            let after = stepped(
                Seq::new(4, |c: int| old(input)@[c]@),
                turn as int % 4,
            );
            &&& shout_spec(after, 4) <= u64::MAX
            &&& forall|c: int|
                0 <= c < 4 ==> 1 <= (#[trigger] after[c][0]) < 1_000_000_000_000_000_000
        }),
    ensures
        final(input)@.len() == 4,
        Seq::new(4, |c: int| final(input)@[c]@) == stepped(
            Seq::new(4, |c: int| old(input)@[c]@),
            turn as int % 4,
        ),
        r as int == shout_spec(
            stepped(Seq::new(4, |c: int| old(input)@[c]@), turn as int % 4),
            4,
        ),
{
    let ghost cols0 = Seq::new(4, |c: int| old(input)@[c]@);
    let t = turn % 4;
    let tgt = (t + 1) % 4;
    let mut source = input.remove(t);
    let clapper = source.remove(0);
    input.insert(t, source);
    proof {
        assert(Seq::new(4, |c: int| input@[c]@) =~~= cols0.update(
            t as int,
            cols0[t as int].drop_first(),
        ));
    }
    proof {
        assert(clapper == cols0[t as int][0]);
        assert(tgt != t);
        assert(input@[tgt as int]@ == cols0[tgt as int]);
    }
    proof {
        assert(cols0[tgt as int].len() < 0x1000_0000_0000_0000);
    }
    let mut target = input.remove(tgt);
    let circuit: u64 = 2 * (target.len() as u64);
    let pos0 = (clapper - 1) % circuit;
    let pos = if pos0 <= circuit - pos0 {
        pos0
    } else {
        circuit - pos0
    };
    target.insert(pos as usize, clapper);
    input.insert(tgt, target);
    let ghost after = stepped(cols0, t as int);
    proof {
        assert(Seq::new(4, |c: int| input@[c]@) =~~= after);
    }

    // Read the four front numbers as one number.
    let mut acc: u64 = 0;
    let mut c: usize = 0;
    while c < 4
        invariant
            c <= 4,
            input@.len() == 4,
            after == Seq::new(4, |q: int| input@[q]@),
            forall|q: int| 0 <= q < 4 ==> (#[trigger] after[q]).len() >= 1,
            shout_spec(after, 4) <= u64::MAX,
            forall|q: int|
                0 <= q < 4 ==> 1 <= (#[trigger] after[q][0]) < 1_000_000_000_000_000_000,
            acc as int == shout_spec(after, c as int),
        decreases 4 - c,
    {
        proof {
            assert(after[c as int] == input@[c as int]@);
        }
        let v = input[c][0];
        proof {
            assert(v == after[c as int][0]);
        }
        let mut p: u64 = 10;
        let ghost mut kk: int = 1;
        proof {
            assert(pow10(0) == 1);
            assert(pow10(1) == 10);
        }
        while p <= v
            invariant
                1 <= v < 1_000_000_000_000_000_000,
                kk >= 1,
                p as int == pow10(kk),
                pow10(kk - 1) <= v,
                p <= 10_000_000_000_000_000_000,
            decreases 10_000_000_000_000_000_000 - p,
        {
            proof {
                assert(pow10(kk + 1) == 10 * pow10(kk));
                lemma_pow10_pos(kk);
                kk = kk + 1;
            }
            p = p * 10;
        }
        proof {
            lemma_ndigits_unique(v as int, kk);
            lemma_shout_mono(after, c + 1, 4);
            lemma_shout_mono(after, 0, c as int);
            assert(acc as int * (p as int) + v == shout_spec(after, c + 1)) by (nonlinear_arith)
                requires
                    acc as int == shout_spec(after, c as int),
                    p as int == pow10(ndigits(v as int)),
                    v == after[c as int][0],
                    shout_spec(after, c + 1) == shout_spec(after, c as int) * pow10(
                        ndigits(after[c as int][0] as int),
                    ) + after[c as int][0],
            ;
            assert(acc as int * (p as int) + v <= u64::MAX) by {
                lemma_shout_mono(after, c + 1, 4);
            }
        }
        acc = acc * p + v;
        c = c + 1;
    }
    acc
}

} // verus!
