//! Sequence ancestry: a child sequence is covered by two parents when every
//! base agrees with one parent or the other; similarities count agreeing
//! positions. Relationships are enumerated in a fixed order; grouping the
//! related sequences into families is the disjoint-set's work.

use vstd::prelude::*;

verus! {

/// One catalogued sequence: its id and its bases.
pub struct Sequence {
    pub id: u64,
    pub bases: Vec<u8>,
}

/// The model of one sequence.
pub open spec fn seq_view(s: Sequence) -> (u64, Seq<u8>) {
    (s.id, s.bases@)
}

/// Whether the two parents cover the child: over the zipped length, every
/// base agrees with one of them.
pub open spec fn covers(c: Seq<u8>, a: Seq<u8>, b: Seq<u8>) -> bool {
    forall|i: int|
        0 <= i < zip3_len(c, a, b) ==> (#[trigger] c[i]) == a[i] || c[i] == b[i]
}

/// The shortest of the three lengths.
pub open spec fn zip3_len(c: Seq<u8>, a: Seq<u8>, b: Seq<u8>) -> int {
    let ab = if a.len() <= b.len() {
        a.len() as int
    } else {
        b.len() as int
    };
    if c.len() <= ab {
        c.len() as int
    } else {
        ab
    }
}

/// Agreeing positions among the first `k` zipped bases.
pub open spec fn sim_count(a: Seq<u8>, b: Seq<u8>, k: int) -> int
    decreases k,
{
    if k <= 0 {
        0
    } else {
        sim_count(a, b, k - 1) + (if a[k - 1] == b[k - 1] {
            1int
        } else {
            0int
        })
    }
}

/// The zipped length of two sequences.
pub open spec fn zip2_len(a: Seq<u8>, b: Seq<u8>) -> int {
    if a.len() <= b.len() {
        a.len() as int
    } else {
        b.len() as int
    }
}

impl Sequence {
    /// Whether `l` and `r` could be this sequence's parents.
    pub fn parents(&self, l: &Sequence, r: &Sequence) -> (res: bool)
        ensures
            res == covers(self.bases@, l.bases@, r.bases@),
    {
        let n = if l.bases.len() <= r.bases.len() {
            l.bases.len()
        } else {
            r.bases.len()
        };
        let n = if self.bases.len() <= n {
            self.bases.len()
        } else {
            n
        };
        let mut i: usize = 0;
        while i < n
            invariant
                n == zip3_len(self.bases@, l.bases@, r.bases@),
                i <= n,
                forall|q: int|
                    0 <= q < i ==> (#[trigger] self.bases@[q]) == l.bases@[q] || self.bases@[q]
                        == r.bases@[q],
            decreases n - i,
        {
            if self.bases[i] != l.bases[i] && self.bases[i] != r.bases[i] {
                proof {
                    assert(!((self.bases@[i as int]) == l.bases@[i as int] || self.bases@[i as int]
                        == r.bases@[i as int]));
                }
                return false;
            }
            i = i + 1;
        }
        true
    }

    /// How many zipped positions agree with `other`.
    pub fn similarity(&self, other: &Sequence) -> (res: u64)
        requires
            self.bases@.len() < 0x1_0000_0000,
        ensures
            res as int == sim_count(self.bases@, other.bases@, zip2_len(self.bases@, other.bases@)),
    {
        let n = if self.bases.len() <= other.bases.len() {
            self.bases.len()
        } else {
            other.bases.len()
        };
        let mut cnt: u64 = 0;
        let mut i: usize = 0;
        while i < n
            invariant
                n == zip2_len(self.bases@, other.bases@),
                n <= self.bases@.len(),
                self.bases@.len() < 0x1_0000_0000,
                i <= n,
                cnt as int == sim_count(self.bases@, other.bases@, i as int),
                cnt <= i as u64,
            decreases n - i,
        {
            if self.bases[i] == other.bases[i] {
                cnt = cnt + 1;
            }
            i = i + 1;
        }
        cnt
    }
}

/// One found relationship: a child and its two parents, with the child's
/// similarity to each.
#[derive(Clone, Copy, PartialEq, Eq, Structural)]
pub struct Relationship {
    pub child: usize,
    pub first: usize,
    pub second: usize,
    pub sim_first: u64,
    pub sim_second: u64,
}

/// The relationship entry for a fixed triple, when the parents cover the
/// child.
pub open spec fn rel_entry(sv: Seq<(u64, Seq<u8>)>, a: int, b: int, c: int) -> Seq<Relationship> {
    if c != a && c != b && covers(sv[c].1, sv[a].1, sv[b].1) {
        seq![
            Relationship {
                child: c as usize,
                first: a as usize,
                second: b as usize,
                sim_first: sim_count(sv[c].1, sv[a].1, zip2_len(sv[c].1, sv[a].1)) as u64,
                sim_second: sim_count(sv[c].1, sv[b].1, zip2_len(sv[c].1, sv[b].1)) as u64,
            },
        ]
    } else {
        Seq::empty()
    }
}

/// Relationships of parent pair `(a, b)` over children below `c`.
pub open spec fn rels_children(sv: Seq<(u64, Seq<u8>)>, a: int, b: int, c: int) -> Seq<
    Relationship,
>
    decreases c,
{
    if c <= 0 {
        Seq::empty()
    } else {
        rels_children(sv, a, b, c - 1) + rel_entry(sv, a, b, c - 1)
    }
}

/// Relationships of first parent `a` over second parents below `b`.
pub open spec fn rels_seconds(sv: Seq<(u64, Seq<u8>)>, a: int, b: int) -> Seq<Relationship>
    decreases b - a,
{
    if b <= a + 1 {
        Seq::empty()
    } else {
        rels_seconds(sv, a, b - 1) + rels_children(sv, a, b - 1, sv.len() as int)
    }
}

/// All relationships over first parents below `a`, in enumeration order.
pub open spec fn rels_spec(sv: Seq<(u64, Seq<u8>)>, a: int) -> Seq<Relationship>
    decreases a,
{
    if a <= 0 {
        Seq::empty()
    } else {
        rels_spec(sv, a - 1) + rels_seconds(sv, a - 1, sv.len() as int)
    }
}

/// The model of the catalogue.
pub open spec fn seqs_view(seqs: Vec<Sequence>) -> Seq<(u64, Seq<u8>)> {
    seqs@.map_values(|s: Sequence| seq_view(s))
}

/// Every parent-pair-and-child triple whose parents cover the child, in a
/// fixed lexicographic order.
pub fn find_relationships(seqs: &Vec<Sequence>) -> (r: Vec<Relationship>)
    requires
        forall|q: int| 0 <= q < seqs@.len() ==> (#[trigger] seqs@[q].bases@).len() < 0x1_0000_0000,
    ensures
        r@ == rels_spec(seqs_view(*seqs), seqs_view(*seqs).len() as int),
        forall|k: int|
            0 <= k < r@.len() ==> (#[trigger] r@[k]).child < seqs@.len() && r@[k].first
                < seqs@.len() && r@[k].second < seqs@.len(),
{
    let ghost sv = seqs_view(*seqs);
    let n = seqs.len();
    let mut out: Vec<Relationship> = Vec::new();
    let mut a: usize = 0;
    proof {
        assert(out@ =~= rels_spec(sv, 0));
    }
    while a < n
        invariant
            a <= n,
            n == seqs@.len(),
            sv == seqs_view(*seqs),
            forall|q: int| 0 <= q < seqs@.len() ==> (#[trigger] seqs@[q].bases@).len()
                < 0x1_0000_0000,
            out@ == rels_spec(sv, a as int),
            forall|k: int|
                0 <= k < out@.len() ==> (#[trigger] out@[k]).child < n && out@[k].first < n
                    && out@[k].second < n,
        decreases n - a,
    {
        let mut b: usize = a + 1;
        while b < n
            invariant
                a < b || b == a + 1,
                a + 1 <= b <= n || b == a + 1,
                a < n,
                n == seqs@.len(),
                sv == seqs_view(*seqs),
                forall|q: int| 0 <= q < seqs@.len() ==> (#[trigger] seqs@[q].bases@).len()
                    < 0x1_0000_0000,
                out@ == rels_spec(sv, a as int) + rels_seconds(sv, a as int, b as int),
                forall|k: int|
                    0 <= k < out@.len() ==> (#[trigger] out@[k]).child < n && out@[k].first < n
                        && out@[k].second < n,
            decreases n - b,
        {
            let mut c: usize = 0;
            while c < n
                invariant
                    c <= n,
                    a < b < n,
                    n == seqs@.len(),
                    sv == seqs_view(*seqs),
                    forall|q: int| 0 <= q < seqs@.len() ==> (#[trigger] seqs@[q].bases@).len()
                        < 0x1_0000_0000,
                    out@ == rels_spec(sv, a as int) + rels_seconds(sv, a as int, b as int)
                        + rels_children(sv, a as int, b as int, c as int),
                    forall|k: int|
                        0 <= k < out@.len() ==> (#[trigger] out@[k]).child < n && out@[k].first < n
                            && out@[k].second < n,
                decreases n - c,
            {
                proof {
                    assert(sv[a as int] == seq_view(seqs@[a as int]));
                    assert(sv[b as int] == seq_view(seqs@[b as int]));
                    assert(sv[c as int] == seq_view(seqs@[c as int]));
                }
                if c != a && c != b {
                    if seqs[c].parents(&seqs[a], &seqs[b]) {
                        let s1 = seqs[c].similarity(&seqs[a]);
                        let s2 = seqs[c].similarity(&seqs[b]);
                        out.push(
                            Relationship {
                                child: c,
                                first: a,
                                second: b,
                                sim_first: s1,
                                sim_second: s2,
                            },
                        );
                    }
                }
                proof {
                    assert(out@ =~= rels_spec(sv, a as int) + rels_seconds(sv, a as int, b as int)
                        + rels_children(sv, a as int, b as int, c + 1));
                }
                c = c + 1;
            }
            b = b + 1;
        }
        a = a + 1;
    }
    out
}

/// Part one's answer over the first three sequences: whichever of the three
/// is covered by the other two, the product of its two similarities (the
/// third sequence is taken as the child when neither of the first two is).
pub open spec fn answer1_spec(sv: Seq<(u64, Seq<u8>)>) -> int {
    if covers(sv[0].1, sv[1].1, sv[2].1) {
        sim_count(sv[0].1, sv[1].1, zip2_len(sv[0].1, sv[1].1)) * sim_count(
            sv[0].1,
            sv[2].1,
            zip2_len(sv[0].1, sv[2].1),
        )
    } else if covers(sv[1].1, sv[0].1, sv[2].1) {
        sim_count(sv[1].1, sv[0].1, zip2_len(sv[1].1, sv[0].1)) * sim_count(
            sv[1].1,
            sv[2].1,
            zip2_len(sv[1].1, sv[2].1),
        )
    } else {
        sim_count(sv[2].1, sv[1].1, zip2_len(sv[2].1, sv[1].1)) * sim_count(
            sv[2].1,
            sv[0].1,
            zip2_len(sv[2].1, sv[0].1),
        )
    }
}

proof fn lemma_sim_bounds(a: Seq<u8>, b: Seq<u8>, k: int)
    requires
        0 <= k <= zip2_len(a, b),
    ensures
        0 <= sim_count(a, b, k) <= k,
    decreases k,
{
    if k > 0 {
        lemma_sim_bounds(a, b, k - 1);
    }
}

/// Part one: the child among the first three sequences scores the product
/// of its similarities to its parents. `None` with fewer than three
/// sequences, on which the original arithmetic has nothing to pair.
pub fn p1(seqs: &Vec<Sequence>) -> (r: Option<u64>)
    requires
        forall|q: int| 0 <= q < seqs@.len() ==> (#[trigger] seqs@[q].bases@).len() < 0x1_0000_0000,
    ensures
        match r {
            Some(v) => seqs@.len() >= 3 && v as int == answer1_spec(seqs_view(*seqs)),
            None => seqs@.len() < 3,
        },
{
    if seqs.len() < 3 {
        return None;
    }
    let ghost sv = seqs_view(*seqs);
    proof {
        assert(sv[0] == seq_view(seqs@[0]));
        assert(sv[1] == seq_view(seqs@[1]));
        assert(sv[2] == seq_view(seqs@[2]));
        lemma_sim_bounds(sv[0].1, sv[1].1, zip2_len(sv[0].1, sv[1].1));
        lemma_sim_bounds(sv[0].1, sv[2].1, zip2_len(sv[0].1, sv[2].1));
        lemma_sim_bounds(sv[1].1, sv[0].1, zip2_len(sv[1].1, sv[0].1));
        lemma_sim_bounds(sv[1].1, sv[2].1, zip2_len(sv[1].1, sv[2].1));
        lemma_sim_bounds(sv[2].1, sv[1].1, zip2_len(sv[2].1, sv[1].1));
        lemma_sim_bounds(sv[2].1, sv[0].1, zip2_len(sv[2].1, sv[0].1));
    }
    let prod = if seqs[0].parents(&seqs[1], &seqs[2]) {
        let s1 = seqs[0].similarity(&seqs[1]);
        let s2 = seqs[0].similarity(&seqs[2]);
        proof {
            lemma_sim_product(s1 as int, s2 as int);
        }
        s1 * s2
    } else if seqs[1].parents(&seqs[0], &seqs[2]) {
        let s1 = seqs[1].similarity(&seqs[0]);
        let s2 = seqs[1].similarity(&seqs[2]);
        proof {
            lemma_sim_product(s1 as int, s2 as int);
        }
        s1 * s2
    } else {
        let s1 = seqs[2].similarity(&seqs[1]);
        let s2 = seqs[2].similarity(&seqs[0]);
        proof {
            lemma_sim_product(s1 as int, s2 as int);
        }
        s1 * s2
    };
    Some(prod)
}

#[verifier::nonlinear]
proof fn lemma_sim_product(s1: int, s2: int)
    requires
        0 <= s1 < 0x1_0000_0000,
        0 <= s2 < 0x1_0000_0000,
    ensures
        0 <= s1 * s2 <= u64::MAX,
{
}

/// The summed similarity products of the first `k` relationships.
pub open spec fn rel_sum(rels: Seq<Relationship>, k: int) -> int
    decreases k,
{
    if k <= 0 {
        0
    } else {
        rel_sum(rels, k - 1) + rels[k - 1].sim_first * rels[k - 1].sim_second
    }
}

proof fn lemma_rel_sum_nonneg(rels: Seq<Relationship>, k: int)
    ensures
        rel_sum(rels, k) >= 0,
    decreases k,
{
    if k > 0 {
        lemma_rel_sum_nonneg(rels, k - 1);
        assert(rels[k - 1].sim_first * rels[k - 1].sim_second >= 0) by (nonlinear_arith);
    }
}

proof fn lemma_rel_sum_mono(rels: Seq<Relationship>, k1: int, k2: int)
    requires
        0 <= k1 <= k2,
    ensures
        0 <= rel_sum(rels, k1) <= rel_sum(rels, k2),
    decreases k2 - k1,
{
    lemma_rel_sum_nonneg(rels, k1);
    if k1 < k2 {
        lemma_rel_sum_mono(rels, k1, k2 - 1);
        assert(rels[k2 - 1].sim_first * rels[k2 - 1].sim_second >= 0) by (nonlinear_arith);
    }
}

/// Part two: every relationship contributes the product of its two
/// similarities; `None` exactly when the total leaves `u64`.
pub fn p2(seqs: &Vec<Sequence>) -> (r: Option<u64>)
    requires
        forall|q: int| 0 <= q < seqs@.len() ==> (#[trigger] seqs@[q].bases@).len() < 0x1_0000_0000,
    ensures
        ({
            let rels = rels_spec(seqs_view(*seqs), seqs_view(*seqs).len() as int);
            match r {
                Some(v) => v as int == rel_sum(rels, rels.len() as int),
                None => rel_sum(rels, rels.len() as int) > u64::MAX,
            }
        }),
{
    let rels = find_relationships(seqs);
    let ghost rv = rels_spec(seqs_view(*seqs), seqs_view(*seqs).len() as int);
    let mut total: u64 = 0;
    let mut k: usize = 0;
    while k < rels.len()
        invariant
            k <= rels@.len(),
            rv == rels_spec(seqs_view(*seqs), seqs_view(*seqs).len() as int),
            rels@ == rv,
            total as int == rel_sum(rv, k as int),
        decreases rels@.len() - k,
    {
        let rel = rels[k];
        let prod = match rel.sim_first.checked_mul(rel.sim_second) {
            Some(p) => p,
            None => {
                proof {
                    assert(rel_sum(rv, k + 1) > u64::MAX) by {
                        lemma_rel_sum_mono(rv, 0, k as int);
                    }
                    lemma_rel_sum_mono(rv, k + 1, rv.len() as int);
                }
                return None;
            },
        };
        let t2 = match total.checked_add(prod) {
            Some(t2) => t2,
            None => {
                proof {
                    lemma_rel_sum_mono(rv, k + 1, rv.len() as int);
                }
                return None;
            },
        };
        total = t2;
        k = k + 1;
    }
    Some(total)
}

} // verus!
