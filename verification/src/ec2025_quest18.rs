//! Plant energy propagation: each plant draws energy through branches,
//! either free ones with a fixed feed or connections to earlier plants,
//! and outputs its incoming total only when it meets its thickness
//! threshold. Test rows re-seed the free branches of the leading plants.

use vstd::prelude::*;
use vstd::string::{StrSliceExecFns, StringSliceAdditionalSpecFns};

use crate::text::{fields_of, fields_spec, int_value, is_int_str, lines_spec, parse_i64, parse_u64,
    split_lines, trim_bytes, trim_spec, dec_value, is_digit};

verus! {

/// One energy source of a plant: a fixed feed, or a connection to an
/// earlier plant (1-based index) scaled by a thickness.
#[derive(Clone, Copy, PartialEq, Eq, Structural)]
pub enum Branch {
    Free(i64),
    Connected(i64, u64),
}

/// A plant: its activation threshold and its branches.
pub struct Plant {
    pub thickness: i64,
    pub branches: Vec<Branch>,
}

/// The model of a plant.
pub open spec fn plant_view(p: Plant) -> (i64, Seq<Branch>) {
    (p.thickness, p.branches@)
}

/// A valid garden: every connection points to a strictly earlier plant.
pub open spec fn garden_wf(plants: Seq<(i64, Seq<Branch>)>) -> bool {
    forall|i: int, b: int|
        0 <= i < plants.len() && 0 <= b < plants[i].1.len() ==> match #[trigger] plants[i].1[b] {
            Branch::Free(_) => true,
            Branch::Connected(_, p) => 1 <= p <= i,
        }
}

/// The contribution of branch `b` of plant `i`.
pub open spec fn branch_val(plants: Seq<(i64, Seq<Branch>)>, i: int, b: int) -> int
    decreases i, 0int, b,
        when garden_wf(plants) && 0 <= i < plants.len() && 0 <= b < plants[i].1.len()
{
    match plants[i].1[b] {
        Branch::Free(t) => t as int,
        Branch::Connected(t, p) => energy_int(plants, p - 1) * t,
    }
}

/// The incoming energy of plant `i` from its first `b` branches.
pub open spec fn incoming(plants: Seq<(i64, Seq<Branch>)>, i: int, b: int) -> int
    decreases i, 1int, b,
        when garden_wf(plants) && 0 <= i < plants.len() && 0 <= b <= plants[i].1.len()
{
    if b <= 0 {
        0
    } else {
        incoming(plants, i, b - 1) + branch_val(plants, i, b - 1)
    }
}

/// The energy plant `i` outputs: its incoming total, unless that falls
/// short of its thickness.
pub open spec fn energy_int(plants: Seq<(i64, Seq<Branch>)>, i: int) -> int
    decreases i, 2int, 0int,
        when garden_wf(plants) && 0 <= i < plants.len()
{
    let inc = incoming(plants, i, plants[i].1.len() as int);
    if inc < plants[i].0 {
        0
    } else {
        inc
    }
}

/// Whether branch `b` of plant `i` evaluates without leaving `i64`.
pub open spec fn branch_fits(plants: Seq<(i64, Seq<Branch>)>, i: int, b: int) -> bool
    decreases i, 0int, b,
        when garden_wf(plants) && 0 <= i < plants.len() && 0 <= b < plants[i].1.len()
{
    match plants[i].1[b] {
        Branch::Free(_) => true,
        Branch::Connected(t, p) => energy_fits(plants, p - 1) && i64::MIN <= energy_int(
            plants,
            p - 1,
        ) * t <= i64::MAX,
    }
}

/// Whether the first `b` partial sums of plant `i` stay within `i64`.
pub open spec fn incoming_fits(plants: Seq<(i64, Seq<Branch>)>, i: int, b: int) -> bool
    decreases i, 1int, b,
        when garden_wf(plants) && 0 <= i < plants.len() && 0 <= b <= plants[i].1.len()
{
    b <= 0 || (incoming_fits(plants, i, b - 1) && branch_fits(plants, i, b - 1) && i64::MIN
        <= incoming(plants, i, b) <= i64::MAX)
}

/// Whether plant `i`'s whole evaluation stays within `i64`.
pub open spec fn energy_fits(plants: Seq<(i64, Seq<Branch>)>, i: int) -> bool
    decreases i, 2int, 0int,
        when garden_wf(plants) && 0 <= i < plants.len()
{
    incoming_fits(plants, i, plants[i].1.len() as int)
}

proof fn lemma_incoming_fits_prefix(plants: Seq<(i64, Seq<Branch>)>, i: int, b1: int, b2: int)
    requires
        garden_wf(plants),
        0 <= i < plants.len(),
        0 <= b1 <= b2 <= plants[i].1.len(),
        incoming_fits(plants, i, b2),
    ensures
        incoming_fits(plants, i, b1),
    decreases b2 - b1,
{
    if b1 < b2 {
        lemma_incoming_fits_prefix(plants, i, b1, b2 - 1);
    }
}

/// The energy of plant `i`, or `None` when some intermediate value leaves
/// `i64`.
pub fn energy_at(plants: &Vec<Plant>, i: usize) -> (r: Option<i64>)
    requires
        garden_wf(plants@.map_values(|p: Plant| plant_view(p))),
        i < plants@.len(),
    ensures
        ({
            let ps = plants@.map_values(|p: Plant| plant_view(p));
            match r {
                Some(v) => energy_fits(ps, i as int) && v as int == energy_int(ps, i as int),
                None => !energy_fits(ps, i as int),
            }
        }),
    decreases i,
{
    let ghost ps = plants@.map_values(|p: Plant| plant_view(p));
    proof {
        assert(ps[i as int] == plant_view(plants@[i as int]));
    }
    let n = plants[i].branches.len();
    let mut acc: i64 = 0;
    let mut b: usize = 0;
    while b < n
        invariant
            garden_wf(ps),
            ps == plants@.map_values(|p: Plant| plant_view(p)),
            i < plants@.len(),
            ps[i as int] == plant_view(plants@[i as int]),
            n == plants@[i as int].branches@.len(),
            b <= n,
            incoming_fits(ps, i as int, b as int),
            acc as int == incoming(ps, i as int, b as int),
        decreases n - b,
    {
        proof {
            assert(ps[i as int].1[b as int] == plants@[i as int].branches@[b as int]);
        }
        let val: Option<i64> = match plants[i].branches[b] {
            Branch::Free(t) => {
                proof {
                    assert(ps[i as int].1[b as int] == Branch::Free(t));
                    assert(branch_val(ps, i as int, b as int) == t as int);
                    assert(branch_fits(ps, i as int, b as int));
                }
                Some(t)
            },
            Branch::Connected(t, p) => {
                proof {
                    assert(ps[i as int].1[b as int] == Branch::Connected(t, p));
                    assert(1 <= p <= i);
                }
                match energy_at(plants, (p - 1) as usize) {
                    Some(e) => {
                        let prod = e.checked_mul(t);
                        proof {
                            if prod is Some {
                                assert(prod->0 as int == branch_val(ps, i as int, b as int));
                                assert(branch_fits(ps, i as int, b as int));
                            } else {
                                assert(!branch_fits(ps, i as int, b as int));
                            }
                        }
                        prod
                    },
                    None => {
                        proof {
                            assert(!branch_fits(ps, i as int, b as int));
                        }
                        None
                    },
                }
            },
        };
        proof {
            if val is Some {
                assert(val->0 as int == branch_val(ps, i as int, b as int));
                assert(branch_fits(ps, i as int, b as int));
            } else {
                assert(!branch_fits(ps, i as int, b as int));
            }
        }
        let v = match val {
            Some(v) => v,
            None => {
                proof {
                    assert(!branch_fits(ps, i as int, b as int));
                    assert(!incoming_fits(ps, i as int, plants@[i as int].branches@.len() as int))
                        by {
                        if incoming_fits(ps, i as int, ps[i as int].1.len() as int) {
                            lemma_incoming_fits_prefix(
                                ps,
                                i as int,
                                b + 1,
                                ps[i as int].1.len() as int,
                            );
                        }
                    }
                }
                return None;
            },
        };
        let sum = match acc.checked_add(v) {
            Some(s) => s,
            None => {
                proof {
                    assert(!incoming_fits(ps, i as int, plants@[i as int].branches@.len() as int))
                        by {
                        if incoming_fits(ps, i as int, ps[i as int].1.len() as int) {
                            lemma_incoming_fits_prefix(
                                ps,
                                i as int,
                                b + 1,
                                ps[i as int].1.len() as int,
                            );
                        }
                    }
                }
                return None;
            },
        };
        proof {
            assert(incoming(ps, i as int, b + 1) == incoming(ps, i as int, b as int) + branch_val(
                ps,
                i as int,
                b as int,
            ));
            assert(incoming_fits(ps, i as int, b + 1));
        }
        acc = sum;
        b = b + 1;
    }
    if acc < plants[i].thickness {
        Some(0)
    } else {
        Some(acc)
    }
}

impl Plant {
    /// The energy this plant outputs, given the whole garden and this
    /// plant's position in it.
    pub fn energy(&self, plants: &Vec<Plant>, idx: usize) -> (r: Option<i64>)
        requires
            garden_wf(plants@.map_values(|p: Plant| plant_view(p))),
            idx < plants@.len(),
            plants@[idx as int] == *self,
        ensures
            ({
                let ps = plants@.map_values(|p: Plant| plant_view(p));
                match r {
                    Some(v) => energy_fits(ps, idx as int) && v as int == energy_int(
                        ps,
                        idx as int,
                    ),
                    None => !energy_fits(ps, idx as int),
                }
            }),
    {
        energy_at(plants, idx)
    }
}

/// The garden: the plants in input order.
pub struct Garden {
    pub plants: Vec<Plant>,
}

impl Garden {
    /// The model of the whole garden.
    pub open spec fn view_spec(self) -> Seq<(i64, Seq<Branch>)> {
        self.plants@.map_values(|p: Plant| plant_view(p))
    }

    /// Wraps the parsed plants.
    pub fn new(plants: Vec<Plant>) -> (r: Garden)
        ensures
            r.plants@ == plants@,
    {
        Garden { plants }
    }

    /// How many plants the garden holds.
    pub fn len(&self) -> (r: usize)
        ensures
            r == self.view_spec().len(),
    {
        self.plants.len()
    }

    /// The energy output of the last plant.
    pub fn energy(&self) -> (r: Option<i64>)
        requires
            garden_wf(self.view_spec()),
            self.view_spec().len() > 0,
        ensures
            match r {
                Some(v) => energy_fits(self.view_spec(), self.view_spec().len() - 1) && v as int
                    == energy_int(self.view_spec(), self.view_spec().len() - 1),
                None => !energy_fits(self.view_spec(), self.view_spec().len() - 1),
            },
    {
        energy_at(&self.plants, self.plants.len() - 1)
    }

    /// Re-seeds the first branches of the leading plants from `test` and
    /// reports the last plant's energy.
    pub fn energy_test(&mut self, test: &Vec<i64>) -> (r: Option<i64>)
        requires
            garden_wf(old(self).view_spec()),
            old(self).view_spec().len() > 0,
            test@.len() <= old(self).view_spec().len(),
            forall|i: int|
                0 <= i < test@.len() ==> #[trigger] old(self).view_spec()[i].1.len() >= 1,
        ensures
            final(self).view_spec() == apply_row(old(self).view_spec(), test@),
            garden_wf(final(self).view_spec()),
            ({
                let ps = final(self).view_spec();
                match r {
                    Some(v) => energy_fits(ps, ps.len() - 1) && v as int == energy_int(
                        ps,
                        ps.len() - 1,
                    ),
                    None => !energy_fits(ps, ps.len() - 1),
                }
            }),
    {
        let ghost ps0 = self.view_spec();
        let mut i: usize = 0;
        while i < test.len()
            invariant
                garden_wf(ps0),
                test@.len() <= ps0.len(),
                forall|k: int| 0 <= k < test@.len() ==> #[trigger] ps0[k].1.len() >= 1,
                i <= test@.len(),
                self.plants@.len() == ps0.len(),
                ({
                    let cur = self.view_spec();
                    forall|k: int|
                        0 <= k < ps0.len() ==> #[trigger] cur[k] == (if k < i {
                            (ps0[k].0, ps0[k].1.update(0, Branch::Free(test@[k])))
                        } else {
                            ps0[k]
                        })
                }),
            decreases test@.len() - i,
        {
            let ghost before = self.plants@;
            let ghost before_view = self.view_spec();
            proof {
                assert(before_view[i as int] == plant_view(before[i as int]));
                assert(before_view[i as int] == ps0[i as int]);
                assert(ps0[i as int].1.len() >= 1);
                assert(before[i as int].branches@.len() >= 1);
            }
            let mut plant = self.plants.remove(i);
            proof {
                assert(plant == before[i as int]);
                assert(plant.branches@.len() >= 1);
            }
            plant.branches.set(0, Branch::Free(test[i]));
            self.plants.insert(i, plant);
            proof {
                assert(self.plants@ =~= before.update(i as int, plant));
                assert forall|k: int| 0 <= k < ps0.len() implies #[trigger] self.view_spec()[k]
                    == (if k < i + 1 {
                    (ps0[k].0, ps0[k].1.update(0, Branch::Free(test@[k])))
                } else {
                    ps0[k]
                }) by {
                    assert(self.view_spec()[k] == plant_view(self.plants@[k]));
                    assert(before_view[k] == plant_view(before[k]));
                    if k == i as int {
                        assert(self.plants@[k] == plant);
                        assert(plant.thickness == before[k].thickness);
                        assert(plant.branches@ =~= before[k].branches@.update(
                            0,
                            Branch::Free(test@[k]),
                        ));
                        assert(plant_view(before[k]) == ps0[k]);
                        assert(plant_view(plant) == (ps0[k].0, ps0[k].1.update(
                            0,
                            Branch::Free(test@[k]),
                        )));
                    } else {
                        assert(self.plants@[k] == before[k]);
                        assert(before_view[k] == (if k < i {
                            (ps0[k].0, ps0[k].1.update(0, Branch::Free(test@[k])))
                        } else {
                            ps0[k]
                        }));
                    }
                }
            }
            i = i + 1;
        }
        proof {
            assert(self.view_spec() =~= apply_row(ps0, test@));
            assert forall|a: int, b: int|
                0 <= a < self.view_spec().len() && 0 <= b < self.view_spec()[a].1.len() implies
                match #[trigger] self.view_spec()[a].1[b] {
                    Branch::Free(_) => true,
                    Branch::Connected(_, p) => 1 <= p <= a,
                } by {
                let cur = self.view_spec();
                if a < test@.len() && b == 0 {
                } else {
                    assert(cur[a].1[b] == ps0[a].1[b]);
                }
            }
        }
        energy_at(&self.plants, self.plants.len() - 1)
    }
}

/// The garden after one test row replaces the leading free feeds.
pub open spec fn apply_row(plants: Seq<(i64, Seq<Branch>)>, row: Seq<i64>) -> Seq<
    (i64, Seq<Branch>),
> {
    Seq::new(
        plants.len(),
        |k: int|
            if k < row.len() {
                (plants[k].0, plants[k].1.update(0, Branch::Free(row[k])))
            } else {
                plants[k]
            },
    )
}

/// A test row fits the garden: not longer than the plant list, and every
/// plant it re-seeds has a branch to replace.
pub open spec fn row_ok(plants: Seq<(i64, Seq<Branch>)>, row: Seq<i64>) -> bool {
    row.len() <= plants.len() && forall|i: int|
        0 <= i < row.len() ==> #[trigger] plants[i].1.len() >= 1
}

proof fn lemma_apply_row_wf(plants: Seq<(i64, Seq<Branch>)>, row: Seq<i64>)
    requires
        garden_wf(plants),
        row_ok(plants, row),
    ensures
        garden_wf(apply_row(plants, row)),
{
    let ps2 = apply_row(plants, row);
    assert forall|i: int, b: int|
        0 <= i < ps2.len() && 0 <= b < ps2[i].1.len() implies match #[trigger] ps2[i].1[b] {
        Branch::Free(_) => true,
        Branch::Connected(_, p) => 1 <= p <= i,
    } by {
        if i < row.len() && b == 0 {
        } else {
            assert(ps2[i].1[b] == plants[i].1[b]);
        }
    }
}

/// Lines grouped at empty lines, empty groups kept, as `split_spec` does
/// for bytes.
pub open spec fn group_spec(ls: Seq<Seq<u8>>) -> Seq<Seq<Seq<u8>>>
    decreases ls.len(),
{
    if ls.len() == 0 {
        seq![Seq::empty()]
    } else if ls[0].len() == 0 {
        seq![Seq::<Seq<u8>>::empty()] + group_spec(ls.drop_first())
    } else {
        let rest = group_spec(ls.drop_first());
        seq![seq![ls[0]] + rest[0]] + rest.drop_first()
    }
}

proof fn lemma_group_len(ls: Seq<Seq<u8>>)
    ensures
        group_spec(ls).len() >= 1,
    decreases ls.len(),
{
    if ls.len() > 0 {
        lemma_group_len(ls.drop_first());
    }
}

proof fn lemma_group_push(ls: Seq<Seq<u8>>, l: Seq<u8>)
    ensures
        l.len() == 0 ==> group_spec(ls.push(l)) == group_spec(ls).push(Seq::<Seq<u8>>::empty()),
        l.len() != 0 ==> group_spec(ls.push(l)) == group_spec(ls).update(
            group_spec(ls).len() - 1,
            group_spec(ls).last().push(l),
        ),
    decreases ls.len(),
{
    lemma_group_len(ls);
    if ls.len() == 0 {
        assert(group_spec(Seq::<Seq<u8>>::empty()) =~~= seq![Seq::<Seq<u8>>::empty()]);
        assert(ls =~~= Seq::<Seq<u8>>::empty());
        if l.len() == 0 {
            assert(ls.push(l)[0].len() == 0);
            assert(ls.push(l).drop_first() =~~= Seq::<Seq<u8>>::empty());
            assert(group_spec(ls.push(l)) =~~= group_spec(ls).push(Seq::<Seq<u8>>::empty()));
        } else {
            assert(ls.push(l)[0] == l);
            assert(ls.push(l).drop_first() =~~= Seq::<Seq<u8>>::empty());
            assert(group_spec(ls.push(l)) =~~= group_spec(ls).update(
                0,
                group_spec(ls).last().push(l),
            ));
        }
    } else {
        lemma_group_push(ls.drop_first(), l);
        lemma_group_len(ls.drop_first());
        assert(ls.push(l).drop_first() =~~= ls.drop_first().push(l));
        assert(ls.push(l)[0] == ls[0]);
        let rest = group_spec(ls.drop_first());
        let restl = group_spec(ls.drop_first().push(l));
        if ls[0].len() == 0 {
            if l.len() == 0 {
                assert(group_spec(ls.push(l)) =~~= group_spec(ls).push(Seq::<Seq<u8>>::empty()));
            } else {
                assert(group_spec(ls.push(l)) =~~= group_spec(ls).update(
                    group_spec(ls).len() - 1,
                    group_spec(ls).last().push(l),
                ));
            }
        } else {
            if l.len() == 0 {
                assert(group_spec(ls.push(l)) =~~= group_spec(ls).push(Seq::<Seq<u8>>::empty()));
            } else {
                assert(restl =~~= rest.update(rest.len() - 1, rest.last().push(l)));
                if rest.len() == 1 {
                    assert(restl[0] =~~= rest[0].push(l));
                    assert(group_spec(ls.push(l)) =~= group_spec(ls).update(
                        group_spec(ls).len() - 1,
                        group_spec(ls).last().push(l),
                    ));
                } else {
                    assert(restl[0] == rest[0]);
                    assert(restl.drop_first() =~~= rest.drop_first().update(
                        rest.len() - 2,
                        rest.last().push(l),
                    ));
                    assert(group_spec(ls.push(l)) =~= group_spec(ls).update(
                        group_spec(ls).len() - 1,
                        group_spec(ls).last().push(l),
                    ));
                }
            }
        }
    }
}

/// The model of a list of lines.
pub open spec fn lines_view(g: Vec<Vec<u8>>) -> Seq<Seq<u8>> {
    g@.map_values(|l: Vec<u8>| l@)
}

/// The model of a list of line groups.
pub open spec fn groups_view(g: Vec<Vec<Vec<u8>>>) -> Seq<Seq<Seq<u8>>> {
    g@.map_values(|x: Vec<Vec<u8>>| lines_view(x))
}

fn copy_line(l: &Vec<u8>) -> (r: Vec<u8>)
    ensures
        r@ == l@,
{
    let mut r: Vec<u8> = Vec::new();
    let mut j: usize = 0;
    while j < l.len()
        invariant
            j <= l@.len(),
            r@ == l@.take(j as int),
        decreases l@.len() - j,
    {
        r.push(l[j]);
        proof {
            assert(r@ =~= l@.take(j + 1));
        }
        j = j + 1;
    }
    proof {
        assert(r@ =~= l@.take(l@.len() as int));
    }
    r
}

/// Groups the lines at empty lines.
fn split_groups(ls: &Vec<Vec<u8>>) -> (r: Vec<Vec<Vec<u8>>>)
    ensures
        groups_view(r) == group_spec(lines_view(*ls)),
{
    let mut done: Vec<Vec<Vec<u8>>> = Vec::new();
    let mut cur: Vec<Vec<u8>> = Vec::new();
    let mut i: usize = 0;
    proof {
        assert(lines_view(*ls).take(0) =~~= Seq::<Seq<u8>>::empty());
        assert(groups_view(done).push(lines_view(cur)) =~~= group_spec(lines_view(*ls).take(0)));
    }
    while i < ls.len()
        invariant
            i <= ls@.len(),
            groups_view(done).push(lines_view(cur)) == group_spec(lines_view(*ls).take(i as int)),
        decreases ls@.len() - i,
    {
        let ghost pre = lines_view(*ls).take(i as int);
        proof {
            lemma_group_push(pre, ls@[i as int]@);
            assert(lines_view(*ls).take(i + 1) =~~= pre.push(ls@[i as int]@));
            lemma_group_len(pre);
            assert(lines_view(*ls)[i as int] == ls@[i as int]@);
        }
        if ls[i].len() == 0 {
            let finished = cur;
            cur = Vec::new();
            done.push(finished);
            proof {
                assert(groups_view(done).push(lines_view(cur)) =~~= group_spec(pre).push(
                    Seq::<Seq<u8>>::empty(),
                ));
            }
        } else {
            let line = copy_line(&ls[i]);
            cur.push(line);
            proof {
                let gp = group_spec(pre);
                assert(lines_view(cur) =~~= gp.last().push(ls@[i as int]@));
                assert(groups_view(done).push(lines_view(cur)) =~~= gp.update(
                    gp.len() - 1,
                    gp.last().push(ls@[i as int]@),
                ));
            }
        }
        i = i + 1;
    }
    proof {
        assert(lines_view(*ls).take(ls@.len() as int) =~~= lines_view(*ls));
    }
    done.push(cur);
    done
}

/// The index of the first empty group, or the group count when none is.
pub open spec fn first_empty(gs: Seq<Seq<Seq<u8>>>) -> int
    decreases gs.len(),
{
    if gs.len() == 0 {
        0
    } else if gs[0].len() == 0 {
        0
    } else {
        1 + first_empty(gs.drop_first())
    }
}

proof fn lemma_first_empty(gs: Seq<Seq<Seq<u8>>>, idx: int)
    requires
        0 <= idx <= gs.len(),
        forall|j: int| 0 <= j < idx ==> #[trigger] gs[j].len() > 0,
        idx == gs.len() || gs[idx].len() == 0,
    ensures
        first_empty(gs) == idx,
    decreases idx,
{
    if gs.len() == 0 {
    } else if idx == 0 {
    } else {
        lemma_first_empty(gs.drop_first(), idx - 1);
    }
}

/// The lines of all groups from `k` on, in order.
pub open spec fn flatten_from(gs: Seq<Seq<Seq<u8>>>, k: int) -> Seq<Seq<u8>>
    decreases gs.len() - k,
{
    if k < 0 || k >= gs.len() {
        Seq::empty()
    } else {
        gs[k] + flatten_from(gs, k + 1)
    }
}

/// The line with any trailing colons removed.
pub open spec fn strip_colons(l: Seq<u8>) -> Seq<u8>
    decreases l.len(),
{
    if l.len() > 0 && l.last() == 58 {
        strip_colons(l.drop_last())
    } else {
        l
    }
}

fn strip_colons_exec(l: &Vec<u8>) -> (r: Vec<u8>)
    ensures
        r@ == strip_colons(l@),
{
    let mut hi: usize = l.len();
    proof {
        assert(l@.take(l@.len() as int) =~= l@);
    }
    while hi > 0 && l[hi - 1] == 58
        invariant
            hi <= l@.len(),
            strip_colons(l@) == strip_colons(l@.take(hi as int)),
        decreases hi,
    {
        proof {
            assert(l@.take(hi as int).drop_last() =~= l@.take(hi - 1));
            assert(l@.take(hi as int).last() == l@[hi - 1]);
        }
        hi = hi - 1;
    }
    let mut r: Vec<u8> = Vec::new();
    let mut j: usize = 0;
    while j < hi
        invariant
            j <= hi <= l@.len(),
            r@ == l@.take(j as int),
        decreases hi - j,
    {
        r.push(l[j]);
        proof {
            assert(r@ =~= l@.take(j + 1));
        }
        j = j + 1;
    }
    proof {
        assert(strip_colons(l@.take(hi as int)) == l@.take(hi as int)) by {
            if hi > 0 {
                assert(l@.take(hi as int).last() == l@[hi - 1]);
            }
        }
    }
    r
}

/// A parsed signed number within `i64`.
pub open spec fn int_ok(f: Seq<u8>) -> bool {
    is_int_str(f) && -i64::MAX <= int_value(f) <= i64::MAX
}

/// One branch line: `- free branch with thickness T`, or
/// `- branch to Plant P with thickness T` with `1 <= P <= idx`.
/// The word after the dash is told apart by its first letter.
pub open spec fn parse_branch_spec(line: Seq<u8>, idx: int) -> Option<Branch> {
    let bf = fields_spec(line);
    if bf.len() == 6 && bf[1].len() > 0 && bf[1][0] == 102 && int_ok(bf[5]) {
        Some(Branch::Free(int_value(bf[5]) as i64))
    } else if bf.len() == 8 && bf[1].len() > 0 && bf[1][0] == 98 && int_ok(bf[7]) && bf[4].len() > 0
        && (forall|j: int| 0 <= j < bf[4].len() ==> is_digit(#[trigger] bf[4][j])) && 1 <= dec_value(
        bf[4],
    ) <= idx {
        Some(Branch::Connected(int_value(bf[7]) as i64, dec_value(bf[4]) as u64))
    } else {
        None
    }
}

fn parse_branch(line: &Vec<u8>, idx: u64) -> (r: Option<Branch>)
    ensures
        r == parse_branch_spec(line@, idx as int),
{
    let bf = fields_of(line);
    let ghost bfs = fields_spec(line@);
    proof {
        assert(bf@.map_values(|f: Vec<u8>| f@).len() == bfs.len());
        assert forall|k: int| 0 <= k < bf@.len() implies #[trigger] bf@[k]@ == bfs[k] by {
            assert(bf@.map_values(|f: Vec<u8>| f@)[k] == bf@[k]@);
        }
    }
    if bf.len() == 6 {
        if bf[1].len() > 0 && bf[1][0] == 102 {
            match parse_i64(&bf[5]) {
                Some(v) => Some(Branch::Free(v)),
                None => None,
            }
        } else {
            None
        }
    } else if bf.len() == 8 {
        if bf[1].len() > 0 && bf[1][0] == 98 {
            let t = match parse_i64(&bf[7]) {
                Some(t) => t,
                None => {
                    return None;
                },
            };
            match parse_u64(&bf[4]) {
                Some(p) => {
                    if 1 <= p && p <= idx {
                        Some(Branch::Connected(t, p))
                    } else {
                        None
                    }
                },
                None => None,
            }
        } else {
            None
        }
    } else {
        None
    }
}

/// One plant group: a header line carrying the thickness as its fifth
/// word (colons stripped), then one branch line per branch.
pub open spec fn parse_plant_spec(g: Seq<Seq<u8>>, idx: int) -> Option<(i64, Seq<Branch>)> {
    if g.len() < 1 {
        None
    } else {
        let hf = fields_spec(strip_colons(g[0]));
        if hf.len() < 5 || !int_ok(hf[4]) {
            None
        } else if !(forall|b: int|
            1 <= b < g.len() ==> (#[trigger] parse_branch_spec(g[b], idx)) is Some) {
            None
        } else {
            Some(
                (
                    int_value(hf[4]) as i64,
                    Seq::new((g.len() - 1) as nat, |b: int| parse_branch_spec(g[b + 1], idx)->0),
                ),
            )
        }
    }
}

fn parse_plant(g: &Vec<Vec<u8>>, idx: u64) -> (r: Option<Plant>)
    ensures
        match r {
            Some(p) => parse_plant_spec(lines_view(*g), idx as int) == Some(plant_view(p)),
            None => parse_plant_spec(lines_view(*g), idx as int) is None,
        },
{
    let ghost gv = lines_view(*g);
    if g.len() < 1 {
        return None;
    }
    proof {
        assert(gv[0] == g@[0]@);
    }
    let header = strip_colons_exec(&g[0]);
    let hf = fields_of(&header);
    let ghost hfs = fields_spec(strip_colons(gv[0]));
    proof {
        assert(hf@.map_values(|f: Vec<u8>| f@).len() == hfs.len());
    }
    if hf.len() < 5 {
        return None;
    }
    proof {
        assert(hf@.map_values(|f: Vec<u8>| f@)[4] == hf@[4]@);
    }
    let thickness = match parse_i64(&hf[4]) {
        Some(t) => t,
        None => {
            return None;
        },
    };
    let mut branches: Vec<Branch> = Vec::new();
    let mut b: usize = 1;
    while b < g.len()
        invariant
            1 <= b <= g@.len(),
            gv == lines_view(*g),
            branches@.len() == b - 1,
            forall|k: int|
                1 <= k < b ==> (#[trigger] parse_branch_spec(gv[k], idx as int)) is Some
                    && branches@[k - 1] == parse_branch_spec(gv[k], idx as int)->0,
        decreases g@.len() - b,
    {
        proof {
            assert(gv[b as int] == g@[b as int]@);
        }
        match parse_branch(&g[b], idx) {
            Some(br) => {
                branches.push(br);
            },
            None => {
                return None;
            },
        }
        b = b + 1;
    }
    proof {
        assert(branches@ =~= Seq::new(
            (gv.len() - 1) as nat,
            |k: int| parse_branch_spec(gv[k + 1], idx as int)->0,
        ));
    }
    Some(Plant { thickness, branches })
}

/// One test row: whitespace-separated signed numbers.
pub open spec fn parse_row_spec(line: Seq<u8>) -> Option<Seq<i64>> {
    let fs = fields_spec(line);
    if forall|k: int| 0 <= k < fs.len() ==> int_ok(#[trigger] fs[k]) {
        Some(Seq::new(fs.len(), |k: int| int_value(fs[k]) as i64))
    } else {
        None
    }
}

fn parse_row(line: &Vec<u8>) -> (r: Option<Vec<i64>>)
    ensures
        match r {
            Some(row) => parse_row_spec(line@) == Some(row@),
            None => parse_row_spec(line@) is None,
        },
{
    let fs = fields_of(line);
    let ghost fss = fields_spec(line@);
    let mut row: Vec<i64> = Vec::new();
    let mut k: usize = 0;
    while k < fs.len()
        invariant
            k <= fs@.len(),
            fss == fields_spec(line@),
            fs@.map_values(|f: Vec<u8>| f@) == fss,
            row@.len() == k,
            forall|j: int|
                0 <= j < k ==> int_ok(#[trigger] fss[j]) && row@[j] == int_value(fss[j]) as i64,
        decreases fs@.len() - k,
    {
        proof {
            assert(fs@.map_values(|f: Vec<u8>| f@)[k as int] == fs@[k as int]@);
        }
        match parse_i64(&fs[k]) {
            Some(v) => {
                row.push(v);
            },
            None => {
                proof {
                    assert(!int_ok(fss[k as int]));
                }
                return None;
            },
        }
        k = k + 1;
    }
    proof {
        assert(row@ =~= Seq::new(fss.len(), |j: int| int_value(fss[j]) as i64));
    }
    Some(row)
}

/// The model of parsed test rows.
pub open spec fn rows_view(v: Vec<Vec<i64>>) -> Seq<Seq<i64>> {
    v@.map_values(|r: Vec<i64>| r@)
}

/// Every plant group before the first empty group parses at its index.
pub open spec fn all_plants_ok(gs: Seq<Seq<Seq<u8>>>, fe: int) -> bool {
    forall|i: int| 0 <= i < fe ==> (#[trigger] parse_plant_spec(gs[i], i)) is Some
}

/// Every test line parses.
pub open spec fn all_rows_ok(tl: Seq<Seq<u8>>) -> bool {
    forall|k: int| 0 <= k < tl.len() ==> (#[trigger] parse_row_spec(tl[k])) is Some
}

/// The parsed garden and test rows: plant groups up to the first empty
/// group, then every remaining line as a test row.
pub open spec fn parse_spec(bytes: Seq<u8>) -> Option<(Seq<(i64, Seq<Branch>)>, Seq<Seq<i64>>)> {
    let ls = lines_spec(trim_spec(bytes));
    let gs = group_spec(ls);
    let fe = first_empty(gs);
    let tl = if fe >= gs.len() {
        Seq::<Seq<u8>>::empty()
    } else {
        flatten_from(gs, fe + 1)
    };
    if all_plants_ok(gs, fe) && all_rows_ok(tl) {
        Some(
            (
                Seq::new(fe as nat, |i: int| parse_plant_spec(gs[i], i)->0),
                Seq::new(tl.len(), |k: int| parse_row_spec(tl[k])->0),
            ),
        )
    } else {
        None
    }
}

/// A parsed garden is well formed: its connections were checked against
/// each plant's index.
pub proof fn lemma_parsed_wf(gs: Seq<Seq<Seq<u8>>>, fe: int)
    requires
        0 <= fe <= gs.len(),
        fe <= 0xffff_ffff_ffff_ffff,
        all_plants_ok(gs, fe),
    ensures
        garden_wf(Seq::new(fe as nat, |i: int| parse_plant_spec(gs[i], i)->0)),
{
    let ps = Seq::new(fe as nat, |i: int| parse_plant_spec(gs[i], i)->0);
    assert forall|i: int, b: int|
        0 <= i < ps.len() && 0 <= b < ps[i].1.len() implies match #[trigger] ps[i].1[b] {
        Branch::Free(_) => true,
        Branch::Connected(_, p) => 1 <= p <= i,
    } by {
        assert(parse_plant_spec(gs[i], i) is Some);
        assert(ps[i] == parse_plant_spec(gs[i], i)->0);
        let g = gs[i];
        assert(ps[i].1 =~= Seq::new(
            (g.len() - 1) as nat,
            |q: int| parse_branch_spec(g[q + 1], i)->0,
        ));
        assert(ps[i].1[b] == parse_branch_spec(g[b + 1], i)->0);
        assert(parse_branch_spec(g[b + 1], i) is Some);
    }
}

/// Parses the whole input into the garden and the test rows.
pub fn parse(input: &str) -> (r: Option<(Garden, Vec<Vec<i64>>)>)
    ensures
        match r {
            Some(gr) => parse_spec(input.spec_bytes()) == Some((gr.0.view_spec(), rows_view(gr.1)))
                && garden_wf(gr.0.view_spec()),
            None => parse_spec(input.spec_bytes()) is None,
        },
{
    let bytes = input.as_bytes_vec();
    let trimmed = trim_bytes(&bytes);
    let ls = split_lines(&trimmed);
    let ghost lsv = lines_spec(trim_spec(input.spec_bytes()));
    proof {
        assert(lines_view(ls) =~~= lsv);
    }
    let gs = split_groups(&ls);
    let ghost gsv = group_spec(lsv);
    let mut fe: usize = 0;
    while fe < gs.len() && gs[fe].len() > 0
        invariant
            fe <= gs@.len(),
            gsv == group_spec(lsv),
            groups_view(gs) == gsv,
            forall|j: int| 0 <= j < fe ==> #[trigger] gsv[j].len() > 0,
        decreases gs@.len() - fe,
    {
        proof {
            assert(gsv[fe as int] == lines_view(gs@[fe as int]));
        }
        fe = fe + 1;
    }
    proof {
        if fe < gs@.len() {
            assert(gsv[fe as int] == lines_view(gs@[fe as int]));
        }
        lemma_first_empty(gsv, fe as int);
    }

    // Parse the plants.
    let mut plants: Vec<Plant> = Vec::new();
    let mut i: usize = 0;
    while i < fe
        invariant
            i <= fe <= gs@.len(),
            lsv == lines_spec(trim_spec(input.spec_bytes())),
            gsv == group_spec(lsv),
            groups_view(gs) == gsv,
            first_empty(gsv) == fe as int,
            plants@.len() == i,
            forall|k: int|
                0 <= k < i ==> (#[trigger] parse_plant_spec(gsv[k], k)) is Some && plant_view(
                    plants@[k],
                ) == parse_plant_spec(gsv[k], k)->0,
        decreases fe - i,
    {
        proof {
            assert(gsv[i as int] == lines_view(gs@[i as int]));
        }
        match parse_plant(&gs[i], i as u64) {
            Some(p) => {
                plants.push(p);
            },
            None => {
                proof {
                    assert(parse_plant_spec(gsv[i as int], i as int) is None);
                    assert(!all_plants_ok(gsv, first_empty(gsv)));
                }
                return None;
            },
        }
        i = i + 1;
    }

    // Collect the test lines.
    let mut tl: Vec<Vec<u8>> = Vec::new();
    let ghost tls = if first_empty(gsv) >= gsv.len() {
        Seq::<Seq<u8>>::empty()
    } else {
        flatten_from(gsv, first_empty(gsv) + 1)
    };
    if fe < gs.len() {
        let mut k: usize = fe + 1;
        proof {
            assert(lines_view(tl) =~~= Seq::<Seq<u8>>::empty());
        }
        while k < gs.len()
            invariant
                fe + 1 <= k <= gs@.len(),
                gsv == group_spec(lsv),
                groups_view(gs) == gsv,
                tls == flatten_from(gsv, fe + 1),
                lines_view(tl) + flatten_from(gsv, k as int) == tls,
            decreases gs@.len() - k,
        {
            proof {
                assert(gsv[k as int] == lines_view(gs@[k as int]));
            }
            let group = &gs[k];
            let mut j: usize = 0;
            while j < group.len()
                invariant
                    j <= group@.len(),
                    gsv == group_spec(lsv),
                    groups_view(gs) == gsv,
                    fe + 1 <= k < gs@.len(),
                    group == &gs@[k as int],
                    tls == flatten_from(gsv, fe + 1),
                    lines_view(tl) + gsv[k as int].skip(j as int) + flatten_from(gsv, k + 1)
                        == tls,
                decreases group@.len() - j,
            {
                proof {
                    assert(lines_view(*group)[j as int] == group@[j as int]@);
                    assert(gsv[k as int] == lines_view(gs@[k as int]));
                }
                let line = copy_line(&group[j]);
                tl.push(line);
                proof {
                    assert(lines_view(tl) + gsv[k as int].skip(j + 1) + flatten_from(gsv, k + 1)
                        =~~= tls);
                }
                j = j + 1;
            }
            proof {
                assert(gsv[k as int].skip(group@.len() as int) =~~= Seq::<Seq<u8>>::empty());
                assert(lines_view(tl) + flatten_from(gsv, k + 1) =~~= tls);
            }
            k = k + 1;
        }
        proof {
            assert(flatten_from(gsv, gs@.len() as int) =~~= Seq::<Seq<u8>>::empty());
            assert(lines_view(tl) =~~= tls);
        }
    } else {
        proof {
            assert(lines_view(tl) =~~= tls);
        }
    }

    // Parse the test rows.
    let mut rows: Vec<Vec<i64>> = Vec::new();
    let mut k: usize = 0;
    while k < tl.len()
        invariant
            k <= tl@.len(),
            lsv == lines_spec(trim_spec(input.spec_bytes())),
            gsv == group_spec(lsv),
            first_empty(gsv) == fe as int,
            fe <= gs@.len(),
            gs@.len() == gsv.len(),
            tls == (if fe as int >= gsv.len() {
                Seq::<Seq<u8>>::empty()
            } else {
                flatten_from(gsv, fe + 1)
            }),
            lines_view(tl) == tls,
            rows@.len() == k,
            forall|j: int|
                0 <= j < k ==> (#[trigger] parse_row_spec(tls[j])) is Some && rows@[j]@
                    == parse_row_spec(tls[j])->0,
        decreases tl@.len() - k,
    {
        proof {
            assert(lines_view(tl)[k as int] == tl@[k as int]@);
        }
        match parse_row(&tl[k]) {
            Some(row) => {
                rows.push(row);
            },
            None => {
                proof {
                    assert(parse_row_spec(tls[k as int]) is None);
                    assert(!all_rows_ok(tls));
                }
                return None;
            },
        }
        k = k + 1;
    }

    let garden = Garden::new(plants);
    proof {
        assert(all_plants_ok(gsv, first_empty(gsv)));
        assert(all_rows_ok(tls));
        assert(garden.view_spec() =~~= Seq::new(
            first_empty(gsv) as nat,
            |q: int| parse_plant_spec(gsv[q], q)->0,
        )) by {
            assert forall|q: int| 0 <= q < fe implies garden.view_spec()[q] == parse_plant_spec(
                gsv[q],
                q,
            )->0 by {
                assert(garden.view_spec()[q] == plant_view(garden.plants@[q]));
            }
        }
        assert(rows_view(rows) =~~= Seq::new(tls.len(), |q: int| parse_row_spec(tls[q])->0)) by {
            assert forall|q: int| 0 <= q < tls.len() implies rows_view(rows)[q]
                == parse_row_spec(tls[q])->0 by {
                assert(rows_view(rows)[q] == rows@[q]@);
            }
        }
        lemma_parsed_wf(gsv, first_empty(gsv));
    }
    Some((garden, rows))
}

/// Part one's answer: the last plant's energy.
pub open spec fn answer1_spec(bytes: Seq<u8>) -> Option<i64> {
    match parse_spec(bytes) {
        None => None,
        Some(pr) => {
            let ps = pr.0;
            if ps.len() == 0 {
                None
            } else if !energy_fits(ps, ps.len() - 1) {
                None
            } else {
                Some(energy_int(ps, ps.len() - 1) as i64)
            }
        },
    }
}

/// The garden and running total after the first `k` test rows: each row
/// re-seeds the garden (the change persists) and the last plant's energy
/// joins the total.
pub open spec fn run_rows(
    plants: Seq<(i64, Seq<Branch>)>,
    rows: Seq<Seq<i64>>,
    k: int,
) -> Option<(Seq<(i64, Seq<Branch>)>, int)>
    decreases k,
{
    if k <= 0 {
        Some((plants, 0))
    } else {
        match run_rows(plants, rows, k - 1) {
            None => None,
            Some(st) => {
                let ps = st.0;
                if !row_ok(ps, rows[k - 1]) {
                    None
                } else {
                    let ps2 = apply_row(ps, rows[k - 1]);
                    if ps2.len() == 0 || !energy_fits(ps2, ps2.len() - 1) {
                        None
                    } else {
                        let e = energy_int(ps2, ps2.len() - 1);
                        if st.1 + e < i64::MIN || st.1 + e > i64::MAX {
                            None
                        } else {
                            Some((ps2, st.1 + e))
                        }
                    }
                }
            },
        }
    }
}

proof fn lemma_run_rows_none(
    plants: Seq<(i64, Seq<Branch>)>,
    rows: Seq<Seq<i64>>,
    k: int,
    n: int,
)
    requires
        0 <= k <= n,
        run_rows(plants, rows, k) is None,
    ensures
        run_rows(plants, rows, n) is None,
    decreases n - k,
{
    if k < n {
        lemma_run_rows_none(plants, rows, k + 1, n);
    }
}

/// Part two's answer: the sum of the last plant's energy over every test
/// row.
pub open spec fn answer2_spec(bytes: Seq<u8>) -> Option<i64> {
    match parse_spec(bytes) {
        None => None,
        Some(pr) => match run_rows(pr.0, pr.1, pr.1.len() as int) {
            None => None,
            Some(st) => Some(st.1 as i64),
        },
    }
}

/// Part one: parse and read the last plant's energy.
pub fn p1(input: &str) -> (r: Option<i64>)
    ensures
        r == answer1_spec(input.spec_bytes()),
{
    let (garden, _rows) = match parse(input) {
        Some(gr) => gr,
        None => {
            return None;
        },
    };
    if garden.plants.len() == 0 {
        return None;
    }
    garden.energy()
}

/// Part two: run every test row and sum the energies.
pub fn p2(input: &str) -> (r: Option<i64>)
    ensures
        r == answer2_spec(input.spec_bytes()),
{
    let (mut garden, rows) = match parse(input) {
        Some(gr) => gr,
        None => {
            return None;
        },
    };
    let ghost ps0 = garden.view_spec();
    let ghost rws = rows_view(rows);
    let mut sum: i64 = 0;
    let mut k: usize = 0;
    while k < rows.len()
        invariant
            k <= rows@.len(),
            rws == rows_view(rows),
            parse_spec(input.spec_bytes()) == Some((ps0, rws)),
            garden_wf(garden.view_spec()),
            run_rows(ps0, rws, k as int) == Some((garden.view_spec(), sum as int)),
        decreases rows@.len() - k,
    {
        proof {
            assert(rows_view(rows)[k as int] == rows@[k as int]@);
        }
        let ghost cur = garden.view_spec();
        if rows[k].len() > garden.plants.len() {
            proof {
                assert(!row_ok(cur, rws[k as int]));
                assert(run_rows(ps0, rws, k + 1) is None);
                lemma_run_rows_none(ps0, rws, k + 1, rws.len() as int);
            }
            return None;
        }
        let mut c: usize = 0;
        while c < rows[k].len()
            invariant
                k < rows@.len(),
                rws == rows_view(rows),
                parse_spec(input.spec_bytes()) == Some((ps0, rws)),
                cur == garden.view_spec(),
                garden_wf(garden.view_spec()),
                run_rows(ps0, rws, k as int) == Some((garden.view_spec(), sum as int)),
                c <= rows@[k as int]@.len(),
                rows@[k as int]@.len() <= garden.plants@.len(),
                forall|j: int| 0 <= j < c ==> #[trigger] garden.view_spec()[j].1.len() >= 1,
            decreases rows@[k as int]@.len() - c,
        {
            proof {
                assert(garden.view_spec()[c as int] == plant_view(garden.plants@[c as int]));
            }
            if garden.plants[c].branches.len() == 0 {
                proof {
                    assert(rws[k as int] == rows@[k as int]@);
                    assert(garden.view_spec()[c as int].1.len() == 0);
                    assert(!row_ok(garden.view_spec(), rws[k as int]));
                    assert(run_rows(ps0, rws, k + 1) is None);
                    lemma_run_rows_none(ps0, rws, k + 1, rws.len() as int);
                }
                return None;
            }
            c = c + 1;
        }
        proof {
            assert(row_ok(garden.view_spec(), rws[k as int]));
        }
        if garden.plants.len() == 0 {
            proof {
                assert(apply_row(cur, rws[k as int]).len() == 0);
                assert(run_rows(ps0, rws, k + 1) is None);
                lemma_run_rows_none(ps0, rws, k + 1, rws.len() as int);
            }
            return None;
        }
        let e = match garden.energy_test(&rows[k]) {
            Some(e) => e,
            None => {
                proof {
                    assert(run_rows(ps0, rws, k + 1) is None);
                    lemma_run_rows_none(ps0, rws, k + 1, rws.len() as int);
                }
                return None;
            },
        };
        let s2 = match sum.checked_add(e) {
            Some(s2) => s2,
            None => {
                proof {
                    assert(run_rows(ps0, rws, k + 1) is None);
                    lemma_run_rows_none(ps0, rws, k + 1, rws.len() as int);
                }
                return None;
            },
        };
        proof {
            assert(run_rows(ps0, rws, k + 1) == Some((garden.view_spec(), sum + e)));
        }
        sum = s2;
        k = k + 1;
    }
    Some(sum)
}

/// The contribution of one branch to the pull on input `tgt`.
pub open spec fn conn_term(br: Branch, tgt: int) -> int {
    match br {
        Branch::Free(_) => 0,
        Branch::Connected(t, p) => if p == tgt {
            t as int
        } else {
            0
        },
    }
}

/// The pull of one plant's first `b` branches on input `tgt`.
pub open spec fn plant_conn(brs: Seq<Branch>, tgt: int, b: int) -> int
    decreases b,
{
    if b <= 0 {
        0
    } else {
        plant_conn(brs, tgt, b - 1) + conn_term(brs[b - 1], tgt)
    }
}

pub open spec fn plant_conn_fits(brs: Seq<Branch>, tgt: int, b: int) -> bool
    decreases b,
{
    b <= 0 || (plant_conn_fits(brs, tgt, b - 1) && i64::MIN <= plant_conn(brs, tgt, b)
        <= i64::MAX)
}

/// The total pull of plants `fb..k` on input `tgt`.
pub open spec fn gconn(plants: Seq<(i64, Seq<Branch>)>, tgt: int, fb: int, k: int) -> int
    decreases k,
{
    if k <= fb || k <= 0 {
        0
    } else {
        gconn(plants, tgt, fb, k - 1) + plant_conn(plants[k - 1].1, tgt, plants[k - 1].1.len() as int)
    }
}

pub open spec fn gconn_fits(plants: Seq<(i64, Seq<Branch>)>, tgt: int, fb: int, k: int) -> bool
    decreases k,
{
    k <= fb || k <= 0 || (gconn_fits(plants, tgt, fb, k - 1) && plant_conn_fits(
        plants[k - 1].1,
        tgt,
        plants[k - 1].1.len() as int,
    ) && i64::MIN <= gconn(plants, tgt, fb, k) <= i64::MAX)
}

/// Every input's total pull evaluates within `i64`.
pub open spec fn all_gconn_fits(plants: Seq<(i64, Seq<Branch>)>, fb: int) -> bool {
    forall|i: int| 0 <= i < fb ==> #[trigger] gconn_fits(plants, i + 1, fb, plants.len() as int)
}

/// The most favourable seeding: feed an input exactly when its total pull
/// is positive.
pub open spec fn opt_row(plants: Seq<(i64, Seq<Branch>)>, fb: int) -> Seq<i64> {
    Seq::new(
        (if fb >= 0 {
            fb
        } else {
            0
        }) as nat,
        |i: int|
            if gconn(plants, i + 1, fb, plants.len() as int) > 0 {
                1i64
            } else {
                0i64
            },
    )
}

proof fn lemma_plant_conn_fits_prefix(brs: Seq<Branch>, tgt: int, b1: int, b2: int)
    requires
        0 <= b1 <= b2,
        plant_conn_fits(brs, tgt, b2),
    ensures
        plant_conn_fits(brs, tgt, b1),
    decreases b2 - b1,
{
    if b1 < b2 {
        lemma_plant_conn_fits_prefix(brs, tgt, b1, b2 - 1);
    }
}

proof fn lemma_gconn_fits_prefix(
    plants: Seq<(i64, Seq<Branch>)>,
    tgt: int,
    fb: int,
    k1: int,
    k2: int,
)
    requires
        0 <= k1 <= k2,
        gconn_fits(plants, tgt, fb, k2),
    ensures
        gconn_fits(plants, tgt, fb, k1),
    decreases k2 - k1,
{
    if k1 < k2 {
        lemma_gconn_fits_prefix(plants, tgt, fb, k1, k2 - 1);
    }
}

/// The garden and running total after the first `k` rows of part three:
/// rows whose energy is positive contribute the distance to the optimum.
pub open spec fn run_diffs(
    plants: Seq<(i64, Seq<Branch>)>,
    rows: Seq<Seq<i64>>,
    maxv: int,
    k: int,
) -> Option<(Seq<(i64, Seq<Branch>)>, int)>
    decreases k,
{
    if k <= 0 {
        Some((plants, 0))
    } else {
        match run_diffs(plants, rows, maxv, k - 1) {
            None => None,
            Some(st) => {
                let ps = st.0;
                if !row_ok(ps, rows[k - 1]) {
                    None
                } else {
                    let ps2 = apply_row(ps, rows[k - 1]);
                    if ps2.len() == 0 || !energy_fits(ps2, ps2.len() - 1) {
                        None
                    } else {
                        let e = energy_int(ps2, ps2.len() - 1);
                        if e > 0 {
                            let d = maxv - e;
                            if d < i64::MIN || d > i64::MAX || st.1 + d < i64::MIN || st.1 + d
                                > i64::MAX {
                                None
                            } else {
                                Some((ps2, st.1 + d))
                            }
                        } else {
                            Some((ps2, st.1))
                        }
                    }
                }
            },
        }
    }
}

proof fn lemma_run_diffs_none(
    plants: Seq<(i64, Seq<Branch>)>,
    rows: Seq<Seq<i64>>,
    maxv: int,
    k: int,
    n: int,
)
    requires
        0 <= k <= n,
        run_diffs(plants, rows, maxv, k) is None,
    ensures
        run_diffs(plants, rows, maxv, n) is None,
    decreases n - k,
{
    if k < n {
        lemma_run_diffs_none(plants, rows, maxv, k + 1, n);
    }
}

/// Part three's answer: seed optimally, take that energy as the best, and
/// sum how far each positive test row falls short of it.
pub open spec fn answer3_spec(bytes: Seq<u8>) -> Option<i64> {
    match parse_spec(bytes) {
        None => None,
        Some(pr) => {
            let ps = pr.0;
            let rows = pr.1;
            if rows.len() == 0 {
                None
            } else {
                let fb = rows[0].len() as int;
                if !all_gconn_fits(ps, fb) {
                    None
                } else {
                    let opt = opt_row(ps, fb);
                    if !row_ok(ps, opt) {
                        None
                    } else {
                        let ps1 = apply_row(ps, opt);
                        if ps1.len() == 0 || !energy_fits(ps1, ps1.len() - 1) {
                            None
                        } else {
                            let maxv = energy_int(ps1, ps1.len() - 1);
                            match run_diffs(ps1, rows, maxv, rows.len() as int) {
                                None => None,
                                Some(st) => Some(st.1 as i64),
                            }
                        }
                    }
                }
            }
        },
    }
}

/// Part three: find the optimum seeding, then total the shortfalls.
pub fn p3(input: &str) -> (r: Option<i64>)
    ensures
        r == answer3_spec(input.spec_bytes()),
{
    let (mut garden, rows) = match parse(input) {
        Some(gr) => gr,
        None => {
            return None;
        },
    };
    let ghost ps0 = garden.view_spec();
    let ghost rws = rows_view(rows);
    if rows.len() == 0 {
        return None;
    }
    proof {
        assert(rows_view(rows)[0] == rows@[0]@);
    }
    let fb = rows[0].len();

    // The optimal seeding: feed an input exactly when its total pull is
    // positive.
    let mut opt: Vec<i64> = Vec::new();
    let mut i: usize = 0;
    while i < fb
        invariant
            i <= fb,
            ps0 == garden.view_spec(),
            rws == rows_view(rows),
            parse_spec(input.spec_bytes()) == Some((ps0, rws)),
            rws.len() > 0,
            fb == rws[0].len(),
            opt@.len() == i,
            forall|q: int| 0 <= q < i ==> #[trigger] gconn_fits(ps0, q + 1, fb as int, ps0.len() as int),
            forall|q: int| 0 <= q < i ==> #[trigger] opt@[q] == opt_row(ps0, fb as int)[q],
        decreases fb - i,
    {
        let tgt: u64 = (i as u64) + 1;
        let mut gacc: i64 = 0;
        let mut k: usize = fb;
        if fb > garden.plants.len() {
            k = garden.plants.len();
            proof {
                assert(gconn(ps0, i + 1, fb as int, ps0.len() as int) == 0);
                assert(gconn_fits(ps0, i + 1, fb as int, ps0.len() as int));
                assert(gacc as int == gconn(ps0, i + 1, fb as int, garden.plants@.len() as int));
            }
        }
        while k < garden.plants.len()
            invariant
                ps0 == garden.view_spec(),
                rws == rows_view(rows),
                parse_spec(input.spec_bytes()) == Some((ps0, rws)),
                rws.len() > 0,
                fb == rws[0].len(),
                tgt == i + 1,
                i < fb,
                k <= garden.plants@.len(),
                fb <= garden.plants@.len() || k == garden.plants@.len(),
                k >= fb || k == garden.plants@.len(),
                gconn_fits(ps0, i + 1, fb as int, k as int),
                gacc as int == gconn(ps0, i + 1, fb as int, k as int),
            decreases garden.plants@.len() - k,
        {
            proof {
                assert(ps0[k as int] == plant_view(garden.plants@[k as int]));
            }
            let brs = &garden.plants[k].branches;
            let mut pacc: i64 = 0;
            let mut b: usize = 0;
            while b < brs.len()
                invariant
                    ps0 == garden.view_spec(),
                    rws == rows_view(rows),
                    parse_spec(input.spec_bytes()) == Some((ps0, rws)),
                    rws.len() > 0,
                    fb == rws[0].len(),
                    tgt == i + 1,
                    i < fb,
                    fb <= k,
                    k < garden.plants@.len(),
                    ps0[k as int] == plant_view(garden.plants@[k as int]),
                    brs@ == ps0[k as int].1,
                    b <= brs@.len(),
                    plant_conn_fits(ps0[k as int].1, i + 1, b as int),
                    pacc as int == plant_conn(ps0[k as int].1, i + 1, b as int),
                decreases brs@.len() - b,
            {
                proof {
                    assert(ps0[k as int].1[b as int] == brs@[b as int]);
                }
                let term: i64 = match brs[b] {
                    Branch::Free(_) => 0,
                    Branch::Connected(t, p) => {
                        if p == tgt {
                            t
                        } else {
                            0
                        }
                    },
                };
                proof {
                    assert(term as int == conn_term(ps0[k as int].1[b as int], i + 1));
                }
                let p2 = match pacc.checked_add(term) {
                    Some(p2) => p2,
                    None => {
                        proof {
                            assert(!plant_conn_fits(ps0[k as int].1, i + 1, b + 1));
                            assert(!plant_conn_fits(
                                ps0[k as int].1,
                                i + 1,
                                ps0[k as int].1.len() as int,
                            )) by {
                                if plant_conn_fits(
                                    ps0[k as int].1,
                                    i + 1,
                                    ps0[k as int].1.len() as int,
                                ) {
                                    lemma_plant_conn_fits_prefix(
                                        ps0[k as int].1,
                                        i + 1,
                                        b + 1,
                                        ps0[k as int].1.len() as int,
                                    );
                                }
                            }
                            assert(!gconn_fits(ps0, i + 1, fb as int, k + 1));
                            assert(!gconn_fits(ps0, i + 1, fb as int, ps0.len() as int)) by {
                                if gconn_fits(ps0, i + 1, fb as int, ps0.len() as int) {
                                    lemma_gconn_fits_prefix(
                                        ps0,
                                        i + 1,
                                        fb as int,
                                        k + 1,
                                        ps0.len() as int,
                                    );
                                }
                            }
                            assert(!all_gconn_fits(ps0, fb as int));
                        }
                        return None;
                    },
                };
                pacc = p2;
                b = b + 1;
            }
            let g2 = match gacc.checked_add(pacc) {
                Some(g2) => g2,
                None => {
                    proof {
                        assert(!gconn_fits(ps0, i + 1, fb as int, k + 1));
                        assert(!gconn_fits(ps0, i + 1, fb as int, ps0.len() as int)) by {
                            if gconn_fits(ps0, i + 1, fb as int, ps0.len() as int) {
                                lemma_gconn_fits_prefix(
                                    ps0,
                                    i + 1,
                                    fb as int,
                                    k + 1,
                                    ps0.len() as int,
                                );
                            }
                        }
                        assert(!all_gconn_fits(ps0, fb as int));
                    }
                    return None;
                },
            };
            gacc = g2;
            k = k + 1;
        }
        if gacc > 0 {
            opt.push(1);
        } else {
            opt.push(0);
        }
        proof {
            assert(opt@.last() == opt_row(ps0, fb as int)[i as int]);
        }
        i = i + 1;
    }
    proof {
        assert(all_gconn_fits(ps0, fb as int));
        assert(opt@ =~= opt_row(ps0, fb as int));
    }

    // Seed optimally and record the best energy.
    if fb > garden.plants.len() {
        proof {
            assert(!row_ok(ps0, opt_row(ps0, fb as int)));
        }
        return None;
    }
    let mut c: usize = 0;
    while c < fb
        invariant
            c <= fb,
            fb <= garden.plants@.len(),
            ps0 == garden.view_spec(),
            rws == rows_view(rows),
            parse_spec(input.spec_bytes()) == Some((ps0, rws)),
            rws.len() > 0,
            fb == rws[0].len(),
            all_gconn_fits(ps0, fb as int),
            forall|j: int| 0 <= j < c ==> #[trigger] ps0[j].1.len() >= 1,
        decreases fb - c,
    {
        proof {
            assert(ps0[c as int] == plant_view(garden.plants@[c as int]));
        }
        if garden.plants[c].branches.len() == 0 {
            proof {
                assert(ps0[c as int].1.len() == 0);
                assert(!row_ok(ps0, opt_row(ps0, fb as int)));
            }
            return None;
        }
        c = c + 1;
    }
    proof {
        assert(row_ok(ps0, opt_row(ps0, fb as int)));
    }
    if garden.plants.len() == 0 {
        proof {
            assert(apply_row(ps0, opt_row(ps0, fb as int)).len() == 0);
        }
        return None;
    }
    let maxv = match garden.energy_test(&opt) {
        Some(m) => m,
        None => {
            return None;
        },
    };
    let ghost ps1 = garden.view_spec();

    // Total the shortfall of every positive test row.
    let mut sum: i64 = 0;
    let mut k: usize = 0;
    while k < rows.len()
        invariant
            k <= rows@.len(),
            rws == rows_view(rows),
            parse_spec(input.spec_bytes()) == Some((ps0, rws)),
            rws.len() > 0,
            fb == rws[0].len(),
            all_gconn_fits(ps0, fb as int),
            row_ok(ps0, opt_row(ps0, fb as int)),
            ps1 == apply_row(ps0, opt_row(ps0, fb as int)),
            ps1.len() > 0,
            energy_fits(ps1, ps1.len() - 1),
            maxv as int == energy_int(ps1, ps1.len() - 1),
            garden_wf(garden.view_spec()),
            run_diffs(ps1, rws, maxv as int, k as int) == Some((garden.view_spec(), sum as int)),
        decreases rows@.len() - k,
    {
        proof {
            assert(rows_view(rows)[k as int] == rows@[k as int]@);
        }
        let ghost cur = garden.view_spec();
        if rows[k].len() > garden.plants.len() {
            proof {
                assert(!row_ok(cur, rws[k as int]));
                lemma_run_diffs_none(ps1, rws, maxv as int, k + 1, rws.len() as int);
            }
            return None;
        }
        let mut c: usize = 0;
        while c < rows[k].len()
            invariant
                k < rows@.len(),
                rws == rows_view(rows),
                parse_spec(input.spec_bytes()) == Some((ps0, rws)),
                rws.len() > 0,
                fb == rws[0].len(),
                all_gconn_fits(ps0, fb as int),
                row_ok(ps0, opt_row(ps0, fb as int)),
                ps1 == apply_row(ps0, opt_row(ps0, fb as int)),
                ps1.len() > 0,
                energy_fits(ps1, ps1.len() - 1),
                maxv as int == energy_int(ps1, ps1.len() - 1),
                cur == garden.view_spec(),
                run_diffs(ps1, rws, maxv as int, k as int) == Some(
                    (garden.view_spec(), sum as int),
                ),
                c <= rows@[k as int]@.len(),
                rows@[k as int]@.len() <= garden.plants@.len(),
                forall|j: int| 0 <= j < c ==> #[trigger] garden.view_spec()[j].1.len() >= 1,
            decreases rows@[k as int]@.len() - c,
        {
            proof {
                assert(garden.view_spec()[c as int] == plant_view(garden.plants@[c as int]));
            }
            if garden.plants[c].branches.len() == 0 {
                proof {
                    assert(rws[k as int] == rows@[k as int]@);
                    assert(garden.view_spec()[c as int].1.len() == 0);
                    assert(!row_ok(garden.view_spec(), rws[k as int]));
                    lemma_run_diffs_none(ps1, rws, maxv as int, k + 1, rws.len() as int);
                }
                return Option::<i64>::None;
            }
            c = c + 1;
        }
        proof {
            assert(row_ok(garden.view_spec(), rws[k as int]));
        }
        if garden.plants.len() == 0 {
            proof {
                assert(apply_row(cur, rws[k as int]).len() == 0);
                lemma_run_diffs_none(ps1, rws, maxv as int, k + 1, rws.len() as int);
            }
            return None;
        }
        let e = match garden.energy_test(&rows[k]) {
            Some(e) => e,
            None => {
                proof {
                    lemma_run_diffs_none(ps1, rws, maxv as int, k + 1, rws.len() as int);
                }
                return None;
            },
        };
        if e > 0 {
            let d = match maxv.checked_sub(e) {
                Some(d) => d,
                None => {
                    proof {
                        lemma_run_diffs_none(ps1, rws, maxv as int, k + 1, rws.len() as int);
                    }
                    return None;
                },
            };
            let s2 = match sum.checked_add(d) {
                Some(s2) => s2,
                None => {
                    proof {
                        lemma_run_diffs_none(ps1, rws, maxv as int, k + 1, rws.len() as int);
                    }
                    return None;
                },
            };
            sum = s2;
        }
        k = k + 1;
    }
    Some(sum)
}

} // verus!
