//! Mentor head counts, one per group letter; anything else is ignored.

use vstd::prelude::*;

verus! {

/// Counts of the three mentor groups.
pub struct Mentors {
    pub a: u64,
    pub b: u64,
    pub c: u64,
}

impl Mentors {
    /// All groups empty.
    pub fn new() -> (r: Mentors)
        ensures
            r.a == 0 && r.b == 0 && r.c == 0,
    {
        Mentors { a: 0, b: 0, c: 0 }
    }

    /// Adds `v` mentors to the group the letter names; other letters change
    /// nothing.
    pub fn add(&mut self, c: u8, v: u64)
        requires
            c == 65 ==> old(self).a + v <= u64::MAX,
            c == 66 ==> old(self).b + v <= u64::MAX,
            c == 67 ==> old(self).c + v <= u64::MAX,
        ensures
            final(self).a == if c == 65 {
                old(self).a + v
            } else {
                old(self).a as int
            },
            final(self).b == if c == 66 {
                old(self).b + v
            } else {
                old(self).b as int
            },
            final(self).c == if c == 67 {
                old(self).c + v
            } else {
                old(self).c as int
            },
    {
        if c == 65 {
            self.a = self.a + v;
        } else if c == 66 {
            self.b = self.b + v;
        } else if c == 67 {
            self.c = self.c + v;
        }
    }

    /// Removes `v` mentors from the group the letter names; other letters
    /// change nothing.
    pub fn sub(&mut self, c: u8, v: u64)
        requires
            c == 65 ==> old(self).a >= v,
            c == 66 ==> old(self).b >= v,
            c == 67 ==> old(self).c >= v,
        ensures
            final(self).a == if c == 65 {
                old(self).a - v
            } else {
                old(self).a as int
            },
            final(self).b == if c == 66 {
                old(self).b - v
            } else {
                old(self).b as int
            },
            final(self).c == if c == 67 {
                old(self).c - v
            } else {
                old(self).c as int
            },
    {
        if c == 65 {
            self.a = self.a - v;
        } else if c == 66 {
            self.b = self.b - v;
        } else if c == 67 {
            self.c = self.c - v;
        }
    }
}

} // verus!
