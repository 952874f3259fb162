//! A small association table from task identifiers to counts.
//!
//! It backs both the completion tally (identifier -> completions inside the
//! current cycle window) and the dynamic weight table (identifier -> sampling
//! weight for today's draw). Keys are kept distinct, so a lookup is
//! unambiguous.

use vstd::prelude::*;

verus! {

/// No key occurs twice among the entries.
pub open spec fn distinct_keys(s: Seq<(u128, u64)>) -> bool {
    forall|i: int, j: int| 0 <= i < j < s.len() ==> s[i].0 != s[j].0
}

/// The value bound to `id`, reading the entries front to back.
pub open spec fn lookup(s: Seq<(u128, u64)>, id: u128) -> Option<u64>
    decreases s.len(),
{
    if s.len() == 0 {
        None
    } else if s[0].0 == id {
        Some(s[0].1)
    } else {
        lookup(s.subrange(1, s.len() as int), id)
    }
}

/// The sum of all bound values.
pub open spec fn total(s: Seq<(u128, u64)>) -> int
    decreases s.len(),
{
    if s.len() == 0 {
        0
    } else {
        s[0].1 + total(s.subrange(1, s.len() as int))
    }
}

pub proof fn lemma_total_nonneg(s: Seq<(u128, u64)>)
    ensures
        total(s) >= 0,
    decreases s.len(),
{
    if s.len() > 0 {
        lemma_total_nonneg(s.subrange(1, s.len() as int));
    }
}

/// Appending an entry adds its value to the sum.
pub proof fn lemma_total_push(s: Seq<(u128, u64)>, p: (u128, u64))
    ensures
        total(s.push(p)) == total(s) + p.1,
    decreases s.len(),
{
    reveal_with_fuel(total, 2);
    if s.len() == 0 {
        assert(s.push(p)[0] == p);
        assert(s.push(p).subrange(1, 1) =~= Seq::<(u128, u64)>::empty());
    } else {
        assert(s.push(p)[0] == s[0]);
        assert(s.push(p).subrange(1, s.len() as int + 1) =~= s.subrange(1, s.len() as int).push(p));
        lemma_total_push(s.subrange(1, s.len() as int), p);
    }
}

/// The sum splits at any cut point.
pub proof fn lemma_total_split(s: Seq<(u128, u64)>, i: int)
    requires
        0 <= i <= s.len(),
    ensures
        total(s) == total(s.subrange(0, i)) + total(s.subrange(i, s.len() as int)),
    decreases i,
{
    if i == 0 {
        assert(s.subrange(0, 0) =~= Seq::<(u128, u64)>::empty());
        assert(s.subrange(0, s.len() as int) =~= s);
    } else {
        let tail = s.subrange(1, s.len() as int);
        lemma_total_split(tail, i - 1);
        assert(s.subrange(0, i).subrange(1, i) =~= tail.subrange(0, i - 1));
        assert(s.subrange(i, s.len() as int) =~= tail.subrange(i - 1, tail.len() as int));
        assert(total(s.subrange(0, i)) == s[0].1 + total(tail.subrange(0, i - 1)));
    }
}

/// A key found at some index resolves the lookup, provided keys are distinct.
pub proof fn lemma_lookup_at_index(s: Seq<(u128, u64)>, i: int)
    requires
        distinct_keys(s),
        0 <= i < s.len(),
    ensures
        lookup(s, s[i].0) == Some(s[i].1),
    decreases i,
{
    if i > 0 {
        let tail = s.subrange(1, s.len() as int);
        lemma_lookup_at_index(tail, i - 1);
    }
}

/// A key at no index resolves to nothing.
pub proof fn lemma_lookup_absent(s: Seq<(u128, u64)>, id: u128)
    requires
        forall|i: int| 0 <= i < s.len() ==> s[i].0 != id,
    ensures
        lookup(s, id) is None,
    decreases s.len(),
{
    if s.len() > 0 {
        lemma_lookup_absent(s.subrange(1, s.len() as int), id);
    }
}

/// Appending a fresh key leaves every other lookup alone and binds the new one.
pub proof fn lemma_lookup_push(s: Seq<(u128, u64)>, p: (u128, u64), id: u128)
    ensures
        lookup(s.push(p), id) == if lookup(s, id) is Some {
            lookup(s, id)
        } else if p.0 == id {
            Some(p.1)
        } else {
            None::<u64>
        },
    decreases s.len(),
{
    reveal_with_fuel(lookup, 2);
    if s.len() == 0 {
        assert(s.push(p)[0] == p);
        assert(s.push(p).subrange(1, 1) =~= Seq::<(u128, u64)>::empty());
    } else {
        assert(s.push(p)[0] == s[0]);
        assert(s.push(p).subrange(1, s.len() as int + 1) =~= s.subrange(1, s.len() as int).push(p));
        lemma_lookup_push(s.subrange(1, s.len() as int), p, id);
    }
}

/// Overwriting the value at one index rebinds that key and no other.
pub proof fn lemma_lookup_update(s: Seq<(u128, u64)>, i: int, c: u64, id: u128)
    requires
        distinct_keys(s),
        0 <= i < s.len(),
    ensures
        lookup(s.update(i, (s[i].0, c)), id) == if s[i].0 == id {
            Some(c)
        } else {
            lookup(s, id)
        },
    decreases i,
{
    let u = s.update(i, (s[i].0, c));
    if i == 0 {
        assert(u.subrange(1, u.len() as int) =~= s.subrange(1, s.len() as int));
    } else {
        let tail = s.subrange(1, s.len() as int);
        assert(u.subrange(1, u.len() as int) =~= tail.update(i - 1, (tail[i - 1].0, c)));
        lemma_lookup_update(tail, i - 1, c, id);
    }
}

/// Overwriting the value at one index shifts the sum by the difference.
pub proof fn lemma_total_update(s: Seq<(u128, u64)>, i: int, c: u64)
    requires
        0 <= i < s.len(),
    ensures
        total(s.update(i, (s[i].0, c))) == total(s) - s[i].1 + c,
    decreases i,
{
    let u = s.update(i, (s[i].0, c));
    if i == 0 {
        assert(u.subrange(1, u.len() as int) =~= s.subrange(1, s.len() as int));
    } else {
        let tail = s.subrange(1, s.len() as int);
        assert(u.subrange(1, u.len() as int) =~= tail.update(i - 1, (tail[i - 1].0, c)));
        lemma_total_update(tail, i - 1, c);
    }
}

/// No single count exceeds the sum of all counts.
pub proof fn lemma_lookup_le_total(s: Seq<(u128, u64)>, id: u128)
    requires
        lookup(s, id) is Some,
    ensures
        lookup(s, id)->Some_0 <= total(s),
    decreases s.len(),
{
    if s.len() > 0 {
        let tail = s.subrange(1, s.len() as int);
        lemma_total_nonneg(tail);
        if s[0].0 != id {
            lemma_lookup_le_total(tail, id);
        }
    }
}

/// Identifier-to-count table with distinct keys.
#[derive(Clone)]
pub struct CountTable {
    entries: Vec<(u128, u64)>,
}

impl View for CountTable {
    type V = Seq<(u128, u64)>;

    closed spec fn view(&self) -> Seq<(u128, u64)> {
        self.entries@
    }
}

impl CountTable {
    /// Keys are distinct, so every lookup is unambiguous.
    pub open spec fn wf(&self) -> bool {
        distinct_keys(self@)
    }

    pub fn new() -> (r: CountTable)
        ensures
            r@ =~= Seq::<(u128, u64)>::empty(),
            r.wf(),
    {
        CountTable { entries: Vec::new() }
    }

    pub fn len(&self) -> (r: usize)
        ensures
            r == self@.len(),
    {
        self.entries.len()
    }

    pub fn entry_at(&self, i: usize) -> (r: (u128, u64))
        requires
            i < self@.len(),
        ensures
            r == self@[i as int],
    {
        self.entries[i]
    }

    /// The count bound to `id`, or nothing when `id` has no entry.
    pub fn get(&self, id: u128) -> (r: Option<u64>)
        requires
            self.wf(),
        ensures
            r == lookup(self@, id),
    {
        let n = self.entries.len();
        let mut i: usize = 0;
        while i < n
            invariant
                n == self@.len(),
                0 <= i <= n,
                self.wf(),
                forall|j: int| 0 <= j < i ==> self@[j].0 != id,
            decreases n - i,
        {
            if self.entries[i].0 == id {
                proof {
                    lemma_lookup_at_index(self@, i as int);
                }
                return Some(self.entries[i].1);
            }
            i = i + 1;
        }
        proof {
            lemma_lookup_absent(self@, id);
        }
        None
    }

    /// Adds one to the count of `id`, creating the entry at count 1 when absent.
    pub fn increment(&mut self, id: u128)
        requires
            old(self).wf(),
            lookup(old(self)@, id) is Some ==> lookup(old(self)@, id)->Some_0 < u64::MAX,
        ensures
            final(self).wf(),
            lookup(final(self)@, id) == Some(
                if lookup(old(self)@, id) is Some {
                    (lookup(old(self)@, id)->Some_0 + 1) as u64
                } else {
                    1u64
                },
            ),
            forall|other: u128| other != id ==> lookup(final(self)@, other) == lookup(
                old(self)@,
                other,
            ),
            total(final(self)@) == total(old(self)@) + 1,
    {
        let n = self.entries.len();
        let mut i: usize = 0;
        while i < n
            invariant
                n == self@.len(),
                0 <= i <= n,
                self.wf(),
                self@ == old(self)@,
                lookup(old(self)@, id) is Some ==> lookup(old(self)@, id)->Some_0 < u64::MAX,
                forall|j: int| 0 <= j < i ==> self@[j].0 != id,
            decreases n - i,
        {
            if self.entries[i].0 == id {
                proof {
                    lemma_lookup_at_index(self@, i as int);
                }
                let c = self.entries[i].1;
                self.entries[i] = (id, c + 1);
                proof {
                    lemma_lookup_update(old(self)@, i as int, (c + 1) as u64, id);
                    lemma_total_update(old(self)@, i as int, (c + 1) as u64);
                    assert(forall|other: u128| other != id ==> lookup(self@, other) == lookup(
                        old(self)@,
                        other,
                    )) by {
                        assert forall|other: u128| other != id implies lookup(self@, other)
                            == lookup(old(self)@, other) by {
                            lemma_lookup_update(old(self)@, i as int, (c + 1) as u64, other);
                        }
                    }
                }
                return ;
            }
            i = i + 1;
        }
        proof {
            lemma_lookup_absent(self@, id);
        }
        self.entries.push((id, 1));
        proof {
            lemma_total_push(old(self)@, (id, 1u64));
            assert forall|other: u128| true implies lookup(self@, other) == (if lookup(
                old(self)@,
                other,
            ) is Some {
                lookup(old(self)@, other)
            } else if other == id {
                Some(1u64)
            } else {
                None::<u64>
            }) by {
                lemma_lookup_push(old(self)@, (id, 1u64), other);
            }
            assert forall|i2: int, j2: int| 0 <= i2 < j2 < self@.len() implies self@[i2].0
                != self@[j2].0 by {
                if j2 + 1 == self@.len() {
                    assert(self@[j2] == (id, 1u64));
                }
            }
        }
    }

    /// Binds `id` to `c`; `id` must be fresh.
    pub fn insert_new(&mut self, id: u128, c: u64)
        requires
            old(self).wf(),
            lookup(old(self)@, id) is None,
        ensures
            final(self).wf(),
            final(self)@ == old(self)@.push((id, c)),
            lookup(final(self)@, id) == Some(c),
            forall|other: u128| other != id ==> lookup(final(self)@, other) == lookup(
                old(self)@,
                other,
            ),
    {
        self.entries.push((id, c));
        proof {
            assert forall|other: u128| true implies lookup(self@, other) == (if lookup(
                old(self)@,
                other,
            ) is Some {
                lookup(old(self)@, other)
            } else if other == id {
                Some(c)
            } else {
                None::<u64>
            }) by {
                lemma_lookup_push(old(self)@, (id, c), other);
            }
            assert forall|i2: int, j2: int| 0 <= i2 < j2 < self@.len() implies self@[i2].0
                != self@[j2].0 by {
                if j2 + 1 == self@.len() {
                    if self@[i2].0 == id {
                        lemma_lookup_at_index(old(self)@, i2);
                    }
                }
            }
        }
    }

    /// The sum of all counts.
    pub fn total_count(&self) -> (r: u64)
        requires
            total(self@) <= u64::MAX,
        ensures
            r == total(self@),
    {
        let n = self.entries.len();
        let mut acc: u64 = 0;
        let mut i: usize = 0;
        proof {
            lemma_total_nonneg(self@);
        }
        while i < n
            invariant
                n == self@.len(),
                0 <= i <= n,
                total(self@) <= u64::MAX,
                acc == total(self@.subrange(0, i as int)),
            decreases n - i,
        {
            proof {
                lemma_total_split(self@, i as int);
                lemma_total_split(self@.subrange(i as int, n as int), 1);
                assert(self@.subrange(i as int, n as int).subrange(0, 1) =~= self@.subrange(
                    i as int,
                    i + 1,
                ));
                assert(self@.subrange(i as int, n as int).subrange(
                    1,
                    (n - i) as int,
                ) =~= self@.subrange(i + 1, n as int));
                assert(total(self@.subrange(i as int, i + 1)) == self@[i as int].1) by {
                    assert(self@.subrange(i as int, i + 1).subrange(1, 1) =~= Seq::<(
                        u128,
                        u64,
                    )>::empty());
                }
                lemma_total_nonneg(self@.subrange(i + 1, n as int));
                assert(self@.subrange(0, i + 1) =~= self@.subrange(0, i as int).push(
                    self@[i as int],
                ));
                lemma_total_push(self@.subrange(0, i as int), self@[i as int]);
            }
            acc = acc + self.entries[i].1;
            i = i + 1;
        }
        proof {
            assert(self@.subrange(0, n as int) =~= self@);
        }
        acc
    }
}

} // verus!
