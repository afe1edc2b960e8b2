//! A set of calendar dates, kept in ascending order.

use vstd::prelude::*;

use crate::date::Date;

verus! {

/// The day numbers of `dates`.
pub open spec fn days_of(dates: Seq<Date>) -> Seq<int> {
    dates.map_values(|date: Date| date@)
}

/// Whether every element of `days` is smaller than those after it.
pub open spec fn ascending(days: Seq<int>) -> bool {
    forall|i: int, j: int| 0 <= i < j < days.len() ==> days[i] < days[j]
}

/// A set of dates.
#[derive(Debug, PartialEq, Eq)]
pub struct DateSet {
    dates: Vec<Date>,
}

impl View for DateSet {
    type V = Set<int>;

    closed spec fn view(&self) -> Set<int> {
        days_of(self.dates@).to_set()
    }
}

/// The number of dates in `dates`, ascending, that come before `day`.
fn position(dates: &Vec<Date>, day: i32) -> (r: usize)
    requires
        ascending(days_of(dates@)),
    ensures
        r <= dates@.len(),
        forall|i: int| 0 <= i < r ==> dates@[i]@ < day,
        forall|i: int| r <= i < dates@.len() ==> day <= dates@[i]@,
{
    let mut low: usize = 0;
    let mut high: usize = dates.len();
    while low < high
        invariant
            low <= high <= dates@.len(),
            ascending(days_of(dates@)),
            forall|i: int| 0 <= i < low ==> dates@[i]@ < day,
            forall|i: int| high <= i < dates@.len() ==> day <= dates@[i]@,
        decreases high - low,
    {
        let middle: usize = low + (high - low) / 2;
        let ghost days = days_of(dates@);
        assert forall|i: int, j: int| 0 <= i < j < dates@.len() implies dates@[i]@ < dates@[j]@ by {
            assert(days[i] < days[j]);
        }
        if dates[middle].day() < day {
            low = middle + 1;
        } else {
            high = middle;
        }
    }
    low
}

impl Clone for DateSet {
    fn clone(&self) -> (r: DateSet)
        ensures
            r@ == self@,
            r.days() == self.days(),
    {
        let dates: Vec<Date> = self.to_vec();
        DateSet { dates }
    }
}

impl DateSet {
    #[verifier::type_invariant]
    spec fn ordered(self) -> bool {
        ascending(days_of(self.dates@))
    }

    /// The day numbers in the set, ascending.
    pub closed spec fn days(self) -> Seq<int> {
        days_of(self.dates@)
    }

    /// The set without dates.
    pub fn new() -> (r: DateSet)
        ensures
            r@ == Set::<int>::empty(),
    {
        let dates: Vec<Date> = Vec::new();
        assert(days_of(dates@).to_set() =~= Set::<int>::empty());
        DateSet { dates }
    }

    /// The number of dates in the set.
    pub fn len(&self) -> (r: usize)
        ensures
            r == self@.len(),
            self@.finite(),
            r == self.days().len(),
    {
        proof {
            use_type_invariant(self);
            let days = days_of(self.dates@);
            assert(days.no_duplicates()) by {
                assert forall|i: int, j: int|
                    0 <= i < days.len() && 0 <= j < days.len() && i != j implies days[i]
                    != days[j] by {
                    if i < j {
                        assert(days[i] < days[j]);
                    } else {
                        assert(days[j] < days[i]);
                    }
                }
            }
            days.unique_seq_to_set();
        }
        self.dates.len()
    }

    /// Whether the set has no dates.
    pub fn is_empty(&self) -> (r: bool)
        ensures
            r <==> self@ == Set::<int>::empty(),
    {
        let ghost days = days_of(self.dates@);
        proof {
            if days.len() > 0 {
                assert(self@.contains(days[0]));
            } else {
                assert(self@ =~= Set::<int>::empty());
            }
        }
        self.dates.len() == 0
    }

    /// Whether `date` is in the set.
    pub fn contains(&self, date: &Date) -> (r: bool)
        ensures
            r == self@.contains(date@),
    {
        proof {
            use_type_invariant(self);
        }
        let day: i32 = date.day();
        let at: usize = position(&self.dates, day);
        let ghost days = days_of(self.dates@);
        assert(forall|i: int| 0 <= i < days.len() ==> days[i] == self.dates@[i]@);
        if at < self.dates.len() && self.dates[at].day() == day {
            assert(days[at as int] == date@);
            true
        } else {
            proof {
                if self@.contains(date@) {
                    let i = choose|i: int| 0 <= i < days.len() && days[i] == date@;
                    if i > at {
                        assert(days[at as int] < days[i]);
                    }
                    assert(false);
                }
            }
            false
        }
    }

    /// The earliest date of the set, if it has any.
    pub fn first(&self) -> (r: Option<&Date>)
        ensures
            match r {
                Some(date) => self@.contains(date@) && forall|d: int| #[trigger]
                    self@.contains(d) ==> date@ <= d,
                None => self@ == Set::<int>::empty(),
            },
    {
        proof {
            use_type_invariant(self);
        }
        let ghost days = days_of(self.dates@);
        assert(forall|i: int| 0 <= i < days.len() ==> days[i] == self.dates@[i]@);
        if self.dates.len() == 0 {
            assert(self@ =~= Set::<int>::empty());
            None
        } else {
            assert(days[0] == self.dates@[0]@);
            assert forall|d: int| #[trigger] self@.contains(d) implies days[0] <= d by {
                let i = choose|i: int| 0 <= i < days.len() && days[i] == d;
                if i > 0 {
                    assert(days[0] < days[i]);
                }
            }
            Some(&self.dates[0])
        }
    }

    /// The latest date of the set, if it has any.
    pub fn last(&self) -> (r: Option<&Date>)
        ensures
            match r {
                Some(date) => self@.contains(date@) && forall|d: int| #[trigger]
                    self@.contains(d) ==> d <= date@,
                None => self@ == Set::<int>::empty(),
            },
    {
        proof {
            use_type_invariant(self);
        }
        let ghost days = days_of(self.dates@);
        assert(forall|i: int| 0 <= i < days.len() ==> days[i] == self.dates@[i]@);
        let n: usize = self.dates.len();
        if n == 0 {
            assert(self@ =~= Set::<int>::empty());
            None
        } else {
            assert(days[n - 1] == self.dates@[n - 1]@);
            assert forall|d: int| #[trigger] self@.contains(d) implies d <= days[n - 1] by {
                let i = choose|i: int| 0 <= i < days.len() && days[i] == d;
                if i < n - 1 {
                    assert(days[i] < days[n - 1]);
                }
            }
            Some(&self.dates[n - 1])
        }
    }

    /// The dates of the set, ascending.
    pub fn to_vec(&self) -> (r: Vec<Date>)
        ensures
            days_of(r@) == self.days(),
            ascending(self.days()),
            self.days().to_set() == self@,
    {
        proof {
            use_type_invariant(self);
        }
        let mut r: Vec<Date> = Vec::new();
        let mut i: usize = 0;
        while i < self.dates.len()
            invariant
                i <= self.dates@.len(),
                r@ == self.dates@.take(i as int),
            decreases self.dates@.len() - i,
        {
            assert(self.dates@.take(i + 1) =~= self.dates@.take(i as int).push(
                self.dates@[i as int],
            ));
            r.push(self.dates[i]);
            i = i + 1;
        }
        assert(r@ =~= self.dates@);
        r
    }

    /// Adds `date` to the set.
    pub fn insert(&mut self, date: Date)
        ensures
            final(self)@ == old(self)@.insert(date@),
    {
        proof {
            use_type_invariant(&*self);
        }
        let mut dates: Vec<Date> = Vec::new();
        std::mem::swap(&mut dates, &mut self.dates);
        let day: i32 = date.day();
        let at: usize = position(&dates, day);
        let ghost before = days_of(dates@);
        assert(forall|i: int| 0 <= i < before.len() ==> before[i] == dates@[i]@);
        if at < dates.len() && dates[at].day() == day {
            assert(before.to_set() =~= before.to_set().insert(date@)) by {
                assert(before[at as int] == date@);
            }
        } else {
            dates.insert(at, date);
            let ghost after = days_of(dates@);
            proof {
                assert(after =~= before.insert(at as int, date@));
                assert forall|i: int, j: int| 0 <= i < j < after.len() implies after[i]
                    < after[j] by {
                    let k = if i < at {
                        i
                    } else {
                        i - 1
                    };
                    let l = if j < at {
                        j
                    } else {
                        j - 1
                    };
                    if i != at && j != at {
                        assert(before[k] < before[l]);
                    } else if i == at {
                        assert(before[l] == dates@[j]@);
                        if l > at {
                            assert(before[at as int] < before[l]);
                        }
                    } else {
                        assert(before[k] == dates@[i]@);
                    }
                }
                assert(after.to_set() =~= before.to_set().insert(date@)) by {
                    assert forall|d: int| after.to_set().contains(d) <==> before.to_set().insert(
                        date@,
                    ).contains(d) by {
                        if before.contains(d) {
                            let i = choose|i: int| 0 <= i < before.len() && before[i] == d;
                            if i < at {
                                assert(after[i] == d);
                            } else {
                                assert(after[i + 1] == d);
                            }
                        }
                        if after.contains(d) {
                            let i = choose|i: int| 0 <= i < after.len() && after[i] == d;
                            if i < at {
                                assert(before[i] == d);
                            } else if i > at {
                                assert(before[i - 1] == d);
                            }
                        }
                        assert(after[at as int] == date@);
                    }
                }
            }
        }
        self.dates = dates;
    }

    /// Takes `date` out of the set.
    pub fn remove(&mut self, date: &Date)
        ensures
            final(self)@ == old(self)@.remove(date@),
    {
        proof {
            use_type_invariant(&*self);
        }
        let mut dates: Vec<Date> = Vec::new();
        std::mem::swap(&mut dates, &mut self.dates);
        let day: i32 = date.day();
        let at: usize = position(&dates, day);
        let ghost before = days_of(dates@);
        assert(forall|i: int| 0 <= i < before.len() ==> before[i] == dates@[i]@);
        if at < dates.len() && dates[at].day() == day {
            let _ = dates.remove(at);
            let ghost after = days_of(dates@);
            proof {
                assert(after =~= before.remove(at as int));
                assert forall|i: int, j: int| 0 <= i < j < after.len() implies after[i]
                    < after[j] by {
                    let k = if i < at {
                        i
                    } else {
                        i + 1
                    };
                    let l = if j < at {
                        j
                    } else {
                        j + 1
                    };
                    assert(before[k] < before[l]);
                }
                assert(after.to_set() =~= before.to_set().remove(date@)) by {
                    assert forall|d: int| after.to_set().contains(d) <==> before.to_set().remove(
                        date@,
                    ).contains(d) by {
                        if before.contains(d) && d != date@ {
                            let i = choose|i: int| 0 <= i < before.len() && before[i] == d;
                            if i < at {
                                assert(after[i] == d);
                            } else {
                                assert(after[i - 1] == d);
                            }
                        }
                        if after.contains(d) {
                            let i = choose|i: int| 0 <= i < after.len() && after[i] == d;
                            if i < at {
                                assert(before[i] == d);
                                assert(before[i] < before[at as int]);
                            } else {
                                assert(before[i + 1] == d);
                                assert(before[at as int] < before[i + 1]);
                            }
                        }
                    }
                }
            }
        } else {
            assert(before.to_set() =~= before.to_set().remove(date@)) by {
                if before.contains(date@) {
                    let i = choose|i: int| 0 <= i < before.len() && before[i] == date@;
                    if i > at {
                        assert(before[at as int] < before[i]);
                    }
                    assert(false);
                }
            }
        }
        self.dates = dates;
    }
}

// ---------------------------------------------------------------------------
// Laws
// ---------------------------------------------------------------------------

/// The days of dates are those of each of them, in the same order; and ascending
/// days hold each day once.
pub proof fn law_days_are_those_of_their_dates(dates: Seq<Date>, i: int)
    requires
        0 <= i < dates.len(),
    ensures
        days_of(dates).len() == dates.len(),
        days_of(dates)[i] == dates[i]@,
        ascending(days_of(dates)) ==> forall|j: int|
            0 <= j < dates.len() ==> (j < i <==> (#[trigger] dates[j])@ < dates[i]@),
{
    let days = days_of(dates);
    if ascending(days) {
        assert forall|j: int| 0 <= j < dates.len() implies (j < i <==> (#[trigger] dates[j])@
            < dates[i]@) by {
            assert(days[j] == dates[j]@ && days[i] == dates[i]@);
        }
    }
}

} // verus!
