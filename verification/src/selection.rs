use vstd::prelude::*;

use crate::calendar_index::{
    flatten_buckets, lemma_bucket_le_total, lemma_flatten_member, lemma_total_is_flatten_len,
    total_records, CalendarIndex,
};
use crate::date::{current_date, Date};
use crate::national_day::NationalDay;

verus! {

/// Relies on `rand::Rng::gen_range` over the range `0..n`, drawn from
/// `rand::thread_rng`: the sample lies in the non-empty range, so it is below
/// `n`. Which value comes back is chance, so nothing more is stated.
#[verifier::external_body]
fn random_below(n: usize) -> (r: usize)
    requires
        n >= 1,
    ensures
        r < n,
{
    rand::Rng::gen_range(&mut rand::thread_rng(), 0..n)
}

/// Chooses one record of a bucket uniformly at random; nothing to choose
/// from an empty bucket.
pub fn choose_from<'a>(days: &'a Vec<NationalDay>) -> (r: Option<&'a NationalDay>)
    ensures
        r is Some <==> days@.len() > 0,
        r is Some ==> exists|j: int| 0 <= j < days@.len() && *r->0 == days@[j],
{
    if days.len() == 0 {
        None
    } else {
        let j = random_below(days.len());
        Some(&days[j])
    }
}

impl CalendarIndex {
    /// The number of records in the index.
    pub fn total_count(&self) -> (r: usize)
        requires
            self.total() <= usize::MAX,
        ensures
            r == self.total(),
    {
        let mut acc: usize = 0;
        let mut i: usize = 0;
        proof {
            assert(self.buckets@.skip(0) =~= self.buckets@);
        }
        while i < self.buckets.len()
            invariant
                0 <= i <= self.buckets@.len(),
                self.total() <= usize::MAX,
                acc + total_records(self.buckets@.skip(i as int)) == self.total(),
            decreases self.buckets@.len() - i,
        {
            proof {
                assert(self.buckets@.skip(i as int)[0] == self.buckets@[i as int]);
                assert(self.buckets@.skip(i as int).skip(1) =~= self.buckets@.skip(i + 1));
            }
            acc = acc + self.buckets[i].days.len();
            i += 1;
        }
        proof {
            assert(total_records(self.buckets@.skip(self.buckets@.len() as int)) == 0);
        }
        acc
    }

    /// The record at flat position `x` of the index, buckets in order.
    pub fn record_at(&self, x: usize) -> (r: &NationalDay)
        requires
            x < self.all_records().len(),
        ensures
            *r == self.all_records()[x as int],
    {
        let ghost all = self.all_records();
        let mut i: usize = 0;
        let mut seen: usize = 0;
        let ghost mut prefix: Seq<NationalDay> = Seq::empty();
        proof {
            assert(self.buckets@.skip(0) =~= self.buckets@);
            assert(prefix + flatten_buckets(self.buckets@) =~= flatten_buckets(self.buckets@));
        }
        while i < self.buckets.len()
            invariant
                0 <= i <= self.buckets@.len(),
                x < all.len(),
                all == self.all_records(),
                seen == prefix.len(),
                seen <= x,
                all == prefix + flatten_buckets(self.buckets@.skip(i as int)),
            decreases self.buckets@.len() - i,
        {
            proof {
                assert(self.buckets@.skip(i as int)[0] == self.buckets@[i as int]);
                assert(self.buckets@.skip(i as int).skip(1) =~= self.buckets@.skip(i + 1));
            }
            let blen = self.buckets[i].days.len();
            if x - seen < blen {
                let r = &self.buckets[i].days[x - seen];
                proof {
                    assert(flatten_buckets(self.buckets@.skip(i as int))[x - seen]
                        == self.buckets@[i as int].days@[x - seen]);
                    assert(all[x as int] == flatten_buckets(self.buckets@.skip(i as int))[x - seen]);
                }
                return r;
            }
            seen = seen + blen;
            proof {
                prefix = prefix + self.buckets@[i as int].days@;
                assert(all =~= prefix + flatten_buckets(self.buckets@.skip(i + 1)));
            }
            i += 1;
        }
        proof {
            assert(flatten_buckets(self.buckets@.skip(self.buckets@.len() as int)).len() == 0);
            assert(all =~= prefix);
            assert(false);
        }
        &self.buckets[0].days[0]
    }

    /// What a lookup for date `d` may return: a bucket exactly when `d` has
    /// one, and then exactly that date's records.
    pub open spec fn lookup_result(self, d: Date, r: Option<&Vec<NationalDay>>) -> bool {
        &&& (r is Some <==> self.has_bucket(d))
        &&& r is Some ==> exists|i: int|
            0 <= i < self.buckets@.len() && (#[trigger] self.buckets@[i]).date == d && (r->0)@
                == self.buckets@[i].days@
    }

    /// Looks the bucket for `d` up.
    pub fn get_countries_for_date<'a>(&'a self, d: Date) -> (r: Option<&'a Vec<NationalDay>>)
        ensures
            self.lookup_result(d, r),
    {
        let mut i: usize = 0;
        while i < self.buckets.len()
            invariant
                0 <= i <= self.buckets@.len(),
                forall|j: int| 0 <= j < i ==> (#[trigger] self.buckets@[j]).date != d,
            decreases self.buckets@.len() - i,
        {
            if self.buckets[i].date == d {
                return Some(&self.buckets[i].days);
            }
            i += 1;
        }
        None
    }

    /// The bucket for the current system date, if the index has one: there
    /// is one valid clock date that the whole result answers for — `Some`
    /// exactly when that date has a bucket, and then that date's records.
    pub fn get_countries_for_current_day<'a>(&'a self) -> (r: Option<&'a Vec<NationalDay>>)
        ensures
            exists|d: Date|
                1 <= d.day <= 31 && 1 <= d.month <= 12 && #[trigger] self.lookup_result(d, r),
    {
        let today = current_date();
        let r = self.get_countries_for_date(today);
        proof {
            assert(self.lookup_result(today, r));
        }
        r
    }

    /// Chooses uniformly at random across every record of the whole index,
    /// irrespective of date.
    pub fn get_random_country<'a>(&'a self) -> (r: Option<&'a NationalDay>)
        requires
            self.total() <= usize::MAX,
        ensures
            r is Some <==> self.total() > 0,
            r is Some ==> self.all_records().contains(*r->0),
    {
        proof {
            lemma_total_is_flatten_len(self.buckets@);
        }
        let total = self.total_count();
        if total == 0 {
            None
        } else {
            let x = random_below(total);
            let rec = self.record_at(x);
            proof {
                assert(self.all_records()[x as int] == *rec);
                assert(self.all_records().contains(*rec));
            }
            Some(rec)
        }
    }

    /// Resolves the record to show for `today`, with a two-tier fallback:
    /// a uniformly random record of today's bucket when one exists (the
    /// result is then dated `today`); else a uniformly random record across
    /// the whole flattened index, equally likely per record, not per date;
    /// else nothing, when the index holds no record at all.
    pub fn select_for_date<'a>(&'a self, today: Date) -> (r: Option<&'a NationalDay>)
        requires
            self.wf(),
            self.total() <= usize::MAX,
        ensures
            r is Some <==> self.total() > 0,
            self.has_bucket(today) ==> r is Some && self.bucket_has(today, *r->0) && (*r->0).date
                == today,
            !self.has_bucket(today) && self.total() > 0 ==> r is Some && self.all_records()
                .contains(*r->0) && (*r->0).date != today,
    {
        match self.get_countries_for_date(today) {
            Some(days) => {
                proof {
                    let i0 = choose|i0: int|
                        0 <= i0 < self.buckets@.len() && (#[trigger] self.buckets@[i0]).date
                            == today && days@ == self.buckets@[i0].days@;
                    assert(self.buckets@[i0].days@.len() > 0);
                    lemma_bucket_le_total(self.buckets@, i0);
                }
                let r = choose_from(days);
                proof {
                    let i0 = choose|i0: int|
                        0 <= i0 < self.buckets@.len() && (#[trigger] self.buckets@[i0]).date
                            == today && days@ == self.buckets@[i0].days@;
                    let j0 = choose|j0: int| 0 <= j0 < days@.len() && *r->0 == days@[j0];
                    assert(self.buckets@[i0].days@[j0] == *r->0);
                    assert(self.bucket_has(today, *r->0));
                    assert((*r->0).date == today);
                }
                r
            },
            None => {
                let r = self.get_random_country();
                proof {
                    if r is Some {
                        let x = choose|x: int|
                            0 <= x < self.all_records().len() && self.all_records()[x] == *r->0;
                        lemma_flatten_member(self.buckets@, x);
                        let (i0, k0): (int, int) = choose|i0: int, k0: int|
                            0 <= i0 < self.buckets@.len() && 0 <= k0
                                < self.buckets@[i0].days@.len() && flatten_buckets(
                                self.buckets@,
                            )[x] == (#[trigger] self.buckets@[i0].days@[k0]);
                        assert((*r->0).date == self.buckets@[i0].date);
                        assert(self.buckets@[i0].date != today);
                    }
                }
                r
            },
        }
    }
}

} // verus!
