use vstd::prelude::*;

use crate::date::Date;
use crate::national_day::NationalDay;
use crate::parse_file::{line_date, line_ok, read_national_day_from_line, record_matches_line};
use crate::str_views;

verus! {

/// The records sharing one date, in insertion order.
pub struct DateBucket {
    pub date: Date,
    pub days: Vec<NationalDay>,
}

/// A mapping from dates to the records on that date, built once from the
/// input lines and read-only thereafter.
pub struct CalendarIndex {
    pub buckets: Vec<DateBucket>,
}

/// The number of records over all buckets.
pub open spec fn total_records(bs: Seq<DateBucket>) -> nat
    decreases bs.len(),
{
    if bs.len() == 0 {
        0
    } else {
        bs[0].days@.len() + total_records(bs.skip(1))
    }
}

/// All records, bucket by bucket, each bucket in insertion order.
pub open spec fn flatten_buckets(bs: Seq<DateBucket>) -> Seq<NationalDay>
    decreases bs.len(),
{
    if bs.len() == 0 {
        Seq::empty()
    } else {
        bs[0].days@ + flatten_buckets(bs.skip(1))
    }
}

/// How many of the first `n` lines parse.
pub open spec fn ok_count_upto(ls: Seq<Seq<char>>, n: int) -> nat
    decreases n,
{
    if n <= 0 {
        0
    } else {
        ok_count_upto(ls, n - 1) + if line_ok(ls[n - 1]) {
            1nat
        } else {
            0nat
        }
    }
}

/// How many lines of `ls` parse.
pub open spec fn ok_count(ls: Seq<Seq<char>>) -> nat {
    ok_count_upto(ls, ls.len() as int)
}

/// The lines among the first `n` that do not parse, in order.
pub open spec fn skipped_upto(ls: Seq<Seq<char>>, n: int) -> Seq<Seq<char>>
    decreases n,
{
    if n <= 0 {
        Seq::empty()
    } else if line_ok(ls[n - 1]) {
        skipped_upto(ls, n - 1)
    } else {
        skipped_upto(ls, n - 1).push(ls[n - 1])
    }
}

/// The lines of `ls` that do not parse, in order.
pub open spec fn skipped_lines(ls: Seq<Seq<char>>) -> Seq<Seq<char>> {
    skipped_upto(ls, ls.len() as int)
}

/// The indices, below `n`, of the lines that parse to date `d`, in input
/// order.
pub open spec fn date_lines_upto(ls: Seq<Seq<char>>, d: Date, n: int) -> Seq<int>
    decreases n,
{
    if n <= 0 {
        Seq::empty()
    } else if line_ok(ls[n - 1]) && line_date(ls[n - 1]) == d {
        date_lines_upto(ls, d, n - 1).push(n - 1)
    } else {
        date_lines_upto(ls, d, n - 1)
    }
}

/// A bucket holds exactly the records of the lines of its own date among the
/// first `n`, in input order: nothing invented, nothing lost, nothing
/// reordered.
pub open spec fn bucket_matches_lines(b: DateBucket, ls: Seq<Seq<char>>, n: int) -> bool {
    &&& b.days@.len() == date_lines_upto(ls, b.date, n).len()
    &&& forall|k: int|
        0 <= k < b.days@.len() ==> record_matches_line(
            #[trigger] b.days@[k],
            ls[date_lines_upto(ls, b.date, n)[k]],
        )
}

/// The shape one insertion leaves when a bucket for the record's date exists:
/// the record is appended to that bucket and every other bucket is untouched.
pub open spec fn appended_at(
    pre: Seq<DateBucket>,
    post: Seq<DateBucket>,
    nd: NationalDay,
    b: int,
) -> bool {
    &&& 0 <= b < pre.len()
    &&& pre[b].date == nd.date
    &&& post.len() == pre.len()
    &&& post[b].date == nd.date
    &&& post[b].days@ == pre[b].days@.push(nd)
    &&& forall|i: int| 0 <= i < pre.len() && i != b ==> post[i] == pre[i]
}

/// The shape one insertion leaves when no bucket for the record's date
/// exists: a new bucket of that date, holding only the record, at the end.
pub open spec fn extended_with(pre: Seq<DateBucket>, post: Seq<DateBucket>, nd: NationalDay) -> bool {
    &&& post.len() == pre.len() + 1
    &&& post[pre.len() as int].date == nd.date
    &&& post[pre.len() as int].days@.len() == 1
    &&& post[pre.len() as int].days@[0] == nd
    &&& forall|i: int| 0 <= i < pre.len() ==> post[i] == pre[i]
}

proof fn lemma_date_lines_empty(ls: Seq<Seq<char>>, d: Date, n: int)
    requires
        0 <= n,
        forall|u: int| 0 <= u < n ==> !(line_ok(#[trigger] ls[u]) && line_date(ls[u]) == d),
    ensures
        date_lines_upto(ls, d, n).len() == 0,
    decreases n,
{
    if n > 0 {
        lemma_date_lines_empty(ls, d, n - 1);
    }
}

proof fn lemma_ok_count_upto_le(ls: Seq<Seq<char>>, n: int)
    requires
        0 <= n,
    ensures
        ok_count_upto(ls, n) <= n,
    decreases n,
{
    if n > 0 {
        lemma_ok_count_upto_le(ls, n - 1);
    }
}

pub(crate) proof fn lemma_total_is_flatten_len(bs: Seq<DateBucket>)
    ensures
        flatten_buckets(bs).len() == total_records(bs),
    decreases bs.len(),
{
    if bs.len() == 0 {
    } else {
        lemma_total_is_flatten_len(bs.skip(1));
    }
}

pub(crate) proof fn lemma_bucket_le_total(bs: Seq<DateBucket>, i: int)
    requires
        0 <= i < bs.len(),
    ensures
        bs[i].days@.len() <= total_records(bs),
    decreases bs.len(),
{
    if i == 0 {
    } else {
        lemma_bucket_le_total(bs.skip(1), i - 1);
        assert(bs.skip(1)[i - 1] == bs[i]);
    }
}

/// Every record of the flattened sequence stands in some bucket.
pub(crate) proof fn lemma_flatten_member(bs: Seq<DateBucket>, x: int)
    requires
        0 <= x < flatten_buckets(bs).len(),
    ensures
        exists|i: int, k: int|
            0 <= i < bs.len() && 0 <= k < bs[i].days@.len() && flatten_buckets(bs)[x] == (
            #[trigger] bs[i].days@[k]),
    decreases bs.len(),
{
    if bs.len() == 0 {
    } else {
        if x < bs[0].days@.len() {
            assert(flatten_buckets(bs)[x] == bs[0].days@[x]);
        } else {
            lemma_flatten_member(bs.skip(1), x - bs[0].days@.len());
            let (i0, k0): (int, int) = choose|i0: int, k0: int|
                0 <= i0 < bs.skip(1).len() && 0 <= k0 < bs.skip(1)[i0].days@.len()
                    && flatten_buckets(bs.skip(1))[x - bs[0].days@.len()] == (#[trigger] bs.skip(
                    1,
                )[i0].days@[k0]);
            assert(bs.skip(1)[i0] == bs[i0 + 1]);
            assert(flatten_buckets(bs)[x] == bs[i0 + 1].days@[k0]);
        }
    }
}

proof fn lemma_total_push(bs: Seq<DateBucket>, b: DateBucket)
    ensures
        total_records(bs.push(b)) == total_records(bs) + b.days@.len(),
    decreases bs.len(),
{
    if bs.len() == 0 {
        assert(bs.push(b)[0] == b);
        assert(bs.push(b).skip(1) =~= Seq::<DateBucket>::empty());
        assert(total_records(Seq::<DateBucket>::empty()) == 0);
    } else {
        assert(bs.push(b)[0] == bs[0]);
        assert(bs.push(b).skip(1) =~= bs.skip(1).push(b));
        lemma_total_push(bs.skip(1), b);
    }
}

proof fn lemma_total_update(bs: Seq<DateBucket>, t: int, nb: DateBucket)
    requires
        0 <= t < bs.len(),
    ensures
        total_records(bs.update(t, nb)) == total_records(bs) - bs[t].days@.len() + nb.days@.len(),
    decreases bs.len(),
{
    if t == 0 {
        assert(bs.update(0, nb)[0] == nb);
        assert(bs.update(0, nb).skip(1) =~= bs.skip(1));
    } else {
        assert(bs.update(t, nb)[0] == bs[0]);
        assert(bs.update(t, nb).skip(1) =~= bs.skip(1).update(t - 1, nb));
        lemma_total_update(bs.skip(1), t - 1, nb);
        assert(bs.skip(1)[t - 1] == bs[t]);
    }
}

/// Carries the line-by-line build facts across one record insertion: every
/// already-covered line stays covered, and every record of the grown index
/// still comes from some parsed line.
#[verifier::spinoff_prover]
#[verifier::rlimit(100)]
proof fn lemma_insert_carries_lines(
    pre: CalendarIndex,
    post: CalendarIndex,
    nd: NationalDay,
    lv: Seq<Seq<char>>,
    t: int,
)
    requires
        0 <= t < lv.len(),
        line_ok(lv[t]),
        record_matches_line(nd, lv[t]),
        pre.buckets@.len() <= post.buckets@.len(),
        forall|i: int|
            0 <= i < pre.buckets@.len() ==> pre.buckets@[i].days@.len() <= (
            #[trigger] post.buckets@[i]).days@.len(),
        forall|i: int, k: int|
            0 <= i < pre.buckets@.len() && 0 <= k < pre.buckets@[i].days@.len() ==> (
            #[trigger] post.buckets@[i].days@[k]) == pre.buckets@[i].days@[k],
        exists|i: int, k: int|
            0 <= i < post.buckets@.len() && 0 <= k < post.buckets@[i].days@.len() && (
            #[trigger] post.buckets@[i].days@[k]) == nd,
        forall|i: int, k: int|
            #![trigger post.buckets@[i].days@[k]]
            0 <= i < post.buckets@.len() && 0 <= k < post.buckets@[i].days@.len() ==> (0 <= i
                < pre.buckets@.len() && 0 <= k < pre.buckets@[i].days@.len()
                && post.buckets@[i].days@[k] == pre.buckets@[i].days@[k])
                || post.buckets@[i].days@[k] == nd,
        pre.covers_prefix(lv, t),
    ensures
        post.covers_prefix(lv, t + 1),
{
    assert forall|u: int| 0 <= u < t + 1 && line_ok(#[trigger] lv[u]) implies post.has_record_for(
        lv[u],
    ) by {
        if u < t {
            let (i0, k0): (int, int) = choose|i0: int, k0: int|
                0 <= i0 < pre.buckets@.len() && 0 <= k0 < pre.buckets@[i0].days@.len()
                    && record_matches_line(#[trigger] pre.buckets@[i0].days@[k0], lv[u]);
            assert(post.buckets@[i0].days@[k0] == pre.buckets@[i0].days@[k0]);
            assert(record_matches_line(post.buckets@[i0].days@[k0], lv[u]));
        } else {
            let (i1, k1): (int, int) = choose|i1: int, k1: int|
                0 <= i1 < post.buckets@.len() && 0 <= k1 < post.buckets@[i1].days@.len() && (
                #[trigger] post.buckets@[i1].days@[k1]) == nd;
            assert(record_matches_line(post.buckets@[i1].days@[k1], lv[u]));
        }
    };
}

/// Carries the bucket-by-bucket correspondence with the input lines across
/// one insertion: after taking line `t`'s record, every bucket still holds
/// exactly the records of the lines of its date, in input order.
#[verifier::spinoff_prover]
#[verifier::rlimit(100)]
proof fn lemma_insert_keeps_bucket_lines(
    pre: CalendarIndex,
    post: CalendarIndex,
    nd: NationalDay,
    lv: Seq<Seq<char>>,
    t: int,
)
    requires
        0 <= t < lv.len(),
        line_ok(lv[t]),
        record_matches_line(nd, lv[t]),
        pre.wf(),
        pre.covers_prefix(lv, t),
        forall|i: int|
            0 <= i < pre.buckets@.len() ==> bucket_matches_lines(
                #[trigger] pre.buckets@[i],
                lv,
                t,
            ),
        pre.has_bucket(nd.date) ==> exists|b: int|
            #[trigger] appended_at(pre.buckets@, post.buckets@, nd, b),
        !pre.has_bucket(nd.date) ==> extended_with(pre.buckets@, post.buckets@, nd),
    ensures
        forall|i: int|
            0 <= i < post.buckets@.len() ==> bucket_matches_lines(
                #[trigger] post.buckets@[i],
                lv,
                t + 1,
            ),
{
    reveal(record_matches_line);
    let d = nd.date;
    assert(line_date(lv[t]) == d);
    if pre.has_bucket(d) {
        let b = choose|b: int| #[trigger] appended_at(pre.buckets@, post.buckets@, nd, b);
        assert forall|i: int|
            0 <= i < post.buckets@.len() implies bucket_matches_lines(
            #[trigger] post.buckets@[i],
            lv,
            t + 1,
        ) by {
            if i == b {
                let idxs = date_lines_upto(lv, d, t);
                assert(date_lines_upto(lv, d, t + 1) == idxs.push(t));
                assert(post.buckets@[i].days@.len() == idxs.len() + 1);
                assert forall|k: int|
                    0 <= k < post.buckets@[i].days@.len() implies record_matches_line(
                    #[trigger] post.buckets@[i].days@[k],
                    lv[date_lines_upto(lv, post.buckets@[i].date, t + 1)[k]],
                ) by {
                    if k < idxs.len() {
                        assert(post.buckets@[i].days@[k] == pre.buckets@[i].days@[k]);
                        assert(idxs.push(t)[k] == idxs[k]);
                        assert(record_matches_line(pre.buckets@[i].days@[k], lv[idxs[k]]));
                    } else {
                        assert(post.buckets@[i].days@[k] == nd);
                        assert(idxs.push(t)[k] == t);
                    }
                };
            } else {
                assert(post.buckets@[i] == pre.buckets@[i]);
                assert(pre.buckets@[i].date != pre.buckets@[b].date);
                assert(date_lines_upto(lv, post.buckets@[i].date, t + 1) == date_lines_upto(
                    lv,
                    pre.buckets@[i].date,
                    t,
                ));
            }
        };
    } else {
        let nlen = pre.buckets@.len() as int;
        assert forall|u: int|
            0 <= u < t implies !(line_ok(#[trigger] lv[u]) && line_date(lv[u]) == d) by {
            if line_ok(lv[u]) && line_date(lv[u]) == d {
                let (i0, k0): (int, int) = choose|i0: int, k0: int|
                    0 <= i0 < pre.buckets@.len() && 0 <= k0 < pre.buckets@[i0].days@.len()
                        && record_matches_line(#[trigger] pre.buckets@[i0].days@[k0], lv[u]);
                assert(pre.buckets@[i0].days@[k0].date == line_date(lv[u]));
                assert(pre.buckets@[i0].date == d);
                assert(pre.has_bucket(d));
                assert(false);
            }
        };
        lemma_date_lines_empty(lv, d, t);
        assert forall|i: int|
            0 <= i < post.buckets@.len() implies bucket_matches_lines(
            #[trigger] post.buckets@[i],
            lv,
            t + 1,
        ) by {
            if i < nlen {
                assert(post.buckets@[i] == pre.buckets@[i]);
                assert(pre.buckets@[i].date != d);
                assert(date_lines_upto(lv, post.buckets@[i].date, t + 1) == date_lines_upto(
                    lv,
                    pre.buckets@[i].date,
                    t,
                ));
            } else {
                assert(date_lines_upto(lv, d, t + 1) == date_lines_upto(lv, d, t).push(t));
                assert(date_lines_upto(lv, d, t + 1).len() == 1);
                assert(date_lines_upto(lv, d, t + 1)[0] == t);
                assert(post.buckets@[i].days@[0] == nd);
            }
        };
    }
}

impl CalendarIndex {
    /// Every record sits in the bucket keyed by its own date, dates are
    /// unique, and no bucket is empty.
    pub open spec fn wf(self) -> bool {
        &&& forall|i: int, j: int|
            0 <= i < j < self.buckets@.len() ==> (#[trigger] self.buckets@[i]).date != (
            #[trigger] self.buckets@[j]).date
        &&& forall|i: int|
            0 <= i < self.buckets@.len() ==> (#[trigger] self.buckets@[i]).days@.len() > 0
        &&& forall|i: int, k: int|
            0 <= i < self.buckets@.len() && 0 <= k < self.buckets@[i].days@.len() ==> (
            #[trigger] self.buckets@[i].days@[k]).date == self.buckets@[i].date
    }

    pub open spec fn has_bucket(self, d: Date) -> bool {
        exists|i: int| 0 <= i < self.buckets@.len() && (#[trigger] self.buckets@[i]).date == d
    }

    pub open spec fn total(self) -> nat {
        total_records(self.buckets@)
    }

    /// All records of the index, in bucket order.
    pub open spec fn all_records(self) -> Seq<NationalDay> {
        flatten_buckets(self.buckets@)
    }

    /// Some bucket keyed `d` holds `r`.
    pub open spec fn bucket_has(self, d: Date, r: NationalDay) -> bool {
        exists|i: int, k: int|
            0 <= i < self.buckets@.len() && 0 <= k < self.buckets@[i].days@.len()
                && self.buckets@[i].date == d && (#[trigger] self.buckets@[i].days@[k]) == r
    }

    /// Some record parsed from line `s` stands in the index.
    pub open spec fn has_record_for(self, s: Seq<char>) -> bool {
        exists|i: int, k: int|
            0 <= i < self.buckets@.len() && 0 <= k < self.buckets@[i].days@.len()
                && record_matches_line(#[trigger] self.buckets@[i].days@[k], s)
    }

    /// The first `upto` lines that parse are each represented in the index.
    pub open spec fn covers_prefix(self, ls: Seq<Seq<char>>, upto: int) -> bool {
        forall|u: int| 0 <= u < upto && line_ok(#[trigger] ls[u]) ==> self.has_record_for(ls[u])
    }

    /// Every line that parses is represented in the index: some record
    /// matching it stands in some bucket.
    pub open spec fn covers(self, ls: Seq<Seq<char>>) -> bool {
        self.covers_prefix(ls, ls.len() as int)
    }

    fn find_bucket(&self, d: Date) -> (r: Option<usize>)
        ensures
            r is Some ==> r->0 < self.buckets@.len() && self.buckets@[r->0 as int].date == d,
            r is None ==> !self.has_bucket(d),
    {
        let mut i: usize = 0;
        while i < self.buckets.len()
            invariant
                0 <= i <= self.buckets@.len(),
                forall|j: int| 0 <= j < i ==> (#[trigger] self.buckets@[j]).date != d,
            decreases self.buckets@.len() - i,
        {
            if self.buckets[i].date == d {
                return Some(i);
            }
            i += 1;
        }
        None
    }

    /// Appends a record to the bucket keyed by its date, creating that
    /// bucket at the end when it is absent. Existing records keep their
    /// positions; exactly the new record is added.
    fn insert_record(&mut self, nd: NationalDay)
        requires
            old(self).wf(),
        ensures
            final(self).wf(),
            final(self).total() == old(self).total() + 1,
            old(self).buckets@.len() <= final(self).buckets@.len(),
            forall|i: int|
                0 <= i < old(self).buckets@.len() ==> old(self).buckets@[i].days@.len() <= (
                #[trigger] final(self).buckets@[i]).days@.len(),
            forall|i: int, k: int|
                0 <= i < old(self).buckets@.len() && 0 <= k < old(self).buckets@[i].days@.len()
                    ==> (#[trigger] final(self).buckets@[i].days@[k]) == old(
                    self,
                ).buckets@[i].days@[k],
            exists|i: int, k: int|
                0 <= i < final(self).buckets@.len() && 0 <= k < final(self).buckets@[i].days@.len()
                    && (#[trigger] final(self).buckets@[i].days@[k]) == nd,
            forall|i: int, k: int|
                #![trigger final(self).buckets@[i].days@[k]]
                0 <= i < final(self).buckets@.len() && 0 <= k < final(self).buckets@[i].days@.len()
                    ==> (0 <= i < old(self).buckets@.len() && 0 <= k < old(
                    self,
                ).buckets@[i].days@.len() && final(self).buckets@[i].days@[k] == old(
                    self,
                ).buckets@[i].days@[k]) || final(self).buckets@[i].days@[k] == nd,
            old(self).has_bucket(nd.date) ==> exists|b: int|
                #[trigger] appended_at(old(self).buckets@, final(self).buckets@, nd, b),
            !old(self).has_bucket(nd.date) ==> extended_with(
                old(self).buckets@,
                final(self).buckets@,
                nd,
            ),
    {
        let d = nd.date;
        let ghost nd_g = nd;
        let ghost old_buckets = self.buckets@;
        match self.find_bucket(d) {
            Some(b) => {
                let ghost old_blen = self.buckets@[b as int].days@.len() as int;
                self.buckets[b].days.push(nd);
                proof {
                    let nb = self.buckets@[b as int];
                    assert(self.buckets@ == old_buckets.update(b as int, nb));
                    assert(nb.days@ == old_buckets[b as int].days@.push(nd_g));
                    assert(nb.date == d);
                    lemma_total_update(old_buckets, b as int, nb);
                    assert(self.buckets@[b as int].days@[old_blen] == nd_g);
                    assert(appended_at(old_buckets, self.buckets@, nd_g, b as int)) by {
                        assert(forall|i: int|
                            0 <= i < old_buckets.len() && i != b as int
                                ==> #[trigger] self.buckets@[i] == old_buckets[i]);
                    }
                    assert(old(self).has_bucket(d));
                    assert forall|i: int, k: int|
                        #![trigger self.buckets@[i].days@[k]]
                        0 <= i < self.buckets@.len() && 0 <= k
                            < self.buckets@[i].days@.len() implies ((0 <= i < old_buckets.len() && 0
                        <= k < old_buckets[i].days@.len() && self.buckets@[i].days@[k]
                        == old_buckets[i].days@[k]) || self.buckets@[i].days@[k] == nd_g) by {
                        if i != b as int {
                            assert(self.buckets@[i] == old_buckets[i]);
                        }
                    };
                    assert forall|i: int, k: int|
                        0 <= i < self.buckets@.len() && 0 <= k
                            < self.buckets@[i].days@.len() implies (
                    #[trigger] self.buckets@[i].days@[k]).date == self.buckets@[i].date by {
                        if i != b as int {
                            assert(self.buckets@[i] == old_buckets[i]);
                        } else if k < old_blen {
                            assert(self.buckets@[i].days@[k] == old_buckets[i].days@[k]);
                        } else {
                            assert(self.buckets@[i].days@[k] == nd_g);
                        }
                    };
                }
            },
            None => {
                let mut days: Vec<NationalDay> = Vec::new();
                days.push(nd);
                self.buckets.push(DateBucket { date: d, days });
                proof {
                    let nlen = old_buckets.len() as int;
                    let nb = self.buckets@[nlen];
                    assert(self.buckets@ == old_buckets.push(nb));
                    assert(nb.days@ =~= seq![nd_g]);
                    assert(nb.date == d);
                    lemma_total_push(old_buckets, nb);
                    assert(self.buckets@[nlen].days@[0] == nd_g);
                    assert(extended_with(old_buckets, self.buckets@, nd_g)) by {
                        assert(forall|i: int|
                            0 <= i < old_buckets.len() ==> #[trigger] self.buckets@[i]
                                == old_buckets[i]);
                    }
                    assert forall|i: int, k: int|
                        #![trigger self.buckets@[i].days@[k]]
                        0 <= i < self.buckets@.len() && 0 <= k
                            < self.buckets@[i].days@.len() implies ((0 <= i < old_buckets.len() && 0
                        <= k < old_buckets[i].days@.len() && self.buckets@[i].days@[k]
                        == old_buckets[i].days@[k]) || self.buckets@[i].days@[k] == nd_g) by {
                        if i < nlen {
                            assert(self.buckets@[i] == old_buckets[i]);
                        } else {
                            assert(self.buckets@[i].days@[k] == nd_g);
                        }
                    };
                    assert forall|i: int, j: int|
                        0 <= i < j < self.buckets@.len() implies (#[trigger] self.buckets@[i]).date
                        != (#[trigger] self.buckets@[j]).date by {
                        if j < nlen {
                            assert(self.buckets@[i] == old_buckets[i]);
                            assert(self.buckets@[j] == old_buckets[j]);
                        } else {
                            assert(self.buckets@[i] == old_buckets[i]);
                            assert(!old(self).has_bucket(d));
                            assert(old_buckets[i].date != d);
                        }
                    };
                    assert forall|i: int, k: int|
                        0 <= i < self.buckets@.len() && 0 <= k
                            < self.buckets@[i].days@.len() implies (
                    #[trigger] self.buckets@[i].days@[k]).date == self.buckets@[i].date by {
                        if i < nlen {
                            assert(self.buckets@[i] == old_buckets[i]);
                        } else {
                            assert(self.buckets@[i].days@[k] == nd_g);
                        }
                    };
                }
            },
        }
    }

    /// Builds the index from raw input lines. A line that does not parse is
    /// skipped and handed back for diagnostics; every line that parses lands,
    /// in input order, in the bucket keyed by its date.
    #[verifier::rlimit(100)]
    pub fn from_lines(lines: &Vec<String>) -> (r: (CalendarIndex, Vec<String>))
        ensures
            r.0.wf(),
            r.0.total() == ok_count(str_views(lines@)),
            r.0.total() <= lines@.len(),
            r.0.covers(str_views(lines@)),
            forall|i: int|
                0 <= i < r.0.buckets@.len() ==> bucket_matches_lines(
                    #[trigger] r.0.buckets@[i],
                    str_views(lines@),
                    lines@.len() as int,
                ),
            str_views(r.1@) == skipped_lines(str_views(lines@)),
    {
        let ghost lv = str_views(lines@);
        let mut index = CalendarIndex { buckets: Vec::new() };
        let mut skipped: Vec<String> = Vec::new();
        let mut t: usize = 0;
        proof {
            assert(str_views(skipped@) =~= Seq::<Seq<char>>::empty());
            assert(index.covers_prefix(lv, 0));
        }
        while t < lines.len()
            invariant
                0 <= t <= lines@.len(),
                lv == str_views(lines@),
                lv.len() == lines@.len(),
                index.wf(),
                index.total() == ok_count_upto(lv, t as int),
                index.total() <= t,
                index.covers_prefix(lv, t as int),
                forall|i: int|
                    0 <= i < index.buckets@.len() ==> bucket_matches_lines(
                        #[trigger] index.buckets@[i],
                        lv,
                        t as int,
                    ),
                str_views(skipped@) == skipped_upto(lv, t as int),
            decreases lines@.len() - t,
        {
            proof {
                assert(lv[t as int] == lines@[t as int]@);
            }
            let line = lines[t].clone();
            match read_national_day_from_line(line) {
                Ok(nd) => {
                    let ghost nd_g = nd;
                    let ghost pre = index;
                    assert(line_ok(lv[t as int]));
                    assert(record_matches_line(nd_g, lv[t as int]));
                    index.insert_record(nd);
                    proof {
                        lemma_insert_carries_lines(pre, index, nd_g, lv, t as int);
                        lemma_insert_keeps_bucket_lines(pre, index, nd_g, lv, t as int);
                    }
                },
                Err(_) => {
                    let ghost old_skipped = skipped@;
                    skipped.push(lines[t].clone());
                    proof {
                        assert(str_views(skipped@) =~= str_views(old_skipped).push(lv[t as int]));
                        assert forall|u: int|
                            0 <= u < t + 1 && line_ok(#[trigger] lv[u]) implies index
                            .has_record_for(lv[u]) by {
                            assert(0 <= u < t);
                        };
                        assert(index.covers_prefix(lv, t + 1));
                        assert forall|i: int|
                            0 <= i < index.buckets@.len() implies bucket_matches_lines(
                            #[trigger] index.buckets@[i],
                            lv,
                            t + 1,
                        ) by {
                            assert(date_lines_upto(lv, index.buckets@[i].date, t + 1)
                                == date_lines_upto(lv, index.buckets@[i].date, t as int));
                        };
                    }
                },
            }
            t += 1;
        }
        proof {
            lemma_ok_count_upto_le(lv, lv.len() as int);
        }
        (index, skipped)
    }
}

} // verus!
