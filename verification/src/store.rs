//! The in-memory blocklist store: permanent domains, time-limited domains
//! and the global enable switch.
//!
//! Domains in either collection are canonical host strings as the
//! validator produces them.  The two collections are kept disjoint and
//! free of duplicates: adding a domain removes any entry for it in the
//! other collection, so the later of two conflicting additions wins.  A
//! time-limited addition without an expiry collapses into a permanent
//! one, removing the ambiguity a "timed entry that never expires" would
//! carry; entries with no expiry can still arrive from persisted data and
//! are never swept.
use vstd::prelude::*;
use vstd::string::*;
use crate::domain::is_plain_domain;
use crate::strutil::{
    lemma_filter_distinct, lemma_filter_push, lemma_filter_subset, str_eq, views_of,
};

verus! {

/// One time-limited entry: a domain and its absolute expiry timestamp in
/// seconds; no timestamp means the entry is never swept.
pub struct TimedSite {
    pub domain: String,
    pub expiry: Option<u64>,
}

/// The persisted blocklist aggregate.
pub struct BlockedSites {
    pub permanent_sites: Vec<String>,
    pub timed_sites: Vec<TimedSite>,
    pub is_blocking_enabled: bool,
}

/// The views of the entries of a timed-site vector.
pub open spec fn timed_views(v: Seq<TimedSite>) -> Seq<(Seq<char>, Option<u64>)> {
    v.map_values(|t: TimedSite| (t.domain@, t.expiry))
}

/// Keep a permanent entry differing from `d`.
pub open spec fn ne_str(d: Seq<char>) -> spec_fn(Seq<char>) -> bool {
    |x: Seq<char>| x != d
}

/// Keep a timed entry whose domain differs from `d`.
pub open spec fn ne_dom(d: Seq<char>) -> spec_fn((Seq<char>, Option<u64>)) -> bool {
    |e: (Seq<char>, Option<u64>)| e.0 != d
}

/// Keep a timed entry that has not expired by `now`: one with no expiry,
/// or one whose expiry lies strictly in the future.
pub open spec fn keep_timed(now: u64) -> spec_fn((Seq<char>, Option<u64>)) -> bool {
    |e: (Seq<char>, Option<u64>)| match e.1 {
        None => true,
        Some(t) => t > now,
    }
}

impl BlockedSites {
    /// The permanent domains, in insertion order.
    pub open spec fn perm(self) -> Seq<Seq<char>> {
        views_of(self.permanent_sites@)
    }

    /// The timed entries, in insertion order.
    pub open spec fn timed(self) -> Seq<(Seq<char>, Option<u64>)> {
        timed_views(self.timed_sites@)
    }

    /// Whether `d` is blocked permanently.
    pub open spec fn has_perm(self, d: Seq<char>) -> bool {
        self.perm().contains(d)
    }

    /// Whether `d` has a timed entry.
    pub open spec fn has_timed(self, d: Seq<char>) -> bool {
        exists|i: int| 0 <= i < self.timed().len() && (#[trigger] self.timed()[i]).0 == d
    }

    /// Well-formedness: no duplicate domains inside or across the two
    /// collections, and every stored domain is a plain host string.
    pub open spec fn wf(self) -> bool {
        &&& forall|i: int, j: int|
            0 <= i < j < self.perm().len() ==> #[trigger] self.perm()[i] != #[trigger] self.perm()[j]
        &&& forall|i: int, j: int|
            0 <= i < j < self.timed().len() ==> (#[trigger] self.timed()[i]).0 != (
            #[trigger] self.timed()[j]).0
        &&& forall|i: int, j: int|
            0 <= i < self.perm().len() && 0 <= j < self.timed().len() ==> #[trigger] self.perm()[i]
                != (#[trigger] self.timed()[j]).0
        &&& forall|i: int| 0 <= i < self.perm().len() ==> is_plain_domain(#[trigger] self.perm()[i])
        &&& forall|i: int|
            0 <= i < self.timed().len() ==> is_plain_domain((#[trigger] self.timed()[i]).0)
    }

    /// The two view sequences and the switch of `self` and `other` agree.
    pub open spec fn same_state(self, other: Self) -> bool {
        self.perm() == other.perm() && self.timed() == other.timed()
            && self.is_blocking_enabled == other.is_blocking_enabled
    }

    /// Whether `d` is among the permanent domains.
    pub fn contains_permanent(&self, d: &str) -> (r: bool)
        ensures
            r == self.has_perm(d@),
    {
        let mut i: usize = 0;
        while i < self.permanent_sites.len()
            invariant
                0 <= i <= self.perm().len(),
                forall|k: int| 0 <= k < i ==> #[trigger] self.perm()[k] != d@,
            decreases self.perm().len() - i,
        {
            if str_eq(self.permanent_sites[i].as_str(), d) {
                proof {
                    assert(self.perm()[i as int] == d@);
                }
                return true;
            }
            i = i + 1;
        }
        false
    }

    /// Whether `d` has a timed entry.
    pub fn contains_timed(&self, d: &str) -> (r: bool)
        ensures
            r == self.has_timed(d@),
    {
        let mut i: usize = 0;
        while i < self.timed_sites.len()
            invariant
                0 <= i <= self.timed().len(),
                forall|k: int| 0 <= k < i ==> (#[trigger] self.timed()[k]).0 != d@,
            decreases self.timed().len() - i,
        {
            if str_eq(self.timed_sites[i].domain.as_str(), d) {
                proof {
                    assert((self.timed()[i as int]).0 == d@);
                }
                return true;
            }
            i = i + 1;
        }
        false
    }

    /// Drop every permanent entry equal to `d`.
    fn remove_permanent_entry(&mut self, d: &str)
        ensures
            final (self).perm() == old(self).perm().filter(ne_str(d@)),
            final (self).timed() == old(self).timed(),
            final (self).is_blocking_enabled == old(self).is_blocking_enabled,
    {
        let ghost pred = ne_str(d@);
        let mut out: Vec<String> = Vec::new();
        let mut i: usize = 0;
        while i < self.permanent_sites.len()
            invariant
                0 <= i <= self.permanent_sites@.len(),
                views_of(out@) == views_of(self.permanent_sites@).take(i as int).filter(pred),
                pred == ne_str(d@),
            decreases self.permanent_sites@.len() - i,
        {
            let ghost pre = views_of(self.permanent_sites@).take(i as int);
            if !str_eq(self.permanent_sites[i].as_str(), d) {
                out.push(self.permanent_sites[i].clone());
            }
            proof {
                lemma_filter_push(pre, pred, self.permanent_sites@[i as int]@);
                assert(pre.push(self.permanent_sites@[i as int]@) =~= views_of(
                    self.permanent_sites@,
                ).take(i + 1));
                if pred(self.permanent_sites@[i as int]@) {
                    assert(views_of(out@) =~= pre.filter(pred).push(
                        self.permanent_sites@[i as int]@,
                    ));
                }
            }
            i = i + 1;
        }
        proof {
            assert(views_of(self.permanent_sites@).take(self.permanent_sites@.len() as int)
                =~= views_of(self.permanent_sites@));
        }
        self.permanent_sites = out;
    }

    /// Drop every timed entry whose domain equals `d`.
    fn remove_timed_entry(&mut self, d: &str)
        ensures
            final (self).timed() == old(self).timed().filter(ne_dom(d@)),
            final (self).perm() == old(self).perm(),
            final (self).is_blocking_enabled == old(self).is_blocking_enabled,
    {
        let ghost pred = ne_dom(d@);
        let mut out: Vec<TimedSite> = Vec::new();
        let mut i: usize = 0;
        while i < self.timed_sites.len()
            invariant
                0 <= i <= self.timed_sites@.len(),
                timed_views(out@) == timed_views(self.timed_sites@).take(i as int).filter(pred),
                pred == ne_dom(d@),
            decreases self.timed_sites@.len() - i,
        {
            let ghost pre = timed_views(self.timed_sites@).take(i as int);
            let ghost cur = timed_views(self.timed_sites@)[i as int];
            if !str_eq(self.timed_sites[i].domain.as_str(), d) {
                let e = TimedSite {
                    domain: self.timed_sites[i].domain.clone(),
                    expiry: self.timed_sites[i].expiry,
                };
                out.push(e);
            }
            proof {
                lemma_filter_push(pre, pred, cur);
                assert(pre.push(cur) =~= timed_views(self.timed_sites@).take(i + 1));
                if pred(cur) {
                    assert(timed_views(out@) =~= pre.filter(pred).push(cur));
                }
            }
            i = i + 1;
        }
        proof {
            assert(timed_views(self.timed_sites@).take(self.timed_sites@.len() as int)
                =~= timed_views(self.timed_sites@));
        }
        self.timed_sites = out;
    }

    /// Block `d` permanently.  Idempotent; any timed entry for `d` is
    /// replaced by the permanent one.
    pub fn add_permanent(&mut self, d: &str)
        requires
            old(self).wf(),
            is_plain_domain(d@),
        ensures
            final (self).wf(),
            final (self).is_blocking_enabled == old(self).is_blocking_enabled,
            final (self).perm() == if old(self).has_perm(d@) {
                old(self).perm()
            } else {
                old(self).perm().push(d@)
            },
            final (self).timed() == old(self).timed().filter(ne_dom(d@)),
    {
        self.remove_timed_entry(d);
        let present = self.contains_permanent(d);
        if !present {
            self.permanent_sites.push(d.to_owned());
            proof {
                assert(final (self).perm() =~= old(self).perm().push(d@));
            }
        }
        proof {
            lemma_filter_subset(old(self).timed(), ne_dom(d@));
            lemma_filter_distinct(
                old(self).timed(),
                ne_dom(d@),
                |e: (Seq<char>, Option<u64>)| e.0,
            );
            lemma_filter_pred_all(old(self).timed(), ne_dom(d@));
            assert forall|i: int, j: int|
                0 <= i < final (self).perm().len() && 0 <= j < final (self).timed().len()
                implies #[trigger] final (self).perm()[i] != (#[trigger] final (self).timed()[
                j]).0 by {
                let e = final (self).timed()[j];
                assert(old(self).timed().contains(e));
                let k = choose|k: int|
                    0 <= k < old(self).timed().len() && old(self).timed()[k] == e;
                if i < old(self).perm().len() {
                    assert(old(self).perm()[i] != old(self).timed()[k].0);
                }
            }
        }
    }

    /// Block `d` until `expiry`.  With no expiry the entry collapses into
    /// a permanent block; with one, the timed entry replaces any earlier
    /// entry for `d` in either collection.
    pub fn add_timed(&mut self, d: &str, expiry: Option<u64>)
        requires
            old(self).wf(),
            is_plain_domain(d@),
        ensures
            final (self).wf(),
            final (self).is_blocking_enabled == old(self).is_blocking_enabled,
            match expiry {
                None => final (self).perm() == if old(self).has_perm(d@) {
                    old(self).perm()
                } else {
                    old(self).perm().push(d@)
                } && final (self).timed() == old(self).timed().filter(ne_dom(d@)),
                Some(t) => final (self).perm() == old(self).perm().filter(ne_str(d@)) && final (
                self).timed() == old(self).timed().filter(ne_dom(d@)).push((d@, Some(t))),
            },
    {
        match expiry {
            None => {
                self.add_permanent(d);
            },
            Some(t) => {
                self.remove_permanent_entry(d);
                self.remove_timed_entry(d);
                self.timed_sites.push(TimedSite { domain: d.to_owned(), expiry: Some(t) });
                proof {
                    assert(final (self).timed() =~= old(self).timed().filter(ne_dom(d@)).push(
                        (d@, Some(t)),
                    ));
                    lemma_filter_subset(old(self).perm(), ne_str(d@));
                    lemma_filter_subset(old(self).timed(), ne_dom(d@));
                    lemma_filter_distinct(old(self).perm(), ne_str(d@), |x: Seq<char>| x);
                    lemma_filter_distinct(
                        old(self).timed(),
                        ne_dom(d@),
                        |e: (Seq<char>, Option<u64>)| e.0,
                    );
                    lemma_filter_pred_all(old(self).perm(), ne_str(d@));
                    lemma_filter_pred_all(old(self).timed(), ne_dom(d@));
                    lemma_wf_filtered_pair(*old(self), *self, d@, Some(t));
                }
            },
        }
    }

    /// Remove `d` from both collections; say whether anything was there.
    pub fn remove_site(&mut self, d: &str) -> (r: bool)
        requires
            old(self).wf(),
        ensures
            final (self).wf(),
            final (self).is_blocking_enabled == old(self).is_blocking_enabled,
            final (self).perm() == old(self).perm().filter(ne_str(d@)),
            final (self).timed() == old(self).timed().filter(ne_dom(d@)),
            r == (old(self).has_perm(d@) || old(self).has_timed(d@)),
    {
        let was_perm = self.contains_permanent(d);
        let was_timed = self.contains_timed(d);
        self.remove_permanent_entry(d);
        self.remove_timed_entry(d);
        proof {
            lemma_filter_subset(old(self).perm(), ne_str(d@));
            lemma_filter_subset(old(self).timed(), ne_dom(d@));
            lemma_filter_distinct(old(self).perm(), ne_str(d@), |x: Seq<char>| x);
            lemma_filter_distinct(
                old(self).timed(),
                ne_dom(d@),
                |e: (Seq<char>, Option<u64>)| e.0,
            );
            lemma_wf_filtered_cross(*old(self), *self);
        }
        was_perm || was_timed
    }

    /// Flip the global blocking switch.
    pub fn toggle_enabled(&mut self)
        requires
            old(self).wf(),
        ensures
            final (self).wf(),
            final (self).perm() == old(self).perm(),
            final (self).timed() == old(self).timed(),
            final (self).is_blocking_enabled == !old(self).is_blocking_enabled,
    {
        self.is_blocking_enabled = !self.is_blocking_enabled;
        proof {
            assert(final (self).perm() =~= old(self).perm());
            assert(final (self).timed() =~= old(self).timed());
        }
    }

    /// Drop every timed entry whose expiry has passed by `now`; entries
    /// with no expiry and entries expiring after `now` stay.
    pub fn clean_expired_sites(&mut self, now: u64)
        requires
            old(self).wf(),
        ensures
            final (self).wf(),
            final (self).perm() == old(self).perm(),
            final (self).is_blocking_enabled == old(self).is_blocking_enabled,
            final (self).timed() == old(self).timed().filter(keep_timed(now)),
    {
        let ghost pred = keep_timed(now);
        let mut out: Vec<TimedSite> = Vec::new();
        let mut i: usize = 0;
        while i < self.timed_sites.len()
            invariant
                0 <= i <= self.timed_sites@.len(),
                timed_views(out@) == timed_views(self.timed_sites@).take(i as int).filter(pred),
                pred == keep_timed(now),
            decreases self.timed_sites@.len() - i,
        {
            let ghost pre = timed_views(self.timed_sites@).take(i as int);
            let ghost cur = timed_views(self.timed_sites@)[i as int];
            let keep = match self.timed_sites[i].expiry {
                None => true,
                Some(t) => t > now,
            };
            if keep {
                let e = TimedSite {
                    domain: self.timed_sites[i].domain.clone(),
                    expiry: self.timed_sites[i].expiry,
                };
                out.push(e);
            }
            proof {
                lemma_filter_push(pre, pred, cur);
                assert(pre.push(cur) =~= timed_views(self.timed_sites@).take(i + 1));
                if pred(cur) {
                    assert(timed_views(out@) =~= pre.filter(pred).push(cur));
                }
            }
            i = i + 1;
        }
        proof {
            assert(timed_views(self.timed_sites@).take(self.timed_sites@.len() as int)
                =~= timed_views(self.timed_sites@));
        }
        self.timed_sites = out;
        proof {
            lemma_filter_subset(old(self).timed(), keep_timed(now));
            lemma_filter_distinct(
                old(self).timed(),
                keep_timed(now),
                |e: (Seq<char>, Option<u64>)| e.0,
            );
            lemma_wf_filtered_cross(*old(self), *self);
        }
    }
}

impl Default for BlockedSites {
    /// The empty, disabled store.
    fn default() -> (r: Self)
        ensures
            r.wf(),
            r.perm() == Seq::<Seq<char>>::empty(),
            r.timed() == Seq::<(Seq<char>, Option<u64>)>::empty(),
            !r.is_blocking_enabled,
    {
        let r = BlockedSites {
            permanent_sites: Vec::new(),
            timed_sites: Vec::new(),
            is_blocking_enabled: false,
        };
        proof {
            assert(r.perm() =~= Seq::<Seq<char>>::empty());
            assert(r.timed() =~= Seq::<(Seq<char>, Option<u64>)>::empty());
        }
        r
    }
}

/// Every element of a filtered sequence satisfies the predicate.
proof fn lemma_filter_pred_all<A>(s: Seq<A>, pred: spec_fn(A) -> bool)
    ensures
        forall|i: int| 0 <= i < s.filter(pred).len() ==> pred(#[trigger] s.filter(pred)[i]),
{
    assert forall|i: int| 0 <= i < s.filter(pred).len() implies pred(
        #[trigger] s.filter(pred)[i],
    ) by {
        s.lemma_filter_pred(pred, i);
    }
}

/// Cross-collection well-formedness for a store whose collections are
/// filtered forms of a well-formed store's.
proof fn lemma_wf_filtered_cross(older: BlockedSites, newer: BlockedSites)
    requires
        older.wf(),
        forall|i: int|
            0 <= i < newer.perm().len() ==> older.perm().contains(#[trigger] newer.perm()[i]),
        forall|i: int, j: int|
            0 <= i < j < newer.perm().len() ==> #[trigger] newer.perm()[i]
                != #[trigger] newer.perm()[j],
        forall|i: int|
            0 <= i < newer.timed().len() ==> older.timed().contains(#[trigger] newer.timed()[i]),
        forall|i: int, j: int|
            0 <= i < j < newer.timed().len() ==> (#[trigger] newer.timed()[i]).0 != (
            #[trigger] newer.timed()[j]).0,
    ensures
        newer.wf(),
{
    assert forall|i: int| 0 <= i < newer.perm().len() implies is_plain_domain(
        #[trigger] newer.perm()[i],
    ) by {
        let k = choose|k: int|
            0 <= k < older.perm().len() && older.perm()[k] == newer.perm()[i];
    }
    assert forall|i: int| 0 <= i < newer.timed().len() implies is_plain_domain(
        (#[trigger] newer.timed()[i]).0,
    ) by {
        let k = choose|k: int|
            0 <= k < older.timed().len() && older.timed()[k] == newer.timed()[i];
    }
    assert forall|i: int, j: int|
        0 <= i < newer.perm().len() && 0 <= j < newer.timed().len() implies #[trigger] newer.perm()[
        i] != (#[trigger] newer.timed()[j]).0 by {
        let a = choose|a: int|
            0 <= a < older.perm().len() && older.perm()[a] == newer.perm()[i];
        let b = choose|b: int|
            0 <= b < older.timed().len() && older.timed()[b] == newer.timed()[j];
        assert(older.perm()[a] != older.timed()[b].0);
    }
}

/// Well-formedness after replacing every entry for one domain by a single
/// timed entry.
proof fn lemma_wf_filtered_pair(
    older: BlockedSites,
    newer: BlockedSites,
    d: Seq<char>,
    e: Option<u64>,
)
    requires
        older.wf(),
        is_plain_domain(d),
        newer.perm() == older.perm().filter(ne_str(d)),
        newer.timed() == older.timed().filter(ne_dom(d)).push((d, e)),
        forall|i: int|
            0 <= i < older.perm().filter(ne_str(d)).len() ==> older.perm().contains(
                #[trigger] older.perm().filter(ne_str(d))[i],
            ),
        forall|i: int|
            0 <= i < older.timed().filter(ne_dom(d)).len() ==> older.timed().contains(
                #[trigger] older.timed().filter(ne_dom(d))[i],
            ),
        forall|i: int, j: int|
            0 <= i < j < older.perm().filter(ne_str(d)).len() ==> #[trigger] older.perm().filter(
                ne_str(d),
            )[i] != #[trigger] older.perm().filter(ne_str(d))[j],
        forall|i: int, j: int|
            0 <= i < j < older.timed().filter(ne_dom(d)).len() ==> (
            #[trigger] older.timed().filter(ne_dom(d))[i]).0 != (#[trigger] older.timed().filter(
                ne_dom(d),
            )[j]).0,
        forall|i: int|
            0 <= i < older.perm().filter(ne_str(d)).len() ==> ne_str(d)(
                #[trigger] older.perm().filter(ne_str(d))[i],
            ),
        forall|i: int|
            0 <= i < older.timed().filter(ne_dom(d)).len() ==> ne_dom(d)(
                #[trigger] older.timed().filter(ne_dom(d))[i],
            ),
    ensures
        newer.wf(),
{
    let fp = older.perm().filter(ne_str(d));
    let ft = older.timed().filter(ne_dom(d));
    assert forall|i: int| 0 <= i < newer.perm().len() implies is_plain_domain(
        #[trigger] newer.perm()[i],
    ) by {
        let k = choose|k: int| 0 <= k < older.perm().len() && older.perm()[k] == fp[i];
    }
    assert forall|i: int| 0 <= i < newer.timed().len() implies is_plain_domain(
        (#[trigger] newer.timed()[i]).0,
    ) by {
        if i < ft.len() {
            let k = choose|k: int| 0 <= k < older.timed().len() && older.timed()[k] == ft[i];
        } else {
            assert(newer.timed()[i] == (d, e));
        }
    }
    assert forall|i: int, j: int| 0 <= i < j < newer.timed().len() implies (
    #[trigger] newer.timed()[i]).0 != (#[trigger] newer.timed()[j]).0 by {
        if j == ft.len() {
            assert(newer.timed()[j] == (d, e));
            assert(ne_dom(d)(ft[i]));
        }
    }
    assert forall|i: int, j: int|
        0 <= i < newer.perm().len() && 0 <= j < newer.timed().len() implies #[trigger] newer.perm()[
    i] != (#[trigger] newer.timed()[j]).0 by {
        if j == ft.len() {
            assert(newer.timed()[j] == (d, e));
            assert(ne_str(d)(fp[i]));
        } else {
            let a = choose|a: int| 0 <= a < older.perm().len() && older.perm()[a] == fp[i];
            let b = choose|b: int| 0 <= b < older.timed().len() && older.timed()[b] == ft[j];
            assert(older.perm()[a] != older.timed()[b].0);
        }
    }
}

} // verus!
