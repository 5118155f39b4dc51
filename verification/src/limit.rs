//! The per-identity quota tracker: active-record counts, per-identity
//! override limits, and the process-wide default limit.
//!
//! Since the directory has no authentication, this tracker is what prevents
//! one network identity from spawning an unbounded number of rooms.

use crate::store::IdMap;
use crate::store::map_of;
use vstd::prelude::*;

verus! {

/// The default number of rooms one identity may hold at once.
pub const DEFAULT_ROOM_LIMIT: u16 = 5;

/// The error returned when an identity already holds as many records as its
/// effective limit allows.
pub struct RateLimited;

/// The warning value returned when a decrement was requested for an identity
/// with no tracked usage: it indicates a caller bookkeeping bug, is never
/// fatal, and leaves the tracker untouched.
pub struct AccountingAnomaly;

/// The count stored for `i`, with an absent entry meaning zero.
pub open spec fn count_in(c: Map<u128, u16>, i: u128) -> u16 {
    if c.contains_key(i) {
        c[i]
    } else {
        0
    }
}

/// The counts table after a successful increment for `i`.
pub open spec fn counts_after_increase(c: Map<u128, u16>, i: u128) -> Map<u128, u16> {
    c.insert(i, (count_in(c, i) + 1) as u16)
}

/// The counts table after a decrement of `by` for `i`: floored at zero, a
/// zero result removes the entry, and an absent entry is left untouched.
pub open spec fn counts_after_decrease(c: Map<u128, u16>, i: u128, by: u16) -> Map<u128, u16> {
    if !c.contains_key(i) {
        c
    } else if c[i] <= by {
        c.remove(i)
    } else {
        c.insert(i, (c[i] - by) as u16)
    }
}

/// Decrementing right after incrementing the same identity restores the
/// counts table exactly, provided no zero count was stored and the count had
/// room to grow. This is the tracker half of the create-then-delete
/// round-trip law.
pub proof fn lemma_increase_then_decrease(c: Map<u128, u16>, i: u128)
    requires
        forall|j: u128| #[trigger] c.contains_key(j) ==> c[j] >= 1,
        count_in(c, i) < u16::MAX,
    ensures
        counts_after_decrease(counts_after_increase(c, i), i, 1) == c,
{
    let c1 = counts_after_increase(c, i);
    if count_in(c, i) == 0 {
        assert(!c.contains_key(i));
        assert(counts_after_decrease(c1, i, 1) =~= c);
    } else {
        assert(c1[i] == count_in(c, i) + 1);
        assert(counts_after_decrease(c1, i, 1) =~= c);
    }
}

/// Maps each network identity to how many live records it currently owns and
/// to its optional override limit; holds the default limit fixed at
/// construction.
pub struct UsageTracker {
    pub usage_count_by_ip: IdMap<u16>,
    pub user_limits: IdMap<u16>,
    pub limit: u16,
}

impl UsageTracker {
    /// The active-record counts table.
    pub open spec fn counts(&self) -> Map<u128, u16> {
        self.usage_count_by_ip@
    }

    /// The override-limit table.
    pub open spec fn limits(&self) -> Map<u128, u16> {
        self.user_limits@
    }

    /// The process-wide default limit.
    pub open spec fn default_limit(&self) -> u16 {
        self.limit
    }

    /// The override limit for `i` if one is set, else the default limit.
    pub open spec fn effective_limit(&self, i: u128) -> u16 {
        if self.limits().contains_key(i) {
            self.limits()[i]
        } else {
            self.limit
        }
    }

    /// The active-record count for `i`, zero when untracked.
    pub open spec fn count_of(&self, i: u128) -> u16 {
        count_in(self.counts(), i)
    }

    /// Well-formed: both tables carry distinct keys, the default limit is
    /// positive, and no zero-valued count is ever stored.
    pub open spec fn wf(&self) -> bool {
        &&& self.usage_count_by_ip.wf()
        &&& self.user_limits.wf()
        &&& self.limit >= 1
        &&& forall|i: u128| #[trigger] self.counts().contains_key(i) ==> self.counts()[i] >= 1
    }

    /// A fresh tracker: no usage yet, the given override limits (a later pair
    /// wins over an earlier one with the same identity), and the default
    /// limit.
    pub fn new(user_limits: Vec<(u128, u16)>) -> (r: Self)
        ensures
            r.wf(),
            r.counts() == Map::<u128, u16>::empty(),
            r.limits() == map_of(user_limits@),
            r.default_limit() == DEFAULT_ROOM_LIMIT,
    {
        let mut limits: IdMap<u16> = IdMap::new();
        let mut j: usize = 0;
        while j < user_limits.len()
            invariant
                limits.wf(),
                j <= user_limits@.len(),
                limits@ == map_of(user_limits@.take(j as int)),
            decreases user_limits@.len() - j,
        {
            let pair = user_limits[j];
            limits.set(pair.0, pair.1);
            proof {
                assert(user_limits@.take(j + 1).drop_last() =~= user_limits@.take(j as int));
                assert(user_limits@.take(j + 1).last() == user_limits@[j as int]);
            }
            j += 1;
        }
        proof {
            assert(user_limits@.take(user_limits@.len() as int) =~= user_limits@);
        }
        UsageTracker { usage_count_by_ip: IdMap::new(), user_limits: limits, limit: DEFAULT_ROOM_LIMIT }
    }

    /// Record one more live record for `ip`, unless that would push its count
    /// past its effective limit; a refused increment changes nothing at all.
    pub fn increase(&mut self, ip: u128) -> (r: Result<(), RateLimited>)
        requires
            old(self).wf(),
        ensures
            final(self).wf(),
            final(self).limits() == old(self).limits(),
            final(self).default_limit() == old(self).default_limit(),
            r is Err <==> old(self).count_of(ip) >= old(self).effective_limit(ip),
            r is Err ==> *final(self) == *old(self),
            r is Ok ==> final(self).counts() == counts_after_increase(old(self).counts(), ip),
            r is Ok ==> final(self).count_of(ip) == old(self).count_of(ip) + 1
                && final(self).count_of(ip) <= final(self).effective_limit(ip),
    {
        let current: u16 = match self.usage_count_by_ip.get(ip) {
            Some(n) => *n,
            None => 0,
        };
        let lim: u16 = match self.user_limits.get(ip) {
            Some(l) => *l,
            None => self.limit,
        };
        if current >= lim {
            Err(RateLimited)
        } else {
            self.usage_count_by_ip.set(ip, current + 1);
            proof {
                assert forall|i: u128| #[trigger] self.counts().contains_key(i) implies self.counts()[i] >= 1 by {
                    if i != ip {
                        assert(old(self).counts().contains_key(i));
                    }
                }
            }
            Ok(())
        }
    }

    /// Forget one live record for `ip`; shorthand for a decrement of one.
    pub fn decrease(&mut self, ip: u128) -> (r: Option<AccountingAnomaly>)
        requires
            old(self).wf(),
        ensures
            final(self).wf(),
            final(self).limits() == old(self).limits(),
            final(self).default_limit() == old(self).default_limit(),
            final(self).counts() == counts_after_decrease(old(self).counts(), ip, 1),
            r is Some <==> !old(self).counts().contains_key(ip),
            r is Some ==> *final(self) == *old(self),
    {
        self.decrease_by(ip, 1)
    }

    /// Reduce the stored count for `ip` by `by`, floored so it never goes
    /// negative; a count that reaches zero has its entry removed. Asking to
    /// decrement an untracked identity returns an [`AccountingAnomaly`] and
    /// changes nothing.
    pub fn decrease_by(&mut self, ip: u128, by: u16) -> (r: Option<AccountingAnomaly>)
        requires
            old(self).wf(),
        ensures
            final(self).wf(),
            final(self).limits() == old(self).limits(),
            final(self).default_limit() == old(self).default_limit(),
            final(self).counts() == counts_after_decrease(old(self).counts(), ip, by),
            r is Some <==> !old(self).counts().contains_key(ip),
            r is Some ==> *final(self) == *old(self),
    {
        let current: u16 = match self.usage_count_by_ip.get(ip) {
            Some(n) => *n,
            None => {
                return Some(AccountingAnomaly);
            },
        };
        if current <= by {
            self.usage_count_by_ip.remove_key(ip);
            proof {
                assert forall|i: u128| #[trigger] self.counts().contains_key(i) implies self.counts()[i] >= 1 by {
                    assert(old(self).counts().contains_key(i));
                }
            }
        } else {
            self.usage_count_by_ip.set(ip, current - by);
            proof {
                assert forall|i: u128| #[trigger] self.counts().contains_key(i) implies self.counts()[i] >= 1 by {
                    if i != ip {
                        assert(old(self).counts().contains_key(i));
                    }
                }
            }
        }
        None
    }

    /// Install `limit` as `ip`'s override; an override equal to the default
    /// is stored as no override at all, keeping the table minimal. Eviction
    /// of records above a lowered limit is the registry's job, not the
    /// tracker's.
    pub fn limit(&mut self, ip: u128, limit: u16)
        requires
            old(self).wf(),
        ensures
            final(self).wf(),
            final(self).counts() == old(self).counts(),
            final(self).default_limit() == old(self).default_limit(),
            final(self).limits() == if limit == old(self).default_limit() {
                old(self).limits().remove(ip)
            } else {
                old(self).limits().insert(ip, limit)
            },
            final(self).effective_limit(ip) == limit,
            forall|j: u128| j != ip ==> final(self).effective_limit(j) == old(self).effective_limit(j),
    {
        if limit == self.limit {
            self.user_limits.remove_key(ip);
        } else {
            self.user_limits.set(ip, limit);
        }
        proof {
            assert forall|i: u128| #[trigger] self.counts().contains_key(i) implies self.counts()[i]
                >= 1 by {
                assert(old(self).counts().contains_key(i));
            }
        }
    }

    /// The active-record count for `ip`, zero when untracked.
    pub fn current_count(&self, ip: u128) -> (n: u16)
        requires
            self.wf(),
        ensures
            n == self.count_of(ip),
    {
        match self.usage_count_by_ip.get(ip) {
            Some(n) => *n,
            None => 0,
        }
    }

    /// The limit `ip` is actually held to: its override if set, else the
    /// default.
    pub fn effective_limit_of(&self, ip: u128) -> (n: u16)
        requires
            self.wf(),
        ensures
            n == self.effective_limit(ip),
    {
        match self.user_limits.get(ip) {
            Some(l) => *l,
            None => self.limit,
        }
    }
}

} // verus!
