//! Request counting keyed by (minute, client IP).

use vstd::prelude::*;

use crate::extract::extract_internal_ip;
use crate::extract::extract_minute;
use crate::extract::ip_key;
use crate::extract::line_matches_filter;
use crate::extract::minute_key;
use crate::extract::spec_matches_filter;
use crate::text::str_eq;

verus! {

/// One aggregate entry: a (minute, ip) key and how many matching requests
/// carried it.
pub struct Entry {
    pub minute: String,
    pub ip: String,
    pub count: usize,
}

impl View for Entry {
    type V = ((Seq<char>, Seq<char>), nat);

    open spec fn view(&self) -> ((Seq<char>, Seq<char>), nat) {
        ((self.minute@, self.ip@), self.count as nat)
    }
}

/// The total count recorded for key `k` in the entry sequence `s`.
pub open spec fn count_in(
    s: Seq<((Seq<char>, Seq<char>), nat)>,
    k: (Seq<char>, Seq<char>),
) -> nat
    decreases s.len(),
{
    if s.len() == 0 {
        0
    } else {
        count_in(s.drop_last(), k) + if s.last().0 == k {
            s.last().1
        } else {
            0
        }
    }
}

/// A key that no entry carries counts zero.
pub proof fn lemma_count_in_absent(s: Seq<((Seq<char>, Seq<char>), nat)>, k: (Seq<char>, Seq<char>))
    requires
        forall|i: int| 0 <= i < s.len() ==> s[i].0 != k,
    ensures
        count_in(s, k) == 0,
    decreases s.len(),
{
    if s.len() > 0 {
        lemma_count_in_absent(s.drop_last(), k);
    }
}

/// With pairwise-distinct keys, the count of the key held at `i` is that
/// entry's count.
pub proof fn lemma_count_in_at(s: Seq<((Seq<char>, Seq<char>), nat)>, i: int)
    requires
        0 <= i < s.len(),
        forall|p: int, q: int| 0 <= p < q < s.len() ==> s[p].0 != s[q].0,
    ensures
        count_in(s, s[i].0) == s[i].1,
    decreases s.len(),
{
    if i == s.len() - 1 {
        lemma_count_in_absent(s.drop_last(), s[i].0);
    } else {
        lemma_count_in_at(s.drop_last(), i);
    }
}

/// Appending an entry adds its count to its own key and nothing else.
pub proof fn lemma_count_in_push(
    s: Seq<((Seq<char>, Seq<char>), nat)>,
    e: ((Seq<char>, Seq<char>), nat),
    k: (Seq<char>, Seq<char>),
)
    ensures
        count_in(s.push(e), k) == count_in(s, k) + if e.0 == k {
            e.1
        } else {
            0
        },
{
    assert(s.push(e).drop_last() =~= s);
    assert(s.push(e).last() == e);
}

/// Replacing the entry at `i` moves its count from the old entry's key to
/// the new one's.
pub proof fn lemma_count_in_update(
    s: Seq<((Seq<char>, Seq<char>), nat)>,
    i: int,
    e: ((Seq<char>, Seq<char>), nat),
    k: (Seq<char>, Seq<char>),
)
    requires
        0 <= i < s.len(),
    ensures
        count_in(s.update(i, e), k) + if s[i].0 == k {
            s[i].1
        } else {
            0
        } == count_in(s, k) + if e.0 == k {
            e.1
        } else {
            0
        },
    decreases s.len(),
{
    let t = s.update(i, e);
    if i == s.len() - 1 {
        assert(t.drop_last() =~= s.drop_last());
        assert(t.last() == e);
    } else {
        assert(t.drop_last() =~= s.drop_last().update(i, e));
        assert(t.last() == s.last());
        lemma_count_in_update(s.drop_last(), i, e, k);
    }
}

/// One recording step for key `k`: `post` is `pre` with `k`'s count one
/// higher — the entry with key `k` bumped in place, or a fresh entry with
/// count 1 appended when `pre` had none — and every other key untouched.
pub open spec fn recorded(
    pre: Seq<((Seq<char>, Seq<char>), nat)>,
    post: Seq<((Seq<char>, Seq<char>), nat)>,
    k: (Seq<char>, Seq<char>),
) -> bool {
    &&& count_in(post, k) == count_in(pre, k) + 1
    &&& (forall|k2: (Seq<char>, Seq<char>)| k2 != k ==> count_in(post, k2) == count_in(pre, k2))
    &&& ((forall|i: int| 0 <= i < pre.len() ==> pre[i].0 != k) ==> post == pre.push((k, 1nat)))
    &&& (forall|i: int|
        0 <= i < pre.len() && pre[i].0 == k ==> post == pre.update(i, (k, (pre[i].1 + 1) as nat)))
}

/// The in-memory aggregation mapping, built during the single pass over the
/// log and read once by the reporter.
pub struct Aggregate {
    entries: Vec<Entry>,
}

impl View for Aggregate {
    type V = Seq<((Seq<char>, Seq<char>), nat)>;

    closed spec fn view(&self) -> Seq<((Seq<char>, Seq<char>), nat)> {
        self.entries@.map_values(|e: Entry| e@)
    }
}

impl Aggregate {
    /// Well-formed: keys are pairwise distinct and every present count is
    /// at least one.
    pub open spec fn wf(self) -> bool {
        &&& (forall|p: int, q: int| 0 <= p < q < self@.len() ==> self@[p].0 != self@[q].0)
        &&& (forall|i: int| 0 <= i < self@.len() ==> self@[i].1 >= 1)
    }

    /// An empty aggregate: every key counts zero.
    pub fn new() -> (r: Aggregate)
        ensures
            r.wf(),
            r@ == Seq::<((Seq<char>, Seq<char>), nat)>::empty(),
    {
        let r = Aggregate { entries: Vec::new() };
        proof {
            assert(r@ =~= Seq::<((Seq<char>, Seq<char>), nat)>::empty());
        }
        r
    }

    /// Whether every present count still has room to grow by one.
    pub fn counts_below_max(&self) -> (r: bool)
        ensures
            r == (forall|i: int| 0 <= i < self@.len() ==> self@[i].1 < usize::MAX),
    {
        let n = self.entries.len();
        let mut i: usize = 0;
        while i < n
            invariant
                0 <= i <= n,
                n == self.entries@.len(),
                forall|j: int| 0 <= j < i ==> self@[j].1 < usize::MAX,
            decreases n - i,
        {
            if self.entries[i].count == usize::MAX {
                assert(self@[i as int].1 == usize::MAX);
                return false;
            }
            i = i + 1;
        }
        true
    }

    /// How many distinct keys the aggregate holds.
    pub fn len(&self) -> (n: usize)
        ensures
            n == self@.len(),
    {
        self.entries.len()
    }

    /// The entry at position `i`, in insertion order.
    pub fn get(&self, i: usize) -> (e: &Entry)
        requires
            i < self@.len(),
        ensures
            e@ == self@[i as int],
    {
        &self.entries[i]
    }

    /// Count one request under the key `(minute, ip)`.
    pub fn record(&mut self, minute: &str, ip: &str)
        requires
            old(self).wf(),
            forall|i: int|
                0 <= i < old(self)@.len() && old(self)@[i].0 == (minute@, ip@) ==> old(
                    self,
                )@[i].1 < usize::MAX,
        ensures
            final(self).wf(),
            recorded(old(self)@, final(self)@, (minute@, ip@)),
    {
        let ghost k = (minute@, ip@);
        let n = self.entries.len();
        let mut i: usize = 0;
        while i < n
            invariant
                0 <= i <= n,
                n == self.entries@.len(),
                *self == *old(self),
                old(self).wf(),
                forall|j: int|
                    0 <= j < old(self)@.len() && old(self)@[j].0 == k ==> old(self)@[j].1
                        < usize::MAX,
                forall|j: int| 0 <= j < i ==> self@[j].0 != k,
                k == (minute@, ip@),
            decreases n - i,
        {
            if str_eq(self.entries[i].minute.as_str(), minute) && str_eq(
                self.entries[i].ip.as_str(),
                ip,
            ) {
                assert(self@[i as int] == self.entries@[i as int]@);
                assert(self@[i as int].0 == k);
                let c = self.entries[i].count;
                assert(old(self)@[i as int].0 == k);
                assert(old(self)@[i as int].1 < usize::MAX);
                assert(c < usize::MAX);
                let e = Entry {
                    minute: self.entries[i].minute.clone(),
                    ip: self.entries[i].ip.clone(),
                    count: c + 1,
                };
                assert(e@ == (k, (c + 1) as nat));
                self.entries.set(i, e);
                proof {
                    assert(self@ =~= old(self)@.update(i as int, (k, (c + 1) as nat)));
                    lemma_count_in_at(old(self)@, i as int);
                    lemma_count_in_update(old(self)@, i as int, (k, (c + 1) as nat), k);
                    assert forall|k2: (Seq<char>, Seq<char>)| k2 != k implies count_in(
                        self@,
                        k2,
                    ) == count_in(old(self)@, k2) by {
                        lemma_count_in_update(old(self)@, i as int, (k, (c + 1) as nat), k2);
                    }
                    assert forall|p: int|
                        0 <= p < old(self)@.len() && old(self)@[p].0 == k implies old(self)@.update(
                        p,
                        (k, (old(self)@[p].1 + 1) as nat),
                    ) == self@ by {
                        if p != i {
                            assert(old(self)@[p].0 != old(self)@[i as int].0);
                        }
                    }
                }
                return ;
            }
            i = i + 1;
        }
        let e = Entry { minute: String::from_str(minute), ip: String::from_str(ip), count: 1 };
        assert(e@ == (k, 1nat));
        self.entries.push(e);
        proof {
            assert(self@ =~= old(self)@.push((k, 1nat)));
            lemma_count_in_push(old(self)@, (k, 1nat), k);
            lemma_count_in_absent(old(self)@, k);
            assert forall|k2: (Seq<char>, Seq<char>)| k2 != k implies count_in(self@, k2)
                == count_in(old(self)@, k2) by {
                lemma_count_in_push(old(self)@, (k, 1nat), k2);
            }
        }
    }

    /// Run one log line through filter, extraction and aggregation: when the
    /// line passes the filter and both keys extract, its key is counted once;
    /// otherwise the aggregate is left as it was.
    pub fn process_line(&mut self, line: &str)
        requires
            old(self).wf(),
            forall|i: int| 0 <= i < old(self)@.len() ==> old(self)@[i].1 < usize::MAX,
        ensures
            final(self).wf(),
            match (minute_key(line@), ip_key(line@)) {
                (Some(m), Some(p)) => if spec_matches_filter(line@) {
                    recorded(old(self)@, final(self)@, (m, p))
                } else {
                    final(self)@ == old(self)@
                },
                _ => final(self)@ == old(self)@,
            },
    {
        if !line_matches_filter(line) {
            return ;
        }
        let minute = extract_minute(line);
        let ip = extract_internal_ip(line);
        if let (Some(m), Some(p)) = (minute, ip) {
            self.record(m.as_str(), p.as_str());
        }
    }
}

/// Recording the same key twice, starting from an aggregate that did not
/// hold it, leaves that key counted exactly twice.
pub proof fn lemma_recorded_twice(
    s0: Seq<((Seq<char>, Seq<char>), nat)>,
    s1: Seq<((Seq<char>, Seq<char>), nat)>,
    s2: Seq<((Seq<char>, Seq<char>), nat)>,
    k: (Seq<char>, Seq<char>),
)
    requires
        recorded(s0, s1, k),
        recorded(s1, s2, k),
        count_in(s0, k) == 0,
    ensures
        count_in(s2, k) == 2,
{
}

} // verus!
