//! A secondary index from timestamps to event offsets.

use vstd::prelude::*;

use crate::event::Event;
use crate::temporal::Timestamp;

verus! {

/// Timestamps never decrease along the entries.
pub open spec fn entries_sorted(es: Seq<(i64, usize)>) -> bool {
    forall|i: int, j: int| 0 <= i < j < es.len() ==> (#[trigger] es[i]).0 <= (#[trigger] es[j]).0
}

/// Where a new entry with timestamp `ts` lands: after every entry whose
/// timestamp is not greater.
pub open spec fn entry_pos(es: Seq<(i64, usize)>, ts: i64) -> int
    decreases es.len(),
{
    if es.len() == 0 {
        0
    } else if es.last().0 <= ts {
        es.len() as int
    } else {
        entry_pos(es.drop_last(), ts)
    }
}

/// An index over event offsets, ordered by timestamp, ties in insertion
/// order.
pub struct TemporalIndex {
    entries: Vec<(i64, usize)>,
}

impl Default for TemporalIndex {
    /// The same empty index `new` builds.
    fn default() -> (r: Self)
        ensures
            r.wf(),
            r.view_entries() == Seq::<(i64, usize)>::empty(),
    {
        TemporalIndex::new()
    }
}

impl TemporalIndex {
    /// The entries, each a timestamp with the offset filed under it.
    pub closed spec fn view_entries(&self) -> Seq<(i64, usize)> {
        self.entries@
    }

    /// The index is in working order: entries in timestamp order.
    pub closed spec fn wf(&self) -> bool {
        entries_sorted(self.entries@)
    }

    /// An empty index.
    pub fn new() -> (r: Self)
        ensures
            r.wf(),
            r.view_entries() == Seq::<(i64, usize)>::empty(),
    {
        TemporalIndex { entries: Vec::new() }
    }

    /// File one event's offset under its timestamp.
    pub fn add_event(&mut self, event: &Event, offset: usize)
        requires
            old(self).wf(),
        ensures
            final(self).wf(),
            final(self).view_entries() == old(self).view_entries().insert(
                entry_pos(old(self).view_entries(), event@.timestamp),
                (event@.timestamp, offset),
            ),
    {
        let ts = event.timestamp().nanos;
        let mut i: usize = 0;
        while i < self.entries.len() && self.entries[i].0 <= ts
            invariant
                i <= self.entries@.len(),
                *self == *old(self),
                forall|k: int| 0 <= k < i ==> (#[trigger] self.entries@[k]).0 <= ts,
            decreases self.entries@.len() - i,
        {
            i += 1;
        }
        proof {
            lemma_entry_pos_bounds(self.entries@, ts);
            assert(entry_pos(self.entries@, ts) == i as int) by {
                let p = entry_pos(self.entries@, ts);
                if p < i {
                    assert(self.entries@[p].0 <= ts);
                }
                if i < p {
                    assert(self.entries@[i as int].0 <= ts);
                }
            }
        }
        let ghost pre = self.entries@;
        self.entries.insert(i, (ts, offset));
        proof {
            assert(self.entries@ =~= pre.insert(i as int, (ts, offset)));
            assert(entries_sorted(self.entries@)) by {
                lemma_entry_pos_bounds(pre, ts);
                assert forall|a: int, b: int|
                    0 <= a < b < self.entries@.len() implies (#[trigger] self.entries@[a]).0 <= (
                #[trigger] self.entries@[b]).0 by {
                    if a < i && b > i {
                        assert(self.entries@[a] == pre[a] && self.entries@[b] == pre[b - 1]);
                    }
                }
            }
        }
    }

    /// The offsets of every entry with a timestamp in `[start, end)`, in
    /// timestamp order.
    pub fn find_in_range(&self, start: Timestamp, end: Timestamp) -> (r: Vec<usize>)
        ensures
            r@ == self.view_entries().filter(
                |p: (i64, usize)| start.nanos <= p.0 && p.0 < end.nanos,
            ).map_values(|p: (i64, usize)| p.1),
    {
        let ghost pred = |p: (i64, usize)| start.nanos <= p.0 && p.0 < end.nanos;
        let mut out: Vec<usize> = Vec::new();
        let mut i: usize = 0;
        proof {
            reveal(Seq::filter);
            assert(out@ =~= self.entries@.subrange(0, 0).filter(pred).map_values(
                |p: (i64, usize)| p.1,
            ));
        }
        while i < self.entries.len()
            invariant
                i <= self.entries@.len(),
                pred == (|p: (i64, usize)| start.nanos <= p.0 && p.0 < end.nanos),
                out@ == self.entries@.subrange(0, i as int).filter(pred).map_values(
                    |p: (i64, usize)| p.1,
                ),
            decreases self.entries@.len() - i,
        {
            let ghost done = self.entries@.subrange(0, i as int);
            let ghost pre = out@;
            let p = self.entries[i];
            proof {
                reveal(Seq::filter);
                assert(self.entries@.subrange(0, i + 1 as int).drop_last() =~= done);
                assert(self.entries@.subrange(0, i + 1 as int).last() == p);
                if pred(p) {
                    assert(done.filter(pred).push(p).map_values(|q: (i64, usize)| q.1)
                        =~= done.filter(pred).map_values(|q: (i64, usize)| q.1).push(p.1));
                }
            }
            if start.nanos <= p.0 && p.0 < end.nanos {
                out.push(p.1);
            }
            i += 1;
        }
        proof {
            assert(self.entries@.subrange(0, self.entries@.len() as int) =~= self.entries@);
        }
        out
    }
}

proof fn lemma_entry_pos_bounds(es: Seq<(i64, usize)>, ts: i64)
    requires
        entries_sorted(es),
    ensures
        0 <= entry_pos(es, ts) <= es.len(),
        forall|k: int| 0 <= k < entry_pos(es, ts) ==> (#[trigger] es[k]).0 <= ts,
        forall|k: int| entry_pos(es, ts) <= k < es.len() ==> (#[trigger] es[k]).0 > ts,
    decreases es.len(),
{
    if es.len() == 0 {
    } else if es.last().0 <= ts {
        assert forall|k: int| 0 <= k < es.len() implies (#[trigger] es[k]).0 <= ts by {
            if k < es.len() - 1 {
                assert(es[k].0 <= es.last().0);
            }
        }
    } else {
        assert(entries_sorted(es.drop_last())) by {
            assert forall|a: int, b: int|
                0 <= a < b < es.drop_last().len() implies (#[trigger] es.drop_last()[a]).0 <= (
            #[trigger] es.drop_last()[b]).0 by {
                assert(es[a].0 <= es[b].0);
            }
        }
        lemma_entry_pos_bounds(es.drop_last(), ts);
        assert forall|k: int| 0 <= k < entry_pos(es, ts) implies (#[trigger] es[k]).0 <= ts by {
            assert(es.drop_last()[k].0 <= ts);
        }
        assert forall|k: int| entry_pos(es, ts) <= k < es.len() implies (#[trigger] es[k]).0
            > ts by {
            if k < es.len() - 1 {
                assert(es.drop_last()[k].0 > ts);
            }
        }
    }
}

} // verus!
