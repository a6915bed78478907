use std::collections::HashSet;
use vstd::prelude::*;

use crate::model::{
    lemma_complete_wf, lemma_reverse_drop_first, lemma_reverse_drop_last, lemma_reverse_twice,
    lemma_total_push, lemma_total_remove, lemma_total_update, lemma_total_zero, total_pending,
    Drive, Retrieved, SeriesModel, SeriesWrapper,
};

verus! {

broadcast use vstd::std_specs::hash::group_hash_axioms;

/// The pending tail of a series: the computation that runs next is last.
struct Series<T> {
    index: i64,
    pending: Vec<T>,
}

/// An unbounded queue of computations, enrolled one at a time or as series.
pub struct FuturesUnorderedSeries<T> {
    active: HashSet<i64>,
    series_queue: Vec<Series<T>>,
    queued: usize,
    next_index: i64,
    enrolled: Ghost<Map<i64, Seq<T>>>,
    handed: Ghost<Map<i64, Seq<T>>>,
}

spec fn tail_view<T>(s: Series<T>) -> (i64, Seq<T>) {
    (s.index, s.pending@.reverse())
}

impl<T> View for FuturesUnorderedSeries<T> {
    type V = SeriesModel<T>;

    closed spec fn view(&self) -> SeriesModel<T> {
        SeriesModel {
            active: self.active@,
            tails: self.series_queue@.map_values(|s: Series<T>| tail_view(s)),
            next_index: self.next_index as int,
            enrolled: self.enrolled@,
            handed: self.handed@,
        }
    }
}

/// Moves the elements of `v` into a new vector in reverse order.
fn reversed<T>(v: Vec<T>) -> (r: Vec<T>)
    ensures
        r@ == v@.reverse(),
{
    let ghost orig = v@;
    let mut v = v;
    let mut r: Vec<T> = Vec::new();
    while v.len() > 0
        invariant
            v@ == orig.take(orig.len() - r@.len()),
            r@.len() <= orig.len(),
            forall|j: int| 0 <= j < r@.len() ==> r@[j] == orig[orig.len() - 1 - j],
        decreases v@.len(),
    {
        let x = v.pop().unwrap();
        r.push(x);
        assert(v@ =~= orig.take(orig.len() - r@.len()));
    }
    assert(r@ =~= orig.reverse());
    r
}

impl<T> FuturesUnorderedSeries<T> {
    /// The queue's own invariant: its model is well formed, the count of
    /// queued computations is exact, and the length fits in `usize`.
    pub closed spec fn wf(&self) -> bool {
        &&& self@.wf()
        &&& self.queued == total_pending(self@.tails)
        &&& self@.len() <= usize::MAX
    }

    /// Creates an empty queue whose first slot will be 0.
    pub fn new() -> (r: Self)
        ensures
            r.wf(),
            r@ == SeriesModel::<T>::empty(),
    {
        let r = FuturesUnorderedSeries {
            active: HashSet::new(),
            series_queue: Vec::new(),
            queued: 0,
            next_index: 0,
            enrolled: Ghost(Map::empty()),
            handed: Ghost(Map::empty()),
        };
        assert(r@.tails =~= Seq::<(i64, Seq<T>)>::empty());
        r
    }

    /// The index the next enrolment will receive.
    pub fn next_index(&self) -> (r: i64)
        requires
            self.wf(),
        ensures
            r == self@.next_index,
    {
        self.next_index
    }

    /// Whether no computation is left, neither active nor in a tail.
    pub fn is_empty(&self) -> (r: bool)
        requires
            self.wf(),
        ensures
            r == (self@.len() == 0),
            r == (self@.active.is_empty() && self@.tails.len() == 0),
    {
        proof {
            lemma_total_zero(self@);
        }
        self.active.is_empty() && self.series_queue.len() == 0
    }

    /// Whether the queue is exhausted: the active set is empty and no tail is
    /// left, so a retrieval can only report the end until something is enrolled.
    pub fn is_terminated(&self) -> (r: bool)
        requires
            self.wf(),
        ensures
            r == self@.is_terminated(),
    {
        self.active.is_empty() && self.series_queue.len() == 0
    }

    /// Bounds on the number of outputs still to come, which is exact.
    pub fn size_hint(&self) -> (r: (usize, Option<usize>))
        requires
            self.wf(),
        ensures
            r.0 == self@.len(),
            r.1 == Some(r.0),
    {
        let len = self.len();
        (len, Some(len))
    }

    /// The number of computations not yet completed: those in the active set
    /// and those waiting in series tails.
    pub fn len(&self) -> (r: usize)
        requires
            self.wf(),
        ensures
            r == self@.active.len() + total_pending(self@.tails),
    {
        self.active.len() + self.queued
    }
}

impl<T> FuturesUnorderedSeries<T> {
    /// Enrols one computation under the next free slot and returns it tagged
    /// with that slot, for insertion into the active set.
    pub fn push(&mut self, future: T) -> (r: SeriesWrapper<T>)
        requires
            old(self).wf(),
            old(self)@.next_index < i64::MAX,
            old(self)@.len() < usize::MAX,
        ensures
            final(self).wf(),
            final(self)@ == old(self)@.push(future),
            final(self)@.len() == old(self)@.len() + 1,
            r == (SeriesWrapper { data: future, index: old(self)@.next_index as i64 }),
    {
        let ghost old_m = self@;
        let n = self.next_index;
        assert(!old_m.active.contains(n));
        self.active.insert(n);
        self.next_index = n + 1;
        self.enrolled = Ghost(self.enrolled@.insert(n, seq![future]));
        self.handed = Ghost(self.handed@.insert(n, seq![future]));
        proof {
            let m = self@;
            assert(m.tails == old_m.tails);
            assert forall|k: i64| 0 <= k < m.next_index && !m.has_tail(k) implies #[trigger] m.handed[k]
                == m.enrolled[k] by {
                if k != n {
                    assert(!old_m.has_tail(k));
                }
            }
        }
        SeriesWrapper { data: future, index: n }
    }

    /// Enrols a series under the next free slot. Its first computation is
    /// returned tagged with that slot, for insertion into the active set; the
    /// others wait, in order, until the one before them has completed. An
    /// empty series changes nothing and returns `None`.
    pub fn push_series(&mut self, futures: Vec<T>) -> (r: Option<SeriesWrapper<T>>)
        requires
            old(self).wf(),
            futures@.len() > 0 ==> old(self)@.next_index < i64::MAX,
            old(self)@.len() + futures@.len() <= usize::MAX,
        ensures
            final(self).wf(),
            final(self)@ == old(self)@.push_series(futures@),
            final(self)@.len() == old(self)@.len() + futures@.len(),
            futures@.len() == 0 ==> r is None && final(self)@ == old(self)@,
            futures@.len() > 0 ==> r == Some(
                SeriesWrapper { data: futures@[0], index: old(self)@.next_index as i64 },
            ),
    {
        let ghost fs = futures@;
        let ghost old_m = self@;
        let mut pending = reversed(futures);
        proof {
            lemma_reverse_twice(fs);
        }
        match pending.pop() {
            Some(first) => {
                proof {
                    lemma_reverse_drop_last(fs.reverse());
                    assert(pending@.reverse() =~= fs.drop_first());
                }
                let n = self.next_index;
                assert(!old_m.active.contains(n));
                if pending.len() > 0 {
                    let k = pending.len();
                    self.series_queue.push(Series { index: n, pending });
                    proof {
                        lemma_total_push(old_m.tails, (n, fs.drop_first()));
                        assert(self@.tails =~= old_m.tails.push((n, fs.drop_first())));
                    }
                    self.queued = self.queued + k;
                }
                self.active.insert(n);
                self.next_index = n + 1;
                self.enrolled = Ghost(self.enrolled@.insert(n, fs));
                self.handed = Ghost(self.handed@.insert(n, seq![fs[0]]));
                proof {
                    let m = self@;
                    assert(m =~= old_m.push_series(fs));
                    assert forall|k: i64|
                        0 <= k < m.next_index && !m.has_tail(k) implies #[trigger] m.handed[k]
                        == m.enrolled[k] by {
                        if k != n {
                            if old_m.has_tail(k) {
                                let i = choose|i: int|
                                    0 <= i < old_m.tails.len() && old_m.tails[i].0 == k;
                                assert(m.tails[i] == old_m.tails[i]);
                            }
                        } else {
                            if fs.len() > 1 {
                                assert(m.tails[m.tails.len() - 1].0 == n);
                            }
                            assert(seq![fs[0]] =~= fs);
                        }
                    }
                    assert forall|i: int| 0 <= i < m.tails.len() implies {
                        let (k, t) = #[trigger] m.tails[i];
                        &&& t.len() > 0
                        &&& m.active.contains(k)
                        &&& 0 <= k < m.next_index
                        &&& m.handed[k] + t == m.enrolled[k]
                    } by {
                        if i == old_m.tails.len() {
                            assert(seq![fs[0]] + fs.drop_first() =~= fs);
                        }
                    }
                }
                Some(SeriesWrapper { data: first, index: n })
            },
            None => {
                assert(fs.len() == 0);
                None
            },
        }
    }
}

impl<T> FuturesUnorderedSeries<T> {
    /// Records that the active set completed the computation of slot `index`.
    /// Where the slot has a tail, the tail's head is returned tagged with the
    /// same slot, for insertion into the active set; otherwise the slot leaves.
    pub fn complete(&mut self, index: i64) -> (r: Option<SeriesWrapper<T>>)
        requires
            old(self).wf(),
        ensures
            final(self).wf(),
            final(self)@ == old(self)@.complete(index),
            r == match old(self)@.promoted(index) {
                Some(c) => Some(SeriesWrapper { data: c, index }),
                None => None,
            },
    {
        let ghost old_m = self@;
        proof {
            lemma_complete_wf(old_m, index);
        }
        let n = self.series_queue.len();
        let mut i: usize = 0;
        while i < n && self.series_queue[i].index != index
            invariant
                n == self.series_queue@.len(),
                self@ == old_m,
                i <= n,
                forall|j: int| 0 <= j < i ==> self.series_queue@[j].index != index,
            decreases n - i,
        {
            i += 1;
        }
        if i < n {
            proof {
                assert(old_m.tails[i as int].0 == index);
                let p = old_m.tail_pos(index);
                assert(p == i);
            }
            let ghost t = old_m.tails[i as int].1;
            let mut entry = self.series_queue.remove(i);
            proof {
                lemma_reverse_twice(entry.pending@);
                lemma_reverse_drop_last(entry.pending@);
            }
            let next = entry.pending.pop().unwrap();
            if entry.pending.len() > 0 {
                self.series_queue.insert(i, entry);
                proof {
                    assert(self@.tails =~= old_m.tails.update(i as int, (index, t.drop_first())));
                    lemma_total_update(old_m.tails, i as int, (index, t.drop_first()));
                }
            } else {
                proof {
                    assert(self@.tails =~= old_m.tails.remove(i as int));
                    lemma_total_remove(old_m.tails, i as int);
                }
            }
            self.queued = self.queued - 1;
            self.handed = Ghost(self.handed@.insert(index, self.handed@[index].push(next)));
            proof {
                assert(self@ == old_m.complete(index));
            }
            Some(SeriesWrapper { data: next, index })
        } else {
            proof {
                assert(!old_m.has_tail(index));
            }
            self.active.remove(&index);
            proof {
                assert(self@ == old_m.complete(index));
            }
            None
        }
    }

    /// One retrieval: given what the active set reported when asked for its
    /// next completion, says what the consumer receives and which computation,
    /// if any, joins the active set.
    pub fn poll_next<V>(&mut self, drive: Drive<V>) -> (r: Retrieved<T, V>)
        requires
            old(self).wf(),
        ensures
            final(self).wf(),
            final(self)@ == old(self)@.after(drive),
            r == old(self)@.retrieve(drive),
    {
        match drive {
            Drive::Empty => Retrieved::End,
            Drive::Pending => Retrieved::Pending,
            Drive::Ready(output) => {
                let promoted = self.complete(output.index);
                Retrieved::Ready { value: output.data, promoted }
            },
        }
    }
}

impl<T> FuturesUnorderedSeries<T> {
    /// Enrols each computation of `futures`, in order, as a slot of its own,
    /// and returns them tagged with their slots.
    pub fn extend(&mut self, futures: Vec<T>) -> (r: Vec<SeriesWrapper<T>>)
        requires
            old(self).wf(),
            old(self)@.next_index + futures@.len() <= i64::MAX,
            old(self)@.len() + futures@.len() <= usize::MAX,
        ensures
            final(self).wf(),
            final(self)@ == old(self)@.extend(futures@),
            final(self)@.len() == old(self)@.len() + futures@.len(),
            r@.len() == futures@.len(),
            forall|j: int|
                0 <= j < r@.len() ==> (#[trigger] r@[j]).data == futures@[j] && r@[j].index
                    == old(self)@.next_index + j,
    {
        let ghost fs = futures@;
        let ghost old_m = self@;
        let mut rest = reversed(futures);
        let mut tags: Vec<SeriesWrapper<T>> = Vec::new();
        proof {
            assert(fs.take(0) =~= Seq::<T>::empty());
            assert(fs.skip(0) =~= fs);
        }
        while rest.len() > 0
            invariant
                self.wf(),
                tags@.len() <= fs.len(),
                rest@ =~= fs.skip(tags@.len() as int).reverse(),
                self@ == old_m.extend(fs.take(tags@.len() as int)),
                self@.next_index == old_m.next_index + tags@.len(),
                self@.len() == old_m.len() + tags@.len(),
                old_m.next_index + fs.len() <= i64::MAX,
                old_m.len() + fs.len() <= usize::MAX,
                forall|j: int|
                    0 <= j < tags@.len() ==> (#[trigger] tags@[j]).data == fs[j] && tags@[j].index
                        == old_m.next_index + j,
            decreases rest@.len(),
        {
            let ghost n = tags@.len() as int;
            proof {
                lemma_reverse_drop_first(fs.skip(n));
                assert(fs.skip(n).drop_first() =~= fs.skip(n + 1));
            }
            let f = rest.pop().unwrap();
            proof {
                assert(f == fs[n]);
                assert(fs.take(n + 1).drop_last() =~= fs.take(n));
            }
            let tag = self.push(f);
            tags.push(tag);
        }
        proof {
            assert(fs.take(fs.len() as int) =~= fs);
        }
        tags
    }

    /// Builds a queue that holds each computation of `futures`, in order, as a
    /// slot of its own, and returns it with the computations tagged with their
    /// slots.
    pub fn from_vec(futures: Vec<T>) -> (r: (Self, Vec<SeriesWrapper<T>>))
        requires
            futures@.len() <= i64::MAX,
        ensures
            r.0.wf(),
            r.0@ == SeriesModel::<T>::empty().extend(futures@),
            r.0@.len() == futures@.len(),
            r.1@.len() == futures@.len(),
            forall|j: int|
                0 <= j < r.1@.len() ==> (#[trigger] r.1@[j]).data == futures@[j] && r.1@[j].index
                    == j,
    {
        let mut q = Self::new();
        let k = futures.len();
        let tags = q.extend(futures);
        (q, tags)
    }
}

impl<T> Default for FuturesUnorderedSeries<T> {
    fn default() -> (r: Self)
        ensures
            r.wf(),
            r@ == SeriesModel::<T>::empty(),
    {
        Self::new()
    }
}

} // verus!
