use vstd::prelude::*;

verus! {

/// A computation, or its output, tagged with the slot it was enrolled under.
pub struct SeriesWrapper<T> {
    pub data: T,
    pub index: i64,
}

/// What the active set reported when asked for its next completion.
pub enum Drive<V> {
    /// The active set holds no computation.
    Empty,
    /// No computation has completed yet.
    Pending,
    /// A tagged computation completed with this output.
    Ready(SeriesWrapper<V>),
}

/// What a retrieval hands to the consumer, and to the active set.
pub enum Retrieved<T, V> {
    /// The queue is exhausted.
    End,
    /// Nothing is ready yet; the consumer is woken later.
    Pending,
    /// An output is ready; `promoted` is the next computation of the same
    /// series, tagged with its slot, which must be inserted into the active set.
    Ready { value: V, promoted: Option<SeriesWrapper<T>> },
}

/// Number of computations waiting in a list of series tails.
pub open spec fn total_pending<T>(tails: Seq<(i64, Seq<T>)>) -> nat
    decreases tails.len(),
{
    if tails.len() == 0 {
        0
    } else {
        total_pending(tails.drop_last()) + tails.last().1.len()
    }
}

/// The abstract state of a queue.
pub struct SeriesModel<T> {
    /// Slots that currently have a computation in the active set.
    pub active: Set<i64>,
    /// Pending tails by slot, in increasing slot order; each tail in run order.
    pub tails: Seq<(i64, Seq<T>)>,
    /// The index the next enrolment will receive.
    pub next_index: int,
    /// Every enrolled slot with the whole series it was enrolled with.
    pub enrolled: Map<i64, Seq<T>>,
    /// Every enrolled slot with the computations handed to the active set so far.
    pub handed: Map<i64, Seq<T>>,
}

impl<T> SeriesModel<T> {
    /// The number of computations not yet completed.
    pub open spec fn len(self) -> nat {
        self.active.len() + total_pending(self.tails)
    }

    /// Whether slot `k` has computations waiting behind its active one.
    pub open spec fn has_tail(self, k: i64) -> bool {
        exists|i: int| 0 <= i < self.tails.len() && self.tails[i].0 == k
    }

    /// Well-formedness: slots are below the counter, tails are non-empty,
    /// ordered by slot and each belongs to an active slot, and each slot's
    /// handed-out computations followed by its tail are its enrolled series.
    pub open spec fn wf(self) -> bool {
        &&& self.active.finite()
        &&& 0 <= self.next_index <= i64::MAX
        &&& forall|k: i64| #[trigger] self.enrolled.contains_key(k) <==> 0 <= k < self.next_index
        &&& forall|k: i64| #[trigger] self.handed.contains_key(k) <==> 0 <= k < self.next_index
        &&& forall|k: i64| #[trigger] self.active.contains(k) ==> 0 <= k < self.next_index
        &&& forall|i: int, j: int|
            0 <= i < j < self.tails.len() ==> self.tails[i].0 < self.tails[j].0
        &&& forall|i: int|
            0 <= i < self.tails.len() ==> {
                let (k, t) = #[trigger] self.tails[i];
                &&& t.len() > 0
                &&& self.active.contains(k)
                &&& 0 <= k < self.next_index
                &&& self.handed[k] + t == self.enrolled[k]
            }
        &&& forall|k: i64|
            0 <= k < self.next_index && !self.has_tail(k) ==> #[trigger] self.handed[k]
                == self.enrolled[k]
        &&& forall|k: i64|
            #![trigger self.handed[k]]
            0 <= k < self.next_index ==> self.handed[k].len() > 0
    }

    /// Whether nothing is left to run or to retrieve.
    pub open spec fn is_terminated(self) -> bool {
        self.active.is_empty() && self.tails.len() == 0
    }

    /// The state after enrolling one computation under the next free slot.
    pub open spec fn push(self, fut: T) -> Self {
        let n = self.next_index as i64;
        SeriesModel {
            active: self.active.insert(n),
            tails: self.tails,
            next_index: self.next_index + 1,
            enrolled: self.enrolled.insert(n, seq![fut]),
            handed: self.handed.insert(n, seq![fut]),
        }
    }

    /// The state after enrolling a series under the next free slot: its head
    /// goes to the active set and the rest waits as the slot's tail. An empty
    /// series changes nothing.
    pub open spec fn push_series(self, futs: Seq<T>) -> Self {
        if futs.len() == 0 {
            self
        } else {
            let n = self.next_index as i64;
            SeriesModel {
                active: self.active.insert(n),
                tails: if futs.len() == 1 {
                    self.tails
                } else {
                    self.tails.push((n, futs.drop_first()))
                },
                next_index: self.next_index + 1,
                enrolled: self.enrolled.insert(n, futs),
                handed: self.handed.insert(n, seq![futs[0]]),
            }
        }
    }

    /// The state after enrolling each computation of `futs`, in order, as a
    /// slot of its own.
    pub open spec fn extend(self, futs: Seq<T>) -> Self
        decreases futs.len(),
    {
        if futs.len() == 0 {
            self
        } else {
            self.extend(futs.drop_last()).push(futs.last())
        }
    }

    /// The position of slot `k`'s tail, where it has one.
    pub open spec fn tail_pos(self, k: i64) -> int {
        choose|i: int| 0 <= i < self.tails.len() && self.tails[i].0 == k
    }

    /// The computation promoted into the active set when slot `k` completes.
    pub open spec fn promoted(self, k: i64) -> Option<T> {
        if self.has_tail(k) {
            Some(self.tails[self.tail_pos(k)].1[0])
        } else {
            None
        }
    }

    /// The state after the active set reported a completion of slot `k`: the
    /// head of its tail takes its place, or else the slot leaves.
    pub open spec fn complete(self, k: i64) -> Self {
        if self.has_tail(k) {
            let i = self.tail_pos(k);
            let t = self.tails[i].1;
            SeriesModel {
                tails: if t.len() == 1 {
                    self.tails.remove(i)
                } else {
                    self.tails.update(i, (k, t.drop_first()))
                },
                handed: self.handed.insert(k, self.handed[k].push(t[0])),
                ..self
            }
        } else {
            SeriesModel { active: self.active.remove(k), ..self }
        }
    }

    /// What a retrieval yields given what the active set reported.
    pub open spec fn retrieve<V>(self, d: Drive<V>) -> Retrieved<T, V> {
        match d {
            Drive::Empty => Retrieved::End,
            Drive::Pending => Retrieved::Pending,
            Drive::Ready(w) => Retrieved::Ready {
                value: w.data,
                promoted: match self.promoted(w.index) {
                    Some(c) => Some(SeriesWrapper { data: c, index: w.index }),
                    None => None,
                },
            },
        }
    }

    /// Whether a report of the active set agrees with the slots this model
    /// holds there: a completion is of an active slot, and emptiness is real.
    pub open spec fn agrees<V>(self, d: Drive<V>) -> bool {
        match d {
            Drive::Empty => self.active.is_empty(),
            Drive::Pending => !self.active.is_empty(),
            Drive::Ready(w) => self.active.contains(w.index),
        }
    }

    /// The state after a retrieval given what the active set reported.
    pub open spec fn after<V>(self, d: Drive<V>) -> Self {
        match d {
            Drive::Ready(w) => self.complete(w.index),
            _ => self,
        }
    }

    /// The empty queue.
    pub open spec fn empty() -> Self {
        SeriesModel {
            active: Set::empty(),
            tails: Seq::empty(),
            next_index: 0,
            enrolled: Map::empty(),
            handed: Map::empty(),
        }
    }
}

pub(crate) proof fn lemma_total_push<T>(tails: Seq<(i64, Seq<T>)>, e: (i64, Seq<T>))
    ensures
        total_pending(tails.push(e)) == total_pending(tails) + e.1.len(),
{
    assert(tails.push(e).drop_last() =~= tails);
}

pub(crate) proof fn lemma_total_update<T>(tails: Seq<(i64, Seq<T>)>, i: int, e: (i64, Seq<T>))
    requires
        0 <= i < tails.len(),
    ensures
        total_pending(tails.update(i, e)) == total_pending(tails) - tails[i].1.len() + e.1.len(),
    decreases tails.len(),
{
    let u = tails.update(i, e);
    if i == tails.len() - 1 {
        assert(u.drop_last() =~= tails.drop_last());
    } else {
        lemma_total_update(tails.drop_last(), i, e);
        assert(u.drop_last() =~= tails.drop_last().update(i, e));
    }
}

pub(crate) proof fn lemma_total_remove<T>(tails: Seq<(i64, Seq<T>)>, i: int)
    requires
        0 <= i < tails.len(),
    ensures
        total_pending(tails.remove(i)) == total_pending(tails) - tails[i].1.len(),
    decreases tails.len(),
{
    let u = tails.remove(i);
    if i == tails.len() - 1 {
        assert(u =~= tails.drop_last());
    } else {
        lemma_total_remove(tails.drop_last(), i);
        assert(u.drop_last() =~= tails.drop_last().remove(i));
    }
}

/// A completion keeps the model well formed, and removes exactly one
/// computation from the count of those not yet completed when the slot was
/// active.
pub(crate) proof fn lemma_complete_wf<T>(m: SeriesModel<T>, k: i64)
    requires
        m.wf(),
    ensures
        m.complete(k).wf(),
        m.has_tail(k) ==> total_pending(m.complete(k).tails) == total_pending(m.tails) - 1,
        m.has_tail(k) ==> m.complete(k).active == m.active,
        m.complete(k).len() <= m.len(),
        m.complete(k).next_index == m.next_index,
{
    let c = m.complete(k);
    if m.has_tail(k) {
        let i = m.tail_pos(k);
        let t = m.tails[i].1;
        assert(m.tails[i].0 == k);
        assert(c.handed.contains_key(k));
        assert(m.handed[k].push(t[0]) + t.drop_first() =~= m.handed[k] + t);
        if t.len() == 1 {
            lemma_total_remove(m.tails, i);
            assert(m.handed[k].push(t[0]) =~= m.handed[k] + t);
            assert forall|j: int| 0 <= j < c.tails.len() implies (#[trigger] c.tails[j]).0 != k by {
                if j < i {
                    assert(c.tails[j] == m.tails[j]);
                } else {
                    assert(c.tails[j] == m.tails[j + 1]);
                }
            }
            assert forall|k2: i64| k2 != k && m.has_tail(k2) implies c.has_tail(k2) by {
                let j = choose|j: int| 0 <= j < m.tails.len() && m.tails[j].0 == k2;
                if j < i {
                    assert(c.tails[j] == m.tails[j]);
                } else {
                    assert(c.tails[j - 1] == m.tails[j]);
                }
            }
        } else {
            lemma_total_update(m.tails, i, (k, t.drop_first()));
            assert(c.tails[i].0 == k);
            assert forall|k2: i64| k2 != k && m.has_tail(k2) implies c.has_tail(k2) by {
                let j = choose|j: int| 0 <= j < m.tails.len() && m.tails[j].0 == k2;
                assert(c.tails[j] == m.tails[j]);
            }
        }
        assert forall|j: int| 0 <= j < c.tails.len() implies {
            let (k2, t2) = #[trigger] c.tails[j];
            &&& t2.len() > 0
            &&& c.active.contains(k2)
            &&& 0 <= k2 < c.next_index
            &&& c.handed[k2] + t2 == c.enrolled[k2]
        } by {
            if t.len() == 1 {
                if j < i {
                    assert(c.tails[j] == m.tails[j]);
                } else {
                    assert(c.tails[j] == m.tails[j + 1]);
                }
            } else if j != i {
                assert(c.tails[j] == m.tails[j]);
            }
        }
        assert forall|a: int, b: int| 0 <= a < b < c.tails.len() implies c.tails[a].0
            < c.tails[b].0 by {
            if t.len() == 1 {
                let a2 = if a < i { a } else { a + 1 };
                let b2 = if b < i { b } else { b + 1 };
                assert(c.tails[a] == m.tails[a2]);
                assert(c.tails[b] == m.tails[b2]);
            } else {
                assert(c.tails[a].0 == m.tails[a].0);
                assert(c.tails[b].0 == m.tails[b].0);
            }
        }
        assert forall|k2: i64| 0 <= k2 < c.next_index && !c.has_tail(k2) implies #[trigger] c.handed[k2]
            == c.enrolled[k2] by {
            if k2 != k {
                assert(!m.has_tail(k2));
            } else if t.len() > 1 {
                assert(c.tails[i].0 == k);
            }
        }
    } else {
        assert(c.tails == m.tails);
        assert(c.handed == m.handed);
        assert(c.enrolled == m.enrolled);
        assert forall|j: int| 0 <= j < c.tails.len() implies c.active.contains(
            (#[trigger] c.tails[j]).0,
        ) by {
            assert(m.tails[j].0 != k);
        }
        assert forall|k2: i64| 0 <= k2 < c.next_index && !c.has_tail(k2) implies #[trigger] c.handed[k2]
            == c.enrolled[k2] by {
            if m.has_tail(k2) {
                let j = choose|j: int| 0 <= j < m.tails.len() && m.tails[j].0 == k2;
                assert(c.tails[j].0 == k2);
            }
        }
    }
}

/// Nothing is pending in the tails exactly when there are none.
pub(crate) proof fn lemma_total_zero<T>(m: SeriesModel<T>)
    requires
        m.wf(),
    ensures
        total_pending(m.tails) == 0 <==> m.tails.len() == 0,
        m.len() == 0 <==> m.is_terminated(),
{
    if m.tails.len() > 0 {
        assert(m.tails[m.tails.len() - 1] == m.tails.last());
    }
    if m.active.len() == 0 {
        m.active.lemma_len0_is_empty();
    }
}

pub(crate) proof fn lemma_reverse_drop_last<T>(s: Seq<T>)
    requires
        s.len() > 0,
    ensures
        s.drop_last().reverse() =~= s.reverse().drop_first(),
        s.reverse()[0] == s.last(),
{
}

pub(crate) proof fn lemma_reverse_drop_first<T>(s: Seq<T>)
    requires
        s.len() > 0,
    ensures
        s.reverse().drop_last() =~= s.drop_first().reverse(),
        s.reverse().last() == s[0],
{
}

pub(crate) proof fn lemma_reverse_twice<T>(s: Seq<T>)
    ensures
        s.reverse().reverse() =~= s,
        s.reverse().len() == s.len(),
{
}

} // verus!
