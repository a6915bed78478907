use vstd::prelude::*;

use crate::model::{
    lemma_complete_wf, lemma_total_zero, total_pending, Drive, Retrieved, SeriesModel,
};

verus! {

/// The length counts every computation not yet completed: the active ones and
/// those waiting in tails. It is zero exactly when the queue is terminated.
pub proof fn len_counts_active_and_pending<T>(m: SeriesModel<T>)
    requires
        m.wf(),
    ensures
        m.len() == m.active.len() + total_pending(m.tails),
        m.len() == 0 <==> m.is_terminated(),
{
    lemma_total_zero(m);
}

/// A terminated queue stays terminated through any retrieval, never promotes
/// a computation, and, given a report that agrees with its empty active set,
/// yields only the end.
pub proof fn terminated_stays_ended<T, V>(m: SeriesModel<T>, d: Drive<V>)
    requires
        m.wf(),
        m.is_terminated(),
    ensures
        m.after(d).is_terminated(),
        m.after(d).wf(),
        !(m.retrieve(d) matches Retrieved::Ready { promoted: Some(_), .. }),
        m.agrees(d) ==> m.retrieve(d) == Retrieved::<T, V>::End && m.after(d) == m,
{
    if let Drive::Ready(w) = d {
        lemma_complete_wf(m, w.index);
        assert(!m.has_tail(w.index));
        assert(m.active.remove(w.index) =~= m.active);
    }
}

/// Every slot with a pending tail has exactly one computation in the active
/// set, and no two tails belong to the same slot.
pub proof fn tail_slot_is_active<T>(m: SeriesModel<T>)
    requires
        m.wf(),
    ensures
        forall|i: int| 0 <= i < m.tails.len() ==> m.active.contains(#[trigger] m.tails[i].0),
        forall|i: int, j: int|
            0 <= i < m.tails.len() && 0 <= j < m.tails.len() && i != j ==> m.tails[i].0
                != m.tails[j].0,
{
    assert forall|i: int, j: int|
        0 <= i < m.tails.len() && 0 <= j < m.tails.len() && i != j implies m.tails[i].0
        != m.tails[j].0 by {
        if i < j {
            assert(m.tails[i].0 < m.tails[j].0);
        } else {
            assert(m.tails[j].0 < m.tails[i].0);
        }
    }
}

/// Slots are handed out in strictly increasing order and never reused: an
/// enrolment takes the next free index, which no earlier enrolment holds, and
/// the one after it takes a larger one. An empty series takes none.
pub proof fn slots_are_fresh_and_increasing<T>(m: SeriesModel<T>, fut: T, futs: Seq<T>)
    requires
        m.wf(),
        m.next_index < i64::MAX,
    ensures
        !m.enrolled.contains_key(m.next_index as i64),
        forall|k: i64| #[trigger] m.enrolled.contains_key(k) ==> k < m.next_index,
        m.push(fut).next_index == m.next_index + 1,
        m.push(fut).enrolled.contains_key(m.next_index as i64),
        futs.len() > 0 ==> m.push_series(futs).next_index == m.next_index + 1,
        futs.len() > 0 ==> m.push_series(futs).enrolled.contains_key(m.next_index as i64),
        futs.len() == 0 ==> m.push_series(futs) == m,
{
}

/// Within a slot, the computations reach the active set exactly in the order
/// of the enrolled series: those handed out so far are a prefix of it, a
/// completion hands out the next one, and a slot leaves the active set only
/// once the whole series has been handed out.
pub proof fn series_runs_in_order<T>(m: SeriesModel<T>, k: i64)
    requires
        m.wf(),
        m.enrolled.contains_key(k),
    ensures
        m.handed[k] == m.enrolled[k].take(m.handed[k].len() as int),
        m.handed[k].len() > 0,
        !m.active.contains(k) ==> m.handed[k] == m.enrolled[k],
        m.has_tail(k) ==> m.promoted(k) == Some(m.enrolled[k][m.handed[k].len() as int]),
        m.complete(k).handed[k] == m.enrolled[k].take(m.complete(k).handed[k].len() as int),
        m.complete(k).handed[k].len() == m.handed[k].len() + if m.has_tail(k) {
            1int
        } else {
            0
        },
{
    if m.has_tail(k) {
        let i = m.tail_pos(k);
        let t = m.tails[i].1;
        assert(m.handed[k] + t == m.enrolled[k]);
        assert(m.handed[k] =~= m.enrolled[k].take(m.handed[k].len() as int));
        assert(m.handed[k].push(t[0]) =~= m.enrolled[k].take(m.handed[k].len() + 1int));
    } else {
        assert(m.handed[k] =~= m.enrolled[k].take(m.handed[k].len() as int));
    }
    if !m.active.contains(k) {
        if m.has_tail(k) {
            let i = m.tail_pos(k);
            assert(m.active.contains(m.tails[i].0));
        }
    }
}

} // verus!
