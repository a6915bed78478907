use futures_series::{Drive, FuturesUnorderedSeries, Retrieved, SeriesWrapper};

/// A simulated computation: the value it produces and how long it takes.
#[derive(Debug, Clone, Copy, PartialEq)]
struct Job {
    value: &'static str,
    millis: u64,
}

fn job(value: &'static str, millis: u64) -> Job {
    Job { value, millis }
}

/// Drives a queue the way a concurrent active set would, on a simulated
/// clock: the active computation that finishes first completes first, and
/// ties go to the one inserted first.
struct Driver {
    queue: FuturesUnorderedSeries<Job>,
    active: Vec<(u64, u64, SeriesWrapper<Job>)>,
    now: u64,
    inserted: u64,
}

impl Driver {
    fn new() -> Self {
        Driver { queue: FuturesUnorderedSeries::new(), active: Vec::new(), now: 0, inserted: 0 }
    }

    fn insert(&mut self, tag: SeriesWrapper<Job>) {
        let finish = self.now + tag.data.millis;
        self.active.push((finish, self.inserted, tag));
        self.inserted += 1;
    }

    fn push(&mut self, j: Job) -> i64 {
        let tag = self.queue.push(j);
        let index = tag.index;
        self.insert(tag);
        index
    }

    fn push_series(&mut self, jobs: Vec<Job>) -> Option<i64> {
        let tag = self.queue.push_series(jobs)?;
        let index = tag.index;
        self.insert(tag);
        Some(index)
    }

    /// One retrieval; returns the value and the slot it came from.
    fn next(&mut self) -> Option<(&'static str, i64)> {
        if self.active.is_empty() {
            match self.queue.poll_next::<&'static str>(Drive::Empty) {
                Retrieved::End => return None,
                _ => panic!("an empty active set must end the stream"),
            }
        }
        let pos = (0..self.active.len())
            .min_by_key(|&i| (self.active[i].0, self.active[i].1))
            .unwrap();
        let (finish, _, tag) = self.active.remove(pos);
        self.now = finish;
        let index = tag.index;
        let done = SeriesWrapper { data: tag.data.value, index };
        match self.queue.poll_next(Drive::Ready(done)) {
            Retrieved::Ready { value, promoted } => {
                if let Some(p) = promoted {
                    assert_eq!(p.index, index);
                    self.insert(p);
                }
                Some((value, index))
            }
            _ => panic!("a completion must yield a value"),
        }
    }

    fn drain(&mut self) -> Vec<&'static str> {
        let mut out = Vec::new();
        while let Some((v, _)) = self.next() {
            out.push(v);
        }
        out
    }
}

#[test]
fn solitary_computations_come_out_in_order() {
    let mut d = Driver::new();
    d.push(job("1", 0));
    d.push(job("2", 0));
    d.push(job("3", 0));
    assert_eq!(d.next().map(|x| x.0), Some("1"));
    assert_eq!(d.next().map(|x| x.0), Some("2"));
    assert_eq!(d.next().map(|x| x.0), Some("3"));
    assert_eq!(d.next(), None);
    assert!(d.queue.is_terminated());
}

#[test]
fn out_of_order_completion_yields_in_completion_order() {
    let mut d = Driver::new();
    d.push(job("a", 50));
    d.push(job("b", 0));
    assert_eq!(d.drain(), vec!["b", "a"]);
}

#[test]
fn series_preserves_internal_order() {
    let mut d = Driver::new();
    d.push_series(vec![job("x1", 30), job("x2", 10), job("x3", 20)]);
    assert_eq!(d.drain(), vec!["x1", "x2", "x3"]);
    assert!(d.now >= 60);
    assert_eq!(d.now, 60);
}

#[test]
fn series_interleaves_with_singletons() {
    let mut d = Driver::new();
    d.push_series(vec![job("a", 20), job("b", 20)]);
    d.push(job("c", 5));
    let out = d.drain();
    assert_eq!(out.len(), 3);
    let pa = out.iter().position(|v| *v == "a").unwrap();
    let pb = out.iter().position(|v| *v == "b").unwrap();
    assert!(pa < pb);
    assert_eq!(out, vec!["c", "a", "b"]);
}

#[test]
fn empty_series_is_a_no_op() {
    let mut q: FuturesUnorderedSeries<Job> = FuturesUnorderedSeries::new();
    assert_eq!(q.push_series(Vec::new()).map(|t| t.index), None);
    assert_eq!(q.len(), 0);
    assert_eq!(q.next_index(), 0);
    let tag = q.push(job("x", 0));
    assert_eq!(tag.index, 0);
    assert_eq!(q.next_index(), 1);
}

#[test]
fn empty_series_after_enrolments_keeps_counter() {
    let mut q: FuturesUnorderedSeries<Job> = FuturesUnorderedSeries::new();
    q.push(job("a", 0));
    q.push(job("b", 0));
    assert!(q.push_series(Vec::new()).is_none());
    assert_eq!(q.next_index(), 2);
    assert_eq!(q.len(), 2);
}

#[test]
fn length_accounting_across_promotion() {
    let mut d = Driver::new();
    d.push_series(vec![job("x", 1), job("y", 1), job("z", 1)]);
    assert_eq!(d.queue.len(), 3);
    assert_eq!(d.next().map(|x| x.0), Some("x"));
    assert_eq!(d.queue.len(), 2);
    assert_eq!(d.next().map(|x| x.0), Some("y"));
    assert_eq!(d.queue.len(), 1);
    assert_eq!(d.next().map(|x| x.0), Some("z"));
    assert_eq!(d.queue.len(), 0);
    assert!(d.queue.is_terminated());
    assert!(d.queue.is_empty());
}

#[test]
fn is_empty_matches_zero_length() {
    let mut q: FuturesUnorderedSeries<Job> = FuturesUnorderedSeries::new();
    assert!(q.is_empty());
    assert_eq!(q.len(), 0);
    let tag = q.push_series(vec![job("a", 0), job("b", 0)]).unwrap();
    assert!(!q.is_empty());
    assert_eq!(q.len(), 2);
    let promoted = q.complete(tag.index).unwrap();
    assert!(!q.is_empty());
    assert_eq!(q.len(), 1);
    assert!(q.complete(promoted.index).is_none());
    assert!(q.is_empty());
    assert_eq!(q.len(), 0);
}

#[test]
fn terminated_queue_only_ends_until_enrolment() {
    let mut q: FuturesUnorderedSeries<Job> = FuturesUnorderedSeries::new();
    assert!(q.is_terminated());
    for _ in 0..3 {
        assert!(matches!(q.poll_next::<u32>(Drive::Empty), Retrieved::End));
        assert!(q.is_terminated());
    }
    let tag = q.push(job("a", 0));
    assert!(!q.is_terminated());
    assert!(matches!(q.poll_next::<u32>(Drive::Pending), Retrieved::Pending));
    assert_eq!(q.len(), 1);
    match q.poll_next(Drive::Ready(SeriesWrapper { data: 7u32, index: tag.index })) {
        Retrieved::Ready { value, promoted } => {
            assert_eq!(value, 7);
            assert!(promoted.is_none());
        }
        _ => panic!("expected a value"),
    }
    assert!(q.is_terminated());
}

#[test]
fn tail_slot_keeps_its_index() {
    let mut q: FuturesUnorderedSeries<Job> = FuturesUnorderedSeries::new();
    q.push(job("solo", 0));
    let head = q.push_series(vec![job("a", 0), job("b", 0), job("c", 0)]).unwrap();
    assert_eq!(head.index, 1);
    assert_eq!(head.data, job("a", 0));
    let second = q.complete(1).unwrap();
    assert_eq!(second.index, 1);
    assert_eq!(second.data, job("b", 0));
    let third = q.complete(1).unwrap();
    assert_eq!(third.index, 1);
    assert_eq!(third.data, job("c", 0));
    assert!(q.complete(1).is_none());
    assert_eq!(q.len(), 1);
}

#[test]
fn slot_indices_strictly_increase() {
    let mut q: FuturesUnorderedSeries<Job> = FuturesUnorderedSeries::new();
    let a = q.push(job("a", 0)).index;
    let b = q.push_series(vec![job("b", 0), job("b2", 0)]).unwrap().index;
    let c = q.push_series(vec![job("c", 0)]).unwrap().index;
    let tags = q.extend(vec![job("d", 0), job("e", 0)]);
    let d = tags[0].index;
    let e = tags[1].index;
    assert_eq!(vec![a, b, c, d, e], vec![0, 1, 2, 3, 4]);
    assert_eq!(tags[1].data, job("e", 0));
    assert_eq!(q.next_index(), 5);
    assert_eq!(q.len(), 6);
}

#[test]
fn series_outputs_follow_enrolment_order_among_others() {
    let mut d = Driver::new();
    d.push(job("s1", 15));
    let slot = d.push_series(vec![job("p1", 10), job("p2", 1), job("p3", 30), job("p4", 2)]).unwrap();
    d.push(job("s2", 12));
    d.push_series(vec![job("q1", 3), job("q2", 3)]);
    let mut from_series = Vec::new();
    let mut all = Vec::new();
    while let Some((v, index)) = d.next() {
        all.push(v);
        if index == slot {
            from_series.push(v);
        }
    }
    assert_eq!(from_series, vec!["p1", "p2", "p3", "p4"]);
    assert_eq!(all.len(), 8);
}

#[test]
fn completion_of_unknown_slot_changes_nothing() {
    let mut q: FuturesUnorderedSeries<Job> = FuturesUnorderedSeries::new();
    q.push_series(vec![job("a", 0), job("b", 0)]);
    assert!(q.complete(42).is_none());
    assert_eq!(q.len(), 2);
    assert!(q.complete(0).is_some());
}

#[test]
fn from_vec_enrols_each_as_its_own_slot() {
    let (q, tags) = FuturesUnorderedSeries::from_vec(vec![job("a", 0), job("b", 0), job("c", 0)]);
    assert_eq!(q.len(), 3);
    assert_eq!(q.next_index(), 3);
    let idx: Vec<i64> = tags.iter().map(|t| t.index).collect();
    assert_eq!(idx, vec![0, 1, 2]);
    assert_eq!(tags[2].data, job("c", 0));
}

#[test]
fn size_hint_is_exact() {
    let mut q: FuturesUnorderedSeries<Job> = FuturesUnorderedSeries::default();
    assert_eq!(q.size_hint(), (0, Some(0)));
    q.push_series(vec![job("a", 0), job("b", 0), job("c", 0)]);
    q.push(job("d", 0));
    assert_eq!(q.size_hint(), (4, Some(4)));
}
