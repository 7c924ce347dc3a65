//! The in-memory queue index: for each queue name, its retained records in
//! increasing position order.
use vstd::prelude::*;

verus! {

/// One retained record of a queue.
pub struct Entry {
    pub position: u64,
    pub payload: Vec<u8>,
}

impl View for Entry {
    type V = (u64, Seq<u8>);

    open spec fn view(&self) -> (u64, Seq<u8>) {
        (self.position, self.payload@)
    }
}

/// A queue's retained records, as a sequence of `(position, payload)`.
pub type QueueModel = Seq<(u64, Seq<u8>)>;

/// The index as a map from queue name to its retained records.
pub type QueuesModel = Map<Seq<u8>, QueueModel>;

pub open spec fn entries_view(v: Seq<Entry>) -> QueueModel {
    v.map_values(|e: Entry| e@)
}

/// Positions strictly increase along the queue.
pub open spec fn strictly_increasing(q: QueueModel) -> bool {
    forall|i: int, j: int| 0 <= i < j < q.len() ==> #[trigger] q[i].0 < #[trigger] q[j].0
}

/// Every queue is non-empty and ordered: a queue exists while it holds a record.
pub open spec fn queues_wf(m: QueuesModel) -> bool {
    forall|k: Seq<u8>| #[trigger] m.contains_key(k) ==> m[k].len() > 0 && strictly_increasing(m[k])
}

/// The records of `queue`, empty for a queue that is not in the index.
pub open spec fn records_of(m: QueuesModel, queue: Seq<u8>) -> QueueModel {
    if m.contains_key(queue) {
        m[queue]
    } else {
        Seq::empty()
    }
}

/// Index of the first record at or after `position` (the length if none is).
pub open spec fn first_at_or_after(q: QueueModel, position: u64) -> int
    decreases q.len(),
{
    if q.len() == 0 {
        0
    } else if q[0].0 >= position {
        0
    } else {
        1 + first_at_or_after(q.drop_first(), position)
    }
}

/// What `get_after` answers: the first record at or after `position`.
pub open spec fn get_after_spec(m: QueuesModel, queue: Seq<u8>, position: u64) -> Option<(u64, Seq<u8>)> {
    let q = records_of(m, queue);
    let i = first_at_or_after(q, position);
    if i < q.len() {
        Some(q[i])
    } else {
        None
    }
}

/// The records of `q` at or after `position`.
pub open spec fn drop_below(q: QueueModel, position: u64) -> QueueModel {
    q.filter(|e: (u64, Seq<u8>)| e.0 >= position)
}

/// The index after appending `(position, payload)` to `queue`.
pub open spec fn add_spec(m: QueuesModel, queue: Seq<u8>, position: u64, payload: Seq<u8>) -> QueuesModel {
    m.insert(queue, records_of(m, queue).push((position, payload)))
}

/// The index after dropping the records of `queue` below `position`; a queue
/// left without records leaves the index.
pub open spec fn truncate_spec(m: QueuesModel, queue: Seq<u8>, position: u64) -> QueuesModel {
    if !m.contains_key(queue) {
        m
    } else if drop_below(m[queue], position).len() == 0 {
        m.remove(queue)
    } else {
        m.insert(queue, drop_below(m[queue], position))
    }
}

/// The lowest retained position over all queues, if any queue holds a record.
pub open spec fn min_retained(m: QueuesModel) -> Option<u64> {
    if exists|p: u64| is_min_retained(m, p) {
        Some(choose|p: u64| is_min_retained(m, p))
    } else {
        None
    }
}

/// `p` is the first position of some queue, and no queue starts below it.
pub open spec fn is_min_retained(m: QueuesModel, p: u64) -> bool {
    &&& exists|k: Seq<u8>| #[trigger] m.contains_key(k) && m[k][0].0 == p
    &&& forall|k: Seq<u8>| #[trigger] m.contains_key(k) ==> p <= m[k][0].0
}


/// Every record that `drop_below` keeps was a record of the queue, at or
/// after `position`.
pub proof fn lemma_drop_below_within(q: QueueModel, position: u64, lo: int, hi: int)
    requires
        forall|i: int| 0 <= i < q.len() ==> lo <= #[trigger] q[i].0 <= hi,
    ensures
        forall|i: int| 0 <= i < drop_below(q, position).len() ==>
            position <= #[trigger] drop_below(q, position)[i].0 <= hi
            && lo <= drop_below(q, position)[i].0,
    decreases q.len(),
{
    reveal(Seq::filter);
    if q.len() > 0 {
        let init = q.drop_last();
        assert forall|i: int| 0 <= i < init.len() implies lo <= #[trigger] init[i].0 <= hi by {
            assert(init[i] == q[i]);
        }
        lemma_drop_below_within(init, position, lo, hi);
        assert(q.last() == q[q.len() - 1]);
        let d = drop_below(q, position);
        let di = drop_below(init, position);
        if q.last().0 >= position {
            assert(d == di.push(q.last()));
        } else {
            assert(d == di);
        }
        assert forall|i: int| 0 <= i < d.len() implies position <= #[trigger] d[i].0 <= hi && lo <= d[i].0 by {
            if i < di.len() {
                assert(d[i] == di[i]);
            }
        }
    }
}

/// A finite index with a queue has a lowest retained position.
pub proof fn lemma_min_retained_exists(m: QueuesModel, k: Seq<u8>)
    requires
        queues_wf(m),
        m.dom().finite(),
        m.contains_key(k),
    ensures
        min_retained(m) is Some,
    decreases m.dom().len(),
{
    let rest = m.remove(k);
    assert(rest.dom() =~= m.dom().remove(k));
    let a = m[k][0].0;
    if exists|k2: Seq<u8>| #[trigger] rest.contains_key(k2) {
        let k2 = choose|k2: Seq<u8>| #[trigger] rest.contains_key(k2);
        assert(queues_wf(rest));
        lemma_min_retained_exists(rest, k2);
        let b = choose|b: u64| is_min_retained(rest, b);
        let p = if a < b { a } else { b };
        let kb = choose|kb: Seq<u8>| #[trigger] rest.contains_key(kb) && rest[kb][0].0 == b;
        assert forall|kk: Seq<u8>| #[trigger] m.contains_key(kk) implies p <= m[kk][0].0 by {
            if kk != k {
                assert(rest.contains_key(kk));
            }
        }
        if a < b {
            assert(is_min_retained(m, p));
        } else {
            assert(m.contains_key(kb) && m[kb][0].0 == p);
            assert(is_min_retained(m, p));
        }
    } else {
        assert forall|kk: Seq<u8>| #[trigger] m.contains_key(kk) implies a <= m[kk][0].0 by {
            if kk != k {
                assert(rest.contains_key(kk));
            }
        }
        assert(is_min_retained(m, a));
    }
}

/// After a truncation of `queue` at `threshold`, asking for a record of that
/// queue at or after any `position` below the threshold answers as asking at
/// the threshold: the records below it can no longer be reached.
pub proof fn lemma_truncated_unreachable(m: QueuesModel, queue: Seq<u8>, threshold: u64, position: u64)
    requires
        queues_wf(m),
        position <= threshold,
    ensures
        get_after_spec(truncate_spec(m, queue, threshold), queue, position)
            == get_after_spec(truncate_spec(m, queue, threshold), queue, threshold),
{
    let n = truncate_spec(m, queue, threshold);
    if n.contains_key(queue) {
        let q = m[queue];
        assert forall|i: int| 0 <= i < q.len() implies 0 <= #[trigger] q[i].0 <= u64::MAX by {}
        lemma_drop_below_within(q, threshold, 0, u64::MAX as int);
        let d = n[queue];
        assert(d == drop_below(q, threshold));
        assert(d.len() > 0);
        assert(d[0].0 >= threshold);
        assert(first_at_or_after(d, position) == 0);
        assert(first_at_or_after(d, threshold) == 0);
    }
}

/// At most one position is the lowest retained one.
pub proof fn lemma_min_retained_unique(m: QueuesModel, p: u64)
    requires
        is_min_retained(m, p),
    ensures
        min_retained(m) == Some(p),
{
    let k = choose|k: Seq<u8>| #[trigger] m.contains_key(k) && m[k][0].0 == p;
    let c = choose|c: u64| is_min_retained(m, c);
    let kc = choose|kc: Seq<u8>| #[trigger] m.contains_key(kc) && m[kc][0].0 == c;
    assert(c <= m[k][0].0);
    assert(p <= m[kc][0].0);
}

/// On an ordered queue, `first_at_or_after` is the boundary between the
/// records below `position` and the rest.
proof fn lemma_first_at_or_after(q: QueueModel, position: u64, i: int)
    requires
        strictly_increasing(q),
        0 <= i <= q.len(),
        forall|j: int| 0 <= j < i ==> #[trigger] q[j].0 < position,
        i < q.len() ==> q[i].0 >= position,
    ensures
        first_at_or_after(q, position) == i,
    decreases q.len(),
{
    if q.len() > 0 && i > 0 {
        assert(q[0].0 < position);
        let r = q.drop_first();
        assert forall|a: int, b: int| 0 <= a < b < r.len() implies #[trigger] r[a].0 < #[trigger] r[b].0 by {
            assert(q[a + 1].0 < q[b + 1].0);
        }
        assert forall|j: int| 0 <= j < i - 1 implies #[trigger] r[j].0 < position by {
            assert(q[j + 1].0 < position);
        }
        lemma_first_at_or_after(r, position, i - 1);
    }
}

/// On an ordered queue, dropping the records below `position` keeps a suffix.
proof fn lemma_drop_below_suffix(q: QueueModel, position: u64, i: int)
    requires
        strictly_increasing(q),
        0 <= i <= q.len(),
        forall|j: int| 0 <= j < i ==> #[trigger] q[j].0 < position,
        forall|j: int| i <= j < q.len() ==> #[trigger] q[j].0 >= position,
    ensures
        drop_below(q, position) == q.subrange(i, q.len() as int),
    decreases q.len(),
{
    reveal(Seq::filter);
    if q.len() > 0 {
        let init = q.drop_last();
        assert forall|a: int, b: int| 0 <= a < b < init.len() implies #[trigger] init[a].0 < #[trigger] init[b].0 by {
            assert(q[a].0 < q[b].0);
        }
        if i == q.len() {
            lemma_drop_below_suffix(init, position, i - 1);
            assert(q[i - 1].0 < position);
        } else {
            lemma_drop_below_suffix(init, position, i);
            assert(q.last().0 >= position);
        }
        assert(drop_below(q, position) =~= q.subrange(i, q.len() as int));
    } else {
        assert(drop_below(q, position) =~= q.subrange(i, q.len() as int));
    }
}

/// The byte sequences are equal.
pub fn bytes_equal(a: &[u8], b: &[u8]) -> (r: bool)
    ensures
        r == (a@ == b@),
{
    if a.len() != b.len() {
        return false;
    }
    let mut i: usize = 0;
    while i < a.len()
        invariant
            a@.len() == b@.len(),
            0 <= i <= a@.len(),
            a@.subrange(0, i as int) == b@.subrange(0, i as int),
        decreases a@.len() - i,
    {
        if a[i] != b[i] {
            assert(a@[i as int] != b@[i as int]);
            return false;
        }
        assert(a@.subrange(0, i + 1) =~= a@.subrange(0, i as int).push(a@[i as int]));
        assert(b@.subrange(0, i + 1) =~= b@.subrange(0, i as int).push(b@[i as int]));
        i = i + 1;
    }
    assert(a@ =~= a@.subrange(0, a@.len() as int));
    assert(b@ =~= b@.subrange(0, b@.len() as int));
    true
}

/// One named queue of the index.
pub struct MemQueue {
    pub name: Vec<u8>,
    pub entries: Vec<Entry>,
}

/// The in-memory index of all queues. A queue is present while it holds at
/// least one record; truncating it to nothing removes it.
pub struct MemQueues {
    queues: Vec<MemQueue>,
    model: Ghost<QueuesModel>,
}

impl View for MemQueues {
    type V = QueuesModel;

    closed spec fn view(&self) -> QueuesModel {
        self.model@
    }
}

impl MemQueues {
    /// The stored queues stand for the model, one per name.
    pub closed spec fn wf(&self) -> bool {
        &&& queues_wf(self.model@)
        &&& self.model@.dom().finite()
        &&& forall|i: int| 0 <= i < self.queues@.len() ==> {
            &&& self.model@.contains_key(#[trigger] self.queues@[i].name@)
            &&& self.model@[self.queues@[i].name@] == entries_view(self.queues@[i].entries@)
        }
        &&& forall|i: int, j: int| 0 <= i < j < self.queues@.len() ==>
            #[trigger] self.queues@[i].name@ != #[trigger] self.queues@[j].name@
        &&& forall|k: Seq<u8>| #[trigger] self.model@.contains_key(k) ==>
            exists|i: int| 0 <= i < self.queues@.len() && self.queues@[i].name@ == k
    }

    /// A well-formed index has ordered, non-empty queues.
    pub proof fn lemma_wf_queues(&self)
        requires
            self.wf(),
        ensures
            queues_wf(self@),
            self@.dom().finite(),
    {
    }

    /// An index with no queue.
    pub fn new() -> (r: MemQueues)
        ensures
            r.wf(),
            r@ == QueuesModel::empty(),
    {
        MemQueues { queues: Vec::new(), model: Ghost(Map::empty()) }
    }

    /// Where `queue` is stored, if it is present.
    fn find(&self, queue: &[u8]) -> (r: Option<usize>)
        requires
            self.wf(),
        ensures
            r is None <==> !self@.contains_key(queue@),
            r matches Some(i) ==> i < self.queues@.len() && self.queues@[i as int].name@ == queue@,
    {
        let mut i: usize = 0;
        while i < self.queues.len()
            invariant
                self.wf(),
                0 <= i <= self.queues@.len(),
                forall|j: int| 0 <= j < i ==> #[trigger] self.queues@[j].name@ != queue@,
            decreases self.queues@.len() - i,
        {
            if bytes_equal(self.queues[i].name.as_slice(), queue) {
                return Some(i);
            }
            i = i + 1;
        }
        None
    }

    /// Whether `queue` holds at least one record.
    pub fn contains_queue(&self, queue: &[u8]) -> (r: bool)
        requires
            self.wf(),
        ensures
            r == self@.contains_key(queue@),
    {
        self.find(queue).is_some()
    }

    /// The number of queues that hold records.
    pub fn num_queues(&self) -> (r: usize)
        requires
            self.wf(),
        ensures
            r == self@.dom().len(),
    {
        proof { self.lemma_len_is_dom_len(); }
        self.queues.len()
    }

    proof fn lemma_len_is_dom_len(&self)
        requires
            self.wf(),
        ensures
            self.queues@.len() == self@.dom().len(),
    {
        let names = self.queues@.map_values(|q: MemQueue| q.name@);
        assert forall|i: int, j: int| 0 <= i < j < names.len() implies names[i] != names[j] by {
            assert(self.queues@[i].name@ != self.queues@[j].name@);
        }
        names.unique_seq_to_set();
        assert(names.to_set() =~= self@.dom()) by {
            assert forall|k: Seq<u8>| self@.contains_key(k) implies names.to_set().contains(k) by {
                let i = choose|i: int| 0 <= i < self.queues@.len() && self.queues@[i].name@ == k;
                assert(names[i] == k);
            }
            assert forall|k: Seq<u8>| names.to_set().contains(k) implies self@.contains_key(k) by {
                let i = choose|i: int| 0 <= i < names.len() && names[i] == k;
                assert(self.queues@[i].name@ == k);
            }
        }
    }

    /// Appends `(position, payload)` to `queue`, which must not already hold a
    /// record at or after `position`.
    pub fn add_record(&mut self, queue: &[u8], position: u64, payload: &[u8])
        requires
            old(self).wf(),
            old(self)@.contains_key(queue@) ==> old(self)@[queue@].last().0 < position,
        ensures
            final(self).wf(),
            final(self)@ == add_spec(old(self)@, queue@, position, payload@),
    {
        let entry = Entry { position, payload: vstd::slice::slice_to_vec(payload) };
        match self.find(queue) {
            Some(i) => {
                let mut q = self.queues.remove(i);
                let ghost old_entries = entries_view(q.entries@);
                q.entries.push(entry);
                assert(entries_view(q.entries@) =~= old_entries.push((position, payload@)));
                self.queues.push(q);
            },
            None => {
                let mut entries: Vec<Entry> = Vec::new();
                entries.push(entry);
                assert(entries_view(entries@) =~= Seq::<(u64, Seq<u8>)>::empty().push((position, payload@)));
                self.queues.push(MemQueue { name: vstd::slice::slice_to_vec(queue), entries });
            },
        }
        let ghost m = add_spec(old(self)@, queue@, position, payload@);
        self.model = Ghost(m);
        proof {
            let n = self.queues@.len() - 1;
            assert forall|k: Seq<u8>| #[trigger] m.contains_key(k) implies m[k].len() > 0 && strictly_increasing(m[k]) by {
                if k == queue@ {
                    let q = records_of(old(self)@, queue@);
                    assert forall|a: int, b: int| 0 <= a < b < m[k].len() implies #[trigger] m[k][a].0 < #[trigger] m[k][b].0 by {
                        if b < q.len() {
                            assert(q[a].0 < q[b].0);
                        } else if q.len() > 0 {
                            assert(q[a].0 <= q.last().0);
                        }
                    }
                }
            }
            assert forall|k: Seq<u8>| #[trigger] m.contains_key(k) implies
                exists|i: int| 0 <= i < self.queues@.len() && self.queues@[i].name@ == k by {
                if k == queue@ {
                    assert(self.queues@[n].name@ == k);
                } else {
                    let i = choose|i: int| 0 <= i < old(self).queues@.len() && old(self).queues@[i].name@ == k;
                    if old(self)@.contains_key(queue@) {
                        let r = choose|r: int| 0 <= r < old(self).queues@.len() && old(self).queues@[r].name@ == queue@;
                        if i < r {
                            assert(self.queues@[i].name@ == k);
                        } else {
                            assert(i != r);
                            assert(self.queues@[i - 1].name@ == k);
                        }
                    } else {
                        assert(self.queues@[i].name@ == k);
                    }
                }
            }
        }
    }

    /// The first record of `queue` whose position is at least `position`.
    pub fn get_after(&self, queue: &[u8], position: u64) -> (r: Option<(u64, &[u8])>)
        requires
            self.wf(),
        ensures
            r matches Some((p, b)) ==> get_after_spec(self@, queue@, position) == Some((p, b@)),
            r is None <==> get_after_spec(self@, queue@, position) is None,
    {
        match self.find(queue) {
            None => {
                assert(records_of(self@, queue@).len() == 0);
                None
            },
            Some(qi) => {
                let entries = &self.queues[qi].entries;
                let ghost q = entries_view(entries@);
                let mut lo: usize = 0;
                let mut hi: usize = entries.len();
                while lo < hi
                    invariant
                        q == entries_view(entries@),
                        strictly_increasing(q),
                        0 <= lo <= hi <= entries@.len(),
                        forall|j: int| 0 <= j < lo ==> #[trigger] q[j].0 < position,
                        forall|j: int| hi <= j < entries@.len() ==> #[trigger] q[j].0 >= position,
                    decreases hi - lo,
                {
                    let mid = lo + (hi - lo) / 2;
                    if entries[mid].position < position {
                        assert forall|j: int| 0 <= j <= mid implies #[trigger] q[j].0 < position by {
                            if j < mid {
                                assert(q[j].0 < q[mid as int].0);
                            }
                        }
                        lo = mid + 1;
                    } else {
                        hi = mid;
                    }
                }
                proof { lemma_first_at_or_after(q, position, lo as int); }
                if lo < entries.len() {
                    Some((entries[lo].position, entries[lo].payload.as_slice()))
                } else {
                    None
                }
            },
        }
    }

    /// The lowest retained position over all queues, if any queue holds a
    /// record.
    pub fn min_position(&self) -> (r: Option<u64>)
        requires
            self.wf(),
        ensures
            r == min_retained(self@),
    {
        let mut best: Option<u64> = None;
        let mut i: usize = 0;
        while i < self.queues.len()
            invariant
                self.wf(),
                0 <= i <= self.queues@.len(),
                best is None <==> i == 0,
                best matches Some(p) ==> {
                    &&& exists|j: int| 0 <= j < i && #[trigger] self.queues@[j].entries@[0].position == p
                    &&& forall|j: int| 0 <= j < i ==> p <= #[trigger] self.queues@[j].entries@[0].position
                },
            decreases self.queues@.len() - i,
        {
            assert(self@.contains_key(self.queues@[i as int].name@));
            let first = self.queues[i].entries[0].position;
            best = match best {
                Some(p) => if first < p { Some(first) } else { Some(p) },
                None => Some(first),
            };
            i = i + 1;
        }
        proof { self.lemma_len_is_dom_len(); }
        if let Some(p) = best {
            assert(is_min_retained(self@, p)) by {
                let j = choose|j: int| 0 <= j < i && #[trigger] self.queues@[j].entries@[0].position == p;
                assert(self@.contains_key(self.queues@[j].name@));
                assert forall|k: Seq<u8>| #[trigger] self@.contains_key(k) implies p <= self@[k][0].0 by {
                    let jj = choose|jj: int| 0 <= jj < self.queues@.len() && self.queues@[jj].name@ == k;
                    assert(p <= self.queues@[jj].entries@[0].position);
                }
            }
            proof { lemma_min_retained_unique(self@, p); }
        }
        best
    }

    /// Drops every record of `queue` below `position`. Returns the new lowest
    /// retained position over all queues when this changed it and some queue
    /// still holds a record, `None` otherwise.
    pub fn truncate(&mut self, queue: &[u8], position: u64) -> (r: Option<u64>)
        requires
            old(self).wf(),
        ensures
            final(self).wf(),
            final(self)@ == truncate_spec(old(self)@, queue@, position),
            r == (if min_retained(final(self)@) != min_retained(old(self)@) {
                min_retained(final(self)@)
            } else {
                None
            }),
    {
        let before = self.min_position();
        match self.find(queue) {
            None => {},
            Some(qi) => {
                let mut q = self.queues.remove(qi);
                let ghost old_q = entries_view(q.entries@);
                let mut lo: usize = 0;
                let mut hi: usize = q.entries.len();
                while lo < hi
                    invariant
                        old_q == entries_view(q.entries@),
                        strictly_increasing(old_q),
                        0 <= lo <= hi <= q.entries@.len(),
                        forall|j: int| 0 <= j < lo ==> #[trigger] old_q[j].0 < position,
                        forall|j: int| hi <= j < q.entries@.len() ==> #[trigger] old_q[j].0 >= position,
                    decreases hi - lo,
                {
                    let mid = lo + (hi - lo) / 2;
                    if q.entries[mid].position < position {
                        assert forall|j: int| 0 <= j <= mid implies #[trigger] old_q[j].0 < position by {
                            if j < mid {
                                assert(old_q[j].0 < old_q[mid as int].0);
                            }
                        }
                        lo = mid + 1;
                    } else {
                        hi = mid;
                    }
                }
                proof { lemma_drop_below_suffix(old_q, position, lo as int); }
                let kept = q.entries.split_off(lo);
                let ghost kept_q = entries_view(kept@);
                assert(kept_q =~= old_q.subrange(lo as int, old_q.len() as int));
                let ghost m = truncate_spec(old(self)@, queue@, position);
                let ghost r = choose|r: int| 0 <= r < old(self).queues@.len() && old(self).queues@[r].name@ == queue@;
                proof {
                    assert(old(self).queues@[qi as int].name@ == queue@);
                    if r != qi as int {
                        assert(old(self).queues@[r].name@ != old(self).queues@[qi as int].name@);
                    }
                }
                if kept.len() > 0 {
                    self.queues.push(MemQueue { name: q.name, entries: kept });
                }
                self.model = Ghost(m);
                proof {
                    assert forall|k: Seq<u8>| #[trigger] m.contains_key(k) implies m[k].len() > 0 && strictly_increasing(m[k]) by {
                        if k == queue@ {
                            assert forall|a: int, b: int| 0 <= a < b < m[k].len() implies #[trigger] m[k][a].0 < #[trigger] m[k][b].0 by {
                                assert(old_q[a + lo].0 < old_q[b + lo].0);
                            }
                        }
                    }
                    assert forall|k: Seq<u8>| #[trigger] m.contains_key(k) implies
                        exists|i: int| 0 <= i < self.queues@.len() && self.queues@[i].name@ == k by {
                        if k == queue@ {
                            assert(self.queues@[self.queues@.len() - 1].name@ == k);
                        } else {
                            let i = choose|i: int| 0 <= i < old(self).queues@.len() && old(self).queues@[i].name@ == k;
                            if i < qi {
                                assert(self.queues@[i].name@ == k);
                            } else {
                                assert(i != qi);
                                assert(self.queues@[i - 1].name@ == k);
                            }
                        }
                    }
                    assert forall|i: int, j: int| 0 <= i < j < self.queues@.len() implies
                        #[trigger] self.queues@[i].name@ != #[trigger] self.queues@[j].name@ by {
                        let ii = if i < qi { i } else { i + 1 };
                        if j < self.queues@.len() - 1 || kept.len() == 0 {
                            let jj = if j < qi { j } else { j + 1 };
                            assert(old(self).queues@[ii].name@ != old(self).queues@[jj].name@);
                        } else {
                            assert(old(self).queues@[ii].name@ != old(self).queues@[qi as int].name@);
                        }
                    }
                    assert forall|i: int| 0 <= i < self.queues@.len() implies {
                        &&& self.model@.contains_key(#[trigger] self.queues@[i].name@)
                        &&& self.model@[self.queues@[i].name@] == entries_view(self.queues@[i].entries@)
                    } by {
                        if i < self.queues@.len() - 1 || kept.len() == 0 {
                            let ii = if i < qi { i } else { i + 1 };
                            assert(old(self).queues@[ii].name@ != old(self).queues@[qi as int].name@);
                        }
                    }
                }
            },
        }
        let after = self.min_position();
        if after != before {
            after
        } else {
            None
        }
    }
}

} // verus!
