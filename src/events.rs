use vstd::prelude::*;

use crate::state::same_text;

verus! {

/// One decoded hook event: the last record of a log file.
pub struct EventRecord {
    /// State tag written by the hook (`working`, `idle`, `asking`, ...).
    pub state: String,
    /// Working directory the hook observed; informational only.
    pub cwd: String,
    /// Pane the hook ran in; empty on records that predate pane tracking.
    pub pane_id: String,
    /// Time of the event.
    pub ts: u64,
}

/// The winning record of one pane.
pub struct PaneEvent {
    pub pane_id: String,
    pub state: String,
    pub ts: u64,
}

/// The reduced map from pane identifier to the state tag of its newest record.
pub struct LatestEvents {
    entries: Vec<PaneEvent>,
}

/// Whether some record of `recs` carries the non-empty pane identifier `k`.
pub open spec fn has_pane(recs: Seq<EventRecord>, k: Seq<char>) -> bool {
    k.len() > 0 && exists|i: int| 0 <= i < recs.len() && recs[i].pane_id@ == k
}

/// Record `j` wins for its pane: it has the greatest timestamp of the pane's
/// records, and no later record of the pane has the same timestamp.
pub open spec fn is_winner(recs: Seq<EventRecord>, j: int) -> bool {
    &&& 0 <= j < recs.len()
    &&& recs[j].pane_id@.len() > 0
    &&& forall|i: int|
        0 <= i < recs.len() && #[trigger] recs[i].pane_id@ == recs[j].pane_id@ ==> {
            &&& recs[i].ts <= recs[j].ts
            &&& j < i ==> recs[i].ts < recs[j].ts
        }
}

/// The winning record of pane `k`.
pub open spec fn winner_of(recs: Seq<EventRecord>, k: Seq<char>) -> int {
    choose|j: int| is_winner(recs, j) && recs[j].pane_id@ == k
}

/// What reducing `recs` yields: each pane that occurs, with its winner's state tag.
pub open spec fn latest_map(recs: Seq<EventRecord>) -> Map<Seq<char>, Seq<char>> {
    Map::new(|k: Seq<char>| has_pane(recs, k), |k: Seq<char>| recs[winner_of(recs, k)].state@)
}

/// A pane has at most one winner.
pub proof fn lemma_winner_unique(recs: Seq<EventRecord>, i: int, j: int)
    requires
        is_winner(recs, i),
        is_winner(recs, j),
        recs[i].pane_id@ == recs[j].pane_id@,
    ensures
        i == j,
{
    assert(recs[i].ts <= recs[j].ts);
    assert(recs[j].ts <= recs[i].ts);
}

/// Pane identifiers of `entries` are non-empty and distinct.
pub open spec fn distinct_panes(entries: Seq<PaneEvent>) -> bool {
    &&& forall|x: int| 0 <= x < entries.len() ==> #[trigger] entries[x].pane_id@.len() > 0
    &&& forall|x: int, y: int|
        0 <= x < entries.len() && 0 <= y < entries.len() && x != y ==> #[trigger] entries[x].pane_id@
            != #[trigger] entries[y].pane_id@
}

impl LatestEvents {
    /// Pane identifiers are non-empty and distinct.
    #[verifier::type_invariant]
    pub closed spec fn wf(&self) -> bool {
        distinct_panes(self.entries@)
    }

}

impl LatestEvents {
    /// The state tag of the newest record for `pane_id`.
    pub fn get(&self, pane_id: &str) -> (r: Option<String>)
        ensures
            match r {
                Some(s) => self@.contains_key(pane_id@) && self@[pane_id@] == s@,
                None => !self@.contains_key(pane_id@),
            },
    {
        proof {
            use_type_invariant(self);
        }
        let mut x: usize = 0;
        while x < self.entries.len()
            invariant
                self.wf(),
                x <= self.entries@.len(),
                forall|y: int| 0 <= y < x ==> self.entries@[y].pane_id@ != pane_id@,
            decreases self.entries@.len() - x,
        {
            if same_text(self.entries[x].pane_id.as_str(), pane_id) {
                proof {
                    let c = choose|y: int|
                        0 <= y < self.entries@.len() && self.entries@[y].pane_id@ == pane_id@;
                    assert(self.entries@[x as int].pane_id@ == pane_id@);
                    assert(self.entries@[c].pane_id@ == self.entries@[x as int].pane_id@);
                    assert(c == x);
                }
                return Some(self.entries[x].state.clone());
            }
            x = x + 1;
        }
        None
    }

    /// Number of panes in the map.
    pub fn len(&self) -> (r: usize)
        ensures
            r == self@.len(),
    {
        proof {
            use_type_invariant(self);
            let ks = self.entries@.map_values(|e: PaneEvent| e.pane_id@);
            assert(ks.no_duplicates());
            ks.unique_seq_to_set();
            assert forall|k: Seq<char>| #[trigger] self@.dom().contains(k) == ks.to_set().contains(k) by {
                if self@.dom().contains(k) {
                    let x = choose|x: int|
                        0 <= x < self.entries@.len() && self.entries@[x].pane_id@ == k;
                    assert(ks[x] == k);
                }
                if ks.to_set().contains(k) {
                    let x = choose|x: int| 0 <= x < ks.len() && ks[x] == k;
                    assert(self.entries@[x].pane_id@ == k);
                }
            }
            assert(self@.dom() =~= ks.to_set());
        }
        self.entries.len()
    }

    /// Whether the map holds no pane.
    pub fn is_empty(&self) -> (r: bool)
        ensures
            r == (self@ == Map::<Seq<char>, Seq<char>>::empty()),
    {
        if self.entries.len() == 0 {
            assert(self@ =~= Map::<Seq<char>, Seq<char>>::empty());
            true
        } else {
            assert(self@.contains_key(self.entries@[0].pane_id@));
            false
        }
    }
}

impl View for LatestEvents {
    type V = Map<Seq<char>, Seq<char>>;

    /// Map from pane identifier to state tag.
    closed spec fn view(&self) -> Map<Seq<char>, Seq<char>> {
        Map::new(
            |k: Seq<char>| exists|x: int| 0 <= x < self.entries@.len() && self.entries@[x].pane_id@ == k,
            |k: Seq<char>|
                self.entries@[choose|x: int|
                    0 <= x < self.entries@.len() && self.entries@[x].pane_id@ == k].state@,
        )
    }
}

/// Whether purging `pane_id` removes a log whose last record is `last`
/// (`None`: the log has no decodable last record).
pub open spec fn purges(last: Option<EventRecord>, pane_id: Seq<char>) -> bool {
    match last {
        Some(e) => e.pane_id@.len() > 0 && e.pane_id@ == pane_id,
        None => false,
    }
}

/// The logs that purging `pane_id` leaves in place.
pub open spec fn remaining(lasts: Seq<Option<EventRecord>>, pane_id: Seq<char>) -> Seq<Option<EventRecord>> {
    lasts.filter(|l: Option<EventRecord>| !purges(l, pane_id))
}

/// For logs whose last records are `lasts`, which ones purging `pane_id` removes.
pub fn purge_targets(lasts: &Vec<Option<EventRecord>>, pane_id: &str) -> (r: Vec<bool>)
    ensures
        r@.len() == lasts@.len(),
        forall|i: int| 0 <= i < lasts@.len() ==> r@[i] == purges(#[trigger] lasts@[i], pane_id@),
{
    let mut r: Vec<bool> = Vec::new();
    let mut i: usize = 0;
    while i < lasts.len()
        invariant
            i <= lasts@.len(),
            r@.len() == i,
            forall|j: int| 0 <= j < i ==> r@[j] == purges(#[trigger] lasts@[j], pane_id@),
        decreases lasts@.len() - i,
    {
        let hit = match &lasts[i] {
            Some(e) => !e.pane_id.as_str().is_empty() && same_text(e.pane_id.as_str(), pane_id),
            None => false,
        };
        r.push(hit);
        i = i + 1;
    }
    r
}

/// Adding a record of another pane leaves a winner a winner, and a non-winner not one.
proof fn lemma_winner_other_pane(p: Seq<EventRecord>, r: EventRecord, j: int)
    requires
        0 <= j < p.len(),
        p[j].pane_id@ != r.pane_id@,
    ensures
        is_winner(p.push(r), j) == is_winner(p, j),
{
    let q = p.push(r);
    assert(q[j] == p[j]);
    if is_winner(p, j) {
        assert forall|i: int|
            0 <= i < q.len() && #[trigger] q[i].pane_id@ == q[j].pane_id@ implies {
            &&& q[i].ts <= q[j].ts
            &&& j < i ==> q[i].ts < q[j].ts
        } by {
            if i < p.len() {
                assert(q[i] == p[i]);
                assert(p[i].pane_id@ == p[j].pane_id@);
            }
        }
    }
    if is_winner(q, j) {
        assert forall|i: int|
            0 <= i < p.len() && #[trigger] p[i].pane_id@ == p[j].pane_id@ implies {
            &&& p[i].ts <= p[j].ts
            &&& j < i ==> p[i].ts < p[j].ts
        } by {
            assert(q[i] == p[i]);
            assert(q[i].pane_id@ == q[j].pane_id@);
        }
    }
}

/// Every pane that occurs has a winner.
pub proof fn lemma_winner_exists(recs: Seq<EventRecord>, k: Seq<char>)
    requires
        has_pane(recs, k),
    ensures
        exists|j: int| is_winner(recs, j) && recs[j].pane_id@ == k,
    decreases recs.len(),
{
    let n = recs.len() - 1;
    let p = recs.drop_last();
    let r = recs.last();
    assert(recs =~= p.push(r));
    let w = choose|i: int| 0 <= i < recs.len() && recs[i].pane_id@ == k;
    if r.pane_id@ != k {
        assert(p[w] == recs[w]);
        assert(has_pane(p, k));
        lemma_winner_exists(p, k);
        let j = choose|j: int| is_winner(p, j) && p[j].pane_id@ == k;
        lemma_winner_other_pane(p, r, j);
    } else if has_pane(p, k) {
        lemma_winner_exists(p, k);
        let j = choose|j: int| is_winner(p, j) && p[j].pane_id@ == k;
        if r.ts >= p[j].ts {
            assert forall|i: int| 0 <= i < recs.len() && #[trigger] recs[i].pane_id@ == recs[n].pane_id@ implies {
                &&& recs[i].ts <= recs[n].ts
                &&& n < i ==> recs[i].ts < recs[n].ts
            } by {
                if i < n {
                    assert(p[i] == recs[i]);
                }
            }
            assert(is_winner(recs, n));
        } else {
            assert forall|i: int| 0 <= i < recs.len() && #[trigger] recs[i].pane_id@ == recs[j].pane_id@ implies {
                &&& recs[i].ts <= recs[j].ts
                &&& j < i ==> recs[i].ts < recs[j].ts
            } by {
                if i < n {
                    assert(p[i] == recs[i]);
                    assert(p[i].pane_id@ == p[j].pane_id@);
                }
            }
            assert(is_winner(recs, j));
        }
    } else {
        assert forall|i: int| 0 <= i < recs.len() && #[trigger] recs[i].pane_id@ == recs[n].pane_id@ implies {
            &&& recs[i].ts <= recs[n].ts
            &&& n < i ==> recs[i].ts < recs[n].ts
        } by {
            if i < n {
                assert(p[i] == recs[i]);
                assert(has_pane(p, k));
            }
        }
        assert(is_winner(recs, n));
    }
}

/// With no records there are no panes.
pub proof fn lemma_no_records_no_panes()
    ensures
        latest_map(Seq::<EventRecord>::empty()) == Map::<Seq<char>, Seq<char>>::empty(),
{
    assert(latest_map(Seq::<EventRecord>::empty()) =~= Map::<Seq<char>, Seq<char>>::empty());
}

/// Of two records of one pane, the one with the later timestamp decides the
/// pane's state, whichever of the two comes first.
pub proof fn lemma_newer_record_wins(recs: Seq<EventRecord>, i: int, j: int)
    requires
        0 <= i < recs.len(),
        0 <= j < recs.len(),
        recs[i].pane_id@ == recs[j].pane_id@,
        recs[j].pane_id@.len() > 0,
        recs[i].ts < recs[j].ts,
        forall|k: int| 0 <= k < recs.len() && recs[k].pane_id@ == recs[j].pane_id@ ==> k == i || k == j,
    ensures
        latest_map(recs).contains_key(recs[j].pane_id@),
        latest_map(recs)[recs[j].pane_id@] == recs[j].state@,
{
    let k = recs[j].pane_id@;
    assert(has_pane(recs, k));
    assert(is_winner(recs, j));
    lemma_winner_exists(recs, k);
    lemma_winner_unique(recs, winner_of(recs, k), j);
}

/// A record without a pane identifier is no key of the reduced map, and
/// adding one anywhere among the records changes nothing.
pub proof fn lemma_empty_pane_inert(recs: Seq<EventRecord>, pos: int, r: EventRecord)
    requires
        0 <= pos <= recs.len(),
        r.pane_id@.len() == 0,
    ensures
        !latest_map(recs).contains_key(Seq::<char>::empty()),
        latest_map(recs.insert(pos, r)) == latest_map(recs),
{
    let q = recs.insert(pos, r);
    let m = latest_map(recs);
    let mq = latest_map(q);
    // position of recs[j] in q
    let f = |j: int| if j < pos { j } else { j + 1 };
    assert forall|j: int| 0 <= j < recs.len() implies q[f(j)] == recs[j] by {}
    assert forall|i: int| 0 <= i < q.len() && i != pos implies (if i < pos { recs[i] } else { recs[i - 1] }) == q[i] by {}
    assert forall|j: int| 0 <= j < recs.len() && is_winner(recs, j) implies is_winner(q, f(j)) by {
        assert forall|i: int| 0 <= i < q.len() && #[trigger] q[i].pane_id@ == q[f(j)].pane_id@ implies {
            &&& q[i].ts <= q[f(j)].ts
            &&& f(j) < i ==> q[i].ts < q[f(j)].ts
        } by {
            if i != pos {
                let i2 = if i < pos { i } else { i - 1 };
                assert(q[i] == recs[i2]);
                assert(recs[i2].pane_id@ == recs[j].pane_id@);
            }
        }
    }
    assert forall|k: Seq<char>| #[trigger] mq.contains_key(k) == m.contains_key(k) by {
        if has_pane(q, k) {
            let i = choose|i: int| 0 <= i < q.len() && q[i].pane_id@ == k;
            let i2 = if i < pos { i } else { i - 1 };
            assert(recs[i2] == q[i]);
        }
        if has_pane(recs, k) {
            let i = choose|i: int| 0 <= i < recs.len() && recs[i].pane_id@ == k;
            assert(q[f(i)] == recs[i]);
        }
    }
    assert forall|k: Seq<char>| m.contains_key(k) implies #[trigger] mq[k] == m[k] by {
        lemma_winner_exists(recs, k);
        let j = winner_of(recs, k);
        assert(is_winner(q, f(j)));
        lemma_winner_exists(q, k);
        lemma_winner_unique(q, winner_of(q, k), f(j));
    }
    assert(mq =~= m);
}

/// Purging is idempotent: no log left by a purge of `pane_id` would be
/// removed by a second one, so the second purge leaves every log in place.
pub proof fn lemma_purge_idempotent(lasts: Seq<Option<EventRecord>>, pane_id: Seq<char>)
    ensures
        forall|i: int| 0 <= i < remaining(lasts, pane_id).len() ==> !purges(#[trigger] remaining(lasts, pane_id)[i], pane_id),
        remaining(remaining(lasts, pane_id), pane_id) == remaining(lasts, pane_id),
{
    let pred = |l: Option<EventRecord>| !purges(l, pane_id);
    let once = lasts.filter(pred);
    assert forall|i: int| 0 <= i < once.len() implies !purges(#[trigger] once[i], pane_id) by {
        lasts.lemma_filter_pred(pred, i);
    }
    lemma_filter_keeps_all(once, pred);
}

proof fn lemma_filter_keeps_all(s: Seq<Option<EventRecord>>, pred: spec_fn(Option<EventRecord>) -> bool)
    requires
        forall|i: int| 0 <= i < s.len() ==> pred(#[trigger] s[i]),
    ensures
        s.filter(pred) == s,
    decreases s.len(),
{
    reveal(Seq::filter);
    if s.len() > 0 {
        let p = s.drop_last();
        assert forall|i: int| 0 <= i < p.len() implies pred(#[trigger] p[i]) by {
            assert(p[i] == s[i]);
        }
        lemma_filter_keeps_all(p, pred);
        assert(s.filter(pred) =~= p.push(s.last()));
        assert(p.push(s.last()) =~= s);
    }
}

/// Index of the entry for pane `k`, if there is one.
fn find_pane(entries: &Vec<PaneEvent>, k: &String) -> (r: Option<usize>)
    ensures
        match r {
            Some(x) => x < entries@.len() && entries@[x as int].pane_id@ == k@,
            None => forall|y: int| 0 <= y < entries@.len() ==> entries@[y].pane_id@ != k@,
        },
{
    let mut x: usize = 0;
    while x < entries.len()
        invariant
            x <= entries@.len(),
            forall|y: int| 0 <= y < x ==> entries@[y].pane_id@ != k@,
        decreases entries@.len() - x,
    {
        if entries[x].pane_id == *k {
            return Some(x);
        }
        x = x + 1;
    }
    None
}

/// Reduces event records to one per pane: the one with the greatest
/// timestamp, the later one on equal timestamps. Records without a pane
/// identifier take no part.
pub fn latest_by_pane(recs: &Vec<EventRecord>) -> (r: LatestEvents)
    ensures
        r@ == latest_map(recs@),
{
    let mut entries: Vec<PaneEvent> = Vec::new();
    let ghost mut win: Seq<int> = Seq::empty();
    let ghost mut slot: int = 0;
    let mut n: usize = 0;
    while n < recs.len()
        invariant
            n <= recs@.len(),
            distinct_panes(entries@),
            win.len() == entries@.len(),
            forall|x: int|
                0 <= x < entries@.len() ==> {
                    &&& is_winner(recs@.take(n as int), #[trigger] win[x])
                    &&& recs@[win[x]].pane_id@ == entries@[x].pane_id@
                    &&& recs@[win[x]].state@ == entries@[x].state@
                    &&& recs@[win[x]].ts == entries@[x].ts
                },
            forall|k: Seq<char>|
                #[trigger] has_pane(recs@.take(n as int), k) ==> exists|x: int|
                    0 <= x < entries@.len() && entries@[x].pane_id@ == k,
        decreases recs@.len() - n,
    {
        let rec = &recs[n];
        let ghost p = recs@.take(n as int);
        let ghost q = recs@.take(n + 1);
        let ghost before = entries@;
        proof {
            assert(q =~= p.push(*rec));
        }
        if !rec.pane_id.as_str().is_empty() {
            match find_pane(&entries, &rec.pane_id) {
                None => {
                    proof {
                        assert forall|x: int| 0 <= x < entries@.len() implies is_winner(
                            q,
                            #[trigger] win[x],
                        ) by {
                            lemma_winner_other_pane(p, *rec, win[x]);
                        }
                        assert forall|i: int|
                            0 <= i < q.len() && #[trigger] q[i].pane_id@ == q[n as int].pane_id@ implies {
                            &&& q[i].ts <= q[n as int].ts
                            &&& n < i ==> q[i].ts < q[n as int].ts
                        } by {
                            if i < n {
                                assert(has_pane(p, rec.pane_id@));
                            }
                        }
                        assert(is_winner(q, n as int));
                    }
                    entries.push(
                        PaneEvent { pane_id: rec.pane_id.clone(), state: rec.state.clone(), ts: rec.ts },
                    );
                    proof {
                        win = win.push(n as int);
                        slot = entries@.len() - 1;
                    }
                },
                Some(x) => {
                    if rec.ts >= entries[x].ts {
                        proof {
                            assert forall|y: int| 0 <= y < entries@.len() && y != x implies is_winner(
                                q,
                                #[trigger] win[y],
                            ) by {
                                assert(entries@[y].pane_id@ != entries@[x as int].pane_id@);
                                lemma_winner_other_pane(p, *rec, win[y]);
                            }
                            assert forall|i: int|
                                0 <= i < q.len() && #[trigger] q[i].pane_id@ == q[n as int].pane_id@ implies {
                                &&& q[i].ts <= q[n as int].ts
                                &&& n < i ==> q[i].ts < q[n as int].ts
                            } by {
                                if i < n {
                                    assert(p[i].pane_id@ == p[win[x as int]].pane_id@);
                                }
                            }
                            assert(is_winner(q, n as int));
                        }
                        entries[x] = PaneEvent {
                            pane_id: rec.pane_id.clone(),
                            state: rec.state.clone(),
                            ts: rec.ts,
                        };
                        proof {
                            win = win.update(x as int, n as int);
                            slot = x as int;
                        }
                    } else {
                        proof {
                            assert forall|y: int| 0 <= y < entries@.len() && y != x implies is_winner(
                                q,
                                #[trigger] win[y],
                            ) by {
                                assert(entries@[y].pane_id@ != entries@[x as int].pane_id@);
                                lemma_winner_other_pane(p, *rec, win[y]);
                            }
                            let w = win[x as int];
                            assert forall|i: int|
                                0 <= i < q.len() && #[trigger] q[i].pane_id@ == q[w].pane_id@ implies {
                                &&& q[i].ts <= q[w].ts
                                &&& w < i ==> q[i].ts < q[w].ts
                            } by {
                                if i < n {
                                    assert(p[i].pane_id@ == p[w].pane_id@);
                                }
                            }
                            assert(is_winner(q, w));
                            slot = x as int;
                        }
                    }
                },
            }
        } else {
            proof {
                assert forall|x: int| 0 <= x < entries@.len() implies is_winner(
                    q,
                    #[trigger] win[x],
                ) by {
                    lemma_winner_other_pane(p, *rec, win[x]);
                }
            }
        }
        proof {
            assert(before.len() <= entries@.len());
            assert(forall|y: int| 0 <= y < before.len() ==> entries@[y].pane_id@ == before[y].pane_id@);
            assert(rec.pane_id@.len() != 0 ==> 0 <= slot < entries@.len() && entries@[slot].pane_id@ == rec.pane_id@);
            assert forall|k: Seq<char>| #[trigger] has_pane(q, k) implies exists|x: int|
                0 <= x < entries@.len() && entries@[x].pane_id@ == k by {
                let i = choose|i: int| 0 <= i < q.len() && q[i].pane_id@ == k;
                if i < n {
                    assert(p[i] == q[i]);
                    assert(has_pane(p, k));
                    let x = choose|x: int| 0 <= x < before.len() && before[x].pane_id@ == k;
                    assert(entries@[x].pane_id@ == k);
                } else {
                    assert(entries@[slot].pane_id@ == k);
                }
            }
        }
        n = n + 1;
    }
    let r = LatestEvents { entries };
    proof {
        let recs = recs@;
        assert(recs.take(n as int) =~= recs);
        assert forall|k: Seq<char>| #[trigger] r@.contains_key(k) == latest_map(recs).contains_key(k) by {
            if r@.contains_key(k) {
                let x = choose|x: int| 0 <= x < r.entries@.len() && r.entries@[x].pane_id@ == k;
                assert(recs[win[x]].pane_id@ == k);
            }
        }
        assert forall|k: Seq<char>| r@.contains_key(k) implies #[trigger] r@[k] == latest_map(recs)[k] by {
            let x = choose|x: int| 0 <= x < r.entries@.len() && r.entries@[x].pane_id@ == k;
            assert(is_winner(recs, win[x]));
            let j = winner_of(recs, k);
            lemma_winner_unique(recs, j, win[x]);
        }
        assert(r@ =~= latest_map(recs));
    }
    r
}

} // verus!
