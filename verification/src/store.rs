//! The frequency store: one ascending history of observation instants per token.

use rand::rngs::StdRng;
use vstd::prelude::*;
use crate::chance::draw_between;
use crate::text::{lowercase_of, text_of, texts, to_lowercase};
use crate::sorted_vec::{
    SortedVec, above, count_le, insert_sorted, is_sorted, lemma_boundary_splits,
    lemma_count_is_boundary, lemma_filter_drops_all, lemma_insert_sorted,
    lemma_remove_le_idempotent,
};

verus! {

/// The mathematical content of a store: its entries in the order in which
/// their tokens were first recorded, each a token with its history.
pub type StoreModel = Seq<(Seq<char>, Seq<i64>)>;

/// Some entry of `m` belongs to `token`.
pub open spec fn has_token(m: StoreModel, token: Seq<char>) -> bool {
    exists|i: int| 0 <= i < m.len() && (#[trigger] m[i]).0 == token
}

/// The place of `token`'s entry in `m`, where it has one.
pub open spec fn slot_of(m: StoreModel, token: Seq<char>) -> int {
    choose|i: int| 0 <= i < m.len() && (#[trigger] m[i]).0 == token
}

/// The history kept for `token`: empty where it has no entry.
pub open spec fn history_of(m: StoreModel, token: Seq<char>) -> Seq<i64> {
    if has_token(m, token) {
        m[slot_of(m, token)].1
    } else {
        Seq::empty()
    }
}

/// No token has two entries, and every history is sorted.
pub open spec fn valid_model(m: StoreModel) -> bool {
    &&& forall|i: int, j: int| 0 <= i < j < m.len() ==> (#[trigger] m[i]).0 != (#[trigger] m[j]).0
    &&& forall|i: int| 0 <= i < m.len() ==> is_sorted((#[trigger] m[i]).1)
}

/// No entry has an empty history.
pub open spec fn is_compact(m: StoreModel) -> bool {
    forall|i: int| 0 <= i < m.len() ==> (#[trigger] m[i]).1.len() > 0
}

/// The content after `token` was observed at `time`: a new last entry holding
/// only `time` where the token had none, else its history with `time` inserted.
pub open spec fn record_model(m: StoreModel, token: Seq<char>, time: i64) -> StoreModel {
    if has_token(m, token) {
        let i = slot_of(m, token);
        m.update(i, (token, insert_sorted(m[i].1, time)))
    } else {
        m.push((token, seq![time]))
    }
}

/// The content after `tokens` were observed at `time`, from left to right.
pub open spec fn record_tokens_model(m: StoreModel, tokens: Seq<Seq<char>>, time: i64) -> StoreModel
    decreases tokens.len(),
{
    if tokens.len() == 0 {
        m
    } else {
        record_model(record_tokens_model(m, tokens.drop_last(), time), tokens.last(), time)
    }
}

/// Recording keeps a valid content valid.
pub proof fn lemma_record_valid(m: StoreModel, token: Seq<char>, time: i64)
    requires
        valid_model(m),
    ensures
        valid_model(record_model(m, token, time)),
{
    let out = record_model(m, token, time);
    if has_token(m, token) {
        let i = slot_of(m, token);
        lemma_insert_sorted(m[i].1, time);
        assert forall|a: int, b: int| 0 <= a < b < out.len() implies (#[trigger] out[a]).0 != (
        #[trigger] out[b]).0 by {
            assert(out[a].0 == m[a].0 && out[b].0 == m[b].0);
        }
        assert forall|a: int| 0 <= a < out.len() implies is_sorted((#[trigger] out[a]).1) by {
            if a != i {
                assert(out[a] == m[a]);
            }
        }
    } else {
        assert forall|a: int, b: int| 0 <= a < b < out.len() implies (#[trigger] out[a]).0 != (
        #[trigger] out[b]).0 by {
            if b == m.len() {
                assert(m[a].0 != token);
            } else {
                assert(out[a] == m[a] && out[b] == m[b]);
            }
        }
        assert forall|a: int| 0 <= a < out.len() implies is_sorted((#[trigger] out[a]).1) by {
            if a < m.len() {
                assert(out[a] == m[a]);
            }
        }
    }
}

/// The content after every instant up to `cutoff` has left every history.
pub open spec fn evict_model(m: StoreModel, cutoff: i64) -> StoreModel {
    Seq::new(m.len(), |i: int| (m[i].0, m[i].1.filter(above(cutoff))))
}

/// The predicate "has a history that is not empty".
pub open spec fn is_live() -> spec_fn((Seq<char>, Seq<i64>)) -> bool {
    |e: (Seq<char>, Seq<i64>)| e.1.len() > 0
}

/// The content without the entries whose history is empty.
pub open spec fn compact_model(m: StoreModel) -> StoreModel {
    m.filter(is_live())
}

/// Eviction keeps a valid content valid, and leaves no instant at or
/// before the cutoff.
pub proof fn lemma_evict_valid(m: StoreModel, cutoff: i64)
    requires
        valid_model(m),
    ensures
        valid_model(evict_model(m, cutoff)),
        forall|i: int, k: int|
            0 <= i < m.len() && 0 <= k < evict_model(m, cutoff)[i].1.len() ==> (
            #[trigger] evict_model(m, cutoff)[i].1[k]) > cutoff,
{
    let out = evict_model(m, cutoff);
    assert forall|i: int| 0 <= i < out.len() implies is_sorted((#[trigger] out[i]).1) by {
        lemma_count_is_boundary(m[i].1, cutoff);
        lemma_boundary_splits(m[i].1, cutoff, count_le(m[i].1, cutoff) as int);
    }
    assert forall|i: int, j: int| 0 <= i < j < out.len() implies (#[trigger] out[i]).0 != (
    #[trigger] out[j]).0 by {
        assert(m[i].0 != m[j].0);
    }
    assert forall|i: int, k: int| 0 <= i < m.len() && 0 <= k < out[i].1.len() implies (
    #[trigger] out[i].1[k]) > cutoff by {
        lemma_remove_le_idempotent(m[i].1, cutoff);
    }
}

/// Compaction keeps a valid content valid and leaves no empty history. What
/// it keeps are the entries with a history, each as it was.
pub proof fn lemma_compact_valid(m: StoreModel)
    requires
        valid_model(m),
    ensures
        valid_model(compact_model(m)),
        is_compact(compact_model(m)),
        forall|i: int| 0 <= i < compact_model(m).len() ==> m.contains(#[trigger] compact_model(m)[i]),
        forall|i: int| 0 <= i < m.len() && m[i].1.len() > 0 ==> compact_model(m).contains(#[trigger] m[i]),
    decreases m.len(),
{
    reveal(Seq::filter);
    let out = compact_model(m);
    if m.len() > 0 {
        let front = m.drop_last();
        let kept = compact_model(front);
        assert forall|i: int, j: int| 0 <= i < j < front.len() implies (#[trigger] front[i]).0 != (
        #[trigger] front[j]).0 by {
            assert(m[i].0 != m[j].0);
        }
        assert forall|i: int| 0 <= i < front.len() implies is_sorted((#[trigger] front[i]).1) by {
            assert(front[i] == m[i]);
        }
        lemma_compact_valid(front);
        assert forall|i: int| 0 <= i < kept.len() implies m.contains(#[trigger] kept[i]) && kept[i].0
            != m.last().0 by {
            let k = choose|k: int| 0 <= k < front.len() && front[k] == kept[i];
            assert(m[k] == kept[i]);
            assert(m[k].0 != m[m.len() - 1].0);
        }
        assert forall|i: int| 0 <= i < out.len() implies m.contains(#[trigger] out[i]) by {
            if i < kept.len() {
                assert(out[i] == kept[i]);
            } else {
                assert(out[i] == m[m.len() - 1]);
            }
        }
        assert forall|i: int| 0 <= i < m.len() && m[i].1.len() > 0 implies out.contains(
            #[trigger] m[i],
        ) by {
            if i < front.len() {
                assert(front[i] == m[i]);
                let k = choose|k: int| 0 <= k < kept.len() && kept[k] == front[i];
                assert(out[k] == m[i]);
            } else {
                assert(out[out.len() - 1] == m[i]);
            }
        }
        assert forall|i: int, j: int| 0 <= i < j < out.len() implies (#[trigger] out[i]).0 != (
        #[trigger] out[j]).0 by {
            if j < kept.len() {
                assert(out[i] == kept[i] && out[j] == kept[j]);
            } else {
                assert(out[i] == kept[i]);
            }
        }
        assert forall|i: int| 0 <= i < out.len() implies is_sorted((#[trigger] out[i]).1) && out[i].1.len() > 0 by {
            if i < kept.len() {
                assert(out[i] == kept[i]);
            }
        }
    }
}

/// In a valid content a token's entry is the only one that bears it.
pub proof fn lemma_slot_is_unique(m: StoreModel, token: Seq<char>, i: int)
    requires
        valid_model(m),
        0 <= i < m.len(),
        m[i].0 == token,
    ensures
        has_token(m, token),
        slot_of(m, token) == i,
        history_of(m, token) == m[i].1,
{
    let k = slot_of(m, token);
    assert(m[k].0 == token);
    if k < i {
        assert(m[k].0 != m[i].0);
    } else if i < k {
        assert(m[i].0 != m[k].0);
    }
}

/// Recording inserts the instant into the token's history, which for a new
/// token was empty, and leaves every other token's history as it was.
pub proof fn lemma_record_history(m: StoreModel, token: Seq<char>, time: i64, other: Seq<char>)
    requires
        valid_model(m),
    ensures
        history_of(record_model(m, token, time), token) == insert_sorted(history_of(m, token), time),
        other != token ==> history_of(record_model(m, token, time), other) == history_of(m, other),
        other != token ==> has_token(record_model(m, token, time), other) == has_token(m, other),
        has_token(record_model(m, token, time), token),
{
    let out = record_model(m, token, time);
    lemma_record_valid(m, token, time);
    if has_token(m, token) {
        let i = slot_of(m, token);
        lemma_slot_is_unique(out, token, i);
    } else {
        reveal(Seq::filter);
        assert(Seq::<i64>::empty().insert(0, time) =~= seq![time]);
        lemma_slot_is_unique(out, token, m.len() as int);
    }
    if other != token {
        if has_token(m, other) {
            let j = slot_of(m, other);
            assert(out[j] == m[j]);
            lemma_slot_is_unique(out, other, j);
        }
        if has_token(out, other) {
            let j = slot_of(out, other);
            assert(out[j].0 == other);
            assert(j < m.len() && m[j] == out[j]);
            lemma_slot_is_unique(m, other, j);
        }
    }
}

/// After eviction and compaction, a token is left exactly if some instant of
/// its history lies after the cutoff, and its history is then what lies
/// after the cutoff. So no token remains whose whole history was at or
/// before the cutoff.
pub proof fn lemma_evict_then_compact(m: StoreModel, cutoff: i64, token: Seq<char>)
    requires
        valid_model(m),
    ensures
        has_token(compact_model(evict_model(m, cutoff)), token) == (history_of(m, token).filter(
            above(cutoff),
        ).len() > 0),
        history_of(compact_model(evict_model(m, cutoff)), token) == history_of(m, token).filter(
            above(cutoff),
        ),
        (forall|k: int| 0 <= k < history_of(m, token).len() ==> history_of(m, token)[k] <= cutoff)
            ==> !has_token(compact_model(evict_model(m, cutoff)), token),
{
    let aged = evict_model(m, cutoff);
    let out = compact_model(aged);
    lemma_evict_valid(m, cutoff);
    lemma_compact_valid(aged);
    let kept = history_of(m, token).filter(above(cutoff));
    if has_token(m, token) {
        let i = slot_of(m, token);
        lemma_slot_is_unique(aged, token, i);
        assert(aged[i].1 == kept);
        if kept.len() > 0 {
            assert(out.contains(aged[i]));
            let j = choose|j: int| 0 <= j < out.len() && out[j] == aged[i];
            lemma_slot_is_unique(out, token, j);
        }
    } else {
        reveal(Seq::filter);
        assert(kept =~= Seq::<i64>::empty());
    }
    if has_token(out, token) {
        let j = slot_of(out, token);
        assert(out[j].0 == token);
        assert(aged.contains(out[j]));
        let i = choose|i: int| 0 <= i < aged.len() && aged[i] == out[j];
        assert(m[i].0 == token);
        lemma_slot_is_unique(m, token, i);
        lemma_slot_is_unique(aged, token, i);
    }
    if forall|k: int| 0 <= k < history_of(m, token).len() ==> history_of(m, token)[k] <= cutoff {
        assert forall|k: int| 0 <= k < history_of(m, token).len() implies !above(cutoff)(
            history_of(m, token)[k],
        ) by {}
        lemma_filter_drops_all(history_of(m, token), above(cutoff));
    }
}

/// A token first recorded at an instant is gone after eviction up to that
/// very instant and compaction; recorded one unit later, it remains.
pub proof fn lemma_cutoff_is_inclusive(m: StoreModel, token: Seq<char>, time: i64)
    requires
        valid_model(m),
        !has_token(m, token),
    ensures
        !has_token(compact_model(evict_model(record_model(m, token, time), time)), token),
        time < i64::MAX ==> has_token(
            compact_model(evict_model(record_model(m, token, (time + 1) as i64), time)),
            token,
        ),
{
    reveal(Seq::filter);
    assert(Seq::<i64>::empty().insert(0, time) =~= seq![time]);
    lemma_record_valid(m, token, time);
    lemma_record_history(m, token, time, token);
    lemma_evict_then_compact(record_model(m, token, time), time, token);
    if time < i64::MAX {
        let later = (time + 1) as i64;
        assert(Seq::<i64>::empty().insert(0, later) =~= seq![later]);
        lemma_record_valid(m, token, later);
        lemma_record_history(m, token, later, token);
        lemma_evict_then_compact(record_model(m, token, later), time, token);
        assert(above(time)(later));
        assert(seq![later].drop_last() =~= Seq::<i64>::empty());
        assert(seq![later].filter(above(time)) =~= seq![later]);
    }
}

/// The weight of entry `i`: the length of its history plus its boost.
pub open spec fn score(m: StoreModel, boosts: Seq<u64>, i: int) -> int {
    m[i].1.len() + boosts[i]
}

/// Entry `i` has the greatest score, and is the first entry that has it.
pub open spec fn is_leader(m: StoreModel, boosts: Seq<u64>, i: int) -> bool {
    &&& 0 <= i < m.len()
    &&& forall|j: int| 0 <= j < m.len() ==> score(m, boosts, j) <= score(m, boosts, i)
    &&& forall|j: int| 0 <= j < i ==> score(m, boosts, j) < score(m, boosts, i)
}

/// The place of the leading entry.
pub open spec fn leader(m: StoreModel, boosts: Seq<u64>) -> int {
    choose|i: int| is_leader(m, boosts, i)
}

/// The token that selection yields under the given boosts: the leader's,
/// or the default where the store is empty.
pub open spec fn select_model(m: StoreModel, boosts: Seq<u64>, default_token: Option<Seq<char>>) -> Option<Seq<char>> {
    if m.len() == 0 {
        default_token
    } else {
        Some(m[leader(m, boosts)].0)
    }
}

/// At most one entry leads.
pub proof fn lemma_leader_unique(m: StoreModel, boosts: Seq<u64>, i: int, j: int)
    requires
        is_leader(m, boosts, i),
        is_leader(m, boosts, j),
    ensures
        i == j,
{
    if i < j {
        assert(score(m, boosts, i) < score(m, boosts, j));
        assert(score(m, boosts, j) <= score(m, boosts, i));
    } else if j < i {
        assert(score(m, boosts, j) < score(m, boosts, i));
        assert(score(m, boosts, i) <= score(m, boosts, j));
    }
}

/// How many units of the clock make one second: instants are counted in
/// milliseconds.
pub const MILLIS_PER_SECOND: i64 = 1000;

/// The latest instant that is older than `max_age` seconds at `now`, or
/// `None` where that lies before every instant that can be stored.
pub open spec fn cutoff_at(now: i64, max_age: u64) -> Option<i64> {
    if now - max_age * MILLIS_PER_SECOND >= i64::MIN {
        Some((now - max_age * MILLIS_PER_SECOND) as i64)
    } else {
        None
    }
}

/// The content after ageing at `now`: what is `max_age` seconds old or
/// older has left the histories, and the entries left without history are gone.
pub open spec fn expire_model(m: StoreModel, now: i64, max_age: u64) -> StoreModel {
    match cutoff_at(now, max_age) {
        Some(cutoff) => compact_model(evict_model(m, cutoff)),
        None => compact_model(m),
    }
}

/// Where a boost stands for every entry of a store that is not empty, one
/// entry leads: the place that selection goes by is a leader's.
pub proof fn lemma_leader_exists(m: StoreModel, boosts: Seq<u64>)
    requires
        m.len() > 0,
        boosts.len() == m.len(),
    ensures
        is_leader(m, boosts, leader(m, boosts)),
{
    let i = lemma_leader_among(m, boosts, m.len() as int);
    assert(is_leader(m, boosts, i));
}

/// Among the first `n` entries one has the greatest score and is the first
/// to have it.
proof fn lemma_leader_among(m: StoreModel, boosts: Seq<u64>, n: int) -> (i: int)
    requires
        1 <= n <= m.len(),
    ensures
        0 <= i < n,
        forall|j: int| 0 <= j < n ==> score(m, boosts, j) <= score(m, boosts, i),
        forall|j: int| 0 <= j < i ==> score(m, boosts, j) < score(m, boosts, i),
    decreases n,
{
    if n == 1 {
        0
    } else {
        let before = lemma_leader_among(m, boosts, n - 1);
        if score(m, boosts, n - 1) > score(m, boosts, before) {
            n - 1
        } else {
            before
        }
    }
}

struct Entry {
    token: String,
    history: SortedVec,
}

/// A mapping from token to the ascending history of its observations.
/// Entries stand in the order in which their tokens were first recorded.
pub struct FrequencyStore {
    entries: Vec<Entry>,
}

impl View for FrequencyStore {
    type V = StoreModel;

    closed spec fn view(&self) -> StoreModel {
        Seq::new(self.entries@.len(), |i: int| (self.entries@[i].token@, self.entries@[i].history@))
    }
}

impl FrequencyStore {
    /// The store's content is valid: tokens are unique and histories sorted.
    pub open spec fn wf(&self) -> bool {
        valid_model(self@)
    }

    /// A store without entries.
    pub fn new() -> (out: Self)
        ensures
            out.wf(),
            out@ == StoreModel::empty(),
    {
        let out = Self { entries: Vec::new() };
        assert(out@ =~= StoreModel::empty());
        out
    }

    /// The number of entries.
    pub fn len(&self) -> (n: usize)
        ensures
            n == self@.len(),
    {
        self.entries.len()
    }

    /// Whether the store has no entry.
    pub fn is_empty(&self) -> (b: bool)
        ensures
            b == (self@.len() == 0),
    {
        self.entries.len() == 0
    }

    /// The place of `token`'s entry, if it has one.
    fn find(&self, token: &String) -> (found: Option<usize>)
        requires
            self.wf(),
        ensures
            found.is_some() == has_token(self@, token@),
            found matches Some(i) ==> i == slot_of(self@, token@) && i < self@.len(),
    {
        let mut i: usize = 0;
        while i < self.entries.len()
            invariant
                self.wf(),
                i <= self.entries.len(),
                forall|j: int| 0 <= j < i ==> (#[trigger] self@[j]).0 != token@,
            decreases self.entries.len() - i,
        {
            if self.entries[i].token == *token {
                proof {
                    lemma_slot_is_unique(self@, token@, i as int);
                }
                return Some(i);
            }
            i += 1;
        }
        None
    }

    /// Whether `token` has an entry.
    pub fn contains(&self, token: &String) -> (found: bool)
        requires
            self.wf(),
        ensures
            found == has_token(self@, token@),
    {
        self.find(token).is_some()
    }

    /// The instants kept for `token`, in ascending order: none where it has
    /// no entry.
    pub fn history(&self, token: &String) -> (out: Vec<i64>)
        requires
            self.wf(),
        ensures
            out@ == history_of(self@, token@),
    {
        match self.find(token) {
            Some(i) => vstd::slice::slice_to_vec(self.entries[i].history.as_ref()),
            None => Vec::new(),
        }
    }

    /// How many observations are kept for `token`.
    pub fn count(&self, token: &String) -> (n: usize)
        requires
            self.wf(),
        ensures
            n == history_of(self@, token@).len(),
    {
        match self.find(token) {
            Some(i) => self.entries[i].history.len(),
            None => 0,
        }
    }

    /// Notes that `token` was observed at `time`, under its lower-case form:
    /// tokens that differ only in case share one entry.
    pub fn record(&mut self, token: &str, time: i64)
        requires
            old(self).wf(),
        ensures
            final(self).wf(),
            final(self)@ == record_model(old(self)@, lowercase_of(token@), time),
    {
        let normal = to_lowercase(token);
        self.record_token(normal, time);
    }

    /// Notes that `token` was observed at `time`. A token without an entry
    /// gets one, behind all others; nothing is checked or changed in `token`.
    pub fn record_token(&mut self, token: String, time: i64)
        requires
            old(self).wf(),
        ensures
            final(self).wf(),
            final(self)@ == record_model(old(self)@, token@, time),
    {
        proof {
            lemma_record_valid(self@, token@, time);
        }
        match self.find(&token) {
            Some(i) => {
                self.entries[i].history.insert(time);
                assert(self@ =~= record_model(old(self)@, token@, time));
            },
            None => {
                let mut history = SortedVec::new();
                history.insert(time);
                assert(history@ =~= seq![time]);
                self.entries.push(Entry { token, history });
                assert(self@ =~= record_model(old(self)@, token@, time));
            },
        }
    }
    /// Removes from every history the instants that are less than or equal to
    /// `cutoff`. Entries stay, also those whose history becomes empty.
    pub fn evict(&mut self, cutoff: i64)
        requires
            old(self).wf(),
        ensures
            final(self).wf(),
            final(self)@ == evict_model(old(self)@, cutoff),
    {
        let mut i: usize = 0;
        while i < self.entries.len()
            invariant
                i <= self.entries.len(),
                self.entries.len() == old(self).entries.len(),
                forall|j: int| 0 <= j < i ==> #[trigger] self@[j] == evict_model(old(self)@, cutoff)[j],
                forall|j: int| i <= j < self.entries.len() ==> #[trigger] self@[j] == old(self)@[j],
                valid_model(old(self)@),
            decreases self.entries.len() - i,
        {
            let ghost before = self@;
            assert(before[i as int] == old(self)@[i as int]);
            self.entries[i].history.remove_le(&cutoff);
            proof {
                assert(self@[i as int] == evict_model(old(self)@, cutoff)[i as int]);
                assert forall|j: int| 0 <= j < self.entries.len() && j != i implies #[trigger] self@[j]
                    == before[j] by {}
            }
            i += 1;
        }
        proof {
            assert(self@ =~= evict_model(old(self)@, cutoff));
            lemma_evict_valid(old(self)@, cutoff);
        }
    }
    /// Removes every entry whose history is empty. The others stay as they
    /// are, in their order.
    pub fn compact(&mut self)
        requires
            old(self).wf(),
        ensures
            final(self).wf(),
            is_compact(final(self)@),
            final(self)@ == compact_model(old(self)@),
    {
        let ghost start = self@;
        let ghost done: int = 0;
        let mut i: usize = 0;
        proof {
            reveal(Seq::filter);
            assert(start.take(0) =~= StoreModel::empty());
            assert(start.skip(0) =~= start);
            assert(compact_model(start.take(0)) + start.skip(0) =~= self@);
        }
        while i < self.entries.len()
            invariant
                0 <= done <= start.len(),
                i == compact_model(start.take(done)).len(),
                self@ == compact_model(start.take(done)) + start.skip(done),
            decreases start.len() - done,
        {
            proof {
                reveal(Seq::filter);
                assert(start.take(done + 1).drop_last() =~= start.take(done));
                assert(self@[i as int] == start.skip(done)[0]);
                assert(start.take(done + 1).last() == start[done]);
            }
            let ghost before = self@;
            if self.entries[i].history.is_empty() {
                self.entries.remove(i);
                proof {
                    assert(self@ =~= before.remove(i as int));
                    assert(!is_live()(start[done]));
                    assert(compact_model(start.take(done + 1)) == compact_model(start.take(done)));
                    assert(self@ =~= compact_model(start.take(done + 1)) + start.skip(done + 1));
                    done = done + 1;
                }
            } else {
                i += 1;
                proof {
                    assert(is_live()(start[done]));
                    assert(compact_model(start.take(done + 1)) == compact_model(start.take(done)).push(
                        start[done],
                    ));
                    assert(self@ =~= compact_model(start.take(done + 1)) + start.skip(done + 1));
                    done = done + 1;
                }
            }
        }
        proof {
            assert(start.take(done) =~= start);
            assert(self@ =~= compact_model(start));
            lemma_compact_valid(start);
        }
    }
    /// The token with the greatest score, where the score of an entry is the
    /// length of its history plus the boost at its place in `boosts`. Of
    /// several entries with the greatest score, the one recorded first wins.
    /// An empty store yields the default.
    pub fn select_with_boosts(&self, boosts: &Vec<u64>, default_token: &Option<String>) -> (out: Option<String>)
        requires
            boosts@.len() == self@.len(),
        ensures
            text_of(out) == select_model(self@, boosts@, text_of(*default_token)),
    {
        if self.entries.len() == 0 {
            return match default_token {
                Some(t) => Some(t.clone()),
                None => None,
            };
        }
        let mut best: usize = 0;
        let mut best_score: u128 = self.entries[0].history.len() as u128 + boosts[0] as u128;
        let mut i: usize = 1;
        while i < self.entries.len()
            invariant
                boosts@.len() == self@.len(),
                self@.len() == self.entries.len(),
                1 <= i <= self.entries.len(),
                best < i,
                best_score == score(self@, boosts@, best as int),
                forall|j: int| 0 <= j < i ==> score(self@, boosts@, j) <= best_score,
                forall|j: int| 0 <= j < best ==> score(self@, boosts@, j) < best_score,
            decreases self.entries.len() - i,
        {
            let here: u128 = self.entries[i].history.len() as u128 + boosts[i] as u128;
            if here > best_score {
                best = i;
                best_score = here;
            }
            i += 1;
        }
        proof {
            assert(is_leader(self@, boosts@, best as int));
            lemma_leader_unique(self@, boosts@, best as int, leader(self@, boosts@));
        }
        Some(self.entries[best].token.clone())
    }

    /// Selects as `select_with_boosts` does, with a boost drawn afresh for
    /// every entry, each between 0 and `max_boost`.
    pub fn select_weighted_max(&self, rng: &mut StdRng, max_boost: u64, default_token: &Option<String>) -> (out: Option<String>)
        ensures
            exists|boosts: Seq<u64>|
                {
                    &&& boosts.len() == self@.len()
                    &&& forall|i: int| 0 <= i < boosts.len() ==> boosts[i] <= max_boost
                    &&& text_of(out) == #[trigger] select_model(self@, boosts, text_of(*default_token))
                },
            self@.len() == 0 ==> text_of(out) == text_of(*default_token),
            max_boost == 0 ==> text_of(out) == select_model(
                self@,
                Seq::new(self@.len(), |i: int| 0u64),
                text_of(*default_token),
            ),
    {
        let mut boosts: Vec<u64> = Vec::new();
        let mut i: usize = 0;
        while i < self.entries.len()
            invariant
                i <= self.entries.len(),
                boosts@.len() == i,
                forall|j: int| 0 <= j < boosts@.len() ==> boosts@[j] <= max_boost,
            decreases self.entries.len() - i,
        {
            let boost = draw_between(rng, 0, max_boost);
            boosts.push(boost);
            i += 1;
        }
        proof {
            if max_boost == 0 {
                assert(boosts@ =~= Seq::new(self@.len(), |i: int| 0u64));
            }
        }
        self.select_with_boosts(&boosts, default_token)
    }
    /// Notes that each of `tokens` was observed at `time`, from left to
    /// right, each as `record_token` does.
    pub fn record_tokens(&mut self, tokens: Vec<String>, time: i64)
        requires
            old(self).wf(),
        ensures
            final(self).wf(),
            final(self)@ == record_tokens_model(old(self)@, texts(tokens@), time),
    {
        let ghost all = texts(tokens@);
        let mut i: usize = 0;
        proof {
            assert(all.take(0) =~= Seq::<Seq<char>>::empty());
        }
        while i < tokens.len()
            invariant
                i <= tokens.len(),
                all == texts(tokens@),
                self.wf(),
                self@ == record_tokens_model(old(self)@, all.take(i as int), time),
            decreases tokens.len() - i,
        {
            proof {
                assert(all.take(i + 1).drop_last() =~= all.take(i as int));
                assert(all.take(i + 1).last() == tokens@[i as int]@);
            }
            self.record_token(tokens[i].clone(), time);
            i += 1;
        }
        proof {
            assert(all.take(i as int) =~= all);
        }
    }
    /// Ages the store at `now`: evicts up to the cutoff `now - max_age`, with
    /// `max_age` in seconds, and then compacts.
    pub fn expire(&mut self, now: i64, max_age: u64)
        requires
            old(self).wf(),
        ensures
            final(self).wf(),
            is_compact(final(self)@),
            final(self)@ == expire_model(old(self)@, now, max_age),
    {
        let age: i128 = (max_age as i128) * 1000;
        let cutoff: i128 = now as i128 - age;
        if cutoff >= i64::MIN as i128 {
            self.evict(cutoff as i64);
        }
        self.compact();
    }
}

} // verus!
