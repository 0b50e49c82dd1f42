use vstd::prelude::*;
use chess_engine::Board;
use crate::board::{hash_gamestate, key_of};
use crate::environment::ChessEnvironment;
use crate::value::{clamp_i64, div_toward_zero};
use crate::codec::{
    NEWLINE, copy_range, entry_text, find_newline, has_no_newline, lemma_line_end_bounds,
    lemma_snapshot_round_trip, push_decimal, push_signed, read_count, read_value, snapshot_parse_from,
    snapshot_text,
};

verus! {

/// What has been learned of one position: how many observations were merged
/// into it, and the running value estimate (fixed point, `value::ONE` is 1.0).
#[derive(Clone, Copy, Debug, PartialEq, Eq, Structural)]
pub struct Recollection {
    pub times_encountered: u64,
    pub average_value: i64,
}

/// The recollection of a position never seen before.
pub open spec fn fresh() -> Recollection {
    Recollection { times_encountered: 0, average_value: 0 }
}

impl Recollection {
    pub fn new() -> (r: Recollection)
        ensures
            r == fresh(),
    {
        Recollection { times_encountered: 0, average_value: 0 }
    }
}

/// The contents of a store: (key, recollection) pairs in insertion order.
pub type Memory = Seq<(Seq<u8>, Recollection)>;

/// The recollection kept for `k`; where a key occurs twice the later entry counts.
pub open spec fn recall(m: Memory, k: Seq<u8>) -> Option<Recollection>
    decreases m.len(),
{
    if m.len() == 0 {
        None
    } else if m.last().0 == k {
        Some(m.last().1)
    } else {
        recall(m.drop_last(), k)
    }
}

/// The index of the entry that `recall` reads, or -1.
pub open spec fn last_index(m: Memory, k: Seq<u8>) -> int
    decreases m.len(),
{
    if m.len() == 0 {
        -1
    } else if m.last().0 == k {
        m.len() - 1
    } else {
        last_index(m.drop_last(), k)
    }
}

/// What a lookup of `k` yields: the stored recollection, or a fresh one.
pub open spec fn lookup_in(m: Memory, k: Seq<u8>) -> Recollection {
    match recall(m, k) {
        Some(r) => r,
        None => fresh(),
    }
}

/// One observation merged into a recollection, or `None` where the rule skips
/// it. The new average is `(prior + observed) / max(prior count, 1)`: it divides
/// by the prior count, so that recent observations weigh more than in a mean.
/// Nothing is written when the prior and the new average are both zero.
/// The count saturates at `u64::MAX`, the average at the bounds of `i64`.
pub open spec fn merge_step(prior: Recollection, observed: int) -> Option<Recollection> {
    let divisor = if prior.times_encountered >= 1 { prior.times_encountered as int } else { 1 };
    let avg = clamp_i64(div_toward_zero(prior.average_value + observed, divisor));
    let times = if prior.times_encountered == u64::MAX {
        u64::MAX as int
    } else {
        prior.times_encountered + 1
    };
    if avg == 0 && prior.average_value == 0 {
        None
    } else {
        Some(Recollection { times_encountered: times as u64, average_value: avg as i64 })
    }
}

/// The memory after merging `observed` into the entry of `k`.
pub open spec fn memorized(m: Memory, k: Seq<u8>, observed: int) -> Memory {
    match merge_step(lookup_in(m, k), observed) {
        None => m,
        Some(r) => {
            let i = last_index(m, k);
            if i >= 0 {
                m.update(i, (k, r))
            } else {
                m.push((k, r))
            }
        },
    }
}

pub proof fn lemma_last_index(m: Memory, k: Seq<u8>)
    ensures
        -1 <= last_index(m, k) < m.len(),
        last_index(m, k) == -1 <==> recall(m, k) is None,
        last_index(m, k) >= 0 ==> m[last_index(m, k)].0 == k && recall(m, k) == Some(
            m[last_index(m, k)].1,
        ),
        forall|j: int| last_index(m, k) < j < m.len() ==> m[j].0 != k,
    decreases m.len(),
{
    if m.len() > 0 && m.last().0 != k {
        lemma_last_index(m.drop_last(), k);
        assert forall|j: int| last_index(m, k) < j < m.len() implies m[j].0 != k by {
            if j < m.len() - 1 {
                assert(m[j] == m.drop_last()[j]);
            }
        }
    }
}

/// Replacing the entry that `recall` reads for `k` changes what is recalled
/// for `k` only.
pub proof fn lemma_recall_update(m: Memory, k: Seq<u8>, r: Recollection, k2: Seq<u8>)
    requires
        last_index(m, k) >= 0,
    ensures
        recall(m.update(last_index(m, k), (k, r)), k2) == if k2 == k {
            Some(r)
        } else {
            recall(m, k2)
        },
    decreases m.len(),
{
    lemma_last_index(m, k);
    let i = last_index(m, k);
    let m2 = m.update(i, (k, r));
    if i == m.len() - 1 {
        assert(m2.drop_last() =~= m.drop_last());
    } else {
        assert(m.last().0 != k);
        assert(m2.drop_last() =~= m.drop_last().update(i, (k, r)));
        lemma_recall_update(m.drop_last(), k, r, k2);
    }
}

pub proof fn lemma_recall_push(m: Memory, e: (Seq<u8>, Recollection), k2: Seq<u8>)
    ensures
        recall(m.push(e), k2) == if k2 == e.0 {
            Some(e.1)
        } else {
            recall(m, k2)
        },
{
    assert(m.push(e).drop_last() =~= m);
}

/// After a merge, the merged key recalls the new recollection and every
/// other key recalls what it did before.
pub proof fn lemma_recall_memorized(m: Memory, k: Seq<u8>, observed: int, k2: Seq<u8>)
    ensures
        recall(memorized(m, k, observed), k2) == match merge_step(lookup_in(m, k), observed) {
            Some(r) => if k2 == k {
                Some(r)
            } else {
                recall(m, k2)
            },
            None => recall(m, k2),
        },
{
    lemma_last_index(m, k);
    match merge_step(lookup_in(m, k), observed) {
        Some(r) => {
            if last_index(m, k) >= 0 {
                lemma_recall_update(m, k, r, k2);
            } else {
                lemma_recall_push(m, (k, r), k2);
            }
        },
        None => {},
    }
}

/// The memory after merging each of `observed`, in order, into the entry of `k`.
pub open spec fn memorized_all(m: Memory, k: Seq<u8>, observed: Seq<int>) -> Memory
    decreases observed.len(),
{
    if observed.len() == 0 {
        m
    } else {
        memorized(memorized_all(m, k, observed.drop_last()), k, observed.last())
    }
}

/// Whether each merge of `observed` into the entry of `k` writes, none of them
/// being skipped by the zero rule.
pub open spec fn every_merge_writes(m: Memory, k: Seq<u8>, observed: Seq<int>) -> bool {
    forall|i: int|
        0 <= i < observed.len() ==> (#[trigger] merge_step(
            lookup_in(memorized_all(m, k, observed.take(i)), k),
            observed[i],
        )) is Some
}

/// A lookup of the merged key after a merge.
pub proof fn lemma_lookup_memorized(m: Memory, k: Seq<u8>, observed: int)
    ensures
        lookup_in(memorized(m, k, observed), k) == match merge_step(lookup_in(m, k), observed) {
            Some(r) => r,
            None => lookup_in(m, k),
        },
{
    lemma_recall_memorized(m, k, observed, k);
}

/// Counting: starting from a key never observed, after N merges none of
/// which the zero rule skips, the key has been encountered exactly N times.
pub proof fn lemma_times_count_merges(m: Memory, k: Seq<u8>, observed: Seq<int>)
    requires
        recall(m, k) is None,
        every_merge_writes(m, k, observed),
        observed.len() < u64::MAX,
    ensures
        lookup_in(memorized_all(m, k, observed), k).times_encountered == observed.len(),
    decreases observed.len(),
{
    if observed.len() > 0 {
        let init = observed.drop_last();
        assert forall|i: int| 0 <= i < init.len() implies (#[trigger] merge_step(
            lookup_in(memorized_all(m, k, init.take(i)), k),
            init[i],
        )) is Some by {
            assert(init.take(i) =~= observed.take(i));
            assert(merge_step(lookup_in(memorized_all(m, k, observed.take(i)), k), observed[i]) is Some);
        }
        lemma_times_count_merges(m, k, init);
        let n = observed.len() - 1;
        assert(observed.take(n) =~= init);
        assert(merge_step(lookup_in(memorized_all(m, k, observed.take(n)), k), observed[n]) is Some);
        lemma_lookup_memorized(memorized_all(m, k, init), k, observed.last());
    }
}

/// Zero rule: merging the value zero into a key never observed leaves the
/// store as it was; no entry is created.
pub proof fn lemma_zero_first_observation_is_not_stored(m: Memory, k: Seq<u8>)
    requires
        recall(m, k) is None,
    ensures
        memorized(m, k, 0) == m,
{
    assert(div_toward_zero(0, 1) == 0);
}

/// Whether two byte strings are equal.
pub fn same_bytes(a: &Vec<u8>, b: &Vec<u8>) -> (r: bool)
    ensures
        r == (a@ == b@),
{
    if a.len() != b.len() {
        return false;
    }
    let mut i: usize = 0;
    while i < a.len()
        invariant
            a@.len() == b@.len(),
            i <= a@.len(),
            forall|j: int| 0 <= j < i ==> a@[j] == b@[j],
        decreases a@.len() - i,
    {
        if a[i] != b[i] {
            return false;
        }
        i = i + 1;
    }
    assert(a@ =~= b@);
    true
}

/// The experience store: running value estimates keyed by position key.
/// The entries live in memory, where every lookup and merge is served; the
/// persisted tier is a snapshot of all of them, which the program keeps at
/// `location`, reads once with `long_term_recall` and writes back at its
/// checkpoints with `long_term_memorize`.
pub struct Experience {
    long_term_memory_directory: String,
    entries: Vec<(Vec<u8>, Recollection)>,
}

impl Experience {
    /// What the store holds.
    pub closed spec fn memory(&self) -> Memory {
        self.entries@.map_values(|e: (Vec<u8>, Recollection)| (e.0@, e.1))
    }

    /// Where the persisted copy of the store lives.
    pub closed spec fn location(&self) -> Seq<char> {
        self.long_term_memory_directory@
    }

    /// Every key fits on one line, as a snapshot needs.
    pub open spec fn wf(&self) -> bool {
        forall|i: int| 0 <= i < self.memory().len() ==> has_no_newline(#[trigger] self.memory()[i].0)
    }

    /// The recollection that a lookup of `k` yields.
    pub open spec fn recollection_of(&self, k: Seq<u8>) -> Recollection {
        lookup_in(self.memory(), k)
    }

    /// An empty store whose persisted copy lives at `filename`.
    pub fn new(filename: &str) -> (r: Experience)
        ensures
            r.memory() == Seq::<(Seq<u8>, Recollection)>::empty(),
            r.location() == filename@,
            r.wf(),
    {
        let r = Experience { long_term_memory_directory: filename.to_owned(), entries: Vec::new() };
        assert(r.memory() =~= Seq::<(Seq<u8>, Recollection)>::empty());
        r
    }

    /// Where the persisted copy of the store lives.
    pub fn long_term_memory_directory(&self) -> (r: &String)
        ensures
            r@ == self.location(),
    {
        &self.long_term_memory_directory
    }

    /// The number of entries.
    pub fn len(&self) -> (r: usize)
        ensures
            r == self.memory().len(),
    {
        self.entries.len()
    }

    /// The index of the entry that a lookup of `key` reads.
    fn find(&self, key: &Vec<u8>) -> (r: Option<usize>)
        ensures
            match r {
                Some(i) => i == last_index(self.memory(), key@),
                None => last_index(self.memory(), key@) == -1,
            },
    {
        let ghost m = self.memory();
        let mut i: usize = self.entries.len();
        assert(m.subrange(0, i as int) =~= m);
        while i > 0
            invariant
                m == self.memory(),
                i <= m.len(),
                m.len() == self.entries@.len(),
                last_index(m, key@) == last_index(m.subrange(0, i as int), key@),
            decreases i,
        {
            let ghost sub = m.subrange(0, i as int);
            assert(sub.drop_last() =~= m.subrange(0, i - 1));
            assert(sub.last() == m[i - 1]);
            if same_bytes(&self.entries[i - 1].0, key) {
                return Some(i - 1);
            }
            i = i - 1;
        }
        assert(m.subrange(0, 0).len() == 0);
        None
    }

    /// The recollection stored for `key`, or a fresh one.
    pub fn lookup(&self, key: &Vec<u8>) -> (r: Recollection)
        ensures
            r == self.recollection_of(key@),
    {
        proof {
            lemma_last_index(self.memory(), key@);
        }
        match self.find(key) {
            Some(i) => self.entries[i].1,
            None => Recollection::new(),
        }
    }

    /// The value estimate stored for a position; zero for one never seen.
    pub fn value_of(&self, state: &Board) -> (r: i64)
        ensures
            r == self.recollection_of(key_of(*state)).average_value,
    {
        let key = hash_gamestate(state);
        self.lookup(&key).average_value
    }

    /// Merges one observed value into the entry of the position of `environment`.
    pub fn memorize(&mut self, environment: &ChessEnvironment, value: i64)
        ensures
            final(self).memory() == memorized(old(self).memory(), key_of(environment.state), value as int),
            final(self).location() == old(self).location(),
            old(self).wf() ==> final(self).wf(),
    {
        let key = hash_gamestate(&environment.state);
        self.merge_observation(&key, value);
    }

    /// Merges one observed value into the entry of `key` (see `merge_step`).
    pub fn merge_observation(&mut self, key: &Vec<u8>, value: i64)
        ensures
            final(self).memory() == memorized(old(self).memory(), key@, value as int),
            final(self).location() == old(self).location(),
            old(self).wf() && has_no_newline(key@) ==> final(self).wf(),
    {
        let ghost m = self.memory();
        proof {
            lemma_last_index(m, key@);
        }
        let found = self.find(key);
        let prior = match found {
            Some(i) => self.entries[i].1,
            None => Recollection::new(),
        };
        let divisor: i128 = if prior.times_encountered >= 1 {
            prior.times_encountered as i128
        } else {
            1
        };
        let sum: i128 = (prior.average_value as i128) + (value as i128);
        let q: i128 = if sum >= 0 {
            ((sum as u128) / (divisor as u128)) as i128
        } else {
            -((((-sum) as u128) / (divisor as u128)) as i128)
        };
        let avg: i64 = if q > i64::MAX as i128 {
            i64::MAX
        } else if q < i64::MIN as i128 {
            i64::MIN
        } else {
            q as i64
        };
        let times: u64 = if prior.times_encountered == u64::MAX {
            u64::MAX
        } else {
            prior.times_encountered + 1
        };
        if avg == 0 && prior.average_value == 0 {
            return;
        }
        let revised = Recollection { times_encountered: times, average_value: avg };
        match found {
            Some(i) => {
                self.entries.set(i, (key.clone(), revised));
            },
            None => {
                self.entries.push((key.clone(), revised));
            },
        }
        assert(self.memory() =~= memorized(m, key@, value as int));
        assert(old(self).wf() && has_no_newline(key@) ==> self.wf()) by {
            if old(self).wf() && has_no_newline(key@) {
                assert forall|j: int| 0 <= j < self.memory().len() implies has_no_newline(
                    #[trigger] self.memory()[j].0,
                ) by {
                    if j < m.len() && self.memory()[j].0 != key@ {
                        assert(self.memory()[j] == m[j]);
                    }
                }
            }
        }
    }

    /// Whether every key fits on one line, as `long_term_memorize` needs.
    pub fn keys_fit_on_lines(&self) -> (r: bool)
        ensures
            r == self.wf(),
    {
        let mut i: usize = 0;
        while i < self.entries.len()
            invariant
                i <= self.entries@.len(),
                self.memory().len() == self.entries@.len(),
                forall|j: int| 0 <= j < i ==> has_no_newline(#[trigger] self.memory()[j].0),
            decreases self.entries@.len() - i,
        {
            let key = &self.entries[i].0;
            let mut k: usize = 0;
            while k < key.len()
                invariant
                    k <= key@.len(),
                    i < self.entries@.len(),
                    self.memory().len() == self.entries@.len(),
                    key@ == self.entries@[i as int].0@,
                    forall|j: int| 0 <= j < k ==> key@[j] != NEWLINE,
                decreases key@.len() - k,
            {
                if key[k] == NEWLINE {
                    assert(self.memory()[i as int].0 == key@);
                    assert(!has_no_newline(self.memory()[i as int].0));
                    return false;
                }
                k = k + 1;
            }
            assert(self.memory()[i as int].0 == key@);
            i = i + 1;
        }
        true
    }

    /// The whole store as text, to be kept at `location`: for each entry, in
    /// order, its key, its count and its average value, each on a line of its own.
    pub fn long_term_memorize(&self) -> (r: Vec<u8>)
        requires
            self.wf(),
        ensures
            r@ == snapshot_text(self.memory()),
    {
        let ghost m = self.memory();
        let mut out: Vec<u8> = Vec::new();
        let mut i: usize = 0;
        assert(m.take(0) =~= Seq::<(Seq<u8>, Recollection)>::empty());
        while i < self.entries.len()
            invariant
                m == self.memory(),
                m.len() == self.entries@.len(),
                i <= m.len(),
                out@ == snapshot_text(m.take(i as int)),
            decreases m.len() - i,
        {
            let e = &self.entries[i];
            let ghost before = out@;
            let mut k: usize = 0;
            while k < e.0.len()
                invariant
                    k <= e.0@.len(),
                    out@ == before + e.0@.subrange(0, k as int),
                decreases e.0@.len() - k,
            {
                out.push(e.0[k]);
                k = k + 1;
                assert(out@ =~= before + e.0@.subrange(0, k as int));
            }
            out.push(NEWLINE);
            push_decimal(e.1.times_encountered, &mut out);
            out.push(NEWLINE);
            push_signed(e.1.average_value, &mut out);
            out.push(NEWLINE);
            assert(m.take(i + 1).drop_last() =~= m.take(i as int));
            assert(m[i as int] == (e.0@, e.1));
            assert(out@ =~= before + entry_text(m[i as int]));
            i = i + 1;
        }
        assert(m.take(i as int) =~= m);
        out
    }

    /// Replaces the contents of the store with those of a snapshot, as
    /// `long_term_memorize` writes it. A snapshot that cannot be read leaves
    /// the store empty.
    pub fn long_term_recall(&mut self, text: &[u8])
        ensures
            final(self).location() == old(self).location(),
            final(self).wf(),
            final(self).memory() == match snapshot_parse_from(text@, 0) {
                Some(m) => m,
                None => Seq::empty(),
            },
    {
        self.entries = Vec::new();
        assert(self.memory() =~= Seq::<(Seq<u8>, Recollection)>::empty());
        let ghost t = text@;
        let mut pos: usize = 0;
        while pos < text.len()
            invariant
                pos <= t.len(),
                t == text@,
                self.wf(),
                self.location() == old(self).location(),
                snapshot_parse_from(t, 0) == match snapshot_parse_from(t, pos as int) {
                    Some(rest) => Some(self.memory() + rest),
                    None => None::<Memory>,
                },
            decreases t.len() - pos,
        {
            let a = find_newline(text, pos);
            proof {
                lemma_line_end_bounds(t, pos as int);
            }
            if a >= text.len() {
                self.clear();
                return;
            }
            let b = find_newline(text, a + 1);
            proof {
                lemma_line_end_bounds(t, a + 1);
            }
            if b >= text.len() {
                self.clear();
                return;
            }
            let c = find_newline(text, b + 1);
            proof {
                lemma_line_end_bounds(t, b + 1);
            }
            if c >= text.len() {
                self.clear();
                return;
            }
            let n = read_count(text, a + 1, b);
            let v = read_value(text, b + 1, c);
            match (n, v) {
                (Some(n), Some(v)) => {
                    let key = copy_range(text, pos, a);
                    let ghost before = self.memory();
                    let rec = Recollection { times_encountered: n, average_value: v };
                    self.entries.push((key, rec));
                    assert(self.memory() =~= before.push((key@, rec)));
                    assert(has_no_newline(key@)) by {
                        assert forall|j: int| 0 <= j < key@.len() implies #[trigger] key@[j] != NEWLINE by {
                            assert(key@[j] == t[pos + j]);
                        }
                    }
                    assert(self.wf()) by {
                        assert forall|j: int| 0 <= j < self.memory().len() implies has_no_newline(
                            #[trigger] self.memory()[j].0,
                        ) by {
                            if j < before.len() {
                                assert(self.memory()[j] == before[j]);
                            }
                        }
                    }
                    proof {
                        match snapshot_parse_from(t, c + 1) {
                            Some(rest) => {
                                assert(before + (seq![(key@, rec)] + rest) =~= self.memory() + rest);
                            },
                            None => {},
                        }
                    }
                    pos = c + 1;
                },
                _ => {
                    self.clear();
                    return;
                },
            }
        }
        assert(self.memory() + Seq::<(Seq<u8>, Recollection)>::empty() =~= self.memory());
    }

    /// Forgets every entry.
    fn clear(&mut self)
        ensures
            final(self).memory() == Seq::<(Seq<u8>, Recollection)>::empty(),
            final(self).location() == old(self).location(),
            final(self).wf(),
    {
        self.entries = Vec::new();
        assert(self.memory() =~= Seq::<(Seq<u8>, Recollection)>::empty());
    }
}

/// Restoring a saved store: every key looks up exactly as it did in the
/// store that was saved.
pub proof fn lemma_restored_store_keeps_lookups(saved: &Experience, restored: &Experience, k: Seq<u8>)
    requires
        saved.wf(),
        restored.memory() == match snapshot_parse_from(snapshot_text(saved.memory()), 0) {
            Some(m) => m,
            None => Seq::empty(),
        },
    ensures
        restored.recollection_of(k) == saved.recollection_of(k),
{
    lemma_snapshot_round_trip(saved.memory());
}

} // verus!
