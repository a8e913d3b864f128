//! Playback queue & repeat logic.
//!
//! Values are immutable: every operation returns a *new* `Queue`.
//!
//! With shuffle enabled the queue keeps a permutation (`order`) of the track
//! indices: `index` addresses a *position* inside `order`, and `current()`
//! translates back to the real track index. Next/prev/after_end just walk
//! `order`, so repeat semantics stay identical to the non-shuffled case.

use vstd::prelude::*;

verus! {

/// Repeat behavior after the current track ends or at list boundaries.
#[derive(Debug, Clone, Copy, PartialEq, Eq, Structural)]
pub enum RepeatMode {
    /// Stop when the last track ends.
    Off,
    /// Wrap around to the first track.
    All,
    /// Loop the current track.
    One,
}

/// Immutable snapshot of the playback queue position.
#[derive(Debug, Clone, PartialEq, Eq)]
pub struct Queue {
    pub len: usize,
    /// Position inside `order` (not the track index once shuffled).
    pub index: Option<usize>,
    pub repeat: RepeatMode,
    pub shuffle: bool,
    /// Play order: a permutation of the track indices `0..len`.
    pub order: Vec<usize>,
}

/// Mathematical model of a [`Queue`].
pub struct QueueModel {
    pub len: usize,
    pub index: Option<usize>,
    pub repeat: RepeatMode,
    pub shuffle: bool,
    pub order: Seq<usize>,
}

impl View for Queue {
    type V = QueueModel;

    open spec fn view(&self) -> QueueModel {
        QueueModel {
            len: self.len,
            index: self.index,
            repeat: self.repeat,
            shuffle: self.shuffle,
            order: self.order@,
        }
    }
}

/// `order` lists every index of `0..n` exactly once.
pub open spec fn is_permutation(order: Seq<usize>, n: nat) -> bool {
    &&& order.len() == n
    &&& forall|i: int| 0 <= i < n ==> (#[trigger] order[i]) < n
    &&& forall|i: int, j: int| 0 <= i < j < n ==> #[trigger] order[i] != #[trigger] order[j]
}

/// The identity order `0, 1, …, n-1`.
pub open spec fn identity(n: nat) -> Seq<usize> {
    Seq::new(n, |i: int| i as usize)
}

/// First position of `t` in `s`, or -1.
pub open spec fn index_of(s: Seq<usize>, t: usize) -> int
    decreases s.len(),
{
    if s.len() == 0 {
        -1
    } else if s[0] == t {
        0
    } else {
        let k = index_of(s.drop_first(), t);
        if k < 0 {
            -1
        } else {
            k + 1
        }
    }
}

pub open spec fn seq_swap(v: Seq<usize>, a: int, b: int) -> Seq<usize> {
    v.update(a, v[b]).update(b, v[a])
}

// ---------------------------------------------------------------------
// SplitMix64 and the deterministic Fisher–Yates shuffle
// ---------------------------------------------------------------------

pub open spec fn mix_state(s: u64) -> u64 {
    vstd::wrapping::u64_specs::wrapping_add(s, 0x9E37_79B9_7F4A_7C15u64)
}

pub open spec fn mix_output(z0: u64) -> u64 {
    let z1 = vstd::wrapping::u64_specs::wrapping_mul(z0 ^ (z0 >> 30u64), 0xBF58_476D_1CE4_E5B9u64);
    let z2 = vstd::wrapping::u64_specs::wrapping_mul(z1 ^ (z1 >> 27u64), 0x94D0_49BB_1331_11EBu64);
    z2 ^ (z2 >> 31u64)
}

/// Fisher–Yates from the top: for `i = n-1` down to `1`, swap slot `i`
/// with slot `next % (i + 1)` where `next` is the following SplitMix64
/// output of the generator seeded with `rng`.
pub open spec fn fisher_yates(v: Seq<usize>, rng: u64, i: nat) -> Seq<usize>
    decreases i,
{
    if i <= 1 {
        v
    } else {
        let i2 = (i - 1) as nat;
        let s2 = mix_state(rng);
        let j = (mix_output(s2) as int) % ((i2 + 1) as int);
        fisher_yates(seq_swap(v, i2 as int, j), s2, i2)
    }
}

/// Deterministic shuffle of `0..n` for `seed`.
pub open spec fn shuffled_tracks(seed: u64, n: nat) -> Seq<usize> {
    fisher_yates(identity(n), seed, n)
}

/// Shuffle every slot of `order` except the pinned position `pin`.
pub open spec fn reshuffled_rest(seed: u64, order: Seq<usize>, pin: Option<usize>) -> Seq<usize> {
    match pin {
        None => shuffled_tracks(seed, order.len()),
        Some(p) => {
            let rest = order.remove(p as int);
            fisher_yates(rest, seed, rest.len()).insert(p as int, order[p as int])
        },
    }
}

// ---------------------------------------------------------------------
// The model operations
// ---------------------------------------------------------------------

impl QueueModel {
    pub open spec fn wf(self) -> bool {
        &&& is_permutation(self.order, self.len as nat)
        &&& self.index matches Some(p) ==> p < self.len
    }

    /// Track index currently selected.
    pub open spec fn current(self) -> Option<usize> {
        match self.index {
            Some(p) => Some(self.order[p as int]),
            None => None,
        }
    }

    pub open spec fn start(self, index: usize) -> QueueModel {
        if self.len == 0 {
            self
        } else {
            let track = if index < self.len {
                index
            } else {
                (self.len - 1) as usize
            };
            let k = index_of(self.order, track);
            QueueModel {
                index: Some(
                    if k >= 0 {
                        k as usize
                    } else {
                        track
                    },
                ),
                ..self
            }
        }
    }

    pub open spec fn with_repeat(self, repeat: RepeatMode) -> QueueModel {
        QueueModel { repeat, ..self }
    }

    pub open spec fn user_next(self) -> Option<usize> {
        match self.index {
            None => None,
            Some(pos) => if pos + 1 < self.len {
                Some(self.order[pos + 1])
            } else if self.repeat == RepeatMode::All {
                Some(self.order[0])
            } else {
                None
            },
        }
    }

    pub open spec fn user_prev(self) -> Option<usize> {
        match self.index {
            None => None,
            Some(pos) => if pos == 0 {
                Some(self.order[self.len - 1])
            } else {
                Some(self.order[pos - 1])
            },
        }
    }

    pub open spec fn after_end(self) -> Option<usize> {
        match self.index {
            None => None,
            Some(pos) => if self.repeat == RepeatMode::One {
                Some(self.order[pos as int])
            } else if pos + 1 < self.len {
                Some(self.order[pos + 1])
            } else if self.repeat == RepeatMode::All {
                Some(self.order[0])
            } else {
                None
            },
        }
    }

    pub open spec fn shuffled_order(self, seed: u64) -> Seq<usize> {
        let o = shuffled_tracks(seed, self.len as nat);
        match self.current() {
            Some(t) => {
                let k = index_of(o, t);
                if k >= 0 {
                    seq_swap(o, 0, k)
                } else {
                    o
                }
            },
            None => o,
        }
    }

    pub open spec fn with_shuffle(self, seed: u64) -> QueueModel {
        QueueModel {
            shuffle: true,
            index: match self.current() {
                Some(_) => Some(0),
                None => None,
            },
            order: self.shuffled_order(seed),
            ..self
        }
    }

    pub open spec fn relocated(order: Seq<usize>, track: Option<usize>) -> Option<usize> {
        match track {
            Some(t) => {
                let k = index_of(order, t);
                if k >= 0 {
                    Some(k as usize)
                } else {
                    None
                }
            },
            None => None,
        }
    }

    pub open spec fn reshuffle(self, seed: u64) -> QueueModel {
        if !self.shuffle {
            self.with_shuffle(seed)
        } else {
            let order = reshuffled_rest(seed, self.order, self.index);
            QueueModel { order, index: Self::relocated(order, self.current()), ..self }
        }
    }

    pub open spec fn with_shuffle_off(self) -> QueueModel {
        QueueModel {
            shuffle: false,
            order: identity(self.len as nat),
            index: match self.index {
                Some(pos) => Some(
                    if self.order[pos as int] < self.len - 1 {
                        self.order[pos as int]
                    } else {
                        (self.len - 1) as usize
                    },
                ),
                None => None,
            },
            ..self
        }
    }
}

/// Position that `pos` ends up at when the entry at `from` moves to `to`:
/// the moved entry lands on `to`, the entries between shift by one toward
/// the gap it left, the others stay.
pub open spec fn moved_position(pos: usize, from: usize, to: usize) -> usize {
    if pos == from {
        to
    } else if from < pos && pos <= to {
        (pos - 1) as usize
    } else if to <= pos && pos < from {
        (pos + 1) as usize
    } else {
        pos
    }
}

/// Position in the old order of the entry at position `i` of the order
/// after the entry at `from` moved to `to`.
pub open spec fn moved_source(i: int, from: int, to: int) -> int {
    if i == to {
        from
    } else if from < to && from <= i && i < to {
        i + 1
    } else if to < from && to < i && i <= from {
        i - 1
    } else {
        i
    }
}

impl QueueModel {
    /// Move the entry at position `from` to position `to` (clamped to the
    /// last slot); the position follows the playing track. A `from` outside
    /// the list (or an empty list) leaves the queue as it is.
    pub open spec fn reorder(self, from: usize, to: usize) -> QueueModel {
        if from >= self.len {
            self
        } else {
            let to2 = if to < self.len {
                to
            } else {
                (self.len - 1) as usize
            };
            QueueModel {
                order: self.order.remove(from as int).insert(to2 as int, self.order[from as int]),
                index: match self.index {
                    Some(p) => Some(moved_position(p, from, to2)),
                    None => None,
                },
                ..self
            }
        }
    }
}

// ---------------------------------------------------------------------
// Lemmas
// ---------------------------------------------------------------------

proof fn lemma_index_of(s: Seq<usize>, t: usize)
    ensures
        -1 <= index_of(s, t) < s.len(),
        index_of(s, t) >= 0 ==> s[index_of(s, t)] == t,
        index_of(s, t) >= 0 ==> forall|i: int| 0 <= i < index_of(s, t) ==> s[i] != t,
        index_of(s, t) < 0 ==> forall|i: int| 0 <= i < s.len() ==> s[i] != t,
    decreases s.len(),
{
    if s.len() > 0 && s[0] != t {
        lemma_index_of(s.drop_first(), t);
        assert forall|i: int| 0 < i < s.len() implies s[i] == s.drop_first()[i - 1] by {}
    }
}

/// In a permutation every track `t < n` sits at exactly one position.
proof fn lemma_perm_index_of(order: Seq<usize>, n: nat, t: usize)
    requires
        is_permutation(order, n),
        n <= usize::MAX + 1,
        t < n,
    ensures
        0 <= index_of(order, t) < n,
        order[index_of(order, t)] == t,
        forall|i: int| 0 <= i < n && order[i] == t ==> i == index_of(order, t),
{
    lemma_index_of(order, t);
    if index_of(order, t) < 0 {
        // pigeonhole: n distinct values below n, none equal to t
        lemma_perm_covers(order, n, t);
    }
    let k = index_of(order, t);
    assert forall|i: int| 0 <= i < n && order[i] == t implies i == k by {
        if i < k {
        } else if i > k {
            assert(order[k] != order[i]);
        }
    }
}

/// `n` distinct values below `n` cover every `t < n`.
proof fn lemma_perm_covers(order: Seq<usize>, n: nat, t: usize)
    requires
        is_permutation(order, n),
        n <= usize::MAX + 1,
        t < n,
    ensures
        exists|i: int| 0 <= i < n && order[i] == t,
{
    let s = order.to_set();
    let full = Set::new(|x: usize| x < n);
    assert(s.subset_of(full));
    vstd::set_lib::lemma_int_range(0, n as int);
    assert(full =~= Set::<int>::new(|x: int| 0 <= x < n).map(|x: int| x as usize)) by {
        assert forall|x: usize| full.contains(x) implies Set::<int>::new(|x: int| 0 <= x < n).map(
            |x: int| x as usize,
        ).contains(x) by {
            assert(Set::<int>::new(|x: int| 0 <= x < n).contains(x as int));
        }
    }
    lemma_full_len(n);
    order.unique_seq_to_set();
    if !s.contains(t) {
        vstd::set_lib::lemma_len_subset(s, full.remove(t));
        assert(full.remove(t).len() == full.len() - 1);
    }
}

proof fn lemma_full_len(n: nat)
    requires
        n <= usize::MAX + 1,
    ensures
        Set::new(|x: usize| x < n).finite(),
        Set::new(|x: usize| x < n).len() == n,
    decreases n,
{
    let full = Set::new(|x: usize| x < n);
    if n == 0 {
        assert(full =~= Set::empty());
    } else {
        lemma_full_len((n - 1) as nat);
        let smaller = Set::new(|x: usize| x < (n - 1) as nat);
        assert(full =~= smaller.insert((n - 1) as usize));
    }
}

proof fn lemma_swap_perm(v: Seq<usize>, n: nat, a: int, b: int)
    requires
        is_permutation(v, n),
        0 <= a < n,
        0 <= b < n,
    ensures
        is_permutation(seq_swap(v, a, b), n),
{
    let w = seq_swap(v, a, b);
    assert forall|i: int, j: int| 0 <= i < j < n implies #[trigger] w[i] != #[trigger] w[j] by {
        let src_i = if i == b {
            a
        } else if i == a {
            b
        } else {
            i
        };
        let src_j = if j == b {
            a
        } else if j == a {
            b
        } else {
            j
        };
        assert(w[i] == v[src_i]);
        assert(w[j] == v[src_j]);
        if src_i < src_j {
            assert(v[src_i] != v[src_j]);
        } else {
            assert(v[src_j] != v[src_i]);
        }
    }
    assert forall|i: int| 0 <= i < n implies (#[trigger] w[i]) < n by {
        if i == b {
            assert(w[i] == v[a]);
        } else if i == a {
            assert(w[i] == v[b]);
        }
    }
}

/// Moving one entry: every new position holds the entry of its source
/// position, so the order stays a permutation.
proof fn lemma_moved_order(order: Seq<usize>, n: nat, from: int, to: int)
    requires
        is_permutation(order, n),
        0 <= from < n,
        0 <= to < n,
    ensures
        ({
            let moved = order.remove(from).insert(to, order[from]);
            &&& moved.len() == n
            &&& forall|i: int| 0 <= i < n ==> #[trigger] moved[i] == order[moved_source(i, from, to)]
            &&& is_permutation(moved, n)
        }),
{
    let r = order.remove(from);
    let moved = r.insert(to, order[from]);
    assert(r.len() == n - 1);
    assert forall|k: int| 0 <= k < n - 1 implies #[trigger] r[k] == (if k < from {
        order[k]
    } else {
        order[k + 1]
    }) by {}
    assert(moved.len() == n);
    assert forall|i: int| 0 <= i < n implies #[trigger] moved[i] == order[moved_source(
        i,
        from,
        to,
    )] by {
        if i < to {
            assert(moved[i] == r[i]);
        } else if i > to {
            assert(moved[i] == r[i - 1]);
        }
    }
    assert forall|i: int| 0 <= i < n implies (#[trigger] moved[i]) < n by {
        assert(moved[i] == order[moved_source(i, from, to)]);
    }
    assert forall|i: int, j: int| 0 <= i < j < n implies #[trigger] moved[i] != #[trigger] moved[j] by {
        let si = moved_source(i, from, to);
        let sj = moved_source(j, from, to);
        assert(moved[i] == order[si]);
        assert(moved[j] == order[sj]);
        assert(si != sj);
        if si < sj {
            assert(order[si] != order[sj]);
        } else {
            assert(order[sj] != order[si]);
        }
    }
}

proof fn lemma_fisher_yates_perm(v: Seq<usize>, n: nat, rng: u64, i: nat)
    requires
        is_permutation(v, n),
        i <= n,
    ensures
        is_permutation(fisher_yates(v, rng, i), n),
    decreases i,
{
    if i > 1 {
        let i2 = (i - 1) as nat;
        let s2 = mix_state(rng);
        let j = (mix_output(s2) as int) % ((i2 + 1) as int);
        lemma_swap_perm(v, n, i2 as int, j);
        lemma_fisher_yates_perm(seq_swap(v, i2 as int, j), n, s2, i2);
    }
}

proof fn lemma_identity_perm(n: nat)
    requires
        n <= usize::MAX + 1,
    ensures
        is_permutation(identity(n), n),
{
    let v = identity(n);
    assert forall|i: int| 0 <= i < n implies v[i] == i as usize by {}
    assert forall|i: int, j: int| 0 <= i < j < n implies #[trigger] v[i] != #[trigger] v[j] by {
        assert(v[i] == i as usize);
        assert(v[j] == j as usize);
    }
}

proof fn lemma_permute_perm(seed: u64, n: nat)
    requires
        n <= usize::MAX + 1,
    ensures
        is_permutation(shuffled_tracks(seed, n), n),
{
    lemma_identity_perm(n);
    lemma_fisher_yates_perm(identity(n), n, seed, n);
}

/// Removing one slot of a permutation and inserting the same value back at
/// that slot after shuffling the rest yields a permutation again.
proof fn lemma_reshuffle_rest_perm(seed: u64, order: Seq<usize>, n: nat, pin: Option<usize>)
    requires
        is_permutation(order, n),
        n <= usize::MAX + 1,
        pin matches Some(p) ==> p < n,
    ensures
        is_permutation(reshuffled_rest(seed, order, pin), n),
        pin matches Some(p) ==> reshuffled_rest(seed, order, pin)[p as int] == order[p as int],
{
    match pin {
        None => {
            lemma_permute_perm(seed, n);
        },
        Some(p) => {
            let rest = order.remove(p as int);
            let m = rest.len();
            // rest is an injective list over the values of order minus order[p];
            // shuffling keeps the multiset, so reinserting gives a permutation.
            let sh = fisher_yates(rest, seed, m);
            lemma_fisher_yates_same_values(rest, seed, m);
            let out = sh.insert(p as int, order[p as int]);
            assert(out.len() == n);
            assert forall|i: int| 0 <= i < n implies (#[trigger] out[i]) < n by {
                if i < p {
                    assert(out[i] == sh[i]);
                    assert(rest.contains(sh[i]));
                    let k = choose|k: int| 0 <= k < m && rest[k] == sh[i];
                    assert(rest[k] == order[if k < p { k } else { k + 1 }]);
                } else if i > p {
                    assert(out[i] == sh[i - 1]);
                    assert(rest.contains(sh[i - 1]));
                    let k = choose|k: int| 0 <= k < m && rest[k] == sh[i - 1];
                    assert(rest[k] == order[if k < p { k } else { k + 1 }]);
                }
            }
            assert forall|i: int, j: int| 0 <= i < j < n implies #[trigger] out[i] != #[trigger] out[j] by {
                let oi = if i < p { i } else if i == p { -1 } else { i - 1 };
                let oj = if j < p { j } else if j == p { -1 } else { j - 1 };
                if i != p && j != p {
                    assert(out[i] == sh[oi]);
                    assert(out[j] == sh[oj]);
                    assert(oi != oj);
                } else if i == p {
                    assert(out[j] == sh[oj]);
                    assert(rest.contains(sh[oj]));
                    let k = choose|k: int| 0 <= k < m && rest[k] == sh[oj];
                    let src = if k < p { k } else { k + 1 };
                    assert(rest[k] == order[src]);
                    assert(src != p);
                    if src < p {
                        assert(order[src] != order[p as int]);
                    } else {
                        assert(order[p as int] != order[src]);
                    }
                } else {
                    assert(out[i] == sh[oi]);
                    assert(rest.contains(sh[oi]));
                    let k = choose|k: int| 0 <= k < m && rest[k] == sh[oi];
                    let src = if k < p { k } else { k + 1 };
                    assert(rest[k] == order[src]);
                    if src < p {
                        assert(order[src] != order[p as int]);
                    } else {
                        assert(order[p as int] != order[src]);
                    }
                }
            }
        },
    }
}

/// Fisher–Yates only permutes: the result has the same length, its values
/// all come from the input, and distinct slots keep distinct values when
/// the input had distinct values.
proof fn lemma_fisher_yates_same_values(v: Seq<usize>, rng: u64, i: nat)
    requires
        i <= v.len(),
    ensures
        fisher_yates(v, rng, i).len() == v.len(),
        forall|x: int| 0 <= x < v.len() ==> v.contains(#[trigger] fisher_yates(v, rng, i)[x]),
        (forall|a: int, b: int| 0 <= a < b < v.len() ==> v[a] != v[b]) ==> (forall|a: int, b: int|
            0 <= a < b < v.len() ==> #[trigger] fisher_yates(v, rng, i)[a] != #[trigger] fisher_yates(
                v,
                rng,
                i,
            )[b]),
    decreases i,
{
    if i <= 1 {
        assert forall|x: int| 0 <= x < v.len() implies v.contains(#[trigger] fisher_yates(v, rng, i)[x]) by {
            assert(v[x] == fisher_yates(v, rng, i)[x]);
        }
    }
    if i > 1 {
        let i2 = (i - 1) as nat;
        let s2 = mix_state(rng);
        let j = (mix_output(s2) as int) % ((i2 + 1) as int);
        let w = seq_swap(v, i2 as int, j);
        lemma_fisher_yates_same_values(w, s2, i2);
        let f = fisher_yates(v, rng, i);
        assert(f == fisher_yates(w, s2, i2));
        assert forall|x: int| 0 <= x < v.len() implies v.contains(#[trigger] f[x]) by {
            assert(w.contains(fisher_yates(w, s2, i2)[x]));
            let k = choose|k: int| 0 <= k < w.len() && w[k] == f[x];
            let src = if k == j {
                i2 as int
            } else if k == i2 {
                j
            } else {
                k
            };
            assert(v[src] == w[k]);
        }
        if forall|a: int, b: int| 0 <= a < b < v.len() ==> v[a] != v[b] {
            assert forall|a: int, b: int| 0 <= a < b < w.len() implies w[a] != w[b] by {
                let sa = if a == j {
                    i2 as int
                } else if a == i2 {
                    j
                } else {
                    a
                };
                let sb = if b == j {
                    i2 as int
                } else if b == i2 {
                    j
                } else {
                    b
                };
                assert(w[a] == v[sa]);
                assert(w[b] == v[sb]);
                if sa < sb {
                    assert(v[sa] != v[sb]);
                } else {
                    assert(v[sb] != v[sa]);
                }
            }
        }
    }
}


proof fn lemma_index_of_at(s: Seq<usize>, t: usize, k: int)
    requires
        0 <= k < s.len(),
        s[k] == t,
        forall|j: int| 0 <= j < k ==> s[j] != t,
    ensures
        index_of(s, t) == k,
{
    lemma_index_of(s, t);
}

// ---------------------------------------------------------------------
// Executable helpers
// ---------------------------------------------------------------------

/// SplitMix64: tiny deterministic PRNG (no external dependency).
fn splitmix64(state: &mut u64) -> (r: u64)
    ensures
        *final(state) == mix_state(*old(state)),
        r == mix_output(*final(state)),
{
    *state = state.wrapping_add(0x9E37_79B9_7F4A_7C15u64);
    let mut z = *state;
    z = (z ^ (z >> 30u64)).wrapping_mul(0xBF58_476D_1CE4_E5B9u64);
    z = (z ^ (z >> 27u64)).wrapping_mul(0x94D0_49BB_1331_11EBu64);
    z ^ (z >> 31u64)
}

fn identity_vec(n: usize) -> (v: Vec<usize>)
    ensures
        v@ == identity(n as nat),
{
    let mut v: Vec<usize> = Vec::new();
    let mut i: usize = 0;
    while i < n
        invariant
            i <= n,
            v@ == identity(i as nat),
        decreases n - i,
    {
        v.push(i);
        i += 1;
        assert(v@ =~= identity(i as nat));
    }
    v
}

fn copy_order(v: &Vec<usize>) -> (r: Vec<usize>)
    ensures
        r@ == v@,
{
    let mut r: Vec<usize> = Vec::new();
    let mut i: usize = 0;
    while i < v.len()
        invariant
            i <= v.len(),
            r@ == v@.take(i as int),
        decreases v.len() - i,
    {
        r.push(v[i]);
        i += 1;
        assert(r@ == v@.take(i as int));
    }
    assert(v@.take(v.len() as int) == v@);
    r
}

fn swap_slots(v: &mut Vec<usize>, a: usize, b: usize)
    requires
        a < old(v).len(),
        b < old(v).len(),
    ensures
        final(v)@ == seq_swap(old(v)@, a as int, b as int),
{
    let x = v[a];
    let y = v[b];
    v.set(a, y);
    v.set(b, x);
}

/// Fisher–Yates over the first `n` slots of `v`, seeded with `seed`.
fn shuffle_in_place(v: &mut Vec<usize>, seed: u64, n: usize)
    requires
        n <= old(v).len(),
    ensures
        final(v)@ == fisher_yates(old(v)@, seed, n as nat),
        final(v)@.len() == old(v)@.len(),
{
    let ghost target = fisher_yates(v@, seed, n as nat);
    let ghost len0 = v@.len();
    let mut rng = seed;
    let mut i = n;
    while i > 1
        invariant
            i <= n <= v@.len() == len0,
            fisher_yates(v@, rng, i as nat) == target,
        decreases i,
    {
        i -= 1;
        let out = splitmix64(&mut rng);
        let j = (out % (i as u64 + 1)) as usize;
        assert(j as int == (mix_output(rng) as int) % ((i + 1) as int));
        swap_slots(v, i, j);
    }
}

/// Deterministic Fisher–Yates shuffle of `0..n` from a SplitMix64 generator.
fn permute(seed: u64, n: usize) -> (v: Vec<usize>)
    ensures
        v@ == shuffled_tracks(seed, n as nat),
{
    let mut v = identity_vec(n);
    shuffle_in_place(&mut v, seed, n);
    v
}

/// First position of `t` in `v`.
fn position(v: &Vec<usize>, t: usize) -> (r: Option<usize>)
    ensures
        r matches Some(k) ==> index_of(v@, t) == k as int,
        r is None ==> index_of(v@, t) == -1,
{
    let mut i: usize = 0;
    while i < v.len()
        invariant
            i <= v.len(),
            forall|j: int| 0 <= j < i ==> v@[j] != t,
        decreases v.len() - i,
    {
        if v[i] == t {
            proof {
                lemma_index_of_at(v@, t, i as int);
            }
            return Some(i);
        }
        i += 1;
    }
    proof {
        lemma_index_of(v@, t);
    }
    None
}

/// `v` without the entry at position `p`.
fn remove_at(v: &Vec<usize>, p: usize) -> (r: Vec<usize>)
    requires
        p < v@.len(),
    ensures
        r@ == v@.remove(p as int),
{
    let len = v.len();
    let mut r: Vec<usize> = Vec::new();
    let mut i: usize = 0;
    while i < p
        invariant
            i <= p < len == v@.len(),
            r@ == v@.subrange(0, i as int),
        decreases p - i,
    {
        r.push(v[i]);
        i += 1;
        assert(r@ == v@.subrange(0, i as int));
    }
    let mut i: usize = p + 1;
    while i < len
        invariant
            p < i <= len == v@.len(),
            r@ == v@.subrange(0, p as int) + v@.subrange(p + 1, i as int),
        decreases len - i,
    {
        r.push(v[i]);
        i += 1;
        assert(r@ == v@.subrange(0, p as int) + v@.subrange(p + 1, i as int));
    }
    assert(r@ =~= v@.remove(p as int));
    r
}

/// `v` with `x` inserted at position `p`.
fn insert_at(v: &Vec<usize>, p: usize, x: usize) -> (r: Vec<usize>)
    requires
        p <= v@.len(),
    ensures
        r@ == v@.insert(p as int, x),
{
    let m = v.len();
    let mut out: Vec<usize> = Vec::new();
    let mut k: usize = 0;
    while k < p
        invariant
            k <= p <= m == v@.len(),
            out@ == v@.subrange(0, k as int),
        decreases p - k,
    {
        out.push(v[k]);
        k += 1;
        assert(out@ == v@.subrange(0, k as int));
    }
    out.push(x);
    let mut k: usize = p;
    while k < m
        invariant
            p <= k <= m == v@.len(),
            out@ == v@.subrange(0, p as int).push(x) + v@.subrange(p as int, k as int),
        decreases m - k,
    {
        out.push(v[k]);
        k += 1;
        assert(out@ == v@.subrange(0, p as int).push(x) + v@.subrange(p as int, k as int));
    }
    assert(out@ =~= v@.insert(p as int, x));
    out
}

/// Shuffle every slot of `order` except the pinned position `pin`.
fn reshuffle_rest(seed: u64, order: &Vec<usize>, pin: Option<usize>) -> (r: Vec<usize>)
    requires
        pin matches Some(p) ==> p < order@.len(),
    ensures
        r@ == reshuffled_rest(seed, order@, pin),
{
    match pin {
        None => permute(seed, order.len()),
        Some(p) => {
            let mut rest = remove_at(order, p);
            let m = rest.len();
            shuffle_in_place(&mut rest, seed, m);
            insert_at(&rest, p, order[p])
        },
    }
}

impl Queue {
    /// Same queue, as a fresh value.
    fn duplicate(&self) -> (r: Queue)
        ensures
            r@ == self@,
    {
        Queue {
            len: self.len,
            index: self.index,
            repeat: self.repeat,
            shuffle: self.shuffle,
            order: copy_order(&self.order),
        }
    }

    /// Empty queue (nothing selected).
    pub fn new(len: usize) -> (q: Queue)
        ensures
            q@ == (QueueModel {
                len,
                index: None,
                repeat: RepeatMode::Off,
                shuffle: false,
                order: identity(len as nat),
            }),
            q@.wf(),
    {
        proof {
            lemma_identity_perm(len as nat);
        }
        Queue { len, index: None, repeat: RepeatMode::Off, shuffle: false, order: identity_vec(len) }
    }

    /// Start playing track `index` (clamped to the list; empty list stays
    /// empty). With shuffle the track is located inside `order`.
    pub fn start(&self, index: usize) -> (q: Queue)
        requires
            self@.wf(),
        ensures
            q@ == self@.start(index),
            q@.wf(),
            self.len > 0 ==> q@.current() == Some(
                if index < self.len {
                    index
                } else {
                    (self.len - 1) as usize
                },
            ),
    {
        if self.len == 0 {
            return self.duplicate();
        }
        let track = if index < self.len {
            index
        } else {
            self.len - 1
        };
        let pos = match position(&self.order, track) {
            Some(k) => k,
            None => track,
        };
        proof {
            lemma_perm_index_of(self.order@, self.len as nat, track);
        }
        let mut q = self.duplicate();
        q.index = Some(pos);
        q
    }

    pub fn with_repeat(&self, repeat: RepeatMode) -> (q: Queue)
        requires
            self@.wf(),
        ensures
            q@ == self@.with_repeat(repeat),
            q@.wf(),
            q@.current() == self@.current(),
    {
        let mut q = self.duplicate();
        q.repeat = repeat;
        q
    }

    pub fn current(&self) -> (r: Option<usize>)
        requires
            self@.wf(),
        ensures
            r == self@.current(),
    {
        match self.index {
            Some(pos) => Some(self.order[pos]),
            None => None,
        }
    }

    /// User-initiated "next": always advances; wraps only in `All` mode,
    /// otherwise the last track is a stop.
    pub fn user_next(&self) -> (r: Option<usize>)
        requires
            self@.wf(),
        ensures
            r == self@.user_next(),
    {
        match self.index {
            None => None,
            Some(pos) => {
                if pos + 1 < self.len {
                    Some(self.order[pos + 1])
                } else {
                    match self.repeat {
                        RepeatMode::All => Some(self.order[0]),
                        _ => None,
                    }
                }
            },
        }
    }

    /// User-initiated "prev": always wraps to the end.
    pub fn user_prev(&self) -> (r: Option<usize>)
        requires
            self@.wf(),
        ensures
            r == self@.user_prev(),
    {
        match self.index {
            None => None,
            Some(pos) => {
                if pos == 0 {
                    Some(self.order[self.len - 1])
                } else {
                    Some(self.order[pos - 1])
                }
            },
        }
    }

    /// What to play after the current file ends naturally.
    pub fn after_end(&self) -> (r: Option<usize>)
        requires
            self@.wf(),
        ensures
            r == self@.after_end(),
    {
        match self.index {
            None => None,
            Some(pos) => {
                match self.repeat {
                    RepeatMode::One => Some(self.order[pos]),
                    _ => {
                        if pos + 1 < self.len {
                            Some(self.order[pos + 1])
                        } else {
                            match self.repeat {
                                RepeatMode::All => Some(self.order[0]),
                                _ => None,
                            }
                        }
                    },
                }
            },
        }
    }

    /// Enable shuffle with a deterministic permutation of the whole list.
    /// The currently playing track is pinned to the front of the shuffled
    /// order, so "next" walks the entire list; then it stops (repeat off) or
    /// wraps (repeat all) — never a silent mid-list skip.
    pub fn with_shuffle(&self, seed: u64) -> (q: Queue)
        requires
            self@.wf(),
        ensures
            q@ == self@.with_shuffle(seed),
            q@.wf(),
            q@.current() == self@.current(),
            self.index is Some ==> q.index == Some(0usize),
    {
        let current_track = self.current();
        let mut order = permute(seed, self.len);
        proof {
            lemma_permute_perm(seed, self.len as nat);
        }
        let ghost permuted = order@;
        if let Some(t) = current_track {
            if let Some(pos) = position(&order, t) {
                proof {
                    lemma_perm_index_of(permuted, self.len as nat, t);
                    lemma_swap_perm(permuted, self.len as nat, 0, pos as int);
                }
                swap_slots(&mut order, 0, pos);
            } else {
                proof {
                    lemma_perm_index_of(permuted, self.len as nat, t);
                }
            }
        }
        Queue {
            len: self.len,
            index: match current_track {
                Some(_) => Some(0),
                None => None,
            },
            repeat: self.repeat,
            shuffle: true,
            order,
        }
    }

    fn relocate_to(order: &Vec<usize>, track: Option<usize>) -> (r: Option<usize>)
        ensures
            r == QueueModel::relocated(order@, track),
    {
        match track {
            Some(t) => position(order, t),
            None => None,
        }
    }

    /// Re-shuffle the list; the current track never moves. When shuffle is
    /// off, this enables it first (same as `with_shuffle`).
    pub fn reshuffle(&self, seed: u64) -> (q: Queue)
        requires
            self@.wf(),
        ensures
            q@ == self@.reshuffle(seed),
            q@.wf(),
            q.shuffle,
            q@.current() == self@.current(),
            self.shuffle ==> q.index == self.index,
    {
        let current_track = self.current();
        if !self.shuffle {
            return self.with_shuffle(seed);
        }
        let order = reshuffle_rest(seed, &self.order, self.index);
        proof {
            lemma_reshuffle_rest_perm(seed, self.order@, self.len as nat, self.index);
            if let Some(p) = self.index {
                lemma_perm_index_of(order@, self.len as nat, self.order@[p as int]);
            }
        }
        let index = Self::relocate_to(&order, current_track);
        Queue { len: self.len, index, repeat: self.repeat, shuffle: self.shuffle, order }
    }

    /// Move the track at play-order position `from` to position `to`
    /// (clamped to the last slot; `from` outside the list, or an empty
    /// list, is a no-op). The position follows the playing track, so
    /// `current()` never changes; shuffle stays as it is and the order stays
    /// a permutation.
    pub fn reorder(&self, from: usize, to: usize) -> (q: Queue)
        requires
            self@.wf(),
        ensures
            q@ == self@.reorder(from, to),
            q@.wf(),
            q@.current() == self@.current(),
    {
        proof {
            law_reorder_keeps_current_track(self@, from, to);
        }
        if from >= self.len {
            return self.duplicate();
        }
        let to2 = if to < self.len {
            to
        } else {
            self.len - 1
        };
        let rest = remove_at(&self.order, from);
        let order = insert_at(&rest, to2, self.order[from]);
        let index = match self.index {
            Some(p) => Some(
                if p == from {
                    to2
                } else if from < p && p <= to2 {
                    p - 1
                } else if to2 <= p && p < from {
                    p + 1
                } else {
                    p
                },
            ),
            None => None,
        };
        Queue { len: self.len, index, repeat: self.repeat, shuffle: self.shuffle, order }
    }

    /// The play order: the track indices in the order they will play.
    pub fn ordered_indices(&self) -> (r: Vec<usize>)
        ensures
            r@ == self.order@,
    {
        copy_order(&self.order)
    }

    /// Turn shuffle off: order returns to identity and the current *track*
    /// stays selected (its position becomes its index).
    pub fn with_shuffle_off(&self) -> (q: Queue)
        requires
            self@.wf(),
        ensures
            q@ == self@.with_shuffle_off(),
            q@.wf(),
            q@.current() == self@.current(),
            q@.order == identity(self.len as nat),
    {
        proof {
            lemma_identity_perm(self.len as nat);
        }
        let index = match self.index {
            Some(pos) => {
                let track = self.order[pos];
                Some(
                    if track < self.len - 1 {
                        track
                    } else {
                        self.len - 1
                    },
                )
            },
            None => None,
        };
        Queue {
            len: self.len,
            index,
            repeat: self.repeat,
            shuffle: false,
            order: identity_vec(self.len),
        }
    }
}


// ---------------------------------------------------------------------
// Laws
// ---------------------------------------------------------------------

/// One user "next" as the player performs it: ask the queue for the next
/// track and start it (no move when there is none).
pub open spec fn step_next(q: QueueModel) -> QueueModel {
    match q.user_next() {
        Some(t) => q.start(t),
        None => q,
    }
}

/// `k` consecutive user "next" steps.
pub open spec fn walk_next(q: QueueModel, k: nat) -> QueueModel
    decreases k,
{
    if k == 0 {
        q
    } else {
        step_next(walk_next(q, (k - 1) as nat))
    }
}

/// Every queue operation keeps the queue well formed (its order stays a
/// permutation of the tracks and the position stays inside the list).
pub proof fn law_operations_keep_queue_well_formed(
    q: QueueModel,
    index: usize,
    repeat: RepeatMode,
    seed: u64,
    from: usize,
    to: usize,
)
    requires
        q.wf(),
    ensures
        q.start(index).wf(),
        q.with_repeat(repeat).wf(),
        q.with_shuffle(seed).wf(),
        q.reshuffle(seed).wf(),
        q.with_shuffle_off().wf(),
        q.reorder(from, to).wf(),
{
    law_shuffling_keeps_current_track(q, seed);
    law_reorder_keeps_current_track(q, from, to);
    if q.len > 0 {
        let track = if index < q.len {
            index
        } else {
            (q.len - 1) as usize
        };
        lemma_perm_index_of(q.order, q.len as nat, track);
    }
    lemma_identity_perm(q.len as nat);
}

/// Shuffling never changes the track that is playing: enabling shuffle
/// pins it to the front of the new order, re-shuffling keeps it at its
/// position, and disabling shuffle restores the identity order with the
/// same track selected.
pub proof fn law_shuffling_keeps_current_track(q: QueueModel, seed: u64)
    requires
        q.wf(),
    ensures
        q.with_shuffle(seed).wf(),
        q.with_shuffle(seed).shuffle,
        q.with_shuffle(seed).current() == q.current(),
        q.index is Some ==> q.with_shuffle(seed).index == Some(0usize),
        q.reshuffle(seed).wf(),
        q.reshuffle(seed).shuffle,
        q.reshuffle(seed).current() == q.current(),
        q.shuffle ==> q.reshuffle(seed).index == q.index,
        q.with_shuffle_off().wf(),
        !q.with_shuffle_off().shuffle,
        q.with_shuffle_off().order == identity(q.len as nat),
        q.with_shuffle_off().current() == q.current(),
{
    let n = q.len as nat;
    lemma_permute_perm(seed, n);
    let o = shuffled_tracks(seed, n);
    if let Some(t) = q.current() {
        lemma_perm_index_of(o, n, t);
        lemma_swap_perm(o, n, 0, index_of(o, t));
    }
    if q.shuffle {
        lemma_reshuffle_rest_perm(seed, q.order, n, q.index);
        let order = reshuffled_rest(seed, q.order, q.index);
        if let Some(p) = q.index {
            lemma_perm_index_of(order, n, q.order[p as int]);
        }
    }
    lemma_identity_perm(n);
}

/// Moving an entry of the queue (dragging a row of the play order) never
/// changes the playing track: the position follows it, the order stays a
/// permutation, the moved entry lands on the requested slot (clamped to
/// the last one), and repeat and shuffle are untouched.
pub proof fn law_reorder_keeps_current_track(q: QueueModel, from: usize, to: usize)
    requires
        q.wf(),
    ensures
        q.reorder(from, to).wf(),
        q.reorder(from, to).current() == q.current(),
        q.reorder(from, to).len == q.len,
        q.reorder(from, to).repeat == q.repeat,
        q.reorder(from, to).shuffle == q.shuffle,
        from < q.len ==> q.reorder(from, to).order[if to < q.len {
            to as int
        } else {
            q.len - 1
        }] == q.order[from as int],
{
    if from < q.len {
        let n = q.len as nat;
        let to2: usize = if to < q.len {
            to
        } else {
            (q.len - 1) as usize
        };
        lemma_moved_order(q.order, n, from as int, to2 as int);
        let r = q.reorder(from, to);
        assert(r.order[to2 as int] == q.order[moved_source(to2 as int, from as int, to2 as int)]);
        if let Some(p) = q.index {
            let p2 = moved_position(p, from, to2);
            assert(moved_source(p2 as int, from as int, to2 as int) == p as int);
            assert(r.order[p2 as int] == q.order[p as int]);
        }
    }
}

/// Turning shuffle on and then off again gives back the unshuffled queue:
/// the identity order with the same track selected at the same position.
pub proof fn law_shuffle_then_unshuffle_restores(q: QueueModel, seed: u64)
    requires
        q.wf(),
        !q.shuffle,
        q.order == identity(q.len as nat),
    ensures
        q.with_shuffle(seed).with_shuffle_off() == q,
{
    law_shuffling_keeps_current_track(q, seed);
    let s = q.with_shuffle(seed);
    law_shuffling_keeps_current_track(s, seed);
    let off = s.with_shuffle_off();
    if let Some(p) = q.index {
        assert(q.current() == Some(p));
        assert(s.current() == Some(p));
        assert(off.index == Some(p));
    }
    assert(off.order =~= q.order);
}

/// From the front of the order (where enabling shuffle puts the playing
/// track), `k` user "next" steps land on position `k` and play
/// `order[k]`: walking forward visits every track of the permutation
/// exactly once, in order.
pub proof fn law_next_walks_the_order(q: QueueModel, k: nat)
    requires
        q.wf(),
        q.index == Some(0usize),
        k < q.len,
    ensures
        walk_next(q, k).index == Some(k as usize),
        walk_next(q, k).order == q.order,
        walk_next(q, k).len == q.len,
        walk_next(q, k).repeat == q.repeat,
        walk_next(q, k).current() == Some(q.order[k as int]),
        walk_next(q, k).wf(),
    decreases k,
{
    if k > 0 {
        law_next_walks_the_order(q, (k - 1) as nat);
        let prev = walk_next(q, (k - 1) as nat);
        let t = q.order[k as int];
        assert(prev.user_next() == Some(t));
        lemma_perm_index_of(q.order, q.len as nat, t);
    }
}

/// After the walk reaches the last position, "next" stops when repeat is
/// off and wraps to the front of the order when repeat is all.
pub proof fn law_next_after_last_track(q: QueueModel)
    requires
        q.wf(),
        q.index == Some(0usize),
        q.len > 0,
    ensures
        q.repeat == RepeatMode::Off ==> walk_next(q, (q.len - 1) as nat).user_next() is None,
        q.repeat == RepeatMode::All ==> walk_next(q, (q.len - 1) as nat).user_next() == Some(
            q.order[0],
        ),
{
    law_next_walks_the_order(q, (q.len - 1) as nat);
}


/// Starting track `t` of a non-empty queue selects exactly track `t`
/// (clamped to the last track).
pub proof fn law_start_selects_the_requested_track(q: QueueModel, t: usize)
    requires
        q.wf(),
        q.len > 0,
    ensures
        q.start(t).current() == Some(
            if t < q.len {
                t
            } else {
                (q.len - 1) as usize
            },
        ),
        q.start(t).wf(),
{
    let track = if t < q.len {
        t
    } else {
        (q.len - 1) as usize
    };
    lemma_perm_index_of(q.order, q.len as nat, track);
}


// ---------------------------------------------------------------------
// Laws on what the moves and the shuffle produce
// ---------------------------------------------------------------------

/// Fisher–Yates over the first `i` slots never touches a slot at or after
/// `i`.
proof fn lemma_fisher_yates_keeps_tail(v: Seq<usize>, rng: u64, i: nat, k: int)
    requires
        i <= v.len(),
        i <= k < v.len(),
    ensures
        fisher_yates(v, rng, i).len() == v.len(),
        fisher_yates(v, rng, i)[k] == v[k],
    decreases i,
{
    if i > 1 {
        let i2 = (i - 1) as nat;
        let s2 = mix_state(rng);
        let j = (mix_output(s2) as int) % ((i2 + 1) as int);
        let w = seq_swap(v, i2 as int, j);
        lemma_fisher_yates_keeps_tail(w, s2, i2, k);
    }
}

/// The first SplitMix64 draw of `seed`, reduced to a slot of `n`.
pub open spec fn first_draw(seed: u64, n: nat) -> int {
    (mix_output(mix_state(seed)) as int) % (n as int)
}

/// Enabling shuffle really shuffles with SplitMix64 Fisher–Yates: the
/// shuffle's first step swaps the last slot with the slot picked by the
/// first SplitMix64 draw of the seed, and no later step touches it, so the
/// last slot of the new order holds track `first_draw(seed, len)`, unless
/// that is the playing track (pinned to the front instead).
pub proof fn law_shuffle_last_slot_is_the_first_draw(q: QueueModel, seed: u64)
    requires
        q.wf(),
        q.len > 0,
    ensures
        ({
            let t = first_draw(seed, q.len as nat) as usize;
            q.current() != Some(t) ==> q.with_shuffle(seed).order[q.len - 1] == t
        }),
        q.index is None ==> q.with_shuffle(seed).order[q.len - 1] == first_draw(
            seed,
            q.len as nat,
        ) as usize,
{
    let n = q.len as nat;
    let t = first_draw(seed, n) as usize;
    let o = shuffled_tracks(seed, n);
    lemma_identity_perm(n);
    lemma_permute_perm(seed, n);
    if n == 1 {
        assert(o == identity(1));
        assert(first_draw(seed, 1) == 0);
    } else {
        let i2 = (n - 1) as nat;
        let s2 = mix_state(seed);
        let j = (mix_output(s2) as int) % ((i2 + 1) as int);
        let w = seq_swap(identity(n), i2 as int, j);
        assert(o == fisher_yates(w, s2, i2));
        lemma_fisher_yates_keeps_tail(w, s2, i2, i2 as int);
        assert(o[i2 as int] == w[i2 as int]);
        assert(w[i2 as int] == identity(n)[j]);
    }
    assert(o[n - 1] == t);
    if let Some(c) = q.current() {
        if c != t {
            lemma_perm_index_of(o, n, c);
            let k = index_of(o, c);
            if k == n - 1 {
                assert(o[k] == c);
            }
        }
    }
}

/// Starting the track at position `k` of the play order moves the queue to
/// position `k`.
proof fn lemma_start_at(q: QueueModel, k: int)
    requires
        q.wf(),
        0 <= k < q.len,
    ensures
        q.start(q.order[k]).index == Some(k as usize),
        q.start(q.order[k]).current() == Some(q.order[k]),
        q.start(q.order[k]).order == q.order,
        q.start(q.order[k]).repeat == q.repeat,
        q.start(q.order[k]).len == q.len,
{
    let t = q.order[k];
    assert(t < q.len);
    lemma_perm_index_of(q.order, q.len as nat, t);
}

/// The moves walk the play order, never the track numbers: from position
/// `p`, "next" and the automatic advance give the entry at `p + 1` (the
/// automatic advance repeats the playing entry under repeat one, "next"
/// never does), "previous" gives the entry at `p - 1`; at the ends "next"
/// wraps to the front only with repeat all and "previous" always wraps to
/// the back. Starting the track a move gives lands on that position, and a
/// move to another position never gives the playing track.
pub proof fn law_moves_follow_the_play_order(q: QueueModel)
    requires
        q.wf(),
    ensures
        q.index is None ==> q.user_next() is None && q.user_prev() is None && q.after_end() is None,
        q.index matches Some(p) ==> {
            &&& p + 1 < q.len ==> {
                &&& q.user_next() == Some(q.order[p + 1])
                &&& q.start(q.order[p + 1]).index == Some((p + 1) as usize)
                &&& q.user_next() != q.current()
                &&& q.repeat != RepeatMode::One ==> q.after_end() == Some(q.order[p + 1])
            }
            &&& p + 1 == q.len ==> {
                &&& q.repeat == RepeatMode::All ==> q.user_next() == Some(q.order[0])
                    && q.after_end() == Some(q.order[0]) && q.start(q.order[0]).index == Some(
                    0usize,
                )
                &&& q.repeat != RepeatMode::All ==> q.user_next() is None
                &&& q.repeat == RepeatMode::Off ==> q.after_end() is None
            }
            &&& q.repeat == RepeatMode::One ==> q.after_end() == q.current()
            &&& p > 0 ==> {
                &&& q.user_prev() == Some(q.order[p - 1])
                &&& q.start(q.order[p - 1]).index == Some((p - 1) as usize)
                &&& q.user_prev() != q.current()
            }
            &&& p == 0 ==> q.user_prev() == Some(q.order[q.len - 1]) && q.start(
                q.order[q.len - 1],
            ).index == Some((q.len - 1) as usize)
        },
{
    if let Some(p) = q.index {
        if p + 1 < q.len {
            lemma_start_at(q, p + 1);
            assert(q.order[p as int] != q.order[p + 1]);
        }
        if p + 1 == q.len {
            lemma_start_at(q, 0);
        }
        if p > 0 {
            lemma_start_at(q, p - 1);
            assert(q.order[p - 1] != q.order[p as int]);
        }
        lemma_start_at(q, q.len - 1);
    }
}

} // verus!
