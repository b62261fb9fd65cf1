//! Per-direction session state: the recency cache of version numbers and the
//! previously processed header.

use vstd::prelude::*;
use crate::blockheader::{BlockHeader, HeaderModel};

verus! {

/// Capacity of the recency cache.
pub const CACHE_LEN: usize = 7;

/// No value occurs twice in the sequence.
pub open spec fn distinct(c: Seq<i32>) -> bool {
    forall|i: int, j: int| 0 <= i < j < c.len() ==> c[i] != c[j]
}

/// The cache after prepending `value` and keeping the 7 most recent entries.
pub open spec fn cache_insert(c: Seq<i32>, value: i32) -> Seq<i32> {
    if c.len() < CACHE_LEN {
        seq![value] + c
    } else {
        (seq![value] + c).take(7)
    }
}

/// A bounded most-recently-used ring of the last 7 distinct version numbers
/// seen, most recent first.
pub struct Deque {
    pub queue: Vec<i32>,
}

impl View for Deque {
    type V = Seq<i32>;

    open spec fn view(&self) -> Seq<i32> {
        self.queue@
    }
}

impl Deque {
    /// At most 7 entries, no duplicates.
    pub open spec fn wf(self) -> bool {
        &&& self@.len() <= CACHE_LEN
        &&& distinct(self@)
    }

    /// An empty cache.
    pub fn new() -> (r: Deque)
        ensures
            r@ == Seq::<i32>::empty(),
            r.wf(),
    {
        Deque { queue: Vec::new() }
    }

    /// Whether `value` is present in the cache.
    pub fn contains(&self, value: i32) -> (r: bool)
        ensures
            r == self@.contains(value),
    {
        let mut k: usize = 0;
        while k < self.queue.len()
            invariant
                k <= self@.len(),
                forall|i: int| 0 <= i < k ==> self@[i] != value,
            decreases self@.len() - k,
        {
            if self.queue[k] == value {
                return true;
            }
            k = k + 1;
        }
        false
    }

    /// Position of `value` in the cache; 0 is most recent. Defined only when
    /// the value is present.
    pub fn index_of(&self, value: i32) -> (r: usize)
        requires
            self@.contains(value),
        ensures
            0 <= r < self@.len(),
            self@[r as int] == value,
            forall|i: int| 0 <= i < r ==> self@[i] != value,
    {
        let mut k: usize = 0;
        while k < self.queue.len()
            invariant
                k <= self@.len(),
                self@.contains(value),
                forall|i: int| 0 <= i < k ==> self@[i] != value,
            decreases self@.len() - k,
        {
            if self.queue[k] == value {
                return k;
            }
            k = k + 1;
        }
        proof {
            let w = choose|w: int| 0 <= w < self@.len() && self@[w] == value;
            assert(self@[w] != value);
        }
        unreached()
    }

    /// The value stored at `index`, or `None` when no value has been inserted
    /// at or before that slot.
    pub fn lookup(&self, index: usize) -> (r: Option<i32>)
        ensures
            index < self@.len() ==> r == Some(self@[index as int]),
            index >= self@.len() ==> r is None,
    {
        if index < self.queue.len() {
            Some(self.queue[index])
        } else {
            None
        }
    }

    /// Prepends `value`, then keeps the 7 most recent entries, evicting the
    /// oldest when the cache is full. Callers only insert values they have
    /// confirmed absent.
    pub fn insert(&mut self, value: i32)
        requires
            old(self).wf(),
            !old(self)@.contains(value),
        ensures
            final(self)@ == cache_insert(old(self)@, value),
            final(self).wf(),
    {
        self.queue.insert(0, value);
        self.queue.truncate(CACHE_LEN);
        proof {
            assert(final(self)@ =~= cache_insert(old(self)@, value));
            assert forall|i: int, j: int|
                0 <= i < j < final(self)@.len() implies final(self)@[i] != final(self)@[j] by {
                if i == 0 {
                    assert(old(self)@[j - 1] == final(self)@[j]);
                    assert(old(self)@.contains(old(self)@[j - 1]));
                }
            }
        }
    }
}

/// Inserting an absent value keeps the cache bounded and duplicate-free, puts
/// the value in front, and shifts the rest back.
pub proof fn lemma_cache_insert_wf(c: Seq<i32>, value: i32)
    requires
        c.len() <= 7,
        distinct(c),
        !c.contains(value),
    ensures
        cache_insert(c, value).len() == if c.len() < 7 { c.len() + 1 } else { 7nat },
        distinct(cache_insert(c, value)),
        cache_insert(c, value)[0] == value,
        forall|k: int| 1 <= k < cache_insert(c, value).len() ==> cache_insert(c, value)[k] == c[k
            - 1],
{
    let c2 = cache_insert(c, value);
    assert forall|i: int, j: int| 0 <= i < j < c2.len() implies c2[i] != c2[j] by {
        if i == 0 {
            assert(c[j - 1] == c2[j]);
            assert(c.contains(c[j - 1]));
        }
    }
}

/// The cache after feeding the values of `vs` through `cache_insert`, in
/// order.
pub open spec fn cache_insert_seq(c: Seq<i32>, vs: Seq<i32>) -> Seq<i32>
    decreases vs.len(),
{
    if vs.len() == 0 {
        c
    } else {
        cache_insert_seq(cache_insert(c, vs[0]), vs.drop_first())
    }
}

/// Feeding 8 distinct versions through a cache that starts empty leaves the
/// last 7 addressable, most recent first; the first is evicted.
pub proof fn lemma_version_cache_eviction(vs: Seq<i32>)
    requires
        vs.len() == 8,
        distinct(vs),
    ensures
        cache_insert_seq(Seq::empty(), vs).len() == 7,
        forall|k: int|
            0 <= k < 7 ==> cache_insert_seq(Seq::empty(), vs)[k] == vs[7 - k],
        !cache_insert_seq(Seq::empty(), vs).contains(vs[0]),
{
    let c0 = Seq::<i32>::empty();
    let c1 = cache_insert(c0, vs[0]);
    let c2 = cache_insert(c1, vs[1]);
    let c3 = cache_insert(c2, vs[2]);
    let c4 = cache_insert(c3, vs[3]);
    let c5 = cache_insert(c4, vs[4]);
    let c6 = cache_insert(c5, vs[5]);
    let c7 = cache_insert(c6, vs[6]);
    let c8 = cache_insert(c7, vs[7]);
    assert(c1 =~= seq![vs[0]]);
    assert(c2 =~= seq![vs[1], vs[0]]);
    assert(c3 =~= seq![vs[2], vs[1], vs[0]]);
    assert(c4 =~= seq![vs[3], vs[2], vs[1], vs[0]]);
    assert(c5 =~= seq![vs[4], vs[3], vs[2], vs[1], vs[0]]);
    assert(c6 =~= seq![vs[5], vs[4], vs[3], vs[2], vs[1], vs[0]]);
    assert(c7 =~= seq![vs[6], vs[5], vs[4], vs[3], vs[2], vs[1], vs[0]]);
    assert(c8 =~= seq![vs[7], vs[6], vs[5], vs[4], vs[3], vs[2], vs[1]]);
    let vs1 = vs.drop_first();
    let vs2 = vs1.drop_first();
    let vs3 = vs2.drop_first();
    let vs4 = vs3.drop_first();
    let vs5 = vs4.drop_first();
    let vs6 = vs5.drop_first();
    let vs7 = vs6.drop_first();
    let vs8 = vs7.drop_first();
    assert(vs1[0] == vs[1] && vs2[0] == vs[2] && vs3[0] == vs[3] && vs4[0] == vs[4] && vs5[0]
        == vs[5] && vs6[0] == vs[6] && vs7[0] == vs[7] && vs8.len() == 0);
    assert(cache_insert_seq(c0, vs) == cache_insert_seq(c1, vs1));
    assert(cache_insert_seq(c1, vs1) == cache_insert_seq(c2, vs2));
    assert(cache_insert_seq(c2, vs2) == cache_insert_seq(c3, vs3));
    assert(cache_insert_seq(c3, vs3) == cache_insert_seq(c4, vs4));
    assert(cache_insert_seq(c4, vs4) == cache_insert_seq(c5, vs5));
    assert(cache_insert_seq(c5, vs5) == cache_insert_seq(c6, vs6));
    assert(cache_insert_seq(c6, vs6) == cache_insert_seq(c7, vs7));
    assert(cache_insert_seq(c7, vs7) == cache_insert_seq(c8, vs8));
    assert(cache_insert_seq(c8, vs8) == c8);
    assert(!c8.contains(vs[0])) by {
        if c8.contains(vs[0]) {
            let k = choose|k: int| 0 <= k < c8.len() && c8[k] == vs[0];
            assert(vs[7 - k] == vs[0]);
        }
    }
}

/// In a duplicate-free cache, `index_of` agrees with any index that holds the
/// value.
pub proof fn lemma_index_of_distinct(c: Seq<i32>, value: i32, r: int)
    requires
        distinct(c),
        0 <= r < c.len(),
        c[r] == value,
    ensures
        c.contains(value),
        c.index_of(value) == r,
{
    assert(c.contains(value)) by {
        assert(c[r] == value);
    }
    let i = c.index_of(value);
    assert(0 <= i < c.len() && c[i] == value) by {
        assert(exists|k: int| 0 <= k < c.len() && c[k] == value) by {
            assert(0 <= r < c.len() && c[r] == value);
        }
    }
    if i != r {
        assert(c[i] != c[r]);
    }
}

/// Model of one direction's session state.
#[verifier::ext_equal]
pub struct StateModel {
    pub versions: Seq<i32>,
    pub prev: Option<HeaderModel>,
}

impl StateModel {
    /// The cache is well-formed and any previous header is well-formed.
    pub open spec fn wf(self) -> bool {
        &&& self.versions.len() <= CACHE_LEN
        &&& distinct(self.versions)
        &&& match self.prev {
            Some(p) => p.wf(),
            None => true,
        }
    }

    /// The state at the start of a session: empty cache, no previous header.
    pub open spec fn initial() -> StateModel {
        StateModel { versions: Seq::empty(), prev: None }
    }
}

/// State for one direction of a codec: the recency cache and the previous
/// header processed in this session, `None` only before the first call.
pub struct CompressorState {
    pub prev_versions: Deque,
    pub prev_header: Option<BlockHeader>,
}

impl View for CompressorState {
    type V = StateModel;

    open spec fn view(&self) -> StateModel {
        StateModel {
            versions: self.prev_versions@,
            prev: match self.prev_header {
                Some(h) => Some(h@),
                None => None,
            },
        }
    }
}

impl CompressorState {
    pub open spec fn wf(self) -> bool {
        self@.wf()
    }

    /// Fresh state for a new session.
    pub fn new() -> (r: CompressorState)
        ensures
            r@ == StateModel::initial(),
            r.wf(),
    {
        CompressorState { prev_versions: Deque::new(), prev_header: None }
    }
}

} // verus!
