//! Cursors for paginated grep results.
//!
//! A cursor is an opaque decimal id that stands for the state needed to fetch
//! the next page. The store keeps the most recent cursors only, dropping the
//! oldest once it holds more than [`MAX_CURSORS`].

use vstd::prelude::*;
use crate::grep::{GrepMatch, views};
use crate::text::{decimal, lemma_decimal_injective, str_eq, u64_to_string};

verus! {

/// How many cursors the store keeps.
pub const MAX_CURSORS: usize = 20;

/// Identity of a match, used to report each match once across patterns.
pub struct MatchKey {
    pub file_path: String,
    pub line_number: u64,
    pub byte_offset: u64,
}

impl MatchKey {
    pub open spec fn key(self) -> (Seq<char>, u64, u64) {
        (self.file_path@, self.line_number, self.byte_offset)
    }

    pub fn new(file_path: String, line_number: u64, byte_offset: u64) -> (r: Self)
        ensures
            r.key() == (file_path@, line_number, byte_offset),
    {
        MatchKey { file_path, line_number, byte_offset }
    }

    pub fn same_key(&self, other: &MatchKey) -> (r: bool)
        ensures
            r == (self.key() == other.key()),
    {
        self.line_number == other.line_number && self.byte_offset == other.byte_offset
            && str_eq(self.file_path.as_str(), other.file_path.as_str())
    }
}

/// A match found but not yet handed out.
pub struct PendingMatch {
    pub file_path: String,
    pub match_data: GrepMatch,
}

/// Paging state of a multi-pattern grep: per pattern, the file offset to
/// resume from (`None` once exhausted), matches held back for the next page,
/// and the matches and files already reported.
pub struct MultiGrepCursor {
    pub patterns: Vec<String>,
    pub constraints: String,
    pub next_offsets: Vec<Option<usize>>,
    pub pending: Vec<PendingMatch>,
    pub seen: Vec<MatchKey>,
    pub seen_files: Vec<String>,
}

impl MultiGrepCursor {
    /// The matches already reported.
    pub open spec fn seen_keys(self) -> Set<(Seq<char>, u64, u64)> {
        Set::new(|k: (Seq<char>, u64, u64)| exists|i: int| 0 <= i < self.seen@.len() && #[trigger] self.seen@[i].key() == k)
    }

    /// The files already reported.
    pub open spec fn seen_paths(self) -> Set<Seq<char>> {
        Set::new(|p: Seq<char>| exists|i: int| 0 <= i < self.seen_files@.len() && #[trigger] self.seen_files@[i]@ == p)
    }

    /// A cursor at the start of every pattern, with nothing reported yet.
    pub fn new(patterns: Vec<String>, constraints: String) -> (r: Self)
        ensures
            views(r.patterns@) == views(patterns@),
            r.constraints@ == constraints@,
            r.next_offsets@ == Seq::new(patterns@.len(), |i: int| Some(0usize)),
            r.pending@.len() == 0,
            r.seen_keys() == Set::<(Seq<char>, u64, u64)>::empty(),
            r.seen_paths() == Set::<Seq<char>>::empty(),
    {
        let mut next_offsets: Vec<Option<usize>> = Vec::new();
        let mut i: usize = 0;
        while i < patterns.len()
            invariant
                i <= patterns@.len(),
                next_offsets@ == Seq::new(i as nat, |j: int| Some(0usize)),
            decreases patterns@.len() - i,
        {
            next_offsets.push(Some(0));
            proof {
                assert(next_offsets@ =~= Seq::new((i + 1) as nat, |j: int| Some(0usize)));
            }
            i = i + 1;
        }
        let r = MultiGrepCursor {
            patterns,
            constraints,
            next_offsets,
            pending: Vec::new(),
            seen: Vec::new(),
            seen_files: Vec::new(),
        };
        assert(r.seen_keys() =~= Set::<(Seq<char>, u64, u64)>::empty());
        assert(r.seen_paths() =~= Set::<Seq<char>>::empty());
        r
    }

    /// Whether another page can be produced: held-back matches, or a
    /// pattern not yet exhausted.
    pub fn has_more(&self) -> (r: bool)
        ensures
            r == (self.pending@.len() > 0 || exists|i: int| 0 <= i < self.next_offsets@.len() && #[trigger] self.next_offsets@[i] is Some),
    {
        if self.pending.len() > 0 {
            return true;
        }
        let mut i: usize = 0;
        while i < self.next_offsets.len()
            invariant
                i <= self.next_offsets@.len(),
                forall|j: int| 0 <= j < i ==> self.next_offsets@[j] is None,
            decreases self.next_offsets@.len() - i,
        {
            if self.next_offsets[i].is_some() {
                return true;
            }
            i = i + 1;
        }
        false
    }

    /// Record `key` as reported; `true` when it was not reported before.
    pub fn remember_match(&mut self, key: MatchKey) -> (r: bool)
        ensures
            r == !old(self).seen_keys().contains(key.key()),
            final(self).seen_keys() == old(self).seen_keys().insert(key.key()),
            final(self).seen_paths() == old(self).seen_paths(),
            views(final(self).patterns@) == views(old(self).patterns@),
            final(self).constraints@ == old(self).constraints@,
            final(self).next_offsets@ == old(self).next_offsets@,
            final(self).pending@ == old(self).pending@,
    {
        let mut i: usize = 0;
        while i < self.seen.len()
            invariant
                i <= self.seen@.len(),
                forall|j: int| 0 <= j < i ==> self.seen@[j].key() != key.key(),
            decreases self.seen@.len() - i,
        {
            if self.seen[i].same_key(&key) {
                proof {
                    assert(self.seen@[i as int].key() == key.key());
                    assert(self.seen_keys().insert(key.key()) =~= self.seen_keys());
                }
                return false;
            }
            i = i + 1;
        }
        let ghost before = *self;
        proof {
            if before.seen_keys().contains(key.key()) {
                let j = choose|j: int| 0 <= j < before.seen@.len() && #[trigger] before.seen@[j].key() == key.key();
                assert(false);
            }
        }
        self.seen.push(key);
        proof {
            assert forall|k: (Seq<char>, u64, u64)| self.seen_keys().contains(k) == before.seen_keys().insert(key.key()).contains(k) by {
                if before.seen_keys().contains(k) {
                    let j = choose|j: int| 0 <= j < before.seen@.len() && #[trigger] before.seen@[j].key() == k;
                    assert(self.seen@[j] == before.seen@[j]);
                }
                if self.seen_keys().contains(k) {
                    let j = choose|j: int| 0 <= j < self.seen@.len() && #[trigger] self.seen@[j].key() == k;
                    if j < before.seen@.len() {
                        assert(self.seen@[j] == before.seen@[j]);
                    }
                }
                if k == key.key() {
                    assert(self.seen@[before.seen@.len() as int].key() == k);
                }
            }
            assert(self.seen_keys() =~= before.seen_keys().insert(key.key()));
        }
        true
    }

    /// Record `path` as reported; `true` when it was not reported before.
    pub fn remember_file(&mut self, path: String) -> (r: bool)
        ensures
            r == !old(self).seen_paths().contains(path@),
            final(self).seen_paths() == old(self).seen_paths().insert(path@),
            final(self).seen_keys() == old(self).seen_keys(),
            views(final(self).patterns@) == views(old(self).patterns@),
            final(self).constraints@ == old(self).constraints@,
            final(self).next_offsets@ == old(self).next_offsets@,
            final(self).pending@ == old(self).pending@,
    {
        let mut i: usize = 0;
        while i < self.seen_files.len()
            invariant
                i <= self.seen_files@.len(),
                forall|j: int| 0 <= j < i ==> self.seen_files@[j]@ != path@,
            decreases self.seen_files@.len() - i,
        {
            if str_eq(self.seen_files[i].as_str(), path.as_str()) {
                proof {
                    assert(self.seen_files@[i as int]@ == path@);
                    assert(self.seen_paths().insert(path@) =~= self.seen_paths());
                }
                return false;
            }
            i = i + 1;
        }
        let ghost before = *self;
        let ghost p = path@;
        proof {
            if before.seen_paths().contains(p) {
                let j = choose|j: int| 0 <= j < before.seen_files@.len() && #[trigger] before.seen_files@[j]@ == p;
                assert(false);
            }
        }
        self.seen_files.push(path);
        proof {
            assert forall|q: Seq<char>| self.seen_paths().contains(q) == before.seen_paths().insert(p).contains(q) by {
                if before.seen_paths().contains(q) {
                    let j = choose|j: int| 0 <= j < before.seen_files@.len() && #[trigger] before.seen_files@[j]@ == q;
                    assert(self.seen_files@[j] == before.seen_files@[j]);
                }
                if self.seen_paths().contains(q) {
                    let j = choose|j: int| 0 <= j < self.seen_files@.len() && #[trigger] self.seen_files@[j]@ == q;
                    if j < before.seen_files@.len() {
                        assert(self.seen_files@[j] == before.seen_files@[j]);
                    }
                }
                if q == p {
                    assert(self.seen_files@[before.seen_files@.len() as int]@ == q);
                }
            }
            assert(self.seen_paths() =~= before.seen_paths().insert(p));
        }
        true
    }

    /// Content equality of two cursors.
    pub open spec fn same(self, other: MultiGrepCursor) -> bool {
        &&& views(self.patterns@) == views(other.patterns@)
        &&& self.constraints@ == other.constraints@
        &&& self.next_offsets@ == other.next_offsets@
        &&& self.pending@.len() == other.pending@.len()
        &&& forall|i: int| 0 <= i < self.pending@.len() ==> {
            &&& (#[trigger] self.pending@[i]).file_path@ == other.pending@[i].file_path@
            &&& self.pending@[i].match_data.same(other.pending@[i].match_data)
        }
        &&& self.seen_keys() == other.seen_keys()
        &&& self.seen_paths() == other.seen_paths()
    }

    /// A copy of this cursor.
    pub fn duplicate(&self) -> (r: MultiGrepCursor)
        ensures
            r.same(*self),
    {
        let mut pending: Vec<PendingMatch> = Vec::new();
        let mut i: usize = 0;
        while i < self.pending.len()
            invariant
                i <= self.pending@.len(),
                pending@.len() == i,
                forall|j: int| 0 <= j < i ==> {
                    &&& (#[trigger] pending@[j]).file_path@ == self.pending@[j].file_path@
                    &&& pending@[j].match_data.same(self.pending@[j].match_data)
                },
            decreases self.pending@.len() - i,
        {
            let p = &self.pending[i];
            pending.push(PendingMatch { file_path: p.file_path.clone(), match_data: p.match_data.duplicate() });
            i = i + 1;
        }
        let mut seen: Vec<MatchKey> = Vec::new();
        let mut k: usize = 0;
        while k < self.seen.len()
            invariant
                k <= self.seen@.len(),
                seen@.len() == k,
                forall|j: int| 0 <= j < k ==> (#[trigger] seen@[j]).key() == self.seen@[j].key(),
            decreases self.seen@.len() - k,
        {
            let s = &self.seen[k];
            seen.push(MatchKey { file_path: s.file_path.clone(), line_number: s.line_number, byte_offset: s.byte_offset });
            k = k + 1;
        }
        let seen_files = crate::grep::copy_strings(&self.seen_files);
        let r = MultiGrepCursor {
            patterns: crate::grep::copy_strings(&self.patterns),
            constraints: self.constraints.clone(),
            next_offsets: self.next_offsets.clone(),
            pending,
            seen,
            seen_files,
        };
        proof {
            assert forall|x: (Seq<char>, u64, u64)| r.seen_keys().contains(x) == self.seen_keys().contains(x) by {
                if r.seen_keys().contains(x) {
                    let j = choose|j: int| 0 <= j < r.seen@.len() && #[trigger] r.seen@[j].key() == x;
                    assert(self.seen@[j].key() == x);
                }
                if self.seen_keys().contains(x) {
                    let j = choose|j: int| 0 <= j < self.seen@.len() && #[trigger] self.seen@[j].key() == x;
                    assert(r.seen@[j].key() == x);
                }
            }
            assert(r.seen_keys() =~= self.seen_keys());
            assert forall|q: Seq<char>| r.seen_paths().contains(q) == self.seen_paths().contains(q) by {
                if r.seen_paths().contains(q) {
                    let j = choose|j: int| 0 <= j < r.seen_files@.len() && #[trigger] r.seen_files@[j]@ == q;
                    assert(views(r.seen_files@).len() == r.seen_files@.len());
                    assert(views(self.seen_files@).len() == self.seen_files@.len());
                    assert(views(r.seen_files@)[j] == views(self.seen_files@)[j]);
                    assert(self.seen_files@[j]@ == q);
                }
                if self.seen_paths().contains(q) {
                    let j = choose|j: int| 0 <= j < self.seen_files@.len() && #[trigger] self.seen_files@[j]@ == q;
                    assert(views(r.seen_files@).len() == r.seen_files@.len());
                    assert(views(self.seen_files@).len() == self.seen_files@.len());
                    assert(views(r.seen_files@)[j] == views(self.seen_files@)[j]);
                    assert(r.seen_files@[j]@ == q);
                }
            }
            assert(r.seen_paths() =~= self.seen_paths());
        }
        r
    }
}

/// What a cursor stands for.
pub enum CursorState {
    /// File offset at which a single-pattern grep resumes.
    FileOffset(usize),
    MultiGrep(MultiGrepCursor),
}

/// The counter value after `c`, wrapping to zero past the largest `u64`.
pub open spec fn next_id(c: u64) -> u64 {
    if c == u64::MAX {
        0
    } else {
        (c + 1) as u64
    }
}

/// The counter value `k` steps before `c`, wrapping below zero.
pub open spec fn id_back(c: u64, k: int) -> int {
    if c >= k {
        c - k
    } else {
        c + 0x1_0000_0000_0000_0000 - k
    }
}

/// `s` with its oldest element dropped once it holds more than
/// [`MAX_CURSORS`].
pub open spec fn evict<T>(s: Seq<T>) -> Seq<T> {
    if s.len() > MAX_CURSORS {
        s.drop_first()
    } else {
        s
    }
}

/// Index of the first id in `ids` whose decimal rendering is `id`, or -1.
pub open spec fn find_id(ids: Seq<u64>, id: Seq<char>) -> int
    decreases ids.len(),
{
    if ids.len() == 0 {
        -1
    } else if decimal(ids[0] as nat) == id {
        0
    } else {
        let r = find_id(ids.drop_first(), id);
        if r < 0 {
            -1
        } else {
            r + 1
        }
    }
}

/// Stores cursor states under opaque ids, keeping the most recent ones.
pub struct CursorStore {
    counter: u64,
    /// Numeric ids of the stored cursors, oldest first.
    ids: Vec<u64>,
    /// The states, parallel to `ids`.
    states: Vec<CursorState>,
}

impl CursorStore {
    /// The last id handed out (zero before the first).
    pub closed spec fn counter(self) -> u64 {
        self.counter
    }

    /// Ids of the stored cursors, oldest first.
    pub closed spec fn ids(self) -> Seq<u64> {
        self.ids@
    }

    /// States of the stored cursors, parallel to [`Self::ids`].
    pub closed spec fn states(self) -> Seq<CursorState> {
        self.states@
    }

    /// At most [`MAX_CURSORS`] cursors, the `n` stored ones being the last
    /// `n` ids handed out, in order.
    pub closed spec fn wf(self) -> bool {
        &&& self.ids@.len() == self.states@.len()
        &&& self.ids@.len() <= MAX_CURSORS
        &&& forall|i: int| 0 <= i < self.ids@.len() ==> #[trigger] self.ids@[i] == id_back(self.counter, self.ids@.len() - 1 - i)
    }

    /// The state stored under `id`, if any.
    pub open spec fn lookup(self, id: Seq<char>) -> Option<CursorState> {
        let k = find_id(self.ids(), id);
        if 0 <= k < self.states().len() {
            Some(self.states()[k])
        } else {
            None
        }
    }

    /// An empty store.
    pub fn new() -> (r: Self)
        ensures
            r.wf(),
            r.counter() == 0,
            r.ids().len() == 0,
            r.states().len() == 0,
    {
        CursorStore { counter: 0, ids: Vec::new(), states: Vec::new() }
    }

    fn store_state(&mut self, state: CursorState) -> (r: String)
        requires
            old(self).wf(),
        ensures
            final(self).wf(),
            final(self).counter() == next_id(old(self).counter()),
            r@ == decimal(final(self).counter() as nat),
            final(self).ids() == evict(old(self).ids().push(final(self).counter())),
            final(self).states() == evict(old(self).states().push(state)),
    {
        let ghost old_ids = self.ids@;
        let ghost c0 = self.counter;
        self.counter = self.counter.wrapping_add(1);
        let id = self.counter;
        self.ids.push(id);
        self.states.push(state);
        proof {
            assert forall|i: int| 0 <= i < self.ids@.len() implies #[trigger] self.ids@[i] == id_back(self.counter, self.ids@.len() - 1 - i) by {
                if i < old_ids.len() {
                    assert(old_ids[i] == id_back(c0, old_ids.len() - 1 - i));
                }
            }
        }
        if self.ids.len() > MAX_CURSORS {
            self.ids.remove(0);
            self.states.remove(0);
            proof {
                assert forall|i: int| 0 <= i < self.ids@.len() implies #[trigger] self.ids@[i] == id_back(self.counter, self.ids@.len() - 1 - i) by {
                    assert(self.ids@[i] == old_ids.push(id)[i + 1]);
                }
            }
        }
        u64_to_string(id)
    }

    /// Store a resume offset and return the cursor's id.
    pub fn store(&mut self, file_offset: usize) -> (r: String)
        requires
            old(self).wf(),
        ensures
            final(self).wf(),
            final(self).counter() == next_id(old(self).counter()),
            r@ == decimal(final(self).counter() as nat),
            final(self).ids() == evict(old(self).ids().push(final(self).counter())),
            final(self).states() == evict(old(self).states().push(CursorState::FileOffset(file_offset))),
    {
        self.store_state(CursorState::FileOffset(file_offset))
    }

    /// Store a multi-pattern cursor and return its id.
    pub fn store_multi_grep(&mut self, cursor: MultiGrepCursor) -> (r: String)
        requires
            old(self).wf(),
        ensures
            final(self).wf(),
            final(self).counter() == next_id(old(self).counter()),
            r@ == decimal(final(self).counter() as nat),
            final(self).ids() == evict(old(self).ids().push(final(self).counter())),
            final(self).states() == evict(old(self).states().push(CursorState::MultiGrep(cursor))),
    {
        self.store_state(CursorState::MultiGrep(cursor))
    }

    /// Position of the cursor `id` in the store.
    fn position(&self, id: &str) -> (r: Option<usize>)
        requires
            self.wf(),
        ensures
            match r {
                Some(k) => k as int == find_id(self.ids(), id@) && k < self.states@.len(),
                None => find_id(self.ids(), id@) < 0,
            },
    {
        let mut i: usize = 0;
        while i < self.ids.len()
            invariant
                self.wf(),
                i <= self.ids@.len(),
                forall|j: int| 0 <= j < i ==> decimal(self.ids@[j] as nat) != id@,
            decreases self.ids@.len() - i,
        {
            let s = u64_to_string(self.ids[i]);
            if str_eq(s.as_str(), id) {
                proof {
                    lemma_find_id_first(self.ids@, id@, i as int);
                }
                return Some(i);
            }
            i = i + 1;
        }
        proof {
            lemma_find_id_absent(self.ids@, id@);
        }
        None
    }

    /// The resume offset stored under `id`; `None` for an unknown id or a
    /// multi-pattern cursor.
    pub fn get(&self, id: &str) -> (r: Option<usize>)
        requires
            self.wf(),
        ensures
            r == match self.lookup(id@) {
                Some(CursorState::FileOffset(o)) => Some(o),
                _ => None,
            },
    {
        match self.position(id) {
            Some(k) => match &self.states[k] {
                CursorState::FileOffset(o) => Some(*o),
                CursorState::MultiGrep(_) => None,
            },
            None => None,
        }
    }

    /// A copy of the multi-pattern cursor stored under `id`; `None` for an
    /// unknown id or a resume offset.
    pub fn get_multi_grep(&self, id: &str) -> (r: Option<MultiGrepCursor>)
        requires
            self.wf(),
        ensures
            match self.lookup(id@) {
                Some(CursorState::MultiGrep(c)) => r is Some && r->0.same(c),
                _ => r is None,
            },
    {
        match self.position(id) {
            Some(k) => match &self.states[k] {
                CursorState::FileOffset(_) => None,
                CursorState::MultiGrep(c) => Some(c.duplicate()),
            },
            None => None,
        }
    }
}

proof fn lemma_find_id_first(ids: Seq<u64>, id: Seq<char>, i: int)
    requires
        0 <= i < ids.len(),
        decimal(ids[i] as nat) == id,
        forall|j: int| 0 <= j < i ==> decimal(ids[j] as nat) != id,
    ensures
        find_id(ids, id) == i,
    decreases i,
{
    if i > 0 {
        let t = ids.drop_first();
        assert forall|j: int| 0 <= j < i - 1 implies decimal(t[j] as nat) != id by {
            assert(t[j] == ids[j + 1]);
        }
        lemma_find_id_first(t, id, i - 1);
    }
}

proof fn lemma_find_id_absent(ids: Seq<u64>, id: Seq<char>)
    requires
        forall|j: int| 0 <= j < ids.len() ==> decimal(ids[j] as nat) != id,
    ensures
        find_id(ids, id) < 0,
    decreases ids.len(),
{
    if ids.len() > 0 {
        let t = ids.drop_first();
        assert forall|j: int| 0 <= j < t.len() implies decimal(t[j] as nat) != id by {
            assert(t[j] == ids[j + 1]);
        }
        lemma_find_id_absent(t, id);
    }
}

/// A cursor just stored is found under the id it was given: storing `state`
/// in a well-formed store and then looking up the returned id gives `state`
/// back.
pub proof fn lemma_store_then_lookup(s: CursorStore, t: CursorStore, state: CursorState)
    requires
        s.wf(),
        t.counter() == next_id(s.counter()),
        t.ids() == evict(s.ids().push(t.counter())),
        t.states() == evict(s.states().push(state)),
    ensures
        t.lookup(decimal(t.counter() as nat)) == Some(state),
{
    let n = t.counter();
    let ids = t.ids();
    let last = ids.len() - 1;
    assert(ids[last] == n);
    assert forall|j: int| 0 <= j < last implies decimal(ids[j] as nat) != decimal(n as nat) by {
        if decimal(ids[j] as nat) == decimal(n as nat) {
            lemma_decimal_injective(ids[j] as nat, n as nat);
            let k = if s.ids().len() + 1 > MAX_CURSORS { j + 1 } else { j };
            assert(ids[j] == s.ids()[k]);
            assert(s.ids()[k] == id_back(s.counter(), s.ids().len() - 1 - k));
        }
    }
    lemma_find_id_first(ids, decimal(n as nat), last);
}

/// Once the store holds [`MAX_CURSORS`] cursors, storing one more drops
/// exactly the oldest: its id is no longer found, and every other stored
/// cursor is still found under its id with its state.
pub proof fn lemma_full_store_drops_oldest(s: CursorStore, t: CursorStore, state: CursorState)
    requires
        s.wf(),
        s.ids().len() == MAX_CURSORS,
        t.counter() == next_id(s.counter()),
        t.ids() == evict(s.ids().push(t.counter())),
        t.states() == evict(s.states().push(state)),
    ensures
        t.ids().len() == MAX_CURSORS,
        t.lookup(decimal(s.ids()[0] as nat)) is None,
        forall|i: int| 1 <= i < MAX_CURSORS ==> t.lookup(decimal(#[trigger] s.ids()[i] as nat)) == Some(s.states()[i]),
{
    let c = s.counter();
    let n = t.counter();
    let ids = t.ids();
    assert(ids =~= s.ids().drop_first().push(n));
    assert(t.states() =~= s.states().drop_first().push(state));
    assert forall|i: int| 0 <= i < 20 implies #[trigger] s.ids()[i] == id_back(c, 19 - i) by {}
    assert forall|j: int| 0 <= j < 20 implies #[trigger] ids[j] == (if j < 19 { s.ids()[j + 1] } else { n }) by {}
    // the ids of `t` and the dropped one are pairwise distinct
    assert forall|j: int| 0 <= j < 20 implies (#[trigger] ids[j]) != s.ids()[0] by {
        if j == 19 {
            assert(s.ids()[0] == id_back(c, 19));
        } else {
            assert(ids[j] == id_back(c, 18 - j));
            assert(s.ids()[0] == id_back(c, 19));
        }
    }
    assert forall|j: int| 0 <= j < 20 implies decimal((#[trigger] ids[j]) as nat) != decimal(s.ids()[0] as nat) by {
        if decimal(ids[j] as nat) == decimal(s.ids()[0] as nat) {
            lemma_decimal_injective(ids[j] as nat, s.ids()[0] as nat);
        }
    }
    lemma_find_id_absent(ids, decimal(s.ids()[0] as nat));
    assert forall|i: int| 1 <= i < MAX_CURSORS implies t.lookup(decimal(#[trigger] s.ids()[i] as nat)) == Some(s.states()[i]) by {
        let x = s.ids()[i];
        assert(ids[i - 1] == x);
        assert forall|j: int| 0 <= j < i - 1 implies decimal(ids[j] as nat) != decimal(x as nat) by {
            assert(ids[j] == s.ids()[j + 1]);
            assert(s.ids()[j + 1] == id_back(c, 18 - j));
            assert(x == id_back(c, 19 - i));
            if decimal(ids[j] as nat) == decimal(x as nat) {
                lemma_decimal_injective(ids[j] as nat, x as nat);
            }
        }
        lemma_find_id_first(ids, decimal(x as nat), i - 1);
        assert(t.states()[i - 1] == s.states()[i]);
    }
}

} // verus!
