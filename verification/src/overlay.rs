//! Changes to the content index since it was built: re-read bigram sets of
//! modified files, tombstones of deleted files, and bigram sets of added
//! files.

use vstd::prelude::*;
use crate::bigram::{dedup, extract_bigrams, lemma_dedup_contains, lemma_substring_pair_keys, pair_keys, words_for};
use crate::bitset::{bit_at, count_bits, count_bits_wide, lemma_mask_test, lemma_set_bit, word_bit};

verus! {

#[verifier::external_type_specification]
#[verifier::external_body]
#[verifier::reject_recursive_types(K)]
#[verifier::reject_recursive_types(V)]
#[verifier::reject_recursive_types(S)]
pub struct ExAHashMap<K, V, S>(ahash::AHashMap<K, V, S>);

#[verifier::external_type_specification]
#[verifier::external_body]
pub struct ExRandomState(ahash::RandomState);

/// The entries of a map from file index to bigram set.
pub uninterp spec fn modified_entries(m: ahash::AHashMap<usize, Vec<u16>>) -> Map<usize, Seq<u16>>;

/// `AHashMap::new`. Claimed: the map is empty.
#[verifier::external_body]
fn modified_new() -> (r: ahash::AHashMap<usize, Vec<u16>>)
    ensures
        modified_entries(r).dom().is_empty(),
{
    ahash::AHashMap::new()
}

/// `AHashMap::insert`. Claimed: the entry for `k` becomes `v`, the others stay.
#[verifier::external_body]
fn modified_insert(m: &mut ahash::AHashMap<usize, Vec<u16>>, k: usize, v: Vec<u16>)
    ensures
        modified_entries(*final(m)) == modified_entries(*old(m)).insert(k, v@),
{
    m.insert(k, v);
}

/// `AHashMap::remove`. Claimed: the entry for `k` is gone, the others stay.
#[verifier::external_body]
fn modified_remove(m: &mut ahash::AHashMap<usize, Vec<u16>>, k: usize)
    ensures
        modified_entries(*final(m)) == modified_entries(*old(m)).remove(k),
{
    m.remove(&k);
}

/// `AHashMap::get`. Claimed: the entry for `k`, if there is one.
#[verifier::external_body]
fn modified_get(m: &ahash::AHashMap<usize, Vec<u16>>, k: usize) -> (r: Option<&Vec<u16>>)
    ensures
        match r {
            Some(v) => modified_entries(*m).contains_key(k) && v@ == modified_entries(*m)[k],
            None => !modified_entries(*m).contains_key(k),
        },
{
    m.get(&k)
}

/// The keys of the map, via `HashMap::keys`. Claimed: each key once, in
/// some order.
#[verifier::external_body]
fn modified_keys(m: &ahash::AHashMap<usize, Vec<u16>>) -> (r: Vec<usize>)
    ensures
        r@.no_duplicates(),
        r@.to_set() == modified_entries(*m).dom(),
{
    m.keys().copied().collect()
}

/// `HashMap::len`. Claimed: the number of entries.
#[verifier::external_body]
fn modified_len(m: &ahash::AHashMap<usize, Vec<u16>>) -> (r: usize)
    ensures
        r == modified_entries(*m).dom().len(),
{
    m.len()
}

/// Whether `set` holds every element of `pattern`.
pub open spec fn holds_all(set: Seq<u16>, pattern: Seq<u16>) -> bool {
    forall|j: int| 0 <= j < pattern.len() ==> set.contains(#[trigger] pattern[j])
}

/// Indices of the first `n` added files whose bigram sets hold every
/// pattern bigram, in order.
pub open spec fn added_matches(added: Seq<Seq<u16>>, pattern: Seq<u16>, n: nat) -> Seq<usize>
    decreases n,
{
    if n == 0 {
        seq![]
    } else {
        let prev = added_matches(added, pattern, (n - 1) as nat);
        if holds_all(added[n - 1], pattern) { prev.push((n - 1) as usize) } else { prev }
    }
}

/// Bigram changes since the base index was built: bigram sets of modified
/// base files, tombstones of deleted base files (one bit per file), and
/// bigram sets of files added since.
pub struct BigramOverlay {
    modified: ahash::AHashMap<usize, Vec<u16>>,
    tombstones: Vec<u64>,
    added: Vec<Vec<u16>>,
    base_file_count: usize,
}

impl BigramOverlay {
    /// Bigram sets of modified base files, by file index.
    pub closed spec fn modified_view(&self) -> Map<usize, Seq<u16>> {
        modified_entries(self.modified)
    }

    /// Tombstone bits, one per base file.
    pub closed spec fn tombstone_words(&self) -> Seq<u64> {
        self.tombstones@
    }

    /// Bigram sets of added files, in order of addition.
    pub closed spec fn added_view(&self) -> Seq<Seq<u16>> {
        self.added@.map_values(|v: Vec<u16>| v@)
    }

    pub closed spec fn spec_base_file_count(&self) -> nat {
        self.base_file_count as nat
    }

    /// One tombstone bit per base file, and finitely many modified files.
    pub closed spec fn wf(&self) -> bool {
        &&& self.tombstones@.len() == words_for(self.base_file_count as nat)
        &&& modified_entries(self.modified).dom().finite()
    }

    /// An empty overlay over `base_file_count` base files.
    pub fn new(base_file_count: usize) -> (r: Self)
        ensures
            r.wf(),
            r.modified_view().dom().is_empty(),
            r.added_view().len() == 0,
            r.spec_base_file_count() == base_file_count,
            forall|f: int| !bit_at(r.tombstone_words(), f),
    {
        let words = base_file_count / 64 + if base_file_count % 64 != 0 { 1 } else { 0 };
        let r = BigramOverlay {
            modified: modified_new(),
            tombstones: vec![0u64; words],
            added: Vec::new(),
            base_file_count,
        };
        proof {
            assert(r.added_view() =~= Seq::<Seq<u16>>::empty());
            assert forall|f: int| !bit_at(r.tombstone_words(), f) by {
                if 0 <= f && f / 64 < words {
                    assert(r.tombstones@[f / 64] == 0u64);
                    crate::bitset::lemma_zero_word((f % 64) as u64);
                }
            }
        }
        r
    }

    /// Record the re-read content of modified base file `file_idx`: its
    /// bigram set replaces any earlier one.
    pub fn modify_file(&mut self, file_idx: usize, content: &[u8])
        requires
            old(self).wf(),
        ensures
            final(self).wf(),
            final(self).modified_view() == old(self).modified_view().insert(file_idx, dedup(pair_keys(content@, 1))),
            final(self).tombstone_words() == old(self).tombstone_words(),
            final(self).added_view() == old(self).added_view(),
            final(self).spec_base_file_count() == old(self).spec_base_file_count(),
    {
        let bigrams = extract_bigrams(content);
        modified_insert(&mut self.modified, file_idx, bigrams);
    }

    /// Tombstone a deleted base file (indices past the base are not
    /// tombstoned) and forget any modified content of it.
    pub fn delete_file(&mut self, file_idx: usize)
        requires
            old(self).wf(),
        ensures
            final(self).wf(),
            final(self).modified_view() == old(self).modified_view().remove(file_idx),
            final(self).tombstone_words().len() == old(self).tombstone_words().len(),
            forall|f: int| #[trigger] bit_at(final(self).tombstone_words(), f) == (bit_at(old(self).tombstone_words(), f)
                || (f == file_idx && file_idx < old(self).spec_base_file_count())),
            final(self).added_view() == old(self).added_view(),
            final(self).spec_base_file_count() == old(self).spec_base_file_count(),
    {
        let ghost t0 = self.tombstones@;
        if file_idx < self.base_file_count {
            let word = file_idx / 64;
            let bit = (file_idx % 64) as u64;
            let w = self.tombstones[word] | (1u64 << bit);
            self.tombstones.set(word, w);
            proof {
                assert forall|f: int| #[trigger] bit_at(self.tombstones@, f) == (bit_at(t0, f) || f == file_idx) by {
                    if 0 <= f && f / 64 < t0.len() {
                        lemma_set_bit(t0[word as int], bit, (f % 64) as u64);
                    }
                }
            }
        }
        modified_remove(&mut self.modified, file_idx);
    }

    /// Record the content of a file added since the base was built.
    pub fn add_file(&mut self, content: &[u8])
        requires
            old(self).wf(),
        ensures
            final(self).wf(),
            final(self).added_view() == old(self).added_view().push(dedup(pair_keys(content@, 1))),
            final(self).modified_view() == old(self).modified_view(),
            final(self).tombstone_words() == old(self).tombstone_words(),
            final(self).spec_base_file_count() == old(self).spec_base_file_count(),
    {
        let bigrams = extract_bigrams(content);
        self.added.push(bigrams);
        proof {
            assert(self.added_view() =~= old(self).added_view().push(dedup(pair_keys(content@, 1))));
        }
    }

    /// Modified base files whose bigram sets hold every pattern bigram, each
    /// once, in no particular order.
    pub fn query_modified(&self, pattern_bigrams: &[u16]) -> (r: Vec<usize>)
        ensures
            r@.no_duplicates(),
            forall|k: usize| #[trigger] r@.contains(k) <==> (self.modified_view().contains_key(k)
                && holds_all(self.modified_view()[k], pattern_bigrams@)),
    {
        let keys = modified_keys(&self.modified);
        let mut out: Vec<usize> = Vec::new();
        let mut i: usize = 0;
        while i < keys.len()
            invariant
                i <= keys@.len(),
                keys@.no_duplicates(),
                keys@.to_set() == self.modified_view().dom(),
                out@.no_duplicates(),
                forall|k: usize| #[trigger] out@.contains(k) <==> (keys@.take(i as int).contains(k)
                    && holds_all(self.modified_view()[k], pattern_bigrams@)),
            decreases keys@.len() - i,
        {
            let k = keys[i];
            proof {
                assert(keys@.to_set().contains(k));
                assert(!keys@.take(i as int).contains(k)) by {
                    if keys@.take(i as int).contains(k) {
                        let t = choose|t: int| 0 <= t < i && keys@.take(i as int)[t] == k;
                        assert(keys@[t] == keys@[i as int]);
                    }
                }
                assert(keys@.take(i + 1) =~= keys@.take(i as int).push(k));
                assert forall|y: usize| #[trigger] keys@.take(i + 1).contains(y) == (keys@.take(i as int).contains(y) || y == k) by {
                    lemma_push_has(keys@.take(i as int), k, y);
                }
            }
            match modified_get(&self.modified, k) {
                Some(bigrams) => {
                    if contains_all(bigrams, pattern_bigrams) {
                        let ghost o0 = out@;
                        out.push(k);
                        proof {
                            assert forall|a: int, b: int| 0 <= a < b < out@.len() implies out@[a] != out@[b] by {
                                if b == out@.len() - 1 {
                                    assert(o0.contains(out@[a]));
                                }
                            }
                            assert(out@ =~= o0.push(k));
                            assert forall|y: usize| #[trigger] out@.contains(y) == (o0.contains(y) || y == k) by {
                                lemma_push_has(o0, k, y);
                            }
                        }
                    }
                },
                None => {},
            }
            i = i + 1;
        }
        proof {
            assert(keys@.take(keys@.len() as int) =~= keys@);
            assert forall|k: usize| #[trigger] out@.contains(k) <==> (self.modified_view().contains_key(k)
                && holds_all(self.modified_view()[k], pattern_bigrams@)) by {
                assert(keys@.to_set().contains(k) == keys@.contains(k));
            }
        }
        out
    }

    /// Added files whose bigram sets hold every pattern bigram, by index in
    /// order of addition.
    pub fn query_added(&self, pattern_bigrams: &[u16]) -> (r: Vec<usize>)
        ensures
            r@ == added_matches(self.added_view(), pattern_bigrams@, self.added_view().len()),
    {
        let mut out: Vec<usize> = Vec::new();
        let mut i: usize = 0;
        while i < self.added.len()
            invariant
                i <= self.added@.len(),
                out@ == added_matches(self.added_view(), pattern_bigrams@, i as nat),
            decreases self.added@.len() - i,
        {
            proof {
                assert(self.added_view()[i as int] == self.added@[i as int]@);
            }
            if contains_all(&self.added[i], pattern_bigrams) {
                out.push(i);
            }
            i = i + 1;
        }
        out
    }

    /// The tombstone bitset, one bit per base file.
    pub fn tombstones(&self) -> (r: &[u64])
        ensures
            r@ == self.tombstone_words(),
    {
        self.tombstones.as_slice()
    }

    /// Whether base file `file_idx` is tombstoned.
    pub fn is_tombstoned(&self, file_idx: usize) -> (r: bool)
        ensures
            r == bit_at(self.tombstone_words(), file_idx as int),
    {
        crate::bigram::BigramFilter::is_candidate(self.tombstones.as_slice(), file_idx)
    }

    /// Number of base files the overlay was made for.
    pub fn base_file_count(&self) -> (r: usize)
        ensures
            r == self.spec_base_file_count(),
    {
        self.base_file_count
    }

    /// Forget added file `idx` (later ones move down); nothing for an index
    /// past the end.
    pub fn remove_added(&mut self, idx: usize)
        requires
            old(self).wf(),
        ensures
            final(self).wf(),
            final(self).added_view() == if idx < old(self).added_view().len() {
                old(self).added_view().remove(idx as int)
            } else {
                old(self).added_view()
            },
            final(self).modified_view() == old(self).modified_view(),
            final(self).tombstone_words() == old(self).tombstone_words(),
            final(self).spec_base_file_count() == old(self).spec_base_file_count(),
    {
        if idx < self.added.len() {
            self.added.remove(idx);
            proof {
                assert(self.added_view() =~= old(self).added_view().remove(idx as int));
            }
        }
    }

    /// Replace the bigram set of added file `idx`; nothing for an index past
    /// the end.
    pub fn update_added(&mut self, idx: usize, bigrams: Vec<u16>)
        requires
            old(self).wf(),
        ensures
            final(self).wf(),
            final(self).added_view() == if idx < old(self).added_view().len() {
                old(self).added_view().update(idx as int, bigrams@)
            } else {
                old(self).added_view()
            },
            final(self).modified_view() == old(self).modified_view(),
            final(self).tombstone_words() == old(self).tombstone_words(),
            final(self).spec_base_file_count() == old(self).spec_base_file_count(),
    {
        if idx < self.added.len() {
            let ghost b = bigrams@;
            self.added.set(idx, bigrams);
            proof {
                assert(self.added_view() =~= old(self).added_view().update(idx as int, b));
            }
        }
    }

    /// Entries tracked: modified files, added files and tombstones (past
    /// some size a rebuild of the base pays off).
    pub fn overlay_size(&self) -> (r: usize)
        requires
            self.modified_view().dom().len() + self.added_view().len() + count_bits(self.tombstone_words()) <= usize::MAX,
        ensures
            r == self.modified_view().dom().len() + self.added_view().len() + count_bits(self.tombstone_words()),
    {
        let m = modified_len(&self.modified);
        let bits = count_bits_wide(self.tombstones.as_slice());
        m + self.added.len() + bits as usize
    }
}

/// Law: a re-read file whose content contains the searched text holds every
/// bigram of that text, so a query with the text's bigrams after
/// [`BigramOverlay::modify_file`] (or [`BigramOverlay::add_file`]) reports it.
pub proof fn lemma_containing_content_holds_pattern(content: Seq<u8>, pattern: Seq<u8>, a: int)
    requires
        0 <= a,
        a + pattern.len() <= content.len(),
        content.subrange(a, a + pattern.len()) == pattern,
    ensures
        holds_all(dedup(pair_keys(content, 1)), dedup(pair_keys(pattern, 1))),
{
    let pk = dedup(pair_keys(pattern, 1));
    assert forall|j: int| 0 <= j < pk.len() implies dedup(pair_keys(content, 1)).contains(#[trigger] pk[j]) by {
        let k = pk[j];
        assert(pk.contains(k));
        lemma_dedup_contains(pair_keys(pattern, 1), k);
        lemma_substring_pair_keys(content, pattern, a, 1, k);
        lemma_dedup_contains(pair_keys(content, 1), k);
    }
}

proof fn lemma_push_has<A>(s: Seq<A>, x: A, y: A)
    ensures
        s.push(x).contains(y) == (s.contains(y) || y == x),
{
    if s.push(x).contains(y) {
        let t = choose|t: int| 0 <= t < s.push(x).len() && s.push(x)[t] == y;
        if t < s.len() {
            assert(s[t] == y);
        }
    }
    if s.contains(y) {
        let t = choose|t: int| 0 <= t < s.len() && s[t] == y;
        assert(s.push(x)[t] == y);
    }
    if y == x {
        assert(s.push(x)[s.len() as int] == y);
    }
}

/// Whether `set` holds every element of `pattern`.
fn contains_all(set: &Vec<u16>, pattern: &[u16]) -> (r: bool)
    ensures
        r == holds_all(set@, pattern@),
{
    let mut j: usize = 0;
    while j < pattern.len()
        invariant
            j <= pattern@.len(),
            forall|t: int| 0 <= t < j ==> set@.contains(#[trigger] pattern@[t]),
        decreases pattern@.len() - j,
    {
        let pb = pattern[j];
        let mut found = false;
        let mut i: usize = 0;
        while i < set.len()
            invariant
                i <= set@.len(),
                found == exists|t: int| 0 <= t < i && set@[t] == pb,
            decreases set@.len() - i,
        {
            if set[i] == pb {
                found = true;
            }
            i = i + 1;
        }
        if !found {
            return false;
        }
        j = j + 1;
    }
    true
}

} // verus!
