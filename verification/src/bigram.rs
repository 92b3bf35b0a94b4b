//! Bigram inverted index over file contents.
//!
//! A bigram is a pair of printable ASCII bytes (32..=126), lowercased and
//! packed as `(first << 8) | second`. Consecutive bigrams pair byte `i` with
//! byte `i + 1`; skip bigrams pair byte `i` with byte `i + 2`.

use vstd::prelude::*;
use crate::bitset::{
    and_words, bitset_and, count_bits_wide, bit_at, count_bits, lemma_count_bits_bound, lemma_mask_test, lemma_set_bit, lemma_zero_word,
    word_bit, word_popcount, lemma_and_bit, count_set_bits, set_below, lemma_count_bits_is_set_below,
};

verus! {

/// Printable ASCII range tracked by the index.
pub open spec fn is_printable(b: u8) -> bool {
    32 <= b && b <= 126
}

/// ASCII lowercase of a byte.
pub open spec fn lower(b: u8) -> u8 {
    if 65 <= b && b <= 90 {
        (b + 32) as u8
    } else {
        b
    }
}

/// Packed key of the bigram `(a, b)`.
pub open spec fn key_of(a: u8, b: u8) -> u16 {
    (lower(a) as int * 256 + lower(b) as int) as u16
}

/// Keys of all printable pairs `(s[i], s[i + d])`, in order of `i`.
pub open spec fn pair_keys(s: Seq<u8>, d: nat) -> Seq<u16>
    decreases s.len(),
{
    if s.len() <= d {
        seq![]
    } else {
        let rest = pair_keys(s.drop_last(), d);
        let a = s[s.len() - 1 - d];
        let b = s[s.len() - 1];
        if is_printable(a) && is_printable(b) {
            rest.push(key_of(a, b))
        } else {
            rest
        }
    }
}

/// The sequence with every repeated element removed, first occurrences kept in order.
pub open spec fn dedup(s: Seq<u16>) -> Seq<u16>
    decreases s.len(),
{
    if s.len() == 0 {
        seq![]
    } else {
        let r = dedup(s.drop_last());
        if r.contains(s.last()) {
            r
        } else {
            r.push(s.last())
        }
    }
}

pub proof fn lemma_push_contains(s: Seq<u16>, x: u16, k: u16)
    ensures
        s.push(x).contains(k) == (s.contains(k) || k == x),
{
    if s.contains(k) {
        let j = choose|j: int| 0 <= j < s.len() && s[j] == k;
        assert(s.push(x)[j] == k);
    }
    if k == x {
        assert(s.push(x)[s.len() as int] == k);
    }
    if s.push(x).contains(k) && k != x {
        let j = choose|j: int| 0 <= j < s.len() + 1 && s.push(x)[j] == k;
        assert(s[j] == k);
    }
}

pub proof fn lemma_dedup_contains(s: Seq<u16>, k: u16)
    ensures
        dedup(s).contains(k) == s.contains(k),
    decreases s.len(),
{
    if s.len() > 0 {
        let p = s.drop_last();
        lemma_dedup_contains(p, k);
        lemma_dedup_contains(p, s.last());
        assert(s =~= p.push(s.last()));
        lemma_push_contains(p, s.last(), k);
        lemma_push_contains(dedup(p), s.last(), k);
    }
}

pub proof fn lemma_pair_keys_step(s: Seq<u8>, d: nat, i: int)
    requires
        d <= i < s.len(),
    ensures
        s.take(i + 1).drop_last() =~= s.take(i),
        pair_keys(s.take(i + 1), d) == (if is_printable(s[i - d]) && is_printable(s[i]) {
            pair_keys(s.take(i), d).push(key_of(s[i - d], s[i]))
        } else {
            pair_keys(s.take(i), d)
        }),
{
    assert(s.take(i + 1).drop_last() =~= s.take(i));
}

/// ASCII lowercase of a byte.
pub fn ascii_lower(b: u8) -> (r: u8)
    ensures
        r == lower(b),
{
    if b >= 65 && b <= 90 {
        b + 32
    } else {
        b
    }
}

/// Packed bigram key of two printable bytes.
pub fn bigram_key(a: u8, b: u8) -> (k: u16)
    requires
        is_printable(a),
        is_printable(b),
    ensures
        k == key_of(a, b),
{
    let la = ascii_lower(a) as u16;
    let lb = ascii_lower(b) as u16;
    la * 256 + lb
}

pub proof fn lemma_key_split(k: u16, key: u16)
    ensures
        (k as int / 64 == key as int / 64 && k as int % 64 == key as int % 64) ==> k == key,
{
}

/// Deduplicated consecutive bigram keys of `content`, in order of first occurrence.
pub fn extract_bigrams(content: &[u8]) -> (r: Vec<u16>)
    ensures
        r@ == dedup(pair_keys(content@, 1)),
{
    if content.len() < 2 {
        return Vec::new();
    }
    let mut seen: Vec<u64> = vec![0u64; 1024];
    let mut bigrams: Vec<u16> = Vec::new();
    proof {
        assert(content@.take(1) =~= seq![content@[0]]);
        assert(pair_keys(content@.take(1), 1) =~= Seq::<u16>::empty());
        assert forall|k: int| 0 <= k < 65536 implies !bit_at(seen@, k) by {
            assert(seen@[k / 64] == 0u64);
            lemma_zero_word((k % 64) as u64);
        }
    }
    let mut i: usize = 1;
    while i < content.len()
        invariant
            1 <= i <= content@.len(),
            seen@.len() == 1024,
            bigrams@ == dedup(pair_keys(content@.take(i as int), 1)),
            forall|k: int| 0 <= k < 65536 ==> (bit_at(seen@, k) <==> bigrams@.contains(k as u16)),
        decreases content@.len() - i,
    {
        let prev = content[i - 1];
        let b = content[i];
        proof {
            lemma_pair_keys_step(content@, 1, i as int);
        }
        if prev >= 32 && prev <= 126 && b >= 32 && b <= 126 {
            let key = bigram_key(prev, b);
            let word = (key / 64) as usize;
            let bit = (key % 64) as u64;
            let w = seen[word];
            proof {
                lemma_mask_test(w, bit);
                assert(bit_at(seen@, key as int) == (w & (1u64 << bit) != 0));
                assert((key as int) as u16 == key);
                let ghost pk = pair_keys(content@.take(i as int), 1);
                assert(pk.push(key).drop_last() =~= pk);
            }
            if w & (1u64 << bit) == 0 {
                let ghost old_seen = seen@;
                let ghost old_big = bigrams@;
                seen.set(word, w | (1u64 << bit));
                bigrams.push(key);
                proof {
                    assert(bigrams@ =~= old_big.push(key));
                    assert forall|k: int| 0 <= k < 65536 implies (bit_at(seen@, k)
                        <==> bigrams@.contains(k as u16)) by {
                        lemma_push_contains(old_big, key, k as u16);
                        lemma_key_split(k as u16, key);
                        assert(bit_at(old_seen, k) <==> old_big.contains(k as u16));
                        if k / 64 == word as int {
                            lemma_set_bit(w, bit, (k % 64) as u64);
                            assert(seen@[k / 64] == w | (1u64 << bit));
                            assert(old_seen[k / 64] == w);
                        } else {
                            assert(seen@[k / 64] == old_seen[k / 64]);
                        }
                    }
                    assert(!old_big.contains(key));
                }
            } else {
                proof {
                    assert(bigrams@.contains(key));
                }
            }
        }
        i = i + 1;
    }
    assert(content@.take(i as int) =~= content@);
    bigrams
}


/// Maximum number of distinct bigrams that get a column in the builder.
pub const MAX_BIGRAM_COLUMNS: usize = 5000;

/// Lookup sentinel: the bigram has no column.
pub const NO_COLUMN: u32 = 0xFFFF_FFFF;

/// Number of 64-bit words needed for `n` bits.
pub open spec fn words_for(n: nat) -> nat {
    (n + 63) / 64
}

/// Column allocation order after feeding the keys `ks` to a builder whose
/// allocated keys are `order`: each key not yet allocated gets the next
/// column while fewer than `MAX_BIGRAM_COLUMNS` are in use.
pub open spec fn alloc_after(order: Seq<u16>, ks: Seq<u16>) -> Seq<u16>
    decreases ks.len(),
{
    if ks.len() == 0 {
        order
    } else {
        let o = alloc_after(order, ks.drop_last());
        if o.contains(ks.last()) || o.len() >= MAX_BIGRAM_COLUMNS {
            o
        } else {
            o.push(ks.last())
        }
    }
}

/// A bitset of `n` words, all zero.
pub open spec fn zero_words(n: nat) -> Seq<u64> {
    Seq::new(n, |i: int| 0u64)
}

pub proof fn lemma_zero_column_bits(n: nat)
    ensures
        forall|f: int| !bit_at(zero_words(n), f),
{
    assert forall|f: int| !bit_at(zero_words(n), f) by {
        if 0 <= f && f / 64 < n {
            lemma_zero_word((f % 64) as u64);
        }
    }
}

/// Dense builder for the bigram index: one column (a bitset over file
/// indices) per allocated bigram, allocated on the first file that contains it.
pub struct BigramIndexBuilder {
    lookup: Vec<u32>,
    columns: Vec<Vec<u64>>,
    order: Ghost<Seq<u16>>,
    words: usize,
    file_count: usize,
    populated: usize,
}

impl BigramIndexBuilder {
    /// Internal consistency of the builder.
    pub closed spec fn wf(&self) -> bool {
        &&& self.lookup@.len() == 65536
        &&& self.columns@.len() == self.order@.len()
        &&& self.order@.len() <= MAX_BIGRAM_COLUMNS
        &&& self.words as nat == words_for(self.file_count as nat)
        &&& forall|c: int| 0 <= c < self.columns@.len() ==> #[trigger] self.columns@[c]@.len() == self.words
        &&& forall|k: int| 0 <= k < 65536 ==> ((#[trigger] self.lookup@[k] == NO_COLUMN) <==> !self.order@.contains(k as u16))
        &&& forall|k: int| 0 <= k < 65536 && #[trigger] self.lookup@[k] != NO_COLUMN ==> self.lookup@[k] < self.order@.len() && self.order@[self.lookup@[k] as int] == k as u16
        &&& forall|c: int| 0 <= c < self.order@.len() ==> self.lookup@[#[trigger] self.order@[c] as int] == c
    }

    /// Bigram keys that own a column, in allocation order.
    pub closed spec fn keys(&self) -> Seq<u16> {
        self.order@
    }

    /// The column of `k`: its bitset over file indices (all zero if `k` has no column).
    pub closed spec fn column(&self, k: u16) -> Seq<u64> {
        if self.order@.contains(k) {
            self.columns@[self.lookup@[k as int] as int]@
        } else {
            zero_words(self.words as nat)
        }
    }

    pub closed spec fn spec_file_count(&self) -> nat {
        self.file_count as nat
    }

    pub closed spec fn spec_words(&self) -> nat {
        self.words as nat
    }

    pub closed spec fn spec_populated(&self) -> nat {
        self.populated as nat
    }

    /// An empty builder for `file_count` files.
    pub fn new(file_count: usize) -> (r: Self)
        ensures
            r.wf(),
            r.keys() == Seq::<u16>::empty(),
            r.spec_file_count() == file_count,
            r.spec_words() == words_for(file_count as nat),
            r.spec_populated() == 0,
    {
        let words = file_count / 64 + if file_count % 64 != 0 { 1 } else { 0 };
        let lookup = vec![NO_COLUMN; 65536];
        let r = BigramIndexBuilder {
            lookup,
            columns: Vec::new(),
            order: Ghost(Seq::empty()),
            words,
            file_count,
            populated: 0,
        };
        proof {
            assert forall|k: int| 0 <= k < 65536 implies ((#[trigger] r.lookup@[k] == NO_COLUMN) <==> !r.order@.contains(k as u16)) by {
                assert(r.lookup@[k] == NO_COLUMN);
            }
        }
        r
    }

    /// Column index of `key`, allocating a fresh zeroed column while capacity remains.
    fn get_or_alloc_column(&mut self, key: u16) -> (col: u32)
        requires
            old(self).wf(),
        ensures
            final(self).wf(),
            final(self).keys() == (if old(self).keys().contains(key) || old(self).keys().len() >= MAX_BIGRAM_COLUMNS {
                old(self).keys()
            } else {
                old(self).keys().push(key)
            }),
            final(self).spec_file_count() == old(self).spec_file_count(),
            final(self).spec_words() == old(self).spec_words(),
            final(self).spec_populated() == old(self).spec_populated(),
            forall|k: u16| #[trigger] old(self).keys().contains(k) ==> final(self).column(k) == old(self).column(k),
            !old(self).keys().contains(key) && final(self).keys().contains(key) ==> final(self).column(key) == zero_words(final(self).spec_words()),
            col == NO_COLUMN <==> !final(self).keys().contains(key),
            col != NO_COLUMN ==> col == final(self).lookup@[key as int] && col < final(self).columns@.len(),
    {
        let current = self.lookup[key as usize];
        if current != NO_COLUMN {
            return current;
        }
        let new_col = self.columns.len();
        if new_col >= MAX_BIGRAM_COLUMNS {
            return NO_COLUMN;
        }
        let ghost old_self = *self;
        let zeros: Vec<u64> = vec![0u64; self.words];
        self.columns.push(zeros);
        self.lookup.set(key as usize, new_col as u32);
        self.order = Ghost(self.order@.push(key));
        proof {
            let o = old_self.order@;
            assert forall|k: int| 0 <= k < 65536 implies ((#[trigger] self.lookup@[k] == NO_COLUMN) <==> !self.order@.contains(k as u16)) by {
                crate::bigram::lemma_push_contains(o, key, k as u16);
                if k != key as int {
                    assert(self.lookup@[k] == old_self.lookup@[k]);
                    assert(k as u16 != key);
                }
            }
            assert forall|k: int| 0 <= k < 65536 && #[trigger] self.lookup@[k] != NO_COLUMN implies self.lookup@[k] < self.order@.len() && self.order@[self.lookup@[k] as int] == k as u16 by {
                if k != key as int {
                    assert(self.lookup@[k] == old_self.lookup@[k]);
                }
            }
            assert forall|c: int| 0 <= c < self.order@.len() implies self.lookup@[#[trigger] self.order@[c] as int] == c by {
                if c < o.len() {
                    assert(self.order@[c] == o[c]);
                    assert(o[c] != key);
                }
            }
            assert forall|c: int| 0 <= c < self.columns@.len() implies #[trigger] self.columns@[c]@.len() == self.words by {
                if c < o.len() {
                    assert(self.columns@[c] == old_self.columns@[c]);
                }
            }
            assert forall|k: u16| #[trigger] o.contains(k) implies self.column(k) == old_self.column(k) by {
                crate::bigram::lemma_push_contains(o, key, k);
                assert(k != key);
                assert(self.lookup@[k as int] == old_self.lookup@[k as int]);
                let c = old_self.lookup@[k as int] as int;
                assert(self.columns@[c] == old_self.columns@[c]);
            }
            crate::bigram::lemma_push_contains(o, key, key);
            assert(self.columns@[new_col as int]@ =~= zero_words(self.words as nat));
        }
        new_col as u32
    }

    /// Mark file `file_idx` in column `col`.
    fn set_file_bit(&mut self, col: u32, file_idx: usize)
        requires
            old(self).wf(),
            col < old(self).columns@.len(),
            file_idx < old(self).file_count,
        ensures
            final(self).wf(),
            final(self).keys() == old(self).keys(),
            final(self).lookup@ == old(self).lookup@,
            final(self).spec_file_count() == old(self).spec_file_count(),
            final(self).spec_words() == old(self).spec_words(),
            final(self).spec_populated() == old(self).spec_populated(),
            forall|k: u16, f: int| #![trigger bit_at(final(self).column(k), f)] old(self).keys().contains(k) ==>
                (bit_at(final(self).column(k), f) == (bit_at(old(self).column(k), f)
                    || (f == file_idx && old(self).lookup@[k as int] == col))),
    {
        let ghost old_self = *self;
        let word_idx = file_idx / 64;
        let bit = (file_idx % 64) as u64;
        let c = col as usize;
        let w = self.columns[c][word_idx];
        let nw = w | (1u64 << bit);
        let mut column: Vec<u64> = Vec::new();
        std::mem::swap(&mut column, &mut self.columns[c]);
        column.set(word_idx, nw);
        std::mem::swap(&mut column, &mut self.columns[c]);
        proof {
            assert forall|cc: int| 0 <= cc < self.columns@.len() implies #[trigger] self.columns@[cc]@.len() == self.words by {
                if cc != c as int {
                    assert(self.columns@[cc] == old_self.columns@[cc]);
                }
            }
            assert forall|k: u16, f: int| #![trigger bit_at(self.column(k), f)] old_self.keys().contains(k) implies
                (bit_at(self.column(k), f) == (bit_at(old_self.column(k), f)
                    || (f == file_idx && old_self.lookup@[k as int] == col))) by {
                let kc = old_self.lookup@[k as int] as int;
                if kc != c as int {
                    assert(self.columns@[kc] == old_self.columns@[kc]);
                } else if 0 <= f && f / 64 == word_idx as int {
                    lemma_set_bit(w, bit, (f % 64) as u64);
                    assert(self.columns@[kc]@[f / 64] == nw);
                } else if 0 <= f && f / 64 < self.words {
                    assert(self.columns@[kc]@[f / 64] == old_self.columns@[kc]@[f / 64]);
                }
            }
        }
    }

    /// Index every printable pair `(content[i - d], content[i])` of one file.
    fn add_pairs(&mut self, file_idx: usize, content: &[u8], d: usize)
        requires
            old(self).wf(),
            file_idx < old(self).spec_file_count(),
            1 <= d <= 2,
        ensures
            final(self).wf(),
            final(self).spec_file_count() == old(self).spec_file_count(),
            final(self).spec_words() == old(self).spec_words(),
            final(self).spec_populated() == old(self).spec_populated(),
            final(self).keys() == alloc_after(old(self).keys(), pair_keys(content@, d as nat)),
            forall|k: u16, f: int| #![trigger bit_at(final(self).column(k), f)] final(self).keys().contains(k) ==>
                (bit_at(final(self).column(k), f) == (bit_at(old(self).column(k), f)
                    || (f == file_idx && pair_keys(content@, d as nat).contains(k)))),
    {
        let ghost old_self = *self;
        proof {
            lemma_zero_column_bits(old_self.words as nat);
            if content@.len() > d {
                assert(pair_keys(content@.take(d as int), d as nat) =~= Seq::<u16>::empty());
            }
        }
        if content.len() <= d {
            proof {
                assert(pair_keys(content@, d as nat) =~= Seq::<u16>::empty());
            }
            return;
        }
        let mut i: usize = d;
        while i < content.len()
            invariant
                d <= i <= content@.len(),
                1 <= d <= 2,
                self.wf(),
                file_idx < self.file_count,
                self.file_count == old_self.file_count,
                self.words == old_self.words,
                self.populated == old_self.populated,
                self.keys() == alloc_after(old_self.keys(), pair_keys(content@.take(i as int), d as nat)),
                forall|k: u16| #[trigger] old_self.keys().contains(k) ==> self.keys().contains(k),
                self.keys().len() < MAX_BIGRAM_COLUMNS ==> forall|k: u16| #[trigger] pair_keys(content@.take(i as int), d as nat).contains(k) ==> self.keys().contains(k),
                forall|k: u16, f: int| #![trigger bit_at(self.column(k), f)] self.keys().contains(k) ==>
                    (bit_at(self.column(k), f) == (bit_at(old_self.column(k), f)
                        || (f == file_idx && pair_keys(content@.take(i as int), d as nat).contains(k)))),
                forall|f: int| !bit_at(zero_words(old_self.words as nat), f),
            decreases content@.len() - i,
        {
            let a = content[i - d];
            let b = content[i];
            let ghost pk = pair_keys(content@.take(i as int), d as nat);
            let ghost before = *self;
            proof {
                lemma_pair_keys_step(content@, d as nat, i as int);
            }
            if a >= 32 && a <= 126 && b >= 32 && b <= 126 {
                let key = bigram_key(a, b);
                proof {
                    assert(pk.push(key).drop_last() =~= pk);
                }
                let col = self.get_or_alloc_column(key);
                let ghost mid = *self;
                if col != NO_COLUMN {
                    self.set_file_bit(col, file_idx);
                }
                proof {
                    let pk2 = pk.push(key);
                    assert forall|k: u16| #[trigger] old_self.keys().contains(k) implies self.keys().contains(k) by {
                        assert(before.keys().contains(k));
                        if !before.keys().contains(key) && before.keys().len() < MAX_BIGRAM_COLUMNS {
                            lemma_push_contains(before.keys(), key, k);
                        }
                    }
                    assert forall|k: u16| #[trigger] pk2.contains(k) && self.keys().len() < MAX_BIGRAM_COLUMNS implies self.keys().contains(k) by {
                        lemma_push_contains(pk, key, k);
                        if !before.keys().contains(key) && before.keys().len() < MAX_BIGRAM_COLUMNS {
                            lemma_push_contains(before.keys(), key, k);
                        }
                    }
                    assert forall|k: u16, f: int| #![trigger bit_at(self.column(k), f)] self.keys().contains(k) implies
                        (bit_at(self.column(k), f) == (bit_at(old_self.column(k), f)
                            || (f == file_idx && pk2.contains(k)))) by {
                        lemma_push_contains(pk, key, k);
                        if !before.keys().contains(key) && before.keys().len() < MAX_BIGRAM_COLUMNS {
                            lemma_push_contains(before.keys(), key, k);
                        }
                        if !old_self.keys().contains(k) {
                            assert(old_self.column(k) == zero_words(old_self.words as nat));
                        }
                        if before.keys().contains(k) {
                            assert(mid.column(k) == before.column(k));
                        }
                        if k == key {
                            if !before.keys().contains(key) {
                                assert(!old_self.keys().contains(key));
                                assert(!pk.contains(key));
                            }
                        } else {
                            assert(mid.lookup@[k as int] != col);
                        }
                    }
                }
            } else {
                proof {
                    assert(pair_keys(content@.take(i as int + 1), d as nat) == pk);
                }
            }
            i = i + 1;
        }
        proof {
            assert(content@.take(i as int) =~= content@);
        }
    }

    /// Record the consecutive bigrams of file `file_idx`.
    pub fn add_file_content(&mut self, file_idx: usize, content: &[u8])
        requires
            old(self).wf(),
            file_idx < old(self).spec_file_count(),
        ensures
            final(self).wf(),
            final(self).spec_file_count() == old(self).spec_file_count(),
            final(self).spec_words() == old(self).spec_words(),
            content@.len() < 2 ==> *final(self) == *old(self),
            content@.len() >= 2 ==> final(self).spec_populated() == (if old(self).spec_populated() == usize::MAX {
                0
            } else {
                old(self).spec_populated() + 1
            }),
            final(self).keys() == alloc_after(old(self).keys(), pair_keys(content@, 1)),
            forall|k: u16, f: int| #![trigger bit_at(final(self).column(k), f)] final(self).keys().contains(k) ==>
                (bit_at(final(self).column(k), f) == (bit_at(old(self).column(k), f)
                    || (f == file_idx && pair_keys(content@, 1).contains(k)))),
            content@.len() >= 2 && old(self).spec_populated() < usize::MAX ==> final(self).spec_populated() > 0,
            forall|k: u16| #[trigger] pair_keys(content@, 1).contains(k) && final(self).keys().contains(k) ==>
                bit_at(final(self).column(k), file_idx as int),
    {
        if content.len() < 2 {
            proof {
                assert(pair_keys(content@, 1) =~= Seq::<u16>::empty());
            }
            return;
        }
        self.populated = if self.populated == usize::MAX { 0 } else { self.populated + 1 };
        self.add_pairs(file_idx, content, 1);
    }

    /// Record the skip bigrams (pairs two bytes apart) of file `file_idx`.
    pub fn add_file_content_skip(&mut self, file_idx: usize, content: &[u8])
        requires
            old(self).wf(),
            file_idx < old(self).spec_file_count(),
        ensures
            final(self).wf(),
            final(self).spec_file_count() == old(self).spec_file_count(),
            final(self).spec_words() == old(self).spec_words(),
            content@.len() < 3 ==> *final(self) == *old(self),
            content@.len() >= 3 ==> final(self).spec_populated() == (if old(self).spec_populated() == usize::MAX {
                0
            } else {
                old(self).spec_populated() + 1
            }),
            final(self).keys() == alloc_after(old(self).keys(), pair_keys(content@, 2)),
            forall|k: u16, f: int| #![trigger bit_at(final(self).column(k), f)] final(self).keys().contains(k) ==>
                (bit_at(final(self).column(k), f) == (bit_at(old(self).column(k), f)
                    || (f == file_idx && pair_keys(content@, 2).contains(k)))),
            content@.len() >= 3 && old(self).spec_populated() < usize::MAX ==> final(self).spec_populated() > 0,
            forall|k: u16| #[trigger] pair_keys(content@, 2).contains(k) && final(self).keys().contains(k) ==>
                bit_at(final(self).column(k), file_idx as int),
    {
        if content.len() < 3 {
            proof {
                assert(pair_keys(content@, 2) =~= Seq::<u16>::empty());
            }
            return;
        }
        self.populated = if self.populated == usize::MAX { 0 } else { self.populated + 1 };
        self.add_pairs(file_idx, content, 2);
    }

    /// Whether the column of `k` survives compression with `min_pct`.
    pub open spec fn kept(&self, k: u16, min_pct: Option<u32>) -> bool {
        self.keys().contains(k) && keep_column(
            count_bits(self.column(k)),
            self.spec_populated(),
            self.spec_words(),
            min_pct,
        )
    }

    /// Compress into a [`BigramFilter`] that keeps exactly the columns that
    /// are neither too sparse nor ubiquitous (see [`keep_column`]).
    pub fn compress(self, min_density_pct: Option<u32>) -> (r: BigramFilter)
        requires
            self.wf(),
        ensures
            r.wf(),
            r.skip() is None,
            r.spec_words() == self.spec_words(),
            r.spec_file_count() == self.spec_file_count(),
            r.spec_populated() == self.spec_populated(),
            forall|k: u16| #[trigger] r.column(k) == (if self.kept(k, min_density_pct) {
                Some(self.column(k))
            } else {
                None::<Seq<u64>>
            }),
            r.spec_dense_count() == r.column_count(65536),
    {
        let words = self.words;
        let populated = self.populated;
        let mut lookup: Vec<u32> = vec![NO_COLUMN; 65536];
        let mut dense_data: Vec<u64> = Vec::new();
        let mut dense_count: usize = 0;
        let mut key: usize = 0;
        while key < 65536
            invariant
                self.wf(),
                words == self.words,
                populated == self.populated,
                key <= 65536,
                lookup@.len() == 65536,
                dense_count <= key,
                dense_count as nat == lookup_count(lookup@, key as int),
                dense_data@.len() == dense_count * words,
                forall|k: int| key <= k < 65536 ==> #[trigger] lookup@[k] == NO_COLUMN,
                forall|k: int| 0 <= k < key ==> ((#[trigger] lookup@[k] != NO_COLUMN) <==> self.kept(k as u16, min_density_pct)),
                forall|k: int| 0 <= k < key && #[trigger] lookup@[k] != NO_COLUMN ==> lookup@[k] < dense_count
                    && dense_data@.subrange(lookup@[k] * words, lookup@[k] * words + words) == self.column(k as u16),
            decreases 65536 - key,
        {
            let old_col = self.lookup[key];
            let ghost k16 = key as u16;
            proof {
                assert(key as int == k16 as int);
            }
            if old_col != NO_COLUMN {
                let column = &self.columns[old_col as usize];
                proof {
                    assert(self.order@[old_col as int] == k16);
                    assert(self.order@.contains(k16));
                    assert(self.column(k16) == column@);
                }
                let popcount = count_bits_wide(column.as_slice());
                proof {
                    lemma_count_bits_bound(column@);
                    assert(column@.len() <= usize::MAX);
                    assert(popcount <= 64 * 0x1_0000_0000_0000_0000u128);
                    if let Some(p) = min_density_pct {
                        assert((populated as u128) * (p as u128) <= 0x1_0000_0000_0000_0000u128 * 0x1_0000_0000u128)
                            by (nonlinear_arith)
                            requires
                                populated <= 0x1_0000_0000_0000_0000u128,
                                p <= 0x1_0000_0000u128,
                        ;
                    }
                }
                let sparse_ok = match min_density_pct {
                    Some(min_pct) => populated > 0 && popcount * 100 >= (populated as u128) * (min_pct as u128),
                    None => popcount * 4 >= (words as u128) * 8,
                };
                let dense_ok = !(populated > 0 && popcount * 10 >= (populated as u128) * 9);
                if sparse_ok && dense_ok {
                    let ghost before = dense_data@;
                    let mut w: usize = 0;
                    while w < words
                        invariant
                            w <= words,
                            column@.len() == words,
                            dense_data@ == before + column@.take(w as int),
                        decreases words - w,
                    {
                        dense_data.push(column[w]);
                        proof {
                            assert(column@.take(w + 1) =~= column@.take(w as int).push(column@[w as int]));
                        }
                        w = w + 1;
                    }
                    proof {
                        assert(column@.take(words as int) =~= column@);
                        assert(dense_count as int * words as int + words as int == (dense_count as int + 1) * words as int)
                            by (nonlinear_arith);
                        assert forall|k: int| 0 <= k < key && #[trigger] lookup@[k] != NO_COLUMN implies
                            dense_data@.subrange(lookup@[k] * words, lookup@[k] * words + words) == self.column(k as u16) by {
                            let c = lookup@[k] as int;
                            assert(c + 1 <= dense_count);
                            assert((c + 1) * words as int <= dense_count as int * words as int) by (nonlinear_arith)
                                requires
                                    c + 1 <= dense_count,
                            ;
                            assert((c + 1) * words as int == c * words as int + words as int) by (nonlinear_arith);
                            assert(dense_data@.subrange(c * words, c * words + words) =~= before.subrange(c * words, c * words + words));
                        }
                        assert(dense_data@.subrange(dense_count * words, dense_count * words + words) =~= column@);
                    }
                    let ghost l0 = lookup@;
                    lookup.set(key, dense_count as u32);
                    proof {
                        lemma_lookup_count_prefix(l0, lookup@, key as int);
                    }
                    dense_count = dense_count + 1;
                }
            } else {
                proof {
                    assert(!self.order@.contains(k16));
                }
            }
            key = key + 1;
        }
        let r = BigramFilter {
            lookup,
            dense_data,
            dense_count,
            words,
            file_count: self.file_count,
            populated,
            skip_index: None,
        };
        proof {
            r.lemma_column_count(65536);
        }
        r
    }

    /// Whether at least one file has been indexed.
    pub fn is_ready(&self) -> (r: bool)
        ensures
            r == (self.spec_populated() > 0),
    {
        self.populated > 0
    }

    /// Number of allocated columns.
    pub fn columns_used(&self) -> (r: u32)
        requires
            self.wf(),
        ensures
            r as nat == self.keys().len(),
    {
        self.columns.len() as u32
    }
}


/// Whether a column with `pop` set bits survives compression: it must be
/// dense enough (at least `min_pct` percent of the indexed files, or by
/// default a popcount of at least twice its word count) and must not be
/// ubiquitous (set for 90% or more of the indexed files).
pub open spec fn keep_column(pop: nat, populated: nat, words: nat, min_pct: Option<u32>) -> bool {
    let sparse_ok = match min_pct {
        Some(p) => populated > 0 && pop * 100 >= populated * p,
        None => pop * 4 >= words * 8,
    };
    sparse_ok && !(populated > 0 && pop * 10 >= populated * 9)
}

/// Mask with the low `n` bits set (for `0 < n < 64`).
pub open spec fn low_mask(n: nat) -> u64 {
    ((1u64 << (n as u64)) - 1) as u64
}

/// Candidate set before any bigram is applied: every indexed file.
pub open spec fn initial_mask(words: nat, file_count: nat) -> Seq<u64> {
    Seq::new(
        words,
        |i: int|
            if i == words - 1 && file_count % 64 != 0 {
                low_mask(file_count % 64)
            } else {
                0xFFFF_FFFF_FFFF_FFFFu64
            },
    )
}

/// Number of the first `n` lookup entries that point to a column.
pub open spec fn lookup_count(lookup: Seq<u32>, n: int) -> nat
    decreases n,
{
    if n <= 0 {
        0
    } else {
        lookup_count(lookup, n - 1) + if lookup[n - 1] != NO_COLUMN { 1nat } else { 0nat }
    }
}

proof fn lemma_lookup_count_prefix(a: Seq<u32>, b: Seq<u32>, n: int)
    requires
        forall|k: int| 0 <= k < n ==> a[k] == b[k],
    ensures
        lookup_count(a, n) == lookup_count(b, n),
    decreases n,
{
    if n > 0 {
        lemma_lookup_count_prefix(a, b, n - 1);
    }
}

/// Compressed bigram index: the retained columns stored contiguously, one
/// `words`-long bitset per column, plus an optional skip-bigram index.
pub struct BigramFilter {
    lookup: Vec<u32>,
    dense_data: Vec<u64>,
    dense_count: usize,
    words: usize,
    file_count: usize,
    populated: usize,
    skip_index: Option<Box<BigramFilter>>,
}

impl BigramFilter {
    /// Layout of the fields of one filter.
    pub closed spec fn wf_base(&self) -> bool {
        &&& self.lookup@.len() == 65536
        &&& self.dense_data@.len() == self.dense_count * self.words
        &&& forall|k: int| 0 <= k < 65536 && #[trigger] self.lookup@[k] != NO_COLUMN ==> self.lookup@[k] < self.dense_count
    }

    /// Consistency of the filter and of its skip index.
    pub closed spec fn wf(&self) -> bool {
        &&& self.wf_base()
        &&& match self.skip_index {
            Some(s) => s.wf_base(),
            None => true,
        }
    }

    pub closed spec fn spec_words(&self) -> nat {
        self.words as nat
    }

    pub closed spec fn spec_file_count(&self) -> nat {
        self.file_count as nat
    }

    pub closed spec fn spec_populated(&self) -> nat {
        self.populated as nat
    }

    pub closed spec fn spec_dense_count(&self) -> nat {
        self.dense_count as nat
    }

    pub closed spec fn skip(&self) -> Option<BigramFilter> {
        match self.skip_index {
            Some(s) => Some(*s),
            None => None,
        }
    }

    /// The retained column of `k`, if any.
    pub closed spec fn column(&self, k: u16) -> Option<Seq<u64>> {
        let c = self.lookup@[k as int];
        if c != NO_COLUMN {
            Some(self.dense_data@.subrange(c * self.words, c * self.words + self.words))
        } else {
            None
        }
    }

    /// AND every retained column of the keys `ks` into `r`; the flag tells
    /// whether any key had a column.
    pub open spec fn fold_columns(&self, r: Seq<u64>, ks: Seq<u16>) -> (Seq<u64>, bool)
        decreases ks.len(),
    {
        if ks.len() == 0 {
            (r, false)
        } else {
            let (r0, h0) = self.fold_columns(r, ks.drop_last());
            match self.column(ks.last()) {
                Some(c) => (and_words(r0, c), true),
                None => (r0, h0),
            }
        }
    }

    /// Candidates from the skip bigrams of `pattern` in this index.
    pub open spec fn query_skip_spec(&self, pattern: Seq<u8>) -> Option<Seq<u64>> {
        let (r, h) = self.fold_columns(
            initial_mask(self.spec_words(), self.spec_file_count()),
            pair_keys(pattern, 2),
        );
        if h {
            Some(r)
        } else {
            None
        }
    }

    /// Candidate files for `pattern`: the AND of the columns of its consecutive
    /// bigrams and, when a skip index is attached and the pattern has at least
    /// three bytes, of its skip bigrams. `None` when no bigram of the pattern
    /// is tracked.
    pub open spec fn query_spec(&self, pattern: Seq<u8>) -> Option<Seq<u64>> {
        if pattern.len() < 2 {
            None
        } else {
            let (r, h) = self.fold_columns(
                initial_mask(self.spec_words(), self.spec_file_count()),
                pair_keys(pattern, 1),
            );
            let (r2, h2) = match self.skip() {
                Some(sk) => if pattern.len() >= 3 {
                    match sk.query_skip_spec(pattern) {
                        Some(c) => (and_words(r, c), true),
                        None => (r, h),
                    }
                } else {
                    (r, h)
                },
                None => (r, h),
            };
            if h2 {
                Some(r2)
            } else {
                None
            }
        }
    }

    /// The all-files mask for this index.
    fn initial(&self) -> (r: Vec<u64>)
        ensures
            r@ == initial_mask(self.spec_words(), self.spec_file_count()),
    {
        let mut result = vec![0xFFFF_FFFF_FFFF_FFFFu64; self.words];
        if self.file_count % 64 != 0 && self.words > 0 {
            let last = self.words - 1;
            let n = (self.file_count % 64) as u64;
            assert(1u64 << n >= 1) by (bit_vector)
                requires
                    n < 64,
            ;
            result.set(last, (1u64 << n) - 1);
        }
        proof {
            if self.file_count % 64 != 0 && self.words == 0 {
                assert(initial_mask(self.words as nat, self.file_count as nat).len() == 0);
            }
            assert(result@ =~= initial_mask(self.words as nat, self.file_count as nat));
        }
        result
    }

    /// AND the columns of all pairs `(pattern[i - d], pattern[i])` into `result`.
    fn and_pairs(&self, result: &mut Vec<u64>, pattern: &[u8], d: usize) -> (has: bool)
        requires
            self.wf_base(),
            1 <= d <= 2,
        ensures
            (final(result)@, has) == self.fold_columns(old(result)@, pair_keys(pattern@, d as nat)),
    {
        let ghost r0 = result@;
        if pattern.len() <= d {
            proof {
                assert(pair_keys(pattern@, d as nat) =~= Seq::<u16>::empty());
            }
            return false;
        }
        proof {
            assert(pair_keys(pattern@.take(d as int), d as nat) =~= Seq::<u16>::empty());
        }
        let mut has_filter = false;
        let mut i: usize = d;
        while i < pattern.len()
            invariant
                self.wf_base(),
                1 <= d <= 2,
                d <= i <= pattern@.len(),
                (result@, has_filter) == self.fold_columns(r0, pair_keys(pattern@.take(i as int), d as nat)),
            decreases pattern@.len() - i,
        {
            let a = pattern[i - d];
            let b = pattern[i];
            let ghost pk = pair_keys(pattern@.take(i as int), d as nat);
            proof {
                lemma_pair_keys_step(pattern@, d as nat, i as int);
            }
            if a >= 32 && a <= 126 && b >= 32 && b <= 126 {
                let key = bigram_key(a, b);
                proof {
                    assert(pk.push(key).drop_last() =~= pk);
                }
                let col = self.lookup[key as usize];
                if col != NO_COLUMN {
                    let words = self.words;
                    let dl = self.dense_data.len();
                    assert((col as int + 1) * words as int <= self.dense_count as int * words as int)
                        by (nonlinear_arith)
                        requires
                            col < self.dense_count,
                    ;
                    assert((col as int + 1) * words as int == col as int * words as int + words as int)
                        by (nonlinear_arith);
                    let offset = col as usize * words;
                    let slice = vstd::slice::slice_subrange(self.dense_data.as_slice(), offset, offset + words);
                    bitset_and(result.as_mut_slice(), slice);
                    has_filter = true;
                }
            }
            i = i + 1;
        }
        proof {
            assert(pattern@.take(i as int) =~= pattern@);
        }
        has_filter
    }

    /// Candidates from the skip bigrams of `pattern`.
    fn query_skip(&self, pattern: &[u8]) -> (r: Option<Vec<u64>>)
        requires
            self.wf_base(),
        ensures
            match r {
                Some(v) => self.query_skip_spec(pattern@) == Some(v@),
                None => self.query_skip_spec(pattern@) is None,
            },
    {
        let mut result = self.initial();
        let has = self.and_pairs(&mut result, pattern, 2);
        if has {
            Some(result)
        } else {
            None
        }
    }

    /// AND the posting lists of all bigrams of `pattern` (consecutive and, if
    /// a skip index is attached, skip bigrams). `None` when no bigram of the
    /// pattern is tracked.
    pub fn query(&self, pattern: &[u8]) -> (r: Option<Vec<u64>>)
        requires
            self.wf(),
        ensures
            match r {
                Some(v) => self.query_spec(pattern@) == Some(v@),
                None => self.query_spec(pattern@) is None,
            },
    {
        if pattern.len() < 2 {
            return None;
        }
        let mut result = self.initial();
        let mut has_filter = self.and_pairs(&mut result, pattern, 1);
        let ghost r1 = result@;
        let ghost h1 = has_filter;
        match &self.skip_index {
            Some(skip) => {
                if pattern.len() >= 3 {
                    let sc = skip.query_skip(pattern);
                    match sc {
                        Some(c) => {
                            bitset_and(result.as_mut_slice(), c.as_slice());
                            has_filter = true;
                        },
                        None => {},
                    }
                }
            },
            None => {},
        }
        if has_filter {
            Some(result)
        } else {
            None
        }
    }

    /// Attach a skip-bigram index for tighter candidate filtering.
    pub fn set_skip_index(&mut self, skip: BigramFilter)
        requires
            old(self).wf(),
            skip.wf(),
        ensures
            final(self).wf(),
            final(self).skip() == Some(skip),
            final(self).spec_words() == old(self).spec_words(),
            final(self).spec_file_count() == old(self).spec_file_count(),
            final(self).spec_populated() == old(self).spec_populated(),
            final(self).spec_dense_count() == old(self).spec_dense_count(),
            forall|k: u16| final(self).column(k) == old(self).column(k),
            final(self).column_count(65536) == old(self).column_count(65536),
            final(self).heap_spec() == old(self).heap_spec() + skip.heap_spec() - match old(self).skip() {
                Some(s) => s.heap_spec(),
                None => 0,
            },
    {
        proof {
            old(self).lemma_column_count(65536);
        }
        self.skip_index = Some(Box::new(skip));
        proof {
            self.lemma_column_count(65536);
        }
    }

    /// Heap bytes held by the lookup table, the column data and the skip index.
    pub closed spec fn heap_spec(&self) -> nat
        decreases self,
    {
        self.lookup@.len() * 4 + self.dense_data@.len() * 8 + match self.skip_index {
            Some(sk) => sk.heap_spec(),
            None => 0,
        }
    }

    /// Total heap bytes used by this index, saturated at `usize::MAX`.
    pub fn heap_bytes(&self) -> (r: usize)
        ensures
            r == (if self.heap_spec() <= usize::MAX { self.heap_spec() } else { usize::MAX as nat }),
        decreases self,
    {
        let ll = self.lookup.len();
        let dl = self.dense_data.len();
        let lookup_bytes = if ll > usize::MAX / 4 { usize::MAX } else { ll * 4 };
        let dense_bytes = if dl > usize::MAX / 8 { usize::MAX } else { dl * 8 };
        let skip_bytes = match &self.skip_index {
            Some(sk) => sk.heap_bytes(),
            None => 0,
        };
        lookup_bytes.saturating_add(dense_bytes).saturating_add(skip_bytes)
    }

    /// Whether at least one file was indexed.
    pub fn is_ready(&self) -> (r: bool)
        ensures
            r == (self.spec_populated() > 0),
    {
        self.populated > 0
    }

    /// Number of files the index was built for.
    pub fn file_count(&self) -> (r: usize)
        ensures
            r == self.spec_file_count(),
    {
        self.file_count
    }

    /// Number of retained columns.
    pub fn columns_used(&self) -> (r: usize)
        ensures
            r == self.spec_dense_count(),
    {
        self.dense_count
    }

    /// Whether the candidate bitset of a query marks file `file_idx`
    /// (out-of-range indices are not candidates).
    pub fn is_candidate(candidates: &[u64], file_idx: usize) -> (r: bool)
        ensures
            r == bit_at(candidates@, file_idx as int),
    {
        let word = file_idx / 64;
        let bit = file_idx % 64;
        if word < candidates.len() {
            proof {
                lemma_mask_test(candidates@[word as int], bit as u64);
            }
            candidates[word] & (1u64 << (bit as u64)) != 0
        } else {
            false
        }
    }

    /// Number of candidates in a bitset: the number of file indices that
    /// [`BigramFilter::is_candidate`] accepts.
    pub fn count_candidates(candidates: &[u64]) -> (r: usize)
        requires
            candidates@.len() * 64 <= usize::MAX,
        ensures
            r as nat == count_bits(candidates@),
            r as nat == set_below(candidates@, 64 * candidates@.len() as int),
            forall|f: int| #[trigger] bit_at(candidates@, f) ==> 0 <= f < 64 * candidates@.len(),
    {
        proof {
            lemma_count_bits_is_set_below(candidates@);
            assert forall|f: int| #[trigger] bit_at(candidates@, f) implies 0 <= f < 64 * candidates@.len() by {
                assert(f / 64 < candidates@.len());
                assert(f < 64 * candidates@.len()) by (nonlinear_arith)
                    requires
                        f >= 0,
                        f / 64 < candidates@.len(),
                ;
            }
        }
        count_set_bits(candidates)
    }

    /// Whether the bigram `key` has a retained column.
    pub fn has_key(&self, key: u16) -> (r: bool)
        requires
            self.wf(),
        ensures
            r == self.column(key) is Some,
    {
        self.lookup[key as usize] != NO_COLUMN
    }

    /// Number of the keys below `n` that have a retained column.
    pub open spec fn column_count(&self, n: int) -> nat
        decreases n,
    {
        if n <= 0 {
            0
        } else {
            self.column_count(n - 1) + if self.column((n - 1) as u16) is Some { 1nat } else { 0nat }
        }
    }

    proof fn lemma_column_count(&self, n: int)
        requires
            0 <= n <= 65536,
        ensures
            self.column_count(n) == lookup_count(self.lookup@, n),
        decreases n,
    {
        if n > 0 {
            self.lemma_column_count(n - 1);
            assert(((n - 1) as u16) as int == n - 1);
        }
    }

    /// The heap held by a filter: four bytes per lookup entry (65536 of
    /// them), eight per word of each retained column, and the skip index.
    pub proof fn lemma_heap_formula(&self)
        requires
            self.wf(),
        ensures
            self.heap_spec() == 4 * 65536 + 8 * (self.spec_dense_count() * self.spec_words()) + match self.skip() {
                Some(s) => s.heap_spec(),
                None => 0,
            },
    {
    }
}


pub proof fn lemma_low_mask_bit(n: u64, i: u64)
    requires
        0 < n < 64,
        i < n,
    ensures
        word_bit(low_mask(n as nat), i as int),
{
    assert((((1u64 << n) - 1) as u64 >> i) & 1u64 == 1u64) by (bit_vector)
        requires
            0 < n < 64,
            i < n,
    ;
}

pub proof fn lemma_full_word_bit(i: u64)
    requires
        i < 64,
    ensures
        word_bit(0xFFFF_FFFF_FFFF_FFFFu64, i as int),
{
    assert((0xFFFF_FFFF_FFFF_FFFFu64 >> i) & 1u64 == 1u64) by (bit_vector)
        requires
            i < 64,
    ;
}

/// Every indexed file starts out as a candidate.
pub proof fn lemma_initial_mask_bit(words: nat, file_count: nat, f: int)
    requires
        words == words_for(file_count),
        0 <= f < file_count,
    ensures
        bit_at(initial_mask(words, file_count), f),
{
    let m = initial_mask(words, file_count);
    assert(f / 64 < words);
    if f / 64 == words - 1 && file_count % 64 != 0 {
        assert(f % 64 < file_count % 64);
        lemma_low_mask_bit((file_count % 64) as u64, (f % 64) as u64);
    } else {
        lemma_full_word_bit((f % 64) as u64);
    }
}

pub proof fn lemma_and_words_bit(r: Seq<u64>, c: Seq<u64>, f: int)
    requires
        bit_at(r, f),
        f / 64 < c.len() ==> bit_at(c, f),
    ensures
        bit_at(and_words(r, c), f),
{
    if f / 64 < c.len() {
        crate::bitset::lemma_and_bit(r[f / 64], c[f / 64], (f % 64) as u64);
    }
}

impl BigramFilter {
    /// ANDing columns that all contain `f` keeps `f`.
    pub proof fn lemma_fold_keeps_bit(&self, r: Seq<u64>, ks: Seq<u16>, f: int)
        requires
            bit_at(r, f),
            forall|k: u16| #[trigger] ks.contains(k) && self.column(k) is Some ==> bit_at(self.column(k)->0, f),
        ensures
            bit_at(self.fold_columns(r, ks).0, f),
        decreases ks.len(),
    {
        if ks.len() > 0 {
            let p = ks.drop_last();
            assert forall|k: u16| #[trigger] p.contains(k) && self.column(k) is Some implies bit_at(self.column(k)->0, f) by {
                let j = choose|j: int| 0 <= j < p.len() && p[j] == k;
                assert(ks[j] == k);
                assert(ks.contains(k));
            }
            self.lemma_fold_keeps_bit(r, p, f);
            assert(ks.contains(ks.last()));
            let r0 = self.fold_columns(r, p).0;
            match self.column(ks.last()) {
                Some(c) => lemma_and_words_bit(r0, c, f),
                None => {},
            }
        }
    }
}

/// Characterisation of the pair keys of a byte string.
pub proof fn lemma_pair_keys_contains(s: Seq<u8>, d: nat, k: u16)
    ensures
        pair_keys(s, d).contains(k) <==> exists|i: int|
            d <= i < s.len() && is_printable(#[trigger] s[i - d]) && is_printable(s[i]) && key_of(s[i - d], s[i]) == k,
    decreases s.len(),
{
    if s.len() > d {
        let p = s.drop_last();
        lemma_pair_keys_contains(p, d, k);
        let a = s[s.len() - 1 - d];
        let b = s[s.len() - 1];
        let rest = pair_keys(p, d);
        if is_printable(a) && is_printable(b) {
            lemma_push_contains(rest, key_of(a, b), k);
        }
        if pair_keys(s, d).contains(k) {
            if rest.contains(k) {
                let i = choose|i: int|
                    d <= i < p.len() && is_printable(#[trigger] p[i - d]) && is_printable(p[i]) && key_of(p[i - d], p[i]) == k;
                assert(s[i - d] == p[i - d] && s[i] == p[i]);
            } else {
                let i = s.len() - 1;
                assert(s[i - d] == a);
            }
        }
        if exists|i: int|
            d <= i < s.len() && is_printable(#[trigger] s[i - d]) && is_printable(s[i]) && key_of(s[i - d], s[i]) == k {
            let i = choose|i: int|
                d <= i < s.len() && is_printable(#[trigger] s[i - d]) && is_printable(s[i]) && key_of(s[i - d], s[i]) == k;
            if i < s.len() - 1 {
                assert(p[i - d] == s[i - d] && p[i] == s[i]);
            }
        }
    } else {
        assert(pair_keys(s, d) =~= Seq::<u16>::empty());
    }
}

/// Every bigram of a text that occurs in a string ignoring ASCII case is a
/// bigram of the string: keys are taken over lowercased bytes.
pub proof fn lemma_caseless_substring_pair_keys(content: Seq<u8>, pattern: Seq<u8>, a: int, d: nat, k: u16)
    requires
        0 <= a,
        a + pattern.len() <= content.len(),
        forall|i: int| 0 <= i < pattern.len() ==> lower(#[trigger] content[a + i]) == lower(pattern[i]),
        pair_keys(pattern, d).contains(k),
    ensures
        pair_keys(content, d).contains(k),
{
    lemma_pair_keys_contains(pattern, d, k);
    lemma_pair_keys_contains(content, d, k);
    let i = choose|i: int|
        d <= i < pattern.len() && is_printable(#[trigger] pattern[i - d]) && is_printable(pattern[i]) && key_of(pattern[i - d], pattern[i]) == k;
    let x = content[a + (i - d)];
    let y = content[a + i];
    assert(lower(x) == lower(pattern[i - d]));
    assert(lower(y) == lower(pattern[i]));
    assert(is_printable(x));
    assert(is_printable(y));
    assert(content[(a + i) - d] == x);
    assert(key_of(content[(a + i) - d], content[a + i]) == k);
}

/// Every bigram of a substring is a bigram of the whole string.
pub proof fn lemma_substring_pair_keys(content: Seq<u8>, pattern: Seq<u8>, a: int, d: nat, k: u16)
    requires
        0 <= a,
        a + pattern.len() <= content.len(),
        content.subrange(a, a + pattern.len()) == pattern,
        pair_keys(pattern, d).contains(k),
    ensures
        pair_keys(content, d).contains(k),
{
    lemma_pair_keys_contains(pattern, d, k);
    lemma_pair_keys_contains(content, d, k);
    let i = choose|i: int|
        d <= i < pattern.len() && is_printable(#[trigger] pattern[i - d]) && is_printable(pattern[i]) && key_of(pattern[i - d], pattern[i]) == k;
    assert(pattern[i - d] == content[a + i - d]);
    assert(pattern[i] == content[a + i]);
    assert(content[(a + i) - d] == content[a + i - d]);
}

/// The index never drops a file that contains the searched text, in any
/// ASCII case: if file `f`'s content holds `pattern` ignoring ASCII case
/// and every retained column of a bigram of that content (consecutive and
/// skip) marks `f`, the query either tracks no bigram of the pattern or
/// keeps `f` among its candidates.
pub proof fn lemma_query_keeps_containing_file(
    filter: BigramFilter,
    content: Seq<u8>,
    pattern: Seq<u8>,
    a: int,
    f: int,
)
    requires
        filter.wf(),
        filter.spec_words() == words_for(filter.spec_file_count()),
        0 <= f < filter.spec_file_count(),
        0 <= a,
        a + pattern.len() <= content.len(),
        forall|i: int| 0 <= i < pattern.len() ==> lower(#[trigger] content[a + i]) == lower(pattern[i]),
        forall|k: u16| #[trigger] pair_keys(content, 1).contains(k) && filter.column(k) is Some ==> bit_at(filter.column(k)->0, f),
        filter.skip() matches Some(sk) ==> {
            &&& sk.spec_words() == words_for(sk.spec_file_count())
            &&& f < sk.spec_file_count()
            &&& forall|k: u16| #[trigger] pair_keys(content, 2).contains(k) && sk.column(k) is Some ==> bit_at(sk.column(k)->0, f)
        },
    ensures
        filter.query_spec(pattern) matches Some(r) ==> bit_at(r, f),
{
    if pattern.len() >= 2 {
        let init = initial_mask(filter.spec_words(), filter.spec_file_count());
        lemma_initial_mask_bit(filter.spec_words(), filter.spec_file_count(), f);
        assert forall|k: u16| #[trigger] pair_keys(pattern, 1).contains(k) && filter.column(k) is Some implies bit_at(filter.column(k)->0, f) by {
            lemma_caseless_substring_pair_keys(content, pattern, a, 1, k);
        }
        filter.lemma_fold_keeps_bit(init, pair_keys(pattern, 1), f);
        let r = filter.fold_columns(init, pair_keys(pattern, 1)).0;
        match filter.skip() {
            Some(sk) => {
                if pattern.len() >= 3 {
                    let sinit = initial_mask(sk.spec_words(), sk.spec_file_count());
                    lemma_initial_mask_bit(sk.spec_words(), sk.spec_file_count(), f);
                    assert forall|k: u16| #[trigger] pair_keys(pattern, 2).contains(k) && sk.column(k) is Some implies bit_at(sk.column(k)->0, f) by {
                        lemma_caseless_substring_pair_keys(content, pattern, a, 2, k);
                    }
                    sk.lemma_fold_keeps_bit(sinit, pair_keys(pattern, 2), f);
                    match sk.query_skip_spec(pattern) {
                        Some(c) => lemma_and_words_bit(r, c, f),
                        None => {},
                    }
                }
            },
            None => {},
        }
    }
}

/// A file whose bigrams were recorded in the builder stays a candidate of
/// the compressed filter for every pattern it holds in any ASCII case: if
/// every allocated column of a bigram of the file's content marks the
/// file, and `filter` is the compression of `builder` (no skip index), the
/// query either tracks no bigram of the pattern or keeps the file.
pub proof fn lemma_builder_keeps_containing_file(
    builder: BigramIndexBuilder,
    filter: BigramFilter,
    min_pct: Option<u32>,
    content: Seq<u8>,
    pattern: Seq<u8>,
    a: int,
    f: int,
)
    requires
        filter.wf(),
        filter.skip() is None,
        filter.spec_words() == words_for(filter.spec_file_count()),
        forall|k: u16| #[trigger] filter.column(k) == (if builder.kept(k, min_pct) {
            Some(builder.column(k))
        } else {
            None::<Seq<u64>>
        }),
        0 <= f < filter.spec_file_count(),
        0 <= a,
        a + pattern.len() <= content.len(),
        forall|i: int| 0 <= i < pattern.len() ==> lower(#[trigger] content[a + i]) == lower(pattern[i]),
        forall|k: u16| #[trigger] pair_keys(content, 1).contains(k) && builder.keys().contains(k) ==> bit_at(builder.column(k), f),
    ensures
        filter.query_spec(pattern) matches Some(r) ==> bit_at(r, f),
{
    assert forall|k: u16| #[trigger] pair_keys(content, 1).contains(k) && filter.column(k) is Some implies bit_at(filter.column(k)->0, f) by {
        assert(builder.kept(k, min_pct));
    }
    lemma_query_keeps_containing_file(filter, content, pattern, a, f);
}

} // verus!
