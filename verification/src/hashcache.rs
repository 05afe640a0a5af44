//! The probabilistic content fingerprint and the cache that groups paths
//! by fingerprint.
//!
//! A fingerprint pairs a sampled 64-bit content hash with the file's size.
//! Equal fingerprints do not imply equal content; unequal fingerprints do
//! imply unequal content, provided the compared bytes were sampled by the
//! same schedule.

use vstd::prelude::*;
use vstd::arithmetic::power2::{pow2, lemma2_to64, lemma2_to64_rest};
use crate::utils::{bytes_eq, clone_bytes, GB, MB};

verus! {

/// The number of bytes in each sampled chunk.
pub const SAMPLE_SIZE: usize = 8 * 1024;

/// The minimum number of samples to take when hashing a file.
pub const MIN_SAMPLES: u32 = 2;

/// The largest file size at which only the minimum number of samples is taken.
pub const MIN_SAMPLES_MAX: u64 = MB;

/// The maximum number of samples to take when hashing a file.
pub const MAX_SAMPLES: u32 = 4;

/// The smallest file size at which the maximum number of samples is taken.
pub const MAX_SAMPLES_MIN: u64 = 16 * GB;

/// The floor of the base-two logarithm; zero for zero and one.
pub open spec fn log2(n: nat) -> nat
    decreases n,
{
    if n <= 1 {
        0
    } else {
        1 + log2(n / 2)
    }
}

proof fn lemma_log2_bound(n: nat, k: nat)
    requires
        k >= 1,
        n < pow2(k),
    ensures
        log2(n) < k,
    decreases k,
{
    if k == 1 {
        assert(pow2(1) == 2) by {
            lemma2_to64();
        }
    } else if n <= 1 {
    } else {
        assert(pow2(k) == 2 * pow2((k - 1) as nat)) by {
            vstd::arithmetic::power2::lemma_pow2_unfold(k);
        }
        lemma_log2_bound(n / 2, (k - 1) as nat);
    }
}

proof fn lemma_log2_values()
    ensures
        log2(MIN_SAMPLES_MAX as nat) == 20,
        log2(MAX_SAMPLES_MIN as nat) == 34,
{
    reveal_with_fuel(log2, 40);
}

/// The floor of the base-two logarithm of a positive 64-bit integer.
pub fn ilog2_u64(x: u64) -> (r: u32)
    requires
        x >= 1,
    ensures
        r == log2(x as nat),
        r <= 63,
{
    let mut v: u64 = x;
    let mut r: u32 = 0;
    proof {
        lemma2_to64_rest();
        lemma_log2_bound(x as nat, 64);
    }
    while v > 1
        invariant
            1 <= v <= x,
            log2(x as nat) == r + log2(v as nat),
            log2(x as nat) <= 63,
        decreases v,
    {
        v = v / 2;
        r = r + 1;
    }
    r
}

/// The number of samples the schedule takes for a file of the given size,
/// scaled logarithmically between the two size thresholds and capped at
/// the maximum.
pub open spec fn spec_samples(filesize: u64) -> int {
    let raw = MIN_SAMPLES + (log2(filesize as nat) * (MAX_SAMPLES - MIN_SAMPLES)) / (log2(
        MAX_SAMPLES_MIN as nat,
    ) - log2(MIN_SAMPLES_MAX as nat));
    if raw <= MAX_SAMPLES {
        raw
    } else {
        MAX_SAMPLES as int
    }
}

/// The number of bytes to seek forward after each sampled chunk: zero for
/// files small enough to hash whole, and otherwise the gap that spreads
/// the samples evenly over the file. The gap is negative when the samples
/// overlap near the low end of the schedule.
pub open spec fn spec_skiplen(filesize: u64, buffsize: usize) -> int {
    if filesize <= MIN_SAMPLES * buffsize {
        0
    } else {
        (filesize as int) / spec_samples(filesize) - buffsize
    }
}

/// Calculates the number of bytes to skip between sampled chunks when
/// fingerprinting a file of the given size with the given chunk size.
pub fn calculate_skiplen(filesize: u64, buffsize: usize) -> (r: i64)
    requires
        buffsize < 0x8000_0000_0000_0000,
    ensures
        r == spec_skiplen(filesize, buffsize),
{
    let buffsize64 = buffsize as u64;
    assert(buffsize64 < 0x8000_0000_0000_0000u64);
    assert((MIN_SAMPLES as u64) == 2);
    if filesize <= (MIN_SAMPLES as u64) * buffsize64 {
        return 0;
    }
    let size_factor = ilog2_u64(filesize);
    proof {
        lemma_log2_values();
    }
    let denom = ilog2_u64(MAX_SAMPLES_MIN) - ilog2_u64(MIN_SAMPLES_MAX);
    assert(size_factor <= 63);
    assert(denom == 14);
    let spread = MAX_SAMPLES - MIN_SAMPLES;
    assert(spread == 2);
    let scaled = size_factor * spread;
    assert(scaled <= 126);
    let samples_raw = MIN_SAMPLES + scaled / denom;
    let samples: u64 = if samples_raw <= MAX_SAMPLES {
        samples_raw as u64
    } else {
        MAX_SAMPLES as u64
    };
    proof {
        vstd::arithmetic::div_mod::lemma_div_is_ordered_by_denominator(
            filesize as int,
            2,
            samples as int,
        );
    }
    (filesize / samples) as i64 - buffsize as i64
}

/// The digest that `seahash` assigns to a byte sequence; a function of
/// the bytes alone, the same in every process.
pub uninterp spec fn sea_hash_of(data: Seq<u8>) -> u64;

/// Relies on seahash::hash: a 64-bit digest computed with a fixed,
/// prechosen seed, so it depends on the buffer's bytes alone.
#[verifier::external_body]
fn sea_hash(data: &Vec<u8>) -> (r: u64)
    ensures
        r == sea_hash_of(data@),
{
    seahash::hash(data.as_slice())
}

/// A pair of hash values that identifies a file when looking for
/// potential duplicates.
///
/// Two files with the same `FileHashes` need not be identical: the
/// fingerprint deliberately trades collision-detection accuracy for
/// speed. Two files with different `FileHashes` are never identical.
#[derive(Clone, Copy, PartialEq, Eq, Structural, Hash, Debug)]
pub struct FileHashes {
    /// The sampled content digest.
    pub sea: u64,
    /// The file's size in bytes.
    pub size: u64,
}

impl Default for FileHashes {
    fn default() -> (r: Self)
        ensures
            r.sea == 0 && r.size == 0,
    {
        FileHashes { sea: 0, size: 0 }
    }
}

/// The fingerprint of a file whose sampled bytes are `data` and whose
/// size is `size`.
pub open spec fn fingerprint_of(data: Seq<u8>, size: u64) -> FileHashes {
    FileHashes { sea: sea_hash_of(data), size }
}

impl FileHashes {
    /// Builds a fingerprint value directly from its parts.
    pub fn new(sea: u64, size: u64) -> (r: Self)
        ensures
            r.sea == sea,
            r.size == size,
    {
        FileHashes { sea, size }
    }
}

/// Accumulates the sampled chunks of one file and turns them into its
/// fingerprint.
pub struct FingerprintBuilder {
    data: Vec<u8>,
}

impl FingerprintBuilder {
    /// The bytes sampled so far, in the order they were fed in.
    pub closed spec fn sampled(self) -> Seq<u8> {
        self.data@
    }

    /// Starts a fingerprint with no bytes sampled yet.
    pub fn new() -> (r: Self)
        ensures
            r.sampled() == Seq::<u8>::empty(),
    {
        FingerprintBuilder { data: Vec::new() }
    }

    /// Feeds in the first `count` bytes of the chunk, in order.
    pub fn push_chunk(&mut self, chunk: &Vec<u8>, count: usize)
        requires
            count <= chunk.len(),
        ensures
            final(self).sampled() == old(self).sampled() + chunk@.take(count as int),
    {
        let mut i: usize = 0;
        while i < count
            invariant
                i <= count,
                count <= chunk.len(),
                self.data@ == old(self).sampled() + chunk@.take(i as int),
            decreases count - i,
        {
            self.data.push(chunk[i]);
            proof {
                assert(chunk@.take(i + 1) =~= chunk@.take(i as int).push(chunk@[i as int]));
            }
            i += 1;
        }
    }

    /// Combines the sampled bytes' digest with the file's size into the
    /// fingerprint. A zero size is an invariant violation upstream: the
    /// schedule never fingerprints an empty file.
    pub fn finish(&self, size: u64) -> (r: FileHashes)
        requires
            size > 0,
        ensures
            r == fingerprint_of(self.sampled(), size),
    {
        FileHashes { sea: sea_hash(&self.data), size }
    }
}

/// The views of a list of paths, in order.
pub open spec fn paths_view(ps: Seq<Vec<u8>>) -> Seq<Seq<u8>> {
    ps.map_values(|p: Vec<u8>| p@)
}

/// The set of paths a list of paths holds.
pub open spec fn paths_as_set(ps: Seq<Vec<u8>>) -> Set<Seq<u8>> {
    paths_view(ps).to_set()
}

/// No path occurs twice in the list.
pub open spec fn paths_distinct(ps: Seq<Vec<u8>>) -> bool {
    forall|i: int, j: int| 0 <= i < j < ps.len() ==> (#[trigger] ps[i])@ != (#[trigger] ps[j])@
}

/// The path set a map associates with a key: empty when the key is absent.
pub open spec fn set_at(m: Map<FileHashes, Set<Seq<u8>>>, k: FileHashes) -> Set<Seq<u8>> {
    if m.dom().contains(k) {
        m[k]
    } else {
        Set::empty()
    }
}

/// The key-by-key union of two fingerprint-to-path-set maps.
pub open spec fn cache_union(
    a: Map<FileHashes, Set<Seq<u8>>>,
    b: Map<FileHashes, Set<Seq<u8>>>,
) -> Map<FileHashes, Set<Seq<u8>>> {
    Map::new(
        |k: FileHashes| a.dom().contains(k) || b.dom().contains(k),
        |k: FileHashes| set_at(a, k).union(set_at(b, k)),
    )
}

/// The map that a cache's backing entries denote: each entry's key bound
/// to the set of its paths. Later entries win, so the denotation is only
/// meaningful when the keys are distinct.
pub open spec fn entries_map(s: Seq<(FileHashes, Vec<Vec<u8>>)>) -> Map<FileHashes, Set<Seq<u8>>>
    decreases s.len(),
{
    if s.len() == 0 {
        Map::<FileHashes, Set<Seq<u8>>>::empty()
    } else {
        entries_map(s.drop_last()).insert(s.last().0, paths_as_set(s.last().1@))
    }
}

/// No fingerprint keys two entries.
pub open spec fn entry_keys_distinct(s: Seq<(FileHashes, Vec<Vec<u8>>)>) -> bool {
    forall|i: int, j: int| 0 <= i < j < s.len() ==> (#[trigger] s[i]).0 != (#[trigger] s[j]).0
}

proof fn lemma_to_set_push<A>(s: Seq<A>, e: A)
    ensures
        s.push(e).to_set() == s.to_set().insert(e),
{
    assert forall|x: A| s.push(e).to_set().contains(x) implies s.to_set().insert(e).contains(
        x,
    ) by {
        let i = choose|i: int| 0 <= i < s.push(e).len() && s.push(e)[i] == x;
        if i < s.len() {
            assert(s[i] == x);
        }
    }
    assert forall|x: A| s.to_set().insert(e).contains(x) implies s.push(e).to_set().contains(
        x,
    ) by {
        if s.to_set().contains(x) {
            let i = choose|i: int| 0 <= i < s.len() && s[i] == x;
            assert(s.push(e)[i] == x);
        } else {
            assert(s.push(e)[s.len() as int] == e);
        }
    }
    assert(s.push(e).to_set() =~= s.to_set().insert(e));
}

proof fn lemma_entries_map_no_key(s: Seq<(FileHashes, Vec<Vec<u8>>)>, k: FileHashes)
    requires
        forall|i: int| 0 <= i < s.len() ==> (#[trigger] s[i]).0 != k,
    ensures
        !entries_map(s).dom().contains(k),
    decreases s.len(),
{
    if s.len() > 0 {
        assert(forall|i: int| 0 <= i < s.drop_last().len() ==> (#[trigger] s.drop_last()[i]).0
            != k);
        lemma_entries_map_no_key(s.drop_last(), k);
        assert(s.last().0 != k);
    }
}

proof fn lemma_entries_map_key(s: Seq<(FileHashes, Vec<Vec<u8>>)>, i: int)
    requires
        entry_keys_distinct(s),
        0 <= i < s.len(),
    ensures
        entries_map(s).dom().contains(s[i].0),
        entries_map(s)[s[i].0] == paths_as_set(s[i].1@),
    decreases s.len(),
{
    if i < s.len() - 1 {
        assert(entry_keys_distinct(s.drop_last()));
        lemma_entries_map_key(s.drop_last(), i);
        assert(s.last().0 != s[i].0);
    }
}

proof fn lemma_entries_map_push(s: Seq<(FileHashes, Vec<Vec<u8>>)>, e: (FileHashes, Vec<Vec<u8>>))
    ensures
        entries_map(s.push(e)) == entries_map(s).insert(e.0, paths_as_set(e.1@)),
{
    assert(s.push(e).drop_last() =~= s);
    assert(s.push(e).last() == e);
}

proof fn lemma_entries_map_update(
    s: Seq<(FileHashes, Vec<Vec<u8>>)>,
    i: int,
    e: (FileHashes, Vec<Vec<u8>>),
)
    requires
        entry_keys_distinct(s),
        0 <= i < s.len(),
        e.0 == s[i].0,
    ensures
        entries_map(s.update(i, e)) == entries_map(s).insert(e.0, paths_as_set(e.1@)),
    decreases s.len(),
{
    let su = s.update(i, e);
    if i == s.len() - 1 {
        assert(su.drop_last() =~= s.drop_last());
        assert(su.last() == e);
        assert(entries_map(s).insert(e.0, paths_as_set(e.1@)) =~= entries_map(
            s.drop_last(),
        ).insert(e.0, paths_as_set(e.1@)));
    } else {
        assert(entry_keys_distinct(s.drop_last()));
        lemma_entries_map_update(s.drop_last(), i, e);
        assert(su.drop_last() =~= s.drop_last().update(i, e));
        assert(su.last() == s.last());
        assert(s.last().0 != e.0);
        assert(entries_map(s.drop_last()).insert(e.0, paths_as_set(e.1@)).insert(
            s.last().0,
            paths_as_set(s.last().1@),
        ) =~= entries_map(s.drop_last()).insert(s.last().0, paths_as_set(s.last().1@)).insert(
            e.0,
            paths_as_set(e.1@),
        ));
    }
}

/// A cache of files keyed by their fingerprint, for quick lookup of
/// possible duplicate candidates.
///
/// Its view is a map from fingerprint to the set of paths that bear it.
pub struct HashCache {
    entries: Vec<(FileHashes, Vec<Vec<u8>>)>,
}

impl View for HashCache {
    type V = Map<FileHashes, Set<Seq<u8>>>;

    closed spec fn view(&self) -> Map<FileHashes, Set<Seq<u8>>> {
        entries_map(self.entries@)
    }
}

impl HashCache {
    /// The backing entries keep distinct keys, distinct paths per key,
    /// and no empty path list.
    pub closed spec fn wf(self) -> bool {
        &&& entry_keys_distinct(self.entries@)
        &&& forall|i: int|
            0 <= i < self.entries@.len() ==> paths_distinct((#[trigger] self.entries@[i]).1@)
        &&& forall|i: int| 0 <= i < self.entries@.len() ==> (#[trigger] self.entries@[i]).1@.len()
            >= 1
    }

    /// Constructs an empty cache.
    pub fn new() -> (r: Self)
        ensures
            r.wf(),
            r@ == Map::<FileHashes, Set<Seq<u8>>>::empty(),
    {
        HashCache { entries: Vec::new() }
    }

    fn find_key(&self, hashes: FileHashes) -> (r: Option<usize>)
        ensures
            r matches Some(i) ==> i < self.entries@.len() && self.entries@[i as int].0 == hashes,
            r is None ==> forall|i: int|
                0 <= i < self.entries@.len() ==> (#[trigger] self.entries@[i]).0 != hashes,
    {
        let mut idx: usize = 0;
        while idx < self.entries.len()
            invariant
                idx <= self.entries@.len(),
                forall|i: int| 0 <= i < idx ==> (#[trigger] self.entries@[i]).0 != hashes,
            decreases self.entries@.len() - idx,
        {
            if self.entries[idx].0 == hashes {
                return Some(idx);
            }
            idx += 1;
        }
        None
    }

    /// Inserts a path under its fingerprint, creating the group if the
    /// fingerprint is new; inserting a path that is already in the group
    /// leaves the cache unchanged.
    pub fn insert(&mut self, path: Vec<u8>, hashes: FileHashes)
        requires
            old(self).wf(),
        ensures
            final(self).wf(),
            final(self)@ == old(self)@.insert(
                hashes,
                set_at(old(self)@, hashes).insert(path@),
            ),
    {
        let ghost old_entries = self.entries@;
        match self.find_key(hashes) {
            Some(idx) => {
                proof {
                    lemma_entries_map_key(old_entries, idx as int);
                }
                if contains_path(&self.entries[idx].1, &path) {
                    proof {
                        assert(set_at(old(self)@, hashes).insert(path@) =~= set_at(
                            old(self)@,
                            hashes,
                        ));
                        assert(old(self)@.insert(hashes, set_at(old(self)@, hashes).insert(path@))
                            =~= old(self)@);
                    }
                } else {
                    let mut entry = self.entries.remove(idx);
                    let ghost old_paths = entry.1@;
                    entry.1.push(path);
                    proof {
                        assert(paths_view(old_paths.push(path)) =~= paths_view(old_paths).push(
                            path@,
                        ));
                        lemma_to_set_push(paths_view(old_paths), path@);
                        assert(paths_as_set(old_paths.push(path)) =~= paths_as_set(
                            old_paths,
                        ).insert(path@));
                        assert(forall|i: int|
                            0 <= i < old_paths.len() ==> paths_view(old_paths)[i] == (
                            #[trigger] old_paths[i])@);
                    }
                    self.entries.insert(idx, entry);
                    proof {
                        assert(self.entries@ =~= old_entries.update(idx as int, entry));
                        lemma_entries_map_update(old_entries, idx as int, entry);
                    }
                }
            },
            None => {
                proof {
                    lemma_entries_map_no_key(old_entries, hashes);
                }
                let mut group: Vec<Vec<u8>> = Vec::new();
                group.push(path);
                let entry = (hashes, group);
                self.entries.push(entry);
                proof {
                    assert(self.entries@ =~= old_entries.push(entry));
                    lemma_entries_map_push(old_entries, entry);
                    assert(paths_view(entry.1@) =~= Seq::<Seq<u8>>::empty().push(path@));
                    lemma_to_set_push(Seq::<Seq<u8>>::empty(), path@);
                    assert(Seq::<Seq<u8>>::empty().to_set() =~= Set::<Seq<u8>>::empty());
                    assert(paths_as_set(entry.1@) =~= set_at(old(self)@, hashes).insert(path@));
                }
            },
        }
    }
}

proof fn lemma_cache_union_insert(
    a: Map<FileHashes, Set<Seq<u8>>>,
    b: Map<FileHashes, Set<Seq<u8>>>,
    k: FileHashes,
    x: Seq<u8>,
)
    ensures
        cache_union(a, b).insert(k, set_at(cache_union(a, b), k).insert(x)) == cache_union(
            a,
            b.insert(k, set_at(b, k).insert(x)),
        ),
{
    let lhs = cache_union(a, b).insert(k, set_at(cache_union(a, b), k).insert(x));
    let rhs = cache_union(a, b.insert(k, set_at(b, k).insert(x)));
    assert(lhs.dom() =~= rhs.dom());
    assert forall|k2: FileHashes| lhs.dom().contains(k2) implies lhs[k2] == rhs[k2] by {
        if k2 == k {
            assert(lhs[k2] =~= rhs[k2]);
        } else {
            assert(lhs[k2] =~= rhs[k2]);
        }
    }
    assert(lhs =~= rhs);
}

/// The denotation of the first `i` entries of `s`, with the first `j`
/// paths of entry `i` already merged in.
spec fn joined_prefix(s: Seq<(FileHashes, Vec<Vec<u8>>)>, i: int, j: int) -> Map<
    FileHashes,
    Set<Seq<u8>>,
> {
    if j == 0 {
        entries_map(s.take(i))
    } else {
        entries_map(s.take(i)).insert(s[i].0, paths_as_set(s[i].1@.take(j)))
    }
}

impl HashCache {
    /// Joins two caches into one that holds every fingerprint of either,
    /// each bound to the union of the two path sets.
    pub fn join(self, other: Self) -> (r: Self)
        requires
            self.wf(),
            other.wf(),
        ensures
            r.wf(),
            r@ == cache_union(self@, other@),
    {
        let ghost base = self@;
        let ghost s = other.entries@;
        let mut result = self;
        proof {
            let init = cache_union(base, entries_map(s.take(0)));
            assert(s.take(0) =~= Seq::<(FileHashes, Vec<Vec<u8>>)>::empty());
            assert(init.dom() =~= base.dom());
            assert forall|k: FileHashes| init.dom().contains(k) implies init[k] == base[k] by {
                assert(set_at(base, k).union(set_at(entries_map(s.take(0)), k)) =~= set_at(
                    base,
                    k,
                ));
            }
            assert(init =~= base);
        }
        let mut i: usize = 0;
        while i < other.entries.len()
            invariant
                result.wf(),
                other.wf(),
                s == other.entries@,
                i <= s.len(),
                result@ == cache_union(base, entries_map(s.take(i as int))),
            decreases s.len() - i,
        {
            let n_paths = other.entries[i].1.len();
            let ghost ps = s[i as int].1@;
            let mut j: usize = 0;
            while j < n_paths
                invariant
                    result.wf(),
                    other.wf(),
                    s == other.entries@,
                    i < s.len(),
                    ps == s[i as int].1@,
                    n_paths == ps.len(),
                    j <= n_paths,
                    result@ == cache_union(base, joined_prefix(s, i as int, j as int)),
                decreases n_paths - j,
            {
                let p = clone_bytes(&other.entries[i].1[j]);
                let k = other.entries[i].0;
                let ghost before = result@;
                let ghost m = joined_prefix(s, i as int, j as int);
                result.insert(p, k);
                proof {
                    lemma_cache_union_insert(base, m, k, p@);
                    assert(s.take(i as int).len() == i);
                    assert(forall|t: int|
                        0 <= t < i ==> (#[trigger] s.take(i as int)[t]).0 == s[t].0);
                    lemma_entries_map_no_key(s.take(i as int), k);
                    lemma_to_set_push(paths_view(ps.take(j as int)), ps[j as int]@);
                    assert(paths_view(ps.take(j + 1)) =~= paths_view(ps.take(j as int)).push(
                        ps[j as int]@,
                    ));
                    if j == 0 {
                        assert(Seq::<Seq<u8>>::empty().to_set() =~= Set::<Seq<u8>>::empty());
                        assert(paths_view(ps.take(0)) =~= Seq::<Seq<u8>>::empty());
                        assert(set_at(m, k) =~= paths_as_set(ps.take(0)));
                    } else {
                        assert(set_at(m, k) == paths_as_set(ps.take(j as int)));
                    }
                    assert(m.insert(k, set_at(m, k).insert(p@)) =~= joined_prefix(
                        s,
                        i as int,
                        j + 1,
                    ));
                }
                j += 1;
            }
            proof {
                assert(ps.take(n_paths as int) =~= ps);
                assert(s.take(i + 1) =~= s.take(i as int).push(s[i as int]));
                lemma_entries_map_push(s.take(i as int), s[i as int]);
                assert(joined_prefix(s, i as int, n_paths as int) =~= entries_map(s.take(i + 1)));
            }
            i += 1;
        }
        proof {
            assert(s.take(s.len() as int) =~= s);
        }
        result
    }

    /// Looks up the group of paths recorded under a fingerprint.
    pub fn paths_for(&self, hashes: FileHashes) -> (r: Option<Vec<Vec<u8>>>)
        requires
            self.wf(),
        ensures
            r is Some <==> self@.dom().contains(hashes),
            r matches Some(ps) ==> paths_as_set(ps@) == self@[hashes] && paths_distinct(ps@),
    {
        match self.find_key(hashes) {
            Some(idx) => {
                proof {
                    lemma_entries_map_key(self.entries@, idx as int);
                }
                let group = clone_paths(&self.entries[idx].1);
                proof {
                    assert(paths_view(group@) =~= paths_view(self.entries@[idx as int].1@));
                    assert(paths_distinct(self.entries@[idx as int].1@));
                    assert forall|a: int, b: int| 0 <= a < b < group@.len() implies (
                    #[trigger] group@[a])@ != (#[trigger] group@[b])@ by {
                        assert((self.entries@[idx as int].1@[a])@ != (self.entries@[idx
                            as int].1@[b])@);
                    }
                }
                Some(group)
            },
            None => {
                proof {
                    lemma_entries_map_no_key(self.entries@, hashes);
                }
                None
            },
        }
    }

    /// Retrieves the groups of paths with duplicate fingerprints: one
    /// group for each fingerprint whose set holds two or more paths,
    /// and no other, each exactly once. The order of the groups is
    /// unspecified.
    pub fn duplicates(&self) -> (r: Vec<Vec<Vec<u8>>>)
        requires
            self.wf(),
        ensures
            forall|g: int|
                0 <= g < r@.len() ==> (#[trigger] r@[g])@.len() >= 2 && paths_distinct(r@[g]@),
            forall|g: int| 0 <= g < r@.len() ==> is_group_of(self@, (#[trigger] r@[g])@),
            forall|k: FileHashes|
                self@.dom().contains(k) && has_two(#[trigger] self@[k]) ==> exists|g: int|
                    0 <= g < r@.len() && paths_as_set(r@[g]@) == self@[k],
            exists|ks: Seq<FileHashes>| #[trigger] groups_keyed_by(ks, r@, self@),
    {
        let ghost s = self.entries@;
        let mut r: Vec<Vec<Vec<u8>>> = Vec::new();
        let ghost mut ks: Seq<FileHashes> = Seq::empty();
        let mut i: usize = 0;
        while i < self.entries.len()
            invariant
                s == self.entries@,
                self.wf(),
                i <= s.len(),
                ks.len() == r@.len(),
                forall|g: int|
                    0 <= g < r@.len() ==> (#[trigger] r@[g])@.len() >= 2 && paths_distinct(
                        r@[g]@,
                    ),
                forall|g: int| 0 <= g < r@.len() ==> is_group_of(self@, (#[trigger] r@[g])@),
                forall|e: int|
                    0 <= e < i && (#[trigger] s[e]).1@.len() >= 2 ==> exists|g: int|
                        0 <= g < r@.len() && paths_as_set(r@[g]@) == paths_as_set(s[e].1@),
                forall|g: int| #![trigger ks[g]] 0 <= g < ks.len() ==> entry_key_group(ks, r@, s, g, i as int),
                forall|g1: int, g2: int| 0 <= g1 < g2 < ks.len() ==> ks[g1] != ks[g2],
                forall|e: int|
                    0 <= e < i && (#[trigger] s[e]).1@.len() >= 2 ==> ks.contains(s[e].0),
            decreases s.len() - i,
        {
            let ghost r0 = r@;
            let ghost ks0 = ks;
            if self.entries[i].1.len() >= 2 {
                let group = clone_paths(&self.entries[i].1);
                proof {
                    assert(paths_view(group@) =~= paths_view(s[i as int].1@));
                    assert forall|a: int, b: int| 0 <= a < b < group@.len() implies (
                    #[trigger] group@[a])@ != (#[trigger] group@[b])@ by {
                        assert(paths_distinct(s[i as int].1@));
                        assert((s[i as int].1@[a])@ != (s[i as int].1@[b])@);
                    }
                }
                r.push(group);
                proof {
                    ks = ks.push(s[i as int].0);
                    assert(r@[r0.len() as int] == group);
                    assert(paths_as_set(r@[r0.len() as int]@) == paths_as_set(s[i as int].1@));
                    assert(ks[ks0.len() as int] == s[i as int].0);
                }
            }
            proof {
                assert forall|g: int| 0 <= g < r@.len() implies is_group_of(
                    self@,
                    (#[trigger] r@[g])@,
                ) by {
                    if g < r0.len() {
                        assert(r@[g] == r0[g]);
                        assert(is_group_of(self@, r0[g]@));
                    } else {
                        lemma_entries_map_key(s, i as int);
                        assert(self@.dom().contains(s[i as int].0) && paths_as_set(r@[g]@)
                            == self@[s[i as int].0]);
                    }
                }
                assert forall|e: int|
                    0 <= e < i + 1 && (#[trigger] s[e]).1@.len() >= 2 implies exists|g: int|
                    0 <= g < r@.len() && paths_as_set(r@[g]@) == paths_as_set(s[e].1@) by {
                    if e < i {
                        let g = choose|g: int|
                            0 <= g < r0.len() && paths_as_set(r0[g]@) == paths_as_set(s[e].1@);
                        assert(r@[g] == r0[g]);
                        assert(0 <= g < r@.len() && paths_as_set(r@[g]@) == paths_as_set(
                            s[e].1@,
                        ));
                    } else {
                        assert(0 <= r0.len() < r@.len() && paths_as_set(r@[r0.len() as int]@)
                            == paths_as_set(s[e].1@));
                    }
                }
                assert forall|g: int| #![trigger ks[g]] 0 <= g < ks.len() implies
                    entry_key_group(ks, r@, s, g, i + 1) by {
                    if g < ks0.len() {
                        assert(ks[g] == ks0[g] && r@[g] == r0[g]);
                        assert(entry_key_group(ks0, r0, s, g, i as int));
                        let e = choose|e: int|
                            0 <= e < i && ks0[g] == (#[trigger] s[e]).0 && s[e].1@.len() >= 2
                                && paths_as_set(r0[g]@) == paths_as_set(s[e].1@);
                        assert(0 <= e < i + 1 && ks[g] == s[e].0 && s[e].1@.len() >= 2
                            && paths_as_set(r@[g]@) == paths_as_set(s[e].1@));
                        assert(entry_key_group(ks, r@, s, g, i + 1));
                    } else {
                        assert(0 <= i < i + 1 && ks[g] == s[i as int].0 && s[i as int].1@.len()
                            >= 2 && paths_as_set(r@[g]@) == paths_as_set(s[i as int].1@));
                        assert(entry_key_group(ks, r@, s, g, i + 1));
                    }
                }
                assert forall|g1: int, g2: int| 0 <= g1 < g2 < ks.len() implies ks[g1]
                    != ks[g2] by {
                    if g2 < ks0.len() {
                        assert(ks[g1] == ks0[g1] && ks[g2] == ks0[g2]);
                    } else {
                        assert(ks[g1] == ks0[g1] && ks[g2] == s[i as int].0);
                        assert(entry_key_group(ks0, r0, s, g1, i as int));
                        let e = choose|e: int|
                            0 <= e < i && ks0[g1] == (#[trigger] s[e]).0 && s[e].1@.len() >= 2
                                && paths_as_set(r0[g1]@) == paths_as_set(s[e].1@);
                        assert(s[e].0 != s[i as int].0);
                    }
                }
                assert forall|e: int|
                    0 <= e < i + 1 && (#[trigger] s[e]).1@.len() >= 2 implies ks.contains(
                    s[e].0) by {
                    if e < i {
                        assert(ks0.contains(s[e].0));
                        let idx = choose|idx: int| 0 <= idx < ks0.len() && ks0[idx] == s[e].0;
                        assert(ks[idx] == s[e].0);
                    } else {
                        assert(ks[ks0.len() as int] == s[e].0);
                    }
                }
            }
            i += 1;
        }
        proof {
            assert forall|k: FileHashes|
                self@.dom().contains(k) && has_two(#[trigger] self@[k]) implies exists|g: int|
                0 <= g < r@.len() && paths_as_set(r@[g]@) == self@[k] by {
                lemma_entries_map_some_key(s, k);
                let e = choose|e: int| 0 <= e < s.len() && s[e].0 == k;
                lemma_entries_map_key(s, e);
                lemma_has_two_len(s[e].1@);
            }
            assert forall|g: int| 0 <= g < ks.len() implies self@.dom().contains(
                #[trigger] ks[g],
            ) && has_two(self@[ks[g]]) && paths_as_set(r@[g]@) == self@[ks[g]] by {
                let kg: FileHashes = ks[g];
                assert(kg == ks[g]);
                assert(entry_key_group(ks, r@, s, g, i as int));
                let e = choose|e: int|
                    0 <= e < i && ks[g] == (#[trigger] s[e]).0 && s[e].1@.len() >= 2
                        && paths_as_set(r@[g]@) == paths_as_set(s[e].1@);
                lemma_entries_map_key(s, e);
                lemma_len_two_has_two(s[e].1@);
            }
            assert forall|k: FileHashes|
                self@.dom().contains(k) && has_two(#[trigger] self@[k]) implies ks.contains(
                k) by {
                lemma_entries_map_some_key(s, k);
                let e = choose|e: int| 0 <= e < s.len() && s[e].0 == k;
                lemma_entries_map_key(s, e);
                lemma_has_two_len(s[e].1@);
            }
            assert(groups_keyed_by(ks, r@, self@));
        }
        r
    }
}

/// The key at position `g` comes from one of the first `i` backing
/// entries, an entry with at least two paths whose path set is exactly
/// the group at position `g`.
spec fn entry_key_group(
    ks: Seq<FileHashes>,
    r: Seq<Vec<Vec<u8>>>,
    s: Seq<(FileHashes, Vec<Vec<u8>>)>,
    g: int,
    i: int,
) -> bool {
    exists|e: int|
        0 <= e < i && ks[g] == (#[trigger] s[e]).0 && s[e].1@.len() >= 2 && paths_as_set(r[g]@)
            == paths_as_set(s[e].1@)
}

/// The key list `ks` shows that `groups` holds exactly one group per
/// fingerprint of `m` bound to two or more paths: the keys are
/// distinct, each group is its key\'s whole set, and every qualifying
/// fingerprint is covered. In particular the number of groups equals
/// the number of qualifying fingerprints.
pub open spec fn groups_keyed_by(
    ks: Seq<FileHashes>,
    groups: Seq<Vec<Vec<u8>>>,
    m: Map<FileHashes, Set<Seq<u8>>>,
) -> bool {
    &&& ks.len() == groups.len()
    &&& (forall|g1: int, g2: int| 0 <= g1 < g2 < ks.len() ==> ks[g1] != ks[g2])
    &&& (forall|g: int|
        0 <= g < ks.len() ==> m.dom().contains(#[trigger] ks[g]) && has_two(m[ks[g]])
            && paths_as_set(groups[g]@) == m[ks[g]])
    &&& (forall|k: FileHashes| m.dom().contains(k) && has_two(#[trigger] m[k]) ==> ks.contains(k))
}

proof fn lemma_len_two_has_two(ps: Seq<Vec<u8>>)
    requires
        ps.len() >= 2,
        paths_distinct(ps),
    ensures
        has_two(paths_as_set(ps)),
{
    let pv = paths_view(ps);
    assert(pv[0] == ps[0]@);
    assert(pv[1] == ps[1]@);
    assert(pv.contains(pv[0]));
    assert(pv.contains(pv[1]));
    assert((ps[0])@ != (ps[1])@);
    assert(paths_as_set(ps).contains(pv[0]) && paths_as_set(ps).contains(pv[1]));
}

/// The path list is bound, as a set, to some fingerprint of the map.
pub open spec fn is_group_of(m: Map<FileHashes, Set<Seq<u8>>>, ps: Seq<Vec<u8>>) -> bool {
    exists|k: FileHashes| #[trigger] m.dom().contains(k) && paths_as_set(ps) == m[k]
}

/// The set holds at least two distinct paths.
pub open spec fn has_two(ps: Set<Seq<u8>>) -> bool {
    exists|x: Seq<u8>, y: Seq<u8>| ps.contains(x) && ps.contains(y) && x != y
}

proof fn lemma_entries_map_some_key(s: Seq<(FileHashes, Vec<Vec<u8>>)>, k: FileHashes)
    requires
        entries_map(s).dom().contains(k),
    ensures
        exists|e: int| 0 <= e < s.len() && (#[trigger] s[e]).0 == k,
    decreases s.len(),
{
    if s.len() > 0 {
        if s.last().0 == k {
            assert(s[s.len() - 1].0 == k);
        } else {
            lemma_entries_map_some_key(s.drop_last(), k);
            let e = choose|e: int| 0 <= e < s.drop_last().len() && (#[trigger] s.drop_last()[e]).0
                == k;
            assert(s[e].0 == k);
        }
    }
}

proof fn lemma_has_two_len(ps: Seq<Vec<u8>>)
    requires
        has_two(paths_as_set(ps)),
    ensures
        ps.len() >= 2,
{
    let x = choose|x: Seq<u8>, y: Seq<u8>|
        paths_as_set(ps).contains(x) && paths_as_set(ps).contains(y) && x != y;
    let (x, y): (Seq<u8>, Seq<u8>) = x;
    let pv = paths_view(ps);
    let ix = choose|ix: int| 0 <= ix < pv.len() && pv[ix] == x;
    let iy = choose|iy: int| 0 <= iy < pv.len() && pv[iy] == y;
    assert(ix != iy);
}

/// Copies a list of paths.
fn clone_paths(ps: &Vec<Vec<u8>>) -> (r: Vec<Vec<u8>>)
    ensures
        r@.len() == ps@.len(),
        forall|i: int| 0 <= i < ps@.len() ==> (#[trigger] r@[i])@ == ps@[i]@,
{
    let mut r: Vec<Vec<u8>> = Vec::new();
    let mut i: usize = 0;
    while i < ps.len()
        invariant
            i <= ps@.len(),
            r@.len() == i,
            forall|t: int| 0 <= t < i ==> (#[trigger] r@[t])@ == ps@[t]@,
        decreases ps@.len() - i,
    {
        r.push(clone_bytes(&ps[i]));
        i += 1;
    }
    r
}

/// Law: joining caches is commutative. The union of two caches holds
/// identical key-to-set mappings whichever operand comes first.
pub proof fn lemma_join_commutative(a: Map<FileHashes, Set<Seq<u8>>>, b: Map<
    FileHashes,
    Set<Seq<u8>>,
>)
    ensures
        cache_union(a, b) == cache_union(b, a),
{
    assert forall|k: FileHashes| cache_union(a, b).dom().contains(k) implies cache_union(a, b)[k]
        == cache_union(b, a)[k] by {
        assert(set_at(a, k).union(set_at(b, k)) =~= set_at(b, k).union(set_at(a, k)));
    }
    assert(cache_union(a, b) =~= cache_union(b, a));
}

/// Law: joining caches is associative. Folding independently built
/// caches into one gives the same mapping however the folds are grouped.
pub proof fn lemma_join_associative(
    a: Map<FileHashes, Set<Seq<u8>>>,
    b: Map<FileHashes, Set<Seq<u8>>>,
    c: Map<FileHashes, Set<Seq<u8>>>,
)
    ensures
        cache_union(cache_union(a, b), c) == cache_union(a, cache_union(b, c)),
{
    assert forall|k: FileHashes| cache_union(cache_union(a, b), c).dom().contains(k) implies
        cache_union(cache_union(a, b), c)[k] == cache_union(a, cache_union(b, c))[k] by {
        assert(set_at(cache_union(a, b), k) =~= set_at(a, k).union(set_at(b, k)));
        assert(set_at(cache_union(b, c), k) =~= set_at(b, k).union(set_at(c, k)));
        assert(set_at(a, k).union(set_at(b, k)).union(set_at(c, k)) =~= set_at(a, k).union(
            set_at(b, k).union(set_at(c, k)),
        ));
    }
    assert(cache_union(cache_union(a, b), c) =~= cache_union(a, cache_union(b, c)));
}

/// Reports whether the list of paths holds the given path.
fn contains_path(paths: &Vec<Vec<u8>>, path: &Vec<u8>) -> (r: bool)
    ensures
        r == paths_as_set(paths@).contains(path@),
{
    let mut idx: usize = 0;
    while idx < paths.len()
        invariant
            idx <= paths@.len(),
            forall|i: int| 0 <= i < idx ==> (#[trigger] paths@[i])@ != path@,
        decreases paths@.len() - idx,
    {
        if bytes_eq(&paths[idx], path) {
            proof {
                assert(paths_view(paths@)[idx as int] == path@);
                assert(paths_view(paths@).contains(path@));
            }
            return true;
        }
        idx += 1;
    }
    proof {
        assert(forall|i: int| 0 <= i < paths@.len() ==> paths_view(paths@)[i] != path@);
        assert(!paths_view(paths@).contains(path@));
    }
    false
}

/// Law: fingerprinting is deterministic. The same sampled bytes and the
/// same size always yield equal fingerprints, however many times they
/// are fed in.
pub proof fn lemma_fingerprint_deterministic(
    data1: Seq<u8>,
    size1: u64,
    data2: Seq<u8>,
    size2: u64,
)
    requires
        data1 == data2,
        size1 == size2,
    ensures
        fingerprint_of(data1, size1) == fingerprint_of(data2, size2),
{
}

/// Law: files of different size always yield unequal fingerprints, so
/// the cache never groups them under one key.
pub proof fn lemma_size_distinguishes(data1: Seq<u8>, size1: u64, data2: Seq<u8>, size2: u64)
    requires
        size1 != size2,
    ensures
        fingerprint_of(data1, size1) != fingerprint_of(data2, size2),
{
}

} // verus!
