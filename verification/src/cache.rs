//! The build cache: transformed content keyed by module identity.
//!
//! Entries are created by an atomic claim-style insertion and never
//! overwritten, which is what guarantees that each module is transformed at
//! most once per build. Only the scheduler writes the cache; every other
//! component reads through `get`.

use vstd::prelude::*;

verus! {

/// One cache entry: a module identity and its transformed content.
pub struct CacheEntry {
    pub key: Vec<u8>,
    pub value: Vec<u8>,
}

/// The transform cache for one build invocation.
pub struct BuildCache {
    entries: Vec<CacheEntry>,
}

/// The first value stored under `key`, if any.
pub open spec fn lookup(m: Seq<(Seq<u8>, Seq<u8>)>, key: Seq<u8>) -> Option<Seq<u8>>
    decreases m.len(),
{
    if m.len() == 0 {
        None
    } else if m.first().0 == key {
        Some(m.first().1)
    } else {
        lookup(m.drop_first(), key)
    }
}

/// The keys of a cache model, in insertion order.
pub open spec fn keys_of(m: Seq<(Seq<u8>, Seq<u8>)>) -> Seq<Seq<u8>> {
    m.map_values(|e: (Seq<u8>, Seq<u8>)| e.0)
}

/// `lookup` finds the first entry with the key, and `None` exactly when no
/// entry carries it.
pub proof fn lemma_lookup(m: Seq<(Seq<u8>, Seq<u8>)>, key: Seq<u8>)
    ensures
        match lookup(m, key) {
            Some(v) => exists|i: int|
                0 <= i < m.len() && m[i].0 == key && m[i].1 == v && forall|j: int|
                    0 <= j < i ==> m[j].0 != key,
            None => forall|j: int| 0 <= j < m.len() ==> m[j].0 != key,
        },
    decreases m.len(),
{
    if m.len() == 0 {
    } else if m.first().0 == key {
        assert(m[0].0 == key && m[0].1 == m.first().1);
    } else {
        lemma_lookup(m.drop_first(), key);
        match lookup(m.drop_first(), key) {
            Some(v) => {
                let i = choose|i: int|
                    0 <= i < m.drop_first().len() && m.drop_first()[i].0 == key
                        && m.drop_first()[i].1 == v && forall|j: int|
                        0 <= j < i ==> m.drop_first()[j].0 != key;
                assert(m.drop_first()[i] == m[i + 1]);
                assert forall|j: int| 0 <= j < i + 1 implies m[j].0 != key by {
                    if j > 0 {
                        assert(m.drop_first()[j - 1] == m[j]);
                        assert(m.drop_first()[j - 1].0 != key);
                    }
                }
            },
            None => {
                assert forall|j: int| 0 <= j < m.len() implies m[j].0 != key by {
                    if j > 0 {
                        assert(m.drop_first()[j - 1] == m[j]);
                        assert(m.drop_first()[j - 1].0 != key);
                    }
                }
            },
        }
    }
}

impl BuildCache {
    /// The cache's mathematical view: key/value pairs in insertion order.
    pub closed spec fn model(self) -> Seq<(Seq<u8>, Seq<u8>)> {
        self.entries@.map_values(|e: CacheEntry| (e.key@, e.value@))
    }

    /// Well-formedness: each key is cached at most once.
    pub open spec fn wf(self) -> bool {
        keys_of(self.model()).no_duplicates()
    }

    /// Creates an empty cache.
    pub fn new() -> (c: BuildCache)
        ensures
            c.model() =~= Seq::<(Seq<u8>, Seq<u8>)>::empty(),
            c.wf(),
    {
        let c = BuildCache { entries: Vec::new() };
        proof {
            assert(c.model() =~= Seq::<(Seq<u8>, Seq<u8>)>::empty());
            assert(keys_of(c.model()) =~= Seq::<Seq<u8>>::empty());
        }
        c
    }

    /// The number of entries.
    pub fn len(&self) -> (n: usize)
        ensures
            n == self.model().len(),
    {
        self.entries.len()
    }

    /// The cached content for `key`, if present.
    pub fn get(&self, key: &Vec<u8>) -> (r: Option<Vec<u8>>)
        ensures
            match r {
                Some(v) => lookup(self.model(), key@) == Some(v@),
                None => lookup(self.model(), key@) is None,
            },
    {
        proof {
            lemma_lookup(self.model(), key@);
        }
        let mut i: usize = 0;
        while i < self.entries.len()
            invariant
                0 <= i <= self.model().len(),
                forall|j: int| 0 <= j < i ==> self.model()[j].0 != key@,
            decreases self.model().len() - i,
        {
            if crate::bytesutil::bytes_eq(&self.entries[i].key, key) {
                let v = crate::bytesutil::clone_bytes(&self.entries[i].value);
                proof {
                    lemma_lookup_at(self.model(), key@, i as int);
                }
                return Some(v);
            }
            i = i + 1;
        }
        None
    }

    /// Claims `key`: stores `value` and reports success when the key was
    /// free, and leaves the cache untouched when the key was already
    /// claimed. The claimant that receives `true` is the only one whose
    /// content is cached.
    pub fn insert_once(&mut self, key: &Vec<u8>, value: Vec<u8>) -> (claimed: bool)
        ensures
            claimed == (lookup(old(self).model(), key@) is None),
            claimed ==> final(self).model() == old(self).model().push((key@, value@)),
            !claimed ==> final(self).model() == old(self).model(),
            old(self).wf() ==> final(self).wf(),
    {
        proof {
            lemma_lookup(self.model(), key@);
        }
        let existing = self.get(key);
        match existing {
            Some(_) => false,
            None => {
                let ghost prev = self.model();
                let entry = CacheEntry { key: crate::bytesutil::clone_bytes(key), value };
                self.entries.push(entry);
                proof {
                    assert(self.model() =~= prev.push((key@, value@)));
                    if old(self).wf() {
                        assert(keys_of(self.model()) =~= keys_of(prev).push(key@));
                        lemma_lookup(prev, key@);
                        assert forall|j: int, k: int|
                            0 <= j < k < keys_of(self.model()).len() implies keys_of(
                            self.model(),
                        )[j] != keys_of(self.model())[k] by {
                            if k < prev.len() {
                                assert(keys_of(prev)[j] != keys_of(prev)[k]);
                            } else {
                                assert(prev[j].0 != key@);
                            }
                        }
                    }
                }
                true
            },
        }
    }

    /// The entry at position `i`, as a key/value pair.
    pub fn entry_at(&self, i: usize) -> (r: (Vec<u8>, Vec<u8>))
        requires
            i < self.model().len(),
        ensures
            (r.0@, r.1@) == self.model()[i as int],
    {
        (
            crate::bytesutil::clone_bytes(&self.entries[i].key),
            crate::bytesutil::clone_bytes(&self.entries[i].value),
        )
    }
}

/// A matching entry at `i`, with no earlier match, is what `lookup` finds.
pub proof fn lemma_lookup_at(m: Seq<(Seq<u8>, Seq<u8>)>, key: Seq<u8>, i: int)
    requires
        0 <= i < m.len(),
        m[i].0 == key,
        forall|j: int| 0 <= j < i ==> m[j].0 != key,
    ensures
        lookup(m, key) == Some(m[i].1),
    decreases i,
{
    if i == 0 {
    } else {
        assert(m.first().0 != key);
        assert forall|j: int| 0 <= j < i - 1 implies m.drop_first()[j].0 != key by {
            assert(m.drop_first()[j] == m[j + 1]);
        }
        assert(m.drop_first()[i - 1] == m[i]);
        lemma_lookup_at(m.drop_first(), key, i - 1);
    }
}

/// Empties the cache completely.
pub fn clear_cache(cache: &mut BuildCache)
    ensures
        final(cache).model() =~= Seq::<(Seq<u8>, Seq<u8>)>::empty(),
        final(cache).wf(),
{
    let fresh = BuildCache::new();
    *cache = fresh;
}

/// The total number of bytes held by a cache model: for each entry, the
/// key length plus the content length.
pub open spec fn cache_bytes(m: Seq<(Seq<u8>, Seq<u8>)>) -> nat
    decreases m.len(),
{
    if m.len() == 0 {
        0
    } else {
        m.first().0.len() + m.first().1.len() + cache_bytes(m.drop_first())
    }
}

/// `cache_bytes` of a prefix extended by one entry.
proof fn lemma_cache_bytes_take(m: Seq<(Seq<u8>, Seq<u8>)>, i: int)
    requires
        0 <= i < m.len(),
    ensures
        cache_bytes(m.take(i + 1)) == cache_bytes(m.take(i)) + m[i].0.len() + m[i].1.len(),
    decreases i,
{
    if i == 0 {
        assert(m.take(1).drop_first() =~= m.take(0));
        assert(m.take(1).first() == m[0]);
    } else {
        lemma_cache_bytes_take(m.drop_first(), i - 1);
        assert(m.take(i + 1).first() == m.first());
        assert(m.take(i + 1).drop_first() =~= m.drop_first().take(i));
        assert(m.take(i).first() == m.first());
        assert(m.take(i).drop_first() =~= m.drop_first().take(i - 1));
        assert(m.drop_first()[i - 1] == m[i]);
    }
}

/// The total size of the cache in bytes, saturating at the machine limit.
pub fn calculate_cache_size_in_bytes(cache: &BuildCache) -> (r: usize)
    ensures
        cache_bytes(cache.model()) <= usize::MAX ==> r == cache_bytes(cache.model()),
        cache_bytes(cache.model()) > usize::MAX ==> r == usize::MAX,
{
    let ghost m = cache.model();
    let mut total: usize = 0;
    let mut i: usize = 0;
    proof {
        assert(m.take(0) =~= Seq::<(Seq<u8>, Seq<u8>)>::empty());
    }
    while i < cache.len()
        invariant
            0 <= i <= m.len(),
            cache_bytes(m.take(i as int)) <= usize::MAX ==> total == cache_bytes(
                m.take(i as int),
            ),
            cache_bytes(m.take(i as int)) > usize::MAX ==> total == usize::MAX,
        decreases m.len() - i,
    {
        let entry = cache.entry_at(i);
        proof {
            lemma_cache_bytes_take(m, i as int);
        }
        let add0 = if entry.0.len() <= usize::MAX - entry.1.len() {
            entry.0.len() + entry.1.len()
        } else {
            usize::MAX
        };
        if total <= usize::MAX - add0 {
            total = total + add0;
        } else {
            total = usize::MAX;
        }
        i = i + 1;
    }
    proof {
        assert(m.take(m.len() as int) =~= m);
    }
    total
}

/// The decimal digit characters of `n`, most significant first.
pub open spec fn dec_chars(n: nat) -> Seq<char>
    decreases n,
{
    if n < 10 {
        seq![digit_char(n)]
    } else {
        dec_chars(n / 10).push(digit_char(n % 10))
    }
}

/// The character for one decimal digit.
pub open spec fn digit_char(d: nat) -> char {
    if d == 0 {
        '0'
    } else if d == 1 {
        '1'
    } else if d == 2 {
        '2'
    } else if d == 3 {
        '3'
    } else if d == 4 {
        '4'
    } else if d == 5 {
        '5'
    } else if d == 6 {
        '6'
    } else if d == 7 {
        '7'
    } else if d == 8 {
        '8'
    } else {
        '9'
    }
}

/// Appends the decimal rendering of `n` to `s`.
fn push_dec(s: &mut String, n: u64)
    ensures
        final(s)@ == old(s)@ + dec_chars(n as nat),
    decreases n,
{
    if n >= 10 {
        push_dec(s, n / 10);
    }
    let d = n % 10;
    proof {
        reveal_strlit("0");
        reveal_strlit("1");
        reveal_strlit("2");
        reveal_strlit("3");
        reveal_strlit("4");
        reveal_strlit("5");
        reveal_strlit("6");
        reveal_strlit("7");
        reveal_strlit("8");
        reveal_strlit("9");
    }
    let ghost mid = s@;
    if d == 0 {
        s.append("0");
    } else if d == 1 {
        s.append("1");
    } else if d == 2 {
        s.append("2");
    } else if d == 3 {
        s.append("3");
    } else if d == 4 {
        s.append("4");
    } else if d == 5 {
        s.append("5");
    } else if d == 6 {
        s.append("6");
    } else if d == 7 {
        s.append("7");
    } else if d == 8 {
        s.append("8");
    } else {
        s.append("9");
    }
    proof {
        assert(s@ =~= mid.push(digit_char((n % 10) as nat)));
        if n < 10 {
            assert(mid.push(digit_char(n as nat)) =~= old(s)@ + dec_chars(n as nat));
        } else {
            assert(mid == old(s)@ + dec_chars((n / 10) as nat));
            assert(mid.push(digit_char((n % 10) as nat)) =~= old(s)@ + dec_chars(n as nat));
        }
    }
}

/// The rendering of a duration of `seconds` seconds: hours, minutes and
/// seconds, as in `2h 30m 5s`.
pub open spec fn duration_chars(seconds: nat) -> Seq<char> {
    dec_chars(seconds / 3600) + seq!['h', ' '] + dec_chars((seconds % 3600) / 60) + seq![
        'm',
        ' ',
    ] + dec_chars(seconds % 60) + seq!['s']
}

/// Formats a duration given in seconds as hours, minutes and seconds.
pub fn format_duration(seconds: u64) -> (r: String)
    ensures
        r@ == duration_chars(seconds as nat),
{
    let hours = seconds / 3600;
    let minutes = (seconds % 3600) / 60;
    let secs = seconds % 60;
    let mut out = String::new();
    push_dec(&mut out, hours);
    proof {
        reveal_strlit("h ");
        reveal_strlit("m ");
        reveal_strlit("s");
    }
    out.append("h ");
    push_dec(&mut out, minutes);
    out.append("m ");
    push_dec(&mut out, secs);
    out.append("s");
    proof {
        assert(out@ =~= duration_chars(seconds as nat));
    }
    out
}

} // verus!
