//! The search result cache: a bounded least-recently-used cache from a
//! normalized query key to the full, unpaged response for that key.
//! Pagination of cache hits is applied to a copy; cached entries are never
//! mutated. A capacity of zero disables caching entirely.

use vstd::multiset::Multiset;
use vstd::prelude::*;

use crate::podcast::{tag_views, PodcastTag};
use crate::search_result::{slice_view, slice_result, SearchResult, SearchResultView};
use crate::strutil::{lex_le, lex_le_bytes, lemma_lex_le_total, lemma_lex_le_antisymmetric,
    lemma_lex_le_transitive};

verus! {

/// The cache key: query text (or none), the normalized tag texts as UTF-8
/// bytes, and the two length bounds.
pub type SearchKey = (Option<String>, Vec<Vec<u8>>, Option<usize>, Option<usize>);

type SearchLru = lru::LruCache<SearchKey, SearchResult, std::collections::hash_map::RandomState>;

/// The mathematical content of a cache key.
pub type CacheKeyView = (Option<Seq<char>>, Seq<Seq<u8>>, Option<usize>, Option<usize>);

/// The views of a list of byte strings.
pub open spec fn byte_views(s: Seq<Vec<u8>>) -> Seq<Seq<u8>> {
    s.map_values(|b: Vec<u8>| b@)
}

/// The view of an optional query string.
pub open spec fn opt_text(q: Option<String>) -> Option<Seq<char>> {
    match q {
        Some(s) => Some(s@),
        None => None,
    }
}

/// The view of a cache key value.
pub open spec fn key_view(k: SearchKey) -> CacheKeyView {
    (opt_text(k.0), byte_views(k.1@), k.2, k.3)
}

/// Lexicographic byte order as a relation value.
pub open spec fn lex_leq() -> spec_fn(Seq<u8>, Seq<u8>) -> bool {
    |a: Seq<u8>, b: Seq<u8>| lex_le(a, b)
}

/// Tag texts as UTF-8 byte strings.
pub open spec fn encoded_texts(ts: Seq<Seq<char>>) -> Seq<Seq<u8>> {
    ts.map_values(|t: Seq<char>| vstd::utf8::encode_utf8(t))
}

/// The normalized (sorted) form of a set of tag texts.
pub open spec fn normalized_tag_key(ts: Seq<Seq<char>>) -> Seq<Seq<u8>> {
    encoded_texts(ts).sort_by(lex_leq())
}

/// The cache key for one request, as a function of the request alone.
pub open spec fn cache_key(
    q: Option<Seq<char>>,
    ts: Seq<Seq<char>>,
    min_or: Option<usize>,
    max_or: Option<usize>,
) -> CacheKeyView {
    (q, normalized_tag_key(ts), min_or, max_or)
}

proof fn lemma_lex_total_ordering()
    ensures
        vstd::relations::total_ordering(lex_leq()),
{
    let leq = lex_leq();
    assert forall|a: Seq<u8>| #[trigger] leq(a, a) by {
        lemma_lex_le_total(a, a);
    }
    assert forall|a: Seq<u8>, b: Seq<u8>| #[trigger] leq(a, b) && #[trigger] leq(b, a)
        implies a == b by {
        lemma_lex_le_antisymmetric(a, b);
    }
    assert forall|a: Seq<u8>, b: Seq<u8>, c: Seq<u8>|
        #[trigger] leq(a, b) && #[trigger] leq(b, c) implies leq(a, c) by {
        lemma_lex_le_transitive(a, b, c);
    }
    assert forall|a: Seq<u8>, b: Seq<u8>| #[trigger] leq(a, b) || #[trigger] leq(b, a) by {
        lemma_lex_le_total(a, b);
    }
}

/// Sorts byte strings ascending in lexicographic order; the result is the
/// unique sorted permutation of the input.
fn sort_byte_keys(src: Vec<Vec<u8>>) -> (r: Vec<Vec<u8>>)
    ensures
        byte_views(r@) == byte_views(src@).sort_by(lex_leq()),
{
    broadcast use vstd::seq_lib::group_to_multiset_ensures;
    broadcast use vstd::multiset::group_multiset_axioms;

    let ghost leq = lex_leq();
    let ghost ms0 = byte_views(src@).to_multiset();
    let mut rest = src;
    let mut out: Vec<Vec<u8>> = Vec::new();
    proof {
        assert(byte_views(out@) =~= Seq::<Seq<u8>>::empty());
        assert(byte_views(out@).to_multiset().add(byte_views(rest@).to_multiset()) =~= ms0);
    }
    while rest.len() > 0
        invariant
            leq == lex_leq(),
            byte_views(out@).to_multiset().add(byte_views(rest@).to_multiset()) == ms0,
            vstd::relations::sorted_by(byte_views(out@), leq),
            forall|p: int, q: int|
                #![trigger byte_views(out@)[p], byte_views(rest@)[q]]
                0 <= p < out@.len() && 0 <= q < rest@.len() ==> leq(
                    byte_views(out@)[p],
                    byte_views(rest@)[q],
                ),
        decreases rest@.len(),
    {
        let mut best: usize = 0;
        let mut m: usize = 1;
        proof {
            lemma_lex_le_total(byte_views(rest@)[0], byte_views(rest@)[0]);
        }
        while m < rest.len()
            invariant
                leq == lex_leq(),
                best < rest@.len(),
                m <= rest@.len(),
                0 < rest@.len(),
                forall|q: int|
                    0 <= q < m ==> leq(byte_views(rest@)[best as int], #[trigger] byte_views(
                        rest@,
                    )[q]),
            decreases rest@.len() - m,
        {
            if lex_le_bytes(rest[m].as_slice(), rest[best].as_slice()) {
                proof {
                    assert forall|q: int|
                        0 <= q < m + 1 implies leq(byte_views(rest@)[m as int], #[trigger]
                    byte_views(rest@)[q]) by {
                        if q < m {
                            lemma_lex_le_transitive(
                                byte_views(rest@)[m as int],
                                byte_views(rest@)[best as int],
                                byte_views(rest@)[q],
                            );
                        } else {
                            lemma_lex_le_total(byte_views(rest@)[m as int],
                                byte_views(rest@)[m as int]);
                        }
                    }
                }
                best = m;
            } else {
                proof {
                    lemma_lex_le_total(byte_views(rest@)[m as int], byte_views(rest@)[best as int]);
                }
            }
            m = m + 1;
        }
        let ghost old_out = byte_views(out@);
        let ghost old_rest = byte_views(rest@);
        let ghost pv = byte_views(rest@)[best as int];
        let p = rest.remove(best);
        out.push(p);
        proof {
            assert(p@ == pv);
            assert(byte_views(rest@) =~= old_rest.remove(best as int));
            assert(byte_views(out@) =~= old_out.push(pv));
            assert(old_rest.contains(pv));
            vstd::seq_lib::to_multiset_contains(old_rest, pv);
            vstd::seq_lib::to_multiset_build(old_out, pv);
            vstd::seq_lib::to_multiset_remove(old_rest, best as int);
            assert(byte_views(out@).to_multiset().add(byte_views(rest@).to_multiset()) =~= ms0);
            assert forall|pp: int, q: int|
                #![trigger byte_views(out@)[pp], byte_views(rest@)[q]]
                0 <= pp < out@.len() && 0 <= q < rest@.len() implies leq(
                byte_views(out@)[pp],
                byte_views(rest@)[q],
            ) by {
                assert(byte_views(rest@)[q] == if q < best {
                    old_rest[q]
                } else {
                    old_rest[q + 1]
                });
                assert(leq(pv, byte_views(rest@)[q]));
                if pp < old_out.len() {
                    assert(byte_views(out@)[pp] == old_out[pp]);
                } else {
                    assert(byte_views(out@)[pp] == pv);
                }
            }
            assert(vstd::relations::sorted_by(byte_views(out@), leq)) by {
                assert forall|i: int, j: int|
                    0 <= i < j < byte_views(out@).len() implies #[trigger] leq(
                    byte_views(out@)[i],
                    byte_views(out@)[j],
                ) by {
                    if j < old_out.len() {
                        assert(leq(old_out[i], old_out[j]));
                    } else {
                        if i < old_out.len() {
                            assert(leq(old_out[i], old_rest[best as int]));
                        } else {
                            lemma_lex_le_total(pv, pv);
                        }
                    }
                }
            }
        }
    }
    proof {
        lemma_lex_total_ordering();
        byte_views(src@).lemma_sort_by_ensures(leq);
        assert(byte_views(rest@) =~= Seq::<Seq<u8>>::empty());
        assert(byte_views(rest@).to_multiset() =~= Multiset::<Seq<u8>>::empty());
        assert(byte_views(out@).to_multiset() =~= ms0);
        assert(byte_views(src@).sort_by(leq).to_multiset() == ms0);
        vstd::seq_lib::lemma_sorted_unique(byte_views(out@), byte_views(src@).sort_by(leq), leq);
    }
    out
}

/// Builds the cache key for one request: the query as given, the tag texts
/// encoded and sorted, and the two bounds.
fn build_cache_key(
    query_or: &Option<String>,
    tags: &Vec<PodcastTag>,
    min_length_seconds: Option<usize>,
    max_length_seconds: Option<usize>,
) -> (k: SearchKey)
    ensures
        key_view(k) == cache_key(
            opt_text(*query_or),
            tag_views(tags@),
            min_length_seconds,
            max_length_seconds,
        ),
{
    let ghost encoded = encoded_texts(tag_views(tags@));
    let mut bytes: Vec<Vec<u8>> = Vec::new();
    let mut i: usize = 0;
    proof {
        assert(byte_views(bytes@) =~= encoded.take(0));
    }
    while i < tags.len()
        invariant
            i <= tags@.len(),
            encoded == encoded_texts(tag_views(tags@)),
            encoded.len() == tags@.len(),
            byte_views(bytes@) == encoded.take(i as int),
        decreases tags@.len() - i,
    {
        let b = tags[i].to_string().as_bytes_vec();
        let ghost before = byte_views(bytes@);
        proof {
            assert(b@ == vstd::utf8::encode_utf8(tag_views(tags@)[i as int]));
            assert(b@ == encoded[i as int]);
        }
        bytes.push(b);
        proof {
            assert(byte_views(bytes@) =~= before.push(encoded[i as int]));
            assert(before.push(encoded[i as int]) =~= encoded.take(i + 1));
        }
        i = i + 1;
    }
    proof {
        assert(encoded.take(encoded.len() as int) =~= encoded);
    }
    let sorted = sort_byte_keys(bytes);
    let q = query_or.clone();
    proof {
        match *query_or {
            Some(_) => {
                assert(cloned::<String>(query_or.unwrap(), q.unwrap()));
            },
            None => {},
        }
        assert(opt_text(q) == opt_text(*query_or));
    }
    (q, sorted, min_length_seconds, max_length_seconds)
}

#[verifier::external_type_specification]
#[verifier::external_body]
#[verifier::reject_recursive_types(K)]
#[verifier::reject_recursive_types(V)]
#[verifier::reject_recursive_types(S)]
pub struct ExLruCache<K, V, S>(lru::LruCache<K, V, S>);

/// What the cache holds: the full response stored under each key.
pub uninterp spec fn lru_contents(c: SearchLru) -> Map<CacheKeyView, SearchResultView>;

/// The empty cache contents.
pub open spec fn no_entries() -> Map<CacheKeyView, SearchResultView> {
    Map::empty()
}

/// The fixed capacity the cache was created with.
pub uninterp spec fn lru_cap(c: SearchLru) -> int;

/// Relies on `lru::LruCache::new` (with a fresh `RandomState` hasher via
/// `with_hasher`): a new cache is empty and holds at most `cap` entries.
#[verifier::external_body]
fn lru_new(cap: usize) -> (r: SearchLru)
    requires
        cap >= 1,
    ensures
        lru_contents(r) == no_entries(),
        lru_cap(r) == cap as int,
{
    lru::LruCache::with_hasher(
        std::num::NonZeroUsize::new(cap).unwrap(),
        std::collections::hash_map::RandomState::new(),
    )
}

/// Relies on `lru::LruCache::get`: returns the entry stored under the key,
/// if any, updating only recency bookkeeping; the mapping is unchanged.
#[verifier::external_body]
fn lru_get(c: &mut SearchLru, k: &SearchKey) -> (r: Option<SearchResult>)
    ensures
        lru_contents(*final(c)) == lru_contents(*old(c)),
        lru_cap(*final(c)) == lru_cap(*old(c)),
        match r {
            Some(v) => lru_contents(*old(c)).dom().contains(key_view(*k)) && v@ == lru_contents(
                *old(c),
            )[key_view(*k)],
            None => !lru_contents(*old(c)).dom().contains(key_view(*k)),
        },
{
    c.get(k).cloned()
}

/// Relies on `lru::LruCache::put`: inserts the pair; since the capacity is
/// at least one, the inserted pair is present afterwards, and any other
/// surviving entry was already present with the same value (the
/// least-recently-used entry may have been evicted).
#[verifier::external_body]
fn lru_put(c: &mut SearchLru, k: SearchKey, v: SearchResult)
    ensures
        lru_cap(*final(c)) == lru_cap(*old(c)),
        lru_contents(*final(c)).contains_pair(key_view(k), v@),
        forall|k2: CacheKeyView|
            #[trigger] lru_contents(*final(c)).dom().contains(k2) && k2 != key_view(k)
                ==> lru_contents(*old(c)).contains_pair(k2, lru_contents(*final(c))[k2]),
{
    c.put(k, v);
}

/// Relies on `lru::LruCache::clear`: removes every entry.
#[verifier::external_body]
fn lru_clear(c: &mut SearchLru)
    ensures
        lru_contents(*final(c)) == no_entries(),
        lru_cap(*final(c)) == lru_cap(*old(c)),
{
    c.clear();
}

/// The LRU cache of full search responses, guarded by the capacity given at
/// construction; capacity zero disables caching.
pub struct SearchCache {
    lru: SearchLru,
    cap: usize,
}

impl SearchCache {
    /// Whether caching is enabled at all.
    pub closed spec fn enabled(&self) -> bool {
        self.cap >= 1
    }

    /// The cached mapping from key to full response.
    pub closed spec fn contents(&self) -> Map<CacheKeyView, SearchResultView> {
        lru_contents(self.lru)
    }

    pub fn new(cap: usize) -> (r: Self)
        ensures
            r.contents() == no_entries(),
            r.enabled() == (cap >= 1),
    {
        let lru = if cap == 0 {
            lru_new(1)
        } else {
            lru_new(cap)
        };
        SearchCache { lru, cap }
    }

    /// Empties the cache.
    pub fn reset(&mut self)
        ensures
            final(self).contents() == no_entries(),
            final(self).enabled() == old(self).enabled(),
    {
        lru_clear(&mut self.lru);
    }

    /// Returns the page cut from the cached full response for this request's
    /// key, or `None` on a miss (or when caching is disabled). The cached
    /// entry itself is never changed.
    pub fn get_cached_page(
        &mut self,
        query_or: &Option<String>,
        tags: &Vec<PodcastTag>,
        limit_or: Option<usize>,
        offset: usize,
        min_length_seconds: Option<usize>,
        max_length_seconds: Option<usize>,
    ) -> (r: Option<SearchResult>)
        ensures
            final(self).contents() == old(self).contents(),
            final(self).enabled() == old(self).enabled(),
            ({
                let kv = cache_key(
                    opt_text(*query_or),
                    tag_views(tags@),
                    min_length_seconds,
                    max_length_seconds,
                );
                match r {
                    Some(page) => old(self).enabled() && old(self).contents().dom().contains(kv)
                        && page@.hits == slice_view(
                        old(self).contents()[kv].hits,
                        limit_or,
                        offset as int,
                    ) && page@.total_hits == old(self).contents()[kv].total_hits
                        && page@.total_hits_is_approximate == old(
                        self,
                    ).contents()[kv].total_hits_is_approximate && page@.processing_time_ms == old(
                        self,
                    ).contents()[kv].processing_time_ms,
                    None => !old(self).enabled() || !old(self).contents().dom().contains(kv),
                }
            }),
    {
        if self.cap == 0 {
            return None;
        }
        let key = build_cache_key(query_or, tags, min_length_seconds, max_length_seconds);
        match lru_get(&mut self.lru, &key) {
            Some(full) => Some(slice_result(&full, limit_or, offset)),
            None => None,
        }
    }

    /// Stores a full response under this request's key, but only for
    /// cacheable requests: no explicit limit and a zero offset. All other
    /// requests, and every request while caching is disabled, leave the
    /// cache untouched.
    pub fn store_unpaged(
        &mut self,
        query_or: &Option<String>,
        tags: &Vec<PodcastTag>,
        limit_or: Option<usize>,
        offset: usize,
        min_length_seconds: Option<usize>,
        max_length_seconds: Option<usize>,
        result: &SearchResult,
    )
        ensures
            final(self).enabled() == old(self).enabled(),
            ({
                let kv = cache_key(
                    opt_text(*query_or),
                    tag_views(tags@),
                    min_length_seconds,
                    max_length_seconds,
                );
                if old(self).enabled() && limit_or is None && offset == 0 {
                    final(self).contents().contains_pair(kv, result@) && (forall|
                        k2: CacheKeyView,
                    |
                        #[trigger] final(self).contents().dom().contains(k2) && k2 != kv ==> old(
                            self,
                        ).contents().contains_pair(k2, final(self).contents()[k2]))
                } else {
                    final(self).contents() == old(self).contents()
                }
            }),
    {
        if self.cap == 0 {
            return ;
        }
        match limit_or {
            Some(_) => {
                return ;
            },
            None => {},
        }
        if offset != 0 {
            return ;
        }
        let key = build_cache_key(query_or, tags, min_length_seconds, max_length_seconds);
        let full = result.clone();
        lru_put(&mut self.lru, key, full);
    }
}

} // verus!
