//! Facet counts: for a pool of episodes (typically one already narrowed by
//! the selected tags), how many pool episodes carry each tag, with the
//! selected tags removed from the answer, an optional case-insensitive text
//! filter, a fixed ordering (count descending, then case-insensitive tag
//! text ascending), and offset/limit pagination.

use vstd::prelude::*;

use crate::podcast::{pod_views, tag_views, Podcast, PodcastTag, PodcastView, distinct_seqs,
    tag_in};
use crate::strutil::{contains_bytes, contains_seq, lex_le, lex_le_bytes, lower_bytes, lower_of,
    lemma_lex_le_total, lemma_lex_le_transitive};

verus! {

/// Carrying a fixed tag, as a predicate on episodes.
pub open spec fn has_tag(t: Seq<char>) -> spec_fn(PodcastView) -> bool {
    |p: PodcastView| p.tags.contains(t)
}

/// How many episodes of the pool carry tag `t`.
pub open spec fn count_in_pool(pool: Seq<PodcastView>, t: Seq<char>) -> int {
    pool.filter(has_tag(t)).len() as int
}

/// Some entry counts tag `t`.
pub open spec fn tag_entry_present(cs: Seq<(PodcastTag, usize)>, t: Seq<char>) -> bool {
    exists|a: int| 0 <= a < cs.len() && (#[trigger] cs[a]).0@ == t
}

/// No tag owns two entries.
pub open spec fn entries_distinct(cs: Seq<(PodcastTag, usize)>) -> bool {
    forall|a: int, b: int|
        #![trigger cs[a], cs[b]]
        0 <= a < b < cs.len() ==> cs[a].0@ != cs[b].0@
}

proof fn lemma_contains_take_push(s: Seq<Seq<char>>, k: int, x: Seq<char>)
    requires
        0 <= k < s.len(),
    ensures
        s.take(k + 1).contains(x) == (s.take(k).contains(x) || s[k] == x),
{
    if s.take(k).contains(x) {
        let q = choose|q: int| 0 <= q < s.take(k).len() && s.take(k)[q] == x;
        assert(s.take(k + 1)[q] == x);
    }
    if s[k] == x {
        assert(s.take(k + 1)[k] == x);
    }
    if s.take(k + 1).contains(x) {
        let q = choose|q: int| 0 <= q < s.take(k + 1).len() && #[trigger] s.take(k + 1)[q] == x;
        if q < k {
            assert(s.take(k)[q] == x);
        }
    }
}

/// The position of the entry counting tag `t`, if any.
fn find_count_entry(cs: &Vec<(PodcastTag, usize)>, t: &PodcastTag) -> (r: Option<usize>)
    ensures
        match r {
            Some(j) => 0 <= j < cs@.len() && cs@[j as int].0@ == t@,
            None => forall|a: int| 0 <= a < cs@.len() ==> (#[trigger] cs@[a]).0@ != t@,
        },
{
    let mut j: usize = 0;
    while j < cs.len()
        invariant
            j <= cs@.len(),
            forall|a: int| 0 <= a < j ==> (#[trigger] cs@[a]).0@ != t@,
        decreases cs@.len() - j,
    {
        if cs[j].0 == *t {
            return Some(j);
        }
        j = j + 1;
    }
    None
}

/// Counts, for every tag carried by any pool episode, how many pool
/// episodes carry it. One entry per tag; every count is exact and at
/// least one.
#[verifier::rlimit(60)]
pub fn count_tags(pool: &Vec<Podcast>) -> (r: Vec<(PodcastTag, usize)>)
    requires
        forall|m: int|
            0 <= m < pool@.len() ==> distinct_seqs((#[trigger] pod_views(pool@)[m]).tags),
    ensures
        entries_distinct(r@),
        forall|a: int|
            0 <= a < r@.len() ==> (#[trigger] r@[a]).1 as int == count_in_pool(
                pod_views(pool@),
                r@[a].0@,
            ) && r@[a].1 >= 1,
        forall|e: int, kk: int|
            #![trigger pod_views(pool@)[e].tags[kk]]
            0 <= e < pool@.len() && 0 <= kk < pod_views(pool@)[e].tags.len() ==> tag_entry_present(
                r@,
                pod_views(pool@)[e].tags[kk],
            ),
{
    broadcast use vstd::seq_lib::group_filter_ensures;

    let ghost vs = pod_views(pool@);
    let mut cs: Vec<(PodcastTag, usize)> = Vec::new();
    let mut i: usize = 0;
    proof {
        assert(vs.take(0) =~= Seq::<PodcastView>::empty());
    }
    while i < pool.len()
        invariant
            i <= pool@.len(),
            vs == pod_views(pool@),
            forall|m: int| 0 <= m < vs.len() ==> distinct_seqs((#[trigger] vs[m]).tags),
            entries_distinct(cs@),
            forall|a: int|
                0 <= a < cs@.len() ==> (#[trigger] cs@[a]).1 as int == count_in_pool(
                    vs.take(i as int),
                    cs@[a].0@,
                ) && cs@[a].1 >= 1,
            forall|e: int, kk: int|
                #![trigger vs[e].tags[kk]]
                0 <= e < i && 0 <= kk < vs[e].tags.len() ==> tag_entry_present(
                    cs@,
                    vs[e].tags[kk],
                ),
        decreases pool@.len() - i,
    {
        let ep_tags = pool[i].get_tags();
        let ghost tv = vs[i as int].tags;
        proof {
            assert(tag_views(ep_tags@) == tv);
        }
        let mut k: usize = 0;
        while k < ep_tags.len()
            invariant
                i < pool@.len(),
                i < usize::MAX,
                k <= ep_tags@.len(),
                vs == pod_views(pool@),
                tv == vs[i as int].tags,
                tag_views(ep_tags@) == tv,
                forall|m: int| 0 <= m < vs.len() ==> distinct_seqs((#[trigger] vs[m]).tags),
                entries_distinct(cs@),
                forall|a: int|
                    0 <= a < cs@.len() ==> (#[trigger] cs@[a]).1 as int == count_in_pool(
                        vs.take(i as int),
                        cs@[a].0@,
                    ) + (if tv.take(k as int).contains(cs@[a].0@) {
                        1int
                    } else {
                        0int
                    }) && cs@[a].1 >= 1,
                forall|e: int, kk: int|
                    #![trigger vs[e].tags[kk]]
                    0 <= e < i && 0 <= kk < vs[e].tags.len() ==> tag_entry_present(
                        cs@,
                        vs[e].tags[kk],
                    ),
                forall|k2: int|
                    #![trigger tv[k2]]
                    0 <= k2 < k ==> tag_entry_present(cs@, tv[k2]),
            decreases ep_tags@.len() - k,
        {
            let t = &ep_tags[k];
            proof {
                assert(t@ == tv[k as int]);
                assert(!tv.take(k as int).contains(tv[k as int])) by {
                    if tv.take(k as int).contains(tv[k as int]) {
                        let q = choose|q: int|
                            0 <= q < tv.take(k as int).len() && tv.take(k as int)[q]
                                == tv[k as int];
                        assert(tv[q] == tv[k as int]);
                        assert(distinct_seqs(vs[i as int].tags));
                    }
                }
                vs.take(i as int).lemma_filter_len(has_tag(t@));
            }
            let ghost old_cs = cs@;
            match find_count_entry(&cs, t) {
                Some(j) => {
                    let mut entry = cs.remove(j);
                    proof {
                        assert(old_cs[j as int].1 as int == count_in_pool(
                            vs.take(i as int),
                            old_cs[j as int].0@,
                        ));
                        assert(count_in_pool(vs.take(i as int), t@) <= i);
                        assert(entry == old_cs[j as int]);
                        assert(entry.1 as int <= i);
                    }
                    entry.1 = entry.1 + 1;
                    cs.insert(j, entry);
                    proof {
                        assert(cs@ =~= old_cs.update(j as int, cs@[j as int]));
                        assert(cs@[j as int].0@ == t@);
                        assert(cs@[j as int].1 == old_cs[j as int].1 + 1);
                        assert forall|a: int|
                            0 <= a < cs@.len() implies (#[trigger] cs@[a]).1 as int
                            == count_in_pool(vs.take(i as int), cs@[a].0@) + (
                        if tv.take(k + 1).contains(cs@[a].0@) {
                            1int
                        } else {
                            0int
                        }) && cs@[a].1 >= 1 by {
                            lemma_contains_take_push(tv, k as int, cs@[a].0@);
                            if a == j {
                                assert(tv[k as int] == cs@[a].0@);
                            } else {
                                assert(cs@[a] == old_cs[a]);
                                assert(cs@[a].0@ != tv[k as int]);
                            }
                        }
                        assert forall|k2: int| #![trigger tv[k2]] 0 <= k2 < k + 1 implies
                            tag_entry_present(cs@, tv[k2]) by {
                            if k2 == k {
                                assert(cs@[j as int].0@ == tv[k2]);
                            } else {
                                assert(tag_entry_present(old_cs, tv[k2]));
                                let a0 = choose|a: int|
                                    0 <= a < old_cs.len() && (#[trigger] old_cs[a]).0@ == tv[k2];
                                assert(cs@[a0].0@ == tv[k2]);
                            }
                        }
                        assert forall|e: int, kk: int|
                            #![trigger vs[e].tags[kk]]
                            0 <= e < i && 0 <= kk < vs[e].tags.len() implies tag_entry_present(
                            cs@,
                            vs[e].tags[kk],
                        ) by {
                            assert(tag_entry_present(old_cs, vs[e].tags[kk]));
                            let a0 = choose|a: int|
                                0 <= a < old_cs.len() && (#[trigger] old_cs[a]).0@
                                    == vs[e].tags[kk];
                            assert(cs@[a0].0@ == vs[e].tags[kk]);
                        }
                    }
                },
                None => {
                    let nt = t.clone();
                    cs.push((nt, 1));
                    proof {
                        assert(cs@ =~= old_cs.push(cs@[old_cs.len() as int]));
                        assert(cs@[old_cs.len() as int].0@ == t@);
                        assert(cs@[old_cs.len() as int].1 == 1);
                        assert(count_in_pool(vs.take(i as int), t@) == 0) by {
                            assert forall|x: int|
                                0 <= x < vs.take(i as int).len() implies !(has_tag(t@)(
                                #[trigger] vs.take(i as int)[x],
                            )) by {
                                if vs.take(i as int)[x].tags.contains(t@) {
                                    let kk = choose|kk: int|
                                        0 <= kk < vs[x].tags.len() && vs[x].tags[kk] == t@;
                                    assert(vs[x].tags[kk] == t@);
                                    assert(tag_entry_present(old_cs, vs[x].tags[kk]));
                                    let a0 = choose|a: int|
                                        0 <= a < old_cs.len() && (#[trigger] old_cs[a]).0@ == t@;
                                }
                            }
                            assert(vs.take(i as int).all(
                                |x: PodcastView| !(has_tag(t@)(x)),
                            ));
                            vs.take(i as int).lemma_all_neg_filter_empty(has_tag(t@));
                        }
                        assert forall|a: int|
                            0 <= a < cs@.len() implies (#[trigger] cs@[a]).1 as int
                            == count_in_pool(vs.take(i as int), cs@[a].0@) + (
                        if tv.take(k + 1).contains(cs@[a].0@) {
                            1int
                        } else {
                            0int
                        }) && cs@[a].1 >= 1 by {
                            lemma_contains_take_push(tv, k as int, cs@[a].0@);
                            if a < old_cs.len() {
                                assert(cs@[a] == old_cs[a]);
                                assert(cs@[a].0@ != t@);
                            } else {
                                assert(cs@[a].0@ == tv[k as int]);
                            }
                        }
                        assert forall|a: int, b: int|
                            #![trigger cs@[a], cs@[b]]
                            0 <= a < b < cs@.len() implies cs@[a].0@ != cs@[b].0@ by {
                            if b < old_cs.len() {
                                assert(old_cs[a].0@ != old_cs[b].0@);
                            } else {
                                assert(old_cs[a].0@ != t@);
                            }
                        }
                        assert forall|k2: int| #![trigger tv[k2]] 0 <= k2 < k + 1 implies
                            tag_entry_present(cs@, tv[k2]) by {
                            if k2 == k {
                                assert(cs@[old_cs.len() as int].0@ == tv[k2]);
                            } else {
                                assert(tag_entry_present(old_cs, tv[k2]));
                                let a0 = choose|a: int|
                                    0 <= a < old_cs.len() && (#[trigger] old_cs[a]).0@ == tv[k2];
                                assert(cs@[a0].0@ == tv[k2]);
                            }
                        }
                        assert forall|e: int, kk: int|
                            #![trigger vs[e].tags[kk]]
                            0 <= e < i && 0 <= kk < vs[e].tags.len() implies tag_entry_present(
                            cs@,
                            vs[e].tags[kk],
                        ) by {
                            assert(tag_entry_present(old_cs, vs[e].tags[kk]));
                            let a0 = choose|a: int|
                                0 <= a < old_cs.len() && (#[trigger] old_cs[a]).0@
                                    == vs[e].tags[kk];
                            assert(cs@[a0].0@ == vs[e].tags[kk]);
                        }
                    }
                },
            }
            k = k + 1;
        }
        proof {
            assert(tv.take(ep_tags@.len() as int) =~= tv);
            assert(vs.take(i + 1).drop_last() =~= vs.take(i as int));
            assert(vs.take(i + 1) =~= vs.take(i as int).push(vs[i as int]));
            assert forall|a: int|
                0 <= a < cs@.len() implies (#[trigger] cs@[a]).1 as int == count_in_pool(
                vs.take(i + 1),
                cs@[a].0@,
            ) && cs@[a].1 >= 1 by {
                let t = cs@[a].0@;
                vs.take(i as int).lemma_filter_push(vs[i as int], has_tag(t));
                assert(has_tag(t)(vs[i as int]) == tv.contains(t));
            }
            assert forall|e: int, kk: int|
                #![trigger vs[e].tags[kk]]
                0 <= e < i + 1 && 0 <= kk < vs[e].tags.len() implies tag_entry_present(
                cs@,
                vs[e].tags[kk],
            ) by {
                if e == i {
                    assert(tv[kk] == vs[e].tags[kk]);
                    assert(tag_entry_present(cs@, tv[kk]));
                } else {
                    let ghost w = vs[e].tags[kk];
                    assert(w == vs[e].tags[kk]);
                    assert(tag_entry_present(cs@, vs[e].tags[kk]));
                }
            }
        }
        i = i + 1;
    }
    proof {
        assert(vs.take(vs.len() as int) =~= vs);
    }
    cs
}

/// Not being one of the already-selected tags, as a predicate on entries.
pub open spec fn not_selected(sel: Seq<Seq<char>>) -> spec_fn((PodcastTag, usize)) -> bool {
    |e: (PodcastTag, usize)| !sel.contains(e.0@)
}

/// Carrying the filter text as a case-insensitive substring, as a predicate
/// on entries.
pub open spec fn matches_filter(f: Seq<char>) -> spec_fn((PodcastTag, usize)) -> bool {
    |e: (PodcastTag, usize)| contains_seq(lower_of(e.0@), lower_of(f))
}

/// Keeps the entries satisfying `pred`; the library's two entry filters
/// share this body.
fn filter_entries(cs: &Vec<(PodcastTag, usize)>, keep: &Vec<bool>, Ghost(pred): Ghost<
    spec_fn((PodcastTag, usize)) -> bool,
>) -> (r: Vec<(PodcastTag, usize)>)
    requires
        keep@.len() == cs@.len(),
        forall|j: int| 0 <= j < cs@.len() ==> keep@[j] == pred(#[trigger] cs@[j]),
        entries_distinct(cs@),
    ensures
        r@ == cs@.filter(pred),
        entries_distinct(r@),
{
    broadcast use vstd::seq_lib::group_filter_ensures;

    let mut out: Vec<(PodcastTag, usize)> = Vec::new();
    let mut j: usize = 0;
    proof {
        assert(cs@.take(0).filter(pred) =~= Seq::<(PodcastTag, usize)>::empty());
        assert(out@ =~= cs@.take(0).filter(pred));
    }
    while j < cs.len()
        invariant
            j <= cs@.len(),
            keep@.len() == cs@.len(),
            forall|q: int| 0 <= q < cs@.len() ==> keep@[q] == pred(#[trigger] cs@[q]),
            entries_distinct(cs@),
            out@ == cs@.take(j as int).filter(pred),
            entries_distinct(out@),
            forall|a: int|
                0 <= a < out@.len() ==> tag_entry_present(
                    cs@.take(j as int),
                    (#[trigger] out@[a]).0@,
                ),
        decreases cs@.len() - j,
    {
        let ghost old_out = out@;
        proof {
            assert(cs@.take(j + 1).drop_last() =~= cs@.take(j as int));
            assert(cs@.take(j + 1) =~= cs@.take(j as int).push(cs@[j as int]));
            cs@.take(j as int).lemma_filter_push(cs@[j as int], pred);
        }
        if keep[j] {
            let e = (cs[j].0.clone(), cs[j].1);
            proof {
                assert(e == cs@[j as int]);
                assert forall|a: int| 0 <= a < old_out.len() implies (#[trigger] old_out[a]).0@
                    != e.0@ by {
                    assert(tag_entry_present(cs@.take(j as int), old_out[a].0@));
                    let q = choose|q: int|
                        0 <= q < cs@.take(j as int).len() && (#[trigger] cs@.take(j as int)[q]).0@
                            == old_out[a].0@;
                    assert(cs@[q].0@ == old_out[a].0@);
                    assert(cs@[q].0@ != cs@[j as int].0@);
                }
            }
            out.push(e);
            proof {
                assert forall|a: int, b: int|
                    #![trigger out@[a], out@[b]]
                    0 <= a < b < out@.len() implies out@[a].0@ != out@[b].0@ by {
                    if b < old_out.len() {
                        assert(old_out[a].0@ != old_out[b].0@);
                    } else {
                        assert(out@[b] == cs@[j as int]);
                        assert(old_out[a].0@ != cs@[j as int].0@);
                    }
                }
            }
        }
        proof {
            assert forall|a: int| 0 <= a < out@.len() implies tag_entry_present(
                cs@.take(j + 1),
                (#[trigger] out@[a]).0@,
            ) by {
                if a < old_out.len() {
                    assert(tag_entry_present(cs@.take(j as int), old_out[a].0@));
                    let q = choose|q: int|
                        0 <= q < cs@.take(j as int).len() && (#[trigger] cs@.take(j as int)[q]).0@
                            == old_out[a].0@;
                    assert(cs@.take(j + 1)[q].0@ == out@[a].0@);
                } else {
                    assert(out@[a] == cs@[j as int]);
                    assert(cs@.take(j + 1)[j as int].0@ == out@[a].0@);
                }
            }
        }
        j = j + 1;
    }
    proof {
        assert(cs@.take(cs@.len() as int) =~= cs@);
    }
    out
}

/// Removes the entries whose tag is one of the selected tags.
pub fn remove_selected(cs: Vec<(PodcastTag, usize)>, selected_tags: &Vec<PodcastTag>) -> (r: Vec<
    (PodcastTag, usize),
>)
    requires
        entries_distinct(cs@),
    ensures
        r@ == cs@.filter(not_selected(tag_views(selected_tags@))),
        entries_distinct(r@),
{
    let ghost pred = not_selected(tag_views(selected_tags@));
    let mut keep: Vec<bool> = Vec::new();
    let mut j: usize = 0;
    while j < cs.len()
        invariant
            j <= cs@.len(),
            keep@.len() == j,
            pred == not_selected(tag_views(selected_tags@)),
            forall|q: int| 0 <= q < j ==> keep@[q] == pred(#[trigger] cs@[q]),
        decreases cs@.len() - j,
    {
        let k = !tag_in(selected_tags, &cs[j].0);
        keep.push(k);
        j = j + 1;
    }
    filter_entries(&cs, &keep, Ghost(pred))
}

/// Keeps the entries whose tag carries the filter text, case-insensitively.
pub fn filter_counts_by_text(cs: Vec<(PodcastTag, usize)>, filter: &String) -> (r: Vec<
    (PodcastTag, usize),
>)
    requires
        entries_distinct(cs@),
    ensures
        r@ == cs@.filter(matches_filter(filter@)),
        entries_distinct(r@),
{
    let ghost pred = matches_filter(filter@);
    let needle = lower_bytes(filter.as_str());
    let mut keep: Vec<bool> = Vec::new();
    let mut j: usize = 0;
    while j < cs.len()
        invariant
            j <= cs@.len(),
            keep@.len() == j,
            pred == matches_filter(filter@),
            needle@ == lower_of(filter@),
            forall|q: int| 0 <= q < j ==> keep@[q] == pred(#[trigger] cs@[q]),
        decreases cs@.len() - j,
    {
        let hay = lower_bytes(cs[j].0.to_string());
        let k = contains_bytes(hay.as_slice(), needle.as_slice());
        keep.push(k);
        j = j + 1;
    }
    filter_entries(&cs, &keep, Ghost(pred))
}

/// The page order: count descending, ties broken by case-insensitive tag
/// text ascending (by UTF-8 byte order, as strings compare).
pub open spec fn count_order() -> spec_fn((PodcastTag, usize), (PodcastTag, usize)) -> bool {
    |a: (PodcastTag, usize), b: (PodcastTag, usize)|
        a.1 > b.1 || (a.1 == b.1 && lex_le(lower_of(a.0@), lower_of(b.0@)))
}

/// Decides `count_order` on two entries.
fn count_le(a: &(PodcastTag, usize), b: &(PodcastTag, usize)) -> (r: bool)
    ensures
        r == count_order()(*a, *b),
{
    if a.1 > b.1 {
        true
    } else if a.1 < b.1 {
        false
    } else {
        let la = lower_bytes(a.0.to_string());
        let lb = lower_bytes(b.0.to_string());
        lex_le_bytes(la.as_slice(), lb.as_slice())
    }
}

proof fn lemma_count_order_total(a: (PodcastTag, usize), b: (PodcastTag, usize))
    ensures
        count_order()(a, b) || count_order()(b, a),
{
    if a.1 == b.1 {
        lemma_lex_le_total(lower_of(a.0@), lower_of(b.0@));
    }
}

proof fn lemma_count_order_transitive(
    a: (PodcastTag, usize),
    b: (PodcastTag, usize),
    c: (PodcastTag, usize),
)
    requires
        count_order()(a, b),
        count_order()(b, c),
    ensures
        count_order()(a, c),
{
    if a.1 == b.1 && b.1 == c.1 {
        lemma_lex_le_transitive(lower_of(a.0@), lower_of(b.0@), lower_of(c.0@));
    }
}

/// Sorts entries by `count_order`; the collection of entries is preserved
/// exactly.
pub fn sort_counts(src: Vec<(PodcastTag, usize)>) -> (r: Vec<(PodcastTag, usize)>)
    ensures
        r@.to_multiset() == src@.to_multiset(),
        vstd::relations::sorted_by(r@, count_order()),
{
    broadcast use vstd::seq_lib::group_to_multiset_ensures;
    broadcast use vstd::multiset::group_multiset_axioms;

    let ghost leq = count_order();
    let ghost ms0 = src@.to_multiset();
    let mut rest = src;
    let mut out: Vec<(PodcastTag, usize)> = Vec::new();
    proof {
        assert(out@.to_multiset().add(rest@.to_multiset()) =~= ms0);
    }
    while rest.len() > 0
        invariant
            leq == count_order(),
            out@.to_multiset().add(rest@.to_multiset()) == ms0,
            vstd::relations::sorted_by(out@, leq),
            forall|p: int, q: int|
                #![trigger out@[p], rest@[q]]
                0 <= p < out@.len() && 0 <= q < rest@.len() ==> leq(out@[p], rest@[q]),
        decreases rest@.len(),
    {
        let mut best: usize = 0;
        let mut m: usize = 1;
        proof {
            lemma_count_order_total(rest@[0], rest@[0]);
        }
        while m < rest.len()
            invariant
                leq == count_order(),
                best < rest@.len(),
                m <= rest@.len(),
                0 < rest@.len(),
                forall|q: int| 0 <= q < m ==> leq(rest@[best as int], #[trigger] rest@[q]),
            decreases rest@.len() - m,
        {
            if count_le(&rest[m], &rest[best]) {
                proof {
                    assert forall|q: int| 0 <= q < m + 1 implies leq(
                        rest@[m as int],
                        #[trigger] rest@[q],
                    ) by {
                        if q < m {
                            lemma_count_order_transitive(
                                rest@[m as int],
                                rest@[best as int],
                                rest@[q],
                            );
                        } else {
                            lemma_count_order_total(rest@[m as int], rest@[m as int]);
                        }
                    }
                }
                best = m;
            } else {
                proof {
                    lemma_count_order_total(rest@[m as int], rest@[best as int]);
                }
            }
            m = m + 1;
        }
        let ghost old_out = out@;
        let ghost old_rest = rest@;
        let p = rest.remove(best);
        out.push(p);
        proof {
            assert(old_rest.contains(p));
            vstd::seq_lib::to_multiset_contains(old_rest, p);
            vstd::seq_lib::to_multiset_build(old_out, p);
            vstd::seq_lib::to_multiset_remove(old_rest, best as int);
            assert(out@.to_multiset().add(rest@.to_multiset()) =~= ms0);
            assert forall|pp: int, q: int|
                #![trigger out@[pp], rest@[q]]
                0 <= pp < out@.len() && 0 <= q < rest@.len() implies leq(out@[pp], rest@[q]) by {
                assert(rest@[q] == if q < best {
                    old_rest[q]
                } else {
                    old_rest[q + 1]
                });
                assert(leq(p, rest@[q]));
                if pp < old_out.len() {
                    assert(out@[pp] == old_out[pp]);
                } else {
                    assert(out@[pp] == p);
                }
            }
            assert(vstd::relations::sorted_by(out@, leq)) by {
                assert forall|i: int, j: int|
                    0 <= i < j < out@.len() implies #[trigger] leq(out@[i], out@[j]) by {
                    if j < old_out.len() {
                        assert(leq(old_out[i], old_out[j]));
                    } else {
                        if i < old_out.len() {
                            assert(leq(old_out[i], old_rest[best as int]));
                        } else {
                            lemma_count_order_total(p, p);
                        }
                    }
                }
            }
        }
    }
    out
}

/// The page of the sorted entries selected by an optional offset and an
/// optional limit; an offset past the end is clamped to the end.
pub open spec fn page_of(
    cs: Seq<(PodcastTag, usize)>,
    offset_or: Option<usize>,
    limit_or: Option<usize>,
) -> Seq<(PodcastTag, usize)> {
    let off0 = match offset_or {
        Some(o) => o as int,
        None => 0,
    };
    let off = if off0 > cs.len() {
        cs.len() as int
    } else {
        off0
    };
    let rest = cs.skip(off);
    match limit_or {
        Some(l) => if (l as int) < rest.len() {
            rest.take(l as int)
        } else {
            rest
        },
        None => rest,
    }
}

/// Cuts the requested page out of the sorted entry list and reports how
/// many entries remain outside the page.
pub fn paginate_counts(cs: Vec<(PodcastTag, usize)>, offset_or: Option<usize>, limit_or: Option<
    usize,
>) -> (r: (Vec<(PodcastTag, usize)>, usize))
    ensures
        r.0@ == page_of(cs@, offset_or, limit_or),
        r.1 as int == cs@.len() - r.0@.len(),
{
    let n = cs.len();
    let off0 = match offset_or {
        Some(o) => o,
        None => 0,
    };
    let off = if off0 > n {
        n
    } else {
        off0
    };
    let end = match limit_or {
        Some(l) => if l < n - off {
            off + l
        } else {
            n
        },
        None => n,
    };
    let mut page: Vec<(PodcastTag, usize)> = Vec::new();
    let mut i: usize = off;
    proof {
        assert(page@ =~= cs@.subrange(off as int, off as int));
    }
    while i < end
        invariant
            off <= i <= end,
            end <= n,
            n == cs@.len(),
            page@ == cs@.subrange(off as int, i as int),
        decreases end - i,
    {
        let e = (cs[i].0.clone(), cs[i].1);
        proof {
            assert(e == cs@[i as int]);
            assert(cs@.subrange(off as int, i as int).push(cs@[i as int]) =~= cs@.subrange(
                off as int,
                i + 1,
            ));
        }
        page.push(e);
        i = i + 1;
    }
    proof {
        assert(cs@.subrange(off as int, end as int) =~= page_of(cs@, offset_or, limit_or));
    }
    let remaining = n - (end - off);
    (page, remaining)
}

/// A tag may be offered as a further facet: some pool episode carries it,
/// it is not one of the already-selected tags, and it matches the optional
/// case-insensitive text filter.
pub open spec fn eligible_tag(
    pool: Seq<PodcastView>,
    selected: Seq<Seq<char>>,
    filter_or: Option<Seq<char>>,
    t: Seq<char>,
) -> bool {
    &&& count_in_pool(pool, t) >= 1
    &&& !selected.contains(t)
    &&& match filter_or {
        Some(f) => contains_seq(lower_of(t), lower_of(f)),
        None => true,
    }
}

/// `cs` is exactly the facet table for the pool: one entry per eligible
/// tag, each carrying that tag's exact pool count.
pub open spec fn exact_tag_counts(
    pool: Seq<PodcastView>,
    selected: Seq<Seq<char>>,
    filter_or: Option<Seq<char>>,
    cs: Seq<(PodcastTag, usize)>,
) -> bool {
    &&& entries_distinct(cs)
    &&& forall|a: int|
        0 <= a < cs.len() ==> eligible_tag(pool, selected, filter_or, (#[trigger] cs[a]).0@)
            && cs[a].1 as int == count_in_pool(pool, cs[a].0@)
    &&& forall|t: Seq<char>|
        #[trigger] eligible_tag(pool, selected, filter_or, t) ==> tag_entry_present(cs, t)
}

/// The view of an optional filter string.
pub open spec fn opt_filter_text(f: Option<String>) -> Option<Seq<char>> {
    match f {
        Some(s) => Some(s@),
        None => None,
    }
}

/// One page of facet counts plus how many facet entries lie outside it.
pub struct TagCountsPage {
    pub tags: Vec<(PodcastTag, usize)>,
    pub remaining_tag_count: usize,
}

/// The full facet query over a pool of episodes: count tags, drop the
/// selected ones, apply the optional case-insensitive text filter, order by
/// count descending with case-insensitive tag text breaking ties, and cut
/// the requested page. No tag the caller already selected is ever offered
/// again.
#[verifier::rlimit(60)]
pub fn get_filtered_tags_with_counts(
    pool: &Vec<Podcast>,
    selected_tags: &Vec<PodcastTag>,
    filter_or: &Option<String>,
    offset_or: Option<usize>,
    limit_or: Option<usize>,
) -> (r: TagCountsPage)
    requires
        forall|m: int|
            0 <= m < pool@.len() ==> distinct_seqs((#[trigger] pod_views(pool@)[m]).tags),
    ensures
        exists|full: Seq<(PodcastTag, usize)>|
            #[trigger] exact_tag_counts(
                pod_views(pool@),
                tag_views(selected_tags@),
                opt_filter_text(*filter_or),
                full,
            ) && vstd::relations::sorted_by(full, count_order()) && r.tags@ == page_of(
                full,
                offset_or,
                limit_or,
            ) && r.remaining_tag_count as int == full.len() - r.tags@.len(),
        forall|a: int|
            0 <= a < r.tags@.len() ==> !tag_views(selected_tags@).contains(
                (#[trigger] r.tags@[a]).0@,
            ),
{
    broadcast use vstd::seq_lib::group_filter_ensures;
    broadcast use vstd::seq_lib::group_to_multiset_ensures;
    broadcast use vstd::multiset::group_multiset_axioms;

    let ghost vs = pod_views(pool@);
    let ghost sel = tag_views(selected_tags@);
    let ghost fv = opt_filter_text(*filter_or);
    let ghost ftext: Seq<char> = match fv {
        Some(f) => f,
        None => Seq::empty(),
    };
    let counted = count_tags(pool);
    let ghost counted_s = counted@;
    let without_selected = remove_selected(counted, selected_tags);
    let ghost without_s = without_selected@;
    let filtered = match filter_or {
        Some(f) => filter_counts_by_text(without_selected, f),
        None => without_selected,
    };
    let ghost filtered_s = filtered@;
    proof {
        if fv is Some {
            assert(filtered_s == without_s.filter(matches_filter(ftext)));
        } else {
            assert(filtered_s == without_s);
        }
    }
    let sorted = sort_counts(filtered);
    let ghost full = sorted@;
    proof {
        assert forall|a: int|
            0 <= a < full.len() implies eligible_tag(vs, sel, fv, (#[trigger] full[a]).0@)
            && full[a].1 as int == count_in_pool(vs, full[a].0@) by {
            assert(full.contains(full[a]));
            assert(full.to_multiset().count(full[a]) > 0);
            assert(filtered_s.to_multiset().count(full[a]) > 0);
            assert(filtered_s.contains(full[a]));
            if fv is Some {
                let x = choose|x: int| 0 <= x < filtered_s.len() && filtered_s[x] == full[a];
                without_s.lemma_filter_pred(matches_filter(ftext), x);
                assert(matches_filter(ftext)(full[a]));
                without_s.lemma_filter_contains_rev(matches_filter(ftext), full[a]);
            }
            assert(without_s.contains(full[a]));
            let y = choose|y: int| 0 <= y < without_s.len() && without_s[y] == full[a];
            counted_s.lemma_filter_pred(not_selected(sel), y);
            assert(not_selected(sel)(full[a]));
            counted_s.lemma_filter_contains_rev(not_selected(sel), full[a]);
            assert(counted_s.contains(full[a]));
            let ia = choose|i: int| 0 <= i < counted_s.len() && counted_s[i] == full[a];
            assert(counted_s[ia].1 as int == count_in_pool(vs, counted_s[ia].0@));
            assert(counted_s[ia].1 >= 1);
        }
        assert(entries_distinct(full)) by {
            assert(filtered_s.no_duplicates()) by {
                assert forall|x: int, y: int|
                    0 <= x < filtered_s.len() && 0 <= y < filtered_s.len() && x
                        != y implies filtered_s[x] != filtered_s[y] by {
                    if x < y {
                        assert(filtered_s[x].0@ != filtered_s[y].0@);
                    } else {
                        assert(filtered_s[y].0@ != filtered_s[x].0@);
                    }
                }
            }
            filtered_s.lemma_multiset_has_no_duplicates();
            full.lemma_multiset_has_no_duplicates_conv();
            assert forall|a: int, b: int|
                #![trigger full[a], full[b]]
                0 <= a < b < full.len() implies full[a].0@ != full[b].0@ by {
                if full[a].0@ == full[b].0@ {
                    assert(full[a] != full[b]);
                    assert(full.contains(full[a]));
                    assert(full.contains(full[b]));
                    assert(full.to_multiset().count(full[a]) > 0);
                    assert(full.to_multiset().count(full[b]) > 0);
                    assert(filtered_s.to_multiset().count(full[a]) > 0);
                    assert(filtered_s.to_multiset().count(full[b]) > 0);
                    assert(filtered_s.contains(full[a]));
                    assert(filtered_s.contains(full[b]));
                    let x = choose|x: int| 0 <= x < filtered_s.len() && filtered_s[x] == full[a];
                    let y = choose|y: int| 0 <= y < filtered_s.len() && filtered_s[y] == full[b];
                    if x < y {
                        assert(filtered_s[x].0@ != filtered_s[y].0@);
                    } else if y < x {
                        assert(filtered_s[y].0@ != filtered_s[x].0@);
                    }
                }
            }
        }
        assert forall|t: Seq<char>| #[trigger]
            eligible_tag(vs, sel, fv, t) implies tag_entry_present(full, t) by {
            assert(vs.filter(has_tag(t)).len() >= 1);
            let ep = vs.filter(has_tag(t))[0];
            vs.lemma_filter_pred(has_tag(t), 0);
            assert(has_tag(t)(ep));
            assert(vs.filter(has_tag(t)).contains(ep));
            vs.lemma_filter_contains_rev(has_tag(t), ep);
            assert(vs.contains(ep));
            let e = choose|e: int| 0 <= e < vs.len() && vs[e] == ep;
            assert(ep.tags.contains(t));
            let kk = choose|kk: int| 0 <= kk < ep.tags.len() && ep.tags[kk] == t;
            assert(vs[e].tags[kk] == t);
            assert(tag_entry_present(counted_s, vs[e].tags[kk]));
            let a0 = choose|a: int| 0 <= a < counted_s.len() && (#[trigger] counted_s[a]).0@ == t;
            assert(not_selected(sel)(counted_s[a0]));
            counted_s.lemma_filter_contains(not_selected(sel), a0);
            assert(without_s.contains(counted_s[a0]));
            if fv is Some {
                let a1 = choose|a: int| 0 <= a < without_s.len() && without_s[a] == counted_s[a0];
                assert(matches_filter(ftext)(without_s[a1]));
                without_s.lemma_filter_contains(matches_filter(ftext), a1);
            }
            assert(filtered_s.contains(counted_s[a0]));
            assert(filtered_s.to_multiset().count(counted_s[a0]) > 0);
            assert(full.to_multiset().count(counted_s[a0]) > 0);
            assert(full.contains(counted_s[a0]));
            let a2 = choose|a: int| 0 <= a < full.len() && full[a] == counted_s[a0];
            assert((#[trigger] full[a2]).0@ == t);
        }
        assert(exact_tag_counts(vs, sel, fv, full));
    }
    let (page, remaining) = paginate_counts(sorted, offset_or, limit_or);
    proof {
        assert forall|a: int| 0 <= a < page@.len() implies !sel.contains(
            (#[trigger] page@[a]).0@,
        ) by {
            let off0: int = match offset_or {
                Some(o) => o as int,
                None => 0,
            };
            let off: int = if off0 > full.len() {
                full.len() as int
            } else {
                off0
            };
            assert(page@[a] == full[off + a]);
            assert(eligible_tag(vs, sel, fv, full[off + a].0@));
        }
    }
    TagCountsPage { tags: page, remaining_tag_count: remaining }
}

} // verus!
