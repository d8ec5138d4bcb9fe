//! The catalog cache: an immutable, fully indexed snapshot of all episodes.
//!
//! The snapshot holds every episode once (later ingested duplicates of the
//! same number overwrite earlier ones), sorted descending by numeric value,
//! together with a tag index mapping each tag appearing on any episode to the
//! positions of the episodes carrying it.

use vstd::prelude::*;

use crate::podcast::{pod_views, Podcast, PodcastNumber, PodcastTag, PodcastView, tag_views,
    distinct_seqs, tag_in};

verus! {

/// Non-strictly descending by numeric value.
pub open spec fn sorted_desc(s: Seq<PodcastView>) -> bool {
    forall|i: int, j: int|
        #![trigger s[i], s[j]]
        0 <= i < j < s.len() ==> s[i].number.val >= s[j].number.val
}

/// No two episodes render their number the same way.
pub open spec fn unique_texts(s: Seq<PodcastView>) -> bool {
    forall|i: int, j: int|
        #![trigger s[i], s[j]]
        0 <= i < j < s.len() ==> s[i].number.text != s[j].number.text
}

/// `v` is the last element of `input[..upto]` with its number text.
pub open spec fn is_last_occurrence(input: Seq<PodcastView>, upto: int, v: PodcastView) -> bool {
    exists|m: int|
        0 <= m < upto && #[trigger] input[m] == v && (forall|j: int|
            m < j < upto ==> (#[trigger] input[j]).number.text != v.number.text)
}

/// Some episode of `out` renders its number as `t`.
pub open spec fn text_present(out: Seq<PodcastView>, t: Seq<char>) -> bool {
    exists|x: int| 0 <= x < out.len() && (#[trigger] out[x]).number.text == t
}

/// Every number text of `input` appears in `out`.
pub open spec fn all_texts_present(input: Seq<PodcastView>, out: Seq<PodcastView>) -> bool {
    forall|m: int|
        0 <= m < input.len() ==> text_present(out, (#[trigger] input[m]).number.text)
}

/// `arena` holds exactly one episode per number text of `input[..upto]`,
/// each being the last occurrence of its text.
pub open spec fn dedup_upto(input: Seq<PodcastView>, upto: int, arena: Seq<PodcastView>) -> bool {
    &&& unique_texts(arena)
    &&& forall|a: int|
        0 <= a < arena.len() ==> is_last_occurrence(input, upto, #[trigger] arena[a])
    &&& forall|m: int|
        0 <= m < upto ==> text_present(arena, (#[trigger] input[m]).number.text)
}

/// The position of an episode with the same number text as `p`, if any.
fn find_by_number(arena: &Vec<Podcast>, p: &Podcast) -> (r: Option<usize>)
    ensures
        match r {
            Some(j) => 0 <= j < arena@.len() && pod_views(arena@)[j as int].number.text
                == p@.number.text,
            None => forall|a: int|
                0 <= a < arena@.len() ==> (#[trigger] pod_views(arena@)[a]).number.text
                    != p@.number.text,
        },
{
    let mut j: usize = 0;
    while j < arena.len()
        invariant
            j <= arena@.len(),
            forall|a: int|
                0 <= a < j ==> (#[trigger] pod_views(arena@)[a]).number.text != p@.number.text,
        decreases arena@.len() - j,
    {
        if arena[j].get_podcast_number() == p.get_podcast_number() {
            return Some(j);
        }
        j = j + 1;
    }
    None
}

/// Deduplicates by number text; a later episode with an already-seen text
/// replaces the earlier one.
#[verifier::rlimit(60)]
fn dedup_by_number(input: Vec<Podcast>) -> (r: Vec<Podcast>)
    ensures
        dedup_upto(pod_views(input@), pod_views(input@).len() as int, pod_views(r@)),
{
    let ghost iv = pod_views(input@);
    let mut arena: Vec<Podcast> = Vec::new();
    let mut i: usize = 0;
    while i < input.len()
        invariant
            i <= input@.len(),
            iv == pod_views(input@),
            dedup_upto(iv, i as int, pod_views(arena@)),
        decreases input@.len() - i,
    {
        let ghost av = pod_views(arena@);
        let p = input[i].clone();
        proof {
            assert(p@ == iv[i as int]);
        }
        match find_by_number(&arena, &p) {
            Some(j) => {
                arena.set(j, p);
                proof {
                    let ghost av2 = pod_views(arena@);
                    assert(av2 =~= av.update(j as int, iv[i as int]));
                    assert forall|a: int|
                        0 <= a < av2.len() implies is_last_occurrence(iv, i + 1, #[trigger] av2[a]) by {
                        if a == j {
                            assert(iv[i as int] == av2[a]);
                        } else {
                            assert(av2[a] == av[a]);
                            assert(is_last_occurrence(iv, i as int, av[a]));
                            let m = choose|m: int|
                                0 <= m < i && #[trigger] iv[m] == av[a] && (forall|jj: int|
                                    m < jj < i ==> (#[trigger] iv[jj]).number.text
                                        != av[a].number.text);
                            assert(av[a].number.text != av[j as int].number.text);
                            assert(iv[i as int].number.text == av[j as int].number.text);
                            assert(iv[m] == av2[a]);
                        }
                    }
                    assert forall|m: int| 0 <= m < i + 1 implies text_present(
                        av2,
                        (#[trigger] iv[m]).number.text,
                    ) by {
                        if m < i {
                            assert(text_present(av, iv[m].number.text));
                            let a = choose|a: int|
                                0 <= a < av.len() && (#[trigger] av[a]).number.text
                                    == iv[m].number.text;
                            assert(av2[a].number.text == av[a].number.text);
                            assert(text_present(av2, iv[m].number.text));
                        } else {
                            assert(av2[j as int].number.text == iv[i as int].number.text);
                            assert(text_present(av2, iv[m].number.text));
                        }
                    }
                    assert(unique_texts(av2));
                }
            },
            None => {
                arena.push(p);
                proof {
                    let ghost av2 = pod_views(arena@);
                    assert(av2 =~= av.push(iv[i as int]));
                    assert forall|a: int|
                        0 <= a < av2.len() implies is_last_occurrence(iv, i + 1, #[trigger] av2[a]) by {
                        if a < av.len() {
                            assert(av2[a] == av[a]);
                            assert(is_last_occurrence(iv, i as int, av[a]));
                            assert(iv[i as int].number.text != av[a].number.text);
                        } else {
                            assert(av2[a] == iv[i as int]);
                        }
                    }
                    assert forall|m: int| 0 <= m < i + 1 implies text_present(
                        av2,
                        (#[trigger] iv[m]).number.text,
                    ) by {
                        if m < i {
                            assert(text_present(av, iv[m].number.text));
                            let a = choose|a: int|
                                0 <= a < av.len() && (#[trigger] av[a]).number.text
                                    == iv[m].number.text;
                            assert(av2[a].number.text == av[a].number.text);
                            assert(text_present(av2, iv[m].number.text));
                        } else {
                            assert(av2[av.len() as int].number.text == iv[i as int].number.text);
                            assert(text_present(av2, iv[m].number.text));
                        }
                    }
                    assert(unique_texts(av2));
                }
            },
        }
        i = i + 1;
    }
    arena
}

/// Sorts episodes descending by numeric value; the collection of episode
/// views is preserved exactly.
fn sort_descending(src: Vec<Podcast>) -> (r: Vec<Podcast>)
    ensures
        pod_views(r@).to_multiset() == pod_views(src@).to_multiset(),
        sorted_desc(pod_views(r@)),
{
    broadcast use vstd::seq_lib::group_to_multiset_ensures;
    broadcast use vstd::multiset::group_multiset_axioms;

    let ghost ms0 = pod_views(src@).to_multiset();
    let mut rest = src;
    let mut out: Vec<Podcast> = Vec::new();
    proof {
        assert(pod_views(out@) =~= Seq::<PodcastView>::empty());
        assert(pod_views(out@).to_multiset().add(pod_views(rest@).to_multiset()) =~= ms0);
    }
    while rest.len() > 0
        invariant
            pod_views(out@).to_multiset().add(pod_views(rest@).to_multiset()) == ms0,
            sorted_desc(pod_views(out@)),
            forall|p: int, q: int|
                #![trigger pod_views(out@)[p], pod_views(rest@)[q]]
                0 <= p < out@.len() && 0 <= q < rest@.len() ==> pod_views(out@)[p].number.val
                    >= pod_views(rest@)[q].number.val,
        decreases rest@.len(),
    {
        let mut best: usize = 0;
        let mut m: usize = 1;
        while m < rest.len()
            invariant
                best < rest@.len(),
                m <= rest@.len(),
                0 < rest@.len(),
                forall|q: int|
                    0 <= q < m ==> (#[trigger] pod_views(rest@)[q]).number.val <= pod_views(
                        rest@,
                    )[best as int].number.val,
            decreases rest@.len() - m,
        {
            if rest[m].get_podcast_number().value_thousandths()
                > rest[best].get_podcast_number().value_thousandths() {
                best = m;
            }
            m = m + 1;
        }
        let ghost old_out = pod_views(out@);
        let ghost old_rest = pod_views(rest@);
        let ghost pv = pod_views(rest@)[best as int];
        let p = rest.remove(best);
        out.push(p);
        proof {
            assert(p@ == pv);
            assert(pod_views(rest@) =~= old_rest.remove(best as int));
            assert(pod_views(out@) =~= old_out.push(pv));
            assert(old_rest.contains(pv));
            vstd::seq_lib::to_multiset_contains(old_rest, pv);
            vstd::seq_lib::to_multiset_build(old_out, pv);
            vstd::seq_lib::to_multiset_remove(old_rest, best as int);
            assert(pod_views(out@).to_multiset() == old_out.to_multiset().insert(pv));
            assert(pod_views(rest@).to_multiset() == old_rest.to_multiset().remove(pv));
            assert(pod_views(out@).to_multiset().add(pod_views(rest@).to_multiset()) =~= ms0);
            assert forall|pp: int, q: int|
                #![trigger pod_views(out@)[pp], pod_views(rest@)[q]]
                0 <= pp < out@.len() && 0 <= q < rest@.len() implies pod_views(
                out@,
            )[pp].number.val >= pod_views(rest@)[q].number.val by {
                assert(pod_views(rest@)[q] == if q < best {
                    old_rest[q]
                } else {
                    old_rest[q + 1]
                });
                assert(pv.number.val >= pod_views(rest@)[q].number.val);
                if pp < old_out.len() {
                    assert(pod_views(out@)[pp] == old_out[pp]);
                } else {
                    assert(pod_views(out@)[pp] == pv);
                }
            }
            assert(sorted_desc(pod_views(out@))) by {
                assert forall|i: int, j: int|
                    #![trigger pod_views(out@)[i], pod_views(out@)[j]]
                    0 <= i < j < pod_views(out@).len() implies pod_views(out@)[i].number.val
                    >= pod_views(out@)[j].number.val by {
                    if j < old_out.len() {
                        assert(old_out[i].number.val >= old_out[j].number.val);
                    } else {
                        if i < old_out.len() {
                            assert(old_out[i].number.val >= old_rest[best as int].number.val);
                        }
                    }
                }
            }
        }
    }
    out
}

/// One entry of the tag index: a tag and the positions (into the descending
/// episode list) of every episode carrying it.
struct TagEntry {
    tag: PodcastTag,
    episode_indexes: Vec<usize>,
}

/// Every listed position is a real episode carrying the entry's tag, and all
/// listed positions lie below `bound`.
spec fn index_sound_upto(vs: Seq<PodcastView>, ix: Seq<TagEntry>, bound: int) -> bool {
    forall|a: int, p: int|
        #![trigger ix[a].episode_indexes@[p]]
        0 <= a < ix.len() && 0 <= p < ix[a].episode_indexes@.len() ==> ix[a].episode_indexes@[p]
            < bound && bound <= vs.len() && vs[ix[a].episode_indexes@[p] as int].tags.contains(
            ix[a].tag@,
        )
}

/// No tag owns two entries.
spec fn index_distinct(ix: Seq<TagEntry>) -> bool {
    forall|a: int, b: int|
        #![trigger ix[a], ix[b]]
        0 <= a < b < ix.len() ==> ix[a].tag@ != ix[b].tag@
}

/// Some entry carries tag `t` and lists episode `e`.
spec fn tag_listed(ix: Seq<TagEntry>, t: Seq<char>, e: usize) -> bool {
    exists|a: int|
        0 <= a < ix.len() && (#[trigger] ix[a]).tag@ == t && ix[a].episode_indexes@.contains(e)
}

/// Every tag of every episode below `bound` has an entry listing that episode.
spec fn index_complete_upto(vs: Seq<PodcastView>, ix: Seq<TagEntry>, bound: int) -> bool {
    forall|e: int, k: int|
        #![trigger vs[e].tags[k]]
        0 <= e < bound && e < vs.len() && 0 <= k < vs[e].tags.len() ==> tag_listed(
            ix,
            vs[e].tags[k],
            e as usize,
        )
}

/// The position of the entry for `t`, if there is one.
fn find_tag_entry(ix: &Vec<TagEntry>, t: &PodcastTag) -> (r: Option<usize>)
    ensures
        match r {
            Some(j) => 0 <= j < ix@.len() && ix@[j as int].tag@ == t@,
            None => forall|a: int| 0 <= a < ix@.len() ==> (#[trigger] ix@[a]).tag@ != t@,
        },
{
    let mut j: usize = 0;
    while j < ix.len()
        invariant
            j <= ix@.len(),
            forall|a: int| 0 <= a < j ==> (#[trigger] ix@[a]).tag@ != t@,
        decreases ix@.len() - j,
    {
        if ix[j].tag == *t {
            return Some(j);
        }
        j = j + 1;
    }
    None
}

/// Builds the tag index over a fixed episode list.
fn build_tag_index(episodes: &Vec<Podcast>) -> (r: Vec<TagEntry>)
    ensures
        index_distinct(r@),
        index_sound_upto(pod_views(episodes@), r@, pod_views(episodes@).len() as int),
        index_complete_upto(pod_views(episodes@), r@, pod_views(episodes@).len() as int),
{
    let ghost vs = pod_views(episodes@);
    let mut ix: Vec<TagEntry> = Vec::new();
    let mut i: usize = 0;
    while i < episodes.len()
        invariant
            i <= episodes@.len(),
            vs == pod_views(episodes@),
            index_distinct(ix@),
            index_sound_upto(vs, ix@, i as int),
            index_complete_upto(vs, ix@, i as int),
        decreases episodes@.len() - i,
    {
        let ep_tags = episodes[i].get_tags();
        let ghost tv = vs[i as int].tags;
        proof {
            assert(tag_views(ep_tags@) == tv);
        }
        let mut k: usize = 0;
        while k < ep_tags.len()
            invariant
                i < episodes@.len(),
                k <= ep_tags@.len(),
                vs == pod_views(episodes@),
                tv == vs[i as int].tags,
                tag_views(ep_tags@) == tv,
                index_distinct(ix@),
                index_sound_upto(vs, ix@, i + 1),
                index_complete_upto(vs, ix@, i as int),
                forall|k2: int|
                    #![trigger tv[k2]]
                    0 <= k2 < k ==> tag_listed(ix@, tv[k2], i),
            decreases ep_tags@.len() - k,
        {
            let t = &ep_tags[k];
            proof {
                assert(t@ == tv[k as int]);
            }
            let ghost old_ix = ix@;
            match find_tag_entry(&ix, t) {
                Some(j) => {
                    let mut entry = ix.remove(j);
                    let ghost old_list = entry.episode_indexes@;
                    entry.episode_indexes.push(i);
                    ix.insert(j, entry);
                    proof {
                        assert(ix@ =~= old_ix.update(j as int, ix@[j as int]));
                        assert(ix@[j as int].tag@ == t@);
                        assert(ix@[j as int].episode_indexes@ =~= old_list.push(i));
                        assert(ix@[j as int].episode_indexes@.contains(i)) by {
                            assert(ix@[j as int].episode_indexes@[old_list.len() as int] == i);
                        }
                        assert forall|a: int, b: int|
                            #![trigger ix@[a], ix@[b]]
                            0 <= a < b < ix@.len() implies ix@[a].tag@ != ix@[b].tag@ by {
                            assert(old_ix[a].tag@ != old_ix[b].tag@);
                        }
                        assert forall|a: int, p: int|
                            #![trigger ix@[a].episode_indexes@[p]]
                            0 <= a < ix@.len() && 0 <= p
                                < ix@[a].episode_indexes@.len() implies ix@[a].episode_indexes@[p]
                            < i + 1 && i + 1 <= vs.len()
                            && vs[ix@[a].episode_indexes@[p] as int].tags.contains(ix@[a].tag@) by {
                            if a == j {
                                if p < old_list.len() {
                                    assert(old_ix[a].episode_indexes@[p]
                                        == ix@[a].episode_indexes@[p]);
                                } else {
                                    assert(ix@[a].episode_indexes@[p] == i);
                                    assert(vs[i as int].tags[k as int] == t@);
                                }
                            } else {
                                assert(ix@[a] == old_ix[a]);
                            }
                        }
                        assert(index_sound_upto(vs, ix@, i + 1));
                        assert forall|e: int, k3: int|
                            #![trigger vs[e].tags[k3]]
                            0 <= e < i && e < vs.len() && 0 <= k3 < vs[e].tags.len() implies tag_listed(
                            ix@,
                            vs[e].tags[k3],
                            e as usize,
                        ) by {
                            assert(tag_listed(old_ix, vs[e].tags[k3], e as usize));
                            let a0 = choose|a: int|
                                0 <= a < old_ix.len() && (#[trigger] old_ix[a]).tag@
                                    == vs[e].tags[k3] && old_ix[a].episode_indexes@.contains(
                                    e as usize,
                                );
                            if a0 == j {
                                let p0 = choose|p: int|
                                    0 <= p < old_list.len() && old_list[p] == e as usize;
                                assert(ix@[j as int].episode_indexes@[p0] == e as usize);
                                assert(ix@[j as int].episode_indexes@.contains(e as usize));
                            } else {
                                assert(ix@[a0] == old_ix[a0]);
                            }
                        }
                        assert(index_complete_upto(vs, ix@, i as int));
                        assert forall|k2: int|
                            #![trigger tv[k2]]
                            0 <= k2 < k + 1 implies tag_listed(ix@, tv[k2], i) by {
                            if k2 == k {
                                assert(ix@[j as int].tag@ == tv[k2]
                                    && ix@[j as int].episode_indexes@.contains(i));
                            } else {
                                assert(tag_listed(old_ix, tv[k2], i));
                                let a0 = choose|a: int|
                                    0 <= a < old_ix.len() && (#[trigger] old_ix[a]).tag@ == tv[k2]
                                        && old_ix[a].episode_indexes@.contains(i);
                                if a0 == j {
                                    let p0 = choose|p: int|
                                        0 <= p < old_list.len() && old_list[p] == i;
                                    assert(ix@[j as int].episode_indexes@[p0] == i);
                                    assert(ix@[j as int].episode_indexes@.contains(i));
                                } else {
                                    assert(ix@[a0] == old_ix[a0]);
                                }
                            }
                        }
                    }
                },
                None => {
                    let mut lst: Vec<usize> = Vec::new();
                    lst.push(i);
                    ix.push(TagEntry { tag: t.clone(), episode_indexes: lst });
                    proof {
                        assert(ix@ =~= old_ix.push(ix@[old_ix.len() as int]));
                        assert(ix@[old_ix.len() as int].tag@ == t@);
                        assert(ix@[old_ix.len() as int].episode_indexes@ =~= seq![i]);
                        assert(ix@[old_ix.len() as int].episode_indexes@.contains(i)) by {
                            assert(ix@[old_ix.len() as int].episode_indexes@[0] == i);
                        }
                        assert forall|a: int, b: int|
                            #![trigger ix@[a], ix@[b]]
                            0 <= a < b < ix@.len() implies ix@[a].tag@ != ix@[b].tag@ by {
                            if b < old_ix.len() {
                                assert(old_ix[a].tag@ != old_ix[b].tag@);
                            } else {
                                assert(old_ix[a].tag@ != t@);
                            }
                        }
                        assert forall|a: int, p: int|
                            #![trigger ix@[a].episode_indexes@[p]]
                            0 <= a < ix@.len() && 0 <= p
                                < ix@[a].episode_indexes@.len() implies ix@[a].episode_indexes@[p]
                            < i + 1 && i + 1 <= vs.len()
                            && vs[ix@[a].episode_indexes@[p] as int].tags.contains(ix@[a].tag@) by {
                            if a < old_ix.len() {
                                assert(ix@[a] == old_ix[a]);
                            } else {
                                assert(ix@[a].episode_indexes@[p] == i);
                                assert(vs[i as int].tags[k as int] == t@);
                            }
                        }
                        assert(index_sound_upto(vs, ix@, i + 1));
                        assert forall|e: int, k3: int|
                            #![trigger vs[e].tags[k3]]
                            0 <= e < i && e < vs.len() && 0 <= k3 < vs[e].tags.len() implies tag_listed(
                            ix@,
                            vs[e].tags[k3],
                            e as usize,
                        ) by {
                            assert(tag_listed(old_ix, vs[e].tags[k3], e as usize));
                            let a0 = choose|a: int|
                                0 <= a < old_ix.len() && (#[trigger] old_ix[a]).tag@
                                    == vs[e].tags[k3] && old_ix[a].episode_indexes@.contains(
                                    e as usize,
                                );
                            assert(ix@[a0] == old_ix[a0]);
                        }
                        assert(index_complete_upto(vs, ix@, i as int));
                        assert forall|k2: int|
                            #![trigger tv[k2]]
                            0 <= k2 < k + 1 implies tag_listed(ix@, tv[k2], i) by {
                            if k2 == k {
                                assert(ix@[old_ix.len() as int].tag@ == tv[k2]);
                            } else {
                                assert(tag_listed(old_ix, tv[k2], i));
                                let a0 = choose|a: int|
                                    0 <= a < old_ix.len() && (#[trigger] old_ix[a]).tag@ == tv[k2]
                                        && old_ix[a].episode_indexes@.contains(i);
                                assert(ix@[a0] == old_ix[a0]);
                            }
                        }
                    }
                },
            }
            k = k + 1;
        }
        proof {
            assert forall|e: int, k3: int|
                #![trigger vs[e].tags[k3]]
                0 <= e < i + 1 && e < vs.len() && 0 <= k3 < vs[e].tags.len() implies tag_listed(
                ix@,
                vs[e].tags[k3],
                e as usize,
            ) by {
                if e == i {
                    assert(tv[k3] == vs[e].tags[k3]);
                    assert(tag_listed(ix@, tv[k3], i));
                    assert(e as usize == i);
                } else {
                    let ghost witness_term = vs[e].tags[k3];
                    assert(witness_term == vs[e].tags[k3]);
                    assert(tag_listed(ix@, vs[e].tags[k3], e as usize));
                }
            }
            assert(index_complete_upto(vs, ix@, i + 1));
        }
        i = i + 1;
    }
    ix
}

/// A permutation of episode views keeps lengths, membership, and the
/// one-episode-per-number-text property.
proof fn lemma_permutation_preserves_unique_texts(d: Seq<PodcastView>, s: Seq<PodcastView>)
    requires
        s.to_multiset() == d.to_multiset(),
        unique_texts(d),
    ensures
        unique_texts(s),
        forall|v: PodcastView| s.contains(v) <==> d.contains(v),
        s.len() == d.len(),
{
    broadcast use vstd::seq_lib::group_to_multiset_ensures;
    broadcast use vstd::multiset::group_multiset_axioms;

    assert forall|v: PodcastView| s.contains(v) <==> d.contains(v) by {
        if s.contains(v) {
            assert(s.to_multiset().count(v) > 0);
            assert(d.to_multiset().count(v) > 0);
        }
        if d.contains(v) {
            assert(d.to_multiset().count(v) > 0);
            assert(s.to_multiset().count(v) > 0);
        }
    }
    assert(s.to_multiset().len() == s.len());
    assert(d.to_multiset().len() == d.len());

    assert(d.no_duplicates()) by {
        assert forall|i: int, j: int|
            0 <= i < d.len() && 0 <= j < d.len() && i != j implies d[i] != d[j] by {
            if i < j {
                assert(d[i].number.text != d[j].number.text);
            } else {
                assert(d[j].number.text != d[i].number.text);
            }
        }
    }
    d.lemma_multiset_has_no_duplicates();
    s.lemma_multiset_has_no_duplicates_conv();
    assert forall|i: int, j: int|
        #![trigger s[i], s[j]]
        0 <= i < j < s.len() implies s[i].number.text != s[j].number.text by {
        if s[i].number.text == s[j].number.text {
            assert(s[i] != s[j]);
            assert(s.contains(s[i]));
            assert(s.contains(s[j]));
            assert(s.to_multiset().count(s[i]) > 0);
            assert(s.to_multiset().count(s[j]) > 0);
            assert(d.to_multiset().count(s[i]) > 0);
            assert(d.to_multiset().count(s[j]) > 0);
            assert(d.contains(s[i]));
            assert(d.contains(s[j]));
            let a = choose|a: int| 0 <= a < d.len() && d[a] == s[i];
            let b = choose|b: int| 0 <= b < d.len() && d[b] == s[j];
            assert(a != b);
            if a < b {
                assert(d[a].number.text != d[b].number.text);
            } else {
                assert(d[b].number.text != d[a].number.text);
            }
        }
    }
}

/// Two last occurrences with the same number text are the same episode.
proof fn lemma_last_occurrence_unique(
    input: Seq<PodcastView>,
    upto: int,
    v1: PodcastView,
    v2: PodcastView,
)
    requires
        is_last_occurrence(input, upto, v1),
        is_last_occurrence(input, upto, v2),
        v1.number.text == v2.number.text,
    ensures
        v1 == v2,
{
    let m1 = choose|m: int|
        0 <= m < upto && #[trigger] input[m] == v1 && (forall|j: int|
            m < j < upto ==> (#[trigger] input[j]).number.text != v1.number.text);
    let m2 = choose|m: int|
        0 <= m < upto && #[trigger] input[m] == v2 && (forall|j: int|
            m < j < upto ==> (#[trigger] input[j]).number.text != v2.number.text);
    if m1 < m2 {
        assert(input[m2].number.text != v1.number.text);
    } else if m2 < m1 {
        assert(input[m1].number.text != v2.number.text);
    }
}

/// The catalog snapshot: all episodes, descending by number, plus the tag
/// index. Immutable once built; a rebuild constructs a fresh snapshot.
pub struct FdrCache {
    episodes: Vec<Podcast>,
    tag_index: Vec<TagEntry>,
}

impl FdrCache {
    /// The episodes of the snapshot, in catalog (descending) order.
    pub closed spec fn eps(&self) -> Seq<Podcast> {
        self.episodes@
    }

    /// The episode views, in catalog order.
    pub open spec fn views(&self) -> Seq<PodcastView> {
        pod_views(self.eps())
    }

    /// Whether the tag index has an entry for `t`.
    pub closed spec fn has_index_tag(&self, t: Seq<char>) -> bool {
        exists|a: int| 0 <= a < self.tag_index@.len() && (#[trigger] self.tag_index@[a]).tag@ == t
    }

    /// The snapshot invariant: descending order, one episode per number
    /// text, deduplicated per-episode tag lists, and a sound and complete
    /// tag index.
    pub closed spec fn wf(&self) -> bool {
        &&& sorted_desc(self.views())
        &&& unique_texts(self.views())
        &&& forall|m: int|
            0 <= m < self.views().len() ==> distinct_seqs((#[trigger] self.views()[m]).tags)
        &&& index_distinct(self.tag_index@)
        &&& index_sound_upto(self.views(), self.tag_index@, self.views().len() as int)
        &&& index_complete_upto(self.views(), self.tag_index@, self.views().len() as int)
    }

    /// The snapshot keeps, for every number text occurring in the ingested
    /// list, exactly the episode ingested last with that text.
    #[verifier::rlimit(60)]
    pub fn new(podcasts: Vec<Podcast>) -> (r: Self)
        requires
            forall|m: int|
                0 <= m < podcasts@.len() ==> distinct_seqs(
                    (#[trigger] pod_views(podcasts@)[m]).tags,
                ),
        ensures
            r.wf(),
            forall|v: PodcastView|
                r.views().contains(v) <==> is_last_occurrence(
                    pod_views(podcasts@),
                    podcasts@.len() as int,
                    v,
                ),
            all_texts_present(pod_views(podcasts@), r.views()),
    {
        broadcast use vstd::seq_lib::group_to_multiset_ensures;
        broadcast use vstd::multiset::group_multiset_axioms;

        let ghost iv = pod_views(podcasts@);
        let deduped = dedup_by_number(podcasts);
        let ghost dv = pod_views(deduped@);
        let episodes = sort_descending(deduped);
        let ghost sv = pod_views(episodes@);
        let tag_index = build_tag_index(&episodes);
        let r = FdrCache { episodes, tag_index };
        proof {
            lemma_permutation_preserves_unique_texts(dv, sv);
            assert(r.views() == sv);
            assert forall|m: int| 0 <= m < sv.len() implies distinct_seqs(
                (#[trigger] sv[m]).tags,
            ) by {
                assert(sv.contains(sv[m]));
                assert(dv.contains(sv[m]));
                let a = choose|a: int| 0 <= a < dv.len() && dv[a] == sv[m];
                assert(is_last_occurrence(iv, iv.len() as int, dv[a]));
                let m0 = choose|m0: int|
                    0 <= m0 < iv.len() && #[trigger] iv[m0] == dv[a] && (forall|j: int|
                        m0 < j < iv.len() ==> (#[trigger] iv[j]).number.text
                            != dv[a].number.text);
                assert(distinct_seqs(iv[m0].tags));
            }
            assert forall|v: PodcastView|
                sv.contains(v) <==> is_last_occurrence(iv, iv.len() as int, v) by {
                if sv.contains(v) {
                    assert(dv.contains(v));
                    let a = choose|a: int| 0 <= a < dv.len() && dv[a] == v;
                    assert(is_last_occurrence(iv, iv.len() as int, dv[a]));
                }
                if is_last_occurrence(iv, iv.len() as int, v) {
                    let m = choose|m: int|
                        0 <= m < iv.len() && #[trigger] iv[m] == v && (forall|j: int|
                            m < j < iv.len() ==> (#[trigger] iv[j]).number.text
                                != v.number.text);
                    assert(text_present(dv, iv[m].number.text));
                    let a = choose|a: int|
                        0 <= a < dv.len() && (#[trigger] dv[a]).number.text == iv[m].number.text;
                    assert(is_last_occurrence(iv, iv.len() as int, dv[a]));
                    lemma_last_occurrence_unique(iv, iv.len() as int, dv[a], v);
                    assert(dv.contains(dv[a]));
                    assert(sv.contains(v));
                }
            }
            assert forall|m: int| 0 <= m < iv.len() implies text_present(
                sv,
                (#[trigger] iv[m]).number.text,
            ) by {
                let ghost vm = iv[m];
                assert(vm == iv[m]);
                assert(dedup_upto(iv, iv.len() as int, dv));
                assert(text_present(dv, iv[m].number.text));
                let a = choose|a: int|
                    0 <= a < dv.len() && (#[trigger] dv[a]).number.text == iv[m].number.text;
                assert(dv.contains(dv[a]));
                assert(sv.contains(dv[a]));
                let x = choose|x: int| 0 <= x < sv.len() && sv[x] == dv[a];
                assert(sv[x].number.text == iv[m].number.text);
                assert(text_present(sv, iv[m].number.text));
            }
            assert(all_texts_present(iv, sv));
            assert(all_texts_present(pod_views(podcasts@), r.views()));
        }
        r
    }
}

impl FdrCache {
    /// Ingests further episodes by rebuilding the snapshot from the current
    /// episodes followed by the new ones: a new episode whose number text
    /// already exists replaces the old record, and the indexes are built
    /// afresh — readers never see a half-built snapshot.
    pub fn ingest_podcasts(&mut self, podcasts: Vec<Podcast>)
        requires
            old(self).wf(),
            forall|m: int|
                0 <= m < podcasts@.len() ==> distinct_seqs(
                    (#[trigger] pod_views(podcasts@)[m]).tags,
                ),
        ensures
            final(self).wf(),
            forall|v: PodcastView|
                final(self).views().contains(v) <==> is_last_occurrence(
                    old(self).views() + pod_views(podcasts@),
                    old(self).views().len() + podcasts@.len() as int,
                    v,
                ),
    {
        let ghost old_views = self.views();
        let ghost new_views = pod_views(podcasts@);
        let mut all: Vec<Podcast> = Vec::new();
        let mut i: usize = 0;
        proof {
            assert(pod_views(all@) =~= old_views.take(0));
        }
        while i < self.episodes.len()
            invariant
                i <= self.eps().len(),
                old_views == self.views(),
                pod_views(all@) == old_views.take(i as int),
            decreases self.eps().len() - i,
        {
            let p = self.episodes[i].clone();
            let ghost before = pod_views(all@);
            proof {
                assert(p@ == old_views[i as int]);
            }
            all.push(p);
            proof {
                assert(pod_views(all@) =~= before.push(p@));
                assert(before.push(p@) =~= old_views.take(i + 1));
            }
            i = i + 1;
        }
        proof {
            assert(old_views.take(old_views.len() as int) =~= old_views);
        }
        let mut j: usize = 0;
        while j < podcasts.len()
            invariant
                j <= podcasts@.len(),
                old_views == self.views(),
                new_views == pod_views(podcasts@),
                pod_views(all@) == old_views + new_views.take(j as int),
            decreases podcasts@.len() - j,
        {
            let p = podcasts[j].clone();
            let ghost before = pod_views(all@);
            proof {
                assert(p@ == new_views[j as int]);
            }
            all.push(p);
            proof {
                assert(pod_views(all@) =~= before.push(p@));
                assert(before.push(p@) =~= old_views + new_views.take(j + 1));
            }
            j = j + 1;
        }
        proof {
            assert(new_views.take(new_views.len() as int) =~= new_views);
            assert(pod_views(all@) =~= old_views + new_views);
            assert forall|m: int| 0 <= m < all@.len() implies distinct_seqs(
                (#[trigger] pod_views(all@)[m]).tags,
            ) by {
                if m < old_views.len() {
                    assert(pod_views(all@)[m] == old_views[m]);
                } else {
                    assert(pod_views(all@)[m] == new_views[m - old_views.len()]);
                }
            }
        }
        *self = FdrCache::new(all);
    }

    /// A catalog filled with the deterministic mock episodes, for running
    /// without any backend service.
    pub fn new_with_mock_podcasts() -> (r: Self)
        ensures
            r.wf(),
    {
        let mut podcasts: Vec<Podcast> = Vec::new();
        let mut i: usize = 1;
        while i < 1000
            invariant
                1 <= i <= 1000,
                forall|m: int|
                    0 <= m < podcasts@.len() ==> distinct_seqs(
                        (#[trigger] pod_views(podcasts@)[m]).tags,
                    ),
            decreases 1000 - i,
        {
            let p = crate::mock::create_mock_podcast(i);
            let ghost before = pod_views(podcasts@);
            proof {
                assert(p@.tags.len() == 1);
                assert(distinct_seqs(p@.tags));
            }
            podcasts.push(p);
            proof {
                assert(pod_views(podcasts@) =~= before.push(p@));
                assert forall|m: int| 0 <= m < podcasts@.len() implies distinct_seqs(
                    (#[trigger] pod_views(podcasts@)[m]).tags,
                ) by {
                    if m < before.len() {
                        assert(pod_views(podcasts@)[m] == before[m]);
                    } else {
                        assert(pod_views(podcasts@)[m] == p@);
                    }
                }
            }
            i = i + 1;
        }
        FdrCache::new(podcasts)
    }
}

/// The episode carries every tag of `ts`.
pub open spec fn carries_all(p: PodcastView, ts: Seq<Seq<char>>) -> bool {
    forall|k: int| 0 <= k < ts.len() ==> p.tags.contains(#[trigger] ts[k])
}

/// The tag-filter predicate for a fixed set of tag texts.
pub open spec fn with_all_tags(ts: Seq<Seq<char>>) -> spec_fn(PodcastView) -> bool {
    |p: PodcastView| carries_all(p, ts)
}

/// Whether `p` carries every tag of `tags`.
pub fn carries_all_exec(p: &Podcast, tags: &Vec<PodcastTag>) -> (r: bool)
    ensures
        r == carries_all(p@, tag_views(tags@)),
{
    let pt = p.get_tags();
    let mut k: usize = 0;
    while k < tags.len()
        invariant
            k <= tags@.len(),
            tag_views(pt@) == p@.tags,
            forall|k2: int| 0 <= k2 < k ==> p@.tags.contains(#[trigger] tag_views(tags@)[k2]),
        decreases tags@.len() - k,
    {
        if !tag_in(pt, &tags[k]) {
            proof {
                assert(tag_views(tags@)[k as int] == tags@[k as int]@);
            }
            return false;
        }
        proof {
            assert(tag_views(tags@)[k as int] == tags@[k as int]@);
        }
        k = k + 1;
    }
    true
}

impl FdrCache {
    /// Point lookup by episode number; equality is the number's textual
    /// equality. Absent numbers yield `None`, never an error.
    pub fn get_podcast(&self, num: &PodcastNumber) -> (r: Option<&Podcast>)
        ensures
            match r {
                Some(p) => exists|i: int|
                    #![trigger self.eps()[i]]
                    0 <= i < self.eps().len() && *p == self.eps()[i]
                        && self.views()[i].number.text == num@.text,
                None => forall|i: int|
                    0 <= i < self.views().len() ==> (#[trigger] self.views()[i]).number.text
                        != num@.text,
            },
    {
        let mut j: usize = 0;
        while j < self.episodes.len()
            invariant
                j <= self.eps().len(),
                forall|i: int|
                    0 <= i < j ==> (#[trigger] self.views()[i]).number.text != num@.text,
            decreases self.eps().len() - j,
        {
            if self.episodes[j].get_podcast_number() == num {
                proof {
                    assert(self.eps()[j as int] == self.episodes@[j as int]);
                }
                return Some(&self.episodes[j]);
            }
            j = j + 1;
        }
        None
    }

    /// The full catalog, descending by episode number.
    pub fn get_all_podcasts(&self) -> (r: &Vec<Podcast>)
        ensures
            r@ == self.eps(),
    {
        &self.episodes
    }

    /// The first `n` episodes of the descending list; the whole catalog when
    /// `n` exceeds its size.
    pub fn get_recent(&self, n: usize) -> (r: Vec<Podcast>)
        ensures
            pod_views(r@) == if n <= self.views().len() {
                self.views().take(n as int)
            } else {
                self.views()
            },
    {
        let count = if n <= self.episodes.len() {
            n
        } else {
            self.episodes.len()
        };
        let mut out: Vec<Podcast> = Vec::new();
        let mut i: usize = 0;
        proof {
            assert(pod_views(out@) =~= self.views().take(0));
        }
        while i < count
            invariant
                i <= count,
                count <= self.eps().len(),
                count == if n <= self.views().len() {
                    n as int
                } else {
                    self.views().len() as int
                },
                pod_views(out@) == self.views().take(i as int),
            decreases count - i,
        {
            let p = self.episodes[i].clone();
            let ghost before = pod_views(out@);
            proof {
                assert(p@ == self.views()[i as int]);
            }
            out.push(p);
            proof {
                assert(pod_views(out@) =~= before.push(p@));
                assert(before.push(p@) =~= self.views().take(i + 1));
            }
            i = i + 1;
        }
        proof {
            if n > self.views().len() {
                assert(self.views().take(count as int) =~= self.views());
            }
        }
        out
    }

    /// Episodes carrying every given tag, in catalog order. An empty tag set
    /// means no filter; a tag absent from the index short-circuits to the
    /// empty result, which coincides with the filter semantics because the
    /// index is complete.
    pub fn get_by_tags(&self, tags: &Vec<PodcastTag>) -> (r: Vec<Podcast>)
        requires
            self.wf(),
        ensures
            pod_views(r@) == self.views().filter(with_all_tags(tag_views(tags@))),
    {
        broadcast use vstd::seq_lib::group_filter_ensures;

        let ghost ts = tag_views(tags@);
        let ghost pred = with_all_tags(ts);
        let mut q: usize = 0;
        while q < tags.len()
            invariant
                q <= tags@.len(),
                self.wf(),
                ts == tag_views(tags@),
                pred == with_all_tags(ts),
                forall|q2: int| 0 <= q2 < q ==> self.has_index_tag(#[trigger] ts[q2]),
            decreases tags@.len() - q,
        {
            match find_tag_entry(&self.tag_index, &tags[q]) {
                Some(_) => {
                    proof {
                        assert(ts[q as int] == tags@[q as int]@);
                    }
                },
                None => {
                    let out: Vec<Podcast> = Vec::new();
                    proof {
                        let t = ts[q as int];
                        assert(t == tags@[q as int]@);
                        assert(!self.has_index_tag(t));
                        assert forall|i: int|
                            0 <= i < self.views().len() implies !(#[trigger] pred(
                            self.views()[i],
                        )) by {
                            if self.views()[i].tags.contains(t) {
                                let k = choose|k: int|
                                    0 <= k < self.views()[i].tags.len()
                                        && self.views()[i].tags[k] == t;
                                assert(self.views()[i].tags[k] == t);
                                assert(tag_listed(self.tag_index@, self.views()[i].tags[k],
                                    i as usize));
                                let a = choose|a: int|
                                    0 <= a < self.tag_index@.len()
                                        && (#[trigger] self.tag_index@[a]).tag@ == t
                                        && self.tag_index@[a].episode_indexes@.contains(i as usize);
                                assert(self.has_index_tag(t));
                            } else {
                                assert(!carries_all(self.views()[i], ts));
                            }
                        }
                        assert(self.views().all(|x: PodcastView| !pred(x)));
                        self.views().lemma_all_neg_filter_empty(pred);
                        assert(pod_views(out@) =~= self.views().filter(pred));
                    }
                    return out;
                },
            }
            q = q + 1;
        }
        let mut out: Vec<Podcast> = Vec::new();
        let mut i: usize = 0;
        proof {
            assert(self.views().take(0).filter(pred) =~= Seq::<PodcastView>::empty());
            assert(pod_views(out@) =~= self.views().take(0).filter(pred));
        }
        while i < self.episodes.len()
            invariant
                i <= self.eps().len(),
                self.wf(),
                ts == tag_views(tags@),
                pred == with_all_tags(ts),
                pod_views(out@) == self.views().take(i as int).filter(pred),
            decreases self.eps().len() - i,
        {
            let keep = carries_all_exec(&self.episodes[i], tags);
            proof {
                assert(self.views().take(i + 1).drop_last() =~= self.views().take(i as int));
                assert(self.views().take(i + 1) =~= self.views().take(i as int).push(
                    self.views()[i as int],
                ));
                self.views().take(i as int).lemma_filter_push(self.views()[i as int], pred);
            }
            if keep {
                let p = self.episodes[i].clone();
                proof {
                    assert(p@ == self.views()[i as int]);
                    assert(pred(self.views()[i as int]));
                }
                out.push(p);
                proof {
                    assert(pod_views(out@) =~= self.views().take(i as int).filter(pred).push(
                        self.views()[i as int],
                    ));
                }
            } else {
                proof {
                    assert(!pred(self.views()[i as int]));
                }
            }
            i = i + 1;
        }
        proof {
            assert(self.views().take(self.views().len() as int) =~= self.views());
        }
        out
    }
}

impl FdrCache {
    /// Facet counts over the episodes carrying every selected tag: how many
    /// of them carry each further tag, with the selected tags themselves
    /// removed from the answer, filtered, ordered, and paged as
    /// `get_filtered_tags_with_counts` describes. A caller restricting the
    /// pool further (say, to the hits of a text query) uses that function
    /// on its own pool instead.
    pub fn get_tag_counts_excluding(
        &self,
        selected_tags: &Vec<PodcastTag>,
        filter_or: &Option<String>,
        offset_or: Option<usize>,
        limit_or: Option<usize>,
    ) -> (r: crate::tag_counts::TagCountsPage)
        requires
            self.wf(),
        ensures
            exists|full: Seq<(PodcastTag, usize)>|
                #[trigger] crate::tag_counts::exact_tag_counts(
                    self.views().filter(with_all_tags(tag_views(selected_tags@))),
                    tag_views(selected_tags@),
                    crate::tag_counts::opt_filter_text(*filter_or),
                    full,
                ) && vstd::relations::sorted_by(full, crate::tag_counts::count_order())
                    && r.tags@ == crate::tag_counts::page_of(full, offset_or, limit_or)
                    && r.remaining_tag_count as int == full.len() - r.tags@.len(),
            forall|a: int|
                0 <= a < r.tags@.len() ==> !tag_views(selected_tags@).contains(
                    (#[trigger] r.tags@[a]).0@,
                ),
    {
        broadcast use vstd::seq_lib::group_filter_ensures;

        let pool = self.get_by_tags(selected_tags);
        proof {
            let pv = pod_views(pool@);
            let pred = with_all_tags(tag_views(selected_tags@));
            assert forall|m: int| 0 <= m < pool@.len() implies distinct_seqs(
                (#[trigger] pod_views(pool@)[m]).tags,
            ) by {
                assert(pv.contains(pv[m]));
                self.views().lemma_filter_contains_rev(pred, pv[m]);
                let x = choose|x: int| 0 <= x < self.views().len() && self.views()[x] == pv[m];
                assert(distinct_seqs(self.views()[x].tags));
            }
        }
        crate::tag_counts::get_filtered_tags_with_counts(
            &pool,
            selected_tags,
            filter_or,
            offset_or,
            limit_or,
        )
    }
}

/// `filter` with a predicate that holds everywhere keeps the sequence.
proof fn lemma_filter_all_true(s: Seq<PodcastView>, pred: spec_fn(PodcastView) -> bool)
    requires
        forall|i: int| 0 <= i < s.len() ==> pred(#[trigger] s[i]),
    ensures
        s.filter(pred) == s,
    decreases s.len(),
{
    reveal(Seq::filter);
    if s.len() != 0 {
        lemma_filter_all_true(s.drop_last(), pred);
        assert(pred(s.last()));
        assert(s.drop_last().filter(pred).push(s.last()) =~= s);
    }
}

impl FdrCache {
    /// Law: in a built catalog, the full listing is ordered descending by
    /// numeric value and no two episodes share a number text.
    pub proof fn lemma_get_all_sorted_unique(&self)
        requires
            self.wf(),
        ensures
            sorted_desc(self.views()),
            unique_texts(self.views()),
    {
    }

    /// Law: when no two episodes share a numeric value, the full listing is
    /// strictly descending (with textually distinct numbers, two episodes may
    /// still tie numerically, so strictness needs this hypothesis).
    pub proof fn lemma_get_all_strictly_descending(&self)
        requires
            self.wf(),
            forall|i: int, j: int|
                #![trigger self.views()[i], self.views()[j]]
                0 <= i < j < self.views().len() ==> self.views()[i].number.val
                    != self.views()[j].number.val,
        ensures
            forall|i: int, j: int|
                #![trigger self.views()[i], self.views()[j]]
                0 <= i < j < self.views().len() ==> self.views()[i].number.val
                    > self.views()[j].number.val,
    {
    }

    /// Law: an episode of the catalog is found under its own identifier:
    /// no other position holds its number text, so a text-matching lookup
    /// can only yield the episode itself.
    pub proof fn lemma_get_by_identifier_self(&self, i: int)
        requires
            self.wf(),
            0 <= i < self.views().len(),
        ensures
            forall|j: int|
                0 <= j < self.views().len() && (#[trigger] self.views()[j]).number.text
                    == self.views()[i].number.text ==> j == i,
    {
        assert forall|j: int|
            0 <= j < self.views().len() && (#[trigger] self.views()[j]).number.text
                == self.views()[i].number.text implies j == i by {
            if j < i {
                assert(self.views()[j].number.text != self.views()[i].number.text);
            } else if i < j {
                assert(self.views()[i].number.text != self.views()[j].number.text);
            }
        }
    }

    /// Law: filtering by no tags at all keeps the entire catalog.
    pub proof fn lemma_get_by_tags_no_filter(&self)
        ensures
            self.views().filter(with_all_tags(Seq::<Seq<char>>::empty())) == self.views(),
    {
        lemma_filter_all_true(self.views(), with_all_tags(Seq::<Seq<char>>::empty()));
    }

    /// Law: a single-tag query selects exactly the episodes carrying that
    /// tag, and a two-tag query selects exactly the intersection of the two
    /// single-tag queries.
    pub proof fn lemma_get_by_tags_intersection(&self, t1: Seq<char>, t2: Seq<char>)
        ensures
            forall|v: PodcastView|
                #[trigger] self.views().filter(with_all_tags(seq![t1])).contains(v)
                    <==> self.views().contains(v) && v.tags.contains(t1),
            self.views().filter(with_all_tags(seq![t1, t2])).to_set() == self.views().filter(
                with_all_tags(seq![t1]),
            ).to_set().intersect(self.views().filter(with_all_tags(seq![t2])).to_set()),
    {
        broadcast use vstd::seq_lib::group_filter_ensures;

        let vs = self.views();
        assert forall|v: PodcastView, t: Seq<char>|
            #[trigger] vs.filter(with_all_tags(seq![t])).contains(v)
                <==> vs.contains(v) && v.tags.contains(t) by {
            let pred = with_all_tags(seq![t]);
            assert(seq![t][0] == t);
            if vs.filter(pred).contains(v) {
                vs.lemma_filter_contains_rev(pred, v);
                let x = choose|x: int| 0 <= x < vs.filter(pred).len() && vs.filter(pred)[x] == v;
                assert(pred(vs.filter(pred)[x]));
                assert(v.tags.contains(t));
            }
            if vs.contains(v) && v.tags.contains(t) {
                let st = seq![t];
                assert forall|k: int| 0 <= k < st.len() implies v.tags.contains(
                    #[trigger] st[k],
                ) by {
                    assert(st[k] == t);
                }
                assert(pred(v));
                let x = choose|x: int| 0 <= x < vs.len() && vs[x] == v;
                vs.lemma_filter_contains(pred, x);
            }
        }
        let pboth = with_all_tags(seq![t1, t2]);
        assert forall|v: PodcastView| #[trigger]
            vs.filter(pboth).contains(v) <==> vs.contains(v) && v.tags.contains(t1)
                && v.tags.contains(t2) by {
            assert(seq![t1, t2][0] == t1);
            assert(seq![t1, t2][1] == t2);
            if vs.filter(pboth).contains(v) {
                vs.lemma_filter_contains_rev(pboth, v);
                let x = choose|x: int|
                    0 <= x < vs.filter(pboth).len() && vs.filter(pboth)[x] == v;
                assert(pboth(vs.filter(pboth)[x]));
            }
            if vs.contains(v) && v.tags.contains(t1) && v.tags.contains(t2) {
                let st = seq![t1, t2];
                assert forall|k: int| 0 <= k < st.len() implies v.tags.contains(
                    #[trigger] st[k],
                ) by {
                    if k == 0 {
                        assert(st[k] == t1);
                    } else {
                        assert(st[k] == t2);
                    }
                }
                assert(pboth(v));
                let x = choose|x: int| 0 <= x < vs.len() && vs[x] == v;
                vs.lemma_filter_contains(pboth, x);
            }
        }
        assert(vs.filter(pboth).to_set() =~= vs.filter(with_all_tags(seq![t1])).to_set().intersect(
            vs.filter(with_all_tags(seq![t2])).to_set(),
        ));
    }

    /// Law: a query naming a tag that is absent from the tag index yields
    /// nothing, because the index covers every tag carried by any episode.
    pub proof fn lemma_get_by_tags_absent_tag(&self, ts: Seq<Seq<char>>, q: int)
        requires
            self.wf(),
            0 <= q < ts.len(),
            !self.has_index_tag(ts[q]),
        ensures
            self.views().filter(with_all_tags(ts)) == Seq::<PodcastView>::empty(),
    {
        let vs = self.views();
        let pred = with_all_tags(ts);
        let t = ts[q];
        assert forall|i: int| 0 <= i < vs.len() implies !(#[trigger] pred(vs[i])) by {
            if vs[i].tags.contains(t) {
                let k = choose|k: int| 0 <= k < vs[i].tags.len() && vs[i].tags[k] == t;
                assert(vs[i].tags[k] == t);
                assert(tag_listed(self.tag_index@, vs[i].tags[k], i as usize));
                let a = choose|a: int|
                    0 <= a < self.tag_index@.len() && (#[trigger] self.tag_index@[a]).tag@ == t
                        && self.tag_index@[a].episode_indexes@.contains(i as usize);
                assert(self.has_index_tag(t));
            } else {
                assert(!carries_all(vs[i], ts));
            }
        }
        assert(vs.all(|x: PodcastView| !pred(x)));
        vs.lemma_all_neg_filter_empty(pred);
        assert(vs.filter(pred) =~= Seq::<PodcastView>::empty());
    }
}

} // verus!
