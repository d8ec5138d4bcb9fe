//! Construction of the search engine's filter expression from tag and
//! episode-length constraints: one exact-match clause per tag, then a strict
//! lower bound, then a strict upper bound, all joined with ` AND `.
//! Inclusive length bounds are realized as exclusive comparisons against
//! `min - 1` and `max + 1`.

use vstd::prelude::*;

use crate::podcast::{tag_views, PodcastTag};
use crate::strutil::{dec_digits, u64_to_string};

verus! {

/// The exact-match clause for one tag.
pub open spec fn tag_clause(t: Seq<char>) -> Seq<char> {
    "tags = \""@ + t + "\""@
}

/// The clause for the inclusive lower length bound `m`.
pub open spec fn min_clause(m: int) -> Seq<char> {
    "lengthInSeconds > "@ + dec_digits((m - 1) as nat)
}

/// The clause for the inclusive upper length bound `m`.
pub open spec fn max_clause(m: int) -> Seq<char> {
    "lengthInSeconds < "@ + dec_digits((m + 1) as nat)
}

/// All clauses, in the fixed order: tags, then minimum, then maximum.
pub open spec fn filter_clauses(
    ts: Seq<Seq<char>>,
    min_or: Option<usize>,
    max_or: Option<usize>,
) -> Seq<Seq<char>> {
    let with_tags = ts.map_values(|t: Seq<char>| tag_clause(t));
    let with_min = match min_or {
        Some(m) => with_tags.push(min_clause(m as int)),
        None => with_tags,
    };
    match max_or {
        Some(m) => with_min.push(max_clause(m as int)),
        None => with_min,
    }
}

/// Parts joined with ` AND `; empty when there are no parts.
pub open spec fn and_join(parts: Seq<Seq<char>>) -> Seq<char>
    decreases parts.len(),
{
    if parts.len() == 0 {
        Seq::empty()
    } else if parts.len() == 1 {
        parts[0]
    } else {
        parts[0] + " AND "@ + and_join(parts.drop_first())
    }
}

/// The whole filter expression.
pub open spec fn filter_spec(
    ts: Seq<Seq<char>>,
    min_or: Option<usize>,
    max_or: Option<usize>,
) -> Seq<char> {
    and_join(filter_clauses(ts, min_or, max_or))
}

proof fn lemma_and_join_push(parts: Seq<Seq<char>>, x: Seq<char>)
    ensures
        and_join(parts.push(x)) == if parts.len() == 0 {
            x
        } else {
            and_join(parts) + " AND "@ + x
        },
    decreases parts.len(),
{
    let p2 = parts.push(x);
    if parts.len() == 0 {
        assert(p2.len() == 1);
        assert(and_join(p2) == p2[0]);
        assert(p2[0] == x);
    } else if parts.len() == 1 {
        assert(p2.len() == 2);
        assert(p2.drop_first() =~= seq![x]);
        assert(and_join(p2.drop_first()) == x);
        assert(and_join(p2) == p2[0] + " AND "@ + x);
        assert(p2[0] == parts[0]);
        assert(and_join(parts) == parts[0]);
    } else {
        lemma_and_join_push(parts.drop_first(), x);
        assert(p2.drop_first() =~= parts.drop_first().push(x));
        assert(and_join(p2) == p2[0] + " AND "@ + and_join(parts.drop_first().push(x)));
        assert(and_join(parts.drop_first().push(x)) == and_join(parts.drop_first()) + " AND "@
            + x);
        assert(p2[0] == parts[0]);
        assert(parts[0] + " AND "@ + (and_join(parts.drop_first()) + " AND "@ + x) =~= (parts[0]
            + " AND "@ + and_join(parts.drop_first())) + " AND "@ + x);
        assert(and_join(parts) == parts[0] + " AND "@ + and_join(parts.drop_first()));
    }
}

/// Builds the engine filter expression. Bounds of zero or `usize::MAX` are
/// outside the expressible range of the exclusive rewriting and are ruled
/// out by the caller.
pub fn create_meilisearch_filter(
    tags: &Vec<PodcastTag>,
    min_length_seconds: Option<usize>,
    max_length_seconds: Option<usize>,
) -> (r: String)
    requires
        min_length_seconds is Some ==> min_length_seconds.unwrap() >= 1,
        max_length_seconds is Some ==> max_length_seconds.unwrap() < usize::MAX,
    ensures
        r@ == filter_spec(tag_views(tags@), min_length_seconds, max_length_seconds),
{
    let ghost ts = tag_views(tags@);
    let ghost clauses = filter_clauses(ts, min_length_seconds, max_length_seconds);
    let mut s = String::new();
    proof {
        assert(clauses.take(0) =~= Seq::<Seq<char>>::empty());
        assert(s@ =~= and_join(clauses.take(0)));
    }
    let mut k: usize = 0;
    while k < tags.len()
        invariant
            k <= tags@.len(),
            ts == tag_views(tags@),
            clauses == filter_clauses(ts, min_length_seconds, max_length_seconds),
            ts.len() <= clauses.len(),
            forall|q: int| 0 <= q < ts.len() ==> clauses[q] == tag_clause(#[trigger] ts[q]),
            s@ == and_join(clauses.take(k as int)),
        decreases tags@.len() - k,
    {
        if k > 0 {
            s.append(" AND ");
        }
        s.append("tags = \"");
        s.append(tags[k].to_string());
        s.append("\"");
        proof {
            assert(clauses[k as int] == tag_clause(ts[k as int]));
            assert(clauses.take(k + 1) =~= clauses.take(k as int).push(clauses[k as int]));
            lemma_and_join_push(clauses.take(k as int), clauses[k as int]);
            if k == 0 {
                assert(s@ =~= tag_clause(ts[k as int]));
            } else {
                assert(s@ =~= and_join(clauses.take(k as int)) + " AND "@ + tag_clause(
                    ts[k as int],
                ));
            }
            assert(s@ == and_join(clauses.take(k + 1)));
        }
        k = k + 1;
    }
    match min_length_seconds {
        Some(m) => {
            if tags.len() > 0 {
                s.append(" AND ");
            }
            s.append("lengthInSeconds > ");
            let bound = u64_to_string((m - 1) as u64);
            s.append(bound.as_str());
            proof {
                let pos = ts.len() as int;
                assert(clauses[pos] == min_clause(m as int));
                assert(clauses.take(pos + 1) =~= clauses.take(pos).push(clauses[pos]));
                lemma_and_join_push(clauses.take(pos), clauses[pos]);
                assert(bound@ == dec_digits((m - 1) as nat));
                if ts.len() == 0 {
                    assert(s@ =~= min_clause(m as int));
                } else {
                    assert(s@ =~= and_join(clauses.take(pos)) + " AND "@ + min_clause(m as int));
                }
                assert(s@ == and_join(clauses.take(pos + 1)));
            }
        },
        None => {},
    }
    match max_length_seconds {
        Some(m) => {
            let sep = match min_length_seconds {
                Some(_) => true,
                None => tags.len() > 0,
            };
            if sep {
                s.append(" AND ");
            }
            s.append("lengthInSeconds < ");
            let bound = u64_to_string((m + 1) as u64);
            s.append(bound.as_str());
            proof {
                let pos = clauses.len() - 1;
                assert(clauses[pos] == max_clause(m as int));
                assert(clauses.take(pos + 1) =~= clauses.take(pos).push(clauses[pos]));
                lemma_and_join_push(clauses.take(pos), clauses[pos]);
                assert(bound@ == dec_digits((m + 1) as nat));
                if pos == 0 {
                    assert(s@ =~= max_clause(m as int));
                } else {
                    assert(s@ =~= and_join(clauses.take(pos)) + " AND "@ + max_clause(m as int));
                }
                assert(s@ == and_join(clauses.take(pos + 1)));
            }
        },
        None => {},
    }
    proof {
        assert(clauses.take(clauses.len() as int) =~= clauses);
    }
    s
}

} // verus!
