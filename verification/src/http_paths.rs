//! Pure request-path logic for the HTTP layer: parsing the tag query
//! parameter, and deciding what a request for an unknown path should be
//! answered with.

use vstd::prelude::*;

use vstd::string::StrSliceExecFns;
use vstd::string::StringExecFns;

use crate::podcast::{tag_views, PodcastTag};
use crate::strutil::str_eq;

verus! {

/// The pieces of `s` between occurrences of `sep`: always at least one
/// piece; empty pieces are kept.
pub open spec fn split_chars(s: Seq<char>, sep: char) -> Seq<Seq<char>>
    decreases s.len(),
{
    if s.len() == 0 {
        seq![Seq::<char>::empty()]
    } else {
        let rest = split_chars(s.drop_first(), sep);
        if s[0] == sep {
            seq![Seq::<char>::empty()] + rest
        } else {
            seq![seq![s[0]] + rest[0]] + rest.drop_first()
        }
    }
}

/// ASCII whitespace, as the tag parser strips it.
pub open spec fn is_ws_char(c: char) -> bool {
    c == ' ' || c == '\t' || c == '\n' || c == '\r'
}

/// `s` without leading and trailing ASCII whitespace.
pub open spec fn trim_chars(s: Seq<char>) -> Seq<char>
    decreases s.len(),
{
    if s.len() > 0 && is_ws_char(s[0]) {
        trim_chars(s.drop_first())
    } else if s.len() > 0 && is_ws_char(s.last()) {
        trim_chars(s.drop_last())
    } else {
        s
    }
}

/// The views of a list of strings.
pub open spec fn str_views(s: Seq<String>) -> Seq<Seq<char>> {
    s.map_values(|x: String| x@)
}

/// Splits a string at every occurrence of `sep`.
pub fn split_str(s: &str, sep: char) -> (r: Vec<String>)
    ensures
        str_views(r@) == split_chars(s@, sep),
        r@.len() >= 1,
    decreases s@.len(),
{
    let n = s.unicode_len();
    if n == 0 {
        let mut v: Vec<String> = Vec::new();
        v.push(String::new());
        proof {
            assert(str_views(v@) =~= split_chars(s@, sep));
        }
        v
    } else {
        let c0 = s.get_char(0);
        let tail = s.substring_char(1, n);
        let mut rest = split_str(tail, sep);
        let ghost rest_views = str_views(rest@);
        proof {
            assert(tail@ =~= s@.drop_first());
        }
        if c0 == sep {
            rest.insert(0, String::new());
            proof {
                assert(str_views(rest@) =~= seq![Seq::<char>::empty()] + rest_views);
            }
        } else {
            let f = rest.remove(0);
            let head = s.substring_char(0, 1);
            let mut nf = String::from_str(head);
            nf.append(f.as_str());
            rest.insert(0, nf);
            proof {
                assert(head@ =~= seq![s@[0]]);
                assert(nf@ =~= seq![s@[0]] + rest_views[0]);
                assert(str_views(rest@) =~= seq![seq![s@[0]] + rest_views[0]]
                    + rest_views.drop_first());
            }
        }
        rest
    }
}

/// Strips leading and trailing ASCII whitespace.
pub fn trim_str(s: &str) -> (r: String)
    ensures
        r@ == trim_chars(s@),
    decreases s@.len(),
{
    let n = s.unicode_len();
    if n > 0 && is_ws_exec(s.get_char(0)) {
        let t = trim_str(s.substring_char(1, n));
        proof {
            assert(s@.subrange(1, n as int) =~= s@.drop_first());
        }
        t
    } else if n > 0 && is_ws_exec(s.get_char(n - 1)) {
        let t = trim_str(s.substring_char(0, n - 1));
        proof {
            assert(s@.subrange(0, n - 1) =~= s@.drop_last());
        }
        t
    } else {
        String::from_str(s)
    }
}

fn is_ws_exec(c: char) -> (r: bool)
    ensures
        r == is_ws_char(c),
{
    c == ' ' || c == '\t' || c == '\n' || c == '\r'
}

/// The tag texts parsed from the raw query parameter: split at commas,
/// each piece stripped of surrounding whitespace.
pub open spec fn parsed_tags(s: Seq<char>) -> Seq<Seq<char>> {
    split_chars(s, ',').map_values(|p: Seq<char>| trim_chars(p))
}

/// Parses the comma-separated tag query parameter; an absent parameter
/// means no tags.
pub fn parse_tag_query_string(tags: Option<String>) -> (r: Vec<PodcastTag>)
    ensures
        match tags {
            Some(s) => tag_views(r@) == parsed_tags(s@),
            None => r@.len() == 0,
        },
{
    match tags {
        Some(s) => {
            let parts = split_str(s.as_str(), ',');
            let ghost pieces = split_chars(s@, ',');
            let mut out: Vec<PodcastTag> = Vec::new();
            let mut i: usize = 0;
            proof {
                assert(tag_views(out@) =~= pieces.map_values(
                    |p: Seq<char>| trim_chars(p),
                ).take(0));
            }
            while i < parts.len()
                invariant
                    i <= parts@.len(),
                    str_views(parts@) == pieces,
                    tag_views(out@) == pieces.map_values(|p: Seq<char>| trim_chars(p)).take(
                        i as int,
                    ),
                decreases parts@.len() - i,
            {
                let piece = trim_str(parts[i].as_str());
                let ghost before = tag_views(out@);
                out.push(PodcastTag::new(piece));
                proof {
                    assert(tag_views(out@) =~= before.push(trim_chars(pieces[i as int])));
                    assert(before.push(trim_chars(pieces[i as int])) =~= pieces.map_values(
                        |p: Seq<char>| trim_chars(p),
                    ).take(i + 1));
                }
                i = i + 1;
            }
            proof {
                let mapped = pieces.map_values(|p: Seq<char>| trim_chars(p));
                assert(mapped.take(mapped.len() as int) =~= mapped);
            }
            out
        },
        None => Vec::new(),
    }
}

/// What a request for a path no route matched should be answered with.
#[derive(Clone, Copy, Debug, PartialEq, Eq, Structural)]
pub enum NotFoundKind {
    ApiNotFound,
    JsBundle,
    Favicon,
    Html,
}

/// The first piece with any characters, or the empty text.
pub open spec fn first_nonempty(segs: Seq<Seq<char>>) -> Seq<char>
    decreases segs.len(),
{
    if segs.len() == 0 {
        Seq::empty()
    } else if segs[0].len() > 0 {
        segs[0]
    } else {
        first_nonempty(segs.drop_first())
    }
}

/// The decision for an unmatched path: requests under the API prefix get a
/// not-found answer; requests for the bundle or the icon get those assets;
/// anything else gets the application page.
pub open spec fn classify_spec(path: Seq<char>) -> NotFoundKind {
    let segs = split_chars(path, '/');
    if first_nonempty(segs) == "api"@ {
        NotFoundKind::ApiNotFound
    } else if segs[segs.len() - 1] == "bundle.js"@ {
        NotFoundKind::JsBundle
    } else if segs[segs.len() - 1] == "favicon.ico"@ {
        NotFoundKind::Favicon
    } else {
        NotFoundKind::Html
    }
}

/// Classifies an unmatched request path.
pub fn classify_not_found_path(path: &str) -> (r: NotFoundKind)
    ensures
        r == classify_spec(path@),
{
    let segs = split_str(path, '/');
    let ghost sv = str_views(segs@);
    let mut i: usize = 0;
    while i < segs.len()
        invariant
            i <= segs@.len(),
            segs@.len() >= 1,
            sv == str_views(segs@),
            sv == split_chars(path@, '/'),
            forall|q: int| 0 <= q < i ==> (#[trigger] sv[q]).len() == 0,
        decreases segs@.len() - i,
    {
        if segs[i].as_str().unicode_len() > 0 {
            proof {
                lemma_first_nonempty_at(sv, i as int);
            }
            if str_eq(segs[i].as_str(), "api") {
                return NotFoundKind::ApiNotFound;
            }
            return classify_by_last(&segs);
        }
        i = i + 1;
    }
    proof {
        lemma_first_nonempty_at(sv, sv.len() as int);
        reveal_strlit("api");
        assert(first_nonempty(sv) != "api"@);
    }
    classify_by_last(&segs)
}

/// The asset checks on the path's final piece.
fn classify_by_last(segs: &Vec<String>) -> (r: NotFoundKind)
    requires
        segs@.len() >= 1,
        first_nonempty(str_views(segs@)) != "api"@,
    ensures
        ({
            let sv = str_views(segs@);
            r == if sv[sv.len() - 1] == "bundle.js"@ {
                NotFoundKind::JsBundle
            } else if sv[sv.len() - 1] == "favicon.ico"@ {
                NotFoundKind::Favicon
            } else {
                NotFoundKind::Html
            }
        }),
{
    let last = segs.len() - 1;
    if str_eq(segs[last].as_str(), "bundle.js") {
        return NotFoundKind::JsBundle;
    }
    if str_eq(segs[last].as_str(), "favicon.ico") {
        return NotFoundKind::Favicon;
    }
    NotFoundKind::Html
}

/// After `upto` empty pieces, the first non-empty piece (or the end) gives
/// the value of `first_nonempty`.
proof fn lemma_first_nonempty_at(segs: Seq<Seq<char>>, at: int)
    requires
        0 <= at <= segs.len(),
        forall|q: int| 0 <= q < at ==> (#[trigger] segs[q]).len() == 0,
        at < segs.len() ==> segs[at].len() > 0,
    ensures
        first_nonempty(segs) == if at < segs.len() {
            segs[at]
        } else {
            Seq::<char>::empty()
        },
    decreases segs.len(),
{
    if segs.len() > 0 {
        if segs[0].len() > 0 {
        } else {
            assert forall|q: int| 0 <= q < at - 1 implies (#[trigger] segs.drop_first()[q]).len()
                == 0 by {
                assert(segs[q + 1].len() == 0);
            }
            if at == 0 {
                lemma_first_nonempty_at(segs.drop_first(), 0);
            } else {
                lemma_first_nonempty_at(segs.drop_first(), at - 1);
            }
        }
    }
}

/// The body of the not-found answer for an unknown API path.
pub fn api_not_found_message(path: &str) -> (r: String)
    ensures
        r@ == "404 - API path '"@ + path@ + "' does not exist!"@,
{
    let mut s = String::from_str("404 - API path '");
    s.append(path);
    s.append("' does not exist!");
    proof {
        assert(s@ =~= "404 - API path '"@ + path@ + "' does not exist!"@);
    }
    s
}

} // verus!
