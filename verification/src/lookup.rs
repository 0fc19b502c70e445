//! The search entry points of an index.

use vstd::prelude::*;
use vstd::utf8::{encode_utf8, encode_utf8_valid_utf8};
use crate::anchored::flagged;
use crate::bytes::{copy, views, SLASH};
use crate::fold::{effective, fold, lemma_fold_nonempty};
use crate::index::{Index, IndexView};
use crate::maintain::{lossy, lossy_text};
use crate::matcher::regex_outcome;
use crate::multi::has_slash;
use crate::options::{no_opts, SearchOpts};
use crate::search::{answers, paths_of};
use crate::terms::{split_terms, terms_are_not_empty, terms_of};
use crate::text::texts;

verus! {

/// The bytes of a text hold a separator.
pub open spec fn slashed(s: Seq<char>) -> bool {
    encode_utf8(s).contains(SLASH)
}

/// A term as it is compared.
pub open spec fn needle_of(term: Seq<char>, match_case: bool) -> Seq<u8> {
    effective(encode_utf8(term), match_case)
}

/// The terms as they are compared.
pub open spec fn needles_of(terms: Seq<Seq<char>>, match_case: bool) -> Seq<Seq<u8>> {
    Seq::new(terms.len(), |i: int| needle_of(terms[i], match_case))
}

impl IndexView {
    /// What a search for one term finds, in order: by path through the trigram
    /// lists where they can tell, by path otherwise, or by name.
    pub open spec fn single_ids(self, needle: Seq<u8>, by_path: bool, o: SearchOpts) -> Seq<u32> {
        if by_path {
            match self.anchors(needle, o.match_case) {
                Some((ids, strict)) => self.shown(flagged(ids, !strict), o, seq![]),
                None => self.selected(self.path_match(needle, o)),
            }
        } else {
            self.selected(self.name_match(needle, o))
        }
    }

    /// What a search without regular expressions finds, in order.
    pub open spec fn found_ids(self, pattern: Seq<char>, o: SearchOpts) -> Seq<u32> {
        let terms = terms_of(pattern);
        if terms.len() == 0 {
            seq![]
        } else if terms.len() == 1 {
            self.single_ids(
                needle_of(terms[0], o.match_case),
                o.in_path || slashed(terms[0]),
                o,
            )
        } else {
            self.multi_ids(needles_of(terms, o.match_case), o)
        }
    }
}

/// What a search returns.
pub open spec fn search_outcome(
    v: IndexView,
    pattern: Seq<char>,
    limit: int,
    o: SearchOpts,
    r: Result<Vec<Vec<u8>>, String>,
) -> bool {
    if pattern.len() == 0 || limit == 0 {
        r matches Ok(out) && out@.len() == 0
    } else if o.regex {
        regex_outcome(v, pattern, limit, o, o.in_path || slashed(pattern), r)
    } else {
        r matches Ok(out) && views(out@) == answers(v.nodes, v.found_ids(pattern, o), limit)
    }
}

/// What a search with no option set finds.
pub open spec fn plain_answers(v: IndexView, pattern: Seq<char>, limit: int) -> Seq<Seq<u8>> {
    if pattern.len() == 0 || limit == 0 {
        Seq::empty()
    } else {
        answers(v.nodes, v.found_ids(pattern, no_opts()), limit)
    }
}

/// The paths as text.
pub open spec fn lossy_texts(paths: Seq<Seq<u8>>) -> Seq<Seq<char>> {
    Seq::new(paths.len(), |i: int| lossy_text(paths[i]))
}

/// What a search returns, with the paths as text.
pub open spec fn text_outcome(
    v: IndexView,
    pattern: Seq<char>,
    limit: int,
    o: SearchOpts,
    r: Result<Vec<String>, String>,
) -> bool {
    exists|raw: Result<Vec<Vec<u8>>, String>| #[trigger]
        search_outcome(v, pattern, limit, o, raw) && match raw {
            Ok(paths) => r matches Ok(out) && texts(out@) == lossy_texts(views(paths@)),
            Err(e) => r matches Err(f) && f@ == e@,
        }
}

/// A text that is not empty has bytes.
proof fn lemma_encode_nonempty(s: Seq<char>)
    requires
        s.len() > 0,
    ensures
        encode_utf8(s).len() > 0,
{
    assert(vstd::utf8::encode_scalar(s[0] as u32).len() > 0);
}

/// The paths as text.
fn lossy_list(paths: &Vec<Vec<u8>>) -> (out: Vec<String>)
    ensures
        texts(out@) == lossy_texts(views(paths@)),
{
    let mut out: Vec<String> = Vec::new();
    let mut i: usize = 0;
    while i < paths.len()
        invariant
            i <= paths.len(),
            out@.len() == i,
            forall|k: int| 0 <= k < i ==> (#[trigger] out@[k])@ == lossy_text(paths@[k]@),
        decreases paths.len() - i,
    {
        out.push(lossy(paths[i].as_slice()));
        i = i + 1;
    }
    assert(texts(out@) =~= lossy_texts(views(paths@)));
    out
}

/// A term as it is compared.
fn needle(term: &str, match_case: bool) -> (out: Vec<u8>)
    requires
        term@.len() > 0,
    ensures
        out@ == needle_of(term@, match_case),
        out@.len() > 0,
        match_case ==> vstd::utf8::valid_utf8(out@),
{
    let b = term.as_bytes();
    proof {
        lemma_encode_nonempty(term@);
        encode_utf8_valid_utf8(term@);
        lemma_fold_nonempty(b@);
    }
    if match_case {
        copy(b)
    } else {
        fold(b)
    }
}

impl Index {
    /// Search with options. Fails only on an invalid or oversized regular
    /// expression. Paths come back as raw bytes.
    pub fn search_opts_raw(&self, pattern: &str, limit: usize, o: &SearchOpts) -> (r: Result<
        Vec<Vec<u8>>,
        String,
    >)
        requires
            self.wf(),
        ensures
            search_outcome(self@, pattern@, limit as int, *o, r),
    {
        let bytes = pattern.as_bytes();
        proof {
            if pattern@.len() > 0 {
                lemma_encode_nonempty(pattern@);
            }
        }
        if bytes.len() == 0 || limit == 0 {
            return Ok(Vec::new());
        }
        // A '/' in the query switches to path matching, since names cannot
        // contain one.
        if o.regex {
            return self.search_regex(pattern, limit, o, o.in_path || has_slash(bytes));
        }
        let terms = split_terms(pattern);
        let ghost all = terms_of(pattern@);
        proof {
            terms_are_not_empty(pattern@);
            assert(texts(terms@).len() == terms@.len());
        }
        if terms.len() == 0 {
            let none: Vec<Vec<u8>> = Vec::new();
            assert(views(none@) =~= paths_of(self@.nodes, Seq::empty()));
            return Ok(none);
        }
        if terms.len() == 1 {
            assert(terms@[0]@ == all[0]);
            let term = terms[0].as_str();
            let key = needle(term, o.match_case);
            if o.in_path || has_slash(term.as_bytes()) {
                if let Some(out) = self.search_path_trigram(key.as_slice(), limit, o) {
                    return Ok(out);
                }
                return Ok(self.search_path(key.as_slice(), limit, o));
            }
            return Ok(self.search_name(key.as_slice(), limit, o));
        }
        // Several words: all must appear, each anywhere in the full path.
        let mut keys: Vec<Vec<u8>> = Vec::new();
        let mut i: usize = 0;
        while i < terms.len()
            invariant
                i <= terms.len(),
                all == texts(terms@),
                crate::terms::none_empty(all),
                keys@.len() == i,
                forall|k: int|
                    0 <= k < i ==> (#[trigger] keys@[k])@ == needle_of(all[k], o.match_case)
                        && keys@[k]@.len() > 0 && (o.match_case ==> vstd::utf8::valid_utf8(
                        keys@[k]@,
                    )),
            decreases terms.len() - i,
        {
            assert(all[i as int] == terms@[i as int]@);
            keys.push(needle(terms[i].as_str(), o.match_case));
            i = i + 1;
        }
        assert(views(keys@) =~= needles_of(all, o.match_case));
        Ok(self.search_multi(&keys, limit, o))
    }

    /// Default search: ignoring case, matched against the full path when the
    /// pattern contains '/', otherwise against the name alone.
    pub fn search_raw(&self, pattern: &str, limit: usize) -> (out: Vec<Vec<u8>>)
        requires
            self.wf(),
        ensures
            views(out@) == plain_answers(self@, pattern@, limit as int),
    {
        match self.search_opts_raw(pattern, limit, &SearchOpts::default()) {
            Ok(out) => {
                proof {
                    if pattern@.len() == 0 || limit == 0 {
                        assert(views(out@) =~= Seq::empty());
                    }
                }
                out
            },
            Err(_) => Vec::new(),
        }
    }

    /// Search with options, with the paths as text.
    pub fn search_opts(&self, pattern: &str, limit: usize, o: &SearchOpts) -> (r: Result<
        Vec<String>,
        String,
    >)
        requires
            self.wf(),
        ensures
            text_outcome(self@, pattern@, limit as int, *o, r),
    {
        let raw = self.search_opts_raw(pattern, limit, o);
        let ghost raw0 = raw;
        assert(search_outcome(self@, pattern@, limit as int, *o, raw0));
        match raw {
            Ok(paths) => Ok(lossy_list(&paths)),
            Err(e) => Err(e),
        }
    }

    /// Default search, with the paths as text.
    pub fn search(&self, pattern: &str, limit: usize) -> (out: Vec<String>)
        requires
            self.wf(),
        ensures
            texts(out@) == lossy_texts(plain_answers(self@, pattern@, limit as int)),
    {
        let raw = self.search_raw(pattern, limit);
        lossy_list(&raw)
    }
}

} // verus!
