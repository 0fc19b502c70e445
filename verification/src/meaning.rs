//! What a search is for, said in terms of names, paths and words.

use vstd::prelude::*;
use vstd::utf8::{
    encode_utf8, encode_utf8_valid_utf8, is_ascii_chars, is_ascii_chars_encode_utf8,
};
use crate::bytes::{occurs, occurs_at, views};
use crate::fold::{
    ascii_lower, case_alone_folds_away, folded, lemma_fold_ascii, lemma_fold_concat_valid,
    lemma_fold_no_slash, lemma_fold_slash, same_letter,
};
use crate::ids::{ascending, lemma_ids_where, lemma_ids_where_contains};
use crate::index::IndexView;
use crate::laws::search_is_exact;
use crate::lookup::{needle_of, needles_of, plain_answers, search_outcome, slashed};
use crate::matcher::regex_found;
use crate::options::{no_opts, Kind, SearchOpts};
use crate::search::{all_occur, answers};
use crate::terms::{terms_from, terms_of};
use crate::text::white;
use crate::tree::{
    has_parent, hidden, lemma_path_nonempty, on_chain, parents_first, path, Node, NO_PARENT,
};

verus! {

/// `text` stands somewhere in `hay`.
pub open spec fn stands_in(hay: Seq<u8>, text: Seq<u8>) -> bool {
    exists|i: int|
        0 <= i && i + text.len() <= hay.len() && #[trigger] hay.subrange(i, i + text.len()) == text
}

/// `term` stands in `hay`, in the same case or in any.
pub open spec fn holds_term(hay: Seq<u8>, term: Seq<char>, match_case: bool) -> bool {
    if match_case {
        stands_in(hay, encode_utf8(term))
    } else {
        stands_in(folded(hay), folded(encode_utf8(term)))
    }
}

/// The entry is alive, of the kind that is asked for, and not hidden where
/// hidden entries are left out.
pub open spec fn may_be_shown(v: IndexView, d: int, o: SearchOpts) -> bool {
    &&& v.nodes[d].alive
    &&& o.kind == Kind::Files ==> !v.nodes[d].is_dir
    &&& o.kind == Kind::Folders ==> v.nodes[d].is_dir
    &&& o.hide_hidden ==> !hidden(v.nodes, v.root, d)
}

proof fn lemma_stands_in(hay: Seq<u8>, text: Seq<u8>)
    ensures
        stands_in(hay, text) <==> occurs(hay, text),
{
    if stands_in(hay, text) {
        let i = choose|i: int|
            0 <= i && i + text.len() <= hay.len() && #[trigger] hay.subrange(i, i + text.len())
                == text;
        assert(occurs_at(hay, text, i));
    }
    if occurs(hay, text) {
        let i = choose|i: int| occurs_at(hay, text, i);
        assert(hay.subrange(i, i + text.len()) == text);
    }
}

/// One word without a separator is looked for in names, unless the path is
/// asked for; otherwise every word is looked for in the full path. What is
/// found is every entry that may be shown and holds the word, or all the words.
pub proof fn words_are_found(v: IndexView, pattern: Seq<char>, o: SearchOpts, d: u32)
    requires
        v.searchable(),
        !o.regex,
    ensures
        ({
            let terms = terms_of(pattern);
            v.hits(pattern, o).contains(d) <==> {
                &&& d < v.nodes.len()
                &&& may_be_shown(v, d as int, o)
                &&& terms.len() > 0
                &&& if terms.len() == 1 && !o.in_path && !encode_utf8(terms[0]).contains(0x2f) {
                    holds_term(v.nodes[d as int].name, terms[0], o.match_case)
                } else {
                    forall|t: int|
                        0 <= t < terms.len() ==> holds_term(
                            path(v.nodes, d as int),
                            #[trigger] terms[t],
                            o.match_case,
                        )
                }
            }
        }),
{
    let terms = terms_of(pattern);
    let needles = needles_of(terms, o.match_case);
    search_is_exact(v, pattern, o);
    if pattern.len() == 0 {
        assert(pattern =~= Seq::<char>::empty());
        assert(terms.len() == 0);
    }
    let name = v.nodes[d as int].name;
    let whole = path(v.nodes, d as int);
    assert forall|t: int, hay: Seq<u8>| 0 <= t < terms.len() implies (#[trigger] holds_term(
        hay,
        terms[t],
        o.match_case,
    ) <==> occurs(
        if o.match_case {
            hay
        } else {
            folded(hay)
        },
        needles[t],
    )) by {
        lemma_stands_in(hay, encode_utf8(terms[t]));
        lemma_stands_in(folded(hay), folded(encode_utf8(terms[t])));
    }
    let hay = v.compared_path(d as int, o.match_case);
    if all_occur(hay, needles) {
        assert forall|t: int| 0 <= t < terms.len() implies holds_term(
            whole,
            #[trigger] terms[t],
            o.match_case,
        ) by {
            assert(occurs(hay, needles[t]));
        }
    }
    if forall|t: int| 0 <= t < terms.len() ==> holds_term(whole, #[trigger] terms[t], o.match_case) {
        assert forall|t: int| 0 <= t < needles.len() implies occurs(hay, #[trigger] needles[t]) by {
            assert(holds_term(whole, terms[t], o.match_case));
        }
    }
    if terms.len() == 1 {
        assert(holds_term(name, terms[0], o.match_case) <==> occurs(
            v.compared_name(d as int, o.match_case),
            needles[0],
        ));
        assert(needles[0] == needle_of(terms[0], o.match_case));
    }
}

/// An expression is matched against names, or against full paths where these
/// are asked for or it holds a separator. What is found is every entry that may
/// be shown and matches.
pub proof fn expressions_are_found(v: IndexView, pattern: Seq<char>, o: SearchOpts, d: u32)
    requires
        parents_first(v.nodes),
        o.regex,
        pattern.len() > 0,
    ensures
        v.hits(pattern, o).contains(d) <==> {
            &&& d < v.nodes.len()
            &&& may_be_shown(v, d as int, o)
            &&& regex_found(
                pattern,
                !o.match_case,
                if o.in_path || encode_utf8(pattern).contains(0x2f) {
                    path(v.nodes, d as int)
                } else {
                    v.nodes[d as int].name
                },
            )
        },
        ascending(v.hits(pattern, o)),
{
    let keep = v.regex_match(pattern, o, o.in_path || slashed(pattern));
    lemma_ids_where(keep, v.nodes.len());
    lemma_ids_where_contains(keep, v.nodes.len(), d);
}

/// A word that is looked for in names is found in the order of the arena, and
/// so is everything where there are no trigram lists.
pub proof fn names_are_found_in_order(v: IndexView, pattern: Seq<char>, o: SearchOpts)
    requires
        parents_first(v.nodes),
        !o.regex,
        !v.indexed || (terms_of(pattern).len() == 1 && !o.in_path && !encode_utf8(
            terms_of(pattern)[0],
        ).contains(0x2f)),
    ensures
        ascending(v.hits(pattern, o)),
{
    let terms = terms_of(pattern);
    let needles = needles_of(terms, o.match_case);
    let needle = needle_of(terms[0], o.match_case);
    lemma_ids_where(v.name_match(needle, o), v.nodes.len());
    lemma_ids_where(v.path_match(needle, o), v.nodes.len());
    lemma_ids_where(v.terms_match(needles, o), v.nodes.len());
}

/// `text` stands in `hay` at `i`, but for the case of letters.
pub open spec fn stands_in_any_case(hay: Seq<u8>, text: Seq<u8>, i: int) -> bool {
    &&& 0 <= i && i + text.len() <= hay.len()
    &&& forall|j: int|
        #![trigger text[j]]
        0 <= j < text.len() ==> same_letter(hay[i + j], text[j])
}

/// Case is ignored unless it is to be matched: an ASCII text holds an ASCII term
/// wherever the two differ in nothing but the case of letters.
pub proof fn case_is_ignored(hay: Seq<u8>, term: Seq<char>)
    requires
        forall|i: int| 0 <= i < hay.len() ==> (#[trigger] hay[i]) < 0x80,
        forall|i: int|
            0 <= i < encode_utf8(term).len() ==> (#[trigger] encode_utf8(term)[i]) < 0x80,
    ensures
        holds_term(hay, term, false) <==> exists|i: int| #[trigger]
            stands_in_any_case(hay, encode_utf8(term), i),
{
    let text = encode_utf8(term);
    let a = folded(hay);
    let b = folded(text);
    case_alone_folds_away(hay, hay);
    case_alone_folds_away(text, text);
    assert forall|i: int| 0 <= i && i + text.len() <= hay.len() implies (#[trigger] a.subrange(
        i,
        i + b.len(),
    ) == b <==> stands_in_any_case(hay, text, i)) by {
        let part = hay.subrange(i, i + text.len());
        case_alone_folds_away(part, text);
        let x = hay.take(i);
        let y = hay.skip(i + text.len());
        assert(hay =~= x + (part + y));
        lemma_fold_ascii(hay);
        lemma_fold_ascii(part);
        assert(a.subrange(i, i + b.len()) =~= folded(part)) by {
            assert forall|j: int| 0 <= j < part.len() implies a.subrange(i, i + b.len())[j]
                == folded(part)[j] by {
                assert(part[j] == hay[i + j]);
                assert(a[i + j] == ascii_lower(hay[i + j]));
            }
        }
        if folded(part) == b {
            assert forall|j: int|
                #![trigger text[j]]
                0 <= j < text.len() implies same_letter(hay[i + j], text[j]) by {
                assert(same_letter(part[j], text[j]));
            }
        }
        if stands_in_any_case(hay, text, i) {
            assert forall|j: int| 0 <= j < part.len() implies same_letter(
                #[trigger] part[j],
                text[j],
            ) by {
                assert(same_letter(hay[i + j], text[j]));
            }
        }
    }
    if holds_term(hay, term, false) {
        let i = choose|i: int|
            0 <= i && i + b.len() <= a.len() && #[trigger] a.subrange(i, i + b.len()) == b;
        assert(stands_in_any_case(hay, text, i));
    }
    if exists|i: int| #[trigger] stands_in_any_case(hay, text, i) {
        let i = choose|i: int| #[trigger] stands_in_any_case(hay, text, i);
        assert(a.subrange(i, i + b.len()) == b);
    }
}

/// An entry is hidden where its own name starts with a dot, or that of a folder
/// above it, the root left aside.
pub proof fn dots_hide(nodes: Seq<Node>, root: u32, d: int)
    requires
        parents_first(nodes),
        0 <= d < nodes.len(),
        root < nodes.len() ==> nodes[root as int].parent == NO_PARENT,
    ensures
        hidden(nodes, root, d) <==> exists|a: int|
            a != root && #[trigger] on_chain(nodes, a, d) && nodes[a].name.len() > 0
                && nodes[a].name[0] == 0x2e,
    decreases d,
{
    if has_parent(nodes, d) {
        let p = nodes[d].parent as int;
        dots_hide(nodes, root, p);
        if hidden(nodes, root, p) {
            let a = choose|a: int|
                a != root && #[trigger] on_chain(nodes, a, p) && nodes[a].name.len() > 0
                    && nodes[a].name[0] == 0x2e;
            assert(on_chain(nodes, a, d));
        }
        if exists|a: int|
            a != root && #[trigger] on_chain(nodes, a, d) && nodes[a].name.len() > 0
                && nodes[a].name[0] == 0x2e {
            let a = choose|a: int|
                a != root && #[trigger] on_chain(nodes, a, d) && nodes[a].name.len() > 0
                    && nodes[a].name[0] == 0x2e;
            if a != d {
                assert(on_chain(nodes, a, p));
            }
        }
    }
    assert(on_chain(nodes, d, d));
}

/// The path of an entry is that of its folder, a separator unless the folder's
/// path ends in one, and its name. The path of the root is its name, or the
/// separator if that is empty.
pub proof fn paths_are_joined_from_names(nodes: Seq<Node>, d: int)
    requires
        parents_first(nodes),
        0 <= d < nodes.len(),
    ensures
        nodes[d].parent == NO_PARENT && nodes[d].name.len() > 0 ==> path(nodes, d) == nodes[d].name,
        nodes[d].parent == NO_PARENT && nodes[d].name.len() == 0 ==> path(nodes, d) == seq![0x2fu8],
        nodes[d].parent != NO_PARENT ==> ({
            let above = path(nodes, nodes[d].parent as int);
            path(nodes, d) == if above.last() == 0x2f {
                above + nodes[d].name
            } else {
                above + seq![0x2fu8] + nodes[d].name
            }
        }),
{
    if nodes[d].parent != NO_PARENT {
        let above = path(nodes, nodes[d].parent as int);
        lemma_path_nonempty(nodes, nodes[d].parent as int);
        if above.last() == 0x2f {
            assert(path(nodes, d) =~= above + nodes[d].name);
        }
    }
}

/// A search answers with the paths of its hits, in their order: all of them, or
/// as many as the limit allows.
pub proof fn answers_are_the_first_paths(nodes: Seq<Node>, ids: Seq<u32>, limit: int, i: int)
    requires
        0 <= limit,
    ensures
        answers(nodes, ids, limit).len() == (if ids.len() <= limit {
            ids.len() as int
        } else {
            limit
        }),
        0 <= i < answers(nodes, ids, limit).len() ==> answers(nodes, ids, limit)[i] == path(
            nodes,
            ids[i] as int,
        ),
{
}

/// Without options case is ignored, words are not expressions, names are
/// searched, and files, folders and hidden entries are all shown.
pub proof fn nothing_is_set_by_default()
    ensures
        !no_opts().match_case,
        !no_opts().regex,
        !no_opts().in_path,
        !no_opts().hide_hidden,
        no_opts().kind == Kind::All,
{
}

/// Two characters are equal, or the two cases of one ASCII letter.
pub open spec fn same_character(a: char, b: char) -> bool {
    ||| a == b
    ||| 'A' <= a <= 'Z' && b as int == a as int + 0x20
    ||| 'A' <= b <= 'Z' && a as int == b as int + 0x20
}

/// Two texts differ in nothing but the case of ASCII letters.
pub open spec fn same_text_in_any_case(a: Seq<char>, b: Seq<char>) -> bool {
    a.len() == b.len() && forall|i: int| 0 <= i < a.len() ==> same_character(#[trigger] a[i], b[i])
}

proof fn lemma_texts_fold_alike(a: Seq<char>, b: Seq<char>)
    requires
        same_text_in_any_case(a, b),
    ensures
        folded(encode_utf8(a)) == folded(encode_utf8(b)),
    decreases a.len(),
{
    if a.len() > 0 {
        let (x, y) = (seq![a[0]], seq![b[0]]);
        let (p, q) = (a.drop_first(), b.drop_first());
        assert(same_character(a[0], b[0]));
        assert forall|i: int| 0 <= i < p.len() implies same_character(#[trigger] p[i], q[i]) by {
            assert(same_character(a[i + 1], b[i + 1]));
        }
        lemma_texts_fold_alike(p, q);
        assert(x.drop_first() =~= Seq::<char>::empty());
        assert(y.drop_first() =~= Seq::<char>::empty());
        assert(encode_utf8(Seq::<char>::empty()) =~= Seq::<u8>::empty());
        assert(encode_utf8(a) =~= encode_utf8(x) + encode_utf8(p));
        assert(encode_utf8(b) =~= encode_utf8(y) + encode_utf8(q));
        encode_utf8_valid_utf8(x);
        encode_utf8_valid_utf8(y);
        lemma_fold_concat_valid(encode_utf8(x), encode_utf8(p));
        lemma_fold_concat_valid(encode_utf8(y), encode_utf8(q));
        if a[0] != b[0] {
            assert(is_ascii_chars(x)) by {
                assert(x[0] <= '\u{7f}');
            }
            assert(is_ascii_chars(y)) by {
                assert(y[0] <= '\u{7f}');
            }
            is_ascii_chars_encode_utf8(x);
            is_ascii_chars_encode_utf8(y);
            assert(x[0] as u8 == encode_utf8(x)[0] && y[0] as u8 == encode_utf8(y)[0]);
            case_alone_folds_away(encode_utf8(x), encode_utf8(y));
        }
    } else {
        assert(a =~= b);
    }
}

proof fn lemma_slashes_stay(s: Seq<u8>)
    ensures
        s.contains(0x2f) <==> folded(s).contains(0x2f),
{
    if s.contains(0x2f) {
        let i = choose|i: int| 0 <= i < s.len() && s[i] == 0x2f;
        let (x, y) = (s.take(i), s.skip(i + 1));
        assert(s =~= x + seq![0x2fu8] + y);
        lemma_fold_slash(x, y);
        assert(folded(s)[folded(x).len() as int] == 0x2f);
    } else {
        lemma_fold_no_slash(s);
    }
}

proof fn lemma_terms_alike(a: Seq<char>, b: Seq<char>, x: Seq<char>, y: Seq<char>, quoted: bool)
    requires
        same_text_in_any_case(a, b),
        same_text_in_any_case(x, y),
    ensures
        terms_from(a, x, quoted).len() == terms_from(b, y, quoted).len(),
        forall|t: int|
            0 <= t < terms_from(a, x, quoted).len() ==> same_text_in_any_case(
                #[trigger] terms_from(a, x, quoted)[t],
                terms_from(b, y, quoted)[t],
            ),
    decreases a.len(),
{
    if a.len() > 0 {
        assert(same_character(a[0], b[0]));
        let (p, q) = (a.skip(1), b.skip(1));
        assert forall|i: int| 0 <= i < p.len() implies same_character(#[trigger] p[i], q[i]) by {
            assert(same_character(a[i + 1], b[i + 1]));
        }
        let none = Seq::<char>::empty();
        assert(white(a[0]) == white(b[0]));
        assert((a[0] == '"') == (b[0] == '"'));
        if a[0] == '"' {
            lemma_terms_alike(p, q, x, y, !quoted);
        } else if white(a[0]) && !quoted {
            lemma_terms_alike(p, q, none, none, quoted);
        } else {
            let (u, w) = (x.push(a[0]), y.push(b[0]));
            assert forall|i: int| 0 <= i < u.len() implies same_character(
                #[trigger] u[i],
                w[i],
            ) by {
                if i < x.len() {
                    assert(same_character(x[i], y[i]));
                }
            }
            lemma_terms_alike(p, q, u, w, quoted);
        }
    }
}

/// A search that ignores case answers the same for any two patterns that differ
/// in nothing but the case of letters.
pub proof fn patterns_are_folded_too(v: IndexView, a: Seq<char>, b: Seq<char>, o: SearchOpts)
    requires
        same_text_in_any_case(a, b),
        !o.match_case,
        !o.regex,
    ensures
        v.hits(a, o) == v.hits(b, o),
{
    let none = Seq::<char>::empty();
    lemma_terms_alike(a, b, none, none, false);
    let (s, t) = (terms_of(a), terms_of(b));
    assert forall|k: int| 0 <= k < s.len() implies #[trigger] needles_of(s, false)[k] == needles_of(
        t,
        false,
    )[k] by {
        assert(same_text_in_any_case(s[k], t[k]));
        lemma_texts_fold_alike(s[k], t[k]);
    }
    assert(needles_of(s, false) =~= needles_of(t, false));
    if s.len() > 0 {
        assert(same_text_in_any_case(s[0], t[0]));
        lemma_texts_fold_alike(s[0], t[0]);
        lemma_slashes_stay(encode_utf8(s[0]));
        lemma_slashes_stay(encode_utf8(t[0]));
    }
}

/// A plain search is one with no option set, and nothing is found where nothing
/// is searched for.
pub proof fn plain_searches_set_no_option(
    v: IndexView,
    pattern: Seq<char>,
    limit: int,
    out: Vec<Vec<u8>>,
)
    requires
        limit >= 0,
        search_outcome(
            v,
            pattern,
            limit,
            SearchOpts {
                match_case: false,
                regex: false,
                in_path: false,
                kind: Kind::All,
                hide_hidden: false,
            },
            Ok(out),
        ),
    ensures
        views(out@) == plain_answers(v, pattern, limit),
        pattern.len() == 0 || limit == 0 ==> out@.len() == 0,
{
    if pattern.len() == 0 || limit == 0 {
        assert(views(out@) =~= Seq::<Seq<u8>>::empty());
    }
}

/// A match is shown by its path where no filter keeps it out, and what did not
/// match is not shown.
pub proof fn matches_are_shown_by_their_paths(v: IndexView, d: int, o: SearchOpts)
    ensures
        v.shown_if(d, false, o) is None,
        may_be_shown(v, d, o) ==> v.shown_if(d, true, o) == Some(path(v.nodes, d)),
        !may_be_shown(v, d, o) ==> v.shown_if(d, true, o) is None,
{
}

} // verus!
