//! Splitting a query into terms.

use vstd::prelude::*;
use crate::text::{chars_of, is_white, text_of, texts, white};

verus! {

/// The terms of what is left of a query, after the unfinished term `cur`.
pub open spec fn terms_from(q: Seq<char>, cur: Seq<char>, quoted: bool) -> Seq<Seq<char>>
    decreases q.len(),
{
    let done = if cur.len() > 0 {
        seq![cur]
    } else {
        seq![]
    };
    if q.len() == 0 {
        done
    } else if q[0] == '"' {
        terms_from(q.skip(1), cur, !quoted)
    } else if white(q[0]) && !quoted {
        done + terms_from(q.skip(1), seq![], quoted)
    } else {
        terms_from(q.skip(1), cur.push(q[0]), quoted)
    }
}

/// The terms of a query: split at white space, except between double quotes,
/// which are dropped.
pub open spec fn terms_of(q: Seq<char>) -> Seq<Seq<char>> {
    terms_from(q, seq![], false)
}

/// Splits a query into AND terms on white space. Double quotes keep a phrase,
/// spaces included, together.
pub fn split_terms(q: &str) -> (out: Vec<String>)
    ensures
        texts(out@) == terms_of(q@),
{
    let chars = chars_of(q);
    let mut out: Vec<String> = Vec::new();
    let mut cur: Vec<char> = Vec::new();
    let mut quoted = false;
    let mut i: usize = 0;
    proof {
        assert(chars@.skip(0) =~= q@);
        assert(cur@ =~= Seq::<char>::empty());
        assert(texts(out@) + terms_of(q@) =~= terms_of(q@));
    }
    while i < chars.len()
        invariant
            i <= chars.len(),
            chars@ == q@,
            texts(out@) + terms_from(chars@.skip(i as int), cur@, quoted) == terms_of(q@),
        decreases chars.len() - i,
    {
        let c = chars[i];
        let ghost before = texts(out@);
        let ghost cur0 = cur@;
        let ghost rest = chars@.skip(i as int);
        assert(rest[0] == c);
        assert(rest.skip(1) =~= chars@.skip(i + 1));
        if c == '"' {
            quoted = !quoted;
        } else if is_white(c) && !quoted {
            if cur.len() > 0 {
                out.push(text_of(&cur, 0, cur.len()));
                assert(cur@.subrange(0, cur@.len() as int) =~= cur@);
                assert(texts(out@) =~= before.push(cur@));
                cur = Vec::new();
            }
            proof {
                assert(cur@ =~= Seq::<char>::empty());
                assert(texts(out@) + terms_from(rest.skip(1), cur@, quoted) =~= before + terms_from(
                    rest,
                    cur0,
                    quoted,
                ));
            }
        } else {
            cur.push(c);
        }
        i = i + 1;
    }
    let ghost before = texts(out@);
    if cur.len() > 0 {
        out.push(text_of(&cur, 0, cur.len()));
        assert(cur@.subrange(0, cur@.len() as int) =~= cur@);
        assert(texts(out@) =~= before.push(cur@));
    }
    proof {
        assert(texts(out@) =~= before + terms_from(chars@.skip(i as int), cur@, quoted));
    }
    out
}

/// None of the texts is empty.
pub open spec fn none_empty(s: Seq<Seq<char>>) -> bool {
    forall|i: int| 0 <= i < s.len() ==> (#[trigger] s[i]).len() > 0
}

proof fn lemma_none_empty(q: Seq<char>, cur: Seq<char>, quoted: bool)
    ensures
        none_empty(terms_from(q, cur, quoted)),
    decreases q.len(),
{
    let all = terms_from(q, cur, quoted);
    if q.len() == 0 {
        assert(none_empty(all));
    } else if q[0] == '"' {
        lemma_none_empty(q.skip(1), cur, !quoted);
        assert(all == terms_from(q.skip(1), cur, !quoted));
    } else if white(q[0]) && !quoted {
        lemma_none_empty(q.skip(1), seq![], quoted);
        let rest = terms_from(q.skip(1), seq![], quoted);
        let skip = if cur.len() > 0 {
            1int
        } else {
            0
        };
        assert forall|i: int| 0 <= i < all.len() implies (#[trigger] all[i]).len() > 0 by {
            if i >= skip {
                assert(all[i] == rest[i - skip]);
            }
        }
    } else {
        lemma_none_empty(q.skip(1), cur.push(q[0]), quoted);
        assert(all == terms_from(q.skip(1), cur.push(q[0]), quoted));
    }
}

/// No term of a query is empty.
pub proof fn terms_are_not_empty(q: Seq<char>)
    ensures
        none_empty(terms_of(q)),
{
    lemma_none_empty(q, seq![], false);
}

// What splitting promises.

/// How many double quotes a text holds.
pub open spec fn quotes(s: Seq<char>) -> nat
    decreases s.len(),
{
    if s.len() == 0 {
        0
    } else {
        quotes(s.skip(1)) + (if s[0] == '"' {
            1nat
        } else {
            0
        })
    }
}

/// What is neither white space nor a quote goes on with the term before it;
/// between quotes white space does too.
proof fn lemma_run_on(p: Seq<char>, rest: Seq<char>, cur: Seq<char>, quoted: bool)
    requires
        forall|i: int| 0 <= i < p.len() ==> #[trigger] p[i] != '"' && (quoted || !white(p[i])),
    ensures
        terms_from(p + rest, cur, quoted) == terms_from(rest, cur + p, quoted),
    decreases p.len(),
{
    if p.len() == 0 {
        assert(p + rest =~= rest);
        assert(cur + p =~= cur);
    } else {
        let less = p.skip(1);
        assert((p + rest).skip(1) =~= less + rest);
        assert((p + rest)[0] == p[0]);
        assert forall|i: int| 0 <= i < less.len() implies #[trigger] less[i] != '"' && (quoted
            || !white(less[i])) by {
            assert(less[i] == p[i + 1]);
        }
        lemma_run_on(less, rest, cur.push(p[0]), quoted);
        assert(cur.push(p[0]) + less =~= cur + p);
    }
}

/// A quote changes the mode and leaves no trace.
proof fn lemma_quote(rest: Seq<char>, cur: Seq<char>, quoted: bool)
    ensures
        terms_from(seq!['"'] + rest, cur, quoted) == terms_from(rest, cur, !quoted),
{
    assert((seq!['"'] + rest).skip(1) =~= rest);
}

/// A query that holds neither white space nor a double quote is one term: the
/// query itself.
pub proof fn a_word_is_one_term(q: Seq<char>)
    requires
        q.len() > 0,
        forall|i: int| 0 <= i < q.len() ==> !white(#[trigger] q[i]) && q[i] != '"',
    ensures
        terms_of(q) == seq![q],
{
    let none = Seq::<char>::empty();
    lemma_run_on(q, none, none, false);
    assert(q + none =~= q);
    assert(none + q =~= q);
}

/// Double quotes keep a phrase together, white space and all, and join it to
/// what stands next to it. A quote that is not closed reaches to the end.
pub proof fn a_phrase_is_one_term(before: Seq<char>, phrase: Seq<char>, behind: Seq<char>)
    requires
        before.len() + phrase.len() + behind.len() > 0,
        forall|i: int|
            0 <= i < before.len() ==> !white(#[trigger] before[i]) && before[i] != '"',
        forall|i: int| 0 <= i < phrase.len() ==> #[trigger] phrase[i] != '"',
        forall|i: int|
            0 <= i < behind.len() ==> !white(#[trigger] behind[i]) && behind[i] != '"',
    ensures
        terms_of(before + seq!['"'] + phrase + seq!['"'] + behind) == seq![
            before + phrase + behind,
        ],
        before.len() + phrase.len() > 0 ==> terms_of(before + seq!['"'] + phrase) == seq![
            before + phrase,
        ],
{
    let none = Seq::<char>::empty();
    let one = seq!['"'] + (phrase + (seq!['"'] + behind));
    assert(before + seq!['"'] + phrase + seq!['"'] + behind =~= before + one);
    lemma_run_on(before, one, none, false);
    assert(none + before =~= before);
    lemma_quote(phrase + (seq!['"'] + behind), before, false);
    lemma_run_on(phrase, seq!['"'] + behind, before, true);
    lemma_quote(behind, before + phrase, true);
    lemma_run_on(behind, none, before + phrase, false);
    assert(behind + none =~= behind);
    let open = seq!['"'] + phrase;
    assert(before + seq!['"'] + phrase =~= before + open);
    lemma_run_on(before, open, none, false);
    lemma_quote(phrase, before, false);
    lemma_run_on(phrase, none, before, true);
    assert(phrase + none =~= phrase);
}

proof fn lemma_split(a: Seq<char>, w: char, b: Seq<char>, cur: Seq<char>, quoted: bool)
    requires
        white(w),
        (quotes(a) % 2 == 1) == quoted,
    ensures
        terms_from(a + seq![w] + b, cur, quoted) == terms_from(a, cur, quoted) + terms_of(b),
    decreases a.len(),
{
    let all = a + seq![w] + b;
    if a.len() == 0 {
        assert(all.skip(1) =~= b);
        assert(all[0] == w);
        assert(w != '"');
        assert(terms_from(all, cur, quoted) =~= terms_from(a, cur, quoted) + terms_of(b));
    } else {
        let less = a.skip(1);
        assert(all.skip(1) =~= less + seq![w] + b);
        assert(all[0] == a[0]);
        if a[0] == '"' {
            lemma_split(less, w, b, cur, !quoted);
        } else if white(a[0]) && !quoted {
            lemma_split(less, w, b, seq![], quoted);
            assert(terms_from(all, cur, quoted) =~= terms_from(a, cur, quoted) + terms_of(b));
        } else {
            lemma_split(less, w, b, cur.push(a[0]), quoted);
        }
    }
}

/// White space outside quotes separates: the terms before it, and the terms
/// behind it.
pub proof fn white_space_separates(a: Seq<char>, w: char, b: Seq<char>)
    requires
        white(w),
        quotes(a) % 2 == 0,
    ensures
        terms_of(a + seq![w] + b) == terms_of(a) + terms_of(b),
{
    lemma_split(a, w, b, seq![], false);
}

/// The terms put together.
pub open spec fn run_together(terms: Seq<Seq<char>>) -> Seq<char>
    decreases terms.len(),
{
    if terms.len() == 0 {
        seq![]
    } else {
        run_together(terms.drop_last()) + terms.last()
    }
}

/// Nothing is lost and nothing comes in: the terms of a query without quotes,
/// put together, are the query without its white space.
pub proof fn terms_hold_every_character(q: Seq<char>)
    requires
        quotes(q) == 0,
    ensures
        run_together(terms_of(q)) == q.filter(|c: char| !white(c)),
{
    lemma_together(q, seq![]);
    assert(Seq::<char>::empty() + q.filter(|c: char| !white(c)) =~= q.filter(|c: char| !white(c)));
}

proof fn lemma_together_head(head: Seq<char>, rest: Seq<Seq<char>>)
    ensures
        run_together(seq![head] + rest) == head + run_together(rest),
    decreases rest.len(),
{
    let all = seq![head] + rest;
    if rest.len() == 0 {
        assert(all.drop_last() =~= Seq::<Seq<char>>::empty());
        assert(run_together(all.drop_last()) =~= Seq::<char>::empty());
        assert(run_together(rest) =~= Seq::<char>::empty());
        assert(all.last() == head);
        assert(run_together(all) =~= head + run_together(rest));
    } else {
        assert(all.drop_last() =~= seq![head] + rest.drop_last());
        assert(all.last() == rest.last());
        lemma_together_head(head, rest.drop_last());
        assert(run_together(all) =~= head + run_together(rest));
    }
}

proof fn lemma_together(q: Seq<char>, cur: Seq<char>)
    requires
        quotes(q) == 0,
    ensures
        run_together(terms_from(q, cur, false)) == cur + q.filter(|c: char| !white(c)),
    decreases q.len(),
{
    let keep = |c: char| !white(c);
    let none = Seq::<Seq<char>>::empty();
    if q.len() == 0 {
        assert(q.filter(keep) =~= Seq::<char>::empty()) by {
            reveal(Seq::filter);
        }
        assert(run_together(none) =~= Seq::<char>::empty());
        if cur.len() > 0 {
            lemma_together_head(cur, none);
            assert(seq![cur] + none =~= seq![cur]);
        }
        assert(run_together(terms_from(q, cur, false)) =~= cur + q.filter(keep));
    } else {
        let less = q.skip(1);
        let one = seq![q[0]];
        assert(q =~= one + less);
        Seq::filter_distributes_over_add(one, less, keep);
        let e = Seq::<char>::empty();
        assert(e.push(q[0]) =~= one);
        e.lemma_filter_push(q[0], keep);
        assert(e.filter(keep) =~= e) by {
            reveal(Seq::filter);
        }
        if white(q[0]) {
            lemma_together(less, seq![]);
            let rest = terms_from(less, seq![], false);
            if cur.len() > 0 {
                lemma_together_head(cur, rest);
            } else {
                assert(none + rest =~= rest);
            }
            assert(run_together(terms_from(q, cur, false)) =~= cur + q.filter(keep));
        } else {
            lemma_together(less, cur.push(q[0]));
            assert(cur.push(q[0]) + less.filter(keep) =~= cur + q.filter(keep));
        }
    }
}

} // verus!
