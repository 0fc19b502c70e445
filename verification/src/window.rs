//! What the search window says and decides; drawing it is done elsewhere.

use vstd::prelude::*;
use crate::options::{Kind, SearchOpts};
use crate::protocol::stats_text;
use crate::split::{pieces, pieces_part_at_separators, runs_are_not_parted};
use crate::text::{
    chars_of, decimal, is_digit, is_white, lemma_decimal, lemma_number_of_decimal,
    lemma_trimmed_lead, lemma_trimmed_same, lemma_trimmed_trail, number, parse_number, push_number,
    push_text, same_text, text_of, texts, trim_bounds, trimmed, white,
};

verus! {

/// Opening a whole screenful of files at once is usually a slip of the hand,
/// and every one of them starts a program, so ask first past this many.
pub const OPEN_WITHOUT_ASKING: usize = 10;

pub const MIN_RESULTS: u32 = 100;

pub const MAX_SHOWN: u32 = 20_000;

// Settings.

/// Everything the user can set, persisted between runs.
#[derive(Clone, Copy, Debug, PartialEq, Eq, Structural)]
pub struct Settings {
    pub opts: SearchOpts,
    pub search_as_you_type: bool,
    pub max_results: u32,
}

/// What the settings file holds of each setting.
pub struct Stored {
    pub match_case: Option<bool>,
    pub regex: Option<bool>,
    pub in_path: Option<bool>,
    pub filter: Option<String>,
    pub show_hidden: Option<bool>,
    pub search_as_you_type: Option<bool>,
    pub max_results: Option<i32>,
}

pub open spec fn or_else<T>(v: Option<T>, other: T) -> T {
    match v {
        Some(x) => x,
        None => other,
    }
}

/// How a filter is written in the settings file.
pub open spec fn filter_text(k: Kind) -> Seq<char> {
    match k {
        Kind::All => "all"@,
        Kind::Files => "files"@,
        Kind::Folders => "folders"@,
    }
}

/// The filter that a word stands for; all results where it is none.
pub open spec fn filter_of(s: Seq<char>) -> Kind {
    if s == "files"@ {
        Kind::Files
    } else if s == "folders"@ {
        Kind::Folders
    } else {
        Kind::All
    }
}

/// Within the bounds.
pub open spec fn clamped(n: int) -> int {
    if n < MIN_RESULTS {
        MIN_RESULTS as int
    } else if n > MAX_SHOWN {
        MAX_SHOWN as int
    } else {
        n
    }
}

/// How a filter is written in the settings file.
pub fn filter_name(k: Kind) -> (s: &'static str)
    ensures
        s@ == filter_text(k),
{
    match k {
        Kind::All => "all",
        Kind::Files => "files",
        Kind::Folders => "folders",
    }
}

/// The filter that a word stands for.
pub fn filter_named(s: &str) -> (k: Kind)
    ensures
        k == filter_of(s@),
{
    if same_text(s, "files") {
        Kind::Files
    } else if same_text(s, "folders") {
        Kind::Folders
    } else {
        Kind::All
    }
}

/// A number of results within the bounds.
pub fn clamp_results(n: i32) -> (r: u32)
    ensures
        r == clamped(n as int),
{
    if n < MIN_RESULTS as i32 {
        MIN_RESULTS
    } else if n > MAX_SHOWN as i32 {
        MAX_SHOWN
    } else {
        n as u32
    }
}

/// What the file says, and the defaults for what it leaves unsaid.
pub open spec fn settings_from(s: Stored) -> Settings {
    Settings {
        opts: SearchOpts {
            match_case: or_else(s.match_case, false),
            regex: or_else(s.regex, false),
            in_path: or_else(s.in_path, false),
            kind: match s.filter {
                Some(f) => filter_of(f@),
                None => Kind::All,
            },
            hide_hidden: !or_else(s.show_hidden, true),
        },
        search_as_you_type: or_else(s.search_as_you_type, true),
        max_results: match s.max_results {
            Some(n) => clamped(n as int) as u32,
            None => 500,
        },
    }
}

/// How long to wait for a pause in typing, in milliseconds.
pub open spec fn typing_pause(o: SearchOpts) -> u64 {
    if o.regex {
        300
    } else {
        40
    }
}

impl Settings {
    /// What the file says, and the defaults for what it leaves unsaid.
    pub fn from_stored(s: &Stored) -> (r: Settings)
        ensures
            r == settings_from(*s),
    {
        let kind = match &s.filter {
            Some(f) => filter_named(f.as_str()),
            None => Kind::All,
        };
        let max_results = match s.max_results {
            Some(n) => clamp_results(n),
            None => 500,
        };
        Settings {
            opts: SearchOpts {
                match_case: s.match_case.unwrap_or(false),
                regex: s.regex.unwrap_or(false),
                in_path: s.in_path.unwrap_or(false),
                kind,
                hide_hidden: !s.show_hidden.unwrap_or(true),
            },
            search_as_you_type: s.search_as_you_type.unwrap_or(true),
            max_results,
        }
    }

    /// How long to wait for a pause in typing, in milliseconds.
    pub fn typing_delay(&self) -> (ms: u64)
        ensures
            ms == typing_pause(self.opts),
    {
        if self.opts.regex {
            300
        } else {
            40
        }
    }
}

/// What is saved is loaded again: the filter and a number of results within
/// the bounds.
pub proof fn window_settings_round_trip(k: Kind, n: int)
    requires
        MIN_RESULTS <= n <= MAX_SHOWN,
    ensures
        filter_of(filter_text(k)) == k,
        clamped(n) == n,
{
    reveal_strlit("all");
    reveal_strlit("files");
    reveal_strlit("folders");
    assert("all"@.len() == 3 && "files"@.len() == 5 && "folders"@.len() == 7);
}

// Searches that overtake each other.

/// Number of the latest search started, and of the latest one shown. A
/// worker's answer is dropped if a newer search has started since.
#[derive(Clone, Copy, Debug, PartialEq, Eq, Structural)]
pub struct Turns {
    pub started: u64,
    pub shown: u64,
}

impl Turns {
    pub open spec fn wf(self) -> bool {
        self.shown <= self.started
    }

    /// After one more search was started.
    pub open spec fn begun(self) -> Turns {
        Turns { started: (self.started + 1) as u64, ..self }
    }

    /// After search `seq` was answered, and whether the answer is shown.
    pub open spec fn answered(self, seq: u64) -> (Turns, bool) {
        if seq == self.started {
            (Turns { shown: seq, ..self }, true)
        } else {
            (self, false)
        }
    }

    /// Search `seq` is the latest, and still unanswered.
    pub open spec fn awaits(self, seq: u64) -> bool {
        seq == self.started && seq != self.shown
    }

    /// Starts a search and numbers it.
    pub fn start(&mut self) -> (seq: u64)
        requires
            old(self).wf(),
            old(self).started < u64::MAX,
        ensures
            final(self).wf(),
            seq == old(self).started + 1,
            *final(self) == old(self).begun(),
    {
        self.started = self.started + 1;
        self.started
    }

    /// The answer to search `seq` is there. Is it to be shown?
    pub fn answer(&mut self, seq: u64) -> (show: bool)
        requires
            old(self).wf(),
        ensures
            final(self).wf(),
            (*final(self), show) == old(self).answered(seq),
    {
        if seq == self.started {
            self.shown = seq;
            true
        } else {
            false
        }
    }

    /// Is search `seq` the latest, and still unanswered?
    pub fn waiting(&self, seq: u64) -> (r: bool)
        ensures
            r == self.awaits(seq),
    {
        seq == self.started && seq != self.shown
    }
}

// The status line.

/// Texts one after another, with `sep` between them.
pub open spec fn chained(list: Seq<Seq<char>>, sep: Seq<char>) -> Seq<char>
    decreases list.len(),
{
    if list.len() == 0 {
        seq![]
    } else if list.len() == 1 {
        list[0]
    } else {
        chained(list.drop_last(), sep) + sep + list.last()
    }
}

/// Texts one after another, with `sep` between them.
pub fn chain(list: &Vec<String>, sep: &str) -> (out: String)
    ensures
        out@ == chained(texts(list@), sep@),
{
    let ghost all = texts(list@);
    let mut out = String::new();
    let mut i: usize = 0;
    assert(all.take(0) =~= Seq::<Seq<char>>::empty());
    while i < list.len()
        invariant
            i <= list@.len(),
            all == texts(list@),
            out@ == chained(all.take(i as int), sep@),
        decreases list@.len() - i,
    {
        proof {
            assert(all.take(i + 1).drop_last() =~= all.take(i as int));
            assert(all.take(i + 1).last() == list@[i as int]@);
        }
        let ghost before = out@;
        if i > 0 {
            push_text(&mut out, sep);
        }
        push_text(&mut out, list[i].as_str());
        proof {
            if i == 0 {
                assert(out@ =~= all.take(1)[0]);
            }
        }
        i = i + 1;
    }
    assert(all.take(i as int) =~= all);
    out
}

pub open spec fn badge_if(on: bool, s: Seq<char>) -> Seq<Seq<char>> {
    if on {
        seq![s]
    } else {
        seq![]
    }
}

/// Active options, in their fixed order.
pub open spec fn badge_list(o: SearchOpts) -> Seq<Seq<char>> {
    badge_if(o.match_case, "CASE"@) + badge_if(o.regex, "REGEX"@) + badge_if(o.in_path, "PATH"@)
        + badge_if(o.kind == Kind::Files, "FILES"@) + badge_if(
        o.kind == Kind::Folders,
        "FOLDERS"@,
    ) + badge_if(o.hide_hidden, "NO HIDDEN"@)
}

/// Active options as the status line shows them.
pub open spec fn badges_text(o: SearchOpts) -> Seq<char> {
    if badge_list(o).len() == 0 {
        seq![]
    } else {
        "     ["@ + chained(badge_list(o), "] ["@) + "]"@
    }
}

/// Active options, shown in the status line.
pub fn badges(o: &SearchOpts) -> (s: String)
    ensures
        s@ == badges_text(*o),
{
    let mut v: Vec<String> = Vec::new();
    if o.match_case {
        v.push("CASE".to_owned());
    }
    if o.regex {
        v.push("REGEX".to_owned());
    }
    if o.in_path {
        v.push("PATH".to_owned());
    }
    match o.kind {
        Kind::Files => v.push("FILES".to_owned()),
        Kind::Folders => v.push("FOLDERS".to_owned()),
        Kind::All => {},
    }
    if o.hide_hidden {
        v.push("NO HIDDEN".to_owned());
    }
    assert(texts(v@) =~= badge_list(*o));
    let mut s = String::new();
    if v.len() > 0 {
        push_text(&mut s, "     [");
        let all = chain(&v, "] [");
        push_text(&mut s, all.as_str());
        push_text(&mut s, "]");
    }
    assert(s@ =~= badges_text(*o));
    s
}

pub open spec fn plural(n: nat) -> Seq<char> {
    if n == 1 {
        seq![]
    } else {
        "s"@
    }
}

/// `<n> results in <time> ms`, and whether there may be more.
pub open spec fn results_text(n: nat, max: nat, ms: Seq<char>, o: SearchOpts) -> Seq<char> {
    decimal(n) + " result"@ + plural(n) + (if n >= max {
        " (limit reached)"@
    } else {
        seq![]
    }) + " in "@ + ms + " ms"@ + badges_text(o)
}

/// What the status line says of the results; `ms` is how long they took.
pub fn results_status(n: usize, ms: &str, s: &Settings) -> (out: String)
    ensures
        out@ == results_text(n as nat, s.max_results as nat, ms@, s.opts),
{
    let mut out = String::new();
    push_number(&mut out, n as u64);
    push_text(&mut out, " result");
    if n != 1 {
        push_text(&mut out, "s");
    }
    if n as u64 >= s.max_results as u64 {
        push_text(&mut out, " (limit reached)");
    }
    push_text(&mut out, " in ");
    push_text(&mut out, ms);
    push_text(&mut out, " ms");
    let b = badges(&s.opts);
    push_text(&mut out, b.as_str());
    assert(out@ =~= results_text(n as nat, s.max_results as nat, ms@, s.opts));
    out
}

/// The digits in groups of three.
pub open spec fn grouped(s: Seq<char>) -> Seq<char>
    decreases s.len(),
{
    if s.len() <= 3 {
        s
    } else {
        grouped(s.take(s.len() - 3)) + seq![','] + s.skip(s.len() - 3)
    }
}

/// The number with its digits in groups of three.
pub fn group_digits(n: u64) -> (out: String)
    ensures
        out@ == grouped(decimal(n as nat)),
{
    let mut plain = String::new();
    push_number(&mut plain, n);
    assert(plain@ =~= decimal(n as nat));
    let s = chars_of(plain.as_str());
    let mut out = String::new();
    group(&mut out, &s, s.len());
    assert(s@.take(s@.len() as int) =~= s@);
    assert(out@ =~= grouped(decimal(n as nat)));
    out
}

fn group(out: &mut String, s: &Vec<char>, end: usize)
    requires
        end <= s@.len(),
    ensures
        final(out)@ == old(out)@ + grouped(s@.take(end as int)),
    decreases end,
{
    let ghost t = s@.take(end as int);
    if end <= 3 {
        let part = text_of(s, 0, end);
        assert(part@ =~= t);
        push_text(out, part.as_str());
    } else {
        let ghost before = out@;
        group(out, s, end - 3);
        assert(t.take(end - 3) =~= s@.take(end - 3));
        out.push(',');
        let part = text_of(s, end - 3, end);
        assert(part@ =~= t.skip(end - 3));
        push_text(out, part.as_str());
        assert(out@ =~= before + grouped(t));
    }
}

/// The second word of a text, if there is one.
pub open spec fn second_word(s: Seq<char>) -> Option<Seq<char>> {
    let t = trimmed(s);
    let first = white_at(t, 0);
    if first >= t.len() {
        None
    } else {
        let rest = trimmed(t.skip(first));
        if rest.len() == 0 {
            None
        } else {
            Some(rest.take(white_at(rest, 0)))
        }
    }
}

/// The first white space at or behind `i`; the length if there is none.
pub open spec fn white_at(s: Seq<char>, i: int) -> int
    decreases s.len() - i,
{
    if i >= s.len() || white(s[i]) {
        i
    } else {
        white_at(s, i + 1)
    }
}

fn find_white(s: &Vec<char>, from: usize, to: usize) -> (at: usize)
    requires
        from <= to <= s@.len(),
    ensures
        from <= at <= to,
        at - from == white_at(s@.subrange(from as int, to as int), 0),
{
    let ghost part = s@.subrange(from as int, to as int);
    let mut i: usize = from;
    while i < to && !is_white(s[i])
        invariant
            from <= i <= to <= s@.len(),
            part == s@.subrange(from as int, to as int),
            white_at(part, i - from) == white_at(part, 0),
        decreases to - i,
    {
        assert(part[i - from] == s@[i as int]);
        i = i + 1;
    }
    proof {
        if i < to {
            assert(part[i - from] == s@[i as int]);
        }
    }
    i
}

/// What is searched for where `text` is typed.
pub open spec fn pattern_typed(text: Seq<char>) -> Seq<char> {
    trimmed(text)
}

/// What is searched for where `text` is typed: spaces around it are nothing to
/// search for.
pub fn typed_pattern(text: &str) -> (out: String)
    ensures
        out@ == pattern_typed(text@),
{
    let s = chars_of(text);
    let (a, b) = trim_bounds(&s, 0, s.len());
    assert(s@.subrange(0, s@.len() as int) =~= text@);
    text_of(&s, a, b)
}

/// What the status line says of the daemon.
pub open spec fn connection_text(stats: Option<Seq<char>>, socket: Seq<char>, o: SearchOpts) -> Seq<
    char,
> {
    (match stats {
        Some(st) => (match second_word(st) {
            Some(w) => match number(w, u64::MAX as nat) {
                Some(n) => grouped(decimal(n)),
                None => st,
            },
            None => st,
        }) + " entries indexed"@,
        None => "NOT connected: no daemon answering at "@ + socket
            + " — is spoor.service running?"@,
    }) + badges_text(o)
}

/// The number of entries in a reply to STATS, in groups; the whole reply if
/// there is none.
fn entries_in(st: &str) -> (out: String)
    ensures
        out@ == (match second_word(st@) {
            Some(w) => match number(w, u64::MAX as nat) {
                Some(n) => grouped(decimal(n)),
                None => st@,
            },
            None => st@,
        }),
{
    let s = chars_of(st);
    let (a, b) = trim_bounds(&s, 0, s.len());
    assert(s@.subrange(0, s@.len() as int) =~= s@);
    let ghost t = trimmed(st@);
    let w = find_white(&s, a, b);
    if w == b {
        return st.to_owned();
    }
    let (c, d) = trim_bounds(&s, w, b);
    assert(t.skip(w - a) =~= s@.subrange(w as int, b as int));
    if c == d {
        return st.to_owned();
    }
    let e = find_white(&s, c, d);
    let ghost rest = s@.subrange(c as int, d as int);
    assert(rest.take(e - c) =~= s@.subrange(c as int, e as int));
    match parse_number(&s, c, e, u64::MAX) {
        Some(n) => group_digits(n),
        None => st.to_owned(),
    }
}

/// What the status line says of the daemon, given its reply to STATS.
pub fn connection_status(stats: &Option<String>, socket: &str, o: &SearchOpts) -> (out: String)
    ensures
        out@ == connection_text(
            match *stats {
                Some(st) => Some(st@),
                None => None,
            },
            socket@,
            *o,
        ),
{
    let mut out = String::new();
    match stats {
        Some(st) => {
            let n = entries_in(st.as_str());
            push_text(&mut out, n.as_str());
            push_text(&mut out, " entries indexed");
        },
        None => {
            push_text(&mut out, "NOT connected: no daemon answering at ");
            push_text(&mut out, socket);
            push_text(&mut out, " — is spoor.service running?");
        },
    }
    let b = badges(o);
    push_text(&mut out, b.as_str());
    assert(out@ =~= connection_text(
        match *stats {
            Some(st) => Some(st@),
            None => None,
        },
        socket@,
        *o,
    ));
    out
}

// Laws.

/// The number of results is kept between a hundred and twenty thousand, and
/// within that left alone.
pub proof fn results_are_kept_within_bounds(n: int)
    ensures
        100 <= clamped(n) <= 20_000,
        100 <= n <= 20_000 ==> clamped(n) == n,
        n < 100 ==> clamped(n) == 100,
        n > 20_000 ==> clamped(n) == 20_000,
{
}

/// Each setting is what the file says of it, whatever it says of the others.
pub proof fn stored_settings_are_taken(s: Stored)
    ensures
        s.match_case matches Some(b) ==> settings_from(s).opts.match_case == b,
        s.regex matches Some(b) ==> settings_from(s).opts.regex == b,
        s.in_path matches Some(b) ==> settings_from(s).opts.in_path == b,
        s.show_hidden matches Some(b) ==> settings_from(s).opts.hide_hidden != b,
        s.search_as_you_type matches Some(b) ==> settings_from(s).search_as_you_type == b,
        s.max_results matches Some(n) ==> (100 <= n <= 20_000 ==> settings_from(s).max_results
            == n),
        s.max_results matches Some(n) ==> 100 <= settings_from(s).max_results <= 20_000,
        s.filter matches Some(f) ==> {
            &&& settings_from(s).opts.kind == Kind::Files <==> f@ == "files"@
            &&& settings_from(s).opts.kind == Kind::Folders <==> f@ == "folders"@
        },
{
    reveal_strlit("files");
    reveal_strlit("folders");
    assert("files"@.len() == 5 && "folders"@.len() == 7);
}

/// What the file leaves unsaid is as it is for a new user: no option set, hidden
/// files shown, searching while typing, and five hundred results.
pub proof fn unsaid_settings_have_defaults(s: Stored)
    ensures
        s.match_case is None ==> !settings_from(s).opts.match_case,
        s.regex is None ==> !settings_from(s).opts.regex,
        s.in_path is None ==> !settings_from(s).opts.in_path,
        s.show_hidden is None ==> !settings_from(s).opts.hide_hidden,
        s.search_as_you_type is None ==> settings_from(s).search_as_you_type,
        s.max_results is None ==> settings_from(s).max_results == 500,
        s.filter is None ==> settings_from(s).opts.kind == Kind::All,
{
}

/// Expressions are given longer to be typed than words.
pub proof fn expressions_wait_longer(o: SearchOpts)
    ensures
        typing_pause(SearchOpts { regex: true, ..o }) == 300,
        typing_pause(SearchOpts { regex: false, ..o }) == 40,
{
}

/// An answer is shown unless another search was started since, and a search is
/// waited for until it is answered.
pub proof fn late_answers_are_dropped(t: Turns, seq: u64)
    requires
        t.wf(),
        t.started < u64::MAX,
        seq <= t.started,
    ensures
        t.begun().started == t.started + 1,
        t.begun().shown == t.shown,
        t.begun().awaits(t.begun().started),
        t.begun().answered(t.begun().started).1,
        !t.begun().answered(seq).1,
        t.begun().answered(seq).0 == t.begun(),
        !t.begun().awaits(seq),
        t.answered(t.started).1,
        t.answered(seq).1 <==> seq == t.started,
        !t.answered(t.started).0.awaits(t.started),
        t.answered(t.started).0.started == t.started,
        t.awaits(seq) ==> t.answered(seq).1,
{
}

/// Lists are chained with the separator between any two of their texts, and
/// nowhere else.
pub proof fn chains_are_joined_by_separators(
    a: Seq<Seq<char>>,
    b: Seq<Seq<char>>,
    one: Seq<char>,
    sep: Seq<char>,
)
    requires
        a.len() > 0,
        b.len() > 0,
    ensures
        chained(a + b, sep) == chained(a, sep) + sep + chained(b, sep),
        chained(seq![one], sep) == one,
        chained(Seq::<Seq<char>>::empty(), sep) == Seq::<char>::empty(),
    decreases b.len(),
{
    let all = a + b;
    assert(all.last() == b.last());
    if b.len() == 1 {
        assert(all.drop_last() =~= a);
    } else {
        chains_are_joined_by_separators(a, b.drop_last(), one, sep);
        assert(all.drop_last() =~= a + b.drop_last());
        let head = chained(b.drop_last(), sep);
        assert(chained(a, sep) + sep + head + sep + b.last() =~= chained(a, sep) + sep + (head + sep
            + b.last()));
    }
}

/// The status line names each option that is set, and no other.
pub proof fn badges_name_the_options(o: SearchOpts)
    ensures
        badge_list(o).contains("CASE"@) <==> o.match_case,
        badge_list(o).contains("REGEX"@) <==> o.regex,
        badge_list(o).contains("PATH"@) <==> o.in_path,
        badge_list(o).contains("FILES"@) <==> o.kind == Kind::Files,
        badge_list(o).contains("FOLDERS"@) <==> o.kind == Kind::Folders,
        badge_list(o).contains("NO HIDDEN"@) <==> o.hide_hidden,
        badges_text(o).len() == 0 <==> !o.match_case && !o.regex && !o.in_path && !o.hide_hidden
            && o.kind == Kind::All,
{
    reveal_strlit("CASE");
    reveal_strlit("REGEX");
    reveal_strlit("PATH");
    reveal_strlit("FILES");
    reveal_strlit("FOLDERS");
    reveal_strlit("NO HIDDEN");
    reveal_strlit("     [");
    assert("CASE"@.len() == 4 && "CASE"@[0] == 'C');
    assert("REGEX"@.len() == 5 && "REGEX"@[0] == 'R');
    assert("PATH"@.len() == 4 && "PATH"@[0] == 'P');
    assert("FILES"@.len() == 5 && "FILES"@[0] == 'F');
    assert("FOLDERS"@.len() == 7 && "NO HIDDEN"@.len() == 9);
    let a = badge_if(o.match_case, "CASE"@);
    let b = badge_if(o.regex, "REGEX"@);
    let c = badge_if(o.in_path, "PATH"@);
    let d = badge_if(o.kind == Kind::Files, "FILES"@);
    let e = badge_if(o.kind == Kind::Folders, "FOLDERS"@);
    let f = badge_if(o.hide_hidden, "NO HIDDEN"@);
    assert forall|x: Seq<char>| #[trigger] badge_list(o).contains(x) <==> a.contains(x)
        || b.contains(x) || c.contains(x) || d.contains(x) || e.contains(x) || f.contains(x) by {
        lemma_either(a, b, x);
        lemma_either(a + b, c, x);
        lemma_either(a + b + c, d, x);
        lemma_either(a + b + c + d, e, x);
        lemma_either(a + b + c + d + e, f, x);
    }
    lemma_badge(o.match_case, "CASE"@);
    lemma_badge(o.regex, "REGEX"@);
    lemma_badge(o.in_path, "PATH"@);
    lemma_badge(o.kind == Kind::Files, "FILES"@);
    lemma_badge(o.kind == Kind::Folders, "FOLDERS"@);
    lemma_badge(o.hide_hidden, "NO HIDDEN"@);
}

proof fn lemma_badge(on: bool, s: Seq<char>)
    ensures
        forall|x: Seq<char>| #[trigger] badge_if(on, s).contains(x) <==> on && x == s,
{
    if on {
        assert(badge_if(on, s)[0] == s);
    }
}

proof fn lemma_either(a: Seq<Seq<char>>, b: Seq<Seq<char>>, x: Seq<char>)
    ensures
        (a + b).contains(x) <==> a.contains(x) || b.contains(x),
{
    let all = a + b;
    if a.contains(x) {
        let i = choose|i: int| 0 <= i < a.len() && a[i] == x;
        assert(all[i] == x);
    }
    if b.contains(x) {
        let i = choose|i: int| 0 <= i < b.len() && b[i] == x;
        assert(all[a.len() + i] == x);
    }
    if all.contains(x) {
        let i = choose|i: int| 0 <= i < all.len() && all[i] == x;
        if i < a.len() {
            assert(a[i] == x);
        } else {
            assert(b[i - a.len()] == x);
        }
    }
}

/// The status line tells one result from several, and says when there may be
/// more.
pub proof fn results_are_counted(n: nat, max: nat, ms: Seq<char>, o: SearchOpts)
    ensures
        n != 1 && n < max ==> results_text(n, max, ms, o) == decimal(n) + " results in "@ + ms
            + " ms"@ + badges_text(o),
        n != 1 && n >= max ==> results_text(n, max, ms, o) == decimal(n)
            + " results (limit reached) in "@ + ms + " ms"@ + badges_text(o),
        n == 1 && n < max ==> results_text(n, max, ms, o) == decimal(n) + " result in "@ + ms
            + " ms"@ + badges_text(o),
{
    reveal_strlit(" results in ");
    reveal_strlit(" results (limit reached) in ");
    reveal_strlit(" result in ");
    reveal_strlit(" result");
    reveal_strlit("s");
    reveal_strlit(" (limit reached)");
    reveal_strlit(" in ");
    assert(" results in "@ =~= " result"@ + "s"@ + " in "@);
    assert(" result in "@ =~= " result"@ + " in "@);
    assert(" results (limit reached) in "@ =~= " result"@ + "s"@ + " (limit reached)"@ + " in "@);
    let none = Seq::<char>::empty();
    let all = results_text(n, max, ms, o);
    if n != 1 && n < max {
        assert(all =~= decimal(n) + " results in "@ + ms + " ms"@ + badges_text(o));
    } else if n != 1 {
        assert(all =~= decimal(n) + " results (limit reached) in "@ + ms + " ms"@ + badges_text(o));
    } else if n < max {
        assert(all =~= decimal(n) + " result in "@ + ms + " ms"@ + badges_text(o));
    }
}

/// Texts run together.
pub open spec fn run_on(list: Seq<Seq<char>>) -> Seq<char>
    decreases list.len(),
{
    if list.len() == 0 {
        seq![]
    } else {
        run_on(list.drop_last()) + list.last()
    }
}

/// Commas set off three digits each, from the end; without them the number
/// stands as it was.
pub proof fn digits_stand_in_threes(s: Seq<char>)
    requires
        s.len() > 0,
        !s.contains(','),
    ensures
        ({
            let groups = pieces(grouped(s), ',');
            &&& groups.len() > 0
            &&& 1 <= groups[0].len() <= 3
            &&& forall|i: int| 0 < i < groups.len() ==> (#[trigger] groups[i]).len() == 3
            &&& run_on(groups) == s
        }),
    decreases s.len(),
{
    let groups = pieces(grouped(s), ',');
    if s.len() <= 3 {
        runs_are_not_parted(s, ',');
        assert(groups.drop_last() =~= Seq::<Seq<char>>::empty());
        reveal_with_fuel(run_on, 2);
        assert(run_on(groups) =~= s);
    } else {
        let (a, b) = (s.take(s.len() - 3), s.skip(s.len() - 3));
        assert forall|i: int| 0 <= i < a.len() implies a[i] != ',' by {
            assert(s.contains(s[i]));
        }
        assert forall|i: int| 0 <= i < b.len() implies b[i] != ',' by {
            assert(s.contains(s[s.len() - 3 + i]));
        }
        digits_stand_in_threes(a);
        pieces_part_at_separators(grouped(a), b, ',');
        runs_are_not_parted(b, ',');
        let before = pieces(grouped(a), ',');
        assert(groups =~= before.push(b));
        assert(groups.drop_last() =~= before);
        assert(a + b =~= s);
    }
}

proof fn lemma_white_at(s: Seq<char>, i: int, at: int)
    requires
        0 <= i <= at <= s.len(),
        forall|k: int| i <= k < at ==> !white(#[trigger] s[k]),
        at < s.len() ==> white(s[at]),
    ensures
        white_at(s, i) == at,
    decreases at - i,
{
    if i < at {
        assert(!white(s[i]));
        lemma_white_at(s, i + 1, at);
    }
}

/// The window tells how many entries are alive, as the daemon told it.
pub proof fn the_window_tells_what_the_daemon_tells(
    n: nat,
    slots: nat,
    socket: Seq<char>,
    o: SearchOpts,
)
    requires
        n <= u64::MAX,
    ensures
        connection_text(Some(stats_text(n, slots)), socket, o) == grouped(decimal(n))
            + " entries indexed"@ + badges_text(o),
{
    reveal_strlit("entries ");
    reveal_strlit(" arena ");
    let st = stats_text(n, slots);
    let (a, b) = (decimal(n), decimal(slots));
    lemma_decimal(n);
    lemma_decimal(slots);
    lemma_number_of_decimal(n, u64::MAX as nat);
    assert(is_digit(b[b.len() - 1]) && is_digit(a[0]));
    assert(st.last() == b.last());
    assert(st[0] == 'e' && !white('e') && white(' '));
    lemma_trimmed_same(st);
    assert(!white('n') && !white('t') && !white('r') && !white('i') && !white('s'));
    assert forall|k: int| 0 <= k < 7 implies !white(#[trigger] st[k]) by {
        assert(st[k] == "entries "@[k]);
    }
    assert(st[7] == ' ');
    lemma_white_at(st, 0, 7);
    let rest = a + " arena "@ + b;
    assert(st.skip(7) =~= seq![' '] + rest);
    lemma_trimmed_lead(rest, ' ');
    assert(rest.last() == b.last() && rest[0] == a[0]);
    lemma_trimmed_same(rest);
    assert forall|k: int| 0 <= k < a.len() implies !white(#[trigger] rest[k]) by {
        assert(is_digit(a[k]));
    }
    assert(rest[a.len() as int] == ' ');
    lemma_white_at(rest, 0, a.len() as int);
    assert(rest.take(a.len() as int) =~= a);
}

/// White space around a pattern is nothing to search for, and within it stays.
pub proof fn patterns_are_typed_without_ends(text: Seq<char>, c: char)
    ensures
        text.len() > 0 && !white(text[0]) && !white(text.last()) ==> pattern_typed(text) == text,
        white(c) ==> pattern_typed(text.push(c)) == pattern_typed(text),
        white(c) ==> pattern_typed(seq![c] + text) == pattern_typed(text),
{
    if text.len() > 0 && !white(text[0]) && !white(text.last()) {
        lemma_trimmed_same(text);
    }
    if white(c) {
        lemma_trimmed_trail(text, c);
        lemma_trimmed_lead(text, c);
    }
}

} // verus!
