//! Which folders the daemon indexes: `/etc/spoor/spoor.conf`.
//!
//! One `key = value` per line; list keys repeat:
//!
//! ```text
//! root = /home
//! root = /srv/data
//! exclude = /home/alice/.cache
//! rescan = /home/alice/GoogleDrive
//! rescan_interval = 900
//! ```
//!
//! With no file, the daemon indexes /home.

use vstd::prelude::*;
use crate::bytes::views;
use crate::split::{
    find_char, first_of, lemma_first_of_is, lemma_pieces_from, lemma_pieces_run, lemma_pieces_some,
    pieces, split_chars,
};
use crate::text::{
    chars_of, decimal, is_trimmed, lemma_is_trimmed, lemma_number_of_decimal, lemma_trimmed_from,
    lemma_trimmed_lead, lemma_trimmed_same, lemma_trimmed_trail, number, parse_number, push_number,
    push_text, same_text, text_of, texts, trim_bounds, trimmed, white,
};

verus! {

pub const DEFAULT_PATH: &'static str = "/etc/spoor/spoor.conf";

/// Largest settings file that is accepted.
pub const MAX_BYTES: u64 = 65536;

#[derive(Clone, Debug, PartialEq, Eq)]
pub struct Config {
    /// Trees kept current live through fanotify.
    pub roots: Vec<String>,
    /// Folders left out, with everything beneath them.
    pub exclude: Vec<String>,
    /// Mounts fanotify cannot see (rclone, network filesystems), walked on a
    /// timer instead. Each must lie inside a root.
    pub rescan: Vec<String>,
    /// Seconds between walks of the `rescan` folders.
    pub rescan_interval: u64,
}

/// The settings as texts.
#[verifier::ext_equal]
pub struct Settings {
    pub roots: Seq<Seq<char>>,
    pub exclude: Seq<Seq<char>>,
    pub rescan: Seq<Seq<char>>,
    pub interval: nat,
}

impl View for Config {
    type V = Settings;

    open spec fn view(&self) -> Settings {
        Settings {
            roots: texts(self.roots@),
            exclude: texts(self.exclude@),
            rescan: texts(self.rescan@),
            interval: self.rescan_interval as nat,
        }
    }
}

/// What is assumed of anything that a settings file leaves unsaid.
pub open spec fn no_settings() -> Settings {
    Settings { roots: seq![], exclude: seq![], rescan: seq![], interval: 900 }
}

/// What is set where there is no settings file.
pub open spec fn first_settings() -> Settings {
    Settings { roots: seq!["/home"@], ..no_settings() }
}

impl Default for Config {
    fn default() -> (c: Self)
        ensures
            c@ == first_settings(),
    {
        let mut roots: Vec<String> = Vec::new();
        roots.push("/home".to_owned());
        let c = Config { roots, exclude: Vec::new(), rescan: Vec::new(), rescan_interval: 900 };
        assert(c@ =~= (Settings { roots: seq!["/home"@], ..no_settings() }));
        c
    }
}

/// The lines of a text. A final line break ends the last line; it does not
/// begin another.
pub open spec fn lines_of(s: Seq<char>) -> Seq<Seq<char>> {
    let all = pieces(s, '\n');
    if all.last().len() == 0 {
        all.drop_last()
    } else {
        all
    }
}

/// A refusal that names the line but never quotes it.
pub open spec fn line_error(n: nat, what: Seq<char>) -> Seq<char> {
    "line "@ + decimal(n) + what
}

/// The settings after line `n`.
pub open spec fn with_line(c: Settings, line: Seq<char>, n: nat) -> Result<Settings, Seq<char>> {
    let t = trimmed(line);
    let eq = first_of(t, '=') as int;
    if t.len() == 0 || t[0] == '#' {
        Ok(c)
    } else if eq == t.len() {
        Err(line_error(n, ": expected `key = value`"@))
    } else {
        let key = trimmed(t.take(eq));
        let value = trimmed(t.skip(eq + 1));
        if key == "root"@ {
            Ok(Settings { roots: c.roots.push(value), ..c })
        } else if key == "exclude"@ {
            Ok(Settings { exclude: c.exclude.push(value), ..c })
        } else if key == "rescan"@ {
            Ok(Settings { rescan: c.rescan.push(value), ..c })
        } else if key == "rescan_interval"@ {
            match number(value, u64::MAX as nat) {
                Some(interval) => Ok(Settings { interval, ..c }),
                None => Err(line_error(n, ": rescan_interval must be whole seconds"@)),
            }
        } else {
            Err(line_error(n, ": unknown setting"@))
        }
    }
}

/// The settings after the first `k` lines; the first refusal stands.
pub open spec fn after_lines(lines: Seq<Seq<char>>, k: nat) -> Result<Settings, Seq<char>>
    decreases k,
{
    if k == 0 {
        Ok(no_settings())
    } else {
        match after_lines(lines, (k - 1) as nat) {
            Err(e) => Err(e),
            Ok(c) => with_line(c, lines[k - 1], k),
        }
    }
}

/// What a settings file says.
pub open spec fn settings_of(text: Seq<char>) -> Result<Settings, Seq<char>> {
    after_lines(lines_of(text), lines_of(text).len())
}

proof fn lemma_refusal_stands(lines: Seq<Seq<char>>, j: nat, k: nat)
    requires
        j <= k,
        after_lines(lines, j) is Err,
    ensures
        after_lines(lines, k) == after_lines(lines, j),
    decreases k,
{
    if j < k {
        lemma_refusal_stands(lines, j, (k - 1) as nat);
    }
}

/// A refusal that names line `n`.
fn refuse(n: u64, what: &str) -> (e: String)
    ensures
        e@ == line_error(n as nat, what@),
{
    let mut e = "line ".to_owned();
    push_number(&mut e, n);
    push_text(&mut e, what);
    e
}

impl Config {
    /// Takes line `n` into account.
    fn take_line(&mut self, line: &Vec<char>, n: u64) -> (r: Result<(), String>)
        ensures
            match r {
                Ok(_) => with_line(old(self)@, line@, n as nat) == Ok::<_, Seq<char>>(
                    final(self)@,
                ),
                Err(e) => with_line(old(self)@, line@, n as nat) == Err::<Settings, _>(e@),
            },
    {
        let (a, b) = trim_bounds(line, 0, line.len());
        let ghost t = trimmed(line@);
        proof {
            assert(line@.subrange(0, line@.len() as int) =~= line@);
            assert(line@.subrange(a as int, b as int) == t);
            if a < b {
                assert(t[0] == line@[a as int]);
            }
        }
        if a == b || line[a] == '#' {
            return Ok(());
        }
        let eq = find_char(line, a, b, '=');
        if eq == b {
            return Err(refuse(n, ": expected `key = value`"));
        }
        let (ka, kb) = trim_bounds(line, a, eq);
        let (va, vb) = trim_bounds(line, eq + 1, b);
        let key = text_of(line, ka, kb);
        proof {
            assert(t.take(eq - a) =~= line@.subrange(a as int, eq as int));
            assert(t.skip(eq - a + 1) =~= line@.subrange(eq + 1, b as int));
        }
        let ghost old_roots = texts(self.roots@);
        let ghost old_exclude = texts(self.exclude@);
        let ghost old_rescan = texts(self.rescan@);
        if same_text(key.as_str(), "root") {
            self.roots.push(text_of(line, va, vb));
            assert(texts(self.roots@) =~= old_roots.push(trimmed(t.skip(eq - a + 1))));
        } else if same_text(key.as_str(), "exclude") {
            self.exclude.push(text_of(line, va, vb));
            assert(texts(self.exclude@) =~= old_exclude.push(trimmed(t.skip(eq - a + 1))));
        } else if same_text(key.as_str(), "rescan") {
            self.rescan.push(text_of(line, va, vb));
            assert(texts(self.rescan@) =~= old_rescan.push(trimmed(t.skip(eq - a + 1))));
        } else if same_text(key.as_str(), "rescan_interval") {
            match parse_number(line, va, vb, u64::MAX) {
                Some(v) => {
                    self.rescan_interval = v;
                },
                None => {
                    return Err(refuse(n, ": rescan_interval must be whole seconds"));
                },
            }
        } else {
            return Err(refuse(n, ": unknown setting"));
        }
        Ok(())
    }

    /// Parses the file format. Errors name the line but never quote it: as
    /// settings are checked as root, echoing input would let it print lines of
    /// files the caller cannot read.
    pub fn parse(text: &str) -> (r: Result<Config, String>)
        ensures
            match r {
                Ok(c) => settings_of(text@) == Ok::<_, Seq<char>>(c@),
                Err(e) => settings_of(text@) == Err::<Settings, _>(e@),
            },
    {
        let chars = chars_of(text);
        let all = split_chars(&chars, '\n');
        proof {
            lemma_pieces_some(text@, '\n');
        }
        let mut count: usize = all.len();
        let ghost views_all = views(all@);
        assert(views_all.last() == all@.last()@);
        if all[all.len() - 1].len() == 0 {
            count = count - 1;
        }
        let ghost lines = lines_of(text@);
        assert(lines =~= views_all.take(count as int));
        let mut c = Config {
            roots: Vec::new(),
            exclude: Vec::new(),
            rescan: Vec::new(),
            rescan_interval: 900,
        };
        assert(c@ =~= no_settings());
        let mut i: usize = 0;
        while i < count
            invariant
                i <= count <= all@.len(),
                lines == views(all@).take(count as int),
                lines == lines_of(text@),
                after_lines(lines, i as nat) == Ok::<_, Seq<char>>(c@),
            decreases count - i,
        {
            assert(lines[i as int] == all@[i as int]@);
            match c.take_line(&all[i], i as u64 + 1) {
                Ok(_) => {},
                Err(e) => {
                    proof {
                        lemma_refusal_stands(lines, (i + 1) as nat, lines.len());
                    }
                    return Err(e);
                },
            }
            i = i + 1;
        }
        Ok(c)
    }
}

// Writing.

/// Every line followed by a line break.
pub open spec fn joined(lines: Seq<Seq<char>>, k: nat) -> Seq<char>
    decreases k,
{
    if k == 0 {
        seq![]
    } else {
        joined(lines, (k - 1) as nat) + lines[k - 1] + seq!['\n']
    }
}

pub open spec fn keyed(key: Seq<char>, list: Seq<Seq<char>>) -> Seq<Seq<char>> {
    Seq::new(list.len(), |i: int| key + " = "@ + list[i])
}

pub open spec fn header() -> Seq<Seq<char>> {
    seq![
        "# Which folders spoor indexes. Written by `spoor configure` (the"@,
        "# Preferences window); read when the spoor service starts."@,
    ]
}

/// The lines of a settings file.
pub open spec fn setting_lines(c: Settings) -> Seq<Seq<char>> {
    header() + keyed("root"@, c.roots) + keyed("exclude"@, c.exclude) + keyed("rescan"@, c.rescan)
        + seq!["rescan_interval = "@ + decimal(c.interval)]
}

/// A settings file.
pub open spec fn file_of(c: Settings) -> Seq<char> {
    joined(setting_lines(c), setting_lines(c).len())
}

proof fn lemma_joined_prefix(a: Seq<Seq<char>>, b: Seq<Seq<char>>, k: nat)
    requires
        k <= a.len(),
    ensures
        joined(a + b, k) == joined(a, k),
    decreases k,
{
    if k > 0 {
        lemma_joined_prefix(a, b, (k - 1) as nat);
    }
}

/// One line after another.
proof fn lemma_joined_push(a: Seq<Seq<char>>, line: Seq<char>)
    ensures
        joined(a.push(line), a.len() + 1) == joined(a, a.len()) + line + seq!['\n'],
{
    lemma_joined_prefix(a, seq![line], a.len());
    assert(a + seq![line] =~= a.push(line));
}

/// Appends `key = value` for every value.
fn push_list(out: &mut String, key: &str, list: &Vec<String>, Ghost(before): Ghost<Seq<Seq<char>>>)
    requires
        old(out)@ == joined(before, before.len()),
    ensures
        ({
            let after = before + keyed(key@, texts(list@));
            final(out)@ == joined(after, after.len())
        }),
{
    let ghost lines = keyed(key@, texts(list@));
    let mut i: usize = 0;
    assert(before + lines.take(0) =~= before);
    while i < list.len()
        invariant
            i <= list.len(),
            lines == keyed(key@, texts(list@)),
            out@ == joined(before + lines.take(i as int), before.len() + i as nat),
        decreases list.len() - i,
    {
        let ghost sofar = before + lines.take(i as int);
        let ghost text0 = out@;
        push_text(out, key);
        push_text(out, " = ");
        push_text(out, list[i].as_str());
        out.push('\n');
        proof {
            let line = lines[i as int];
            assert(out@ =~= text0 + line + seq!['\n']);
            lemma_joined_push(sofar, line);
            assert(sofar.push(line) =~= before + lines.take(i + 1));
        }
        i = i + 1;
    }
    assert(lines.take(i as int) =~= lines);
}

impl Config {
    /// The file format.
    pub fn to_text(&self) -> (s: String)
        ensures
            s@ == file_of(self@),
    {
        let mut s = String::new();
        let ghost none = Seq::<Seq<char>>::empty();
        push_text(&mut s, "# Which folders spoor indexes. Written by `spoor configure` (the");
        s.push('\n');
        proof {
            lemma_joined_push(none, header()[0]);
            assert(s@ =~= joined(none, 0) + header()[0] + seq!['\n']);
        }
        let ghost text0 = s@;
        push_text(&mut s, "# Preferences window); read when the spoor service starts.");
        s.push('\n');
        proof {
            lemma_joined_push(none.push(header()[0]), header()[1]);
            assert(none.push(header()[0]).push(header()[1]) =~= header());
            assert(s@ =~= text0 + header()[1] + seq!['\n']);
        }
        let ghost one = header() + keyed("root"@, self@.roots);
        let ghost two = one + keyed("exclude"@, self@.exclude);
        let ghost three = two + keyed("rescan"@, self@.rescan);
        push_list(&mut s, "root", &self.roots, Ghost(header()));
        push_list(&mut s, "exclude", &self.exclude, Ghost(one));
        push_list(&mut s, "rescan", &self.rescan, Ghost(two));
        let ghost text1 = s@;
        push_text(&mut s, "rescan_interval = ");
        push_number(&mut s, self.rescan_interval);
        s.push('\n');
        proof {
            let line = "rescan_interval = "@ + decimal(self@.interval);
            lemma_joined_push(three, line);
            assert(three.push(line) =~= setting_lines(self@));
            assert(s@ =~= text1 + line + seq!['\n']);
        }
        s
    }
}

// What is written is read back.

/// Folders that a settings file can hold: one line each, with no white space
/// at either end.
pub open spec fn writable(list: Seq<Seq<char>>) -> bool {
    forall|i: int|
        0 <= i < list.len() ==> !(#[trigger] list[i]).contains('\n') && is_trimmed(list[i])
}

proof fn lemma_lines_of_joined(lines: Seq<Seq<char>>, k: nat)
    requires
        k <= lines.len(),
        forall|i: int| 0 <= i < lines.len() ==> !(#[trigger] lines[i]).contains('\n'),
    ensures
        pieces(joined(lines, k), '\n') == lines.take(k as int).push(seq![]),
        lines_of(joined(lines, k)) == lines.take(k as int),
    decreases k,
{
    if k == 0 {
        assert(lines.take(0).push(seq![]) =~= seq![Seq::<char>::empty()]);
    } else {
        let m = (k - 1) as nat;
        lemma_lines_of_joined(lines, m);
        let head = joined(lines, m);
        let line = lines[k - 1];
        lemma_pieces_run(head, line, '\n');
        let before = pieces(head, '\n');
        assert(before.drop_last() =~= lines.take(m as int));
        assert(before.last() + line =~= line);
        let s = joined(lines, k);
        assert(s.drop_last() =~= head + line);
        assert(lines.take(m as int).push(line) =~= lines.take(k as int));
    }
    let all = pieces(joined(lines, k), '\n');
    assert(all.drop_last() =~= lines.take(k as int));
}

proof fn lemma_keyed_line(c: Settings, key: Seq<char>, value: Seq<char>, n: nat)
    requires
        key.len() > 0,
        is_trimmed(key),
        key[0] != '#',
        !key.contains('='),
        is_trimmed(value),
    ensures
        ({
            let t = trimmed(key + " = "@ + value);
            &&& t.len() > 0
            &&& t[0] == key[0]
            &&& first_of(t, '=') == key.len() + 1
            &&& first_of(t, '=') < t.len()
            &&& trimmed(t.take(key.len() as int + 1)) == key
            &&& trimmed(t.skip(key.len() as int + 2)) == value
        }),
{
    reveal_strlit(" = ");
    let line = key + " = "@ + value;
    assert(white(' '));
    let t = trimmed(line);
    let short = key + seq![' ', '='];
    if value.len() == 0 {
        assert(line =~= short.push(' '));
        lemma_trimmed_trail(short, ' ');
        assert(!white('='));
        lemma_trimmed_same(short);
        assert(t == short);
    } else {
        assert(line.last() == value.last());
        lemma_trimmed_same(line);
    }
    assert forall|i: int| 0 <= i < key.len() + 1 implies #[trigger] t[i] != '=' by {
        if i < key.len() {
            assert(key.contains(key[i]));
        }
    }
    lemma_first_of_is(t, '=', key.len() as int + 1);
    assert(t.take(key.len() as int + 1) =~= key.push(' '));
    lemma_trimmed_trail(key, ' ');
    lemma_trimmed_same(key);
    lemma_trimmed_same(value);
    if value.len() == 0 {
        assert(t.skip(key.len() as int + 2) =~= value);
    } else {
        assert(t.skip(key.len() as int + 2) =~= seq![' '] + value);
        lemma_trimmed_lead(value, ' ');
    }
}

proof fn lemma_keys()
    ensures
        "root"@ != "exclude"@,
        "root"@ != "rescan"@,
        "exclude"@ != "rescan"@,
        "rescan_interval"@ != "root"@,
        "rescan_interval"@ != "exclude"@,
        "rescan_interval"@ != "rescan"@,
        forall|key: Seq<char>|
            key == "root"@ || key == "exclude"@ || key == "rescan"@ || key == "rescan_interval"@
                ==> key.len() > 0 && is_trimmed(key) && #[trigger] key[0] != '#' && !key.contains(
                '=',
            ),
{
    reveal_strlit("root");
    reveal_strlit("exclude");
    reveal_strlit("rescan");
    reveal_strlit("rescan_interval");
    assert("root"@.len() == 4 && "exclude"@.len() == 7 && "rescan"@.len() == 6
        && "rescan_interval"@.len() == 15);
}

proof fn lemma_header(lines: Seq<Seq<char>>)
    requires
        lines.len() >= 2,
        lines[0] == header()[0],
        lines[1] == header()[1],
    ensures
        after_lines(lines, 2) == Ok::<_, Seq<char>>(no_settings()),
        !header()[0].contains('\n'),
        !header()[1].contains('\n'),
{
    reveal_strlit("# Which folders spoor indexes. Written by `spoor configure` (the");
    reveal_strlit("# Preferences window); read when the spoor service starts.");
    reveal_with_fuel(after_lines, 3);
    assert(!white('#') && !white('e') && !white('.'));
    lemma_trimmed_same(lines[0]);
    lemma_trimmed_same(lines[1]);
}

/// One list, line by line, after what came before it.
proof fn lemma_list_back(
    lines: Seq<Seq<char>>,
    from: nat,
    key: Seq<char>,
    list: Seq<Seq<char>>,
    c: Settings,
    k: nat,
)
    requires
        key == "root"@ || key == "exclude"@ || key == "rescan"@,
        k <= list.len(),
        from + list.len() <= lines.len(),
        forall|i: int| 0 <= i < list.len() ==> #[trigger] lines[from + i] == keyed(key, list)[i],
        writable(list),
        after_lines(lines, from) == Ok::<_, Seq<char>>(c),
    ensures
        after_lines(lines, from + k) == Ok::<_, Seq<char>>(
            if key == "root"@ {
                Settings { roots: c.roots + list.take(k as int), ..c }
            } else if key == "exclude"@ {
                Settings { exclude: c.exclude + list.take(k as int), ..c }
            } else {
                Settings { rescan: c.rescan + list.take(k as int), ..c }
            },
        ),
    decreases k,
{
    lemma_keys();
    if k == 0 {
        let none = list.take(0);
        assert(c.roots + none =~= c.roots);
        assert(c.exclude + none =~= c.exclude);
        assert(c.rescan + none =~= c.rescan);
    } else {
        let m = (k - 1) as nat;
        lemma_list_back(lines, from, key, list, c, m);
        assert(lines[from + m as int] == keyed(key, list)[m as int]);
        assert(key[0] != '#');
        lemma_keyed_line(c, key, list[m as int], from + k);
        let part = list.take(m as int);
        let next = list.take(k as int);
        assert((c.roots + part).push(list[m as int]) =~= c.roots + next);
        assert((c.exclude + part).push(list[m as int]) =~= c.exclude + next);
        assert((c.rescan + part).push(list[m as int]) =~= c.rescan + next);
    }
}

proof fn lemma_no_breaks(c: Settings)
    requires
        writable(c.roots),
        writable(c.exclude),
        writable(c.rescan),
    ensures
        forall|i: int|
            0 <= i < setting_lines(c).len() ==> !(#[trigger] setting_lines(c)[i]).contains('\n'),
{
    reveal_strlit("root");
    reveal_strlit("exclude");
    reveal_strlit("rescan");
    reveal_strlit("rescan_interval = ");
    reveal_strlit(" = ");
    lemma_header(header());
    let lines = setting_lines(c);
    let a = 2 + c.roots.len();
    let b = a + c.exclude.len();
    let d = b + c.rescan.len();
    assert forall|i: int| 0 <= i < lines.len() implies !(#[trigger] lines[i]).contains('\n') by {
        if i < 2 {
            assert(lines[i] == header()[i]);
        } else if i < a {
            assert(lines[i] == "root"@ + " = "@ + c.roots[i - 2]);
            assert(!c.roots[i - 2].contains('\n'));
            lemma_no_break_in(lines[i], "root"@ + " = "@, c.roots[i - 2]);
        } else if i < b {
            assert(lines[i] == "exclude"@ + " = "@ + c.exclude[i - a]);
            assert(!c.exclude[i - a].contains('\n'));
            lemma_no_break_in(lines[i], "exclude"@ + " = "@, c.exclude[i - a]);
        } else if i < d {
            assert(lines[i] == "rescan"@ + " = "@ + c.rescan[i - b]);
            assert(!c.rescan[i - b].contains('\n'));
            lemma_no_break_in(lines[i], "rescan"@ + " = "@, c.rescan[i - b]);
        } else {
            crate::text::lemma_decimal(c.interval);
            let num = decimal(c.interval);
            assert forall|k: int| 0 <= k < num.len() implies num[k] != '\n' by {
                assert(crate::text::is_digit(num[k]));
            }
            lemma_no_break_in(lines[i], "rescan_interval = "@, num);
        }
    }
}

proof fn lemma_no_break_in(s: Seq<char>, a: Seq<char>, b: Seq<char>)
    requires
        s == a + b,
        !a.contains('\n'),
        !b.contains('\n'),
    ensures
        !s.contains('\n'),
{
    assert forall|i: int| 0 <= i < s.len() implies s[i] != '\n' by {
        if i < a.len() {
            assert(a.contains(a[i]));
        } else {
            assert(b.contains(b[i - a.len()]));
        }
    }
}

/// Reading a settings file gives back the settings it was written from.
pub proof fn settings_round_trip(c: Settings)
    requires
        writable(c.roots),
        writable(c.exclude),
        writable(c.rescan),
        c.interval <= u64::MAX,
    ensures
        settings_of(file_of(c)) == Ok::<_, Seq<char>>(c),
{
    let lines = setting_lines(c);
    lemma_no_breaks(c);
    lemma_lines_of_joined(lines, lines.len());
    assert(lines.take(lines.len() as int) =~= lines);
    assert(lines_of(file_of(c)) == lines);
    lemma_header(lines);
    lemma_keys();
    let a = 2 + c.roots.len();
    let b = a + c.exclude.len();
    let d = b + c.rescan.len();
    let c0 = no_settings();
    let c1 = Settings { roots: c0.roots + c.roots, ..c0 };
    let c2 = Settings { exclude: c1.exclude + c.exclude, ..c1 };
    let c3 = Settings { rescan: c2.rescan + c.rescan, ..c2 };
    assert(c.roots.take(c.roots.len() as int) =~= c.roots);
    assert(c.exclude.take(c.exclude.len() as int) =~= c.exclude);
    assert(c.rescan.take(c.rescan.len() as int) =~= c.rescan);
    lemma_list_back(lines, 2, "root"@, c.roots, c0, c.roots.len());
    lemma_list_back(lines, a, "exclude"@, c.exclude, c1, c.exclude.len());
    lemma_list_back(lines, b, "rescan"@, c.rescan, c2, c.rescan.len());
    assert(after_lines(lines, d) == Ok::<_, Seq<char>>(c3));
    assert(lines.len() == d + 1);
    let num = decimal(c.interval);
    lemma_number_of_decimal(c.interval, u64::MAX as nat);
    assert(lines[d as int] == "rescan_interval"@ + " = "@ + num) by {
        reveal_strlit("rescan_interval");
        reveal_strlit("rescan_interval = ");
        reveal_strlit(" = ");
        assert("rescan_interval"@ + " = "@ =~= "rescan_interval = "@);
    }
    assert("rescan_interval"@[0] != '#');
    lemma_keyed_line(c3, "rescan_interval"@, num, d + 1);
    assert(Settings { interval: c.interval, ..c3 } =~= c);
}

proof fn lemma_value_writable(line: Seq<char>)
    requires
        !line.contains('\n'),
    ensures
        ({
            let t = trimmed(line);
            let value = trimmed(t.skip(first_of(t, '=') as int + 1));
            first_of(t, '=') < t.len() ==> !value.contains('\n') && is_trimmed(value)
        }),
{
    let t = trimmed(line);
    let eq = first_of(t, '=') as int;
    if eq < t.len() {
        let rest = t.skip(eq + 1);
        let value = trimmed(rest);
        lemma_is_trimmed(rest);
        if value.contains('\n') {
            lemma_trimmed_from(rest, '\n');
            let i = choose|i: int| 0 <= i < rest.len() && rest[i] == '\n';
            assert(t[i + eq + 1] == '\n');
            lemma_trimmed_from(line, '\n');
        }
    }
}

proof fn lemma_accepted(lines: Seq<Seq<char>>, k: nat)
    requires
        k <= lines.len(),
        after_lines(lines, k) is Ok,
        forall|i: int| 0 <= i < lines.len() ==> !(#[trigger] lines[i]).contains('\n'),
    ensures
        ({
            let c = after_lines(lines, k)->Ok_0;
            writable(c.roots) && writable(c.exclude) && writable(c.rescan) && c.interval <= u64::MAX
        }),
    decreases k,
{
    if k > 0 {
        lemma_accepted(lines, (k - 1) as nat);
        let line = lines[k - 1];
        let t = trimmed(line);
        lemma_value_writable(line);
        crate::split::lemma_first_of(t, '=');
    }
}

/// Whatever a settings file says can be written down again: reading that gives
/// the same settings.
pub proof fn accepted_settings_can_be_written(text: Seq<char>)
    requires
        settings_of(text) is Ok,
    ensures
        settings_of(file_of(settings_of(text)->Ok_0)) == settings_of(text),
{
    let all = pieces(text, '\n');
    let lines = lines_of(text);
    lemma_pieces_from(text, '\n');
    lemma_pieces_some(text, '\n');
    assert forall|i: int| 0 <= i < lines.len() implies !(#[trigger] lines[i]).contains('\n') by {
        assert(lines[i] == all[i]);
        if lines[i].contains('\n') {
            let k = choose|k: int| 0 <= k < lines[i].len() && lines[i][k] == '\n';
            assert(all[i][k] != '\n');
        }
    }
    lemma_accepted(lines, lines.len());
    settings_round_trip(settings_of(text)->Ok_0);
}

// What a line says.

/// Every line of the text is ended.
pub open spec fn ended(text: Seq<char>) -> bool {
    text.len() == 0 || text.last() == '\n'
}

proof fn lemma_one_line_more(text: Seq<char>, line: Seq<char>)
    requires
        ended(text),
        !line.contains('\n'),
    ensures
        lines_of(text + line + seq!['\n']) == lines_of(text).push(line),
{
    let s = text + line + seq!['\n'];
    let none = Seq::<char>::empty();
    lemma_pieces_run(text, line, '\n');
    assert(s.drop_last() =~= text + line);
    lemma_pieces_some(text, '\n');
    let before = pieces(text, '\n');
    assert(before.last() =~= none);
    assert(before.last() + line =~= line);
    assert(lines_of(s) =~= lines_of(text).push(line));
}

proof fn lemma_after_fewer(a: Seq<Seq<char>>, line: Seq<char>, k: nat)
    requires
        k <= a.len(),
    ensures
        after_lines(a.push(line), k) == after_lines(a, k),
    decreases k,
{
    if k > 0 {
        lemma_after_fewer(a, line, (k - 1) as nat);
    }
}

proof fn lemma_settings_step(text: Seq<char>, line: Seq<char>)
    requires
        ended(text),
        !line.contains('\n'),
    ensures
        settings_of(text + line + seq!['\n']) == (match settings_of(text) {
            Ok(c) => with_line(c, line, lines_of(text).len() + 1),
            Err(e) => Err(e),
        }),
{
    lemma_one_line_more(text, line);
    lemma_after_fewer(lines_of(text), line, lines_of(text).len());
}

/// Nothing said is nothing set: no folder, and a quarter of an hour between
/// rescans. Where there is no file at all, the home folders are indexed.
pub proof fn empty_files_set_nothing()
    ensures
        settings_of(Seq::<char>::empty()) == Ok::<_, Seq<char>>(
            Settings { roots: seq![], exclude: seq![], rescan: seq![], interval: 900 },
        ),
        first_settings() == (Settings {
            roots: seq!["/home"@],
            exclude: seq![],
            rescan: seq![],
            interval: 900,
        }),
{
    let none = Seq::<char>::empty();
    assert(pieces(none, '\n') =~= seq![none]);
    assert(lines_of(none) =~= Seq::<Seq<char>>::empty());
}

/// A line adds the folder that it names to the list that it names, behind those
/// already there, and changes nothing else.
pub proof fn lines_add_folders(text: Seq<char>, value: Seq<char>)
    requires
        ended(text),
        settings_of(text) is Ok,
        !value.contains('\n'),
        value.len() > 0 ==> !white(value[0]) && !white(value.last()),
    ensures
        ({
            let c = settings_of(text)->Ok_0;
            &&& settings_of(text + ("root"@ + " = "@ + value) + seq!['\n']) == Ok::<_, Seq<char>>(
                Settings {
                    roots: c.roots.push(value),
                    exclude: c.exclude,
                    rescan: c.rescan,
                    interval: c.interval,
                },
            )
            &&& settings_of(text + ("exclude"@ + " = "@ + value) + seq!['\n']) == Ok::<_, Seq<char>>(
                Settings {
                    roots: c.roots,
                    exclude: c.exclude.push(value),
                    rescan: c.rescan,
                    interval: c.interval,
                },
            )
            &&& settings_of(text + ("rescan"@ + " = "@ + value) + seq!['\n']) == Ok::<_, Seq<char>>(
                Settings {
                    roots: c.roots,
                    exclude: c.exclude,
                    rescan: c.rescan.push(value),
                    interval: c.interval,
                },
            )
        }),
{
    let c = settings_of(text)->Ok_0;
    let n = lines_of(text).len() + 1;
    lemma_keys();
    reveal_strlit(" = ");
    reveal_strlit("root");
    reveal_strlit("exclude");
    reveal_strlit("rescan");
    assert("root"@[0] != '#' && "exclude"@[0] != '#' && "rescan"@[0] != '#');
    lemma_keyed_line(c, "root"@, value, n);
    lemma_keyed_line(c, "exclude"@, value, n);
    lemma_keyed_line(c, "rescan"@, value, n);
    lemma_no_break_in("root"@ + " = "@ + value, "root"@ + " = "@, value);
    lemma_no_break_in("exclude"@ + " = "@ + value, "exclude"@ + " = "@, value);
    lemma_no_break_in("rescan"@ + " = "@ + value, "rescan"@ + " = "@, value);
    lemma_settings_step(text, "root"@ + " = "@ + value);
    lemma_settings_step(text, "exclude"@ + " = "@ + value);
    lemma_settings_step(text, "rescan"@ + " = "@ + value);
}

/// A line sets the seconds between rescans; what is no number of seconds is
/// refused, with the number of the line.
pub proof fn lines_set_the_interval(text: Seq<char>, n: nat, other: Seq<char>)
    requires
        ended(text),
        settings_of(text) is Ok,
        n <= u64::MAX,
        !other.contains('\n'),
        other.len() > 0,
        !('0' <= other[0] <= '9') && other[0] != '+',
        !white(other[0]) && !white(other.last()),
    ensures
        ({
            let c = settings_of(text)->Ok_0;
            let key = "rescan_interval"@ + " = "@;
            &&& settings_of(text + (key + decimal(n)) + seq!['\n']) == Ok::<_, Seq<char>>(
                Settings { roots: c.roots, exclude: c.exclude, rescan: c.rescan, interval: n },
            )
            &&& settings_of(text + (key + other) + seq!['\n']) == Err::<Settings, _>(
                "line "@ + decimal(lines_of(text).len() + 1)
                    + ": rescan_interval must be whole seconds"@,
            )
        }),
{
    let c = settings_of(text)->Ok_0;
    let at = lines_of(text).len() + 1;
    let key = "rescan_interval"@;
    let num = decimal(n);
    lemma_keys();
    lemma_number_of_decimal(n, u64::MAX as nat);
    crate::text::lemma_decimal(n);
    assert forall|k: int| 0 <= k < num.len() implies num[k] != '\n' by {
        assert(crate::text::is_digit(num[k]));
    }
    assert(is_trimmed(num)) by {
        assert(crate::text::is_digit(num[0]));
        assert(crate::text::is_digit(num[num.len() - 1]));
    }
    reveal_strlit(" = ");
    reveal_strlit("rescan_interval");
    assert(key[0] != '#');
    lemma_keyed_line(c, key, num, at);
    lemma_keyed_line(c, key, other, at);
    lemma_no_break_in(key + " = "@ + num, key + " = "@, num);
    lemma_no_break_in(key + " = "@ + other, key + " = "@, other);
    lemma_settings_step(text, key + " = "@ + num);
    lemma_settings_step(text, key + " = "@ + other);
    assert(number(other, u64::MAX as nat) is None) by {
        if crate::text::all_digits(other) {
            assert(crate::text::is_digit(other[0]));
        }
    }
}

/// A comment says nothing, and neither does a line of white space.
pub proof fn comments_say_nothing(text: Seq<char>, rest: Seq<char>, blank: Seq<char>)
    requires
        ended(text),
        !rest.contains('\n'),
        !blank.contains('\n'),
        forall|i: int| 0 <= i < blank.len() ==> white(#[trigger] blank[i]),
    ensures
        settings_of(text + (seq!['#'] + rest) + seq!['\n']) == settings_of(text),
        settings_of(text + blank + seq!['\n']) == settings_of(text),
{
    let note = seq!['#'] + rest;
    assert(!white('#'));
    lemma_no_break_in(note, seq!['#'], rest);
    lemma_settings_step(text, note);
    lemma_settings_step(text, blank);
    lemma_note_trimmed(rest);
    lemma_blank_trimmed(blank);
}

proof fn lemma_note_trimmed(rest: Seq<char>)
    ensures
        trimmed(seq!['#'] + rest).len() > 0,
        trimmed(seq!['#'] + rest)[0] == '#',
    decreases rest.len(),
{
    let s = seq!['#'] + rest;
    assert(!white('#'));
    if rest.len() > 0 && white(rest.last()) {
        assert(s.last() == rest.last());
        assert(s.drop_last() =~= seq!['#'] + rest.drop_last());
        lemma_note_trimmed(rest.drop_last());
    } else {
        assert(!white(s.last()));
    }
}

proof fn lemma_blank_trimmed(blank: Seq<char>)
    requires
        forall|i: int| 0 <= i < blank.len() ==> white(#[trigger] blank[i]),
    ensures
        trimmed(blank).len() == 0,
    decreases blank.len(),
{
    if blank.len() > 0 {
        assert(white(blank[0]));
        lemma_blank_trimmed(blank.skip(1));
    }
}

/// A line that is no comment and holds no `=` is refused, and so is one that
/// sets what is not known; the refusal gives the number of the line.
pub proof fn other_lines_are_refused(text: Seq<char>, line: Seq<char>, value: Seq<char>)
    requires
        ended(text),
        settings_of(text) is Ok,
        !line.contains('\n'),
        line.len() > 0,
        line[0] != '#',
        !white(line[0]),
        !white(line.last()),
        !line.contains('='),
        !value.contains('\n'),
        value.len() > 0 ==> !white(value[0]) && !white(value.last()),
    ensures
        settings_of(text + line + seq!['\n']) == Err::<Settings, _>(
            "line "@ + decimal(lines_of(text).len() + 1) + ": expected `key = value`"@,
        ),
        line != "root"@ && line != "exclude"@ && line != "rescan"@ && line != "rescan_interval"@
            ==> settings_of(text + (line + " = "@ + value) + seq!['\n']) == Err::<Settings, _>(
            "line "@ + decimal(lines_of(text).len() + 1) + ": unknown setting"@,
        ),
{
    let at = lines_of(text).len() + 1;
    lemma_settings_step(text, line);
    lemma_trimmed_same(line);
    assert forall|i: int| 0 <= i < line.len() implies #[trigger] line[i] != '=' by {
        assert(line.contains(line[i]));
    }
    lemma_first_of_is(line, '=', line.len() as int);
    let set = line + " = "@ + value;
    reveal_strlit(" = ");
    lemma_no_break_in(line + " = "@, line, " = "@);
    lemma_no_break_in(set, line + " = "@, value);
    lemma_keyed_line(settings_of(text)->Ok_0, line, value, at);
    lemma_settings_step(text, set);
}

/// What was refused stays refused, for the same reason, whatever follows.
pub proof fn refusals_stand(text: Seq<char>, line: Seq<char>)
    requires
        ended(text),
        settings_of(text) is Err,
        !line.contains('\n'),
    ensures
        settings_of(text + line + seq!['\n']) == settings_of(text),
{
    lemma_settings_step(text, line);
}

/// The last line counts though nothing ends it.
pub proof fn the_last_line_counts(text: Seq<char>, line: Seq<char>)
    requires
        ended(text),
        !line.contains('\n'),
        line.len() > 0,
    ensures
        settings_of(text + line) == settings_of(text + line + seq!['\n']),
        lines_of(text + line + seq!['\n']).len() == lines_of(text).len() + 1,
{
    let s = text + line;
    let t = s + seq!['\n'];
    lemma_one_line_more(text, line);
    assert(t.drop_last() =~= s);
    lemma_pieces_run(text, line, '\n');
    lemma_pieces_some(text, '\n');
    lemma_pieces_some(s, '\n');
    assert(pieces(text, '\n').last() =~= Seq::<char>::empty());
    assert(pieces(s, '\n').last() =~= line);
    assert(lines_of(s) =~= lines_of(t));
}

} // verus!
