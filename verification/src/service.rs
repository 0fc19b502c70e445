//! What the daemon runs with, and what it serves before and between walks.

use vstd::prelude::*;
use vstd::utf8::encode_utf8;
use crate::args::{
    arg_value, arg_values, given, is_given, number_or, number_value, value_of, values_of,
    flags_may_be_repeated, values_follow_their_flag, DEFAULT_SOCK, DEFAULT_STATE,
};
use crate::catalog::{innermost, Catalog, Listing, Part};
use crate::config::{no_settings, Config, Settings};
use crate::graft::GraftStats;
use crate::index::{Index, IndexView};
use crate::live::{graft_counted, graftable, listing_for};
use crate::place::within;
use crate::text::{decimal, has_text, lemma_number_of_decimal, same_text, texts};
use crate::tree::NO_PARENT;

verus! {

// Settings.

/// Daemon settings: the settings file plus command-line flags.
pub struct DaemonOpts {
    pub sock: String,
    /// Seconds after which the daemon stops; 0 for never.
    pub duration_secs: u64,
    pub watch_enabled: bool,
    pub state_path: String,
    /// Seconds between snapshots; 0 for none.
    pub save_interval: u64,
    /// Seconds between reconciliation walks; 0 for none.
    pub reconcile_interval: u64,
    pub config: Config,
}

/// The settings file first, if one is named; flags add to it. With no folder
/// anywhere, /home is indexed.
pub open spec fn configured(file: Option<Settings>, args: Seq<Seq<char>>) -> Settings {
    let base = match file {
        Some(c) => c,
        None => no_settings(),
    };
    let roots = base.roots + values_of(args, "--root"@, args.len());
    Settings {
        roots: if roots.len() == 0 {
            seq!["/home"@]
        } else {
            roots
        },
        exclude: base.exclude + values_of(args, "--exclude"@, args.len()),
        rescan: base.rescan + values_of(args, "--rescan"@, args.len()),
        interval: number_or(args, "--rescan-interval"@, u64::MAX as nat, base.interval),
    }
}

/// The folders that the daemon indexes, from the settings file (if one is
/// named) and the command line.
pub fn daemon_config(file: Option<Config>, args: &[String]) -> (c: Config)
    ensures
        c@ == configured(
            match file {
                Some(f) => Some(f@),
                None => None,
            },
            texts(args@),
        ),
{
    let ghost all = texts(args@);
    let mut c = match file {
        Some(f) => f,
        None => {
            let none = Config {
                roots: Vec::new(),
                exclude: Vec::new(),
                rescan: Vec::new(),
                rescan_interval: 900,
            };
            assert(none@ =~= no_settings());
            none
        },
    };
    let ghost base = c@;
    let mut roots = arg_values(args, "--root");
    let mut exclude = arg_values(args, "--exclude");
    let mut rescan = arg_values(args, "--rescan");
    let ghost (r, e, n) = (texts(roots@), texts(exclude@), texts(rescan@));
    c.roots.append(&mut roots);
    c.exclude.append(&mut exclude);
    c.rescan.append(&mut rescan);
    proof {
        assert(texts(c.roots@) =~= base.roots + r);
        assert(texts(c.exclude@) =~= base.exclude + e);
        assert(texts(c.rescan@) =~= base.rescan + n);
    }
    match number_value(args, "--rescan-interval") {
        Some(secs) => {
            c.rescan_interval = secs;
        },
        None => {},
    }
    if c.roots.len() == 0 {
        c.roots.push("/home".to_owned());
        assert(texts(c.roots@) =~= seq!["/home"@]);
    }
    c
}

/// A text given with a flag, or `other`.
pub open spec fn text_or(args: Seq<Seq<char>>, flag: Seq<char>, other: Seq<char>) -> Seq<char> {
    match value_of(args, flag) {
        Some(v) => v,
        None => other,
    }
}

/// After how many seconds the daemon stops, saves a snapshot and walks again.
pub open spec fn seconds_asked(args: Seq<Seq<char>>) -> (nat, nat, nat) {
    (
        number_or(args, "--duration"@, u64::MAX as nat, 0),
        number_or(args, "--save-interval"@, u64::MAX as nat, 60),
        number_or(args, "--reconcile-interval"@, u64::MAX as nat, 86_400),
    )
}

/// Whether the filesystem is watched.
pub open spec fn watch_asked(args: Seq<Seq<char>>) -> bool {
    !given(args, "--no-watch"@)
}

/// What the daemon runs with.
pub fn daemon_opts(args: &[String], config: Config) -> (o: DaemonOpts)
    ensures
        o.config == config,
        o.sock@ == text_or(texts(args@), "--socket"@, DEFAULT_SOCK@),
        o.state_path@ == text_or(texts(args@), "--state"@, DEFAULT_STATE@),
        (o.duration_secs as nat, o.save_interval as nat, o.reconcile_interval as nat)
            == seconds_asked(texts(args@)),
        o.watch_enabled == watch_asked(texts(args@)),
{
    let sock = match arg_value(args, "--socket") {
        Some(v) => v,
        None => DEFAULT_SOCK.to_owned(),
    };
    let state_path = match arg_value(args, "--state") {
        Some(v) => v,
        None => DEFAULT_STATE.to_owned(),
    };
    let duration_secs = match number_value(args, "--duration") {
        Some(n) => n,
        None => 0,
    };
    let save_interval = match number_value(args, "--save-interval") {
        Some(n) => n,
        None => 60,
    };
    let reconcile_interval = match number_value(args, "--reconcile-interval") {
        Some(n) => n,
        None => 86_400,
    };
    let watch_enabled = !is_given(args, "--no-watch");
    DaemonOpts {
        sock,
        duration_secs,
        watch_enabled,
        state_path,
        save_interval,
        reconcile_interval,
        config,
    }
}

// Starting from a snapshot.

/// The index that a snapshot holds for the folder `root`: the last one, if
/// there are several.
pub open spec fn held(parts: Seq<(String, Index)>, root: Seq<char>) -> Option<Index>
    decreases parts.len(),
{
    if parts.len() == 0 {
        None
    } else if parts.last().0@ == root {
        Some(parts.last().1)
    } else {
        held(parts.drop_last(), root)
    }
}

/// An index with nothing in it.
pub open spec fn empty_index() -> IndexView {
    IndexView { nodes: Seq::empty(), root: NO_PARENT, dir_ino: Map::empty(), indexed: false }
}

/// What is served for folder `i` at the start: what the snapshot holds for it,
/// or nothing yet. A folder that is named twice gets it once.
pub open spec fn served(roots: Seq<Seq<char>>, previous: Seq<(String, Index)>, i: int) -> IndexView {
    match held(previous, roots[i]) {
        Some(ix) => if roots.take(i).contains(roots[i]) {
            empty_index()
        } else {
            ix@
        },
        None => empty_index(),
    }
}

/// The catalog to serve at the start, from the parts of a snapshot.
pub open spec fn restored(
    c: Catalog,
    roots: Seq<Seq<char>>,
    previous: Seq<(String, Index)>,
    exclude: Seq<Seq<char>>,
) -> bool {
    &&& c.parts@.len() == roots.len()
    &&& forall|i: int|
        0 <= i < roots.len() ==> (#[trigger] c.parts@[i]).root@ == roots[i] && c.parts@[i].index@
            == served(roots, previous, i) && c.parts@[i].capture is None
            && c.parts@[i].listings@.len() == 0
    &&& texts(c.exclude@) == exclude
}

proof fn lemma_held_removed(parts: Seq<(String, Index)>, at: int, root: Seq<char>)
    requires
        0 <= at < parts.len(),
        parts[at].0@ != root,
    ensures
        held(parts.remove(at), root) == held(parts, root),
    decreases parts.len(),
{
    let less = parts.remove(at);
    if at == parts.len() - 1 {
        assert(less =~= parts.drop_last());
    } else {
        assert(less.last() == parts.last());
        lemma_held_removed(parts.drop_last(), at, root);
        assert(less.drop_last() =~= parts.drop_last().remove(at));
    }
}

proof fn lemma_held_at(parts: Seq<(String, Index)>, at: int, root: Seq<char>)
    requires
        -1 <= at < parts.len(),
        at >= 0 ==> parts[at].0@ == root,
        forall|k: int| at < k < parts.len() ==> (#[trigger] parts[k]).0@ != root,
    ensures
        held(parts, root) == (if at < 0 {
            None
        } else {
            Some(parts[at].1)
        }),
    decreases parts.len(),
{
    if parts.len() > 0 && at < parts.len() - 1 {
        assert(parts[parts.len() - 1].0@ != root);
        lemma_held_at(parts.drop_last(), at, root);
    }
}

impl Catalog {
    /// The catalog to serve at the start, from the parts of a snapshot. Folders
    /// no longer configured are dropped; new ones start empty.
    pub fn restore(roots: &Vec<String>, previous: Vec<(String, Index)>, exclude: &[String]) -> (c:
        Catalog)
        requires
            forall|i: int| 0 <= i < previous@.len() ==> (#[trigger] previous@[i]).1.wf(),
        ensures
            c.wf(),
            restored(c, texts(roots@), previous@, texts(exclude@)),
    {
        let ghost names = texts(roots@);
        let ghost given = previous@;
        let mut left: Vec<(String, Index)> = previous;
        let mut seen: Vec<String> = Vec::new();
        let mut parts: Vec<(String, Index)> = Vec::new();
        let mut i: usize = 0;
        while i < roots.len()
            invariant
                i <= roots@.len(),
                names == texts(roots@),
                texts(seen@) == names.take(i as int),
                parts@.len() == i,
                forall|k: int| 0 <= k < left@.len() ==> (#[trigger] left@[k]).1.wf(),
                forall|r: Seq<char>|
                    !names.take(i as int).contains(r) ==> #[trigger] held(left@, r) == held(
                        given,
                        r,
                    ),
                forall|k: int|
                    0 <= k < i ==> (#[trigger] parts@[k]).0@ == names[k] && parts@[k].1.wf()
                        && parts@[k].1@ == served(names, given, k),
            decreases roots@.len() - i,
        {
            let root = roots[i].as_str();
            assert(names[i as int] == root@);
            let ghost left0 = left@;
            let ghost parts0 = parts@;
            let mut ix = Index::new();
            let repeated = has_text(&seen, root);
            if !repeated {
                let mut at: usize = left.len();
                while at > 0 && !same_text(left[at - 1].0.as_str(), root)
                    invariant
                        at <= left@.len(),
                        forall|k: int| at <= k < left@.len() ==> (#[trigger] left@[k]).0@ != root@,
                    decreases at,
                {
                    at = at - 1;
                }
                proof {
                    lemma_held_at(left@, at - 1, root@);
                }
                if at > 0 {
                    let (_, found) = left.remove(at - 1);
                    ix = found;
                    proof {
                        assert(left@ =~= left0.remove(at - 1));
                        assert forall|r: Seq<char>|
                            !names.take(i + 1).contains(r) implies #[trigger] held(left@, r)
                            == held(given, r) by {
                            lemma_after(names, i as int, r);
                            lemma_held_removed(left0, at - 1, r);
                        }
                        assert forall|k: int| 0 <= k < left@.len() implies (
                        #[trigger] left@[k]).1.wf() by {
                            let j = if k < at - 1 {
                                k
                            } else {
                                k + 1
                            };
                            assert(left@[k] == left0[j]);
                        }
                    }
                }
            }
            proof {
                assert(ix@ == served(names, given, i as int)) by {
                    assert(repeated == names.take(i as int).contains(names[i as int]));
                }
                assert forall|r: Seq<char>| !names.take(i + 1).contains(r) implies #[trigger] held(
                    left@,
                    r,
                ) == held(given, r) by {
                    lemma_after(names, i as int, r);
                }
            }
            parts.push((roots[i].clone(), ix));
            let ghost seen0 = texts(seen@);
            let name = roots[i].clone();
            seen.push(name);
            proof {
                assert(texts(seen@) =~= seen0.push(name@));
                assert(names.take(i + 1) =~= names.take(i as int).push(names[i as int]));
                assert forall|k: int| 0 <= k < i + 1 implies (#[trigger] parts@[k]).0@ == names[k]
                    && parts@[k].1.wf() && parts@[k].1@ == served(names, given, k) by {
                    if k < i {
                        assert(parts@[k] == parts0[k]);
                    }
                }
            }
            i = i + 1;
        }
        Catalog::new(parts, exclude)
    }
}

/// What is not among the first `i + 1` is not among the first `i`, nor the
/// next.
proof fn lemma_after(names: Seq<Seq<char>>, i: int, r: Seq<char>)
    requires
        0 <= i < names.len(),
        !names.take(i + 1).contains(r),
    ensures
        !names.take(i).contains(r),
        names[i] != r,
{
    assert(names.take(i + 1)[i] == names[i]);
    if names.take(i).contains(r) {
        let k = choose|k: int| 0 <= k < i && names.take(i)[k] == r;
        assert(names.take(i + 1)[k] == r);
    }
}

// Rescanned mounts.

/// What became of a mount's listing.
pub enum Rescan {
    /// The mount is not inside an indexed folder.
    Outside,
    /// The mount is not in the index; it may be excluded.
    NotIndexed,
    /// The listing is not in pre-order, or is more than the index can hold.
    Refused,
    Merged(GraftStats),
}

/// What becomes of the part `a` that holds the mount `p`.
pub open spec fn part_merged(
    a: Part,
    b: Part,
    p: Seq<char>,
    list: Seq<(u32, Vec<u8>, bool)>,
    r: Rescan,
) -> bool {
    &&& b.root == a.root
    &&& b.capture == a.capture
    &&& match a.index@.resolved(encode_utf8(p)) {
        None => r is NotIndexed && b == a,
        Some(mount) => if graftable(a.index@, mount, list) {
            &&& r matches Rescan::Merged(s) && graft_counted(a.index@, mount, list, s)
            &&& b.index@ == a.index@.grafted(mount, list)
            &&& listing_for(b.listings@, p) == Some(list)
            &&& forall|other: Seq<char>|
                other != p ==> #[trigger] listing_for(b.listings@, other) == listing_for(
                    a.listings@,
                    other,
                )
        } else {
            r is Refused && b.index@ == a.index@ && b.listings == a.listings
        },
    }
}

/// What becomes of the parts when a complete walk of the mount `p` is merged.
pub open spec fn listing_merged(
    before: Seq<Part>,
    after: Seq<Part>,
    p: Seq<char>,
    list: Seq<(u32, Vec<u8>, bool)>,
    r: Rescan,
) -> bool {
    match r {
        Rescan::Outside => {
            &&& after == before
            &&& forall|i: int| 0 <= i < before.len() ==> !within(p, (#[trigger] before[i]).root@)
        },
        _ => exists|j: int| #[trigger]
            innermost(before, p, j) && after == before.update(j, after[j]) && part_merged(
                before[j],
                after[j],
                p,
                list,
                r,
            ),
    }
}

impl Catalog {
    /// Merges a complete walk of the mount `p` into the part that holds it, and
    /// keeps it for the next fresh index. Where it cannot be merged, everything
    /// stays as it is.
    pub fn merge_listing(&mut self, p: &str, list: Listing) -> (r: Rescan)
        requires
            old(self).wf(),
        ensures
            final(self).wf(),
            final(self).exclude == old(self).exclude,
            listing_merged(old(self).parts@, final(self).parts@, p@, list@, r),
    {
        let j = match self.place_of(p) {
            Some(j) => j,
            None => {
                return Rescan::Outside;
            },
        };
        let ghost parts0 = self.parts@;
        let ghost list0 = list@;
        assert(parts0[j as int].index.wf());
        let mut part = self.parts.remove(j);
        let ghost part0 = part;
        let r = match part.index.resolve_path(p.as_bytes()) {
            None => Rescan::NotIndexed,
            Some(mount) => match part.index.try_graft(mount, list.as_slice()) {
                None => Rescan::Refused,
                Some(s) => {
                    part.keep_listing(p, list);
                    Rescan::Merged(s)
                },
            },
        };
        let ghost part1 = part;
        self.parts.insert(j, part);
        proof {
            assert(self.parts@ =~= parts0.update(j as int, part1));
            assert(self.parts@[j as int] == part1);
            assert(part_merged(part0, part1, p@, list0, r));
            assert forall|i: int| 0 <= i < self.parts@.len() implies (
            #[trigger] self.parts@[i]).index.wf() by {
                if i != j {
                    assert(self.parts@[i] == parts0[i]);
                }
            }
            assert(innermost(parts0, p@, j as int));
        }
        r
    }
}

// What starting promises.

/// What a snapshot holds for a configured folder is served at once.
pub proof fn snapshots_are_served_at_once(
    roots: Seq<Seq<char>>,
    previous: Seq<(String, Index)>,
    i: int,
    j: int,
)
    requires
        0 <= i < roots.len(),
        !roots.take(i).contains(roots[i]),
        0 <= j < previous.len(),
        previous[j].0@ == roots[i],
        forall|k: int| j < k < previous.len() ==> (#[trigger] previous[k]).0@ != roots[i],
    ensures
        served(roots, previous, i) == previous[j].1@,
{
    lemma_held_at(previous, j, roots[i]);
}

/// A folder that the snapshot does not know starts empty.
pub proof fn new_folders_start_empty(
    roots: Seq<Seq<char>>,
    previous: Seq<(String, Index)>,
    i: int,
)
    requires
        0 <= i < roots.len(),
        forall|k: int| 0 <= k < previous.len() ==> (#[trigger] previous[k]).0@ != roots[i],
    ensures
        served(roots, previous, i) == empty_index(),
{
    lemma_held_at(previous, -1, roots[i]);
}

// What the daemon is told.

/// The daemon listens and saves where it is told; where it is told nothing, at
/// the usual places.
pub proof fn places_are_taken_from_flags(
    before: Seq<Seq<char>>,
    flag: Seq<char>,
    value: Seq<char>,
    after: Seq<Seq<char>>,
    other: Seq<char>,
)
    requires
        !before.contains(flag),
    ensures
        text_or(before + seq![flag, value] + after, flag, other) == value,
        text_or(before, flag, other) == other,
        DEFAULT_SOCK@ == "/run/spoor.sock"@,
        DEFAULT_STATE@ == "/var/lib/spoor/index.bin"@,
{
    values_follow_their_flag(before, flag, value, after);
}

/// A daemon that is told nothing runs on, saves every minute and walks again
/// every day.
pub proof fn daemons_save_every_minute(args: Seq<Seq<char>>)
    ensures
        !args.contains("--duration"@) ==> seconds_asked(args).0 == 0,
        !args.contains("--save-interval"@) ==> seconds_asked(args).1 == 60,
        !args.contains("--reconcile-interval"@) ==> seconds_asked(args).2 == 24 * 60 * 60,
        watch_asked(args) <==> !args.contains("--no-watch"@),
{
    let none = Seq::<Seq<char>>::empty();
    if !args.contains("--duration"@) {
        values_follow_their_flag(args, "--duration"@, seq![], none);
    }
    if !args.contains("--save-interval"@) {
        values_follow_their_flag(args, "--save-interval"@, seq![], none);
    }
    if !args.contains("--reconcile-interval"@) {
        values_follow_their_flag(args, "--reconcile-interval"@, seq![], none);
    }
}

/// Seconds are taken from the flag that names them.
pub proof fn seconds_are_taken_from_flags(
    before: Seq<Seq<char>>,
    n: nat,
    after: Seq<Seq<char>>,
    file: Option<Settings>,
)
    requires
        n <= u64::MAX,
    ensures
        !before.contains("--duration"@) ==> seconds_asked(
            before + seq!["--duration"@, decimal(n)] + after,
        ).0 == n,
        !before.contains("--save-interval"@) ==> seconds_asked(
            before + seq!["--save-interval"@, decimal(n)] + after,
        ).1 == n,
        !before.contains("--reconcile-interval"@) ==> seconds_asked(
            before + seq!["--reconcile-interval"@, decimal(n)] + after,
        ).2 == n,
        !before.contains("--rescan-interval"@) ==> configured(
            file,
            before + seq!["--rescan-interval"@, decimal(n)] + after,
        ).interval == n,
        !before.contains("--rescan-interval"@) ==> configured(file, before).interval == (
        match file {
            Some(c) => c.interval,
            None => 900,
        }),
{
    lemma_number_of_decimal(n, u64::MAX as nat);
    let num = decimal(n);
    if !before.contains("--duration"@) {
        values_follow_their_flag(before, "--duration"@, num, after);
    }
    if !before.contains("--save-interval"@) {
        values_follow_their_flag(before, "--save-interval"@, num, after);
    }
    if !before.contains("--reconcile-interval"@) {
        values_follow_their_flag(before, "--reconcile-interval"@, num, after);
    }
    if !before.contains("--rescan-interval"@) {
        values_follow_their_flag(before, "--rescan-interval"@, num, after);
    }
}

/// What the settings file names comes first, and nothing of it is left out.
pub proof fn the_settings_file_comes_first(c: Settings, args: Seq<Seq<char>>)
    ensures
        ({
            let all = configured(Some(c), args);
            &&& c.roots.len() > 0 ==> all.roots.len() >= c.roots.len() && all.roots.take(
                c.roots.len() as int,
            ) == c.roots
            &&& all.exclude.len() >= c.exclude.len() && all.exclude.take(c.exclude.len() as int)
                == c.exclude
            &&& all.rescan.len() >= c.rescan.len() && all.rescan.take(c.rescan.len() as int)
                == c.rescan
        }),
{
    let all = configured(Some(c), args);
    assert(all.exclude.take(c.exclude.len() as int) =~= c.exclude);
    assert(all.rescan.take(c.rescan.len() as int) =~= c.rescan);
    if c.roots.len() > 0 {
        assert(all.roots.take(c.roots.len() as int) =~= c.roots);
    }
}

/// Each folder behind a flag is added to the list that the flag names, and to no
/// other.
pub proof fn flags_add_folders(file: Option<Settings>, args: Seq<Seq<char>>, value: Seq<char>)
    requires
        args.len() > 0,
        configured(file, args).roots != seq!["/home"@],
    ensures
        ({
            let (a, b) = (configured(file, args), configured(file, args.push(value)));
            &&& b.roots == (if args.last() == "--root"@ {
                a.roots.push(value)
            } else {
                a.roots
            })
            &&& b.exclude == (if args.last() == "--exclude"@ {
                a.exclude.push(value)
            } else {
                a.exclude
            })
            &&& b.rescan == (if args.last() == "--rescan"@ {
                a.rescan.push(value)
            } else {
                a.rescan
            })
        }),
{
    flags_may_be_repeated(args, "--root"@, value);
    flags_may_be_repeated(args, "--exclude"@, value);
    flags_may_be_repeated(args, "--rescan"@, value);
    let (a, b) = (configured(file, args), configured(file, args.push(value)));
    let base = match file {
        Some(c) => c,
        None => no_settings(),
    };
    assert(base.roots + values_of(args, "--root"@, args.len()).push(value) =~= (base.roots
        + values_of(args, "--root"@, args.len())).push(value));
    assert(base.exclude + values_of(args, "--exclude"@, args.len()).push(value) =~= (base.exclude
        + values_of(args, "--exclude"@, args.len())).push(value));
    assert(base.rescan + values_of(args, "--rescan"@, args.len()).push(value) =~= (base.rescan
        + values_of(args, "--rescan"@, args.len())).push(value));
}

/// With no folder named anywhere, the home folders are indexed; a folder named
/// takes their place.
pub proof fn home_is_indexed_by_default(args: Seq<Seq<char>>, value: Seq<char>)
    requires
        !args.contains("--root"@),
    ensures
        configured(None, args).roots == seq!["/home"@],
        configured(None, args + seq!["--root"@, value]).roots == seq![value],
{
    lemma_no_values(args, "--root"@, args.len());
    let none = Seq::<Seq<char>>::empty();
    let one = args.push("--root"@);
    assert(args + seq!["--root"@, value] =~= one.push(value));
    flags_may_be_repeated(one, "--root"@, value);
    if args.len() > 0 {
        flags_may_be_repeated(args, "--root"@, "--root"@);
        assert(args.contains(args.last()));
    }
    assert(none + none =~= none);
    assert(none + none.push(value) =~= seq![value]);
}

proof fn lemma_no_values(args: Seq<Seq<char>>, flag: Seq<char>, k: nat)
    requires
        !args.contains(flag),
        k <= args.len(),
    ensures
        values_of(args, flag, k) == Seq::<Seq<char>>::empty(),
    decreases k,
{
    if k >= 2 {
        lemma_no_values(args, flag, (k - 1) as nat);
        assert(args.contains(args[k - 2]));
    }
}

/// A folder that is named twice is served once; the second starts with no entry
/// and no root.
pub proof fn repeated_folders_start_empty(
    roots: Seq<Seq<char>>,
    previous: Seq<(String, Index)>,
    i: int,
    j: int,
)
    requires
        0 <= j < i < roots.len(),
        roots[j] == roots[i],
    ensures
        served(roots, previous, i).nodes.len() == 0,
        served(roots, previous, i).root == 0xffff_ffff,
        !served(roots, previous, i).indexed,
{
    assert(roots.take(i)[j] == roots[i]);
}

/// A listing of a mount is merged where the mount is indexed, and kept for
/// later; where it is not, nothing changes.
pub proof fn merged_listings_are_kept(
    a: Part,
    b: Part,
    p: Seq<char>,
    list: Seq<(u32, Vec<u8>, bool)>,
    r: Rescan,
    other: Seq<char>,
)
    requires
        part_merged(a, b, p, list, r),
    ensures
        b.root == a.root,
        b.capture == a.capture,
        r is NotIndexed <==> a.index@.resolved(encode_utf8(p)) is None,
        r is Merged ==> listing_for(b.listings@, p) == Some(list),
        r !is Merged ==> b.index@ == a.index@ && b.listings@ == a.listings@,
        other != p ==> listing_for(b.listings@, other) == listing_for(a.listings@, other),
        r matches Rescan::Merged(s) ==> s.total == list.len() && (a.index@.resolved(
            encode_utf8(p),
        ) matches Some(m) && b.index@ == a.index@.grafted(m, list)),
{
}

/// A listing changes no part but the one that its mount belongs to, and where it
/// belongs to none nothing changes.
pub proof fn listings_change_one_part(
    before: Seq<Part>,
    after: Seq<Part>,
    p: Seq<char>,
    list: Seq<(u32, Vec<u8>, bool)>,
    r: Rescan,
    j: int,
)
    requires
        listing_merged(before, after, p, list, r),
    ensures
        after.len() == before.len(),
        innermost(before, p, j) ==> r !is Outside && part_merged(before[j], after[j], p, list, r),
        0 <= j < before.len() && !innermost(before, p, j) ==> after[j] == before[j],
        (forall|i: int| 0 <= i < before.len() ==> !within(p, (#[trigger] before[i]).root@))
            ==> r is Outside && after == before,
{
    if innermost(before, p, j) {
        assert(within(p, before[j].root@));
    }
    if r !is Outside {
        let k = choose|k: int| #[trigger]
            innermost(before, p, k) && after == before.update(k, after[k]) && part_merged(
                before[k],
                after[k],
                p,
                list,
                r,
            );
        assert(within(p, before[k].root@));
    }
}

/// Every configured folder is served from the start, in its place: what the snapshot
/// holds of it, if it is the first of its name; and every folder that is to be left
/// out is.
pub proof fn configured_folders_are_served(
    c: Catalog,
    roots: Seq<Seq<char>>,
    previous: Seq<(String, Index)>,
    exclude: Seq<Seq<char>>,
    i: int,
    j: int,
)
    requires
        restored(c, roots, previous, exclude),
    ensures
        c.parts@.len() == roots.len(),
        0 <= i < roots.len() ==> c.parts@[i].root@ == roots[i],
        0 <= i < roots.len() && !roots.take(i).contains(roots[i]) && 0 <= j < previous.len()
            && previous[j].0@ == roots[i] && (forall|k: int|
            j < k < previous.len() ==> (#[trigger] previous[k]).0@ != roots[i])
            ==> c.parts@[i].index@ == previous[j].1@,
        c.exclude@.len() == exclude.len(),
        0 <= i < exclude.len() ==> c.exclude@[i]@ == exclude[i],
{
    if 0 <= i < roots.len() {
        assert(c.parts@[i].root@ == roots[i]);
        if !roots.take(i).contains(roots[i]) && 0 <= j < previous.len() && previous[j].0@
            == roots[i] && (forall|k: int|
            j < k < previous.len() ==> (#[trigger] previous[k]).0@ != roots[i]) {
            snapshots_are_served_at_once(roots, previous, i, j);
        }
    }
    assert(texts(c.exclude@).len() == c.exclude@.len());
    if 0 <= i < exclude.len() {
        assert(texts(c.exclude@)[i] == c.exclude@[i]@);
    }
}

} // verus!
