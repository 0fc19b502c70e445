//! Checking the settings.
//!
//! What the filesystem says of each folder is handed in; what follows from it
//! is decided here.

use vstd::prelude::*;
use vstd::utf8::encode_utf8;
use crate::config::{settings_of, Config, Settings, MAX_BYTES};
use crate::place::{
    complain, complaint, is_within, is_within_any, lexical, lexical_of, within, within_any,
};
use crate::text::{has_text, push_text, texts};

verus! {

/// What the filesystem says of a folder that must exist.
pub enum Probe {
    /// It cannot be resolved, and why.
    Missing(String),
    /// It resolves to something else.
    NotFolder,
    /// Its resolved path, as it can be shown, is not valid UTF-8.
    NotUtf8(String),
    /// Its resolved path, and the device it is on.
    Folder(String, u64),
}

/// What the filesystem says of a folder that need not exist.
pub enum Resolution {
    /// There is none, or it cannot be reached.
    Unknown,
    /// Its resolved path, as it can be shown, is not valid UTF-8.
    NotUtf8(String),
    /// Its resolved path.
    Path(String),
}

/// A resolved folder: its path and its device.
pub type Place = (Seq<char>, u64);

/// The paths of places.
pub open spec fn paths(places: Seq<Place>) -> Seq<Seq<char>> {
    Seq::new(places.len(), |i: int| places[i].0)
}

/// Canonical form of an existing folder, or why there is none.
pub open spec fn existing(p: Seq<char>, what: Seq<char>, probe: Probe) -> Result<
    Place,
    Seq<char>,
> {
    match lexical_of(p, what) {
        Err(e) => Err(e),
        Ok(_) => match probe {
            Probe::Missing(e) => Err(complaint(what, p, ": "@) + e@),
            Probe::NotFolder => Err(complaint(what, p, " is not a folder"@)),
            Probe::NotUtf8(shown) => Err(shown@ + " is not valid UTF-8"@),
            Probe::Folder(path, dev) => Ok((path@, dev)),
        },
    }
}

/// Canonical form of an excluded folder, which need not exist (yet); it is
/// resolved if it does.
pub open spec fn excluded(p: Seq<char>, r: Resolution) -> Result<Seq<char>, Seq<char>> {
    match r {
        Resolution::Unknown => lexical_of(p, "excluded folder"@),
        Resolution::NotUtf8(shown) => Err(shown@ + " is not valid UTF-8"@),
        Resolution::Path(path) => Ok(path@),
    }
}

/// The first `k` folders, resolved, each once.
pub open spec fn gathered(
    list: Seq<Seq<char>>,
    what: Seq<char>,
    probes: Seq<Probe>,
    k: nat,
) -> Result<Seq<Place>, Seq<char>>
    decreases k,
{
    if k == 0 {
        Ok(seq![])
    } else {
        match gathered(list, what, probes, (k - 1) as nat) {
            Err(e) => Err(e),
            Ok(done) => match existing(list[k - 1], what, probes[k - 1]) {
                Err(e) => Err(e),
                Ok(place) => if paths(done).contains(place.0) {
                    Ok(done)
                } else {
                    Ok(done.push(place))
                },
            },
        }
    }
}

/// How many bytes a path takes.
pub open spec fn size(p: Place) -> nat {
    encode_utf8(p.0).len()
}

/// `place` behind everything that is no longer than it.
pub open spec fn filed(sorted: Seq<Place>, place: Place) -> Seq<Place>
    decreases sorted.len(),
{
    if sorted.len() == 0 || size(sorted.last()) <= size(place) {
        sorted.push(place)
    } else {
        filed(sorted.drop_last(), place).push(sorted.last())
    }
}

/// The first `k` places, shortest path first, otherwise in their order.
pub open spec fn by_size(places: Seq<Place>, k: nat) -> Seq<Place>
    decreases k,
{
    if k == 0 {
        seq![]
    } else {
        filed(by_size(places, (k - 1) as nat), places[k - 1])
    }
}

/// The first of `kept` that holds `place`, on the same filesystem.
pub open spec fn holder(kept: Seq<Place>, place: Place) -> Option<Place>
    decreases kept.len(),
{
    if kept.len() == 0 {
        None
    } else {
        match holder(kept.drop_last(), place) {
            Some(k) => Some(k),
            None => if within(place.0, kept.last().0) && kept.last().1 == place.1 {
                Some(kept.last())
            } else {
                None
            },
        }
    }
}

/// The first `k` places without those that another one already holds, and a
/// note on each of these.
pub open spec fn outermost(places: Seq<Place>, k: nat) -> (Seq<Place>, Seq<Seq<char>>)
    decreases k,
{
    if k == 0 {
        (seq![], seq![])
    } else {
        let (kept, notes) = outermost(places, (k - 1) as nat);
        let place = places[k - 1];
        match holder(kept, place) {
            Some(outer) => (
                kept,
                notes.push(place.0 + " is already indexed as part of "@ + outer.0),
            ),
            None => (kept.push(place), notes),
        }
    }
}

/// The first `k` network folders, each inside a root, each once.
pub open spec fn grafts(
    list: Seq<Seq<char>>,
    probes: Seq<Probe>,
    roots: Seq<Seq<char>>,
    k: nat,
) -> Result<Seq<Seq<char>>, Seq<char>>
    decreases k,
{
    if k == 0 {
        Ok(seq![])
    } else {
        match grafts(list, probes, roots, (k - 1) as nat) {
            Err(e) => Err(e),
            Ok(done) => match existing(list[k - 1], "network folder"@, probes[k - 1]) {
                Err(e) => Err(e),
                Ok((p, dev)) => if !within_any(p, roots) {
                    Err(
                        complaint(
                            "network folder"@,
                            p,
                            " must be inside one of the folders to index"@,
                        ),
                    )
                } else if done.contains(p) {
                    Ok(done)
                } else {
                    Ok(done.push(p))
                },
            },
        }
    }
}

/// The first `k` excluded folders, each inside a root and none itself a root,
/// each once, and a note on each that lies outside.
pub open spec fn exclusions(
    list: Seq<Seq<char>>,
    found: Seq<Resolution>,
    roots: Seq<Seq<char>>,
    k: nat,
) -> Result<(Seq<Seq<char>>, Seq<Seq<char>>), Seq<char>>
    decreases k,
{
    if k == 0 {
        Ok((seq![], seq![]))
    } else {
        match exclusions(list, found, roots, (k - 1) as nat) {
            Err(e) => Err(e),
            Ok((done, notes)) => match excluded(list[k - 1], found[k - 1]) {
                Err(e) => Err(e),
                Ok(p) => if roots.contains(p) {
                    Err(p + " is both indexed and excluded"@)
                } else if !within_any(p, roots) {
                    Ok((done, notes.push(p + " is not inside an indexed folder; ignored"@)))
                } else if done.contains(p) {
                    Ok((done, notes))
                } else {
                    Ok((done.push(p), notes))
                },
            },
        }
    }
}

/// What was found of every folder that the settings name.
pub struct Findings {
    pub roots: Vec<Probe>,
    pub rescan: Vec<Probe>,
    pub exclude: Vec<Resolution>,
}

impl Findings {
    /// One finding for each folder.
    pub open spec fn fits(&self, c: Settings) -> bool {
        &&& self.roots@.len() == c.roots.len()
        &&& self.rescan@.len() == c.rescan.len()
        &&& self.exclude@.len() == c.exclude.len()
    }
}

/// The checked settings and the notes on what was dropped; or why the settings
/// are refused.
pub open spec fn checked(c: Settings, f: Findings) -> Result<
    (Settings, Seq<Seq<char>>),
    Seq<char>,
> {
    if !(60 <= c.interval <= 604800) {
        Err("rescan interval must be between 1 minute and 7 days"@)
    } else {
        match gathered(c.roots, "folder to index"@, f.roots@, c.roots.len()) {
            Err(e) => Err(e),
            Ok(places) => if places.len() == 0 {
                Err("choose at least one folder to index"@)
            } else {
                let (kept, notes) = outermost(by_size(places, places.len()), places.len());
                let roots = paths(kept);
                match grafts(c.rescan, f.rescan@, roots, c.rescan.len()) {
                    Err(e) => Err(e),
                    Ok(rescan) => match exclusions(c.exclude, f.exclude@, roots, c.exclude.len()) {
                        Err(e) => Err(e),
                        Ok((exclude, more)) => Ok(
                            (
                                Settings { roots, rescan, exclude, interval: c.interval },
                                notes + more,
                            ),
                        ),
                    },
                }
            },
        }
    }
}

// The working form: two lists side by side.

/// Paths and devices as places.
pub open spec fn places_of(p: Seq<String>, dev: Seq<u64>) -> Seq<Place> {
    Seq::new(p.len(), |i: int| (p[i]@, dev[i]))
}

proof fn lemma_places_push(p: Seq<String>, dev: Seq<u64>, s: String, d: u64)
    requires
        p.len() == dev.len(),
    ensures
        places_of(p.push(s), dev.push(d)) == places_of(p, dev).push((s@, d)),
        paths(places_of(p, dev)) == texts(p),
{
    assert(places_of(p.push(s), dev.push(d)) =~= places_of(p, dev).push((s@, d)));
    assert(paths(places_of(p, dev)) =~= texts(p));
}

proof fn lemma_gather_stops(
    list: Seq<Seq<char>>,
    what: Seq<char>,
    probes: Seq<Probe>,
    j: nat,
    k: nat,
)
    requires
        j <= k,
        gathered(list, what, probes, j) is Err,
    ensures
        gathered(list, what, probes, k) == gathered(list, what, probes, j),
    decreases k,
{
    if j < k {
        lemma_gather_stops(list, what, probes, j, (k - 1) as nat);
    }
}

proof fn lemma_grafts_stop(
    list: Seq<Seq<char>>,
    probes: Seq<Probe>,
    roots: Seq<Seq<char>>,
    j: nat,
    k: nat,
)
    requires
        j <= k,
        grafts(list, probes, roots, j) is Err,
    ensures
        grafts(list, probes, roots, k) == grafts(list, probes, roots, j),
    decreases k,
{
    if j < k {
        lemma_grafts_stop(list, probes, roots, j, (k - 1) as nat);
    }
}

proof fn lemma_exclusions_stop(
    list: Seq<Seq<char>>,
    found: Seq<Resolution>,
    roots: Seq<Seq<char>>,
    j: nat,
    k: nat,
)
    requires
        j <= k,
        exclusions(list, found, roots, j) is Err,
    ensures
        exclusions(list, found, roots, k) == exclusions(list, found, roots, j),
    decreases k,
{
    if j < k {
        lemma_exclusions_stop(list, found, roots, j, (k - 1) as nat);
    }
}

/// Canonical form of an existing folder.
pub fn existing_dir(p: &str, what: &str, probe: &Probe) -> (r: Result<(String, u64), String>)
    ensures
        match r {
            Ok((path, dev)) => existing(p@, what@, *probe) == Ok::<_, Seq<char>>((path@, dev)),
            Err(e) => existing(p@, what@, *probe) == Err::<Place, _>(e@),
        },
{
    match lexical(p, what) {
        Err(e) => {
            return Err(e);
        },
        Ok(_) => {},
    }
    match probe {
        Probe::Missing(why) => {
            let mut e = complain(what, p, ": ");
            push_text(&mut e, why.as_str());
            Err(e)
        },
        Probe::NotFolder => Err(complain(what, p, " is not a folder")),
        Probe::NotUtf8(shown) => {
            let mut e = shown.clone();
            push_text(&mut e, " is not valid UTF-8");
            Err(e)
        },
        Probe::Folder(path, dev) => Ok((path.clone(), *dev)),
    }
}

/// Canonical form of an excluded folder.
fn excluded_dir(p: &str, r: &Resolution) -> (out: Result<String, String>)
    ensures
        match out {
            Ok(path) => excluded(p@, *r) == Ok::<_, Seq<char>>(path@),
            Err(e) => excluded(p@, *r) == Err::<Seq<char>, _>(e@),
        },
{
    match r {
        Resolution::Unknown => lexical(p, "excluded folder"),
        Resolution::NotUtf8(shown) => {
            let mut e = shown.clone();
            push_text(&mut e, " is not valid UTF-8");
            Err(e)
        },
        Resolution::Path(path) => Ok(path.clone()),
    }
}

/// Every folder to index, resolved, each once.
fn gather(list: &Vec<String>, probes: &Vec<Probe>) -> (r: Result<(Vec<String>, Vec<u64>), String>)
    requires
        list@.len() == probes@.len(),
    ensures
        match r {
            Ok((p, dev)) => {
                &&& p@.len() == dev@.len()
                &&& gathered(texts(list@), "folder to index"@, probes@, list@.len()) == Ok::<
                    _,
                    Seq<char>,
                >(places_of(p@, dev@))
            },
            Err(e) => gathered(texts(list@), "folder to index"@, probes@, list@.len()) == Err::<
                Seq<Place>,
                _,
            >(e@),
        },
{
    let ghost what = "folder to index"@;
    let mut p: Vec<String> = Vec::new();
    let mut dev: Vec<u64> = Vec::new();
    let mut i: usize = 0;
    assert(places_of(p@, dev@) =~= Seq::<Place>::empty());
    while i < list.len()
        invariant
            i <= list.len(),
            what == "folder to index"@,
            list@.len() == probes@.len(),
            p@.len() == dev@.len(),
            gathered(texts(list@), what, probes@, i as nat) == Ok::<_, Seq<char>>(
                places_of(p@, dev@),
            ),
        decreases list.len() - i,
    {
        assert(texts(list@)[i as int] == list@[i as int]@);
        match existing_dir(list[i].as_str(), "folder to index", &probes[i]) {
            Err(e) => {
                proof {
                    lemma_gather_stops(texts(list@), what, probes@, (i + 1) as nat, list@.len());
                }
                return Err(e);
            },
            Ok((path, d)) => {
                proof {
                    lemma_places_push(p@, dev@, path, d);
                }
                if !has_text(&p, path.as_str()) {
                    p.push(path);
                    dev.push(d);
                }
            },
        }
        i = i + 1;
    }
    Ok((p, dev))
}

/// Files `path` into the lists, which are sorted by length.
fn file(p: &mut Vec<String>, dev: &mut Vec<u64>, path: String, d: u64)
    requires
        old(p)@.len() == old(dev)@.len(),
    ensures
        final(p)@.len() == final(dev)@.len() == old(p)@.len() + 1,
        places_of(final(p)@, final(dev)@) == filed(places_of(old(p)@, old(dev)@), (path@, d)),
{
    let ghost all = places_of(p@, dev@);
    let ghost place = (path@, d);
    let mut at: usize = p.len();
    assert(all.take(at as int) =~= all);
    assert(filed(all.take(at as int), place) + all.skip(at as int) =~= filed(all, place));
    while at > 0 && p[at - 1].as_str().as_bytes().len() > path.as_str().as_bytes().len()
        invariant
            at <= p.len(),
            p@.len() == dev@.len(),
            p@ == old(p)@,
            dev@ == old(dev)@,
            all == places_of(p@, dev@),
            place == (path@, d),
            filed(all.take(at as int), place) + all.skip(at as int) == filed(all, place),
        decreases at,
    {
        proof {
            let head = all.take(at as int);
            assert(all[at - 1] == (p@[at - 1]@, dev@[at - 1]));
            assert(size(all[at - 1]) > size(place));
            assert(head.last() == all[at - 1]);
            assert(head.drop_last() =~= all.take(at - 1));
            let tail = all.skip(at as int);
            assert(filed(all.take(at - 1), place).push(all[at - 1]) + tail =~= filed(
                all.take(at - 1),
                place,
            ) + all.skip(at - 1));
        }
        at = at - 1;
    }
    proof {
        if at > 0 {
            assert(all[at - 1] == (p@[at - 1]@, dev@[at - 1]));
            assert(size(all[at - 1]) <= size(place));
        }
    }
    p.insert(at, path);
    dev.insert(at, d);
    proof {
        let head = all.take(at as int);
        if at > 0 {
            assert(head.last() == all[at - 1]);
        }
        assert(filed(head, place) == head.push(place));
        assert(places_of(p@, dev@) =~= head.push(place) + all.skip(at as int));
    }
}

/// Shortest path first.
fn sort_by_size(p: Vec<String>, dev: Vec<u64>) -> (r: (Vec<String>, Vec<u64>))
    requires
        p@.len() == dev@.len(),
    ensures
        r.0@.len() == r.1@.len() == p@.len(),
        places_of(r.0@, r.1@) == by_size(places_of(p@, dev@), p@.len()),
{
    let mut sp: Vec<String> = Vec::new();
    let mut sd: Vec<u64> = Vec::new();
    let mut i: usize = 0;
    assert(places_of(sp@, sd@) =~= Seq::<Place>::empty());
    while i < p.len()
        invariant
            i <= p.len(),
            p@.len() == dev@.len(),
            sp@.len() == sd@.len() == i,
            places_of(sp@, sd@) == by_size(places_of(p@, dev@), i as nat),
        decreases p.len() - i,
    {
        assert(places_of(p@, dev@)[i as int] == (p@[i as int]@, dev@[i as int]));
        file(&mut sp, &mut sd, p[i].clone(), dev[i]);
        i = i + 1;
    }
    (sp, sd)
}

/// The first root that already holds `path`.
fn find_holder(p: &Vec<String>, dev: &Vec<u64>, path: &str, d: u64) -> (r: Option<usize>)
    requires
        p@.len() == dev@.len(),
    ensures
        match r {
            Some(i) => i < p@.len() && holder(places_of(p@, dev@), (path@, d)) == Some(
                places_of(p@, dev@)[i as int],
            ),
            None => holder(places_of(p@, dev@), (path@, d)) is None,
        },
{
    let ghost all = places_of(p@, dev@);
    let ghost place = (path@, d);
    let mut i: usize = 0;
    while i < p.len()
        invariant
            i <= p.len(),
            p@.len() == dev@.len(),
            all == places_of(p@, dev@),
            place == (path@, d),
            holder(all.take(i as int), place) is None,
        decreases p.len() - i,
    {
        proof {
            assert(all.take(i + 1).drop_last() =~= all.take(i as int));
            assert(all.take(i + 1).last() == all[i as int]);
        }
        if is_within(path, p[i].as_str()) && dev[i] == d {
            proof {
                lemma_holder_stays(all, place, i as int + 1);
            }
            return Some(i);
        }
        i = i + 1;
    }
    assert(all.take(i as int) =~= all);
    None
}

proof fn lemma_holder_stays(kept: Seq<Place>, place: Place, k: int)
    requires
        0 <= k <= kept.len(),
        holder(kept.take(k), place) is Some,
    ensures
        holder(kept, place) == holder(kept.take(k), place),
    decreases kept.len(),
{
    if k < kept.len() {
        assert(kept.drop_last().take(k) =~= kept.take(k));
        lemma_holder_stays(kept.drop_last(), place, k);
    } else {
        assert(kept.take(k) =~= kept);
    }
}

/// Drops what another root already holds, with a note on each.
fn keep_outermost(p: Vec<String>, dev: Vec<u64>) -> (r: (Vec<String>, Vec<String>))
    requires
        p@.len() == dev@.len(),
    ensures
        ({
            let (kept, notes) = outermost(places_of(p@, dev@), p@.len());
            texts(r.0@) == paths(kept) && texts(r.1@) == notes
        }),
{
    let ghost all = places_of(p@, dev@);
    let mut kp: Vec<String> = Vec::new();
    let mut kd: Vec<u64> = Vec::new();
    let mut notes: Vec<String> = Vec::new();
    let mut i: usize = 0;
    assert(places_of(kp@, kd@) =~= Seq::<Place>::empty());
    assert(texts(notes@) =~= Seq::<Seq<char>>::empty());
    while i < p.len()
        invariant
            i <= p.len(),
            p@.len() == dev@.len(),
            all == places_of(p@, dev@),
            kp@.len() == kd@.len(),
            outermost(all, i as nat) == (places_of(kp@, kd@), texts(notes@)),
        decreases p.len() - i,
    {
        assert(all[i as int] == (p@[i as int]@, dev@[i as int]));
        match find_holder(&kp, &kd, p[i].as_str(), dev[i]) {
            Some(k) => {
                let ghost before = texts(notes@);
                let mut note = p[i].clone();
                push_text(&mut note, " is already indexed as part of ");
                push_text(&mut note, kp[k].as_str());
                notes.push(note);
                assert(texts(notes@) =~= before.push(note@));
            },
            None => {
                proof {
                    lemma_places_push(kp@, kd@, p@[i as int], dev@[i as int]);
                }
                let s = p[i].clone();
                proof {
                    lemma_places_push(kp@, kd@, s, dev@[i as int]);
                }
                kp.push(s);
                kd.push(dev[i]);
            },
        }
        i = i + 1;
    }
    assert(paths(places_of(kp@, kd@)) =~= texts(kp@));
    (kp, notes)
}

/// Every network folder, each inside a root, each once.
fn check_rescan(list: &Vec<String>, probes: &Vec<Probe>, roots: &Vec<String>) -> (r: Result<
    Vec<String>,
    String,
>)
    requires
        list@.len() == probes@.len(),
    ensures
        match r {
            Ok(out) => grafts(texts(list@), probes@, texts(roots@), list@.len()) == Ok::<
                _,
                Seq<char>,
            >(texts(out@)),
            Err(e) => grafts(texts(list@), probes@, texts(roots@), list@.len()) == Err::<
                Seq<Seq<char>>,
                _,
            >(e@),
        },
{
    let ghost all = texts(list@);
    let ghost rs = texts(roots@);
    let mut out: Vec<String> = Vec::new();
    let mut i: usize = 0;
    assert(texts(out@) =~= Seq::<Seq<char>>::empty());
    while i < list.len()
        invariant
            i <= list.len(),
            list@.len() == probes@.len(),
            all == texts(list@),
            rs == texts(roots@),
            grafts(all, probes@, rs, i as nat) == Ok::<_, Seq<char>>(texts(out@)),
        decreases list.len() - i,
    {
        assert(all[i as int] == list@[i as int]@);
        match existing_dir(list[i].as_str(), "network folder", &probes[i]) {
            Err(e) => {
                proof {
                    lemma_grafts_stop(all, probes@, rs, (i + 1) as nat, list@.len());
                }
                return Err(e);
            },
            Ok((p, _dev)) => {
                if !is_within_any(p.as_str(), roots) {
                    proof {
                        lemma_grafts_stop(all, probes@, rs, (i + 1) as nat, list@.len());
                    }
                    return Err(
                        complain(
                            "network folder",
                            p.as_str(),
                            " must be inside one of the folders to index",
                        ),
                    );
                }
                if !has_text(&out, p.as_str()) {
                    let ghost before = texts(out@);
                    out.push(p);
                    assert(texts(out@) =~= before.push(p@));
                }
            },
        }
        i = i + 1;
    }
    Ok(out)
}

/// Every excluded folder that lies inside a root, and notes on the others.
fn check_exclude(list: &Vec<String>, found: &Vec<Resolution>, roots: &Vec<String>) -> (r: Result<
    (Vec<String>, Vec<String>),
    String,
>)
    requires
        list@.len() == found@.len(),
    ensures
        match r {
            Ok((out, notes)) => exclusions(texts(list@), found@, texts(roots@), list@.len())
                == Ok::<_, Seq<char>>((texts(out@), texts(notes@))),
            Err(e) => exclusions(texts(list@), found@, texts(roots@), list@.len()) == Err::<
                (Seq<Seq<char>>, Seq<Seq<char>>),
                _,
            >(e@),
        },
{
    let ghost all = texts(list@);
    let ghost rs = texts(roots@);
    let mut out: Vec<String> = Vec::new();
    let mut notes: Vec<String> = Vec::new();
    let mut i: usize = 0;
    assert(texts(out@) =~= Seq::<Seq<char>>::empty());
    assert(texts(notes@) =~= Seq::<Seq<char>>::empty());
    while i < list.len()
        invariant
            i <= list.len(),
            list@.len() == found@.len(),
            all == texts(list@),
            rs == texts(roots@),
            exclusions(all, found@, rs, i as nat) == Ok::<_, Seq<char>>(
                (texts(out@), texts(notes@)),
            ),
        decreases list.len() - i,
    {
        assert(all[i as int] == list@[i as int]@);
        let p = match excluded_dir(list[i].as_str(), &found[i]) {
            Err(e) => {
                proof {
                    lemma_exclusions_stop(all, found@, rs, (i + 1) as nat, list@.len());
                }
                return Err(e);
            },
            Ok(p) => p,
        };
        if has_text(roots, p.as_str()) {
            proof {
                lemma_exclusions_stop(all, found@, rs, (i + 1) as nat, list@.len());
            }
            let mut e = p;
            push_text(&mut e, " is both indexed and excluded");
            return Err(e);
        }
        if !is_within_any(p.as_str(), roots) {
            let ghost before = texts(notes@);
            let mut note = p;
            push_text(&mut note, " is not inside an indexed folder; ignored");
            notes.push(note);
            assert(texts(notes@) =~= before.push(note@));
        } else if !has_text(&out, p.as_str()) {
            let ghost before = texts(out@);
            out.push(p);
            assert(texts(out@) =~= before.push(p@));
        }
        i = i + 1;
    }
    Ok((out, notes))
}

/// Appends every text of `more`.
fn append_texts(list: &mut Vec<String>, more: &Vec<String>)
    ensures
        texts(final(list)@) == texts(old(list)@) + texts(more@),
{
    let mut i: usize = 0;
    assert(texts(list@) =~= texts(old(list)@) + texts(more@).take(0));
    while i < more.len()
        invariant
            i <= more.len(),
            texts(list@) == texts(old(list)@) + texts(more@).take(i as int),
        decreases more.len() - i,
    {
        let ghost before = texts(list@);
        let s = more[i].clone();
        list.push(s);
        proof {
            assert(texts(list@) =~= before.push(s@));
            assert(texts(more@).take(i + 1) =~= texts(more@).take(i as int).push(
                texts(more@)[i as int],
            ));
        }
        i = i + 1;
    }
    assert(texts(more@).take(i as int) =~= texts(more@));
}

impl Config {
    /// Checks everything the daemon relies on, and normalises in place:
    /// absolute paths without `..`, symlinks resolved, duplicates removed.
    /// A root inside another root on the same filesystem would be indexed
    /// twice, so it is dropped; one on a different filesystem (a separate
    /// mount) is kept, since the outer walk stops at mount points. Network
    /// folders must lie inside a root, as their listing is grafted into that
    /// root's tree. Returns a note for everything dropped.
    pub fn validate(&mut self, found: &Findings) -> (r: Result<Vec<String>, String>)
        requires
            found.fits(old(self)@),
        ensures
            match r {
                Ok(notes) => checked(old(self)@, *found) == Ok::<_, Seq<char>>(
                    (final(self)@, texts(notes@)),
                ),
                Err(e) => {
                    &&& checked(old(self)@, *found) == Err::<(Settings, Seq<Seq<char>>), _>(e@)
                    &&& *final(self) == *old(self)
                },
            },
    {
        if self.rescan_interval < 60 || self.rescan_interval > 604800 {
            return Err("rescan interval must be between 1 minute and 7 days".to_owned());
        }
        let (p, dev) = match gather(&self.roots, &found.roots) {
            Ok(x) => x,
            Err(e) => {
                return Err(e);
            },
        };
        if p.len() == 0 {
            return Err("choose at least one folder to index".to_owned());
        }
        // Outermost first, so a nested root is compared with its container.
        let (sp, sd) = sort_by_size(p, dev);
        let (kept, mut notes) = keep_outermost(sp, sd);
        let rescan = match check_rescan(&self.rescan, &found.rescan, &kept) {
            Ok(x) => x,
            Err(e) => {
                return Err(e);
            },
        };
        let (exclude, more) = match check_exclude(&self.exclude, &found.exclude, &kept) {
            Ok(x) => x,
            Err(e) => {
                return Err(e);
            },
        };
        append_texts(&mut notes, &more);
        self.roots = kept;
        self.rescan = rescan;
        self.exclude = exclude;
        Ok(notes)
    }
}

// The daemon's lighter check.

/// The first `k` folders that are well formed, tidied, each once, and what is
/// said of the others.
pub open spec fn tidy_list(list: Seq<Seq<char>>, k: nat) -> (Seq<Seq<char>>, Seq<Seq<char>>)
    decreases k,
{
    if k == 0 {
        (seq![], seq![])
    } else {
        let (done, notes) = tidy_list(list, (k - 1) as nat);
        match lexical_of(list[k - 1], "folder"@) {
            Ok(p) => if done.contains(p) {
                (done, notes)
            } else {
                (done.push(p), notes)
            },
            Err(e) => (done, notes.push(e)),
        }
    }
}

pub open spec fn tidy_all(list: Seq<Seq<char>>) -> Seq<Seq<char>> {
    tidy_list(list, list.len()).0
}

pub open spec fn tidy_notes(list: Seq<Seq<char>>) -> Seq<Seq<char>> {
    tidy_list(list, list.len()).1
}

/// The settings with every list tidied, and what is said of it.
pub open spec fn normalized(c: Settings) -> (Settings, Seq<Seq<char>>) {
    (
        Settings {
            roots: tidy_all(c.roots),
            exclude: tidy_all(c.exclude),
            rescan: tidy_all(c.rescan),
            interval: c.interval,
        },
        tidy_notes(c.roots) + tidy_notes(c.exclude) + tidy_notes(c.rescan),
    )
}

/// What a settings file of any length says.
pub open spec fn settings_read(text: Seq<char>) -> Result<Settings, Seq<char>> {
    if encode_utf8(text).len() > MAX_BYTES {
        Err("settings too large"@)
    } else {
        settings_of(text)
    }
}

fn tidy(list: &Vec<String>, notes: &mut Vec<String>) -> (out: Vec<String>)
    ensures
        texts(out@) == tidy_all(texts(list@)),
        texts(final(notes)@) == texts(old(notes)@) + tidy_notes(texts(list@)),
{
    let ghost all = texts(list@);
    let ghost notes0 = texts(notes@);
    let mut out: Vec<String> = Vec::new();
    let mut i: usize = 0;
    assert(texts(out@) =~= Seq::<Seq<char>>::empty());
    assert(texts(notes@) =~= notes0 + tidy_list(all, 0).1);
    while i < list.len()
        invariant
            i <= list.len(),
            all == texts(list@),
            texts(out@) == tidy_list(all, i as nat).0,
            texts(notes@) == notes0 + tidy_list(all, i as nat).1,
        decreases list.len() - i,
    {
        assert(all[i as int] == list@[i as int]@);
        match lexical(list[i].as_str(), "folder") {
            Ok(p) => {
                if !has_text(&out, p.as_str()) {
                    let ghost before = texts(out@);
                    out.push(p);
                    assert(texts(out@) =~= before.push(p@));
                }
            },
            Err(e) => {
                let ghost before = texts(notes@);
                notes.push(e);
                assert(texts(notes@) =~= before.push(e@));
                assert(texts(notes@) =~= notes0 + tidy_list(all, (i + 1) as nat).1);
            },
        }
        i = i + 1;
    }
    out
}

impl Config {
    /// The daemon's lighter check. It trusts what was validated, but must keep
    /// running when a folder is missing (a disk not plugged in) or unreadable
    /// to root (a FUSE mount without allow_other), so nothing here touches the
    /// filesystem: paths are normalised, repeats dropped, and a malformed path
    /// is dropped with a note.
    pub fn normalize(&mut self) -> (notes: Vec<String>)
        ensures
            (final(self)@, texts(notes@)) == normalized(old(self)@),
    {
        let mut notes: Vec<String> = Vec::new();
        let roots = tidy(&self.roots, &mut notes);
        let exclude = tidy(&self.exclude, &mut notes);
        let rescan = tidy(&self.rescan, &mut notes);
        self.roots = roots;
        self.exclude = exclude;
        self.rescan = rescan;
        assert(texts(notes@) =~= tidy_notes(old(self)@.roots) + tidy_notes(old(self)@.exclude)
            + tidy_notes(old(self)@.rescan));
        notes
    }

    /// What a file handed in for installation says, unless it is too large.
    pub fn read_text(text: &str) -> (r: Result<Config, String>)
        ensures
            match r {
                Ok(c) => settings_read(text@) == Ok::<_, Seq<char>>(c@),
                Err(e) => settings_read(text@) == Err::<Settings, _>(e@),
            },
    {
        if text.as_bytes().len() as u64 > MAX_BYTES {
            return Err("settings too large".to_owned());
        }
        Config::parse(text)
    }
}

// What the check promises.

proof fn lemma_outermost_apart(places: Seq<Place>, k: nat, i: int, j: int)
    requires
        k <= places.len(),
        0 <= i < j < outermost(places, k).0.len(),
    ensures
        ({
            let kept = outermost(places, k).0;
            within(kept[j].0, kept[i].0) ==> kept[i].1 != kept[j].1
        }),
    decreases k,
{
    if k > 0 {
        let before = outermost(places, (k - 1) as nat).0;
        let kept = outermost(places, k).0;
        if j < before.len() {
            lemma_outermost_apart(places, (k - 1) as nat, i, j);
            assert(kept[i] == before[i] && kept[j] == before[j]);
        } else {
            let place = places[k - 1];
            assert(kept[j] == place);
            assert(kept[i] == before[i]);
            if within(place.0, before[i].0) && before[i].1 == place.1 {
                lemma_holder_found(before, place, i);
            }
        }
    }
}

proof fn lemma_holder_found(kept: Seq<Place>, place: Place, i: int)
    requires
        0 <= i < kept.len(),
        within(place.0, kept[i].0),
        kept[i].1 == place.1,
    ensures
        holder(kept, place) is Some,
    decreases kept.len(),
{
    if i < kept.len() - 1 {
        lemma_holder_found(kept.drop_last(), place, i);
    }
}

/// Once each.
pub open spec fn distinct(list: Seq<Seq<char>>) -> bool {
    forall|i: int, j: int| 0 <= i < j < list.len() ==> #[trigger] list[i] != #[trigger] list[j]
}

proof fn lemma_distinct_push(list: Seq<Seq<char>>, p: Seq<char>)
    requires
        distinct(list),
        !list.contains(p),
    ensures
        distinct(list.push(p)),
{
    let more = list.push(p);
    assert forall|i: int, j: int| 0 <= i < j < more.len() implies #[trigger] more[i]
        != #[trigger] more[j] by {
        assert(list.contains(list[i]));
    }
}

proof fn lemma_grafts(
    list: Seq<Seq<char>>,
    probes: Seq<Probe>,
    roots: Seq<Seq<char>>,
    k: nat,
)
    requires
        grafts(list, probes, roots, k) is Ok,
    ensures
        distinct(grafts(list, probes, roots, k)->Ok_0),
        forall|i: int|
            0 <= i < grafts(list, probes, roots, k)->Ok_0.len() ==> within_any(
                #[trigger] grafts(list, probes, roots, k)->Ok_0[i],
                roots,
            ),
    decreases k,
{
    if k > 0 {
        lemma_grafts(list, probes, roots, (k - 1) as nat);
        let done = grafts(list, probes, roots, (k - 1) as nat)->Ok_0;
        let p = existing(list[k - 1], "network folder"@, probes[k - 1])->Ok_0.0;
        if !done.contains(p) {
            lemma_distinct_push(done, p);
        }
    }
}

proof fn lemma_exclusions(
    list: Seq<Seq<char>>,
    found: Seq<Resolution>,
    roots: Seq<Seq<char>>,
    k: nat,
)
    requires
        exclusions(list, found, roots, k) is Ok,
    ensures
        ({
            let out = exclusions(list, found, roots, k)->Ok_0.0;
            &&& distinct(out)
            &&& forall|i: int|
                0 <= i < out.len() ==> within_any(#[trigger] out[i], roots) && !roots.contains(
                    out[i],
                )
        }),
    decreases k,
{
    if k > 0 {
        lemma_exclusions(list, found, roots, (k - 1) as nat);
        let done = exclusions(list, found, roots, (k - 1) as nat)->Ok_0.0;
        let p = excluded(list[k - 1], found[k - 1])->Ok_0;
        if !done.contains(p) {
            lemma_distinct_push(done, p);
        }
    }
}

proof fn lemma_some_outermost(places: Seq<Place>, k: nat)
    requires
        0 < k <= places.len(),
    ensures
        outermost(places, k).0.len() > 0,
    decreases k,
{
    if k > 1 {
        lemma_some_outermost(places, (k - 1) as nat);
    }
}

/// Settings that pass the check name at least one root, have every network
/// folder and every excluded folder inside a root, exclude no root, name
/// nothing twice, and keep the interval within its bounds.
pub proof fn checked_settings_are_sound(c: Settings, f: Findings)
    requires
        checked(c, f) is Ok,
    ensures
        ({
            let out = checked(c, f)->Ok_0.0;
            &&& out.roots.len() > 0
            &&& 60 <= out.interval <= 604800
            &&& distinct(out.roots)
            &&& distinct(out.rescan)
            &&& distinct(out.exclude)
            &&& forall|i: int|
                0 <= i < out.rescan.len() ==> within_any(#[trigger] out.rescan[i], out.roots)
            &&& forall|i: int|
                0 <= i < out.exclude.len() ==> within_any(#[trigger] out.exclude[i], out.roots)
                    && !out.roots.contains(out.exclude[i])
        }),
{
    let places = gathered(c.roots, "folder to index"@, f.roots@, c.roots.len())->Ok_0;
    let sorted = by_size(places, places.len());
    lemma_by_size(places, places.len());
    lemma_some_outermost(sorted, places.len());
    let roots = paths(outermost(sorted, places.len()).0);
    lemma_gathered_distinct(c.roots, "folder to index"@, f.roots@, c.roots.len());
    lemma_by_size_distinct(places, places.len());
    lemma_outermost_distinct(sorted, places.len());
    lemma_grafts(c.rescan, f.rescan@, roots, c.rescan.len());
    lemma_exclusions(c.exclude, f.exclude@, roots, c.exclude.len());
}

proof fn lemma_filed(sorted: Seq<Place>, place: Place)
    ensures
        filed(sorted, place).len() == sorted.len() + 1,
    decreases sorted.len(),
{
    if sorted.len() > 0 && size(sorted.last()) > size(place) {
        lemma_filed(sorted.drop_last(), place);
    }
}

proof fn lemma_by_size(places: Seq<Place>, k: nat)
    requires
        k <= places.len(),
    ensures
        by_size(places, k).len() == k,
    decreases k,
{
    if k > 0 {
        lemma_by_size(places, (k - 1) as nat);
        lemma_filed(by_size(places, (k - 1) as nat), places[k - 1]);
    }
}

/// The folders that stay, with their devices.
pub open spec fn kept_places(c: Settings, f: Findings) -> Seq<Place> {
    let places = gathered(c.roots, "folder to index"@, f.roots@, c.roots.len())->Ok_0;
    outermost(by_size(places, places.len()), places.len()).0
}

/// Of the folders that stay, none lies in an earlier one on the same
/// filesystem, so nothing is indexed twice; and an outer folder comes before
/// those inside it.
pub proof fn kept_roots_are_apart(c: Settings, f: Findings, i: int, j: int)
    requires
        checked(c, f) is Ok,
        0 <= i < j < checked(c, f)->Ok_0.0.roots.len(),
    ensures
        ({
            let kept = kept_places(c, f);
            &&& checked(c, f)->Ok_0.0.roots == paths(kept)
            &&& within(kept[j].0, kept[i].0) ==> kept[i].1 != kept[j].1
            &&& size(kept[i]) <= size(kept[j])
        }),
{
    let places = gathered(c.roots, "folder to index"@, f.roots@, c.roots.len())->Ok_0;
    let sorted = by_size(places, places.len());
    lemma_by_size(places, places.len());
    lemma_outermost_apart(sorted, places.len(), i, j);
    lemma_by_size_sorted(places, places.len());
    lemma_outermost_sorted(sorted, places.len(), i, j);
}

/// Shortest first.
spec fn ordered(places: Seq<Place>) -> bool {
    forall|i: int, j: int|
        0 <= i <= j < places.len() ==> size(#[trigger] places[i]) <= size(#[trigger] places[j])
}

proof fn lemma_filed_ordered(sorted: Seq<Place>, place: Place)
    requires
        ordered(sorted),
    ensures
        ordered(filed(sorted, place)),
        forall|i: int|
            0 <= i < filed(sorted, place).len() ==> size(#[trigger] filed(sorted, place)[i]) <= size(
                place,
            ) || sorted.contains(filed(sorted, place)[i]),
    decreases sorted.len(),
{
    let out = filed(sorted, place);
    if sorted.len() == 0 || size(sorted.last()) <= size(place) {
        assert forall|i: int, j: int| 0 <= i <= j < out.len() implies size(#[trigger] out[i])
            <= size(#[trigger] out[j]) by {
            if i < sorted.len() {
                assert(size(sorted[i]) <= size(sorted[sorted.len() - 1]));
            }
        }
    } else {
        let less = sorted.drop_last();
        let last = sorted.last();
        lemma_filed_ordered(less, place);
        let head = filed(less, place);
        assert forall|i: int| 0 <= i < head.len() implies size(#[trigger] head[i]) <= size(
            last,
        ) && (size(head[i]) <= size(place) || sorted.contains(head[i])) by {
            if size(head[i]) > size(place) {
                let k = choose|k: int| 0 <= k < less.len() && less[k] == head[i];
                assert(sorted[k] == head[i]);
                assert(size(sorted[k]) <= size(sorted[sorted.len() - 1]));
            }
        }
        assert(sorted.contains(last));
        assert forall|i: int, j: int| 0 <= i <= j < out.len() implies size(#[trigger] out[i])
            <= size(#[trigger] out[j]) by {
            if j < head.len() {
                assert(size(head[i]) <= size(head[j]));
            } else if i < head.len() {
                assert(size(head[i]) <= size(last));
            }
        }
    }
}

proof fn lemma_by_size_sorted(places: Seq<Place>, k: nat)
    requires
        k <= places.len(),
    ensures
        ordered(by_size(places, k)),
    decreases k,
{
    if k > 0 {
        lemma_by_size_sorted(places, (k - 1) as nat);
        lemma_filed_ordered(by_size(places, (k - 1) as nat), places[k - 1]);
    }
}

/// What stays is among the first `k` places.
proof fn lemma_outermost_from(places: Seq<Place>, k: nat, i: int)
    requires
        k <= places.len(),
        0 <= i < outermost(places, k).0.len(),
    ensures
        exists|j: int| 0 <= j < k && #[trigger] places[j] == outermost(places, k).0[i],
    decreases k,
{
    if k > 0 {
        let before = outermost(places, (k - 1) as nat).0;
        if i < before.len() {
            lemma_outermost_from(places, (k - 1) as nat, i);
        } else {
            assert(places[k - 1] == outermost(places, k).0[i]);
        }
    }
}

proof fn lemma_outermost_sorted(places: Seq<Place>, k: nat, i: int, j: int)
    requires
        k <= places.len(),
        ordered(places),
        0 <= i < j < outermost(places, k).0.len(),
    ensures
        size(outermost(places, k).0[i]) <= size(outermost(places, k).0[j]),
    decreases k,
{
    if k > 0 {
        let before = outermost(places, (k - 1) as nat).0;
        if j < before.len() {
            lemma_outermost_sorted(places, (k - 1) as nat, i, j);
        } else {
            lemma_outermost_from(places, (k - 1) as nat, i);
            let m = choose|m: int| 0 <= m < k - 1 && #[trigger] places[m] == before[i];
            assert(size(places[m]) <= size(places[k - 1]));
        }
    }
}

// Every path once.

proof fn lemma_gathered_distinct(
    list: Seq<Seq<char>>,
    what: Seq<char>,
    probes: Seq<Probe>,
    k: nat,
)
    requires
        gathered(list, what, probes, k) is Ok,
    ensures
        distinct(paths(gathered(list, what, probes, k)->Ok_0)),
    decreases k,
{
    if k > 0 {
        lemma_gathered_distinct(list, what, probes, (k - 1) as nat);
        let done = gathered(list, what, probes, (k - 1) as nat)->Ok_0;
        let place = existing(list[k - 1], what, probes[k - 1])->Ok_0;
        if !paths(done).contains(place.0) {
            lemma_distinct_push(paths(done), place.0);
            assert(paths(done.push(place)) =~= paths(done).push(place.0));
        }
    }
}

proof fn lemma_filed_distinct(sorted: Seq<Place>, place: Place)
    requires
        distinct(paths(sorted)),
        !paths(sorted).contains(place.0),
    ensures
        distinct(paths(filed(sorted, place))),
        forall|p: Seq<char>|
            #[trigger] paths(filed(sorted, place)).contains(p) ==> p == place.0 || paths(
                sorted,
            ).contains(p),
    decreases sorted.len(),
{
    let out = filed(sorted, place);
    if sorted.len() == 0 || size(sorted.last()) <= size(place) {
        lemma_distinct_push(paths(sorted), place.0);
        assert(paths(out) =~= paths(sorted).push(place.0));
    } else {
        let less = sorted.drop_last();
        let last = sorted.last();
        assert(paths(less) =~= paths(sorted).drop_last());
        assert(paths(sorted)[sorted.len() - 1] == last.0);
        lemma_filed_distinct(less, place);
        let head = filed(less, place);
        assert(!paths(head).contains(last.0)) by {
            if paths(less).contains(last.0) {
                let k = choose|k: int| 0 <= k < less.len() && paths(less)[k] == last.0;
                assert(paths(sorted)[k] == paths(sorted)[sorted.len() - 1]);
            }
            assert(paths(sorted).contains(last.0));
        }
        lemma_distinct_push(paths(head), last.0);
        assert(paths(out) =~= paths(head).push(last.0));
    }
    assert forall|p: Seq<char>| #[trigger] paths(out).contains(p) implies p == place.0 || paths(
        sorted,
    ).contains(p) by {
        let k = choose|k: int| 0 <= k < out.len() && paths(out)[k] == p;
        if sorted.len() == 0 || size(sorted.last()) <= size(place) {
            if k < sorted.len() {
                assert(paths(sorted)[k] == p);
            }
        } else {
            let less = sorted.drop_last();
            let head = filed(less, place);
            if k < head.len() {
                assert(paths(head)[k] == p);
                assert(paths(head).contains(p));
                if p != place.0 {
                    let m = choose|m: int| 0 <= m < less.len() && paths(less)[m] == p;
                    assert(paths(sorted)[m] == p);
                }
            } else {
                assert(paths(sorted)[sorted.len() - 1] == p);
            }
        }
    }
}

proof fn lemma_by_size_distinct(places: Seq<Place>, k: nat)
    requires
        k <= places.len(),
        distinct(paths(places)),
    ensures
        distinct(paths(by_size(places, k))),
        forall|p: Seq<char>|
            #[trigger] paths(by_size(places, k)).contains(p) ==> exists|j: int|
                0 <= j < k && (#[trigger] places[j]).0 == p,
    decreases k,
{
    if k > 0 {
        let m = (k - 1) as nat;
        lemma_by_size_distinct(places, m);
        let before = by_size(places, m);
        let place = places[k - 1];
        if paths(before).contains(place.0) {
            let j = choose|j: int| 0 <= j < m && (#[trigger] places[j]).0 == place.0;
            assert(paths(places)[j] == paths(places)[k - 1]);
        }
        lemma_filed_distinct(before, place);
        assert forall|p: Seq<char>| #[trigger] paths(by_size(places, k)).contains(p) implies exists|
            j: int,
        | 0 <= j < k && (#[trigger] places[j]).0 == p by {
            if p == place.0 {
                assert(places[k - 1].0 == p);
            } else {
                assert(paths(before).contains(p));
                let j = choose|j: int| 0 <= j < m && (#[trigger] places[j]).0 == p;
                assert(places[j].0 == p);
            }
        }
    }
}

proof fn lemma_outermost_distinct(places: Seq<Place>, k: nat)
    requires
        k <= places.len(),
        distinct(paths(places)),
    ensures
        distinct(paths(outermost(places, k).0)),
    decreases k,
{
    if k > 0 {
        let m = (k - 1) as nat;
        lemma_outermost_distinct(places, m);
        let before = outermost(places, m).0;
        let place = places[k - 1];
        if holder(before, place) is None {
            if paths(before).contains(place.0) {
                let i = choose|i: int| 0 <= i < before.len() && paths(before)[i] == place.0;
                lemma_outermost_from(places, m, i);
                let j = choose|j: int| 0 <= j < m && #[trigger] places[j] == before[i];
                assert(paths(places)[j] == paths(places)[k - 1]);
            }
            lemma_distinct_push(paths(before), place.0);
            assert(paths(before.push(place)) =~= paths(before).push(place.0));
        }
    }
}

// What becomes of every folder that is named.

/// The path that an excluded folder stands for: what it resolves to, or, where
/// nothing is there, the path as it is written, tidied.
pub open spec fn stands_for(given: Seq<char>, r: Resolution, p: Seq<char>) -> bool {
    match r {
        Resolution::Path(path) => path@ == p,
        Resolution::Unknown => lexical_of(given, "excluded folder"@) == Ok::<_, Seq<char>>(p),
        Resolution::NotUtf8(_) => false,
    }
}

proof fn lemma_gathered_all(list: Seq<Seq<char>>, what: Seq<char>, probes: Seq<Probe>, k: nat)
    requires
        gathered(list, what, probes, k) is Ok,
    ensures
        ({
            let done = gathered(list, what, probes, k)->Ok_0;
            &&& forall|i: int|
                0 <= i < k ==> lexical_of(list[i], what) is Ok && (
                (#[trigger] probes[i]) matches Probe::Folder(p, _) && paths(done).contains(p@))
            &&& forall|j: int|
                0 <= j < done.len() ==> exists|i: int|
                    0 <= i < k && ((#[trigger] probes[i]) matches Probe::Folder(p, d) && (p@, d)
                        == #[trigger] done[j])
        }),
    decreases k,
{
    if k > 0 {
        let m = (k - 1) as nat;
        lemma_gathered_all(list, what, probes, m);
        let before = gathered(list, what, probes, m)->Ok_0;
        let done = gathered(list, what, probes, k)->Ok_0;
        let place = existing(list[k - 1], what, probes[k - 1])->Ok_0;
        assert forall|i: int| 0 <= i < k implies lexical_of(list[i], what) is Ok && (
        (#[trigger] probes[i]) matches Probe::Folder(p, _) && paths(done).contains(p@)) by {
            if i < m {
                assert(probes[i] is Folder);
                let p = probes[i]->Folder_0@;
                assert(paths(before).contains(p));
                let q = choose|q: int| 0 <= q < before.len() && paths(before)[q] == p;
                assert(paths(done)[q] == p);
            } else if !paths(before).contains(place.0) {
                assert(paths(done)[before.len() as int] == place.0);
            }
        }
        assert forall|j: int| 0 <= j < done.len() implies exists|i: int|
            0 <= i < k && ((#[trigger] probes[i]) matches Probe::Folder(p, d) && (p@, d)
                == #[trigger] done[j]) by {
            if j < before.len() {
                assert(before[j] == done[j]);
                let i = choose|i: int|
                    0 <= i < m && ((#[trigger] probes[i]) matches Probe::Folder(p, d) && (p@, d)
                        == before[j]);
                assert(probes[i] is Folder);
            } else {
                assert(probes[k - 1] is Folder);
            }
        }
    }
}

proof fn lemma_filed_all(sorted: Seq<Place>, place: Place)
    ensures
        forall|x: Place| #[trigger]
            filed(sorted, place).contains(x) <==> x == place || sorted.contains(x),
    decreases sorted.len(),
{
    let out = filed(sorted, place);
    if sorted.len() == 0 || size(sorted.last()) <= size(place) {
        assert forall|x: Place| #[trigger] out.contains(x) <==> x == place || sorted.contains(x) by {
            lemma_held_push(sorted, place, x);
        }
    } else {
        let less = sorted.drop_last();
        lemma_filed_all(less, place);
        assert(sorted =~= less.push(sorted.last()));
        assert forall|x: Place| #[trigger] out.contains(x) <==> x == place || sorted.contains(x) by {
            lemma_held_push(filed(less, place), sorted.last(), x);
            lemma_held_push(less, sorted.last(), x);
        }
    }
}

proof fn lemma_held_push<T>(s: Seq<T>, y: T, x: T)
    ensures
        s.push(y).contains(x) <==> x == y || s.contains(x),
{
    let t = s.push(y);
    if s.contains(x) {
        let i = choose|i: int| 0 <= i < s.len() && s[i] == x;
        assert(t[i] == x);
    }
    assert(t[s.len() as int] == y);
    if t.contains(x) && x != y {
        let i = choose|i: int| 0 <= i < t.len() && t[i] == x;
        assert(s[i] == x);
    }
}

proof fn lemma_by_size_all(places: Seq<Place>, k: nat)
    requires
        k <= places.len(),
    ensures
        forall|x: Place| #[trigger] by_size(places, k).contains(x) <==> places.take(
            k as int,
        ).contains(x),
    decreases k,
{
    if k == 0 {
        assert(places.take(0) =~= Seq::<Place>::empty());
    } else {
        let m = (k - 1) as nat;
        lemma_by_size_all(places, m);
        lemma_filed_all(by_size(places, m), places[k - 1]);
        assert(places.take(k as int) =~= places.take(m as int).push(places[k - 1]));
        assert forall|x: Place| #[trigger] by_size(places, k).contains(x) <==> places.take(
            k as int,
        ).contains(x) by {
            lemma_held_push(places.take(m as int), places[k - 1], x);
            assert(by_size(places, m).contains(x) <==> places.take(m as int).contains(x));
        }
    }
}

/// What is said of a folder that another one already holds.
pub open spec fn held_note(inner: Seq<char>, outer: Seq<char>) -> Seq<char> {
    inner + " is already indexed as part of "@ + outer
}

/// What is said of an excluded folder that lies nowhere.
pub open spec fn outside_note(p: Seq<char>) -> Seq<char> {
    p + " is not inside an indexed folder; ignored"@
}

/// There is a note that `place` lies in one of `kept` on the same device.
pub open spec fn noted(kept: Seq<Place>, notes: Seq<Seq<char>>, place: Place) -> bool {
    exists|j: int|
        0 <= j < kept.len() && within(place.0, (#[trigger] kept[j]).0) && kept[j].1 == place.1
            && notes.contains(held_note(place.0, kept[j].0))
}

proof fn lemma_holder(kept: Seq<Place>, place: Place)
    ensures
        holder(kept, place) matches Some(k) ==> exists|j: int|
            0 <= j < kept.len() && #[trigger] kept[j] == k && within(place.0, k.0) && k.1
                == place.1,
        holder(kept, place) is None ==> forall|j: int|
            0 <= j < kept.len() ==> !(within(place.0, (#[trigger] kept[j]).0) && kept[j].1
                == place.1),
    decreases kept.len(),
{
    if kept.len() > 0 {
        let less = kept.drop_last();
        lemma_holder(less, place);
        match holder(less, place) {
            Some(k) => {
                let j = choose|j: int|
                    0 <= j < less.len() && #[trigger] less[j] == k && within(place.0, k.0) && k.1
                        == place.1;
                assert(kept[j] == k);
            },
            None => {
                assert(kept[kept.len() - 1] == kept.last());
                assert forall|j: int| 0 <= j < kept.len() - 1 implies !(within(
                    place.0,
                    (#[trigger] kept[j]).0,
                ) && kept[j].1 == place.1) by {
                    assert(less[j] == kept[j]);
                }
            },
        }
    }
}

proof fn lemma_outermost_all(places: Seq<Place>, k: nat)
    requires
        k <= places.len(),
    ensures
        ({
            let (kept, notes) = outermost(places, k);
            &&& forall|i: int|
                0 <= i < k ==> kept.contains(#[trigger] places[i]) || noted(kept, notes, places[i])
            &&& forall|n: int|
                0 <= n < notes.len() ==> exists|i: int, j: int|
                    0 <= i < k && 0 <= j < kept.len() && #[trigger] notes[n] == held_note(
                        (#[trigger] places[i]).0,
                        (#[trigger] kept[j]).0,
                    ) && within(places[i].0, kept[j].0) && kept[j].1 == places[i].1
            &&& kept.len() + notes.len() == k
        }),
    decreases k,
{
    if k > 0 {
        let m = (k - 1) as nat;
        lemma_outermost_all(places, m);
        let (kept0, notes0) = outermost(places, m);
        let (kept, notes) = outermost(places, k);
        let place = places[k - 1];
        lemma_holder(kept0, place);
        assert forall|i: int| 0 <= i < k implies kept.contains(#[trigger] places[i]) || noted(
            kept,
            notes,
            places[i],
        ) by {
            if i < m {
                if kept0.contains(places[i]) {
                    let q = choose|q: int| 0 <= q < kept0.len() && kept0[q] == places[i];
                    assert(kept[q] == places[i]);
                } else {
                    let j = choose|j: int|
                        0 <= j < kept0.len() && within(places[i].0, (#[trigger] kept0[j]).0)
                            && kept0[j].1 == places[i].1 && notes0.contains(
                            held_note(places[i].0, kept0[j].0),
                        );
                    let note = held_note(places[i].0, kept0[j].0);
                    let q = choose|q: int| 0 <= q < notes0.len() && notes0[q] == note;
                    assert(notes[q] == note);
                    assert(kept[j] == kept0[j]);
                }
            } else {
                match holder(kept0, place) {
                    Some(outer) => {
                        let j = choose|j: int|
                            0 <= j < kept0.len() && #[trigger] kept0[j] == outer && within(
                                place.0,
                                outer.0,
                            ) && outer.1 == place.1;
                        assert(kept[j] == outer);
                        assert(notes[notes0.len() as int] == held_note(place.0, outer.0));
                    },
                    None => {
                        assert(kept[kept0.len() as int] == place);
                    },
                }
            }
        }
        assert forall|n: int| 0 <= n < notes.len() implies exists|i: int, j: int|
            0 <= i < k && 0 <= j < kept.len() && #[trigger] notes[n] == held_note(
                (#[trigger] places[i]).0,
                (#[trigger] kept[j]).0,
            ) && within(places[i].0, kept[j].0) && kept[j].1 == places[i].1 by {
            if n < notes0.len() {
                assert(notes0[n] == notes[n]);
                let (i, j) = choose|i: int, j: int|
                    0 <= i < m && 0 <= j < kept0.len() && notes0[n] == held_note(
                        (#[trigger] places[i]).0,
                        (#[trigger] kept0[j]).0,
                    ) && within(places[i].0, kept0[j].0) && kept0[j].1 == places[i].1;
                assert(kept[j] == kept0[j]);
                assert(places[i].0 == places[i].0);
            } else {
                let outer = holder(kept0, place)->Some_0;
                let j = choose|j: int|
                    0 <= j < kept0.len() && #[trigger] kept0[j] == outer && within(
                        place.0,
                        outer.0,
                    ) && outer.1 == place.1;
                assert(kept[j] == outer);
                assert(places[k - 1] == place);
            }
        }
    }
}

proof fn lemma_grafts_all(
    list: Seq<Seq<char>>,
    probes: Seq<Probe>,
    roots: Seq<Seq<char>>,
    k: nat,
)
    requires
        grafts(list, probes, roots, k) is Ok,
    ensures
        ({
            let done = grafts(list, probes, roots, k)->Ok_0;
            &&& forall|i: int|
                0 <= i < k ==> lexical_of(list[i], "network folder"@) is Ok && (
                (#[trigger] probes[i]) matches Probe::Folder(p, _) && done.contains(p@)
                    && within_any(p@, roots))
            &&& forall|j: int|
                0 <= j < done.len() ==> exists|i: int|
                    0 <= i < k && ((#[trigger] probes[i]) matches Probe::Folder(p, _) && p@
                        == #[trigger] done[j])
        }),
    decreases k,
{
    if k > 0 {
        let m = (k - 1) as nat;
        lemma_grafts_all(list, probes, roots, m);
        let before = grafts(list, probes, roots, m)->Ok_0;
        let done = grafts(list, probes, roots, k)->Ok_0;
        let place = existing(list[k - 1], "network folder"@, probes[k - 1])->Ok_0;
        assert forall|i: int| 0 <= i < k implies lexical_of(list[i], "network folder"@) is Ok && (
        (#[trigger] probes[i]) matches Probe::Folder(p, _) && done.contains(p@) && within_any(
            p@,
            roots,
        )) by {
            lemma_held_push(before, place.0, place.0);
            if i < m {
                assert(probes[i] is Folder);
                lemma_held_push(before, place.0, probes[i]->Folder_0@);
            }
        }
        assert forall|j: int| 0 <= j < done.len() implies exists|i: int|
            0 <= i < k && ((#[trigger] probes[i]) matches Probe::Folder(p, _) && p@
                == #[trigger] done[j]) by {
            if j < before.len() {
                assert(before[j] == done[j]);
                let i = choose|i: int|
                    0 <= i < m && ((#[trigger] probes[i]) matches Probe::Folder(p, _) && p@
                        == before[j]);
                assert(probes[i] is Folder);
            } else {
                assert(probes[k - 1] is Folder);
            }
        }
    }
}

/// `p` is excluded, or lies in no root and has a note.
pub open spec fn left_out(
    p: Seq<char>,
    roots: Seq<Seq<char>>,
    done: Seq<Seq<char>>,
    notes: Seq<Seq<char>>,
) -> bool {
    !roots.contains(p) && if within_any(p, roots) {
        done.contains(p)
    } else {
        notes.contains(outside_note(p))
    }
}

/// The excluded folder stands for a path that is left out.
pub open spec fn dealt_with(
    given: Seq<char>,
    r: Resolution,
    roots: Seq<Seq<char>>,
    done: Seq<Seq<char>>,
    notes: Seq<Seq<char>>,
) -> bool {
    exists|p: Seq<char>| #[trigger] stands_for(given, r, p) && left_out(p, roots, done, notes)
}

proof fn lemma_dealt_with(
    given: Seq<char>,
    r: Resolution,
    roots: Seq<Seq<char>>,
    done: Seq<Seq<char>>,
    notes: Seq<Seq<char>>,
    more: Seq<Seq<char>>,
    all: Seq<Seq<char>>,
)
    requires
        dealt_with(given, r, roots, done, notes),
        forall|x: Seq<char>| #[trigger] done.contains(x) ==> more.contains(x),
        forall|x: Seq<char>| #[trigger] notes.contains(x) ==> all.contains(x),
    ensures
        dealt_with(given, r, roots, more, all),
{
    let p = choose|p: Seq<char>| #[trigger]
        stands_for(given, r, p) && left_out(p, roots, done, notes);
    assert(left_out(p, roots, more, all));
}

proof fn lemma_exclusions_all(
    list: Seq<Seq<char>>,
    found: Seq<Resolution>,
    roots: Seq<Seq<char>>,
    k: nat,
)
    requires
        exclusions(list, found, roots, k) is Ok,
    ensures
        ({
            let (done, notes) = exclusions(list, found, roots, k)->Ok_0;
            &&& forall|i: int|
                0 <= i < k ==> dealt_with(list[i], #[trigger] found[i], roots, done, notes)
            &&& forall|j: int|
                0 <= j < done.len() ==> exists|i: int|
                    0 <= i < k && stands_for(list[i], #[trigger] found[i], #[trigger] done[j])
        }),
    decreases k,
{
    if k > 0 {
        let m = (k - 1) as nat;
        lemma_exclusions_all(list, found, roots, m);
        let (done0, notes0) = exclusions(list, found, roots, m)->Ok_0;
        let (done, notes) = exclusions(list, found, roots, k)->Ok_0;
        let last = excluded(list[k - 1], found[k - 1])->Ok_0;
        assert(stands_for(list[k - 1], found[k - 1], last));
        assert forall|x: Seq<char>| #[trigger] done0.contains(x) implies done.contains(x) by {
            lemma_held_push(done0, last, x);
        }
        assert forall|x: Seq<char>| #[trigger] notes0.contains(x) implies notes.contains(x) by {
            lemma_held_push(notes0, outside_note(last), x);
        }
        lemma_held_push(done0, last, last);
        lemma_held_push(notes0, outside_note(last), outside_note(last));
        assert(left_out(last, roots, done, notes));
        assert forall|i: int| 0 <= i < k implies dealt_with(
            list[i],
            #[trigger] found[i],
            roots,
            done,
            notes,
        ) by {
            if i < m {
                lemma_dealt_with(list[i], found[i], roots, done0, notes0, done, notes);
            }
        }
        assert forall|j: int| 0 <= j < done.len() implies exists|i: int|
            0 <= i < k && stands_for(list[i], #[trigger] found[i], #[trigger] done[j]) by {
            if j < done0.len() {
                assert(done0[j] == done[j]);
                let i = choose|i: int|
                    0 <= i < m && stands_for(list[i], #[trigger] found[i], done0[j]);
                assert(stands_for(list[i], found[i], done[j]));
            } else {
                assert(stands_for(list[k - 1], found[k - 1], done[j]));
            }
        }
    }
}

/// No excluded folder is lost where settings pass the check: each that was
/// given stands for one that stays excluded, or lies in no folder to index and
/// has a note. None is a folder to index, and none comes in that was not given.
pub proof fn excluded_folders_are_kept(c: Settings, f: Findings)
    requires
        f.fits(c),
        checked(c, f) is Ok,
    ensures
        ({
            let (out, notes) = checked(c, f)->Ok_0;
            &&& forall|i: int|
                0 <= i < c.exclude.len() ==> dealt_with(
                    c.exclude[i],
                    #[trigger] f.exclude@[i],
                    out.roots,
                    out.exclude,
                    notes,
                )
            &&& forall|j: int|
                0 <= j < out.exclude.len() ==> exists|i: int|
                    0 <= i < c.exclude.len() && stands_for(
                        c.exclude[i],
                        #[trigger] f.exclude@[i],
                        #[trigger] out.exclude[j],
                    )
        }),
{
    let (out, notes) = checked(c, f)->Ok_0;
    let more = exclusions(c.exclude, f.exclude@, out.roots, c.exclude.len())->Ok_0.1;
    lemma_exclusions_all(c.exclude, f.exclude@, out.roots, c.exclude.len());
    let first = notes.len() - more.len();
    assert(notes.skip(first) =~= more);
    assert forall|x: Seq<char>| #[trigger] more.contains(x) implies notes.contains(x) by {
        let z = choose|z: int| 0 <= z < more.len() && more[z] == x;
        assert(notes.skip(first)[z] == notes[first + z]);
    }
    assert forall|i: int| 0 <= i < c.exclude.len() implies dealt_with(
        c.exclude[i],
        #[trigger] f.exclude@[i],
        out.roots,
        out.exclude,
        notes,
    ) by {
        lemma_dealt_with(
            c.exclude[i],
            f.exclude@[i],
            out.roots,
            out.exclude,
            more,
            out.exclude,
            notes,
        );
    }
}

/// No network folder is lost: each that was given is there, lies in a folder to
/// index, and stays; and none comes in.
pub proof fn network_folders_are_kept(c: Settings, f: Findings)
    requires
        f.fits(c),
        checked(c, f) is Ok,
    ensures
        ({
            let out = checked(c, f)->Ok_0.0;
            &&& out.interval == c.interval
            &&& forall|i: int|
                0 <= i < c.rescan.len() ==> ((#[trigger] f.rescan@[i]) matches Probe::Folder(p, _)
                    && out.rescan.contains(p@) && within_any(p@, out.roots))
            &&& forall|j: int|
                0 <= j < out.rescan.len() ==> exists|i: int|
                    0 <= i < c.rescan.len() && ((#[trigger] f.rescan@[i]) matches Probe::Folder(
                        p,
                        _,
                    ) && p@ == #[trigger] out.rescan[j])
        }),
{
    let out = checked(c, f)->Ok_0.0;
    lemma_grafts_all(c.rescan, f.rescan@, out.roots, c.rescan.len());
}

/// The folder is indexed: it stays, or it lies in one that stays on the same
/// device and has a note.
pub open spec fn is_indexed(kept: Seq<Place>, notes: Seq<Seq<char>>, p: Seq<char>) -> bool {
    paths(kept).contains(p) || exists|d: u64| #[trigger] noted(kept, notes, (p, d))
}

/// No folder to index is lost: each that was given is there, and stays or lies
/// in one that does; and none comes in.
pub proof fn folders_to_index_are_kept(c: Settings, f: Findings)
    requires
        f.fits(c),
        checked(c, f) is Ok,
    ensures
        ({
            let (out, notes) = checked(c, f)->Ok_0;
            let kept = kept_places(c, f);
            &&& out.roots == paths(kept)
            &&& forall|i: int|
                0 <= i < c.roots.len() ==> ((#[trigger] f.roots@[i]) matches Probe::Folder(p, _)
                    && is_indexed(kept, notes, p@))
            &&& forall|j: int|
                0 <= j < kept.len() ==> exists|i: int|
                    0 <= i < c.roots.len() && ((#[trigger] f.roots@[i]) matches Probe::Folder(p, d)
                        && (p@, d) == #[trigger] kept[j])
        }),
{
    let (out, notes) = checked(c, f)->Ok_0;
    let what = "folder to index"@;
    let places = gathered(c.roots, what, f.roots@, c.roots.len())->Ok_0;
    let sorted = by_size(places, places.len());
    let (kept, first) = outermost(sorted, places.len());
    lemma_by_size(places, places.len());
    lemma_gathered_all(c.roots, what, f.roots@, c.roots.len());
    lemma_by_size_all(places, places.len());
    lemma_outermost_all(sorted, places.len());
    assert(places.take(places.len() as int) =~= places);
    assert(notes.take(first.len() as int) =~= first);
    assert forall|i: int| 0 <= i < c.roots.len() implies (
    (#[trigger] f.roots@[i]) matches Probe::Folder(p, _) && is_indexed(kept, notes, p@)) by {
        assert(f.roots@[i] is Folder);
        let p = f.roots@[i]->Folder_0@;
        assert(paths(places).contains(p));
        let q = choose|q: int| 0 <= q < places.len() && paths(places)[q] == p;
        assert(places.contains(places[q]));
        assert(sorted.contains(places[q]));
        let r = choose|r: int| 0 <= r < sorted.len() && sorted[r] == places[q];
        lemma_stays_indexed(kept, first, notes, sorted[r]);
    }
    assert forall|j: int| 0 <= j < kept.len() implies exists|i: int|
        0 <= i < c.roots.len() && ((#[trigger] f.roots@[i]) matches Probe::Folder(p, d) && (p@, d)
            == #[trigger] kept[j]) by {
        lemma_outermost_from(sorted, places.len(), j);
        let r = choose|r: int| 0 <= r < places.len() && #[trigger] sorted[r] == kept[j];
        assert(sorted.contains(sorted[r]));
        assert(places.contains(kept[j]));
        let q = choose|q: int| 0 <= q < places.len() && places[q] == kept[j];
        let i = choose|i: int|
            0 <= i < c.roots.len() && ((#[trigger] f.roots@[i]) matches Probe::Folder(p, d) && (
            p@, d) == places[q]);
        assert(f.roots@[i] is Folder);
    }
}

proof fn lemma_stays_indexed(
    kept: Seq<Place>,
    first: Seq<Seq<char>>,
    notes: Seq<Seq<char>>,
    place: Place,
)
    requires
        kept.contains(place) || noted(kept, first, place),
        first.len() <= notes.len(),
        notes.take(first.len() as int) == first,
    ensures
        is_indexed(kept, notes, place.0),
{
    if kept.contains(place) {
        let z = choose|z: int| 0 <= z < kept.len() && kept[z] == place;
        assert(paths(kept)[z] == place.0);
    } else {
        let j = choose|j: int|
            0 <= j < kept.len() && within(place.0, (#[trigger] kept[j]).0) && kept[j].1 == place.1
                && first.contains(held_note(place.0, kept[j].0));
        let note = held_note(place.0, kept[j].0);
        let z = choose|z: int| 0 <= z < first.len() && first[z] == note;
        assert(notes.take(first.len() as int)[z] == notes[z]);
        assert(kept[j].1 == place.1);
        assert(noted(kept, notes, (place.0, place.1)));
    }
}

/// Settings are refused for a cause, and for these alone: the interval is out of
/// its bounds, there is no folder to index, a folder to index or a network
/// folder is not there, a network folder lies in none to index, or an excluded
/// folder is one to index or stands for nothing.
pub proof fn refused_settings_have_a_cause(c: Settings, f: Findings)
    requires
        f.fits(c),
        checked(c, f) is Err,
    ensures
        ({
            ||| c.interval < 60
            ||| c.interval > 604800
            ||| c.roots.len() == 0
            ||| exists|i: int|
                0 <= i < c.roots.len() && (!((#[trigger] f.roots@[i]) is Folder) || lexical_of(
                    c.roots[i],
                    "folder to index"@,
                ) is Err)
            ||| exists|i: int|
                0 <= i < c.rescan.len() && (!((#[trigger] f.rescan@[i]) is Folder) || lexical_of(
                    c.rescan[i],
                    "network folder"@,
                ) is Err || !within_any(f.rescan@[i]->Folder_0@, paths(kept_places(c, f))))
            ||| exists|i: int|
                0 <= i < c.exclude.len() && forall|p: Seq<char>|
                    stands_for(c.exclude[i], #[trigger] f.exclude@[i], p) ==> paths(
                        kept_places(c, f),
                    ).contains(p)
        }),
{
    let what = "folder to index"@;
    if 60 <= c.interval <= 604800 {
        let g = gathered(c.roots, what, f.roots@, c.roots.len());
        if g is Err {
            lemma_gather_fault(c.roots, what, f.roots@, c.roots.len());
        } else if g->Ok_0.len() == 0 {
            lemma_gathered_all(c.roots, what, f.roots@, c.roots.len());
            if c.roots.len() > 0 {
                assert(f.roots@[0] is Folder);
                assert(paths(g->Ok_0).contains(f.roots@[0]->Folder_0@));
            }
        } else {
            let roots = paths(kept_places(c, f));
            if grafts(c.rescan, f.rescan@, roots, c.rescan.len()) is Err {
                lemma_graft_fault(c.rescan, f.rescan@, roots, c.rescan.len());
            } else {
                lemma_exclusion_fault(c.exclude, f.exclude@, roots, c.exclude.len());
            }
        }
    }
}

proof fn lemma_gather_fault(list: Seq<Seq<char>>, what: Seq<char>, probes: Seq<Probe>, k: nat)
    requires
        gathered(list, what, probes, k) is Err,
    ensures
        exists|i: int|
            0 <= i < k && (!((#[trigger] probes[i]) is Folder) || lexical_of(list[i], what) is Err),
    decreases k,
{
    if gathered(list, what, probes, (k - 1) as nat) is Err {
        lemma_gather_fault(list, what, probes, (k - 1) as nat);
    } else {
        assert(!(probes[k - 1] is Folder) || lexical_of(list[k - 1], what) is Err);
    }
}

proof fn lemma_graft_fault(
    list: Seq<Seq<char>>,
    probes: Seq<Probe>,
    roots: Seq<Seq<char>>,
    k: nat,
)
    requires
        grafts(list, probes, roots, k) is Err,
    ensures
        exists|i: int|
            0 <= i < k && (!((#[trigger] probes[i]) is Folder) || lexical_of(
                list[i],
                "network folder"@,
            ) is Err || !within_any(probes[i]->Folder_0@, roots)),
    decreases k,
{
    if grafts(list, probes, roots, (k - 1) as nat) is Err {
        lemma_graft_fault(list, probes, roots, (k - 1) as nat);
    } else {
        assert(!(probes[k - 1] is Folder) || lexical_of(list[k - 1], "network folder"@) is Err
            || !within_any(probes[k - 1]->Folder_0@, roots));
    }
}

proof fn lemma_exclusion_fault(
    list: Seq<Seq<char>>,
    found: Seq<Resolution>,
    roots: Seq<Seq<char>>,
    k: nat,
)
    requires
        exclusions(list, found, roots, k) is Err,
    ensures
        exists|i: int|
            0 <= i < k && forall|p: Seq<char>|
                stands_for(list[i], #[trigger] found[i], p) ==> roots.contains(p),
    decreases k,
{
    if exclusions(list, found, roots, (k - 1) as nat) is Err {
        lemma_exclusion_fault(list, found, roots, (k - 1) as nat);
        let i = choose|i: int|
            0 <= i < k - 1 && forall|p: Seq<char>|
                stands_for(list[i], #[trigger] found[i], p) ==> roots.contains(p);
        assert(found[i] == found[i]);
    } else {
        assert forall|p: Seq<char>| stands_for(
            list[k - 1],
            found[k - 1],
            p,
        ) implies roots.contains(p) by {}
        assert(found[k - 1] == found[k - 1]);
    }
}

/// An interval outside one minute to seven days is refused, and so are settings
/// without a folder to index.
pub proof fn bounds_are_enforced(c: Settings, f: Findings)
    requires
        f.fits(c),
    ensures
        c.interval < 60 || c.interval > 604800 ==> checked(c, f) == Err::<
            (Settings, Seq<Seq<char>>),
            _,
        >("rescan interval must be between 1 minute and 7 days"@),
        60 <= c.interval <= 604800 && c.roots.len() == 0 ==> checked(c, f) == Err::<
            (Settings, Seq<Seq<char>>),
            _,
        >("choose at least one folder to index"@),
{
}

// The lighter check.

/// Every folder that is well formed is kept, tidied, each once; what is said is
/// said of the others, each in its turn.
pub proof fn tidied_folders_are_kept(list: Seq<Seq<char>>, k: nat)
    requires
        k <= list.len(),
    ensures
        forall|i: int|
            #![trigger list[i]]
            0 <= i < k ==> match lexical_of(list[i], "folder"@) {
                Ok(p) => tidy_list(list, k).0.contains(p),
                Err(e) => tidy_list(list, k).1.contains(e),
            },
        forall|j: int|
            0 <= j < tidy_list(list, k).0.len() ==> exists|i: int|
                0 <= i < k && lexical_of(#[trigger] list[i], "folder"@) == Ok::<_, Seq<char>>(
                    #[trigger] tidy_list(list, k).0[j],
                ),
        tidy_list(list, k).0.no_duplicates(),
        tidy_list(list, k).0.len() + tidy_list(list, k).1.len() <= k,
    decreases k,
{
    if k > 0 {
        let m = (k - 1) as nat;
        tidied_folders_are_kept(list, m);
        let (done, notes) = tidy_list(list, m);
        let (all, said) = tidy_list(list, k);
        assert forall|i: int|
            #![trigger list[i]]
            0 <= i < k implies match lexical_of(list[i], "folder"@) {
            Ok(p) => all.contains(p),
            Err(e) => said.contains(e),
        } by {
            match lexical_of(list[i], "folder"@) {
                Ok(p) => {
                    if i < k - 1 {
                        let j = choose|j: int| 0 <= j < done.len() && done[j] == p;
                        assert(all[j] == p);
                    } else if !done.contains(p) {
                        assert(all[done.len() as int] == p);
                    }
                },
                Err(e) => {
                    if i < k - 1 {
                        let j = choose|j: int| 0 <= j < notes.len() && notes[j] == e;
                        assert(said[j] == e);
                    } else {
                        assert(said[notes.len() as int] == e);
                    }
                },
            }
        }
        assert forall|j: int| 0 <= j < all.len() implies exists|i: int|
            0 <= i < k && lexical_of(#[trigger] list[i], "folder"@) == Ok::<_, Seq<char>>(
                #[trigger] all[j],
            ) by {
            if j < done.len() {
                assert(all[j] == done[j]);
                let i = choose|i: int|
                    0 <= i < m && lexical_of(#[trigger] list[i], "folder"@) == Ok::<_, Seq<char>>(
                        done[j],
                    );
                assert(lexical_of(list[i], "folder"@) == Ok::<_, Seq<char>>(all[j]));
            } else {
                assert(lexical_of(list[k - 1], "folder"@) == Ok::<_, Seq<char>>(all[j]));
            }
        }
    }
}

/// The lists stay apart, and so do their folders; nothing else of the settings
/// changes.
pub proof fn lists_are_tidied_apart(c: Settings)
    ensures
        normalized(c).0.roots == tidy_list(c.roots, c.roots.len()).0,
        normalized(c).0.exclude == tidy_list(c.exclude, c.exclude.len()).0,
        normalized(c).0.rescan == tidy_list(c.rescan, c.rescan.len()).0,
        normalized(c).0.interval == c.interval,
        normalized(c).1.len() == tidy_list(c.roots, c.roots.len()).1.len() + tidy_list(
            c.exclude,
            c.exclude.len(),
        ).1.len() + tidy_list(c.rescan, c.rescan.len()).1.len(),
{
}

/// A settings file of more than 64 KiB is refused; any other is read.
pub proof fn long_settings_are_refused(text: Seq<char>)
    ensures
        encode_utf8(text).len() > 65536 ==> settings_read(text) == Err::<Settings, _>(
            "settings too large"@,
        ),
        encode_utf8(text).len() <= 65536 ==> settings_read(text) == settings_of(text),
{
}

/// A folder is taken as the filesystem resolves it, and only where it is one; its
/// path must be well formed besides.
pub proof fn only_folders_are_taken(p: Seq<char>, what: Seq<char>, probe: Probe)
    ensures
        existing(p, what, probe) is Ok <==> lexical_of(p, what) is Ok && probe is Folder,
        probe matches Probe::Folder(path, dev) ==> (lexical_of(p, what) is Ok ==> existing(
            p,
            what,
            probe,
        ) == Ok::<_, Seq<char>>((path@, dev))),
        lexical_of(p, what) matches Err(e) ==> existing(p, what, probe) == Err::<Place, _>(e),
        lexical_of(p, what) is Ok && probe is NotFolder ==> existing(p, what, probe) == Err::<
            Place,
            _,
        >(what + " "@ + p + " is not a folder"@),
{
}

/// An excluded folder is taken as it resolves, and as it is written where there is
/// none yet.
pub proof fn missing_folders_can_be_excluded(p: Seq<char>, path: String, shown: String)
    ensures
        excluded(p, Resolution::Path(path)) == Ok::<_, Seq<char>>(path@),
        excluded(p, Resolution::Unknown) == lexical_of(p, "excluded folder"@),
        excluded(p, Resolution::NotUtf8(shown)) is Err,
{
}

} // verus!
