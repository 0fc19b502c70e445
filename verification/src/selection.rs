//! The rows of the search window, and what is done with those selected.

use vstd::prelude::*;
use crate::bytes::views;
use crate::component::{
    alike, file_name, has_alike, has_path, name_bytes, parent_bytes, parent_dir,
};
use crate::maintain::{lossy, lossy_text};
use crate::split::{
    after_last_char, last_at, nothing_follows_the_last, pieces, pieces_part_at_separators,
    runs_are_not_parted,
};
use crate::text::{chars_of, decimal, push_number, push_text, text_of, texts, trim_bounds, trimmed};
use crate::window::{chain, chained, plural, OPEN_WITHOUT_ASKING};

verus! {

// Rows.

/// What stands behind the last separator.
pub open spec fn name_part(path: Seq<char>) -> Seq<char> {
    path.skip(last_at(path, '/') + 1)
}

/// What stands before the last separator, or the root.
pub open spec fn parent_part(path: Seq<char>) -> Seq<char> {
    if last_at(path, '/') <= 0 {
        seq!['/']
    } else {
        path.take(last_at(path, '/'))
    }
}

/// One result, with what was learnt of it: (is_dir, size, mtime).
pub struct Row {
    pub name: String,
    pub parent: String,
    /// Numeric sort keys; -1 for folders and for files that vanished, so those
    /// sort together at one end.
    pub size_key: i64,
    pub mtime_key: i64,
}

/// What a result is sorted by: its size and the time of its last change.
pub open spec fn sort_keys(meta: Option<(bool, u64, i64)>) -> (int, int) {
    (
        match meta {
            Some((false, size, _)) => (size as i64) as int,
            _ => -1,
        },
        match meta {
            Some((_, _, t)) => t as int,
            None => -1,
        },
    )
}

/// The row of a result.
pub fn row_of(raw: &[u8], meta: Option<(bool, u64, i64)>) -> (r: Row)
    ensures
        r.name@ == name_part(lossy_text(raw@)),
        r.parent@ == parent_part(lossy_text(raw@)),
        (r.size_key as int, r.mtime_key as int) == sort_keys(meta),
{
    let path = lossy(raw);
    let s = chars_of(path.as_str());
    let at = after_last_char(&s, '/');
    let name = text_of(&s, at, s.len());
    assert(name@ =~= name_part(path@));
    let mut parent = String::new();
    if at <= 1 {
        parent.push('/');
    } else {
        parent = text_of(&s, 0, at - 1);
    }
    assert(parent@ =~= parent_part(path@));
    let size_key: i64 = match meta {
        Some((false, size, _)) => size as i64,
        _ => -1,
    };
    let mtime_key: i64 = match meta {
        Some((_, _, t)) => t,
        None => -1,
    };
    Row { name, parent, size_key, mtime_key }
}

// Actions.

/// The folders of the first `k` paths, each once.
pub open spec fn distinct_folders(paths: Seq<Seq<u8>>, k: nat) -> Seq<Seq<u8>>
    decreases k,
{
    if k == 0 {
        seq![]
    } else {
        let before = distinct_folders(paths, (k - 1) as nat);
        let dir = parent_bytes(paths[k - 1]);
        if has_alike(before, dir) {
            before
        } else {
            before.push(dir)
        }
    }
}

/// One window per folder, however many files are selected inside it.
pub fn folders_to_open(paths: &Vec<Vec<u8>>) -> (out: Vec<Vec<u8>>)
    ensures
        views(out@) == distinct_folders(views(paths@), paths@.len()),
{
    let mut out: Vec<Vec<u8>> = Vec::new();
    let mut i: usize = 0;
    assert(views(out@) =~= Seq::<Seq<u8>>::empty());
    while i < paths.len()
        invariant
            i <= paths@.len(),
            views(out@) == distinct_folders(views(paths@), i as nat),
        decreases paths@.len() - i,
    {
        let ghost before = views(out@);
        assert(views(paths@)[i as int] == paths@[i as int]@);
        let dir = parent_dir(paths[i].as_slice());
        if !has_path(&out, dir.as_slice()) {
            out.push(dir);
            assert(views(out@) =~= before.push(dir@));
        }
        i = i + 1;
    }
    out
}

/// The name of a path as text.
pub fn name_of(path: &[u8]) -> (s: String)
    ensures
        s@ == lossy_text(name_bytes(path@)),
{
    let name = file_name(path);
    lossy(name.as_slice())
}

/// The paths as text, or only their names.
pub open spec fn shown_texts(paths: Seq<Seq<u8>>, name_only: bool) -> Seq<Seq<char>> {
    Seq::new(
        paths.len(),
        |i: int|
            lossy_text(
                if name_only {
                    name_bytes(paths[i])
                } else {
                    paths[i]
                },
            ),
    )
}

/// What goes on the clipboard.
pub open spec fn clipboard_text(paths: Seq<Seq<u8>>, name_only: bool) -> Seq<char> {
    chained(shown_texts(paths, name_only), "\n"@)
}

/// What goes on the clipboard: one path per line, which is what a shell or a
/// text editor expects to receive. The clipboard takes text, so a name that is
/// not UTF-8 is copied with its stray bytes replaced.
pub fn copied_text(paths: &Vec<Vec<u8>>, name_only: bool) -> (s: String)
    ensures
        s@ == clipboard_text(views(paths@), name_only),
{
    let ghost all = views(paths@);
    let mut list: Vec<String> = Vec::new();
    let mut i: usize = 0;
    while i < paths.len()
        invariant
            i <= paths@.len(),
            all == views(paths@),
            list@.len() == i,
            forall|k: int|
                0 <= k < i ==> (#[trigger] list@[k])@ == shown_texts(all, name_only)[k],
        decreases paths@.len() - i,
    {
        assert(all[i as int] == paths@[i as int]@);
        if name_only {
            list.push(name_of(paths[i].as_slice()));
        } else {
            list.push(lossy(paths[i].as_slice()));
        }
        i = i + 1;
    }
    assert(texts(list@) =~= shown_texts(all, name_only));
    chain(&list, "\n")
}

/// What the status line says of it.
pub open spec fn copied_note(text: Seq<char>, n: nat, name_only: bool) -> Seq<char> {
    if n == 1 {
        "copied "@ + text
    } else {
        "copied "@ + decimal(n) + (if name_only {
            " names"@
        } else {
            " paths"@
        })
    }
}

/// What the status line says of it.
pub fn copied_status(text: &str, n: usize, name_only: bool) -> (s: String)
    ensures
        s@ == copied_note(text@, n as nat, name_only),
{
    let mut s = "copied ".to_owned();
    if n == 1 {
        push_text(&mut s, text);
    } else {
        push_number(&mut s, n as u64);
        push_text(
            &mut s,
            if name_only {
                " names"
            } else {
                " paths"
            },
        );
    }
    s
}

/// Files for a file manager to paste.
pub open spec fn clip_text(uris: Seq<Seq<char>>, cut: bool) -> Seq<char> {
    (if cut {
        "cut"@
    } else {
        "copy"@
    }) + "\n"@ + chained(uris, "\n"@)
}

/// Files for a file manager to paste: "copy" or "cut", then the URIs.
pub fn clip_files(uris: &Vec<String>, cut: bool) -> (s: String)
    ensures
        s@ == clip_text(texts(uris@), cut),
{
    let mut s = String::new();
    push_text(
        &mut s,
        if cut {
            "cut"
        } else {
            "copy"
        },
    );
    push_text(&mut s, "\n");
    let list = chain(uris, "\n");
    push_text(&mut s, list.as_str());
    assert(s@ =~= (if cut {
        "cut"@
    } else {
        "copy"@
    }) + "\n"@ + chained(texts(uris@), "\n"@));
    s
}

/// Every URI on a line of its own.
pub open spec fn uri_lines(uris: Seq<Seq<char>>) -> Seq<char>
    decreases uris.len(),
{
    if uris.len() == 0 {
        seq![]
    } else {
        uri_lines(uris.drop_last()) + uris.last() + "\r\n"@
    }
}

/// The same as a list of URIs.
pub fn clip_uris(uris: &Vec<String>) -> (s: String)
    ensures
        s@ == uri_lines(texts(uris@)),
{
    let ghost all = texts(uris@);
    let mut s = String::new();
    let mut i: usize = 0;
    assert(all.take(0) =~= Seq::<Seq<char>>::empty());
    while i < uris.len()
        invariant
            i <= uris@.len(),
            all == texts(uris@),
            s@ == uri_lines(all.take(i as int)),
        decreases uris@.len() - i,
    {
        proof {
            assert(all.take(i + 1).drop_last() =~= all.take(i as int));
            assert(all.take(i + 1).last() == uris@[i as int]@);
        }
        push_text(&mut s, uris[i].as_str());
        push_text(&mut s, "\r\n");
        i = i + 1;
    }
    assert(all.take(i as int) =~= all);
    s
}

/// What the status line says of it.
pub open spec fn clip_note(ok: bool, n: nat, cut: bool) -> Seq<char> {
    if !ok {
        "could not reach the clipboard"@
    } else {
        (if cut {
            "cut"@
        } else {
            "copied"@
        }) + " "@ + decimal(n) + " "@ + (if n == 1 {
            "file"@
        } else {
            "files"@
        }) + " — paste in a file manager"@
    }
}

/// What the status line says of it.
pub fn clip_status(ok: bool, n: usize, cut: bool) -> (s: String)
    ensures
        s@ == clip_note(ok, n as nat, cut),
{
    if !ok {
        return "could not reach the clipboard".to_owned();
    }
    let mut s = String::new();
    push_text(
        &mut s,
        if cut {
            "cut"
        } else {
            "copied"
        },
    );
    push_text(&mut s, " ");
    push_number(&mut s, n as u64);
    push_text(&mut s, " ");
    push_text(
        &mut s,
        if n == 1 {
            "file"
        } else {
            "files"
        },
    );
    push_text(&mut s, " — paste in a file manager");
    assert(s@ =~= (if cut {
        "cut"@
    } else {
        "copied"@
    }) + " "@ + decimal(n as nat) + " "@ + (if n == 1 {
        "file"@
    } else {
        "files"@
    }) + " — paste in a file manager"@);
    s
}

/// What is asked before anything is deleted for good: it says plainly what is
/// about to go.
pub open spec fn delete_text(first: Seq<char>, n: nat, folders: nat) -> Seq<char> {
    if n == 1 && folders == 0 {
        "Permanently delete “"@ + first + "”?"@
    } else if n == 1 {
        "Permanently delete the folder “"@ + first + "” and everything in it?"@
    } else if folders == 0 {
        "Permanently delete "@ + decimal(n) + " files?"@
    } else {
        "Permanently delete "@ + decimal(n) + " items, including "@ + decimal(folders)
            + " folder"@ + plural(folders) + " and everything in "@ + (if folders == 1 {
            "it"@
        } else {
            "them"@
        }) + "?"@
    }
}

/// What is asked before the paths, of which so many are folders, are deleted.
pub fn delete_question(paths: &Vec<Vec<u8>>, folders: usize) -> (s: String)
    requires
        paths@.len() > 0,
    ensures
        s@ == delete_text(lossy_text(name_bytes(paths@[0]@)), paths@.len(), folders as nat),
{
    let n: usize = paths.len();
    let mut s = String::new();
    if n == 1 && folders == 0 {
        push_text(&mut s, "Permanently delete “");
        let name = name_of(paths[0].as_slice());
        push_text(&mut s, name.as_str());
        push_text(&mut s, "”?");
    } else if n == 1 {
        push_text(&mut s, "Permanently delete the folder “");
        let name = name_of(paths[0].as_slice());
        push_text(&mut s, name.as_str());
        push_text(&mut s, "” and everything in it?");
    } else if folders == 0 {
        push_text(&mut s, "Permanently delete ");
        push_number(&mut s, n as u64);
        push_text(&mut s, " files?");
    } else {
        push_text(&mut s, "Permanently delete ");
        push_number(&mut s, n as u64);
        push_text(&mut s, " items, including ");
        push_number(&mut s, folders as u64);
        push_text(&mut s, " folder");
        if folders != 1 {
            push_text(&mut s, "s");
        }
        push_text(&mut s, " and everything in ");
        push_text(
            &mut s,
            if folders == 1 {
                "it"
            } else {
                "them"
            },
        );
        push_text(&mut s, "?");
    }
    assert(s@ =~= delete_text(lossy_text(name_bytes(paths@[0]@)), paths@.len(), folders as nat));
    s
}

/// What became of it. One failure is worth reporting even when the rest went.
pub open spec fn removal_text(
    permanent: bool,
    done: nat,
    last: Option<Seq<char>>,
    failure: Option<Seq<char>>,
) -> Seq<char> {
    let verb = if permanent {
        "deleted"@
    } else {
        "moved to trash"@
    };
    match failure {
        Some(e) => if done == 0 {
            "could not delete: "@ + e
        } else {
            verb + " "@ + decimal(done) + "; one failed: "@ + e
        },
        None => if done == 1 {
            match last {
                Some(p) => verb + ": "@ + p,
                None => seq![],
            }
        } else {
            verb + " "@ + decimal(done) + " files"@
        },
    }
}

pub open spec fn text_view(s: Option<String>) -> Option<Seq<char>> {
    match s {
        Some(t) => Some(t@),
        None => None,
    }
}

/// What the status line says after `done` paths were trashed or deleted, the
/// last of them `last`, and the last failure.
pub fn removal_status(
    permanent: bool,
    done: usize,
    last: &Option<String>,
    failure: &Option<String>,
) -> (s: String)
    ensures
        s@ == removal_text(permanent, done as nat, text_view(*last), text_view(*failure)),
{
    let verb = if permanent {
        "deleted"
    } else {
        "moved to trash"
    };
    let mut s = String::new();
    match failure {
        Some(e) => {
            if done == 0 {
                push_text(&mut s, "could not delete: ");
                push_text(&mut s, e.as_str());
            } else {
                push_text(&mut s, verb);
                push_text(&mut s, " ");
                push_number(&mut s, done as u64);
                push_text(&mut s, "; one failed: ");
                push_text(&mut s, e.as_str());
            }
        },
        None => {
            if done == 1 {
                match last {
                    Some(p) => {
                        push_text(&mut s, verb);
                        push_text(&mut s, ": ");
                        push_text(&mut s, p.as_str());
                    },
                    None => {},
                }
            } else {
                push_text(&mut s, verb);
                push_text(&mut s, " ");
                push_number(&mut s, done as u64);
                push_text(&mut s, " files");
            }
        },
    }
    assert(s@ =~= removal_text(permanent, done as nat, text_view(*last), text_view(*failure)));
    s
}

// Preferences.

/// `head`, as often as it stands at the start, left out.
pub open spec fn without_start(s: Seq<char>, head: Seq<char>) -> Seq<char>
    decreases s.len(),
{
    if head.len() > 0 && crate::protocol::begins(s, head) {
        without_start(s.skip(head.len() as int), head)
    } else {
        s
    }
}

/// What the settings helper came to: the sentence for the dialog.
pub open spec fn configure_text(code: Option<i32>, stdout: Seq<char>, stderr: Seq<char>) -> Result<
    Seq<char>,
    Seq<char>,
> {
    match code {
        Some(0) => Ok(trimmed(stdout)),
        Some(126) => Err("Cancelled; the folders are unchanged."@),
        Some(127) => Err("Not authorized; the folders are unchanged."@),
        _ => if trimmed(stderr).len() == 0 {
            Err("Could not save the folders."@)
        } else {
            Err(without_start(trimmed(stderr), "spoor: "@))
        },
    }
}

/// Behind every `spoor: ` at the start of `s[from..to]`.
fn skip_prefix(s: &Vec<char>, from: usize, to: usize) -> (at: usize)
    requires
        from <= to <= s@.len(),
    ensures
        from <= at <= to,
        s@.subrange(at as int, to as int) == without_start(
            s@.subrange(from as int, to as int),
            "spoor: "@,
        ),
{
    let head = chars_of("spoor: ");
    proof {
        reveal_strlit("spoor: ");
        assert(head@.len() == 7);
    }
    let ghost goal = without_start(s@.subrange(from as int, to as int), "spoor: "@);
    let mut at: usize = from;
    let mut more = true;
    while more
        invariant
            from <= at <= to <= s@.len(),
            head@ == "spoor: "@,
            head@.len() == 7,
            without_start(s@.subrange(at as int, to as int), "spoor: "@) == goal,
            !more ==> s@.subrange(at as int, to as int) == goal,
        decreases more as int + (to - at),
    {
        let ghost rest = s@.subrange(at as int, to as int);
        let mut same = to - at >= 7;
        let mut k: usize = 0;
        while same && k < 7
            invariant
                from <= at <= to <= s@.len(),
                head@.len() == 7,
                k <= 7,
                rest == s@.subrange(at as int, to as int),
                same ==> to - at >= 7 && forall|j: int| 0 <= j < k ==> rest[j] == head@[j],
                !same ==> !crate::protocol::begins(rest, head@),
            decreases 7 - k,
        {
            assert(rest[k as int] == s@[at + k]);
            if s[at + k] != head[k] {
                same = false;
                assert(rest.take(7)[k as int] == rest[k as int]);
            }
            k = k + 1;
        }
        if same {
            assert(rest.take(7) =~= head@);
            assert(rest.skip(7) =~= s@.subrange(at + 7, to as int));
            at = at + 7;
        } else {
            more = false;
        }
    }
    at
}

/// The sentence for the dialog, from the helper's exit code and what it
/// printed.
pub fn configure_outcome(code: Option<i32>, stdout: &str, stderr: &str) -> (r: Result<
    String,
    String,
>)
    ensures
        match r {
            Ok(s) => configure_text(code, stdout@, stderr@) == Ok::<_, Seq<char>>(s@),
            Err(e) => configure_text(code, stdout@, stderr@) == Err::<Seq<char>, _>(e@),
        },
{
    match code {
        Some(0) => {
            let s = chars_of(stdout);
            let (a, b) = trim_bounds(&s, 0, s.len());
            assert(s@.subrange(0, s@.len() as int) =~= s@);
            return Ok(text_of(&s, a, b));
        },
        Some(126) => {
            return Err("Cancelled; the folders are unchanged.".to_owned());
        },
        Some(127) => {
            return Err("Not authorized; the folders are unchanged.".to_owned());
        },
        _ => {},
    }
    let s = chars_of(stderr);
    let (a, b) = trim_bounds(&s, 0, s.len());
    assert(s@.subrange(0, s@.len() as int) =~= s@);
    if a == b {
        return Err("Could not save the folders.".to_owned());
    }
    let at = skip_prefix(&s, a, b);
    Err(text_of(&s, at, b))
}

/// The rescan interval in minutes, as the dialog shows it.
pub open spec fn whole_minutes(secs: int) -> int {
    if secs < 60 {
        1
    } else {
        secs / 60
    }
}

/// The rescan interval in seconds, as the dialog sets it.
pub open spec fn whole_seconds(minutes: int) -> int {
    if minutes < 1 {
        60
    } else {
        minutes * 60
    }
}

/// The rescan interval in minutes, as the dialog shows it.
pub fn interval_minutes(secs: u64) -> (m: u64)
    ensures
        m == whole_minutes(secs as int),
{
    if secs < 60 {
        1
    } else {
        secs / 60
    }
}

/// The rescan interval in seconds, as the dialog sets it.
pub fn interval_seconds(minutes: i32) -> (s: u64)
    ensures
        s == whole_seconds(minutes as int),
{
    if minutes < 1 {
        60
    } else {
        minutes as u64 * 60
    }
}

// Keys and clicks.

/// A key that the list of results listens to.
pub enum ListKey {
    Delete,
    C,
    X,
    Other,
}

/// What a key does.
#[derive(Clone, Copy, Debug, PartialEq, Eq, Structural)]
pub enum ListAction {
    Trash,
    Delete,
    Copy,
    Cut,
    /// Nothing; the key goes on to the window.
    Pass,
}

/// What a key does to the selected rows.
pub open spec fn action_of(key: ListKey, ctrl: bool, shift: bool) -> ListAction {
    match key {
        ListKey::Delete => if shift {
            ListAction::Delete
        } else {
            ListAction::Trash
        },
        ListKey::C => if ctrl {
            ListAction::Copy
        } else {
            ListAction::Pass
        },
        ListKey::X => if ctrl {
            ListAction::Cut
        } else {
            ListAction::Pass
        },
        ListKey::Other => ListAction::Pass,
    }
}

/// What a key does to the selected rows. Delete moves them to the trash, and
/// deletes them for good with Shift; the letters act with Control.
pub fn key_action(key: &ListKey, ctrl: bool, shift: bool) -> (a: ListAction)
    ensures
        a == action_of(*key, ctrl, shift),
{
    match key {
        ListKey::Delete => if shift {
            ListAction::Delete
        } else {
            ListAction::Trash
        },
        ListKey::C => if ctrl {
            ListAction::Copy
        } else {
            ListAction::Pass
        },
        ListKey::X => if ctrl {
            ListAction::Cut
        } else {
            ListAction::Pass
        },
        ListKey::Other => ListAction::Pass,
    }
}

/// Activating a row opens every selected one.
pub open spec fn all_opened(selected: nat, among_them: bool) -> bool {
    selected > 1 && among_them
}

/// Opening that many files is asked about first.
pub open spec fn asked_first(n: nat) -> bool {
    n > OPEN_WITHOUT_ASKING
}

/// Does activating a row open every selected one? It does if it is one of
/// several.
pub fn opens_all(selected: usize, among_them: bool) -> (r: bool)
    ensures
        r == all_opened(selected as nat, among_them),
{
    selected > 1 && among_them
}

/// Is opening that many files asked about first?
pub fn asks_first(n: usize) -> (r: bool)
    ensures
        r == asked_first(n as nat),
{
    n > OPEN_WITHOUT_ASKING
}

// Laws.

/// A row shows the name behind the last separator, and before it the folder; at
/// the top, the root.
pub proof fn rows_part_folder_and_name(dir: Seq<char>, name: Seq<char>)
    requires
        !name.contains('/'),
    ensures
        name_part(dir + seq!['/'] + name) == name,
        parent_part(dir + seq!['/'] + name) == (if dir.len() == 0 {
            seq!['/']
        } else {
            dir
        }),
        name_part(name) == name,
        parent_part(name) == seq!['/'],
{
    let p = dir + seq!['/'] + name;
    nothing_follows_the_last(dir, name, '/');
    assert(p.skip(dir.len() as int + 1) =~= name);
    assert(p.take(dir.len() as int) =~= dir);
    assert(name.skip(0) =~= name);
}

/// Files are sorted by their size and their time, folders by their time alone,
/// and what has vanished stands together at one end.
pub proof fn rows_are_sorted_by_what_was_learnt(size: u64, time: i64)
    requires
        size <= i64::MAX,
    ensures
        sort_keys(Some((false, size, time))) == (size as int, time as int),
        sort_keys(Some((true, size, time))) == (-1int, time as int),
        sort_keys(None) == (-1int, -1int),
{
}

/// Of the selected files every folder is opened, each once, and no other.
pub proof fn folders_are_opened_once(paths: Seq<Seq<u8>>, k: nat)
    requires
        k <= paths.len(),
    ensures
        forall|i: int|
            #![trigger paths[i]]
            0 <= i < k ==> has_alike(distinct_folders(paths, k), parent_bytes(paths[i])),
        forall|j: int|
            0 <= j < distinct_folders(paths, k).len() ==> exists|i: int|
                0 <= i < k && parent_bytes(#[trigger] paths[i]) == (#[trigger] distinct_folders(
                    paths,
                    k,
                )[j]),
        forall|i: int, j: int|
            0 <= i < j < distinct_folders(paths, k).len() ==> !alike(
                #[trigger] distinct_folders(paths, k)[i],
                #[trigger] distinct_folders(paths, k)[j],
            ),
    decreases k,
{
    if k > 0 {
        let m = (k - 1) as nat;
        folders_are_opened_once(paths, m);
        let before = distinct_folders(paths, m);
        let all = distinct_folders(paths, k);
        let dir = parent_bytes(paths[k - 1]);
        assert forall|i: int|
            #![trigger paths[i]]
            0 <= i < k implies has_alike(all, parent_bytes(paths[i])) by {
            if i < k - 1 {
                assert(has_alike(before, parent_bytes(paths[i])));
                let j = choose|j: int|
                    0 <= j < before.len() && alike(#[trigger] before[j], parent_bytes(paths[i]));
                assert(all[j] == before[j]);
            } else if !has_alike(before, dir) {
                assert(all[before.len() as int] == dir);
                assert(alike(all[before.len() as int], dir));
            }
        }
        assert forall|j: int| 0 <= j < all.len() implies exists|i: int|
            0 <= i < k && parent_bytes(#[trigger] paths[i]) == (#[trigger] all[j]) by {
            if j < before.len() {
                assert(all[j] == before[j]);
                let i = choose|i: int|
                    0 <= i < m && parent_bytes(#[trigger] paths[i]) == before[j];
                assert(parent_bytes(paths[i]) == all[j]);
            } else {
                assert(parent_bytes(paths[k - 1]) == all[j]);
            }
        }
        assert forall|i: int, j: int| 0 <= i < j < all.len() implies !alike(
            #[trigger] all[i],
            #[trigger] all[j],
        ) by {
            assert(all[i] == before[i]);
            if j < before.len() {
                assert(all[j] == before[j]);
            }
        }
    }
}

/// What is copied holds each path on a line of its own, in order.
pub proof fn copies_hold_one_text_per_line(list: Seq<Seq<char>>, cut: bool)
    requires
        list.len() > 0,
        forall|i: int| 0 <= i < list.len() ==> !(#[trigger] list[i]).contains('\n'),
    ensures
        pieces(chained(list, "\n"@), '\n') == list,
        pieces(clip_text(list, cut), '\n') == seq![
            if cut {
                "cut"@
            } else {
                "copy"@
            },
        ] + list,
    decreases list.len(),
{
    reveal_strlit("\n");
    reveal_strlit("cut");
    reveal_strlit("copy");
    assert("\n"@ =~= seq!['\n']);
    let all = chained(list, "\n"@);
    if list.len() == 1 {
        assert(!list[0].contains('\n'));
        runs_are_not_parted(list[0], '\n');
        assert(seq![list[0]] =~= list);
    } else {
        let head = list.drop_last();
        assert forall|i: int| 0 <= i < head.len() implies !(#[trigger] head[i]).contains('\n') by {
            assert(head[i] == list[i]);
        }
        copies_hold_one_text_per_line(head, cut);
        assert(!list[list.len() - 1].contains('\n'));
        runs_are_not_parted(list.last(), '\n');
        pieces_part_at_separators(chained(head, "\n"@), list.last(), '\n');
        assert(head + seq![list.last()] =~= list);
    }
    let verb = if cut {
        "cut"@
    } else {
        "copy"@
    };
    assert(!verb.contains('\n'));
    runs_are_not_parted(verb, '\n');
    pieces_part_at_separators(verb, all, '\n');
}

/// A path is copied as it reads, or its name alone.
pub proof fn copies_show_paths_or_names(paths: Seq<Seq<u8>>, i: int)
    requires
        0 <= i < paths.len(),
    ensures
        shown_texts(paths, false).len() == paths.len(),
        shown_texts(paths, true).len() == paths.len(),
        shown_texts(paths, false)[i] == lossy_text(paths[i]),
        shown_texts(paths, true)[i] == lossy_text(name_bytes(paths[i])),
        (forall|k: int|
            0 <= k < paths.len() ==> !(#[trigger] shown_texts(paths, false)[k]).contains('\n'))
            ==> pieces(clipboard_text(paths, false), '\n') == shown_texts(paths, false),
        (forall|k: int|
            0 <= k < paths.len() ==> !(#[trigger] shown_texts(paths, true)[k]).contains('\n'))
            ==> pieces(clipboard_text(paths, true), '\n') == shown_texts(paths, true),
{
    if forall|k: int|
        0 <= k < paths.len() ==> !(#[trigger] shown_texts(paths, false)[k]).contains('\n') {
        copies_hold_one_text_per_line(shown_texts(paths, false), false);
    }
    if forall|k: int|
        0 <= k < paths.len() ==> !(#[trigger] shown_texts(paths, true)[k]).contains('\n') {
        copies_hold_one_text_per_line(shown_texts(paths, true), false);
    }
}

/// Every URI ends its line, the last one too.
pub proof fn uris_end_their_lines(uris: Seq<Seq<char>>, uri: Seq<char>)
    ensures
        uri_lines(uris.push(uri)) == uri_lines(uris) + uri + seq!['\r', '\n'],
        uri_lines(Seq::<Seq<char>>::empty()) == Seq::<char>::empty(),
{
    reveal_strlit("\r\n");
    assert("\r\n"@ =~= seq!['\r', '\n']);
    assert(uris.push(uri).drop_last() =~= uris);
}

/// What was copied is named where it is one thing, and counted where it is not.
pub proof fn copies_are_named_or_counted(text: Seq<char>, n: nat)
    ensures
        copied_note(text, 1, true) == "copied "@ + text,
        copied_note(text, 1, false) == "copied "@ + text,
        n != 1 ==> copied_note(text, n, true) == "copied "@ + decimal(n) + " names"@,
        n != 1 ==> copied_note(text, n, false) == "copied "@ + decimal(n) + " paths"@,
{
}

/// A clipboard that was not reached is reported, whatever was to go there; else
/// one file is told from several.
pub proof fn clips_are_counted(n: nat, cut: bool)
    ensures
        clip_note(false, n, cut) == "could not reach the clipboard"@,
        n != 1 ==> clip_note(true, n, true) == "cut "@ + decimal(n)
            + " files — paste in a file manager"@,
        n != 1 ==> clip_note(true, n, false) == "copied "@ + decimal(n)
            + " files — paste in a file manager"@,
        clip_note(true, 1, true) == "cut "@ + decimal(1) + " file — paste in a file manager"@,
{
    reveal_strlit("cut ");
    reveal_strlit("copied ");
    reveal_strlit("cut");
    reveal_strlit("copied");
    reveal_strlit(" ");
    reveal_strlit("file");
    reveal_strlit("files");
    reveal_strlit(" — paste in a file manager");
    reveal_strlit(" files — paste in a file manager");
    reveal_strlit(" file — paste in a file manager");
    let tail = " — paste in a file manager"@;
    assert("cut "@ =~= "cut"@ + " "@);
    assert("copied "@ =~= "copied"@ + " "@);
    assert(" files — paste in a file manager"@ =~= " "@ + "files"@ + tail);
    assert(" file — paste in a file manager"@ =~= " "@ + "file"@ + tail);
    assert(clip_note(true, 1, true) =~= "cut "@ + decimal(1)
        + " file — paste in a file manager"@);
    if n != 1 {
        assert(clip_note(true, n, true) =~= "cut "@ + decimal(n)
            + " files — paste in a file manager"@);
        assert(clip_note(true, n, false) =~= "copied "@ + decimal(n)
            + " files — paste in a file manager"@);
    }
}

/// Before anything is deleted it is said what goes: the one thing by its name,
/// several by their number, and folders as such.
pub proof fn deletions_are_named_or_counted(first: Seq<char>, other: Seq<char>, n: nat, folders: nat)
    requires
        n > 1,
    ensures
        delete_text(first, 1, 0) == "Permanently delete “"@ + first + "”?"@,
        delete_text(first, 1, 1) == "Permanently delete the folder “"@ + first
            + "” and everything in it?"@,
        delete_text(first, n, folders) == delete_text(other, n, folders),
        delete_text(first, n, 0) == "Permanently delete "@ + decimal(n) + " files?"@,
        delete_text(first, n, 1) == "Permanently delete "@ + decimal(n) + " items, including "@
            + decimal(1) + " folder and everything in it?"@,
        folders > 1 ==> delete_text(first, n, folders) == "Permanently delete "@ + decimal(n)
            + " items, including "@ + decimal(folders) + " folders and everything in them?"@,
{
    reveal_strlit(" folder");
    reveal_strlit("s");
    reveal_strlit(" and everything in ");
    reveal_strlit("it");
    reveal_strlit("them");
    reveal_strlit("?");
    reveal_strlit(" folder and everything in it?");
    reveal_strlit(" folders and everything in them?");
    assert(" folder and everything in it?"@ =~= " folder"@ + " and everything in "@ + "it"@ + "?"@);
    assert(" folders and everything in them?"@ =~= " folder"@ + "s"@ + " and everything in "@
        + "them"@ + "?"@);
    let head = "Permanently delete "@ + decimal(n) + " items, including "@;
    assert(delete_text(first, n, 1) =~= head + decimal(1) + " folder and everything in it?"@);
    if folders > 1 {
        assert(delete_text(first, n, folders) =~= head + decimal(folders)
            + " folders and everything in them?"@);
    }
}

/// A failure is reported whatever else went well, and what went well is named or
/// counted.
pub proof fn removals_are_reported(
    done: nat,
    last: Seq<char>,
    e: Seq<char>,
    any: Option<Seq<char>>,
    permanent: bool,
)
    ensures
        removal_text(permanent, 0, any, Some(e)) == "could not delete: "@ + e,
        done > 0 ==> removal_text(true, done, any, Some(e)) == "deleted "@ + decimal(done)
            + "; one failed: "@ + e,
        done > 0 ==> removal_text(false, done, any, Some(e)) == "moved to trash "@ + decimal(done)
            + "; one failed: "@ + e,
        removal_text(true, 1, Some(last), None) == "deleted: "@ + last,
        removal_text(false, 1, Some(last), None) == "moved to trash: "@ + last,
        done != 1 ==> removal_text(true, done, any, None) == "deleted "@ + decimal(done)
            + " files"@,
        done != 1 ==> removal_text(false, done, any, None) == "moved to trash "@ + decimal(done)
            + " files"@,
{
    reveal_strlit("deleted");
    reveal_strlit("moved to trash");
    reveal_strlit("deleted ");
    reveal_strlit("moved to trash ");
    reveal_strlit("deleted: ");
    reveal_strlit("moved to trash: ");
    reveal_strlit(" ");
    reveal_strlit(": ");
    assert("deleted "@ =~= "deleted"@ + " "@);
    assert("moved to trash "@ =~= "moved to trash"@ + " "@);
    assert("deleted: "@ =~= "deleted"@ + ": "@);
    assert("moved to trash: "@ =~= "moved to trash"@ + ": "@);
}

/// A start is taken off as often as it stands there, and nothing else is.
pub proof fn starts_are_taken_off(s: Seq<char>, head: Seq<char>)
    requires
        head.len() > 0,
    ensures
        without_start(head + s, head) == without_start(s, head),
        s.len() < head.len() || s.take(head.len() as int) != head ==> without_start(s, head) == s,
{
    assert((head + s).take(head.len() as int) =~= head);
    assert((head + s).skip(head.len() as int) =~= s);
}

/// The helper succeeded when its status is 0; a refusal to authorize it is told
/// from a fault, and what it printed of a fault is passed on.
pub proof fn helpers_succeed_with_zero(code: Option<i32>, out: Seq<char>, err: Seq<char>)
    ensures
        configure_text(code, out, err) is Ok <==> code == Some(0i32),
        configure_text(Some(0), out, err) == Ok::<_, Seq<char>>(trimmed(out)),
        configure_text(Some(126), out, err) == Err::<Seq<char>, _>(
            "Cancelled; the folders are unchanged."@,
        ),
        configure_text(Some(127), out, err) == Err::<Seq<char>, _>(
            "Not authorized; the folders are unchanged."@,
        ),
        code != Some(0i32) && code != Some(126i32) && code != Some(127i32) && trimmed(err).len() > 0
            ==> configure_text(code, out, err) == Err::<Seq<char>, _>(
            without_start(trimmed(err), "spoor: "@),
        ),
        code != Some(0i32) && code != Some(126i32) && code != Some(127i32) && trimmed(err).len()
            == 0 ==> configure_text(code, out, err) == Err::<Seq<char>, _>(
            "Could not save the folders."@,
        ),
{
}

/// Minutes are set as they are shown, and never less than one.
pub proof fn minutes_are_shown_as_set(m: int, secs: int)
    requires
        secs >= 0,
    ensures
        m >= 1 ==> whole_minutes(whole_seconds(m)) == m,
        m < 1 ==> whole_minutes(whole_seconds(m)) == 1,
        whole_minutes(secs) >= 1,
        secs >= 60 ==> whole_minutes(secs) * 60 <= secs < whole_minutes(secs) * 60 + 60,
        m >= 1 ==> whole_seconds(m) == 60 * m,
{
}

/// Nothing is deleted for good without Shift, letters do nothing without
/// Control, and every other key is passed on.
pub proof fn keys_act_as_labelled(key: ListKey, ctrl: bool, shift: bool)
    ensures
        action_of(key, ctrl, shift) == ListAction::Delete <==> key is Delete && shift,
        action_of(key, ctrl, shift) == ListAction::Trash <==> key is Delete && !shift,
        action_of(key, ctrl, shift) == ListAction::Copy <==> key is C && ctrl,
        action_of(key, ctrl, shift) == ListAction::Cut <==> key is X && ctrl,
{
}

/// A row opens alone unless it is one of several selected, and up to ten files
/// are opened without asking.
pub proof fn rows_open_together_when_selected_together(n: nat)
    ensures
        all_opened(n, true) <==> n >= 2,
        !all_opened(n, false),
        asked_first(n) <==> n >= 11,
{
}

} // verus!
