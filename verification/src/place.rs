//! Where one path stands against another, and what a path says.

use vstd::prelude::*;
use vstd::utf8::{
    encode_utf8, encode_utf8_decode_utf8, is_ascii_chars, is_ascii_chars_encode_utf8,
};
use crate::bytes::{has_prefix, same, starts_with, views, SLASH};
use crate::split::{
    lemma_pieces_from, lemma_pieces_run, pieces, pieces_part_at_separators, runs_are_not_parted,
    split_chars,
};
use crate::text::{
    chars_of, lemma_encode_concat, lemma_encode_first, push_text, text_of, texts,
};

verus! {

/// `path` is `dir` or lies beneath it.
pub open spec fn beneath(path: Seq<u8>, dir: Seq<u8>) -> bool {
    ||| dir == seq![SLASH]
    ||| path == dir
    ||| has_prefix(path, dir) && path.len() > dir.len() && path[dir.len() as int] == SLASH
}

/// The same of texts.
pub open spec fn within(p: Seq<char>, dir: Seq<char>) -> bool {
    beneath(encode_utf8(p), encode_utf8(dir))
}

/// `path` is `mount` or lies beneath it.
pub fn under(path: &[u8], mount: &[u8]) -> (r: bool)
    ensures
        r == beneath(path@, mount@),
{
    if mount.len() == 1 && mount[0] == SLASH {
        assert(mount@ =~= seq![SLASH]);
        return true;
    }
    if same(path, mount) {
        return true;
    }
    assert(mount@ != seq![SLASH]);
    starts_with(path, mount) && path.len() > mount.len() && path[mount.len()] == SLASH
}

/// `p` is `dir` or lies beneath it.
pub fn is_within(p: &str, dir: &str) -> (r: bool)
    ensures
        r == within(p@, dir@),
{
    under(p.as_bytes(), dir.as_bytes())
}

/// `p` lies in one of `dirs`.
pub open spec fn within_any(p: Seq<char>, dirs: Seq<Seq<char>>) -> bool {
    exists|i: int| 0 <= i < dirs.len() && within(p, #[trigger] dirs[i])
}

/// `p` lies in one of `dirs`.
pub fn is_within_any(p: &str, dirs: &Vec<String>) -> (r: bool)
    ensures
        r == within_any(p@, texts(dirs@)),
{
    let mut i: usize = 0;
    while i < dirs.len()
        invariant
            i <= dirs.len(),
            forall|k: int| 0 <= k < i ==> !within(p@, #[trigger] texts(dirs@)[k]),
        decreases dirs.len() - i,
    {
        if is_within(p, dirs[i].as_str()) {
            assert(within(p@, texts(dirs@)[i as int]));
            return true;
        }
        i = i + 1;
    }
    false
}

// Paths as they are written.

/// A character that no path in a settings file may hold.
pub open spec fn breaks_line(c: char) -> bool {
    c == '\n' || c == '\r' || c == '\0'
}

pub open spec fn has_break(p: Seq<char>) -> bool {
    exists|i: int| 0 <= i < p.len() && breaks_line(#[trigger] p[i])
}

/// The first `k` components, each behind a separator; empty ones and `.` say
/// nothing.
pub open spec fn tidied(parts: Seq<Seq<char>>, k: nat) -> Seq<char>
    decreases k,
{
    if k == 0 {
        seq![]
    } else {
        let part = parts[k - 1];
        let before = tidied(parts, (k - 1) as nat);
        if part.len() == 0 || part == seq!['.'] {
            before
        } else {
            before + seq!['/'] + part
        }
    }
}

/// Absolute, no `..`, no stray separators; or why not.
pub open spec fn lexical_of(p: Seq<char>, what: Seq<char>) -> Result<Seq<char>, Seq<char>> {
    let parts = pieces(p, '/');
    if has_break(p) {
        Err(what + " contains a line break"@)
    } else if p.len() == 0 || p[0] != '/' {
        Err(what + " "@ + p + " is not an absolute path"@)
    } else if parts.contains(seq!['.', '.']) {
        Err(what + " "@ + p + " may not contain .."@)
    } else {
        let out = tidied(parts, parts.len());
        Ok(
            if out.len() == 0 {
                seq!['/']
            } else {
                out
            },
        )
    }
}

/// `what p tail`
pub open spec fn complaint(what: Seq<char>, p: Seq<char>, tail: Seq<char>) -> Seq<char> {
    what + " "@ + p + tail
}

/// `what p tail`
pub fn complain(what: &str, p: &str, tail: &str) -> (e: String)
    ensures
        e@ == complaint(what@, p@, tail@),
{
    let mut e = String::new();
    push_text(&mut e, what);
    push_text(&mut e, " ");
    push_text(&mut e, p);
    push_text(&mut e, tail);
    assert(e@ =~= complaint(what@, p@, tail@));
    e
}

/// Absolute, no `..`, no stray separators; not required to exist.
pub fn lexical(p: &str, what: &str) -> (r: Result<String, String>)
    ensures
        match r {
            Ok(s) => lexical_of(p@, what@) == Ok::<_, Seq<char>>(s@),
            Err(e) => lexical_of(p@, what@) == Err::<Seq<char>, _>(e@),
        },
{
    let chars = chars_of(p);
    let mut i: usize = 0;
    while i < chars.len()
        invariant
            i <= chars.len(),
            chars@ == p@,
            forall|k: int| 0 <= k < i ==> !breaks_line(#[trigger] p@[k]),
        decreases chars.len() - i,
    {
        if chars[i] == '\n' || chars[i] == '\r' || chars[i] == '\0' {
            assert(breaks_line(p@[i as int]));
            let mut e = what.to_owned();
            push_text(&mut e, " contains a line break");
            return Err(e);
        }
        i = i + 1;
    }
    assert(!has_break(p@));
    if chars.len() == 0 || chars[0] != '/' {
        return Err(complain(what, p, " is not an absolute path"));
    }
    let parts = split_chars(&chars, '/');
    let ghost all = pieces(p@, '/');
    let mut out = String::new();
    let mut j: usize = 0;
    let ghost dots = seq!['.', '.'];
    while j < parts.len()
        invariant
            j <= parts.len(),
            p@.len() > 0 && p@[0] == '/' && !has_break(p@),
            views(parts@) == all,
            all == pieces(p@, '/'),
            dots == seq!['.', '.'],
            out@ == tidied(all, j as nat),
            forall|k: int| 0 <= k < j ==> #[trigger] all[k] != dots,
        decreases parts.len() - j,
    {
        let part = &parts[j];
        assert(all[j as int] == part@);
        if part.len() == 2 && part[0] == '.' && part[1] == '.' {
            assert(part@ =~= dots);
            assert(all.contains(dots));
            return Err(complain(what, p, " may not contain .."));
        }
        proof {
            if part@ == dots {
                assert(part@[0] == '.' && part@[1] == '.');
            }
        }
        if part.len() == 0 || (part.len() == 1 && part[0] == '.') {
            proof {
                if part@.len() == 1 {
                    assert(part@ =~= seq!['.']);
                }
            }
        } else {
            let ghost before = out@;
            out.push('/');
            let name = text_of(part, 0, part.len());
            push_text(&mut out, name.as_str());
            proof {
                assert(part@ != seq!['.']) by {
                    if part@ == seq!['.'] {
                        assert(part@[0] == '.');
                    }
                }
                assert(part@.subrange(0, part@.len() as int) =~= part@);
                assert(out@ =~= before + seq!['/'] + part@);
            }
        }
        j = j + 1;
    }
    proof {
        assert(!all.contains(dots)) by {
            if all.contains(dots) {
                let k = choose|k: int| 0 <= k < all.len() && all[k] == dots;
                assert(all[k] != dots);
            }
        }
    }
    if out.as_str().is_empty() {
        let mut root = String::new();
        root.push('/');
        proof {
            assert(root@ =~= seq!['/']);
        }
        return Ok(root);
    }
    Ok(out)
}

/// What is tidied is absolute.
pub proof fn lexical_paths_are_absolute(p: Seq<char>, what: Seq<char>)
    requires
        lexical_of(p, what) is Ok,
    ensures
        lexical_of(p, what)->Ok_0.len() > 0,
        lexical_of(p, what)->Ok_0[0] == '/',
{
    lemma_tidied_absolute(pieces(p, '/'), pieces(p, '/').len());
}

proof fn lemma_tidied_absolute(parts: Seq<Seq<char>>, k: nat)
    ensures
        tidied(parts, k).len() > 0 ==> tidied(parts, k)[0] == '/',
    decreases k,
{
    if k > 0 {
        lemma_tidied_absolute(parts, (k - 1) as nat);
    }
}

/// The components that say something.
pub open spec fn telling(parts: Seq<Seq<char>>, k: nat) -> Seq<Seq<char>>
    decreases k,
{
    if k == 0 {
        seq![]
    } else {
        let part = parts[k - 1];
        let before = telling(parts, (k - 1) as nat);
        if part.len() == 0 || part == seq!['.'] {
            before
        } else {
            before.push(part)
        }
    }
}

proof fn lemma_tidied_pieces(parts: Seq<Seq<char>>, k: nat)
    requires
        k <= parts.len(),
        forall|i: int| 0 <= i < parts.len() ==> !(#[trigger] parts[i]).contains('/'),
    ensures
        pieces(tidied(parts, k), '/') == seq![Seq::<char>::empty()] + telling(parts, k),
    decreases k,
{
    if k == 0 {
        assert(pieces(Seq::<char>::empty(), '/') =~= seq![Seq::<char>::empty()] + telling(
            parts,
            0,
        ));
    } else {
        lemma_tidied_pieces(parts, (k - 1) as nat);
        let part = parts[k - 1];
        let before = tidied(parts, (k - 1) as nat);
        if !(part.len() == 0 || part == seq!['.']) {
            let slash = before + seq!['/'];
            assert(slash.drop_last() =~= before);
            assert(!part.contains('/'));
            lemma_pieces_run(slash, part, '/');
            let ps = pieces(slash, '/');
            assert(ps == pieces(before, '/').push(seq![]));
            assert(ps.drop_last() =~= pieces(before, '/'));
            assert(ps.last() + part =~= part);
            assert(pieces(tidied(parts, k), '/') =~= seq![Seq::<char>::empty()] + telling(
                parts,
                k,
            ));
        }
    }
}

proof fn lemma_telling_tidied(parts: Seq<Seq<char>>, k: nat)
    requires
        k <= parts.len(),
    ensures
        ({
            let all = seq![Seq::<char>::empty()] + telling(parts, k);
            tidied(all, all.len()) == tidied(parts, k)
        }),
    decreases k,
{
    reveal_with_fuel(tidied, 2);
    let none = seq![Seq::<char>::empty()];
    if k > 0 {
        lemma_telling_tidied(parts, (k - 1) as nat);
        let part = parts[k - 1];
        let before = none + telling(parts, (k - 1) as nat);
        let all = none + telling(parts, k);
        if part.len() == 0 || part == seq!['.'] {
            assert(all == before);
        } else {
            assert(all =~= before.push(part));
            lemma_tidied_prefix(before, part, before.len());
        }
    }
}

proof fn lemma_tidied_prefix(parts: Seq<Seq<char>>, part: Seq<char>, k: nat)
    requires
        k <= parts.len(),
    ensures
        tidied(parts.push(part), k) == tidied(parts, k),
    decreases k,
{
    if k > 0 {
        lemma_tidied_prefix(parts, part, (k - 1) as nat);
    }
}

proof fn lemma_telling_from(parts: Seq<Seq<char>>, k: nat)
    requires
        k <= parts.len(),
    ensures
        forall|i: int|
            0 <= i < telling(parts, k).len() ==> parts.contains(#[trigger] telling(parts, k)[i]),
    decreases k,
{
    if k > 0 {
        lemma_telling_from(parts, (k - 1) as nat);
        let before = telling(parts, (k - 1) as nat);
        let all = telling(parts, k);
        assert(parts.contains(parts[k - 1]));
        assert forall|i: int| 0 <= i < all.len() implies parts.contains(#[trigger] all[i]) by {
            if i < before.len() {
                assert(all[i] == before[i]);
            }
        }
    }
}

proof fn lemma_tidied_clean(parts: Seq<Seq<char>>, k: nat)
    requires
        k <= parts.len(),
        forall|i: int| 0 <= i < parts.len() ==> !has_break(#[trigger] parts[i]),
    ensures
        !has_break(tidied(parts, k)),
    decreases k,
{
    if k > 0 {
        lemma_tidied_clean(parts, (k - 1) as nat);
        let before = tidied(parts, (k - 1) as nat);
        let out = tidied(parts, k);
        let part = parts[k - 1];
        assert(!has_break(part));
        assert forall|i: int| 0 <= i < out.len() implies !breaks_line(#[trigger] out[i]) by {
            if i < before.len() {
                assert(out[i] == before[i]);
            } else if i > before.len() {
                assert(out[i] == part[i - before.len() - 1]);
            }
        }
    }
}

/// A tidied path is left alone.
pub proof fn tidy_paths_stay(p: Seq<char>, what: Seq<char>)
    requires
        lexical_of(p, what) is Ok,
    ensures
        lexical_of(lexical_of(p, what)->Ok_0, what) == lexical_of(p, what),
{
    let parts = pieces(p, '/');
    let q = lexical_of(p, what)->Ok_0;
    let dots = seq!['.', '.'];
    lexical_paths_are_absolute(p, what);
    lemma_pieces_from(p, '/');
    assert forall|i: int| 0 <= i < parts.len() implies !(#[trigger] parts[i]).contains('/')
        && !has_break(parts[i]) by {
        assert forall|k: int| 0 <= k < parts[i].len() implies parts[i][k] != '/' && !breaks_line(
            #[trigger] parts[i][k],
        ) by {
            assert(p.contains(parts[i][k]));
            let at = choose|at: int| 0 <= at < p.len() && p[at] == parts[i][k];
            assert(!breaks_line(p[at]));
        }
    }
    lemma_tidied_pieces(parts, parts.len());
    lemma_telling_tidied(parts, parts.len());
    lemma_telling_from(parts, parts.len());
    lemma_tidied_clean(parts, parts.len());
    let out = tidied(parts, parts.len());
    let again = pieces(out, '/');
    if out.len() > 0 {
        assert(!again.contains(dots)) by {
            if again.contains(dots) {
                let k = choose|k: int| 0 <= k < again.len() && again[k] == dots;
                assert(k > 0) by {
                    assert(again[0].len() == 0);
                }
                assert(again[k] == telling(parts, parts.len())[k - 1]);
            }
        }
    } else {
        let root = seq!['/'];
        reveal_with_fuel(pieces, 3);
        reveal_with_fuel(tidied, 3);
        assert(root.drop_last() =~= Seq::<char>::empty());
        let two = pieces(root, '/');
        assert(two =~= seq![Seq::<char>::empty(), Seq::<char>::empty()]);
        assert(!two.contains(dots)) by {
            if two.contains(dots) {
                let k = choose|k: int| 0 <= k < two.len() && two[k] == dots;
                assert(two[k].len() == 0);
            }
        }
        assert(!has_break(root));
        assert(tidied(two, 2) =~= Seq::<char>::empty());
    }
}

// Laws.

/// Below the root lies everything.
pub proof fn everything_lies_beneath_the_root(path: Seq<u8>)
    ensures
        beneath(path, seq![0x2fu8]),
{
}

/// Beneath a folder lies what stands behind it and a separator; a longer name
/// that only starts like the folder lies beside it.
pub proof fn folders_hold_what_follows_them(dir: Seq<u8>, rest: Seq<u8>)
    requires
        dir != seq![0x2fu8],
    ensures
        beneath(dir, dir),
        beneath(dir + rest, dir) <==> rest.len() == 0 || rest[0] == 0x2f,
{
    assert((dir + rest).take(dir.len() as int) =~= dir);
    if rest.len() == 0 {
        assert(dir + rest =~= dir);
    }
}

/// What lies beneath a folder starts with its path.
pub proof fn paths_start_with_their_folder(path: Seq<u8>, dir: Seq<u8>)
    requires
        beneath(path, dir),
        dir != seq![0x2fu8],
    ensures
        path.len() >= dir.len(),
        path.take(dir.len() as int) == dir,
{
    if path == dir {
        assert(path.take(dir.len() as int) =~= dir);
    }
}

/// The same of texts: beneath a folder lies what stands behind it and a slash.
pub proof fn folders_hold_what_is_written_behind_them(dir: Seq<char>, rest: Seq<char>)
    requires
        dir != seq!['/'],
    ensures
        within(dir, dir),
        within(dir + rest, dir) <==> rest.len() == 0 || rest[0] == '/',
        within(dir + rest, seq!['/']),
{
    let root = seq!['/'];
    assert(is_ascii_chars(root));
    is_ascii_chars_encode_utf8(root);
    assert(root[0] as u8 == encode_utf8(root)[0]);
    assert(encode_utf8(root) =~= seq![0x2fu8]);
    lemma_encode_concat(dir, rest);
    assert(encode_utf8(dir) != seq![0x2fu8]) by {
        if encode_utf8(dir) == encode_utf8(root) {
            encode_utf8_decode_utf8(dir);
            encode_utf8_decode_utf8(root);
        }
    }
    folders_hold_what_follows_them(encode_utf8(dir), encode_utf8(rest));
    if rest.len() > 0 {
        lemma_encode_first(rest);
    } else {
        assert(encode_utf8(rest) =~= Seq::<u8>::empty());
    }
}

proof fn lemma_tidied_concat(x: Seq<Seq<char>>, y: Seq<Seq<char>>, k: nat)
    requires
        k <= y.len(),
    ensures
        tidied(x + y, x.len() + k) == tidied(x, x.len()) + tidied(y, k),
    decreases k,
{
    let before = tidied(x, x.len());
    if k == 0 {
        lemma_tidied_front(x, y, x.len());
        assert(before + tidied(y, 0) =~= before);
    } else {
        lemma_tidied_concat(x, y, (k - 1) as nat);
        assert((x + y)[x.len() + k - 1] == y[k - 1]);
        let tail = tidied(y, (k - 1) as nat);
        assert(before + tail + seq!['/'] + y[k - 1] =~= before + (tail + seq!['/'] + y[k - 1]));
    }
}

proof fn lemma_tidied_front(x: Seq<Seq<char>>, y: Seq<Seq<char>>, k: nat)
    requires
        k <= x.len(),
    ensures
        tidied(x + y, k) == tidied(x, k),
    decreases k,
{
    if k > 0 {
        lemma_tidied_front(x, y, (k - 1) as nat);
    }
}

/// The root is a path, and is left as it is.
pub proof fn the_root_stays(what: Seq<char>)
    ensures
        lexical_of(seq!['/'], what) == Ok::<_, Seq<char>>(seq!['/']),
{
    let root = seq!['/'];
    let none = Seq::<char>::empty();
    pieces_part_at_separators(none, none, '/');
    assert(none + root + none =~= root);
    let two = pieces(root, '/');
    assert(pieces(none, '/') =~= seq![none]);
    assert(two =~= seq![none, none]);
    reveal_with_fuel(tidied, 3);
    assert(tidied(two, 2) =~= none);
    assert(!two.contains(seq!['.', '.'])) by {
        if two.contains(seq!['.', '.']) {
            let k = choose|k: int| 0 <= k < two.len() && two[k] == seq!['.', '.'];
            assert(two[k].len() == 0);
        }
    }
}

/// One name more is one name more of the tidied path; an empty name and a dot
/// say nothing, two dots are refused, and so is whatever follows a path that is
/// refused.
pub proof fn names_are_kept(dir: Seq<char>, name: Seq<char>, what: Seq<char>)
    requires
        dir.len() > 0,
        !name.contains('/'),
        !name.contains('\n'),
        !name.contains('\r'),
        !name.contains('\0'),
    ensures
        match lexical_of(dir, what) {
            Ok(d) => if name == seq!['.', '.'] {
                lexical_of(dir + seq!['/'] + name, what) is Err
            } else if name.len() == 0 || name == seq!['.'] {
                lexical_of(dir + seq!['/'] + name, what) == Ok::<_, Seq<char>>(d)
            } else if d == seq!['/'] {
                lexical_of(dir + seq!['/'] + name, what) == Ok::<_, Seq<char>>(seq!['/'] + name)
            } else {
                lexical_of(dir + seq!['/'] + name, what) == Ok::<_, Seq<char>>(
                    d + seq!['/'] + name,
                )
            },
            Err(_) => lexical_of(dir + seq!['/'] + name, what) is Err,
        },
{
    let p = dir + seq!['/'] + name;
    let none = Seq::<char>::empty();
    let dots = seq!['.', '.'];
    let (x, all) = (pieces(dir, '/'), pieces(p, '/'));
    pieces_part_at_separators(dir, name, '/');
    runs_are_not_parted(name, '/');
    assert(all == x + seq![name]);
    assert(p[0] == dir[0]);
    if has_break(dir) {
        let i = choose|i: int| 0 <= i < dir.len() && breaks_line(#[trigger] dir[i]);
        assert(breaks_line(p[i]));
    } else {
        assert forall|i: int| 0 <= i < p.len() implies !breaks_line(#[trigger] p[i]) by {
            if i < dir.len() {
                assert(!breaks_line(dir[i]));
            } else if i > dir.len() {
                assert(name.contains(p[i])) by {
                    assert(name[i - dir.len() - 1] == p[i]);
                }
            }
        }
    }
    if x.contains(dots) {
        let k = choose|k: int| 0 <= k < x.len() && x[k] == dots;
        assert(all[k] == dots);
    }
    if name == dots {
        assert(all[x.len() as int] == dots);
    } else if !x.contains(dots) {
        assert(!all.contains(dots)) by {
            if all.contains(dots) {
                let k = choose|k: int| 0 <= k < all.len() && all[k] == dots;
                if k < x.len() {
                    assert(x[k] == dots);
                }
            }
        }
    }
    lemma_tidied_concat(x, seq![name], 1);
    reveal_with_fuel(tidied, 2);
    let out = tidied(x, x.len());
    if name.len() == 0 || name == seq!['.'] {
        assert(tidied(seq![name], 1) =~= none);
        assert(out + none =~= out);
    } else {
        assert(tidied(seq![name], 1) =~= seq!['/'] + name);
        assert(out + (seq!['/'] + name) =~= out + seq!['/'] + name);
        if out.len() == 0 {
            assert(out + (seq!['/'] + name) =~= seq!['/'] + name);
        }
        lemma_tidied_names(x, x.len());
    }
}

proof fn lemma_tidied_names(parts: Seq<Seq<char>>, k: nat)
    requires
        k <= parts.len(),
    ensures
        tidied(parts, k).len() != 1,
    decreases k,
{
    if k > 0 {
        lemma_tidied_names(parts, (k - 1) as nat);
    }
}

/// No path is accepted that holds a line break or a zero, that is empty or that
/// does not start at the root.
pub proof fn broken_paths_are_refused(p: Seq<char>, what: Seq<char>)
    ensures
        p.contains('\n') || p.contains('\r') || p.contains('\0') ==> lexical_of(p, what) == Err::<
            Seq<char>,
            _,
        >(what + " contains a line break"@),
        p.len() == 0 ==> lexical_of(p, what) is Err,
        p.len() > 0 && p[0] != '/' ==> lexical_of(p, what) is Err,
{
    if p.contains('\n') || p.contains('\r') || p.contains('\0') {
        let i = choose|i: int| 0 <= i < p.len() && (p[i] == '\n' || p[i] == '\r' || p[i] == '\0');
        assert(breaks_line(p[i]));
    }
}

} // verus!
