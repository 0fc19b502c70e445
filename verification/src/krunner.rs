//! What the KRunner plugin answers; speaking D-Bus is done elsewhere.

use vstd::prelude::*;
use vstd::utf8::{encode_utf8, is_ascii_chars, is_ascii_chars_encode_utf8};
use crate::bytes::{
    contains, copy_range, has_prefix, occurs, occurs_at, same, starts_with, DOT, SLASH,
};
use crate::fold::{ascii_lower, same_letter, to_ascii_lower};
use crate::selection::name_part;
use crate::split::{after_last_byte, after_last_char, last_at, nothing_follows_the_last};
use crate::text::{chars_of, push_text, same_text, text_of, trim_bounds, trimmed};

verus! {

/// How many results a query asks for.
pub const MAX_RESULTS: usize = 30;

/// Each match is a search; none is made for one or two letters.
pub const MIN_LETTERS: usize = 3;

/// The runner, and where it finds the daemon.
pub struct Runner {
    pub socket: String,
}

/// How well a name matches. An exact file name ranks above an incidental path
/// match.
#[derive(Clone, Copy, Debug, PartialEq, Eq, Structural)]
pub enum Rank {
    /// The name is what was typed.
    Exact,
    /// The name starts with it.
    Prefix,
    /// The name contains it.
    Name,
    /// Only the path does.
    Path,
}

/// One match as KRunner shows it.
pub struct Match {
    pub path: String,
    pub name: String,
    pub icon: &'static str,
    pub rank: Rank,
    pub subtext: String,
    pub url: String,
}

/// What is searched for, if it is enough.
pub open spec fn query_of(typed: Seq<char>) -> Option<Seq<char>> {
    let q = trimmed(typed);
    if encode_utf8(q).len() < MIN_LETTERS {
        None
    } else {
        Some(q)
    }
}

/// Letters in lower case, ASCII only.
pub open spec fn lowered(s: Seq<u8>) -> Seq<u8> {
    Seq::new(s.len(), |i: int| ascii_lower(s[i]))
}

/// How well `path` matches `query`.
pub open spec fn rank_of(path: Seq<u8>, query: Seq<u8>) -> Rank {
    let name = lowered(path.skip(last_at(path, SLASH) + 1));
    let needle = lowered(query);
    if name == needle {
        Rank::Exact
    } else if has_prefix(name, needle) {
        Rank::Prefix
    } else if occurs(name, needle) {
        Rank::Name
    } else {
        Rank::Path
    }
}

/// The icon for an extension.
pub open spec fn icon_text(ext: Seq<u8>) -> Seq<char> {
    if ext == encode_utf8("pdf"@) {
        "application-pdf"@
    } else if ext == encode_utf8("png"@) || ext == encode_utf8("jpg"@) || ext == encode_utf8(
        "jpeg"@,
    ) || ext == encode_utf8("gif"@) || ext == encode_utf8("webp"@) || ext == encode_utf8("svg"@) {
        "image-x-generic"@
    } else if ext == encode_utf8("mp4"@) || ext == encode_utf8("mkv"@) || ext == encode_utf8(
        "webm"@,
    ) || ext == encode_utf8("avi"@) || ext == encode_utf8("mov"@) {
        "video-x-generic"@
    } else if ext == encode_utf8("mp3"@) || ext == encode_utf8("flac"@) || ext == encode_utf8(
        "ogg"@,
    ) || ext == encode_utf8("wav"@) || ext == encode_utf8("opus"@) {
        "audio-x-generic"@
    } else if ext == encode_utf8("zip"@) || ext == encode_utf8("gz"@) || ext == encode_utf8("xz"@)
        || ext == encode_utf8("bz2"@) || ext == encode_utf8("tar"@) || ext == encode_utf8("7z"@)
        || ext == encode_utf8("rar"@) {
        "package-x-generic"@
    } else if ext == encode_utf8("rs"@) || ext == encode_utf8("c"@) || ext == encode_utf8("h"@)
        || ext == encode_utf8("cpp"@) || ext == encode_utf8("py"@) || ext == encode_utf8("sh"@)
        || ext == encode_utf8("js"@) || ext == encode_utf8("ts"@) || ext == encode_utf8("go"@) {
        "text-x-script"@
    } else {
        "text-x-generic"@
    }
}

/// The extension of a path, in lower case: what stands behind the last dot,
/// or all of it.
pub open spec fn extension(path: Seq<u8>) -> Seq<u8> {
    lowered(path.skip(last_at(path, DOT) + 1))
}

/// What is searched for, if it is enough.
pub fn wanted(typed: &str) -> (r: Option<String>)
    ensures
        match r {
            Some(q) => query_of(typed@) == Some(q@),
            None => query_of(typed@) is None,
        },
{
    let s = chars_of(typed);
    let (a, b) = trim_bounds(&s, 0, s.len());
    assert(s@.subrange(0, s@.len() as int) =~= s@);
    let q = text_of(&s, a, b);
    if q.as_str().as_bytes().len() < MIN_LETTERS {
        return None;
    }
    Some(q)
}

/// Letters in lower case, ASCII only.
pub fn lower(s: &[u8]) -> (out: Vec<u8>)
    ensures
        out@ == lowered(s@),
{
    let mut out: Vec<u8> = Vec::new();
    let mut i: usize = 0;
    while i < s.len()
        invariant
            i <= s@.len(),
            out@.len() == i,
            forall|k: int| 0 <= k < i ==> #[trigger] out@[k] == ascii_lower(s@[k]),
        decreases s@.len() - i,
    {
        out.push(to_ascii_lower(s[i]));
        i = i + 1;
    }
    assert(out@ =~= lowered(s@));
    out
}

/// How well `path` matches `query`.
pub fn rank(path: &[u8], query: &[u8]) -> (r: Rank)
    ensures
        r == rank_of(path@, query@),
{
    let at = after_last_byte(path, SLASH);
    let tail = copy_range(path, at, path.len());
    assert(tail@ =~= path@.skip(at as int));
    let name = lower(tail.as_slice());
    let needle = lower(query);
    if same(name.as_slice(), needle.as_slice()) {
        Rank::Exact
    } else if starts_with(name.as_slice(), needle.as_slice()) {
        Rank::Prefix
    } else if contains(name.as_slice(), needle.as_slice()) {
        Rank::Name
    } else {
        Rank::Path
    }
}

/// Is `ext` the word `w`?
fn is(ext: &Vec<u8>, w: &str) -> (r: bool)
    ensures
        r == (ext@ == encode_utf8(w@)),
{
    same(ext.as_slice(), w.as_bytes())
}

/// The icon for a path, by its extension.
pub fn icon_for(path: &str) -> (s: &'static str)
    ensures
        s@ == icon_text(extension(encode_utf8(path@))),
{
    let b = path.as_bytes();
    let at = after_last_byte(b, DOT);
    let tail = copy_range(b, at, b.len());
    assert(tail@ =~= b@.skip(at as int));
    let e = lower(tail.as_slice());
    if is(&e, "pdf") {
        "application-pdf"
    } else if is(&e, "png") || is(&e, "jpg") || is(&e, "jpeg") || is(&e, "gif") || is(&e, "webp")
        || is(&e, "svg") {
        "image-x-generic"
    } else if is(&e, "mp4") || is(&e, "mkv") || is(&e, "webm") || is(&e, "avi") || is(&e, "mov") {
        "video-x-generic"
    } else if is(&e, "mp3") || is(&e, "flac") || is(&e, "ogg") || is(&e, "wav") || is(&e, "opus") {
        "audio-x-generic"
    } else if is(&e, "zip") || is(&e, "gz") || is(&e, "xz") || is(&e, "bz2") || is(&e, "tar") || is(
        &e,
        "7z",
    ) || is(&e, "rar") {
        "package-x-generic"
    } else if is(&e, "rs") || is(&e, "c") || is(&e, "h") || is(&e, "cpp") || is(&e, "py") || is(
        &e,
        "sh",
    ) || is(&e, "js") || is(&e, "ts") || is(&e, "go") {
        "text-x-script"
    } else {
        "text-x-generic"
    }
}

/// What stands before the last separator.
pub open spec fn before_name(path: Seq<char>) -> Seq<char> {
    if last_at(path, '/') < 0 {
        seq![]
    } else {
        path.take(last_at(path, '/'))
    }
}

/// How a match is handed to other programs.
pub open spec fn url_of(path: Seq<char>) -> Seq<char> {
    "file://"@ + path
}

/// A result as KRunner shows it.
pub fn match_of(path: &str, query: &str) -> (m: Match)
    ensures
        m.path@ == path@,
        m.name@ == name_part(path@),
        m.icon@ == icon_text(extension(encode_utf8(path@))),
        m.rank == rank_of(encode_utf8(path@), encode_utf8(query@)),
        m.subtext@ == before_name(path@),
        m.url@ == url_of(path@),
{
    let s = chars_of(path);
    let at = after_last_char(&s, '/');
    let name = text_of(&s, at, s.len());
    assert(name@ =~= name_part(path@));
    let subtext = if at == 0 {
        String::new()
    } else {
        text_of(&s, 0, at - 1)
    };
    assert(subtext@ =~= before_name(path@));
    let mut url = String::new();
    push_text(&mut url, "file://");
    push_text(&mut url, path);
    assert(url@ =~= "file://"@ + path@);
    Match {
        path: path.to_owned(),
        name,
        icon: icon_for(path),
        rank: rank(path.as_bytes(), query.as_bytes()),
        subtext,
        url,
    }
}

/// What an action opens: the match, or with the "folder" action the folder it
/// is in.
pub open spec fn target_of(path: Seq<char>, action: Seq<char>) -> Seq<char> {
    if action != "folder"@ {
        path
    } else if last_at(path, '/') <= 0 {
        seq!['/']
    } else {
        path.take(last_at(path, '/'))
    }
}

/// What an action opens.
pub fn run_target(path: &str, action: &str) -> (t: String)
    ensures
        t@ == target_of(path@, action@),
{
    if !same_text(action, "folder") {
        return path.to_owned();
    }
    let s = chars_of(path);
    let at = after_last_char(&s, '/');
    if at <= 1 {
        let mut t = String::new();
        t.push('/');
        assert(t@ =~= seq!['/']);
        return t;
    }
    let t = text_of(&s, 0, at - 1);
    assert(t@ =~= path@.take(at - 1));
    t
}

/// A better rank never goes to a worse match: an exact name is a prefix of
/// itself, and a prefix is contained.
pub proof fn ranks_are_ordered(path: Seq<u8>, query: Seq<u8>)
    ensures
        ({
            let name = lowered(path.skip(last_at(path, SLASH) + 1));
            let needle = lowered(query);
            &&& rank_of(path, query) == Rank::Exact ==> has_prefix(name, needle)
            &&& has_prefix(name, needle) ==> occurs(name, needle)
            &&& rank_of(path, query) == Rank::Path <==> !occurs(name, needle)
        }),
{
    let name = lowered(path.skip(last_at(path, SLASH) + 1));
    let needle = lowered(query);
    if name == needle {
        assert(name.take(needle.len() as int) =~= needle);
    }
    if has_prefix(name, needle) {
        assert(name.subrange(0, needle.len() as int) =~= name.take(needle.len() as int));
        assert(crate::bytes::occurs_at(name, needle, 0));
    }
}

// Laws.

/// Letters in lower case stand where the letters stood, and nothing else
/// changes.
pub proof fn letters_are_lowered(s: Seq<u8>, i: int)
    requires
        0 <= i < s.len(),
    ensures
        lowered(s).len() == s.len(),
        0x41 <= s[i] <= 0x5a ==> lowered(s)[i] == s[i] + 0x20,
        !(0x41 <= s[i] <= 0x5a) ==> lowered(s)[i] == s[i],
{
}

/// What is typed is searched for without the white space around it, and not
/// before it has three bytes.
pub proof fn short_words_are_not_searched_for(typed: Seq<char>)
    ensures
        encode_utf8(trimmed(typed)).len() < 3 ==> query_of(typed) is None,
        encode_utf8(trimmed(typed)).len() >= 3 ==> query_of(typed) == Some(trimmed(typed)),
{
}

/// Two byte strings differ in nothing but the case of letters.
pub open spec fn same_letters(a: Seq<u8>, b: Seq<u8>) -> bool {
    a.len() == b.len() && forall|i: int| 0 <= i < a.len() ==> same_letter(#[trigger] a[i], b[i])
}

proof fn lemma_same_letters(a: Seq<u8>, b: Seq<u8>)
    ensures
        same_letters(a, b) <==> lowered(a) == lowered(b),
{
    if same_letters(a, b) {
        assert forall|i: int| 0 <= i < a.len() implies lowered(a)[i] == lowered(b)[i] by {
            assert(same_letter(a[i], b[i]));
        }
        assert(lowered(a) =~= lowered(b));
    }
    if lowered(a) == lowered(b) {
        assert(a.len() == lowered(a).len() && b.len() == lowered(b).len());
        assert forall|i: int| 0 <= i < a.len() implies same_letter(#[trigger] a[i], b[i]) by {
            assert(lowered(a)[i] == lowered(b)[i]);
        }
    }
}

/// The name behind the last separator decides the rank: it is what was typed,
/// it starts with that, it holds that, or it does none of these. The case of
/// letters makes no difference.
pub proof fn names_are_ranked(dir: Seq<u8>, a: Seq<u8>, b: Seq<u8>, c: Seq<u8>, query: Seq<u8>)
    requires
        !(a + b + c).contains(0x2f),
        same_letters(b, query),
        query.len() > 0,
    ensures
        ({
            let r = rank_of(dir + seq![0x2fu8] + (a + b + c), query);
            &&& a.len() == 0 && c.len() == 0 ==> r == Rank::Exact
            &&& a.len() == 0 && c.len() > 0 ==> r == Rank::Prefix
            &&& a.len() > 0 ==> r == Rank::Name || r == Rank::Prefix
        }),
{
    let name = a + b + c;
    let path = dir + seq![0x2fu8] + name;
    let (low, needle) = (lowered(name), lowered(query));
    nothing_follows_the_last(dir, name, SLASH);
    assert(path.skip(dir.len() as int + 1) =~= name);
    lemma_same_letters(b, query);
    let at: int = a.len() as int;
    assert(low.subrange(at, at + needle.len()) =~= lowered(b));
    assert(occurs_at(low, needle, at));
    if a.len() == 0 {
        assert(low.take(needle.len() as int) =~= lowered(b));
        if c.len() == 0 {
            assert(low =~= needle);
        }
    }
}

/// A name is ranked by its path alone only where no part of it is what was
/// typed, in any case.
pub proof fn other_names_rank_last(dir: Seq<u8>, name: Seq<u8>, query: Seq<u8>, at: int)
    requires
        !name.contains(0x2f),
        rank_of(dir + seq![0x2fu8] + name, query) == Rank::Path,
        0 <= at,
        at + query.len() <= name.len(),
    ensures
        !same_letters(name.subrange(at, at + query.len()), query),
{
    let path = dir + seq![0x2fu8] + name;
    let (low, needle) = (lowered(name), lowered(query));
    let part = name.subrange(at, at + query.len());
    nothing_follows_the_last(dir, name, SLASH);
    assert(path.skip(dir.len() as int + 1) =~= name);
    if same_letters(part, query) {
        lemma_same_letters(part, query);
        assert(low.subrange(at, at + needle.len()) =~= lowered(part));
        assert(occurs_at(low, needle, at));
    }
}

/// The extension stands behind the last dot, in lower case; what has no dot is
/// its own.
pub proof fn extensions_follow_the_last_dot(stem: Seq<u8>, ext: Seq<u8>)
    requires
        !ext.contains(0x2e),
    ensures
        extension(stem + seq![0x2eu8] + ext) == lowered(ext),
        extension(ext) == lowered(ext),
{
    let path = stem + seq![0x2eu8] + ext;
    nothing_follows_the_last(stem, ext, DOT);
    assert(path.skip(stem.len() as int + 1) =~= ext);
    assert(ext.skip(0) =~= ext);
}

/// Below a match stands its folder; at the top nothing, and of a bare name
/// neither.
pub proof fn folders_stand_below_matches(dir: Seq<char>, name: Seq<char>)
    requires
        !name.contains('/'),
    ensures
        before_name(dir + seq!['/'] + name) == dir,
        before_name(name) == Seq::<char>::empty(),
{
    let path = dir + seq!['/'] + name;
    nothing_follows_the_last(dir, name, '/');
    assert(path.take(dir.len() as int) =~= dir);
}

/// A match is opened itself, except by the action that opens its folder.
pub proof fn folders_are_opened_when_asked(dir: Seq<char>, name: Seq<char>, action: Seq<char>)
    requires
        !name.contains('/'),
    ensures
        target_of(dir + seq!['/'] + name, "folder"@) == (if dir.len() == 0 {
            seq!['/']
        } else {
            dir
        }),
        action != "folder"@ ==> target_of(dir + seq!['/'] + name, action) == dir + seq!['/'] + name,
        target_of(name, "folder"@) == seq!['/'],
{
    let path = dir + seq!['/'] + name;
    nothing_follows_the_last(dir, name, '/');
    assert(path.take(dir.len() as int) =~= dir);
}

proof fn lemma_word(w: Seq<char>, b: Seq<u8>)
    requires
        is_ascii_chars(w),
        w.len() == b.len(),
        forall|i: int| 0 <= i < w.len() ==> (#[trigger] w[i]) as u8 == b[i],
    ensures
        encode_utf8(w) == b,
{
    is_ascii_chars_encode_utf8(w);
    assert forall|i: int| 0 <= i < b.len() implies encode_utf8(w)[i] == b[i] by {
        assert(w[i] as u8 == b[i]);
    }
    assert(encode_utf8(w) =~= b);
}

proof fn lemma_words_pdf()
    ensures
        encode_utf8("pdf"@) == seq![0x70u8, 0x64, 0x66],
{
    reveal_strlit("pdf");
    lemma_word("pdf"@, seq![0x70u8, 0x64, 0x66]);
}

proof fn lemma_words_pictures()
    ensures
        encode_utf8("png"@) == seq![0x70u8, 0x6e, 0x67],
        encode_utf8("jpg"@) == seq![0x6au8, 0x70, 0x67],
        encode_utf8("jpeg"@) == seq![0x6au8, 0x70, 0x65, 0x67],
        encode_utf8("gif"@) == seq![0x67u8, 0x69, 0x66],
        encode_utf8("webp"@) == seq![0x77u8, 0x65, 0x62, 0x70],
        encode_utf8("svg"@) == seq![0x73u8, 0x76, 0x67],
{
    reveal_strlit("png");
    lemma_word("png"@, seq![0x70u8, 0x6e, 0x67]);
    reveal_strlit("jpg");
    lemma_word("jpg"@, seq![0x6au8, 0x70, 0x67]);
    reveal_strlit("jpeg");
    lemma_word("jpeg"@, seq![0x6au8, 0x70, 0x65, 0x67]);
    reveal_strlit("gif");
    lemma_word("gif"@, seq![0x67u8, 0x69, 0x66]);
    reveal_strlit("webp");
    lemma_word("webp"@, seq![0x77u8, 0x65, 0x62, 0x70]);
    reveal_strlit("svg");
    lemma_word("svg"@, seq![0x73u8, 0x76, 0x67]);
}

proof fn lemma_words_films()
    ensures
        encode_utf8("mp4"@) == seq![0x6du8, 0x70, 0x34],
        encode_utf8("mkv"@) == seq![0x6du8, 0x6b, 0x76],
        encode_utf8("webm"@) == seq![0x77u8, 0x65, 0x62, 0x6d],
        encode_utf8("avi"@) == seq![0x61u8, 0x76, 0x69],
        encode_utf8("mov"@) == seq![0x6du8, 0x6f, 0x76],
{
    reveal_strlit("mp4");
    lemma_word("mp4"@, seq![0x6du8, 0x70, 0x34]);
    reveal_strlit("mkv");
    lemma_word("mkv"@, seq![0x6du8, 0x6b, 0x76]);
    reveal_strlit("webm");
    lemma_word("webm"@, seq![0x77u8, 0x65, 0x62, 0x6d]);
    reveal_strlit("avi");
    lemma_word("avi"@, seq![0x61u8, 0x76, 0x69]);
    reveal_strlit("mov");
    lemma_word("mov"@, seq![0x6du8, 0x6f, 0x76]);
}

proof fn lemma_words_sounds()
    ensures
        encode_utf8("mp3"@) == seq![0x6du8, 0x70, 0x33],
        encode_utf8("flac"@) == seq![0x66u8, 0x6c, 0x61, 0x63],
        encode_utf8("ogg"@) == seq![0x6fu8, 0x67, 0x67],
        encode_utf8("wav"@) == seq![0x77u8, 0x61, 0x76],
        encode_utf8("opus"@) == seq![0x6fu8, 0x70, 0x75, 0x73],
{
    reveal_strlit("mp3");
    lemma_word("mp3"@, seq![0x6du8, 0x70, 0x33]);
    reveal_strlit("flac");
    lemma_word("flac"@, seq![0x66u8, 0x6c, 0x61, 0x63]);
    reveal_strlit("ogg");
    lemma_word("ogg"@, seq![0x6fu8, 0x67, 0x67]);
    reveal_strlit("wav");
    lemma_word("wav"@, seq![0x77u8, 0x61, 0x76]);
    reveal_strlit("opus");
    lemma_word("opus"@, seq![0x6fu8, 0x70, 0x75, 0x73]);
}

proof fn lemma_words_packages()
    ensures
        encode_utf8("zip"@) == seq![0x7au8, 0x69, 0x70],
        encode_utf8("gz"@) == seq![0x67u8, 0x7a],
        encode_utf8("xz"@) == seq![0x78u8, 0x7a],
        encode_utf8("bz2"@) == seq![0x62u8, 0x7a, 0x32],
        encode_utf8("tar"@) == seq![0x74u8, 0x61, 0x72],
        encode_utf8("7z"@) == seq![0x37u8, 0x7a],
        encode_utf8("rar"@) == seq![0x72u8, 0x61, 0x72],
{
    reveal_strlit("zip");
    lemma_word("zip"@, seq![0x7au8, 0x69, 0x70]);
    reveal_strlit("gz");
    lemma_word("gz"@, seq![0x67u8, 0x7a]);
    reveal_strlit("xz");
    lemma_word("xz"@, seq![0x78u8, 0x7a]);
    reveal_strlit("bz2");
    lemma_word("bz2"@, seq![0x62u8, 0x7a, 0x32]);
    reveal_strlit("tar");
    lemma_word("tar"@, seq![0x74u8, 0x61, 0x72]);
    reveal_strlit("7z");
    lemma_word("7z"@, seq![0x37u8, 0x7a]);
    reveal_strlit("rar");
    lemma_word("rar"@, seq![0x72u8, 0x61, 0x72]);
}

proof fn lemma_words_scripts()
    ensures
        encode_utf8("rs"@) == seq![0x72u8, 0x73],
        encode_utf8("c"@) == seq![0x63u8],
        encode_utf8("h"@) == seq![0x68u8],
        encode_utf8("cpp"@) == seq![0x63u8, 0x70, 0x70],
        encode_utf8("py"@) == seq![0x70u8, 0x79],
        encode_utf8("sh"@) == seq![0x73u8, 0x68],
        encode_utf8("js"@) == seq![0x6au8, 0x73],
        encode_utf8("ts"@) == seq![0x74u8, 0x73],
        encode_utf8("go"@) == seq![0x67u8, 0x6f],
{
    reveal_strlit("rs");
    lemma_word("rs"@, seq![0x72u8, 0x73]);
    reveal_strlit("c");
    lemma_word("c"@, seq![0x63u8]);
    reveal_strlit("h");
    lemma_word("h"@, seq![0x68u8]);
    reveal_strlit("cpp");
    lemma_word("cpp"@, seq![0x63u8, 0x70, 0x70]);
    reveal_strlit("py");
    lemma_word("py"@, seq![0x70u8, 0x79]);
    reveal_strlit("sh");
    lemma_word("sh"@, seq![0x73u8, 0x68]);
    reveal_strlit("js");
    lemma_word("js"@, seq![0x6au8, 0x73]);
    reveal_strlit("ts");
    lemma_word("ts"@, seq![0x74u8, 0x73]);
    reveal_strlit("go");
    lemma_word("go"@, seq![0x67u8, 0x6f]);
}

/// The icon tells pictures, films, sounds, packages, programs and documents
/// apart by their extensions; everything else is text.
pub proof fn icons_tell_kinds_apart(ext: Seq<u8>)
    ensures
        ext == encode_utf8("pdf"@) ==> icon_text(ext) == "application-pdf"@,
        ext == encode_utf8("png"@) || ext == encode_utf8("jpg"@) || ext == encode_utf8("jpeg"@)
            || ext == encode_utf8("gif"@) || ext == encode_utf8("webp"@)
            || ext == encode_utf8("svg"@) ==> icon_text(ext) == "image-x-generic"@,
        ext == encode_utf8("mp4"@) || ext == encode_utf8("mkv"@) || ext == encode_utf8("webm"@)
            || ext == encode_utf8("avi"@) || ext == encode_utf8("mov"@)
            ==> icon_text(ext) == "video-x-generic"@,
        ext == encode_utf8("mp3"@) || ext == encode_utf8("flac"@) || ext == encode_utf8("ogg"@)
            || ext == encode_utf8("wav"@) || ext == encode_utf8("opus"@)
            ==> icon_text(ext) == "audio-x-generic"@,
        ext == encode_utf8("zip"@) || ext == encode_utf8("gz"@) || ext == encode_utf8("xz"@)
            || ext == encode_utf8("bz2"@) || ext == encode_utf8("tar"@)
            || ext == encode_utf8("7z"@) || ext == encode_utf8("rar"@)
            ==> icon_text(ext) == "package-x-generic"@,
        ext == encode_utf8("rs"@) || ext == encode_utf8("c"@) || ext == encode_utf8("h"@)
            || ext == encode_utf8("cpp"@) || ext == encode_utf8("py"@)
            || ext == encode_utf8("sh"@) || ext == encode_utf8("js"@) || ext == encode_utf8("ts"@)
            || ext == encode_utf8("go"@) ==> icon_text(ext) == "text-x-script"@,
        ext.len() > 4 || ext.len() == 0 ==> icon_text(ext) == "text-x-generic"@,
{
    lemma_words_pdf();
    lemma_words_pictures();
    lemma_words_films();
    lemma_words_sounds();
    lemma_words_packages();
    lemma_words_scripts();
    if ext.len() >= 2 {
        assert(ext[0] == ext[0] && ext[1] == ext[1]);
    }
    if ext.len() == 3 {
        assert(ext[2] == ext[2]);
    }
}

/// A match is handed on as a file, by its path.
pub proof fn matches_are_handed_on_as_files(path: Seq<char>)
    ensures
        url_of(path).len() == 7 + path.len(),
        url_of(path).take(7) == seq!['f', 'i', 'l', 'e', ':', '/', '/'],
        url_of(path).skip(7) == path,
{
    reveal_strlit("file://");
    assert(url_of(path).take(7) =~= seq!['f', 'i', 'l', 'e', ':', '/', '/']);
    assert(url_of(path).skip(7) =~= path);
}

} // verus!
