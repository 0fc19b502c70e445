//! The options of a search.

use vstd::prelude::*;
use crate::text::chars_of;

verus! {

/// Which kinds of entry a search returns.
#[derive(Clone, Copy, Debug, PartialEq, Eq, Structural)]
pub enum Kind {
    All,
    Files,
    Folders,
}

impl Default for Kind {
    fn default() -> (k: Kind)
        ensures
            k == Kind::All,
    {
        Kind::All
    }
}

/// The options of a search.
///
/// Travels over the socket as a compact flag string: c = match case,
/// r = regex, p = search in path, f = files only, d = folders only,
/// h = hide dotfiles, and "-" for none.
#[derive(Clone, Copy, Debug, PartialEq, Eq, Structural)]
pub struct SearchOpts {
    pub match_case: bool,
    pub regex: bool,
    pub in_path: bool,
    pub kind: Kind,
    pub hide_hidden: bool,
}

/// No option set.
pub open spec fn no_opts() -> SearchOpts {
    SearchOpts {
        match_case: false,
        regex: false,
        in_path: false,
        kind: Kind::All,
        hide_hidden: false,
    }
}

impl Default for SearchOpts {
    fn default() -> (o: SearchOpts)
        ensures
            o == no_opts(),
    {
        SearchOpts {
            match_case: false,
            regex: false,
            in_path: false,
            kind: Kind::All,
            hide_hidden: false,
        }
    }
}

/// One flag if `on`, and nothing else.
pub open spec fn flag_if(on: bool, c: char) -> Seq<char> {
    if on {
        seq![c]
    } else {
        seq![]
    }
}

/// The flags of `o`, in their fixed order.
pub open spec fn flags_of(o: SearchOpts) -> Seq<char> {
    let s = flag_if(o.match_case, 'c') + flag_if(o.regex, 'r') + flag_if(o.in_path, 'p') + flag_if(
        o.kind == Kind::Files,
        'f',
    ) + flag_if(o.kind == Kind::Folders, 'd') + flag_if(o.hide_hidden, 'h');
    if s.len() == 0 {
        seq!['-']
    } else {
        s
    }
}

/// What one more flag does.
pub open spec fn with_flag(o: SearchOpts, c: char) -> SearchOpts {
    if c == 'c' {
        SearchOpts { match_case: true, ..o }
    } else if c == 'r' {
        SearchOpts { regex: true, ..o }
    } else if c == 'p' {
        SearchOpts { in_path: true, ..o }
    } else if c == 'f' {
        SearchOpts { kind: Kind::Files, ..o }
    } else if c == 'd' {
        SearchOpts { kind: Kind::Folders, ..o }
    } else if c == 'h' {
        SearchOpts { hide_hidden: true, ..o }
    } else {
        o
    }
}

/// The options that a flag string stands for. Unknown flags are ignored.
pub open spec fn opts_of(flags: Seq<char>) -> SearchOpts
    decreases flags.len(),
{
    if flags.len() == 0 {
        no_opts()
    } else {
        with_flag(opts_of(flags.drop_last()), flags.last())
    }
}

impl SearchOpts {
    pub fn to_flags(&self) -> (s: String)
        ensures
            s@ == flags_of(*self),
    {
        let mut s = String::new();
        if self.match_case {
            s.push('c');
        }
        if self.regex {
            s.push('r');
        }
        if self.in_path {
            s.push('p');
        }
        match self.kind {
            Kind::Files => s.push('f'),
            Kind::Folders => s.push('d'),
            Kind::All => {},
        }
        if self.hide_hidden {
            s.push('h');
        }
        let ghost all = flag_if(self.match_case, 'c') + flag_if(self.regex, 'r') + flag_if(
            self.in_path,
            'p',
        ) + flag_if(self.kind == Kind::Files, 'f') + flag_if(self.kind == Kind::Folders, 'd')
            + flag_if(self.hide_hidden, 'h');
        assert(s@ =~= all);
        if !(self.match_case || self.regex || self.in_path || self.hide_hidden || self.kind
            != Kind::All) {
            assert(s@.len() == 0);
            s.push('-');
            assert(s@ =~= seq!['-']);
        }
        s
    }

    pub fn from_flags(flags: &str) -> (o: SearchOpts)
        ensures
            o == opts_of(flags@),
    {
        let chars = chars_of(flags);
        let mut o = SearchOpts::default();
        let mut i: usize = 0;
        while i < chars.len()
            invariant
                i <= chars.len(),
                o == opts_of(chars@.take(i as int)),
            decreases chars.len() - i,
        {
            assert(chars@.take(i + 1).drop_last() =~= chars@.take(i as int));
            match chars[i] {
                'c' => {
                    o.match_case = true;
                },
                'r' => {
                    o.regex = true;
                },
                'p' => {
                    o.in_path = true;
                },
                'f' => {
                    o.kind = Kind::Files;
                },
                'd' => {
                    o.kind = Kind::Folders;
                },
                'h' => {
                    o.hide_hidden = true;
                },
                _ => {},
            }
            i = i + 1;
        }
        assert(chars@.take(i as int) =~= flags@);
        o
    }
}

proof fn lemma_opts_push(s: Seq<char>, on: bool, c: char)
    ensures
        opts_of(s + flag_if(on, c)) == (if on {
            with_flag(opts_of(s), c)
        } else {
            opts_of(s)
        }),
{
    let t = s + flag_if(on, c);
    if on {
        assert(t.drop_last() =~= s);
    } else {
        assert(t =~= s);
    }
}

/// Reading back the flags of any options gives those options.
pub proof fn flags_round_trip(o: SearchOpts)
    ensures
        opts_of(flags_of(o)) == o,
{
    let e = Seq::<char>::empty();
    let a = e + flag_if(o.match_case, 'c');
    let b = a + flag_if(o.regex, 'r');
    let c = b + flag_if(o.in_path, 'p');
    let d = c + flag_if(o.kind == Kind::Files, 'f');
    let f = d + flag_if(o.kind == Kind::Folders, 'd');
    let g = f + flag_if(o.hide_hidden, 'h');
    lemma_opts_push(e, o.match_case, 'c');
    lemma_opts_push(a, o.regex, 'r');
    lemma_opts_push(b, o.in_path, 'p');
    lemma_opts_push(c, o.kind == Kind::Files, 'f');
    lemma_opts_push(d, o.kind == Kind::Folders, 'd');
    lemma_opts_push(f, o.hide_hidden, 'h');
    assert(a =~= flag_if(o.match_case, 'c'));
    assert(opts_of(g) == o);
    if g.len() == 0 {
        assert(seq!['-'].drop_last() =~= e);
        assert(o == no_opts());
    }
}

/// Each letter switches on what it stands for, wherever it stands among the
/// flags, and nothing else does.
pub proof fn letters_stand_for_options(flags: Seq<char>)
    ensures
        opts_of(flags).match_case <==> flags.contains('c'),
        opts_of(flags).regex <==> flags.contains('r'),
        opts_of(flags).in_path <==> flags.contains('p'),
        opts_of(flags).hide_hidden <==> flags.contains('h'),
        opts_of(flags).kind == Kind::All <==> !flags.contains('f') && !flags.contains('d'),
    decreases flags.len(),
{
    if flags.len() > 0 {
        let t = flags.drop_last();
        letters_stand_for_options(t);
        assert forall|c: char| #[trigger] flags.contains(c) == (t.contains(c) || flags.last()
            == c) by {
            if t.contains(c) {
                let i = choose|i: int| 0 <= i < t.len() && t[i] == c;
                assert(flags[i] == c);
            }
            if flags.contains(c) && flags.last() != c {
                let i = choose|i: int| 0 <= i < flags.len() && flags[i] == c;
                assert(t[i] == c);
            }
            if flags.last() == c {
                assert(flags[flags.len() - 1] == c);
            }
        }
    }
}

/// Of the letters that choose a kind the last one counts.
pub proof fn the_last_kind_counts(before: Seq<char>, after: Seq<char>)
    requires
        !after.contains('f'),
        !after.contains('d'),
    ensures
        opts_of(before + seq!['f'] + after).kind == Kind::Files,
        opts_of(before + seq!['d'] + after).kind == Kind::Folders,
    decreases after.len(),
{
    let (x, y) = (before + seq!['f'] + after, before + seq!['d'] + after);
    if after.len() > 0 {
        let t = after.drop_last();
        assert forall|i: int| 0 <= i < t.len() implies t[i] != 'f' && t[i] != 'd' by {
            assert(after.contains(after[i]));
        }
        assert(after.contains(after.last()));
        assert(x.drop_last() =~= before + seq!['f'] + t);
        assert(y.drop_last() =~= before + seq!['d'] + t);
        the_last_kind_counts(before, t);
    }
}

/// Options are written by the letters that stand for them; a dash stands where
/// there is none.
pub proof fn options_are_written_in_letters(o: SearchOpts)
    ensures
        flags_of(o).contains('c') <==> o.match_case,
        flags_of(o).contains('r') <==> o.regex,
        flags_of(o).contains('p') <==> o.in_path,
        flags_of(o).contains('h') <==> o.hide_hidden,
        flags_of(o).contains('f') || flags_of(o).contains('d') <==> o.kind != Kind::All,
        flags_of(o).len() > 0,
        o == no_opts() ==> flags_of(o) == seq!['-'],
{
    flags_round_trip(o);
    letters_stand_for_options(flags_of(o));
}

} // verus!
