//! The shell's command-line parser: a command name, its arguments and an
//! optional output redirection (`> path` or `>> path`).
use vstd::prelude::*;

use crate::strs::{
    find_char, find_in, find_pair, find_pair_in, split_words, split_ws, string_of, sub_chars,
    to_chars, trim, trim_bounds,
};

verus! {

/// A parsed command line.
#[derive(Debug, Clone)]
pub struct Command {
    pub cmd: String,
    pub args: Vec<String>,
    /// The redirection target and whether it appends.
    pub redirect: Option<(String, bool)>,
}

pub struct CommandView {
    pub cmd: Seq<char>,
    pub args: Seq<Seq<char>>,
    pub redirect: Option<(Seq<char>, bool)>,
}

impl View for Command {
    type V = CommandView;

    open spec fn view(&self) -> CommandView {
        CommandView {
            cmd: self.cmd@,
            args: self.args@.map_values(|a: String| a@),
            redirect: match self.redirect {
                Some((p, app)) => Some((p@, app)),
                None => None,
            },
        }
    }
}

/// The words before a redirection and the redirection itself: a `>>`
/// appends to the trimmed text after it, else a `>` writes to it.
pub open spec fn split_redirect(l: Seq<char>) -> (Seq<char>, Option<(Seq<char>, bool)>) {
    match find_pair(l, '>', '>') {
        Some(p) => (trim(l.take(p)), Some((trim(l.skip(p + 2)), true))),
        None => match find_char(l, '>') {
            Some(p) => (trim(l.take(p)), Some((trim(l.skip(p + 1)), false))),
            None => (l, None),
        },
    }
}

/// The command that a line holds, if it holds a command word.
pub open spec fn parse_spec(line: Seq<char>) -> Option<CommandView> {
    let l = trim(line);
    if l.len() == 0 {
        None
    } else {
        let (rest, redirect) = split_redirect(l);
        let parts = split_ws(rest);
        if parts.len() == 0 {
            None
        } else {
            Some(CommandView { cmd: parts[0], args: parts.drop_first(), redirect })
        }
    }
}

/// `trim(cs[from..to])`, as characters.
fn trimmed(cs: &Vec<char>, from: usize, to: usize) -> (r: Vec<char>)
    requires
        from <= to <= cs@.len(),
    ensures
        r@ == trim(cs@.subrange(from as int, to as int)),
{
    let s = sub_chars(cs, from, to);
    let (a, b) = trim_bounds(&s);
    sub_chars(&s, a, b)
}

/// Parses a command line: `None` for a line with no command word.
pub fn parse_line(line: &str) -> (r: Option<Command>)
    ensures
        match r {
            Some(c) => parse_spec(line@) == Some(c@),
            None => parse_spec(line@) is None,
        },
{
    let cs = to_chars(line);
    let l = trimmed(&cs, 0, cs.len());
    proof {
        assert(cs@.subrange(0, cs@.len() as int) =~= line@);
    }
    if l.len() == 0 {
        return None;
    }
    let (rest, redirect): (Vec<char>, Option<(String, bool)>) = match find_pair_in(&l, '>', '>') {
        Some(p) => {
            proof {
                crate::strs::lemma_find_pair(l@, '>', '>');
                assert(l@.take(p as int) =~= l@.subrange(0, p as int));
                assert(l@.skip(p + 2) =~= l@.subrange(p + 2, l@.len() as int));
            }
            let before = trimmed(&l, 0, p);
            let after = trimmed(&l, p + 2, l.len());
            (before, Some((string_of(&after, 0, after.len()), true)))
        },
        None => match find_in(&l, '>') {
            Some(p) => {
                proof {
                    crate::strs::lemma_find_char(l@, '>');
                    assert(l@.take(p as int) =~= l@.subrange(0, p as int));
                    assert(l@.skip(p + 1) =~= l@.subrange(p + 1, l@.len() as int));
                }
                let before = trimmed(&l, 0, p);
                let after = trimmed(&l, p + 1, l.len());
                (before, Some((string_of(&after, 0, after.len()), false)))
            },
            None => (l, None),
        },
    };
    proof {
        let sr = split_redirect(trim(line@));
        assert(rest@ == sr.0);
        match &redirect {
            Some((pth, app)) => {
                assert(sr.1 == Some((pth@, *app))) by {
                    assert(pth@ =~= (sr.1->0).0);
                }
            },
            None => {},
        }
    }
    let parts = split_words(&rest, 0, rest.len());
    proof {
        assert(rest@.subrange(0, rest@.len() as int) =~= rest@);
    }
    if parts.len() == 0 {
        return None;
    }
    let mut args: Vec<String> = Vec::new();
    let mut i: usize = 1;
    while i < parts.len()
        invariant
            1 <= i <= parts@.len(),
            args@.map_values(|a: String| a@) == parts@.map_values(|w: String| w@).subrange(1, i as int),
        decreases parts@.len() - i,
    {
        let a = parts[i].clone();
        let ghost prev = args@.map_values(|a: String| a@);
        args.push(a);
        proof {
            assert(args@.map_values(|a: String| a@) =~= prev.push(a@));
            assert(args@.map_values(|a: String| a@) =~= parts@.map_values(|w: String| w@).subrange(1, i + 1));
        }
        i = i + 1;
    }
    let cmd = parts[0].clone();
    let c = Command { cmd, args, redirect };
    proof {
        let words = parts@.map_values(|w: String| w@);
        assert(words.drop_first() =~= words.subrange(1, parts@.len() as int));
        assert(c@.args == words.drop_first());
        assert(c@.cmd == words[0]);
    }
    Some(c)
}

} // verus!
