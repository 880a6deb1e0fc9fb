//! The key-pattern matcher: a pattern is an anchored literal in which each
//! `*` stands for one or more arbitrary characters.

use vstd::prelude::*;

verus! {

use vstd::string::StrSliceExecFns;
use vstd::string::StringExecFns;

/// Whether the pattern matches the whole candidate. A `*` consumes one or
/// more characters; every other character stands for itself.
pub open spec fn glob_match(p: Seq<char>, s: Seq<char>) -> bool
    decreases p.len(), s.len(),
{
    if p.len() == 0 {
        s.len() == 0
    } else if p[0] == '*' {
        s.len() >= 1 && (glob_match(p.drop_first(), s.drop_first()) || glob_match(
            p,
            s.drop_first(),
        ))
    } else {
        s.len() >= 1 && p[0] == s[0] && glob_match(p.drop_first(), s.drop_first())
    }
}

/// Decides the match from the given positions onward.
fn glob_match_at(p: &str, s: &str, pi: usize, si: usize) -> (r: bool)
    requires
        pi <= p@.len(),
        si <= s@.len(),
    ensures
        r == glob_match(p@.skip(pi as int), s@.skip(si as int)),
    decreases p@.len() - pi, s@.len() - si,
{
    let plen = p.unicode_len();
    let slen = s.unicode_len();
    proof {
        if pi < plen {
            assert(p@.skip(pi as int)[0] == p@[pi as int]);
            assert(p@.skip(pi as int).drop_first() =~= p@.skip(pi + 1));
        }
        if si < slen {
            assert(s@.skip(si as int)[0] == s@[si as int]);
            assert(s@.skip(si as int).drop_first() =~= s@.skip(si + 1));
        }
    }
    if pi == plen {
        return si == slen;
    }
    let pc = p.get_char(pi);
    if si == slen {
        return false;
    }
    if pc == '*' {
        if glob_match_at(p, s, pi + 1, si + 1) {
            true
        } else {
            glob_match_at(p, s, pi, si + 1)
        }
    } else {
        let sc = s.get_char(si);
        if pc == sc {
            glob_match_at(p, s, pi + 1, si + 1)
        } else {
            false
        }
    }
}

/// A compiled key pattern.
#[derive(Debug)]
pub struct Glob {
    pub pattern: String,
}

impl Glob {
    /// Compiles a pattern; every pattern is admissible.
    pub fn new(pattern: &str) -> (r: Option<Glob>)
        ensures
            r matches Some(g) && g.pattern@ == pattern@,
    {
        Some(Glob { pattern: String::from_str(pattern) })
    }

    /// Whether the whole candidate matches the pattern.
    pub fn matches(&self, candidate: &str) -> (r: bool)
        ensures
            r == glob_match(self.pattern@, candidate@),
    {
        let r = glob_match_at(self.pattern.as_str(), candidate, 0, 0);
        proof {
            assert(self.pattern@.skip(0) =~= self.pattern@);
            assert(candidate@.skip(0) =~= candidate@);
        }
        r
    }
}

} // verus!
