//! Run configuration: the prompting mode, its command-line flags, and
//! the yes/no answers the interactive prompt accepts.

use vstd::prelude::*;
use crate::utils::{bytes_eq, clone_bytes};
use crate::hashcache::paths_view;

verus! {

/// How the run answers the per-pair "should we hard-link?" question:
/// always yes, always no, or by asking the user each time.
#[derive(Debug, Copy, Clone, PartialEq, Eq, Structural, Hash)]
pub enum PromptUserMode {
    DefaultYes,
    DefaultNo,
    Prompt,
}

impl Default for PromptUserMode {
    /// The mode used when no flag selects one: ask the user.
    fn default() -> (r: Self)
        ensures
            r == PromptUserMode::Prompt,
    {
        PromptUserMode::Prompt
    }
}

impl PromptUserMode {
    /// The fixed answer the mode dictates, or `None` when it defers to
    /// the user.
    pub fn as_default(self) -> (r: Option<bool>)
        ensures
            self == PromptUserMode::DefaultNo ==> r == Some(false),
            self == PromptUserMode::DefaultYes ==> r == Some(true),
            self == PromptUserMode::Prompt ==> r is None,
    {
        match self {
            PromptUserMode::DefaultNo => Some(false),
            PromptUserMode::DefaultYes => Some(true),
            PromptUserMode::Prompt => None,
        }
    }
}

/// The bytes of the flag that selects interactive prompting.
pub open spec fn flag_prompt() -> Seq<u8> {
    seq![45u8, 45u8, 112u8, 114u8, 111u8, 109u8, 112u8, 116u8]
}

/// The bytes of the flag that answers every prompt with yes.
pub open spec fn flag_default_yes() -> Seq<u8> {
    seq![45u8, 45u8, 100u8, 101u8, 102u8, 97u8, 117u8, 108u8, 116u8, 45u8, 121u8, 101u8, 115u8]
}

/// The bytes of the flag that answers every prompt with no.
pub open spec fn flag_default_no() -> Seq<u8> {
    seq![45u8, 45u8, 100u8, 101u8, 102u8, 97u8, 117u8, 108u8, 116u8, 45u8, 110u8, 111u8]
}

/// The argument is one of the three mode flags.
pub open spec fn is_mode_flag(a: Seq<u8>) -> bool {
    a == flag_prompt() || a == flag_default_yes() || a == flag_default_no()
}

/// The mode a flag selects.
pub open spec fn mode_of_flag(a: Seq<u8>) -> PromptUserMode {
    if a == flag_default_yes() {
        PromptUserMode::DefaultYes
    } else if a == flag_default_no() {
        PromptUserMode::DefaultNo
    } else {
        PromptUserMode::Prompt
    }
}

/// The directory roots among the arguments: everything that is not a
/// mode flag, in order.
pub open spec fn spec_dirs(args: Seq<Seq<u8>>) -> Seq<Seq<u8>> {
    args.filter(|a: Seq<u8>| !is_mode_flag(a))
}

/// The mode the arguments select: the last mode flag wins, and without
/// one the run prompts interactively.
pub open spec fn spec_mode(args: Seq<Seq<u8>>) -> PromptUserMode
    decreases args.len(),
{
    if args.len() == 0 {
        PromptUserMode::Prompt
    } else if is_mode_flag(args.last()) {
        mode_of_flag(args.last())
    } else {
        spec_mode(args.drop_last())
    }
}

fn flag_prompt_vec() -> (r: Vec<u8>)
    ensures
        r@ == flag_prompt(),
{
    let mut v: Vec<u8> = Vec::new();
    v.push(45u8);
    v.push(45u8);
    v.push(112u8);
    v.push(114u8);
    v.push(111u8);
    v.push(109u8);
    v.push(112u8);
    v.push(116u8);
    proof {
        assert(v@ =~= flag_prompt());
    }
    v
}

fn flag_default_yes_vec() -> (r: Vec<u8>)
    ensures
        r@ == flag_default_yes(),
{
    let mut v: Vec<u8> = Vec::new();
    v.push(45u8);
    v.push(45u8);
    v.push(100u8);
    v.push(101u8);
    v.push(102u8);
    v.push(97u8);
    v.push(117u8);
    v.push(108u8);
    v.push(116u8);
    v.push(45u8);
    v.push(121u8);
    v.push(101u8);
    v.push(115u8);
    proof {
        assert(v@ =~= flag_default_yes());
    }
    v
}

fn flag_default_no_vec() -> (r: Vec<u8>)
    ensures
        r@ == flag_default_no(),
{
    let mut v: Vec<u8> = Vec::new();
    v.push(45u8);
    v.push(45u8);
    v.push(100u8);
    v.push(101u8);
    v.push(102u8);
    v.push(97u8);
    v.push(117u8);
    v.push(108u8);
    v.push(116u8);
    v.push(45u8);
    v.push(110u8);
    v.push(111u8);
    proof {
        assert(v@ =~= flag_default_no());
    }
    v
}

/// The run's configuration: the selected prompting mode and the
/// directory roots to scan, as byte-string paths.
#[derive(Debug)]
pub struct AppArgs {
    /// The prompting mode the flags selected.
    pub prompt_mode: PromptUserMode,
    /// The directory roots, in the order given. May be empty: the caller
    /// supplies its own default root then.
    pub dirs: Vec<Vec<u8>>,
}

impl AppArgs {
    /// Sorts raw command-line arguments into directory roots and the
    /// prompting mode: mode flags select the mode, the last one winning,
    /// and every other argument is a root.
    pub fn parse(raw: &Vec<Vec<u8>>) -> (r: AppArgs)
        ensures
            paths_view(r.dirs@) == spec_dirs(paths_view(raw@)),
            r.prompt_mode == spec_mode(paths_view(raw@)),
    {
        let flag_p = flag_prompt_vec();
        let flag_y = flag_default_yes_vec();
        let flag_n = flag_default_no_vec();
        let mut dirs: Vec<Vec<u8>> = Vec::new();
        let mut prompt_mode = PromptUserMode::Prompt;
        let mut i: usize = 0;
        proof {
            assert(paths_view(raw@.take(0)) =~= Seq::<Seq<u8>>::empty());
            assert(paths_view(dirs@) =~= Seq::<Seq<u8>>::empty());
            assert(Seq::<Seq<u8>>::empty().filter(|a: Seq<u8>| !is_mode_flag(a))
                =~= Seq::<Seq<u8>>::empty());
        }
        while i < raw.len()
            invariant
                i <= raw@.len(),
                flag_p@ == flag_prompt(),
                flag_y@ == flag_default_yes(),
                flag_n@ == flag_default_no(),
                paths_view(dirs@) == spec_dirs(paths_view(raw@.take(i as int))),
                prompt_mode == spec_mode(paths_view(raw@.take(i as int))),
            decreases raw@.len() - i,
        {
            let ghost prefix = paths_view(raw@.take(i as int));
            let arg = &raw[i];
            let is_p = bytes_eq(arg, &flag_p);
            let is_y = bytes_eq(arg, &flag_y);
            let is_n = bytes_eq(arg, &flag_n);
            let ghost dirs0 = dirs@;
            if is_p {
                prompt_mode = PromptUserMode::Prompt;
            } else if is_y {
                prompt_mode = PromptUserMode::DefaultYes;
            } else if is_n {
                prompt_mode = PromptUserMode::DefaultNo;
            } else {
                dirs.push(clone_bytes(arg));
            }
            proof {
                let a = raw@[i as int]@;
                let next = paths_view(raw@.take(i + 1));
                assert(raw@.take(i + 1) =~= raw@.take(i as int).push(raw@[i as int]));
                assert(next =~= prefix.push(a));
                assert(next.drop_last() =~= prefix);
                prefix.lemma_filter_push(a, |x: Seq<u8>| !is_mode_flag(x));
                if is_p || is_y || is_n {
                    assert(is_mode_flag(a));
                    assert(spec_dirs(next) == spec_dirs(prefix));
                    assert(spec_mode(next) == mode_of_flag(a));
                } else {
                    assert(!is_mode_flag(a));
                    assert(spec_dirs(next) == spec_dirs(prefix).push(a));
                    assert(paths_view(dirs@) =~= paths_view(dirs0).push(a));
                    assert(spec_mode(next) == spec_mode(prefix));
                }
            }
            i += 1;
        }
        proof {
            assert(raw@.take(raw@.len() as int) =~= raw@);
        }
        AppArgs { prompt_mode, dirs }
    }
}

/// The byte is ASCII whitespace: tab, line feed, form feed, carriage
/// return or space.
pub open spec fn is_ws(b: u8) -> bool {
    b == 9 || b == 10 || b == 12 || b == 13 || b == 32
}

/// The line with its leading and trailing whitespace removed.
pub open spec fn trimmed(s: Seq<u8>) -> Seq<u8>
    decreases s.len(),
{
    if s.len() == 0 {
        s
    } else if is_ws(s.first()) {
        trimmed(s.drop_first())
    } else if is_ws(s.last()) {
        trimmed(s.drop_last())
    } else {
        s
    }
}

proof fn lemma_trimmed_subrange(s: Seq<u8>, lo: int, hi: int)
    requires
        0 <= lo <= hi <= s.len(),
        forall|t: int| 0 <= t < lo ==> is_ws(s[t]),
        forall|t: int| hi <= t < s.len() ==> is_ws(s[t]),
        lo < hi ==> !is_ws(s[lo]) && !is_ws(s[hi - 1]),
    ensures
        trimmed(s) == s.subrange(lo, hi),
    decreases s.len(),
{
    if s.len() == 0 {
    } else if is_ws(s.first()) {
        if lo == 0 {
            assert(hi == 0);
            lemma_trimmed_subrange(s.drop_first(), 0, 0);
            assert(s.subrange(0, 0) =~= s.drop_first().subrange(0, 0));
        } else {
            lemma_trimmed_subrange(s.drop_first(), lo - 1, hi - 1);
            assert(s.subrange(lo, hi) =~= s.drop_first().subrange(lo - 1, hi - 1));
        }
    } else if is_ws(s.last()) {
        assert(lo == 0);
        assert(hi < s.len());
        lemma_trimmed_subrange(s.drop_last(), lo, hi);
        assert(s.subrange(lo, hi) =~= s.drop_last().subrange(lo, hi));
    } else {
        assert(lo == 0);
        assert(hi == s.len());
        assert(s.subrange(0, s.len() as int) =~= s);
    }
}

/// Reports whether the byte is ASCII whitespace.
fn is_ws_byte(b: u8) -> (r: bool)
    ensures
        r == is_ws(b),
{
    b == 9 || b == 10 || b == 12 || b == 13 || b == 32
}

/// The exact affirmative answers the interactive prompt accepts.
pub open spec fn is_yes(s: Seq<u8>) -> bool {
    ||| s == seq![121u8]
    ||| s == seq![89u8]
    ||| s == seq![121u8, 101u8, 115u8]
    ||| s == seq![89u8, 101u8, 115u8]
    ||| s == seq![89u8, 69u8, 83u8]
}

/// Decides whether one line of user input is an affirmative answer: its
/// trimmed form is exactly `y`, `Y`, `yes`, `Yes` or `YES`,
/// case-sensitively; anything else, the empty line included, declines.
pub fn is_yes_response(line: &Vec<u8>) -> (r: bool)
    ensures
        r == is_yes(trimmed(line@)),
{
    let mut lo: usize = 0;
    while lo < line.len() && is_ws_byte(line[lo])
        invariant
            lo <= line.len(),
            forall|t: int| 0 <= t < lo ==> is_ws(line@[t]),
        decreases line@.len() - lo,
    {
        lo += 1;
    }
    let mut hi: usize = line.len();
    while hi > lo && is_ws_byte(line[hi - 1])
        invariant
            lo <= hi <= line.len(),
            forall|t: int| hi <= t < line@.len() ==> is_ws(line@[t]),
        decreases hi,
    {
        hi -= 1;
    }
    let mut answer: Vec<u8> = Vec::new();
    let mut k: usize = lo;
    while k < hi
        invariant
            lo <= k <= hi <= line.len(),
            answer@ == line@.subrange(lo as int, k as int),
        decreases hi - k,
    {
        answer.push(line[k]);
        proof {
            assert(line@.subrange(lo as int, k + 1) =~= line@.subrange(lo as int, k as int).push(
                line@[k as int],
            ));
        }
        k += 1;
    }
    proof {
        lemma_trimmed_subrange(line@, lo as int, hi as int);
        assert(answer@ == trimmed(line@));
    }
    let mut cand: Vec<u8> = Vec::new();
    cand.push(121u8);
    proof {
        assert(cand@ =~= seq![121u8]);
    }
    if bytes_eq(&answer, &cand) {
        return true;
    }
    let mut cand: Vec<u8> = Vec::new();
    cand.push(89u8);
    proof {
        assert(cand@ =~= seq![89u8]);
    }
    if bytes_eq(&answer, &cand) {
        return true;
    }
    let mut cand: Vec<u8> = Vec::new();
    cand.push(121u8);
    cand.push(101u8);
    cand.push(115u8);
    proof {
        assert(cand@ =~= seq![121u8, 101u8, 115u8]);
    }
    if bytes_eq(&answer, &cand) {
        return true;
    }
    let mut cand: Vec<u8> = Vec::new();
    cand.push(89u8);
    cand.push(101u8);
    cand.push(115u8);
    proof {
        assert(cand@ =~= seq![89u8, 101u8, 115u8]);
    }
    if bytes_eq(&answer, &cand) {
        return true;
    }
    let mut cand: Vec<u8> = Vec::new();
    cand.push(89u8);
    cand.push(69u8);
    cand.push(83u8);
    proof {
        assert(cand@ =~= seq![89u8, 69u8, 83u8]);
    }
    if bytes_eq(&answer, &cand) {
        return true;
    }
    false
}

} // verus!
