//! Classifying a message into a command, and what each command asks for next.

use vstd::prelude::*;
use vstd::string::{StrSliceExecFns, StringExecFns};
use crate::codeforces::{
    is_division, problem_url, problems_address, problems_query, random_reply, LAST_CONTEST,
};
use crate::error::BotError;
use crate::omegaup::omegaup_random_endpoint;
use crate::text::{
    contains, occurs, occurs_at, parse_bounded, parse_unsigned, same_text, split_words, trim,
    trimmed, views, words,
};
use crate::uva::{uva_base, uva_reply};

verus! {

/// What a message asks for.
pub enum Command {
    /// A random Codeforces problem.
    RandomCodeforces,
    /// A random omegaUp problem.
    RandomOmegaUp,
    /// A random UVA problem: recognised, never answered.
    RandomUva,
    /// The UVA problem with this catalogue number.
    UvaNumeric(u32),
    /// Codeforces problems with these tags; `text` is the argument as written.
    TaggedCodeforces { text: String, tags: Vec<String> },
    /// The three solvers with most problems.
    LeaderboardTop3,
}

/// The classification of a message whose trimmed text is `t`.
pub open spec fn classified(t: Seq<char>, r: Result<Option<Command>, BotError>) -> bool {
    if t == "!cf"@ {
        r matches Ok(Some(Command::RandomCodeforces))
    } else if t == "!oup"@ {
        r matches Ok(Some(Command::RandomOmegaUp))
    } else if t == "!uva"@ {
        r matches Ok(Some(Command::RandomUva))
    } else if t == "!top"@ {
        r matches Ok(Some(Command::LeaderboardTop3))
    } else if occurs(t, "!uva"@) {
        match parse_unsigned(t.skip(5), 0xffff_ffff) {
            Some(v) => r matches Ok(Some(Command::UvaNumeric(n))) && n == v,
            None => r == Err::<Option<Command>, BotError>(BotError::InvalidArgument),
        }
    } else if occurs(t, "!cf"@) {
        r matches Ok(Some(Command::TaggedCodeforces { text, tags })) && text@ == t.skip(3)
            && views(tags@) == words(t.skip(3))
    } else {
        r matches Ok(None)
    }
}

proof fn lemma_longer(t: Seq<char>, p: Seq<char>)
    requires
        occurs(t, p),
        t != p,
    ensures
        t.len() > p.len(),
{
    let i = choose|i: int| occurs_at(t, p, i);
    if t.len() == p.len() {
        assert(t.subrange(0, t.len() as int) =~= t);
    }
}

/// Classifies a message. Exact commands come first; then a message that holds
/// `!uva` anywhere reads its text after the fifth character as a catalogue
/// number, and one that holds `!cf` anywhere reads its text after the third
/// character as tags. Matching `!uva` or `!cf` anywhere in the text is a known
/// ambiguity: unrelated text that happens to hold either is taken as a command.
pub fn classify(message: &str) -> (r: Result<Option<Command>, BotError>)
    ensures
        classified(trimmed(message@), r),
{
    let t = trim(message);
    if same_text(t, "!cf") {
        return Ok(Some(Command::RandomCodeforces));
    }
    if same_text(t, "!oup") {
        return Ok(Some(Command::RandomOmegaUp));
    }
    if same_text(t, "!uva") {
        return Ok(Some(Command::RandomUva));
    }
    if same_text(t, "!top") {
        return Ok(Some(Command::LeaderboardTop3));
    }
    let n = t.unicode_len();
    proof {
        reveal_strlit("!uva");
        reveal_strlit("!cf");
    }
    if contains(t, "!uva") {
        proof {
            lemma_longer(t@, "!uva"@);
        }
        let arg = t.substring_char(5, n);
        assert(arg@ =~= t@.skip(5));
        return match parse_bounded(arg, 0xffff_ffff) {
            Some(v) => Ok(Some(Command::UvaNumeric(v))),
            None => Err(BotError::InvalidArgument),
        };
    }
    if contains(t, "!cf") {
        proof {
            lemma_longer(t@, "!cf"@);
        }
        let arg = t.substring_char(3, n);
        assert(arg@ =~= t@.skip(3));
        let tags = split_words(arg);
        return Ok(Some(Command::TaggedCodeforces { text: String::from_str(arg), tags }));
    }
    Ok(None)
}

/// A UVA request whose argument is not a catalogue number of at least 64 is
/// refused: classifying the message fails with `InvalidArgument`, or yields a
/// number below 64, whose plan is the failure `InvalidArgument`.
pub proof fn lemma_uva_bad_argument(message: Seq<char>, r: Result<Option<Command>, BotError>)
    requires
        classified(trimmed(message), r),
        occurs(trimmed(message), "!uva"@),
        trimmed(message) != "!uva"@,
        !(parse_unsigned(trimmed(message).skip(5), 0xffff_ffff) matches Some(v) && v >= 64),
    ensures
        r == Err::<Option<Command>, BotError>(BotError::InvalidArgument) || (r matches Ok(
            Some(Command::UvaNumeric(n)),
        ) && n < 64),
{
    let t = trimmed(message);
    reveal_strlit("!uva");
    reveal_strlit("!cf");
    reveal_strlit("!oup");
    reveal_strlit("!top");
    let i = choose|i: int| occurs_at(t, "!uva"@, i);
    if t.len() == 4 {
        assert(i == 0);
        assert(t =~= t.subrange(0, 4));
    }
    assert(t != "!cf"@);
    assert(t != "!oup"@ && t != "!top"@) by {
        if t.len() == 4 {
            assert(t[1] == 'u');
        }
    }
}

/// What resolving a command needs next.
pub enum Action {
    /// Send this text.
    Reply(String),
    /// Send nothing.
    Silent,
    /// Resolution failed; send nothing.
    Fail(BotError),
    /// Follow the redirect of this address and resolve with the path it ends at.
    FetchRedirect(String),
    /// Fetch the leaderboard feed at this address.
    FetchFeed(String),
    /// Fetch and decode the problem list at this address.
    FetchProblems(String),
}

pub open spec fn feed_address() -> Seq<char> {
    "https://docs.google.com/spreadsheets/d/1_2EKicfuSAUhUHD4V6ey_nhgAqrF_GBlDRLXdYjvvfw/gviz/tq?tqx=out:csv&sheet=introducci\u{f3}n&range=D47:R47"@
}

/// Decides the first step of resolving `command`. Commands that need no outside
/// data are answered at once.
pub fn plan(command: &Command) -> (r: Action)
    ensures
        match command {
            Command::RandomCodeforces => r matches Action::Reply(s) && exists|
                contest: nat,
                letter: char,
            |
                1 <= contest <= LAST_CONTEST && is_division(letter) && s@ == problem_url(
                    contest,
                    seq![letter],
                ),
            Command::RandomOmegaUp => r matches Action::FetchRedirect(a) && a@
                == "https://omegaup.com/problem/random/language/"@,
            Command::RandomUva => r is Silent,
            Command::UvaNumeric(n) => if *n < 64 {
                r == Action::Fail(BotError::InvalidArgument)
            } else {
                r matches Action::Reply(s) && s@ == uva_base() + crate::text::decimal(
                    (*n - 64) as nat,
                )
            },
            Command::TaggedCodeforces { text, tags } => r matches Action::FetchProblems(a) && a@
                == problems_address(views(tags@)),
            Command::LeaderboardTop3 => r matches Action::FetchFeed(a) && a@ == feed_address(),
        },
{
    match command {
        Command::RandomCodeforces => Action::Reply(random_reply()),
        Command::RandomOmegaUp => Action::FetchRedirect(omegaup_random_endpoint()),
        Command::RandomUva => Action::Silent,
        Command::UvaNumeric(n) => match uva_reply(*n) {
            Ok(s) => Action::Reply(s),
            Err(e) => Action::Fail(e),
        },
        Command::TaggedCodeforces { text, tags } => Action::FetchProblems(problems_query(tags)),
        Command::LeaderboardTop3 => Action::FetchFeed(
            String::from_str(
                "https://docs.google.com/spreadsheets/d/1_2EKicfuSAUhUHD4V6ey_nhgAqrF_GBlDRLXdYjvvfw/gviz/tq?tqx=out:csv&sheet=introducci\u{f3}n&range=D47:R47",
            ),
        ),
    }
}

} // verus!
