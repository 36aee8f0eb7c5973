//! The Codeforces judge: random problems, tagged queries and their replies.

use vstd::prelude::*;
use vstd::string::{StrSliceExecFns, StringExecFns};
use crate::api::Problem;
use crate::draw::draw_below;
use crate::error::BotError;
use crate::text::{decimal, push_decimal, views};

verus! {

/// The highest contest number that a random draw can give.
pub const LAST_CONTEST: u32 = 1452;

pub open spec fn codeforces_base() -> Seq<char> {
    "https://codeforces.com"@
}

/// The link to problem `index` of contest `contest`.
pub open spec fn problem_url(contest: nat, index: Seq<char>) -> Seq<char> {
    codeforces_base() + "/problemset/problem/"@ + decimal(contest) + "/"@ + index
}

pub open spec fn is_division(c: char) -> bool {
    'A' <= c && c <= 'H'
}

fn append_problem_url(out: &mut String, contest: u64, index: &str)
    ensures
        final(out)@ == old(out)@ + problem_url(contest as nat, index@),
{
    out.append("https://codeforces.com");
    out.append("/problemset/problem/");
    push_decimal(out, contest);
    out.append("/");
    out.append(index);
    assert(final(out)@ =~= old(out)@ + problem_url(contest as nat, index@));
}

fn division_text(c: char) -> (r: &'static str)
    requires
        is_division(c),
    ensures
        r@ == seq![c],
{
    let letters = "ABCDEFGH";
    proof {
        reveal_strlit("ABCDEFGH");
    }
    let k = (c as u32 - 'A' as u32) as usize;
    let r = letters.substring_char(k, k + 1);
    assert(r@ =~= seq![c]);
    r
}

/// The link to problem `letter` of contest `contest`.
pub fn random_link(contest: u32, letter: char) -> (r: String)
    requires
        is_division(letter),
    ensures
        r@ == problem_url(contest as nat, seq![letter]),
{
    let mut out = String::new();
    append_problem_url(&mut out, contest as u64, division_text(letter));
    assert(out@ =~= problem_url(contest as nat, seq![letter]));
    out
}

fn division_letter(k: usize) -> (r: char)
    requires
        k < 8,
    ensures
        is_division(r),
{
    if k == 0 {
        'A'
    } else if k == 1 {
        'B'
    } else if k == 2 {
        'C'
    } else if k == 3 {
        'D'
    } else if k == 4 {
        'E'
    } else if k == 5 {
        'F'
    } else if k == 6 {
        'G'
    } else {
        'H'
    }
}

/// Draws a contest number in `1..=1452` and a division letter in `'A'..='H'`.
pub fn draw_problem() -> (r: (u32, char))
    ensures
        1 <= r.0 <= LAST_CONTEST,
        is_division(r.1),
{
    let contest = draw_below(LAST_CONTEST as usize) as u32 + 1;
    let letter = division_letter(draw_below(8));
    (contest, letter)
}

/// The reply to the plain Codeforces command: a link to a random problem.
pub fn random_reply() -> (r: String)
    ensures
        exists|contest: nat, letter: char|
            1 <= contest <= LAST_CONTEST && is_division(letter) && r@ == problem_url(
                contest,
                seq![letter],
            ),
{
    let (contest, letter) = draw_problem();
    random_link(contest, letter)
}

/// The query string that selects the problems carrying every tag of `tags`.
pub open spec fn tag_query(tags: Seq<Seq<char>>) -> Seq<char>
    decreases tags.len(),
{
    if tags.len() == 0 {
        "?tags="@
    } else {
        tag_query(tags.drop_last()) + tags.last() + ";"@
    }
}

/// The address of the problem list filtered by `tags`.
pub open spec fn problems_address(tags: Seq<Seq<char>>) -> Seq<char> {
    codeforces_base() + "/api/problemset.problems"@ + tag_query(tags)
}

/// Builds the address of the problem list filtered by `tags`.
pub fn problems_query(tags: &Vec<String>) -> (r: String)
    ensures
        r@ == problems_address(views(tags@)),
{
    let mut out = String::from_str("https://codeforces.com/api/problemset.problems?tags=");
    let ghost v = views(tags@);
    let mut i: usize = 0;
    proof {
        reveal_strlit("https://codeforces.com/api/problemset.problems?tags=");
        reveal_strlit("https://codeforces.com");
        reveal_strlit("/api/problemset.problems");
        reveal_strlit("?tags=");
    }
    assert(v.take(0) =~= Seq::<Seq<char>>::empty());
    assert(out@ =~= problems_address(v.take(0)));
    while i < tags.len()
        invariant
            i <= tags@.len(),
            v == views(tags@),
            out@ == problems_address(v.take(i as int)),
        decreases tags@.len() - i,
    {
        out.append(tags[i].as_str());
        out.append(";");
        let ghost t = v.take(i + 1);
        assert(t.drop_last() =~= v.take(i as int));
        assert(out@ =~= problems_address(t));
        i += 1;
    }
    assert(v.take(tags@.len() as int) =~= v);
    out
}

/// The rating shown for a problem: 0 where it has none.
pub open spec fn rating_shown(p: Problem) -> nat {
    match p.rating {
        Some(r) => r as nat,
        None => 0,
    }
}

/// The block that a drawn problem takes in the reply: name, difficulty and link.
pub open spec fn problem_block(p: Problem) -> Seq<char> {
    p.name@ + "\nDificultad: "@ + decimal(rating_shown(p)) + "\n"@ + problem_url(
        p.contest_id as nat,
        p.index@,
    ) + "\n\n"@
}

/// The blocks of the problems at positions `picks`, in that order.
pub open spec fn blocks(problems: Seq<Problem>, picks: Seq<int>) -> Seq<char>
    decreases picks.len(),
{
    if picks.len() == 0 {
        seq![]
    } else {
        blocks(problems, picks.drop_last()) + problem_block(problems[picks.last()])
    }
}

/// The reply to a tagged query: the tag text as given, then the drawn problems.
pub open spec fn tagged_text(tag_text: Seq<char>, problems: Seq<Problem>, picks: Seq<int>) -> Seq<
    char,
> {
    "Categor\u{ed}a: "@ + tag_text + "\n\n"@ + blocks(problems, picks)
}

pub open spec fn picks_in(picks: Seq<int>, len: nat) -> bool {
    forall|k: int| 0 <= k < picks.len() ==> 0 <= #[trigger] picks[k] < len
}

/// The positions held in `picks`.
pub open spec fn positions(picks: Seq<usize>) -> Seq<int> {
    picks.map_values(|k: usize| k as int)
}

fn append_block(out: &mut String, p: &Problem)
    ensures
        final(out)@ == old(out)@ + problem_block(*p),
{
    out.append(p.name.as_str());
    out.append("\nDificultad: ");
    let rating: u16 = match p.rating {
        Some(r) => r,
        None => 0,
    };
    push_decimal(out, rating as u64);
    out.append("\n");
    append_problem_url(out, p.contest_id as u64, p.index.as_str());
    out.append("\n\n");
    assert(final(out)@ =~= old(out)@ + problem_block(*p));
}

/// Renders the reply to a tagged query for the problems at positions `picks`.
pub fn render_tagged(tag_text: &str, problems: &Vec<Problem>, picks: &Vec<usize>) -> (r: String)
    requires
        picks_in(positions(picks@), problems@.len()),
    ensures
        r@ == tagged_text(tag_text@, problems@, positions(picks@)),
{
    let mut out = String::from_str("Categor\u{ed}a: ");
    out.append(tag_text);
    out.append("\n\n");
    let ghost ps = positions(picks@);
    let mut i: usize = 0;
    assert(ps.take(0) =~= Seq::<int>::empty());
    assert(out@ =~= tagged_text(tag_text@, problems@, ps.take(0)));
    while i < picks.len()
        invariant
            i <= picks@.len(),
            ps == positions(picks@),
            picks_in(ps, problems@.len()),
            out@ == tagged_text(tag_text@, problems@, ps.take(i as int)),
        decreases picks@.len() - i,
    {
        assert(0 <= ps[i as int] < problems@.len());
        append_block(&mut out, &problems[picks[i]]);
        let ghost t = ps.take(i + 1);
        assert(t.drop_last() =~= ps.take(i as int));
        assert(out@ =~= tagged_text(tag_text@, problems@, t));
        i += 1;
    }
    assert(ps.take(picks@.len() as int) =~= ps);
    out
}

/// The number of problems drawn for a tagged query.
pub const DRAWS: usize = 3;

/// Draws `DRAWS` positions below `len`, each independently.
pub fn draw_picks(len: usize) -> (r: Vec<usize>)
    requires
        len > 0,
    ensures
        r@.len() == DRAWS,
        picks_in(positions(r@), len as nat),
{
    let mut picks: Vec<usize> = Vec::new();
    while picks.len() < DRAWS
        invariant
            len > 0,
            picks@.len() <= DRAWS,
            picks_in(positions(picks@), len as nat),
        decreases DRAWS - picks@.len(),
    {
        let k = draw_below(len);
        let ghost before = picks@;
        picks.push(k);
        assert(picks_in(positions(picks@), len as nat)) by {
            assert forall|j: int| 0 <= j < picks@.len() implies 0 <= #[trigger] positions(
                picks@,
            )[j] < len by {
                if j < before.len() {
                    assert(positions(before)[j] == before[j] as int);
                    assert(picks@[j] == before[j]);
                }
            }
        }
    }
    picks
}

/// The reply to a tagged query over the problems that the judge returned:
/// `EmptySelection` when there are none, else three problems drawn independently.
pub fn tagged_reply(tag_text: &str, problems: &Vec<Problem>) -> (r: core::result::Result<
    String,
    BotError,
>)
    ensures
        problems@.len() == 0 <==> r == Err::<String, BotError>(BotError::EmptySelection),
        r is Ok <==> problems@.len() > 0,
        r is Ok ==> exists|picks: Seq<int>|
            picks.len() == DRAWS && picks_in(picks, problems@.len()) && r->Ok_0@ == tagged_text(
                tag_text@,
                problems@,
                picks,
            ),
{
    if problems.len() == 0 {
        return Err(BotError::EmptySelection);
    }
    let picks = draw_picks(problems.len());
    let r = render_tagged(tag_text, problems, &picks);
    assert(positions(picks@).len() == DRAWS);
    Ok(r)
}

} // verus!
