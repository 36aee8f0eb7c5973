//! The solved-problems leaderboard: parsing the feed, ranking it and rendering
//! the podium.

use vstd::prelude::*;
use vstd::string::{StrSliceExecFns, StringExecFns};
use crate::text::{
    decimal, find_first, parse_bounded, parse_unsigned, position_of, push_decimal, split,
    split_at_char, trim, trimmed, views,
};

verus! {

/// One solver of the feed and how many problems they solved.
pub struct Entry {
    pub name: String,
    pub solved: u8,
}

impl View for Entry {
    type V = (Seq<char>, nat);

    open spec fn view(&self) -> (Seq<char>, nat) {
        (self.name@, self.solved as nat)
    }
}

/// The views of a sequence of entries.
pub open spec fn entry_views(v: Seq<Entry>) -> Seq<(Seq<char>, nat)> {
    v.map_values(|e: Entry| e@)
}

/// `s` with every double quote removed.
pub open spec fn without_quotes(s: Seq<char>) -> Seq<char>
    decreases s.len(),
{
    if s.len() == 0 {
        s
    } else if s.last() == '"' {
        without_quotes(s.drop_last())
    } else {
        without_quotes(s.drop_last()).push(s.last())
    }
}

/// The count that a cell's text gives: the trimmed text read as a `u8`, else 0.
pub open spec fn count_of(t: Seq<char>) -> nat {
    match parse_unsigned(trimmed(t), 255) {
        Some(v) => v,
        None => 0,
    }
}

/// The entry that one cell gives: the text before its first colon as the name,
/// the count after it; no entry for a cell without a colon.
pub open spec fn entry_of(cell: Seq<char>) -> Option<(Seq<char>, nat)> {
    match find_first(cell, ':') {
        Some(k) => Some((cell.take(k as int), count_of(cell.skip(k + 1int)))),
        None => None,
    }
}

/// The entries of a sequence of cells, in order.
pub open spec fn entries_of(cells: Seq<Seq<char>>) -> Seq<(Seq<char>, nat)>
    decreases cells.len(),
{
    if cells.len() == 0 {
        seq![]
    } else {
        let prev = entries_of(cells.drop_last());
        match entry_of(cells.last()) {
            Some(e) => prev.push(e),
            None => prev,
        }
    }
}

/// The entries of a feed, in feed order.
pub open spec fn feed_entries(feed: Seq<char>) -> Seq<(Seq<char>, nat)> {
    entries_of(split(without_quotes(feed), ','))
}

/// Copies `s` without its double quotes.
pub fn strip_quotes(s: &str) -> (r: String)
    ensures
        r@ == without_quotes(s@),
{
    let n = s.unicode_len();
    let mut out = String::new();
    let mut i: usize = 0;
    while i < n
        invariant
            i <= n,
            n == s@.len(),
            out@ == without_quotes(s@.take(i as int)),
        decreases n - i,
    {
        let ghost t = s@.take(i + 1);
        assert(t.drop_last() =~= s@.take(i as int));
        if s.get_char(i) != '"' {
            out.append(s.substring_char(i, i + 1));
        }
        i += 1;
    }
    assert(s@.take(n as int) =~= s@);
    out
}

/// Reads one cell of the feed.
pub fn parse_cell(cell: &str) -> (r: Option<Entry>)
    ensures
        match entry_of(cell@) {
            Some(e) => r matches Some(x) && x@ == e,
            None => r is None,
        },
{
    match position_of(cell, ':') {
        None => None,
        Some(k) => {
            let n = cell.unicode_len();
            let name = String::from_str(cell.substring_char(0, k));
            let rest = cell.substring_char(k + 1, n);
            assert(rest@ =~= cell@.skip(k + 1));
            assert(cell@.subrange(0, k as int) =~= cell@.take(k as int));
            let solved: u8 = match parse_bounded(trim(rest), 255) {
                Some(v) => v as u8,
                None => 0,
            };
            assert(solved as nat == count_of(cell@.skip(k + 1)));
            Some(Entry { name, solved })
        },
    }
}

/// Reads the entries of a feed, in feed order.
pub fn parse_feed(feed: &str) -> (r: Vec<Entry>)
    ensures
        entry_views(r@) == feed_entries(feed@),
{
    let clean = strip_quotes(feed);
    let cells = split_at_char(clean.as_str(), ',');
    let mut out: Vec<Entry> = Vec::new();
    let mut i: usize = 0;
    assert(entry_views(out@) =~= entries_of(views(cells@).take(0)));
    while i < cells.len()
        invariant
            i <= cells.len(),
            views(cells@) == split(without_quotes(feed@), ','),
            entry_views(out@) == entries_of(views(cells@).take(i as int)),
        decreases cells.len() - i,
    {
        let ghost t = views(cells@).take(i + 1);
        assert(t.drop_last() =~= views(cells@).take(i as int));
        assert(t.last() == cells@[i as int]@);
        let ghost before = out@;
        match parse_cell(cells[i].as_str()) {
            Some(e) => {
                out.push(e);
                assert(entry_views(out@) =~= entry_views(before).push(e@));
            },
            None => {},
        }
        i += 1;
    }
    assert(views(cells@).take(cells.len() as int) =~= views(cells@));
    out
}

/// Where a stable sort by descending count puts an entry with count `c` among the
/// already ranked `s`: after every entry whose count is at least `c`.
pub open spec fn place(s: Seq<(Seq<char>, nat)>, c: nat) -> nat
    decreases s.len(),
{
    if s.len() == 0 {
        0
    } else if s[0].1 < c {
        0
    } else {
        1 + place(s.drop_first(), c)
    }
}

/// `s` sorted by descending count, entries with equal counts kept in feed order.
pub open spec fn ranked(s: Seq<(Seq<char>, nat)>) -> Seq<(Seq<char>, nat)>
    decreases s.len(),
{
    if s.len() == 0 {
        s
    } else {
        let p = ranked(s.drop_last());
        p.insert(place(p, s.last().1) as int, s.last())
    }
}

fn place_of(ranked: &Vec<Entry>, c: u8) -> (r: usize)
    ensures
        r == place(entry_views(ranked@), c as nat),
        r <= ranked@.len(),
{
    let ghost v = entry_views(ranked@);
    let mut j: usize = 0;
    assert(v.skip(0) =~= v);
    while j < ranked.len() && ranked[j].solved >= c
        invariant
            j <= ranked@.len(),
            v == entry_views(ranked@),
            place(v, c as nat) == j + place(v.skip(j as int), c as nat),
        decreases ranked@.len() - j,
    {
        assert(v.skip(j as int).drop_first() =~= v.skip(j + 1));
        j += 1;
    }
    j
}

/// Sorts the entries by descending count; entries with equal counts keep their order.
pub fn rank(entries: Vec<Entry>) -> (r: Vec<Entry>)
    ensures
        entry_views(r@) == ranked(entry_views(entries@)),
{
    let ghost all = entry_views(entries@);
    let mut rest = entries;
    let mut out: Vec<Entry> = Vec::new();
    let ghost mut i: int = 0;
    assert(all.take(0) =~= Seq::<(Seq<char>, nat)>::empty());
    assert(entry_views(out@) =~= Seq::<(Seq<char>, nat)>::empty());
    assert(all.skip(0) =~= all);
    while rest.len() > 0
        invariant
            0 <= i <= all.len(),
            all.len() == i + rest@.len(),
            entry_views(rest@) == all.skip(i),
            entry_views(out@) == ranked(all.take(i)),
        decreases rest@.len(),
    {
        let ghost before_rest = rest@;
        assert(entry_views(before_rest)[0] == all.skip(i)[0]);
        let e = rest.remove(0);
        assert(e@ == all[i]);
        assert(entry_views(rest@) =~= all.skip(i + 1)) by {
            assert(rest@ =~= before_rest.subrange(1, before_rest.len() as int));
            assert forall|k: int| 0 <= k < rest@.len() implies #[trigger] entry_views(rest@)[k]
                == all.skip(i + 1)[k] by {
                assert(entry_views(before_rest)[k + 1] == all.skip(i)[k + 1]);
            }
        }
        let p = place_of(&out, e.solved);
        let ghost before = out@;
        out.insert(p, e);
        assert(entry_views(out@) =~= entry_views(before).insert(p as int, e@));
        assert(all.take(i + 1).drop_last() =~= all.take(i));
        proof {
            i = i + 1;
        }
    }
    assert(all.take(i) =~= all);
    out
}

/// The medal of the `i`-th place on the podium.
pub open spec fn medal(i: int) -> char {
    if i == 0 {
        '\u{1F947}'
    } else if i == 1 {
        '\u{1F948}'
    } else {
        '\u{1F949}'
    }
}

/// The podium line of the `i`-th place: its medal, the name and the count.
pub open spec fn podium_line(i: int, e: (Seq<char>, nat)) -> Seq<char> {
    seq![medal(i), ' '] + e.0 + seq![' '] + decimal(e.1) + seq!['\n']
}

/// The lines of the first `k` places of `s`.
pub open spec fn podium_lines(s: Seq<(Seq<char>, nat)>, k: nat) -> Seq<char>
    decreases k,
{
    if k == 0 {
        seq![]
    } else {
        podium_lines(s, (k - 1) as nat) + podium_line(k - 1, s[k - 1])
    }
}

pub open spec fn podium_header() -> Seq<char> {
    "Problemas hechos\n"@
}

/// The reply for a ranked leaderboard: the header, then at most three places.
pub open spec fn podium(s: Seq<(Seq<char>, nat)>) -> Seq<char> {
    podium_header() + podium_lines(s, if s.len() < 3 { s.len() } else { 3 })
}

fn medal_text(i: usize) -> (r: &'static str)
    requires
        i < 3,
    ensures
        r@ == seq![medal(i as int), ' '],
{
    if i == 0 {
        proof {
            reveal_strlit("\u{1F947} ");
        }
        "\u{1F947} "
    } else if i == 1 {
        proof {
            reveal_strlit("\u{1F948} ");
        }
        "\u{1F948} "
    } else {
        proof {
            reveal_strlit("\u{1F949} ");
        }
        "\u{1F949} "
    }
}

/// Renders the podium of a ranked leaderboard.
pub fn render_podium(ranked: &Vec<Entry>) -> (r: String)
    ensures
        r@ == podium(entry_views(ranked@)),
{
    let ghost v = entry_views(ranked@);
    let mut out = String::from_str("Problemas hechos\n");
    let k: usize = if ranked.len() < 3 { ranked.len() } else { 3 };
    let mut i: usize = 0;
    while i < k
        invariant
            i <= k <= 3,
            k <= ranked@.len(),
            v == entry_views(ranked@),
            out@ == podium_header() + podium_lines(v, i as nat),
        decreases k - i,
    {
        let e = &ranked[i];
        out.append(medal_text(i));
        out.append(e.name.as_str());
        proof {
            reveal_strlit(" ");
            reveal_strlit("\n");
        }
        out.append(" ");
        push_decimal(&mut out, e.solved as u64);
        out.append("\n");
        assert(v[i as int] == e@);
        assert(out@ =~= podium_header() + podium_lines(v, (i + 1) as nat));
        i += 1;
    }
    out
}

/// The whole leaderboard of a feed, ranked.
pub fn leaderboard(feed: &str) -> (r: Vec<Entry>)
    ensures
        entry_views(r@) == ranked(feed_entries(feed@)),
{
    rank(parse_feed(feed))
}

/// The reply to the leaderboard command for a feed.
pub fn leaderboard_reply(feed: &str) -> (r: String)
    ensures
        r@ == podium(ranked(feed_entries(feed@))),
{
    render_podium(&leaderboard(feed))
}

/// Counts never increase along `s`.
pub open spec fn descending(s: Seq<(Seq<char>, nat)>) -> bool {
    forall|i: int, j: int| 0 <= i < j < s.len() ==> #[trigger] s[i].1 >= #[trigger] s[j].1
}

proof fn lemma_place(s: Seq<(Seq<char>, nat)>, c: nat)
    ensures
        place(s, c) <= s.len(),
        forall|k: int| 0 <= k < place(s, c) ==> #[trigger] s[k].1 >= c,
        place(s, c) < s.len() ==> s[place(s, c) as int].1 < c,
    decreases s.len(),
{
    if s.len() > 0 && s[0].1 >= c {
        lemma_place(s.drop_first(), c);
        assert forall|k: int| 0 <= k < place(s, c) implies #[trigger] s[k].1 >= c by {
            if k > 0 {
                assert(s[k] == s.drop_first()[k - 1]);
            }
        }
    }
}

proof fn lemma_ranked_descending(s: Seq<(Seq<char>, nat)>)
    ensures
        descending(ranked(s)),
        ranked(s).len() == s.len(),
    decreases s.len(),
{
    if s.len() > 0 {
        let p = ranked(s.drop_last());
        let x = s.last();
        lemma_ranked_descending(s.drop_last());
        lemma_place(p, x.1);
        let k = place(p, x.1) as int;
        let q = p.insert(k, x);
        assert forall|i: int, j: int| 0 <= i < j < q.len() implies #[trigger] q[i].1
            >= #[trigger] q[j].1 by {
            if j < k {
                assert(q[i] == p[i] && q[j] == p[j]);
            } else if j == k {
                assert(q[i] == p[i]);
            } else if i < k {
                assert(q[i] == p[i] && q[j] == p[j - 1]);
            } else if i == k {
                assert(q[j] == p[j - 1]);
                assert(p[k].1 >= p[j - 1].1);
            } else {
                assert(q[i] == p[i - 1] && q[j] == p[j - 1]);
            }
        }
    }
}

proof fn lemma_place_end(s: Seq<(Seq<char>, nat)>, c: nat)
    requires
        forall|k: int| 0 <= k < s.len() ==> #[trigger] s[k].1 >= c,
    ensures
        place(s, c) == s.len(),
    decreases s.len(),
{
    if s.len() > 0 {
        lemma_place_end(s.drop_first(), c);
    }
}

proof fn lemma_ranked_fixed(s: Seq<(Seq<char>, nat)>)
    requires
        descending(s),
    ensures
        ranked(s) == s,
    decreases s.len(),
{
    if s.len() > 0 {
        let d = s.drop_last();
        assert(descending(d)) by {
            assert forall|i: int, j: int| 0 <= i < j < d.len() implies #[trigger] d[i].1
                >= #[trigger] d[j].1 by {
                assert(d[i] == s[i] && d[j] == s[j]);
            }
        }
        lemma_ranked_fixed(d);
        assert forall|k: int| 0 <= k < d.len() implies #[trigger] d[k].1 >= s.last().1 by {
            assert(d[k] == s[k]);
        }
        lemma_place_end(d, s.last().1);
        assert(d.insert(d.len() as int, s.last()) =~= s);
    }
}

/// Ranking is repeatable: ranking an already ranked leaderboard leaves it as it
/// is, so resolving the leaderboard twice on one feed gives one order.
pub proof fn lemma_ranking_idempotent(s: Seq<(Seq<char>, nat)>)
    ensures
        descending(ranked(s)),
        ranked(ranked(s)) == ranked(s),
{
    lemma_ranked_descending(s);
    lemma_ranked_fixed(ranked(s));
}

proof fn lemma_ranked_permutation(s: Seq<(Seq<char>, nat)>)
    ensures
        ranked(s).to_multiset() == s.to_multiset(),
    decreases s.len(),
{
    if s.len() > 0 {
        let p = ranked(s.drop_last());
        lemma_ranked_permutation(s.drop_last());
        lemma_place(p, s.last().1);
        vstd::seq_lib::to_multiset_insert(p, place(p, s.last().1) as int, s.last());
        vstd::seq_lib::to_multiset_build(s.drop_last(), s.last());
        assert(s.drop_last().push(s.last()) =~= s);
    }
}

/// The ranked leaderboard holds exactly the entries of the feed, each as often,
/// with counts that never increase from first place to last.
pub proof fn lemma_ranking_reorders(s: Seq<(Seq<char>, nat)>)
    ensures
        ranked(s).to_multiset() == s.to_multiset(),
        ranked(s).len() == s.len(),
        descending(ranked(s)),
{
    lemma_ranked_permutation(s);
    lemma_ranked_descending(s);
}

} // verus!
