use cpbot::leaderboard::{leaderboard, leaderboard_reply, parse_cell, parse_feed, rank, render_podium, strip_quotes, Entry};

fn pairs(v: &[Entry]) -> Vec<(String, u8)> {
    v.iter().map(|e| (e.name.clone(), e.solved)).collect()
}

fn owned(v: &[(&str, u8)]) -> Vec<(String, u8)> {
    v.iter().map(|(n, c)| (n.to_string(), *c)).collect()
}

#[test]
fn feed_parses_in_order() {
    let parsed = parse_feed("A:5,B:10,C: ,D:3");
    assert_eq!(pairs(&parsed), owned(&[("A", 5), ("B", 10), ("C", 0), ("D", 3)]));
    let ranked = rank(parsed);
    assert_eq!(pairs(&ranked), owned(&[("B", 10), ("A", 5), ("D", 3), ("C", 0)]));
}

#[test]
fn podium_reply() {
    assert_eq!(
        leaderboard_reply("A:5,B:10,C: ,D:3"),
        "Problemas hechos\n🥇 B 10\n🥈 A 5\n🥉 D 3\n"
    );
}

#[test]
fn podium_short_feed() {
    assert_eq!(leaderboard_reply("Ana:2"), "Problemas hechos\n🥇 Ana 2\n");
    assert_eq!(leaderboard_reply(""), "Problemas hechos\n");
}

#[test]
fn quotes_and_cells_without_colon() {
    let parsed = parse_feed("\"Ana: 4\",\"nobody\",\"Luis:x\"");
    assert_eq!(pairs(&parsed), owned(&[("Ana", 4), ("Luis", 0)]));
    assert_eq!(strip_quotes("\"a\"b\""), "ab");
}

#[test]
fn first_colon_splits() {
    let e = parse_cell("a:b:7").unwrap();
    assert_eq!((e.name.as_str(), e.solved), ("a", 0));
    let e = parse_cell("Eva: +12 ").unwrap();
    assert_eq!((e.name.as_str(), e.solved), ("Eva", 12));
    assert!(parse_cell("plain").is_none());
}

#[test]
fn counts_beyond_a_byte_are_zero() {
    assert_eq!(pairs(&parse_feed("A:255,B:256")), owned(&[("A", 255), ("B", 0)]));
}

#[test]
fn ties_keep_feed_order() {
    let ranked = leaderboard("A:5,B:7,C:5,D:7,E:1");
    assert_eq!(pairs(&ranked), owned(&[("B", 7), ("D", 7), ("A", 5), ("C", 5), ("E", 1)]));
}

#[test]
fn ranking_twice_is_the_same() {
    let feed = "x:1,y:3,z:3,w:2";
    let first = leaderboard(feed);
    let second = leaderboard(feed);
    assert_eq!(pairs(&first), pairs(&second));
    let again = rank(leaderboard(feed));
    assert_eq!(pairs(&again), pairs(&first));
    assert_eq!(render_podium(&first), leaderboard_reply(feed));
}
