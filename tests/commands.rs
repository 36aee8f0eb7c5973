use cpbot::api::Problem;
use cpbot::codeforces::{
    draw_problem, problems_query, random_link, random_reply, render_tagged, tagged_reply,
};
use cpbot::command::{classify, plan, Action, Command};
use cpbot::error::BotError;
use cpbot::omegaup::omegaup_reply;
use cpbot::uva::{uva_internal_id, uva_link, uva_reply};

fn tagged_parts(message: &str) -> (String, Vec<String>) {
    match classify(message) {
        Ok(Some(Command::TaggedCodeforces { text, tags })) => (text, tags),
        _ => panic!("not a tagged command: {}", message),
    }
}

#[test]
fn classify_exact_commands() {
    assert!(matches!(classify("!cf"), Ok(Some(Command::RandomCodeforces))));
    assert!(matches!(classify("  !cf \n"), Ok(Some(Command::RandomCodeforces))));
    assert!(matches!(classify("!oup"), Ok(Some(Command::RandomOmegaUp))));
    assert!(matches!(classify("!uva"), Ok(Some(Command::RandomUva))));
    assert!(matches!(classify("!top"), Ok(Some(Command::LeaderboardTop3))));
}

#[test]
fn classify_tagged_codeforces() {
    let (text, tags) = tagged_parts("!cf 800 dp");
    assert_eq!(text, " 800 dp");
    assert_eq!(tags, vec!["800".to_string(), "dp".to_string()]);
}

#[test]
fn classify_uva_number() {
    assert!(matches!(classify("!uva 100"), Ok(Some(Command::UvaNumeric(100)))));
    assert_eq!(classify("!uva abc").err(), Some(BotError::InvalidArgument));
    assert_eq!(classify("!uva -3").err(), Some(BotError::InvalidArgument));
}

#[test]
fn classify_by_containment() {
    let (text, tags) = tagged_parts("foo !cf bar");
    assert_eq!(text, " !cf bar");
    assert_eq!(tags, vec!["!cf".to_string(), "bar".to_string()]);
    // the argument is read after the fifth character, wherever `!uva` stands
    assert_eq!(classify("ab !uva 7").err(), Some(BotError::InvalidArgument));
}

#[test]
fn classify_unrelated_text() {
    assert!(matches!(classify("hello there"), Ok(None)));
    assert!(matches!(classify(""), Ok(None)));
    assert!(matches!(classify("!cF"), Ok(None)));
}

#[test]
fn uva_offset() {
    assert_eq!(uva_internal_id(100), Ok(36));
    assert_eq!(uva_internal_id(64), Ok(0));
    assert_eq!(uva_internal_id(63), Err(BotError::InvalidArgument));
    assert_eq!(uva_internal_id(0), Err(BotError::InvalidArgument));
}

#[test]
fn uva_reply_link() {
    let base = "https://onlinejudge.org/index.php?option=com_onlinejudge&Itemid=8&category=24&page=show_problem&problem=";
    assert_eq!(uva_reply(100), Ok(format!("{}36", base)));
    assert_eq!(uva_link(1234), format!("{}1234", base));
    assert_eq!(uva_reply(10), Err(BotError::InvalidArgument));
}

#[test]
fn random_codeforces_in_range() {
    for _ in 0..2000 {
        let (contest, letter) = draw_problem();
        assert!((1..=1452).contains(&contest));
        assert!(('A'..='H').contains(&letter));
    }
}

#[test]
fn random_codeforces_reply_shape() {
    let prefix = "https://codeforces.com/problemset/problem/";
    for _ in 0..200 {
        let r = random_reply();
        let rest = r.strip_prefix(prefix).expect("prefix");
        let (contest, letter) = rest.split_once('/').expect("two parts");
        let contest: u32 = contest.parse().expect("number");
        assert!((1..=1452).contains(&contest));
        assert_eq!(letter.len(), 1);
        assert!(('A'..='H').contains(&letter.chars().next().unwrap()));
    }
}

#[test]
fn random_link_exact() {
    assert_eq!(random_link(1452, 'A'), "https://codeforces.com/problemset/problem/1452/A");
    assert_eq!(random_link(7, 'H'), "https://codeforces.com/problemset/problem/7/H");
}

#[test]
fn tag_query_address() {
    let tags = vec!["800".to_string(), "dp".to_string()];
    assert_eq!(
        problems_query(&tags),
        "https://codeforces.com/api/problemset.problems?tags=800;dp;"
    );
    assert_eq!(problems_query(&Vec::new()), "https://codeforces.com/api/problemset.problems?tags=");
}

fn sample_problems() -> Vec<Problem> {
    vec![
        Problem { contest_id: 1452, index: "A".to_string(), name: "Robot Program".to_string(), rating: Some(800) },
        Problem { contest_id: 4, index: "B".to_string(), name: "Watermelon".to_string(), rating: None },
    ]
}

#[test]
fn tagged_render_exact() {
    let r = render_tagged(" 800", &sample_problems(), &vec![1, 0, 1]);
    let expected = "Categoría:  800\n\n\
        Watermelon\nDificultad: 0\nhttps://codeforces.com/problemset/problem/4/B\n\n\
        Robot Program\nDificultad: 800\nhttps://codeforces.com/problemset/problem/1452/A\n\n\
        Watermelon\nDificultad: 0\nhttps://codeforces.com/problemset/problem/4/B\n\n";
    assert_eq!(r, expected);
}

#[test]
fn tagged_reply_three_blocks() {
    for _ in 0..50 {
        let r = tagged_reply(" 800", &sample_problems()).expect("non-empty");
        assert!(r.starts_with("Categoría:  800\n\n"));
        assert_eq!(r.matches("\nDificultad: ").count(), 3);
        assert_eq!(r.matches("https://codeforces.com/problemset/problem/").count(), 3);
    }
    let one = vec![Problem { contest_id: 1, index: "C".to_string(), name: "P".to_string(), rating: Some(1200) }];
    let r = tagged_reply("x", &one).unwrap();
    assert_eq!(r.matches("P\nDificultad: 1200\nhttps://codeforces.com/problemset/problem/1/C\n\n").count(), 3);
}

#[test]
fn tagged_reply_empty_selection() {
    assert_eq!(tagged_reply(" 800 dp", &Vec::new()), Err(BotError::EmptySelection));
}

#[test]
fn omegaup_link() {
    assert_eq!(omegaup_reply("/arena/problem/sumas/"), "https://omegaup.com/arena/problem/sumas/");
}

#[test]
fn plan_steps() {
    assert!(matches!(plan(&Command::RandomUva), Action::Silent));
    assert!(matches!(plan(&Command::UvaNumeric(5)), Action::Fail(BotError::InvalidArgument)));
    match plan(&Command::UvaNumeric(100)) {
        Action::Reply(s) => assert!(s.ends_with("problem=36")),
        _ => panic!("expected a reply"),
    }
    match plan(&Command::RandomOmegaUp) {
        Action::FetchRedirect(a) => assert_eq!(a, "https://omegaup.com/problem/random/language/"),
        _ => panic!("expected a redirect"),
    }
    match plan(&Command::LeaderboardTop3) {
        Action::FetchFeed(a) => assert!(a.contains("sheet=introducción&range=D47:R47")),
        _ => panic!("expected a feed"),
    }
    let (text, tags) = tagged_parts("!cf dp greedy");
    match plan(&Command::TaggedCodeforces { text, tags }) {
        Action::FetchProblems(a) => assert_eq!(a, "https://codeforces.com/api/problemset.problems?tags=dp;greedy;"),
        _ => panic!("expected a query"),
    }
    match plan(&Command::RandomCodeforces) {
        Action::Reply(s) => assert!(s.starts_with("https://codeforces.com/problemset/problem/")),
        _ => panic!("expected a reply"),
    }
}

#[test]
fn tagged_message_gets_a_reply() {
    for message in ["!cf 800 dp", "foo !cf bar"] {
        let (text, _) = tagged_parts(message);
        let r = tagged_reply(&text, &sample_problems()).expect("a reply");
        assert!(r.starts_with(&format!("Categoría: {}\n\n", &message[3..])));
        assert_eq!(r.matches("\nDificultad: ").count(), 3);
    }
}

#[test]
fn uva_bad_arguments_are_refused() {
    for message in ["!uva 63", "!uva 0", "!uva x"] {
        let refused = match classify(message) {
            Err(BotError::InvalidArgument) => true,
            Ok(Some(command)) => matches!(plan(&command), Action::Fail(BotError::InvalidArgument)),
            _ => false,
        };
        assert!(refused, "{}", message);
    }
}
