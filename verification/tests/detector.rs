use checkbot::{BotDetector, PatternCompileError};

/// Patterns for a handful of well-known crawlers, in mixed case.
const CORPUS: &str = "\
Googlebot
Slurp
bingbot
DuckDuckBot
Chrome-Lighthouse
adbeat\\.com
outbrain
Google-
Datadog Agent
";

const LIGHTHOUSE: &str = "Mozilla/5.0 (X11; Linux x86_64) AppleWebKit/537.36 (KHTML, like Gecko) Chrome/78.0.3904.97 Safari/537.36 Chrome-Lighthouse";

const CRAWLERS: [&str; 7] = [
    "Googlebot",
    "Mozilla/5.0 (compatible; Googlebot/2.1; +http://www.google.com/bot.html)",
    "Mozilla/5.0 (compatible; Yahoo! Slurp; http://help.yahoo.com/help/us/ysearch/slurp)",
    "Mozilla/5.0 (Linux; Android 6.0.1; Nexus 5X Build/MMB29P) AppleWebKit/537.36 (KHTML, like Gecko) Chrome/41.0.2272.96 Mobile Safari/537.36 (compatible; Googlebot/2.1; +http://www.google.com/bot.html)",
    "Mozilla/5.0 (compatible; Bingbot/2.0; +http://www.bing.com/bingbot.htm)",
    "DuckDuckBot/1.0; (+http://duckduckgo.com/duckduckbot.html)",
    "Mozilla/5.0 (X11; Linux x86_64) AppleWebKit/537.36 (KHTML, like Gecko) Chrome/78.0.3904.97 Safari/537.36 Chrome-Lighthouse",
];

const BROWSERS: [&str; 6] = [
    "",
    "Mozilla/5.0 (Windows NT 10.0; Win64; x64) AppleWebKit/537.36 (KHTML, like Gecko) Chrome/58.0.3029.110 Safari/537.36",
    "Mozilla/4.0 (compatible; MSIE 8.0; Windows NT 5.1; Trident/4.0; .NET CLR 1.1.4322; .NET CLR 2.0.50727; .NET CLR 3.0.4506.2152; .NET CLR 3.5.30729)",
    "Mozilla/5.0 (iPhone; CPU iPhone OS 10_3_1 like Mac OS X) AppleWebKit/603.1.30 (KHTML, like Gecko) Version/10.0 Mobile/14E304 Safari/602.1",
    "Mozilla/5.0 (Linux; Android 5.0; SAMSUNG SM-N900 Build/LRX21V) AppleWebKit/537.36 (KHTML, like Gecko) SamsungBrowser/2.1 Chrome/34.0.1847.76 Mobile Safari/537.36",
    "Mozilla/5.0 (Macintosh; Intel Mac OS X 10_15_7) AppleWebKit/537.36 (KHTML, like Gecko) Chrome/95.0.4638.54 Safari/537.36",
];

/// A detector stocked with `CORPUS`.
fn stocked() -> BotDetector {
    BotDetector::new(CORPUS).unwrap()
}

#[test]
#[allow(non_snake_case)]
fn yes_BotDetector() {
    let detector = stocked();
    for bot in CRAWLERS {
        assert!(detector.check_bot(bot), "Invalid bot: '{}'", bot);
    }
}

#[test]
#[allow(non_snake_case)]
fn no_BotDetector() {
    let detector = stocked();
    for bot in BROWSERS {
        assert!(!detector.check_bot(bot), "Is a bot{}", bot);
    }
}

#[test]
fn empty_user_agent_patterns() {
    let empty_user_agent_patterns = "";
    let detector = BotDetector::new(empty_user_agent_patterns).unwrap();
    assert!(detector.check_bot(""));
    assert!(!detector.check_bot("1"));
    assert!(!detector.check_bot("Googlebot"));
}

#[test]
fn single_user_agent_patterns() {
    let single_user_agent_patterns = "me";
    let detector = BotDetector::new(single_user_agent_patterns).unwrap();
    assert!(!detector.check_bot(""));
    assert!(!detector.check_bot("M"));
    assert!(detector.check_bot("Me"));
    assert!(!detector.check_bot("Googlebot"));
}

// The appended pattern names another agent than the one asked about, so the
// answer for that one stays as it was.
#[test]
fn add_pattern() {
    let mut detector = stocked();
    assert!(!detector.check_bot("Mozilla/5.0 (FancyNewTestB0T /1.2)"));
    detector.append(&[r"TestCatalyzeBot\s/\d\.\d"]).unwrap();
    assert!(!detector.check_bot("Mozilla/5.0 (FancyNewTestB0T /1.2)"));
}

#[test]
fn add_fitting_pattern() {
    let mut detector = stocked();
    assert!(!detector.check_bot("Mozilla/5.0 (FancyNewTestB0T /1.2)"));
    detector.append(&[r"FancyNewTestB0T\s/\d\.\d"]).unwrap();
    assert!(detector.check_bot("Mozilla/5.0 (FancyNewTestB0T /1.2)"));
    assert!(!detector.check_bot("Mozilla/5.0 (FancyNewTestB0T/1.2)"));
}

// Of the three appended patterns the first names another agent than the first
// input, which therefore stays unclassified; the other two fit their inputs.
#[test]
fn add_multiple_patterns() {
    let mut detector = stocked();
    assert!(!detector.check_bot("Mozilla/5.0 (FancyNewTestB0T /1.2)"));
    assert!(!detector.check_bot("Special/1.0"));
    assert!(!detector.check_bot("GoogleMetaverse/2.1 (experimental)"));

    let new_patterns = vec!["TestCatalyzeBot", "^GoogleMetaverse", "^Special/"];
    detector.append(&new_patterns).unwrap();

    assert!(!detector.check_bot("Mozilla/5.0 (FancyNewTestB0T /1.2)"));
    assert!(detector.check_bot("Special/1.0"));
    assert!(detector.check_bot("GoogleMetaverse/2.1 (experimental)"));
}

#[test]
fn add_multiple_fitting_patterns() {
    let mut detector = stocked();
    let new_patterns = vec!["FancyNewTestB0T", "^GoogleMetaverse", "^Special/"];
    detector.append(&new_patterns).unwrap();
    assert!(detector.check_bot("Mozilla/5.0 (FancyNewTestB0T /1.2)"));
    assert!(detector.check_bot("Special/1.0"));
    assert!(detector.check_bot("GoogleMetaverse/2.1 (experimental)"));
    // Both are anchored at the start.
    assert!(!detector.check_bot("Mozilla/5.0 Special/1.0"));
    assert!(!detector.check_bot("Mozilla/5.0 GoogleMetaverse/2.1"));
}

#[test]
fn remove_pattern() {
    let mut detector = stocked();
    assert!(detector.check_bot(LIGHTHOUSE));
    detector.remove(&["Chrome-Lighthouse"]);
    assert!(!detector.check_bot(LIGHTHOUSE));
    assert!(!detector.check_bot("Chrome-Lighthouse"));
    assert!(detector.check_bot("Mozilla/5.0 (Windows NT 10.0; Win64; x64) adbeat.com/policy AppleWebKit/537.36 (KHTML, like Gecko) Chrome/73.0.3683.86 Safari/537.36"));
}

#[test]
fn remove_multiple_patterns() {
    let mut detector = stocked();
    assert!(detector.check_bot("Mozilla/5.0 (Java) outbrain"));
    assert!(detector.check_bot("Mozilla/5.0 (compatible; Google-Site-Verification/1.0)"));
    assert!(detector.check_bot("Datadog Agent/5.10.1"));
    assert!(detector.check_bot(LIGHTHOUSE));

    let patterns_to_remove = vec!["datadog agent", "Chrome-Lighthouse", "outbrain", "google-"];
    detector.remove(&patterns_to_remove);
    assert!(!detector.check_bot("Mozilla/5.0 (compatible; Google-Site-Verification/1.0)"));
    assert!(!detector.check_bot("Datadog Agent/5.10.1"));
    assert!(!detector.check_bot(LIGHTHOUSE));
    assert!(!detector.check_bot("Mozilla/5.0 (Java) outbrain"));
}

#[test]
fn custom_user_agent_patterns() {
    let custom_user_agent_patterns = "\
        ^Catalyzebot\n\
        anything\\s+bot\n\
        Numerical\\d{4}\\.\\d{4}\\.\\d{4}\\.\\d{4}";
    let detector = BotDetector::new(custom_user_agent_patterns).unwrap();
    assert!(detector.check_bot("Anything  Bot"));
    assert!(!detector.check_bot("AnythingBot"));
    assert!(detector.check_bot("numerical1101.2001.3987.4781"));
    assert!(!detector.check_bot("numerical1.2.3.4"));
    assert!(!detector.check_bot("InvalidBot"));
    assert!(!detector.check_bot("Googlebot"));
}

#[test]
fn default_has_no_fragments() {
    let detector = BotDetector::default();
    assert!(detector.patterns().is_empty());
    assert_eq!(detector.expression(), "^$");
    assert!(detector.check_bot(""));
    assert!(!detector.check_bot("anything non-empty"));
    assert!(!detector.check_bot("\n"));
    assert!(!detector.check_bot(" "));
}

#[test]
fn image_and_preview_patterns() {
    let detector = BotDetector::new("\n^Googlebot-Image/\nbingpreview/").unwrap();
    assert_eq!(detector.patterns(), vec!["^googlebot-image/", "bingpreview/"]);
    assert!(detector.check_bot("Googlebot-Image/1.0"));
    assert!(detector.check_bot("Mozilla/5.0 (Windows NT 6.1; WOW64) AppleWebKit/534+ (KHTML, like Gecko) BingPreview/1.0b"));
    assert!(!detector.check_bot("Googlebot"));
    assert!(!detector.check_bot("Mozilla Googlebot-Image/1.0"));
}

#[test]
fn case_is_ignored() {
    let detector = BotDetector::new("Bot").unwrap();
    assert_eq!(detector.patterns(), vec!["bot"]);
    assert!(detector.check_bot("SOME-BOT-HERE"));
    assert!(!detector.check_bot("SOME-BOY-HERE"));
    assert!(detector.check_bot("some-bot-here"));
}

#[test]
fn only_ascii_letters_are_folded() {
    let detector = BotDetector::new("ÄRGER").unwrap();
    assert_eq!(detector.patterns(), vec!["Ärger"]);
    assert!(detector.check_bot("Ärger"));
    assert!(detector.check_bot("ÄRGER"));
    assert!(!detector.check_bot("ärger"));
}

#[test]
fn expression_is_the_alternation_of_the_groups_in_ascending_order() {
    let mut detector = BotDetector::new("b\na\nB\n\nc").unwrap();
    assert_eq!(detector.patterns(), vec!["a", "b", "c"]);
    assert_eq!(detector.expression(), "(?:a)|(?:b)|(?:c)");
    detector.append(&["e", "a", "D", "e", "ab"]).unwrap();
    assert_eq!(detector.patterns(), vec!["a", "ab", "b", "c", "d", "e"]);
    assert_eq!(detector.expression(), "(?:a)|(?:ab)|(?:b)|(?:c)|(?:d)|(?:e)");
    detector.remove(&["A", "x", "E", "ab"]);
    assert_eq!(detector.patterns(), vec!["b", "c", "d"]);
    assert_eq!(detector.expression(), "(?:b)|(?:c)|(?:d)");
    detector.remove(&["b", "c", "d"]);
    assert!(detector.patterns().is_empty());
    assert_eq!(detector.expression(), "^$");
    assert!(detector.check_bot(""));
    assert!(!detector.check_bot("b"));
}

#[test]
fn new_names_every_invalid_line() {
    let refused = BotDetector::new("good\n(\nGood\n[A\nfine\n(").unwrap_err();
    assert_eq!(
        refused,
        PatternCompileError::Fragments(vec!["(".to_string(), "[a".to_string()])
    );
}

#[test]
fn append_refuses_an_unbalanced_group_and_keeps_its_state() {
    let mut detector = stocked();
    let patterns = detector.patterns();
    let expression = detector.expression();
    let refused = detector.append(&["("]).unwrap_err();
    assert_eq!(refused, PatternCompileError::Fragments(vec!["(".to_string()]));
    assert_eq!(detector.patterns(), patterns);
    assert_eq!(detector.expression(), expression);
    for bot in CRAWLERS {
        assert!(detector.check_bot(bot));
    }
    for browser in BROWSERS {
        assert!(!detector.check_bot(browser));
    }
}

#[test]
fn append_is_all_or_nothing() {
    let mut detector = BotDetector::new("a").unwrap();
    let refused = detector.append(&["zzz", "A", "x)", "(?", "X)", "yyy"]).unwrap_err();
    assert_eq!(
        refused,
        PatternCompileError::Fragments(vec!["x)".to_string(), "(?".to_string()])
    );
    assert_eq!(detector.patterns(), vec!["a"]);
    assert_eq!(detector.expression(), "(?:a)");
    assert!(!detector.check_bot("zzz"));
    assert!(!detector.check_bot("yyy"));
}

#[test]
fn halves_of_a_group_are_refused_though_their_alternation_compiles() {
    assert!(regex::Regex::new("(a|b)").is_ok());
    let refused = BotDetector::new("(a\nb)").unwrap_err();
    assert_eq!(
        refused,
        PatternCompileError::Fragments(vec!["(a".to_string(), "b)".to_string()])
    );
}

#[test]
fn alternation_of_valid_fragments_can_be_refused() {
    // Each names a group `n`; one expression cannot name two groups alike.
    let mut detector = BotDetector::new("(?<n>x)").unwrap();
    let refused = detector.append(&["(?<n>y)"]).unwrap_err();
    assert_eq!(
        refused,
        PatternCompileError::Alternation("(?:(?<n>x))|(?:(?<n>y))".to_string())
    );
    assert_eq!(detector.patterns(), vec!["(?<n>x)"]);
    assert_eq!(detector.expression(), "(?:(?<n>x))");
    assert!(detector.check_bot("X"));
    assert!(!detector.check_bot("Y"));

    let refused = BotDetector::new("(?<n>y)\n(?<n>x)").unwrap_err();
    assert_eq!(
        refused,
        PatternCompileError::Alternation("(?:(?<n>x))|(?:(?<n>y))".to_string())
    );
}

#[test]
fn try_remove_removes_where_the_rest_compiles() {
    let mut detector = stocked();
    assert!(detector.try_remove(&["Chrome-Lighthouse", "never there"]));
    assert!(!detector.check_bot(LIGHTHOUSE));
    assert!(detector.check_bot("Googlebot"));
    assert_eq!(detector.patterns().len(), 8);
}

#[test]
fn an_option_ends_with_the_fragment_that_sets_it() {
    // The first fragment begins the verbose mode. It does not reach the
    // third, whose blank and `#` stand for themselves, with or without the
    // second between them.
    let mut detector = BotDetector::new("(?x)a b\n(?-x)z\n(c #)").unwrap();
    assert_eq!(detector.expression(), "(?:(?-x)z)|(?:(?x)a b)|(?:(c #))");
    assert!(detector.check_bot("c #"));
    assert!(detector.check_bot("ab"));
    assert!(!detector.check_bot("a b"));
    assert!(!detector.check_bot("c"));
    assert!(detector.try_remove(&["(?-x)z"]));
    assert_eq!(detector.patterns(), vec!["(?x)a b", "(c #)"]);
    assert_eq!(detector.expression(), "(?:(?x)a b)|(?:(c #))");
    assert!(detector.check_bot("c #"));
    assert!(!detector.check_bot("c"));
}

#[test]
fn a_fragment_that_ends_in_a_comment_closes_on_a_new_line() {
    assert!(regex::Regex::new("(?x)a # note").is_ok());
    assert!(regex::Regex::new("(?:(?x)a # note)").is_err());
    let mut detector = BotDetector::new("b").unwrap();
    detector.append(&["d e", "(?x)A # note"]).unwrap();
    assert_eq!(detector.patterns(), vec!["(?x)a # note", "b", "d e"]);
    assert_eq!(detector.expression(), "(?:(?x)a # note\n)|(?:b)|(?:d e)");
    assert!(detector.check_bot("A"));
    assert!(detector.check_bot("xbx"));
    assert!(detector.check_bot("d e"));
    assert!(!detector.check_bot("de"));
    assert!(!detector.check_bot("# note"));
    assert!(!detector.check_bot("\n"));
    assert!(!detector.check_bot(""));

    let alone = BotDetector::new("(?x) c # only this").unwrap();
    assert_eq!(alone.expression(), "(?:(?x) c # only this\n)");
    assert!(alone.check_bot("C"));
    assert!(!alone.check_bot("only this"));
    assert!(!alone.check_bot("\n"));
}

#[test]
fn a_fragment_that_closes_the_group_around_it_is_refused() {
    // Neither is a regular expression, though each would be one in a group,
    // where the second would set its option for all that follows.
    assert!(regex::Regex::new("(?:a)(b)").is_ok());
    assert!(regex::Regex::new("(?:a)(?s:.)").is_ok());
    assert!(regex::Regex::new("a)(b").is_err());
    let mut detector = BotDetector::new("x").unwrap();
    let refused = detector.append(&["a)(b", "a)(?s:."]).unwrap_err();
    assert_eq!(
        refused,
        PatternCompileError::Fragments(vec!["a)(b".to_string(), "a)(?s:.".to_string()])
    );
    assert_eq!(detector.expression(), "(?:x)");
}

#[test]
fn a_fragment_nested_as_deeply_as_the_engine_allows_fits_in_no_group() {
    let mut deepest = String::from("a");
    loop {
        let deeper = format!("({})", deepest);
        if regex::Regex::new(&deeper).is_err() {
            break;
        }
        deepest = deeper;
    }
    assert!(regex::Regex::new(&deepest).is_ok());
    assert!(regex::Regex::new(&format!("(?:{})", deepest)).is_err());
    let mut detector = BotDetector::new("b").unwrap();
    let refused = detector.append(&[deepest.as_str()]).unwrap_err();
    assert_eq!(
        refused,
        PatternCompileError::Alternation(format!("(?:{}\n)|(?:b)", deepest))
    );
    assert_eq!(detector.patterns(), vec!["b"]);
    assert_eq!(detector.expression(), "(?:b)");
}

#[test]
fn empty_fragment_matches_everything() {
    let mut detector = BotDetector::default();
    detector.append(&[""]).unwrap();
    assert_eq!(detector.patterns(), vec![""]);
    assert_eq!(detector.expression(), "(?:)");
    assert!(detector.check_bot(""));
    assert!(detector.check_bot("anything"));
}

#[test]
fn blank_lines_hold_no_fragment() {
    let detector = BotDetector::new("\n  \n\t\r\n\u{3000}\n").unwrap();
    assert!(detector.patterns().is_empty());
    assert!(detector.check_bot(""));
    assert!(!detector.check_bot(" "));
}

#[test]
fn lines_are_taken_verbatim() {
    let detector = BotDetector::new("  Padded Bot \r\nnext\r").unwrap();
    assert_eq!(detector.patterns(), vec!["  padded bot ", "next\r"]);
    assert!(detector.check_bot("a  padded bot b"));
    assert!(!detector.check_bot("padded bot"));
    assert!(detector.check_bot("next\r"));
}

#[test]
fn verbose_option_does_not_reach_the_fragments_after_it() {
    let detector = BotDetector::new("(?x)a\nb c").unwrap();
    assert_eq!(detector.expression(), "(?:(?x)a)|(?:b c)");
    assert!(detector.check_bot("b c"));
    assert!(!detector.check_bot("bc"));
    assert!(regex::Regex::new("b c").unwrap().is_match("b c"));
    assert!(!regex::Regex::new("b c").unwrap().is_match("bc"));
}

#[test]
fn dot_option_does_not_reach_the_other_fragment() {
    // Neither fragment matches `a`, line feed, `b` by itself.
    for text in ["(?s)x\na.b", "a.b\n(?s)x"] {
        let detector = BotDetector::new(text).unwrap();
        assert_eq!(detector.expression(), "(?:(?s)x)|(?:a.b)");
        assert!(!detector.check_bot("a\nb"));
        assert!(detector.check_bot("a-b"));
        assert!(detector.check_bot("x"));
    }
    let mut detector = BotDetector::new("(?s)x.y").unwrap();
    detector.append(&["a.b"]).unwrap();
    assert!(!detector.check_bot("a\nb"));
    assert!(detector.check_bot("x\ny"));
}

#[test]
fn empty_lists_change_nothing() {
    let mut detector = BotDetector::default();
    detector.append(&[]).unwrap();
    detector.remove(&[]);
    assert!(detector.try_remove(&[]));
    assert!(detector.patterns().is_empty());
    assert_eq!(detector.expression(), "^$");

    let mut detector = stocked();
    let patterns = detector.patterns();
    detector.append(&[]).unwrap();
    detector.remove(&[]);
    assert_eq!(detector.patterns(), patterns);
    assert_eq!(patterns.len(), 9);
}
