use ish::error::Error;
use ish::lex::{lex_words, parse_simple_command_words, tokens_of};
use ish::lexable::is_lexable;
use ish::parse::{needs_continuation, parse, unescape, Connector, RedirectKind, LITERAL};

#[test]
fn simple_command() {
    let cmd = parse("ls -la").unwrap();
    assert_eq!(cmd.segments.len(), 1);
    assert_eq!(cmd.segments[0].0.commands[0].cmd.argv, ["ls", "-la"]);
}

#[test]
fn pipeline() {
    let cmd = parse("ls | grep foo | wc -l").unwrap();
    assert_eq!(cmd.segments[0].0.commands.len(), 3);
}

#[test]
fn redirects() {
    let cmd = parse("echo hi > out.txt").unwrap();
    let c = &cmd.segments[0].0.commands[0].cmd;
    assert_eq!(c.argv, ["echo", "hi"]);
    assert_eq!(c.redirects.len(), 1);
    assert_eq!(c.redirects[0].kind, RedirectKind::Out);
}

#[test]
fn chaining() {
    let cmd = parse("a && b || c ; d").unwrap();
    assert_eq!(cmd.segments.len(), 4);
    assert_eq!(cmd.segments[0].1, Some(Connector::And));
    assert_eq!(cmd.segments[1].1, Some(Connector::Or));
    assert_eq!(cmd.segments[2].1, Some(Connector::Semi));
    assert_eq!(cmd.segments[3].1, None);
}

#[test]
fn single_quotes_are_literal() {
    let cmd = parse("echo '$HOME'").unwrap();
    let word = &cmd.segments[0].0.commands[0].cmd.argv[1];
    // The $ should be LITERAL-prefixed
    assert!(word.starts_with(LITERAL));
    assert_eq!(unescape(word), "$HOME");
}

#[test]
fn continuation_detection() {
    assert!(needs_continuation("ls |"));
    assert!(needs_continuation("a &&"));
    assert!(needs_continuation("a ||"));
    assert!(needs_continuation("echo 'unclosed"));
    assert!(!needs_continuation("ls -la"));
    assert!(!needs_continuation("a && b"));
}

#[test]
fn every_redirection_is_read() {
    let cmd = parse("a > 1 >> 2 < 3 2> 4 &> 5").unwrap();
    let kinds: Vec<RedirectKind> =
        cmd.segments[0].0.commands[0].cmd.redirects.iter().map(|r| r.kind).collect();
    assert_eq!(
        kinds,
        [
            RedirectKind::Out,
            RedirectKind::Append,
            RedirectKind::In,
            RedirectKind::Stderr,
            RedirectKind::All
        ]
    );
}

#[test]
fn errors_are_piped_along() {
    for line in ["cat err.log |& head", "cat err.log &| head"] {
        let cmd = parse(line).unwrap();
        let commands = &cmd.segments[0].0.commands;
        assert_eq!(commands.len(), 2);
        assert!(commands[0].pipe_stderr);
        assert!(!commands[1].pipe_stderr);
    }
}

#[test]
fn comments_are_dropped() {
    let cmd = parse("echo hi # there").unwrap();
    assert_eq!(cmd.segments[0].0.commands[0].cmd.argv, ["echo", "hi"]);
}

#[test]
fn backslashes_escape() {
    let cmd = parse("echo it\\'s\\ a\\ test").unwrap();
    let argv = &cmd.segments[0].0.commands[0].cmd.argv;
    assert_eq!(argv.len(), 2);
    assert_eq!(unescape(&argv[1]), "it's a test");
}

#[test]
fn redirection_without_target_is_an_error() {
    assert!(parse("echo >").is_err());
    assert!(parse("| a").is_err());
}

#[test]
fn errors_tell_what_went_wrong() {
    assert_eq!(Error::msg("unexpected end").message(), "unexpected end");
    assert_eq!(Error::glob_no_match("*.zip").message(), "no matches for glob: *.zip");
    assert_eq!(Error::command_not_found("gti").message(), "command not found: gti");
    assert_eq!(Error::bad_substitution("${").message(), "bad substitution: ${");
}

#[test]
fn texts_that_the_lexer_cannot_be_given_cannot_be_split() {
    let deep = format!("echo $( {}a{} )", "(".repeat(50_000), ")".repeat(50_000));
    let functions = format!("echo $( {} a )", "f() ".repeat(50_000));
    let chain = format!("echo $(a{})", ";a".repeat(50_000));
    for text in [
        "echo $({ a; } 3 x)",
        "echo $( (a) 3 x)",
        "echo $( (a) >f 3 x)",
        "echo $(x $$(a) 3 y)",
        "echo $(x \\$(a) 3 y)",
        "echo $(if a; then b; fi 3 x)",
        "echo $((a) b) c)",
        "echo $((a)$(b))",
        "echo $((${\\})))",
        "echo $(x ~$((1))12 )",
        "echo $( (a) \u{FFFE}1 )",
        "echo $( (a) 1\u{FFFE} )",
        "echo $( (a) \u{E0EF}\u{E0BF}\u{E0BE}1 )",
        "echo $(( $( (a) 3 x ) ))",
        "echo `cat <<E\n\\`a\\\\`",
        deep.as_str(),
        functions.as_str(),
        chain.as_str(),
    ] {
        assert!(!is_lexable(text));
        assert!(parse_simple_command_words(text).is_none());
        assert!(lex_words(text).is_empty());
    }
}

#[test]
fn ordinary_substitutions_are_split() {
    for (text, count) in [
        ("echo $(date) 3", 3),
        ("echo $(seq $(cat n) 3)", 2),
        ("echo $((1 + 2)) $((${#x} * (2 + 3)))", 3),
        ("echo $(($(nproc) + 1))", 2),
        ("echo $(( (1 + 2) * 3 )) 4", 3),
        ("echo $( (cd x; ls) 2>&1 )", 2),
        ("echo $(for i in 1 2; do echo $i; done | head -n 5)", 2),
        ("echo `date` ${HOME}/x 3", 4),
        ("echo {a,b} 3 $(x)", 4),
        ("echo (a) 3", 1),
        ("ls `pwd` a\\ b", 3),
        ("ls `a` b\\ c `d`", 4),
        ("echo `echo \\$HOME` 'x\\y'", 3),
        ("echo $((\"1\" + $(echo \"2\")))", 2),
        ("echo \"(x)\" $(date) 3", 4),
        ("echo \u{E0B0} $(date) \u{FFFE}", 4),
    ] {
        assert!(is_lexable(text), "{text}");
        let words = lex_words(text);
        assert_eq!(words.len(), count, "{text}: {words:?}");
    }
    let long = format!("echo $(date){}", " ${x} $(y) word".repeat(2_000));
    assert!(is_lexable(&long));
    let words = parse_simple_command_words("echo $(date) 3").unwrap();
    assert_eq!(words[2].text, "3");
}

/// A number that follows from the one before it.
fn step(state: &mut u64) -> usize {
    *state ^= *state << 13;
    *state ^= *state >> 7;
    *state ^= *state << 17;
    (*state >> 11) as usize
}

#[test]
fn texts_that_the_lexer_can_be_given_are_read() {
    let pieces = [
        "$(", "$(", "$((", "${", "(", ")", ")", "))", "{ ", "}", " }", "`", "\\", "'", "\"", " ", " ",
        "3", "12", "a", ";", "|", "&", ">", "<", "<<E", "\n", "\nE\n", "#", "if ", "then ", " fi",
        " done", "for i in ", "case a in ", " esac", "\u{FFFE}", "\u{E0EF}\u{E0BF}\u{E0BE}", "$",
        "\\$", "\\`", "f()", ":-", "2>", ">&1", "~", "${x}", "$(a)", "`a`", "$((1))", "(a)",
    ];
    let mut state: u64 = 88_172_645_463_325_252;
    let mut read = 0;
    for _ in 0..40_000 {
        let mut text = String::from("$(");
        for _ in 0..step(&mut state) % 12 {
            text.push_str(pieces[step(&mut state) % pieces.len()]);
        }
        text.push_str(" )");
        if is_lexable(&text) {
            assert!(!tokens_of(&text).is_empty());
            read += 1;
        }
    }
    assert!(read > 10_000);
}
