use ultraman::env::{Env, EnvError};
use ultraman::num::{decimal_len, decimal_string, parse_usize};
use ultraman::procfile::{Procfile, ProcfileError};
use ultraman::text::{split_chars, trimmed};

fn counts(p: &Procfile) -> Vec<(String, usize)> {
    let mut out = Vec::new();
    for i in 0..p.len() {
        let (name, entry) = p.entry(i);
        out.push((name.clone(), entry.concurrency));
    }
    out
}

#[test]
fn decimal_text_of_numbers() {
    assert_eq!(decimal_string(0), "0");
    assert_eq!(decimal_string(5000), "5000");
    assert_eq!(decimal_string(usize::MAX), usize::MAX.to_string());
    assert_eq!(decimal_len(0), 1);
    assert_eq!(decimal_len(100), 3);
}

#[test]
fn parse_usize_like_std() {
    assert_eq!(parse_usize("6000"), Some(6000));
    assert_eq!(parse_usize("+7"), Some(7));
    assert_eq!(parse_usize(""), None);
    assert_eq!(parse_usize("+"), None);
    assert_eq!(parse_usize("-1"), None);
    assert_eq!(parse_usize("12a"), None);
    assert_eq!(parse_usize("99999999999999999999999"), None);
}

#[test]
fn split_and_trim() {
    let parts = split_chars("a,,b", ',');
    assert_eq!(parts, vec!["a".to_string(), "".to_string(), "b".to_string()]);
    assert_eq!(split_chars("", '\n'), vec!["".to_string()]);
    assert_eq!(trimmed("  sleep 30 \t"), "sleep 30");
    assert_eq!(trimmed("   "), "");
}

#[test]
fn env_parses_pairs_and_skips_comments() {
    let env = Env::parse("# comment\n\nPORT=7000\nA=b=c\nEMPTY=\n").ok().unwrap();
    assert_eq!(env.len(), 3);
    assert_eq!(env.get("PORT").unwrap(), "7000");
    assert_eq!(env.get("A").unwrap(), "b=c");
    assert_eq!(env.get("EMPTY").unwrap(), "");
    assert!(env.get("MISSING").is_none());
}

#[test]
fn env_later_value_wins() {
    let env = Env::parse("K=1\nJ=2\nK=3").ok().unwrap();
    assert_eq!(env.len(), 2);
    assert_eq!(env.get("K").unwrap(), "3");
    let (k, _) = env.entry(0);
    assert_eq!(k, "K");
}

#[test]
fn env_malformed_line_is_reported() {
    assert_eq!(Env::parse("A=1\nnot a pair\n").err(), Some(EnvError { line: 2 }));
    assert_eq!(Env::parse("=value").err(), Some(EnvError { line: 1 }));
}

#[test]
fn env_empty_text_is_empty() {
    let env = Env::parse("").ok().unwrap();
    assert_eq!(env.len(), 0);
}

#[test]
fn env_round_trip() {
    let mut env = Env::new();
    env.insert("PORT".to_string(), "5000".to_string());
    env.insert("DATABASE_URL".to_string(), "postgres://x?a=b".to_string());
    env.insert("EMPTY".to_string(), "".to_string());
    let text = env.to_text();
    assert_eq!(text, "PORT=5000\nDATABASE_URL=postgres://x?a=b\nEMPTY=\n");
    let back = Env::parse(&text).ok().unwrap();
    assert_eq!(back.len(), 3);
    for i in 0..3 {
        assert_eq!(back.entry(i), env.entry(i));
    }
}

#[test]
fn procfile_parses_entries() {
    let p = Procfile::parse("web: cmd1\n# worker: no\nworker:   cmd2  \n\n").ok().unwrap();
    assert_eq!(p.len(), 2);
    let (name, entry) = p.entry(0);
    assert_eq!(name, "web");
    assert_eq!(entry.command, "cmd1");
    assert_eq!(entry.concurrency, 1);
    let (name, entry) = p.entry(1);
    assert_eq!(name, "worker");
    assert_eq!(entry.command, "cmd2");
}

#[test]
fn procfile_duplicate_takes_last() {
    let p = Procfile::parse("web: a\nweb: b").ok().unwrap();
    assert_eq!(p.len(), 1);
    assert_eq!(p.entry(0).1.command, "b");
}

#[test]
fn procfile_malformed_lines() {
    assert_eq!(Procfile::parse("web cmd").err(), Some(ProcfileError { line: 1 }));
    assert_eq!(Procfile::parse("ok: x\nbad name: y").err(), Some(ProcfileError { line: 2 }));
    assert_eq!(Procfile::parse(": y").err(), Some(ProcfileError { line: 1 }));
}

#[test]
fn procfile_empty_has_no_replicas() {
    let p = Procfile::parse("").ok().unwrap();
    assert_eq!(p.len(), 0);
    assert_eq!(p.process_len(), Some(0));
    assert_eq!(p.padding(), 0);
}

#[test]
fn formation_sets_counts() {
    let mut p = Procfile::parse("web: cmd1\nworker: cmd2").ok().unwrap();
    p.set_concurrency("web=2,worker=1");
    assert_eq!(counts(&p), vec![("web".to_string(), 2), ("worker".to_string(), 1)]);
    assert_eq!(p.process_len(), Some(3));
}

#[test]
fn formation_all_then_name() {
    let mut p = Procfile::parse("web: a\nworker: b\nclock: c").ok().unwrap();
    p.set_concurrency("all=3");
    p.set_concurrency("worker=5");
    assert_eq!(
        counts(&p),
        vec![("web".to_string(), 3), ("worker".to_string(), 5), ("clock".to_string(), 3)]
    );
}

#[test]
fn formation_name_wins_over_all_in_any_order() {
    let mut p = Procfile::parse("web: a\nworker: b").ok().unwrap();
    p.set_concurrency("web=4,all=2");
    assert_eq!(counts(&p), vec![("web".to_string(), 4), ("worker".to_string(), 2)]);
}

#[test]
fn formation_ignores_unknown_names() {
    let mut p = Procfile::parse("web: a\nworker: b").ok().unwrap();
    p.set_concurrency("nonexistent=5");
    assert_eq!(counts(&p), vec![("web".to_string(), 1), ("worker".to_string(), 1)]);
}

#[test]
fn formation_malformed_keeps_defaults() {
    let mut p = Procfile::parse("web: a").ok().unwrap();
    p.set_concurrency("");
    assert_eq!(counts(&p), vec![("web".to_string(), 1)]);
    p.set_concurrency("web=2,worker");
    assert_eq!(counts(&p), vec![("web".to_string(), 1)]);
    p.set_concurrency("web=+2");
    assert_eq!(counts(&p), vec![("web".to_string(), 1)]);
}

#[test]
fn formation_zero_everywhere() {
    let mut p = Procfile::parse("web: a\nworker: b").ok().unwrap();
    p.set_concurrency("all=0");
    assert_eq!(p.process_len(), Some(0));
    assert_eq!(p.padding(), 0);
}

#[test]
fn padding_is_widest_display_name() {
    let mut p = Procfile::parse("web: a\nworker: b").ok().unwrap();
    p.set_concurrency("web=10,worker=1");
    // "web.10" is 6 wide, "worker.1" is 8
    assert_eq!(p.padding(), 8);
    p.set_concurrency("worker=0");
    assert_eq!(p.padding(), 6);
}

#[test]
fn process_len_overflow() {
    let mut p = Procfile::parse("a: x\nb: y").ok().unwrap();
    p.set_concurrency(&format!("all={}", usize::MAX));
    assert_eq!(p.process_len(), None);
}

#[test]
fn formation_all_and_name_in_one_string() {
    let mut p = Procfile::parse("web: a\nworker: b\nclock: c").ok().unwrap();
    p.set_concurrency("all=3,worker=5");
    assert_eq!(
        counts(&p),
        vec![("web".to_string(), 3), ("worker".to_string(), 5), ("clock".to_string(), 3)]
    );
}

#[test]
fn ascii_white_space_is_trimmed() {
    assert_eq!(trimmed("\u{0b}\u{0c} cmd \r"), "cmd");
    let p = Procfile::parse("web:\tcmd\u{0c}\n\u{0b}\n").ok().unwrap();
    assert_eq!(p.entry(0).1.command, "cmd");
}
