use stalkr::fm::{FileId, SeenPaths};
use stalkr::gh::GithubApi;
use stalkr::issue::simulated_tag;
use stalkr::mode::{Mode, ModeValue, Progress};
use stalkr::prompt::{parse_command, take_selected, Command};
use stalkr::purge::{PurgeSplicer, Purges};
use stalkr::scan::search;
use stalkr::tag::{plan_insertions, Tag, TagSplicer};
use stalkr::todo::Todo;

fn insert_all(src: &[u8], tags: Vec<Tag>) -> Vec<u8> {
    let plan = plan_insertions(tags, src.len()).unwrap();
    let mut buf = src.to_vec();
    buf.resize(plan.new_len, 0);
    let mut splicer = TagSplicer::new(plan, &buf);
    while splicer.step(&mut buf).is_some() {}
    buf
}

fn purge_all(src: &[u8], mut purges: Purges) -> Vec<u8> {
    purges.sort();
    purges.check(src.len()).unwrap();
    let mut buf = src.to_vec();
    let mut splicer = PurgeSplicer::new(purges, &buf);
    while splicer.step(&mut buf).is_some() {}
    buf.truncate(splicer.cur_len);
    buf
}

fn reporting(src: &[u8]) -> Vec<Todo> {
    match search(src, FileId(0), Mode::Reporting) {
        ModeValue::Reporting(v) => v,
        _ => panic!("wrong batch"),
    }
}

fn purging(src: &[u8]) -> Purges {
    match search(src, FileId(0), Mode::Purging) {
        ModeValue::Purging(p) => p,
        _ => panic!("wrong batch"),
    }
}

#[test]
fn single_untagged_simulated_report() {
    let src = b"// TODO: fix me\nfn x(){}\n";
    let mut progress = Progress::new();
    let todos = reporting(src);
    assert_eq!(todos.len(), 1);
    progress.add_found(todos.len() as u64);
    assert_eq!(parse_command("a", todos.len()), Command::All);
    let tags: Vec<Tag> = todos.into_iter().map(simulated_tag).collect();
    let k = tags[0].issue_number;
    assert!(k < 10_000);
    assert!(progress.add_processed(1));
    let out = insert_all(src, tags);
    assert_eq!(out, format!("// TODO(#{k}): fix me\nfn x(){{}}\n").into_bytes());
    assert_eq!(progress.found(), 1);
    assert_eq!(progress.processed(), 1);
}

#[test]
fn two_untagged_select_first() {
    let src = b"# TODO: one\n# TODO: two\n";
    let mut progress = Progress::new();
    let todos = reporting(src);
    assert_eq!(todos.len(), 2);
    progress.add_found(2);
    let sel = match parse_command("1", todos.len()) {
        Command::Select(v) => v,
        c => panic!("unexpected {c:?}"),
    };
    assert_eq!(sel, vec![0]);
    let chosen = take_selected(todos, &sel);
    let numbers = [11u64, 22u64];
    let tags: Vec<Tag> = chosen
        .into_iter()
        .zip(numbers)
        .map(|(todo, n)| Tag { issue_number: n, todo })
        .collect();
    assert!(progress.add_processed(tags.len() as u64));
    let out = insert_all(src, tags);
    assert_eq!(out, b"# TODO(#11): one\n# TODO: two\n".to_vec());
    assert_eq!(progress.found(), 2);
    assert_eq!(progress.processed(), 1);
}

#[test]
fn purge_closed_block_comment() {
    let src = b"/* TODO(#7): done\n   continues\n*/\ncode();\n";
    let purges = purging(src);
    assert_eq!(purges.purges.len(), 1);
    assert_eq!(purges.purges[0].tag.issue_number, 7);
    assert_eq!(purges.purges[0].range, 0..34);
    let closed = GithubApi::issue_is_closed(200, Some("closed"));
    assert!(closed);
    assert_eq!(parse_command("a", 1), Command::All);
    let mut progress = Progress::new();
    progress.add_found(1);
    let out = purge_all(src, purges);
    assert!(progress.add_processed(1));
    assert_eq!(out, b"code();\n".to_vec());
    assert_eq!(progress.processed(), 1);
}

#[test]
fn purge_skipped_when_open() {
    let src = b"/* TODO(#7): done\n   continues\n*/\ncode();\n";
    let purges = purging(src);
    let kept: Vec<bool> = purges
        .purges
        .iter()
        .map(|_| GithubApi::issue_is_closed(200, Some("open")))
        .collect();
    assert_eq!(kept, vec![false]);
    let file_id = purges.file_id;
    let remaining: Vec<_> = purges
        .purges
        .into_iter()
        .zip(kept)
        .filter(|(_, k)| *k)
        .map(|(p, _)| p)
        .collect();
    assert!(remaining.is_empty());
    let out = purge_all(src, Purges { file_id, purges: remaining });
    assert_eq!(out, src.to_vec());
    assert_eq!(Progress::new().processed(), 0);
}

#[test]
fn mixed_tagged_and_untagged_report() {
    let src = b"// TODO(#1): old\n// TODO: new\n";
    let todos = reporting(src);
    assert_eq!(todos.len(), 1);
    assert_eq!(todos[0].title, "new");
    let tags = vec![Tag { issue_number: 42, todo: todos.into_iter().next().unwrap() }];
    let out = insert_all(src, tags);
    assert_eq!(out, b"// TODO(#1): old\n// TODO(#42): new\n".to_vec());
}

#[test]
fn description_ends_at_blank_comment() {
    let src = b"// TODO: t\n// line1\n//\n// line3\n";
    let todos = reporting(src);
    assert_eq!(todos.len(), 1);
    assert_eq!(todos[0].title, "t");
    let d = todos[0].description.as_ref().unwrap();
    assert_eq!(d.lines, vec!["line1".to_string()]);
}

#[test]
fn scanning_twice_registers_once() {
    let mut seen = SeenPaths::new();
    let paths = ["/a/x.rs", "/a/y.rs", "/a/x.rs"];
    let first: Vec<bool> = paths.iter().map(|p| seen.mark_seen(p.to_string())).collect();
    assert_eq!(first, vec![true, true, false]);
    let second: Vec<bool> = paths.iter().map(|p| seen.mark_seen(p.to_string())).collect();
    assert_eq!(second, vec![false, false, false]);
}

#[test]
fn progress_refuses_more_processed_than_found() {
    let mut p = Progress::new();
    assert!(!p.add_processed(1));
    p.add_found(2);
    assert!(p.add_processed(2));
    assert!(!p.add_processed(1));
    assert_eq!((p.found(), p.processed()), (2, 2));
    p.add_found(u64::MAX);
    assert_eq!(p.found(), u64::MAX);
}

#[test]
fn found_counts_by_mode() {
    let mut p = Progress::new();
    let src = b"// TODO: a\n// TODO(#2): b\n";
    p.count_found(&search(src, FileId(0), Mode::Reporting));
    assert_eq!(p.found(), 1);
    p.count_found(&search(src, FileId(0), Mode::Listing));
    assert_eq!(p.found(), 3);
    p.count_found(&search(src, FileId(0), Mode::Purging));
    assert_eq!(p.found(), 3);
}
