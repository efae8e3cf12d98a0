use stalkr::cli::{Cli, Commands};
use stalkr::comment::{extract_text_from_a_comment, is_line_a_comment, trim_comment_start, Comment};
use stalkr::config::{settle, ConfigError};
use stalkr::fm::FileId;
use stalkr::gh::{Api, GithubApi, PostOutcome};
use stalkr::git::{find_any_remote_url, find_current_branch_remote, find_push_default, find_remote_url, git_remote_url};
use stalkr::issue::{tag_from_draw, Issue};
use stalkr::loc::Loc;
use stalkr::mode::{Mode, ModeValue};
use stalkr::prompt::{parse_command, take_selected, Command};
use stalkr::scan::filter;
use stalkr::todo::{Description, Todo};
use stalkr::util::{balance_concurrency, file_concurrency, inserter_concurrency, parse_owner_repo, truncate_path};

fn cli(command: Option<Commands>, owner: Option<&str>, repo: Option<&str>) -> Cli {
    Cli {
        directory: ".".to_string(),
        owner: owner.map(str::to_string),
        repository: repo.map(str::to_string),
        command,
    }
}

#[test]
fn concurrency_sizing() {
    assert_eq!(balance_concurrency(1), (1, 8));
    assert_eq!(balance_concurrency(4), (2, 8));
    assert_eq!(balance_concurrency(8), (5, 16));
    assert_eq!(balance_concurrency(16), (13, 16));
    assert_eq!(inserter_concurrency(2), 2);
    assert_eq!(inserter_concurrency(12), 4);
    assert_eq!(file_concurrency(16, 4), 4);
    assert_eq!(file_concurrency(8, 4), 2);
    assert_eq!(file_concurrency(2, 4), 1);
}

#[test]
fn owner_repo_from_urls() {
    assert_eq!(
        parse_owner_repo("git@github.com:rakivo/stalkr.git"),
        Some(("rakivo".to_string(), "stalkr".to_string()))
    );
    assert_eq!(
        parse_owner_repo("https://github.com/a/b"),
        Some(("a".to_string(), "b".to_string()))
    );
    assert_eq!(
        parse_owner_repo("https://github.com/a/b.GIT"),
        Some(("a".to_string(), "b".to_string()))
    );
    assert_eq!(parse_owner_repo("https://gitlab.com/a/b"), None);
    assert_eq!(parse_owner_repo("https://github.com/lonely"), None);
}

#[test]
fn path_truncation() {
    assert_eq!(truncate_path("src/main.rs", 12, 40), "src/main.rs");
    assert_eq!(truncate_path("aaaa/bbbb/cccc/file.rs", 7, 20), ".../cccc/file.rs");
    assert_eq!(truncate_path("aaaaaaaaaaaaaaaaaaaaaaaa", 7, 20), "...aaaaaaaaaaaaaaa");
    assert_eq!(truncate_path("x/averyveryverylongfilename.rs", 7, 20), "...longfilename.rs");
}

#[test]
fn git_config_lookup() {
    let cfg = "[core]\n\tbare = false\n[remote \"origin\"]\n\turl = git@github.com:o/r.git\n[remote \"up\"]\n\turl = https://github.com/u/v\n[remote]\n\tpushDefault = up\n[branch \"main\"]\n\tremote = up\n";
    assert_eq!(find_remote_url(cfg, "origin").as_deref(), Some("git@github.com:o/r.git"));
    assert_eq!(find_remote_url(cfg, "up").as_deref(), Some("https://github.com/u/v"));
    assert_eq!(find_remote_url(cfg, "none"), None);
    assert_eq!(find_push_default(cfg).as_deref(), Some("up"));
    assert_eq!(find_any_remote_url(cfg).as_deref(), Some("git@github.com:o/r.git"));
    assert_eq!(find_current_branch_remote("ref: refs/heads/main\n", cfg).as_deref(), Some("up"));
    assert_eq!(find_current_branch_remote("0123abcd\n", cfg), None);
    assert_eq!(git_remote_url(cfg, "none", None).as_deref(), Some("https://github.com/u/v"));
    let plain = "[remote \"a\"]\n\turl = x\n";
    assert_eq!(git_remote_url(plain, "b", None).as_deref(), Some("x"));
}

#[test]
fn comment_markers() {
    assert_eq!(is_line_a_comment("  // x"), Some(4));
    assert_eq!(is_line_a_comment("# x"), Some(1));
    assert_eq!(is_line_a_comment("-- x"), Some(2));
    assert_eq!(is_line_a_comment("/* x"), Some(2));
    assert_eq!(is_line_a_comment("x // y"), None);
    assert_eq!(is_line_a_comment("\u{a0}# x"), Some(3));
    assert_eq!(Comment::Hash.is_line_a_comment("\u{a0}# x"), Some(3));
    assert_eq!(is_line_a_comment("\u{3000}-- x"), Some(5));
    assert_eq!(Comment::Slash.is_line_a_comment("  // x"), Some(4));
    assert_eq!(Comment::Hash.is_line_a_comment("// x"), None);
    assert_eq!(Comment::Dash.is_line_a_comment("--x"), Some(2));
    assert_eq!(Comment::from_u8_unchecked(b'#'), Comment::Hash);
    assert_eq!(extract_text_from_a_comment("  #  hello  "), Some("hello".to_string()));
    assert_eq!(extract_text_from_a_comment("code"), None);
    assert_eq!(trim_comment_start("  //// # text"), "# text");
    assert_eq!(trim_comment_start("#  text"), "text");
}

#[test]
fn todo_titles() {
    assert_eq!(Todo::extract_todo_title("// TODO: fix it */"), ("fix it".to_string(), false));
    assert_eq!(Todo::extract_todo_title("# TODO(#9): tagged"), ("tagged".to_string(), true));
    assert_eq!(Todo::extract_todo_title("// just text"), ("just text".to_string(), false));
    assert_eq!(Todo::extract_todo_title("TODO(x): y"), ("y".to_string(), true));
    assert_eq!(Todo::extract_todo_title("// TODO (#3) : z"), ("TODO (#3) : z".to_string(), false));
    assert_eq!(Todo::extract_todo_title("// TODO : w"), ("w".to_string(), false));
}

#[test]
fn todo_descriptions() {
    let (d, end) = Todo::extract_todo_description(b"# one\n#  two \n# TODO: next\n", Comment::Hash).unwrap();
    assert_eq!(d.lines, vec!["one".to_string(), "two ".to_string()]);
    assert_eq!(end, 14);
    let (d, _) = Todo::extract_todo_description(b"// x \n// y\n", Comment::Slash).unwrap();
    assert_eq!(d.lines, vec!["x ".to_string(), "y".to_string()]);
    assert!(Todo::extract_todo_description(b"code\n", Comment::Hash).is_none());
    let d = Description::from_str("  a \nb\r\n\n");
    assert_eq!(d.lines, vec!["a".to_string(), "b".to_string(), String::new()]);
    let shown = d.display(9);
    assert_eq!(shown.line_start_offset, 9);
    assert_eq!(shown.lines.len(), 3);
}

#[test]
fn commands() {
    assert_eq!(parse_command(" S ", 3), Command::Skip);
    assert_eq!(parse_command("h", 3), Command::Help);
    assert_eq!(parse_command("A\n", 3), Command::All);
    assert_eq!(parse_command("2td", 3), Command::Edit { index: 1, title: true, description: true });
    assert_eq!(parse_command("3d", 3), Command::Edit { index: 2, title: false, description: true });
    assert_eq!(parse_command("9t", 3), Command::InvalidIndex);
    assert_eq!(parse_command("3, 1,1,x,7,0", 3), Command::Select(vec![0, 2]));
    assert_eq!(parse_command("x", 3), Command::Skip);
    assert_eq!(parse_command("+1", 3), Command::Select(vec![0]));
    assert_eq!(parse_command("+ 1,++2", 3), Command::Skip);
    assert_eq!(parse_command("", 3), Command::Skip);
    let picked = take_selected(vec!["a", "b", "c", "d"], &vec![1, 3]);
    assert_eq!(picked, vec!["b", "d"]);
}

#[test]
fn modes_and_messages() {
    assert_eq!(Mode::Purging.to_string_past(), "purged");
    assert_eq!(Mode::Reporting.to_string_present(), "report");
    assert_eq!(Mode::Listing.to_string_actioning(), "listing");
    assert_eq!(Mode::Reporting.finish_msg(0, 0), "[no todoʼs to report]");
    assert_eq!(Mode::Purging.finish_msg(3, 2), "[2/3] todoʼs purged");
    let v = ModeValue::new(Mode::Purging, FileId(4));
    assert!(v.is_empty());
    match v {
        ModeValue::Purging(p) => assert_eq!(p.file_id, FileId(4)),
        _ => panic!("wrong batch"),
    }
    let mut v = ModeValue::new(Mode::Listing, FileId(0));
    v.push_todo(Todo {
        loc: Loc(FileId(0), 1),
        preview: String::new(),
        title: "t".to_string(),
        tag_insertion_offset: 0,
        description: None,
    });
    assert!(!v.is_empty());
}

#[test]
fn locations() {
    let loc = Loc(FileId(2), 17);
    assert_eq!(loc.file_id(), FileId(2));
    assert_eq!(loc.line_number(), 17);
    let d = loc.display_from_str("src/a.rs");
    assert_eq!(d.file_path.0, "src/a.rs");
    assert_eq!(d.line_number, 17);
}

#[test]
fn command_line() {
    let c = cli(Some(Commands::Purge { remote: "up".to_string() }), None, None);
    assert_eq!(c.remote(), "up");
    assert_eq!(c.mode(), Mode::Purging);
    assert!(!c.simulate());
    let c = cli(Some(Commands::Report { yes: false, remote: "origin".to_string(), simulate: true }), None, None);
    assert!(c.simulate());
    assert_eq!(c.mode(), Mode::Reporting);
    let c = cli(Some(Commands::List { unreported: false, reported: false }), None, None);
    assert_eq!(c.remote(), "origin");
    assert_eq!(c.mode(), Mode::Listing);
    assert_eq!(cli(None, None, None).mode(), Mode::Reporting);
}

#[test]
fn settling() {
    let listing = cli(Some(Commands::List { unreported: false, reported: false }), None, None);
    let s = settle(&listing, Some("tok".to_string()), Some("https://github.com/o/r.git".to_string())).unwrap();
    assert_eq!((s.owner.as_str(), s.repo.as_str()), ("o", "r"));
    assert!(s.token.is_none());
    let report = cli(None, Some("me"), Some("proj"));
    assert!(matches!(settle(&report, None, None), Err(ConfigError::MissingToken)));
    let s = settle(&report, Some("tok".to_string()), None).unwrap();
    assert_eq!((s.owner.as_str(), s.repo.as_str(), s.token.as_deref()), ("me", "proj", Some("tok")));
    let bare = cli(None, None, None);
    assert!(matches!(settle(&bare, Some("t".to_string()), None), Err(ConfigError::NoOwnerRepo)));
    assert!(matches!(
        settle(&bare, Some("t".to_string()), Some("https://example.com/x".to_string())),
        Err(ConfigError::NoOwnerRepo)
    ));
}

#[test]
fn tracker_surface() {
    let api = GithubApi;
    assert_eq!(api.get_api_token_env_var(), "STALKR_GITHUB_TOKEN");
    assert_eq!(api.get_project_url("o", "r"), "https://github.com/o/r");
    assert_eq!(api.get_issues_api_url("o", "r"), "https://api.github.com/repos/o/r/issues");
    assert_eq!(
        api.get_issue_api_url("o", "r", &Issue { issue_number: 31 }),
        "https://api.github.com/repos/o/r/issues/31"
    );
    assert_eq!(GithubApi::post_outcome(201, Some(5)), PostOutcome::Created(5));
    assert_eq!(GithubApi::post_outcome(200, None), PostOutcome::Malformed);
    assert_eq!(GithubApi::post_outcome(429, Some(5)), PostOutcome::RateLimited);
    assert_eq!(GithubApi::post_outcome(403, None), PostOutcome::RateLimited);
    assert_eq!(GithubApi::post_outcome(500, Some(5)), PostOutcome::Failed);
    assert!(!GithubApi::issue_is_closed(404, Some("closed")));
    assert!(!GithubApi::issue_is_closed(200, None));
}

#[test]
fn binary_extensions_are_skipped() {
    assert!(filter(Some(b"rs")));
    assert!(filter(Some(b"py")));
    assert!(!filter(Some(b"png")));
    assert!(!filter(Some(b"dll.config")));
    assert!(!filter(Some(b"d")));
    assert!(!filter(None));
    assert!(filter(Some(b"lz cab")));
    assert!(filter(Some(b"")));
}

#[test]
fn issue_bodies() {
    let mut t = Todo {
        loc: Loc(FileId(0), 1),
        preview: String::new(),
        title: "t".to_string(),
        tag_insertion_offset: 0,
        description: None,
    };
    assert_eq!(t.issue_body(), None);
    t.description = Some(Description { lines: vec!["a".to_string(), "b c".to_string()] });
    assert_eq!(t.issue_body().as_deref(), Some("a\nb c"));
}

#[test]
fn drawn_tags() {
    let todo = Todo {
        loc: Loc(FileId(0), 1),
        preview: String::new(),
        title: "t".to_string(),
        tag_insertion_offset: 0,
        description: None,
    };
    assert_eq!(tag_from_draw(todo, 123_456_789).issue_number, 6789);
}

#[test]
fn description_marker_runs() {
    let (d, _) = Todo::extract_todo_description(b"## x\n#### y\n", Comment::Hash).unwrap();
    assert_eq!(d.lines, vec!["x".to_string(), "y".to_string()]);
    assert!(Todo::extract_todo_description(b"## TODO: y\n", Comment::Hash).is_none());
    let (d, end) = Todo::extract_todo_description(b"//// x\n// TODO(#1): z\n", Comment::Slash).unwrap();
    assert_eq!(d.lines, vec!["x".to_string()]);
    assert_eq!(end, 7);
}

#[test]
fn strict_edit_forms() {
    assert_eq!(parse_command("1,2t", 3), Command::Select(vec![0]));
    assert_eq!(parse_command("2 dt", 3), Command::Edit { index: 1, title: true, description: true });
    assert_eq!(parse_command("2tt", 3), Command::Skip);
    assert_eq!(Todo::extract_todo_title("/* TODO: x */*/"), ("x".to_string(), false));
}
