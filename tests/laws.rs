use stalkr::fm::FileId;
use stalkr::mode::{Mode, ModeValue};
use stalkr::purge::{PurgeError, PurgeSplicer, Purges};
use stalkr::scan::{classify_line, search};
use stalkr::tag::{plan_insertions, InsertError, Tag, TagSplicer};
use stalkr::todo::Todo;
use stalkr::loc::Loc;

fn todo_at(offset: usize, title: &str) -> Todo {
    Todo {
        loc: Loc(FileId(3), 1),
        preview: String::new(),
        title: title.to_string(),
        tag_insertion_offset: offset,
        description: None,
    }
}

#[test]
fn classification_offsets() {
    let cases: [(&[u8], Option<usize>); 8] = [
        (b"// TODO: x\n", Some(7)),
        (b"  #TODO(#12): y\n", Some(7)),
        (b"-- TODO: z", Some(7)),
        (b"/*   TODO: w */\n", Some(9)),
        (b"// TODO x\n", None),
        (b"// TODO(#): x\n", None),
        (b"// not TODO: x\n", None),
        (b"TODO: x\n", None),
    ];
    for (line, want) in cases {
        let got = classify_line(line).map(|t| t.content + 4);
        assert_eq!(got, want, "{:?}", String::from_utf8_lossy(line));
        if let Some(o) = want {
            assert_eq!(&line[o - 4..o], b"TODO");
        }
    }
}

#[test]
fn listing_yields_one_per_todo_line() {
    let src = b"// TODO: a\nlet x = 1; # TODO(#5): b\ncode\n";
    match search(src, FileId(1), Mode::Listing) {
        ModeValue::Listing(v) => {
            assert_eq!(v.len(), 2);
            assert_eq!(v[0].tag_insertion_offset, 7);
            assert_eq!(v[0].loc, Loc(FileId(1), 1));
            assert_eq!(v[1].tag_insertion_offset, 11 + 13 + 4);
            assert_eq!(v[1].loc.line_number(), 2);
            assert_eq!(v[1].title, "b");
        },
        _ => panic!("wrong batch"),
    }
}

#[test]
fn tags_splice_in_ascending_order() {
    let src = b"// TODO: a\n// TODO: b\n";
    let tags = vec![
        Tag { issue_number: 100, todo: todo_at(18, "b") },
        Tag { issue_number: 7, todo: todo_at(7, "a") },
    ];
    let plan = plan_insertions(tags, src.len()).unwrap();
    assert_eq!(plan.new_len, src.len() + 4 + 6);
    assert_eq!(plan.tags[0].issue_number, 7);
    let mut buf = src.to_vec();
    buf.resize(plan.new_len, 0);
    let mut s = TagSplicer::new(plan, &buf);
    assert_eq!(s.step(&mut buf), Some(0));
    assert_eq!(s.step(&mut buf), Some(1));
    assert_eq!(s.step(&mut buf), None);
    assert_eq!(buf, b"// TODO(#7): a\n// TODO(#100): b\n".to_vec());
}

#[test]
fn insertion_errors() {
    let tags = vec![Tag { issue_number: 1, todo: todo_at(50, "a") }];
    assert!(matches!(plan_insertions(tags, 10), Err(InsertError::OffsetPastEnd)));
    let tags = vec![Tag { issue_number: 1, todo: todo_at(5, "a") }];
    assert!(matches!(plan_insertions(tags, usize::MAX - 2), Err(InsertError::TooLong)));
}

#[test]
fn tag_bytes_and_messages() {
    let t = Tag { issue_number: 4096, todo: todo_at(0, "fix it") };
    assert_eq!(t.to_bytes(), b"(#4096)".to_vec());
    assert_eq!(t.commit_msg(), "Add TODO(#4096): fix it");
}

#[test]
fn purge_keeps_complement() {
    let src = b"0123456789abcdef";
    let mk = |n: u64, a: usize, b: usize| stalkr::purge::Purge {
        tag: Tag { issue_number: n, todo: todo_at(a, "p") },
        range: a..b,
    };
    let mut purges = Purges { file_id: FileId(0), purges: vec![mk(2, 10, 12), mk(1, 2, 5)] };
    purges.sort();
    assert_eq!(purges.purges[0].range, 2..5);
    assert_eq!(purges.check(src.len()), Ok(()));
    let mut buf = src.to_vec();
    let mut s = PurgeSplicer::new(purges, &buf);
    assert_eq!(s.step(&mut buf), Some(1));
    assert_eq!(s.step(&mut buf), Some(0));
    assert_eq!(s.step(&mut buf), None);
    assert_eq!(s.cur_len, 16 - 3 - 2);
    assert_eq!(&buf[..s.cur_len], b"0156789cdef");
    assert_eq!(s.purges.purges[0].commit_msg(), "Remove closed TODO(#1): p");
}

#[test]
fn purge_check_errors() {
    let mk = |a: usize, b: usize| stalkr::purge::Purge {
        tag: Tag { issue_number: 1, todo: todo_at(a, "p") },
        range: a..b,
    };
    let p = Purges { file_id: FileId(0), purges: vec![mk(3, 3)] };
    assert_eq!(p.check(10), Ok(()));
    let p = Purges { file_id: FileId(0), purges: vec![mk(4, 3)] };
    assert_eq!(p.check(10), Err(PurgeError::Reversed));
    let p = Purges { file_id: FileId(0), purges: vec![mk(3, 11)] };
    assert_eq!(p.check(10), Err(PurgeError::PastEnd));
    let p = Purges { file_id: FileId(0), purges: vec![mk(1, 5), mk(4, 6)] };
    assert_eq!(p.check(10), Err(PurgeError::Overlap));
}

#[test]
fn purge_range_of_trailing_comment() {
    let src = b"let a = 1;  // TODO(#3): gone\nnext();\n";
    match search(src, FileId(0), Mode::Purging) {
        ModeValue::Purging(p) => {
            assert_eq!(p.purges.len(), 1);
            assert_eq!(p.purges[0].range, 10..29);
        },
        _ => panic!("wrong batch"),
    }
}

#[test]
fn oversized_issue_numbers_are_reported() {
    let src = b"// TODO(#99999999999999999999999): x\n# TODO(#4): y\n";
    assert_eq!(stalkr::scan::malformed_tags(src), vec![1]);
    let bad = b"// TODO(#1a): x\n// TODO(abc): y\n// TODO(#2: z\n// TODO(#3): ok\n// TODO: plain\n";
    assert_eq!(stalkr::scan::malformed_tags(bad), vec![1, 2]);
    assert_eq!(stalkr::scan::count_lines(bad), 5);
    assert_eq!(stalkr::scan::count_lines(b"a\nb"), 2);
    assert_eq!(stalkr::scan::count_lines(b""), 0);
    match search(src, FileId(0), Mode::Purging) {
        ModeValue::Purging(p) => {
            assert_eq!(p.purges.len(), 1);
            assert_eq!(p.purges[0].tag.issue_number, 4);
        },
        _ => panic!("wrong batch"),
    }
}

#[test]
fn empty_ranges_are_applied() {
    let src = b"0123456789";
    let mk = |a: usize, b: usize| stalkr::purge::Purge {
        tag: Tag { issue_number: 1, todo: todo_at(a, "p") },
        range: a..b,
    };
    let mut purges = Purges { file_id: FileId(0), purges: vec![mk(2, 5), mk(2, 2), mk(7, 7)] };
    purges.sort();
    assert_eq!(purges.purges[0].range, 2..2);
    assert_eq!(purges.check(src.len()), Ok(()));
    let mut buf = src.to_vec();
    let mut s = PurgeSplicer::new(purges, &buf);
    while s.step(&mut buf).is_some() {}
    assert_eq!(&buf[..s.cur_len], b"0156789");
}

#[test]
fn unicode_whitespace_before_todo() {
    let src = "\u{a0}// \u{2003}TODO: wide\n".as_bytes();
    match search(src, FileId(0), Mode::Listing) {
        ModeValue::Listing(v) => {
            assert_eq!(v.len(), 1);
            let o = v[0].tag_insertion_offset;
            assert_eq!(&src[o - 4..o], b"TODO");
            assert_eq!(v[0].title, "wide");
        },
        _ => panic!("wrong batch"),
    }
}

#[test]
fn lines_that_are_not_utf8_are_skipped() {
    let src = b"// TODO: \xff bad\n// TODO: good\n";
    match search(src, FileId(0), Mode::Listing) {
        ModeValue::Listing(v) => {
            assert_eq!(v.len(), 1);
            assert_eq!(v[0].title, "good");
            assert_eq!(v[0].loc.line_number(), 2);
        },
        _ => panic!("wrong batch"),
    }
}
