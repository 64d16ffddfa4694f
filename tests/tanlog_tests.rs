use tanlog::chain::{recent_links, register_actions};
use tanlog::fsmodel::Action;
use tanlog::paths::{join, raw_to_san, split_path, PathError};
use tanlog::sanitize::{end_decision, EndDecision, SIZE_LIMIT};
use tanlog::session::{first_free, log_file_name, Config, Stamp};

fn config() -> Config {
    Config::new("/tmp/tl").expect("patterns compile")
}

fn stamp() -> Stamp {
    Stamp { year: 2024, month: 1, day: 2, hour: 3, minute: 4, second: 5 }
}

fn sanitize_str(raw: &[u8]) -> Vec<u8> {
    config().sanitizer.sanitize(raw)
}

#[test]
fn raw_to_san_drops_raw_segment() {
    assert_eq!(raw_to_san("/tmp/tl/RAW/2024-01-02/03:04:05-0.log"), "/tmp/tl/2024-01-02/03:04:05-0.log");
    assert_eq!(raw_to_san("/a/RAW/RAW/b"), "/a/RAW/b");
    assert_eq!(raw_to_san("/a/RAW/b/RAW/c"), "/a/b/c");
    assert_eq!(raw_to_san("RAW/x"), "RAW/x");
    assert_eq!(raw_to_san(""), "");
}

#[test]
fn sanitize_example_line() {
    assert_eq!(sanitize_str(b"hello\x1B[31mworld\x1B[0m\r\n"), b"helloworld\n".to_vec());
}

#[test]
fn sanitize_line_alone() {
    let c = config();
    assert_eq!(c.sanitizer.sanitize_line(b"hello\x1B[31mworld\x1B[0m\r\n"), b"helloworld\n".to_vec());
}

#[test]
fn sanitize_strips_bell_title_and_charset() {
    assert_eq!(sanitize_str(b"a\x07b\x1B]0;title\x07c\x1B(Bd\x1BMe\n"), b"abcde\n".to_vec());
}

#[test]
fn sanitize_trailing_space_and_crlf() {
    assert_eq!(sanitize_str(b"abc  \r\r\n"), b"abc\n".to_vec());
}

#[test]
fn sanitize_orphan_cr() {
    assert_eq!(sanitize_str(b"progress 10%\rprogress 20%\n"), b"progress 10%\nprogress 20%\n".to_vec());
}

#[test]
fn sanitize_many_lines_equals_line_by_line() {
    let raw: &[u8] = b"one\x1B[1m\r\ntwo  \n\x1B[Kthree";
    let c = config();
    let mut streamed = Vec::new();
    for part in [&b"one\x1B[1m\r\n"[..], &b"two  \n"[..], &b"\x1B[Kthree"[..]] {
        streamed.extend(c.sanitizer.sanitize_line(part));
    }
    assert_eq!(c.sanitizer.sanitize(raw), streamed);
    assert_eq!(streamed, b"one\ntwo\nthree".to_vec());
}

#[test]
fn sanitize_empty() {
    assert_eq!(sanitize_str(b""), Vec::<u8>::new());
}

#[test]
fn end_skips_missing_large_and_done() {
    let p = "/tmp/tl/RAW/2024-01-02/03:04:05-0.log";
    assert_eq!(end_decision(p, false, 10, false), EndDecision::Skip);
    assert_eq!(end_decision(p, true, SIZE_LIMIT, false), EndDecision::Skip);
    assert_eq!(end_decision(p, true, 100_000_000, false), EndDecision::Skip);
    assert_eq!(end_decision(p, true, 10, true), EndDecision::Skip);
    assert_eq!(
        end_decision(p, true, 99_999_999, false),
        EndDecision::Sanitize { target: "/tmp/tl/2024-01-02/03:04:05-0.log".to_string() }
    );
}

#[test]
fn second_sanitize_is_noop() {
    let p = "/tmp/tl/RAW/d/t-0.log";
    assert!(matches!(end_decision(p, true, 5, false), EndDecision::Sanitize { .. }));
    assert_eq!(end_decision(p, true, 5, true), EndDecision::Skip);
}

#[test]
fn log_names_and_allocation() {
    assert_eq!(log_file_name("03:04:05", 0), "03:04:05-0.log");
    assert_eq!(log_file_name("03:04:05", 1234), "03:04:05-1234.log");
    let mut existing: Vec<String> = Vec::new();
    for expect in 0..5u64 {
        let n = first_free("03:04:05", &existing);
        assert_eq!(n, expect);
        existing.push(log_file_name("03:04:05", n));
    }
    let gap = vec!["03:04:05-1.log".to_string(), "other".to_string()];
    assert_eq!(first_free("03:04:05", &gap), 0);
}

#[test]
fn register_shifts_oldest_first_then_links() {
    let acts = register_actions("/t/log", "/d");
    assert_eq!(acts.len(), 10);
    assert_eq!(
        acts[0],
        Action::ShiftIfPresent { from: "/d/PPPPPPPPP".to_string(), to: "/d/PPPPPPPPPP".to_string() }
    );
    assert_eq!(acts[8], Action::ShiftIfPresent { from: "/d/P".to_string(), to: "/d/PP".to_string() });
    assert_eq!(acts[9], Action::Symlink { target: "/t/log".to_string(), link: "/d/P".to_string() });
}

#[test]
fn recent_walks_longest_name_first() {
    let links = recent_links("/tmp/tl/TODAY");
    assert_eq!(links.len(), 10);
    assert_eq!(links[0], "/tmp/tl/TODAY/PPPPPPPPPP");
    assert_eq!(links[9], "/tmp/tl/TODAY/P");
}

#[test]
fn split_path_cases() {
    assert_eq!(split_path("/usr/bin/foo"), Ok(("/usr/bin".to_string(), "foo".to_string())));
    assert_eq!(split_path("foo"), Ok(("".to_string(), "foo".to_string())));
    assert_eq!(split_path("/a/"), Ok(("/".to_string(), "a".to_string())));
    assert_eq!(split_path("/x"), Ok(("/".to_string(), "x".to_string())));
    assert_eq!(split_path("bin/"), Ok(("".to_string(), "bin".to_string())));
    assert_eq!(split_path("foo.txt/."), Ok(("".to_string(), "foo.txt".to_string())));
    assert_eq!(split_path("a//b"), Ok(("a".to_string(), "b".to_string())));
    assert_eq!(split_path("/"), Err(PathError::NotFileName));
    assert_eq!(split_path("."), Err(PathError::NotFileName));
    assert_eq!(split_path("a/.."), Err(PathError::NotFileName));
    assert_eq!(split_path(""), Err(PathError::NotFileName));
    assert_eq!(join("/a", "b"), "/a/b");
}

#[test]
fn program_names() {
    let c = config();
    assert_eq!(c.program_name("/usr/bin/foo arg"), Ok("foo".to_string()));
    assert_eq!(c.program_name("foo arg"), Ok("foo".to_string()));
    assert_eq!(c.program_name("/usr/bin/ arg"), Ok("bin".to_string()));
    assert_eq!(c.program_name("( ls -la)"), Ok("ls".to_string()));
    assert_eq!(c.program_name("   "), Err(PathError::NoMatch));
    assert_eq!(c.program_name("a/.. x"), Err(PathError::NotFileName));
}

#[test]
fn stamp_texts() {
    assert_eq!(stamp().day_text(), "2024-01-02");
    assert_eq!(stamp().time_text(), "03:04:05");
    let mut s = stamp();
    s.year = 5;
    assert_eq!(s.day_text(), "0005-01-02");
    s.year = -5;
    assert_eq!(s.day_text(), "-0005-01-02");
    s.year = 12345;
    assert_eq!(s.day_text(), "+12345-01-02");
}

#[test]
fn stamp_now_in_range() {
    let s = Stamp::now().expect("clock after the epoch");
    assert!((1..=12).contains(&s.month) && (1..=31).contains(&s.day));
    assert!(s.hour < 24 && s.minute < 60 && s.second < 60);
}

#[test]
fn start_plan_pointers_and_links() {
    let c = config();
    let existing = vec!["03:04:05-0.log".to_string()];
    let plan = c.plan_start(&stamp(), &existing, "ls -la");
    assert_eq!(plan.seq, 1);
    assert_eq!(plan.failure, None);
    assert_eq!(plan.log_path, "/tmp/tl/RAW/2024-01-02/03:04:05-1.log");
    let a = &plan.actions;
    assert_eq!(a[0], Action::CreateDirAll { path: "/tmp/tl/RAW/2024-01-02".to_string() });
    assert_eq!(a[1], Action::RemoveFile { path: "/tmp/tl/RAW/.TODAY".to_string() });
    assert_eq!(
        a[2],
        Action::Symlink { target: "/tmp/tl/RAW/2024-01-02".to_string(), link: "/tmp/tl/RAW/.TODAY".to_string() }
    );
    assert_eq!(
        a[3],
        Action::Rename { from: "/tmp/tl/RAW/.TODAY".to_string(), to: "/tmp/tl/RAW/TODAY".to_string() }
    );
    assert_eq!(a[4], Action::CreateDirAll { path: "/tmp/tl/2024-01-02".to_string() });
    assert_eq!(
        a[7],
        Action::Rename { from: "/tmp/tl/.TODAY".to_string(), to: "/tmp/tl/TODAY".to_string() }
    );
    assert_eq!(
        a[8],
        Action::CreateLog {
            path: plan.log_path.clone(),
            header: "$ ls -la\n".to_string()
        }
    );
    assert_eq!(a[9], Action::StartCapture { path: plan.log_path.clone() });
    assert_eq!(a[10], Action::PrintPath { path: plan.log_path.clone() });
    let san = "/tmp/tl/2024-01-02/03:04:05-1.log".to_string();
    let today_link = Action::Symlink { target: san.clone(), link: "/tmp/tl/TODAY/P".to_string() };
    let ls_link = Action::Symlink { target: san.clone(), link: "/tmp/tl/ls/P".to_string() };
    let day_ls_link = Action::Symlink { target: san.clone(), link: "/tmp/tl/2024-01-02/ls/P".to_string() };
    assert!(a.contains(&today_link));
    assert!(a.contains(&ls_link));
    assert!(a.contains(&day_ls_link));
    assert!(a.contains(&Action::Symlink {
        target: plan.log_path.clone(),
        link: "/tmp/tl/RAW/ls/03:04:05-1.log".to_string()
    }));
    assert_eq!(a.len(), 4 + 4 + 3 + 10 + 4 * 12);
}

#[test]
fn start_plan_without_program() {
    let c = config();
    let plan = c.plan_start(&stamp(), &Vec::new(), "  ");
    assert_eq!(plan.seq, 0);
    assert_eq!(plan.failure, Some(PathError::NoMatch));
    assert_eq!(plan.actions.len(), 4 + 4 + 3 + 10);
}
