use rmstuff::analysis::{scheduler, Deleter, Finder, Visit, PIPELINE_CAPACITY};
use rmstuff::config::{init_config, Config};
use rmstuff::detectors::javascript::Javascript;
use rmstuff::detectors::{Deletable, Entry, Registry, Rules};
use rmstuff::error::{ErrorKind, RmStuffError};
use rmstuff::pipeline::Get;
use rmstuff::size::FileSize;

fn javascript() -> Registry {
    let mut registry = Registry::new();
    registry.register(&Javascript::new());
    registry
}

fn listing(entries: &[(&str, bool)]) -> Vec<Entry> {
    entries
        .iter()
        .map(|(path, is_dir)| Entry::new(path.to_string(), *is_dir))
        .collect()
}

fn list(tree: &[(&str, Vec<(&str, bool)>)], dir: &str) -> Result<Vec<Entry>, RmStuffError> {
    for (path, children) in tree {
        if *path == dir {
            return Ok(listing(children));
        }
    }
    Err(RmStuffError::new(ErrorKind::Io, "cannot list"))
}

struct Walk {
    listed: Vec<String>,
    emitted: Vec<String>,
    failed: Vec<String>,
}

fn walk(registry: Registry, tree: &[(&str, Vec<(&str, bool)>)], root: &str) -> Walk {
    let mut finder = Finder::new(registry, root.to_string());
    let mut walk = Walk { listed: Vec::new(), emitted: Vec::new(), failed: Vec::new() };
    while let Some(dir) = finder.next() {
        walk.listed.push(dir.clone());
        match finder.visit(list(tree, &dir)) {
            Visit::Matched(entries) => {
                assert!(!entries.is_empty());
                for entry in entries {
                    walk.emitted.push(entry.path);
                }
            }
            Visit::Descended => {}
            Visit::Unreadable(error) => {
                assert_eq!(error.kind(), ErrorKind::Io);
                assert_ne!(dir, root);
                walk.failed.push(dir);
            }
            Visit::Inaccessible(error) => {
                assert_eq!(error.kind(), ErrorKind::Io);
                assert_eq!(dir, root);
                walk.failed.push(dir);
            }
        }
    }
    walk
}

fn texts(texts: &[&str]) -> Vec<String> {
    texts.iter().map(|t| t.to_string()).collect()
}

#[test]
fn a_project_loses_its_node_modules_only() {
    let tree = vec![
        ("root", vec![("root/proj", true)]),
        (
            "root/proj",
            vec![
                ("root/proj/package.json", false),
                ("root/proj/node_modules", true),
                ("root/proj/src", true),
            ],
        ),
        ("root/proj/node_modules", vec![("root/proj/node_modules/dep", true)]),
        ("root/proj/src", vec![("root/proj/src/main.js", false)]),
    ];
    let walk = walk(javascript(), &tree, "root");
    assert_eq!(walk.emitted, texts(&["root/proj/node_modules"]));
    assert_eq!(walk.listed, texts(&["root", "root/proj"]));
    assert!(!walk.listed.contains(&"root/proj/src".to_string()));
    assert!(!walk.emitted.contains(&"root/proj/package.json".to_string()));
    assert!(walk.failed.is_empty());
}

#[test]
fn two_projects_give_two_deletables() {
    let tree = vec![
        ("root", vec![("root/a", true), ("root/b", true)]),
        ("root/a", vec![("root/a/package.json", false), ("root/a/node_modules", true)]),
        ("root/b", vec![("root/b/package.json", false), ("root/b/dist", true)]),
    ];
    let walk = walk(javascript(), &tree, "root");
    assert_eq!(walk.emitted, texts(&["root/a/node_modules", "root/b/dist"]));
    assert_eq!(walk.listed, texts(&["root", "root/a", "root/b"]));
}

#[test]
fn a_tree_without_matches_is_walked_once_breadth_first() {
    let tree = vec![
        ("r", vec![("r/a", true), ("r/f.txt", false), ("r/b", true)]),
        ("r/a", vec![("r/a/x", true), ("r/a/y", true)]),
        ("r/b", vec![("r/b/z", true)]),
        ("r/a/x", vec![]),
        ("r/a/y", vec![("r/a/y/deep", true)]),
        ("r/b/z", vec![]),
        ("r/a/y/deep", vec![]),
    ];
    let walk = walk(javascript(), &tree, "r");
    assert_eq!(
        walk.listed,
        texts(&["r", "r/a", "r/b", "r/a/x", "r/a/y", "r/b/z", "r/a/y/deep"])
    );
    assert!(walk.emitted.is_empty());
    let deleter = Deleter::new(false, false);
    assert_eq!(deleter.total().bytes(), 0);
    assert_eq!(deleter.finish(), Some("deleted 0.0B".to_string()));
}

#[test]
fn a_claimed_name_is_not_entered_even_without_a_match() {
    let tree = vec![
        ("r", vec![("r/dist", true), ("r/keep", true), ("r/lib", true)]),
        ("r/dist", vec![("r/dist/inner", true)]),
        ("r/keep", vec![]),
    ];
    let walk = walk(javascript(), &tree, "r");
    assert_eq!(walk.listed, texts(&["r", "r/keep", "r/lib"]));
    assert_eq!(walk.failed, texts(&["r/lib"]));
    assert!(walk.emitted.is_empty());
}

#[test]
fn a_match_without_candidates_descends() {
    let tree = vec![
        ("r", vec![("r/package.json", false), ("r/src", true)]),
        ("r/src", vec![("r/src/lib", true)]),
        ("r/src/lib", vec![]),
    ];
    let walk = walk(javascript(), &tree, "r");
    assert_eq!(walk.listed, texts(&["r", "r/src", "r/src/lib"]));
    assert!(walk.emitted.is_empty());
}

#[test]
fn an_unreadable_directory_is_skipped_and_the_scan_goes_on() {
    let tree = vec![
        ("r", vec![("r/locked", true), ("r/p", true)]),
        ("r/p", vec![("r/p/package.json", false), ("r/p/public", true)]),
    ];
    let walk = walk(javascript(), &tree, "r");
    assert_eq!(walk.listed, texts(&["r", "r/locked", "r/p"]));
    assert_eq!(walk.failed, texts(&["r/locked"]));
    assert_eq!(walk.emitted, texts(&["r/p/public"]));
}

#[test]
fn an_inaccessible_root_is_fatal_and_ends_the_scan() {
    let walk = walk(javascript(), &[], "nowhere");
    assert_eq!(walk.listed, texts(&["nowhere"]));
    assert_eq!(walk.failed, texts(&["nowhere"]));
    assert!(walk.emitted.is_empty());
}

#[test]
fn the_error_of_a_failed_listing_comes_back() {
    let mut finder = Finder::new(javascript(), "r".to_string());
    assert_eq!(finder.next(), Some("r".to_string()));
    match finder.visit(Err(RmStuffError::new(ErrorKind::Io, "permission denied"))) {
        Visit::Inaccessible(error) => {
            assert_eq!(error.kind(), ErrorKind::Io);
            assert_eq!(error.to_string(), "permission denied");
        }
        _ => panic!("expected the failure of the root"),
    }
    assert_eq!(finder.next(), None);
    let mut finder = Finder::new(javascript(), "r".to_string());
    assert_eq!(finder.next(), Some("r".to_string()));
    assert!(matches!(finder.visit(Ok(listing(&[("r/a", true)]))), Visit::Descended));
    assert_eq!(finder.next(), Some("r/a".to_string()));
    match finder.visit(Err(RmStuffError::new(ErrorKind::Io, "gone"))) {
        Visit::Unreadable(error) => assert_eq!(error.to_string(), "gone"),
        _ => panic!("expected the failure of a directory below the root"),
    }
    assert_eq!(finder.next(), None);
}

#[test]
fn a_second_detector_needs_no_change_to_the_traversal() {
    let mut registry = javascript();
    registry.register(&Rules {
        markers: texts(&["Cargo.toml"]),
        candidates: texts(&["target"]),
    });
    let tree = vec![
        ("r", vec![("r/js", true), ("r/rs", true), ("r/target", true)]),
        ("r/js", vec![("r/js/package.json", false), ("r/js/node_modules", true)]),
        ("r/rs", vec![("r/rs/Cargo.toml", false), ("r/rs/target", true), ("r/rs/src", true)]),
    ];
    let walk = walk(registry, &tree, "r");
    assert_eq!(walk.listed, texts(&["r", "r/js", "r/rs"]));
    assert_eq!(walk.emitted, texts(&["r/js/node_modules", "r/rs/target"]));
}

fn deletable(path: &str, bytes: u64) -> Deletable {
    Deletable::new(path.to_string(), true, FileSize::new(bytes))
}

#[test]
fn a_verbose_run_reports_path_and_size() {
    let mut deleter = Deleter::new(true, false);
    let receipt = deleter.receive(&deletable("r/p/node_modules", 999), &FileSize::new(12_345));
    assert_eq!(receipt.line, Some("r/p/node_modules\t12345".to_string()));
    assert_eq!(receipt.ticket, Some(0));
    let mut quiet = Deleter::new(false, false);
    let receipt = quiet.receive(&deletable("r/p/node_modules", 999), &FileSize::new(12_345));
    assert_eq!(receipt.line, None);
}

#[test]
fn a_removal_counts_once_it_has_succeeded() {
    let mut deleter = Deleter::new(false, false);
    let size = FileSize::new(2048);
    assert!(deleter.accepts(&size));
    let receipt = deleter.receive(&deletable("a", 2048), &size);
    let ticket = receipt.ticket.expect("a removal is dispatched");
    assert_eq!(deleter.total().bytes(), 0);
    assert_eq!(deleter.outstanding(), 1);
    assert_eq!(deleter.finish(), None);
    assert!(deleter.complete(ticket, Ok(())).is_none());
    assert_eq!(deleter.total().bytes(), 2048);
    assert_eq!(deleter.outstanding(), 0);
    assert_eq!(deleter.finish(), Some("deleted 2.0KiB".to_string()));
}

#[test]
fn a_failed_removal_is_reported_and_not_counted() {
    let mut deleter = Deleter::new(false, false);
    let first = deleter.receive(&deletable("a", 1024), &FileSize::new(1024)).ticket.unwrap();
    let second = deleter.receive(&deletable("b", 512), &FileSize::new(512)).ticket.unwrap();
    assert_ne!(first, second);
    let failure = deleter
        .complete(first, Err(RmStuffError::new(ErrorKind::Io, "busy")))
        .expect("the failure is handed back");
    assert_eq!(failure.kind(), ErrorKind::Io);
    assert_eq!(failure.to_string(), "busy");
    assert_eq!(deleter.finish(), None);
    assert!(deleter.complete(second, Ok(())).is_none());
    assert_eq!(deleter.total().bytes(), 512);
    assert_eq!(deleter.finish(), Some("deleted 512.0B".to_string()));
}

#[test]
fn a_dry_run_removes_nothing_and_counts_everything() {
    let mut deleter = Deleter::new(false, true);
    let receipt = deleter.receive(&deletable("a", 1024), &FileSize::new(1024));
    assert_eq!(receipt.ticket, None);
    assert_eq!(deleter.outstanding(), 0);
    let receipt = deleter.receive(&deletable("b", 1024), &FileSize::new(1024));
    assert_eq!(receipt.ticket, None);
    assert_eq!(deleter.total().bytes(), 2048);
    assert_eq!(deleter.finish(), Some("would delete 2.0KiB".to_string()));
}

#[test]
fn a_dry_run_reports_what_a_real_run_deletes() {
    let sizes: [u64; 4] = [10, 2000, 0, 777_777];
    let mut dry = Deleter::new(false, true);
    let mut real = Deleter::new(false, false);
    let mut tickets = Vec::new();
    for (i, size) in sizes.iter().enumerate() {
        let d = deletable(&format!("p{}", i), *size);
        assert_eq!(dry.receive(&d, &FileSize::new(*size)).ticket, None);
        tickets.push(real.receive(&d, &FileSize::new(*size)).ticket.unwrap());
    }
    for ticket in tickets.iter().rev() {
        assert!(real.complete(*ticket, Ok(())).is_none());
    }
    assert_eq!(dry.total().bytes(), 779_787);
    assert_eq!(real.total().bytes(), dry.total().bytes());
    assert_eq!(real.finish(), Some("deleted 761.5KiB".to_string()));
    assert_eq!(dry.finish(), Some("would delete 761.5KiB".to_string()));
}

#[test]
fn the_total_does_not_depend_on_the_order_of_completion() {
    let sizes: [u64; 5] = [5, 40, 300, 2000, 10_000];
    let orders: [[usize; 5]; 3] = [[0, 1, 2, 3, 4], [4, 3, 2, 1, 0], [2, 0, 4, 1, 3]];
    for order in orders {
        let mut deleter = Deleter::new(false, false);
        let mut tickets = Vec::new();
        for size in sizes {
            tickets.push(deleter.receive(&deletable("x", size), &FileSize::new(size)).ticket.unwrap());
        }
        for at in order {
            let outcome = if at == 1 || at == 3 {
                Err(RmStuffError::new(ErrorKind::Io, "failed"))
            } else {
                Ok(())
            };
            deleter.complete(tickets[at], outcome);
        }
        assert_eq!(deleter.total().bytes(), 10_305);
        assert_eq!(deleter.outstanding(), 0);
    }
}

#[test]
fn completions_may_arrive_between_receipts() {
    let mut deleter = Deleter::new(false, false);
    let a = deleter.receive(&deletable("a", 1), &FileSize::new(1)).ticket.unwrap();
    deleter.complete(a, Ok(()));
    let b = deleter.receive(&deletable("b", 2), &FileSize::new(2)).ticket.unwrap();
    let c = deleter.receive(&deletable("c", 4), &FileSize::new(4)).ticket.unwrap();
    assert_eq!((a, b, c), (0, 1, 2));
    deleter.complete(c, Ok(()));
    assert_eq!(deleter.total().bytes(), 5);
    assert_eq!(deleter.outstanding(), 1);
    deleter.complete(b, Ok(()));
    assert_eq!(deleter.total().bytes(), 7);
}

#[test]
fn no_removal_counts_twice() {
    let mut deleter = Deleter::new(false, false);
    let ticket = deleter.receive(&deletable("a", 100), &FileSize::new(100)).ticket.unwrap();
    deleter.complete(ticket, Ok(()));
    deleter.complete(ticket, Ok(()));
    deleter.complete(77, Ok(()));
    assert_eq!(deleter.total().bytes(), 100);
    assert_eq!(deleter.outstanding(), 0);
}

#[test]
fn the_measured_size_counts_not_the_size_carried() {
    let mut deleter = Deleter::new(true, true);
    let receipt = deleter.receive(&deletable("a", 5), &FileSize::new(6));
    assert_eq!(receipt.line, Some("a\t6".to_string()));
    assert_eq!(deleter.total().bytes(), 6);
}

#[test]
fn the_account_says_when_it_is_full() {
    let mut deleter = Deleter::new(false, false);
    let big = FileSize::new(u64::MAX - 10);
    assert!(deleter.accepts(&big));
    deleter.receive(&deletable("big", 0), &big);
    assert!(deleter.accepts(&FileSize::new(10)));
    assert!(!deleter.accepts(&FileSize::new(11)));
    let mut dry = Deleter::new(false, true);
    dry.receive(&deletable("big", 0), &big);
    assert!(dry.accepts(&FileSize::new(10)));
    assert!(!dry.accepts(&FileSize::new(11)));
}

#[test]
fn the_scheduler_sets_up_the_stages() {
    let conf = init_config("root".to_string(), true, true);
    let mut stages = scheduler(conf);
    assert_eq!(PIPELINE_CAPACITY, 128);
    assert_eq!(stages.pipeline.capacity(), 128);
    assert_eq!(stages.pipeline.len(), 0);
    assert!(!stages.pipeline.is_closed());
    assert!(matches!(stages.pipeline.get(), Get::Empty));
    assert_eq!(stages.finder.next(), Some("root".to_string()));
    let entries = listing(&[("root/package.json", false), ("root/public", true)]);
    match stages.finder.visit(Ok(entries)) {
        Visit::Matched(found) => {
            assert_eq!(found.len(), 1);
            assert_eq!(found[0].path, "root/public");
        }
        _ => panic!("expected a match"),
    }
    assert_eq!(stages.finder.next(), None);
    let receipt = stages.deleter.receive(&deletable("root/public", 3), &FileSize::new(3));
    assert_eq!(receipt.line, Some("root/public\t3".to_string()));
    assert_eq!(receipt.ticket, None);
    assert_eq!(stages.deleter.finish(), Some("would delete 3.0B".to_string()));
}

#[test]
fn a_configuration_holds_its_flags() {
    let conf: Config = init_config("some/dir".to_string(), false, true);
    assert_eq!(conf.dir, "some/dir");
    assert!(!conf.verbose);
    assert!(conf.dry_run);
    let copy = conf.clone();
    assert_eq!(copy.dir, "some/dir");
    assert!(copy.dry_run);
}

#[test]
fn an_error_holds_its_kind_and_message() {
    let error = RmStuffError::new(ErrorKind::PathDecoding, "Could not get file/dir path");
    assert_eq!(error.kind(), ErrorKind::PathDecoding);
    assert_eq!(error.to_string(), "Could not get file/dir path");
    assert_eq!(RmStuffError::new(ErrorKind::Configuration, "x").kind(), ErrorKind::Configuration);
    assert_eq!(RmStuffError::new(ErrorKind::Parse, "y").kind(), ErrorKind::Parse);
    assert_ne!(ErrorKind::Io, ErrorKind::Parse);
}
