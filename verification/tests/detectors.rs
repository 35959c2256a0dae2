use rmstuff::detectors::javascript::Javascript;
use rmstuff::detectors::{
    get_size, is_candidate, Deletable, Detector, Entry, Probe, Registry, Rules, SizeMeasurer,
};
use rmstuff::size::FileSize;

fn listing(entries: &[(&str, bool)]) -> Vec<Entry> {
    entries
        .iter()
        .map(|(path, is_dir)| Entry::new(path.to_string(), *is_dir))
        .collect()
}

fn paths(entries: &[Entry]) -> Vec<String> {
    entries.iter().map(|e| e.path.clone()).collect()
}

fn texts(texts: &[&str]) -> Vec<String> {
    texts.iter().map(|t| t.to_string()).collect()
}

#[test]
fn an_entry_is_named_by_its_last_segment() {
    let entry = Entry::new("root/proj/node_modules".to_string(), true);
    assert_eq!(entry.path, "root/proj/node_modules");
    assert_eq!(entry.name, "node_modules");
    assert!(entry.is_dir);
    let file = Entry::new("package.json".to_string(), false);
    assert_eq!(file.name, "package.json");
    assert!(!file.is_dir);
    assert_eq!(Entry::new("root/dir/".to_string(), true).name, "");
}

#[test]
fn an_entry_can_be_cloned() {
    let entry = Entry::new("a/b".to_string(), true);
    let copy = entry.clone();
    assert_eq!(copy.path, "a/b");
    assert_eq!(copy.name, "b");
    assert!(copy.is_dir);
}

#[test]
fn a_deletable_holds_what_it_was_given() {
    let deletable = Deletable::new("a/dist".to_string(), true, FileSize::new(42));
    assert_eq!(deletable.path, "a/dist");
    assert!(deletable.is_dir);
    assert_eq!(deletable.size.bytes(), 42);
}

#[test]
fn javascript_markers_and_candidates() {
    let js = Javascript::new();
    assert_eq!(js.markers(), texts(&["package.json", "node_modules"]));
    assert_eq!(
        js.deletables(),
        texts(&["node_modules", "dist", "public", ".cache"])
    );
}

#[test]
fn a_matched_listing_nominates_its_candidates() {
    let js = Javascript::new();
    let entries = listing(&[
        ("root/proj/package.json", false),
        ("root/proj/node_modules", true),
        ("root/proj/src", true),
        ("root/proj/dist", true),
        ("root/proj/.cache", false),
    ]);
    let found = js.find_deletables(&entries).expect("the listing holds a marker");
    assert_eq!(
        paths(&found),
        texts(&["root/proj/node_modules", "root/proj/dist", "root/proj/.cache"])
    );
    assert!(found[0].is_dir);
    assert!(!found[2].is_dir);
}

#[test]
fn a_listing_without_marker_is_no_match() {
    let js = Javascript::new();
    let entries = listing(&[("root/dist", true), ("root/src", true)]);
    assert!(js.find_deletables(&entries).is_none());
    assert!(js.find_deletables(&Vec::new()).is_none());
}

#[test]
fn a_match_without_candidates_is_empty_not_absent() {
    let js = Javascript::new();
    let entries = listing(&[("root/proj/package.json", false), ("root/proj/src", true)]);
    let found = js.find_deletables(&entries).expect("the listing holds a marker");
    assert!(found.is_empty());
}

#[test]
fn a_marker_matches_as_a_substring_of_the_path() {
    let js = Javascript::new();
    let entries = listing(&[("root/my-package.json.bak", false), ("root/public", true)]);
    let found = js.find_deletables(&entries).expect("the marker stands in a path");
    assert_eq!(paths(&found), texts(&["root/public"]));
    let below = listing(&[("root/node_modules/dist", true)]);
    let found = js.find_deletables(&below).expect("the marker stands in the parent's name");
    assert_eq!(paths(&found), texts(&["root/node_modules/dist"]));
}

#[test]
fn a_candidate_matches_by_its_exact_name() {
    let js = Javascript::new();
    let entries = listing(&[
        ("root/package.json", false),
        ("root/dist2", true),
        ("root/xdist", true),
        ("root/Dist", true),
    ]);
    let found = js.find_deletables(&entries).expect("the listing holds a marker");
    assert!(found.is_empty());
    assert!(is_candidate(&texts(&["dist", "public"]), &"dist".to_string()));
    assert!(!is_candidate(&texts(&["dist", "public"]), &"dis".to_string()));
    assert!(!is_candidate(&Vec::new(), &"dist".to_string()));
}

#[test]
fn rules_are_a_detector() {
    let rules = Rules {
        markers: texts(&["Cargo.toml"]),
        candidates: texts(&["target"]),
    };
    assert_eq!(rules.markers(), texts(&["Cargo.toml"]));
    assert_eq!(rules.deletables(), texts(&["target"]));
    let entries = listing(&[("p/Cargo.toml", false), ("p/target", true), ("p/src", true)]);
    let found = rules.find_deletables(&entries).expect("the listing holds a marker");
    assert_eq!(paths(&found), texts(&["p/target"]));
}

#[test]
fn a_registry_merges_in_the_order_of_registration() {
    let mut registry = Registry::new();
    assert_eq!(registry.len(), 0);
    registry.register(&Rules {
        markers: texts(&["Cargo.toml"]),
        candidates: texts(&["target", "dist"]),
    });
    registry.register(&Javascript::new());
    assert_eq!(registry.len(), 2);
    let entries = listing(&[
        ("p/package.json", false),
        ("p/Cargo.toml", false),
        ("p/node_modules", true),
        ("p/target", true),
        ("p/dist", true),
    ]);
    let found = registry.evaluate(&entries);
    assert_eq!(
        paths(&found),
        texts(&["p/target", "p/dist", "p/node_modules", "p/dist"])
    );
    let only_js = listing(&[("q/package.json", false), ("q/target", true), ("q/dist", true)]);
    assert_eq!(paths(&registry.evaluate(&only_js)), texts(&["q/dist"]));
    assert!(registry.evaluate(&listing(&[("r/target", true)])).is_empty());
}

#[test]
fn a_registry_knows_every_claimed_name() {
    let mut registry = Registry::new();
    assert!(!registry.claims(&"dist".to_string()));
    registry.register(&Javascript::new());
    registry.register(&Rules {
        markers: texts(&["Cargo.toml"]),
        candidates: texts(&["target"]),
    });
    assert!(registry.claims(&"dist".to_string()));
    assert!(registry.claims(&".cache".to_string()));
    assert!(registry.claims(&"target".to_string()));
    assert!(!registry.claims(&"src".to_string()));
    assert!(!registry.claims(&"package.json".to_string()));
}

#[test]
fn a_measurer_sums_the_files_below_a_path() {
    let mut measurer = SizeMeasurer::new("root".to_string());
    assert!(get_size(&measurer).is_none());
    assert_eq!(measurer.next(), Some("root".to_string()));
    measurer.record(Probe::Directory(texts(&["root/a", "root/sub", "root/b"])));
    assert!(get_size(&measurer).is_none());
    let mut probed = Vec::new();
    while let Some(path) = measurer.next() {
        let probe = match path.as_str() {
            "root/a" => Probe::File(100),
            "root/b" => Probe::File(20),
            "root/sub" => Probe::Directory(texts(&["root/sub/c", "root/sub/gone"])),
            "root/sub/c" => Probe::File(3),
            _ => Probe::Unreadable,
        };
        assert!(measurer.fits(&probe));
        measurer.record(probe);
        probed.push(path);
    }
    probed.sort();
    assert_eq!(
        probed,
        texts(&["root/a", "root/b", "root/sub", "root/sub/c", "root/sub/gone"])
    );
    assert_eq!(get_size(&measurer).expect("nothing waits").bytes(), 123);
}

#[test]
fn a_measured_file_is_its_own_size() {
    let mut measurer = SizeMeasurer::new("file".to_string());
    assert_eq!(measurer.next(), Some("file".to_string()));
    measurer.record(Probe::File(4096));
    assert_eq!(measurer.next(), None);
    assert_eq!(get_size(&measurer).expect("nothing waits").bytes(), 4096);
}

#[test]
fn what_cannot_be_read_counts_as_nothing() {
    let mut measurer = SizeMeasurer::new("gone".to_string());
    assert_eq!(measurer.next(), Some("gone".to_string()));
    measurer.record(Probe::Unreadable);
    assert_eq!(get_size(&measurer).expect("nothing waits").bytes(), 0);
}

#[test]
fn a_measurer_says_when_a_file_does_not_fit() {
    let mut measurer = SizeMeasurer::new("root".to_string());
    assert_eq!(measurer.next(), Some("root".to_string()));
    measurer.record(Probe::File(u64::MAX - 1));
    assert!(measurer.fits(&Probe::File(1)));
    assert!(!measurer.fits(&Probe::File(2)));
    assert!(measurer.fits(&Probe::Unreadable));
    assert!(measurer.fits(&Probe::Directory(Vec::new())));
}
