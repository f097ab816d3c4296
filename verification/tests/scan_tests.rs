use watchloop::relay::{plan_relay, CommandOutput};
use watchloop::scan::{should_run, Watcher};
use watchloop::table::PathStamp;

fn strings(args: &[&str]) -> Vec<String> {
    args.iter().map(|s| s.to_string()).collect()
}

fn stamp(path: &str, mtime: u128) -> PathStamp {
    PathStamp { path: path.to_string(), mtime }
}

fn watcher(ignores: &[&str]) -> Watcher {
    Watcher::new(strings(&["."]), strings(ignores))
}

#[test]
fn first_scan_batches_every_new_file() {
    let mut w = watcher(&["node_modules"]);
    let entries = vec![stamp("./a.txt", 10), stamp("./b.txt", 20)];
    let batch = w.process_entries(&entries);
    assert_eq!(batch, strings(&["./a.txt", "./b.txt"]));
    assert!(should_run(&batch));
    assert!(w.is_tracked("./a.txt"));
    assert!(w.is_tracked("./b.txt"));
    assert_eq!(w.table_len(), 2);
}

#[test]
fn ignored_path_never_batched_nor_tracked() {
    let mut w = watcher(&["node_modules"]);
    let batch = w.process_entries(&vec![stamp("./node_modules/x.js", 10)]);
    assert!(batch.is_empty());
    assert!(!should_run(&batch));
    assert!(!w.is_tracked("./node_modules/x.js"));
    assert_eq!(w.table_len(), 0);
    // Even a later, newer observation of the same path changes nothing.
    let batch = w.process_entries(&vec![stamp("./node_modules/x.js", 99)]);
    assert!(batch.is_empty());
    assert!(!w.is_tracked("./node_modules/x.js"));
}

#[test]
fn newer_mtime_fires_once_then_stable() {
    let mut w = watcher(&[]);
    w.process_entries(&vec![stamp("./a.txt", 100)]);
    let batch = w.process_entries(&vec![stamp("./a.txt", 150)]);
    assert_eq!(batch, strings(&["./a.txt"]));
    let batch = w.process_entries(&vec![stamp("./a.txt", 150)]);
    assert!(batch.is_empty());
}

#[test]
fn older_or_equal_mtime_no_event() {
    let mut w = watcher(&[]);
    w.process_entries(&vec![stamp("./a.txt", 100)]);
    let batch = w.process_entries(&vec![stamp("./a.txt", 100)]);
    assert!(batch.is_empty());
    let batch = w.process_entries(&vec![stamp("./a.txt", 60)]);
    assert!(batch.is_empty());
    assert_eq!(w.table_len(), 1);
}

#[test]
fn touching_n_files_batches_n() {
    let mut w = watcher(&[]);
    w.process_entries(&vec![stamp("./a", 1), stamp("./b", 1), stamp("./c", 1)]);
    let entries = vec![stamp("./a", 2), stamp("./b", 2), stamp("./c", 2)];
    let batch = w.process_entries(&entries);
    assert_eq!(batch.len(), 3);
    assert_eq!(batch, strings(&["./a", "./b", "./c"]));
    // One batch, hence one command run, however many files changed.
    assert!(should_run(&batch));
}

#[test]
fn mixed_scan_batches_only_qualifying() {
    // Among distinct observations, exactly the qualifying ones fire: a
    // strictly newer one and an unseen one, but not an unchanged or an
    // ignored one.
    let mut w = watcher(&["node_modules"]);
    w.process_entries(&vec![stamp("./a", 10), stamp("./b", 10)]);
    let batch = w.process_entries(&vec![
        stamp("./a", 20),
        stamp("./b", 10),
        stamp("./c", 5),
        stamp("./node_modules/x", 9),
    ]);
    assert_eq!(batch, strings(&["./a", "./c"]));
}

#[test]
fn duplicate_observation_same_instant() {
    let mut w = watcher(&[]);
    let batch = w.process_entries(&vec![stamp("./a", 5), stamp("./a", 5)]);
    assert_eq!(batch, strings(&["./a"]));
    assert_eq!(w.table_len(), 1);
}

#[test]
fn relay_success_stdout_only() {
    let plan = plan_relay(CommandOutput {
        stdout: b"ok\n".to_vec(),
        stderr: b"noise\n".to_vec(),
        success: true,
    });
    assert_eq!(plan.out, b"ok\n".to_vec());
    assert!(!plan.show_err);
}

#[test]
fn relay_failure_both() {
    let plan = plan_relay(CommandOutput {
        stdout: b"partial\n".to_vec(),
        stderr: b"boom\n".to_vec(),
        success: false,
    });
    assert_eq!(plan.out, b"partial\n".to_vec());
    assert_eq!(plan.err, b"boom\n".to_vec());
    assert!(plan.show_err);
}

#[test]
fn scenario_echo_hi() {
    // Roots {"."}, ignore "node_modules", command ["echo", "hi"]:
    // a new file fires one batch, the command's stdout is relayed, and a
    // second scan with no modification fires nothing.
    let mut w = watcher(&["node_modules"]);
    let batch = w.process_entries(&vec![stamp("./a.txt", 1000)]);
    assert_eq!(batch, strings(&["./a.txt"]));
    assert!(should_run(&batch));
    let plan = plan_relay(CommandOutput {
        stdout: b"hi\n".to_vec(),
        stderr: Vec::new(),
        success: true,
    });
    assert_eq!(plan.out, b"hi\n".to_vec());
    assert!(!plan.show_err);
    let batch = w.process_entries(&vec![stamp("./a.txt", 1000)]);
    assert!(batch.is_empty());
    assert!(!should_run(&batch));
}

#[test]
fn scan_filesystem_ignore_all() {
    // The empty substring occurs in every path, so a real scan of the
    // current directory must observe everything and batch nothing.
    let mut w = watcher(&[""]);
    let batch = w.scan_filesystem();
    assert!(batch.is_empty());
    assert_eq!(w.table_len(), 0);
}

#[test]
fn scan_filesystem_tracks_root() {
    // A real scan of the current directory sees at least the root entry.
    let mut w = watcher(&["@@nowhere@@"]);
    let batch = w.scan_filesystem();
    assert!(!batch.is_empty());
    assert!(w.is_tracked("."));
    assert!(should_run(&batch));
}
