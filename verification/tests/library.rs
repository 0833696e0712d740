//! Concrete checks of the library's promises: the laws on small trees, the
//! edge cases, the exact value of each formula and each error.

use disk_lens::export::{build_export_node, count_export_nodes, export_data, join_path_with};
use disk_lens::models::{ScanErrors, ScannerError, TreeNode};
use disk_lens::mounts::{enumerate_drives, escapes_fit_bytes, fs_type_for_path, mount_table_fits};
use disk_lens::navigate::{get_node, get_node_fits};
use disk_lens::paths::{check_scan_target, is_linux_pseudo_fs, normalize_drive_path, volume_root_for};
use disk_lens::prune::{prune, TopNMode};
use disk_lens::scan::{
    aggregate_dir, allocated_estimate, assemble_scan_result, dir_sums_fit, entry_action, file_node, parse_top_n_mode,
    walked_name, EntryAction,
    unix_file_sizes, unix_seconds, windows_file_sizes, worker_count, ScanCtx, ERROR_LOG_CAP,
};
use disk_lens::text::push_decimal;
use disk_lens::totals::{checked_sums, tree_sums_fit_within};
use disk_lens::tree_builder::{build_tree, build_tree_checked, FlatEntry};
use disk_lens::usn::{
    from_utf16, is_ntfs_name, parse_usn_buffer, reconstruct_path, record_links, usn_drive, usn_page_readable,
    usn_volume_path,
};
use disk_lens::volinfo::{cluster_from_geometry, cluster_size, volume_info, volume_path, windows_volume_info};
use disk_lens::windrive::{drive_kind_label, drive_letter, drive_roots, volume_label, windows_drive_info};

fn node(name: &str, size: u64, files: u32, folders: u32, children: Vec<TreeNode>) -> TreeNode {
    TreeNode {
        name: name.to_string(),
        size,
        allocated_size: size,
        size_self: 0,
        allocated_self: 0,
        file_count: files,
        folder_count: folders,
        last_modified: 0,
        children,
        truncated: false,
    }
}

fn file(name: &str, size: u64) -> TreeNode {
    node(name, size, 1, 0, vec![])
}

fn dir(name: &str, size: u64, children: Vec<TreeNode>) -> TreeNode {
    let files: u32 = children.iter().map(|c| c.file_count).sum();
    let folders: u32 = children.iter().map(|c| c.folder_count + if c.file_count == 1 && c.folder_count == 0 && c.children.is_empty() { 0 } else { 1 }).sum();
    node(name, size, files, folders, children)
}

fn sample_tree() -> TreeNode {
    dir(
        "root",
        1000,
        vec![
            dir("a", 400, vec![file("a1", 300), file("a2", 100)]),
            dir("b", 250, vec![dir("b1", 250, vec![file("deep", 250)])]),
            dir("c", 150, vec![file("c1", 150)]),
            dir("d", 100, vec![file("d1", 100)]),
            file("f1", 60),
            file("f2", 40),
        ],
    )
}

fn depth(n: &TreeNode) -> usize {
    n.children.iter().map(|c| 1 + depth(c)).max().unwrap_or(0)
}

fn sums(children: &[TreeNode]) -> (u64, u64, u32, u32) {
    (
        children.iter().map(|c| c.size).sum(),
        children.iter().map(|c| c.allocated_size).sum(),
        children.iter().map(|c| c.file_count).sum(),
        children.iter().map(|c| c.folder_count).sum(),
    )
}

#[test]
fn prune_conserves_sums_and_keeps_node() {
    let root = sample_tree();
    for mode in [TopNMode::Count, TopNMode::Percent] {
        for merge in [false, true] {
            for top_n in [0usize, 1, 2, 50, 100] {
                let out = prune(&root, 3, top_n, mode, merge);
                assert_eq!(sums(&out.children), sums(&root.children));
                assert_eq!(out.name, root.name);
                assert_eq!(out.size, root.size);
                assert_eq!(out.file_count, root.file_count);
                assert_eq!(out.folder_count, root.folder_count);
            }
        }
    }
}

fn sorted_throughout(n: &TreeNode) -> bool {
    n.children.windows(2).all(|w| w[0].size >= w[1].size) && n.children.iter().all(sorted_throughout)
}

#[test]
fn prune_respects_depth_and_order() {
    let root = sample_tree();
    for d in 0u32..4 {
        let out = prune(&root, d, 100, TopNMode::Count, false);
        assert!(depth(&out) <= d as usize);
        assert!(sorted_throughout(&out));
        let merged = prune(&root, d, 1, TopNMode::Count, true);
        assert!(sorted_throughout(&merged));
    }
    let deep = prune(&root, 1, 100, TopNMode::Count, false);
    let b = deep.children.iter().find(|c| c.name == "b").unwrap();
    assert!(b.children.is_empty());
    assert!(b.truncated);
}

#[test]
fn prune_count_bound_and_names() {
    let root = sample_tree();
    let out = prune(&root, 2, 1, TopNMode::Count, true);
    // one kept directory, the aggregate of three, the fold of two files
    assert_eq!(out.children.len(), 3);
    let others = out.children.iter().find(|c| c.name == "(其他 3 项)").unwrap();
    assert_eq!(others.size, 500);
    assert_eq!(others.file_count, 3);
    assert_eq!(others.folder_count, 1);
    assert_eq!(others.size_self, 0);
    let files = out.children.iter().find(|c| c.name == "(2 个文件)").unwrap();
    assert_eq!(files.size, 100);
    assert_eq!(files.size_self, 100);
    assert_eq!(files.folder_count, 0);
    assert!(files.truncated && others.truncated);
    // top_n 0 keeps one directory
    let zero = prune(&root, 2, 0, TopNMode::Count, false);
    assert_eq!(zero.children.iter().filter(|c| c.name == "a").count(), 1);
    assert_eq!(zero.children.len(), 1 + 1 + 2);
}

#[test]
fn prune_percent_keeps_fewest_covering() {
    let root = sample_tree();
    // 50% of 1000 = 500: a (400) alone does not cover, a + b (650) does
    let out = prune(&root, 2, 50, TopNMode::Percent, false);
    let names: Vec<&str> = out.children.iter().map(|c| c.name.as_str()).collect();
    assert!(names.contains(&"a") && names.contains(&"b"));
    assert!(names.contains(&"(其他 2 项)"));
    // 40% = 400: a alone covers exactly
    let out = prune(&root, 2, 40, TopNMode::Percent, false);
    assert!(out.children.iter().any(|c| c.name == "(其他 3 项)"));
    // above 100 is clamped to 100: all directories together (900) never reach 1000
    let out = prune(&root, 2, 500, TopNMode::Percent, false);
    assert!(!out.truncated);
    assert_eq!(out.children.len(), root.children.len());
    // an empty parent keeps everything
    let empty = dir("e", 0, vec![dir("x", 0, vec![]), dir("y", 0, vec![])]);
    let out = prune(&empty, 1, 1, TopNMode::Percent, false);
    assert_eq!(out.children.len(), 2);
    assert!(!out.truncated);
}

#[test]
fn prune_untruncated_shows_every_child() {
    let root = sample_tree();
    let out = prune(&root, 2, 100, TopNMode::Count, false);
    assert!(!out.truncated);
    assert_eq!(out.children.len(), root.children.len());
}

#[test]
fn tree_sums_fit_detects_overflow() {
    assert!(tree_sums_fit_within(&sample_tree(), 10));
    let bad = dir("r", 0, vec![file("x", u64::MAX), file("y", 1)]);
    assert!(!tree_sums_fit_within(&bad, 1));
    assert!(tree_sums_fit_within(&bad, 0));
    let nested = dir("r", 0, vec![dir("s", 0, vec![file("x", u64::MAX), file("y", 1)])]);
    assert!(!tree_sums_fit_within(&nested, 2));
    // only the levels within the budget are looked at
    assert!(tree_sums_fit_within(&nested, 1));
    let p = prune(&nested, 1, 100, TopNMode::Count, false);
    assert!(p.children[0].truncated);
    assert!(p.children[0].children.is_empty());
    assert_eq!(checked_sums(&sample_tree().children), Some((1000, 1000, 7, 1)));
    assert_eq!(checked_sums(&bad.children), None);
}

#[test]
fn get_node_walks_paths() {
    let root = sample_tree();
    let whole = get_node(&root, &vec![], 1, 100, TopNMode::Count, false).ok().unwrap();
    assert_eq!(whole.name, "root");
    assert_eq!(whole.children.len(), root.children.len());
    let again = get_node(&root, &vec!["root".to_string()], 1, 100, TopNMode::Count, false).ok().unwrap();
    assert_eq!(again.name, "root");
    let b1 = get_node(&root, &vec!["".to_string(), "B".to_string(), "b1".to_string()], 2, 100, TopNMode::Count, false)
        .ok()
        .unwrap();
    assert_eq!(b1.name, "b1");
    assert_eq!(b1.size, 250);
    assert!(get_node_fits(&root, &vec!["a".to_string()], 3));
    assert!(get_node_fits(&root, &vec!["zz".to_string()], 3));
    match get_node(&root, &vec!["a".to_string(), "zz".to_string()], 1, 100, TopNMode::Count, false) {
        Err(e) => {
            assert_eq!(e.name, "zz");
            assert_eq!(e.depth, 2);
            assert_eq!(e.parent, "a");
            assert_eq!(e.sample, vec!["a1".to_string(), "a2".to_string()]);
        },
        Ok(_) => panic!("zz should be missing"),
    }
}

#[test]
fn export_laws_on_a_tree() {
    let root = sample_tree();
    let full = build_export_node(&root, "", 0, 0);
    assert_eq!(full.children.len(), root.children.len());
    let (nodes, dirs, files) = count_export_nodes(&full);
    assert_eq!(nodes, dirs + files);
    assert_eq!(nodes, 13);
    let big = build_export_node(&root, "", 0, 150);
    fn check(e: &disk_lens::export::ExportNode, threshold: u64) {
        for c in &e.children {
            assert!(c.size >= threshold);
            assert!(c.path.ends_with(&c.name));
            assert!(c.path.starts_with(&e.path));
            check(c, threshold);
        }
    }
    check(&big, 150);
    let names: Vec<&str> = big.children.iter().map(|c| c.name.as_str()).collect();
    assert_eq!(names, vec!["a", "b", "c"]);
    assert_eq!(big.pct_of_parent_x100, 10000);
    assert_eq!(big.children[0].pct_of_parent_x100, 4000);
    // 1/3 of the parent rounds to 33.33%, 2/3 to 66.67%
    let thirds = dir("t", 3, vec![file("one", 1), file("two", 2)]);
    let e = build_export_node(&thirds, "", 0, 0);
    assert_eq!(e.children[0].pct_of_parent_x100, 3333);
    assert_eq!(e.children[1].pct_of_parent_x100, 6667);
}

#[test]
fn export_data_summary_and_threshold() {
    let root = sample_tree();
    let data = export_data(&root, true, 0);
    assert!(data.filtered);
    assert_eq!(data.min_size_bytes, 0);
    assert_eq!(data.root_path, "root");
    assert_eq!(data.summary.node_count, 13);
    assert_eq!(data.summary.total_size, 1000);
    let filtered = export_data(&root, true, 1);
    assert_eq!(filtered.min_size_bytes, 1024 * 1024);
    assert_eq!(filtered.summary.node_count, 1);
    let huge = export_data(&root, true, u64::MAX);
    assert_eq!(huge.min_size_bytes, u64::MAX);
    let none = export_data(&root, false, 5);
    assert_eq!(none.min_size_bytes, 0);
    assert_eq!(none.summary.dir_count + none.summary.file_count, none.summary.node_count);
}

#[test]
fn join_path_with_both_separators() {
    assert_eq!(join_path_with("C:", "Users", '\\'), "C:\\Users");
    assert_eq!(join_path_with("/home/", "x", '\\'), "/home/x");
    assert_eq!(join_path_with("a", "b", '/'), "a/b");
    assert_eq!(join_path_with("", "b", '/'), "b");
}

#[test]
fn scan_ctx_error_log_is_capped() {
    let mut ctx = ScanCtx::new(7);
    for k in 0..(ERROR_LOG_CAP + 5) {
        ctx.record_error(format!("e{k}"));
    }
    let ScanErrors { count, samples } = ctx.take_errors();
    assert_eq!(count, (ERROR_LOG_CAP + 5) as u64);
    assert_eq!(samples.len(), ERROR_LOG_CAP);
    assert_eq!(samples[0], "e0");
    assert_eq!(samples[ERROR_LOG_CAP - 1], format!("e{}", ERROR_LOG_CAP - 1));
    let again = ctx.take_errors();
    assert_eq!(again.count, 0);
    assert!(again.samples.is_empty());
}

#[test]
fn scan_ctx_counts_and_throttles() {
    let mut ctx = ScanCtx::new(1_000);
    ctx.count_dir(3);
    ctx.count_dir(2);
    assert_eq!(ctx.scanned_files, 5);
    assert_eq!(ctx.scanned_folders, 2);
    assert!(ctx.report(1_000 + 149_999_999, "d".to_string()).is_none());
    let p = ctx.report(1_000 + 150_000_000, "here".to_string()).unwrap();
    assert_eq!(p.scanned_files, 5);
    assert_eq!(p.scanned_folders, 2);
    assert_eq!(p.current_dir, "here");
    assert!(ctx.report(1_000 + 150_000_001, "x".to_string()).is_none());
    assert!(ctx.report(500, "earlier clock".to_string()).is_none());
    ctx.scanned_files = u64::MAX;
    ctx.count_dir(2);
    assert_eq!(ctx.scanned_files, 1);
}

#[test]
fn allocated_estimate_rounds_to_clusters() {
    assert_eq!(allocated_estimate(1, 4096), 4096);
    assert_eq!(allocated_estimate(4096, 4096), 4096);
    assert_eq!(allocated_estimate(4097, 4096), 8192);
    assert_eq!(allocated_estimate(0, 4096), 0);
    assert_eq!(allocated_estimate(123, 0), 123);
}

#[test]
fn aggregate_dir_sums_and_orders() {
    let files = vec![file_node("x".to_string(), 10, 4096, 5), file_node("y".to_string(), 30, 4096, 6)];
    let subdirs = vec![aggregate_dir("s".to_string(), 1, vec![file_node("z".to_string(), 20, 8192, 0)], vec![])];
    assert!(dir_sums_fit(&files, &subdirs));
    let d = aggregate_dir("top".to_string(), 9, files, subdirs);
    assert_eq!(d.size, 60);
    assert_eq!(d.allocated_size, 16384);
    assert_eq!(d.size_self, 40);
    assert_eq!(d.allocated_self, 8192);
    assert_eq!(d.file_count, 3);
    assert_eq!(d.folder_count, 1);
    assert_eq!(d.last_modified, 9);
    let names: Vec<&str> = d.children.iter().map(|c| c.name.as_str()).collect();
    assert_eq!(names, vec!["y", "s", "x"]);
    assert!(!dir_sums_fit(&vec![file_node("a".to_string(), u64::MAX, 0, 0)], &vec![file_node("b".to_string(), 1, 0, 0)]));
}

#[test]
fn walk_entry_decisions() {
    assert_eq!(entry_action(true, true), EntryAction::Skip);
    assert_eq!(entry_action(true, false), EntryAction::Skip);
    assert_eq!(entry_action(false, true), EntryAction::Descend);
    assert_eq!(entry_action(false, false), EntryAction::Count);
    assert_eq!(walked_name(true, "/data/x".to_string(), Some("x".to_string())), "/data/x");
    assert_eq!(walked_name(false, "/data/x".to_string(), Some("x".to_string())), "x");
    assert_eq!(walked_name(false, "/".to_string(), None), "");
}

#[test]
fn small_scan_decisions() {
    assert_eq!(worker_count(Some(3), Some(8)), 3);
    assert_eq!(worker_count(Some(0), Some(8)), 8);
    assert_eq!(worker_count(None, None), 4);
    assert!(parse_top_n_mode(Some("percent")) == TopNMode::Percent);
    assert!(parse_top_n_mode(Some("count")) == TopNMode::Count);
    assert!(parse_top_n_mode(None) == TopNMode::Count);
    assert_eq!(unix_file_sizes(1000, 8), (1000, 4096));
    assert_eq!(unix_file_sizes(1000, 0), (1000, 1000));
    assert_eq!(unix_file_sizes(5, u64::MAX), (5, u64::MAX));
    assert_eq!(windows_file_sizes(-5, 4096), (0, 4096));
    assert_eq!(unix_seconds(Some(1_700_000_000)), 1_700_000_000);
    assert_eq!(unix_seconds(Some(u64::MAX)), -1);
    assert_eq!(unix_seconds(None), 0);
    let mut s = String::from("n=");
    push_decimal(&mut s, 10203);
    assert_eq!(s, "n=10203");
}

#[test]
fn assemble_scan_result_reports_totals() {
    let full = sample_tree();
    let vol = Some(volume_info(10, 20, 4096, "ext4".to_string()));
    let errors = ScanErrors { count: 2, samples: vec!["x".to_string()] };
    let r = assemble_scan_result(&full, "parallel".to_string(), 12, &vol, errors, 1, 100, TopNMode::Count, false);
    assert_eq!(r.total_size, 1000);
    assert_eq!(r.total_files, 7);
    assert_eq!(r.total_folders, 5);
    assert_eq!(r.free_bytes, 40960);
    assert_eq!(r.total_bytes, 81920);
    assert_eq!(r.fs_type, "ext4");
    assert_eq!(r.cluster_size, 4096);
    assert_eq!(r.errors.count, 2);
    assert_eq!(r.strategy_used, "parallel");
    assert_eq!(r.root.children.len(), full.children.len());
    let bare = assemble_scan_result(&full, "parallel".to_string(), 0, &None, ScanErrors { count: 0, samples: vec![] }, 0, 1, TopNMode::Count, false);
    assert_eq!(bare.fs_type, "");
    assert_eq!(bare.cluster_size, 0);
    assert!(bare.root.truncated);
}

#[test]
fn paths_and_scan_targets() {
    assert_eq!(normalize_drive_path("C:"), "C:\\");
    assert_eq!(normalize_drive_path("  C:  "), "C:\\");
    assert_eq!(normalize_drive_path("D:\\foo"), "D:\\foo");
    assert_eq!(normalize_drive_path("/home"), "/home");
    assert_eq!(volume_root_for("C:\\foo\\bar", true), "C:\\");
    assert_eq!(volume_root_for("/home/x", false), "/home/x");
    assert_eq!(volume_root_for("relative", true), "relative");
    assert!(is_linux_pseudo_fs("/proc"));
    assert!(is_linux_pseudo_fs("/proc/123/maps"));
    assert!(is_linux_pseudo_fs("//sys/"));
    assert!(!is_linux_pseudo_fs("/procfs"));
    assert!(!is_linux_pseudo_fs("/home"));
    match check_scan_target("X:", "X:\\", false, true) {
        Err(ScannerError::Msg(m)) => assert_eq!(m, "path does not exist: X:"),
        _ => panic!("missing path must be refused"),
    }
    match check_scan_target("/proc/1", "/proc/1", true, true) {
        Err(ScannerError::Msg(m)) => assert_eq!(m, "refusing to scan pseudo filesystem: /proc/1"),
        _ => panic!("pseudo filesystem must be refused"),
    }
    assert!(check_scan_target("/proc/1", "/proc/1", true, false).is_ok());
    assert!(check_scan_target("/home", "/home", true, true).is_ok());
    let from: ScannerError = ScannerError::from("boom".to_string());
    assert!(matches!(from, ScannerError::Msg(ref m) if m == "boom"));
}

#[test]
fn volume_facts() {
    let v = volume_info(3, 7, 0, "xfs".to_string());
    assert_eq!((v.free_bytes, v.total_bytes, v.cluster_size), (3, 7, 1));
    let v = volume_info(u64::MAX, 2, 1 << 40, String::new());
    assert_eq!(v.free_bytes, u64::MAX);
    assert_eq!(v.total_bytes, 2 << 40);
    assert_eq!(v.cluster_size, u32::MAX);
    assert_eq!(cluster_size(&Some(v)), u32::MAX);
    assert_eq!(cluster_size(&None), 0);
    assert_eq!(cluster_from_geometry(8, 512), 4096);
    assert_eq!(cluster_from_geometry(1 << 16, 1 << 16), 0);
    assert_eq!(volume_path("C:"), "C:\\");
    assert_eq!(volume_path("C:\\"), "C:\\");
    let name: Vec<u16> = "NTFS\0\0".encode_utf16().collect();
    let w = windows_volume_info(1, 2, Some((8, 512)), Some(&name));
    assert_eq!((w.free_bytes, w.total_bytes, w.cluster_size), (1, 2, 4096));
    assert_eq!(w.fs_type, "NTFS");
    let w = windows_volume_info(1, 2, None, None);
    assert_eq!(w.cluster_size, 0);
    assert_eq!(w.fs_type, "");
}

const MOUNTS: &str = "sysfs /sys sysfs rw 0 0\n\
/dev/sda2 / ext4 rw 0 0\n\
/dev/sda1 /boot/efi vfat rw 0 0\n\
/dev/sdb1 /media/u/MY\\040DISK vfat rw 0 0\n\
/dev/loop0 /snap/core/1 squashfs ro 0 0\n\
server:/x /mnt/nfs nfs4 rw 0 0\n\
/dev/sda2 / ext4 rw 0 0\n\
/dev/fuse /run/user/1000/doc fuse.portal rw 0 0\n";

#[test]
fn enumerate_drives_on_a_sample_table() {
    assert!(mount_table_fits(MOUNTS, true));
    let drives = enumerate_drives(MOUNTS);
    let listed: Vec<(String, String)> = drives.iter().map(|d| (d.letter.clone(), d.kind.clone())).collect();
    assert_eq!(
        listed,
        vec![
            ("/".to_string(), "ext4".to_string()),
            ("/media/u/MY DISK".to_string(), "vfat".to_string()),
            ("/mnt/nfs".to_string(), "nfs4".to_string()),
        ]
    );
    assert!(drives.iter().all(|d| d.label.is_empty()));
    let none = enumerate_drives("proc /proc proc rw 0 0\n");
    assert_eq!(none.len(), 1);
    assert_eq!(none[0].letter, "/");
    assert_eq!(none[0].kind, "本地磁盘");
}

#[test]
fn fs_type_prefers_deepest_mount() {
    assert_eq!(fs_type_for_path("/media/u/MY DISK/x", MOUNTS), "vfat");
    assert_eq!(fs_type_for_path("/home/u", MOUNTS), "ext4");
    assert_eq!(fs_type_for_path("relative", MOUNTS), "");
}

#[test]
fn mount_escape_limits() {
    assert!(escapes_fit_bytes(b"a\\377b"));
    assert!(!escapes_fit_bytes(b"a\\400b"));
    assert!(escapes_fit_bytes(b"\\40"));
    assert!(!mount_table_fits("/dev/x /a\\777 ext4 rw 0 0\n", false));
    assert!(mount_table_fits("/dev/\\777 /a ext4 rw 0 0\n", false));
    assert!(!mount_table_fits("/dev/\\777 /a ext4 rw 0 0\n", true));
}

fn entry(frn: u64, parent: u64, name: &str, is_dir: bool, size: u64) -> FlatEntry {
    FlatEntry { frn, parent_frn: parent, name: name.to_string(), is_dir, size, allocated_size: size * 2 }
}

#[test]
fn build_tree_aggregates_records() {
    let entries = vec![
        entry(10, 5, "docs", true, 0),
        entry(11, 10, "a.txt", false, 100),
        entry(12, 10, "b.txt", false, 300),
        entry(5, 5, "C:", true, 0),
        entry(13, 5, "tmp", true, 0),
        entry(14, 13, "c.bin", false, 50),
        entry(15, 10, "sub", true, 0),
    ];
    let t = build_tree(entries).unwrap();
    assert_eq!(t.name, "C:");
    assert_eq!(t.size, 450);
    assert_eq!(t.allocated_size, 900);
    assert_eq!(t.file_count, 3);
    // docs, tmp and sub; the root's link to itself is no folder below it
    assert_eq!(t.folder_count, 3);
    assert_eq!(t.size_self, 0);
    let names: Vec<&str> = t.children.iter().map(|c| c.name.as_str()).collect();
    assert_eq!(names, vec!["docs", "tmp"]);
    let docs = &t.children[0];
    assert_eq!(docs.size, 400);
    assert_eq!(docs.size_self, 400);
    assert_eq!(docs.allocated_self, 800);
    assert_eq!(docs.folder_count, 1);
    let inner: Vec<&str> = docs.children.iter().map(|c| c.name.as_str()).collect();
    assert_eq!(inner, vec!["b.txt", "a.txt", "sub"]);
    assert_eq!(docs.children[0].size_self, 300);
}

#[test]
fn build_tree_finds_roots_and_fails() {
    // no parent 0 or self link: the record whose parent is missing is the root
    let entries = vec![entry(2, 1, "top", true, 0), entry(3, 2, "f", false, 7)];
    let t = build_tree(entries).unwrap();
    assert_eq!(t.name, "top");
    assert_eq!(t.size, 7);
    // every parent present and no self link: no root
    let ring = vec![entry(1, 2, "x", true, 0), entry(2, 1, "y", true, 0)];
    assert!(build_tree(ring).is_none());
    assert!(build_tree(vec![]).is_none());
    // a self-parented root with one sub-folder counts one folder
    let pair = build_tree(vec![entry(5, 5, "C:", true, 0), entry(6, 5, "d", true, 0)]).unwrap();
    assert_eq!(pair.folder_count, 1);
    assert_eq!(pair.children.len(), 1);
    // a file record at the root keeps its own sizes
    let single = build_tree(vec![entry(9, 0, "lone", false, 12)]).unwrap();
    assert_eq!((single.size, single.allocated_size, single.file_count, single.folder_count), (12, 24, 1, 0));
    // totals that do not fit are refused by the checked build
    let big = vec![entry(1, 0, "r", true, 0), entry(2, 1, "x", false, u64::MAX), entry(3, 1, "y", false, 1)];
    assert!(build_tree_checked(big).is_none());
}

#[test]
fn build_tree_walks_deep_chains() {
    // a chain of nested folders far deeper than any real volume, with one file at the bottom
    let levels: u64 = 5000;
    let mut entries = vec![entry(1, 1, "root", true, 0)];
    for k in 2..=levels {
        entries.push(entry(k, k - 1, "d", true, 0));
    }
    entries.push(entry(levels + 1, levels, "leaf", false, 3));
    let t = build_tree_checked(entries).unwrap();
    assert_eq!(t.size, 3);
    assert_eq!(t.file_count, 1);
    assert_eq!(t.folder_count, (levels - 1) as u32);
    let mut cur = &t;
    let mut seen: u64 = 1;
    while let Some(c) = cur.children.first() {
        assert_eq!(c.size, 3);
        cur = c;
        seen += 1;
    }
    assert_eq!(seen, levels + 1);
    assert_eq!(cur.name, "leaf");
    // dropping the nested nodes would recurse once per level
    std::mem::forget(t);
}

#[test]
fn build_tree_keeps_one_node_per_number() {
    // two records share a reference number: the last one stands for it, and it is walked once
    let entries = vec![entry(1, 0, "r", true, 0), entry(2, 1, "a", false, 4), entry(2, 1, "b", false, 6)];
    let t = build_tree_checked(entries).unwrap();
    assert_eq!(t.size, 6);
    assert_eq!(t.file_count, 1);
    let names: Vec<&str> = t.children.iter().map(|c| c.name.as_str()).collect();
    assert_eq!(names, vec!["b"]);
    // two directory records numbered 2 under the root give one child
    let dirs = vec![entry(1, 1, "root", true, 0), entry(2, 1, "x", true, 0), entry(2, 1, "y", true, 0), entry(3, 2, "f", false, 5)];
    let d = build_tree_checked(dirs).unwrap();
    assert_eq!(d.children.len(), 1);
    assert_eq!(d.children[0].name, "y");
    assert_eq!((d.size, d.file_count, d.folder_count), (5, 1, 1));
    // a number listed under two parents hangs below the one the walk reaches first (the last listed)
    let shared = vec![
        entry(1, 0, "root", true, 0),
        entry(2, 1, "p", true, 0),
        entry(3, 1, "q", true, 0),
        entry(4, 2, "f", false, 7),
        entry(4, 3, "f", false, 7),
    ];
    let s = build_tree_checked(shared).unwrap();
    assert_eq!((s.size, s.file_count, s.folder_count), (7, 1, 2));
    let q = s.children.iter().find(|c| c.name == "q").unwrap();
    let p = s.children.iter().find(|c| c.name == "p").unwrap();
    assert_eq!((q.size, p.size), (7, 0));
}

fn same_tree(a: &TreeNode, b: &TreeNode) -> bool {
    a.name == b.name
        && (a.size, a.allocated_size, a.size_self, a.allocated_self) == (b.size, b.allocated_size, b.size_self, b.allocated_self)
        && (a.file_count, a.folder_count, a.last_modified, a.truncated) == (b.file_count, b.folder_count, b.last_modified, b.truncated)
        && a.children.len() == b.children.len()
        && a.children.iter().zip(b.children.iter()).all(|(x, y)| same_tree(x, y))
}

#[test]
fn aggregate_dir_ignores_input_order() {
    let mk_files = |order: &[usize]| -> Vec<TreeNode> {
        let all = [("x", 10u64), ("y", 30), ("w", 5)];
        order.iter().map(|&i| file_node(all[i].0.to_string(), all[i].1, 4096, 0)).collect()
    };
    let mk_dirs = |order: &[usize]| -> Vec<TreeNode> {
        let all = [("s", 20u64), ("t", 7)];
        order
            .iter()
            .map(|&i| aggregate_dir(all[i].0.to_string(), 0, vec![file_node("f".to_string(), all[i].1, 0, 0)], vec![]))
            .collect()
    };
    let a = aggregate_dir("top".to_string(), 1, mk_files(&[0, 1, 2]), mk_dirs(&[0, 1]));
    let b = aggregate_dir("top".to_string(), 1, mk_files(&[2, 0, 1]), mk_dirs(&[1, 0]));
    assert!(same_tree(&a, &b));
    let names: Vec<&str> = a.children.iter().map(|c| c.name.as_str()).collect();
    assert_eq!(names, vec!["y", "s", "x", "t", "w"]);
    assert_eq!((a.size, a.file_count, a.folder_count), (72, 5, 2));
}

fn le(v: u64, n: usize) -> Vec<u8> {
    v.to_le_bytes()[..n].to_vec()
}

fn record(frn: u64, parent: u64, attrs: u32, name: &str, major: u16) -> Vec<u8> {
    let units: Vec<u8> = name.encode_utf16().flat_map(|u| u.to_le_bytes()).collect();
    let len = 60 + units.len();
    let padded = (len + 7) / 8 * 8;
    let mut r = Vec::new();
    r.extend(le(padded as u64, 4));
    r.extend(le(major as u64, 2));
    r.extend(le(0, 2));
    r.extend(le(frn, 8));
    r.extend(le(parent, 8));
    r.extend(vec![0u8; 52 - 24]);
    r.extend(le(attrs as u64, 4));
    r.extend(le(units.len() as u64, 2));
    r.extend(le(60, 2));
    r.extend(units);
    r.resize(padded, 0);
    r
}

#[test]
fn parse_usn_pages() {
    let mut buf = le(0x1234, 8);
    buf.extend(record(100, 5, 0x10, "dir", 2));
    buf.extend(record(101, 100, 0x20, "a.txt", 2));
    buf.extend(record(102, 100, 0x20, "skip", 3));
    buf.extend(record(103, 100, 0x20, "é", 2));
    let bytes = buf.len();
    buf.extend(vec![0u8; 64]);
    assert!(usn_page_readable(&buf, bytes));
    let page = parse_usn_buffer(&buf, bytes);
    assert_eq!(page.next_start, 0x1234);
    assert_eq!(page.files, 2);
    assert_eq!(page.folders, 1);
    let names: Vec<&str> = page.entries.iter().map(|e| e.name.as_str()).collect();
    assert_eq!(names, vec!["dir", "a.txt", "é"]);
    assert!(page.entries[0].is_dir);
    assert_eq!(page.entries[1].frn, 101);
    assert_eq!(page.entries[1].parent_frn, 100);
    assert_eq!(page.entries[1].size, 0);
    // a record length running past the page ends the walk
    let short = parse_usn_buffer(&buf, bytes - 1);
    assert_eq!(short.entries.len(), 2);
    // a version-2 record whose fixed fields would run past the buffer
    let mut tiny = le(0, 8);
    tiny.extend(le(8, 4));
    tiny.extend(le(2, 2));
    tiny.extend(le(0, 2));
    let n = tiny.len();
    assert!(!usn_page_readable(&tiny, n));
}

#[test]
fn utf16_units_little_endian() {
    assert_eq!(from_utf16(&[0x41, 0x00, 0x00, 0x4e, 0x07]), vec![0x0041u16, 0x4e00]);
    assert!(from_utf16(&[]).is_empty());
}

#[test]
fn paths_rebuilt_from_links() {
    let entries = vec![
        entry(5, 5, "", true, 0),
        entry(10, 5, "Users", true, 0),
        entry(11, 10, "me", true, 0),
        entry(12, 11, "notes.txt", false, 1),
        entry(20, 99, "orphan.txt", false, 1),
        entry(30, 0, "top.txt", false, 1),
    ];
    let (names, parents) = record_links(&entries);
    assert_eq!(names.len(), 6);
    assert_eq!(reconstruct_path(12, &names, &parents, "C:\\"), Some("C:\\\\Users\\me\\notes.txt".to_string()));
    assert_eq!(reconstruct_path(20, &names, &parents, "C:\\"), Some("C:\\orphan.txt".to_string()));
    assert_eq!(reconstruct_path(30, &names, &parents, "D:\\"), Some("D:\\top.txt".to_string()));
    assert_eq!(reconstruct_path(77, &names, &parents, "C:\\"), None);
}

#[test]
fn ntfs_and_volume_paths() {
    let mut ntfs: Vec<u16> = "ntfs".encode_utf16().collect();
    ntfs.resize(32, 0);
    assert!(is_ntfs_name(&ntfs));
    let fat: Vec<u16> = "FAT32\0\0".encode_utf16().collect();
    assert!(!is_ntfs_name(&fat));
    assert!(!is_ntfs_name(&[]));
    assert_eq!(usn_drive("D:\\data"), "D:");
    assert_eq!(usn_drive("relative"), "C:");
    assert_eq!(usn_volume_path("C:"), "\\\\.\\C:");
}

#[test]
fn windows_drive_listing() {
    let list: Vec<u16> = "C:\\\0 D:\\ \0\0".encode_utf16().collect();
    assert_eq!(drive_roots(&list), vec!["C:\\".to_string(), "D:\\".to_string()]);
    assert!(drive_roots(&[]).is_empty());
    assert_eq!(drive_letter("C:\\"), "C:");
    assert_eq!(drive_kind_label(3), "本地磁盘");
    assert_eq!(drive_kind_label(2), "可移动磁盘");
    assert_eq!(drive_kind_label(5), "光驱");
    assert_eq!(drive_kind_label(4), "网络驱动器");
    assert_eq!(drive_kind_label(6), "RAM 磁盘");
    assert_eq!(drive_kind_label(0), "未知类型");
    let label: Vec<u16> = "System\0\0\0".encode_utf16().collect();
    assert_eq!(volume_label(&label), "System");
    let info = windows_drive_info("E:\\", 2, Some(&label));
    assert_eq!((info.letter.as_str(), info.label.as_str(), info.kind.as_str()), ("E:", "System", "可移动磁盘"));
    let info = windows_drive_info("F:\\", 9, None);
    assert_eq!((info.letter.as_str(), info.label.as_str(), info.kind.as_str()), ("F:", "", "未知类型"));
}
