//! Tests of the tree operations on hand-built trees and of the drive listing
//! on the machine's own mount table.

use disk_lens::export::{build_export_node, count_export_nodes, join_path};
use disk_lens::models::{ScannerError, TreeNode};
use disk_lens::mounts::{enumerate_drives, mount_table_fits, unescape_mount_field};
use disk_lens::navigate::find_child;
use disk_lens::paths::{check_scan_target, normalize_drive_path};
use disk_lens::prune::{prune, TopNMode};

fn node(name: &str, size: u64, files: u32, folders: u32, children: Vec<TreeNode>) -> TreeNode {
    TreeNode {
        name: name.to_string(),
        size,
        allocated_size: size,
        size_self: 0,
        allocated_self: 0,
        file_count: files,
        folder_count: folders,
        last_modified: 0,
        children,
        truncated: false,
    }
}

fn dir(name: &str, size: u64, children: Vec<TreeNode>) -> TreeNode {
    let n = children.len() as u32;
    node(name, size, 0, n, children)
}

/// A mount table as a desktop Linux machine lists it in `/proc/mounts`.
const MACHINE_MOUNTS: &str = "sysfs /sys sysfs rw,nosuid,nodev,noexec,relatime 0 0\n\
proc /proc proc rw,nosuid,nodev,noexec,relatime 0 0\n\
udev /dev devtmpfs rw,nosuid,relatime,size=8012345k 0 0\n\
tmpfs /run tmpfs rw,nosuid,nodev,noexec,relatime,size=1612345k,mode=755 0 0\n\
/dev/nvme0n1p2 / ext4 rw,relatime,errors=remount-ro 0 0\n\
/dev/loop0 /snap/core22/1380 squashfs ro,nodev,relatime 0 0\n\
/dev/nvme0n1p1 /boot/efi vfat rw,relatime,fmask=0077,dmask=0077 0 0\n\
/dev/nvme0n1p3 /home ext4 rw,relatime 0 0\n\
tmpfs /run/user/1000 tmpfs rw,nosuid,nodev,relatime,size=1612345k,mode=700 0 0\n\
portal /run/user/1000/doc fuse.portal rw,nosuid,nodev,relatime 0 0\n\
/dev/fuse /tmp/.mount_app fuse rw,nosuid,nodev,relatime 0 0\n\
/dev/sdb1 /media/caoyy/UBUNTU\\04024_0 vfat rw,nosuid,nodev,relatime 0 0\n";

fn machine_drives() -> Vec<disk_lens::models::DriveInfo> {
    assert!(mount_table_fits(MACHINE_MOUNTS, true), "mount table escapes out of range");
    enumerate_drives(MACHINE_MOUNTS)
}

#[test]
fn prune_count_keeps_top_n_and_aggregates() {
    let root = dir(
        "root",
        300,
        vec![
            dir("a", 100, vec![]),
            dir("b", 80, vec![]),
            dir("c", 60, vec![]),
            dir("d", 40, vec![]),
            dir("e", 20, vec![]),
        ],
    );
    let out = prune(&root, 4, 2, TopNMode::Count, false);
    assert_eq!(out.children.len(), 3, "保留 2 个 + 1 个聚合");
    for w in out.children.windows(2) {
        assert!(w[0].size >= w[1].size, "子节点应按 size 降序排列");
    }
    let names: Vec<&str> = out.children.iter().map(|c| c.name.as_str()).collect();
    assert!(names.contains(&"a"), "a 应被保留, 实际: {names:?}");
    assert!(names.contains(&"b"), "b 应被保留, 实际: {names:?}");
    let agg = out
        .children
        .iter()
        .find(|c| c.name.starts_with("(其他"))
        .expect("剩余应聚合成 (其他 N 项)");
    assert_eq!(agg.size, 120, "聚合项应汇总剩余 60+40+20");
    assert!(out.truncated, "有折叠应标 truncated");
    assert!(agg.children.is_empty());
}

#[test]
fn prune_percent_covers_threshold() {
    let root = dir(
        "root",
        300,
        vec![
            dir("a", 100, vec![]),
            dir("b", 80, vec![]),
            dir("c", 60, vec![]),
            dir("d", 40, vec![]),
            dir("e", 20, vec![]),
        ],
    );
    let out = prune(&root, 4, 90, TopNMode::Percent, false);
    assert_eq!(out.children.len(), 5);
    let agg = out.children.last().unwrap();
    assert!(agg.name.starts_with("(其他"), "剩余应聚合");
    assert_eq!(agg.size, 20, "percent 模式只聚合掉最后 20（覆盖率 99%）");
    assert!(out.truncated);
}

#[test]
fn prune_merge_files_folds_loose_files() {
    let root = node(
        "root",
        130,
        3,
        1,
        vec![
            dir("sub", 100, vec![]),
            node("f1", 10, 1, 0, vec![]),
            node("f2", 10, 1, 0, vec![]),
            node("f3", 10, 1, 0, vec![]),
        ],
    );
    let out = prune(&root, 4, 100, TopNMode::Count, true);
    assert_eq!(out.children.len(), 2, "应折叠为 目录 + 文件聚合");
    let file_node = out.children.iter().find(|c| c.name.starts_with("(")).unwrap();
    assert_eq!(file_node.file_count, 3, "文件聚合应汇总 3 个文件");
    assert_eq!(file_node.folder_count, 0, "文件聚合不可下钻");
    assert!(file_node.children.is_empty());
    assert!(out.truncated, "merge_files 后 truncated=true");
}

#[test]
fn prune_depth_zero_collapses() {
    let root = dir("root", 10, vec![dir("a", 5, vec![dir("b", 2, vec![])])]);
    let out = prune(&root, 0, 100, TopNMode::Count, false);
    assert!(out.children.is_empty(), "depth=0 应无 children");
    assert!(out.truncated, "原含子节点，depth=0 应标 truncated");
}

#[test]
fn find_child_case_insensitive() {
    let root = dir("root", 1, vec![dir("Windows", 1, vec![]), dir("System32", 1, vec![])]);
    assert!(find_child(&root.children, "Windows").is_some());
    assert!(find_child(&root.children, "windows").is_some(), "小写应匹配");
    assert!(find_child(&root.children, "WINDOWS").is_some(), "大写应匹配");
    assert!(find_child(&root.children, "Missing").is_none());
}

#[test]
fn get_node_navigation_returns_subtree() {
    let root = dir(
        "root",
        180,
        vec![
            dir("A", 100, vec![dir("B", 50, vec![]), dir("A2", 30, vec![])]),
            dir("C", 30, vec![]),
        ],
    );
    let mut cur = &root;
    cur = find_child(&cur.children, "A").expect("A 应存在");
    cur = find_child(&cur.children, "B").expect("B 应存在");
    let sub = prune(cur, 2, 100, TopNMode::Count, false);
    assert_eq!(sub.name, "B");
    assert_eq!(sub.size, 50);
}

#[test]
fn get_node_unknown_name_is_none() {
    let root = dir("root", 1, vec![dir("A", 1, vec![])]);
    let cur = find_child(&root.children, "A").expect("A 存在");
    assert!(
        find_child(&cur.children, "Z").is_none(),
        "get_node 对不存在的名字应返回 None（命令层转成 Err 带提示）"
    );
}

#[test]
fn enumerate_drives_returns_real_drives() {
    let drives = machine_drives();
    assert!(!drives.is_empty(), "本机至少应有一个盘符/挂载点, 实际为空");
    assert!(
        drives.iter().any(|d| d.letter == "/"),
        "根挂载点 / 应存在, 实际: {:?}",
        drives.iter().map(|d| d.letter.clone()).collect::<Vec<_>>()
    );
    for d in &drives {
        assert!(d.letter.starts_with('/'), "挂载点应以 / 开头: {}", d.letter);
        assert!(!d.kind.is_empty(), "文件系统类型不应为空: {}", d.letter);
    }
}

#[test]
fn unescape_mount_field_decodes_octal_escapes() {
    assert_eq!(
        unescape_mount_field("/media/caoyy/UBUNTU\\04024_0"),
        "/media/caoyy/UBUNTU 24_0"
    );
    assert_eq!(unescape_mount_field("a\\011b"), "a\tb");
    assert_eq!(unescape_mount_field("back\\134slash"), "back\\slash");
    assert_eq!(unescape_mount_field("plain"), "plain");
    assert_eq!(unescape_mount_field("\\040"), " ");
}

#[test]
fn enumerate_drives_unix_filters_noise_and_unescapes() {
    let drives = machine_drives();
    assert!(
        !drives.iter().any(|d| d.letter == "/boot/efi"),
        "不应出现 /boot/efi: {:?}",
        drives.iter().map(|d| d.letter.clone()).collect::<Vec<_>>()
    );
    assert!(
        !drives.iter().any(|d| d.letter.starts_with("/tmp/") || d.kind.starts_with("fuse")),
        "不应出现 /tmp/ 或 fuse 挂载: {:?}",
        drives.iter().map(|d| format!("{} ({})", d.letter, d.kind)).collect::<Vec<_>>()
    );
    for d in &drives {
        assert!(
            !d.letter.contains("\\040") && !d.letter.contains('\\'),
            "挂载点不应含未解码的转义: {}",
            d.letter
        );
    }
}

#[test]
fn join_path_platform_style() {
    if std::path::MAIN_SEPARATOR == '\\' {
        assert_eq!(join_path("", "C:"), "C:");
        assert_eq!(join_path("C:", "Users"), "C:\\Users");
        assert_eq!(join_path("C:\\Users", "index"), "C:\\Users\\index");
        assert_eq!(join_path("C:\\Users\\", "index"), "C:\\Users\\index");
    } else {
        assert_eq!(join_path("", "/"), "/");
        assert_eq!(join_path("/", "home"), "/home");
        assert_eq!(join_path("/home", "caoyy"), "/home/caoyy");
        assert_eq!(join_path("/home/", "caoyy"), "/home/caoyy");
    }
}

fn pct(x100: u128) -> f64 {
    x100 as f64 / 100.0
}

#[test]
fn export_full_keeps_all_nodes_with_paths() {
    let big_file = node("big.bin", 800, 1, 0, vec![]);
    let small_file = node("small.txt", 10, 1, 0, vec![]);
    let dir_a = dir("dirA", 810, vec![big_file, small_file]);
    let dir_b = dir("dirB", 50, vec![]);
    let root = dir("C:", 860, vec![dir_a, dir_b]);

    let export = build_export_node(&root, "", 0, 0);
    assert_eq!(export.children.len(), 2, "全量导出应保留全部子节点");
    let a = &export.children[0];
    assert_eq!(a.children.len(), 2, "dirA 的两个文件都应保留");
    assert!(a.children.iter().any(|f| f.name == "big.bin" && !f.is_dir));
    assert!(a.children.iter().any(|f| f.name == "small.txt" && !f.is_dir));

    assert_eq!(export.path, "C:", "根 path 应等于根名");
    assert!(a.path.contains("dirA"), "dirA path: {}", a.path);
    assert!(a.path.ends_with("dirA"), "dirA path 应以 dirA 结尾: {}", a.path);

    assert_eq!(pct(export.pct_of_parent_x100), 100.0);
    assert!((pct(a.pct_of_parent_x100) - (810.0 / 860.0 * 100.0)).abs() < 0.01);
}

#[test]
fn export_filter_keeps_large_only() {
    let big_file = node("big.bin", 80, 1, 0, vec![]);
    let small_file = node("small.txt", 10, 1, 0, vec![]);
    let dir_a = dir("dirA", 90, vec![big_file, small_file]);
    let dir_b = dir("dirB", 50, vec![]);
    let root = dir("C:", 140, vec![dir_a, dir_b]);

    let export = build_export_node(&root, "", 0, 60);
    assert_eq!(export.children.len(), 1, "只应保留 dirA");
    assert_eq!(export.children[0].name, "dirA");
    assert_eq!(export.children[0].children.len(), 1);
    assert_eq!(export.children[0].children[0].name, "big.bin");
    assert!(
        export.children[0].children[0].path.contains("dirA"),
        "big.bin path: {}",
        export.children[0].children[0].path
    );
    assert!(export.children[0].children[0].path.ends_with("big.bin"));
    let pct = pct(export.children[0].children[0].pct_of_parent_x100);
    assert!((pct - 80.0 / 90.0 * 100.0).abs() < 0.01, "pct={pct}");
}

#[test]
fn export_summary_counts() {
    let f1 = node("f1", 1, 1, 0, vec![]);
    let f2 = node("f2", 1, 1, 0, vec![]);
    let sub = dir("sub", 2, vec![f1]);
    let root = dir("root", 4, vec![sub, f2]);
    let export = build_export_node(&root, "", 0, 0);
    let (nodes, dirs, files) = count_export_nodes(&export);
    assert_eq!(nodes, 4, "root+sub+f1+f2");
    assert_eq!(dirs, 2, "root+sub");
    assert_eq!(files, 2, "f1+f2");
}

#[test]
fn prune_keeps_files_when_merge_false() {
    let root = node(
        "root",
        130,
        2,
        1,
        vec![
            dir("sub", 100, vec![]),
            node("f1", 10, 1, 0, vec![]),
            node("f2", 20, 1, 0, vec![]),
        ],
    );
    let out = prune(&root, 4, 100, TopNMode::Count, false);
    assert_eq!(out.children.len(), 3, "应保留 1 目录 + 2 个散文件");
    let files: Vec<&TreeNode> = out.children.iter().filter(|c| c.file_count == 1).collect();
    assert_eq!(files.len(), 2, "merge_files=false 时散文件应逐项保留");
    assert!(!out.truncated, "无折叠时不应标 truncated");
}

#[test]
fn scan_missing_path_errors() {
    let cases = [("C:\\__tree_scan_test_nonexistent_xyz_123", false), ("/__tree_scan_test_nonexistent_xyz_123", true)];
    for (missing, linux) in cases {
        let normalized = normalize_drive_path(missing);
        let exists = std::path::Path::new(&normalized).exists();
        match check_scan_target(missing, &normalized, exists, linux) {
            Err(ScannerError::Msg(m)) => assert!(m.contains("does not exist"), "应报路径不存在，实际: {m}"),
            _ => panic!("缺失路径应返回 Err"),
        }
    }
}
