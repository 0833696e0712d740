//! Volume facts for the status bar and for rounding file sizes to clusters.

use vstd::prelude::*;
use crate::text::{utf16_lossy, trim_end_char};
use crate::windrive::volume_label;

verus! {

/// `a * b`, or `u64::MAX` when the product does not fit.
pub fn saturating_mul(a: u64, b: u64) -> (r: u64)
    ensures
        r == (if a * b <= u64::MAX { a * b } else { u64::MAX as int }),
{
    if a == 0 || b <= u64::MAX / a {
        assert(a * b <= u64::MAX) by (nonlinear_arith)
            requires
                a == 0 || b <= u64::MAX / a,
        ;
        a * b
    } else {
        assert(a * b > u64::MAX) by (nonlinear_arith)
            requires
                a > 0,
                b > u64::MAX / a,
        ;
        u64::MAX
    }
}

/// Snapshot of volume properties.
pub struct VolumeInfo {
    /// Bytes available to the caller (about the free space of the volume).
    pub free_bytes: u64,
    /// Capacity of the volume in bytes.
    pub total_bytes: u64,
    /// Filesystem name such as "NTFS" or "ext4"; empty when unknown.
    pub fs_type: String,
    /// Bytes per allocation unit (cluster); 0 when unknown.
    pub cluster_size: u32,
}

/// `min(a * b, u64::MAX)`.
pub open spec fn sat_mul(a: u64, b: u64) -> u64 {
    if a * b <= u64::MAX { (a * b) as u64 } else { u64::MAX }
}

/// Volume facts from a `statvfs` result: `f_bavail` free and `f_blocks` total
/// blocks of `f_frsize` bytes (at least 1), products saturating; the cluster
/// size is the block size, capped at `u32::MAX`.
pub fn volume_info(f_bavail: u64, f_blocks: u64, f_frsize: u64, fs_type: String) -> (r: VolumeInfo)
    ensures
        r.free_bytes == sat_mul(f_bavail, if f_frsize >= 1 { f_frsize } else { 1 }),
        r.total_bytes == sat_mul(f_blocks, if f_frsize >= 1 { f_frsize } else { 1 }),
        r.cluster_size == (if f_frsize < 1 { 1 } else if f_frsize > u32::MAX { u32::MAX as u64 } else { f_frsize }),
        r.fs_type == fs_type,
{
    let frsize: u64 = if f_frsize >= 1 { f_frsize } else { 1 };
    let cluster: u32 = if frsize > u32::MAX as u64 { u32::MAX } else { frsize as u32 };
    VolumeInfo {
        free_bytes: saturating_mul(f_bavail, frsize),
        total_bytes: saturating_mul(f_blocks, frsize),
        fs_type,
        cluster_size: cluster,
    }
}

/// The cluster size of a volume, 0 when the volume facts are unknown.
pub fn cluster_size(info: &Option<VolumeInfo>) -> (r: u32)
    ensures
        r == (match info {
            Some(v) => v.cluster_size,
            None => 0,
        }),
{
    match info {
        Some(v) => v.cluster_size,
        None => 0,
    }
}

/// Bytes per cluster from a disk geometry (sectors per cluster times bytes
/// per sector), 0 when the product does not fit in 32 bits.
pub fn cluster_from_geometry(sectors_per_cluster: u32, bytes_per_sector: u32) -> (r: u32)
    ensures
        r == (if sectors_per_cluster * bytes_per_sector <= u32::MAX {
            sectors_per_cluster * bytes_per_sector
        } else {
            0
        }),
{
    match sectors_per_cluster.checked_mul(bytes_per_sector) {
        Some(c) => c,
        None => 0,
    }
}

/// The root of a Windows volume path with its trailing backslash.
pub open spec fn with_trailing_backslash(s: Seq<char>) -> Seq<char> {
    if s.len() > 0 && s.last() == '\\' { s } else { s.push('\\') }
}

/// `root` ending in a backslash, as the Windows disk-space calls want it.
pub fn volume_path(root: &str) -> (r: String)
    ensures
        r@ == with_trailing_backslash(root@),
{
    let n = root.unicode_len();
    let mut s = String::from_str(root);
    if n == 0 || root.get_char(n - 1) != '\\' {
        proof {
            reveal_strlit("\\");
        }
        s.append("\\");
    }
    s
}

/// Volume facts from the Windows volume queries: the free and total bytes
/// of the disk-space query; the cluster size from the geometry query when it
/// answered (sectors per cluster, bytes per sector; see
/// `cluster_from_geometry`), else 0; the filesystem name from the UTF-16
/// buffer of the volume query when it answered (trailing NULs dropped),
/// else empty.
pub fn windows_volume_info(free_bytes: u64, total_bytes: u64, geometry: Option<(u32, u32)>, fs_name: Option<&[u16]>) -> (r: VolumeInfo)
    ensures
        r.free_bytes == free_bytes,
        r.total_bytes == total_bytes,
        r.cluster_size == (match geometry {
            Some((spc, bps)) => if spc * bps <= u32::MAX { (spc * bps) as u32 } else { 0 },
            None => 0,
        }),
        r.fs_type@ == (match fs_name {
            Some(u) => trim_end_char(utf16_lossy(u@), '\0'),
            None => Seq::<char>::empty(),
        }),
{
    let cluster_size = match geometry {
        Some((spc, bps)) => cluster_from_geometry(spc, bps),
        None => 0,
    };
    let fs_type = match fs_name {
        Some(u) => volume_label(u),
        None => String::new(),
    };
    VolumeInfo { free_bytes, total_bytes, fs_type, cluster_size }
}

} // verus!
