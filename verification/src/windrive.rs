//! The drive picker on Windows: the drive roots the system lists, and what
//! is shown for each drive.

use vstd::prelude::*;
use crate::models::DriveInfo;
use crate::text::{utf16_lossy, string_from_utf16_lossy, trim_end_char, trim_end_matches_char, trim_spec, trim_chars,
    chars_of, string_from_chars, string_views};
use crate::mounts::{split_on, split_chars, vec_views};

verus! {

/// Drive type codes as `GetDriveTypeW` reports them.
pub const DRIVE_REMOVABLE: u32 = 2;
pub const DRIVE_FIXED: u32 = 3;
pub const DRIVE_REMOTE: u32 = 4;
pub const DRIVE_CDROM: u32 = 5;
pub const DRIVE_RAMDISK: u32 = 6;

/// The label shown for a drive type code.
pub open spec fn kind_label_spec(t: u32) -> Seq<char> {
    if t == DRIVE_FIXED {
        "本地磁盘"@
    } else if t == DRIVE_REMOVABLE {
        "可移动磁盘"@
    } else if t == DRIVE_CDROM {
        "光驱"@
    } else if t == DRIVE_REMOTE {
        "网络驱动器"@
    } else if t == DRIVE_RAMDISK {
        "RAM 磁盘"@
    } else {
        "未知类型"@
    }
}

/// The label shown for a drive type code (see `kind_label_spec`).
pub fn drive_kind_label(t: u32) -> (r: String)
    ensures
        r@ == kind_label_spec(t),
{
    if t == DRIVE_FIXED {
        String::from_str("本地磁盘")
    } else if t == DRIVE_REMOVABLE {
        String::from_str("可移动磁盘")
    } else if t == DRIVE_CDROM {
        String::from_str("光驱")
    } else if t == DRIVE_REMOTE {
        String::from_str("网络驱动器")
    } else if t == DRIVE_RAMDISK {
        String::from_str("RAM 磁盘")
    } else {
        String::from_str("未知类型")
    }
}

/// The non-empty parts, in order.
pub open spec fn non_empty(ps: Seq<Seq<char>>) -> Seq<Seq<char>>
    decreases ps.len(),
{
    if ps.len() == 0 {
        Seq::empty()
    } else {
        let front = non_empty(ps.drop_last());
        if ps.last().len() > 0 { front.push(ps.last()) } else { front }
    }
}

/// The drive roots in the NUL-separated list the system returns: each part
/// trimmed of whitespace, empty parts dropped.
pub open spec fn drive_roots_spec(s: Seq<char>) -> Seq<Seq<char>> {
    non_empty(split_on(s, '\0').map_values(|p: Seq<char>| trim_spec(p)))
}

/// The drive roots ("C:\") in the UTF-16 list the system returns (see
/// `drive_roots_spec`).
pub fn drive_roots(units: &[u16]) -> (r: Vec<String>)
    ensures
        string_views(r@) == drive_roots_spec(utf16_lossy(units@)),
{
    let text = string_from_utf16_lossy(units);
    let chars = chars_of(text.as_str());
    let parts = split_chars(&chars, '\0');
    let ghost ps = split_on(chars@, '\0').map_values(|p: Seq<char>| trim_spec(p));
    let mut out: Vec<String> = Vec::new();
    let mut k: usize = 0;
    assert(ps.take(0) =~= Seq::<Seq<char>>::empty());
    assert(string_views(out@) =~= Seq::<Seq<char>>::empty());
    while k < parts.len()
        invariant
            k <= parts@.len(),
            vec_views(parts@) == split_on(chars@, '\0'),
            ps == split_on(chars@, '\0').map_values(|p: Seq<char>| trim_spec(p)),
            string_views(out@) == non_empty(ps.take(k as int)),
        decreases parts@.len() - k,
    {
        let t = trim_chars(&parts[k]);
        assert(ps[k as int] == trim_spec(parts@[k as int]@));
        assert(ps.take(k + 1).drop_last() =~= ps.take(k as int));
        if t.len() > 0 {
            let ghost before = string_views(out@);
            out.push(string_from_chars(t.as_slice()));
            assert(string_views(out@) =~= before.push(t@));
        }
        k = k + 1;
    }
    assert(ps.take(parts@.len() as int) =~= ps);
    out
}

/// A drive's letter from its root: trailing backslashes dropped ("C:\"
/// gives "C:").
pub fn drive_letter(root: &str) -> (r: String)
    ensures
        r@ == trim_end_char(root@, '\\'),
{
    trim_end_matches_char(root, '\\')
}

/// A volume label from the UTF-16 buffer the volume query fills: trailing
/// NULs dropped.
pub fn volume_label(units: &[u16]) -> (r: String)
    ensures
        r@ == trim_end_char(utf16_lossy(units@), '\0'),
{
    let s = string_from_utf16_lossy(units);
    trim_end_matches_char(s.as_str(), '\0')
}

/// The picker entry of one drive: its letter from the root, the label of
/// its drive type, and its volume label when the volume could be queried
/// (empty otherwise).
pub fn windows_drive_info(root: &str, drive_type: u32, label: Option<&[u16]>) -> (r: DriveInfo)
    ensures
        r.letter@ == trim_end_char(root@, '\\'),
        r.kind@ == kind_label_spec(drive_type),
        r.label@ == (match label {
            Some(u) => trim_end_char(utf16_lossy(u@), '\0'),
            None => Seq::<char>::empty(),
        }),
{
    let letter = drive_letter(root);
    let kind = drive_kind_label(drive_type);
    let label = match label {
        Some(u) => volume_label(u),
        None => String::new(),
    };
    DriveInfo { letter, label, kind }
}

} // verus!
