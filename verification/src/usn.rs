//! The change-journal scan of an NTFS volume: the pages returned by the
//! journal enumeration parsed into flat records, the reference-number
//! indexes, file paths rebuilt from them, and the small decisions around
//! the volume (its device path, whether it is NTFS).

use vstd::prelude::*;
use vstd::utf8::encode_utf8;
use std::collections::HashMap;
use crate::tree_builder::FlatEntry;
use crate::text::{utf16_lossy, string_from_utf16_lossy, trim_end_char, trim_end_matches_char,
    eq_ignore_ascii_case, str_eq_ignore_ascii_case, chars_of, string_from_chars, string_views};
use crate::paths::{first_index, find_char};

verus! {

broadcast use vstd::std_specs::hash::group_hash_axioms;

/// The attribute bit that marks a directory (`FILE_ATTRIBUTE_DIRECTORY`).
pub const FILE_ATTRIBUTE_DIRECTORY: u32 = 0x10;

/// The only record layout parsed (`USN_RECORD_V2`); later layouts carry
/// 128-bit reference numbers and are skipped.
pub const USN_RECORD_MAJOR: u16 = 2;

/// The little-endian 16-bit number at `at`.
pub open spec fn le16(b: Seq<u8>, at: int) -> int {
    b[at] as int + 256 * b[at + 1]
}

/// The little-endian 32-bit number at `at`.
pub open spec fn le32(b: Seq<u8>, at: int) -> int {
    le16(b, at) + 65536 * le16(b, at + 2)
}

/// The little-endian 64-bit number at `at`.
pub open spec fn le64(b: Seq<u8>, at: int) -> int {
    le32(b, at) + 4294967296 * le32(b, at + 4)
}

fn read_le16(b: &[u8], at: usize) -> (r: u16)
    requires
        at + 2 <= b@.len(),
    ensures
        r == le16(b@, at as int),
{
    b[at] as u16 + 256 * (b[at + 1] as u16)
}

fn read_le32(b: &[u8], at: usize) -> (r: u32)
    requires
        at + 4 <= b@.len(),
    ensures
        r == le32(b@, at as int),
{
    let _n = b.len();
    read_le16(b, at) as u32 + 65536 * (read_le16(b, at + 2) as u32)
}

fn read_le64(b: &[u8], at: usize) -> (r: u64)
    requires
        at + 8 <= b@.len(),
    ensures
        r == le64(b@, at as int),
{
    let _n = b.len();
    read_le32(b, at) as u64 + 4294967296 * (read_le32(b, at + 4) as u64)
}

/// The 16-bit units of a byte string, two bytes each in little-endian order
/// (the byte order of the machines the journal is read on); a trailing odd
/// byte is dropped.
pub open spec fn utf16_units(b: Seq<u8>) -> Seq<u16> {
    Seq::new(b.len() / 2, |k: int| le16(b, 2 * k) as u16)
}

/// The 16-bit units of a byte string (see `utf16_units`).
pub fn from_utf16(bytes: &[u8]) -> (r: Vec<u16>)
    ensures
        r@ == utf16_units(bytes@),
{
    let n = bytes.len() / 2;
    let mut out: Vec<u16> = Vec::new();
    let mut k: usize = 0;
    let len = bytes.len();
    while k < n
        invariant
            len == bytes@.len(),
            n == bytes@.len() / 2,
            k <= n,
            out@.len() == k,
            forall|t: int| 0 <= t < k ==> out@[t] == le16(bytes@, 2 * t) as u16,
        decreases n - k,
    {
        assert(2 * k + 2 <= len) by (nonlinear_arith)
            requires
                k < n,
                n == len / 2,
        ;
        out.push(read_le16(bytes, 2 * k));
        k = k + 1;
    }
    assert(out@ =~= utf16_units(bytes@));
    out
}

/// One parsed journal record.
pub struct UsnRecordView {
    pub frn: u64,
    pub parent_frn: u64,
    /// The file name as UTF-16 units.
    pub units: Seq<u16>,
    pub is_dir: bool,
}

/// The record at `off` is a version-2 record whose name lies inside it.
pub open spec fn record_usable(b: Seq<u8>, off: int) -> bool {
    &&& le16(b, off + 4) == USN_RECORD_MAJOR
    &&& le16(b, off + 58) + le16(b, off + 56) <= le32(b, off)
}

/// The record at `off`.
pub open spec fn record_at(b: Seq<u8>, off: int) -> UsnRecordView {
    let name_off = le16(b, off + 58);
    let name_len = le16(b, off + 56);
    UsnRecordView {
        frn: le64(b, off + 8) as u64,
        parent_frn: le64(b, off + 16) as u64,
        units: utf16_units(b.subrange(off + name_off, off + name_off + name_len)),
        is_dir: (le32(b, off + 52) as u32) & FILE_ATTRIBUTE_DIRECTORY != 0,
    }
}

/// The records of the first `bytes` bytes of a page from `off` on: each
/// record starts with its length; the walk stops at a length below 8 or
/// running past `bytes`, or when fewer than 8 bytes are left. Records of
/// another version, or whose name does not lie inside them, are skipped.
pub open spec fn usn_records(b: Seq<u8>, bytes: int, off: int) -> Seq<UsnRecordView>
    decreases bytes - off,
{
    if off < 0 || off + 8 > bytes {
        Seq::empty()
    } else {
        let rec_len = le32(b, off);
        if rec_len < 8 || off + rec_len > bytes {
            Seq::empty()
        } else {
            let rest = usn_records(b, bytes, off + rec_len);
            if record_usable(b, off) {
                seq![record_at(b, off)] + rest
            } else {
                rest
            }
        }
    }
}

/// Every version-2 record of the walk has its fixed fields inside the
/// buffer, so reading them cannot fail.
pub open spec fn walk_readable(b: Seq<u8>, bytes: int, off: int) -> bool
    decreases bytes - off,
{
    if off < 0 || off + 8 > bytes {
        true
    } else {
        let rec_len = le32(b, off);
        if rec_len < 8 || off + rec_len > bytes {
            true
        } else {
            &&& le16(b, off + 4) == USN_RECORD_MAJOR ==> off + 60 <= b.len()
            &&& walk_readable(b, bytes, off + rec_len)
        }
    }
}

/// How many of the records are directories (`dirs`) or files (`!dirs`).
pub open spec fn count_kind(rs: Seq<UsnRecordView>, dirs: bool) -> int
    decreases rs.len(),
{
    if rs.len() == 0 {
        0
    } else {
        count_kind(rs.drop_last(), dirs) + (if rs.last().is_dir == dirs { 1int } else { 0int })
    }
}

/// The flat records made of the parsed ones: names decoded from UTF-16,
/// sizes still 0.
pub open spec fn entries_of(es: Seq<FlatEntry>, rs: Seq<UsnRecordView>) -> bool {
    &&& es.len() == rs.len()
    &&& forall|k: int| 0 <= k < rs.len() ==> {
        &&& (#[trigger] es[k]).frn == rs[k].frn
        &&& es[k].parent_frn == rs[k].parent_frn
        &&& es[k].name@ == utf16_lossy(rs[k].units)
        &&& es[k].is_dir == rs[k].is_dir
        &&& es[k].size == 0
        &&& es[k].allocated_size == 0
    }
}

/// One page of the journal enumeration.
pub struct UsnPage {
    /// Where the next page starts (the page's first 8 bytes); 0 at the end.
    pub next_start: u64,
    pub entries: Vec<FlatEntry>,
    /// Records that are files.
    pub files: u64,
    /// Records that are directories.
    pub folders: u64,
}

proof fn lemma_walk_step(b: Seq<u8>, bytes: int, off: int)
    requires
        0 <= off,
        off + 8 <= bytes,
        8 <= le32(b, off),
        off + le32(b, off) <= bytes,
    ensures
        usn_records(b, bytes, off) == (if record_usable(b, off) {
            seq![record_at(b, off)] + usn_records(b, bytes, off + le32(b, off))
        } else {
            usn_records(b, bytes, off + le32(b, off))
        }),
        walk_readable(b, bytes, off) == ((le16(b, off + 4) == USN_RECORD_MAJOR ==> off + 60 <= b.len())
            && walk_readable(b, bytes, off + le32(b, off))),
{
}

/// Parses the first `bytes` bytes of a page of the journal enumeration
/// (see `usn_records`), counting the files and directories among the
/// records.
pub fn parse_usn_buffer(buf: &[u8], bytes: usize) -> (r: UsnPage)
    requires
        8 < bytes <= buf@.len(),
        walk_readable(buf@, bytes as int, 8),
    ensures
        r.next_start == le64(buf@, 0),
        entries_of(r.entries@, usn_records(buf@, bytes as int, 8)),
        r.files == count_kind(usn_records(buf@, bytes as int, 8), false),
        r.folders == count_kind(usn_records(buf@, bytes as int, 8), true),
{
    let next_start = read_le64(buf, 0);
    let mut entries: Vec<FlatEntry> = Vec::new();
    let mut files: u64 = 0;
    let mut folders: u64 = 0;
    let ghost all = usn_records(buf@, bytes as int, 8);
    let ghost mut done: Seq<UsnRecordView> = Seq::empty();
    let mut offset: usize = 8;
    let blen = buf.len();
    assert(done + usn_records(buf@, bytes as int, 8) =~= all);
    while offset <= bytes - 8
        invariant
            blen == buf@.len(),
            8 < bytes <= buf@.len(),
            done.len() <= offset,
            8 <= offset <= bytes,
            done + usn_records(buf@, bytes as int, offset as int) == all,
            walk_readable(buf@, bytes as int, offset as int),
            entries_of(entries@, done),
            files == count_kind(done, false),
            folders == count_kind(done, true),
            files + folders == done.len(),
        ensures
            8 <= offset <= bytes,
            done + usn_records(buf@, bytes as int, offset as int) == all,
            usn_records(buf@, bytes as int, offset as int).len() == 0,
            entries_of(entries@, done),
            files == count_kind(done, false),
            folders == count_kind(done, true),
        decreases bytes - offset,
    {
        let rec_len = read_le32(buf, offset) as usize;
        if rec_len < 8 || rec_len > bytes - offset {
            break;
        }
        proof {
            lemma_walk_step(buf@, bytes as int, offset as int);
        }
        let major = read_le16(buf, offset + 4);
        if major == USN_RECORD_MAJOR {
            let frn = read_le64(buf, offset + 8);
            let parent = read_le64(buf, offset + 16);
            let attrs = read_le32(buf, offset + 52);
            let name_len = read_le16(buf, offset + 56) as usize;
            let name_off = read_le16(buf, offset + 58) as usize;
            if name_off + name_len <= rec_len {
                let name_bytes = vstd::slice::slice_subrange(buf, offset + name_off, offset + name_off + name_len);
                let units = from_utf16(name_bytes);
                let name = string_from_utf16_lossy(units.as_slice());
                let is_dir = (attrs & FILE_ATTRIBUTE_DIRECTORY) != 0;
                let ghost rec = record_at(buf@, offset as int);
                assert(rec.units == units@);
                let ghost before = entries@;
                entries.push(FlatEntry { frn, parent_frn: parent, name, is_dir, size: 0, allocated_size: 0 });
                proof {
                    let nd = done.push(rec);
                    assert(nd.drop_last() =~= done);
                    assert forall|k: int| 0 <= k < nd.len() implies {
                        &&& (#[trigger] entries@[k]).frn == nd[k].frn
                        &&& entries@[k].parent_frn == nd[k].parent_frn
                        &&& entries@[k].name@ == utf16_lossy(nd[k].units)
                        &&& entries@[k].is_dir == nd[k].is_dir
                        &&& entries@[k].size == 0
                        &&& entries@[k].allocated_size == 0
                    } by {
                        if k < done.len() {
                            assert(entries@[k] == before[k]);
                            assert(nd[k] == done[k]);
                        }
                    }
                    assert(nd + usn_records(buf@, bytes as int, offset + rec_len) =~= done + usn_records(buf@, bytes as int, offset as int));
                    done = nd;
                }
                if is_dir {
                    folders = folders + 1;
                } else {
                    files = files + 1;
                }
            }
        }
        offset = offset + rec_len;
    }
    proof {
        assert(done + usn_records(buf@, bytes as int, offset as int) =~= done);
    }
    UsnPage { next_start, entries, files, folders }
}

/// Whether parsing the first `bytes` bytes of a page reads only inside the
/// buffer (see `walk_readable`).
pub fn usn_page_readable(buf: &[u8], bytes: usize) -> (r: bool)
    requires
        bytes <= buf@.len(),
    ensures
        r == walk_readable(buf@, bytes as int, 8),
{
    if bytes < 8 {
        return true;
    }
    let mut offset: usize = 8;
    while offset <= bytes - 8
        invariant
            8 <= bytes <= buf@.len(),
            8 <= offset <= bytes,
            walk_readable(buf@, bytes as int, 8) == walk_readable(buf@, bytes as int, offset as int),
        decreases bytes - offset,
    {
        let rec_len = read_le32(buf, offset) as usize;
        if rec_len < 8 || rec_len > bytes - offset {
            return true;
        }
        proof {
            lemma_walk_step(buf@, bytes as int, offset as int);
        }
        if read_le16(buf, offset + 4) == USN_RECORD_MAJOR && buf.len() - offset < 60 {
            return false;
        }
        offset = offset + rec_len;
    }
    true
}

/// The name of each reference number: the last record carrying it wins.
pub open spec fn name_links(es: Seq<FlatEntry>) -> Map<u64, String>
    decreases es.len(),
{
    if es.len() == 0 {
        Map::empty()
    } else {
        name_links(es.drop_last()).insert(es.last().frn, es.last().name)
    }
}

/// The parent of each reference number: the last record carrying it wins.
pub open spec fn parent_links(es: Seq<FlatEntry>) -> Map<u64, u64>
    decreases es.len(),
{
    if es.len() == 0 {
        Map::empty()
    } else {
        parent_links(es.drop_last()).insert(es.last().frn, es.last().parent_frn)
    }
}

/// The name and parent indexes of the records (see `name_links` and
/// `parent_links`).
pub fn record_links(entries: &Vec<FlatEntry>) -> (r: (HashMap<u64, String>, HashMap<u64, u64>))
    ensures
        r.0@ == name_links(entries@),
        r.1@ == parent_links(entries@),
{
    let mut names: HashMap<u64, String> = HashMap::new();
    let mut parents: HashMap<u64, u64> = HashMap::new();
    let mut k: usize = 0;
    while k < entries.len()
        invariant
            k <= entries@.len(),
            names@ == name_links(entries@.take(k as int)),
            parents@ == parent_links(entries@.take(k as int)),
        decreases entries@.len() - k,
    {
        let e = &entries[k];
        assert(entries@.take(k + 1).drop_last() =~= entries@.take(k as int));
        names.insert(e.frn, e.name.clone());
        parents.insert(e.frn, e.parent_frn);
        k = k + 1;
    }
    assert(entries@.take(entries@.len() as int) =~= entries@);
    (names, parents)
}

/// The longest walk up the parent links when rebuilding a path, in steps.
pub const PATH_WALK_LIMIT: usize = 1000;

/// The names met walking up from `cur`: the name of `cur`, then, while the
/// parent is known, is neither `cur` itself nor 0, and fewer than `left`
/// names were taken, those of the parents; nothing when `cur` has no name.
pub open spec fn name_chain(names: Map<u64, String>, parents: Map<u64, u64>, cur: u64, left: nat) -> Seq<Seq<char>>
    decreases left,
{
    if left == 0 || !names.contains_key(cur) {
        Seq::empty()
    } else {
        let here = seq![names[cur]@];
        if left > 1 && parents.contains_key(cur) && parents[cur] != cur && parents[cur] != 0 {
            here + name_chain(names, parents, parents[cur], (left - 1) as nat)
        } else {
            here
        }
    }
}

/// The parts joined with `\` between them.
pub open spec fn join_backslash(parts: Seq<Seq<char>>) -> Seq<char>
    decreases parts.len(),
{
    if parts.len() == 0 {
        Seq::empty()
    } else if parts.len() == 1 {
        parts[0]
    } else {
        join_backslash(parts.drop_last()) + seq!['\\'] + parts.last()
    }
}

/// The full path of record `frn`: the volume root followed by the names from
/// the top of the chain down to `frn`, joined with `\`; `None` when `frn`
/// has no name.
pub open spec fn reconstructed(names: Map<u64, String>, parents: Map<u64, u64>, frn: u64, root: Seq<char>) -> Option<Seq<char>> {
    let parts = name_chain(names, parents, frn, (PATH_WALK_LIMIT + 1) as nat);
    if parts.len() == 0 {
        None
    } else {
        Some(root + join_backslash(parts.reverse()))
    }
}

/// Rebuilds a file's full path by walking its parent links up to the volume
/// root (see `reconstructed`).
pub fn reconstruct_path(frn: u64, names: &HashMap<u64, String>, parents: &HashMap<u64, u64>, volume_root: &str) -> (r: Option<String>)
    ensures
        match reconstructed(names@, parents@, frn, volume_root@) {
            Some(p) => r matches Some(s) && s@ == p,
            None => r is None,
        },
{
    let ghost whole = name_chain(names@, parents@, frn, (PATH_WALK_LIMIT + 1) as nat);
    let mut parts: Vec<String> = Vec::new();
    let mut cur = frn;
    let mut left: usize = PATH_WALK_LIMIT + 1;
    assert(string_views(parts@) + whole =~= whole);
    loop
        invariant_except_break
            string_views(parts@) + name_chain(names@, parents@, cur, left as nat) == whole,
        invariant
            left <= PATH_WALK_LIMIT + 1,
        ensures
            string_views(parts@) == whole,
        decreases left,
    {
        if left == 0 {
            assert(string_views(parts@) + Seq::<Seq<char>>::empty() =~= string_views(parts@));
            break;
        }
        match names.get(&cur) {
            None => {
                assert(string_views(parts@) + Seq::<Seq<char>>::empty() =~= string_views(parts@));
                break;
            },
            Some(name) => {
                let ghost before = string_views(parts@);
                let ghost chain = name_chain(names@, parents@, cur, left as nat);
                parts.push(name.clone());
                assert(string_views(parts@) =~= before.push(name@));
                let next = match parents.get(&cur) {
                    Some(p) => *p,
                    None => cur,
                };
                if next != cur && next != 0 && left > 1 {
                    assert(chain == seq![name@] + name_chain(names@, parents@, next, (left - 1) as nat));
                    assert(string_views(parts@) + name_chain(names@, parents@, next, (left - 1) as nat)
                        =~= before + chain);
                    cur = next;
                    left = left - 1;
                } else {
                    assert(chain == seq![name@]);
                    assert(string_views(parts@) =~= before + chain);
                    break;
                }
            },
        }
    }
    if parts.len() == 0 {
        return None;
    }
    let ghost rev = whole.reverse();
    let n = parts.len();
    let mut s = String::from_str(volume_root);
    let mut t: usize = 0;
    while t < n
        invariant
            n == parts@.len(),
            string_views(parts@) == whole,
            rev == whole.reverse(),
            0 < n,
            t <= n,
            s@ == volume_root@ + join_backslash(rev.take(t as int)),
        decreases n - t,
    {
        let ghost before = s@;
        assert(rev[t as int] == parts@[n - 1 - t]@);
        assert(rev.take(t + 1).drop_last() =~= rev.take(t as int));
        if t > 0 {
            proof {
                reveal_strlit("\\");
            }
            s.append("\\");
        }
        s.append(parts[n - 1 - t].as_str());
        proof {
            if t == 0 {
                assert(join_backslash(rev.take(0)) =~= Seq::<char>::empty());
                assert(before =~= volume_root@);
                assert(rev.take(1)[0] == rev[0]);
                assert(rev.take(1).len() == 1);
                assert(join_backslash(rev.take(1)) == rev[0]);
                assert(s@ == before + parts@[n - 1 - t]@);
                assert(s@ =~= volume_root@ + join_backslash(rev.take(1)));
            } else {
                assert(join_backslash(rev.take(t + 1)) == join_backslash(rev.take(t as int)) + seq!['\\'] + rev[t as int]);
                assert(s@ =~= volume_root@ + join_backslash(rev.take(t + 1)));
            }
        }
        t = t + 1;
    }
    assert(rev.take(n as int) =~= rev);
    Some(s)
}

/// Whether a filesystem name, as the UTF-16 buffer the volume query fills,
/// is NTFS: trailing NULs dropped, compared up to ASCII case.
pub open spec fn is_ntfs_spec(units: Seq<u16>) -> bool {
    eq_ignore_ascii_case(encode_utf8(trim_end_char(utf16_lossy(units), '\0')), encode_utf8("NTFS"@))
}

/// Whether the filesystem named in `fs_name` is NTFS (see `is_ntfs_spec`).
pub fn is_ntfs_name(fs_name: &[u16]) -> (r: bool)
    ensures
        r == is_ntfs_spec(fs_name@),
{
    let name = string_from_utf16_lossy(fs_name);
    let trimmed = trim_end_matches_char(name.as_str(), '\0');
    str_eq_ignore_ascii_case(trimmed.as_str(), "NTFS")
}

/// The drive of a path for opening its volume: everything up to and
/// including the first colon ("C:\foo" gives "C:"), or "C:" when the path
/// has none.
pub open spec fn usn_drive_spec(s: Seq<char>) -> Seq<char> {
    let i = first_index(s, ':');
    if i >= 0 { s.take(i + 1) } else { "C:"@ }
}

/// The drive of `root` (see `usn_drive_spec`).
pub fn usn_drive(root: &str) -> (r: String)
    ensures
        r@ == usn_drive_spec(root@),
{
    let c = chars_of(root);
    match find_char(&c, ':') {
        Some(idx) => {
            let mut head: Vec<char> = Vec::new();
            let mut j: usize = 0;
            let n = c.len();
            while j <= idx
                invariant
                    n == c@.len(),
                    j <= idx + 1,
                    idx < c@.len(),
                    head@ == c@.take(j as int),
                decreases idx + 1 - j,
            {
                head.push(c[j]);
                assert(head@ =~= c@.take(j + 1));
                j = j + 1;
            }
            string_from_chars(head.as_slice())
        },
        None => String::from_str("C:"),
    }
}

/// The device path that opens the volume of `drive`: `\\.\` followed by the
/// drive ("\\.\C:").
pub fn usn_volume_path(drive: &str) -> (r: String)
    ensures
        r@ == "\\\\.\\"@ + drive@,
{
    let mut s = String::from_str("\\\\.\\");
    s.append(drive);
    s
}

/// Every parsed record is counted once, as a file or as a directory.
pub proof fn lemma_counts_partition(rs: Seq<UsnRecordView>)
    ensures
        count_kind(rs, true) + count_kind(rs, false) == rs.len(),
    decreases rs.len(),
{
    if rs.len() > 0 {
        lemma_counts_partition(rs.drop_last());
    }
}

/// The directory bit of a little-endian attribute word lies in its first
/// byte.
proof fn lemma_dir_bit(x: u32, b0: u8, b1: u8, b2: u8, b3: u8)
    by (bit_vector)
    requires
        x == b0 + 256 * b1 + 65536 * b2 + 16777216 * b3,
    ensures
        (x & 16u32 != 0) == (b0 & 16u8 != 0),
{
}

/// Every parsed record stands for a record of the page at some offset of
/// the walk: its reference numbers are the 64-bit words at 8 and 16 bytes
/// into it, and it is a directory exactly when bit 0x10
/// (`FILE_ATTRIBUTE_DIRECTORY`) of its attribute word (52 bytes in) is set,
/// whatever its other attribute bits.
pub proof fn lemma_usn_dir_bit(b: Seq<u8>, bytes: int, off: int)
    ensures
        forall|k: int| 0 <= k < usn_records(b, bytes, off).len() ==> exists|o: int|
            #![trigger le64(b, o + 8)]
            off <= o < bytes && (#[trigger] usn_records(b, bytes, off)[k]).frn == le64(b, o + 8)
                && usn_records(b, bytes, off)[k].parent_frn == le64(b, o + 16)
                && usn_records(b, bytes, off)[k].is_dir == (b[o + 52] & 16u8 != 0),
    decreases bytes - off,
{
    let rs = usn_records(b, bytes, off);
    if off < 0 || off + 8 > bytes {
    } else {
        let rec_len = le32(b, off);
        if rec_len < 8 || off + rec_len > bytes {
        } else {
            lemma_usn_dir_bit(b, bytes, off + rec_len);
            let rest = usn_records(b, bytes, off + rec_len);
            if record_usable(b, off) {
                let r0 = record_at(b, off);
                assert(rs == seq![r0] + rest);
                let w = le32(b, off + 52);
                lemma_dir_bit(w as u32, b[off + 52], b[off + 53], b[off + 54], b[off + 55]);
                assert(r0.is_dir == (b[off + 52] & 16u8 != 0));
                assert(r0.frn == le64(b, off + 8));
                assert(r0.parent_frn == le64(b, off + 16));
                assert forall|k: int| 0 <= k < rs.len() implies exists|o: int|
                    #![trigger le64(b, o + 8)]
                    off <= o < bytes && (#[trigger] rs[k]).frn == le64(b, o + 8) && rs[k].parent_frn == le64(b, o + 16)
                        && rs[k].is_dir == (b[o + 52] & 16u8 != 0) by {
                    if k == 0 {
                        assert(rs[0] == r0);
                        assert(le64(b, off + 8) == le64(b, off + 8));
                    } else {
                        assert(rs[k] == rest[k - 1]);
                    }
                }
            }
        }
    }
}

} // verus!
