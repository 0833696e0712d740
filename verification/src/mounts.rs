//! Reading the mount table (`/proc/mounts` format): decoding of its octal
//! escapes, the list of user-visible disks, and the filesystem of a path.

use vstd::prelude::*;
use vstd::utf8::{encode_utf8, valid_utf8, decode_utf8};
use crate::models::DriveInfo;
use crate::text::{is_ws, is_whitespace, chars_of, string_from_chars, utf8_lossy, string_from_utf8_lossy, starts_with,
    chars_start_with, chars_equal};

verus! {

/// The segments of `s` between occurrences of `sep`, `cur` being the
/// segment begun so far (`str::split` with one character).
pub open spec fn split_acc(s: Seq<char>, sep: char, cur: Seq<char>) -> Seq<Seq<char>>
    decreases s.len(),
{
    if s.len() == 0 {
        seq![cur]
    } else if s[0] == sep {
        seq![cur] + split_acc(s.drop_first(), sep, Seq::empty())
    } else {
        split_acc(s.drop_first(), sep, cur.push(s[0]))
    }
}

/// The segments of `s` between occurrences of `sep`.
pub open spec fn split_on(s: Seq<char>, sep: char) -> Seq<Seq<char>> {
    split_acc(s, sep, Seq::empty())
}

/// The lines of `s` (a last empty segment yields no fields and is harmless).
pub open spec fn split_lines(s: Seq<char>) -> Seq<Seq<char>> {
    split_on(s, '\n')
}

/// The whitespace-separated words of `s`, `cur` being the word begun so far.
pub open spec fn words_acc(s: Seq<char>, cur: Seq<char>) -> Seq<Seq<char>>
    decreases s.len(),
{
    if s.len() == 0 {
        if cur.len() > 0 { seq![cur] } else { Seq::empty() }
    } else if is_ws(s[0]) {
        (if cur.len() > 0 { seq![cur] } else { Seq::empty() }) + words_acc(s.drop_first(), Seq::empty())
    } else {
        words_acc(s.drop_first(), cur.push(s[0]))
    }
}

/// `str::split_whitespace`.
pub open spec fn words(s: Seq<char>) -> Seq<Seq<char>> {
    words_acc(s, Seq::empty())
}

/// The `i`-th whitespace-separated field of a line, or empty.
pub open spec fn mount_field(line: Seq<char>, i: int) -> Seq<char> {
    if 0 <= i < words(line).len() { words(line)[i] } else { Seq::empty() }
}

pub open spec fn vec_views(s: Seq<Vec<char>>) -> Seq<Seq<char>> {
    Seq::new(s.len(), |i: int| s[i]@)
}

fn push_segment(out: &mut Vec<Vec<char>>, seg: Vec<char>)
    ensures
        vec_views(final(out)@) == vec_views(old(out)@).push(seg@),
{
    let ghost before = out@;
    let ghost sv = seg@;
    out.push(seg);
    assert(vec_views(out@) =~= vec_views(before).push(sv));
}

/// The segments of `s` between occurrences of `sep` (see `split_on`).
pub(crate) fn split_chars(s: &Vec<char>, sep: char) -> (r: Vec<Vec<char>>)
    ensures
        vec_views(r@) == split_on(s@, sep),
{
    let mut out: Vec<Vec<char>> = Vec::new();
    let mut cur: Vec<char> = Vec::new();
    let mut i: usize = 0;
    assert(s@.skip(0) =~= s@);
    assert(vec_views(out@) + split_acc(s@.skip(0), sep, cur@) =~= split_on(s@, sep));
    while i < s.len()
        invariant
            i <= s@.len(),
            vec_views(out@) + split_acc(s@.skip(i as int), sep, cur@) == split_on(s@, sep),
        decreases s@.len() - i,
    {
        let ghost rest = s@.skip(i as int);
        assert(rest[0] == s@[i as int]);
        assert(rest.drop_first() =~= s@.skip(i + 1));
        if s[i] == sep {
            let ghost old_out = vec_views(out@);
            let ghost old_cur = cur@;
            push_segment(&mut out, cur);
            cur = Vec::new();
            assert(vec_views(out@) + split_acc(s@.skip(i + 1), sep, cur@)
                =~= old_out + (seq![old_cur] + split_acc(s@.skip(i + 1), sep, Seq::empty())));
        } else {
            let ghost old_cur = cur@;
            cur.push(s[i]);
            assert(cur@ == old_cur.push(s@[i as int]));
        }
        i = i + 1;
    }
    assert(s@.skip(s@.len() as int).len() == 0);
    push_segment(&mut out, cur);
    out
}

/// The whitespace-separated words of `s` (see `words`).
fn words_of(s: &Vec<char>) -> (r: Vec<Vec<char>>)
    ensures
        vec_views(r@) == words(s@),
{
    let mut out: Vec<Vec<char>> = Vec::new();
    let mut cur: Vec<char> = Vec::new();
    let mut i: usize = 0;
    assert(s@.skip(0) =~= s@);
    assert(vec_views(out@) + words_acc(s@.skip(0), cur@) =~= words(s@));
    while i < s.len()
        invariant
            i <= s@.len(),
            vec_views(out@) + words_acc(s@.skip(i as int), cur@) == words(s@),
        decreases s@.len() - i,
    {
        let ghost rest = s@.skip(i as int);
        assert(rest[0] == s@[i as int]);
        assert(rest.drop_first() =~= s@.skip(i + 1));
        if is_whitespace(s[i]) {
            let ghost old_out = vec_views(out@);
            let ghost old_cur = cur@;
            if cur.len() > 0 {
                push_segment(&mut out, cur);
                cur = Vec::new();
                assert(vec_views(out@) + words_acc(s@.skip(i + 1), cur@)
                    =~= old_out + (seq![old_cur] + words_acc(s@.skip(i + 1), Seq::empty())));
            } else {
                assert(cur@ =~= Seq::<char>::empty());
                assert(vec_views(out@) + words_acc(s@.skip(i + 1), cur@)
                    =~= old_out + (Seq::<Seq<char>>::empty() + words_acc(s@.skip(i + 1), Seq::empty())));
            }
        } else {
            let ghost old_cur = cur@;
            cur.push(s[i]);
            assert(cur@ == old_cur.push(s@[i as int]));
        }
        i = i + 1;
    }
    assert(s@.skip(s@.len() as int).len() == 0);
    if cur.len() > 0 {
        push_segment(&mut out, cur);
    } else {
        assert(vec_views(out@) =~= vec_views(out@) + Seq::<Seq<char>>::empty());
    }
    out
}

/// The `i`-th field of a line's words, or an empty string.
fn field_of(ws: &Vec<Vec<char>>, i: usize) -> (r: Vec<char>)
    ensures
        r@ == (if i < ws@.len() { ws@[i as int]@ } else { Seq::<char>::empty() }),
{
    if i < ws.len() {
        let mut r: Vec<char> = Vec::new();
        let w = &ws[i];
        let mut j: usize = 0;
        while j < w.len()
            invariant
                j <= w@.len(),
                r@ == w@.take(j as int),
            decreases w@.len() - j,
        {
            r.push(w[j]);
            assert(r@ =~= w@.take(j + 1));
            j = j + 1;
        }
        assert(w@.take(w@.len() as int) =~= w@);
        r
    } else {
        Vec::new()
    }
}

pub open spec fn is_octal(b: u8) -> bool {
    48 <= b <= 55
}

/// Octal escape `\ddd` at the start of `b`.
pub open spec fn escape_at(b: Seq<u8>, p: int) -> bool {
    &&& 0 <= p
    &&& p + 3 < b.len()
    &&& b[p] == 92
    &&& is_octal(b[p + 1])
    &&& is_octal(b[p + 2])
    &&& is_octal(b[p + 3])
}

/// The octal escapes `\ddd` of `/proc/mounts` decoded to single bytes; every
/// other byte kept as it is.
pub open spec fn unescape_bytes(b: Seq<u8>) -> Seq<u8>
    decreases b.len(),
{
    if b.len() == 0 {
        b
    } else if escape_at(b, 0) {
        seq![((b[1] - 48) * 64 + (b[2] - 48) * 8 + (b[3] - 48)) as u8] + unescape_bytes(b.skip(4))
    } else {
        seq![b[0]] + unescape_bytes(b.drop_first())
    }
}

/// Every octal escape names a byte value (its first digit is at most 3), so
/// that decoding it cannot overflow a byte.
pub open spec fn escapes_fit(b: Seq<u8>) -> bool {
    forall|p: int| #[trigger] escape_at(b, p) ==> b[p + 1] <= 51
}

/// Decodes the octal escapes `/proc/mounts` uses for special characters in
/// mount points and devices (`\040` space, `\011` tab, `\134` backslash, ...).
/// Any other byte is kept; the bytes are then read as UTF-8, invalid
/// sequences replaced.
pub fn unescape_mount_field(s: &str) -> (r: String)
    requires
        escapes_fit(encode_utf8(s@)),
    ensures
        r@ == utf8_lossy(unescape_bytes(encode_utf8(s@))),
        valid_utf8(unescape_bytes(encode_utf8(s@))) ==> r@ == decode_utf8(unescape_bytes(encode_utf8(s@))),
{
    let b = s.as_bytes();
    let ghost g = b@;
    let mut out: Vec<u8> = Vec::new();
    let mut i: usize = 0;
    assert(g.skip(0) =~= g);
    assert(out@ + unescape_bytes(g.skip(0)) =~= unescape_bytes(g));
    while i < b.len()
        invariant
            g == b@,
            escapes_fit(g),
            i <= g.len(),
            out@ + unescape_bytes(g.skip(i as int)) == unescape_bytes(g),
        decreases g.len() - i,
    {
        let ghost rest = g.skip(i as int);
        if b[i] == 92 && b.len() - i > 3 && 48 <= b[i + 1] && b[i + 1] <= 55 && 48 <= b[i + 2] && b[i + 2]
            <= 55 && 48 <= b[i + 3] && b[i + 3] <= 55 {
            assert(escape_at(g, i as int));
            assert(escape_at(rest, 0));
            assert(rest.skip(4) =~= g.skip(i + 4));
            let v: u8 = (b[i + 1] - 48) * 64 + (b[i + 2] - 48) * 8 + (b[i + 3] - 48);
            let ghost before = out@;
            out.push(v);
            assert(out@ + unescape_bytes(g.skip(i + 4)) =~= before + unescape_bytes(rest));
            i = i + 4;
        } else {
            assert(!escape_at(rest, 0));
            assert(rest.drop_first() =~= g.skip(i + 1));
            let ghost before = out@;
            out.push(b[i]);
            assert(out@ + unescape_bytes(g.skip(i + 1)) =~= before + unescape_bytes(rest));
            i = i + 1;
        }
    }
    assert(g.skip(g.len() as int).len() == 0);
    assert(out@ =~= out@ + unescape_bytes(g.skip(g.len() as int)));
    string_from_utf8_lossy(out.as_slice())
}

/// A mount-table field decoded (see `unescape_mount_field`).
pub open spec fn decoded_field(line: Seq<char>, i: int) -> Seq<char> {
    utf8_lossy(unescape_bytes(encode_utf8(mount_field(line, i))))
}

/// The escapes of the device and mount point fields of every line fit.
pub open spec fn mounts_fit(content: Seq<char>) -> bool {
    forall|i: int|
        0 <= i < split_lines(content).len() ==> {
            &&& escapes_fit(encode_utf8(mount_field(#[trigger] split_lines(content)[i], 0)))
            &&& escapes_fit(encode_utf8(mount_field(split_lines(content)[i], 1)))
        }
}

/// The drive a mount-table line stands for, as (mount point, kind): only
/// block devices (`/dev/...`) and network shares (cifs, nfs, nfs4) mounted
/// at an absolute path, and not snap images, optical images, fuse mounts,
/// `/boot/efi` or snap directories. The kind is the filesystem type, or
/// "本地磁盘" when the line gives none.
pub open spec fn drive_of_line(line: Seq<char>) -> Option<(Seq<char>, Seq<char>)> {
    let dev = decoded_field(line, 0);
    let mp = decoded_field(line, 1);
    let fstype = mount_field(line, 2);
    let real_dev = starts_with(dev, "/dev/"@) || fstype == "cifs"@ || fstype == "nfs"@ || fstype == "nfs4"@;
    if !real_dev || !starts_with(mp, "/"@) {
        None
    } else if fstype == "squashfs"@ || fstype == "iso9660"@ || fstype == "udf"@ || starts_with(fstype, "fuse"@)
        || mp == "/boot/efi"@ || starts_with(mp, "/snap"@) || starts_with(mp, "/var/lib/snapd"@) {
        None
    } else {
        Some((mp, if fstype.len() == 0 { "本地磁盘"@ } else { fstype }))
    }
}

/// Whether some drive of `d` has mount point `l`.
pub open spec fn has_letter(d: Seq<(Seq<char>, Seq<char>)>, l: Seq<char>) -> bool {
    exists|j: int| 0 <= j < d.len() && d[j].0 == l
}

/// The drives of the candidate lines, in order, each mount point once (the
/// first line for it wins).
pub open spec fn collect_drives(c: Seq<Option<(Seq<char>, Seq<char>)>>) -> Seq<(Seq<char>, Seq<char>)>
    decreases c.len(),
{
    if c.len() == 0 {
        Seq::empty()
    } else {
        let d = collect_drives(c.drop_last());
        match c.last() {
            Some(x) => if has_letter(d, x.0) { d } else { d.push(x) },
            None => d,
        }
    }
}

/// The drives listed by a mount table, or the root alone when none is.
pub open spec fn drives_spec(content: Seq<char>) -> Seq<(Seq<char>, Seq<char>)> {
    let lines = split_lines(content);
    let d = collect_drives(Seq::new(lines.len(), |i: int| drive_of_line(lines[i])));
    if d.len() == 0 { seq![("/"@, "本地磁盘"@)] } else { d }
}

pub open spec fn drive_views(s: Seq<DriveInfo>) -> Seq<(Seq<char>, Seq<char>)> {
    Seq::new(s.len(), |i: int| (s[i].letter@, s[i].kind@))
}

/// Decodes field `i` of a line's words.
fn decode_field(ws: &Vec<Vec<char>>, i: usize, Ghost(line): Ghost<Seq<char>>) -> (r: String)
    requires
        vec_views(ws@) == words(line),
        escapes_fit(encode_utf8(mount_field(line, i as int))),
    ensures
        r@ == decoded_field(line, i as int),
{
    let f = field_of(ws, i);
    assert(f@ == mount_field(line, i as int));
    let s = string_from_chars(f.as_slice());
    unescape_mount_field(s.as_str())
}

/// The drive a line stands for (see `drive_of_line`).
fn line_drive(line: &Vec<char>) -> (r: Option<(String, String)>)
    requires
        escapes_fit(encode_utf8(mount_field(line@, 0))),
        escapes_fit(encode_utf8(mount_field(line@, 1))),
    ensures
        match r {
            Some((mp, kind)) => drive_of_line(line@) == Some((mp@, kind@)),
            None => drive_of_line(line@) is None,
        },
{
    let ws = words_of(line);
    let dev = decode_field(&ws, 0, Ghost(line@));
    let mp = decode_field(&ws, 1, Ghost(line@));
    let fstype = field_of(&ws, 2);
    assert(fstype@ == mount_field(line@, 2));
    let dev_c = chars_of(dev.as_str());
    let mp_c = chars_of(mp.as_str());
    let real_dev = chars_start_with(&dev_c, &chars_of("/dev/")) || chars_equal(&fstype, &chars_of("cifs"))
        || chars_equal(&fstype, &chars_of("nfs")) || chars_equal(&fstype, &chars_of("nfs4"));
    if !real_dev || !chars_start_with(&mp_c, &chars_of("/")) {
        return None;
    }
    if chars_equal(&fstype, &chars_of("squashfs")) || chars_equal(&fstype, &chars_of("iso9660"))
        || chars_equal(&fstype, &chars_of("udf")) || chars_start_with(&fstype, &chars_of("fuse"))
        || chars_equal(&mp_c, &chars_of("/boot/efi")) || chars_start_with(&mp_c, &chars_of("/snap"))
        || chars_start_with(&mp_c, &chars_of("/var/lib/snapd")) {
        return None;
    }
    let kind = if fstype.len() == 0 {
        String::from_str("本地磁盘")
    } else {
        string_from_chars(fstype.as_slice())
    };
    Some((mp, kind))
}

/// Whether some drive of `drives` has mount point `mp`.
fn has_drive(drives: &Vec<DriveInfo>, mp: &String) -> (r: bool)
    ensures
        r == has_letter(drive_views(drives@), mp@),
{
    let mut j: usize = 0;
    while j < drives.len()
        invariant
            j <= drives@.len(),
            forall|q: int| 0 <= q < j ==> drive_views(drives@)[q].0 != mp@,
        decreases drives@.len() - j,
    {
        if drives[j].letter == *mp {
            assert(drive_views(drives@)[j as int].0 == mp@);
            return true;
        }
        j = j + 1;
    }
    false
}

/// The drives and mount points listed by a mount table in `/proc/mounts`
/// format (see `drives_spec`): real disks and network shares, each mount
/// point once, with the filesystem type as kind and no label. When the table
/// lists none, the root `/` alone is returned.
pub fn enumerate_drives(content: &str) -> (r: Vec<DriveInfo>)
    requires
        mounts_fit(content@),
    ensures
        drive_views(r@) == drives_spec(content@),
        forall|i: int| 0 <= i < r@.len() ==> (#[trigger] r@[i]).label@.len() == 0,
{
    let chars = chars_of(content);
    let lines = split_chars(&chars, '\n');
    let ghost ls = split_lines(content@);
    let ghost cands = Seq::new(ls.len(), |i: int| drive_of_line(ls[i]));
    let mut drives: Vec<DriveInfo> = Vec::new();
    let mut i: usize = 0;
    assert(cands.take(0) =~= Seq::<Option<(Seq<char>, Seq<char>)>>::empty());
    assert(drive_views(drives@) =~= Seq::<(Seq<char>, Seq<char>)>::empty());
    while i < lines.len()
        invariant
            vec_views(lines@) == ls,
            ls == split_lines(content@),
            cands == Seq::new(ls.len(), |i: int| drive_of_line(ls[i])),
            mounts_fit(content@),
            i <= lines@.len(),
            drive_views(drives@) == collect_drives(cands.take(i as int)),
            forall|q: int| 0 <= q < drives@.len() ==> (#[trigger] drives@[q]).label@.len() == 0,
        decreases lines@.len() - i,
    {
        assert(ls[i as int] == lines@[i as int]@);
        assert(cands.take(i + 1).drop_last() =~= cands.take(i as int));
        assert(cands.take(i + 1).last() == drive_of_line(ls[i as int]));
        match line_drive(&lines[i]) {
            Some((mp, kind)) => {
                if !has_drive(&drives, &mp) {
                    let ghost before = drives@;
                    let ghost entry = (mp@, kind@);
                    drives.push(DriveInfo { letter: mp, label: String::new(), kind });
                    assert(drive_views(drives@) =~= drive_views(before).push(entry));
                }
            },
            None => {},
        }
        i = i + 1;
    }
    assert(cands.take(lines@.len() as int) =~= cands);
    if drives.len() == 0 {
        proof {
            reveal_strlit("/");
        }
        drives.push(DriveInfo { letter: String::from_str("/"), label: String::new(), kind: String::from_str("本地磁盘") });
        assert(drive_views(drives@) =~= seq![("/"@, "本地磁盘"@)]);
    }
    drives
}

/// The escapes of the mount point field of every line fit.
pub open spec fn mount_points_fit(content: Seq<char>) -> bool {
    forall|i: int|
        0 <= i < split_lines(content).len() ==> escapes_fit(
            encode_utf8(mount_field(#[trigger] split_lines(content)[i], 1)),
        )
}

/// The deepest mount point (by UTF-8 length, the first line winning ties)
/// that is a prefix of `path`, as (length, filesystem type).
pub open spec fn best_mount(lines: Seq<Seq<char>>, path: Seq<char>) -> Option<(int, Seq<char>)>
    decreases lines.len(),
{
    if lines.len() == 0 {
        None
    } else {
        let b = best_mount(lines.drop_last(), path);
        let line = lines.last();
        let mp = decoded_field(line, 1);
        let n = encode_utf8(mp).len() as int;
        if starts_with(path, mp) && (b is None || n > b->Some_0.0) {
            Some((n, mount_field(line, 2)))
        } else {
            b
        }
    }
}

/// The filesystem type of the deepest mount point containing `path`, or
/// empty when no line of the table matches.
pub open spec fn fs_type_spec(path: Seq<char>, content: Seq<char>) -> Seq<char> {
    match best_mount(split_lines(content), path) {
        Some(x) => x.1,
        None => Seq::empty(),
    }
}

/// The filesystem type of the volume holding `path`, from a mount table in
/// `/proc/mounts` format (see `fs_type_spec`). Mount points are compared as
/// string prefixes of `path`; the longest one wins.
pub fn fs_type_for_path(path: &str, content: &str) -> (r: String)
    requires
        mount_points_fit(content@),
    ensures
        r@ == fs_type_spec(path@, content@),
{
    let path_c = chars_of(path);
    let chars = chars_of(content);
    let lines = split_chars(&chars, '\n');
    let ghost ls = split_lines(content@);
    let mut best: Option<(usize, Vec<char>)> = None;
    let mut i: usize = 0;
    assert(ls.take(0) =~= Seq::<Seq<char>>::empty());
    while i < lines.len()
        invariant
            vec_views(lines@) == ls,
            ls == split_lines(content@),
            mount_points_fit(content@),
            path_c@ == path@,
            i <= lines@.len(),
            match best {
                Some((n, t)) => best_mount(ls.take(i as int), path@) == Some((n as int, t@)),
                None => best_mount(ls.take(i as int), path@) is None,
            },
        decreases lines@.len() - i,
    {
        let line = &lines[i];
        assert(ls[i as int] == line@);
        assert(ls.take(i + 1).drop_last() =~= ls.take(i as int));
        assert(ls.take(i + 1).last() == line@);
        let ws = words_of(line);
        let mp = decode_field(&ws, 1, Ghost(line@));
        let n = mp.as_str().as_bytes().len();
        let mp_c = chars_of(mp.as_str());
        if chars_start_with(&path_c, &mp_c) {
            let better = match &best {
                Some((m, _)) => n > *m,
                None => true,
            };
            if better {
                let t = field_of(&ws, 2);
                best = Some((n, t));
            }
        }
        i = i + 1;
    }
    assert(ls.take(lines@.len() as int) =~= ls);
    match best {
        Some((_, t)) => string_from_chars(t.as_slice()),
        None => String::new(),
    }
}

/// Bytes without a backslash come through the decoding unchanged.
pub proof fn lemma_unescape_plain(b: Seq<u8>)
    requires
        forall|k: int| 0 <= k < b.len() ==> b[k] != 92,
    ensures
        unescape_bytes(b) == b,
    decreases b.len(),
{
    if b.len() > 0 {
        assert(!escape_at(b, 0));
        lemma_unescape_plain(b.drop_first());
        assert(b =~= seq![b[0]] + b.drop_first());
    }
}

proof fn lemma_collect_distinct(c: Seq<Option<(Seq<char>, Seq<char>)>>)
    requires
        forall|k: int| 0 <= k < c.len() ==> (#[trigger] c[k] matches Some(x) ==> starts_with(x.0, "/"@)),
    ensures
        forall|i: int, j: int| 0 <= i < j < collect_drives(c).len() ==> collect_drives(c)[i].0 != collect_drives(c)[j].0,
        forall|i: int| 0 <= i < collect_drives(c).len() ==> starts_with(#[trigger] collect_drives(c)[i].0, "/"@),
    decreases c.len(),
{
    if c.len() > 0 {
        let front = c.drop_last();
        assert forall|k: int| 0 <= k < front.len() implies (#[trigger] front[k] matches Some(x) ==> starts_with(x.0, "/"@)) by {
            assert(front[k] == c[k]);
        }
        lemma_collect_distinct(front);
        let d = collect_drives(front);
        match c.last() {
            Some(x) => {
                assert(c[c.len() - 1] == c.last());
                if !has_letter(d, x.0) {
                    let e = d.push(x);
                    assert forall|i: int, j: int| 0 <= i < j < e.len() implies e[i].0 != e[j].0 by {
                        if j == d.len() {
                            assert(e[i] == d[i]);
                        }
                    }
                    assert forall|i: int| 0 <= i < e.len() implies starts_with(#[trigger] e[i].0, "/"@) by {
                        if i < d.len() {
                            assert(e[i] == d[i]);
                        }
                    }
                }
            },
            None => {},
        }
    }
}

/// The drive list names each mount point once, and every mount point is an
/// absolute path.
pub proof fn lemma_drives_distinct(content: Seq<char>)
    ensures
        forall|i: int, j: int| 0 <= i < j < drives_spec(content).len() ==> drives_spec(content)[i].0 != drives_spec(content)[j].0,
        forall|i: int| 0 <= i < drives_spec(content).len() ==> starts_with(#[trigger] drives_spec(content)[i].0, "/"@),
{
    let lines = split_lines(content);
    let c = Seq::new(lines.len(), |i: int| drive_of_line(lines[i]));
    lemma_collect_distinct(c);
    reveal_strlit("/");
    assert("/"@.take("/"@.len() as int) =~= "/"@);
}

/// Whether every octal escape of `b` names a byte value (see `escapes_fit`).
pub fn escapes_fit_bytes(b: &[u8]) -> (r: bool)
    ensures
        r == escapes_fit(b@),
{
    let n = b.len();
    let mut p: usize = 0;
    while p < n
        invariant
            n == b@.len(),
            p <= n,
            forall|q: int| 0 <= q < p && #[trigger] escape_at(b@, q) ==> b@[q + 1] <= 51,
        decreases n - p,
    {
        if b[p] == 92 && n - p > 3 && 48 <= b[p + 1] && b[p + 1] <= 55 && 48 <= b[p + 2] && b[p + 2] <= 55
            && 48 <= b[p + 3] && b[p + 3] <= 55 && b[p + 1] > 51 {
            assert(escape_at(b@, p as int));
            return false;
        }
        p = p + 1;
    }
    true
}

/// Whether the escapes of the mount point fields of a mount table fit (see
/// `mount_points_fit`), and with `devices` also those of the device fields
/// (see `mounts_fit`).
pub fn mount_table_fits(content: &str, devices: bool) -> (r: bool)
    ensures
        r == (if devices { mounts_fit(content@) } else { mount_points_fit(content@) }),
{
    let chars = chars_of(content);
    let lines = split_chars(&chars, '\n');
    let ghost ls = split_lines(content@);
    let mut i: usize = 0;
    while i < lines.len()
        invariant
            vec_views(lines@) == ls,
            ls == split_lines(content@),
            i <= lines@.len(),
            forall|q: int| 0 <= q < i ==> {
                &&& escapes_fit(encode_utf8(mount_field(#[trigger] ls[q], 1)))
                &&& devices ==> escapes_fit(encode_utf8(mount_field(ls[q], 0)))
            },
        decreases lines@.len() - i,
    {
        let line = &lines[i];
        assert(ls[i as int] == line@);
        let ws = words_of(line);
        let mp = field_of(&ws, 1);
        let mp_s = string_from_chars(mp.as_slice());
        if !escapes_fit_bytes(mp_s.as_str().as_bytes()) {
            return false;
        }
        if devices {
            let dev = field_of(&ws, 0);
            let dev_s = string_from_chars(dev.as_slice());
            if !escapes_fit_bytes(dev_s.as_str().as_bytes()) {
                return false;
            }
        }
        i = i + 1;
    }
    true
}

/// A network share (filesystem type cifs, nfs or nfs4) mounted at an
/// absolute path that is not `/boot/efi` or a snap directory is a drive,
/// whatever its device field: the drive is its mount point, with the
/// filesystem type as kind.
pub proof fn lemma_network_share_is_drive(line: Seq<char>)
    requires
        mount_field(line, 2) == "cifs"@ || mount_field(line, 2) == "nfs"@ || mount_field(line, 2) == "nfs4"@,
        starts_with(decoded_field(line, 1), "/"@),
        decoded_field(line, 1) != "/boot/efi"@,
        !starts_with(decoded_field(line, 1), "/snap"@),
        !starts_with(decoded_field(line, 1), "/var/lib/snapd"@),
    ensures
        drive_of_line(line) == Some((decoded_field(line, 1), mount_field(line, 2))),
{
    reveal_strlit("cifs");
    reveal_strlit("nfs");
    reveal_strlit("nfs4");
    reveal_strlit("squashfs");
    reveal_strlit("iso9660");
    reveal_strlit("udf");
    reveal_strlit("fuse");
    let f = mount_field(line, 2);
    assert(!starts_with(f, "fuse"@)) by {
        if starts_with(f, "fuse"@) {
            assert(f.take(4)[0] == f[0]);
            assert("fuse"@[0] == 'f');
        }
    }
    assert(f != "squashfs"@ && f != "iso9660"@ && f != "udf"@) by {
        if f == "squashfs"@ {
            assert(f.len() == 8);
        }
        if f == "iso9660"@ {
            assert(f.len() == 7);
        }
        if f == "udf"@ {
            assert(f[0] == 'u');
        }
    }
    assert(f.len() != 0);
}

proof fn lemma_collect_has(c: Seq<Option<(Seq<char>, Seq<char>)>>, i: int)
    requires
        0 <= i < c.len(),
        c[i] is Some,
    ensures
        has_letter(collect_drives(c), c[i].unwrap().0),
    decreases c.len(),
{
    let d = collect_drives(c.drop_last());
    let x = c[i].unwrap();
    if i < c.len() - 1 {
        assert(c.drop_last()[i] == c[i]);
        lemma_collect_has(c.drop_last(), i);
        let j = choose|j: int| 0 <= j < d.len() && d[j].0 == x.0;
        match c.last() {
            Some(y) => {
                if !has_letter(d, y.0) {
                    assert(d.push(y)[j] == d[j]);
                }
            },
            None => {},
        }
    } else {
        if !has_letter(d, x.0) {
            assert(d.push(x)[d.len() as int] == x);
        }
    }
}

/// Every line of a mount table that stands for a drive puts its mount point
/// among the drives listed (once, the first such line giving the kind).
pub proof fn lemma_drive_line_listed(content: Seq<char>, i: int)
    requires
        0 <= i < split_lines(content).len(),
        drive_of_line(split_lines(content)[i]) is Some,
    ensures
        has_letter(drives_spec(content), drive_of_line(split_lines(content)[i]).unwrap().0),
{
    let lines = split_lines(content);
    let c = Seq::new(lines.len(), |k: int| drive_of_line(lines[k]));
    assert(c[i] == drive_of_line(lines[i]));
    lemma_collect_has(c, i);
}

} // verus!
