//! Path text handling for scan targets: normalisation of drive paths,
//! volume roots and the Linux pseudo filesystems that are never scanned.

use vstd::prelude::*;
use crate::models::ScannerError;
use crate::text::{chars_of, string_from_chars, trim_chars, trim_spec, chars_equal};
use crate::platform::main_separator;

verus! {

/// Index of the first `c` in `s`, or -1.
pub open spec fn first_index(s: Seq<char>, c: char) -> int
    decreases s.len(),
{
    if s.len() == 0 {
        -1
    } else if s[0] == c {
        0
    } else {
        let r = first_index(s.drop_first(), c);
        if r < 0 { -1 } else { r + 1 }
    }
}

proof fn lemma_first_index(s: Seq<char>, c: char)
    ensures
        -1 <= first_index(s, c) < s.len(),
        first_index(s, c) >= 0 ==> s[first_index(s, c)] == c,
        forall|j: int| 0 <= j < s.len() && (first_index(s, c) < 0 || j < first_index(s, c)) ==> s[j] != c,
    decreases s.len(),
{
    if s.len() > 0 {
        lemma_first_index(s.drop_first(), c);
        assert forall|j: int| 0 <= j < s.len() && (first_index(s, c) < 0 || j < first_index(s, c)) implies s[j] != c by {
            if j > 0 {
                assert(s[j] == s.drop_first()[j - 1]);
            }
        }
    }
}

/// Position of the first `c` in `s`.
pub(crate) fn find_char(s: &Vec<char>, c: char) -> (r: Option<usize>)
    ensures
        match r {
            Some(i) => i as int == first_index(s@, c) && i < s@.len() && s@[i as int] == c,
            None => first_index(s@, c) < 0,
        },
{
    proof {
        lemma_first_index(s@, c);
    }
    let mut i: usize = 0;
    while i < s.len()
        invariant
            i <= s@.len(),
            forall|j: int| 0 <= j < i ==> s@[j] != c,
            -1 <= first_index(s@, c) < s@.len(),
            first_index(s@, c) >= 0 ==> s@[first_index(s@, c)] == c,
            forall|j: int| 0 <= j < s@.len() && (first_index(s@, c) < 0 || j < first_index(s@, c)) ==> s@[j] != c,
        decreases s@.len() - i,
    {
        if s[i] == c {
            return Some(i);
        }
        i = i + 1;
    }
    None
}

/// A drive path trimmed, with a bare drive ("C:") turned into the drive's
/// root ("C:\"): the path ends with its first colon.
pub open spec fn normalized_spec(s: Seq<char>) -> Seq<char> {
    let t = trim_spec(s);
    if t.len() > 0 && first_index(t, ':') == t.len() - 1 { t.push('\\') } else { t }
}

/// Normalises a drive path given by the user (see `normalized_spec`), so that
/// "C:" scans the whole volume rather than the drive's working directory.
pub fn normalize_drive_path(drive_path: &str) -> (r: String)
    ensures
        r@ == normalized_spec(drive_path@),
{
    let c = chars_of(drive_path);
    let mut t = trim_chars(&c);
    match find_char(&t, ':') {
        Some(idx) => {
            if idx == t.len() - 1 {
                t.push('\\');
            }
        },
        None => {},
    }
    string_from_chars(t.as_slice())
}

/// The volume root of a drive-ish Windows path: everything before the first
/// colon followed by `:\` ("C:\foo" gives "C:\"); the path itself when it has
/// no colon.
pub open spec fn windows_volume_root(s: Seq<char>) -> Seq<char> {
    let i = first_index(s, ':');
    if i >= 0 { s.take(i) + ":\\"@ } else { s }
}

/// The volume root of a path: on Windows (`windows`) see
/// `windows_volume_root`; elsewhere paths already are mount points and are
/// kept.
pub open spec fn volume_root_spec(s: Seq<char>, windows: bool) -> Seq<char> {
    if windows { windows_volume_root(s) } else { s }
}

/// The volume root of `path` for the given platform (see `volume_root_spec`).
pub fn volume_root_for(path: &str, windows: bool) -> (r: String)
    ensures
        r@ == volume_root_spec(path@, windows),
{
    if !windows {
        return String::from_str(path);
    }
    let c = chars_of(path);
    match find_char(&c, ':') {
        Some(idx) => {
            let mut head: Vec<char> = Vec::new();
            let mut j: usize = 0;
            while j < idx
                invariant
                    j <= idx < c@.len(),
                    head@ == c@.take(j as int),
                decreases idx - j,
            {
                head.push(c[j]);
                assert(head@ =~= c@.take(j + 1));
                j = j + 1;
            }
            let mut r = string_from_chars(head.as_slice());
            r.append(":\\");
            r
        },
        None => String::from_str(path),
    }
}

/// The volume root of `path` on this platform (see `volume_root_spec`).
pub fn volume_root(path: &str) -> (r: String)
    ensures
        exists|windows: bool| r@ == volume_root_spec(path@, windows),
{
    let windows = main_separator() == '\\';
    volume_root_for(path, windows)
}

/// Leading `/` characters of `s` removed.
pub open spec fn skip_slashes(s: Seq<char>) -> Seq<char>
    decreases s.len(),
{
    if s.len() > 0 && s[0] == '/' { skip_slashes(s.drop_first()) } else { s }
}

/// Length of the text of `s` before its first `/`.
pub open spec fn segment_len(s: Seq<char>) -> nat
    decreases s.len(),
{
    if s.len() == 0 || s[0] == '/' { 0 } else { 1 + segment_len(s.drop_first()) }
}

pub proof fn lemma_skip_slashes_len(s: Seq<char>)
    ensures
        skip_slashes(s).len() <= s.len(),
    decreases s.len(),
{
    if s.len() > 0 && s[0] == '/' {
        lemma_skip_slashes_len(s.drop_first());
    }
}

/// The first component of a path below its root, as `Path::components`
/// yields it: empty and "." components are skipped; empty when there is none.
pub open spec fn first_component(s: Seq<char>) -> Seq<char>
    decreases s.len(),
{
    let t = skip_slashes(s);
    if t.len() == 0 {
        t
    } else {
        proof {
            lemma_skip_slashes_len(s);
        }
        let n = segment_len(t);
        if n == 1 && t[0] == '.' {
            first_component(t.drop_first())
        } else {
            t.take(n as int)
        }
    }
}

/// Paths under the Linux pseudo filesystems `/proc`, `/sys`, `/dev` and
/// `/run` (compared component-wise, as `Path::starts_with` does).
pub open spec fn is_pseudo_fs_spec(s: Seq<char>) -> bool {
    let c = first_component(s);
    s.len() > 0 && s[0] == '/' && (c == "proc"@ || c == "sys"@ || c == "dev"@ || c == "run"@)
}

proof fn lemma_skip_slashes(s: Seq<char>, i: int)
    requires
        0 <= i <= s.len(),
        forall|j: int| 0 <= j < i ==> s[j] == '/',
    ensures
        skip_slashes(s) == skip_slashes(s.skip(i)),
    decreases i,
{
    if i > 0 {
        assert(s.drop_first().skip(i - 1) =~= s.skip(i));
        lemma_skip_slashes(s.drop_first(), i - 1);
    } else {
        assert(s.skip(0) =~= s);
    }
}

proof fn lemma_segment_len(s: Seq<char>, i: int)
    requires
        0 <= i <= s.len(),
        forall|j: int| 0 <= j < i ==> s[j] != '/',
        i == s.len() || s[i] == '/',
    ensures
        segment_len(s) == i,
    decreases i,
{
    if i > 0 {
        lemma_segment_len(s.drop_first(), i - 1);
    }
}

/// Whether `path` lies in a Linux pseudo filesystem (see `is_pseudo_fs_spec`).
pub fn is_linux_pseudo_fs(path: &str) -> (r: bool)
    ensures
        r == is_pseudo_fs_spec(path@),
{
    let s = chars_of(path);
    if s.len() == 0 || s[0] != '/' {
        return false;
    }
    let n = s.len();
    let mut i: usize = 0;
    assert(s@.skip(0) =~= s@);
    loop
        invariant
            i <= n == s@.len(),
            n > 0,
            s@ == path@,
            s@[0] == '/',
            first_component(s@) == first_component(s@.skip(i as int)),
        decreases n - i,
    {
        let start = i;
        while i < n && s[i] == '/'
            invariant
                start <= i <= n == s@.len(),
                forall|j: int| start <= j < i ==> s@[j] == '/',
            decreases n - i,
        {
            i = i + 1;
        }
        proof {
            let u = s@.skip(start as int);
            lemma_skip_slashes(u, i - start);
            assert(u.skip(i - start) =~= s@.skip(i as int));
            assert(skip_slashes(s@.skip(i as int)) == s@.skip(i as int));
        }
        if i == n {
            proof {
                reveal_strlit("proc");
                reveal_strlit("sys");
                reveal_strlit("dev");
                reveal_strlit("run");
            }
            assert(s@.skip(i as int).len() == 0);
            assert(first_component(s@.skip(start as int)).len() == 0);
            return false;
        }
        assert(skip_slashes(s@.skip(start as int)) == s@.skip(i as int));
        let seg_start = i;
        while i < n && s[i] != '/'
            invariant
                seg_start <= i <= n == s@.len(),
                forall|j: int| seg_start <= j < i ==> s@[j] != '/',
            decreases n - i,
        {
            i = i + 1;
        }
        let ghost t = s@.skip(seg_start as int);
        proof {
            lemma_segment_len(t, i - seg_start);
        }
        let mut seg: Vec<char> = Vec::new();
        let mut k: usize = seg_start;
        while k < i
            invariant
                seg_start <= k <= i <= n == s@.len(),
                seg@ == s@.subrange(seg_start as int, k as int),
            decreases i - k,
        {
            seg.push(s[k]);
            assert(seg@ =~= s@.subrange(seg_start as int, k + 1));
            k = k + 1;
        }
        assert(seg@ =~= t.take(segment_len(t) as int));
        assert(t.len() > 0);
        assert(t[0] == s@[seg_start as int]);
        if i - seg_start == 1 && s[seg_start] == '.' {
            assert(t.drop_first() =~= s@.skip(seg_start + 1));
            i = seg_start + 1;
        } else {
            assert(first_component(s@) == seg@);
            return chars_equal(&seg, &chars_of("proc")) || chars_equal(&seg, &chars_of("sys"))
                || chars_equal(&seg, &chars_of("dev")) || chars_equal(&seg, &chars_of("run"));
        }
    }
}

/// The error message for a scan target that does not exist.
pub open spec fn missing_message(drive_path: Seq<char>) -> Seq<char> {
    "path does not exist: "@ + drive_path
}

/// The error message for a scan target inside a pseudo filesystem.
pub open spec fn pseudo_message(drive_path: Seq<char>) -> Seq<char> {
    "refusing to scan pseudo filesystem: "@ + drive_path
}

/// Decides whether a scan may start. `normalized` is `drive_path` after
/// `normalize_drive_path`, `exists` whether it exists on disk, `linux`
/// whether the platform is Linux. A missing path is refused first, then (on
/// Linux) a pseudo filesystem; both errors quote `drive_path` as given.
pub fn check_scan_target(drive_path: &str, normalized: &str, exists: bool, linux: bool) -> (r: Result<(), ScannerError>)
    ensures
        !exists ==> (r matches Err(ScannerError::Msg(m)) && m@ == missing_message(drive_path@)),
        exists && linux && is_pseudo_fs_spec(normalized@) ==> (r matches Err(ScannerError::Msg(m)) && m@
            == pseudo_message(drive_path@)),
        exists && !(linux && is_pseudo_fs_spec(normalized@)) ==> r is Ok,
{
    if !exists {
        let mut m = String::from_str("path does not exist: ");
        m.append(drive_path);
        return Err(ScannerError::Msg(m));
    }
    if linux && is_linux_pseudo_fs(normalized) {
        let mut m = String::from_str("refusing to scan pseudo filesystem: ");
        m.append(drive_path);
        return Err(ScannerError::Msg(m));
    }
    Ok(())
}

} // verus!
