//! Which release of the `uv` tool to download for this machine, from where, and which
//! file of the downloaded archive is the program.

use vstd::prelude::*;
use crate::text::{chars_of, str_eq, contains_part, part_at, contains_chars};

verus! {

/// The pinned `uv` release.
pub open spec fn uv_version() -> Seq<char> {
    seq!['0', '.', '6', '.', '1', '4']
}

/// The release build for an operating system and processor, as std names them
/// (`std::env::consts::OS`, `std::env::consts::ARCH`): (processor, platform, archive
/// extension). Only Windows on x86-64, macOS on both processors and Linux on both have
/// builds.
pub open spec fn platform_of(os: Seq<char>, arch: Seq<char>) -> Option<(Seq<char>, Seq<char>, Seq<char>)> {
    let x86 = seq!['x', '8', '6', '_', '6', '4'];
    let arm = seq!['a', 'a', 'r', 'c', 'h', '6', '4'];
    let tgz = seq!['t', 'a', 'r', '.', 'g', 'z'];
    if os == seq!['w', 'i', 'n', 'd', 'o', 'w', 's'] && arch == x86 {
        Some((x86, seq!['p', 'c', '-', 'w', 'i', 'n', 'd', 'o', 'w', 's', '-', 'm', 's', 'v', 'c'], seq!['z', 'i', 'p']))
    } else if os == seq!['m', 'a', 'c', 'o', 's'] && (arch == arm || arch == x86) {
        Some((arch, seq!['a', 'p', 'p', 'l', 'e', '-', 'd', 'a', 'r', 'w', 'i', 'n'], tgz))
    } else if os == seq!['l', 'i', 'n', 'u', 'x'] && (arch == arm || arch == x86) {
        Some((arch, seq!['u', 'n', 'k', 'n', 'o', 'w', 'n', '-', 'l', 'i', 'n', 'u', 'x', '-', 'g', 'n', 'u'], tgz))
    } else {
        None
    }
}

/// The release build of `uv` for `os` and `arch`: (processor, platform, archive
/// extension), or `None` where no build exists.
pub fn platform_triple(os: &str, arch: &str) -> (r: Option<(&'static str, &'static str, &'static str)>)
    ensures
        match platform_of(os@, arch@) {
            Some((a, p, e)) => r matches Some((ra, rp, re)) && ra@ == a && rp@ == p && re@ == e,
            None => r is None,
        },
{
    let windows_s = "windows";
    let macos_s = "macos";
    let linux_s = "linux";
    let x86_s = "x86_64";
    let arm_s = "aarch64";
    let msvc_s = "pc-windows-msvc";
    let darwin_s = "apple-darwin";
    let gnu_s = "unknown-linux-gnu";
    let zip_s = "zip";
    let tgz_s = "tar.gz";
    proof {
        reveal_strlit("windows");
        reveal_strlit("macos");
        reveal_strlit("linux");
        reveal_strlit("x86_64");
        reveal_strlit("aarch64");
        reveal_strlit("pc-windows-msvc");
        reveal_strlit("apple-darwin");
        reveal_strlit("unknown-linux-gnu");
        reveal_strlit("zip");
        reveal_strlit("tar.gz");
        assert(windows_s@ =~= seq!['w', 'i', 'n', 'd', 'o', 'w', 's']);
        assert(macos_s@ =~= seq!['m', 'a', 'c', 'o', 's']);
        assert(linux_s@ =~= seq!['l', 'i', 'n', 'u', 'x']);
        assert(x86_s@ =~= seq!['x', '8', '6', '_', '6', '4']);
        assert(arm_s@ =~= seq!['a', 'a', 'r', 'c', 'h', '6', '4']);
        assert(msvc_s@ =~= seq!['p', 'c', '-', 'w', 'i', 'n', 'd', 'o', 'w', 's', '-', 'm', 's', 'v', 'c']);
        assert(darwin_s@ =~= seq!['a', 'p', 'p', 'l', 'e', '-', 'd', 'a', 'r', 'w', 'i', 'n']);
        assert(gnu_s@ =~= seq!['u', 'n', 'k', 'n', 'o', 'w', 'n', '-', 'l', 'i', 'n', 'u', 'x', '-', 'g', 'n', 'u']);
        assert(zip_s@ =~= seq!['z', 'i', 'p']);
        assert(tgz_s@ =~= seq!['t', 'a', 'r', '.', 'g', 'z']);
    }
    let x86 = str_eq(arch, x86_s);
    let arm = str_eq(arch, arm_s);
    if str_eq(os, windows_s) && x86 {
        Some((x86_s, msvc_s, zip_s))
    } else if str_eq(os, macos_s) && (x86 || arm) {
        if x86 {
            Some((x86_s, darwin_s, tgz_s))
        } else {
            Some((arm_s, darwin_s, tgz_s))
        }
    } else if str_eq(os, linux_s) && (x86 || arm) {
        if x86 {
            Some((x86_s, gnu_s, tgz_s))
        } else {
            Some((arm_s, gnu_s, tgz_s))
        }
    } else {
        None
    }
}

/// The download address of the pinned release for a build.
pub open spec fn release_url(arch: Seq<char>, platform: Seq<char>, ext: Seq<char>) -> Seq<char> {
    seq!['h', 't', 't', 'p', 's', ':', '/', '/', 'g', 'i', 't', 'h', 'u', 'b', '.', 'c', 'o', 'm', '/',
        'a', 's', 't', 'r', 'a', 'l', '-', 's', 'h', '/', 'u', 'v', '/', 'r', 'e', 'l', 'e', 'a', 's', 'e',
        's', '/', 'd', 'o', 'w', 'n', 'l', 'o', 'a', 'd', '/'] + uv_version() + seq!['/', 'u', 'v', '-']
        + arch + seq!['-'] + platform + seq!['.'] + ext
}

/// Where to download the pinned `uv` release for a build:
/// `https://github.com/astral-sh/uv/releases/download/<version>/uv-<arch>-<platform>.<ext>`.
pub fn download_url(arch: &str, platform: &str, ext: &str) -> (r: String)
    ensures
        r@ == release_url(arch@, platform@, ext@),
{
    let base = "https://github.com/astral-sh/uv/releases/download/";
    let version = "0.6.14";
    let name = "/uv-";
    let dash = "-";
    let dot = ".";
    proof {
        reveal_strlit("https://github.com/astral-sh/uv/releases/download/");
        reveal_strlit("0.6.14");
        reveal_strlit("/uv-");
        reveal_strlit("-");
        reveal_strlit(".");
    }
    let r = String::from_str(base).concat(version).concat(name).concat(arch).concat(dash).concat(platform).concat(
        dot,
    ).concat(ext);
    proof {
        assert(r@ =~= release_url(arch@, platform@, ext@));
    }
    r
}

/// The two kinds of release archive.
pub enum UvArchive {
    Zip,
    TarGz,
}

/// The kind of a release archive from its extension; any extension other than `zip`
/// and `tar.gz` is refused with "Unsupported archive format: <ext>".
pub fn uv_archive_kind(ext: &str) -> (r: Result<UvArchive, String>)
    ensures
        ext@ == seq!['z', 'i', 'p'] ==> r matches Ok(UvArchive::Zip),
        ext@ == seq!['t', 'a', 'r', '.', 'g', 'z'] ==> r matches Ok(UvArchive::TarGz),
        ext@ != seq!['z', 'i', 'p'] && ext@ != seq!['t', 'a', 'r', '.', 'g', 'z'] ==> (r matches Err(m)
            && m@ == seq!['U', 'n', 's', 'u', 'p', 'p', 'o', 'r', 't', 'e', 'd', ' ', 'a', 'r', 'c', 'h', 'i',
            'v', 'e', ' ', 'f', 'o', 'r', 'm', 'a', 't', ':', ' '] + ext@),
{
    let zip_s = "zip";
    let tgz_s = "tar.gz";
    let msg = "Unsupported archive format: ";
    proof {
        reveal_strlit("zip");
        reveal_strlit("tar.gz");
        reveal_strlit("Unsupported archive format: ");
        assert(zip_s@ =~= seq!['z', 'i', 'p']);
        assert(tgz_s@ =~= seq!['t', 'a', 'r', '.', 'g', 'z']);
    }
    if str_eq(ext, zip_s) {
        Ok(UvArchive::Zip)
    } else if str_eq(ext, tgz_s) {
        Ok(UvArchive::TarGz)
    } else {
        Err(String::from_str(msg).concat(ext))
    }
}

/// `s` ends with `suffix`.
pub open spec fn ends_with(s: Seq<char>, suffix: Seq<char>) -> bool {
    s.len() >= suffix.len() && s.subrange(s.len() - suffix.len(), s.len() as int) == suffix
}

/// The program's file name inside the archive: `uv.exe` on Windows, `uv` elsewhere.
pub open spec fn uv_program(windows: bool) -> Seq<char> {
    if windows {
        seq!['u', 'v', '.', 'e', 'x', 'e']
    } else {
        seq!['u', 'v']
    }
}

/// The program's name inside a ZIP release: an entry ending with the program's file
/// name that is not the companion `uvx` tool.
pub open spec fn is_uv_zip_entry(name: Seq<char>, windows: bool) -> bool {
    ends_with(name, uv_program(windows)) && !contains_part(name, seq!['u', 'v', 'x'])
}

/// Whether `name` is the program's entry in a ZIP release.
pub fn is_uv_entry(name: &str, windows: bool) -> (r: bool)
    ensures
        r == is_uv_zip_entry(name@, windows),
{
    let chars = chars_of(name);
    let prog = if windows {
        vec!['u', 'v', '.', 'e', 'x', 'e']
    } else {
        vec!['u', 'v']
    };
    assert(prog@ =~= uv_program(windows));
    if prog.len() > chars.len() {
        return false;
    }
    if !part_at(&chars, chars.len() - prog.len(), &prog) {
        return false;
    }
    let uvx = vec!['u', 'v', 'x'];
    assert(uvx@ =~= seq!['u', 'v', 'x']);
    !contains_chars(&chars, &uvx)
}

/// The index of the program's entry among the names of a ZIP release's entries, in
/// directory order: the first that `is_uv_entry` accepts.
pub fn find_uv_entry(names: &Vec<String>, windows: bool) -> (r: Option<usize>)
    ensures
        match r {
            Some(i) => i < names@.len() && is_uv_zip_entry(names@[i as int]@, windows) && forall|j: int|
                0 <= j < i ==> !is_uv_zip_entry(#[trigger] names@[j]@, windows),
            None => forall|j: int| 0 <= j < names@.len() ==> !is_uv_zip_entry(#[trigger] names@[j]@, windows),
        },
{
    let mut i: usize = 0;
    while i < names.len()
        invariant
            i <= names@.len(),
            forall|j: int| 0 <= j < i ==> !is_uv_zip_entry(#[trigger] names@[j]@, windows),
        decreases names@.len() - i,
    {
        if is_uv_entry(names[i].as_str(), windows) {
            return Some(i);
        }
        i = i + 1;
    }
    None
}

/// Whether a file name in a tar release is the program (`uv`, not `uvx`).
pub fn is_uv_tar_file(file_name: &str) -> (r: bool)
    ensures
        r == (file_name@ == seq!['u', 'v']),
{
    let uv = "uv";
    proof {
        reveal_strlit("uv");
        assert(uv@ =~= seq!['u', 'v']);
    }
    str_eq(file_name, uv)
}

} // verus!
