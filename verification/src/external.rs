//! Where a file path points: a network share or a local drive. Files on a share are
//! copied to a local cache before they are dragged or copied to the clipboard.

use vstd::prelude::*;
use vstd::string::StringSliceAdditionalSpecFns;

verus! {

/// A path's bytes with every `/` read as `\`.
pub open spec fn backslashed(b: Seq<u8>) -> Seq<u8> {
    b.map_values(|c: u8| if c == 0x2f { 0x5cu8 } else { c })
}

/// `b` starts with the bytes of `p`.
pub open spec fn starts_with(b: Seq<u8>, p: Seq<u8>) -> bool {
    p.len() <= b.len() && b.take(p.len() as int) == p
}

/// An ASCII letter.
pub open spec fn is_ascii_letter(c: u8) -> bool {
    (0x41 <= c <= 0x5a) || (0x61 <= c <= 0x7a)
}

/// The drive letter `b` begins with, as in `C:`.
pub open spec fn drive_letter(b: Seq<u8>) -> Option<u8> {
    if b.len() >= 2 && b[1] == 0x3a && is_ascii_letter(b[0]) {
        Some(b[0])
    } else {
        None
    }
}

/// Where a path points, before asking the system about drive letters.
#[derive(PartialEq, Eq, Structural, Clone, Copy, Debug)]
pub enum PathLocation {
    /// A UNC path (`\\server\share`, `\\?\UNC\server\share`): a network share.
    Share,
    /// A path on the drive with this letter, remote or not as the system says.
    Drive(u8),
    /// Anything else: local.
    Local,
}

/// The location of a path given by its bytes, `/` and `\` alike.
pub open spec fn location_of(path: Seq<u8>) -> PathLocation {
    let s = backslashed(path);
    let ext = seq![0x5cu8, 0x5cu8, 0x3fu8, 0x5cu8];
    if starts_with(s, ext) {
        let rest = s.skip(4);
        if starts_with(rest, seq![0x55u8, 0x4eu8, 0x43u8, 0x5cu8]) {
            PathLocation::Share
        } else {
            match drive_letter(rest) {
                Some(d) => PathLocation::Drive(d),
                None => PathLocation::Local,
            }
        }
    } else if starts_with(s, seq![0x5cu8, 0x5cu8]) {
        PathLocation::Share
    } else {
        match drive_letter(s) {
            Some(d) => PathLocation::Drive(d),
            None => PathLocation::Local,
        }
    }
}

fn is_sep(c: u8) -> (r: bool)
    ensures
        r == (c == 0x2f || c == 0x5c),
{
    c == 0x2f || c == 0x5c
}

fn is_letter(c: u8) -> (r: bool)
    ensures
        r == is_ascii_letter(c),
{
    (0x41 <= c && c <= 0x5a) || (0x61 <= c && c <= 0x7a)
}

/// The upper-case form of an ASCII letter; other bytes are left as they are.
pub open spec fn ascii_upper(c: u8) -> u8 {
    if 0x61 <= c <= 0x7a {
        (c - 0x20) as u8
    } else {
        c
    }
}

/// Classifies a path as a network share, a path on a drive, or a local path.
pub fn classify_path(path: &str) -> (r: PathLocation)
    ensures
        r == location_of(path.spec_bytes()),
{
    let b = path.as_bytes();
    let n = b.len();
    let ghost s = backslashed(b@);
    let ghost ext = seq![0x5cu8, 0x5cu8, 0x3fu8, 0x5cu8];
    let ghost unc = seq![0x55u8, 0x4eu8, 0x43u8, 0x5cu8];
    let ghost two = seq![0x5cu8, 0x5cu8];
    proof {
        assert(s.len() == n);
    }
    if n >= 4 && is_sep(b[0]) && is_sep(b[1]) && b[2] == 0x3f && is_sep(b[3]) {
        proof {
            assert(s.take(4) =~= ext);
        }
        let ghost rest = s.skip(4);
        if n >= 8 && b[4] == 0x55 && b[5] == 0x4e && b[6] == 0x43 && is_sep(b[7]) {
            proof {
                assert(rest.take(4) =~= unc);
            }
            PathLocation::Share
        } else {
            proof {
                if starts_with(rest, unc) {
                    assert(rest[0] == unc[0] && rest[1] == unc[1] && rest[2] == unc[2] && rest[3] == unc[3]);
                }
            }
            if n >= 6 && b[5] == 0x3a && is_letter(b[4]) {
                PathLocation::Drive(b[4])
            } else {
                PathLocation::Local
            }
        }
    } else {
        proof {
            if starts_with(s, ext) {
                assert(s[0] == ext[0] && s[1] == ext[1] && s[2] == ext[2] && s[3] == ext[3]);
            }
        }
        if n >= 2 && is_sep(b[0]) && is_sep(b[1]) {
            proof {
                assert(s.take(2) =~= two);
            }
            PathLocation::Share
        } else {
            proof {
                if starts_with(s, two) {
                    assert(s[0] == two[0] && s[1] == two[1]);
                }
            }
            if n >= 2 && b[1] == 0x3a && is_letter(b[0]) {
                PathLocation::Drive(b[0])
            } else {
                PathLocation::Local
            }
        }
    }
}

/// Whether a path lies on a network share: a UNC path, or a path on one of
/// `remote_drives` (upper-case drive letters the system reports as remote).
pub fn is_network_path(path: &str, remote_drives: &Vec<u8>) -> (r: bool)
    ensures
        r == match location_of(path.spec_bytes()) {
            PathLocation::Share => true,
            PathLocation::Drive(d) => remote_drives@.contains(ascii_upper(d)),
            PathLocation::Local => false,
        },
{
    let loc = classify_path(path);
    match loc {
        PathLocation::Share => true,
        PathLocation::Local => false,
        PathLocation::Drive(d) => {
            let up: u8 = if 0x61 <= d && d <= 0x7a { d - 0x20 } else { d };
            assert(up == ascii_upper(d));
            let mut i: usize = 0;
            while i < remote_drives.len()
                invariant
                    i <= remote_drives@.len(),
                    up == ascii_upper(d),
                    loc == location_of(path.spec_bytes()),
                    loc == PathLocation::Drive(d),
                    forall|t: int| 0 <= t < i ==> remote_drives@[t] != up,
                decreases remote_drives@.len() - i,
            {
                if remote_drives[i] == up {
                    proof {
                        assert(up == ascii_upper(d));
                        assert(remote_drives@[i as int] == ascii_upper(d));
                    }
                    return true;
                }
                i = i + 1;
            }
            false
        },
    }
}

} // verus!
