//! The file list put on the Windows clipboard when assets are copied: a `DROPFILES`
//! header followed by the paths in UTF-16, as Explorer's own Ctrl+C leaves it.

use vstd::prelude::*;
use crate::grouping::names_view;
use crate::text::chars_of;

verus! {

/// Size of the Win32 `DROPFILES` header: `pFiles` (4 bytes), `pt` (two 4-byte
/// coordinates), `fNC` (4 bytes), `fWide` (4 bytes).
pub const DROPFILES_SIZE: usize = 20;

/// Offset of `fWide` in the header.
pub const FWIDE_OFFSET: usize = 16;

/// The UTF-16 code units of one character.
pub open spec fn utf16_units(c: char) -> Seq<u16> {
    let v = c as u32;
    if v < 0x10000 {
        seq![v as u16]
    } else {
        seq![(0xD800 + (v - 0x10000) / 1024) as u16, (0xDC00 + (v - 0x10000) % 1024) as u16]
    }
}

/// The UTF-16 encoding of `s`.
pub open spec fn utf16(s: Seq<char>) -> Seq<u16>
    decreases s.len(),
{
    if s.len() == 0 {
        Seq::empty()
    } else {
        utf16(s.drop_last()) + utf16_units(s.last())
    }
}

/// The little-endian bytes of UTF-16 code units.
pub open spec fn le_bytes(us: Seq<u16>) -> Seq<u8>
    decreases us.len(),
{
    if us.len() == 0 {
        Seq::empty()
    } else {
        le_bytes(us.drop_last()) + seq![(us.last() % 256) as u8, (us.last() / 256) as u8]
    }
}

/// `s` with `/` turned into `\`, which every paste target accepts.
pub open spec fn with_backslashes(s: Seq<char>) -> Seq<char> {
    s.map_values(|c: char| if c == '/' { '\\' } else { c })
}

/// The header: `pFiles` is the header's size (the file list follows it), `fWide` is 1
/// (the paths are UTF-16), everything else 0.
pub open spec fn dropfiles_header() -> Seq<u8> {
    seq![20u8, 0, 0, 0, 0, 0, 0, 0, 0, 0, 0, 0, 0, 0, 0, 0, 1, 0, 0, 0]
}

/// The file list: each path in UTF-16 with a terminating NUL, little-endian.
pub open spec fn file_list(paths: Seq<Seq<char>>) -> Seq<u8>
    decreases paths.len(),
{
    if paths.len() == 0 {
        Seq::empty()
    } else {
        file_list(paths.drop_last()) + le_bytes(utf16(with_backslashes(paths.last())).push(0u16))
    }
}

/// The whole clipboard block: header, file list, and a final NUL that ends the list.
pub open spec fn hdrop(paths: Seq<Seq<char>>) -> Seq<u8> {
    dropfiles_header() + file_list(paths) + seq![0u8, 0u8]
}

/// Appends the little-endian bytes of one code unit.
fn push_unit(out: &mut Vec<u8>, u: u32)
    requires
        u < 0x10000,
    ensures
        final(out)@ == old(out)@ + seq![((u as u16) % 256) as u8, ((u as u16) / 256) as u8],
{
    out.push((u % 256) as u8);
    out.push((u / 256) as u8);
}

/// Appends one path, with `\` separators, in UTF-16 and NUL-terminated.
fn push_path(out: &mut Vec<u8>, path: &str)
    ensures
        final(out)@ == old(out)@ + le_bytes(utf16(with_backslashes(path@)).push(0u16)),
{
    let chars = chars_of(path);
    let ghost w = with_backslashes(path@);
    let mut i: usize = 0;
    while i < chars.len()
        invariant
            chars@ == path@,
            w == with_backslashes(path@),
            i <= chars@.len(),
            out@ == old(out)@ + le_bytes(utf16(w.take(i as int))),
        decreases chars@.len() - i,
    {
        let c0 = chars[i];
        let c = if c0 == '/' {
            '\\'
        } else {
            c0
        };
        let v = c as u32;
        let ghost t = w.take(i + 1);
        let ghost base = utf16(w.take(i as int));
        proof {
            vstd::utf8::char_is_scalar(c);
            assert(w[i as int] == c);
            assert(t.drop_last() =~= w.take(i as int));
            assert(t.last() == c);
        }
        if v < 0x10000 {
            push_unit(out, v);
            proof {
                let u = utf16(t);
                assert(u =~= base.push(v as u16));
                assert(u.drop_last() =~= base);
                assert(le_bytes(u) == le_bytes(base) + seq![((v as u16) % 256) as u8, ((v as u16) / 256) as u8]);
            }
        } else {
            let hi = 0xD800 + (v - 0x10000) / 1024;
            let lo = 0xDC00 + (v - 0x10000) % 1024;
            push_unit(out, hi);
            push_unit(out, lo);
            proof {
                let u = utf16(t);
                let mid = base.push(hi as u16);
                assert(u =~= mid.push(lo as u16));
                assert(u.drop_last() =~= mid);
                assert(mid.drop_last() =~= base);
                assert(le_bytes(mid) == le_bytes(base) + seq![((hi as u16) % 256) as u8, ((hi as u16) / 256) as u8]);
                assert(le_bytes(u) == le_bytes(mid) + seq![((lo as u16) % 256) as u8, ((lo as u16) / 256) as u8]);
            }
        }
        i = i + 1;
    }
    proof {
        assert(w.take(chars@.len() as int) =~= w);
        let u = utf16(w);
        assert(u.push(0u16).drop_last() =~= u);
        assert(le_bytes(u.push(0u16)) == le_bytes(u) + seq![((0u32 as u16) % 256) as u8, ((0u32 as u16) / 256) as u8]);
    }
    push_unit(out, 0);
}

/// The clipboard block for `paths`: the `DROPFILES` header, then each path (with `/`
/// written as `\`) in UTF-16 little-endian with a NUL after it, then a final NUL.
pub fn hdrop_bytes(paths: &Vec<String>) -> (r: Vec<u8>)
    ensures
        r@ == hdrop(names_view(paths@)),
{
    let mut out: Vec<u8> = Vec::new();
    let mut k: usize = 0;
    while k < DROPFILES_SIZE
        invariant
            k <= DROPFILES_SIZE,
            out@ == Seq::new(k as nat, |j: int| 0u8),
        decreases DROPFILES_SIZE - k,
    {
        out.push(0u8);
        assert(out@ =~= Seq::new((k + 1) as nat, |j: int| 0u8));
        k = k + 1;
    }
    out.set(0, DROPFILES_SIZE as u8);
    out.set(FWIDE_OFFSET, 1u8);
    assert(out@ =~= dropfiles_header());
    let mut i: usize = 0;
    while i < paths.len()
        invariant
            i <= paths@.len(),
            out@ == dropfiles_header() + file_list(names_view(paths@).take(i as int)),
        decreases paths@.len() - i,
    {
        let ghost before = out@;
        push_path(&mut out, paths[i].as_str());
        proof {
            let p = names_view(paths@).take(i + 1);
            assert(p.drop_last() =~= names_view(paths@).take(i as int));
            assert(p.last() == paths@[i as int]@);
            assert(out@ =~= dropfiles_header() + file_list(p));
        }
        i = i + 1;
    }
    proof {
        assert(names_view(paths@).take(i as int) =~= names_view(paths@));
    }
    out.push(0u8);
    out.push(0u8);
    assert(out@ =~= hdrop(names_view(paths@)));
    out
}

} // verus!
