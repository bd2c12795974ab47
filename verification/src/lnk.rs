//! Parser for Windows shell-link (`.lnk`) files: the fixed header, the optional
//! target ID list, and the LinkInfo block from which the link's target path is
//! read as a NUL-terminated code-page string; also a reader for NUL-terminated
//! UTF-16LE strings.
use vstd::prelude::*;
use vstd::utf8::{valid_utf8, decode_utf8};
use crate::text::opt_view;

verus! {

/// Little-endian 16-bit value stored at `o`.
pub open spec fn le_u16(d: Seq<u8>, o: int) -> int {
    d[o] + 256 * d[o + 1]
}

/// Little-endian 32-bit value stored at `o`.
pub open spec fn le_u32(d: Seq<u8>, o: int) -> int {
    d[o] + 256 * d[o + 1] + 65536 * d[o + 2] + 16777216 * d[o + 3]
}

/// Reads the little-endian `u32` at `offset`.
pub fn u32_from_le(data: &[u8], offset: usize) -> (res: u32)
    requires
        offset + 4 <= data@.len(),
    ensures
        res as int == le_u32(data@, offset as int),
{
    let b0 = data[offset] as u32;
    let b1 = data[offset + 1] as u32;
    let b2 = data[offset + 2] as u32;
    let b3 = data[offset + 3] as u32;
    b0 + b1 * 256 + b2 * 65536 + b3 * 16777216
}

/// Reads the little-endian `u16` at `offset`.
pub fn u16_from_le(data: &[u8], offset: usize) -> (res: u16)
    requires
        offset + 2 <= data@.len(),
    ensures
        res as int == le_u16(data@, offset as int),
{
    let b0 = data[offset] as u16;
    let b1 = data[offset + 1] as u16;
    b0 + b1 * 256
}

/// The characters that a UTF-16 code-unit sequence encodes: a unit outside
/// 0xD800..=0xDFFF is one character, a high surrogate (0xD800..=0xDBFF) followed
/// by a low surrogate (0xDC00..=0xDFFF) is one supplementary character, and any
/// other surrogate makes the sequence invalid (`None`).
pub open spec fn utf16_decode(u: Seq<u16>) -> Option<Seq<char>>
    decreases u.len(),
{
    if u.len() == 0 {
        Some(Seq::empty())
    } else if u[0] < 0xD800 || u[0] > 0xDFFF {
        match utf16_decode(u.drop_first()) {
            Some(rest) => Some(seq![u[0] as char] + rest),
            None => None,
        }
    } else if u[0] <= 0xDBFF && u.len() >= 2 && 0xDC00 <= u[1] && u[1] <= 0xDFFF {
        let c = (0x10000 + (u[0] - 0xD800) * 0x400 + (u[1] - 0xDC00)) as char;
        match utf16_decode(u.skip(2)) {
            Some(rest) => Some(seq![c] + rest),
            None => None,
        }
    } else {
        None
    }
}

/// Calls `String::from_utf16`, which decodes UTF-16 and fails on unpaired
/// surrogates; the contract states that decoding (`utf16_decode`).
#[verifier::external_body]
fn string_from_utf16(units: &[u16]) -> (res: Option<String>)
    ensures
        opt_view(res) == utf16_decode(units@),
{
    String::from_utf16(units).ok()
}

/// What `String::from_utf8_lossy` makes of a byte sequence.
pub uninterp spec fn utf8_lossy(bytes: Seq<u8>) -> Seq<char>;

/// Calls `String::from_utf8_lossy`. The result is named `utf8_lossy`; the
/// contract adds what its documentation promises: valid UTF-8 comes back
/// decoded unchanged (ASCII bytes become the characters of the same code),
/// and otherwise the valid sequences are decoded and each
/// invalid one becomes U+FFFD, so a non-empty input gives a non-empty string
/// and NUL-free input gives NUL-free output. Where exactly the replacement
/// characters fall is left unsaid.
#[verifier::external_body]
fn string_from_utf8_lossy(bytes: &[u8]) -> (res: String)
    ensures
        res@ == utf8_lossy(bytes@),
        valid_utf8(bytes@) ==> res@ == decode_utf8(bytes@),
        ascii_bytes(bytes@) ==> res@ == bytes@.map_values(|x: u8| x as char),
        bytes@.len() > 0 ==> res@.len() > 0,
        (forall|i: int| 0 <= i < bytes@.len() ==> bytes@[i] != 0u8) ==> (forall|j: int|
            0 <= j < res@.len() ==> res@[j] != '\0'),
{
    String::from_utf8_lossy(bytes).into_owned()
}

/// The index of the first NUL byte at or after `o`, or the length of `d`
/// when there is none (`o` itself when `o` is past the end).
pub open spec fn ansi_end(d: Seq<u8>, o: int) -> int
    decreases d.len() - o,
{
    if o >= d.len() || d[o] == 0 {
        o
    } else {
        ansi_end(d, o + 1)
    }
}

/// Every byte is an ASCII byte.
pub open spec fn ascii_bytes(b: Seq<u8>) -> bool {
    forall|i: int| 0 <= i < b.len() ==> b[i] < 0x80u8
}

/// The characters of a byte string decoded as `String::from_utf8_lossy` does:
/// ASCII bytes are the characters of the same code, other valid UTF-8 is
/// decoded, anything else is named `utf8_lossy`.
pub open spec fn lossy_decode(b: Seq<u8>) -> Seq<char> {
    if ascii_bytes(b) {
        b.map_values(|x: u8| x as char)
    } else if valid_utf8(b) {
        decode_utf8(b)
    } else {
        utf8_lossy(b)
    }
}

/// The NUL-terminated string that starts at `o`, decoded as lossy UTF-8;
/// `None` when it is empty or `o` is past the end.
pub open spec fn ansi_string(d: Seq<u8>, o: int) -> Option<Seq<char>> {
    let e = ansi_end(d, o);
    if e == o {
        None
    } else {
        Some(lossy_decode(d.subrange(o, e)))
    }
}

/// A string holds no NUL character.
pub open spec fn nul_free(s: Seq<char>) -> bool {
    forall|j: int| 0 <= j < s.len() ==> s[j] != '\0'
}

/// The start of the first two-byte unit at `o`, `o + 2`, ... that is a NUL
/// unit (two zero bytes) or that does not fit in `d`.
pub open spec fn unicode_end(d: Seq<u8>, o: int) -> int
    decreases d.len() - o,
{
    if o + 1 >= d.len() || (d[o] == 0 && d[o + 1] == 0) {
        o
    } else {
        unicode_end(d, o + 2)
    }
}

/// The little-endian 16-bit units from `o` up to `e`.
pub open spec fn units_between(d: Seq<u8>, o: int, e: int) -> Seq<u16> {
    Seq::new(((e - o) / 2) as nat, |j: int| le_u16(d, o + 2 * j) as u16)
}

/// The NUL-terminated UTF-16LE string that starts at `o`; `None` when it is
/// empty, when `o` is past the end, or when it is not valid UTF-16.
pub open spec fn unicode_string(d: Seq<u8>, o: int) -> Option<Seq<char>> {
    let e = unicode_end(d, o);
    if e == o {
        None
    } else {
        utf16_decode(units_between(d, o, e))
    }
}

proof fn lemma_ansi_end_bounds(d: Seq<u8>, o: int)
    requires
        0 <= o,
    ensures
        o <= ansi_end(d, o),
        o < d.len() ==> ansi_end(d, o) <= d.len(),
        forall|k: int| o <= k < ansi_end(d, o) ==> d[k] != 0,
        ansi_end(d, o) < d.len() ==> d[ansi_end(d, o)] == 0,
    decreases d.len() - o,
{
    if o < d.len() && d[o] != 0 {
        lemma_ansi_end_bounds(d, o + 1);
    }
}

/// Reads the NUL-terminated string at `offset`, decoded as lossy UTF-8.
pub fn read_ansi_string(data: &[u8], offset: usize) -> (res: Option<String>)
    ensures
        opt_view(res) == ansi_string(data@, offset as int),
        res matches Some(s) ==> s@.len() > 0 && nul_free(s@),
{
    let mut end = offset;
    while end < data.len() && data[end] != 0
        invariant
            offset <= end,
            offset < data@.len() ==> end <= data@.len(),
            ansi_end(data@, offset as int) == ansi_end(data@, end as int),
        decreases data@.len() - end,
    {
        end = end + 1;
    }
    if end == offset {
        return None;
    }
    let bytes = vstd::slice::slice_subrange(data, offset, end);
    proof {
        lemma_ansi_end_bounds(data@, offset as int);
        assert forall|i: int| 0 <= i < bytes@.len() implies bytes@[i] != 0u8 by {
            assert(bytes@[i] == data@[offset + i]);
        }
    }
    Some(string_from_utf8_lossy(bytes))
}

/// Reads the NUL-terminated UTF-16LE string at `offset`.
pub fn read_unicode_string(data: &[u8], offset: usize) -> (res: Option<String>)
    requires
        offset < usize::MAX,
    ensures
        opt_view(res) == unicode_string(data@, offset as int),
{
    let mut end = offset;
    let mut units: Vec<u16> = Vec::new();
    while end < data.len() && data.len() - end > 1 && !(data[end] == 0 && data[end + 1] == 0)
        invariant
            offset <= end,
            (end - offset) % 2 == 0,
            unicode_end(data@, offset as int) == unicode_end(data@, end as int),
            units@ == units_between(data@, offset as int, end as int),
        decreases data@.len() - end,
    {
        let u = u16_from_le(data, end);
        units.push(u);
        end = end + 2;
        assert(units@ =~= units_between(data@, offset as int, end as int));
    }
    if end == offset {
        return None;
    }
    string_from_utf16(units.as_slice())
}

/// The class identifier that every shell-link header carries at bytes 4..20:
/// 00021401-0000-0000-C000-000000000046 in its stored byte order.
pub open spec fn lnk_clsid() -> Seq<u8> {
    seq![0x01u8, 0x14u8, 0x02u8, 0x00u8, 0x00u8, 0x00u8, 0x00u8, 0x00u8,
         0xC0u8, 0x00u8, 0x00u8, 0x00u8, 0x00u8, 0x00u8, 0x00u8, 0x46u8]
}

/// The code-page string stored `rel` bytes after the LinkInfo block at
/// `base`, when `rel` is set (non-zero) and the string is non-empty.
pub open spec fn link_info_path(d: Seq<u8>, base: int, rel: int) -> Option<Seq<char>> {
    if rel > 0 {
        match ansi_string(d, base + rel) {
            Some(t) => if t.len() > 0 { Some(t) } else { None },
            None => None,
        }
    } else {
        None
    }
}

/// The target path that a shell-link file records, read from its LinkInfo
/// block: the local base path, or else the common path suffix (both
/// NUL-terminated code-page strings). The LinkInfo block follows the 76-byte
/// header and, when the link has a target ID list, the list's two-byte size
/// field and the list itself. `None` when the
/// file is shorter than its 76-byte header, the header size or class identifier
/// is wrong, there is no LinkInfo block, a block runs past the end of the file,
/// or neither path is present.
pub open spec fn lnk_target(d: Seq<u8>) -> Option<Seq<char>> {
    if d.len() < 76 || le_u32(d, 0) != 0x4C || d.subrange(4, 20) != lnk_clsid() {
        None
    } else {
        let flags = le_u32(d, 20) as u32;
        let has_id_list = flags & 0x01 != 0;
        if has_id_list && 78 > d.len() {
            None
        } else {
            let offset = if has_id_list { 78 + le_u16(d, 76) } else { 76 };
            if flags & 0x02 == 0 || offset + 28 > d.len() || offset + le_u32(d, offset) > d.len() {
                None
            } else {
                match link_info_path(d, offset, le_u32(d, offset + 16)) {
                    Some(t) => Some(t),
                    None => link_info_path(d, offset, le_u32(d, offset + 24)),
                }
            }
        }
    }
}

/// The LinkInfo block of a link with a target ID list starts right after the
/// list, whose length is the whole little-endian 16-bit value at bytes 76..78:
/// the target is the block's local base path when that is set and non-empty,
/// else its common path suffix when that is, and there is none when the block
/// does not fit in the file.
pub proof fn law_link_info_after_id_list(d: Seq<u8>)
    requires
        d.len() >= 78,
        le_u32(d, 0) == 0x4C,
        d.subrange(4, 20) == lnk_clsid(),
        (le_u32(d, 20) as u32) & 3 == 3,
    ensures
        ({
            let off = 78 + d[76] + 256 * d[77];
            let fits = off + 28 <= d.len() && off + le_u32(d, off) <= d.len();
            let local_rel = le_u32(d, off + 16);
            let suffix_rel = le_u32(d, off + 24);
            let local = ansi_string(d, off + local_rel);
            let suffix = ansi_string(d, off + suffix_rel);
            let has_local = local_rel > 0 && local is Some && local->0.len() > 0;
            let has_suffix = suffix_rel > 0 && suffix is Some && suffix->0.len() > 0;
            &&& !fits ==> lnk_target(d) is None
            &&& fits && has_local ==> lnk_target(d) == local
            &&& fits && !has_local && has_suffix ==> lnk_target(d) == suffix
            &&& fits && !has_local && !has_suffix ==> lnk_target(d) is None
        }),
{
    let f = le_u32(d, 20) as u32;
    assert(f & 3 == 3 ==> f & 0x01 != 0 && f & 0x02 != 0) by (bit_vector);
}

/// Reads the string `rel` bytes after `base` as `link_info_path` describes it.
fn read_link_info_path(data: &[u8], base: usize, rel: u32) -> (res: Option<String>)
    requires
        base <= data@.len(),
    ensures
        opt_view(res) == link_info_path(data@, base as int, rel as int),
        res matches Some(s) ==> s@.len() > 0 && nul_free(s@),
{
    if rel == 0 {
        return None;
    }
    if rel as usize >= data.len() - base {
        return None;
    }
    let at = base + rel as usize;
    let s = read_ansi_string(data, at);
    match s {
        Some(t) => {
            if t.as_str().is_empty() {
                None
            } else {
                Some(t)
            }
        },
        None => None,
    }
}

/// Extracts the target path from the bytes of a shell-link (`.lnk`) file.
pub fn parse_lnk_target(data: &[u8]) -> (res: Option<String>)
    ensures
        opt_view(res) == lnk_target(data@),
        res matches Some(t) ==> t@.len() > 0 && nul_free(t@),
{
    if data.len() < 76 {
        return None;
    }
    let header_size = u32_from_le(data, 0);
    if header_size != 0x4C {
        return None;
    }
    let clsid: [u8; 16] = [
        0x01, 0x14, 0x02, 0x00, 0x00, 0x00, 0x00, 0x00,
        0xC0, 0x00, 0x00, 0x00, 0x00, 0x00, 0x00, 0x46,
    ];
    let mut i: usize = 0;
    while i < 16
        invariant
            data@.len() >= 76,
            clsid@ == lnk_clsid(),
            i <= 16,
            forall|k: int| 0 <= k < i ==> data@[4 + k] == lnk_clsid()[k],
        decreases 16 - i,
    {
        if data[4 + i] != clsid[i] {
            assert(data@.subrange(4, 20)[i as int] != lnk_clsid()[i as int]);
            return None;
        }
        i = i + 1;
    }
    assert(data@.subrange(4, 20) =~= lnk_clsid());

    let link_flags = u32_from_le(data, 20);
    let mut offset: usize = 76;
    if link_flags & 0x01 != 0 {
        if 78 > data.len() {
            return None;
        }
        let id_list_size = u16_from_le(data, 76) as usize;
        offset = offset + 2 + id_list_size;
    }
    if link_flags & 0x02 == 0 {
        return None;
    }
    if offset > data.len() || data.len() - offset < 28 {
        return None;
    }
    let link_info_size = u32_from_le(data, offset) as usize;
    if link_info_size > data.len() - offset {
        return None;
    }
    let local_base_path_offset = u32_from_le(data, offset + 16);
    let common_path_suffix_offset = u32_from_le(data, offset + 24);
    match read_link_info_path(data, offset, local_base_path_offset) {
        Some(t) => Some(t),
        None => read_link_info_path(data, offset, common_path_suffix_offset),
    }
}

} // verus!
