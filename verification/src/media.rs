//! Local media server addresses: a file is served at
//! `http://127.0.0.1:<port>/media/<file name>` with its name percent-encoded.

use vstd::prelude::*;
use crate::decimal::{nat_text, u64_text};
use crate::text::{chars_of, push_all, push_str, string_of};

verus! {

/// The port the local media server listens on.
#[derive(Debug, Clone, Copy)]
pub struct MediaPort(pub u16);

/// `n` occurs in `p` as a run of consecutive characters.
pub open spec fn occurs_in(p: Seq<char>, n: Seq<char>) -> bool {
    exists|i: int| 0 <= i && i + n.len() <= p.len() && #[trigger] p.subrange(i, i + n.len()) == n
}

/// What any file name of `p` is: a non-empty run of `p`'s characters that
/// is not `.` or `..`, and, unless `p` holds a backslash (which may open a
/// Windows verbatim prefix, where `/` is no separator), without `/`.
pub open spec fn is_file_name_in(p: Seq<char>, n: Seq<char>) -> bool {
    &&& n.len() > 0
    &&& n != "."@
    &&& n != ".."@
    &&& occurs_in(p, n)
    &&& (!p.contains('\\') ==> !n.contains('/'))
}

/// A path that is one plain name: non-empty, not `.` or `..`, and without
/// `/`, `\` or `:`, so that no platform reads a separator or a prefix in it.
pub open spec fn is_plain_name(p: Seq<char>) -> bool {
    &&& p.len() > 0
    &&& p != "."@
    &&& p != ".."@
    &&& !p.contains('/')
    &&& !p.contains('\\')
    &&& !p.contains(':')
}

/// Calls `std::path::Path::file_name` (the path's final component, none
/// when the path ends in `..` or is a root) and turns the name back into a
/// `String` (`OsStr::to_str`). Where the path splits into components
/// depends on the platform, so the contract states what holds on every
/// platform: a name found is a final component, a non-empty run of the
/// path that is not `.` or `..` and holds no separator `/` (backslashes
/// aside); a path that is one plain name is its own file name. Which
/// component is the last one, and when there is none, is not stated.
#[verifier::external_body]
pub(crate) fn file_name_of(p: &str) -> (r: Option<String>)
    ensures
        match r {
            Some(n) => is_file_name_in(p@, n@),
            None => true,
        },
        is_plain_name(p@) ==> (r.is_some() && r.unwrap()@ == p@),
{
    std::path::Path::new(p).file_name().and_then(|n| n.to_str()).map(|s| s.to_string())
}

/// The UTF-8 bytes of a character.
pub open spec fn utf8_of(c: char) -> Seq<u8> {
    let u = c as u32;
    if u < 0x80 {
        seq![u as u8]
    } else if u < 0x800 {
        seq![(0xC0 + u / 64) as u8, (0x80 + u % 64) as u8]
    } else if u < 0x10000 {
        seq![(0xE0 + u / 4096) as u8, (0x80 + (u / 64) % 64) as u8, (0x80 + u % 64) as u8]
    } else {
        seq![
            (0xF0 + u / 262144) as u8,
            (0x80 + (u / 4096) % 64) as u8,
            (0x80 + (u / 64) % 64) as u8,
            (0x80 + u % 64) as u8,
        ]
    }
}

/// Bytes kept as they are in a URL path: ASCII letters, digits, `-`, `_`, `.`.
pub open spec fn is_unreserved(b: u8) -> bool {
    (65 <= b <= 90) || (97 <= b <= 122) || (48 <= b <= 57) || b == 45 || b == 95 || b == 46
}

pub open spec fn hex_digit(d: nat) -> char {
    if d < 10 {
        ((d + 48) as u32) as char
    } else {
        ((d + 55) as u32) as char
    }
}

/// One byte in a URL path: itself when unreserved, else `%XX` (upper case).
pub open spec fn encode_byte(b: u8) -> Seq<char> {
    if is_unreserved(b) {
        seq![(b as u32) as char]
    } else {
        seq!['%', hex_digit((b / 16) as nat), hex_digit((b % 16) as nat)]
    }
}

pub open spec fn encode_bytes(bs: Seq<u8>) -> Seq<char>
    decreases bs.len(),
{
    if bs.len() == 0 {
        Seq::empty()
    } else {
        encode_bytes(bs.drop_last()) + encode_byte(bs.last())
    }
}

/// A name percent-encoded byte by byte over its UTF-8 form.
pub open spec fn encode_name(s: Seq<char>) -> Seq<char>
    decreases s.len(),
{
    if s.len() == 0 {
        Seq::empty()
    } else {
        encode_name(s.drop_last()) + encode_bytes(utf8_of(s.last()))
    }
}

/// The URL under which the local server plays a file of this name.
pub open spec fn media_url_text(port: u16, name: Seq<char>) -> Seq<char> {
    "http://127.0.0.1:"@ + nat_text(port as nat) + "/media/"@ + encode_name(name)
}

/// The playable URL for a path's file name, or the error "非法文件路径"
/// when the path has none.
pub open spec fn media_url_spec(port: u16, name: Option<Seq<char>>) -> Result<Seq<char>, Seq<char>> {
    match name {
        None => Err("非法文件路径"@),
        Some(n) => Ok(media_url_text(port, n)),
    }
}

fn hex_char(d: u8) -> (c: char)
    requires
        d < 16,
    ensures
        c == hex_digit(d as nat),
{
    if d < 10 {
        let b: u8 = d + 48;
        b as char
    } else {
        let b: u8 = d + 55;
        b as char
    }
}

fn push_byte(out: &mut Vec<char>, b: u8)
    ensures
        final(out)@ == old(out)@ + encode_byte(b),
{
    if (65 <= b && b <= 90) || (97 <= b && b <= 122) || (48 <= b && b <= 57) || b == 45 || b == 95
        || b == 46 {
        out.push(b as char);
    } else {
        out.push('%');
        out.push(hex_char(b / 16));
        out.push(hex_char(b % 16));
    }
}

fn utf8_bytes(c: char) -> (v: Vec<u8>)
    ensures
        v@ == utf8_of(c),
{
    let u: u32 = c as u32;
    let mut v: Vec<u8> = Vec::new();
    if u < 0x80 {
        v.push(u as u8);
    } else if u < 0x800 {
        v.push((0xC0 + u / 64) as u8);
        v.push((0x80 + u % 64) as u8);
    } else if u < 0x10000 {
        v.push((0xE0 + u / 4096) as u8);
        v.push((0x80 + (u / 64) % 64) as u8);
        v.push((0x80 + u % 64) as u8);
    } else {
        assert(u <= 0x10FFFF);
        v.push((0xF0 + u / 262144) as u8);
        v.push((0x80 + (u / 4096) % 64) as u8);
        v.push((0x80 + (u / 64) % 64) as u8);
        v.push((0x80 + u % 64) as u8);
    }
    assert(v@ =~= utf8_of(c));
    v
}

fn push_char_encoded(out: &mut Vec<char>, c: char)
    ensures
        final(out)@ == old(out)@ + encode_bytes(utf8_of(c)),
{
    let bs = utf8_bytes(c);
    let ghost o0 = out@;
    let mut i: usize = 0;
    while i < bs.len()
        invariant
            i <= bs.len(),
            out@ == o0 + encode_bytes(bs@.take(i as int)),
        decreases bs.len() - i,
    {
        assert(bs@.take(i + 1).drop_last() == bs@.take(i as int));
        push_byte(out, bs[i]);
        i += 1;
    }
    assert(bs@.take(bs.len() as int) == bs@);
}

pub open spec fn opt_name(o: Option<String>) -> Option<Seq<char>> {
    match o {
        Some(s) => Some(s@),
        None => None,
    }
}

/// The playable URL for a file name found in a path: see `media_url_spec`.
pub fn media_url_for(port: &MediaPort, name: Option<String>) -> (r: Result<String, String>)
    ensures
        match r {
            Ok(u) => media_url_spec(port.0, opt_name(name)) == Ok::<Seq<char>, Seq<char>>(u@),
            Err(e) => media_url_spec(port.0, opt_name(name)) == Err::<Seq<char>, Seq<char>>(e@),
        },
{
    match name {
        None => {
            let v = chars_of("非法文件路径");
            Err(string_of(v.as_slice()))
        },
        Some(name) => {
            let n = chars_of(name.as_str());
            let mut out: Vec<char> = Vec::new();
            push_str(&mut out, "http://127.0.0.1:");
            let p = u64_text(port.0 as u64);
            push_all(&mut out, &p);
            push_str(&mut out, "/media/");
            let ghost prefix = out@;
            let mut i: usize = 0;
            while i < n.len()
                invariant
                    i <= n.len(),
                    out@ == prefix + encode_name(n@.take(i as int)),
                decreases n.len() - i,
            {
                assert(n@.take(i + 1).drop_last() == n@.take(i as int));
                push_char_encoded(&mut out, n[i]);
                i += 1;
            }
            assert(n@.take(n.len() as int) == n@);
            Ok(string_of(out.as_slice()))
        },
    }
}

/// The playable URL of a local file: the path's file name (as
/// `Path::file_name` finds it, see `file_name_of`) served by the local
/// server, or "非法文件路径" when the path has no file name. A path that is
/// one plain name always succeeds, with the URL of that name.
pub fn media_url(port: &MediaPort, path: &str) -> (r: Result<String, String>)
    ensures
        match r {
            Ok(u) => exists|n: Seq<char>| is_file_name_in(path@, n) && u@ == media_url_text(port.0, n),
            Err(e) => e@ == "非法文件路径"@,
        },
        is_plain_name(path@) ==> (r matches Ok(u) && u@ == media_url_text(port.0, path@)),
{
    let name = file_name_of(path);
    let r = media_url_for(port, name);
    match &r {
        Ok(u) => {
            assert(is_file_name_in(path@, opt_name(name).unwrap()));
            assert(u@ == media_url_text(port.0, opt_name(name).unwrap()));
        },
        Err(_) => {},
    }
    r
}

} // verus!
