//! Checks and encodings on names and strings.

use vstd::prelude::*;
use vstd::string::StringExecFns;

verus! {

/// Characters that a Windows file name cannot hold.
pub open spec fn is_reserved_char(c: char) -> bool {
    c == '\\' || c == '/' || c == ':' || c == '*' || c == '?' || c == '"' || c == '<' || c == '>'
        || c == '|'
}

/// A name that a file can be renamed to: not empty, and with no reserved character.
pub open spec fn valid_file_name(name: Seq<char>) -> bool {
    name.len() > 0 && forall|i: int| 0 <= i < name.len() ==> !is_reserved_char(#[trigger] name[i])
}

/// A name is accepted exactly when it is not empty and none of its characters is one of
/// `\ / : * ? " < > |`; every other character, letters, digits, `-`, `.`, spaces and
/// any other, is allowed.
pub proof fn lemma_valid_file_name(name: Seq<char>)
    ensures
        valid_file_name(name) <==> (name.len() > 0 && forall|i: int|
            0 <= i < name.len() ==> {
                let c = #[trigger] name[i];
                c != '\\' && c != '/' && c != ':' && c != '*' && c != '?' && c != '"' && c != '<'
                    && c != '>' && c != '|'
            }),
{
}

/// Whether `name` can be given to a file: it is not empty and holds none of
/// `\ / : * ? " < > |`.
pub fn is_valid_file_name(name: &str) -> (ok: bool)
    ensures
        ok == valid_file_name(name@),
        ok <==> (name@.len() > 0 && forall|i: int|
            0 <= i < name@.len() ==> {
                let c = #[trigger] name@[i];
                c != '\\' && c != '/' && c != ':' && c != '*' && c != '?' && c != '"' && c != '<'
                    && c != '>' && c != '|'
            }),
{
    proof {
        lemma_valid_file_name(name@);
    }
    let mut seen = false;
    let mut clean = true;
    for c in it: name.chars()
        invariant
            it.seq() == name@,
            seen == (it.index() > 0),
            clean == (forall|i: int| 0 <= i < it.index() ==> !is_reserved_char(#[trigger] name@[i])),
    {
        if c == '\\' || c == '/' || c == ':' || c == '*' || c == '?' || c == '"' || c == '<' || c == '>'
            || c == '|' {
            clean = false;
        }
        seen = true;
    }
    seen && clean
}


/// The UTF-16 code units of one character: itself where it fits in one unit, else its
/// surrogate pair.
pub open spec fn utf16_units(c: char) -> Seq<u16> {
    let v = c as u32;
    if v < 0x10000 {
        seq![v as u16]
    } else {
        seq![(0xD800 + (v - 0x10000) / 0x400) as u16, (0xDC00 + (v - 0x10000) % 0x400) as u16]
    }
}

/// The UTF-16 encoding of a string.
pub open spec fn utf16(s: Seq<char>) -> Seq<u16>
    decreases s.len(),
{
    if s.len() == 0 {
        Seq::empty()
    } else {
        utf16(s.drop_last()) + utf16_units(s.last())
    }
}

/// UTF-16 as its standard defines it: a character below 0x10000 is the one unit of its
/// value; any other is a high surrogate in 0xD800..=0xDBFF and a low surrogate in
/// 0xDC00..=0xDFFF from which it is decoded as 0x10000 + (high - 0xD800) * 0x400 +
/// (low - 0xDC00).
pub proof fn lemma_units_decode(c: char)
    ensures
        (c as u32) < 0x10000 ==> utf16_units(c).len() == 1 && utf16_units(c)[0] as u32 == c as u32,
        (c as u32) >= 0x10000 ==> {
            let u = utf16_units(c);
            &&& u.len() == 2
            &&& 0xD800 <= u[0] <= 0xDBFF
            &&& 0xDC00 <= u[1] <= 0xDFFF
            &&& 0x10000 + (u[0] - 0xD800) * 0x400 + (u[1] - 0xDC00) == c as u32
        },
{
    vstd::utf8::char_is_scalar(c);
}

/// A character's code units hold a 0 exactly when it is the NUL character.
pub proof fn lemma_units_zero(c: char)
    ensures
        utf16_units(c).contains(0u16) <==> c == '\0',
{
    vstd::utf8::char_is_scalar(c);
    let v = c as u32;
    if v < 0x10000 {
        assert(utf16_units(c)[0] == v as u16);
        if c == '\0' {
            assert(utf16_units(c)[0] == 0u16);
        }
        if utf16_units(c).contains(0u16) {
            assert(v == 0);
            vstd::utf8::char_u32_cast(c, v);
            vstd::utf8::char_u32_cast('\0', 0u32);
        }
    } else {
        assert(utf16_units(c)[0] != 0u16);
        assert(utf16_units(c)[1] != 0u16);
    }
}

/// The UTF-16 encoding of a text holds a 0 exactly when the text holds a NUL character,
/// so the terminating 0 that [`wide`] adds is the only one where the text has no NUL.
pub proof fn lemma_utf16_zero(s: Seq<char>)
    ensures
        utf16(s).contains(0u16) <==> s.contains('\0'),
    decreases s.len(),
{
    if s.len() > 0 {
        let d = s.drop_last();
        let c = s.last();
        lemma_utf16_zero(d);
        lemma_units_zero(c);
        let a = utf16(d);
        let b = utf16_units(c);
        if (a + b).contains(0u16) {
            let j = choose|j: int| 0 <= j < (a + b).len() && (a + b)[j] == 0u16;
            if j < a.len() {
                assert(a[j] == 0u16);
                let i = choose|i: int| 0 <= i < d.len() && d[i] == '\0';
                assert(s[i] == '\0');
            } else {
                assert(b[j - a.len()] == 0u16);
                assert(s[s.len() - 1] == '\0');
            }
        }
        if s.contains('\0') {
            let i = choose|i: int| 0 <= i < s.len() && s[i] == '\0';
            if i < s.len() - 1 {
                assert(d[i] == '\0');
                let j = choose|j: int| 0 <= j < a.len() && a[j] == 0u16;
                assert((a + b)[j] == 0u16);
            } else {
                let j = choose|j: int| 0 <= j < b.len() && b[j] == 0u16;
                assert((a + b)[a.len() + j] == 0u16);
            }
        }
    }
}

/// The UTF-16 encoding of `s` followed by a terminating 0, as Windows calls take names.
pub fn wide(s: &str) -> (w: Vec<u16>)
    ensures
        w@ == utf16(s@).push(0),
{
    let mut out: Vec<u16> = Vec::new();
    for c in it: s.chars()
        invariant
            it.seq() == s@,
            out@ == utf16(s@.take(it.index())),
    {
        let ghost k = it.index();
        proof {
            assert(s@.take(k + 1).drop_last() =~= s@.take(k));
            assert(s@.take(k + 1).last() == c);
        }
        let v = c as u32;
        proof {
            vstd::utf8::char_is_scalar(c);
        }
        if v < 0x10000 {
            out.push(v as u16);
        } else {
            let u = v - 0x10000;
            out.push((0xD800 + u / 0x400) as u16);
            out.push((0xDC00 + u % 0x400) as u16);
        }
        proof {
            assert(out@ =~= utf16(s@.take(k)) + utf16_units(c));
        }
    }
    proof {
        assert(s@.take(s@.len() as int) =~= s@);
    }
    out.push(0);
    out
}


/// The argument that makes Explorer open the folder of `path` with `path` selected:
/// `/select,` followed by the path.
pub fn select_arg(path: &str) -> (arg: String)
    ensures
        arg@ == "/select,"@ + path@,
{
    let mut arg = "/select,".to_string();
    arg.append(path);
    arg
}

} // verus!
