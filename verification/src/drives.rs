//! The fixed drives that a scan can start from.

use vstd::prelude::*;

verus! {

/// A fixed drive with its total and free space in bytes.
pub struct DriveInfo {
    pub letter: String,
    pub total: u64,
    pub free: u64,
}

/// The drive type that Windows reports for a fixed drive.
pub const DRIVE_FIXED: u32 = 3;

/// The letter of drive number `i`: `A` for 0, `B` for 1, and so on.
pub open spec fn drive_letter(i: int) -> char {
    (65 + i) as char
}

/// Bit `i` of the mask of logical drives is set.
pub open spec fn has_drive(mask: u32, i: int) -> bool {
    mask & (1u32 << (i as u32)) != 0
}

/// The letters of the drives among the first `n` whose bit is set in `mask`, in order.
pub open spec fn drive_letters_below(mask: u32, n: int) -> Seq<char>
    decreases n,
{
    if n <= 0 {
        Seq::empty()
    } else if has_drive(mask, n - 1) {
        drive_letters_below(mask, n - 1).push(drive_letter(n - 1))
    } else {
        drive_letters_below(mask, n - 1)
    }
}

proof fn lemma_letters_below(mask: u32, n: int)
    requires
        0 <= n <= 26,
    ensures
        forall|k: int|
            0 <= k < drive_letters_below(mask, n).len() ==> 65 <= ((#[trigger] drive_letters_below(
                mask,
                n,
            )[k]) as u32) && ((drive_letters_below(mask, n)[k] as u32) < 65 + n),
        forall|k: int, l: int|
            0 <= k < l < drive_letters_below(mask, n).len() ==> ((#[trigger] drive_letters_below(
                mask,
                n,
            )[k]) as u32) < ((#[trigger] drive_letters_below(mask, n)[l]) as u32),
        forall|i: int|
            0 <= i < n ==> (drive_letters_below(mask, n).contains(#[trigger] drive_letter(i)) <==> mask
                & (1u32 << (i as u32)) != 0),
    decreases n,
{
    if n > 0 {
        lemma_letters_below(mask, n - 1);
        let d = drive_letters_below(mask, n - 1);
        let r = drive_letters_below(mask, n);
        assert(drive_letter(n - 1) as u32 == 65 + n - 1);
        assert forall|i: int|
            0 <= i < n implies (r.contains(#[trigger] drive_letter(i)) <==> mask & (1u32 << (i as u32))
                != 0) by {
            assert(drive_letter(i) as u32 == 65 + i);
            if i < n - 1 {
                if r.contains(drive_letter(i)) {
                    let k = choose|k: int| 0 <= k < r.len() && r[k] == drive_letter(i);
                    if k < d.len() {
                        assert(r[k] == d[k]);
                    }
                }
                if d.contains(drive_letter(i)) {
                    let k = choose|k: int| 0 <= k < d.len() && d[k] == drive_letter(i);
                    assert(r[k] == d[k]);
                }
            } else {
                if r.contains(drive_letter(i)) {
                    let k = choose|k: int| 0 <= k < r.len() && r[k] == drive_letter(i);
                    if k < d.len() {
                        assert(r[k] == d[k]);
                    }
                }
                if has_drive(mask, n - 1) {
                    assert(r[d.len() as int] == drive_letter(n - 1));
                }
            }
        }
        assert forall|k: int, l: int| 0 <= k < l < r.len() implies ((#[trigger] r[k]) as u32)
            < ((#[trigger] r[l]) as u32) by {
            if l < d.len() {
                assert(r[k] == d[k] && r[l] == d[l]);
            } else {
                assert(r[k] == d[k]);
            }
        }
        assert forall|k: int| 0 <= k < r.len() implies 65 <= ((#[trigger] r[k]) as u32) && ((r[k] as u32)
            < 65 + n) by {
            if k < d.len() {
                assert(r[k] == d[k]);
            }
        }
    }
}

/// The drive letters of a mask are `A` (65) to `Z` (90) in increasing order, and the letter `A`+i
/// is among them exactly when bit i of the mask is set.
pub proof fn lemma_drive_letters(mask: u32)
    ensures
        ({
            let r = drive_letters_below(mask, 26);
            &&& forall|k: int| 0 <= k < r.len() ==> 65 <= ((#[trigger] r[k]) as u32) <= 90
            &&& forall|k: int, l: int| 0 <= k < l < r.len() ==> ((#[trigger] r[k]) as u32) < ((#[trigger] r[l]) as u32)
            &&& forall|i: int|
                0 <= i < 26 ==> (r.contains(#[trigger] ((65 + i) as char)) <==> mask & (1u32 << (i as u32))
                    != 0)
        }),
{
    lemma_letters_below(mask, 26);
    assert forall|i: int| 0 <= i < 26 implies #[trigger] ((65 + i) as char) == drive_letter(i) by {}
}

/// `String::push` of std: appends one character.
#[verifier::external_body]
fn push_char(s: &mut String, c: char)
    ensures
        final(s)@ == old(s)@.push(c),
{
    s.push(c);
}

/// The letters `A` to `Z` of the drives whose bit is set in a mask of logical drives.
pub fn drive_letters(mask: u32) -> (letters: Vec<char>)
    ensures
        letters@ == drive_letters_below(mask, 26),
        forall|i: int|
            0 <= i < 26 ==> (letters@.contains(#[trigger] ((65 + i) as char)) <==> mask & (1u32 << (
            i as u32)) != 0),
        forall|k: int, l: int|
            0 <= k < l < letters@.len() ==> ((#[trigger] letters@[k]) as u32) < ((
            #[trigger] letters@[l]) as u32),
{
    proof {
        lemma_drive_letters(mask);
    }
    let mut letters: Vec<char> = Vec::new();
    for i in 0..26u32
        invariant
            letters@ == drive_letters_below(mask, i as int),
    {
        if mask & (1u32 << i) != 0 {
            let c = (65u8 + (i as u8)) as char;
            assert(c == drive_letter(i as int));
            letters.push(c);
        }
    }
    letters
}

/// The name of a drive's root folder, as `C:\`.
pub fn drive_root(letter: char) -> (root: String)
    ensures
        root@ == seq![letter, ':', '\\'],
{
    let mut root = String::new();
    push_char(&mut root, letter);
    push_char(&mut root, ':');
    push_char(&mut root, '\\');
    assert(root@ =~= seq![letter, ':', '\\']);
    root
}

/// The entry of a drive for the list of drives: present only for a fixed drive, and
/// labelled by its letter and a colon, as `C:`.
pub fn fixed_drive(letter: char, drive_type: u32, total: u64, free: u64) -> (info: Option<DriveInfo>)
    ensures
        match info {
            Some(d) => drive_type == 3 && d.letter@ == seq![letter, ':'] && d.total == total && d.free
                == free,
            None => drive_type != 3,
        },
{
    if drive_type != DRIVE_FIXED {
        return None;
    }
    let mut label = String::new();
    push_char(&mut label, letter);
    push_char(&mut label, ':');
    assert(label@ =~= seq![letter, ':']);
    Some(DriveInfo { letter: label, total, free })
}

} // verus!
