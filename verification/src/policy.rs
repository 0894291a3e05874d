//! The filter policy: pure decisions over an entry's name and kind.
//!
//! A directory is pruned when its name matches a fixed denylist exactly.
//! A file is skipped when its exact name matches a fixed denylist, or when
//! its extension, lowered ASCII-wise, matches a fixed denylist. Extension
//! matching is case-insensitive; file-name matching is case-sensitive.

use vstd::prelude::*;

verus! {

/// True exactly when a directory of name `s` is pruned from the walk.
pub open spec fn spec_skip_dir(s: Seq<char>) -> bool {
    ||| s == ".git"@
    ||| s == "node_modules"@
    ||| s == "target"@
}

/// Equality of two string slices, stated over their character sequences.
fn str_eq(a: &str, b: &str) -> (r: bool)
    ensures
        r == (a@ == b@),
{
    let sa = a.to_owned();
    let sb = b.to_owned();
    sa == sb
}

/// Decides whether a directory of the given name is pruned from the walk.
pub fn should_skip_directory(name: &str) -> (r: bool)
    ensures
        r == spec_skip_dir(name@),
{
    str_eq(name, ".git") || str_eq(name, "node_modules") || str_eq(name, "target")
}

/// True exactly when a file of name `s` is skipped by its exact name.
pub open spec fn spec_denied_filename(s: Seq<char>) -> bool {
    ||| s == "package-lock.json"@
    ||| s == "package-lock.yml"@
    ||| s == "yarn.lock"@
    ||| s == "Cargo.lock"@
    ||| s == "LICENSE"@
}

/// True exactly when an already-lowered extension `s` is skipped.
pub open spec fn spec_denied_extension(s: Seq<char>) -> bool {
    ||| s == "exe"@
    ||| s == "dll"@
    ||| s == "so"@
    ||| s == "dylib"@
    ||| s == "jpg"@
    ||| s == "jpeg"@
    ||| s == "png"@
    ||| s == "gif"@
    ||| s == "bmp"@
    ||| s == "mp3"@
    ||| s == "wav"@
    ||| s == "ogg"@
    ||| s == "mp4"@
    ||| s == "avi"@
    ||| s == "mov"@
    ||| s == "zip"@
    ||| s == "tar"@
    ||| s == "gz"@
    ||| s == "7z"@
}

/// The ASCII lowering of one character: the letters 'A' through 'Z' map to
/// their lower-case counterparts, every other character stays as it is.
pub open spec fn lower_char(c: char) -> char {
    if c == 'A' { 'a' }
    else if c == 'B' { 'b' }
    else if c == 'C' { 'c' }
    else if c == 'D' { 'd' }
    else if c == 'E' { 'e' }
    else if c == 'F' { 'f' }
    else if c == 'G' { 'g' }
    else if c == 'H' { 'h' }
    else if c == 'I' { 'i' }
    else if c == 'J' { 'j' }
    else if c == 'K' { 'k' }
    else if c == 'L' { 'l' }
    else if c == 'M' { 'm' }
    else if c == 'N' { 'n' }
    else if c == 'O' { 'o' }
    else if c == 'P' { 'p' }
    else if c == 'Q' { 'q' }
    else if c == 'R' { 'r' }
    else if c == 'S' { 's' }
    else if c == 'T' { 't' }
    else if c == 'U' { 'u' }
    else if c == 'V' { 'v' }
    else if c == 'W' { 'w' }
    else if c == 'X' { 'x' }
    else if c == 'Y' { 'y' }
    else if c == 'Z' { 'z' }
    else { c }
}

/// The ASCII lowering of a character sequence, character by character.
pub open spec fn ascii_lower(s: Seq<char>) -> Seq<char> {
    Seq::new(s.len(), |i: int| lower_char(s[i]))
}

/// The ASCII lowering of one character, as executable code.
fn lower_char_exec(c: char) -> (r: char)
    ensures
        r == lower_char(c),
{
    match c {
        'A' => 'a',
        'B' => 'b',
        'C' => 'c',
        'D' => 'd',
        'E' => 'e',
        'F' => 'f',
        'G' => 'g',
        'H' => 'h',
        'I' => 'i',
        'J' => 'j',
        'K' => 'k',
        'L' => 'l',
        'M' => 'm',
        'N' => 'n',
        'O' => 'o',
        'P' => 'p',
        'Q' => 'q',
        'R' => 'r',
        'S' => 's',
        'T' => 't',
        'U' => 'u',
        'V' => 'v',
        'W' => 'w',
        'X' => 'x',
        'Y' => 'y',
        'Z' => 'z',
        _ => c,
    }
}

/// Compares the ASCII lowering of `a` against `b`, character by character.
fn eq_lowered(a: &str, b: &str) -> (r: bool)
    ensures
        r == (ascii_lower(a@) == b@),
{
    let la = a.unicode_len();
    let lb = b.unicode_len();
    if la != lb {
        proof {
            assert(ascii_lower(a@).len() != b@.len());
        }
        return false;
    }
    let mut i: usize = 0;
    while i < la
        invariant
            la == a@.len(),
            la == b@.len(),
            i <= la,
            forall|j: int| 0 <= j < i ==> ascii_lower(a@)[j] == b@[j],
        decreases la - i,
    {
        let ca = lower_char_exec(a.get_char(i));
        let cb = b.get_char(i);
        if ca != cb {
            proof {
                assert(ascii_lower(a@)[i as int] != b@[i as int]);
            }
            return false;
        }
        i = i + 1;
    }
    proof {
        assert(ascii_lower(a@) =~= b@);
    }
    true
}

/// The index of the last '.' in `s`, or -1 when `s` has none.
pub open spec fn last_dot(s: Seq<char>) -> int
    decreases s.len(),
{
    if s.len() == 0 {
        -1
    } else if s[s.len() - 1] == '.' {
        s.len() - 1
    } else {
        last_dot(s.drop_last())
    }
}

/// The extension of a file name: the characters after the last '.', provided
/// that dot stands after at least one other character. A name without a dot,
/// or whose only dot leads it, has no extension.
pub open spec fn spec_extension(s: Seq<char>) -> Option<Seq<char>> {
    if last_dot(s) >= 1 {
        Some(s.subrange(last_dot(s) + 1, s.len() as int))
    } else {
        None
    }
}

/// `last_dot` names the largest index holding a '.', and -1 when none does.
proof fn lemma_last_dot(s: Seq<char>)
    ensures
        last_dot(s) >= -1,
        last_dot(s) == -1 ==> forall|j: int| 0 <= j < s.len() ==> s[j] != '.',
        last_dot(s) >= 0 ==> {
            &&& 0 <= last_dot(s) < s.len()
            &&& s[last_dot(s)] == '.'
            &&& forall|j: int| last_dot(s) < j < s.len() ==> s[j] != '.'
        },
    decreases s.len(),
{
    if s.len() == 0 {
    } else if s[s.len() - 1] == '.' {
    } else {
        lemma_last_dot(s.drop_last());
        assert(forall|j: int| 0 <= j < s.len() - 1 ==> s[j] == s.drop_last()[j]);
    }
}

/// `last_dot` is pinned by its characterization: a dot at `d` with none after
/// it forces `last_dot(s) == d`.
proof fn lemma_last_dot_at(s: Seq<char>, d: int)
    requires
        0 <= d < s.len(),
        s[d] == '.',
        forall|j: int| d < j < s.len() ==> s[j] != '.',
    ensures
        last_dot(s) == d,
{
    lemma_last_dot(s);
    if last_dot(s) == -1 {
        assert(s[d] != '.');
    } else if last_dot(s) < d {
        assert(s[d] != '.');
    } else if last_dot(s) > d {
        assert(s[last_dot(s)] != '.');
    }
}

/// The extension of a file name, as executable code: scans for the last dot.
pub fn extension_of(name: &str) -> (r: Option<String>)
    ensures
        match r {
            Some(e) => spec_extension(name@) == Some(e@),
            None => spec_extension(name@) is None,
        },
{
    let len = name.unicode_len();
    let mut i: usize = len;
    while i > 0
        invariant
            len == name@.len(),
            i <= len,
            forall|j: int| i <= j < len ==> name@[j] != '.',
        decreases i,
    {
        if name.get_char(i - 1) == '.' {
            proof {
                lemma_last_dot_at(name@, i - 1);
            }
            if i - 1 >= 1 {
                let ext = name.substring_char(i, len);
                proof {
                    assert(ext@ =~= spec_extension(name@).unwrap());
                }
                return Some(ext.to_owned());
            } else {
                return None;
            }
        }
        i = i - 1;
    }
    proof {
        lemma_last_dot(name@);
        if last_dot(name@) >= 0 {
            assert(name@[last_dot(name@)] == '.');
        }
    }
    None
}

/// Compares a lowered extension against the extension denylist.
fn extension_denied(ext: &str) -> (r: bool)
    ensures
        r == spec_denied_extension(ascii_lower(ext@)),
{
    ||| eq_lowered(ext, "exe")
    ||| eq_lowered(ext, "dll")
    ||| eq_lowered(ext, "so")
    ||| eq_lowered(ext, "dylib")
    ||| eq_lowered(ext, "jpg")
    ||| eq_lowered(ext, "jpeg")
    ||| eq_lowered(ext, "png")
    ||| eq_lowered(ext, "gif")
    ||| eq_lowered(ext, "bmp")
    ||| eq_lowered(ext, "mp3")
    ||| eq_lowered(ext, "wav")
    ||| eq_lowered(ext, "ogg")
    ||| eq_lowered(ext, "mp4")
    ||| eq_lowered(ext, "avi")
    ||| eq_lowered(ext, "mov")
    ||| eq_lowered(ext, "zip")
    ||| eq_lowered(ext, "tar")
    ||| eq_lowered(ext, "gz")
    ||| eq_lowered(ext, "7z")
}

/// True exactly when a file of name `s` is skipped: its exact name is denied,
/// or it has an extension whose ASCII lowering is denied.
pub open spec fn spec_skip_file(s: Seq<char>) -> bool {
    ||| spec_denied_filename(s)
    ||| match spec_extension(s) {
        Some(e) => spec_denied_extension(ascii_lower(e)),
        None => false,
    }
}

/// Decides whether a file of the given name is skipped.
pub fn should_skip_file(name: &str) -> (r: bool)
    ensures
        r == spec_skip_file(name@),
{
    if str_eq(name, "package-lock.json")
        || str_eq(name, "package-lock.yml")
        || str_eq(name, "yarn.lock")
        || str_eq(name, "Cargo.lock")
        || str_eq(name, "LICENSE") {
        return true;
    }
    match extension_of(name) {
        Some(ext) => extension_denied(ext.as_str()),
        None => false,
    }
}

/// The skip decision for an entry of the given name and kind: directories go
/// by the directory denylist, everything else by the file denylists.
pub open spec fn spec_skip_entry(name: Seq<char>, is_dir: bool) -> bool {
    if is_dir {
        spec_skip_dir(name)
    } else {
        spec_skip_file(name)
    }
}

/// Decides whether an entry of the given name and kind is skipped.
pub fn should_skip_file_or_directory(name: &str, is_dir: bool) -> (r: bool)
    ensures
        r == spec_skip_entry(name@, is_dir),
{
    if is_dir {
        should_skip_directory(name)
    } else {
        should_skip_file(name)
    }
}

/// The skip decision is a pure function of an entry's name and kind: two
/// entries that agree on both get the same decision, however often it is
/// asked.
pub proof fn lemma_skip_decision_pure(n1: Seq<char>, d1: bool, n2: Seq<char>, d2: bool)
    requires
        n1 == n2,
        d1 == d2,
    ensures
        spec_skip_entry(n1, d1) == spec_skip_entry(n2, d2),
{
}

/// ASCII lowering is idempotent, so the extension match is case-insensitive:
/// an extension and any re-casing of it that lowers to the same sequence are
/// denied or kept together.
pub proof fn lemma_extension_match_case_insensitive(e: Seq<char>)
    ensures
        spec_denied_extension(ascii_lower(e)) == spec_denied_extension(ascii_lower(ascii_lower(e))),
{
    assert(ascii_lower(ascii_lower(e)) =~= ascii_lower(e));
}

} // verus!

