//! Kinds of audio file, told apart by their extension.

use vstd::prelude::*;
use vstd::string::StringSliceAdditionalSpecFns;

verus! {

#[derive(Clone, Copy, Debug, PartialEq, Eq)]
pub enum AudioFiles {
    /// `.x3a`: archive header and frames.
    X3a,
    /// `.wav`
    Wav,
    /// `.bin`: frames only.
    X3Bin,
}

pub open spec fn ends_with(s: Seq<u8>, suffix: Seq<u8>) -> bool {
    s.len() >= suffix.len() && s.subrange(s.len() - suffix.len(), s.len() as int) == suffix
}

/// The kind of file that `filename` names, by its extension.
pub open spec fn filetype_spec(filename: Seq<u8>) -> Option<AudioFiles> {
    if ends_with(filename, seq![46u8, 120, 51, 97]) {
        Some(AudioFiles::X3a)
    } else if ends_with(filename, seq![46u8, 119, 97, 118]) {
        Some(AudioFiles::Wav)
    } else if ends_with(filename, seq![46u8, 98, 105, 110]) {
        Some(AudioFiles::X3Bin)
    } else {
        None
    }
}

fn has_suffix(s: &[u8], a: u8, b: u8, c: u8, d: u8) -> (r: bool)
    ensures
        r == ends_with(s@, seq![a, b, c, d]),
{
    let n = s.len();
    if n < 4 {
        return false;
    }
    let r = s[n - 4] == a && s[n - 3] == b && s[n - 2] == c && s[n - 1] == d;
    let ghost t = s@.subrange(n - 4, n as int);
    assert(t[0] == s@[n - 4] && t[1] == s@[n - 3] && t[2] == s@[n - 2] && t[3] == s@[n - 1]);
    if r {
        assert(t =~= seq![a, b, c, d]);
    }
    r
}

/// The kind of file named by `filename`: `.x3a`, `.wav` or `.bin`.
pub fn get_filetype(filename: &str) -> (r: Option<AudioFiles>)
    ensures
        r == filetype_spec(filename.spec_bytes()),
{
    let s = filename.as_bytes();
    if has_suffix(s, 46, 120, 51, 97) {
        Some(AudioFiles::X3a)
    } else if has_suffix(s, 46, 119, 97, 118) {
        Some(AudioFiles::Wav)
    } else if has_suffix(s, 46, 98, 105, 110) {
        Some(AudioFiles::X3Bin)
    } else {
        None
    }
}

} // verus!
