//! Whether a region is served read-only or read-write.

use vstd::prelude::*;

verus! {

/// How a region is opened for service.
#[derive(Clone, Copy, Debug, PartialEq, Eq, Structural)]
pub enum Mode {
    /// Every mutating request is refused.
    Ro,
    /// Reads, writes and flushes are served.
    Rw,
}

/// The text names no mode.
#[derive(Clone, Copy, Debug, PartialEq, Eq, Structural)]
pub struct ModeError;

impl ModeError {
    /// What the user is told.
    pub fn message(&self) -> (text: &'static str)
        ensures
            text@ == "not a valid mode!"@,
    {
        "not a valid mode!"
    }
}

/// The lowercase form of a string, as `str::to_lowercase` computes it.
pub uninterp spec fn lowercase_of(s: Seq<char>) -> Seq<char>;

/// The mode that an already lowercased word names, if any.
pub open spec fn mode_named(lowered: Seq<char>) -> Option<Mode> {
    if lowered == "ro"@ {
        Some(Mode::Ro)
    } else if lowered == "rw"@ {
        Some(Mode::Rw)
    } else {
        None
    }
}

/// Calls `str::to_lowercase`. The result is the Unicode lowercase form of
/// the argument, a function of the argument alone; nothing more is claimed
/// of it here.
#[verifier::external_body]
fn to_lowercase(s: &str) -> (lowered: String)
    ensures
        lowered@ == lowercase_of(s@),
{
    s.to_lowercase()
}

/// Whether `s` is exactly the two characters `a`, `b`.
fn is_pair(s: &str, a: char, b: char) -> (r: bool)
    ensures
        r == (s@ == seq![a, b]),
{
    if s.unicode_len() != 2 {
        return false;
    }
    let r = s.get_char(0) == a && s.get_char(1) == b;
    proof {
        if r {
            assert(s@ =~= seq![a, b]);
        }
    }
    r
}

impl Mode {
    /// Reads a mode from a word that is already in lowercase: `ro` or `rw`.
    pub fn from_lowercase(lowered: &str) -> (r: Result<Mode, ModeError>)
        ensures
            match mode_named(lowered@) {
                Some(m) => r == Ok::<Mode, ModeError>(m),
                None => r == Err::<Mode, ModeError>(ModeError),
            },
    {
        proof {
            reveal_strlit("ro");
            reveal_strlit("rw");
            assert("ro"@ =~= seq!['r', 'o']);
            assert("rw"@ =~= seq!['r', 'w']);
        }
        if is_pair(lowered, 'r', 'o') {
            Ok(Mode::Ro)
        } else if is_pair(lowered, 'r', 'w') {
            Ok(Mode::Rw)
        } else {
            Err(ModeError)
        }
    }

    /// Reads a mode from text, ignoring case: `ro` is read-only, `rw` is
    /// read-write, anything else is refused with the error whose message
    /// is `not a valid mode!`.
    pub fn from_str(s: &str) -> (r: Result<Mode, ModeError>)
        ensures
            match mode_named(lowercase_of(s@)) {
                Some(m) => r == Ok::<Mode, ModeError>(m),
                None => r == Err::<Mode, ModeError>(ModeError),
            },
    {
        let lowered = to_lowercase(s);
        Mode::from_lowercase(lowered.as_str())
    }

    /// Whether mutating requests are refused in this mode.
    pub fn is_read_only(&self) -> (r: bool)
        ensures
            r == (*self == Mode::Ro),
    {
        match self {
            Mode::Ro => true,
            Mode::Rw => false,
        }
    }
}

} // verus!
