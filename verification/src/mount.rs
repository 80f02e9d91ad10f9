//! Mount descriptors: named flag tokens resolved to OS bit flags at load
//! time, and best-effort application of declared mounts through the OS.

use vstd::prelude::*;
use crate::units::Units;

verus! {

/// Bit value of `MS_RDONLY`.
pub const FLAG_RDONLY: u64 = 0x1;

/// Bit value of `MS_NOSUID`.
pub const FLAG_NOSUID: u64 = 0x2;

/// Bit value of `MS_NODEV`.
pub const FLAG_NODEV: u64 = 0x4;

/// Bit value of `MS_NOEXEC`.
pub const FLAG_NOEXEC: u64 = 0x8;

/// Bit value of `MS_BIND`.
pub const FLAG_BIND: u64 = 0x1000;

/// Bit value of `MS_REC`.
pub const FLAG_REC: u64 = 0x4000;

/// Bit value of `MS_PRIVATE`.
pub const FLAG_PRIVATE: u64 = 0x40000;

/// Bit value of `MS_SLAVE`.
pub const FLAG_SLAVE: u64 = 0x80000;

/// Bit value of `MS_SHARED`.
pub const FLAG_SHARED: u64 = 0x100000;

/// Bit value of `MS_RELATIME`.
pub const FLAG_RELATIME: u64 = 0x200000;

/// Bit value of `MS_STRICTATIME`.
pub const FLAG_STRICTATIME: u64 = 0x1000000;

/// Bit value of `MS_LAZYTIME`.
pub const FLAG_LAZYTIME: u64 = 0x2000000;

/// A declarative mount: where to mount what, with flags already resolved
/// from their named tokens to OS bits.
pub struct Mount {
    pub source: Option<String>,
    pub target: String,
    pub fstype: Option<String>,
    pub flags: u64,
    pub data: Option<String>,
    pub create: Option<bool>,
}

/// The OS bit for one named flag token, or `None` for an unrecognized token.
pub open spec fn spec_flag_bits(tok: Seq<char>) -> Option<u64> {
    if tok == "MS_RDONLY"@ {
        Some(FLAG_RDONLY)
    } else if tok == "MS_NOSUID"@ {
        Some(FLAG_NOSUID)
    } else if tok == "MS_NODEV"@ {
        Some(FLAG_NODEV)
    } else if tok == "MS_NOEXEC"@ {
        Some(FLAG_NOEXEC)
    } else if tok == "MS_RELATIME"@ {
        Some(FLAG_RELATIME)
    } else if tok == "MS_BIND"@ {
        Some(FLAG_BIND)
    } else if tok == "MS_REC"@ {
        Some(FLAG_REC)
    } else if tok == "MS_PRIVATE"@ {
        Some(FLAG_PRIVATE)
    } else if tok == "MS_SHARED"@ {
        Some(FLAG_SHARED)
    } else if tok == "MS_SLAVE"@ {
        Some(FLAG_SLAVE)
    } else if tok == "MS_STRICTATIME"@ {
        Some(FLAG_STRICTATIME)
    } else if tok == "MS_LAZYTIME"@ {
        Some(FLAG_LAZYTIME)
    } else {
        None
    }
}

/// Resolves one flag token to its OS bit; unrecognized tokens are refused.
pub fn flag_bits(tok: &str) -> (r: Option<u64>)
    ensures
        r == spec_flag_bits(tok@),
{
    if crate::names::str_eq(tok, "MS_RDONLY") {
        Some(FLAG_RDONLY)
    } else if crate::names::str_eq(tok, "MS_NOSUID") {
        Some(FLAG_NOSUID)
    } else if crate::names::str_eq(tok, "MS_NODEV") {
        Some(FLAG_NODEV)
    } else if crate::names::str_eq(tok, "MS_NOEXEC") {
        Some(FLAG_NOEXEC)
    } else if crate::names::str_eq(tok, "MS_RELATIME") {
        Some(FLAG_RELATIME)
    } else if crate::names::str_eq(tok, "MS_BIND") {
        Some(FLAG_BIND)
    } else if crate::names::str_eq(tok, "MS_REC") {
        Some(FLAG_REC)
    } else if crate::names::str_eq(tok, "MS_PRIVATE") {
        Some(FLAG_PRIVATE)
    } else if crate::names::str_eq(tok, "MS_SHARED") {
        Some(FLAG_SHARED)
    } else if crate::names::str_eq(tok, "MS_SLAVE") {
        Some(FLAG_SLAVE)
    } else if crate::names::str_eq(tok, "MS_STRICTATIME") {
        Some(FLAG_STRICTATIME)
    } else if crate::names::str_eq(tok, "MS_LAZYTIME") {
        Some(FLAG_LAZYTIME)
    } else {
        None
    }
}

/// The combined bits of a token list, or `None` as soon as one token is
/// unrecognized.
pub open spec fn spec_parse_flags(toks: Seq<Seq<char>>) -> Option<u64>
    decreases toks.len(),
{
    if toks.len() == 0 {
        Some(0u64)
    } else {
        match spec_parse_flags(toks.drop_last()) {
            Some(acc) => match spec_flag_bits(toks.last()) {
                Some(b) => Some(acc | b),
                None => None,
            },
            None => None,
        }
    }
}

/// Index of the first unrecognized token, meaningful only when parsing fails.
pub open spec fn spec_first_bad_flag(toks: Seq<Seq<char>>) -> int
    decreases toks.len(),
{
    if toks.len() == 0 {
        0
    } else if spec_flag_bits(toks[0]) is None {
        0
    } else {
        1 + spec_first_bad_flag(toks.drop_first())
    }
}

/// Resolves a list of named flag tokens into one OS bit value.
///
/// Fails exactly when some token is unrecognized; the error names the first
/// such token, and no mount is attempted with it.
pub fn parse_flags(toks: &Vec<String>) -> (r: Result<u64, String>)
    ensures
        match r {
            Ok(f) => Some(f) == spec_parse_flags(toks@.map_values(|t: String| t@)),
            Err(m) => {
                &&& spec_parse_flags(toks@.map_values(|t: String| t@)) is None
                &&& {
                    let bad = spec_first_bad_flag(toks@.map_values(|t: String| t@));
                    &&& 0 <= bad < toks@.len()
                    &&& m@ == "unknown mount flag: "@ + toks@[bad]@
                }
            },
        },
{
    let ghost views = toks@.map_values(|t: String| t@);
    let mut acc: u64 = 0;
    let mut i: usize = 0;
    while i < toks.len()
        invariant
            i <= toks@.len(),
            views == toks@.map_values(|t: String| t@),
            spec_parse_flags(views.take(i as int)) == Some(acc),
            forall|j: int| 0 <= j < i ==> spec_flag_bits(#[trigger] views[j]) is Some,
        decreases toks@.len() - i,
    {
        match flag_bits(toks[i].as_str()) {
            Some(b) => {
                proof {
                    assert(views.take(i + 1 as int).drop_last() =~= views.take(i as int));
                    assert(views.take(i + 1 as int).last() == views[i as int]);
                }
                acc = acc | b;
            },
            None => {
                proof {
                    lemma_first_bad_flag(views, i as int);
                }
                let m = String::from_str("unknown mount flag: ").concat(toks[i].as_str());
                return Err(m);
            },
        }
        i += 1;
    }
    proof {
        assert(views.take(toks@.len() as int) =~= views);
    }
    Ok(acc)
}

/// A prefix of recognized tokens followed by an unrecognized one makes the
/// whole list unparseable, and that token is the first bad one.
proof fn lemma_first_bad_flag(toks: Seq<Seq<char>>, i: int)
    requires
        0 <= i < toks.len(),
        spec_flag_bits(toks[i]) is None,
        forall|j: int| 0 <= j < i ==> spec_flag_bits(#[trigger] toks[j]) is Some,
    ensures
        spec_parse_flags(toks) is None,
        spec_first_bad_flag(toks) == i,
    decreases toks.len(),
{
    if i == 0 {
        lemma_parse_flags_bad_member(toks, 0);
    } else {
        lemma_first_bad_flag(toks.drop_first(), i - 1);
        lemma_parse_flags_bad_member(toks, i);
    }
}

/// One unrecognized token anywhere makes the whole list unparseable.
proof fn lemma_parse_flags_bad_member(toks: Seq<Seq<char>>, i: int)
    requires
        0 <= i < toks.len(),
        spec_flag_bits(toks[i]) is None,
    ensures
        spec_parse_flags(toks) is None,
    decreases toks.len(),
{
    if i < toks.len() - 1 {
        lemma_parse_flags_bad_member(toks.drop_last(), i);
    }
}

impl Mount {
    /// Builds a mount from its declarative fields, resolving the named flag
    /// tokens. A descriptor with an unrecognized token is rejected here, at
    /// load time, and never reaches the mount operation.
    pub fn from_descriptor(
        source: Option<String>,
        target: String,
        fstype: Option<String>,
        flag_tokens: &Vec<String>,
        data: Option<String>,
        create: Option<bool>,
    ) -> (r: Result<Mount, String>)
        ensures
            match r {
                Ok(m) => {
                    &&& Some(m.flags) == spec_parse_flags(flag_tokens@.map_values(|t: String| t@))
                    &&& m.source == source
                    &&& m.target == target
                    &&& m.fstype == fstype
                    &&& m.data == data
                    &&& m.create == create
                },
                Err(_) => spec_parse_flags(flag_tokens@.map_values(|t: String| t@)) is None,
            },
    {
        match parse_flags(flag_tokens) {
            Ok(flags) => Ok(Mount { source, target, fstype, flags, data, create }),
            Err(m) => Err(m),
        }
    }
}

/// Relies on nix::mount::mount to perform the mount syscall with the given
/// resolved flag bits; a failure is deliberately ignored, as a missing
/// optional filesystem must not block boot.
#[verifier::external_body]
fn os_mount(source: Option<&str>, target: &str, fstype: Option<&str>, flags: u64, data: Option<&str>) {
    let _ = nix::mount::mount(
        source,
        target,
        fstype,
        nix::mount::MsFlags::from_bits_truncate(flags),
        data,
    );
}

/// Relies on nix::mount::umount to unmount the target path; a failure is
/// deliberately ignored.
#[verifier::external_body]
fn os_umount(target: &str) {
    let _ = nix::mount::umount(target);
}

/// Relies on nix::unistd::mkdir to create one directory with the given mode
/// bits; a failure (for instance, the directory already exists) is
/// deliberately ignored.
#[verifier::external_body]
fn os_mkdir(path: &str, mode: u32) {
    let _ = nix::unistd::mkdir(path, nix::sys::stat::Mode::from_bits_truncate(mode));
}

/// Best-effort creation of a directory and all its ancestors: every prefix of
/// the path that ends at a separator is created in turn, errors ignored.
fn create_dir_tree(path: &str) {
    let len = path.unicode_len();
    let mut i: usize = 0;
    while i < len
        invariant
            i <= len,
            len == path@.len(),
        decreases len - i,
    {
        if path.get_char(i) == '/' && i > 0 {
            os_mkdir(path.substring_char(0, i), 0o755);
        }
        i += 1;
    }
    os_mkdir(path, 0o755);
}

/// Applies one declared mount: best-effort creation of the target directory
/// tree when asked for, then the mount operation with the resolved flags.
/// Failure of either step is ignored — a missing optional filesystem must not
/// block boot.
pub fn mount_target(target: &Mount) {
    if let Some(true) = target.create {
        create_dir_tree(target.target.as_str());
    }
    os_mount(
        match &target.source {
            Some(s) => Some(s.as_str()),
            None => None,
        },
        target.target.as_str(),
        match &target.fstype {
            Some(s) => Some(s.as_str()),
            None => None,
        },
        target.flags,
        match &target.data {
            Some(s) => Some(s.as_str()),
            None => None,
        },
    );
}

/// Best-effort unmount of a declared mount's target, errors ignored; used
/// only for manual paths, never invoked automatically.
pub fn umount_target(target: &Mount) {
    os_umount(target.target.as_str());
}

/// Applies every mount declared by an enabled unit, in registry order across
/// units and in list order within one unit. No dependency ordering between
/// mounts is modeled.
pub fn mount_units(units: &Units)
    requires
        units.wf(),
{
    let n = units.unit_count();
    let mut i: usize = 0;
    while i < n
        invariant
            units.wf(),
            n == units@.units.len(),
            i <= n,
        decreases n - i,
    {
        if units.enabled_at_index(i) {
            let unit = units.unit_at(i);
            if let Some(mounts) = &unit.mount {
                let m = mounts.len();
                let mut j: usize = 0;
                while j < m
                    invariant
                        j <= m,
                        m == mounts@.len(),
                    decreases m - j,
                {
                    mount_target(&mounts[j]);
                    j += 1;
                }
            }
        }
        i += 1;
    }
}

} // verus!
