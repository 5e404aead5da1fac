//! The command-line arguments of `cargo map-segments`, as plain values.
use vstd::prelude::*;

use crate::text::chars_of;

verus! {

/// The command-line arguments. Paths are held as (lossily decoded) text.
#[derive(Debug, Clone)]
pub struct Arguments {
    /// Path to an ELF binary to analyse directly; skips `cargo build`.
    pub binary: Option<String>,
    /// Binary target to build and analyse.
    pub bin: Option<String>,
    /// Example target to build and analyse.
    pub example: Option<String>,
    /// Build in release mode.
    pub release: bool,
    /// Space or comma separated list of features to activate.
    pub features: Option<String>,
    /// Activate all available features.
    pub all_features: bool,
    /// Do not activate the `default` feature.
    pub no_default_features: bool,
    /// Build artifacts with the specified profile.
    pub profile: Option<String>,
    /// Build for the target triple.
    pub target: Option<String>,
    /// Package to build.
    pub package: Option<String>,
    /// Path to `Cargo.toml`.
    pub manifest_path: Option<String>,
    /// Path to a `memory.x` linker script.
    pub memory_map: Option<String>,
    /// Output width in columns.
    pub width: Option<usize>,
}

/// The name that Cargo puts in front of the arguments of the subcommand.
pub open spec fn package_name_argument() -> Seq<char> {
    "map-segments"@
}

/// Whether the argument at `index` is the subcommand name that Cargo inserts
/// as the second argument when invoked as `cargo map-segments` (so it can be
/// skipped, and the same arguments parse either way). `arg` is `None` where
/// the argument is not valid Unicode.
pub fn is_package_name_argument(index: usize, arg: Option<&str>) -> (b: bool)
    ensures
        b == (index == 1 && arg is Some && arg->0@ == package_name_argument()),
{
    if index != 1 {
        return false;
    }
    match arg {
        Some(a) => {
            let given = chars_of(a);
            let name = chars_of("map-segments");
            chars_equal(given.as_slice(), name.as_slice())
        },
        None => false,
    }
}

/// Whether `a` and `b` hold the same characters.
pub fn chars_equal(a: &[char], b: &[char]) -> (r: bool)
    ensures
        r == (a@ == b@),
{
    if a.len() != b.len() {
        return false;
    }
    let mut i: usize = 0;
    while i < a.len()
        invariant
            a@.len() == b@.len(),
            i <= a@.len(),
            forall|k: int| 0 <= k < i ==> a@[k] == b@[k],
        decreases a@.len() - i,
    {
        if a[i] != b[i] {
            return false;
        }
        i = i + 1;
    }
    proof {
        assert(a@ =~= b@);
    }
    true
}

} // verus!
