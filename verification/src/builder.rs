//! The decisions of the cargo driver: which arguments `cargo build` gets,
//! which artifact is analysed, and how the `memory.x` of a build is found
//! through Cargo's fingerprint metadata.
use vstd::prelude::*;

use crate::arguments::{chars_equal, Arguments};
use crate::text::{chars_of, digits, is_white_space, lower_hex, string_from_chars, white_space};

verus! {

/// A build flag passed through to `cargo build` as it is.
#[derive(Clone, Copy, Debug, PartialEq, Eq)]
pub enum BuildFlag {
    Release,
    AllFeatures,
    NoDefaultFeatures,
}

/// A build flag passed through to `cargo build` together with its value.
#[derive(Clone, Copy, Debug, PartialEq, Eq)]
pub enum BuildOption {
    Bin,
    Example,
    Features,
    FeaturesShort,
    Profile,
    Target,
    Package,
    PackageShort,
    ManifestPath,
}

pub open spec fn flag_text(flag: BuildFlag) -> Seq<char> {
    match flag {
        BuildFlag::Release => "--release"@,
        BuildFlag::AllFeatures => "--all-features"@,
        BuildFlag::NoDefaultFeatures => "--no-default-features"@,
    }
}

pub open spec fn option_text(option: BuildOption) -> Seq<char> {
    match option {
        BuildOption::Bin => "--bin"@,
        BuildOption::Example => "--example"@,
        BuildOption::Features => "--features"@,
        BuildOption::FeaturesShort => "-F"@,
        BuildOption::Profile => "--profile"@,
        BuildOption::Target => "--target"@,
        BuildOption::Package => "--package"@,
        BuildOption::PackageShort => "-p"@,
        BuildOption::ManifestPath => "--manifest-path"@,
    }
}

pub open spec fn flag_is_set_spec(arguments: Arguments, flag: BuildFlag) -> bool {
    match flag {
        BuildFlag::Release => arguments.release,
        BuildFlag::AllFeatures => arguments.all_features,
        BuildFlag::NoDefaultFeatures => arguments.no_default_features,
    }
}

pub open spec fn optional_view(o: Option<String>) -> Option<Seq<char>> {
    match o {
        Some(s) => Some(s@),
        None => None,
    }
}

/// The value that `arguments` gives for the option (`--features` and `-F`
/// both give the features, `--package` and `-p` both the package).
pub open spec fn flag_value_spec(arguments: Arguments, option: BuildOption) -> Option<Seq<char>> {
    optional_view(
        match option {
            BuildOption::Bin => arguments.bin,
            BuildOption::Example => arguments.example,
            BuildOption::Features => arguments.features,
            BuildOption::FeaturesShort => arguments.features,
            BuildOption::Profile => arguments.profile,
            BuildOption::Target => arguments.target,
            BuildOption::Package => arguments.package,
            BuildOption::PackageShort => arguments.package,
            BuildOption::ManifestPath => arguments.manifest_path,
        },
    )
}

/// The flag, where it is set.
pub open spec fn flag_arguments(arguments: Arguments, flag: BuildFlag) -> Seq<Seq<char>> {
    if flag_is_set_spec(arguments, flag) {
        seq![flag_text(flag)]
    } else {
        Seq::empty()
    }
}

/// The option and its value, where it is given.
pub open spec fn option_arguments(arguments: Arguments, option: BuildOption) -> Seq<Seq<char>> {
    match flag_value_spec(arguments, option) {
        Some(v) => seq![option_text(option), v],
        None => Seq::empty(),
    }
}

/// The arguments of `cargo build`: `build --message-format=json`, the set
/// flags (`--release`, `--all-features`, `--no-default-features`), then each
/// given option with its value (`--bin`, `--example`, `--features`, `-F`,
/// `--profile`, `--target`, `--package`, `-p`, `--manifest-path`).
pub open spec fn cargo_build_args_spec(a: Arguments) -> Seq<Seq<char>> {
    seq!["build"@, "--message-format=json"@] + flag_arguments(a, BuildFlag::Release)
        + flag_arguments(a, BuildFlag::AllFeatures) + flag_arguments(
        a,
        BuildFlag::NoDefaultFeatures,
    ) + option_arguments(a, BuildOption::Bin) + option_arguments(a, BuildOption::Example)
        + option_arguments(a, BuildOption::Features) + option_arguments(
        a,
        BuildOption::FeaturesShort,
    ) + option_arguments(a, BuildOption::Profile) + option_arguments(a, BuildOption::Target)
        + option_arguments(a, BuildOption::Package) + option_arguments(a, BuildOption::PackageShort)
        + option_arguments(a, BuildOption::ManifestPath)
}

pub open spec fn strings_view(v: Seq<String>) -> Seq<Seq<char>> {
    v.map_values(|s: String| s@)
}

/// Whether the flag is set in `arguments`.
pub fn flag_is_set(arguments: &Arguments, flag: BuildFlag) -> (b: bool)
    ensures
        b == flag_is_set_spec(*arguments, flag),
{
    match flag {
        BuildFlag::Release => arguments.release,
        BuildFlag::AllFeatures => arguments.all_features,
        BuildFlag::NoDefaultFeatures => arguments.no_default_features,
    }
}

/// The value that `arguments` gives for the option, if any.
pub fn flag_value(arguments: &Arguments, option: BuildOption) -> (v: Option<String>)
    ensures
        optional_view(v) == flag_value_spec(*arguments, option),
{
    let value = match option {
        BuildOption::Bin => &arguments.bin,
        BuildOption::Example => &arguments.example,
        BuildOption::Features => &arguments.features,
        BuildOption::FeaturesShort => &arguments.features,
        BuildOption::Profile => &arguments.profile,
        BuildOption::Target => &arguments.target,
        BuildOption::Package => &arguments.package,
        BuildOption::PackageShort => &arguments.package,
        BuildOption::ManifestPath => &arguments.manifest_path,
    };
    match value {
        Some(s) => Some(s.clone()),
        None => None,
    }
}

fn text_of_flag(flag: BuildFlag) -> (s: String)
    ensures
        s@ == flag_text(flag),
{
    match flag {
        BuildFlag::Release => "--release".to_owned(),
        BuildFlag::AllFeatures => "--all-features".to_owned(),
        BuildFlag::NoDefaultFeatures => "--no-default-features".to_owned(),
    }
}

fn text_of_option(option: BuildOption) -> (s: String)
    ensures
        s@ == option_text(option),
{
    match option {
        BuildOption::Bin => "--bin".to_owned(),
        BuildOption::Example => "--example".to_owned(),
        BuildOption::Features => "--features".to_owned(),
        BuildOption::FeaturesShort => "-F".to_owned(),
        BuildOption::Profile => "--profile".to_owned(),
        BuildOption::Target => "--target".to_owned(),
        BuildOption::Package => "--package".to_owned(),
        BuildOption::PackageShort => "-p".to_owned(),
        BuildOption::ManifestPath => "--manifest-path".to_owned(),
    }
}

fn push_flag(args: &mut Vec<String>, arguments: &Arguments, flag: BuildFlag)
    ensures
        strings_view(final(args)@) == strings_view(old(args)@) + flag_arguments(*arguments, flag),
{
    let ghost o = strings_view(args@);
    if flag_is_set(arguments, flag) {
        args.push(text_of_flag(flag));
    }
    proof {
        assert(strings_view(args@) =~= o + flag_arguments(*arguments, flag));
    }
}

fn push_option(args: &mut Vec<String>, arguments: &Arguments, option: BuildOption)
    ensures
        strings_view(final(args)@) == strings_view(old(args)@) + option_arguments(
            *arguments,
            option,
        ),
{
    let ghost o = strings_view(args@);
    match flag_value(arguments, option) {
        Some(value) => {
            args.push(text_of_option(option));
            args.push(value);
        },
        None => {},
    }
    proof {
        assert(strings_view(args@) =~= o + option_arguments(*arguments, option));
    }
}

/// The arguments that `cargo build` is run with.
pub fn cargo_build_args(arguments: &Arguments) -> (args: Vec<String>)
    ensures
        strings_view(args@) == cargo_build_args_spec(*arguments),
{
    let mut args: Vec<String> = Vec::new();
    args.push("build".to_owned());
    args.push("--message-format=json".to_owned());
    proof {
        assert(strings_view(args@) =~= seq!["build"@, "--message-format=json"@]);
    }
    push_flag(&mut args, arguments, BuildFlag::Release);
    push_flag(&mut args, arguments, BuildFlag::AllFeatures);
    push_flag(&mut args, arguments, BuildFlag::NoDefaultFeatures);
    push_option(&mut args, arguments, BuildOption::Bin);
    push_option(&mut args, arguments, BuildOption::Example);
    push_option(&mut args, arguments, BuildOption::Features);
    push_option(&mut args, arguments, BuildOption::FeaturesShort);
    push_option(&mut args, arguments, BuildOption::Profile);
    push_option(&mut args, arguments, BuildOption::Target);
    push_option(&mut args, arguments, BuildOption::Package);
    push_option(&mut args, arguments, BuildOption::PackageShort);
    push_option(&mut args, arguments, BuildOption::ManifestPath);
    proof {
        assert(strings_view(args@) =~= cargo_build_args_spec(*arguments));
    }
    args
}

/// The executable artifact that is analysed, and whether to warn that there
/// were several to choose from.
pub struct ElfChoice {
    /// The first executable artifact, if any.
    pub path: Option<String>,
    /// Several executables were built and neither `--bin` nor `--example`
    /// picked one.
    pub warn_multiple: bool,
}

/// Picks the first of the executable artifacts of a build (in the order
/// Cargo reported them).
pub fn choose_elf(executables: &Vec<String>, arguments: &Arguments) -> (choice: ElfChoice)
    ensures
        executables@.len() == 0 ==> choice.path is None,
        executables@.len() > 0 ==> (choice.path matches Some(p) && p@ == executables@[0]@),
        choice.warn_multiple == (executables@.len() > 1 && arguments.bin is None
            && arguments.example is None),
{
    let path = if executables.len() > 0 {
        Some(executables[0].clone())
    } else {
        None
    };
    let warn_multiple = executables.len() > 1 && arguments.bin.is_none()
        && arguments.example.is_none();
    ElfChoice { path, warn_multiple }
}

// ---------------------------------------------------------------------------
// Fingerprint metadata
// ---------------------------------------------------------------------------

/// The file that marks the fingerprint directory of a binary target:
/// `dep-bin-<name>`.
pub fn dep_bin_file_name(binary_name: &str) -> (f: String)
    ensures
        f@ == "dep-bin-"@ + binary_name@,
{
    let mut chars = chars_of("dep-bin-");
    let name = chars_of(binary_name);
    crate::text::push_all(&mut chars, &name);
    string_from_chars(&chars)
}

/// The fingerprint file of a binary target: `bin-<name>.json`.
pub fn fingerprint_file_name(binary_name: &str) -> (f: String)
    ensures
        f@ == "bin-"@ + binary_name@ + ".json"@,
{
    let mut chars = chars_of("bin-");
    let name = chars_of(binary_name);
    crate::text::push_all(&mut chars, &name);
    let suffix = chars_of(".json");
    crate::text::push_all(&mut chars, &suffix);
    proof {
        assert(chars@ =~= "bin-"@ + binary_name@ + ".json"@);
    }
    string_from_chars(&chars)
}

/// `flag` is followed at once by `value` somewhere in `args`.
pub open spec fn has_pair(args: Seq<Seq<char>>, flag: Seq<char>, value: Seq<char>) -> bool {
    exists|i: int| 0 <= i && i + 1 < args.len() && #[trigger] args[i] == flag && args[i + 1] == value
}

proof fn lemma_has_pair_left(x: Seq<Seq<char>>, y: Seq<Seq<char>>, f: Seq<char>, v: Seq<char>)
    requires
        has_pair(x, f, v),
    ensures
        has_pair(x + y, f, v),
{
    let i = choose|i: int| 0 <= i && i + 1 < x.len() && #[trigger] x[i] == f && x[i + 1] == v;
    assert((x + y)[i] == x[i] && (x + y)[i + 1] == x[i + 1]);
}

proof fn lemma_has_pair_right(x: Seq<Seq<char>>, y: Seq<Seq<char>>, f: Seq<char>, v: Seq<char>)
    requires
        has_pair(y, f, v),
    ensures
        has_pair(x + y, f, v),
{
    let i = choose|i: int| 0 <= i && i + 1 < y.len() && #[trigger] y[i] == f && y[i + 1] == v;
    let j = x.len() + i;
    assert((x + y)[j] == y[i] && (x + y)[j + 1] == y[i + 1]);
}

proof fn lemma_contains_left(x: Seq<Seq<char>>, y: Seq<Seq<char>>, f: Seq<char>)
    requires
        x.contains(f),
    ensures
        (x + y).contains(f),
{
    let i = choose|i: int| 0 <= i < x.len() && x[i] == f;
    assert((x + y)[i] == f);
}

proof fn lemma_contains_right(x: Seq<Seq<char>>, y: Seq<Seq<char>>, f: Seq<char>)
    requires
        y.contains(f),
    ensures
        (x + y).contains(f),
{
    let i = choose|i: int| 0 <= i < y.len() && y[i] == f;
    assert((x + y)[x.len() + i] == f);
}

/// The parts of the arguments of `cargo build`, in order.
spec fn build_arg_parts(a: Arguments) -> Seq<Seq<Seq<char>>> {
    seq![
        seq!["build"@, "--message-format=json"@],
        flag_arguments(a, BuildFlag::Release),
        flag_arguments(a, BuildFlag::AllFeatures),
        flag_arguments(a, BuildFlag::NoDefaultFeatures),
        option_arguments(a, BuildOption::Bin),
        option_arguments(a, BuildOption::Example),
        option_arguments(a, BuildOption::Features),
        option_arguments(a, BuildOption::FeaturesShort),
        option_arguments(a, BuildOption::Profile),
        option_arguments(a, BuildOption::Target),
        option_arguments(a, BuildOption::Package),
        option_arguments(a, BuildOption::PackageShort),
        option_arguments(a, BuildOption::ManifestPath),
    ]
}

/// The first `n` parts, one after the other.
spec fn joined_parts(parts: Seq<Seq<Seq<char>>>, n: int) -> Seq<Seq<char>>
    decreases n,
{
    if n <= 0 {
        Seq::empty()
    } else {
        joined_parts(parts, n - 1) + parts[n - 1]
    }
}

proof fn lemma_parts_hold(parts: Seq<Seq<Seq<char>>>, n: int, k: int, f: Seq<char>, v: Seq<char>)
    requires
        0 <= k < n <= parts.len(),
    ensures
        has_pair(parts[k], f, v) ==> has_pair(joined_parts(parts, n), f, v),
        parts[k].contains(f) ==> joined_parts(parts, n).contains(f),
    decreases n,
{
    if k == n - 1 {
        if has_pair(parts[k], f, v) {
            lemma_has_pair_right(joined_parts(parts, n - 1), parts[k], f, v);
        }
        if parts[k].contains(f) {
            lemma_contains_right(joined_parts(parts, n - 1), parts[k], f);
        }
    } else {
        lemma_parts_hold(parts, n - 1, k, f, v);
        if has_pair(parts[k], f, v) {
            lemma_has_pair_left(joined_parts(parts, n - 1), parts[n - 1], f, v);
        }
        if parts[k].contains(f) {
            lemma_contains_left(joined_parts(parts, n - 1), parts[n - 1], f);
        }
    }
}

/// `option` given with `value` is passed to `cargo build` as the option
/// followed at once by the value.
proof fn lemma_option_passed(a: Arguments, k: int, option: BuildOption, value: Seq<char>)
    requires
        1 <= k < 13,
        build_arg_parts(a)[k] == option_arguments(a, option),
        flag_value_spec(a, option) == Some(value),
        cargo_build_args_spec(a) == joined_parts(build_arg_parts(a), 13),
    ensures
        has_pair(cargo_build_args_spec(a), option_text(option), value),
{
    let part = option_arguments(a, option);
    assert(part[0] == option_text(option) && part[1] == value);
    lemma_parts_hold(build_arg_parts(a), 13, k, option_text(option), value);
}

/// Every build option that is given reaches `cargo build` as the option
/// followed at once by its value (`--bin`, `--example`, `--features` and
/// `-F`, `--profile`, `--target`, `--package` and `-p`, `--manifest-path`),
/// and every build flag that is set is among its arguments (`--release`,
/// `--all-features`, `--no-default-features`). The arguments start with
/// `build --message-format=json`.
pub proof fn law_build_options_are_passed_through(a: Arguments)
    ensures
        ({
            let args = cargo_build_args_spec(a);
            &&& args.len() >= 2
            &&& args[0] == "build"@
            &&& args[1] == "--message-format=json"@
            &&& a.bin matches Some(v) ==> has_pair(args, "--bin"@, v@)
            &&& a.example matches Some(v) ==> has_pair(args, "--example"@, v@)
            &&& a.features matches Some(v) ==> has_pair(args, "--features"@, v@) && has_pair(
                args,
                "-F"@,
                v@,
            )
            &&& a.profile matches Some(v) ==> has_pair(args, "--profile"@, v@)
            &&& a.target matches Some(v) ==> has_pair(args, "--target"@, v@)
            &&& a.package matches Some(v) ==> has_pair(args, "--package"@, v@) && has_pair(
                args,
                "-p"@,
                v@,
            )
            &&& a.manifest_path matches Some(v) ==> has_pair(args, "--manifest-path"@, v@)
            &&& a.release ==> args.contains("--release"@)
            &&& a.all_features ==> args.contains("--all-features"@)
            &&& a.no_default_features ==> args.contains("--no-default-features"@)
        }),
{
    let parts = build_arg_parts(a);
    let args = cargo_build_args_spec(a);
    assert(args =~= joined_parts(parts, 13)) by {
        reveal_with_fuel(joined_parts, 14);
    }
    let first = seq!["build"@, "--message-format=json"@];
    lemma_parts_hold(parts, 13, 0, "build"@, "--message-format=json"@);
    assert(first[0] == "build"@ && first[1] == "--message-format=json"@);
    assert(joined_parts(parts, 1) =~= first) by {
        reveal_with_fuel(joined_parts, 2);
    }
    assert(args.len() >= 2 && args[0] == "build"@ && args[1] == "--message-format=json"@) by {
        lemma_prefix_parts(parts, 1, 13);
    }
    if let Some(v) = a.bin {
        lemma_option_passed(a, 4, BuildOption::Bin, v@);
    }
    if let Some(v) = a.example {
        lemma_option_passed(a, 5, BuildOption::Example, v@);
    }
    if let Some(v) = a.features {
        lemma_option_passed(a, 6, BuildOption::Features, v@);
        lemma_option_passed(a, 7, BuildOption::FeaturesShort, v@);
    }
    if let Some(v) = a.profile {
        lemma_option_passed(a, 8, BuildOption::Profile, v@);
    }
    if let Some(v) = a.target {
        lemma_option_passed(a, 9, BuildOption::Target, v@);
    }
    if let Some(v) = a.package {
        lemma_option_passed(a, 10, BuildOption::Package, v@);
        lemma_option_passed(a, 11, BuildOption::PackageShort, v@);
    }
    if let Some(v) = a.manifest_path {
        lemma_option_passed(a, 12, BuildOption::ManifestPath, v@);
    }
    if a.release {
        assert(parts[1][0] == "--release"@);
        lemma_parts_hold(parts, 13, 1, "--release"@, "--release"@);
    }
    if a.all_features {
        assert(parts[2][0] == "--all-features"@);
        lemma_parts_hold(parts, 13, 2, "--all-features"@, "--all-features"@);
    }
    if a.no_default_features {
        assert(parts[3][0] == "--no-default-features"@);
        lemma_parts_hold(parts, 13, 3, "--no-default-features"@, "--no-default-features"@);
    }
}

/// The first `m` parts begin the first `n`.
proof fn lemma_prefix_parts(parts: Seq<Seq<Seq<char>>>, m: int, n: int)
    requires
        0 <= m <= n <= parts.len(),
    ensures
        joined_parts(parts, m).len() <= joined_parts(parts, n).len(),
        forall|i: int|
            0 <= i < joined_parts(parts, m).len() ==> #[trigger] joined_parts(parts, n)[i]
                == joined_parts(parts, m)[i],
    decreases n,
{
    if m < n {
        lemma_prefix_parts(parts, m, n - 1);
        assert forall|i: int| 0 <= i < joined_parts(parts, m).len() implies #[trigger] joined_parts(
            parts,
            n,
        )[i] == joined_parts(parts, m)[i] by {
            assert(joined_parts(parts, n)[i] == joined_parts(parts, n - 1)[i]);
        }
    }
}

/// The path components, below the directory of the built binary, of Cargo's
/// fingerprint directory.
pub fn fingerprint_directory_path() -> (p: Vec<String>)
    ensures
        strings_view(p@) == seq![".fingerprint"@],
{
    let mut p: Vec<String> = Vec::new();
    p.push(".fingerprint".to_owned());
    proof {
        assert(strings_view(p@) =~= seq![".fingerprint"@]);
    }
    p
}

/// `.fingerprint/<entry>/<file>`, as path components.
fn fingerprint_entry_path(entry: &str, file: String) -> (p: Vec<String>)
    ensures
        strings_view(p@) == seq![".fingerprint"@, entry@, file@],
{
    let ghost fv = file@;
    let mut p: Vec<String> = Vec::new();
    p.push(".fingerprint".to_owned());
    p.push(entry.to_owned());
    p.push(file);
    proof {
        assert(strings_view(p@) =~= seq![".fingerprint"@, entry@, fv]);
    }
    p
}

/// The marker file `.fingerprint/<entry>/dep-bin-<name>` whose presence makes
/// the fingerprint directory `entry` that of the binary, as path components
/// below the directory of the binary.
pub fn dep_bin_path(entry: &str, binary_name: &str) -> (p: Vec<String>)
    ensures
        strings_view(p@) == seq![".fingerprint"@, entry@, "dep-bin-"@ + binary_name@],
{
    fingerprint_entry_path(entry, dep_bin_file_name(binary_name))
}

/// The fingerprint JSON of the binary, `.fingerprint/<entry>/bin-<name>.json`,
/// as path components below the directory of the binary.
pub fn fingerprint_json_path(entry: &str, binary_name: &str) -> (p: Vec<String>)
    ensures
        strings_view(p@) == seq![".fingerprint"@, entry@, "bin-"@ + binary_name@ + ".json"@],
{
    fingerprint_entry_path(entry, fingerprint_file_name(binary_name))
}

/// The file `.fingerprint/<entry>/run-build-script-build-script-build` that
/// holds the hash of a build script run, as path components below the
/// directory of the binary.
pub fn build_script_run_path(entry: &str) -> (p: Vec<String>)
    ensures
        strings_view(p@) == seq![
            ".fingerprint"@,
            entry@,
            "run-build-script-build-script-build"@,
        ],
{
    fingerprint_entry_path(entry, "run-build-script-build-script-build".to_owned())
}

/// The file `build/<entry>/root-output` that names the output directory of
/// the build script run whose fingerprint directory is `entry`, as path
/// components below the directory of the binary.
pub fn root_output_path(entry: &str) -> (p: Vec<String>)
    ensures
        strings_view(p@) == seq!["build"@, entry@, "root-output"@],
{
    let mut p: Vec<String> = Vec::new();
    p.push("build".to_owned());
    p.push(entry.to_owned());
    p.push("root-output".to_owned());
    proof {
        assert(strings_view(p@) =~= seq!["build"@, entry@, "root-output"@]);
    }
    p
}

/// The `memory.x` in the output directory that the contents of a
/// `root-output` file name (without surrounding white space), as path
/// components.
pub fn memory_x_path(root_output_contents: &str) -> (p: Vec<String>)
    ensures
        strings_view(p@) == seq![trim_spec(root_output_contents@), "memory.x"@],
{
    let mut p: Vec<String> = Vec::new();
    p.push(trimmed(root_output_contents));
    p.push("memory.x".to_owned());
    proof {
        assert(strings_view(p@) =~= seq![trim_spec(root_output_contents@), "memory.x"@]);
    }
    p
}

/// The entries of the `deps` array of a fingerprint JSON document, each as
/// (its element 1 where that is a string, its element 3 where that is an
/// unsigned integer), as `serde_json` reads them; `None` where the text is
/// not JSON or `deps` is not an array.
pub uninterp spec fn fingerprint_dependencies(json: Seq<char>) -> Option<
    Seq<(Option<Seq<char>>, Option<u64>)>,
>;

pub open spec fn dependencies_view(deps: Option<Vec<(Option<String>, Option<u64>)>>) -> Option<
    Seq<(Option<Seq<char>>, Option<u64>)>,
> {
    match deps {
        Some(v) => Some(
            v@.map_values(|d: (Option<String>, Option<u64>)| (optional_view(d.0), d.1)),
        ),
        None => None,
    }
}

/// Trusted: parses `json` with `serde_json::from_str` into a
/// `serde_json::Value` and reads `value["deps"].as_array()`, mapping each
/// entry `d` to `(d.get(1) as a string, d.get(3) as a u64)`. The contract
/// only names the result as a function of the text.
#[verifier::external_body]
fn read_fingerprint_dependencies(json: &str) -> (deps: Option<Vec<(Option<String>, Option<u64>)>>)
    ensures
        dependencies_view(deps) == fingerprint_dependencies(json@),
{
    let value: serde_json::Value = serde_json::from_str(json).ok()?;
    Some(
        value["deps"].as_array()?.iter().map(
            |d| (d.get(1).and_then(|v| v.as_str()).map(String::from), d.get(3).and_then(|v| v.as_u64())),
        ).collect(),
    )
}

pub open spec fn build_script_dependency_name() -> Seq<char> {
    "build_script_build"@
}

/// The hash of the first dependency named `build_script_build` from index
/// `i` on (`None` where there is none, or where it has no hash).
pub open spec fn build_script_hash_from(deps: Seq<(Option<Seq<char>>, Option<u64>)>, i: int) -> Option<
    u64,
>
    decreases deps.len() - i,
{
    if i < 0 || i >= deps.len() {
        None
    } else if deps[i].0 == Some(build_script_dependency_name()) {
        deps[i].1
    } else {
        build_script_hash_from(deps, i + 1)
    }
}

/// The hash of the build script run of a binary target, from the text of its
/// fingerprint JSON: element 3 of the first `deps` entry whose element 1 is
/// `build_script_build`.
pub fn build_script_hash_from_fingerprint(json: &str) -> (hash: Option<u64>)
    ensures
        hash == match fingerprint_dependencies(json@) {
            Some(deps) => build_script_hash_from(deps, 0),
            None => None,
        },
{
    let read = read_fingerprint_dependencies(json);
    let deps = match read {
        Some(d) => d,
        None => {
            return None;
        },
    };
    let ghost dv = deps@.map_values(|d: (Option<String>, Option<u64>)| (optional_view(d.0), d.1));
    proof {
        assert(fingerprint_dependencies(json@) == Some(dv));
    }
    let wanted = chars_of("build_script_build");
    let mut i: usize = 0;
    while i < deps.len()
        invariant
            i <= deps@.len(),
            dv == deps@.map_values(
                |d: (Option<String>, Option<u64>)| (optional_view(d.0), d.1),
            ),
            fingerprint_dependencies(json@) == Some(dv),
            wanted@ == build_script_dependency_name(),
            build_script_hash_from(dv, 0) == build_script_hash_from(dv, i as int),
        decreases deps@.len() - i,
    {
        let (name, hash) = &deps[i];
        let found = match name {
            Some(n) => {
                let chars = chars_of(n.as_str());
                let same = chars_equal(chars.as_slice(), wanted.as_slice());
                proof {
                    assert(same == (n@ == build_script_dependency_name()));
                }
                same
            },
            None => false,
        };
        proof {
            assert(dv[i as int] == (optional_view(*name), *hash));
        }
        if found {
            proof {
                assert(dv[i as int].0 == Some(build_script_dependency_name()));
                assert(build_script_hash_from(dv, i as int) == *hash);
            }
            return *hash;
        }
        i = i + 1;
    }
    None
}

/// `x` with its eight bytes in reverse order.
pub open spec fn swap_bytes_spec(x: u64) -> u64 {
    ((x & 0xff) << 56) | (((x >> 8) & 0xff) << 48) | (((x >> 16) & 0xff) << 40) | (((x >> 24)
        & 0xff) << 32) | (((x >> 32) & 0xff) << 24) | (((x >> 40) & 0xff) << 16) | (((x >> 48)
        & 0xff) << 8) | (x >> 56)
}

/// Trusted: `u64::to_be`, which std documents as the identity on big-endian
/// targets and a byte swap on little-endian ones; which one holds depends on
/// the machine, so the contract states both.
#[verifier::external_body]
fn to_big_endian(x: u64) -> (r: u64)
    ensures
        r == x || r == swap_bytes_spec(x),
{
    x.to_be()
}

/// The start of `s` after its leading white space.
pub open spec fn leading_space_end(s: Seq<char>, i: int) -> int
    decreases s.len() - i,
{
    if 0 <= i < s.len() && is_white_space(s[i]) {
        leading_space_end(s, i + 1)
    } else {
        i
    }
}

/// The end of `s` before its trailing white space, not below `lo`.
pub open spec fn trailing_space_start(s: Seq<char>, lo: int, j: int) -> int
    decreases j,
{
    if j > lo && j > 0 && is_white_space(s[j - 1]) {
        trailing_space_start(s, lo, j - 1)
    } else {
        j
    }
}

/// `s` without leading and trailing Unicode white space, as `str::trim`
/// gives it.
pub open spec fn trim_spec(s: Seq<char>) -> Seq<char> {
    let lo = leading_space_end(s, 0);
    s.subrange(lo, trailing_space_start(s, lo, s.len() as int))
}

/// `s` without leading and trailing Unicode white space.
pub fn trim(s: &Vec<char>) -> (t: Vec<char>)
    ensures
        t@ == trim_spec(s@),
{
    let mut lo: usize = 0;
    while lo < s.len() && white_space(s[lo])
        invariant
            lo <= s@.len(),
            leading_space_end(s@, 0) == leading_space_end(s@, lo as int),
        decreases s@.len() - lo,
    {
        lo = lo + 1;
    }
    let mut hi: usize = s.len();
    while hi > lo && white_space(s[hi - 1])
        invariant
            lo <= hi <= s@.len(),
            lo == leading_space_end(s@, 0),
            trailing_space_start(s@, lo as int, s@.len() as int) == trailing_space_start(
                s@,
                lo as int,
                hi as int,
            ),
        decreases hi,
    {
        hi = hi - 1;
    }
    let mut t: Vec<char> = Vec::new();
    let mut k = lo;
    while k < hi
        invariant
            lo <= k <= hi <= s@.len(),
            t@ == s@.subrange(lo as int, k as int),
        decreases hi - k,
    {
        t.push(s[k]);
        k = k + 1;
        proof {
            assert(t@ =~= s@.subrange(lo as int, k as int));
        }
    }
    t
}

/// `s` without leading and trailing Unicode white space, as text (the
/// contents of a `root-output` file name the build script's output
/// directory this way).
pub fn trimmed(s: &str) -> (t: String)
    ensures
        t@ == trim_spec(s@),
{
    let chars = chars_of(s);
    let t = trim(&chars);
    string_from_chars(&t)
}

/// Whether the contents of a file, without leading and trailing white space,
/// are the lower-case hexadecimal digits of `value`.
pub fn is_trimmed_lower_hex_of(contents: &str, value: u64) -> (b: bool)
    ensures
        b == (trim_spec(contents@) == digits(value as nat, 16)),
{
    let target = lower_hex(value);
    let chars = chars_of(contents);
    let trimmed = trim(&chars);
    chars_equal(trimmed.as_slice(), target.as_slice())
}

/// Whether the contents of a `run-build-script-build-script-build` file name
/// the build script run with the given hash: the trimmed contents are the
/// lower-case hexadecimal digits of the hash in big-endian byte order (so
/// byte-swapped on little-endian machines).
pub fn matches_build_script_run(contents: &str, build_script_hash: u64) -> (b: bool)
    ensures
        b == (trim_spec(contents@) == digits(build_script_hash as nat, 16)) || b == (trim_spec(
            contents@,
        ) == digits(swap_bytes_spec(build_script_hash) as nat, 16)),
{
    is_trimmed_lower_hex_of(contents, to_big_endian(build_script_hash))
}

} // verus!
