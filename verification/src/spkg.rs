//! Builds a Substreams package: which step comes next, what the package is called, and what is
//! reported when a step fails.

use crate::manifest::{law_rest_of_the_manifest_is_kept, starts_at, Dict, Value};
use vstd::prelude::*;
use vstd::string::StringExecFns;

verus! {

broadcast use vstd::string::axiom_spec_iter;

/// `String::push` appends one character.
pub assume_specification[ std::string::String::push ](text: &mut std::string::String, c: char)
    ensures
        final(text)@ == old(text)@.push(c),
;

/// `text` with a hyphen for every underscore.
pub open spec fn hyphenated(text: Seq<char>) -> Seq<char> {
    text.map_values(
        |c: char|
            if c == '_' {
                '-'
            } else {
                c
            },
    )
}

/// `text` with a hyphen for every underscore.
fn hyphenate(text: &str) -> (result: String)
    ensures
        result@ == hyphenated(text@),
{
    let mut result = "".to_owned();
    proof {
        reveal_strlit("");
        assert(result@ =~= hyphenated(text@.take(0)));
    }
    for c in chars: text.chars()
        invariant
            chars.seq() == text@,
            result@ == hyphenated(text@.take(chars.index() as int)),
    {
        let ghost done: int = chars.index() as int;
        result.push(
            if c == '_' {
                '-'
            } else {
                c
            },
        );
        assert(text@.take(done + 1) =~= text@.take(done).push(c));
        assert(result@ =~= hyphenated(text@.take(done + 1)));
    }
    assert(text@.take(text@.len() as int) =~= text@);
    result
}

/// The value that a manifest holds under `key` of its package section.
pub open spec fn package_entry(manifest: Value, key: Seq<char>) -> Option<Value> {
    match manifest.entry("package"@) {
        Some(package) => package.entry(key),
        None => None,
    }
}

/// What a manifest must say of its package so that the package can be named.
#[derive(Clone, Copy, PartialEq, Eq, Structural, Debug)]
pub enum PackagePart {
    Package,
    Name,
    NameText,
    Version,
}

impl PackagePart {
    /// The manifest lacks this part, and it has those that are looked up before.
    pub open spec fn first_missing_in(self, manifest: Value) -> bool {
        let package = manifest.entry("package"@);
        let name = package_entry(manifest, "name"@);
        match self {
            PackagePart::Package => package is None,
            PackagePart::Name => package is Some && name is None,
            PackagePart::NameText => name matches Some(value) && value.text() is None,
            PackagePart::Version => {
                &&& name matches Some(value)
                &&& value.text() is Some
                &&& package_entry(manifest, "version"@) is None
            },
        }
    }

    /// What is said when the part is missing.
    pub open spec fn text(self) -> Seq<char> {
        match self {
            PackagePart::Package => "Package not found on YAML"@,
            PackagePart::Name => "Name not found on YAML"@,
            PackagePart::NameText => "Failed to convert name to string."@,
            PackagePart::Version => "Version not found on YAML"@,
        }
    }

    /// What is said when the part is missing.
    pub fn message(&self) -> (message: &'static str)
        ensures
            message@ == self.text(),
    {
        match self {
            PackagePart::Package => "Package not found on YAML",
            PackagePart::Name => "Name not found on YAML",
            PackagePart::NameText => "Failed to convert name to string.",
            PackagePart::Version => "Version not found on YAML",
        }
    }
}

/// The manifest has a package section with a name, which is a text, and a version.
pub open spec fn is_named(manifest: Value) -> bool {
    &&& package_entry(manifest, "name"@) matches Some(name)
    &&& name.text() is Some
    &&& package_entry(manifest, "version"@) is Some
}

/// The file that a package is packed into: in `parent_dir`, called after the name of the package,
/// with hyphens for underscores, and its version. A version that is not a text counts as empty.
pub open spec fn spkg_path(parent_dir: Seq<char>, manifest: Value) -> Seq<char> {
    let name = package_entry(manifest, "name"@)->0.text()->0;
    let version = match package_entry(manifest, "version"@)->0.text() {
        Some(version) => version,
        None => Seq::empty(),
    };
    parent_dir + "/"@ + hyphenated(name) + "-"@ + version + ".spkg"@
}

/// The file that the package of a manifest in `parent_dir` is packed into, or the first part that
/// the manifest lacks for its package to be named.
pub fn spkg_name(parent_dir: &str, manifest: &Value) -> (path: Result<String, PackagePart>)
    ensures
        match path {
            Ok(path) => is_named(*manifest) && path@ == spkg_path(parent_dir@, *manifest),
            Err(part) => part.first_missing_in(*manifest),
        },
{
    let package = match manifest.find("package") {
        Some(package) => package,
        None => {
            return Err(PackagePart::Package);
        },
    };
    let name = match package.find("name") {
        Some(name) => name,
        None => {
            return Err(PackagePart::Name);
        },
    };
    let package_name = match name.as_str() {
        Some(name) => hyphenate(name),
        None => {
            return Err(PackagePart::NameText);
        },
    };
    let version = match package.find("version") {
        Some(version) => version,
        None => {
            return Err(PackagePart::Version);
        },
    };
    let package_version: &str = match version.as_str() {
        Some(version) => version,
        None => "",
    };
    proof {
        reveal_strlit("");
        assert(""@ =~= Seq::<char>::empty());
    }
    Ok(
        parent_dir.to_owned().concat("/").concat(package_name.as_str()).concat("-").concat(
            package_version,
        ).concat(".spkg"),
    )
}

/// What a step of a build came to.
#[derive(Debug)]
pub enum Event {
    /// The step was carried out.
    Done,
    /// A program ran, but did not succeed; what it wrote to its error output.
    Failed(String),
    /// The step could not be carried out.
    NotRun,
}

/// What the pack command came to.
#[derive(Debug)]
pub enum PackOutcome {
    Packed,
    Failed(String),
    NotRun,
}

/// Why a build failed.
#[derive(Debug)]
pub enum Failure {
    /// A step could not be carried out; the step's own error says why.
    Step,
    /// The compiler could not be run.
    CompileNotRun,
    /// The compiler reported a failure.
    CompileFailed,
    /// The Substreams command-line tool could not be run.
    CliMissing,
    /// The pack command could not be run.
    PackNotRun,
    /// The pack command reported a failure; what it wrote to its error output.
    PackFailed(String),
}

/// Where a build stands: the step that is to be carried out next, or how it ended.
#[derive(Debug)]
pub enum Stage {
    /// The WASM binary of the package is to be compiled.
    CompileWasm,
    /// The manifest is to be copied to the backup.
    BackUp,
    /// The manifest is to be read.
    Read,
    /// The edited manifest is to be written.
    Write,
    /// It is to be found out whether the Substreams command-line tool can be run.
    ProbeCli,
    /// The pack command is to be run.
    Pack,
    /// The manifest is to be copied back from the backup.
    Restore(PackOutcome),
    /// The backup is to be removed.
    RemoveBackup(PackOutcome),
    /// The package was built.
    Built,
    /// The package could not be built.
    Broken(Failure),
}

impl PackOutcome {
    /// How a build with this outcome ends.
    pub open spec fn ending(self) -> Stage {
        match self {
            PackOutcome::Packed => Stage::Built,
            PackOutcome::Failed(stderr) => Stage::Broken(Failure::PackFailed(stderr)),
            PackOutcome::NotRun => Stage::Broken(Failure::PackNotRun),
        }
    }
}

/// Where a build starts: a package whose WASM binary is there already is not compiled.
pub open spec fn first(prebuilt_wasm: bool) -> Stage {
    if prebuilt_wasm {
        Stage::BackUp
    } else {
        Stage::CompileWasm
    }
}

impl Stage {
    /// Where a build stands once its step came to `event`. What the pack command came to is
    /// reported only after the manifest was restored and the backup removed.
    pub open spec fn after(self, event: Event) -> Stage {
        match self {
            Stage::CompileWasm => match event {
                Event::Done => Stage::BackUp,
                Event::Failed(_) => Stage::Broken(Failure::CompileFailed),
                Event::NotRun => Stage::Broken(Failure::CompileNotRun),
            },
            Stage::ProbeCli => match event {
                Event::NotRun => Stage::Broken(Failure::CliMissing),
                _ => Stage::Pack,
            },
            Stage::Pack => Stage::Restore(
                match event {
                    Event::Done => PackOutcome::Packed,
                    Event::Failed(stderr) => PackOutcome::Failed(stderr),
                    Event::NotRun => PackOutcome::NotRun,
                },
            ),
            Stage::Built => self,
            Stage::Broken(_) => self,
            _ => if event is Done {
                match self {
                    Stage::BackUp => Stage::Read,
                    Stage::Read => Stage::Write,
                    Stage::Write => Stage::ProbeCli,
                    Stage::Restore(outcome) => Stage::RemoveBackup(outcome),
                    Stage::RemoveBackup(outcome) => outcome.ending(),
                    _ => self,
                }
            } else {
                Stage::Broken(Failure::Step)
            },
        }
    }

    /// Where a build starts.
    pub fn start(prebuilt_wasm: bool) -> (stage: Stage)
        ensures
            stage == first(prebuilt_wasm),
    {
        if prebuilt_wasm {
            Stage::BackUp
        } else {
            Stage::CompileWasm
        }
    }

    /// Where the build stands once its step came to `event`.
    pub fn advance(self, event: Event) -> (next: Stage)
        ensures
            next == self.after(event),
    {
        match self {
            Stage::CompileWasm => match event {
                Event::Done => Stage::BackUp,
                Event::Failed(_) => Stage::Broken(Failure::CompileFailed),
                Event::NotRun => Stage::Broken(Failure::CompileNotRun),
            },
            Stage::BackUp => match event {
                Event::Done => Stage::Read,
                _ => Stage::Broken(Failure::Step),
            },
            Stage::Read => match event {
                Event::Done => Stage::Write,
                _ => Stage::Broken(Failure::Step),
            },
            Stage::Write => match event {
                Event::Done => Stage::ProbeCli,
                _ => Stage::Broken(Failure::Step),
            },
            Stage::ProbeCli => match event {
                Event::NotRun => Stage::Broken(Failure::CliMissing),
                _ => Stage::Pack,
            },
            Stage::Pack => match event {
                Event::Done => Stage::Restore(PackOutcome::Packed),
                Event::Failed(stderr) => Stage::Restore(PackOutcome::Failed(stderr)),
                Event::NotRun => Stage::Restore(PackOutcome::NotRun),
            },
            Stage::Restore(outcome) => match event {
                Event::Done => Stage::RemoveBackup(outcome),
                _ => Stage::Broken(Failure::Step),
            },
            Stage::RemoveBackup(outcome) => match event {
                Event::Done => match outcome {
                    PackOutcome::Packed => Stage::Built,
                    PackOutcome::Failed(stderr) => Stage::Broken(Failure::PackFailed(stderr)),
                    PackOutcome::NotRun => Stage::Broken(Failure::PackNotRun),
                },
                _ => Stage::Broken(Failure::Step),
            },
            Stage::Built => Stage::Built,
            Stage::Broken(failure) => Stage::Broken(failure),
        }
    }
}

impl Failure {
    /// What is reported of the failure, for the package in `package_dir` with the manifest
    /// `manifest_path`. Nothing is added to the error of a step.
    pub open spec fn text(
        self,
        package_dir: Seq<char>,
        manifest_path: Seq<char>,
    ) -> Option<Seq<char>> {
        match self {
            Failure::Step => None,
            Failure::CompileNotRun => Some(
                "Failed to run cargo build for the Substreams package"@,
            ),
            Failure::CompileFailed => Some(
                "cargo build failed for the Substreams package in "@ + package_dir,
            ),
            Failure::CliMissing => Some("Substreams CLI is not installed or not found in PATH"@),
            Failure::PackNotRun => Some("Failed to run the substreams pack command"@),
            Failure::PackFailed(stderr) => Some(
                "substreams pack failed for "@ + manifest_path + ": "@ + stderr@,
            ),
        }
    }

    /// What is reported of the failure, if it is more than the error of the step.
    pub fn message(&self, package_dir: &str, manifest_path: &str) -> (message: Option<String>)
        ensures
            match message {
                Some(text) => self.text(package_dir@, manifest_path@) == Some(text@),
                None => self.text(package_dir@, manifest_path@) is None,
            },
    {
        match self {
            Failure::Step => None,
            Failure::CompileNotRun => Some(
                "Failed to run cargo build for the Substreams package".to_owned(),
            ),
            Failure::CompileFailed => Some(
                "cargo build failed for the Substreams package in ".to_owned().concat(package_dir),
            ),
            Failure::CliMissing => Some(
                "Substreams CLI is not installed or not found in PATH".to_owned(),
            ),
            Failure::PackNotRun => Some("Failed to run the substreams pack command".to_owned()),
            Failure::PackFailed(stderr) => Some(
                "substreams pack failed for ".to_owned().concat(manifest_path).concat(": ").concat(
                    stderr.as_str(),
                ),
            ),
        }
    }
}

/// What a build has done to the files of a package.
pub struct Files {
    /// The manifest may not be the original one.
    pub edited: bool,
    /// The backup of the original manifest is there, as a whole.
    pub backup: bool,
    /// A copy that failed may have left a part of a backup.
    pub partial: bool,
    /// The package file was written.
    pub packed: bool,
}

impl Files {
    /// The files before a build.
    pub open spec fn untouched() -> Files {
        Files { edited: false, backup: false, partial: false, packed: false }
    }

    /// The manifest is the original one, and no backup lies around, nor a part of one.
    pub open spec fn clean(self) -> bool {
        !self.edited && !self.backup && !self.partial
    }

    /// The files once the step of `stage` came to `event`. A write or a copy that failed may have
    /// done a part of its work.
    pub open spec fn after(self, stage: Stage, event: Event) -> Files {
        match stage {
            Stage::BackUp => if event is Done {
                Files { backup: true, ..self }
            } else {
                Files { partial: true, ..self }
            },
            Stage::Write => Files { edited: true, ..self },
            Stage::Pack => Files { packed: event is Done, ..self },
            Stage::Restore(_) => Files { edited: !(event is Done), ..self },
            Stage::RemoveBackup(_) => Files { backup: !(event is Done), ..self },
            _ => self,
        }
    }
}

/// Where a build stands, and what it has done to the files, once its steps came to `events`.
pub open spec fn build(prebuilt_wasm: bool, events: Seq<Event>) -> (Stage, Files)
    decreases events.len(),
{
    if events.len() == 0 {
        (first(prebuilt_wasm), Files::untouched())
    } else {
        let (stage, files) = build(prebuilt_wasm, events.drop_last());
        (stage.after(events.last()), files.after(stage, events.last()))
    }
}

/// What the files look like at each stage.
pub open spec fn expected(stage: Stage, files: Files) -> bool {
    match stage {
        Stage::CompileWasm | Stage::BackUp => files == Files::untouched(),
        Stage::Read | Stage::Write => files.backup && !files.edited && !files.partial
            && !files.packed,
        Stage::ProbeCli | Stage::Pack => files.backup && files.edited && !files.partial
            && !files.packed,
        Stage::Restore(outcome) => files.backup && files.edited && !files.partial && files.packed
            == (outcome is Packed),
        Stage::RemoveBackup(outcome) => files.backup && !files.edited && !files.partial
            && files.packed == (outcome is Packed),
        Stage::Built => files.clean() && files.packed,
        Stage::Broken(failure) => match failure {
            Failure::Step => files.edited ==> files.backup,
            Failure::CliMissing => files.backup && files.edited && !files.packed,
            _ => files == Files::untouched(),
        },
    }
}

/// At every stage the files look as expected: what a stage has behind it was done, and nothing
/// else.
pub proof fn law_files_are_as_expected(prebuilt_wasm: bool, events: Seq<Event>)
    ensures
        expected(build(prebuilt_wasm, events).0, build(prebuilt_wasm, events).1),
    decreases events.len(),
{
    if events.len() > 0 {
        law_files_are_as_expected(prebuilt_wasm, events.drop_last());
    }
}

/// A build that ended well wrote the package file, left the manifest as it was and no backup
/// behind.
pub proof fn law_built_means_packed_and_restored(prebuilt_wasm: bool, events: Seq<Event>)
    ensures
        build(prebuilt_wasm, events).0 is Built ==> build(prebuilt_wasm, events).1.packed && build(
            prebuilt_wasm,
            events,
        ).1.clean(),
{
    law_files_are_as_expected(prebuilt_wasm, events);
}

/// A failed pack is reported only once the manifest is the original one again and the backup is
/// gone.
pub proof fn law_failed_pack_leaves_the_manifest_restored(
    prebuilt_wasm: bool,
    events: Seq<Event>,
)
    ensures
        build(prebuilt_wasm, events).0 matches Stage::Broken(failure) && (failure is PackNotRun
            || failure is PackFailed) ==> build(prebuilt_wasm, events).1.clean(),
{
    law_files_are_as_expected(prebuilt_wasm, events);
}

/// A failed compilation leaves no backup behind: it is reported before anything was written.
pub proof fn law_failed_compilation_touches_nothing(prebuilt_wasm: bool, events: Seq<Event>)
    ensures
        build(prebuilt_wasm, events).0 matches Stage::Broken(failure) && (failure is CompileNotRun
            || failure is CompileFailed) ==> build(prebuilt_wasm, events).1 == Files::untouched(),
{
    law_files_are_as_expected(prebuilt_wasm, events);
}

/// Whenever the manifest is not the original one, the backup of the original is there.
pub proof fn law_edited_manifest_is_backed_up(prebuilt_wasm: bool, events: Seq<Event>)
    ensures
        build(prebuilt_wasm, events).1.edited ==> build(prebuilt_wasm, events).1.backup,
{
    law_files_are_as_expected(prebuilt_wasm, events);
}

/// A package whose WASM binary is there already is never compiled, and no compilation of it
/// fails.
pub proof fn law_prebuilt_is_never_compiled(events: Seq<Event>)
    ensures
        !(build(true, events).0 is CompileWasm),
        build(true, events).0 matches Stage::Broken(failure) ==> !(failure is CompileNotRun) && !(
        failure is CompileFailed),
    decreases events.len(),
{
    if events.len() > 0 {
        law_prebuilt_is_never_compiled(events.drop_last());
    }
}

/// How far a stage is.
spec fn rank(stage: Stage) -> int {
    match stage {
        Stage::CompileWasm => 0,
        Stage::BackUp => 1,
        Stage::Read => 2,
        Stage::Write => 3,
        Stage::ProbeCli => 4,
        Stage::Pack => 5,
        Stage::Restore(_) => 6,
        Stage::RemoveBackup(_) => 7,
        Stage::Built => 8,
        Stage::Broken(_) => 8,
    }
}

/// A build never goes back, and stands still only once it has ended.
proof fn lemma_build_advances(prebuilt_wasm: bool, events: Seq<Event>, i: int, j: int)
    requires
        0 <= i < j <= events.len(),
    ensures
        ({
            let before = rank(build(prebuilt_wasm, events.take(i)).0);
            let after = rank(build(prebuilt_wasm, events.take(j)).0);
            before < after || before == 8 && after == 8
        }),
    decreases j - i,
{
    assert(events.take(j).drop_last() =~= events.take(j - 1));
    if i < j - 1 {
        lemma_build_advances(prebuilt_wasm, events, i, j - 1);
    }
}

/// The pack command is run at most once, and only on the edited manifest, with the backup of the
/// original one there.
pub proof fn law_pack_runs_at_most_once_on_the_edited_manifest(
    prebuilt_wasm: bool,
    events: Seq<Event>,
    i: int,
    j: int,
)
    requires
        0 <= i < j <= events.len(),
        build(prebuilt_wasm, events.take(i)).0 is Pack,
    ensures
        build(prebuilt_wasm, events.take(i)).1.edited,
        build(prebuilt_wasm, events.take(i)).1.backup,
        !(build(prebuilt_wasm, events.take(j)).0 is Pack),
{
    law_files_are_as_expected(prebuilt_wasm, events.take(i));
    lemma_build_advances(prebuilt_wasm, events, i, j);
}

/// A package is called the same whatever block its modules start at.
pub proof fn law_start_block_does_not_change_the_name(
    before: Value,
    after: Value,
    start_block: u64,
    parent_dir: Seq<char>,
)
    requires
        starts_at(before, after, start_block),
    ensures
        is_named(after) == is_named(before),
        spkg_path(parent_dir, after) == spkg_path(parent_dir, before),
{
    assert("package"@ != "modules"@) by {
        reveal_strlit("package");
        reveal_strlit("modules");
        assert("package"@[0] != "modules"@[0]);
    }
    law_rest_of_the_manifest_is_kept(before, after, start_block, "package"@);
}

/// A hyphenated text has the length of the text, no underscore, a hyphen where the text has an
/// underscore, and elsewhere the characters of the text.
pub proof fn law_hyphens_stand_for_underscores(text: Seq<char>)
    ensures
        hyphenated(text).len() == text.len(),
        forall|i: int|
            #![trigger hyphenated(text)[i]]
            0 <= i < text.len() ==> {
                &&& hyphenated(text)[i] != '_'
                &&& text[i] == '_' ==> hyphenated(text)[i] == '-'
                &&& text[i] != '_' ==> hyphenated(text)[i] == text[i]
            },
{
}

/// The path of a package spells out, one after the other: the directory, a slash, the name of the
/// package with a hyphen for every underscore, a hyphen, the version, and `.spkg`. A version that
/// is not a text is left out.
pub proof fn law_path_spells_out_name_and_version(
    parent_dir: Seq<char>,
    manifest: Dict,
    package: Dict,
    name: String,
)
    requires
        manifest@.contains_key("package"@),
        manifest@["package"@] == Value::Dict(package),
        package@.contains_key("name"@),
        package@["name"@] == Value::String(name),
        package@.contains_key("version"@),
    ensures
        is_named(Value::Dict(manifest)),
        ({
            let path = spkg_path(parent_dir, Value::Dict(manifest));
            let version = match package@["version"@] {
                Value::String(text) => text@,
                _ => Seq::empty(),
            };
            let a = parent_dir.len() as int;
            let b = name@.len() as int;
            let c = version.len() as int;
            &&& path.len() == a + 1 + b + 1 + c + 5
            &&& path.take(a) == parent_dir
            &&& path[a] == '/'
            &&& forall|i: int|
                #![trigger name@[i]]
                0 <= i < b ==> path[a + 1 + i] == (if name@[i] == '_' {
                    '-'
                } else {
                    name@[i]
                })
            &&& path[a + 1 + b] == '-'
            &&& path.subrange(a + b + 2, a + b + 2 + c) == version
            &&& path[a + b + c + 2] == '.'
            &&& path[a + b + c + 3] == 's'
            &&& path[a + b + c + 4] == 'p'
            &&& path[a + b + c + 5] == 'k'
            &&& path[a + b + c + 6] == 'g'
        }),
{
    reveal_strlit("/");
    reveal_strlit("-");
    reveal_strlit(".spkg");
    let whole = Value::Dict(manifest);
    assert(whole.entry("package"@) == Some(Value::Dict(package)));
    assert(package_entry(whole, "name"@) == Some(Value::String(name)));
    assert(package_entry(whole, "version"@) == Some(package@["version"@]));
    let path = spkg_path(parent_dir, whole);
    let version = match package@["version"@] {
        Value::String(text) => text@,
        _ => Seq::empty(),
    };
    let a = parent_dir.len() as int;
    let b = name@.len() as int;
    let c = version.len() as int;
    law_hyphens_stand_for_underscores(name@);
    assert(path == parent_dir + "/"@ + hyphenated(name@) + "-"@ + version + ".spkg"@);
    assert(path.take(a) =~= parent_dir);
    assert(path.subrange(a + b + 2, a + b + 2 + c) =~= version);
    assert forall|i: int| #![trigger name@[i]] 0 <= i < b implies path[a + 1 + i] == (if name@[i]
        == '_' {
        '-'
    } else {
        name@[i]
    }) by {
        assert(path[a + 1 + i] == hyphenated(name@)[i]);
    }
}

/// The parts that a manifest needs are asked for one after the other: the package section, its
/// name, that the name is a text, and the version. The first one that is missing is told; where
/// none is, the package can be named.
pub proof fn law_first_missing_part_is_told(manifest: Value)
    ensures
        ({
            let package = manifest is Dict && manifest->Dict_0@.contains_key("package"@);
            let section = manifest->Dict_0@["package"@];
            let name = package && section is Dict && section->Dict_0@.contains_key("name"@);
            let text = name && section->Dict_0@["name"@] is String;
            let version = text && section->Dict_0@.contains_key("version"@);
            &&& PackagePart::Package.first_missing_in(manifest) <==> !package
            &&& PackagePart::Name.first_missing_in(manifest) <==> package && !name
            &&& PackagePart::NameText.first_missing_in(manifest) <==> name && !text
            &&& PackagePart::Version.first_missing_in(manifest) <==> text && !version
            &&& is_named(manifest) <==> version
        }),
{
}

/// The stage that a build is at once `k` steps went well.
spec fn stage_number(prebuilt_wasm: bool, k: int) -> Stage {
    let step = if prebuilt_wasm {
        k + 1
    } else {
        k
    };
    if step <= 0 {
        Stage::CompileWasm
    } else if step == 1 {
        Stage::BackUp
    } else if step == 2 {
        Stage::Read
    } else if step == 3 {
        Stage::Write
    } else if step == 4 {
        Stage::ProbeCli
    } else if step == 5 {
        Stage::Pack
    } else if step == 6 {
        Stage::Restore(PackOutcome::Packed)
    } else if step == 7 {
        Stage::RemoveBackup(PackOutcome::Packed)
    } else {
        Stage::Built
    }
}

/// The first `k` steps went well: each was done, but that the tool may have reported a failure
/// when it was found out whether it can be run.
pub open spec fn went_well(prebuilt_wasm: bool, events: Seq<Event>, k: int) -> bool {
    forall|i: int|
        #![trigger events[i]]
        0 <= i < k ==> if i == (if prebuilt_wasm {
            3int
        } else {
            4int
        }) {
            !(events[i] is NotRun)
        } else {
            events[i] is Done
        }
}

/// Where a build is while all goes well, and that it does not get back there once something did
/// not.
proof fn lemma_track(prebuilt_wasm: bool, events: Seq<Event>)
    ensures
        ({
            let total = if prebuilt_wasm {
                7int
            } else {
                8int
            };
            let n = events.len() as int;
            let stage = build(prebuilt_wasm, events).0;
            &&& n <= total && went_well(prebuilt_wasm, events, n) ==> stage == stage_number(
                prebuilt_wasm,
                n,
            )
            &&& n > total && went_well(prebuilt_wasm, events, total) ==> stage is Built
            &&& !went_well(
                prebuilt_wasm,
                events,
                if n < total {
                    n
                } else {
                    total
                },
            ) ==> stage is Broken || (stage matches Stage::Restore(outcome) && !(
            outcome is Packed)) || (stage matches Stage::RemoveBackup(outcome) && !(
            outcome is Packed))
        }),
    decreases events.len(),
{
    let total = if prebuilt_wasm {
        7int
    } else {
        8int
    };
    let n = events.len() as int;
    if n > 0 {
        let fewer = events.drop_last();
        lemma_track(prebuilt_wasm, fewer);
        assert forall|i: int| 0 <= i < n - 1 implies fewer[i] == #[trigger] events[i] by {}
        let k = if n - 1 < total {
            n - 1
        } else {
            total
        };
        if went_well(prebuilt_wasm, events, k) {
            assert forall|i: int| #![trigger fewer[i]] 0 <= i < k implies if i == (
            if prebuilt_wasm {
                3int
            } else {
                4int
            }) {
                !(fewer[i] is NotRun)
            } else {
                fewer[i] is Done
            } by {
                assert(fewer[i] == events[i]);
            }
            assert(went_well(prebuilt_wasm, fewer, k));
        } else {
            let i = choose|i: int|
                #![trigger events[i]]
                0 <= i < k && !(if i == (if prebuilt_wasm {
                    3int
                } else {
                    4int
                }) {
                    !(events[i] is NotRun)
                } else {
                    events[i] is Done
                });
            assert(fewer[i] == events[i]);
            assert(!went_well(prebuilt_wasm, fewer, k));
        }
        assert(events[n - 1] == events.last());
    }
}

/// A package is built exactly if every step of the build was done: eight of them, or seven where
/// the WASM binary is there already. Only the tool that is looked for need not report success.
pub proof fn law_built_exactly_if_every_step_was_done(prebuilt_wasm: bool, events: Seq<Event>)
    ensures
        build(prebuilt_wasm, events).0 is Built <==> {
            let total = if prebuilt_wasm {
                7int
            } else {
                8int
            };
            events.len() >= total && went_well(prebuilt_wasm, events, total)
        },
{
    let total = if prebuilt_wasm {
        7int
    } else {
        8int
    };
    let n = events.len() as int;
    lemma_track(prebuilt_wasm, events);
    if n < total && went_well(prebuilt_wasm, events, n) {
        assert(!(stage_number(prebuilt_wasm, n) is Built));
    }
}

/// A build that has ended stays as it is.
proof fn lemma_ended(prebuilt_wasm: bool, events: Seq<Event>, k: int)
    requires
        0 <= k <= events.len(),
        build(prebuilt_wasm, events.take(k)).0 is Broken,
    ensures
        build(prebuilt_wasm, events).0 == build(prebuilt_wasm, events.take(k)).0,
    decreases events.len(),
{
    if k < events.len() {
        assert(events.drop_last().take(k) =~= events.take(k));
        lemma_ended(prebuilt_wasm, events.drop_last(), k);
    } else {
        assert(events.take(k) =~= events);
    }
}

/// The first step that does not go well decides how a build ends, whatever comes after it. A
/// compiler that cannot be run or reports a failure is told as such, and so is a tool that cannot
/// be run. A file that cannot be copied, read, written or removed ends the build with the error
/// of that step. What the pack command came to is told, with its error output, once the manifest
/// was restored and the backup removed; where that fails, the error of that step is told.
pub proof fn law_first_failed_step_decides(prebuilt_wasm: bool, events: Seq<Event>, k: int)
    requires
        0 <= k < events.len(),
        k < (if prebuilt_wasm {
            7int
        } else {
            8int
        }),
        went_well(prebuilt_wasm, events, k),
        !went_well(prebuilt_wasm, events, k + 1),
    ensures
        ({
            let first = if prebuilt_wasm {
                0int
            } else {
                1int
            };
            let end = build(prebuilt_wasm, events).0;
            let pack = first + 4;
            &&& k < first && events[k] is NotRun ==> end == Stage::Broken(Failure::CompileNotRun)
            &&& k < first && events[k] is Failed ==> end == Stage::Broken(Failure::CompileFailed)
            &&& k == first + 3 ==> end == Stage::Broken(Failure::CliMissing)
            &&& k >= first && k != first + 3 && k != pack ==> end == Stage::Broken(Failure::Step)
            &&& k == pack && events.len() >= k + 3 && events[k + 1] is Done && events[k + 2] is Done
                && events[k] is NotRun ==> end == Stage::Broken(Failure::PackNotRun)
            &&& k == pack && events.len() >= k + 3 && events[k + 1] is Done && events[k + 2] is Done
                && events[k] is Failed ==> end == Stage::Broken(
                Failure::PackFailed(events[k]->Failed_0),
            )
            &&& k == pack && events.len() >= k + 2 && !(events[k + 1] is Done) ==> end
                == Stage::Broken(Failure::Step)
            &&& k == pack && events.len() >= k + 3 && events[k + 1] is Done && !(
            events[k + 2] is Done) ==> end == Stage::Broken(Failure::Step)
        }),
{
    let first = if prebuilt_wasm {
        0int
    } else {
        1int
    };
    let so_far = events.take(k);
    lemma_track(prebuilt_wasm, so_far);
    assert forall|i: int| 0 <= i < k implies so_far[i] == #[trigger] events[i] by {}
    assert(went_well(prebuilt_wasm, so_far, k)) by {
        assert forall|i: int| #![trigger so_far[i]] 0 <= i < k implies if i == (
        if prebuilt_wasm {
            3int
        } else {
            4int
        }) {
            !(so_far[i] is NotRun)
        } else {
            so_far[i] is Done
        } by {
            assert(so_far[i] == events[i]);
        }
    }
    assert(build(prebuilt_wasm, so_far).0 == stage_number(prebuilt_wasm, k));
    let one = events.take(k + 1);
    assert(one.drop_last() =~= so_far);
    assert(one.last() == events[k]);
    assert(if k == first + 3 {
        events[k] is NotRun
    } else {
        !(events[k] is Done)
    });
    if k != first + 4 {
        lemma_ended(prebuilt_wasm, events, k + 1);
    } else {
        if events.len() >= k + 2 {
            let two = events.take(k + 2);
            assert(two.drop_last() =~= one);
            assert(two.last() == events[k + 1]);
            if !(events[k + 1] is Done) {
                lemma_ended(prebuilt_wasm, events, k + 2);
            } else if events.len() >= k + 3 {
                let three = events.take(k + 3);
                assert(three.drop_last() =~= two);
                assert(three.last() == events[k + 2]);
                lemma_ended(prebuilt_wasm, events, k + 3);
            }
        }
    }
}

/// What is reported of a failed pack names the manifest and ends with the whole error output; what
/// is reported of a failed compilation ends with the directory. To the error of a step nothing is
/// added.
pub proof fn law_reports_carry_what_was_seen(
    failure: Failure,
    package_dir: Seq<char>,
    manifest_path: Seq<char>,
)
    ensures
        ({
            let report = failure.text(package_dir, manifest_path);
            &&& failure is Step <==> report is None
            &&& failure is CompileNotRun ==> report->0
                == "Failed to run cargo build for the Substreams package"@
            &&& failure is CliMissing ==> report->0
                == "Substreams CLI is not installed or not found in PATH"@
            &&& failure is PackNotRun ==> report->0 == "Failed to run the substreams pack command"@
            &&& failure is CompileFailed ==> {
                let start = "cargo build failed for the Substreams package in "@;
                &&& report->0.len() == start.len() + package_dir.len()
                &&& report->0.take(start.len() as int) == start
                &&& report->0.skip(start.len() as int) == package_dir
            }
            &&& failure is PackFailed ==> {
                let start = "substreams pack failed for "@;
                let a = start.len() as int;
                let b = manifest_path.len() as int;
                let stderr = failure->PackFailed_0@;
                &&& report->0.len() == a + b + 2 + stderr.len()
                &&& report->0.take(a) == start
                &&& report->0.subrange(a, a + b) == manifest_path
                &&& report->0[a + b] == ':'
                &&& report->0[a + b + 1] == ' '
                &&& report->0.skip(a + b + 2) == stderr
            }
        }),
{
    reveal_strlit(": ");
    let report = failure.text(package_dir, manifest_path);
    if failure is CompileFailed {
        let start = "cargo build failed for the Substreams package in "@;
        assert(report->0 == start + package_dir);
        assert(report->0.take(start.len() as int) =~= start);
        assert(report->0.skip(start.len() as int) =~= package_dir);
    }
    if failure is PackFailed {
        let start = "substreams pack failed for "@;
        let a = start.len() as int;
        let b = manifest_path.len() as int;
        let stderr = failure->PackFailed_0@;
        assert(report->0 == start + manifest_path + ": "@ + stderr);
        assert(report->0.take(a) =~= start);
        assert(report->0.subrange(a, a + b) =~= manifest_path);
        assert(report->0.skip(a + b + 2) =~= stderr);
    }
}

/// What is said of a missing part.
pub proof fn law_missing_parts_have_their_words()
    ensures
        PackagePart::Package.text() == "Package not found on YAML"@,
        PackagePart::Name.text() == "Name not found on YAML"@,
        PackagePart::NameText.text() == "Failed to convert name to string."@,
        PackagePart::Version.text() == "Version not found on YAML"@,
{
}

} // verus!
