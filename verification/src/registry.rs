//! Compiled packages that dependencies are taken from.
use std::sync::Arc;
use miden_core::serde::Deserializable;
use miden_mast_package::Package;
use miden_package_registry::{InMemoryPackageRegistry, PackageStore};
use vstd::prelude::*;
use vstd::string::StringExecFns;
use crate::metadata::{package_header, read_header, Header, Needed};
use crate::server::InitializationOptions;
use crate::text::{chars_of, join3, same_text, string_of};
use crate::words::texts;

verus! {

/// A registry of packages that is kept in memory.
#[verifier::external_type_specification]
#[verifier::external_body]
pub struct ExInMemoryPackageRegistry(miden_package_registry::InMemoryPackageRegistry);

/// The packages that a registry has a record of: for a name and a version, the hash of the code.
pub uninterp spec fn registry_contents(registry: InMemoryPackageRegistry) -> Map<
    (Seq<char>, Seq<char>),
    Seq<char>,
>;

/// The contents of a registry without packages.
pub open spec fn no_packages() -> Map<(Seq<char>, Seq<char>), Seq<char>> {
    Map::empty()
}

/// `InMemoryPackageRegistry::default`: a registry without packages.
#[verifier::external_body]
fn empty_registry() -> (registry: InMemoryPackageRegistry)
    ensures
        registry_contents(registry) == no_packages(),
{
    InMemoryPackageRegistry::default()
}

/// Whether a registry with the given contents takes a package: it has no package of that name and
/// version, and it has every package that this one depends on, with the same code.
pub open spec fn takes(contents: Map<(Seq<char>, Seq<char>), Seq<char>>, package: Header) -> bool {
    &&& !contents.dom().contains((package.name, package.version))
    &&& forall|i: int|
        0 <= i < package.dependencies.len() ==> has_package(
            contents,
            #[trigger] package.dependencies[i],
        )
}

/// Whether a registry with the given contents has a package.
pub open spec fn has_package(
    contents: Map<(Seq<char>, Seq<char>), Seq<char>>,
    package: Needed,
) -> bool {
    &&& contents.dom().contains((package.name, package.version))
    &&& contents[(package.name, package.version)] == package.digest
}

/// The version of a package together with the hash of its code.
pub open spec fn full_version(package: Header) -> Seq<char> {
    package.version + "#"@ + package.digest
}

/// `InMemoryPackageRegistry::publish_package`: takes the package that the bytes hold, unless the
/// registry has its name and version already or lacks a dependency with the version and the hash
/// that the manifest gives. A package that is taken is recorded under its name and its version, and
/// its full version is given back; otherwise the registry stays as it is.
#[verifier::external_body]
fn publish(registry: &mut InMemoryPackageRegistry, bytes: &[u8]) -> (version: Option<String>)
    requires
        package_header(bytes@) is Ok,
    ensures
        ({
            let package = package_header(bytes@)->Ok_0;
            let before = registry_contents(*old(registry));
            match version {
                Some(version) => {
                    &&& takes(before, package)
                    &&& version@ == full_version(package)
                    &&& registry_contents(*final(registry)) == before.insert(
                        (package.name, package.version),
                        package.digest,
                    )
                },
                None => !takes(before, package) && registry_contents(*final(registry)) == before,
            }
        }),
{
    let package = Package::read_from_bytes(bytes).ok()?;
    registry.publish_package(Arc::new(package)).ok().map(|version| version.to_string())
}

/// The file of a compiled package and the bytes that it holds.
pub struct PackageFile {
    pub path: String,
    pub bytes: Vec<u8>,
}

impl PackageFile {
    /// Whether the file holds a package.
    pub open spec fn holds_package(self) -> bool {
        package_header(self.bytes@) is Ok
    }
}

/// The model of a package and its file.
pub struct Artifact {
    pub name: Seq<char>,
    pub version: Seq<char>,
    pub path: Seq<char>,
    pub bytes: Seq<u8>,
}

impl Artifact {
    /// What the package says of itself.
    pub open spec fn header(self) -> Header {
        package_header(self.bytes)->Ok_0
    }
}

/// What is kept of the package that bytes hold.
pub open spec fn artifact_in(path: Seq<char>, bytes: Seq<u8>) -> Artifact {
    let package = package_header(bytes)->Ok_0;
    Artifact { name: package.name, version: full_version(package), path, bytes }
}

/// What is kept of a package when it is published.
pub open spec fn artifact_of(file: PackageFile) -> Artifact {
    artifact_in(file.path@, file.bytes@)
}

/// What is kept of several packages.
pub open spec fn artifacts_of(files: Seq<PackageFile>) -> Seq<Artifact> {
    Seq::new(files.len(), |i: int| artifact_of(files[i]))
}

/// A published package and the file that it was read from.
pub struct PublishedArtifact {
    pub name: String,
    pub version: String,
    pub path: String,
    pub bytes: Vec<u8>,
}

impl View for PublishedArtifact {
    type V = Artifact;

    open spec fn view(&self) -> Artifact {
        Artifact {
            name: self.name@,
            version: self.version@,
            path: self.path@,
            bytes: self.bytes@,
        }
    }
}

/// The models of a list of published packages.
pub open spec fn artifact_views(artifacts: Seq<PublishedArtifact>) -> Seq<Artifact> {
    Seq::new(artifacts.len(), |i: int| artifacts[i]@)
}

/// The packages that a client handed over, in a registry, and their files.
pub struct RegistryState {
    registry: InMemoryPackageRegistry,
    artifacts: Vec<PublishedArtifact>,
}

/// What a registry has a record of when the listed packages have been published.
pub open spec fn recorded(artifacts: Seq<Artifact>) -> Map<(Seq<char>, Seq<char>), Seq<char>>
    decreases artifacts.len(),
{
    if artifacts.len() == 0 {
        Map::empty()
    } else {
        let package = artifacts.last().header();
        recorded(artifacts.drop_last()).insert((package.name, package.version), package.digest)
    }
}

/// Packages that have been published, in that order, and packages that were refused.
pub struct Progress {
    pub published: Seq<Artifact>,
    pub refused: Seq<Artifact>,
}

/// What comes of trying to publish the first `count` of the packages that are waiting, one after
/// the other.
pub open spec fn one_round(published: Seq<Artifact>, waiting: Seq<Artifact>, count: nat) -> Progress
    decreases count,
{
    if count == 0 {
        Progress { published, refused: Seq::empty() }
    } else {
        let before = one_round(published, waiting, (count - 1) as nat);
        let next = waiting[count - 1];
        if takes(recorded(before.published), next.header()) {
            Progress { published: before.published.push(next), ..before }
        } else {
            Progress { refused: before.refused.push(next), ..before }
        }
    }
}

/// What comes of publishing packages in rounds: each round tries what the one before refused, until
/// nothing is left or a round publishes nothing.
pub open spec fn all_rounds(published: Seq<Artifact>, waiting: Seq<Artifact>) -> Progress
    decreases waiting.len(),
{
    let after = one_round(published, waiting, waiting.len());
    if waiting.len() == 0 || after.refused.len() >= waiting.len() {
        after
    } else {
        all_rounds(after.published, after.refused)
    }
}

/// The version without what stands between a plus sign and the hash of the code, which does not
/// matter where a package is looked up.
pub open spec fn without_build(version: Seq<char>) -> Seq<char> {
    let plus = first_of(version, '+', 0);
    let hash = first_of(version, '#', plus);
    version.take(plus) + version.skip(hash)
}

/// Where a character first occurs from `at` on; the end of the text where it does not.
pub open spec fn first_of(text: Seq<char>, wanted: char, at: int) -> int
    decreases text.len() - at,
{
    if at >= text.len() {
        text.len() as int
    } else if text[at] == wanted {
        at
    } else {
        first_of(text, wanted, at + 1)
    }
}

/// The last of the first `count` packages with the given name and version.
pub open spec fn published_artifact(
    artifacts: Seq<Artifact>,
    name: Seq<char>,
    version: Seq<char>,
    count: nat,
) -> Option<Artifact>
    decreases count,
{
    if count == 0 {
        None
    } else if artifacts[count - 1].name == name && without_build(artifacts[count - 1].version)
        == without_build(version) {
        Some(artifacts[count - 1])
    } else {
        published_artifact(artifacts, name, version, (count - 1) as nat)
    }
}

/// What is reported of packages that could not be published, the first `count` of them.
pub open spec fn stuck_list(stuck: Seq<Artifact>, count: nat) -> Seq<char>
    decreases count,
{
    if count == 0 {
        Seq::empty()
    } else {
        let entry = stuck[count - 1].path + " ("@ + stuck[count - 1].name + ")"@;
        if count == 1 {
            entry
        } else {
            stuck_list(stuck, (count - 1) as nat) + ", "@ + entry
        }
    }
}

/// What is reported when packages cannot be published.
pub open spec fn stuck_message(stuck: Seq<Artifact>) -> Seq<char> {
    "failed to publish registry artifacts due to unresolved dependencies: "@ + stuck_list(
        stuck,
        stuck.len(),
    )
}

/// Whether all files hold packages.
pub open spec fn hold_packages(files: Seq<PackageFile>) -> bool {
    forall|i: int| 0 <= i < files.len() ==> (#[trigger] files[i]).holds_package()
}

/// The name of the package that a file holds.
fn name_of(file: &PackageFile) -> (name: String)
    requires
        file.holds_package(),
    ensures
        name@ == artifact_of(*file).name,
{
    match read_header(file.bytes.as_slice()) {
        Ok(header) => header.name,
        Err(message) => message,
    }
}

/// What is reported when packages cannot be published.
fn report_stuck(files: &Vec<PackageFile>) -> (message: String)
    requires
        hold_packages(files@),
    ensures
        message@ == stuck_message(artifacts_of(files@)),
{
    let ghost stuck = artifacts_of(files@);
    let mut list = String::new();
    let mut i: usize = 0;
    assert(list@ =~= Seq::<char>::empty());
    while i < files.len()
        invariant
            i <= files.len(),
            hold_packages(files@),
            stuck == artifacts_of(files@),
            list@ == stuck_list(stuck, i as nat),
        decreases files.len() - i,
    {
        assert(files@[i as int].holds_package());
        let name = name_of(&files[i]);
        let mut entry = join3(&files[i].path, " (", &name);
        entry.append(")");
        if i > 0 {
            list.append(", ");
            list.append(&entry);
        } else {
            list = entry;
        }
        i = i + 1;
    }
    let mut message = "failed to publish registry artifacts due to unresolved dependencies: ".to_owned();
    message.append(&list);
    message
}

/// The position of a character from `at` on.
fn find_first(chars: &Vec<char>, wanted: char, at: usize) -> (found: usize)
    requires
        at <= chars.len(),
    ensures
        found == first_of(chars@, wanted, at as int),
        at <= found <= chars.len(),
{
    let mut i: usize = at;
    while i < chars.len() && chars[i] != wanted
        invariant
            at <= i <= chars.len(),
            first_of(chars@, wanted, at as int) == first_of(chars@, wanted, i as int),
        decreases chars.len() - i,
    {
        i = i + 1;
    }
    i
}

/// The version without what stands between a plus sign and the hash of the code.
fn strip_build(version: &str) -> (stripped: String)
    ensures
        stripped@ == without_build(version@),
{
    let chars = chars_of(version);
    let plus = find_first(&chars, '+', 0);
    let hash = find_first(&chars, '#', plus);
    let mut stripped = string_of(&chars, 0, plus);
    let rest = string_of(&chars, hash, chars.len());
    stripped.append(&rest);
    assert(stripped@ =~= without_build(version@));
    stripped
}

/// A copy of bytes.
fn copy_bytes(bytes: &Vec<u8>) -> (copy: Vec<u8>)
    ensures
        copy@ == bytes@,
{
    let mut copy: Vec<u8> = Vec::new();
    copy.extend_from_slice(bytes.as_slice());
    assert(copy@ =~= bytes@);
    copy
}

impl RegistryState {
    /// The packages that were published.
    pub closed spec fn published(self) -> Seq<Artifact> {
        artifact_views(self.artifacts@)
    }

    /// What the registry holds.
    pub closed spec fn contents(self) -> Map<(Seq<char>, Seq<char>), Seq<char>> {
        registry_contents(self.registry)
    }

    /// The registry has a record of exactly the packages that were published.
    pub open spec fn well_formed(self) -> bool {
        self.contents() == recorded(self.published())
    }

    /// No package is published.
    pub fn new() -> (state: RegistryState)
        ensures
            state.well_formed(),
            state.published() == Seq::<Artifact>::empty(),
    {
        let state = RegistryState { registry: empty_registry(), artifacts: Vec::new() };
        assert(state.published() =~= Seq::<Artifact>::empty());
        state
    }

    /// The registry.
    pub fn registry(&self) -> (registry: &InMemoryPackageRegistry)
        ensures
            registry_contents(*registry) == self.contents(),
    {
        &self.registry
    }

    /// A published package.
    pub fn artifact(&self, package: &str, version: &str) -> (artifact: Option<&PublishedArtifact>)
        ensures
            match artifact {
                Some(artifact) => published_artifact(
                    self.published(),
                    package@,
                    version@,
                    self.published().len(),
                ) == Some(artifact@),
                None => published_artifact(
                    self.published(),
                    package@,
                    version@,
                    self.published().len(),
                ) is None,
            },
    {
        let ghost all = self.published();
        let wanted = strip_build(version);
        let mut i: usize = self.artifacts.len();
        while i > 0
            invariant
                i <= self.artifacts.len(),
                wanted@ == without_build(version@),
                all == artifact_views(self.artifacts@),
                published_artifact(all, package@, version@, all.len()) == published_artifact(
                    all,
                    package@,
                    version@,
                    i as nat,
                ),
            decreases i,
        {
            i = i - 1;
            assert(all[i as int] == self.artifacts@[i as int]@);
            let found = strip_build(&self.artifacts[i].version);
            if same_text(&self.artifacts[i].name, package) && same_text(&found, &wanted) {
                return Some(&self.artifacts[i]);
            }
        }
        None
    }

    /// The file of a published package.
    pub fn artifact_path(&self, package: &str, version: &str) -> (path: Option<&String>)
        ensures
            match (
                path,
                published_artifact(
                    self.published(),
                    package@,
                    version@,
                    self.published().len(),
                ),
            ) {
                (Some(path), Some(artifact)) => path@ == artifact.path,
                (None, None) => true,
                _ => false,
            },
    {
        match self.artifact(package, version) {
            Some(artifact) => Some(&artifact.path),
            None => None,
        }
    }

    /// Publishes a package, and tells whether the registry took it.
    fn publish_file(&mut self, file: &PackageFile) -> (published: bool)
        requires
            old(self).well_formed(),
            file.holds_package(),
        ensures
            final(self).well_formed(),
            published == takes(recorded(old(self).published()), artifact_of(*file).header()),
            final(self).published() == if published {
                old(self).published().push(artifact_of(*file))
            } else {
                old(self).published()
            },
    {
        let ghost before = self.published();
        match publish(&mut self.registry, file.bytes.as_slice()) {
            Some(version) => {
                let artifact = PublishedArtifact {
                    name: name_of(file),
                    version,
                    path: file.path.clone(),
                    bytes: copy_bytes(&file.bytes),
                };
                let ghost added = artifact@;
                self.artifacts.push(artifact);
                assert(added == artifact_of(*file));
                assert(self.published() =~= before.push(added));
                assert(self.published().drop_last() =~= before);
                true
            },
            None => false,
        }
    }

    /// Tries to publish each of the packages that are waiting, in their order, and gives those that
    /// the registry refused.
    fn publish_round(&mut self, waiting: Vec<PackageFile>) -> (refused: Vec<PackageFile>)
        requires
            old(self).well_formed(),
            hold_packages(waiting@),
        ensures
            final(self).well_formed(),
            hold_packages(refused@),
            ({
                let list = artifacts_of(waiting@);
                one_round(old(self).published(), list, list.len()) == (Progress {
                    published: final(self).published(),
                    refused: artifacts_of(refused@),
                })
            }),
    {
        let ghost list = artifacts_of(waiting@);
        let ghost start = self.published();
        let mut refused: Vec<PackageFile> = Vec::new();
        assert(artifacts_of(refused@) =~= Seq::<Artifact>::empty());
        for file in it: waiting
            invariant
                self.well_formed(),
                hold_packages(waiting@),
                hold_packages(refused@),
                it.seq() == waiting@,
                list == artifacts_of(waiting@),
                one_round(start, list, it.index() as nat) == (Progress {
                    published: self.published(),
                    refused: artifacts_of(refused@),
                }),
        {
            let ghost kept = artifacts_of(refused@);
            assert(waiting@[it.index()].holds_package());
            assert(list[it.index()] == artifact_of(file));
            if !self.publish_file(&file) {
                refused.push(file);
                assert(artifacts_of(refused@) =~= kept.push(artifact_of(file)));
            }
        }
        refused
    }

    /// Publishes packages in an order in which each finds its dependencies: what the registry
    /// refuses is tried again when others have been published. Where it refuses all packages that
    /// are left, they are reported.
    pub fn from_packages(files: Vec<PackageFile>) -> (result: Result<RegistryState, String>)
        requires
            hold_packages(files@),
        ensures
            ({
                let outcome = all_rounds(Seq::empty(), artifacts_of(files@));
                match result {
                    Ok(state) => {
                        &&& outcome.refused.len() == 0
                        &&& state.well_formed()
                        &&& state.published() == outcome.published
                    },
                    Err(message) => {
                        &&& outcome.refused.len() > 0
                        &&& message@ == stuck_message(outcome.refused)
                    },
                }
            }),
    {
        let ghost outcome = all_rounds(Seq::empty(), artifacts_of(files@));
        let mut state = RegistryState::new();
        let mut pending = files;
        while pending.len() > 0
            invariant
                state.well_formed(),
                hold_packages(pending@),
                outcome == all_rounds(Seq::empty(), artifacts_of(files@)),
                outcome == all_rounds(state.published(), artifacts_of(pending@)),
            decreases pending.len(),
        {
            let count = pending.len();
            let refused = state.publish_round(pending);
            if refused.len() >= count {
                return Err(report_stuck(&refused));
            }
            pending = refused;
        }
        assert(artifacts_of(pending@) =~= Seq::<Artifact>::empty());
        Ok(state)
    }
}

/// What is reported for the first of the files from `at` on that could not be read or holds no
/// package.
pub open spec fn artifact_failure(
    paths: Seq<Seq<char>>,
    contents: Seq<Result<Vec<u8>, String>>,
    at: int,
) -> Option<Seq<char>>
    decreases contents.len() - at,
{
    if at >= contents.len() {
        None
    } else {
        match contents[at] {
            Err(message) => Some("failed to read '"@ + paths[at] + "': "@ + message@),
            Ok(bytes) => match package_header(bytes@) {
                Err(message) => Some("failed to decode '"@ + paths[at] + "': "@ + message),
                Ok(_) => artifact_failure(paths, contents, at + 1),
            },
        }
    }
}

/// What is kept of the packages that the files hold.
pub open spec fn artifacts_in(
    paths: Seq<Seq<char>>,
    contents: Seq<Result<Vec<u8>, String>>,
) -> Seq<Artifact> {
    Seq::new(contents.len(), |i: int| artifact_in(paths[i], contents[i]->Ok_0@))
}

impl RegistryState {
    /// Publishes the packages that a client handed over; `contents` holds what was read of each
    /// file, or why it could not be read.
    pub fn from_options(
        options: &InitializationOptions,
        contents: &Vec<Result<Vec<u8>, String>>,
    ) -> (result: Result<RegistryState, String>)
        requires
            contents@.len() == options.registry_artifacts@.len(),
        ensures
            ({
                let paths = texts(options.registry_artifacts@);
                let outcome = all_rounds(Seq::empty(), artifacts_in(paths, contents@));
                match (artifact_failure(paths, contents@, 0), result) {
                    (Some(message), Err(error)) => error@ == message,
                    (Some(_), Ok(_)) => false,
                    (None, Ok(state)) => {
                        &&& outcome.refused.len() == 0
                        &&& state.well_formed()
                        &&& state.published() == outcome.published
                    },
                    (None, Err(message)) => {
                        &&& outcome.refused.len() > 0
                        &&& message@ == stuck_message(outcome.refused)
                    },
                }
            }),
    {
        let ghost paths = texts(options.registry_artifacts@);
        let mut files: Vec<PackageFile> = Vec::new();
        let mut i: usize = 0;
        while i < contents.len()
            invariant
                i <= contents.len(),
                contents@.len() == options.registry_artifacts@.len(),
                paths == texts(options.registry_artifacts@),
                files@.len() == i,
                hold_packages(files@),
                artifact_failure(paths, contents@, 0) == artifact_failure(
                    paths,
                    contents@,
                    i as int,
                ),
                forall|k: int|
                    0 <= k < i ==> artifact_of(#[trigger] files@[k]) == artifacts_in(
                        paths,
                        contents@,
                    )[k],
            decreases contents.len() - i,
        {
            let path = &options.registry_artifacts[i];
            assert(paths[i as int] == path@);
            match &contents[i] {
                Err(error) => {
                    let mut message = join3("failed to read '", path, "': ");
                    message.append(error);
                    return Err(message);
                },
                Ok(bytes) => match read_header(bytes.as_slice()) {
                    Err(error) => {
                        let mut message = join3("failed to decode '", path, "': ");
                        message.append(&error);
                        return Err(message);
                    },
                    Ok(_) => {
                        let file = PackageFile { path: path.clone(), bytes: copy_bytes(bytes) };
                        assert(artifact_of(file) == artifacts_in(paths, contents@)[i as int]);
                        files.push(file);
                    },
                },
            }
            i = i + 1;
        }
        assert(artifacts_of(files@) =~= artifacts_in(paths, contents@));
        RegistryState::from_packages(files)
    }
}

/// Whether each package was published when the registry had all that it depends on, and no package
/// of its name and version.
pub open spec fn in_publishing_order(published: Seq<Artifact>) -> bool {
    forall|k: int|
        0 <= k < published.len() ==> takes(
            recorded(published.take(k)),
            (#[trigger] published[k]).header(),
        )
}

proof fn lemma_one_round(published: Seq<Artifact>, waiting: Seq<Artifact>, count: nat)
    requires
        count <= waiting.len(),
        in_publishing_order(published),
    ensures
        ({
            let after = one_round(published, waiting, count);
            &&& in_publishing_order(after.published)
            &&& after.published.len() + after.refused.len() == published.len() + count
            &&& after.published.len() >= published.len()
            &&& after.published.to_multiset().add(after.refused.to_multiset())
                == published.to_multiset().add(waiting.take(count as int).to_multiset())
        }),
        one_round(published, waiting, count).published.len() == published.len() ==> {
            &&& one_round(published, waiting, count).published == published
            &&& one_round(published, waiting, count).refused == waiting.take(count as int)
            &&& forall|k: int|
                0 <= k < count ==> !takes(recorded(published), (#[trigger] waiting[k]).header())
        },
    decreases count,
{
    let after = one_round(published, waiting, count);
    if count == 0 {
        assert(waiting.take(0) =~= Seq::<Artifact>::empty());
        assert(after.refused =~= Seq::<Artifact>::empty());
    } else {
        let shorter = (count - 1) as nat;
        lemma_one_round(published, waiting, shorter);
        let before = one_round(published, waiting, shorter);
        let next = waiting[count - 1];
        assert(waiting.take(count as int) =~= waiting.take(shorter as int).push(next));
        vstd::seq_lib::to_multiset_build(waiting.take(shorter as int), next);
        let earlier = published.to_multiset().add(waiting.take(shorter as int).to_multiset());
        if takes(recorded(before.published), next.header()) {
            vstd::seq_lib::to_multiset_build(before.published, next);
            assert forall|k: int| 0 <= k < after.published.len() implies takes(
                recorded(after.published.take(k)),
                (#[trigger] after.published[k]).header(),
            ) by {
                assert(after.published.take(k) =~= before.published.take(k));
                if k < before.published.len() {
                    assert(after.published[k] == before.published[k]);
                } else {
                    assert(before.published.take(k) =~= before.published);
                }
            }
        } else {
            vstd::seq_lib::to_multiset_build(before.refused, next);
            assert(after.published == before.published);
        }
        assert(after.published.to_multiset().add(after.refused.to_multiset()) =~= earlier.insert(
            next,
        ));
        assert(published.to_multiset().add(waiting.take(count as int).to_multiset())
            =~= earlier.insert(next));
    }
}

proof fn lemma_all_rounds(published: Seq<Artifact>, waiting: Seq<Artifact>)
    requires
        in_publishing_order(published),
    ensures
        ({
            let outcome = all_rounds(published, waiting);
            &&& in_publishing_order(outcome.published)
            &&& outcome.published.to_multiset().add(outcome.refused.to_multiset())
                == published.to_multiset().add(waiting.to_multiset())
            &&& forall|k: int|
                0 <= k < outcome.refused.len() ==> !takes(
                    recorded(outcome.published),
                    (#[trigger] outcome.refused[k]).header(),
                )
        }),
    decreases waiting.len(),
{
    let after = one_round(published, waiting, waiting.len());
    lemma_one_round(published, waiting, waiting.len());
    assert(waiting.take(waiting.len() as int) =~= waiting);
    if waiting.len() > 0 && after.refused.len() < waiting.len() {
        lemma_all_rounds(after.published, after.refused);
    }
}

/// Every package is either published, when the registry has all that it depends on, or reported;
/// what is reported the registry still refuses in the end. Of no packages none is reported.
pub proof fn law_packages_follow_dependencies(waiting: Seq<Artifact>)
    ensures
        waiting.len() == 0 ==> all_rounds(Seq::empty(), waiting).refused.len() == 0,
        ({
            let outcome = all_rounds(Seq::empty(), waiting);
            &&& in_publishing_order(outcome.published)
            &&& outcome.published.to_multiset().add(outcome.refused.to_multiset())
                == waiting.to_multiset()
            &&& forall|k: int|
                0 <= k < outcome.refused.len() ==> !takes(
                    recorded(outcome.published),
                    (#[trigger] outcome.refused[k]).header(),
                )
        }),
{
    broadcast use vstd::seq_lib::group_to_multiset_ensures;

    lemma_all_rounds(Seq::empty(), waiting);
    assert(Seq::<Artifact>::empty().to_multiset().add(waiting.to_multiset())
        =~= waiting.to_multiset());
}

impl Artifact {
    /// The name and the version under which a registry records the package.
    pub open spec fn key(self) -> (Seq<char>, Seq<char>) {
        (self.header().name, self.header().version)
    }
}

/// Whether no two packages have the same name and version.
pub open spec fn have_different_versions(artifacts: Seq<Artifact>) -> bool {
    forall|i: int, j: int|
        0 <= i < j < artifacts.len() ==> (#[trigger] artifacts[i]).key() != (
        #[trigger] artifacts[j]).key()
}

/// What a registry records was published with that hash.
proof fn lemma_recorded_was_published(artifacts: Seq<Artifact>, key: (Seq<char>, Seq<char>))
    requires
        recorded(artifacts).dom().contains(key),
    ensures
        exists|j: int|
            0 <= j < artifacts.len() && (#[trigger] artifacts[j]).key() == key
                && artifacts[j].header().digest == recorded(artifacts)[key],
    decreases artifacts.len(),
{
    let last = artifacts.last();
    if last.key() == key {
        assert(artifacts[artifacts.len() - 1].key() == key);
    } else {
        let before = artifacts.drop_last();
        lemma_recorded_was_published(before, key);
        let j = choose|j: int|
            0 <= j < before.len() && (#[trigger] before[j]).key() == key
                && before[j].header().digest == recorded(before)[key];
        assert(artifacts[j] == before[j]);
    }
}

/// A package that was published is recorded, with its hash where no other has its name and version.
proof fn lemma_published_is_recorded(artifacts: Seq<Artifact>, j: int)
    requires
        0 <= j < artifacts.len(),
        forall|i: int|
            0 <= i < artifacts.len() && i != j ==> (#[trigger] artifacts[i]).key()
                != artifacts[j].key(),
    ensures
        recorded(artifacts).dom().contains(artifacts[j].key()),
        recorded(artifacts)[artifacts[j].key()] == artifacts[j].header().digest,
    decreases artifacts.len(),
{
    let before = artifacts.drop_last();
    if j < before.len() {
        assert(before[j] == artifacts[j]);
        assert forall|i: int| 0 <= i < before.len() && i != j implies (#[trigger] before[i]).key()
            != before[j].key() by {
            assert(before[i] == artifacts[i]);
        }
        lemma_published_is_recorded(before, j);
        assert(artifacts[artifacts.len() - 1].key() != artifacts[j].key());
    }
}

/// Packages with different versions are different, whatever their order.
proof fn lemma_different_versions(a: Seq<Artifact>, b: Seq<Artifact>)
    requires
        have_different_versions(a),
        a.to_multiset() == b.to_multiset(),
    ensures
        have_different_versions(b),
        b.no_duplicates(),
{
    broadcast use vstd::seq_lib::group_to_multiset_ensures;

    assert(a.no_duplicates()) by {
        assert forall|i: int, j: int|
            0 <= i < a.len() && 0 <= j < a.len() && i != j implies a[i] != a[j] by {
            if i < j {
                assert(a[i].key() != a[j].key());
            } else {
                assert(a[j].key() != a[i].key());
            }
        }
    }
    a.lemma_multiset_has_no_duplicates();
    assert forall|x: Artifact| b.to_multiset().contains(x) implies b.to_multiset().count(x) == 1 by {
        assert(a.to_multiset().contains(x));
    }
    b.lemma_multiset_has_no_duplicates_conv();
    assert forall|i: int, j: int| 0 <= i < j < b.len() implies (#[trigger] b[i]).key() != (
    #[trigger] b[j]).key() by {
        assert(b[i] != b[j]);
        assert(b.to_multiset().contains(b[i]) && b.to_multiset().contains(b[j]));
        assert(a.to_multiset().contains(b[i]) && a.to_multiset().contains(b[j]));
        let k = a.index_of(b[i]);
        let l = a.index_of(b[j]);
        assert(a.contains(b[i]) && a.contains(b[j]));
        assert(a[k] == b[i] && a[l] == b[j]);
        if k < l {
            assert(a[k].key() != a[l].key());
        } else {
            assert(a[l].key() != a[k].key());
        }
    }
}

/// The first of the packages in a publishing order from `at` on that is among others.
proof fn lemma_first_among(list: Seq<Artifact>, others: Seq<Artifact>, at: int) -> (k: int)
    requires
        0 <= at < list.len(),
        forall|i: int| 0 <= i < at ==> !others.contains(#[trigger] list[i]),
        exists|i: int| at <= i < list.len() && others.contains(#[trigger] list[i]),
    ensures
        at <= k < list.len(),
        others.contains(list[k]),
        forall|i: int| 0 <= i < k ==> !others.contains(#[trigger] list[i]),
    decreases list.len() - at,
{
    if others.contains(list[at]) {
        at
    } else {
        let i = choose|i: int| at <= i < list.len() && others.contains(#[trigger] list[i]);
        assert(i > at);
        lemma_first_among(list, others, at + 1)
    }
}

/// Whether two lists hold the same packages, those of the second in two parts.
spec fn are_divided(order: Seq<Artifact>, published: Seq<Artifact>, refused: Seq<Artifact>) -> bool {
    &&& have_different_versions(published + refused)
    &&& forall|x: Artifact| #[trigger]
        order.contains(x) <==> published.contains(x) || refused.contains(x)
}

/// What has been published is recorded with its hash.
proof fn lemma_recorded_among(
    published: Seq<Artifact>,
    refused: Seq<Artifact>,
    package: Artifact,
)
    requires
        have_different_versions(published + refused),
        published.contains(package),
    ensures
        recorded(published).dom().contains(package.key()),
        recorded(published)[package.key()] == package.header().digest,
{
    let all = published + refused;
    let p = published.index_of(package);
    assert forall|i: int| 0 <= i < published.len() && i != p implies (#[trigger] published[i]).key()
        != published[p].key() by {
        assert(all[i] == published[i] && all[p] == published[p]);
        if i < p {
            assert(all[i].key() != all[p].key());
        } else {
            assert(all[p].key() != all[i].key());
        }
    }
    lemma_published_is_recorded(published, p);
}

/// What has been refused is not recorded.
proof fn lemma_refused_is_not_recorded(
    published: Seq<Artifact>,
    refused: Seq<Artifact>,
    package: Artifact,
)
    requires
        have_different_versions(published + refused),
        refused.contains(package),
    ensures
        !recorded(published).dom().contains(package.key()),
{
    let all = published + refused;
    let contents = recorded(published);
    if contents.dom().contains(package.key()) {
        lemma_recorded_was_published(published, package.key());
        let j = choose|j: int|
            0 <= j < published.len() && (#[trigger] published[j]).key() == package.key()
                && published[j].header().digest == contents[package.key()];
        let r = refused.index_of(package);
        assert(all[j] == published[j] && all[published.len() + r] == package);
        assert(all[j].key() != all[published.len() + r].key());
    }
}

/// The first package in a publishing order that was refused could have been taken.
proof fn lemma_first_refused_fits(
    order: Seq<Artifact>,
    published: Seq<Artifact>,
    refused: Seq<Artifact>,
    k: int,
)
    requires
        are_divided(order, published, refused),
        in_publishing_order(order),
        0 <= k < order.len(),
        refused.contains(order[k]),
        forall|i: int| 0 <= i < k ==> !refused.contains(#[trigger] order[i]),
    ensures
        takes(recorded(published), order[k].header()),
{
    let next = order[k];
    let contents = recorded(published);
    let earlier = order.take(k);
    assert(takes(recorded(earlier), next.header()));
    lemma_refused_is_not_recorded(published, refused, next);
    assert forall|i: int| 0 <= i < next.header().dependencies.len() implies has_package(
        contents,
        #[trigger] next.header().dependencies[i],
    ) by {
        let needed = next.header().dependencies[i];
        let key = (needed.name, needed.version);
        assert(has_package(recorded(earlier), needed));
        lemma_recorded_was_published(earlier, key);
        let j = choose|j: int|
            0 <= j < earlier.len() && (#[trigger] earlier[j]).key() == key
                && earlier[j].header().digest == recorded(earlier)[key];
        assert(order[j] == earlier[j]);
        assert(order.contains(order[j]));
        lemma_recorded_among(published, refused, order[j]);
    }
}

/// Lists of the same packages hold the same.
proof fn lemma_divided(
    a: Seq<Artifact>,
    order: Seq<Artifact>,
    published: Seq<Artifact>,
    refused: Seq<Artifact>,
)
    requires
        have_different_versions(a),
        order.to_multiset() == a.to_multiset(),
        published.to_multiset().add(refused.to_multiset()) == a.to_multiset(),
    ensures
        are_divided(order, published, refused),
{
    broadcast use vstd::seq_lib::group_to_multiset_ensures;

    let all = published + refused;
    vstd::seq_lib::lemma_multiset_commutative(published, refused);
    assert(all.to_multiset() =~= a.to_multiset());
    lemma_different_versions(a, all);
    assert forall|x: Artifact| #[trigger] order.contains(x) <==> published.contains(x)
        || refused.contains(x) by {
        let count = order.to_multiset().count(x);
        assert(count == published.to_multiset().count(x) + refused.to_multiset().count(x));
        assert(order.contains(x) <==> count > 0);
        assert(published.contains(x) <==> published.to_multiset().count(x) > 0);
        assert(refused.contains(x) <==> refused.to_multiset().count(x) > 0);
    }
}

/// Where packages can all be published in one order, none is refused in another.
proof fn lemma_none_refused(a: Seq<Artifact>, b: Seq<Artifact>)
    requires
        have_different_versions(a),
        a.to_multiset() == b.to_multiset(),
        all_rounds(Seq::empty(), a).refused.len() == 0,
    ensures
        all_rounds(Seq::empty(), b).refused.len() == 0,
{
    let first = all_rounds(Seq::empty(), a);
    let second = all_rounds(Seq::empty(), b);
    law_packages_follow_dependencies(a);
    law_packages_follow_dependencies(b);
    let order = first.published;
    let published = second.published;
    let refused = second.refused;
    if refused.len() > 0 {
        assert(order.to_multiset() == a.to_multiset()) by {
            broadcast use vstd::seq_lib::group_to_multiset_ensures;

            assert(first.refused =~= Seq::<Artifact>::empty());
            assert(order.to_multiset() =~= a.to_multiset());
        }
        lemma_divided(a, order, published, refused);
        assert(refused.contains(refused[0]));
        assert(order.contains(refused[0]));
        let at = order.index_of(refused[0]);
        assert(refused.contains(order[at]));
        let k = lemma_first_among(order, refused, 0);
        lemma_first_refused_fits(order, published, refused, k);
        let r = refused.index_of(order[k]);
        assert(!takes(recorded(published), refused[r].header()));
    }
}

/// Whether packages with different versions can all be published does not depend on the order in
/// which they are listed.
pub proof fn law_order_does_not_matter(a: Seq<Artifact>, b: Seq<Artifact>)
    requires
        have_different_versions(a),
        a.to_multiset() == b.to_multiset(),
    ensures
        all_rounds(Seq::empty(), a).refused.len() == 0 <==> all_rounds(
            Seq::empty(),
            b,
        ).refused.len() == 0,
{
    lemma_different_versions(a, b);
    if all_rounds(Seq::empty(), a).refused.len() == 0 {
        lemma_none_refused(a, b);
    }
    if all_rounds(Seq::empty(), b).refused.len() == 0 {
        lemma_none_refused(b, a);
    }
}

/// Whether packages can be told apart where they are looked up.
pub open spec fn can_be_told_apart(artifacts: Seq<Artifact>) -> bool {
    forall|x: Artifact, y: Artifact|
        artifacts.contains(x) && artifacts.contains(y) && x.name == y.name && #[trigger] without_build(
            x.version,
        ) == #[trigger] without_build(y.version) ==> x == y
}

proof fn lemma_found_again(artifacts: Seq<Artifact>, wanted: Artifact, at: int, count: nat)
    requires
        0 <= at < count <= artifacts.len(),
        artifacts[at] == wanted,
        can_be_told_apart(artifacts),
    ensures
        published_artifact(artifacts, wanted.name, wanted.version, count) == Some(wanted),
    decreases count,
{
    let last = artifacts[count - 1];
    assert(artifacts.contains(last) && artifacts.contains(wanted));
    if !(last.name == wanted.name && without_build(last.version) == without_build(wanted.version)) {
        lemma_found_again(artifacts, wanted, at, (count - 1) as nat);
    }
}

/// Where all packages could be published, each is found again under its name and full version.
pub proof fn law_published_packages_are_found(waiting: Seq<Artifact>, at: int)
    requires
        0 <= at < waiting.len(),
        can_be_told_apart(waiting),
        all_rounds(Seq::empty(), waiting).refused.len() == 0,
    ensures
        ({
            let published = all_rounds(Seq::empty(), waiting).published;
            published_artifact(
                published,
                waiting[at].name,
                waiting[at].version,
                published.len(),
            ) == Some(waiting[at])
        }),
{
    broadcast use vstd::seq_lib::group_to_multiset_ensures;

    law_packages_follow_dependencies(waiting);
    let outcome = all_rounds(Seq::empty(), waiting);
    assert(outcome.refused =~= Seq::<Artifact>::empty());
    assert(outcome.published.to_multiset() =~= waiting.to_multiset());
    assert(waiting.to_multiset().contains(waiting[at]));
    assert(outcome.published.contains(waiting[at]));
    assert forall|x: Artifact, y: Artifact|
        outcome.published.contains(x) && outcome.published.contains(y) && x.name == y.name
            && #[trigger] without_build(x.version) == #[trigger] without_build(y.version) implies x
        == y by {
        assert(waiting.to_multiset().contains(x) && waiting.to_multiset().contains(y));
        assert(waiting.contains(x) && waiting.contains(y));
    }
    lemma_found_again(
        outcome.published,
        waiting[at],
        outcome.published.index_of(waiting[at]),
        outcome.published.len(),
    );
}

} // verus!
