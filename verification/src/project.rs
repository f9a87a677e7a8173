//! Which packages, targets and files make up a project.
use vstd::prelude::*;
use vstd::string::StringExecFns;
use vstd::utf8::encode_utf8;
use crate::model::{text_view, Context};
use crate::order::{arrange, key_views, law_stable_order, sort_by_keys, stable_order};
use crate::source_module::{TargetContext, TargetModel};
use crate::source_path::directory_prefix;
use crate::text::{chars_of, join, join3, same_text, string_of};
use crate::words::{has_part, contains_text, texts};

verus! {

/// Whether `names` holds `name`.
pub fn holds_text(names: &Vec<String>, name: &str) -> (holds: bool)
    ensures
        holds == texts(names@).contains(name@),
{
    let ghost all = texts(names@);
    let mut i: usize = 0;
    while i < names.len()
        invariant
            i <= names.len(),
            all == texts(names@),
            forall|k: int| 0 <= k < i ==> all[k] != name@,
        decreases names.len() - i,
    {
        assert(all[i as int] == names@[i as int]@);
        if same_text(&names[i], name) {
            assert(all.contains(name@));
            return true;
        }
        i = i + 1;
    }
    assert(!all.contains(name@)) by {
        if all.contains(name@) {
            let k = choose|k: int| 0 <= k < all.len() && all[k] == name@;
            assert(all[k] != name@);
        }
    }
    false
}

/// The last slash among the first `end` characters.
pub open spec fn last_slash(path: Seq<char>, end: int) -> Option<int>
    decreases end,
{
    if end <= 0 {
        None
    } else if path[end - 1] == '/' {
        Some(end - 1)
    } else {
        last_slash(path, end - 1)
    }
}

/// The directory that holds what a path names; the root and an empty path have none.
pub open spec fn parent_of(path: Seq<char>) -> Option<Seq<char>> {
    if path.len() == 0 || path == seq!['/'] {
        None
    } else {
        match last_slash(path, path.len() as int) {
            Some(at) => if at == 0 {
                Some(seq!['/'])
            } else {
                Some(path.take(at))
            },
            None => Some(Seq::empty()),
        }
    }
}

/// The directory that holds what a path names.
pub fn parent_directory(path: &str) -> (parent: Option<String>)
    ensures
        text_view(parent) == parent_of(path@),
        match parent {
            Some(parent) => parent@.len() < path@.len() || (path@.len() == 1 && parent@ != path@),
            None => true,
        },
{
    let chars = chars_of(path);
    if chars.len() == 0 {
        return None;
    }
    if chars.len() == 1 && chars[0] == '/' {
        assert(path@ =~= seq!['/']);
        return None;
    }
    proof {
        if path@ == seq!['/'] {
            assert(path@[0] == '/' && path@.len() == 1);
        }
    }
    let mut end: usize = chars.len();
    while end > 0
        invariant
            end <= chars.len(),
            chars@ == path@,
            chars.len() > 0,
            path@ != seq!['/'],
            !(chars.len() == 1 && chars@[0] == '/'),
            last_slash(path@, path@.len() as int) == last_slash(path@, end as int),
        decreases end,
    {
        if chars[end - 1] == '/' {
            if end == 1 {
                let root = "/".to_owned();
                proof {
                    reveal_strlit("/");
                    assert(root@ =~= seq!['/']);
                }
                return Some(root);
            }
            assert(chars@.subrange(0, end - 1) =~= path@.take(end - 1));
            return Some(string_of(&chars, 0, end - 1));
        }
        end = end - 1;
    }
    let empty = String::new();
    assert(empty@ =~= Seq::<char>::empty());
    Some(empty)
}

/// The path of a file in a directory.
pub open spec fn path_in(dir: Seq<char>, name: Seq<char>) -> Seq<char> {
    if dir.len() == 0 {
        name
    } else {
        directory_prefix(dir) + name
    }
}

/// The path of a file in a directory.
pub fn join_directory(dir: &str, name: &str) -> (path: String)
    ensures
        path@ == path_in(dir@, name@),
{
    let chars = chars_of(dir);
    if chars.len() == 0 {
        name.to_owned()
    } else if chars[chars.len() - 1] == '/' {
        join(dir, name)
    } else {
        join3(dir, "/", name)
    }
}

/// The places where the manifest of a project can be: in a directory, and in those that hold it.
pub open spec fn manifests_above(dir: Seq<char>) -> Seq<Seq<char>>
    decreases dir.len(),
{
    let here = seq![path_in(dir, "miden-project.toml"@)];
    match parent_of(dir) {
        Some(parent) => if parent.len() < dir.len() {
            here + manifests_above(parent)
        } else {
            here
        },
        None => here,
    }
}

/// Whether a path names a manifest.
pub open spec fn names_manifest(path: Seq<char>) -> bool {
    file_name(path) == "miden-project.toml"@
}

/// The name of what a path names.
pub open spec fn file_name(path: Seq<char>) -> Seq<char> {
    match last_slash(path, path.len() as int) {
        Some(at) => path.skip(at + 1),
        None => path,
    }
}

/// Whether a path names a manifest.
pub fn is_manifest(path: &str) -> (result: bool)
    ensures
        result == names_manifest(path@),
{
    let chars = chars_of(path);
    let len = chars.len();
    let mut end: usize = len;
    while end > 0
        invariant
            end <= len,
            len == chars.len(),
            chars@ == path@,
            last_slash(path@, path@.len() as int) == last_slash(path@, end as int),
        decreases end,
    {
        if chars[end - 1] == '/' {
            assert(chars@.subrange(end as int, len as int) =~= path@.skip(end as int));
            return same_text(&string_of(&chars, end, len), "miden-project.toml");
        }
        end = end - 1;
    }
    same_text(path, "miden-project.toml")
}

/// Where to look for the manifest that a path belongs to: at the path itself where it names a
/// manifest, else in its directory and above.
pub open spec fn manifest_places(path: Seq<char>, is_directory: bool) -> Option<Seq<Seq<char>>> {
    if is_directory {
        Some(manifests_above(path))
    } else {
        match parent_of(path) {
            Some(parent) => Some(manifests_above(parent)),
            None => None,
        }
    }
}

/// The places where the manifest of a project can be.
fn list_manifests(dir: &str) -> (places: Vec<String>)
    ensures
        texts(places@) == manifests_above(dir@),
{
    let mut places: Vec<String> = Vec::new();
    let mut current = dir.to_owned();
    let ghost all = manifests_above(dir@);
    assert(texts(places@) + manifests_above(current@) =~= all);
    loop
        invariant_except_break
            texts(places@) + manifests_above(current@) == all,
        invariant
            all == manifests_above(dir@),
        ensures
            texts(places@) == all,
        decreases current@.len(),
    {
        let place = join_directory(&current, "miden-project.toml");
        let ghost before = texts(places@);
        places.push(place);
        assert(texts(places@) =~= before.push(place@));
        match parent_directory(&current) {
            Some(parent) => {
                if parent.as_str().unicode_len() < current.as_str().unicode_len() {
                    assert(before + (seq![place@] + manifests_above(parent@)) =~= texts(places@)
                        + manifests_above(parent@));
                    current = parent;
                } else {
                    assert(before + seq![place@] =~= texts(places@));
                    break;
                }
            },
            None => {
                assert(before + seq![place@] =~= texts(places@));
                break;
            },
        }
    }
    places
}

/// Where to look for the manifest that a path belongs to.
pub fn manifest_candidates(path: &str, is_directory: bool) -> (places: Option<Vec<String>>)
    ensures
        match places {
            Some(places) => manifest_places(path@, is_directory) == Some(texts(places@)),
            None => manifest_places(path@, is_directory) is None,
        },
{
    if is_directory {
        Some(list_manifests(path))
    } else {
        match parent_directory(path) {
            Some(parent) => Some(list_manifests(&parent)),
            None => None,
        }
    }
}

/// The first of the places from `at` on that exists.
pub open spec fn first_existing(places: Seq<Seq<char>>, existing: Seq<Seq<char>>, at: int) -> Option<
    Seq<char>,
>
    decreases places.len() - at,
{
    if at >= places.len() {
        None
    } else if existing.contains(places[at]) {
        Some(places[at])
    } else {
        first_existing(places, existing, at + 1)
    }
}

/// The manifest that a path belongs to, when `existing` lists the files that exist; the nearest one
/// counts.
pub open spec fn manifest_of(path: Seq<char>, is_directory: bool, existing: Seq<Seq<char>>) -> Result<
    Seq<char>,
    Seq<char>,
> {
    if names_manifest(path) {
        Ok(path)
    } else {
        match manifest_places(path, is_directory) {
            None => Err("'"@ + path + "' has no parent directory"@),
            Some(places) => match first_existing(places, existing, 0) {
                Some(place) => Ok(place),
                None => Err("failed to locate miden-project.toml for '"@ + path + "'"@),
            },
        }
    }
}

/// The manifest that a path belongs to, when `existing` lists the files that exist.
pub fn find_manifest_path(path: &str, is_directory: bool, existing: &Vec<String>) -> (result: Result<
    String,
    String,
>)
    ensures
        match result {
            Ok(place) => manifest_of(path@, is_directory, texts(existing@)) == Ok::<
                Seq<char>,
                Seq<char>,
            >(place@),
            Err(message) => manifest_of(path@, is_directory, texts(existing@)) == Err::<
                Seq<char>,
                Seq<char>,
            >(message@),
        },
{
    if is_manifest(path) {
        return Ok(path.to_owned());
    }
    let places = match manifest_candidates(path, is_directory) {
        Some(places) => places,
        None => return Err(join3("'", path, "' has no parent directory")),
    };
    let ghost all = texts(places@);
    let mut i: usize = 0;
    while i < places.len()
        invariant
            i <= places.len(),
            all == texts(places@),
            !names_manifest(path@),
            manifest_places(path@, is_directory) == Some(all),
            first_existing(all, texts(existing@), 0) == first_existing(
                all,
                texts(existing@),
                i as int,
            ),
        decreases places.len() - i,
    {
        assert(all[i as int] == places@[i as int]@);
        if holds_text(existing, &places[i]) {
            return Ok(places[i].clone());
        }
        i = i + 1;
    }
    Err(join3("failed to locate miden-project.toml for '", path, "'"))
}

/// Whether the contents of a manifest describe a workspace.
pub fn describes_workspace(contents: &str) -> (result: bool)
    ensures
        result == contains_text(contents@, "[workspace]"@),
{
    has_part(contents, "[workspace]")
}

/// Which targets of a package are looked at.
#[derive(Debug, Clone, Copy, PartialEq, Eq, Structural)]
pub enum SourceMode {
    /// All of them: the package belongs to the project.
    AllTargets,
    /// Only the library: the package is a dependency.
    LibraryOnly,
}

/// A package of sources, by its number, and which of its targets are looked at.
#[derive(Debug, Clone, Copy, PartialEq, Eq, Structural)]
pub struct SourcePackage {
    pub package: usize,
    pub mode: SourceMode,
}

/// The packages that make up a project: packages of sources, each manifest once, and compiled
/// packages, each name once.
pub struct RootPlan {
    sources: Vec<SourcePackage>,
    manifests: Vec<String>,
    compiled: Vec<usize>,
    names: Vec<String>,
}

/// The model of a plan.
pub struct Plan {
    pub sources: Seq<SourcePackage>,
    pub manifests: Seq<Seq<char>>,
    pub compiled: Seq<usize>,
    pub names: Seq<Seq<char>>,
}

impl View for RootPlan {
    type V = Plan;

    closed spec fn view(&self) -> Plan {
        Plan {
            sources: self.sources@,
            manifests: texts(self.manifests@),
            compiled: self.compiled@,
            names: texts(self.names@),
        }
    }
}

impl Plan {
    /// No package is in the plan.
    pub open spec fn empty() -> Plan {
        Plan {
            sources: Seq::empty(),
            manifests: Seq::empty(),
            compiled: Seq::empty(),
            names: Seq::empty(),
        }
    }

    /// Adds a package of sources, unless one with the same manifest is there or it has none.
    pub open spec fn with_source(
        self,
        manifest: Option<Seq<char>>,
        package: usize,
        mode: SourceMode,
    ) -> Plan {
        match manifest {
            Some(manifest) => if self.manifests.contains(manifest) {
                self
            } else {
                Plan {
                    sources: self.sources.push(SourcePackage { package, mode }),
                    manifests: self.manifests.push(manifest),
                    ..self
                }
            },
            None => self,
        }
    }

    /// Adds several packages of sources whose targets are all looked at.
    pub open spec fn with_members(
        self,
        manifests: Seq<Option<Seq<char>>>,
        first: usize,
        count: nat,
    ) -> Plan
        decreases count,
    {
        if count == 0 {
            self
        } else {
            self.with_members(manifests, first, (count - 1) as nat).with_source(
                manifests[count - 1],
                (first + count - 1) as usize,
                SourceMode::AllTargets,
            )
        }
    }

    /// Adds a compiled package, unless one with the same name is there.
    pub open spec fn with_compiled(self, name: Seq<char>, package: usize) -> Plan {
        if self.names.contains(name) {
            self
        } else {
            Plan {
                compiled: self.compiled.push(package),
                names: self.names.push(name),
                ..self
            }
        }
    }

    /// Adds a dependency where it comes from: of a package of sources only the library is looked
    /// at, one that was compiled in advance is known by its name, and one of the registry by its
    /// name and its version. Sources without a manifest are left out.
    pub open spec fn with_dependency(self, origin: Origin, package: usize) -> Plan {
        match origin {
            Origin::Source(manifest) => self.with_source(
                manifest,
                package,
                SourceMode::LibraryOnly,
            ),
            Origin::Preassembled(name) => self.with_compiled(name, package),
            Origin::Registry { name, version } => self.with_compiled(
                name + "@"@ + version,
                package,
            ),
        }
    }

    /// Adds the first `count` dependencies. Sources are numbered from `first` on, and what was
    /// compiled is numbered from zero on, each in the order in which it is listed.
    pub open spec fn with_dependencies(self, origins: Seq<Origin>, first: nat, count: nat) -> Plan
        decreases count,
    {
        if count == 0 {
            self
        } else {
            let before = (count - 1) as nat;
            let number = if origins[count - 1] is Source {
                (first + sources_among(origins, before)) as int
            } else {
                before - sources_among(origins, before)
            };
            self.with_dependencies(origins, first, before).with_dependency(
                origins[count - 1],
                number as usize,
            )
        }
    }

    /// The plan of a project: the package that a document belongs to comes first, then the members
    /// of its workspace, then the dependencies.
    pub open spec fn of(
        owner: Option<Seq<char>>,
        members: Seq<Option<Seq<char>>>,
        dependencies: Seq<Origin>,
    ) -> Plan {
        Plan::empty().with_source(owner, 0, SourceMode::AllTargets).with_members(
            members,
            1,
            members.len(),
        ).with_dependencies(dependencies, members.len() + 1, dependencies.len())
    }

    /// Whether each package of sources is there for one manifest, each compiled package for one
    /// name, and nothing twice.
    pub open spec fn consistent(self) -> bool {
        &&& self.sources.len() == self.manifests.len()
        &&& self.compiled.len() == self.names.len()
        &&& self.manifests.no_duplicates()
        &&& self.names.no_duplicates()
    }
}

/// Where a dependency comes from.
pub enum DependencyOrigin {
    /// From sources, with the manifest that describes them.
    Source(Option<String>),
    /// From a file that was compiled in advance.
    Preassembled(String),
    /// From the registry.
    Registry { name: String, version: String },
}

/// The model of where a dependency comes from.
pub enum Origin {
    Source(Option<Seq<char>>),
    Preassembled(Seq<char>),
    Registry { name: Seq<char>, version: Seq<char> },
}

impl View for DependencyOrigin {
    type V = Origin;

    open spec fn view(&self) -> Origin {
        match *self {
            DependencyOrigin::Source(manifest) => Origin::Source(text_view(manifest)),
            DependencyOrigin::Preassembled(name) => Origin::Preassembled(name@),
            DependencyOrigin::Registry { name, version } => Origin::Registry {
                name: name@,
                version: version@,
            },
        }
    }
}

/// The models of where several dependencies come from.
pub open spec fn origin_views(origins: Seq<DependencyOrigin>) -> Seq<Origin> {
    Seq::new(origins.len(), |i: int| origins[i]@)
}

/// How many of the first `count` dependencies come from sources.
pub open spec fn sources_among(origins: Seq<Origin>, count: nat) -> nat
    decreases count,
{
    if count == 0 {
        0
    } else {
        sources_among(origins, (count - 1) as nat) + if origins[count - 1] is Source {
            1nat
        } else {
            0nat
        }
    }
}

/// The models of manifests that may be missing.
pub open spec fn manifest_views(manifests: Seq<Option<String>>) -> Seq<Option<Seq<char>>> {
    Seq::new(manifests.len(), |i: int| text_view(manifests[i]))
}

impl RootPlan {
    /// No package is in the plan.
    pub fn new() -> (plan: RootPlan)
        ensures
            plan@ == Plan::empty(),
    {
        let plan = RootPlan {
            sources: Vec::new(),
            manifests: Vec::new(),
            compiled: Vec::new(),
            names: Vec::new(),
        };
        assert(plan@.manifests =~= Plan::empty().manifests);
        assert(plan@.names =~= Plan::empty().names);
        assert(plan@.sources =~= Plan::empty().sources);
        assert(plan@.compiled =~= Plan::empty().compiled);
        plan
    }

    /// The packages of sources.
    pub fn sources(&self) -> (sources: &Vec<SourcePackage>)
        ensures
            sources@ == self@.sources,
    {
        &self.sources
    }

    /// The compiled packages, by their numbers.
    pub fn compiled(&self) -> (compiled: &Vec<usize>)
        ensures
            compiled@ == self@.compiled,
    {
        &self.compiled
    }

    /// Adds a package of sources, unless one with the same manifest is there or it has none.
    pub fn remember_source_package(
        &mut self,
        manifest: Option<String>,
        package: usize,
        mode: SourceMode,
    )
        ensures
            final(self)@ == old(self)@.with_source(text_view(manifest), package, mode),
    {
        let ghost before = self@;
        if let Some(manifest) = manifest {
            if !holds_text(&self.manifests, &manifest) {
                self.sources.push(SourcePackage { package, mode });
                self.manifests.push(manifest);
                assert(self@.manifests =~= before.manifests.push(manifest@));
            }
        }
    }

    /// Adds a workspace's members, numbered from `first` on.
    pub fn remember_members(&mut self, manifests: Vec<Option<String>>, first: usize)
        requires
            first + manifests@.len() <= usize::MAX,
        ensures
            final(self)@ == old(self)@.with_members(
                manifest_views(manifests@),
                first,
                manifests@.len(),
            ),
    {
        let ghost start = self@;
        let ghost all = manifest_views(manifests@);
        let mut i: usize = 0;
        while i < manifests.len()
            invariant
                i <= manifests.len(),
                first + manifests@.len() <= usize::MAX,
                all == manifest_views(manifests@),
                self@ == start.with_members(all, first, i as nat),
            decreases manifests.len() - i,
        {
            assert(all[i as int] == text_view(manifests@[i as int]));
            let manifest = crate::model::copy_text(&manifests[i]);
            self.remember_source_package(manifest, first + i, SourceMode::AllTargets);
            i = i + 1;
        }
    }

    /// Adds a compiled package, unless one with the same name is there.
    pub fn remember_compiled_package(&mut self, name: String, package: usize)
        ensures
            final(self)@ == old(self)@.with_compiled(name@, package),
    {
        let ghost before = self@;
        if !holds_text(&self.names, &name) {
            self.compiled.push(package);
            self.names.push(name);
            assert(self@.names =~= before.names.push(name@));
        }
    }

    /// Adds a dependency where it comes from.
    pub fn remember_dependency(&mut self, origin: DependencyOrigin, package: usize)
        ensures
            final(self)@ == old(self)@.with_dependency(origin@, package),
    {
        match origin {
            DependencyOrigin::Source(manifest) => self.remember_source_package(
                manifest,
                package,
                SourceMode::LibraryOnly,
            ),
            DependencyOrigin::Preassembled(name) => self.remember_compiled_package(name, package),
            DependencyOrigin::Registry { name, version } => {
                let key = join3(&name, "@", &version);
                self.remember_compiled_package(key, package);
            },
        }
    }

    /// Leaves only the compiled packages.
    pub fn forget_sources(&mut self)
        ensures
            final(self)@ == (Plan {
                sources: Seq::empty(),
                manifests: Seq::empty(),
                ..old(self)@
            }),
    {
        self.sources = Vec::new();
        self.manifests = Vec::new();
        assert(self@.manifests =~= Seq::<Seq<char>>::empty());
        assert(self@.sources =~= Seq::<SourcePackage>::empty());
    }
}

/// The plan of a project: the package that a document belongs to, with its manifest, comes first,
/// then the members of its workspace, then the dependencies.
pub fn plan_of(
    owner: Option<String>,
    members: Vec<Option<String>>,
    dependencies: Vec<DependencyOrigin>,
) -> (plan: RootPlan)
    requires
        members@.len() + dependencies@.len() < usize::MAX,
    ensures
        plan@ == Plan::of(
            text_view(owner),
            manifest_views(members@),
            origin_views(dependencies@),
        ),
{
    let ghost all = origin_views(dependencies@);
    let count = members.len();
    let total = dependencies.len();
    let mut plan = RootPlan::new();
    plan.remember_source_package(owner, 0, SourceMode::AllTargets);
    plan.remember_members(members, 1);
    let ghost start = plan@;
    let mut sources: usize = 0;
    let mut compiled: usize = 0;
    for origin in it: dependencies
        invariant
            count + total < usize::MAX,
            it.seq() == dependencies@,
            total == dependencies@.len(),
            all == origin_views(dependencies@),
            sources + compiled == it.index(),
            sources == sources_among(all, it.index() as nat),
            plan@ == start.with_dependencies(all, (count + 1) as nat, it.index() as nat),
    {
        assert(all[it.index()] == origin@);
        let from_sources = match &origin {
            DependencyOrigin::Source(_) => true,
            _ => false,
        };
        if from_sources {
            plan.remember_dependency(origin, count + 1 + sources);
            sources = sources + 1;
        } else {
            plan.remember_dependency(origin, compiled);
            compiled = compiled + 1;
        }
    }
    plan
}

/// The manifests of a workspace's folders that are loaded: of the first `count`, those that exist,
/// each once, in the order in which they are listed first.
pub open spec fn workspace_roots(
    manifests: Seq<Seq<char>>,
    existing: Seq<Seq<char>>,
    count: nat,
) -> Seq<Seq<char>>
    decreases count,
{
    if count == 0 {
        Seq::empty()
    } else {
        let before = workspace_roots(manifests, existing, (count - 1) as nat);
        let manifest = manifests[count - 1];
        if existing.contains(manifest) && !before.contains(manifest) {
            before.push(manifest)
        } else {
            before
        }
    }
}

/// The manifests of a workspace's folders that are loaded, when `existing` lists the files that
/// exist.
pub fn workspace_manifests(manifests: &Vec<String>, existing: &Vec<String>) -> (roots: Vec<String>)
    ensures
        texts(roots@) == workspace_roots(
            texts(manifests@),
            texts(existing@),
            manifests@.len(),
        ),
{
    let ghost all = texts(manifests@);
    let mut roots: Vec<String> = Vec::new();
    let mut i: usize = 0;
    assert(texts(roots@) =~= Seq::<Seq<char>>::empty());
    while i < manifests.len()
        invariant
            i <= manifests.len(),
            all == texts(manifests@),
            texts(roots@) == workspace_roots(all, texts(existing@), i as nat),
        decreases manifests.len() - i,
    {
        assert(all[i as int] == manifests@[i as int]@);
        let ghost before = texts(roots@);
        if holds_text(existing, &manifests[i]) && !holds_text(&roots, &manifests[i]) {
            roots.push(manifests[i].clone());
            assert(texts(roots@) =~= before.push(all[i as int]));
        }
        i = i + 1;
    }
    roots
}

proof fn lemma_roots_cover(manifests: Seq<Seq<char>>, existing: Seq<Seq<char>>, count: nat)
    requires
        count <= manifests.len(),
    ensures
        workspace_roots(manifests, existing, count).no_duplicates(),
        forall|i: int|
            0 <= i < count && existing.contains(#[trigger] manifests[i]) ==> workspace_roots(
                manifests,
                existing,
                count,
            ).contains(manifests[i]),
        forall|k: int|
            0 <= k < workspace_roots(manifests, existing, count).len() ==> existing.contains(
                #[trigger] workspace_roots(manifests, existing, count)[k],
            ),
    decreases count,
{
    if count > 0 {
        lemma_roots_cover(manifests, existing, (count - 1) as nat);
        let before = workspace_roots(manifests, existing, (count - 1) as nat);
        let manifest = manifests[count - 1];
        let after = workspace_roots(manifests, existing, count);
        if existing.contains(manifest) && !before.contains(manifest) {
            lemma_push_new(before, manifest);
            assert(after[before.len() as int] == manifest);
            assert forall|x: Seq<char>| before.contains(x) implies after.contains(x) by {
                let k = before.index_of(x);
                assert(after[k] == x);
            }
        }
    }
}

proof fn lemma_roots_of_prefix(
    manifests: Seq<Seq<char>>,
    more: Seq<Seq<char>>,
    existing: Seq<Seq<char>>,
    count: nat,
)
    requires
        count <= manifests.len(),
    ensures
        workspace_roots(manifests + more, existing, count) == workspace_roots(
            manifests,
            existing,
            count,
        ),
    decreases count,
{
    if count > 0 {
        lemma_roots_of_prefix(manifests, more, existing, (count - 1) as nat);
        assert((manifests + more)[count - 1] == manifests[count - 1]);
    }
}

/// A folder that is listed again, or that has no manifest, adds nothing to a workspace.
pub proof fn law_folders_count_once(
    manifests: Seq<Seq<char>>,
    more: Seq<Seq<char>>,
    existing: Seq<Seq<char>>,
    count: nat,
)
    requires
        count <= more.len(),
        forall|i: int|
            0 <= i < more.len() ==> manifests.contains(#[trigger] more[i]) || !existing.contains(
                more[i],
            ),
    ensures
        workspace_roots(manifests + more, existing, (manifests.len() + count) as nat)
            == workspace_roots(manifests, existing, manifests.len()),
    decreases count,
{
    lemma_roots_of_prefix(manifests, more, existing, manifests.len());
    if count > 0 {
        law_folders_count_once(manifests, more, existing, (count - 1) as nat);
        lemma_roots_cover(manifests, existing, manifests.len());
        let next = more[count - 1];
        assert((manifests + more)[manifests.len() + count - 1] == next);
        if manifests.contains(next) {
            let i = manifests.index_of(next);
            assert(manifests[i] == next);
        }
    }
}

/// Each root of a workspace exists and is loaded once, and no manifest that exists is left out.
pub proof fn law_workspace_roots(manifests: Seq<Seq<char>>, existing: Seq<Seq<char>>)
    ensures
        ({
            let roots = workspace_roots(manifests, existing, manifests.len());
            &&& roots.no_duplicates()
            &&& forall|k: int| 0 <= k < roots.len() ==> existing.contains(#[trigger] roots[k])
            &&& forall|i: int|
                0 <= i < manifests.len() && existing.contains(#[trigger] manifests[i])
                    ==> roots.contains(manifests[i])
        }),
{
    lemma_roots_cover(manifests, existing, manifests.len());
}

proof fn lemma_push_new<T>(list: Seq<T>, item: T)
    requires
        list.no_duplicates(),
        !list.contains(item),
    ensures
        list.push(item).no_duplicates(),
{
    let longer = list.push(item);
    assert forall|i: int, j: int|
        0 <= i < longer.len() && 0 <= j < longer.len() && i != j implies longer[i] != longer[j] by {
        if i < list.len() {
            assert(list.contains(longer[i]));
        }
        if j < list.len() {
            assert(list.contains(longer[j]));
        }
    }
}

/// Whatever packages are added, no manifest and no compiled package is in a plan twice.
pub proof fn law_plan_stays_consistent(
    plan: Plan,
    manifest: Option<Seq<char>>,
    name: Seq<char>,
    package: usize,
    mode: SourceMode,
)
    requires
        plan.consistent(),
    ensures
        Plan::empty().consistent(),
        plan.with_source(manifest, package, mode).consistent(),
        plan.with_compiled(name, package).consistent(),
        plan.with_source(manifest, package, mode).with_source(manifest, package, mode)
            == plan.with_source(manifest, package, mode),
        plan.with_compiled(name, package).with_compiled(name, package) == plan.with_compiled(
            name,
            package,
        ),
{
    if let Some(manifest) = manifest {
        if !plan.manifests.contains(manifest) {
            lemma_push_new(plan.manifests, manifest);
            let longer = plan.manifests.push(manifest);
            assert(longer[plan.manifests.len() as int] == manifest);
        }
    }
    if !plan.names.contains(name) {
        lemma_push_new(plan.names, name);
        let longer = plan.names.push(name);
        assert(longer[plan.names.len() as int] == name);
    }
}

/// A target of a package, as its manifest gives it.
pub struct TargetSource {
    pub name: String,
    pub executable: bool,
    pub namespace: String,
    /// The file that holds the root module, where the manifest names one.
    pub root_file: Option<String>,
}

/// The model of a target as its manifest gives it.
pub struct TargetPart {
    pub name: Seq<char>,
    pub executable: bool,
    pub namespace: Seq<char>,
    pub root_file: Option<Seq<char>>,
}

impl View for TargetSource {
    type V = TargetPart;

    open spec fn view(&self) -> TargetPart {
        TargetPart {
            name: self.name@,
            executable: self.executable,
            namespace: self.namespace@,
            root_file: text_view(self.root_file),
        }
    }
}

/// A package of sources, as its manifest gives it.
pub struct PackageSource {
    pub name: String,
    pub manifest_path: Option<String>,
    pub library: Option<TargetSource>,
    pub executables: Vec<TargetSource>,
    pub mode: SourceMode,
}

/// The models of a list of targets.
pub open spec fn target_parts(targets: Seq<TargetSource>) -> Seq<TargetPart> {
    Seq::new(targets.len(), |i: int| targets[i]@)
}

/// The model of a package of sources.
pub struct PackagePart {
    pub name: Seq<char>,
    pub manifest_path: Option<Seq<char>>,
    pub library: Option<TargetPart>,
    pub executables: Seq<TargetPart>,
    pub mode: SourceMode,
}

impl View for PackageSource {
    type V = PackagePart;

    open spec fn view(&self) -> PackagePart {
        PackagePart {
            name: self.name@,
            manifest_path: text_view(self.manifest_path),
            library: match self.library {
                Some(target) => Some(target@),
                None => None,
            },
            executables: target_parts(self.executables@),
            mode: self.mode,
        }
    }
}

/// The root files of the first `count` targets that have one.
pub open spec fn root_files(targets: Seq<TargetPart>, count: nat) -> Seq<Seq<char>>
    decreases count,
{
    if count == 0 {
        Seq::empty()
    } else {
        let before = root_files(targets, (count - 1) as nat);
        match targets[count - 1].root_file {
            Some(file) => before.push(file),
            None => before,
        }
    }
}

/// The files of a directory among the first `count`, without one of them.
pub open spec fn siblings(
    files: Seq<Seq<char>>,
    root_file: Seq<char>,
    root_dir: Seq<char>,
    count: nat,
) -> Seq<Seq<char>>
    decreases count,
{
    if count == 0 {
        Seq::empty()
    } else {
        let before = siblings(files, root_file, root_dir, (count - 1) as nat);
        let file = files[count - 1];
        if file != root_file && parent_of(file) == Some(root_dir) {
            before.push(file)
        } else {
            before
        }
    }
}

/// Where the modules of a target are found: in the directory of its root file, except the root
/// files of other executables there.
pub open spec fn target_context(
    package: Seq<char>,
    target: TargetPart,
    exec_roots: Seq<Seq<char>>,
    editable: bool,
) -> Result<TargetModel, Seq<char>> {
    match target.root_file {
        None => Err("target '"@ + target.name + "' has no source path"@),
        Some(root_file) => match parent_of(root_file) {
            None => Err("target root '"@ + root_file + "' has no parent"@),
            Some(root_dir) => Ok(
                TargetModel {
                    context: Context {
                        package,
                        target: target.name,
                        executable: target.executable,
                    },
                    editable,
                    root_file,
                    root_dir,
                    namespace: target.namespace,
                    siblings: siblings(exec_roots, root_file, root_dir, exec_roots.len()),
                },
            ),
        },
    }
}

/// Where the modules of a target are found.
pub fn build_target_context(
    package_name: &str,
    target: &TargetSource,
    exec_roots: &Vec<String>,
    editable: bool,
) -> (result: Result<TargetContext, String>)
    ensures
        match result {
            Ok(context) => target_context(package_name@, target@, texts(exec_roots@), editable)
                == Ok::<TargetModel, Seq<char>>(context@),
            Err(message) => target_context(package_name@, target@, texts(exec_roots@), editable)
                == Err::<TargetModel, Seq<char>>(message@),
        },
{
    let root_file = match &target.root_file {
        Some(root_file) => root_file.clone(),
        None => return Err(join3("target '", &target.name, "' has no source path")),
    };
    let root_dir = match parent_directory(&root_file) {
        Some(root_dir) => root_dir,
        None => return Err(join3("target root '", &root_file, "' has no parent")),
    };
    let ghost all = texts(exec_roots@);
    let mut sibling_exec_roots: Vec<String> = Vec::new();
    let mut i: usize = 0;
    assert(texts(sibling_exec_roots@) =~= Seq::<Seq<char>>::empty());
    while i < exec_roots.len()
        invariant
            i <= exec_roots.len(),
            all == texts(exec_roots@),
            texts(sibling_exec_roots@) == siblings(all, root_file@, root_dir@, i as nat),
        decreases exec_roots.len() - i,
    {
        let file = &exec_roots[i];
        assert(all[i as int] == file@);
        let same_dir = match parent_directory(file) {
            Some(parent) => same_text(&parent, &root_dir),
            None => false,
        };
        if !same_text(file, &root_file) && same_dir {
            let ghost before = texts(sibling_exec_roots@);
            sibling_exec_roots.push(file.clone());
            assert(texts(sibling_exec_roots@) =~= before.push(file@));
        }
        i = i + 1;
    }
    Ok(
        TargetContext {
            package_name: package_name.to_owned(),
            target: target.name.clone(),
            executable: target.executable,
            editable,
            root_file,
            root_dir,
            namespace: target.namespace.clone(),
            sibling_exec_roots,
        },
    )
}

/// The targets that are looked at: the library, and, in a package of the project, the executables.
/// Targets without a root file are left out.
pub open spec fn targets_of(package: PackagePart) -> Seq<TargetPart> {
    let library = match package.library {
        Some(target) => seq![target],
        None => Seq::empty(),
    };
    let all = if package.mode == SourceMode::AllTargets {
        library + package.executables
    } else {
        library
    };
    with_root_file(all, all.len())
}

/// Those of the first `count` targets that have a root file.
pub open spec fn with_root_file(targets: Seq<TargetPart>, count: nat) -> Seq<TargetPart>
    decreases count,
{
    if count == 0 {
        Seq::empty()
    } else {
        let before = with_root_file(targets, (count - 1) as nat);
        if targets[count - 1].root_file is Some {
            before.push(targets[count - 1])
        } else {
            before
        }
    }
}

/// Where the modules of the first `count` targets are found.
pub open spec fn contexts_of(
    package: Seq<char>,
    targets: Seq<TargetPart>,
    exec_roots: Seq<Seq<char>>,
    editable: bool,
    count: nat,
) -> Result<Seq<TargetModel>, Seq<char>>
    decreases count,
{
    if count == 0 {
        Ok(Seq::empty())
    } else {
        match contexts_of(package, targets, exec_roots, editable, (count - 1) as nat) {
            Err(message) => Err(message),
            Ok(before) => match target_context(package, targets[count - 1], exec_roots, editable) {
                Err(message) => Err(message),
                Ok(context) => Ok(before.push(context)),
            },
        }
    }
}

/// Where the modules of a package are found, target by target.
pub open spec fn package_contexts(package: PackagePart) -> Result<Seq<TargetModel>, Seq<char>> {
    match package.manifest_path {
        None => Err("package '"@ + package.name + "' has no manifest path"@),
        Some(manifest) => match parent_of(manifest) {
            None => Err("manifest '"@ + manifest + "' has no parent"@),
            Some(_) => {
                let targets = targets_of(package);
                contexts_of(
                    package.name,
                    targets,
                    root_files(package.executables, package.executables.len()),
                    package.mode == SourceMode::AllTargets,
                    targets.len(),
                )
            },
        },
    }
}

/// The models of a list of targets.
pub open spec fn target_models(contexts: Seq<TargetContext>) -> Seq<TargetModel> {
    Seq::new(contexts.len(), |i: int| contexts[i]@)
}

/// The root files of executables.
fn collect_root_files(targets: &Vec<TargetSource>) -> (files: Vec<String>)
    ensures
        texts(files@) == root_files(target_parts(targets@), targets@.len()),
{
    let ghost all = target_parts(targets@);
    let mut files: Vec<String> = Vec::new();
    let mut i: usize = 0;
    assert(texts(files@) =~= Seq::<Seq<char>>::empty());
    while i < targets.len()
        invariant
            i <= targets.len(),
            all == target_parts(targets@),
            texts(files@) == root_files(all, i as nat),
        decreases targets.len() - i,
    {
        assert(all[i as int] == targets@[i as int]@);
        if let Some(file) = &targets[i].root_file {
            let ghost before = texts(files@);
            files.push(file.clone());
            assert(texts(files@) =~= before.push(file@));
        }
        i = i + 1;
    }
    files
}

/// Where the modules of a package are found, target by target.
pub fn target_contexts(package: &PackageSource) -> (result: Result<Vec<TargetContext>, String>)
    ensures
        match result {
            Ok(contexts) => package_contexts(package@) == Ok::<Seq<TargetModel>, Seq<char>>(
                target_models(contexts@),
            ),
            Err(message) => package_contexts(package@) == Err::<Seq<TargetModel>, Seq<char>>(
                message@,
            ),
        },
{
    let manifest = match &package.manifest_path {
        Some(manifest) => manifest,
        None => return Err(join3("package '", &package.name, "' has no manifest path")),
    };
    if parent_directory(manifest).is_none() {
        return Err(join3("manifest '", manifest, "' has no parent"));
    }
    let exec_roots = collect_root_files(&package.executables);
    let all_targets = match package.mode {
        SourceMode::AllTargets => true,
        SourceMode::LibraryOnly => false,
    };
    let mut targets: Vec<&TargetSource> = Vec::new();
    if let Some(target) = &package.library {
        targets.push(target);
    }
    let ghost library = match package@.library {
        Some(target) => seq![target],
        None => Seq::empty(),
    };
    assert(borrowed_parts(targets@) =~= library);
    if all_targets {
        let mut i: usize = 0;
        assert(library + package@.executables.take(0) =~= library);
        while i < package.executables.len()
            invariant
                i <= package.executables.len(),
                borrowed_parts(targets@) == library + package@.executables.take(i as int),
            decreases package.executables.len() - i,
        {
            let ghost before = borrowed_parts(targets@);
            let target = &package.executables[i];
            targets.push(target);
            assert(borrowed_parts(targets@) =~= before.push(target@));
            assert(package@.executables[i as int] == target@);
            assert(library + package@.executables.take(i + 1) =~= (library
                + package@.executables.take(i as int)).push(target@));
            i = i + 1;
        }
        assert(package@.executables.take(i as int) =~= package@.executables);
    }
    let ghost all = borrowed_parts(targets@);
    let ghost roots = texts(exec_roots@);
    let mut contexts: Vec<TargetContext> = Vec::new();
    let mut j: usize = 0;
    assert(target_models(contexts@) =~= Seq::<TargetModel>::empty());
    while j < targets.len()
        invariant
            j <= targets.len(),
            all == borrowed_parts(targets@),
            roots == texts(exec_roots@),
            all_targets == (package@.mode == SourceMode::AllTargets),
            package@.manifest_path is Some,
            parent_of(package@.manifest_path.unwrap()) is Some,
            targets_of(package@) == with_root_file(all, all.len()),
            roots == root_files(package@.executables, package@.executables.len()),
            contexts_of(
                package@.name,
                with_root_file(all, j as nat),
                roots,
                all_targets,
                with_root_file(all, j as nat).len(),
            ) == Ok::<Seq<TargetModel>, Seq<char>>(target_models(contexts@)),
        decreases targets.len() - j,
    {
        let target = targets[j];
        assert(all[j as int] == target@);
        if target.root_file.is_some() {
            let ghost before = with_root_file(all, j as nat);
            let ghost after = with_root_file(all, (j + 1) as nat);
            proof {
                assert(after == before.push(target@));
                lemma_contexts_of_prefix(
                    package@.name,
                    before,
                    target@,
                    roots,
                    all_targets,
                    before.len(),
                );
            }
            match build_target_context(&package.name, target, &exec_roots, all_targets) {
                Ok(context) => {
                    let ghost shown = target_models(contexts@);
                    contexts.push(context);
                    assert(target_models(contexts@) =~= shown.push(context@));
                },
                Err(message) => {
                    proof {
                        lemma_contexts_fail(
                            package@.name,
                            all,
                            roots,
                            all_targets,
                            (j + 1) as nat,
                            all.len(),
                        );
                    }
                    return Err(message);
                },
            }
        }
        j = j + 1;
    }
    Ok(contexts)
}

/// The models of a list of borrowed targets.
pub open spec fn borrowed_parts(targets: Seq<&TargetSource>) -> Seq<TargetPart> {
    Seq::new(targets.len(), |i: int| targets[i]@)
}

proof fn lemma_contexts_of_prefix(
    package: Seq<char>,
    targets: Seq<TargetPart>,
    more: TargetPart,
    exec_roots: Seq<Seq<char>>,
    editable: bool,
    count: nat,
)
    requires
        count <= targets.len(),
    ensures
        contexts_of(package, targets.push(more), exec_roots, editable, count) == contexts_of(
            package,
            targets,
            exec_roots,
            editable,
            count,
        ),
    decreases count,
{
    if count > 0 {
        lemma_contexts_of_prefix(
            package,
            targets,
            more,
            exec_roots,
            editable,
            (count - 1) as nat,
        );
        assert(targets.push(more)[count - 1] == targets[count - 1]);
    }
}

/// A target that fails makes the whole fail, with its message.
proof fn lemma_contexts_fail(
    package: Seq<char>,
    all: Seq<TargetPart>,
    exec_roots: Seq<Seq<char>>,
    editable: bool,
    from: nat,
    to: nat,
)
    requires
        from <= to <= all.len(),
        contexts_of(
            package,
            with_root_file(all, from),
            exec_roots,
            editable,
            with_root_file(all, from).len(),
        ) is Err,
    ensures
        contexts_of(
            package,
            with_root_file(all, to),
            exec_roots,
            editable,
            with_root_file(all, to).len(),
        ) == contexts_of(
            package,
            with_root_file(all, from),
            exec_roots,
            editable,
            with_root_file(all, from).len(),
        ),
    decreases to,
{
    if from < to {
        lemma_contexts_fail(package, all, exec_roots, editable, from, (to - 1) as nat);
        let before = with_root_file(all, (to - 1) as nat);
        if all[to - 1].root_file is Some {
            lemma_contexts_of_prefix(
                package,
                before,
                all[to - 1],
                exec_roots,
                editable,
                before.len(),
            );
        }
    }
}

/// The sorting key of a path: components compare one by one, so a slash comes before every other
/// character.
pub open spec fn path_key(bytes: Seq<u8>) -> Seq<u64> {
    Seq::new(
        bytes.len(),
        |k: int|
            if bytes[k] == 47 {
                0u64
            } else {
                (bytes[k] + 1) as u64
            },
    )
}

/// The sorting keys of paths.
pub open spec fn path_keys(paths: Seq<Seq<char>>) -> Seq<Seq<u64>> {
    Seq::new(paths.len(), |i: int| path_key(encode_utf8(paths[i])))
}

/// The sorting key of a path.
pub fn key_of_path(path: &str) -> (key: Vec<u64>)
    ensures
        key@ == path_key(encode_utf8(path@)),
{
    let bytes = path.as_bytes();
    let mut key: Vec<u64> = Vec::new();
    let mut i: usize = 0;
    while i < bytes.len()
        invariant
            i <= bytes.len(),
            key@ == path_key(bytes@).take(i as int),
        decreases bytes.len() - i,
    {
        key.push(
            if bytes[i] == 47 {
                0
            } else {
                bytes[i] as u64 + 1
            },
        );
        i = i + 1;
        assert(key@ =~= path_key(bytes@).take(i as int));
    }
    assert(path_key(bytes@).take(i as int) =~= path_key(bytes@));
    key
}

/// Those of the first `count` files that are not left out.
pub open spec fn kept_files(files: Seq<Seq<char>>, left_out: Seq<Seq<char>>, count: nat) -> Seq<
    Seq<char>,
>
    decreases count,
{
    if count == 0 {
        Seq::empty()
    } else {
        let before = kept_files(files, left_out, (count - 1) as nat);
        if left_out.contains(files[count - 1]) {
            before
        } else {
            before.push(files[count - 1])
        }
    }
}

/// The files of a target among those that were found, in the order of their paths.
pub open spec fn target_files(target: TargetModel, found: Seq<Seq<char>>) -> Seq<Seq<char>> {
    let sorted = arrange(found, stable_order(path_keys(found)));
    kept_files(sorted, target.siblings, sorted.len())
}

/// The files of a target among those that were found.
pub fn collect_target_files(target: &TargetContext, found: Vec<String>) -> (files: Vec<String>)
    ensures
        texts(files@) == target_files(target@, texts(found@)),
{
    let ghost list = texts(found@);
    let mut keys: Vec<Vec<u64>> = Vec::new();
    let mut i: usize = 0;
    while i < found.len()
        invariant
            i <= found.len(),
            keys.len() == i,
            list == texts(found@),
            forall|k: int| 0 <= k < i ==> (#[trigger] keys@[k])@ == path_keys(list)[k],
        decreases found.len() - i,
    {
        assert(list[i as int] == found@[i as int]@);
        keys.push(key_of_path(&found[i]));
        i = i + 1;
    }
    assert(key_views(keys@) =~= path_keys(list));
    let sorted = sort_by_keys(found, &keys);
    let ghost all = texts(sorted@);
    proof {
        law_stable_order(path_keys(list));
        assert(all =~= arrange(list, stable_order(path_keys(list))));
    }
    let mut files: Vec<String> = Vec::new();
    let mut j: usize = 0;
    assert(texts(files@) =~= Seq::<Seq<char>>::empty());
    while j < sorted.len()
        invariant
            j <= sorted.len(),
            all == texts(sorted@),
            texts(files@) == kept_files(all, target@.siblings, j as nat),
        decreases sorted.len() - j,
    {
        assert(all[j as int] == sorted@[j as int]@);
        if !holds_text(&target.sibling_exec_roots, &sorted[j]) {
            let ghost before = texts(files@);
            files.push(sorted[j].clone());
            assert(texts(files@) =~= before.push(all[j as int]));
        }
        j = j + 1;
    }
    files
}

/// Whether a file holds Miden Assembly, by its name.
pub open spec fn has_masm_extension(path: Seq<char>) -> bool {
    let name = file_name(path);
    match crate::source_path::last_dot(name, name.len() as int) {
        Some(at) => at > 0 && name.skip(at + 1) == "masm"@,
        None => false,
    }
}

/// Whether a file holds Miden Assembly, by its name.
pub fn is_masm_file(path: &str) -> (result: bool)
    ensures
        result == has_masm_extension(path@),
{
    let chars = chars_of(path);
    let len = chars.len();
    let mut start: usize = len;
    while start > 0 && chars[start - 1] != '/'
        invariant
            start <= len,
            len == chars.len(),
            chars@ == path@,
            last_slash(path@, path@.len() as int) == last_slash(path@, start as int),
        decreases start,
    {
        start = start - 1;
    }
    let ghost name = file_name(path@);
    proof {
        if start > 0 {
            assert(name == path@.skip(start as int));
        } else {
            assert(path@.skip(0) =~= path@);
            assert(name == path@.skip(start as int));
        }
    }
    let mut end: usize = len;
    while end > start
        invariant
            start <= end <= len,
            len == chars.len(),
            chars@ == path@,
            name == path@.skip(start as int),
            name == file_name(path@),
            crate::source_path::last_dot(name, name.len() as int) == crate::source_path::last_dot(
                name,
                end - start,
            ),
        decreases end,
    {
        assert(name[end - start - 1] == chars@[end - 1]);
        if chars[end - 1] == '.' {
            if end - 1 == start {
                return false;
            }
            let extension = string_of(&chars, end, len);
            assert(extension@ =~= name.skip(end - start));
            return same_text(&extension, "masm");
        }
        end = end - 1;
    }
    false
}

/// In how many of the first `count` lists a file occurs, each occurrence counted.
pub open spec fn occurrence_count(files: Seq<Seq<char>>, file: Seq<char>, count: nat) -> nat
    decreases count,
{
    if count == 0 {
        0
    } else {
        occurrence_count(files, file, (count - 1) as nat) + if files[count - 1] == file {
            1nat
        } else {
            0nat
        }
    }
}

/// The priority of a file in a target: where several targets share the file, the one named `lib`
/// comes first.
pub open spec fn priority_of(target: Seq<char>, count: nat) -> usize {
    if count <= 1 || target == "lib"@ {
        0
    } else {
        1
    }
}

/// The priority of a file in a target, when `files` lists the files of all targets of the package.
pub fn primary_priority(target: &str, file_path: &str, files: &Vec<String>) -> (priority: usize)
    ensures
        priority == priority_of(
            target@,
            occurrence_count(texts(files@), file_path@, files@.len()),
        ),
{
    let ghost all = texts(files@);
    let mut count: usize = 0;
    let mut i: usize = 0;
    while i < files.len()
        invariant
            i <= files.len(),
            all == texts(files@),
            count <= i,
            count == occurrence_count(all, file_path@, i as nat),
        decreases files.len() - i,
    {
        assert(all[i as int] == files@[i as int]@);
        if same_text(&files[i], file_path) {
            count = count + 1;
        }
        i = i + 1;
    }
    if count <= 1 || same_text(target, "lib") {
        0
    } else {
        1
    }
}

/// The manifest that is found is the nearest: it exists, and none of the places before it does.
pub proof fn law_nearest_manifest(places: Seq<Seq<char>>, existing: Seq<Seq<char>>, at: int)
    requires
        0 <= at,
    ensures
        match first_existing(places, existing, at) {
            Some(place) => exists|k: int|
                at <= k < places.len() && #[trigger] places[k] == place && existing.contains(place)
                    && forall|j: int| at <= j < k ==> !existing.contains(#[trigger] places[j]),
            None => forall|j: int| at <= j < places.len() ==> !existing.contains(
                #[trigger] places[j],
            ),
        },
    decreases places.len() - at,
{
    if at < places.len() {
        if existing.contains(places[at]) {
            assert(places[at] == first_existing(places, existing, at).unwrap());
        } else {
            law_nearest_manifest(places, existing, at + 1);
            if let Some(place) = first_existing(places, existing, at + 1) {
                let k = choose|k: int|
                    at + 1 <= k < places.len() && #[trigger] places[k] == place
                        && existing.contains(place) && forall|j: int|
                        at + 1 <= j < k ==> !existing.contains(#[trigger] places[j]);
                assert(places[k] == place);
            }
        }
    }
}

} // verus!
