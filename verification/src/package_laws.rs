//! What compiled packages and open documents give: the laws of metadata, registries and the server.
use vstd::prelude::*;
use vstd::utf8::encode_utf8;
use crate::document::{edited, syntax_findings, DocumentState, Edit, TextChange};
use crate::meaning::{at_start, comes_before, law_byte_keys};
use crate::metadata::{debug_origin, export_defs, function_at, has_module, metadata_defs,
    module_keys, module_places, section_named, Export, Exported, FunctionOrigin, PackageModel,
    SourceNames};
use crate::model::{lookup, Def, Place};
use crate::order::{arrange, byte_key, in_order, key_le, law_stable_order, stable_order};
use crate::registry::{artifact_failure, first_of, has_package, published_artifact, recorded,
    without_build, Artifact};
use crate::server::{addresses_differ, changed, document_at, opened, place_for, with_document,
    without_document};
use crate::signature::function_signature;
use crate::snapshot_laws::lemma_push_contains;
use crate::source_module::definition_block;
use crate::syntax::tree_rows;
use crate::words::{joined_lines, last_segment};

verus! {

/// Whether a function is the first one of a list with a hash.
pub open spec fn is_first_function(
    functions: Seq<FunctionOrigin>,
    digest: Seq<char>,
    i: int,
) -> bool {
    &&& 0 <= i < functions.len()
    &&& functions[i].root == Some(digest)
    &&& forall|j: int| 0 <= j < i ==> (#[trigger] functions[j]).root != Some(digest)
}

proof fn lemma_function_at(functions: Seq<FunctionOrigin>, digest: Seq<char>, at: int)
    requires
        0 <= at,
    ensures
        match function_at(functions, digest, at) {
            Some(function) => exists|i: int|
                {
                    &&& at <= i < functions.len()
                    &&& #[trigger] functions[i] == function
                    &&& function.root == Some(digest)
                    &&& forall|j: int| at <= j < i ==> (#[trigger] functions[j]).root != Some(digest)
                },
            None => forall|j: int|
                at <= j < functions.len() ==> (#[trigger] functions[j]).root != Some(digest),
        },
    decreases functions.len() - at,
{
    if at < functions.len() {
        if functions[at].root == Some(digest) {
            assert(functions[at] == function_at(functions, digest, at).unwrap());
        } else {
            lemma_function_at(functions, digest, at + 1);
        }
    }
}

/// A procedure was defined where the first function with its hash was: in the file with its number, at
/// its line and column, which count from one there and from zero here. Where the tables have no such
/// function or no such file, it is not known.
pub proof fn law_debug_origin(
    digest: Seq<char>,
    sources: SourceNames,
    functions: Seq<FunctionOrigin>,
    i: int,
)
    ensures
        debug_origin(digest, None, Some(functions)) is None,
        debug_origin(digest, Some(sources), None) is None,
        (forall|j: int|
            0 <= j < functions.len() ==> (#[trigger] functions[j]).root != Some(digest))
            ==> debug_origin(digest, Some(sources), Some(functions)) is None,
        is_first_function(functions, digest, i) ==> {
            let function = functions[i];
            let known = function.file < sources.files.len() && sources.files[function.file as int]
                < sources.strings.len();
            match debug_origin(digest, Some(sources), Some(functions)) {
                None => !known,
                Some((path, range)) => {
                    &&& known
                    &&& path == sources.strings[sources.files[function.file as int] as int]
                    &&& range.start.line == range.end.line
                    &&& function.line > 0 ==> range.start.line == function.line - 1
                    &&& function.line == 0 ==> range.start.line == 0
                    &&& function.column > 0 ==> range.start.character == function.column - 1
                    &&& function.column == 0 ==> range.start.character == 0
                    &&& range.end.character == function.column
                },
            }
        },
{
    lemma_function_at(functions, digest, 0);
    if is_first_function(functions, digest, i) {
        assert(functions[i].root == Some(digest));
        let found = function_at(functions, digest, 0).unwrap();
        let k = choose|k: int|
            {
                &&& 0 <= k < functions.len()
                &&& #[trigger] functions[k] == found
                &&& found.root == Some(digest)
                &&& forall|j: int| 0 <= j < k ==> (#[trigger] functions[j]).root != Some(digest)
            };
        if k < i {
            assert(functions[k].root != Some(digest));
        }
        if i < k {
            assert(functions[i].root != Some(digest));
        }
    }
}

/// A package has under a name the bytes of the first section with that name, and none where it has no
/// such section.
pub proof fn law_section_named(sections: Seq<(Seq<char>, Seq<u8>)>, id: Seq<char>, at: int)
    requires
        0 <= at,
    ensures
        match section_named(sections, id, at) {
            Some(bytes) => exists|i: int|
                {
                    &&& at <= i < sections.len()
                    &&& (#[trigger] sections[i]).0 == id
                    &&& sections[i].1 == bytes
                    &&& forall|j: int| at <= j < i ==> (#[trigger] sections[j]).0 != id
                },
            None => forall|j: int| at <= j < sections.len() ==> (#[trigger] sections[j]).0 != id,
        },
    decreases sections.len() - at,
{
    if at < sections.len() {
        if sections[at].0 == id {
            assert(sections[at].0 == id);
        } else {
            law_section_named(sections, id, at + 1);
        }
    }
}

/// Whether an item stands for what a package exports. It shows the package with its version, and the
/// attributes of a procedure. A procedure stands where it was defined, as far as that is known, and all
/// else in the file of the package. Nobody can edit or rename it, and everybody can see it.
pub open spec fn is_export(
    package: PackageModel,
    export: Export,
    artifact: Option<Place>,
    normals: Seq<(Seq<char>, Seq<char>)>,
    item: Def,
) -> bool {
    let about = "package: "@ + package.header.name + "@"@ + package.header.version;
    &&& item.context.package == package.header.name
    &&& item.context.target == "metadata"@
    &&& item.context.executable == package.header.program
    &&& item.path == export.path
    &&& item.module == export.namespace
    &&& item.name == export.name
    &&& !item.editable
    &&& !item.renamable
    &&& !item.entrypoint
    &&& item.exported
    &&& item.visible_outside_context
    &&& item.selection_range == at_start()
    &&& match export.kind {
        Exported::Procedure { signature, function, digest, attributes } => {
            &&& item.kind is Procedure
            &&& item.symbol_kind is Function
            &&& item.signature == signature
            &&& item.stack_signature == match function {
                Some(function) => function_signature(function),
                None => None,
            }
            &&& item.hover == definition_block(
                "proc"@,
                export.path,
                signature,
                Some(
                    if attributes.len() > 0 {
                        about + "\n\nattributes:\n"@ + joined_lines(attributes)
                    } else {
                        about
                    },
                ),
            )
            &&& match debug_origin(digest, package.sources, package.functions) {
                Some((path, range)) => item.location is Some && match item.location.unwrap() {
                    Place::Source { path: file, normal, selection_range } => {
                        &&& file == path
                        &&& selection_range == range
                        &&& lookup(normals, path) is Some ==> normal == lookup(
                            normals,
                            path,
                        ).unwrap()
                        &&& lookup(normals, path) is None ==> normal == path
                    },
                    Place::Artifact { .. } => false,
                },
                None => item.location == artifact,
            }
        },
        Exported::Constant => {
            &&& item.kind is Constant
            &&& item.symbol_kind is Constant
            &&& item.signature is None
            &&& item.stack_signature is None
            &&& item.hover == definition_block("const"@, export.path, None, Some(about))
            &&& item.location == artifact
        },
        Exported::Type => {
            &&& item.kind is Type
            &&& item.symbol_kind is Class
            &&& item.signature is None
            &&& item.stack_signature is None
            &&& item.hover == definition_block("type"@, export.path, None, Some(about))
            &&& item.location == artifact
        },
    }
}

/// Whether an item stands for a module of a compiled package, at a place.
pub open spec fn is_package_module(
    package: PackageModel,
    path: Seq<char>,
    place: Place,
    item: Def,
) -> bool {
    &&& item.kind is Module
    &&& item.symbol_kind is Module
    &&& item.context.package == package.header.name
    &&& item.context.target == "metadata"@
    &&& item.context.executable == package.header.program
    &&& item.path == path
    &&& item.module == path
    &&& item.name == last_segment(path)
    &&& item.hover == "```masm\nmodule "@ + path + "\n```"@
    &&& item.location == Some(place)
    &&& item.signature is None
    &&& item.stack_signature is None
    &&& !item.editable
    &&& !item.renamable
    &&& !item.entrypoint
    &&& item.exported
    &&& item.visible_outside_context
    &&& item.selection_range == at_start()
}

/// Whether an item is the first one of a list in a module that has a place.
pub open spec fn is_first_placed(items: Seq<Def>, count: int, module: Seq<char>, i: int) -> bool {
    &&& 0 <= i < count
    &&& items[i].module == module
    &&& items[i].location is Some
    &&& forall|j: int|
        0 <= j < i ==> !((#[trigger] items[j]).module == module && items[j].location is Some)
}

proof fn lemma_module_places(items: Seq<Def>, count: nat, entry: (Seq<char>, Place))
    requires
        count <= items.len(),
    ensures
        module_places(items, count).contains(entry) <==> exists|i: int|
            #[trigger] is_first_placed(items, count as int, entry.0, i) && items[i].location == Some(
                entry.1,
            ),
        has_module(module_places(items, count), entry.0) <==> exists|i: int|
            0 <= i < count && (#[trigger] items[i]).module == entry.0 && items[i].location is Some,
        forall|a: int, b: int|
            0 <= a < b < module_places(items, count).len() ==> (#[trigger] module_places(
                items,
                count,
            )[a]).0 != (#[trigger] module_places(items, count)[b]).0,
    decreases count,
{
    if count > 0 {
        let last = count - 1;
        lemma_module_places(items, last as nat, entry);
        let before = module_places(items, last as nat);
        let after = module_places(items, count);
        let item = items[last];
        assert forall|i: int| #[trigger]
            is_first_placed(items, count as int, entry.0, i) <==> is_first_placed(
                items,
                last,
                entry.0,
                i,
            ) || (i == last && item.module == entry.0 && item.location is Some && forall|j: int|
                0 <= j < last ==> !((#[trigger] items[j]).module == entry.0
                    && items[j].location is Some)) by {}
        if exists|i: int|
            #[trigger] is_first_placed(items, last, entry.0, i) && items[i].location == Some(
                entry.1,
            ) {
            let i = choose|i: int|
                #[trigger] is_first_placed(items, last, entry.0, i) && items[i].location == Some(
                    entry.1,
                );
            assert(is_first_placed(items, count as int, entry.0, i));
        }
        if let Some(place) = item.location {
            let more = (item.module, place);
            lemma_module_places(items, last as nat, more);
            lemma_push_contains(before, more, entry);
            if has_module(before, item.module) {
                assert(after == before);
                if has_module(before, entry.0) && item.module != entry.0 {
                    assert(has_module(after, entry.0));
                }
            } else {
                assert(after == before.push(more));
                assert(after[before.len() as int].0 == item.module);
                if item.module == entry.0 {
                    assert forall|j: int| 0 <= j < last implies !((
                    #[trigger] items[j]).module == entry.0 && items[j].location is Some) by {}
                    assert(is_first_placed(items, count as int, entry.0, last));
                }
                if has_module(before, entry.0) {
                    let a = choose|a: int| 0 <= a < before.len() && (#[trigger] before[a]).0
                        == entry.0;
                    assert(after[a].0 == entry.0);
                }
                if has_module(after, entry.0) {
                    let a = choose|a: int| 0 <= a < after.len() && (#[trigger] after[a]).0
                        == entry.0;
                    if a < before.len() {
                        assert(before[a].0 == entry.0);
                    }
                }
                assert forall|a: int, b: int| 0 <= a < b < after.len() implies (
                #[trigger] after[a]).0 != (#[trigger] after[b]).0 by {
                    assert(after[a] == before[a]);
                    if b < before.len() {
                        assert(after[b] == before[b]);
                    }
                }
            }
        }
    }
}

/// A compiled package adds an item for each of its exports, in their order, and behind them an item for
/// each module in which one of those has a place, at the place of the first of them. The modules stand
/// in strictly ascending order of their paths' bytes.
pub proof fn law_metadata(
    package: PackageModel,
    artifact: Option<Place>,
    normals: Seq<(Seq<char>, Seq<char>)>,
    module: Seq<char>,
    place: Place,
)
    ensures
        ({
            let all = metadata_defs(package, artifact, normals);
            let count = package.exports.len() as int;
            &&& all.len() >= count
            &&& forall|i: int|
                0 <= i < count ==> is_export(
                    package,
                    package.exports[i],
                    artifact,
                    normals,
                    #[trigger] all[i],
                )
            &&& (exists|i: int| #[trigger] is_first_placed(all, count, module, i) && all[i].location
                == Some(place)) <==> exists|k: int|
                count <= k < all.len() && is_package_module(
                    package,
                    module,
                    place,
                    #[trigger] all[k],
                )
            &&& forall|k: int|
                count <= k < all.len() ==> (#[trigger] all[k]).location is Some && is_package_module(
                    package,
                    all[k].path,
                    all[k].location.unwrap(),
                    all[k],
                )
            &&& forall|k: int, l: int|
                count <= k < l < all.len() ==> comes_before(
                    encode_utf8((#[trigger] all[k]).path),
                    encode_utf8((#[trigger] all[l]).path),
                )
        }),
{
    let all = metadata_defs(package, artifact, normals);
    let items = export_defs(package, artifact, normals, package.exports.len());
    let count = items.len() as int;
    let places = module_places(items, items.len());
    let keys = module_keys(places);
    let order = stable_order(keys);
    law_stable_order(keys);
    let sorted = arrange(places, order);
    let entry = (module, place);
    lemma_module_places(items, items.len(), entry);
    assert forall|i: int| 0 <= i < count implies all[i] == items[i] by {}
    assert forall|k: int| count <= k < all.len() implies is_package_module(
        package,
        sorted[k - count].0,
        sorted[k - count].1,
        #[trigger] all[k],
    ) by {}
    assert forall|i: int| #[trigger] is_first_placed(items, count, module, i) <==> is_first_placed(
        all,
        count,
        module,
        i,
    ) by {
        if is_first_placed(items, count, module, i) {
            assert(all[i] == items[i]);
            assert forall|j: int| 0 <= j < i implies !((#[trigger] all[j]).module == module
                && all[j].location is Some) by {
                assert(all[j] == items[j]);
            }
        }
        if is_first_placed(all, count, module, i) {
            assert(all[i] == items[i]);
            assert forall|j: int| 0 <= j < i implies !((#[trigger] items[j]).module == module
                && items[j].location is Some) by {
                assert(all[j] == items[j]);
            }
        }
    }
    if exists|i: int| #[trigger] is_first_placed(all, count, module, i) && all[i].location == Some(
        place,
    ) {
        let i = choose|i: int|
            #[trigger] is_first_placed(all, count, module, i) && all[i].location == Some(place);
        assert(is_first_placed(items, count, module, i) && items[i].location == Some(place));
        assert(places.contains(entry));
        let p = choose|p: int| 0 <= p < places.len() && places[p] == entry;
        assert(order.contains(p));
        let s = choose|s: int| 0 <= s < order.len() && order[s] == p;
        assert(sorted[s] == entry);
        assert(is_package_module(package, module, place, all[count + s]));
    }
    if exists|k: int|
        count <= k < all.len() && is_package_module(package, module, place, #[trigger] all[k]) {
        let k = choose|k: int|
            count <= k < all.len() && is_package_module(package, module, place, #[trigger] all[k]);
        let s = k - count;
        assert(sorted[s] == entry);
        assert(places[order[s]] == entry);
        let i = choose|i: int|
            #[trigger] is_first_placed(items, count, module, i) && items[i].location == Some(place);
        assert(is_first_placed(all, count, module, i) && all[i].location == Some(place));
    }
    assert forall|k: int, l: int| count <= k < l < all.len() implies comes_before(
        encode_utf8((#[trigger] all[k]).path),
        encode_utf8((#[trigger] all[l]).path),
    ) by {
        let i = k - count;
        let j = l - count;
        assert(in_order(keys, order[i], order[j]));
        let left = places[order[i]].0;
        let right = places[order[j]].0;
        assert(all[k].path == left && all[l].path == right);
        let a = encode_utf8(left);
        let b = encode_utf8(right);
        assert(key_le(byte_key(a), byte_key(b)));
        law_byte_keys(a, b);
        if a == b {
            vstd::utf8::encode_utf8_decode_utf8(left);
            vstd::utf8::encode_utf8_decode_utf8(right);
            law_byte_keys(a, a);
            assert(order[i] != order[j]);
            if order[i] < order[j] {
                assert(places[order[i]].0 != places[order[j]].0);
            } else {
                assert(places[order[j]].0 != places[order[i]].0);
            }
        }
    }
}

/// What a registry records under a name and a version is the hash of the last package with them that
/// was published, and nothing where none was.
pub proof fn law_recorded(artifacts: Seq<Artifact>, key: (Seq<char>, Seq<char>), i: int)
    ensures
        recorded(artifacts).dom().contains(key) <==> exists|j: int|
            0 <= j < artifacts.len() && (#[trigger] artifacts[j]).key() == key,
        0 <= i < artifacts.len() && artifacts[i].key() == key && (forall|j: int|
            i < j < artifacts.len() ==> (#[trigger] artifacts[j]).key() != key) ==> recorded(
            artifacts,
        )[key] == artifacts[i].header().digest,
    decreases artifacts.len(),
{
    if artifacts.len() > 0 {
        let less = artifacts.drop_last();
        let last = artifacts.last();
        law_recorded(less, key, i);
        assert(artifacts[artifacts.len() - 1] == last);
        if exists|j: int| 0 <= j < less.len() && (#[trigger] less[j]).key() == key {
            let j = choose|j: int| 0 <= j < less.len() && (#[trigger] less[j]).key() == key;
            assert(artifacts[j].key() == key);
        }
        if exists|j: int| 0 <= j < artifacts.len() && (#[trigger] artifacts[j]).key() == key {
            let j = choose|j: int|
                0 <= j < artifacts.len() && (#[trigger] artifacts[j]).key() == key;
            if j < less.len() {
                assert(less[j].key() == key);
            }
        }
        if 0 <= i < artifacts.len() && artifacts[i].key() == key && (forall|j: int|
            i < j < artifacts.len() ==> (#[trigger] artifacts[j]).key() != key) {
            if i < less.len() {
                assert(artifacts[artifacts.len() - 1].key() != key);
                assert forall|j: int| i < j < less.len() implies (#[trigger] less[j]).key()
                    != key by {
                    assert(artifacts[j].key() != key);
                }
                assert(less[i] == artifacts[i]);
            }
        }
    }
}

/// Whether a package is one that a name and a version mean.
pub open spec fn is_meant(artifact: Artifact, name: Seq<char>, version: Seq<char>) -> bool {
    artifact.name == name && without_build(artifact.version) == without_build(version)
}

/// A package is looked up by its name and version: the last one that was published with these is found,
/// and none where none was.
pub proof fn law_published(artifacts: Seq<Artifact>, name: Seq<char>, version: Seq<char>, count: nat)
    requires
        count <= artifacts.len(),
    ensures
        match published_artifact(artifacts, name, version, count) {
            Some(found) => exists|i: int|
                {
                    &&& 0 <= i < count
                    &&& #[trigger] artifacts[i] == found
                    &&& is_meant(found, name, version)
                    &&& forall|j: int|
                        i < j < count ==> !is_meant(#[trigger] artifacts[j], name, version)
                },
            None => forall|j: int|
                0 <= j < count ==> !is_meant(#[trigger] artifacts[j], name, version),
        },
    decreases count,
{
    if count > 0 {
        if is_meant(artifacts[count - 1], name, version) {
            assert(artifacts[count - 1] == published_artifact(
                artifacts,
                name,
                version,
                count,
            ).unwrap());
        } else {
            law_published(artifacts, name, version, (count - 1) as nat);
        }
    }
}

proof fn lemma_first_of(text: Seq<char>, wanted: char, at: int)
    requires
        0 <= at <= text.len(),
    ensures
        at <= first_of(text, wanted, at) <= text.len(),
        forall|i: int| at <= i < first_of(text, wanted, at) ==> #[trigger] text[i] != wanted,
        first_of(text, wanted, at) < text.len() ==> text[first_of(text, wanted, at)] == wanted,
    decreases text.len() - at,
{
    if at < text.len() && text[at] != wanted {
        lemma_first_of(text, wanted, at + 1);
    }
}

/// Whether a text lacks a character.
pub open spec fn has_none_of(text: Seq<char>, unwanted: char) -> bool {
    forall|i: int| 0 <= i < text.len() ==> #[trigger] text[i] != unwanted
}

/// What stands between a plus sign and the hash of the code does not matter in a version.
pub proof fn law_without_build(version: Seq<char>, build: Seq<char>, hash: Seq<char>)
    requires
        has_none_of(version, '+'),
        has_none_of(version, '#'),
        has_none_of(build, '#'),
        has_none_of(hash, '+'),
    ensures
        without_build(version + (seq!['+'] + build) + (seq!['#'] + hash)) == version + (seq!['#']
            + hash),
        without_build(version + (seq!['#'] + hash)) == version + (seq!['#'] + hash),
{
    let front = version.len() as int;
    let long = version + (seq!['+'] + build) + (seq!['#'] + hash);
    lemma_first_of(long, '+', 0);
    let plus = first_of(long, '+', 0);
    assert(long[front] == '+');
    if plus < front {
        assert(long[plus] == version[plus]);
    }
    if plus > front {
        assert(long[front] != '+');
    }
    assert(plus == front);
    lemma_first_of(long, '#', plus);
    let mark = first_of(long, '#', plus);
    let middle = front + 1 + build.len();
    assert(long[middle] == '#');
    if mark < middle {
        if mark > front {
            assert(long[mark] == build[mark - front - 1]);
        }
    }
    if mark > middle {
        assert(long[middle] != '#');
    }
    assert(mark == middle);
    assert(long.take(plus) =~= version);
    assert(long.skip(mark) =~= seq!['#'] + hash);
    let short = version + (seq!['#'] + hash);
    lemma_first_of(short, '+', 0);
    let none = first_of(short, '+', 0);
    if none < short.len() {
        assert(short[none] == '+');
        if none < front {
            assert(short[none] == version[none]);
        } else if none > front {
            assert(short[none] == hash[none - front - 1]);
        }
    }
    assert(none == short.len());
    lemma_first_of(short, '#', none);
    assert(short.take(none) =~= short);
    assert(short.skip(none) =~= Seq::<char>::empty());
    assert(short + Seq::<char>::empty() =~= short);
}

/// Nothing is reported of the files of packages exactly where all could be read and hold packages; else
/// the first one that does not is reported.
pub proof fn law_artifact_failure(
    paths: Seq<Seq<char>>,
    contents: Seq<Result<Vec<u8>, String>>,
    at: int,
)
    requires
        0 <= at,
    ensures
        match artifact_failure(paths, contents, at) {
            None => forall|i: int|
                at <= i < contents.len() ==> (#[trigger] contents[i]) is Ok
                    && crate::metadata::package_header(contents[i]->Ok_0@) is Ok,
            Some(message) => exists|i: int|
                {
                    &&& at <= i < contents.len()
                    &&& forall|j: int|
                        at <= j < i ==> (#[trigger] contents[j]) is Ok
                            && crate::metadata::package_header(contents[j]->Ok_0@) is Ok
                    &&& match #[trigger] contents[i] {
                        Err(error) => message == "failed to read '"@ + paths[i] + "': "@ + error@,
                        Ok(bytes) => crate::metadata::package_header(bytes@) is Err && message
                            == "failed to decode '"@ + paths[i] + "': "@
                            + crate::metadata::package_header(bytes@)->Err_0,
                    }
                },
        },
    decreases contents.len() - at,
{
    if at < contents.len() {
        law_artifact_failure(paths, contents, at + 1);
        let own = match contents[at] {
            Err(_) => false,
            Ok(bytes) => crate::metadata::package_header(bytes@) is Ok,
        };
        if own {
            if let Some(message) = artifact_failure(paths, contents, at + 1) {
                let i = choose|i: int|
                    {
                        &&& at + 1 <= i < contents.len()
                        &&& forall|j: int|
                            at + 1 <= j < i ==> (#[trigger] contents[j]) is Ok
                                && crate::metadata::package_header(contents[j]->Ok_0@) is Ok
                        &&& match #[trigger] contents[i] {
                            Err(error) => message == "failed to read '"@ + paths[i] + "': "@
                                + error@,
                            Ok(bytes) => crate::metadata::package_header(bytes@) is Err && message
                                == "failed to decode '"@ + paths[i] + "': "@
                                + crate::metadata::package_header(bytes@)->Err_0,
                        }
                    };
                assert(at <= i < contents.len());
            }
        } else {
            assert(match contents[at] {
                Err(error) => true,
                Ok(bytes) => true,
            });
        }
    }
}

proof fn lemma_document_at(documents: Seq<DocumentState>, uri: Seq<char>, at: int)
    requires
        0 <= at,
    ensures
        match document_at(documents, uri, at) {
            Some(found) => at <= found < documents.len() && documents[found].uri == uri,
            None => forall|i: int| at <= i < documents.len() ==> (#[trigger] documents[i]).uri
                != uri,
        },
    decreases documents.len() - at,
{
    if at < documents.len() && documents[at].uri != uri {
        lemma_document_at(documents, uri, at + 1);
    }
}

proof fn lemma_place_for(documents: Seq<DocumentState>, uri: Seq<char>, at: int)
    requires
        0 <= at <= documents.len(),
    ensures
        at <= place_for(documents, uri, at) <= documents.len(),
    decreases documents.len() - at,
{
    if at < documents.len() && key_le(
        byte_key(encode_utf8(documents[at].uri)),
        byte_key(encode_utf8(uri)),
    ) {
        lemma_place_for(documents, uri, at + 1);
    }
}

/// Opening a document puts it among the open ones in place of the one with its address, and leaves all
/// others open as they are; closing an address takes the document with it away, and no other.
pub proof fn law_open_documents(
    documents: Seq<DocumentState>,
    document: DocumentState,
    other: DocumentState,
)
    requires
        addresses_differ(documents),
    ensures
        with_document(documents, document).contains(other) <==> other == document || (
        documents.contains(other) && other.uri != document.uri),
        without_document(documents, document.uri).contains(other) <==> documents.contains(other)
            && other.uri != document.uri,
{
    lemma_document_at(documents, document.uri, 0);
    lemma_place_for(documents, document.uri, 0);
    let more = with_document(documents, document);
    let fewer = without_document(documents, document.uri);
    match document_at(documents, document.uri, 0) {
        Some(at) => {
            assert(more[at] == document);
            if documents.contains(other) && other.uri != document.uri {
                let i = choose|i: int| 0 <= i < documents.len() && documents[i] == other;
                assert(more[i] == other);
                if i < at {
                    assert(fewer[i] == other);
                } else {
                    assert(fewer[i - 1] == other);
                }
            }
            if more.contains(other) && other != document {
                let i = choose|i: int| 0 <= i < more.len() && more[i] == other;
                assert(documents[i] == other);
                if i < at {
                    assert(documents[i].uri != documents[at].uri);
                } else {
                    assert(documents[at].uri != documents[i].uri);
                }
            }
            if fewer.contains(other) {
                let i = choose|i: int| 0 <= i < fewer.len() && fewer[i] == other;
                if i < at {
                    assert(documents[i] == other);
                    assert(documents[i].uri != documents[at].uri);
                } else {
                    assert(documents[i + 1] == other);
                    assert(documents[at].uri != documents[i + 1].uri);
                }
            }
        },
        None => {
            let place = place_for(documents, document.uri, 0);
            assert(more[place] == document);
            if documents.contains(other) {
                let i = choose|i: int| 0 <= i < documents.len() && documents[i] == other;
                assert(documents[i].uri != document.uri);
                if i < place {
                    assert(more[i] == other);
                } else {
                    assert(more[i + 1] == other);
                }
            }
            if more.contains(other) && other != document {
                let i = choose|i: int| 0 <= i < more.len() && more[i] == other;
                if i < place {
                    assert(documents[i] == other);
                } else {
                    assert(documents[i - 1] == other);
                }
            }
        },
    }
}

/// Whether documents stand in strictly ascending order of the bytes of their addresses.
pub open spec fn are_sorted(documents: Seq<DocumentState>) -> bool {
    forall|i: int, j: int|
        0 <= i < j < documents.len() ==> comes_before(
            encode_utf8((#[trigger] documents[i]).uri),
            encode_utf8((#[trigger] documents[j]).uri),
        )
}

proof fn lemma_place_is_between(documents: Seq<DocumentState>, uri: Seq<char>, at: int)
    requires
        0 <= at <= documents.len(),
    ensures
        ({
            let place = place_for(documents, uri, at);
            &&& at <= place <= documents.len()
            &&& forall|i: int|
                at <= i < place ==> key_le(
                    byte_key(encode_utf8((#[trigger] documents[i]).uri)),
                    byte_key(encode_utf8(uri)),
                )
            &&& place < documents.len() ==> !key_le(
                byte_key(encode_utf8(documents[place].uri)),
                byte_key(encode_utf8(uri)),
            )
        }),
    decreases documents.len() - at,
{
    if at < documents.len() && key_le(
        byte_key(encode_utf8(documents[at].uri)),
        byte_key(encode_utf8(uri)),
    ) {
        lemma_place_is_between(documents, uri, at + 1);
    }
}

proof fn lemma_before_is_total(left: Seq<u8>, right: Seq<u8>)
    ensures
        left == right || comes_before(left, right) || comes_before(right, left),
    decreases left.len(),
{
    if left.len() == 0 {
        if right.len() == 0 {
            assert(left =~= right);
        } else {
            assert(crate::meaning::differs_at(left, right, 0));
        }
    } else if right.len() == 0 {
        assert(crate::meaning::differs_at(right, left, 0));
    } else if left[0] < right[0] {
        assert(crate::meaning::differs_at(left, right, 0));
    } else if right[0] < left[0] {
        assert(crate::meaning::differs_at(right, left, 0));
    } else {
        let rest = left.drop_first();
        let other = right.drop_first();
        lemma_before_is_total(rest, other);
        if rest == other {
            assert(rest.len() == left.len() - 1 && other.len() == right.len() - 1);
            assert(left =~= right) by {
                assert forall|i: int| 0 <= i < left.len() implies left[i] == right[i] by {
                    if i > 0 {
                        assert(rest[i - 1] == other[i - 1]);
                    }
                }
            }
        }
        if comes_before(rest, other) {
            lemma_before_behind_same(left, right);
        }
        if comes_before(other, rest) {
            lemma_before_behind_same(right, left);
        }
    }
}

proof fn lemma_before_behind_same(left: Seq<u8>, right: Seq<u8>)
    requires
        left.len() > 0,
        right.len() > 0,
        left[0] == right[0],
        comes_before(left.drop_first(), right.drop_first()),
    ensures
        comes_before(left, right),
{
    let rest = left.drop_first();
    let other = right.drop_first();
    let k = choose|k: int| #[trigger] crate::meaning::differs_at(rest, other, k);
    assert forall|i: int| 0 <= i < k + 1 implies #[trigger] left[i] == right[i] by {
        if i > 0 {
            assert(rest[i - 1] == other[i - 1]);
        }
    }
    assert(crate::meaning::differs_at(left, right, k + 1));
}

proof fn lemma_before_is_transitive(a: Seq<u8>, b: Seq<u8>, c: Seq<u8>)
    requires
        comes_before(a, b),
        comes_before(b, c),
    ensures
        comes_before(a, c),
{
    let k = choose|k: int| #[trigger] crate::meaning::differs_at(a, b, k);
    let l = choose|l: int| #[trigger] crate::meaning::differs_at(b, c, l);
    let m = if k < l {
        k
    } else {
        l
    };
    assert forall|i: int| 0 <= i < m implies #[trigger] a[i] == c[i] by {
        assert(a[i] == b[i]);
        assert(b[i] == c[i]);
    }
    if k < l {
        assert(b[k] == c[k]);
    } else if l < k {
        assert(a[l] == b[l]);
    }
    assert(crate::meaning::differs_at(a, c, m));
}

/// Open documents stay in the order of their addresses when one is opened.
pub proof fn law_documents_stay_sorted(documents: Seq<DocumentState>, document: DocumentState)
    requires
        are_sorted(documents),
    ensures
        are_sorted(with_document(documents, document)),
{
    lemma_document_at(documents, document.uri, 0);
    let more = with_document(documents, document);
    let own = encode_utf8(document.uri);
    match document_at(documents, document.uri, 0) {
        Some(at) => {
            assert forall|i: int, j: int| 0 <= i < j < more.len() implies comes_before(
                encode_utf8((#[trigger] more[i]).uri),
                encode_utf8((#[trigger] more[j]).uri),
            ) by {
                assert(more[i].uri == documents[i].uri && more[j].uri == documents[j].uri);
            }
        },
        None => {
            lemma_place_is_between(documents, document.uri, 0);
            let place = place_for(documents, document.uri, 0);
            assert forall|i: int| 0 <= i < place implies comes_before(
                encode_utf8((#[trigger] documents[i]).uri),
                own,
            ) by {
                let other = encode_utf8(documents[i].uri);
                law_byte_keys(other, own);
                if other == own {
                    vstd::utf8::encode_utf8_decode_utf8(documents[i].uri);
                    vstd::utf8::encode_utf8_decode_utf8(document.uri);
                }
            }
            assert forall|i: int| place <= i < documents.len() implies comes_before(
                own,
                encode_utf8((#[trigger] documents[i]).uri),
            ) by {
                let first = encode_utf8(documents[place].uri);
                law_byte_keys(first, own);
                lemma_before_is_total(first, own);
                if i > place {
                    lemma_before_is_transitive(own, first, encode_utf8(documents[i].uri));
                }
            }
            assert forall|i: int, j: int| 0 <= i < j < more.len() implies comes_before(
                encode_utf8((#[trigger] more[i]).uri),
                encode_utf8((#[trigger] more[j]).uri),
            ) by {
                if i < place {
                    assert(more[i] == documents[i]);
                }
                if i > place {
                    assert(more[i] == documents[i - 1]);
                }
                if j < place {
                    assert(more[j] == documents[j]);
                }
                if j > place {
                    assert(more[j] == documents[j - 1]);
                }
            }
        },
    }
}

/// A document that is changed has the text that the changes make. Where all could be made and the text
/// has a tree, it has the new version, that tree, and the messages about it; otherwise it keeps its
/// version, its tree and its messages, and a failure is reported.
pub proof fn law_changed(document: DocumentState, version: i32, changes: Seq<TextChange>)
    requires
        !(edited(document.text, changes) is Reversed),
    ensures
        ({
            let (after, failure) = changed(document, version, changes);
            &&& after.uri == document.uri
            &&& match edited(document.text, changes) {
                Edit::Applied { text } => after.text == text && match tree_rows(text) {
                    Some(rows) => {
                        &&& failure is None
                        &&& after.version == version
                        &&& after.rows == rows
                        &&& after.findings == syntax_findings(encode_utf8(text), rows)
                    },
                    None => {
                        &&& failure is Some
                        &&& after.version == document.version
                        &&& after.rows == document.rows
                        &&& after.findings == document.findings
                    },
                },
                Edit::Refused { text, message } => {
                    &&& failure == Some(message)
                    &&& after.text == text
                    &&& after.version == document.version
                    &&& after.rows == document.rows
                    &&& after.findings == document.findings
                },
                Edit::Reversed => true,
            }
        }),
{
}

/// A document can be opened exactly where its text has a tree; it then has that tree, the messages about
/// it, and what it was opened with.
pub proof fn law_opened(uri: Seq<char>, version: i32, text: Seq<char>)
    ensures
        match opened(uri, version, text) {
            Some(document) => {
                &&& document.uri == uri
                &&& document.version == version
                &&& document.text == text
                &&& tree_rows(text) == Some(document.rows)
                &&& document.findings == syntax_findings(encode_utf8(text), document.rows)
            },
            None => tree_rows(text) is None,
        },
{
}

/// A document that is opened and changed as a whole is the document that is opened with the new text.
pub proof fn law_full_change_reopens(document: DocumentState, version: i32, change: TextChange)
    requires
        change.range is None,
        opened(document.uri, version, change.text@) is Some,
    ensures
        changed(document, version, seq![change]) == (
            opened(document.uri, version, change.text@).unwrap(),
            None::<Seq<char>>,
        ),
{
    let one = seq![change];
    assert(one.drop_first() =~= Seq::<TextChange>::empty());
    reveal_with_fuel(edited, 2);
    assert(edited(document.text, one) == (Edit::Applied { text: change.text@ }));
}

/// A package is read where its file holds one: what it says of itself, what it exports, and the tables
/// in its two sections with the origins of its procedures, as far as these can be read.
pub proof fn law_package_model(path: Seq<char>, bytes: Seq<u8>)
    ensures
        ({
            let sections = crate::metadata::package_sections(bytes);
            match crate::metadata::package_model(path, bytes) {
                Ok(package) => {
                    &&& crate::metadata::package_header(bytes) == Ok::<
                        crate::metadata::Header,
                        Seq<char>,
                    >(package.header)
                    &&& package.exports == crate::metadata::package_exports(bytes)
                    &&& match section_named(sections, "debug_sources"@, 0) {
                        Some(data) => package.sources == if crate::package_bytes::texts_fit(data) {
                            crate::metadata::decoded_sources(data)
                        } else {
                            None
                        },
                        None => package.sources is None,
                    }
                    &&& match section_named(sections, "debug_functions"@, 0) {
                        Some(data) => package.functions == if crate::package_bytes::texts_fit(data) {
                            crate::metadata::decoded_functions(data)
                        } else {
                            None
                        },
                        None => package.functions is None,
                    }
                },
                Err(message) => crate::metadata::package_header(bytes) is Err && message
                    == "failed to decode '"@ + path + "': "@ + crate::metadata::package_header(
                    bytes,
                )->Err_0,
            }
        }),
{
}

/// What is kept of a package is its name, its version with the hash of its code behind it, its file and
/// its bytes.
pub proof fn law_artifact(path: Seq<char>, bytes: Seq<u8>)
    requires
        crate::metadata::package_header(bytes) is Ok,
    ensures
        ({
            let artifact = crate::registry::artifact_in(path, bytes);
            let header = crate::metadata::package_header(bytes)->Ok_0;
            &&& artifact.name == header.name
            &&& artifact.version == header.version + "#"@ + header.digest
            &&& artifact.path == path
            &&& artifact.bytes == bytes
        }),
{
}

/// Packages that cannot be published are all reported, by their files and names, one after another.
pub proof fn law_stuck_list(first: Seq<Artifact>, second: Seq<Artifact>)
    requires
        first.len() > 0,
        second.len() > 0,
    ensures
        crate::registry::stuck_list(first + second, (first + second).len())
            == crate::registry::stuck_list(first, first.len()) + ", "@ + crate::registry::stuck_list(
            second,
            second.len(),
        ),
        first.len() == 1 ==> crate::registry::stuck_list(first, 1) == first[0].path + " ("@
            + first[0].name + ")"@,
        crate::registry::stuck_message(first)
            == "failed to publish registry artifacts due to unresolved dependencies: "@
            + crate::registry::stuck_list(first, first.len()),
    decreases second.len(),
{
    let all = first + second;
    lemma_stuck_prefix(first, second, first.len());
    let count = second.len();
    let entry = second.last().path + " ("@ + second.last().name + ")"@;
    assert(all[all.len() - 1] == second[count - 1]);
    if count == 1 {
        assert(crate::registry::stuck_list(second, 1) == entry);
        assert(crate::registry::stuck_list(all, all.len()) == crate::registry::stuck_list(
            all,
            first.len(),
        ) + ", "@ + entry);
    } else {
        let less = second.drop_last();
        law_stuck_list(first, less);
        let some = first + less;
        assert(all =~= some + seq![second.last()]);
        lemma_stuck_prefix(some, seq![second.last()], some.len());
        lemma_stuck_prefix(less, seq![second.last()], less.len());
        assert(less + seq![second.last()] =~= second);
        let a = crate::registry::stuck_list(first, first.len());
        let b = crate::registry::stuck_list(less, less.len());
        assert(crate::registry::stuck_list(all, all.len()) == crate::registry::stuck_list(
            all,
            some.len(),
        ) + ", "@ + entry);
        assert(crate::registry::stuck_list(second, count) == b + ", "@ + entry);
        assert(a + ", "@ + b + ", "@ + entry =~= a + ", "@ + (b + ", "@ + entry));
    }
}

proof fn lemma_stuck_prefix(first: Seq<Artifact>, second: Seq<Artifact>, count: nat)
    requires
        count <= first.len(),
    ensures
        crate::registry::stuck_list(first + second, count) == crate::registry::stuck_list(
            first,
            count,
        ),
    decreases count,
{
    if count > 0 {
        lemma_stuck_prefix(first, second, (count - 1) as nat);
        assert((first + second)[count - 1] == first[count - 1]);
    }
}

/// A registry takes a package exactly where it has no record under its name and version, and a record
/// of each package that it depends on, with the same hash.
pub proof fn law_takes(
    contents: Map<(Seq<char>, Seq<char>), Seq<char>>,
    package: crate::metadata::Header,
)
    ensures
        crate::registry::takes(contents, package) <==> {
            &&& !contents.dom().contains((package.name, package.version))
            &&& forall|i: int|
                0 <= i < package.dependencies.len() ==> {
                    let needed = #[trigger] package.dependencies[i];
                    &&& contents.dom().contains((needed.name, needed.version))
                    &&& contents[(needed.name, needed.version)] == needed.digest
                }
        },
{
    if crate::registry::takes(contents, package) {
        assert forall|i: int| 0 <= i < package.dependencies.len() implies {
            let needed = #[trigger] package.dependencies[i];
            &&& contents.dom().contains((needed.name, needed.version))
            &&& contents[(needed.name, needed.version)] == needed.digest
        } by {
            assert(has_package(contents, package.dependencies[i]));
        }
    }
}

} // verus!
