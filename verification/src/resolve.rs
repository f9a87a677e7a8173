//! Name resolution: from the paths that are written to the paths of items.
use vstd::prelude::*;
use crate::masm_path::{as_ident, attach_path, attached, canonicalize_path_text, head_and_rest,
    is_absolute, is_readable, main_procedure_name, path_is_absolute, path_of_text, root_path, rooted,
    single_component, split_first};
use crate::model::{defs, find_import, find_name, import_entries, lookup, name_entries, resolutions,
    Alias, AliasTarget, Context, ContextKey, Def, Definition, ModuleAnalysis, ModuleModel,
    Occurrence, RawOccurrence, Resolution, ResolvedOccurrence};
use crate::stack_effect::ReferenceKind;
use crate::text::{join3, same_text};
use crate::words::texts;

verus! {

/// How many of the first `count` imports have a name that `visited` does not list.
pub open spec fn unvisited(
    imports: Seq<(Seq<char>, Alias)>,
    visited: Seq<Seq<char>>,
    count: nat,
) -> nat
    decreases count,
{
    if count == 0 {
        0
    } else {
        unvisited(imports, visited, (count - 1) as nat) + if visited.contains(
            imports[count - 1].0,
        ) {
            0nat
        } else {
            1nat
        }
    }
}

/// Visiting a new name that is imported leaves fewer to visit; visiting any leaves no more.
proof fn lemma_unvisited(
    imports: Seq<(Seq<char>, Alias)>,
    visited: Seq<Seq<char>>,
    name: Seq<char>,
    count: nat,
)
    requires
        count <= imports.len(),
    ensures
        unvisited(imports, visited.push(name), count) <= unvisited(imports, visited, count),
        !visited.contains(name) && (exists|i: int|
            0 <= i < count && (#[trigger] imports[i]).0 == name) ==> unvisited(
            imports,
            visited.push(name),
            count,
        ) < unvisited(imports, visited, count),
    decreases count,
{
    if count > 0 {
        let key = imports[count - 1].0;
        lemma_unvisited(imports, visited, name, (count - 1) as nat);
        let longer = visited.push(name);
        if visited.contains(key) {
            let k = visited.index_of(key);
            assert(longer[k] == key);
        }
        if longer.contains(key) && !visited.contains(key) {
            let k = longer.index_of(key);
            assert(k == visited.len());
        }
        if key == name {
            assert(longer[visited.len() as int] == key);
        }
    }
}

/// A name that is found among imports is the name of one of them.
proof fn lemma_found(imports: Seq<(Seq<char>, Alias)>, name: Seq<char>, count: nat)
    requires
        count <= imports.len(),
        crate::model::entry(imports, name, count) is Some,
    ensures
        exists|i: int| 0 <= i < count && (#[trigger] imports[i]).0 == name,
    decreases count,
{
    if imports[count - 1].0 != name {
        lemma_found(imports, name, (count - 1) as nat);
        let i = choose|i: int| 0 <= i < count - 1 && (#[trigger] imports[i]).0 == name;
        assert(imports[i].0 == name);
    } else {
        assert(imports[count - 1].0 == name);
    }
}

/// The path that an import stands for: an import may name another one, alone or as the first
/// component of a path. `visited` lists the imports that were followed; one that is met again is
/// not followed again, and its path is taken as it stands. A bare hash stands for no path.
pub open spec fn alias_path(
    target: Alias,
    imports: Seq<(Seq<char>, Alias)>,
    visited: Seq<Seq<char>>,
) -> Option<Seq<char>>
    decreases unvisited(imports, visited, imports.len()), 1int,
    via alias_path_terminates
{
    match target {
        Alias::MastRoot => None,
        Alias::Path(text) => match path_of_text(text) {
            Err(_) => None,
            Ok(path) => if is_absolute(path) {
                Some(path)
            } else if let Some(ident) = single_component(path) {
                match followed(ident, imports, visited) {
                    Some(expanded) => Some(expanded),
                    None => rooted(path),
                }
            } else if let Some((head, rest)) = head_and_rest(path) {
                match followed(head, imports, visited) {
                    Some(expanded) => attached(expanded, rest),
                    None => rooted(path),
                }
            } else {
                None
            },
        },
    }
}

/// The path that the import `name` stands for, when it has not been followed before.
pub open spec fn followed(
    name: Seq<char>,
    imports: Seq<(Seq<char>, Alias)>,
    visited: Seq<Seq<char>>,
) -> Option<Seq<char>>
    decreases unvisited(imports, visited, imports.len()), 0int,
    via followed_terminates
{
    if visited.contains(name) {
        None
    } else {
        match lookup(imports, name) {
            Some(next) => alias_path(next, imports, visited.push(name)),
            None => None,
        }
    }
}

#[via_fn]
proof fn alias_path_terminates(
    target: Alias,
    imports: Seq<(Seq<char>, Alias)>,
    visited: Seq<Seq<char>>,
) {
}

#[via_fn]
proof fn followed_terminates(
    name: Seq<char>,
    imports: Seq<(Seq<char>, Alias)>,
    visited: Seq<Seq<char>>,
) {
    if !visited.contains(name) && lookup(imports, name) is Some {
        lemma_found(imports, name, imports.len());
        lemma_unvisited(imports, visited, name, imports.len());
    }
}

/// Whether `name` is listed.
fn is_listed(names: &Vec<String>, name: &str) -> (listed: bool)
    ensures
        listed == texts(names@).contains(name@),
{
    let ghost all = texts(names@);
    let mut i: usize = 0;
    while i < names.len()
        invariant
            i <= names.len(),
            all == texts(names@),
            forall|k: int| 0 <= k < i ==> all[k] != name@,
        decreases names.len() - i,
    {
        assert(all[i as int] == names@[i as int]@);
        if same_text(&names[i], name) {
            assert(all.contains(name@));
            return true;
        }
        i = i + 1;
    }
    assert(!all.contains(name@)) by {
        if all.contains(name@) {
            let k = choose|k: int| 0 <= k < all.len() && all[k] == name@;
            assert(all[k] != name@);
        }
    }
    false
}

/// The path that an import stands for, when the imports in `visited` have been followed already.
fn alias_target_to_path_inner(
    target: &AliasTarget,
    imports: &Vec<(String, AliasTarget)>,
    visited: &mut Vec<String>,
) -> (path: Option<String>)
    ensures
        match path {
            Some(path) => alias_path(target@, import_entries(imports@), texts(old(visited)@))
                == Some(path@),
            None => alias_path(target@, import_entries(imports@), texts(old(visited)@)) is None,
        },
    decreases
            unvisited(import_entries(imports@), texts(old(visited)@), import_entries(imports@).len()),
            1int,
{
    let text = match target {
        AliasTarget::MastRoot => return None,
        AliasTarget::Path(text) => text,
    };
    let path = match canonicalize_path_text(text) {
        Ok(path) => path,
        Err(_) => return None,
    };
    if path_is_absolute(&path) {
        return Some(path);
    }
    if let Some(ident) = as_ident(&path) {
        return match follow(&ident, imports, visited) {
            Some(expanded) => Some(expanded),
            None => root_path(&path),
        };
    }
    match split_first(&path) {
        Some((head, rest)) => {
            match follow(&head, imports, visited) {
                Some(expanded) => attach_path(&expanded, &rest),
                None => root_path(&path),
            }
        },
        None => None,
    }
}

/// The path that the import `name` stands for, when it has not been followed before.
fn follow(name: &str, imports: &Vec<(String, AliasTarget)>, visited: &mut Vec<String>) -> (path: Option<
    String,
>)
    ensures
        match path {
            Some(path) => followed(name@, import_entries(imports@), texts(old(visited)@)) == Some(
                path@,
            ),
            None => followed(name@, import_entries(imports@), texts(old(visited)@)) is None,
        },
    decreases
            unvisited(import_entries(imports@), texts(old(visited)@), import_entries(imports@).len()),
            0int,
{
    let ghost entries = import_entries(imports@);
    let ghost before = texts(visited@);
    if is_listed(visited, name) {
        return None;
    }
    match find_import(imports, name) {
        Some(next) => {
            visited.push(name.to_owned());
            proof {
                assert(texts(visited@) =~= before.push(name@));
                lemma_found(entries, name@, entries.len());
                lemma_unvisited(entries, before, name@, entries.len());
            }
            alias_target_to_path_inner(next, imports, visited)
        },
        None => None,
    }
}

/// The path that an import stands for.
pub open spec fn import_path(target: Alias, imports: Seq<(Seq<char>, Alias)>) -> Option<Seq<char>> {
    alias_path(target, imports, Seq::empty())
}

/// The path that an import stands for.
pub fn alias_target_to_path(target: &AliasTarget, imports: &Vec<(String, AliasTarget)>) -> (path: Option<
    String,
>)
    ensures
        match path {
            Some(path) => import_path(target@, import_entries(imports@)) == Some(path@),
            None => import_path(target@, import_entries(imports@)) is None,
        },
{
    let mut visited: Vec<String> = Vec::new();
    assert(texts(visited@) =~= Seq::<Seq<char>>::empty());
    alias_target_to_path_inner(target, imports, &mut visited)
}

/// The path of the item that a written path stands for in a module. An absolute path stands for
/// itself. A single name is that of an item of the module, or of an import; a call of any other
/// name means an item of the module. A longer path may start with an import; else it is taken from
/// the root.
pub open spec fn reference_target(
    names: Seq<(Seq<char>, Seq<char>)>,
    imports: Seq<(Seq<char>, Alias)>,
    module: Seq<char>,
    raw: Seq<char>,
    invoke: bool,
) -> Option<Seq<char>> {
    if invoke && raw == "$main"@ {
        Some(module + "::"@ + "$main"@)
    } else {
        match path_of_text(raw) {
            Err(_) => None,
            Ok(path) => if is_absolute(path) {
                Some(path)
            } else if let Some(ident) = single_component(path) {
                if let Some(local) = lookup(names, ident) {
                    Some(local)
                } else if let Some(import) = lookup(imports, ident) {
                    import_path(import, imports)
                } else if invoke {
                    Some(module + "::"@ + ident)
                } else {
                    None
                }
            } else if let Some((head, rest)) = head_and_rest(path) {
                let expanded = match lookup(imports, head) {
                    Some(import) => import_path(import, imports),
                    None => None,
                };
                match expanded {
                    Some(expanded) => attached(expanded, rest),
                    None => rooted(path),
                }
            } else {
                None
            },
        }
    }
}

/// The path of the item that a written path stands for in a module.
pub fn resolve_path_reference(
    local_names: &Vec<(String, String)>,
    imports: &Vec<(String, AliasTarget)>,
    module: &str,
    raw_path: &str,
    invoke: bool,
) -> (path: Option<String>)
    ensures
        match path {
            Some(path) => reference_target(
                name_entries(local_names@),
                import_entries(imports@),
                module@,
                raw_path@,
                invoke,
            ) == Some(path@),
            None => reference_target(
                name_entries(local_names@),
                import_entries(imports@),
                module@,
                raw_path@,
                invoke,
            ) is None,
        },
{
    if invoke {
        let main = main_procedure_name();
        if same_text(raw_path, &main) {
            return Some(join3(module, "::", &main));
        }
    }
    let path = match canonicalize_path_text(raw_path) {
        Ok(path) => path,
        Err(_) => return None,
    };
    if path_is_absolute(&path) {
        return Some(path);
    }
    if let Some(ident) = as_ident(&path) {
        if let Some(local) = find_name(local_names, &ident) {
            return Some(local.clone());
        }
        if let Some(import) = find_import(imports, &ident) {
            return alias_target_to_path(import, imports);
        }
        return if invoke {
            Some(join3(module, "::", &ident))
        } else {
            None
        };
    }
    let (head, rest) = match split_first(&path) {
        Some(parts) => parts,
        None => return None,
    };
    if let Some(import) = find_import(imports, &head) {
        if let Some(expanded) = alias_target_to_path(import, imports) {
            return attach_path(&expanded, &rest);
        }
    }
    root_path(&path)
}

/// The path that the target of an import stands for: a single name is that of another import.
pub open spec fn import_target_path(imports: Seq<(Seq<char>, Alias)>, raw: Seq<char>) -> Option<
    Seq<char>,
> {
    match path_of_text(raw) {
        Err(_) => None,
        Ok(path) => if is_absolute(path) {
            Some(path)
        } else if let Some(ident) = single_component(path) {
            match lookup(imports, ident) {
                Some(import) => import_path(import, imports),
                None => None,
            }
        } else {
            rooted(path)
        },
    }
}

/// The path that the target of an import stands for.
pub fn resolve_import_target(imports: &Vec<(String, AliasTarget)>, raw_path: &str) -> (path: Option<
    String,
>)
    ensures
        match path {
            Some(path) => import_target_path(import_entries(imports@), raw_path@) == Some(path@),
            None => import_target_path(import_entries(imports@), raw_path@) is None,
        },
{
    let path = match canonicalize_path_text(raw_path) {
        Ok(path) => path,
        Err(_) => return None,
    };
    if path_is_absolute(&path) {
        return Some(path);
    }
    match as_ident(&path) {
        Some(ident) => match find_import(imports, &ident) {
            Some(import) => alias_target_to_path(import, imports),
            None => None,
        },
        None => root_path(&path),
    }
}

/// The path of the item that a reference stands for.
pub open spec fn occurrence_target(
    names: Seq<(Seq<char>, Seq<char>)>,
    imports: Seq<(Seq<char>, Alias)>,
    module: Seq<char>,
    occurrence: Occurrence,
) -> Option<Seq<char>> {
    match occurrence.kind {
        ReferenceKind::Invoke => reference_target(
            names,
            imports,
            module,
            occurrence.raw_path,
            true,
        ),
        ReferenceKind::ImportAlias => match lookup(imports, occurrence.raw_path) {
            Some(import) => import_path(import, imports),
            None => None,
        },
        ReferenceKind::ImportTarget => import_target_path(imports, occurrence.raw_path),
        ReferenceKind::Constant | ReferenceKind::Type => reference_target(
            names,
            imports,
            module,
            occurrence.raw_path,
            false,
        ),
    }
}

/// The path of the item that a reference stands for.
pub fn resolve_occurrence_path(
    local_names: &Vec<(String, String)>,
    imports: &Vec<(String, AliasTarget)>,
    module: &str,
    occurrence: &RawOccurrence,
) -> (path: Option<String>)
    ensures
        match path {
            Some(path) => occurrence_target(
                name_entries(local_names@),
                import_entries(imports@),
                module@,
                occurrence@,
            ) == Some(path@),
            None => occurrence_target(
                name_entries(local_names@),
                import_entries(imports@),
                module@,
                occurrence@,
            ) is None,
        },
{
    match occurrence.kind {
        ReferenceKind::Invoke => resolve_path_reference(
            local_names,
            imports,
            module,
            &occurrence.raw_path,
            true,
        ),
        ReferenceKind::ImportAlias => match find_import(imports, &occurrence.raw_path) {
            Some(import) => alias_target_to_path(import, imports),
            None => None,
        },
        ReferenceKind::ImportTarget => resolve_import_target(imports, &occurrence.raw_path),
        ReferenceKind::Constant | ReferenceKind::Type => resolve_path_reference(
            local_names,
            imports,
            module,
            &occurrence.raw_path,
            false,
        ),
    }
}

/// The numbers of the first `count` items that stand under `path` in `context`.
pub open spec fn in_context(
    definitions: Seq<Def>,
    context: Context,
    path: Seq<char>,
    count: nat,
) -> Seq<usize>
    decreases count,
{
    if count == 0 {
        Seq::empty()
    } else {
        let before = in_context(definitions, context, path, (count - 1) as nat);
        if definitions[count - 1].context == context && definitions[count - 1].path == path {
            before.push((count - 1) as usize)
        } else {
            before
        }
    }
}

/// The numbers of the first `count` items that stand under `path` and can be seen from every
/// context.
pub open spec fn in_public(definitions: Seq<Def>, path: Seq<char>, count: nat) -> Seq<usize>
    decreases count,
{
    if count == 0 {
        Seq::empty()
    } else {
        let before = in_public(definitions, path, (count - 1) as nat);
        if definitions[count - 1].visible_outside_context && definitions[count - 1].path == path {
            before.push((count - 1) as usize)
        } else {
            before
        }
    }
}

/// The items that a path stands for in a context: those of the context itself, or else those that
/// can be seen from every context.
pub open spec fn items_at(definitions: Seq<Def>, context: Context, path: Seq<char>) -> Seq<usize> {
    let own = in_context(definitions, context, path, definitions.len());
    if own.len() > 0 {
        own
    } else {
        in_public(definitions, path, definitions.len())
    }
}

/// The numbers of the items that stand under `path` in `context`.
pub fn find_in_context(definitions: &Vec<Definition>, context: &ContextKey, path: &str) -> (found: Vec<
    usize,
>)
    ensures
        found@ == in_context(defs(definitions@), context@, path@, definitions@.len()),
{
    let ghost all = defs(definitions@);
    let mut found: Vec<usize> = Vec::new();
    let mut i: usize = 0;
    while i < definitions.len()
        invariant
            i <= definitions.len(),
            all == defs(definitions@),
            found@ == in_context(all, context@, path@, i as nat),
        decreases definitions.len() - i,
    {
        let definition = &definitions[i];
        assert(all[i as int] == definition@);
        if same_text(&definition.path, path) && definition.context.same(context) {
            found.push(i);
        }
        i = i + 1;
    }
    found
}

/// The numbers of the items that stand under `path` and can be seen from every context.
pub fn find_public(definitions: &Vec<Definition>, path: &str) -> (found: Vec<usize>)
    ensures
        found@ == in_public(defs(definitions@), path@, definitions@.len()),
{
    let ghost all = defs(definitions@);
    let mut found: Vec<usize> = Vec::new();
    let mut i: usize = 0;
    while i < definitions.len()
        invariant
            i <= definitions.len(),
            all == defs(definitions@),
            found@ == in_public(all, path@, i as nat),
        decreases definitions.len() - i,
    {
        let definition = &definitions[i];
        assert(all[i as int] == definition@);
        if definition.visible_outside_context && same_text(&definition.path, path) {
            found.push(i);
        }
        i = i + 1;
    }
    found
}

/// The items that a reference of a module stands for.
pub open spec fn resolved_items(
    module: ModuleModel,
    occurrence: Occurrence,
    definitions: Seq<Def>,
) -> Seq<usize> {
    match occurrence_target(module.names, module.imports, module.path, occurrence) {
        Some(path) => items_at(definitions, module.context, path),
        None => Seq::empty(),
    }
}

/// The items that a reference of a module stands for.
pub fn resolve_reference(
    module: &ModuleAnalysis,
    occurrence: &RawOccurrence,
    definitions: &Vec<Definition>,
) -> (found: Vec<usize>)
    ensures
        found@ == resolved_items(module@, occurrence@, defs(definitions@)),
{
    match resolve_occurrence_path(
        &module.local_names,
        &module.imports,
        &module.path,
        occurrence,
    ) {
        Some(path) => {
            let own = find_in_context(definitions, &module.context, &path);
            if own.len() > 0 {
                own
            } else {
                find_public(definitions, &path)
            }
        },
        None => {
            let none: Vec<usize> = Vec::new();
            assert(none@ =~= Seq::<usize>::empty());
            none
        },
    }
}

/// The first `count` references of a module with the items that they stand for; those that stand
/// for none are left out.
pub open spec fn resolved_references(
    module: ModuleModel,
    definitions: Seq<Def>,
    count: nat,
) -> Seq<Resolution>
    decreases count,
{
    if count == 0 {
        Seq::empty()
    } else {
        let before = resolved_references(module, definitions, (count - 1) as nat);
        let occurrence = module.raw[count - 1];
        let items = resolved_items(module, occurrence, definitions);
        if items.len() > 0 {
            before.push(
                Resolution {
                    range: occurrence.range,
                    kind: occurrence.kind,
                    definitions: items,
                },
            )
        } else {
            before
        }
    }
}

/// A module with its references resolved.
pub open spec fn with_references(module: ModuleModel, definitions: Seq<Def>) -> ModuleModel {
    ModuleModel {
        resolved: resolved_references(module, definitions, module.raw.len()),
        ..module
    }
}

impl ModuleAnalysis {
    /// Resolves the module's references among all items.
    pub fn resolve_occurrences(&mut self, definitions: &Vec<Definition>)
        ensures
            final(self)@ == with_references(old(self)@, defs(definitions@)),
    {
        let ghost module = self@;
        let ghost all = defs(definitions@);
        let mut resolved: Vec<ResolvedOccurrence> = Vec::new();
        let mut i: usize = 0;
        assert(resolutions(resolved@) =~= resolved_references(module, all, 0));
        while i < self.raw_occurrences.len()
            invariant
                i <= self.raw_occurrences.len(),
                *self == *old(self),
                module == self@,
                all == defs(definitions@),
                resolutions(resolved@) == resolved_references(module, all, i as nat),
            decreases self.raw_occurrences.len() - i,
        {
            let occurrence = &self.raw_occurrences[i];
            assert(module.raw[i as int] == occurrence@);
            let items = resolve_reference(self, occurrence, definitions);
            if items.len() > 0 {
                let ghost before = resolutions(resolved@);
                let next = ResolvedOccurrence {
                    range: occurrence.range,
                    kind: occurrence.kind,
                    definitions: items,
                };
                resolved.push(next);
                assert(resolutions(resolved@) =~= before.push(next@));
            }
            i = i + 1;
        }
        self.resolved_occurrences = resolved;
    }
}

/// What a name is resolved to does not depend on items that stand under other paths: adding one
/// leaves the items at a path as they were, and those of the context come before all others.
pub proof fn law_other_items_do_not_matter(
    definitions: Seq<Def>,
    more: Def,
    context: Context,
    path: Seq<char>,
)
    requires
        more.path != path,
    ensures
        items_at(definitions.push(more), context, path) == items_at(definitions, context, path),
{
    let longer = definitions.push(more);
    lemma_prefix_items(definitions, more, context, path, definitions.len());
    assert(in_context(longer, context, path, longer.len()) == in_context(
        longer,
        context,
        path,
        definitions.len(),
    ));
    assert(in_public(longer, path, longer.len()) == in_public(longer, path, definitions.len()));
}

proof fn lemma_prefix_items(
    definitions: Seq<Def>,
    more: Def,
    context: Context,
    path: Seq<char>,
    count: nat,
)
    requires
        count <= definitions.len(),
    ensures
        in_context(definitions.push(more), context, path, count) == in_context(
            definitions,
            context,
            path,
            count,
        ),
        in_public(definitions.push(more), path, count) == in_public(definitions, path, count),
    decreases count,
{
    if count > 0 {
        lemma_prefix_items(definitions, more, context, path, (count - 1) as nat);
        assert(definitions.push(more)[count - 1] == definitions[count - 1]);
    }
}

/// Every item that a reference is resolved to exists, stands under the path that the reference
/// means, and belongs to the module's context or can be seen from every context.
pub proof fn law_resolved_items(
    module: ModuleModel,
    occurrence: Occurrence,
    definitions: Seq<Def>,
    k: int,
)
    requires
        0 <= k < resolved_items(module, occurrence, definitions).len(),
        definitions.len() <= usize::MAX,
    ensures
        ({
            let item = resolved_items(module, occurrence, definitions)[k] as int;
            &&& 0 <= item < definitions.len()
            &&& occurrence_target(module.names, module.imports, module.path, occurrence) == Some(
                definitions[item].path,
            )
            &&& definitions[item].context == module.context
                || definitions[item].visible_outside_context
        }),
{
    let path = occurrence_target(
        module.names,
        module.imports,
        module.path,
        occurrence,
    ).unwrap();
    lemma_members(definitions, module.context, path, definitions.len());
}

pub proof fn lemma_members(definitions: Seq<Def>, context: Context, path: Seq<char>, count: nat)
    requires
        count <= definitions.len() <= usize::MAX,
    ensures
        forall|k: int|
            0 <= k < in_context(definitions, context, path, count).len() ==> {
                let item = #[trigger] in_context(definitions, context, path, count)[k] as int;
                item < count && definitions[item].path == path && definitions[item].context
                    == context
            },
        forall|k: int|
            0 <= k < in_public(definitions, path, count).len() ==> {
                let item = #[trigger] in_public(definitions, path, count)[k] as int;
                item < count && definitions[item].path == path
                    && definitions[item].visible_outside_context
            },
    decreases count,
{
    if count > 0 {
        lemma_members(definitions, context, path, (count - 1) as nat);
    }
}

/// An import of a path from the root stands for that path.
pub proof fn law_absolute_import(target: Seq<char>, imports: Seq<(Seq<char>, Alias)>)
    requires
        path_of_text(target) is Ok,
        is_absolute(path_of_text(target)->Ok_0),
    ensures
        import_path(Alias::Path(target), imports) == Some(path_of_text(target)->Ok_0),
{
}

/// An import that names a path stands for a path, even where imports name each other in a circle, as
/// long as the components of what it names can be read back.
pub proof fn law_imports_stand_for_paths(text: Seq<char>, imports: Seq<(Seq<char>, Alias)>)
    requires
        path_of_text(text) is Ok,
        is_readable(path_of_text(text)->Ok_0),
        is_absolute(path_of_text(text)->Ok_0) || single_component(path_of_text(text)->Ok_0) is Some
            || (head_and_rest(path_of_text(text)->Ok_0) is Some && is_readable(
            head_and_rest(path_of_text(text)->Ok_0).unwrap().1,
        )),
    ensures
        import_path(Alias::Path(text), imports) is Some,
{
}

/// An item of a module hides an import of the same name.
pub proof fn law_own_names_come_first(
    names: Seq<(Seq<char>, Seq<char>)>,
    imports: Seq<(Seq<char>, Alias)>,
    module: Seq<char>,
    raw: Seq<char>,
    invoke: bool,
)
    requires
        path_of_text(raw) is Ok,
        !is_absolute(path_of_text(raw)->Ok_0),
        single_component(path_of_text(raw)->Ok_0) is Some,
        lookup(names, single_component(path_of_text(raw)->Ok_0).unwrap()) is Some,
        !(invoke && raw == "$main"@),
    ensures
        reference_target(names, imports, module, raw, invoke) == lookup(
            names,
            single_component(path_of_text(raw)->Ok_0).unwrap(),
        ),
{
}

} // verus!
