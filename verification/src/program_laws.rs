//! What the stack analysis starts from: the laws of programs and of identities.
use vstd::prelude::*;
use vstd::utf8::encode_utf8;
use crate::meaning::{comes_before, law_byte_keys, lemma_picks, picks};
use crate::model::Def;
use crate::order::{arrange, byte_key, in_order, key_le, law_stable_order, stable_order};
use crate::signature::written_signature;
use crate::snapshot::FileModel;
use crate::stack_effect::{Callable, Procedure};
use crate::stack_modules::{all_procedures, file_number, files_of, local_types, module_procedures,
    modules_of, position_of, procedure_keys, program_of, readable_module, with_procedure,
    with_procedures, ModuleSource, ParsedModule};
use crate::stack_project::{has_entrypoint, stack_source, stack_sources};

verus! {

/// Whether a procedure is the one with a number in a parsed module.
pub open spec fn is_procedure_of(
    parsed: ParsedModule,
    path: Seq<char>,
    module: int,
    i: int,
    procedure: Procedure,
) -> bool {
    &&& 0 <= i < parsed.procedures.len()
    &&& procedure.path == path + "::"@ + parsed.procedures[i].name
    &&& procedure.signature == match parsed.procedures[i].signature {
        Some((args, results)) => written_signature(args, results, local_types(parsed)),
        None => None,
    }
    &&& procedure.rows == crate::assembly::block_rows(parsed.procedures[i].body)
    &&& procedure.module == module
}

/// Whether a module can be read, and a procedure is the one with a number in it.
pub open spec fn is_written(
    inputs: Seq<ModuleSource>,
    module: int,
    i: int,
    procedure: Procedure,
) -> bool {
    &&& 0 <= module < inputs.len()
    &&& readable_module(inputs[module]) is Some
    &&& is_procedure_of(
        readable_module(inputs[module]).unwrap(),
        inputs[module].path,
        module,
        i,
        procedure,
    )
}

/// Whether no two procedures have the same path.
pub open spec fn paths_differ(procedures: Seq<Procedure>) -> bool {
    forall|i: int, j: int|
        0 <= i < j < procedures.len() ==> (#[trigger] procedures[i]).path != (
        #[trigger] procedures[j]).path
}

proof fn lemma_position_of(procedures: Seq<Procedure>, path: Seq<char>, at: int)
    requires
        0 <= at,
    ensures
        match position_of(procedures, path, at) {
            Some(found) => at <= found < procedures.len() && procedures[found].path == path,
            None => forall|i: int| at <= i < procedures.len() ==> (#[trigger] procedures[i]).path
                != path,
        },
    decreases procedures.len() - at,
{
    if at < procedures.len() && procedures[at].path != path {
        lemma_position_of(procedures, path, at + 1);
    }
}

proof fn lemma_with_procedure(
    procedures: Seq<Procedure>,
    more: Procedure,
    procedure: Procedure,
)
    requires
        paths_differ(procedures),
    ensures
        paths_differ(with_procedure(procedures, more)),
        with_procedure(procedures, more).contains(procedure) <==> procedure == more || (
        procedures.contains(procedure) && procedure.path != more.path),
{
    lemma_position_of(procedures, more.path, 0);
    let after = with_procedure(procedures, more);
    match position_of(procedures, more.path, 0) {
        Some(at) => {
            assert(after[at] == more);
            if procedures.contains(procedure) && procedure.path != more.path {
                let i = choose|i: int| 0 <= i < procedures.len() && procedures[i] == procedure;
                assert(after[i] == procedure);
            }
            if after.contains(procedure) && procedure != more {
                let i = choose|i: int| 0 <= i < after.len() && after[i] == procedure;
                assert(procedures[i] == procedure);
                if i < at {
                    assert(procedures[i].path != procedures[at].path);
                } else {
                    assert(procedures[at].path != procedures[i].path);
                }
            }
        },
        None => {
            crate::snapshot_laws::lemma_push_contains(procedures, more, procedure);
            if procedures.contains(procedure) {
                let i = choose|i: int| 0 <= i < procedures.len() && procedures[i] == procedure;
                assert(procedures[i].path != more.path);
            }
        },
    }
}

/// Whether a procedure is the last one in a list with its path.
spec fn is_last_in(list: Seq<Procedure>, count: int, i: int) -> bool {
    0 <= i < count && forall|j: int|
        i < j < count ==> (#[trigger] list[j]).path != list[i].path
}

proof fn lemma_with_procedures(
    procedures: Seq<Procedure>,
    more: Seq<Procedure>,
    procedure: Procedure,
)
    requires
        paths_differ(procedures),
    ensures
        paths_differ(with_procedures(procedures, more)),
        with_procedures(procedures, more).contains(procedure) <==> {
            ||| exists|i: int|
                #[trigger] is_last_in(more, more.len() as int, i) && more[i] == procedure
            ||| procedures.contains(procedure) && forall|i: int|
                0 <= i < more.len() ==> (#[trigger] more[i]).path != procedure.path
        },
    decreases more.len(),
{
    if more.len() > 0 {
        let less = more.drop_last();
        let last = more.last();
        let count = more.len() as int;
        lemma_with_procedures(procedures, less, procedure);
        lemma_with_procedure(with_procedures(procedures, less), last, procedure);
        assert(more[count - 1] == last);
        assert forall|i: int| 0 <= i < less.len() implies less[i] == more[i] by {}
        assert forall|i: int| #[trigger] is_last_in(more, count, i) <==> i == count - 1 || (
        is_last_in(less, count - 1, i) && less[i].path != last.path) by {
            if is_last_in(more, count, i) && i < count - 1 {
                assert(more[count - 1].path != more[i].path);
                assert forall|j: int| i < j < count - 1 implies (#[trigger] less[j]).path
                    != less[i].path by {
                    assert(more[j].path != more[i].path);
                }
            }
            if is_last_in(less, count - 1, i) && less[i].path != last.path {
                assert forall|j: int| i < j < count implies (#[trigger] more[j]).path
                    != more[i].path by {
                    if j < count - 1 {
                        assert(less[j].path != less[i].path);
                    }
                }
            }
        }
        if exists|i: int| #[trigger] is_last_in(more, count, i) && more[i] == procedure {
            let i = choose|i: int| #[trigger] is_last_in(more, count, i) && more[i] == procedure;
            if i < count - 1 {
                assert(is_last_in(less, count - 1, i) && less[i] == procedure);
            }
        }
        if procedure == last {
            assert(is_last_in(more, count, count - 1));
        }
        if (exists|i: int| #[trigger] is_last_in(less, count - 1, i) && less[i] == procedure)
            && procedure.path != last.path {
            let i = choose|i: int|
                #[trigger] is_last_in(less, count - 1, i) && less[i] == procedure;
            assert(is_last_in(more, count, i) && more[i] == procedure);
        }
        if forall|i: int| 0 <= i < more.len() ==> (#[trigger] more[i]).path != procedure.path {
            assert forall|i: int| 0 <= i < less.len() implies (#[trigger] less[i]).path
                != procedure.path by {
                assert(more[i].path != procedure.path);
            }
            assert(more[count - 1].path != procedure.path);
        }
        if (forall|i: int| 0 <= i < less.len() ==> (#[trigger] less[i]).path != procedure.path)
            && procedure.path != last.path {
            assert forall|i: int| 0 <= i < more.len() implies (#[trigger] more[i]).path
                != procedure.path by {
                if i < count - 1 {
                    assert(less[i].path != procedure.path);
                }
            }
        }
    }
}

/// Whether a procedure is written, and none with its path is written behind it among the first modules.
pub open spec fn is_written_last(
    inputs: Seq<ModuleSource>,
    count: int,
    module: int,
    i: int,
    procedure: Procedure,
) -> bool {
    &&& module < count
    &&& is_written(inputs, module, i, procedure)
    &&& forall|m: int, j: int, other: Procedure|
        m < count && (m > module || (m == module && j > i)) && #[trigger] is_written(
            inputs,
            m,
            j,
            other,
        ) ==> other.path != procedure.path
}

proof fn lemma_all_procedures(inputs: Seq<ModuleSource>, count: nat, procedure: Procedure)
    requires
        count <= inputs.len(),
    ensures
        paths_differ(all_procedures(inputs, count)),
        all_procedures(inputs, count).contains(procedure) <==> exists|module: int, i: int| #[trigger]
            is_written_last(inputs, count as int, module, i, procedure),
    decreases count,
{
    if count > 0 {
        let last = count - 1;
        let before = all_procedures(inputs, last as nat);
        let input = inputs[last];
        lemma_all_procedures(inputs, last as nat, procedure);
        match readable_module(input) {
            Some(parsed) => {
                let more = module_procedures(parsed, input.path, last, parsed.procedures.len());
                lemma_with_procedures(before, more, procedure);
                assert forall|i: int, other: Procedure| #[trigger]
                    is_written(inputs, last, i, other) <==> 0 <= i < more.len() && more[i] == other by {}
                if exists|i: int|
                    #[trigger] is_last_in(more, more.len() as int, i) && more[i] == procedure {
                    let i = choose|i: int|
                        #[trigger] is_last_in(more, more.len() as int, i) && more[i] == procedure;
                    assert(is_written(inputs, last, i, procedure));
                    assert forall|m: int, j: int, other: Procedure|
                        m < count && (m > last || (m == last && j > i)) && #[trigger] is_written(
                            inputs,
                            m,
                            j,
                            other,
                        ) implies other.path != procedure.path by {
                        assert(more[j] == other);
                        assert(more[j].path != more[i].path);
                    }
                    assert(is_written_last(inputs, count as int, last, i, procedure));
                }
                if before.contains(procedure) && forall|i: int|
                    0 <= i < more.len() ==> (#[trigger] more[i]).path != procedure.path {
                    let (module, i) = choose|module: int, i: int| #[trigger]
                        is_written_last(inputs, last, module, i, procedure);
                    assert(is_written_last(inputs, last, module, i, procedure));
                    assert forall|m: int, j: int, other: Procedure|
                        m < count && (m > module || (m == module && j > i))
                            && #[trigger] is_written(inputs, m, j, other) implies other.path
                        != procedure.path by {
                        if m == last {
                            assert(more[j] == other);
                        }
                    }
                    assert(is_written_last(inputs, count as int, module, i, procedure));
                }
                if exists|module: int, i: int| #[trigger]
                    is_written_last(inputs, count as int, module, i, procedure) {
                    let (module, i) = choose|module: int, i: int| #[trigger]
                        is_written_last(inputs, count as int, module, i, procedure);
                    if module == last {
                        assert(more[i] == procedure);
                        assert forall|j: int| i < j < more.len() implies (#[trigger] more[j]).path
                            != more[i].path by {
                            assert(is_written(inputs, last, j, more[j]));
                        }
                        assert(is_last_in(more, more.len() as int, i));
                    } else {
                        assert(is_written_last(inputs, last, module, i, procedure));
                        assert forall|j: int| 0 <= j < more.len() implies (#[trigger] more[j]).path
                            != procedure.path by {
                            assert(is_written(inputs, last, j, more[j]));
                        }
                    }
                }
            },
            None => {
                if exists|module: int, i: int| #[trigger]
                    is_written_last(inputs, last, module, i, procedure) {
                    let (module, i) = choose|module: int, i: int| #[trigger]
                        is_written_last(inputs, last, module, i, procedure);
                    assert(is_written_last(inputs, count as int, module, i, procedure));
                }
                if exists|module: int, i: int| #[trigger]
                    is_written_last(inputs, count as int, module, i, procedure) {
                    let (module, i) = choose|module: int, i: int| #[trigger]
                        is_written_last(inputs, count as int, module, i, procedure);
                    assert(is_written_last(inputs, last, module, i, procedure));
                }
            },
        }
    }
}

/// The procedures of a program are those of its modules, as far as they can be read; of several with
/// one path only the last one counts. They stand in strictly ascending order of their paths' bytes.
pub proof fn law_program(
    inputs: Seq<ModuleSource>,
    callables: Seq<Callable>,
    procedure: Procedure,
)
    ensures
        program_of(inputs, callables).procedures.contains(procedure) <==> exists|module: int, i: int|
            #[trigger] is_written_last(inputs, inputs.len() as int, module, i, procedure),
        forall|i: int, j: int|
            0 <= i < j < program_of(inputs, callables).procedures.len() ==> comes_before(
                encode_utf8((#[trigger] program_of(inputs, callables).procedures[i]).path),
                encode_utf8((#[trigger] program_of(inputs, callables).procedures[j]).path),
            ),
        program_of(inputs, callables).callables == callables,
{
    let list = all_procedures(inputs, inputs.len());
    let keys = procedure_keys(list);
    let order = stable_order(keys);
    let sorted = arrange(list, order);
    law_stable_order(keys);
    lemma_all_procedures(inputs, inputs.len(), procedure);
    if list.contains(procedure) {
        let i = choose|i: int| 0 <= i < list.len() && list[i] == procedure;
        assert(order.contains(i));
        let k = choose|k: int| 0 <= k < order.len() && order[k] == i;
        assert(sorted[k] == procedure);
    }
    if sorted.contains(procedure) {
        let k = choose|k: int| 0 <= k < sorted.len() && sorted[k] == procedure;
        assert(list[order[k]] == procedure);
    }
    assert forall|i: int, j: int| 0 <= i < j < sorted.len() implies comes_before(
        encode_utf8((#[trigger] sorted[i]).path),
        encode_utf8((#[trigger] sorted[j]).path),
    ) by {
        assert(in_order(keys, order[i], order[j]));
        let left = list[order[i]].path;
        let right = list[order[j]].path;
        let a = encode_utf8(left);
        let b = encode_utf8(right);
        assert(key_le(byte_key(a), byte_key(b)));
        law_byte_keys(a, b);
        if a == b {
            vstd::utf8::encode_utf8_decode_utf8(left);
            vstd::utf8::encode_utf8_decode_utf8(right);
            law_byte_keys(a, a);
            assert(order[i] != order[j]);
            if order[i] < order[j] {
                assert(list[order[i]].path != list[order[j]].path);
            } else {
                assert(list[order[j]].path != list[order[i]].path);
            }
        }
    }
}

proof fn lemma_file_number(files: Seq<Seq<char>>, file: Seq<char>, at: int)
    requires
        0 <= at,
    ensures
        match file_number(files, file, at) {
            Some(found) => at <= found < files.len() && files[found] == file,
            None => forall|i: int| at <= i < files.len() ==> #[trigger] files[i] != file,
        },
    decreases files.len() - at,
{
    if at < files.len() && files[at] != file {
        lemma_file_number(files, file, at + 1);
    }
}

proof fn lemma_files(inputs: Seq<ModuleSource>, count: nat, file: Seq<char>)
    requires
        count <= inputs.len(),
    ensures
        files_of(inputs, count).contains(file) <==> exists|i: int|
            0 <= i < count && (#[trigger] inputs[i]).file == file,
        forall|i: int, j: int|
            0 <= i < j < files_of(inputs, count).len() ==> #[trigger] files_of(inputs, count)[i]
                != #[trigger] files_of(inputs, count)[j],
    decreases count,
{
    if count > 0 {
        let before = files_of(inputs, (count - 1) as nat);
        let last = inputs[count - 1].file;
        lemma_files(inputs, (count - 1) as nat, file);
        lemma_file_number(before, last, 0);
        crate::snapshot_laws::lemma_push_contains(before, last, file);
        if let Some(found) = file_number(before, last, 0) {
            assert(before.contains(last));
        }
    }
}

proof fn lemma_files_grow(inputs: Seq<ModuleSource>, count: nat, more: nat)
    requires
        count <= more <= inputs.len(),
    ensures
        files_of(inputs, count).len() <= files_of(inputs, more).len(),
        forall|k: int|
            0 <= k < files_of(inputs, count).len() ==> #[trigger] files_of(inputs, more)[k]
                == files_of(inputs, count)[k],
    decreases more,
{
    if count < more {
        lemma_files_grow(inputs, count, (more - 1) as nat);
        let before = files_of(inputs, (more - 1) as nat);
        assert forall|k: int| 0 <= k < files_of(inputs, count).len() implies #[trigger] files_of(
            inputs,
            more,
        )[k] == files_of(inputs, count)[k] by {
            assert(before[k] == files_of(inputs, count)[k]);
        }
    }
}

/// The files that are told of are those of the modules, each once; and each module knows which of them
/// is its own.
pub proof fn law_files(inputs: Seq<ModuleSource>, file: Seq<char>, module: int)
    ensures
        files_of(inputs, inputs.len()).contains(file) <==> exists|i: int|
            0 <= i < inputs.len() && (#[trigger] inputs[i]).file == file,
        forall|i: int, j: int|
            0 <= i < j < files_of(inputs, inputs.len()).len() ==> #[trigger] files_of(
                inputs,
                inputs.len(),
            )[i] != #[trigger] files_of(inputs, inputs.len())[j],
        modules_of(inputs).len() == inputs.len(),
        0 <= module < inputs.len() ==> {
            let own = modules_of(inputs)[module];
            &&& 0 <= own.file < files_of(inputs, inputs.len()).len()
            &&& files_of(inputs, inputs.len())[own.file] == inputs[module].file
            &&& own.path == inputs[module].path
            &&& own.bytes == encode_utf8(inputs[module].text)
            &&& own.references == inputs[module].references
        },
{
    lemma_files(inputs, inputs.len(), file);
    if 0 <= module < inputs.len() {
        let count = (module + 1) as nat;
        let part = files_of(inputs, count);
        lemma_files(inputs, count, inputs[module].file);
        lemma_file_number(part, inputs[module].file, 0);
        assert(part.contains(inputs[module].file));
        lemma_files_grow(inputs, count, inputs.len());
        let own = modules_of(inputs)[module];
        assert(files_of(inputs, inputs.len())[own.file] == part[own.file]);
    }
}

/// The files of a project that have a module.
pub open spec fn files_with_modules(files: Seq<FileModel>) -> spec_fn(int) -> bool {
    |i: int| files[i].modules.len() > 0
}

/// Whether a source is what the analysis reads of a file: its first module, with the file's text, and
/// as a program exactly where one of the module's items is an entrypoint.
pub open spec fn speaks_for(file: FileModel, source: ModuleSource) -> bool {
    let module = file.modules[0];
    &&& source.file == module.file
    &&& source.path == module.path
    &&& source.text == file.parsed.text
    &&& source.executable <==> exists|i: int|
        0 <= i < module.definitions.len() && (#[trigger] module.definitions[i]).entrypoint
    &&& source.references.len() == module.resolved.len()
    &&& forall|i: int|
        0 <= i < module.resolved.len() ==> {
            &&& (#[trigger] source.references[i]).range == module.resolved[i].range
            &&& source.references[i].kind == module.resolved[i].kind
            &&& source.references[i].definitions == module.resolved[i].definitions
        }
}

proof fn lemma_has_entrypoint(definitions: Seq<Def>, count: nat)
    requires
        count <= definitions.len(),
    ensures
        has_entrypoint(definitions, count) <==> exists|i: int|
            0 <= i < count && (#[trigger] definitions[i]).entrypoint,
    decreases count,
{
    if count > 0 {
        lemma_has_entrypoint(definitions, (count - 1) as nat);
        if definitions[count - 1].entrypoint {
            assert(definitions[count - 1].entrypoint);
        }
    }
}

proof fn lemma_stack_sources(files: Seq<FileModel>, count: nat) -> (list: Seq<int>)
    requires
        count <= files.len(),
    ensures
        picks(list, count as int, files_with_modules(files)),
        stack_sources(files, count).len() == list.len(),
        forall|k: int|
            0 <= k < list.len() ==> speaks_for(
                files[#[trigger] list[k]],
                stack_sources(files, count)[k],
            ),
    decreases count,
{
    if count == 0 {
        Seq::empty()
    } else {
        let last = count - 1;
        let list = lemma_stack_sources(files, last as nat);
        let wanted = files_with_modules(files);
        lemma_picks(list, last, wanted);
        assert(wanted(last) == (files[last].modules.len() > 0));
        if wanted(last) {
            let more = list.push(last);
            let before = stack_sources(files, last as nat);
            let after = stack_sources(files, count);
            let module = files[last].modules[0];
            lemma_has_entrypoint(module.definitions, module.definitions.len());
            assert(speaks_for(files[last], stack_source(files[last].parsed, module)));
            assert forall|k: int| 0 <= k < more.len() implies speaks_for(
                files[#[trigger] more[k]],
                after[k],
            ) by {
                if k < list.len() {
                    assert(more[k] == list[k]);
                    assert(after[k] == before[k]);
                }
            }
            more
        } else {
            list
        }
    }
}

/// The stack analysis reads the first module of each file that has one, in the order of the files.
pub proof fn law_stack_sources(files: Seq<FileModel>)
    ensures
        exists|list: Seq<int>|
            {
                &&& #[trigger] picks(list, files.len() as int, files_with_modules(files))
                &&& stack_sources(files, files.len()).len() == list.len()
                &&& forall|k: int|
                    0 <= k < list.len() ==> speaks_for(
                        files[#[trigger] list[k]],
                        stack_sources(files, files.len())[k],
                    )
            },
{
    let list = lemma_stack_sources(files, files.len());
    assert(picks(list, files.len() as int, files_with_modules(files)));
}

/// The items that can be called are those of the project, each under its number, with the counts that
/// are known of it.
pub proof fn law_stack_callables(definitions: Seq<Def>, i: int)
    requires
        0 <= i < definitions.len() <= usize::MAX,
    ensures
        ({
            let callables = crate::stack_project::stack_callables(definitions);
            &&& callables.len() == definitions.len()
            &&& callables[i].index == i
            &&& callables[i].path == definitions[i].path
            &&& callables[i].kind == definitions[i].kind
            &&& callables[i].signature == definitions[i].stack_signature
        }),
{
}

/// The analysis of a program knows the effect of each of its procedures in the end, and tells something
/// of each file of its modules.
pub proof fn law_analyzed(inputs: Seq<ModuleSource>, callables: Seq<Callable>, procedure: int)
    requires
        0 <= procedure < program_of(inputs, callables).procedures.len(),
    ensures
        ({
            let known = crate::stack_modules::analyzed(inputs, callables);
            let files = files_of(inputs, inputs.len()).len();
            &&& known.effects.len() == program_of(inputs, callables).procedures.len()
            &&& known.effects[procedure] is Some
            &&& known.findings.len() == files
            &&& known.overlays.len() == files
        }),
{
    let program = program_of(inputs, callables);
    let files = files_of(inputs, inputs.len());
    let nothing = crate::stack_effect::nothing_known(program.procedures.len(), files.len());
    assert forall|p: int| 0 <= p < program.procedures.len() implies {
        let file = (#[trigger] crate::stack_effect::module_of(program, p)).file;
        0 <= file < nothing.findings.len() && file < nothing.overlays.len()
    } by {
        let own = program.procedures[p];
        law_program(inputs, callables, own);
        assert(program.procedures.contains(own));
        let (module, i) = choose|module: int, i: int| #[trigger]
            is_written_last(inputs, inputs.len() as int, module, i, own);
        assert(is_written(inputs, module, i, own));
        law_files(inputs, inputs[module].file, module);
    }
    assert(crate::stack_laws::fits(program, nothing));
    crate::stack_laws::law_every_body_is_followed(
        program,
        nothing,
        program.procedures.len(),
        procedure,
    );
}

} // verus!
