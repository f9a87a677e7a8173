use std::sync::Arc;

use miden_assembly_syntax::ast::types::{ArrayType, CallConv, FunctionType, Type};
use miden_assembly_syntax::ast::Instruction;
use miden_lsp::parseable::can_be_read;
use miden_lsp::position::{compute_line_offsets, offset_to_position, Position, Range};
use miden_lsp::signature::signature_from_function_type;
use miden_lsp::stack_effect::{
    ItemKind, ReferenceKind, StackCallableDefinition, StackDocumentAnalysis,
    StackResolvedReference, StackSignature,
};
use miden_lsp::stack_modules::{analyze_modules, StackModuleInput};
use miden_lsp::stack_state::{State, Value};
use miden_lsp::stack_step::{
    analyze_plain_instruction, generic_effect, known_address, memory_input_count, GenericEffect,
    OverlayInfo, StepResult,
};

fn input(text: &str) -> StackModuleInput {
    StackModuleInput {
        file_path: "/work/mod.masm".to_string(),
        path: "::app".to_string(),
        text: text.to_string(),
        line_offsets: compute_line_offsets(text),
        executable_root: false,
        resolved_references: Vec::new(),
    }
}

fn analyze(text: &str) -> StackDocumentAnalysis {
    analyze_modules(vec![input(text)], Vec::new()).remove(0).1
}

fn hover(text: &str, needle: &str) -> String {
    let offset = text.find(needle).unwrap();
    let position = offset_to_position(text, &compute_line_offsets(text), offset);
    let (_, markdown) = analyze(text).hover_markdown_at(position).unwrap();
    markdown
}

fn effect(popped: usize, pushed: usize, detail: &str) -> String {
    let word = |count| if count == 1 { "felt" } else { "felts" };
    format!(
        "**Stack Effect**\n\nConsumes `{popped}` {} and produces `{pushed}` {}.\n\n{detail}",
        word(popped),
        word(pushed)
    )
}

fn lost(message: &str) -> String {
    format!("**Stack Effect**\n\n{message}")
}

fn messages(text: &str) -> Vec<String> {
    analyze(text).diagnostics().iter().map(|diagnostic| diagnostic.message.clone()).collect()
}

#[test]
fn takes_off_what_was_put_on() {
    let mut state = State::new();
    state.push(Value::Felt(3));
    state.push_many(vec![Value::Address(1), Value::Unknown]);
    assert!(state.pop().same(&Value::Address(1)));
    assert!(state.pop().same(&Value::Unknown));
    assert!(state.pop().same(&Value::Felt(3)));
    assert!(state.pop().same(&Value::Input(0)));
    assert_eq!(state.inputs_used(), 1);
    let peeked = state.peek_many(2);
    assert!(peeked[1].same(&Value::Input(2)));
    assert_eq!(state.inputs_used(), 3);
}

#[test]
fn reads_what_was_written() {
    let mut state = State::new();
    state.store(7, Value::Felt(1));
    state.store(8, Value::Felt(2));
    state.store(7, Value::Felt(3));
    assert!(state.load(7).same(&Value::Felt(3)));
    assert!(state.load(8).same(&Value::Felt(2)));
    assert!(state.load(9).same(&Value::Unknown));
    let copy = state.copy();
    assert!(copy.same(&state));
    state.clear_known_memory();
    assert!(state.known(7).is_none());
    assert!(!copy.same(&state));
}

#[test]
fn knows_addresses_of_small_constants() {
    assert_eq!(known_address(&Value::Felt(5)), Some(5));
    assert_eq!(known_address(&Value::Felt(1 << 32)), None);
    assert_eq!(known_address(&Value::Address(9)), Some(9));
    assert_eq!(known_address(&Value::Unknown), None);
}

#[test]
fn tabulates_generic_effects() {
    let shape = |code: Instruction| match generic_effect(&code) {
        GenericEffect::Transform { popped, pushed, preserve_inputs } => {
            Some((popped, pushed, preserve_inputs))
        }
        GenericEffect::Unsupported => None,
    };
    assert_eq!(shape(Instruction::Add), Some((2, 1, vec![])));
    assert_eq!(shape(Instruction::AssertEqw), Some((8, 0, vec![])));
    assert_eq!(shape(Instruction::U32Assert2), Some((2, 2, vec![0, 1])));
    assert_eq!(shape(Instruction::Dup1), Some((0, 3, vec![1, 0, 1])));
    assert_eq!(shape(Instruction::Dup9), Some((0, 10, vec![9, 0, 1, 2, 3, 4, 5, 6, 7, 8, 9])));
    assert_eq!(shape(Instruction::Swap3), Some((4, 4, vec![3, 1, 2, 0])));
    assert_eq!(shape(Instruction::MovUp4), Some((5, 5, vec![4, 0, 1, 2, 3])));
    assert_eq!(shape(Instruction::MovDn4), Some((5, 5, vec![1, 2, 3, 4, 0])));
    assert_eq!(shape(Instruction::MovUp9), None);
    assert_eq!(memory_input_count(&Instruction::MemStore), 2);
    assert_eq!(memory_input_count(&Instruction::MemLoadWBe), 1);
}

#[test]
fn moves_elements_up_and_down() {
    let mut state = State::new();
    state.push_many(vec![Value::Felt(1), Value::Felt(2), Value::Felt(3)]);
    let up = match analyze_plain_instruction(&Instruction::MovUp2, state.copy()) {
        StepResult::Continue { state, .. } => state,
        _ => panic!("expected a known state"),
    };
    assert!(up.values()[0].same(&Value::Felt(3)));
    let down = match analyze_plain_instruction(&Instruction::MovDn2, up) {
        StepResult::Continue { state, .. } => state,
        _ => panic!("expected a known state"),
    };
    assert!(down.same(&state));
}

#[test]
fn shows_effects() {
    let overlay = OverlayInfo::effect(1, 2, "x");
    assert_eq!(overlay.hover_markdown, effect(1, 2, "x"));
    assert_eq!(overlay.inlay_label, "[1->2]");
    assert!(!overlay.show_inlay);
    assert!(OverlayInfo::highlighted_effect(1, 2, "x").show_inlay);
    let unknown = OverlayInfo::undetermined("y");
    assert_eq!(unknown.hover_markdown, lost("y"));
    assert_eq!(unknown.inlay_label, "[?]");
}

#[test]
fn reads_operands() {
    let text = "\
@locals(8)
proc a
    push.7
    push.1.2.3
    push.[1,2,3,4]
    locaddr.4
    adv_push.3
    mem_store.9
    mem_load.9
    loc_store.1
    padw
    dropw
    add.5
end
";
    assert_eq!(hover(text, "push.7"), effect(0, 1, "`push.7`"));
    assert_eq!(hover(text, "push.[1"), effect(0, 4, "`push.[1,2,3,4]`"));
    assert_eq!(hover(text, "locaddr.4"), effect(0, 1, "`locaddr`"));
    assert_eq!(hover(text, "adv_push.3"), effect(0, 3, "`adv.push`"));
    assert_eq!(hover(text, "mem_store.9"), effect(1, 0, "`mem_store.9`"));
    assert_eq!(hover(text, "mem_load.9"), effect(0, 1, "`mem_load.9`"));
    assert_eq!(hover(text, "loc_store.1"), effect(1, 0, "`loc_store.1`"));
    assert_eq!(hover(text, "padw"), effect(0, 4, "`padw`"));
    assert_eq!(hover(text, "dropw"), effect(4, 0, "`dropw`"));
    assert_eq!(hover(text, "add.5"), effect(1, 1, "`add.5`"));
}

#[test]
fn follows_calls_into_bodies() {
    let text = "\
proc swap_drop
    swap
    drop
end
proc caller
    push.1
    exec.swap_drop
end
";
    assert_eq!(
        hover(text, "exec.swap_drop"),
        effect(2, 1, "resolved call `::app::swap_drop` from source body")
    );
    assert!(messages(text).is_empty());
}

#[test]
fn prefers_written_signatures() {
    let text = "\
type Pair = struct { a: felt, b: u64 }
proc wide(a: u64, b: [felt; 3], c: ptr<felt, addrspace(felt)>) -> Pair
    push.1
end
proc caller
    exec.wide
end
";
    let markdown = hover(text, "exec.wide");
    assert!(markdown.contains("resolved call `::app::wide`"), "{markdown}");
    assert!(markdown.contains("Consumes `6` felts and produces `3` felts"), "{markdown}");
}

#[test]
fn adds_up_signature_sizes() {
    let array = |ty, len| Type::from(ArrayType::new(ty, len));
    let counts = |params: Vec<Type>, results: Vec<Type>| {
        signature_from_function_type(&FunctionType::new(CallConv::Fast, params, results))
    };
    assert_eq!(
        counts(vec![Type::Felt, Type::U64], vec![array(Type::Felt, 4)]),
        Some(StackSignature { args: 3, results: 4 })
    );
    assert_eq!(
        counts(vec![Type::I1, array(Type::U8, 5)], vec![Type::U256]),
        Some(StackSignature { args: 3, results: 8 })
    );
    assert_eq!(
        counts(vec![array(Type::Felt, 1 << 27)], vec![]),
        Some(StackSignature { args: 1 << 27, results: 0 })
    );
    assert_eq!(counts(vec![Type::List(Arc::new(Type::Felt))], vec![]), None);
    assert_eq!(counts(vec![], vec![array(Type::U256, usize::MAX)]), None);
    let half = array(Type::U8, usize::MAX / 8);
    assert_eq!(counts(vec![half], vec![]), Some(StackSignature { args: 1 << 59, results: 0 }));
}

#[test]
fn lays_structures_out_as_far_as_they_can_be() {
    let sizes = |ty: &str| {
        let text = format!("type Shape = {ty}\npub proc f(a: Shape)\n    nop\nend\nproc g\n    exec.f\nend\n");
        hover(&text, "exec.f")
    };
    let takes = |count: usize| effect(count, 0, "resolved call `::app::f`");
    assert_eq!(sizes("struct { a: u8, b: u32 }"), takes(2));
    assert_eq!(sizes("struct @packed { a: u8, b: u32 }"), takes(2));
    assert_eq!(sizes("struct @packed { a: u8, b: u8, c: u16 }"), takes(1));
    assert_eq!(sizes("struct @align(16) { a: u8 }"), takes(4));
    assert_eq!(sizes("struct @transparent { a: u64, b: [u8; 0] }"), takes(2));
    assert_eq!(sizes("[felt; 4096]"), takes(4096));
    assert_eq!(sizes("ptr<u8, addrspace(byte)>"), takes(1));

    let unknown = effect(0, 0, "resolved call `::app::f` from source body");
    let many = |count: usize| {
        let fields: Vec<String> = (0..count).map(|i| format!("f{i}: u8")).collect();
        sizes(&format!("struct {{ {} }}", fields.join(", ")))
    };
    assert_eq!(many(256), takes(64));
    assert_eq!(many(257), unknown);
    assert_eq!(sizes("struct @align(3) { a: u8 }"), unknown);
    assert_eq!(sizes("struct @transparent { a: u8, b: u8 }"), unknown);
}

#[test]
fn gives_up_on_recursion() {
    let text = "\
proc even
    exec.odd
end
proc odd
    exec.even
end
";
    let found = messages(text);
    assert_eq!(found.len(), 2);
    assert!(found.iter().all(|message| message
        == "callee stack effects are indeterminate; stack effects are undetermined after this \
            call"));
}

#[test]
fn compares_branches() {
    let balanced = "\
proc a
    if.true
        push.1
    else
        push.1
    end
end
";
    assert_eq!(hover(balanced, "if.true"), effect(1, 0, "balanced conditional"));

    let known = "\
proc a
    push.1
    if.true
        push.5
    else
        push.6 push.7
    end
end
";
    assert_eq!(hover(known, "if.true"), effect(1, 0, "branch on known `true`"));

    let other = "\
proc a
    push.0
    if.true
        push.5
    else
        push.6 push.7
    end
end
";
    assert_eq!(hover(other, "if.true"), effect(1, 0, "branch on known `false`"));
}

#[test]
fn compares_loops() {
    let balanced = "\
proc a
    while.true
        push.1
    end
end
";
    assert_eq!(hover(balanced, "while.true"), effect(1, 0, "balanced loop"));

    let skipped = "\
proc a
    push.0
    while.true
        push.1 push.1
    end
end
";
    assert_eq!(
        hover(skipped, "while.true"),
        effect(1, 0, "loop skipped on known `false`")
    );

    let uneven = "\
proc a
    while.true
        push.1 push.1
    end
end
";
    assert_eq!(
        messages(uneven),
        vec![
            "loop body does not preserve the carried stack state; stack effects are undetermined \
             after this `while.true`"
        ]
    );
}

#[test]
fn repeats_bodies() {
    let text = "\
proc a
    repeat.3
        push.1
    end
end
proc b
    exec.a
end
";
    assert_eq!(hover(text, "repeat.3"), effect(0, 0, "repeat.3"));
    assert_eq!(
        hover(text, "exec.a"),
        effect(0, 3, "resolved call `::app::a` from source body")
    );
}

#[test]
fn traces_dynamic_calls_through_memory() {
    let text = "\
proc callee
    push.1
end
proc a
    procref.callee
    mem_storew_le.40
    dropw
    push.40
    dynexec
end
";
    assert_eq!(hover(text, "procref"), effect(0, 4, "`procref`"));
    assert_eq!(
        hover(text, "dynexec"),
        effect(1, 1, "resolved `dynexec` via `procref`")
    );

    let lost_text = "\
proc a
    dynexec
end
";
    assert_eq!(
        hover(lost_text, "dynexec"),
        lost("dynamic callee could not be traced for `dynexec`")
    );
}

#[test]
fn reports_instructions_without_a_known_effect() {
    let text = "\
proc a
    movup.9
end
";
    assert_eq!(hover(text, "movup.9"), lost("stack effect unsupported for `movup.9`"));
    assert!(messages(text).is_empty());
}

#[test]
fn resolves_calls_through_references() {
    let text = "proc a\n    exec.::other::helper\nend\n";
    let mut module = input(text);
    let lines = compute_line_offsets(text);
    let start = text.find("::other::helper").unwrap();
    module.resolved_references.push(StackResolvedReference {
        range: Range::new(
            offset_to_position(text, &lines, start),
            offset_to_position(text, &lines, start + "::other::helper".len()),
        ),
        kind: ReferenceKind::Invoke,
        definition_indexes: vec![4],
    });
    let callable = StackCallableDefinition {
        index: 4,
        path: "::far::helper".to_string(),
        kind: ItemKind::Procedure,
        signature: Some(StackSignature { args: 2, results: 1 }),
    };
    let documents = analyze_modules(vec![module], vec![callable]);
    let position = offset_to_position(text, &lines, text.find("exec").unwrap());
    let (_, markdown) = documents[0].1.hover_markdown_at(position).unwrap();
    assert_eq!(markdown, effect(2, 1, "resolved call `::far::helper`"));
}

#[test]
fn warns_of_calls_that_cannot_be_resolved() {
    let text = "proc a\n    exec.::nowhere::helper\nend\n";
    let documents = analyze_modules(vec![input(text)], Vec::new());
    let found = documents[0].1.diagnostics();
    assert_eq!(found.len(), 1);
    assert_eq!(
        found[0].message,
        "callee stack effects are indeterminate; stack effects are undetermined after this call"
    );
    let hints = documents[0].1.inlay_hints(Range::new(Position::new(0, 0), Position::new(9, 0)));
    assert_eq!(hints.len(), 1);
    assert_eq!(hints[0].label, " [?]");
}

#[test]
fn keeps_files_that_cannot_be_parsed() {
    let documents = analyze_modules(vec![input("proc ("), input("proc a\n    nop\nend\n")], Vec::new());
    assert_eq!(documents.len(), 1);
    assert_eq!(documents[0].0, "/work/mod.masm");
}

#[test]
fn changes_depth_by_what_is_taken_and_given() {
    let mut state = State::new();
    state.push_many(vec![Value::Felt(1), Value::Felt(2), Value::Felt(3)]);
    state.set_top_many(2, vec![Value::Felt(9)]);
    let values = state.values();
    assert_eq!(values.len(), 2);
    assert_eq!(state.inputs_used(), 0);

    state.set_top_many(5, vec![Value::Unknown]);
    let values = state.values();
    assert_eq!(values.len(), 1);
    assert!(values[0].same(&Value::Unknown));
    assert_eq!(state.inputs_used(), 3);
}

#[test]
fn leaves_circles_of_imports_alone() {
    let circle = "use x::y -> a\nuse a::z -> x\nproc p\n    exec.a::bar\nend\n";
    assert!(!can_be_read(circle));
    assert_eq!(analyze(circle).diagnostics().len(), 0);
    let calls = |imports: &str, call: &str| can_be_read(&format!("{imports}\nbegin {call} end"));
    assert!(!calls("use c::d -> b\nuse b::e -> c\n", "exec.b::f"));
    assert!(!calls("use c::d -> b\nuse b::e -> c\n", "procref.::c::f"));
    assert!(!calls("use c::d -> b\nuse b::e -> c\nuse b::x -> in", "call.in::f"));
    assert!(!calls("use # first\n  \"b\"::x -> a use a::\"y z\" use a::y -> b", "exec . a :: f"));
    assert!(!calls("use ::b::x -> a\nuse a::b\n", "call.\"b\"::f"));
    assert!(calls("use c::d -> b\nuse b::e -> c\n", "exec.b syscall.b::f push.1"));

    let idle = "use x::y -> a\nuse a::z -> x\nproc p\n    push.1\nend\nproc q\n    exec.p\nend\n";
    assert!(can_be_read(idle));
    assert_eq!(hover(idle, "exec.p"), effect(0, 1, "resolved call `::app::p` from source body"));

    for text in [
        "use lib::lib\nproc p\n    exec.lib::bar\nend\n",
        "use mylib::foo\nuse foo::bar->baz\nproc p\n    exec.baz::q\nend\n",
        "use x::y -> a\n# use a::z -> x\nproc p\n    exec.a::bar\nend\n",
        "use x::y -> a\nconst MESSAGE = \"use a::z -> x\"\n",
        "use 0x0000000000000000000000000000000000000000000000000000000000000000 -> a\n",
    ] {
        assert!(can_be_read(text), "{text}");
    }
}

#[test]
fn leaves_alone_what_the_parser_stumbles_over() {
    for text in [
        "begin exec.\"\" end",
        "begin exec.\"::\" end",
        "use \"\"::\"\" -> a\n",
        "use a::\"::\"\n",
        "begin push.0x end",
        "begin push.0bz end",
    ] {
        assert!(!can_be_read(text), "{text}");
        assert_eq!(analyze(text).diagnostics().len(), 0);
    }
    assert!(can_be_read("begin assert.err=\"\" end"));
    assert!(can_be_read("begin push.0x1f push.0b10 push.0 exp.u32 end"));
    let name = |count: usize| "a".repeat(count);
    assert!(can_be_read(&format!("use x::{}", name(65533))));
    assert!(!can_be_read(&format!("use x::{}", name(65534))));
    assert!(!can_be_read(&format!("begin exec.x::\"{}\" end", name(65534))));
    let phrase = format!("begin assert.err=\"{} {}\" end", name(65534), name(1));
    assert!(can_be_read(&phrase));
    let items = |count: usize| "proc a end ".repeat(count);
    assert!(can_be_read(&items(65535)));
    assert!(!can_be_read(&items(65536)));
    let variants = |count: usize| format!("enum E: u32 {{ {} }}", vec!["A"; count].join(", "));
    assert!(can_be_read(&variants(65534)));
    assert!(!can_be_read(&variants(65535)));
    assert!(can_be_read("begin nop end \0 begin exec.\"\" end"));
}

#[test]
fn leaves_alone_what_is_nested_too_deep() {
    let blocks = |count: usize| {
        format!("begin {} nop {} end", "if.true ".repeat(count), "end ".repeat(count))
    };
    assert!(can_be_read(&blocks(255)));
    assert!(!can_be_read(&blocks(256)));
    let named = format!("begin {} nop", "repeat.2 exec.a::end ".repeat(256));
    assert!(!can_be_read(&named));
    assert!(can_be_read(&"proc a if.true nop else nop end end\n".repeat(1000)));

    let sums = |count: usize| format!("const A = 1{}\nconst B = 1+1\n", "+1".repeat(count));
    assert!(can_be_read(&sums(256)));
    assert!(!can_be_read(&sums(257)));
    let brackets = |count: usize| format!("type t = {}u8{}", "[".repeat(count), "; 1]".repeat(count));
    assert!(can_be_read(&brackets(256)));
    assert!(!can_be_read(&brackets(257)));
}
