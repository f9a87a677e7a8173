# miden_lsp

The core of a language server for Miden Assembly, written and verified with Verus, and the server
around it.

- `src/` is the library. Every function in it has a contract, which Verus proves; the few that call
  into other crates are excepted (see below).
- `app/` is the server: it speaks the protocol, reads files and hands plain values to the library.
- `tests/` runs the library on concrete texts, packages and projects.

## Modules

| Module | What it does |
| --- | --- |
| `text`, `words` | operations on strings |
| `order` | stable sorting by keys |
| `position` | positions, ranges and byte offsets, counted in UTF-16 units |
| `syntax`, `parsed` | syntax trees as lists of nodes, and parsed files |
| `document`, `server` | open documents, incremental changes and syntax diagnostics |
| `masm_path`, `source_path` | paths of items, files and modules |
| `model`, `source_module` | items, imports, references and symbols of one source file |
| `resolve` | from written names to items |
| `project`, `pipeline`, `builder` | which packages, targets and files make up a project, and what is known of it |
| `wire`, `package_bytes`, `metadata`, `registry` | compiled packages, and which bytes are handed to their reader |
| `snapshot`, `references`, `rename`, `completion`, `hints`, `tokens` | answers to requests |
| `assembly`, `lexing`, `parseable`, `layout`, `signature`, `stack_state`, `stack_step`, `stack_effect`, `stack_modules`, `stack_project`, `stack_laws` | stack effects of procedure bodies, and which texts are handed to the assembler's parser |

## What is trusted

Calls into other crates stand in small functions whose contracts are believed: parsing with
`tree_sitter` and `miden_assembly_syntax`, path and name rules of Miden Assembly, layouts of types,
reading and publishing compiled packages, addresses of files, and a few functions of the standard
library. Each says in its comment which outside function it stands for and what it claims of it.
