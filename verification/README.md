# nitrogql

Static checks of GraphQL operation documents against a schema, the building
of variable definitions from a parse tree, and lexical path arithmetic, all
verified with Verus.

- `src/ast.rs`, `src/schema.rs`: the syntax tree of operation documents and the
  type system they are checked against.
- `src/operation_checker.rs`: `check_operation_document` and the checks it runs;
  its result is stated exactly by the spec function `document_errors`.
- `src/common.rs`: checks of directives and arguments.
- `src/fragment_map.rs`: fragments looked up by name.
- `src/builder.rs`: variable definitions built from a parse tree.
- `src/relative_path.rs`: `normalize` and `relative_path`. On component lists
  (`relative_components`) it is proved that a relative path resolves back to
  its target; on path text this also rests on how `std::path` reads back the
  text it built, which is not stated.
- `app/`: adapters for `std::path` paths and pest parse trees.
