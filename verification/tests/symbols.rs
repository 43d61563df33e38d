use fortitude::ast::ProcedureKind;
use fortitude::symbols::{
    to_ascii_lowercase, DefinitionKind, Scope, SymbolKind, SymbolTable, SymbolTables,
};

fn strings(names: &[&str]) -> Vec<String> {
    names.iter().map(|s| s.to_string()).collect()
}

fn scope() -> Scope {
    Scope {
        procedure: None,
        parameters: vec![],
        use_statements: vec![],
        declarations: vec![],
        result_declaration: None,
        procedures: vec![],
        definitions: vec![],
    }
}

fn stack(table: SymbolTable) -> SymbolTables {
    let mut tables = SymbolTables::new();
    tables.push_table(table);
    tables
}

// program foo
//   integer :: x, Y(4), z = 5
//   real, pointer :: a => null()
// end program foo
fn program_foo() -> Scope {
    Scope { declarations: vec![strings(&["x", "Y", "z"]), strings(&["a"])], ..scope() }
}

#[test]
fn new_symbol_table() {
    let tables = stack(SymbolTable::new(&program_foo()));
    let x = tables.get_var("x").unwrap();
    assert_eq!(x.name, "x");
    assert_eq!(x.kind, SymbolKind::Variable { declaration: 0, is_dummy: false });
    let y = tables.get_var("y").unwrap();
    assert_eq!(y.name, "Y");
    assert_eq!(y.kind, SymbolKind::Variable { declaration: 0, is_dummy: false });
    let z = tables.get_var("Z").unwrap();
    assert_eq!(z.name, "z");
    let a = tables.get_var("a").unwrap();
    assert_eq!(a.name, "a");
    assert_eq!(a.kind, SymbolKind::Variable { declaration: 1, is_dummy: false });
}

#[test]
fn new_symbol_table_outer_scope_only() {
    // The block's declaration of `a` belongs to the block's own scope.
    let table = SymbolTable::new(&Scope { declarations: vec![strings(&["x"])], ..scope() });
    assert!(table.get("x").is_some());
    assert!(table.get("a").is_none());
}

#[test]
fn symbol_table_get_case_insensitive() {
    let tables = stack(SymbolTable::new(&program_foo()));
    let x = tables.get_var("X").unwrap();
    assert_eq!(x.name, "x");
}

#[test]
fn symbol_table_get_outer_scope() {
    let mut tables = stack(SymbolTable::new(&Scope { declarations: vec![strings(&["x"])], ..scope() }));
    tables.push_table(SymbolTable::new(&Scope { declarations: vec![strings(&["a"])], ..scope() }));
    assert_eq!(tables.get_var("X").unwrap().name, "x");
    assert_eq!(tables.get_var("a").unwrap().name, "a");
    tables.pop_table();
    assert!(tables.get_var("a").is_none());
}

#[test]
fn attribute_intent() {
    // subroutine foo(x, y)
    let table = SymbolTable::new(&Scope {
        procedure: Some(ProcedureKind::Subroutine),
        parameters: strings(&["x", "y"]),
        declarations: vec![strings(&["x"]), strings(&["y"])],
        ..scope()
    });
    let tables = stack(table);
    assert_eq!(tables.get_var("x").unwrap().kind, SymbolKind::Variable { declaration: 0, is_dummy: true });
    assert_eq!(tables.get_var("y").unwrap().kind, SymbolKind::Variable { declaration: 1, is_dummy: true });
}

#[test]
fn function_variable_with_attributes() {
    // function foo(x), with `foo` declared on its own line
    let table = SymbolTable::new(&Scope {
        procedure: Some(ProcedureKind::Function),
        parameters: strings(&["x"]),
        declarations: vec![strings(&["x"]), strings(&["foo"])],
        ..scope()
    });
    let foo = stack(table).get_var("foo").unwrap().kind;
    assert_eq!(foo, SymbolKind::Variable { declaration: 1, is_dummy: false });
}

#[test]
fn function_variable() {
    // integer function foo(x)
    let table = SymbolTable::new(&Scope {
        procedure: Some(ProcedureKind::Function),
        parameters: strings(&["x"]),
        declarations: vec![strings(&["x"])],
        result_declaration: Some("foo".to_string()),
        ..scope()
    });
    assert_eq!(table.iter_decl_lines().len(), 2);
    let foo = stack(table).get_var("foo").unwrap().kind;
    assert_eq!(foo, SymbolKind::Variable { declaration: 1, is_dummy: true });
}

#[test]
fn function_result() {
    // integer function foo(x) result(y)
    let table = SymbolTable::new(&Scope {
        procedure: Some(ProcedureKind::Function),
        parameters: strings(&["x"]),
        declarations: vec![strings(&["x"])],
        result_declaration: Some("y".to_string()),
        ..scope()
    });
    let y = stack(table).get_var("y").unwrap().kind;
    assert_eq!(y, SymbolKind::Variable { declaration: 1, is_dummy: true });
}

#[test]
fn internal_procedures() {
    let table = SymbolTable::new(&Scope {
        procedures: vec![
            ("bar".to_string(), ProcedureKind::Function),
            ("zing".to_string(), ProcedureKind::Subroutine),
        ],
        ..scope()
    });
    let tables = stack(table);
    assert_eq!(tables.get("bar").unwrap().kind, SymbolKind::Function);
    assert_eq!(tables.get("zing").unwrap().kind, SymbolKind::Subroutine);
    // A procedure hides variables of the same name in outer scopes.
    assert!(tables.get_var("bar").is_none());
}

#[test]
fn used_items() {
    // use, intrinsic :: iso_fortran_env, only: i8 => int8, real32
    // use :: my_module, only: my_subroutine
    // use another_module
    let table = SymbolTable::new(&Scope {
        use_statements: vec![strings(&["i8", "real32"]), strings(&["my_subroutine"]), vec![]],
        ..scope()
    });
    assert_eq!(table.iter_use_statements().len(), 3);
    assert!(table.iter_use_statements()[2].is_empty());
    let tables = stack(table);
    let i8 = tables.get("i8").unwrap();
    assert_eq!(i8.name, "i8");
    assert_eq!(i8.kind, SymbolKind::UsedItem { statement: 0 });
    assert_eq!(tables.get("real32").unwrap().kind, SymbolKind::UsedItem { statement: 0 });
    assert_eq!(tables.get("my_subroutine").unwrap().kind, SymbolKind::UsedItem { statement: 1 });
}

#[test]
fn all_symbols() {
    let table = SymbolTable::new(&Scope {
        use_statements: vec![strings(&["p", "q"])],
        declarations: vec![strings(&["a", "b"])],
        procedures: vec![
            ("bar".to_string(), ProcedureKind::Function),
            ("zing".to_string(), ProcedureKind::Subroutine),
        ],
        ..scope()
    });
    assert_eq!(table.len(), 6);
    assert_eq!(table.iter_symbols().len(), 6);
    let mut names = table.iter_names();
    names.sort();
    assert_eq!(names, strings(&["a", "b", "bar", "p", "q", "zing"]));
}

#[test]
fn later_bindings_replace_earlier_ones() {
    let table = SymbolTable::new(&Scope {
        use_statements: vec![strings(&["Name"])],
        declarations: vec![strings(&["NAME"])],
        definitions: vec![("Name".to_string(), DefinitionKind::Module)],
        ..scope()
    });
    // The declaration replaces the used item under the lowercase key; the module is bound
    // under its name as written.
    assert_eq!(table.get("name").unwrap().kind, SymbolKind::Variable { declaration: 0, is_dummy: false });
    assert_eq!(table.get("Name").unwrap().kind, SymbolKind::Module);
    assert_eq!(table.len(), 2);
}

#[test]
fn decl_and_use_lines_insert_in_order() {
    let mut table = SymbolTable::empty();
    table.insert_from_use_statement(strings(&["Alpha"]));
    table.insert_from_decl_line(strings(&["beta", "ALPHA"]), &strings(&["alpha"]));
    assert_eq!(table.get("alpha").unwrap().kind, SymbolKind::Variable { declaration: 0, is_dummy: true });
    assert_eq!(table.get("alpha").unwrap().name, "ALPHA");
    assert_eq!(table.get("beta").unwrap().kind, SymbolKind::Variable { declaration: 0, is_dummy: false });
    assert_eq!(table.len(), 2);
    assert_eq!(to_ascii_lowercase("MiXeD_Ünï"), "mixed_Ünï");
}
