use vhdl_resolver::ast::{Expression, Name, SelectedName};
use vhdl_resolver::diagnostics::{DiagnosticCode, FatalError};
use vhdl_resolver::symbols::{
    AnalyzeContext, NamedEntities, NamedEntity, NamedEntityKind, Region, SymbolTable, WithPos,
    WithRef,
};

const LIB: u64 = 1;
const PKG: u64 = 2;
const CONST: u64 = 3;
const REC: u64 = 4;
const X: u64 = 5;
const Y: u64 = 6;
const MISSING: u64 = 7;
const FUN: u64 = 8;
const ATTR: u64 = 9;

fn ent(designator: u64, decl_pos: Option<u64>, kind: NamedEntityKind) -> NamedEntity {
    NamedEntity { designator, decl_pos, kind }
}

fn designator_name(des: u64, pos: u64) -> WithPos<SelectedName> {
    WithPos { item: SelectedName::Designator(WithRef { designator: des, reference: None }), pos }
}

fn selected(prefix: WithPos<SelectedName>, des: u64, pos: u64, whole: u64) -> WithPos<SelectedName> {
    WithPos {
        item: SelectedName::Selected(
            Box::new(prefix),
            WithPos { item: WithRef { designator: des, reference: None }, pos },
        ),
        pos: whole,
    }
}

/// lib.pkg.konst: library, package and constant, fully linked.
fn library_table() -> (SymbolTable, Region) {
    let mut table = SymbolTable::new();
    let int_type = table.add(ent(100, Some(50), NamedEntityKind::OtherType));
    let konst = table.add(ent(CONST, Some(51), NamedEntityKind::Object { subtype: int_type }));
    let mut pkg_region = Region::new();
    pkg_region.add(CONST, NamedEntities::Single(konst));
    let pkg = table.add(ent(PKG, Some(52), NamedEntityKind::Package(pkg_region)));
    let mut lib_region = Region::new();
    lib_region.add(PKG, NamedEntities::Single(pkg));
    let lib = table.add(ent(LIB, None, NamedEntityKind::Library(lib_region)));
    let mut scope = Region::new();
    scope.add(LIB, NamedEntities::Single(lib));
    (table, scope)
}

fn slot_of(name: &WithPos<SelectedName>) -> Option<NamedEntities> {
    match &name.item {
        SelectedName::Designator(w) => w.reference,
        SelectedName::Selected(_, suffix) => suffix.item.reference,
    }
}

#[test]
fn library_package_constant_chain_resolves() {
    let (table, scope) = library_table();
    let ctx = AnalyzeContext::new(table);
    let mut name = selected(selected(designator_name(LIB, 10), PKG, 11, 12), CONST, 13, 14);
    let resolved = ctx.resolve_selected_name(&scope, &mut name).expect("must resolve");
    assert!(matches!(resolved, NamedEntities::Single(1)));
    // every designator on the way got its binding
    assert!(matches!(slot_of(&name), Some(NamedEntities::Single(1))));
    match &name.item {
        SelectedName::Selected(prefix, _) => {
            assert!(matches!(slot_of(prefix), Some(NamedEntities::Single(2))));
            match &prefix.item {
                SelectedName::Selected(leftmost, _) => {
                    assert!(matches!(slot_of(leftmost), Some(NamedEntities::Single(3))));
                }
                _ => panic!("shape"),
            }
        }
        _ => panic!("shape"),
    }
    // zero diagnostics through the general resolver as well
    let mut diagnostics = Vec::new();
    let mut general = Name::Selected(
        Box::new(WithPos {
            item: Name::Designator(WithRef { designator: LIB, reference: None }),
            pos: 10,
        }),
        WithPos { item: WithRef { designator: PKG, reference: None }, pos: 11 },
    );
    let r = ctx.resolve_name(&scope, 12, &mut general, &mut diagnostics).expect("no fatal");
    assert!(matches!(r, Some(NamedEntities::Single(2))));
    assert_eq!(diagnostics.len(), 0);
}

#[test]
fn resolving_twice_gives_the_same_binding() {
    let (table, scope) = library_table();
    let ctx = AnalyzeContext::new(table);
    let mut name = selected(designator_name(LIB, 10), PKG, 11, 12);
    let first = ctx.resolve_selected_name(&scope, &mut name).expect("resolves");
    let first_slot = slot_of(&name);
    let second = ctx.resolve_selected_name(&scope, &mut name).expect("resolves again");
    assert_eq!(format!("{:?}", first), format!("{:?}", second));
    assert_eq!(format!("{:?}", first_slot), format!("{:?}", slot_of(&name)));
}

/// rec.missing_field against record {x, y}: one finding, prefix slot set,
/// suffix slot cleared.
#[test]
fn missing_record_field_reports_once() {
    let mut table = SymbolTable::new();
    let tx = table.add(ent(100, None, NamedEntityKind::OtherType));
    let fx = table.add(ent(X, Some(60), NamedEntityKind::ElementDeclaration { subtype: tx }));
    let fy = table.add(ent(Y, Some(61), NamedEntityKind::ElementDeclaration { subtype: tx }));
    let mut fields = Region::new();
    fields.add(X, NamedEntities::Single(fx));
    fields.add(Y, NamedEntities::Single(fy));
    let rec_type = table.add(ent(REC, Some(62), NamedEntityKind::RecordType(fields)));
    let obj = table.add(ent(REC, Some(63), NamedEntityKind::Object { subtype: rec_type }));
    let mut scope = Region::new();
    scope.add(REC, NamedEntities::Single(obj));
    let ctx = AnalyzeContext::new(table);

    let mut diagnostics = Vec::new();
    let mut name = Name::Selected(
        Box::new(WithPos {
            item: Name::Designator(WithRef {
                designator: REC,
                reference: Some(NamedEntities::Single(0)),  // stale binding from an earlier pass
            }),
            pos: 20,
        }),
        WithPos { item: WithRef { designator: MISSING, reference: None }, pos: 21 },
    );
    let r = ctx.resolve_name(&scope, 22, &mut name, &mut diagnostics).expect("no fatal");
    assert!(r.is_none());
    assert_eq!(diagnostics.len(), 1);
    assert_eq!(diagnostics[0].pos, 21);
    assert!(matches!(
        diagnostics[0].code,
        DiagnosticCode::NoDeclarationWithin { entity, designator }
            if entity == 3 && designator == MISSING
    ));
    match &name {
        Name::Selected(prefix, suffix) => {
            assert!(suffix.item.reference.is_none());
            match &prefix.item {
                Name::Designator(w) => {
                    assert!(matches!(w.reference, Some(NamedEntities::Single(4))));
                }
                _ => panic!("shape"),
            }
        }
        _ => panic!("shape"),
    }
}

/// some_function.attr where some_function is overloaded: exactly one finding
/// about the prefix, nothing about the suffix.
#[test]
fn overloaded_prefix_reports_once() {
    let mut table = SymbolTable::new();
    let f1 = table.add(ent(FUN, Some(70), NamedEntityKind::Subprogram));
    let f2 = table.add(ent(FUN, Some(71), NamedEntityKind::Subprogram));
    let set = table.add_overload_set(vec![f1, f2]);
    let mut scope = Region::new();
    scope.add(
        FUN,
        NamedEntities::Overloaded(vhdl_resolver::symbols::OverloadedName {
            designator: FUN,
            set,
        }),
    );
    let ctx = AnalyzeContext::new(table);
    let mut diagnostics = Vec::new();
    let mut name = Name::Selected(
        Box::new(WithPos {
            item: Name::Designator(WithRef { designator: FUN, reference: None }),
            pos: 30,
        }),
        WithPos { item: WithRef { designator: ATTR, reference: None }, pos: 31 },
    );
    let r = ctx.resolve_name(&scope, 32, &mut name, &mut diagnostics).expect("no fatal");
    assert!(r.is_none());
    assert_eq!(diagnostics.len(), 1);
    assert_eq!(diagnostics[0].pos, 30);
    assert!(matches!(
        diagnostics[0].code,
        DiagnosticCode::OverloadedNamePrefix { designator } if designator == FUN
    ));
}

/// A failing leftmost name of a selected chain produces exactly one finding,
/// about itself: no cascade about the suffixes.
#[test]
fn failing_prefix_does_not_cascade() {
    let (table, scope) = library_table();
    let ctx = AnalyzeContext::new(table);
    let mut diagnostics = Vec::new();
    let mut name = Name::Selected(
        Box::new(WithPos {
            item: Name::Selected(
                Box::new(WithPos {
                    item: Name::Designator(WithRef { designator: 99, reference: None }),
                    pos: 40,
                }),
                WithPos { item: WithRef { designator: PKG, reference: None }, pos: 41 },
            ),
            pos: 42,
        }),
        WithPos { item: WithRef { designator: CONST, reference: None }, pos: 43 },
    );
    let r = ctx.resolve_name(&scope, 44, &mut name, &mut diagnostics).expect("no fatal");
    assert!(r.is_none());
    assert_eq!(diagnostics.len(), 1);
    assert_eq!(diagnostics[0].pos, 40);
    assert!(matches!(
        diagnostics[0].code,
        DiagnosticCode::NotVisible { designator } if designator == 99
    ));
}

/// Subtype(Subtype(RecordType)) behaves exactly like the record type itself.
#[test]
fn subtype_chains_are_transparent() {
    let mut table = SymbolTable::new();
    let tx = table.add(ent(100, None, NamedEntityKind::OtherType));
    let fx = table.add(ent(X, Some(80), NamedEntityKind::ElementDeclaration { subtype: tx }));
    let mut fields = Region::new();
    fields.add(X, NamedEntities::Single(fx));
    let rec_type = table.add(ent(REC, None, NamedEntityKind::RecordType(fields)));
    let sub1 = table.add(ent(REC, None, NamedEntityKind::Subtype(rec_type)));
    let sub2 = table.add(ent(REC, None, NamedEntityKind::Subtype(sub1)));
    let ctx = AnalyzeContext::new(table);
    let suffix = WithPos { item: WithRef { designator: X, reference: None }, pos: 81 };
    let via_chain = ctx.lookup_type_selected(82, sub2, &suffix).expect("ok");
    let direct = ctx.lookup_type_selected(82, rec_type, &suffix).expect("ok");
    assert_eq!(format!("{:?}", via_chain), format!("{:?}", direct));
    assert!(matches!(via_chain, Some(NamedEntities::Single(1))));
}

/// An incomplete type is silent before linking and behaves like its full
/// type after.
#[test]
fn incomplete_type_is_monotonic() {
    let mut table = SymbolTable::new();
    let tx = table.add(ent(100, None, NamedEntityKind::OtherType));
    let fx = table.add(ent(X, Some(90), NamedEntityKind::ElementDeclaration { subtype: tx }));
    let mut fields = Region::new();
    fields.add(X, NamedEntities::Single(fx));
    let rec_type = table.add(ent(REC, None, NamedEntityKind::RecordType(fields)));
    let link = table.new_incomplete_link();
    let inc = table.add(ent(REC, None, NamedEntityKind::IncompleteType(link)));
    let ctx = AnalyzeContext::new(table);
    let suffix = WithPos { item: WithRef { designator: X, reference: None }, pos: 91 };
    let before = ctx.lookup_type_selected(92, inc, &suffix).expect("silent");
    assert!(before.is_none());

    let mut table2 = ctx.table;
    table2.link_incomplete(link, rec_type);
    let ctx2 = AnalyzeContext::new(table2);
    let after = ctx2.lookup_type_selected(92, inc, &suffix).expect("found");
    assert!(matches!(after, Some(NamedEntities::Single(1))));
}

/// A cyclic subtype chain is a structural defect: the fatal tier, not a hang
/// and not a local finding.
#[test]
fn cyclic_indirection_is_fatal() {
    let mut table = SymbolTable::new();
    let s = table.add(ent(REC, None, NamedEntityKind::Subtype(0)));
    let mut scope = Region::new();
    scope.add(REC, NamedEntities::Single(s));
    let ctx = AnalyzeContext::new(table);
    let suffix = WithPos { item: WithRef { designator: X, reference: None }, pos: 95 };
    let r = ctx.lookup_type_selected(96, 0, &suffix);
    match r {
        Err(vhdl_resolver::diagnostics::AnalysisError::Fatal(f)) => {
            assert_eq!(f, FatalError::CircularDependency);
        }
        _ => panic!("expected a fatal error"),
    }
}

/// A dangling entity index is the other structural defect.
#[test]
fn dangling_reference_is_fatal() {
    let table = SymbolTable::new();
    let ctx = AnalyzeContext::new(table);
    let suffix = WithPos { item: WithRef { designator: X, reference: None }, pos: 97 };
    match ctx.lookup_selected(98, 5, &suffix) {
        Err(vhdl_resolver::diagnostics::AnalysisError::Fatal(f)) => {
            assert_eq!(f, FatalError::DanglingEntityReference);
        }
        _ => panic!("expected a fatal error"),
    }
}

/// An uninstantiated package can never stand before the dot.
#[test]
fn uninstantiated_package_prefix_is_invalid() {
    let mut table = SymbolTable::new();
    let up = table.add(ent(PKG, Some(55), NamedEntityKind::UninstPackage));
    let ctx = AnalyzeContext::new(table);
    let suffix = WithPos { item: WithRef { designator: X, reference: None }, pos: 56 };
    match ctx.lookup_selected(57, up, &suffix) {
        Err(vhdl_resolver::diagnostics::AnalysisError::NotFatal(d)) => {
            assert_eq!(d.pos, 57);
            assert!(matches!(
                d.code,
                DiagnosticCode::InvalidSelectedNamePrefix { entity } if entity == 0
            ));
        }
        _ => panic!("expected a local finding"),
    }
}

/// A name whose kind is wrong for a type mark is reported at the rightmost
/// designator, with the declaration as the related position.
#[test]
fn type_mark_must_denote_a_type() {
    let (table, scope) = library_table();
    let ctx = AnalyzeContext::new(table);
    let mut mark = designator_name(LIB, 15);
    match ctx.resolve_type_mark(&scope, &mut mark) {
        Err(vhdl_resolver::diagnostics::AnalysisError::NotFatal(d)) => {
            assert_eq!(d.pos, 15);
            assert!(matches!(
                d.code,
                DiagnosticCode::MismatchedKind { entity, ref expected }
                    if entity == 3 && expected == "type"
            ));
        }
        _ => panic!("expected a local finding"),
    }
}

/// Indexed names resolve the prefix and analyze every index expression.
#[test]
fn indexed_name_analyzes_indices() {
    let (table, scope) = library_table();
    let ctx = AnalyzeContext::new(table);
    let mut diagnostics = Vec::new();
    let mut name = Name::Indexed(
        Box::new(WithPos {
            item: Name::Designator(WithRef { designator: LIB, reference: None }),
            pos: 45,
        }),
        vec![
            WithPos {
                item: Expression::Name(Box::new(Name::Designator(WithRef {
                    designator: 99,
                    reference: None,
                }))),
                pos: 46,
            },
            WithPos { item: Expression::Literal(7), pos: 47 },
        ],
    );
    let r = ctx.resolve_name(&scope, 48, &mut name, &mut diagnostics).expect("no fatal");
    assert!(r.is_none());
    assert_eq!(diagnostics.len(), 1);
    assert!(matches!(
        diagnostics[0].code,
        DiagnosticCode::NotVisible { designator } if designator == 99
    ));
}
