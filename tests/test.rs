use cenum::{cenum, Attr, CenumError, DiscriminantExpr, EnumDecl, Repr, ResolvedEnum, VariantDecl};

fn repr_attr(name: &str) -> Attr {
    Attr { path: vec!["repr".to_string()], tokens: format!("({})", name) }
}

fn implicit(name: &str) -> VariantDecl {
    VariantDecl { name: name.to_string(), unit: true, discriminant: None }
}

fn lit(v: i128) -> DiscriminantExpr {
    if v < 0 {
        DiscriminantExpr::Neg(Box::new(DiscriminantExpr::Int((-v).to_string())))
    } else {
        DiscriminantExpr::Int(v.to_string())
    }
}

fn explicit(name: &str, v: i128) -> VariantDecl {
    VariantDecl { name: name.to_string(), unit: true, discriminant: Some(lit(v)) }
}

fn decl(name: &str, attrs: Vec<Attr>, variants: Vec<VariantDecl>) -> EnumDecl {
    EnumDecl { name: name.to_string(), attrs, variants }
}

fn resolved(name: &str, attrs: Vec<Attr>, variants: Vec<VariantDecl>) -> ResolvedEnum {
    cenum(&decl(name, attrs, variants)).unwrap()
}

fn test_enum_basic() -> ResolvedEnum {
    resolved(
        "TestEnumBasic",
        vec![repr_attr("u8")],
        vec![implicit("Value1"), implicit("Value2"), implicit("Value3")],
    )
}

fn test_enum_determinant() -> ResolvedEnum {
    resolved(
        "TestEnumDeterminant",
        vec![],
        vec![implicit("Value1"), explicit("Value2", 7), implicit("Value3")],
    )
}

fn test_enum_negative() -> ResolvedEnum {
    resolved(
        "TestEnumNegative",
        vec![repr_attr("i32")],
        vec![
            explicit("Value1", -3),
            explicit("Value2", -2),
            explicit("Value3", -1),
            explicit("Value4", 7),
        ],
    )
}

fn codes(e: &ResolvedEnum) -> Vec<i128> {
    (0..e.len()).map(|i| e.into_primitive(i)).collect()
}

fn error_of(variants: Vec<VariantDecl>) -> CenumError {
    match cenum(&decl("E", vec![], variants)) {
        Ok(_) => panic!("declaration was accepted"),
        Err(e) => e,
    }
}

#[test]
fn can_serialize() {
    let e = test_enum_basic();
    assert_eq!(e.into_primitive(e.variant("Value2").unwrap()), 1);
}

#[test]
fn can_deserialize() {
    let e = test_enum_basic();
    assert_eq!(e.from_primitive(1), Some(e.variant("Value2").unwrap()));
}

#[test]
fn can_check() {
    let e = test_enum_basic();
    assert_eq!(e.from_primitive(9).is_some(), false);
    assert_eq!(e.from_primitive(2).is_some(), true);
}

#[test]
fn can_serialize_determinant() {
    let e = test_enum_determinant();
    assert_eq!(e.into_primitive(e.variant("Value3").unwrap()), 8);
}

#[test]
fn can_deserialize_determinant() {
    let e = test_enum_determinant();
    assert_eq!(e.from_primitive(8), Some(e.variant("Value3").unwrap()));
}

#[test]
fn can_check_determinant() {
    let e = test_enum_determinant();
    assert_eq!(e.from_primitive(8).is_some(), true);
    assert_eq!(e.from_primitive(0).is_some(), true);
    assert_eq!(e.from_primitive(3).is_some(), false);
    assert_eq!(e.from_primitive(9).is_some(), false);
}

#[test]
fn enum_negative() {
    let e = test_enum_negative();
    assert_eq!(e.from_primitive(-3).is_some(), true);
    assert_eq!(e.from_primitive(7).is_some(), true);
    assert_eq!(e.from_primitive(-3), Some(e.variant("Value1").unwrap()));
    assert_eq!(e.into_primitive(e.variant("Value1").unwrap()), -3);
}

#[test]
fn implicit_discriminants_are_positions() {
    let names = ["A", "B", "C", "D", "E", "F"];
    let e = resolved("E", vec![], names.iter().map(|n| implicit(n)).collect());
    assert_eq!(codes(&e), vec![0, 1, 2, 3, 4, 5]);
}

#[test]
fn explicit_value_moves_the_counter() {
    let e = resolved("E", vec![], vec![implicit("A"), explicit("B", 7), implicit("C")]);
    assert_eq!(codes(&e), vec![0, 7, 8]);
}

#[test]
fn negative_literals_are_taken_exactly() {
    let e = test_enum_negative();
    assert_eq!(codes(&e), vec![-3, -2, -1, 7]);
    assert_eq!(e.from_primitive(0), None);
    assert_eq!(e.repr(), Repr::I32);
}

#[test]
fn every_variant_round_trips() {
    for e in [test_enum_basic(), test_enum_determinant(), test_enum_negative()] {
        for i in 0..e.len() {
            assert_eq!(e.from_primitive(e.into_primitive(i)), Some(i));
        }
    }
}

#[test]
fn lower_explicit_value_is_reuse() {
    assert_eq!(
        error_of(vec![explicit("A", 5), explicit("B", 3)]),
        CenumError::DiscriminantReuse { variant: 1 }
    );
    assert_eq!(
        error_of(vec![explicit("A", 3), explicit("B", 3)]),
        CenumError::DiscriminantReuse { variant: 1 }
    );
    assert_eq!(
        error_of(vec![explicit("A", 0), explicit("B", 0)]),
        CenumError::DiscriminantReuse { variant: 1 }
    );
    assert_eq!(
        error_of(vec![implicit("A"), implicit("B"), explicit("C", 1), implicit("D")]),
        CenumError::DiscriminantReuse { variant: 2 }
    );
}

#[test]
fn value_equal_to_counter_is_accepted() {
    let e = resolved("E", vec![], vec![implicit("A"), explicit("B", 1), explicit("C", 5)]);
    assert_eq!(codes(&e), vec![0, 1, 5]);
}

#[test]
fn first_variant_is_never_checked() {
    let e = resolved("E", vec![], vec![explicit("A", 5)]);
    assert_eq!(codes(&e), vec![5]);
    let e = resolved("E", vec![repr_attr("i64")], vec![explicit("A", -100), implicit("B")]);
    assert_eq!(codes(&e), vec![-100, -99]);
}

#[test]
fn unmatched_value_gives_none() {
    let e = resolved("E", vec![], vec![explicit("A", 0), explicit("B", 7), explicit("C", 8)]);
    assert_eq!(e.from_primitive(9), None);
    assert_eq!(e.from_primitive(-1), None);
    assert_eq!(e.from_primitive(7), Some(1));
}

#[test]
fn default_repr_is_u32() {
    let e = test_enum_determinant();
    assert_eq!(e.repr(), Repr::U32);
    let attrs = vec![Attr { path: vec!["derive".to_string()], tokens: "(Debug)".to_string() }];
    let e = resolved("E", attrs, vec![explicit("A", 4_294_967_295)]);
    assert_eq!(e.repr(), Repr::U32);
    assert_eq!(
        error_of(vec![explicit("A", 4_294_967_296)]),
        CenumError::OutOfRepr { variant: 0 }
    );
    assert_eq!(error_of(vec![explicit("A", -1)]), CenumError::OutOfRepr { variant: 0 });
}

#[test]
fn repr_names() {
    let all = [
        ("u8", Repr::U8),
        ("u16", Repr::U16),
        ("u32", Repr::U32),
        ("u64", Repr::U64),
        ("u128", Repr::U128),
        ("i8", Repr::I8),
        ("i16", Repr::I16),
        ("i32", Repr::I32),
        ("i64", Repr::I64),
        ("i128", Repr::I128),
    ];
    for (name, r) in all {
        assert_eq!(Repr::from_name(name), Some(r));
    }
    assert_eq!(Repr::from_name("C"), None);
    assert_eq!(Repr::from_name("usize"), None);
    assert_eq!(Repr::from_name("u"), None);
    assert_eq!(Repr::from_name(""), None);
}

#[test]
fn invalid_repr_is_refused() {
    let attrs = vec![
        Attr { path: vec!["derive".to_string()], tokens: "(Debug)".to_string() },
        repr_attr("C"),
        repr_attr("x"),
    ];
    assert_eq!(
        cenum(&decl("E", attrs, vec![implicit("A")])).err(),
        Some(CenumError::InvalidRepr { attr: 1 })
    );
}

#[test]
fn directive_shapes() {
    let other_path = Attr { path: vec!["core".to_string(), "repr".to_string()], tokens: "(C)".to_string() };
    let bare = Attr { path: vec!["repr".to_string()], tokens: "".to_string() };
    let e = resolved("E", vec![other_path, bare], vec![implicit("A")]);
    assert_eq!(e.repr(), Repr::U32);
    let e = resolved("E", vec![repr_attr("u8"), repr_attr("i16")], vec![implicit("A")]);
    assert_eq!(e.repr(), Repr::I16);
    assert_eq!(cenum::select_repr(&vec![repr_attr("u64")]), Ok(Repr::U64));
}

#[test]
fn fields_are_refused() {
    let with_fields = VariantDecl { name: "B".to_string(), unit: false, discriminant: None };
    assert_eq!(error_of(vec![implicit("A"), with_fields]), CenumError::FieldsNotSupported);
    let with_fields = VariantDecl { name: "B".to_string(), unit: false, discriminant: None };
    assert_eq!(
        cenum(&decl("E", vec![repr_attr("f32")], vec![with_fields])).err(),
        Some(CenumError::InvalidRepr { attr: 0 })
    );
}

#[test]
fn non_literal_discriminants_are_refused() {
    let other = VariantDecl { name: "B".to_string(), unit: true, discriminant: Some(DiscriminantExpr::Other) };
    assert_eq!(
        error_of(vec![implicit("A"), other]),
        CenumError::ExpectedIntegerLiteral { variant: 1 }
    );
    let neg_other = DiscriminantExpr::Neg(Box::new(DiscriminantExpr::Other));
    let v = VariantDecl { name: "A".to_string(), unit: true, discriminant: Some(neg_other) };
    assert_eq!(error_of(vec![v]), CenumError::ExpectedIntegerLiteral { variant: 0 });
    let double = DiscriminantExpr::Neg(Box::new(lit(-1)));
    let v = VariantDecl { name: "A".to_string(), unit: true, discriminant: Some(double) };
    assert_eq!(error_of(vec![v]), CenumError::ExpectedIntegerLiteral { variant: 0 });
    let bad = DiscriminantExpr::Int("1a".to_string());
    let v = VariantDecl { name: "A".to_string(), unit: true, discriminant: Some(bad) };
    assert_eq!(error_of(vec![v]), CenumError::ExpectedIntegerLiteral { variant: 0 });
}

#[test]
fn wide_literals() {
    let max = "170141183460469231731687303715884105727";
    let v = VariantDecl { name: "A".to_string(), unit: true, discriminant: Some(DiscriminantExpr::Int(max.to_string())) };
    let e = resolved("E", vec![repr_attr("i128")], vec![v]);
    assert_eq!(codes(&e), vec![i128::MAX]);
    let too_big = "170141183460469231731687303715884105728";
    let v = VariantDecl { name: "A".to_string(), unit: true, discriminant: Some(DiscriminantExpr::Int(too_big.to_string())) };
    assert_eq!(error_of(vec![v]), CenumError::LiteralOutOfRange { variant: 0 });
    let neg = DiscriminantExpr::Neg(Box::new(DiscriminantExpr::Int(max.to_string())));
    let v = VariantDecl { name: "A".to_string(), unit: true, discriminant: Some(neg) };
    let e = resolved("E", vec![repr_attr("i128")], vec![v]);
    assert_eq!(codes(&e), vec![-i128::MAX]);
}

#[test]
fn counter_overflow_is_refused() {
    let v = VariantDecl {
        name: "A".to_string(),
        unit: true,
        discriminant: Some(DiscriminantExpr::Int(i128::MAX.to_string())),
    };
    assert_eq!(
        cenum(&decl("E", vec![repr_attr("i128")], vec![v, implicit("B")])).err(),
        Some(CenumError::DiscriminantOverflow { variant: 1 })
    );
}

#[test]
fn values_outside_the_repr_are_refused() {
    let e = resolved("E", vec![repr_attr("u8")], vec![explicit("A", 254), implicit("B")]);
    assert_eq!(codes(&e), vec![254, 255]);
    assert_eq!(
        cenum(&decl("E", vec![repr_attr("u8")], vec![explicit("A", 254), implicit("B"), implicit("C")])).err(),
        Some(CenumError::OutOfRepr { variant: 2 })
    );
    assert_eq!(
        cenum(&decl("E", vec![repr_attr("i8")], vec![explicit("A", -129)])).err(),
        Some(CenumError::OutOfRepr { variant: 0 })
    );
    let e = resolved("E", vec![repr_attr("i8")], vec![explicit("A", -128), explicit("B", 127)]);
    assert_eq!(codes(&e), vec![-128, 127]);
}

#[test]
fn resolve_without_repr() {
    let vs = vec![explicit("A", -3), implicit("B"), explicit("C", 10), implicit("D")];
    assert_eq!(cenum::resolve_discriminants(&vs), Ok(vec![-3, -2, 10, 11]));
}

#[test]
fn decimal_parsing() {
    assert_eq!(cenum::decimal::parse_decimal("0"), Some(0));
    assert_eq!(cenum::decimal::parse_decimal("00123"), Some(123));
    assert_eq!(cenum::decimal::parse_decimal(""), None);
    assert_eq!(cenum::decimal::parse_decimal("12a"), None);
    assert_eq!(cenum::decimal::parse_decimal("-1"), None);
    assert!(cenum::decimal::is_decimal_str("42"));
    assert!(!cenum::decimal::is_decimal_str("4 2"));
}

#[test]
fn names_are_kept() {
    let e = test_enum_negative();
    assert_eq!(e.name(), "TestEnumNegative");
    assert_eq!(e.len(), 4);
    assert_eq!(e.variant_name(3), "Value4");
    assert_eq!(e.variant("Value5"), None);
    assert!(Repr::I8.contains(-128));
    assert!(!Repr::U16.contains(65536));
}
