use bitfield::fields::{
    is_absent, BitfieldField, BitfieldFieldLine, BitfieldFieldLines, BitfieldMask, FieldTy, Only,
};
use bitfield::generate::{
    bitfield_constructor, bitfield_debug, bitfield_fields, generate_getters, generate_masks, generate_setters,
    Accessors, ConstructorArg, DebugEntry, ErrorKind, GenerationError, Getter, Mask, Setter, Via,
};
use bitfield::position::{BitRangeSpec, PositionError};
use bitfield::types::{IntTy, TypeName};

fn field(ty: FieldTy, getter: &str, setter: &str, position: BitRangeSpec) -> BitfieldField {
    BitfieldField {
        attrs: Vec::new(),
        vis: String::new(),
        ty,
        mask: None,
        from: false,
        into: false,
        from_into_ty: None,
        getter: getter.to_string(),
        setter: setter.to_string(),
        bits_position: position,
    }
}

fn typed(ty: IntTy) -> FieldTy {
    FieldTy::Type(TypeName::Int(ty))
}

fn other(name: &str) -> TypeName {
    TypeName::Other(name.to_string())
}

fn with_mask(mut f: BitfieldField, name: &str, ty: TypeName) -> BitfieldField {
    f.mask = Some(BitfieldMask { ident: name.to_string(), ty });
    f
}

fn error(field: usize, kind: ErrorKind) -> GenerationError {
    GenerationError { field, kind }
}

#[test]
fn absent_name_is_one_underscore() {
    assert!(is_absent(&"_".to_string()));
    assert!(!is_absent(&"".to_string()));
    assert!(!is_absent(&"__".to_string()));
    assert!(!is_absent(&"_a".to_string()));
    assert!(!is_absent(&"field".to_string()));
    let f = field(FieldTy::Unset, "_", "set", BitRangeSpec::SingleBit(0));
    assert!(!f.has_getter());
    assert!(f.has_setter());
    let f = field(FieldTy::Unset, "get", "_", BitRangeSpec::SingleBit(0));
    assert!(f.has_getter());
    assert!(!f.has_setter());
}

#[test]
fn only_selects_kinds() {
    assert!(Only::Getter.getter_or_none());
    assert!(!Only::Getter.setter_or_none());
    assert!(!Only::Getter.mask_or_none());
    assert!(!Only::Setter.getter_or_none());
    assert!(Only::Setter.setter_or_none());
    assert!(!Only::Setter.mask_or_none());
    assert!(!Only::Mask.getter_or_none());
    assert!(!Only::Mask.setter_or_none());
    assert!(Only::Mask.mask_or_none());
    assert!(Only::All.getter_or_none());
    assert!(Only::All.setter_or_none());
    assert!(Only::All.mask_or_none());
}

#[test]
fn only_by_keyword() {
    assert_eq!(Some(Only::Getter), Only::from_keyword("getter"));
    assert_eq!(Some(Only::Setter), Only::from_keyword("setter"));
    assert_eq!(Some(Only::Mask), Only::from_keyword("mask"));
    assert_eq!(None, Only::from_keyword("getters"));
    assert_eq!(None, Only::from_keyword(""));
    assert_eq!(None, Only::from_keyword("only"));
}

#[test]
fn integer_types() {
    let all = [
        (IntTy::U8, 8, false),
        (IntTy::U16, 16, false),
        (IntTy::U32, 32, false),
        (IntTy::U64, 64, false),
        (IntTy::U128, 128, false),
        (IntTy::I8, 8, true),
        (IntTy::I16, 16, true),
        (IntTy::I32, 32, true),
        (IntTy::I64, 64, true),
        (IntTy::I128, 128, true),
    ];
    for (ty, bits, signed) in all {
        assert_eq!(bits, ty.bit_len());
        assert_eq!(signed, ty.is_signed());
        assert!(TypeName::Int(ty).can_hold(bits));
        assert!(!TypeName::Int(ty).can_hold(bits + 1));
    }
    assert!(TypeName::Bool.can_hold(1));
    assert!(!TypeName::Bool.can_hold(2));
    assert!(other("Flags").can_hold(1000));
    assert_eq!(other("Flags"), other("Flags").clone());
}

#[test]
fn field_types() {
    assert_eq!(Some(TypeName::Bool), FieldTy::Bool.as_type());
    assert_eq!(Some(TypeName::Int(IntTy::U16)), typed(IntTy::U16).as_type());
    assert_eq!(Some(other("Speed")), FieldTy::Type(other("Speed")).as_type());
    assert_eq!(None, FieldTy::Unset.as_type());
    assert!(FieldTy::Unset.is_none());
    assert!(!FieldTy::Bool.is_none());
    assert!(!typed(IntTy::U8).is_none());
    assert_eq!(FieldTy::Unset, FieldTy::from(None));
    assert_eq!(typed(IntTy::I32), FieldTy::from(Some(TypeName::Int(IntTy::I32))));
}

#[test]
fn conversion_types() {
    let mut f = field(typed(IntTy::U32), "get", "set", BitRangeSpec::Range(10, 0));
    assert_eq!(Some(TypeName::Int(IntTy::U32)), f.ty_from());
    assert_eq!(Some(TypeName::Int(IntTy::U32)), f.ty_into());

    f.into = true;
    f.from_into_ty = Some(other("FooBar"));
    assert_eq!(Some(TypeName::Int(IntTy::U32)), f.ty_from());
    assert_eq!(Some(other("FooBar")), f.ty_into());

    f.from = true;
    assert_eq!(Some(other("FooBar")), f.ty_from());
    assert_eq!(Some(other("FooBar")), f.ty_into());

    f.into = false;
    assert_eq!(Some(other("FooBar")), f.ty_from());
    assert_eq!(Some(TypeName::Int(IntTy::U32)), f.ty_into());
}

#[test]
fn default_type_is_carried_forward() {
    let lines = BitfieldFieldLines(vec![
        BitfieldFieldLine::Field(field(FieldTy::Unset, "a", "_", BitRangeSpec::SingleBit(0))),
        BitfieldFieldLine::NewDefaultType(TypeName::Int(IntTy::U16)),
        BitfieldFieldLine::Field(field(FieldTy::Unset, "b", "_", BitRangeSpec::Range(2, 0))),
        BitfieldFieldLine::Field(field(typed(IntTy::U32), "c", "_", BitRangeSpec::Range(2, 0))),
        BitfieldFieldLine::Field(field(FieldTy::Unset, "d", "_", BitRangeSpec::Range(2, 0))),
        BitfieldFieldLine::Field(field(FieldTy::Bool, "e", "_", BitRangeSpec::StridedRange(2, 2, 4))),
        BitfieldFieldLine::NewDefaultType(other("Custom")),
        BitfieldFieldLine::NewDefaultType(TypeName::Int(IntTy::I8)),
        BitfieldFieldLine::Field(field(FieldTy::Unset, "f", "_", BitRangeSpec::Range(2, 0))),
    ]);
    let fields = lines.into_fields();
    let names: Vec<&str> = fields.iter().map(|f| f.getter.as_str()).collect();
    assert_eq!(vec!["a", "b", "c", "d", "e", "f"], names);
    assert_eq!(FieldTy::Unset, fields[0].ty);
    assert_eq!(typed(IntTy::U16), fields[1].ty);
    assert_eq!(typed(IntTy::U32), fields[2].ty);
    assert_eq!(typed(IntTy::U16), fields[3].ty);
    assert_eq!(FieldTy::Bool, fields[4].ty);
    assert_eq!(typed(IntTy::I8), fields[5].ty);
    assert_eq!(BitRangeSpec::StridedRange(2, 2, 4), fields[4].bits_position);

    assert!(BitfieldFieldLines(Vec::new()).into_fields().is_empty());
    assert!(BitfieldFieldLines(vec![BitfieldFieldLine::NewDefaultType(TypeName::Bool)]).into_fields().is_empty());
}

#[test]
fn getters_by_arity() {
    let mut converted = field(typed(IntTy::U32), "speed", "set_speed", BitRangeSpec::Range(10, 0));
    converted.into = true;
    converted.from_into_ty = Some(other("Speed"));
    let fields = vec![
        field(typed(IntTy::U8), "flag", "set_flag", BitRangeSpec::SingleBit(3)),
        field(typed(IntTy::U16), "range", "set_range", BitRangeSpec::Range(31, 28)),
        field(typed(IntTy::U8), "_", "write_only", BitRangeSpec::Range(4, 2)),
        field(typed(IntTy::U32), "array", "_", BitRangeSpec::StridedRange(5, 3, 3)),
        field(FieldTy::Bool, "bits", "_", BitRangeSpec::StridedRange(0, 0, 32)),
        converted,
        field(FieldTy::Unset, "untyped_flag", "_", BitRangeSpec::SingleBit(9)),
    ];
    let getters = generate_getters(&fields);
    assert_eq!(
        Ok(vec![
            Getter {
                field: 0,
                position: BitRangeSpec::SingleBit(3),
                via: Via::Bit,
                raw: TypeName::Bool,
                output: TypeName::Bool,
            },
            Getter {
                field: 1,
                position: BitRangeSpec::Range(31, 28),
                via: Via::BitRange,
                raw: TypeName::Int(IntTy::U16),
                output: TypeName::Int(IntTy::U16),
            },
            Getter {
                field: 3,
                position: BitRangeSpec::StridedRange(5, 3, 3),
                via: Via::BitRange,
                raw: TypeName::Int(IntTy::U32),
                output: TypeName::Int(IntTy::U32),
            },
            Getter {
                field: 4,
                position: BitRangeSpec::StridedRange(0, 0, 32),
                via: Via::Bit,
                raw: TypeName::Bool,
                output: TypeName::Bool,
            },
            Getter {
                field: 5,
                position: BitRangeSpec::Range(10, 0),
                via: Via::BitRange,
                raw: TypeName::Int(IntTy::U32),
                output: other("Speed"),
            },
            Getter {
                field: 6,
                position: BitRangeSpec::SingleBit(9),
                via: Via::Bit,
                raw: TypeName::Bool,
                output: TypeName::Bool,
            },
        ]),
        getters
    );
}

#[test]
fn setters_by_arity() {
    let mut into_only = field(typed(IntTy::U32), "speed", "set_speed", BitRangeSpec::Range(10, 0));
    into_only.into = true;
    into_only.from_into_ty = Some(other("Speed"));
    let mut from_into = field(typed(IntTy::U32), "gear", "set_gear", BitRangeSpec::Range(13, 11));
    from_into.from = true;
    from_into.into = true;
    from_into.from_into_ty = Some(other("Gear"));
    let mut flags = field(FieldTy::Bool, "_", "set_flags", BitRangeSpec::StridedRange(16, 16, 4));
    flags.from = true;
    flags.from_into_ty = Some(other("Switch"));
    let fields = vec![
        field(typed(IntTy::U8), "flag", "set_flag", BitRangeSpec::SingleBit(3)),
        field(typed(IntTy::U16), "range", "_", BitRangeSpec::Range(31, 28)),
        field(typed(IntTy::U8), "_", "write_only", BitRangeSpec::Range(4, 2)),
        into_only,
        from_into,
        flags,
        field(FieldTy::Bool, "_", "set_plain_flags", BitRangeSpec::StridedRange(20, 20, 4)),
        field(typed(IntTy::I16), "_", "set_array", BitRangeSpec::StridedRange(27, 24, 2)),
    ];
    let setters = generate_setters(&fields);
    assert_eq!(
        Ok(vec![
            Setter {
                field: 0,
                position: BitRangeSpec::SingleBit(3),
                via: Via::Bit,
                raw: TypeName::Bool,
                input: TypeName::Bool,
            },
            Setter {
                field: 2,
                position: BitRangeSpec::Range(4, 2),
                via: Via::BitRange,
                raw: TypeName::Int(IntTy::U8),
                input: TypeName::Int(IntTy::U8),
            },
            Setter {
                field: 3,
                position: BitRangeSpec::Range(10, 0),
                via: Via::BitRange,
                raw: TypeName::Int(IntTy::U32),
                input: TypeName::Int(IntTy::U32),
            },
            Setter {
                field: 4,
                position: BitRangeSpec::Range(13, 11),
                via: Via::BitRange,
                raw: TypeName::Int(IntTy::U32),
                input: other("Gear"),
            },
            Setter {
                field: 5,
                position: BitRangeSpec::StridedRange(16, 16, 4),
                via: Via::Bit,
                raw: TypeName::Bool,
                input: other("Switch"),
            },
            Setter {
                field: 6,
                position: BitRangeSpec::StridedRange(20, 20, 4),
                via: Via::Bit,
                raw: TypeName::Bool,
                input: TypeName::Bool,
            },
            Setter {
                field: 7,
                position: BitRangeSpec::StridedRange(27, 24, 2),
                via: Via::BitRange,
                raw: TypeName::Int(IntTy::I16),
                input: TypeName::Int(IntTy::I16),
            },
        ]),
        setters
    );
}

#[test]
fn masks_are_derived_from_positions() {
    let fields = vec![
        with_mask(
            field(typed(IntTy::U32), "a", "set_a", BitRangeSpec::Range(10, 0)),
            "A_MASK",
            TypeName::Int(IntTy::U64),
        ),
        field(typed(IntTy::U32), "b", "set_b", BitRangeSpec::Range(20, 11)),
        with_mask(field(FieldTy::Unset, "_", "_", BitRangeSpec::SingleBit(5)), "C_MASK", TypeName::Int(IntTy::U8)),
        with_mask(
            field(FieldTy::Unset, "_", "_", BitRangeSpec::StridedRange(5, 3, 3)),
            "D_MASK",
            other("usize"),
        ),
        with_mask(
            field(typed(IntTy::U8), "e", "_", BitRangeSpec::StridedRange(8, 8, 8)),
            "E_MASK",
            TypeName::Int(IntTy::I16),
        ),
    ];
    assert_eq!(
        Ok(vec![
            Mask { field: 0, ty: TypeName::Int(IntTy::U64), value: 0x7FF },
            Mask { field: 2, ty: TypeName::Int(IntTy::U8), value: 0x20 },
            Mask { field: 3, ty: other("usize"), value: 0xFF8 },
            Mask { field: 4, ty: TypeName::Int(IntTy::I16), value: 0xFF00 },
        ]),
        generate_masks(&fields)
    );
}

#[test]
fn missing_type_is_an_error() {
    let fields = vec![
        field(FieldTy::Unset, "flag", "set_flag", BitRangeSpec::SingleBit(0)),
        field(FieldTy::Unset, "range", "set_range", BitRangeSpec::Range(3, 1)),
    ];
    assert_eq!(Err(error(1, ErrorKind::MissingType)), generate_getters(&fields));
    assert_eq!(Err(error(1, ErrorKind::MissingType)), generate_setters(&fields));
    assert_eq!(Ok(Vec::new()), generate_masks(&fields));

    let fields = vec![field(FieldTy::Unset, "array", "set_array", BitRangeSpec::StridedRange(3, 1, 2))];
    assert_eq!(Err(error(0, ErrorKind::MissingType)), generate_getters(&fields));
    assert_eq!(Err(error(0, ErrorKind::MissingType)), generate_setters(&fields));

    let lines = BitfieldFieldLines(vec![
        BitfieldFieldLine::Field(field(FieldTy::Unset, "early", "_", BitRangeSpec::Range(3, 1))),
        BitfieldFieldLine::NewDefaultType(TypeName::Int(IntTy::U8)),
        BitfieldFieldLine::Field(field(FieldTy::Unset, "late", "_", BitRangeSpec::Range(3, 1))),
    ]);
    assert_eq!(Err(error(0, ErrorKind::MissingType)), bitfield_fields(Only::All, lines));
}

#[test]
fn missing_conversion_type_is_an_error() {
    let mut f = field(typed(IntTy::U32), "get", "set", BitRangeSpec::Range(10, 0));
    f.from = true;
    let fields = vec![f];
    assert_eq!(Err(error(0, ErrorKind::MissingConversionType)), generate_setters(&fields));
    assert!(generate_getters(&fields).is_ok());

    let mut f = field(typed(IntTy::U32), "get", "set", BitRangeSpec::Range(10, 0));
    f.into = true;
    let fields = vec![f];
    assert_eq!(Err(error(0, ErrorKind::MissingConversionType)), generate_getters(&fields));
    assert!(generate_setters(&fields).is_ok());

    let mut f = field(FieldTy::Bool, "get", "set", BitRangeSpec::StridedRange(4, 4, 2));
    f.from = true;
    f.into = true;
    let fields = vec![f];
    assert_eq!(Err(error(0, ErrorKind::MissingConversionType)), generate_setters(&fields));
    assert!(generate_getters(&fields).is_ok());
}

#[test]
fn malformed_positions_are_errors() {
    let reversed = vec![field(typed(IntTy::U32), "get", "set", BitRangeSpec::Range(3, 4))];
    assert_eq!(Err(error(0, ErrorKind::MsbBelowLsb)), generate_getters(&reversed));
    assert_eq!(Err(error(0, ErrorKind::MsbBelowLsb)), generate_setters(&reversed));

    let empty = vec![
        field(typed(IntTy::U32), "ok", "set_ok", BitRangeSpec::Range(4, 3)),
        field(typed(IntTy::U32), "get", "set", BitRangeSpec::StridedRange(4, 3, 0)),
    ];
    assert_eq!(Err(error(1, ErrorKind::EmptyArray)), generate_getters(&empty));
    assert_eq!(Err(error(1, ErrorKind::EmptyArray)), generate_setters(&empty));

    let far = vec![field(FieldTy::Unset, "get", "set", BitRangeSpec::SingleBit(usize::MAX))];
    assert_eq!(Err(error(0, ErrorKind::OutOfRange)), generate_getters(&far));
    assert_eq!(Err(error(0, ErrorKind::OutOfRange)), generate_setters(&far));

    let masked = vec![with_mask(
        field(typed(IntTy::U32), "_", "_", BitRangeSpec::Range(3, 4)),
        "M",
        TypeName::Int(IntTy::U32),
    )];
    assert_eq!(Err(error(0, ErrorKind::MsbBelowLsb)), generate_masks(&masked));
    assert_eq!(Ok(Vec::new()), generate_getters(&masked));
}

#[test]
fn fields_wider_than_their_type_are_errors() {
    let wide = vec![field(typed(IntTy::U8), "get", "set", BitRangeSpec::Range(8, 0))];
    assert_eq!(Err(error(0, ErrorKind::TooWide)), generate_getters(&wide));
    assert_eq!(Err(error(0, ErrorKind::TooWide)), generate_setters(&wide));
    let exact = vec![field(typed(IntTy::U8), "get", "set", BitRangeSpec::Range(8, 1))];
    assert!(generate_getters(&exact).is_ok());

    let wide = vec![field(typed(IntTy::I16), "get", "set", BitRangeSpec::StridedRange(16, 0, 2))];
    assert_eq!(Err(error(0, ErrorKind::TooWide)), generate_getters(&wide));

    let flags = vec![field(FieldTy::Bool, "get", "set", BitRangeSpec::StridedRange(1, 0, 2))];
    assert_eq!(Err(error(0, ErrorKind::TooWide)), generate_getters(&flags));
    assert_eq!(Err(error(0, ErrorKind::TooWide)), generate_setters(&flags));

    let flag_range = vec![field(FieldTy::Bool, "get", "set", BitRangeSpec::Range(1, 0))];
    assert_eq!(Err(error(0, ErrorKind::TooWide)), generate_getters(&flag_range));
    let flag_range = vec![field(FieldTy::Bool, "get", "_", BitRangeSpec::Range(1, 1))];
    assert_eq!(
        Ok(vec![Getter {
            field: 0,
            position: BitRangeSpec::Range(1, 1),
            via: Via::BitRange,
            raw: TypeName::Bool,
            output: TypeName::Bool,
        }]),
        generate_getters(&flag_range)
    );

    let custom = vec![field(FieldTy::Type(other("Wide")), "get", "set", BitRangeSpec::Range(200, 0))];
    assert!(generate_getters(&custom).is_ok());
}

#[test]
fn masks_must_fit_their_type() {
    let narrow = vec![with_mask(
        field(typed(IntTy::U32), "a", "_", BitRangeSpec::Range(8, 0)),
        "M",
        TypeName::Int(IntTy::U8),
    )];
    assert_eq!(Err(error(0, ErrorKind::MaskTooNarrow)), generate_masks(&narrow));
    let strided = vec![with_mask(
        field(typed(IntTy::U8), "a", "_", BitRangeSpec::StridedRange(7, 0, 5)),
        "M",
        TypeName::Int(IntTy::U32),
    )];
    assert_eq!(Err(error(0, ErrorKind::MaskTooNarrow)), generate_masks(&strided));
    let unknown = vec![with_mask(
        field(typed(IntTy::U8), "a", "_", BitRangeSpec::SingleBit(128)),
        "M",
        other("Big"),
    )];
    assert_eq!(Err(error(0, ErrorKind::MaskTooNarrow)), generate_masks(&unknown));
    let flag = vec![with_mask(field(typed(IntTy::U8), "a", "_", BitRangeSpec::SingleBit(1)), "M", TypeName::Bool)];
    assert_eq!(Err(error(0, ErrorKind::MaskTooNarrow)), generate_masks(&flag));
    let widest = vec![with_mask(
        field(typed(IntTy::U8), "a", "_", BitRangeSpec::SingleBit(127)),
        "M",
        TypeName::Int(IntTy::U128),
    )];
    assert_eq!(
        Ok(vec![Mask { field: 0, ty: TypeName::Int(IntTy::U128), value: 1 << 127 }]),
        generate_masks(&widest)
    );
}

fn sample_lines() -> BitfieldFieldLines {
    BitfieldFieldLines(vec![
        BitfieldFieldLine::NewDefaultType(TypeName::Int(IntTy::U16)),
        BitfieldFieldLine::Field(with_mask(
            field(FieldTy::Unset, "field1", "set_field1", BitRangeSpec::Range(10, 0)),
            "FIELD1",
            TypeName::Int(IntTy::U16),
        )),
        BitfieldFieldLine::Field(field(FieldTy::Unset, "field2", "_", BitRangeSpec::Range(12, 3))),
        BitfieldFieldLine::Field(field(FieldTy::Unset, "_", "set_field3", BitRangeSpec::SingleBit(15))),
    ])
}

fn sample_getters() -> Vec<Getter> {
    vec![
        Getter {
            field: 0,
            position: BitRangeSpec::Range(10, 0),
            via: Via::BitRange,
            raw: TypeName::Int(IntTy::U16),
            output: TypeName::Int(IntTy::U16),
        },
        Getter {
            field: 1,
            position: BitRangeSpec::Range(12, 3),
            via: Via::BitRange,
            raw: TypeName::Int(IntTy::U16),
            output: TypeName::Int(IntTy::U16),
        },
    ]
}

fn sample_setters() -> Vec<Setter> {
    vec![
        Setter {
            field: 0,
            position: BitRangeSpec::Range(10, 0),
            via: Via::BitRange,
            raw: TypeName::Int(IntTy::U16),
            input: TypeName::Int(IntTy::U16),
        },
        Setter {
            field: 2,
            position: BitRangeSpec::SingleBit(15),
            via: Via::Bit,
            raw: TypeName::Bool,
            input: TypeName::Bool,
        },
    ]
}

fn sample_masks() -> Vec<Mask> {
    vec![Mask { field: 0, ty: TypeName::Int(IntTy::U16), value: 0x7FF }]
}

#[test]
fn all_kinds_or_only_one() {
    assert_eq!(
        Ok(Accessors { getters: sample_getters(), setters: sample_setters(), masks: sample_masks() }),
        bitfield_fields(Only::All, sample_lines())
    );
    assert_eq!(
        Ok(Accessors { getters: sample_getters(), setters: Vec::new(), masks: Vec::new() }),
        bitfield_fields(Only::Getter, sample_lines())
    );
    assert_eq!(
        Ok(Accessors { getters: Vec::new(), setters: sample_setters(), masks: Vec::new() }),
        bitfield_fields(Only::Setter, sample_lines())
    );
    assert_eq!(
        Ok(Accessors { getters: Vec::new(), setters: Vec::new(), masks: sample_masks() }),
        bitfield_fields(Only::Mask, sample_lines())
    );
    assert_eq!(bitfield_fields(Only::All, sample_lines()), bitfield_fields(Only::All, sample_lines()));
}

#[test]
fn a_kind_that_is_not_asked_for_cannot_fail() {
    let lines = || {
        BitfieldFieldLines(vec![
            BitfieldFieldLine::Field(field(FieldTy::Unset, "_", "set_wide", BitRangeSpec::Range(9, 0))),
            BitfieldFieldLine::Field(field(typed(IntTy::U8), "get", "_", BitRangeSpec::Range(7, 0))),
        ])
    };
    assert_eq!(Err(error(0, ErrorKind::MissingType)), bitfield_fields(Only::All, lines()));
    assert_eq!(Err(error(0, ErrorKind::MissingType)), bitfield_fields(Only::Setter, lines()));
    assert!(bitfield_fields(Only::Getter, lines()).is_ok());
    assert!(bitfield_fields(Only::Mask, lines()).is_ok());
}

#[test]
fn constructor_takes_one_parameter_per_setter() {
    let mut converted = field(typed(IntTy::U32), "gear", "set_gear", BitRangeSpec::Range(13, 11));
    converted.from = true;
    converted.from_into_ty = Some(other("Gear"));
    let lines = BitfieldFieldLines(vec![
        BitfieldFieldLine::NewDefaultType(TypeName::Int(IntTy::U16)),
        BitfieldFieldLine::Field(field(FieldTy::Unset, "a", "set_a", BitRangeSpec::Range(10, 0))),
        BitfieldFieldLine::Field(field(FieldTy::Unset, "b", "_", BitRangeSpec::Range(12, 3))),
        BitfieldFieldLine::Field(field(typed(IntTy::U8), "c", "set_c", BitRangeSpec::SingleBit(15))),
        BitfieldFieldLine::Field(converted),
        BitfieldFieldLine::Field(field(FieldTy::Unset, "e", "_", BitRangeSpec::StridedRange(1, 0, 2))),
    ]);
    assert_eq!(
        Ok(vec![
            ConstructorArg { field: 0, ty: TypeName::Int(IntTy::U16) },
            ConstructorArg { field: 2, ty: TypeName::Bool },
            ConstructorArg { field: 3, ty: other("Gear") },
        ]),
        bitfield_constructor(lines)
    );
    assert_eq!(Ok(Vec::new()), bitfield_constructor(BitfieldFieldLines(Vec::new())));
}

#[test]
fn constructor_errors() {
    let lines = BitfieldFieldLines(vec![
        BitfieldFieldLine::Field(field(typed(IntTy::U8), "a", "set_a", BitRangeSpec::Range(3, 0))),
        BitfieldFieldLine::Field(field(typed(IntTy::U8), "b", "set_b", BitRangeSpec::StridedRange(5, 4, 2))),
    ]);
    assert_eq!(Err(error(1, ErrorKind::ArrayInConstructor)), bitfield_constructor(lines));

    let lines = BitfieldFieldLines(vec![BitfieldFieldLine::Field(field(
        FieldTy::Unset,
        "a",
        "set_a",
        BitRangeSpec::Range(3, 0),
    ))]);
    assert_eq!(Err(error(0, ErrorKind::MissingType)), bitfield_constructor(lines));
}

#[test]
fn debug_lists_readable_fields() {
    let lines = BitfieldFieldLines(vec![
        BitfieldFieldLine::NewDefaultType(TypeName::Int(IntTy::U32)),
        BitfieldFieldLine::Field(field(FieldTy::Unset, "field1", "_", BitRangeSpec::Range(7, 0))),
        BitfieldFieldLine::Field(field(FieldTy::Unset, "_", "set_hidden", BitRangeSpec::Range(15, 8))),
        BitfieldFieldLine::Field(field(FieldTy::Unset, "flag", "_", BitRangeSpec::SingleBit(16))),
        BitfieldFieldLine::Field(field(FieldTy::Unset, "array", "_", BitRangeSpec::StridedRange(25, 24, 4))),
    ]);
    assert_eq!(
        vec![DebugEntry::Value(0), DebugEntry::Value(2), DebugEntry::Array(3, 4)],
        bitfield_debug(lines)
    );
    assert!(bitfield_debug(BitfieldFieldLines(Vec::new())).is_empty());
}

#[test]
fn types_by_name() {
    assert_eq!(TypeName::Bool, TypeName::from_name("bool"));
    assert_eq!(TypeName::Int(IntTy::U8), TypeName::from_name("u8"));
    assert_eq!(TypeName::Int(IntTy::U16), TypeName::from_name("u16"));
    assert_eq!(TypeName::Int(IntTy::U32), TypeName::from_name("u32"));
    assert_eq!(TypeName::Int(IntTy::U64), TypeName::from_name("u64"));
    assert_eq!(TypeName::Int(IntTy::U128), TypeName::from_name("u128"));
    assert_eq!(TypeName::Int(IntTy::I8), TypeName::from_name("i8"));
    assert_eq!(TypeName::Int(IntTy::I16), TypeName::from_name("i16"));
    assert_eq!(TypeName::Int(IntTy::I32), TypeName::from_name("i32"));
    assert_eq!(TypeName::Int(IntTy::I64), TypeName::from_name("i64"));
    assert_eq!(TypeName::Int(IntTy::I128), TypeName::from_name("i128"));
    assert_eq!(other("usize"), TypeName::from_name("usize"));
    assert_eq!(other("FooBar"), TypeName::from_name("FooBar"));
    assert_eq!(other("U8"), TypeName::from_name("U8"));
    assert_eq!(Some(IntTy::I64), IntTy::from_name("i64"));
    assert_eq!(None, IntTy::from_name("bool"));
    for name in ["bool", "u8", "u16", "u32", "u64", "u128", "i8", "i16", "i32", "i64", "i128", "Option < u8 >"] {
        assert_eq!(name, TypeName::from_name(name).to_name());
    }
    assert_eq!("i128", IntTy::I128.as_str());
}

#[test]
fn error_messages() {
    assert_eq!(
        "For non single bit field, you need to either specify a default type or a type for each field",
        ErrorKind::MissingType.message()
    );
    assert_eq!(
        "Array fields as not supported in the `new` method generator",
        ErrorKind::ArrayInConstructor.message()
    );
    let all = [
        ErrorKind::MissingType,
        ErrorKind::MissingConversionType,
        ErrorKind::MsbBelowLsb,
        ErrorKind::EmptyArray,
        ErrorKind::OutOfRange,
        ErrorKind::TooWide,
        ErrorKind::MaskTooNarrow,
        ErrorKind::ArrayInConstructor,
        ErrorKind::UnsupportedArity,
    ];
    for (i, a) in all.iter().enumerate() {
        assert!(!a.message().is_empty());
        for b in &all[i + 1..] {
            assert_ne!(a.message(), b.message());
        }
    }
    assert_eq!(ErrorKind::MsbBelowLsb, ErrorKind::of_position(PositionError::MsbBelowLsb));
    assert_eq!(ErrorKind::EmptyArray, ErrorKind::of_position(PositionError::EmptyArray));
    assert_eq!(ErrorKind::OutOfRange, ErrorKind::of_position(PositionError::OutOfRange));
    assert_eq!(ErrorKind::UnsupportedArity, ErrorKind::of_position(PositionError::UnsupportedArity));
}
