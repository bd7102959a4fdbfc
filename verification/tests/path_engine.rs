use rhdl::kind::DiscriminantAlignment;
use rhdl::kind::DiscriminantType;
use rhdl::kind::Kind;
use rhdl::path::bit_range;
use rhdl::path::path_star;
use rhdl::path::sub_kind;
use rhdl::path::Path;
use rhdl::path::PathError;
use rhdl::rhif::Slot;

fn base_struct() -> Kind {
    Kind::make_struct(
        "base",
        vec![
            Kind::make_field("a", Kind::make_bits(8)),
            Kind::make_field("b", Kind::make_array(Kind::make_bits(8), 3)),
        ],
    )
}

fn nested_struct() -> Kind {
    Kind::make_struct(
        "foo",
        vec![
            Kind::make_field("c", base_struct()),
            Kind::make_field("d", Kind::make_array(base_struct(), 4)),
        ],
    )
}

#[test]
fn test_path_star() {
    let kind = nested_struct();
    let path1 = Path::default().field("c").field("a");
    assert_eq!(path_star(&kind, &path1).unwrap().len(), 1);
    let path1 = Path::default().field("c").field("b");
    assert_eq!(path_star(&kind, &path1).unwrap().len(), 1);
    let path1 = Path::default().field("c").field("b").index(0);
    assert_eq!(path_star(&kind, &path1).unwrap().len(), 1);
    let path1 = Path::default()
        .field("c")
        .field("b")
        .dynamic(Slot::Register(0));
    let path1_star = path_star(&kind, &path1).unwrap();
    assert_eq!(path1_star.len(), 3);
    for path in path1_star {
        assert_eq!(path.elements.len(), 3);
        assert!(!path.any_dynamic());
    }
    let path2 = Path::default()
        .field("d")
        .dynamic(Slot::Register(0))
        .field("b");
    let path2_star = path_star(&kind, &path2).unwrap();
    assert_eq!(path2_star.len(), 4);
    for path in path2_star {
        assert_eq!(path.elements.len(), 3);
        assert!(!path.any_dynamic());
    }
    let path3 = Path::default()
        .field("d")
        .dynamic(Slot::Register(0))
        .field("b")
        .dynamic(Slot::Register(1));
    let path3_star = path_star(&kind, &path3).unwrap();
    assert_eq!(path3_star.len(), 12);
    for path in path3_star {
        assert_eq!(path.elements.len(), 4);
        assert!(!path.any_dynamic());
    }
}

#[test]
fn test_bit_range_whole_scalar() {
    let kind = Kind::make_bits(8);
    let (range, sub) = bit_range(kind, &Path::default()).unwrap();
    assert_eq!(range.start, 0);
    assert_eq!(range.end, 8);
    match sub {
        Kind::Bits(w) => assert_eq!(w, 8),
        _ => panic!(),
    }
}

#[test]
fn test_bit_range_struct_array() {
    let kind = base_struct();
    let path = Path::default().field("b").index(1);
    let (range, sub) = bit_range(kind, &path).unwrap();
    assert_eq!(range.start, 16);
    assert_eq!(range.end, 24);
    match sub {
        Kind::Bits(w) => assert_eq!(w, 8),
        _ => panic!(),
    }
}

#[test]
fn test_bit_range_width_consistency() {
    let kind = nested_struct();
    let path = Path::default().field("d").index(2).field("b").index(1);
    let (range, sub) = bit_range(kind.clone(), &path).unwrap();
    assert_eq!(range.end - range.start, sub.bits());
    assert!(range.end <= kind.bits());
}

#[test]
fn test_enum_discriminant_low_bits() {
    let layout = Kind::make_discriminant_layout(
        2,
        DiscriminantAlignment::Lsb,
        DiscriminantType::Unsigned,
    );
    let kind = Kind::make_enum(
        "opcode",
        vec![
            Kind::make_variant("idle", 0, Kind::make_empty()),
            Kind::make_variant("run", 1, Kind::make_bits(6)),
            Kind::make_variant("halt", 2, Kind::make_bits(4)),
        ],
        layout,
    );
    let total = kind.bits();
    assert_eq!(total, 8);
    let (range, sub) = bit_range(kind, &Path::default().discriminant()).unwrap();
    assert_eq!(range.start, 0);
    assert_eq!(range.end, 2);
    match sub {
        Kind::Bits(w) => assert_eq!(w, 2),
        _ => panic!(),
    }
}

#[test]
fn test_enum_payload() {
    let layout = Kind::make_discriminant_layout(
        2,
        DiscriminantAlignment::Lsb,
        DiscriminantType::Unsigned,
    );
    let kind = Kind::make_enum(
        "opcode",
        vec![
            Kind::make_variant("idle", 0, Kind::make_empty()),
            Kind::make_variant("run", 1, Kind::make_bits(6)),
        ],
        layout,
    );
    let (range, _) = bit_range(kind.clone(), &Path::default().payload("run")).unwrap();
    assert_eq!(range.start, 2);
    assert_eq!(range.end, 8);
    let (range2, _) = bit_range(kind, &Path::default().payload_by_value(1)).unwrap();
    assert_eq!(range2.start, 2);
    assert_eq!(range2.end, 8);
}

#[test]
fn test_path_errors() {
    let kind = base_struct();
    let err = bit_range(kind.clone(), &Path::default().field("b").index(3)).unwrap_err();
    assert_eq!(err, PathError::OutOfBounds);
    let err = bit_range(kind.clone(), &Path::default().field("z")).unwrap_err();
    assert_eq!(err, PathError::FieldNotFound);
    let err = bit_range(kind.clone(), &Path::default().payload("x")).unwrap_err();
    assert_eq!(err, PathError::InvalidOperation);
    let err =
        bit_range(kind.clone(), &Path::default().dynamic(Slot::Register(0))).unwrap_err();
    assert_eq!(err, PathError::UnresolvedDynamicIndex);
    let err = bit_range(kind.clone(), &Path::default().field("a").field("q")).unwrap_err();
    assert_eq!(err, PathError::InvalidOperation);
    let layout = Kind::make_discriminant_layout(
        1,
        DiscriminantAlignment::Lsb,
        DiscriminantType::Unsigned,
    );
    let e = Kind::make_enum("e", vec![Kind::make_variant("v", 0, Kind::make_empty())], layout);
    let err = bit_range(e, &Path::default().payload("w")).unwrap_err();
    assert_eq!(err, PathError::VariantNotFound);
    let err = path_star(&kind, &Path::default().dynamic(Slot::Register(0))).unwrap_err();
    assert_eq!(err, PathError::InvalidOperation);
}

#[test]
fn test_path_helpers() {
    let p = Path::default().field("a").index(1);
    let q = Path::default().field("a");
    assert!(q.is_prefix_of(&p));
    assert!(!p.is_prefix_of(&q));
    let stripped = p.strip_prefix(&q).unwrap();
    assert_eq!(stripped.len(), 1);
    assert!(q.strip_prefix(&p).is_err());
    let joined = q.clone().join(&stripped);
    assert_eq!(joined.len(), 2);
    assert!(joined.is_prefix_of(&p));
    assert!(!joined.is_empty());
    assert!(Path::default().is_empty());
    let d = Path::default().dynamic(Slot::Register(7));
    assert!(d.any_dynamic());
    assert_eq!(d.dynamic_slots(), vec![Slot::Register(7)]);
    let remapped = d.remap_slots(|s| match s {
        Slot::Register(n) => Slot::Register(n + 1),
        other => other,
    });
    assert_eq!(remapped.dynamic_slots(), vec![Slot::Register(8)]);
    let sub = sub_kind(base_struct(), &Path::default().field("a")).unwrap();
    match sub {
        Kind::Bits(w) => assert_eq!(w, 8),
        _ => panic!(),
    }
}
