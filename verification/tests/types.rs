use rhdl::kind::Kind;
use rhdl::ty::ty_array;
use rhdl::ty::ty_as_ref;
use rhdl::ty::ty_bits;
use rhdl::ty::ty_bool;
use rhdl::ty::ty_empty;
use rhdl::ty::ty_signed;
use rhdl::ty::ty_tuple;
use rhdl::ty::ty_var;
use rhdl::ty::Bits;
use rhdl::ty::Ty;
use rhdl::ty::TypeId;

#[test]
fn test_ty_constructors() {
    assert!(matches!(ty_bool(), Ty::Const(Bits::Unsigned(1))));
    assert!(matches!(ty_empty(), Ty::Const(Bits::Empty)));
    assert!(matches!(ty_bits(8), Ty::Const(Bits::Unsigned(8))));
    assert!(matches!(ty_signed(4), Ty::Const(Bits::Signed(4))));
    assert!(matches!(ty_var(3), Ty::Var(TypeId(3))));
    match ty_array(ty_bits(8), 3) {
        Ty::Array(elems) => assert_eq!(elems.len(), 3),
        _ => panic!(),
    }
    match ty_tuple(vec![ty_bits(8), ty_bool()]) {
        Ty::Tuple(elems) => assert_eq!(elems.len(), 2),
        _ => panic!(),
    }
    assert!(matches!(ty_as_ref(ty_bool()), Ty::Ref(_)));
}

#[test]
fn test_ty_from_kind() {
    let kind = Kind::make_struct(
        "pair",
        vec![
            Kind::make_field("lo", Kind::make_bits(8)),
            Kind::make_field("hi", Kind::make_signed(8)),
        ],
    );
    match Ty::from_kind(&kind) {
        Ty::Struct(map) => {
            assert_eq!(map.name, "pair");
            assert_eq!(map.fields.len(), 2);
            assert_eq!(map.fields[0].0, "lo");
            assert!(matches!(map.fields[0].1, Ty::Const(Bits::Unsigned(8))));
            assert_eq!(map.fields[1].0, "hi");
            assert!(matches!(map.fields[1].1, Ty::Const(Bits::Signed(8))));
        }
        _ => panic!(),
    }
    match Ty::from_kind(&Kind::make_array(Kind::make_bits(4), 5)) {
        Ty::Array(elems) => assert_eq!(elems.len(), 5),
        _ => panic!(),
    }
}
