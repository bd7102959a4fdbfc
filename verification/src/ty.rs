//! Inference-time types.
//!
//! A [`Ty`] is the inference-time counterpart of a
//! [`Kind`](crate::kind::Kind): it adds unresolved type variables
//! ([`Ty::Var`]) and references.  Type inference must resolve every
//! variable before lowering proceeds; the completeness check in the
//! compiler enforces that invariant.

use crate::kind::lemma_fields_view_index;
use crate::kind::lemma_fields_view_len;
use crate::kind::lemma_kinds_view_index;
use crate::kind::lemma_kinds_view_len;
use crate::kind::lemma_variants_view_index;
use crate::kind::lemma_variants_view_len;
use crate::kind::Kind;
use crate::kind::KindV;
use vstd::prelude::*;

verus! {

/// Identity of a type variable.
#[derive(Debug, Clone, Copy, PartialEq, Eq, Hash, PartialOrd, Ord, Structural)]
pub struct TypeId(pub usize);

/// The shape of a plain bit-vector type.
#[derive(Debug, Clone, Copy, PartialEq, Eq, Structural)]
pub enum Bits {
    Signed(usize),
    Unsigned(usize),
    Empty,
}

/// A named aggregate type: a record or tagged union, with its fields in
/// declaration order.
#[derive(Debug)]
pub struct TyMap {
    pub name: String,
    pub fields: Vec<(String, Ty)>,
}

/// An inference-time type: a concrete shape, or an unresolved variable.
#[derive(Debug)]
pub enum Ty {
    /// An unresolved type variable.
    Var(TypeId),
    /// A plain bit-vector type.
    Const(Bits),
    /// A reference to another type.
    Ref(Box<Ty>),
    Tuple(Vec<Ty>),
    Array(Vec<Ty>),
    Struct(TyMap),
    Enum(TyMap),
}

/// Mathematical model of a [`Ty`].
pub enum TyV {
    Var(int),
    Const(Bits),
    Ref(Box<TyV>),
    Tuple(Seq<TyV>),
    Array(Seq<TyV>),
    Struct(Seq<char>, Seq<(Seq<char>, TyV)>),
    Enum(Seq<char>, Seq<(Seq<char>, TyV)>),
}

/// The model of an inference-time type.
pub open spec fn ty_view(t: Ty) -> TyV
    decreases t,
{
    match t {
        Ty::Var(id) => TyV::Var(id.0 as int),
        Ty::Const(b) => TyV::Const(b),
        Ty::Ref(inner) => TyV::Ref(Box::new(ty_view(*inner))),
        Ty::Tuple(ts) => TyV::Tuple(tys_view(ts@)),
        Ty::Array(ts) => TyV::Array(tys_view(ts@)),
        Ty::Struct(m) => TyV::Struct(m.name@, ty_fields_view(m.fields@)),
        Ty::Enum(m) => TyV::Enum(m.name@, ty_fields_view(m.fields@)),
    }
}

/// Elementwise model of a sequence of types.
pub open spec fn tys_view(s: Seq<Ty>) -> Seq<TyV>
    decreases s,
{
    if s.len() == 0 {
        Seq::empty()
    } else {
        tys_view(s.drop_last()).push(ty_view(s.last()))
    }
}

/// Elementwise model of named type fields.
pub open spec fn ty_fields_view(s: Seq<(String, Ty)>) -> Seq<(Seq<char>, TyV)>
    decreases s,
{
    if s.len() == 0 {
        Seq::empty()
    } else {
        ty_fields_view(s.drop_last()).push((s.last().0@, ty_view(s.last().1)))
    }
}

impl View for Ty {
    type V = TyV;

    open spec fn view(&self) -> TyV {
        ty_view(*self)
    }
}

/// Whether a type still contains an unresolved variable.
pub open spec fn spec_has_var(t: TyV) -> bool
    decreases t,
{
    match t {
        TyV::Var(_) => true,
        TyV::Const(_) => false,
        TyV::Ref(inner) => spec_has_var(*inner),
        TyV::Tuple(ts) => exists|i: int| 0 <= i < ts.len() && spec_has_var(#[trigger] ts[i]),
        TyV::Array(ts) => exists|i: int| 0 <= i < ts.len() && spec_has_var(#[trigger] ts[i]),
        TyV::Struct(_, fs) => exists|i: int|
            0 <= i < fs.len() && spec_has_var(#[trigger] fs[i].1),
        TyV::Enum(_, fs) => exists|i: int| 0 <= i < fs.len() && spec_has_var(#[trigger] fs[i].1),
    }
}

/// The single-bit boolean type.
pub fn ty_bool() -> (r: Ty)
    ensures
        r@ == TyV::Const(Bits::Unsigned(1)),
{
    Ty::Const(Bits::Unsigned(1))
}

/// The zero-width type.
pub fn ty_empty() -> (r: Ty)
    ensures
        r@ == TyV::Const(Bits::Empty),
{
    Ty::Const(Bits::Empty)
}

/// An unsigned bit-vector type of the given width.
pub fn ty_bits(width: usize) -> (r: Ty)
    ensures
        r@ == TyV::Const(Bits::Unsigned(width)),
{
    Ty::Const(Bits::Unsigned(width))
}

/// A signed bit-vector type of the given width.
pub fn ty_signed(width: usize) -> (r: Ty)
    ensures
        r@ == TyV::Const(Bits::Signed(width)),
{
    Ty::Const(Bits::Signed(width))
}

/// An array type: `len` elements of type `t`.
pub fn ty_array(t: Ty, len: usize) -> (r: Ty)
    ensures
        r@ matches TyV::Array(ts) && ts.len() == len && forall|i: int|
            0 <= i < ts.len() ==> ts[i] == t@,
{
    let ghost tv = t@;
    let mut ts: Vec<Ty> = Vec::new();
    let mut i: usize = 0;
    while i < len
        invariant
            i <= len,
            t@ == tv,
            ts@.len() == i,
            forall|j: int| 0 <= j < i ==> #[trigger] ts@[j]@ == tv,
        decreases len - i,
    {
        ts.push(t.clone());
        i = i + 1;
    }
    let ghost tsv = ts@;
    let r = Ty::Array(ts);
    proof {
        lemma_tys_view_len(tsv);
        assert forall|j: int| 0 <= j < tsv.len() implies #[trigger] tys_view(tsv)[j] == tv by {
            lemma_tys_view_index(tsv, j);
        }
    }
    r
}

/// A tuple type over the given element types.
pub fn ty_tuple(args: Vec<Ty>) -> (r: Ty)
    ensures
        r@ matches TyV::Tuple(ts) && ts.len() == args@.len() && forall|i: int|
            0 <= i < ts.len() ==> ts[i] == #[trigger] args@[i]@,
{
    let ghost argsv = args@;
    let r = Ty::Tuple(args);
    proof {
        lemma_tys_view_len(argsv);
        assert forall|i: int| 0 <= i < argsv.len() implies tys_view(argsv)[i]
            == #[trigger] argsv[i]@ by {
            lemma_tys_view_index(argsv, i);
        }
    }
    r
}

/// A reference to the given type.
pub fn ty_as_ref(t: Ty) -> (r: Ty)
    ensures
        r@ == TyV::Ref(Box::new(t@)),
{
    Ty::Ref(Box::new(t))
}

/// An unresolved type variable with the given identity.
pub fn ty_var(id: usize) -> (r: Ty)
    ensures
        r@ == TyV::Var(id as int),
{
    Ty::Var(TypeId(id))
}

/// The model of a type sequence has the same length.
pub proof fn lemma_tys_view_len(s: Seq<Ty>)
    ensures
        tys_view(s).len() == s.len(),
    decreases s,
{
    if s.len() > 0 {
        lemma_tys_view_len(s.drop_last());
    }
}

/// The model of a type sequence is the model taken elementwise.
pub proof fn lemma_tys_view_index(s: Seq<Ty>, i: int)
    requires
        0 <= i < s.len(),
    ensures
        tys_view(s).len() == s.len(),
        tys_view(s)[i] == s[i]@,
    decreases s,
{
    lemma_tys_view_len(s);
    if i < s.len() - 1 {
        lemma_tys_view_index(s.drop_last(), i);
    }
}

/// The model of a field list has the same length.
pub proof fn lemma_ty_fields_view_len(s: Seq<(String, Ty)>)
    ensures
        ty_fields_view(s).len() == s.len(),
    decreases s,
{
    if s.len() > 0 {
        lemma_ty_fields_view_len(s.drop_last());
    }
}

/// The model of a field list is the model taken elementwise.
pub proof fn lemma_ty_fields_view_index(s: Seq<(String, Ty)>, i: int)
    requires
        0 <= i < s.len(),
    ensures
        ty_fields_view(s).len() == s.len(),
        ty_fields_view(s)[i] == (s[i].0@, s[i].1@),
    decreases s,
{
    lemma_ty_fields_view_len(s);
    if i < s.len() - 1 {
        lemma_ty_fields_view_index(s.drop_last(), i);
    }
}

/// The inference-time type that stands for a concrete kind: bit vectors
/// become constant types, composites map their members, and a tagged union
/// maps each variant name to its payload type.
pub open spec fn spec_ty_from_kind(k: KindV) -> TyV
    decreases k,
{
    match k {
        KindV::Empty => TyV::Const(Bits::Empty),
        KindV::Bits(w) => TyV::Const(Bits::Unsigned(if w <= usize::MAX { w as usize } else { usize::MAX })),
        KindV::Signed(w) => TyV::Const(Bits::Signed(if w <= usize::MAX { w as usize } else { usize::MAX })),
        KindV::Tuple(elements) => TyV::Tuple(tys_from_kinds(elements)),
        KindV::Array(base, size) => {
            let b = spec_ty_from_kind(*base);
            TyV::Array(Seq::new(size, |i: int| b))
        },
        KindV::Struct(name, fields) => TyV::Struct(name, ty_fields_from_fields(fields)),
        KindV::Enum(name, variants, _) => TyV::Enum(name, ty_fields_from_variants(variants)),
    }
}

/// The inference-time types standing for a sequence of kinds.
pub open spec fn tys_from_kinds(s: Seq<KindV>) -> Seq<TyV>
    decreases s,
{
    if s.len() == 0 {
        Seq::empty()
    } else {
        tys_from_kinds(s.drop_last()).push(spec_ty_from_kind(s.last()))
    }
}

/// The inference-time fields standing for a record's fields.
pub open spec fn ty_fields_from_fields(s: Seq<crate::kind::FieldV>) -> Seq<(Seq<char>, TyV)>
    decreases s,
{
    if s.len() == 0 {
        Seq::empty()
    } else {
        ty_fields_from_fields(s.drop_last()).push(
            (s.last().name, spec_ty_from_kind(s.last().kind)),
        )
    }
}

/// The inference-time fields standing for a tagged union's variants.
pub open spec fn ty_fields_from_variants(s: Seq<crate::kind::VariantV>) -> Seq<(Seq<char>, TyV)>
    decreases s,
{
    if s.len() == 0 {
        Seq::empty()
    } else {
        ty_fields_from_variants(s.drop_last()).push(
            (s.last().name, spec_ty_from_kind(s.last().kind)),
        )
    }
}

impl Clone for TyMap {
    fn clone(&self) -> (r: Self)
        ensures
            r.name@ == self.name@,
            ty_fields_view(r.fields@) == ty_fields_view(self.fields@),
        decreases *self,
    {
        let mut fields: Vec<(String, Ty)> = Vec::new();
        let mut i: usize = 0;
        while i < self.fields.len()
            invariant
                i <= self.fields@.len(),
                fields@.len() == i,
                forall|j: int|
                    0 <= j < i ==> #[trigger] fields@[j].0@ == self.fields@[j].0@ && fields@[j].1@
                        == self.fields@[j].1@,
            decreases self.fields.len() - i,
        {
            let name = self.fields[i].0.clone();
            let t = self.fields[i].1.clone();
            fields.push((name, t));
            i = i + 1;
        }
        let r = TyMap { name: self.name.clone(), fields };
        proof {
            lemma_ty_fields_view_len(r.fields@);
            lemma_ty_fields_view_len(self.fields@);
            assert forall|j: int| 0 <= j < r.fields@.len() implies ty_fields_view(r.fields@)[j]
                == ty_fields_view(self.fields@)[j] by {
                lemma_ty_fields_view_index(r.fields@, j);
                lemma_ty_fields_view_index(self.fields@, j);
            }
            assert(ty_fields_view(r.fields@) =~= ty_fields_view(self.fields@));
        }
        r
    }
}

impl Clone for Ty {
    fn clone(&self) -> (r: Self)
        ensures
            r@ == self@,
        decreases *self,
    {
        match self {
            Ty::Var(id) => Ty::Var(*id),
            Ty::Const(b) => Ty::Const(*b),
            Ty::Ref(inner) => Ty::Ref(Box::new((**inner).clone())),
            Ty::Tuple(ts) => {
                let mut v: Vec<Ty> = Vec::new();
                let mut i: usize = 0;
                while i < ts.len()
                    invariant
                        i <= ts@.len(),
                        v@.len() == i,
                        forall|j: int| 0 <= j < i ==> #[trigger] v@[j]@ == ts@[j]@,
                        *self matches Ty::Tuple(tt) && tt == ts,
                    decreases ts.len() - i,
                {
                    v.push(ts[i].clone());
                    i = i + 1;
                }
                let r = Ty::Tuple(v);
                proof {
                    lemma_tys_view_cong(r->Tuple_0@, ts@);
                }
                r
            },
            Ty::Array(ts) => {
                let mut v: Vec<Ty> = Vec::new();
                let mut i: usize = 0;
                while i < ts.len()
                    invariant
                        i <= ts@.len(),
                        v@.len() == i,
                        forall|j: int| 0 <= j < i ==> #[trigger] v@[j]@ == ts@[j]@,
                        *self matches Ty::Array(tt) && tt == ts,
                    decreases ts.len() - i,
                {
                    v.push(ts[i].clone());
                    i = i + 1;
                }
                let r = Ty::Array(v);
                proof {
                    lemma_tys_view_cong(r->Array_0@, ts@);
                }
                r
            },
            Ty::Struct(m) => Ty::Struct(m.clone()),
            Ty::Enum(m) => Ty::Enum(m.clone()),
        }
    }
}

/// Two type lists with elementwise-equal models have equal models.
proof fn lemma_tys_view_cong(a: Seq<Ty>, b: Seq<Ty>)
    requires
        a.len() == b.len(),
        forall|j: int| 0 <= j < a.len() ==> #[trigger] a[j]@ == b[j]@,
    ensures
        tys_view(a) == tys_view(b),
{
    lemma_tys_view_len(a);
    lemma_tys_view_len(b);
    assert forall|j: int| 0 <= j < a.len() implies tys_view(a)[j] == tys_view(b)[j] by {
        lemma_tys_view_index(a, j);
        lemma_tys_view_index(b, j);
    }
    assert(tys_view(a) =~= tys_view(b));
}

/// The model of types-from-kinds sequences, read elementwise.
pub proof fn lemma_tys_from_kinds_index(s: Seq<KindV>, i: int)
    requires
        0 <= i < s.len(),
    ensures
        tys_from_kinds(s).len() == s.len(),
        tys_from_kinds(s)[i] == spec_ty_from_kind(s[i]),
    decreases s,
{
    lemma_tys_from_kinds_len(s);
    if i < s.len() - 1 {
        lemma_tys_from_kinds_index(s.drop_last(), i);
    }
}

/// The model of types-from-kinds sequences has the same length.
pub proof fn lemma_tys_from_kinds_len(s: Seq<KindV>)
    ensures
        tys_from_kinds(s).len() == s.len(),
    decreases s,
{
    if s.len() > 0 {
        lemma_tys_from_kinds_len(s.drop_last());
    }
}

/// The fields-from-fields model, read elementwise.
pub proof fn lemma_ty_fields_from_fields_index(s: Seq<crate::kind::FieldV>, i: int)
    requires
        0 <= i < s.len(),
    ensures
        ty_fields_from_fields(s).len() == s.len(),
        ty_fields_from_fields(s)[i] == (s[i].name, spec_ty_from_kind(s[i].kind)),
    decreases s,
{
    lemma_ty_fields_from_fields_len(s);
    if i < s.len() - 1 {
        lemma_ty_fields_from_fields_index(s.drop_last(), i);
    }
}

/// The fields-from-fields model has the same length.
pub proof fn lemma_ty_fields_from_fields_len(s: Seq<crate::kind::FieldV>)
    ensures
        ty_fields_from_fields(s).len() == s.len(),
    decreases s,
{
    if s.len() > 0 {
        lemma_ty_fields_from_fields_len(s.drop_last());
    }
}

/// The fields-from-variants model, read elementwise.
pub proof fn lemma_ty_fields_from_variants_index(s: Seq<crate::kind::VariantV>, i: int)
    requires
        0 <= i < s.len(),
    ensures
        ty_fields_from_variants(s).len() == s.len(),
        ty_fields_from_variants(s)[i] == (s[i].name, spec_ty_from_kind(s[i].kind)),
    decreases s,
{
    lemma_ty_fields_from_variants_len(s);
    if i < s.len() - 1 {
        lemma_ty_fields_from_variants_index(s.drop_last(), i);
    }
}

/// The fields-from-variants model has the same length.
pub proof fn lemma_ty_fields_from_variants_len(s: Seq<crate::kind::VariantV>)
    ensures
        ty_fields_from_variants(s).len() == s.len(),
    decreases s,
{
    if s.len() > 0 {
        lemma_ty_fields_from_variants_len(s.drop_last());
    }
}

impl Ty {
    /// The inference-time type standing for a concrete kind, per
    /// [`spec_ty_from_kind`].
    pub fn from_kind(value: &Kind) -> (r: Ty)
        ensures
            r@ == spec_ty_from_kind(value@),
        decreases *value,
    {
        match value {
            Kind::Empty => Ty::Const(Bits::Empty),
            Kind::Bits(w) => Ty::Const(Bits::Unsigned(*w)),
            Kind::Signed(w) => Ty::Const(Bits::Signed(*w)),
            Kind::Tuple(t) => {
                let ghost ks = value@->Tuple_0;
                proof {
                    lemma_kinds_view_len(t.elements@);
                    assert forall|j: int| 0 <= j < ks.len() implies #[trigger] ks[j]
                        == t.elements@[j]@ by {
                        lemma_kinds_view_index(t.elements@, j);
                    }
                }
                let mut v: Vec<Ty> = Vec::new();
                let mut i: usize = 0;
                while i < t.elements.len()
                    invariant
                        i <= t.elements@.len(),
                        ks == value@->Tuple_0,
                        ks.len() == t.elements@.len(),
                        forall|j: int| 0 <= j < ks.len() ==> #[trigger] ks[j] == t.elements@[j]@,
                        *value matches Kind::Tuple(tt) && tt == t,
                        v@.len() == i,
                        forall|j: int|
                            0 <= j < i ==> #[trigger] v@[j]@ == spec_ty_from_kind(ks[j]),
                    decreases t.elements.len() - i,
                {
                    v.push(Ty::from_kind(&t.elements[i]));
                    i = i + 1;
                }
                let ghost vv = v@;
                let r = Ty::Tuple(v);
                proof {
                    lemma_tys_view_len(vv);
                    assert forall|j: int| 0 <= j < vv.len() implies tys_view(vv)[j]
                        == tys_from_kinds(ks)[j] by {
                        lemma_tys_view_index(vv, j);
                        lemma_tys_from_kinds_index(ks, j);
                    }
                    lemma_tys_from_kinds_len(ks);
                    assert(tys_view(vv) =~= tys_from_kinds(ks));
                }
                r
            },
            Kind::Array(a) => {
                let base = Ty::from_kind(&a.base);
                let ghost bv = base@;
                let r = crate::ty::ty_array(base, a.size);
                proof {
                    let m = (match value@ {
                        KindV::Array(b, size) => Seq::new(size, |i: int| spec_ty_from_kind(*b)),
                        _ => Seq::empty(),
                    });
                    assert(r@ matches TyV::Array(ts) && ts =~= m);
                }
                r
            },
            Kind::Struct(st) => {
                let ghost fs = value@->Struct_1;
                proof {
                    crate::kind::lemma_fields_view_len(st.fields@);
                    assert forall|j: int| 0 <= j < fs.len() implies #[trigger] fs[j]
                        == st.fields@[j]@ by {
                        crate::kind::lemma_fields_view_index(st.fields@, j);
                    }
                }
                let mut fields: Vec<(String, Ty)> = Vec::new();
                let mut i: usize = 0;
                while i < st.fields.len()
                    invariant
                        i <= st.fields@.len(),
                        fs == value@->Struct_1,
                        fs.len() == st.fields@.len(),
                        forall|j: int| 0 <= j < fs.len() ==> #[trigger] fs[j] == st.fields@[j]@,
                        *value matches Kind::Struct(ss) && ss == st,
                        fields@.len() == i,
                        forall|j: int|
                            0 <= j < i ==> #[trigger] fields@[j].0@ == fs[j].name
                                && fields@[j].1@ == spec_ty_from_kind(fs[j].kind),
                    decreases st.fields.len() - i,
                {
                    let name = st.fields[i].name.clone();
                    let t = Ty::from_kind(&st.fields[i].kind);
                    fields.push((name, t));
                    i = i + 1;
                }
                let ghost fv = fields@;
                let r = Ty::Struct(TyMap { name: st.name.clone(), fields });
                proof {
                    lemma_ty_fields_view_len(fv);
                    lemma_ty_fields_from_fields_len(fs);
                    assert forall|j: int| 0 <= j < fv.len() implies ty_fields_view(fv)[j]
                        == ty_fields_from_fields(fs)[j] by {
                        lemma_ty_fields_view_index(fv, j);
                        lemma_ty_fields_from_fields_index(fs, j);
                    }
                    assert(ty_fields_view(fv) =~= ty_fields_from_fields(fs));
                }
                r
            },
            Kind::Enum(e) => {
                let ghost vs = value@->Enum_1;
                proof {
                    crate::kind::lemma_variants_view_len(e.variants@);
                    assert forall|j: int| 0 <= j < vs.len() implies #[trigger] vs[j]
                        == e.variants@[j]@ by {
                        crate::kind::lemma_variants_view_index(e.variants@, j);
                    }
                }
                let mut fields: Vec<(String, Ty)> = Vec::new();
                let mut i: usize = 0;
                while i < e.variants.len()
                    invariant
                        i <= e.variants@.len(),
                        vs == value@->Enum_1,
                        vs.len() == e.variants@.len(),
                        forall|j: int| 0 <= j < vs.len() ==> #[trigger] vs[j] == e.variants@[j]@,
                        *value matches Kind::Enum(ee) && ee == e,
                        fields@.len() == i,
                        forall|j: int|
                            0 <= j < i ==> #[trigger] fields@[j].0@ == vs[j].name
                                && fields@[j].1@ == spec_ty_from_kind(vs[j].kind),
                    decreases e.variants.len() - i,
                {
                    let name = e.variants[i].name.clone();
                    let t = Ty::from_kind(&e.variants[i].kind);
                    fields.push((name, t));
                    i = i + 1;
                }
                let ghost fv = fields@;
                let r = Ty::Enum(TyMap { name: e.name.clone(), fields });
                proof {
                    lemma_ty_fields_view_len(fv);
                    lemma_ty_fields_from_variants_len(vs);
                    assert forall|j: int| 0 <= j < fv.len() implies ty_fields_view(fv)[j]
                        == ty_fields_from_variants(vs)[j] by {
                        lemma_ty_fields_view_index(fv, j);
                        lemma_ty_fields_from_variants_index(vs, j);
                    }
                    assert(ty_fields_view(fv) =~= ty_fields_from_variants(vs));
                }
                r
            },
        }
    }
}

} // verus!
