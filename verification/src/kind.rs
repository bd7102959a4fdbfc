//! Concrete type descriptors for hardware values.
//!
//! A [`Kind`] describes the shape of a statically sized hardware value:
//! a plain bit vector (signed or unsigned), the zero-width empty value,
//! tuples, fixed-length arrays, records and tagged unions.  Every `Kind`
//! has a statically computable width in bits, defined recursively over its
//! structure by [`spec_bits`] and computed by [`Kind::bits`].
//!
//! Contracts about kinds are stated over the mathematical model [`KindV`],
//! reached through the `@` (view) operator.

use vstd::prelude::*;

verus! {

/// Where the discriminant of a tagged union lives within the value.
#[derive(Debug, Clone, Copy, PartialEq, Eq, Structural)]
pub enum DiscriminantAlignment {
    /// Discriminant occupies the lowest bits of the value.
    Lsb,
    /// Discriminant occupies the highest bits of the value.
    Msb,
}

/// Signedness of the discriminant of a tagged union.
#[derive(Debug, Clone, Copy, PartialEq, Eq, Structural)]
pub enum DiscriminantType {
    Signed,
    Unsigned,
}

/// Bit layout of the discriminant of a tagged union.
#[derive(Debug, Clone, Copy, PartialEq, Eq, Structural)]
pub struct DiscriminantLayout {
    pub width: usize,
    pub alignment: DiscriminantAlignment,
    pub ty: DiscriminantType,
}

/// A named field of a record kind.
#[derive(Debug)]
pub struct Field {
    pub name: String,
    pub kind: Kind,
}

/// One variant of a tagged-union kind: name, discriminant value, payload.
#[derive(Debug)]
pub struct Variant {
    pub name: String,
    pub discriminant: i64,
    pub kind: Kind,
}

/// The elements of a tuple kind, in order.
#[derive(Debug)]
pub struct TupleKind {
    pub elements: Vec<Kind>,
}

/// A fixed-length array kind: `size` elements of kind `base`.
#[derive(Debug)]
pub struct ArrayKind {
    pub base: Box<Kind>,
    pub size: usize,
}

/// A record kind: a name and an ordered list of named fields.
#[derive(Debug)]
pub struct StructKind {
    pub name: String,
    pub fields: Vec<Field>,
}

/// A tagged-union kind: a name, an ordered list of variants, and the
/// layout of the discriminant.
#[derive(Debug)]
pub struct EnumKind {
    pub name: String,
    pub variants: Vec<Variant>,
    pub discriminant_layout: DiscriminantLayout,
}

/// The shape of a concrete, statically sized hardware value.
#[derive(Debug)]
pub enum Kind {
    /// The zero-width value.
    Empty,
    /// An unsigned bit vector of the given width.
    Bits(usize),
    /// A signed (two's complement) bit vector of the given width.
    Signed(usize),
    Tuple(TupleKind),
    Array(ArrayKind),
    Struct(StructKind),
    Enum(EnumKind),
}

/// Mathematical model of a [`Field`].
pub struct FieldV {
    pub name: Seq<char>,
    pub kind: KindV,
}

/// Mathematical model of a [`Variant`].
pub struct VariantV {
    pub name: Seq<char>,
    pub discriminant: int,
    pub kind: KindV,
}

/// Mathematical model of a [`Kind`].
pub enum KindV {
    Empty,
    Bits(nat),
    Signed(nat),
    Tuple(Seq<KindV>),
    Array(Box<KindV>, nat),
    Struct(Seq<char>, Seq<FieldV>),
    Enum(Seq<char>, Seq<VariantV>, DiscriminantLayout),
}

/// The model of a kind: names become character sequences, lists become
/// mathematical sequences.
pub open spec fn kind_view(k: Kind) -> KindV
    decreases k,
{
    match k {
        Kind::Empty => KindV::Empty,
        Kind::Bits(w) => KindV::Bits(w as nat),
        Kind::Signed(w) => KindV::Signed(w as nat),
        Kind::Tuple(t) => KindV::Tuple(kinds_view(t.elements@)),
        Kind::Array(a) => KindV::Array(Box::new(kind_view(*a.base)), a.size as nat),
        Kind::Struct(s) => KindV::Struct(s.name@, fields_view(s.fields@)),
        Kind::Enum(e) => KindV::Enum(e.name@, variants_view(e.variants@), e.discriminant_layout),
    }
}

/// Elementwise model of a sequence of kinds.
pub open spec fn kinds_view(s: Seq<Kind>) -> Seq<KindV>
    decreases s,
{
    if s.len() == 0 {
        Seq::empty()
    } else {
        kinds_view(s.drop_last()).push(kind_view(s.last()))
    }
}

/// Elementwise model of a sequence of fields.
pub open spec fn fields_view(s: Seq<Field>) -> Seq<FieldV>
    decreases s,
{
    if s.len() == 0 {
        Seq::empty()
    } else {
        fields_view(s.drop_last()).push(
            FieldV { name: s.last().name@, kind: kind_view(s.last().kind) },
        )
    }
}

/// Elementwise model of a sequence of variants.
pub open spec fn variants_view(s: Seq<Variant>) -> Seq<VariantV>
    decreases s,
{
    if s.len() == 0 {
        Seq::empty()
    } else {
        variants_view(s.drop_last()).push(
            VariantV {
                name: s.last().name@,
                discriminant: s.last().discriminant as int,
                kind: kind_view(s.last().kind),
            },
        )
    }
}

/// The model of a kind sequence has the same length.
pub broadcast proof fn lemma_kinds_view_len(s: Seq<Kind>)
    ensures
        #[trigger] kinds_view(s).len() == s.len(),
    decreases s,
{
    if s.len() > 0 {
        lemma_kinds_view_len(s.drop_last());
    }
}

/// The model of a kind sequence is the model taken elementwise.
pub broadcast proof fn lemma_kinds_view_index(s: Seq<Kind>, i: int)
    requires
        0 <= i < s.len(),
    ensures
        kinds_view(s).len() == s.len(),
        #[trigger] kinds_view(s)[i] == kind_view(s[i]),
    decreases s,
{
    lemma_kinds_view_len(s);
    if i < s.len() - 1 {
        lemma_kinds_view_index(s.drop_last(), i);
    }
}

/// The model of a field sequence has the same length.
pub broadcast proof fn lemma_fields_view_len(s: Seq<Field>)
    ensures
        #[trigger] fields_view(s).len() == s.len(),
    decreases s,
{
    if s.len() > 0 {
        lemma_fields_view_len(s.drop_last());
    }
}

/// The model of a field sequence is the model taken elementwise.
pub broadcast proof fn lemma_fields_view_index(s: Seq<Field>, i: int)
    requires
        0 <= i < s.len(),
    ensures
        fields_view(s).len() == s.len(),
        #[trigger] fields_view(s)[i] == s[i]@,
    decreases s,
{
    lemma_fields_view_len(s);
    if i < s.len() - 1 {
        lemma_fields_view_index(s.drop_last(), i);
    }
}

/// The model of a variant sequence has the same length.
pub broadcast proof fn lemma_variants_view_len(s: Seq<Variant>)
    ensures
        #[trigger] variants_view(s).len() == s.len(),
    decreases s,
{
    if s.len() > 0 {
        lemma_variants_view_len(s.drop_last());
    }
}

/// The model of a variant sequence is the model taken elementwise.
pub broadcast proof fn lemma_variants_view_index(s: Seq<Variant>, i: int)
    requires
        0 <= i < s.len(),
    ensures
        variants_view(s).len() == s.len(),
        #[trigger] variants_view(s)[i] == s[i]@,
    decreases s,
{
    lemma_variants_view_len(s);
    if i < s.len() - 1 {
        lemma_variants_view_index(s.drop_last(), i);
    }
}

/// The lemmas that let the sequence models be read elementwise.
pub broadcast group group_kind_views {
    lemma_kinds_view_len,
    lemma_kinds_view_index,
    lemma_fields_view_len,
    lemma_fields_view_index,
    lemma_variants_view_len,
    lemma_variants_view_index,
}

impl View for Kind {
    type V = KindV;

    open spec fn view(&self) -> KindV {
        kind_view(*self)
    }
}

impl View for Field {
    type V = FieldV;

    open spec fn view(&self) -> FieldV {
        FieldV { name: self.name@, kind: kind_view(self.kind) }
    }
}

impl View for Variant {
    type V = VariantV;

    open spec fn view(&self) -> VariantV {
        VariantV {
            name: self.name@,
            discriminant: self.discriminant as int,
            kind: kind_view(self.kind),
        }
    }
}

/// Width in bits of a kind: the recursive sum/product over its structure.
///
/// Arrays contribute `size` times the element width, tuples and records the
/// sum of their member widths, and a tagged union the discriminant width
/// plus the width of its widest payload.
pub open spec fn spec_bits(k: KindV) -> nat
    decreases k,
{
    match k {
        KindV::Empty => 0,
        KindV::Bits(w) => w,
        KindV::Signed(w) => w,
        KindV::Tuple(elements) => spec_bits_sum(elements),
        KindV::Array(base, size) => size * spec_bits(*base),
        KindV::Struct(_, fields) => spec_bits_fields(fields),
        KindV::Enum(_, variants, layout) => (layout.width + spec_max_payload(variants)) as nat,
    }
}

/// Sum of the widths of a sequence of kinds.
pub open spec fn spec_bits_sum(s: Seq<KindV>) -> nat
    decreases s,
{
    if s.len() == 0 {
        0
    } else {
        spec_bits_sum(s.drop_last()) + spec_bits(s.last())
    }
}

/// Sum of the widths of a sequence of named fields.
pub open spec fn spec_bits_fields(s: Seq<FieldV>) -> nat
    decreases s,
{
    if s.len() == 0 {
        0
    } else {
        spec_bits_fields(s.drop_last()) + spec_bits(s.last().kind)
    }
}

/// Width of the widest payload among a sequence of variants.
pub open spec fn spec_max_payload(s: Seq<VariantV>) -> nat
    decreases s,
{
    if s.len() == 0 {
        0
    } else {
        let rest = spec_max_payload(s.drop_last());
        let last = spec_bits(s.last().kind);
        if last > rest {
            last
        } else {
            rest
        }
    }
}

/// A kind is well formed when its width, and the width of every kind nested
/// inside it, fits in a machine word.
pub open spec fn kind_wf(k: KindV) -> bool
    decreases k,
{
    &&& spec_bits(k) <= usize::MAX
    &&& match k {
        KindV::Empty => true,
        KindV::Bits(_) => true,
        KindV::Signed(_) => true,
        KindV::Tuple(elements) => forall|i: int|
            0 <= i < elements.len() ==> kind_wf(#[trigger] elements[i]),
        KindV::Array(base, _) => kind_wf(*base),
        KindV::Struct(_, fields) => forall|i: int|
            0 <= i < fields.len() ==> kind_wf(#[trigger] fields[i].kind),
        KindV::Enum(_, variants, _) => forall|i: int|
            0 <= i < variants.len() ==> kind_wf(#[trigger] variants[i].kind),
    }
}

/// A prefix sum of kind widths never exceeds the total sum.
pub proof fn lemma_bits_sum_take(s: Seq<KindV>, i: int)
    requires
        0 <= i <= s.len(),
    ensures
        spec_bits_sum(s.take(i)) <= spec_bits_sum(s),
    decreases s.len() - i,
{
    if i == s.len() {
        assert(s.take(i) =~= s);
    } else {
        lemma_bits_sum_take(s, i + 1);
        assert(s.take(i + 1).drop_last() =~= s.take(i));
        assert(spec_bits_sum(s.take(i)) <= spec_bits_sum(s.take(i + 1)));
    }
}

/// Adding one more kind to a prefix adds exactly its width to the prefix sum.
pub proof fn lemma_bits_sum_take_succ(s: Seq<KindV>, i: int)
    requires
        0 <= i < s.len(),
    ensures
        spec_bits_sum(s.take(i + 1)) == spec_bits_sum(s.take(i)) + spec_bits(s[i]),
{
    assert(s.take(i + 1).drop_last() =~= s.take(i));
    assert(s.take(i + 1).last() == s[i]);
}

/// A prefix sum of field widths never exceeds the total sum.
pub proof fn lemma_bits_fields_take(s: Seq<FieldV>, i: int)
    requires
        0 <= i <= s.len(),
    ensures
        spec_bits_fields(s.take(i)) <= spec_bits_fields(s),
    decreases s.len() - i,
{
    if i == s.len() {
        assert(s.take(i) =~= s);
    } else {
        lemma_bits_fields_take(s, i + 1);
        assert(s.take(i + 1).drop_last() =~= s.take(i));
        assert(spec_bits_fields(s.take(i)) <= spec_bits_fields(s.take(i + 1)));
    }
}

/// Adding one more field to a prefix adds exactly its width to the prefix sum.
pub proof fn lemma_bits_fields_take_succ(s: Seq<FieldV>, i: int)
    requires
        0 <= i < s.len(),
    ensures
        spec_bits_fields(s.take(i + 1)) == spec_bits_fields(s.take(i)) + spec_bits(s[i].kind),
{
    assert(s.take(i + 1).drop_last() =~= s.take(i));
    assert(s.take(i + 1).last() == s[i]);
}

/// Every variant's payload width is bounded by the maximum payload width.
pub proof fn lemma_max_payload_bound(s: Seq<VariantV>, i: int)
    requires
        0 <= i < s.len(),
    ensures
        spec_bits(s[i].kind) <= spec_max_payload(s),
    decreases s.len(),
{
    if i == s.len() - 1 {
        assert(s.last() == s[i]);
    } else {
        lemma_max_payload_bound(s.drop_last(), i);
        assert(s.drop_last()[i] == s[i]);
    }
}

/// The running maximum over a prefix of variants, extended by one variant.
pub proof fn lemma_max_payload_take_succ(s: Seq<VariantV>, i: int)
    requires
        0 <= i < s.len(),
    ensures
        spec_max_payload(s.take(i + 1)) == if spec_bits(s[i].kind) > spec_max_payload(s.take(i)) {
            spec_bits(s[i].kind)
        } else {
            spec_max_payload(s.take(i))
        },
{
    assert(s.take(i + 1).drop_last() =~= s.take(i));
    assert(s.take(i + 1).last() == s[i]);
}

impl Clone for Field {
    fn clone(&self) -> (r: Self)
        ensures
            r@ == self@,
        decreases *self,
    {
        Field { name: self.name.clone(), kind: self.kind.clone() }
    }
}

impl Clone for Variant {
    fn clone(&self) -> (r: Self)
        ensures
            r@ == self@,
        decreases *self,
    {
        Variant {
            name: self.name.clone(),
            discriminant: self.discriminant,
            kind: self.kind.clone(),
        }
    }
}

impl Clone for Kind {
    fn clone(&self) -> (r: Self)
        ensures
            r@ == self@,
        decreases *self,
    {
        match self {
            Kind::Empty => Kind::Empty,
            Kind::Bits(w) => Kind::Bits(*w),
            Kind::Signed(w) => Kind::Signed(*w),
            Kind::Tuple(t) => {
                let mut elements: Vec<Kind> = Vec::new();
                let mut i: usize = 0;
                while i < t.elements.len()
                    invariant
                        i <= t.elements.len(),
                        elements@.len() == i,
                        forall|j: int| 0 <= j < i ==> #[trigger] elements@[j]@ == t.elements@[j]@,
                        *self matches Kind::Tuple(tt) && tt == t,
                    decreases t.elements.len() - i,
                {
                    elements.push(t.elements[i].clone());
                    i = i + 1;
                }
                let r = Kind::Tuple(TupleKind { elements });
                proof {
                    lemma_kinds_view_len(elements@);
                    lemma_kinds_view_len(t.elements@);
                    assert forall|j: int| 0 <= j < elements@.len() implies kinds_view(elements@)[j]
                        == kinds_view(t.elements@)[j] by {
                        lemma_kinds_view_index(elements@, j);
                        lemma_kinds_view_index(t.elements@, j);
                        assert(elements@[j]@ == kind_view(elements@[j]));
                        assert(t.elements@[j]@ == kind_view(t.elements@[j]));
                    }
                    assert(kinds_view(elements@) =~= kinds_view(t.elements@));
                }
                r
            },
            Kind::Array(a) => {
                Kind::Array(ArrayKind { base: Box::new((*a.base).clone()), size: a.size })
            },
            Kind::Struct(s) => {
                let mut fields: Vec<Field> = Vec::new();
                let mut i: usize = 0;
                while i < s.fields.len()
                    invariant
                        i <= s.fields.len(),
                        fields@.len() == i,
                        forall|j: int| 0 <= j < i ==> #[trigger] fields@[j]@ == s.fields@[j]@,
                        *self matches Kind::Struct(ss) && ss == s,
                    decreases s.fields.len() - i,
                {
                    fields.push(s.fields[i].clone());
                    i = i + 1;
                }
                let r = Kind::Struct(StructKind { name: s.name.clone(), fields });
                proof {
                    lemma_fields_view_len(fields@);
                    lemma_fields_view_len(s.fields@);
                    assert forall|j: int| 0 <= j < fields@.len() implies fields_view(fields@)[j]
                        == fields_view(s.fields@)[j] by {
                        lemma_fields_view_index(fields@, j);
                        lemma_fields_view_index(s.fields@, j);
                        assert(fields@[j]@ == fields_view(fields@)[j]);
                        assert(s.fields@[j]@ == fields_view(s.fields@)[j]);
                    }
                    assert(fields_view(fields@) =~= fields_view(s.fields@));
                }
                r
            },
            Kind::Enum(e) => {
                let mut variants: Vec<Variant> = Vec::new();
                let mut i: usize = 0;
                while i < e.variants.len()
                    invariant
                        i <= e.variants.len(),
                        variants@.len() == i,
                        forall|j: int| 0 <= j < i ==> #[trigger] variants@[j]@ == e.variants@[j]@,
                        *self matches Kind::Enum(ee) && ee == e,
                    decreases e.variants.len() - i,
                {
                    variants.push(e.variants[i].clone());
                    i = i + 1;
                }
                let r = Kind::Enum(EnumKind {
                    name: e.name.clone(),
                    variants,
                    discriminant_layout: e.discriminant_layout,
                });
                proof {
                    lemma_variants_view_len(variants@);
                    lemma_variants_view_len(e.variants@);
                    assert forall|j: int| 0 <= j < variants@.len() implies variants_view(
                        variants@,
                    )[j] == variants_view(e.variants@)[j] by {
                        lemma_variants_view_index(variants@, j);
                        lemma_variants_view_index(e.variants@, j);
                        assert(variants@[j]@ == variants_view(variants@)[j]);
                        assert(e.variants@[j]@ == variants_view(e.variants@)[j]);
                    }
                    assert(variants_view(variants@) =~= variants_view(e.variants@));
                }
                r
            },
        }
    }
}

impl Kind {
    /// Width of this kind in bits, per [`spec_bits`].
    pub fn bits(&self) -> (r: usize)
        requires
            kind_wf(self@),
        ensures
            r == spec_bits(self@),
        decreases *self,
    {
        match self {
            Kind::Empty => 0,
            Kind::Bits(w) => *w,
            Kind::Signed(w) => *w,
            Kind::Tuple(t) => {
                let ghost vs = self@->Tuple_0;
                proof {
                    lemma_kinds_view_len(t.elements@);
                    assert forall|j: int| 0 <= j < vs.len() implies vs[j] == kind_view(
                        t.elements@[j],
                    ) by {
                        lemma_kinds_view_index(t.elements@, j);
                    }
                }
                let mut acc: usize = 0;
                let mut i: usize = 0;
                while i < t.elements.len()
                    invariant
                        i <= t.elements.len(),
                        kind_wf(self@),
                        *self matches Kind::Tuple(tt) && tt == t,
                        vs == self@->Tuple_0,
                        vs.len() == t.elements@.len(),
                        forall|j: int|
                            0 <= j < vs.len() ==> vs[j] == kind_view(#[trigger] t.elements@[j]),
                        acc == spec_bits_sum(vs.take(i as int)),
                    decreases t.elements.len() - i,
                {
                    proof {
                        lemma_bits_sum_take_succ(vs, i as int);
                        lemma_bits_sum_take(vs, i + 1);
                    }
                    acc = acc + t.elements[i].bits();
                    i = i + 1;
                }
                proof {
                    assert(vs.take(i as int) =~= vs);
                }
                acc
            },
            Kind::Array(a) => {
                let elem = a.base.bits();
                proof {
                    assert(spec_bits(self@) == (a.size as nat) * spec_bits(a.base@));
                }
                a.size * elem
            },
            Kind::Struct(s) => {
                let ghost vs = self@->Struct_1;
                proof {
                    lemma_fields_view_len(s.fields@);
                    assert forall|j: int| 0 <= j < vs.len() implies vs[j].kind == kind_view(
                        s.fields@[j].kind,
                    ) by {
                        lemma_fields_view_index(s.fields@, j);
                    }
                }
                let mut acc: usize = 0;
                let mut i: usize = 0;
                while i < s.fields.len()
                    invariant
                        i <= s.fields.len(),
                        kind_wf(self@),
                        *self matches Kind::Struct(ss) && ss == s,
                        vs == self@->Struct_1,
                        vs.len() == s.fields@.len(),
                        forall|j: int|
                            0 <= j < vs.len() ==> vs[j].kind == kind_view(
                                #[trigger] s.fields@[j].kind,
                            ),
                        acc == spec_bits_fields(vs.take(i as int)),
                    decreases s.fields.len() - i,
                {
                    proof {
                        lemma_bits_fields_take_succ(vs, i as int);
                        lemma_bits_fields_take(vs, i + 1);
                    }
                    acc = acc + s.fields[i].kind.bits();
                    i = i + 1;
                }
                proof {
                    assert(vs.take(i as int) =~= vs);
                }
                acc
            },
            Kind::Enum(e) => {
                let ghost vs = self@->Enum_1;
                proof {
                    lemma_variants_view_len(e.variants@);
                    assert forall|j: int| 0 <= j < vs.len() implies vs[j].kind == kind_view(
                        e.variants@[j].kind,
                    ) by {
                        lemma_variants_view_index(e.variants@, j);
                    }
                }
                let mut acc: usize = 0;
                let mut i: usize = 0;
                while i < e.variants.len()
                    invariant
                        i <= e.variants.len(),
                        kind_wf(self@),
                        *self matches Kind::Enum(ee) && ee == e,
                        vs == self@->Enum_1,
                        vs.len() == e.variants@.len(),
                        forall|j: int|
                            0 <= j < vs.len() ==> vs[j].kind == kind_view(
                                #[trigger] e.variants@[j].kind,
                            ),
                        acc == spec_max_payload(vs.take(i as int)),
                        acc <= spec_max_payload(vs),
                    decreases e.variants.len() - i,
                {
                    proof {
                        lemma_max_payload_take_succ(vs, i as int);
                        lemma_max_payload_bound(vs, i as int);
                    }
                    let w = e.variants[i].kind.bits();
                    if w > acc {
                        acc = w;
                    }
                    i = i + 1;
                }
                proof {
                    assert(vs.take(i as int) =~= vs);
                }
                e.discriminant_layout.width + acc
            },
        }
    }

    /// An unsigned bit-vector kind of the given width.
    pub fn make_bits(width: usize) -> (r: Kind)
        ensures
            r@ == KindV::Bits(width as nat),
    {
        Kind::Bits(width)
    }

    /// A signed bit-vector kind of the given width.
    pub fn make_signed(width: usize) -> (r: Kind)
        ensures
            r@ == KindV::Signed(width as nat),
    {
        Kind::Signed(width)
    }

    /// The zero-width kind.
    pub fn make_empty() -> (r: Kind)
        ensures
            r@ == KindV::Empty,
    {
        Kind::Empty
    }

    /// A single-bit unsigned kind, used for conditions.
    pub fn make_bool() -> (r: Kind)
        ensures
            r@ == KindV::Bits(1),
    {
        Kind::Bits(1)
    }

    /// A tuple kind over the given element kinds.
    pub fn make_tuple(elements: Vec<Kind>) -> (r: Kind)
        ensures
            r@ matches KindV::Tuple(es) && es.len() == elements@.len() && forall|i: int|
                0 <= i < es.len() ==> es[i] == #[trigger] elements@[i]@,
    {
        proof {
            lemma_kinds_view_len(elements@);
            assert forall|i: int| 0 <= i < elements@.len() implies kinds_view(elements@)[i]
                == elements@[i]@ by {
                lemma_kinds_view_index(elements@, i);
            }
        }
        Kind::Tuple(TupleKind { elements })
    }

    /// An array kind of `size` elements of kind `base`.
    pub fn make_array(base: Kind, size: usize) -> (r: Kind)
        ensures
            r@ == KindV::Array(Box::new(base@), size as nat),
    {
        Kind::Array(ArrayKind { base: Box::new(base), size })
    }

    /// A named field for a record kind.
    pub fn make_field(name: &str, kind: Kind) -> (r: Field)
        ensures
            r@ == (FieldV { name: name@, kind: kind@ }),
    {
        Field { name: name.to_owned(), kind }
    }

    /// A record kind with the given name and fields.
    pub fn make_struct(name: &str, fields: Vec<Field>) -> (r: Kind)
        ensures
            r@ matches KindV::Struct(n, fs) && n == name@ && fs.len() == fields@.len() && forall|
                i: int,
            | 0 <= i < fs.len() ==> fs[i] == #[trigger] fields@[i]@,
    {
        proof {
            lemma_fields_view_len(fields@);
            assert forall|i: int| 0 <= i < fields@.len() implies fields_view(fields@)[i]
                == fields@[i]@ by {
                lemma_fields_view_index(fields@, i);
            }
        }
        Kind::Struct(StructKind { name: name.to_owned(), fields })
    }

    /// A variant for a tagged-union kind.
    pub fn make_variant(name: &str, discriminant: i64, kind: Kind) -> (r: Variant)
        ensures
            r@ == (VariantV { name: name@, discriminant: discriminant as int, kind: kind@ }),
    {
        Variant { name: name.to_owned(), discriminant, kind }
    }

    /// A discriminant layout for a tagged-union kind.
    pub fn make_discriminant_layout(
        width: usize,
        alignment: DiscriminantAlignment,
        ty: DiscriminantType,
    ) -> (r: DiscriminantLayout)
        ensures
            r == (DiscriminantLayout { width, alignment, ty }),
    {
        DiscriminantLayout { width, alignment, ty }
    }

    /// A tagged-union kind with the given name, variants, and layout.
    pub fn make_enum(
        name: &str,
        variants: Vec<Variant>,
        discriminant_layout: DiscriminantLayout,
    ) -> (r: Kind)
        ensures
            r@ matches KindV::Enum(n, vs, l) && n == name@ && l == discriminant_layout && vs.len()
                == variants@.len() && forall|i: int|
                0 <= i < vs.len() ==> vs[i] == #[trigger] variants@[i]@,
    {
        proof {
            lemma_variants_view_len(variants@);
            assert forall|i: int| 0 <= i < variants@.len() implies variants_view(variants@)[i]
                == variants@[i]@ by {
                lemma_variants_view_index(variants@, i);
            }
        }
        Kind::Enum(EnumKind { name: name.to_owned(), variants, discriminant_layout })
    }
}

/// Structural equality of two kinds, compared by model.
pub fn kind_eq(a: &Kind, b: &Kind) -> (r: bool)
    ensures
        r == (a@ == b@),
    decreases *a,
{
    match (a, b) {
        (Kind::Empty, Kind::Empty) => true,
        (Kind::Bits(x), Kind::Bits(y)) => x == y,
        (Kind::Signed(x), Kind::Signed(y)) => x == y,
        (Kind::Tuple(x), Kind::Tuple(y)) => {
            let ghost xs = a@->Tuple_0;
            let ghost ys = b@->Tuple_0;
            proof {
                lemma_kinds_view_len(x.elements@);
                lemma_kinds_view_len(y.elements@);
            }
            if x.elements.len() != y.elements.len() {
                return false;
            }
            let mut i: usize = 0;
            while i < x.elements.len()
                invariant
                    i <= x.elements@.len(),
                    x.elements@.len() == y.elements@.len(),
                    xs == a@->Tuple_0,
                    ys == b@->Tuple_0,
                    xs.len() == x.elements@.len(),
                    ys.len() == y.elements@.len(),
                    *a matches Kind::Tuple(xx) && xx == x,
                    *b matches Kind::Tuple(yy) && yy == y,
                    forall|j: int| 0 <= j < i ==> #[trigger] xs[j] == ys[j],
                decreases x.elements.len() - i,
            {
                proof {
                    lemma_kinds_view_index(x.elements@, i as int);
                    lemma_kinds_view_index(y.elements@, i as int);
                }
                if !kind_eq(&x.elements[i], &y.elements[i]) {
                    proof {
                        assert(xs[i as int] != ys[i as int]);
                    }
                    return false;
                }
                i = i + 1;
            }
            proof {
                assert(xs =~= ys);
            }
            true
        },
        (Kind::Array(x), Kind::Array(y)) => x.size == y.size && kind_eq(&x.base, &y.base),
        (Kind::Struct(x), Kind::Struct(y)) => {
            let ghost xs = a@->Struct_1;
            let ghost ys = b@->Struct_1;
            proof {
                lemma_fields_view_len(x.fields@);
                lemma_fields_view_len(y.fields@);
            }
            if !(x.name == y.name) {
                return false;
            }
            if x.fields.len() != y.fields.len() {
                return false;
            }
            let mut i: usize = 0;
            while i < x.fields.len()
                invariant
                    i <= x.fields@.len(),
                    x.fields@.len() == y.fields@.len(),
                    xs == a@->Struct_1,
                    ys == b@->Struct_1,
                    xs.len() == x.fields@.len(),
                    ys.len() == y.fields@.len(),
                    *a matches Kind::Struct(xx) && xx == x,
                    *b matches Kind::Struct(yy) && yy == y,
                    forall|j: int| 0 <= j < i ==> #[trigger] xs[j] == ys[j],
                decreases x.fields.len() - i,
            {
                proof {
                    lemma_fields_view_index(x.fields@, i as int);
                    lemma_fields_view_index(y.fields@, i as int);
                }
                if !(x.fields[i].name == y.fields[i].name) {
                    proof {
                        assert(xs[i as int] != ys[i as int]);
                    }
                    return false;
                }
                if !kind_eq(&x.fields[i].kind, &y.fields[i].kind) {
                    proof {
                        assert(xs[i as int] != ys[i as int]);
                    }
                    return false;
                }
                i = i + 1;
            }
            proof {
                assert(xs =~= ys);
            }
            true
        },
        (Kind::Enum(x), Kind::Enum(y)) => {
            let ghost xs = a@->Enum_1;
            let ghost ys = b@->Enum_1;
            proof {
                lemma_variants_view_len(x.variants@);
                lemma_variants_view_len(y.variants@);
            }
            if !(x.name == y.name) {
                return false;
            }
            if !(x.discriminant_layout.width == y.discriminant_layout.width
                && x.discriminant_layout.alignment == y.discriminant_layout.alignment
                && x.discriminant_layout.ty == y.discriminant_layout.ty) {
                return false;
            }
            if x.variants.len() != y.variants.len() {
                return false;
            }
            let mut i: usize = 0;
            while i < x.variants.len()
                invariant
                    i <= x.variants@.len(),
                    x.variants@.len() == y.variants@.len(),
                    xs == a@->Enum_1,
                    ys == b@->Enum_1,
                    xs.len() == x.variants@.len(),
                    ys.len() == y.variants@.len(),
                    *a matches Kind::Enum(xx) && xx == x,
                    *b matches Kind::Enum(yy) && yy == y,
                    forall|j: int| 0 <= j < i ==> #[trigger] xs[j] == ys[j],
                decreases x.variants.len() - i,
            {
                proof {
                    lemma_variants_view_index(x.variants@, i as int);
                    lemma_variants_view_index(y.variants@, i as int);
                }
                if !(x.variants[i].name == y.variants[i].name) {
                    proof {
                        assert(xs[i as int] != ys[i as int]);
                    }
                    return false;
                }
                if x.variants[i].discriminant != y.variants[i].discriminant {
                    proof {
                        assert(xs[i as int] != ys[i as int]);
                    }
                    return false;
                }
                if !kind_eq(&x.variants[i].kind, &y.variants[i].kind) {
                    proof {
                        assert(xs[i as int] != ys[i as int]);
                    }
                    return false;
                }
                i = i + 1;
            }
            proof {
                assert(xs =~= ys);
            }
            true
        },
        _ => false,
    }
}

/// Width of a kind with overflow detection: `Some` exactly on well-formed
/// kinds, with the width.
pub fn bits_checked(k: &Kind) -> (r: Option<usize>)
    ensures
        (match r {
            Some(w) => kind_wf(k@) && w == spec_bits(k@),
            None => !kind_wf(k@),
        }),
    decreases *k,
{
    match k {
        Kind::Empty => Some(0),
        Kind::Bits(w) => Some(*w),
        Kind::Signed(w) => Some(*w),
        Kind::Tuple(t) => {
            let ghost vs = k@->Tuple_0;
            proof {
                lemma_kinds_view_len(t.elements@);
                assert forall|j: int| 0 <= j < vs.len() implies #[trigger] vs[j]
                    == t.elements@[j]@ by {
                    lemma_kinds_view_index(t.elements@, j);
                }
            }
            let mut acc: usize = 0;
            let mut i: usize = 0;
            while i < t.elements.len()
                invariant
                    i <= t.elements@.len(),
                    vs == k@->Tuple_0,
                    vs.len() == t.elements@.len(),
                    forall|j: int| 0 <= j < vs.len() ==> #[trigger] vs[j] == t.elements@[j]@,
                    *k matches Kind::Tuple(tt) && tt == t,
                    acc == spec_bits_sum(vs.take(i as int)),
                    forall|j: int| 0 <= j < i ==> kind_wf(#[trigger] vs[j]),
                decreases t.elements.len() - i,
            {
                proof {
                    lemma_bits_sum_take_succ(vs, i as int);
                }
                match bits_checked(&t.elements[i]) {
                    Some(w) => {
                        if acc > usize::MAX - w {
                            proof {
                                lemma_bits_sum_take(vs, i + 1);
                                lemma_bits_sum_take_all(vs, i + 1);
                            }
                            return None;
                        }
                        acc = acc + w;
                    },
                    None => {
                        return None;
                    },
                }
                i = i + 1;
            }
            proof {
                assert(vs.take(i as int) =~= vs);
            }
            Some(acc)
        },
        Kind::Array(a) => {
            match bits_checked(&a.base) {
                Some(w) => {
                    if w == 0 {
                        Some(0)
                    } else if a.size <= usize::MAX / w {
                        proof {
                            let sz = a.size as int;
                            let ww = w as int;
                            let mx = usize::MAX as int;
                            assert(sz * ww <= (mx / ww) * ww) by (nonlinear_arith)
                                requires
                                    sz <= mx / ww,
                                    ww > 0,
                            ;
                            assert((mx / ww) * ww <= mx) by (nonlinear_arith)
                                requires
                                    ww > 0,
                                    mx >= 0,
                            ;
                        }
                        Some(a.size * w)
                    } else {
                        proof {
                            let sz = a.size as int;
                            let ww = w as int;
                            let mx = usize::MAX as int;
                            assert(sz * ww > mx) by (nonlinear_arith)
                                requires
                                    sz > mx / ww,
                                    ww > 0,
                                    mx >= 0,
                            ;
                        }
                        None
                    }
                },
                None => None,
            }
        },
        Kind::Struct(st) => {
            let ghost vs = k@->Struct_1;
            proof {
                lemma_fields_view_len(st.fields@);
                assert forall|j: int| 0 <= j < vs.len() implies #[trigger] vs[j]
                    == st.fields@[j]@ by {
                    lemma_fields_view_index(st.fields@, j);
                }
            }
            let mut acc: usize = 0;
            let mut i: usize = 0;
            while i < st.fields.len()
                invariant
                    i <= st.fields@.len(),
                    vs == k@->Struct_1,
                    vs.len() == st.fields@.len(),
                    forall|j: int| 0 <= j < vs.len() ==> #[trigger] vs[j] == st.fields@[j]@,
                    *k matches Kind::Struct(ss) && ss == st,
                    acc == spec_bits_fields(vs.take(i as int)),
                    forall|j: int| 0 <= j < i ==> kind_wf((#[trigger] vs[j]).kind),
                decreases st.fields.len() - i,
            {
                proof {
                    lemma_bits_fields_take_succ(vs, i as int);
                }
                match bits_checked(&st.fields[i].kind) {
                    Some(w) => {
                        if acc > usize::MAX - w {
                            proof {
                                lemma_bits_fields_take_all(vs, i + 1);
                            }
                            return None;
                        }
                        acc = acc + w;
                    },
                    None => {
                        return None;
                    },
                }
                i = i + 1;
            }
            proof {
                assert(vs.take(i as int) =~= vs);
            }
            Some(acc)
        },
        Kind::Enum(e) => {
            let ghost vs = k@->Enum_1;
            proof {
                lemma_variants_view_len(e.variants@);
                assert forall|j: int| 0 <= j < vs.len() implies #[trigger] vs[j]
                    == e.variants@[j]@ by {
                    lemma_variants_view_index(e.variants@, j);
                }
            }
            let mut acc: usize = 0;
            let mut i: usize = 0;
            while i < e.variants.len()
                invariant
                    i <= e.variants@.len(),
                    vs == k@->Enum_1,
                    vs.len() == e.variants@.len(),
                    forall|j: int| 0 <= j < vs.len() ==> #[trigger] vs[j] == e.variants@[j]@,
                    *k matches Kind::Enum(ee) && ee == e,
                    acc == spec_max_payload(vs.take(i as int)),
                    forall|j: int| 0 <= j < i ==> kind_wf((#[trigger] vs[j]).kind),
                decreases e.variants.len() - i,
            {
                proof {
                    lemma_max_payload_take_succ(vs, i as int);
                }
                match bits_checked(&e.variants[i].kind) {
                    Some(w) => {
                        if w > acc {
                            acc = w;
                        }
                    },
                    None => {
                        return None;
                    },
                }
                i = i + 1;
            }
            proof {
                assert(vs.take(i as int) =~= vs);
            }
            if e.discriminant_layout.width > usize::MAX - acc {
                None
            } else {
                Some(e.discriminant_layout.width + acc)
            }
        },
    }
}

/// A prefix sum that already overflows forces the total sum to overflow.
pub proof fn lemma_bits_sum_take_all(s: Seq<KindV>, i: int)
    requires
        0 <= i <= s.len(),
    ensures
        spec_bits_sum(s) >= spec_bits_sum(s.take(i)),
{
    lemma_bits_sum_take(s, i);
}

/// A prefix sum that already overflows forces the total sum to overflow.
pub proof fn lemma_bits_fields_take_all(s: Seq<FieldV>, i: int)
    requires
        0 <= i <= s.len(),
    ensures
        spec_bits_fields(s) >= spec_bits_fields(s.take(i)),
{
    lemma_bits_fields_take(s, i);
}

} // verus!
