//! Path / bit-layout engine.
//!
//! A [`Path`] is a symbolic sequence of navigation steps addressing a
//! sub-value within a composite hardware value: array/tuple/struct indexing,
//! field selection, and the discriminant or payload of a tagged union.
//! [`bit_range`] resolves a concrete path against a [`Kind`] to the absolute
//! bit range (and kind) of the addressed sub-value; [`path_star`] expands a
//! path containing runtime-variable indices into the finite set of concrete
//! paths it may denote.

use crate::ast::Member;
use crate::ast::MemberV;
use crate::kind::fields_view;
use crate::kind::kind_wf;
use crate::kind::kinds_view;
use crate::kind::lemma_fields_view_index;
use crate::kind::lemma_fields_view_len;
use crate::kind::lemma_kinds_view_index;
use crate::kind::lemma_kinds_view_len;
use crate::kind::lemma_variants_view_index;
use crate::kind::lemma_variants_view_len;
use crate::kind::variants_view;
use crate::kind::Field;
use crate::kind::Variant;
use crate::kind::lemma_bits_fields_take;
use crate::kind::lemma_bits_fields_take_succ;
use crate::kind::lemma_bits_sum_take;
use crate::kind::lemma_bits_sum_take_succ;
use crate::kind::lemma_max_payload_bound;
use crate::kind::spec_bits;
use crate::kind::spec_bits_fields;
use crate::kind::spec_bits_sum;
use crate::kind::spec_max_payload;
use crate::kind::DiscriminantAlignment;
use crate::kind::DiscriminantType;
use crate::kind::FieldV;
use crate::kind::Kind;
use crate::kind::KindV;
use crate::kind::VariantV;
use crate::rhif::Slot;
use vstd::prelude::*;

verus! {

/// One navigation step of a [`Path`].
#[derive(Debug)]
pub enum PathElement {
    /// Positional index into an array, tuple, or record.
    Index(usize),
    /// Named field of a record.
    Field(String),
    /// The discriminant bits of a tagged union.
    EnumDiscriminant,
    /// The payload of the variant with the given name.
    EnumPayload(String),
    /// The payload of the variant with the given discriminant value.
    EnumPayloadByValue(i64),
    /// An index known only at hardware run time, held in a slot; must be
    /// expanded by [`path_star`] before the path can be resolved.
    DynamicIndex(Slot),
}

/// Mathematical model of a [`PathElement`].
pub enum PathElementV {
    Index(int),
    Field(Seq<char>),
    EnumDiscriminant,
    EnumPayload(Seq<char>),
    EnumPayloadByValue(int),
    DynamicIndex(Slot),
}

impl View for PathElement {
    type V = PathElementV;

    open spec fn view(&self) -> PathElementV {
        match self {
            PathElement::Index(i) => PathElementV::Index(*i as int),
            PathElement::Field(name) => PathElementV::Field(name@),
            PathElement::EnumDiscriminant => PathElementV::EnumDiscriminant,
            PathElement::EnumPayload(name) => PathElementV::EnumPayload(name@),
            PathElement::EnumPayloadByValue(d) => PathElementV::EnumPayloadByValue(*d as int),
            PathElement::DynamicIndex(slot) => PathElementV::DynamicIndex(*slot),
        }
    }
}

/// A sequence of navigation steps addressing a sub-value.
#[derive(Debug)]
pub struct Path {
    pub elements: Vec<PathElement>,
}

impl View for Path {
    type V = Seq<PathElementV>;

    open spec fn view(&self) -> Seq<PathElementV> {
        self.elements@.map_values(|e: PathElement| e@)
    }
}

/// Failures of path resolution, per navigation step.
#[derive(Debug, Clone, Copy, PartialEq, Eq, Structural)]
pub enum PathError {
    /// A positional index exceeded the number of elements or fields.
    OutOfBounds,
    /// A named field was not found in the record.
    FieldNotFound,
    /// No variant with the requested name or discriminant value exists.
    VariantNotFound,
    /// The navigation step does not apply to the kind at hand.
    InvalidOperation,
    /// The path still contains a dynamic index; it must be expanded first.
    UnresolvedDynamicIndex,
}

impl Clone for PathElement {
    fn clone(&self) -> (r: Self)
        ensures
            r@ == self@,
    {
        match self {
            PathElement::Index(i) => PathElement::Index(*i),
            PathElement::Field(name) => PathElement::Field(name.clone()),
            PathElement::EnumDiscriminant => PathElement::EnumDiscriminant,
            PathElement::EnumPayload(name) => PathElement::EnumPayload(name.clone()),
            PathElement::EnumPayloadByValue(d) => PathElement::EnumPayloadByValue(*d),
            PathElement::DynamicIndex(slot) => PathElement::DynamicIndex(*slot),
        }
    }
}

impl Clone for Path {
    fn clone(&self) -> (r: Self)
        ensures
            r@ == self@,
    {
        let mut elements: Vec<PathElement> = Vec::new();
        let mut i: usize = 0;
        while i < self.elements.len()
            invariant
                i <= self.elements.len(),
                elements@.len() == i,
                forall|j: int| 0 <= j < i ==> #[trigger] elements@[j]@ == self.elements@[j]@,
            decreases self.elements.len() - i,
        {
            elements.push(self.elements[i].clone());
            i = i + 1;
        }
        let r = Path { elements };
        proof {
            assert(r@ =~= self@);
        }
        r
    }
}

impl Default for Path {
    /// The empty path, addressing the whole value.
    fn default() -> (r: Self)
        ensures
            r@ == Seq::<PathElementV>::empty(),
    {
        let r = Path { elements: Vec::new() };
        proof {
            assert(r@ =~= Seq::<PathElementV>::empty());
        }
        r
    }
}

/// True when the path contains a dynamic index.
pub open spec fn spec_any_dynamic(p: Seq<PathElementV>) -> bool {
    exists|i: int| 0 <= i < p.len() && p[i] is DynamicIndex
}

/// The slots of the dynamic indices of the path, in order.
pub open spec fn spec_dynamic_slots(p: Seq<PathElementV>) -> Seq<Slot>
    decreases p,
{
    if p.len() == 0 {
        Seq::empty()
    } else {
        let rest = spec_dynamic_slots(p.drop_first());
        match p[0] {
            PathElementV::DynamicIndex(slot) => seq![slot] + rest,
            _ => rest,
        }
    }
}

impl Path {
    /// The elements of the path, for iteration.
    pub fn iter(&self) -> (r: &Vec<PathElement>)
        ensures
            r@.map_values(|e: PathElement| e@) == self@,
    {
        &self.elements
    }

    /// Number of navigation steps in the path.
    pub fn len(&self) -> (r: usize)
        ensures
            r == self@.len(),
    {
        self.elements.len()
    }

    /// True when the path has no steps, i.e. addresses the whole value.
    pub fn is_empty(&self) -> (r: bool)
        ensures
            r == (self@.len() == 0),
    {
        self.elements.is_empty()
    }

    /// The slots of all dynamic indices in the path, in order.
    pub fn dynamic_slots(&self) -> (r: Vec<Slot>)
        ensures
            r@ == spec_dynamic_slots(self@),
    {
        let mut r: Vec<Slot> = Vec::new();
        let n = self.elements.len();
        let mut i: usize = n;
        while i > 0
            invariant
                i <= n,
                n == self@.len(),
                r@ == spec_dynamic_slots(self@.skip(i as int)),
            decreases i,
        {
            i = i - 1;
            match &self.elements[i] {
                PathElement::DynamicIndex(slot) => {
                    r.insert(0, *slot);
                },
                _ => {},
            }
            proof {
                assert(self@.skip(i as int).drop_first() =~= self@.skip(i + 1));
                assert(self@.skip(i as int)[0] == self@[i as int]);
            }
        }
        proof {
            assert(self@.skip(0) =~= self@);
        }
        r
    }

    /// Extends the path by a positional index step.
    pub fn index(self, index: usize) -> (r: Self)
        ensures
            r@ == self@.push(PathElementV::Index(index as int)),
    {
        let ghost old_view = self@;
        let mut s = self;
        s.elements.push(PathElement::Index(index));
        proof {
            assert(s@ =~= old_view.push(PathElementV::Index(index as int)));
        }
        s
    }

    /// Extends the path by a named-field step.
    pub fn field(self, field: &str) -> (r: Self)
        ensures
            r@ == self@.push(PathElementV::Field(field@)),
    {
        let ghost old_view = self@;
        let mut s = self;
        s.elements.push(PathElement::Field(field.to_owned()));
        proof {
            assert(s@ =~= old_view.push(PathElementV::Field(field@)));
        }
        s
    }

    /// Extends the path by a discriminant step.
    pub fn discriminant(self) -> (r: Self)
        ensures
            r@ == self@.push(PathElementV::EnumDiscriminant),
    {
        let ghost old_view = self@;
        let mut s = self;
        s.elements.push(PathElement::EnumDiscriminant);
        proof {
            assert(s@ =~= old_view.push(PathElementV::EnumDiscriminant));
        }
        s
    }

    /// Extends the path by a dynamic-index step over the given slot.
    pub fn dynamic(self, slot: Slot) -> (r: Self)
        ensures
            r@ == self@.push(PathElementV::DynamicIndex(slot)),
    {
        let ghost old_view = self@;
        let mut s = self;
        s.elements.push(PathElement::DynamicIndex(slot));
        proof {
            assert(s@ =~= old_view.push(PathElementV::DynamicIndex(slot)));
        }
        s
    }

    /// Extends the path by a payload-by-name step.
    pub fn payload(self, name: &str) -> (r: Self)
        ensures
            r@ == self@.push(PathElementV::EnumPayload(name@)),
    {
        let ghost old_view = self@;
        let mut s = self;
        s.elements.push(PathElement::EnumPayload(name.to_owned()));
        proof {
            assert(s@ =~= old_view.push(PathElementV::EnumPayload(name@)));
        }
        s
    }

    /// Extends the path by a payload-by-discriminant-value step.
    pub fn payload_by_value(self, discriminant: i64) -> (r: Self)
        ensures
            r@ == self@.push(PathElementV::EnumPayloadByValue(discriminant as int)),
    {
        let ghost old_view = self@;
        let mut s = self;
        s.elements.push(PathElement::EnumPayloadByValue(discriminant));
        proof {
            assert(s@ =~= old_view.push(PathElementV::EnumPayloadByValue(discriminant as int)));
        }
        s
    }

    /// Extends the path by a member step: a field for a named member, a
    /// positional index for an unnamed one.
    pub fn member(self, member: Member) -> (r: Self)
        ensures
            member@ matches MemberV::Named(n) ==> r@ == self@.push(PathElementV::Field(n)),
            member@ matches MemberV::Unnamed(i) ==> r@ == self@.push(PathElementV::Index(i)),
    {
        let ghost old_view = self@;
        let mut s = self;
        match member {
            Member::Named(name) => {
                s.elements.push(PathElement::Field(name));
            },
            Member::Unnamed(i) => {
                s.elements.push(PathElement::Index(i as usize));
            },
        }
        proof {
            assert(s@ =~= old_view.push(s.elements@.last()@));
        }
        s
    }

    /// Rewrites the slot of every dynamic index through `f`, leaving all
    /// other steps unchanged.
    pub fn remap_slots<F: Fn(Slot) -> Slot>(self, f: F) -> (r: Path)
        requires
            forall|s: Slot| #[trigger] call_requires(f, (s,)),
        ensures
            r@.len() == self@.len(),
            forall|i: int|
                0 <= i < self@.len() && !(self@[i] is DynamicIndex) ==> #[trigger] r@[i]
                    == self@[i],
            forall|i: int|
                0 <= i < self@.len() ==> (self@[i] matches PathElementV::DynamicIndex(s) ==> (
                #[trigger] r@[i] matches PathElementV::DynamicIndex(t) && call_ensures(
                    f,
                    (s,),
                    t,
                ))),
    {
        let mut elements: Vec<PathElement> = Vec::new();
        let mut i: usize = 0;
        while i < self.elements.len()
            invariant
                i <= self.elements.len(),
                elements@.len() == i,
                forall|s: Slot| #[trigger] call_requires(f, (s,)),
                forall|j: int|
                    0 <= j < i && !(self@[j] is DynamicIndex) ==> #[trigger] elements@[j]@
                        == self@[j],
                forall|j: int|
                    0 <= j < i ==> (self@[j] matches PathElementV::DynamicIndex(s) ==> (
                    #[trigger] elements@[j]@ matches PathElementV::DynamicIndex(t)
                        && call_ensures(f, (s,), t))),
            decreases self.elements.len() - i,
        {
            match &self.elements[i] {
                PathElement::DynamicIndex(slot) => {
                    let t = f(*slot);
                    elements.push(PathElement::DynamicIndex(t));
                },
                e => {
                    elements.push(e.clone());
                },
            }
            i = i + 1;
        }
        Path { elements }
    }

    /// Concatenates another path onto this one.
    pub fn join(self, other: &Path) -> (r: Self)
        ensures
            r@ == self@ + other@,
    {
        let ghost old_view = self@;
        let mut s = self;
        let mut i: usize = 0;
        while i < other.elements.len()
            invariant
                i <= other.elements.len(),
                other@.len() == other.elements@.len(),
                s@ =~= old_view + other@.take(i as int),
            decreases other.elements.len() - i,
        {
            let ghost pre_view = s@;
            let c = other.elements[i].clone();
            let ghost cv = c@;
            s.elements.push(c);
            proof {
                assert(s@ =~= pre_view.push(cv));
                assert((old_view + other@.take(i as int)).push(other@[i as int]) =~= old_view
                    + other@.take(i + 1));
            }
            i = i + 1;
        }
        proof {
            assert(other@.take(i as int) =~= other@);
            assert(s@ =~= old_view + other@);
        }
        s
    }

    /// True when the path contains a dynamic index.
    pub fn any_dynamic(&self) -> (r: bool)
        ensures
            r == spec_any_dynamic(self@),
    {
        let mut i: usize = 0;
        while i < self.elements.len()
            invariant
                i <= self.elements.len(),
                forall|j: int| 0 <= j < i ==> !(#[trigger] self@[j] is DynamicIndex),
            decreases self.elements.len() - i,
        {
            match &self.elements[i] {
                PathElement::DynamicIndex(_) => {
                    proof {
                        assert(self@[i as int] is DynamicIndex);
                    }
                    return true;
                },
                _ => {},
            }
            i = i + 1;
        }
        false
    }

    /// True when this path is a (not necessarily strict) prefix of `other`.
    pub fn is_prefix_of(&self, other: &Path) -> (r: bool)
        ensures
            r == self@.is_prefix_of(other@),
    {
        if self.elements.len() > other.elements.len() {
            proof {
                assert(!self@.is_prefix_of(other@));
            }
            return false;
        }
        let mut i: usize = 0;
        while i < self.elements.len()
            invariant
                i <= self.elements.len(),
                self.elements.len() <= other.elements.len(),
                forall|j: int| 0 <= j < i ==> #[trigger] self@[j] == other@[j],
            decreases self.elements.len() - i,
        {
            if !path_element_eq(&self.elements[i], &other.elements[i]) {
                proof {
                    assert(self@[i as int] != other@[i as int]);
                    assert(!self@.is_prefix_of(other@));
                }
                return false;
            }
            i = i + 1;
        }
        proof {
            assert(self@ =~= other@.subrange(0, self@.len() as int));
        }
        true
    }

    /// Removes `prefix` from the front of this path.
    ///
    /// Fails with [`PathError::InvalidOperation`] when `prefix` is not a
    /// prefix of this path.
    pub fn strip_prefix(&self, prefix: &Path) -> (r: Result<Path, PathError>)
        ensures
            prefix@.is_prefix_of(self@) ==> (r matches Ok(p) && p@ == self@.skip(
                prefix@.len() as int,
            )),
            !prefix@.is_prefix_of(self@) ==> (r matches Err(e) && e
                == PathError::InvalidOperation),
    {
        if !prefix.is_prefix_of(self) {
            return Err(PathError::InvalidOperation);
        }
        let mut elements: Vec<PathElement> = Vec::new();
        let mut i: usize = prefix.elements.len();
        while i < self.elements.len()
            invariant
                prefix@.len() <= i <= self@.len(),
                self@.len() == self.elements@.len(),
                elements@.len() == i - prefix@.len(),
                forall|j: int|
                    0 <= j < elements@.len() ==> #[trigger] elements@[j]@ == self@[
                        prefix@.len() + j
                    ],
            decreases self.elements.len() - i,
        {
            elements.push(self.elements[i].clone());
            i = i + 1;
        }
        let r = Path { elements };
        proof {
            assert(r@ =~= self@.skip(prefix@.len() as int));
        }
        Ok(r)
    }
}

/// Structural equality of two path elements, compared by model.
pub fn path_element_eq(a: &PathElement, b: &PathElement) -> (r: bool)
    ensures
        r == (a@ == b@),
{
    match (a, b) {
        (PathElement::Index(x), PathElement::Index(y)) => x == y,
        (PathElement::Field(x), PathElement::Field(y)) => *x == *y,
        (PathElement::EnumDiscriminant, PathElement::EnumDiscriminant) => true,
        (PathElement::EnumPayload(x), PathElement::EnumPayload(y)) => *x == *y,
        (PathElement::EnumPayloadByValue(x), PathElement::EnumPayloadByValue(y)) => x == y,
        (PathElement::DynamicIndex(x), PathElement::DynamicIndex(y)) => x == y,
        _ => false,
    }
}

/// An absolute range of bit positions: `start` inclusive, `end` exclusive.
#[derive(Debug, Clone, Copy, PartialEq, Eq, Structural)]
pub struct BitRange {
    pub start: usize,
    pub end: usize,
}

/// Index of the first field with the given name, if any.
pub open spec fn spec_field_index(fields: Seq<FieldV>, name: Seq<char>) -> Option<int>
    decreases fields,
{
    if fields.len() == 0 {
        None
    } else if fields[0].name == name {
        Some(0int)
    } else {
        match spec_field_index(fields.drop_first(), name) {
            None => None,
            Some(j) => Some(j + 1),
        }
    }
}

/// Index of the first variant with the given name, if any.
pub open spec fn spec_variant_index_by_name(variants: Seq<VariantV>, name: Seq<char>) -> Option<
    int,
>
    decreases variants,
{
    if variants.len() == 0 {
        None
    } else if variants[0].name == name {
        Some(0int)
    } else {
        match spec_variant_index_by_name(variants.drop_first(), name) {
            None => None,
            Some(j) => Some(j + 1),
        }
    }
}

/// Index of the first variant with the given discriminant value, if any.
pub open spec fn spec_variant_index_by_value(variants: Seq<VariantV>, discriminant: int) -> Option<
    int,
>
    decreases variants,
{
    if variants.len() == 0 {
        None
    } else if variants[0].discriminant == discriminant {
        Some(0int)
    } else {
        match spec_variant_index_by_value(variants.drop_first(), discriminant) {
            None => None,
            Some(j) => Some(j + 1),
        }
    }
}

/// `spec_field_index` returns the first match, and `None` only when no
/// field has the name.
pub proof fn lemma_field_index_char(fields: Seq<FieldV>, name: Seq<char>)
    ensures
        match spec_field_index(fields, name) {
            Some(j) => 0 <= j < fields.len() && fields[j].name == name && forall|k: int|
                0 <= k < j ==> (#[trigger] fields[k]).name != name,
            None => forall|k: int| 0 <= k < fields.len() ==> (#[trigger] fields[k]).name != name,
        },
    decreases fields,
{
    if fields.len() > 0 && fields[0].name != name {
        lemma_field_index_char(fields.drop_first(), name);
        assert(forall|k: int|
            1 <= k < fields.len() ==> #[trigger] fields[k] == fields.drop_first()[k - 1]);
    }
}

/// `spec_variant_index_by_name` returns the first match, and `None` only
/// when no variant has the name.
pub proof fn lemma_variant_index_by_name_char(variants: Seq<VariantV>, name: Seq<char>)
    ensures
        match spec_variant_index_by_name(variants, name) {
            Some(j) => 0 <= j < variants.len() && variants[j].name == name && forall|k: int|
                0 <= k < j ==> (#[trigger] variants[k]).name != name,
            None => forall|k: int|
                0 <= k < variants.len() ==> (#[trigger] variants[k]).name != name,
        },
    decreases variants,
{
    if variants.len() > 0 && variants[0].name != name {
        lemma_variant_index_by_name_char(variants.drop_first(), name);
        assert(forall|k: int|
            1 <= k < variants.len() ==> #[trigger] variants[k] == variants.drop_first()[k - 1]);
    }
}

/// `spec_variant_index_by_value` returns the first match, and `None` only
/// when no variant has the discriminant value.
pub proof fn lemma_variant_index_by_value_char(variants: Seq<VariantV>, discriminant: int)
    ensures
        match spec_variant_index_by_value(variants, discriminant) {
            Some(j) => 0 <= j < variants.len() && variants[j].discriminant == discriminant
                && forall|k: int|
                0 <= k < j ==> (#[trigger] variants[k]).discriminant != discriminant,
            None => forall|k: int|
                0 <= k < variants.len() ==> (#[trigger] variants[k]).discriminant != discriminant,
        },
    decreases variants,
{
    if variants.len() > 0 && variants[0].discriminant != discriminant {
        lemma_variant_index_by_value_char(variants.drop_first(), discriminant);
        assert(forall|k: int|
            1 <= k < variants.len() ==> #[trigger] variants[k] == variants.drop_first()[k - 1]);
    }
}

/// One navigation step: narrows the running bit range `[start, end)` over
/// kind `k` by the path element `e`.
///
/// This is the semantic reference for [`bit_range`]: each case gives the
/// exact range arithmetic and the exact error.
pub open spec fn spec_step(start: int, end: int, k: KindV, e: PathElementV) -> Result<
    (int, int, KindV),
    PathError,
> {
    match e {
        PathElementV::Index(i) => match k {
            KindV::Array(base, size) => if 0 <= i < size {
                Ok(
                    (
                        start + i * spec_bits(*base),
                        start + (i + 1) * spec_bits(*base),
                        *base,
                    ),
                )
            } else {
                Err(PathError::OutOfBounds)
            },
            KindV::Tuple(elements) => if 0 <= i < elements.len() {
                let offset = spec_bits_sum(elements.take(i));
                Ok((start + offset, start + offset + spec_bits(elements[i]), elements[i]))
            } else {
                Err(PathError::OutOfBounds)
            },
            KindV::Struct(_, fields) => if 0 <= i < fields.len() {
                let offset = spec_bits_fields(fields.take(i));
                Ok((start + offset, start + offset + spec_bits(fields[i].kind), fields[i].kind))
            } else {
                Err(PathError::OutOfBounds)
            },
            _ => Err(PathError::InvalidOperation),
        },
        PathElementV::Field(name) => match k {
            KindV::Struct(_, fields) => match spec_field_index(fields, name) {
                Some(j) => {
                    let offset = spec_bits_fields(fields.take(j));
                    Ok(
                        (
                            start + offset,
                            start + offset + spec_bits(fields[j].kind),
                            fields[j].kind,
                        ),
                    )
                },
                None => Err(PathError::FieldNotFound),
            },
            _ => Err(PathError::InvalidOperation),
        },
        PathElementV::EnumDiscriminant => match k {
            KindV::Enum(_, _, layout) => {
                let dk = if layout.ty is Signed {
                    KindV::Signed(layout.width as nat)
                } else {
                    KindV::Bits(layout.width as nat)
                };
                match layout.alignment {
                    DiscriminantAlignment::Lsb => Ok((start, start + layout.width, dk)),
                    DiscriminantAlignment::Msb => Ok((end - layout.width, end, dk)),
                }
            },
            _ => Err(PathError::InvalidOperation),
        },
        PathElementV::EnumPayload(name) => match k {
            KindV::Enum(_, variants, layout) => match spec_variant_index_by_name(variants, name) {
                Some(j) => {
                    let pk = variants[j].kind;
                    match layout.alignment {
                        DiscriminantAlignment::Lsb => Ok(
                            (
                                start + layout.width,
                                start + layout.width + spec_bits(pk),
                                pk,
                            ),
                        ),
                        DiscriminantAlignment::Msb => Ok((start, start + spec_bits(pk), pk)),
                    }
                },
                None => Err(PathError::VariantNotFound),
            },
            _ => Err(PathError::InvalidOperation),
        },
        PathElementV::EnumPayloadByValue(d) => match k {
            KindV::Enum(_, variants, layout) => match spec_variant_index_by_value(variants, d) {
                Some(j) => {
                    let pk = variants[j].kind;
                    match layout.alignment {
                        DiscriminantAlignment::Lsb => Ok(
                            (
                                start + layout.width,
                                start + layout.width + spec_bits(pk),
                                pk,
                            ),
                        ),
                        DiscriminantAlignment::Msb => Ok((start, start + spec_bits(pk), pk)),
                    }
                },
                None => Err(PathError::VariantNotFound),
            },
            _ => Err(PathError::InvalidOperation),
        },
        PathElementV::DynamicIndex(_) => Err(PathError::UnresolvedDynamicIndex),
    }
}

/// Resolves a whole path, starting from the running range `[start, end)`.
pub open spec fn spec_bit_range_from(start: int, end: int, k: KindV, p: Seq<PathElementV>) -> Result<
    (int, int, KindV),
    PathError,
>
    decreases p.len(),
{
    if p.len() == 0 {
        Ok((start, end, k))
    } else {
        match spec_step(start, end, k, p[0]) {
            Err(e) => Err(e),
            Ok((s2, e2, k2)) => spec_bit_range_from(s2, e2, k2, p.drop_first()),
        }
    }
}

/// Resolves a path against a kind, starting from the kind's full bit span.
pub open spec fn spec_bit_range(k: KindV, p: Seq<PathElementV>) -> Result<
    (int, int, KindV),
    PathError,
> {
    spec_bit_range_from(0, spec_bits(k) as int, k, p)
}

/// A successful step narrows the range: the new range lies within the old
/// one, its width is the width of the new kind, and well-formedness is kept.
pub proof fn lemma_step_props(start: int, end: int, k: KindV, e: PathElementV)
    requires
        kind_wf(k),
        0 <= start,
        end == start + spec_bits(k),
        spec_step(start, end, k, e) is Ok,
    ensures
        spec_step(start, end, k, e) matches Ok((s2, e2, k2)) && kind_wf(k2) && e2 == s2
            + spec_bits(k2) && start <= s2 && e2 <= end,
{
    match e {
        PathElementV::Index(i) => match k {
            KindV::Array(base, size) => {
                let b = spec_bits(*base) as int;
                assert(0 <= i < size);
                assert(i * b + b == (i + 1) * b) by (nonlinear_arith);
                assert((i + 1) * b <= size * b) by (nonlinear_arith)
                    requires
                        i + 1 <= size,
                        b >= 0,
                ;
                assert(0 <= i * b) by (nonlinear_arith)
                    requires
                        0 <= i,
                        0 <= b,
                ;
            },
            KindV::Tuple(elements) => {
                lemma_bits_sum_take_succ(elements, i);
                lemma_bits_sum_take(elements, i + 1);
            },
            KindV::Struct(_, fields) => {
                lemma_bits_fields_take_succ(fields, i);
                lemma_bits_fields_take(fields, i + 1);
            },
            _ => {},
        },
        PathElementV::Field(name) => match k {
            KindV::Struct(_, fields) => {
                lemma_field_index_char(fields, name);
                let j = spec_field_index(fields, name)->Some_0;
                lemma_bits_fields_take_succ(fields, j);
                lemma_bits_fields_take(fields, j + 1);
            },
            _ => {},
        },
        PathElementV::EnumDiscriminant => {},
        PathElementV::EnumPayload(name) => match k {
            KindV::Enum(_, variants, _) => {
                lemma_variant_index_by_name_char(variants, name);
                let j = spec_variant_index_by_name(variants, name)->Some_0;
                lemma_max_payload_bound(variants, j);
            },
            _ => {},
        },
        PathElementV::EnumPayloadByValue(d) => match k {
            KindV::Enum(_, variants, _) => {
                lemma_variant_index_by_value_char(variants, d);
                let j = spec_variant_index_by_value(variants, d)->Some_0;
                lemma_max_payload_bound(variants, j);
            },
            _ => {},
        },
        PathElementV::DynamicIndex(_) => {},
    }
}

/// Width consistency over a whole resolution: a successful [`spec_bit_range_from`]
/// keeps the range inside `[start, end)`, and the range width equals the
/// width of the resulting kind.
pub proof fn lemma_bit_range_from_props(start: int, end: int, k: KindV, p: Seq<PathElementV>)
    requires
        kind_wf(k),
        0 <= start,
        end == start + spec_bits(k),
        spec_bit_range_from(start, end, k, p) is Ok,
    ensures
        spec_bit_range_from(start, end, k, p) matches Ok((s2, e2, k2)) && kind_wf(k2) && e2 == s2
            + spec_bits(k2) && start <= s2 && e2 <= end,
    decreases p.len(),
{
    if p.len() > 0 {
        lemma_step_props(start, end, k, p[0]);
        let (s2, e2, k2) = spec_step(start, end, k, p[0])->Ok_0;
        lemma_bit_range_from_props(s2, e2, k2, p.drop_first());
    }
}

/// Width consistency: a resolved path's bit range has exactly the width of
/// the kind it addresses, and lies within the root kind's bit span.
pub proof fn lemma_bit_range_width(k: KindV, p: Seq<PathElementV>)
    requires
        kind_wf(k),
        spec_bit_range(k, p) is Ok,
    ensures
        spec_bit_range(k, p) matches Ok((s, e, k2)) && kind_wf(k2) && e == s + spec_bits(k2) && 0
            <= s && e <= spec_bits(k),
{
    lemma_bit_range_from_props(0, spec_bits(k) as int, k, p);
}

/// Sum of the widths of the first `upto` elements of a tuple kind.
fn tuple_offset(elements: &Vec<Kind>, upto: usize) -> (r: usize)
    requires
        upto <= elements@.len(),
        kind_wf(KindV::Tuple(kinds_view(elements@))),
    ensures
        r == spec_bits_sum(kinds_view(elements@).take(upto as int)),
{
    let ghost vs = kinds_view(elements@);
    proof {
        lemma_kinds_view_len(elements@);
        assert forall|j: int| 0 <= j < vs.len() implies #[trigger] vs[j] == elements@[j]@ by {
            lemma_kinds_view_index(elements@, j);
        }
    }
    let mut acc: usize = 0;
    let mut i: usize = 0;
    while i < upto
        invariant
            i <= upto <= elements@.len(),
            vs == kinds_view(elements@),
            vs.len() == elements@.len(),
            forall|j: int| 0 <= j < vs.len() ==> #[trigger] vs[j] == elements@[j]@,
            kind_wf(KindV::Tuple(vs)),
            acc == spec_bits_sum(vs.take(i as int)),
        decreases upto - i,
    {
        proof {
            lemma_bits_sum_take_succ(vs, i as int);
            lemma_bits_sum_take(vs, i + 1);
        }
        acc = acc + elements[i].bits();
        i = i + 1;
    }
    acc
}

/// Sum of the widths of the first `upto` fields of a record kind.
fn fields_offset(fields: &Vec<Field>, upto: usize) -> (r: usize)
    requires
        upto <= fields@.len(),
        spec_bits_fields(fields_view(fields@)) <= usize::MAX,
        forall|j: int|
            0 <= j < fields@.len() ==> kind_wf(#[trigger] fields_view(fields@)[j].kind),
    ensures
        r == spec_bits_fields(fields_view(fields@).take(upto as int)),
{
    let ghost vs = fields_view(fields@);
    proof {
        lemma_fields_view_len(fields@);
        assert forall|j: int| 0 <= j < vs.len() implies #[trigger] vs[j] == fields@[j]@ by {
            lemma_fields_view_index(fields@, j);
        }
    }
    let mut acc: usize = 0;
    let mut i: usize = 0;
    while i < upto
        invariant
            i <= upto <= fields@.len(),
            vs == fields_view(fields@),
            vs.len() == fields@.len(),
            forall|j: int| 0 <= j < vs.len() ==> #[trigger] vs[j] == fields@[j]@,
            forall|j: int| 0 <= j < vs.len() ==> kind_wf(#[trigger] vs[j].kind),
            spec_bits_fields(vs) <= usize::MAX,
            acc == spec_bits_fields(vs.take(i as int)),
        decreases upto - i,
    {
        proof {
            lemma_bits_fields_take_succ(vs, i as int);
            lemma_bits_fields_take(vs, i + 1);
        }
        acc = acc + fields[i].kind.bits();
        i = i + 1;
    }
    acc
}

/// Index of the first field with the given name.
fn find_field(fields: &Vec<Field>, name: &String) -> (r: Option<usize>)
    ensures
        (match spec_field_index(fields_view(fields@), name@) {
            Some(j) => r matches Some(x) && x == j,
            None => r is None,
        }),
{
    let ghost vs = fields_view(fields@);
    proof {
        lemma_fields_view_len(fields@);
        assert forall|j: int| 0 <= j < vs.len() implies #[trigger] vs[j] == fields@[j]@ by {
            lemma_fields_view_index(fields@, j);
        }
        lemma_field_index_char(vs, name@);
    }
    let mut i: usize = 0;
    while i < fields.len()
        invariant
            i <= fields@.len(),
            vs == fields_view(fields@),
            vs.len() == fields@.len(),
            forall|j: int| 0 <= j < vs.len() ==> #[trigger] vs[j] == fields@[j]@,
            forall|j: int| 0 <= j < i ==> (#[trigger] vs[j]).name != name@,
            match spec_field_index(vs, name@) {
                Some(j) => 0 <= j < vs.len() && vs[j].name == name@ && forall|k: int|
                    0 <= k < j ==> (#[trigger] vs[k]).name != name@,
                None => forall|k: int| 0 <= k < vs.len() ==> (#[trigger] vs[k]).name != name@,
            },
        decreases fields@.len() - i,
    {
        if fields[i].name == *name {
            proof {
                assert(vs[i as int].name == name@);
                assert(spec_field_index(vs, name@) == Some(i as int));
            }
            return Some(i);
        }
        i = i + 1;
    }
    None
}

/// Index of the first variant with the given name.
fn find_variant_by_name(variants: &Vec<Variant>, name: &String) -> (r: Option<usize>)
    ensures
        (match spec_variant_index_by_name(variants_view(variants@), name@) {
            Some(j) => r matches Some(x) && x == j,
            None => r is None,
        }),
{
    let ghost vs = variants_view(variants@);
    proof {
        lemma_variants_view_len(variants@);
        assert forall|j: int| 0 <= j < vs.len() implies #[trigger] vs[j] == variants@[j]@ by {
            lemma_variants_view_index(variants@, j);
        }
        lemma_variant_index_by_name_char(vs, name@);
    }
    let mut i: usize = 0;
    while i < variants.len()
        invariant
            i <= variants@.len(),
            vs == variants_view(variants@),
            vs.len() == variants@.len(),
            forall|j: int| 0 <= j < vs.len() ==> #[trigger] vs[j] == variants@[j]@,
            forall|j: int| 0 <= j < i ==> (#[trigger] vs[j]).name != name@,
            match spec_variant_index_by_name(vs, name@) {
                Some(j) => 0 <= j < vs.len() && vs[j].name == name@ && forall|k: int|
                    0 <= k < j ==> (#[trigger] vs[k]).name != name@,
                None => forall|k: int| 0 <= k < vs.len() ==> (#[trigger] vs[k]).name != name@,
            },
        decreases variants@.len() - i,
    {
        if variants[i].name == *name {
            proof {
                assert(vs[i as int].name == name@);
                assert(spec_variant_index_by_name(vs, name@) == Some(i as int));
            }
            return Some(i);
        }
        i = i + 1;
    }
    None
}

/// Index of the first variant with the given discriminant value.
fn find_variant_by_value(variants: &Vec<Variant>, discriminant: i64) -> (r: Option<usize>)
    ensures
        (match spec_variant_index_by_value(variants_view(variants@), discriminant as int) {
            Some(j) => r matches Some(x) && x == j,
            None => r is None,
        }),
{
    let ghost vs = variants_view(variants@);
    proof {
        lemma_variants_view_len(variants@);
        assert forall|j: int| 0 <= j < vs.len() implies #[trigger] vs[j] == variants@[j]@ by {
            lemma_variants_view_index(variants@, j);
        }
        lemma_variant_index_by_value_char(vs, discriminant as int);
    }
    let mut i: usize = 0;
    while i < variants.len()
        invariant
            i <= variants@.len(),
            vs == variants_view(variants@),
            vs.len() == variants@.len(),
            forall|j: int| 0 <= j < vs.len() ==> #[trigger] vs[j] == variants@[j]@,
            forall|j: int| 0 <= j < i ==> (#[trigger] vs[j]).discriminant != discriminant as int,
            match spec_variant_index_by_value(vs, discriminant as int) {
                Some(j) => 0 <= j < vs.len() && vs[j].discriminant == discriminant as int
                    && forall|k: int|
                    0 <= k < j ==> (#[trigger] vs[k]).discriminant != discriminant as int,
                None => forall|k: int|
                    0 <= k < vs.len() ==> (#[trigger] vs[k]).discriminant != discriminant as int,
            },
        decreases variants@.len() - i,
    {
        if variants[i].discriminant == discriminant {
            proof {
                assert(vs[i as int].discriminant == discriminant as int);
                assert(spec_variant_index_by_value(vs, discriminant as int) == Some(i as int));
            }
            return Some(i);
        }
        i = i + 1;
    }
    None
}

/// One navigation step of [`bit_range`]: narrows `[start, end)` over `kind`
/// by `element`, per [`spec_step`].
fn step(start: usize, end: usize, kind: &Kind, element: &PathElement) -> (r: Result<
    (usize, usize, Kind),
    PathError,
>)
    requires
        kind_wf(kind@),
        end == start + spec_bits(kind@),
    ensures
        (match spec_step(start as int, end as int, kind@, element@) {
            Ok((s2, e2, k2)) => r matches Ok(t) && t.0 == s2 && t.1 == e2 && t.2@ == k2 && kind_wf(
                k2,
            ),
            Err(err) => r matches Err(x) && x == err,
        }),
{
    proof {
        if spec_step(start as int, end as int, kind@, element@) is Ok {
            lemma_step_props(start as int, end as int, kind@, element@);
        }
    }
    match element {
        PathElement::Index(i) => match kind {
            Kind::Array(a) => {
                let ghost basev = kind@->Array_0;
                if *i < a.size {
                    let b = a.base.bits();
                    proof {
                        let ii = *i as int;
                        let bb = b as int;
                        assert(ii * bb + bb == (ii + 1) * bb) by (nonlinear_arith);
                    }
                    Ok((start + *i * b, start + (*i + 1) * b, (*a.base).clone()))
                } else {
                    Err(PathError::OutOfBounds)
                }
            },
            Kind::Tuple(t) => {
                let ghost vs = kind@->Tuple_0;
                proof {
                    lemma_kinds_view_len(t.elements@);
                }
                if *i < t.elements.len() {
                    let offset = tuple_offset(&t.elements, *i);
                    proof {
                        lemma_kinds_view_index(t.elements@, *i as int);
                        assert(kind_wf(t.elements@[*i as int]@));
                    }
                    let w = t.elements[*i].bits();
                    Ok((start + offset, start + offset + w, t.elements[*i].clone()))
                } else {
                    Err(PathError::OutOfBounds)
                }
            },
            Kind::Struct(st) => {
                let ghost vs = kind@->Struct_1;
                proof {
                    lemma_fields_view_len(st.fields@);
                    assert forall|j: int| 0 <= j < vs.len() implies kind_wf(
                        #[trigger] vs[j].kind,
                    ) by {}
                }
                if *i < st.fields.len() {
                    let offset = fields_offset(&st.fields, *i);
                    proof {
                        lemma_fields_view_index(st.fields@, *i as int);
                        assert(kind_wf(vs[*i as int].kind));
                    }
                    let w = st.fields[*i].kind.bits();
                    Ok((start + offset, start + offset + w, st.fields[*i].kind.clone()))
                } else {
                    Err(PathError::OutOfBounds)
                }
            },
            _ => Err(PathError::InvalidOperation),
        },
        PathElement::Field(name) => match kind {
            Kind::Struct(st) => {
                let ghost vs = kind@->Struct_1;
                proof {
                    lemma_fields_view_len(st.fields@);
                    assert forall|j: int| 0 <= j < vs.len() implies kind_wf(
                        #[trigger] vs[j].kind,
                    ) by {}
                }
                match find_field(&st.fields, name) {
                    Some(j) => {
                        proof {
                            lemma_field_index_char(vs, name@);
                        }
                        let offset = fields_offset(&st.fields, j);
                        proof {
                            lemma_fields_view_index(st.fields@, j as int);
                            assert(kind_wf(vs[j as int].kind));
                        }
                        let w = st.fields[j].kind.bits();
                        Ok((start + offset, start + offset + w, st.fields[j].kind.clone()))
                    },
                    None => Err(PathError::FieldNotFound),
                }
            },
            _ => Err(PathError::InvalidOperation),
        },
        PathElement::EnumDiscriminant => match kind {
            Kind::Enum(e) => {
                let layout = e.discriminant_layout;
                let dk = match layout.ty {
                    DiscriminantType::Signed => Kind::Signed(layout.width),
                    DiscriminantType::Unsigned => Kind::Bits(layout.width),
                };
                match layout.alignment {
                    DiscriminantAlignment::Lsb => Ok((start, start + layout.width, dk)),
                    DiscriminantAlignment::Msb => Ok((end - layout.width, end, dk)),
                }
            },
            _ => Err(PathError::InvalidOperation),
        },
        PathElement::EnumPayload(name) => match kind {
            Kind::Enum(e) => {
                let ghost vs = kind@->Enum_1;
                let layout = e.discriminant_layout;
                match find_variant_by_name(&e.variants, name) {
                    Some(j) => {
                        proof {
                            lemma_variants_view_len(e.variants@);
                            lemma_variant_index_by_name_char(vs, name@);
                            lemma_variants_view_index(e.variants@, j as int);
                            assert(kind_wf(vs[j as int].kind));
                        }
                        let w = e.variants[j].kind.bits();
                        let pk = e.variants[j].kind.clone();
                        match layout.alignment {
                            DiscriminantAlignment::Lsb => Ok(
                                (start + layout.width, start + layout.width + w, pk),
                            ),
                            DiscriminantAlignment::Msb => Ok((start, start + w, pk)),
                        }
                    },
                    None => Err(PathError::VariantNotFound),
                }
            },
            _ => Err(PathError::InvalidOperation),
        },
        PathElement::EnumPayloadByValue(d) => match kind {
            Kind::Enum(e) => {
                let ghost vs = kind@->Enum_1;
                let layout = e.discriminant_layout;
                match find_variant_by_value(&e.variants, *d) {
                    Some(j) => {
                        proof {
                            lemma_variants_view_len(e.variants@);
                            lemma_variant_index_by_value_char(vs, *d as int);
                            lemma_variants_view_index(e.variants@, j as int);
                            assert(kind_wf(vs[j as int].kind));
                        }
                        let w = e.variants[j].kind.bits();
                        let pk = e.variants[j].kind.clone();
                        match layout.alignment {
                            DiscriminantAlignment::Lsb => Ok(
                                (start + layout.width, start + layout.width + w, pk),
                            ),
                            DiscriminantAlignment::Msb => Ok((start, start + w, pk)),
                        }
                    },
                    None => Err(PathError::VariantNotFound),
                }
            },
            _ => Err(PathError::InvalidOperation),
        },
        PathElement::DynamicIndex(_) => Err(PathError::UnresolvedDynamicIndex),
    }
}

/// Resolves a concrete path against a kind: the absolute bit range of the
/// addressed sub-value, and that sub-value's kind.
///
/// The result is exactly [`spec_bit_range`] of the models: the same range,
/// kind, and error, case by case.  On success the range's width equals the
/// width of the resulting kind, and the range lies within `0..bits(kind)`.
#[verifier::loop_isolation(false)]
pub fn bit_range(kind: Kind, path: &Path) -> (r: Result<(BitRange, Kind), PathError>)
    requires
        kind_wf(kind@),
    ensures
        spec_bit_range(kind@, path@) matches Ok((s, e, k2)) ==> (r matches Ok(t) && t.0.start == s
            && t.0.end == e && t.1@ == k2 && kind_wf(k2)),
        spec_bit_range(kind@, path@) matches Err(err) ==> (r matches Err(x) && x == err),
        (r matches Ok(t) ==> t.0.end - t.0.start == spec_bits(t.1@) && t.0.end <= spec_bits(
            kind@,
        )),
{
    let ghost root = kind@;
    let total = kind.bits();
    let mut start: usize = 0;
    let mut end: usize = total;
    let mut cur = kind;
    let mut i: usize = 0;
    proof {
        assert(path@.skip(0) =~= path@);
    }
    while i < path.elements.len()
        invariant
            i <= path.elements.len(),
            path@.len() == path.elements@.len(),
            kind_wf(cur@),
            end == start + spec_bits(cur@),
            end <= spec_bits(root),
            spec_bit_range_from(start as int, end as int, cur@, path@.skip(i as int))
                == spec_bit_range(root, path@),
        decreases path.elements.len() - i,
    {
        proof {
            assert(path@.skip(i as int)[0] == path@[i as int]);
            assert(path@[i as int] == path.elements@[i as int]@);
            assert(path@.skip(i as int).drop_first() =~= path@.skip(i + 1));
        }
        match step(start, end, &cur, &path.elements[i]) {
            Ok(t) => {
                proof {
                    lemma_step_props(start as int, end as int, cur@, path@[i as int]);
                }
                start = t.0;
                end = t.1;
                cur = t.2;
            },
            Err(e) => {
                return Err(e);
            },
        }
        i = i + 1;
    }
    proof {
        assert(path@.skip(i as int) =~= Seq::<PathElementV>::empty());
    }
    Ok((BitRange { start, end }, cur))
}

/// The kind of the sub-value a concrete path addresses: the kind half of
/// [`bit_range`].
pub fn sub_kind(kind: Kind, path: &Path) -> (r: Result<Kind, PathError>)
    requires
        kind_wf(kind@),
    ensures
        (match spec_bit_range(kind@, path@) {
            Ok((s, e, k2)) => r matches Ok(k) && k@ == k2 && kind_wf(k2),
            Err(err) => r matches Err(x) && x == err,
        }),
{
    match bit_range(kind, path) {
        Ok(t) => Ok(t.1),
        Err(e) => Err(e),
    }
}

/// Number of dynamic indices in a path.
pub open spec fn num_dynamic(p: Seq<PathElementV>) -> nat
    decreases p,
{
    if p.len() == 0 {
        0
    } else {
        (if p[0] is DynamicIndex {
            1nat
        } else {
            0nat
        }) + num_dynamic(p.drop_first())
    }
}

/// A path has a dynamic index exactly when it has a positive count of them.
pub proof fn lemma_any_dynamic_count(p: Seq<PathElementV>)
    ensures
        spec_any_dynamic(p) <==> num_dynamic(p) > 0,
    decreases p,
{
    if p.len() > 0 {
        lemma_any_dynamic_count(p.drop_first());
        assert(forall|k: int| 1 <= k < p.len() ==> #[trigger] p[k] == p.drop_first()[k - 1]);
        if num_dynamic(p) > 0 {
            if p[0] is DynamicIndex {
                assert(spec_any_dynamic(p));
            } else {
                let i = choose|i: int|
                    0 <= i < p.drop_first().len() && p.drop_first()[i] is DynamicIndex;
                assert(p[i + 1] is DynamicIndex);
            }
        }
        if spec_any_dynamic(p) {
            let i = choose|i: int| 0 <= i < p.len() && p[i] is DynamicIndex;
            if i > 0 {
                assert(p.drop_first()[i - 1] is DynamicIndex);
            }
        }
    }
}

/// Replacing the leading dynamic index by a concrete one lowers the count.
pub proof fn lemma_num_dynamic_update(p: Seq<PathElementV>, i: int)
    requires
        p.len() > 0,
        p[0] is DynamicIndex,
    ensures
        num_dynamic(p.update(0, PathElementV::Index(i))) == num_dynamic(p) - 1,
{
    let q = p.update(0, PathElementV::Index(i));
    assert(q.drop_first() =~= p.drop_first());
}

/// How many concrete paths a path denotes: the product, over every dynamic
/// index, of the length of the array it traverses.  A path with no dynamic
/// index denotes itself alone.
pub open spec fn dyn_count(k: KindV, p: Seq<PathElementV>) -> nat
    decreases p.len(),
{
    if !spec_any_dynamic(p) || p.len() == 0 {
        1
    } else {
        match p[0] {
            PathElementV::DynamicIndex(_) => match k {
                KindV::Array(base, size) => size * dyn_count(*base, p.drop_first()),
                _ => 0,
            },
            _ => match spec_step(0, spec_bits(k) as int, k, p[0]) {
                Ok((_, _, k2)) => dyn_count(k2, p.drop_first()),
                Err(_) => 0,
            },
        }
    }
}

/// Expansion of a path's dynamic indices into all concrete paths, in
/// deterministic order: the first dynamic index counts up through the array
/// it indexes, and expansions of the remainder keep their relative order.
pub open spec fn spec_path_star(k: KindV, p: Seq<PathElementV>) -> Result<
    Seq<Seq<PathElementV>>,
    PathError,
>
    decreases num_dynamic(p), p.len(), 1int, 0int,
    via spec_path_star_dec
{
    if !spec_any_dynamic(p) {
        Ok(seq![p])
    } else {
        match p[0] {
            PathElementV::DynamicIndex(_) => match k {
                KindV::Array(_, size) => spec_star_dyn(k, p, 0),
                _ => Err(PathError::InvalidOperation),
            },
            _ => match spec_step(0, spec_bits(k) as int, k, p[0]) {
                Ok((_, _, k2)) => match spec_path_star(k2, p.drop_first()) {
                    Ok(ss) => Ok(ss.map_values(|t: Seq<PathElementV>| seq![p[0]] + t)),
                    Err(e) => Err(e),
                },
                Err(e) => Err(e),
            },
        }
    }
}

/// Expansions of `p` with its leading dynamic index replaced by each
/// concrete index from `i` up, concatenated in index order.
pub open spec fn spec_star_dyn(k: KindV, p: Seq<PathElementV>, i: int) -> Result<
    Seq<Seq<PathElementV>>,
    PathError,
>
    decreases num_dynamic(p), p.len(), 0int, (if k is Array {
        k->Array_1 as int - i
    } else {
        0int
    }),
    when p.len() > 0 && p[0] is DynamicIndex && k is Array && 0 <= i
    via spec_star_dyn_dec
{
    let size = k->Array_1 as int;
    if i >= size {
        Ok(Seq::empty())
    } else {
        match spec_path_star(k, p.update(0, PathElementV::Index(i))) {
            Ok(first) => match spec_star_dyn(k, p, i + 1) {
                Ok(rest) => Ok(first + rest),
                Err(e) => Err(e),
            },
            Err(e) => Err(e),
        }
    }
}

#[via_fn]
proof fn spec_path_star_dec(k: KindV, p: Seq<PathElementV>) {
    if spec_any_dynamic(p) {
        lemma_any_dynamic_count(p);
        if p.len() == 0 {
            assert(false);
        }
    }
}

#[via_fn]
proof fn spec_star_dyn_dec(k: KindV, p: Seq<PathElementV>, i: int) {
    if p.len() > 0 && p[0] is DynamicIndex {
        lemma_num_dynamic_update(p, i);
    }
}

/// Substituting a concrete index for the leading dynamic index keeps the
/// denotation count of the remainder.
proof fn lemma_dyn_count_update(k: KindV, p: Seq<PathElementV>, i: int)
    requires
        p.len() > 0,
        p[0] is DynamicIndex,
        k matches KindV::Array(base, size) && 0 <= i < size,
    ensures
        k matches KindV::Array(base, size) ==> dyn_count(k, p.update(0, PathElementV::Index(i)))
            == dyn_count(*base, p.drop_first()),
{
    let base = k->Array_0;
    let size = k->Array_1;
    let q = p.update(0, PathElementV::Index(i));
    assert(q.drop_first() =~= p.drop_first());
    lemma_num_dynamic_update(p, i);
    lemma_any_dynamic_count(q);
    lemma_any_dynamic_count(p.drop_first());
    assert(num_dynamic(q) == num_dynamic(q.drop_first())) by {
        assert(!(q[0] is DynamicIndex));
    }
    if !spec_any_dynamic(q) {
        assert(dyn_count(k, q) == 1);
        assert(!spec_any_dynamic(p.drop_first()));
    } else {
        assert(spec_step(0, spec_bits(k) as int, k, q[0]) matches Ok((_, _, k2)) && k2 == *base);
    }
}

/// Totality, concreteness and count of the path expansion: every expanded
/// path is fully concrete and keeps the element count of the input, and the
/// number of expanded paths is the product of the lengths of the arrays
/// traversed by the dynamic indices ([`dyn_count`]).
pub proof fn lemma_path_star_props(k: KindV, p: Seq<PathElementV>)
    requires
        spec_path_star(k, p) is Ok,
    ensures
        spec_path_star(k, p) matches Ok(ss) && ss.len() == dyn_count(k, p) && forall|j: int|
            0 <= j < ss.len() ==> !spec_any_dynamic(#[trigger] ss[j]) && ss[j].len() == p.len(),
    decreases num_dynamic(p), p.len(), 1int, 0int,
{
    lemma_any_dynamic_count(p);
    if !spec_any_dynamic(p) {
        let ss = spec_path_star(k, p)->Ok_0;
        assert(ss =~= seq![p]);
    } else {
        match p[0] {
            PathElementV::DynamicIndex(_) => {
                let base = k->Array_0;
                let size = k->Array_1;
                lemma_star_dyn_props(k, p, 0);
            },
            _ => {
                let k2 = spec_step(0, spec_bits(k) as int, k, p[0])->Ok_0.2;
                assert(num_dynamic(p) == num_dynamic(p.drop_first()));
                lemma_path_star_props(k2, p.drop_first());
                let sub = spec_path_star(k2, p.drop_first())->Ok_0;
                let ss = spec_path_star(k, p)->Ok_0;
                assert(ss.len() == sub.len());
                assert forall|j: int| 0 <= j < ss.len() implies !spec_any_dynamic(
                    #[trigger] ss[j],
                ) && ss[j].len() == p.len() by {
                    let q = ss[j];
                    assert(q == seq![p[0]] + sub[j]);
                    assert(q.len() == p.len());
                    if spec_any_dynamic(q) {
                        let x = choose|x: int| 0 <= x < q.len() && q[x] is DynamicIndex;
                        if x == 0 {
                            assert(p[0] is DynamicIndex);
                        } else {
                            assert(sub[j][x - 1] is DynamicIndex);
                            assert(spec_any_dynamic(sub[j]));
                        }
                    }
                }
            },
        }
    }
}

/// Count and concreteness of the per-index expansions of the leading
/// dynamic index, from index `i` up.
proof fn lemma_star_dyn_props(k: KindV, p: Seq<PathElementV>, i: int)
    requires
        p.len() > 0,
        p[0] is DynamicIndex,
        k is Array,
        0 <= i,
        spec_star_dyn(k, p, i) is Ok,
    ensures
        spec_star_dyn(k, p, i) matches Ok(ss) && ss.len() == (if i <= k->Array_1 as int {
            (k->Array_1 as int - i) * dyn_count(*k->Array_0, p.drop_first())
        } else {
            0
        }) && forall|j: int|
            0 <= j < ss.len() ==> !spec_any_dynamic(#[trigger] ss[j]) && ss[j].len() == p.len(),
    decreases num_dynamic(p), p.len(), 0int, (if k is Array {
        k->Array_1 as int - i
    } else {
        0int
    }),
{
    let base = k->Array_0;
    let size = k->Array_1 as int;
    let dc = dyn_count(*base, p.drop_first()) as int;
    if i >= size {
        assert(spec_star_dyn(k, p, i)->Ok_0 =~= Seq::<Seq<PathElementV>>::empty());
        assert(spec_star_dyn(k, p, i)->Ok_0.len() == 0);
        if i <= size {
            assert(i == size);
            assert((size - i) * dc == 0) by (nonlinear_arith)
                requires
                    i == size,
            ;
        }
    } else {
        let q = p.update(0, PathElementV::Index(i));
        lemma_num_dynamic_update(p, i);
        lemma_path_star_props(k, q);
        lemma_dyn_count_update(k, p, i);
        lemma_star_dyn_props(k, p, i + 1);
        let first = spec_path_star(k, q)->Ok_0;
        let rest = spec_star_dyn(k, p, i + 1)->Ok_0;
        let ss = spec_star_dyn(k, p, i)->Ok_0;
        assert(ss == first + rest);
        assert(first.len() == dc);
        assert(rest.len() == (size - i - 1) * dc);
        assert((size - i) * dc == dc + (size - i - 1) * dc) by (nonlinear_arith);
        assert(ss.len() == (size - i) * dc);
        assert forall|j: int| 0 <= j < ss.len() implies !spec_any_dynamic(#[trigger] ss[j])
            && ss[j].len() == p.len() by {
            if j < first.len() {
                assert(ss[j] == first[j]);
                assert(q.len() == p.len());
            } else {
                assert(ss[j] == rest[j - first.len()]);
            }
        }
    }
}

/// Resolving a one-element path is exactly one navigation step.
proof fn lemma_single_step_range(k: KindV, e: PathElementV)
    ensures
        spec_bit_range(k, seq![e]) == (match spec_step(0, spec_bits(k) as int, k, e) {
            Ok((s2, e2, k2)) => Ok::<(int, int, KindV), PathError>((s2, e2, k2)),
            Err(err) => Err(err),
        }),
{
    let p = seq![e];
    assert(p.drop_first() =~= Seq::<PathElementV>::empty());
    match spec_step(0, spec_bits(k) as int, k, e) {
        Ok((s2, e2, k2)) => {
            assert(spec_bit_range_from(s2, e2, k2, p.drop_first()) == Ok::<
                (int, int, KindV),
                PathError,
            >((s2, e2, k2)));
        },
        Err(_) => {},
    }
}

/// A copy of `path` with its first element replaced by a concrete index.
fn replace_first(path: &Path, index: usize) -> (r: Path)
    requires
        path@.len() > 0,
    ensures
        r@ == path@.update(0, PathElementV::Index(index as int)),
{
    let mut elements: Vec<PathElement> = Vec::new();
    elements.push(PathElement::Index(index));
    let mut j: usize = 1;
    while j < path.elements.len()
        invariant
            1 <= j <= path.elements@.len(),
            path@.len() == path.elements@.len(),
            elements@.len() == j,
            elements@[0]@ == PathElementV::Index(index as int),
            forall|m: int| 1 <= m < j ==> #[trigger] elements@[m]@ == path@[m],
        decreases path.elements.len() - j,
    {
        elements.push(path.elements[j].clone());
        j = j + 1;
    }
    let r = Path { elements };
    proof {
        assert(r@ =~= path@.update(0, PathElementV::Index(index as int)));
    }
    r
}

/// Expands every dynamic index in `path` into the full set of concrete
/// paths it may denote: the cartesian product, in deterministic order, over
/// the lengths of the arrays the dynamic indices traverse.
///
/// The result is exactly [`spec_path_star`] of the models.  Every returned
/// path is fully concrete, has the same element count as `path`, and the
/// number of returned paths is [`dyn_count`].
#[verifier::loop_isolation(false)]
pub fn path_star(kind: &Kind, path: &Path) -> (r: Result<Vec<Path>, PathError>)
    requires
        kind_wf(kind@),
    ensures
        spec_path_star(kind@, path@) matches Ok(ss) ==> (r matches Ok(v) && v@.len() == ss.len()
            && forall|j: int| 0 <= j < ss.len() ==> #[trigger] v@[j]@ == ss[j]),
        spec_path_star(kind@, path@) matches Err(err) ==> (r matches Err(x) && x == err),
        r matches Ok(v) ==> v@.len() == dyn_count(kind@, path@) && forall|j: int|
            0 <= j < v@.len() ==> !spec_any_dynamic(#[trigger] v@[j]@) && v@[j]@.len()
                == path@.len(),
    decreases num_dynamic(path@), path@.len(),
{
    if !path.any_dynamic() {
        let mut v: Vec<Path> = Vec::new();
        v.push(path.clone());
        proof {
            assert(spec_path_star(kind@, path@)->Ok_0 =~= seq![path@]);
            assert(v@[0]@ == path@);
        }
        return Ok(v);
    }
    proof {
        lemma_any_dynamic_count(path@);
        if path@.len() == 0 {
            assert(num_dynamic(path@) == 0);
            assert(false);
        }
        lemma_path_star_exec_shape(kind@, path@);
    }
    match &path.elements[0] {
        PathElement::DynamicIndex(_) => match kind {
            Kind::Array(a) => {
                proof {
                    assert(path@[0] == path.elements@[0]@);
                    assert(path@[0] is DynamicIndex);
                    assert(kind@ is Array);
                    assert(kind@->Array_1 == a.size as nat);
                }
                let mut results: Vec<Path> = Vec::new();
                let ghost mut acc = Seq::<Seq<PathElementV>>::empty();
                let mut i: usize = 0;
                while i < a.size
                    invariant
                        i <= a.size,
                        results@.len() == acc.len(),
                        forall|j: int| 0 <= j < acc.len() ==> #[trigger] results@[j]@ == acc[j],
                        match spec_star_dyn(kind@, path@, i as int) {
                            Ok(rest) => spec_star_dyn(kind@, path@, 0) matches Ok(all) && all
                                == acc + rest,
                            Err(e) => spec_star_dyn(kind@, path@, 0) == Err::<
                                Seq<Seq<PathElementV>>,
                                PathError,
                            >(e),
                        },
                    decreases a.size - i,
                {
                    let p2 = replace_first(path, i);
                    proof {
                        lemma_num_dynamic_update(path@, i as int);
                    }
                    match path_star(kind, &p2) {
                        Ok(sub) => {
                            let ghost first = spec_path_star(kind@, p2@)->Ok_0;
                            let ghost old_len = results@.len() as int;
                            let mut m: usize = 0;
                            while m < sub.len()
                                invariant
                                    m <= sub@.len(),
                                    results@.len() == old_len + m,
                                    forall|j: int|
                                        0 <= j < old_len ==> #[trigger] results@[j]@ == acc[j],
                                    forall|j: int|
                                        0 <= j < m ==> #[trigger] results@[old_len + j]@
                                            == first[j],
                                decreases sub.len() - m,
                            {
                                let q = sub[m].clone();
                                results.push(q);
                                m = m + 1;
                            }
                            proof {
                                assert(sub@.len() == first.len());
                                assert(results@.len() == old_len + first.len());
                                let ghost acc2 = acc + first;
                                assert(acc2.len() == results@.len());
                                assert forall|j: int| 0 <= j < acc2.len() implies #[trigger] results@[j]@
                                    == acc2[j] by {
                                    if j < old_len {
                                        assert(results@[j]@ == acc[j]);
                                    } else {
                                        assert(results@[old_len + (j - old_len)]@ == first[j
                                            - old_len]);
                                    }
                                }
                                acc = acc + first;
                                if spec_star_dyn(kind@, path@, i + 1) is Ok {
                                    let rest2 = spec_star_dyn(kind@, path@, i + 1)->Ok_0;
                                    assert(spec_star_dyn(kind@, path@, i as int)->Ok_0 == first
                                        + rest2);
                                    assert(((acc.subrange(0, old_len) + (first + rest2)))
                                        =~= (acc + rest2)) by {
                                        assert(acc.subrange(0, old_len) + first =~= acc);
                                    }
                                    assert(spec_star_dyn(kind@, path@, 0) matches Ok(all) && all
                                        == acc.subrange(0, old_len) + (first + rest2));
                                }
                            }
                        },
                        Err(e) => {
                            proof {
                                assert(spec_star_dyn(kind@, path@, i as int) == Err::<
                                    Seq<Seq<PathElementV>>,
                                    PathError,
                                >(e));
                            }
                            return Err(e);
                        },
                    }
                    i = i + 1;
                }
                proof {
                    assert(spec_star_dyn(kind@, path@, a.size as int)->Ok_0
                        =~= Seq::<Seq<PathElementV>>::empty());
                    assert(spec_star_dyn(kind@, path@, 0) matches Ok(all) && all =~= acc);
                    lemma_path_star_props(kind@, path@);
                }
                Ok(results)
            },
            _ => {
                proof {
                    assert(path@[0] == path.elements@[0]@);
                    assert(path@[0] is DynamicIndex);
                    assert(!(kind@ is Array));
                }
                Err(PathError::InvalidOperation)
            },
        },
        _ => {
            proof {
                assert(path@[0] == path.elements@[0]@);
                assert(!(path@[0] is DynamicIndex));
            }
            let mut pe: Vec<PathElement> = Vec::new();
            pe.push(path.elements[0].clone());
            let prefix = Path { elements: pe };
            proof {
                assert(prefix@ =~= seq![path@[0]]);
                assert(seq![path@[0]].drop_first() =~= Seq::<PathElementV>::empty());
            }
            let prefix_kind = match sub_kind(kind.clone(), &prefix) {
                Ok(k) => k,
                Err(e) => {
                    proof {
                        lemma_single_step_range(kind@, path@[0]);
                        assert(prefix@ == seq![path@[0]]);
                    }
                    return Err(e);
                },
            };
            proof {
                lemma_single_step_range(kind@, path@[0]);
                assert(prefix@ == seq![path@[0]]);
                assert(spec_step(0, spec_bits(kind@) as int, kind@, path@[0]) matches Ok(t)
                    && t.2 == prefix_kind@);
            }
            let suffix = match path.strip_prefix(&prefix) {
                Ok(sfx) => sfx,
                Err(e) => {
                    proof {
                        assert(prefix@ =~= path@.subrange(0, 1));
                        assert(prefix@.is_prefix_of(path@));
                        assert(false);
                    }
                    return Err(e);
                },
            };
            proof {
                assert(suffix@ =~= path@.drop_first());
                assert(num_dynamic(path@) == num_dynamic(path@.drop_first()));
            }
            let sub = match path_star(&prefix_kind, &suffix) {
                Ok(v) => v,
                Err(e) => {
                    proof {
                        assert(spec_path_star(kind@, path@) == Err::<
                            Seq<Seq<PathElementV>>,
                            PathError,
                        >(e));
                    }
                    return Err(e);
                },
            };
            let ghost ss_sub = spec_path_star(prefix_kind@, suffix@)->Ok_0;
            let mut results: Vec<Path> = Vec::new();
            let mut j: usize = 0;
            while j < sub.len()
                invariant
                    j <= sub@.len(),
                    results@.len() == j,
                    forall|m: int|
                        0 <= m < j ==> #[trigger] results@[m]@ == seq![path@[0]] + ss_sub[m],
                decreases sub.len() - j,
            {
                let q = prefix.clone().join(&sub[j]);
                proof {
                    assert(sub@[j as int]@ == ss_sub[j as int]);
                    assert(q@ =~= seq![path@[0]] + ss_sub[j as int]);
                }
                results.push(q);
                j = j + 1;
            }
            proof {
                let ss = spec_path_star(kind@, path@)->Ok_0;
                assert(ss == ss_sub.map_values(|t: Seq<PathElementV>| seq![path@[0]] + t));
                assert forall|m: int| 0 <= m < ss.len() implies #[trigger] results@[m]@ == ss[m] by {
                    assert(ss[m] == seq![path@[0]] + ss_sub[m]);
                }
                lemma_path_star_props(kind@, path@);
            }
            Ok(results)
        },
    }
}

/// In the branches below the expansion's shape follows its definition; this
/// lemma just names the unfolding for a non-empty path with dynamics.
proof fn lemma_path_star_exec_shape(k: KindV, p: Seq<PathElementV>)
    requires
        spec_any_dynamic(p),
        p.len() > 0,
    ensures
        p[0] is DynamicIndex && !(k is Array) ==> spec_path_star(k, p) == Err::<
            Seq<Seq<PathElementV>>,
            PathError,
        >(PathError::InvalidOperation),
        p[0] is DynamicIndex && k is Array ==> spec_path_star(k, p) == spec_star_dyn(k, p, 0),
        !(p[0] is DynamicIndex) ==> spec_path_star(k, p) == (match spec_step(
            0,
            spec_bits(k) as int,
            k,
            p[0],
        ) {
            Ok((s2, e2, k2)) => match spec_path_star(k2, p.drop_first()) {
                Ok(ss) => Ok(ss.map_values(|t: Seq<PathElementV>| seq![p[0]] + t)),
                Err(e) => Err(e),
            },
            Err(e) => Err(e),
        }),
{
}

} // verus!
