//! The closed compilation result.
//!
//! A [`Module`] maps function identities to compiled objects and names the
//! top-level function.  Every external kernel reference reachable from the
//! top object has an entry, each function is compiled exactly once, and no
//! unreachable function is present; the driver's contract states these
//! invariants.

use crate::bits::spec_hex_digits;
use crate::rhif::FunctionId;
use crate::rhif::Object;
use crate::rhif::ObjectV;
use crate::rhif::SpannedSource;
use crate::util::push_char;
use vstd::prelude::*;
use vstd::string::StringExecFns;

verus! {

/// A set of compiled objects, keyed by function identity, with the
/// identity of the top-level function.
#[derive(Debug)]
pub struct Module {
    /// All compiled functions: the top-level object and every external
    /// kernel transitively referenced by it, each exactly once.
    pub objects: Vec<Object>,
    /// Identity of the top-level function.
    pub top: FunctionId,
}

/// Mathematical model of a [`Module`].
pub struct ModuleV {
    pub objects: Seq<ObjectV>,
    pub top: int,
}

/// Elementwise model of an object list.
pub open spec fn objects_view(s: Seq<Object>) -> Seq<ObjectV>
    decreases s,
{
    if s.len() == 0 {
        Seq::empty()
    } else {
        objects_view(s.drop_last()).push(s.last()@)
    }
}

/// The model of an object list has the same length.
pub proof fn lemma_objects_view_len(s: Seq<Object>)
    ensures
        objects_view(s).len() == s.len(),
    decreases s,
{
    if s.len() > 0 {
        lemma_objects_view_len(s.drop_last());
    }
}

/// The model of an object list is the model taken elementwise.
pub proof fn lemma_objects_view_index(s: Seq<Object>, i: int)
    requires
        0 <= i < s.len(),
    ensures
        objects_view(s).len() == s.len(),
        objects_view(s)[i] == s[i]@,
    decreases s,
{
    lemma_objects_view_len(s);
    if i < s.len() - 1 {
        lemma_objects_view_index(s.drop_last(), i);
    }
}

impl View for Module {
    type V = ModuleV;

    open spec fn view(&self) -> ModuleV {
        ModuleV { objects: objects_view(self.objects@), top: self.top as int }
    }
}

/// Whether the module holds an object for the identity.
pub open spec fn contains_id(m: ModuleV, id: int) -> bool {
    exists|i: int| 0 <= i < m.objects.len() && (#[trigger] m.objects[i]).fn_id == id
}

/// The error of a module lookup that found no object.
#[derive(Debug, Clone, Copy, PartialEq, Eq, Structural)]
pub enum ModuleError {
    FunctionNotFound,
}

impl Module {
    /// The object compiled for the identity, if any.
    pub fn object_for(&self, fn_id: FunctionId) -> (r: Option<&Object>)
        ensures
            contains_id(self@, fn_id as int) <==> r is Some,
            r matches Some(o) ==> exists|i: int|
                0 <= i < self@.objects.len() && #[trigger] self@.objects[i] == o@ && o@.fn_id
                    == fn_id as int,
    {
        let ghost vs = self@.objects;
        proof {
            lemma_objects_view_len(self.objects@);
            assert forall|j: int| 0 <= j < vs.len() implies #[trigger] vs[j]
                == self.objects@[j]@ by {
                lemma_objects_view_index(self.objects@, j);
            }
        }
        let mut i: usize = 0;
        while i < self.objects.len()
            invariant
                i <= self.objects@.len(),
                vs == self@.objects,
                vs.len() == self.objects@.len(),
                forall|j: int| 0 <= j < vs.len() ==> #[trigger] vs[j] == self.objects@[j]@,
                forall|j: int| 0 <= j < i ==> (#[trigger] vs[j]).fn_id != fn_id as int,
            decreases self.objects@.len() - i,
        {
            if self.objects[i].fn_id == fn_id {
                proof {
                    assert(vs[i as int].fn_id == fn_id as int);
                }
                return Some(&self.objects[i]);
            }
            i = i + 1;
        }
        None
    }

    /// The rendered name of a function: its source name, an underscore,
    /// and its identity in hexadecimal.
    ///
    /// Fails with [`ModuleError::FunctionNotFound`] when the identity has
    /// no object in this module.
    pub fn func_name(&self, fn_id: FunctionId) -> (r: Result<String, ModuleError>)
        ensures
            contains_id(self@, fn_id as int) <==> r is Ok,
            r matches Ok(name) ==> exists|i: int|
                0 <= i < self@.objects.len() && (#[trigger] self@.objects[i]).fn_id
                    == fn_id as int && name@ == self@.objects[i].name + seq!['_']
                    + spec_hex_digits(fn_id as u128, false),
    {
        match self.object_for(fn_id) {
            Some(obj) => {
                let mut name = obj.name.clone();
                push_char(&mut name, '_');
                let hex = crate::bits::Bits::<128>::from(fn_id as u128).to_hex_string();
                name.append(hex.as_str());
                proof {
                    assert(fn_id as u128 & crate::bits::spec_mask(128) == fn_id as u128) by (
                    bit_vector);
                    assert(name@ =~= obj@.name + seq!['_'] + spec_hex_digits(
                        fn_id as u128,
                        false,
                    ));
                }
                Ok(name)
            },
            None => Err(ModuleError::FunctionNotFound),
        }
    }

    /// The source maps of all functions in this module, in module order.
    pub fn source_map(&self) -> (r: Vec<(FunctionId, SpannedSource)>)
        ensures
            r@.len() == self@.objects.len(),
            forall|i: int|
                0 <= i < r@.len() ==> (#[trigger] r@[i]).0 as int == self@.objects[i].fn_id
                    && r@[i].1@ == self@.objects[i].symbols.source,
    {
        let ghost vs = self@.objects;
        proof {
            lemma_objects_view_len(self.objects@);
            assert forall|j: int| 0 <= j < vs.len() implies #[trigger] vs[j]
                == self.objects@[j]@ by {
                lemma_objects_view_index(self.objects@, j);
            }
        }
        let mut r: Vec<(FunctionId, SpannedSource)> = Vec::new();
        let mut i: usize = 0;
        while i < self.objects.len()
            invariant
                i <= self.objects@.len(),
                vs == self@.objects,
                vs.len() == self.objects@.len(),
                forall|j: int| 0 <= j < vs.len() ==> #[trigger] vs[j] == self.objects@[j]@,
                r@.len() == i,
                forall|j: int|
                    0 <= j < i ==> (#[trigger] r@[j]).0 as int == vs[j].fn_id && r@[j].1@
                        == vs[j].symbols.source,
            decreases self.objects@.len() - i,
        {
            let entry = (self.objects[i].fn_id, self.objects[i].symbols.source.clone());
            r.push(entry);
            i = i + 1;
        }
        r
    }
}

} // verus!
