//! The lens algebra: reversible transformations on a record schema.
//!
//! Each lens pairs with an inverse (`Add` with `Remove`, `Rename` with the
//! swapped rename), and a failed transformation leaves the schema unchanged.
//! The reversibility laws are stated and proved at the bottom of this module.

use vstd::prelude::*;

use crate::schema::{Field, FieldV, Schema};
use crate::strmap::StrMap;
use crate::type_::Type;
use crate::value::{Value, ValueV};

verus! {

/// The payload of an `Add` or `Remove` lens.  `Remove` carries the field's
/// type and default too, so that its reverse can reconstruct the field.
#[derive(Debug, PartialEq)]
pub struct AddRemoveField {
    pub name: String,
    pub type_: Type,
    pub default: Value,
}

/// The mathematical shape of an [`AddRemoveField`].
pub struct AddRemoveFieldV {
    pub name: Seq<char>,
    pub type_: Type,
    pub default: ValueV,
}

impl View for AddRemoveField {
    type V = AddRemoveFieldV;

    open spec fn view(&self) -> AddRemoveFieldV {
        AddRemoveFieldV { name: self.name@, type_: self.type_, default: self.default@ }
    }
}

impl AddRemoveFieldV {
    /// The schema field this payload describes.
    pub open spec fn as_field(&self) -> FieldV {
        FieldV { type_: self.type_, default: self.default }
    }
}

impl AddRemoveField {
    /// A structural copy whose abstract value is the same.
    pub fn duplicate(&self) -> (r: AddRemoveField)
        ensures
            r@ == self@,
    {
        AddRemoveField {
            name: self.name.clone(),
            type_: self.type_.duplicate(),
            default: self.default.duplicate(),
        }
    }
}

/// A reversible schema transformation.
#[derive(Debug, PartialEq)]
pub enum Lens {
    Add(AddRemoveField),
    Remove(AddRemoveField),
    Rename { from: String, to: String },
}

/// The mathematical shape of a [`Lens`].
pub enum LensV {
    Add(AddRemoveFieldV),
    Remove(AddRemoveFieldV),
    Rename { from: Seq<char>, to: Seq<char> },
}

impl View for Lens {
    type V = LensV;

    open spec fn view(&self) -> LensV {
        match self {
            Lens::Add(f) => LensV::Add(f@),
            Lens::Remove(f) => LensV::Remove(f@),
            Lens::Rename { from, to } => LensV::Rename { from: from@, to: to@ },
        }
    }
}

/// A failed schema transformation.  Failures never change the schema.
#[derive(Debug, PartialEq)]
pub enum Error {
    UnsupportedSchemaType,
    ConflictingFieldOnAdd(String),
    MissingFieldOnRemove(String),
    MissingFieldOnRename(String),
}

/// The mathematical shape of an [`Error`].
pub enum ErrorV {
    UnsupportedSchemaType,
    ConflictingFieldOnAdd(Seq<char>),
    MissingFieldOnRemove(Seq<char>),
    MissingFieldOnRename(Seq<char>),
}

impl View for Error {
    type V = ErrorV;

    open spec fn view(&self) -> ErrorV {
        match self {
            Error::UnsupportedSchemaType => ErrorV::UnsupportedSchemaType,
            Error::ConflictingFieldOnAdd(n) => ErrorV::ConflictingFieldOnAdd(n@),
            Error::MissingFieldOnRemove(n) => ErrorV::MissingFieldOnRemove(n@),
            Error::MissingFieldOnRename(n) => ErrorV::MissingFieldOnRename(n@),
        }
    }
}

/// The inverse of a lens.
pub open spec fn spec_reversed(l: LensV) -> LensV {
    match l {
        LensV::Add(f) => LensV::Remove(f),
        LensV::Remove(f) => LensV::Add(f),
        LensV::Rename { from, to } => LensV::Rename { from: to, to: from },
    }
}

/// What a lens does to a schema: the transformed schema, or the error that
/// exactly describes why the lens does not apply.
pub open spec fn spec_transform_schema(l: LensV, s: Map<Seq<char>, FieldV>) -> Result<
    Map<Seq<char>, FieldV>,
    ErrorV,
> {
    match l {
        LensV::Add(f) => if s.dom().contains(f.name) {
            Err(ErrorV::ConflictingFieldOnAdd(f.name))
        } else {
            Ok(s.insert(f.name, f.as_field()))
        },
        LensV::Remove(f) => if s.dom().contains(f.name) {
            Ok(s.remove(f.name))
        } else {
            Err(ErrorV::MissingFieldOnRemove(f.name))
        },
        LensV::Rename { from, to } => if s.dom().contains(from) {
            Ok(s.remove(from).insert(to, s[from]))
        } else {
            Err(ErrorV::MissingFieldOnRename(from))
        },
    }
}

/// What a lens does to a running map of field defaults; absences and
/// conflicts mirror the schema errors.
pub open spec fn spec_transform_defaults(l: LensV, d: Map<Seq<char>, ValueV>) -> Result<
    Map<Seq<char>, ValueV>,
    ErrorV,
> {
    match l {
        LensV::Add(f) => if d.dom().contains(f.name) {
            Err(ErrorV::ConflictingFieldOnAdd(f.name))
        } else {
            Ok(d.insert(f.name, f.default))
        },
        LensV::Remove(f) => if d.dom().contains(f.name) {
            Ok(d.remove(f.name))
        } else {
            Err(ErrorV::MissingFieldOnRemove(f.name))
        },
        LensV::Rename { from, to } => if d.dom().contains(from) {
            Ok(d.remove(from).insert(to, d[from]))
        } else {
            Err(ErrorV::MissingFieldOnRename(from))
        },
    }
}

impl Lens {
    /// The inverse lens: applying it after a successful application restores
    /// the original schema (see [`lemma_lens_reversible`]).
    pub fn reversed(&self) -> (r: Self)
        ensures
            r@ == spec_reversed(self@),
    {
        match self {
            Lens::Add(lens) => Lens::Remove(lens.duplicate()),
            Lens::Remove(lens) => Lens::Add(lens.duplicate()),
            Lens::Rename { from, to } => Lens::Rename { from: to.clone(), to: from.clone() },
        }
    }

    /// A structural copy whose abstract shape is the same.
    pub fn duplicate(&self) -> (r: Self)
        ensures
            r@ == self@,
    {
        match self {
            Lens::Add(lens) => Lens::Add(lens.duplicate()),
            Lens::Remove(lens) => Lens::Remove(lens.duplicate()),
            Lens::Rename { from, to } => Lens::Rename { from: from.clone(), to: to.clone() },
        }
    }

    /// Apply this lens to a schema in place.  On failure the schema is left
    /// unchanged and the error says exactly which name was at fault.
    pub fn transform_schema(&self, schema: &mut Schema) -> (r: Result<(), Error>)
        requires
            old(schema).wf(),
        ensures
            final(schema).wf(),
            match r {
                Ok(()) => spec_transform_schema(self@, old(schema)@) == Ok::<_, ErrorV>(
                    final(schema)@,
                ),
                Err(e) => {
                    &&& spec_transform_schema(self@, old(schema)@) == Err::<
                        Map<Seq<char>, FieldV>,
                        _,
                    >(e@)
                    &&& final(schema)@ == old(schema)@
                },
            },
    {
        match self {
            Lens::Add(lens) => {
                if schema.contains_key(&lens.name) {
                    Err(Error::ConflictingFieldOnAdd(lens.name.clone()))
                } else {
                    schema.insert(
                        lens.name.clone(),
                        Field { type_: lens.type_.duplicate(), default: lens.default.duplicate() },
                    );
                    Ok(())
                }
            },
            Lens::Remove(lens) => {
                if schema.contains_key(&lens.name) {
                    schema.remove(&lens.name);
                    Ok(())
                } else {
                    Err(Error::MissingFieldOnRemove(lens.name.clone()))
                }
            },
            Lens::Rename { from, to } => match schema.remove(from) {
                Some(value) => {
                    schema.insert(to.clone(), value);
                    Ok(())
                },
                None => Err(Error::MissingFieldOnRename(from.clone())),
            },
        }
    }

    /// Apply this lens to a running map of field defaults in place.  On
    /// failure the map is left unchanged.
    pub fn transform_defaults(&self, defaults: &mut StrMap<Value>) -> (r: Result<(), Error>)
        requires
            old(defaults).wf(),
        ensures
            final(defaults).wf(),
            match r {
                Ok(()) => spec_transform_defaults(self@, old(defaults)@) == Ok::<_, ErrorV>(
                    final(defaults)@,
                ),
                Err(e) => {
                    &&& spec_transform_defaults(self@, old(defaults)@) == Err::<
                        Map<Seq<char>, ValueV>,
                        _,
                    >(e@)
                    &&& final(defaults)@ == old(defaults)@
                },
            },
    {
        match self {
            Lens::Add(lens) => {
                if defaults.contains_key(&lens.name) {
                    Err(Error::ConflictingFieldOnAdd(lens.name.clone()))
                } else {
                    defaults.insert(lens.name.clone(), lens.default.duplicate());
                    Ok(())
                }
            },
            Lens::Remove(lens) => {
                if defaults.contains_key(&lens.name) {
                    defaults.remove(&lens.name);
                    Ok(())
                } else {
                    Err(Error::MissingFieldOnRemove(lens.name.clone()))
                }
            },
            Lens::Rename { from, to } => match defaults.remove(from) {
                Some(value) => {
                    defaults.insert(to.clone(), value);
                    Ok(())
                },
                None => Err(Error::MissingFieldOnRename(from.clone())),
            },
        }
    }
}

/// The side condition under which a lens loses no information: a `Remove`
/// must carry the very type and default that stand in the schema, and a
/// `Rename` must not overwrite an existing target field.
pub open spec fn spec_reversible(l: LensV, s: Map<Seq<char>, FieldV>) -> bool {
    match l {
        LensV::Add(_) => true,
        LensV::Remove(f) => s.dom().contains(f.name) ==> s[f.name] == f.as_field(),
        LensV::Rename { from, to } => from == to || !s.dom().contains(to),
    }
}

/// Lens reversibility: whenever a lens applies successfully and loses no
/// information, its reverse applied to the result restores the original
/// schema.
pub proof fn lemma_lens_reversible(l: LensV, s: Map<Seq<char>, FieldV>)
    requires
        spec_transform_schema(l, s) is Ok,
        spec_reversible(l, s),
    ensures
        spec_transform_schema(spec_reversed(l), spec_transform_schema(l, s)->Ok_0) == Ok::<
            _,
            ErrorV,
        >(s),
{
    let s1 = spec_transform_schema(l, s)->Ok_0;
    match l {
        LensV::Add(f) => {
            assert(s1.remove(f.name) =~= s);
        },
        LensV::Remove(f) => {
            assert(s1.insert(f.name, f.as_field()) =~= s);
        },
        LensV::Rename { from, to } => {
            let back = spec_transform_schema(spec_reversed(l), s1);
            assert(s1.dom().contains(to));
            assert(s1[to] == s[from]);
            assert(s1.remove(to).insert(from, s1[to]) =~= s);
        },
    }
}

/// The reverse of a lens sequence: each lens reversed, in reverse order.
pub open spec fn spec_reverse_seq(ls: Seq<LensV>) -> Seq<LensV> {
    Seq::new(ls.len(), |i: int| spec_reversed(ls[ls.len() - 1 - i]))
}

/// Folding a lens sequence over a schema, stopping at the first failure.
pub open spec fn spec_transform_seq(ls: Seq<LensV>, s: Map<Seq<char>, FieldV>) -> Result<
    Map<Seq<char>, FieldV>,
    ErrorV,
>
    decreases ls.len(),
{
    if ls.len() == 0 {
        Ok(s)
    } else {
        match spec_transform_schema(ls[0], s) {
            Ok(s1) => spec_transform_seq(ls.drop_first(), s1),
            Err(e) => Err(e),
        }
    }
}

/// Every step of the sequence is information-preserving at the schema it is
/// applied to.
pub open spec fn spec_seq_reversible(ls: Seq<LensV>, s: Map<Seq<char>, FieldV>) -> bool
    decreases ls.len(),
{
    if ls.len() == 0 {
        true
    } else {
        spec_reversible(ls[0], s) && match spec_transform_schema(ls[0], s) {
            Ok(s1) => spec_seq_reversible(ls.drop_first(), s1),
            Err(_) => true,
        }
    }
}

/// Appending one lens to a sequence applies it after the sequence.
proof fn lemma_transform_seq_push(ls: Seq<LensV>, l: LensV, s: Map<Seq<char>, FieldV>)
    requires
        spec_transform_seq(ls, s) is Ok,
    ensures
        spec_transform_seq(ls.push(l), s) == spec_transform_schema(
            l,
            spec_transform_seq(ls, s)->Ok_0,
        ),
    decreases ls.len(),
{
    if ls.len() == 0 {
        assert(ls.push(l)[0] == l);
        assert(ls.push(l).drop_first() =~= Seq::<LensV>::empty());
        match spec_transform_schema(l, s) {
            Ok(s1) => {
                assert(spec_transform_seq(ls.push(l), s) == spec_transform_seq(
                    ls.push(l).drop_first(),
                    s1,
                ));
                assert(spec_transform_seq(Seq::<LensV>::empty(), s1) == Ok::<_, ErrorV>(s1));
            },
            Err(e) => {
                assert(spec_transform_seq(ls.push(l), s) == Err::<Map<Seq<char>, FieldV>, _>(e));
            },
        }
    } else {
        let s1 = spec_transform_schema(ls[0], s)->Ok_0;
        lemma_transform_seq_push(ls.drop_first(), l, s1);
        assert(ls.push(l)[0] == ls[0]);
        assert(ls.push(l).drop_first() =~= ls.drop_first().push(l));
    }
}

/// Sequence reversal: applying a successful, information-preserving lens
/// sequence and then its reverse restores the original schema.
pub proof fn lemma_seq_reversible(ls: Seq<LensV>, s: Map<Seq<char>, FieldV>)
    requires
        spec_transform_seq(ls, s) is Ok,
        spec_seq_reversible(ls, s),
    ensures
        spec_transform_seq(spec_reverse_seq(ls), spec_transform_seq(ls, s)->Ok_0) == Ok::<
            _,
            ErrorV,
        >(s),
    decreases ls.len(),
{
    if ls.len() == 0 {
        assert(spec_reverse_seq(ls) =~= Seq::<LensV>::empty());
    } else {
        let l0 = ls[0];
        let s1 = spec_transform_schema(l0, s)->Ok_0;
        let rest = ls.drop_first();
        let sn = spec_transform_seq(ls, s)->Ok_0;
        assert(sn == spec_transform_seq(rest, s1)->Ok_0);
        lemma_seq_reversible(rest, s1);
        assert(spec_reverse_seq(ls) =~= spec_reverse_seq(rest).push(spec_reversed(l0))) by {
            assert forall|i: int| 0 <= i < ls.len() implies spec_reverse_seq(ls)[i]
                == spec_reverse_seq(rest).push(spec_reversed(l0))[i] by {
                if i < ls.len() - 1 {
                    assert(rest[rest.len() - 1 - i] == ls[ls.len() - 1 - i]);
                }
            }
        }
        lemma_transform_seq_push(spec_reverse_seq(rest), spec_reversed(l0), sn);
        lemma_lens_reversible(l0, s);
    }
}

} // verus!
