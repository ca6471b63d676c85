//! The JTD-form schema and lens algebra: lenses that transform a full JSON
//! Type Definition sub-schema rather than a flat record.  A schema here is
//! the `Properties` subset of JTD — records with named typed fields — plus
//! `Elements` for lists and primitive types; `In` descends into a named
//! sub-schema and `MapElements` descends into a list's element schema.
//!
//! A failed transformation leaves the schema unchanged, even when the lens
//! had to take the schema apart to look inside it.

use vstd::prelude::*;

use crate::strmap::{assoc_view, StrMap};
use crate::type_::Type;
use crate::value::{Value, ValueV};

verus! {

broadcast use vstd::std_specs::vec::group_vec_axioms;

/// A JSON Type Definition sub-schema, as far as lenses reach into it.
#[derive(Debug, PartialEq)]
pub enum JtdSchema {
    Empty,
    Primitive(Type),
    Properties(StrMap<JtdSchema>),
    Elements(Box<JtdSchema>),
}

/// The mathematical shape of a [`JtdSchema`].
pub enum JtdV {
    Empty,
    Primitive(Type),
    Properties(Map<Seq<char>, JtdV>),
    Elements(Box<JtdV>),
}

/// The abstract shape of a schema.
pub open spec fn jtd_view(s: JtdSchema) -> JtdV
    decreases s,
{
    match s {
        JtdSchema::Empty => JtdV::Empty,
        JtdSchema::Primitive(t) => JtdV::Primitive(t),
        JtdSchema::Properties(props) => JtdV::Properties(props_view(props.entries@)),
        JtdSchema::Elements(inner) => JtdV::Elements(Box::new(jtd_view(*inner))),
    }
}

/// The map described by a property list; later entries win, although under
/// [`JtdSchema::wf`] every name appears at most once.
pub open spec fn props_view(s: Seq<(String, JtdSchema)>) -> Map<Seq<char>, JtdV>
    decreases s,
{
    if s.len() == 0 {
        Map::empty()
    } else {
        props_view(s.drop_last()).insert(s.last().0@, jtd_view(s.last().1))
    }
}

/// A property list describes the same map through [`props_view`] and through
/// the generic association view.
pub proof fn lemma_props_is_assoc(s: Seq<(String, JtdSchema)>)
    ensures
        props_view(s) == assoc_view(s),
    decreases s.len(),
{
    if s.len() > 0 {
        lemma_props_is_assoc(s.drop_last());
        assert(props_view(s) =~= assoc_view(s));
    }
}

impl View for JtdSchema {
    type V = JtdV;

    open spec fn view(&self) -> JtdV {
        jtd_view(*self)
    }
}

impl JtdSchema {
    /// Property names are unique at every level.
    pub open spec fn wf(&self) -> bool
        decreases self,
    {
        match self {
            JtdSchema::Empty => true,
            JtdSchema::Primitive(_) => true,
            JtdSchema::Properties(props) => props.wf() && (forall|i: int|
                0 <= i < props.entries@.len() ==> (#[trigger] props.entries@[i]).1.wf()),
            JtdSchema::Elements(inner) => inner.wf(),
        }
    }

    /// A structural copy whose abstract shape is the same.
    pub fn duplicate(&self) -> (r: JtdSchema)
        ensures
            r@ == self@,
            self.wf() ==> r.wf(),
        decreases self,
    {
        match self {
            JtdSchema::Empty => JtdSchema::Empty,
            JtdSchema::Primitive(t) => JtdSchema::Primitive(t.duplicate()),
            JtdSchema::Properties(props) => {
                let n = props.entries.len();
                let mut out: Vec<(String, JtdSchema)> = Vec::new();
                let mut i: usize = 0;
                while i < n
                    invariant
                        self == JtdSchema::Properties(*props),
                        n == props.entries@.len(),
                        i <= n,
                        out@.len() == i,
                        forall|j: int|
                            0 <= j < i ==> (#[trigger] out@[j]).0@ == props.entries@[j].0@
                                && out@[j].1@ == props.entries@[j].1@ && (props.entries@[j].1.wf()
                                ==> out@[j].1.wf()),
                    decreases n - i,
                {
                    let (name, sub) = (&props.entries[i].0, &props.entries[i].1);
                    proof {
                        assert(decreases_to!(*self => self->Properties_0));
                        assert(decreases_to!(self->Properties_0 => self->Properties_0.entries));
                        assert(decreases_to!(self->Properties_0.entries => self->Properties_0.entries@));
                        assert(decreases_to!(self->Properties_0.entries@ => self->Properties_0.entries@[i as int]));
                        assert(decreases_to!(self->Properties_0.entries@[i as int] => self->Properties_0.entries@[i as int].1));
                        assert(self->Properties_0.entries@[i as int].1 == props.entries@[i as int].1);
                    }
                    out.push((name.clone(), sub.duplicate()));
                    i += 1;
                }
                let copied = StrMap { entries: out };
                proof {
                    if self.wf() {
                        assert(copied.wf());
                        assert forall|j: int|
                            0 <= j < copied.entries@.len() implies (
                        #[trigger] copied.entries@[j]).1.wf() by {
                            assert(props.entries@[j].1.wf());
                        }
                    }
                    lemma_props_view_congruent(props.entries@, copied.entries@);
                }
                JtdSchema::Properties(copied)
            },
            JtdSchema::Elements(inner) => JtdSchema::Elements(Box::new(inner.duplicate())),
        }
    }

    /// Whether two schemas have the same abstract shape.
    pub fn same_shape(&self, other: &JtdSchema) -> (r: bool)
        requires
            self.wf(),
            other.wf(),
        ensures
            r == (self@ == other@),
        decreases self,
    {
        match (self, other) {
            (JtdSchema::Empty, JtdSchema::Empty) => true,
            (JtdSchema::Primitive(a), JtdSchema::Primitive(b)) => {
                let r = type_eq(a, b);
                proof {
                    if !r {
                        assert(self@ != other@);
                    }
                }
                r
            },
            (JtdSchema::Properties(a), JtdSchema::Properties(b)) => {
                proof {
                    lemma_props_view_dom(a.entries@);
                    lemma_props_view_dom(b.entries@);
                    lemma_props_view_dom(a.entries@);
                    lemma_props_view_dom(b.entries@);
                }
                if a.entries.len() != b.entries.len() {
                    proof {
                        lemma_props_len(a.entries@);
                        lemma_props_len(b.entries@);
                    }
                    return false;
                }
                let n = a.entries.len();
                let mut i: usize = 0;
                while i < n
                    invariant
                        self == JtdSchema::Properties(*a),
                        other == JtdSchema::Properties(*b),
                        self.wf(),
                        other.wf(),
                        n == a.entries@.len(),
                        n == b.entries@.len(),
                        i <= n,
                        forall|j: int|
                            0 <= j < i ==> props_view(b.entries@).dom().contains(
                                (#[trigger] a.entries@[j]).0@,
                            ) && props_view(b.entries@)[a.entries@[j].0@] == jtd_view(
                                a.entries@[j].1,
                            ),
                    decreases n - i,
                {
                    proof {
                        lemma_props_view_dom(b.entries@);
                    }
                    let name = &a.entries[i].0;
                    match find_prop(b, name) {
                        None => {
                            proof {
                                lemma_props_view_at(a.entries@, i as int);
                                assert(props_view(a.entries@).dom().contains(
                                    a.entries@[i as int].0@,
                                ));
                                assert(self@ != other@);
                            }
                            return false;
                        },
                        Some(bv) => {
                            proof {
                                assert(a.entries@[i as int].1.wf());
                            }
                            if !a.entries[i].1.same_shape(bv) {
                                proof {
                                    lemma_props_view_at(a.entries@, i as int);
                                    assert(self@ != other@);
                                }
                                return false;
                            }
                        },
                    }
                    i += 1;
                }
                proof {
                    lemma_props_len(a.entries@);
                    lemma_props_len(b.entries@);
                    lemma_props_view_dom(a.entries@);
                    lemma_props_view_dom(b.entries@);
                    assert forall|k: Seq<char>|
                        props_view(a.entries@).dom().contains(k) implies #[trigger] props_view(
                        b.entries@,
                    ).dom().contains(k) && props_view(b.entries@)[k] == props_view(
                        a.entries@,
                    )[k] by {
                        let j = choose|j: int|
                            0 <= j < a.entries@.len() && (#[trigger] a.entries@[j]).0@ == k;
                        lemma_props_view_at(a.entries@, j);
                    }
                    vstd::set_lib::lemma_subset_equality(
                        props_view(a.entries@).dom(),
                        props_view(b.entries@).dom(),
                    );
                    assert(props_view(a.entries@) =~= props_view(b.entries@));
                }
                true
            },
            (JtdSchema::Elements(a), JtdSchema::Elements(b)) => {
                let r = a.same_shape(b);
                proof {
                    if !r {
                        assert(self@ != other@);
                    }
                }
                r
            },
            _ => {
                proof {
                    assert(self@ != other@);
                }
                false
            },
        }
    }
}

/// Whether two field types are structurally equal.
fn type_eq(a: &Type, b: &Type) -> (r: bool)
    ensures
        r == (a == b),
    decreases a,
{
    match (a, b) {
        (Type::String, Type::String) => true,
        (Type::Int, Type::Int) => true,
        (Type::Float, Type::Float) => true,
        (Type::Bool, Type::Bool) => true,
        (Type::Nullable(x), Type::Nullable(y)) => type_eq(x, y),
        _ => false,
    }
}

/// The property named `name`, if the schema holds one.
fn find_prop<'a>(props: &'a StrMap<JtdSchema>, name: &String) -> (r: Option<&'a JtdSchema>)
    requires
        props.wf(),
    ensures
        match r {
            Some(v) => props_view(props.entries@).dom().contains(name@) && jtd_view(*v)
                == props_view(props.entries@)[name@] && exists|i: int|
                0 <= i < props.entries@.len() && (#[trigger] props.entries@[i]).0@ == name@ && *v
                    == props.entries@[i].1,
            None => !props_view(props.entries@).dom().contains(name@),
        },
{
    proof {
        lemma_props_view_dom(props.entries@);
    }
    let n = props.entries.len();
    let mut i: usize = 0;
    while i < n
        invariant
            props.wf(),
            n == props.entries@.len(),
            i <= n,
            forall|j: int| 0 <= j < i ==> (#[trigger] props.entries@[j]).0@ != name@,
        decreases n - i,
    {
        if props.entries[i].0.eq(name) {
            proof {
                lemma_props_view_at(props.entries@, i as int);
            }
            return Some(&props.entries[i].1);
        }
        i += 1;
    }
    proof {
        lemma_props_view_dom(props.entries@);
    }
    None
}

/// Two property lists with pointwise equal names and shapes describe the
/// same map.
proof fn lemma_props_view_congruent(a: Seq<(String, JtdSchema)>, b: Seq<(String, JtdSchema)>)
    requires
        a.len() == b.len(),
        forall|j: int|
            0 <= j < a.len() ==> (#[trigger] b[j]).0@ == a[j].0@ && b[j].1@ == a[j].1@,
    ensures
        props_view(a) == props_view(b),
    decreases a.len(),
{
    if a.len() > 0 {
        assert(forall|j: int|
            0 <= j < a.drop_last().len() ==> (#[trigger] b.drop_last()[j]).0@
                == a.drop_last()[j].0@ && b.drop_last()[j].1@ == a.drop_last()[j].1@);
        lemma_props_view_congruent(a.drop_last(), b.drop_last());
        assert(b[a.len() - 1].0@ == a[a.len() - 1].0@ && b[a.len() - 1].1@ == a[a.len() - 1].1@);
        assert(jtd_view(b.last().1) == jtd_view(a.last().1));
        assert(props_view(a) =~= props_view(b));
    }
}

/// A name is in a property map exactly when some entry holds it.
pub proof fn lemma_props_view_dom(s: Seq<(String, JtdSchema)>)
    ensures
        forall|k: Seq<char>|
            #[trigger] props_view(s).dom().contains(k) <==> exists|i: int|
                0 <= i < s.len() && s[i].0@ == k,
    decreases s.len(),
{
    if s.len() > 0 {
        lemma_props_view_dom(s.drop_last());
        assert forall|k: Seq<char>| #[trigger]
            props_view(s).dom().contains(k) implies exists|i: int|
            0 <= i < s.len() && s[i].0@ == k by {
            if k == s.last().0@ {
                assert(s[s.len() - 1].0@ == k);
            } else {
                assert(props_view(s.drop_last()).dom().contains(k));
                let i = choose|i: int| 0 <= i < s.drop_last().len() && s.drop_last()[i].0@ == k;
                assert(s.drop_last()[i] == s[i]);
                assert(s[i].0@ == k);
            }
        }
        assert forall|k: Seq<char>|
            (exists|i: int| 0 <= i < s.len() && s[i].0@ == k) implies #[trigger]
            props_view(s).dom().contains(k) by {
            let i = choose|i: int| 0 <= i < s.len() && s[i].0@ == k;
            if i < s.len() - 1 {
                assert(s.drop_last()[i].0@ == k);
                assert(props_view(s.drop_last()).dom().contains(k));
            } else {
                assert(k == s.last().0@);
            }
        }
    }
}

/// Under unique names, the map sends each entry's name to that entry's shape.
pub proof fn lemma_props_view_at(s: Seq<(String, JtdSchema)>, i: int)
    requires
        crate::strmap::unique_keys(s),
        0 <= i < s.len(),
    ensures
        props_view(s).dom().contains(s[i].0@),
        props_view(s)[s[i].0@] == jtd_view(s[i].1),
    decreases s.len(),
{
    if i == s.len() - 1 {
    } else {
        assert(forall|x: int, y: int|
            0 <= x < y < s.drop_last().len() ==> s.drop_last()[x].0@ != s.drop_last()[y].0@);
        lemma_props_view_at(s.drop_last(), i);
        assert(s[i].0@ != s.last().0@);
    }
}

/// Under unique names, the map has exactly as many names as entries.
proof fn lemma_props_len(s: Seq<(String, JtdSchema)>)
    requires
        crate::strmap::unique_keys(s),
    ensures
        props_view(s).dom().finite(),
        props_view(s).dom().len() == s.len(),
    decreases s.len(),
{
    if s.len() > 0 {
        assert(forall|x: int, y: int|
            0 <= x < y < s.drop_last().len() ==> s.drop_last()[x].0@ != s.drop_last()[y].0@);
        lemma_props_len(s.drop_last());
        lemma_props_view_dom(s.drop_last());
        assert(!props_view(s.drop_last()).dom().contains(s.last().0@)) by {
            if props_view(s.drop_last()).dom().contains(s.last().0@) {
                let i = choose|i: int|
                    0 <= i < s.drop_last().len() && s.drop_last()[i].0@ == s.last().0@;
                assert(s[i].0@ == s[s.len() - 1].0@);
            }
        }
    }
}

/// The kind of a schema, for error reporting.
pub open spec fn spec_kind(v: JtdV) -> Seq<char> {
    match v {
        JtdV::Empty => "empty"@,
        JtdV::Primitive(_) => "type"@,
        JtdV::Properties(_) => "properties"@,
        JtdV::Elements(_) => "elements"@,
    }
}

/// The kind of a schema, as a word for error messages.
fn kind_name(s: &JtdSchema) -> (r: &'static str)
    ensures
        r@ == spec_kind(s@),
{
    proof {
        reveal_strlit("empty");
        reveal_strlit("type");
        reveal_strlit("properties");
        reveal_strlit("elements");
    }
    match s {
        JtdSchema::Empty => "empty",
        JtdSchema::Primitive(_) => "type",
        JtdSchema::Properties(_) => "properties",
        JtdSchema::Elements(_) => "elements",
    }
}

/// A lens over JTD-form schemas.  `Remove` and `Convert` carry the schemas
/// they expect, so that each lens has an inverse.
#[derive(Debug, PartialEq)]
pub enum JtdLens {
    Add { name: String, schema: JtdSchema },
    Remove { name: String, schema: JtdSchema },
    Rename { from: String, to: String },
    Extract { host: String, name: String },
    Embed { host: String, name: String },
    Head { name: String },
    Wrap { name: String },
    In { name: String, ops: Vec<JtdLens> },
    MapElements { ops: Vec<JtdLens> },
    Convert {
        name: String,
        from_type: JtdSchema,
        to_type: JtdSchema,
        forward: Vec<(Value, Value)>,
        reverse: Vec<(Value, Value)>,
    },
}

/// The mathematical shape of a [`JtdLens`].
pub enum JtdLensV {
    Add { name: Seq<char>, schema: JtdV },
    Remove { name: Seq<char>, schema: JtdV },
    Rename { from: Seq<char>, to: Seq<char> },
    Extract { host: Seq<char>, name: Seq<char> },
    Embed { host: Seq<char>, name: Seq<char> },
    Head { name: Seq<char> },
    Wrap { name: Seq<char> },
    In { name: Seq<char>, ops: Seq<JtdLensV> },
    MapElements { ops: Seq<JtdLensV> },
    Convert {
        name: Seq<char>,
        from_type: JtdV,
        to_type: JtdV,
        forward: Seq<(ValueV, ValueV)>,
        reverse: Seq<(ValueV, ValueV)>,
    },
}

/// The abstract shapes of a value-map pair list.
pub open spec fn value_pairs_view(s: Seq<(Value, Value)>) -> Seq<(ValueV, ValueV)> {
    Seq::new(s.len(), |i: int| (s[i].0@, s[i].1@))
}

/// The abstract shape of a lens.
pub open spec fn jtd_lens_view(l: JtdLens) -> JtdLensV
    decreases l,
{
    match l {
        JtdLens::Add { name, schema } => JtdLensV::Add { name: name@, schema: schema@ },
        JtdLens::Remove { name, schema } => JtdLensV::Remove { name: name@, schema: schema@ },
        JtdLens::Rename { from, to } => JtdLensV::Rename { from: from@, to: to@ },
        JtdLens::Extract { host, name } => JtdLensV::Extract { host: host@, name: name@ },
        JtdLens::Embed { host, name } => JtdLensV::Embed { host: host@, name: name@ },
        JtdLens::Head { name } => JtdLensV::Head { name: name@ },
        JtdLens::Wrap { name } => JtdLensV::Wrap { name: name@ },
        JtdLens::In { name, ops } => JtdLensV::In { name: name@, ops: jtd_lens_views(ops@) },
        JtdLens::MapElements { ops } => JtdLensV::MapElements { ops: jtd_lens_views(ops@) },
        JtdLens::Convert { name, from_type, to_type, forward, reverse } => JtdLensV::Convert {
            name: name@,
            from_type: from_type@,
            to_type: to_type@,
            forward: value_pairs_view(forward@),
            reverse: value_pairs_view(reverse@),
        },
    }
}

/// The abstract shapes of a lens sequence.
pub open spec fn jtd_lens_views(ops: Seq<JtdLens>) -> Seq<JtdLensV>
    decreases ops,
{
    if ops.len() == 0 {
        Seq::empty()
    } else {
        seq![jtd_lens_view(ops[0])] + jtd_lens_views(ops.drop_first())
    }
}

impl View for JtdLens {
    type V = JtdLensV;

    open spec fn view(&self) -> JtdLensV {
        jtd_lens_view(*self)
    }
}

impl JtdLens {
    /// Schemas carried by the lens are themselves well formed.
    pub open spec fn wf(&self) -> bool
        decreases self,
    {
        match self {
            JtdLens::Add { schema, .. } => schema.wf(),
            JtdLens::Remove { schema, .. } => schema.wf(),
            JtdLens::Rename { .. } => true,
            JtdLens::Extract { .. } => true,
            JtdLens::Embed { .. } => true,
            JtdLens::Head { .. } => true,
            JtdLens::Wrap { .. } => true,
            JtdLens::In { ops, .. } => forall|i: int|
                0 <= i < ops@.len() ==> (#[trigger] ops@[i]).wf(),
            JtdLens::MapElements { ops } => forall|i: int|
                0 <= i < ops@.len() ==> (#[trigger] ops@[i]).wf(),
            JtdLens::Convert { from_type, to_type, .. } => from_type.wf() && to_type.wf(),
        }
    }
}

/// A failed JTD-form transformation.  Failures never change the schema.
#[derive(Debug, PartialEq)]
pub enum JtdError {
    UnsupportedSchemaType,
    KeyConflict(String),
    MissingName(String, String),
    ExpectedXGotY(String, String, String),
    WrongTypeForTransform(JtdSchema, JtdSchema),
    Within(String, Box<JtdError>),
}

/// The mathematical shape of a [`JtdError`].
pub enum JtdErrorV {
    UnsupportedSchemaType,
    KeyConflict(Seq<char>),
    MissingName(Seq<char>, Seq<char>),
    ExpectedXGotY(Seq<char>, Seq<char>, Seq<char>),
    WrongTypeForTransform(JtdV, JtdV),
    Within(Seq<char>, Box<JtdErrorV>),
}

/// The abstract shape of an error.
pub open spec fn jtd_error_view(e: JtdError) -> JtdErrorV
    decreases e,
{
    match e {
        JtdError::UnsupportedSchemaType => JtdErrorV::UnsupportedSchemaType,
        JtdError::KeyConflict(n) => JtdErrorV::KeyConflict(n@),
        JtdError::MissingName(op, n) => JtdErrorV::MissingName(op@, n@),
        JtdError::ExpectedXGotY(op, x, y) => JtdErrorV::ExpectedXGotY(op@, x@, y@),
        JtdError::WrongTypeForTransform(x, y) => JtdErrorV::WrongTypeForTransform(x@, y@),
        JtdError::Within(n, inner) => JtdErrorV::Within(n@, Box::new(jtd_error_view(*inner))),
    }
}

impl View for JtdError {
    type V = JtdErrorV;

    open spec fn view(&self) -> JtdErrorV {
        jtd_error_view(*self)
    }
}

/// What a JTD-form lens does to a schema.  An `Empty` schema is first
/// promoted to an empty `Properties`, so the first migration starts from a
/// clean object.
pub open spec fn spec_jtd_transform(l: JtdLensV, s: JtdV) -> Result<JtdV, JtdErrorV>
    decreases l,
{
    let t = if s is Empty {
        JtdV::Properties(Map::empty())
    } else {
        s
    };
    match l {
        JtdLensV::Add { name, schema } => match t {
            JtdV::Properties(m) => if m.dom().contains(name) {
                Err(JtdErrorV::KeyConflict(name))
            } else {
                Ok(JtdV::Properties(m.insert(name, schema)))
            },
            _ => Err(JtdErrorV::UnsupportedSchemaType),
        },
        JtdLensV::Remove { name, .. } => match t {
            JtdV::Properties(m) => if m.dom().contains(name) {
                Ok(JtdV::Properties(m.remove(name)))
            } else {
                Err(JtdErrorV::MissingName("remove"@, name))
            },
            _ => Err(JtdErrorV::UnsupportedSchemaType),
        },
        JtdLensV::Rename { from, to } => match t {
            JtdV::Properties(m) => if m.dom().contains(from) {
                Ok(JtdV::Properties(m.remove(from).insert(to, m[from])))
            } else {
                Err(JtdErrorV::MissingName("rename"@, from))
            },
            _ => Err(JtdErrorV::UnsupportedSchemaType),
        },
        JtdLensV::Extract { host, name } => match t {
            JtdV::Properties(m) => if !m.dom().contains(host) {
                Err(JtdErrorV::MissingName("extract"@, host))
            } else {
                match m[host] {
                    JtdV::Properties(inner) => if inner.dom().contains(name) {
                        Ok(JtdV::Properties(m.insert(host, inner[name])))
                    } else {
                        Err(JtdErrorV::Within(
                            host,
                            Box::new(JtdErrorV::MissingName("extract"@, name)),
                        ))
                    },
                    _ => Err(JtdErrorV::ExpectedXGotY("extract"@, "properties"@, spec_kind(m[host]))),
                }
            },
            _ => Err(JtdErrorV::UnsupportedSchemaType),
        },
        JtdLensV::Embed { host, name } => match t {
            JtdV::Properties(m) => if m.dom().contains(host) {
                Ok(
                    JtdV::Properties(
                        m.insert(host, JtdV::Properties(Map::empty().insert(name, m[host]))),
                    ),
                )
            } else {
                Err(JtdErrorV::MissingName("embed"@, host))
            },
            _ => Err(JtdErrorV::UnsupportedSchemaType),
        },
        JtdLensV::Head { name } => match t {
            JtdV::Properties(m) => if !m.dom().contains(name) {
                Err(JtdErrorV::MissingName("head"@, name))
            } else {
                match m[name] {
                    JtdV::Elements(e) => Ok(JtdV::Properties(m.insert(name, *e))),
                    _ => Err(JtdErrorV::ExpectedXGotY("head"@, "elements"@, spec_kind(m[name]))),
                }
            },
            _ => Err(JtdErrorV::UnsupportedSchemaType),
        },
        JtdLensV::Wrap { name } => match t {
            JtdV::Properties(m) => if m.dom().contains(name) {
                Ok(JtdV::Properties(m.insert(name, JtdV::Elements(Box::new(m[name])))))
            } else {
                Err(JtdErrorV::MissingName("wrap"@, name))
            },
            _ => Err(JtdErrorV::UnsupportedSchemaType),
        },
        JtdLensV::In { name, ops } => match t {
            JtdV::Properties(m) => if m.dom().contains(name) {
                match spec_jtd_transform_seq(ops, m[name]) {
                    Ok(sub) => Ok(JtdV::Properties(m.insert(name, sub))),
                    Err(e) => Err(JtdErrorV::Within(name, Box::new(e))),
                }
            } else {
                Err(JtdErrorV::MissingName("in"@, name))
            },
            _ => Err(JtdErrorV::UnsupportedSchemaType),
        },
        JtdLensV::MapElements { ops } => match t {
            JtdV::Elements(e) => match spec_jtd_transform_seq(ops, *e) {
                Ok(sub) => Ok(JtdV::Elements(Box::new(sub))),
                Err(err) => Err(err),
            },
            _ => Err(JtdErrorV::ExpectedXGotY("map"@, "elements"@, spec_kind(t))),
        },
        JtdLensV::Convert { name, from_type, to_type, .. } => match t {
            JtdV::Properties(m) => if !m.dom().contains(name) {
                Err(JtdErrorV::MissingName("convert"@, name))
            } else if m[name] == from_type {
                Ok(JtdV::Properties(m.insert(name, to_type)))
            } else {
                Err(JtdErrorV::WrongTypeForTransform(from_type, m[name]))
            },
            _ => Err(JtdErrorV::UnsupportedSchemaType),
        },
    }
}

/// Folding a lens sequence over a schema, stopping at the first failure.
pub open spec fn spec_jtd_transform_seq(ls: Seq<JtdLensV>, s: JtdV) -> Result<JtdV, JtdErrorV>
    decreases ls,
{
    if ls.len() == 0 {
        Ok(s)
    } else {
        match spec_jtd_transform(ls[0], s) {
            Ok(s1) => spec_jtd_transform_seq(ls.drop_first(), s1),
            Err(e) => Err(e),
        }
    }
}

/// Lens shapes index pointwise into a lens list.
proof fn lemma_lens_views_index(s: Seq<JtdLens>)
    ensures
        jtd_lens_views(s).len() == s.len(),
        forall|k: int|
            0 <= k < s.len() ==> jtd_lens_views(s)[k] == jtd_lens_view(#[trigger] s[k]),
    decreases s.len(),
{
    if s.len() > 0 {
        lemma_lens_views_index(s.drop_first());
        assert forall|k: int|
            0 <= k < s.len() implies jtd_lens_views(s)[k] == jtd_lens_view(#[trigger] s[k]) by {
            if k > 0 {
                assert(s.drop_first()[k - 1] == s[k]);
                assert(jtd_lens_views(s)[k] == jtd_lens_views(s.drop_first())[k - 1]);
            }
        }
    }
}

/// Every schema held in `post` is well formed if those of `pre` were and the
/// one inserted schema is.
proof fn lemma_schema_values_wf(
    pre: Seq<(String, JtdSchema)>,
    post: Seq<(String, JtdSchema)>,
    inserted: JtdSchema,
)
    requires
        forall|i: int| 0 <= i < pre.len() ==> (#[trigger] pre[i]).1.wf(),
        inserted.wf(),
        forall|i: int|
            0 <= i < post.len() ==> (#[trigger] post[i]).1 == inserted || exists|j: int|
                0 <= j < pre.len() && pre[j].1 == post[i].1,
    ensures
        forall|i: int| 0 <= i < post.len() ==> (#[trigger] post[i]).1.wf(),
{
    assert forall|i: int| 0 <= i < post.len() implies (#[trigger] post[i]).1.wf() by {
        if post[i].1 != inserted {
            let j = choose|j: int| 0 <= j < pre.len() && pre[j].1 == post[i].1;
            assert(pre[j].1.wf());
        }
    }
}

/// Every schema kept from `pre` is well formed if those of `pre` were.
proof fn lemma_schema_values_wf_removed(
    pre: Seq<(String, JtdSchema)>,
    post: Seq<(String, JtdSchema)>,
)
    requires
        forall|i: int| 0 <= i < pre.len() ==> (#[trigger] pre[i]).1.wf(),
        forall|i: int|
            0 <= i < post.len() ==> exists|j: int| 0 <= j < pre.len() && pre[j].1 == (
            #[trigger] post[i]).1,
    ensures
        forall|i: int| 0 <= i < post.len() ==> (#[trigger] post[i]).1.wf(),
{
    assert forall|i: int| 0 <= i < post.len() implies (#[trigger] post[i]).1.wf() by {
        let j = choose|j: int| 0 <= j < pre.len() && pre[j].1 == post[i].1;
        assert(pre[j].1.wf());
    }
}

/// A schema taken out of a well-formed property list is well formed.
proof fn lemma_taken_schema_wf(pre: Seq<(String, JtdSchema)>, taken: JtdSchema)
    requires
        forall|i: int| 0 <= i < pre.len() ==> (#[trigger] pre[i]).1.wf(),
        exists|j: int| 0 <= j < pre.len() && pre[j].1 == taken,
    ensures
        taken.wf(),
{
    let j = choose|j: int| 0 <= j < pre.len() && pre[j].1 == taken;
    assert(pre[j].1.wf());
}

impl JtdLens {
    /// Apply this lens to a schema in place.  On failure the schema is left
    /// unchanged — lenses that take the schema apart to look inside restore
    /// what they removed — and the error says exactly what went wrong.
    pub fn transform(&self, schema: &mut JtdSchema) -> (r: Result<(), JtdError>)
        requires
            old(schema).wf(),
            self.wf(),
        ensures
            final(schema).wf(),
            match r {
                Ok(()) => spec_jtd_transform(self@, old(schema)@) == Ok::<_, JtdErrorV>(
                    final(schema)@,
                ),
                Err(e) => spec_jtd_transform(self@, old(schema)@) == Err::<JtdV, _>(e@)
                    && final(schema)@ == old(schema)@,
            },
        decreases self,
    {
        let was_empty = matches!(schema, JtdSchema::Empty);
        let mut current = JtdSchema::Empty;
        core::mem::swap(schema, &mut current);
        if was_empty {
            current = JtdSchema::Properties(StrMap::new());
        }
        let ghost s0 = old(schema)@;
        let ghost t = current@;
        proof {
            if was_empty {
                assert(current->Properties_0.entries@ =~= Seq::<(String, JtdSchema)>::empty());
                assert(props_view(current->Properties_0.entries@) =~= Map::<Seq<char>, JtdV>::empty());
                assert(t == JtdV::Properties(Map::<Seq<char>, JtdV>::empty()));
            }
            assert(t == if s0 is Empty {
                JtdV::Properties(Map::empty())
            } else {
                s0
            });
        }
        match current {
            JtdSchema::Properties(props) => {
                let mut props = props;
                let ghost pre = props.entries@;
                let ghost m0 = props_view(pre);
                proof {
                    lemma_props_is_assoc(pre);
                    lemma_props_view_dom(pre);
                }
                match self {
                    JtdLens::Add { name, schema: added } => {
                        if props.contains_key(name) {
                            restore(schema, was_empty, props);
                            proof {
                                lemma_props_is_assoc(final(schema)->Properties_0.entries@);
                            }
                            Err(JtdError::KeyConflict(name.clone()))
                        } else {
                            let copied = added.duplicate();
                            let ghost copied_g = copied;
                            props.insert(name.clone(), copied);
                            proof {
                                lemma_props_is_assoc(props.entries@);
                                lemma_schema_values_wf(pre, props.entries@, copied_g);
                            }
                            let ghost post = props_view(props.entries@);
                            proof {
                                assert(post == m0.insert(name@, added@));
                            }
                            *schema = JtdSchema::Properties(props);
                            Ok(())
                        }
                    },
                    JtdLens::Remove { name, .. } => {
                        match props.remove(name) {
                            Some(_) => {
                                proof {
                                    lemma_props_is_assoc(props.entries@);
                                    lemma_schema_values_wf_removed(pre, props.entries@);
                                }
                                *schema = JtdSchema::Properties(props);
                                Ok(())
                            },
                            None => {
                                proof {
                                    lemma_props_is_assoc(props.entries@);
                                    assert(props_view(props.entries@) =~= m0);
                                }
                                restore(schema, was_empty, props);
                                Err(JtdError::MissingName(
                                    "remove".to_owned(),
                                    name.clone(),
                                ))
                            },
                        }
                    },
                    JtdLens::Rename { from, to } => {
                        match props.remove(from) {
                            Some(value) => {
                                let ghost moved = value@;
                                let ghost mid = props.entries@;
                                proof {
                                    lemma_taken_schema_wf(pre, value);
                                    lemma_schema_values_wf_removed(pre, mid);
                                }
                                props.insert(to.clone(), value);
                                proof {
                                    lemma_props_is_assoc(props.entries@);
                                    lemma_props_is_assoc(mid);
                                    lemma_schema_values_wf(mid, props.entries@, value);
                                    assert(props_view(props.entries@) == m0.remove(from@).insert(
                                        to@,
                                        moved,
                                    ));
                                    assert(moved == m0[from@]);
                                }
                                *schema = JtdSchema::Properties(props);
                                Ok(())
                            },
                            None => {
                                proof {
                                    lemma_props_is_assoc(props.entries@);
                                    assert(props_view(props.entries@) =~= m0);
                                }
                                restore(schema, was_empty, props);
                                Err(JtdError::MissingName(
                                    "rename".to_owned(),
                                    from.clone(),
                                ))
                            },
                        }
                    },
                    JtdLens::Extract { host, name } => {
                        match props.remove(host) {
                            None => {
                                proof {
                                    lemma_props_is_assoc(props.entries@);
                                    assert(props_view(props.entries@) =~= m0);
                                }
                                restore(schema, was_empty, props);
                                Err(JtdError::MissingName(
                                    "extract".to_owned(),
                                    host.clone(),
                                ))
                            },
                            Some(hv) => {
                                let ghost hview = hv@;
                                let ghost mid = props.entries@;
                                proof {
                                    lemma_taken_schema_wf(pre, hv);
                                    lemma_schema_values_wf_removed(pre, mid);
                                    lemma_props_is_assoc(mid);
                                }
                                match hv {
                                    JtdSchema::Properties(inner) => {
                                        let mut inner = inner;
                                        let ghost inner_pre = inner.entries@;
                                        proof {
                                            lemma_props_is_assoc(inner_pre);
                                            lemma_props_view_dom(inner_pre);
                                        }
                                        match inner.remove(name) {
                                            Some(val) => {
                                                proof {
                                                    lemma_taken_schema_wf(inner_pre, val);
                                                }
                                                let ghost mid2 = props.entries@;
                                                props.insert(host.clone(), val);
                                                proof {
                                                    lemma_props_is_assoc(props.entries@);
                                                    lemma_schema_values_wf(mid2, props.entries@, val);
                                                    assert(props_view(props.entries@) == m0.remove(
                                                        host@,
                                                    ).insert(host@, props_view(inner_pre)[name@]));
                                                    assert(props_view(props.entries@) =~= m0.insert(
                                                        host@,
                                                        (m0[host@])->Properties_0[name@],
                                                    ));
                                                }
                                                *schema = JtdSchema::Properties(props);
                                                Ok(())
                                            },
                                            None => {
                                                proof {
                                                    lemma_props_is_assoc(inner.entries@);
                                                    assert(props_view(inner.entries@)
                                                        =~= props_view(inner_pre));
                                                }
                                                let ghost mid2 = props.entries@;
                                                props.insert(
                                                    host.clone(),
                                                    JtdSchema::Properties(inner),
                                                );
                                                proof {
                                                    lemma_props_is_assoc(props.entries@);
                                                    lemma_schema_values_wf(
                                                        mid2,
                                                        props.entries@,
                                                        JtdSchema::Properties(inner),
                                                    );
                                                    assert(props_view(props.entries@) =~= m0);
                                                }
                                                restore(schema, was_empty, props);
                                                let err = JtdError::Within(
                                                    host.clone(),
                                                    Box::new(JtdError::MissingName(
                                                        "extract".to_owned(),
                                                        name.clone(),
                                                    )),
                                                );
                                                proof {
                                                    reveal_with_fuel(jtd_error_view, 3);
                                                    assert(err@ == JtdErrorV::Within(
                                                        host@,
                                                        Box::new(JtdErrorV::MissingName(
                                                            "extract"@,
                                                            name@,
                                                        )),
                                                    ));
                                                }
                                                Err(err)
                                            },
                                        }
                                    },
                                    other => {
                                        let msg = kind_name(&other).to_owned();
                                        let ghost mid2 = props.entries@;
                                        props.insert(host.clone(), other);
                                        proof {
                                            lemma_props_is_assoc(props.entries@);
                                            lemma_schema_values_wf(mid2, props.entries@, other);
                                            assert(props_view(props.entries@) =~= m0);
                                        }
                                        restore(schema, was_empty, props);
                                        Err(JtdError::ExpectedXGotY(
                                            "extract".to_owned(),
                                            "properties".to_owned(),
                                            msg,
                                        ))
                                    },
                                }
                            },
                        }
                    },
                    JtdLens::Embed { host, name } => {
                        match props.remove(host) {
                            None => {
                                proof {
                                    lemma_props_is_assoc(props.entries@);
                                    assert(props_view(props.entries@) =~= m0);
                                }
                                restore(schema, was_empty, props);
                                Err(JtdError::MissingName(
                                    "embed".to_owned(),
                                    host.clone(),
                                ))
                            },
                            Some(hv) => {
                                let ghost hview = hv@;
                                let ghost mid = props.entries@;
                                proof {
                                    lemma_taken_schema_wf(pre, hv);
                                    lemma_schema_values_wf_removed(pre, mid);
                                    lemma_props_is_assoc(mid);
                                }
                                let mut inner: StrMap<JtdSchema> = StrMap::new();
                                inner.insert(name.clone(), hv);
                                let wrapped = JtdSchema::Properties(inner);
                                proof {
                                    lemma_props_is_assoc(wrapped->Properties_0.entries@);
                                    lemma_schema_values_wf(
                                        Seq::empty(),
                                        wrapped->Properties_0.entries@,
                                        hv,
                                    );
                                    assert(wrapped@ == JtdV::Properties(
                                        Map::<Seq<char>, JtdV>::empty().insert(name@, hview),
                                    )) by {
                                        assert(props_view(Seq::empty())
                                            =~= Map::<Seq<char>, JtdV>::empty());
                                        lemma_props_is_assoc(wrapped->Properties_0.entries@);
                                    }
                                }
                                let ghost mid2 = props.entries@;
                                props.insert(host.clone(), wrapped);
                                proof {
                                    lemma_props_is_assoc(props.entries@);
                                    lemma_schema_values_wf(mid2, props.entries@, wrapped);
                                    assert(props_view(props.entries@) =~= m0.insert(
                                        host@,
                                        JtdV::Properties(
                                            Map::<Seq<char>, JtdV>::empty().insert(
                                                name@,
                                                m0[host@],
                                            ),
                                        ),
                                    ));
                                }
                                *schema = JtdSchema::Properties(props);
                                Ok(())
                            },
                        }
                    },
                    JtdLens::Head { name } => {
                        match props.remove(name) {
                            None => {
                                proof {
                                    lemma_props_is_assoc(props.entries@);
                                    assert(props_view(props.entries@) =~= m0);
                                }
                                restore(schema, was_empty, props);
                                Err(JtdError::MissingName("head".to_owned(), name.clone()))
                            },
                            Some(v) => {
                                let ghost vview = v@;
                                let ghost mid = props.entries@;
                                proof {
                                    lemma_taken_schema_wf(pre, v);
                                    lemma_schema_values_wf_removed(pre, mid);
                                    lemma_props_is_assoc(mid);
                                }
                                match v {
                                    JtdSchema::Elements(element) => {
                                        let ghost mid2 = props.entries@;
                                        let element = *element;
                                        props.insert(name.clone(), element);
                                        proof {
                                            lemma_props_is_assoc(props.entries@);
                                            lemma_schema_values_wf(mid2, props.entries@, element);
                                            assert(props_view(props.entries@) =~= m0.insert(
                                                name@,
                                                *(m0[name@])->Elements_0,
                                            ));
                                        }
                                        *schema = JtdSchema::Properties(props);
                                        Ok(())
                                    },
                                    other => {
                                        let msg = kind_name(&other).to_owned();
                                        let ghost mid2 = props.entries@;
                                        props.insert(name.clone(), other);
                                        proof {
                                            lemma_props_is_assoc(props.entries@);
                                            lemma_schema_values_wf(mid2, props.entries@, other);
                                            assert(props_view(props.entries@) =~= m0);
                                        }
                                        restore(schema, was_empty, props);
                                        Err(JtdError::ExpectedXGotY(
                                            "head".to_owned(),
                                            "elements".to_owned(),
                                            msg,
                                        ))
                                    },
                                }
                            },
                        }
                    },
                    JtdLens::Wrap { name } => {
                        match props.remove(name) {
                            None => {
                                proof {
                                    lemma_props_is_assoc(props.entries@);
                                    assert(props_view(props.entries@) =~= m0);
                                }
                                restore(schema, was_empty, props);
                                Err(JtdError::MissingName("wrap".to_owned(), name.clone()))
                            },
                            Some(v) => {
                                let ghost vview = v@;
                                let ghost mid = props.entries@;
                                proof {
                                    lemma_taken_schema_wf(pre, v);
                                    lemma_schema_values_wf_removed(pre, mid);
                                    lemma_props_is_assoc(mid);
                                }
                                let wrapped = JtdSchema::Elements(Box::new(v));
                                let ghost mid2 = props.entries@;
                                props.insert(name.clone(), wrapped);
                                proof {
                                    lemma_props_is_assoc(props.entries@);
                                    lemma_schema_values_wf(mid2, props.entries@, wrapped);
                                    assert(props_view(props.entries@) =~= m0.insert(
                                        name@,
                                        JtdV::Elements(Box::new(m0[name@])),
                                    ));
                                }
                                *schema = JtdSchema::Properties(props);
                                Ok(())
                            },
                        }
                    },
                    JtdLens::In { name, ops } => {
                        match props.remove(name) {
                            None => {
                                proof {
                                    lemma_props_is_assoc(props.entries@);
                                    assert(props_view(props.entries@) =~= m0);
                                }
                                restore(schema, was_empty, props);
                                Err(JtdError::MissingName("in".to_owned(), name.clone()))
                            },
                            Some(sub) => {
                                let mut sub = sub;
                                let ghost sub0 = sub@;
                                let ghost mid = props.entries@;
                                proof {
                                    lemma_taken_schema_wf(pre, sub);
                                    lemma_schema_values_wf_removed(pre, mid);
                                    lemma_props_is_assoc(mid);
                                }
                                let snapshot = sub.duplicate();
                                let ghost lviews = jtd_lens_views(ops@);
                                proof {
                                    lemma_lens_views_index(ops@);
                                    assert(lviews.skip(0) =~= lviews);
                                }
                                let n = ops.len();
                                let mut j: usize = 0;
                                let mut failure: Option<JtdError> = None;
                                while j < n
                                    invariant
                                        n == ops@.len(),
                                        j <= n,
                                        self.wf(),
                                        *self matches JtdLens::In { name: n2, ops: o2 } && o2 == *ops,
                                        sub.wf(),
                                        lviews == jtd_lens_views(ops@),
                                        failure is None ==> spec_jtd_transform_seq(
                                            lviews.skip(j as int),
                                            sub@,
                                        ) == spec_jtd_transform_seq(lviews, sub0),
                                        failure matches Some(e) ==> spec_jtd_transform_seq(
                                            lviews,
                                            sub0,
                                        ) == Err::<JtdV, _>(e@),
                                        failure is Some ==> j == n,
                                    decreases n - j,
                                {
                                    proof {
                                        lemma_lens_views_index(ops@);
                                        assert(lviews.skip(j as int)[0] == jtd_lens_view(
                                            ops@[j as int],
                                        ));
                                        assert(lviews.skip(j as int).drop_first() =~= lviews.skip(
                                            j as int + 1,
                                        ));
                                        assert(decreases_to!(*self => self->In_ops));
                                        assert(decreases_to!(self->In_ops => self->In_ops@));
                                        assert(decreases_to!(self->In_ops@ => self->In_ops@[j as int]));
                                        assert((#[trigger] ops@[j as int]).wf());
                                    }
                                    match ops[j].transform(&mut sub) {
                                        Ok(()) => {
                                            j += 1;
                                        },
                                        Err(e) => {
                                            failure = Some(e);
                                            j = n;
                                        },
                                    }
                                }
                                match failure {
                                    None => {
                                        proof {
                                            assert(lviews.skip(n as int)
                                                =~= Seq::<JtdLensV>::empty());
                                        }
                                        let ghost mid2 = props.entries@;
                                        let ghost subv = sub@;
                                        props.insert(name.clone(), sub);
                                        proof {
                                            lemma_props_is_assoc(props.entries@);
                                            lemma_schema_values_wf(mid2, props.entries@, sub);
                                            assert(props_view(props.entries@) =~= m0.insert(
                                                name@,
                                                subv,
                                            ));
                                        }
                                        *schema = JtdSchema::Properties(props);
                                        Ok(())
                                    },
                                    Some(e) => {
                                        let ghost mid2 = props.entries@;
                                        props.insert(name.clone(), snapshot);
                                        proof {
                                            lemma_props_is_assoc(props.entries@);
                                            lemma_schema_values_wf(mid2, props.entries@, snapshot);
                                            assert(props_view(props.entries@) =~= m0);
                                        }
                                        restore(schema, was_empty, props);
                                        let err = JtdError::Within(name.clone(), Box::new(e));
                                        proof {
                                            reveal_with_fuel(jtd_error_view, 3);
                                            assert(err@ == JtdErrorV::Within(
                                                name@,
                                                Box::new(jtd_error_view(*err->Within_1)),
                                            ));
                                        }
                                        Err(err)
                                    },
                                }
                            },
                        }
                    },
                    JtdLens::MapElements { .. } => {
                        proof {
                            lemma_props_is_assoc(props.entries@);
                            assert(props_view(props.entries@) =~= m0);
                        }
                        restore(schema, was_empty, props);
                        proof {
                            reveal_strlit("properties");
                        }
                        Err(JtdError::ExpectedXGotY(
                            "map".to_owned(),
                            "elements".to_owned(),
                            "properties".to_owned(),
                        ))
                    },
                    JtdLens::Convert { name, from_type, to_type, .. } => {
                        match props.remove(name) {
                            None => {
                                proof {
                                    lemma_props_is_assoc(props.entries@);
                                    assert(props_view(props.entries@) =~= m0);
                                }
                                restore(schema, was_empty, props);
                                Err(JtdError::MissingName(
                                    "convert".to_owned(),
                                    name.clone(),
                                ))
                            },
                            Some(v) => {
                                let ghost vview = v@;
                                let ghost mid = props.entries@;
                                proof {
                                    lemma_taken_schema_wf(pre, v);
                                    lemma_schema_values_wf_removed(pre, mid);
                                    lemma_props_is_assoc(mid);
                                }
                                if v.same_shape(from_type) {
                                    let replacement = to_type.duplicate();
                                    let ghost mid2 = props.entries@;
                                    props.insert(name.clone(), replacement);
                                    proof {
                                        lemma_props_is_assoc(props.entries@);
                                        lemma_schema_values_wf(mid2, props.entries@, replacement);
                                        assert(props_view(props.entries@) =~= m0.insert(
                                            name@,
                                            to_type@,
                                        ));
                                    }
                                    *schema = JtdSchema::Properties(props);
                                    Ok(())
                                } else {
                                    let expected = from_type.duplicate();
                                    let actual = v.duplicate();
                                    let ghost mid2 = props.entries@;
                                    props.insert(name.clone(), v);
                                    proof {
                                        lemma_props_is_assoc(props.entries@);
                                        lemma_schema_values_wf(mid2, props.entries@, v);
                                        assert(props_view(props.entries@) =~= m0);
                                    }
                                    restore(schema, was_empty, props);
                                    Err(JtdError::WrongTypeForTransform(expected, actual))
                                }
                            },
                        }
                    },
                }
            },
            JtdSchema::Elements(element) => {
                match self {
                    JtdLens::MapElements { ops } => {
                        let mut sub = *element;
                        let ghost sub0 = sub@;
                        let snapshot = sub.duplicate();
                        let ghost lviews = jtd_lens_views(ops@);
                        proof {
                            lemma_lens_views_index(ops@);
                            assert(lviews.skip(0) =~= lviews);
                        }
                        let n = ops.len();
                        let mut j: usize = 0;
                        let mut failure: Option<JtdError> = None;
                        while j < n
                            invariant
                                n == ops@.len(),
                                j <= n,
                                self.wf(),
                                *self matches JtdLens::MapElements { ops: o2 } && o2 == *ops,
                                sub.wf(),
                                lviews == jtd_lens_views(ops@),
                                failure is None ==> spec_jtd_transform_seq(
                                    lviews.skip(j as int),
                                    sub@,
                                ) == spec_jtd_transform_seq(lviews, sub0),
                                failure matches Some(e) ==> spec_jtd_transform_seq(lviews, sub0)
                                    == Err::<JtdV, _>(e@),
                                failure is Some ==> j == n,
                            decreases n - j,
                        {
                            proof {
                                lemma_lens_views_index(ops@);
                                assert(lviews.skip(j as int)[0] == jtd_lens_view(ops@[j as int]));
                                assert(lviews.skip(j as int).drop_first() =~= lviews.skip(
                                    j as int + 1,
                                ));
                                assert(decreases_to!(*self => self->MapElements_ops));
                                assert(decreases_to!(self->MapElements_ops => self->MapElements_ops@));
                                assert(decreases_to!(self->MapElements_ops@ => self->MapElements_ops@[j as int]));
                                assert((#[trigger] ops@[j as int]).wf());
                            }
                            match ops[j].transform(&mut sub) {
                                Ok(()) => {
                                    j += 1;
                                },
                                Err(e) => {
                                    failure = Some(e);
                                    j = n;
                                },
                            }
                        }
                        match failure {
                            None => {
                                proof {
                                    assert(lviews.skip(n as int) =~= Seq::<JtdLensV>::empty());
                                }
                                *schema = JtdSchema::Elements(Box::new(sub));
                                Ok(())
                            },
                            Some(e) => {
                                *schema = JtdSchema::Elements(Box::new(snapshot));
                                Err(e)
                            },
                        }
                    },
                    _ => {
                        *schema = JtdSchema::Elements(element);
                        Err(JtdError::UnsupportedSchemaType)
                    },
                }
            },
            other => {
                let r = match self {
                    JtdLens::MapElements { .. } => {
                        let msg = kind_name(&other).to_owned();
                        Err(JtdError::ExpectedXGotY(
                            "map".to_owned(),
                            "elements".to_owned(),
                            msg,
                        ))
                    },
                    _ => Err(JtdError::UnsupportedSchemaType),
                };
                *schema = other;
                r
            },
        }
    }
}

/// Copy a value-map pair list, preserving its abstract values.
fn duplicate_value_pairs(pairs: &Vec<(Value, Value)>) -> (r: Vec<(Value, Value)>)
    ensures
        value_pairs_view(r@) == value_pairs_view(pairs@),
{
    let n = pairs.len();
    let mut out: Vec<(Value, Value)> = Vec::new();
    let mut i: usize = 0;
    while i < n
        invariant
            n == pairs@.len(),
            i <= n,
            out@.len() == i,
            forall|j: int|
                0 <= j < i ==> (#[trigger] out@[j]).0@ == pairs@[j].0@ && out@[j].1@
                    == pairs@[j].1@,
        decreases n - i,
    {
        out.push((pairs[i].0.duplicate(), pairs[i].1.duplicate()));
        i += 1;
    }
    proof {
        assert(value_pairs_view(out@) =~= value_pairs_view(pairs@));
    }
    out
}

/// Put a property map back into the schema slot, restoring `Empty` when the
/// schema had been auto-promoted from it.
fn restore(schema: &mut JtdSchema, was_empty: bool, props: StrMap<JtdSchema>)
    requires
        props.wf(),
        forall|i: int| 0 <= i < props.entries@.len() ==> (#[trigger] props.entries@[i]).1.wf(),
    ensures
        final(schema)@ == if was_empty {
            JtdV::Empty
        } else {
            JtdV::Properties(props_view(props.entries@))
        },
        final(schema).wf(),
{
    if was_empty {
        *schema = JtdSchema::Empty;
    } else {
        *schema = JtdSchema::Properties(props);
    }
}

/// The inverse of a JTD-form lens.
pub open spec fn spec_jtd_reversed(l: JtdLensV) -> JtdLensV
    decreases l,
{
    match l {
        JtdLensV::Add { name, schema } => JtdLensV::Remove { name, schema },
        JtdLensV::Remove { name, schema } => JtdLensV::Add { name, schema },
        JtdLensV::Rename { from, to } => JtdLensV::Rename { from: to, to: from },
        JtdLensV::Extract { host, name } => JtdLensV::Embed { host, name },
        JtdLensV::Embed { host, name } => JtdLensV::Extract { host, name },
        JtdLensV::Head { name } => JtdLensV::Wrap { name },
        JtdLensV::Wrap { name } => JtdLensV::Head { name },
        JtdLensV::In { name, ops } => JtdLensV::In { name, ops: spec_jtd_reverse_seq(ops) },
        JtdLensV::MapElements { ops } => JtdLensV::MapElements {
            ops: spec_jtd_reverse_seq(ops),
        },
        JtdLensV::Convert { name, from_type, to_type, forward, reverse } => JtdLensV::Convert {
            name,
            from_type: to_type,
            to_type: from_type,
            forward: reverse,
            reverse: forward,
        },
    }
}

/// The reverse of a lens sequence: each lens reversed, in reverse order.
pub open spec fn spec_jtd_reverse_seq(ls: Seq<JtdLensV>) -> Seq<JtdLensV>
    decreases ls,
{
    if ls.len() == 0 {
        Seq::empty()
    } else {
        seq![spec_jtd_reversed(ls.last())] + spec_jtd_reverse_seq(ls.drop_last())
    }
}

/// Reversal indexes from the back.
pub proof fn lemma_jtd_reverse_seq_index(ls: Seq<JtdLensV>)
    ensures
        spec_jtd_reverse_seq(ls).len() == ls.len(),
        forall|i: int|
            0 <= i < ls.len() ==> spec_jtd_reverse_seq(ls)[i] == spec_jtd_reversed(
                #[trigger] ls[ls.len() - 1 - i],
            ),
    decreases ls.len(),
{
    if ls.len() > 0 {
        lemma_jtd_reverse_seq_index(ls.drop_last());
        assert forall|i: int|
            0 <= i < ls.len() implies spec_jtd_reverse_seq(ls)[i] == spec_jtd_reversed(
            #[trigger] ls[ls.len() - 1 - i],
        ) by {
            if i > 0 {
                assert(spec_jtd_reverse_seq(ls)[i] == spec_jtd_reverse_seq(ls.drop_last())[i - 1]);
                assert(ls.drop_last()[ls.drop_last().len() - 1 - (i - 1)] == ls[ls.len() - 1 - i]);
            }
        }
    }
}

impl JtdLens {
    /// The inverse lens: applying it after a successful application restores
    /// the original schema (see [`lemma_jtd_lens_reversible`]).
    pub fn reversed(&self) -> (r: JtdLens)
        requires
            self.wf(),
        ensures
            r@ == spec_jtd_reversed(self@),
            r.wf(),
        decreases self, 1int,
    {
        match self {
            JtdLens::Add { name, schema } => JtdLens::Remove {
                name: name.clone(),
                schema: schema.duplicate(),
            },
            JtdLens::Remove { name, schema } => JtdLens::Add {
                name: name.clone(),
                schema: schema.duplicate(),
            },
            JtdLens::Rename { from, to } => JtdLens::Rename {
                from: to.clone(),
                to: from.clone(),
            },
            JtdLens::Extract { host, name } => JtdLens::Embed {
                host: host.clone(),
                name: name.clone(),
            },
            JtdLens::Embed { host, name } => JtdLens::Extract {
                host: host.clone(),
                name: name.clone(),
            },
            JtdLens::Head { name } => JtdLens::Wrap { name: name.clone() },
            JtdLens::Wrap { name } => JtdLens::Head { name: name.clone() },
            JtdLens::In { name, ops } => {
                let rops = reverse_jtd_lenses(self, ops);
                JtdLens::In { name: name.clone(), ops: rops }
            },
            JtdLens::MapElements { ops } => {
                let rops = reverse_jtd_lenses(self, ops);
                JtdLens::MapElements { ops: rops }
            },
            JtdLens::Convert { name, from_type, to_type, forward, reverse } => {
                let swapped_forward = duplicate_value_pairs(reverse);
                let swapped_reverse = duplicate_value_pairs(forward);
                JtdLens::Convert {
                    name: name.clone(),
                    from_type: to_type.duplicate(),
                    to_type: from_type.duplicate(),
                    forward: swapped_forward,
                    reverse: swapped_reverse,
                }
            },
        }
    }
}

/// Reverse a lens sequence held by `owner` (one of its fields), each lens
/// reversed, in reverse order.
fn reverse_jtd_lenses(owner: &JtdLens, ops: &Vec<JtdLens>) -> (r: Vec<JtdLens>)
    requires
        (*owner matches JtdLens::In { ops: o2, .. } && o2 == *ops) || (*owner
            matches JtdLens::MapElements { ops: o2 } && o2 == *ops),
        forall|i: int| 0 <= i < ops@.len() ==> (#[trigger] ops@[i]).wf(),
    ensures
        jtd_lens_views(r@) == spec_jtd_reverse_seq(jtd_lens_views(ops@)),
        forall|i: int| 0 <= i < r@.len() ==> (#[trigger] r@[i]).wf(),
    decreases owner, 0int,
{
    let n = ops.len();
    let mut out: Vec<JtdLens> = Vec::new();
    let mut i: usize = 0;
    while i < n
        invariant
            (*owner matches JtdLens::In { ops: o2, .. } && o2 == *ops) || (*owner
                matches JtdLens::MapElements { ops: o2 } && o2 == *ops),
            forall|k: int| 0 <= k < ops@.len() ==> (#[trigger] ops@[k]).wf(),
            n == ops@.len(),
            i <= n,
            out@.len() == i,
            forall|j: int|
                0 <= j < i ==> (#[trigger] out@[j])@ == spec_jtd_reversed(
                    jtd_lens_view(ops@[n - 1 - j]),
                ) && out@[j].wf(),
        decreases n - i,
    {
        proof {
            if *owner is In {
                assert(decreases_to!(*owner => owner->In_ops));
                assert(decreases_to!(owner->In_ops => owner->In_ops@));
                assert(decreases_to!(owner->In_ops@ => owner->In_ops@[n - 1 - i as int]));
            } else {
                assert(decreases_to!(*owner => owner->MapElements_ops));
                assert(decreases_to!(owner->MapElements_ops => owner->MapElements_ops@));
                assert(decreases_to!(owner->MapElements_ops@ => owner->MapElements_ops@[n - 1 - i
                    as int]));
            }
        }
        out.push(ops[n - 1 - i].reversed());
        i += 1;
    }
    proof {
        lemma_lens_views_index(out@);
        lemma_lens_views_index(ops@);
        lemma_jtd_reverse_seq_index(jtd_lens_views(ops@));
        assert forall|j: int|
            0 <= j < n implies jtd_lens_views(out@)[j] == spec_jtd_reverse_seq(
            jtd_lens_views(ops@),
        )[j] by {
            assert(jtd_lens_views(out@)[j] == jtd_lens_view(out@[j]));
            assert(jtd_lens_views(ops@)[n - 1 - j] == jtd_lens_view(ops@[n - 1 - j]));
        }
        assert(jtd_lens_views(out@) =~= spec_jtd_reverse_seq(jtd_lens_views(ops@)));
    }
    out
}

/// An `Empty` schema as a lens sees it: promoted to an empty record.
pub open spec fn spec_jtd_promoted(s: JtdV) -> JtdV {
    if s is Empty {
        JtdV::Properties(Map::empty())
    } else {
        s
    }
}

/// A successful transformation never yields an `Empty` schema.
proof fn lemma_jtd_transform_not_empty(l: JtdLensV, s: JtdV)
    requires
        spec_jtd_transform(l, s) is Ok,
    ensures
        !(spec_jtd_transform(l, s)->Ok_0 is Empty),
{
}

/// The side condition under which a JTD-form lens loses no information: a
/// `Remove` must carry the very schema that stands at its name, a `Rename`
/// must not overwrite its target, an `Extract` must not discard sibling
/// fields of the extracted one, and a descent must not erase the emptiness
/// of the schema it descends into.
pub open spec fn spec_jtd_reversible(l: JtdLensV, s: JtdV) -> bool
    decreases l,
{
    let t = spec_jtd_promoted(s);
    match l {
        JtdLensV::Add { .. } => true,
        JtdLensV::Remove { name, schema } => (t matches JtdV::Properties(m)
            && m.dom().contains(name)) ==> t->Properties_0[name] == schema,
        JtdLensV::Rename { from, to } => from == to || (t is Properties
            ==> !t->Properties_0.dom().contains(to)),
        JtdLensV::Extract { host, name } => (t matches JtdV::Properties(m) && m.dom().contains(
            host,
        ) && m[host] is Properties) ==> t->Properties_0[host]->Properties_0.dom()
            =~= Set::<Seq<char>>::empty().insert(name),
        JtdLensV::Embed { .. } => true,
        JtdLensV::Head { .. } => true,
        JtdLensV::Wrap { .. } => true,
        JtdLensV::In { name, ops } => (t matches JtdV::Properties(m) && m.dom().contains(name))
            ==> spec_jtd_seq_reversible(ops, t->Properties_0[name]),
        JtdLensV::MapElements { ops } => (t matches JtdV::Elements(e))
            ==> spec_jtd_seq_reversible(ops, *t->Elements_0),
        JtdLensV::Convert { .. } => true,
    }
}

/// Every step of the sequence is information-preserving at the schema it is
/// applied to, and a non-empty sequence is not applied to an `Empty` schema
/// (whose promotion the reverse could not undo).
pub open spec fn spec_jtd_seq_reversible(ls: Seq<JtdLensV>, s: JtdV) -> bool
    decreases ls,
{
    if ls.len() == 0 {
        true
    } else {
        &&& !(s is Empty)
        &&& spec_jtd_reversible(ls[0], s)
        &&& match spec_jtd_transform(ls[0], s) {
            Ok(s1) => spec_jtd_seq_reversible(ls.drop_first(), s1),
            Err(_) => true,
        }
    }
}

/// Appending one lens to a successfully applied sequence applies it last.
proof fn lemma_jtd_transform_seq_snoc(ls: Seq<JtdLensV>, l: JtdLensV, s: JtdV)
    requires
        spec_jtd_transform_seq(ls, s) is Ok,
    ensures
        spec_jtd_transform_seq(ls.push(l), s) == match spec_jtd_transform(
            l,
            spec_jtd_transform_seq(ls, s)->Ok_0,
        ) {
            Ok(s1) => Ok::<_, JtdErrorV>(s1),
            Err(e) => Err(e),
        },
    decreases ls.len(),
{
    if ls.len() == 0 {
        assert(ls.push(l)[0] == l);
        assert(ls.push(l).drop_first() =~= Seq::<JtdLensV>::empty());
        match spec_jtd_transform(l, s) {
            Ok(s1) => {
                assert(spec_jtd_transform_seq(ls.push(l), s) == spec_jtd_transform_seq(
                    ls.push(l).drop_first(),
                    s1,
                ));
            },
            Err(e) => {},
        }
    } else {
        let s1 = spec_jtd_transform(ls[0], s)->Ok_0;
        lemma_jtd_transform_seq_snoc(ls.drop_first(), l, s1);
        assert(ls.push(l)[0] == ls[0]);
        assert(ls.push(l).drop_first() =~= ls.drop_first().push(l));
    }
}

/// Lens reversibility for the JTD form: whenever a lens applies successfully
/// and loses no information, its reverse applied to the result restores the
/// original schema — up to the promotion of an `Empty` schema into an empty
/// record, which happens before the first lens touches it.
pub proof fn lemma_jtd_lens_reversible(l: JtdLensV, s: JtdV)
    requires
        spec_jtd_transform(l, s) is Ok,
        spec_jtd_reversible(l, s),
    ensures
        spec_jtd_transform(spec_jtd_reversed(l), spec_jtd_transform(l, s)->Ok_0) == Ok::<
            _,
            JtdErrorV,
        >(spec_jtd_promoted(s)),
    decreases l,
{
    let t = spec_jtd_promoted(s);
    let s1 = spec_jtd_transform(l, s)->Ok_0;
    match l {
        JtdLensV::Add { name, schema } => {
            let m = t->Properties_0;
            assert(m.insert(name, schema).remove(name) =~= m);
        },
        JtdLensV::Remove { name, schema } => {
            let m = t->Properties_0;
            assert(m.remove(name).insert(name, schema) =~= m);
        },
        JtdLensV::Rename { from, to } => {
            let m = t->Properties_0;
            if from == to {
                assert(m.remove(from).insert(from, m[from]).remove(from).insert(from, m[from])
                    =~= m);
            } else {
                assert(m.remove(from).insert(to, m[from]).remove(to).insert(from, m[from]) =~= m);
            }
        },
        JtdLensV::Extract { host, name } => {
            let m = t->Properties_0;
            let inner = m[host]->Properties_0;
            let m1 = m.insert(host, inner[name]);
            assert(s1 == JtdV::Properties(m1));
            let back = m1.insert(
                host,
                JtdV::Properties(Map::<Seq<char>, JtdV>::empty().insert(name, m1[host])),
            );
            assert(Map::<Seq<char>, JtdV>::empty().insert(name, inner[name]) =~= inner);
            assert(JtdV::Properties(Map::<Seq<char>, JtdV>::empty().insert(name, m1[host]))
                == m[host]);
            assert(back =~= m);
        },
        JtdLensV::Embed { host, name } => {
            let m = t->Properties_0;
            let m1 = m.insert(host, JtdV::Properties(Map::<Seq<char>, JtdV>::empty().insert(name, m[host])));
            assert(s1 == JtdV::Properties(m1));
            assert(m1[host]->Properties_0.dom().contains(name));
            assert(m1[host]->Properties_0[name] == m[host]);
            assert(m1.insert(host, m1[host]->Properties_0[name]) =~= m);
        },
        JtdLensV::Head { name } => {
            let m = t->Properties_0;
            let m1 = m.insert(name, *m[name]->Elements_0);
            assert(s1 == JtdV::Properties(m1));
            assert(JtdV::Elements(Box::new(m1[name])) == m[name]);
            assert(m1.insert(name, JtdV::Elements(Box::new(m1[name]))) =~= m);
        },
        JtdLensV::Wrap { name } => {
            let m = t->Properties_0;
            let m1 = m.insert(name, JtdV::Elements(Box::new(m[name])));
            assert(s1 == JtdV::Properties(m1));
            assert(m1[name] is Elements);
            assert(*m1[name]->Elements_0 == m[name]);
            assert(m1.insert(name, *m1[name]->Elements_0) =~= m);
        },
        JtdLensV::In { name, ops } => {
            let m = t->Properties_0;
            let sub = m[name];
            let sub1 = spec_jtd_transform_seq(ops, sub)->Ok_0;
            let m1 = m.insert(name, sub1);
            assert(s1 == JtdV::Properties(m1));
            lemma_jtd_seq_reversible(ops, sub);
            assert(spec_jtd_transform_seq(spec_jtd_reverse_seq(ops), m1[name]) == Ok::<
                _,
                JtdErrorV,
            >(sub));
            assert(m1.insert(name, sub) =~= m);
        },
        JtdLensV::MapElements { ops } => {
            let e = *t->Elements_0;
            let e1 = spec_jtd_transform_seq(ops, e)->Ok_0;
            assert(s1 == JtdV::Elements(Box::new(e1)));
            lemma_jtd_seq_reversible(ops, e);
            assert(spec_jtd_transform_seq(spec_jtd_reverse_seq(ops), e1) == Ok::<_, JtdErrorV>(e));
        },
        JtdLensV::Convert { name, from_type, to_type, .. } => {
            let m = t->Properties_0;
            let m1 = m.insert(name, to_type);
            assert(s1 == JtdV::Properties(m1));
            assert(m1.insert(name, from_type) =~= m);
        },
    }
}

/// Sequence reversal for the JTD form: applying a successful,
/// information-preserving lens sequence and then its reverse restores the
/// original schema.
pub proof fn lemma_jtd_seq_reversible(ls: Seq<JtdLensV>, s: JtdV)
    requires
        spec_jtd_transform_seq(ls, s) is Ok,
        spec_jtd_seq_reversible(ls, s),
    ensures
        spec_jtd_transform_seq(spec_jtd_reverse_seq(ls), spec_jtd_transform_seq(ls, s)->Ok_0)
            == Ok::<_, JtdErrorV>(s),
    decreases ls,
{
    if ls.len() == 0 {
        assert(spec_jtd_reverse_seq(ls) =~= Seq::<JtdLensV>::empty());
    } else {
        let l0 = ls[0];
        let s1 = spec_jtd_transform(l0, s)->Ok_0;
        let rest = ls.drop_first();
        let sn = spec_jtd_transform_seq(ls, s)->Ok_0;
        assert(sn == spec_jtd_transform_seq(rest, s1)->Ok_0);
        lemma_jtd_seq_reversible(rest, s1);
        lemma_jtd_reverse_seq_index(ls);
        lemma_jtd_reverse_seq_index(rest);
        assert(spec_jtd_reverse_seq(ls) =~= spec_jtd_reverse_seq(rest).push(spec_jtd_reversed(l0)))
            by {
            lemma_jtd_reverse_seq_index(ls);
            lemma_jtd_reverse_seq_index(rest);
            assert forall|i: int|
                0 <= i < ls.len() implies spec_jtd_reverse_seq(ls)[i] == spec_jtd_reverse_seq(
                rest,
            ).push(spec_jtd_reversed(l0))[i] by {
                assert(spec_jtd_reverse_seq(ls)[i] == spec_jtd_reversed(ls[ls.len() - 1 - i]));
                if i < ls.len() - 1 {
                    assert(rest[rest.len() - 1 - i] == ls[ls.len() - 1 - i]);
                    assert(spec_jtd_reverse_seq(rest)[i] == spec_jtd_reversed(
                        rest[rest.len() - 1 - i],
                    ));
                } else {
                    assert(ls[ls.len() - 1 - i] == l0);
                }
            }
        }
        lemma_jtd_transform_seq_snoc(spec_jtd_reverse_seq(rest), spec_jtd_reversed(l0), sn);
        lemma_jtd_lens_reversible(l0, s);
        assert(spec_jtd_promoted(s) == s);
    }
}

} // verus!
