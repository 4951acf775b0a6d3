//! The closed value algebra and its type schema.
//!
//! A [`Value`] is a typed datum exchanged with the sandboxed module; a
//! [`ValueType`] is the matching type descriptor. Both carry all text as
//! `Vec<char>` so that contracts can speak of it as `Seq<char>`.
use vstd::prelude::*;

verus! {

broadcast use vstd::seq::group_seq_axioms, vstd::std_specs::vec::group_vec_axioms;

/// A type descriptor of the schema: the shape a [`Value`] must have.
#[derive(Debug, PartialEq, Eq)]
pub enum ValueType {
    /// Boolean.
    Bool,
    /// Signed 8-bit integer.
    S8,
    /// Signed 16-bit integer.
    S16,
    /// Signed 32-bit integer.
    S32,
    /// Signed 64-bit integer.
    S64,
    /// Unsigned 8-bit integer.
    U8,
    /// Unsigned 16-bit integer.
    U16,
    /// Unsigned 32-bit integer.
    U32,
    /// Unsigned 64-bit integer.
    U64,
    /// Unicode scalar.
    Char,
    /// Text string.
    Text,
    /// Homogeneous list of the element type.
    List(Box<ValueType>),
    /// Record with the declared ordered fields.
    Record(Vec<(Vec<char>, ValueType)>),
    /// Tuple of the ordered component types.
    Tuple(Vec<ValueType>),
    /// Variant with named cases, each with an optional payload type.
    Variant(Vec<(Vec<char>, Option<ValueType>)>),
    /// Enumeration of named cases without payloads.
    Enum(Vec<Vec<char>>),
    /// Optional value of the inner type.
    Optional(Box<ValueType>),
    /// Success-or-failure value; each side may carry a payload type.
    Expected(Option<Box<ValueType>>, Option<Box<ValueType>>),
    /// Set drawn from the declared flag names.
    Flags(Vec<Vec<char>>),
    /// Opaque resource handle, passed through and never introspected.
    Handle,
}

/// A typed datum: the runtime mirror of a [`ValueType`].
#[derive(Debug, PartialEq, Eq)]
pub enum Value {
    /// Boolean.
    Bool(bool),
    /// Signed 8-bit integer.
    S8(i8),
    /// Signed 16-bit integer.
    S16(i16),
    /// Signed 32-bit integer.
    S32(i32),
    /// Signed 64-bit integer.
    S64(i64),
    /// Unsigned 8-bit integer.
    U8(u8),
    /// Unsigned 16-bit integer.
    U16(u16),
    /// Unsigned 32-bit integer.
    U32(u32),
    /// Unsigned 64-bit integer.
    U64(u64),
    /// Unicode scalar.
    Char(char),
    /// Text string.
    Text(Vec<char>),
    /// List of element values.
    List(Vec<Value>),
    /// Record fields in declaration order, all present.
    Record(Vec<(Vec<char>, Value)>),
    /// Tuple components in order.
    Tuple(Vec<Value>),
    /// One named case of a variant, with its payload if the case has one.
    Variant(Vec<char>, Option<Box<Value>>),
    /// One named case of an enumeration.
    Enum(Vec<char>),
    /// Present or absent value.
    Optional(Option<Box<Value>>),
    /// Success (`true`) or failure (`false`), with the side's payload if any.
    Expected(bool, Option<Box<Value>>),
    /// The set flags, ordered as declared, without repetition.
    Flags(Vec<Vec<char>>),
    /// Opaque resource handle.
    Handle(u32),
}

/// Ghost mirror of [`ValueType`]. Child positions that hold exactly one or
/// at most one type are sequences of length one or at most one, so that
/// specification code can build models without heap allocation.
pub ghost enum TypeModel {
    Bool,
    S8,
    S16,
    S32,
    S64,
    U8,
    U16,
    U32,
    U64,
    Char,
    Text,
    /// The single element type, as a one-element sequence.
    List(Seq<TypeModel>),
    Record(Seq<(Seq<char>, TypeModel)>),
    Tuple(Seq<TypeModel>),
    /// Each case: name and payload type (empty or one-element sequence).
    Variant(Seq<(Seq<char>, Seq<TypeModel>)>),
    Enum(Seq<Seq<char>>),
    /// The single inner type, as a one-element sequence.
    Optional(Seq<TypeModel>),
    /// Ok payload type and error payload type, each empty or one element.
    Expected(Seq<TypeModel>, Seq<TypeModel>),
    Flags(Seq<Seq<char>>),
    Handle,
}

/// Ghost mirror of [`Value`], with the same sequence convention for
/// optional children.
pub ghost enum ValModel {
    Bool(bool),
    S8(i8),
    S16(i16),
    S32(i32),
    S64(i64),
    U8(u8),
    U16(u16),
    U32(u32),
    U64(u64),
    Char(char),
    Text(Seq<char>),
    List(Seq<ValModel>),
    Record(Seq<(Seq<char>, ValModel)>),
    Tuple(Seq<ValModel>),
    /// Case name and payload (empty or one-element sequence).
    Variant(Seq<char>, Seq<ValModel>),
    Enum(Seq<char>),
    Optional(Seq<ValModel>),
    Expected(bool, Seq<ValModel>),
    Flags(Seq<Seq<char>>),
    Handle(u32),
}

impl ValueType {
    /// The mathematical model of this type descriptor.
    pub open spec fn model(self) -> TypeModel
        decreases self, 0int, 0int,
    {
        match self {
            ValueType::Bool => TypeModel::Bool,
            ValueType::S8 => TypeModel::S8,
            ValueType::S16 => TypeModel::S16,
            ValueType::S32 => TypeModel::S32,
            ValueType::S64 => TypeModel::S64,
            ValueType::U8 => TypeModel::U8,
            ValueType::U16 => TypeModel::U16,
            ValueType::U32 => TypeModel::U32,
            ValueType::U64 => TypeModel::U64,
            ValueType::Char => TypeModel::Char,
            ValueType::Text => TypeModel::Text,
            ValueType::List(e) => TypeModel::List(seq![(*e).model()]),
            ValueType::Record(fs) => TypeModel::Record(
                Seq::new(
                    fs@.len(),
                    |i: int|
                        if 0 <= i < fs@.len() {
                            (fs@[i].0@, fs@[i].1.model())
                        } else {
                            vstd::pervasive::arbitrary()
                        },
                ),
            ),
            ValueType::Tuple(ts) => TypeModel::Tuple(
                Seq::new(
                    ts@.len(),
                    |i: int|
                        if 0 <= i < ts@.len() {
                            ts@[i].model()
                        } else {
                            vstd::pervasive::arbitrary()
                        },
                ),
            ),
            ValueType::Variant(cs) => TypeModel::Variant(
                Seq::new(
                    cs@.len(),
                    |i: int|
                        if 0 <= i < cs@.len() {
                            (
                                cs@[i].0@,
                                match cs@[i].1 {
                                    Some(p) => seq![p.model()],
                                    None => Seq::<TypeModel>::empty(),
                                },
                            )
                        } else {
                            vstd::pervasive::arbitrary()
                        },
                ),
            ),
            ValueType::Enum(ns) => TypeModel::Enum(Seq::new(ns@.len(), |i: int| ns@[i]@)),
            ValueType::Optional(e) => TypeModel::Optional(seq![(*e).model()]),
            ValueType::Expected(o, e) => TypeModel::Expected(
                match o {
                    Some(p) => seq![(*p).model()],
                    None => Seq::<TypeModel>::empty(),
                },
                match e {
                    Some(p) => seq![(*p).model()],
                    None => Seq::<TypeModel>::empty(),
                },
            ),
            ValueType::Flags(ns) => TypeModel::Flags(Seq::new(ns@.len(), |i: int| ns@[i]@)),
            ValueType::Handle => TypeModel::Handle,
        }
    }
}

impl Value {
    /// The mathematical model of this value.
    pub open spec fn model(self) -> ValModel
        decreases self, 0int, 0int,
    {
        match self {
            Value::Bool(b) => ValModel::Bool(b),
            Value::S8(x) => ValModel::S8(x),
            Value::S16(x) => ValModel::S16(x),
            Value::S32(x) => ValModel::S32(x),
            Value::S64(x) => ValModel::S64(x),
            Value::U8(x) => ValModel::U8(x),
            Value::U16(x) => ValModel::U16(x),
            Value::U32(x) => ValModel::U32(x),
            Value::U64(x) => ValModel::U64(x),
            Value::Char(c) => ValModel::Char(c),
            Value::Text(s) => ValModel::Text(s@),
            Value::List(xs) => ValModel::List(Seq::new(xs@.len(), |i: int| if 0 <= i < xs@.len() { xs@[i].model() } else { vstd::pervasive::arbitrary() })),
            Value::Record(fs) => ValModel::Record(
                Seq::new(
                    fs@.len(),
                    |i: int|
                        if 0 <= i < fs@.len() {
                            (fs@[i].0@, fs@[i].1.model())
                        } else {
                            vstd::pervasive::arbitrary()
                        },
                ),
            ),
            Value::Tuple(xs) => ValModel::Tuple(
                Seq::new(
                    xs@.len(),
                    |i: int|
                        if 0 <= i < xs@.len() {
                            xs@[i].model()
                        } else {
                            vstd::pervasive::arbitrary()
                        },
                ),
            ),
            Value::Variant(n, p) => ValModel::Variant(
                n@,
                match p {
                    Some(b) => seq![(*b).model()],
                    None => Seq::<ValModel>::empty(),
                },
            ),
            Value::Enum(n) => ValModel::Enum(n@),
            Value::Optional(p) => ValModel::Optional(
                match p {
                    Some(b) => seq![(*b).model()],
                    None => Seq::<ValModel>::empty(),
                },
            ),
            Value::Expected(ok, p) => ValModel::Expected(
                ok,
                match p {
                    Some(b) => seq![(*b).model()],
                    None => Seq::<ValModel>::empty(),
                },
            ),
            Value::Flags(ns) => ValModel::Flags(Seq::new(ns@.len(), |i: int| ns@[i]@)),
            Value::Handle(h) => ValModel::Handle(h),
        }
    }
}

/// Whether `c` may start a name: an ASCII letter.
pub open spec fn is_name_start(c: char) -> bool {
    ('a' <= c && c <= 'z') || ('A' <= c && c <= 'Z')
}

/// Whether `c` may continue a name: a letter, digit, hyphen or underscore.
pub open spec fn is_name_char(c: char) -> bool {
    is_name_start(c) || ('0' <= c && c <= '9') || c == '-' || c == '_'
}

/// A well-formed name: nonempty, starts with a letter, continues with
/// name characters.
pub open spec fn wf_name(n: Seq<char>) -> bool {
    &&& n.len() > 0
    &&& is_name_start(n[0])
    &&& forall|i: int| 0 <= i < n.len() ==> is_name_char(#[trigger] n[i])
}

/// All names in `ns` are well formed and pairwise distinct.
pub open spec fn wf_names(ns: Seq<Seq<char>>) -> bool {
    &&& forall|i: int| 0 <= i < ns.len() ==> wf_name(#[trigger] ns[i])
    &&& forall|i: int, j: int| 0 <= i < j < ns.len() ==> ns[i] != ns[j]
}

/// A well-formed type model: child arities respect the sequence
/// convention, and declared names are well formed and distinct.
pub open spec fn wf_type(t: TypeModel) -> bool
    decreases t, 0int, 0int,
{
    match t {
        TypeModel::List(es) => es.len() == 1 && wf_type(es[0]),
        TypeModel::Record(fs) => {
            &&& wf_names(Seq::new(fs.len(), |i: int| fs[i].0))
            &&& forall|i: int| 0 <= i < fs.len() ==> wf_type(#[trigger] fs[i].1)
        },
        TypeModel::Tuple(ts) => forall|i: int| 0 <= i < ts.len() ==> wf_type(#[trigger] ts[i]),
        TypeModel::Variant(cs) => {
            &&& cs.len() > 0
            &&& wf_names(Seq::new(cs.len(), |i: int| cs[i].0))
            &&& forall|i: int|
                0 <= i < cs.len() ==> (#[trigger] cs[i].1).len() <= 1 && (cs[i].1.len() == 1
                    ==> wf_type(cs[i].1[0]))
        },
        TypeModel::Enum(ns) => ns.len() > 0 && wf_names(ns),
        TypeModel::Optional(es) => es.len() == 1 && wf_type(es[0]),
        TypeModel::Expected(os, es) => {
            &&& os.len() <= 1 && (os.len() == 1 ==> wf_type(os[0]))
            &&& es.len() <= 1 && (es.len() == 1 ==> wf_type(es[0]))
        },
        TypeModel::Flags(ns) => wf_names(ns),
        _ => true,
    }
}

/// No opaque handle occurs anywhere in `t`: every value of such a type has
/// a literal form, so the codec is total on it.
pub open spec fn codable(t: TypeModel) -> bool
    decreases t, 0int, 0int,
{
    match t {
        TypeModel::Handle => false,
        TypeModel::List(es) => forall|i: int| 0 <= i < es.len() ==> codable(#[trigger] es[i]),
        TypeModel::Record(fs) => forall|i: int|
            0 <= i < fs.len() ==> codable(#[trigger] fs[i].1),
        TypeModel::Tuple(ts) => forall|i: int| 0 <= i < ts.len() ==> codable(#[trigger] ts[i]),
        TypeModel::Variant(cs) => forall|i: int, j: int|
            0 <= i < cs.len() && 0 <= j < (#[trigger] cs[i].1).len() ==> codable(
                #[trigger] cs[i].1[j],
            ),
        TypeModel::Optional(es) => forall|i: int| 0 <= i < es.len() ==> codable(#[trigger] es[i]),
        TypeModel::Expected(os, es) => {
            &&& forall|i: int| 0 <= i < os.len() ==> codable(#[trigger] os[i])
            &&& forall|i: int| 0 <= i < es.len() ==> codable(#[trigger] es[i])
        },
        _ => true,
    }
}

/// Whether value `v` type-checks positionally against type `t`.
///
/// Record values list exactly the declared fields in declaration order;
/// flags values are an ordered, duplicate-free selection of the declared
/// flag names; variant and enumeration case names match a declared case
/// exactly, with payload presence as declared.
pub open spec fn has_type(v: ValModel, t: TypeModel) -> bool
    decreases v, 0int, 0int,
{
    match (v, t) {
        (ValModel::Bool(_), TypeModel::Bool) => true,
        (ValModel::S8(_), TypeModel::S8) => true,
        (ValModel::S16(_), TypeModel::S16) => true,
        (ValModel::S32(_), TypeModel::S32) => true,
        (ValModel::S64(_), TypeModel::S64) => true,
        (ValModel::U8(_), TypeModel::U8) => true,
        (ValModel::U16(_), TypeModel::U16) => true,
        (ValModel::U32(_), TypeModel::U32) => true,
        (ValModel::U64(_), TypeModel::U64) => true,
        (ValModel::Char(_), TypeModel::Char) => true,
        (ValModel::Text(_), TypeModel::Text) => true,
        (ValModel::List(vs), TypeModel::List(es)) => {
            &&& es.len() == 1
            &&& forall|i: int| 0 <= i < vs.len() ==> has_type(#[trigger] vs[i], es[0])
        },
        (ValModel::Record(vfs), TypeModel::Record(tfs)) => {
            &&& vfs.len() == tfs.len()
            &&& forall|i: int|
                0 <= i < vfs.len() ==> (#[trigger] vfs[i]).0 == tfs[i].0 && has_type(
                    vfs[i].1,
                    tfs[i].1,
                )
        },
        (ValModel::Tuple(vs), TypeModel::Tuple(ts)) => {
            &&& vs.len() == ts.len()
            &&& forall|i: int| 0 <= i < vs.len() ==> has_type(#[trigger] vs[i], ts[i])
        },
        (ValModel::Variant(n, p), TypeModel::Variant(cs)) => exists|j: int|
            0 <= j < cs.len() && (#[trigger] cs[j]).0 == n && p.len() == cs[j].1.len() && (p.len()
                == 1 ==> cs[j].1.len() == 1 && has_type(p[0], cs[j].1[0])),
        (ValModel::Enum(n), TypeModel::Enum(ns)) => exists|j: int|
            0 <= j < ns.len() && #[trigger] ns[j] == n,
        (ValModel::Optional(p), TypeModel::Optional(es)) => {
            &&& es.len() == 1
            &&& p.len() <= 1
            &&& p.len() == 1 ==> has_type(p[0], es[0])
        },
        (ValModel::Expected(ok, p), TypeModel::Expected(os, es)) => {
            if ok {
                p.len() == os.len() && (p.len() == 1 ==> has_type(p[0], os[0]))
            } else {
                p.len() == es.len() && (p.len() == 1 ==> has_type(p[0], es[0]))
            }
        },
        (ValModel::Flags(set), TypeModel::Flags(ns)) => is_ordered_selection(set, ns),
        (ValModel::Handle(_), TypeModel::Handle) => true,
        _ => false,
    }
}

/// `set` lists some of the names of `ns`, in the same order as in `ns`,
/// without repetition: the canonical form of a flags value.
pub open spec fn is_ordered_selection(set: Seq<Seq<char>>, ns: Seq<Seq<char>>) -> bool {
    exists|ix: Seq<int>|
        {
            &&& ix.len() == set.len()
            &&& forall|i: int| 0 <= i < ix.len() ==> 0 <= #[trigger] ix[i] < ns.len()
            &&& forall|i: int, j: int| 0 <= i < j < ix.len() ==> ix[i] < ix[j]
            &&& forall|i: int| 0 <= i < ix.len() ==> #[trigger] set[i] == ns[ix[i]]
        }
}

} // verus!
