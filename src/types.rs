//! The type lattice: inferred types, their mathematical model and display.
use vstd::prelude::*;
use crate::name_map::{NameMap, lookup};

verus! {

broadcast use vstd::std_specs::vec::group_vec_axioms, vstd::string::group_string_axioms;

/// An inferred type.
#[derive(Debug, Hash)]
pub enum Type {
    /// An inhabitant of a named class.
    Instance { class_name: String },
    /// The class object itself.
    Singleton { class_name: String },
    /// The nil value.
    Nil,
    /// A union, materialised only for display.
    Union(Vec<Type>),
    /// No information yet.
    Bot,
}

/// The mathematical value of a `Type`.
pub enum TypeModel {
    Instance(Seq<char>),
    Singleton(Seq<char>),
    Nil,
    Union(Seq<TypeModel>),
    Bot,
}

pub open spec fn type_model(t: Type) -> TypeModel
    decreases t,
{
    match t {
        Type::Instance { class_name } => TypeModel::Instance(class_name@),
        Type::Singleton { class_name } => TypeModel::Singleton(class_name@),
        Type::Nil => TypeModel::Nil,
        Type::Union(ts) => TypeModel::Union(
            Seq::new(
                ts@.len(),
                |i: int|
                    if 0 <= i < ts@.len() {
                        type_model(ts@[i])
                    } else {
                        TypeModel::Bot
                    },
            ),
        ),
        Type::Bot => TypeModel::Bot,
    }
}

impl View for Type {
    type V = TypeModel;

    open spec fn view(&self) -> TypeModel {
        type_model(*self)
    }
}


/// The display string of a type.
pub open spec fn show_model(t: TypeModel) -> Seq<char>
    decreases t,
{
    match t {
        TypeModel::Instance(c) => c,
        TypeModel::Singleton(c) => "singleton("@ + c + ")"@,
        TypeModel::Nil => "nil"@,
        TypeModel::Union(ts) => show_members(ts),
        TypeModel::Bot => "untyped"@,
    }
}

/// The display strings of the members, joined by ` | `.
pub open spec fn show_members(ts: Seq<TypeModel>) -> Seq<char>
    decreases ts,
{
    if ts.len() == 0 {
        Seq::empty()
    } else if ts.len() == 1 {
        show_model(ts[0])
    } else {
        show_members(ts.subrange(0, ts.len() - 1)) + " | "@ + show_model(ts[ts.len() - 1])
    }
}

/// The models of a sequence of types.
pub open spec fn models(ts: Seq<Type>) -> Seq<TypeModel> {
    ts.map_values(|t: Type| t@)
}

/// A copy of a list of types with the same models.
pub fn copy_types(ts: &Vec<Type>) -> (r: Vec<Type>)
    ensures
        models(r@) == models(ts@),
{
    let mut out: Vec<Type> = Vec::new();
    let mut i: usize = 0;
    while i < ts.len()
        invariant
            0 <= i <= ts.len(),
            models(out@) =~= models(ts@.subrange(0, i as int)),
        decreases ts.len() - i,
    {
        let c = copy_type(&ts[i]);
        out.push(c);
        proof {
            assert(models(ts@.subrange(0, i + 1)) =~= models(ts@.subrange(0, i as int)).push(ts@[i as int]@));
        }
        i = i + 1;
    }
    proof {
        assert(ts@.subrange(0, i as int) =~= ts@);
    }
    out
}

pub open spec fn instance_of(name: Seq<char>) -> TypeModel {
    TypeModel::Instance(name)
}

/// Structural equality of two types, decided on their models.
pub fn type_eq(a: &Type, b: &Type) -> (r: bool)
    ensures
        r == (a@ == b@),
    decreases a,
{
    match (a, b) {
        (Type::Instance { class_name: x }, Type::Instance { class_name: y }) => *x == *y,
        (Type::Singleton { class_name: x }, Type::Singleton { class_name: y }) => *x == *y,
        (Type::Nil, Type::Nil) => true,
        (Type::Bot, Type::Bot) => true,
        (Type::Union(xs), Type::Union(ys)) => {
            if xs.len() != ys.len() {
                proof {
                    let (ma, mb) = (a@, b@);
                    if let (TypeModel::Union(sa), TypeModel::Union(sb)) = (ma, mb) {
                        assert(sa.len() != sb.len());
                    }
                }
                return false;
            }
            let mut i: usize = 0;
            while i < xs.len()
                invariant
                    xs.len() == ys.len(),
                    0 <= i <= xs.len(),
                    *a == Type::Union(*xs),
                    *b == Type::Union(*ys),
                    forall|j: int| 0 <= j < i ==> type_model(#[trigger] xs@[j]) == type_model(ys@[j]),
                decreases xs.len() - i,
            {
                proof {
                    assert(decreases_to!(*a => (*a)->Union_0));
                    assert(decreases_to!(*xs => xs[i as int]));
                }
                if !type_eq(&xs[i], &ys[i]) {
                    proof {
                        if let (TypeModel::Union(sa), TypeModel::Union(sb)) = (a@, b@) {
                            assert(sa[i as int] != sb[i as int]);
                        }
                    }
                    return false;
                }
                i = i + 1;
            }
            proof {
                if let (TypeModel::Union(sa), TypeModel::Union(sb)) = (a@, b@) {
                    assert(sa =~= sb);
                }
            }
            true
        },
        _ => false,
    }
}

/// A copy of a type with the same model.
pub fn copy_type(t: &Type) -> (r: Type)
    ensures
        r@ == t@,
    decreases t,
{
    match t {
        Type::Instance { class_name } => Type::Instance { class_name: class_name.clone() },
        Type::Singleton { class_name } => Type::Singleton { class_name: class_name.clone() },
        Type::Nil => Type::Nil,
        Type::Bot => Type::Bot,
        Type::Union(ts) => {
            let mut out: Vec<Type> = Vec::new();
            let mut i: usize = 0;
            while i < ts.len()
                invariant
                    0 <= i <= ts.len(),
                    *t == Type::Union(*ts),
                    out@.len() == i,
                    forall|j: int| 0 <= j < i ==> type_model(#[trigger] out@[j]) == type_model(ts@[j]),
                decreases ts.len() - i,
            {
                proof {
                    assert(decreases_to!(*t => (*t)->Union_0));
                    assert(decreases_to!(*ts => ts[i as int]));
                }
                let c = copy_type(&ts[i]);
                out.push(c);
                i = i + 1;
            }
            let r = Type::Union(out);
            proof {
                if let (TypeModel::Union(sa), TypeModel::Union(sb)) = (r@, t@) {
                    assert(sa =~= sb);
                }
            }
            r
        },
    }
}

impl Clone for Type {
    fn clone(&self) -> (r: Self)
        ensures
            r@ == self@,
    {
        copy_type(self)
    }
}

impl PartialEq for Type {
    fn eq(&self, other: &Type) -> (r: bool) {
        type_eq(self, other)
    }
}

impl vstd::std_specs::cmp::PartialEqSpecImpl for Type {
    open spec fn obeys_eq_spec() -> bool {
        true
    }

    open spec fn eq_spec(&self, other: &Type) -> bool {
        self@ == other@
    }
}

impl Eq for Type {
}

impl Type {
    /// The display string: the class name, `singleton(C)`, `nil`, the members
    /// joined by ` | `, or `untyped`.
    pub fn show(&self) -> (r: String)
        ensures
            r@ == show_model(self@),
        decreases self,
    {
        match self {
            Type::Instance { class_name } => class_name.clone(),
            Type::Singleton { class_name } => {
                let mut s = "singleton(".to_string();
                s.append(class_name.as_str());
                s.append(")");
                s
            },
            Type::Nil => "nil".to_string(),
            Type::Bot => "untyped".to_string(),
            Type::Union(ts) => {
                let ghost ms = Seq::new(
                    ts@.len(),
                    |k: int| if 0 <= k < ts@.len() { type_model(ts@[k]) } else { TypeModel::Bot },
                );
                proof {
                    assert(self@ is Union);
                    assert(self@->Union_0 =~= ms);
                }
                let mut s = String::new();
                let mut i: usize = 0;
                while i < ts.len()
                    invariant
                        0 <= i <= ts.len(),
                        *self == Type::Union(*ts),
                        self@ == TypeModel::Union(ms),
                        ms.len() == ts@.len(),
                        forall|j: int| 0 <= j < ts@.len() ==> #[trigger] ms[j] == type_model(ts@[j]),
                        s@ == show_members(ms.subrange(0, i as int)),
                    decreases ts.len() - i,
                {
                    proof {
                        assert(decreases_to!(*self => (*self)->Union_0));
                        assert(decreases_to!(*ts => ts[i as int]));
                    }
                    let part = ts[i].show();
                    proof {
                        assert(ms.subrange(0, i + 1).subrange(0, i as int) =~= ms.subrange(0, i as int));
                    }
                    if i > 0 {
                        s.append(" | ");
                    } else {
                        proof {
                            assert(s@ =~= Seq::<char>::empty());
                        }
                    }
                    s.append(part.as_str());
                    i = i + 1;
                }
                proof {
                    assert(ms.subrange(0, i as int) =~= ms);
                }
                s
            },
        }
    }

    pub fn string() -> (r: Type)
        ensures
            r@ == instance_of("String"@),
    {
        Type::Instance { class_name: "String".to_string() }
    }

    pub fn integer() -> (r: Type)
        ensures
            r@ == instance_of("Integer"@),
    {
        Type::Instance { class_name: "Integer".to_string() }
    }

    pub fn array() -> (r: Type)
        ensures
            r@ == instance_of("Array"@),
    {
        Type::Instance { class_name: "Array".to_string() }
    }

    pub fn hash() -> (r: Type)
        ensures
            r@ == instance_of("Hash"@),
    {
        Type::Instance { class_name: "Hash".to_string() }
    }
}

/// Types of the older, flat classification of values.
#[derive(Debug, Clone, PartialEq, Eq, Hash)]
pub enum RubyType {
    String,
    Integer,
    Float,
    Array,
    Hash,
    Symbol,
    TrueClass,
    FalseClass,
    NilClass,
    Custom(std::string::String),
    Unknown,
}

/// The class name of a classified value.
pub open spec fn ruby_class_name(t: RubyType) -> Seq<char> {
    match t {
        RubyType::String => "String"@,
        RubyType::Integer => "Integer"@,
        RubyType::Float => "Float"@,
        RubyType::Array => "Array"@,
        RubyType::Hash => "Hash"@,
        RubyType::Symbol => "Symbol"@,
        RubyType::TrueClass => "TrueClass"@,
        RubyType::FalseClass => "FalseClass"@,
        RubyType::NilClass => "NilClass"@,
        RubyType::Custom(name) => name@,
        RubyType::Unknown => "Unknown"@,
    }
}

/// The inferred type of a classified value: `NilClass` is `Nil`, `Unknown`
/// is `Bot`, every other kind an instance of its class.
pub open spec fn ruby_type_model(t: RubyType) -> TypeModel {
    match t {
        RubyType::NilClass => TypeModel::Nil,
        RubyType::Unknown => TypeModel::Bot,
        _ => instance_of(ruby_class_name(t)),
    }
}

impl RubyType {
    pub fn to_class_name(&self) -> (r: &str)
        ensures
            r@ == ruby_class_name(*self),
    {
        match self {
            RubyType::String => "String",
            RubyType::Integer => "Integer",
            RubyType::Float => "Float",
            RubyType::Array => "Array",
            RubyType::Hash => "Hash",
            RubyType::Symbol => "Symbol",
            RubyType::TrueClass => "TrueClass",
            RubyType::FalseClass => "FalseClass",
            RubyType::NilClass => "NilClass",
            RubyType::Custom(name) => name.as_str(),
            RubyType::Unknown => "Unknown",
        }
    }

    pub fn to_type(&self) -> (r: Type)
        ensures
            r@ == ruby_type_model(*self),
    {
        match self {
            RubyType::String => Type::string(),
            RubyType::Integer => Type::integer(),
            RubyType::Float => Type::Instance { class_name: "Float".to_string() },
            RubyType::Array => Type::array(),
            RubyType::Hash => Type::hash(),
            RubyType::Symbol => Type::Instance { class_name: "Symbol".to_string() },
            RubyType::TrueClass => Type::Instance { class_name: "TrueClass".to_string() },
            RubyType::FalseClass => Type::Instance { class_name: "FalseClass".to_string() },
            RubyType::NilClass => Type::Nil,
            RubyType::Custom(name) => Type::Instance { class_name: name.clone() },
            RubyType::Unknown => Type::Bot,
        }
    }
}

/// A position in a source file.
#[derive(Debug, Clone)]
pub struct Location {
    pub file: String,
    pub line: usize,
    pub column: usize,
}

/// What is known of a variable.
#[derive(Debug, Clone)]
pub struct VariableType {
    pub name: String,
    pub ruby_type: RubyType,
    pub location: Location,
}

/// A method call and whether its receiver type declares the method.
#[derive(Debug, Clone)]
pub struct MethodCall {
    pub receiver_type: RubyType,
    pub method_name: String,
    pub location: Location,
    pub is_defined: bool,
}

/// The calls found in one file.
#[derive(Debug, Clone)]
pub struct AnalysisResult {
    pub file_path: String,
    pub method_calls: Vec<MethodCall>,
    pub undefined_methods: Vec<MethodCall>,
}

/// Variables of a local context, by name.
pub struct LocalContext {
    variables: NameMap<VariableType>,
}

impl View for LocalContext {
    type V = Map<Seq<char>, VariableType>;

    closed spec fn view(&self) -> Map<Seq<char>, VariableType> {
        self.variables@
    }
}

impl LocalContext {
    pub closed spec fn wf(&self) -> bool {
        self.variables.wf()
    }

    pub fn new() -> (r: LocalContext)
        ensures
            r.wf(),
            r@ == Map::<Seq<char>, VariableType>::empty(),
    {
        LocalContext { variables: NameMap::new() }
    }

    /// Records a variable, replacing an earlier one of the same name.
    pub fn set_variable(&mut self, name: String, ruby_type: RubyType, location: Location)
        requires
            old(self).wf(),
        ensures
            final(self).wf(),
            final(self)@.dom() == old(self)@.dom().insert(name@),
            forall|k: Seq<char>| k != name@ && old(self)@.contains_key(k) ==> #[trigger] final(self)@[k] == old(self)@[k],
            final(self)@[name@].name@ == name@,
            final(self)@[name@].ruby_type == ruby_type,
            final(self)@[name@].location.file == location.file,
            final(self)@[name@].location.line == location.line,
            final(self)@[name@].location.column == location.column,
    {
        let key = name.clone();
        self.variables.insert(key, VariableType { name, ruby_type, location });
    }

    pub fn get_variable(&self, name: &str) -> (r: Option<&VariableType>)
        requires
            self.wf(),
        ensures
            match r {
                Some(v) => lookup(self@, name@) == Some(*v),
                None => lookup(self@, name@) is None,
            },
    {
        self.variables.get(name)
    }

    pub fn clear(&mut self)
        ensures
            final(self).wf(),
            final(self)@ == Map::<Seq<char>, VariableType>::empty(),
    {
        self.variables.clear();
    }
}

} // verus!
