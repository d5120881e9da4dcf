use vstd::prelude::*;
use vstd::std_specs::cmp::PartialEqSpecImpl;
use vstd::string::*;

verus! {

/// A type of the language as the analysis sees it: a declared type applied to
/// arguments, or one constructor of such a type with the types of its fields.
#[derive(Debug, Hash)]
pub enum RuntimeType {
    Adt { name: String, args: Vec<RuntimeType> },
    Variant { adt: String, adt_args: Vec<RuntimeType>, constructor: String, fields: Vec<RuntimeType> },
}

/// What a runtime type is.
pub enum RuntimeTypeView {
    Adt { name: Seq<char>, args: Seq<RuntimeTypeView> },
    Variant {
        adt: Seq<char>,
        adt_args: Seq<RuntimeTypeView>,
        constructor: Seq<char>,
        fields: Seq<RuntimeTypeView>,
    },
}

pub open spec fn runtime_type_view(t: RuntimeType) -> RuntimeTypeView
    decreases t,
{
    match t {
        RuntimeType::Adt { name, args } => RuntimeTypeView::Adt { name: name@, args: runtime_types_view(args@) },
        RuntimeType::Variant { adt, adt_args, constructor, fields } => RuntimeTypeView::Variant {
            adt: adt@,
            adt_args: runtime_types_view(adt_args@),
            constructor: constructor@,
            fields: runtime_types_view(fields@),
        },
    }
}

pub open spec fn runtime_types_view(types: Seq<RuntimeType>) -> Seq<RuntimeTypeView>
    decreases types,
{
    if types.len() == 0 {
        Seq::empty()
    } else {
        runtime_types_view(types.subrange(0, types.len() - 1)).push(runtime_type_view(types[types.len() - 1]))
    }
}

/// The view of a list of runtime types is the list of their views.
pub proof fn lemma_runtime_types_view(types: Seq<RuntimeType>)
    ensures
        runtime_types_view(types).len() == types.len(),
        forall|i: int| 0 <= i < types.len() ==> #[trigger] runtime_types_view(types)[i] == runtime_type_view(types[i]),
    decreases types.len(),
{
    if types.len() > 0 {
        let front = types.subrange(0, types.len() - 1);
        lemma_runtime_types_view(front);
        assert forall|i: int| 0 <= i < types.len() implies #[trigger] runtime_types_view(types)[i] == runtime_type_view(types[i]) by {
            if i < types.len() - 1 {
                assert(front[i] == types[i]);
            }
        }
    }
}

pub proof fn lemma_runtime_types_view_push(types: Seq<RuntimeType>, t: RuntimeType)
    ensures
        runtime_types_view(types.push(t)) == runtime_types_view(types).push(runtime_type_view(t)),
{
    assert(types.push(t).subrange(0, types.len() as int) =~= types);
}

/// How a runtime type is written: a declared type as its name with its
/// arguments between `<` and `>`, a constructor as its name with its fields
/// between `(` and `)`.
pub open spec fn runtime_type_text(t: RuntimeTypeView) -> Seq<char>
    decreases t,
{
    match t {
        RuntimeTypeView::Adt { name, args } => if args.len() == 0 {
            name
        } else {
            name + "<"@ + runtime_type_list_text(args) + ">"@
        },
        RuntimeTypeView::Variant { constructor, fields, .. } => if fields.len() == 0 {
            constructor
        } else {
            constructor + "("@ + runtime_type_list_text(fields) + ")"@
        },
    }
}

/// Runtime types written one after the other, separated by `, `.
pub open spec fn runtime_type_list_text(types: Seq<RuntimeTypeView>) -> Seq<char>
    decreases types,
{
    if types.len() == 0 {
        Seq::empty()
    } else if types.len() == 1 {
        runtime_type_text(types[0])
    } else {
        runtime_type_list_text(types.subrange(0, types.len() - 1)) + ", "@ + runtime_type_text(
            types[types.len() - 1],
        )
    }
}

/// Two lists of runtime types are the same, element by element.
pub fn same_runtime_types(left: &Vec<RuntimeType>, right: &Vec<RuntimeType>) -> (same: bool)
    ensures
        same == (runtime_types_view(left@) == runtime_types_view(right@)),
    decreases left,
{
    proof {
        lemma_runtime_types_view(left@);
        lemma_runtime_types_view(right@);
    }
    if left.len() != right.len() {
        return false;
    }
    let mut i: usize = 0;
    while i < left.len()
        invariant
            i <= left@.len(),
            left@.len() == right@.len(),
            runtime_types_view(left@).len() == left@.len(),
            runtime_types_view(right@).len() == right@.len(),
            forall|j: int| 0 <= j < left@.len() ==> #[trigger] runtime_types_view(left@)[j] == runtime_type_view(left@[j]),
            forall|j: int| 0 <= j < right@.len() ==> #[trigger] runtime_types_view(right@)[j] == runtime_type_view(right@[j]),
            forall|j: int| 0 <= j < i ==> runtime_type_view(left@[j]) == runtime_type_view(right@[j]),
        decreases left@.len() - i,
    {
        if !same_runtime_type(&left[i], &right[i]) {
            proof {
                assert(runtime_types_view(left@)[i as int] != runtime_types_view(right@)[i as int]);
            }
            return false;
        }
        i = i + 1;
    }
    proof {
        assert(runtime_types_view(left@) =~= runtime_types_view(right@));
    }
    true
}

/// Two runtime types are the same.
pub fn same_runtime_type(left: &RuntimeType, right: &RuntimeType) -> (same: bool)
    ensures
        same == (runtime_type_view(*left) == runtime_type_view(*right)),
    decreases left,
{
    match (left, right) {
        (RuntimeType::Adt { name: n1, args: a1 }, RuntimeType::Adt { name: n2, args: a2 }) => {
            *n1 == *n2 && same_runtime_types(a1, a2)
        },
        (
            RuntimeType::Variant { adt: d1, adt_args: a1, constructor: c1, fields: f1 },
            RuntimeType::Variant { adt: d2, adt_args: a2, constructor: c2, fields: f2 },
        ) => *d1 == *d2 && *c1 == *c2 && same_runtime_types(a1, a2) && same_runtime_types(f1, f2),
        _ => false,
    }
}

impl PartialEqSpecImpl for RuntimeType {
    open spec fn obeys_eq_spec() -> bool {
        true
    }

    open spec fn eq_spec(&self, other: &Self) -> bool {
        runtime_type_view(*self) == runtime_type_view(*other)
    }
}

impl PartialEq for RuntimeType {
    fn eq(&self, other: &Self) -> (same: bool) {
        same_runtime_type(self, other)
    }
}

impl Eq for RuntimeType {

}

/// A copy of a list of runtime types.
pub fn copy_runtime_types(types: &Vec<RuntimeType>) -> (copy: Vec<RuntimeType>)
    ensures
        runtime_types_view(copy@) == runtime_types_view(types@),
    decreases types,
{
    proof {
        lemma_runtime_types_view(types@);
    }
    let mut copy: Vec<RuntimeType> = Vec::new();
    let mut i: usize = 0;
    while i < types.len()
        invariant
            i <= types@.len(),
            runtime_types_view(types@).len() == types@.len(),
            forall|j: int| 0 <= j < types@.len() ==> #[trigger] runtime_types_view(types@)[j] == runtime_type_view(types@[j]),
            runtime_types_view(copy@) == runtime_types_view(types@).subrange(0, i as int),
        decreases types@.len() - i,
    {
        let element = copy_runtime_type(&types[i]);
        proof {
            lemma_runtime_types_view_push(copy@, element);
            assert(runtime_types_view(types@).subrange(0, i + 1) =~= runtime_types_view(types@).subrange(0, i as int).push(
                runtime_type_view(types@[i as int])));
        }
        copy.push(element);
        i = i + 1;
    }
    proof {
        assert(runtime_types_view(types@).subrange(0, types@.len() as int) =~= runtime_types_view(types@));
    }
    copy
}

/// A copy of a runtime type.
pub fn copy_runtime_type(t: &RuntimeType) -> (copy: RuntimeType)
    ensures
        runtime_type_view(copy) == runtime_type_view(*t),
    decreases t,
{
    match t {
        RuntimeType::Adt { name, args } => RuntimeType::Adt { name: name.clone(), args: copy_runtime_types(args) },
        RuntimeType::Variant { adt, adt_args, constructor, fields } => RuntimeType::Variant {
            adt: adt.clone(),
            adt_args: copy_runtime_types(adt_args),
            constructor: constructor.clone(),
            fields: copy_runtime_types(fields),
        },
    }
}

/// Runtime types written one after the other, separated by `, `.
fn render_runtime_types(types: &Vec<RuntimeType>) -> (text: String)
    ensures
        text@ == runtime_type_list_text(runtime_types_view(types@)),
    decreases types,
{
    proof {
        lemma_runtime_types_view(types@);
    }
    let ghost views = runtime_types_view(types@);
    let mut text = String::new();
    let mut i: usize = 0;
    while i < types.len()
        invariant
            i <= types@.len(),
            views == runtime_types_view(types@),
            views.len() == types@.len(),
            forall|j: int| 0 <= j < types@.len() ==> #[trigger] views[j] == runtime_type_view(types@[j]),
            text@ == runtime_type_list_text(views.subrange(0, i as int)),
        decreases types@.len() - i,
    {
        proof {
            assert(views.subrange(0, i + 1).subrange(0, i as int) =~= views.subrange(0, i as int));
            assert(views.subrange(0, i + 1)[i as int] == views[i as int]);
        }
        let element = render_runtime_type(&types[i]);
        if i > 0 {
            text = text.concat(", ");
        }
        text = text.concat(element.as_str());
        i = i + 1;
    }
    proof {
        assert(views.subrange(0, views.len() as int) =~= views);
    }
    text
}

/// How a runtime type is written.
pub fn render_runtime_type(t: &RuntimeType) -> (text: String)
    ensures
        text@ == runtime_type_text(runtime_type_view(*t)),
    decreases t,
{
    proof {
        match t {
            RuntimeType::Adt { args, .. } => lemma_runtime_types_view(args@),
            RuntimeType::Variant { fields, .. } => lemma_runtime_types_view(fields@),
        }
    }
    match t {
        RuntimeType::Adt { name, args } => {
            if args.len() == 0 {
                name.clone()
            } else {
                name.clone().concat("<").concat(render_runtime_types(args).as_str()).concat(">")
            }
        },
        RuntimeType::Variant { constructor, fields, .. } => {
            if fields.len() == 0 {
                constructor.clone()
            } else {
                constructor.clone().concat("(").concat(render_runtime_types(fields).as_str()).concat(")")
            }
        },
    }
}

/// The extractor of a constructor pattern: the declared type and the
/// constructor's name.
#[derive(Debug, Hash)]
pub struct RuntimeExtractor {
    pub adt: String,
    pub constructor: String,
}

impl RuntimeExtractor {
    pub open spec fn view(&self) -> (Seq<char>, Seq<char>) {
        (self.adt@, self.constructor@)
    }
}

impl PartialEqSpecImpl for RuntimeExtractor {
    open spec fn obeys_eq_spec() -> bool {
        true
    }

    open spec fn eq_spec(&self, other: &Self) -> bool {
        self.view() == other.view()
    }
}

impl PartialEq for RuntimeExtractor {
    fn eq(&self, other: &Self) -> (same: bool) {
        self.adt == other.adt && self.constructor == other.constructor
    }
}

impl Eq for RuntimeExtractor {

}

} // verus!
