use vstd::prelude::*;
use vstd::string::*;

use crate::operations::{AtomicIntersection, Decomposition, SpaceOperations};
use crate::dsl::model::{
    bindings_of, bindings_view, build_error, constructors_error_from, declarations_error_from, field_error,
    fields_error_from, lemma_type_index_from, lookup_binding, resolve_list, resolve_type, type_index,
    validate_error, validate_list_error, Model,
};
use crate::dsl::syntax::{
    error_at, lemma_type_exprs_view, quote, quoted, strings_view, type_exprs_view, ConstructorDeclView, DslError,
    ErrorView, Span, TypeDeclView, TypeExprView,
};
use crate::dsl::types::{
    copy_runtime_type, copy_runtime_types, lemma_runtime_types_view, lemma_runtime_types_view_push,
    render_runtime_type, runtime_type_text, same_runtime_type, same_runtime_types, RuntimeExtractor, runtime_type_view, runtime_types_view, RuntimeType, RuntimeTypeView,
};

verus! {

/// A runtime type whose declared types exist and get as many arguments as
/// they have parameters.
pub open spec fn wf_type(types: Seq<TypeDeclView>, t: RuntimeTypeView) -> bool
    decreases t,
{
    match t {
        RuntimeTypeView::Adt { name, args } => {
            &&& type_index(types, name) matches Some(i) && types[i].params.len() == args.len()
            &&& wf_types(types, args)
        },
        RuntimeTypeView::Variant { adt_args, fields, .. } => wf_types(types, adt_args) && wf_types(types, fields),
    }
}

/// Every runtime type of the list is well formed.
pub open spec fn wf_types(types: Seq<TypeDeclView>, ts: Seq<RuntimeTypeView>) -> bool
    decreases ts,
{
    if ts.len() == 0 {
        true
    } else {
        wf_types(types, ts.subrange(0, ts.len() - 1)) && wf_type(types, ts[ts.len() - 1])
    }
}

pub proof fn lemma_wf_types(types: Seq<TypeDeclView>, ts: Seq<RuntimeTypeView>)
    ensures
        wf_types(types, ts) <==> forall|i: int| 0 <= i < ts.len() ==> #[trigger] wf_type(types, ts[i]),
    decreases ts.len(),
{
    if ts.len() > 0 {
        let front = ts.subrange(0, ts.len() - 1);
        lemma_wf_types(types, front);
        if wf_types(types, ts) {
            assert forall|i: int| 0 <= i < ts.len() implies #[trigger] wf_type(types, ts[i]) by {
                if i < ts.len() - 1 {
                    assert(front[i] == ts[i]);
                }
            }
        }
        if forall|i: int| 0 <= i < ts.len() ==> #[trigger] wf_type(types, ts[i]) {
            assert forall|i: int| 0 <= i < front.len() implies #[trigger] wf_type(types, front[i]) by {
                assert(front[i] == ts[i]);
                assert(wf_type(types, ts[i]));
            }
            assert(wf_types(types, front));
            assert(wf_type(types, ts[ts.len() - 1]));
        }
    }
}

/// The first constructor from `index` on with the given name.
pub open spec fn constructor_index_from(constructors: Seq<ConstructorDeclView>, name: Seq<char>, index: int) -> Option<
    int,
>
    decreases constructors.len() - index,
{
    if index < 0 || index >= constructors.len() {
        None
    } else if constructors[index].name == name {
        Some(index)
    } else {
        constructor_index_from(constructors, name, index + 1)
    }
}

proof fn lemma_constructor_index_from(constructors: Seq<ConstructorDeclView>, name: Seq<char>, index: int)
    requires
        0 <= index,
    ensures
        constructor_index_from(constructors, name, index) matches Some(k) ==> index <= k < constructors.len()
            && constructors[k].name == name,
    decreases constructors.len() - index,
{
    if index < constructors.len() && constructors[index].name != name {
        lemma_constructor_index_from(constructors, name, index + 1);
    }
}

/// Some declaration has a constructor with the given name.
pub open spec fn names_a_constructor(types: Seq<TypeDeclView>, name: Seq<char>) -> bool {
    exists|i: int, k: int|
        0 <= i < types.len() && 0 <= k < types[i].constructors.len() && #[trigger] types[i].constructors[k].name
            == name
}

/// The declaration and constructor that a constructor pattern names against
/// the expected type, with the expected type's arguments; or the error: the
/// expected type is a single constructor, its declaration is unknown, or it
/// has no constructor of that name (which a constructor of another type may
/// have).
pub open spec fn find_constructor(types: Seq<TypeDeclView>, expected: RuntimeTypeView, name: Seq<char>, span: Span) -> Result<
    (int, int, Seq<RuntimeTypeView>),
    ErrorView,
> {
    match expected {
        RuntimeTypeView::Adt { name: declared_name, args } => match type_index(types, declared_name) {
            None => Err(error_at(quoted("Unknown type `"@, declared_name, "`"@), span)),
            Some(ti) => match constructor_index_from(types[ti].constructors, name, 0) {
                Some(ci) => Ok((ti, ci, args)),
                None => if names_a_constructor(types, name) {
                    Err(
                        error_at(
                            "Constructor `"@ + name + "` cannot match `"@ + runtime_type_text(expected) + "`"@,
                            span,
                        ),
                    )
                } else {
                    Err(error_at(quoted("Unknown constructor `"@, name, "`"@), span))
                },
            },
        },
        RuntimeTypeView::Variant { .. } => Err(
            error_at(quoted("Constructor `"@, name, "` cannot match this scrutinee type"@), span),
        ),
    }
}

/// A constructor that is found belongs to a declaration of the model, and the
/// expected type is that declaration applied to the arguments given back.
pub proof fn lemma_find_constructor(types: Seq<TypeDeclView>, expected: RuntimeTypeView, name: Seq<char>, span: Span)
    ensures
        find_constructor(types, expected, name, span) matches Ok((ti, ci, args)) ==> {
            &&& 0 <= ti < types.len()
            &&& 0 <= ci < types[ti].constructors.len()
            &&& expected matches RuntimeTypeView::Adt { name: n, args: a } && a == args && type_index(types, n) == Some(ti)
        },
{
    if let RuntimeTypeView::Adt { name: declared_name, .. } = expected {
        lemma_type_index_from(types, declared_name, 0);
        if let Some(ti) = type_index(types, declared_name) {
            lemma_constructor_index_from(types[ti].constructors, name, 0);
        }
    }
}

/// The field types of constructor `ci` of declaration `ti`, with the
/// declaration's parameters bound to `adt_args`.
pub open spec fn variant_fields(types: Seq<TypeDeclView>, ti: int, ci: int, adt_args: Seq<RuntimeTypeView>) -> Result<
    Seq<RuntimeTypeView>,
    ErrorView,
> {
    resolve_list(types, types[ti].constructors[ci].fields, bindings_of(types[ti].params, adt_args))
}

/// The runtime type of constructor `ci` of declaration `ti` applied to
/// `adt_args`, with its field types.
pub open spec fn variant_of(
    types: Seq<TypeDeclView>,
    ti: int,
    ci: int,
    adt_args: Seq<RuntimeTypeView>,
    fields: Seq<RuntimeTypeView>,
) -> RuntimeTypeView {
    RuntimeTypeView::Variant {
        adt: types[ti].name,
        adt_args,
        constructor: types[ti].constructors[ci].name,
        fields,
    }
}

pub proof fn lemma_resolve_list(
    types: Seq<TypeDeclView>,
    exprs: Seq<TypeExprView>,
    bindings: Seq<(Seq<char>, RuntimeTypeView)>,
)
    ensures
        resolve_list(types, exprs, bindings) matches Ok(ts) ==> ts.len() == exprs.len() && forall|i: int|
            0 <= i < exprs.len() ==> #[trigger] resolve_type(types, exprs[i], bindings) == Ok::<_, ErrorView>(ts[i]),
        (forall|i: int| 0 <= i < exprs.len() ==> #[trigger] resolve_type(types, exprs[i], bindings) is Ok)
            ==> resolve_list(types, exprs, bindings) is Ok,
    decreases exprs.len(),
{
    if exprs.len() > 0 {
        let front = exprs.subrange(0, exprs.len() - 1);
        lemma_resolve_list(types, front, bindings);
        if forall|i: int| 0 <= i < exprs.len() ==> #[trigger] resolve_type(types, exprs[i], bindings) is Ok {
            assert forall|i: int| 0 <= i < front.len() implies #[trigger] resolve_type(types, front[i], bindings) is Ok by {
                assert(front[i] == exprs[i]);
                assert(resolve_type(types, exprs[i], bindings) is Ok);
            }
            assert(resolve_type(types, exprs[exprs.len() - 1], bindings) is Ok);
        }
        if let Ok(ts) = resolve_list(types, exprs, bindings) {
            assert forall|i: int| 0 <= i < exprs.len() implies #[trigger] resolve_type(types, exprs[i], bindings)
                == Ok::<_, ErrorView>(ts[i]) by {
                if i < exprs.len() - 1 {
                    assert(front[i] == exprs[i]);
                }
            }
        }
    }
}

proof fn lemma_validate_list(types: Seq<TypeDeclView>, exprs: Seq<TypeExprView>, params: Seq<Seq<char>>)
    ensures
        validate_list_error(types, exprs, params) is None ==> forall|i: int|
            0 <= i < exprs.len() ==> #[trigger] validate_error(types, exprs[i], params) is None,
    decreases exprs.len(),
{
    if exprs.len() > 0 {
        let front = exprs.subrange(0, exprs.len() - 1);
        lemma_validate_list(types, front, params);
        if validate_list_error(types, exprs, params) is None {
            assert forall|i: int| 0 <= i < exprs.len() implies #[trigger] validate_error(types, exprs[i], params) is None by {
                if i < exprs.len() - 1 {
                    assert(front[i] == exprs[i]);
                }
            }
        }
    }
}

proof fn lemma_lookup_bindings_of(params: Seq<Seq<char>>, args: Seq<RuntimeTypeView>, name: Seq<char>)
    requires
        params.len() == args.len(),
    ensures
        lookup_binding(bindings_of(params, args), name) is Some <==> params.contains(name),
    decreases params.len(),
{
    let bindings = bindings_of(params, args);
    if params.len() > 0 {
        let n = params.len() - 1;
        let front_params = params.subrange(0, n);
        let front_args = args.subrange(0, n);
        lemma_lookup_bindings_of(front_params, front_args, name);
        assert(bindings.subrange(0, n) =~= bindings_of(front_params, front_args));
        if params.contains(name) && params[n] != name {
            let j = choose|j: int| 0 <= j < params.len() && params[j] == name;
            assert(front_params[j] == name);
        }
        if front_params.contains(name) {
            let j = choose|j: int| 0 <= j < front_params.len() && front_params[j] == name;
            assert(params[j] == name);
        }
    }
}

/// A field type that the declaration checks accepted resolves once every
/// parameter is bound.
proof fn lemma_valid_resolves(
    types: Seq<TypeDeclView>,
    expr: TypeExprView,
    params: Seq<Seq<char>>,
    args: Seq<RuntimeTypeView>,
)
    requires
        validate_error(types, expr, params) is None,
        params.len() == args.len(),
    ensures
        resolve_type(types, expr, bindings_of(params, args)) is Ok,
    decreases expr,
{
    let TypeExprView::Named(name, expr_args, span) = expr;
    lemma_lookup_bindings_of(params, args, name);
    if !params.contains(name) {
        lemma_validate_list(types, expr_args, params);
        assert forall|i: int| 0 <= i < expr_args.len() implies #[trigger] resolve_type(
            types,
            expr_args[i],
            bindings_of(params, args),
        ) is Ok by {
            lemma_valid_resolves(types, expr_args[i], params, args);
        }
        lemma_resolve_list(types, expr_args, bindings_of(params, args));
    }
}

/// What resolves from well-formed bindings is well formed.
proof fn lemma_resolved_wf(types: Seq<TypeDeclView>, expr: TypeExprView, bindings: Seq<(Seq<char>, RuntimeTypeView)>)
    requires
        forall|i: int| 0 <= i < bindings.len() ==> wf_type(types, #[trigger] bindings[i].1),
    ensures
        resolve_type(types, expr, bindings) matches Ok(t) ==> wf_type(types, t),
    decreases expr,
{
    lemma_lookup_wf(types, bindings, expr.name());
    let TypeExprView::Named(name, args, span) = expr;
    if let Ok(t) = resolve_type(types, expr, bindings) {
        if lookup_binding(bindings, name) is None {
            lemma_resolve_list(types, args, bindings);
            let ts = t->Adt_args;
            assert forall|i: int| 0 <= i < ts.len() implies #[trigger] wf_type(types, ts[i]) by {
                lemma_resolved_wf(types, args[i], bindings);
            }
            lemma_wf_types(types, ts);
        }
    }
}

proof fn lemma_lookup_wf(types: Seq<TypeDeclView>, bindings: Seq<(Seq<char>, RuntimeTypeView)>, name: Seq<char>)
    requires
        forall|i: int| 0 <= i < bindings.len() ==> wf_type(types, #[trigger] bindings[i].1),
    ensures
        lookup_binding(bindings, name) matches Some(t) ==> wf_type(types, t),
    decreases bindings.len(),
{
    if bindings.len() > 0 {
        let front = bindings.subrange(0, bindings.len() - 1);
        assert forall|i: int| 0 <= i < front.len() implies wf_type(types, #[trigger] front[i].1) by {
            assert(front[i] == bindings[i]);
        }
        lemma_lookup_wf(types, front, name);
        assert(wf_type(types, bindings[bindings.len() - 1].1));
    }
}

proof fn lemma_fields_ok(
    types: Seq<TypeDeclView>,
    decl: TypeDeclView,
    fields: Seq<TypeExprView>,
    index: int,
)
    requires
        0 <= index,
        fields_error_from(types, decl, fields, index) is None,
    ensures
        forall|m: int| index <= m < fields.len() ==> validate_error(types, #[trigger] fields[m], decl.params) is None,
    decreases fields.len() - index,
{
    if index < fields.len() {
        lemma_fields_ok(types, decl, fields, index + 1);
        assert(field_error(types, decl, fields[index]) is None);
    }
}

proof fn lemma_constructors_ok(types: Seq<TypeDeclView>, decl: TypeDeclView, index: int)
    requires
        0 <= index,
        constructors_error_from(types, decl, index) is None,
    ensures
        forall|k: int| index <= k < decl.constructors.len() ==> fields_error_from(
            types,
            decl,
            #[trigger] decl.constructors[k].fields,
            0,
        ) is None,
    decreases decl.constructors.len() - index,
{
    if index < decl.constructors.len() {
        lemma_constructors_ok(types, decl, index + 1);
    }
}

proof fn lemma_declarations_ok(types: Seq<TypeDeclView>, index: int)
    requires
        0 <= index,
        declarations_error_from(types, index) is None,
    ensures
        forall|i: int| index <= i < types.len() ==> constructors_error_from(types, #[trigger] types[i], 0) is None,
    decreases types.len() - index,
{
    if index < types.len() {
        lemma_declarations_ok(types, index + 1);
    }
}

/// In a checked model, the fields of a constructor resolve once the
/// declaration's parameters are bound to as many arguments, and the field
/// types are well formed when the arguments are.
pub proof fn lemma_variant_fields(types: Seq<TypeDeclView>, ti: int, ci: int, adt_args: Seq<RuntimeTypeView>)
    requires
        build_error(types) is None,
        0 <= ti < types.len(),
        0 <= ci < types[ti].constructors.len(),
        types[ti].params.len() == adt_args.len(),
        wf_types(types, adt_args),
    ensures
        variant_fields(types, ti, ci, adt_args) matches Ok(fields) && fields.len()
            == types[ti].constructors[ci].fields.len() && wf_types(types, fields),
{
    let decl = types[ti];
    let fields = decl.constructors[ci].fields;
    let bindings = bindings_of(decl.params, adt_args);
    lemma_declarations_ok(types, 0);
    lemma_constructors_ok(types, decl, 0);
    lemma_fields_ok(types, decl, fields, 0);
    assert forall|m: int| 0 <= m < fields.len() implies #[trigger] resolve_type(types, fields[m], bindings) is Ok by {
        lemma_valid_resolves(types, fields[m], decl.params, adt_args);
    }
    lemma_resolve_list(types, fields, bindings);
    lemma_wf_types(types, adt_args);
    assert forall|i: int| 0 <= i < bindings.len() implies wf_type(types, #[trigger] bindings[i].1) by {
        assert(bindings[i].1 == adt_args[i]);
    }
    let resolved = resolve_list(types, fields, bindings)->Ok_0;
    assert forall|m: int| 0 <= m < resolved.len() implies #[trigger] wf_type(types, resolved[m]) by {
        lemma_resolved_wf(types, fields[m], bindings);
    }
    lemma_wf_types(types, resolved);
}

/// A closed type expression that resolves is well formed.
pub proof fn lemma_closed_resolves_wf(types: Seq<TypeDeclView>, expr: TypeExprView)
    ensures
        resolve_type(types, expr, Seq::empty()) matches Ok(t) ==> wf_type(types, t),
{
    lemma_resolved_wf(types, expr, Seq::empty());
}

impl<'a> Model<'a> {
    /// Whether some declaration has a constructor with the given name.
    fn names_a_constructor(&self, name: &String) -> (found: bool)
        ensures
            found == names_a_constructor(self.decls(), name@),
    {
        let ghost decls = self.decls();
        let count = self.type_count();
        let mut i: usize = 0;
        while i < count
            invariant
                i <= count,
                count == decls.len(),
                decls == self.decls(),
                forall|a: int, k: int|
                    0 <= a < i && 0 <= k < decls[a].constructors.len() ==> #[trigger] decls[a].constructors[k].name
                        != name@,
            decreases count - i,
        {
            let decl = self.type_decl_at(i);
            let mut k: usize = 0;
            while k < decl.constructors.len()
                invariant
                    i < count,
                    count == decls.len(),
                    decls == self.decls(),
                    decl.view() == decls[i as int],
                    k <= decl.constructors@.len(),
                    decls[i as int].constructors.len() == decl.constructors@.len(),
                    forall|a: int, k2: int|
                        0 <= a < i && 0 <= k2 < decls[a].constructors.len() ==> #[trigger] decls[a].constructors[k2].name
                            != name@,
                    forall|k2: int| 0 <= k2 < k ==> #[trigger] decls[i as int].constructors[k2].name != name@,
                decreases decl.constructors@.len() - k,
            {
                proof {
                    assert(decls[i as int].constructors[k as int] == decl.constructors@[k as int].view());
                }
                if decl.constructors[k].name == *name {
                    proof {
                        assert(decls[i as int].constructors[k as int].name == name@);
                    }
                    return true;
                }
                k = k + 1;
            }
            i = i + 1;
        }
        false
    }

    /// The position of the first constructor of declaration `ti` with the given name.
    fn constructor_index(&self, ti: usize, name: &String) -> (index: Option<usize>)
        requires
            ti < self.decls().len(),
        ensures
            match index {
                Some(k) => constructor_index_from(self.decls()[ti as int].constructors, name@, 0) == Some(k as int),
                None => constructor_index_from(self.decls()[ti as int].constructors, name@, 0) is None,
            },
    {
        let decl = self.type_decl_at(ti);
        let ghost constructors = decl.view().constructors;
        let mut k: usize = 0;
        while k < decl.constructors.len()
            invariant
                constructors == decl.view().constructors,
                constructors == self.decls()[ti as int].constructors,
                constructors.len() == decl.constructors@.len(),
                k <= decl.constructors@.len(),
                constructor_index_from(constructors, name@, 0) == constructor_index_from(constructors, name@, k as int),
            decreases decl.constructors@.len() - k,
        {
            proof {
                assert(constructors[k as int] == decl.constructors@[k as int].view());
            }
            if decl.constructors[k].name == *name {
                return Some(k);
            }
            k = k + 1;
        }
        None
    }

    /// The declaration and constructor that a constructor pattern names
    /// against the expected type, with a copy of the expected type's arguments.
    pub fn constructor_in_type(&self, expected: &RuntimeType, name: &String, span: Span) -> (found: Result<
        (usize, usize, Vec<RuntimeType>),
        DslError,
    >)
        ensures
            match (found, find_constructor(self.decls(), runtime_type_view(*expected), name@, span)) {
                (Ok((ti, ci, args)), Ok((t, c, a))) => ti == t && ci == c && runtime_types_view(args@) == a,
                (Err(e), Err(v)) => e.view() == v,
                _ => false,
            },
    {
        let (declared_name, args) = match expected {
            RuntimeType::Adt { name: declared_name, args } => (declared_name, args),
            RuntimeType::Variant { .. } => {
                return Err(DslError::at(quote("Constructor `", name.as_str(), "` cannot match this scrutinee type"), span));
            },
        };
        let ti = match self.type_decl_index(declared_name) {
            Some(ti) => ti,
            None => return Err(DslError::at(quote("Unknown type `", declared_name.as_str(), "`"), span)),
        };
        proof {
            lemma_type_index_from(self.decls(), declared_name@, 0);
        }
        match self.constructor_index(ti, name) {
            Some(ci) => Ok((ti, ci, copy_runtime_types(args))),
            None => {
                if self.names_a_constructor(name) {
                    let message = String::from_str("Constructor `").concat(name.as_str()).concat("` cannot match `").concat(
                        render_runtime_type(expected).as_str(),
                    ).concat("`");
                    Err(DslError::at(message, span))
                } else {
                    Err(DslError::at(quote("Unknown constructor `", name.as_str(), "`"), span))
                }
            },
        }
    }

    /// The runtime type of constructor `ci` of declaration `ti` applied to
    /// `adt_args`, or `None` when a field type does not resolve.
    #[verifier::loop_isolation(false)]
    pub fn variant_type(&self, ti: usize, ci: usize, adt_args: &Vec<RuntimeType>) -> (variant: Option<RuntimeType>)
        requires
            ti < self.decls().len(),
            ci < self.decls()[ti as int].constructors.len(),
        ensures
            match variant {
                Some(v) => variant_fields(self.decls(), ti as int, ci as int, runtime_types_view(adt_args@)) matches Ok(
                    fields,
                ) && runtime_type_view(v) == variant_of(
                    self.decls(),
                    ti as int,
                    ci as int,
                    runtime_types_view(adt_args@),
                    fields,
                ),
                None => variant_fields(self.decls(), ti as int, ci as int, runtime_types_view(adt_args@)) is Err,
            },
    {
        let decl = self.type_decl_at(ti);
        let constructor = &decl.constructors[ci];
        proof {
            assert(self.decls()[ti as int].constructors[ci as int] == constructor.view());
            lemma_runtime_types_view(adt_args@);
        }
        let ghost params = strings_view(decl.params@);
        let ghost args_view = runtime_types_view(adt_args@);
        let count = if decl.params.len() <= adt_args.len() {
            decl.params.len()
        } else {
            adt_args.len()
        };
        let mut bindings: Vec<(String, RuntimeType)> = Vec::new();
        let mut i: usize = 0;
        while i < count
            invariant
                i <= count,
                count <= decl.params@.len(),
                count <= adt_args@.len(),
                params == strings_view(decl.params@),
                args_view == runtime_types_view(adt_args@),
                args_view.len() == adt_args@.len(),
                forall|j: int| 0 <= j < adt_args@.len() ==> #[trigger] args_view[j] == runtime_type_view(adt_args@[j]),
                bindings_view(bindings@) =~= bindings_of(params, args_view).subrange(0, i as int),
            decreases count - i,
        {
            let binding = (decl.params[i].clone(), copy_runtime_type(&adt_args[i]));
            proof {
                assert(bindings_view(bindings@.push(binding)) =~= bindings_view(bindings@).push(
                    (binding.0@, runtime_type_view(binding.1)),
                ));
            }
            bindings.push(binding);
            i = i + 1;
        }
        proof {
            assert(bindings_of(params, args_view).subrange(0, count as int) =~= bindings_of(params, args_view));
        }
        let ghost fields_view = constructor.view().fields;
        let ghost bs = bindings_view(bindings@);
        proof {
            lemma_type_exprs_view(constructor.fields@);
            assert(fields_view.subrange(0, 0) =~= Seq::<TypeExprView>::empty());
        }
        let mut fields: Vec<RuntimeType> = Vec::new();
        proof {
            assert(runtime_types_view(fields@) =~= Seq::<RuntimeTypeView>::empty());
        }
        let mut m: usize = 0;
        while m < constructor.fields.len()
            invariant
                m <= constructor.fields@.len(),
                fields_view == constructor.view().fields,
                fields_view.len() == constructor.fields@.len(),
                forall|j: int| 0 <= j < fields_view.len() ==> #[trigger] fields_view[j] == crate::dsl::syntax::type_expr_view(constructor.fields@[j]),
                bs == bindings_view(bindings@),
                resolve_list(self.decls(), fields_view.subrange(0, m as int), bs) == Ok::<_, ErrorView>(runtime_types_view(fields@)),
            decreases constructor.fields@.len() - m,
        {
            proof {
                assert(fields_view.subrange(0, m + 1).subrange(0, m as int) =~= fields_view.subrange(0, m as int));
            }
            let field = match self.resolve_type(&constructor.fields[m], &bindings) {
                Ok(field) => field,
                Err(_) => {
                    proof {
                        lemma_resolve_list_error_at(self.decls(), fields_view, m as int, bs);
                    }
                    return None;
                },
            };
            proof {
                lemma_runtime_types_view_push(fields@, field);
            }
            fields.push(field);
            m = m + 1;
        }
        proof {
            assert(fields_view.subrange(0, fields_view.len() as int) =~= fields_view);
        }
        Some(
            RuntimeType::Variant {
                adt: decl.name.clone(),
                adt_args: copy_runtime_types(adt_args),
                constructor: constructor.name.clone(),
                fields,
            },
        )
    }
}

proof fn lemma_resolve_list_error_at(
    types: Seq<TypeDeclView>,
    exprs: Seq<TypeExprView>,
    i: int,
    bindings: Seq<(Seq<char>, RuntimeTypeView)>,
)
    requires
        0 <= i < exprs.len(),
        resolve_list(types, exprs.subrange(0, i), bindings) is Ok,
        resolve_type(types, exprs[i], bindings) is Err,
    ensures
        resolve_list(types, exprs, bindings) is Err,
    decreases exprs.len(),
{
    if i == exprs.len() - 1 {
        assert(exprs.subrange(0, exprs.len() - 1) =~= exprs.subrange(0, i));
    } else {
        let front = exprs.subrange(0, exprs.len() - 1);
        assert(front.subrange(0, i) =~= exprs.subrange(0, i));
        assert(front[i] == exprs[i]);
        lemma_resolve_list_error_at(types, front, i, bindings);
    }
}

/// The types of a model, as the space engine sees them: a declared type
/// decomposes into its constructors, a constructor of a declared type is a
/// subtype of it, and an extractor covers the constructor type with its name.
impl<'a> SpaceOperations for Model<'a> {
    type Type = RuntimeType;

    type Extractor = RuntimeExtractor;

    /// A declared type applied to arguments decomposes into its constructors;
    /// an unknown declared type is empty, and a constructor type does not
    /// decompose. A declared type whose constructors' fields do not resolve
    /// with these arguments, which the model never hands out, does not
    /// decompose either.
    #[verifier::loop_isolation(false)]
    fn decompose_type(&self, value_type: &RuntimeType) -> (decomposition: Decomposition<RuntimeType>)
        ensures
            match runtime_type_view(*value_type) {
                RuntimeTypeView::Adt { name, args } => match type_index(self.decls(), name) {
                    None => decomposition is Empty,
                    Some(ti) => match decomposition {
                        Decomposition::Parts(parts) => parts@.len() == self.decls()[ti].constructors.len()
                            && forall|ci: int|
                            0 <= ci < parts@.len() ==> (variant_fields(self.decls(), ti, ci, args) matches Ok(fields)
                                && runtime_type_view(#[trigger] parts@[ci]) == variant_of(self.decls(), ti, ci, args, fields)),
                        Decomposition::Empty => self.decls()[ti].constructors.len() == 0,
                        Decomposition::NotDecomposable => exists|ci: int|
                            0 <= ci < self.decls()[ti].constructors.len() && #[trigger] variant_fields(self.decls(), ti, ci, args) is Err,
                    },
                },
                RuntimeTypeView::Variant { .. } => decomposition is NotDecomposable,
            },
    {
        let (name, args) = match value_type {
            RuntimeType::Adt { name, args } => (name, args),
            RuntimeType::Variant { .. } => return Decomposition::NotDecomposable,
        };
        let ti = match self.type_decl_index(name) {
            Some(ti) => ti,
            None => return Decomposition::Empty,
        };
        proof {
            lemma_type_index_from(self.decls(), name@, 0);
        }
        let decl = self.type_decl_at(ti);
        let mut parts: Vec<RuntimeType> = Vec::new();
        let mut ci: usize = 0;
        while ci < decl.constructors.len()
            invariant
                ti < self.decls().len(),
                decl.view() == self.decls()[ti as int],
                decl.view().constructors.len() == decl.constructors@.len(),
                ci <= decl.constructors@.len(),
                parts@.len() == ci,
                forall|j: int|
                    0 <= j < ci ==> (variant_fields(self.decls(), ti as int, j, runtime_types_view(args@)) matches Ok(fields)
                        && runtime_type_view(#[trigger] parts@[j]) == variant_of(
                        self.decls(),
                        ti as int,
                        j,
                        runtime_types_view(args@),
                        fields,
                    )),
            decreases decl.constructors@.len() - ci,
        {
            match self.variant_type(ti, ci, args) {
                Some(variant) => parts.push(variant),
                None => {
                    proof {
                        assert(variant_fields(self.decls(), ti as int, ci as int, runtime_types_view(args@)) is Err);
                    }
                    return Decomposition::NotDecomposable;
                },
            }
            ci = ci + 1;
        }
        Decomposition::parts(parts)
    }

    /// A type is a subtype of itself, and a constructor type of the declared
    /// type applied to the same arguments.
    fn is_subtype(&self, left: &RuntimeType, right: &RuntimeType) -> (subtype: bool)
        ensures
            subtype == (runtime_type_view(*left) == runtime_type_view(*right) || match (
                runtime_type_view(*left),
                runtime_type_view(*right),
            ) {
                (
                    RuntimeTypeView::Variant { adt, adt_args, .. },
                    RuntimeTypeView::Adt { name, args },
                ) => adt == name && adt_args == args,
                _ => false,
            }),
    {
        if same_runtime_type(left, right) {
            return true;
        }
        match (left, right) {
            (RuntimeType::Variant { adt, adt_args, .. }, RuntimeType::Adt { name, args }) => {
                *adt == *name && same_runtime_types(adt_args, args)
            },
            _ => false,
        }
    }

    /// Extractors are equivalent when they are the same.
    fn extractors_are_equivalent(&self, left: &RuntimeExtractor, right: &RuntimeExtractor) -> (equivalent: bool)
        ensures
            equivalent == (left.view() == right.view()),
    {
        *left == *right
    }

    /// The field types of the constructor type that the extractor covers, or
    /// none when it does not cover it.
    fn extractor_parameter_types(&self, extractor: &RuntimeExtractor, scrutinee_type: &RuntimeType, arity: usize) -> (parameter_types: Vec<RuntimeType>)
        ensures
            match runtime_type_view(*scrutinee_type) {
                RuntimeTypeView::Variant { adt, constructor, fields, .. } => if adt == extractor.view().0
                    && constructor == extractor.view().1 && fields.len() == arity {
                    runtime_types_view(parameter_types@) == fields
                } else {
                    parameter_types@.len() == 0
                },
                _ => parameter_types@.len() == 0,
            },
    {
        if self.extractor_covers_type(extractor, scrutinee_type, arity) {
            match scrutinee_type {
                RuntimeType::Variant { fields, .. } => copy_runtime_types(fields),
                RuntimeType::Adt { .. } => Vec::new(),
            }
        } else {
            Vec::new()
        }
    }

    /// An extractor covers the constructor type of its declared type and
    /// constructor, with as many fields as the arity.
    fn extractor_covers_type(&self, extractor: &RuntimeExtractor, scrutinee_type: &RuntimeType, arity: usize) -> (covers: bool)
        ensures
            covers == (runtime_type_view(*scrutinee_type) matches RuntimeTypeView::Variant { adt, constructor, fields, .. }
                && adt == extractor.view().0 && constructor == extractor.view().1 && fields.len() == arity),
    {
        proof {
            if let RuntimeType::Variant { fields, .. } = scrutinee_type {
                lemma_runtime_types_view(fields@);
            }
        }
        match scrutinee_type {
            RuntimeType::Variant { adt, constructor, fields, .. } => {
                *adt == extractor.adt && *constructor == extractor.constructor && fields.len() == arity
            },
            RuntimeType::Adt { .. } => false,
        }
    }

    /// Two unrelated types meet only when they are the same.
    fn intersect_atomic_types(&self, left: &RuntimeType, right: &RuntimeType) -> (intersection: AtomicIntersection<
        RuntimeType,
    >)
        ensures
            match intersection {
                AtomicIntersection::Type(t) => runtime_type_view(*left) == runtime_type_view(*right)
                    && runtime_type_view(t) == runtime_type_view(*left),
                AtomicIntersection::Empty => runtime_type_view(*left) != runtime_type_view(*right),
            },
    {
        if same_runtime_type(left, right) {
            AtomicIntersection::Type(copy_runtime_type(left))
        } else {
            AtomicIntersection::Empty
        }
    }
}

} // verus!
