use vstd::prelude::*;
use vstd::string::*;

use crate::dsl::syntax::{
    decimal, decimal_string, error_at, lemma_type_exprs_view, quote, quoted, strings_view, type_expr_mentions,
    type_expr_view, type_exprs_view, ConstructorDecl, ConstructorDeclView, DslError, ErrorView, Program,
    TypeDecl, TypeDeclView, TypeExpr, TypeExprView,
};
use crate::dsl::types::{
    copy_runtime_type, lemma_runtime_types_view, lemma_runtime_types_view_push, runtime_type_view,
    runtime_types_view, RuntimeType, RuntimeTypeView,
};

verus! {

/// The first declaration from `index` on with the given name.
pub open spec fn type_index_from(types: Seq<TypeDeclView>, name: Seq<char>, index: int) -> Option<int>
    decreases types.len() - index,
{
    if index < 0 || index >= types.len() {
        None
    } else if types[index].name == name {
        Some(index)
    } else {
        type_index_from(types, name, index + 1)
    }
}

/// The declaration with the given name.
pub open spec fn type_index(types: Seq<TypeDeclView>, name: Seq<char>) -> Option<int> {
    type_index_from(types, name, 0)
}

pub proof fn lemma_type_index_from(types: Seq<TypeDeclView>, name: Seq<char>, index: int)
    requires
        0 <= index,
    ensures
        type_index_from(types, name, index) matches Some(i) ==> index <= i < types.len() && types[i].name == name
            && forall|j: int| index <= j < i ==> types[j].name != name,
        type_index_from(types, name, index) is None ==> forall|j: int| index <= j < types.len() ==> types[j].name != name,
    decreases types.len() - index,
{
    if index < types.len() && types[index].name != name {
        lemma_type_index_from(types, name, index + 1);
    }
}

/// The message for a type applied to the wrong number of arguments.
pub open spec fn arity_message(name: Seq<char>, expected: nat, got: nat) -> Seq<char> {
    "Type `"@ + name + "` expects "@ + decimal(expected) + " type argument(s), got "@ + decimal(got)
}

fn arity_message_string(name: &String, expected: usize, got: usize) -> (text: String)
    ensures
        text@ == arity_message(name@, expected as nat, got as nat),
{
    String::from_str("Type `").concat(name.as_str()).concat("` expects ").concat(decimal_string(expected).as_str()).concat(
        " type argument(s), got ",
    ).concat(decimal_string(got).as_str())
}

/// The first error in a type expression written inside a declaration with
/// type parameters `params`: a parameter with arguments, an unknown type, or a
/// type with the wrong number of arguments.
pub open spec fn validate_error(types: Seq<TypeDeclView>, expr: TypeExprView, params: Seq<Seq<char>>) -> Option<
    ErrorView,
>
    decreases expr,
{
    let TypeExprView::Named(name, args, span) = expr;
    if params.contains(name) {
        if args.len() > 0 {
            Some(error_at(quoted("Type parameter `"@, name, "` cannot have arguments"@), span))
        } else {
            None
        }
    } else {
        match type_index(types, name) {
            None => Some(error_at(quoted("Unknown type `"@, name, "`"@), span)),
            Some(i) => if types[i].params.len() != args.len() {
                Some(error_at(arity_message(name, types[i].params.len(), args.len()), span))
            } else {
                validate_list_error(types, args, params)
            },
        }
    }
}

/// The first error among type expressions, in order.
pub open spec fn validate_list_error(types: Seq<TypeDeclView>, exprs: Seq<TypeExprView>, params: Seq<Seq<char>>) -> Option<
    ErrorView,
>
    decreases exprs,
{
    if exprs.len() == 0 {
        None
    } else {
        match validate_list_error(types, exprs.subrange(0, exprs.len() - 1), params) {
            Some(e) => Some(e),
            None => validate_error(types, exprs[exprs.len() - 1], params),
        }
    }
}

/// The type bound to `name`: the last binding of that name.
pub open spec fn lookup_binding(bindings: Seq<(Seq<char>, RuntimeTypeView)>, name: Seq<char>) -> Option<
    RuntimeTypeView,
>
    decreases bindings.len(),
{
    if bindings.len() == 0 {
        None
    } else if bindings[bindings.len() - 1].0 == name {
        Some(bindings[bindings.len() - 1].1)
    } else {
        lookup_binding(bindings.subrange(0, bindings.len() - 1), name)
    }
}

/// The runtime type that a type expression denotes, with type parameters
/// replaced by their bindings, or the first error in it.
pub open spec fn resolve_type(
    types: Seq<TypeDeclView>,
    expr: TypeExprView,
    bindings: Seq<(Seq<char>, RuntimeTypeView)>,
) -> Result<RuntimeTypeView, ErrorView>
    decreases expr,
{
    let TypeExprView::Named(name, args, span) = expr;
    match lookup_binding(bindings, name) {
        Some(bound) => if args.len() > 0 {
            Err(error_at(quoted("Type parameter `"@, name, "` cannot have arguments"@), span))
        } else {
            Ok(bound)
        },
        None => match type_index(types, name) {
            None => Err(error_at(quoted("Unknown type `"@, name, "`"@), span)),
            Some(i) => if types[i].params.len() != args.len() {
                Err(error_at(arity_message(name, types[i].params.len(), args.len()), span))
            } else {
                match resolve_list(types, args, bindings) {
                    Err(e) => Err(e),
                    Ok(resolved) => Ok(RuntimeTypeView::Adt { name, args: resolved }),
                }
            },
        },
    }
}

/// The runtime types of type expressions, in order, or the first error.
pub open spec fn resolve_list(
    types: Seq<TypeDeclView>,
    exprs: Seq<TypeExprView>,
    bindings: Seq<(Seq<char>, RuntimeTypeView)>,
) -> Result<Seq<RuntimeTypeView>, ErrorView>
    decreases exprs,
{
    if exprs.len() == 0 {
        Ok(Seq::empty())
    } else {
        match resolve_list(types, exprs.subrange(0, exprs.len() - 1), bindings) {
            Err(e) => Err(e),
            Ok(resolved) => match resolve_type(types, exprs[exprs.len() - 1], bindings) {
                Err(e) => Err(e),
                Ok(t) => Ok(resolved.push(t)),
            },
        }
    }
}

/// Each parameter bound to the argument at its position, as far as both go.
pub open spec fn bindings_of(params: Seq<Seq<char>>, args: Seq<RuntimeTypeView>) -> Seq<(Seq<char>, RuntimeTypeView)> {
    let n = if params.len() <= args.len() {
        params.len()
    } else {
        args.len()
    };
    Seq::new(n, |i: int| (params[i], args[i]))
}

/// Some declaration before position `index` has the same name as the one there.
pub open spec fn earlier_type_named(types: Seq<TypeDeclView>, index: int) -> bool {
    exists|j: int| 0 <= j < index && types[j].name == types[index].name
}

/// Some constructor before position `index` has the same name as the one there.
pub open spec fn earlier_constructor_named(constructors: Seq<ConstructorDeclView>, index: int) -> bool {
    exists|j: int| 0 <= j < index && constructors[j].name == constructors[index].name
}

/// The first constructor from `index` on whose name an earlier one has.
pub open spec fn duplicate_constructor_from(decl: TypeDeclView, index: int) -> Option<ErrorView>
    decreases decl.constructors.len() - index,
{
    if index < 0 || index >= decl.constructors.len() {
        None
    } else if earlier_constructor_named(decl.constructors, index) {
        let constructor = decl.constructors[index];
        Some(
            error_at(
                "Duplicate constructor `"@ + constructor.name + "` in type `"@ + decl.name + "`"@,
                constructor.span,
            ),
        )
    } else {
        duplicate_constructor_from(decl, index + 1)
    }
}

/// The first declaration from `index` on that repeats a type name, or whose
/// constructors repeat a name.
pub open spec fn names_error_from(types: Seq<TypeDeclView>, index: int) -> Option<ErrorView>
    decreases types.len() - index,
{
    if index < 0 || index >= types.len() {
        None
    } else if earlier_type_named(types, index) {
        Some(error_at(quoted("Duplicate type `"@, types[index].name, "`"@), types[index].span))
    } else {
        match duplicate_constructor_from(types[index], 0) {
            Some(e) => Some(e),
            None => names_error_from(types, index + 1),
        }
    }
}

/// The error of one field type of declaration `decl`: an invalid type
/// expression, or one that mentions the declared type itself.
pub open spec fn field_error(types: Seq<TypeDeclView>, decl: TypeDeclView, field: TypeExprView) -> Option<ErrorView> {
    match validate_error(types, field, decl.params) {
        Some(e) => Some(e),
        None => if type_expr_mentions(field, decl.name) {
            Some(error_at(quoted("Recursive type `"@, decl.name, "` is not supported"@), field.span()))
        } else {
            None
        },
    }
}

/// The first error among the fields from `index` on.
pub open spec fn fields_error_from(
    types: Seq<TypeDeclView>,
    decl: TypeDeclView,
    fields: Seq<TypeExprView>,
    index: int,
) -> Option<ErrorView>
    decreases fields.len() - index,
{
    if index < 0 || index >= fields.len() {
        None
    } else {
        match field_error(types, decl, fields[index]) {
            Some(e) => Some(e),
            None => fields_error_from(types, decl, fields, index + 1),
        }
    }
}

/// The first error among the fields of the constructors from `index` on.
pub open spec fn constructors_error_from(types: Seq<TypeDeclView>, decl: TypeDeclView, index: int) -> Option<
    ErrorView,
>
    decreases decl.constructors.len() - index,
{
    if index < 0 || index >= decl.constructors.len() {
        None
    } else {
        match fields_error_from(types, decl, decl.constructors[index].fields, 0) {
            Some(e) => Some(e),
            None => constructors_error_from(types, decl, index + 1),
        }
    }
}

/// The first error among the field types of the declarations from `index` on.
pub open spec fn declarations_error_from(types: Seq<TypeDeclView>, index: int) -> Option<ErrorView>
    decreases types.len() - index,
{
    if index < 0 || index >= types.len() {
        None
    } else {
        match constructors_error_from(types, types[index], 0) {
            Some(e) => Some(e),
            None => declarations_error_from(types, index + 1),
        }
    }
}

/// The first error of a list of declarations: repeated names first, then the
/// field types.
pub open spec fn build_error(types: Seq<TypeDeclView>) -> Option<ErrorView> {
    match names_error_from(types, 0) {
        Some(e) => Some(e),
        None => declarations_error_from(types, 0),
    }
}

/// The declarations of a program, checked.
pub struct Model<'a> {
    types: &'a Vec<TypeDecl>,
}

/// The views of declarations.
pub open spec fn decls_view(types: Seq<TypeDecl>) -> Seq<TypeDeclView> {
    types.map_values(|t: TypeDecl| t.view())
}

/// The views of bindings.
pub open spec fn bindings_view(bindings: Seq<(String, RuntimeType)>) -> Seq<(Seq<char>, RuntimeTypeView)> {
    bindings.map_values(|b: (String, RuntimeType)| (b.0@, runtime_type_view(b.1)))
}

impl<'a> Model<'a> {
    /// The declarations of the model.
    pub closed spec fn decls(&self) -> Seq<TypeDeclView> {
        decls_view(self.types@)
    }

    /// Checks the declarations of a program.
    pub fn build(program: &'a Program) -> (model: Result<Self, DslError>)
        ensures
            match model {
                Ok(m) => m.decls() == program.view().types && build_error(program.view().types) is None,
                Err(e) => build_error(program.view().types) == Some(e.view()),
            },
    {
        let model = Model { types: &program.types };
        proof {
            assert(model.decls() =~= program.view().types);
        }
        match model.check_names() {
            Ok(()) => {},
            Err(e) => return Err(e),
        }
        match model.check_declarations() {
            Ok(()) => {},
            Err(e) => return Err(e),
        }
        Ok(model)
    }

    /// The position of the declaration with the given name.
    pub fn type_decl_index(&self, name: &String) -> (index: Option<usize>)
        ensures
            match index {
                Some(i) => type_index(self.decls(), name@) == Some(i as int),
                None => type_index(self.decls(), name@) is None,
            },
    {
        let ghost decls = self.decls();
        let mut i: usize = 0;
        while i < self.types.len()
            invariant
                i <= self.types@.len(),
                decls == self.decls(),
                decls.len() == self.types@.len(),
                type_index_from(decls, name@, 0) == type_index_from(decls, name@, i as int),
            decreases self.types@.len() - i,
        {
            proof {
                assert(decls[i as int] == self.types@[i as int].view());
            }
            if self.types[i].name == *name {
                return Some(i);
            }
            i = i + 1;
        }
        None
    }

    /// The number of declarations.
    pub fn type_count(&self) -> (count: usize)
        ensures
            count == self.decls().len(),
    {
        self.types.len()
    }

    /// The declaration at position `index`.
    pub fn type_decl_at(&self, index: usize) -> (decl: &'a TypeDecl)
        requires
            index < self.decls().len(),
        ensures
            decl.view() == self.decls()[index as int],
    {
        &self.types[index]
    }

    #[verifier::loop_isolation(false)]
    fn check_duplicate_constructors(decl: &TypeDecl) -> (checked: Result<(), DslError>)
        ensures
            match checked {
                Ok(()) => duplicate_constructor_from(decl.view(), 0) is None,
                Err(e) => duplicate_constructor_from(decl.view(), 0) == Some(e.view()),
            },
    {
        let ghost view = decl.view();
        let mut k: usize = 0;
        while k < decl.constructors.len()
            invariant
                view == decl.view(),
                k <= decl.constructors@.len(),
                view.constructors.len() == decl.constructors@.len(),
                duplicate_constructor_from(view, 0) == duplicate_constructor_from(view, k as int),
            decreases decl.constructors@.len() - k,
        {
            let mut j: usize = 0;
            while j < k
                invariant
                    view == decl.view(),
                    j <= k < decl.constructors@.len(),
                    view.constructors.len() == decl.constructors@.len(),
                    forall|m: int| 0 <= m < j ==> view.constructors[m].name != view.constructors[k as int].name,
                decreases k - j,
            {
                proof {
                    assert(view.constructors[j as int] == decl.constructors@[j as int].view());
                    assert(view.constructors[k as int] == decl.constructors@[k as int].view());
                }
                if decl.constructors[j].name == decl.constructors[k].name {
                    let constructor = &decl.constructors[k];
                    let message = String::from_str("Duplicate constructor `").concat(constructor.name.as_str()).concat(
                        "` in type `",
                    ).concat(decl.name.as_str()).concat("`");
                    return Err(DslError::at(message, constructor.span));
                }
                j = j + 1;
            }
            k = k + 1;
        }
        Ok(())
    }

    #[verifier::loop_isolation(false)]
    fn check_names(&self) -> (checked: Result<(), DslError>)
        ensures
            match checked {
                Ok(()) => names_error_from(self.decls(), 0) is None,
                Err(e) => names_error_from(self.decls(), 0) == Some(e.view()),
            },
    {
        let ghost decls = self.decls();
        let mut i: usize = 0;
        while i < self.types.len()
            invariant
                i <= self.types@.len(),
                decls == self.decls(),
                decls.len() == self.types@.len(),
                names_error_from(decls, 0) == names_error_from(decls, i as int),
            decreases self.types@.len() - i,
        {
            let decl = &self.types[i];
            proof {
                assert(decls[i as int] == decl.view());
            }
            let mut j: usize = 0;
            while j < i
                invariant
                    decls == self.decls(),
                    j <= i < self.types@.len(),
                    decls.len() == self.types@.len(),
                    decls[i as int] == decl.view(),
                    forall|m: int| 0 <= m < j ==> decls[m].name != decls[i as int].name,
                decreases i - j,
            {
                proof {
                    assert(decls[j as int] == self.types@[j as int].view());
                }
                if self.types[j].name == decl.name {
                    return Err(DslError::at(quote("Duplicate type `", decl.name.as_str(), "`"), decl.span));
                }
                j = j + 1;
            }
            match Self::check_duplicate_constructors(decl) {
                Ok(()) => {},
                Err(e) => return Err(e),
            }
            i = i + 1;
        }
        Ok(())
    }

    /// Checks a type expression written in a declaration with parameters `params`.
    #[verifier::loop_isolation(false)]
    pub fn validate_type_expr(&self, expr: &TypeExpr, params: &Vec<String>) -> (checked: Result<(), DslError>)
        ensures
            match checked {
                Ok(()) => validate_error(self.decls(), type_expr_view(*expr), strings_view(params@)) is None,
                Err(e) => validate_error(self.decls(), type_expr_view(*expr), strings_view(params@)) == Some(e.view()),
            },
        decreases expr,
    {
        let TypeExpr::Named(name, args, span) = expr;
        if contains_name(params, name) {
            if args.len() > 0 {
                return Err(DslError::at(quote("Type parameter `", name.as_str(), "` cannot have arguments"), *span));
            }
            return Ok(());
        }
        let index = match self.type_decl_index(name) {
            Some(index) => index,
            None => return Err(DslError::at(quote("Unknown type `", name.as_str(), "`"), *span)),
        };
        proof {
            lemma_type_index_from(self.decls(), name@, 0);
            lemma_type_exprs_view(args@);
        }
        let decl = self.type_decl_at(index);
        if decl.params.len() != args.len() {
            return Err(DslError::at(arity_message_string(name, decl.params.len(), args.len()), *span));
        }
        let ghost views = type_exprs_view(args@);
        let ghost ps = strings_view(params@);
        let mut i: usize = 0;
        while i < args.len()
            invariant
                i <= args@.len(),
                expr->1 == *args,
                views == type_exprs_view(args@),
                views.len() == args@.len(),
                forall|j: int| 0 <= j < args@.len() ==> #[trigger] views[j] == type_expr_view(args@[j]),
                ps == strings_view(params@),
                validate_list_error(self.decls(), views.subrange(0, i as int), ps) is None,
            decreases args@.len() - i,
        {
            proof {
                assert(views.subrange(0, i + 1).subrange(0, i as int) =~= views.subrange(0, i as int));
            }
            match self.validate_type_expr(&args[i], params) {
                Ok(()) => {},
                Err(e) => {
                    proof {
                        lemma_validate_list_prefix(self.decls(), views, i as int, ps);
                    }
                    return Err(e);
                },
            }
            i = i + 1;
        }
        proof {
            assert(views.subrange(0, views.len() as int) =~= views);
        }
        Ok(())
    }

    #[verifier::loop_isolation(false)]
    fn check_fields(&self, decl: &TypeDecl, constructor: &ConstructorDecl) -> (checked: Result<(), DslError>)
        ensures
            match checked {
                Ok(()) => fields_error_from(self.decls(), decl.view(), constructor.view().fields, 0) is None,
                Err(e) => fields_error_from(self.decls(), decl.view(), constructor.view().fields, 0) == Some(e.view()),
            },
    {
        let ghost fields = constructor.view().fields;
        proof {
            lemma_type_exprs_view(constructor.fields@);
        }
        let mut m: usize = 0;
        while m < constructor.fields.len()
            invariant
                m <= constructor.fields@.len(),
                fields == constructor.view().fields,
                fields.len() == constructor.fields@.len(),
                forall|j: int| 0 <= j < fields.len() ==> #[trigger] fields[j] == type_expr_view(constructor.fields@[j]),
                fields_error_from(self.decls(), decl.view(), fields, 0) == fields_error_from(self.decls(), decl.view(), fields, m as int),
            decreases constructor.fields@.len() - m,
        {
            let field = &constructor.fields[m];
            match self.validate_type_expr(field, &decl.params) {
                Ok(()) => {},
                Err(e) => return Err(e),
            }
            if field.references_type(&decl.name) {
                return Err(DslError::at(quote("Recursive type `", decl.name.as_str(), "` is not supported"), field.span()));
            }
            m = m + 1;
        }
        Ok(())
    }

    #[verifier::loop_isolation(false)]
    fn check_declarations(&self) -> (checked: Result<(), DslError>)
        ensures
            match checked {
                Ok(()) => declarations_error_from(self.decls(), 0) is None,
                Err(e) => declarations_error_from(self.decls(), 0) == Some(e.view()),
            },
    {
        let ghost decls = self.decls();
        let mut i: usize = 0;
        while i < self.types.len()
            invariant
                i <= self.types@.len(),
                decls == self.decls(),
                decls.len() == self.types@.len(),
                declarations_error_from(decls, 0) == declarations_error_from(decls, i as int),
            decreases self.types@.len() - i,
        {
            let decl = &self.types[i];
            proof {
                assert(decls[i as int] == decl.view());
            }
            let mut k: usize = 0;
            while k < decl.constructors.len()
                invariant
                    decls == self.decls(),
                    i < self.types@.len(),
                    decls.len() == self.types@.len(),
                    decls[i as int] == decl.view(),
                    k <= decl.constructors@.len(),
                    decl.view().constructors.len() == decl.constructors@.len(),
                    constructors_error_from(decls, decl.view(), 0) == constructors_error_from(decls, decl.view(), k as int),
                decreases decl.constructors@.len() - k,
            {
                proof {
                    assert(decl.view().constructors[k as int] == decl.constructors@[k as int].view());
                }
                match self.check_fields(decl, &decl.constructors[k]) {
                    Ok(()) => {},
                    Err(e) => return Err(e),
                }
                k = k + 1;
            }
            i = i + 1;
        }
        Ok(())
    }

    /// The runtime type that a type expression denotes under `bindings`.
    #[verifier::loop_isolation(false)]
    pub fn resolve_type(&self, expr: &TypeExpr, bindings: &Vec<(String, RuntimeType)>) -> (resolved: Result<
        RuntimeType,
        DslError,
    >)
        ensures
            match (resolved, resolve_type(self.decls(), type_expr_view(*expr), bindings_view(bindings@))) {
                (Ok(t), Ok(v)) => runtime_type_view(t) == v,
                (Err(e), Err(v)) => e.view() == v,
                _ => false,
            },
        decreases expr,
    {
        let TypeExpr::Named(name, args, span) = expr;
        match lookup_binding_exec(bindings, name) {
            Some(bound) => {
                if args.len() > 0 {
                    return Err(DslError::at(quote("Type parameter `", name.as_str(), "` cannot have arguments"), *span));
                }
                return Ok(copy_runtime_type(bound));
            },
            None => {},
        }
        let index = match self.type_decl_index(name) {
            Some(index) => index,
            None => return Err(DslError::at(quote("Unknown type `", name.as_str(), "`"), *span)),
        };
        proof {
            lemma_type_index_from(self.decls(), name@, 0);
            lemma_type_exprs_view(args@);
        }
        let decl = self.type_decl_at(index);
        if decl.params.len() != args.len() {
            return Err(DslError::at(arity_message_string(name, decl.params.len(), args.len()), *span));
        }
        let ghost views = type_exprs_view(args@);
        let ghost bs = bindings_view(bindings@);
        let mut resolved: Vec<RuntimeType> = Vec::new();
        let mut i: usize = 0;
        proof {
            assert(views.subrange(0, 0) =~= Seq::<TypeExprView>::empty());
            assert(runtime_types_view(resolved@) =~= Seq::<RuntimeTypeView>::empty());
        }
        while i < args.len()
            invariant
                i <= args@.len(),
                expr->1 == *args,
                views == type_exprs_view(args@),
                views.len() == args@.len(),
                forall|j: int| 0 <= j < args@.len() ==> #[trigger] views[j] == type_expr_view(args@[j]),
                bs == bindings_view(bindings@),
                resolve_list(self.decls(), views.subrange(0, i as int), bs) == Ok::<_, ErrorView>(runtime_types_view(resolved@)),
            decreases args@.len() - i,
        {
            proof {
                assert(views.subrange(0, i + 1).subrange(0, i as int) =~= views.subrange(0, i as int));
            }
            let t = match self.resolve_type(&args[i], bindings) {
                Ok(t) => t,
                Err(e) => {
                    proof {
                        lemma_resolve_list_prefix(self.decls(), views, i as int, bs);
                    }
                    return Err(e);
                },
            };
            proof {
                lemma_runtime_types_view_push(resolved@, t);
            }
            resolved.push(t);
            i = i + 1;
        }
        proof {
            assert(views.subrange(0, views.len() as int) =~= views);
        }
        Ok(RuntimeType::Adt { name: name.clone(), args: resolved })
    }
}

proof fn lemma_validate_list_prefix(types: Seq<TypeDeclView>, exprs: Seq<TypeExprView>, i: int, params: Seq<Seq<char>>)
    requires
        0 <= i < exprs.len(),
        validate_list_error(types, exprs.subrange(0, i), params) is None,
        validate_error(types, exprs[i], params) is Some,
    ensures
        validate_list_error(types, exprs, params) == validate_error(types, exprs[i], params),
    decreases exprs.len(),
{
    if i == exprs.len() - 1 {
        assert(exprs.subrange(0, exprs.len() - 1) =~= exprs.subrange(0, i));
    } else {
        let front = exprs.subrange(0, exprs.len() - 1);
        assert(front.subrange(0, i) =~= exprs.subrange(0, i));
        assert(front[i] == exprs[i]);
        lemma_validate_list_prefix(types, front, i, params);
    }
}

proof fn lemma_resolve_list_prefix(
    types: Seq<TypeDeclView>,
    exprs: Seq<TypeExprView>,
    i: int,
    bindings: Seq<(Seq<char>, RuntimeTypeView)>,
)
    requires
        0 <= i < exprs.len(),
        resolve_list(types, exprs.subrange(0, i), bindings) is Ok,
        resolve_type(types, exprs[i], bindings) is Err,
    ensures
        resolve_list(types, exprs, bindings) == Err::<Seq<RuntimeTypeView>, ErrorView>(resolve_type(types, exprs[i], bindings)->Err_0),
    decreases exprs.len(),
{
    if i == exprs.len() - 1 {
        assert(exprs.subrange(0, exprs.len() - 1) =~= exprs.subrange(0, i));
    } else {
        let front = exprs.subrange(0, exprs.len() - 1);
        assert(front.subrange(0, i) =~= exprs.subrange(0, i));
        assert(front[i] == exprs[i]);
        lemma_resolve_list_prefix(types, front, i, bindings);
    }
}

/// Whether `name` is one of `names`.
fn contains_name(names: &Vec<String>, name: &String) -> (found: bool)
    ensures
        found == strings_view(names@).contains(name@),
{
    let mut i: usize = 0;
    while i < names.len()
        invariant
            i <= names@.len(),
            forall|j: int| 0 <= j < i ==> names@[j]@ != name@,
        decreases names@.len() - i,
    {
        if names[i] == *name {
            proof {
                assert(strings_view(names@)[i as int] == name@);
            }
            return true;
        }
        i = i + 1;
    }
    proof {
        if strings_view(names@).contains(name@) {
            let j = choose|j: int| 0 <= j < strings_view(names@).len() && strings_view(names@)[j] == name@;
            assert(names@[j]@ == name@);
        }
    }
    false
}

/// The type bound to `name`: the last binding of that name.
fn lookup_binding_exec<'b>(bindings: &'b Vec<(String, RuntimeType)>, name: &String) -> (bound: Option<&'b RuntimeType>)
    ensures
        match bound {
            Some(t) => lookup_binding(bindings_view(bindings@), name@) == Some(runtime_type_view(*t)),
            None => lookup_binding(bindings_view(bindings@), name@) is None,
        },
{
    let ghost bs = bindings_view(bindings@);
    let mut i: usize = bindings.len();
    proof {
        assert(bs.subrange(0, i as int) =~= bs);
    }
    while i > 0
        invariant
            i <= bindings@.len(),
            bs == bindings_view(bindings@),
            lookup_binding(bs, name@) == lookup_binding(bs.subrange(0, i as int), name@),
        decreases i,
    {
        let ghost prefix = bs.subrange(0, i as int);
        proof {
            assert(prefix.subrange(0, i - 1) =~= bs.subrange(0, i - 1));
            assert(prefix[i - 1] == bs[i - 1]);
        }
        if bindings[i - 1].0 == *name {
            return Some(&bindings[i - 1].1);
        }
        i = i - 1;
    }
    None
}

} // verus!
