//! Completion of relationship names in the string arguments of Eloquent's methods.
use vstd::prelude::*;
use vstd::string::*;
use vstd::utf8::*;

use crate::eloquent;
use crate::eloquent::{
    extends_eloquent_builder, extends_eloquent_model, find_class, ClassEntry, ClassInfo, MethodInfo,
    ParameterInfo, PhpType, Visibility,
};
use crate::search;
use crate::text;

verus! {

/// What an expression may be: its type and, if the type is that of a class, the class.
#[derive(Debug)]
pub struct ResolvedType {
    pub type_string: PhpType,
    pub class_info: Option<ClassInfo>,
}

/// What a relationship method is called on.
#[derive(Debug, Clone, PartialEq, Eq)]
pub enum Receiver {
    CurrentClass,
    ParentClass,
    Expression(String),
}

/// A proposal to complete a relationship's name.
#[derive(Debug, Clone, PartialEq, Eq)]
pub struct RelationItem {
    pub label: String,
    pub detail: String,
    pub insert_text: String,
    pub filter_text: String,
}

/// A proposal with its texts as characters.
pub struct RelationProposal {
    pub label: Seq<char>,
    pub detail: Seq<char>,
    pub insert_text: Seq<char>,
    pub filter_text: Seq<char>,
}

impl View for RelationItem {
    type V = RelationProposal;

    open spec fn view(&self) -> RelationProposal {
        RelationProposal {
            label: self.label@,
            detail: self.detail@,
            insert_text: self.insert_text@,
            filter_text: self.filter_text@,
        }
    }
}

/// The views of a list of proposals.
pub open spec fn proposals(v: Seq<RelationItem>) -> Seq<RelationProposal> {
    v.map_values(|i: RelationItem| i@)
}

/// The first place at which `sub` stands in `s`, if it does.
pub open spec fn first_place(s: Seq<char>, sub: Seq<char>) -> int {
    choose|i: int| search::occurs_first_at(s, sub, i)
}

/// The last place at which `sub` stands in `s`, if it does.
pub open spec fn last_place(s: Seq<char>, sub: Seq<char>) -> int {
    choose|i: int| search::occurs_last_at(s, sub, i)
}

/// The method or function that a call expression names: what stands behind the last arrow, or else
/// behind the last double colon. Nothing where an object is created.
pub open spec fn called_method(call: Seq<char>) -> Option<Seq<char>> {
    if search::occurs(call, "->"@) {
        Some(call.skip(last_place(call, "->"@) + 2))
    } else if search::occurs(call, "::"@) {
        Some(call.skip(last_place(call, "::"@) + 2))
    } else if "new "@.is_prefix_of(call) {
        None
    } else {
        Some(call)
    }
}

/// What a call expression calls the method on: what stands before the first arrow, or else before the
/// first double colon.
pub open spec fn call_receiver(call: Seq<char>) -> Option<Seq<char>> {
    if search::occurs(call, "->"@) {
        Some(call.take(first_place(call, "->"@)))
    } else if search::occurs(call, "::"@) {
        Some(call.take(first_place(call, "::"@)))
    } else {
        None
    }
}

/// There is only one first place and only one last place.
pub proof fn lemma_places(s: Seq<char>, sub: Seq<char>, i: int)
    ensures
        search::occurs_first_at(s, sub, i) ==> first_place(s, sub) == i,
        search::occurs_last_at(s, sub, i) ==> last_place(s, sub) == i,
{
    if search::occurs_first_at(s, sub, i) {
        let j = first_place(s, sub);
        assert(search::occurs_first_at(s, sub, j));
        assert(search::occurs_at(s, sub, i) && search::occurs_at(s, sub, j));
    }
    if search::occurs_last_at(s, sub, i) {
        let j = last_place(s, sub);
        assert(search::occurs_last_at(s, sub, j));
        assert(search::occurs_at(s, sub, i) && search::occurs_at(s, sub, j));
    }
}

/// Whether an executable piece of text is the given one.
pub open spec fn is_str(r: Option<&str>, s: Option<Seq<char>>) -> bool {
    match r {
        Some(t) => s == Some(t@),
        None => s is None,
    }
}

/// The method or function that a call expression names.
pub fn extract_method_name(call_expr: &str) -> (r: Option<&str>)
    ensures
        is_str(r, called_method(call_expr@)),
{
    let ghost s = call_expr@;
    let count = call_expr.unicode_len();
    proof {
        reveal_strlit("->");
        reveal_strlit("::");
    }
    if let Some(i) = search::rfind_text(call_expr, "->") {
        proof {
            lemma_places(s, "->"@, i as int);
            assert(s.subrange(i + 2, count as int) =~= s.skip(i + 2));
        }
        return Some(call_expr.substring_char(i + 2, count));
    }
    if let Some(i) = search::rfind_text(call_expr, "::") {
        proof {
            lemma_places(s, "::"@, i as int);
            assert(s.subrange(i + 2, count as int) =~= s.skip(i + 2));
        }
        return Some(call_expr.substring_char(i + 2, count));
    }
    if search::starts_with(call_expr, "new ") {
        return None;
    }
    Some(call_expr)
}

/// What a call expression calls the method on.
pub fn extract_receiver(call_expr: &str) -> (r: Option<&str>)
    ensures
        is_str(r, call_receiver(call_expr@)),
{
    let ghost s = call_expr@;
    if let Some(i) = search::find_text(call_expr, "->") {
        proof {
            lemma_places(s, "->"@, i as int);
            assert(s.subrange(0, i as int) =~= s.take(i as int));
        }
        return Some(call_expr.substring_char(0, i));
    }
    if let Some(i) = search::find_text(call_expr, "::") {
        proof {
            lemma_places(s, "::"@, i as int);
            assert(s.subrange(0, i as int) =~= s.take(i as int));
        }
        return Some(call_expr.substring_char(0, i));
    }
    None
}

/// Whether a type is written as nothing.
pub open spec fn is_blank(ty: PhpType) -> bool {
    match ty {
        PhpType::Named(name) => name@.len() == 0,
        PhpType::Generic(_, _) => false,
        PhpType::Other(written) => written@.len() == 0,
    }
}

/// The class that a type names, with or without type arguments.
pub open spec fn named_class(ty: PhpType) -> Option<Seq<char>> {
    match ty {
        PhpType::Named(name) => Some(name@),
        PhpType::Generic(base, _) => Some(base@),
        PhpType::Other(_) => None,
    }
}

/// Whether a type argument stands for a model: it is there, and is not the placeholder `TModel`.
pub open spec fn is_model_argument(ty: PhpType) -> bool {
    !is_blank(ty) && !(ty matches PhpType::Named(name) && name@ == "TModel"@)
}

/// The class, by the name that a type gives, if it is a model.
pub open spec fn model_named(ty: PhpType, table: Seq<ClassEntry>) -> Option<ClassInfo> {
    match named_class(ty) {
        Some(name) => match eloquent::class_named(table, name) {
            Some(c) => if eloquent::is_or_descends_from(c, table, eloquent::model_fqn()) {
                Some(c)
            } else {
                None
            },
            None => None,
        },
        None => None,
    }
}

/// Whether a class is taken for a builder.
pub open spec fn is_builder(c: ClassInfo, table: Seq<ClassEntry>) -> bool {
    c.name@ == "Builder"@ || eloquent::is_or_descends_from(c, table, eloquent::builder_fqn())
}

/// The model of a type such as `Builder<User>`.
pub open spec fn builder_type_model(ty: PhpType, table: Seq<ClassEntry>) -> Option<ClassInfo> {
    match ty {
        PhpType::Generic(base, args) => if args@.len() > 0 && is_model_argument(args@[0]) {
            match eloquent::class_named(table, base@) {
                Some(c) => if is_builder(c, table) {
                    model_named(args@[0], table)
                } else {
                    None
                },
                None => None,
            }
        } else {
            None
        },
        _ => None,
    }
}

/// The model that a method's return type, such as `Builder<User>`, names.
pub open spec fn returned_model(m: MethodInfo) -> Option<PhpType> {
    match m.return_type {
        Some(ret) => match ret.ty {
            PhpType::Generic(base, args) => if args@.len() > 0 && (base@ == eloquent::builder_fqn()
                || base@ == "Builder"@) && is_model_argument(args@[0]) {
                Some(args@[0])
            } else {
                None
            },
            _ => None,
        },
        None => None,
    }
}

/// The model that the first of the methods to name one names.
pub open spec fn methods_model(ms: Seq<MethodInfo>) -> Option<PhpType>
    decreases ms.len(),
{
    if ms.len() == 0 {
        None
    } else {
        match returned_model(ms[0]) {
            Some(ty) => Some(ty),
            None => methods_model(ms.drop_first()),
        }
    }
}

/// The model behind a type: the class itself if it is a model, or the model of a builder.
pub open spec fn model_of(rt: ResolvedType, table: Seq<ClassEntry>) -> Option<ClassInfo> {
    match rt.class_info {
        Some(c) => if eloquent::is_or_descends_from(c, table, eloquent::model_fqn()) {
            Some(c)
        } else {
            match builder_type_model(rt.type_string, table) {
                Some(m) => Some(m),
                None => if is_builder(c, table) {
                    match methods_model(c.methods@) {
                        Some(ty) => model_named(ty, table),
                        None => None,
                    }
                } else {
                    None
                },
            }
        },
        None => None,
    }
}

/// The model behind the first of the types that has one.
pub open spec fn first_model(types: Seq<ResolvedType>, table: Seq<ClassEntry>) -> Option<ClassInfo>
    decreases types.len(),
{
    if types.len() == 0 {
        None
    } else {
        match model_of(types[0], table) {
            Some(c) => Some(c),
            None => first_model(types.drop_first(), table),
        }
    }
}

/// Whether a class is the given one.
pub open spec fn is_class(r: Option<&ClassInfo>, c: Option<ClassInfo>) -> bool {
    match r {
        Some(found) => c == Some(*found),
        None => c is None,
    }
}

/// Whether a type is the given one.
pub open spec fn is_type(r: Option<&PhpType>, t: Option<PhpType>) -> bool {
    match r {
        Some(found) => t == Some(*found),
        None => t is None,
    }
}

impl PhpType {
    /// Whether a type is written as nothing.
    pub fn is_empty(&self) -> (r: bool)
        ensures
            r == is_blank(*self),
    {
        match self {
            PhpType::Named(name) => name.as_str().unicode_len() == 0,
            PhpType::Generic(_, _) => false,
            PhpType::Other(written) => written.as_str().unicode_len() == 0,
        }
    }

    /// Whether a type is the given name, without type arguments.
    pub fn is_named(&self, name: &str) -> (r: bool)
        ensures
            r == (*self matches PhpType::Named(n) && n@ == name@),
    {
        match self {
            PhpType::Named(n) => text::str_eq(n.as_str(), name),
            _ => false,
        }
    }

    /// The class that a type names, with or without type arguments.
    pub fn base_name(&self) -> (r: Option<&str>)
        ensures
            is_str(r, named_class(*self)),
    {
        match self {
            PhpType::Named(name) => Some(name.as_str()),
            PhpType::Generic(base, _) => Some(base.as_str()),
            PhpType::Other(_) => None,
        }
    }
}

/// The class, by the name that a type gives, if it is a model.
fn find_model_named<'a>(ty: &PhpType, table: &'a Vec<ClassEntry>) -> (r: Option<&'a ClassInfo>)
    ensures
        is_class(r, model_named(*ty, table@)),
{
    match ty.base_name() {
        Some(name) => match find_class(table, name) {
            Some(c) => if extends_eloquent_model(c, table) {
                Some(c)
            } else {
                None
            },
            None => None,
        },
        None => None,
    }
}

/// Whether a class is taken for a builder.
fn check_builder(c: &ClassInfo, table: &Vec<ClassEntry>) -> (r: bool)
    ensures
        r == is_builder(*c, table@),
{
    text::str_eq(c.name.as_str(), "Builder") || extends_eloquent_builder(c, table)
}

/// The model of a type such as `Builder<User>`.
pub fn extract_model_from_builder_type<'a>(ty: &PhpType, table: &'a Vec<ClassEntry>) -> (r: Option<
    &'a ClassInfo,
>)
    ensures
        is_class(r, builder_type_model(*ty, table@)),
{
    match ty {
        PhpType::Generic(base, args) => {
            if args.len() == 0 || args[0].is_empty() || args[0].is_named("TModel") {
                return None;
            }
            match find_class(table, base.as_str()) {
                Some(c) => if check_builder(c, table) {
                    find_model_named(&args[0], table)
                } else {
                    None
                },
                None => None,
            }
        },
        _ => None,
    }
}

/// The model that a builder's methods name in their return types.
pub fn extract_model_from_builder<'a>(builder: &'a ClassInfo) -> (r: Option<&'a PhpType>)
    ensures
        is_type(r, methods_model(builder.methods@)),
{
    let ghost ms = builder.methods@;
    let mut k: usize = 0;
    assert(ms.skip(0) =~= ms);
    while k < builder.methods.len()
        invariant
            k <= builder.methods@.len(),
            ms == builder.methods@,
            methods_model(ms.skip(k as int)) == methods_model(ms),
        decreases builder.methods@.len() - k,
    {
        assert(ms.skip(k as int)[0] == ms[k as int]);
        assert(ms.skip(k as int).drop_first() =~= ms.skip(k + 1));
        if let Some(ret) = &builder.methods[k].return_type {
            if let PhpType::Generic(base, args) = &ret.ty {
                if args.len() > 0 && (text::str_eq(
                    base.as_str(),
                    "Illuminate\\Database\\Eloquent\\Builder",
                ) || text::str_eq(base.as_str(), "Builder")) && !args[0].is_empty()
                    && !args[0].is_named("TModel") {
                    return Some(&args[0]);
                }
            }
        }
        k += 1;
    }
    assert(ms.skip(k as int).len() == 0);
    None
}

/// The model behind the first of the types that has one.
pub fn find_model_from_resolved_types<'a>(
    types: &'a Vec<ResolvedType>,
    table: &'a Vec<ClassEntry>,
) -> (r: Option<&'a ClassInfo>)
    ensures
        is_class(r, first_model(types@, table@)),
{
    let ghost ts = types@;
    let mut k: usize = 0;
    assert(ts.skip(0) =~= ts);
    while k < types.len()
        invariant
            k <= types@.len(),
            ts == types@,
            first_model(ts.skip(k as int), table@) == first_model(ts, table@),
        decreases types@.len() - k,
    {
        assert(ts.skip(k as int)[0] == ts[k as int]);
        assert(ts.skip(k as int).drop_first() =~= ts.skip(k + 1));
        if let Some(c) = &types[k].class_info {
            if extends_eloquent_model(c, table) {
                return Some(c);
            }
            if let Some(m) = extract_model_from_builder_type(&types[k].type_string, table) {
                return Some(m);
            }
            if check_builder(c, table) {
                if let Some(ty) = extract_model_from_builder(c) {
                    if let Some(m) = find_model_named(ty, table) {
                        return Some(m);
                    }
                }
            }
        }
        k += 1;
    }
    assert(ts.skip(k as int).len() == 0);
    None
}

/// Whether a method of Eloquent makes a relationship, and is none itself.
pub open spec fn is_factory(name: Seq<char>) -> bool {
    ||| name == "hasOne"@
    ||| name == "hasMany"@
    ||| name == "belongsTo"@
    ||| name == "belongsToMany"@
    ||| name == "morphOne"@
    ||| name == "morphMany"@
    ||| name == "morphTo"@
    ||| name == "morphToMany"@
    ||| name == "morphedByMany"@
    ||| name == "hasManyThrough"@
    ||| name == "hasOneThrough"@
    ||| name == "newHasOne"@
    ||| name == "newHasMany"@
    ||| name == "newBelongsTo"@
    ||| name == "newBelongsToMany"@
    ||| name == "newMorphOne"@
    ||| name == "newMorphMany"@
    ||| name == "newMorphTo"@
    ||| name == "newMorphToMany"@
    ||| name == "newMorphedByMany"@
    ||| name == "newHasManyThrough"@
    ||| name == "newHasOneThrough"@
}

/// Whether a method of Eloquent makes a relationship, and is none itself.
pub fn is_eloquent_relationship_factory_method(name: &str) -> (r: bool)
    ensures
        r == is_factory(name@),
{
    text::str_eq(name, "hasOne")
        || text::str_eq(name, "hasMany")
        || text::str_eq(name, "belongsTo")
        || text::str_eq(name, "belongsToMany")
        || text::str_eq(name, "morphOne")
        || text::str_eq(name, "morphMany")
        || text::str_eq(name, "morphTo")
        || text::str_eq(name, "morphToMany")
        || text::str_eq(name, "morphedByMany")
        || text::str_eq(name, "hasManyThrough")
        || text::str_eq(name, "hasOneThrough")
        || text::str_eq(name, "newHasOne")
        || text::str_eq(name, "newHasMany")
        || text::str_eq(name, "newBelongsTo")
        || text::str_eq(name, "newBelongsToMany")
        || text::str_eq(name, "newMorphOne")
        || text::str_eq(name, "newMorphMany")
        || text::str_eq(name, "newMorphTo")
        || text::str_eq(name, "newMorphToMany")
        || text::str_eq(name, "newMorphedByMany")
        || text::str_eq(name, "newHasManyThrough")
        || text::str_eq(name, "newHasOneThrough")
}

/// Whether a method can be named in a string as a relationship: it is public, needs no argument, and
/// makes no relationships itself.
pub open spec fn is_usable(m: MethodInfo) -> bool {
    &&& m.visibility == Visibility::Public
    &&& forall|i: int| 0 <= i < m.parameters@.len() ==> !(#[trigger] m.parameters@[i]).is_required
    &&& !is_factory(m.name@)
}

/// Whether one of the parameters has to be given.
fn any_required(parameters: &Vec<ParameterInfo>) -> (r: bool)
    ensures
        r == exists|i: int| 0 <= i < parameters@.len() && (#[trigger] parameters@[i]).is_required,
{
    let mut k: usize = 0;
    while k < parameters.len()
        invariant
            k <= parameters@.len(),
            forall|i: int| 0 <= i < k ==> !(#[trigger] parameters@[i]).is_required,
        decreases parameters@.len() - k,
    {
        if parameters[k].is_required {
            return true;
        }
        k += 1;
    }
    false
}

/// Whether a method can be named in a string as a relationship.
pub fn is_string_usable_relationship_method(method: &MethodInfo) -> (r: bool)
    ensures
        r == is_usable(*method),
{
    method.visibility == Visibility::Public && !any_required(&method.parameters)
        && !is_eloquent_relationship_factory_method(method.name.as_str())
}

/// What `str::to_lowercase` gives for a text.
pub uninterp spec fn lowercase(s: Seq<char>) -> Seq<char>;

/// Calls `str::to_lowercase`.
///
/// Trusted: that the result depends on the text alone. How each character is mapped is not stated.
#[verifier::external_body]
fn to_lowercase(s: &str) -> (r: String)
    ensures
        r@ == lowercase(s@),
{
    s.to_lowercase()
}

/// The proposal for a method, if it is a relationship that can be named in a string and its name in
/// lower case begins with `partial`.
pub open spec fn proposal(m: MethodInfo, lower_name: Seq<char>, partial: Seq<char>) -> Option<
    RelationProposal,
> {
    match m.return_type {
        Some(ret) => if is_usable(m) && partial.is_prefix_of(lower_name) && ret.is_relationship {
            Some(
                RelationProposal {
                    label: m.name@,
                    detail: "Laravel relation: "@ + ret.text@,
                    insert_text: m.name@,
                    filter_text: m.name@,
                },
            )
        } else {
            None
        },
        None => None,
    }
}

/// The proposals for the methods whose names begin with `partial`, whatever the case.
pub open spec fn proposals_for(ms: Seq<MethodInfo>, partial: Seq<char>) -> Seq<RelationProposal>
    decreases ms.len(),
{
    if ms.len() == 0 {
        Seq::empty()
    } else {
        let before = proposals_for(ms.drop_last(), partial);
        match proposal(ms.last(), lowercase(ms.last().name@), lowercase(partial)) {
            Some(p) => before.push(p),
            None => before,
        }
    }
}

/// The proposal for a method, given its name and the text to complete in lower case.
pub fn propose_relation(method: &MethodInfo, lower_name: &str, lower_partial: &str) -> (r: Option<
    RelationItem,
>)
    ensures
        match r {
            Some(item) => proposal(*method, lower_name@, lower_partial@) == Some(item@),
            None => proposal(*method, lower_name@, lower_partial@) is None,
        },
        r matches Some(item) ==> item.label@ == method.name@ && item.insert_text@ == method.name@
            && item.filter_text@ == method.name@,
{
    if !is_string_usable_relationship_method(method) || !search::starts_with(
        lower_name,
        lower_partial,
    ) {
        return None;
    }
    match &method.return_type {
        Some(ret) => {
            if !ret.is_relationship {
                return None;
            }
            let mut detail = "Laravel relation: ".to_owned();
            detail.append(ret.text.as_str());
            Some(
                RelationItem {
                    label: method.name.clone(),
                    detail,
                    insert_text: method.name.clone(),
                    filter_text: method.name.clone(),
                },
            )
        },
        None => None,
    }
}

/// The proposals for a model's methods, those of its parents and traits among them.
pub fn build_relationship_completions(methods: &Vec<MethodInfo>, partial: &str) -> (r: Vec<
    RelationItem,
>)
    ensures
        proposals(r@) == proposals_for(methods@, partial@),
{
    let ghost ms = methods@;
    let lower_partial = to_lowercase(partial);
    let mut items: Vec<RelationItem> = Vec::new();
    let mut k: usize = 0;
    assert(ms.take(0) =~= Seq::empty());
    assert(proposals(items@) =~= Seq::empty());
    while k < methods.len()
        invariant
            k <= methods@.len(),
            ms == methods@,
            lower_partial@ == lowercase(partial@),
            proposals(items@) == proposals_for(ms.take(k as int), partial@),
        decreases methods@.len() - k,
    {
        let ghost held = items@;
        assert(ms.take(k + 1).drop_last() =~= ms.take(k as int));
        assert(ms.take(k + 1).last() == ms[k as int]);
        let lower_name = to_lowercase(methods[k].name.as_str());
        if let Some(item) = propose_relation(
            &methods[k],
            lower_name.as_str(),
            lower_partial.as_str(),
        ) {
            let ghost shown = item@;
            items.push(item);
            assert(proposals(items@) =~= proposals(held).push(shown));
        }
        k += 1;
    }
    assert(ms.take(k as int) =~= ms);
    items
}

/// Whether `c` delimits a string literal.
pub open spec fn is_quote(c: char) -> bool {
    c == '\'' || c == '"'
}

/// How many characters lead up to and with the last quote; none if there is no quote.
pub open spec fn through_last_quote(s: Seq<char>) -> int
    decreases s.len(),
{
    if s.len() == 0 {
        0
    } else if is_quote(s.last()) {
        s.len() as int
    } else {
        through_last_quote(s.drop_last())
    }
}

/// How many characters lead up to and with the last dot; none if there is no dot.
pub open spec fn through_last_dot(s: Seq<char>) -> int
    decreases s.len(),
{
    if s.len() == 0 {
        0
    } else if s.last() == '.' {
        s.len() as int
    } else {
        through_last_dot(s.drop_last())
    }
}

/// A dotted chain of relationships, parted at its last dot: what stands before the dot, and what is
/// still to be completed.
pub open spec fn split_chain(s: Seq<char>) -> (Seq<char>, Seq<char>) {
    let n = through_last_dot(s);
    if n == 0 {
        (Seq::empty(), s)
    } else {
        (s.take(n - 1), s.skip(n))
    }
}

/// The chain of relationships that is being written where the arguments so far are `s`.
pub open spec fn chain_in(s: Seq<char>) -> Option<(Seq<char>, Seq<char>)> {
    let n = through_last_quote(s);
    if n == 0 {
        None
    } else {
        Some(split_chain(s.skip(n)))
    }
}

/// How many characters lead up to and with the last quote.
fn find_last_quote(chars: &Vec<char>) -> (r: usize)
    ensures
        r == through_last_quote(chars@),
        r <= chars@.len(),
{
    let mut i: usize = chars.len();
    assert(chars@.take(i as int) =~= chars@);
    while i > 0
        invariant
            i <= chars@.len(),
            through_last_quote(chars@.take(i as int)) == through_last_quote(chars@),
        decreases i,
    {
        if chars[i - 1] == '\'' || chars[i - 1] == '"' {
            return i;
        }
        assert(chars@.take(i as int).drop_last() =~= chars@.take(i - 1));
        i -= 1;
    }
    0
}

/// How many characters lead up to and with the last dot.
fn find_last_dot(chars: &Vec<char>) -> (r: usize)
    ensures
        r == through_last_dot(chars@),
        r <= chars@.len(),
{
    let mut i: usize = chars.len();
    assert(chars@.take(i as int) =~= chars@);
    while i > 0
        invariant
            i <= chars@.len(),
            through_last_dot(chars@.take(i as int)) == through_last_dot(chars@),
        decreases i,
    {
        if chars[i - 1] == '.' {
            return i;
        }
        assert(chars@.take(i as int).drop_last() =~= chars@.take(i - 1));
        i -= 1;
    }
    0
}

/// The chain of relationships that is being written at `offset`, in arguments that begin at
/// `args_start`: what stands before its last dot, and what is still to be completed.
///
/// `None` where the cursor is not behind a quote.
pub fn get_relationship_prefix(content: &str, offset: u32, args_start: usize) -> (r: Option<
    (String, String),
>)
    requires
        offset > args_start ==> {
            &&& offset <= content.spec_bytes().len()
            &&& is_char_boundary(content.spec_bytes(), args_start as int)
            &&& is_char_boundary(content.spec_bytes(), offset as int)
        },
    ensures
        ({
            let chain = if offset > args_start {
                chain_in(text::between(content.spec_bytes(), args_start as int, offset as int))
            } else {
                None
            };
            match r {
                Some((prefix, partial)) => chain == Some((prefix@, partial@)),
                None => chain is None,
            }
        }),
{
    let end = offset as usize;
    if end <= args_start {
        return None;
    }
    let written = text::slice(content, args_start, end);
    let chars = text::chars_of(written);
    let quote = find_last_quote(&chars);
    if quote == 0 {
        return None;
    }
    let count = chars.len();
    assert(written@.subrange(quote as int, count as int) =~= written@.skip(quote as int));
    let chain = written.substring_char(quote, count);
    let parts = text::chars_of(chain);
    let size = parts.len();
    let dot = find_last_dot(&parts);
    if dot == 0 {
        let empty: String = String::new();
        assert(empty@ =~= Seq::empty());
        return Some((empty, chain.to_owned()));
    }
    assert(chain@.subrange(0, dot - 1) =~= chain@.take(dot - 1));
    assert(chain@.subrange(dot as int, size as int) =~= chain@.skip(dot as int));
    Some((chain.substring_char(0, dot - 1).to_owned(), chain.substring_char(dot, size).to_owned()))
}

/// Whether a receiver is the one that is written as `s`.
pub open spec fn is_receiver(r: Receiver, s: Seq<char>) -> bool {
    if s == "static"@ || s == "self"@ {
        r is CurrentClass
    } else if s == "parent"@ {
        r is ParentClass
    } else {
        r matches Receiver::Expression(e) && e@ == s
    }
}

/// Whether a method's name is in a list, whatever the case.
pub open spec fn is_listed(methods: Seq<String>, name: Seq<char>) -> bool {
    exists|i: int|
        0 <= i < methods.len() && text::same_ignoring_case(
            encode_utf8((#[trigger] methods[i])@),
            encode_utf8(name),
        )
}

/// What a call's relationship method is called on, if the cursor is in the first argument of a call
/// of one of the methods.
pub open spec fn completed_receiver(
    call: Seq<char>,
    commas: Seq<u32>,
    offset: u32,
    methods: Seq<String>,
) -> Option<Seq<char>> {
    if (called_method(call) matches Some(name) && is_listed(methods, name)) && (forall|i: int|
        0 <= i < commas.len() ==> offset <= #[trigger] commas[i]) {
        call_receiver(call)
    } else {
        None
    }
}

/// Whether a method's name is in a list, whatever the case.
fn check_listed(methods: &Vec<String>, name: &str) -> (r: bool)
    ensures
        r == is_listed(methods@, name@),
{
    let mut k: usize = 0;
    while k < methods.len()
        invariant
            k <= methods@.len(),
            forall|i: int|
                0 <= i < k ==> !text::same_ignoring_case(
                    encode_utf8((#[trigger] methods@[i])@),
                    encode_utf8(name@),
                ),
        decreases methods@.len() - k,
    {
        if text::str_eq_ignoring_case(methods[k].as_str(), name) {
            assert(text::same_ignoring_case(
                encode_utf8(methods@[k as int]@),
                encode_utf8(name@),
            ));
            return true;
        }
        k += 1;
    }
    false
}

/// Whether a comma stands before the offset.
fn any_before(commas: &Vec<u32>, offset: u32) -> (r: bool)
    ensures
        r == exists|i: int| 0 <= i < commas@.len() && (#[trigger] commas@[i]) < offset,
{
    let mut k: usize = 0;
    while k < commas.len()
        invariant
            k <= commas@.len(),
            forall|i: int| 0 <= i < k ==> offset <= #[trigger] commas@[i],
        decreases commas@.len() - k,
    {
        if commas[k] < offset {
            return true;
        }
        k += 1;
    }
    false
}

/// What a call's relationship method is called on, if the cursor at `offset` is in the first argument
/// of a call of one of the methods. `comma_offsets` are the commas between the call's arguments.
pub fn relationship_receiver(
    call_expression: &str,
    comma_offsets: &Vec<u32>,
    offset: u32,
    relationship_methods: &Vec<String>,
) -> (r: Option<Receiver>)
    ensures
        match completed_receiver(
            call_expression@,
            comma_offsets@,
            offset,
            relationship_methods@,
        ) {
            Some(s) => r matches Some(receiver) && is_receiver(receiver, s),
            None => r is None,
        },
{
    match extract_method_name(call_expression) {
        Some(name) => {
            if !check_listed(relationship_methods, name) {
                return None;
            }
        },
        None => {
            return None;
        },
    }
    if any_before(comma_offsets, offset) {
        return None;
    }
    match extract_receiver(call_expression) {
        Some(receiver) => if text::str_eq(receiver, "static") || text::str_eq(receiver, "self") {
            Some(Receiver::CurrentClass)
        } else if text::str_eq(receiver, "parent") {
            Some(Receiver::ParentClass)
        } else {
            Some(Receiver::Expression(receiver.to_owned()))
        },
        None => None,
    }
}

/// The proposals for a model's methods, or `None` where there are none.
pub fn relationship_completions(methods: &Vec<MethodInfo>, partial: &str) -> (r: Option<
    Vec<RelationItem>,
>)
    ensures
        match r {
            Some(items) => items@.len() > 0 && proposals(items@) == proposals_for(
                methods@,
                partial@,
            ),
            None => proposals_for(methods@, partial@).len() == 0,
        },
{
    let items = build_relationship_completions(methods, partial);
    assert(proposals(items@).len() == items@.len());
    if items.len() == 0 {
        None
    } else {
        Some(items)
    }
}

/// What remains to be done once the types of the receiver are known: nothing, to propose
/// relationships of a model, or to follow a chain of relationships from a model to the one whose
/// relationships are to be proposed.
#[derive(Debug)]
pub enum CompletionStep<'a> {
    Stop,
    Propose { model: &'a ClassInfo, partial: String },
    Follow { model: &'a ClassInfo, chain: String, partial: String },
}

/// Decides what remains to be done once the types of the receiver are known. The cursor is at
/// `offset`, and the call's arguments begin at `args_start`.
pub fn next_completion_step<'a>(
    types: &'a Vec<ResolvedType>,
    table: &'a Vec<ClassEntry>,
    content: &str,
    offset: u32,
    args_start: usize,
) -> (r: CompletionStep<'a>)
    requires
        offset > args_start ==> {
            &&& offset <= content.spec_bytes().len()
            &&& is_char_boundary(content.spec_bytes(), args_start as int)
            &&& is_char_boundary(content.spec_bytes(), offset as int)
        },
    ensures
        ({
            let chain = if offset > args_start {
                chain_in(text::between(content.spec_bytes(), args_start as int, offset as int))
            } else {
                None
            };
            match (first_model(types@, table@), chain) {
                (Some(c), Some((before, rest))) => if before.len() == 0 {
                    r matches CompletionStep::Propose { model, partial } && *model == c
                        && partial@ == rest
                } else {
                    r matches CompletionStep::Follow { model, chain: followed, partial } && *model
                        == c && followed@ == before && partial@ == rest
                },
                _ => r is Stop,
            }
        }),
{
    let model = match find_model_from_resolved_types(types, table) {
        Some(model) => model,
        None => return CompletionStep::Stop,
    };
    match get_relationship_prefix(content, offset, args_start) {
        Some((chain, partial)) => if chain.as_str().unicode_len() == 0 {
            CompletionStep::Propose { model, partial }
        } else {
            CompletionStep::Follow { model, chain, partial }
        },
        None => CompletionStep::Stop,
    }
}

/// No dot stands behind the last one.
proof fn lemma_last_dot(s: Seq<char>)
    ensures
        ({
            let n = through_last_dot(s);
            &&& 0 <= n <= s.len()
            &&& n > 0 ==> s[n - 1] == '.'
            &&& forall|i: int| n <= i < s.len() ==> #[trigger] s[i] != '.'
        }),
    decreases s.len(),
{
    if s.len() > 0 && s.last() != '.' {
        let init = s.drop_last();
        lemma_last_dot(init);
        let n = through_last_dot(s);
        assert forall|i: int| n <= i < s.len() implies #[trigger] s[i] != '.' by {
            if i < s.len() - 1 {
                assert(init[i] == s[i]);
            }
        }
    }
}

/// No quote stands behind the last one.
proof fn lemma_last_quote(s: Seq<char>)
    ensures
        ({
            let n = through_last_quote(s);
            &&& 0 <= n <= s.len()
            &&& n > 0 ==> is_quote(s[n - 1])
            &&& forall|i: int| n <= i < s.len() ==> !is_quote(#[trigger] s[i])
        }),
    decreases s.len(),
{
    if s.len() > 0 && !is_quote(s.last()) {
        let init = s.drop_last();
        lemma_last_quote(init);
        let n = through_last_quote(s);
        assert forall|i: int| n <= i < s.len() implies !is_quote(#[trigger] s[i]) by {
            if i < s.len() - 1 {
                assert(init[i] == s[i]);
            }
        }
    }
}

/// A chain that is parted at its last dot comes back when the parts are joined with a dot, and what
/// is still to be completed holds no dot.
pub proof fn law_chain_comes_back(s: Seq<char>)
    ensures
        ({
            let (before, rest) = split_chain(s);
            &&& !rest.contains('.')
            &&& s.contains('.') ==> before.push('.') + rest == s
            &&& !s.contains('.') ==> before.len() == 0 && rest == s
        }),
{
    lemma_last_dot(s);
    let n = through_last_dot(s);
    let (before, rest) = split_chain(s);
    assert forall|i: int| 0 <= i < rest.len() implies rest[i] != '.' by {
        assert(rest[i] == s[n + i]);
    }
    if n > 0 {
        assert(before.push('.') + rest =~= s);
        assert(s[n - 1] == '.');
    }
}

/// What is completed stands behind the last quote: the arguments so far are something that ends with
/// a quote, and then the chain, which holds no quote.
pub proof fn law_chain_is_behind_quote(s: Seq<char>)
    ensures
        match chain_in(s) {
            Some(chain) => exists|n: int|
                0 < n <= s.len() && is_quote(s[n - 1]) && chain == split_chain(#[trigger] s.skip(n))
                    && forall|i: int| n <= i < s.len() ==> !is_quote(#[trigger] s[i]),
            None => forall|i: int| 0 <= i < s.len() ==> !is_quote(#[trigger] s[i]),
        },
{
    lemma_last_quote(s);
    let n = through_last_quote(s);
    if n > 0 {
        assert(chain_in(s) == Some(split_chain(s.skip(n))));
    }
}

/// Whether one of the methods gives rise to a proposal.
pub open spec fn is_proposed_by(
    ms: Seq<MethodInfo>,
    partial: Seq<char>,
    p: RelationProposal,
) -> bool {
    exists|i: int|
        0 <= i < ms.len() && proposal(
            #[trigger] ms[i],
            lowercase(ms[i].name@),
            lowercase(partial),
        ) == Some(p)
}

/// Exactly those relationships are proposed that can be named in a string and begin with what is
/// written, whatever the case.
pub proof fn law_proposals_are_complete(
    ms: Seq<MethodInfo>,
    partial: Seq<char>,
    p: RelationProposal,
)
    ensures
        proposals_for(ms, partial).contains(p) <==> is_proposed_by(ms, partial, p),
    decreases ms.len(),
{
    if ms.len() > 0 {
        let init = ms.drop_last();
        let n = ms.len() - 1;
        let before = proposals_for(init, partial);
        law_proposals_are_complete(init, partial, p);
        let found = proposal(ms[n], lowercase(ms[n].name@), lowercase(partial));
        if let Some(q) = found {
            assert(before.push(q) =~= before + seq![q]);
            text::lemma_contains_concat(before, seq![q], p);
            assert(seq![q].contains(p) ==> p == q);
            assert(seq![q][0] == q);
        }
        if is_proposed_by(init, partial, p) {
            let i = choose|i: int|
                0 <= i < init.len() && proposal(
                    #[trigger] init[i],
                    lowercase(init[i].name@),
                    lowercase(partial),
                ) == Some(p);
            assert(ms[i] == init[i]);
        }
        if is_proposed_by(ms, partial, p) {
            let i = choose|i: int|
                0 <= i < ms.len() && proposal(
                    #[trigger] ms[i],
                    lowercase(ms[i].name@),
                    lowercase(partial),
                ) == Some(p);
            if i < n {
                assert(init[i] == ms[i]);
            }
        }
    }
}

/// The method of a call with an arrow is a single name: no arrow is left in it. Nor is there one in
/// what the first of the methods is called on.
pub proof fn law_arrows_are_taken_apart(call: Seq<char>)
    requires
        search::occurs(call, "->"@),
    ensures
        called_method(call) matches Some(m) && !search::occurs(m, "->"@),
        call_receiver(call) matches Some(r) && !search::occurs(r, "->"@),
{
    reveal_strlit("->");
    let arrow = "->"@;
    search::lemma_first_and_last(call, arrow);
    let i = last_place(call, arrow);
    let m = call.skip(i + 2);
    assert(search::occurs_last_at(call, arrow, i));
    if search::occurs(m, arrow) {
        let k = choose|k: int| search::occurs_at(m, arrow, k);
        assert(m.subrange(k, k + 2) =~= call.subrange(i + 2 + k, i + 2 + k + 2));
        assert(search::occurs_at(call, arrow, i + 2 + k));
    }
    let j = first_place(call, arrow);
    let r = call.take(j);
    assert(search::occurs_first_at(call, arrow, j));
    if search::occurs(r, arrow) {
        let k = choose|k: int| search::occurs_at(r, arrow, k);
        assert(r.subrange(k, k + 2) =~= call.subrange(k, k + 2));
        assert(search::occurs_at(call, arrow, k));
    }
}

} // verus!
