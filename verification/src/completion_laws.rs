//! What holds of all proposals, calls and models, told from their parts alone.
use vstd::prelude::*;
use vstd::string::*;
use vstd::utf8::*;

use crate::completion;
use crate::completion::{Receiver, RelationProposal, ResolvedType};
use crate::eloquent;
use crate::eloquent::{ClassEntry, ClassInfo, MethodInfo, PhpType, Visibility};
use crate::php_laws;
use crate::search;
use crate::text;

verus! {

/// The methods of Eloquent that make relationships.
pub open spec fn factory_names() -> Seq<Seq<char>> {
    seq![
        "hasOne"@,
        "hasMany"@,
        "belongsTo"@,
        "belongsToMany"@,
        "morphOne"@,
        "morphMany"@,
        "morphTo"@,
        "morphToMany"@,
        "morphedByMany"@,
        "hasManyThrough"@,
        "hasOneThrough"@,
        "newHasOne"@,
        "newHasMany"@,
        "newBelongsTo"@,
        "newBelongsToMany"@,
        "newMorphOne"@,
        "newMorphMany"@,
        "newMorphTo"@,
        "newMorphToMany"@,
        "newMorphedByMany"@,
        "newHasManyThrough"@,
        "newHasOneThrough"@,
    ]
}

/// A method is taken for one that makes relationships exactly if it has one of their names.
pub proof fn law_factories_are_known_by_name(name: Seq<char>)
    ensures
        completion::is_factory(name) <==> factory_names().contains(name),
{
    let all = factory_names();
    assert(all[0] == "hasOne"@);
    assert(all[1] == "hasMany"@);
    assert(all[2] == "belongsTo"@);
    assert(all[3] == "belongsToMany"@);
    assert(all[4] == "morphOne"@);
    assert(all[5] == "morphMany"@);
    assert(all[6] == "morphTo"@);
    assert(all[7] == "morphToMany"@);
    assert(all[8] == "morphedByMany"@);
    assert(all[9] == "hasManyThrough"@);
    assert(all[10] == "hasOneThrough"@);
    assert(all[11] == "newHasOne"@);
    assert(all[12] == "newHasMany"@);
    assert(all[13] == "newBelongsTo"@);
    assert(all[14] == "newBelongsToMany"@);
    assert(all[15] == "newMorphOne"@);
    assert(all[16] == "newMorphMany"@);
    assert(all[17] == "newMorphTo"@);
    assert(all[18] == "newMorphToMany"@);
    assert(all[19] == "newMorphedByMany"@);
    assert(all[20] == "newHasManyThrough"@);
    assert(all[21] == "newHasOneThrough"@);
    if all.contains(name) {
        let i = all.index_of(name);
        assert(all[i] == name);
    }
}

/// Whether a proposal is the one for a method: the method is public, can be called without arguments,
/// makes no relationships itself and returns a relationship, however its type is written; its name in
/// lower case begins with the text in lower case; and the proposal holds its name.
pub open spec fn offers(
    m: MethodInfo,
    lower_name: Seq<char>,
    lower_partial: Seq<char>,
    p: RelationProposal,
) -> bool {
    &&& m.visibility == Visibility::Public
    &&& forall|i: int| 0 <= i < m.parameters@.len() ==> !(#[trigger] m.parameters@[i]).is_required
    &&& !factory_names().contains(m.name@)
    &&& m.return_type is Some
    &&& (m.return_type->0).is_relationship
    &&& lower_partial.is_prefix_of(lower_name)
    &&& p.label == m.name@
    &&& p.insert_text == m.name@
    &&& p.filter_text == m.name@
    &&& p.detail == "Laravel relation: "@ + (m.return_type->0).text@
}

/// A method gives rise to a proposal exactly if it is one to be offered.
pub proof fn law_relationships_are_offered(
    m: MethodInfo,
    lower_name: Seq<char>,
    lower_partial: Seq<char>,
    p: RelationProposal,
)
    ensures
        completion::proposal(m, lower_name, lower_partial) == Some(p) <==> offers(
            m,
            lower_name,
            lower_partial,
            p,
        ),
{
    law_factories_are_known_by_name(m.name@);
}

/// The proposals for methods come in the order of the methods, and none depends on another method.
pub proof fn law_proposals_come_in_order(
    ms: Seq<MethodInfo>,
    more: Seq<MethodInfo>,
    partial: Seq<char>,
)
    ensures
        completion::proposals_for(ms + more, partial) == completion::proposals_for(ms, partial)
            + completion::proposals_for(more, partial),
    decreases more.len(),
{
    if more.len() == 0 {
        assert(ms + more =~= ms);
    } else {
        law_proposals_come_in_order(ms, more.drop_last(), partial);
        assert((ms + more).drop_last() =~= ms + more.drop_last());
        assert((ms + more).last() == more.last());
    }
    assert(completion::proposals_for(ms + more, partial) =~= completion::proposals_for(ms, partial)
        + completion::proposals_for(more, partial));
}

/// Every method that is one to be offered is among the proposals, and nothing else is.
pub proof fn law_every_relationship_is_proposed(
    ms: Seq<MethodInfo>,
    partial: Seq<char>,
    p: RelationProposal,
)
    ensures
        completion::proposals_for(ms, partial).contains(p) <==> exists|i: int|
            0 <= i < ms.len() && offers(
                #[trigger] ms[i],
                completion::lowercase(ms[i].name@),
                completion::lowercase(partial),
                p,
            ),
{
    let low = completion::lowercase(partial);
    completion::law_proposals_are_complete(ms, partial, p);
    if completion::is_proposed_by(ms, partial, p) {
        let i = choose|i: int|
            0 <= i < ms.len() && completion::proposal(
                #[trigger] ms[i],
                completion::lowercase(ms[i].name@),
                low,
            ) == Some(p);
        law_relationships_are_offered(ms[i], completion::lowercase(ms[i].name@), low, p);
    }
    if exists|i: int|
        0 <= i < ms.len() && offers(
            #[trigger] ms[i],
            completion::lowercase(ms[i].name@),
            low,
            p,
        ) {
        let i = choose|i: int|
            0 <= i < ms.len() && offers(
                #[trigger] ms[i],
                completion::lowercase(ms[i].name@),
                low,
                p,
            );
        law_relationships_are_offered(ms[i], completion::lowercase(ms[i].name@), low, p);
    }
}

/// Where a text stands in what is put together of three parts, the middle one of them that text.
proof fn lemma_places_in_call(a: Seq<char>, sign: Seq<char>, c: Seq<char>)
    requires
        sign.len() == 2,
        sign[0] != sign[1] || (a.len() > 0 ==> a.last() != sign[0]),
        sign[0] != sign[1] || (c.len() > 0 ==> c[0] != sign[0]),
    ensures
        search::occurs_at(a + sign + c, sign, a.len() as int),
        !search::occurs(c, sign) ==> search::occurs_last_at(a + sign + c, sign, a.len() as int),
        !search::occurs(a, sign) ==> search::occurs_first_at(a + sign + c, sign, a.len() as int),
{
    let s = a + sign + c;
    let n = a.len() as int;
    assert(s.subrange(n, n + 2) =~= sign);
    if !search::occurs(c, sign) {
        assert forall|j: int| j > n implies !search::occurs_at(s, sign, j) by {
            if search::occurs_at(s, sign, j) {
                assert(s.subrange(j, j + 2)[0] == s[j] && s.subrange(j, j + 2)[1] == s[j + 1]);
                if j == n + 1 {
                    assert(s[j] == sign[1]);
                    assert(s[j + 1] == c[0]);
                } else {
                    assert(c.subrange(j - n - 2, j - n) =~= sign);
                    assert(search::occurs_at(c, sign, j - n - 2));
                }
            }
        }
    }
    if !search::occurs(a, sign) {
        assert forall|j: int| j < n implies !search::occurs_at(s, sign, j) by {
            if search::occurs_at(s, sign, j) {
                assert(s.subrange(j, j + 2)[0] == s[j] && s.subrange(j, j + 2)[1] == s[j + 1]);
                if j == n - 1 {
                    assert(s[j] == a.last());
                    assert(s[j + 1] == sign[0]);
                } else {
                    assert(a.subrange(j, j + 2) =~= sign);
                    assert(search::occurs_at(a, sign, j));
                }
            }
        }
    }
}

/// A call with an arrow names the method behind the last arrow.
pub proof fn law_method_stands_behind_last_arrow(a: Seq<char>, method: Seq<char>)
    requires
        !search::occurs(method, "->"@),
    ensures
        completion::called_method(a + "->"@ + method) == Some(method),
{
    reveal_strlit("->");
    let s = a + "->"@ + method;
    lemma_places_in_call(a, "->"@, method);
    completion::lemma_places(s, "->"@, a.len() as int);
    assert(s.skip(a.len() as int + 2) =~= method);
}

/// A call with an arrow is made on what stands before the first arrow.
pub proof fn law_receiver_stands_before_first_arrow(receiver: Seq<char>, c: Seq<char>)
    requires
        !search::occurs(receiver, "->"@),
    ensures
        completion::call_receiver(receiver + "->"@ + c) == Some(receiver),
{
    reveal_strlit("->");
    let s = receiver + "->"@ + c;
    lemma_places_in_call(receiver, "->"@, c);
    completion::lemma_places(s, "->"@, receiver.len() as int);
    assert(s.take(receiver.len() as int) =~= receiver);
}

/// A call without an arrow names the method behind the last double colon.
pub proof fn law_method_stands_behind_last_colons(a: Seq<char>, method: Seq<char>)
    requires
        !search::occurs(a + "::"@ + method, "->"@),
        !method.contains(':'),
        a.len() > 0 ==> a.last() != ':',
    ensures
        completion::called_method(a + "::"@ + method) == Some(method),
{
    reveal_strlit("::");
    let s = a + "::"@ + method;
    if method.len() > 0 {
        assert(method.contains(method[0]));
    }
    if search::occurs(method, "::"@) {
        let i = choose|i: int| search::occurs_at(method, "::"@, i);
        assert(method.subrange(i, i + 2)[0] == method[i]);
        assert(method.contains(method[i]));
    }
    lemma_places_in_call(a, "::"@, method);
    completion::lemma_places(s, "::"@, a.len() as int);
    assert(s.skip(a.len() as int + 2) =~= method);
}

/// A call without an arrow is made on what stands before the first double colon.
pub proof fn law_receiver_stands_before_first_colons(receiver: Seq<char>, c: Seq<char>)
    requires
        !search::occurs(receiver + "::"@ + c, "->"@),
        !receiver.contains(':'),
        c.len() > 0 ==> c[0] != ':',
    ensures
        completion::call_receiver(receiver + "::"@ + c) == Some(receiver),
{
    reveal_strlit("::");
    let s = receiver + "::"@ + c;
    if receiver.len() > 0 {
        assert(receiver.contains(receiver.last()));
    }
    if search::occurs(receiver, "::"@) {
        let i = choose|i: int| search::occurs_at(receiver, "::"@, i);
        assert(receiver.subrange(i, i + 2)[0] == receiver[i]);
        assert(receiver.contains(receiver[i]));
    }
    lemma_places_in_call(receiver, "::"@, c);
    completion::lemma_places(s, "::"@, receiver.len() as int);
    assert(s.take(receiver.len() as int) =~= receiver);
}

/// A call without arrows and double colons is made on nothing, and names itself, unless it creates an
/// object.
pub proof fn law_plain_calls_name_themselves(call: Seq<char>)
    requires
        !search::occurs(call, "->"@),
        !search::occurs(call, "::"@),
    ensures
        completion::call_receiver(call) is None,
        completion::called_method(call) == (if "new "@.is_prefix_of(call) {
            None
        } else {
            Some(call)
        }),
{
}

/// What is written behind the last quote is parted at its last dot.
pub proof fn law_chain_is_parted_behind_quote(
    a: Seq<char>,
    quote: char,
    chain: Seq<char>,
    partial: Seq<char>,
)
    requires
        quote == '\'' || quote == '"',
        !chain.contains('\'') && !chain.contains('"'),
        !partial.contains('\'') && !partial.contains('"') && !partial.contains('.'),
    ensures
        completion::chain_in(a + seq![quote] + chain + seq!['.'] + partial) == Some(
            (chain, partial),
        ),
        completion::chain_in(a + seq![quote] + partial) == Some((Seq::<char>::empty(), partial)),
{
    let s = a + seq![quote] + chain + seq!['.'] + partial;
    let n = a.len() as int + 1;
    assert forall|i: int| n <= i < s.len() implies !completion::is_quote(#[trigger] s[i]) by {
        if i < n + chain.len() {
            assert(s[i] == chain[i - n]);
        } else if i > n + chain.len() {
            assert(s[i] == partial[i - n - chain.len() - 1]);
        }
    }
    assert(s[n - 1] == quote);
    lemma_through_last_quote(s, n);
    let c = s.skip(n);
    assert(c =~= chain + seq!['.'] + partial);
    let d = chain.len() as int + 1;
    assert forall|i: int| d <= i < c.len() implies #[trigger] c[i] != '.' by {
        assert(c[i] == partial[i - d]);
    }
    assert(c[d - 1] == '.');
    lemma_through_last_dot(c, d);
    assert(c.take(d - 1) =~= chain);
    assert(c.skip(d) =~= partial);
    let u = a + seq![quote] + partial;
    assert forall|i: int| n <= i < u.len() implies !completion::is_quote(#[trigger] u[i]) by {
        assert(u[i] == partial[i - n]);
    }
    assert(u[n - 1] == quote);
    lemma_through_last_quote(u, n);
    assert(u.skip(n) =~= partial);
    assert forall|i: int| 0 <= i < partial.len() implies #[trigger] partial[i] != '.' by {}
    lemma_through_last_dot(partial, 0);
}

/// Without a quote nothing is being written.
pub proof fn law_no_chain_without_quote(s: Seq<char>)
    requires
        !s.contains('\'') && !s.contains('"'),
    ensures
        completion::chain_in(s) is None,
{
    assert forall|i: int| 0 <= i < s.len() implies !completion::is_quote(#[trigger] s[i]) by {
        assert(s.contains(s[i]));
    }
    lemma_through_last_quote(s, 0);
}

/// Where nothing behind `n` is a quote, the last quote is the one before `n`.
proof fn lemma_through_last_quote(s: Seq<char>, n: int)
    requires
        0 <= n <= s.len(),
        n > 0 ==> completion::is_quote(s[n - 1]),
        forall|i: int| n <= i < s.len() ==> !completion::is_quote(#[trigger] s[i]),
    ensures
        completion::through_last_quote(s) == n,
    decreases s.len(),
{
    if s.len() > n {
        assert(!completion::is_quote(s[s.len() - 1]));
        let init = s.drop_last();
        assert forall|i: int| n <= i < init.len() implies !completion::is_quote(
            #[trigger] init[i],
        ) by {
            assert(init[i] == s[i]);
        }
        lemma_through_last_quote(init, n);
    }
}

/// Where nothing behind `n` is a dot, the last dot is the one before `n`.
proof fn lemma_through_last_dot(s: Seq<char>, n: int)
    requires
        0 <= n <= s.len(),
        n > 0 ==> s[n - 1] == '.',
        forall|i: int| n <= i < s.len() ==> #[trigger] s[i] != '.',
    ensures
        completion::through_last_dot(s) == n,
    decreases s.len(),
{
    if s.len() > n {
        assert(s[s.len() - 1] != '.');
        let init = s.drop_last();
        assert forall|i: int| n <= i < init.len() implies #[trigger] init[i] != '.' by {
            assert(init[i] == s[i]);
        }
        lemma_through_last_dot(init, n);
    }
}

/// A receiver is completed exactly where the cursor is in the first argument of a call of a listed
/// method, in any case, and it is what the call is made on.
pub proof fn law_listed_methods_are_completed(
    call: Seq<char>,
    commas: Seq<u32>,
    offset: u32,
    methods: Seq<String>,
    receiver: Seq<char>,
)
    ensures
        completion::completed_receiver(call, commas, offset, methods) == Some(receiver) <==> {
            &&& completion::call_receiver(call) == Some(receiver)
            &&& completion::called_method(call) is Some
            &&& exists|i: int|
                0 <= i < methods.len() && php_laws::texts_same_but_case(
                    (#[trigger] methods[i])@,
                    completion::called_method(call)->0,
                )
            &&& forall|i: int| 0 <= i < commas.len() ==> !(#[trigger] commas[i] < offset)
        },
{
    if let Some(name) = completion::called_method(call) {
        assert forall|i: int| 0 <= i < methods.len() implies text::same_ignoring_case(
            encode_utf8((#[trigger] methods[i])@),
            encode_utf8(name),
        ) == php_laws::texts_same_but_case(methods[i]@, name) by {
            php_laws::law_case_is_all_that_is_ignored(
                encode_utf8(methods[i]@),
                encode_utf8(name),
            );
        }
    }
}

/// `static` and `self` stand for the class around the call, `parent` for the parent of that class, and
/// anything else for itself.
pub proof fn law_receivers_are_told_apart(r: Receiver, s: Seq<char>)
    requires
        completion::is_receiver(r, s),
    ensures
        r is CurrentClass <==> s == "static"@ || s == "self"@,
        r is ParentClass <==> s == "parent"@,
        r matches Receiver::Expression(e) ==> e@ == s,
{
    reveal_strlit("static");
    reveal_strlit("self");
    reveal_strlit("parent");
    assert("static"@[0] == 's' && "self"@[0] == 's' && "parent"@[0] == 'p');
}

/// Whether a class is the one with the name or has it among its ancestors.
pub open spec fn has_or_is(c: ClassInfo, table: Seq<ClassEntry>, name: Seq<char>) -> bool {
    c.fqn@ == name || exists|n: nat| eloquent::ancestor(c, table, n) == Some(name)
}

/// Whether a class is an Eloquent model.
pub open spec fn is_model(c: ClassInfo, table: Seq<ClassEntry>) -> bool {
    has_or_is(c, table, "Illuminate\\Database\\Eloquent\\Model"@)
}

/// Whether a class is a builder: one that is called so, or an Eloquent builder.
pub open spec fn is_builder(c: ClassInfo, table: Seq<ClassEntry>) -> bool {
    c.name@ == "Builder"@ || has_or_is(c, table, "Illuminate\\Database\\Eloquent\\Builder"@)
}

/// Whether a type argument stands for some class: it is not blank and not the placeholder `TModel`.
pub open spec fn is_argument(ty: PhpType) -> bool {
    match ty {
        PhpType::Named(name) => name@.len() > 0 && name@ != "TModel"@,
        PhpType::Generic(_, _) => true,
        PhpType::Other(written) => written@.len() > 0,
    }
}

/// Whether a type names the model `m`, with or without type arguments.
pub open spec fn names_model(ty: PhpType, table: Seq<ClassEntry>, m: ClassInfo) -> bool {
    &&& is_model(m, table)
    &&& match ty {
        PhpType::Named(name) => eloquent::class_named(table, name@) == Some(m),
        PhpType::Generic(base, _) => eloquent::class_named(table, base@) == Some(m),
        PhpType::Other(_) => false,
    }
}

/// Whether a type is a builder with the model `m` as its first type argument.
pub open spec fn is_builder_of(ty: PhpType, table: Seq<ClassEntry>, m: ClassInfo) -> bool {
    ty matches PhpType::Generic(base, args) && args@.len() > 0 && is_argument(args@[0])
        && eloquent::class_named(table, base@) is Some && is_builder(
        eloquent::class_named(table, base@)->0,
        table,
    ) && names_model(args@[0], table, m)
}

/// The model of a builder's type is its first type argument.
pub proof fn law_builder_type_names_model(ty: PhpType, table: Seq<ClassEntry>, m: ClassInfo)
    ensures
        completion::builder_type_model(ty, table) == Some(m) <==> is_builder_of(ty, table, m),
{
}

/// Whether a method returns a builder with a type argument that stands for some class.
pub open spec fn returns_builder(m: MethodInfo) -> bool {
    m.return_type is Some && ((m.return_type->0).ty matches PhpType::Generic(base, args)
        && args@.len() > 0 && (base@ == "Builder"@ || base@
        == "Illuminate\\Database\\Eloquent\\Builder"@) && is_argument(args@[0]))
}

/// The type argument that a builder's methods give is that of the first that returns such a builder.
pub proof fn law_first_builder_method_decides(ms: Seq<MethodInfo>, i: int)
    requires
        0 <= i < ms.len(),
        returns_builder(ms[i]),
        forall|j: int| 0 <= j < i ==> !returns_builder(#[trigger] ms[j]),
    ensures
        (ms[i].return_type->0).ty matches PhpType::Generic(_, args) && completion::methods_model(ms)
            == Some(args@[0]),
    decreases i,
{
    if i > 0 {
        let rest = ms.drop_first();
        assert(!returns_builder(ms[0]));
        assert forall|j: int| 0 <= j < i - 1 implies !returns_builder(#[trigger] rest[j]) by {
            assert(rest[j] == ms[j + 1]);
        }
        assert(rest[i - 1] == ms[i]);
        law_first_builder_method_decides(rest, i - 1);
    }
}

/// Where no method returns a builder with such a type argument, the methods give none.
pub proof fn law_no_builder_method(ms: Seq<MethodInfo>)
    requires
        forall|j: int| 0 <= j < ms.len() ==> !returns_builder(#[trigger] ms[j]),
    ensures
        completion::methods_model(ms) is None,
    decreases ms.len(),
{
    if ms.len() > 0 {
        let rest = ms.drop_first();
        assert(!returns_builder(ms[0]));
        assert forall|j: int| 0 <= j < rest.len() implies !returns_builder(#[trigger] rest[j]) by {
            assert(rest[j] == ms[j + 1]);
        }
        law_no_builder_method(rest);
    }
}

/// The model behind a type is the class, if that is a model; else the model of the builder that the
/// type is; else, where the class is a builder, the model that its methods name.
pub proof fn law_model_of_type(rt: ResolvedType, table: Seq<ClassEntry>, m: ClassInfo)
    ensures
        completion::model_of(rt, table) == Some(m) <==> rt.class_info is Some && {
            let c = rt.class_info->0;
            ||| is_model(c, table) && m == c
            ||| !is_model(c, table) && is_builder_of(rt.type_string, table, m)
            ||| !is_model(c, table) && (forall|x: ClassInfo|
                !is_builder_of(rt.type_string, table, x)) && is_builder(c, table)
                && completion::methods_model(c.methods@) is Some && names_model(
                completion::methods_model(c.methods@)->0,
                table,
                m,
            )
        },
{
    law_builder_type_names_model(rt.type_string, table, m);
    if let Some(x) = completion::builder_type_model(rt.type_string, table) {
        law_builder_type_names_model(rt.type_string, table, x);
    } else {
        assert forall|x: ClassInfo| !is_builder_of(rt.type_string, table, x) by {
            law_builder_type_names_model(rt.type_string, table, x);
        }
    }
}

/// The model that is found is that of the first type that has one.
pub proof fn law_first_type_with_model_decides(
    types: Seq<ResolvedType>,
    table: Seq<ClassEntry>,
    i: int,
)
    requires
        0 <= i < types.len(),
        completion::model_of(types[i], table) is Some,
        forall|j: int| 0 <= j < i ==> completion::model_of(#[trigger] types[j], table) is None,
    ensures
        completion::first_model(types, table) == completion::model_of(types[i], table),
    decreases i,
{
    if i > 0 {
        let rest = types.drop_first();
        assert(completion::model_of(types[0], table) is None);
        assert forall|j: int| 0 <= j < i - 1 implies completion::model_of(
            #[trigger] rest[j],
            table,
        ) is None by {
            assert(rest[j] == types[j + 1]);
        }
        assert(rest[i - 1] == types[i]);
        law_first_type_with_model_decides(rest, table, i - 1);
    }
}

/// Where no type has a model, none is found.
pub proof fn law_no_type_with_model(types: Seq<ResolvedType>, table: Seq<ClassEntry>)
    requires
        forall|j: int|
            0 <= j < types.len() ==> completion::model_of(#[trigger] types[j], table) is None,
    ensures
        completion::first_model(types, table) is None,
    decreases types.len(),
{
    if types.len() > 0 {
        let rest = types.drop_first();
        assert(completion::model_of(types[0], table) is None);
        assert forall|j: int| 0 <= j < rest.len() implies completion::model_of(
            #[trigger] rest[j],
            table,
        ) is None by {
            assert(rest[j] == types[j + 1]);
        }
        law_no_type_with_model(rest, table);
    }
}

/// A class is loaded by the first entry of the table that has its name.
pub proof fn law_first_entry_with_name_is_loaded(
    table: Seq<ClassEntry>,
    name: Seq<char>,
    c: ClassInfo,
)
    ensures
        eloquent::class_named(table, name) == Some(c) <==> exists|i: int|
            0 <= i < table.len() && (#[trigger] table[i]).name@ == name && table[i].class == c && (
            forall|j: int| 0 <= j < i ==> (#[trigger] table[j]).name@ != name),
{
    lemma_entry_named(table, name, 0);
    let k = eloquent::entry_named(table, name, 0);
    if k < table.len() {
        assert(table[k].name@ == name);
    }
}

/// The entry that is found is the first with the name.
proof fn lemma_entry_named(table: Seq<ClassEntry>, name: Seq<char>, i: int)
    requires
        0 <= i <= table.len(),
    ensures
        ({
            let k = eloquent::entry_named(table, name, i);
            &&& i <= k <= table.len()
            &&& k < table.len() ==> table[k].name@ == name
            &&& forall|j: int| i <= j < k ==> (#[trigger] table[j]).name@ != name
        }),
    decreases table.len() - i,
{
    if i < table.len() && table[i].name@ != name {
        lemma_entry_named(table, name, i + 1);
    }
}

/// A method is proposed at most once.
pub proof fn law_method_is_proposed_once(m: MethodInfo, partial: Seq<char>)
    ensures
        completion::proposals_for(seq![m], partial).len() <= 1,
{
    assert(seq![m].drop_last() =~= Seq::empty());
    assert(completion::proposals_for(seq![m].drop_last(), partial) =~= Seq::empty());
}

/// A relationship can be named in a string exactly if its method is public, can be called without
/// arguments and makes no relationships itself, whatever it returns.
pub proof fn law_usable_relationships(m: MethodInfo)
    ensures
        completion::is_usable(m) <==> m.visibility == Visibility::Public && !factory_names().contains(
            m.name@,
        ) && forall|i: int|
            0 <= i < m.parameters@.len() ==> !(#[trigger] m.parameters@[i]).is_required,
{
    law_factories_are_known_by_name(m.name@);
}

/// A type names a class if it is a name, with or without type arguments. It is written as nothing only
/// where it has no type arguments and no text.
pub proof fn law_types_name_classes(ty: PhpType)
    ensures
        match ty {
            PhpType::Named(name) => completion::named_class(ty) == Some(name@)
                && completion::is_blank(ty) == (name@.len() == 0),
            PhpType::Generic(base, _) => completion::named_class(ty) == Some(base@)
                && !completion::is_blank(ty),
            PhpType::Other(written) => completion::named_class(ty) is None && completion::is_blank(
                ty,
            ) == (written@.len() == 0),
        },
{
}

} // verus!
