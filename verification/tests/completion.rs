use laravel_keys::completion::{
    build_relationship_completions, extract_method_name, extract_model_from_builder,
    extract_model_from_builder_type, extract_receiver, find_model_from_resolved_types,
    get_relationship_prefix, is_eloquent_relationship_factory_method,
    is_string_usable_relationship_method, next_completion_step, propose_relation,
    relationship_completions, relationship_receiver, CompletionStep, Receiver, ResolvedType,
};
use laravel_keys::eloquent::{
    ClassEntry, ClassInfo, MethodInfo, ParameterInfo, PhpType, ReturnType, Visibility,
};

const MODEL: &str = "Illuminate\\Database\\Eloquent\\Model";
const BUILDER: &str = "Illuminate\\Database\\Eloquent\\Builder";

fn class(name: &str, fqn: &str, parent: Option<&str>, methods: Vec<MethodInfo>) -> ClassInfo {
    ClassInfo {
        name: name.to_string(),
        fqn: fqn.to_string(),
        parent_class: parent.map(|p| p.to_string()),
        methods,
    }
}

fn post() -> ClassInfo {
    class("Post", "App\\Post", Some(MODEL), Vec::new())
}

fn entry(name: &str, class: ClassInfo) -> ClassEntry {
    ClassEntry { name: name.to_string(), class }
}

fn named(name: &str) -> PhpType {
    PhpType::Named(name.to_string())
}

fn generic(base: &str, args: Vec<PhpType>) -> PhpType {
    PhpType::Generic(base.to_string(), args)
}

fn relation(name: &str) -> MethodInfo {
    MethodInfo {
        name: name.to_string(),
        visibility: Visibility::Public,
        parameters: Vec::new(),
        return_type: Some(ReturnType {
            ty: generic("HasMany", vec![named("App\\Comment")]),
            text: "HasMany<App\\Comment>".to_string(),
            is_relationship: true,
        }),
    }
}

#[test]
fn calls_are_taken_apart() {
    assert_eq!(extract_method_name("$a->b()->with"), Some("with"));
    assert_eq!(extract_method_name("Post::query()->with"), Some("with"));
    assert_eq!(extract_method_name("A\\B::with"), Some("with"));
    assert_eq!(extract_method_name("with"), Some("with"));
    assert_eq!(extract_method_name("new Post"), None);
    assert_eq!(extract_method_name("$a->"), Some(""));
    assert_eq!(extract_receiver("$a->b()->with"), Some("$a"));
    assert_eq!(extract_receiver("Post::query()->with"), Some("Post::query()"));
    assert_eq!(extract_receiver("A::b::with"), Some("A"));
    assert_eq!(extract_receiver("with"), None);
}

#[test]
fn receivers_of_relationship_methods() {
    let methods = vec!["with".to_string(), "whereHas".to_string()];
    let at = |call: &str, commas: Vec<u32>| relationship_receiver(call, &commas, 20, &methods);
    assert_eq!(at("Post::with", vec![]), Some(Receiver::Expression("Post".to_string())));
    assert_eq!(at("static::WITH", vec![20, 30]), Some(Receiver::CurrentClass));
    assert_eq!(at("self::wherehas", vec![]), Some(Receiver::CurrentClass));
    assert_eq!(at("parent::with", vec![]), Some(Receiver::ParentClass));
    assert_eq!(at("Post::with", vec![19]), None);
    assert_eq!(at("Post::find", vec![]), None);
    assert_eq!(at("with", vec![]), None);
    assert_eq!(at("new with", vec![]), None);
}

#[test]
fn models_behind_types() {
    let table = vec![
        entry("App\\Post", post()),
        entry("Builder", class("Builder", BUILDER, None, Vec::new())),
        entry("PostBuilder", class("PostBuilder", "App\\PostBuilder", Some(BUILDER), Vec::new())),
        entry("Other", class("Other", "Other", None, Vec::new())),
    ];
    let builder_of = |base: &str, arg: PhpType| generic(base, vec![arg]);
    for base in ["Builder", "PostBuilder"] {
        let found = extract_model_from_builder_type(&builder_of(base, named("App\\Post")), &table);
        assert_eq!(found.unwrap().fqn, "App\\Post");
    }
    assert!(extract_model_from_builder_type(&builder_of("Other", named("App\\Post")), &table).is_none());
    assert!(extract_model_from_builder_type(&builder_of("None", named("App\\Post")), &table).is_none());
    assert!(extract_model_from_builder_type(&builder_of("Builder", named("TModel")), &table).is_none());
    assert!(extract_model_from_builder_type(&builder_of("Builder", named("")), &table).is_none());
    assert!(extract_model_from_builder_type(&builder_of("Builder", named("Other")), &table).is_none());
    assert!(extract_model_from_builder_type(&generic("Builder", vec![]), &table).is_none());
    assert!(extract_model_from_builder_type(&named("Builder"), &table).is_none());
    assert!(extract_model_from_builder_type(
        &builder_of("Builder", PhpType::Other("int|string".to_string())),
        &table
    )
    .is_none());

    let types = vec![
        ResolvedType { type_string: named("x"), class_info: None },
        ResolvedType {
            type_string: named("Other"),
            class_info: Some(class("Other", "Other", None, Vec::new())),
        },
        ResolvedType { type_string: named("App\\Post"), class_info: Some(post()) },
    ];
    assert_eq!(find_model_from_resolved_types(&types, &table).unwrap().name, "Post");

    let mut query = relation("query");
    query.return_type = Some(ReturnType {
        ty: builder_of("Builder", named("App\\Post")),
        text: String::new(),
        is_relationship: false,
    });
    let mut fresh = relation("fresh");
    fresh.return_type = Some(ReturnType {
        ty: builder_of(BUILDER, named("TModel")),
        text: String::new(),
        is_relationship: false,
    });
    let custom = class("PostBuilder", "App\\PostBuilder", Some(BUILDER), vec![fresh, query]);
    assert!(matches!(extract_model_from_builder(&custom), Some(PhpType::Named(n)) if n == "App\\Post"));
    let types =
        vec![ResolvedType { type_string: named("PostBuilder"), class_info: Some(custom) }];
    assert_eq!(find_model_from_resolved_types(&types, &table).unwrap().fqn, "App\\Post");
    assert!(find_model_from_resolved_types(&Vec::new(), &table).is_none());
}

#[test]
fn chains_being_written() {
    let content = "Post::with('comments.author.n');";
    let at = |offset: u32| {
        get_relationship_prefix(content, offset, 11).map(|(a, b)| [a, "|".to_string(), b].concat())
    };
    assert_eq!(at(29), Some("comments.author|n".to_string()));
    assert_eq!(at(28), Some("comments.author|".to_string()));
    assert_eq!(at(14), Some("|co".to_string()));
    assert_eq!(at(12), Some("|".to_string()));
    assert_eq!(at(11), None);
    assert_eq!(get_relationship_prefix("f($x", 4, 2), None);
    assert_eq!(
        get_relationship_prefix("f('a', \"b.c", 11, 2),
        Some(("b".to_string(), "c".to_string()))
    );
}

#[test]
fn proposals_begin_with_what_is_written() {
    let methods = vec![relation("comments"), relation("authors"), relation("Contacts")];
    let labels = |partial: &str| -> Vec<String> {
        build_relationship_completions(&methods, partial).into_iter().map(|i| i.label).collect()
    };
    assert_eq!(labels("c"), vec!["comments", "Contacts"]);
    assert_eq!(labels("COM"), vec!["comments"]);
    assert_eq!(labels("").len(), 3);
    assert!(labels("x").is_empty());
    let item = &build_relationship_completions(&methods, "a")[0];
    assert_eq!(item.detail, "Laravel relation: HasMany<App\\Comment>");
    assert_eq!(item.insert_text, "authors");
    assert_eq!(item.filter_text, "authors");
    assert!(relationship_completions(&methods, "x").is_none());
    assert_eq!(relationship_completions(&methods, "c").unwrap().len(), 2);
    let accented = vec![relation("\u{c9}l\u{e8}ves")];
    assert_eq!(build_relationship_completions(&accented, "\u{e9}L").len(), 1);
}

#[test]
fn methods_that_cannot_be_named() {
    assert!(is_string_usable_relationship_method(&relation("comments")));
    assert!(!is_string_usable_relationship_method(&relation("hasMany")));
    assert!(is_eloquent_relationship_factory_method("newHasOneThrough"));
    assert!(!is_eloquent_relationship_factory_method("hasmany"));
    let mut hidden = relation("comments");
    hidden.visibility = Visibility::Protected;
    assert!(!is_string_usable_relationship_method(&hidden));
    let mut optional = relation("comments");
    optional.parameters = vec![ParameterInfo { is_required: false }];
    assert!(is_string_usable_relationship_method(&optional));
    optional.parameters.push(ParameterInfo { is_required: true });
    assert!(!is_string_usable_relationship_method(&optional));

    let mut untyped = relation("comments");
    untyped.return_type = None;
    assert!(propose_relation(&untyped, "comments", "").is_none());
    let mut plain = relation("comments");
    plain.return_type = Some(ReturnType {
        ty: named("string"),
        text: "string".to_string(),
        is_relationship: false,
    });
    assert!(propose_relation(&plain, "comments", "").is_none());
    assert!(propose_relation(&relation("comments"), "comments", "com").is_some());
    assert!(propose_relation(&relation("comments"), "comments", "Com").is_none());
}

#[test]
fn steps_of_a_completion() {
    let table = vec![entry("App\\Post", post())];
    let types = vec![ResolvedType { type_string: named("App\\Post"), class_info: Some(post()) }];
    let content = "Post::with('comments.a');";
    match next_completion_step(&types, &table, content, 13, 11) {
        CompletionStep::Propose { model, partial } => {
            assert_eq!(model.fqn, "App\\Post");
            assert_eq!(partial, "c");
        }
        _ => panic!("expected proposals"),
    }
    match next_completion_step(&types, &table, content, 22, 11) {
        CompletionStep::Follow { model, chain, partial } => {
            assert_eq!(model.fqn, "App\\Post");
            assert_eq!(chain, "comments");
            assert_eq!(partial, "a");
        }
        _ => panic!("expected a chain"),
    }
    assert!(matches!(
        next_completion_step(&types, &table, content, 11, 11),
        CompletionStep::Stop
    ));
    assert!(matches!(
        next_completion_step(&Vec::new(), &table, content, 13, 11),
        CompletionStep::Stop
    ));
}
