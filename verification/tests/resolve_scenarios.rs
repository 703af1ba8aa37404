use graphql_exec::arguments::Arguments;
use graphql_exec::ast::{
    Directive, Field, Fragment, FragmentSpread, InlineFragment, Selection, SourcePosition,
};
use graphql_exec::executor::{
    ExecutionError, ExecutionResult, Executor, FatalError, FieldError, ResolveError, Variables,
};
use graphql_exec::input::InputValue;
use graphql_exec::meta::{Argument, FieldMeta, MetaType, SchemaRegistry};
use graphql_exec::resolve::{
    resolve_into_type_by_name, resolve_selection_set_into, resolve_value_with_selections,
    GraphQLType, GraphQLValue, TypeKind,
};
use graphql_exec::value::{DefaultScalarValue, Object, Value};

fn pos() -> SourcePosition {
    SourcePosition::new(0, 0, 0)
}

fn pos_at(index: usize) -> SourcePosition {
    SourcePosition::new(index, 1, index)
}

fn plain_field(name: &str) -> Selection {
    Selection::Field(Field {
        position: pos(),
        name: name.to_string(),
        alias: None,
        arguments: None,
        directives: None,
        selection_set: None,
    })
}

fn field_at(name: &str, position: SourcePosition) -> Selection {
    Selection::Field(Field {
        position,
        name: name.to_string(),
        alias: None,
        arguments: None,
        directives: None,
        selection_set: None,
    })
}

fn field_with_directives(name: &str, directives: Vec<Directive>) -> Selection {
    Selection::Field(Field {
        position: pos(),
        name: name.to_string(),
        alias: None,
        arguments: None,
        directives: Some(directives),
        selection_set: None,
    })
}

fn field_with_selection(name: &str, nested: Vec<Selection>) -> Selection {
    Selection::Field(Field {
        position: pos(),
        name: name.to_string(),
        alias: None,
        arguments: None,
        directives: None,
        selection_set: Some(nested),
    })
}

fn field_with_arguments(name: &str, arguments: Vec<(String, InputValue)>) -> Selection {
    Selection::Field(Field {
        position: pos(),
        name: name.to_string(),
        alias: None,
        arguments: Some(arguments),
        directives: None,
        selection_set: None,
    })
}

fn directive(name: &str, condition: InputValue) -> Directive {
    Directive {
        name: name.to_string(),
        arguments: Some(vec![("if".to_string(), condition)]),
    }
}

fn boolean(b: bool) -> InputValue {
    InputValue::Scalar(DefaultScalarValue::Boolean(b))
}

fn meta_field(name: &str, non_null: bool) -> FieldMeta {
    FieldMeta {
        name: name.to_string(),
        arguments: None,
        non_null,
    }
}

fn schema_with(friends_non_null: bool) -> SchemaRegistry {
    let mut user_fields = vec![
        meta_field("id", false),
        meta_field("name", false),
        meta_field("fail", false),
        meta_field("fail_nn", true),
        meta_field("nothing", false),
        meta_field("nothing_nn", true),
        meta_field("friends", friends_non_null),
        meta_field("child", false),
        meta_field("child_nn", true),
    ];
    user_fields.push(FieldMeta {
        name: "limited".to_string(),
        arguments: Some(vec![Argument {
            name: "limit".to_string(),
            default_value: Some(InputValue::Scalar(DefaultScalarValue::Int(10))),
        }]),
        non_null: false,
    });
    SchemaRegistry {
        types: vec![
            MetaType {
                name: "User".to_string(),
                fields: user_fields,
            },
            MetaType {
                name: "Child".to_string(),
                fields: vec![meta_field("must_val", true)],
            },
        ],
    }
}

fn executor_with(
    friends_non_null: bool,
    variables: Variables,
    fragments: Vec<Fragment>,
) -> Executor<()> {
    Executor {
        context: (),
        schema: schema_with(friends_non_null),
        variables,
        fragments,
    }
}

fn plain_executor() -> Executor<()> {
    executor_with(false, Variables::new(Vec::new()), Vec::new())
}

struct Child;

impl GraphQLValue for Child {
    type Context = ();
    type TypeInfo = ();

    fn schema_type_name(&self, _info: &()) -> Option<String> {
        Some("Child".to_string())
    }

    fn resolve_field(
        &self,
        _info: &(),
        field_name: &str,
        _arguments: &Arguments,
        _executor: &Executor<()>,
        _position: SourcePosition,
        _selection_set: Option<&Vec<Selection>>,
        _errors: &mut Vec<ExecutionError>,
    ) -> ExecutionResult {
        match field_name {
            "must_val" => Ok(Value::Null),
            _ => Err(ResolveError::Fatal(FatalError::Unsupported)),
        }
    }

    fn concrete_type_name(&self, _context: &(), _info: &()) -> Option<String> {
        Some("Child".to_string())
    }
}

struct User {
    id: String,
    name: String,
    friends: Vec<User>,
    friends_error: bool,
}

fn user(id: &str, name: &str, friends: Vec<User>) -> User {
    User {
        id: id.to_string(),
        name: name.to_string(),
        friends,
        friends_error: false,
    }
}

impl GraphQLValue for User {
    type Context = ();
    type TypeInfo = ();

    fn schema_type_name(&self, _info: &()) -> Option<String> {
        Some("User".to_string())
    }

    fn resolve_field(
        &self,
        info: &(),
        field_name: &str,
        arguments: &Arguments,
        executor: &Executor<()>,
        _position: SourcePosition,
        selection_set: Option<&Vec<Selection>>,
        errors: &mut Vec<ExecutionError>,
    ) -> ExecutionResult {
        match field_name {
            "id" => Ok(Value::Scalar(DefaultScalarValue::Str(self.id.clone()))),
            "name" => Ok(Value::Scalar(DefaultScalarValue::Str(self.name.clone()))),
            "fail" | "fail_nn" => Err(ResolveError::Field(FieldError {
                message: "boom".to_string(),
            })),
            "nothing" | "nothing_nn" => Ok(Value::Null),
            "limited" => match arguments.get::<i64>("limit") {
                Some(limit) => Ok(Value::Scalar(DefaultScalarValue::Int(limit))),
                None => Ok(Value::Null),
            },
            "friends" => {
                if self.friends_error {
                    return Err(ResolveError::Field(FieldError {
                        message: "friends failed".to_string(),
                    }));
                }
                let nested = selection_set.expect("friends selects sub-fields");
                let mut items = Vec::new();
                for friend in &self.friends {
                    match resolve_value_with_selections(friend, info, nested, executor, errors) {
                        Ok(v) => items.push(v),
                        Err(e) => return Err(e),
                    }
                }
                Ok(Value::List(items))
            }
            "child" | "child_nn" => {
                let child = Child;
                match selection_set {
                    Some(nested) => {
                        resolve_value_with_selections(&child, info, nested, executor, errors)
                    }
                    None => Ok(Value::Null),
                }
            }
            _ => Err(ResolveError::Fatal(FatalError::Unsupported)),
        }
    }

    fn resolve_into_type(
        &self,
        info: &(),
        target: &str,
        selection_set: Option<&Vec<Selection>>,
        executor: &Executor<()>,
        errors: &mut Vec<ExecutionError>,
    ) -> ExecutionResult {
        resolve_into_type_by_name(self, info, target, selection_set, executor, errors)
    }

    fn concrete_type_name(&self, _context: &(), _info: &()) -> Option<String> {
        Some("User".to_string())
    }

    fn resolve(
        &self,
        info: &(),
        selection_set: Option<&Vec<Selection>>,
        executor: &Executor<()>,
        errors: &mut Vec<ExecutionError>,
    ) -> ExecutionResult {
        match selection_set {
            Some(sel) => resolve_value_with_selections(self, info, sel, executor, errors),
            None => Err(ResolveError::Fatal(FatalError::Unsupported)),
        }
    }
}

fn run(selections: Vec<Selection>) -> (ExecutionResult, Vec<ExecutionError>) {
    let instance = user("1", "Ann", Vec::new());
    let executor = plain_executor();
    let mut errors = Vec::new();
    let r = resolve_value_with_selections(&instance, &(), &selections, &executor, &mut errors);
    (r, errors)
}

fn as_object(v: &Value) -> &Object {
    match v {
        Value::Object(o) => o,
        _ => panic!("expected an object value"),
    }
}

fn object_keys(o: &Object) -> Vec<String> {
    o.key_value_list.iter().map(|p| p.0.clone()).collect()
}

fn entry<'a>(o: &'a Object, key: &str) -> &'a Value {
    for (k, v) in &o.key_value_list {
        if k == key {
            return v;
        }
    }
    panic!("key not present");
}

fn values_equal(a: &Value, b: &Value) -> bool {
    match (a, b) {
        (Value::Null, Value::Null) => true,
        (Value::Scalar(x), Value::Scalar(y)) => scalars_equal(x, y),
        (Value::List(xs), Value::List(ys)) => {
            xs.len() == ys.len() && xs.iter().zip(ys.iter()).all(|(x, y)| values_equal(x, y))
        }
        (Value::Object(x), Value::Object(y)) => {
            x.key_value_list.len() == y.key_value_list.len()
                && x.key_value_list
                    .iter()
                    .zip(y.key_value_list.iter())
                    .all(|(p, q)| p.0 == q.0 && values_equal(&p.1, &q.1))
        }
        _ => false,
    }
}

fn scalars_equal(a: &DefaultScalarValue, b: &DefaultScalarValue) -> bool {
    match (a, b) {
        (DefaultScalarValue::Int(x), DefaultScalarValue::Int(y)) => x == y,
        (DefaultScalarValue::Boolean(x), DefaultScalarValue::Boolean(y)) => x == y,
        (DefaultScalarValue::Str(x), DefaultScalarValue::Str(y)) => x == y,
        _ => false,
    }
}

fn str_value(s: &str) -> Value {
    Value::Scalar(DefaultScalarValue::Str(s.to_string()))
}

#[test]
fn ordering_three_fields_in_declaration_order() {
    let (r, errors) = run(vec![
        plain_field("id"),
        plain_field("name"),
        plain_field("nothing"),
    ]);
    let v = r.expect("complete");
    let o = as_object(&v);
    assert_eq!(object_keys(o), vec!["id", "name", "nothing"]);
    assert!(errors.is_empty());
}

#[test]
fn ordering_with_alias() {
    let (r, _) = run(vec![
        Selection::Field(Field {
            position: pos(),
            name: "name".to_string(),
            alias: Some("first".to_string()),
            arguments: None,
            directives: None,
            selection_set: None,
        }),
        plain_field("id"),
        plain_field("name"),
    ]);
    let v = r.expect("complete");
    assert_eq!(object_keys(as_object(&v)), vec!["first", "id", "name"]);
}

#[test]
fn null_propagation_non_null_field_nulls_object() {
    let (r, errors) = run(vec![plain_field("id"), plain_field("nothing_nn")]);
    let v = r.expect("completed execution");
    assert!(matches!(v, Value::Null));
    assert!(errors.is_empty(), "null propagation is silent");
}

#[test]
fn null_propagation_continues_through_non_null_parent() {
    let (r, _) = run(vec![
        plain_field("id"),
        field_with_selection("child_nn", vec![plain_field("must_val")]),
    ]);
    let v = r.expect("completed execution");
    assert!(matches!(v, Value::Null));
}

#[test]
fn null_propagation_stops_at_nullable_parent() {
    let (r, _) = run(vec![
        plain_field("id"),
        field_with_selection("child", vec![plain_field("must_val")]),
    ]);
    let v = r.expect("completed execution");
    let o = as_object(&v);
    assert_eq!(object_keys(o), vec!["id", "child"]);
    assert!(matches!(entry(o, "child"), Value::Null));
    assert!(values_equal(entry(o, "id"), &str_value("1")));
}

#[test]
fn error_isolation_nullable_error_keeps_sibling() {
    let (r, errors) = run(vec![
        field_at("fail", pos_at(7)),
        plain_field("id"),
    ]);
    let v = r.expect("completed execution");
    let o = as_object(&v);
    assert_eq!(object_keys(o), vec!["fail", "id"]);
    assert!(matches!(entry(o, "fail"), Value::Null));
    assert!(values_equal(entry(o, "id"), &str_value("1")));
    assert_eq!(errors.len(), 1);
    assert_eq!(errors[0].message, "boom");
    assert_eq!(errors[0].position, pos_at(7));
}

#[test]
fn error_on_non_null_field_nulls_object_and_records() {
    let (r, errors) = run(vec![plain_field("id"), field_at("fail_nn", pos_at(3))]);
    let v = r.expect("completed execution");
    assert!(matches!(v, Value::Null));
    assert_eq!(errors.len(), 1);
    assert_eq!(errors[0].position, pos_at(3));
}

#[test]
fn skip_true_excludes_without_error() {
    let (r, errors) = run(vec![
        plain_field("id"),
        field_with_directives("fail", vec![directive("skip", boolean(true))]),
    ]);
    let v = r.expect("complete");
    assert_eq!(object_keys(as_object(&v)), vec!["id"]);
    assert!(errors.is_empty());
}

#[test]
fn include_false_excludes_without_error() {
    let (r, errors) = run(vec![
        plain_field("id"),
        field_with_directives("fail", vec![directive("include", boolean(false))]),
    ]);
    let v = r.expect("complete");
    assert_eq!(object_keys(as_object(&v)), vec!["id"]);
    assert!(errors.is_empty());
}

#[test]
fn skip_false_and_include_true_keep_field() {
    let (r, _) = run(vec![field_with_directives(
        "id",
        vec![
            directive("skip", boolean(false)),
            directive("include", boolean(true)),
        ],
    )]);
    let v = r.expect("complete");
    assert_eq!(object_keys(as_object(&v)), vec!["id"]);
}

#[test]
fn unknown_directive_is_ignored() {
    let (r, _) = run(vec![field_with_directives(
        "id",
        vec![directive("defer", boolean(true))],
    )]);
    let v = r.expect("complete");
    assert_eq!(object_keys(as_object(&v)), vec!["id"]);
}

#[test]
fn skip_condition_from_variable() {
    let instance = user("1", "Ann", Vec::new());
    let executor = executor_with(
        false,
        Variables::new(vec![("flag".to_string(), boolean(true))]),
        Vec::new(),
    );
    let mut errors = Vec::new();
    let selections = vec![
        plain_field("id"),
        field_with_directives(
            "name",
            vec![directive("skip", InputValue::Variable("flag".to_string()))],
        ),
    ];
    let r = resolve_value_with_selections(&instance, &(), &selections, &executor, &mut errors);
    let v = r.expect("complete");
    assert_eq!(object_keys(as_object(&v)), vec!["id"]);
}

#[test]
fn directive_without_condition_is_fatal() {
    let (r, errors) = run(vec![field_with_directives(
        "id",
        vec![Directive {
            name: "skip".to_string(),
            arguments: None,
        }],
    )]);
    match r {
        Err(ResolveError::Fatal(FatalError::InvalidDirectiveArgument(n))) => {
            assert_eq!(n, "skip");
        }
        _ => panic!("expected a fatal directive error"),
    }
    assert!(errors.is_empty());
}

#[test]
fn inline_fragment_matching_condition_merges_fields() {
    let (r, errors) = run(vec![
        plain_field("id"),
        Selection::InlineFragment(InlineFragment {
            position: pos(),
            type_condition: Some("User".to_string()),
            directives: None,
            selection_set: vec![plain_field("name")],
        }),
    ]);
    let v = r.expect("complete");
    let o = as_object(&v);
    assert_eq!(object_keys(o), vec!["id", "name"]);
    assert!(values_equal(entry(o, "name"), &str_value("Ann")));
    assert!(errors.is_empty());
}

#[test]
fn inline_fragment_mismatching_condition_contributes_nothing() {
    let (r, errors) = run(vec![
        plain_field("id"),
        Selection::InlineFragment(InlineFragment {
            position: pos(),
            type_condition: Some("Droid".to_string()),
            directives: None,
            selection_set: vec![plain_field("name")],
        }),
    ]);
    let v = r.expect("complete");
    assert_eq!(object_keys(as_object(&v)), vec!["id"]);
    assert!(errors.is_empty());
}

#[test]
fn inline_fragment_without_condition_applies() {
    let (r, _) = run(vec![
        plain_field("id"),
        Selection::InlineFragment(InlineFragment {
            position: pos(),
            type_condition: None,
            directives: None,
            selection_set: vec![plain_field("name")],
        }),
    ]);
    let v = r.expect("complete");
    assert_eq!(object_keys(as_object(&v)), vec!["id", "name"]);
}

#[test]
fn fragment_spread_merges_matching_fragment() {
    let instance = user("1", "Ann", Vec::new());
    let fragments = vec![Fragment {
        name: "UserBits".to_string(),
        type_condition: "User".to_string(),
        selection_set: vec![plain_field("name")],
    }];
    let executor = executor_with(false, Variables::new(Vec::new()), fragments);
    let mut errors = Vec::new();
    let selections = vec![
        plain_field("id"),
        Selection::FragmentSpread(FragmentSpread {
            position: pos(),
            name: "UserBits".to_string(),
            directives: None,
        }),
    ];
    let r = resolve_value_with_selections(&instance, &(), &selections, &executor, &mut errors);
    let v = r.expect("complete");
    assert_eq!(object_keys(as_object(&v)), vec!["id", "name"]);
}

#[test]
fn missing_fragment_is_fatal() {
    let (r, _) = run(vec![Selection::FragmentSpread(FragmentSpread {
        position: pos(),
        name: "Nowhere".to_string(),
        directives: None,
    })]);
    match r {
        Err(ResolveError::Fatal(FatalError::FragmentNotFound(n))) => assert_eq!(n, "Nowhere"),
        _ => panic!("expected a missing-fragment fatal error"),
    }
}

#[test]
fn default_argument_filling() {
    let no_args = run(vec![plain_field("limited")]);
    let v = no_args.0.expect("complete");
    assert!(values_equal(
        entry(as_object(&v), "limited"),
        &Value::Scalar(DefaultScalarValue::Int(10)),
    ));

    let null_arg = run(vec![field_with_arguments(
        "limited",
        vec![("limit".to_string(), InputValue::Null)],
    )]);
    let v = null_arg.0.expect("complete");
    assert!(values_equal(
        entry(as_object(&v), "limited"),
        &Value::Scalar(DefaultScalarValue::Int(10)),
    ));

    let five = run(vec![field_with_arguments(
        "limited",
        vec![(
            "limit".to_string(),
            InputValue::Scalar(DefaultScalarValue::Int(5)),
        )],
    )]);
    let v = five.0.expect("complete");
    assert!(values_equal(
        entry(as_object(&v), "limited"),
        &Value::Scalar(DefaultScalarValue::Int(5)),
    ));
}

#[test]
fn idempotent_resolution() {
    let make_selections = || {
        vec![
            plain_field("id"),
            plain_field("name"),
            field_with_selection("friends", vec![plain_field("id")]),
        ]
    };
    let instance = user("1", "Ann", vec![user("2", "Bob", Vec::new())]);
    let executor = plain_executor();
    let mut errors1 = Vec::new();
    let first = resolve_value_with_selections(
        &instance,
        &(),
        &make_selections(),
        &executor,
        &mut errors1,
    )
    .expect("complete");
    let mut errors2 = Vec::new();
    let second = resolve_value_with_selections(
        &instance,
        &(),
        &make_selections(),
        &executor,
        &mut errors2,
    )
    .expect("complete");
    assert!(values_equal(&first, &second));
    assert_eq!(
        object_keys(as_object(&first)),
        object_keys(as_object(&second))
    );
}

#[test]
fn round_trip_selection() {
    let instance = user("1", "Ann", vec![user("2", "Bob", Vec::new())]);
    let executor = plain_executor();
    let mut errors = Vec::new();
    let selections = vec![
        plain_field("id"),
        plain_field("name"),
        field_with_selection("friends", vec![plain_field("id")]),
    ];
    let v = resolve_value_with_selections(&instance, &(), &selections, &executor, &mut errors)
        .expect("complete");
    let o = as_object(&v);
    assert_eq!(object_keys(o), vec!["id", "name", "friends"]);
    assert!(values_equal(entry(o, "id"), &str_value("1")));
    assert!(values_equal(entry(o, "name"), &str_value("Ann")));
    match entry(o, "friends") {
        Value::List(items) => {
            assert_eq!(items.len(), 1);
            let friend = as_object(&items[0]);
            assert_eq!(object_keys(friend), vec!["id"]);
            assert!(values_equal(entry(friend, "id"), &str_value("2")));
        }
        _ => panic!("friends should be a list"),
    }
    assert!(errors.is_empty());
}

#[test]
fn round_trip_with_failing_non_null_friends() {
    let mut instance = user("1", "Ann", Vec::new());
    instance.friends_error = true;
    let executor = executor_with(true, Variables::new(Vec::new()), Vec::new());
    let mut errors = Vec::new();
    let selections = vec![
        plain_field("id"),
        plain_field("name"),
        field_with_selection("friends", vec![plain_field("id")]),
    ];
    let v = resolve_value_with_selections(&instance, &(), &selections, &executor, &mut errors)
        .expect("completed execution");
    assert!(matches!(v, Value::Null));
    assert_eq!(errors.len(), 1);
    assert_eq!(errors[0].message, "friends failed");
}

#[test]
fn typename_meta_field_bypasses_metadata() {
    let (r, _) = run(vec![plain_field("__typename"), plain_field("id")]);
    let v = r.expect("complete");
    let o = as_object(&v);
    assert_eq!(object_keys(o), vec!["__typename", "id"]);
    assert!(values_equal(entry(o, "__typename"), &str_value("User")));
}

#[test]
fn unknown_field_is_fatal() {
    let (r, _) = run(vec![plain_field("nope")]);
    match r {
        Err(ResolveError::Fatal(FatalError::FieldNotFound(n))) => assert_eq!(n, "nope"),
        _ => panic!("expected a missing-field fatal error"),
    }
}

#[test]
fn unknown_type_is_fatal() {
    let instance = user("1", "Ann", Vec::new());
    let executor = Executor {
        context: (),
        schema: SchemaRegistry { types: Vec::new() },
        variables: Variables::new(Vec::new()),
        fragments: Vec::new(),
    };
    let mut errors = Vec::new();
    let mut out = Object::with_capacity(1);
    let r = resolve_selection_set_into(
        &instance,
        &(),
        &vec![plain_field("id")],
        &executor,
        &mut errors,
        &mut out,
    );
    match r {
        Err(FatalError::TypeNotFound(n)) => assert_eq!(n, "User"),
        _ => panic!("expected a missing-type fatal error"),
    }
}

#[test]
fn unsupported_field_resolution_is_fatal() {
    struct Leaf;
    impl GraphQLValue for Leaf {
        type Context = ();
        type TypeInfo = ();
        fn schema_type_name(&self, _info: &()) -> Option<String> {
            Some("Child".to_string())
        }
    }
    let executor = plain_executor();
    let mut errors = Vec::new();
    let r = resolve_value_with_selections(
        &Leaf,
        &(),
        &vec![plain_field("must_val")],
        &executor,
        &mut errors,
    );
    assert!(matches!(
        r,
        Err(ResolveError::Fatal(FatalError::Unsupported))
    ));
}

#[test]
fn value_without_type_name_is_fatal() {
    struct Anon;
    impl GraphQLValue for Anon {
        type Context = ();
        type TypeInfo = ();
        fn schema_type_name(&self, _info: &()) -> Option<String> {
            None
        }
    }
    let executor = plain_executor();
    let mut errors = Vec::new();
    let r = resolve_value_with_selections(
        &Anon,
        &(),
        &vec![plain_field("id")],
        &executor,
        &mut errors,
    );
    assert!(matches!(
        r,
        Err(ResolveError::Fatal(FatalError::MissingTypeName))
    ));
}

#[test]
fn last_write_wins_when_fragment_shares_key() {
    let (r, _) = run(vec![
        plain_field("id"),
        Selection::InlineFragment(InlineFragment {
            position: pos(),
            type_condition: Some("User".to_string()),
            directives: None,
            selection_set: vec![Selection::Field(Field {
                position: pos(),
                name: "name".to_string(),
                alias: Some("id".to_string()),
                arguments: None,
                directives: None,
                selection_set: None,
            })],
        }),
    ]);
    let v = r.expect("complete");
    let o = as_object(&v);
    assert_eq!(object_keys(o), vec!["id"]);
    assert!(values_equal(entry(o, "id"), &str_value("Ann")));
}

impl GraphQLType for User {
    fn name(_info: &()) -> Option<String> {
        Some("User".to_string())
    }

    fn meta(_info: &()) -> MetaType {
        MetaType {
            name: "User".to_string(),
            fields: vec![
                meta_field("id", false),
                meta_field("name", false),
                meta_field("friends", false),
            ],
        }
    }
}

#[test]
fn graphql_type_metadata_drives_resolution() {
    let instance = user("9", "Zoe", Vec::new());
    let executor = Executor {
        context: (),
        schema: SchemaRegistry {
            types: vec![<User as GraphQLType>::meta(&())],
        },
        variables: Variables::new(Vec::new()),
        fragments: Vec::new(),
    };
    assert_eq!(<User as GraphQLType>::name(&()), Some("User".to_string()));
    let mut errors = Vec::new();
    let selections = vec![plain_field("id"), plain_field("name")];
    let v = resolve_value_with_selections(&instance, &(), &selections, &executor, &mut errors)
        .expect("complete");
    assert_eq!(object_keys(as_object(&v)), vec!["id", "name"]);
}

#[test]
fn type_kinds_are_distinct() {
    assert_eq!(TypeKind::NonNull, TypeKind::NonNull);
    assert_ne!(TypeKind::Scalar, TypeKind::Object);
    assert_ne!(TypeKind::Interface, TypeKind::Union);
    assert_ne!(TypeKind::Enum, TypeKind::InputObject);
    assert_ne!(TypeKind::List, TypeKind::NonNull);
}

#[test]
fn all_excluded_selections_yield_empty_object() {
    let (r, errors) = run(vec![
        field_with_directives("fail", vec![directive("skip", boolean(true))]),
        field_with_directives("name", vec![directive("include", boolean(false))]),
    ]);
    let v = r.expect("complete");
    let o = as_object(&v);
    assert!(object_keys(o).is_empty());
    assert!(errors.is_empty());
}

#[test]
fn fragment_null_subresult_is_ignored() {
    let (r, errors) = run(vec![
        plain_field("id"),
        Selection::InlineFragment(InlineFragment {
            position: pos(),
            type_condition: Some("User".to_string()),
            directives: None,
            selection_set: vec![plain_field("nothing_nn")],
        }),
    ]);
    let v = r.expect("complete");
    let o = as_object(&v);
    assert_eq!(object_keys(o), vec!["id"]);
    assert!(errors.is_empty(), "a null fragment result contributes nothing");
}

#[test]
fn fragment_error_recorded_at_fragment_position() {
    struct Flaky;
    impl GraphQLValue for Flaky {
        type Context = ();
        type TypeInfo = ();
        fn schema_type_name(&self, _info: &()) -> Option<String> {
            Some("User".to_string())
        }
        fn resolve_field(
            &self,
            _info: &(),
            field_name: &str,
            _arguments: &Arguments,
            _executor: &Executor<()>,
            _position: SourcePosition,
            _selection_set: Option<&Vec<Selection>>,
            _errors: &mut Vec<ExecutionError>,
        ) -> ExecutionResult {
            match field_name {
                "id" => Ok(Value::Scalar(DefaultScalarValue::Str("f".to_string()))),
                _ => Err(ResolveError::Fatal(FatalError::Unsupported)),
            }
        }
        fn concrete_type_name(&self, _context: &(), _info: &()) -> Option<String> {
            Some("User".to_string())
        }
        fn resolve_into_type(
            &self,
            _info: &(),
            _target: &str,
            _selection_set: Option<&Vec<Selection>>,
            _executor: &Executor<()>,
            _errors: &mut Vec<ExecutionError>,
        ) -> ExecutionResult {
            Err(ResolveError::Field(FieldError {
                message: "frag boom".to_string(),
            }))
        }
    }
    let executor = plain_executor();
    let mut errors = Vec::new();
    let selections = vec![
        plain_field("id"),
        Selection::InlineFragment(InlineFragment {
            position: pos_at(9),
            type_condition: Some("User".to_string()),
            directives: None,
            selection_set: vec![plain_field("id")],
        }),
    ];
    let v = resolve_value_with_selections(&Flaky, &(), &selections, &executor, &mut errors)
        .expect("complete");
    let o = as_object(&v);
    assert_eq!(object_keys(o), vec!["id"]);
    assert_eq!(errors.len(), 1);
    assert_eq!(errors[0].message, "frag boom");
    assert_eq!(errors[0].position, pos_at(9));
}
