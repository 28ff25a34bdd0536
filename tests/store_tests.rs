use udb::value::eq_data;
use udb::{
    Data, DbError, DefaultValue, Operator, QueryBuilder, Row, Shard, Type, CMP, DATABASE, TABLE,
};

fn text(s: &str) -> Data {
    Data::STRING(s.to_string())
}

fn num(x: f64) -> Data {
    Data::NUMBER(x.to_bits())
}

fn row(fields: &[(&str, Data)]) -> Row {
    fields
        .iter()
        .map(|(k, v)| (k.to_string(), (v.clone(), String::new())))
        .collect()
}

fn field<'a>(r: &'a Row, name: &str) -> Option<&'a Data> {
    r.iter().find(|(k, _)| k == name).map(|(_, (v, _))| v)
}

fn people() -> TABLE {
    DATABASE::create_table(
        vec![
            ("name".to_string(), (Type::STRING, String::new())),
            ("age".to_string(), (Type::NUMBER, String::new())),
        ],
        "name".to_string(),
        "people".to_string(),
    )
    .unwrap()
}

#[test]
fn test_string_to_numerical_uuid() {
    let uuid1 = udb::string_to_numerical_uuid("example_string");
    let uuid2 = udb::string_to_numerical_uuid("example_string");
    assert_eq!(uuid1, uuid2);

    let uuid3 = udb::string_to_numerical_uuid("different_string");
    assert_ne!(uuid1, uuid3);
}

#[test]
fn numeric_id_is_the_padded_digest_prefix() {
    assert_eq!(udb::string_to_numerical_uuid("alice"), "0207046744545048671492639");
    assert_eq!(udb::string_to_numerical_uuid("bob"), "0612546607955848636031833");
    assert_eq!(DATABASE::string_to_numerical_uuid("alice").len(), 25);
}

#[test]
fn shard_file_covers_ten_million_ids() {
    assert_eq!(
        DATABASE::get_file_by_id("0207046744545048671492639".to_string()),
        "0207046744545048670000000-0207046744545048679999999"
    );
    let (start, end) = DATABASE::get_shard_range("123");
    assert_eq!(start, "0000000");
    assert_eq!(end, "9999999");
}

#[test]
fn type_names_parse() {
    assert_eq!(Type::from_string("NUMBER".to_string()), Ok(Type::NUMBER));
    assert_eq!(Type::from_string("TABLENULL".to_string()), Ok(Type::TABLENULL));
    assert!(Type::from_string("number".to_string()).is_err());
}

#[test]
fn comparisons_follow_the_natural_order() {
    assert!(CMP::LESS.calculate(num(1.0), num(2.0)));
    assert!(!CMP::LESS.calculate(num(2.0), num(1.0)));
    assert!(CMP::GTEQ.calculate(text("b"), text("a")));
    assert!(CMP::EQUAL.calculate(num(0.0), num(-0.0)));
    assert!(!CMP::EQUAL.calculate(num(f64::NAN), num(f64::NAN)));
    assert!(!CMP::EQUAL.calculate(text("1"), num(1.0)));
    assert!(!CMP::LESS.calculate(text("1"), num(2.0)));
    assert!(CMP::LESSEQ.calculate(Data::NULL, Data::NULL));
    assert!(CMP::LESS.calculate(num(-3.5), num(-1.0)));
    assert!(CMP::LESS.calculate(Data::BOOLEAN(false), Data::BOOLEAN(true)));
    assert!(CMP::EQUAL.calculate(
        Data::ARRAY(vec![num(1.0), text("x")]),
        Data::ARRAY(vec![num(1.0), text("x")])
    ));
}

#[test]
fn accessors_never_panic() {
    assert_eq!(text("hi").get_string(), Some("hi".to_string()));
    assert_eq!(Data::BOOLEAN(true).get_string(), None);
    assert_eq!(num(42.0).get_number(), Some(42.0f64.to_bits()));
    assert_eq!(Data::STRINGNULL(None).get_stringnull(), Some(None));
    assert_eq!(Data::NULL.get_boolean(), None);
}

#[test]
fn validation_outcomes() {
    let mut schema = people();
    let good = row(&[("name", text("alice")), ("age", num(3.0))]);
    assert_eq!(udb::check_type_regex(&good, &schema), Ok(true));
    let short = row(&[("name", text("alice"))]);
    assert_eq!(udb::check_type_regex(&short, &schema), Ok(false));
    let wrong_name = row(&[("name", text("alice")), ("years", num(3.0))]);
    assert_eq!(udb::check_type_regex(&wrong_name, &schema), Err(DbError::MissingField));
    let wrong_type = row(&[("name", text("alice")), ("age", text("3"))]);
    assert_eq!(udb::check_type_regex(&wrong_type, &schema), Ok(false));

    schema.field_names[0].1 .1 = "^[a-z]+$".to_string();
    assert_eq!(udb::check_type_regex(&good, &schema), Ok(true));
    let upper = row(&[("name", text("Alice")), ("age", num(3.0))]);
    assert_eq!(udb::check_type_regex(&upper, &schema), Ok(false));
    schema.field_names[0].1 .1 = "(".to_string();
    assert_eq!(udb::check_type_regex(&good, &schema), Ok(false));
    schema.field_names[0].1 .1 = String::new();
    schema.field_names[1].1 .1 = "(".to_string();
    assert_eq!(udb::check_type_regex(&good, &schema), Ok(true));
}

#[test]
fn insert_then_get_round_trips() {
    let schema = people();
    let mut shard: Shard = Vec::new();
    let r = row(&[("name", text("alice")), ("age", num(31.0))]);
    DATABASE::add_row(&schema, &mut shard, r, false).unwrap();
    let got = DATABASE::get_by_id(&shard, "alice").unwrap();
    assert!(eq_data(field(&got, "age").unwrap(), &num(31.0)));
    assert!(eq_data(field(&got, "name").unwrap(), &text("alice")));
    assert!(DATABASE::get_by_id(&shard, "bob").is_none());
    assert_eq!(shard[0].0, "0207046744545048671492639");
}

#[test]
fn insert_without_overwrite_conflicts() {
    let schema = people();
    let mut shard: Shard = Vec::new();
    DATABASE::add_row(&schema, &mut shard, row(&[("name", text("alice")), ("age", num(1.0))]), false)
        .unwrap();
    let second = row(&[("name", text("alice")), ("age", num(2.0))]);
    assert_eq!(DATABASE::add_row(&schema, &mut shard, second, false), Err(DbError::IdConflict));
    let got = DATABASE::get_by_id(&shard, "alice").unwrap();
    assert!(eq_data(field(&got, "age").unwrap(), &num(1.0)));
}

#[test]
fn insert_with_overwrite_replaces() {
    let schema = people();
    let mut shard: Shard = Vec::new();
    DATABASE::add_row(&schema, &mut shard, row(&[("name", text("alice")), ("age", num(1.0))]), true)
        .unwrap();
    DATABASE::add_row(&schema, &mut shard, row(&[("name", text("alice")), ("age", num(2.0))]), true)
        .unwrap();
    assert_eq!(shard.len(), 1);
    let got = DATABASE::get_by_id(&shard, "alice").unwrap();
    assert!(eq_data(field(&got, "age").unwrap(), &num(2.0)));
}

#[test]
fn insert_refusals() {
    let schema = people();
    let mut shard: Shard = Vec::new();
    let bad = row(&[("name", text("alice")), ("age", text("old"))]);
    assert_eq!(DATABASE::add_row(&schema, &mut shard, bad, true), Err(DbError::SchemaMismatch));
    let numeric_id = DATABASE::create_table(
        vec![("n".to_string(), (Type::NUMBER, String::new()))],
        "n".to_string(),
        "t".to_string(),
    )
    .unwrap();
    let r = row(&[("n", num(4.0))]);
    assert_eq!(DATABASE::add_row(&numeric_id, &mut shard, r, true), Err(DbError::IdNotText));
    assert!(shard.is_empty());
}

#[test]
fn delete_is_idempotent() {
    let schema = people();
    let mut shard: Shard = Vec::new();
    DATABASE::add_row(&schema, &mut shard, row(&[("name", text("alice")), ("age", num(1.0))]), false)
        .unwrap();
    assert!(DATABASE::delete_row_by_id(&mut shard, "alice").is_some());
    assert!(DATABASE::get_by_id(&shard, "alice").is_none());
    assert!(DATABASE::delete_row_by_id(&mut shard, "alice").is_none());
    assert!(DATABASE::delete_row_by_id(&mut shard, "nobody").is_none());
    assert!(shard.is_empty());
}

#[test]
fn ids_of_one_shard_live_side_by_side() {
    let a = "1234567890123456780000001".to_string();
    let b = "1234567890123456789999999".to_string();
    assert_eq!(DATABASE::get_file_by_id(a.clone()), DATABASE::get_file_by_id(b.clone()));
    let mut shard: Shard = Vec::new();
    DATABASE::add_to_file(&mut shard, row(&[("k", num(1.0))]), a.clone(), false).unwrap();
    DATABASE::add_to_file(&mut shard, row(&[("k", num(2.0))]), b.clone(), false).unwrap();
    assert_eq!(shard.len(), 2);
    let found = DATABASE::get_where(shard, "k", &num(2.0), true, CMP::EQUAL);
    assert_eq!(found.len(), 1);
    assert_eq!(found[0].0, b);
}

#[test]
fn batches_group_rows_by_shard() {
    let schema = people();
    let rows = vec![
        row(&[("name", text("alice")), ("age", num(1.0))]),
        row(&[("name", text("bob")), ("age", num(2.0))]),
        row(&[("name", text("alice")), ("age", num(3.0))]),
    ];
    let batches = DATABASE::add_rows(&schema, rows).unwrap();
    assert_eq!(batches.len(), 2);
    assert_eq!(batches[0].0, "0207046744545048670000000-0207046744545048679999999");
    assert_eq!(batches[0].1.len(), 2);
    let mut shard: Shard = Vec::new();
    let entries = batches[0].1.clone();
    assert_eq!(
        DATABASE::add_many_to_file(&mut shard, entries, false),
        Err(DbError::IdConflict)
    );
    assert!(shard.is_empty());
    let entries = batches[0].1.clone();
    DATABASE::add_many_to_file(&mut shard, entries, true).unwrap();
    let got = DATABASE::get_by_id(&shard, "alice").unwrap();
    assert!(eq_data(field(&got, "age").unwrap(), &num(3.0)));
    let bad = vec![row(&[("name", text("carol"))])];
    assert_eq!(DATABASE::add_rows(&schema, bad).map(|_| ()), Err(DbError::SchemaMismatch));
}

#[test]
fn scans_filter_and_delete() {
    let schema = people();
    let mut a: Shard = Vec::new();
    let mut b: Shard = Vec::new();
    DATABASE::add_row(&schema, &mut a, row(&[("name", text("alice")), ("age", num(30.0))]), false)
        .unwrap();
    DATABASE::add_row(&schema, &mut b, row(&[("name", text("bob")), ("age", num(20.0))]), false)
        .unwrap();
    DATABASE::add_row(&schema, &mut b, row(&[("name", text("zed")), ("age", num(40.0))]), false)
        .unwrap();
    let all = DATABASE::get_all(vec![a.clone(), b.clone()]);
    assert_eq!(all.len(), 3);
    let older = DATABASE::get_where(all.clone(), "age", &num(25.0), true, CMP::GREATER);
    assert_eq!(older.len(), 2);
    let one = DATABASE::get_where(all, "age", &num(25.0), false, CMP::GREATER);
    assert_eq!(one.len(), 1);

    let mut shards = vec![a.clone(), b.clone()];
    let changed = DATABASE::delete_row_where(&mut shards, "age".to_string(), num(25.0), false, CMP::GREATER);
    assert_eq!(changed, vec![true, false]);
    assert!(shards[0].is_empty());
    assert_eq!(shards[1].len(), 2);

    let mut shards = vec![a, b];
    let changed = DATABASE::delete_row_where(&mut shards, "age".to_string(), num(25.0), true, CMP::GREATER);
    assert_eq!(changed, vec![true, true]);
    assert_eq!(shards[1].len(), 1);
}

#[test]
fn query_groups_and_or_sort_and_limit() {
    let rows = vec![
        row(&[("name", text("carol")), ("age", num(35.0))]),
        row(&[("name", text("alice")), ("age", num(30.0))]),
        row(&[("name", text("bob")), ("age", num(20.0))]),
    ];
    let q = QueryBuilder::new("people")
        .where_("age", Operator::Gt, num(25.0))
        .and("name", Operator::Eq, text("alice"))
        .or("name", Operator::Eq, text("bob"));
    assert_eq!(q.count(rows.clone()), 2);
    assert!(q.has_match(&rows));
    let none = QueryBuilder::new("people").filter("age", Operator::Lt, num(0.0));
    assert!(!none.has_match(&rows));
    assert_eq!(none.count(rows.clone()), 0);

    let sorted = QueryBuilder::new("people").sort_by("age", true).execute(rows.clone());
    let ages: Vec<u64> = sorted.iter().map(|r| field(r, "age").unwrap().clone().get_number().unwrap()).collect();
    assert_eq!(ages, vec![20.0f64.to_bits(), 30.0f64.to_bits(), 35.0f64.to_bits()]);
    let by_name = QueryBuilder::new("people").sort_by("name", false).limit(2).execute(rows.clone());
    assert_eq!(by_name.len(), 2);
    assert!(eq_data(field(&by_name[0], "name").unwrap(), &text("carol")));
    assert!(eq_data(field(&by_name[1], "name").unwrap(), &text("bob")));
    let first = QueryBuilder::new("people").where_("age", Operator::Lte, num(30.0)).first(rows.clone());
    assert!(eq_data(field(&first.unwrap(), "name").unwrap(), &text("alice")));
    let ne = QueryBuilder::new("people").where_("name", Operator::Ne, text("bob")).count(rows);
    assert_eq!(ne, 2);
}

#[test]
fn select_agrees_with_execute() {
    let rows = vec![
        row(&[("name", text("a")), ("age", num(1.0))]),
        row(&[("name", text("b")), ("age", num(2.0))]),
    ];
    let entries: Shard = rows.iter().cloned().enumerate().map(|(i, r)| (i.to_string(), r)).collect();
    let q = QueryBuilder::new("t").where_("age", Operator::Gte, num(2.0));
    let a = q.select(entries);
    let b = q.execute(rows);
    assert_eq!(a.len(), 1);
    assert_eq!(b.len(), 1);
    assert!(eq_data(field(&a[0], "name").unwrap(), field(&b[0], "name").unwrap()));
}

#[test]
fn ledger_applies_each_file_once_in_order() {
    let files: Vec<String> = vec![
        "20240102_add".to_string(),
        ".migrations_applied".to_string(),
        "20240101_create".to_string(),
        "20240103_drop".to_string(),
    ];
    let applied = vec!["20240103_drop".to_string()];
    let run = udb::pending_migrations(&files, &applied);
    assert_eq!(run, vec!["20240101_create".to_string(), "20240102_add".to_string()]);
    let mut ledger = applied.clone();
    ledger.extend(run);
    assert!(udb::pending_migrations(&files, &ledger).is_empty());
}

#[test]
fn migration_names_end_with_the_label() {
    let name = DATABASE::next_migration_filename("add_age");
    assert!(name.ends_with("_add_age"));
    assert!(name.len() > "_add_age".len());
}

#[test]
fn add_column_fills_rows_lacking_the_field() {
    let mut schema = DATABASE::create_table_migration(
        "name",
        &vec![("name".to_string(), "STRING".to_string())],
        "people",
    )
    .unwrap();
    let mut shard: Shard = Vec::new();
    DATABASE::add_row(&schema, &mut shard, row(&[("name", text("alice"))]), false).unwrap();
    DATABASE::add_row(&schema, &mut shard, row(&[("name", text("bob"))]), false).unwrap();
    shard[1].1.push(("age".to_string(), (num(7.0), String::new())));
    let mut shards = vec![shard];
    DATABASE::add_column(&mut schema, &mut shards, "age", "NUMBER", &DefaultValue::Number(0.0f64.to_bits()))
        .unwrap();
    let alice = DATABASE::get_by_id(&shards[0], "alice").unwrap();
    assert!(eq_data(field(&alice, "age").unwrap(), &num(0.0)));
    assert_eq!(alice.iter().find(|(k, _)| k == "age").unwrap().1 .1, "NUMBER");
    let bob = DATABASE::get_by_id(&shards[0], "bob").unwrap();
    assert!(eq_data(field(&bob, "age").unwrap(), &num(7.0)));
    assert!(schema.field_names.iter().any(|(k, (t, _))| k == "age" && *t == Type::NUMBER));
}

#[test]
fn migration_refusals() {
    let mut schema = people();
    let mut shards: Vec<Shard> = vec![Vec::new()];
    DATABASE::add_row(&schema, &mut shards[0], row(&[("name", text("a")), ("age", num(1.0))]), false)
        .unwrap();
    assert_eq!(
        DATABASE::add_column(&mut schema, &mut shards, "x", "WORD", &DefaultValue::Boolean(true)),
        Err(DbError::Unsupported)
    );
    assert_eq!(
        DATABASE::add_column(&mut schema, &mut shards, "x", "JSON", &DefaultValue::Unsupported),
        Err(DbError::Unsupported)
    );
    assert_eq!(
        DATABASE::rename_column(&mut schema, &mut shards, "name", "who"),
        Err(DbError::IdColumn)
    );
    assert_eq!(
        DATABASE::drop_column(&mut schema, &mut shards, "nope"),
        Err(DbError::NotFound)
    );
    assert_eq!(
        DATABASE::create_table(Vec::new(), "id".to_string(), "users".to_string()).map(|t| t.name),
        Err(DbError::IdColumn)
    );
    assert_eq!(
        DATABASE::create_table_migration("id", &vec![("id".to_string(), "DATE".to_string())], "t")
            .map(|t| t.name),
        Err(DbError::Unsupported)
    );
}

#[test]
fn rename_and_drop_rewrite_rows_and_schema() {
    let mut schema = people();
    let mut shards: Vec<Shard> = vec![Vec::new()];
    DATABASE::add_row(&schema, &mut shards[0], row(&[("name", text("a")), ("age", num(1.0))]), false)
        .unwrap();
    DATABASE::rename_column(&mut schema, &mut shards, "age", "years").unwrap();
    assert!(field(&shards[0][0].1, "years").is_some());
    assert!(field(&shards[0][0].1, "age").is_none());
    assert!(schema.field_names.iter().any(|(k, _)| k == "years"));
    DATABASE::drop_column(&mut schema, &mut shards, "years").unwrap();
    assert_eq!(shards[0][0].1.len(), 1);
    assert_eq!(schema.field_names.len(), 1);
}

#[test]
fn test_create_table_success() {
    let fields = vec![
        ("id".to_string(), (Type::STRING, "Primary key".to_string())),
        ("name".to_string(), (Type::STRINGNULL, "Nullable string".to_string())),
    ];
    let result = DATABASE::create_table(fields, "id".to_string(), "users".to_string());
    assert!(result.is_ok());
    let table = result.unwrap();
    assert_eq!(table.name, "users");
    assert_eq!(table.id_column, "id");
    assert_eq!(table.field_names.len(), 2);
}

#[test]
fn unknown_type_names_give_one_error() {
    assert_eq!(Type::from_string("DATE".to_string()), Err("No type name"));
}

#[test]
fn invalid_pattern_fails_closed() {
    let mut schema = people();
    schema.field_names[0].1 .1 = "[".to_string();
    let r = row(&[("name", text("alice")), ("age", num(3.0))]);
    assert_eq!(udb::check_type_regex(&r, &schema), Ok(false));
    let mut shard: Shard = Vec::new();
    assert_eq!(DATABASE::add_row(&schema, &mut shard, r, true), Err(DbError::SchemaMismatch));
}

#[test]
fn update_by_id_stores_the_merged_row_under_its_new_id() {
    let schema = people();
    let (mut files, mut shards) = load(&schema, vec![row(&[("name", text("alice")), ("age", num(30.0))])]);
    let merged = DATABASE::update_field_by_id(
        &schema,
        &mut files,
        &mut shards,
        "alice",
        "name".to_string(),
        (text("alicia"), String::new()),
    )
    .unwrap();
    assert!(eq_data(field(&merged, "age").unwrap(), &num(30.0)));
    assert!(find(&files, &shards, "alice").is_none());
    let moved = find(&files, &shards, "alicia").unwrap();
    assert!(eq_data(field(&moved, "age").unwrap(), &num(30.0)));
    assert_eq!(files.len(), 2);

    assert_eq!(
        DATABASE::update_row_by_id(&schema, &mut files, &mut shards, "alice", row(&[("age", num(1.0))]))
            .map(|_| ()),
        Err(DbError::NotFound)
    );
    let bad = DATABASE::update_row_by_id(&schema, &mut files, &mut shards, "alicia", row(&[("age", text("x"))]));
    assert_eq!(bad.map(|_| ()), Err(DbError::SchemaMismatch));
    assert!(find(&files, &shards, "alicia").is_some());
    DATABASE::update_row_by_id(&schema, &mut files, &mut shards, "alicia", row(&[("age", num(31.0))])).unwrap();
    let same = find(&files, &shards, "alicia").unwrap();
    assert!(eq_data(field(&same, "age").unwrap(), &num(31.0)));
}

#[test]
fn where_updates_leave_the_updated_table() {
    let schema = people();
    let rows = vec![
        row(&[("name", text("alice")), ("age", num(30.0))]),
        row(&[("name", text("bob")), ("age", num(20.0))]),
        row(&[("name", text("zed")), ("age", num(40.0))]),
    ];
    let (mut files, mut shards) = load(&schema, rows.clone());
    let n = DATABASE::update_field_where(
        &schema,
        &mut files,
        &mut shards,
        "age".to_string(),
        num(25.0),
        "age".to_string(),
        (num(1.0), String::new()),
        true,
        CMP::GREATER,
    )
    .unwrap();
    assert_eq!(n, 2);
    assert!(eq_data(field(&find(&files, &shards, "alice").unwrap(), "age").unwrap(), &num(1.0)));
    assert!(eq_data(field(&find(&files, &shards, "zed").unwrap(), "age").unwrap(), &num(1.0)));
    assert!(eq_data(field(&find(&files, &shards, "bob").unwrap(), "age").unwrap(), &num(20.0)));
    assert_eq!(shards.iter().map(|s| s.len()).sum::<usize>(), 3);

    let (mut files, mut shards) = load(&schema, rows.clone());
    let n = DATABASE::update_row_where(
        &schema,
        &mut files,
        &mut shards,
        "age".to_string(),
        num(25.0),
        row(&[("age", num(2.0))]),
        false,
        CMP::GREATER,
    )
    .unwrap();
    assert_eq!(n, 1);
    let twos = shards.iter().flatten().filter(|(_, r)| eq_data(field(r, "age").unwrap(), &num(2.0))).count();
    assert_eq!(twos, 1);

    let (mut files, mut shards) = load(&schema, rows);
    let bad = DATABASE::update_row_where(
        &schema,
        &mut files,
        &mut shards,
        "name".to_string(),
        text("bob"),
        row(&[("age", text("old"))]),
        true,
        CMP::EQUAL,
    );
    assert_eq!(bad, Err(DbError::SchemaMismatch));
    assert!(eq_data(field(&find(&files, &shards, "bob").unwrap(), "age").unwrap(), &num(20.0)));
}

#[test]
fn query_deletes_and_updates() {
    let (_, mut shards) = three_people();
    let changed = QueryBuilder::new("people")
        .where_("name", Operator::Eq, text("bob"))
        .or("name", Operator::Eq, text("alice"))
        .delete(&mut shards);
    assert_eq!(changed, vec![true, true]);
    assert_eq!(shards[0].len() + shards[1].len(), 1);

    let schema = people();
    let rows = vec![
        row(&[("name", text("alice")), ("age", num(30.0))]),
        row(&[("name", text("bob")), ("age", num(20.0))]),
    ];
    let (mut files, mut shards) = load(&schema, rows);
    let n = QueryBuilder::new("people")
        .where_("age", Operator::Lt, num(35.0))
        .update_field(&schema, &mut files, &mut shards, "age".to_string(), (num(0.0), String::new()), true)
        .unwrap();
    assert_eq!(n, 2);
    assert!(eq_data(field(&find(&files, &shards, "bob").unwrap(), "age").unwrap(), &num(0.0)));
    let n = QueryBuilder::new("people")
        .where_("name", Operator::Eq, text("alice"))
        .update_row(&schema, &mut files, &mut shards, row(&[("age", num(5.0))]), false)
        .unwrap();
    assert_eq!(n, 1);
    assert!(eq_data(field(&find(&files, &shards, "alice").unwrap(), "age").unwrap(), &num(5.0)));
}

#[test]
fn people_scenario() {
    let mut schema = DATABASE::create_table_migration(
        "name",
        &vec![("name".to_string(), "STRING".to_string())],
        "people",
    )
    .unwrap();
    let (mut files, mut shards) = load(&schema, vec![row(&[("name", text("alice"))]), row(&[("name", text("bob"))])]);
    let all = DATABASE::get_all(shards.clone());
    let found = QueryBuilder::new("people")
        .where_("name", Operator::Eq, text("alice"))
        .select(all);
    assert_eq!(found.len(), 1);

    DATABASE::add_column(&mut schema, &mut shards, "age", "NUMBER", &DefaultValue::Number(0.0f64.to_bits()))
        .unwrap();
    let alice = find(&files, &shards, "alice").unwrap();
    assert!(eq_data(field(&alice, "age").unwrap(), &num(0.0)));

    let n = DATABASE::update_field_where(
        &schema,
        &mut files,
        &mut shards,
        "name".to_string(),
        text("alice"),
        "age".to_string(),
        (num(30.0), String::new()),
        true,
        CMP::EQUAL,
    )
    .unwrap();
    assert_eq!(n, 1);
    let alice = find(&files, &shards, "alice").unwrap();
    assert!(eq_data(field(&alice, "age").unwrap(), &num(30.0)));

    let bob_file = DATABASE::get_file_by_id(udb::string_to_numerical_uuid("bob"));
    let bi = files.iter().position(|f| *f == bob_file).unwrap();
    assert!(DATABASE::delete_row_by_id(&mut shards[bi], "bob").is_some());
    let all = DATABASE::get_all(shards);
    assert_eq!(all.len(), 1);
    assert!(eq_data(field(&all[0].1, "name").unwrap(), &text("alice")));
}

/// Loads rows into the shards they belong in, named by file.
fn load(schema: &TABLE, rows: Vec<Row>) -> (Vec<String>, Vec<Shard>) {
    let mut files: Vec<String> = Vec::new();
    let mut shards: Vec<Shard> = Vec::new();
    for r in rows {
        let file = DATABASE::shard_for_row(schema, &r).unwrap();
        let pos = match files.iter().position(|f| *f == file) {
            Some(p) => p,
            None => {
                files.push(file);
                shards.push(Vec::new());
                files.len() - 1
            }
        };
        DATABASE::add_row(schema, &mut shards[pos], r, false).unwrap();
    }
    (files, shards)
}

fn find(files: &[String], shards: &[Shard], who: &str) -> Option<Row> {
    let file = DATABASE::get_file_by_id(udb::string_to_numerical_uuid(who));
    let pos = files.iter().position(|f| *f == file)?;
    DATABASE::get_by_id(&shards[pos], who)
}

fn three_people() -> (TABLE, Vec<Shard>) {
    let schema = people();
    let mut a: Shard = Vec::new();
    let mut b: Shard = Vec::new();
    DATABASE::add_row(&schema, &mut a, row(&[("name", text("alice")), ("age", num(30.0))]), false)
        .unwrap();
    DATABASE::add_row(&schema, &mut b, row(&[("name", text("bob")), ("age", num(20.0))]), false)
        .unwrap();
    DATABASE::add_row(&schema, &mut b, row(&[("name", text("zed")), ("age", num(40.0))]), false)
        .unwrap();
    (schema, vec![a, b])
}
