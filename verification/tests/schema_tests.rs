use runsteps::schema::{
    json_type, metadata_fields, required_names, schema, split_words, step_fields,
    wrap_description, JsonType,
};

fn expected_step_fields() -> Vec<&'static str> {
    vec![
        "name",
        "description",
        "command",
        "just_recipe",
        "just_no_deps",
        "group",
        "confirm",
        "depends_on",
    ]
}

fn expected_metadata_fields() -> Vec<&'static str> {
    vec!["name", "description", "justfile", "working_directory"]
}

#[test]
fn schema_includes_all_step_fields() {
    let tables = schema();
    let steps_table = tables
        .iter()
        .find(|t| t.name == "steps")
        .expect("SCHEMA must contain 'steps' table");
    let names: Vec<&str> = steps_table.fields.iter().map(|f| f.name).collect();
    for expected in &expected_step_fields() {
        assert!(names.contains(expected), "SCHEMA steps table is missing field: '{}'", expected);
    }
}

#[test]
fn schema_includes_all_metadata_fields() {
    let tables = schema();
    let metadata_table = tables
        .iter()
        .find(|t| t.name == "metadata")
        .expect("SCHEMA must contain 'metadata' table");
    let names: Vec<&str> = metadata_table.fields.iter().map(|f| f.name).collect();
    for expected in &expected_metadata_fields() {
        assert!(names.contains(expected), "SCHEMA metadata table is missing field: '{}'", expected);
    }
}

#[test]
fn schema_no_phantom_fields() {
    let all_real: Vec<&str> =
        expected_step_fields().into_iter().chain(expected_metadata_fields()).collect();
    for table in schema() {
        for field in &table.fields {
            assert!(
                all_real.contains(&field.name),
                "SCHEMA table '{}' references non-existent field: '{}'",
                table.name,
                field.name
            );
        }
    }
}

#[test]
fn json_types_follow_field_types() {
    let fields = step_fields();
    let kinds: Vec<JsonType> = fields.iter().map(json_type).collect();
    assert_eq!(kinds[0], JsonType::Str);
    assert_eq!(kinds[4], JsonType::Boolean);
    assert_eq!(kinds[7], JsonType::StringArray);
}

#[test]
fn required_names_in_order() {
    assert_eq!(required_names(&step_fields()), vec!["name", "description"]);
    assert_eq!(required_names(&metadata_fields()), vec!["name"]);
}

#[test]
fn short_description_is_one_line() {
    let d = "Names of steps that must also be selected.";
    assert_eq!(wrap_description(d), vec![d.to_string()]);
}

#[test]
fn long_description_wraps_at_68_bytes() {
    let d = "When true, passes --no-deps to just, skipping the recipe's prerequisites. Has no effect on command steps.";
    let lines = wrap_description(d);
    assert_eq!(
        lines,
        vec![
            "When true, passes --no-deps to just, skipping the recipe's".to_string(),
            "prerequisites. Has no effect on command steps.".to_string()
        ]
    );
    for l in &lines {
        assert!(l.len() <= 68);
    }
}

#[test]
fn words_split_on_any_white_space() {
    assert_eq!(
        split_words("  a\tbb \n c  "),
        vec!["a".to_string(), "bb".to_string(), "c".to_string()]
    );
}
