use staticimp::rendertemplate::render_str;
use staticimp::staticimp::{
    apply_transform, Config, EntryConfig, EntryFields, FieldConfig, FieldTransform,
    FieldTransformType, GeneratedField, GitEntryConfig, ImpError, NewEntry, RecaptchaConfig,
    SerializationFormat,
};

fn fields_of(pairs: &[(&str, &str)]) -> EntryFields {
    EntryFields::new(
        pairs.iter().map(|(k, v)| (k.to_string(), v.to_string())).collect(),
    )
}

fn entry_with(branch: &str, fields: EntryFields) -> NewEntry {
    NewEntry::new(
        "0000-id".to_string(),
        0,
        0,
        "19700101T000000.000Z".to_string(),
        "proj/repo".to_string(),
        branch.to_string(),
        fields,
        vec![("reply_to".to_string(), "42".to_string())],
    )
}

fn names(list: &[&str]) -> Vec<String> {
    list.iter().map(|s| s.to_string()).collect()
}

fn no_recaptcha() -> RecaptchaConfig {
    RecaptchaConfig { enabled: false, site_key: String::new(), secret: String::new() }
}

fn entry_config(review: bool, branch_template: &str) -> EntryConfig {
    EntryConfig {
        disabled: false,
        debug: false,
        fields: FieldConfig::new(),
        review,
        recaptcha: no_recaptcha(),
        format: SerializationFormat::Json,
        git: Some(GitEntryConfig {
            path: "data/entries".to_string(),
            filename: "entry-{@id}.yml".to_string(),
            branch: branch_template.to_string(),
            review_branch: "staticimp_{@id}".to_string(),
            mr_description: "new entry awaiting approval".to_string(),
            commit_message: "New staticimp entry".to_string(),
        }),
    }
}

/// The entry resolver: special names, field and parameter lookups, and the
/// collapse rules.
#[test]
fn entry_resolver_rules() {
    let entry = entry_with("main", fields_of(&[("name", "World")]));
    assert_eq!(render_str("{@id}", &entry), "0000-id");
    assert_eq!(render_str("{@timestamp}", &entry), "19700101T000000.000Z");
    assert_eq!(render_str("{@branch}", &entry), "main");
    assert_eq!(render_str("{@branch_anything}", &entry), "main");
    assert_eq!(render_str("{@unknown}", &entry), "");
    assert_eq!(render_str("{fields.name}", &entry), "World");
    assert_eq!(render_str("{fields.absent}", &entry), "");
    assert_eq!(render_str("{params.reply_to}", &entry), "42");
    assert_eq!(render_str("{params.absent}", &entry), "");
    assert_eq!(render_str("{other.name}", &entry), "");
    assert_eq!(render_str("{fields.a.b}", &entry), "");
    assert_eq!(render_str("{name}", &entry), "");
}

/// `@date:<fmt>` re-formats the creation time on demand.
#[test]
fn entry_resolver_date() {
    let entry = entry_with("main", fields_of(&[]));
    assert_eq!(render_str("{@date:%Y}", &entry), "1970");
    assert_eq!(render_str("y{@date:%Y-%m-%d}z", &entry), "y1970-01-01z");
}

/// A fresh entry gets a 36-character unique id and the pre-rendered
/// creation time.
#[test]
fn config_new_entry_id_and_timestamp() {
    let cfg = Config {
        backends: Vec::new(),
        host: "127.0.0.1".to_string(),
        port: 8080,
        timestamp_format: "%Y".to_string(),
        key_path: String::new(),
        entries: Vec::new(),
    };
    let entry = cfg.new_entry(
        "proj".to_string(),
        "main".to_string(),
        fields_of(&[]),
        Vec::new(),
    );
    let id = render_str("{@id}", &entry);
    assert_eq!(id.len(), 36);
    let ts = render_str("{@timestamp}", &entry);
    assert_eq!(ts.len(), 4);
    assert!(ts.starts_with("20"));
}

/// Validation accepts an entry with the required field present and only
/// allowed names.
#[test]
fn validation_passes() {
    let conf = FieldConfig {
        allowed: names(&["a", "b"]),
        required: names(&["a"]),
        extra: Vec::new(),
        transforms: Vec::new(),
    };
    let entry = entry_with("main", fields_of(&[("a", "x")]));
    assert!(entry.process_fields(&conf).is_ok());
}

/// Validation rejects an entry missing a required field.
#[test]
fn validation_missing_field() {
    let conf = FieldConfig {
        allowed: names(&["a", "b"]),
        required: names(&["a"]),
        extra: Vec::new(),
        transforms: Vec::new(),
    };
    let entry = entry_with("main", fields_of(&[]));
    match entry.process_fields(&conf) {
        Err(ImpError::BadRequest(_, m)) => assert_eq!(m, "Missing field(s)"),
        _ => panic!("expected a missing-fields rejection"),
    }
}

/// Validation rejects an entry with a field outside the allowed names.
#[test]
fn validation_unknown_field() {
    let conf = FieldConfig {
        allowed: names(&["a", "b"]),
        required: names(&["a"]),
        extra: Vec::new(),
        transforms: Vec::new(),
    };
    let entry = entry_with("main", fields_of(&[("a", "x"), ("c", "y")]));
    match entry.process_fields(&conf) {
        Err(ImpError::BadRequest(_, m)) => assert_eq!(m, "Unknown field(s)"),
        _ => panic!("expected an unknown-fields rejection"),
    }
}

/// A generated field named outside the allowed names is still inserted:
/// the allowed-set check applies to caller-submitted keys only.
#[test]
fn generated_field_exempt_from_allowed() {
    let conf = FieldConfig {
        allowed: names(&["a"]),
        required: names(&["a"]),
        extra: vec![(
            "gen".to_string(),
            GeneratedField::Value("{fields.a}!".to_string()),
        )],
        transforms: Vec::new(),
    };
    let entry = entry_with("main", fields_of(&[("a", "x")]));
    let processed = entry.process_fields(&conf).unwrap();
    assert_eq!(render_str("{fields.gen}", &processed), "x!");
    assert_eq!(render_str("{fields.a}", &processed), "x");
}

/// Generated fields are produced in declaration order, each seeing the
/// fields generated before it.
#[test]
fn generated_fields_in_order() {
    let conf = FieldConfig {
        allowed: names(&["a"]),
        required: Vec::new(),
        extra: vec![
            ("g1".to_string(), GeneratedField::Value("{fields.a}1".to_string())),
            ("g2".to_string(), GeneratedField::Value("{fields.g1}2".to_string())),
        ],
        transforms: Vec::new(),
    };
    let entry = entry_with("main", fields_of(&[("a", "x")]));
    let processed = entry.process_fields(&conf).unwrap();
    assert_eq!(render_str("{fields.g2}", &processed), "x12");
}

/// The slug transform: lowercase, hyphenated.
#[test]
fn transform_slugify() {
    assert_eq!(apply_transform(FieldTransformType::Slugify, "Hello World!").unwrap(), "hello-world");
}

/// The digest transforms produce 32 and 64 lowercase hex characters.
#[test]
fn transform_digests() {
    let md5 = apply_transform(FieldTransformType::Md5, "").unwrap();
    assert_eq!(md5, "d41d8cd98f00b204e9800998ecf8427e");
    let sha = apply_transform(FieldTransformType::Sha256, "").unwrap();
    assert_eq!(sha, "e3b0c44298fc1c149afbf4c8996fb92427ae41e4649b934ca495991b7852b855");
    let md5 = apply_transform(FieldTransformType::Md5, "Hello World!").unwrap();
    assert_eq!(md5.len(), 32);
    assert!(md5.chars().all(|c| c.is_ascii_hexdigit() && !c.is_ascii_uppercase()));
    let sha = apply_transform(FieldTransformType::Sha256, "Hello World!").unwrap();
    assert_eq!(sha.len(), 64);
    assert!(sha.chars().all(|c| c.is_ascii_hexdigit() && !c.is_ascii_uppercase()));
}

/// The base-85 transforms invert one another on text.
#[test]
fn transform_base85_round_trip() {
    let encoded = apply_transform(FieldTransformType::ToBase85, "hello world").unwrap();
    assert_ne!(encoded, "hello world");
    let decoded = apply_transform(FieldTransformType::FromBase85, &encoded).unwrap();
    assert_eq!(decoded, "hello world");
}

/// Decoding base-85 that is not UTF-8 text fails the transform.
#[test]
fn transform_base85_invalid_utf8() {
    let encoded = staticimp::base85::encode(&[0xff, 0xfe]);
    match apply_transform(FieldTransformType::FromBase85, &encoded) {
        Err(ImpError::FromUtf8Error(_)) => (),
        _ => panic!("expected a UTF-8 rejection"),
    }
}

/// Transforms apply in order to the configured fields through the pipeline.
#[test]
fn transform_through_pipeline() {
    let conf = FieldConfig {
        allowed: names(&["title", "other"]),
        required: Vec::new(),
        extra: Vec::new(),
        transforms: vec![
            FieldTransform { field: "title".to_string(), transform: FieldTransformType::Slugify },
            FieldTransform { field: "absent".to_string(), transform: FieldTransformType::Md5 },
        ],
    };
    let entry = entry_with("main", fields_of(&[("title", "My Test String!!!1!1"), ("other", "x")]));
    let processed = entry.process_fields(&conf).unwrap();
    assert_eq!(render_str("{fields.title}", &processed), "my-test-string-1-1");
    assert_eq!(render_str("{fields.other}", &processed), "x");
}

/// Branch pinning: the rendered branch template must match the target
/// branch, unless it renders empty.
#[test]
fn branch_pinning() {
    let conf = entry_config(false, "main");
    let entry = entry_with("main", fields_of(&[("a", "x")]));
    assert!(conf.render(entry).is_ok());

    let entry = entry_with("dev", fields_of(&[("a", "x")]));
    match conf.render(entry) {
        Err(ImpError::BadRequest(_, m)) => assert_eq!(m, "Branch not allowed"),
        _ => panic!("expected a branch rejection"),
    }

    let agnostic = entry_config(false, "");
    let entry = entry_with("dev", fields_of(&[("a", "x")]));
    let record = agnostic.render(entry).unwrap();
    assert_eq!(record.branch, "dev");
}

/// An entry without a target branch, or an entry type without git
/// configuration, cannot build a record.
#[test]
fn record_builder_rejections() {
    let conf = entry_config(false, "main");
    let entry = entry_with("", fields_of(&[]));
    match conf.render(entry) {
        Err(ImpError::BadRequest(_, m)) => assert_eq!(m, "Must specify branch"),
        _ => panic!("expected a branch requirement"),
    }

    let mut no_git = entry_config(false, "main");
    no_git.git = None;
    let entry = entry_with("main", fields_of(&[]));
    match no_git.render(entry) {
        Err(ImpError::BadRequest(_, m)) => assert_eq!(m, "missing git entry configuration"),
        _ => panic!("expected a configuration rejection"),
    }
}

/// Review toggling: review on yields both review branch and description,
/// review off yields neither.
#[test]
fn review_toggling() {
    let conf = entry_config(true, "main");
    let entry = entry_with("main", fields_of(&[("name", "World")]));
    let record = conf.render(entry).unwrap();
    let review_branch = record.review_branch.expect("review branch expected");
    assert_eq!(review_branch, "staticimp_0000-id");
    let description = record.mr_description.expect("description expected");
    assert!(description.starts_with("new entry awaiting approval\n\n"));
    assert!(description.contains("Field"));
    assert!(description.contains("Content"));
    assert!(description.contains("World"));

    let conf = entry_config(false, "main");
    let entry = entry_with("main", fields_of(&[("name", "World")]));
    let record = conf.render(entry).unwrap();
    assert!(record.review_branch.is_none());
    assert!(record.mr_description.is_none());
}

/// The record carries the rendered paths, commit message and serialized
/// content.
#[test]
fn record_contents() {
    let conf = entry_config(false, "main");
    let entry = entry_with("main", fields_of(&[("name", "World")]));
    let record = conf.render(entry).unwrap();
    assert_eq!(record.project_id, "proj/repo");
    assert_eq!(record.branch, "main");
    assert_eq!(record.file_path, "data/entries/entry-0000-id.yml");
    assert_eq!(record.commit_message, "New staticimp entry");
    assert_eq!(record.content, b"{\"name\":\"World\"}".to_vec());
}

/// JSON and YAML serialization of the field map.
#[test]
fn serialization_formats() {
    let fields = fields_of(&[("a", "x")]);
    assert_eq!(SerializationFormat::Json.serialize(&fields).unwrap(), "{\"a\":\"x\"}");
    assert_eq!(SerializationFormat::Yaml.serialize(&fields).unwrap(), "a: x\n");
    let pretty = SerializationFormat::Json.serialize_pretty(&fields).unwrap();
    assert!(pretty.contains("\"a\": \"x\""));
}

/// The format a path implies: `.json` files are JSON, all else YAML.
#[test]
fn format_from_path() {
    assert!(matches!(SerializationFormat::from_path("conf.json"), SerializationFormat::Json));
    assert!(matches!(SerializationFormat::from_path("conf.yml"), SerializationFormat::Yaml));
    assert!(matches!(SerializationFormat::from_path(""), SerializationFormat::Yaml));
}

/// Branch validation against the configured template text.
#[test]
fn validate_branch_rule() {
    let conf = entry_config(false, "main");
    assert!(conf.validate_branch("main"));
    assert!(!conf.validate_branch("dev"));
    let agnostic = entry_config(false, "");
    assert!(agnostic.validate_branch("anything"));
    let mut no_git = entry_config(false, "main");
    no_git.git = None;
    assert!(no_git.validate_branch("anything"));
}

/// Error messages and status codes.
#[test]
fn error_shapes() {
    let e = ImpError::BadRequest("ctx".to_string(), "boom".to_string());
    assert_eq!(e.message(), "ctx: boom");
    assert_eq!(e.status_code(), 400);
    let e = ImpError::BadRequest(String::new(), "boom".to_string());
    assert_eq!(e.message(), "boom");
    let e = ImpError::InternalError(String::new(), "down".to_string());
    assert_eq!(e.status_code(), 500);
    let e = ImpError::debug("rendered output".to_string());
    assert_eq!(e.status_code(), 200);
    assert_eq!(e.message(), "rendered output");
}

/// Entry and backend lookups in the configuration are by name, first match.
#[test]
fn config_lookups() {
    let cfg = Config {
        backends: Vec::new(),
        host: "127.0.0.1".to_string(),
        port: 8080,
        timestamp_format: "%Y".to_string(),
        key_path: String::new(),
        entries: vec![("comments".to_string(), entry_config(false, "main"))],
    };
    assert!(cfg.get_entry("comments").is_some());
    assert!(cfg.get_entry("other").is_none());
    assert!(cfg.get_backend("anything").is_none());
}

/// Field maps: first-match lookup, replacement, and appending.
#[test]
fn entry_fields_get_and_set() {
    let mut fields = fields_of(&[("a", "1"), ("b", "2")]);
    assert_eq!(fields.get("a").map(|s| s.as_str()), Some("1"));
    assert_eq!(fields.get("c"), None);
    fields.set("a".to_string(), "9".to_string());
    assert_eq!(fields.get("a").map(|s| s.as_str()), Some("9"));
    fields.set("c".to_string(), "3".to_string());
    assert_eq!(fields.get("c").map(|s| s.as_str()), Some("3"));
    assert_eq!(fields.len(), 3);
}

/// The stock git entry templates.
#[test]
fn git_entry_config_defaults() {
    let g = GitEntryConfig::default();
    assert_eq!(g.path, "data/entries");
    assert_eq!(g.filename, "entry-{@timestamp}.yml");
    assert_eq!(g.branch, "main");
    assert_eq!(g.review_branch, "staticimp_{@id}");
    assert_eq!(g.commit_message, "New staticimp entry");
    assert!(g.mr_description.contains("awaiting approval"));
}

/// The default entry serialization format is YAML.
#[test]
fn default_format_is_yaml() {
    assert!(matches!(SerializationFormat::default(), SerializationFormat::Yaml));
}

/// The stock templates render against an entry: the filename carries the
/// pre-rendered creation time, the review branch the entry id.
#[test]
fn default_templates_render() {
    let conf = EntryConfig {
        disabled: false,
        debug: false,
        fields: FieldConfig::new(),
        review: true,
        recaptcha: no_recaptcha(),
        format: SerializationFormat::Yaml,
        git: Some(GitEntryConfig::default()),
    };
    let entry = entry_with("main", fields_of(&[("name", "World")]));
    let record = conf.render(entry).unwrap();
    assert_eq!(record.file_path, "data/entries/entry-19700101T000000.000Z.yml");
    assert_eq!(record.review_branch.as_deref(), Some("staticimp_0000-id"));
    assert_eq!(record.content, b"name: World\n".to_vec());
}

/// A trailing slash in the path template does not double the separator,
/// and an absolute filename stands alone.
#[test]
fn path_joining() {
    let mut conf = entry_config(false, "main");
    if let Some(g) = conf.git.as_mut() {
        g.path = "data/".to_string();
        g.filename = "f.yml".to_string();
    }
    let entry = entry_with("main", fields_of(&[]));
    assert_eq!(conf.render(entry).unwrap().file_path, "data/f.yml");

    let mut conf = entry_config(false, "main");
    if let Some(g) = conf.git.as_mut() {
        g.path = "data".to_string();
        g.filename = "/abs.yml".to_string();
    }
    let entry = entry_with("main", fields_of(&[]));
    assert_eq!(conf.render(entry).unwrap().file_path, "/abs.yml");
}
