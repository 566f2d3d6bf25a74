use fabric_indexer::error::CrawlError;
use fabric_indexer::indexer::is_supported_type;
use fabric_indexer::indexer::FabricConfig;
use fabric_indexer::indexer::FieldConfig;
use fabric_indexer::indexer::Indexer;
use fabric_indexer::indexer::IndexerConfig;
use fabric_indexer::indexer::SchemaField;
use fabric_indexer::trie::PathToFieldsNode;
use serde_json::Value;

const INDEX_CONFIG: &str = r#"{
  "indexer": {
    "config": {
      "fabric": {
        "policy": { "paths": ["/public/asset_metadata"] },
        "root": { "content": "iq__2vuyFyghtriEa4Hmj8FgoUcKP4xz", "library": "ilib4Nx97iHNJPnxhvdjuEEEDnvfHMkY" }
      },
      "indexer": {
        "type": "metadata-text",
        "arguments": {
          "document": { "prefix": "/" },
          "fields": {
            "access": { "options": null, "paths": ["public.asset_metadata.info.access"], "type": "string" },
            "actor": { "options": { "stats": { "histogram": true } }, "paths": ["public.asset_metadata.info.talent.actor.*.name"], "type": "text" },
            "asset_type": { "paths": ["public.asset_metadata.asset_type"], "type": "string" },
            "copyright": { "options": null, "paths": ["public.asset_metadata.info.copyright"], "type": "text" },
            "creator": { "options": null, "paths": ["public.asset_metadata.info.talent.creator.*.name"], "type": "text" },
            "description": { "options": null, "paths": ["public.description"], "type": "text" },
            "director": { "options": null, "paths": ["public.asset_metadata.info.talent.director.*.name"], "type": "text" },
            "display_title": { "options": null, "paths": ["public.asset_metadata.display_title"], "type": "text" },
            "genre": { "options": { "stats": { "histogram": true } }, "paths": ["public.asset_metadata.info.genre"], "type": "text" },
            "id": { "options": null, "paths": ["id"], "type": "string" },
            "ip_title_id": { "options": null, "paths": ["public.asset_metadata.ip_title_id"], "type": "string" },
            "language": { "options": null, "paths": ["public.asset_metadata.info.language"], "type": "string" },
            "movie_synopsis": { "options": null, "paths": ["public.movies.*.synopsis"], "type": "text" },
            "producer": { "options": null, "paths": ["public.asset_metadata.info.talent.producer.*.name"], "type": "text" },
            "release_date": { "options": null, "paths": ["public.asset_metadata.info.release_date"], "type": "string" },
            "runtime": { "options": null, "paths": ["public.asset_metadata.info.runtime"], "type": "string" },
            "slug": { "options": null, "paths": ["public.asset_metadata.slug"], "type": "string" },
            "synopsis": { "options": null, "paths": ["public.asset_metadata.synopsis", "public.asset_metadata.info.synopsis"], "type": "text" },
            "tags": { "options": null, "paths": ["public.tags.*"], "type": "text" },
            "talent": { "options": null, "paths": ["public.asset_metadata.info.talent.*.*.name"], "type": "text" },
            "title": { "options": null, "paths": ["public.asset_metadata.title"], "type": "text" },
            "title_type": { "options": null, "paths": ["public.asset_metadata.title_type"], "type": "string" }
          }
        }
      }
    }
  }
}"#;

fn value_of(text: &str) -> Value {
    serde_json::from_str(text).expect("Could not read json value.")
}

fn config_error(text: &str) -> CrawlError {
    match IndexerConfig::parse_index_config(&value_of(text)) {
        Ok(_) => panic!("the configuration was accepted"),
        Err(e) => e,
    }
}

fn fabric_error(text: &str) -> CrawlError {
    match FabricConfig::parse_fabric_config(&value_of(text)) {
        Ok(_) => panic!("the configuration was accepted"),
        Err(e) => e,
    }
}

fn field(name: &str, field_type: &str, paths: &[&str]) -> FieldConfig {
    FieldConfig {
        name: name.to_string(),
        field_type: field_type.to_string(),
        options: None,
        paths: paths.iter().map(|p| p.to_string()).collect(),
    }
}

#[test]
fn test_parse_index_config() {
    let index_object_meta: Value = serde_json::from_str(INDEX_CONFIG)
        .expect("Could not read index object into json value.");
    let config_value: &Value = &index_object_meta["indexer"]["config"];
    let indexer_config: IndexerConfig = IndexerConfig::parse_index_config(config_value)
        .expect("Could not parse indexer config.");

    /* Assert that indexer_config fields are correctly filled out. */
    assert_eq!(22, indexer_config.fields.len());
    assert_eq!("metadata-text", indexer_config.indexer_type);
    assert!(
        Some(&config_value["indexer"]["arguments"]["document"]) == indexer_config.document.as_ref()
    );
}

#[test]
fn test_path_to_fields_graph() {
    let index_object_meta: Value = serde_json::from_str(INDEX_CONFIG)
        .expect("Could not read index object into json value.");
    let config_value: &Value = &index_object_meta["indexer"]["config"];
    let indexer_config: IndexerConfig = IndexerConfig::parse_index_config(config_value)
        .expect("Could not parse indexer config.");

    let path_to_fields_root = PathToFieldsNode::new_from_fields(&indexer_config.fields);
    /* The tree should store 23 FieldConfigs, since one FieldConfig has two paths. */
    let mut queue: Vec<&PathToFieldsNode> = Vec::new();
    queue.push(&path_to_fields_root);
    let mut field_configs_found = 0;
    while !queue.is_empty() {
        let path_to_fields_node = queue.pop().unwrap();
        field_configs_found += path_to_fields_node.get_fields().len();
        for (_key, child) in path_to_fields_node.get_children_iter() {
            queue.push(child);
        }
    }
    assert_eq!(23, field_configs_found);
}

#[test]
fn parsed_fields_follow_the_members_of_the_document() {
    let index_object_meta = value_of(INDEX_CONFIG);
    let config = IndexerConfig::parse_index_config(&index_object_meta["indexer"]["config"])
        .expect("Could not parse indexer config.");
    let names: Vec<&str> = config.fields.iter().map(|f| f.name.as_str()).collect();
    assert_eq!(names[0], "access");
    assert_eq!(names[1], "actor");
    assert_eq!(names[21], "title_type");
    let synopsis = config.fields.iter().find(|f| f.name == "synopsis").unwrap();
    assert_eq!(synopsis.field_type, "text");
    assert_eq!(
        synopsis.paths,
        vec!["public.asset_metadata.synopsis", "public.asset_metadata.info.synopsis"]
    );
    let actor = &config.fields[1];
    assert_eq!(actor.options, Some(value_of(r#"{"stats":{"histogram":true}}"#)));
    let access = &config.fields[0];
    assert_eq!(access.options, Some(Value::Null));
    let asset_type = &config.fields[2];
    assert_eq!(asset_type.options, None);
}

#[test]
fn parse_small_config() {
    let config = IndexerConfig::parse_index_config(&value_of(
        r#"{"indexer":{"type":"metadata-text","arguments":{"fields":{
            "title":{"type":"text","paths":["title"]},
            "desc":{"type":"text","options":{"a":1},"paths":["props.description"]}}}}}"#,
    ))
    .expect("Could not parse indexer config.");
    assert_eq!(config.indexer_type, "metadata-text");
    assert_eq!(config.document, None);
    assert_eq!(config.fields.len(), 2);
    assert_eq!(
        config.fields[0],
        FieldConfig {
            name: "desc".to_string(),
            field_type: "text".to_string(),
            options: Some(value_of(r#"{"a":1}"#)),
            paths: vec!["props.description".to_string()],
        }
    );
    assert_eq!(config.fields[1], field("title", "text", &["title"]));
}

#[test]
fn parse_config_without_fields_has_no_field() {
    let config = IndexerConfig::parse_index_config(&value_of(
        r#"{"indexer":{"type":"t","arguments":{"document":[1,2],"fields":{}}}}"#,
    ))
    .expect("Could not parse indexer config.");
    assert_eq!(config.fields.len(), 0);
    assert_eq!(config.document, Some(value_of("[1,2]")));
}

#[test]
fn parse_config_names_the_missing_key() {
    assert_eq!(config_error(r#"{}"#), CrawlError::Config("indexer".to_string()));
    assert_eq!(config_error(r#"[1]"#), CrawlError::Config("indexer".to_string()));
    assert_eq!(
        config_error(r#"{"indexer":{"type":"t"}}"#),
        CrawlError::Config("indexer.arguments".to_string())
    );
    assert_eq!(
        config_error(r#"{"indexer":{"type":"t","arguments":{}}}"#),
        CrawlError::Config("indexer.arguments.fields".to_string())
    );
    assert_eq!(
        config_error(r#"{"indexer":{"type":"t","arguments":{"fields":["title"]}}}"#),
        CrawlError::Config("indexer.arguments.fields".to_string())
    );
    assert_eq!(
        config_error(r#"{"indexer":{"arguments":{"fields":{}}}}"#),
        CrawlError::Config("indexer.type".to_string())
    );
    assert_eq!(
        config_error(r#"{"indexer":{"type":7,"arguments":{"fields":{}}}}"#),
        CrawlError::Config("indexer.type".to_string())
    );
}

#[test]
fn parse_config_names_the_malformed_field() {
    assert_eq!(
        config_error(
            r#"{"indexer":{"type":"t","arguments":{"fields":{"title":{"paths":["title"]}}}}}"#
        ),
        CrawlError::Config("indexer.arguments.fields.title.type".to_string())
    );
    assert_eq!(
        config_error(
            r#"{"indexer":{"type":"t","arguments":{"fields":{"title":{"type":1,"paths":["title"]}}}}}"#
        ),
        CrawlError::Config("indexer.arguments.fields.title.type".to_string())
    );
    assert_eq!(
        config_error(r#"{"indexer":{"type":"t","arguments":{"fields":{"title":{"type":"text"}}}}}"#),
        CrawlError::Config("indexer.arguments.fields.title.paths".to_string())
    );
    assert_eq!(
        config_error(
            r#"{"indexer":{"type":"t","arguments":{"fields":{"title":{"type":"text","paths":"title"}}}}}"#
        ),
        CrawlError::Config("indexer.arguments.fields.title.paths".to_string())
    );
    assert_eq!(
        config_error(
            r#"{"indexer":{"type":"t","arguments":{"fields":{"title":{"type":"text","paths":["a",2]}}}}}"#
        ),
        CrawlError::Config("indexer.arguments.fields.title.paths".to_string())
    );
    assert_eq!(
        config_error(
            r#"{"indexer":{"type":"t","arguments":{"fields":{"title":{"type":"text","paths":[]}}}}}"#
        ),
        CrawlError::Config("indexer.arguments.fields.title.paths".to_string())
    );
}

#[test]
fn parse_config_reports_the_first_malformed_field_before_the_type() {
    assert_eq!(
        config_error(
            r#"{"indexer":{"arguments":{"fields":{
                "b":{"type":"text"},
                "a":{"paths":["x"]}}}}}"#
        ),
        CrawlError::Config("indexer.arguments.fields.a.type".to_string())
    );
}

#[test]
fn parse_field_reads_one_description() {
    let parsed = FieldConfig::parse_field(
        "title",
        &value_of(r#"{"type":"string","options":"o","paths":["a.b","c"]}"#),
    );
    assert_eq!(
        parsed,
        Ok(FieldConfig {
            name: "title".to_string(),
            field_type: "string".to_string(),
            options: Some(value_of(r#""o""#)),
            paths: vec!["a.b".to_string(), "c".to_string()],
        })
    );
    assert_eq!(
        FieldConfig::parse_field("title", &value_of(r#"7"#)),
        Err(CrawlError::Config("indexer.arguments.fields.title.type".to_string()))
    );
}

#[test]
fn parse_fabric_config_reads_the_root() {
    let index_object_meta = value_of(INDEX_CONFIG);
    let fabric = FabricConfig::parse_fabric_config(&index_object_meta["indexer"]["config"])
        .expect("Could not parse fabric config.");
    assert_eq!(fabric.root.content, "iq__2vuyFyghtriEa4Hmj8FgoUcKP4xz");
    assert_eq!(fabric.root.library, "ilib4Nx97iHNJPnxhvdjuEEEDnvfHMkY");
    assert_eq!(fabric.policy, Some(value_of(r#"{"paths":["/public/asset_metadata"]}"#)));
}

#[test]
fn parse_fabric_config_without_policy() {
    let fabric = FabricConfig::parse_fabric_config(&value_of(
        r#"{"fabric":{"root":{"content":"iq__1","library":"ilib1"}}}"#,
    ))
    .expect("Could not parse fabric config.");
    assert_eq!(fabric.policy, None);
    assert_eq!(fabric.root.content, "iq__1");
    assert_eq!(fabric.root.library, "ilib1");
}

#[test]
fn parse_fabric_config_names_the_missing_key() {
    assert_eq!(fabric_error(r#"{}"#), CrawlError::Config("fabric".to_string()));
    assert_eq!(fabric_error(r#"{"fabric":{}}"#), CrawlError::Config("fabric.root".to_string()));
    assert_eq!(
        fabric_error(r#"{"fabric":{"root":{"library":"l"}}}"#),
        CrawlError::Config("fabric.root.content".to_string())
    );
    assert_eq!(
        fabric_error(r#"{"fabric":{"root":{"content":1,"library":"l"}}}"#),
        CrawlError::Config("fabric.root.content".to_string())
    );
    assert_eq!(
        fabric_error(r#"{"fabric":{"root":{"content":"c"}}}"#),
        CrawlError::Config("fabric.root.library".to_string())
    );
}

#[test]
fn supported_types_are_text_and_string() {
    assert!(is_supported_type("text"));
    assert!(is_supported_type("string"));
    assert!(!is_supported_type("integer"));
    assert!(!is_supported_type(""));
    assert!(!is_supported_type("Text"));
}

#[test]
fn create_index_makes_one_schema_field_per_field() {
    let config = IndexerConfig {
        indexer_type: "metadata-text".to_string(),
        document: None,
        fields: vec![field("title", "text", &["title"]), field("id", "string", &["id", "x.id"])],
    };
    let indexer = Indexer::create_index(&config).expect("the schema was refused");
    assert_eq!(
        indexer.schema,
        vec![
            SchemaField { name: "title".to_string(), text_option: 1, stored: true },
            SchemaField { name: "id".to_string(), text_option: 1, stored: true },
        ]
    );
}

#[test]
fn create_index_of_no_field_is_empty() {
    let config =
        IndexerConfig { indexer_type: "t".to_string(), document: None, fields: Vec::new() };
    assert_eq!(Indexer::create_index(&config), Ok(Indexer { schema: Vec::new() }));
}

#[test]
fn create_index_refuses_the_first_unsupported_type() {
    let config = IndexerConfig {
        indexer_type: "metadata-text".to_string(),
        document: None,
        fields: vec![
            field("title", "text", &["title"]),
            field("count", "integer", &["count"]),
            field("ratio", "float", &["ratio"]),
        ],
    };
    assert_eq!(
        Indexer::create_index(&config),
        Err(CrawlError::UnsupportedFieldType("count".to_string()))
    );
}
