//! The configuration of a crawl: which fields the index has, where in the metadata
//! each is found, and at which object the crawl starts.

use vstd::prelude::*;
use vstd::string::*;
use crate::error::CrawlError;
use crate::error::CrawlErrorView;
use crate::json::distinct_keys;
use crate::json::json_elements;
use crate::json::json_get;
use crate::json::json_members;
use crate::json::json_text;
use crate::json::members_view;
use crate::json::value_as_array;
use crate::json::value_as_str;
use crate::json::value_clone;
use crate::json::value_get;
use crate::json::value_members;
use crate::text::same_text;
use crate::text::texts;

verus! {

/// The object at which a crawl starts.
#[derive(Debug, PartialEq, Eq)]
pub struct RootConfig {
    pub content: String,
    pub library: String,
}

/// Where in the content fabric a crawl starts, and under which policy.
#[derive(Debug, PartialEq, Eq)]
pub struct FabricConfig {
    pub policy: Option<serde_json::Value>,
    pub root: RootConfig,
}

/// One field of the index: its name, its type, and the dotted metadata paths under
/// which its values are found.
#[derive(Debug, PartialEq, Eq)]
pub struct FieldConfig {
    pub name: String,
    pub field_type: String,
    pub options: Option<serde_json::Value>,
    pub paths: Vec<String>,
}

/// What an indexer is asked to build.
#[derive(Debug, PartialEq, Eq)]
pub struct IndexerConfig {
    pub indexer_type: String,
    pub document: Option<serde_json::Value>,
    pub fields: Vec<FieldConfig>,
}

/// The mathematical value of a [`RootConfig`].
pub struct RootConfigView {
    pub content: Seq<char>,
    pub library: Seq<char>,
}

/// The mathematical value of a [`FabricConfig`].
pub struct FabricConfigView {
    pub policy: Option<serde_json::Value>,
    pub root: RootConfigView,
}

/// The mathematical value of a [`FieldConfig`].
pub struct FieldConfigView {
    pub name: Seq<char>,
    pub field_type: Seq<char>,
    pub options: Option<serde_json::Value>,
    pub paths: Seq<Seq<char>>,
}

/// The mathematical value of an [`IndexerConfig`].
pub struct IndexerConfigView {
    pub indexer_type: Seq<char>,
    pub document: Option<serde_json::Value>,
    pub fields: Seq<FieldConfigView>,
}

impl View for RootConfig {
    type V = RootConfigView;

    open spec fn view(&self) -> RootConfigView {
        RootConfigView { content: self.content@, library: self.library@ }
    }
}

impl View for FabricConfig {
    type V = FabricConfigView;

    open spec fn view(&self) -> FabricConfigView {
        FabricConfigView { policy: self.policy, root: self.root@ }
    }
}

impl View for FieldConfig {
    type V = FieldConfigView;

    open spec fn view(&self) -> FieldConfigView {
        FieldConfigView {
            name: self.name@,
            field_type: self.field_type@,
            options: self.options,
            paths: texts(self.paths@),
        }
    }
}

impl View for IndexerConfig {
    type V = IndexerConfigView;

    open spec fn view(&self) -> IndexerConfigView {
        IndexerConfigView {
            indexer_type: self.indexer_type@,
            document: self.document,
            fields: field_views(self.fields@),
        }
    }
}

/// The value of each field of `fields`, in order.
pub open spec fn field_views(fields: Seq<FieldConfig>) -> Seq<FieldConfigView> {
    fields.map_values(|f: FieldConfig| f@)
}

impl IndexerConfigView {
    /// What holds of every configuration that was read: each field lists at least
    /// one path, and no two fields share a name.
    pub open spec fn well_formed(self) -> bool {
        &&& forall|i: int|
            0 <= i < self.fields.len() ==> (#[trigger] self.fields[i]).paths.len() >= 1
        &&& forall|i: int, j: int|
            0 <= i < j < self.fields.len() ==> self.fields[i].name != self.fields[j].name
    }
}

/// The text of the member `key` of `v`, where `v` has such a member and it is a
/// string.
pub open spec fn text_member(v: serde_json::Value, key: Seq<char>) -> Option<Seq<char>> {
    match json_get(v, key) {
        Some(found) => json_text(found),
        None => None,
    }
}

/// The texts of `elements`, in order, where each of them is a string.
pub open spec fn element_texts(elements: Seq<serde_json::Value>) -> Option<Seq<Seq<char>>>
    decreases elements.len(),
{
    if elements.len() == 0 {
        Some(Seq::empty())
    } else {
        match (element_texts(elements.drop_last()), json_text(elements.last())) {
            (Some(before), Some(text)) => Some(before.push(text)),
            _ => None,
        }
    }
}

/// The paths that the description `v` of a field lists: its member `paths`, where
/// that is an array of at least one string and of nothing else.
pub open spec fn listed_paths(v: serde_json::Value) -> Option<Seq<Seq<char>>> {
    match json_get(v, "paths"@) {
        Some(found) => match json_elements(found) {
            Some(elements) => match element_texts(elements) {
                Some(paths) => if paths.len() >= 1 {
                    Some(paths)
                } else {
                    None
                },
                None => None,
            },
            None => None,
        },
        None => None,
    }
}

/// The key of the configuration under which the member `member` of the field
/// `name` stands.
pub open spec fn field_key(name: Seq<char>, member: Seq<char>) -> Seq<char> {
    "indexer.arguments.fields."@ + name + "."@ + member
}

/// The field that the member `name` of the configuration's `fields` describes by
/// `v`. The type must be a string and the paths a list of strings that is not
/// empty; the options are taken as they stand, if there are any. The error names
/// the key that is missing or malformed, the type before the paths.
pub open spec fn parsed_field(name: Seq<char>, v: serde_json::Value) -> Result<
    FieldConfigView,
    CrawlErrorView,
> {
    match text_member(v, "type"@) {
        None => Err(CrawlErrorView::Config(field_key(name, "type"@))),
        Some(field_type) => match listed_paths(v) {
            None => Err(CrawlErrorView::Config(field_key(name, "paths"@))),
            Some(paths) => Ok(
                FieldConfigView {
                    name: name,
                    field_type: field_type,
                    options: json_get(v, "options"@),
                    paths: paths,
                },
            ),
        },
    }
}

/// The fields that `members` describe, in order, or the error of the first member
/// that describes none.
pub open spec fn parsed_fields(members: Seq<(Seq<char>, serde_json::Value)>) -> Result<
    Seq<FieldConfigView>,
    CrawlErrorView,
>
    decreases members.len(),
{
    if members.len() == 0 {
        Ok(Seq::empty())
    } else {
        match parsed_fields(members.drop_last()) {
            Err(e) => Err(e),
            Ok(fields) => match parsed_field(members.last().0, members.last().1) {
                Ok(field) => Ok(fields.push(field)),
                Err(e) => Err(e),
            },
        }
    }
}

/// The configuration that the document `v` holds.
///
/// `v` must have an object under `indexer`, in it an object under `arguments` and a
/// string under `type`, and under `arguments` an object under `fields` whose members
/// each describe a field. The error names the first key that is missing or
/// malformed, in the order `indexer`, `indexer.arguments`,
/// `indexer.arguments.fields`, the fields in their order, `indexer.type`.
pub open spec fn parsed_config(v: serde_json::Value) -> Result<IndexerConfigView, CrawlErrorView> {
    match json_get(v, "indexer"@) {
        None => Err(CrawlErrorView::Config("indexer"@)),
        Some(indexer) => match json_get(indexer, "arguments"@) {
            None => Err(CrawlErrorView::Config("indexer.arguments"@)),
            Some(arguments) => match json_get(arguments, "fields"@) {
                None => Err(CrawlErrorView::Config("indexer.arguments.fields"@)),
                Some(described) => match json_members(described) {
                    None => Err(CrawlErrorView::Config("indexer.arguments.fields"@)),
                    Some(members) => match parsed_fields(members) {
                        Err(e) => Err(e),
                        Ok(fields) => match text_member(indexer, "type"@) {
                            None => Err(CrawlErrorView::Config("indexer.type"@)),
                            Some(indexer_type) => Ok(
                                IndexerConfigView {
                                    indexer_type: indexer_type,
                                    document: json_get(arguments, "document"@),
                                    fields: fields,
                                },
                            ),
                        },
                    },
                },
            },
        },
    }
}

/// The starting point that the document `v` holds: under `fabric` an object with
/// `root`, and under that the strings `content` and `library`. The policy is taken
/// as it stands, if there is one. The error names the first key that is missing or
/// malformed.
pub open spec fn parsed_fabric(v: serde_json::Value) -> Result<FabricConfigView, CrawlErrorView> {
    match json_get(v, "fabric"@) {
        None => Err(CrawlErrorView::Config("fabric"@)),
        Some(fabric) => match json_get(fabric, "root"@) {
            None => Err(CrawlErrorView::Config("fabric.root"@)),
            Some(root) => match text_member(root, "content"@) {
                None => Err(CrawlErrorView::Config("fabric.root.content"@)),
                Some(content) => match text_member(root, "library"@) {
                    None => Err(CrawlErrorView::Config("fabric.root.library"@)),
                    Some(library) => Ok(
                        FabricConfigView {
                            policy: json_get(fabric, "policy"@),
                            root: RootConfigView { content: content, library: library },
                        },
                    ),
                },
            },
        },
    }
}

/// The mathematical value of the outcome of reading a field.
pub open spec fn field_outcome(res: Result<FieldConfig, CrawlError>) -> Result<
    FieldConfigView,
    CrawlErrorView,
> {
    match res {
        Ok(field) => Ok(field@),
        Err(e) => Err(e@),
    }
}

/// The mathematical value of the outcome of reading an indexer's configuration.
pub open spec fn config_outcome(res: Result<IndexerConfig, CrawlError>) -> Result<
    IndexerConfigView,
    CrawlErrorView,
> {
    match res {
        Ok(config) => Ok(config@),
        Err(e) => Err(e@),
    }
}

/// The mathematical value of the outcome of reading a starting point.
pub open spec fn fabric_outcome(res: Result<FabricConfig, CrawlError>) -> Result<
    FabricConfigView,
    CrawlErrorView,
> {
    match res {
        Ok(fabric) => Ok(fabric@),
        Err(e) => Err(e@),
    }
}

/// A failure among the first elements is a failure of the whole list.
proof fn lemma_element_texts_none(elements: Seq<serde_json::Value>, k: int)
    requires
        0 <= k <= elements.len(),
        element_texts(elements.take(k)) is None,
    ensures
        element_texts(elements) is None,
    decreases elements.len() - k,
{
    if k == elements.len() {
        assert(elements.take(k) =~= elements);
    } else {
        assert(elements.take(k + 1).drop_last() =~= elements.take(k));
        lemma_element_texts_none(elements, k + 1);
    }
}

/// An error among the first members is the error of the whole list.
proof fn lemma_parsed_fields_error(members: Seq<(Seq<char>, serde_json::Value)>, k: int)
    requires
        0 <= k <= members.len(),
        parsed_fields(members.take(k)) is Err,
    ensures
        parsed_fields(members) == parsed_fields(members.take(k)),
    decreases members.len() - k,
{
    if k == members.len() {
        assert(members.take(k) =~= members);
    } else {
        assert(members.take(k + 1).drop_last() =~= members.take(k));
        lemma_parsed_fields_error(members, k + 1);
    }
}

/// The fields that were read bear the keys of the members that describe them, and
/// each lists a path.
proof fn lemma_parsed_fields_names(members: Seq<(Seq<char>, serde_json::Value)>)
    requires
        parsed_fields(members) is Ok,
    ensures
        parsed_fields(members)->Ok_0.len() == members.len(),
        forall|i: int|
            0 <= i < members.len() ==> (#[trigger] parsed_fields(members)->Ok_0[i]).name
                == members[i].0,
        forall|i: int|
            0 <= i < members.len() ==> (#[trigger] parsed_fields(members)->Ok_0[i]).paths.len()
                >= 1,
    decreases members.len(),
{
    if members.len() > 0 {
        lemma_parsed_fields_names(members.drop_last());
    }
}

/// The text of the member `key` of `v`, where it has one that is a string.
fn read_text(v: &serde_json::Value, key: &str) -> (res: Option<String>)
    ensures
        text_member(*v, key@) == match res {
            Some(s) => Some(s@),
            None => None,
        },
{
    match value_get(v, key) {
        Some(found) => match value_as_str(found) {
            Some(text) => Some(String::from_str(text)),
            None => None,
        },
        None => None,
    }
}

/// A copy of the member `key` of `v`, where it has one.
fn read_member(v: &serde_json::Value, key: &str) -> (res: Option<serde_json::Value>)
    ensures
        res == json_get(*v, key@),
{
    match value_get(v, key) {
        Some(found) => Some(value_clone(found)),
        None => None,
    }
}

/// The paths that the description `v` of a field lists.
fn read_paths(v: &serde_json::Value) -> (res: Option<Vec<String>>)
    ensures
        listed_paths(*v) == match res {
            Some(paths) => Some(texts(paths@)),
            None => None,
        },
{
    let found = match value_get(v, "paths") {
        Some(found) => found,
        None => {
            return None;
        },
    };
    let elements = match value_as_array(found) {
        Some(elements) => elements,
        None => {
            return None;
        },
    };
    let mut paths: Vec<String> = Vec::new();
    let mut i: usize = 0;
    assert(texts(paths@) =~= Seq::empty());
    while i < elements.len()
        invariant
            i <= elements@.len(),
            json_get(*v, "paths"@) == Some(*found),
            json_elements(*found) == Some(elements@),
            element_texts(elements@.take(i as int)) == Some(texts(paths@)),
        decreases elements@.len() - i,
    {
        proof {
            assert(elements@.take(i + 1).drop_last() =~= elements@.take(i as int));
            assert(elements@.take(i + 1).last() == elements@[i as int]);
        }
        match value_as_str(&elements[i]) {
            Some(text) => {
                let ghost before = texts(paths@);
                let path = String::from_str(text);
                paths.push(path);
                assert(texts(paths@) =~= before.push(text@));
            },
            None => {
                proof {
                    lemma_element_texts_none(elements@, i + 1);
                }
                return None;
            },
        }
        i += 1;
    }
    assert(elements@.take(i as int) =~= elements@);
    if paths.len() >= 1 {
        Some(paths)
    } else {
        None
    }
}

/// The key of the configuration under which the member `member` of the field
/// `name` stands.
fn key_of_field(name: &str, member: &str) -> (res: String)
    ensures
        res@ == field_key(name@, member@),
{
    let mut key = String::from_str("indexer.arguments.fields.");
    key.append(name);
    key.append(".");
    key.append(member);
    key
}

impl FieldConfig {
    /// Reads the field that the member `name` of the configuration's `fields`
    /// describes by `v`.
    pub fn parse_field(name: &str, v: &serde_json::Value) -> (res: Result<FieldConfig, CrawlError>)
        ensures
            field_outcome(res) == parsed_field(name@, *v),
    {
        let field_type = match read_text(v, "type") {
            Some(field_type) => field_type,
            None => {
                return Err(CrawlError::Config(key_of_field(name, "type")));
            },
        };
        let paths = match read_paths(v) {
            Some(paths) => paths,
            None => {
                return Err(CrawlError::Config(key_of_field(name, "paths")));
            },
        };
        Ok(
            FieldConfig {
                name: String::from_str(name),
                field_type: field_type,
                options: read_member(v, "options"),
                paths: paths,
            },
        )
    }
}

impl IndexerConfig {
    /// Reads an indexer's configuration from the document `config_value`.
    pub fn parse_index_config(config_value: &serde_json::Value) -> (res: Result<
        IndexerConfig,
        CrawlError,
    >)
        ensures
            config_outcome(res) == parsed_config(*config_value),
            res matches Ok(config) ==> config@.well_formed(),
    {
        let indexer = match value_get(config_value, "indexer") {
            Some(indexer) => indexer,
            None => {
                return Err(CrawlError::Config(String::from_str("indexer")));
            },
        };
        let arguments = match value_get(indexer, "arguments") {
            Some(arguments) => arguments,
            None => {
                return Err(CrawlError::Config(String::from_str("indexer.arguments")));
            },
        };
        let described = match value_get(arguments, "fields") {
            Some(described) => described,
            None => {
                return Err(CrawlError::Config(String::from_str("indexer.arguments.fields")));
            },
        };
        let members = match value_members(described) {
            Some(members) => members,
            None => {
                return Err(CrawlError::Config(String::from_str("indexer.arguments.fields")));
            },
        };
        let ghost all = members_view(members@);
        let mut fields: Vec<FieldConfig> = Vec::new();
        let mut i: usize = 0;
        assert(field_views(fields@) =~= Seq::empty());
        while i < members.len()
            invariant
                i <= members@.len(),
                all == members_view(members@),
                json_get(*config_value, "indexer"@) == Some(*indexer),
                json_get(*indexer, "arguments"@) == Some(*arguments),
                json_get(*arguments, "fields"@) == Some(*described),
                json_members(*described) == Some(all),
                parsed_fields(all.take(i as int)) == Ok::<Seq<FieldConfigView>, CrawlErrorView>(
                    field_views(fields@),
                ),
            decreases members@.len() - i,
        {
            proof {
                assert(all.take(i + 1).drop_last() =~= all.take(i as int));
                assert(all.take(i + 1).last() == (members@[i as int].0@, *members@[i as int].1));
            }
            match FieldConfig::parse_field(members[i].0.as_str(), members[i].1) {
                Ok(field) => {
                    let ghost before = field_views(fields@);
                    fields.push(field);
                    assert(field_views(fields@) =~= before.push(field@));
                },
                Err(e) => {
                    proof {
                        lemma_parsed_fields_error(all, i + 1);
                    }
                    return Err(e);
                },
            }
            i += 1;
        }
        proof {
            assert(all.take(i as int) =~= all);
            lemma_parsed_fields_names(all);
        }
        let indexer_type = match read_text(indexer, "type") {
            Some(indexer_type) => indexer_type,
            None => {
                return Err(CrawlError::Config(String::from_str("indexer.type")));
            },
        };
        let config = IndexerConfig {
            indexer_type: indexer_type,
            document: read_member(arguments, "document"),
            fields: fields,
        };
        proof {
            assert(distinct_keys(all));
            assert(config@.fields == parsed_fields(all)->Ok_0);
        }
        Ok(config)
    }
}

impl FabricConfig {
    /// Reads the starting point of a crawl from the document `config_value`.
    pub fn parse_fabric_config(config_value: &serde_json::Value) -> (res: Result<
        FabricConfig,
        CrawlError,
    >)
        ensures
            fabric_outcome(res) == parsed_fabric(*config_value),
    {
        let fabric = match value_get(config_value, "fabric") {
            Some(fabric) => fabric,
            None => {
                return Err(CrawlError::Config(String::from_str("fabric")));
            },
        };
        let root = match value_get(fabric, "root") {
            Some(root) => root,
            None => {
                return Err(CrawlError::Config(String::from_str("fabric.root")));
            },
        };
        let content = match read_text(root, "content") {
            Some(content) => content,
            None => {
                return Err(CrawlError::Config(String::from_str("fabric.root.content")));
            },
        };
        let library = match read_text(root, "library") {
            Some(library) => library,
            None => {
                return Err(CrawlError::Config(String::from_str("fabric.root.library")));
            },
        };
        Ok(
            FabricConfig {
                policy: read_member(fabric, "policy"),
                root: RootConfig { content: content, library: library },
            },
        )
    }
}

/// Whether the index can hold a field of type `field_type`: it can hold `text` and
/// `string`.
pub open spec fn supported_type(field_type: Seq<char>) -> bool {
    field_type == "text"@ || field_type == "string"@
}

/// Whether the index can hold a field of type `field_type`.
pub fn is_supported_type(field_type: &str) -> (res: bool)
    ensures
        res == supported_type(field_type@),
{
    same_text(field_type, "text") || same_text(field_type, "string")
}

/// One field of the index's schema, as the index engine is asked to add it.
#[derive(Debug, PartialEq, Eq)]
pub struct SchemaField {
    pub name: String,
    pub text_option: u8,
    pub stored: bool,
}

/// The mathematical value of a [`SchemaField`].
pub struct SchemaFieldView {
    pub name: Seq<char>,
    pub text_option: u8,
    pub stored: bool,
}

impl View for SchemaField {
    type V = SchemaFieldView;

    open spec fn view(&self) -> SchemaFieldView {
        SchemaFieldView { name: self.name@, text_option: self.text_option, stored: self.stored }
    }
}

/// The value of each field of `schema`, in order.
pub open spec fn schema_views(schema: Seq<SchemaField>) -> Seq<SchemaFieldView> {
    schema.map_values(|f: SchemaField| f@)
}

/// The schema of an index: the fields that the index engine is asked to add, in
/// order.
#[derive(Debug, PartialEq, Eq)]
pub struct Indexer {
    pub schema: Vec<SchemaField>,
}

impl View for Indexer {
    type V = Seq<SchemaFieldView>;

    open spec fn view(&self) -> Seq<SchemaFieldView> {
        schema_views(self.schema@)
    }
}

/// The field of the schema that stands for `field`: a stored text field of option 1
/// under the field's name, for a field of a supported type; none for any other.
pub open spec fn schema_field(field: FieldConfigView) -> Result<SchemaFieldView, CrawlErrorView> {
    if supported_type(field.field_type) {
        Ok(SchemaFieldView { name: field.name, text_option: 1, stored: true })
    } else {
        Err(CrawlErrorView::UnsupportedFieldType(field.name))
    }
}

/// The schema for `fields`: one field of the schema for each, in order, or the
/// error of the first field that has none.
pub open spec fn schema_of(fields: Seq<FieldConfigView>) -> Result<
    Seq<SchemaFieldView>,
    CrawlErrorView,
>
    decreases fields.len(),
{
    if fields.len() == 0 {
        Ok(Seq::empty())
    } else {
        match schema_of(fields.drop_last()) {
            Err(e) => Err(e),
            Ok(schema) => match schema_field(fields.last()) {
                Ok(field) => Ok(schema.push(field)),
                Err(e) => Err(e),
            },
        }
    }
}

/// The mathematical value of the outcome of building a schema.
pub open spec fn indexer_outcome(res: Result<Indexer, CrawlError>) -> Result<
    Seq<SchemaFieldView>,
    CrawlErrorView,
> {
    match res {
        Ok(indexer) => Ok(indexer@),
        Err(e) => Err(e@),
    }
}

/// An error among the first fields is the error of the whole list.
proof fn lemma_schema_of_error(fields: Seq<FieldConfigView>, k: int)
    requires
        0 <= k <= fields.len(),
        schema_of(fields.take(k)) is Err,
    ensures
        schema_of(fields) == schema_of(fields.take(k)),
    decreases fields.len() - k,
{
    if k == fields.len() {
        assert(fields.take(k) =~= fields);
    } else {
        assert(fields.take(k + 1).drop_last() =~= fields.take(k));
        lemma_schema_of_error(fields, k + 1);
    }
}

/// A schema is refused exactly where some field has a type that is not supported,
/// and the error then names the first such field. Where it is not refused it holds
/// one field for each field of the configuration, under the same name.
pub proof fn law_schema_of(fields: Seq<FieldConfigView>)
    ensures
        schema_of(fields) is Err <==> exists|i: int|
            0 <= i < fields.len() && !supported_type(#[trigger] fields[i].field_type),
        schema_of(fields) matches Err(e) ==> exists|i: int|
            0 <= i < fields.len() && !supported_type(#[trigger] fields[i].field_type) && e
                == CrawlErrorView::UnsupportedFieldType(fields[i].name) && forall|k: int|
                0 <= k < i ==> supported_type(#[trigger] fields[k].field_type),
        schema_of(fields) matches Ok(schema) ==> schema.len() == fields.len() && forall|i: int|
            0 <= i < fields.len() ==> (#[trigger] schema[i]).name == fields[i].name,
    decreases fields.len(),
{
    if fields.len() > 0 {
        let before = fields.drop_last();
        law_schema_of(before);
        match schema_of(before) {
            Err(e) => {
                let i = choose|i: int|
                    0 <= i < before.len() && !supported_type(#[trigger] before[i].field_type) && e
                        == CrawlErrorView::UnsupportedFieldType(before[i].name) && forall|k: int|
                        0 <= k < i ==> supported_type(#[trigger] before[k].field_type);
                assert(fields[i] == before[i]);
                assert forall|k: int| 0 <= k < i implies supported_type(
                    #[trigger] fields[k].field_type,
                ) by {
                    assert(fields[k] == before[k]);
                }
            },
            Ok(schema) => {
                if supported_type(fields.last().field_type) {
                    assert forall|i: int| 0 <= i < fields.len() implies supported_type(
                        #[trigger] fields[i].field_type,
                    ) by {
                        if i < before.len() {
                            assert(fields[i] == before[i]);
                        }
                    }
                } else {
                    let i = fields.len() - 1;
                    assert(!supported_type(fields[i].field_type));
                    assert forall|k: int| 0 <= k < i implies supported_type(
                        #[trigger] fields[k].field_type,
                    ) by {
                        assert(fields[k] == before[k]);
                    }
                }
            },
        }
    }
}

impl Indexer {
    /// Builds the schema of the index that `indexer_config` describes.
    pub fn create_index(indexer_config: &IndexerConfig) -> (res: Result<Indexer, CrawlError>)
        ensures
            indexer_outcome(res) == schema_of(indexer_config@.fields),
    {
        let ghost fields = indexer_config@.fields;
        let mut schema: Vec<SchemaField> = Vec::new();
        let mut i: usize = 0;
        assert(schema_views(schema@) =~= Seq::empty());
        while i < indexer_config.fields.len()
            invariant
                i <= indexer_config.fields@.len(),
                fields == indexer_config@.fields,
                schema_of(fields.take(i as int)) == Ok::<Seq<SchemaFieldView>, CrawlErrorView>(
                    schema_views(schema@),
                ),
            decreases indexer_config.fields@.len() - i,
        {
            let field = &indexer_config.fields[i];
            proof {
                assert(fields.take(i + 1).drop_last() =~= fields.take(i as int));
                assert(fields.take(i + 1).last() == field@);
            }
            if is_supported_type(field.field_type.as_str()) {
                let ghost before = schema_views(schema@);
                let added = SchemaField { name: field.name.clone(), text_option: 1, stored: true };
                schema.push(added);
                assert(schema_views(schema@) =~= before.push(added@));
            } else {
                proof {
                    lemma_schema_of_error(fields, i + 1);
                }
                return Err(CrawlError::UnsupportedFieldType(field.name.clone()));
            }
            i += 1;
        }
        assert(fields.take(i as int) =~= fields);
        Ok(Indexer { schema: schema })
    }
}

} // verus!
