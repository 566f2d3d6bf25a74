//! A crawl as a sequence of requests to the host, and the links between objects.
//!
//! The crawl itself calls nobody. [`Crawler::start`] and [`Crawler::resume`] each
//! return the next request; the caller performs it against the content store or
//! the index engine and hands the reply to `resume`, until a step ends the crawl.

use vstd::prelude::*;
use vstd::string::*;
use crate::error::CrawlError;
use crate::error::CrawlErrorView;
use crate::indexer::parsed_config;
use crate::indexer::parsed_fabric;
use crate::indexer::law_schema_of;
use crate::indexer::schema_of;
use crate::indexer::supported_type;
use crate::indexer::schema_views;
use crate::indexer::text_member;
use crate::indexer::FabricConfig;
use crate::indexer::FabricConfigView;
use crate::indexer::Indexer;
use crate::indexer::IndexerConfig;
use crate::indexer::IndexerConfigView;
use crate::indexer::SchemaField;
use crate::indexer::SchemaFieldView;
use crate::json::json_elements;
use crate::json::json_get;
use crate::json::json_parsed;
use crate::json::json_u64;
use crate::json::parse_value;
use crate::json::value_as_array;
use crate::json::value_as_str;
use crate::json::value_as_u64;
use crate::json::value_clone;
use crate::json::value_get;
use crate::trie::built;
use crate::trie::PathToFieldsNode;
use crate::walk::crawl_meta;
use crate::walk::extracted_all;
use crate::walk::matched;
use crate::walk::write_views;
use crate::walk::FieldWrite;
use crate::walk::FieldWriteView;

verus! {

/// A reference from one metadata subtree to another, held in absolute form.
#[derive(Debug, PartialEq, Eq)]
pub struct FabricLink {
    pub link: String,
}

/// Whether a link is written relative to the object that holds it: it begins with
/// `./`.
pub open spec fn is_relative(link: Seq<char>) -> bool {
    link.len() >= 2 && link[0] == '.' && link[1] == '/'
}

/// The absolute form of `link` as found in the object with hash `parent`: a relative
/// link is placed under `/qfab/`, the hash and `/`; any other link stands as it is.
pub open spec fn absolute_link(link: Seq<char>, parent: Seq<char>) -> Seq<char> {
    if is_relative(link) {
        seq!['/', 'q', 'f', 'a', 'b', '/'] + parent + seq!['/'] + link.skip(2)
    } else {
        link
    }
}

impl FabricLink {
    /// The link `link` as found in the object with hash `parent_hash`.
    pub fn new(link: &str, parent_hash: &str) -> (res: FabricLink)
        ensures
            res.link@ == absolute_link(link@, parent_hash@),
    {
        let n = link.unicode_len();
        if n >= 2 && link.get_char(0) == '.' && link.get_char(1) == '/' {
            proof {
                reveal_strlit("/qfab/");
                reveal_strlit("/");
            }
            let mut out = String::from_str("/qfab/");
            out.append(parent_hash);
            out.append("/");
            out.append(link.substring_char(2, n));
            assert(out@ =~= absolute_link(link@, parent_hash@));
            FabricLink { link: out }
        } else {
            FabricLink { link: String::from_str(link) }
        }
    }
}

/// The body of a reply of the host: what stands under `result`, `http`, `body`,
/// or, in a reply without `result`, under `http`, `body`.
pub open spec fn reply_body(v: serde_json::Value) -> Option<serde_json::Value> {
    let carrier = match json_get(v, "result"@) {
        Some(result) => json_get(result, "http"@),
        None => json_get(v, "http"@),
    };
    match carrier {
        Some(http) => json_get(http, "body"@),
        None => None,
    }
}

/// The number that stands under `key` in the body of the reply `v`.
pub open spec fn reply_number(v: serde_json::Value, key: Seq<char>) -> Option<u64> {
    match reply_body(v) {
        Some(body) => match json_get(body, key) {
            Some(number) => json_u64(number),
            None => None,
        },
        None => None,
    }
}

/// The hash of the first version that the reply `v` lists under `versions`.
pub open spec fn first_version(v: serde_json::Value) -> Option<Seq<char>> {
    match json_get(v, "versions"@) {
        Some(listed) => match json_elements(listed) {
            Some(versions) => if versions.len() >= 1 {
                text_member(versions[0], "hash"@)
            } else {
                None
            },
            None => None,
        },
        None => None,
    }
}

/// The body of a reply of the host.
pub fn extract_body<'a>(v: &'a serde_json::Value) -> (res: Option<&'a serde_json::Value>)
    ensures
        reply_body(*v) == match res {
            Some(body) => Some(*body),
            None => None,
        },
{
    let carrier = match value_get(v, "result") {
        Some(result) => value_get(result, "http"),
        None => value_get(v, "http"),
    };
    match carrier {
        Some(http) => value_get(http, "body"),
        None => None,
    }
}

/// The number that stands under `key` in the body of the reply `v`.
pub fn number_in_reply(v: &serde_json::Value, key: &str) -> (res: Option<u64>)
    ensures
        res == reply_number(*v, key@),
{
    match extract_body(v) {
        Some(body) => match value_get(body, key) {
            Some(number) => value_as_u64(number),
            None => None,
        },
        None => None,
    }
}

/// The hash of the version of the root object that is crawled: the first that the
/// reply `v` lists. The content store is relied on to list the newest version first.
pub fn root_version(v: &serde_json::Value) -> (res: Option<String>)
    ensures
        first_version(*v) == match res {
            Some(hash) => Some(hash@),
            None => None,
        },
{
    let listed = match value_get(v, "versions") {
        Some(listed) => listed,
        None => {
            return None;
        },
    };
    let versions = match value_as_array(listed) {
        Some(versions) => versions,
        None => {
            return None;
        },
    };
    if versions.len() >= 1 {
        match value_get(&versions[0], "hash") {
            Some(hash) => match value_as_str(hash) {
                Some(text) => Some(String::from_str(text)),
                None => None,
            },
            None => None,
        }
    } else {
        None
    }
}

/// What the host is asked to do.
#[derive(Debug, PartialEq, Eq)]
pub enum HostRequest {
    /// Ask the index engine for a schema builder over the directory.
    NewIndexBuilder { directory: String },
    /// Add a text field to the schema.
    BuilderAddTextField { name: String, text_option: u8, stored: bool },
    /// Build the schema.
    BuilderBuild,
    /// Ask the content store for the versions of an object.
    GetVersions { content: String },
    /// Open the writer of the index.
    CreateWriter,
    /// Ask the content store for the metadata of a version of an object.
    GetMetadata { library: String, hash: String },
    /// Ask the index engine for a new document.
    CreateDocument,
    /// Add a text to a field of a document.
    DocumentAddText { doc: u64, field: String, value: String },
    /// Commit the writer.
    CommitWriter,
    /// Archive the index that was built in the directory.
    ArchiveIndex { directory: String },
}

/// The mathematical value of a [`HostRequest`].
pub enum HostRequestView {
    NewIndexBuilder { directory: Seq<char> },
    BuilderAddTextField { name: Seq<char>, text_option: u8, stored: bool },
    BuilderBuild,
    GetVersions { content: Seq<char> },
    CreateWriter,
    GetMetadata { library: Seq<char>, hash: Seq<char> },
    CreateDocument,
    DocumentAddText { doc: u64, field: Seq<char>, value: Seq<char> },
    CommitWriter,
    ArchiveIndex { directory: Seq<char> },
}

impl View for HostRequest {
    type V = HostRequestView;

    open spec fn view(&self) -> HostRequestView {
        match self {
            HostRequest::NewIndexBuilder { directory } => HostRequestView::NewIndexBuilder {
                directory: directory@,
            },
            HostRequest::BuilderAddTextField {
                name,
                text_option,
                stored,
            } => HostRequestView::BuilderAddTextField {
                name: name@,
                text_option: *text_option,
                stored: *stored,
            },
            HostRequest::BuilderBuild => HostRequestView::BuilderBuild,
            HostRequest::GetVersions { content } => HostRequestView::GetVersions {
                content: content@,
            },
            HostRequest::CreateWriter => HostRequestView::CreateWriter,
            HostRequest::GetMetadata { library, hash } => HostRequestView::GetMetadata {
                library: library@,
                hash: hash@,
            },
            HostRequest::CreateDocument => HostRequestView::CreateDocument,
            HostRequest::DocumentAddText { doc, field, value } => HostRequestView::DocumentAddText {
                doc: *doc,
                field: field@,
                value: value@,
            },
            HostRequest::CommitWriter => HostRequestView::CommitWriter,
            HostRequest::ArchiveIndex { directory } => HostRequestView::ArchiveIndex {
                directory: directory@,
            },
        }
    }
}

/// What a crawl does next.
#[derive(Debug, PartialEq, Eq)]
pub enum Step {
    /// The host is to perform the request, and the crawl to be resumed with its
    /// reply.
    Call(HostRequest),
    /// The crawl is complete. The value describes the archived index, where the
    /// host's last reply had a body.
    Done(Option<serde_json::Value>),
    /// The crawl was given up.
    Failed(CrawlError),
}

/// The mathematical value of a [`Step`].
pub enum StepView {
    Call(HostRequestView),
    Done(Option<serde_json::Value>),
    Failed(CrawlErrorView),
}

impl View for Step {
    type V = StepView;

    open spec fn view(&self) -> StepView {
        match self {
            Step::Call(request) => StepView::Call(request@),
            Step::Done(artifact) => StepView::Done(*artifact),
            Step::Failed(e) => StepView::Failed(e@),
        }
    }
}

/// Where a crawl stands: before its first request, waiting for the reply to the
/// request that the phase is named after, or at its end.
#[derive(Clone, Copy, Debug, PartialEq, Eq)]
pub enum Phase {
    Start,
    Builder,
    Schema,
    Build,
    Versions,
    Writer,
    Metadata,
    Document,
    Writes,
    Commit,
    Archive,
    Finished,
    Failed,
}

/// One crawl: the configuration it follows, and how far it has come.
pub struct Crawler {
    indexer_config: IndexerConfig,
    fabric_config: FabricConfig,
    phase: Phase,
    schema: Vec<SchemaField>,
    cursor: usize,
    root_hash: String,
    metadata: Option<serde_json::Value>,
    writes: Vec<FieldWrite>,
}

/// The mathematical value of a [`Crawler`].
///
/// `cursor` counts the fields of the schema, or the writes of the document, that
/// have been handed to the host in the current phase.
pub struct CrawlerView {
    pub config: IndexerConfigView,
    pub fabric: FabricConfigView,
    pub phase: Phase,
    pub schema: Seq<SchemaFieldView>,
    pub cursor: usize,
    pub root_hash: Seq<char>,
    pub metadata: Option<serde_json::Value>,
    pub writes: Seq<FieldWriteView>,
}

impl View for Crawler {
    type V = CrawlerView;

    closed spec fn view(&self) -> CrawlerView {
        CrawlerView {
            config: self.indexer_config@,
            fabric: self.fabric_config@,
            phase: self.phase,
            schema: schema_views(self.schema@),
            cursor: self.cursor,
            root_hash: self.root_hash@,
            metadata: self.metadata,
            writes: write_views(self.writes@),
        }
    }
}

/// The reply of the host to a request: the bytes it returned, or the text of its
/// failure.
pub type Reply = Result<Seq<u8>, Seq<char>>;

/// The mathematical value of a reply.
pub open spec fn reply_view(reply: Result<Vec<u8>, String>) -> Reply {
    match reply {
        Ok(bytes) => Ok(bytes@),
        Err(text) => Err(text@),
    }
}

/// A crawl of `config` from `fabric` that has not begun.
pub open spec fn initial(config: IndexerConfigView, fabric: FabricConfigView) -> CrawlerView {
    CrawlerView {
        config: config,
        fabric: fabric,
        phase: Phase::Start,
        schema: Seq::empty(),
        cursor: 0,
        root_hash: Seq::empty(),
        metadata: None,
        writes: Seq::empty(),
    }
}

/// The crawl is given up with the error `e`.
pub open spec fn failed(s: CrawlerView, e: CrawlErrorView) -> (CrawlerView, StepView) {
    (CrawlerView { phase: Phase::Failed, ..s }, StepView::Failed(e))
}

/// The crawl asks for `request` and waits in `phase`.
pub open spec fn asked(s: CrawlerView, phase: Phase, request: HostRequestView) -> (
    CrawlerView,
    StepView,
) {
    (CrawlerView { phase: phase, ..s }, StepView::Call(request))
}

/// The directory in which the index is built.
pub open spec fn index_directory() -> Seq<char> {
    "index"@
}

/// The next field of the schema is added, or, when all have been, the schema is
/// built.
pub open spec fn schema_step(s: CrawlerView) -> (CrawlerView, StepView) {
    if s.cursor < s.schema.len() {
        let field = s.schema[s.cursor as int];
        asked(
            CrawlerView { cursor: (s.cursor + 1) as usize, ..s },
            Phase::Schema,
            HostRequestView::BuilderAddTextField {
                name: field.name,
                text_option: field.text_option,
                stored: field.stored,
            },
        )
    } else {
        asked(s, Phase::Build, HostRequestView::BuilderBuild)
    }
}

/// The next write of the document is made, or, when all have been, the writer is
/// committed.
pub open spec fn writes_step(s: CrawlerView) -> (CrawlerView, StepView) {
    if s.cursor < s.writes.len() {
        let write = s.writes[s.cursor as int];
        asked(
            CrawlerView { cursor: (s.cursor + 1) as usize, ..s },
            Phase::Writes,
            HostRequestView::DocumentAddText {
                doc: write.doc,
                field: write.field,
                value: write.value,
            },
        )
    } else {
        asked(s, Phase::Commit, HostRequestView::CommitWriter)
    }
}

/// The first step of a crawl. The schema is made from the configured fields before
/// the host is asked for anything: a field of an unsupported type ends the crawl
/// here. Otherwise the index engine is asked for a schema builder.
pub open spec fn started(s: CrawlerView) -> (CrawlerView, StepView) {
    match s.phase {
        Phase::Start => match schema_of(s.config.fields) {
            Err(e) => failed(s, e),
            Ok(schema) => asked(
                CrawlerView { schema: schema, ..s },
                Phase::Builder,
                HostRequestView::NewIndexBuilder { directory: index_directory() },
            ),
        },
        _ => failed(s, CrawlErrorView::HostCall("the crawl has begun"@)),
    }
}

/// The number that the reply `bytes` carries under `key` in its body.
pub open spec fn number_replied(bytes: Seq<u8>, key: Seq<char>) -> Option<u64> {
    match json_parsed(bytes) {
        Some(v) => reply_number(v, key),
        None => None,
    }
}

/// The hash of the first version that the reply `bytes` lists.
pub open spec fn version_replied(bytes: Seq<u8>) -> Option<Seq<char>> {
    match json_parsed(bytes) {
        Some(v) => first_version(v),
        None => None,
    }
}

/// The step that follows the document's creation: the metadata is walked with the
/// trie of the configured fields, and the writes that the walk gives are made one
/// by one.
pub open spec fn document_step(s: CrawlerView, doc: u64) -> (CrawlerView, StepView) {
    match s.metadata {
        Some(meta) => match extracted_all(matched(meta, built(s.config.fields)), doc) {
            Ok(writes) => writes_step(CrawlerView { writes: writes, cursor: 0, ..s }),
            Err(e) => failed(s, e),
        },
        None => failed(s, CrawlErrorView::MalformedMetadata("metadata"@)),
    }
}

/// The step that the reply `reply` to the outstanding request leads to.
///
/// A failure of the host ends the crawl, whatever was asked. So does a reply that
/// lacks what the crawl needs of it: the identifier of a field that was added, a
/// version of the root object, metadata that is JSON, the identifier of the
/// document. The requests follow one another in this order: schema builder, each
/// field of the schema, build, versions of the root object, writer, metadata of
/// the first version, document, each write of the walk, commit, archive.
pub open spec fn resumed(s: CrawlerView, reply: Reply) -> (CrawlerView, StepView) {
    match s.phase {
        Phase::Start | Phase::Finished | Phase::Failed => failed(
            s,
            CrawlErrorView::HostCall("no request is outstanding"@),
        ),
        _ => match reply {
            Err(text) => failed(s, CrawlErrorView::HostCall(text)),
            Ok(bytes) => match s.phase {
                Phase::Builder => schema_step(CrawlerView { cursor: 0, ..s }),
                Phase::Schema => match number_replied(bytes, "field"@) {
                    Some(_) => schema_step(s),
                    None => failed(s, CrawlErrorView::HostCall("could not find key field"@)),
                },
                Phase::Build => asked(
                    s,
                    Phase::Versions,
                    HostRequestView::GetVersions { content: s.fabric.root.content },
                ),
                Phase::Versions => match version_replied(bytes) {
                    Some(hash) => asked(
                        CrawlerView { root_hash: hash, ..s },
                        Phase::Writer,
                        HostRequestView::CreateWriter,
                    ),
                    None => failed(s, CrawlErrorView::HostCall("could not find a version"@)),
                },
                Phase::Writer => asked(
                    s,
                    Phase::Metadata,
                    HostRequestView::GetMetadata {
                        library: s.fabric.root.library,
                        hash: s.root_hash,
                    },
                ),
                Phase::Metadata => match json_parsed(bytes) {
                    Some(meta) => asked(
                        CrawlerView { metadata: Some(meta), ..s },
                        Phase::Document,
                        HostRequestView::CreateDocument,
                    ),
                    None => failed(s, CrawlErrorView::MalformedMetadata("metadata"@)),
                },
                Phase::Document => match number_replied(bytes, "document-create-id"@) {
                    Some(doc) => document_step(s, doc),
                    None => failed(
                        s,
                        CrawlErrorView::HostCall("could not find key document-create-id"@),
                    ),
                },
                Phase::Writes => writes_step(s),
                Phase::Commit => asked(
                    s,
                    Phase::Archive,
                    HostRequestView::ArchiveIndex { directory: index_directory() },
                ),
                Phase::Archive => match json_parsed(bytes) {
                    Some(v) => (
                        CrawlerView { phase: Phase::Finished, ..s },
                        StepView::Done(reply_body(v)),
                    ),
                    None => failed(s, CrawlErrorView::MalformedMetadata("archive"@)),
                },
                _ => failed(s, CrawlErrorView::HostCall("no request is outstanding"@)),
            },
        },
    }
}

/// The crawl that the configuration document `bytes` asks for: the document must
/// be JSON and hold an indexer's configuration and a starting point.
pub open spec fn configured(bytes: Seq<u8>) -> Result<CrawlerView, CrawlErrorView> {
    match json_parsed(bytes) {
        None => Err(CrawlErrorView::MalformedMetadata("configuration"@)),
        Some(v) => match parsed_config(v) {
            Err(e) => Err(e),
            Ok(config) => match parsed_fabric(v) {
                Err(e) => Err(e),
                Ok(fabric) => Ok(initial(config, fabric)),
            },
        },
    }
}

/// The mathematical value of the outcome of setting up a crawl.
pub open spec fn crawler_outcome(res: Result<Crawler, CrawlError>) -> Result<
    CrawlerView,
    CrawlErrorView,
> {
    match res {
        Ok(crawler) => Ok(crawler@),
        Err(e) => Err(e@),
    }
}

impl Crawler {
    /// A crawl of `indexer_config` from `fabric_config` that has not begun.
    pub fn new(indexer_config: IndexerConfig, fabric_config: FabricConfig) -> (res: Crawler)
        ensures
            res@ == initial(indexer_config@, fabric_config@),
    {
        let res = Crawler {
            indexer_config: indexer_config,
            fabric_config: fabric_config,
            phase: Phase::Start,
            schema: Vec::new(),
            cursor: 0,
            root_hash: String::from_str(""),
            metadata: None,
            writes: Vec::new(),
        };
        proof {
            reveal_strlit("");
            assert(res@.root_hash =~= Seq::empty());
            assert(res@.schema =~= Seq::empty());
            assert(res@.writes =~= Seq::empty());
        }
        res
    }

    /// The crawl that the configuration document `bytes` asks for.
    pub fn from_config(bytes: &[u8]) -> (res: Result<Crawler, CrawlError>)
        ensures
            crawler_outcome(res) == configured(bytes@),
    {
        let v = match parse_value(bytes) {
            Ok(v) => v,
            Err(_) => {
                return Err(CrawlError::MalformedMetadata(String::from_str("configuration")));
            },
        };
        let indexer_config = match IndexerConfig::parse_index_config(&v) {
            Ok(config) => config,
            Err(e) => {
                return Err(e);
            },
        };
        let fabric_config = match FabricConfig::parse_fabric_config(&v) {
            Ok(fabric) => fabric,
            Err(e) => {
                return Err(e);
            },
        };
        Ok(Crawler::new(indexer_config, fabric_config))
    }

    /// Whether the crawl waits for the reply to a request.
    pub fn is_waiting(&self) -> (res: bool)
        ensures
            res == !(self@.phase is Start || self@.phase is Finished || self@.phase is Failed),
    {
        match self.phase {
            Phase::Start | Phase::Finished | Phase::Failed => false,
            _ => true,
        }
    }

    fn fail(&mut self, e: CrawlError) -> (step: Step)
        ensures
            (final(self)@, step@) == failed(old(self)@, e@),
    {
        self.phase = Phase::Failed;
        Step::Failed(e)
    }

    fn ask(&mut self, phase: Phase, request: HostRequest) -> (step: Step)
        ensures
            (final(self)@, step@) == asked(old(self)@, phase, request@),
    {
        self.phase = phase;
        Step::Call(request)
    }

    fn next_schema_field(&mut self) -> (step: Step)
        ensures
            (final(self)@, step@) == schema_step(old(self)@),
    {
        if self.cursor < self.schema.len() {
            let field = &self.schema[self.cursor];
            let request = HostRequest::BuilderAddTextField {
                name: field.name.clone(),
                text_option: field.text_option,
                stored: field.stored,
            };
            self.cursor = self.cursor + 1;
            self.ask(Phase::Schema, request)
        } else {
            self.ask(Phase::Build, HostRequest::BuilderBuild)
        }
    }

    fn next_write(&mut self) -> (step: Step)
        ensures
            (final(self)@, step@) == writes_step(old(self)@),
    {
        if self.cursor < self.writes.len() {
            let write = &self.writes[self.cursor];
            let request = HostRequest::DocumentAddText {
                doc: write.doc,
                field: write.field.clone(),
                value: write.value.clone(),
            };
            self.cursor = self.cursor + 1;
            self.ask(Phase::Writes, request)
        } else {
            self.ask(Phase::Commit, HostRequest::CommitWriter)
        }
    }

    fn walk_document(&mut self, doc: u64) -> (step: Step)
        ensures
            (final(self)@, step@) == document_step(old(self)@, doc),
    {
        let outcome = match &self.metadata {
            Some(meta) => {
                let trie = PathToFieldsNode::new_from_fields(&self.indexer_config.fields);
                crawl_meta(meta, &trie, doc)
            },
            None => Err(CrawlError::MalformedMetadata(String::from_str("metadata"))),
        };
        match outcome {
            Ok(writes) => {
                self.writes = writes;
                self.cursor = 0;
                self.next_write()
            },
            Err(e) => self.fail(e),
        }
    }

    /// Begins the crawl and returns its first step.
    pub fn start(&mut self) -> (step: Step)
        ensures
            (final(self)@, step@) == started(old(self)@),
    {
        match self.phase {
            Phase::Start => match Indexer::create_index(&self.indexer_config) {
                Err(e) => self.fail(e),
                Ok(indexer) => {
                    self.schema = indexer.schema;
                    self.ask(
                        Phase::Builder,
                        HostRequest::NewIndexBuilder { directory: String::from_str("index") },
                    )
                },
            },
            _ => self.fail(CrawlError::HostCall(String::from_str("the crawl has begun"))),
        }
    }

    /// Takes the host's reply to the outstanding request and returns the step that
    /// follows.
    pub fn resume(&mut self, reply: Result<Vec<u8>, String>) -> (step: Step)
        ensures
            (final(self)@, step@) == resumed(old(self)@, reply_view(reply)),
    {
        if !self.is_waiting() {
            return self.fail(CrawlError::HostCall(String::from_str("no request is outstanding")));
        }
        let bytes = match reply {
            Ok(bytes) => bytes,
            Err(text) => {
                return self.fail(CrawlError::HostCall(text));
            },
        };
        match self.phase {
            Phase::Builder => {
                self.cursor = 0;
                self.next_schema_field()
            },
            Phase::Schema => {
                let field = match parse_value(bytes.as_slice()) {
                    Ok(v) => number_in_reply(&v, "field"),
                    Err(_) => None,
                };
                match field {
                    Some(_) => self.next_schema_field(),
                    None => self.fail(
                        CrawlError::HostCall(String::from_str("could not find key field")),
                    ),
                }
            },
            Phase::Build => {
                let content = self.fabric_config.root.content.clone();
                self.ask(Phase::Versions, HostRequest::GetVersions { content: content })
            },
            Phase::Versions => {
                let version = match parse_value(bytes.as_slice()) {
                    Ok(v) => root_version(&v),
                    Err(_) => None,
                };
                match version {
                    Some(hash) => {
                        self.root_hash = hash;
                        self.ask(Phase::Writer, HostRequest::CreateWriter)
                    },
                    None => self.fail(
                        CrawlError::HostCall(String::from_str("could not find a version")),
                    ),
                }
            },
            Phase::Writer => {
                let library = self.fabric_config.root.library.clone();
                let hash = self.root_hash.clone();
                self.ask(Phase::Metadata, HostRequest::GetMetadata { library: library, hash: hash })
            },
            Phase::Metadata => match parse_value(bytes.as_slice()) {
                Ok(meta) => {
                    self.metadata = Some(meta);
                    self.ask(Phase::Document, HostRequest::CreateDocument)
                },
                Err(_) => self.fail(CrawlError::MalformedMetadata(String::from_str("metadata"))),
            },
            Phase::Document => {
                let doc = match parse_value(bytes.as_slice()) {
                    Ok(v) => number_in_reply(&v, "document-create-id"),
                    Err(_) => None,
                };
                match doc {
                    Some(doc) => self.walk_document(doc),
                    None => self.fail(
                        CrawlError::HostCall(
                            String::from_str("could not find key document-create-id"),
                        ),
                    ),
                }
            },
            Phase::Writes => self.next_write(),
            Phase::Commit => self.ask(
                Phase::Archive,
                HostRequest::ArchiveIndex { directory: String::from_str("index") },
            ),
            Phase::Archive => match parse_value(bytes.as_slice()) {
                Ok(v) => {
                    let artifact = match extract_body(&v) {
                        Some(body) => Some(value_clone(body)),
                        None => None,
                    };
                    self.phase = Phase::Finished;
                    Step::Done(artifact)
                },
                Err(_) => self.fail(CrawlError::MalformedMetadata(String::from_str("archive"))),
            },
            _ => self.fail(CrawlError::HostCall(String::from_str("no request is outstanding"))),
        }
    }
}

/// The steps that a crawl in state `s` takes as the host's `replies` come in, one
/// step for each reply.
pub open spec fn steps_after(s: CrawlerView, replies: Seq<Reply>) -> Seq<StepView>
    decreases replies.len(),
{
    if replies.len() == 0 {
        Seq::empty()
    } else {
        let (next, step) = resumed(s, replies[0]);
        seq![step] + steps_after(next, replies.drop_first())
    }
}

/// The steps of a whole crawl from the state `s`: its first step, and one step for
/// each of the host's `replies`.
pub open spec fn steps(s: CrawlerView, replies: Seq<Reply>) -> Seq<StepView> {
    let (next, step) = started(s);
    seq![step] + steps_after(next, replies)
}

/// A crawl that was given up stays given up: whatever the host replies, every
/// further step is a failure, and nothing more is asked of the host.
pub proof fn law_failure_is_final(s: CrawlerView, replies: Seq<Reply>, k: int)
    requires
        s.phase is Failed,
        0 <= k < replies.len(),
    ensures
        steps_after(s, replies).len() == replies.len(),
        steps_after(s, replies)[k] is Failed,
    decreases replies.len(),
{
    let (next, step) = resumed(s, replies[0]);
    lemma_steps_after_len(next, replies.drop_first());
    if k > 0 {
        law_failure_is_final(next, replies.drop_first(), k - 1);
    }
}

proof fn lemma_steps_after_len(s: CrawlerView, replies: Seq<Reply>)
    ensures
        steps_after(s, replies).len() == replies.len(),
    decreases replies.len(),
{
    if replies.len() > 0 {
        lemma_steps_after_len(resumed(s, replies[0]).0, replies.drop_first());
    }
}

/// A crawl whose configuration holds a field of an unsupported type is given up at
/// its first step, with the error that names the first such field. The host is
/// asked for nothing: no writer is committed and no index archived, whatever the
/// host would reply.
pub proof fn law_unsupported_type_is_fatal(
    config: IndexerConfigView,
    fabric: FabricConfigView,
    replies: Seq<Reply>,
    i: int,
    k: int,
)
    requires
        0 <= i < config.fields.len(),
        !supported_type(config.fields[i].field_type),
        0 <= k <= replies.len(),
    ensures
        steps(initial(config, fabric), replies).len() == replies.len() + 1,
        steps(initial(config, fabric), replies)[k] is Failed,
        steps(initial(config, fabric), replies)[0] matches StepView::Failed(
            CrawlErrorView::UnsupportedFieldType(_),
        ),
{
    law_schema_of(config.fields);
    let (next, step) = started(initial(config, fabric));
    lemma_steps_after_len(next, replies);
    if k > 0 {
        law_failure_is_final(next, replies, k - 1);
    }
}

/// The state of a crawl that began in state `s` (after its first step) once the
/// host's `replies` have come in.
pub open spec fn state_after(s: CrawlerView, replies: Seq<Reply>) -> CrawlerView
    decreases replies.len(),
{
    if replies.len() == 0 {
        s
    } else {
        state_after(resumed(s, replies[0]).0, replies.drop_first())
    }
}

proof fn lemma_steps_after_split(s: CrawlerView, replies: Seq<Reply>, j: int, k: int)
    requires
        0 <= j <= k < replies.len(),
    ensures
        steps_after(s, replies).len() == replies.len(),
        steps_after(s, replies)[k] == steps_after(
            state_after(s, replies.take(j)),
            replies.skip(j),
        )[k - j],
        steps_after(state_after(s, replies.take(j)), replies.skip(j)).len() == replies.len() - j,
    decreases j,
{
    lemma_steps_after_len(s, replies);
    lemma_steps_after_len(state_after(s, replies.take(j)), replies.skip(j));
    if j == 0 {
        assert(replies.take(0) =~= Seq::<Reply>::empty());
        assert(replies.skip(0) =~= replies);
    } else {
        let next = resumed(s, replies[0]).0;
        let rest = replies.drop_first();
        lemma_steps_after_split(next, rest, j - 1, k - 1);
        lemma_steps_after_len(next, rest);
        assert(rest.take(j - 1) =~= replies.take(j).drop_first());
        assert(rest.skip(j - 1) =~= replies.skip(j));
        assert(replies.take(j)[0] == replies[0]);
    }
}

/// A failure of the host ends the crawl: once the host has failed a request, every
/// further step is a failure. So no writer is committed and no index archived after
/// a request has failed.
pub proof fn law_host_failure_is_fatal(s: CrawlerView, replies: Seq<Reply>, j: int, k: int)
    requires
        0 <= j <= k < replies.len(),
        replies[j] is Err,
    ensures
        steps_after(s, replies).len() == replies.len(),
        steps_after(s, replies)[k] is Failed,
{
    lemma_steps_after_split(s, replies, j, k);
    let at = state_after(s, replies.take(j));
    let tail = replies.skip(j);
    assert(tail[0] == replies[j]);
    let (next, step) = resumed(at, tail[0]);
    assert(next.phase is Failed && step is Failed);
    lemma_steps_after_len(next, tail.drop_first());
    if k > j {
        law_failure_is_final(next, tail.drop_first(), k - j - 1);
    }
}

/// The place of a request in the order of a crawl.
pub open spec fn request_rank(request: HostRequestView) -> nat {
    match request {
        HostRequestView::NewIndexBuilder { .. } => 1,
        HostRequestView::BuilderAddTextField { .. } => 2,
        HostRequestView::BuilderBuild => 3,
        HostRequestView::GetVersions { .. } => 4,
        HostRequestView::CreateWriter => 5,
        HostRequestView::GetMetadata { .. } => 6,
        HostRequestView::CreateDocument => 7,
        HostRequestView::DocumentAddText { .. } => 8,
        HostRequestView::CommitWriter => 9,
        HostRequestView::ArchiveIndex { .. } => 10,
    }
}

/// The place of a phase in the order of a crawl: that of the request whose reply it
/// waits for.
pub open spec fn phase_rank(phase: Phase) -> nat {
    match phase {
        Phase::Start => 0,
        Phase::Builder => 1,
        Phase::Schema => 2,
        Phase::Build => 3,
        Phase::Versions => 4,
        Phase::Writer => 5,
        Phase::Metadata => 6,
        Phase::Document => 7,
        Phase::Writes => 8,
        Phase::Commit => 9,
        Phase::Archive => 10,
        Phase::Finished => 11,
        Phase::Failed => 11,
    }
}

/// Whether a crawl may make a request of this sort several times: it adds a field
/// to the schema for each field, and a text to the document for each write.
pub open spec fn repeatable(request: HostRequestView) -> bool {
    request is BuilderAddTextField || request is DocumentAddText
}

proof fn lemma_resumed_rank(s: CrawlerView, reply: Reply)
    ensures
        match resumed(s, reply).1 {
            StepView::Call(request) => {
                &&& phase_rank(resumed(s, reply).0.phase) == request_rank(request)
                &&& phase_rank(s.phase) <= request_rank(request)
                &&& phase_rank(s.phase) == request_rank(request) ==> repeatable(request)
            },
            _ => phase_rank(resumed(s, reply).0.phase) == 11,
        },
{
}

proof fn lemma_steps_after_rank(s: CrawlerView, replies: Seq<Reply>, k: int)
    requires
        0 <= k < replies.len(),
    ensures
        steps_after(s, replies).len() == replies.len(),
        steps_after(s, replies)[k] matches StepView::Call(request) ==> {
            &&& phase_rank(s.phase) <= request_rank(request)
            &&& phase_rank(s.phase) == request_rank(request) ==> repeatable(request)
            &&& phase_rank(state_after(s, replies.take(k + 1)).phase) == request_rank(request)
        },
    decreases replies.len(),
{
    lemma_steps_after_len(s, replies);
    lemma_resumed_rank(s, replies[0]);
    let next = resumed(s, replies[0]).0;
    let rest = replies.drop_first();
    lemma_steps_after_len(next, rest);
    assert(replies.take(k + 1)[0] == replies[0]);
    assert(replies.take(k + 1).drop_first() =~= rest.take(k));
    if k == 0 {
        assert(rest.take(0) =~= Seq::<Reply>::empty());
    } else {
        lemma_steps_after_rank(next, rest, k - 1);
    }
}

/// The requests of a crawl come in one order: schema builder, fields of the schema,
/// build, versions, writer, metadata, document, writes, commit, archive. Of two
/// requests the later never stands before the earlier in that order, and only a
/// field of the schema or a write of the document is asked for more than once. So
/// the document is created once and before any of its fields is written, the writer
/// is committed after the last write, and the index is archived after the commit.
pub proof fn law_requests_in_order(s: CrawlerView, replies: Seq<Reply>, i: int, j: int)
    requires
        0 <= i < j <= replies.len(),
        steps(s, replies)[i] is Call,
        steps(s, replies)[j] is Call,
    ensures
        request_rank(steps(s, replies)[i]->Call_0) <= request_rank(steps(s, replies)[j]->Call_0),
        request_rank(steps(s, replies)[i]->Call_0) == request_rank(steps(s, replies)[j]->Call_0)
            ==> repeatable(steps(s, replies)[j]->Call_0),
{
    let (first, step) = started(s);
    lemma_steps_after_len(first, replies);
    if i == 0 {
        lemma_steps_after_rank(first, replies, j - 1);
    } else {
        lemma_steps_after_rank(first, replies, i - 1);
        lemma_steps_after_split(first, replies, i, j - 1);
        lemma_steps_after_rank(state_after(first, replies.take(i)), replies.skip(i), j - 1 - i);
    }
}

} // verus!
