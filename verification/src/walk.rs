//! The walk over an object's metadata, in lock-step with the trie, and the fields
//! that it finds.

use vstd::prelude::*;
use vstd::string::*;
use crate::error::CrawlError;
use crate::error::CrawlErrorView;
use crate::indexer::FieldConfig;
use crate::indexer::FieldConfigView;
use crate::indexer::is_supported_type;
use crate::indexer::supported_type;
use crate::json::json_get;
use crate::json::json_is_object;
use crate::json::json_members;
use crate::json::json_text;
use crate::json::json_values;
use crate::json::members_view;
use crate::json::value_as_str;
use crate::json::value_get;
use crate::json::value_is_object;
use crate::json::value_members;
use crate::trie::children_view;
use crate::trie::lemma_children_view;
use crate::trie::PathToFieldsNode;
use crate::trie::TrieView;

verus! {

/// One value to be added to a document of the index: the text `value` under the
/// field `field`.
#[derive(Debug, PartialEq, Eq)]
pub struct FieldWrite {
    pub doc: u64,
    pub field: String,
    pub value: String,
}

/// The mathematical value of a [`FieldWrite`].
pub struct FieldWriteView {
    pub doc: u64,
    pub field: Seq<char>,
    pub value: Seq<char>,
}

impl View for FieldWrite {
    type V = FieldWriteView;

    open spec fn view(&self) -> FieldWriteView {
        FieldWriteView { doc: self.doc, field: self.field@, value: self.value@ }
    }
}

/// The value of each write of `writes`, in order.
pub open spec fn write_views(writes: Seq<FieldWrite>) -> Seq<FieldWriteView> {
    writes.map_values(|w: FieldWrite| w@)
}

/// What becomes of a raw metadata value found for a field. A field of a supported
/// type takes the text of a JSON string; a value that is no string is malformed. A
/// field of any other type is refused, whatever the value.
pub open spec fn extracted(
    name: Seq<char>,
    field_type: Seq<char>,
    content: serde_json::Value,
    doc: u64,
) -> Result<FieldWriteView, CrawlErrorView> {
    if supported_type(field_type) {
        match json_text(content) {
            Some(text) => Ok(FieldWriteView { doc: doc, field: name, value: text }),
            None => Err(CrawlErrorView::MalformedMetadata(name)),
        }
    } else {
        Err(CrawlErrorView::UnsupportedFieldType(name))
    }
}

/// The mathematical value of the outcome of one extraction.
pub open spec fn write_outcome(res: Result<FieldWrite, CrawlError>) -> Result<
    FieldWriteView,
    CrawlErrorView,
> {
    match res {
        Ok(w) => Ok(w@),
        Err(e) => Err(e@),
    }
}

/// The mathematical value of the outcome of a walk.
pub open spec fn writes_outcome(res: Result<Vec<FieldWrite>, CrawlError>) -> Result<
    Seq<FieldWriteView>,
    CrawlErrorView,
> {
    match res {
        Ok(writes) => Ok(write_views(writes@)),
        Err(e) => Err(e@),
    }
}

/// Turns the raw value `field_content`, found for the field `field_name` of type
/// `field_type`, into the write that adds it to document `doc_id`.
pub fn document_add_field(
    field_name: &str,
    field_type: &str,
    field_content: &serde_json::Value,
    doc_id: u64,
) -> (res: Result<FieldWrite, CrawlError>)
    ensures
        write_outcome(res) == extracted(field_name@, field_type@, *field_content, doc_id),
{
    if is_supported_type(field_type) {
        match value_as_str(field_content) {
            Some(text) => Ok(
                FieldWrite {
                    doc: doc_id,
                    field: String::from_str(field_name),
                    value: String::from_str(text),
                },
            ),
            None => Err(CrawlError::MalformedMetadata(String::from_str(field_name))),
        }
    } else {
        Err(CrawlError::UnsupportedFieldType(String::from_str(field_name)))
    }
}

/// A field and the raw value found for it.
pub type Match = (FieldConfigView, serde_json::Value);

/// The matches of the fields registered at one node against `meta`, in the order of
/// registration: a field matches where `meta` is an object with a member under the
/// field's name. A field without such a member is passed over.
pub open spec fn matched_fields(meta: serde_json::Value, fields: Seq<FieldConfigView>) -> Seq<Match>
    decreases fields.len(),
{
    if fields.len() == 0 {
        Seq::empty()
    } else {
        matched_fields(meta, fields.drop_last()) + (match json_get(meta, fields.last().name) {
            Some(v) => seq![(fields.last(), v)],
            None => Seq::empty(),
        })
    }
}

/// All matches of the trie `t` against the metadata `meta`, in the order of the
/// walk: first the fields registered at `t`, then what each child of `t` finds, child
/// by child.
pub open spec fn matched(meta: serde_json::Value, t: TrieView) -> Seq<Match>
    decreases t, 0nat, 0nat,
{
    matched_fields(meta, t.fields) + matched_children(meta, t.children)
}

/// The matches that `children` find in `meta`, child by child.
pub open spec fn matched_children(
    meta: serde_json::Value,
    children: Seq<(Seq<char>, TrieView)>,
) -> Seq<Match>
    decreases children, 0nat, 0nat,
{
    if children.len() == 0 {
        Seq::empty()
    } else {
        matched_children(meta, children.drop_last()) + matched_child(
            meta,
            children.last().0,
            children.last().1,
        )
    }
}

/// The matches that the child `t` under `key` finds in `meta`.
///
/// Under the key `*` the child is walked against the value of every member of
/// `meta`, whatever the member's key. Under any other key it is walked against the
/// member of that key, if `meta` has one and it is an object that is no link (a link
/// is an object with a member `/`); a link is passed over, and so is a member that
/// is no object.
pub open spec fn matched_child(meta: serde_json::Value, key: Seq<char>, t: TrieView) -> Seq<Match>
    decreases t, 2nat, 0nat,
{
    if key == "*"@ {
        matched_each(json_values(meta), t)
    } else {
        match json_get(meta, key) {
            Some(below) => if json_get(below, "/"@) is Some {
                Seq::empty()
            } else if json_is_object(below) {
                matched(below, t)
            } else {
                Seq::empty()
            },
            None => Seq::empty(),
        }
    }
}

/// The matches of `t` against each of `values`, value by value.
pub open spec fn matched_each(values: Seq<serde_json::Value>, t: TrieView) -> Seq<Match>
    decreases t, 1nat, values.len(),
{
    if values.len() == 0 {
        Seq::empty()
    } else {
        matched_each(values.drop_last(), t) + matched(values.last(), t)
    }
}

/// The writes that `matches` give for document `doc`, in order, or the error of the
/// first match that gives none.
pub open spec fn extracted_all(matches: Seq<Match>, doc: u64) -> Result<
    Seq<FieldWriteView>,
    CrawlErrorView,
>
    decreases matches.len(),
{
    if matches.len() == 0 {
        Ok(Seq::empty())
    } else {
        match extracted_all(matches.drop_last(), doc) {
            Err(e) => Err(e),
            Ok(writes) => match extracted(
                matches.last().0.name,
                matches.last().0.field_type,
                matches.last().1,
                doc,
            ) {
                Ok(w) => Ok(writes.push(w)),
                Err(e) => Err(e),
            },
        }
    }
}

/// What a list of borrowed matches stands for.
pub open spec fn match_views(found: Seq<(&FieldConfig, &serde_json::Value)>) -> Seq<Match> {
    found.map_values(|m: (&FieldConfig, &serde_json::Value)| (m.0@, *m.1))
}

/// An error among the first matches is the error of the whole list.
proof fn lemma_extracted_all_error(matches: Seq<Match>, doc: u64, k: int)
    requires
        0 <= k <= matches.len(),
        extracted_all(matches.take(k), doc) is Err,
    ensures
        extracted_all(matches, doc) == extracted_all(matches.take(k), doc),
    decreases matches.len() - k,
{
    if k == matches.len() {
        assert(matches.take(k) =~= matches);
    } else {
        assert(matches.take(k + 1).drop_last() =~= matches.take(k));
        lemma_extracted_all_error(matches, doc, k + 1);
    }
}

/// Adds to `found` the matches of the trie below `node` against `meta`, in the
/// order of the walk.
fn collect_matches<'m, 'f>(
    meta: &'m serde_json::Value,
    node: &PathToFieldsNode<'f>,
    found: &mut Vec<(&'f FieldConfig, &'m serde_json::Value)>,
)
    ensures
        match_views(final(found)@) == match_views(old(found)@) + matched(*meta, node@),
    decreases node@,
{
    let ghost start = match_views(found@);
    let fields = node.get_fields();
    let mut i: usize = 0;
    proof {
        assert(start + matched_fields(*meta, node@.fields.take(0)) =~= start);
    }
    while i < fields.len()
        invariant
            i <= fields@.len(),
            fields@.map_values(|f: &FieldConfig| f@) == node@.fields,
            match_views(found@) == start + matched_fields(*meta, node@.fields.take(i as int)),
        decreases fields@.len() - i,
    {
        let field = fields[i];
        let ghost before = match_views(found@);
        proof {
            assert(node@.fields.take(i + 1).drop_last() =~= node@.fields.take(i as int));
            assert(node@.fields.take(i + 1).last() == field@);
        }
        match value_get(meta, field.name.as_str()) {
            Some(v) => {
                found.push((field, v));
                assert(match_views(found@) =~= before + seq![(field@, *v)]);
            },
            None => {
                assert(before + Seq::<Match>::empty() =~= before);
            },
        }
        assert(match_views(found@) =~= start + matched_fields(*meta, node@.fields.take(i + 1)));
        i += 1;
    }
    let children = node.get_children_iter();
    let star = String::from_str("*");
    let ghost own = start + matched_fields(*meta, node@.fields);
    proof {
        assert(node@.fields.take(i as int) =~= node@.fields);
        lemma_children_view(children@);
        assert(own + matched_children(*meta, node@.children.take(0)) =~= own);
    }
    let mut c: usize = 0;
    while c < children.len()
        invariant
            c <= children@.len(),
            children_view(children@) == node@.children,
            children@.len() == node@.children.len(),
            forall|k: int|
                0 <= k < children@.len() ==> #[trigger] node@.children[k] == (
                    children@[k].0@,
                    children@[k].1@,
                ),
            star@ == "*"@,
            match_views(found@) == own + matched_children(*meta, node@.children.take(c as int)),
        decreases children@.len() - c,
    {
        let key = &children[c].0;
        let child = &children[c].1;
        let ghost before = match_views(found@);
        proof {
            assert(node@.children.take(c + 1).drop_last() =~= node@.children.take(c as int));
            assert(node@.children.take(c + 1).last() == node@.children[c as int]);
            assert(node@.children[c as int] == (key@, child@));
            assert(decreases_to!(node@ => node@.children));
            assert(decreases_to!(node@.children => node@.children[c as int]));
            assert(decreases_to!(node@.children[c as int] => node@.children[c as int].1));
            assert(decreases_to!(node@ => child@));
            assert(matched_children(*meta, node@.children.take(c + 1)) == matched_children(
                *meta,
                node@.children.take(c as int),
            ) + matched_child(*meta, key@, child@));
        }
        if *key == star {
            match value_members(meta) {
                Some(members) => {
                    let ghost values = json_values(*meta);
                    let mut j: usize = 0;
                    proof {
                        assert(before + matched_each(values.take(0), child@) =~= before);
                    }
                    while j < members.len()
                        invariant
                            j <= members@.len(),
                            values == json_values(*meta),
                            json_members(*meta) == Some(members_view(members@)),
                            decreases_to!(node@ => child@),
                            match_views(found@) == before + matched_each(
                                values.take(j as int),
                                child@,
                            ),
                        decreases members@.len() - j,
                    {
                        let ghost so_far = match_views(found@);
                        proof {
                            assert(values.take(j + 1).drop_last() =~= values.take(j as int));
                            assert(values.take(j + 1).last() == *members@[j as int].1);
                        }
                        collect_matches(members[j].1, child, found);
                        assert(match_views(found@) =~= before + matched_each(
                            values.take(j + 1),
                            child@,
                        ));
                        j += 1;
                    }
                    assert(values.take(j as int) =~= values);
                    assert(matched_child(*meta, key@, child@) == matched_each(values, child@));
                },
                None => {
                    assert(matched_child(*meta, key@, child@) =~= Seq::<Match>::empty());
                    assert(before + Seq::<Match>::empty() =~= before);
                },
            }
        } else {
            match value_get(meta, key.as_str()) {
                Some(below) => {
                    if value_get(below, "/").is_some() {
                        assert(before + Seq::<Match>::empty() =~= before);
                    } else if value_is_object(below) {
                        collect_matches(below, child, found);
                    } else {
                        assert(before + Seq::<Match>::empty() =~= before);
                    }
                },
                None => {
                    assert(before + Seq::<Match>::empty() =~= before);
                },
            }
        }
        assert(match_views(found@) =~= own + matched_children(*meta, node@.children.take(c + 1)));
        c += 1;
    }
    proof {
        assert(node@.children.take(c as int) =~= node@.children);
        assert(match_views(found@) =~= start + matched(*meta, node@));
    }
}

/// Walks the metadata `meta` of an object in lock-step with the trie below `node`
/// and returns, in the order of the walk, the writes that fill document `doc_id`.
///
/// The walk fails with the error of the first match that gives no write; no match
/// after it is looked at. Each step down in the metadata is a step down in the
/// trie, so the walk is no deeper than the trie, however deep the metadata.
pub fn crawl_meta(meta: &serde_json::Value, node: &PathToFieldsNode, doc_id: u64) -> (res: Result<
    Vec<FieldWrite>,
    CrawlError,
>)
    ensures
        writes_outcome(res) == extracted_all(matched(*meta, node@), doc_id),
{
    let mut found: Vec<(&FieldConfig, &serde_json::Value)> = Vec::new();
    collect_matches(meta, node, &mut found);
    let ghost matches = matched(*meta, node@);
    assert(match_views(found@) =~= matches);
    let mut writes: Vec<FieldWrite> = Vec::new();
    let mut i: usize = 0;
    assert(write_views(writes@) =~= Seq::empty());
    while i < found.len()
        invariant
            i <= found@.len(),
            match_views(found@) == matches,
            matches == matched(*meta, node@),
            extracted_all(matches.take(i as int), doc_id) == Ok::<
                Seq<FieldWriteView>,
                CrawlErrorView,
            >(write_views(writes@)),
        decreases found@.len() - i,
    {
        let field = found[i].0;
        proof {
            assert(matches.take(i + 1).drop_last() =~= matches.take(i as int));
            assert(matches.take(i + 1).last() == (field@, *found@[i as int].1));
        }
        let content = found[i].1;
        match document_add_field(field.name.as_str(), field.field_type.as_str(), content, doc_id) {
            Ok(w) => {
                let ghost earlier = write_views(writes@);
                writes.push(w);
                assert(write_views(writes@) =~= earlier.push(w@));
            },
            Err(e) => {
                proof {
                    lemma_extracted_all_error(matches, doc_id, i + 1);
                }
                return Err(e);
            },
        }
        i += 1;
    }
    assert(matches.take(i as int) =~= matches);
    Ok(writes)
}

proof fn lemma_matched_fields_without(meta: serde_json::Value, fields: Seq<FieldConfigView>, i: int)
    requires
        0 <= i < fields.len(),
        json_get(meta, fields[i].name) is None,
    ensures
        matched_fields(meta, fields) == matched_fields(meta, fields.remove(i)),
    decreases fields.len(),
{
    if i == fields.len() - 1 {
        assert(fields.remove(i) =~= fields.drop_last());
        assert(matched_fields(meta, fields.drop_last()) + Seq::<Match>::empty() =~= matched_fields(
            meta,
            fields.drop_last(),
        ));
    } else {
        lemma_matched_fields_without(meta, fields.drop_last(), i);
        assert(fields.remove(i).drop_last() =~= fields.drop_last().remove(i));
        assert(fields.remove(i).last() == fields.last());
    }
}

/// A field whose name the metadata at its node lacks is passed over: the walk
/// finds what it would find if the field were not registered there, and so fails
/// or succeeds as it would without it.
pub proof fn law_missing_field_skipped(meta: serde_json::Value, t: TrieView, i: int, doc: u64)
    requires
        0 <= i < t.fields.len(),
        json_get(meta, t.fields[i].name) is None,
    ensures
        matched(meta, t) == matched(meta, TrieView { fields: t.fields.remove(i), ..t }),
        extracted_all(matched(meta, t), doc) == extracted_all(
            matched(meta, TrieView { fields: t.fields.remove(i), ..t }),
            doc,
        ),
{
    lemma_matched_fields_without(meta, t.fields, i);
}

/// Where the metadata has none of the keys that the fields at a node are named by,
/// and the node has no children, the walk ends without error and writes nothing.
pub proof fn law_missing_fields_write_nothing(meta: serde_json::Value, t: TrieView, doc: u64)
    requires
        t.children.len() == 0,
        forall|i: int|
            0 <= i < t.fields.len() ==> json_get(meta, (#[trigger] t.fields[i]).name) is None,
    ensures
        matched(meta, t) == Seq::<Match>::empty(),
        extracted_all(matched(meta, t), doc) == Ok::<Seq<FieldWriteView>, CrawlErrorView>(
            Seq::empty(),
        ),
{
    lemma_matched_fields_none(meta, t.fields);
    assert(matched(meta, t) =~= Seq::<Match>::empty());
}

proof fn lemma_matched_fields_none(meta: serde_json::Value, fields: Seq<FieldConfigView>)
    requires
        forall|i: int|
            0 <= i < fields.len() ==> json_get(meta, (#[trigger] fields[i]).name) is None,
    ensures
        matched_fields(meta, fields) == Seq::<Match>::empty(),
    decreases fields.len(),
{
    if fields.len() > 0 {
        let before = fields.drop_last();
        assert forall|i: int| 0 <= i < before.len() implies json_get(
            meta,
            (#[trigger] before[i]).name,
        ) is None by {
            assert(before[i] == fields[i]);
        }
        lemma_matched_fields_none(meta, before);
        assert(json_get(meta, fields[fields.len() - 1].name) is None);
        assert(matched_fields(meta, fields) =~= Seq::<Match>::empty());
    }
}

/// Under the key `*` a child is walked once against the value of each member of
/// the metadata, in the order of the members and whatever their keys: what it finds
/// is what it finds in each value, one after the other.
pub proof fn law_wildcard_fan_out(meta: serde_json::Value, t: TrieView)
    ensures
        matched_child(meta, "*"@, t) == json_values(meta).map_values(
            |v: serde_json::Value| matched(v, t),
        ).flatten(),
{
    lemma_matched_each_flatten(json_values(meta), t);
}

proof fn lemma_matched_each_flatten(values: Seq<serde_json::Value>, t: TrieView)
    ensures
        matched_each(values, t) == values.map_values(
            |v: serde_json::Value| matched(v, t),
        ).flatten(),
    decreases values.len(),
{
    let each = |v: serde_json::Value| matched(v, t);
    if values.len() == 0 {
        assert(values.map_values(each) =~= Seq::<Seq<Match>>::empty());
        assert(Seq::<Seq<Match>>::empty().flatten() =~= Seq::<Match>::empty());
    } else {
        lemma_matched_each_flatten(values.drop_last(), t);
        assert(values.map_values(each) =~= values.drop_last().map_values(each).push(
            matched(values.last(), t),
        ));
        values.drop_last().map_values(each).lemma_flatten_push(matched(values.last(), t));
    }
}

/// The field and the text of each write, in order, without the document.
pub open spec fn field_values(writes: Seq<FieldWriteView>) -> Seq<(Seq<char>, Seq<char>)> {
    writes.map_values(|w: FieldWriteView| (w.field, w.value))
}

proof fn lemma_extracted_all_any_document(matches: Seq<Match>, doc_a: u64, doc_b: u64)
    ensures
        match (extracted_all(matches, doc_a), extracted_all(matches, doc_b)) {
            (Ok(a), Ok(b)) => field_values(a) == field_values(b),
            (Err(e), Err(f)) => e == f,
            _ => false,
        },
    decreases matches.len(),
{
    if matches.len() > 0 {
        lemma_extracted_all_any_document(matches.drop_last(), doc_a, doc_b);
        let before = matches.drop_last();
        match (extracted_all(before, doc_a), extracted_all(before, doc_b)) {
            (Ok(a), Ok(b)) => {
                let m = matches.last();
                match (
                    extracted(m.0.name, m.0.field_type, m.1, doc_a),
                    extracted(m.0.name, m.0.field_type, m.1, doc_b),
                ) {
                    (Ok(w), Ok(x)) => {
                        assert(field_values(a.push(w)) =~= field_values(a).push(
                            (w.field, w.value),
                        ));
                        assert(field_values(b.push(x)) =~= field_values(b).push(
                            (x.field, x.value),
                        ));
                    },
                    _ => {},
                }
            },
            _ => {},
        }
    } else {
        assert(field_values(Seq::<FieldWriteView>::empty()) =~= Seq::<
            (Seq<char>, Seq<char>),
        >::empty());
    }
}

/// Two walks over the same metadata with the same trie give the same fields with
/// the same texts in the same order, or fail with the same error, whatever
/// documents the two were given to fill.
pub proof fn law_walk_repeatable(meta: serde_json::Value, t: TrieView, doc_a: u64, doc_b: u64)
    ensures
        match (extracted_all(matched(meta, t), doc_a), extracted_all(matched(meta, t), doc_b)) {
            (Ok(a), Ok(b)) => field_values(a) == field_values(b),
            (Err(e), Err(f)) => e == f,
            _ => false,
        },
{
    lemma_extracted_all_any_document(matched(meta, t), doc_a, doc_b);
}

} // verus!
