//! The trie that maps metadata paths to the fields found there.

use vstd::prelude::*;
use crate::indexer::FieldConfig;
use crate::indexer::FieldConfigView;
use crate::indexer::field_views;
use crate::text::comes_before;
use crate::text::components;
use crate::text::lemma_text_before_total;
use crate::text::lemma_text_before_transitive;
use crate::text::split_path;
use crate::text::text_before;
use crate::text::texts;

verus! {

/// The mathematical value of a trie node: its label, the fields registered at it in
/// the order of their registration, and its children, each under the path component
/// that leads to it. In a trie that was built from fields the children of a node
/// stand in the order of their keys.
pub struct TrieView {
    pub path: Seq<char>,
    pub fields: Seq<FieldConfigView>,
    pub children: Seq<(Seq<char>, TrieView)>,
}

/// A node with nothing registered at it and nothing below it.
pub open spec fn leaf(path: Seq<char>) -> TrieView {
    TrieView { path: path, fields: Seq::empty(), children: Seq::empty() }
}

/// The index of the first child under `key`, or the number of children where there
/// is none.
pub open spec fn child_index(children: Seq<(Seq<char>, TrieView)>, key: Seq<char>) -> int
    decreases children.len(),
{
    if children.len() == 0 || children[0].0 == key {
        0
    } else {
        1 + child_index(children.drop_first(), key)
    }
}

/// The place of a new child under `key` among `children`: the index of the first
/// child whose key does not stand before `key`, or the number of children where all
/// their keys do.
pub open spec fn insert_place(children: Seq<(Seq<char>, TrieView)>, key: Seq<char>) -> int
    decreases children.len(),
{
    if children.len() == 0 || !text_before(children[0].0, key) {
        0
    } else {
        1 + insert_place(children.drop_first(), key)
    }
}

/// The label of the node that `component` leads to from a node labelled `prefix`.
pub open spec fn extend_path(prefix: Seq<char>, component: Seq<char>) -> Seq<char> {
    if prefix.len() == 0 {
        component
    } else {
        prefix + seq!['.'] + component
    }
}

/// The trie `t` after `field` has been registered under the path whose components
/// that remain are `comps`, where `t` is the node that the components before them
/// lead to and `prefix` is the dotted text of those.
///
/// The last component leads to no node of its own: the field is registered at the
/// node that the components before it lead to. An empty component ends the path
/// where it stands, and the field is registered there. A component that no child
/// stands under yet gets a new child, at its place in the order of the keys.
pub open spec fn inserted(
    t: TrieView,
    prefix: Seq<char>,
    comps: Seq<Seq<char>>,
    field: FieldConfigView,
) -> TrieView
    decreases comps.len(),
{
    if comps.len() == 0 {
        t
    } else if comps.len() == 1 || comps[0].len() == 0 {
        TrieView { fields: t.fields.push(field), ..t }
    } else {
        let key = comps[0];
        let label = extend_path(prefix, key);
        let i = child_index(t.children, key);
        if i < t.children.len() {
            let below = inserted(t.children[i].1, label, comps.drop_first(), field);
            TrieView { children: t.children.update(i, (key, below)), ..t }
        } else {
            let below = inserted(leaf(label), label, comps.drop_first(), field);
            TrieView {
                children: t.children.insert(insert_place(t.children, key), (key, below)),
                ..t
            }
        }
    }
}

/// The trie `t` after the first `n` paths of `field` have been registered from the
/// root `t`, in their order.
pub open spec fn with_paths(t: TrieView, field: FieldConfigView, n: nat) -> TrieView
    decreases n,
{
    if n == 0 {
        t
    } else {
        inserted(
            with_paths(t, field, (n - 1) as nat),
            Seq::empty(),
            components(field.paths[n - 1]),
            field,
        )
    }
}

/// The trie `t` after every path of the first `n` of `fields` has been registered
/// from the root `t`, field by field.
pub open spec fn with_fields(t: TrieView, fields: Seq<FieldConfigView>, n: nat) -> TrieView
    decreases n,
{
    if n == 0 {
        t
    } else {
        with_paths(with_fields(t, fields, (n - 1) as nat), fields[n - 1], fields[n - 1].paths.len())
    }
}

/// The trie of a list of fields: every path of every field registered, in order,
/// from a root with the empty label.
pub open spec fn built(fields: Seq<FieldConfigView>) -> TrieView {
    with_fields(leaf(Seq::empty()), fields, fields.len())
}

/// `child_index` is the one index that holds the key and has no such child before
/// it.
pub proof fn lemma_child_index(children: Seq<(Seq<char>, TrieView)>, key: Seq<char>, i: int)
    requires
        0 <= i <= children.len(),
        forall|k: int| 0 <= k < i ==> children[k].0 != key,
        i < children.len() ==> children[i].0 == key,
    ensures
        child_index(children, key) == i,
    decreases children.len(),
{
    if children.len() == 0 || children[0].0 == key {
    } else {
        let rest = children.drop_first();
        assert forall|k: int| 0 <= k < i - 1 implies rest[k].0 != key by {
            assert(rest[k] == children[k + 1]);
        }
        lemma_child_index(rest, key, i - 1);
    }
}

/// `insert_place` is the one index that has only keys before `key` in front of it
/// and no such key at it.
pub proof fn lemma_insert_place(children: Seq<(Seq<char>, TrieView)>, key: Seq<char>, i: int)
    requires
        0 <= i <= children.len(),
        forall|k: int| 0 <= k < i ==> text_before(children[k].0, key),
        i < children.len() ==> !text_before(children[i].0, key),
    ensures
        insert_place(children, key) == i,
    decreases children.len(),
{
    if children.len() == 0 || !text_before(children[0].0, key) {
    } else {
        let rest = children.drop_first();
        assert forall|k: int| 0 <= k < i - 1 implies text_before(rest[k].0, key) by {
            assert(rest[k] == children[k + 1]);
        }
        lemma_insert_place(rest, key, i - 1);
    }
}

/// `insert_place` lies between 0 and the number of children; the keys in front of
/// it stand before `key`, and the key at it does not.
pub proof fn lemma_insert_place_bounds(children: Seq<(Seq<char>, TrieView)>, key: Seq<char>)
    ensures
        0 <= insert_place(children, key) <= children.len(),
        forall|k: int| 0 <= k < insert_place(children, key) ==> text_before(children[k].0, key),
        insert_place(children, key) < children.len() ==> !text_before(
            children[insert_place(children, key)].0,
            key,
        ),
    decreases children.len(),
{
    if children.len() == 0 || !text_before(children[0].0, key) {
    } else {
        let rest = children.drop_first();
        lemma_insert_place_bounds(rest, key);
        assert forall|k: int| 0 <= k < insert_place(children, key) implies text_before(
            children[k].0,
            key,
        ) by {
            if k > 0 {
                assert(children[k] == rest[k - 1]);
            }
        }
    }
}

/// A node of the trie. The root stands for the metadata of an object; the child
/// under a component stands for the metadata found under that key.
#[derive(Debug)]
pub struct PathToFieldsNode<'a> {
    children: Vec<(String, PathToFieldsNode<'a>)>,
    fields: Vec<&'a FieldConfig>,
    path: String,
}

impl<'a> View for PathToFieldsNode<'a> {
    type V = TrieView;

    closed spec fn view(&self) -> TrieView
        decreases self,
    {
        TrieView {
            path: self.path@,
            fields: self.fields@.map_values(|f: &FieldConfig| f@),
            children: children_view(self.children@),
        }
    }
}

/// The value of each child of `children` under the text of its key, in order.
pub open spec fn children_view(children: Seq<(String, PathToFieldsNode)>) -> Seq<
    (Seq<char>, TrieView),
>
    decreases children,
{
    if children.len() == 0 {
        Seq::empty()
    } else {
        children_view(children.drop_last()).push((children.last().0@, children.last().1@))
    }
}

/// `children_view` keeps the length and maps each child by itself.
pub proof fn lemma_children_view(children: Seq<(String, PathToFieldsNode)>)
    ensures
        children_view(children).len() == children.len(),
        forall|i: int|
            0 <= i < children.len() ==> #[trigger] children_view(children)[i] == (
                children[i].0@,
                children[i].1@,
            ),
    decreases children.len(),
{
    if children.len() > 0 {
        lemma_children_view(children.drop_last());
        assert(children_view(children) == children_view(children.drop_last()).push(
            (children.last().0@, children.last().1@),
        ));
    } else {
        assert(children_view(children) == Seq::<(Seq<char>, TrieView)>::empty());
    }
}

impl<'a> PathToFieldsNode<'a> {
    /// A node with the given label and nothing below it.
    pub fn new(path: String) -> (res: PathToFieldsNode<'a>)
        ensures
            res@ == leaf(path@),
    {
        let res = PathToFieldsNode { children: Vec::new(), fields: Vec::new(), path: path };
        assert(res@.fields =~= Seq::empty());
        assert(res@.children =~= Seq::empty());
        res
    }

    /// What the view of a node is made of.
    proof fn lemma_view(&self)
        ensures
            self@.path == self.path@,
            self@.fields == self.fields@.map_values(|f: &FieldConfig| f@),
            self@.children.len() == self.children@.len(),
            forall|i: int|
                0 <= i < self.children@.len() ==> #[trigger] self@.children[i] == (
                    self.children@[i].0@,
                    self.children@[i].1@,
                ),
    {
        lemma_children_view(self.children@);
    }

    /// The index of the first child under `key`, or the number of children.
    fn find_child(&self, key: &String) -> (res: usize)
        ensures
            res == child_index(self@.children, key@),
            res <= self.children@.len(),
            self.children@.len() == self@.children.len(),
            res < self.children@.len() ==> self@.children[res as int].0 == key@,
    {
        let mut i: usize = 0;
        proof {
            self.lemma_view();
        }
        while i < self.children.len()
            invariant
                i <= self.children@.len(),
                self.children@.len() == self@.children.len(),
                forall|k: int| 0 <= k < i ==> self@.children[k].0 != key@,
            decreases self.children@.len() - i,
        {
            proof {
                self.lemma_view();
            }
            if self.children[i].0 == *key {
                proof {
                    lemma_child_index(self@.children, key@, i as int);
                }
                return i;
            }
            i += 1;
        }
        proof {
            lemma_child_index(self@.children, key@, i as int);
        }
        i
    }

    /// The place of a new child under `key` among the children.
    fn place_for(&self, key: &String) -> (res: usize)
        ensures
            res == insert_place(self@.children, key@),
            res <= self.children@.len(),
    {
        let mut i: usize = 0;
        proof {
            self.lemma_view();
        }
        while i < self.children.len()
            invariant
                i <= self.children@.len(),
                self.children@.len() == self@.children.len(),
                forall|k: int| 0 <= k < i ==> text_before(self@.children[k].0, key@),
            decreases self.children@.len() - i,
        {
            proof {
                self.lemma_view();
            }
            if !comes_before(self.children[i].0.as_str(), key.as_str()) {
                proof {
                    lemma_insert_place(self@.children, key@, i as int);
                }
                return i;
            }
            i += 1;
        }
        proof {
            lemma_insert_place(self@.children, key@, i as int);
        }
        i
    }

    /// Registers `field` under the path whose components from index `from` on are
    /// still to be walked, `self` being the node that the components before lead to
    /// and `prefix` their dotted text.
    fn insert_at(&mut self, field: &'a FieldConfig, comps: &Vec<String>, from: usize, prefix: &str)
        requires
            from <= comps@.len(),
        ensures
            final(self)@ == inserted(old(self)@, prefix@, texts(comps@).skip(from as int), field@),
        decreases comps@.len() - from,
    {
        let ghost rest = texts(comps@).skip(from as int);
        proof {
            self.lemma_view();
        }
        if from >= comps.len() {
            return ;
        }
        assert(rest[0] == comps@[from as int]@);
        if from + 1 == comps.len() || comps[from].as_str().is_empty() {
            self.fields.push(field);
            proof {
                self.lemma_view();
            }
            assert(self@.fields =~= old(self)@.fields.push(field@));
            assert(self@.children =~= old(self)@.children);
            return ;
        }
        let mut label = String::from_str(prefix);
        if !prefix.is_empty() {
            proof {
                reveal_strlit(".");
            }
            label.append(".");
        }
        label.append(comps[from].as_str());
        assert(label@ =~= extend_path(prefix@, rest[0]));
        let found = self.find_child(&comps[from]);
        let ghost before = old(self)@;
        let ghost was_there = found < before.children.len();
        let idx = if found == self.children.len() {
            let place = self.place_for(&comps[from]);
            let child = PathToFieldsNode::new(label.clone());
            self.children.insert(place, (comps[from].clone(), child));
            place
        } else {
            found
        };
        let ghost mid = *self;
        proof {
            self.lemma_view();
            assert(rest.drop_first() =~= texts(comps@).skip(from + 1));
            if was_there {
                assert(mid@.children =~= before.children);
            } else {
                assert(mid@.children =~= before.children.insert(
                    idx as int,
                    (rest[0], leaf(label@)),
                ));
            }
        }
        self.children[idx].1.insert_at(field, comps, from + 1, label.as_str());
        proof {
            self.lemma_view();
            let i = idx as int;
            let below = inserted(mid@.children[i].1, label@, rest.drop_first(), field@);
            assert(self.children@[i].1@ == below);
            assert(self.children@[i].0 == mid.children@[i].0);
            assert forall|k: int| 0 <= k < self.children@.len() && k != i implies self.children@[k]
                == mid.children@[k] by {}
            assert(self@.children =~= mid@.children.update(i, (rest[0], below)));
            if was_there {
                assert(self@.children =~= before.children.update(i, (rest[0], below)));
            } else {
                assert(self@.children =~= before.children.insert(i, (rest[0], below)));
            }
            assert(self@.fields =~= before.fields);
        }
    }

    /// Registers `field_config` under the dotted `path`, `self` being the root.
    fn add_field_to_path(&mut self, field_config: &'a FieldConfig, path: &str)
        ensures
            final(self)@ == inserted(old(self)@, Seq::empty(), components(path@), field_config@),
    {
        let comps = split_path(path);
        proof {
            reveal_strlit("");
            assert(texts(comps@).skip(0) =~= texts(comps@));
        }
        self.insert_at(field_config, &comps, 0, "");
    }

    /// The trie of `fields`: each field registered under each of its paths.
    pub fn new_from_fields(fields: &'a Vec<FieldConfig>) -> (res: PathToFieldsNode<'a>)
        ensures
            res@ == built(field_views(fields@)),
    {
        let mut root = PathToFieldsNode::new(String::from_str(""));
        proof {
            reveal_strlit("");
            assert(""@ =~= Seq::<char>::empty());
        }
        let ghost views = field_views(fields@);
        let mut i: usize = 0;
        while i < fields.len()
            invariant
                i <= fields@.len(),
                views == field_views(fields@),
                root@ == with_fields(leaf(Seq::empty()), views, i as nat),
            decreases fields@.len() - i,
        {
            let field_config = &fields[i];
            assert(views[i as int] == field_config@);
            let mut j: usize = 0;
            while j < field_config.paths.len()
                invariant
                    j <= field_config.paths@.len(),
                    i < fields@.len(),
                    views == field_views(fields@),
                    views[i as int] == field_config@,
                    root@ == with_paths(
                        with_fields(leaf(Seq::empty()), views, i as nat),
                        field_config@,
                        j as nat,
                    ),
                decreases field_config.paths@.len() - j,
            {
                root.add_field_to_path(field_config, field_config.paths[j].as_str());
                j += 1;
            }
            i += 1;
        }
        root
    }

    /// The children of this node, each under the component that leads to it. In a
    /// trie that was built from fields they stand in the order of their keys.
    pub fn get_children_iter(&self) -> (res: &Vec<(String, PathToFieldsNode<'a>)>)
        ensures
            children_view(res@) == self@.children,
    {
        &self.children
    }

    /// The label of this node: the dotted text of the components that lead to it.
    pub fn get_path(&self) -> (res: &str)
        ensures
            res@ == self@.path,
    {
        self.path.as_str()
    }

    /// The fields registered at this node.
    pub fn get_fields(&self) -> (res: &Vec<&'a FieldConfig>)
        ensures
            res@.map_values(|f: &FieldConfig| f@) == self@.fields,
    {
        &self.fields
    }
}

/// The number of field registrations at `t` and below it.
pub open spec fn registrations(t: TrieView) -> nat
    decreases t,
{
    t.fields.len() + registrations_below(t.children)
}

/// The number of field registrations at the nodes of `children` and below them.
pub open spec fn registrations_below(children: Seq<(Seq<char>, TrieView)>) -> nat
    decreases children,
{
    if children.len() == 0 {
        0
    } else {
        registrations_below(children.drop_last()) + registrations(children.last().1)
    }
}

/// The number of paths that `fields` list, all fields together.
pub open spec fn total_paths(fields: Seq<FieldConfigView>) -> nat
    decreases fields.len(),
{
    if fields.len() == 0 {
        0
    } else {
        total_paths(fields.drop_last()) + fields.last().paths.len()
    }
}

proof fn lemma_registrations_insert(
    children: Seq<(Seq<char>, TrieView)>,
    i: int,
    child: (Seq<char>, TrieView),
)
    requires
        0 <= i <= children.len(),
    ensures
        registrations_below(children.insert(i, child)) == registrations_below(children)
            + registrations(child.1),
    decreases children.len(),
{
    let grown = children.insert(i, child);
    if i == children.len() {
        assert(grown.drop_last() =~= children);
    } else {
        assert(grown.drop_last() =~= children.drop_last().insert(i, child));
        assert(grown.last() == children.last());
        lemma_registrations_insert(children.drop_last(), i, child);
    }
}

proof fn lemma_registrations_update(
    children: Seq<(Seq<char>, TrieView)>,
    i: int,
    child: (Seq<char>, TrieView),
)
    requires
        0 <= i < children.len(),
    ensures
        registrations_below(children.update(i, child)) + registrations(children[i].1)
            == registrations_below(children) + registrations(child.1),
    decreases children.len(),
{
    let updated = children.update(i, child);
    if i == children.len() - 1 {
        assert(updated.drop_last() =~= children.drop_last());
    } else {
        assert(updated.drop_last() =~= children.drop_last().update(i, child));
        lemma_registrations_update(children.drop_last(), i, child);
    }
}

/// Registering a field under a path adds one registration to the trie, whatever
/// the path.
pub proof fn lemma_inserted_registrations(
    t: TrieView,
    prefix: Seq<char>,
    comps: Seq<Seq<char>>,
    field: FieldConfigView,
)
    requires
        comps.len() >= 1,
    ensures
        registrations(inserted(t, prefix, comps, field)) == registrations(t) + 1,
    decreases comps.len(),
{
    if comps.len() == 1 || comps[0].len() == 0 {
    } else {
        let key = comps[0];
        let label = extend_path(prefix, key);
        let i = child_index(t.children, key);
        lemma_child_index_bounds(t.children, key);
        if i < t.children.len() {
            let below = inserted(t.children[i].1, label, comps.drop_first(), field);
            lemma_inserted_registrations(t.children[i].1, label, comps.drop_first(), field);
            lemma_registrations_update(t.children, i, (key, below));
        } else {
            let below = inserted(leaf(label), label, comps.drop_first(), field);
            lemma_inserted_registrations(leaf(label), label, comps.drop_first(), field);
            lemma_insert_place_bounds(t.children, key);
            lemma_registrations_insert(t.children, insert_place(t.children, key), (key, below));
            assert(registrations_below(Seq::<(Seq<char>, TrieView)>::empty()) == 0);
        }
    }
}

/// `child_index` lies between 0 and the number of children, and where it is below
/// that number the child there is the first under the key.
pub proof fn lemma_child_index_bounds(children: Seq<(Seq<char>, TrieView)>, key: Seq<char>)
    ensures
        0 <= child_index(children, key) <= children.len(),
        child_index(children, key) < children.len() ==> children[child_index(children, key)].0
            == key,
        forall|k: int| 0 <= k < child_index(children, key) ==> children[k].0 != key,
    decreases children.len(),
{
    if children.len() == 0 || children[0].0 == key {
    } else {
        let rest = children.drop_first();
        lemma_child_index_bounds(rest, key);
        assert forall|k: int| 0 <= k < child_index(children, key) implies children[k].0 != key by {
            if k > 0 {
                assert(children[k] == rest[k - 1]);
            }
        }
    }
}

proof fn lemma_with_paths_registrations(t: TrieView, field: FieldConfigView, n: nat)
    ensures
        registrations(with_paths(t, field, n)) == registrations(t) + n,
    decreases n,
{
    if n > 0 {
        lemma_with_paths_registrations(t, field, (n - 1) as nat);
        crate::text::lemma_components_nonempty(field.paths[n - 1]);
        lemma_inserted_registrations(
            with_paths(t, field, (n - 1) as nat),
            Seq::empty(),
            components(field.paths[n - 1]),
            field,
        );
    }
}

proof fn lemma_with_fields_registrations(t: TrieView, fields: Seq<FieldConfigView>, n: nat)
    requires
        n <= fields.len(),
    ensures
        registrations(with_fields(t, fields, n)) == registrations(t) + total_paths(
            fields.take(n as int),
        ),
    decreases n,
{
    if n == 0 {
        assert(fields.take(0).len() == 0);
    } else {
        lemma_with_fields_registrations(t, fields, (n - 1) as nat);
        lemma_with_paths_registrations(
            with_fields(t, fields, (n - 1) as nat),
            fields[n - 1],
            fields[n - 1].paths.len(),
        );
        assert(fields.take(n as int).drop_last() =~= fields.take(n - 1));
        assert(fields.take(n as int).last() == fields[n - 1]);
    }
}

/// The trie of a list of fields holds one registration for each path that the
/// fields list: a field with two paths is registered twice.
pub proof fn law_registration_count(fields: Seq<FieldConfigView>)
    ensures
        registrations(built(fields)) == total_paths(fields),
{
    lemma_with_fields_registrations(leaf(Seq::empty()), fields, fields.len());
    assert(fields.take(fields.len() as int) =~= fields);
    assert(registrations_below(Seq::<(Seq<char>, TrieView)>::empty()) == 0);
}

/// The components of a path that lead from node to node: those before the last,
/// as far as none of them is empty.
pub open spec fn walked(comps: Seq<Seq<char>>) -> Seq<Seq<char>>
    decreases comps.len(),
{
    if comps.len() <= 1 || comps[0].len() == 0 {
        Seq::empty()
    } else {
        seq![comps[0]] + walked(comps.drop_first())
    }
}

/// The node that `keys` lead to from `t`, one child per key.
pub open spec fn descend(t: TrieView, keys: Seq<Seq<char>>) -> Option<TrieView>
    decreases keys.len(),
{
    if keys.len() == 0 {
        Some(t)
    } else {
        let i = child_index(t.children, keys[0]);
        if i < t.children.len() {
            descend(t.children[i].1, keys.drop_first())
        } else {
            None
        }
    }
}

/// The label of the node that `keys` lead to from a node labelled `prefix`.
pub open spec fn joined(prefix: Seq<char>, keys: Seq<Seq<char>>) -> Seq<char>
    decreases keys.len(),
{
    if keys.len() == 0 {
        prefix
    } else {
        joined(extend_path(prefix, keys[0]), keys.drop_first())
    }
}

/// The number of nodes of `t`, itself included.
pub open spec fn node_count(t: TrieView) -> nat
    decreases t,
{
    1 + nodes_below(t.children)
}

/// The number of nodes of `children`, each with what is below it.
pub open spec fn nodes_below(children: Seq<(Seq<char>, TrieView)>) -> nat
    decreases children,
{
    if children.len() == 0 {
        0
    } else {
        nodes_below(children.drop_last()) + node_count(children.last().1)
    }
}

/// The keys of `children` stand in their order, each before the next; so no two of
/// them are the same.
pub open spec fn ordered_children(children: Seq<(Seq<char>, TrieView)>) -> bool {
    forall|i: int, j: int|
        0 <= i < j < children.len() ==> text_before(
            (#[trigger] children[i]).0,
            (#[trigger] children[j]).0,
        )
}

/// `t` is a trie whose root is labelled `label`: under every node the children
/// stand in the order of their keys, and every child is labelled with its parent's
/// label extended by its key.
pub open spec fn well_formed(t: TrieView, label: Seq<char>) -> bool
    decreases t,
{
    &&& t.path == label
    &&& ordered_children(t.children)
    &&& forall|i: int|
        0 <= i < t.children.len() ==> well_formed(
            (#[trigger] t.children[i]).1,
            extend_path(label, t.children[i].0),
        )
}

/// Registering a field keeps a trie well formed.
pub proof fn law_inserted_well_formed(
    t: TrieView,
    prefix: Seq<char>,
    comps: Seq<Seq<char>>,
    field: FieldConfigView,
)
    requires
        well_formed(t, prefix),
    ensures
        well_formed(inserted(t, prefix, comps, field), prefix),
    decreases comps.len(),
{
    if comps.len() == 0 || comps.len() == 1 || comps[0].len() == 0 {
    } else {
        let key = comps[0];
        let label = extend_path(prefix, key);
        let i = child_index(t.children, key);
        let after = inserted(t, prefix, comps, field);
        lemma_child_index_bounds(t.children, key);
        if i < t.children.len() {
            assert(well_formed(t.children[i].1, label));
            law_inserted_well_formed(t.children[i].1, label, comps.drop_first(), field);
            assert forall|k: int| 0 <= k < after.children.len() implies well_formed(
                (#[trigger] after.children[k]).1,
                extend_path(prefix, after.children[k].0),
            ) by {
                if k != i {
                    assert(after.children[k] == t.children[k]);
                }
            }
            assert forall|a: int, b: int| 0 <= a < b < after.children.len() implies text_before(
                (#[trigger] after.children[a]).0,
                (#[trigger] after.children[b]).0,
            ) by {
                assert(after.children[a].0 == t.children[a].0);
                assert(after.children[b].0 == t.children[b].0);
            }
        } else {
            let p = insert_place(t.children, key);
            lemma_insert_place_bounds(t.children, key);
            law_inserted_well_formed(leaf(label), label, comps.drop_first(), field);
            assert forall|k: int| 0 <= k < after.children.len() implies well_formed(
                (#[trigger] after.children[k]).1,
                extend_path(prefix, after.children[k].0),
            ) by {
                if k < p {
                    assert(after.children[k] == t.children[k]);
                } else if k > p {
                    assert(after.children[k] == t.children[k - 1]);
                }
            }
            assert forall|q: int| p <= q < t.children.len() implies text_before(
                key,
                (#[trigger] t.children[q]).0,
            ) by {
                lemma_text_before_total(key, t.children[q].0);
                if text_before(t.children[q].0, key) {
                    if q > p {
                        lemma_text_before_transitive(t.children[p].0, t.children[q].0, key);
                    }
                }
            }
            assert forall|a: int, b: int| 0 <= a < b < after.children.len() implies text_before(
                (#[trigger] after.children[a]).0,
                (#[trigger] after.children[b]).0,
            ) by {
                let x = if a < p {
                    a
                } else {
                    a - 1
                };
                let y = if b < p {
                    b
                } else {
                    b - 1
                };
                if a != p {
                    assert(after.children[a] == t.children[x]);
                }
                if b != p {
                    assert(after.children[b] == t.children[y]);
                }
            }
        }
    }
}

proof fn lemma_with_paths_well_formed(t: TrieView, field: FieldConfigView, n: nat)
    requires
        well_formed(t, Seq::empty()),
    ensures
        well_formed(with_paths(t, field, n), Seq::empty()),
    decreases n,
{
    if n > 0 {
        lemma_with_paths_well_formed(t, field, (n - 1) as nat);
        law_inserted_well_formed(
            with_paths(t, field, (n - 1) as nat),
            Seq::empty(),
            components(field.paths[n - 1]),
            field,
        );
    }
}

proof fn lemma_with_fields_well_formed(t: TrieView, fields: Seq<FieldConfigView>, n: nat)
    requires
        well_formed(t, Seq::empty()),
    ensures
        well_formed(with_fields(t, fields, n), Seq::empty()),
    decreases n,
{
    if n > 0 {
        lemma_with_fields_well_formed(t, fields, (n - 1) as nat);
        lemma_with_paths_well_formed(
            with_fields(t, fields, (n - 1) as nat),
            fields[n - 1],
            fields[n - 1].paths.len(),
        );
    }
}

/// The trie of a list of fields is well formed, with the empty label at its root.
pub proof fn law_built_well_formed(fields: Seq<FieldConfigView>)
    ensures
        well_formed(built(fields), Seq::empty()),
{
    lemma_with_fields_well_formed(leaf(Seq::empty()), fields, fields.len());
}

/// In a well-formed trie the node that a list of keys leads to is labelled with the
/// root's label extended by those keys, dot by dot.
pub proof fn law_descend_label(t: TrieView, label: Seq<char>, keys: Seq<Seq<char>>)
    requires
        well_formed(t, label),
        descend(t, keys) is Some,
    ensures
        descend(t, keys).unwrap().path == joined(label, keys),
        well_formed(descend(t, keys).unwrap(), joined(label, keys)),
    decreases keys.len(),
{
    if keys.len() > 0 {
        let i = child_index(t.children, keys[0]);
        lemma_child_index_bounds(t.children, keys[0]);
        assert(well_formed(t.children[i].1, extend_path(label, t.children[i].0)));
        law_descend_label(t.children[i].1, extend_path(label, keys[0]), keys.drop_first());
    }
}

/// Where a field has been registered under a path that walks at least one
/// component, the first child under that component is the one that the registration
/// went down into.
proof fn lemma_inserted_child(
    t: TrieView,
    prefix: Seq<char>,
    comps: Seq<Seq<char>>,
    field: FieldConfigView,
)
    requires
        comps.len() >= 2,
        comps[0].len() > 0,
    ensures
        ({
            let after = inserted(t, prefix, comps, field);
            let key = comps[0];
            let label = extend_path(prefix, key);
            let i = child_index(t.children, key);
            let at = child_index(after.children, key);
            &&& 0 <= at < after.children.len()
            &&& after.children[at].0 == key
            &&& i < t.children.len() ==> at == i && after.children[at].1 == inserted(
                t.children[i].1,
                label,
                comps.drop_first(),
                field,
            )
            &&& i >= t.children.len() ==> {
                &&& at == insert_place(t.children, key)
                &&& after.children[at].1 == inserted(leaf(label), label, comps.drop_first(), field)
            }
        }),
{
    let after = inserted(t, prefix, comps, field);
    let key = comps[0];
    let i = child_index(t.children, key);
    lemma_child_index_bounds(t.children, key);
    if i < t.children.len() {
        lemma_child_index(after.children, key, i);
    } else {
        let p = insert_place(t.children, key);
        lemma_insert_place_bounds(t.children, key);
        assert forall|k: int| 0 <= k < p implies after.children[k].0 != key by {
            assert(after.children[k] == t.children[k]);
        }
        lemma_child_index(after.children, key, p);
    }
}

/// After a field has been registered under a path, every stretch of the components
/// that the path walks leads to a node, and the node that all of them lead to holds
/// the field as its last registration: for `a.b.c` there are nodes under `a` and
/// under `a`, `b`, and the field stands at the latter.
pub proof fn law_inserted_path(
    t: TrieView,
    prefix: Seq<char>,
    comps: Seq<Seq<char>>,
    field: FieldConfigView,
    k: int,
)
    requires
        comps.len() >= 1,
        0 <= k <= walked(comps).len(),
    ensures
        descend(inserted(t, prefix, comps, field), walked(comps).take(k)) is Some,
        k == walked(comps).len() ==> ({
            let node = descend(inserted(t, prefix, comps, field), walked(comps).take(k)).unwrap();
            node.fields.len() >= 1 && node.fields.last() == field
        }),
    decreases comps.len(),
{
    let after = inserted(t, prefix, comps, field);
    let w = walked(comps);
    if comps.len() == 1 || comps[0].len() == 0 {
        assert(w.take(k) =~= Seq::<Seq<char>>::empty());
    } else {
        let key = comps[0];
        let label = extend_path(prefix, key);
        let i = child_index(t.children, key);
        let rest = comps.drop_first();
        lemma_child_index_bounds(t.children, key);
        lemma_inserted_child(t, prefix, comps, field);
        if k == 0 {
            assert(w.take(k) =~= Seq::<Seq<char>>::empty());
        } else {
            assert(w.take(k).drop_first() =~= walked(rest).take(k - 1));
            assert(w.take(k)[0] == key);
            if i < t.children.len() {
                law_inserted_path(t.children[i].1, label, rest, field, k - 1);
            } else {
                law_inserted_path(leaf(label), label, rest, field, k - 1);
            }
        }
    }
}

proof fn lemma_nodes_update(
    children: Seq<(Seq<char>, TrieView)>,
    i: int,
    child: (Seq<char>, TrieView),
)
    requires
        0 <= i < children.len(),
    ensures
        nodes_below(children.update(i, child)) + node_count(children[i].1) == nodes_below(children)
            + node_count(child.1),
    decreases children.len(),
{
    let updated = children.update(i, child);
    if i == children.len() - 1 {
        assert(updated.drop_last() =~= children.drop_last());
    } else {
        assert(updated.drop_last() =~= children.drop_last().update(i, child));
        lemma_nodes_update(children.drop_last(), i, child);
    }
}

/// Registering a field under a path whose nodes are all there creates no node.
pub proof fn lemma_inserted_reuses(
    t: TrieView,
    prefix: Seq<char>,
    comps: Seq<Seq<char>>,
    field: FieldConfigView,
)
    requires
        descend(t, walked(comps)) is Some,
    ensures
        node_count(inserted(t, prefix, comps, field)) == node_count(t),
        descend(inserted(t, prefix, comps, field), walked(comps)) is Some,
    decreases comps.len(),
{
    if comps.len() == 0 || comps.len() == 1 || comps[0].len() == 0 {
    } else {
        let key = comps[0];
        let label = extend_path(prefix, key);
        let i = child_index(t.children, key);
        let rest = comps.drop_first();
        let after = inserted(t, prefix, comps, field);
        assert(walked(comps).drop_first() =~= walked(rest));
        lemma_child_index_bounds(t.children, key);
        lemma_inserted_reuses(t.children[i].1, label, rest, field);
        lemma_nodes_update(t.children, i, (key, inserted(t.children[i].1, label, rest, field)));
        lemma_child_index(after.children, key, i);
    }
}

/// Registering a second field under a path that a field has been registered under
/// reuses the nodes of the first: the trie has as many nodes after as before.
pub proof fn law_reinsert_reuses_nodes(
    t: TrieView,
    prefix: Seq<char>,
    comps: Seq<Seq<char>>,
    first: FieldConfigView,
    second: FieldConfigView,
)
    requires
        comps.len() >= 1,
    ensures
        node_count(inserted(inserted(t, prefix, comps, first), prefix, comps, second))
            == node_count(inserted(t, prefix, comps, first)),
{
    let w = walked(comps);
    law_inserted_path(t, prefix, comps, first, w.len() as int);
    assert(w.take(w.len() as int) =~= w);
    lemma_inserted_reuses(inserted(t, prefix, comps, first), prefix, comps, second);
}

/// The fields registered at the node that `keys` lead to from `t`, in the order of
/// their registration; none where `keys` lead to no node.
pub open spec fn fields_at(t: TrieView, keys: Seq<Seq<char>>) -> Seq<FieldConfigView> {
    match descend(t, keys) {
        Some(node) => node.fields,
        None => Seq::empty(),
    }
}

/// `field`, once for each of its first `n` paths that walks exactly `keys`.
pub open spec fn path_registrations(field: FieldConfigView, n: nat, keys: Seq<Seq<char>>) -> Seq<
    FieldConfigView,
>
    decreases n,
{
    if n == 0 {
        Seq::empty()
    } else {
        path_registrations(field, (n - 1) as nat, keys) + (if walked(components(field.paths[n - 1]))
            == keys {
            seq![field]
        } else {
            Seq::empty()
        })
    }
}

/// Each of the first `n` of `fields`, once for each of its paths that walks exactly
/// `keys`, in the order of the fields and of their paths.
pub open spec fn field_registrations(
    fields: Seq<FieldConfigView>,
    n: nat,
    keys: Seq<Seq<char>>,
) -> Seq<FieldConfigView>
    decreases n,
{
    if n == 0 {
        Seq::empty()
    } else {
        field_registrations(fields, (n - 1) as nat, keys) + path_registrations(
            fields[n - 1],
            fields[n - 1].paths.len(),
            keys,
        )
    }
}

proof fn lemma_child_index_update(
    children: Seq<(Seq<char>, TrieView)>,
    i: int,
    child: (Seq<char>, TrieView),
    key: Seq<char>,
)
    requires
        0 <= i < children.len(),
        child.0 == children[i].0,
    ensures
        child_index(children.update(i, child), key) == child_index(children, key),
{
    let updated = children.update(i, child);
    let j = child_index(children, key);
    lemma_child_index_bounds(children, key);
    assert forall|k: int| 0 <= k < j implies updated[k].0 != key by {
        assert(updated[k].0 == children[k].0);
    }
    if j < children.len() {
        assert(updated[j].0 == children[j].0);
    }
    lemma_child_index(updated, key, j);
}

proof fn lemma_child_index_insert(
    children: Seq<(Seq<char>, TrieView)>,
    p: int,
    child: (Seq<char>, TrieView),
    key: Seq<char>,
)
    requires
        0 <= p <= children.len(),
        child.0 != key,
    ensures
        ({
            let j = child_index(children, key);
            let grown = children.insert(p, child);
            let at = child_index(grown, key);
            &&& 0 <= j <= children.len()
            &&& j < children.len() ==> 0 <= at < grown.len() && grown[at] == children[j]
            &&& j >= children.len() ==> at >= grown.len()
        }),
{
    let grown = children.insert(p, child);
    let j = child_index(children, key);
    lemma_child_index_bounds(children, key);
    if j < children.len() {
        let at = if j < p {
            j
        } else {
            j + 1
        };
        assert forall|k: int| 0 <= k < at implies grown[k].0 != key by {
            if k < p {
                assert(grown[k] == children[k]);
            } else if k > p {
                assert(grown[k] == children[k - 1]);
            }
        }
        assert(grown[at] == children[j]);
        lemma_child_index(grown, key, at);
    } else {
        assert forall|k: int| 0 <= k < grown.len() implies grown[k].0 != key by {
            if k < p {
                assert(grown[k] == children[k]);
            } else if k > p {
                assert(grown[k] == children[k - 1]);
            }
        }
        lemma_child_index(grown, key, grown.len() as int);
    }
}

/// Registering a field under a path adds it to the fields at the node that the
/// path walks to, and leaves the fields at every other place as they were.
pub proof fn lemma_inserted_fields_at(
    t: TrieView,
    prefix: Seq<char>,
    comps: Seq<Seq<char>>,
    field: FieldConfigView,
    keys: Seq<Seq<char>>,
)
    requires
        comps.len() >= 1,
    ensures
        fields_at(inserted(t, prefix, comps, field), keys) == if keys == walked(comps) {
            fields_at(t, keys).push(field)
        } else {
            fields_at(t, keys)
        },
    decreases comps.len(),
{
    let after = inserted(t, prefix, comps, field);
    let w = walked(comps);
    if comps.len() == 1 || comps[0].len() == 0 {
        if keys.len() == 0 {
            assert(keys =~= w);
        } else {
            assert(keys != w);
        }
    } else {
        let key = comps[0];
        let label = extend_path(prefix, key);
        let i = child_index(t.children, key);
        let rest = comps.drop_first();
        lemma_child_index_bounds(t.children, key);
        assert(w[0] == key);
        assert(w.drop_first() =~= walked(rest));
        if keys.len() == 0 {
            assert(keys != w);
        } else if keys[0] == key {
            let below = if i < t.children.len() {
                t.children[i].1
            } else {
                leaf(label)
            };
            lemma_inserted_child(t, prefix, comps, field);
            lemma_inserted_fields_at(below, label, rest, field, keys.drop_first());
            if keys.drop_first() == walked(rest) {
                assert(keys =~= w);
            } else {
                assert(keys != w) by {
                    if keys == w {
                        assert(keys.drop_first() == w.drop_first());
                    }
                }
            }
            if i >= t.children.len() {
                assert(descend(leaf(label), keys.drop_first()) is Some ==> keys.drop_first().len()
                    == 0);
            }
        } else {
            assert(keys != w);
            if i < t.children.len() {
                lemma_child_index_update(
                    t.children,
                    i,
                    (key, inserted(t.children[i].1, label, rest, field)),
                    keys[0],
                );
                let j = child_index(t.children, keys[0]);
                lemma_child_index_bounds(t.children, keys[0]);
                if j < t.children.len() {
                    assert(j != i);
                    assert(after.children[j] == t.children[j]);
                }
            } else {
                lemma_insert_place_bounds(t.children, key);
                lemma_child_index_insert(
                    t.children,
                    insert_place(t.children, key),
                    (key, inserted(leaf(label), label, rest, field)),
                    keys[0],
                );
            }
        }
    }
}

proof fn lemma_with_paths_fields_at(
    t: TrieView,
    field: FieldConfigView,
    n: nat,
    keys: Seq<Seq<char>>,
)
    ensures
        fields_at(with_paths(t, field, n), keys) == fields_at(t, keys) + path_registrations(
            field,
            n,
            keys,
        ),
    decreases n,
{
    if n == 0 {
        assert(fields_at(t, keys) + Seq::<FieldConfigView>::empty() =~= fields_at(t, keys));
    } else {
        let before = with_paths(t, field, (n - 1) as nat);
        lemma_with_paths_fields_at(t, field, (n - 1) as nat, keys);
        crate::text::lemma_components_nonempty(field.paths[n - 1]);
        lemma_inserted_fields_at(before, Seq::empty(), components(field.paths[n - 1]), field, keys);
        let earlier = path_registrations(field, (n - 1) as nat, keys);
        if walked(components(field.paths[n - 1])) == keys {
            assert((fields_at(t, keys) + earlier).push(field) =~= fields_at(t, keys) + (earlier
                + seq![field]));
        } else {
            assert(fields_at(t, keys) + earlier =~= fields_at(t, keys) + (earlier + Seq::<
                FieldConfigView,
            >::empty()));
        }
    }
}

proof fn lemma_with_fields_fields_at(
    t: TrieView,
    fields: Seq<FieldConfigView>,
    n: nat,
    keys: Seq<Seq<char>>,
)
    ensures
        fields_at(with_fields(t, fields, n), keys) == fields_at(t, keys) + field_registrations(
            fields,
            n,
            keys,
        ),
    decreases n,
{
    if n == 0 {
        assert(fields_at(t, keys) + Seq::<FieldConfigView>::empty() =~= fields_at(t, keys));
    } else {
        let before = with_fields(t, fields, (n - 1) as nat);
        lemma_with_fields_fields_at(t, fields, (n - 1) as nat, keys);
        lemma_with_paths_fields_at(before, fields[n - 1], fields[n - 1].paths.len(), keys);
        let earlier = field_registrations(fields, (n - 1) as nat, keys);
        let added = path_registrations(fields[n - 1], fields[n - 1].paths.len(), keys);
        assert((fields_at(t, keys) + earlier) + added =~= fields_at(t, keys) + (earlier + added));
    }
}

/// What the trie of a list of fields holds at each place: the fields registered at
/// the node that `keys` lead to are the fields with a path that walks exactly
/// `keys`, each once for every such path, in the order of the fields and of their
/// paths. Where no path walks `keys`, nothing is registered there.
pub proof fn law_built_fields_at(fields: Seq<FieldConfigView>, keys: Seq<Seq<char>>)
    ensures
        fields_at(built(fields), keys) == field_registrations(fields, fields.len(), keys),
{
    let root = leaf(Seq::empty());
    lemma_with_fields_fields_at(root, fields, fields.len(), keys);
    assert(fields_at(root, keys) =~= Seq::<FieldConfigView>::empty());
    assert(Seq::<FieldConfigView>::empty() + field_registrations(fields, fields.len(), keys)
        =~= field_registrations(fields, fields.len(), keys));
}

} // verus!
