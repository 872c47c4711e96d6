//! A cache of the tree objects that correspond to the directories of an index.

use vstd::prelude::*;

use crate::extension::Signature;
use crate::hash::ObjectId;
use crate::util::law_strings_are_ordered_by_bytes;
use crate::util::law_terminated_string_is_found;
use crate::util::lemma_first_index;
use crate::util::lemma_split_at_byte_parts;
use crate::util::owned;
use crate::util::precedes;
use crate::util::split_at_byte;

verus! {

/// `TREE`, the signature for tree extensions
pub const SIGNATURE: Signature = [0x54, 0x52, 0x45, 0x45];

/// The byte that separates the components of a path.
pub const SEPARATOR: u8 = 0x2f;

/// A directory along with the tree object that it corresponds to.
#[derive(Debug)]
pub struct Tree {
    /// The name of the directory, which is a single path component, or empty for the root.
    pub name: Vec<u8>,
    /// The id of the tree object.
    pub id: ObjectId,
    /// The amount of index entries in this directory and all below it, or `None` if the id is not valid.
    pub num_entries: Option<u32>,
    /// The sub-directories, sorted by name.
    pub children: Vec<Tree>,
}

/// What there is to know of a [`Tree`].
#[verifier::ext_equal]
pub struct TreeView {
    /// The name of the directory.
    pub name: Seq<u8>,
    /// The bytes of the id of the tree object.
    pub id: Seq<u8>,
    /// The amount of index entries, or `None` if the id is not valid.
    pub num_entries: Option<u32>,
    /// The sub-directories.
    pub children: Seq<TreeView>,
}

impl Tree {
    /// What there is to know of this tree.
    pub open spec fn spec_view(self) -> TreeView
        decreases self,
    {
        TreeView {
            name: self.name@,
            id: self.id@,
            num_entries: self.num_entries,
            children: Seq::new(
                self.children@.len(),
                |i: int|
                    if 0 <= i < self.children@.len() {
                        self.children@[i].spec_view()
                    } else {
                        arbitrary()
                    },
            ),
        }
    }
}

impl Clone for Tree {
    fn clone(&self) -> (res: Self)
        ensures
            res@ == self@,
        decreases self,
    {
        let mut children: Vec<Tree> = Vec::new();
        let mut index: usize = 0;
        while index < self.children.len()
            invariant
                index <= self.children.len(),
                children@.len() == index,
                forall|i: int| 0 <= i < index ==> (#[trigger] children@[i])@ == self.children@[i]@,
            decreases self.children.len() - index,
        {
            children.push(self.children[index].clone());
            index = index + 1;
        }
        let res = Tree {
            name: owned(self.name.as_slice()),
            id: self.id,
            num_entries: self.num_entries,
            children,
        };
        assert(res@.children =~= self@.children);
        res
    }
}

impl View for Tree {
    type V = TreeView;

    open spec fn view(&self) -> TreeView {
        self.spec_view()
    }
}

/// Whether `children` are sorted by name, with no name occurring twice.
pub open spec fn are_sorted(children: Seq<TreeView>) -> bool {
    forall|i: int, j: int| 0 <= i < j < children.len() ==> precedes(children[i].name, children[j].name)
}

/// Whether the children of `tree`, and those of all trees below it, are sorted.
pub open spec fn is_sorted(tree: TreeView) -> bool
    decreases tree,
{
    are_sorted(tree.children) && forall|i: int| 0 <= i < tree.children.len() ==> is_sorted(#[trigger] tree.children[i])
}

/// The position of the child with `name`.
pub open spec fn child_position(children: Seq<TreeView>, name: Seq<u8>) -> Option<int> {
    if exists|i: int| 0 <= i < children.len() && (#[trigger] children[i]).name == name {
        Some(choose|i: int| 0 <= i < children.len() && (#[trigger] children[i]).name == name)
    } else {
        None
    }
}

/// The `tree` after the directory that contains `path` and each of its ancestors were invalidated, and the directory at
/// `path` was removed.
pub open spec fn invalidated(tree: TreeView, path: Seq<u8>) -> TreeView
    decreases path.len(),
{
    let children = match split_at_byte(path, SEPARATOR) {
        Some((component, remainder)) => match child_position(tree.children, component) {
            Some(position) => {
                proof {
                    lemma_first_index(path, SEPARATOR);
                }
                tree.children.update(position, invalidated(tree.children[position], remainder))
            },
            None => tree.children,
        },
        None => match child_position(tree.children, path) {
            Some(position) => tree.children.remove(position),
            None => tree.children,
        },
    };
    TreeView { num_entries: None, children, ..tree }
}

/// Whether `res` is what invalidating `path` makes of `tree`, whose children need not be sorted: a child may then be
/// overlooked, and any of several children with the same name be taken for the right one.
pub open spec fn is_invalidated(tree: TreeView, path: Seq<u8>, res: TreeView) -> bool
    decreases path.len(),
{
    &&& res.name == tree.name
    &&& res.id == tree.id
    &&& res.num_entries is None
    &&& match split_at_byte(path, SEPARATOR) {
        Some((component, remainder)) => {
            proof {
                lemma_first_index(path, SEPARATOR);
            }
            ||| res.children == tree.children && !(are_sorted(tree.children) && has_child(tree.children, component))
            ||| exists|position: int, child: TreeView|
                0 <= position < tree.children.len() && tree.children[position].name == component
                    && is_invalidated(tree.children[position], remainder, child) && res.children
                    == #[trigger] tree.children.update(position, child)
        },
        None => {
            ||| res.children == tree.children && !(are_sorted(tree.children) && has_child(tree.children, path))
            ||| exists|position: int|
                0 <= position < tree.children.len() && tree.children[position].name == path && res.children
                    == #[trigger] tree.children.remove(position)
        },
    }
}

/// Whether one of `children` has `name`.
pub open spec fn has_child(children: Seq<TreeView>, name: Seq<u8>) -> bool {
    exists|i: int| 0 <= i < children.len() && (#[trigger] children[i]).name == name
}

/// A child of sorted children is where its name says.
proof fn lemma_child_position(children: Seq<TreeView>, position: int)
    requires
        are_sorted(children),
        0 <= position < children.len(),
    ensures
        child_position(children, children[position].name) == Some(position),
{
    let name = children[position].name;
    let found = child_position(children, name)->0;
    assert(children[found].name == name);
    lemma_precedes_is_asymmetric(name, name);
}

/// If children are sorted, there is only one outcome of invalidating a path.
proof fn lemma_invalidation_is_determined(tree: TreeView, path: Seq<u8>, res: TreeView)
    requires
        is_sorted(tree),
        is_invalidated(tree, path, res),
    ensures
        res == invalidated(tree, path),
    decreases path.len(),
{
    match split_at_byte(path, SEPARATOR) {
        Some((component, remainder)) => {
            lemma_first_index(path, SEPARATOR);
            if has_child(tree.children, component) {
                let (position, child) = choose|position: int, child: TreeView|
                    0 <= position < tree.children.len() && tree.children[position].name == component && is_invalidated(
                        tree.children[position],
                        remainder,
                        child,
                    ) && res.children == #[trigger] tree.children.update(position, child);
                lemma_child_position(tree.children, position);
                lemma_invalidation_is_determined(tree.children[position], remainder, child);
            }
        },
        None => {
            if has_child(tree.children, path) {
                let position = choose|position: int|
                    0 <= position < tree.children.len() && tree.children[position].name == path && res.children
                        == #[trigger] tree.children.remove(position);
                lemma_child_position(tree.children, position);
            }
        },
    }
}

/// How two names relate.
enum Order {
    /// The first one comes first.
    Less,
    /// They are the same.
    Equal,
    /// The second one comes first.
    Greater,
}

/// Of two different names, exactly one comes first.
proof fn lemma_precedes_is_asymmetric(a: Seq<u8>, b: Seq<u8>)
    ensures
        !(precedes(a, b) && precedes(b, a)),
        a == b ==> !precedes(a, b),
    decreases a.len(),
{
    if a.len() > 0 && b.len() > 0 {
        lemma_precedes_is_asymmetric(a.drop_first(), b.drop_first());
    }
}

/// The order of names is transitive.
proof fn lemma_precedes_is_transitive(a: Seq<u8>, b: Seq<u8>, c: Seq<u8>)
    requires
        precedes(a, b),
        precedes(b, c),
    ensures
        precedes(a, c),
    decreases a.len(),
{
    if a.len() > 0 && a[0] == b[0] && b[0] == c[0] {
        lemma_precedes_is_transitive(a.drop_first(), b.drop_first(), c.drop_first());
    }
}

/// Names that start with the same bytes relate as what follows these bytes.
proof fn lemma_precedes_common(a: Seq<u8>, b: Seq<u8>, len: int)
    requires
        0 <= len <= a.len(),
        len <= b.len(),
        forall|i: int| 0 <= i < len ==> a[i] == b[i],
    ensures
        precedes(a, b) == precedes(a.skip(len), b.skip(len)),
    decreases len,
{
    if len == 0 {
        assert(a.skip(0) =~= a);
        assert(b.skip(0) =~= b);
    } else {
        let (a_rest, b_rest) = (a.drop_first(), b.drop_first());
        assert forall|i: int| 0 <= i < len - 1 implies a_rest[i] == b_rest[i] by {
            assert(a[i + 1] == b[i + 1]);
        }
        lemma_precedes_common(a_rest, b_rest, len - 1);
        assert(a_rest.skip(len - 1) =~= a.skip(len));
        assert(b_rest.skip(len - 1) =~= b.skip(len));
    }
}

/// Return how `a` relates to `b`.
fn compare_names(a: &[u8], b: &[u8]) -> (res: Order)
    ensures
        match res {
            Order::Less => precedes(a@, b@),
            Order::Equal => a@ == b@,
            Order::Greater => precedes(b@, a@),
        },
{
    let mut index: usize = 0;
    while index < a.len() && index < b.len()
        invariant
            index <= a.len(),
            index <= b.len(),
            forall|i: int| 0 <= i < index ==> a@[i] == b@[i],
        decreases a.len() - index,
    {
        if a[index] != b[index] {
            proof {
                lemma_precedes_common(a@, b@, index as int);
                lemma_precedes_common(b@, a@, index as int);
            }
            if a[index] < b[index] {
                return Order::Less;
            } else {
                return Order::Greater;
            }
        }
        index = index + 1;
    }
    proof {
        lemma_precedes_common(a@, b@, index as int);
        lemma_precedes_common(b@, a@, index as int);
    }
    if index < b.len() {
        Order::Less
    } else if index < a.len() {
        Order::Greater
    } else {
        assert(a@ =~= b@);
        Order::Equal
    }
}

/// Return what stands before and after the first `splitter` in `path`, or `None` if it isn't contained.
///
/// This is `bstr::ByteSlice::split_once_str()` with a splitter of a single byte.
#[verifier::external_body]
fn split_once(path: &[u8], splitter: u8) -> (res: Option<(&[u8], &[u8])>)
    ensures
        match res {
            Some((component, remainder)) => split_at_byte(path@, splitter) == Some((component@, remainder@)),
            None => split_at_byte(path@, splitter) is None,
        },
{
    bstr::ByteSlice::split_once_str(path, &[splitter])
}

/// What there is to know of each of `trees`.
pub open spec fn tree_views(trees: Seq<Tree>) -> Seq<TreeView> {
    trees.map_values(|tree: Tree| tree@)
}

/// Return the position of the child with `name`, which is found if `children` are sorted.
fn find_child(children: &Vec<Tree>, name: &[u8]) -> (res: Option<usize>)
    ensures
        res matches Some(position) ==> position < children@.len() && children@[position as int].name@ == name@,
        res is None ==> !(are_sorted(tree_views(children@)) && has_child(tree_views(children@), name@)),
{
    let ghost views = tree_views(children@);
    let ghost sorted = are_sorted(views);
    let mut start: usize = 0;
    let mut end: usize = children.len();
    while start < end
        invariant
            start <= end <= children@.len(),
            views == tree_views(children@),
            sorted == are_sorted(views),
            sorted ==> forall|i: int| 0 <= i < start ==> precedes((#[trigger] views[i]).name, name@),
            sorted ==> forall|i: int| end <= i < views.len() ==> precedes(name@, (#[trigger] views[i]).name),
        decreases end - start,
    {
        let middle: usize = start + (end - start) / 2;
        let ghost middle_name = views[middle as int].name;
        match compare_names(children[middle].name.as_slice(), name) {
            Order::Equal => {
                return Some(middle);
            },
            Order::Less => {
                assert forall|i: int| sorted && 0 <= i < middle + 1 implies precedes(
                    (#[trigger] views[i]).name,
                    name@,
                ) by {
                    if i < middle {
                        lemma_precedes_is_transitive(views[i].name, middle_name, name@);
                    }
                }
                start = middle + 1;
            },
            Order::Greater => {
                assert forall|i: int| sorted && middle <= i < views.len() implies precedes(
                    name@,
                    (#[trigger] views[i]).name,
                ) by {
                    if middle < i {
                        lemma_precedes_is_transitive(name@, middle_name, views[i].name);
                    }
                }
                end = middle;
            },
        }
    }
    assert forall|i: int| sorted && 0 <= i < views.len() implies (#[trigger] views[i]).name != name@ by {
        lemma_precedes_is_asymmetric(views[i].name, name@);
    }
    None
}

impl Tree {
    /// Invalidate the cached directory containing `path` and each of its ancestors.
    ///
    /// Cached sibling directories remain valid. If `path` names a cached directory itself,
    /// remove that directory because the index entry may now replace it with a file.
    pub fn invalidate_path(&mut self, path: &[u8])
        ensures
            is_sorted(old(self)@) ==> final(self)@ == invalidated(old(self)@, path@),
            is_invalidated(old(self)@, path@, final(self)@),
        decreases path@.len(),
    {
        let ghost before = self@;
        assert(before.children =~= tree_views(self.children@));
        self.num_entries = None;
        match split_once(path, SEPARATOR) {
            None => {
                match find_child(&self.children, path) {
                    Some(position) => {
                        let _ = self.children.remove(position);
                        assert(self@.children =~= before.children.remove(position as int));
                    },
                    None => {
                        assert(self@.children =~= before.children);
                    },
                }
            },
            Some((component, remainder)) => {
                proof {
                    lemma_first_index(path@, SEPARATOR);
                }
                match find_child(&self.children, component) {
                    Some(position) => {
                        self.children[position].invalidate_path(remainder);
                        let ghost child = self.children@[position as int]@;
                        assert(self@.children =~= before.children.update(position as int, child));
                        assert(is_invalidated(before.children[position as int], remainder@, child));
                    },
                    None => {
                        assert(self@.children =~= before.children);
                    },
                }
            },
        }
        proof {
            if is_sorted(before) {
                lemma_invalidation_is_determined(before, path@, self@);
            }
        }
    }
}

/// The directory at `path` below `tree`.
pub open spec fn cached(tree: TreeView, path: Seq<u8>) -> Option<TreeView>
    decreases path.len(),
{
    match split_at_byte(path, SEPARATOR) {
        Some((component, remainder)) => match child_position(tree.children, component) {
            Some(position) => {
                proof {
                    lemma_first_index(path, SEPARATOR);
                }
                cached(tree.children[position], remainder)
            },
            None => None,
        },
        None => match child_position(tree.children, path) {
            Some(position) => Some(tree.children[position]),
            None => None,
        },
    }
}

/// The path of what `name` refers to in the directory at `directory`.
pub open spec fn joined(directory: Seq<u8>, name: Seq<u8>) -> Seq<u8> {
    directory.push(SEPARATOR) + name
}

/// Whether neither of two paths is the same as the other, or below it.
pub open spec fn diverge(path: Seq<u8>, other: Seq<u8>) -> bool
    decreases path.len(),
{
    match (split_at_byte(path, SEPARATOR), split_at_byte(other, SEPARATOR)) {
        (Some((component, remainder)), Some((other_component, other_remainder))) => {
            proof {
                lemma_first_index(path, SEPARATOR);
            }
            component != other_component || diverge(remainder, other_remainder)
        },
        (Some((component, _)), None) => component != other,
        (None, Some((other_component, _))) => path != other_component,
        (None, None) => path != other,
    }
}

/// The first component of a path in a directory is that of the directory.
proof fn lemma_split_joined(directory: Seq<u8>, name: Seq<u8>)
    ensures
        split_at_byte(joined(directory, name), SEPARATOR) == match split_at_byte(directory, SEPARATOR) {
            Some((component, remainder)) => Some((component, joined(remainder, name))),
            None => Some((directory, name)),
        },
{
    lemma_split_at_byte_parts(directory, SEPARATOR);
    match split_at_byte(directory, SEPARATOR) {
        Some((component, remainder)) => {
            assert(joined(directory, name) =~= component.push(SEPARATOR) + joined(remainder, name));
            law_terminated_string_is_found(component, SEPARATOR, joined(remainder, name));
        },
        None => {
            law_terminated_string_is_found(directory, SEPARATOR, name);
        },
    }
}

/// Replacing a child by one of the same name keeps the children sorted, and all where they were.
proof fn lemma_child_replaced(children: Seq<TreeView>, position: int, child: TreeView, name: Seq<u8>)
    requires
        are_sorted(children),
        0 <= position < children.len(),
        child.name == children[position].name,
    ensures
        are_sorted(children.update(position, child)),
        child_position(children.update(position, child), name) == child_position(children, name),
{
    let updated = children.update(position, child);
    assert forall|i: int, j: int| 0 <= i < j < updated.len() implies precedes(updated[i].name, updated[j].name) by {
        assert(precedes(children[i].name, children[j].name));
    }
    if has_child(children, name) {
        let found = choose|i: int| 0 <= i < children.len() && (#[trigger] children[i]).name == name;
        assert(updated[found].name == name);
        lemma_child_position(children, found);
        lemma_child_position(updated, found);
    } else {
        assert forall|i: int| 0 <= i < updated.len() implies (#[trigger] updated[i]).name != name by {
            assert(children[i].name != name);
        }
    }
}

/// Removing a child keeps the others, and keeps them sorted.
proof fn lemma_child_removed(children: Seq<TreeView>, position: int, name: Seq<u8>)
    requires
        are_sorted(children),
        0 <= position < children.len(),
    ensures
        are_sorted(children.remove(position)),
        child_position(children.remove(position), children[position].name) is None,
        name != children[position].name ==> match child_position(children, name) {
            Some(found) => child_position(children.remove(position), name) matches Some(now) && children.remove(
                position,
            )[now] == children[found],
            None => child_position(children.remove(position), name) is None,
        },
{
    let left = children.remove(position);
    assert forall|i: int, j: int| 0 <= i < j < left.len() implies precedes(left[i].name, left[j].name) by {
        let i_before = if i < position { i } else { i + 1 };
        let j_before = if j < position { j } else { j + 1 };
        assert(precedes(children[i_before].name, children[j_before].name));
    }
    assert forall|i: int| 0 <= i < left.len() implies (#[trigger] left[i]).name != children[position].name by {
        let before = if i < position { i } else { i + 1 };
        assert(left[i] == children[before]);
        lemma_child_position(children, before);
        lemma_child_position(children, position);
    }
    if name != children[position].name {
        if has_child(children, name) {
            let found = choose|i: int| 0 <= i < children.len() && (#[trigger] children[i]).name == name;
            lemma_child_position(children, found);
            let now = if found < position { found } else { found - 1 };
            assert(left[now] == children[found]);
            lemma_child_position(left, now);
        } else {
            assert forall|i: int| 0 <= i < left.len() implies (#[trigger] left[i]).name != name by {
                let before = if i < position { i } else { i + 1 };
                assert(children[before].name != name);
            }
        }
    }
}

/// Sorted children remain sorted when a path is invalidated.
pub proof fn law_invalidation_keeps_order(tree: TreeView, path: Seq<u8>)
    requires
        is_sorted(tree),
    ensures
        is_sorted(invalidated(tree, path)),
    decreases path.len(),
{
    let res = invalidated(tree, path);
    match split_at_byte(path, SEPARATOR) {
        Some((component, remainder)) => {
            lemma_first_index(path, SEPARATOR);
            if let Some(position) = child_position(tree.children, component) {
                let child = invalidated(tree.children[position], remainder);
                law_invalidation_keeps_order(tree.children[position], remainder);
                lemma_child_replaced(tree.children, position, child, component);
                assert forall|i: int| 0 <= i < res.children.len() implies is_sorted(#[trigger] res.children[i]) by {
                    assert(is_sorted(tree.children[i]));
                }
            }
        },
        None => {
            if let Some(position) = child_position(tree.children, path) {
                lemma_child_removed(tree.children, position, path);
                assert forall|i: int| 0 <= i < res.children.len() implies is_sorted(#[trigger] res.children[i]) by {
                    let before = if i < position { i } else { i + 1 };
                    assert(is_sorted(tree.children[before]));
                }
            }
        },
    }
}

/// What is at an invalidated path is not cached anymore, and neither is anything below it.
pub proof fn law_invalidated_path_is_not_cached(tree: TreeView, path: Seq<u8>, below: Seq<u8>)
    requires
        is_sorted(tree),
    ensures
        cached(invalidated(tree, path), path) is None,
        cached(invalidated(tree, path), joined(path, below)) is None,
    decreases path.len(),
{
    lemma_split_joined(path, below);
    match split_at_byte(path, SEPARATOR) {
        Some((component, remainder)) => {
            lemma_first_index(path, SEPARATOR);
            if let Some(position) = child_position(tree.children, component) {
                let child = invalidated(tree.children[position], remainder);
                law_invalidated_path_is_not_cached(tree.children[position], remainder, below);
                lemma_child_replaced(tree.children, position, child, component);
            }
        },
        None => {
            if let Some(position) = child_position(tree.children, path) {
                lemma_child_removed(tree.children, position, path);
            }
        },
    }
}

/// Each cached directory on the way to an invalidated path is invalidated in turn, and remains cached.
pub proof fn law_ancestors_are_invalidated(tree: TreeView, directory: Seq<u8>, name: Seq<u8>)
    requires
        is_sorted(tree),
    ensures
        invalidated(tree, joined(directory, name)).num_entries is None,
        cached(invalidated(tree, joined(directory, name)), directory) == match cached(tree, directory) {
            Some(ancestor) => Some(invalidated(ancestor, name)),
            None => None,
        },
        cached(invalidated(tree, joined(directory, name)), directory) matches Some(ancestor)
            ==> ancestor.num_entries is None,
    decreases directory.len(),
{
    let path = joined(directory, name);
    lemma_split_joined(directory, name);
    lemma_first_index(directory, SEPARATOR);
    let (component, remainder) = split_at_byte(path, SEPARATOR)->0;
    if let Some(position) = child_position(tree.children, component) {
        let child = invalidated(tree.children[position], remainder);
        lemma_child_replaced(tree.children, position, child, component);
        if let Some((_, directory_remainder)) = split_at_byte(directory, SEPARATOR) {
            law_ancestors_are_invalidated(tree.children[position], directory_remainder, name);
        }
    }
}

/// Directories that are neither on the way to an invalidated path nor below it remain as they are.
pub proof fn law_others_remain_cached(tree: TreeView, path: Seq<u8>, other: Seq<u8>)
    requires
        is_sorted(tree),
        diverge(path, other),
    ensures
        cached(invalidated(tree, path), other) == cached(tree, other),
    decreases path.len(),
{
    lemma_first_index(path, SEPARATOR);
    lemma_first_index(other, SEPARATOR);
    let other_component = match split_at_byte(other, SEPARATOR) {
        Some((component, _)) => component,
        None => other,
    };
    match split_at_byte(path, SEPARATOR) {
        Some((component, remainder)) => {
            if let Some(position) = child_position(tree.children, component) {
                let child = invalidated(tree.children[position], remainder);
                lemma_child_replaced(tree.children, position, child, other_component);
                if component == other_component {
                    let (_, other_remainder) = split_at_byte(other, SEPARATOR)->0;
                    law_others_remain_cached(tree.children[position], remainder, other_remainder);
                } else if let Some(other_position) = child_position(tree.children, other_component) {
                    assert(tree.children[other_position].name == other_component);
                    assert(tree.children[position].name == component);
                }
            }
        },
        None => {
            if let Some(position) = child_position(tree.children, path) {
                lemma_child_removed(tree.children, position, other_component);
            }
        },
    }
}

/// Invalidating a path again changes nothing.
pub proof fn law_invalidation_is_idempotent(tree: TreeView, path: Seq<u8>)
    requires
        is_sorted(tree),
    ensures
        invalidated(invalidated(tree, path), path) == invalidated(tree, path),
    decreases path.len(),
{
    let res = invalidated(tree, path);
    match split_at_byte(path, SEPARATOR) {
        Some((component, remainder)) => {
            lemma_first_index(path, SEPARATOR);
            if let Some(position) = child_position(tree.children, component) {
                let child = invalidated(tree.children[position], remainder);
                law_invalidation_is_idempotent(tree.children[position], remainder);
                lemma_child_replaced(tree.children, position, child, component);
                assert(res.children.update(position, child) =~= res.children);
            }
        },
        None => {
            if let Some(position) = child_position(tree.children, path) {
                lemma_child_removed(tree.children, position, path);
            }
        },
    }
}

/// Where a child is after another one was removed.
proof fn lemma_position_after_removal(children: Seq<TreeView>, removed: int, position: int)
    requires
        are_sorted(children),
        0 <= removed < children.len(),
        0 <= position < children.len(),
        position != removed,
    ensures
        child_position(children.remove(removed), children[position].name) == Some(
            if position < removed {
                position
            } else {
                position - 1
            },
        ),
{
    lemma_child_removed(children, removed, children[position].name);
    let now = if position < removed { position } else { position - 1 };
    assert(children.remove(removed)[now] == children[position]);
    lemma_child_position(children.remove(removed), now);
}

/// What invalidating `path` makes of the children of a directory.
pub open spec fn invalidated_children(children: Seq<TreeView>, path: Seq<u8>) -> Seq<TreeView> {
    match split_at_byte(path, SEPARATOR) {
        Some((component, remainder)) => match child_position(children, component) {
            Some(position) => children.update(position, invalidated(children[position], remainder)),
            None => children,
        },
        None => match child_position(children, path) {
            Some(position) => children.remove(position),
            None => children,
        },
    }
}

/// The first component of a path.
pub open spec fn first_component(path: Seq<u8>) -> Seq<u8> {
    match split_at_byte(path, SEPARATOR) {
        Some((component, _)) => component,
        None => path,
    }
}

/// Invalidating a path has no effect on children that it does not lead to, other than that these may move.
proof fn lemma_other_child_remains(children: Seq<TreeView>, path: Seq<u8>, name: Seq<u8>)
    requires
        are_sorted(children),
        name != first_component(path),
    ensures
        are_sorted(invalidated_children(children, path)),
        child_position(children, name) is None ==> child_position(invalidated_children(children, path), name) is None,
        child_position(children, name) matches Some(position) ==> child_position(
            invalidated_children(children, path),
            name,
        ) == match (split_at_byte(path, SEPARATOR), child_position(children, path)) {
            (None, Some(removed)) => Some(
                if position < removed {
                    position
                } else {
                    position - 1
                },
            ),
            _ => Some(position),
        },
{
    match split_at_byte(path, SEPARATOR) {
        Some((component, remainder)) => {
            if let Some(position) = child_position(children, component) {
                lemma_child_replaced(children, position, invalidated(children[position], remainder), name);
            }
        },
        None => {
            if let Some(removed) = child_position(children, path) {
                lemma_child_removed(children, removed, name);
                if let Some(position) = child_position(children, name) {
                    lemma_position_after_removal(children, removed, position);
                }
            }
        },
    }
}

/// It does not matter in which order children are changed if two paths lead to different ones.
proof fn lemma_different_children_commute(children: Seq<TreeView>, path: Seq<u8>, other: Seq<u8>)
    requires
        are_sorted(children),
        first_component(path) != first_component(other),
    ensures
        invalidated_children(invalidated_children(children, path), other) == invalidated_children(
            invalidated_children(children, other),
            path,
        ),
{
    let name = first_component(path);
    let other_name = first_component(other);
    lemma_other_child_remains(children, path, other_name);
    lemma_other_child_remains(children, other, name);
    if let Some(position) = child_position(children, name) {
        if let Some(other_position) = child_position(children, other_name) {
            assert(position != other_position);
            let one = invalidated_children(invalidated_children(children, path), other);
            let two = invalidated_children(invalidated_children(children, other), path);
            assert(one =~= two);
        }
    }
}

/// It does not matter in which order two paths are invalidated, even if one leads to a directory on the way to the
/// other.
pub proof fn law_order_of_invalidation_does_not_matter(tree: TreeView, path: Seq<u8>, other: Seq<u8>)
    requires
        is_sorted(tree),
    ensures
        invalidated(invalidated(tree, path), other) == invalidated(invalidated(tree, other), path),
    decreases path.len(),
{
    let children = tree.children;
    let name = first_component(path);
    lemma_first_index(path, SEPARATOR);
    if name != first_component(other) {
        lemma_different_children_commute(children, path, other);
    } else if let Some(position) = child_position(children, name) {
        match (split_at_byte(path, SEPARATOR), split_at_byte(other, SEPARATOR)) {
            (Some((_, remainder)), Some((_, other_remainder))) => {
                let child = invalidated(children[position], remainder);
                let other_child = invalidated(children[position], other_remainder);
                lemma_child_replaced(children, position, child, name);
                lemma_child_replaced(children, position, other_child, name);
                law_order_of_invalidation_does_not_matter(children[position], remainder, other_remainder);
                assert(children.update(position, child).update(position, invalidated(child, other_remainder))
                    =~= children.update(position, other_child).update(position, invalidated(other_child, remainder)));
            },
            (Some((_, remainder)), None) => {
                let child = invalidated(children[position], remainder);
                lemma_child_replaced(children, position, child, name);
                lemma_child_removed(children, position, name);
                assert(children.update(position, child).remove(position) =~= children.remove(position));
            },
            (None, Some((_, other_remainder))) => {
                let other_child = invalidated(children[position], other_remainder);
                lemma_child_replaced(children, position, other_child, name);
                lemma_child_removed(children, position, name);
                assert(children.update(position, other_child).remove(position) =~= children.remove(position));
            },
            (None, None) => {},
        }
    }
}

/// The amount of directories in `tree`, including itself.
pub open spec fn tree_size(tree: TreeView) -> nat
    decreases tree,
{
    1 + forest_size(tree.children)
}

/// The amount of directories in all of `trees`.
pub open spec fn forest_size(trees: Seq<TreeView>) -> nat
    decreases trees,
{
    if trees.len() == 0 {
        0
    } else {
        forest_size(trees.subrange(0, trees.len() - 1)) + tree_size(trees[trees.len() - 1])
    }
}

/// Replacing a tree changes the amount of directories by how much larger it is.
proof fn lemma_forest_size_of_update(trees: Seq<TreeView>, position: int, tree: TreeView)
    requires
        0 <= position < trees.len(),
    ensures
        forest_size(trees.update(position, tree)) + tree_size(trees[position]) == forest_size(trees) + tree_size(tree),
    decreases trees.len(),
{
    let updated = trees.update(position, tree);
    let before = trees.subrange(0, trees.len() - 1);
    if position == trees.len() - 1 {
        assert(updated.subrange(0, updated.len() - 1) =~= before);
    } else {
        lemma_forest_size_of_update(before, position, tree);
        assert(updated.subrange(0, updated.len() - 1) =~= before.update(position, tree));
    }
}

/// Removing a tree changes the amount of directories by its size.
proof fn lemma_forest_size_of_removal(trees: Seq<TreeView>, position: int)
    requires
        0 <= position < trees.len(),
    ensures
        forest_size(trees.remove(position)) + tree_size(trees[position]) == forest_size(trees),
    decreases trees.len(),
{
    let left = trees.remove(position);
    let before = trees.subrange(0, trees.len() - 1);
    if position == trees.len() - 1 {
        assert(left =~= before);
    } else {
        lemma_forest_size_of_removal(before, position);
        assert(left.subrange(0, left.len() - 1) =~= before.remove(position));
        assert(left[left.len() - 1] == trees[trees.len() - 1]);
    }
}

/// The only directories that are lost when a path is invalidated are the one at that path and all below it.
pub proof fn law_invalidation_loses_one_directory_at_most(tree: TreeView, path: Seq<u8>)
    ensures
        tree_size(tree) == tree_size(invalidated(tree, path)) + match cached(tree, path) {
            Some(lost) => tree_size(lost),
            None => 0,
        },
    decreases path.len(),
{
    match split_at_byte(path, SEPARATOR) {
        Some((component, remainder)) => {
            lemma_first_index(path, SEPARATOR);
            if let Some(position) = child_position(tree.children, component) {
                let child = tree.children[position];
                law_invalidation_loses_one_directory_at_most(child, remainder);
                lemma_forest_size_of_update(tree.children, position, invalidated(child, remainder));
            }
        },
        None => {
            if let Some(position) = child_position(tree.children, path) {
                lemma_forest_size_of_removal(tree.children, position);
            }
        },
    }
}

/// Whether `kept` are positions in ascending order, each of which is less than `len`.
pub open spec fn is_selection(kept: Seq<int>, len: nat) -> bool {
    &&& forall|i: int| 0 <= i < kept.len() ==> 0 <= #[trigger] kept[i] < len
    &&& forall|i: int, j: int| 0 <= i < j < kept.len() ==> kept[i] < kept[j]
}

/// Whether `after` consists of directories of `before`: it has the same name and id, and its children are some of those
/// of `before`, in the same order, of which in turn the same holds.
pub open spec fn is_retained(before: TreeView, after: TreeView) -> bool
    decreases after,
{
    &&& after.name == before.name
    &&& after.id == before.id
    &&& exists|kept: Seq<int>| #[trigger]
        is_selection(kept, before.children.len()) && kept.len() == after.children.len() && forall|i: int|
            0 <= i < kept.len() ==> is_retained(before.children[kept[i]], #[trigger] after.children[i])
}

/// A tree consists of its own directories.
proof fn lemma_tree_is_retained(tree: TreeView)
    ensures
        is_retained(tree, tree),
    decreases tree,
{
    let kept = Seq::new(tree.children.len(), |i: int| i);
    assert(is_selection(kept, tree.children.len()));
    assert forall|i: int| 0 <= i < kept.len() implies is_retained(
        tree.children[kept[i]],
        #[trigger] tree.children[i],
    ) by {
        lemma_tree_is_retained(tree.children[i]);
    }
}

/// Invalidating a path leaves a part of the directories at each level, in the order in which they were before.
pub proof fn law_directories_are_retained(tree: TreeView, path: Seq<u8>)
    ensures
        is_retained(tree, invalidated(tree, path)),
        invalidated(tree, path).num_entries is None,
    decreases path.len(),
{
    let children = tree.children;
    let after = invalidated(tree, path);
    assert forall|i: int| 0 <= i < children.len() implies is_retained(
        #[trigger] children[i],
        children[i],
    ) by {
        lemma_tree_is_retained(children[i]);
    }
    let all = Seq::new(children.len(), |i: int| i);
    match split_at_byte(path, SEPARATOR) {
        Some((component, remainder)) => {
            lemma_first_index(path, SEPARATOR);
            if let Some(position) = child_position(children, component) {
                law_directories_are_retained(children[position], remainder);
            }
            assert(is_selection(all, children.len()));
            assert forall|i: int| 0 <= i < all.len() implies is_retained(
                children[all[i]],
                #[trigger] after.children[i],
            ) by {
                assert(is_retained(children[i], children[i]));
            }
        },
        None => {
            if let Some(position) = child_position(children, path) {
                let kept = Seq::new(
                    (children.len() - 1) as nat,
                    |i: int|
                        if i < position {
                            i
                        } else {
                            i + 1
                        },
                );
                assert(is_selection(kept, children.len()));
                assert forall|i: int| 0 <= i < kept.len() implies is_retained(
                    children[kept[i]],
                    #[trigger] after.children[i],
                ) by {
                    assert(is_retained(children[kept[i]], children[kept[i]]));
                }
            } else {
                assert(is_selection(all, children.len()));
                assert forall|i: int| 0 <= i < all.len() implies is_retained(
                    children[all[i]],
                    #[trigger] after.children[i],
                ) by {
                    assert(is_retained(children[i], children[i]));
                }
            }
        },
    }
}

/// A directory is looked up by its exact name: what is found has that name, and whatever has it is found.
pub proof fn law_lookup_is_by_exact_name(tree: TreeView, name: Seq<u8>, position: int)
    requires
        is_sorted(tree),
        !name.contains(0x2f),
    ensures
        cached(tree, name) matches Some(found) ==> found.name == name && tree.children.contains(found),
        0 <= position < tree.children.len() && tree.children[position].name == name ==> cached(tree, name) == Some(
            tree.children[position],
        ),
{
    lemma_split_at_byte_parts(name, SEPARATOR);
    if 0 <= position < tree.children.len() && tree.children[position].name == name {
        lemma_child_position(tree.children, position);
    }
}

/// A directory within another one is looked up there: the first component is that up to the first slash.
pub proof fn law_lookup_goes_by_components(tree: TreeView, component: Seq<u8>, remainder: Seq<u8>)
    requires
        !component.contains(0x2f),
    ensures
        cached(tree, component + seq![0x2fu8] + remainder) == match cached(tree, component) {
            Some(directory) => cached(directory, remainder),
            None => None,
        },
{
    lemma_split_at_byte_parts(component, SEPARATOR);
    assert(component + seq![0x2fu8] + remainder =~= component.push(SEPARATOR) + remainder);
    law_terminated_string_is_found(component, SEPARATOR, remainder);
}

/// The directory that contains an invalidated path, and each on the way to it, is not valid anymore: at every slash.
pub proof fn law_directories_up_to_each_slash_are_invalid(tree: TreeView, path: Seq<u8>, slash: int)
    requires
        is_sorted(tree),
        0 <= slash < path.len(),
        path[slash] == 0x2f,
    ensures
        invalidated(tree, path).num_entries is None,
        invalidated(tree, path).id == tree.id,
        invalidated(tree, path).name == tree.name,
        cached(tree, path.take(slash)) is Some ==> {
            &&& cached(invalidated(tree, path), path.take(slash)) matches Some(directory)
            &&& directory.num_entries is None
            &&& directory.id == (cached(tree, path.take(slash))->0).id
            &&& directory.name == (cached(tree, path.take(slash))->0).name
        },
{
    assert(path =~= joined(path.take(slash), path.skip(slash + 1)));
    law_ancestors_are_invalidated(tree, path.take(slash), path.skip(slash + 1));
}

/// Whether `path` is in the directory at `directory`, or in one below it.
pub open spec fn is_below(path: Seq<u8>, directory: Seq<u8>) -> bool {
    &&& directory.len() < path.len()
    &&& path.take(directory.len() as int) == directory
    &&& path[directory.len() as int] == 0x2f
}

/// What is below a directory is what follows the slash after it.
proof fn lemma_below_is_joined(path: Seq<u8>, directory: Seq<u8>)
    requires
        is_below(path, directory),
    ensures
        path == joined(directory, path.skip(directory.len() as int + 1)),
        path.contains(SEPARATOR),
{
    assert(path =~= joined(directory, path.skip(directory.len() as int + 1)));
    assert(path[directory.len() as int] == SEPARATOR);
}

/// A path is below another one with the same first component exactly if it is after that component.
proof fn lemma_below_after_component(component: Seq<u8>, path: Seq<u8>, directory: Seq<u8>)
    ensures
        is_below(joined(component, path), joined(component, directory)) <==> is_below(path, directory),
        joined(component, path) == joined(component, directory) <==> path == directory,
{
    let whole = joined(component, path);
    let other = joined(component, directory);
    let len = component.len() + 1;
    assert(whole.skip(len as int) =~= path);
    assert(other.skip(len as int) =~= directory);
    if is_below(path, directory) {
        assert(whole.take(other.len() as int) =~= joined(component, path.take(directory.len() as int)));
        assert(whole[other.len() as int] == path[directory.len() as int]);
    }
    if is_below(whole, other) {
        assert(path.take(directory.len() as int) =~= whole.take(other.len() as int).skip(len as int));
        assert(whole[other.len() as int] == path[directory.len() as int]);
    }
}

/// What is below a path with several components has the same first one.
proof fn lemma_below_has_first_component(path: Seq<u8>, directory: Seq<u8>)
    requires
        is_below(path, directory),
        split_at_byte(directory, SEPARATOR) is Some,
    ensures
        split_at_byte(path, SEPARATOR) matches Some((component, _)) && component == (split_at_byte(
            directory,
            SEPARATOR,
        )->0).0,
{
    let (component, remainder) = split_at_byte(directory, SEPARATOR)->0;
    let name = path.skip(directory.len() as int + 1);
    lemma_below_is_joined(path, directory);
    lemma_split_at_byte_parts(directory, SEPARATOR);
    assert(path =~= component.push(SEPARATOR) + joined(remainder, name));
    law_terminated_string_is_found(component, SEPARATOR, joined(remainder, name));
}

/// Two paths diverge exactly if they differ, and neither is below the other.
pub proof fn law_diverging_paths_are_not_nested(path: Seq<u8>, other: Seq<u8>)
    ensures
        diverge(path, other) <==> path != other && !is_below(path, other) && !is_below(other, path),
    decreases path.len(),
{
    lemma_first_index(path, SEPARATOR);
    lemma_split_at_byte_parts(path, SEPARATOR);
    lemma_split_at_byte_parts(other, SEPARATOR);
    if is_below(path, other) {
        lemma_below_is_joined(path, other);
        if split_at_byte(other, SEPARATOR) is Some {
            lemma_below_has_first_component(path, other);
        } else {
            law_terminated_string_is_found(other, SEPARATOR, path.skip(other.len() as int + 1));
        }
    }
    if is_below(other, path) {
        lemma_below_is_joined(other, path);
        if split_at_byte(path, SEPARATOR) is Some {
            lemma_below_has_first_component(other, path);
        } else {
            law_terminated_string_is_found(path, SEPARATOR, other.skip(path.len() as int + 1));
        }
    }
    match (split_at_byte(path, SEPARATOR), split_at_byte(other, SEPARATOR)) {
        (Some((component, remainder)), Some((other_component, other_remainder))) => {
            if component == other_component {
                law_diverging_paths_are_not_nested(remainder, other_remainder);
                lemma_below_after_component(component, remainder, other_remainder);
                lemma_below_after_component(component, other_remainder, remainder);
            }
        },
        (Some((component, _)), None) => {
            assert(path.take(component.len() as int) =~= component);
            assert(path[component.len() as int] == SEPARATOR);
        },
        (None, Some((other_component, _))) => {
            assert(other.take(other_component.len() as int) =~= other_component);
            assert(other[other_component.len() as int] == SEPARATOR);
        },
        (None, None) => {},
    }
}

/// A directory stays as it is if the invalidated path is not in it or below it, and if it is neither at that path nor
/// below it.
pub proof fn law_unrelated_directories_stay_as_they_are(tree: TreeView, path: Seq<u8>, other: Seq<u8>)
    requires
        is_sorted(tree),
        path != other,
        !is_below(path, other),
        !is_below(other, path),
    ensures
        cached(invalidated(tree, path), other) == cached(tree, other),
{
    law_diverging_paths_are_not_nested(path, other);
    law_others_remain_cached(tree, path, other);
}

/// A tree whose children are sorted themselves is sorted exactly if each of its children comes before all that follow
/// it: its name is what the other name starts with, or has the smaller byte where they first differ.
pub proof fn law_names_in_byte_order_are_sorted(tree: TreeView)
    requires
        forall|i: int| 0 <= i < tree.children.len() ==> is_sorted(#[trigger] tree.children[i]),
    ensures
        is_sorted(tree) <==> forall|i: int, j: int|
            0 <= i < j < tree.children.len() ==> {
                let (a, b) = ((#[trigger] tree.children[i]).name, (#[trigger] tree.children[j]).name);
                ||| a.len() < b.len() && a == b.take(a.len() as int)
                ||| exists|k: int| 0 <= k < a.len() && k < b.len() && #[trigger] a.take(k) == b.take(k) && a[k] < b[k]
            },
{
    assert forall|i: int, j: int| 0 <= i < j < tree.children.len() implies (precedes(
        (#[trigger] tree.children[i]).name,
        (#[trigger] tree.children[j]).name,
    ) <==> {
        let (a, b) = (tree.children[i].name, tree.children[j].name);
        ||| a.len() < b.len() && a == b.take(a.len() as int)
        ||| exists|k: int| 0 <= k < a.len() && k < b.len() && #[trigger] a.take(k) == b.take(k) && a[k] < b[k]
    }) by {
        law_strings_are_ordered_by_bytes(tree.children[i].name, tree.children[j].name);
    }
}

} // verus!
