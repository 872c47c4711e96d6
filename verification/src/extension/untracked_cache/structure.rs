//! How the directories of an untracked cache form a tree.

use vstd::prelude::*;

use crate::extension::untracked_cache::format::block_head_parsed;
use crate::extension::untracked_cache::format::directory_parsed;
use crate::extension::untracked_cache::format::lemma_block_head_shrinks;
use crate::extension::untracked_cache::format::lemma_directory_shrinks;
use crate::extension::untracked_cache::format::sub_directories_parsed;
use crate::extension::untracked_cache::DirectoryView;

verus! {

/// The index after the last directory below the one at `index`, if all of them follow it in depth-first order.
pub open spec fn subtree_end(directories: Seq<DirectoryView>, index: int) -> Option<int>
    decreases directories.len() - index, 0nat,
{
    if 0 <= index < directories.len() {
        siblings_end(directories, directories[index].sub_directories, index + 1)
    } else {
        None
    }
}

/// The index after the last directory at or below those that `children` refer to, if the first of these is at `next`
/// and all others follow in depth-first order.
pub open spec fn siblings_end(directories: Seq<DirectoryView>, children: Seq<usize>, next: int) -> Option<int>
    decreases directories.len() - next, children.len() + 1,
{
    if children.len() == 0 {
        Some(next)
    } else if children[0] != next {
        None
    } else {
        match subtree_end(directories, next) {
            Some(end) => if next < end <= directories.len() {
                siblings_end(directories, children.drop_first(), end)
            } else {
                None
            },
            None => None,
        }
    }
}

/// Whether `directories` are those of one tree, listed in depth-first order from its root.
pub open spec fn is_tree(directories: Seq<DirectoryView>) -> bool {
    directories.len() == 0 || subtree_end(directories, 0) == Some(directories.len() as int)
}

/// Whether no more than `depth` directories are nested within each other from the one at `index` on.
///
/// A sub-directory that does not exist does not count.
pub open spec fn nests_within(directories: Seq<DirectoryView>, index: int, depth: nat) -> bool
    decreases depth,
{
    0 <= index < directories.len() ==> depth > 0 && forall|k: int|
        0 <= k < directories[index].sub_directories.len() ==> nests_within(
            directories,
            #[trigger] directories[index].sub_directories[k] as int,
            (depth - 1) as nat,
        )
}

/// Whether no directory is nested within itself.
pub open spec fn is_acyclic(directories: Seq<DirectoryView>) -> bool {
    forall|index: int| 0 <= index < directories.len() ==> #[trigger] nests_within(directories, index, directories.len())
}

/// Whether each sub-directory of those from `start` to before `end` comes after its parent and before `end`.
pub open spec fn children_follow(directories: Seq<DirectoryView>, start: int, end: int) -> bool {
    forall|i: int, k: int|
        #![trigger directories[i].sub_directories[k]]
        start <= i < end && 0 <= k < directories[i].sub_directories.len() ==> i < directories[i].sub_directories[k]
            < end
}

/// Sub-directories come after their parent.
pub proof fn lemma_subtree_children_follow(directories: Seq<DirectoryView>, index: int)
    ensures
        subtree_end(directories, index) matches Some(end) ==> {
            &&& 0 <= index < end <= directories.len()
            &&& children_follow(directories, index, end)
        },
    decreases directories.len() - index, 0nat,
{
    if 0 <= index < directories.len() {
        let children = directories[index].sub_directories;
        lemma_siblings_children_follow(directories, children, index + 1);
        if let Some(end) = subtree_end(directories, index) {
            assert forall|i: int, k: int|
                #![trigger directories[i].sub_directories[k]]
                index <= i < end && 0 <= k < directories[i].sub_directories.len() implies i
                < directories[i].sub_directories[k] < end by {
                if i == index {
                    assert(index + 1 <= children[k] < end);
                }
            }
        }
    }
}

/// Siblings and all below them come one after another.
proof fn lemma_siblings_children_follow(directories: Seq<DirectoryView>, children: Seq<usize>, next: int)
    requires
        0 <= next <= directories.len(),
    ensures
        siblings_end(directories, children, next) matches Some(end) ==> {
            &&& next <= end <= directories.len()
            &&& children_follow(directories, next, end)
            &&& forall|k: int| 0 <= k < children.len() ==> next <= #[trigger] children[k] < end
        },
    decreases directories.len() - next, children.len() + 1,
{
    if children.len() > 0 && children[0] == next {
        lemma_subtree_children_follow(directories, next);
        if let Some(first_end) = subtree_end(directories, next) {
            if next < first_end <= directories.len() {
                lemma_siblings_children_follow(directories, children.drop_first(), first_end);
                if let Some(end) = siblings_end(directories, children, next) {
                    assert forall|k: int| 0 <= k < children.len() implies next <= #[trigger] children[k] < end by {
                        if k > 0 {
                            assert(children[k] == children.drop_first()[k - 1]);
                        }
                    }
                }
            }
        }
    }
}

/// The amount of children is bounded by that of the directories below.
pub proof fn lemma_siblings_count(directories: Seq<DirectoryView>, children: Seq<usize>, next: int)
    requires
        0 <= next <= directories.len(),
    ensures
        siblings_end(directories, children, next) matches Some(end) ==> next + children.len() <= end
            <= directories.len(),
    decreases children.len(),
{
    if children.len() > 0 && children[0] == next {
        if let Some(first_end) = subtree_end(directories, next) {
            if next < first_end <= directories.len() {
                lemma_siblings_count(directories, children.drop_first(), first_end);
            }
        }
    }
}

/// What is nested within a depth is nested within a larger one.
proof fn lemma_nests_within_more(directories: Seq<DirectoryView>, index: int, depth: nat, more: nat)
    requires
        nests_within(directories, index, depth),
        depth <= more,
    ensures
        nests_within(directories, index, more),
    decreases depth,
{
    if 0 <= index < directories.len() {
        let children = directories[index].sub_directories;
        assert forall|k: int| 0 <= k < children.len() implies nests_within(
            directories,
            #[trigger] directories[index].sub_directories[k] as int,
            (more - 1) as nat,
        ) by {
            lemma_nests_within_more(directories, children[k] as int, (depth - 1) as nat, (more - 1) as nat);
        }
    }
}

/// Directories nest no deeper than there are directories after the first of them, if sub-directories come after their
/// parent.
proof fn lemma_following_children_nest(directories: Seq<DirectoryView>, index: int)
    requires
        children_follow(directories, 0, directories.len() as int),
        0 <= index < directories.len(),
    ensures
        nests_within(directories, index, (directories.len() - index) as nat),
    decreases directories.len() - index,
{
    let children = directories[index].sub_directories;
    assert forall|k: int| 0 <= k < children.len() implies nests_within(
        directories,
        #[trigger] directories[index].sub_directories[k] as int,
        (directories.len() - index - 1) as nat,
    ) by {
        let child = children[k] as int;
        lemma_following_children_nest(directories, child);
        lemma_nests_within_more(
            directories,
            child,
            (directories.len() - child) as nat,
            (directories.len() - index - 1) as nat,
        );
    }
}

/// No directory of a tree is nested within itself.
pub proof fn law_tree_is_acyclic(directories: Seq<DirectoryView>)
    requires
        is_tree(directories),
    ensures
        is_acyclic(directories),
{
    lemma_subtree_children_follow(directories, 0);
    assert forall|index: int| 0 <= index < directories.len() implies #[trigger] nests_within(
        directories,
        index,
        directories.len(),
    ) by {
        lemma_following_children_nest(directories, index);
        lemma_nests_within_more(directories, index, (directories.len() - index) as nat, directories.len());
    }
}

/// Each directory of a tree is the root of a part of it.
pub proof fn lemma_subtree_of_subtree(directories: Seq<DirectoryView>, root: int, index: int)
    requires
        subtree_end(directories, root) matches Some(end) && root <= index < end,
    ensures
        subtree_end(directories, index) is Some,
    decreases directories.len() - root, 0nat,
{
    if root < index {
        lemma_subtree_of_siblings(directories, directories[root].sub_directories, root + 1, index);
    }
}

/// Each directory at or below siblings is the root of a part of their tree.
proof fn lemma_subtree_of_siblings(directories: Seq<DirectoryView>, children: Seq<usize>, next: int, index: int)
    requires
        0 <= next <= directories.len(),
        siblings_end(directories, children, next) matches Some(end) && next <= index < end,
    ensures
        subtree_end(directories, index) is Some,
    decreases directories.len() - next, children.len() + 1,
{
    let first_end = subtree_end(directories, next)->0;
    if index < first_end {
        lemma_subtree_of_subtree(directories, next, index);
    } else {
        lemma_subtree_of_siblings(directories, children.drop_first(), first_end, index);
    }
}

/// Whether `part` has the same structure as the directories that start at `index`.
pub open spec fn has_part(directories: Seq<DirectoryView>, index: int, part: Seq<DirectoryView>) -> bool {
    &&& 0 <= index
    &&& index + part.len() <= directories.len()
    &&& forall|i: int|
        0 <= i < part.len() ==> (#[trigger] part[i]).sub_directories == directories[index + i].sub_directories
}

/// A directory block describes a directory and all below it in depth-first order.
pub proof fn lemma_parsed_subtree(
    data: Seq<u8>,
    index: nat,
    limit: Option<usize>,
    directories: Seq<DirectoryView>,
)
    requires
        directory_parsed(data, index, limit) matches Some((part, _)) && has_part(directories, index as int, part),
        directories.len() <= usize::MAX,
    ensures
        directory_parsed(data, index, limit) matches Some((part, _)) && subtree_end(directories, index as int) == Some(
            index + part.len() as int,
        ),
    decreases data.len(), 0nat,
{
    lemma_block_head_shrinks(data, limit);
    let (part, _) = directory_parsed(data, index, limit)->0;
    let (head, tail) = block_head_parsed(data, limit)->0;
    let (indices, below, _) = sub_directories_parsed(tail, index + 1, head.num_sub_directories, limit)->0;
    assert(part[0].sub_directories == indices);
    assert forall|i: int| 0 <= i < below.len() implies (#[trigger] below[i]).sub_directories == directories[index + 1
        + i].sub_directories by {
        assert(part[i + 1] == below[i]);
    }
    lemma_parsed_siblings(tail, index + 1, head.num_sub_directories, limit, directories);
}

/// Directory blocks describe siblings and all below them in depth-first order.
proof fn lemma_parsed_siblings(
    data: Seq<u8>,
    index: nat,
    count: nat,
    limit: Option<usize>,
    directories: Seq<DirectoryView>,
)
    requires
        sub_directories_parsed(data, index, count, limit) matches Some((_, part, _)) && has_part(
            directories,
            index as int,
            part,
        ),
        directories.len() <= usize::MAX,
    ensures
        sub_directories_parsed(data, index, count, limit) matches Some((indices, part, _)) && siblings_end(
            directories,
            indices,
            index as int,
        ) == Some(index + part.len() as int),
    decreases data.len(), 1nat,
{
    if count > 0 {
        lemma_directory_shrinks(data, index, limit);
        let (indices, part, _) = sub_directories_parsed(data, index, count, limit)->0;
        let (first, tail) = directory_parsed(data, index, limit)->0;
        let (more_indices, more, _) = sub_directories_parsed(tail, index + first.len(), (count - 1) as nat, limit)->0;
        assert forall|i: int| 0 <= i < first.len() implies (#[trigger] first[i]).sub_directories == directories[index
            + i].sub_directories by {
            assert(part[i] == first[i]);
        }
        assert forall|i: int| 0 <= i < more.len() implies (#[trigger] more[i]).sub_directories == directories[index
            + first.len() + i].sub_directories by {
            assert(part[first.len() + i] == more[i]);
        }
        lemma_parsed_subtree(data, index, limit, directories);
        lemma_parsed_siblings(tail, index + first.len(), (count - 1) as nat, limit, directories);
        assert(indices.drop_first() =~= more_indices);
    }
}

/// A directory that is decoded from the start of a cache is the root of a tree that consists of all that is decoded
/// along with it, whatever attributes they have.
pub proof fn lemma_parsed_tree(data: Seq<u8>, limit: Option<usize>, directories: Seq<DirectoryView>)
    requires
        directory_parsed(data, 0, limit) matches Some((parsed, _)) && has_part(directories, 0, parsed) && parsed.len()
            == directories.len(),
        directories.len() <= usize::MAX,
    ensures
        is_tree(directories),
{
    lemma_parsed_subtree(data, 0, limit, directories);
}

/// Whether the directory at `child` is the one that the directory at `parent` lists at `position`.
pub open spec fn is_child(directories: Seq<DirectoryView>, parent: int, position: int, child: int) -> bool {
    &&& 0 <= parent < directories.len()
    &&& 0 <= position < directories[parent].sub_directories.len()
    &&& directories[parent].sub_directories[position] == child
}

/// Whether the directory at `child` is listed by one before it.
pub open spec fn has_parent(directories: Seq<DirectoryView>, child: int) -> bool {
    exists|parent: int, position: int| #[trigger]
        is_child(directories, parent, position, child) && 0 <= parent < child
}

/// Whether the directory at `index` is the first one, or the child of a directory before it of which the same holds.
pub open spec fn is_reached(directories: Seq<DirectoryView>, index: int) -> bool
    decreases index,
{
    ||| index == 0
    ||| exists|parent: int, position: int| #[trigger]
        is_child(directories, parent, position, index) && 0 <= parent < index && is_reached(directories, parent)
}

/// Siblings are listed in ascending order.
proof fn lemma_siblings_ascend(directories: Seq<DirectoryView>, children: Seq<usize>, next: int)
    requires
        0 <= next <= directories.len(),
        siblings_end(directories, children, next) is Some,
    ensures
        children.len() > 0 ==> children[0] == next,
        forall|j: int, k: int| 0 <= j < k < children.len() ==> children[j] < children[k],
    decreases children.len(),
{
    if children.len() > 0 {
        let first_end = subtree_end(directories, next)->0;
        let others = children.drop_first();
        lemma_siblings_ascend(directories, others, first_end);
        lemma_siblings_children_follow(directories, others, first_end);
        assert forall|j: int, k: int| 0 <= j < k < children.len() implies children[j] < children[k] by {
            assert(children[k] == others[k - 1]);
            if j > 0 {
                assert(children[j] == others[j - 1]);
            }
        }
    }
}

/// Each directory below a directory is listed by another one that is at or below it.
proof fn lemma_subtree_has_parents(directories: Seq<DirectoryView>, root: int, index: int)
    requires
        subtree_end(directories, root) matches Some(end) && root < index < end,
    ensures
        exists|parent: int, position: int| #[trigger]
            is_child(directories, parent, position, index) && root <= parent < index,
    decreases directories.len() - root, 0nat,
{
    let children = directories[root].sub_directories;
    lemma_siblings_have_parents(directories, children, root + 1, index);
    if children.contains(index as usize) {
        let position = children.index_of(index as usize);
        assert(is_child(directories, root, position, index));
    }
}

/// Each directory at or below siblings is one of them, or listed by another one that is at or below them.
proof fn lemma_siblings_have_parents(directories: Seq<DirectoryView>, children: Seq<usize>, next: int, index: int)
    requires
        0 <= next <= directories.len(),
        siblings_end(directories, children, next) matches Some(end) && next <= index < end,
    ensures
        0 <= index <= usize::MAX && children.contains(index as usize) || exists|parent: int, position: int| #[trigger]
            is_child(directories, parent, position, index) && next <= parent < index,
    decreases directories.len() - next, children.len() + 1,
{
    let first_end = subtree_end(directories, next)->0;
    if index == next {
        assert(children[0] == index);
    } else if index < first_end {
        lemma_subtree_has_parents(directories, next, index);
    } else {
        let others = children.drop_first();
        lemma_siblings_have_parents(directories, others, first_end, index);
        if 0 <= index <= usize::MAX && others.contains(index as usize) {
            let position = others.index_of(index as usize);
            assert(children[position + 1] == index as usize);
        }
    }
}

/// No directory is listed twice by those from `start` to before `end`.
pub open spec fn parents_are_unique(directories: Seq<DirectoryView>, start: int, end: int) -> bool {
    forall|parent: int, position: int, other: int, other_position: int, child: int|
        start <= parent < end && start <= other < end && #[trigger] is_child(directories, parent, position, child)
            && #[trigger] is_child(directories, other, other_position, child) ==> parent == other && position
            == other_position
}

/// No directory at or below a directory is listed twice.
proof fn lemma_subtree_parents_are_unique(directories: Seq<DirectoryView>, root: int)
    requires
        subtree_end(directories, root) is Some,
    ensures
        parents_are_unique(directories, root, subtree_end(directories, root)->0),
    decreases directories.len() - root, 0nat,
{
    let children = directories[root].sub_directories;
    let end = subtree_end(directories, root)->0;
    lemma_siblings_parents_are_unique(directories, children, root + 1);
    lemma_siblings_ascend(directories, children, root + 1);
    assert forall|parent: int, position: int, other: int, other_position: int, child: int|
        root <= parent < end && root <= other < end && #[trigger] is_child(directories, parent, position, child)
            && #[trigger] is_child(directories, other, other_position, child) implies parent == other && position
        == other_position by {
        if parent == root && other == root {
            assert(children[position] == children[other_position]);
            if position < other_position {
                assert(children[position] < children[other_position]);
            } else if other_position < position {
                assert(children[other_position] < children[position]);
            }
        } else if parent == root {
            assert(children[position] == child);
            assert(directories[other].sub_directories[other_position] != children[position]);
        } else if other == root {
            assert(children[other_position] == child);
            assert(directories[parent].sub_directories[position] != children[other_position]);
        }
    }
}

/// No directory at or below siblings is listed twice, and the siblings themselves aren't listed by any of them.
proof fn lemma_siblings_parents_are_unique(directories: Seq<DirectoryView>, children: Seq<usize>, next: int)
    requires
        0 <= next <= directories.len(),
        siblings_end(directories, children, next) is Some,
    ensures
        parents_are_unique(directories, next, siblings_end(directories, children, next)->0),
        forall|parent: int, position: int, k: int|
            next <= parent < siblings_end(directories, children, next)->0 && 0 <= position
                < directories[parent].sub_directories.len() && 0 <= k < children.len() ==> #[trigger]
            directories[parent].sub_directories[position] != #[trigger] children[k],
    decreases directories.len() - next, children.len() + 1,
{
    if children.len() > 0 {
        let end = siblings_end(directories, children, next)->0;
        let first_end = subtree_end(directories, next)->0;
        let others = children.drop_first();
        lemma_subtree_parents_are_unique(directories, next);
        lemma_siblings_parents_are_unique(directories, others, first_end);
        lemma_subtree_children_follow(directories, next);
        lemma_siblings_children_follow(directories, others, first_end);
        assert forall|parent: int, position: int, k: int|
            next <= parent < end && 0 <= position < directories[parent].sub_directories.len() && 0 <= k
                < children.len() implies #[trigger] directories[parent].sub_directories[position]
            != #[trigger] children[k] by {
            if k > 0 {
                assert(children[k] == others[k - 1]);
            }
        }
        assert forall|parent: int, position: int, other: int, other_position: int, child: int|
            next <= parent < end && next <= other < end && #[trigger] is_child(directories, parent, position, child)
                && #[trigger] is_child(directories, other, other_position, child) implies parent == other && position
            == other_position by {
            assert(parent < directories[parent].sub_directories[position]);
            assert(other < directories[other].sub_directories[other_position]);
        }
    }
}

/// The sub-directories of each directory of a tree come right after it, in ascending order.
pub proof fn law_children_are_ascending(directories: Seq<DirectoryView>, parent: int)
    requires
        is_tree(directories),
        0 <= parent < directories.len(),
    ensures
        directories[parent].sub_directories.len() > 0 ==> directories[parent].sub_directories[0] == parent + 1,
        forall|j: int, k: int|
            0 <= j < k < directories[parent].sub_directories.len() ==> directories[parent].sub_directories[j]
                < directories[parent].sub_directories[k],
        forall|k: int|
            0 <= k < directories[parent].sub_directories.len() ==> parent
                < #[trigger] directories[parent].sub_directories[k] < directories.len(),
{
    lemma_subtree_of_subtree(directories, 0, parent);
    lemma_siblings_ascend(directories, directories[parent].sub_directories, parent + 1);
    lemma_subtree_children_follow(directories, 0);
}

/// Each directory of a tree, except for the root, is listed by exactly one other directory, which comes before it, and
/// exactly once. The root isn't listed by any.
pub proof fn law_each_directory_has_one_parent(directories: Seq<DirectoryView>)
    requires
        is_tree(directories),
    ensures
        forall|child: int| 0 < child < directories.len() ==> #[trigger] has_parent(directories, child),
        parents_are_unique(directories, 0, directories.len() as int),
        forall|parent: int, position: int| !#[trigger] is_child(directories, parent, position, 0),
{
    if directories.len() > 0 {
        lemma_subtree_parents_are_unique(directories, 0);
        lemma_subtree_children_follow(directories, 0);
        assert forall|child: int| 0 < child < directories.len() implies #[trigger] has_parent(directories, child) by {
            lemma_subtree_has_parents(directories, 0, child);
        }
        assert forall|parent: int, position: int| !#[trigger] is_child(directories, parent, position, 0) by {
            if is_child(directories, parent, position, 0) {
                assert(parent < directories[parent].sub_directories[position]);
            }
        }
    }
}

/// Each directory of a tree is reached from the root.
pub proof fn law_each_directory_is_reached(directories: Seq<DirectoryView>, index: int)
    requires
        is_tree(directories),
        0 <= index < directories.len(),
    ensures
        is_reached(directories, index),
    decreases index,
{
    if index > 0 {
        lemma_subtree_has_parents(directories, 0, index);
        let (parent, position) = choose|parent: int, position: int| #[trigger]
            is_child(directories, parent, position, index) && 0 <= parent < index;
        law_each_directory_is_reached(directories, parent);
    }
}

/// The directories of a tree are listed depth-first: between a directory and one of its sub-directories, there is
/// nothing but what is below it.
pub proof fn law_tree_is_listed_depth_first(
    directories: Seq<DirectoryView>,
    parent: int,
    position: int,
    child: int,
    other: int,
    other_position: int,
    between: int,
)
    requires
        is_tree(directories),
        0 <= parent < directories.len(),
        0 <= position < directories[parent].sub_directories.len(),
        directories[parent].sub_directories[position] == child,
        0 <= other < directories.len(),
        0 <= other_position < directories[other].sub_directories.len(),
        directories[other].sub_directories[other_position] == between,
        parent < between < child,
    ensures
        parent <= other,
{
    lemma_subtree_of_subtree(directories, 0, parent);
    lemma_subtree_children_follow(directories, parent);
    assert(is_child(directories, parent, position, child));
    assert(is_child(directories, other, other_position, between));
    lemma_subtree_has_parents(directories, parent, between);
    let (found, found_position) = choose|found: int, found_position: int| #[trigger]
        is_child(directories, found, found_position, between) && parent <= found < between;
    lemma_subtree_parents_are_unique(directories, 0);
    assert(found == other);
}

} // verus!
