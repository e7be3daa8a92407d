//! The playlist tree of a database.
//!
//! The nodes of the tree are the rows of the tables of playlist tree nodes.
//! Every node names the folder that holds it; the nodes at the top name the
//! folder `0`. The tree is listed in the order in which it is shown: every
//! node is followed by what it holds, and the nodes of one folder come in
//! the order of their rows.
//!
//! The rows are indexed by the folder that they name, and the rows of a
//! folder are given out once, to the first listed node that has the id of
//! the folder. So every row is listed at most once, whatever the rows say of
//! each other, and the listing takes two steps for every row.

use crate::pdb::database::{file_chain, file_page_size, file_table};
use crate::pdb::header::{header_error, header_tables, pages_parsed_from, Header};
use crate::pdb::page::{Page, RowGroup, Slot};
use crate::pdb::row::playlist_tree_node::PlaylistTreeNode;
use crate::pdb::row::{PageType, Row};
use crate::pdb::string::DeviceString;
use crate::pdb::PdbError;
use std::collections::HashMap;
use vstd::prelude::*;
use vstd::string::StringExecFns;

verus! {

/// Id of the folder that holds the nodes at the top of the tree.
pub const ROOT_ID: u32 = 0;

/// Sign in front of the name of a folder.
pub const FOLDER_SIGN: char = '\u{1F5C0}';

/// Sign in front of the name of a playlist.
pub const PLAYLIST_SIGN: char = '\u{1F5CE}';

/// One line of the listed tree.
#[derive(Debug, Clone, PartialEq, Eq)]
pub struct TreeEntry {
    /// Depth of the node: `0` at the top.
    pub level: usize,
    /// Id of the node.
    pub id: u32,
    /// Whether the node is a folder.
    pub is_folder: bool,
    /// Name of the node.
    pub name: String,
}

/// What a line of the listed tree says.
pub struct EntryView {
    /// Depth of the node.
    pub level: nat,
    /// Id of the node.
    pub id: u32,
    /// Whether the node is a folder.
    pub is_folder: bool,
    /// Name of the node.
    pub name: Seq<char>,
}

impl View for TreeEntry {
    type V = EntryView;

    open spec fn view(&self) -> EntryView {
        EntryView {
            level: self.level as nat,
            id: self.id,
            is_folder: self.is_folder,
            name: self.name@,
        }
    }
}

/// What a row of the playlist tree says: the part of it that the tree is
/// built from.
pub struct NodeView {
    /// Id of the node.
    pub id: u32,
    /// Id of the folder that holds the node.
    pub parent_id: u32,
    /// Whether the node is a folder.
    pub is_folder: bool,
    /// Name of the node.
    pub name: Seq<char>,
}

/// What the rows say, row by row.
pub open spec fn node_views(nodes: Seq<PlaylistTreeNode>) -> Seq<NodeView> {
    Seq::new(
        nodes.len(),
        |i: int|
            NodeView {
                id: nodes[i].id,
                parent_id: nodes[i].parent_id,
                is_folder: nodes[i].is_folder(),
                name: nodes[i].name.text@,
            },
    )
}

/// The line for a node at a depth.
pub open spec fn entry_of(node: NodeView, level: nat) -> EntryView {
    EntryView { level, id: node.id, is_folder: node.is_folder, name: node.name }
}

/// The positions of the rows among the first `n` that name `parent` as their
/// folder, in the order of the rows.
pub open spec fn children_upto(v: Seq<NodeView>, parent: u32, n: int) -> Seq<int>
    decreases n,
{
    if n <= 0 {
        Seq::empty()
    } else if v[n - 1].parent_id == parent {
        children_upto(v, parent, n - 1).push(n - 1)
    } else {
        children_upto(v, parent, n - 1)
    }
}

/// The positions of the rows that name `parent` as their folder.
pub open spec fn children_of(v: Seq<NodeView>, parent: u32) -> Seq<int> {
    children_upto(v, parent, v.len() as int)
}

/// A folder whose nodes are being listed: its id, the depth of its nodes,
/// the rows that it was given to list, and how many of them are listed.
pub struct Frame {
    /// Id of the folder.
    pub parent: u32,
    /// Depth of the nodes of the folder.
    pub level: nat,
    /// Positions of the rows to list.
    pub children: Seq<int>,
    /// Number of the rows that are listed.
    pub next: int,
}

/// How far the listing of a tree has come.
pub struct Walk {
    /// The folders that are being listed, the top folder first and the
    /// folder whose nodes come next last.
    pub stack: Seq<Frame>,
    /// The ids whose rows were given out.
    pub opened: Set<u32>,
    /// The positions of the rows that are listed, in the order of the listing.
    pub rows: Seq<int>,
    /// The lines of the listing.
    pub lines: Seq<EntryView>,
}

/// Where the listing starts: at the top folder, with nothing listed.
pub open spec fn walk_start(v: Seq<NodeView>) -> Walk {
    Walk {
        stack: seq![
            Frame { parent: ROOT_ID, level: 0, children: children_of(v, ROOT_ID), next: 0 },
        ],
        opened: set![ROOT_ID],
        rows: Seq::empty(),
        lines: Seq::empty(),
    }
}

/// One step of the listing. Where the last folder has a row left, the row is
/// listed and becomes the last folder itself; it is given the rows that name
/// its id as their folder, unless those rows were given out before. Where the
/// last folder has no row left, the folder is done.
pub open spec fn walk_step(v: Seq<NodeView>, s: Walk) -> Walk {
    let top = s.stack.last();
    if top.next >= top.children.len() {
        Walk { stack: s.stack.drop_last(), ..s }
    } else {
        let row = top.children[top.next];
        let node = v[row];
        let below = Frame {
            parent: node.id,
            level: top.level + 1,
            children: if s.opened.contains(node.id) {
                Seq::empty()
            } else {
                children_of(v, node.id)
            },
            next: 0,
        };
        Walk {
            stack: s.stack.drop_last().push(Frame { next: top.next + 1, ..top }).push(below),
            opened: s.opened.insert(node.id),
            rows: s.rows.push(row),
            lines: s.lines.push(entry_of(node, top.level)),
        }
    }
}

/// The listing after up to `steps` more steps.
pub open spec fn walk_run(v: Seq<NodeView>, s: Walk, steps: nat) -> Walk
    decreases steps,
{
    if steps == 0 || s.stack.len() == 0 {
        s
    } else {
        walk_run(v, walk_step(v, s), (steps - 1) as nat)
    }
}

/// The whole listing. Every row takes a step to be listed and a step to be
/// done with, and so does the top folder.
pub open spec fn walk_of(v: Seq<NodeView>) -> Walk {
    walk_run(v, walk_start(v), 2 * v.len() + 1)
}

/// The listed tree of the rows `nodes`: the nodes of the top folder in the
/// order of their rows, each followed by what it holds. The rows that name
/// an id as their folder are listed under the first listed node with that
/// id and nowhere else.
pub open spec fn tree_of(nodes: Seq<PlaylistTreeNode>) -> Seq<EntryView> {
    walk_of(node_views(nodes)).lines
}

/// Whether the entries say what the lines say, one by one.
pub open spec fn entries_are(entries: Seq<TreeEntry>, lines: Seq<EntryView>) -> bool {
    &&& entries.len() == lines.len()
    &&& forall|i: int| 0 <= i < entries.len() ==> (#[trigger] entries[i])@ == lines[i]
}

/// Whether `row` is none of the rows `rows`.
pub open spec fn not_among(rows: Seq<int>, row: int) -> bool {
    forall|j: int| 0 <= j < rows.len() ==> #[trigger] rows[j] != row
}

/// Whether the frame holds the rows of its own folder, or none.
pub open spec fn frame_fits(v: Seq<NodeView>, f: Frame) -> bool {
    &&& 0 <= f.next <= f.children.len()
    &&& f.children.len() > 0 ==> f.children == children_of(v, f.parent)
}

/// What holds of a listing at every step: the steps taken are those that
/// listed a row and those that were done with a folder; no row is listed
/// twice; and the rows that are still to come, in the folders that are being
/// listed and in the folders that are not opened, are not listed.
pub open spec fn walk_fits(v: Seq<NodeView>, s: Walk, steps: int) -> bool {
    &&& steps + s.stack.len() == 2 * s.rows.len() + 1
    &&& s.lines.len() == s.rows.len()
    &&& forall|j: int| 0 <= j < s.rows.len() ==> 0 <= (#[trigger] s.rows[j]) < v.len()
    &&& forall|i: int, j: int| 0 <= i < j < s.rows.len() ==> s.rows[i] != s.rows[j]
    &&& forall|i: int|
        0 <= i < s.stack.len() ==> {
            &&& frame_fits(v, #[trigger] s.stack[i])
            &&& s.opened.contains(s.stack[i].parent)
            &&& s.stack[i].level == i
        }
    &&& forall|i: int, j: int|
        0 <= i < j < s.stack.len() && s.stack[i].children.len() > 0 && s.stack[j].children.len()
            > 0 ==> s.stack[i].parent != s.stack[j].parent
    &&& forall|i: int, k: int|
        0 <= i < s.stack.len() && s.stack[i].next <= k < s.stack[i].children.len() ==> not_among(
            s.rows,
            #[trigger] s.stack[i].children[k],
        )
    &&& forall|p: u32, k: int|
        !s.opened.contains(p) && 0 <= k < children_of(v, p).len() ==> not_among(
            s.rows,
            #[trigger] children_of(v, p)[k],
        )
}

/// The rows of a folder are rows that name it as their folder, each once and
/// in the order of the rows.
pub proof fn lemma_children(v: Seq<NodeView>, parent: u32, n: int)
    requires
        0 <= n <= v.len(),
    ensures
        forall|k: int|
            0 <= k < children_upto(v, parent, n).len() ==> {
                &&& 0 <= (#[trigger] children_upto(v, parent, n)[k]) < n
                &&& v[children_upto(v, parent, n)[k]].parent_id == parent
            },
        forall|j: int, k: int|
            0 <= j < k < children_upto(v, parent, n).len() ==> children_upto(v, parent, n)[j]
                < children_upto(v, parent, n)[k],
    decreases n,
{
    if n > 0 {
        lemma_children(v, parent, n - 1);
        let front = children_upto(v, parent, n - 1);
        let all = children_upto(v, parent, n);
        if v[n - 1].parent_id == parent {
            assert(all == front.push(n - 1));
            assert forall|k: int| 0 <= k < all.len() implies {
                &&& 0 <= (#[trigger] all[k]) < n
                &&& v[all[k]].parent_id == parent
            } by {
                if k < front.len() {
                    assert(all[k] == front[k]);
                }
            }
            assert forall|j: int, k: int| 0 <= j < k < all.len() implies all[j] < all[k] by {
                assert(all[j] == front[j]);
                if k < front.len() {
                    assert(all[k] == front[k]);
                }
            }
        } else {
            assert(all == front);
        }
    }
}

/// Rows that are all different and all below `n` are at most `n` rows.
pub proof fn lemma_different_rows(rows: Seq<int>, n: nat)
    requires
        forall|j: int| 0 <= j < rows.len() ==> 0 <= (#[trigger] rows[j]) < n,
        forall|i: int, j: int| 0 <= i < j < rows.len() ==> rows[i] != rows[j],
    ensures
        rows.len() <= n,
    decreases n,
{
    if rows.len() > 0 {
        if n == 0 {
            assert(0 <= rows[0] < n);
        } else if exists|m: int| 0 <= m < rows.len() && rows[m] == n - 1 {
            let m = choose|m: int| 0 <= m < rows.len() && rows[m] == n - 1;
            let rest = rows.remove(m);
            assert forall|j: int| 0 <= j < rest.len() implies 0 <= (#[trigger] rest[j]) < n - 1 by {
                if j < m {
                    assert(rest[j] == rows[j]);
                } else {
                    assert(rest[j] == rows[j + 1]);
                }
            }
            assert forall|i: int, j: int| 0 <= i < j < rest.len() implies rest[i] != rest[j] by {
                let a = if i < m {
                    i
                } else {
                    i + 1
                };
                let b = if j < m {
                    j
                } else {
                    j + 1
                };
                assert(rest[i] == rows[a] && rest[j] == rows[b]);
            }
            lemma_different_rows(rest, (n - 1) as nat);
        } else {
            assert forall|j: int| 0 <= j < rows.len() implies 0 <= (#[trigger] rows[j]) < n - 1 by {
                assert(0 <= rows[j] < n);
            }
            lemma_different_rows(rows, (n - 1) as nat);
        }
    }
}

/// The start of a listing is as a listing has to be.
pub proof fn lemma_start_fits(v: Seq<NodeView>)
    ensures
        walk_fits(v, walk_start(v), 0),
{
    let s = walk_start(v);
    assert(s.stack[0].children == children_of(v, ROOT_ID));
}

/// A step keeps a listing as it has to be.
pub proof fn lemma_step_fits(v: Seq<NodeView>, s: Walk, steps: int)
    requires
        walk_fits(v, s, steps),
        s.stack.len() > 0,
    ensures
        walk_fits(v, walk_step(v, s), steps + 1),
{
    let t = walk_step(v, s);
    let last = s.stack.len() - 1;
    let top = s.stack[last];
    assert(frame_fits(v, top));
    if top.next >= top.children.len() {
        assert forall|i: int| 0 <= i < t.stack.len() implies {
            &&& frame_fits(v, #[trigger] t.stack[i])
            &&& t.opened.contains(t.stack[i].parent)
            &&& t.stack[i].level == i
        } by {
            assert(t.stack[i] == s.stack[i]);
        }
        assert forall|i: int, k: int|
            0 <= i < t.stack.len() && t.stack[i].next <= k < t.stack[i].children.len()
            implies not_among(t.rows, #[trigger] t.stack[i].children[k]) by {
            assert(t.stack[i] == s.stack[i]);
        }
        assert forall|i: int, j: int|
            0 <= i < j < t.stack.len() && t.stack[i].children.len() > 0
                && t.stack[j].children.len() > 0 implies t.stack[i].parent
            != t.stack[j].parent by {
            assert(t.stack[i] == s.stack[i]);
            assert(t.stack[j] == s.stack[j]);
        }
    } else {
        let row = top.children[top.next];
        let node = v[row];
        lemma_children(v, top.parent, v.len() as int);
        assert(top.children == children_of(v, top.parent));
        assert(0 <= row < v.len());
        assert(v[row].parent_id == top.parent);
        assert(not_among(s.rows, row));
        // The frames of the new listing.
        assert forall|i: int| 0 <= i < last implies #[trigger] t.stack[i] == s.stack[i] by {}
        assert(t.stack[last] == Frame { next: top.next + 1, ..top });
        assert(t.stack[last + 1].parent == node.id);
        assert(t.stack[last + 1].next == 0);
        assert forall|i: int| 0 <= i < t.stack.len() implies {
            &&& frame_fits(v, #[trigger] t.stack[i])
            &&& t.opened.contains(t.stack[i].parent)
            &&& t.stack[i].level == i
        } by {
            if i < last {
                assert(t.stack[i] == s.stack[i]);
            }
        }
        assert forall|i: int, j: int|
            0 <= i < j < t.stack.len() && t.stack[i].children.len() > 0
                && t.stack[j].children.len() > 0 implies t.stack[i].parent
            != t.stack[j].parent by {
            if j <= last {
                assert(s.stack[i].parent == t.stack[i].parent);
                assert(s.stack[j].parent == t.stack[j].parent);
                assert(s.stack[i].children == t.stack[i].children);
                assert(s.stack[j].children == t.stack[j].children);
            } else {
                // The new folder was not opened, the folders in front of it were.
                assert(!s.opened.contains(node.id));
                assert(s.opened.contains(s.stack[i].parent));
                assert(s.stack[i].parent == t.stack[i].parent);
            }
        }
        assert forall|i: int, j: int| 0 <= i < j < t.rows.len() implies t.rows[i]
            != t.rows[j] by {
            if j == s.rows.len() {
                assert(s.rows[i] != row);
            }
        }
        assert forall|j: int| 0 <= j < t.rows.len() implies 0 <= (#[trigger] t.rows[j])
            < v.len() by {
            if j < s.rows.len() {
                assert(t.rows[j] == s.rows[j]);
            }
        }
        assert forall|i: int, k: int|
            0 <= i < t.stack.len() && t.stack[i].next <= k < t.stack[i].children.len()
            implies not_among(t.rows, #[trigger] t.stack[i].children[k]) by {
            let x = t.stack[i].children[k];
            if i < last {
                assert(t.stack[i] == s.stack[i]);
                assert(not_among(s.rows, s.stack[i].children[k]));
                // A row of another folder is another row.
                assert(frame_fits(v, s.stack[i]));
                lemma_children(v, s.stack[i].parent, v.len() as int);
                assert(v[x].parent_id == s.stack[i].parent);
                assert(s.stack[i].parent != top.parent);
                assert(x != row);
            } else if i == last {
                assert(not_among(s.rows, top.children[k]));
                assert(top.children[top.next] < top.children[k]);
            } else {
                lemma_children(v, node.id, v.len() as int);
                assert(!s.opened.contains(node.id));
                assert(x == children_of(v, node.id)[k]);
                assert(not_among(s.rows, x));
                if x == row {
                    // The row would hold itself, in a folder that is opened.
                    assert(v[x].parent_id == node.id);
                    assert(top.parent == node.id);
                    assert(s.opened.contains(top.parent));
                }
            }
            assert forall|j: int| 0 <= j < t.rows.len() implies #[trigger] t.rows[j] != x by {
                if j < s.rows.len() {
                    assert(t.rows[j] == s.rows[j]);
                }
            }
        }
        assert forall|p: u32, k: int|
            !t.opened.contains(p) && 0 <= k < children_of(v, p).len() implies not_among(
            t.rows,
            #[trigger] children_of(v, p)[k],
        ) by {
            let x = children_of(v, p)[k];
            lemma_children(v, p, v.len() as int);
            assert(!s.opened.contains(p));
            assert(not_among(s.rows, x));
            assert(v[x].parent_id == p);
            assert(p != top.parent);
            assert forall|j: int| 0 <= j < t.rows.len() implies #[trigger] t.rows[j] != x by {
                if j < s.rows.len() {
                    assert(t.rows[j] == s.rows[j]);
                }
            }
        }
    }
}

/// A listing that is as it has to be and has a folder left has steps left.
pub proof fn lemma_steps_left(v: Seq<NodeView>, s: Walk, steps: int)
    requires
        walk_fits(v, s, steps),
    ensures
        s.rows.len() <= v.len(),
        s.stack.len() > 0 ==> steps < 2 * v.len() + 1,
{
    lemma_different_rows(s.rows, v.len());
}

/// What the rest of a listing gives from a state that is as it has to be:
/// a listing in which every folder is done, and no row is listed twice.
pub proof fn lemma_run_fits(v: Seq<NodeView>, s: Walk, steps: int)
    requires
        walk_fits(v, s, steps),
        0 <= steps <= 2 * v.len() + 1,
    ensures
        ({
            let end = walk_run(v, s, (2 * v.len() + 1 - steps) as nat);
            &&& end.stack.len() == 0
            &&& end.lines.len() == end.rows.len()
            &&& end.rows.len() <= v.len()
            &&& forall|j: int| 0 <= j < end.rows.len() ==> 0 <= (#[trigger] end.rows[j]) < v.len()
            &&& forall|i: int, j: int| 0 <= i < j < end.rows.len() ==> end.rows[i] != end.rows[j]
        }),
    decreases 2 * v.len() + 1 - steps,
{
    lemma_steps_left(v, s, steps);
    if s.stack.len() > 0 {
        lemma_step_fits(v, s, steps);
        lemma_run_fits(v, walk_step(v, s), steps + 1);
    }
}

/// The listing of a tree comes to its end; it lists no row twice, and so has
/// no more lines than there are rows.
pub proof fn lemma_every_row_once(nodes: Seq<PlaylistTreeNode>)
    ensures
        ({
            let end = walk_of(node_views(nodes));
            &&& end.stack.len() == 0
            &&& tree_of(nodes).len() == end.rows.len()
            &&& tree_of(nodes).len() <= nodes.len()
            &&& forall|j: int|
                0 <= j < end.rows.len() ==> 0 <= (#[trigger] end.rows[j]) < nodes.len()
            &&& forall|i: int, j: int| 0 <= i < j < end.rows.len() ==> end.rows[i] != end.rows[j]
        }),
{
    let v = node_views(nodes);
    lemma_start_fits(v);
    lemma_run_fits(v, walk_start(v), 0);
}

/// Whether the row `row` stands at position `j` of the listing, at depth `level`.
pub open spec fn listed_at(v: Seq<NodeView>, w: Walk, row: int, j: int, level: nat) -> bool {
    &&& 0 <= j < w.rows.len()
    &&& j < w.lines.len()
    &&& w.rows[j] == row
    &&& w.lines[j] == entry_of(v[row], level)
}

/// Whether `at` says where in the listing the rows of the top folder stand,
/// as far as the top folder has listed them: at depth 0, and one behind the
/// other.
pub open spec fn tops_fit(v: Seq<NodeView>, s: Walk, at: Seq<int>) -> bool {
    let tops = children_of(v, ROOT_ID);
    &&& at.len() <= tops.len()
    &&& s.stack.len() > 0 ==> {
        &&& s.stack[0].parent == ROOT_ID
        &&& s.stack[0].children == tops
        &&& s.stack[0].next == at.len()
    }
    &&& s.stack.len() == 0 ==> at.len() == tops.len()
    &&& forall|k: int| 0 <= k < at.len() ==> listed_at(v, s, tops[k], #[trigger] at[k], 0)
    &&& forall|i: int, k: int| 0 <= i < k < at.len() ==> at[i] < at[k]
}

/// A step lists the next row of the top folder, or leaves its rows as they are.
proof fn lemma_tops_step(v: Seq<NodeView>, s: Walk, steps: int, at: Seq<int>) -> (after: Seq<int>)
    requires
        walk_fits(v, s, steps),
        tops_fit(v, s, at),
        s.stack.len() > 0,
    ensures
        tops_fit(v, walk_step(v, s), after),
{
    let t = walk_step(v, s);
    let tops = children_of(v, ROOT_ID);
    let last = s.stack.len() - 1;
    let top = s.stack[last];
    assert(frame_fits(v, top));
    assert(s.stack[0].level == 0);
    if top.next >= top.children.len() {
        if last > 0 {
            assert(t.stack[0] == s.stack[0]);
        }
        at
    } else if last > 0 {
        assert(t.stack[0] == s.stack[0]);
        assert forall|k: int| 0 <= k < at.len() implies listed_at(
            v,
            t,
            tops[k],
            #[trigger] at[k],
            0,
        ) by {
            assert(listed_at(v, s, tops[k], at[k], 0));
            assert(t.rows[at[k]] == s.rows[at[k]]);
            assert(t.lines[at[k]] == s.lines[at[k]]);
        }
        at
    } else {
        let row = top.children[top.next];
        let after = at.push(s.rows.len() as int);
        assert(t.stack[0] == Frame { next: top.next + 1, ..top });
        assert forall|k: int| 0 <= k < after.len() implies listed_at(
            v,
            t,
            tops[k],
            #[trigger] after[k],
            0,
        ) by {
            if k < at.len() {
                assert(after[k] == at[k]);
                assert(listed_at(v, s, tops[k], at[k], 0));
                assert(t.rows[at[k]] == s.rows[at[k]]);
                assert(t.lines[at[k]] == s.lines[at[k]]);
            } else {
                assert(after[k] == s.rows.len());
                assert(t.rows[s.rows.len() as int] == row);
                assert(t.lines[s.lines.len() as int] == entry_of(v[row], 0));
            }
        }
        assert forall|i: int, k: int| 0 <= i < k < after.len() implies after[i] < after[k] by {
            assert(after[i] == at[i]);
            assert(listed_at(v, s, tops[i], at[i], 0));
            if k < at.len() {
                assert(after[k] == at[k]);
            }
        }
        after
    }
}

/// The rest of a listing lists the rest of the rows of the top folder.
proof fn lemma_tops_run(v: Seq<NodeView>, s: Walk, steps: int, at: Seq<int>) -> (end_at: Seq<int>)
    requires
        walk_fits(v, s, steps),
        tops_fit(v, s, at),
        0 <= steps <= 2 * v.len() + 1,
    ensures
        tops_fit(v, walk_run(v, s, (2 * v.len() + 1 - steps) as nat), end_at),
        walk_run(v, s, (2 * v.len() + 1 - steps) as nat).stack.len() == 0,
    decreases 2 * v.len() + 1 - steps,
{
    lemma_steps_left(v, s, steps);
    if s.stack.len() > 0 {
        lemma_step_fits(v, s, steps);
        let after = lemma_tops_step(v, s, steps, at);
        lemma_tops_run(v, walk_step(v, s), steps + 1, after)
    } else {
        at
    }
}

/// Every row that names the top folder is listed, at depth 0, and these
/// rows come in the listing in the order of the rows, whatever the rows say
/// of each other. The result says where in the listing each of them stands.
pub proof fn lemma_top_rows_are_listed(nodes: Seq<PlaylistTreeNode>) -> (at: Seq<int>)
    ensures
        ({
            let v = node_views(nodes);
            let tops = children_of(v, ROOT_ID);
            &&& at.len() == tops.len()
            &&& forall|k: int|
                0 <= k < at.len() ==> listed_at(v, walk_of(v), tops[k], #[trigger] at[k], 0)
            &&& forall|i: int, k: int| 0 <= i < k < at.len() ==> at[i] < at[k]
        }),
{
    let v = node_views(nodes);
    let s = walk_start(v);
    lemma_start_fits(v);
    assert(s.stack[0].children == children_of(v, ROOT_ID));
    lemma_tops_run(v, s, 0, Seq::empty())
}

/// A row is among the rows of the folder that it names.
pub proof fn lemma_child_is_among(v: Seq<NodeView>, row: int, n: int) -> (k: int)
    requires
        0 <= row < n <= v.len(),
    ensures
        0 <= k < children_upto(v, v[row].parent_id, n).len(),
        children_upto(v, v[row].parent_id, n)[k] == row,
    decreases n,
{
    let parent = v[row].parent_id;
    let front = children_upto(v, parent, n - 1);
    if row == n - 1 {
        front.len() as int
    } else {
        let k = lemma_child_is_among(v, row, n - 1);
        if v[n - 1].parent_id == parent {
            assert(children_upto(v, parent, n)[k] == front[k]);
        }
        k
    }
}

/// Two rows that name the top folder and stand one behind the other among
/// the rows, as the two rows of a row group with the bits 0 and 2 set do,
/// are both listed at depth 0, each once, the first in front of the second.
/// The result says where in the listing they stand.
pub proof fn lemma_pair_of_top_rows_is_listed(
    before: Seq<PlaylistTreeNode>,
    first: PlaylistTreeNode,
    second: PlaylistTreeNode,
    after: Seq<PlaylistTreeNode>,
) -> (at: (int, int))
    requires
        first.parent_id == ROOT_ID,
        second.parent_id == ROOT_ID,
    ensures
        ({
            let nodes = before + seq![first, second] + after;
            let v = node_views(nodes);
            let end = walk_of(v);
            &&& at.0 < at.1
            &&& listed_at(v, end, before.len() as int, at.0, 0)
            &&& listed_at(v, end, before.len() as int + 1, at.1, 0)
            &&& end.lines[at.0] == entry_of(node_views(seq![first])[0], 0)
            &&& end.lines[at.1] == entry_of(node_views(seq![second])[0], 0)
            &&& forall|j: int|
                0 <= j < end.rows.len() && #[trigger] end.rows[j] == before.len() ==> j == at.0
            &&& forall|j: int|
                0 <= j < end.rows.len() && #[trigger] end.rows[j] == before.len() + 1 ==> j
                    == at.1
        }),
{
    let nodes = before + seq![first, second] + after;
    let v = node_views(nodes);
    let end = walk_of(v);
    let tops = children_of(v, ROOT_ID);
    let r1 = before.len() as int;
    let r2 = r1 + 1;
    assert(nodes[r1] == first);
    assert(nodes[r2] == second);
    assert(v[r1].parent_id == ROOT_ID);
    assert(v[r2].parent_id == ROOT_ID);
    let k1 = lemma_child_is_among(v, r1, v.len() as int);
    let k2 = lemma_child_is_among(v, r2, v.len() as int);
    lemma_children(v, ROOT_ID, v.len() as int);
    if k1 >= k2 {
        if k1 > k2 {
            assert(tops[k2] < tops[k1]);
        }
    }
    let at = lemma_top_rows_are_listed(nodes);
    lemma_every_row_once(nodes);
    assert(listed_at(v, end, tops[k1], at[k1], 0));
    assert(listed_at(v, end, tops[k2], at[k2], 0));
    assert forall|j: int|
        0 <= j < end.rows.len() && #[trigger] end.rows[j] == before.len() implies j
        == at[k1] by {
        if j < at[k1] {
            assert(end.rows[j] != end.rows[at[k1]]);
        } else if j > at[k1] {
            assert(end.rows[at[k1]] != end.rows[j]);
        }
    }
    assert forall|j: int|
        0 <= j < end.rows.len() && #[trigger] end.rows[j] == before.len() + 1 implies j
        == at[k2] by {
        if j < at[k2] {
            assert(end.rows[j] != end.rows[at[k2]]);
        } else if j > at[k2] {
            assert(end.rows[at[k2]] != end.rows[j]);
        }
    }
    (at[k1], at[k2])
}

/// The lines for the rows `children` of the folder `parent` from position
/// `from` on, with the nodes of the folder at depth `level`: every row is
/// followed at once by what it holds, which is the rows that name its id as
/// their folder, one level deeper. A row is not looked into unless its id
/// ranks below the id of its folder, so that the lines come to an end.
pub open spec fn lines_below(
    v: Seq<NodeView>,
    rank: spec_fn(u32) -> nat,
    parent: u32,
    level: nat,
    children: Seq<int>,
    from: int,
) -> Seq<EntryView>
    decreases rank(parent), children.len() - from,
{
    if from < 0 || from >= children.len() {
        Seq::empty()
    } else {
        let node = v[children[from]];
        let held = if rank(node.id) < rank(parent) {
            lines_below(v, rank, node.id, level + 1, children_of(v, node.id), 0)
        } else {
            Seq::empty()
        };
        seq![entry_of(node, level)] + held + lines_below(
            v,
            rank,
            parent,
            level,
            children,
            from + 1,
        )
    }
}

/// The tree of the rows in depth-first order: the rows of the top folder in
/// the order of the rows, each followed at once by what it holds.
pub open spec fn preorder(v: Seq<NodeView>, rank: spec_fn(u32) -> nat) -> Seq<EntryView> {
    lines_below(v, rank, ROOT_ID, 0, children_of(v, ROOT_ID), 0)
}

/// Whether the rows form a tree: no two rows have the same id, and the id of
/// every row ranks below the id of its folder.
pub open spec fn is_tree(v: Seq<NodeView>, rank: spec_fn(u32) -> nat) -> bool {
    &&& forall|i: int, j: int| 0 <= i < j < v.len() ==> v[i].id != v[j].id
    &&& forall|i: int| 0 <= i < v.len() ==> rank(#[trigger] v[i].id) < rank(v[i].parent_id)
}

/// The lines that are still to come for the folders that are being listed:
/// those of the last folder first.
pub open spec fn lines_to_come(
    v: Seq<NodeView>,
    rank: spec_fn(u32) -> nat,
    stack: Seq<Frame>,
) -> Seq<EntryView>
    decreases stack.len(),
{
    if stack.len() == 0 {
        Seq::empty()
    } else {
        let top = stack.last();
        lines_below(v, rank, top.parent, top.level, top.children, top.next) + lines_to_come(
            v,
            rank,
            stack.drop_last(),
        )
    }
}

/// What holds of the listing of a tree at every step, beyond what holds of
/// every listing: every folder that is being listed has all its rows, ranks
/// below the folder in front of it, and the ids that were opened are the top
/// folder and the ids of the rows that are listed.
pub open spec fn tree_walk_fits(v: Seq<NodeView>, rank: spec_fn(u32) -> nat, s: Walk) -> bool {
    &&& forall|i: int|
        0 <= i < s.stack.len() ==> {
            &&& (#[trigger] s.stack[i]).children == children_of(v, s.stack[i].parent)
            &&& rank(s.stack[i].parent) <= rank(ROOT_ID)
        }
    &&& forall|p: u32| #[trigger] s.opened.contains(p) ==> p == ROOT_ID || id_among(v, s.rows, p)
}

/// Whether one of the rows `rows` has the id `id`.
pub open spec fn id_among(v: Seq<NodeView>, rows: Seq<int>, id: u32) -> bool {
    exists|j: int| 0 <= j < rows.len() && v[#[trigger] rows[j]].id == id
}

/// A step keeps the listing of a tree as it has to be, and leaves the lines
/// that are listed and still to come as they are.
proof fn lemma_tree_step(v: Seq<NodeView>, rank: spec_fn(u32) -> nat, s: Walk, steps: int)
    requires
        is_tree(v, rank),
        walk_fits(v, s, steps),
        tree_walk_fits(v, rank, s),
        s.stack.len() > 0,
    ensures
        tree_walk_fits(v, rank, walk_step(v, s)),
        walk_step(v, s).lines + lines_to_come(v, rank, walk_step(v, s).stack) == s.lines
            + lines_to_come(v, rank, s.stack),
{
    let t = walk_step(v, s);
    let last = s.stack.len() - 1;
    let top = s.stack[last];
    let rest = s.stack.drop_last();
    let coming = lines_to_come(v, rank, rest);
    assert(frame_fits(v, top));
    if top.next >= top.children.len() {
        assert(t.stack == rest);
        assert forall|i: int| 0 <= i < t.stack.len() implies {
            &&& (#[trigger] t.stack[i]).children == children_of(v, t.stack[i].parent)
            &&& rank(t.stack[i].parent) <= rank(ROOT_ID)
        } by {
            assert(t.stack[i] == s.stack[i]);
        }
        assert(lines_below(v, rank, top.parent, top.level, top.children, top.next)
            =~= Seq::<EntryView>::empty());
        assert(s.lines + (Seq::<EntryView>::empty() + coming) =~= s.lines + coming);
    } else {
        let row = top.children[top.next];
        let node = v[row];
        lemma_children(v, top.parent, v.len() as int);
        assert(0 <= row < v.len());
        assert(v[row].parent_id == top.parent);
        assert(rank(node.id) < rank(top.parent));
        assert(not_among(s.rows, row));
        // The id of the row was not opened: it is not the top folder, and
        // no row that is listed has it.
        if s.opened.contains(node.id) {
            assert(node.id != ROOT_ID);
            let j = choose|j: int| 0 <= j < s.rows.len() && v[#[trigger] s.rows[j]].id == node.id;
            assert(s.rows[j] != row);
            assert(0 <= s.rows[j] < v.len());
            if s.rows[j] < row {
                assert(v[s.rows[j]].id != v[row].id);
            } else {
                assert(v[row].id != v[s.rows[j]].id);
            }
        }
        let top_after = Frame { next: top.next + 1, ..top };
        let below = Frame {
            parent: node.id,
            level: top.level + 1,
            children: children_of(v, node.id),
            next: 0,
        };
        assert(t.stack == rest.push(top_after).push(below));
        assert forall|i: int| 0 <= i < t.stack.len() implies {
            &&& (#[trigger] t.stack[i]).children == children_of(v, t.stack[i].parent)
            &&& rank(t.stack[i].parent) <= rank(ROOT_ID)
        } by {
            if i < last {
                assert(t.stack[i] == s.stack[i]);
            }
        }
        assert forall|p: u32| #[trigger] t.opened.contains(p) implies p == ROOT_ID || id_among(
            v,
            t.rows,
            p,
        ) by {
            if p == node.id {
                let j = s.rows.len() as int;
                assert(t.rows[j] == row);
                assert(0 <= j < t.rows.len() && v[t.rows[j]].id == p);
            } else if p != ROOT_ID {
                assert(s.opened.contains(p));
                let j = choose|j: int| 0 <= j < s.rows.len() && v[#[trigger] s.rows[j]].id == p;
                assert(t.rows[j] == s.rows[j]);
                assert(0 <= j < t.rows.len() && v[t.rows[j]].id == p);
            }
        }
        // The lines that are to come.
        let held = lines_below(v, rank, node.id, top.level + 1, children_of(v, node.id), 0);
        let after = lines_below(v, rank, top.parent, top.level, top.children, top.next + 1);
        assert(t.stack.drop_last() == rest.push(top_after));
        assert(rest.push(top_after).drop_last() == rest);
        assert(lines_to_come(v, rank, rest.push(top_after)) == after + coming);
        assert(lines_to_come(v, rank, t.stack) == held + (after + coming));
        assert(lines_to_come(v, rank, s.stack) == (seq![entry_of(node, top.level)] + held + after)
            + coming);
        assert(s.lines.push(entry_of(node, top.level)) + (held + (after + coming)) =~= s.lines
            + ((seq![entry_of(node, top.level)] + held + after) + coming));
    }
}

/// From a state that is as the listing of a tree has to be, the listing
/// goes on to list the lines that are still to come, and no others.
proof fn lemma_tree_run(v: Seq<NodeView>, rank: spec_fn(u32) -> nat, s: Walk, steps: int)
    requires
        is_tree(v, rank),
        walk_fits(v, s, steps),
        tree_walk_fits(v, rank, s),
        0 <= steps <= 2 * v.len() + 1,
    ensures
        walk_run(v, s, (2 * v.len() + 1 - steps) as nat).lines == s.lines + lines_to_come(
            v,
            rank,
            s.stack,
        ),
    decreases 2 * v.len() + 1 - steps,
{
    lemma_steps_left(v, s, steps);
    if s.stack.len() > 0 {
        lemma_step_fits(v, s, steps);
        lemma_tree_step(v, rank, s, steps);
        lemma_tree_run(v, rank, walk_step(v, s), steps + 1);
    } else {
        assert(s.lines + Seq::<EntryView>::empty() =~= s.lines);
    }
}

/// Where the rows form a tree, the listing is the tree in depth-first
/// order: the lines at the top are the rows that name the top folder, in the
/// order of the rows; every line is followed at once by the lines of what
/// its node holds, one level deeper, which are the rows that name the id of
/// the node as their folder; and so every row that is reached from the top
/// folder is listed, once.
pub proof fn lemma_tree_is_listed_in_preorder(
    nodes: Seq<PlaylistTreeNode>,
    rank: spec_fn(u32) -> nat,
)
    requires
        is_tree(node_views(nodes), rank),
    ensures
        tree_of(nodes) == preorder(node_views(nodes), rank),
{
    let v = node_views(nodes);
    let s = walk_start(v);
    lemma_start_fits(v);
    assert(s.stack[0].children == children_of(v, ROOT_ID));
    lemma_tree_run(v, rank, s, 0);
    assert(s.stack.drop_last() =~= Seq::<Frame>::empty());
    assert(lines_to_come(v, rank, Seq::<Frame>::empty()) =~= Seq::<EntryView>::empty());
    assert(s.stack.last() == s.stack[0]);
    assert(lines_to_come(v, rank, s.stack) =~= preorder(v, rank) + Seq::<EntryView>::empty());
    assert(lines_to_come(v, rank, s.stack) =~= preorder(v, rank));
    assert(Seq::<EntryView>::empty() + preorder(v, rank) =~= preorder(v, rank));
}

/// A folder whose nodes are being listed.
struct Folder {
    /// Id of the folder.
    parent: u32,
    /// Depth of the nodes of the folder.
    level: usize,
    /// Positions of the rows to list.
    children: Vec<usize>,
    /// Number of the rows that are listed.
    next: usize,
}

/// The frame that a folder stands for.
spec fn frame_of(folder: Folder) -> Frame {
    Frame {
        parent: folder.parent,
        level: folder.level as nat,
        children: positions(folder.children@),
        next: folder.next as int,
    }
}

/// Whether the folders are the frames, one by one.
spec fn folders_are(folders: Seq<Folder>, frames: Seq<Frame>) -> bool {
    &&& folders.len() == frames.len()
    &&& forall|i: int| 0 <= i < folders.len() ==> frame_of(#[trigger] folders[i]) == frames[i]
}

/// Positions as they are counted in contracts.
pub open spec fn positions(rows: Seq<usize>) -> Seq<int> {
    Seq::new(rows.len(), |k: int| rows[k] as int)
}

/// The rows that the index has for a folder: none where it has no entry.
pub open spec fn rows_for(index: Map<u32, Vec<usize>>, parent: u32) -> Seq<int> {
    if index.contains_key(parent) {
        positions(index[parent]@)
    } else {
        Seq::empty()
    }
}

/// Indexes the rows by the folder that they name: every folder that a row
/// names gets the positions of its rows, in the order of the rows.
fn index_by_parent(nodes: &Vec<PlaylistTreeNode>) -> (index: HashMap<u32, Vec<usize>>)
    ensures
        forall|p: u32| #[trigger] rows_for(index@, p) == children_of(node_views(nodes@), p),
{
    broadcast use vstd::std_specs::hash::group_hash_axioms;

    let ghost v = node_views(nodes@);
    let mut index: HashMap<u32, Vec<usize>> = HashMap::new();
    let mut i: usize = 0;
    while i < nodes.len()
        invariant
            0 <= i <= nodes@.len(),
            v == node_views(nodes@),
            forall|p: u32| #[trigger] rows_for(index@, p) == children_upto(v, p, i as int),
        decreases nodes@.len() - i,
    {
        let parent = nodes[i].parent_id;
        let ghost before = index@;
        let mut rows = match index.remove(&parent) {
            Some(rows) => rows,
            None => Vec::new(),
        };
        assert(positions(rows@) =~= rows_for(before, parent));
        let ghost old_rows = rows@;
        rows.push(i);
        assert(positions(rows@) =~= positions(old_rows).push(i as int));
        index.insert(parent, rows);
        assert forall|p: u32| #[trigger] rows_for(index@, p) == children_upto(v, p, i + 1) by {
            assert(rows_for(before, p) == children_upto(v, p, i as int));
            if p != parent {
                assert(index@.contains_key(p) == before.contains_key(p));
            }
        }
        i += 1;
    }
    index
}

/// Lists the playlist tree that the rows `nodes` describe: the nodes of the
/// top folder in the order of their rows, each followed by what it holds.
///
/// Every row is listed at most once. Rows that name each other as their
/// folders in a circle are listed as far as they are reached from the top
/// folder; rows that name an id which several nodes have are listed under
/// the first of those nodes.
pub fn build_tree(nodes: &Vec<PlaylistTreeNode>) -> (entries: Vec<TreeEntry>)
    ensures
        entries_are(entries@, tree_of(nodes@)),
        entries@.len() <= nodes@.len(),
{
    broadcast use vstd::std_specs::hash::group_hash_axioms;

    let ghost v = node_views(nodes@);
    let ghost total = 2 * v.len() + 1;
    let mut index = index_by_parent(nodes);
    let ghost whole = index@;
    let top = match index.remove(&ROOT_ID) {
        Some(rows) => rows,
        None => Vec::new(),
    };
    let mut stack: Vec<Folder> = Vec::new();
    stack.push(Folder { parent: ROOT_ID, level: 0, children: top, next: 0 });
    let mut out: Vec<TreeEntry> = Vec::new();
    let ghost mut s = walk_start(v);
    let ghost mut steps: int = 0;
    proof {
        lemma_start_fits(v);
        assert(positions(top@) =~= rows_for(whole, ROOT_ID));
        assert(rows_for(whole, ROOT_ID) == children_of(v, ROOT_ID));
        assert forall|p: u32| #[trigger] rows_for(index@, p) == (if s.opened.contains(p) {
            Seq::<int>::empty()
        } else {
            children_of(v, p)
        }) by {
            assert(rows_for(whole, p) == children_of(v, p));
        }
    }
    while stack.len() > 0
        invariant
            v == node_views(nodes@),
            total == 2 * v.len() + 1,
            0 <= steps <= total,
            walk_fits(v, s, steps),
            walk_of(v) == walk_run(v, s, (total - steps) as nat),
            folders_are(stack@, s.stack),
            entries_are(out@, s.lines),
            forall|p: u32| #[trigger] rows_for(index@, p) == (if s.opened.contains(p) {
                Seq::<int>::empty()
            } else {
                children_of(v, p)
            }),
        decreases total - steps,
    {
        proof {
            lemma_steps_left(v, s, steps);
            lemma_step_fits(v, s, steps);
        }
        let ghost frames = s.stack;
        let ghost folders = stack@;
        let mut folder = stack.pop().unwrap();
        assert(frame_of(folder) == frames.last());
        if folder.next < folder.children.len() {
            let row = folder.children[folder.next];
            let level = folder.level;
            folder.next = folder.next + 1;
            proof {
                lemma_children(v, folder.parent, v.len() as int);
                assert(frame_fits(v, frames.last()));
                assert(row < nodes@.len());
            }
            stack.push(folder);
            let node = &nodes[row];
            let ghost before = index@;
            let children = match index.remove(&node.id) {
                Some(rows) => rows,
                None => Vec::new(),
            };
            assert(positions(children@) =~= rows_for(before, node.id));
            out.push(
                TreeEntry {
                    level,
                    id: node.id,
                    is_folder: node.is_folder(),
                    name: node.name.text.clone(),
                },
            );
            proof {
                lemma_steps_left(v, walk_step(v, s), steps + 1);
            }
            stack.push(Folder { parent: node.id, level: level + 1, children, next: 0 });
            proof {
                let t = walk_step(v, s);
                assert(stack@.len() == t.stack.len());
                assert forall|i: int| 0 <= i < stack@.len() implies frame_of(
                    #[trigger] stack@[i],
                ) == t.stack[i] by {
                    if i < folders.len() - 1 {
                        assert(stack@[i] == folders[i]);
                        assert(t.stack[i] == frames[i]);
                    }
                }
                assert forall|p: u32| #[trigger] rows_for(index@, p) == (if t.opened.contains(
                    p,
                ) {
                    Seq::<int>::empty()
                } else {
                    children_of(v, p)
                }) by {
                    assert(rows_for(before, p) == (if s.opened.contains(p) {
                        Seq::<int>::empty()
                    } else {
                        children_of(v, p)
                    }));
                }
            }
        } else {
            proof {
                let t = walk_step(v, s);
                assert forall|i: int| 0 <= i < stack@.len() implies frame_of(
                    #[trigger] stack@[i],
                ) == t.stack[i] by {
                    assert(stack@[i] == folders[i]);
                    assert(t.stack[i] == frames[i]);
                }
            }
        }
        proof {
            s = walk_step(v, s);
            steps = steps + 1;
        }
    }
    proof {
        lemma_steps_left(v, s, steps);
    }
    out
}

/// The playlist tree nodes among the first `n` rows, in the order of the rows.
pub open spec fn nodes_in(rows: Seq<Row>, n: int) -> Seq<PlaylistTreeNode>
    decreases n,
{
    if n <= 0 {
        Seq::empty()
    } else {
        match rows[n - 1] {
            Row::PlaylistTreeNode(node) => nodes_in(rows, n - 1).push(node),
            _ => nodes_in(rows, n - 1),
        }
    }
}

/// The playlist tree nodes in the first `g` row groups of a page: those
/// among the rows that are present, group by group.
pub open spec fn page_nodes(page: Page, g: int) -> Seq<PlaylistTreeNode>
    decreases g,
{
    if g <= 0 {
        Seq::empty()
    } else {
        let rows = page.row_groups@[g - 1].present_rows_spec();
        page_nodes(page, g - 1) + nodes_in(rows, rows.len() as int)
    }
}

/// The playlist tree nodes in the first `p` pages, page by page.
pub open spec fn pages_nodes(pages: Seq<Page>, p: int) -> Seq<PlaylistTreeNode>
    decreases p,
{
    if p <= 0 {
        Seq::empty()
    } else {
        pages_nodes(pages, p - 1) + page_nodes(
            pages[p - 1],
            pages[p - 1].row_groups@.len() as int,
        )
    }
}

/// A row group of playlist tree nodes whose bitmask has the bits 0 and 2 set
/// and no others gives two nodes: the node of its first entry, and then the
/// node of its third entry. Its second entry gives none.
pub proof fn lemma_nodes_of_mask_five(
    group: RowGroup,
    first: PlaylistTreeNode,
    third: PlaylistTreeNode,
)
    requires
        group.presence_matches(),
        group.slots@.len() <= crate::pdb::page::GROUP_ROWS,
        group.presence == 5,
        group.slots@[0] is Present ==> group.slots@[0]->row == Row::PlaylistTreeNode(first),
        group.slots@[2] is Present ==> group.slots@[2]->row == Row::PlaylistTreeNode(third),
    ensures
        nodes_in(group.present_rows_spec(), group.present_rows_spec().len() as int) == seq![
            first,
            third,
        ],
{
    crate::pdb::page::lemma_present_rows_of_mask_five(group);
    let rows = group.present_rows_spec();
    assert(rows.len() == 2);
    assert(nodes_in(rows, 0) =~= Seq::<PlaylistTreeNode>::empty());
    assert(nodes_in(rows, 1) =~= seq![first]);
    assert(nodes_in(rows, 2) =~= seq![first, third]);
}

/// Collects the playlist tree nodes of the pages: the rows that are present,
/// in the order of the pages, of their row groups and of the entries of the
/// groups. Rows of other kinds are passed over.
pub fn nodes_of_pages(pages: &Vec<Page>) -> (nodes: Vec<PlaylistTreeNode>)
    ensures
        nodes@ == pages_nodes(pages@, pages@.len() as int),
{
    let mut nodes: Vec<PlaylistTreeNode> = Vec::new();
    let mut p: usize = 0;
    while p < pages.len()
        invariant
            0 <= p <= pages@.len(),
            nodes@ == pages_nodes(pages@, p as int),
        decreases pages@.len() - p,
    {
        let page = &pages[p];
        let ghost front = nodes@;
        let mut g: usize = 0;
        assert(front + page_nodes(*page, 0) =~= front);
        while g < page.row_groups.len()
            invariant
                0 <= g <= page.row_groups@.len(),
                nodes@ == front + page_nodes(*page, g as int),
            decreases page.row_groups@.len() - g,
        {
            let rows = page.row_groups[g].present_rows();
            let ghost all = page.row_groups@[g as int].present_rows_spec();
            let ghost before = nodes@;
            let mut i: usize = 0;
            assert(before + nodes_in(all, 0) =~= before);
            while i < rows.len()
                invariant
                    0 <= i <= rows@.len(),
                    rows@.len() == all.len(),
                    forall|j: int| 0 <= j < rows@.len() ==> *(#[trigger] rows@[j]) == all[j],
                    nodes@ == before + nodes_in(all, i as int),
                decreases rows@.len() - i,
            {
                match rows[i] {
                    Row::PlaylistTreeNode(node) => {
                        nodes.push(copy_node(node));
                        assert(nodes@ =~= before + nodes_in(all, i + 1));
                    },
                    _ => {},
                }
                i += 1;
            }
            g += 1;
            assert(nodes@ =~= front + page_nodes(*page, g as int));
        }
        p += 1;
    }
    nodes
}

/// A copy of a node.
fn copy_node(node: &PlaylistTreeNode) -> (copy: PlaylistTreeNode)
    ensures
        copy == *node,
{
    PlaylistTreeNode {
        parent_id: node.parent_id,
        unknown: node.unknown,
        sort_index: node.sort_index,
        id: node.id,
        node_is_folder: node.node_is_folder,
        name: DeviceString { form: node.name.form, text: node.name.text.clone() },
    }
}

/// The page indexes of the chains of the playlist tree tables among the
/// first `n` tables of `file`, one chain behind the other, or the first
/// error met in following them.
pub open spec fn playlist_chain(file: Seq<u8>, n: int) -> Result<Seq<u32>, PdbError>
    decreases n,
{
    if n <= 0 {
        Ok(Seq::empty())
    } else {
        match playlist_chain(file, n - 1) {
            Err(e) => Err(e),
            Ok(front) => if file_table(file, n - 1).page_type != PageType::PlaylistTree {
                Ok(front)
            } else {
                match file_chain(file, n - 1) {
                    Err(e) => Err(e),
                    Ok(indexes) => Ok(front + indexes),
                }
            },
        }
    }
}

/// Why the playlist tree of `file` cannot be read, or `None` if it can: the
/// header cannot be read, or the chain of a playlist tree table cannot.
pub open spec fn playlist_error(file: Seq<u8>) -> Option<PdbError> {
    if header_error(file) is Some {
        header_error(file)
    } else {
        match playlist_chain(file, header_tables(file)) {
            Err(e) => Some(e),
            Ok(_) => None,
        }
    }
}

/// An error among the chains of the first tables is the error of all of them.
proof fn lemma_playlist_chain_error_stays(file: Seq<u8>, n: int, m: int)
    requires
        0 <= n <= m,
        playlist_chain(file, n) is Err,
    ensures
        playlist_chain(file, m) == playlist_chain(file, n),
    decreases m - n,
{
    if n < m {
        lemma_playlist_chain_error_stays(file, n, m - 1);
    }
}

/// Reads the pages of the playlist tree tables of a database file, in the
/// order of the table directory and of the chains.
pub fn playlist_pages(bytes: &[u8]) -> (r: Result<Vec<Page>, PdbError>)
    ensures
        match r {
            Ok(pages) => {
                &&& playlist_error(bytes@) is None
                &&& pages_parsed_from(
                    pages@,
                    bytes@,
                    file_page_size(bytes@),
                    PageType::PlaylistTree,
                    playlist_chain(bytes@, header_tables(bytes@)).unwrap(),
                )
            },
            Err(e) => playlist_error(bytes@) == Some(e),
        },
{
    let header = match Header::read(bytes) {
        Ok(h) => h,
        Err(e) => return Err(e),
    };
    let ghost file = bytes@;
    let ghost size = file_page_size(file);
    let mut all: Vec<Page> = Vec::new();
    let mut i: usize = 0;
    while i < header.tables.len()
        invariant
            0 <= i <= header.tables@.len(),
            file == bytes@,
            size == file_page_size(file),
            header_error(file) is None,
            header.parsed_from(file),
            playlist_chain(file, i as int) is Ok,
            pages_parsed_from(
                all@,
                file,
                size,
                PageType::PlaylistTree,
                playlist_chain(file, i as int).unwrap(),
            ),
        decreases header.tables@.len() - i,
    {
        proof {
            assert(header.tables@[i as int] == file_table(file, i as int));
            if playlist_chain(file, i + 1) is Err {
                lemma_playlist_chain_error_stays(file, i + 1, header_tables(file));
            }
        }
        let table = &header.tables[i];
        if table.page_type == PageType::PlaylistTree {
            let ghost front = all@;
            let mut pages = match header.read_pages(bytes, table) {
                Ok(v) => v,
                Err(e) => return Err(e),
            };
            let ghost added = pages@;
            all.append(&mut pages);
            assert(all@ =~= front + added);
        }
        i += 1;
    }
    Ok(all)
}

/// The text of the line for an entry: four spaces for every level, the sign
/// of a folder or of a playlist, a space, and the name.
pub open spec fn line_of(entry: EntryView) -> Seq<char> {
    Seq::new(4 * entry.level, |i: int| ' ') + seq![
        if entry.is_folder {
            FOLDER_SIGN
        } else {
            PLAYLIST_SIGN
        },
        ' ',
    ] + entry.name
}

impl TreeEntry {
    /// The line for this entry as text.
    pub fn line(&self) -> (text: String)
        ensures
            text@ == line_of(self@),
    {
        let mut text = String::new();
        let mut i: usize = 0;
        while i < self.level
            invariant
                0 <= i <= self.level,
                text@ == Seq::new(4 * i as nat, |i: int| ' '),
            decreases self.level - i,
        {
            text.push(' ');
            text.push(' ');
            text.push(' ');
            text.push(' ');
            i += 1;
            assert(text@ =~= Seq::new(4 * i as nat, |i: int| ' '));
        }
        text.push(
            if self.is_folder {
                FOLDER_SIGN
            } else {
                PLAYLIST_SIGN
            },
        );
        text.push(' ');
        text.append(self.name.as_str());
        assert(text@ =~= line_of(self@));
        text
    }
}

/// The lines of a listed tree as text.
pub fn render(entries: &Vec<TreeEntry>) -> (lines: Vec<String>)
    ensures
        lines@.len() == entries@.len(),
        forall|i: int| 0 <= i < lines@.len() ==> (#[trigger] lines@[i])@ == line_of(entries@[i]@),
{
    let mut lines: Vec<String> = Vec::new();
    let mut i: usize = 0;
    while i < entries.len()
        invariant
            0 <= i <= entries@.len(),
            lines@.len() == i,
            forall|j: int| 0 <= j < i ==> (#[trigger] lines@[j])@ == line_of(entries@[j]@),
        decreases entries@.len() - i,
    {
        lines.push(entries[i].line());
        i += 1;
    }
    lines
}

/// Whether `lines` is the listed playlist tree of the database `file`, as
/// text: the tree of the nodes in the pages of its playlist tree tables.
pub open spec fn lists_playlists_of(lines: Seq<String>, file: Seq<u8>) -> bool {
    exists|pages: Seq<Page>|
        {
            &&& #[trigger] pages_parsed_from(
                pages,
                file,
                file_page_size(file),
                PageType::PlaylistTree,
                playlist_chain(file, header_tables(file)).unwrap(),
            )
            &&& lines.len() == tree_of(pages_nodes(pages, pages.len() as int)).len()
            &&& forall|i: int|
                0 <= i < lines.len() ==> (#[trigger] lines[i])@ == line_of(
                    tree_of(pages_nodes(pages, pages.len() as int))[i],
                )
        }
}

/// Whether two runs of nodes say the same, node by node: the same ids, the
/// same folders, the same names.
pub open spec fn same_nodes(a: Seq<PlaylistTreeNode>, b: Seq<PlaylistTreeNode>) -> bool {
    &&& a.len() == b.len()
    &&& forall|i: int|
        0 <= i < a.len() ==> {
            &&& (#[trigger] a[i]).id == b[i].id
            &&& a[i].parent_id == b[i].parent_id
            &&& a[i].is_folder() == b[i].is_folder()
            &&& a[i].name.text@ == b[i].name.text@
        }
}

/// Nodes that say the same are listed as the same tree.
pub proof fn lemma_tree_of_same_nodes(a: Seq<PlaylistTreeNode>, b: Seq<PlaylistTreeNode>)
    requires
        same_nodes(a, b),
    ensures
        tree_of(a) == tree_of(b),
{
    assert(node_views(a) =~= node_views(b));
}

/// The playlist tree nodes among the first `n` entries of a row group.
pub open spec fn slots_nodes(slots: Seq<Slot>, n: int) -> Seq<PlaylistTreeNode>
    decreases n,
{
    if n <= 0 {
        Seq::empty()
    } else {
        match slots[n - 1] {
            Slot::Present { gap, row: Row::PlaylistTreeNode(node) } => slots_nodes(
                slots,
                n - 1,
            ).push(node),
            _ => slots_nodes(slots, n - 1),
        }
    }
}

/// The playlist tree nodes among the rows that are present in a row group
/// are the nodes among its entries.
proof fn lemma_nodes_of_slots(slots: Seq<Slot>, n: int)
    requires
        0 <= n <= slots.len(),
    ensures
        nodes_in(RowGroup::rows_upto(slots, n), RowGroup::rows_upto(slots, n).len() as int)
            == slots_nodes(slots, n),
    decreases n,
{
    if n > 0 {
        lemma_nodes_of_slots(slots, n - 1);
        let front = RowGroup::rows_upto(slots, n - 1);
        match slots[n - 1] {
            Slot::Present { gap, row } => {
                let rows = front.push(row);
                lemma_nodes_in_front(rows, front, front.len() as int);
            },
            Slot::Absent { .. } => {},
        }
    }
}

/// The nodes among the first rows depend on those rows alone.
proof fn lemma_nodes_in_front(a: Seq<Row>, b: Seq<Row>, n: int)
    requires
        0 <= n <= a.len(),
        n <= b.len(),
        forall|i: int| 0 <= i < n ==> a[i] == b[i],
    ensures
        nodes_in(a, n) == nodes_in(b, n),
    decreases n,
{
    if n > 0 {
        lemma_nodes_in_front(a, b, n - 1);
    }
}

/// Two row groups that were read from the same group of the same page of
/// playlist tree nodes hold nodes that say the same.
proof fn lemma_same_nodes_of_group(x: RowGroup, y: RowGroup, b: Seq<u8>, g: int, n: int)
    requires
        x.parsed_from(b, PageType::PlaylistTree, g),
        y.parsed_from(b, PageType::PlaylistTree, g),
        0 <= n <= x.slots@.len(),
    ensures
        same_nodes(slots_nodes(x.slots@, n), slots_nodes(y.slots@, n)),
    decreases n,
{
    if n > 0 {
        lemma_same_nodes_of_group(x, y, b, g, n - 1);
        assert(x.slots@[n - 1].parsed_from(b, PageType::PlaylistTree, g, n - 1));
        assert(y.slots@[n - 1].parsed_from(b, PageType::PlaylistTree, g, n - 1));
    }
}

/// Runs of nodes that say the same, one behind the other, say the same.
proof fn lemma_same_nodes_joined(
    a: Seq<PlaylistTreeNode>,
    b: Seq<PlaylistTreeNode>,
    c: Seq<PlaylistTreeNode>,
    d: Seq<PlaylistTreeNode>,
)
    requires
        same_nodes(a, b),
        same_nodes(c, d),
    ensures
        same_nodes(a + c, b + d),
{
}

/// Two pages that were read from the same page of playlist tree nodes hold
/// nodes that say the same.
proof fn lemma_same_nodes_of_page(x: Page, y: Page, b: Seq<u8>, g: int)
    requires
        x.parsed_from(b, PageType::PlaylistTree),
        y.parsed_from(b, PageType::PlaylistTree),
        0 <= g <= x.row_groups@.len(),
    ensures
        x.row_groups@.len() == y.row_groups@.len(),
        same_nodes(page_nodes(x, g), page_nodes(y, g)),
    decreases g,
{
    reveal(Page::parsed_from);
    if g > 0 {
        lemma_same_nodes_of_page(x, y, b, g - 1);
        let xg = x.row_groups@[g - 1];
        let yg = y.row_groups@[g - 1];
        assert(xg.parsed_from(b, PageType::PlaylistTree, g - 1));
        assert(yg.parsed_from(b, PageType::PlaylistTree, g - 1));
        let n = xg.slots@.len() as int;
        lemma_nodes_of_slots(xg.slots@, n);
        lemma_nodes_of_slots(yg.slots@, n);
        lemma_same_nodes_of_group(xg, yg, b, g - 1, n);
        lemma_same_nodes_joined(
            page_nodes(x, g - 1),
            page_nodes(y, g - 1),
            slots_nodes(xg.slots@, n),
            slots_nodes(yg.slots@, n),
        );
    }
}

/// Two runs of pages that were read from the same pages of playlist tree
/// nodes hold nodes that say the same.
proof fn lemma_same_nodes_of_pages(
    x: Seq<Page>,
    y: Seq<Page>,
    file: Seq<u8>,
    page_size: int,
    indexes: Seq<u32>,
    p: int,
)
    requires
        pages_parsed_from(x, file, page_size, PageType::PlaylistTree, indexes),
        pages_parsed_from(y, file, page_size, PageType::PlaylistTree, indexes),
        0 <= p <= x.len(),
    ensures
        same_nodes(pages_nodes(x, p), pages_nodes(y, p)),
    decreases p,
{
    if p > 0 {
        lemma_same_nodes_of_pages(x, y, file, page_size, indexes, p - 1);
        let b = crate::pdb::header::page_bytes(file, page_size, indexes[p - 1] as int);
        assert(x[p - 1].parsed_from(b, PageType::PlaylistTree));
        assert(y[p - 1].parsed_from(b, PageType::PlaylistTree));
        lemma_same_nodes_of_page(x[p - 1], y[p - 1], b, x[p - 1].row_groups@.len() as int);
        lemma_same_nodes_joined(
            pages_nodes(x, p - 1),
            pages_nodes(y, p - 1),
            page_nodes(x[p - 1], x[p - 1].row_groups@.len() as int),
            page_nodes(y[p - 1], y[p - 1].row_groups@.len() as int),
        );
    }
}

/// A file has one listed playlist tree: any two listings of the same file
/// have the same lines with the same text.
pub proof fn lemma_listing_is_unique(a: Seq<String>, b: Seq<String>, file: Seq<u8>)
    requires
        lists_playlists_of(a, file),
        lists_playlists_of(b, file),
    ensures
        a.len() == b.len(),
        forall|i: int| 0 <= i < a.len() ==> (#[trigger] a[i])@ == b[i]@,
{
    let size = file_page_size(file);
    let indexes = playlist_chain(file, header_tables(file)).unwrap();
    let x = choose|pages: Seq<Page>|
        {
            &&& #[trigger] pages_parsed_from(pages, file, size, PageType::PlaylistTree, indexes)
            &&& a.len() == tree_of(pages_nodes(pages, pages.len() as int)).len()
            &&& forall|i: int|
                0 <= i < a.len() ==> (#[trigger] a[i])@ == line_of(
                    tree_of(pages_nodes(pages, pages.len() as int))[i],
                )
        };
    let y = choose|pages: Seq<Page>|
        {
            &&& #[trigger] pages_parsed_from(pages, file, size, PageType::PlaylistTree, indexes)
            &&& b.len() == tree_of(pages_nodes(pages, pages.len() as int)).len()
            &&& forall|i: int|
                0 <= i < b.len() ==> (#[trigger] b[i])@ == line_of(
                    tree_of(pages_nodes(pages, pages.len() as int))[i],
                )
        };
    let xn = pages_nodes(x, x.len() as int);
    let yn = pages_nodes(y, y.len() as int);
    lemma_same_nodes_of_pages(x, y, file, size, indexes, x.len() as int);
    lemma_tree_of_same_nodes(xn, yn);
    assert forall|i: int| 0 <= i < a.len() implies (#[trigger] a[i])@ == b[i]@ by {
        assert(a[i]@ == line_of(tree_of(xn)[i]));
        assert(b[i]@ == line_of(tree_of(yn)[i]));
    }
}

/// Lists the playlist tree of a database file, one line of text for every
/// node: the pages of the playlist tree tables are read, their rows
/// collected, and the tree that they describe is listed from the top.
pub fn list_playlists(bytes: &[u8]) -> (r: Result<Vec<String>, PdbError>)
    ensures
        match r {
            Ok(lines) => playlist_error(bytes@) is None && lists_playlists_of(lines@, bytes@),
            Err(e) => playlist_error(bytes@) == Some(e),
        },
{
    let pages = match playlist_pages(bytes) {
        Ok(v) => v,
        Err(e) => return Err(e),
    };
    let nodes = nodes_of_pages(&pages);
    let entries = build_tree(&nodes);
    let lines = render(&entries);
    Ok(lines)
}

} // verus!
