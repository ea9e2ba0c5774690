//! The filesystem core: the inode table with its allocator, and the four
//! protocol handlers (`lookup`, `getattr`, `read`, `readdir`) as in-memory
//! transitions. Backend pages and object bytes are handed in by the caller;
//! the handlers decide, allocate and reply.

use crate::attr::{attr_spec, root_attr, root_attr_spec, FileAttr, FileKind, ROOT_INO};
use crate::inode::{
    lemma_link_lookup_absent, lemma_link_lookup_is_link, lemma_link_lookup_push, link_lookup,
    views_of_links, ChildLink, ChildLinkView, Inode, InodeView,
};
use crate::listing::{views_of_children, ChildItem, ChildItemView};
use vstd::prelude::*;

verus! {

/// What a failed handler call signals.
#[derive(Clone, Copy, PartialEq, Eq, Structural, Debug)]
pub enum FsError {
    /// Unknown inode, unknown child name, or an operation applied to the
    /// wrong kind of entry. Recovered locally; never fatal.
    NotFound,
    /// A table-internal defect, such as inserting over an occupied inode
    /// number. Indicates a programming error, not a caller mistake.
    InvariantViolation,
}

/// One entry of a directory-listing reply. `offset` is the cursor a caller
/// hands back to resume the listing after this entry.
pub struct DirEntry {
    pub ino: u64,
    pub offset: u64,
    pub kind: FileKind,
    pub name: String,
}

/// The mathematical content of a [`DirEntry`].
#[verifier::ext_equal]
pub struct DirEntryView {
    pub ino: u64,
    pub offset: u64,
    pub kind: FileKind,
    pub name: Seq<char>,
}

impl View for DirEntry {
    type V = DirEntryView;

    open spec fn view(&self) -> DirEntryView {
        DirEntryView { ino: self.ino, offset: self.offset, kind: self.kind, name: self.name@ }
    }
}

pub open spec fn views_of_entries(entries: Seq<DirEntry>) -> Seq<DirEntryView> {
    entries.map_values(|e: DirEntry| e@)
}

/// The filesystem core for one bucket: the authoritative inode table and its
/// monotonic inode-number allocator.
pub struct MFS {
    pub bucket_name: String,
    inodes: Vec<Inode>,
    next_ino: u64,
}

/// The mathematical content of an [`MFS`]: the table in insertion order and
/// the allocator's next number.
#[verifier::ext_equal]
pub struct MfsView {
    pub bucket: Seq<char>,
    pub inodes: Seq<InodeView>,
    pub next_ino: int,
}

impl View for MFS {
    type V = MfsView;

    closed spec fn view(&self) -> MfsView {
        MfsView {
            bucket: self.bucket_name@,
            inodes: views_of_inodes(self.inodes@),
            next_ino: self.next_ino as int,
        }
    }
}

pub open spec fn views_of_inodes(inodes: Seq<Inode>) -> Seq<InodeView> {
    inodes.map_values(|n: Inode| n@)
}

/// Some table entry carries the number `ino`.
pub open spec fn has_ino(v: MfsView, ino: u64) -> bool {
    exists|i: int| 0 <= i < v.inodes.len() && (#[trigger] v.inodes[i]).ino == ino
}

/// The position of the entry carrying `ino` (unique under [`table_wf`]).
pub open spec fn ino_index(v: MfsView, ino: u64) -> int {
    choose|i: int| 0 <= i < v.inodes.len() && (#[trigger] v.inodes[i]).ino == ino
}

/// The table entry carrying `ino`.
pub open spec fn inode_at(v: MfsView, ino: u64) -> InodeView {
    v.inodes[ino_index(v, ino)]
}

/// `ino` names a live directory.
pub open spec fn dir_ok(v: MfsView, ino: u64) -> bool {
    has_ino(v, ino) && inode_at(v, ino).attr.kind == FileKind::Directory
}

/// One child link is consistent with the table: its target exists, is not the
/// root, and carries the link's name with this directory as its parent.
pub open spec fn link_ok(v: MfsView, d: InodeView, l: ChildLinkView) -> bool {
    &&& has_ino(v, l.ino)
    &&& l.ino != ROOT_INO
    &&& inode_at(v, l.ino).name == l.name
    &&& inode_at(v, l.ino).parent == d.ino
}

/// A directory's links bind each name at most once, and every link is
/// consistent with the table.
pub open spec fn links_wf(v: MfsView, d: InodeView) -> bool {
    &&& forall|a: int, b: int|
        #![trigger d.children[a], d.children[b]]
        0 <= a < b < d.children.len() ==> d.children[a].name != d.children[b].name
    &&& forall|a: int| 0 <= a < d.children.len() ==> link_ok(v, d, #[trigger] d.children[a])
}

/// One table entry is consistent: its number is live and below the allocator,
/// its attribute record repeats its number, its parent exists, and its links
/// are consistent.
pub open spec fn inode_entry_wf(v: MfsView, n: InodeView) -> bool {
    &&& 1 <= n.ino
    &&& (n.ino as int) < v.next_ino
    &&& n.attr.ino == n.ino
    &&& has_ino(v, n.parent)
    &&& links_wf(v, n)
}

/// No two table entries carry the same number.
pub open spec fn inos_unique(inodes: Seq<InodeView>) -> bool {
    forall|i: int, j: int|
        #![trigger inodes[i].ino, inodes[j].ino]
        0 <= i < j < inodes.len() ==> inodes[i].ino != inodes[j].ino
}

/// Well-formedness of the whole table: the root sits at position zero with
/// its fixed attributes, numbers are unique, every entry is consistent, and
/// every non-root entry is a regular file (no nested directory discovery).
pub open spec fn table_wf(v: MfsView) -> bool {
    &&& 1 <= v.inodes.len()
    &&& v.inodes[0].ino == ROOT_INO
    &&& v.inodes[0].parent == ROOT_INO
    &&& v.inodes[0].name == Seq::<char>::empty()
    &&& v.inodes[0].attr == root_attr_spec()
    &&& 2 <= v.next_ino
    &&& inos_unique(v.inodes)
    &&& forall|i: int| 0 <= i < v.inodes.len() ==> inode_entry_wf(v, #[trigger] v.inodes[i])
    &&& forall|i: int|
        1 <= i < v.inodes.len() ==> (#[trigger] v.inodes[i]).attr.kind == FileKind::RegularFile
}

/// Under uniqueness of numbers, any position holding `ino` is the position
/// [`ino_index`] picks.
pub proof fn lemma_index_of_ino(v: MfsView, i: int)
    requires
        inos_unique(v.inodes),
        0 <= i < v.inodes.len(),
    ensures
        ino_index(v, v.inodes[i].ino) == i,
        has_ino(v, v.inodes[i].ino),
        inode_at(v, v.inodes[i].ino) == v.inodes[i],
{
    let ino = v.inodes[i].ino;
    assert(has_ino(v, ino));
    let j = ino_index(v, ino);
    assert(0 <= j < v.inodes.len() && v.inodes[j].ino == ino);
    if i < j {
        assert(v.inodes[i].ino != v.inodes[j].ino);
    } else if j < i {
        assert(v.inodes[j].ino != v.inodes[i].ino);
    }
}

/// Under uniqueness of numbers, any position holding `ino` is the position
/// [`ino_index`] picks.
pub proof fn lemma_ino_index_unique(v: MfsView, i: int)
    requires
        table_wf(v),
        0 <= i < v.inodes.len(),
    ensures
        ino_index(v, v.inodes[i].ino) == i,
        has_ino(v, v.inodes[i].ino),
        inode_at(v, v.inodes[i].ino) == v.inodes[i],
{
    lemma_index_of_ino(v, i);
}

/// The root is always live, is a directory, and carries its fixed attribute
/// record; its parent is itself.
pub proof fn lemma_root_attributes(v: MfsView)
    requires
        table_wf(v),
    ensures
        has_ino(v, ROOT_INO),
        inode_at(v, ROOT_INO) == v.inodes[0],
        inode_at(v, ROOT_INO).attr == root_attr_spec(),
        inode_at(v, ROOT_INO).parent == ROOT_INO,
        dir_ok(v, ROOT_INO),
{
    lemma_ino_index_unique(v, 0);
}

/// The table after observing one listing child under `parent`: when the name
/// is already bound the table is unchanged (look up before insert — the
/// existing entry is reused); otherwise the next number is allocated, the
/// child appended, and a link added under the parent. A non-directory or
/// unknown `parent` leaves the table unchanged.
pub open spec fn materialize_one(v: MfsView, parent: u64, it: ChildItemView) -> MfsView {
    if !dir_ok(v, parent) {
        v
    } else {
        let d = inode_at(v, parent);
        if link_lookup(d.children, it.name) is Some {
            v
        } else {
            let ni = v.next_ino as u64;
            let child = InodeView {
                ino: ni,
                parent,
                name: it.name,
                children: Seq::<ChildLinkView>::empty(),
                attr: attr_spec(ni, it.size, FileKind::RegularFile),
            };
            let linked = InodeView {
                children: d.children.push(ChildLinkView { name: it.name, ino: ni }),
                ..d
            };
            MfsView {
                inodes: v.inodes.update(ino_index(v, parent), linked).push(child),
                next_ino: v.next_ino + 1,
                ..v
            }
        }
    }
}

/// The table after observing a whole listing under `parent`, in listing
/// order.
pub open spec fn materialize_all(v: MfsView, parent: u64, items: Seq<ChildItemView>) -> MfsView
    decreases items.len(),
{
    if items.len() == 0 {
        v
    } else {
        materialize_one(materialize_all(v, parent, items.drop_last()), parent, items.last())
    }
}

/// Observing one child preserves well-formedness and touches nothing but the
/// parent's links, the appended child and the allocator: every live number
/// stays live with its attributes, name and parent; every existing binding
/// keeps its number; the observed name ends up bound.
#[verifier::rlimit(60)]
pub proof fn lemma_materialize_one_frame(v: MfsView, parent: u64, it: ChildItemView)
    requires
        table_wf(v),
        v.next_ino < u64::MAX,
    ensures
        ({
            let m = materialize_one(v, parent, it);
            &&& table_wf(m)
            &&& m.bucket == v.bucket
            &&& v.next_ino <= m.next_ino <= v.next_ino + 1
            &&& v.inodes.len() <= m.inodes.len() <= v.inodes.len() + 1
            &&& (!dir_ok(v, parent) ==> m == v)
            &&& forall|n: u64|
                has_ino(v, n) ==> has_ino(m, n) && (#[trigger] inode_at(m, n)).ino == inode_at(
                    v,
                    n,
                ).ino && inode_at(m, n).name == inode_at(v, n).name && inode_at(m, n).parent
                    == inode_at(v, n).parent && inode_at(m, n).attr == inode_at(v, n).attr
            &&& forall|n: u64|
                has_ino(v, n) && n != parent ==> (#[trigger] inode_at(m, n)).children == inode_at(
                    v,
                    n,
                ).children
            &&& forall|n: u64| #[trigger]
                has_ino(m, n) ==> has_ino(v, n) || n == (v.next_ino as u64)
            &&& (dir_ok(v, parent) ==> {
                let dv = inode_at(v, parent).children;
                let dm = inode_at(m, parent).children;
                &&& dir_ok(m, parent)
                &&& link_lookup(dm, it.name) is Some
                &&& forall|s: Seq<char>|
                    s != it.name ==> #[trigger] link_lookup(dm, s) == link_lookup(dv, s)
                &&& (link_lookup(dv, it.name) is Some ==> m == v && link_lookup(dm, it.name)
                    == link_lookup(dv, it.name))
                &&& (link_lookup(dv, it.name) is None ==> link_lookup(dm, it.name) == Some(
                    v.next_ino as u64,
                ) && m.inodes.len() == v.inodes.len() + 1 && m.next_ino == v.next_ino + 1
                    && dm.len() == dv.len() + 1)
            })
        }),
{
    let m = materialize_one(v, parent, it);
    if !dir_ok(v, parent) {
        return;
    }
    let d = inode_at(v, parent);
    let pidx = ino_index(v, parent);
    assert(0 <= pidx < v.inodes.len() && v.inodes[pidx].ino == parent);
    assert(v.inodes[pidx] == d);
    if link_lookup(d.children, it.name) is Some {
        return;
    }
    let ni = v.next_ino as u64;
    let child = InodeView {
        ino: ni,
        parent,
        name: it.name,
        children: Seq::<ChildLinkView>::empty(),
        attr: attr_spec(ni, it.size, FileKind::RegularFile),
    };
    let linked = InodeView {
        children: d.children.push(ChildLinkView { name: it.name, ino: ni }),
        ..d
    };
    let len = v.inodes.len() as int;
    assert(m.inodes == v.inodes.update(pidx, linked).push(child));
    assert(m.inodes.len() == len + 1);
    assert(m.inodes[pidx] == linked);
    assert(m.inodes[len] == child);
    assert(forall|i: int| 0 <= i < len && i != pidx ==> m.inodes[i] == v.inodes[i]);
    assert(forall|i: int| 0 <= i < len ==> (#[trigger] m.inodes[i]).ino == v.inodes[i].ino);

    // every old number is below the allocated one, so uniqueness extends
    assert(forall|i: int|
        0 <= i < len ==> ((#[trigger] v.inodes[i]).ino as int) < v.next_ino);
    assert(child.ino as int == v.next_ino);
    assert(inos_unique(m.inodes));

    // positions, liveness and entries carry over
    assert forall|n: u64| has_ino(v, n) implies has_ino(m, n) && ino_index(m, n) == ino_index(
        v,
        n,
    ) by {
        let i = ino_index(v, n);
        assert(0 <= i < len && v.inodes[i].ino == n);
        assert(m.inodes[i].ino == n);
        lemma_index_of_ino(m, i);
    }
    assert forall|n: u64| #[trigger] has_ino(m, n) implies has_ino(v, n) || n == ni by {
        let i = ino_index(m, n);
        assert(0 <= i < len + 1 && m.inodes[i].ino == n);
        if i < len {
            assert(v.inodes[i].ino == n);
            assert(has_ino(v, n));
        }
    }
    lemma_index_of_ino(m, len);
    assert(has_ino(m, ni) && inode_at(m, ni) == child);

    // the parent's links after the push
    assert(inode_at(m, parent) == linked);
    lemma_link_lookup_absent(d.children, it.name);
    assert forall|s: Seq<char>| true implies #[trigger] link_lookup(linked.children, s) == (
        if link_lookup(d.children, s) is Some {
            link_lookup(d.children, s)
        } else if s == it.name {
            Some(ni)
        } else {
            None::<u64>
        }
    ) by {
        lemma_link_lookup_push(d.children, ChildLinkView { name: it.name, ino: ni }, s);
    }

    // well-formedness of the new table
    assert(m.inodes[0].ino == ROOT_INO);
    assert(m.inodes[0].parent == ROOT_INO && m.inodes[0].name == Seq::<char>::empty()
        && m.inodes[0].attr == root_attr_spec()) by {
        if pidx == 0 {
            assert(m.inodes[0] == linked);
        } else {
            assert(m.inodes[0] == v.inodes[0]);
        }
    }
    assert forall|i: int| 0 <= i < m.inodes.len() implies inode_entry_wf(
        m,
        #[trigger] m.inodes[i],
    ) by {
        if i == len {
            assert(m.inodes[i] == child);
            assert(has_ino(m, child.parent));
            assert(child.children.len() == 0);
        } else {
            let e = v.inodes[i];
            assert(inode_entry_wf(v, e));
            assert(has_ino(m, e.parent));
            let me = m.inodes[i];
            assert(me.children == if i == pidx {
                linked.children
            } else {
                e.children
            });
            assert forall|a: int| 0 <= a < me.children.len() implies link_ok(
                m,
                me,
                #[trigger] me.children[a],
            ) by {
                if i == pidx && a == me.children.len() - 1 {
                    // the freshly added link points at the appended child
                    assert(me.children[a] == (ChildLinkView { name: it.name, ino: ni }));
                    assert(inode_at(m, ni) == child);
                    assert(ni as int >= 2);
                } else {
                    let l = e.children[a];
                    assert(link_ok(v, e, l));
                    assert(me.children[a] == l);
                    assert(inode_at(m, l.ino).name == inode_at(v, l.ino).name);
                    assert(inode_at(m, l.ino).parent == inode_at(v, l.ino).parent);
                }
            }
            if i == pidx {
                assert forall|a: int, b: int|
                    #![trigger me.children[a], me.children[b]]
                    0 <= a < b < me.children.len() implies me.children[a].name
                    != me.children[b].name by {
                    if b == me.children.len() - 1 {
                        assert(me.children[a] == d.children[a]);
                        assert(d.children[a].name != it.name);
                    } else {
                        assert(me.children[a] == d.children[a] && me.children[b] == d.children[b]);
                    }
                }
            }
        }
    }
    assert forall|i: int| 1 <= i < m.inodes.len() implies (#[trigger] m.inodes[i]).attr.kind
        == FileKind::RegularFile by {
        if i == len {
            assert(m.inodes[i] == child);
        } else if i == pidx {
            assert(m.inodes[i] == linked);
            assert(v.inodes[i].attr.kind == FileKind::RegularFile);
        } else {
            assert(m.inodes[i] == v.inodes[i]);
        }
    }
    assert(table_wf(m));
}

/// Observing a whole listing preserves well-formedness and the frame:
/// existing numbers keep their records, other directories keep their links,
/// each listed name ends up bound, and a name is bound afterwards exactly
/// when it was bound before or the listing holds it. When the listed names
/// are distinct and all new, exactly one entry is added per name.
#[verifier::rlimit(60)]
pub proof fn lemma_materialize_all_frame(v: MfsView, parent: u64, items: Seq<ChildItemView>)
    requires
        table_wf(v),
        v.next_ino + items.len() <= u64::MAX,
    ensures
        ({
            let m = materialize_all(v, parent, items);
            &&& table_wf(m)
            &&& m.bucket == v.bucket
            &&& v.next_ino <= m.next_ino <= v.next_ino + items.len()
            &&& v.inodes.len() <= m.inodes.len() <= v.inodes.len() + items.len()
            &&& (!dir_ok(v, parent) ==> m == v)
            &&& forall|n: u64|
                has_ino(v, n) ==> has_ino(m, n) && (#[trigger] inode_at(m, n)).ino == inode_at(
                    v,
                    n,
                ).ino && inode_at(m, n).name == inode_at(v, n).name && inode_at(m, n).parent
                    == inode_at(v, n).parent && inode_at(m, n).attr == inode_at(v, n).attr
            &&& forall|n: u64|
                has_ino(v, n) && n != parent ==> (#[trigger] inode_at(m, n)).children == inode_at(
                    v,
                    n,
                ).children
            &&& (dir_ok(v, parent) ==> {
                let dv = inode_at(v, parent).children;
                let dm = inode_at(m, parent).children;
                &&& dir_ok(m, parent)
                &&& forall|i: int|
                    0 <= i < items.len() ==> link_lookup(
                        dm,
                        (#[trigger] items[i]).name,
                    ) is Some
                &&& forall|s: Seq<char>|
                    (#[trigger] link_lookup(dm, s)) is Some <==> (link_lookup(dv, s) is Some
                        || exists|i: int| 0 <= i < items.len() && (#[trigger] items[i]).name == s)
                &&& forall|s: Seq<char>|
                    link_lookup(dv, s) is Some ==> #[trigger] link_lookup(dm, s) == link_lookup(
                        dv,
                        s,
                    )
                &&& ((forall|i: int, j: int|
                    #![trigger items[i], items[j]]
                    0 <= i < j < items.len() ==> items[i].name != items[j].name) && (forall|i: int|
                    0 <= i < items.len() ==> link_lookup(
                        dv,
                        (#[trigger] items[i]).name,
                    ) is None) ==> m.inodes.len() == v.inodes.len() + items.len())
            })
        }),
    decreases items.len(),
{
    if items.len() == 0 {
        return;
    }
    let dl = items.drop_last();
    let last = items.last();
    lemma_materialize_all_frame(v, parent, dl);
    let mid = materialize_all(v, parent, dl);
    lemma_materialize_one_frame(mid, parent, last);
    let m = materialize_all(v, parent, items);
    assert(m == materialize_one(mid, parent, last));
    assert(forall|i: int| 0 <= i < dl.len() ==> #[trigger] dl[i] == items[i]);
    if !dir_ok(v, parent) {
        return;
    }
    let dv = inode_at(v, parent).children;
    let dmid = inode_at(mid, parent).children;
    let dm = inode_at(m, parent).children;
    assert forall|i: int| 0 <= i < items.len() implies link_lookup(
        dm,
        (#[trigger] items[i]).name,
    ) is Some by {
        if i < dl.len() {
            assert(link_lookup(dmid, dl[i].name) is Some);
            assert(link_lookup(dm, dl[i].name) == link_lookup(dmid, dl[i].name));
        }
    }
    assert forall|s: Seq<char>| true implies ((#[trigger] link_lookup(dm, s)) is Some <==> (
    link_lookup(dv, s) is Some || exists|i: int|
        0 <= i < items.len() && (#[trigger] items[i]).name == s)) by {
        if link_lookup(dm, s) is Some {
            if s != last.name {
                assert(link_lookup(dmid, s) is Some);
                if !(link_lookup(dv, s) is Some) {
                    let i = choose|i: int| 0 <= i < dl.len() && (#[trigger] dl[i]).name == s;
                    assert(items[i].name == s);
                }
            } else {
                if !(link_lookup(dv, s) is Some) {
                    assert(items[items.len() - 1].name == s);
                }
            }
        }
        if link_lookup(dv, s) is Some {
            assert(link_lookup(dmid, s) is Some);
            assert(link_lookup(dm, s) is Some);
        }
        if exists|i: int| 0 <= i < items.len() && (#[trigger] items[i]).name == s {
            let i = choose|i: int| 0 <= i < items.len() && (#[trigger] items[i]).name == s;
            if i < dl.len() {
                assert(dl[i].name == s);
                assert(link_lookup(dmid, s) is Some);
                assert(link_lookup(dm, s) == link_lookup(dmid, s));
            } else {
                assert(link_lookup(dm, last.name) is Some);
            }
        }
    }
    if (forall|i: int, j: int|
        #![trigger items[i], items[j]]
        0 <= i < j < items.len() ==> items[i].name != items[j].name) && (forall|i: int|
        0 <= i < items.len() ==> link_lookup(dv, (#[trigger] items[i]).name) is None) {
        assert(mid.inodes.len() == v.inodes.len() + dl.len()) by {
            assert(forall|i: int, j: int|
                #![trigger dl[i], dl[j]]
                0 <= i < j < dl.len() ==> dl[i].name != dl[j].name);
            assert(forall|i: int|
                0 <= i < dl.len() ==> link_lookup(dv, (#[trigger] dl[i]).name) is None);
        }
        assert(link_lookup(dmid, last.name) is None) by {
            if link_lookup(dmid, last.name) is Some {
                assert(link_lookup(dv, last.name) is None);
                let i = choose|i: int| 0 <= i < dl.len() && (#[trigger] dl[i]).name == last.name;
                assert(items[i].name == items[items.len() - 1].name);
            }
        }
        assert(m.inodes.len() == mid.inodes.len() + 1);
    }
}

/// A listing whose names are all already bound changes nothing: looking up
/// before inserting makes re-observation a no-op.
pub proof fn lemma_materialize_noop(v: MfsView, parent: u64, items: Seq<ChildItemView>)
    requires
        dir_ok(v, parent),
        forall|i: int|
            0 <= i < items.len() ==> link_lookup(
                inode_at(v, parent).children,
                (#[trigger] items[i]).name,
            ) is Some,
    ensures
        materialize_all(v, parent, items) == v,
    decreases items.len(),
{
    if items.len() > 0 {
        let dl = items.drop_last();
        assert(forall|i: int| 0 <= i < dl.len() ==> #[trigger] dl[i] == items[i]);
        lemma_materialize_noop(v, parent, dl);
        assert(link_lookup(inode_at(v, parent).children, items.last().name) is Some);
    }
}

/// Repeated listings of an unchanged directory are stable: observing the same
/// listing a second time leaves the table exactly as the first observation
/// left it, so the (name, inode number) pairs never change and no duplicate
/// inode is ever created for a name.
pub proof fn lemma_readdir_stable(v: MfsView, parent: u64, items: Seq<ChildItemView>)
    requires
        table_wf(v),
        v.next_ino + items.len() <= u64::MAX,
    ensures
        materialize_all(materialize_all(v, parent, items), parent, items) == materialize_all(
            v,
            parent,
            items,
        ),
{
    lemma_materialize_all_frame(v, parent, items);
    let m = materialize_all(v, parent, items);
    if dir_ok(v, parent) {
        lemma_materialize_noop(m, parent, items);
    } else {
        assert(m == v);
        lemma_materialize_noop_not_dir(v, parent, items);
    }
}

/// A listing observed under an unknown or non-directory parent changes
/// nothing, however long it is.
pub proof fn lemma_materialize_noop_not_dir(v: MfsView, parent: u64, items: Seq<ChildItemView>)
    requires
        !dir_ok(v, parent),
    ensures
        materialize_all(v, parent, items) == v,
    decreases items.len(),
{
    if items.len() > 0 {
        lemma_materialize_noop_not_dir(v, parent, items.drop_last());
    }
}

/// A name is bound after a listing is observed exactly when it was bound
/// before or the listing holds it: a child can be looked up if and only if a
/// prior listing of its directory observed that name.
pub proof fn lemma_lookup_after_readdir(
    v: MfsView,
    parent: u64,
    items: Seq<ChildItemView>,
    name: Seq<char>,
)
    requires
        table_wf(v),
        v.next_ino + items.len() <= u64::MAX,
        dir_ok(v, parent),
    ensures
        link_lookup(inode_at(materialize_all(v, parent, items), parent).children, name) is Some
            <==> (link_lookup(inode_at(v, parent).children, name) is Some || exists|i: int|
            0 <= i < items.len() && (#[trigger] items[i]).name == name),
{
    lemma_materialize_all_frame(v, parent, items);
}

/// `k` serialized observations of the same listing (the shape of concurrent
/// directory listings once the table lock orders their insertions).
pub open spec fn materialize_rounds(
    v: MfsView,
    parent: u64,
    items: Seq<ChildItemView>,
    k: nat,
) -> MfsView
    decreases k,
{
    if k == 0 {
        v
    } else {
        materialize_all(materialize_rounds(v, parent, items, (k - 1) as nat), parent, items)
    }
}

/// Any number of repeated observations of one listing leaves the table as a
/// single observation leaves it; with distinct fresh names, exactly one entry
/// exists per name afterwards — duplicate observation never leaks inodes.
pub proof fn lemma_repeated_readdir_no_leak(
    v: MfsView,
    parent: u64,
    items: Seq<ChildItemView>,
    k: nat,
)
    requires
        table_wf(v),
        v.next_ino + items.len() <= u64::MAX,
        1 <= k,
    ensures
        materialize_rounds(v, parent, items, k) == materialize_all(v, parent, items),
        materialize_rounds(v, parent, items, k).inodes.len() <= v.inodes.len() + items.len(),
    decreases k,
{
    lemma_materialize_all_frame(v, parent, items);
    if k == 1 {
        assert(materialize_rounds(v, parent, items, 0) == v);
        assert(materialize_rounds(v, parent, items, 1) == materialize_all(
            materialize_rounds(v, parent, items, 0),
            parent,
            items,
        ));
    } else {
        lemma_repeated_readdir_no_leak(v, parent, items, (k - 1) as nat);
        lemma_readdir_stable(v, parent, items);
        assert(materialize_rounds(v, parent, items, k) == materialize_all(
            materialize_rounds(v, parent, items, (k - 1) as nat),
            parent,
            items,
        ));
    }
}

/// The window of `content` a read at `offset` for `size` bytes yields: the
/// bytes between `offset` and `offset + size`, both clamped to the content's
/// end. A window starting at or past the end is empty.
pub open spec fn read_window(content: Seq<u8>, offset: u64, size: u32) -> Seq<u8> {
    let len = content.len() as int;
    let start = if offset as int <= len {
        offset as int
    } else {
        len
    };
    let end = if offset as int + size as int <= len {
        offset as int + size as int
    } else {
        len
    };
    content.subrange(start, if end < start {
        start
    } else {
        end
    })
}

/// Copy the requested window out of `content`, clamping at the end.
pub fn read_slice(content: &[u8], offset: u64, size: u32) -> (r: Vec<u8>)
    ensures
        r@ == read_window(content@, offset, size),
{
    let clen: usize = content.len();
    let start: usize = if offset < clen as u64 {
        offset as usize
    } else {
        clen
    };
    let end: usize = if (size as usize) < clen - start {
        start + size as usize
    } else {
        clen
    };
    let mut out: Vec<u8> = Vec::new();
    let mut i: usize = start;
    while i < end
        invariant
            start <= i <= end <= clen,
            clen == content@.len(),
            out@ == content@.subrange(start as int, i as int),
        decreases end - i,
    {
        let b = content[i];
        out.push(b);
        proof {
            assert(content@.subrange(start as int, i + 1) =~= content@.subrange(
                start as int,
                i as int,
            ).push(content@[i as int]));
        }
        i += 1;
    }
    proof {
        assert(out@ =~= read_window(content@, offset, size));
    }
    out
}

/// The complete candidate ordering of one directory listing: `.` and `..`
/// first with cursors 1 and 2, then one entry per listed child in listing
/// order, each carrying the number its name is bound to in the table and the
/// cursor of the next entry.
pub open spec fn full_entries(v: MfsView, dirino: u64, items: Seq<ChildItemView>) -> Seq<
    DirEntryView,
> {
    seq![
        DirEntryView { ino: dirino, offset: 1, kind: FileKind::Directory, name: "."@ },
        DirEntryView {
            ino: inode_at(v, dirino).parent,
            offset: 2,
            kind: FileKind::Directory,
            name: ".."@,
        },
    ] + Seq::new(
        items.len(),
        |i: int|
            DirEntryView {
                ino: link_lookup(inode_at(v, dirino).children, items[i].name)->0,
                offset: (i + 3) as u64,
                kind: FileKind::RegularFile,
                name: items[i].name,
            },
    )
}

impl MFS {
    /// A fresh core for `bucket_name`: the table holds only the root
    /// directory, pre-populated with its fixed attributes, and the allocator
    /// starts just above the root's number.
    pub fn new(bucket_name: String) -> (r: MFS)
        ensures
            table_wf(r@),
            r@.bucket == bucket_name@,
            r@.next_ino == 2,
            r@.inodes.len() == 1,
            r@.inodes[0] == (InodeView {
                ino: ROOT_INO,
                parent: ROOT_INO,
                name: Seq::<char>::empty(),
                children: Seq::<ChildLinkView>::empty(),
                attr: root_attr_spec(),
            }),
    {
        let root = Inode {
            ino: ROOT_INO,
            parent: ROOT_INO,
            name: String::new(),
            children: Vec::new(),
            file_attr: root_attr(),
        };
        let mut inodes: Vec<Inode> = Vec::new();
        inodes.push(root);
        let r = MFS { bucket_name, inodes, next_ino: 2 };
        proof {
            assert(views_of_links(r.inodes@[0].children@) =~= Seq::<ChildLinkView>::empty());
            assert(r@.inodes.len() == 1);
            assert(r@.inodes[0].ino == ROOT_INO);
            assert forall|i: int| 0 <= i < r@.inodes.len() implies inode_entry_wf(
                r@,
                #[trigger] r@.inodes[i],
            ) by {
                assert(has_ino(r@, ROOT_INO));
            }
        }
        r
    }

    /// Allocate a fresh inode number, strictly greater than every number
    /// handed out before; the table itself is untouched.
    pub fn next_ino(&mut self) -> (r: u64)
        requires
            old(self)@.next_ino < u64::MAX,
        ensures
            r as int == old(self)@.next_ino,
            final(self)@ == (MfsView { next_ino: old(self)@.next_ino + 1, ..old(self)@ }),
            table_wf(old(self)@) ==> table_wf(final(self)@),
    {
        let r = self.next_ino;
        self.next_ino = self.next_ino + 1;
        proof {
            if table_wf(old(self)@) {
                assert forall|i: int| 0 <= i < self@.inodes.len() implies inode_entry_wf(
                    self@,
                    #[trigger] self@.inodes[i],
                ) by {
                    assert(inode_entry_wf(old(self)@, old(self)@.inodes[i]));
                    assert(forall|n: u64| has_ino(old(self)@, n) == has_ino(self@, n));
                }
            }
        }
        r
    }

    /// The position of the entry carrying `ino`, if the number is live.
    fn find_index(&self, ino: u64) -> (r: Option<usize>)
        requires
            table_wf(self@),
        ensures
            match r {
                Some(i) => i < self@.inodes.len() && self@.inodes[i as int].ino == ino && i as int
                    == ino_index(self@, ino) && has_ino(self@, ino),
                None => !has_ino(self@, ino),
            },
    {
        let mut i: usize = 0;
        while i < self.inodes.len()
            invariant
                table_wf(self@),
                i <= self@.inodes.len(),
                self@.inodes.len() == self.inodes@.len(),
                forall|j: int| 0 <= j < i ==> (#[trigger] self@.inodes[j]).ino != ino,
            decreases self.inodes@.len() - i,
        {
            if self.inodes[i].ino == ino {
                proof {
                    lemma_ino_index_unique(self@, i as int);
                }
                return Some(i);
            }
            i += 1;
        }
        None
    }

    /// The entry for `ino`, or `None` when the number was never allocated.
    pub fn lookup_by_number(&self, ino: u64) -> (r: Option<&Inode>)
        requires
            table_wf(self@),
        ensures
            match r {
                Some(n) => has_ino(self@, ino) && n@ == inode_at(self@, ino),
                None => !has_ino(self@, ino),
            },
    {
        match self.find_index(ino) {
            Some(i) => Some(&self.inodes[i]),
            None => None,
        }
    }

    /// The number of live entries, the root included.
    pub fn inode_count(&self) -> (r: usize)
        ensures
            r == self@.inodes.len(),
    {
        self.inodes.len()
    }

    /// Add a freshly built entry under its own number. The number must come
    /// from the allocator; adding over an occupied number is refused as an
    /// internal invariant violation and leaves the table unchanged.
    #[verifier::rlimit(60)]
    pub fn insert(&mut self, entry: Inode) -> (r: Result<(), FsError>)
        requires
            table_wf(old(self)@),
            1 <= entry@.ino,
            (entry@.ino as int) < old(self)@.next_ino,
            entry@.attr.ino == entry@.ino,
            entry@.attr.kind == FileKind::RegularFile,
            entry@.children.len() == 0,
            has_ino(old(self)@, entry@.parent),
        ensures
            table_wf(final(self)@),
            final(self)@.bucket == old(self)@.bucket,
            final(self)@.next_ino == old(self)@.next_ino,
            match r {
                Ok(u) => !has_ino(old(self)@, entry@.ino) && final(self)@.inodes == old(
                    self,
                )@.inodes.push(entry@),
                Err(e) => e == FsError::InvariantViolation && has_ino(old(self)@, entry@.ino)
                    && final(self)@ == old(self)@,
            },
    {
        let ghost v0 = self@;
        if self.find_index(entry.ino).is_some() {
            return Err(FsError::InvariantViolation);
        }
        let ghost ev = entry@;
        self.inodes.push(entry);
        proof {
            let v1 = self@;
            assert(v1.inodes =~= v0.inodes.push(ev));
            let len = v0.inodes.len() as int;
            assert(forall|i: int| 0 <= i < len ==> v1.inodes[i] == v0.inodes[i]);
            assert(v1.inodes[len] == ev);
            assert(inos_unique(v1.inodes)) by {
                assert(forall|i: int|
                    0 <= i < len ==> (#[trigger] v1.inodes[i]).ino != ev.ino);
            }
            assert forall|n: u64| has_ino(v0, n) implies has_ino(v1, n) && inode_at(v1, n)
                == inode_at(v0, n) by {
                let i = ino_index(v0, n);
                assert(0 <= i < len && v0.inodes[i].ino == n);
                assert(v1.inodes[i].ino == n);
                lemma_index_of_ino(v1, i);
            }
            lemma_index_of_ino(v1, len);
            assert forall|i: int| 0 <= i < v1.inodes.len() implies inode_entry_wf(
                v1,
                #[trigger] v1.inodes[i],
            ) by {
                if i < len {
                    let e = v0.inodes[i];
                    assert(inode_entry_wf(v0, e));
                    assert(has_ino(v1, e.parent));
                    assert forall|a: int| 0 <= a < e.children.len() implies link_ok(
                        v1,
                        e,
                        #[trigger] e.children[a],
                    ) by {
                        assert(link_ok(v0, e, e.children[a]));
                    }
                } else {
                    assert(v1.inodes[i] == ev);
                    assert(has_ino(v1, ev.parent));
                }
            }
            assert(table_wf(v1));
        }
        Ok(())
    }

    /// Observe one listing child under `parent`: return the existing child's
    /// number when the name is already bound (look up before insert), else
    /// allocate the next number, insert the entry and link it. An unknown or
    /// non-directory parent signals NotFound and changes nothing.
    #[verifier::rlimit(60)]
    pub fn get_or_insert_child(&mut self, parent: u64, name: &str, size: u64) -> (r: Result<
        u64,
        FsError,
    >)
        requires
            table_wf(old(self)@),
            old(self)@.next_ino < u64::MAX,
        ensures
            table_wf(final(self)@),
            final(self)@ == materialize_one(
                old(self)@,
                parent,
                (ChildItemView { name: name@, size }),
            ),
            dir_ok(old(self)@, parent) ==> r is Ok && link_lookup(
                inode_at(final(self)@, parent).children,
                name@,
            ) == Some(r->Ok_0),
            !dir_ok(old(self)@, parent) ==> r == Err::<u64, FsError>(FsError::NotFound),
    {
        let ghost v0 = self@;
        let ghost it = ChildItemView { name: name@, size };
        let pi = match self.find_index(parent) {
            Some(pi) => pi,
            None => {
                return Err(FsError::NotFound);
            },
        };
        if !(self.inodes[pi].file_attr.kind == FileKind::Directory) {
            proof {
                assert(inode_at(v0, parent).attr.kind != FileKind::Directory);
            }
            return Err(FsError::NotFound);
        }
        proof {
            assert(dir_ok(v0, parent));
            lemma_materialize_one_frame(v0, parent, it);
        }
        match self.inodes[pi].find_child(name) {
            Some(ci) => {
                proof {
                    assert(link_lookup(inode_at(v0, parent).children, it.name) == Some(ci));
                    assert(materialize_one(v0, parent, it) == v0);
                }
                Ok(ci)
            },
            None => {
                let ghost d = inode_at(v0, parent);
                let ni = self.next_ino();
                let child = Inode::new(ni, name.to_owned(), parent, size, FileKind::RegularFile);
                let ghost cv = child@;
                self.inodes.push(child);
                let p = &mut self.inodes[pi];
                p.add_child(name.to_owned(), ni);
                proof {
                    let linked = InodeView {
                        children: d.children.push(ChildLinkView { name: it.name, ino: ni }),
                        ..d
                    };
                    assert(views_of_inodes(self.inodes@) =~= v0.inodes.update(
                        pi as int,
                        linked,
                    ).push(cv)) by {
                        assert(self.inodes@.len() == v0.inodes.len() + 1);
                        assert(forall|i: int|
                            0 <= i < self.inodes@.len() ==> views_of_inodes(self.inodes@)[i]
                                == (#[trigger] self.inodes@[i])@);
                    }
                    assert(self@ =~= materialize_one(v0, parent, it));
                }
                Ok(ni)
            },
        }
    }

    /// Attribute query: the entry's complete attribute record, or NotFound
    /// for a number never materialized.
    pub fn getattr(&self, ino: u64) -> (r: Result<FileAttr, FsError>)
        requires
            table_wf(self@),
        ensures
            match r {
                Ok(a) => has_ino(self@, ino) && a == inode_at(self@, ino).attr,
                Err(e) => e == FsError::NotFound && !has_ino(self@, ino),
            },
    {
        match self.find_index(ino) {
            Some(i) => Ok(self.inodes[i].file_attr),
            None => Err(FsError::NotFound),
        }
    }

    /// Serve bytes of a regular file from its content: the requested window,
    /// clamped to the content's end. A window starting at or past the end is
    /// empty — not an error. A directory or unknown inode signals NotFound:
    /// directories never satisfy a read.
    pub fn read(&self, ino: u64, offset: u64, size: u32, content: &[u8]) -> (r: Result<
        Vec<u8>,
        FsError,
    >)
        requires
            table_wf(self@),
        ensures
            match r {
                Ok(data) => has_ino(self@, ino) && inode_at(self@, ino).attr.kind
                    == FileKind::RegularFile && data@ == read_window(content@, offset, size),
                Err(e) => e == FsError::NotFound && (!has_ino(self@, ino) || inode_at(
                    self@,
                    ino,
                ).attr.kind != FileKind::RegularFile),
            },
    {
        let i = match self.find_index(ino) {
            Some(i) => i,
            None => {
                return Err(FsError::NotFound);
            },
        };
        if !(self.inodes[i].file_attr.kind == FileKind::RegularFile) {
            return Err(FsError::NotFound);
        }
        Ok(read_slice(content, offset, size))
    }

    /// Child query: the attribute record of `parent`'s child named `name`.
    /// Finds only children a prior directory listing materialized; an unknown
    /// parent or an unobserved name signals NotFound.
    pub fn lookup(&self, parent: u64, name: &str) -> (r: Result<FileAttr, FsError>)
        requires
            table_wf(self@),
        ensures
            match r {
                Ok(a) => {
                    &&& has_ino(self@, parent)
                    &&& link_lookup(inode_at(self@, parent).children, name@) is Some
                    &&& a == inode_at(
                        self@,
                        link_lookup(inode_at(self@, parent).children, name@)->0,
                    ).attr
                },
                Err(e) => {
                    &&& e == FsError::NotFound
                    &&& (!has_ino(self@, parent) || link_lookup(
                        inode_at(self@, parent).children,
                        name@,
                    ) is None)
                },
            },
    {
        let pi = match self.find_index(parent) {
            Some(pi) => pi,
            None => {
                return Err(FsError::NotFound);
            },
        };
        match self.inodes[pi].find_child(name) {
            Some(ci) => {
                proof {
                    lemma_link_lookup_is_link(inode_at(self@, parent).children, name@);
                    let k = choose|k: int|
                        0 <= k < inode_at(self@, parent).children.len() && (#[trigger] inode_at(
                            self@,
                            parent,
                        ).children[k]).name == name@ && inode_at(self@, parent).children[k].ino
                            == link_lookup(inode_at(self@, parent).children, name@)->0;
                    assert(link_ok(self@, inode_at(self@, parent), inode_at(self@, parent).children[k]));
                }
                match self.find_index(ci) {
                    Some(cj) => Ok(self.inodes[cj].file_attr),
                    None => {
                        // unreachable: a bound name's target is always live
                        Err(FsError::InvariantViolation)
                    },
                }
            },
            None => Err(FsError::NotFound),
        }
    }

    /// Directory listing: materialize every listed child (reusing entries
    /// whose names a prior listing bound — look up before insert), then reply
    /// with the candidate ordering `.`, `..`, children in listing order,
    /// starting after the first `offset` entries. Each entry carries the
    /// cursor a caller resumes with. A non-directory or unknown inode signals
    /// NotFound and changes nothing.
    #[verifier::rlimit(60)]
    pub fn readdir(&mut self, ino: u64, offset: u64, listing: &Vec<ChildItem>) -> (r: Result<
        Vec<DirEntry>,
        FsError,
    >)
        requires
            table_wf(old(self)@),
            old(self)@.next_ino + listing@.len() <= u64::MAX,
            listing@.len() + 2 <= usize::MAX,
        ensures
            table_wf(final(self)@),
            final(self)@ == materialize_all(old(self)@, ino, views_of_children(listing@)),
            !dir_ok(old(self)@, ino) ==> r == Err::<Vec<DirEntry>, FsError>(FsError::NotFound),
            dir_ok(old(self)@, ino) ==> r is Ok && ({
                let full = full_entries(final(self)@, ino, views_of_children(listing@));
                let start = if offset as int <= full.len() {
                    offset as int
                } else {
                    full.len() as int
                };
                views_of_entries(r->Ok_0@) == full.skip(start)
            }),
    {
        let ghost v0 = self@;
        let ghost items = views_of_children(listing@);
        let pi0 = match self.find_index(ino) {
            Some(pi) => pi,
            None => {
                proof {
                    lemma_materialize_noop_not_dir(v0, ino, items);
                }
                return Err(FsError::NotFound);
            },
        };
        if !(self.inodes[pi0].file_attr.kind == FileKind::Directory) {
            proof {
                assert(inode_at(v0, ino).attr.kind != FileKind::Directory);
                lemma_materialize_noop_not_dir(v0, ino, items);
            }
            return Err(FsError::NotFound);
        }
        proof {
            assert(dir_ok(v0, ino));
            assert(items.take(0) =~= Seq::<ChildItemView>::empty());
        }
        let mut i: usize = 0;
        while i < listing.len()
            invariant
                table_wf(self@),
                table_wf(v0),
                dir_ok(v0, ino),
                dir_ok(self@, ino),
                i <= listing@.len(),
                items == views_of_children(listing@),
                items.len() == listing@.len(),
                v0.next_ino + listing@.len() <= u64::MAX,
                self@.next_ino <= v0.next_ino + i,
                self@ == materialize_all(v0, ino, items.take(i as int)),
            decreases listing@.len() - i,
        {
            let ghost prev = self@;
            let ghost it = ChildItemView { name: listing@[i as int].name@, size: listing@[i as int].size };
            proof {
                assert(items[i as int] == listing@[i as int]@);
                assert(it == items[i as int]);
                lemma_materialize_one_frame(prev, ino, it);
            }
            let _materialized = self.get_or_insert_child(
                ino,
                listing[i].name.as_str(),
                listing[i].size,
            );
            proof {
                assert(self@ == materialize_one(prev, ino, it));
                assert(items.take(i + 1).drop_last() =~= items.take(i as int));
                assert(items.take(i + 1).last() == items[i as int]);
                assert(materialize_all(v0, ino, items.take(i + 1)) == materialize_one(
                    materialize_all(v0, ino, items.take(i as int)),
                    ino,
                    items[i as int],
                ));
            }
            i += 1;
        }
        proof {
            assert(items.take(items.len() as int) =~= items);
            assert(self@ == materialize_all(v0, ino, items));
            lemma_materialize_all_frame(v0, ino, items);
        }
        let ghost full = full_entries(self@, ino, items);
        proof {
            assert(full.len() == items.len() + 2);
        }
        let total: usize = listing.len() + 2;
        let start: usize = if offset < total as u64 {
            offset as usize
        } else {
            total
        };
        let pi = match self.find_index(ino) {
            Some(pi) => pi,
            None => {
                proof {
                    assert(false);
                }
                return Err(FsError::NotFound);
            },
        };
        let parent_ino = self.inodes[pi].parent;
        proof {
            assert(parent_ino == inode_at(self@, ino).parent);
        }
        let mut out: Vec<DirEntry> = Vec::new();
        proof {
            assert(views_of_entries(out@) =~= full.subrange(start as int, start as int));
        }
        let mut j: usize = start;
        while j < total
            invariant
                table_wf(self@),
                dir_ok(self@, ino),
                start <= j <= total,
                total == listing@.len() + 2,
                items == views_of_children(listing@),
                items.len() == listing@.len(),
                full == full_entries(self@, ino, items),
                full.len() == total,
                pi < self@.inodes.len(),
                pi as int == ino_index(self@, ino),
                self@.inodes[pi as int].ino == ino,
                parent_ino == inode_at(self@, ino).parent,
                forall|k: int|
                    0 <= k < items.len() ==> link_lookup(
                        inode_at(self@, ino).children,
                        (#[trigger] items[k]).name,
                    ) is Some,
                views_of_entries(out@) == full.subrange(start as int, j as int),
            decreases total - j,
        {
            let e: DirEntry;
            if j == 0 {
                e = DirEntry { ino, offset: 1, kind: FileKind::Directory, name: ".".to_owned() };
                proof {
                    assert(e@ == full[0]);
                }
            } else if j == 1 {
                e = DirEntry {
                    ino: parent_ino,
                    offset: 2,
                    kind: FileKind::Directory,
                    name: "..".to_owned(),
                };
                proof {
                    assert(e@ == full[1]);
                }
            } else {
                let idx = j - 2;
                proof {
                    assert(items[idx as int] == listing@[idx as int]@);
                }
                let ci = match self.inodes[pi].find_child(listing[idx].name.as_str()) {
                    Some(ci) => ci,
                    None => {
                        proof {
                            assert(link_lookup(
                                inode_at(self@, ino).children,
                                items[idx as int].name,
                            ) is Some);
                            assert(false);
                        }
                        return Err(FsError::NotFound);
                    },
                };
                e = DirEntry {
                    ino: ci,
                    offset: (j as u64) + 1,
                    kind: FileKind::RegularFile,
                    name: listing[idx].name.as_str().to_owned(),
                };
                proof {
                    assert(link_lookup(inode_at(self@, ino).children, items[idx as int].name)
                        == Some(ci));
                    assert(full[j as int] == (DirEntryView {
                        ino: ci,
                        offset: (j + 1) as u64,
                        kind: FileKind::RegularFile,
                        name: items[idx as int].name,
                    }));
                    assert(e@ == full[j as int]);
                }
            }
            let ghost pre = views_of_entries(out@);
            out.push(e);
            proof {
                assert(views_of_entries(out@) =~= pre.push(e@));
                assert(full.subrange(start as int, j + 1) =~= full.subrange(
                    start as int,
                    j as int,
                ).push(full[j as int]));
            }
            j += 1;
        }
        proof {
            let sstart = if offset as int <= full.len() {
                offset as int
            } else {
                full.len() as int
            };
            assert(sstart == start as int);
            assert(full.subrange(start as int, total as int) =~= full.skip(start as int));
        }
        Ok(out)
    }
}

} // verus!
