//! The filesystem's identity records: one [`Inode`] per live entry, each
//! carrying its number, its parent, its name (the last path segment) and a
//! complete attribute record; directories also carry their child links.

use crate::attr::{attr_spec, FileAttr, FileKind};
use vstd::prelude::*;
use vstd::string::StrSliceExecFns;

verus! {

/// A (name, inode number) link from a directory to one child.
pub struct ChildLink {
    pub name: String,
    pub ino: u64,
}

/// The mathematical content of a [`ChildLink`].
#[verifier::ext_equal]
pub struct ChildLinkView {
    pub name: Seq<char>,
    pub ino: u64,
}

impl View for ChildLink {
    type V = ChildLinkView;

    open spec fn view(&self) -> ChildLinkView {
        ChildLinkView { name: self.name@, ino: self.ino }
    }
}

pub open spec fn views_of_links(links: Seq<ChildLink>) -> Seq<ChildLinkView> {
    links.map_values(|l: ChildLink| l@)
}

/// One filesystem identity record.
pub struct Inode {
    pub ino: u64,
    pub parent: u64,
    pub name: String,
    pub children: Vec<ChildLink>,
    pub file_attr: FileAttr,
}

/// The mathematical content of an [`Inode`].
#[verifier::ext_equal]
pub struct InodeView {
    pub ino: u64,
    pub parent: u64,
    pub name: Seq<char>,
    pub children: Seq<ChildLinkView>,
    pub attr: FileAttr,
}

impl View for Inode {
    type V = InodeView;

    open spec fn view(&self) -> InodeView {
        InodeView {
            ino: self.ino,
            parent: self.parent,
            name: self.name@,
            children: views_of_links(self.children@),
            attr: self.file_attr,
        }
    }
}

/// The number bound to `name` among a directory's child links: the first
/// match scanning from the front (under the table's invariant, names are
/// unique, so the first match is the only one).
pub open spec fn link_lookup(children: Seq<ChildLinkView>, name: Seq<char>) -> Option<u64>
    decreases children.len(),
{
    if children.len() == 0 {
        None
    } else if children[0].name == name {
        Some(children[0].ino)
    } else {
        link_lookup(children.drop_first(), name)
    }
}

/// A bound name is witnessed by a link with that name and number.
pub proof fn lemma_link_lookup_is_link(children: Seq<ChildLinkView>, name: Seq<char>)
    requires
        link_lookup(children, name) is Some,
    ensures
        exists|i: int|
            0 <= i < children.len() && (#[trigger] children[i]).name == name && children[i].ino
                == link_lookup(children, name)->0,
    decreases children.len(),
{
    if children.len() > 0 && children[0].name != name {
        lemma_link_lookup_is_link(children.drop_first(), name);
        let i = choose|i: int|
            0 <= i < children.drop_first().len() && (#[trigger] children.drop_first()[i]).name
                == name && children.drop_first()[i].ino == link_lookup(
                children.drop_first(),
                name,
            )->0;
        assert(children[i + 1] == children.drop_first()[i]);
    }
}

/// An unbound name is held by no link at all.
pub proof fn lemma_link_lookup_absent(children: Seq<ChildLinkView>, name: Seq<char>)
    requires
        link_lookup(children, name) is None,
    ensures
        forall|i: int| 0 <= i < children.len() ==> (#[trigger] children[i]).name != name,
    decreases children.len(),
{
    if children.len() > 0 {
        lemma_link_lookup_absent(children.drop_first(), name);
        assert forall|i: int| 0 <= i < children.len() implies (#[trigger] children[i]).name
            != name by {
            if i > 0 {
                assert(children[i] == children.drop_first()[i - 1]);
            }
        }
    }
}

/// Appending a link binds its name exactly when the name was unbound, and
/// disturbs no existing binding.
pub proof fn lemma_link_lookup_push(children: Seq<ChildLinkView>, l: ChildLinkView, name: Seq<char>)
    ensures
        link_lookup(children.push(l), name) == if link_lookup(children, name) is Some {
            link_lookup(children, name)
        } else if l.name == name {
            Some(l.ino)
        } else {
            None::<u64>
        },
    decreases children.len(),
{
    if children.len() == 0 {
        assert(children.push(l)[0] == l);
        assert(children.push(l).drop_first() =~= Seq::<ChildLinkView>::empty());
        assert(link_lookup(Seq::<ChildLinkView>::empty(), name) is None);
        if l.name == name {
            assert(link_lookup(children.push(l), name) == Some(l.ino));
        } else {
            assert(link_lookup(children.push(l), name) is None);
        }
    } else {
        lemma_link_lookup_push(children.drop_first(), l, name);
        assert(children.push(l)[0] == children[0]);
        assert(children.push(l).drop_first() =~= children.drop_first().push(l));
        if children[0].name == name {
            assert(link_lookup(children.push(l), name) == Some(children[0].ino));
            assert(link_lookup(children, name) == Some(children[0].ino));
        } else {
            assert(link_lookup(children.push(l), name) == link_lookup(
                children.drop_first().push(l),
                name,
            ));
            assert(link_lookup(children, name) == link_lookup(children.drop_first(), name));
        }
    }
}

/// Character-for-character string equality, decided without trusting any
/// derived implementation.
pub fn str_eq(a: &str, b: &str) -> (r: bool)
    ensures
        r == (a@ == b@),
{
    let alen = a.unicode_len();
    let blen = b.unicode_len();
    if alen != blen {
        return false;
    }
    let mut i: usize = 0;
    while i < alen
        invariant
            alen == a@.len(),
            blen == b@.len(),
            alen == blen,
            i <= alen,
            forall|j: int| 0 <= j < i ==> a@[j] == b@[j],
        decreases alen - i,
    {
        if a.get_char(i) != b.get_char(i) {
            return false;
        }
        i += 1;
    }
    proof {
        assert(a@ =~= b@);
    }
    true
}

impl Inode {
    /// Synthesize the record for a newly observed object: no children yet,
    /// attributes built from the object's size and the target kind.
    pub fn new(ino: u64, name: String, parent: u64, size: u64, kind: FileKind) -> (r: Inode)
        ensures
            r@ == (InodeView {
                ino,
                parent,
                name: name@,
                children: Seq::<ChildLinkView>::empty(),
                attr: attr_spec(ino, size, kind),
            }),
    {
        let r = Inode {
            ino,
            parent,
            name,
            children: Vec::new(),
            file_attr: crate::attr::make_attr(ino, size, kind),
        };
        proof {
            assert(views_of_links(r.children@) =~= Seq::<ChildLinkView>::empty());
        }
        r
    }

    /// Record a child under this directory. The caller has looked the name up
    /// first: only unbound names are added, so no name is ever bound twice.
    pub fn add_child(&mut self, child_name: String, child_ino: u64)
        requires
            link_lookup(old(self)@.children, child_name@) is None,
        ensures
            final(self)@ == (InodeView {
                children: old(self)@.children.push(
                    ChildLinkView { name: child_name@, ino: child_ino },
                ),
                ..old(self)@
            }),
    {
        let ghost before = self@.children;
        let link = ChildLink { name: child_name, ino: child_ino };
        let ghost lv = link@;
        self.children.push(link);
        proof {
            assert(views_of_links(self.children@) =~= before.push(lv));
        }
    }

    /// The inode number this directory binds `name` to, if any.
    pub fn find_child(&self, name: &str) -> (r: Option<u64>)
        ensures
            r == link_lookup(self@.children, name@),
    {
        let ghost cv = self@.children;
        proof {
            assert(cv.skip(0) =~= cv);
        }
        let mut i: usize = 0;
        while i < self.children.len()
            invariant
                cv == views_of_links(self.children@),
                i <= cv.len(),
                link_lookup(cv.skip(i as int), name@) == link_lookup(cv, name@),
            decreases cv.len() - i,
        {
            proof {
                assert(cv.skip(i as int)[0] == cv[i as int]);
                assert(cv.skip(i as int).drop_first() =~= cv.skip(i + 1));
            }
            if str_eq(self.children[i].name.as_str(), name) {
                return Some(self.children[i].ino);
            }
            i += 1;
        }
        proof {
            assert(cv.skip(cv.len() as int) =~= Seq::<ChildLinkView>::empty());
        }
        None
    }
}

} // verus!
