//! Listing enumeration: paging through the backend's "list objects under
//! prefix" results and yielding only the direct children of the prefix.
//!
//! A key qualifies as a direct child when it extends the prefix and the
//! remainder (the child's name) is nonempty and holds no path separator;
//! the prefix key itself and nested grandchildren are excluded.

use vstd::prelude::*;
use vstd::string::StrSliceExecFns;

verus! {

/// One object as a backend listing page reports it: full key and byte size.
pub struct ObjectItem {
    pub key: String,
    pub size: u64,
}

/// The mathematical content of an [`ObjectItem`].
#[verifier::ext_equal]
pub struct ObjectItemView {
    pub key: Seq<char>,
    pub size: u64,
}

impl View for ObjectItem {
    type V = ObjectItemView;

    open spec fn view(&self) -> ObjectItemView {
        ObjectItemView { key: self.key@, size: self.size }
    }
}

/// One direct child the enumerator yields: the key with the prefix stripped,
/// and the object's byte size.
pub struct ChildItem {
    pub name: String,
    pub size: u64,
}

/// The mathematical content of a [`ChildItem`].
#[verifier::ext_equal]
pub struct ChildItemView {
    pub name: Seq<char>,
    pub size: u64,
}

impl View for ChildItem {
    type V = ChildItemView;

    open spec fn view(&self) -> ChildItemView {
        ChildItemView { name: self.name@, size: self.size }
    }
}

pub open spec fn views_of_items(items: Seq<ObjectItem>) -> Seq<ObjectItemView> {
    items.map_values(|it: ObjectItem| it@)
}

pub open spec fn views_of_children(items: Seq<ChildItem>) -> Seq<ChildItemView> {
    items.map_values(|it: ChildItem| it@)
}

/// The key begins with the prefix.
pub open spec fn key_has_prefix(prefix: Seq<char>, key: Seq<char>) -> bool {
    prefix.len() <= key.len() && key.subrange(0, prefix.len() as int) == prefix
}

/// Some character of `s` is the path separator.
pub open spec fn has_separator(s: Seq<char>) -> bool {
    exists|i: int| 0 <= i < s.len() && s[i] == '/'
}

/// The key with the prefix stripped.
pub open spec fn stripped(prefix: Seq<char>, key: Seq<char>) -> Seq<char> {
    key.skip(prefix.len() as int)
}

/// The key denotes a direct child of the prefix: it extends the prefix and the
/// remainder is nonempty with no separator, so the prefix key itself and
/// nested grandchildren never qualify.
pub open spec fn is_direct_child_key(prefix: Seq<char>, key: Seq<char>) -> bool {
    &&& key_has_prefix(prefix, key)
    &&& stripped(prefix, key).len() > 0
    &&& !has_separator(stripped(prefix, key))
}

/// The direct children among `items`, in listing order: one child per
/// qualifying key, named by the stripped remainder.
pub open spec fn filter_children(prefix: Seq<char>, items: Seq<ObjectItemView>) -> Seq<ChildItemView>
    decreases items.len(),
{
    if items.len() == 0 {
        Seq::empty()
    } else {
        let rest = filter_children(prefix, items.drop_last());
        let it = items.last();
        if is_direct_child_key(prefix, it.key) {
            rest.push(ChildItemView { name: stripped(prefix, it.key), size: it.size })
        } else {
            rest
        }
    }
}

/// Decide whether `key` is a direct child of `prefix`; on success return the
/// child's name (the stripped remainder).
pub fn direct_child_name(prefix: &str, key: &str) -> (r: Option<String>)
    ensures
        match r {
            Some(name) => is_direct_child_key(prefix@, key@) && name@ == stripped(prefix@, key@),
            None => !is_direct_child_key(prefix@, key@),
        },
{
    let plen = prefix.unicode_len();
    let klen = key.unicode_len();
    if klen <= plen {
        // Too short to extend the prefix: either the prefix does not fit, or
        // the remainder would be empty (the prefix key itself).
        return None;
    }
    let mut i: usize = 0;
    while i < plen
        invariant
            plen == prefix@.len(),
            klen == key@.len(),
            plen < klen,
            i <= plen,
            forall|j: int| 0 <= j < i ==> key@[j] == prefix@[j],
        decreases plen - i,
    {
        if key.get_char(i) != prefix.get_char(i) {
            proof {
                let kp = key@.subrange(0, plen as int);
                assert(kp[i as int] == key@[i as int]);
                assert(kp != prefix@) by {
                    if kp == prefix@ {
                        assert(kp[i as int] == prefix@[i as int]);
                    }
                }
            }
            return None;
        }
        i += 1;
    }
    proof {
        assert(key@.subrange(0, plen as int) =~= prefix@);
    }
    let mut j: usize = plen;
    while j < klen
        invariant
            plen == prefix@.len(),
            klen == key@.len(),
            plen <= j <= klen,
            forall|t: int| plen <= t < j ==> key@[t] != '/',
        decreases klen - j,
    {
        if key.get_char(j) == '/' {
            proof {
                assert(stripped(prefix@, key@)[j - plen] == '/');
            }
            return None;
        }
        j += 1;
    }
    let rest = key.substring_char(plen, klen);
    proof {
        assert(!has_separator(stripped(prefix@, key@))) by {
            if has_separator(stripped(prefix@, key@)) {
                let t = choose|t: int|
                    0 <= t < stripped(prefix@, key@).len() && stripped(prefix@, key@)[t] == '/';
                assert(key@[plen + t] == '/');
            }
        }
    }
    Some(rest.to_owned())
}

/// Extract the direct children of `prefix` from one listing page.
pub fn filter_page(prefix: &str, items: &Vec<ObjectItem>) -> (r: Vec<ChildItem>)
    ensures
        views_of_children(r@) == filter_children(prefix@, views_of_items(items@)),
{
    let mut out: Vec<ChildItem> = Vec::new();
    let mut i: usize = 0;
    while i < items.len()
        invariant
            i <= items@.len(),
            views_of_children(out@) == filter_children(prefix@, views_of_items(items@).take(i as int)),
        decreases items@.len() - i,
    {
        let ghost vs = views_of_items(items@);
        let ghost pre = views_of_children(out@);
        match direct_child_name(prefix, items[i].key.as_str()) {
            Some(name) => {
                out.push(ChildItem { name, size: items[i].size });
            },
            None => {},
        }
        proof {
            assert(vs.take(i + 1).drop_last() =~= vs.take(i as int));
            assert(vs.take(i + 1).last() == vs[i as int]);
            assert(vs[i as int] == items@[i as int]@);
            if is_direct_child_key(prefix@, items@[i as int]@.key) {
                assert(views_of_children(out@) =~= pre.push(
                    ChildItemView {
                        name: stripped(prefix@, items@[i as int]@.key),
                        size: items@[i as int]@.size,
                    },
                ));
            } else {
                assert(views_of_children(out@) =~= pre);
            }
        }
        i += 1;
    }
    proof {
        assert(views_of_items(items@).take(items@.len() as int) =~= views_of_items(items@));
    }
    out
}

/// Filtering distributes over concatenation: the children extracted from a
/// listing do not depend on where a boundary falls.
pub proof fn lemma_filter_concat(prefix: Seq<char>, a: Seq<ObjectItemView>, b: Seq<ObjectItemView>)
    ensures
        filter_children(prefix, a + b) == filter_children(prefix, a) + filter_children(prefix, b),
    decreases b.len(),
{
    if b.len() == 0 {
        assert(a + b =~= a);
        assert(filter_children(prefix, b) == Seq::<ChildItemView>::empty());
        assert(filter_children(prefix, a) + filter_children(prefix, b) =~= filter_children(
            prefix,
            a,
        ));
    } else {
        lemma_filter_concat(prefix, a, b.drop_last());
        assert((a + b).drop_last() =~= a + b.drop_last());
        assert((a + b).last() == b.last());
        if is_direct_child_key(prefix, b.last().key) {
            let x = ChildItemView { name: stripped(prefix, b.last().key), size: b.last().size };
            assert(filter_children(prefix, a + b) == filter_children(prefix, a + b.drop_last()).push(
                x,
            ));
            assert(filter_children(prefix, b) == filter_children(prefix, b.drop_last()).push(x));
            assert((filter_children(prefix, a) + filter_children(prefix, b.drop_last())).push(x)
                =~= filter_children(prefix, a) + filter_children(prefix, b.drop_last()).push(x));
        }
    }
}

/// Pagination round-trip: the children of a concatenation of pages are the
/// per-page children concatenated, so an enumeration that pages through the
/// listing yields exactly the children of the whole, each exactly once,
/// regardless of page boundaries.
pub proof fn lemma_filter_flatten(prefix: Seq<char>, pages: Seq<Seq<ObjectItemView>>)
    ensures
        filter_children(prefix, pages.flatten()) == pages.map_values(
            |p: Seq<ObjectItemView>| filter_children(prefix, p),
        ).flatten(),
    decreases pages.len(),
{
    let f = |p: Seq<ObjectItemView>| filter_children(prefix, p);
    if pages.len() == 0 {
        assert(pages.flatten() == Seq::<ObjectItemView>::empty());
        assert(pages.map_values(f).flatten() == Seq::<ChildItemView>::empty());
    } else {
        lemma_filter_flatten(prefix, pages.drop_first());
        assert(pages.flatten() == pages.first() + pages.drop_first().flatten());
        lemma_filter_concat(prefix, pages.first(), pages.drop_first().flatten());
        assert(pages.map_values(f).drop_first() =~= pages.drop_first().map_values(f));
        assert(pages.map_values(f).flatten() == pages.map_values(f).first() + pages.map_values(
            f,
        ).drop_first().flatten());
        assert(pages.map_values(f).first() == f(pages.first()));
    }
}

/// Nested-key exclusion: every child the filter yields has a nonempty name
/// holding no separator, so a nested key such as `a/b` under the empty prefix
/// never appears as a direct child.
pub proof fn lemma_children_are_direct(prefix: Seq<char>, items: Seq<ObjectItemView>)
    ensures
        forall|i: int| 0 <= i < filter_children(prefix, items).len() ==> {
            let c = #[trigger] filter_children(prefix, items)[i];
            c.name.len() > 0 && !has_separator(c.name)
        },
    decreases items.len(),
{
    if items.len() > 0 {
        lemma_children_are_direct(prefix, items.drop_last());
        let rest = filter_children(prefix, items.drop_last());
        let whole = filter_children(prefix, items);
        assert forall|i: int| 0 <= i < whole.len() implies {
            let c = #[trigger] whole[i];
            c.name.len() > 0 && !has_separator(c.name)
        } by {
            if i < rest.len() {
                assert(whole[i] == rest[i]);
            }
        }
    }
}

/// The enumerator's cross-page accumulator. Pages are handed in one at a
/// time; the accumulated children are always exactly the direct children of
/// everything seen so far, independent of how the backend split the pages.
pub struct Enumeration {
    pub prefix: String,
    pub children: Vec<ChildItem>,
    pub pages: Ghost<Seq<Seq<ObjectItemView>>>,
}

impl Enumeration {
    /// The accumulated children are the filter of all pages seen, flattened.
    pub open spec fn wf(self) -> bool {
        views_of_children(self.children@) == filter_children(self.prefix@, self.pages@.flatten())
    }

    /// Begin a fresh enumeration under `prefix`; no cross-call state is kept,
    /// so a later directory listing starts over with a new value.
    pub fn new(prefix: String) -> (r: Enumeration)
        ensures
            r.wf(),
            r.prefix@ == prefix@,
            r.pages@ == Seq::<Seq<ObjectItemView>>::empty(),
            r.children@.len() == 0,
    {
        let e = Enumeration { prefix, children: Vec::new(), pages: Ghost(Seq::empty()) };
        proof {
            assert(e.pages@.flatten() == Seq::<ObjectItemView>::empty());
            assert(views_of_children(e.children@) =~= Seq::<ChildItemView>::empty());
            assert(filter_children(e.prefix@, e.pages@.flatten()) == Seq::<
                ChildItemView,
            >::empty());
        }
        e
    }

    /// Fold one backend page into the accumulator.
    pub fn push_page(&mut self, items: &Vec<ObjectItem>)
        requires
            old(self).wf(),
        ensures
            final(self).wf(),
            final(self).prefix == old(self).prefix,
            final(self).pages@ == old(self).pages@.push(views_of_items(items@)),
            views_of_children(final(self).children@) == views_of_children(old(self).children@)
                + filter_children(old(self).prefix@, views_of_items(items@)),
    {
        let ghost old_pages = self.pages@;
        let ghost old_children = views_of_children(self.children@);
        let mut page = filter_page(self.prefix.as_str(), items);
        let ghost page_views = views_of_children(page@);
        self.children.append(&mut page);
        proof {
            self.pages@ = old_pages.push(views_of_items(items@));
            old_pages.lemma_flatten_push(views_of_items(items@));
            lemma_filter_concat(self.prefix@, old_pages.flatten(), views_of_items(items@));
            assert(views_of_children(self.children@) =~= old_children + page_views);
        }
    }
}

} // verus!
