//! The in-memory bookmark collection: an ordered sequence of alias/path
//! pairs with first-match lookup and mutation operations.

use vstd::prelude::*;

verus! {

/// One bookmark: a user-chosen alias for an absolute directory path.
/// Neither field is ever empty; aliases need not be unique.
#[derive(Debug)]
pub struct Bookmark {
    pub alias: String,
    pub path: String,
}

impl View for Bookmark {
    type V = (Seq<char>, Seq<char>);

    open spec fn view(&self) -> (Seq<char>, Seq<char>) {
        (self.alias@, self.path@)
    }
}

/// An ordered collection of bookmarks. Insertion order is preserved: it
/// determines both display order and which of several equal aliases an
/// operation acts on (the earliest).
#[derive(Debug)]
pub struct BookmarkCollection {
    pub bookmarks: Vec<Bookmark>,
}

impl View for BookmarkCollection {
    type V = Seq<(Seq<char>, Seq<char>)>;

    open spec fn view(&self) -> Seq<(Seq<char>, Seq<char>)> {
        self.bookmarks@.map_values(|b: Bookmark| b@)
    }
}

/// Both fields of every entry are non-empty.
pub open spec fn wf(bs: Seq<(Seq<char>, Seq<char>)>) -> bool {
    forall|i: int| 0 <= i < bs.len() ==> bs[i].0.len() > 0 && bs[i].1.len() > 0
}

/// Some entry carries the given alias.
pub open spec fn has_alias(bs: Seq<(Seq<char>, Seq<char>)>, alias: Seq<char>) -> bool {
    exists|i: int| 0 <= i < bs.len() && bs[i].0 == alias
}

/// `i` is the position of the earliest entry whose alias is `alias`.
pub open spec fn is_first_match(bs: Seq<(Seq<char>, Seq<char>)>, alias: Seq<char>, i: int) -> bool {
    &&& 0 <= i < bs.len()
    &&& bs[i].0 == alias
    &&& forall|j: int| 0 <= j < i ==> bs[j].0 != alias
}

impl BookmarkCollection {
    /// A fresh collection with no bookmarks.
    pub fn new() -> (c: BookmarkCollection)
        ensures
            c@ == Seq::<(Seq<char>, Seq<char>)>::empty(),
    {
        let c = BookmarkCollection { bookmarks: Vec::new() };
        proof {
            assert(c@ =~= Seq::<(Seq<char>, Seq<char>)>::empty());
        }
        c
    }

    /// How many bookmarks the collection holds.
    pub fn len(&self) -> (n: usize)
        ensures
            n == self@.len(),
    {
        self.bookmarks.len()
    }

    /// Appends a new bookmark at the end, unconditionally: a duplicate
    /// alias simply coexists with the earlier one.
    pub fn add(&mut self, alias: String, path: String)
        requires
            alias@.len() > 0,
            path@.len() > 0,
        ensures
            final(self)@ == old(self)@.push((alias@, path@)),
            wf(old(self)@) ==> wf(final(self)@),
    {
        let ghost a = alias@;
        let ghost p = path@;
        self.bookmarks.push(Bookmark { alias, path });
        proof {
            assert(self@ =~= old(self)@.push((a, p)));
        }
    }

    /// Position of the earliest bookmark whose alias equals `alias`, if any.
    pub fn find_by_alias(&self, alias: &String) -> (r: Option<usize>)
        ensures
            r matches Some(i) ==> is_first_match(self@, alias@, i as int),
            r is Some == has_alias(self@, alias@),
    {
        let n: usize = self.bookmarks.len();
        let mut j: usize = 0;
        while j < n
            invariant
                n == self.bookmarks@.len(),
                j <= n,
                forall|k: int| 0 <= k < j ==> self@[k].0 != alias@,
            decreases n - j,
        {
            if self.bookmarks[j].alias == *alias {
                proof {
                    assert(self@[j as int].0 == alias@);
                }
                return Some(j);
            }
            j += 1;
        }
        None
    }

    /// Deletes the earliest bookmark matching `alias`, keeping the relative
    /// order of the rest; reports whether anything was removed. When no
    /// bookmark matches, the collection is left unchanged.
    pub fn remove(&mut self, alias: &String) -> (removed: bool)
        ensures
            removed == has_alias(old(self)@, alias@),
            forall|i: int|
                is_first_match(old(self)@, alias@, i) ==> final(self)@ == old(self)@.remove(i),
            !has_alias(old(self)@, alias@) ==> final(self)@ == old(self)@,
            wf(old(self)@) ==> wf(final(self)@),
    {
        match self.find_by_alias(alias) {
            Some(i) => {
                self.bookmarks.remove(i);
                proof {
                    assert(self@ =~= old(self)@.remove(i as int));
                    assert(forall|k: int|
                        is_first_match(old(self)@, alias@, k) ==> k == i as int);
                }
                true
            }
            None => {
                proof {
                    assert(self@ =~= old(self)@);
                }
                false
            }
        }
    }

    /// Replaces the alias of the earliest bookmark matching `old_alias` by
    /// `new_alias`, in place; reports whether anything was renamed. When no
    /// bookmark matches, the collection is left unchanged.
    pub fn rename(&mut self, old_alias: &String, new_alias: &String) -> (renamed: bool)
        requires
            new_alias@.len() > 0,
        ensures
            renamed == has_alias(old(self)@, old_alias@),
            forall|i: int|
                is_first_match(old(self)@, old_alias@, i) ==> final(self)@ == old(self)@.update(
                    i,
                    (new_alias@, old(self)@[i].1),
                ),
            !has_alias(old(self)@, old_alias@) ==> final(self)@ == old(self)@,
            wf(old(self)@) ==> wf(final(self)@),
    {
        match self.find_by_alias(old_alias) {
            Some(i) => {
                let b = self.bookmarks.remove(i);
                self.bookmarks.insert(i, Bookmark { alias: new_alias.clone(), path: b.path });
                proof {
                    assert(self@ =~= old(self)@.update(i as int, (new_alias@, old(self)@[i as int].1)));
                    assert(forall|k: int|
                        is_first_match(old(self)@, old_alias@, k) ==> k == i as int);
                }
                true
            }
            None => {
                proof {
                    assert(self@ =~= old(self)@);
                }
                false
            }
        }
    }

    /// The path of the earliest bookmark matching `alias`, if any: the
    /// resolution step behind jumping to a bookmarked directory.
    pub fn jump(&self, alias: &String) -> (r: Option<String>)
        ensures
            r is Some == has_alias(self@, alias@),
            forall|i: int|
                is_first_match(self@, alias@, i) ==> (r matches Some(p) && p@ == self@[i].1),
    {
        match self.find_by_alias(alias) {
            Some(i) => Some(self.bookmarks[i].path.clone()),
            None => None,
        }
    }
}

/// One line of a listing: a 1-based display position with the bookmark's
/// fields.
pub struct ListEntry {
    pub position: usize,
    pub alias: String,
    pub path: String,
}

/// The outcome of listing a collection: an explicit empty indicator, or
/// the entries in insertion order.
pub enum Listing {
    NoBookmarks,
    Entries(Vec<ListEntry>),
}

impl BookmarkCollection {
    /// The bookmarks in order, each paired with its 1-based display
    /// position; an empty collection yields the explicit empty indicator
    /// rather than a zero-length listing.
    pub fn list(&self) -> (r: Listing)
        ensures
            (self@.len() == 0) <==> (r matches Listing::NoBookmarks),
            r matches Listing::Entries(v) ==> {
                &&& v@.len() == self@.len()
                &&& forall|i: int|
                    0 <= i < v@.len() ==> v@[i].position as int == i + 1 && v@[i].alias@
                        == self@[i].0 && v@[i].path@ == self@[i].1
            },
    {
        let n: usize = self.bookmarks.len();
        if n == 0 {
            return Listing::NoBookmarks;
        }
        let mut v: Vec<ListEntry> = Vec::new();
        let mut j: usize = 0;
        while j < n
            invariant
                n == self.bookmarks@.len(),
                j <= n,
                v@.len() == j,
                forall|i: int|
                    0 <= i < j ==> v@[i].position as int == i + 1 && v@[i].alias@ == self@[i].0
                        && v@[i].path@ == self@[i].1,
            decreases n - j,
        {
            v.push(ListEntry {
                position: j + 1,
                alias: self.bookmarks[j].alias.clone(),
                path: self.bookmarks[j].path.clone(),
            });
            j += 1;
        }
        Listing::Entries(v)
    }
}

} // verus!
