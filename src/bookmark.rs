use vstd::prelude::*;

verus! {

/// What a bookmark is, mathematically: its name and its URL.
pub struct BookmarkModel {
    pub name: Seq<char>,
    pub url: Seq<char>,
}

/// A named URL.
pub struct Bookmark {
    pub name: String,
    pub url: String,
}

impl View for Bookmark {
    type V = BookmarkModel;

    open spec fn view(&self) -> BookmarkModel {
        BookmarkModel { name: self.name@, url: self.url@ }
    }
}

impl Bookmark {
    pub fn new(name: String, url: String) -> (r: Bookmark)
        ensures
            r@ == (BookmarkModel { name: name@, url: url@ }),
    {
        Bookmark { name, url }
    }
}

/// The abstract store: the bookmarks in their stored order.
pub open spec fn model_of(v: Seq<Bookmark>) -> Seq<BookmarkModel> {
    v.map_values(|b: Bookmark| b@)
}

/// Whether `i` is the position of the first bookmark called `name`.
pub open spec fn is_first_match(s: Seq<BookmarkModel>, name: Seq<char>, i: int) -> bool {
    &&& 0 <= i < s.len()
    &&& s[i].name == name
    &&& forall|j: int| 0 <= j < i ==> s[j].name != name
}

/// Whether some bookmark is called `name`.
pub open spec fn has_name(s: Seq<BookmarkModel>, name: Seq<char>) -> bool {
    exists|j: int| 0 <= j < s.len() && s[j].name == name
}

/// The position of the first bookmark called `name` (meaningful where there is one).
pub open spec fn first_match(s: Seq<BookmarkModel>, name: Seq<char>) -> int {
    choose|i: int| is_first_match(s, name, i)
}

/// The store after removing the first bookmark called `name`, if there is one.
pub open spec fn removed_first(s: Seq<BookmarkModel>, name: Seq<char>) -> Seq<BookmarkModel> {
    if has_name(s, name) {
        s.remove(first_match(s, name))
    } else {
        s
    }
}

/// The whole persisted state: bookmarks in insertion order.
pub struct Config {
    pub bookmarks: Vec<Bookmark>,
}

impl View for Config {
    type V = Seq<BookmarkModel>;

    open spec fn view(&self) -> Seq<BookmarkModel> {
        model_of(self.bookmarks@)
    }
}

/// There is at most one first match.
pub proof fn lemma_first_match_unique(s: Seq<BookmarkModel>, name: Seq<char>, i: int, k: int)
    requires
        is_first_match(s, name, i),
        is_first_match(s, name, k),
    ensures
        i == k,
{
}

/// Removing a name that no bookmark has leaves the store as it was.
pub proof fn lemma_remove_absent_unchanged(s: Seq<BookmarkModel>, name: Seq<char>)
    requires
        !has_name(s, name),
    ensures
        removed_first(s, name) == s,
{
}

/// Removing takes out exactly the first bookmark with the name: those
/// before it and those after it stay, in their order.
pub proof fn lemma_remove_takes_first(s: Seq<BookmarkModel>, name: Seq<char>, i: int)
    requires
        is_first_match(s, name, i),
    ensures
        removed_first(s, name) == s.take(i) + s.skip(i + 1),
        removed_first(s, name).len() == s.len() - 1,
{
    lemma_first_match_unique(s, name, i, first_match(s, name));
    assert(s.remove(i) =~= s.take(i) + s.skip(i + 1));
}

impl Config {
    /// An empty store.
    pub fn new() -> (r: Config)
        ensures
            r@ == Seq::<BookmarkModel>::empty(),
    {
        Config { bookmarks: Vec::new() }
    }

    /// The store that loading yields: what was read, or an empty store
    /// when there was nothing to read.
    pub fn loaded(found: Option<Config>) -> (r: Config)
        ensures
            found is None ==> r@ == Seq::<BookmarkModel>::empty(),
            found is Some ==> r@ == found->0@,
    {
        match found {
            Some(c) => c,
            None => Config::new(),
        }
    }

    pub fn len(&self) -> (r: usize)
        ensures
            r == self@.len(),
    {
        self.bookmarks.len()
    }

    /// Appends a bookmark at the end of the stored order.
    pub fn add(&mut self, name: String, url: String)
        ensures
            final(self)@ == old(self)@.push(BookmarkModel { name: name@, url: url@ }),
    {
        let b = Bookmark::new(name, url);
        self.bookmarks.push(b);
        assert(final(self)@ =~= old(self)@.push(BookmarkModel { name: name@, url: url@ }));
    }

    /// The position of the first bookmark called `name`.
    pub fn find(&self, name: &String) -> (r: Option<usize>)
        ensures
            r is None <==> !has_name(self@, name@),
            r matches Some(i) ==> is_first_match(self@, name@, i as int),
    {
        let mut i: usize = 0;
        while i < self.bookmarks.len()
            invariant
                i <= self.bookmarks@.len(),
                forall|j: int| 0 <= j < i ==> self@[j].name != name@,
            decreases self.bookmarks@.len() - i,
        {
            if self.bookmarks[i].name == *name {
                assert(self@[i as int].name == name@);
                return Some(i);
            }
            i = i + 1;
        }
        None
    }

    /// The URL of the first bookmark called `name`.
    pub fn url_of(&self, name: &String) -> (r: Option<String>)
        ensures
            r is None <==> !has_name(self@, name@),
            r matches Some(u) ==> u@ == self@[first_match(self@, name@)].url,
    {
        match self.find(name) {
            Some(i) => {
                let u = self.bookmarks[i].url.clone();
                assert(u@ == self@[i as int].url);
                proof {
                    lemma_first_match_unique(self@, name@, i as int, first_match(self@, name@));
                }
                Some(u)
            },
            None => None,
        }
    }

    /// Removes the first bookmark called `name`, shifting the later ones;
    /// tells whether one was removed.
    pub fn remove(&mut self, name: &String) -> (r: bool)
        ensures
            r == has_name(old(self)@, name@),
            final(self)@ == removed_first(old(self)@, name@),
    {
        match self.find(name) {
            Some(i) => {
                let _ = self.bookmarks.remove(i);
                proof {
                    lemma_first_match_unique(old(self)@, name@, i as int, first_match(old(self)@, name@));
                    assert(final(self)@ =~= old(self)@.remove(i as int));
                }
                true
            }
            None => false,
        }
    }
}

} // verus!
