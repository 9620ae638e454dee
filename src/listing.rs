use vstd::prelude::*;
use vstd::relations::{sorted_by, total_ordering};
use vstd::seq_lib::{lemma_sorted_unique, to_multiset_build, to_multiset_insert};
use vstd::std_specs::iter::IteratorSpec;
use crate::bookmark::{BookmarkModel, Config};

verus! {

broadcast use vstd::string::axiom_spec_iter, vstd::string::next_postcondition;

/// Lexicographic order on strings, character by character by code point;
/// a prefix comes first.
pub open spec fn lex_le(a: Seq<char>, b: Seq<char>) -> bool
    decreases a.len(),
{
    if a.len() == 0 {
        true
    } else if b.len() == 0 {
        false
    } else if a[0] != b[0] {
        a[0] < b[0]
    } else {
        lex_le(a.drop_first(), b.drop_first())
    }
}

pub open spec fn lex_order() -> spec_fn(Seq<char>, Seq<char>) -> bool {
    |a: Seq<char>, b: Seq<char>| lex_le(a, b)
}

/// The names of the bookmarks, in stored order.
pub open spec fn names_of(s: Seq<BookmarkModel>) -> Seq<Seq<char>> {
    s.map_values(|b: BookmarkModel| b.name)
}

/// What listing shows: the names sorted lexicographically.
pub open spec fn listing(s: Seq<BookmarkModel>) -> Seq<Seq<char>> {
    names_of(s).sort_by(lex_order())
}

pub open spec fn strings_of(v: Seq<String>) -> Seq<Seq<char>> {
    v.map_values(|t: String| t@)
}

proof fn lemma_lex_reflexive(a: Seq<char>)
    ensures
        lex_le(a, a),
    decreases a.len(),
{
    if a.len() > 0 {
        lemma_lex_reflexive(a.drop_first());
    }
}

proof fn lemma_lex_antisymmetric(a: Seq<char>, b: Seq<char>)
    requires
        lex_le(a, b),
        lex_le(b, a),
    ensures
        a == b,
    decreases a.len(),
{
    if a.len() > 0 && b.len() > 0 {
        lemma_lex_antisymmetric(a.drop_first(), b.drop_first());
        assert(a =~= seq![a[0]] + a.drop_first());
        assert(b =~= seq![b[0]] + b.drop_first());
    } else {
        assert(a =~= b);
    }
}

proof fn lemma_lex_transitive(a: Seq<char>, b: Seq<char>, c: Seq<char>)
    requires
        lex_le(a, b),
        lex_le(b, c),
    ensures
        lex_le(a, c),
    decreases a.len(),
{
    if a.len() > 0 && b.len() > 0 && c.len() > 0 && a[0] == b[0] && b[0] == c[0] {
        lemma_lex_transitive(a.drop_first(), b.drop_first(), c.drop_first());
    }
}

proof fn lemma_lex_connected(a: Seq<char>, b: Seq<char>)
    ensures
        lex_le(a, b) || lex_le(b, a),
    decreases a.len(),
{
    if a.len() > 0 && b.len() > 0 {
        lemma_lex_connected(a.drop_first(), b.drop_first());
    }
}

/// Lexicographic order is a total order.
pub proof fn lemma_lex_total()
    ensures
        total_ordering(lex_order()),
{
    assert forall|a: Seq<char>| #[trigger] lex_order()(a, a) by {
        lemma_lex_reflexive(a);
    }
    assert forall|a: Seq<char>, b: Seq<char>|
        #[trigger] lex_order()(a, b) && #[trigger] lex_order()(b, a) implies a == b by {
        lemma_lex_antisymmetric(a, b);
    }
    assert forall|a: Seq<char>, b: Seq<char>, c: Seq<char>|
        #[trigger] lex_order()(a, b) && #[trigger] lex_order()(b, c) implies lex_order()(a, c) by {
        lemma_lex_transitive(a, b, c);
    }
    assert forall|a: Seq<char>, b: Seq<char>|
        #[trigger] lex_order()(a, b) || #[trigger] lex_order()(b, a) by {
        lemma_lex_connected(a, b);
    }
}

/// The characters of `s`, in order.
fn chars_of(s: &String) -> (r: Vec<char>)
    ensures
        r@ == s@,
{
    let mut it = s.as_str().chars();
    let mut r: Vec<char> = Vec::new();
    loop
        invariant
            r@ + it.remaining() == s@,
            it.decrease() is Some,
        ensures
            r@ == s@,
        decreases it.decrease()->0,
    {
        match it.next() {
            Some(c) => {
                r.push(c);
            },
            None => {
                assert(r@ =~= s@);
                break ;
            },
        }
    }
    r
}

/// Whether `a` comes before `b` or equals it, lexicographically.
pub fn lex_le_exec(a: &String, b: &String) -> (r: bool)
    ensures
        r == lex_le(a@, b@),
{
    let x = chars_of(a);
    let y = chars_of(b);
    let mut i: usize = 0;
    assert(x@.skip(0) =~= x@ && y@.skip(0) =~= y@);
    while i < x.len() && i < y.len() && x[i] == y[i]
        invariant
            i <= x@.len(),
            i <= y@.len(),
            lex_le(x@, y@) == lex_le(x@.skip(i as int), y@.skip(i as int)),
        decreases x@.len() - i,
    {
        assert(x@.skip(i as int).drop_first() =~= x@.skip(i + 1));
        assert(y@.skip(i as int).drop_first() =~= y@.skip(i + 1));
        i = i + 1;
    }
    if i == x.len() {
        true
    } else if i == y.len() {
        false
    } else {
        x[i] < y[i]
    }
}

/// Listing shows every name of the store, as often as it is stored, in
/// lexicographic order.
pub proof fn lemma_listing_sorted_names(s: Seq<BookmarkModel>)
    ensures
        sorted_by(listing(s), lex_order()),
        listing(s).to_multiset() == names_of(s).to_multiset(),
{
    lemma_lex_total();
    names_of(s).lemma_sort_by_ensures(lex_order());
}

/// Listing depends on which names are stored, not on the order in which
/// they were added.
pub proof fn lemma_listing_ignores_order(s1: Seq<BookmarkModel>, s2: Seq<BookmarkModel>)
    requires
        names_of(s1).to_multiset() == names_of(s2).to_multiset(),
    ensures
        listing(s1) == listing(s2),
{
    lemma_lex_total();
    lemma_listing_sorted_names(s1);
    lemma_listing_sorted_names(s2);
    lemma_sorted_unique(listing(s1), listing(s2), lex_order());
}

/// After adding a bookmark, listing shows its name besides all the names
/// shown before.
pub proof fn lemma_listing_after_add(s: Seq<BookmarkModel>, b: BookmarkModel)
    ensures
        listing(s.push(b)).to_multiset() == listing(s).to_multiset().insert(b.name),
        sorted_by(listing(s.push(b)), lex_order()),
{
    lemma_listing_sorted_names(s);
    lemma_listing_sorted_names(s.push(b));
    assert(names_of(s.push(b)) =~= names_of(s).push(b.name));
    to_multiset_build(names_of(s), b.name);
}

impl Config {
    /// The names of all bookmarks, sorted lexicographically; the stored
    /// order is left as it is.
    pub fn sorted_names(&self) -> (r: Vec<String>)
        ensures
            strings_of(r@) == listing(self@),
    {
        proof {
            lemma_lex_total();
        }
        let mut r: Vec<String> = Vec::new();
        let mut i: usize = 0;
        assert(names_of(self@).take(0) =~= Seq::<Seq<char>>::empty());
        assert(strings_of(r@) =~= Seq::<Seq<char>>::empty());
        while i < self.bookmarks.len()
            invariant
                i <= self.bookmarks@.len(),
                total_ordering(lex_order()),
                sorted_by(strings_of(r@), lex_order()),
                strings_of(r@).to_multiset() == names_of(self@).take(i as int).to_multiset(),
            decreases self.bookmarks@.len() - i,
        {
            let x = self.bookmarks[i].name.clone();
            assert(x@ == names_of(self@)[i as int]);
            let mut j: usize = 0;
            while j < r.len() && !lex_le_exec(&x, &r[j])
                invariant
                    j <= r@.len(),
                    forall|k: int| 0 <= k < j ==> !lex_le(x@, #[trigger] strings_of(r@)[k]),
                decreases r@.len() - j,
            {
                j = j + 1;
            }
            let ghost t = strings_of(r@);
            r.insert(j, x);
            proof {
                let u = t.insert(j as int, x@);
                assert(strings_of(r@) =~= u);
                assert forall|p: int, q: int| 0 <= p < q < u.len() implies
                    #[trigger] lex_order()(u[p], u[q]) by {
                    if q < j {
                        assert(lex_order()(t[p], t[q]));
                    } else if q == j {
                        lemma_lex_connected(x@, t[p]);
                    } else if p < j {
                        lemma_lex_connected(x@, t[p]);
                        if j < t.len() {
                            assert(lex_order()(t[j as int], t[q - 1]));
                            lemma_lex_transitive(t[p], x@, t[j as int]);
                            lemma_lex_transitive(t[p], t[j as int], t[q - 1]);
                        }
                    } else if p == j {
                        if j < q - 1 {
                            assert(lex_order()(t[j as int], t[q - 1]));
                            lemma_lex_transitive(x@, t[j as int], t[q - 1]);
                        }
                    } else {
                        assert(lex_order()(t[p - 1], t[q - 1]));
                    }
                }
                to_multiset_insert(t, j as int, x@);
                assert(names_of(self@).take(i + 1) =~= names_of(self@).take(i as int).push(x@));
                to_multiset_build(names_of(self@).take(i as int), x@);
            }
            i = i + 1;
        }
        proof {
            assert(names_of(self@).take(i as int) =~= names_of(self@));
            lemma_listing_sorted_names(self@);
            lemma_sorted_unique(strings_of(r@), listing(self@), lex_order());
        }
        r
    }
}

} // verus!
