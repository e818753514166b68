//! An in-memory store of wiki pages: markdown content keyed by page id.

use crate::text::str_eq;
use vstd::prelude::*;

verus! {

/// The association built from a list of `(id, content)` pairs; a later
/// pair with the same id wins.
pub open spec fn pairs_map(s: Seq<(String, String)>) -> Map<Seq<char>, Seq<char>>
    decreases s.len(),
{
    if s.len() == 0 {
        Map::empty()
    } else {
        pairs_map(s.drop_last()).insert(s.last().0@, s.last().1@)
    }
}

/// Id of the built-in home page.
pub open spec fn home_page_id() -> Seq<char> {
    "home"@
}

/// Id of the built-in page of Alice.
pub open spec fn alice_page_id() -> Seq<char> {
    "alice_user_id/550e8400-e29b-41d4-a716-446655440000"@
}

/// Id of the built-in page of Bob.
pub open spec fn bob_page_id() -> Seq<char> {
    "bob_user_id/660e9500-f39c-52e5-b827-557766551111"@
}

/// Content of the built-in home page.
pub open spec fn home_page_text() -> Seq<char> {
    r#"# Welcome to the Wiki

This is your personal wiki space!

Check out (Alice's Page)[alice_user_id/550e8400-e29b-41d4-a716-446655440000] to see another page.

You can also visit (Bob's Notes)[bob_user_id/660e9500-f39c-52e5-b827-557766551111].
"#@
}

/// Content of the built-in page of Alice.
pub open spec fn alice_page_text() -> Seq<char> {
    r#"# Alice's Page

Welcome to Alice's personal page! This is where Alice keeps her notes and ideas.

## Quick Links

- (Go back Home)[home]
- (Check out Bob's Notes)[bob_user_id/660e9500-f39c-52e5-b827-557766551111]

## About Alice

Alice is exploring the decentralized wiki world!
"#@
}

/// Content of the built-in page of Bob.
pub open spec fn bob_page_text() -> Seq<char> {
    r#"# Bob's Notes

Welcome to Bob's note collection.

## Navigation

- (Back to Home)[home]
- (Visit Alice's Page)[alice_user_id/550e8400-e29b-41d4-a716-446655440000]

## Bob's Thoughts

Just testing out this wiki system. Pretty cool!
"#@
}

/// Stores wiki pages in memory with their markdown content.
#[derive(Debug, Clone)]
pub struct PageStore {
    pages: Vec<(String, String)>,
}

impl View for PageStore {
    type V = Map<Seq<char>, Seq<char>>;

    closed spec fn view(&self) -> Map<Seq<char>, Seq<char>> {
        pairs_map(self.pages@)
    }
}

/// A key that occurs in none of the pairs is not in the association.
proof fn lemma_pairs_map_absent(s: Seq<(String, String)>, k: Seq<char>)
    requires
        forall|i: int| 0 <= i < s.len() ==> (#[trigger] s[i]).0@ != k,
    ensures
        !pairs_map(s).contains_key(k),
    decreases s.len(),
{
    if s.len() > 0 {
        lemma_pairs_map_absent(s.drop_last(), k);
    }
}

/// With unique ids, each pair is found in the association.
proof fn lemma_pairs_map_found(s: Seq<(String, String)>, i: int)
    requires
        0 <= i < s.len(),
        forall|p: int, q: int| 0 <= p < q < s.len() ==> (#[trigger] s[p]).0@ != (#[trigger] s[q]).0@,
    ensures
        pairs_map(s).contains_key(s[i].0@),
        pairs_map(s)[s[i].0@] == s[i].1@,
    decreases s.len(),
{
    if i == s.len() - 1 {
    } else {
        assert(s[i].0@ != s[s.len() - 1].0@);
        lemma_pairs_map_found(s.drop_last(), i);
        assert(s.drop_last()[i] == s[i]);
    }
}

/// Removing the pair that holds a key removes that key.
proof fn lemma_pairs_map_remove(s: Seq<(String, String)>, i: int)
    requires
        0 <= i < s.len(),
        forall|p: int, q: int| 0 <= p < q < s.len() ==> (#[trigger] s[p]).0@ != (#[trigger] s[q]).0@,
    ensures
        pairs_map(s.remove(i)) == pairs_map(s).remove(s[i].0@),
    decreases s.len(),
{
    if i == s.len() - 1 {
        assert(s.remove(i) =~= s.drop_last());
        assert(forall|p: int|
            0 <= p < s.len() - 1 ==> (#[trigger] s.drop_last()[p]).0@ != s[i].0@);
        lemma_pairs_map_absent(s.drop_last(), s[i].0@);
        assert(pairs_map(s.drop_last()) =~= pairs_map(s.drop_last()).insert(
            s.last().0@,
            s.last().1@,
        ).remove(s[i].0@));
    } else {
        let t = s.drop_last();
        assert(forall|p: int, q: int|
            0 <= p < q < t.len() ==> (#[trigger] t[p]).0@ != (#[trigger] t[q]).0@);
        lemma_pairs_map_remove(t, i);
        assert(t[i] == s[i]);
        assert(s.remove(i).drop_last() =~= t.remove(i));
        assert(s.remove(i).last() == s.last());
        assert(s[i].0@ != s.last().0@);
        assert(pairs_map(s.remove(i)) == pairs_map(t.remove(i)).insert(s.last().0@, s.last().1@));
        assert(pairs_map(t).remove(s[i].0@).insert(s.last().0@, s.last().1@) =~= pairs_map(t).insert(
            s.last().0@,
            s.last().1@,
        ).remove(s[i].0@));
    }
}

impl PageStore {
    /// Well-formedness: page ids are unique.
    pub closed spec fn wf(&self) -> bool {
        forall|p: int, q: int|
            0 <= p < q < self.pages@.len() ==> (#[trigger] self.pages@[p]).0@ != (
            #[trigger] self.pages@[q]).0@
    }

    /// Creates a new empty page store.
    pub fn new() -> (r: Self)
        ensures
            r.wf(),
            r@ == Map::<Seq<char>, Seq<char>>::empty(),
    {
        PageStore { pages: Vec::new() }
    }

    /// Gets a page by its id.
    pub fn get_page(&self, page_id: &str) -> (r: Option<&String>)
        requires
            self.wf(),
        ensures
            match r {
                Some(c) => self@.contains_key(page_id@) && c@ == self@[page_id@],
                None => !self@.contains_key(page_id@),
            },
    {
        let key = String::from_str(page_id);
        let n = self.pages.len();
        let mut i: usize = 0;
        while i < n
            invariant
                i <= n,
                self.wf(),
                n == self.pages@.len(),
                key@ == page_id@,
                forall|k: int| 0 <= k < i ==> (#[trigger] self.pages@[k]).0@ != page_id@,
            decreases n - i,
        {
            if str_eq(&self.pages[i].0, &key) {
                proof {
                    lemma_pairs_map_found(self.pages@, i as int);
                }
                return Some(&self.pages[i].1);
            }
            i = i + 1;
        }
        proof {
            lemma_pairs_map_absent(self.pages@, page_id@);
        }
        None
    }

    /// Initializes the store with the built-in test pages.
    pub fn with_test_pages() -> (r: Self)
        ensures
            r.wf(),
            r@ == Map::<Seq<char>, Seq<char>>::empty().insert(home_page_id(), home_page_text())
                .insert(alice_page_id(), alice_page_text()).insert(bob_page_id(), bob_page_text()),
    {
        let mut store = Self::new();
        store.initialize_test_pages();
        store
    }

    /// Fills the store with the built-in test content: a home page and the
    /// pages of Alice and Bob, linked to one another in the custom wiki
    /// link syntax.
    pub fn initialize_test_pages(&mut self)
        requires
            old(self).wf(),
        ensures
            final(self).wf(),
            final(self)@ == old(self)@.insert(home_page_id(), home_page_text()).insert(
                alice_page_id(),
                alice_page_text(),
            ).insert(bob_page_id(), bob_page_text()),
    {
        let home_content = r#"# Welcome to the Wiki

This is your personal wiki space!

Check out (Alice's Page)[alice_user_id/550e8400-e29b-41d4-a716-446655440000] to see another page.

You can also visit (Bob's Notes)[bob_user_id/660e9500-f39c-52e5-b827-557766551111].
"#;

        let alice_content = r#"# Alice's Page

Welcome to Alice's personal page! This is where Alice keeps her notes and ideas.

## Quick Links

- (Go back Home)[home]
- (Check out Bob's Notes)[bob_user_id/660e9500-f39c-52e5-b827-557766551111]

## About Alice

Alice is exploring the decentralized wiki world!
"#;

        let bob_content = r#"# Bob's Notes

Welcome to Bob's note collection.

## Navigation

- (Back to Home)[home]
- (Visit Alice's Page)[alice_user_id/550e8400-e29b-41d4-a716-446655440000]

## Bob's Thoughts

Just testing out this wiki system. Pretty cool!
"#;

        self.set_page(String::from_str("home"), String::from_str(home_content));
        self.set_page(
            String::from_str("alice_user_id/550e8400-e29b-41d4-a716-446655440000"),
            String::from_str(alice_content),
        );
        self.set_page(
            String::from_str("bob_user_id/660e9500-f39c-52e5-b827-557766551111"),
            String::from_str(bob_content),
        );
    }

    /// Adds or updates a page.
    pub fn set_page(&mut self, page_id: String, content: String)
        requires
            old(self).wf(),
        ensures
            final(self).wf(),
            final(self)@ == old(self)@.insert(page_id@, content@),
    {
        let n = self.pages.len();
        let mut i: usize = 0;
        while i < n
            invariant
                i <= n,
                self.wf(),
                n == self.pages@.len(),
                self == old(self),
                forall|k: int| 0 <= k < i ==> (#[trigger] self.pages@[k]).0@ != page_id@,
            decreases n - i,
        {
            if str_eq(&self.pages[i].0, &page_id) {
                proof {
                    lemma_pairs_map_found(self.pages@, i as int);
                    lemma_pairs_map_remove(self.pages@, i as int);
                }
                let ghost s0 = self.pages@;
                self.pages.remove(i);
                proof {
                    assert(forall|p: int, q: int|
                        0 <= p < q < self.pages@.len() ==> (#[trigger] self.pages@[p]).0@ != (
                        #[trigger] self.pages@[q]).0@) by {
                        assert(forall|p: int|
                            0 <= p < self.pages@.len() ==> self.pages@[p] == s0.remove(i as int)[p]);
                    }
                    assert(forall|k: int|
                        0 <= k < self.pages@.len() ==> (#[trigger] self.pages@[k]).0@ != page_id@)
                        by {
                        assert(forall|k: int|
                            0 <= k < self.pages@.len() ==> self.pages@[k] == s0.remove(i as int)[k]);
                    }
                }
                let ghost s1 = self.pages@;
                self.pages.push((page_id, content));
                proof {
                    assert(self.pages@.drop_last() =~= s1);
                    assert(pairs_map(self.pages@) == pairs_map(s1).insert(page_id@, content@));
                    assert(pairs_map(s0).remove(s0[i as int].0@).insert(page_id@, content@)
                        =~= pairs_map(s0).insert(page_id@, content@));
                }
                return ;
            }
            i = i + 1;
        }
        proof {
            lemma_pairs_map_absent(self.pages@, page_id@);
        }
        let ghost s1 = self.pages@;
        self.pages.push((page_id, content));
        proof {
            assert(self.pages@.drop_last() =~= s1);
            assert(pairs_map(self.pages@) == pairs_map(s1).insert(page_id@, content@));
        }
    }
}

impl Default for PageStore {
    /// An empty page store.
    fn default() -> (r: Self)
        ensures
            r.wf(),
            r@ == Map::<Seq<char>, Seq<char>>::empty(),
    {
        PageStore::new()
    }
}

} // verus!
