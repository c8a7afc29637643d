//! Named free-text comments attached to a file: a map from title to body.

use vstd::prelude::*;

verus! {

/// The title of the primary comment.
pub const COMMENT_MAIN: &'static str = "comment";

/// The title under which a document title is kept.
pub const COMMENT_TITLE: &'static str = "title";

/// A map from comment title to comment body, each title present at most once.
#[derive(Debug, Clone)]
pub struct Comments {
    pub entries: Vec<(String, String)>,
}

/// Titles in `entries` are pairwise distinct.
pub open spec fn distinct_titles(entries: Seq<(String, String)>) -> bool {
    forall|i: int, j: int|
        0 <= i < entries.len() && 0 <= j < entries.len() && i != j ==> entries[i].0@
            != entries[j].0@
}

/// The map that a list of distinct (title, body) pairs describes.
pub open spec fn comment_map(entries: Seq<(String, String)>) -> Map<Seq<char>, Seq<char>>
    decreases entries.len(),
{
    if entries.len() == 0 {
        Map::empty()
    } else {
        let last = entries.last();
        comment_map(entries.drop_last()).insert(last.0@, last.1@)
    }
}

impl View for Comments {
    type V = Map<Seq<char>, Seq<char>>;

    open spec fn view(&self) -> Map<Seq<char>, Seq<char>> {
        comment_map(self.entries@)
    }
}

/// A title is in the map exactly when some pair carries it, and the map
/// holds that pair's body.
proof fn lemma_map_at(entries: Seq<(String, String)>, t: Seq<char>)
    requires
        distinct_titles(entries),
    ensures
        comment_map(entries).contains_key(t) <==> exists|i: int|
            0 <= i < entries.len() && #[trigger] entries[i].0@ == t,
        forall|i: int|
            0 <= i < entries.len() && #[trigger] entries[i].0@ == t ==> comment_map(entries)[t]
                == entries[i].1@,
    decreases entries.len(),
{
    if entries.len() > 0 {
        let init = entries.drop_last();
        assert(distinct_titles(init));
        lemma_map_at(init, t);
        assert forall|i: int| 0 <= i < init.len() implies #[trigger] init[i] == entries[i] by {}
        if entries.last().0@ != t {
            if exists|i: int| 0 <= i < entries.len() && #[trigger] entries[i].0@ == t {
                let i = choose|i: int| 0 <= i < entries.len() && #[trigger] entries[i].0@ == t;
                assert(init[i].0@ == t);
            }
        } else {
            assert(entries[entries.len() - 1].0@ == t);
        }
    }
}

impl Comments {
    /// A comment set with nothing in it.
    pub fn new() -> (r: Comments)
        ensures
            r.wf(),
            r@ == Map::<Seq<char>, Seq<char>>::empty(),
    {
        Comments { entries: Vec::new() }
    }

    /// Titles are distinct.
    pub open spec fn wf(&self) -> bool {
        distinct_titles(self.entries@)
    }

    /// Whether the titles are distinct.
    pub fn is_well_formed(&self) -> (r: bool)
        ensures
            r == self.wf(),
    {
        let n = self.entries.len();
        let mut i: usize = 0;
        while i < n
            invariant
                n == self.entries@.len(),
                i <= n,
                forall|a: int, b: int|
                    0 <= a < i && 0 <= b < n && a != b ==> self.entries@[a].0@
                        != self.entries@[b].0@,
            decreases n - i,
        {
            let mut j: usize = 0;
            while j < n
                invariant
                    n == self.entries@.len(),
                    i < n,
                    j <= n,
                    forall|a: int, b: int|
                        0 <= a < i && 0 <= b < n && a != b ==> self.entries@[a].0@
                            != self.entries@[b].0@,
                    forall|b: int| 0 <= b < j && b != i ==> self.entries@[i as int].0@ != self.entries@[b].0@,
                decreases n - j,
            {
                if j != i && self.entries[i].0 == self.entries[j].0 {
                    return false;
                }
                j = j + 1;
            }
            i = i + 1;
        }
        true
    }

    /// The position of the comment titled `title`, if there is one.
    fn position(&self, title: &String) -> (r: Option<usize>)
        requires
            self.wf(),
        ensures
            r is None ==> !self@.contains_key(title@),
            r matches Some(i) ==> i < self.entries@.len() && self.entries@[i as int].0@
                == title@ && self@.contains_key(title@) && self@[title@]
                == self.entries@[i as int].1@,
    {
        proof {
            lemma_map_at(self.entries@, title@);
        }
        let mut i: usize = 0;
        while i < self.entries.len()
            invariant
                i <= self.entries@.len(),
                self.wf(),
                comment_map(self.entries@).contains_key(title@) <==> exists|k: int|
                    0 <= k < self.entries@.len() && #[trigger] self.entries@[k].0@ == title@,
                forall|k: int| 0 <= k < i ==> #[trigger] self.entries@[k].0@ != title@,
            decreases self.entries@.len() - i,
        {
            if self.entries[i].0 == *title {
                proof {
                    lemma_map_at(self.entries@, title@);
                }
                return Some(i);
            }
            i = i + 1;
        }
        None
    }

    /// Whether a comment titled `title` is present.
    pub fn contains_key(&self, title: &String) -> (r: bool)
        requires
            self.wf(),
        ensures
            r == self@.contains_key(title@),
    {
        self.position(title).is_some()
    }

    /// The body of the comment titled `title`, if present.
    pub fn get(&self, title: &String) -> (r: Option<&String>)
        requires
            self.wf(),
        ensures
            r is None <==> !self@.contains_key(title@),
            r matches Some(b) ==> b@ == self@[title@],
    {
        match self.position(title) {
            Some(i) => Some(&self.entries[i].1),
            None => None,
        }
    }

    /// Sets the comment titled `title` to `body`, replacing any previous body.
    pub fn insert(&mut self, title: String, body: String)
        requires
            old(self).wf(),
        ensures
            final(self).wf(),
            final(self)@ == old(self)@.insert(title@, body@),
    {
        match self.position(&title) {
            Some(i) => {
                let ghost before = self.entries@;
                let ghost t = title@;
                self.entries.set(i, (title, body));
                proof {
                    lemma_update_map(before, i as int, t, self.entries@[i as int].1@);
                }
            },
            None => {
                let ghost before = self.entries@;
                self.entries.push((title, body));
                proof {
                    assert(self.entries@.drop_last() == before);
                    lemma_map_at(before, self.entries@.last().0@);
                }
            },
        }
    }
}

/// Replacing the body at the position of an existing title updates the map there.
proof fn lemma_update_map(entries: Seq<(String, String)>, i: int, t: Seq<char>, body: Seq<char>)
    requires
        distinct_titles(entries),
        0 <= i < entries.len(),
        entries[i].0@ == t,
    ensures
        forall|p: (String, String)|
            p.0@ == t && p.1@ == body ==> #[trigger] comment_map(entries.update(i, p))
                == comment_map(entries).insert(t, body),
    decreases entries.len(),
{
    assert forall|p: (String, String)| p.0@ == t && p.1@ == body implies #[trigger] comment_map(
        entries.update(i, p),
    ) == comment_map(entries).insert(t, body) by {
        let u = entries.update(i, p);
        if i == entries.len() - 1 {
            assert(u.drop_last() == entries.drop_last());
            assert(comment_map(entries.drop_last()).insert(t, body) =~= comment_map(
                entries.drop_last(),
            ).insert(entries.last().0@, entries.last().1@).insert(t, body));
        } else {
            let init = entries.drop_last();
            assert(distinct_titles(init));
            lemma_update_map(init, i, t, body);
            assert(u.drop_last() == init.update(i, p));
            assert(u.last() == entries.last());
            assert(entries[entries.len() - 1].0@ != t);
            assert(comment_map(init.update(i, p)) == comment_map(init).insert(t, body));
            assert(comment_map(u) =~= comment_map(entries).insert(t, body));
        }
    }
}

} // verus!
