//! The committed collection: stored files in commit order, looked up by a
//! prefix of their generated storage name.

use vstd::prelude::*;
use crate::comments::Comments;
use crate::tags::{contains_tag, distinct_tags, merge_tags, tag_set, tags_are_distinct};
use crate::text::{has_prefix, strip_leading_char};

verus! {

/// A committed entry.
#[derive(Debug, Clone)]
pub struct FileInfo {
    /// The generated name of the file inside the content store, extension included.
    pub filename: String,
    /// The last path component that the file had before it was committed.
    pub original_filename: Option<String>,
    pub tags: Vec<String>,
    pub comments: Comments,
}

/// The committed entries, in commit order.
#[derive(Debug, Clone)]
pub struct Storage {
    pub files: Vec<FileInfo>,
}

/// The storage name of `f` begins with `prefix`.
pub open spec fn name_has_prefix(f: FileInfo, prefix: Seq<char>) -> bool {
    prefix.is_prefix_of(f.filename@)
}

/// The positions, in order, of the entries whose storage name begins with `prefix`.
pub open spec fn matching_indices(files: Seq<FileInfo>, prefix: Seq<char>) -> Seq<usize>
    decreases files.len(),
{
    if files.len() == 0 {
        Seq::empty()
    } else {
        let rest = matching_indices(files.drop_last(), prefix);
        if name_has_prefix(files.last(), prefix) {
            rest.push((files.len() - 1) as usize)
        } else {
            rest
        }
    }
}

/// The storage names in `files` are pairwise distinct.
pub open spec fn distinct_names(files: Seq<FileInfo>) -> bool {
    forall|i: int, j: int|
        0 <= i < files.len() && 0 <= j < files.len() && i != j ==> files[i].filename@
            != files[j].filename@
}

/// Whether one tag predicate holds of a tag list: `-t` asks that `t` be
/// absent, `+t` and a bare `t` that it be present.
pub open spec fn predicate_holds(tags: Seq<String>, pred: Seq<char>) -> bool {
    if pred.len() > 0 && pred[0] == '-' {
        !tag_set(tags).contains(pred.drop_first())
    } else if pred.len() > 0 && pred[0] == '+' {
        tag_set(tags).contains(pred.drop_first())
    } else {
        tag_set(tags).contains(pred)
    }
}

/// Every predicate holds of the tags of `f`.
pub open spec fn selected(f: FileInfo, preds: Seq<String>) -> bool {
    forall|k: int| 0 <= k < preds.len() ==> #[trigger] predicate_holds(f.tags@, preds[k]@)
}

/// The positions, in order, of the entries that every predicate selects.
pub open spec fn selected_indices(files: Seq<FileInfo>, preds: Seq<String>) -> Seq<usize>
    decreases files.len(),
{
    if files.len() == 0 {
        Seq::empty()
    } else {
        let rest = selected_indices(files.drop_last(), preds);
        if selected(files.last(), preds) {
            rest.push((files.len() - 1) as usize)
        } else {
            rest
        }
    }
}

/// What a storage-name prefix resolves to.
#[derive(Debug)]
pub enum Lookup {
    /// No entry has a storage name with that prefix.
    NotFound,
    /// Exactly one entry does: its position.
    Found(usize),
    /// Several do: their positions, in order.
    Ambiguous(Vec<usize>),
}

/// `r` is the resolution that the match positions `m` call for.
pub open spec fn resolves_to(r: Lookup, m: Seq<usize>) -> bool {
    match r {
        Lookup::NotFound => m.len() == 0,
        Lookup::Found(i) => m.len() == 1 && i == m[0],
        Lookup::Ambiguous(v) => m.len() > 1 && v@ == m,
    }
}

/// Every match position is in range and names a matching entry.
proof fn lemma_matching_bounds(files: Seq<FileInfo>, prefix: Seq<char>)
    requires
        files.len() <= usize::MAX,
    ensures
        forall|k: int|
            0 <= k < matching_indices(files, prefix).len() ==> {
                let i = #[trigger] matching_indices(files, prefix)[k];
                &&& i < files.len()
                &&& name_has_prefix(files[i as int], prefix)
            },
    decreases files.len(),
{
    if files.len() > 0 {
        let init = files.drop_last();
        lemma_matching_bounds(init, prefix);
        let m = matching_indices(files, prefix);
        let rest = matching_indices(init, prefix);
        assert forall|k: int| 0 <= k < m.len() implies {
            let i = #[trigger] m[k];
            &&& i < files.len()
            &&& name_has_prefix(files[i as int], prefix)
        } by {
            if k < rest.len() {
                let i = rest[k];
                assert(init[i as int] == files[i as int]);
            } else {
                assert(files[files.len() - 1] == files.last());
            }
        }
    }
}

/// Whether one tag predicate holds of `tags`.
pub fn predicate_matches(tags: &Vec<String>, pred: &String) -> (r: bool)
    ensures
        r == predicate_holds(tags@, pred@),
{
    match strip_leading_char(pred.as_str(), '-') {
        Some(absent) => !contains_tag(tags, &absent),
        None => match strip_leading_char(pred.as_str(), '+') {
            Some(present) => contains_tag(tags, &present),
            None => contains_tag(tags, pred),
        },
    }
}

/// Whether every predicate of `preds` holds of `tags`.
pub fn all_predicates_match(tags: &Vec<String>, preds: &Vec<String>) -> (r: bool)
    ensures
        r == forall|k: int| 0 <= k < preds@.len() ==> #[trigger] predicate_holds(tags@, preds@[k]@),
{
    let mut k: usize = 0;
    while k < preds.len()
        invariant
            k <= preds@.len(),
            forall|j: int| 0 <= j < k ==> #[trigger] predicate_holds(tags@, preds@[j]@),
        decreases preds@.len() - k,
    {
        if !predicate_matches(tags, &preds[k]) {
            return false;
        }
        k = k + 1;
    }
    true
}

/// `a` and `b` differ at most in their tags.
pub open spec fn same_but_tags(a: FileInfo, b: FileInfo) -> bool {
    &&& a.filename == b.filename
    &&& a.original_filename == b.original_filename
    &&& a.comments == b.comments
}

/// `a` and `b` differ at most in their comments.
pub open spec fn same_but_comments(a: FileInfo, b: FileInfo) -> bool {
    &&& a.filename == b.filename
    &&& a.original_filename == b.original_filename
    &&& a.tags == b.tags
}

/// Match positions of a prefix of the entries are the positions before the
/// next entry, followed by that entry's position when it matches.
proof fn lemma_matching_step(files: Seq<FileInfo>, prefix: Seq<char>, i: int)
    requires
        0 <= i < files.len(),
        files.len() <= usize::MAX,
    ensures
        matching_indices(files.take(i + 1), prefix) == if name_has_prefix(files[i], prefix) {
            matching_indices(files.take(i), prefix).push(i as usize)
        } else {
            matching_indices(files.take(i), prefix)
        },
{
    assert(files.take(i + 1).drop_last() == files.take(i));
    assert(files.take(i + 1).last() == files[i]);
}

/// Mutable references to the entries of `files` whose storage name begins
/// with `prefix`, in order.
fn matching_mut<'a>(files: &'a mut [FileInfo], prefix: &str) -> (r: Vec<&'a mut FileInfo>)
    ensures
        ({
            let m = matching_indices(old(files)@, prefix@);
            &&& r@.len() == m.len()
            &&& forall|k: int| 0 <= k < m.len() ==> *r@[k] == old(files)@[m[k] as int]
            &&& final(files)@.len() == old(files)@.len()
            &&& forall|k: int| 0 <= k < m.len() ==> final(files)@[m[k] as int] == *final(r@[k])
            &&& forall|i: int|
                0 <= i < old(files)@.len() && !name_has_prefix(old(files)@[i], prefix@)
                    ==> final(files)@[i] == old(files)@[i]
        }),
{
    let ghost start = files@;
    let n = files.len();
    let mut out: Vec<&'a mut FileInfo> = Vec::new();
    let mut rest = files;
    let mut i: usize = 0;
    proof {
        lemma_matching_bounds(start.take(0), prefix@);
    }
    while i < n
        invariant
            n == start.len(),
            i <= n,
            rest@ == start.skip(i as int),
            out@.len() == matching_indices(start.take(i as int), prefix@).len(),
            forall|k: int|
                0 <= k < out@.len() ==> *out@[k] == start[matching_indices(
                    start.take(i as int),
                    prefix@,
                )[k] as int],
            final(files)@.len() == i + final(rest)@.len(),
            forall|k: int|
                0 <= k < out@.len() ==> final(files)@[matching_indices(
                    start.take(i as int),
                    prefix@,
                )[k] as int] == *final(out@[k]),
            forall|j: int|
                0 <= j < i && !name_has_prefix(start[j], prefix@) ==> final(files)@[j] == start[j],
            forall|k: int| 0 <= k < final(rest)@.len() ==> final(files)@[i + k] == final(rest)@[k],
            forall|k: int|
                0 <= k < matching_indices(start.take(i as int), prefix@).len()
                    ==> #[trigger] matching_indices(start.take(i as int), prefix@)[k] < i,
        decreases n - i,
    {
        proof {
            lemma_matching_step(start, prefix@, i as int);
            lemma_matching_bounds(start.take(i + 1), prefix@);
        }
        let ghost before = out@;
        let ghost r0 = rest;
        let matches = has_prefix(rest[0].filename.as_str(), prefix);
        let (head, tail) = rest.split_at_mut(1);
        assert(final(r0)@ == final(head)@ + final(tail)@);
        match head.first_mut() {
            Some(e) => {
                assert(final(r0)@.len() == 1 + final(tail)@.len());
                assert forall|k: int| 0 <= k < final(tail)@.len() implies final(r0)@[1 + k]
                    == final(tail)@[k] by {}
                if matches {
                    assert(final(r0)@[0] == *final(e));
                    out.push(e);
                    assert(*final(out@[out@.len() - 1]) == final(r0)@[0]);
                } else {
                    assert(*e == start[i as int]);
                    assert(final(r0)@[0] == start[i as int]);
                }
            },
            None => {},
        }
        assert forall|k: int| 0 <= k < before.len() implies out@[k] == before[k] by {}
        rest = tail;
        i = i + 1;
    }
    assert(start.take(n as int) == start);
    out
}

impl Storage {
    /// An empty collection.
    pub fn new() -> (r: Storage)
        ensures
            r.files@.len() == 0,
            r.wf(),
    {
        Storage { files: Vec::new() }
    }

    /// Storage names are distinct, and every entry has well-formed comments
    /// and no repeated tag.
    pub open spec fn wf(&self) -> bool {
        &&& distinct_names(self.files@)
        &&& forall|i: int| 0 <= i < self.files@.len() ==> #[trigger] self.files@[i].comments.wf()
        &&& forall|i: int| 0 <= i < self.files@.len() ==> distinct_tags(#[trigger] self.files@[i].tags@)
    }

    /// Whether the collection is well formed.
    pub fn is_well_formed(&self) -> (r: bool)
        ensures
            r == self.wf(),
    {
        let n = self.files.len();
        let mut i: usize = 0;
        while i < n
            invariant
                n == self.files@.len(),
                i <= n,
                forall|a: int, b: int|
                    0 <= a < i && 0 <= b < n && a != b ==> self.files@[a].filename@
                        != self.files@[b].filename@,
                forall|a: int| 0 <= a < i ==> #[trigger] self.files@[a].comments.wf(),
                forall|a: int| 0 <= a < i ==> distinct_tags(#[trigger] self.files@[a].tags@),
            decreases n - i,
        {
            if !self.files[i].comments.is_well_formed() || !tags_are_distinct(&self.files[i].tags) {
                return false;
            }
            let mut j: usize = 0;
            while j < n
                invariant
                    n == self.files@.len(),
                    i < n,
                    j <= n,
                    forall|a: int, b: int|
                        0 <= a < i && 0 <= b < n && a != b ==> self.files@[a].filename@
                            != self.files@[b].filename@,
                    forall|b: int| 0 <= b < j && b != i ==> self.files@[i as int].filename@ != self.files@[b].filename@,
                decreases n - j,
            {
                if j != i && self.files[i].filename == self.files[j].filename {
                    return false;
                }
                j = j + 1;
            }
            i = i + 1;
        }
        true
    }

    /// Whether some entry has storage name `name`.
    pub fn contains_name(&self, name: &String) -> (r: bool)
        ensures
            r == exists|i: int|
                0 <= i < self.files@.len() && #[trigger] self.files@[i].filename@ == name@,
    {
        let mut i: usize = 0;
        while i < self.files.len()
            invariant
                i <= self.files@.len(),
                forall|k: int| 0 <= k < i ==> #[trigger] self.files@[k].filename@ != name@,
            decreases self.files@.len() - i,
        {
            if self.files[i].filename == *name {
                assert(self.files@[i as int].filename@ == name@);
                return true;
            }
            i = i + 1;
        }
        false
    }

    /// The positions of every entry whose storage name begins with `prefix`, in order.
    pub fn find_file_from_prefix(&self, prefix: &str) -> (r: Vec<usize>)
        ensures
            r@ == matching_indices(self.files@, prefix@),
    {
        let mut r: Vec<usize> = Vec::new();
        let mut i: usize = 0;
        while i < self.files.len()
            invariant
                i <= self.files@.len(),
                r@ == matching_indices(self.files@.take(i as int), prefix@),
            decreases self.files@.len() - i,
        {
            assert(self.files@.take(i + 1).drop_last() == self.files@.take(i as int));
            if has_prefix(self.files[i].filename.as_str(), prefix) {
                r.push(i);
            }
            i = i + 1;
        }
        assert(self.files@.take(self.files@.len() as int) == self.files@);
        r
    }

    /// Resolves a storage-name prefix: not found, a single entry, or the
    /// ambiguous set of all matching entries.
    pub fn resolve_prefix(&self, prefix: &str) -> (r: Lookup)
        ensures
            resolves_to(r, matching_indices(self.files@, prefix@)),
    {
        let found = self.find_file_from_prefix(prefix);
        if found.len() == 0 {
            Lookup::NotFound
        } else if found.len() == 1 {
            Lookup::Found(found[0])
        } else {
            Lookup::Ambiguous(found)
        }
    }

    /// Mutable access to every entry whose storage name begins with
    /// `prefix`, in store order. Only those entries can change through the
    /// references; the others, and the number of entries, stay as they are.
    pub fn find_file_mut_from_prefix(&mut self, prefix: &str) -> (r: Vec<&mut FileInfo>)
        ensures
            ({
                let m = matching_indices(old(self).files@, prefix@);
                &&& r@.len() == m.len()
                &&& forall|k: int| 0 <= k < m.len() ==> *r@[k] == old(self).files@[m[k] as int]
                &&& final(self).files@.len() == old(self).files@.len()
                &&& forall|k: int|
                    0 <= k < m.len() ==> final(self).files@[m[k] as int] == *final(r@[k])
                &&& forall|i: int|
                    0 <= i < old(self).files@.len() && !name_has_prefix(old(self).files@[i], prefix@)
                        ==> final(self).files@[i] == old(self).files@[i]
            }),
    {
        matching_mut(self.files.as_mut_slice(), prefix)
    }

    /// Merges `tags` into the entry that `prefix` names, with the duplicate
    /// policy of `merge_tags`; returns the resolution and the number of tags
    /// dropped as duplicates (0 unless an entry was found).
    pub fn add_tags(&mut self, prefix: &str, tags: &Vec<String>) -> (r: (Lookup, usize))
        requires
            old(self).wf(),
        ensures
            final(self).wf(),
            resolves_to(r.0, matching_indices(old(self).files@, prefix@)),
            !(r.0 is Found) ==> *final(self) == *old(self) && r.1 == 0,
            r.0 matches Lookup::Found(i) ==> {
                let before = old(self).files@[i as int];
                let after = final(self).files@[i as int];
                &&& final(self).files@.len() == old(self).files@.len()
                &&& forall|j: int|
                    0 <= j < old(self).files@.len() && j != i ==> #[trigger] final(self).files@[j]
                        == old(self).files@[j]
                &&& same_but_tags(after, before)
                &&& distinct_tags(after.tags@)
                &&& tag_set(after.tags@) == tag_set(before.tags@).union(tag_set(tags@))
                &&& r.1 + after.tags@.len() == before.tags@.len() + tags@.len()
            },
    {
        match self.resolve_prefix(prefix) {
            Lookup::Found(i) => {
                proof {
                    assert(self.files@.len() == self.files.len());
                    lemma_matching_bounds(self.files@, prefix@);
                }
                let ghost before = self.files@;
                let dups = merge_tags(&mut self.files[i].tags, tags);
                proof {
                    assert forall|j: int| 0 <= j < self.files@.len() implies distinct_tags(
                        #[trigger] self.files@[j].tags@,
                    ) by {
                        if j != i {
                            assert(self.files@[j] == before[j]);
                        }
                    }
                    assert forall|j: int| 0 <= j < self.files@.len() implies #[trigger] self.files@[j].comments.wf() by {
                        assert(self.files@[j].comments == before[j].comments);
                    }
                    assert forall|a: int, b: int|
                        0 <= a < self.files@.len() && 0 <= b < self.files@.len() && a != b implies self.files@[a].filename@
                        != self.files@[b].filename@ by {
                        assert(self.files@[a].filename == before[a].filename);
                        assert(self.files@[b].filename == before[b].filename);
                    }
                }
                (Lookup::Found(i), dups)
            },
            other => (other, 0),
        }
    }

    /// Sets the comment titled `title` to `body` on the entry that `prefix`
    /// names; returns the resolution.
    pub fn set_comment(&mut self, prefix: &str, title: String, body: String) -> (r: Lookup)
        requires
            old(self).wf(),
        ensures
            final(self).wf(),
            resolves_to(r, matching_indices(old(self).files@, prefix@)),
            !(r is Found) ==> *final(self) == *old(self),
            r matches Lookup::Found(i) ==> {
                let before = old(self).files@[i as int];
                let after = final(self).files@[i as int];
                &&& final(self).files@.len() == old(self).files@.len()
                &&& forall|j: int|
                    0 <= j < old(self).files@.len() && j != i ==> #[trigger] final(self).files@[j]
                        == old(self).files@[j]
                &&& same_but_comments(after, before)
                &&& after.comments@ == before.comments@.insert(title@, body@)
            },
    {
        match self.resolve_prefix(prefix) {
            Lookup::Found(i) => {
                proof {
                    assert(self.files@.len() == self.files.len());
                    lemma_matching_bounds(self.files@, prefix@);
                }
                let ghost before = self.files@;
                self.files[i].comments.insert(title, body);
                proof {
                    assert forall|j: int| 0 <= j < self.files@.len() implies distinct_tags(
                        #[trigger] self.files@[j].tags@,
                    ) by {
                        assert(self.files@[j].tags == before[j].tags);
                    }
                    assert forall|j: int| 0 <= j < self.files@.len() implies #[trigger] self.files@[j].comments.wf() by {
                        if j != i {
                            assert(self.files@[j] == before[j]);
                        }
                    }
                    assert forall|a: int, b: int|
                        0 <= a < self.files@.len() && 0 <= b < self.files@.len() && a != b implies self.files@[a].filename@
                        != self.files@[b].filename@ by {
                        assert(self.files@[a].filename == before[a].filename);
                        assert(self.files@[b].filename == before[b].filename);
                    }
                }
                Lookup::Found(i)
            },
            other => other,
        }
    }

    /// The positions, in commit order, of the entries whose tags satisfy
    /// every predicate of `preds` (`t` or `+t`: tag present; `-t`: absent).
    pub fn find_by_tags(&self, preds: &Vec<String>) -> (r: Vec<usize>)
        ensures
            r@ == selected_indices(self.files@, preds@),
    {
        let mut r: Vec<usize> = Vec::new();
        let mut i: usize = 0;
        while i < self.files.len()
            invariant
                i <= self.files@.len(),
                r@ == selected_indices(self.files@.take(i as int), preds@),
            decreases self.files@.len() - i,
        {
            assert(self.files@.take(i + 1).drop_last() == self.files@.take(i as int));
            if all_predicates_match(&self.files[i].tags, preds) {
                r.push(i);
            }
            i = i + 1;
        }
        assert(self.files@.take(self.files@.len() as int) == self.files@);
        r
    }
}

} // verus!
