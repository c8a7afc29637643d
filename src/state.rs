//! The session state: the registration area of staged files and the store of
//! committed ones, with staging, dropping and the commit steps.

use vstd::prelude::*;
use crate::comments::{Comments, COMMENT_MAIN, COMMENT_TITLE};
use crate::ids::{choose_filename, is_hyphenated_id, storage_name, storage_name_of};
use crate::paths::{extension_or_empty, extension_text, file_name, file_name_of};
use crate::storage::{distinct_names, FileInfo, Storage};
use crate::tags::{distinct_tags, lemma_merge_duplicates, merge_tags, tag_set, tags_are_distinct};

verus! {

/// A file in the registration area, not yet committed.
#[derive(Debug, Clone)]
pub struct AddedFile {
    /// The canonical absolute path of the file; it identifies the entry.
    pub path: String,
    /// A fingerprint of the content taken when the file was staged, if any.
    pub hash: Option<u64>,
    pub tags: Vec<String>,
    /// Comments by title; the primary one is titled `comment`.
    pub comment: Comments,
}

impl AddedFile {
    /// Whether the staged file is still as it was: `None` when it no longer
    /// exists, `Some(true)` when it exists and its fingerprint matches
    /// `current_hash` or none was taken, `Some(false)` otherwise.
    pub fn exists_hash_correct(&self, exists: bool, current_hash: u64) -> (r: Option<bool>)
        ensures
            !exists ==> r is None,
            exists ==> r == Some(self.hash is None || self.hash == Some(current_hash)),
    {
        if !exists {
            None
        } else {
            match self.hash {
                Some(h) => Some(h == current_hash),
                None => Some(true),
            }
        }
    }
}

/// The whole persisted state.
#[derive(Debug, Clone)]
pub struct State {
    /// Staged files, in staging order.
    pub registration_area: Vec<AddedFile>,
    /// When the registration area was last changed, as a date-time text.
    pub last_registration: Option<String>,
    pub storage: Storage,
}

/// No two staged entries share a path.
pub open spec fn distinct_paths(area: Seq<AddedFile>) -> bool {
    forall|i: int, j: int|
        0 <= i < area.len() && 0 <= j < area.len() && i != j ==> area[i].path@ != area[j].path@
}

/// Every staged entry has well-formed comments.
pub open spec fn comments_wf(area: Seq<AddedFile>) -> bool {
    forall|i: int| 0 <= i < area.len() ==> #[trigger] area[i].comment.wf()
}

/// No staged entry repeats a tag.
pub open spec fn tags_distinct(area: Seq<AddedFile>) -> bool {
    forall|i: int| 0 <= i < area.len() ==> distinct_tags(#[trigger] area[i].tags@)
}

/// The position of the last staged entry with path `p`, or -1.
pub open spec fn staged_position(area: Seq<AddedFile>, p: Seq<char>) -> int
    decreases area.len(),
{
    if area.len() == 0 {
        -1
    } else if area.last().path@ == p {
        area.len() - 1
    } else {
        staged_position(area.drop_last(), p)
    }
}

/// `staged_position` finds the last entry with the path, and -1 only when
/// there is none.
proof fn lemma_staged_position(area: Seq<AddedFile>, p: Seq<char>)
    ensures
        staged_position(area, p) == -1 <==> forall|i: int|
            0 <= i < area.len() ==> #[trigger] area[i].path@ != p,
        staged_position(area, p) >= 0 ==> {
            let k = staged_position(area, p);
            &&& k < area.len()
            &&& area[k].path@ == p
            &&& forall|i: int| k < i < area.len() ==> #[trigger] area[i].path@ != p
        },
        staged_position(area, p) >= -1,
    decreases area.len(),
{
    if area.len() > 0 {
        let init = area.drop_last();
        lemma_staged_position(init, p);
        assert(area[area.len() - 1] == area.last());
        if area.last().path@ != p {
            assert forall|i: int| 0 <= i < area.len() - 1 implies #[trigger] area[i].path@
                == init[i].path@ by {}
            if staged_position(init, p) == -1 {
                assert forall|i: int| 0 <= i < area.len() implies #[trigger] area[i].path@ != p by {
                    if i < area.len() - 1 {
                        assert(init[i].path@ != p);
                    }
                }
            } else {
                let k = staged_position(init, p);
                assert(init[k] == area[k]);
                assert forall|i: int| k < i < area.len() implies #[trigger] area[i].path@ != p by {
                    if i < area.len() - 1 {
                        assert(init[i].path@ != p);
                    }
                }
            }
        }
    }
}

/// What the path given to `stage` turned out to be.
#[derive(Debug, Clone, PartialEq, Eq)]
pub enum Target {
    /// It could not be resolved to an absolute path.
    Unresolved,
    Directory,
    Symlink,
    /// A regular file, with its canonical absolute path.
    File(String),
}

/// Why a path was not staged.
#[derive(Debug, Clone, Copy, PartialEq, Eq, Structural)]
pub enum StageError {
    /// The path could not be resolved to an absolute path.
    PathResolution,
    /// The path names a directory or a symbolic link.
    InvalidTarget,
}

/// What staging did.
#[derive(Debug, Clone, Copy, PartialEq, Eq, Structural)]
pub enum Staged {
    /// A new entry was created; `duplicates` tags were dropped as repeats.
    Added { duplicates: usize },
    /// The path was already staged: its tags were merged, dropping
    /// `duplicates`, and its primary comment replaced if `comment_replaced`.
    Merged { duplicates: usize, comment_replaced: bool },
}

/// The comments of a new entry: the primary comment alone, if one is given.
pub open spec fn initial_comments(comment: Option<String>) -> Map<Seq<char>, Seq<char>> {
    match comment {
        Some(c) => Map::<Seq<char>, Seq<char>>::empty().insert(COMMENT_MAIN@, c@),
        None => Map::empty(),
    }
}

/// Entry `a` became `b` by staging the same path again.
pub open spec fn merged_entry(
    a: AddedFile,
    b: AddedFile,
    tags: Seq<String>,
    comment: Option<String>,
    replace_comment: bool,
    r: Staged,
) -> bool {
    let replaced = comment is Some && (replace_comment || !a.comment@.contains_key(COMMENT_MAIN@));
    &&& b.path == a.path
    &&& b.hash == a.hash
    &&& distinct_tags(b.tags@)
    &&& tag_set(b.tags@) == tag_set(a.tags@).union(tag_set(tags))
    &&& r matches Staged::Merged { duplicates, comment_replaced } && comment_replaced == replaced
        && duplicates + b.tags@.len() == a.tags@.len() + tags.len()
    &&& b.comment@ == (if replaced {
        a.comment@.insert(COMMENT_MAIN@, comment->0@)
    } else {
        a.comment@
    })
}

/// `e` is the new entry that staging `p` with `tags` and `comment` creates.
pub open spec fn new_entry(
    e: AddedFile,
    p: Seq<char>,
    tags: Seq<String>,
    comment: Option<String>,
    r: Staged,
) -> bool {
    &&& e.path@ == p
    &&& e.hash is None
    &&& distinct_tags(e.tags@)
    &&& tag_set(e.tags@) == tag_set(tags)
    &&& r matches Staged::Added { duplicates } && duplicates + e.tags@.len() == tags.len()
    &&& e.comment.wf()
    &&& e.comment@ == initial_comments(comment)
}

/// The entry is removed by dropping the final path component `name`.
pub open spec fn dropped_by(f: AddedFile, name: Seq<char>) -> bool {
    file_name_of(f.path@) == Some(name)
}

/// The entries of `area` that dropping `name` keeps, in order.
pub open spec fn kept(area: Seq<AddedFile>, name: Seq<char>) -> Seq<AddedFile>
    decreases area.len(),
{
    if area.len() == 0 {
        Seq::empty()
    } else if dropped_by(area[0], name) {
        kept(area.skip(1), name)
    } else {
        seq![area[0]] + kept(area.skip(1), name)
    }
}

/// Every kept entry comes from the area, and kept paths stay distinct.
proof fn lemma_kept_members(area: Seq<AddedFile>, name: Seq<char>)
    ensures
        forall|i: int|
            0 <= i < kept(area, name).len() ==> exists|j: int|
                0 <= j < area.len() && area[j] == #[trigger] kept(area, name)[i],
        distinct_paths(area) ==> distinct_paths(kept(area, name)),
    decreases area.len(),
{
    if area.len() > 0 {
        let rest = area.skip(1);
        lemma_kept_members(rest, name);
        let kr = kept(rest, name);
        assert forall|i: int| 0 <= i < kr.len() implies exists|j: int|
            0 <= j < area.len() && area[j] == #[trigger] kr[i] by {
            let j = choose|j: int| 0 <= j < rest.len() && rest[j] == kr[i];
            assert(area[j + 1] == kr[i]);
        }
        if !dropped_by(area[0], name) {
            let k = kept(area, name);
            assert(k == seq![area[0]] + kr);
            assert forall|i: int| 0 <= i < k.len() implies exists|j: int|
                0 <= j < area.len() && area[j] == #[trigger] k[i] by {
                if i == 0 {
                    assert(area[0] == k[0]);
                } else {
                    assert(k[i] == kr[i - 1]);
                }
            }
            if distinct_paths(area) {
                assert(distinct_paths(rest));
                assert forall|a: int, b: int|
                    0 <= a < k.len() && 0 <= b < k.len() && a != b implies k[a].path@
                    != k[b].path@ by {
                    if a == 0 {
                        let j = choose|j: int| 0 <= j < rest.len() && rest[j] == kr[b - 1];
                        assert(area[j + 1] == k[b]);
                    } else if b == 0 {
                        let j = choose|j: int| 0 <= j < rest.len() && rest[j] == kr[a - 1];
                        assert(area[j + 1] == k[a]);
                    } else {
                        assert(k[a] == kr[a - 1]);
                        assert(k[b] == kr[b - 1]);
                    }
                }
            }
        } else {
            if distinct_paths(area) {
                assert(distinct_paths(rest));
            }
        }
    }
}

impl State {
    /// A state with nothing staged and nothing stored.
    pub fn new() -> (r: State)
        ensures
            r.wf(),
            r.registration_area@.len() == 0,
            r.storage.files@.len() == 0,
            r.last_registration is None,
    {
        State { registration_area: Vec::new(), last_registration: None, storage: Storage::new() }
    }

    /// The store is well formed, and staged paths are distinct and every
    /// staged entry has well-formed comments and no repeated tag.
    pub open spec fn wf(&self) -> bool {
        &&& self.storage.wf()
        &&& distinct_paths(self.registration_area@)
        &&& comments_wf(self.registration_area@)
        &&& tags_distinct(self.registration_area@)
    }

    /// Whether the state is well formed, as a loaded state must be before it
    /// is worked on.
    pub fn is_well_formed(&self) -> (r: bool)
        ensures
            r == self.wf(),
    {
        if !self.storage.is_well_formed() {
            return false;
        }
        let n = self.registration_area.len();
        let mut i: usize = 0;
        while i < n
            invariant
                n == self.registration_area@.len(),
                i <= n,
                forall|a: int, b: int|
                    0 <= a < i && 0 <= b < n && a != b ==> self.registration_area@[a].path@ != self.registration_area@[b].path@,
                forall|a: int| 0 <= a < i ==> #[trigger] self.registration_area@[a].comment.wf(),
                forall|a: int| 0 <= a < i ==> distinct_tags(#[trigger] self.registration_area@[a].tags@),
            decreases n - i,
        {
            if !tags_are_distinct(&self.registration_area[i].tags) {
                assert(!distinct_tags(self.registration_area@[i as int].tags@));
                return false;
            }
            if !self.registration_area[i].comment.is_well_formed() {
                assert(!self.registration_area@[i as int].comment.wf());
                return false;
            }
            let mut j: usize = 0;
            while j < n
                invariant
                    n == self.registration_area@.len(),
                    i < n,
                    j <= n,
                    forall|a: int, b: int|
                        0 <= a < i && 0 <= b < n && a != b ==> self.registration_area@[a].path@ != self.registration_area@[b].path@,
                    forall|b: int| 0 <= b < j && b != i ==> self.registration_area@[i as int].path@ != self.registration_area@[b].path@,
                decreases n - j,
            {
                if j != i && self.registration_area[i].path == self.registration_area[j].path {
                    assert(self.registration_area@[i as int].path@
                        == self.registration_area@[j as int].path@);
                    return false;
                }
                j = j + 1;
            }
            i = i + 1;
        }
        true
    }

    /// The position of the staged entry with path `path`, if there is one.
    fn staged_index(&self, path: &String) -> (r: Option<usize>)
        ensures
            r is None <==> staged_position(self.registration_area@, path@) == -1,
            r matches Some(i) ==> i == staged_position(self.registration_area@, path@),
    {
        proof {
            lemma_staged_position(self.registration_area@, path@);
        }
        let mut i: usize = self.registration_area.len();
        while i > 0
            invariant
                i <= self.registration_area@.len(),
                forall|k: int|
                    i <= k < self.registration_area@.len() ==> #[trigger] self.registration_area@[k].path@
                        != path@,
            decreases i,
        {
            i = i - 1;
            if self.registration_area[i].path == *path {
                proof {
                    lemma_staged_position(self.registration_area@, path@);
                }
                return Some(i);
            }
        }
        proof {
            lemma_staged_position(self.registration_area@, path@);
        }
        None
    }

    /// The primary comment of the staged entry with path `path`: staging that
    /// path again with a new comment asks first whether to replace it.
    pub fn staged_main_comment(&self, path: &String) -> (r: Option<&String>)
        requires
            self.wf(),
        ensures
            ({
                let k = staged_position(self.registration_area@, path@);
                &&& r is Some <==> k >= 0 && self.registration_area@[k].comment@.contains_key(
                    COMMENT_MAIN@,
                )
                &&& r matches Some(c) ==> c@ == self.registration_area@[k].comment@[COMMENT_MAIN@]
            }),
    {
        proof {
            lemma_staged_position(self.registration_area@, path@);
        }
        match self.staged_index(path) {
            Some(i) => {
                let key = COMMENT_MAIN.to_owned();
                self.registration_area[i].comment.get(&key)
            },
            None => None,
        }
    }

    /// Stages a path with tags and an optional primary comment. A path staged
    /// before gets the tags merged in (duplicates dropped and counted) and
    /// the comment set when it had none or `replace_comment` allows it; a new
    /// path gets a new entry at the end. Unresolved paths, directories and
    /// symbolic links are refused and change nothing.
    pub fn stage(
        &mut self,
        target: Target,
        tags: &Vec<String>,
        comment: Option<String>,
        replace_comment: bool,
    ) -> (r: Result<Staged, StageError>)
        requires
            old(self).wf(),
        ensures
            final(self).wf(),
            final(self).storage == old(self).storage,
            final(self).last_registration == old(self).last_registration,
            target is Unresolved ==> r == Err::<Staged, StageError>(StageError::PathResolution)
                && *final(self) == *old(self),
            (target is Directory || target is Symlink) ==> r == Err::<Staged, StageError>(
                StageError::InvalidTarget,
            ) && *final(self) == *old(self),
            target matches Target::File(p) ==> {
                let area = old(self).registration_area@;
                let area2 = final(self).registration_area@;
                let k = staged_position(area, p@);
                &&& r is Ok
                &&& k >= 0 ==> {
                    &&& area2.len() == area.len()
                    &&& forall|j: int| 0 <= j < area.len() && j != k ==> #[trigger] area2[j] == area[j]
                    &&& merged_entry(area[k], area2[k], tags@, comment, replace_comment, r->Ok_0)
                }
                &&& k < 0 ==> {
                    &&& area2.drop_last() == area
                    &&& area2.len() == area.len() + 1
                    &&& new_entry(area2.last(), p@, tags@, comment, r->Ok_0)
                }
            },
    {
        match target {
            Target::Unresolved => Err(StageError::PathResolution),
            Target::Directory => Err(StageError::InvalidTarget),
            Target::Symlink => Err(StageError::InvalidTarget),
            Target::File(path) => {
                proof {
                    lemma_staged_position(self.registration_area@, path@);
                }
                let ghost area = self.registration_area@;
                match self.staged_index(&path) {
                    Some(i) => {
                        let duplicates = merge_tags(&mut self.registration_area[i].tags, tags);
                        let mut comment_replaced = false;
                        match comment {
                            Some(c) => {
                                let key = COMMENT_MAIN.to_owned();
                                let has_main = self.registration_area[i].comment.contains_key(&key);
                                if replace_comment || !has_main {
                                    self.registration_area[i].comment.insert(key, c);
                                    comment_replaced = true;
                                }
                            },
                            None => {},
                        }
                        proof {
                            let a2 = self.registration_area@;
                            assert forall|j: int| 0 <= j < a2.len() implies #[trigger] a2[j].comment.wf() by {
                                if j != i {
                                    assert(a2[j] == area[j]);
                                }
                            }
                            assert forall|j: int| 0 <= j < a2.len() implies distinct_tags(
                                #[trigger] a2[j].tags@,
                            ) by {
                                if j != i {
                                    assert(a2[j] == area[j]);
                                }
                            }
                            assert forall|x: int, y: int|
                                0 <= x < a2.len() && 0 <= y < a2.len() && x != y implies a2[x].path@
                                != a2[y].path@ by {
                                assert(a2[x].path == area[x].path);
                                assert(a2[y].path == area[y].path);
                            }
                        }
                        Ok(Staged::Merged { duplicates, comment_replaced })
                    },
                    None => {
                        let mut entry_tags: Vec<String> = Vec::new();
                        assert(tag_set(entry_tags@) =~= Set::empty());
                        let duplicates = merge_tags(&mut entry_tags, tags);
                        assert(tag_set(entry_tags@) =~= tag_set(tags@));
                        let mut comments = Comments::new();
                        match comment {
                            Some(c) => {
                                comments.insert(COMMENT_MAIN.to_owned(), c);
                            },
                            None => {},
                        }
                        self.registration_area.push(
                            AddedFile { path, hash: None, tags: entry_tags, comment: comments },
                        );
                        proof {
                            let a2 = self.registration_area@;
                            assert(a2.drop_last() == area);
                            assert forall|j: int| 0 <= j < a2.len() implies #[trigger] a2[j].comment.wf() by {
                                if j < area.len() {
                                    assert(a2[j] == area[j]);
                                }
                            }
                            assert forall|j: int| 0 <= j < a2.len() implies distinct_tags(
                                #[trigger] a2[j].tags@,
                            ) by {
                                if j < area.len() {
                                    assert(a2[j] == area[j]);
                                }
                            }
                            assert forall|x: int, y: int|
                                0 <= x < a2.len() && 0 <= y < a2.len() && x != y implies a2[x].path@
                                != a2[y].path@ by {
                                if x < area.len() {
                                    assert(a2[x] == area[x]);
                                }
                                if y < area.len() {
                                    assert(a2[y] == area[y]);
                                }
                            }
                        }
                        Ok(Staged::Added { duplicates })
                    },
                }
            },
        }
    }

    /// Removes every staged entry whose final path component is `name`, and
    /// reports whether there was any.
    pub fn drop_staged(&mut self, name: &str) -> (found: bool)
        requires
            old(self).wf(),
        ensures
            final(self).wf(),
            final(self).storage == old(self).storage,
            final(self).last_registration == old(self).last_registration,
            final(self).registration_area@ == kept(old(self).registration_area@, name@),
            found == exists|i: int|
                0 <= i < old(self).registration_area@.len() && #[trigger] dropped_by(
                    old(self).registration_area@[i],
                    name@,
                ),
    {
        let ghost area = self.registration_area@;
        let wanted = name.to_owned();
        let mut found = false;
        let mut i: usize = self.registration_area.len();
        while i > 0
            invariant
                i <= area.len(),
                self.registration_area@ == area.take(i as int) + kept(area.skip(i as int), name@),
                self.storage == old(self).storage,
                self.last_registration == old(self).last_registration,
                found == exists|j: int| i <= j < area.len() && #[trigger] dropped_by(area[j], name@),
                wanted@ == name@,
            decreases i,
        {
            let ghost cur = self.registration_area@;
            let component = file_name(self.registration_area[i - 1].path.as_str());
            let drop_it = match component {
                Some(c) => c == wanted,
                None => false,
            };
            i = i - 1;
            proof {
                let tail = area.skip(i as int);
                assert(tail.skip(1) == area.skip(i + 1));
                assert(tail[0] == area[i as int]);
                assert(cur[i as int] == area[i as int]);
                assert(drop_it == dropped_by(area[i as int], name@));
                assert(area.take(i + 1) == area.take(i as int).push(area[i as int]));
            }
            if drop_it {
                found = true;
                self.registration_area.remove(i);
                assert(self.registration_area@ =~= area.take(i as int) + kept(area.skip(i as int), name@));
            } else {
                assert(self.registration_area@ =~= area.take(i as int) + kept(area.skip(i as int), name@));
            }
        }
        proof {
            assert(area.skip(0) == area);
            assert(self.registration_area@ =~= kept(area, name@));
            lemma_kept_members(area, name@);
            let k = self.registration_area@;
            assert forall|x: int| 0 <= x < k.len() implies #[trigger] k[x].comment.wf() by {
                let j = choose|j: int| 0 <= j < area.len() && area[j] == k[x];
            }
            assert forall|x: int| 0 <= x < k.len() implies distinct_tags(#[trigger] k[x].tags@) by {
                let j = choose|j: int| 0 <= j < area.len() && area[j] == k[x];
            }
        }
        found
    }

    /// The path and extension of the entry that the next commit takes, when
    /// it has no title comment yet: what title extraction should look at.
    pub fn next_title_source(&self) -> (r: Option<(String, String)>)
        requires
            self.wf(),
        ensures
            r is Some <==> self.registration_area@.len() > 0
                && !self.registration_area@.last().comment@.contains_key(COMMENT_TITLE@),
            r matches Some((p, e)) ==> p@ == self.registration_area@.last().path@ && e@
                == extension_text(self.registration_area@.last().path@),
    {
        let n = self.registration_area.len();
        if n == 0 {
            return None;
        }
        let key = COMMENT_TITLE.to_owned();
        if self.registration_area[n - 1].comment.contains_key(&key) {
            None
        } else {
            let path = self.registration_area[n - 1].path.clone();
            let ext = extension_or_empty(path.as_str());
            Some((path, ext))
        }
    }

    /// Commits the most recently staged entry under identifier `id`: takes
    /// it off the registration area and appends its stored record, named
    /// `id` plus the file's extension, to the store; a `title` is recorded
    /// when the entry has no title comment. Returns the new record's
    /// position. Fails, changing nothing, when nothing is staged or when
    /// the name is already used in the store.
    pub fn commit_next_with_id(&mut self, id: &str, title: Option<String>) -> (r: Result<
        usize,
        CommitError,
    >)
        requires
            old(self).wf(),
        ensures
            final(self).wf(),
            r is Err ==> *final(self) == *old(self),
            r == Err::<usize, CommitError>(CommitError::NothingStaged) <==> old(
                self,
            ).registration_area@.len() == 0,
            r == Err::<usize, CommitError>(CommitError::NameTaken) <==> old(
                self,
            ).registration_area@.len() > 0 && name_in_use(
                old(self).storage.files@,
                next_storage_name(old(self).registration_area@, id@),
            ),
            r matches Ok(pos) ==> pos == old(self).storage.files@.len() && commit_step(
                *old(self),
                id@,
                opt_view(title),
                *final(self),
            ),
    {
        let n = self.registration_area.len();
        if n == 0 {
            return Err(CommitError::NothingStaged);
        }
        let ext = extension_or_empty(self.registration_area[n - 1].path.as_str());
        let name = storage_name(id, ext.as_str());
        if self.storage.contains_name(&name) {
            return Err(CommitError::NameTaken);
        }
        let ghost before = *self;
        let pos = self.storage.files.len();
        match self.registration_area.pop() {
            Some(entry) => {
                let original_filename = file_name(entry.path.as_str());
                let mut comments = entry.comment;
                proof {
                    assert(before.registration_area@[n - 1].comment.wf());
                }
                match title {
                    Some(t) => {
                        let key = COMMENT_TITLE.to_owned();
                        if !comments.contains_key(&key) {
                            comments.insert(key, t);
                        }
                    },
                    None => {},
                }
                let info = FileInfo { filename: name, original_filename, tags: entry.tags, comments };
                self.storage.files.push(info);
                proof {
                    let f = self.storage.files@;
                    assert(f.drop_last() == before.storage.files@);
                    assert forall|j: int| 0 <= j < f.len() implies #[trigger] f[j].comments.wf() by {
                        if j < pos {
                            assert(f[j] == before.storage.files@[j]);
                        }
                    }
                    assert(distinct_tags(before.registration_area@[n - 1].tags@));
                    assert forall|j: int| 0 <= j < f.len() implies distinct_tags(#[trigger] f[j].tags@) by {
                        if j < pos {
                            assert(f[j] == before.storage.files@[j]);
                        }
                    }
                    assert forall|a: int, b: int|
                        0 <= a < f.len() && 0 <= b < f.len() && a != b implies f[a].filename@
                        != f[b].filename@ by {
                        if a < pos {
                            assert(f[a] == before.storage.files@[a]);
                        }
                        if b < pos {
                            assert(f[b] == before.storage.files@[b]);
                        }
                    }
                    let ar = self.registration_area@;
                    assert forall|j: int| 0 <= j < ar.len() implies #[trigger] ar[j].comment.wf() by {
                        assert(ar[j] == before.registration_area@[j]);
                    }
                    assert forall|j: int| 0 <= j < ar.len() implies distinct_tags(#[trigger] ar[j].tags@) by {
                        assert(ar[j] == before.registration_area@[j]);
                    }
                    assert forall|a: int, b: int|
                        0 <= a < ar.len() && 0 <= b < ar.len() && a != b implies ar[a].path@
                        != ar[b].path@ by {
                        assert(ar[a] == before.registration_area@[a]);
                        assert(ar[b] == before.registration_area@[b]);
                    }
                }
                Ok(pos)
            },
            None => Err(CommitError::NothingStaged),
        }
    }

    /// Commits the most recently staged entry under a newly drawn
    /// identifier, as `commit_next_with_id` does.
    pub fn commit_next(&mut self, title: Option<String>) -> (r: Result<usize, CommitError>)
        requires
            old(self).wf(),
        ensures
            final(self).wf(),
            r is Err ==> *final(self) == *old(self),
            r == Err::<usize, CommitError>(CommitError::NothingStaged) <==> old(
                self,
            ).registration_area@.len() == 0,
            r == Err::<usize, CommitError>(CommitError::NameTaken) ==> exists|id: Seq<char>|
                is_hyphenated_id(id) && name_in_use(
                    old(self).storage.files@,
                    next_storage_name(old(self).registration_area@, id),
                ),
            r matches Ok(pos) ==> pos == old(self).storage.files@.len() && exists|id: Seq<char>|
                is_hyphenated_id(id) && commit_step(*old(self), id, opt_view(title), *final(self)),
    {
        let n = self.registration_area.len();
        if n == 0 {
            return Err(CommitError::NothingStaged);
        }
        let name = choose_filename("");
        proof {
            reveal_strlit("");
            let id = choose|id: Seq<char>| is_hyphenated_id(id) && name@ == storage_name_of(id, ""@);
            assert(name@ == id);
        }
        self.commit_next_with_id(name.as_str(), title)
    }
}

/// Why a commit step did nothing.
#[derive(Debug, Clone, Copy, PartialEq, Eq, Structural)]
pub enum CommitError {
    /// The registration area is empty.
    NothingStaged,
    /// The generated storage name is already used in the store.
    NameTaken,
}

/// The view of an optional string.
pub open spec fn opt_view(s: Option<String>) -> Option<Seq<char>> {
    match s {
        Some(t) => Some(t@),
        None => None,
    }
}

/// Some stored entry already has storage name `name`.
pub open spec fn name_in_use(files: Seq<FileInfo>, name: Seq<char>) -> bool {
    exists|i: int| 0 <= i < files.len() && #[trigger] files[i].filename@ == name
}

/// The storage name that the last staged entry gets under identifier `id`.
pub open spec fn next_storage_name(area: Seq<AddedFile>, id: Seq<char>) -> Seq<char> {
    storage_name_of(id, extension_text(area.last().path@))
}

/// The comments of a committed entry: a `title` is added when the staged
/// entry has no title comment.
pub open spec fn with_title(c: Map<Seq<char>, Seq<char>>, title: Option<Seq<char>>) -> Map<
    Seq<char>,
    Seq<char>,
> {
    match title {
        Some(t) => if c.contains_key(COMMENT_TITLE@) {
            c
        } else {
            c.insert(COMMENT_TITLE@, t)
        },
        None => c,
    }
}

/// `info` is the stored record of staged entry `entry` under identifier `id`.
pub open spec fn stored_record(
    entry: AddedFile,
    id: Seq<char>,
    title: Option<Seq<char>>,
    info: FileInfo,
) -> bool {
    &&& info.filename@ == storage_name_of(id, extension_text(entry.path@))
    &&& info.original_filename is Some <==> file_name_of(entry.path@) is Some
    &&& info.original_filename matches Some(n) ==> file_name_of(entry.path@) == Some(n@)
    &&& info.tags == entry.tags
    &&& info.comments@ == with_title(entry.comment@, title)
}

/// `after` is `before` with its most recently staged entry committed under
/// a storage name that was not in use.
pub open spec fn commit_step(
    before: State,
    id: Seq<char>,
    title: Option<Seq<char>>,
    after: State,
) -> bool {
    let area = before.registration_area@;
    let files = before.storage.files@;
    &&& area.len() > 0
    &&& !name_in_use(files, next_storage_name(area, id))
    &&& after.registration_area@ == area.drop_last()
    &&& after.storage.files@.len() == files.len() + 1
    &&& after.storage.files@.drop_last() == files
    &&& stored_record(area.last(), id, title, after.storage.files@.last())
    &&& after.last_registration == before.last_registration
}

/// What a commit does outside memory for each entry.
#[derive(Debug, Clone, Copy, PartialEq, Eq, Structural)]
pub struct CommitEffects {
    /// Copy the file's bytes into the content store.
    pub copy: bool,
    /// Send the original file to the trash after copying.
    pub trash_original: bool,
    /// Write the whole state out after the entry is recorded.
    pub persist: bool,
}

/// The outside effects of committing one entry: a dry run copies, trashes
/// and persists nothing; otherwise the file is copied and the state
/// persisted, and the original trashed unless the commit is soft.
pub fn commit_effects(dry: bool, soft: bool) -> (r: CommitEffects)
    ensures
        r.copy == !dry,
        r.persist == !dry,
        r.trash_original == (!dry && !soft),
{
    CommitEffects { copy: !dry, trash_original: !dry && !soft, persist: !dry }
}

} // verus!

verus! {

/// Dropping by a final path component removes exactly the entries with that
/// component: none of them is left, every other entry stays, and when no
/// entry has it the registration area is unchanged.
pub proof fn lemma_drop_removes_exactly(area: Seq<AddedFile>, name: Seq<char>)
    ensures
        forall|i: int|
            0 <= i < kept(area, name).len() ==> !dropped_by(#[trigger] kept(area, name)[i], name),
        forall|j: int|
            0 <= j < area.len() && !dropped_by(#[trigger] area[j], name) ==> kept(
                area,
                name,
            ).contains(area[j]),
        (forall|j: int| 0 <= j < area.len() ==> !dropped_by(#[trigger] area[j], name)) ==> kept(
            area,
            name,
        ) == area,
    decreases area.len(),
{
    if area.len() > 0 {
        let rest = area.skip(1);
        lemma_drop_removes_exactly(rest, name);
        let kr = kept(rest, name);
        let k = kept(area, name);
        if dropped_by(area[0], name) {
            assert forall|j: int|
                0 <= j < area.len() && !dropped_by(#[trigger] area[j], name) implies k.contains(
                area[j],
            ) by {
                assert(rest[j - 1] == area[j]);
            }
        } else {
            assert(k == seq![area[0]] + kr);
            assert forall|i: int| 0 <= i < k.len() implies !dropped_by(#[trigger] k[i], name) by {
                if i > 0 {
                    assert(k[i] == kr[i - 1]);
                }
            }
            assert forall|j: int|
                0 <= j < area.len() && !dropped_by(#[trigger] area[j], name) implies k.contains(
                area[j],
            ) by {
                if j == 0 {
                    assert(k[0] == area[0]);
                } else {
                    assert(rest[j - 1] == area[j]);
                    let x = choose|x: int| 0 <= x < kr.len() && kr[x] == area[j];
                    assert(k[x + 1] == area[j]);
                }
            }
            if forall|j: int| 0 <= j < area.len() ==> !dropped_by(#[trigger] area[j], name) {
                assert forall|j: int| 0 <= j < rest.len() implies !dropped_by(
                    #[trigger] rest[j],
                    name,
                ) by {
                    assert(rest[j] == area[j + 1]);
                }
                assert(seq![area[0]] + rest == area);
            }
        }
    }
}

/// Committing drains the registration area, most recent entry first: after
/// one successful commit step per staged entry nothing is staged, the store
/// keeps its earlier records and has gained one record per entry, the k-th
/// new record stores the k-th entry counted from the end of the area, and
/// every storage name in the store is distinct.
pub proof fn lemma_commit_drains(
    states: Seq<State>,
    ids: Seq<Seq<char>>,
    titles: Seq<Option<Seq<char>>>,
)
    requires
        states.len() == ids.len() + 1,
        titles.len() == ids.len(),
        states[0].wf(),
        states[0].registration_area@.len() == ids.len(),
        forall|k: int|
            0 <= k < ids.len() ==> #[trigger] commit_step(states[k], ids[k], titles[k], states[k + 1]),
    ensures
        ({
            let n = ids.len() as int;
            let area = states[0].registration_area@;
            let before = states[0].storage.files@;
            let after = states[n].storage.files@;
            &&& states[n].registration_area@.len() == 0
            &&& after.len() == before.len() + n
            &&& after.take(before.len() as int) == before
            &&& forall|k: int|
                0 <= k < n ==> #[trigger] stored_record(
                    area[n - 1 - k],
                    ids[k],
                    titles[k],
                    after[before.len() + k],
                )
            &&& distinct_names(after)
        }),
{
    lemma_commit_prefix(states, ids, titles, ids.len() as int);
    assert(states[0].registration_area@.take(0).len() == 0);
}

/// The draining law after the first `m` steps.
proof fn lemma_commit_prefix(
    states: Seq<State>,
    ids: Seq<Seq<char>>,
    titles: Seq<Option<Seq<char>>>,
    m: int,
)
    requires
        states.len() == ids.len() + 1,
        titles.len() == ids.len(),
        states[0].wf(),
        states[0].registration_area@.len() == ids.len(),
        forall|k: int|
            0 <= k < ids.len() ==> #[trigger] commit_step(states[k], ids[k], titles[k], states[k + 1]),
        0 <= m <= ids.len(),
    ensures
        ({
            let n = ids.len() as int;
            let area = states[0].registration_area@;
            let before = states[0].storage.files@;
            let now = states[m].storage.files@;
            &&& states[m].registration_area@ == area.take(n - m)
            &&& now.len() == before.len() + m
            &&& now.take(before.len() as int) == before
            &&& forall|k: int|
                0 <= k < m ==> #[trigger] stored_record(
                    area[n - 1 - k],
                    ids[k],
                    titles[k],
                    now[before.len() + k],
                )
            &&& distinct_names(now)
        }),
    decreases m,
{
    let n = ids.len() as int;
    let area = states[0].registration_area@;
    let before = states[0].storage.files@;
    if m == 0 {
        assert(area.take(n) == area);
        assert(before.take(before.len() as int) == before);
    } else {
        lemma_commit_prefix(states, ids, titles, m - 1);
        let prev = states[m - 1].storage.files@;
        let now = states[m].storage.files@;
        let j = m - 1;
        assert(commit_step(states[j], ids[j], titles[j], states[j + 1]));
        assert(j + 1 == m);
        let cur_area = states[m - 1].registration_area@;
        assert(cur_area == area.take(n - m + 1));
        assert(cur_area.last() == area[n - m]);
        assert(states[m].registration_area@ == area.take(n - m + 1).drop_last());
        assert(area.take(n - m + 1).drop_last() == area.take(n - m));
        assert(now.drop_last() == prev);
        assert forall|i: int| 0 <= i < prev.len() implies #[trigger] now[i] == prev[i] by {
            assert(now.drop_last()[i] == now[i]);
        }
        assert(now.take(before.len() as int) =~= before) by {
            assert forall|i: int| 0 <= i < before.len() implies now[i] == before[i] by {
                assert(prev.take(before.len() as int)[i] == prev[i]);
            }
        }
        assert forall|k: int| 0 <= k < m implies #[trigger] stored_record(
            area[n - 1 - k],
            ids[k],
            titles[k],
            now[before.len() + k],
        ) by {
            if k < m - 1 {
                assert(now[before.len() + k] == prev[before.len() + k]);
            } else {
                assert(now.last() == now[before.len() + k]);
            }
        }
        let name = next_storage_name(cur_area, ids[m - 1]);
        assert(now.last().filename@ == name);
        assert forall|a: int, b: int|
            0 <= a < now.len() && 0 <= b < now.len() && a != b implies now[a].filename@
            != now[b].filename@ by {
            if a < prev.len() && b < prev.len() {
                assert(now[a] == prev[a]);
                assert(now[b] == prev[b]);
            } else if a < prev.len() {
                assert(now[a] == prev[a]);
                assert(b == prev.len());
                assert(!name_in_use(prev, name));
            } else {
                assert(now[b] == prev[b]);
                assert(a == prev.len());
                assert(!name_in_use(prev, name));
            }
        }
    }
}

/// Staging a path that is already staged merges into its entry: the entry
/// then holds every tag of both stagings, without repeats, and the number
/// of duplicates reported is the number of tags the two stagings share
/// (for a new tag list without repeats).
pub proof fn lemma_restage_merges(
    a: AddedFile,
    b: AddedFile,
    tags: Seq<String>,
    comment: Option<String>,
    replace_comment: bool,
    r: Staged,
)
    requires
        merged_entry(a, b, tags, comment, replace_comment, r),
        distinct_tags(a.tags@),
        distinct_tags(tags),
    ensures
        b.path == a.path,
        distinct_tags(b.tags@),
        tag_set(b.tags@) == tag_set(a.tags@).union(tag_set(tags)),
        r matches Staged::Merged { duplicates, comment_replaced } && duplicates == tag_set(
            a.tags@,
        ).intersect(tag_set(tags)).len(),
{
    if let Staged::Merged { duplicates, comment_replaced } = r {
        lemma_merge_duplicates(a.tags@, tags, b.tags@, duplicates as int);
    }
}

} // verus!
