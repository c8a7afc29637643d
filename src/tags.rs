//! Tag lists: case-sensitive strings kept without duplicates.

use vstd::prelude::*;

verus! {

/// The set of tags that a list holds.
pub open spec fn tag_set(tags: Seq<String>) -> Set<Seq<char>> {
    Set::new(|t: Seq<char>| exists|i: int| 0 <= i < tags.len() && #[trigger] tags[i]@ == t)
}

/// No tag occurs twice in the list.
pub open spec fn distinct_tags(tags: Seq<String>) -> bool {
    forall|i: int, j: int|
        0 <= i < tags.len() && 0 <= j < tags.len() && i != j ==> tags[i]@ != tags[j]@
}

/// Whether `tag` occurs in `tags`.
pub fn contains_tag(tags: &Vec<String>, tag: &String) -> (r: bool)
    ensures
        r == tag_set(tags@).contains(tag@),
{
    let mut i: usize = 0;
    while i < tags.len()
        invariant
            i <= tags@.len(),
            forall|k: int| 0 <= k < i ==> #[trigger] tags@[k]@ != tag@,
        decreases tags@.len() - i,
    {
        if tags[i] == *tag {
            assert(tags@[i as int]@ == tag@);
            return true;
        }
        i = i + 1;
    }
    false
}

/// Appends to `acc` each item of `items` that it does not hold yet, and
/// returns how many were skipped as duplicates.
fn push_distinct(acc: &mut Vec<String>, items: &Vec<String>) -> (skipped: usize)
    requires
        distinct_tags(old(acc)@),
    ensures
        distinct_tags(final(acc)@),
        tag_set(final(acc)@) == tag_set(old(acc)@).union(tag_set(items@)),
        skipped + final(acc)@.len() == old(acc)@.len() + items@.len(),
        old(acc)@.is_prefix_of(final(acc)@),
{
    let ghost start = acc@;
    let mut skipped: usize = 0;
    let mut i: usize = 0;
    while i < items.len()
        invariant
            i <= items@.len(),
            distinct_tags(acc@),
            start.is_prefix_of(acc@),
            skipped <= i,
            skipped + acc@.len() == start.len() + i,
            tag_set(acc@) == tag_set(start).union(tag_set(items@.take(i as int))),
        decreases items@.len() - i,
    {
        let ghost before = acc@;
        let present = contains_tag(acc, &items[i]);
        if present {
            skipped = skipped + 1;
        } else {
            acc.push(items[i].clone());
            assert(acc@.drop_last() == before);
            assert forall|a: int, b: int|
                0 <= a < acc@.len() && 0 <= b < acc@.len() && a != b implies acc@[a]@
                != acc@[b]@ by {
                if a == acc@.len() - 1 {
                    assert(before[b]@ == acc@[b]@);
                } else if b == acc@.len() - 1 {
                    assert(before[a]@ == acc@[a]@);
                }
            }
        }
        proof {
            let t = items@.take(i + 1);
            assert(t.drop_last() == items@.take(i as int));
            assert(tag_set(acc@) =~= tag_set(start).union(tag_set(t))) by {
                assert forall|x: Seq<char>| #[trigger] tag_set(acc@).contains(x) implies tag_set(
                    start,
                ).union(tag_set(t)).contains(x) by {
                    let k = choose|k: int| 0 <= k < acc@.len() && #[trigger] acc@[k]@ == x;
                    if k < before.len() {
                        assert(before[k]@ == x);
                        assert(tag_set(before).contains(x));
                        if !tag_set(start).contains(x) {
                            let m = choose|m: int|
                                0 <= m < items@.take(i as int).len()
                                    && #[trigger] items@.take(i as int)[m]@ == x;
                            assert(t[m]@ == x);
                        }
                    } else {
                        assert(t[i as int]@ == x);
                    }
                }
                assert forall|x: Seq<char>| #[trigger] tag_set(start).union(tag_set(t)).contains(
                    x,
                ) implies tag_set(acc@).contains(x) by {
                    if tag_set(start).contains(x) {
                        assert(tag_set(before).contains(x));
                        let k = choose|k: int| 0 <= k < before.len() && #[trigger] before[k]@ == x;
                        assert(acc@[k]@ == x);
                    } else {
                        let m = choose|m: int| 0 <= m < t.len() && #[trigger] t[m]@ == x;
                        if m < i {
                            assert(items@.take(i as int)[m]@ == x);
                            assert(tag_set(before).contains(x));
                            let k = choose|k: int|
                                0 <= k < before.len() && #[trigger] before[k]@ == x;
                            assert(acc@[k]@ == x);
                        } else if present {
                            let k = choose|k: int|
                                0 <= k < before.len() && #[trigger] before[k]@ == x;
                            assert(acc@[k]@ == x);
                        } else {
                            assert(acc@[acc@.len() - 1]@ == x);
                        }
                    }
                }
            }
        }
        i = i + 1;
    }
    assert(items@.take(items@.len() as int) == items@);
    skipped
}

/// Merges `new_tags` into the repeat-free list `tags`, dropping every
/// duplicate, and returns how many tags were dropped: the combined count
/// before merging minus the count after.
pub fn merge_tags(tags: &mut Vec<String>, new_tags: &Vec<String>) -> (duplicates: usize)
    requires
        distinct_tags(old(tags)@),
    ensures
        distinct_tags(final(tags)@),
        tag_set(final(tags)@) == tag_set(old(tags)@).union(tag_set(new_tags@)),
        duplicates + final(tags)@.len() == old(tags)@.len() + new_tags@.len(),
{
    push_distinct(tags, new_tags)
}

/// Whether no tag occurs twice in `tags`.
pub fn tags_are_distinct(tags: &Vec<String>) -> (r: bool)
    ensures
        r == distinct_tags(tags@),
{
    let n = tags.len();
    let mut i: usize = 0;
    while i < n
        invariant
            n == tags@.len(),
            i <= n,
            forall|a: int, b: int| 0 <= a < i && 0 <= b < n && a != b ==> tags@[a]@ != tags@[b]@,
        decreases n - i,
    {
        let mut j: usize = 0;
        while j < n
            invariant
                n == tags@.len(),
                i < n,
                j <= n,
                forall|a: int, b: int|
                    0 <= a < i && 0 <= b < n && a != b ==> tags@[a]@ != tags@[b]@,
                forall|b: int| 0 <= b < j && b != i ==> tags@[i as int]@ != tags@[b]@,
            decreases n - j,
        {
            if j != i && tags[i] == tags[j] {
                assert(tags@[i as int]@ == tags@[j as int]@);
                return false;
            }
            j = j + 1;
        }
        i = i + 1;
    }
    true
}

/// A repeat-free list has as many tags as the set it holds.
pub proof fn lemma_distinct_len(tags: Seq<String>)
    requires
        distinct_tags(tags),
    ensures
        tag_set(tags).finite(),
        tag_set(tags).len() == tags.len(),
    decreases tags.len(),
{
    if tags.len() == 0 {
        assert(tag_set(tags) =~= Set::empty());
    } else {
        let init = tags.drop_last();
        assert(distinct_tags(init));
        lemma_distinct_len(init);
        let last = tags[tags.len() - 1];
        assert(tag_set(tags) =~= tag_set(init).insert(last@)) by {
            assert forall|x: Seq<char>| tag_set(tags).contains(x) implies tag_set(init).insert(
                last@,
            ).contains(x) by {
                let k = choose|k: int| 0 <= k < tags.len() && #[trigger] tags[k]@ == x;
                if k < tags.len() - 1 {
                    assert(init[k]@ == x);
                }
            }
            assert forall|x: Seq<char>| tag_set(init).insert(last@).contains(x) implies tag_set(
                tags,
            ).contains(x) by {
                if x != last@ {
                    let k = choose|k: int| 0 <= k < init.len() && #[trigger] init[k]@ == x;
                    assert(tags[k]@ == x);
                }
            }
        }
        assert(!tag_set(init).contains(last@)) by {
            if tag_set(init).contains(last@) {
                let k = choose|k: int| 0 <= k < init.len() && #[trigger] init[k]@ == last@;
                assert(tags[k]@ == last@);
            }
        }
    }
}

/// Merging repeat-free lists drops exactly the tags they share.
pub proof fn lemma_merge_duplicates(old_tags: Seq<String>, new_tags: Seq<String>, merged: Seq<String>, duplicates: int)
    requires
        distinct_tags(old_tags),
        distinct_tags(new_tags),
        distinct_tags(merged),
        tag_set(merged) == tag_set(old_tags).union(tag_set(new_tags)),
        duplicates + merged.len() == old_tags.len() + new_tags.len(),
    ensures
        duplicates == tag_set(old_tags).intersect(tag_set(new_tags)).len(),
{
    lemma_distinct_len(old_tags);
    lemma_distinct_len(new_tags);
    lemma_distinct_len(merged);
    vstd::set_lib::lemma_set_intersect_union_lens(tag_set(old_tags), tag_set(new_tags));
}

} // verus!
