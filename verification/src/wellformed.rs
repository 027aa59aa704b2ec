use vstd::prelude::*;
use crate::filesystem::{FilePermission, FileType};
use crate::model::{
    alloc_spec, alloc_target, apart, append_fits, blocked, distinct_names, entry_wf, free_after,
    has_entry, index_of, insert_spec, kept, next_after, next_pages, nth_alloc, pages_apart,
    pages_needed, permitted, released, rm_spec, sweep_stop, EntryView, FsState, PAGE_SIZE,
};
use crate::path::{resolve, under};

verus! {

/// In a table without duplicates the entry under a path is found at one
/// position only.
pub proof fn lemma_index_of(entries: Seq<EntryView>, path: Seq<char>, i: int)
    requires
        distinct_names(entries),
        0 <= i < entries.len(),
        entries[i].name == path,
    ensures
        has_entry(entries, path),
        index_of(entries, path) == i,
{
    let j = index_of(entries, path);
    assert(0 <= j < entries.len() && entries[j].name == path);
    if j < i {
        assert(entries[j].name != entries[i].name);
    }
    if i < j {
        assert(entries[i].name != entries[j].name);
    }
}

/// An allocation keeps the invariant.
pub proof fn lemma_alloc_wf(s: FsState, c: Seq<u8>, limit: nat, size: u64)
    requires
        s.wf(),
        limit <= u64::MAX,
    ensures
        alloc_spec(s, c, limit, size).1.wf(),
{
    let t = alloc_spec(s, c, limit, size).1;
    if t != s {
        if s.free_list.len() > 0 {
            assert forall|f: int| 0 <= f < t.free_list.len() implies (#[trigger] t.free_list[f])
                + PAGE_SIZE <= t.next_offset by {
                assert(t.free_list[f] == s.free_list[f + 1]);
            }
            assert forall|f: int, g: int| 0 <= f < g < t.free_list.len() implies apart(
                #[trigger] t.free_list[f],
                #[trigger] t.free_list[g],
            ) by {
                assert(t.free_list[f] == s.free_list[f + 1]);
                assert(t.free_list[g] == s.free_list[g + 1]);
            }
            assert forall|i: int| 0 <= i < t.entries.len() implies pages_apart(
                (#[trigger] t.entries[i]).pages,
                t.free_list,
            ) by {
                assert(pages_apart(s.entries[i].pages, s.free_list));
                assert forall|k: int, l: int|
                    0 <= k < t.entries[i].pages.len() && 0 <= l < t.free_list.len() implies apart(
                    #[trigger] t.entries[i].pages[k],
                    #[trigger] t.free_list[l],
                ) by {
                    assert(t.free_list[l] == s.free_list[l + 1]);
                }
            }
        } else {
            assert forall|i: int| 0 <= i < t.entries.len() implies entry_wf(
                #[trigger] t.entries[i],
                t.next_offset,
            ) by {
                assert(entry_wf(s.entries[i], s.next_offset));
            }
        }
    }
}

/// The allocation after `j` earlier ones hands out the `j`-th page of the
/// order and moves the store one step on.
pub proof fn lemma_alloc_advances(free: Seq<u64>, next: nat, j: int)
    requires
        0 <= j,
    ensures
        alloc_target(free_after(free, j), next_after(free, next, j)) == nth_alloc(free, next, j),
        free_after(free, j).len() > 0 ==> free_after(free, j).skip(1) == free_after(free, j + 1)
            && next_after(free, next, j) == next_after(free, next, j + 1),
        free_after(free, j).len() == 0 ==> free_after(free, j) == free_after(free, j + 1)
            && next_after(free, next, j) + PAGE_SIZE == next_after(free, next, j + 1),
{
    if j < free.len() {
        assert(free_after(free, j).skip(1) =~= free_after(free, j + 1));
    } else {
        assert(free_after(free, j) =~= free_after(free, j + 1));
    }
}

/// The state after entry `i` grew by `len` bytes.
pub open spec fn grown(s: FsState, i: int, len: int) -> FsState {
    let e = s.entries[i];
    let count = pages_needed(e, len);
    FsState {
        entries: s.entries.update(
            i,
            EntryView {
                size: (e.size + len) as nat,
                pages: e.pages + next_pages(s.free_list, s.next_offset, count),
                ..e
            },
        ),
        free_list: free_after(s.free_list, count),
        next_offset: next_after(s.free_list, s.next_offset, count),
        ..s
    }
}

/// An append that fits keeps the invariant.
#[verifier::rlimit(40)]
pub proof fn lemma_grow_wf(s: FsState, i: int, len: int, limit: nat)
    requires
        s.wf(),
        0 <= i < s.entries.len(),
        len > 0,
        limit <= u64::MAX,
        append_fits(s.entries[i], s.free_list, s.next_offset, len, limit),
    ensures
        grown(s, i, len).wf(),
        pages_needed(s.entries[i], len) >= 0,
{
    let e = s.entries[i];
    let count = pages_needed(e, len);
    let free = s.free_list;
    let next = s.next_offset;
    let fl = free.len() as int;
    let fresh = next_pages(free, next, count);
    let t = grown(s, i, len);
    let e2 = t.entries[i];
    assert(entry_wf(e, next));
    assert(count >= 0);
    assert(pages_apart(e.pages, free));
    assert forall|j: int| 0 <= j < count implies (#[trigger] fresh[j]) == nth_alloc(free, next, j)
        && fresh[j] + PAGE_SIZE <= t.next_offset && (j >= fl ==> fresh[j] >= next) && (j < fl
        ==> fresh[j] == free[j]) by {
        assert(nth_alloc(free, next, j) + PAGE_SIZE <= limit);
        if j < fl {
            assert(free[j] + PAGE_SIZE <= next);
        }
    }
    if count > fl {
        assert(nth_alloc(free, next, count - 1) + PAGE_SIZE <= limit);
    }
    assert(t.next_offset <= u64::MAX);
    assert(t.next_offset >= next);
    assert forall|a: int, b: int| 0 <= a < b < t.entries.len() implies (#[trigger] t.entries[a]).name
        != (#[trigger] t.entries[b]).name by {
        assert(s.entries[a].name != s.entries[b].name);
    }
    assert forall|k: int, l: int| 0 <= k < l < e2.pages.len() implies apart(
        #[trigger] e2.pages[k],
        #[trigger] e2.pages[l],
    ) by {
        let m = e.pages.len() as int;
        if l < m {
            assert(apart(e.pages[k], e.pages[l]));
        } else if k < m {
            assert(e.pages[k] + PAGE_SIZE <= next);
            assert(e2.pages[l] == fresh[l - m]);
            if l - m < fl {
                assert(apart(e.pages[k], free[l - m]));
            }
        } else {
            assert(e2.pages[k] == fresh[k - m]);
            assert(e2.pages[l] == fresh[l - m]);
            if l - m < fl {
                assert(apart(free[k - m], free[l - m]));
            } else if k - m < fl {
                assert(free[k - m] + PAGE_SIZE <= next);
            }
        }
    }
    assert forall|k: int| 0 <= k < e2.pages.len() implies (#[trigger] e2.pages[k]) + PAGE_SIZE
        <= t.next_offset by {
        let m = e.pages.len() as int;
        if k < m {
            assert(e.pages[k] + PAGE_SIZE <= next);
        } else {
            assert(e2.pages[k] == fresh[k - m]);
        }
    }
    assert(entry_wf(e2, t.next_offset));
    assert forall|a: int| 0 <= a < t.entries.len() implies entry_wf(
        #[trigger] t.entries[a],
        t.next_offset,
    ) by {
        if a != i {
            assert(entry_wf(s.entries[a], next));
        }
    }
    assert forall|a: int| 0 <= a < t.entries.len() && a != i implies pages_apart(
        (#[trigger] t.entries[a]).pages,
        e2.pages,
    ) && pages_apart(e2.pages, t.entries[a].pages) by {
        let o = s.entries[a];
        let m = e.pages.len() as int;
        assert(entry_wf(o, next));
        assert(pages_apart(o.pages, free));
        if a < i {
            assert(pages_apart(s.entries[a].pages, s.entries[i].pages));
        } else {
            assert(pages_apart(s.entries[i].pages, s.entries[a].pages));
        }
        assert forall|k: int, l: int| 0 <= k < o.pages.len() && 0 <= l < e2.pages.len() implies apart(
            #[trigger] o.pages[k],
            #[trigger] e2.pages[l],
        ) by {
            assert(o.pages[k] + PAGE_SIZE <= next);
            if l < m {
                assert(apart(o.pages[k], e.pages[l]) || apart(e.pages[l], o.pages[k]));
            } else {
                assert(e2.pages[l] == fresh[l - m]);
                if l - m < fl {
                    assert(apart(o.pages[k], free[l - m]));
                }
            }
        }
    }
    assert forall|a: int, b: int| 0 <= a < b < t.entries.len() implies pages_apart(
        (#[trigger] t.entries[a]).pages,
        (#[trigger] t.entries[b]).pages,
    ) by {
        if a != i && b != i {
            assert(pages_apart(s.entries[a].pages, s.entries[b].pages));
        }
    }
    assert forall|g: int| 0 <= g < t.free_list.len() implies (#[trigger] t.free_list[g]) == free[g
        + count] by {}
    assert forall|a: int| 0 <= a < t.entries.len() implies pages_apart(
        (#[trigger] t.entries[a]).pages,
        t.free_list,
    ) by {
        assert(pages_apart(s.entries[a].pages, free));
        let m = e.pages.len() as int;
        assert forall|k: int, l: int|
            0 <= k < t.entries[a].pages.len() && 0 <= l < t.free_list.len() implies apart(
            #[trigger] t.entries[a].pages[k],
            #[trigger] t.free_list[l],
        ) by {
            assert(t.free_list[l] == free[l + count]);
            if a == i && k >= m {
                assert(e2.pages[k] == fresh[k - m]);
                assert(apart(free[k - m], free[l + count]));
            } else {
                assert(t.entries[a].pages[k] == s.entries[a].pages[k]);
                assert(apart(s.entries[a].pages[k], free[l + count]));
            }
        }
    }
    assert forall|f: int| 0 <= f < t.free_list.len() implies (#[trigger] t.free_list[f])
        + PAGE_SIZE <= t.next_offset by {
        assert(free[f + count] + PAGE_SIZE <= next);
    }
    assert forall|f: int, g: int| 0 <= f < g < t.free_list.len() implies apart(
        #[trigger] t.free_list[f],
        #[trigger] t.free_list[g],
    ) by {
        assert(apart(free[f + count], free[g + count]));
    }
}

/// `e` is one of the first `upto` entries.
pub open spec fn among(entries: Seq<EntryView>, upto: int, e: EntryView) -> bool {
    exists|b: int| 0 <= b < upto && b < entries.len() && #[trigger] entries[b] == e
}

/// `p` is a page of a file below `dir` among the first `upto` entries.
pub open spec fn page_below(entries: Seq<EntryView>, dir: Seq<char>, upto: int, p: u64) -> bool {
    exists|b: int, l: int|
        0 <= b < upto && b < entries.len() && under(entries[b].name, dir) && entries[b].kind
            == FileType::File && 0 <= l < entries[b].pages.len() && #[trigger] entries[b].pages[l]
            == p
}

/// `p` is a page of an entry of `entries` whose name `rest` does not hold.
pub open spec fn page_dropped(entries: Seq<EntryView>, rest: Seq<EntryView>, p: u64) -> bool {
    exists|b: int, l: int|
        0 <= b < entries.len() && !has_entry(rest, entries[b].name) && 0 <= l
            < entries[b].pages.len() && #[trigger] entries[b].pages[l] == p
}

/// What `kept` holds: exactly the entries among the first `upto` that do not
/// lie below `dir`, each once.
pub proof fn lemma_kept(entries: Seq<EntryView>, dir: Seq<char>, upto: int)
    requires
        0 <= upto <= entries.len(),
    ensures
        kept(entries, dir, upto).len() <= upto,
        forall|a: int|
            0 <= a < kept(entries, dir, upto).len() ==> among(
                entries,
                upto,
                #[trigger] kept(entries, dir, upto)[a],
            ) && !under(kept(entries, dir, upto)[a].name, dir),
        forall|b: int|
            0 <= b < upto && !under(entries[b].name, dir) ==> among(
                kept(entries, dir, upto),
                kept(entries, dir, upto).len() as int,
                #[trigger] entries[b],
            ),
        distinct_names(entries) ==> distinct_names(kept(entries, dir, upto)),
    decreases upto,
{
    if upto > 0 {
        lemma_kept(entries, dir, upto - 1);
        let before = kept(entries, dir, upto - 1);
        let now = kept(entries, dir, upto);
        let x = entries[upto - 1];
        assert forall|a: int| 0 <= a < now.len() implies among(entries, upto, #[trigger] now[a])
            && !under(now[a].name, dir) by {
            if a < before.len() {
                assert(now[a] == before[a]);
                assert(among(entries, upto - 1, before[a]));
                let b = choose|b: int| 0 <= b < upto - 1 && b < entries.len() && #[trigger] entries[b] == before[a];
                assert(entries[b] == now[a]);
            } else {
                assert(now[a] == x);
            }
        }
        assert forall|b: int| 0 <= b < upto && !under(entries[b].name, dir) implies among(
            now,
            now.len() as int,
            #[trigger] entries[b],
        ) by {
            if b < upto - 1 {
                assert(among(before, before.len() as int, entries[b]));
                let a = choose|a: int| 0 <= a < before.len() && #[trigger] before[a] == entries[b];
                assert(now[a] == entries[b]);
            } else {
                assert(now[now.len() - 1] == entries[b]);
            }
        }
        if distinct_names(entries) {
            assert forall|a: int, a2: int| 0 <= a < a2 < now.len() implies (#[trigger] now[a]).name
                != (#[trigger] now[a2]).name by {
                if a2 < before.len() {
                    assert(before[a].name != before[a2].name);
                } else {
                    assert(now[a2] == x);
                    assert(among(entries, upto - 1, before[a]));
                    let b = choose|b: int| 0 <= b < upto - 1 && b < entries.len() && #[trigger] entries[b] == before[a];
                    assert(entries[b].name != entries[upto - 1].name);
                }
            }
        }
    }
}

/// What `released` holds: pages of files below `dir`, no two overlapping.
pub proof fn lemma_released(s: FsState, dir: Seq<char>, upto: int)
    requires
        s.wf(),
        0 <= upto <= s.entries.len(),
    ensures
        forall|f: int|
            0 <= f < released(s.entries, dir, upto).len() ==> page_below(
                s.entries,
                dir,
                upto,
                #[trigger] released(s.entries, dir, upto)[f],
            ),
        forall|f: int, g: int|
            0 <= f < g < released(s.entries, dir, upto).len() ==> apart(
                #[trigger] released(s.entries, dir, upto)[f],
                #[trigger] released(s.entries, dir, upto)[g],
            ),
    decreases upto,
{
    if upto > 0 {
        lemma_released(s, dir, upto - 1);
        let entries = s.entries;
        let before = released(entries, dir, upto - 1);
        let now = released(entries, dir, upto);
        let x = entries[upto - 1];
        assert(entry_wf(x, s.next_offset));
        assert forall|f: int| 0 <= f < now.len() implies page_below(entries, dir, upto, #[trigger] now[f]) by {
            if f < before.len() {
                assert(now[f] == before[f]);
                assert(page_below(entries, dir, upto - 1, before[f]));
                let (b, l) = choose|b: int, l: int|
                    0 <= b < upto - 1 && b < entries.len() && under(entries[b].name, dir) && entries[b].kind
                        == FileType::File && 0 <= l < entries[b].pages.len() && #[trigger] entries[b].pages[l]
                        == before[f];
                assert(entries[b].pages[l] == now[f]);
            } else {
                assert(x.pages[f - before.len()] == now[f]);
            }
        }
        assert forall|f: int, g: int| 0 <= f < g < now.len() implies apart(
            #[trigger] now[f],
            #[trigger] now[g],
        ) by {
            if g < before.len() {
                assert(apart(before[f], before[g]));
            } else if f < before.len() {
                assert(page_below(entries, dir, upto - 1, before[f]));
                let (b, l) = choose|b: int, l: int|
                    0 <= b < upto - 1 && b < entries.len() && under(entries[b].name, dir) && entries[b].kind
                        == FileType::File && 0 <= l < entries[b].pages.len() && #[trigger] entries[b].pages[l]
                        == before[f];
                assert(pages_apart(entries[b].pages, entries[upto - 1].pages));
                assert(apart(entries[b].pages[l], x.pages[g - before.len()]));
            } else {
                assert(apart(x.pages[f - before.len()], x.pages[g - before.len()]));
            }
        }
    }
}

/// Dropping entries and handing pages of dropped entries to the free list
/// keeps the invariant.
#[verifier::rlimit(40)]
pub proof fn lemma_shrink_wf(s: FsState, rest: Seq<EntryView>, freed: Seq<u64>)
    requires
        s.wf(),
        distinct_names(rest),
        forall|a: int| 0 <= a < rest.len() ==> among(s.entries, s.entries.len() as int, #[trigger] rest[a]),
        forall|f: int| 0 <= f < freed.len() ==> page_dropped(s.entries, rest, #[trigger] freed[f]),
        forall|f: int, g: int| 0 <= f < g < freed.len() ==> apart(#[trigger] freed[f], #[trigger] freed[g]),
    ensures
        (FsState { entries: rest, free_list: s.free_list + freed, ..s }).wf(),
{
    let t = FsState { entries: rest, free_list: s.free_list + freed, ..s };
    let n = s.free_list.len() as int;
    assert forall|a: int| 0 <= a < rest.len() implies entry_wf(#[trigger] rest[a], s.next_offset)
        && pages_apart(rest[a].pages, t.free_list) by {
        let b = choose|b: int| 0 <= b < s.entries.len() && #[trigger] s.entries[b] == rest[a];
        assert(entry_wf(s.entries[b], s.next_offset));
        assert(pages_apart(s.entries[b].pages, s.free_list));
        assert forall|k: int, l: int|
            0 <= k < rest[a].pages.len() && 0 <= l < t.free_list.len() implies apart(
            #[trigger] rest[a].pages[k],
            #[trigger] t.free_list[l],
        ) by {
            if l < n {
                assert(apart(s.entries[b].pages[k], s.free_list[l]));
            } else {
                assert(t.free_list[l] == freed[l - n]);
                assert(page_dropped(s.entries, rest, freed[l - n]));
                let (b2, l2) = choose|b2: int, l2: int|
                    0 <= b2 < s.entries.len() && !has_entry(rest, s.entries[b2].name) && 0 <= l2
                        < s.entries[b2].pages.len() && #[trigger] s.entries[b2].pages[l2] == freed[l
                        - n];
                assert(b2 != b);
                if b < b2 {
                    assert(pages_apart(s.entries[b].pages, s.entries[b2].pages));
                } else {
                    assert(pages_apart(s.entries[b2].pages, s.entries[b].pages));
                }
                assert(apart(s.entries[b].pages[k], s.entries[b2].pages[l2]));
            }
        }
    }
    assert forall|a: int, a2: int| 0 <= a < a2 < rest.len() implies pages_apart(
        (#[trigger] rest[a]).pages,
        (#[trigger] rest[a2]).pages,
    ) by {
        let b = choose|b: int| 0 <= b < s.entries.len() && #[trigger] s.entries[b] == rest[a];
        let b2 = choose|b: int| 0 <= b < s.entries.len() && #[trigger] s.entries[b] == rest[a2];
        assert(rest[a].name != rest[a2].name);
        assert(b != b2);
        if b < b2 {
            assert(pages_apart(s.entries[b].pages, s.entries[b2].pages));
        } else {
            assert(pages_apart(s.entries[b2].pages, s.entries[b].pages));
        }
        assert forall|k: int, l: int|
            0 <= k < rest[a].pages.len() && 0 <= l < rest[a2].pages.len() implies apart(
            #[trigger] rest[a].pages[k],
            #[trigger] rest[a2].pages[l],
        ) by {
            assert(apart(s.entries[b].pages[k], s.entries[b2].pages[l]) || apart(
                s.entries[b2].pages[l],
                s.entries[b].pages[k],
            ));
        }
    }
    assert forall|f: int| 0 <= f < t.free_list.len() implies (#[trigger] t.free_list[f]) + PAGE_SIZE
        <= t.next_offset by {
        if f >= n {
            assert(page_dropped(s.entries, rest, freed[f - n]));
            let (b2, l2) = choose|b2: int, l2: int|
                0 <= b2 < s.entries.len() && !has_entry(rest, s.entries[b2].name) && 0 <= l2
                    < s.entries[b2].pages.len() && #[trigger] s.entries[b2].pages[l2] == freed[f - n];
            assert(entry_wf(s.entries[b2], s.next_offset));
        }
    }
    assert forall|f: int, g: int| 0 <= f < g < t.free_list.len() implies apart(
        #[trigger] t.free_list[f],
        #[trigger] t.free_list[g],
    ) by {
        if g < n {
            assert(apart(s.free_list[f], s.free_list[g]));
        } else if f < n {
            assert(page_dropped(s.entries, rest, freed[g - n]));
            let (b2, l2) = choose|b2: int, l2: int|
                0 <= b2 < s.entries.len() && !has_entry(rest, s.entries[b2].name) && 0 <= l2
                    < s.entries[b2].pages.len() && #[trigger] s.entries[b2].pages[l2] == freed[g - n];
            assert(pages_apart(s.entries[b2].pages, s.free_list));
            assert(apart(s.entries[b2].pages[l2], s.free_list[f]));
        } else {
            assert(apart(freed[f - n], freed[g - n]));
        }
    }
}

/// The table without its entry `i`.
pub proof fn lemma_remove_one(entries: Seq<EntryView>, i: int)
    requires
        distinct_names(entries),
        0 <= i < entries.len(),
    ensures
        distinct_names(entries.remove(i)),
        forall|a: int|
            0 <= a < entries.remove(i).len() ==> among(
                entries,
                entries.len() as int,
                #[trigger] entries.remove(i)[a],
            ),
        !has_entry(entries.remove(i), entries[i].name),
        forall|b: int|
            0 <= b < entries.len() && b != i ==> among(
                entries.remove(i),
                entries.remove(i).len() as int,
                #[trigger] entries[b],
            ),
{
    let rest = entries.remove(i);
    assert forall|a: int| 0 <= a < rest.len() implies among(
        entries,
        entries.len() as int,
        #[trigger] rest[a],
    ) && rest[a].name != entries[i].name by {
        let b = if a < i { a } else { a + 1 };
        assert(entries[b] == rest[a]);
        if b < i {
            assert(entries[b].name != entries[i].name);
        } else {
            assert(entries[i].name != entries[b].name);
        }
    }
    assert forall|a: int, a2: int| 0 <= a < a2 < rest.len() implies (#[trigger] rest[a]).name != (
    #[trigger] rest[a2]).name by {
        let b = if a < i { a } else { a + 1 };
        let b2 = if a2 < i { a2 } else { a2 + 1 };
        assert(entries[b].name != entries[b2].name);
    }
    assert forall|b: int| 0 <= b < entries.len() && b != i implies among(
        rest,
        rest.len() as int,
        #[trigger] entries[b],
    ) by {
        let a = if b < i { b } else { b - 1 };
        assert(rest[a] == entries[b]);
    }
}

/// The table after the sweep below `dir` has passed its first `upto`
/// entries.
pub open spec fn swept(entries: Seq<EntryView>, dir: Seq<char>, upto: int) -> Seq<EntryView> {
    kept(entries, dir, upto) + entries.skip(upto)
}

/// What the sweep leaves: the entries it has not reached and those that do
/// not lie below `dir`; and the state is sound.
#[verifier::rlimit(40)]
pub proof fn lemma_sweep(s: FsState, dir: Seq<char>, upto: int)
    requires
        s.wf(),
        0 <= upto <= s.entries.len(),
    ensures
        distinct_names(swept(s.entries, dir, upto)),
        forall|a: int|
            0 <= a < swept(s.entries, dir, upto).len() ==> among(
                s.entries,
                s.entries.len() as int,
                #[trigger] swept(s.entries, dir, upto)[a],
            ),
        forall|b: int|
            0 <= b < s.entries.len() && (b >= upto || !under(s.entries[b].name, dir)) ==> among(
                swept(s.entries, dir, upto),
                swept(s.entries, dir, upto).len() as int,
                #[trigger] s.entries[b],
            ),
        forall|b: int|
            0 <= b < upto && under(s.entries[b].name, dir) ==> !has_entry(
                swept(s.entries, dir, upto),
                (#[trigger] s.entries[b]).name,
            ),
        (FsState {
            entries: swept(s.entries, dir, upto),
            free_list: s.free_list + released(s.entries, dir, upto),
            ..s
        }).wf(),
{
    let entries = s.entries;
    let first = kept(entries, dir, upto);
    let rest = swept(entries, dir, upto);
    let m = first.len() as int;
    lemma_kept(entries, dir, upto);
    lemma_released(s, dir, upto);
    assert forall|a: int| 0 <= a < rest.len() implies among(
        entries,
        entries.len() as int,
        #[trigger] rest[a],
    ) && (exists|b: int|
        0 <= b < entries.len() && (b >= upto || !under(entries[b].name, dir)) && #[trigger] entries[b]
            == rest[a]) by {
        if a < m {
            assert(rest[a] == first[a]);
            assert(among(entries, upto, first[a]));
            let b = choose|b: int| 0 <= b < upto && b < entries.len() && #[trigger] entries[b] == first[a];
            assert(entries[b] == rest[a]);
        } else {
            assert(entries[a - m + upto] == rest[a]);
        }
    }
    assert forall|a: int, a2: int| 0 <= a < a2 < rest.len() implies (#[trigger] rest[a]).name != (
    #[trigger] rest[a2]).name by {
        if a2 < m {
            assert(first[a].name != first[a2].name);
        } else if a < m {
            assert(among(entries, upto, first[a]));
            let b = choose|b: int| 0 <= b < upto && b < entries.len() && #[trigger] entries[b] == first[a];
            assert(entries[b].name != entries[a2 - m + upto].name);
        } else {
            assert(entries[a - m + upto].name != entries[a2 - m + upto].name);
        }
    }
    assert forall|b: int|
        0 <= b < entries.len() && (b >= upto || !under(entries[b].name, dir)) implies among(
        rest,
        rest.len() as int,
        #[trigger] entries[b],
    ) by {
        if b >= upto {
            assert(rest[m + b - upto] == entries[b]);
        } else {
            assert(among(first, m, entries[b]));
            let a = choose|a: int| 0 <= a < m && a < first.len() && #[trigger] first[a] == entries[b];
            assert(rest[a] == entries[b]);
        }
    }
    assert forall|b: int| 0 <= b < upto && under(entries[b].name, dir) implies !has_entry(
        rest,
        (#[trigger] entries[b]).name,
    ) by {
        if has_entry(rest, entries[b].name) {
            let a = choose|a: int| 0 <= a < rest.len() && (#[trigger] rest[a]).name == entries[b].name;
            let b2 = choose|b2: int|
                0 <= b2 < entries.len() && (b2 >= upto || !under(entries[b2].name, dir))
                    && #[trigger] entries[b2] == rest[a];
            if b2 < b {
                assert(entries[b2].name != entries[b].name);
            } else if b < b2 {
                assert(entries[b].name != entries[b2].name);
            }
        }
    }
    let freed = released(entries, dir, upto);
    assert forall|f: int| 0 <= f < freed.len() implies page_dropped(entries, rest, #[trigger] freed[f]) by {
        assert(page_below(entries, dir, upto, freed[f]));
        let (b, l) = choose|b: int, l: int|
            0 <= b < upto && b < entries.len() && under(entries[b].name, dir) && entries[b].kind
                == FileType::File && 0 <= l < entries[b].pages.len() && #[trigger] entries[b].pages[l]
                == freed[f];
        assert(!has_entry(rest, entries[b].name));
    }
    lemma_shrink_wf(s, rest, freed);
}

/// After a complete sweep below the directory at position `i`, the
/// directory is still in the table, whose names are still distinct.
pub proof fn lemma_removal_target(s: FsState, dir: Seq<char>, i: int)
    requires
        s.wf(),
        0 <= i < s.entries.len(),
        s.entries[i].name == dir,
    ensures
        has_entry(swept(s.entries, dir, s.entries.len() as int), dir),
        distinct_names(swept(s.entries, dir, s.entries.len() as int)),
{
    let n = s.entries.len() as int;
    let rest = swept(s.entries, dir, n);
    lemma_sweep(s, dir, n);
    assert(!under(dir, dir));
    assert(among(rest, rest.len() as int, s.entries[i]));
    let a = choose|a: int| 0 <= a < rest.len() && #[trigger] rest[a] == s.entries[i];
    assert(rest[a].name == dir);
}

/// A removal keeps the invariant.
pub proof fn lemma_rm_wf(s: FsState, name: Seq<char>)
    requires
        s.wf(),
    ensures
        rm_spec(s, name).1.wf(),
{
    let full = resolve(s.cwd, name);
    if has_entry(s.entries, full) {
        let i = index_of(s.entries, full);
        let e = s.entries[i];
        if e.kind == FileType::File {
            if permitted(s.user, e.owner) {
                lemma_remove_one(s.entries, i);
                let rest = s.entries.remove(i);
                assert(entry_wf(e, s.next_offset));
                assert forall|f: int| 0 <= f < e.pages.len() implies page_dropped(
                    s.entries,
                    rest,
                    #[trigger] e.pages[f],
                ) by {
                    assert(s.entries[i].pages[f] == e.pages[f]);
                }
                lemma_shrink_wf(s, rest, e.pages);
            }
        } else {
            let stop = sweep_stop(s.entries, full, s.user, 0);
            lemma_sweep_stop(s.entries, full, s.user, 0);
            lemma_sweep(s, full, stop);
            if stop >= s.entries.len() {
                let rest = swept(s.entries, full, stop);
                let t = FsState {
                    entries: rest,
                    free_list: s.free_list + released(s.entries, full, stop),
                    ..s
                };
                assert(!under(full, full));
                assert(among(rest, rest.len() as int, s.entries[i]));
                let a = choose|a: int| 0 <= a < rest.len() && #[trigger] rest[a] == s.entries[i];
                assert(rest[a].name == full);
                let d = index_of(rest, full);
                lemma_remove_one(rest, d);
                let last = rest.remove(d);
                assert forall|x: int| 0 <= x < last.len() implies among(
                    rest,
                    rest.len() as int,
                    #[trigger] last[x],
                ) by {}
                lemma_shrink_wf(t, last, Seq::<u64>::empty());
                assert(t.free_list + Seq::<u64>::empty() =~= t.free_list);
            }
        }
    }
}

/// The sweep stops within the table, at a blocked file below `dir` or at
/// the end, and passes nothing blocked before.
pub proof fn lemma_sweep_stop(entries: Seq<EntryView>, dir: Seq<char>, user: Seq<char>, from: int)
    requires
        0 <= from <= entries.len(),
    ensures
        from <= sweep_stop(entries, dir, user, from) <= entries.len(),
        sweep_stop(entries, dir, user, from) < entries.len() ==> under(
            entries[sweep_stop(entries, dir, user, from)].name,
            dir,
        ) && blocked(entries[sweep_stop(entries, dir, user, from)], user),
        forall|b: int|
            from <= b < sweep_stop(entries, dir, user, from) ==> !(under(
                (#[trigger] entries[b]).name,
                dir,
            ) && blocked(entries[b], user)),
    decreases entries.len() - from,
{
    if from < entries.len() && !(under(entries[from].name, dir) && blocked(
        entries[from],
        user,
    )) {
        lemma_sweep_stop(entries, dir, user, from + 1);
    }
}

/// An insertion keeps the invariant.
pub proof fn lemma_insert_wf(
    s: FsState,
    name: Seq<char>,
    kind: FileType,
    owner: Option<Seq<char>>,
    permission: Option<Seq<FilePermission>>,
)
    requires
        s.wf(),
    ensures
        insert_spec(s, name, kind, owner, permission).1.wf(),
{
    let t = insert_spec(s, name, kind, owner, permission).1;
    let full = resolve(s.cwd, name);
    if !has_entry(s.entries, full) {
        let n = s.entries.len() as int;
        assert(t.entries[n].pages =~= Seq::<u64>::empty());
        assert forall|i: int, j: int| 0 <= i < j < t.entries.len() implies (#[trigger] t.entries[i]).name
            != (#[trigger] t.entries[j]).name by {
            if j < n {
                assert(s.entries[i].name != s.entries[j].name);
            } else {
                assert(s.entries[i].name != full);
            }
        }
        assert forall|i: int| 0 <= i < t.entries.len() implies entry_wf(
            #[trigger] t.entries[i],
            t.next_offset,
        ) && pages_apart(t.entries[i].pages, t.free_list) by {
            if i < n {
                assert(t.entries[i] == s.entries[i]);
                assert(entry_wf(s.entries[i], s.next_offset));
                assert(pages_apart(s.entries[i].pages, s.free_list));
            }
        }
        assert forall|i: int, j: int| 0 <= i < j < t.entries.len() implies pages_apart(
            (#[trigger] t.entries[i]).pages,
            (#[trigger] t.entries[j]).pages,
        ) by {
            if j < n {
                assert(pages_apart(s.entries[i].pages, s.entries[j].pages));
            }
        }
    }
}

} // verus!
