use vstd::prelude::*;
use crate::error::FsError;
use crate::filesystem::{FilePermission, FileType};
use crate::layout::{lemma_append_content, lemma_store_pages, position, touched, untouched};
use crate::model::{
    alloc_spec, apart, append_fits, cd_spec, content, cp_spec, create_spec, entry_wf,
    exists_spec, has_entry, index_of, insert_spec, mv_spec, next_after, nth_alloc, page_fill,
    pages_apart, read_spec, readable, rm_spec, sweep_stop, write_spec, FsState, PAGE_SIZE,
};
use crate::path::{resolve, under};
use crate::user::admin_name;
use crate::wellformed::{
    among, grown, lemma_grow_wf, lemma_index_of, lemma_insert_wf, lemma_remove_one,
    lemma_sweep, lemma_sweep_stop, swept,
};

verus! {

/// Once an entry is created it exists, and creating the same resolved path
/// again fails with `AlreadyExists` and changes nothing.
pub proof fn law_created_entry_exists(
    s: FsState,
    name: Seq<char>,
    kind: FileType,
    owner: Seq<char>,
    permission: Option<Seq<FilePermission>>,
    again: Seq<char>,
    kind2: FileType,
    owner2: Seq<char>,
    permission2: Option<Seq<FilePermission>>,
)
    requires
        create_spec(s, name, kind, owner, permission).0.is_ok(),
        resolve(s.cwd, again) == resolve(s.cwd, name),
    ensures
        exists_spec(create_spec(s, name, kind, owner, permission).1, name),
        create_spec(create_spec(s, name, kind, owner, permission).1, again, kind2, owner2, permission2)
            == (
            Err::<(), FsError>(FsError::AlreadyExists),
            create_spec(s, name, kind, owner, permission).1,
        ),
{
    let t = create_spec(s, name, kind, owner, permission).1;
    let n = s.entries.len() as int;
    assert(t.entries[n].name == resolve(s.cwd, name));
}

/// A write followed by a read gives what the file held before, followed by
/// the data.
pub proof fn law_write_then_read(
    s: FsState,
    c: Seq<u8>,
    limit: nat,
    name: Seq<char>,
    data: Seq<u8>,
)
    requires
        s.wf(),
        limit <= u64::MAX,
        write_spec(s, c, limit, name, data).0.is_ok(),
        read_spec(s, c, name).is_ok(),
    ensures
        read_spec(write_spec(s, c, limit, name, data).1, write_spec(s, c, limit, name, data).2, name)
            == Ok::<Seq<u8>, FsError>(read_spec(s, c, name).unwrap() + data),
{
    let full = resolve(s.cwd, name);
    let i = index_of(s.entries, full);
    let e = s.entries[i];
    let t = write_spec(s, c, limit, name, data).1;
    let d = write_spec(s, c, limit, name, data).2;
    let before = content(c, e.pages, e.size);
    if data.len() == 0 {
        assert(before + data =~= before);
    } else {
        let len = data.len() as int;
        lemma_grow_wf(s, i, len, limit);
        assert(t == grown(s, i, len));
        let e2 = t.entries[i];
        assert(e2.name == full);
        lemma_index_of(t.entries, full, i);
        assert(entry_wf(e, s.next_offset));
        assert(entry_wf(e2, t.next_offset));
        assert(e.pages =~= e2.pages.take(e.pages.len() as int));
        lemma_append_content(c, e.pages, e2.pages, e.size, data);
    }
}

/// A write to an empty file followed by a read gives exactly the data.
pub proof fn law_first_write_then_read(
    s: FsState,
    c: Seq<u8>,
    limit: nat,
    name: Seq<char>,
    data: Seq<u8>,
)
    requires
        s.wf(),
        limit <= u64::MAX,
        write_spec(s, c, limit, name, data).0.is_ok(),
        s.entries[index_of(s.entries, resolve(s.cwd, name))].size == 0,
    ensures
        read_spec(write_spec(s, c, limit, name, data).1, write_spec(s, c, limit, name, data).2, name)
            == Ok::<Seq<u8>, FsError>(data),
{
    let e = s.entries[index_of(s.entries, resolve(s.cwd, name))];
    assert(entry_wf(e, s.next_offset));
    assert(readable(c, e.pages, e.size as int));
    law_write_then_read(s, c, limit, name, data);
    assert(content(c, e.pages, e.size) + data =~= data);
}

/// A write leaves every other entry as it was, and what another entry
/// read as before, it reads as afterwards.
#[verifier::rlimit(40)]
pub proof fn law_write_keeps_other_files(
    s: FsState,
    c: Seq<u8>,
    limit: nat,
    name: Seq<char>,
    data: Seq<u8>,
    other: Seq<char>,
)
    requires
        s.wf(),
        limit <= u64::MAX,
        write_spec(s, c, limit, name, data).0.is_ok(),
        resolve(s.cwd, other) != resolve(s.cwd, name),
        read_spec(s, c, other).is_ok(),
    ensures
        read_spec(
            write_spec(s, c, limit, name, data).1,
            write_spec(s, c, limit, name, data).2,
            other,
        ) == read_spec(s, c, other),
        write_spec(s, c, limit, name, data).1.entries[index_of(
            write_spec(s, c, limit, name, data).1.entries,
            resolve(s.cwd, other),
        )] == s.entries[index_of(s.entries, resolve(s.cwd, other))],
{
    let full = resolve(s.cwd, name);
    let path = resolve(s.cwd, other);
    let i = index_of(s.entries, full);
    let k = index_of(s.entries, path);
    let e = s.entries[i];
    let o = s.entries[k];
    let t = write_spec(s, c, limit, name, data).1;
    let d = write_spec(s, c, limit, name, data).2;
    if data.len() > 0 {
        let len = data.len() as int;
        lemma_grow_wf(s, i, len, limit);
        assert(t == grown(s, i, len));
        assert(t.entries[k] == o);
        lemma_index_of(t.entries, path, k);
        let e2 = t.entries[i];
        let old_count = e.pages.len() as int;
        let upto = e2.pages.len() as int;
        assert(entry_wf(e, s.next_offset));
        assert(entry_wf(e2, t.next_offset));
        assert(entry_wf(o, s.next_offset));
        lemma_store_pages(c, e2.pages, old_count, e.size as int, data, upto);
        if i < k {
            assert(pages_apart(t.entries[i].pages, t.entries[k].pages));
        } else {
            assert(pages_apart(t.entries[k].pages, t.entries[i].pages));
        }
        assert forall|l: int| 0 <= l < o.size implies position(o.pages, l) < c.len() && d[position(
            o.pages,
            l,
        )] == c[position(o.pages, l)] by {
            let ql = l / (PAGE_SIZE as int);
            let x = position(o.pages, l);
            assert(o.pages[ql] + page_fill(o.size as int, ql) <= c.len());
            assert forall|q: int| e.size as int / (PAGE_SIZE as int) <= q < upto implies !#[trigger] touched(
                e2.pages,
                old_count,
                e.size as int,
                len,
                q,
                x,
            ) by {
                assert(apart(e2.pages[q], o.pages[ql]) || apart(o.pages[ql], e2.pages[q]));
            }
            assert(untouched(e2.pages, old_count, e.size as int, len, upto, x));
        }
        assert forall|q: int| 0 <= q < o.pages.len() implies (#[trigger] o.pages[q]) + page_fill(
            o.size as int,
            q,
        ) <= d.len() by {}
        assert forall|l: int| 0 <= l < o.size implies content(d, o.pages, o.size)[l] == content(
            c,
            o.pages,
            o.size,
        )[l] by {
            assert(d[position(o.pages, l)] == c[position(o.pages, l)]);
        }
        assert(content(d, o.pages, o.size) =~= content(c, o.pages, o.size));
    }
}

/// Removing a file puts its pages at the tail of the free list, in order,
/// and leaves the high-water mark alone. The allocations that follow hand
/// out what the free list held before, then these pages in their order, and
/// only then a fresh page at the high-water mark.
pub proof fn law_removed_pages_are_reused(s: FsState, name: Seq<char>, j: int)
    requires
        s.wf(),
        has_entry(s.entries, resolve(s.cwd, name)),
        s.entries[index_of(s.entries, resolve(s.cwd, name))].kind == FileType::File,
        rm_spec(s, name).0.is_ok(),
        0 <= j < s.entries[index_of(s.entries, resolve(s.cwd, name))].pages.len(),
    ensures
        rm_spec(s, name).1.free_list == s.free_list + s.entries[index_of(
            s.entries,
            resolve(s.cwd, name),
        )].pages,
        rm_spec(s, name).1.next_offset == s.next_offset,
        nth_alloc(rm_spec(s, name).1.free_list, s.next_offset, s.free_list.len() + j)
            == s.entries[index_of(s.entries, resolve(s.cwd, name))].pages[j],
        next_after(rm_spec(s, name).1.free_list, s.next_offset, s.free_list.len() + j + 1)
            == s.next_offset,
        nth_alloc(
            rm_spec(s, name).1.free_list,
            s.next_offset,
            rm_spec(s, name).1.free_list.len() as int,
        ) == s.next_offset,
{
}

/// After a file is removed while the free list is empty, the next
/// allocation hands out the file's first page and does not move the
/// high-water mark.
pub proof fn law_allocation_reuses_removed_page(
    s: FsState,
    name: Seq<char>,
    c: Seq<u8>,
    limit: nat,
    size: u64,
)
    requires
        s.wf(),
        has_entry(s.entries, resolve(s.cwd, name)),
        s.entries[index_of(s.entries, resolve(s.cwd, name))].kind == FileType::File,
        s.entries[index_of(s.entries, resolve(s.cwd, name))].pages.len() > 0,
        s.free_list.len() == 0,
        rm_spec(s, name).0.is_ok(),
        alloc_spec(rm_spec(s, name).1, c, limit, size).0.is_ok(),
    ensures
        alloc_spec(rm_spec(s, name).1, c, limit, size).0 == Ok::<u64, FsError>(
            s.entries[index_of(s.entries, resolve(s.cwd, name))].pages[0],
        ),
        alloc_spec(rm_spec(s, name).1, c, limit, size).1.next_offset == s.next_offset,
{
}

/// No operation lowers the high-water mark of the block store: the
/// container grows or has its holes reused, it is never compacted.
pub proof fn law_high_water_mark_never_falls(
    s: FsState,
    c: Seq<u8>,
    limit: nat,
    name: Seq<char>,
    other: Seq<char>,
    data: Seq<u8>,
    size: u64,
)
    ensures
        alloc_spec(s, c, limit, size).1.next_offset >= s.next_offset,
        write_spec(s, c, limit, name, data).1.next_offset >= s.next_offset,
        rm_spec(s, name).1.next_offset == s.next_offset,
        cp_spec(s, c, limit, name, other).1.next_offset >= s.next_offset,
        mv_spec(s, c, limit, name, other).1.next_offset >= s.next_offset,
{
}

/// After a directory is removed, no entry below it is left and the
/// directory is gone; any other path holds what it held before.
#[verifier::rlimit(40)]
pub proof fn law_remove_directory(s: FsState, name: Seq<char>, path: Seq<char>)
    requires
        s.wf(),
        has_entry(s.entries, resolve(s.cwd, name)),
        s.entries[index_of(s.entries, resolve(s.cwd, name))].kind == FileType::Directory,
        rm_spec(s, name).0.is_ok(),
    ensures
        under(path, resolve(s.cwd, name)) || path == resolve(s.cwd, name) ==> !has_entry(
            rm_spec(s, name).1.entries,
            path,
        ),
        !under(path, resolve(s.cwd, name)) && path != resolve(s.cwd, name) ==> (has_entry(
            rm_spec(s, name).1.entries,
            path,
        ) <==> has_entry(s.entries, path)),
        !under(path, resolve(s.cwd, name)) && path != resolve(s.cwd, name) && has_entry(
            s.entries,
            path,
        ) ==> rm_spec(s, name).1.entries[index_of(rm_spec(s, name).1.entries, path)]
            == s.entries[index_of(s.entries, path)],
{
    let dir = resolve(s.cwd, name);
    let i = index_of(s.entries, dir);
    let n = s.entries.len() as int;
    let stop = sweep_stop(s.entries, dir, s.user, 0);
    lemma_sweep_stop(s.entries, dir, s.user, 0);
    assert(stop == n);
    let rest = swept(s.entries, dir, n);
    lemma_sweep(s, dir, n);
    assert(!under(dir, dir));
    assert(among(rest, rest.len() as int, s.entries[i]));
    let a0 = choose|a: int| 0 <= a < rest.len() && #[trigger] rest[a] == s.entries[i];
    assert(rest[a0].name == dir);
    let d = index_of(rest, dir);
    lemma_remove_one(rest, d);
    let last = rest.remove(d);
    assert(rm_spec(s, name).1.entries == last);
    if has_entry(last, path) {
        let x = choose|x: int| 0 <= x < last.len() && (#[trigger] last[x]).name == path;
        assert(among(rest, rest.len() as int, last[x]));
        let a = choose|a: int| 0 <= a < rest.len() && #[trigger] rest[a] == last[x];
        assert(among(s.entries, n, rest[a]));
        let b = choose|b: int| 0 <= b < n && #[trigger] s.entries[b] == rest[a];
        assert(s.entries[b].name == path);
        if under(path, dir) {
            assert(!has_entry(rest, s.entries[b].name));
            assert(rest[a].name == path);
            assert(false);
        }
        if path == dir {
            assert(false);
        }
        lemma_index_of(last, path, x);
        lemma_index_of(s.entries, path, b);
    }
    if has_entry(s.entries, path) && !under(path, dir) && path != dir {
        let b = choose|b: int| 0 <= b < n && (#[trigger] s.entries[b]).name == path;
        assert(among(rest, rest.len() as int, s.entries[b]));
        let a = choose|a: int| 0 <= a < rest.len() && #[trigger] rest[a] == s.entries[b];
        assert(a != d);
        assert(among(last, last.len() as int, rest[a]));
        let x = choose|x: int| 0 <= x < last.len() && #[trigger] last[x] == rest[a];
        assert(last[x].name == path);
    }
}

/// After a copy the destination reads as the source read before, and it has
/// the source's owner and flags, whoever made the copy.
pub proof fn law_copy_then_read(
    s: FsState,
    c: Seq<u8>,
    limit: nat,
    src: Seq<char>,
    dest: Seq<char>,
)
    requires
        s.wf(),
        limit <= u64::MAX,
        cp_spec(s, c, limit, src, dest).0.is_ok(),
    ensures
        read_spec(s, c, src).is_ok(),
        read_spec(cp_spec(s, c, limit, src, dest).1, cp_spec(s, c, limit, src, dest).2, dest)
            == read_spec(s, c, src),
        has_entry(cp_spec(s, c, limit, src, dest).1.entries, resolve(s.cwd, dest)),
        cp_spec(s, c, limit, src, dest).1.entries[index_of(
            cp_spec(s, c, limit, src, dest).1.entries,
            resolve(s.cwd, dest),
        )].owner == s.entries[index_of(s.entries, resolve(s.cwd, src))].owner,
        cp_spec(s, c, limit, src, dest).1.entries[index_of(
            cp_spec(s, c, limit, src, dest).1.entries,
            resolve(s.cwd, dest),
        )].permission == s.entries[index_of(s.entries, resolve(s.cwd, src))].permission,
        cp_spec(s, c, limit, src, dest).1.entries[index_of(
            cp_spec(s, c, limit, src, dest).1.entries,
            resolve(s.cwd, dest),
        )].kind == FileType::File,
{
    let from = resolve(s.cwd, src);
    let to = resolve(s.cwd, dest);
    let e = s.entries[index_of(s.entries, from)];
    let data = read_spec(s, c, src).unwrap();
    let s1 = insert_spec(s, dest, FileType::File, e.owner, e.permission).1;
    let n = s.entries.len() as int;
    lemma_insert_wf(s, dest, FileType::File, e.owner, e.permission);
    assert(s1.entries[n].name == to);
    lemma_index_of(s1.entries, to, n);
    let t = write_spec(s1, c, limit, dest, data).1;
    assert(cp_spec(s, c, limit, src, dest).1 == t);
    law_first_write_then_read(s1, c, limit, dest, data);
    if data.len() > 0 {
        lemma_grow_wf(s1, n, data.len() as int, limit);
        assert(t == grown(s1, n, data.len() as int));
    }
    assert(t.entries[n].name == to);
    lemma_index_of(t.entries, to, n);
}

/// After a file is moved the source is gone, and the destination reads as
/// the source read before.
#[verifier::rlimit(40)]
pub proof fn law_move_then_read(
    s: FsState,
    c: Seq<u8>,
    limit: nat,
    src: Seq<char>,
    dest: Seq<char>,
)
    requires
        s.wf(),
        limit <= u64::MAX,
        mv_spec(s, c, limit, src, dest).0.is_ok(),
        s.entries[index_of(s.entries, resolve(s.cwd, src))].kind == FileType::File,
    ensures
        !exists_spec(mv_spec(s, c, limit, src, dest).1, src),
        read_spec(mv_spec(s, c, limit, src, dest).1, mv_spec(s, c, limit, src, dest).2, dest)
            == read_spec(s, c, src),
{
    let from = resolve(s.cwd, src);
    let to = resolve(s.cwd, dest);
    let i = index_of(s.entries, from);
    let e = s.entries[i];
    let n = s.entries.len() as int;
    let data = read_spec(s, c, src).unwrap();
    let s0 = insert_spec(s, dest, FileType::File, e.owner, e.permission).1;
    let s1 = cp_spec(s, c, limit, src, dest).1;
    let c1 = cp_spec(s, c, limit, src, dest).2;
    law_copy_then_read(s, c, limit, src, dest);
    lemma_insert_wf(s, dest, FileType::File, e.owner, e.permission);
    assert(s0.entries[n].name == to);
    lemma_index_of(s0.entries, to, n);
    if data.len() > 0 {
        lemma_grow_wf(s0, n, data.len() as int, limit);
        assert(s1 == grown(s0, n, data.len() as int));
    }
    assert(s1.wf());
    assert(s1.entries[i] == e);
    assert(s1.entries[n].name == to);
    lemma_index_of(s1.entries, from, i);
    lemma_index_of(s1.entries, to, n);
    let s2 = rm_spec(s1, src).1;
    assert(s2.entries == s1.entries.remove(i));
    lemma_remove_one(s1.entries, i);
    assert(among(s2.entries, s2.entries.len() as int, s1.entries[n]));
    let x = choose|x: int| 0 <= x < s2.entries.len() && #[trigger] s2.entries[x] == s1.entries[n];
    lemma_index_of(s2.entries, to, x);
}

/// Someone who is neither the administrator nor the owner cannot write to
/// an entry: the write fails with `PermissionDenied` and changes nothing.
pub proof fn law_write_needs_owner(
    s: FsState,
    c: Seq<u8>,
    limit: nat,
    name: Seq<char>,
    data: Seq<u8>,
)
    requires
        has_entry(s.entries, resolve(s.cwd, name)),
        s.user != admin_name(),
        s.entries[index_of(s.entries, resolve(s.cwd, name))].owner != Some(s.user),
    ensures
        write_spec(s, c, limit, name, data) == (Err::<(), FsError>(FsError::PermissionDenied), s, c),
{
}

/// Someone who is neither the administrator nor the owner cannot remove a
/// file: the removal fails with `PermissionDenied` and changes nothing.
pub proof fn law_remove_needs_owner(s: FsState, name: Seq<char>)
    requires
        has_entry(s.entries, resolve(s.cwd, name)),
        s.entries[index_of(s.entries, resolve(s.cwd, name))].kind == FileType::File,
        s.user != admin_name(),
        s.entries[index_of(s.entries, resolve(s.cwd, name))].owner != Some(s.user),
    ensures
        rm_spec(s, name) == (Err::<(), FsError>(FsError::PermissionDenied), s),
{
}

/// The administrator passes every owner check: a write fails only when the
/// container cannot hold the data, and a removal of an entry that exists
/// succeeds.
pub proof fn law_administrator_is_permitted(
    s: FsState,
    c: Seq<u8>,
    limit: nat,
    name: Seq<char>,
    data: Seq<u8>,
)
    requires
        has_entry(s.entries, resolve(s.cwd, name)),
        s.user == admin_name(),
    ensures
        write_spec(s, c, limit, name, data).0.is_ok() <==> append_fits(
            s.entries[index_of(s.entries, resolve(s.cwd, name))],
            s.free_list,
            s.next_offset,
            data.len() as int,
            limit,
        ),
        !write_spec(s, c, limit, name, data).0.is_ok() ==> write_spec(s, c, limit, name, data).0
            == Err::<(), FsError>(FsError::IoFailure),
        rm_spec(s, name).0.is_ok(),
{
    let full = resolve(s.cwd, name);
    lemma_sweep_stop(s.entries, full, s.user, 0);
}

/// Changing into a file fails with `WrongEntryKind`, not with `NotFound`,
/// and leaves the cursor where it was.
pub proof fn law_cd_into_file(s: FsState, target: Seq<char>)
    requires
        target != seq!['.'],
        target != seq!['.', '.'],
        has_entry(s.entries, resolve(s.cwd, target)),
        s.entries[index_of(s.entries, resolve(s.cwd, target))].kind == FileType::File,
    ensures
        cd_spec(s, target) == (Err::<(), FsError>(FsError::WrongEntryKind), s),
{
}

} // verus!
