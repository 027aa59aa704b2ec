use vstd::prelude::*;
use crate::container::{written, zeros};
use crate::error::FsError;
use crate::filesystem::{FilePermission, FileType};
use crate::path::{resolve, parent_for, root_path, under};
use crate::user::admin_name;

verus! {

/// Size in bytes of every page of file content.
pub const PAGE_SIZE: u64 = 1024;

/// Number of pages that hold `size` bytes.
pub open spec fn pages_for(size: int) -> int {
    (size + PAGE_SIZE - 1) / (PAGE_SIZE as int)
}

/// One record of the entry table.
pub struct EntryView {
    pub name: Seq<char>,
    pub kind: FileType,
    pub permission: Option<Seq<FilePermission>>,
    pub owner: Option<Seq<char>>,
    pub size: nat,
    pub pages: Seq<u64>,
    pub parent: Option<Seq<char>>,
}

/// The whole state of the engine: the entry table in insertion order, the
/// block store, the cursor and the name of the acting user.
pub struct FsState {
    pub entries: Seq<EntryView>,
    pub next_offset: nat,
    pub free_list: Seq<u64>,
    pub cwd: Seq<char>,
    pub user: Seq<char>,
}

/// Two pages that do not overlap.
pub open spec fn apart(p: u64, q: u64) -> bool {
    p + PAGE_SIZE <= q || q + PAGE_SIZE <= p
}

/// An entry has exactly the pages its size needs; they lie below the
/// high-water mark and do not overlap.
pub open spec fn entry_wf(e: EntryView, next: nat) -> bool {
    &&& e.pages.len() == pages_for(e.size as int)
    &&& forall|k: int| 0 <= k < e.pages.len() ==> (#[trigger] e.pages[k]) + PAGE_SIZE <= next
    &&& forall|k: int, l: int|
        0 <= k < l < e.pages.len() ==> apart(#[trigger] e.pages[k], #[trigger] e.pages[l])
}

/// No page of `a` overlaps a page of `b`.
pub open spec fn pages_apart(a: Seq<u64>, b: Seq<u64>) -> bool {
    forall|k: int, l: int|
        0 <= k < a.len() && 0 <= l < b.len() ==> apart(#[trigger] a[k], #[trigger] b[l])
}

/// The free list holds non-overlapping pages below the high-water mark.
pub open spec fn free_wf(free: Seq<u64>, next: nat) -> bool {
    &&& forall|f: int| 0 <= f < free.len() ==> (#[trigger] free[f]) + PAGE_SIZE <= next
    &&& forall|f: int, g: int|
        0 <= f < g < free.len() ==> apart(#[trigger] free[f], #[trigger] free[g])
}

/// No two entries share a name.
pub open spec fn distinct_names(entries: Seq<EntryView>) -> bool {
    forall|i: int, j: int|
        0 <= i < j < entries.len() ==> (#[trigger] entries[i]).name != (#[trigger] entries[j]).name
}

/// Whether an entry is stored under `path`.
pub open spec fn has_entry(entries: Seq<EntryView>, path: Seq<char>) -> bool {
    exists|i: int| 0 <= i < entries.len() && (#[trigger] entries[i]).name == path
}

/// Position of the entry stored under `path`.
pub open spec fn index_of(entries: Seq<EntryView>, path: Seq<char>) -> int {
    choose|i: int| 0 <= i < entries.len() && (#[trigger] entries[i]).name == path
}

/// The owner check: the administrator passes; anyone else must be the owner.
pub open spec fn permitted(user: Seq<char>, owner: Option<Seq<char>>) -> bool {
    user == admin_name() || owner == Some(user)
}

impl FsState {
    /// The invariant of the engine.
    pub open spec fn wf(self) -> bool {
        &&& self.next_offset <= u64::MAX
        &&& distinct_names(self.entries)
        &&& forall|i: int|
            0 <= i < self.entries.len() ==> entry_wf(#[trigger] self.entries[i], self.next_offset)
        &&& forall|i: int, j: int|
            0 <= i < j < self.entries.len() ==> pages_apart(
                (#[trigger] self.entries[i]).pages,
                (#[trigger] self.entries[j]).pages,
            )
        &&& forall|i: int|
            0 <= i < self.entries.len() ==> pages_apart(
                (#[trigger] self.entries[i]).pages,
                self.free_list,
            )
        &&& free_wf(self.free_list, self.next_offset)
    }
}

/// The entry of the root directory in a fresh engine.
pub open spec fn root_entry(owner: Seq<char>) -> EntryView {
    EntryView {
        name: root_path(),
        kind: FileType::Directory,
        permission: Some(seq![FilePermission::Readable, FilePermission::Writable]),
        owner: Some(owner),
        size: 0,
        pages: Seq::empty(),
        parent: None,
    }
}

/// A fresh engine: only the root, nothing allocated, the cursor at the root.
pub open spec fn initial_state(user: Seq<char>) -> FsState {
    FsState {
        entries: seq![root_entry(user)],
        next_offset: 0,
        free_list: Seq::empty(),
        cwd: root_path(),
        user,
    }
}

/// An entry as it is first inserted: no content yet.
pub open spec fn fresh_entry(
    name: Seq<char>,
    kind: FileType,
    owner: Option<Seq<char>>,
    permission: Option<Seq<FilePermission>>,
    parent: Seq<char>,
) -> EntryView {
    EntryView { name, kind, permission, owner, size: 0, pages: Seq::empty(), parent: Some(parent) }
}

/// Inserting a new entry under `name`.
pub open spec fn insert_spec(
    s: FsState,
    name: Seq<char>,
    kind: FileType,
    owner: Option<Seq<char>>,
    permission: Option<Seq<FilePermission>>,
) -> (Result<(), FsError>, FsState) {
    let full = resolve(s.cwd, name);
    if has_entry(s.entries, full) {
        (Err(FsError::AlreadyExists), s)
    } else {
        (
            Ok(()),
            FsState {
                entries: s.entries.push(
                    fresh_entry(full, kind, owner, permission, parent_for(s.cwd, name)),
                ),
                ..s
            },
        )
    }
}

/// `create`: insert an entry owned by `owner`.
pub open spec fn create_spec(
    s: FsState,
    name: Seq<char>,
    kind: FileType,
    owner: Seq<char>,
    permission: Option<Seq<FilePermission>>,
) -> (Result<(), FsError>, FsState) {
    insert_spec(s, name, kind, Some(owner), permission)
}

/// `exists`: a pure lookup.
pub open spec fn exists_spec(s: FsState, name: Seq<char>) -> bool {
    has_entry(s.entries, resolve(s.cwd, name))
}

/// `change_directory`.
pub open spec fn cd_spec(s: FsState, target: Seq<char>) -> (Result<(), FsError>, FsState) {
    let full = resolve(s.cwd, target);
    if target == seq!['.'] {
        (Ok(()), s)
    } else if target == seq!['.', '.'] {
        if has_entry(s.entries, s.cwd) && s.entries[index_of(s.entries, s.cwd)].parent.is_some() {
            (Ok(()), FsState { cwd: s.entries[index_of(s.entries, s.cwd)].parent.unwrap(), ..s })
        } else {
            (Err(FsError::NotFound), s)
        }
    } else if !has_entry(s.entries, full) {
        (Err(FsError::NotFound), s)
    } else if s.entries[index_of(s.entries, full)].kind == FileType::Directory {
        (Ok(()), FsState { cwd: full, ..s })
    } else {
        (Err(FsError::WrongEntryKind), s)
    }
}

/// The offset that the next allocation hands out: the head of the free list,
/// or the high-water mark when the list is empty.
pub open spec fn alloc_target(free: Seq<u64>, next: nat) -> nat {
    if free.len() > 0 {
        free[0] as nat
    } else {
        next
    }
}

/// `allocate`: take an offset and zero-fill `size` bytes there. Fails,
/// changing nothing, when the zero-fill would pass the container's limit.
pub open spec fn alloc_spec(s: FsState, c: Seq<u8>, limit: nat, size: u64) -> (
    Result<u64, FsError>,
    FsState,
    Seq<u8>,
) {
    let offset = alloc_target(s.free_list, s.next_offset);
    if size > 0 && offset + size > limit {
        (Err(FsError::IoFailure), s, c)
    } else if s.free_list.len() > 0 {
        (
            Ok(offset as u64),
            FsState { free_list: s.free_list.skip(1), ..s },
            written(c, offset as int, zeros(size as nat)),
        )
    } else {
        (
            Ok(offset as u64),
            FsState { next_offset: (s.next_offset + size) as nat, ..s },
            written(c, offset as int, zeros(size as nat)),
        )
    }
}

/// `free`: the offset joins the tail of the free list.
pub open spec fn free_spec(s: FsState, offset: u64) -> FsState {
    FsState { free_list: s.free_list.push(offset), ..s }
}

/// The offset of the `j`-th page allocated from now on: the free list in
/// order, then fresh pages from the high-water mark upward.
pub open spec fn nth_alloc(free: Seq<u64>, next: nat, j: int) -> int {
    if j < free.len() {
        free[j] as int
    } else {
        next + (j - free.len()) * PAGE_SIZE
    }
}

/// The next `count` pages in the order in which they are allocated.
pub open spec fn next_pages(free: Seq<u64>, next: nat, count: int) -> Seq<u64> {
    Seq::new(count as nat, |j: int| nth_alloc(free, next, j) as u64)
}

/// The free list after `count` page allocations.
pub open spec fn free_after(free: Seq<u64>, count: int) -> Seq<u64> {
    if count <= free.len() {
        free.skip(count)
    } else {
        Seq::empty()
    }
}

/// The high-water mark after `count` page allocations.
pub open spec fn next_after(free: Seq<u64>, next: nat, count: int) -> nat {
    if count <= free.len() {
        next
    } else {
        (next + (count - free.len()) * PAGE_SIZE) as nat
    }
}

/// Number of pages that appending `len` bytes to `e` allocates.
pub open spec fn pages_needed(e: EntryView, len: int) -> int {
    pages_for(e.size + len) - e.pages.len()
}

/// Whether appending `len` bytes to `e` stays within the container's limit:
/// every page allocated for it can be zero-filled, and the bytes that go
/// into its last page can be written.
pub open spec fn append_fits(e: EntryView, free: Seq<u64>, next: nat, len: int, limit: nat) -> bool {
    len == 0 || {
        &&& e.size + len <= u64::MAX
        &&& forall|j: int|
            0 <= j < pages_needed(e, len) ==> #[trigger] nth_alloc(free, next, j) + PAGE_SIZE
                <= limit
        &&& e.size % (PAGE_SIZE as nat) != 0 ==> (e.pages.last() + e.size % (PAGE_SIZE as nat) + len
            <= limit || e.pages.last() + PAGE_SIZE <= limit)
    }
}

/// The container after page `q` of a file took its share of an append:
/// `data` goes to the logical positions from `start` on, a page that the
/// append allocated is zero-filled first.
pub open spec fn store_page(
    c: Seq<u8>,
    pages: Seq<u64>,
    old_count: int,
    start: int,
    data: Seq<u8>,
    q: int,
) -> Seq<u8> {
    let lo = if start >= q * PAGE_SIZE { start } else { q * PAGE_SIZE };
    let hi = if start + data.len() <= (q + 1) * PAGE_SIZE {
        start + data.len()
    } else {
        (q + 1) * PAGE_SIZE
    };
    let base = if q >= old_count {
        written(c, pages[q] as int, zeros(PAGE_SIZE as nat))
    } else {
        c
    };
    written(base, pages[q] + (lo - q * PAGE_SIZE), data.subrange(lo - start, hi - start))
}

/// The container after the pages below `upto` took their share of an append.
pub open spec fn store_pages(
    c: Seq<u8>,
    pages: Seq<u64>,
    old_count: int,
    start: int,
    data: Seq<u8>,
    upto: int,
) -> Seq<u8>
    decreases upto,
{
    if upto <= 0 || upto <= start / (PAGE_SIZE as int) {
        c
    } else {
        store_page(
            store_pages(c, pages, old_count, start, data, upto - 1),
            pages,
            old_count,
            start,
            data,
            upto - 1,
        )
    }
}

/// `write`: append `data` to the entry under `name`.
pub open spec fn write_spec(s: FsState, c: Seq<u8>, limit: nat, name: Seq<char>, data: Seq<u8>) -> (
    Result<(), FsError>,
    FsState,
    Seq<u8>,
) {
    let full = resolve(s.cwd, name);
    if !has_entry(s.entries, full) {
        (Err(FsError::NotFound), s, c)
    } else {
        let i = index_of(s.entries, full);
        let e = s.entries[i];
        let count = pages_needed(e, data.len() as int);
        let pages = e.pages + next_pages(s.free_list, s.next_offset, count);
        if !permitted(s.user, e.owner) {
            (Err(FsError::PermissionDenied), s, c)
        } else if !append_fits(e, s.free_list, s.next_offset, data.len() as int, limit) {
            (Err(FsError::IoFailure), s, c)
        } else if data.len() == 0 {
            (Ok(()), s, c)
        } else {
            (
                Ok(()),
                FsState {
                    entries: s.entries.update(
                        i,
                        EntryView { size: e.size + data.len(), pages, ..e },
                    ),
                    free_list: free_after(s.free_list, count),
                    next_offset: next_after(s.free_list, s.next_offset, count),
                    ..s
                },
                store_pages(
                    c,
                    pages,
                    e.pages.len() as int,
                    e.size as int,
                    data,
                    pages.len() as int,
                ),
            )
        }
    }
}

/// Number of bytes of a file of `size` bytes that lie in its page `q`.
pub open spec fn page_fill(size: int, q: int) -> int {
    if size - q * PAGE_SIZE >= PAGE_SIZE {
        PAGE_SIZE as int
    } else {
        size - q * PAGE_SIZE
    }
}

/// Whether the container holds every byte of the file.
pub open spec fn readable(c: Seq<u8>, pages: Seq<u64>, size: int) -> bool {
    forall|q: int| 0 <= q < pages.len() ==> (#[trigger] pages[q]) + page_fill(size, q) <= c.len()
}

/// The bytes of a file: its pages in order, the last one cut at `size`.
pub open spec fn content(c: Seq<u8>, pages: Seq<u64>, size: nat) -> Seq<u8> {
    Seq::new(size, |i: int| c[pages[i / (PAGE_SIZE as int)] + i % (PAGE_SIZE as int)])
}

/// `read`.
pub open spec fn read_spec(s: FsState, c: Seq<u8>, name: Seq<char>) -> Result<Seq<u8>, FsError> {
    let full = resolve(s.cwd, name);
    if !has_entry(s.entries, full) {
        Err(FsError::NotFound)
    } else {
        let e = s.entries[index_of(s.entries, full)];
        if readable(c, e.pages, e.size as int) {
            Ok(content(c, e.pages, e.size))
        } else {
            Err(FsError::IoFailure)
        }
    }
}

/// A file that the acting user may not remove.
pub open spec fn blocked(e: EntryView, user: Seq<char>) -> bool {
    e.kind == FileType::File && !permitted(user, e.owner)
}

/// Where the sweep below `dir` stops: at the first entry from `from` on
/// that lies below `dir` and is blocked, or at the end of the table.
pub open spec fn sweep_stop(entries: Seq<EntryView>, dir: Seq<char>, user: Seq<char>, from: int) -> int
    decreases entries.len() - from,
{
    if from < 0 || from >= entries.len() {
        entries.len() as int
    } else if under(entries[from].name, dir) && blocked(entries[from], user) {
        from
    } else {
        sweep_stop(entries, dir, user, from + 1)
    }
}

/// The entries among the first `upto` that do not lie below `dir`.
pub open spec fn kept(entries: Seq<EntryView>, dir: Seq<char>, upto: int) -> Seq<EntryView>
    decreases upto,
{
    if upto <= 0 {
        Seq::empty()
    } else if under(entries[upto - 1].name, dir) {
        kept(entries, dir, upto - 1)
    } else {
        kept(entries, dir, upto - 1).push(entries[upto - 1])
    }
}

/// The pages of the files among the first `upto` entries that lie below
/// `dir`, in table order.
pub open spec fn released(entries: Seq<EntryView>, dir: Seq<char>, upto: int) -> Seq<u64>
    decreases upto,
{
    if upto <= 0 {
        Seq::empty()
    } else if under(entries[upto - 1].name, dir) && entries[upto - 1].kind == FileType::File {
        released(entries, dir, upto - 1) + entries[upto - 1].pages
    } else {
        released(entries, dir, upto - 1)
    }
}

/// `remove`. A file is removed after the owner check and its pages join the
/// free list. Below a directory the table is swept in order: every entry
/// below it goes, files after the owner check; the first blocked file stops
/// the sweep with what went before it gone. The directory itself goes last.
pub open spec fn rm_spec(s: FsState, name: Seq<char>) -> (Result<(), FsError>, FsState) {
    let full = resolve(s.cwd, name);
    if !has_entry(s.entries, full) {
        (Err(FsError::NotFound), s)
    } else {
        let i = index_of(s.entries, full);
        let e = s.entries[i];
        if e.kind == FileType::File {
            if permitted(s.user, e.owner) {
                (
                    Ok(()),
                    FsState {
                        entries: s.entries.remove(i),
                        free_list: s.free_list + e.pages,
                        ..s
                    },
                )
            } else {
                (Err(FsError::PermissionDenied), s)
            }
        } else {
            let stop = sweep_stop(s.entries, full, s.user, 0);
            let rest = kept(s.entries, full, stop) + s.entries.skip(stop);
            let free_list = s.free_list + released(s.entries, full, stop);
            if stop < s.entries.len() {
                (Err(FsError::PermissionDenied), FsState { entries: rest, free_list, ..s })
            } else {
                (
                    Ok(()),
                    FsState { entries: rest.remove(index_of(rest, full)), free_list, ..s },
                )
            }
        }
    }
}

/// `copy`: read the source, insert the destination as a file with the
/// source's owner and permissions, append the bytes to it.
pub open spec fn cp_spec(
    s: FsState,
    c: Seq<u8>,
    limit: nat,
    src: Seq<char>,
    dest: Seq<char>,
) -> (Result<(), FsError>, FsState, Seq<u8>) {
    let from = resolve(s.cwd, src);
    if !has_entry(s.entries, from) {
        (Err(FsError::NotFound), s, c)
    } else {
        let e = s.entries[index_of(s.entries, from)];
        match read_spec(s, c, src) {
            Err(err) => (Err(err), s, c),
            Ok(data) => {
                let (made, s1) = insert_spec(s, dest, FileType::File, e.owner, e.permission);
                if made.is_err() {
                    (made, s, c)
                } else {
                    write_spec(s1, c, limit, dest, data)
                }
            },
        }
    }
}

/// `move`: copy, then remove the source. When the removal fails the copy
/// stays.
pub open spec fn mv_spec(
    s: FsState,
    c: Seq<u8>,
    limit: nat,
    src: Seq<char>,
    dest: Seq<char>,
) -> (Result<(), FsError>, FsState, Seq<u8>) {
    let (copied, s1, c1) = cp_spec(s, c, limit, src, dest);
    if copied.is_err() {
        (copied, s1, c1)
    } else {
        let (removed, s2) = rm_spec(s1, src);
        (removed, s2, c1)
    }
}

/// The line that `list` shows for an entry: its kind in colour, its path,
/// and a separator after a directory.
pub open spec fn listing_line(e: EntryView) -> Seq<char> {
    match e.kind {
        FileType::Directory => "\x1b[34m"@ + "Directory"@ + "\x1b[0m"@ + " "@ + e.name + "/"@
            + "\n"@,
        FileType::File => "\x1b[33m"@ + "File"@ + "\x1b[0m"@ + " "@ + e.name + "\n"@,
    }
}

/// The lines of the entries among the first `upto` whose parent is `cwd`,
/// in table order, as bytes.
pub open spec fn listing(entries: Seq<EntryView>, cwd: Seq<char>, upto: int) -> Seq<u8>
    decreases upto,
{
    if upto <= 0 {
        Seq::empty()
    } else if entries[upto - 1].parent == Some(cwd) {
        listing(entries, cwd, upto - 1) + vstd::utf8::encode_utf8(listing_line(entries[upto - 1]))
    } else {
        listing(entries, cwd, upto - 1)
    }
}

/// `list`: the text shown for the directory at the cursor.
pub open spec fn ls_spec(s: FsState) -> Seq<u8> {
    crate::stdio::trimmed(listing(s.entries, s.cwd, s.entries.len() as int))
}

} // verus!
