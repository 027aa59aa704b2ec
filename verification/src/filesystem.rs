use std::collections::VecDeque;
use vstd::prelude::*;
use vstd::string::*;
use crate::container::Container;
use crate::error::FsError;
use crate::model::{
    alloc_spec, apart, append_fits, blocked, cd_spec, content, cp_spec, create_spec,
    distinct_names, entry_wf, exists_spec, free_after, free_spec, has_entry, index_of,
    initial_state, insert_spec, kept, listing, listing_line, ls_spec, mv_spec, next_after,
    next_pages, nth_alloc, page_fill, pages_apart, pages_for, pages_needed, permitted, read_spec,
    readable, released, rm_spec, store_page, store_pages, sweep_stop, write_spec, EntryView,
    FsState, PAGE_SIZE,
};
use crate::path::{
    contains_separator, is_under, join_paths, parent_for, parent_of, parent_path, resolve,
    resolve_path, starts_at_root, text_eq,
};
use crate::stdio::Stdio;
use crate::user::User;
use crate::wellformed::{
    grown, lemma_alloc_advances, lemma_alloc_wf, lemma_grow_wf, lemma_index_of,
    lemma_insert_wf, lemma_removal_target, lemma_rm_wf, lemma_sweep_stop, swept,
};

verus! {

/// The two kinds of entry.
#[derive(Debug, Clone, Copy, PartialEq, Eq, Structural)]
pub enum FileType {
    File,
    Directory,
}

/// A capability flag of an entry.
#[derive(Debug, Clone, Copy, PartialEq, Eq, Structural)]
pub enum FilePermission {
    Readable,
    Writable,
    Executable,
}

/// What an optional set of flags stands for in contracts.
pub open spec fn permission_view(p: Option<Vec<FilePermission>>) -> Option<Seq<FilePermission>> {
    match p {
        Some(flags) => Some(flags@),
        None => None,
    }
}

/// What an optional text stands for in contracts.
pub open spec fn text_view(t: Option<String>) -> Option<Seq<char>> {
    match t {
        Some(text) => Some(text@),
        None => None,
    }
}

/// The views of the entries of a table, in order.
pub open spec fn entry_views(files: Seq<FileEntry>) -> Seq<EntryView> {
    Seq::new(files.len(), |i: int| files[i]@)
}

/// One record of the entry table.
#[derive(Debug)]
pub struct FileEntry {
    name: String,
    file_type: FileType,
    permission: Option<Vec<FilePermission>>,
    owned_user: Option<String>,
    size: u64,
    pages: Vec<u64>,
    parent: Option<String>,
}

impl View for FileEntry {
    type V = EntryView;

    closed spec fn view(&self) -> EntryView {
        EntryView {
            name: self.name@,
            kind: self.file_type,
            permission: permission_view(self.permission),
            owner: text_view(self.owned_user),
            size: self.size as nat,
            pages: self.pages@,
            parent: text_view(self.parent),
        }
    }
}

/// A copy of an optional set of flags.
pub fn copy_permission(p: &Option<Vec<FilePermission>>) -> (copy: Option<Vec<FilePermission>>)
    ensures
        permission_view(copy) == permission_view(*p),
{
    match p {
        None => None,
        Some(flags) => {
            let mut out: Vec<FilePermission> = Vec::new();
            let mut i: usize = 0;
            while i < flags.len()
                invariant
                    i <= flags@.len(),
                    out@ == flags@.take(i as int),
                decreases flags@.len() - i,
            {
                out.push(flags[i]);
                proof {
                    assert(out@ =~= flags@.take(i + 1));
                }
                i += 1;
            }
            proof {
                assert(flags@.take(flags@.len() as int) =~= flags@);
            }
            Some(out)
        },
    }
}

/// A copy of an optional text.
pub fn copy_text(t: &Option<String>) -> (copy: Option<String>)
    ensures
        text_view(copy) == text_view(*t),
{
    match t {
        None => None,
        Some(text) => Some(text.clone()),
    }
}

impl Clone for FileEntry {
    fn clone(&self) -> (copy: FileEntry)
        ensures
            copy@ == self@,
    {
        FileEntry {
            name: self.name.clone(),
            file_type: self.file_type,
            permission: copy_permission(&self.permission),
            owned_user: copy_text(&self.owned_user),
            size: self.size,
            pages: self.pages.clone(),
            parent: copy_text(&self.parent),
        }
    }
}

impl FileEntry {
    /// An entry made of the given parts.
    pub fn new(
        name: String,
        file_type: FileType,
        permission: Option<Vec<FilePermission>>,
        owned_user: Option<String>,
        size: u64,
        pages: Vec<u64>,
        parent: Option<String>,
    ) -> (entry: FileEntry)
        ensures
            entry@ == (EntryView {
                name: name@,
                kind: file_type,
                permission: permission_view(permission),
                owner: text_view(owned_user),
                size: size as nat,
                pages: pages@,
                parent: text_view(parent),
            }),
    {
        FileEntry { name, file_type, permission, owned_user, size, pages, parent }
    }

    /// The canonical path of the entry, which is also its key.
    pub fn name(&self) -> (name: &String)
        ensures
            name@ == self@.name,
    {
        &self.name
    }

    /// Whether the entry is a file or a directory.
    pub fn file_type(&self) -> (kind: FileType)
        ensures
            kind == self@.kind,
    {
        self.file_type
    }

    /// The flags of the entry, if any were given.
    pub fn permission(&self) -> (permission: &Option<Vec<FilePermission>>)
        ensures
            permission_view(*permission) == self@.permission,
    {
        &self.permission
    }

    /// The name of the owner, if the entry has one.
    pub fn owned_user(&self) -> (owner: &Option<String>)
        ensures
            text_view(*owner) == self@.owner,
    {
        &self.owned_user
    }

    /// Number of bytes of content.
    pub fn size(&self) -> (size: u64)
        ensures
            size == self@.size,
    {
        self.size
    }

    /// The offsets of the pages that hold the content, in order.
    pub fn pages(&self) -> (pages: &Vec<u64>)
        ensures
            pages@ == self@.pages,
    {
        &self.pages
    }

    /// The path of the directory that holds the entry; the root has none.
    pub fn parent(&self) -> (parent: &Option<String>)
        ensures
            text_view(*parent) == self@.parent,
    {
        &self.parent
    }
}

/// What is persisted of an engine: everything but the acting user.
#[derive(Debug)]
pub struct Snapshot {
    pub files: Vec<FileEntry>,
    pub next_offset: u64,
    pub current_path: String,
    pub free_list: Vec<u64>,
}

impl Snapshot {
    /// The state that the snapshot holds, with `user` acting.
    pub open spec fn state(&self, user: Seq<char>) -> FsState {
        FsState {
            entries: entry_views(self.files@),
            next_offset: self.next_offset as nat,
            free_list: self.free_list@,
            cwd: self.current_path@,
            user,
        }
    }
}

/// Every page lies below `next`.
pub open spec fn pages_below(pages: Seq<u64>, next: nat) -> bool {
    forall|k: int| 0 <= k < pages.len() ==> (#[trigger] pages[k]) + PAGE_SIZE <= next
}

/// No two of the pages overlap.
pub open spec fn pages_spread(pages: Seq<u64>) -> bool {
    forall|k: int, l: int| 0 <= k < l < pages.len() ==> apart(#[trigger] pages[k], #[trigger] pages[l])
}

/// Whether two pages do not overlap.
fn check_apart(p: u64, q: u64) -> (ok: bool)
    ensures
        ok == apart(p, q),
{
    (q >= PAGE_SIZE && p <= q - PAGE_SIZE) || (p >= PAGE_SIZE && q <= p - PAGE_SIZE)
}

/// Whether every page lies below `next`.
fn check_below(pages: &Vec<u64>, next: u64) -> (ok: bool)
    ensures
        ok == pages_below(pages@, next as nat),
{
    let mut k: usize = 0;
    while k < pages.len()
        invariant
            k <= pages@.len(),
            forall|x: int| 0 <= x < k ==> (#[trigger] pages@[x]) + PAGE_SIZE <= next,
        decreases pages@.len() - k,
    {
        if next < PAGE_SIZE || pages[k] > next - PAGE_SIZE {
            return false;
        }
        k += 1;
    }
    true
}

/// Whether no page of `a` overlaps a page of `b`.
fn check_clear(a: &Vec<u64>, b: &Vec<u64>) -> (ok: bool)
    ensures
        ok == pages_apart(a@, b@),
{
    let mut k: usize = 0;
    while k < a.len()
        invariant
            k <= a@.len(),
            forall|x: int, y: int|
                0 <= x < k && 0 <= y < b@.len() ==> apart(#[trigger] a@[x], #[trigger] b@[y]),
        decreases a@.len() - k,
    {
        let mut l: usize = 0;
        while l < b.len()
            invariant
                k < a@.len(),
                l <= b@.len(),
                forall|y: int| 0 <= y < l ==> apart(a@[k as int], #[trigger] b@[y]),
            decreases b@.len() - l,
        {
            if !check_apart(a[k], b[l]) {
                return false;
            }
            l += 1;
        }
        k += 1;
    }
    true
}

/// Whether no two of the pages overlap.
fn check_spread(pages: &Vec<u64>) -> (ok: bool)
    ensures
        ok == pages_spread(pages@),
{
    let mut k: usize = 0;
    while k < pages.len()
        invariant
            k <= pages@.len(),
            forall|x: int, y: int|
                0 <= x < k && x < y < pages@.len() ==> apart(#[trigger] pages@[x], #[trigger] pages@[y]),
        decreases pages@.len() - k,
    {
        let mut l: usize = k + 1;
        while l < pages.len()
            invariant
                k < pages@.len(),
                k < l <= pages@.len(),
                forall|y: int| k < y < l ==> apart(pages@[k as int], #[trigger] pages@[y]),
            decreases pages@.len() - l,
        {
            if !check_apart(pages[k], pages[l]) {
                return false;
            }
            l += 1;
        }
        k += 1;
    }
    true
}

/// Whether no two entries share a name.
fn check_names(files: &Vec<FileEntry>) -> (ok: bool)
    ensures
        ok == distinct_names(entry_views(files@)),
{
    let ghost entries = entry_views(files@);
    let mut i: usize = 0;
    while i < files.len()
        invariant
            i <= files@.len(),
            entries == entry_views(files@),
            forall|x: int, y: int|
                0 <= x < i && x < y < entries.len() ==> (#[trigger] entries[x]).name != (
                #[trigger] entries[y]).name,
        decreases files@.len() - i,
    {
        let mut j: usize = i + 1;
        while j < files.len()
            invariant
                i < files@.len(),
                i < j <= files@.len(),
                entries == entry_views(files@),
                forall|y: int| i < y < j ==> entries[i as int].name != (#[trigger] entries[y]).name,
            decreases files@.len() - j,
        {
            if files[i].name == files[j].name {
                assert(entries[i as int].name == entries[j as int].name);
                return false;
            }
            j += 1;
        }
        i += 1;
    }
    true
}

/// Whether the parts of a snapshot satisfy the invariant of the engine.
fn check_sound(files: &Vec<FileEntry>, next_offset: u64, free_list: &Vec<u64>) -> (ok: bool)
    ensures
        ok == (FsState {
            entries: entry_views(files@),
            next_offset: next_offset as nat,
            free_list: free_list@,
            cwd: Seq::empty(),
            user: Seq::empty(),
        }).wf(),
{
    let ghost entries = entry_views(files@);
    let ghost next = next_offset as nat;
    if !check_names(files) {
        return false;
    }
    if !check_below(free_list, next_offset) || !check_spread(free_list) {
        return false;
    }
    let mut i: usize = 0;
    while i < files.len()
        invariant
            i <= files@.len(),
            entries == entry_views(files@),
            next == next_offset,
            forall|x: int| 0 <= x < i ==> entry_wf(#[trigger] entries[x], next),
            forall|x: int| 0 <= x < i ==> pages_apart((#[trigger] entries[x]).pages, free_list@),
            forall|x: int, y: int|
                0 <= x < i && x < y < entries.len() ==> pages_apart(
                    (#[trigger] entries[x]).pages,
                    (#[trigger] entries[y]).pages,
                ),
        decreases files@.len() - i,
    {
        let entry = &files[i];
        assert(entry@ == entries[i as int]);
        let sized = entry.pages.len() as u64 == FileSystem::page_count(entry.size);
        if !sized || !check_below(&entry.pages, next_offset) || !check_spread(&entry.pages)
            || !check_clear(&entry.pages, free_list) {
            assert(!(entry_wf(entries[i as int], next) && pages_apart(
                entries[i as int].pages,
                free_list@,
            )));
            return false;
        }
        let mut j: usize = i + 1;
        while j < files.len()
            invariant
                i < files@.len(),
                i < j <= files@.len(),
                entries == entry_views(files@),
                entry == files@[i as int],
                forall|y: int|
                    i < y < j ==> pages_apart(entries[i as int].pages, (#[trigger] entries[y]).pages),
            decreases files@.len() - j,
        {
            if !check_clear(&entry.pages, &files[j].pages) {
                assert(!pages_apart(entries[i as int].pages, entries[j as int].pages));
                return false;
            }
            j += 1;
        }
        i += 1;
    }
    true
}

/// The engine: the entry table, the block store, the cursor and the acting
/// user.
#[derive(Debug)]
pub struct FileSystem {
    files: Vec<FileEntry>,
    next_offset: u64,
    pub current_path: String,
    current_user: User,
    free_list: VecDeque<u64>,
}

impl View for FileSystem {
    type V = FsState;

    closed spec fn view(&self) -> FsState {
        FsState {
            entries: entry_views(self.files@),
            next_offset: self.next_offset as nat,
            free_list: self.free_list@,
            cwd: self.current_path@,
            user: self.current_user@.name,
        }
    }
}

impl FileSystem {
    /// The invariant of the engine.
    pub open spec fn wf(&self) -> bool {
        self@.wf()
    }

    /// A fresh engine for `user`: only the root directory, owned by `user`.
    pub fn new(user: User) -> (fs: FileSystem)
        ensures
            fs@ == initial_state(user@.name),
            fs.wf(),
    {
        proof {
            reveal_strlit("/");
            assert("/"@ =~= crate::path::root_path());
        }
        let mut flags: Vec<FilePermission> = Vec::new();
        flags.push(FilePermission::Readable);
        flags.push(FilePermission::Writable);
        assert(flags@ =~= seq![FilePermission::Readable, FilePermission::Writable]);
        let root = FileEntry {
            name: String::from_str("/"),
            file_type: FileType::Directory,
            permission: Some(flags),
            owned_user: Some(user.get_user_name()),
            size: 0,
            pages: Vec::new(),
            parent: None,
        };
        let mut files: Vec<FileEntry> = Vec::new();
        files.push(root);
        let fs = FileSystem {
            files,
            next_offset: 0,
            current_path: String::from_str("/"),
            current_user: user,
            free_list: VecDeque::new(),
        };
        proof {
            assert(fs@.entries =~= initial_state(user@.name).entries);
            assert(fs@.free_list =~= Seq::<u64>::empty());
            assert(fs@.entries[0].pages =~= Seq::<u64>::empty());
        }
        fs
    }

    /// The cursor.
    pub fn current_path(&self) -> (path: &String)
        ensures
            path@ == self@.cwd,
    {
        &self.current_path
    }

    /// The canonical path that `name` denotes at the cursor.
    pub fn get_full_path(&self, name: &str) -> (full: String)
        ensures
            full@ == resolve(self@.cwd, name@),
    {
        resolve_path(self.current_path.as_str(), name)
    }

    /// `path` without its last segment; empty when nothing is above it.
    pub fn extract_parent_paths(path: &str) -> (parent: String)
        ensures
            parent@ == parent_of(path@),
    {
        parent_path(path)
    }

    /// Position of the entry stored under `path`.
    fn find(&self, path: &String) -> (found: Option<usize>)
        ensures
            match found {
                Some(i) => i < self@.entries.len() && self@.entries[i as int].name == path@,
                None => !has_entry(self@.entries, path@),
            },
    {
        let mut i: usize = 0;
        while i < self.files.len()
            invariant
                i <= self.files@.len(),
                forall|k: int| 0 <= k < i ==> (#[trigger] self@.entries[k]).name != path@,
            decreases self.files@.len() - i,
        {
            if self.files[i].name == *path {
                return Some(i);
            }
            i += 1;
        }
        None
    }

    /// The directory that holds an entry created under `name`.
    fn parent_of_new(&self, name: &str) -> (parent: String)
        ensures
            parent@ == parent_for(self@.cwd, name@),
    {
        if starts_at_root(name) {
            parent_path(name)
        } else if contains_separator(name) {
            let above = parent_path(name);
            join_paths(self.current_path.as_str(), above.as_str())
        } else {
            self.current_path.clone()
        }
    }

    /// Inserts an entry without content under `name`.
    fn insert_entry(
        &mut self,
        name: &str,
        file_type: FileType,
        owner: Option<String>,
        permission: Option<Vec<FilePermission>>,
    ) -> (r: Result<(), FsError>)
        requires
            old(self).wf(),
        ensures
            final(self).wf(),
            (r, final(self)@) == insert_spec(
                old(self)@,
                name@,
                file_type,
                text_view(owner),
                permission_view(permission),
            ),
    {
        let full_path = self.get_full_path(name);
        if self.find(&full_path).is_some() {
            return Err(FsError::AlreadyExists);
        }
        let parent = self.parent_of_new(name);
        let entry = FileEntry {
            name: full_path,
            file_type,
            permission,
            owned_user: owner,
            size: 0,
            pages: Vec::new(),
            parent: Some(parent),
        };
        self.files.push(entry);
        proof {
            let spec = insert_spec(
                old(self)@,
                name@,
                file_type,
                text_view(owner),
                permission_view(permission),
            );
            lemma_insert_wf(
                old(self)@,
                name@,
                file_type,
                text_view(owner),
                permission_view(permission),
            );
            assert(self@.entries =~= spec.1.entries);
        }
        Ok(())
    }

    /// Creates an entry under `name`, owned by `user`. Fails with
    /// `AlreadyExists` when the resolved path is taken.
    pub fn create_file(
        &mut self,
        name: &str,
        file_type: FileType,
        user: &str,
        permission: Option<Vec<FilePermission>>,
    ) -> (r: Result<(), FsError>)
        requires
            old(self).wf(),
        ensures
            final(self).wf(),
            (r, final(self)@) == create_spec(
                old(self)@,
                name@,
                file_type,
                user@,
                permission_view(permission),
            ),
    {
        self.insert_entry(name, file_type, Some(String::from_str(user)), permission)
    }

    /// Whether an entry is stored under `name`.
    pub fn is_file_exists(&self, name: &str) -> (found: bool)
        ensures
            found == exists_spec(self@, name@),
    {
        let full_path = self.get_full_path(name);
        self.find(&full_path).is_some()
    }

    /// Moves the cursor. `.` stays; `..` follows the stored parent of the
    /// entry at the cursor; any other target must be a directory.
    pub fn cd(&mut self, path: &str) -> (r: Result<(), FsError>)
        requires
            old(self).wf(),
        ensures
            final(self).wf(),
            (r, final(self)@) == cd_spec(old(self)@, path@),
    {
        proof {
            reveal_strlit(".");
            reveal_strlit("..");
            assert("."@ =~= seq!['.']);
            assert(".."@ =~= seq!['.', '.']);
        }
        let full_path = self.get_full_path(path);
        if text_eq(path, ".") {
            Ok(())
        } else if text_eq(path, "..") {
            let here = self.current_path.clone();
            match self.find(&here) {
                None => Err(FsError::NotFound),
                Some(i) => {
                    proof {
                        lemma_index_of(self@.entries, here@, i as int);
                    }
                    match copy_text(&self.files[i].parent) {
                        None => Err(FsError::NotFound),
                        Some(parent) => {
                            self.current_path = parent;
                            Ok(())
                        },
                    }
                },
            }
        } else {
            match self.find(&full_path) {
                None => Err(FsError::NotFound),
                Some(i) => {
                    proof {
                        lemma_index_of(self@.entries, full_path@, i as int);
                    }
                    match self.files[i].file_type {
                        FileType::Directory => {
                            self.current_path = full_path;
                            Ok(())
                        },
                        FileType::File => Err(FsError::WrongEntryKind),
                    }
                },
            }
        }
    }

    /// The flags that `touch` and `mkdir` give a new entry.
    fn default_flags() -> (flags: Option<Vec<FilePermission>>)
        ensures
            permission_view(flags) == Some(seq![FilePermission::Readable, FilePermission::Writable]),
    {
        let mut flags: Vec<FilePermission> = Vec::new();
        flags.push(FilePermission::Readable);
        flags.push(FilePermission::Writable);
        assert(flags@ =~= seq![FilePermission::Readable, FilePermission::Writable]);
        Some(flags)
    }

    /// Creates a file owned by the acting user, readable and writable.
    pub fn touch(&mut self, name: &str) -> (r: Result<(), FsError>)
        requires
            old(self).wf(),
        ensures
            final(self).wf(),
            (r, final(self)@) == create_spec(
                old(self)@,
                name@,
                FileType::File,
                old(self)@.user,
                Some(seq![FilePermission::Readable, FilePermission::Writable]),
            ),
    {
        let owner = self.current_user.get_user_name();
        self.create_file(name, FileType::File, owner.as_str(), Self::default_flags())
    }

    /// Creates a directory owned by the acting user, readable and writable.
    pub fn mkdir(&mut self, name: &str) -> (r: Result<(), FsError>)
        requires
            old(self).wf(),
        ensures
            final(self).wf(),
            (r, final(self)@) == create_spec(
                old(self)@,
                name@,
                FileType::Directory,
                old(self)@.user,
                Some(seq![FilePermission::Readable, FilePermission::Writable]),
            ),
    {
        let owner = self.current_user.get_user_name();
        self.create_file(name, FileType::Directory, owner.as_str(), Self::default_flags())
    }

    /// Takes the next offset from the block store and zero-fills `size`
    /// bytes there.
    fn take_page(&mut self, size: u64, container: &mut Container) -> (r: Result<u64, FsError>)
        ensures
            final(container).limit() == old(container).limit(),
            (r, final(self)@, final(container)@) == alloc_spec(
                old(self)@,
                old(container)@,
                old(container).limit(),
                size,
            ),
    {
        if self.free_list.len() > 0 {
            let offset = self.free_list[0];
            match container.zero_fill(offset, size) {
                Err(e) => Err(e),
                Ok(()) => {
                    self.free_list.pop_front();
                    assert(self@.free_list =~= old(self)@.free_list.skip(1));
                    Ok(offset)
                },
            }
        } else {
            let offset = self.next_offset;
            match container.zero_fill(offset, size) {
                Err(e) => Err(e),
                Ok(()) => {
                    if size > 0 {
                        let limit = container.max_len();
                        assert(offset + size <= limit);
                        self.next_offset = offset + size;
                    }
                    Ok(offset)
                },
            }
        }
    }

    /// Allocates `size` bytes in the container: the head of the free list if
    /// there is one, else the high-water mark, which then advances by `size`.
    /// The bytes are zero-filled. Fails with `IoFailure`, changing nothing,
    /// when the container cannot hold them.
    pub fn allocate_page(&mut self, size: u64, container: &mut Container) -> (r: Result<
        u64,
        FsError,
    >)
        requires
            old(self).wf(),
        ensures
            final(self).wf(),
            final(container).limit() == old(container).limit(),
            (r, final(self)@, final(container)@) == alloc_spec(
                old(self)@,
                old(container)@,
                old(container).limit(),
                size,
            ),
    {
        let limit = container.max_len();
        proof {
            lemma_alloc_wf(self@, container@, limit as nat, size);
        }
        self.take_page(size, container)
    }

    /// Returns `offset` to the block store: it joins the tail of the free
    /// list, its bytes stay as they are.
    fn release_page(&mut self, offset: u64)
        ensures
            final(self)@ == free_spec(old(self)@, offset),
    {
        self.free_list.push_back(offset);
    }

    /// Reads the whole content of the entry under `name`: its pages in order,
    /// the last one cut at the size. Fails with `NotFound` when there is no
    /// such entry and with `IoFailure` when the container does not hold all
    /// of its bytes.
    #[verifier::loop_isolation(false)]
    pub fn read_file(&self, name: &str, container: &Container) -> (r: Result<Vec<u8>, FsError>)
        requires
            self.wf(),
        ensures
            match r {
                Ok(bytes) => read_spec(self@, container@, name@) == Ok::<Seq<u8>, FsError>(bytes@),
                Err(e) => read_spec(self@, container@, name@) == Err::<Seq<u8>, FsError>(e),
            },
    {
        let full_path = self.get_full_path(name);
        match self.find(&full_path) {
            None => Err(FsError::NotFound),
            Some(i) => {
                proof {
                    lemma_index_of(self@.entries, full_path@, i as int);
                }
                let entry = &self.files[i];
                let ghost e = entry@;
                assert(e == self@.entries[i as int]);
                assert(entry_wf(e, self@.next_offset));
                let mut buffer: Vec<u8> = Vec::new();
                let mut q: usize = 0;
                while q < entry.pages.len()
                    invariant
                        q <= entry.pages@.len(),
                        e == entry@,
                        e.pages.len() == pages_for(e.size as int),
                        buffer@.len() == (if q * PAGE_SIZE <= e.size { q * PAGE_SIZE } else { e.size as int }),
                        forall|x: int| 0 <= x < buffer@.len() ==> buffer@[x] == container@[e.pages[x / (PAGE_SIZE as int)] + x % (PAGE_SIZE as int)],
                        forall|p: int| 0 <= p < q ==> (#[trigger] e.pages[p]) + page_fill(e.size as int, p) <= container@.len(),
                    decreases entry.pages@.len() - q,
                {
                    let offset = entry.pages[q];
                    let remaining: u64 = entry.size - (q as u64) * PAGE_SIZE;
                    let count: usize = if remaining >= PAGE_SIZE {
                        PAGE_SIZE as usize
                    } else {
                        remaining as usize
                    };
                    assert(count == page_fill(e.size as int, q as int));
                    assert(count > 0);
                    assert(buffer@.len() == q * PAGE_SIZE);
                    match container.read_at(offset, count) {
                        Err(err) => {
                            assert(!readable(container@, e.pages, e.size as int));
                            return Err(err);
                        },
                        Ok(chunk) => {
                            let ghost before = buffer@;
                            let mut k: usize = 0;
                            while k < count
                                invariant
                                    k <= count,
                                    chunk@.len() == count,
                                    buffer@.len() == before.len() + k,
                                    forall|x: int| 0 <= x < before.len() ==> buffer@[x] == before[x],
                                    forall|x: int| 0 <= x < k ==> buffer@[before.len() + x] == chunk@[x],
                                decreases count - k,
                            {
                                buffer.push(chunk[k]);
                                k += 1;
                            }
                            assert forall|x: int| 0 <= x < buffer@.len() implies buffer@[x] == container@[e.pages[x / (PAGE_SIZE as int)] + x % (PAGE_SIZE as int)] by {
                                if x >= before.len() {
                                    let y = x - before.len();
                                    assert(before.len() == q * PAGE_SIZE);
                                    assert(buffer@[before.len() + y] == chunk@[y]);
                                    assert(chunk@[y] == container@[offset + y]);
                                    assert(x / (PAGE_SIZE as int) == q);
                                    assert(x % (PAGE_SIZE as int) == y);
                                } else {
                                    assert(buffer@[x] == before[x]);
                                }
                            }
                        },
                    }
                    q += 1;
                }
                proof {
                    assert(readable(container@, e.pages, e.size as int));
                    assert(buffer@ =~= content(container@, e.pages, e.size));
                }
                Ok(buffer)
            },
        }
    }

    /// Number of pages that hold `size` bytes.
    fn page_count(size: u64) -> (n: u64)
        ensures
            n == pages_for(size as int),
    {
        if size % PAGE_SIZE == 0 {
            size / PAGE_SIZE
        } else {
            size / PAGE_SIZE + 1
        }
    }

    /// The owner check for entry `i`.
    fn may_modify(&self, i: usize) -> (ok: bool)
        requires
            i < self@.entries.len(),
        ensures
            ok == permitted(self@.user, self@.entries[i as int].owner),
    {
        if self.current_user.is_admin() {
            true
        } else {
            match &self.files[i].owned_user {
                Some(owner) => *owner == self.current_user.get_user_name(),
                None => false,
            }
        }
    }

    /// Whether appending `len` bytes to entry `i` stays within `limit`.
    #[verifier::loop_isolation(false)]
    fn append_would_fit(&self, i: usize, len: usize, limit: usize) -> (ok: bool)
        requires
            self.wf(),
            i < self@.entries.len(),
        ensures
            ok == append_fits(
                self@.entries[i as int],
                self@.free_list,
                self@.next_offset,
                len as int,
                limit as nat,
            ),
    {
        if len == 0 {
            return true;
        }
        let entry = &self.files[i];
        let ghost e = self@.entries[i as int];
        let ghost free = self@.free_list;
        let ghost next = self@.next_offset;
        assert(e == entry@);
        assert(entry_wf(e, next));
        let size = entry.size;
        if len as u128 + size as u128 > u64::MAX as u128 {
            return false;
        }
        let total: u64 = size + len as u64;
        let need: u64 = Self::page_count(total) - entry.pages.len() as u64;
        assert(need == pages_needed(e, len as int));
        let rem = size % PAGE_SIZE;
        if rem != 0 {
            let last = entry.pages[entry.pages.len() - 1];
            assert(last == e.pages.last());
            let tail_end: u128 = if rem as u128 + len as u128 <= PAGE_SIZE as u128 {
                last as u128 + rem as u128 + len as u128
            } else {
                last as u128 + PAGE_SIZE as u128
            };
            if tail_end > limit as u128 {
                return false;
            }
        }
        let listed: usize = self.free_list.len();
        let mut j: usize = 0;
        while j < listed && (j as u64) < need
            invariant
                j <= listed,
                j <= need,
                listed == free.len(),
                free == self.free_list@,
                forall|k: int| 0 <= k < j ==> #[trigger] nth_alloc(free, next, k) + PAGE_SIZE <= limit,
            decreases listed - j,
        {
            if self.free_list[j] as u128 + PAGE_SIZE as u128 > limit as u128 {
                assert(nth_alloc(free, next, j as int) + PAGE_SIZE > limit);
                return false;
            }
            j += 1;
        }
        if need > listed as u64 {
            let fresh: u64 = need - listed as u64;
            if self.next_offset as u128 + fresh as u128 * PAGE_SIZE as u128 > limit as u128 {
                assert(nth_alloc(free, next, need - 1) + PAGE_SIZE > limit);
                return false;
            }
            assert forall|k: int| 0 <= k < need implies #[trigger] nth_alloc(free, next, k)
                + PAGE_SIZE <= limit by {
                if k >= listed {
                    assert(next + (k - listed) * PAGE_SIZE + PAGE_SIZE <= next + fresh * PAGE_SIZE);
                }
            }
        }
        true
    }

    /// Appends `data` to the entry under `name`, one page at a time: at a
    /// page boundary a page is allocated and joins the entry's pages, then
    /// as many bytes as the page still takes are written to it. Fails with
    /// `NotFound` when there is no such entry, with `PermissionDenied` when
    /// the acting user is neither the administrator nor the owner, and with
    /// `IoFailure` when the container cannot hold the grown file; a failure
    /// changes nothing.
    #[verifier::rlimit(40)]
    pub fn write_file(&mut self, name: &str, data: &[u8], container: &mut Container) -> (r: Result<
        (),
        FsError,
    >)
        requires
            old(self).wf(),
        ensures
            final(self).wf(),
            final(container).limit() == old(container).limit(),
            (r, final(self)@, final(container)@) == write_spec(
                old(self)@,
                old(container)@,
                old(container).limit(),
                name@,
                data@,
            ),
    {
        let full_path = self.get_full_path(name);
        let i = match self.find(&full_path) {
            None => {
                return Err(FsError::NotFound);
            },
            Some(i) => i,
        };
        proof {
            lemma_index_of(self@.entries, full_path@, i as int);
        }
        if !self.may_modify(i) {
            return Err(FsError::PermissionDenied);
        }
        let limit = container.max_len();
        let n = data.len();
        if !self.append_would_fit(i, n, limit) {
            return Err(FsError::IoFailure);
        }
        if n == 0 {
            return Ok(());
        }
        let ghost s = self@;
        let ghost c0 = container@;
        let ghost e = s.entries[i as int];
        let ghost s0 = e.size as int;
        let ghost old_n = e.pages.len() as int;
        let ghost count = pages_needed(e, n as int);
        let ghost plan = e.pages + next_pages(s.free_list, s.next_offset, count);
        proof {
            lemma_grow_wf(s, i as int, n as int, limit as nat);
            assert(entry_wf(e, s.next_offset));
        }
        let mut pages: Vec<u64> = self.files[i].pages.clone();
        let mut size: u64 = self.files[i].size;
        let mut done: usize = 0;
        let ghost mut upto: int = s0 / (PAGE_SIZE as int);
        assert(pages@ =~= plan.take(old_n));
        while done < n
            invariant
                n == data@.len(),
                limit <= usize::MAX,
                s0 == e.size,
                old_n == e.pages.len(),
                old_n == pages_for(s0),
                count == pages_needed(e, n as int),
                count >= 0,
                plan == e.pages + next_pages(s.free_list, s.next_offset, count),
                append_fits(e, s.free_list, s.next_offset, n as int, limit as nat),
                done <= n,
                size == s0 + done,
                old_n <= pages@.len() <= plan.len(),
                pages@ == plan.take(pages@.len() as int),
                pages@.len() == pages_for(size as int),
                self@.entries == s.entries,
                self@.cwd == s.cwd,
                self@.user == s.user,
                self@.free_list == free_after(s.free_list, pages@.len() - old_n),
                self@.next_offset == next_after(s.free_list, s.next_offset, pages@.len() - old_n),
                container.limit() == limit,
                container@ == store_pages(c0, plan, old_n, s0, data@, upto),
                done < n ==> upto == size / PAGE_SIZE,
                done == n ==> upto == plan.len(),
                0 < done < n ==> size % PAGE_SIZE == 0,
            decreases n - done,
        {
            let ghost j = pages@.len() - old_n;
            let ghost c1 = container@;
            let ghost q = upto;
            assert(plan.len() == old_n + count);
            if size % PAGE_SIZE == 0 {
                assert(j < count);
                assert(nth_alloc(s.free_list, s.next_offset, j) + PAGE_SIZE <= limit);
                proof {
                    lemma_alloc_advances(s.free_list, s.next_offset, j);
                }
                match self.take_page(PAGE_SIZE, container) {
                    Err(err) => {
                        assert(false);
                        return Err(err);
                    },
                    Ok(p) => {
                        pages.push(p);
                        proof {
                            assert(p == plan[old_n + j]);
                            assert(pages@ =~= plan.take(old_n + j + 1));
                        }
                    },
                }
            }
            let current = pages[pages.len() - 1];
            let offset_in_page: u64 = size % PAGE_SIZE;
            let room: u64 = PAGE_SIZE - offset_in_page;
            let left: usize = n - done;
            let write_size: usize = if (left as u64) < room {
                left
            } else {
                room as usize
            };
            let chunk = vstd::slice::slice_subrange(data, done, done + write_size);
            proof {
                assert(q == size / PAGE_SIZE);
                assert(q == pages@.len() - 1);
                assert(current == plan[q]);
                if q >= old_n {
                    assert(current == nth_alloc(s.free_list, s.next_offset, q - old_n));
                    assert(current + PAGE_SIZE <= limit);
                } else {
                    assert(current == e.pages.last());
                }
                assert(current + offset_in_page + write_size <= limit);
            }
            match container.write_at(current + offset_in_page, chunk) {
                Err(err) => {
                    assert(false);
                    return Err(err);
                },
                Ok(()) => {},
            }
            proof {
                let lo = if s0 >= q * PAGE_SIZE { s0 } else { q * PAGE_SIZE };
                let hi = if s0 + n <= (q + 1) * PAGE_SIZE { s0 + n } else { (q + 1) * PAGE_SIZE };
                assert(lo == size);
                assert(hi == size + write_size);
                assert(chunk@ == data@.subrange(lo - s0, hi - s0));
                assert(container@ == store_page(c1, plan, old_n, s0, data@, q));
                upto = upto + 1;
            }
            size += write_size as u64;
            done += write_size;
        }
        self.files[i].pages = pages;
        self.files[i].size = size;
        proof {
            assert(plan.len() == old_n + count);
            assert(pages@ =~= plan);
            assert(self@.entries =~= grown(s, i as int, n as int).entries);
            assert(self@ == grown(s, i as int, n as int));
        }
        Ok(())
    }

    /// Returns `pages` to the block store in order.
    fn release_pages(&mut self, pages: &Vec<u64>)
        ensures
            final(self)@ == (FsState {
                free_list: old(self)@.free_list + pages@,
                ..old(self)@
            }),
    {
        let mut k: usize = 0;
        while k < pages.len()
            invariant
                k <= pages@.len(),
                self@ == (FsState {
                    free_list: old(self)@.free_list + pages@.take(k as int),
                    ..old(self)@
                }),
            decreases pages@.len() - k,
        {
            let ghost before = self@.free_list;
            self.release_page(pages[k]);
            proof {
                assert(before.push(pages@[k as int]) =~= old(self)@.free_list + pages@.take(k + 1));
            }
            k += 1;
        }
        proof {
            assert(pages@.take(pages@.len() as int) =~= pages@);
            assert(old(self)@.free_list + pages@.take(0) =~= old(self)@.free_list);
        }
    }

    /// Sweeps the table below `dir`: every entry whose path begins with
    /// `dir` and a separator is removed in table order, the pages of files
    /// join the free list. The first file that fails the owner check stops
    /// the sweep; the result says whether one did.
    #[verifier::rlimit(40)]
    fn sweep(&mut self, dir: &String) -> (stopped: bool)
        ensures
            stopped == (sweep_stop(old(self)@.entries, dir@, old(self)@.user, 0) < old(
                self,
            )@.entries.len()),
            final(self)@ == (FsState {
                entries: swept(
                    old(self)@.entries,
                    dir@,
                    sweep_stop(old(self)@.entries, dir@, old(self)@.user, 0),
                ),
                free_list: old(self)@.free_list + released(
                    old(self)@.entries,
                    dir@,
                    sweep_stop(old(self)@.entries, dir@, old(self)@.user, 0),
                ),
                ..old(self)@
            }),
    {
        let ghost s = self@;
        let ghost stop = sweep_stop(s.entries, dir@, s.user, 0);
        let mut k: usize = 0;
        let ghost mut j: int = 0;
        assert(self@.entries =~= swept(s.entries, dir@, 0));
        assert(s.free_list + released(s.entries, dir@, 0) =~= s.free_list);
        while k < self.files.len()
            invariant
                s == old(self)@,
                0 <= j <= s.entries.len(),
                k == kept(s.entries, dir@, j).len(),
                stop == sweep_stop(s.entries, dir@, s.user, 0),
                stop == sweep_stop(s.entries, dir@, s.user, j),
                self@ == (FsState {
                    entries: swept(s.entries, dir@, j),
                    free_list: s.free_list + released(s.entries, dir@, j),
                    ..s
                }),
            decreases s.entries.len() - j,
        {
            let ghost first = kept(s.entries, dir@, j);
            assert(j < s.entries.len());
            assert(self@.entries[k as int] == s.entries[j]);
            if is_under(self.files[k].name.as_str(), dir.as_str()) {
                let is_file = match self.files[k].file_type {
                    FileType::File => true,
                    FileType::Directory => false,
                };
                if is_file && !self.may_modify(k) {
                    assert(blocked(s.entries[j], s.user));
                    assert(stop == j);
                    return true;
                }
                let ghost before = self@.entries;
                let entry = self.files.remove(k);
                proof {
                    assert(self@.entries =~= before.remove(k as int));
                    assert(kept(s.entries, dir@, j + 1) == first);
                    assert forall|x: int| 0 <= x < before.len() - 1 implies before.remove(k as int)[x]
                        == swept(s.entries, dir@, j + 1)[x] by {
                        if x >= k {
                            assert(before[x + 1] == s.entries[x + 1 - k + j]);
                        } else {
                            assert(before[x] == first[x]);
                        }
                    }
                    assert(before.remove(k as int) =~= swept(s.entries, dir@, j + 1));
                }
                if is_file {
                    self.release_pages(&entry.pages);
                    assert(self@.free_list =~= s.free_list + released(s.entries, dir@, j + 1));
                }
            } else {
                assert(self@.entries =~= swept(s.entries, dir@, j + 1));
                k += 1;
            }
            proof {
                j = j + 1;
            }
        }
        proof {
            assert(self@.entries.len() == kept(s.entries, dir@, j).len() + s.entries.len() - j);
            assert(self@.entries.len() == self.files@.len());
            assert(j == s.entries.len());
        }
        false
    }

    /// Removes the file at position `i` after the owner check.
    fn remove_file(&mut self, i: usize) -> (r: Result<(), FsError>)
        requires
            i < old(self)@.entries.len(),
        ensures
            r == (if permitted(old(self)@.user, old(self)@.entries[i as int].owner) {
                Ok::<(), FsError>(())
            } else {
                Err::<(), FsError>(FsError::PermissionDenied)
            }),
            r.is_err() ==> final(self)@ == old(self)@,
            r.is_ok() ==> final(self)@ == (FsState {
                entries: old(self)@.entries.remove(i as int),
                free_list: old(self)@.free_list + old(self)@.entries[i as int].pages,
                ..old(self)@
            }),
    {
        if !self.may_modify(i) {
            return Err(FsError::PermissionDenied);
        }
        let entry = self.files.remove(i);
        assert(self@.entries =~= old(self)@.entries.remove(i as int));
        self.release_pages(&entry.pages);
        Ok(())
    }

    /// Removes the entry under `name`. A file goes after the owner check
    /// and its pages join the free list. Below a directory every entry whose
    /// path begins with the directory's path and a separator goes first, in
    /// table order, files after the owner check; the first file that fails
    /// it stops the removal with `PermissionDenied`, what went before it
    /// stays removed. The directory itself goes last. Fails with `NotFound`
    /// when there is no such entry.
    #[verifier::rlimit(40)]
    pub fn rm(&mut self, name: &str) -> (r: Result<(), FsError>)
        requires
            old(self).wf(),
        ensures
            final(self).wf(),
            (r, final(self)@) == rm_spec(old(self)@, name@),
    {
        let ghost s = self@;
        proof {
            lemma_rm_wf(s, name@);
        }
        let full_path = self.get_full_path(name);
        let i = match self.find(&full_path) {
            None => {
                return Err(FsError::NotFound);
            },
            Some(i) => i,
        };
        proof {
            lemma_index_of(s.entries, full_path@, i as int);
        }
        match self.files[i].file_type {
            FileType::File => self.remove_file(i),
            FileType::Directory => {
                if self.sweep(&full_path) {
                    return Err(FsError::PermissionDenied);
                }
                let ghost rest = self@.entries;
                proof {
                    lemma_sweep_stop(s.entries, full_path@, s.user, 0);
                    assert(rest == swept(s.entries, full_path@, s.entries.len() as int));
                    lemma_removal_target(s, full_path@, i as int);
                }
                match self.find(&full_path) {
                    None => {
                        assert(false);
                    },
                    Some(d) => {
                        proof {
                            lemma_index_of(rest, full_path@, d as int);
                        }
                        self.files.remove(d);
                        assert(self@.entries =~= rest.remove(d as int));
                    },
                }
                Ok(())
            },
        }
    }

    /// Copies the file under `src_name` to `dest_name`: the source is read
    /// in full, the destination is created as a file with the source's owner
    /// and flags, and the bytes are appended to it. Fails with `NotFound`
    /// when the source is missing, with `AlreadyExists` when the destination
    /// is taken, and as `read_file` and `write_file` fail; when only the
    /// write fails the empty destination stays.
    pub fn cp(&mut self, src_name: &str, dest_name: &str, container: &mut Container) -> (r: Result<
        (),
        FsError,
    >)
        requires
            old(self).wf(),
        ensures
            final(self).wf(),
            final(container).limit() == old(container).limit(),
            (r, final(self)@, final(container)@) == cp_spec(
                old(self)@,
                old(container)@,
                old(container).limit(),
                src_name@,
                dest_name@,
            ),
    {
        let src_full_path = self.get_full_path(src_name);
        let i = match self.find(&src_full_path) {
            None => {
                return Err(FsError::NotFound);
            },
            Some(i) => i,
        };
        proof {
            lemma_index_of(self@.entries, src_full_path@, i as int);
        }
        let data = match self.read_file(src_name, container) {
            Err(e) => {
                return Err(e);
            },
            Ok(data) => data,
        };
        let owner = copy_text(&self.files[i].owned_user);
        let permission = copy_permission(&self.files[i].permission);
        match self.insert_entry(dest_name, FileType::File, owner, permission) {
            Err(e) => {
                return Err(e);
            },
            Ok(()) => {},
        }
        self.write_file(dest_name, data.as_slice(), container)
    }

    /// Moves a file: `cp`, then `rm` of the source. When the removal fails
    /// the copy stays.
    pub fn mv(&mut self, src_name: &str, dest_name: &str, container: &mut Container) -> (r: Result<
        (),
        FsError,
    >)
        requires
            old(self).wf(),
        ensures
            final(self).wf(),
            final(container).limit() == old(container).limit(),
            (r, final(self)@, final(container)@) == mv_spec(
                old(self)@,
                old(container)@,
                old(container).limit(),
                src_name@,
                dest_name@,
            ),
    {
        match self.cp(src_name, dest_name, container) {
            Err(e) => Err(e),
            Ok(()) => self.rm(src_name),
        }
    }

    /// The line that `ls` shows for entry `k`.
    fn render_line(&self, k: usize) -> (line: String)
        requires
            k < self@.entries.len(),
        ensures
            line@ == listing_line(self@.entries[k as int]),
    {
        let entry = &self.files[k];
        match entry.file_type {
            FileType::Directory => String::from_str("\x1b[34m").concat("Directory").concat(
                "\x1b[0m",
            ).concat(" ").concat(entry.name.as_str()).concat("/").concat("\n"),
            FileType::File => String::from_str("\x1b[33m").concat("File").concat("\x1b[0m").concat(
                " ",
            ).concat(entry.name.as_str()).concat("\n"),
        }
    }

    /// Lists the directory at the cursor: one line for each entry whose
    /// parent is the cursor, in table order, trimmed for printing.
    pub fn ls(&self) -> (text: Vec<u8>)
        ensures
            text@ == ls_spec(self@),
    {
        let mut io = Stdio::new();
        let mut k: usize = 0;
        while k < self.files.len()
            invariant
                k <= self@.entries.len(),
                self@.entries.len() == self.files@.len(),
                io@.output == listing(self@.entries, self@.cwd, k as int),
            decreases self.files@.len() - k,
        {
            let listed = match &self.files[k].parent {
                Some(parent) => *parent == self.current_path,
                None => false,
            };
            assert(listed == (self@.entries[k as int].parent == Some(self@.cwd)));
            if listed {
                let line = self.render_line(k);
                io.write(line.as_str().as_bytes());
            }
            k += 1;
        }
        io.print()
    }

    /// What is to be persisted of the engine.
    pub fn save(&self) -> (snapshot: Snapshot)
        ensures
            snapshot.state(self@.user) == self@,
    {
        let mut files: Vec<FileEntry> = Vec::new();
        let mut i: usize = 0;
        while i < self.files.len()
            invariant
                i <= self.files@.len(),
                files@.len() == i,
                forall|x: int| 0 <= x < i ==> (#[trigger] files@[x])@ == self.files@[x]@,
            decreases self.files@.len() - i,
        {
            files.push(self.files[i].clone());
            i += 1;
        }
        let mut free_list: Vec<u64> = Vec::new();
        let mut f: usize = 0;
        while f < self.free_list.len()
            invariant
                f <= self.free_list@.len(),
                free_list@ == self.free_list@.take(f as int),
            decreases self.free_list@.len() - f,
        {
            free_list.push(self.free_list[f]);
            proof {
                assert(free_list@ =~= self.free_list@.take(f + 1));
            }
            f += 1;
        }
        let snapshot = Snapshot {
            files,
            next_offset: self.next_offset,
            current_path: self.current_path.clone(),
            free_list,
        };
        proof {
            assert(self.free_list@.take(self.free_list@.len() as int) =~= self.free_list@);
            assert(snapshot.state(self@.user).entries =~= self@.entries);
        }
        snapshot
    }

    /// Restores an engine from a snapshot and binds it to `user`. Fails with
    /// `IoFailure` when the snapshot does not satisfy the invariant of the
    /// engine.
    pub fn load(snapshot: Snapshot, user: User) -> (r: Result<FileSystem, FsError>)
        ensures
            match r {
                Ok(fs) => fs.wf() && fs@ == snapshot.state(user@.name),
                Err(e) => e == FsError::IoFailure && !snapshot.state(user@.name).wf(),
            },
    {
        if !check_sound(&snapshot.files, snapshot.next_offset, &snapshot.free_list) {
            return Err(FsError::IoFailure);
        }
        let mut free_list: VecDeque<u64> = VecDeque::new();
        let mut f: usize = 0;
        while f < snapshot.free_list.len()
            invariant
                f <= snapshot.free_list@.len(),
                free_list@ == snapshot.free_list@.take(f as int),
            decreases snapshot.free_list@.len() - f,
        {
            free_list.push_back(snapshot.free_list[f]);
            proof {
                assert(free_list@ =~= snapshot.free_list@.take(f + 1));
            }
            f += 1;
        }
        proof {
            assert(snapshot.free_list@.take(snapshot.free_list@.len() as int) =~= snapshot.free_list@);
        }
        let fs = FileSystem {
            files: snapshot.files,
            next_offset: snapshot.next_offset,
            current_path: snapshot.current_path,
            current_user: user,
            free_list,
        };
        Ok(fs)
    }
}

} // verus!
