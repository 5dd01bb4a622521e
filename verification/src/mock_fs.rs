//! An in-memory file system: a tree of folders and files that can be read
//! like a real one.
use crate::async_fs::{DirEntry, FileType, Metadata, Timestamp};
use crate::fs::FS;
use crate::read_dir_recursive::{next_dir, walk_step};
use crate::paths::{ComponentView, PathComponent, components_view, std_components, std_join, path_components, join_path};
use vstd::prelude::*;

verus! {

/// The mathematical value of a file or folder: a file holds bytes; a folder holds
/// named entries.
pub enum Tree {
    File(Seq<u8>),
    Folder(Seq<(Seq<char>, Tree)>),
}

/// A file with its contents, or a folder with its entries.
#[derive(Debug)]
pub enum FileOrFolder {
    File(Vec<u8>),
    Folder(Entries),
}

/// The entries of a folder: each name occurs at most once.
#[derive(Debug)]
pub struct Entries {
    items: Vec<(String, FileOrFolder)>,
}

/// The value of a node.
pub closed spec fn node_view(node: FileOrFolder) -> Tree
    decreases node,
{
    match node {
        FileOrFolder::File(contents) => Tree::File(contents@),
        FileOrFolder::Folder(entries) => Tree::Folder(items_view(entries.items@)),
    }
}

/// The value of a sequence of named nodes.
pub closed spec fn items_view(items: Seq<(String, FileOrFolder)>) -> Seq<(Seq<char>, Tree)>
    decreases items,
{
    if items.len() == 0 {
        Seq::empty()
    } else {
        items_view(items.drop_last()).push((items.last().0@, node_view(items.last().1)))
    }
}

impl View for FileOrFolder {
    type V = Tree;

    open spec fn view(&self) -> Tree {
        node_view(*self)
    }
}

impl View for Entries {
    type V = Seq<(Seq<char>, Tree)>;

    closed spec fn view(&self) -> Seq<(Seq<char>, Tree)> {
        items_view(self.items@)
    }
}

/// No name occurs twice among the entries.
pub open spec fn names_distinct(entries: Seq<(Seq<char>, Tree)>) -> bool {
    forall|i: int, j: int|
        0 <= i < entries.len() && 0 <= j < entries.len() && i != j ==> entries[i].0 != entries[j].0
}

/// The position of the entry with the given name, if there is one.
pub open spec fn index_of(entries: Seq<(Seq<char>, Tree)>, name: Seq<char>) -> Option<int> {
    if exists|i: int| 0 <= i < entries.len() && entries[i].0 == name {
        Some(choose|i: int| 0 <= i < entries.len() && entries[i].0 == name)
    } else {
        None
    }
}

/// The node stored under the given name, if there is one.
pub open spec fn lookup(entries: Seq<(Seq<char>, Tree)>, name: Seq<char>) -> Option<Tree> {
    match index_of(entries, name) {
        Some(i) => Some(entries[i].1),
        None => None,
    }
}

/// The entries after storing `node` under `name`: an entry of that name is
/// replaced in place, otherwise the new entry comes last.
pub open spec fn insert_entry(entries: Seq<(Seq<char>, Tree)>, name: Seq<char>, node: Tree) -> Seq<
    (Seq<char>, Tree),
> {
    match index_of(entries, name) {
        Some(i) => entries.update(i, (name, node)),
        None => entries.push((name, node)),
    }
}

proof fn lemma_items_view(items: Seq<(String, FileOrFolder)>)
    ensures
        items_view(items).len() == items.len(),
        forall|i: int|
            0 <= i < items.len() ==> #[trigger] items_view(items)[i] == (
            items[i].0@,
            node_view(items[i].1),
        ),
    decreases items.len(),
{
    if items.len() > 0 {
        lemma_items_view(items.drop_last());
    }
}

proof fn lemma_index_of_unique(entries: Seq<(Seq<char>, Tree)>, i: int)
    requires
        names_distinct(entries),
        0 <= i < entries.len(),
    ensures
        index_of(entries, entries[i].0) == Some(i),
{
}

impl Entries {
    #[verifier::type_invariant]
    spec fn distinct(&self) -> bool {
        names_distinct(self@)
    }

    /// No entries.
    pub fn new() -> (res: Entries)
        ensures
            res@ == Seq::<(Seq<char>, Tree)>::empty(),
    {
        let res = Entries { items: Vec::new() };
        assert(res@ =~= Seq::<(Seq<char>, Tree)>::empty()) by {
            lemma_items_view(res.items@);
        }
        res
    }

    /// The number of entries.
    pub fn len(&self) -> (res: usize)
        ensures
            res == self@.len(),
    {
        proof {
            lemma_items_view(self.items@);
        }
        self.items.len()
    }

    /// Finds the position of the entry named `name`.
    fn find(&self, name: &str) -> (res: Option<usize>)
        ensures
            match res {
                Some(i) => index_of(self@, name@) == Some(i as int),
                None => index_of(self@, name@) is None,
            },
    {
        proof {
            use_type_invariant(self);
            lemma_items_view(self.items@);
        }
        let key: String = name.to_owned();
        let n = self.items.len();
        let mut i: usize = 0;
        while i < n
            invariant
                n == self.items@.len(),
                n == self@.len(),
                0 <= i <= n,
                forall|j: int| 0 <= j < i ==> self@[j].0 != name@,
                key@ == name@,
                forall|j: int|
                    0 <= j < self.items@.len() ==> #[trigger] self@[j] == (
                        self.items@[j].0@,
                        node_view(self.items@[j].1),
                    ),
                names_distinct(self@),
            decreases n - i,
        {
            if self.items[i].0 == key {
                proof {
                    lemma_index_of_unique(self@, i as int);
                }
                return Some(i);
            }
            i = i + 1;
        }
        None
    }

    /// The node stored under `name`, if there is one.
    pub fn get(&self, name: &str) -> (res: Option<&FileOrFolder>)
        ensures
            match res {
                Some(node) => lookup(self@, name@) == Some(node@),
                None => lookup(self@, name@) is None,
            },
    {
        match self.find(name) {
            Some(i) => {
                proof {
                    lemma_items_view(self.items@);
                }
                Some(&self.items[i].1)
            },
            None => None,
        }
    }

    /// Stores `node` under `name` and gives back the node that was stored there before.
    /// An entry of that name keeps its place; a new name is added last.
    pub fn insert(&mut self, name: String, node: FileOrFolder) -> (res: Option<FileOrFolder>)
        ensures
            final(self)@ == insert_entry(old(self)@, name@, node@),
            match res {
                Some(prev) => lookup(old(self)@, name@) == Some(prev@),
                None => lookup(old(self)@, name@) is None,
            },
    {
        proof {
            use_type_invariant(&*self);
            lemma_items_view(self.items@);
        }
        let ghost old_items = self.items@;
        let found = self.find(name.as_str());
        let mut items: Vec<(String, FileOrFolder)> = Vec::new();
        std::mem::swap(&mut items, &mut self.items);
        match found {
            Some(i) => {
                let ghost name_view = name@;
                let ghost node_value = node@;
                let mut pair = (name, node);
                proof {
                    let new_items = old_items.update(i as int, pair);
                    lemma_items_view(new_items);
                    assert(items_view(new_items) =~= items_view(old_items).update(
                        i as int,
                        (name_view, node_value),
                    ));
                }
                std::mem::swap(&mut items[i], &mut pair);
                self.items = items;
                Some(pair.1)
            },
            None => {
                proof {
                    let new_items = old_items.push((name, node));
                    assert(new_items.drop_last() =~= old_items);
                    lemma_items_view(new_items);
                }
                items.push((name, node));
                self.items = items;
                None
            },
        }
    }
}

/// A file with the given contents.
pub fn file(contents: Vec<u8>) -> (res: FileOrFolder)
    ensures
        res@ == Tree::File(contents@),
{
    FileOrFolder::File(contents)
}

/// A file with no contents.
pub fn empty_file() -> (res: FileOrFolder)
    ensures
        res@ == Tree::File(Seq::empty()),
{
    file(Vec::new())
}

/// A folder with the given entries.
pub fn folder(entries: Entries) -> (res: FileOrFolder)
    ensures
        res@ == Tree::Folder(entries@),
{
    FileOrFolder::Folder(entries)
}

/// A folder with no entries.
pub fn empty_folder() -> (res: FileOrFolder)
    ensures
        res@ == Tree::Folder(Seq::empty()),
{
    folder(Entries::new())
}

/// Why reading a folder of the mock file system failed.
#[derive(Clone, Copy, Debug, PartialEq, Eq, Structural)]
pub enum MockFsError {
    /// The root directory occurs a second time in the path.
    RootDirTwice,
    /// The path holds `.` or `..`.
    RelativePath,
    /// The path holds a Windows prefix.
    PrefixNotSupported,
    /// A name comes before any root directory.
    NoRootFolder,
    /// A name follows a file.
    NotADirectory,
    /// A folder has no entry of the name.
    EntryNotFound,
    /// The path has no component at all.
    NoPath,
    /// The path leads to a file.
    NotAFolder,
    /// The path to read a file from leads to a folder.
    NotAFile,
    /// The path to write names the root itself.
    RootTarget,
}

/// The class of an error, as `std::io::ErrorKind` names it.
#[derive(Clone, Copy, Debug, PartialEq, Eq, Structural)]
pub enum ErrorKind {
    NotFound,
    NotADirectory,
    IsADirectory,
    InvalidInput,
}

pub open spec fn error_kind(e: MockFsError) -> ErrorKind {
    match e {
        MockFsError::NotADirectory | MockFsError::NotAFolder => ErrorKind::NotADirectory,
        MockFsError::NotAFile => ErrorKind::IsADirectory,
        MockFsError::RootTarget => ErrorKind::InvalidInput,
        _ => ErrorKind::NotFound,
    }
}

pub open spec fn error_message(e: MockFsError) -> Seq<char> {
    match e {
        MockFsError::RootDirTwice => "Root dir appeared twice in path"@,
        MockFsError::RelativePath => "Relative paths not supported"@,
        MockFsError::PrefixNotSupported => "Prefix not supported"@,
        MockFsError::NoRootFolder => "No root folder"@,
        MockFsError::NotADirectory => "What is sounds like"@,
        MockFsError::EntryNotFound => "Entry doesn't exist in folder"@,
        MockFsError::NoPath => ""@,
        MockFsError::NotAFolder => ""@,
        MockFsError::NotAFile => "Is a directory"@,
        MockFsError::RootTarget => "The root cannot be written"@,
    }
}

impl MockFsError {
    /// The class of the error.
    pub fn kind(&self) -> (res: ErrorKind)
        ensures
            res == error_kind(*self),
    {
        match self {
            MockFsError::NotADirectory | MockFsError::NotAFolder => ErrorKind::NotADirectory,
            MockFsError::NotAFile => ErrorKind::IsADirectory,
            MockFsError::RootTarget => ErrorKind::InvalidInput,
            _ => ErrorKind::NotFound,
        }
    }

    /// The text that describes the error.
    pub fn message(&self) -> (res: &'static str)
        ensures
            res@ == error_message(*self),
    {
        match self {
            MockFsError::RootDirTwice => "Root dir appeared twice in path",
            MockFsError::RelativePath => "Relative paths not supported",
            MockFsError::PrefixNotSupported => "Prefix not supported",
            MockFsError::NoRootFolder => "No root folder",
            MockFsError::NotADirectory => "What is sounds like",
            MockFsError::EntryNotFound => "Entry doesn't exist in folder",
            MockFsError::NoPath => "",
            MockFsError::NotAFolder => "",
            MockFsError::NotAFile => "Is a directory",
            MockFsError::RootTarget => "The root cannot be written",
        }
    }
}

/// What one component of a path does to the node reached so far.
pub open spec fn step(root: Tree, cur: Option<Tree>, c: ComponentView) -> Result<
    Option<Tree>,
    MockFsError,
> {
    match c {
        ComponentView::RootDir => match cur {
            None => Ok(Some(root)),
            Some(_) => Err(MockFsError::RootDirTwice),
        },
        ComponentView::ParentDir | ComponentView::CurDir => Err(MockFsError::RelativePath),
        ComponentView::Prefix => Err(MockFsError::PrefixNotSupported),
        ComponentView::Normal(name) => match cur {
            None => Err(MockFsError::NoRootFolder),
            Some(Tree::File(_)) => Err(MockFsError::NotADirectory),
            Some(Tree::Folder(entries)) => match lookup(entries, name) {
                Some(child) => Ok(Some(child)),
                None => Err(MockFsError::EntryNotFound),
            },
        },
    }
}

/// The node that a sequence of components reaches from the root, or the first error.
pub open spec fn walk(root: Tree, cs: Seq<ComponentView>) -> Result<Option<Tree>, MockFsError>
    decreases cs.len(),
{
    if cs.len() == 0 {
        Ok(None)
    } else {
        match walk(root, cs.drop_last()) {
            Err(e) => Err(e),
            Ok(cur) => step(root, cur, cs.last()),
        }
    }
}

/// The entries of the folder that the components lead to, or why there are none.
pub open spec fn resolve_folder(root: Tree, cs: Seq<ComponentView>) -> Result<
    Seq<(Seq<char>, Tree)>,
    MockFsError,
> {
    match walk(root, cs) {
        Err(e) => Err(e),
        Ok(None) => Err(MockFsError::NoPath),
        Ok(Some(Tree::File(_))) => Err(MockFsError::NotAFolder),
        Ok(Some(Tree::Folder(entries))) => Ok(entries),
    }
}

proof fn lemma_walk_take(root: Tree, cs: Seq<ComponentView>, i: int)
    requires
        0 <= i < cs.len(),
    ensures
        walk(root, cs.take(i + 1)) == (match walk(root, cs.take(i)) {
            Err(e) => Err(e),
            Ok(cur) => step(root, cur, cs[i]),
        }),
{
    assert(cs.take(i + 1).drop_last() =~= cs.take(i));
}

proof fn lemma_walk_error_stays(root: Tree, cs: Seq<ComponentView>, k: int, e: MockFsError)
    requires
        0 <= k <= cs.len(),
        walk(root, cs.take(k)) == Err::<Option<Tree>, MockFsError>(e),
    ensures
        walk(root, cs) == Err::<Option<Tree>, MockFsError>(e),
    decreases cs.len() - k,
{
    if k == cs.len() {
        assert(cs.take(k) =~= cs);
    } else {
        lemma_walk_take(root, cs, k);
        lemma_walk_error_stays(root, cs, k + 1, e);
    }
}

pub open spec fn opt_node_view(cur: Option<&FileOrFolder>) -> Option<Tree> {
    match cur {
        Some(node) => Some(node@),
        None => None,
    }
}

/// The kind of a node.
pub open spec fn tree_type(t: Tree) -> FileType {
    match t {
        Tree::File(_) => FileType::File,
        Tree::Folder(_) => FileType::Dir,
    }
}

/// The size of a node: the length of a file's contents, zero for a folder.
pub open spec fn tree_len(t: Tree) -> nat {
    match t {
        Tree::File(contents) => contents.len(),
        Tree::Folder(_) => 0,
    }
}

/// What a directory listing tells of an entry.
pub struct DirEntryView {
    pub name: Seq<char>,
    pub file_type: FileType,
    pub len: nat,
}

/// The listing of the entry `name` that holds `t`.
pub open spec fn entry_of(name: Seq<char>, t: Tree) -> DirEntryView {
    DirEntryView { name, file_type: tree_type(t), len: tree_len(t) }
}

/// The listing of a folder's entries, in the folder's order.
pub open spec fn dir_entries(entries: Seq<(Seq<char>, Tree)>) -> Seq<DirEntryView> {
    entries.map_values(|p: (Seq<char>, Tree)| entry_of(p.0, p.1))
}

/// The views of listed entries.
pub open spec fn entries_view(v: Seq<MockDirEntry>) -> Seq<DirEntryView> {
    v.map_values(|e: MockDirEntry| e@)
}

/// What the recursive listing yields for one entry: the entry, paired with the folder that
/// holds it, then, for a folder, the listing of its own entries under its joined path.
pub open spec fn entry_listing(dir: Seq<char>, entry: (Seq<char>, Tree)) -> Seq<
    (Seq<char>, Result<DirEntryView, MockFsError>),
>
    decreases entry,
{
    seq![(dir, Ok::<DirEntryView, MockFsError>(entry_of(entry.0, entry.1)))] + match entry.1 {
        Tree::Folder(sub) => listing(std_join(dir, entry.0), sub),
        Tree::File(_) => Seq::empty(),
    }
}

/// The recursive listing of the entries of the folder at `dir`, depth first, each entry
/// before the entries below it.
pub open spec fn listing(dir: Seq<char>, entries: Seq<(Seq<char>, Tree)>) -> Seq<
    (Seq<char>, Result<DirEntryView, MockFsError>),
>
    decreases entries,
{
    if entries.len() == 0 {
        Seq::empty()
    } else {
        listing(dir, entries.subrange(0, entries.len() - 1)) + entry_listing(
            dir,
            entries[entries.len() - 1],
        )
    }
}

/// What reading the folder at `path` recursively yields: the listing of its entries, or
/// the path paired with the reason it names no folder.
pub open spec fn recursive_listing(root: Tree, path: Seq<char>) -> Seq<
    (Seq<char>, Result<DirEntryView, MockFsError>),
> {
    match resolve_folder(root, std_components(path)) {
        Ok(entries) => listing(path, entries),
        Err(e) => seq![(path, Err::<DirEntryView, MockFsError>(e))],
    }
}

/// The views of the pairs that a recursive listing yields.
pub open spec fn listing_view(v: Seq<(String, Result<MockDirEntry, MockFsError>)>) -> Seq<
    (Seq<char>, Result<DirEntryView, MockFsError>),
> {
    v.map_values(
        |p: (String, Result<MockDirEntry, MockFsError>)|
            (
                p.0@,
                match p.1 {
                    Ok(e) => Ok(e@),
                    Err(x) => Err(x),
                },
            ),
    )
}

/// An entry of a folder of the mock file system.
#[derive(Debug)]
pub struct MockDirEntry {
    name: String,
    file_type: FileType,
    len: u64,
}

impl View for MockDirEntry {
    type V = DirEntryView;

    closed spec fn view(&self) -> DirEntryView {
        DirEntryView { name: self.name@, file_type: self.file_type, len: self.len as nat }
    }
}

impl MockDirEntry {
    /// Describes the entry `name` that holds `node`.
    fn describe(name: &String, node: &FileOrFolder) -> (res: MockDirEntry)
        ensures
            res@ == entry_of(name@, node@),
    {
        match node {
            FileOrFolder::File(contents) => MockDirEntry {
                name: name.clone(),
                file_type: FileType::File,
                len: contents.len() as u64,
            },
            FileOrFolder::Folder(_) => MockDirEntry {
                name: name.clone(),
                file_type: FileType::Dir,
                len: 0,
            },
        }
    }
}

/// The metadata of an entry of the mock file system.
#[derive(Debug)]
pub struct MockMetadata {
    len: u64,
}

impl View for MockMetadata {
    type V = nat;

    closed spec fn view(&self) -> nat {
        self.len as nat
    }
}

impl Metadata for MockMetadata {
    /// The entry's size.
    fn len(&self) -> (res: u64) ensures res == self@ {
        self.len
    }

    /// Every entry of the mock file system was last modified at the Unix epoch.
    fn modified(&self) -> (res: Result<Timestamp, String>)
        ensures
            res == Ok::<Timestamp, String>(Timestamp { nanos_since_epoch: 0 }),
    {
        Ok(Timestamp::unix_epoch())
    }
}

impl DirEntry for MockDirEntry {
    type Meta = MockMetadata;

    type Error = MockFsError;

    /// The entry's kind; it is always known.
    fn file_type(&self) -> (res: Result<FileType, MockFsError>)
        ensures
            res == Ok::<FileType, MockFsError>(self@.file_type),
    {
        Ok(self.file_type)
    }

    /// The entry's name.
    fn file_name(&self) -> (res: String)
        ensures
            res@ == self@.name,
    {
        self.name.clone()
    }

    /// The entry's metadata; it is always known.
    fn metadata(&self) -> (res: Result<MockMetadata, MockFsError>)
        ensures
            res matches Ok(m) && m@ == self@.len,
    {
        Ok(MockMetadata { len: self.len })
    }
}

/// A file system held in memory, rooted at one file or folder.
#[derive(Debug)]
pub struct MockFs {
    root_file: FileOrFolder,
}

/// Walks a node, whose folders keep their names distinct, to show that every folder of it,
/// at every depth, does.
fn node_wf(node: &FileOrFolder)
    ensures
        tree_wf(node@),
{
    match node {
        FileOrFolder::File(_) => {},
        FileOrFolder::Folder(entries) => entries_wf_walk(entries),
    }
}

fn entries_wf_walk(entries: &Entries)
    ensures
        tree_wf(Tree::Folder(entries@)),
    decreases entries,
{
    proof {
        use_type_invariant(entries);
        lemma_items_view(entries.items@);
    }
    let n = entries.items.len();
    let mut i: usize = 0;
    while i < n
        invariant
            n == entries.items@.len(),
            n == entries@.len(),
            0 <= i <= n,
            forall|j: int| 0 <= j < i ==> #[trigger] tree_wf(entries@[j].1),
            forall|j: int|
                0 <= j < n ==> #[trigger] entries@[j] == (
                    entries.items@[j].0@,
                    node_view(entries.items@[j].1),
                ),
        decreases n - i,
    {
        match &entries.items[i].1 {
            FileOrFolder::File(_) => {},
            FileOrFolder::Folder(sub) => {
                entries_wf_walk(sub);
            },
        }
        assert(tree_wf(entries@[i as int].1));
        i = i + 1;
    }
    proof {
        lemma_entries_wf_from(entries@);
    }
}

proof fn lemma_empty_folder_wf()
    ensures
        tree_wf(Tree::Folder(Seq::empty())),
{
    lemma_entries_wf_from(Seq::<(Seq<char>, Tree)>::empty());
}

impl MockFs {
    /// Every folder of the file system, at every depth, has entries of distinct names.
    #[verifier::type_invariant]
    pub(crate) open spec fn wf(&self) -> bool {
        tree_wf(self@)
    }
}

impl View for MockFs {
    type V = Tree;

    closed spec fn view(&self) -> Tree {
        self.root_file@
    }
}

/// Appends the recursive listing of `entries`, the entries of the folder at `dir`.
fn list_into(
    entries: &Entries,
    dir: &String,
    out: &mut Vec<(String, Result<MockDirEntry, MockFsError>)>,
)
    ensures
        listing_view(final(out)@) == listing_view(old(out)@) + listing(dir@, entries@),
    decreases entries,
{
    proof {
        lemma_items_view(entries.items@);
    }
    let n = entries.items.len();
    let mut i: usize = 0;
    assert(entries@.subrange(0, 0) =~= Seq::<(Seq<char>, Tree)>::empty());
    assert(listing_view(out@) =~= listing_view(old(out)@) + listing(dir@, entries@.subrange(0, 0)));
    while i < n
        invariant
            n == entries.items@.len(),
            n == entries@.len(),
            0 <= i <= n,
            listing_view(out@) == listing_view(old(out)@) + listing(dir@, entries@.subrange(0, i as int)),
            forall|j: int|
                0 <= j < n ==> #[trigger] entries@[j] == (
                    entries.items@[j].0@,
                    node_view(entries.items@[j].1),
                ),
        decreases n - i,
    {
        let ghost before = out@;
        let name = &entries.items[i].0;
        let node = &entries.items[i].1;
        out.push((dir.clone(), Ok(MockDirEntry::describe(name, node))));
        assert(listing_view(out@) =~= listing_view(before).push(
            (dir@, Ok::<DirEntryView, MockFsError>(entry_of(name@, node@))),
        ));
        let ghost mid = out@;
        let ghost below: Seq<(Seq<char>, Result<DirEntryView, MockFsError>)> = match node@ {
            Tree::Folder(sub) => listing(std_join(dir@, name@), sub),
            Tree::File(_) => Seq::empty(),
        };
        match node {
            FileOrFolder::Folder(sub) => {
                let (_, next) = walk_step(dir, Ok((name.clone(), FileType::Dir)));
                if let Some(child) = next {
                    list_into(sub, &child, out);
                    assert(node@ == Tree::Folder(sub@));
                }
            },
            FileOrFolder::File(_) => {
                assert(listing_view(out@) =~= listing_view(mid) + below);
            },
        }
        assert(listing_view(out@) == listing_view(mid) + below);
        assert(entry_listing(dir@, entries@[i as int]) =~= seq![
            (dir@, Ok::<DirEntryView, MockFsError>(entry_of(name@, node@))),
        ] + below);
        assert(entries@.subrange(0, i + 1).subrange(0, i as int) =~= entries@.subrange(0, i as int));
        assert(listing_view(out@) =~= listing_view(old(out)@) + listing(dir@, entries@.subrange(0, i + 1)));
        i = i + 1;
    }
    assert(entries@.subrange(0, n as int) =~= entries@);
}

impl MockFs {
    /// A file system whose root is `root_file`.
    pub fn new(root_file: FileOrFolder) -> (res: MockFs)
        ensures
            res@ == root_file@,
    {
        node_wf(&root_file);
        MockFs { root_file: root_file }
    }

    /// Follows the components from the root to the node they reach.
    fn walk_node<'a>(&'a self, comps: &Vec<PathComponent>) -> (res: Result<
        Option<&'a FileOrFolder>,
        MockFsError,
    >)
        ensures
            match res {
                Ok(cur) => walk(self@, components_view(comps@)) == Ok::<Option<Tree>, MockFsError>(
                    opt_node_view(cur),
                ),
                Err(e) => walk(self@, components_view(comps@)) == Err::<Option<Tree>, MockFsError>(
                    e,
                ),
            },
    {
        let ghost cs = components_view(comps@);
        let mut cur: Option<&FileOrFolder> = None;
        let n = comps.len();
        let mut i: usize = 0;
        assert(cs.take(0) =~= Seq::<ComponentView>::empty());
        while i < n
            invariant
                n == comps@.len(),
                cs == components_view(comps@),
                0 <= i <= n,
                walk(self@, cs.take(i as int)) == Ok::<Option<Tree>, MockFsError>(opt_node_view(cur)),
            decreases n - i,
        {
            proof {
                lemma_walk_take(self@, cs, i as int);
            }
            let failure: Option<MockFsError> = match &comps[i] {
                PathComponent::RootDir => match cur {
                    None => {
                        cur = Some(&self.root_file);
                        None
                    },
                    Some(_) => Some(MockFsError::RootDirTwice),
                },
                PathComponent::ParentDir | PathComponent::CurDir => Some(MockFsError::RelativePath),
                PathComponent::Prefix => Some(MockFsError::PrefixNotSupported),
                PathComponent::Normal(name) => match cur {
                    None => Some(MockFsError::NoRootFolder),
                    Some(FileOrFolder::File(_)) => Some(MockFsError::NotADirectory),
                    Some(FileOrFolder::Folder(entries)) => match entries.get(name.as_str()) {
                        Some(child) => {
                            cur = Some(child);
                            None
                        },
                        None => Some(MockFsError::EntryNotFound),
                    },
                },
            };
            if let Some(e) = failure {
                proof {
                    lemma_walk_error_stays(self@, cs, i + 1, e);
                }
                return Err(e);
            }
            i = i + 1;
        }
        assert(cs.take(n as int) =~= cs);
        Ok(cur)
    }

    /// Follows the components from the root to the folder they name.
    fn resolve<'a>(&'a self, comps: &Vec<PathComponent>) -> (res: Result<&'a Entries, MockFsError>)
        ensures
            match res {
                Ok(entries) => resolve_folder(self@, components_view(comps@)) == Ok::<
                    Seq<(Seq<char>, Tree)>,
                    MockFsError,
                >(entries@),
                Err(e) => resolve_folder(self@, components_view(comps@)) == Err::<
                    Seq<(Seq<char>, Tree)>,
                    MockFsError,
                >(e),
            },
    {
        match self.walk_node(comps) {
            Err(e) => Err(e),
            Ok(None) => Err(MockFsError::NoPath),
            Ok(Some(FileOrFolder::File(_))) => Err(MockFsError::NotAFolder),
            Ok(Some(FileOrFolder::Folder(entries))) => Ok(entries),
        }
    }

    /// Lists the folder that the path components lead to: one entry for each of
    /// its entries, in the folder's order, with distinct names.
    pub fn read_dir_components(&self, comps: &Vec<PathComponent>) -> (res: Result<
        Vec<MockDirEntry>,
        MockFsError,
    >)
        ensures
            match resolve_folder(self@, components_view(comps@)) {
                Ok(entries) => res matches Ok(v) && entries_view(v@) == dir_entries(entries),
                Err(e) => res == Err::<Vec<MockDirEntry>, MockFsError>(e),
            },
            res matches Ok(v) ==> forall|i: int, j: int|
                0 <= i < v@.len() && 0 <= j < v@.len() && i != j ==> #[trigger] v@[i]@.name
                    != #[trigger] v@[j]@.name,
    {
        match self.resolve(comps) {
            Err(e) => Err(e),
            Ok(entries) => {
                proof {
                    use_type_invariant(entries);
                    lemma_items_view(entries.items@);
                }
                let mut out: Vec<MockDirEntry> = Vec::new();
                let n = entries.items.len();
                let mut i: usize = 0;
                while i < n
                    invariant
                        n == entries.items@.len(),
                        n == entries@.len(),
                        0 <= i <= n,
                        out@.len() == i,
                        forall|j: int| 0 <= j < i ==> #[trigger] out@[j]@ == entry_of(entries@[j].0, entries@[j].1),
                        forall|j: int|
                            0 <= j < n ==> #[trigger] entries@[j] == (
                                entries.items@[j].0@,
                                node_view(entries.items@[j].1),
                            ),
                    decreases n - i,
                {
                    out.push(MockDirEntry::describe(&entries.items[i].0, &entries.items[i].1));
                    i = i + 1;
                }
                assert(entries_view(out@) =~= dir_entries(entries@));
                Ok(out)
            },
        }
    }

    /// Lists the folder at `path`, whose components `Path::components` gives.
    pub fn read_dir(&self, path: &str) -> (res: Result<Vec<MockDirEntry>, MockFsError>)
        ensures
            match resolve_folder(self@, std_components(path@)) {
                Ok(entries) => res matches Ok(v) && entries_view(v@) == dir_entries(entries),
                Err(e) => res == Err::<Vec<MockDirEntry>, MockFsError>(e),
            },
            res matches Ok(v) ==> forall|i: int, j: int|
                0 <= i < v@.len() && 0 <= j < v@.len() && i != j ==> #[trigger] v@[i]@.name
                    != #[trigger] v@[j]@.name,
    {
        let comps = path_components(path);
        self.read_dir_components(&comps)
    }

    /// Lists the folder at `path` and, below it, every folder it holds: each entry is
    /// paired with the path of the folder that holds it; a folder's path is the
    /// `Path::join` of its parent's path and its name. Where `path` names no folder,
    /// the one pair is the path and the error.
    pub fn read_dir_recursive(&self, path: &str) -> (res: Vec<
        (String, Result<MockDirEntry, MockFsError>),
    >)
        ensures
            listing_view(res@) == recursive_listing(self@, path@),
    {
        let comps = path_components(path);
        let dir: String = path.to_owned();
        let mut out: Vec<(String, Result<MockDirEntry, MockFsError>)> = Vec::new();
        match self.resolve(&comps) {
            Err(e) => {
                out.push((dir, Err(e)));
                assert(listing_view(out@) =~= seq![(path@, Err::<DirEntryView, MockFsError>(e))]);
            },
            Ok(entries) => {
                list_into(entries, &dir, &mut out);
                assert(listing_view(out@) =~= listing(path@, entries@));
            },
        }
        out
    }
}

/// Storing a node and reading it back: the name then holds the stored node, every other
/// name holds what it held before, and names stay distinct.
pub proof fn lemma_lookup_after_insert(
    entries: Seq<(Seq<char>, Tree)>,
    name: Seq<char>,
    node: Tree,
    other: Seq<char>,
)
    requires
        names_distinct(entries),
    ensures
        lookup(insert_entry(entries, name, node), name) == Some(node),
        other != name ==> lookup(insert_entry(entries, name, node), other) == lookup(
            entries,
            other,
        ),
        names_distinct(insert_entry(entries, name, node)),
{
    let after = insert_entry(entries, name, node);
    match index_of(entries, name) {
        Some(i) => {
            assert(after[i].0 == name);
            lemma_index_of_unique(after, i);
            if other != name {
                if exists|j: int| 0 <= j < entries.len() && entries[j].0 == other {
                    let j = choose|j: int| 0 <= j < entries.len() && entries[j].0 == other;
                    lemma_index_of_unique(entries, j);
                    assert(after[j] == entries[j]);
                    lemma_index_of_unique(after, j);
                } else {
                    assert(!(exists|j: int| 0 <= j < after.len() && after[j].0 == other));
                }
            }
        },
        None => {
            let n = entries.len() as int;
            assert(after[n].0 == name);
            lemma_index_of_unique(after, n);
            if other != name {
                if exists|j: int| 0 <= j < entries.len() && entries[j].0 == other {
                    let j = choose|j: int| 0 <= j < entries.len() && entries[j].0 == other;
                    lemma_index_of_unique(entries, j);
                    assert(after[j] == entries[j]);
                    lemma_index_of_unique(after, j);
                } else {
                    assert(!(exists|j: int| 0 <= j < after.len() && after[j].0 == other));
                }
            }
        },
    }
}

/// The number of files and folders among some entries and below them.
pub open spec fn tree_count(entries: Seq<(Seq<char>, Tree)>) -> nat
    decreases entries,
{
    if entries.len() == 0 {
        0
    } else {
        tree_count(entries.subrange(0, entries.len() - 1)) + entry_count(entries[entries.len() - 1])
    }
}

/// The number of files and folders in an entry: itself and, for a folder, those below it.
pub open spec fn entry_count(entry: (Seq<char>, Tree)) -> nat
    decreases entry,
{
    1 + match entry.1 {
        Tree::Folder(sub) => tree_count(sub),
        Tree::File(_) => 0,
    }
}

/// The recursive listing yields one pair for each file and folder below the folder.
pub proof fn lemma_listing_len(dir: Seq<char>, entries: Seq<(Seq<char>, Tree)>)
    ensures
        listing(dir, entries).len() == tree_count(entries),
    decreases entries,
{
    if entries.len() > 0 {
        lemma_listing_len(dir, entries.subrange(0, entries.len() - 1));
        lemma_entry_listing_len(dir, entries[entries.len() - 1]);
    }
}

/// The listing of one entry yields one pair for it and for each file and folder below it.
pub proof fn lemma_entry_listing_len(dir: Seq<char>, entry: (Seq<char>, Tree))
    ensures
        entry_listing(dir, entry).len() == entry_count(entry),
    decreases entry,
{
    match entry.1 {
        Tree::Folder(sub) => {
            lemma_listing_len(std_join(dir, entry.0), sub);
        },
        Tree::File(_) => {},
    }
}

/// Every entry of the folder is in its recursive listing, paired with the folder's path.
pub proof fn lemma_listing_has_entries(dir: Seq<char>, entries: Seq<(Seq<char>, Tree)>, i: int)
    requires
        0 <= i < entries.len(),
    ensures
        listing(dir, entries).contains(
            (dir, Ok::<DirEntryView, MockFsError>(entry_of(entries[i].0, entries[i].1))),
        ),
    decreases entries.len(),
{
    let n = entries.len();
    let front = listing(dir, entries.subrange(0, n - 1));
    let tail = entry_listing(dir, entries[n - 1]);
    let pair = (dir, Ok::<DirEntryView, MockFsError>(entry_of(entries[i].0, entries[i].1)));
    assert(listing(dir, entries) == front + tail);
    if i == n - 1 {
        assert(tail[0] == pair);
        assert((front + tail)[front.len() as int] == pair);
    } else {
        assert(entries.subrange(0, n - 1)[i] == entries[i]);
        lemma_listing_has_entries(dir, entries.subrange(0, n - 1), i);
        let k = choose|k: int| 0 <= k < front.len() && front[k] == pair;
        assert((front + tail)[k] == pair);
    }
}

/// Reading a folder recursively yields every entry that reading it once yields, paired
/// with the folder's path; where reading it fails, the recursive reading yields just that
/// error, paired with the path.
pub proof fn lemma_recursive_listing_extends_read_dir(root: Tree, path: Seq<char>, i: int)
    ensures
        resolve_folder(root, std_components(path)) matches Ok(entries) ==> (0 <= i < entries.len()
            ==> recursive_listing(root, path).contains(
            (path, Ok::<DirEntryView, MockFsError>(dir_entries(entries)[i])),
        )),
        resolve_folder(root, std_components(path)) matches Err(e) ==> recursive_listing(root, path)
            == seq![(path, Err::<DirEntryView, MockFsError>(e))],
{
    if let Ok(entries) = resolve_folder(root, std_components(path)) {
        if 0 <= i < entries.len() {
            lemma_listing_has_entries(path, entries, i);
        }
    }
}

/// The contents of the file that the components lead to, or why there is none.
pub open spec fn read_file_spec(root: Tree, cs: Seq<ComponentView>) -> Result<Seq<u8>, MockFsError> {
    match walk(root, cs) {
        Err(e) => Err(e),
        Ok(None) => Err(MockFsError::NoPath),
        Ok(Some(Tree::File(contents))) => Ok(contents),
        Ok(Some(Tree::Folder(_))) => Err(MockFsError::NotAFile),
    }
}

/// The names below the root that an absolute path's components give, or the first
/// component that is not a name (the errors are those of `walk`).
pub open spec fn names_of(cs: Seq<ComponentView>) -> Result<Seq<Seq<char>>, MockFsError>
    decreases cs.len(),
{
    if cs.len() == 0 {
        Err(MockFsError::NoPath)
    } else if cs.len() == 1 {
        match cs[0] {
            ComponentView::RootDir => Ok(Seq::empty()),
            ComponentView::Prefix => Err(MockFsError::PrefixNotSupported),
            ComponentView::CurDir | ComponentView::ParentDir => Err(MockFsError::RelativePath),
            ComponentView::Normal(_) => Err(MockFsError::NoRootFolder),
        }
    } else {
        match names_of(cs.drop_last()) {
            Err(e) => Err(e),
            Ok(names) => match cs.last() {
                ComponentView::Normal(name) => Ok(names.push(name)),
                ComponentView::RootDir => Err(MockFsError::RootDirTwice),
                ComponentView::Prefix => Err(MockFsError::PrefixNotSupported),
                ComponentView::CurDir | ComponentView::ParentDir => Err(MockFsError::RelativePath),
            },
        }
    }
}

/// A change at the end of a path: store a file there, or make sure a folder is there.
pub enum LeafOp {
    PutFile(Vec<u8>),
    MakeDir,
}

pub enum LeafOpView {
    PutFile(Seq<u8>),
    MakeDir,
}

impl View for LeafOp {
    type V = LeafOpView;

    open spec fn view(&self) -> LeafOpView {
        match self {
            LeafOp::PutFile(contents) => LeafOpView::PutFile(contents@),
            LeafOp::MakeDir => LeafOpView::MakeDir,
        }
    }
}

/// The entries after the change at the end of `names`: every folder on the way must
/// exist. A file is stored under its name, replacing what was there; a folder is made
/// empty unless a folder of that name is there already; a file of that name is in the way.
pub open spec fn update_entries(
    entries: Seq<(Seq<char>, Tree)>,
    names: Seq<Seq<char>>,
    op: LeafOpView,
) -> Result<Seq<(Seq<char>, Tree)>, MockFsError>
    decreases names.len(),
{
    if names.len() == 0 {
        Err(MockFsError::RootTarget)
    } else if names.len() == 1 {
        match op {
            LeafOpView::PutFile(contents) => Ok(insert_entry(entries, names[0], Tree::File(contents))),
            LeafOpView::MakeDir => match lookup(entries, names[0]) {
                Some(Tree::Folder(_)) => Ok(entries),
                Some(Tree::File(_)) => Err(MockFsError::NotADirectory),
                None => Ok(insert_entry(entries, names[0], Tree::Folder(Seq::empty()))),
            },
        }
    } else {
        match index_of(entries, names[0]) {
            None => Err(MockFsError::EntryNotFound),
            Some(i) => match entries[i].1 {
                Tree::File(_) => Err(MockFsError::NotADirectory),
                Tree::Folder(sub) => match update_entries(sub, names.drop_first(), op) {
                    Ok(sub2) => Ok(entries.update(i, (names[0], Tree::Folder(sub2)))),
                    Err(e) => Err(e),
                },
            },
        }
    }
}

/// The tree after the change at the end of the path with components `cs`.
pub open spec fn update_tree(root: Tree, cs: Seq<ComponentView>, op: LeafOpView) -> Result<
    Tree,
    MockFsError,
> {
    match names_of(cs) {
        Err(e) => Err(e),
        Ok(names) => match root {
            Tree::File(_) => Err(MockFsError::NotADirectory),
            Tree::Folder(entries) => match update_entries(entries, names, op) {
                Ok(entries2) => Ok(Tree::Folder(entries2)),
                Err(e) => Err(e),
            },
        },
    }
}

pub open spec fn names_view(v: Seq<String>) -> Seq<Seq<char>> {
    v.map_values(|s: String| s@)
}

proof fn lemma_names_of_error_stays(cs: Seq<ComponentView>, k: int, e: MockFsError)
    requires
        1 <= k <= cs.len(),
        names_of(cs.take(k)) == Err::<Seq<Seq<char>>, MockFsError>(e),
    ensures
        names_of(cs) == Err::<Seq<Seq<char>>, MockFsError>(e),
    decreases cs.len() - k,
{
    if k == cs.len() {
        assert(cs.take(k) =~= cs);
    } else {
        assert(cs.take(k + 1).drop_last() =~= cs.take(k));
        lemma_names_of_error_stays(cs, k + 1, e);
    }
}

/// The names below the root that the components of an absolute path give.
fn path_names(comps: &Vec<PathComponent>) -> (res: Result<Vec<String>, MockFsError>)
    ensures
        match res {
            Ok(names) => names_of(components_view(comps@)) == Ok::<Seq<Seq<char>>, MockFsError>(
                names_view(names@),
            ),
            Err(e) => names_of(components_view(comps@)) == Err::<Seq<Seq<char>>, MockFsError>(e),
        },
{
    let ghost cs = components_view(comps@);
    let n = comps.len();
    if n == 0 {
        return Err(MockFsError::NoPath);
    }
    assert(cs.take(1).len() == 1);
    match &comps[0] {
        PathComponent::RootDir => {},
        PathComponent::Prefix => {
            proof { lemma_names_of_error_stays(cs, 1, MockFsError::PrefixNotSupported); }
            return Err(MockFsError::PrefixNotSupported);
        },
        PathComponent::CurDir | PathComponent::ParentDir => {
            proof { lemma_names_of_error_stays(cs, 1, MockFsError::RelativePath); }
            return Err(MockFsError::RelativePath);
        },
        PathComponent::Normal(_) => {
            proof { lemma_names_of_error_stays(cs, 1, MockFsError::NoRootFolder); }
            return Err(MockFsError::NoRootFolder);
        },
    }
    let mut names: Vec<String> = Vec::new();
    let mut i: usize = 1;
    assert(names_view(names@) =~= Seq::<Seq<char>>::empty());
    while i < n
        invariant
            n == comps@.len(),
            cs == components_view(comps@),
            1 <= i <= n,
            names_of(cs.take(i as int)) == Ok::<Seq<Seq<char>>, MockFsError>(names_view(names@)),
        decreases n - i,
    {
        assert(cs.take(i + 1).drop_last() =~= cs.take(i as int));
        let failure: Option<MockFsError> = match &comps[i] {
            PathComponent::Normal(name) => {
                let ghost before = names@;
                names.push(name.clone());
                assert(names_view(names@) =~= names_view(before).push(name@));
                None
            },
            PathComponent::RootDir => Some(MockFsError::RootDirTwice),
            PathComponent::Prefix => Some(MockFsError::PrefixNotSupported),
            PathComponent::CurDir | PathComponent::ParentDir => Some(MockFsError::RelativePath),
        };
        if let Some(e) = failure {
            proof { lemma_names_of_error_stays(cs, i + 1, e); }
            return Err(e);
        }
        i = i + 1;
    }
    assert(cs.take(n as int) =~= cs);
    Ok(names)
}

impl Entries {
    /// Makes the change at the end of `names[start..]`, below these entries; on an
    /// error nothing changes.
    fn update_at(&mut self, names: &Vec<String>, start: usize, op: LeafOp) -> (res: Result<
        (),
        MockFsError,
    >)
        requires
            start < names@.len(),
        ensures
            match update_entries(old(self)@, names_view(names@).skip(start as int), op@) {
                Ok(entries) => res is Ok && final(self)@ == entries,
                Err(e) => res == Err::<(), MockFsError>(e) && final(self)@ == old(self)@,
            },
        decreases names@.len() - start,
    {
        proof {
            use_type_invariant(&*self);
            lemma_items_view(self.items@);
        }
        let ghost ns = names_view(names@).skip(start as int);
        let ghost old_view = self@;
        assert(ns[0] == names@[start as int]@);
        let name = &names[start];
        let count = names.len();
        if start + 1 == count {
            assert(ns.len() == 1);
            match op {
                LeafOp::PutFile(contents) => {
                    self.insert(name.clone(), FileOrFolder::File(contents));
                    Ok(())
                },
                LeafOp::MakeDir => match self.get(name.as_str()) {
                    Some(FileOrFolder::Folder(_)) => Ok(()),
                    Some(FileOrFolder::File(_)) => Err(MockFsError::NotADirectory),
                    None => {
                        self.insert(name.clone(), empty_folder());
                        Ok(())
                    },
                },
            }
        } else {
            assert(ns.drop_first() =~= names_view(names@).skip(start + 1));
            match self.find(name.as_str()) {
                None => Err(MockFsError::EntryNotFound),
                Some(i) => {
                    let ghost old_items = self.items@;
                    let mut items: Vec<(String, FileOrFolder)> = Vec::new();
                    std::mem::swap(&mut items, &mut self.items);
                    let (child_name, child) = items.remove(i);
                    let (node, res) = match child {
                        FileOrFolder::File(contents) => (
                            FileOrFolder::File(contents),
                            Err(MockFsError::NotADirectory),
                        ),
                        FileOrFolder::Folder(mut sub) => {
                            let r = sub.update_at(names, start + 1, op);
                            (FileOrFolder::Folder(sub), r)
                        },
                    };
                    let ghost pair = (child_name, node);
                    items.insert(i, (child_name, node));
                    proof {
                        assert(items@ =~= old_items.update(i as int, pair));
                        lemma_items_view(items@);
                        lemma_items_view(old_items);
                        assert(items_view(items@) =~= items_view(old_items).update(
                            i as int,
                            (pair.0@, node_view(pair.1)),
                        ));
                        if res is Err {
                            assert(items_view(items@) =~= items_view(old_items));
                        }
                    }
                    self.items = items;
                    res
                },
            }
        }
    }
}

impl MockFs {
    /// Reads the file at `path`.
    pub fn read_file(&self, path: &str) -> (res: Result<Vec<u8>, MockFsError>)
        ensures
            match res {
                Ok(contents) => read_file_spec(self@, std_components(path@)) == Ok::<
                    Seq<u8>,
                    MockFsError,
                >(contents@),
                Err(e) => read_file_spec(self@, std_components(path@)) == Err::<
                    Seq<u8>,
                    MockFsError,
                >(e),
            },
    {
        let comps = path_components(path);
        match self.walk_node(&comps) {
            Err(e) => Err(e),
            Ok(None) => Err(MockFsError::NoPath),
            Ok(Some(FileOrFolder::Folder(_))) => Err(MockFsError::NotAFile),
            Ok(Some(FileOrFolder::File(contents))) => {
                let mut copy: Vec<u8> = Vec::new();
                let n = contents.len();
                let mut i: usize = 0;
                while i < n
                    invariant
                        n == contents@.len(),
                        0 <= i <= n,
                        copy@ =~= contents@.take(i as int),
                    decreases n - i,
                {
                    copy.push(contents[i]);
                    i = i + 1;
                }
                assert(contents@.take(n as int) =~= contents@);
                Ok(copy)
            },
        }
    }

    /// Makes the change at the end of `path`; on an error nothing changes.
    pub fn update(&mut self, path: &str, op: LeafOp) -> (res: Result<(), MockFsError>)
        ensures
            match update_tree(old(self)@, std_components(path@), op@) {
                Ok(t) => res is Ok && final(self)@ == t,
                Err(e) => res == Err::<(), MockFsError>(e) && final(self)@ == old(self)@,
            },
    {
        let comps = path_components(path);
        let names = match path_names(&comps) {
            Err(e) => return Err(e),
            Ok(names) => names,
        };
        assert(names_view(names@).skip(0) =~= names_view(names@));
        proof {
            use_type_invariant(&*self);
            lemma_empty_folder_wf();
        }
        let ghost before = self@;
        let mut root = empty_folder();
        std::mem::swap(&mut root, &mut self.root_file);
        let res = match &mut root {
            FileOrFolder::File(_) => Err(MockFsError::NotADirectory),
            FileOrFolder::Folder(entries) => {
                if names.len() == 0 {
                    Err(MockFsError::RootTarget)
                } else {
                    entries.update_at(&names, 0, op)
                }
            },
        };
        proof {
            if res is Ok {
                lemma_update_tree_keeps_wf(before, std_components(path@), op@);
            }
        }
        self.root_file = root;
        res
    }

    /// Makes sure a folder is at `path`, whose parent folder must exist.
    pub fn make_dir(&mut self, path: &str) -> (res: Result<(), MockFsError>)
        ensures
            match update_tree(old(self)@, std_components(path@), LeafOpView::MakeDir) {
                Ok(t) => res is Ok && final(self)@ == t,
                Err(e) => res == Err::<(), MockFsError>(e) && final(self)@ == old(self)@,
            },
    {
        self.update(path, LeafOp::MakeDir)
    }

    /// Copies the file at `from` to `to`, whose parent folder must exist, and gives the
    /// number of bytes copied; on an error nothing changes.
    pub fn copy_file(&mut self, from: &str, to: &str) -> (res: Result<u64, MockFsError>)
        ensures
            res is Ok ==> read_file_spec(final(self)@, std_components(to@)) == read_file_spec(
                old(self)@,
                std_components(from@),
            ),
            match read_file_spec(old(self)@, std_components(from@)) {
                Err(e) => res == Err::<u64, MockFsError>(e) && final(self)@ == old(self)@,
                Ok(contents) => match update_tree(
                    old(self)@,
                    std_components(to@),
                    LeafOpView::PutFile(contents),
                ) {
                    Ok(t) => res == Ok::<u64, MockFsError>(contents.len() as u64) && final(self)@ == t,
                    Err(e) => res == Err::<u64, MockFsError>(e) && final(self)@ == old(self)@,
                },
            },
    {
        proof {
            use_type_invariant(&*self);
        }
        let contents = match self.read_file(from) {
            Err(e) => return Err(e),
            Ok(contents) => contents,
        };
        proof {
            if update_tree(self@, std_components(to@), LeafOpView::PutFile(contents@)) is Ok {
                lemma_read_after_write(self@, std_components(to@), contents@);
            }
        }
        let len = contents.len() as u64;
        match self.update(to, LeafOp::PutFile(contents)) {
            Ok(()) => Ok(len),
            Err(e) => Err(e),
        }
    }
}

/// The listing of two runs of entries is the listing of the first, then of the second.
pub proof fn lemma_listing_concat(
    dir: Seq<char>,
    a: Seq<(Seq<char>, Tree)>,
    b: Seq<(Seq<char>, Tree)>,
)
    ensures
        listing(dir, a + b) == listing(dir, a) + listing(dir, b),
    decreases b.len(),
{
    if b.len() == 0 {
        assert(a + b =~= a);
        assert(listing(dir, a) + listing(dir, b) =~= listing(dir, a));
    } else {
        let n = b.len();
        assert((a + b).subrange(0, (a + b).len() - 1) =~= a + b.subrange(0, n - 1));
        assert((a + b)[(a + b).len() - 1] == b[n - 1]);
        lemma_listing_concat(dir, a, b.subrange(0, n - 1));
        assert(listing(dir, a + b) =~= listing(dir, a) + listing(dir, b));
    }
}

/// In the recursive listing each folder comes first, and right after it comes the listing
/// of what it holds, under the folder's joined path.
pub proof fn lemma_listing_folder_first(dir: Seq<char>, entries: Seq<(Seq<char>, Tree)>, i: int)
    requires
        0 <= i < entries.len(),
    ensures
        ({
            let p = tree_count(entries.subrange(0, i)) as int;
            let whole = listing(dir, entries);
            &&& whole[p] == (dir, Ok::<DirEntryView, MockFsError>(entry_of(entries[i].0, entries[i].1)))
            &&& (entries[i].1 matches Tree::Folder(sub) ==> whole.subrange(
                p + 1,
                p + 1 + tree_count(sub),
            ) == listing(std_join(dir, entries[i].0), sub))
        }),
{
    let front = entries.subrange(0, i);
    let rest = entries.subrange(i + 1, entries.len() as int);
    assert(entries =~= front + seq![entries[i]] + rest);
    lemma_listing_concat(dir, front + seq![entries[i]], rest);
    lemma_listing_concat(dir, front, seq![entries[i]]);
    let one = seq![entries[i]];
    assert(one.subrange(0, 0) =~= Seq::<(Seq<char>, Tree)>::empty());
    assert(one[0] == entries[i]);
    assert(listing(dir, one.subrange(0, 0)) =~= Seq::<
        (Seq<char>, Result<DirEntryView, MockFsError>),
    >::empty());
    assert(listing(dir, one) =~= entry_listing(dir, entries[i]));
    lemma_listing_len(dir, front);
    let p = tree_count(front) as int;
    let whole = listing(dir, entries);
    let e = entry_listing(dir, entries[i]);
    assert(whole == listing(dir, front) + e + listing(dir, rest));
    assert(whole[p] == e[0]);
    if let Tree::Folder(sub) = entries[i].1 {
        lemma_listing_len(std_join(dir, entries[i].0), sub);
        assert(whole.subrange(p + 1, p + 1 + tree_count(sub)) =~= listing(
            std_join(dir, entries[i].0),
            sub,
        ));
    }
}

/// Every folder of the tree, at every depth, has entries of distinct names, as the
/// entries of a folder always have.
pub open spec fn tree_wf(t: Tree) -> bool
    decreases t,
{
    match t {
        Tree::File(_) => true,
        Tree::Folder(entries) => names_distinct(entries) && entries_wf(entries),
    }
}

/// Every node among the entries is well formed.
pub open spec fn entries_wf(entries: Seq<(Seq<char>, Tree)>) -> bool
    decreases entries,
{
    if entries.len() == 0 {
        true
    } else {
        entries_wf(entries.subrange(0, entries.len() - 1)) && tree_wf(entries[entries.len() - 1].1)
    }
}

proof fn lemma_entries_wf(entries: Seq<(Seq<char>, Tree)>, i: int)
    requires
        entries_wf(entries),
        0 <= i < entries.len(),
    ensures
        tree_wf(entries[i].1),
    decreases entries.len(),
{
    if i < entries.len() - 1 {
        lemma_entries_wf(entries.subrange(0, entries.len() - 1), i);
    }
}

/// The node that a sequence of names reaches from `t`, or the first error on the way
/// (the errors are those of `walk`).
pub open spec fn follow(t: Tree, names: Seq<Seq<char>>) -> Result<Tree, MockFsError>
    decreases names.len(),
{
    if names.len() == 0 {
        Ok(t)
    } else {
        match follow(t, names.drop_last()) {
            Err(e) => Err(e),
            Ok(Tree::File(_)) => Err(MockFsError::NotADirectory),
            Ok(Tree::Folder(entries)) => match lookup(entries, names.last()) {
                Some(child) => Ok(child),
                None => Err(MockFsError::EntryNotFound),
            },
        }
    }
}

proof fn lemma_walk_is_follow(root: Tree, cs: Seq<ComponentView>, names: Seq<Seq<char>>)
    requires
        names_of(cs) == Ok::<Seq<Seq<char>>, MockFsError>(names),
    ensures
        walk(root, cs) == match follow(root, names) {
            Ok(t) => Ok::<Option<Tree>, MockFsError>(Some(t)),
            Err(e) => Err(e),
        },
    decreases cs.len(),
{
    if cs.len() == 1 {
        assert(cs.drop_last() =~= Seq::<ComponentView>::empty());
        assert(names =~= Seq::<Seq<char>>::empty());
    } else {
        let front = names_of(cs.drop_last())->Ok_0;
        lemma_walk_is_follow(root, cs.drop_last(), front);
        assert(names.drop_last() =~= front);
    }
}

proof fn lemma_follow_first(t: Tree, names: Seq<Seq<char>>, entries: Seq<(Seq<char>, Tree)>, child: Tree)
    requires
        names.len() >= 1,
        t == Tree::Folder(entries),
        lookup(entries, names[0]) == Some(child),
    ensures
        follow(t, names) == follow(child, names.drop_first()),
    decreases names.len(),
{
    if names.len() == 1 {
        assert(names.drop_last() =~= Seq::<Seq<char>>::empty());
        assert(names.drop_first() =~= Seq::<Seq<char>>::empty());
    } else {
        lemma_follow_first(t, names.drop_last(), entries, child);
        assert(names.drop_last().drop_first() =~= names.drop_first().drop_last());
    }
}

proof fn lemma_put_then_follow(
    entries: Seq<(Seq<char>, Tree)>,
    names: Seq<Seq<char>>,
    contents: Seq<u8>,
    after: Seq<(Seq<char>, Tree)>,
)
    requires
        tree_wf(Tree::Folder(entries)),
        update_entries(entries, names, LeafOpView::PutFile(contents)) == Ok::<
            Seq<(Seq<char>, Tree)>,
            MockFsError,
        >(after),
    ensures
        follow(Tree::Folder(after), names) == Ok::<Tree, MockFsError>(Tree::File(contents)),
    decreases names.len(),
{
    let name = names[0];
    if names.len() == 1 {
        lemma_lookup_after_insert(entries, name, Tree::File(contents), name);
        assert(names.drop_first() =~= Seq::<Seq<char>>::empty());
        lemma_follow_first(Tree::Folder(after), names, after, Tree::File(contents));
    } else {
        let i = index_of(entries, name)->Some_0;
        assert(exists|j: int| 0 <= j < entries.len() && entries[j].0 == name);
        assert(0 <= i < entries.len() && entries[i].0 == name);
        let sub = entries[i].1->Folder_0;
        let sub2 = update_entries(sub, names.drop_first(), LeafOpView::PutFile(contents))->Ok_0;
        lemma_entries_wf(entries, i);
        lemma_put_then_follow(sub, names.drop_first(), contents, sub2);
        assert(after == entries.update(i, (name, Tree::Folder(sub2))));
        assert(names_distinct(after));
        lemma_index_of_unique(after, i);
        lemma_follow_first(Tree::Folder(after), names, after, Tree::Folder(sub2));
    }
}

/// A read gives back what a write wrote: after a file is stored at a path, reading that
/// path gives its contents.
pub proof fn lemma_read_after_write(t: Tree, cs: Seq<ComponentView>, contents: Seq<u8>)
    requires
        tree_wf(t),
        update_tree(t, cs, LeafOpView::PutFile(contents)) is Ok,
    ensures
        read_file_spec(update_tree(t, cs, LeafOpView::PutFile(contents))->Ok_0, cs) == Ok::<
            Seq<u8>,
            MockFsError,
        >(contents),
{
    let names = names_of(cs)->Ok_0;
    let entries = t->Folder_0;
    let after = update_entries(entries, names, LeafOpView::PutFile(contents))->Ok_0;
    lemma_put_then_follow(entries, names, contents, after);
    lemma_walk_is_follow(Tree::Folder(after), cs, names);
}

proof fn lemma_entries_wf_from(entries: Seq<(Seq<char>, Tree)>)
    requires
        forall|i: int| 0 <= i < entries.len() ==> #[trigger] tree_wf(entries[i].1),
    ensures
        entries_wf(entries),
    decreases entries.len(),
{
    if entries.len() > 0 {
        let front = entries.subrange(0, entries.len() - 1);
        assert forall|i: int| 0 <= i < front.len() implies #[trigger] tree_wf(front[i].1) by {
            assert(front[i] == entries[i]);
        }
        lemma_entries_wf_from(front);
        assert(tree_wf(entries[entries.len() - 1].1));
    } else {
        assert(entries_wf(entries));
    }
}

proof fn lemma_insert_keeps_wf(entries: Seq<(Seq<char>, Tree)>, name: Seq<char>, node: Tree)
    requires
        tree_wf(Tree::Folder(entries)),
        tree_wf(node),
    ensures
        tree_wf(Tree::Folder(insert_entry(entries, name, node))),
{
    let after = insert_entry(entries, name, node);
    lemma_lookup_after_insert(entries, name, node, name);
    assert forall|i: int| 0 <= i < after.len() implies #[trigger] tree_wf(after[i].1) by {
        if after[i].0 != name || after[i].1 != node {
            assert(i < entries.len() && after[i] == entries[i]);
            lemma_entries_wf(entries, i);
        }
    }
    lemma_entries_wf_from(after);
}

proof fn lemma_update_keeps_wf(
    entries: Seq<(Seq<char>, Tree)>,
    names: Seq<Seq<char>>,
    op: LeafOpView,
)
    requires
        tree_wf(Tree::Folder(entries)),
        update_entries(entries, names, op) is Ok,
    ensures
        tree_wf(Tree::Folder(update_entries(entries, names, op)->Ok_0)),
    decreases names.len(),
{
    let name = names[0];
    if names.len() == 1 {
        match op {
            LeafOpView::PutFile(contents) => {
                lemma_insert_keeps_wf(entries, name, Tree::File(contents));
            },
            LeafOpView::MakeDir => {
                if lookup(entries, name) is None {
                    assert(tree_wf(Tree::Folder(Seq::empty()))) by {
                        lemma_entries_wf_from(Seq::<(Seq<char>, Tree)>::empty());
                    }
                    lemma_insert_keeps_wf(entries, name, Tree::Folder(Seq::empty()));
                }
            },
        }
    } else {
        let i = index_of(entries, name)->Some_0;
        assert(exists|j: int| 0 <= j < entries.len() && entries[j].0 == name);
        assert(0 <= i < entries.len() && entries[i].0 == name);
        let sub = entries[i].1->Folder_0;
        lemma_entries_wf(entries, i);
        lemma_update_keeps_wf(sub, names.drop_first(), op);
        let sub2 = update_entries(sub, names.drop_first(), op)->Ok_0;
        let after = entries.update(i, (name, Tree::Folder(sub2)));
        assert forall|j: int| 0 <= j < after.len() implies #[trigger] tree_wf(after[j].1) by {
            if j != i {
                lemma_entries_wf(entries, j);
            }
        }
        lemma_entries_wf_from(after);
        assert(names_distinct(after));
    }
}

/// A change that succeeds keeps every folder's names distinct.
pub proof fn lemma_update_tree_keeps_wf(t: Tree, cs: Seq<ComponentView>, op: LeafOpView)
    requires
        tree_wf(t),
        update_tree(t, cs, op) is Ok,
    ensures
        tree_wf(update_tree(t, cs, op)->Ok_0),
{
    let names = names_of(cs)->Ok_0;
    lemma_update_keeps_wf(t->Folder_0, names, op);
}

/// The steps of a walk give the recursive listing: the step for an entry of the folder at
/// `dir` yields the pair that the listing holds at that entry's place, and where the step
/// names a folder to read next, right after the entry comes that folder's listing, read at
/// the named path; a step names no folder exactly for a file.
pub proof fn lemma_walk_steps_give_listing(
    dir: Seq<char>,
    entries: Seq<(Seq<char>, Tree)>,
    i: int,
    name: String,
)
    requires
        0 <= i < entries.len(),
        name@ == entries[i].0,
    ensures
        ({
            let p = tree_count(entries.subrange(0, i)) as int;
            let whole = listing(dir, entries);
            let step = Ok::<(String, FileType), String>((name, tree_type(entries[i].1)));
            &&& whole[p] == (dir, Ok::<DirEntryView, MockFsError>(entry_of(entries[i].0, entries[i].1)))
            &&& (next_dir(dir, step) matches Some(next) ==> (entries[i].1 matches Tree::Folder(sub)
                && whole.subrange(p + 1, p + 1 + tree_count(sub)) == listing(next, sub)))
            &&& (next_dir(dir, step) is None <==> entries[i].1 is File)
        }),
{
    lemma_listing_folder_first(dir, entries, i);
}

/// What reading a file finds at the node a walk reached.
pub open spec fn read_of(r: Result<Tree, MockFsError>) -> Result<Seq<u8>, MockFsError> {
    match r {
        Err(e) => Err(e),
        Ok(Tree::File(contents)) => Ok(contents),
        Ok(Tree::Folder(_)) => Err(MockFsError::NotAFile),
    }
}

/// Whether the names `a` begin the names `b`.
pub open spec fn names_prefix(a: Seq<Seq<char>>, b: Seq<Seq<char>>) -> bool {
    a.len() <= b.len() && b.subrange(0, a.len() as int) == a
}

proof fn lemma_follow_missing(t: Tree, names: Seq<Seq<char>>, entries: Seq<(Seq<char>, Tree)>)
    requires
        names.len() >= 1,
        t == Tree::Folder(entries),
        lookup(entries, names[0]) is None,
    ensures
        follow(t, names) == Err::<Tree, MockFsError>(MockFsError::EntryNotFound),
    decreases names.len(),
{
    if names.len() == 1 {
        assert(names.drop_last() =~= Seq::<Seq<char>>::empty());
    } else {
        lemma_follow_missing(t, names.drop_last(), entries);
    }
}

proof fn lemma_lookup_other_after_update(
    entries: Seq<(Seq<char>, Tree)>,
    i: int,
    node: Tree,
    other: Seq<char>,
)
    requires
        names_distinct(entries),
        0 <= i < entries.len(),
        other != entries[i].0,
    ensures
        lookup(entries.update(i, (entries[i].0, node)), other) == lookup(entries, other),
{
    let after = entries.update(i, (entries[i].0, node));
    if exists|j: int| 0 <= j < entries.len() && entries[j].0 == other {
        let j = choose|j: int| 0 <= j < entries.len() && entries[j].0 == other;
        lemma_index_of_unique(entries, j);
        assert(after[j] == entries[j]);
        assert(names_distinct(after));
        lemma_index_of_unique(after, j);
    } else {
        assert(!(exists|j: int| 0 <= j < after.len() && after[j].0 == other));
    }
}

proof fn lemma_update_elsewhere(
    entries: Seq<(Seq<char>, Tree)>,
    target: Seq<Seq<char>>,
    op: LeafOpView,
    names: Seq<Seq<char>>,
)
    requires
        tree_wf(Tree::Folder(entries)),
        update_entries(entries, target, op) is Ok,
        !names_prefix(target, names),
    ensures
        read_of(follow(Tree::Folder(update_entries(entries, target, op)->Ok_0), names)) == read_of(
            follow(Tree::Folder(entries), names),
        ),
    decreases target.len(),
{
    let after = update_entries(entries, target, op)->Ok_0;
    if names.len() == 0 {
        return;
    }
    let n = target[0];
    let q = names[0];
    if target.len() == 1 {
        if q == n {
            assert(names.subrange(0, 1) =~= target);
        }
        match op {
            LeafOpView::PutFile(contents) => {
                lemma_lookup_after_insert(entries, n, Tree::File(contents), q);
            },
            LeafOpView::MakeDir => {
                if lookup(entries, n) is None {
                    lemma_lookup_after_insert(entries, n, Tree::Folder(Seq::empty()), q);
                }
            },
        }
        assert(lookup(after, q) == lookup(entries, q));
        assert(names_distinct(entries));
    } else {
        let i = index_of(entries, n)->Some_0;
        assert(exists|j: int| 0 <= j < entries.len() && entries[j].0 == n);
        assert(0 <= i < entries.len() && entries[i].0 == n);
        let sub = entries[i].1->Folder_0;
        let sub2 = update_entries(sub, target.drop_first(), op)->Ok_0;
        assert(after == entries.update(i, (n, Tree::Folder(sub2))));
        lemma_index_of_unique(entries, i);
        if q != n {
            lemma_lookup_other_after_update(entries, i, Tree::Folder(sub2), q);
        } else {
            assert(names_distinct(after));
            lemma_index_of_unique(after, i);
            lemma_entries_wf(entries, i);
            assert(!names_prefix(target.drop_first(), names.drop_first())) by {
                if names_prefix(target.drop_first(), names.drop_first()) {
                    let rest = target.drop_first();
                    assert forall|k: int| 0 <= k < target.len() implies names[k] == target[k] by {
                        if k > 0 {
                            assert(names.drop_first().subrange(0, rest.len() as int)[k - 1]
                                == rest[k - 1]);
                        }
                    }
                    assert(names.subrange(0, target.len() as int) =~= target);
                }
            }
            lemma_update_elsewhere(sub, target.drop_first(), op, names.drop_first());
            lemma_follow_first(Tree::Folder(entries), names, entries, Tree::Folder(sub));
            lemma_follow_first(Tree::Folder(after), names, after, Tree::Folder(sub2));
            return;
        }
    }
    match lookup(entries, q) {
        Some(child) => {
            lemma_follow_first(Tree::Folder(entries), names, entries, child);
            lemma_follow_first(Tree::Folder(after), names, after, child);
        },
        None => {
            lemma_follow_missing(Tree::Folder(entries), names, entries);
            lemma_follow_missing(Tree::Folder(after), names, after);
        },
    }
}

/// The components of a path whose names `names_of` gives: the root, then the names.
proof fn lemma_names_of_shape(cs: Seq<ComponentView>, names: Seq<Seq<char>>)
    requires
        names_of(cs) == Ok::<Seq<Seq<char>>, MockFsError>(names),
    ensures
        cs.len() == names.len() + 1,
        cs[0] == ComponentView::RootDir,
        forall|k: int| 0 <= k < names.len() ==> cs[k + 1] == ComponentView::Normal(names[k]),
    decreases cs.len(),
{
    if cs.len() > 1 {
        let front = names_of(cs.drop_last())->Ok_0;
        lemma_names_of_shape(cs.drop_last(), front);
        assert(names == front.push(cs.last()->Normal_0));
    }
}

/// A change at the end of one path leaves every file alone whose path the changed path
/// does not begin: reading it gives what it gave before.
pub proof fn lemma_update_tree_elsewhere(
    t: Tree,
    target: Seq<ComponentView>,
    op: LeafOpView,
    path: Seq<ComponentView>,
)
    requires
        tree_wf(t),
        update_tree(t, target, op) is Ok,
        names_of(path) is Ok,
        !crate::paths::components_prefix(target, path),
    ensures
        read_file_spec(update_tree(t, target, op)->Ok_0, path) == read_file_spec(t, path),
{
    let nt = names_of(target)->Ok_0;
    let nq = names_of(path)->Ok_0;
    lemma_names_of_shape(target, nt);
    lemma_names_of_shape(path, nq);
    assert(!names_prefix(nt, nq)) by {
        if names_prefix(nt, nq) {
            assert forall|k: int| 0 <= k < target.len() implies path[k] == target[k] by {
                if k > 0 {
                    assert(nq[k - 1] == nt[k - 1]);
                }
            }
            assert(path.subrange(0, target.len() as int) =~= target);
        }
    }
    let entries = t->Folder_0;
    lemma_update_elsewhere(entries, nt, op, nq);
    let after = update_tree(t, target, op)->Ok_0;
    lemma_walk_is_follow(t, path, nq);
    lemma_walk_is_follow(after, path, nq);
}

proof fn lemma_walk_never_empty(root: Tree, cs: Seq<ComponentView>)
    requires
        cs.len() > 0,
    ensures
        walk(root, cs) != Ok::<Option<Tree>, MockFsError>(None),
    decreases cs.len(),
{
    if cs.len() > 1 {
        lemma_walk_never_empty(root, cs.drop_last());
    } else {
        assert(cs.drop_last() =~= Seq::<ComponentView>::empty());
    }
}

/// A path whose components are not the root and names reads as an error, whatever the tree.
proof fn lemma_bad_names_never_read(root: Tree, cs: Seq<ComponentView>)
    requires
        names_of(cs) is Err,
    ensures
        cs.len() > 0 ==> walk(root, cs) is Err,
        read_file_spec(root, cs) is Err,
    decreases cs.len(),
{
    if cs.len() == 1 {
        assert(cs.drop_last() =~= Seq::<ComponentView>::empty());
        assert(cs.last() == cs[0]);
    } else if cs.len() > 1 {
        lemma_walk_never_empty(root, cs.drop_last());
        if names_of(cs.drop_last()) is Err {
            lemma_bad_names_never_read(root, cs.drop_last());
        }
    }
}

/// A change at the end of one path leaves every path alone that it does not begin: a read
/// there succeeds afterwards exactly when it did before, with the same contents.
pub proof fn lemma_update_keeps_other_reads(
    t: Tree,
    target: Seq<ComponentView>,
    op: LeafOpView,
    path: Seq<ComponentView>,
)
    requires
        tree_wf(t),
        update_tree(t, target, op) is Ok,
        !crate::paths::components_prefix(target, path),
    ensures
        read_file_spec(update_tree(t, target, op)->Ok_0, path) is Ok <==> read_file_spec(t, path) is Ok,
        read_file_spec(update_tree(t, target, op)->Ok_0, path) is Ok ==> read_file_spec(
            update_tree(t, target, op)->Ok_0,
            path,
        ) == read_file_spec(t, path),
{
    if names_of(path) is Ok {
        lemma_update_tree_elsewhere(t, target, op, path);
    } else {
        lemma_bad_names_never_read(t, path);
        lemma_bad_names_never_read(update_tree(t, target, op)->Ok_0, path);
    }
}

impl Default for MockFs {
    /// A file system whose root is an empty folder.
    fn default() -> (res: MockFs)
        ensures
            res@ == Tree::Folder(Seq::empty()),
    {
        MockFs::new(empty_folder())
    }
}

impl FS for MockFs {
    type Error = MockFsError;

    /// Copying in the mock file system changes nothing and copies no bytes.
    fn copy(from: &str, to: &str) -> (res: Result<u64, MockFsError>)
        ensures
            res == Ok::<u64, MockFsError>(0),
    {
        Ok(0)
    }
}

} // verus!
