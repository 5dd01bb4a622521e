//! The decisions of a smart copy: which folders are searched for files that
//! already exist, which files they hold, which of them may duplicate each file
//! of the sources, which files are copied where, and where the metadata files
//! are saved.
use crate::async_fs::{DirEntry, FileType, Metadata, Timestamp};
use crate::mock_fs::{
    lemma_read_after_write, lemma_update_keeps_other_reads, lemma_update_tree_elsewhere,
    lemma_update_tree_keeps_wf, names_of,
    tree_wf,
    DirEntryView, LeafOpView, MockDirEntry, MockFs, MockFsError, Tree, error_message, listing_view,
    read_file_spec, update_tree,
    recursive_listing,
};
use crate::paths::{
    components_prefix, lemma_components_prefix_trans, ComponentView, join_path, path_starts_with, std_components, std_join, std_starts_with, std_strip_prefix,
    strip_prefix_path,
};
use vstd::prelude::*;

verus! {

/// What to copy where, and where to look for files that already exist.
pub struct SmartCopyOptions {
    pub sources: Vec<String>,
    pub destination: String,
    pub check: Vec<String>,
    pub save_metadata_in_sources: bool,
    pub save_metadata_in_check: bool,
    /// If the destination is inside a check folder, then the metadata will be saved in the
    /// root of the check folder and not the destination folder
    pub save_metadata_in_destination: bool,
}

/// A file found in a folder that is searched for existing files.
#[derive(Debug)]
pub struct ExistingFile {
    pub path: String,
    pub name: String,
    pub len: u64,
    pub last_modified: Timestamp,
}

pub struct ExistingFileView {
    pub path: Seq<char>,
    pub name: Seq<char>,
    pub len: u64,
    pub last_modified: Timestamp,
}

impl View for ExistingFile {
    type V = ExistingFileView;

    open spec fn view(&self) -> ExistingFileView {
        ExistingFileView {
            path: self.path@,
            name: self.name@,
            len: self.len,
            last_modified: self.last_modified,
        }
    }
}

impl ExistingFile {
    /// A copy of the record.
    pub fn duplicate(&self) -> (res: ExistingFile)
        ensures
            res@ == self@,
    {
        ExistingFile {
            path: self.path.clone(),
            name: self.name.clone(),
            len: self.len,
            last_modified: self.last_modified,
        }
    }
}

/// One entry of a recursive listing: the folder that holds it, its name, its kind and,
/// for a file, its size and modification time.
#[derive(Debug)]
pub struct ListedEntry {
    pub dir: String,
    pub name: String,
    pub file_type: FileType,
    pub len: u64,
    pub modified: Timestamp,
}

pub struct ListedEntryView {
    pub dir: Seq<char>,
    pub name: Seq<char>,
    pub file_type: FileType,
    pub len: u64,
    pub modified: Timestamp,
}

impl View for ListedEntry {
    type V = ListedEntryView;

    open spec fn view(&self) -> ListedEntryView {
        ListedEntryView {
            dir: self.dir@,
            name: self.name@,
            file_type: self.file_type,
            len: self.len,
            modified: self.modified,
        }
    }
}

impl ListedEntry {
    /// The path of the entry: its folder's path joined with its name.
    pub fn path(&self) -> (res: String)
        ensures
            res@ == std_join(self.dir@, self.name@),
    {
        join_path(self.dir.as_str(), self.name.as_str())
    }
}

/// A file of a source, with the existing files that have its size.
#[derive(Debug)]
pub struct SourceFile {
    pub path: String,
    pub same_len: Vec<ExistingFile>,
}

pub struct SourceFileView {
    pub path: Seq<char>,
    pub same_len: Seq<ExistingFileView>,
}

pub open spec fn files_view(v: Seq<ExistingFile>) -> Seq<ExistingFileView> {
    v.map_values(|f: ExistingFile| f@)
}

impl View for SourceFile {
    type V = SourceFileView;

    open spec fn view(&self) -> SourceFileView {
        SourceFileView { path: self.path@, same_len: files_view(self.same_len@) }
    }
}

/// The views of a listing.
pub open spec fn listed_view(v: Seq<Result<ListedEntry, String>>) -> Seq<
    Result<ListedEntryView, Seq<char>>,
> {
    v.map_values(
        |r: Result<ListedEntry, String>|
            match r {
                Ok(e) => Ok(e@),
                Err(s) => Err(s@),
            },
    )
}

/// The views of the outcome for each file of a source.
pub open spec fn outcomes_view(v: Seq<Result<SourceFile, String>>) -> Seq<
    Result<SourceFileView, Seq<char>>,
> {
    v.map_values(
        |r: Result<SourceFile, String>|
            match r {
                Ok(f) => Ok(f@),
                Err(s) => Err(s@),
            },
    )
}

pub open spec fn strings_view(v: Seq<String>) -> Seq<Seq<char>> {
    v.map_values(|s: String| s@)
}

/// The folders searched for existing files: the check folders, then the destination
/// unless it lies inside one of them.
pub open spec fn folders_to_check_spec(check: Seq<Seq<char>>, destination: Seq<char>) -> Seq<
    Seq<char>,
> {
    if exists|i: int| 0 <= i < check.len() && std_starts_with(destination, #[trigger] check[i]) {
        check
    } else {
        check.push(destination)
    }
}

/// The existing file that a listed file is.
pub open spec fn existing_file_of(entry: ListedEntryView) -> ExistingFileView {
    ExistingFileView {
        path: std_join(entry.dir, entry.name),
        name: entry.name,
        len: entry.len,
        last_modified: entry.modified,
    }
}

/// The files of a listing, in order, or the first error in it.
pub open spec fn existing_files(listing: Seq<Result<ListedEntryView, Seq<char>>>) -> Result<
    Seq<ExistingFileView>,
    Seq<char>,
>
    decreases listing.len(),
{
    if listing.len() == 0 {
        Ok(Seq::empty())
    } else {
        match existing_files(listing.drop_last()) {
            Err(e) => Err(e),
            Ok(found) => match listing.last() {
                Err(e) => Err(e),
                Ok(entry) => if entry.file_type == FileType::File {
                    Ok(found.push(existing_file_of(entry)))
                } else {
                    Ok(found)
                },
            },
        }
    }
}

/// The files of all folders, folder after folder, or the first folder's error.
pub open spec fn all_existing_files(per_folder: Seq<Result<Seq<ExistingFileView>, Seq<char>>>) -> Result<
    Seq<ExistingFileView>,
    Seq<char>,
>
    decreases per_folder.len(),
{
    if per_folder.len() == 0 {
        Ok(Seq::empty())
    } else {
        match all_existing_files(per_folder.drop_last()) {
            Err(e) => Err(e),
            Ok(found) => match per_folder.last() {
                Err(e) => Err(e),
                Ok(files) => Ok(found + files),
            },
        }
    }
}

/// The existing files that have the given size, in order.
pub open spec fn same_len_files(files: Seq<ExistingFileView>, len: u64) -> Seq<ExistingFileView> {
    files.filter(|f: ExistingFileView| f.len == len)
}

/// The outcome for one entry of a source listing: nothing for a folder; for a file, its
/// path and the existing files of its size, or the error of the existing files.
pub open spec fn source_outcome(
    entry: Result<ListedEntryView, Seq<char>>,
    existing: Result<Seq<ExistingFileView>, Seq<char>>,
) -> Seq<Result<SourceFileView, Seq<char>>> {
    match entry {
        Err(e) => seq![Err(e)],
        Ok(entry) => if entry.file_type == FileType::File {
            seq![
                match existing {
                    Ok(files) => Ok(
                        SourceFileView {
                            path: std_join(entry.dir, entry.name),
                            same_len: same_len_files(files, entry.len),
                        },
                    ),
                    Err(e) => Err(e),
                },
            ]
        } else {
            Seq::empty()
        },
    }
}

/// The outcomes for all entries of a source listing, in order.
pub open spec fn source_outcomes(
    listing: Seq<Result<ListedEntryView, Seq<char>>>,
    existing: Result<Seq<ExistingFileView>, Seq<char>>,
) -> Seq<Result<SourceFileView, Seq<char>>>
    decreases listing.len(),
{
    if listing.len() == 0 {
        Seq::empty()
    } else {
        source_outcomes(listing.drop_last(), existing) + source_outcome(listing.last(), existing)
    }
}

pub open spec fn existing_view(r: Result<Vec<ExistingFile>, String>) -> Result<
    Seq<ExistingFileView>,
    Seq<char>,
> {
    match r {
        Ok(v) => Ok(files_view(v@)),
        Err(e) => Err(e@),
    }
}

pub open spec fn per_folder_view(v: Seq<Result<Vec<ExistingFile>, String>>) -> Seq<
    Result<Seq<ExistingFileView>, Seq<char>>,
> {
    v.map_values(|r: Result<Vec<ExistingFile>, String>| existing_view(r))
}

proof fn lemma_existing_files_error_stays(
    listing: Seq<Result<ListedEntryView, Seq<char>>>,
    k: int,
    e: Seq<char>,
)
    requires
        0 <= k <= listing.len(),
        existing_files(listing.take(k)) == Err::<Seq<ExistingFileView>, Seq<char>>(e),
    ensures
        existing_files(listing) == Err::<Seq<ExistingFileView>, Seq<char>>(e),
    decreases listing.len() - k,
{
    if k == listing.len() {
        assert(listing.take(k) =~= listing);
    } else {
        assert(listing.take(k + 1).drop_last() =~= listing.take(k));
        lemma_existing_files_error_stays(listing, k + 1, e);
    }
}

proof fn lemma_all_existing_error_stays(
    per_folder: Seq<Result<Seq<ExistingFileView>, Seq<char>>>,
    k: int,
    e: Seq<char>,
)
    requires
        0 <= k <= per_folder.len(),
        all_existing_files(per_folder.take(k)) == Err::<Seq<ExistingFileView>, Seq<char>>(e),
    ensures
        all_existing_files(per_folder) == Err::<Seq<ExistingFileView>, Seq<char>>(e),
    decreases per_folder.len() - k,
{
    if k == per_folder.len() {
        assert(per_folder.take(k) =~= per_folder);
    } else {
        assert(per_folder.take(k + 1).drop_last() =~= per_folder.take(k));
        lemma_all_existing_error_stays(per_folder, k + 1, e);
    }
}

/// A plan whose every step writes under the folder with components `dest` leaves every
/// path that does not lie under it as it was: reading it gives what it gave before.
pub proof fn lemma_apply_plan_elsewhere(
    t: Tree,
    plan: Seq<Result<CopyOpView, Seq<char>>>,
    dest: Seq<ComponentView>,
    path: Seq<ComponentView>,
)
    requires
        tree_wf(t),
        plan_targets_inside(plan, dest),
        names_of(path) is Ok,
        !components_prefix(dest, path),
    ensures
        read_file_spec(apply_plan(t, plan).0, path) == read_file_spec(t, path),
    decreases plan.len(),
{
    if plan.len() > 0 {
        let front = plan.drop_last();
        assert forall|k: int| 0 <= k < front.len() implies (#[trigger] front[k] matches Ok(op)
            ==> components_prefix(dest, std_components(op_target(op)))) by {
            assert(front[k] == plan[k]);
        }
        lemma_apply_plan_elsewhere(t, front, dest, path);
        lemma_apply_plan_keeps_wf(t, front);
        let t1 = apply_plan(t, front).0;
        if let Ok(op) = plan.last() {
            assert(plan[plan.len() - 1] == plan.last());
            let target = std_components(op_target(op));
            assert(!components_prefix(target, path)) by {
                if components_prefix(target, path) {
                    lemma_components_prefix_trans(dest, target, path);
                }
            }
            match op {
                CopyOpView::MakeDir(p) => {
                    if update_tree(t1, target, LeafOpView::MakeDir) is Ok {
                        lemma_update_tree_elsewhere(t1, target, LeafOpView::MakeDir, path);
                    }
                },
                CopyOpView::Copy(from, to) => {
                    if let Ok(contents) = read_file_spec(t1, std_components(from)) {
                        if update_tree(t1, target, LeafOpView::PutFile(contents)) is Ok {
                            lemma_update_tree_elsewhere(
                                t1,
                                target,
                                LeafOpView::PutFile(contents),
                                path,
                            );
                        }
                    }
                },
            }
        }
    }
}

impl SmartCopyOptions {
    /// Checks that the options are valid; every set of options is accepted.
    pub fn check(&self) -> (res: Result<(), String>)
        ensures
            res is Ok,
    {
        Ok(())
    }

    /// The folders searched for existing files, given whether the destination lies
    /// inside one of the check folders: the check folders, then the destination unless
    /// it does.
    pub fn folders_to_check_given(&self, destination_is_checked: bool) -> (res: Vec<String>)
        ensures
            strings_view(res@) == if destination_is_checked {
                strings_view(self.check@)
            } else {
                strings_view(self.check@).push(self.destination@)
            },
    {
        let mut res: Vec<String> = Vec::new();
        let n = self.check.len();
        let mut i: usize = 0;
        while i < n
            invariant
                n == self.check@.len(),
                0 <= i <= n,
                strings_view(res@) =~= strings_view(self.check@).take(i as int),
            decreases n - i,
        {
            let ghost before = res@;
            res.push(self.check[i].clone());
            assert(strings_view(res@) =~= strings_view(before).push(self.check@[i as int]@));
            assert(strings_view(self.check@).take(i + 1) =~= strings_view(self.check@).take(
                i as int,
            ).push(self.check@[i as int]@));
            i = i + 1;
        }
        assert(strings_view(self.check@).take(n as int) =~= strings_view(self.check@));
        if !destination_is_checked {
            res.push(self.destination.clone());
        }
        assert(strings_view(res@) =~= if destination_is_checked {
            strings_view(self.check@)
        } else {
            strings_view(self.check@).push(self.destination@)
        });
        res
    }

    /// The folders searched for existing files: the check folders, then the destination
    /// unless `Path::starts_with` finds it inside one of them.
    pub fn folders_to_check(&self) -> (res: Vec<String>)
        ensures
            strings_view(res@) == folders_to_check_spec(strings_view(self.check@), self.destination@),
    {
        let ghost check = strings_view(self.check@);
        let n = self.check.len();
        let mut i: usize = 0;
        let mut inside = false;
        while i < n
            invariant
                n == self.check@.len(),
                check == strings_view(self.check@),
                0 <= i <= n,
                inside == exists|j: int|
                    0 <= j < i && std_starts_with(self.destination@, #[trigger] check[j]),
            decreases n - i,
        {
            if path_starts_with(self.destination.as_str(), self.check[i].as_str()) {
                inside = true;
                assert(std_starts_with(self.destination@, check[i as int]));
            }
            i = i + 1;
        }
        self.folders_to_check_given(inside)
    }
}

/// The files of a listing, each with its path joined from its folder and name, in
/// order; or the first error of the listing.
pub fn existing_files_in(listing: &Vec<Result<ListedEntry, String>>) -> (res: Result<
    Vec<ExistingFile>,
    String,
>)
    ensures
        existing_view(res) == existing_files(listed_view(listing@)),
{
    let ghost l = listed_view(listing@);
    let mut found: Vec<ExistingFile> = Vec::new();
    let n = listing.len();
    let mut i: usize = 0;
    assert(l.take(0) =~= Seq::<Result<ListedEntryView, Seq<char>>>::empty());
    assert(files_view(found@) =~= Seq::<ExistingFileView>::empty());
    while i < n
        invariant
            n == listing@.len(),
            l == listed_view(listing@),
            0 <= i <= n,
            existing_files(l.take(i as int)) == Ok::<Seq<ExistingFileView>, Seq<char>>(
                files_view(found@),
            ),
        decreases n - i,
    {
        assert(l.take(i + 1).drop_last() =~= l.take(i as int));
        match &listing[i] {
            Err(e) => {
                let e = e.clone();
                proof {
                    lemma_existing_files_error_stays(l, i + 1, e@);
                }
                return Err(e);
            },
            Ok(entry) => {
                if entry.file_type == FileType::File {
                    let path = join_path(entry.dir.as_str(), entry.name.as_str());
                    let ghost before = found@;
                    found.push(
                        ExistingFile {
                            path,
                            name: entry.name.clone(),
                            len: entry.len,
                            last_modified: entry.modified,
                        },
                    );
                    assert(files_view(found@) =~= files_view(before).push(existing_file_of(entry@)));
                }
            },
        }
        i = i + 1;
    }
    assert(l.take(n as int) =~= l);
    Ok(found)
}

/// The files of all folders, folder after folder; or the error of the first folder
/// that failed.
pub fn all_existing_files_in(per_folder: Vec<Result<Vec<ExistingFile>, String>>) -> (res: Result<
    Vec<ExistingFile>,
    String,
>)
    ensures
        existing_view(res) == all_existing_files(per_folder_view(per_folder@)),
{
    let ghost p = per_folder_view(per_folder@);
    let mut all: Vec<ExistingFile> = Vec::new();
    let n = per_folder.len();
    let mut i: usize = 0;
    assert(p.take(0) =~= Seq::<Result<Seq<ExistingFileView>, Seq<char>>>::empty());
    assert(files_view(all@) =~= Seq::<ExistingFileView>::empty());
    while i < n
        invariant
            n == per_folder@.len(),
            p == per_folder_view(per_folder@),
            0 <= i <= n,
            all_existing_files(p.take(i as int)) == Ok::<Seq<ExistingFileView>, Seq<char>>(
                files_view(all@),
            ),
        decreases n - i,
    {
        assert(p.take(i + 1).drop_last() =~= p.take(i as int));
        assert(p[i as int] == existing_view(per_folder@[i as int]));
        match &per_folder[i] {
            Err(e) => {
                let e = e.clone();
                proof {
                    lemma_all_existing_error_stays(p, i + 1, e@);
                }
                return Err(e);
            },
            Ok(files) => {
                let ghost before = all@;
                let m = files.len();
                let mut j: usize = 0;
                while j < m
                    invariant
                        m == files@.len(),
                        0 <= j <= m,
                        files_view(all@) =~= files_view(before) + files_view(files@).take(j as int),
                    decreases m - j,
                {
                    let ghost prev = all@;
                    all.push(files[j].duplicate());
                    assert(files_view(all@) =~= files_view(prev).push(files@[j as int]@));
                    assert(files_view(files@).take(j + 1) =~= files_view(files@).take(j as int).push(
                        files@[j as int]@,
                    ));
                    j = j + 1;
                }
                assert(files_view(files@).take(m as int) =~= files_view(files@));
            },
        }
        i = i + 1;
    }
    assert(p.take(n as int) =~= p);
    Ok(all)
}

/// The existing files that have the size `len`, in order.
pub fn files_with_len(files: &Vec<ExistingFile>, len: u64) -> (res: Vec<ExistingFile>)
    ensures
        files_view(res@) == same_len_files(files_view(files@), len),
{
    let ghost fv = files_view(files@);
    let mut res: Vec<ExistingFile> = Vec::new();
    let n = files.len();
    let mut i: usize = 0;
    proof {
        reveal_with_fuel(Seq::<_>::filter, 1);
    }
    assert(fv.take(0) =~= Seq::<ExistingFileView>::empty());
    while i < n
        invariant
            n == files@.len(),
            fv == files_view(files@),
            0 <= i <= n,
            files_view(res@) == same_len_files(fv.take(i as int), len),
        decreases n - i,
    {
        proof {
            reveal_with_fuel(Seq::<_>::filter, 1);
            assert(fv.take(i + 1).drop_last() =~= fv.take(i as int));
        }
        let ghost before = res@;
        if files[i].len == len {
            res.push(files[i].duplicate());
            assert(files_view(res@) =~= files_view(before).push(fv[i as int]));
        }
        i = i + 1;
    }
    assert(fv.take(n as int) =~= fv);
    res
}

/// For each file of a source listing, in order: its path with the existing files of its
/// size, or the error of the existing files. Each error of the listing is passed on;
/// folders give nothing.
pub fn source_files(
    listing: &Vec<Result<ListedEntry, String>>,
    existing: &Result<Vec<ExistingFile>, String>,
) -> (res: Vec<Result<SourceFile, String>>)
    ensures
        outcomes_view(res@) == source_outcomes(listed_view(listing@), existing_view(*existing)),
{
    let ghost l = listed_view(listing@);
    let ghost ex = existing_view(*existing);
    let mut res: Vec<Result<SourceFile, String>> = Vec::new();
    let n = listing.len();
    let mut i: usize = 0;
    assert(l.take(0) =~= Seq::<Result<ListedEntryView, Seq<char>>>::empty());
    while i < n
        invariant
            n == listing@.len(),
            l == listed_view(listing@),
            ex == existing_view(*existing),
            0 <= i <= n,
            outcomes_view(res@) == source_outcomes(l.take(i as int), ex),
        decreases n - i,
    {
        assert(l.take(i + 1).drop_last() =~= l.take(i as int));
        let ghost before = res@;
        match &listing[i] {
            Err(e) => {
                res.push(Err(e.clone()));
                assert(outcomes_view(res@) =~= outcomes_view(before) + source_outcome(l[i as int], ex));
            },
            Ok(entry) => {
                if entry.file_type == FileType::File {
                    let outcome = match existing {
                        Ok(files) => Ok(
                            SourceFile {
                                path: join_path(entry.dir.as_str(), entry.name.as_str()),
                                same_len: files_with_len(files, entry.len),
                            },
                        ),
                        Err(e) => Err(e.clone()),
                    };
                    res.push(outcome);
                }
                assert(outcomes_view(res@) =~= outcomes_view(before) + source_outcome(l[i as int], ex));
            },
        }
        i = i + 1;
    }
    assert(l.take(n as int) =~= l);
    res
}

/// The listing entry that the mock file system's recursive listing gives for one pair;
/// every entry of the mock file system was last modified at the Unix epoch.
pub open spec fn listed_of(item: (Seq<char>, Result<DirEntryView, MockFsError>)) -> Result<
    ListedEntryView,
    Seq<char>,
> {
    match item.1 {
        Ok(e) => Ok(
            ListedEntryView {
                dir: item.0,
                name: e.name,
                file_type: e.file_type,
                len: e.len as u64,
                modified: Timestamp { nanos_since_epoch: 0 },
            },
        ),
        Err(x) => Err(error_message(x)),
    }
}

/// The recursive listing of the folder at `path` of a mock file system.
pub open spec fn mock_listing(fs: Tree, path: Seq<char>) -> Seq<Result<ListedEntryView, Seq<char>>> {
    recursive_listing(fs, path).map_values(
        |item: (Seq<char>, Result<DirEntryView, MockFsError>)| listed_of(item),
    )
}

/// The files of each folder of a mock file system, in order, or the first error.
pub open spec fn mock_existing_files(fs: Tree, folders: Seq<Seq<char>>) -> Result<
    Seq<ExistingFileView>,
    Seq<char>,
> {
    all_existing_files(existing_per_folder(fs, folders))
}

/// The files of each folder of the mock file system, or the error of its listing.
pub open spec fn existing_per_folder(fs: Tree, folders: Seq<Seq<char>>) -> Seq<
    Result<Seq<ExistingFileView>, Seq<char>>,
> {
    folders.map_values(|f: Seq<char>| existing_files(mock_listing(fs, f)))
}

pub open spec fn reports_view(v: Seq<Vec<Result<SourceFile, String>>>) -> Seq<
    Seq<Result<SourceFileView, Seq<char>>>,
> {
    v.map_values(|r: Vec<Result<SourceFile, String>>| outcomes_view(r@))
}

/// Lists the folder at `path` of a mock file system recursively, as listing entries.
pub fn mock_listed_entries(fs: &MockFs, path: &str) -> (res: Vec<Result<ListedEntry, String>>)
    ensures
        listed_view(res@) == mock_listing(fs@, path@),
{
    let items = fs.read_dir_recursive(path);
    let ghost lv = listing_view(items@);
    let mut res: Vec<Result<ListedEntry, String>> = Vec::new();
    let n = items.len();
    let mut i: usize = 0;
    while i < n
        invariant
            n == items@.len(),
            lv == listing_view(items@),
            lv == recursive_listing(fs@, path@),
            0 <= i <= n,
            listed_view(res@) =~= lv.take(i as int).map_values(
                |item: (Seq<char>, Result<DirEntryView, MockFsError>)| listed_of(item),
            ),
        decreases n - i,
    {
        let ghost before = res@;
        let converted: Result<ListedEntry, String> = match &items[i].1 {
            Err(x) => Err(x.message().to_owned()),
            Ok(entry) => match entry.file_type() {
                Err(x) => Err(x.message().to_owned()),
                Ok(file_type) => match entry.metadata() {
                    Err(x) => Err(x.message().to_owned()),
                    Ok(meta) => match meta.modified() {
                        Err(x) => Err(x),
                        Ok(modified) => Ok(
                            ListedEntry {
                                dir: items[i].0.clone(),
                                name: entry.file_name(),
                                file_type,
                                len: meta.len(),
                                modified,
                            },
                        ),
                    },
                },
            },
        };
        res.push(converted);
        assert(listed_view(res@) =~= listed_view(before).push(listed_of(lv[i as int])));
        assert(lv.take(i + 1) =~= lv.take(i as int).push(lv[i as int]));
        i = i + 1;
    }
    assert(lv.take(n as int) =~= lv);
    res
}

/// The candidate duplicates of a file are the existing files of its size: each of them
/// has that size and is one of the existing files, and no existing file of that size is
/// left out.
pub proof fn lemma_same_len_candidates(files: Seq<ExistingFileView>, len: u64)
    ensures
        forall|i: int|
            0 <= i < same_len_files(files, len).len() ==> (#[trigger] same_len_files(files, len)[i]).len
                == len && files.contains(same_len_files(files, len)[i]),
        forall|i: int|
            0 <= i < files.len() && (#[trigger] files[i]).len == len ==> same_len_files(
                files,
                len,
            ).contains(files[i]),
{
    let pred = |f: ExistingFileView| f.len == len;
    let found = files.filter(pred);
    assert forall|i: int| 0 <= i < found.len() implies (#[trigger] found[i]).len == len
        && files.contains(found[i]) by {
        files.lemma_filter_pred(pred, i);
        assert(found.contains(found[i]));
        files.lemma_filter_contains_rev(pred, found[i]);
    }
    assert forall|i: int| 0 <= i < files.len() && (#[trigger] files[i]).len == len implies found.contains(
        files[i],
    ) by {
        files.lemma_filter_contains(pred, i);
    }
}

/// When the folders to check cannot be searched, no file of a source is matched: each
/// outcome is an error, that of the source listing or that of the search.
pub proof fn lemma_outcomes_when_search_fails(
    listing: Seq<Result<ListedEntryView, Seq<char>>>,
    e: Seq<char>,
)
    ensures
        forall|k: int|
            0 <= k < source_outcomes(listing, Err(e)).len() ==> (#[trigger] source_outcomes(
                listing,
                Err(e),
            )[k]) is Err,
    decreases listing.len(),
{
    if listing.len() > 0 {
        lemma_outcomes_when_search_fails(listing.drop_last(), e);
        let front = source_outcomes(listing.drop_last(), Err(e));
        let tail = source_outcome(listing.last(), Err(e));
        assert forall|k: int| 0 <= k < (front + tail).len() implies (#[trigger] (front + tail)[k]) is Err by {
            if k >= front.len() {
                assert((front + tail)[k] == tail[k - front.len()]);
            }
        }
    }
}

/// One step of copying a source into the destination.
#[derive(Debug)]
pub enum CopyOp {
    /// Make sure the folder at the path exists.
    MakeDir(String),
    /// Copy the file at `from` to `to`.
    Copy { from: String, to: String },
}

pub enum CopyOpView {
    MakeDir(Seq<char>),
    Copy(Seq<char>, Seq<char>),
}

impl View for CopyOp {
    type V = CopyOpView;

    open spec fn view(&self) -> CopyOpView {
        match self {
            CopyOp::MakeDir(path) => CopyOpView::MakeDir(path@),
            CopyOp::Copy { from, to } => CopyOpView::Copy(from@, to@),
        }
    }
}

/// The views of a copy plan.
pub open spec fn plan_view(v: Seq<Result<CopyOp, String>>) -> Seq<Result<CopyOpView, Seq<char>>> {
    v.map_values(
        |r: Result<CopyOp, String>|
            match r {
                Ok(op) => Ok(op@),
                Err(e) => Err(e@),
            },
    )
}

/// The views of the results of copy steps.
pub open spec fn results_view(v: Seq<Result<u64, String>>) -> Seq<Result<u64, Seq<char>>> {
    v.map_values(
        |r: Result<u64, String>|
            match r {
                Ok(n) => Ok(n),
                Err(e) => Err(e@),
            },
    )
}

pub open spec fn opt_file_view(f: Option<&ExistingFile>) -> Option<ExistingFileView> {
    match f {
        Some(f) => Some(f@),
        None => None,
    }
}

/// The position of the first existing file with the given name, if there is one.
pub open spec fn first_named(files: Seq<ExistingFileView>, name: Seq<char>) -> Option<int> {
    if exists|i: int| 0 <= i < files.len() && files[i].name == name {
        Some(
            choose|i: int|
                0 <= i < files.len() && files[i].name == name && forall|k: int|
                    0 <= k < i ==> files[k].name != name,
        )
    } else {
        None
    }
}

/// The existing file that a source file of the given name is compared with: the first
/// existing file of that name.
pub open spec fn candidate_of(files: Seq<ExistingFileView>, name: Seq<char>) -> Option<
    ExistingFileView,
> {
    match first_named(files, name) {
        Some(i) => Some(files[i]),
        None => None,
    }
}

/// Whether a source file of size `len` is copied: unless the existing file it is compared
/// with has its size and its contents.
pub open spec fn copy_needed(len: u64, candidate: Option<ExistingFileView>, same_contents: bool) -> bool {
    match candidate {
        None => true,
        Some(f) => !(f.len == len && same_contents),
    }
}

/// The copy step for one entry listed under `source`: a folder is made again under the
/// destination at the same place relative to the source; a file is copied there unless it
/// duplicates the existing file it is compared with; an entry outside the source, or
/// whose place would lie outside the destination, is an error.
pub open spec fn copy_step_spec(
    source: Seq<char>,
    destination: Seq<char>,
    entry: ListedEntryView,
    candidate: Option<ExistingFileView>,
    same_contents: bool,
) -> Option<Result<CopyOpView, Seq<char>>> {
    match std_strip_prefix(entry.dir, source) {
        None => Some(Err("Not inside the source folder"@)),
        Some(rel) => {
            let target = std_join(std_join(destination, rel), entry.name);
            if !std_starts_with(target, destination) {
                Some(Err("Outside the destination"@))
            } else if entry.file_type == FileType::Dir {
                Some(Ok(CopyOpView::MakeDir(target)))
            } else if copy_needed(entry.len, candidate, same_contents) {
                Some(Ok(CopyOpView::Copy(std_join(entry.dir, entry.name), target)))
            } else {
                None
            }
        },
    }
}

pub open spec fn step_view(r: Option<Result<CopyOp, String>>) -> Option<Result<CopyOpView, Seq<char>>> {
    match r {
        None => None,
        Some(Ok(op)) => Some(Ok(op@)),
        Some(Err(e)) => Some(Err(e@)),
    }
}

/// The path that a copy step writes: the folder it makes or the file it copies to.
pub open spec fn op_target(op: CopyOpView) -> Seq<char> {
    match op {
        CopyOpView::MakeDir(path) => path,
        CopyOpView::Copy(_, to) => to,
    }
}

/// Whether every step of a plan writes under the folder whose components are `dest`.
pub open spec fn plan_targets_inside(
    plan: Seq<Result<CopyOpView, Seq<char>>>,
    dest: Seq<ComponentView>,
) -> bool {
    forall|k: int|
        0 <= k < plan.len() ==> (#[trigger] plan[k] matches Ok(op) ==> components_prefix(
            dest,
            std_components(op_target(op)),
        ))
}

proof fn lemma_first_named(files: Seq<ExistingFileView>, name: Seq<char>)
    ensures
        match first_named(files, name) {
            Some(i) => 0 <= i < files.len() && files[i].name == name && forall|k: int|
                0 <= k < i ==> files[k].name != name,
            None => forall|k: int| 0 <= k < files.len() ==> files[k].name != name,
        },
{
    if exists|i: int| 0 <= i < files.len() && files[i].name == name {
        let i = choose|i: int| 0 <= i < files.len() && files[i].name == name;
        lemma_first_named_witness(files, name, i);
    }
}

proof fn lemma_first_named_witness(files: Seq<ExistingFileView>, name: Seq<char>, i: int)
    requires
        0 <= i < files.len(),
        files[i].name == name,
    ensures
        exists|j: int|
            0 <= j < files.len() && files[j].name == name && forall|k: int|
                0 <= k < j ==> files[k].name != name,
    decreases i,
{
    if exists|k: int| 0 <= k < i && files[k].name == name {
        let k = choose|k: int| 0 <= k < i && files[k].name == name;
        lemma_first_named_witness(files, name, k);
    } else {
        assert(forall|k: int| 0 <= k < i ==> files[k].name != name);
    }
}

/// Finds the existing file that a source file named `name` is compared with.
pub fn find_first_named(files: &Vec<ExistingFile>, name: &String) -> (res: Option<usize>)
    ensures
        match res {
            Some(i) => first_named(files_view(files@), name@) == Some(i as int),
            None => first_named(files_view(files@), name@) is None,
        },
{
    let ghost fv = files_view(files@);
    let n = files.len();
    let mut i: usize = 0;
    while i < n
        invariant
            n == files@.len(),
            fv == files_view(files@),
            0 <= i <= n,
            forall|k: int| 0 <= k < i ==> fv[k].name != name@,
        decreases n - i,
    {
        if files[i].name == *name {
            proof {
                let p = |j: int|
                    0 <= j < fv.len() && fv[j].name == name@ && forall|k: int|
                        0 <= k < j ==> fv[k].name != name@;
                assert(p(i as int));
                let c = choose|j: int|
                    0 <= j < fv.len() && fv[j].name == name@ && forall|k: int|
                        0 <= k < j ==> fv[k].name != name@;
                assert(p(c));
                if c < i {
                    assert(fv[c].name != name@);
                } else if c > i {
                    assert(fv[i as int].name != name@);
                }
            }
            return Some(i);
        }
        i = i + 1;
    }
    None
}

/// The copy step for one entry listed under `source`, given the existing file it is
/// compared with and whether their contents are the same.
pub fn copy_step(
    source: &str,
    destination: &str,
    entry: &ListedEntry,
    candidate: Option<&ExistingFile>,
    same_contents: bool,
) -> (res: Option<Result<CopyOp, String>>)
    ensures
        step_view(res) == copy_step_spec(
            source@,
            destination@,
            entry@,
            opt_file_view(candidate),
            same_contents,
        ),
        res matches Some(Ok(op)) ==> components_prefix(
            std_components(destination@),
            std_components(op_target(op@)),
        ),
{
    let rel = match strip_prefix_path(entry.dir.as_str(), source) {
        None => return Some(Err("Not inside the source folder".to_owned())),
        Some(rel) => rel,
    };
    let target_dir = join_path(destination, rel.as_str());
    let target = join_path(target_dir.as_str(), entry.name.as_str());
    if !path_starts_with(target.as_str(), destination) {
        return Some(Err("Outside the destination".to_owned()));
    }
    if entry.file_type == FileType::Dir {
        return Some(Ok(CopyOp::MakeDir(target)));
    }
    let needed = match candidate {
        None => true,
        Some(f) => !(f.len == entry.len && same_contents),
    };
    if needed {
        Some(Ok(CopyOp::Copy { from: join_path(entry.dir.as_str(), entry.name.as_str()), to: target }))
    } else {
        None
    }
}

/// The folders in which the metadata file is saved, each given by the path of that file:
/// with `save_metadata_in_sources`, every source; with `save_metadata_in_check`, every
/// check folder; with `save_metadata_in_destination`, the destination, or, where the
/// destination lies inside a check folder, the first such check folder, unless the check
/// folders already hold it.
pub open spec fn metadata_folders_spec(
    sources: Seq<Seq<char>>,
    check: Seq<Seq<char>>,
    destination: Seq<char>,
    in_sources: bool,
    in_check: bool,
    in_destination: bool,
) -> Seq<Seq<char>> {
    (if in_sources {
        sources
    } else {
        Seq::empty()
    }) + (if in_check {
        check
    } else {
        Seq::empty()
    }) + (if !in_destination {
        Seq::empty()
    } else if exists|i: int| 0 <= i < check.len() && std_starts_with(destination, #[trigger] check[i]) {
        if in_check {
            Seq::empty()
        } else {
            seq![
                check[choose|i: int|
                    0 <= i < check.len() && std_starts_with(destination, check[i]) && forall|k: int|
                        0 <= k < i ==> !std_starts_with(destination, #[trigger] check[k])],
            ]
        }
    } else {
        seq![destination]
    })
}

/// The name of the metadata file.
pub open spec fn metadata_file_name() -> Seq<char> {
    ".smart_photo_copier"@
}

pub open spec fn metadata_files_spec(folders: Seq<Seq<char>>) -> Seq<Seq<char>> {
    folders.map_values(|f: Seq<char>| std_join(f, metadata_file_name()))
}

/// The path of the metadata file of a folder.
pub fn metadata_file(folder: &str) -> (res: String)
    ensures
        res@ == std_join(folder@, metadata_file_name()),
{
    proof {
        reveal_strlit(".smart_photo_copier");
    }
    join_path(folder, ".smart_photo_copier")
}

/// The contents of the file at a path of the mock file system, compared with those of the
/// existing file that a listed file is compared with.
pub open spec fn same_contents_spec(
    fs: Tree,
    entry: ListedEntryView,
    candidate: Option<ExistingFileView>,
) -> bool {
    match candidate {
        None => false,
        Some(f) => match (
            read_file_spec(fs, std_components(std_join(entry.dir, entry.name))),
            read_file_spec(fs, std_components(f.path)),
        ) {
            (Ok(a), Ok(b)) => a == b,
            _ => false,
        },
    }
}

/// The copy steps for one item of a source listing of the mock file system.
pub open spec fn mock_plan_item(
    fs: Tree,
    source: Seq<char>,
    destination: Seq<char>,
    item: Result<ListedEntryView, Seq<char>>,
    files: Seq<ExistingFileView>,
) -> Seq<Result<CopyOpView, Seq<char>>> {
    match item {
        Err(_) => Seq::empty(),
        Ok(e) => {
            let candidate = candidate_of(files, e.name);
            match copy_step_spec(
                source,
                destination,
                e,
                candidate,
                same_contents_spec(fs, e, candidate),
            ) {
                Some(step) => seq![step],
                None => Seq::empty(),
            }
        },
    }
}

/// The copy steps for a source listing of the mock file system, in order.
pub open spec fn mock_plan(
    fs: Tree,
    source: Seq<char>,
    destination: Seq<char>,
    listing: Seq<Result<ListedEntryView, Seq<char>>>,
    files: Seq<ExistingFileView>,
) -> Seq<Result<CopyOpView, Seq<char>>>
    decreases listing.len(),
{
    if listing.len() == 0 {
        Seq::empty()
    } else {
        mock_plan(fs, source, destination, listing.drop_last(), files) + mock_plan_item(
            fs,
            source,
            destination,
            listing.last(),
            files,
        )
    }
}

/// The copy steps for all sources, source after source; none where the existing files
/// could not be found.
pub open spec fn mock_plan_all(
    fs: Tree,
    sources: Seq<Seq<char>>,
    destination: Seq<char>,
    existing: Result<Seq<ExistingFileView>, Seq<char>>,
) -> Seq<Result<CopyOpView, Seq<char>>>
    decreases sources.len(),
{
    match existing {
        Err(_) => Seq::empty(),
        Ok(files) => if sources.len() == 0 {
            Seq::empty()
        } else {
            mock_plan_all(fs, sources.drop_last(), destination, existing) + mock_plan(
                fs,
                sources.last(),
                destination,
                mock_listing(fs, sources.last()),
                files,
            )
        },
    }
}

/// What one copy step does to the mock file system, and its result.
pub open spec fn apply_op(t: Tree, op: CopyOpView) -> (Tree, Result<u64, MockFsError>) {
    match op {
        CopyOpView::MakeDir(path) => match update_tree(t, std_components(path), LeafOpView::MakeDir) {
            Ok(t2) => (t2, Ok(0)),
            Err(e) => (t, Err(e)),
        },
        CopyOpView::Copy(from, to) => match read_file_spec(t, std_components(from)) {
            Err(e) => (t, Err(e)),
            Ok(contents) => match update_tree(
                t,
                std_components(to),
                LeafOpView::PutFile(contents),
            ) {
                Ok(t2) => (t2, Ok(contents.len() as u64)),
                Err(e) => (t, Err(e)),
            },
        },
    }
}

/// The mock file system after the steps of a plan, in order, and the result of each: a
/// failed step changes nothing; an error of the plan is passed on.
pub open spec fn apply_plan(t: Tree, plan: Seq<Result<CopyOpView, Seq<char>>>) -> (
    Tree,
    Seq<Result<u64, Seq<char>>>,
)
    decreases plan.len(),
{
    if plan.len() == 0 {
        (t, Seq::empty())
    } else {
        let (t1, results) = apply_plan(t, plan.drop_last());
        match plan.last() {
            Err(e) => (t1, results.push(Err(e))),
            Ok(op) => {
                let (t2, r) = apply_op(t1, op);
                (
                    t2,
                    results.push(
                        match r {
                            Ok(n) => Ok(n),
                            Err(e) => Err(error_message(e)),
                        },
                    ),
                )
            },
        }
    }
}

/// Whether the contents of the listed file and of the existing file it is compared with
/// are the same; they are read only where the sizes are the same.
fn contents_match(fs: &MockFs, entry: &ListedEntry, candidate: Option<&ExistingFile>) -> (res: bool)
    ensures
        copy_needed(entry.len, opt_file_view(candidate), res) == copy_needed(
            entry.len,
            opt_file_view(candidate),
            same_contents_spec(fs@, entry@, opt_file_view(candidate)),
        ),
{
    match candidate {
        None => false,
        Some(f) => {
            if f.len != entry.len {
                return false;
            }
            let from = join_path(entry.dir.as_str(), entry.name.as_str());
            let a = fs.read_file(from.as_str());
            let b = fs.read_file(f.path.as_str());
            match (a, b) {
                (Ok(a), Ok(b)) => {
                    if a.len() != b.len() {
                        assert(a@.len() != b@.len());
                        return false;
                    }
                    let n = a.len();
                    let mut i: usize = 0;
                    while i < n
                        invariant
                            n == a@.len(),
                            n == b@.len(),
                            0 <= i <= n,
                            forall|k: int| 0 <= k < i ==> a@[k] == b@[k],
                            same_contents_spec(fs@, entry@, opt_file_view(candidate)) == (a@ == b@),
                            opt_file_view(candidate) == Some(f@),
                            f@.len == entry.len,
                        decreases n - i,
                    {
                        if a[i] != b[i] {
                            assert(a@[i as int] != b@[i as int]);
                            return false;
                        }
                        i = i + 1;
                    }
                    assert(a@ =~= b@);
                    true
                },
                _ => false,
            }
        },
    }
}

/// Appends the copy steps for a source listing of the mock file system.
fn plan_source(
    fs: &MockFs,
    source: &str,
    destination: &str,
    listing: &Vec<Result<ListedEntry, String>>,
    files: &Vec<ExistingFile>,
    plan: &mut Vec<Result<CopyOp, String>>,
)
    requires
        plan_targets_inside(plan_view(old(plan)@), std_components(destination@)),
    ensures
        plan_targets_inside(plan_view(final(plan)@), std_components(destination@)),
        plan_view(final(plan)@) == plan_view(old(plan)@) + mock_plan(
            fs@,
            source@,
            destination@,
            listed_view(listing@),
            files_view(files@),
        ),
{
    let ghost l = listed_view(listing@);
    let ghost fv = files_view(files@);
    let n = listing.len();
    let mut i: usize = 0;
    assert(l.take(0) =~= Seq::<Result<ListedEntryView, Seq<char>>>::empty());
    assert(plan_view(plan@) =~= plan_view(old(plan)@) + mock_plan(fs@, source@, destination@, l.take(0), fv));
    while i < n
        invariant
            n == listing@.len(),
            l == listed_view(listing@),
            fv == files_view(files@),
            0 <= i <= n,
            plan_targets_inside(plan_view(plan@), std_components(destination@)),
            plan_view(plan@) == plan_view(old(plan)@) + mock_plan(
                fs@,
                source@,
                destination@,
                l.take(i as int),
                fv,
            ),
        decreases n - i,
    {
        assert(l.take(i + 1).drop_last() =~= l.take(i as int));
        let ghost before = plan@;
        match &listing[i] {
            Err(_) => {
                assert(mock_plan_item(fs@, source@, destination@, l[i as int], fv) =~= Seq::<
                    Result<CopyOpView, Seq<char>>,
                >::empty());
                assert(plan_view(plan@) =~= plan_view(old(plan)@) + mock_plan(
                    fs@,
                    source@,
                    destination@,
                    l.take(i + 1),
                    fv,
                ));
            },
            Ok(entry) => {
                let found = find_first_named(files, &entry.name);
                proof {
                    lemma_first_named(fv, entry@.name);
                }
                let candidate: Option<&ExistingFile> = match found {
                    Some(j) => Some(&files[j]),
                    None => None,
                };
                assert(opt_file_view(candidate) == candidate_of(fv, entry@.name));
                let same = contents_match(fs, entry, candidate);
                let step = copy_step(source, destination, entry, candidate, same);
                match step {
                    Some(s) => {
                        plan.push(s);
                    },
                    None => {},
                }
                assert(plan_view(plan@) =~= plan_view(before) + mock_plan_item(
                    fs@,
                    source@,
                    destination@,
                    l[i as int],
                    fv,
                ));
                assert(plan_view(plan@) =~= plan_view(old(plan)@) + mock_plan(
                    fs@,
                    source@,
                    destination@,
                    l.take(i + 1),
                    fv,
                ));
            },
        }
        i = i + 1;
    }
    assert(l.take(n as int) =~= l);
}

/// Performs one copy step on the mock file system.
fn apply_step(fs: &mut MockFs, op: &CopyOp) -> (res: Result<u64, MockFsError>)
    ensures
        (final(fs)@, res) == apply_op(old(fs)@, op@),
{
    match op {
        CopyOp::MakeDir(path) => match fs.make_dir(path.as_str()) {
            Ok(()) => Ok(0),
            Err(e) => Err(e),
        },
        CopyOp::Copy { from, to } => fs.copy_file(from.as_str(), to.as_str()),
    }
}

/// Performs the steps of a plan on the mock file system, in order, and gives the result
/// of each.
pub fn apply_copy_plan(fs: &mut MockFs, plan: &Vec<Result<CopyOp, String>>) -> (res: Vec<
    Result<u64, String>,
>)
    ensures
        (final(fs)@, results_view(res@)) == apply_plan(old(fs)@, plan_view(plan@)),
{
    let ghost p = plan_view(plan@);
    let mut results: Vec<Result<u64, String>> = Vec::new();
    let n = plan.len();
    let mut i: usize = 0;
    assert(p.take(0) =~= Seq::<Result<CopyOpView, Seq<char>>>::empty());
    assert(results_view(results@) =~= Seq::<Result<u64, Seq<char>>>::empty());
    while i < n
        invariant
            n == plan@.len(),
            p == plan_view(plan@),
            0 <= i <= n,
            (fs@, results_view(results@)) == apply_plan(old(fs)@, p.take(i as int)),
        decreases n - i,
    {
        assert(p.take(i + 1).drop_last() =~= p.take(i as int));
        let ghost before = results@;
        match &plan[i] {
            Err(e) => {
                results.push(Err(e.clone()));
            },
            Ok(op) => {
                let r = apply_step(fs, op);
                match r {
                    Ok(k) => results.push(Ok(k)),
                    Err(e) => results.push(Err(e.message().to_owned())),
                }
            },
        }
        assert(results_view(results@) =~= results_view(before).push(apply_plan(old(fs)@, p.take(i + 1)).1.last()));
        i = i + 1;
    }
    assert(p.take(n as int) =~= p);
    results
}

/// What a smart copy over the mock file system did: for each source, the outcome for each
/// of its files; the copy plan; the result of each step of the plan; and the paths of the
/// metadata files to save.
#[derive(Debug)]
pub struct SmartCopyReport {
    pub outcomes: Vec<Vec<Result<SourceFile, String>>>,
    pub plan: Vec<Result<CopyOp, String>>,
    pub results: Vec<Result<u64, String>>,
    pub metadata_files: Vec<String>,
}


/// A source file's outcome depends on that file and the existing files alone: the
/// outcomes of two runs of a listing are those of the first, then those of the second.
pub proof fn lemma_source_outcomes_concat(
    a: Seq<Result<ListedEntryView, Seq<char>>>,
    b: Seq<Result<ListedEntryView, Seq<char>>>,
    existing: Result<Seq<ExistingFileView>, Seq<char>>,
)
    ensures
        source_outcomes(a + b, existing) == source_outcomes(a, existing) + source_outcomes(
            b,
            existing,
        ),
    decreases b.len(),
{
    if b.len() == 0 {
        assert(a + b =~= a);
        assert(source_outcomes(a, existing) + source_outcomes(b, existing) =~= source_outcomes(
            a,
            existing,
        ));
    } else {
        assert((a + b).drop_last() =~= a + b.drop_last());
        lemma_source_outcomes_concat(a, b.drop_last(), existing);
        assert(source_outcomes(a + b, existing) =~= source_outcomes(a, existing) + source_outcomes(
            b,
            existing,
        ));
    }
}

/// Files of the sources are not compared with each other: whether a source file is
/// copied depends on that file, the existing files and the file system alone, so the copy
/// steps of two runs of a listing are those of the first, then those of the second.
pub proof fn lemma_mock_plan_concat(
    fs: Tree,
    source: Seq<char>,
    destination: Seq<char>,
    a: Seq<Result<ListedEntryView, Seq<char>>>,
    b: Seq<Result<ListedEntryView, Seq<char>>>,
    files: Seq<ExistingFileView>,
)
    ensures
        mock_plan(fs, source, destination, a + b, files) == mock_plan(
            fs,
            source,
            destination,
            a,
            files,
        ) + mock_plan(fs, source, destination, b, files),
    decreases b.len(),
{
    if b.len() == 0 {
        assert(a + b =~= a);
        assert(mock_plan(fs, source, destination, a, files) + mock_plan(
            fs,
            source,
            destination,
            b,
            files,
        ) =~= mock_plan(fs, source, destination, a, files));
    } else {
        assert((a + b).drop_last() =~= a + b.drop_last());
        lemma_mock_plan_concat(fs, source, destination, a, b.drop_last(), files);
        assert(mock_plan(fs, source, destination, a + b, files) =~= mock_plan(
            fs,
            source,
            destination,
            a,
            files,
        ) + mock_plan(fs, source, destination, b, files));
    }
}

/// Whether the copy step for a listing item reads nothing at or under the path `added`:
/// neither the listed file nor the existing file it is compared with lies there.
pub open spec fn step_reads_apart(
    added: Seq<ComponentView>,
    item: Result<ListedEntryView, Seq<char>>,
    files: Seq<ExistingFileView>,
) -> bool {
    match item {
        Err(_) => true,
        Ok(e) => {
            &&& !components_prefix(added, std_components(std_join(e.dir, e.name)))
            &&& (candidate_of(files, e.name) matches Some(f) ==> !components_prefix(
                added,
                std_components(f.path),
            ))
        },
    }
}

proof fn lemma_added_file_keeps_item(
    t: Tree,
    added: Seq<ComponentView>,
    contents: Seq<u8>,
    source: Seq<char>,
    destination: Seq<char>,
    item: Result<ListedEntryView, Seq<char>>,
    files: Seq<ExistingFileView>,
)
    requires
        tree_wf(t),
        update_tree(t, added, LeafOpView::PutFile(contents)) is Ok,
        step_reads_apart(added, item, files),
    ensures
        mock_plan_item(
            update_tree(t, added, LeafOpView::PutFile(contents))->Ok_0,
            source,
            destination,
            item,
            files,
        ) == mock_plan_item(t, source, destination, item, files),
{
    if let Ok(e) = item {
        let op = LeafOpView::PutFile(contents);
        let t2 = update_tree(t, added, op)->Ok_0;
        lemma_update_keeps_other_reads(t, added, op, std_components(std_join(e.dir, e.name)));
        if let Some(f) = candidate_of(files, e.name) {
            lemma_update_keeps_other_reads(t, added, op, std_components(f.path));
        }
        assert(same_contents_spec(t2, e, candidate_of(files, e.name)) == same_contents_spec(
            t,
            e,
            candidate_of(files, e.name),
        ));
    }
}

proof fn lemma_added_file_keeps_plan(
    t: Tree,
    added: Seq<ComponentView>,
    contents: Seq<u8>,
    source: Seq<char>,
    destination: Seq<char>,
    listing: Seq<Result<ListedEntryView, Seq<char>>>,
    files: Seq<ExistingFileView>,
)
    requires
        tree_wf(t),
        update_tree(t, added, LeafOpView::PutFile(contents)) is Ok,
        forall|k: int| 0 <= k < listing.len() ==> step_reads_apart(added, #[trigger] listing[k], files),
    ensures
        mock_plan(
            update_tree(t, added, LeafOpView::PutFile(contents))->Ok_0,
            source,
            destination,
            listing,
            files,
        ) == mock_plan(t, source, destination, listing, files),
    decreases listing.len(),
{
    if listing.len() > 0 {
        let front = listing.drop_last();
        assert forall|k: int| 0 <= k < front.len() implies step_reads_apart(
            added,
            #[trigger] front[k],
            files,
        ) by {
            assert(front[k] == listing[k]);
        }
        lemma_added_file_keeps_plan(t, added, contents, source, destination, front, files);
        assert(step_reads_apart(added, listing[listing.len() - 1], files));
        lemma_added_file_keeps_item(t, added, contents, source, destination, listing.last(), files);
    }
}

/// Files of a source are not compared with each other: adding a file to the file system,
/// where it comes between two parts of a source's listing, leaves the copy step of every
/// other listed file as it was, as long as neither that file nor the existing file it is
/// compared with lies at or under the new file's path and the existing files are the same.
/// The new file's own step stands in its place.
pub proof fn lemma_added_file_keeps_other_steps(
    t: Tree,
    added: Seq<ComponentView>,
    contents: Seq<u8>,
    source: Seq<char>,
    destination: Seq<char>,
    before: Seq<Result<ListedEntryView, Seq<char>>>,
    new_item: Result<ListedEntryView, Seq<char>>,
    after: Seq<Result<ListedEntryView, Seq<char>>>,
    files: Seq<ExistingFileView>,
)
    requires
        tree_wf(t),
        update_tree(t, added, LeafOpView::PutFile(contents)) is Ok,
        forall|k: int| 0 <= k < before.len() ==> step_reads_apart(added, #[trigger] before[k], files),
        forall|k: int| 0 <= k < after.len() ==> step_reads_apart(added, #[trigger] after[k], files),
    ensures
        mock_plan(
            update_tree(t, added, LeafOpView::PutFile(contents))->Ok_0,
            source,
            destination,
            before + seq![new_item] + after,
            files,
        ) == mock_plan(t, source, destination, before, files) + mock_plan_item(
            update_tree(t, added, LeafOpView::PutFile(contents))->Ok_0,
            source,
            destination,
            new_item,
            files,
        ) + mock_plan(t, source, destination, after, files),
{
    let t2 = update_tree(t, added, LeafOpView::PutFile(contents))->Ok_0;
    let one = seq![new_item];
    lemma_mock_plan_concat(t2, source, destination, before + one, after, files);
    lemma_mock_plan_concat(t2, source, destination, before, one, files);
    lemma_added_file_keeps_plan(t, added, contents, source, destination, before, files);
    lemma_added_file_keeps_plan(t, added, contents, source, destination, after, files);
    assert(one.len() == 1);
    assert(one.drop_last() =~= Seq::<Result<ListedEntryView, Seq<char>>>::empty());
    assert(one.last() == new_item);
    assert(mock_plan(t2, source, destination, one.drop_last(), files) =~= Seq::<
        Result<CopyOpView, Seq<char>>,
    >::empty());
    assert(mock_plan(t2, source, destination, one, files) =~= mock_plan_item(
        t2,
        source,
        destination,
        new_item,
        files,
    ));
}

/// A file of a source, whose place under the destination lies inside it, is copied to that
/// place exactly when the first existing file of its name does not have its size and its
/// contents; a duplicate gives no step.
pub proof fn lemma_file_copied_unless_duplicate(
    fs: Tree,
    source: Seq<char>,
    destination: Seq<char>,
    entry: ListedEntryView,
    files: Seq<ExistingFileView>,
    rel: Seq<char>,
)
    requires
        entry.file_type == FileType::File,
        std_strip_prefix(entry.dir, source) == Some(rel),
        std_starts_with(std_join(std_join(destination, rel), entry.name), destination),
    ensures
        mock_plan_item(fs, source, destination, Ok(entry), files) == if copy_needed(
            entry.len,
            candidate_of(files, entry.name),
            same_contents_spec(fs, entry, candidate_of(files, entry.name)),
        ) {
            seq![
                Ok(
                    CopyOpView::Copy(
                        std_join(entry.dir, entry.name),
                        std_join(std_join(destination, rel), entry.name),
                    ),
                ),
            ]
        } else {
            Seq::<Result<CopyOpView, Seq<char>>>::empty()
        },
{
}

/// A copy step that succeeds leaves at its target a file with the contents of its source.
pub proof fn lemma_copy_step_gives_contents(t: Tree, from: Seq<char>, to: Seq<char>)
    requires
        tree_wf(t),
        apply_op(t, CopyOpView::Copy(from, to)).1 is Ok,
    ensures
        read_file_spec(apply_op(t, CopyOpView::Copy(from, to)).0, std_components(to))
            == read_file_spec(t, std_components(from)),
{
    let contents = read_file_spec(t, std_components(from))->Ok_0;
    lemma_read_after_write(t, std_components(to), contents);
}


/// Every step of a plan keeps every folder's names distinct.
pub proof fn lemma_apply_plan_keeps_wf(t: Tree, plan: Seq<Result<CopyOpView, Seq<char>>>)
    requires
        tree_wf(t),
    ensures
        tree_wf(apply_plan(t, plan).0),
        apply_plan(t, plan).1.len() == plan.len(),
    decreases plan.len(),
{
    if plan.len() > 0 {
        lemma_apply_plan_keeps_wf(t, plan.drop_last());
        let t1 = apply_plan(t, plan.drop_last()).0;
        if let Ok(op) = plan.last() {
            match op {
                CopyOpView::MakeDir(path) => {
                    if update_tree(t1, std_components(path), LeafOpView::MakeDir) is Ok {
                        lemma_update_tree_keeps_wf(t1, std_components(path), LeafOpView::MakeDir);
                    }
                },
                CopyOpView::Copy(from, to) => {
                    if let Ok(contents) = read_file_spec(t1, std_components(from)) {
                        if update_tree(t1, std_components(to), LeafOpView::PutFile(contents)) is Ok {
                            lemma_update_tree_keeps_wf(
                                t1,
                                std_components(to),
                                LeafOpView::PutFile(contents),
                            );
                        }
                    }
                },
            }
        }
    }
}

/// Each copy step of a plan that succeeds leaves at its target a file with the contents
/// that its source had when the step was taken.
pub proof fn lemma_plan_step_copies(
    t: Tree,
    plan: Seq<Result<CopyOpView, Seq<char>>>,
    k: int,
    from: Seq<char>,
    to: Seq<char>,
)
    requires
        tree_wf(t),
        0 <= k < plan.len(),
        plan[k] == Ok::<CopyOpView, Seq<char>>(CopyOpView::Copy(from, to)),
        apply_plan(t, plan.take(k + 1)).1[k] is Ok,
    ensures
        read_file_spec(apply_plan(t, plan.take(k + 1)).0, std_components(to)) == read_file_spec(
            apply_plan(t, plan.take(k)).0,
            std_components(from),
        ),
{
    assert(plan.take(k + 1).drop_last() =~= plan.take(k));
    lemma_apply_plan_keeps_wf(t, plan.take(k));
    let before = apply_plan(t, plan.take(k)).0;
    assert(apply_plan(t, plan.take(k)).1.len() == k);
    lemma_copy_step_gives_contents(before, from, to);
}


impl SmartCopyOptions {
    /// Searches the mock file system for the existing files, then, for each source in
    /// order, gives the outcome for each of its files: the existing files of the same size.
    /// Only the folders to check are searched, never the sources themselves.
    fn search(&self, fs: &MockFs) -> (res: (Vec<Vec<Result<SourceFile, String>>>, Result<Vec<ExistingFile>, String>))
        ensures
            existing_view(res.1) == mock_existing_files(
                fs@,
                folders_to_check_spec(strings_view(self.check@), self.destination@),
            ),
            reports_view(res.0@) == strings_view(self.sources@).map_values(
                |source: Seq<char>|
                    source_outcomes(
                        mock_listing(fs@, source),
                        mock_existing_files(
                            fs@,
                            folders_to_check_spec(strings_view(self.check@), self.destination@),
                        ),
                    ),
            ),
    {
        self.check().unwrap();
        let folders = self.folders_to_check();
        let ghost fv = strings_view(folders@);
        let mut per_folder: Vec<Result<Vec<ExistingFile>, String>> = Vec::new();
        let n = folders.len();
        let mut i: usize = 0;
        while i < n
            invariant
                n == folders@.len(),
                fv == strings_view(folders@),
                0 <= i <= n,
                per_folder_view(per_folder@) =~= fv.take(i as int).map_values(
                    |f: Seq<char>| existing_files(mock_listing(fs@, f)),
                ),
            decreases n - i,
        {
            let listing = mock_listed_entries(fs, folders[i].as_str());
            let found = existing_files_in(&listing);
            let ghost before = per_folder@;
            per_folder.push(found);
            assert(per_folder_view(per_folder@) =~= per_folder_view(before).push(
                existing_files(mock_listing(fs@, fv[i as int])),
            ));
            assert(fv.take(i + 1) =~= fv.take(i as int).push(fv[i as int]));
            i = i + 1;
        }
        assert(fv.take(n as int) =~= fv);
        let existing = all_existing_files_in(per_folder);
        let ghost ex = existing_view(existing);
        let ghost sv = strings_view(self.sources@);
        let mut reports: Vec<Vec<Result<SourceFile, String>>> = Vec::new();
        let m = self.sources.len();
        let mut j: usize = 0;
        while j < m
            invariant
                m == self.sources@.len(),
                sv == strings_view(self.sources@),
                ex == existing_view(existing),
                0 <= j <= m,
                reports_view(reports@) =~= sv.take(j as int).map_values(
                    |source: Seq<char>| source_outcomes(mock_listing(fs@, source), ex),
                ),
            decreases m - j,
        {
            let listing = mock_listed_entries(fs, self.sources[j].as_str());
            let outcomes = source_files(&listing, &existing);
            let ghost before = reports@;
            reports.push(outcomes);
            assert(reports_view(reports@) =~= reports_view(before).push(
                source_outcomes(mock_listing(fs@, sv[j as int]), ex),
            ));
            assert(sv.take(j + 1) =~= sv.take(j as int).push(sv[j as int]));
            j = j + 1;
        }
        assert(sv.take(m as int) =~= sv);
        proof {
            assert(fv =~= folders_to_check_spec(strings_view(self.check@), self.destination@));
        }
        (reports, existing)
    }

    /// The folders in which the metadata file is saved.
    pub fn metadata_folders(&self) -> (res: Vec<String>)
        ensures
            strings_view(res@) == metadata_folders_spec(
                strings_view(self.sources@),
                strings_view(self.check@),
                self.destination@,
                self.save_metadata_in_sources,
                self.save_metadata_in_check,
                self.save_metadata_in_destination,
            ),
    {
        let ghost sv = strings_view(self.sources@);
        let ghost cv = strings_view(self.check@);
        let mut folders: Vec<&String> = Vec::new();
        if self.save_metadata_in_sources {
            let n = self.sources.len();
            let mut i: usize = 0;
            while i < n
                invariant
                    n == self.sources@.len(),
                    sv == strings_view(self.sources@),
                    0 <= i <= n,
                    folders@.len() == i,
                    forall|k: int| 0 <= k < i ==> #[trigger] folders@[k]@ == sv[k],
                decreases n - i,
            {
                folders.push(&self.sources[i]);
                i = i + 1;
            }
        }
        let ghost after_sources = folders@.map_values(|f: &String| f@);
        assert(after_sources =~= if self.save_metadata_in_sources { sv } else { Seq::empty() });
        if self.save_metadata_in_check {
            let n = self.check.len();
            let mut i: usize = 0;
            while i < n
                invariant
                    n == self.check@.len(),
                    cv == strings_view(self.check@),
                    0 <= i <= n,
                    folders@.len() == after_sources.len() + i,
                    forall|k: int| 0 <= k < after_sources.len() ==> #[trigger] folders@[k]@ == after_sources[k],
                    forall|k: int|
                        after_sources.len() <= k < folders@.len() ==> #[trigger] folders@[k]@ == cv[k
                            - after_sources.len()],
                decreases n - i,
            {
                folders.push(&self.check[i]);
                i = i + 1;
            }
        }
        let ghost after_check = folders@.map_values(|f: &String| f@);
        assert(after_check =~= after_sources + if self.save_metadata_in_check { cv } else { Seq::empty() });
        if self.save_metadata_in_destination {
            let n = self.check.len();
            let mut i: usize = 0;
            let mut inside: Option<usize> = None;
            while i < n && inside.is_none()
                invariant
                    n == self.check@.len(),
                    cv == strings_view(self.check@),
                    0 <= i <= n,
                    match inside {
                        Some(j) => j < n && std_starts_with(self.destination@, cv[j as int]) && forall|k: int|
                            0 <= k < j ==> !std_starts_with(self.destination@, #[trigger] cv[k]),
                        None => forall|k: int| 0 <= k < i ==> !std_starts_with(self.destination@, #[trigger] cv[k]),
                    },
                decreases n - i,
            {
                if path_starts_with(self.destination.as_str(), self.check[i].as_str()) {
                    inside = Some(i);
                }
                i = i + 1;
            }
            match inside {
                Some(j) => {
                    proof {
                        let p = |c: int| 0 <= c < cv.len() && std_starts_with(self.destination@, cv[c])
                            && forall|k: int| 0 <= k < c ==> !std_starts_with(self.destination@, #[trigger] cv[k]);
                        assert(p(j as int));
                        let c = choose|c: int| 0 <= c < cv.len() && std_starts_with(self.destination@, cv[c])
                            && forall|k: int| 0 <= k < c ==> !std_starts_with(self.destination@, #[trigger] cv[k]);
                        assert(p(c));
                        if c < j {
                            assert(!std_starts_with(self.destination@, cv[c]));
                        } else if c > j {
                            assert(!std_starts_with(self.destination@, cv[j as int]));
                        }
                        assert(c == j);
                    }
                    if !self.save_metadata_in_check {
                        folders.push(&self.check[j]);
                    }
                },
                None => {
                    folders.push(&self.destination);
                },
            }
        }
        let ghost all = folders@.map_values(|f: &String| f@);
        assert(all =~= metadata_folders_spec(
            sv,
            cv,
            self.destination@,
            self.save_metadata_in_sources,
            self.save_metadata_in_check,
            self.save_metadata_in_destination,
        ));
        let mut owned: Vec<String> = Vec::new();
        let m = folders.len();
        let mut i: usize = 0;
        while i < m
            invariant
                m == folders@.len(),
                all == folders@.map_values(|f: &String| f@),
                0 <= i <= m,
                strings_view(owned@) =~= all.take(i as int),
            decreases m - i,
        {
            owned.push(folders[i].clone());
            assert(all.take(i + 1) =~= all.take(i as int).push(all[i as int]));
            i = i + 1;
        }
        assert(all.take(m as int) =~= all);
        owned
    }

    /// The paths of the metadata files to save.
    pub fn metadata_files(&self) -> (res: Vec<String>)
        ensures
            strings_view(res@) == metadata_files_spec(
                metadata_folders_spec(
                    strings_view(self.sources@),
                    strings_view(self.check@),
                    self.destination@,
                    self.save_metadata_in_sources,
                    self.save_metadata_in_check,
                    self.save_metadata_in_destination,
                ),
            ),
    {
        let folders = self.metadata_folders();
        let ghost all = strings_view(folders@);
        let mut files: Vec<String> = Vec::new();
        let m = folders.len();
        let mut i: usize = 0;
        while i < m
            invariant
                m == folders@.len(),
                all == strings_view(folders@),
                0 <= i <= m,
                strings_view(files@) =~= metadata_files_spec(all.take(i as int)),
            decreases m - i,
        {
            let ghost before = files@;
            files.push(metadata_file(folders[i].as_str()));
            assert(strings_view(files@) =~= strings_view(before).push(std_join(all[i as int], metadata_file_name())));
            assert(all.take(i + 1) =~= all.take(i as int).push(all[i as int]));
            i = i + 1;
        }
        assert(all.take(m as int) =~= all);
        files
    }

    /// Copies each source into the destination, leaving out the files that duplicate an
    /// existing file, over the mock file system. The folders to check are searched first;
    /// then, for each file of each source, the existing file it is compared with is the
    /// first existing file of its name, and the file is copied unless that file has its
    /// size and its contents. Files of the sources are not compared with each other. Each
    /// folder of a source is made again under the destination, at the same place relative
    /// to the source, before what it holds. Nothing is copied where the search fails.
    /// The plan is made on the file system as it was; its steps are then performed in
    /// order. The report also gives, for each source, the existing files of the size of
    /// each of its files, and the paths of the metadata files to save.
    pub fn smart_copy(&self, fs: &mut MockFs) -> (res: SmartCopyReport)
        ensures
            tree_wf(old(fs)@),
            reports_view(res.outcomes@) == strings_view(self.sources@).map_values(
                |source: Seq<char>|
                    source_outcomes(
                        mock_listing(old(fs)@, source),
                        mock_existing_files(
                            old(fs)@,
                            folders_to_check_spec(strings_view(self.check@), self.destination@),
                        ),
                    ),
            ),
            plan_view(res.plan@) == mock_plan_all(
                old(fs)@,
                strings_view(self.sources@),
                self.destination@,
                mock_existing_files(
                    old(fs)@,
                    folders_to_check_spec(strings_view(self.check@), self.destination@),
                ),
            ),
            (final(fs)@, results_view(res.results@)) == apply_plan(old(fs)@, plan_view(res.plan@)),
            plan_targets_inside(plan_view(res.plan@), std_components(self.destination@)),
            forall|path: Seq<ComponentView>|
                names_of(path) is Ok && !components_prefix(
                    std_components(self.destination@),
                    path,
                ) ==> #[trigger] read_file_spec(final(fs)@, path) == read_file_spec(old(fs)@, path),
            strings_view(res.metadata_files@) == metadata_files_spec(
                metadata_folders_spec(
                    strings_view(self.sources@),
                    strings_view(self.check@),
                    self.destination@,
                    self.save_metadata_in_sources,
                    self.save_metadata_in_check,
                    self.save_metadata_in_destination,
                ),
            ),
    {
        proof {
            use_type_invariant(&*fs);
        }
        self.check().unwrap();
        let (outcomes, existing) = self.search(fs);
        let ghost ex = existing_view(existing);
        let ghost sv = strings_view(self.sources@);
        let mut plan: Vec<Result<CopyOp, String>> = Vec::new();
        match &existing {
            Err(_) => {
                assert(plan_view(plan@) =~= mock_plan_all(fs@, sv, self.destination@, ex));
            },
            Ok(files) => {
                let m = self.sources.len();
                let mut j: usize = 0;
                assert(sv.take(0) =~= Seq::<Seq<char>>::empty());
                assert(plan_view(plan@) =~= mock_plan_all(fs@, sv.take(0), self.destination@, ex));
                while j < m
                    invariant
                        m == self.sources@.len(),
                        sv == strings_view(self.sources@),
                        ex == existing_view(existing),
                        ex == Ok::<Seq<ExistingFileView>, Seq<char>>(files_view(files@)),
                        0 <= j <= m,
                        plan_view(plan@) == mock_plan_all(fs@, sv.take(j as int), self.destination@, ex),
                        plan_targets_inside(plan_view(plan@), std_components(self.destination@)),
                    decreases m - j,
                {
                    let listing = mock_listed_entries(fs, self.sources[j].as_str());
                    plan_source(fs, self.sources[j].as_str(), self.destination.as_str(), &listing, files, &mut plan);
                    assert(sv.take(j + 1).drop_last() =~= sv.take(j as int));
                    assert(sv.take(j + 1).last() == sv[j as int]);
                    j = j + 1;
                }
                assert(sv.take(m as int) =~= sv);
            },
        }
        let ghost before = fs@;
        let results = apply_copy_plan(fs, &plan);
        proof {
            let dest = std_components(self.destination@);
            assert forall|path: Seq<ComponentView>|
                names_of(path) is Ok && !components_prefix(dest, path) implies #[trigger] read_file_spec(
                fs@,
                path,
            ) == read_file_spec(before, path) by {
                lemma_apply_plan_elsewhere(before, plan_view(plan@), dest, path);
            }
        }
        let metadata_files = self.metadata_files();
        SmartCopyReport { outcomes, plan, results, metadata_files }
    }
}


/// A listed file of a source gets no copy step exactly when it is a duplicate: the first
/// existing file of its name has its size, and reading the listed file and reading that
/// file both succeed with the same bytes. Otherwise it is copied to its place.
pub proof fn lemma_skipped_only_when_identical(
    fs: Tree,
    source: Seq<char>,
    destination: Seq<char>,
    entry: ListedEntryView,
    files: Seq<ExistingFileView>,
    rel: Seq<char>,
)
    requires
        entry.file_type == FileType::File,
        std_strip_prefix(entry.dir, source) == Some(rel),
        std_starts_with(std_join(std_join(destination, rel), entry.name), destination),
    ensures
        mock_plan_item(fs, source, destination, Ok(entry), files).len() == 0 <==> match candidate_of(
            files,
            entry.name,
        ) {
            None => false,
            Some(c) => {
                &&& c.len == entry.len
                &&& read_file_spec(fs, std_components(std_join(entry.dir, entry.name))) is Ok
                &&& read_file_spec(fs, std_components(c.path)) == read_file_spec(
                    fs,
                    std_components(std_join(entry.dir, entry.name)),
                )
            },
        },
        mock_plan_item(fs, source, destination, Ok(entry), files).len() != 0 ==> mock_plan_item(
            fs,
            source,
            destination,
            Ok(entry),
            files,
        ) == seq![
            Ok::<CopyOpView, Seq<char>>(
                CopyOpView::Copy(
                    std_join(entry.dir, entry.name),
                    std_join(std_join(destination, rel), entry.name),
                ),
            ),
        ],
{
    lemma_file_copied_unless_duplicate(fs, source, destination, entry, files, rel);
}

/// The candidates listed for a file of a source are exactly the existing files of its
/// size: each of them is an existing file with that size, and each existing file with
/// that size is among them. A folder gives no outcome; an error is passed on.
pub proof fn lemma_candidates_are_the_files_of_its_size(
    entry: ListedEntryView,
    files: Seq<ExistingFileView>,
)
    ensures
        entry.file_type == FileType::Dir ==> source_outcome(Ok(entry), Ok(files)).len() == 0,
        entry.file_type == FileType::File ==> {
            let out = source_outcome(Ok(entry), Ok(files));
            &&& out.len() == 1
            &&& out[0] matches Ok(sf) && {
                &&& sf.path == std_join(entry.dir, entry.name)
                &&& forall|j: int|
                    0 <= j < sf.same_len.len() ==> (#[trigger] sf.same_len[j]).len == entry.len
                        && files.contains(sf.same_len[j])
                &&& forall|j: int|
                    0 <= j < files.len() && (#[trigger] files[j]).len == entry.len
                        ==> sf.same_len.contains(files[j])
                &&& forall|x: ExistingFileView|
                    #[trigger] sf.same_len.to_multiset().count(x) == if x.len == entry.len {
                        files.to_multiset().count(x)
                    } else {
                        0
                    }
            }
        },
{
    broadcast use vstd::seq_lib::group_filter_ensures;

    if entry.file_type == FileType::File {
        let pred = |f: ExistingFileView| f.len == entry.len;
        let same = files.filter(pred);
        assert forall|j: int| 0 <= j < same.len() implies (#[trigger] same[j]).len == entry.len
            && files.contains(same[j]) by {
            assert(pred(same[j]));
            assert(same.contains(same[j]));
            files.lemma_filter_contains_rev(pred, same[j]);
        }
        assert forall|j: int| 0 <= j < files.len() && (#[trigger] files[j]).len == entry.len
            implies same.contains(files[j]) by {
            files.lemma_filter_contains(pred, j);
        }
        assert forall|x: ExistingFileView| #[trigger] same.to_multiset().count(x) == if x.len
            == entry.len {
            files.to_multiset().count(x)
        } else {
            0
        } by {
            lemma_filter_count(files, pred, x);
        }
    }
}

/// Whether a listing item is a file.
pub open spec fn is_listed_file(item: Result<ListedEntryView, Seq<char>>) -> bool {
    item matches Ok(e) && e.file_type == FileType::File
}

proof fn lemma_filter_count<A>(s: Seq<A>, pred: spec_fn(A) -> bool, x: A)
    ensures
        s.filter(pred).to_multiset().count(x) == if pred(x) {
            s.to_multiset().count(x)
        } else {
            0
        },
    decreases s.len(),
{
    broadcast use vstd::seq_lib::group_to_multiset_ensures;

    if s.len() == 0 {
        assert(s.filter(pred) =~= Seq::<A>::empty()) by {
            reveal(Seq::filter);
        }
    } else {
        let front = s.drop_last();
        assert(s =~= front.push(s.last()));
        front.lemma_filter_push(s.last(), pred);
        lemma_filter_count(front, pred, x);
    }
}

proof fn lemma_existing_files_members(listing: Seq<Result<ListedEntryView, Seq<char>>>)
    ensures
        existing_files(listing) is Ok <==> forall|k: int|
            0 <= k < listing.len() ==> #[trigger] listing[k] is Ok,
        existing_files(listing) matches Ok(found) ==> forall|k: int|
            0 <= k < listing.len() && is_listed_file(#[trigger] listing[k]) ==> found.contains(existing_file_of(listing[k]->Ok_0)),
        existing_files(listing) matches Ok(found) ==> forall|j: int|
            0 <= j < found.len() ==> exists|k: int|
                0 <= k < listing.len() && is_listed_file(#[trigger] listing[k]) && #[trigger] found[j] == existing_file_of(listing[k]->Ok_0),
    decreases listing.len(),
{
    if listing.len() > 0 {
        let front = listing.drop_last();
        let n = listing.len() - 1;
        lemma_existing_files_members(front);
        assert forall|k: int| 0 <= k < front.len() implies front[k] == listing[k] by {}
        if let Ok(found) = existing_files(listing) {
            let f0 = existing_files(front)->Ok_0;
            assert forall|k: int|
                0 <= k < listing.len() && is_listed_file(#[trigger] listing[k]) implies found.contains(existing_file_of(listing[k]->Ok_0)) by {
                if k < n {
                    assert(front[k] == listing[k]);
                    let x = existing_file_of(listing[k]->Ok_0);
                    let i = choose|i: int| 0 <= i < f0.len() && f0[i] == x;
                    assert(found[i] == x);
                } else {
                    assert(found[found.len() - 1] == existing_file_of(listing[k]->Ok_0));
                }
            }
            assert forall|j: int| 0 <= j < found.len() implies exists|k: int|
                0 <= k < listing.len() && is_listed_file(#[trigger] listing[k]) && #[trigger] found[j] == existing_file_of(listing[k]->Ok_0) by {
                if j < f0.len() {
                    assert(found[j] == f0[j]);
                    let k = choose|k: int|
                        0 <= k < front.len() && is_listed_file(#[trigger] front[k]) && f0[j] == existing_file_of(front[k]->Ok_0);
                    assert(listing[k] == front[k]);
                } else {
                    assert(listing[n] == listing.last());
                }
            }
        } else {
            if forall|k: int| 0 <= k < listing.len() ==> #[trigger] listing[k] is Ok {
                assert(listing[n] == listing.last());
                assert(forall|k: int| 0 <= k < front.len() ==> #[trigger] front[k] is Ok) by {
                    assert forall|k: int| 0 <= k < front.len() implies #[trigger] front[k] is Ok by {
                        assert(listing[k] is Ok);
                    }
                }
            }
        }
        if !(existing_files(listing) is Ok) {
        } else {
            assert(listing[n] == listing.last());
        }
    }
}


proof fn lemma_all_existing_members(per: Seq<Result<Seq<ExistingFileView>, Seq<char>>>)
    ensures
        all_existing_files(per) is Ok <==> forall|i: int| 0 <= i < per.len() ==> #[trigger] per[i] is Ok,
        all_existing_files(per) matches Ok(found) ==> forall|i: int, j: int|
            0 <= i < per.len() && (#[trigger] per[i]) is Ok && 0 <= j < per[i]->Ok_0.len()
                ==> found.contains(#[trigger] per[i]->Ok_0[j]),
        all_existing_files(per) matches Ok(found) ==> forall|j: int|
            0 <= j < found.len() ==> exists|i: int|
                0 <= i < per.len() && (#[trigger] per[i]) is Ok && per[i]->Ok_0.contains(
                    #[trigger] found[j],
                ),
    decreases per.len(),
{
    if per.len() > 0 {
        let front = per.drop_last();
        let n = per.len() - 1;
        lemma_all_existing_members(front);
        assert(per[n] == per.last());
        assert forall|i: int| 0 <= i < front.len() implies front[i] == per[i] by {}
        if let Ok(found) = all_existing_files(per) {
            let f0 = all_existing_files(front)->Ok_0;
            let last = per[n]->Ok_0;
            assert(found == f0 + last);
            assert forall|i: int, j: int|
                0 <= i < per.len() && (#[trigger] per[i]) is Ok && 0 <= j < per[i]->Ok_0.len()
                    implies found.contains(#[trigger] per[i]->Ok_0[j]) by {
                if i < n {
                    assert(front[i] == per[i]);
                    let x = per[i]->Ok_0[j];
                    assert(f0.contains(front[i]->Ok_0[j]));
                    let m = choose|m: int| 0 <= m < f0.len() && f0[m] == x;
                    assert(found[m] == x);
                } else {
                    assert(found[f0.len() + j] == last[j]);
                }
            }
            assert forall|j: int| 0 <= j < found.len() implies exists|i: int|
                0 <= i < per.len() && (#[trigger] per[i]) is Ok && per[i]->Ok_0.contains(
                    #[trigger] found[j],
                ) by {
                if j < f0.len() {
                    assert(found[j] == f0[j]);
                    let i = choose|i: int|
                        0 <= i < front.len() && (#[trigger] front[i]) is Ok && front[i]->Ok_0.contains(
                            f0[j],
                        );
                    assert(per[i] == front[i]);
                } else {
                    assert(found[j] == last[j - f0.len()]);
                    assert(per[n]->Ok_0.contains(found[j]));
                }
            }
        } else {
            if forall|i: int| 0 <= i < per.len() ==> #[trigger] per[i] is Ok {
                assert forall|i: int| 0 <= i < front.len() implies #[trigger] front[i] is Ok by {
                    assert(per[i] is Ok);
                }
            }
        }
    }
}

/// Whether `x` is the existing file that some file listed under one of the folders is.
pub open spec fn listed_in_some_folder(fs: Tree, folders: Seq<Seq<char>>, x: ExistingFileView) -> bool {
    exists|i: int, k: int|
        0 <= i < folders.len() && 0 <= k < mock_listing(fs, folders[i]).len() && is_listed_file(
            #[trigger] mock_listing(fs, folders[i])[k],
        ) && x == existing_file_of(mock_listing(fs, folders[i])[k]->Ok_0)
}

/// The existing files are those of every folder to check: the search fails exactly when
/// the listing of some folder holds an error; otherwise every file listed under any of
/// the folders is among the existing files, and each existing file is a file listed under
/// one of them.
pub proof fn lemma_existing_files_of_every_folder(fs: Tree, folders: Seq<Seq<char>>)
    ensures
        mock_existing_files(fs, folders) is Ok <==> forall|i: int, k: int|
            0 <= i < folders.len() && 0 <= k < mock_listing(fs, folders[i]).len() ==> (
            #[trigger] mock_listing(fs, folders[i])[k]) is Ok,
        mock_existing_files(fs, folders) matches Ok(files) ==> forall|i: int, k: int|
            0 <= i < folders.len() && 0 <= k < mock_listing(fs, folders[i]).len()
                && is_listed_file(#[trigger] mock_listing(fs, folders[i])[k]) ==> files.contains(
                existing_file_of(mock_listing(fs, folders[i])[k]->Ok_0),
            ),
        mock_existing_files(fs, folders) matches Ok(files) ==> forall|j: int|
            0 <= j < files.len() ==> listed_in_some_folder(fs, folders, #[trigger] files[j]),
{
    let per = existing_per_folder(fs, folders);
    lemma_all_existing_members(per);
    assert forall|i: int| 0 <= i < folders.len() implies #[trigger] per[i] == existing_files(
        mock_listing(fs, folders[i]),
    ) && (existing_files(mock_listing(fs, folders[i])) is Ok <==> forall|k: int|
        0 <= k < mock_listing(fs, folders[i]).len() ==> #[trigger] mock_listing(fs, folders[i])[k] is Ok)
        by {
        lemma_existing_files_members(mock_listing(fs, folders[i]));
    }
    if mock_existing_files(fs, folders) is Ok {
        let files = mock_existing_files(fs, folders)->Ok_0;
        assert forall|i: int, k: int|
            0 <= i < folders.len() && 0 <= k < mock_listing(fs, folders[i]).len() implies (
            #[trigger] mock_listing(fs, folders[i])[k]) is Ok by {
            assert(per[i] is Ok);
        }
        assert forall|i: int, k: int|
            0 <= i < folders.len() && 0 <= k < mock_listing(fs, folders[i]).len()
                && is_listed_file(#[trigger] mock_listing(fs, folders[i])[k]) implies files.contains(
            existing_file_of(mock_listing(fs, folders[i])[k]->Ok_0),
        ) by {
            let l = mock_listing(fs, folders[i]);
            lemma_existing_files_members(l);
            assert(per[i] is Ok);
            let g = per[i]->Ok_0;
            let x = existing_file_of(l[k]->Ok_0);
            assert(g.contains(x));
            let m = choose|m: int| 0 <= m < g.len() && g[m] == x;
            assert(files.contains(per[i]->Ok_0[m]));
        }
        assert forall|j: int| 0 <= j < files.len() implies listed_in_some_folder(
            fs,
            folders,
            #[trigger] files[j],
        ) by {
            let i = choose|i: int|
                0 <= i < per.len() && (#[trigger] per[i]) is Ok && per[i]->Ok_0.contains(files[j]);
            let l = mock_listing(fs, folders[i]);
            lemma_existing_files_members(l);
            let g = per[i]->Ok_0;
            let m = choose|m: int| 0 <= m < g.len() && g[m] == files[j];
            let k = choose|k: int|
                0 <= k < l.len() && is_listed_file(#[trigger] l[k]) && g[m] == existing_file_of(
                    l[k]->Ok_0,
                );
            assert(is_listed_file(mock_listing(fs, folders[i])[k]));
        }
    } else {
        if forall|i: int, k: int|
            0 <= i < folders.len() && 0 <= k < mock_listing(fs, folders[i]).len() ==> (
            #[trigger] mock_listing(fs, folders[i])[k]) is Ok {
            assert forall|i: int| 0 <= i < per.len() implies #[trigger] per[i] is Ok by {
                let l = mock_listing(fs, folders[i]);
                assert forall|k: int| 0 <= k < l.len() implies #[trigger] l[k] is Ok by {
                    assert(mock_listing(fs, folders[i])[k] is Ok);
                }
            }
        }
    }
}

/// The folders searched are the check folders, in order, followed by the destination
/// exactly when no check folder is a prefix of it.
pub proof fn lemma_destination_searched_unless_inside(check: Seq<Seq<char>>, destination: Seq<char>)
    ensures
        folders_to_check_spec(check, destination).len() >= check.len(),
        folders_to_check_spec(check, destination).subrange(0, check.len() as int) == check,
        (forall|i: int| 0 <= i < check.len() ==> !std_starts_with(destination, #[trigger] check[i]))
            ==> folders_to_check_spec(check, destination).len() == check.len() + 1
            && folders_to_check_spec(check, destination).last() == destination,
        (exists|i: int| 0 <= i < check.len() && std_starts_with(destination, #[trigger] check[i]))
            ==> folders_to_check_spec(check, destination).len() == check.len(),
{
    let r = folders_to_check_spec(check, destination);
    assert(r.subrange(0, check.len() as int) =~= check);
}

/// Where the metadata is saved: the sources if asked, then the check folders if asked,
/// then, if asked for the destination, the destination itself when no check folder holds
/// it, or else the first check folder that holds it, unless the check folders already
/// have it.
pub proof fn lemma_metadata_folders_cover_what_is_asked(
    sources: Seq<Seq<char>>,
    check: Seq<Seq<char>>,
    destination: Seq<char>,
    in_sources: bool,
    in_check: bool,
    in_destination: bool,
)
    ensures
        ({
            let r = metadata_folders_spec(
                sources,
                check,
                destination,
                in_sources,
                in_check,
                in_destination,
            );
            let ns: int = if in_sources { sources.len() as int } else { 0 };
            let nc: int = if in_check { check.len() as int } else { 0 };
            let inside = exists|i: int|
                0 <= i < check.len() && std_starts_with(destination, #[trigger] check[i]);
            &&& r.len() >= ns + nc
            &&& in_sources ==> r.subrange(0, ns) == sources
            &&& in_check ==> r.subrange(ns, ns + nc) == check
            &&& !in_destination ==> r.len() == ns + nc
            &&& in_destination && !inside ==> r.len() == ns + nc + 1 && r.last() == destination
            &&& in_destination && inside && in_check ==> r.len() == ns + nc
            &&& in_destination && inside && !in_check ==> r.len() == ns + nc + 1 && exists|i: int|
                0 <= i < check.len() && #[trigger] check[i] == r.last() && std_starts_with(
                    destination,
                    check[i],
                ) && forall|k: int| 0 <= k < i ==> !std_starts_with(destination, #[trigger] check[k])
        }),
{
    let r = metadata_folders_spec(sources, check, destination, in_sources, in_check, in_destination);
    let a = if in_sources { sources } else { Seq::<Seq<char>>::empty() };
    let b = if in_check { check } else { Seq::<Seq<char>>::empty() };
    assert(r.subrange(0, a.len() as int) =~= a);
    assert(r.subrange(a.len() as int, (a.len() + b.len()) as int) =~= b);
    if in_destination && !in_check {
        if exists|i: int| 0 <= i < check.len() && std_starts_with(destination, #[trigger] check[i]) {
            let w = choose|i: int| 0 <= i < check.len() && std_starts_with(destination, #[trigger] check[i]);
            lemma_first_prefix_exists(check, destination, w);
        }
    }
}

proof fn lemma_first_prefix_exists(check: Seq<Seq<char>>, destination: Seq<char>, w: int)
    requires
        0 <= w < check.len(),
        std_starts_with(destination, check[w]),
    ensures
        exists|i: int|
            0 <= i < check.len() && std_starts_with(destination, check[i]) && forall|k: int|
                0 <= k < i ==> !std_starts_with(destination, #[trigger] check[k]),
    decreases w,
{
    if exists|k: int| 0 <= k < w && std_starts_with(destination, #[trigger] check[k]) {
        let k = choose|k: int| 0 <= k < w && std_starts_with(destination, #[trigger] check[k]);
        lemma_first_prefix_exists(check, destination, k);
    } else {
        assert(forall|k: int| 0 <= k < w ==> !std_starts_with(destination, #[trigger] check[k]));
    }
}

} // verus!
