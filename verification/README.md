# smart_copy

Copy folders while avoiding duplicates: the folders to check (and the
destination, unless it lies inside one of them) are searched for existing
files; each file of a source is compared with the first existing file of its
name, and is copied to the same place under the destination unless that file
has its size and its contents. Files of the sources are not compared with each
other. The metadata file `.smart_photo_copier` is saved in the sources, the
check folders and the destination as the options ask (in the root of the check
folder where the destination lies inside one).

- `src/` is the verified library: the in-memory file system (`mock_fs`), its
  recursive listing, reading, copying and making of folders; the steps of the
  recursive walk of any file system (`read_dir_recursive`); the choice of
  folders to search, the gathering of existing files, the comparison of source
  files with them, the copy plan, which never writes outside the destination,
  and the metadata locations (`smart_copy`); the queue of a stream of recursive
  futures and the account that each item is yielded once (`recursive_stream`);
  and the standard-library path operations it relies on (`paths`).
- `app/` reads, copies and writes real files through tokio, serialises the
  metadata with postcard, and runs a smart copy over a real file system. Which
  folder it reads next, which paths it compares, what it copies where and where
  it saves the metadata are the library's answers; `app/` performs them.
- `tests/` exercises the library on concrete trees and listings.
