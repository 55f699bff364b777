//! File metadata: what HDFS reports, and what is handed to the caller.

use vstd::prelude::*;

use crate::text::chars_of;

verus! {

/// The metadata of one file or directory.
#[derive(Debug)]
pub struct FileStatus {
    pub path: String,
    pub length: usize,
    pub isdir: bool,
    pub permission: u16,
    pub owner: String,
    pub group: String,
    pub modification_time: u64,
    pub access_time: u64,
    pub replication: Option<u32>,
    pub blocksize: Option<u64>,
}

/// What a [`FileStatus`] stands for.
pub struct StatusModel {
    pub path: Seq<char>,
    pub length: usize,
    pub isdir: bool,
    pub permission: u16,
    pub owner: Seq<char>,
    pub group: Seq<char>,
    pub modification_time: u64,
    pub access_time: u64,
    pub replication: Option<u32>,
    pub blocksize: Option<u64>,
}

impl View for FileStatus {
    type V = StatusModel;

    open spec fn view(&self) -> StatusModel {
        StatusModel {
            path: self.path@,
            length: self.length,
            isdir: self.isdir,
            permission: self.permission,
            owner: self.owner@,
            group: self.group@,
            modification_time: self.modification_time,
            access_time: self.access_time,
            replication: self.replication,
            blocksize: self.blocksize,
        }
    }
}

/// What a sequence of statuses stands for.
pub open spec fn statuses(items: Seq<FileStatus>) -> Seq<StatusModel> {
    Seq::new(items.len(), |k: int| items[k]@)
}

/// Information about a single file or directory.
#[derive(Debug)]
pub struct FileInfo {
    pub length: i64,
    pub is_dir: bool,
    pub mtime: u64,
}

/// One entry in a directory listing or glob result. `replication` and
/// `block_size` use `-1` to mean "not applicable" (HDFS leaves them unset for
/// directories).
#[derive(Debug)]
pub struct DirEntry {
    pub path: String,
    pub is_dir: bool,
    pub length: i64,
    pub mtime: u64,
    pub atime: u64,
    pub owner: String,
    pub group: String,
    pub permission: u16,
    pub replication: i32,
    pub block_size: i64,
}

/// What a [`DirEntry`] stands for.
pub struct EntryModel {
    pub path: Seq<char>,
    pub is_dir: bool,
    pub length: i64,
    pub mtime: u64,
    pub atime: u64,
    pub owner: Seq<char>,
    pub group: Seq<char>,
    pub permission: u16,
    pub replication: i32,
    pub block_size: i64,
}

impl View for DirEntry {
    type V = EntryModel;

    open spec fn view(&self) -> EntryModel {
        EntryModel {
            path: self.path@,
            is_dir: self.is_dir,
            length: self.length,
            mtime: self.mtime,
            atime: self.atime,
            owner: self.owner@,
            group: self.group@,
            permission: self.permission,
            replication: self.replication,
            block_size: self.block_size,
        }
    }
}

/// What a sequence of entries stands for.
pub open spec fn entries(items: Seq<DirEntry>) -> Seq<EntryModel> {
    Seq::new(items.len(), |k: int| items[k]@)
}

/// The text that a C string can hold of `s`: `s` itself, or nothing if it has a
/// NUL inside.
pub open spec fn c_text(s: Seq<char>) -> Seq<char> {
    if s.contains('\0') {
        Seq::empty()
    } else {
        s
    }
}

/// The entry that reports `status`.
pub open spec fn entry_of(status: StatusModel) -> EntryModel {
    EntryModel {
        path: c_text(status.path),
        is_dir: status.isdir,
        length: status.length as i64,
        mtime: status.modification_time,
        atime: status.access_time,
        owner: c_text(status.owner),
        group: c_text(status.group),
        permission: status.permission,
        replication: match status.replication {
            Some(r) => if status.isdir {
                (-1int) as i32
            } else {
                r as i32
            },
            None => (-1int) as i32,
        },
        block_size: match status.blocksize {
            Some(b) => if status.isdir {
                (-1int) as i64
            } else {
                b as i64
            },
            None => (-1int) as i64,
        },
    }
}

/// The text of an owned C string, falling back to an empty one on the
/// (impossible for HDFS) interior-NUL case.
pub fn to_c_string(s: String) -> (r: String)
    ensures
        r@ == c_text(s@),
        !s@.contains('\0') ==> r@ == s@,
        s@.contains('\0') ==> r@.len() == 0,
{
    let chars: Vec<char> = chars_of(s.as_str());
    let mut i: usize = 0;
    while i < chars.len()
        invariant
            chars@ == s@,
            i <= chars@.len(),
            forall|k: int| 0 <= k < i ==> s@[k] != '\0',
        decreases chars@.len() - i,
    {
        if chars[i] == '\0' {
            assert(s@.contains('\0'));
            return String::new();
        }
        i += 1;
    }
    assert(!s@.contains('\0'));
    s
}

/// The lean metadata of a file or directory.
pub fn file_info(status: &FileStatus) -> (r: FileInfo)
    ensures
        r == (FileInfo {
            length: status@.length as i64,
            is_dir: status@.isdir,
            mtime: status@.modification_time,
        }),
        status@.length <= i64::MAX ==> r.length == status@.length,
        status.length <= i64::MAX ==> r.length == status.length,
        r.is_dir == status.isdir,
        r.mtime == status.modification_time,
{
    FileInfo {
        length: status.length as i64,
        is_dir: status.isdir,
        mtime: status.modification_time,
    }
}

/// Convert a single status into an entry.
pub fn status_to_entry(status: FileStatus) -> (r: DirEntry)
    ensures
        r@ == entry_of(status@),
        status@.length <= i64::MAX ==> r@.length == status@.length,
        status.length <= i64::MAX ==> r.length == status.length,
        r.is_dir == status.isdir,
        r.mtime == status.modification_time,
        r.atime == status.access_time,
        r.permission == status.permission,
        !status.path@.contains('\0') ==> r.path@ == status.path@,
        status.path@.contains('\0') ==> r.path@.len() == 0,
        !status.owner@.contains('\0') ==> r.owner@ == status.owner@,
        status.owner@.contains('\0') ==> r.owner@.len() == 0,
        !status.group@.contains('\0') ==> r.group@ == status.group@,
        status.group@.contains('\0') ==> r.group@.len() == 0,
        status.isdir ==> r.replication == -1 && r.block_size == -1,
        !status.isdir ==> match status.replication {
            Some(n) => n <= i32::MAX ==> r.replication == n,
            None => r.replication == -1,
        },
        !status.isdir ==> match status.blocksize {
            Some(n) => n <= i64::MAX ==> r.block_size == n,
            None => r.block_size == -1,
        },
{
    // Replication and block size apply only to files; `-1` signals "not
    // applicable". The NameNode reports 0 (not absent) for directories, so gate
    // on `isdir` rather than the Option being None.
    let replication: i32 = match status.replication {
        Some(r) => if status.isdir {
            -1
        } else {
            r as i32
        },
        None => -1,
    };
    let block_size: i64 = match status.blocksize {
        Some(b) => if status.isdir {
            -1
        } else {
            b as i64
        },
        None => -1,
    };
    DirEntry {
        path: to_c_string(status.path),
        is_dir: status.isdir,
        length: status.length as i64,
        mtime: status.modification_time,
        atime: status.access_time,
        owner: to_c_string(status.owner),
        group: to_c_string(status.group),
        permission: status.permission,
        replication,
        block_size,
    }
}

/// Convert statuses into entries, one for one and in the same order, with their
/// count.
pub fn statuses_to_entries(items: Vec<FileStatus>) -> (r: (Vec<DirEntry>, i32))
    ensures
        entries(r.0@) == Seq::new(items@.len(), |k: int| entry_of(items@[k]@)),
        r.0@.len() == items@.len(),
        forall|k: int| 0 <= k < items@.len() ==> (#[trigger] r.0@[k])@ == entry_of(items@[k]@),
        r.1 == items@.len() as i32,
        items@.len() <= i32::MAX ==> r.1 == items@.len(),
{
    let ghost given = items@;
    let count: i32 = items.len() as i32;
    let mut out: Vec<DirEntry> = Vec::new();
    for item in it: items
        invariant
            it.seq() == given,
            entries(out@) == Seq::new(it.index() as nat, |k: int| entry_of(given[k]@)),
    {
        let ghost before = entries(out@);
        out.push(status_to_entry(item));
        proof {
            assert(entries(out@) =~= before.push(entry_of(given[it.index() as int]@)));
        }
    }
    assert forall|k: int| 0 <= k < given.len() implies (#[trigger] out@[k])@ == entry_of(
        given[k]@,
    ) by {
        assert(entries(out@)[k] == entry_of(given[k]@));
    }
    (out, count)
}

/// Law: what stands for a status has all that the status has.
pub proof fn law_status_model_keeps_all(status: FileStatus)
    ensures
        status@.path == status.path@,
        status@.length == status.length,
        status@.isdir == status.isdir,
        status@.permission == status.permission,
        status@.owner == status.owner@,
        status@.group == status.group@,
        status@.modification_time == status.modification_time,
        status@.access_time == status.access_time,
        status@.replication == status.replication,
        status@.blocksize == status.blocksize,
{
}

/// Law: what stands for an entry has all that the entry has.
pub proof fn law_entry_model_keeps_all(entry: DirEntry)
    ensures
        entry@.path == entry.path@,
        entry@.is_dir == entry.is_dir,
        entry@.length == entry.length,
        entry@.mtime == entry.mtime,
        entry@.atime == entry.atime,
        entry@.owner == entry.owner@,
        entry@.group == entry.group@,
        entry@.permission == entry.permission,
        entry@.replication == entry.replication,
        entry@.block_size == entry.block_size,
{
}

/// Law: an entry tells what the status tells. Times, permission and whether it
/// is a directory are kept; a length, and for a file a replication and a block
/// size, are kept if they fit; a text is kept if it holds no NUL, and is empty
/// otherwise; what a file does not have is `-1`.
pub proof fn law_entry_tells_what_the_status_tells(status: StatusModel)
    ensures
        entry_of(status).is_dir == status.isdir,
        entry_of(status).mtime == status.modification_time,
        entry_of(status).atime == status.access_time,
        entry_of(status).permission == status.permission,
        status.length <= i64::MAX ==> entry_of(status).length == status.length,
        entry_of(status).path == if status.path.contains('\0') {
            Seq::empty()
        } else {
            status.path
        },
        entry_of(status).owner == if status.owner.contains('\0') {
            Seq::empty()
        } else {
            status.owner
        },
        entry_of(status).group == if status.group.contains('\0') {
            Seq::empty()
        } else {
            status.group
        },
        !status.isdir ==> match status.replication {
            Some(n) => n <= i32::MAX ==> entry_of(status).replication == n,
            None => entry_of(status).replication == -1,
        },
        !status.isdir ==> match status.blocksize {
            Some(n) => n <= i64::MAX ==> entry_of(status).block_size == n,
            None => entry_of(status).block_size == -1,
        },
{
}

/// Law: a number that does not fit wraps around: it is told as less by as many as
/// there are numbers of its size.
pub proof fn law_large_numbers_wrap(status: StatusModel)
    ensures
        status.length > i64::MAX ==> entry_of(status).length == status.length
            - 0x1_0000_0000_0000_0000,
        !status.isdir && status.replication is Some && status.replication->Some_0 > i32::MAX
            ==> entry_of(status).replication == status.replication->Some_0 - 0x1_0000_0000,
        !status.isdir && status.blocksize is Some && status.blocksize->Some_0 > i64::MAX
            ==> entry_of(status).block_size == status.blocksize->Some_0
            - 0x1_0000_0000_0000_0000,
{
    let length = status.length;
    assert(length > 0x7fff_ffff_ffff_ffff ==> (length as i64) == length
        - 0x1_0000_0000_0000_0000) by (bit_vector);
    if status.replication is Some {
        let n = status.replication->Some_0;
        assert(n > 0x7fff_ffff ==> (n as i32) == n - 0x1_0000_0000) by (bit_vector);
    }
    if status.blocksize is Some {
        let n = status.blocksize->Some_0;
        assert(n > 0x7fff_ffff_ffff_ffff ==> (n as i64) == n - 0x1_0000_0000_0000_0000) by (
            bit_vector);
    }
}

/// Law: two statuses that differ in a time, in the permission or in being a
/// directory are told apart by their entries.
pub proof fn law_entries_tell_statuses_apart(a: StatusModel, b: StatusModel)
    requires
        entry_of(a) == entry_of(b),
    ensures
        a.isdir == b.isdir,
        a.modification_time == b.modification_time,
        a.access_time == b.access_time,
        a.permission == b.permission,
        a.length <= i64::MAX && b.length <= i64::MAX ==> a.length == b.length,
        !a.path.contains('\0') && !b.path.contains('\0') ==> a.path == b.path,
{
}

/// Law: a directory has neither a replication nor a block size, whatever the
/// server reports for it.
pub proof fn law_directories_have_no_blocks(status: StatusModel)
    requires
        status.isdir,
    ensures
        entry_of(status).replication == -1,
        entry_of(status).block_size == -1,
{
}

} // verus!
