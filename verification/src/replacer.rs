//! The safe link replacement: the backup path a file is parked at while
//! its inode is replaced, and the laws of the rename/link/cleanup
//! sequence over a model of the touched directory entries.

use vstd::prelude::*;
use crate::utils::clone_bytes;

verus! {

/// The index where a path's final component starts: just after the last
/// path separator, or zero when there is none.
pub open spec fn file_name_start(p: Seq<u8>) -> int
    decreases p.len(),
{
    if p.len() == 0 {
        0
    } else if p.last() == 47 {
        p.len() as int
    } else {
        file_name_start(p.drop_last())
    }
}

/// The path's final component has an extension: a dot that is not its
/// first character.
pub open spec fn has_extension(p: Seq<u8>) -> bool {
    exists|k: int| file_name_start(p) < k < p.len() && p[k] == 46
}

/// The path names a plain file: it is nonempty, does not end in a
/// separator, and its final component is neither `.` nor `..`.
pub open spec fn names_plain_file(p: Seq<u8>) -> bool {
    &&& file_name_start(p) < p.len()
    &&& !(p.len() - file_name_start(p) == 1 && p[file_name_start(p)] == 46)
    &&& !(p.len() - file_name_start(p) == 2 && p[file_name_start(p)] == 46 && p[file_name_start(p)
        + 1] == 46)
}

/// The suffix appended to park a file: `.bak`.
pub open spec fn bak_suffix() -> Seq<u8> {
    seq![46u8, 98u8, 97u8, 107u8]
}

/// The backup path for `p`: the `.bak` suffix appended to its
/// extension. A final component with an extension gains `.bak` after
/// it; one without gains an empty extension first, so `..bak`.
pub open spec fn backup_path_of(p: Seq<u8>) -> Seq<u8> {
    if has_extension(p) {
        p + bak_suffix()
    } else {
        p + seq![46u8] + bak_suffix()
    }
}

proof fn lemma_file_name_start_char(p: Seq<u8>, s: int)
    requires
        0 <= s <= p.len(),
        s == 0 || p[s - 1] == 47,
        forall|t: int| s <= t < p.len() ==> p[t] != 47,
    ensures
        file_name_start(p) == s,
    decreases p.len(),
{
    if p.len() == 0 {
    } else if p.last() == 47 {
        assert(s == p.len());
    } else {
        assert(s < p.len() || s == p.len());
        if s == p.len() {
            assert(p[s - 1] == 47);
            assert(false);
        }
        assert(forall|t: int| s <= t < p.drop_last().len() ==> p.drop_last()[t] != 47);
        lemma_file_name_start_char(p.drop_last(), s);
    }
}

/// Computes the backup path for a file path: the `.bak` suffix appended
/// to its extension, or to a new empty extension when it has none.
pub fn backup_path_bytes(p: &Vec<u8>) -> (r: Vec<u8>)
    requires
        names_plain_file(p@),
    ensures
        r@ == backup_path_of(p@),
{
    let mut s: usize = p.len();
    while s > 0 && p[s - 1] != 47
        invariant
            s <= p.len(),
            forall|t: int| s <= t < p@.len() ==> p@[t] != 47,
        decreases s,
    {
        s -= 1;
    }
    proof {
        lemma_file_name_start_char(p@, s as int);
    }
    let mut k: usize = s + 1;
    let mut found_dot = false;
    if p.len() > 0 {
        while k < p.len() && !found_dot
            invariant
                s + 1 <= k <= p@.len(),
                found_dot ==> k - 1 >= s + 1 && p@[k - 1] == 46,
                !found_dot ==> forall|t: int| s < t < k ==> p@[t] != 46,
            decreases p@.len() - k + (if found_dot {
                0int
            } else {
                1int
            }),
        {
            if p[k] == 46 {
                found_dot = true;
            }
            k += 1;
        }
    }
    proof {
        if found_dot {
            assert(has_extension(p@));
        } else {
            assert(forall|t: int| file_name_start(p@) < t < p@.len() ==> p@[t] != 46);
            assert(!has_extension(p@));
        }
    }
    let mut r = clone_bytes(p);
    if !found_dot {
        r.push(46);
    }
    r.push(46);
    r.push(98);
    r.push(97);
    r.push(107);
    proof {
        if has_extension(p@) {
            assert(r@ =~= p@ + bak_suffix());
        } else {
            assert(r@ =~= p@ + seq![46u8] + bak_suffix());
        }
    }
    r
}

/// A model of the directory entries the replacer touches: each path
/// bound to the inode it names.
pub struct DiskModel {
    /// The paths on disk and the inode each names.
    pub files: Map<Seq<u8>, u64>,
}

/// The disk after `from` is renamed to `to`.
pub open spec fn rename_effect(d: DiskModel, from: Seq<u8>, to: Seq<u8>) -> DiskModel {
    DiskModel { files: d.files.remove(from).insert(to, d.files[from]) }
}

/// The disk after a hardlink to `src`'s inode is created at `dst`.
pub open spec fn link_effect(d: DiskModel, src: Seq<u8>, dst: Seq<u8>) -> DiskModel {
    DiskModel { files: d.files.insert(dst, d.files[src]) }
}

/// The disk after the entry at `p` is removed.
pub open spec fn remove_effect(d: DiskModel, p: Seq<u8>) -> DiskModel {
    DiskModel { files: d.files.remove(p) }
}

/// The disk after a fully successful replacement of `right` by a
/// hardlink to `left`: rename `right` to the backup, link `right` to
/// `left`'s inode, remove the backup.
pub open spec fn replace_success_state(
    d: DiskModel,
    left: Seq<u8>,
    right: Seq<u8>,
    backup: Seq<u8>,
) -> DiskModel {
    remove_effect(link_effect(rename_effect(d, right, backup), left, right), backup)
}

/// Law: after a successful replacement run, `right` and `left` share
/// one inode, no backup file remains, and every other path is
/// untouched.
pub proof fn lemma_replace_success(d: DiskModel, left: Seq<u8>, right: Seq<u8>, backup: Seq<u8>)
    requires
        d.files.dom().contains(left),
        d.files.dom().contains(right),
        !d.files.dom().contains(backup),
        left != right,
        left != backup,
        right != backup,
    ensures
        replace_success_state(d, left, right, backup).files.dom().contains(right),
        replace_success_state(d, left, right, backup).files[right] == d.files[left],
        replace_success_state(d, left, right, backup).files.dom().contains(left),
        replace_success_state(d, left, right, backup).files[left] == d.files[left],
        !replace_success_state(d, left, right, backup).files.dom().contains(backup),
        forall|q: Seq<u8>|
            q != left && q != right && q != backup ==> #[trigger] replace_success_state(
                d,
                left,
                right,
                backup,
            ).files.dom().contains(q) == d.files.dom().contains(q),
        forall|q: Seq<u8>|
            q != left && q != right && q != backup && d.files.dom().contains(q)
                ==> #[trigger] replace_success_state(d, left, right, backup).files[q]
                == d.files[q],
{
}

/// Law: when the hardlink step fails after the rename, `right` is
/// momentarily absent but its content is preserved: the backup names
/// `right`'s old inode, and every other path is untouched.
pub proof fn lemma_replace_link_failed(d: DiskModel, left: Seq<u8>, right: Seq<u8>, backup: Seq<
    u8,
>)
    requires
        d.files.dom().contains(left),
        d.files.dom().contains(right),
        !d.files.dom().contains(backup),
        left != right,
        left != backup,
        right != backup,
    ensures
        !rename_effect(d, right, backup).files.dom().contains(right),
        rename_effect(d, right, backup).files.dom().contains(backup),
        rename_effect(d, right, backup).files[backup] == d.files[right],
        rename_effect(d, right, backup).files.dom().contains(left),
        rename_effect(d, right, backup).files[left] == d.files[left],
        forall|q: Seq<u8>|
            q != right && q != backup ==> #[trigger] rename_effect(
                d,
                right,
                backup,
            ).files.dom().contains(q) == d.files.dom().contains(q),
        forall|q: Seq<u8>|
            q != right && q != backup && d.files.dom().contains(q) ==> #[trigger] rename_effect(
                d,
                right,
                backup,
            ).files[q] == d.files[q],
{
}

} // verus!
