//! Directory listings: the entries read from disk become a report with
//! totals, size labels and folders first, then names in case-blind order.

use crate::order::{lex_less, lex_lt, lemma_lex_irreflexive, lemma_lex_total, lemma_lex_transitive};
use crate::size_format::{format_size, size_label};
use crate::strings::{decimal, push_decimal};
use crate::text::{char_is_whitespace, spec_is_whitespace};
use vstd::prelude::*;

verus! {

/// What `str::to_lowercase` returns for the characters `s`.
pub uninterp spec fn spec_to_lowercase(s: Seq<char>) -> Seq<char>;

/// Calls `str::to_lowercase` and hands back its characters; the result is
/// named `spec_to_lowercase`.
#[verifier::external_body]
pub(crate) fn lowercase_chars(s: &str) -> (r: Vec<char>)
    ensures
        r@ == spec_to_lowercase(s@),
{
    s.to_lowercase().chars().collect()
}

/// What the file system reported about an entry.
pub struct EntryMetadata {
    pub is_dir: bool,
    /// Length in bytes.
    pub len: u64,
    /// Seconds since the Unix epoch of the last modification, when known.
    pub modified_secs: Option<u64>,
}

/// One entry of a directory as read from disk.
pub struct DirEntryInfo {
    pub name: String,
    pub path: String,
    /// `None` when the metadata could not be read.
    pub metadata: Option<EntryMetadata>,
}

/// One line of a directory report.
pub struct FileItem {
    pub name: String,
    pub path: String,
    pub is_dir: bool,
    pub size_bytes: u64,
    pub formatted_size: String,
    pub modified_time: String,
}

/// A directory listing with totals.
pub struct DirectoryReport {
    pub target_path: String,
    pub total_files: usize,
    pub total_dirs: usize,
    pub total_bytes: u64,
    pub formatted_total_size: String,
    pub items: Vec<FileItem>,
    pub scan_time_micros: u128,
}

pub open spec fn entry_is_dir(e: DirEntryInfo) -> bool {
    match e.metadata {
        Some(m) => m.is_dir,
        None => false,
    }
}

/// Size counted for an entry: 0 for directories and unreadable entries.
pub open spec fn entry_size(e: DirEntryInfo) -> u64 {
    if entry_is_dir(e) {
        0
    } else {
        match e.metadata {
            Some(m) => m.len,
            None => 0,
        }
    }
}

pub open spec fn entry_modified(e: DirEntryInfo) -> Option<u64> {
    match e.metadata {
        Some(m) => m.modified_secs,
        None => None,
    }
}

/// "Ns atrás" with the seconds past the last whole day, or "Recente" when
/// the time is unknown.
pub open spec fn modified_label(secs: Option<u64>) -> Seq<char> {
    match secs {
        Some(s) => decimal((s % 86400) as nat) + "s atrás"@,
        None => "Recente"@,
    }
}

/// `item` is the report line of entry `e`.
pub open spec fn item_of(item: FileItem, e: DirEntryInfo) -> bool {
    &&& item.name == e.name
    &&& item.path == e.path
    &&& item.is_dir == entry_is_dir(e)
    &&& item.size_bytes == entry_size(e)
    &&& item.formatted_size@ == size_label(entry_size(e), entry_is_dir(e))
    &&& item.modified_time@ == modified_label(entry_modified(e))
}

/// Folders come before files; within each, case-blind names in order.
pub open spec fn key_before(a_dir: bool, a_name: Seq<char>, b_dir: bool, b_name: Seq<char>) -> bool {
    (a_dir && !b_dir) || (a_dir == b_dir && lex_lt(a_name, b_name))
}

/// `a` is listed strictly before `b`.
pub open spec fn item_before(a: FileItem, b: FileItem) -> bool {
    key_before(a.is_dir, spec_to_lowercase(a.name@), b.is_dir, spec_to_lowercase(b.name@))
}

/// Number of entries that are directories.
pub open spec fn count_dirs(es: Seq<DirEntryInfo>) -> nat
    decreases es.len(),
{
    if es.len() == 0 {
        0
    } else {
        count_dirs(es.drop_last()) + if entry_is_dir(es.last()) {
            1nat
        } else {
            0nat
        }
    }
}

/// Sum of the sizes of the entries.
pub open spec fn total_size(es: Seq<DirEntryInfo>) -> nat
    decreases es.len(),
{
    if es.len() == 0 {
        0
    } else {
        total_size(es.drop_last()) + entry_size(es.last()) as nat
    }
}

/// `perm` maps positions `0..n` one to one onto `0..n`.
pub open spec fn is_permutation(perm: Seq<int>, n: nat) -> bool {
    &&& perm.len() == n
    &&& forall|k: int| 0 <= k < n ==> 0 <= #[trigger] perm[k] < n
    &&& forall|a: int, b: int| 0 <= a < b < n ==> perm[a] != perm[b]
}

/// `items` lists the entries `es` in report order: each entry once,
/// folders first, names in case-blind order, ties in reading order.
pub open spec fn sorted_listing(items: Seq<FileItem>, es: Seq<DirEntryInfo>) -> bool {
    exists|perm: Seq<int>|
        {
            &&& is_permutation(perm, es.len())
            &&& items.len() == es.len()
            &&& forall|k: int| 0 <= k < items.len() ==> item_of(#[trigger] items[k], es[perm[k]])
            &&& forall|a: int, b: int|
                0 <= a < b < items.len() ==> !item_before(#[trigger] items[b], #[trigger] items[a])
            &&& forall|a: int, b: int|
                0 <= a < b < items.len() && !item_before(#[trigger] items[a], #[trigger] items[b])
                    ==> perm[a] < perm[b]
        }
}

/// `key_before` is asymmetric.
proof fn lemma_key_asym(ad: bool, an: Seq<char>, bd: bool, bn: Seq<char>)
    ensures
        key_before(ad, an, bd, bn) ==> !key_before(bd, bn, ad, an),
        !key_before(ad, an, ad, an),
{
    lemma_lex_total(an, bn);
    lemma_lex_irreflexive(an);
}

/// If `a` is before `b` and `c` is not before `b`, then `a` is before `c`.
proof fn lemma_key_before_chain(
    ad: bool,
    an: Seq<char>,
    bd: bool,
    bn: Seq<char>,
    cd: bool,
    cn: Seq<char>,
)
    requires
        key_before(ad, an, bd, bn),
        !key_before(cd, cn, bd, bn),
    ensures
        key_before(ad, an, cd, cn),
{
    lemma_lex_total(bn, cn);
    lemma_lex_total(an, cn);
    if ad == bd && bd == cd {
        if bn != cn {
            lemma_lex_transitive(an, bn, cn);
        }
    }
}


/// The "modified" column of a report line.
fn modified_time_label(secs: Option<u64>) -> (label: String)
    ensures
        label@ == modified_label(secs),
{
    match secs {
        Some(t) => {
            let mut label = String::new();
            push_decimal(&mut label, (t % 86400) as u128);
            label.append("s atrás");
            label
        },
        None => String::from_str("Recente"),
    }
}

/// The report line of one directory entry.
pub fn file_item(e: DirEntryInfo) -> (item: FileItem)
    ensures
        item_of(item, e),
{
    let DirEntryInfo { name, path, metadata } = e;
    let (is_dir, size_bytes, modified) = match &metadata {
        Some(m) => (m.is_dir, if m.is_dir {
            0
        } else {
            m.len
        }, m.modified_secs),
        None => (false, 0, None),
    };
    FileItem {
        name,
        path,
        is_dir,
        size_bytes,
        formatted_size: format_size(size_bytes, is_dir),
        modified_time: modified_time_label(modified),
    }
}

/// The sort key kept beside each line while the report is ordered.
struct SortKey {
    is_dir: bool,
    lower: Vec<char>,
}

/// Computes `key_before`.
fn key_less(a_dir: bool, a_name: &Vec<char>, b_dir: bool, b_name: &Vec<char>) -> (r: bool)
    ensures
        r == key_before(a_dir, a_name@, b_dir, b_name@),
{
    if a_dir && !b_dir {
        true
    } else if a_dir == b_dir {
        lex_less(a_name, b_name)
    } else {
        false
    }
}

/// The directory report of `target_path` from its entries: totals of files,
/// folders and bytes, and the lines with folders first, then files, each
/// group in case-blind name order, ties in reading order.
pub fn build_directory_report(
    target_path: String,
    entries: Vec<DirEntryInfo>,
    scan_time_micros: u128,
) -> (r: DirectoryReport)
    requires
        total_size(entries@) <= u64::MAX,
    ensures
        r.target_path == target_path,
        r.scan_time_micros == scan_time_micros,
        r.total_dirs == count_dirs(entries@),
        r.total_files == entries@.len() - count_dirs(entries@),
        r.total_bytes == total_size(entries@),
        r.formatted_total_size@ == size_label(r.total_bytes, false),
        sorted_listing(r.items@, entries@),
{
    let ghost es = entries@;
    let entry_count = entries.len();
    assert(es.len() == entry_count);
    let mut items: Vec<FileItem> = Vec::new();
    let mut keys: Vec<SortKey> = Vec::new();
    let ghost mut perm: Seq<int> = Seq::empty();
    let mut total_files: usize = 0;
    let mut total_dirs: usize = 0;
    let mut total_bytes: u64 = 0;
    let mut i: usize = 0;
    for e in it: entries.into_iter()
        invariant
            it.seq() == es,
            i == it.index(),
            es.len() <= usize::MAX,
            total_size(es) <= u64::MAX,
            items.len() == i,
            keys.len() == i,
            perm.len() == i,
            total_dirs == count_dirs(es.take(i as int)),
            total_files + total_dirs == i,
            total_bytes == total_size(es.take(i as int)),
            forall|k: int|
                0 <= k < i ==> (#[trigger] keys[k]).is_dir == items[k].is_dir && keys[k].lower@
                    == spec_to_lowercase(items[k].name@),
            forall|k: int| 0 <= k < i ==> item_of(#[trigger] items[k], es[perm[k]]),
            is_permutation(perm, i as nat),
            forall|a: int, b: int|
                0 <= a < b < i ==> !item_before(#[trigger] items[b], #[trigger] items[a]),
            forall|a: int, b: int|
                0 <= a < b < i && !item_before(#[trigger] items[a], #[trigger] items[b]) ==> perm[a]
                    < perm[b],
    {
        proof {
            lemma_total_size_prefix(es, i as int);
            assert(es.take(i + 1).drop_last() =~= es.take(i as int));
            assert(es.take(i + 1).last() == e);
        }
        let item = file_item(e);
        if item.is_dir {
            total_dirs = total_dirs + 1;
        } else {
            total_files = total_files + 1;
        }
        total_bytes = total_bytes + item.size_bytes;
        let lower = lowercase_chars(item.name.as_str());
        let dir = item.is_dir;
        let mut pos: usize = 0;
        while pos < items.len() && !key_less(dir, &lower, keys[pos].is_dir, &keys[pos].lower)
            invariant
                pos <= items.len(),
                keys.len() == items.len(),
                dir == item.is_dir,
                lower@ == spec_to_lowercase(item.name@),
                forall|k: int|
                    0 <= k < items.len() ==> (#[trigger] keys[k]).is_dir == items[k].is_dir
                        && keys[k].lower@ == spec_to_lowercase(items[k].name@),
                forall|k: int| 0 <= k < pos ==> !item_before(item, #[trigger] items[k]),
            decreases items.len() - pos,
        {
            pos = pos + 1;
        }
        let ghost old_items = items@;
        let ghost old_keys = keys@;
        let ghost old_perm = perm;
        proof {
            if pos < old_items.len() {
                assert(item_before(item, old_items[pos as int]));
                assert forall|k: int| pos <= k < old_items.len() implies item_before(
                    item,
                    #[trigger] old_items[k],
                ) by {
                    if k > pos {
                        let a = old_items[pos as int];
                        let c = old_items[k];
                        assert(!item_before(c, a));
                        lemma_key_before_chain(
                            item.is_dir,
                            spec_to_lowercase(item.name@),
                            a.is_dir,
                            spec_to_lowercase(a.name@),
                            c.is_dir,
                            spec_to_lowercase(c.name@),
                        );
                    }
                }
            }
        }
        items.insert(pos, item);
        keys.insert(pos, SortKey { is_dir: dir, lower });
        proof {
            perm = old_perm.insert(pos as int, i as int);
            let n = i + 1;
            assert forall|k: int|
                0 <= k < n implies (#[trigger] keys[k]).is_dir == items[k].is_dir && keys[k].lower@
                    == spec_to_lowercase(items[k].name@) by {
                if k < pos {
                    assert(keys[k] == old_keys[k] && items[k] == old_items[k]);
                } else if k > pos {
                    assert(keys[k] == old_keys[k - 1] && items[k] == old_items[k - 1]);
                }
            }
            assert forall|k: int| 0 <= k < n implies item_of(#[trigger] items[k], es[perm[k]]) by {
                if k < pos {
                    assert(items[k] == old_items[k] && perm[k] == old_perm[k]);
                } else if k > pos {
                    assert(items[k] == old_items[k - 1] && perm[k] == old_perm[k - 1]);
                } else {
                    assert(es.take(i + 1).last() == es[i as int]);
                }
            }
            assert forall|k: int| 0 <= k < n implies 0 <= #[trigger] perm[k] < n by {
                if k < pos {
                    assert(perm[k] == old_perm[k]);
                } else if k > pos {
                    assert(perm[k] == old_perm[k - 1]);
                }
            }
            assert forall|a: int, b: int| 0 <= a < b < n implies perm[a] != perm[b] by {
                if a != pos && b != pos {
                    let a0 = if a < pos { a } else { a - 1 };
                    let b0 = if b < pos { b } else { b - 1 };
                    assert(perm[a] == old_perm[a0] && perm[b] == old_perm[b0]);
                } else if a == pos {
                    assert(perm[b] == old_perm[b - 1]);
                } else {
                    let a0 = if a < pos { a } else { a - 1 };
                    assert(perm[a] == old_perm[a0]);
                }
            }
            assert forall|a: int, b: int| 0 <= a < b < n implies !item_before(
                #[trigger] items[b],
                #[trigger] items[a],
            ) by {
                if a != pos && b != pos {
                    let a0 = if a < pos { a } else { a - 1 };
                    let b0 = if b < pos { b } else { b - 1 };
                    assert(items[a] == old_items[a0] && items[b] == old_items[b0]);
                } else if b == pos {
                    assert(items[a] == old_items[a]);
                } else {
                    let b0 = b - 1;
                    assert(items[b] == old_items[b0]);
                    assert(item_before(item, old_items[b0]));
                    lemma_key_asym(
                        item.is_dir,
                        spec_to_lowercase(item.name@),
                        old_items[b0].is_dir,
                        spec_to_lowercase(old_items[b0].name@),
                    );
                }
            }
            assert forall|a: int, b: int|
                0 <= a < b < n && !item_before(#[trigger] items[a], #[trigger] items[b]) implies perm[a]
                    < perm[b] by {
                if a != pos && b != pos {
                    let a0 = if a < pos { a } else { a - 1 };
                    let b0 = if b < pos { b } else { b - 1 };
                    assert(items[a] == old_items[a0] && items[b] == old_items[b0]);
                    assert(perm[a] == old_perm[a0] && perm[b] == old_perm[b0]);
                } else if b == pos {
                    assert(perm[a] == old_perm[a]);
                } else {
                    assert(items[b] == old_items[b - 1]);
                }
            }
        }
        i = i + 1;
    }
    proof {
        assert(es.take(i as int) =~= es);
        assert(sorted_listing(items@, es)) by {
            assert(forall|k: int| 0 <= k < items.len() ==> item_of(#[trigger] items@[k], es[perm[k]]));
        }
    }
    let formatted_total_size = format_size(total_bytes, false);
    DirectoryReport {
        target_path,
        total_files,
        total_dirs,
        total_bytes,
        formatted_total_size,
        items,
        scan_time_micros,
    }
}

/// Sizes of a prefix never exceed those of the whole list.
proof fn lemma_total_size_prefix(es: Seq<DirEntryInfo>, i: int)
    requires
        0 <= i < es.len(),
    ensures
        total_size(es.take(i + 1)) <= total_size(es),
    decreases es.len() - i,
{
    if i + 1 < es.len() {
        lemma_total_size_prefix(es, i + 1);
        assert(es.take(i + 2).drop_last() =~= es.take(i + 1));
    } else {
        assert(es.take(i + 1) =~= es);
    }
}


/// `s` has nothing but whitespace (so trimming it leaves it empty).
pub open spec fn is_blank(s: Seq<char>) -> bool {
    forall|i: int| 0 <= i < s.len() ==> spec_is_whitespace(#[trigger] s[i])
}

/// The directory to list: the given path, or "." when none is given or it
/// is blank.
pub open spec fn target_path_for(path: Option<String>) -> Seq<char> {
    match path {
        Some(p) => if is_blank(p@) {
            "."@
        } else {
            p@
        },
        None => "."@,
    }
}

/// Whether `s` is blank.
fn blank(s: &str) -> (b: bool)
    ensures
        b == is_blank(s@),
{
    for c in it: s.chars()
        invariant
            it.seq() == s@,
            forall|i: int| 0 <= i < it.index() ==> spec_is_whitespace(#[trigger] s@[i]),
    {
        if !char_is_whitespace(c) {
            assert(s@[it.index()] == c);
            return false;
        }
    }
    true
}

/// The directory to list for the requested `path`.
pub fn resolve_target(path: Option<String>) -> (target: String)
    ensures
        target@ == target_path_for(path),
{
    match path {
        Some(p) => {
            if blank(p.as_str()) {
                String::from_str(".")
            } else {
                p
            }
        },
        None => String::from_str("."),
    }
}


/// In a report listing, every folder comes before every file.
pub proof fn lemma_folders_first(items: Seq<FileItem>, es: Seq<DirEntryInfo>)
    requires
        sorted_listing(items, es),
    ensures
        forall|a: int, b: int|
            0 <= a < b < items.len() && #[trigger] items[b].is_dir ==> #[trigger] items[a].is_dir,
{
    assert forall|a: int, b: int|
        0 <= a < b < items.len() && #[trigger] items[b].is_dir implies #[trigger] items[a].is_dir by {
        assert(!item_before(items[b], items[a]));
    }
}

/// The modified label counts the seconds past the last whole day,
/// `secs - (secs / 86400) * 86400`: always below a day, and the time itself
/// when it is less than a day.
pub proof fn lemma_modified_label_seconds(secs: u64)
    ensures
        modified_label(Some(secs)) == decimal((secs - (secs / 86400) * 86400) as nat) + "s atrás"@,
        0 <= secs - (secs / 86400) * 86400 < 86400,
        secs < 86400 ==> modified_label(Some(secs)) == decimal(secs as nat) + "s atrás"@,
        modified_label(None) == "Recente"@,
{
    assert(secs - (secs / 86400) * 86400 == secs % 86400) by (nonlinear_arith);
}

/// A path with a character other than whitespace is listed as given; only
/// a missing path or one that trims to nothing becomes ".".
pub proof fn lemma_target_kept_unless_blank(p: String)
    ensures
        (exists|i: int| 0 <= i < p@.len() && !spec_is_whitespace(#[trigger] p@[i]))
            ==> target_path_for(Some(p)) == p@,
        (forall|i: int| 0 <= i < p@.len() ==> spec_is_whitespace(#[trigger] p@[i]))
            ==> target_path_for(Some(p)) == "."@,
        target_path_for(None) == "."@,
{
}

} // verus!
