//! The results the file operations report: batch checks, the summary
//! messages of encoding and restoring, the names of encoded payloads, the byte
//! size of a file or folder, and the entry names of a folder's zip archive.

use crate::codec::{
    documented_file_name, is_plain_file_name, may_lack_file_name, opt_view, path_file_name,
    starts_with_two_separators,
};
use crate::text::{
    chars_of, decimal, denotes, find_char, first_index, is_white_space, lemma_decimal_denotes,
    lemma_decimal_digits, lemma_decimal_value, lemma_first_index, trim_end, trim_start,
    push_char, push_decimal, push_str, str_eq,
    string_of, trim,
    trim_range,
};
use vstd::prelude::*;

verus! {

/// One encoded file as reported: name, where its text was written, and the
/// size labels of the source and of its Base64.
#[derive(Debug)]
pub struct EncodeItem {
    pub name: String,
    pub temp_path: String,
    pub source_size_label: String,
    pub b64_size_label: String,
}

/// The report of an encoding batch.
#[derive(Debug)]
pub struct EncodeResult {
    pub message: String,
    pub items: Vec<EncodeItem>,
}

/// The report of an operation that writes files.
#[derive(Debug)]
pub struct PathResult {
    pub message: String,
    pub outputs: Vec<String>,
}

/// A batch must name at least one file or folder to encode.
pub fn check_encode_paths(count: usize) -> (r: Result<(), String>)
    ensures
        count == 0 <==> r is Err,
        r matches Err(m) ==> m@ == "Select at least one file or folder."@,
{
    if count == 0 {
        let mut m = String::new();
        push_str(&mut m, "Select at least one file or folder.");
        assert(m@ =~= "Select at least one file or folder."@);
        Err(m)
    } else {
        Ok(())
    }
}

/// A batch must name at least one file to decode.
pub fn check_decode_paths(count: usize) -> (r: Result<(), String>)
    ensures
        count == 0 <==> r is Err,
        r matches Err(m) ==> m@ == "Select at least one file."@,
{
    if count == 0 {
        let mut m = String::new();
        push_str(&mut m, "Select at least one file.");
        assert(m@ =~= "Select at least one file."@);
        Err(m)
    } else {
        Ok(())
    }
}

/// The summary of an encoding batch of `total` inputs that produced `items`.
pub open spec fn encode_message(items: Seq<EncodeItem>, total: nat) -> Seq<char> {
    if items.len() == 1 {
        "Done: 1/"@ + decimal(total) + " encoded · "@ + items[0].name@ + " · src "@
            + items[0].source_size_label@ + " · Base64 "@ + items[0].b64_size_label@
    } else {
        "Done: "@ + decimal(items.len()) + "/"@ + decimal(total) + " encoded · use Copy for each"@
    }
}

/// Reports an encoding batch: the summary message and the items.
pub fn encode_result(items: Vec<EncodeItem>, total: usize) -> (r: EncodeResult)
    ensures
        r.message@ == encode_message(items@, total as nat),
        r.items@ == items@,
{
    let mut m = String::new();
    if items.len() == 1 {
        push_str(&mut m, "Done: 1/");
        push_decimal(&mut m, total as u128);
        push_str(&mut m, " encoded · ");
        push_str(&mut m, items[0].name.as_str());
        push_str(&mut m, " · src ");
        push_str(&mut m, items[0].source_size_label.as_str());
        push_str(&mut m, " · Base64 ");
        push_str(&mut m, items[0].b64_size_label.as_str());
    } else {
        push_str(&mut m, "Done: ");
        push_decimal(&mut m, items.len() as u128);
        push_str(&mut m, "/");
        push_decimal(&mut m, total as u128);
        push_str(&mut m, " encoded · use Copy for each");
    }
    proof {
        assert(m@ =~= encode_message(items@, total as nat));
    }
    EncodeResult { message: m, items }
}

/// The summary of a restoring batch: `ok` of `total` restored, "file" when
/// exactly one output was written and "files" otherwise.
pub open spec fn restore_message(ok: nat, total: nat, outputs: nat) -> Seq<char> {
    "Done: "@ + decimal(ok) + "/"@ + decimal(total) + if outputs == 1 {
        " file restored"@
    } else {
        " files restored"@
    }
}

/// Reports a restoring batch of `total` inputs that wrote `outputs`, `ok` of
/// them restored.
pub fn restore_result(outputs: Vec<String>, ok: usize, total: usize) -> (r: PathResult)
    ensures
        r.message@ == restore_message(ok as nat, total as nat, outputs@.len()),
        r.outputs@ == outputs@,
{
    let mut m = String::new();
    push_str(&mut m, "Done: ");
    push_decimal(&mut m, ok as u128);
    push_str(&mut m, "/");
    push_decimal(&mut m, total as u128);
    if outputs.len() == 1 {
        push_str(&mut m, " file restored");
    } else {
        push_str(&mut m, " files restored");
    }
    proof {
        assert(m@ =~= restore_message(ok as nat, total as nat, outputs@.len()));
    }
    PathResult { message: m, outputs }
}

/// What a path turned out to be when it was inspected.
#[derive(Debug)]
pub enum PathKind {
    File,
    Directory,
    Other,
}

/// The name under which the content at `path` is encoded, given the final
/// component of the path (`file_name`): a folder becomes `<name>.zip`, a file
/// keeps its name (or `unknown` without one); anything else is refused.
pub open spec fn payload_name_outcome(
    path: Seq<char>,
    kind: PathKind,
    file_name: Option<Seq<char>>,
) -> Result<Seq<char>, Seq<char>> {
    match kind {
        PathKind::Directory => match file_name {
            Some(n) => Ok(n + ".zip"@),
            None => Err("Invalid directory name: "@ + path),
        },
        PathKind::File => match file_name {
            Some(n) => Ok(n),
            None => Ok("unknown"@),
        },
        PathKind::Other => Err("Not a file or directory: "@ + path),
    }
}

/// The view of a string result.
pub open spec fn result_view(r: Result<String, String>) -> Result<Seq<char>, Seq<char>> {
    match r {
        Ok(s) => Ok(s@),
        Err(e) => Err(e@),
    }
}

/// The encoded name for `path`, given the final component of the path.
pub fn payload_name_from(path: &str, kind: PathKind, file_name: Option<String>) -> (r: Result<
    String,
    String,
>)
    ensures
        result_view(r) == payload_name_outcome(path@, kind, opt_view(file_name)),
{
    match kind {
        PathKind::Directory => match file_name {
            Some(n) => {
                let mut s = n;
                push_str(&mut s, ".zip");
                Ok(s)
            },
            None => {
                let mut s = String::new();
                push_str(&mut s, "Invalid directory name: ");
                push_str(&mut s, path);
                assert(s@ =~= "Invalid directory name: "@ + path@);
                Err(s)
            },
        },
        PathKind::File => match file_name {
            Some(n) => Ok(n),
            None => {
                let mut s = String::new();
                push_str(&mut s, "unknown");
                assert(s@ =~= "unknown"@);
                Ok(s)
            },
        },
        PathKind::Other => {
            let mut s = String::new();
            push_str(&mut s, "Not a file or directory: ");
            push_str(&mut s, path);
            assert(s@ =~= "Not a file or directory: "@ + path@);
            Err(s)
        },
    }
}

/// The name under which the content at `path` is encoded. It is the
/// outcome for some final component of `path`, the documented one where
/// there is one; unless `path` starts with two separators, a name it gives
/// is free of `/`.
pub fn payload_name(path: &str, kind: PathKind) -> (r: Result<String, String>)
    ensures
        documented_file_name(path@) is Some ==> result_view(r) == payload_name_outcome(
            path@,
            kind,
            documented_file_name(path@).unwrap(),
        ),
        exists|f: Option<Seq<char>>| result_view(r) == #[trigger] payload_name_outcome(path@, kind, f),
        kind is Other ==> result_view(r) == payload_name_outcome(path@, kind, None),
        !may_lack_file_name(path@) ==> exists|f: Seq<char>|
            is_plain_file_name(f) && result_view(r) == #[trigger] payload_name_outcome(
                path@,
                kind,
                Some(f),
            ),
        r matches Ok(n) ==> (!starts_with_two_separators(path@) ==> forall|i: int|
            0 <= i < n@.len() ==> #[trigger] n@[i] != '/'),
{
    let file_name = path_file_name(path);
    let r = payload_name_from(path, kind, file_name);
    proof {
        assert(result_view(r) == payload_name_outcome(path@, kind, opt_view(file_name)));
        if r is Ok && !starts_with_two_separators(path@) {
            let n = r.unwrap()@;
            assert forall|i: int| 0 <= i < n.len() implies #[trigger] n[i] != '/' by {
                if file_name is Some {
                    let f = file_name.unwrap()@;
                    if kind is Directory && i >= f.len() {
                        assert(n[i] == ".zip"@[i - f.len()]);
                        reveal_strlit(".zip");
                    } else {
                        assert(n[i] == f[i]);
                    }
                } else {
                    reveal_strlit("unknown");
                }
            }
        }
    }
    r
}

/// What was measured of a path: a file's length, the lengths of the files in
/// a folder (at any depth), or neither.
#[derive(Debug)]
pub enum PathStat {
    File(u64),
    Directory(Vec<u64>),
    Other,
}

/// The sum of `sizes`.
pub open spec fn total(sizes: Seq<u64>) -> nat
    decreases sizes.len(),
{
    if sizes.len() == 0 {
        0
    } else {
        total(sizes.drop_last()) + (sizes.last() as nat)
    }
}

/// Whether the sum of `sizes` fits in a `u64`.
pub fn sizes_fit(sizes: &Vec<u64>) -> (r: bool)
    ensures
        r == (total(sizes@) <= u64::MAX),
{
    let mut sum: u64 = 0;
    let mut i: usize = 0;
    while i < sizes.len()
        invariant
            i <= sizes@.len(),
            sum == total(sizes@.take(i as int)),
        decreases sizes@.len() - i,
    {
        assert(sizes@.take(i + 1).drop_last() =~= sizes@.take(i as int));
        if sizes[i] > u64::MAX - sum {
            proof {
                lemma_total_prefix_le(sizes@, i + 1);
            }
            return false;
        }
        sum = sum + sizes[i];
        i = i + 1;
    }
    assert(sizes@.take(sizes@.len() as int) =~= sizes@);
    true
}

/// A prefix sums to no more than the whole.
proof fn lemma_total_prefix_le(s: Seq<u64>, k: int)
    requires
        0 <= k <= s.len(),
    ensures
        total(s.take(k)) <= total(s),
    decreases s.len() - k,
{
    if k < s.len() {
        lemma_total_prefix_le(s, k + 1);
        assert(s.take(k + 1).drop_last() =~= s.take(k));
    } else {
        assert(s.take(k) =~= s);
    }
}

/// The sum of `sizes`, which must fit in a `u64`.
pub fn sum_sizes(sizes: &Vec<u64>) -> (sum: u64)
    requires
        total(sizes@) <= u64::MAX,
    ensures
        sum == total(sizes@),
{
    let mut sum: u64 = 0;
    let mut i: usize = 0;
    while i < sizes.len()
        invariant
            i <= sizes@.len(),
            sum == total(sizes@.take(i as int)),
            total(sizes@) <= u64::MAX,
        decreases sizes@.len() - i,
    {
        assert(sizes@.take(i + 1).drop_last() =~= sizes@.take(i as int));
        proof {
            lemma_total_prefix_le(sizes@, i + 1);
        }
        sum = sum + sizes[i];
        i = i + 1;
    }
    assert(sizes@.take(sizes@.len() as int) =~= sizes@);
    sum
}

/// The byte size of a path: a file's length, the total length of a folder's
/// files, or an error naming the path.
pub fn path_byte_size(path: &str, stat: &PathStat) -> (r: Result<u64, String>)
    requires
        stat matches PathStat::Directory(sizes) ==> total(sizes@) <= u64::MAX,
    ensures
        stat matches PathStat::File(n) ==> r == Ok::<u64, String>(*n),
        stat matches PathStat::Directory(sizes) ==> r matches Ok(n) && n == total(sizes@),
        stat matches PathStat::Other ==> r matches Err(e) && e@ == "Not a file or directory: "@
            + path@,
{
    match stat {
        PathStat::File(n) => Ok(*n),
        PathStat::Directory(sizes) => Ok(sum_sizes(sizes)),
        PathStat::Other => {
            let mut s = String::new();
            push_str(&mut s, "Not a file or directory: ");
            push_str(&mut s, path);
            assert(s@ =~= "Not a file or directory: "@ + path@);
            Err(s)
        },
    }
}

/// The components of an archive entry joined with `/`.
pub open spec fn joined(parts: Seq<Seq<char>>) -> Seq<char>
    decreases parts.len(),
{
    if parts.len() == 0 {
        seq![]
    } else if parts.len() == 1 {
        parts[0]
    } else {
        joined(parts.drop_last()) + seq!['/'] + parts.last()
    }
}

/// The name of a zip entry with the given path components: joined with `/`,
/// and for a folder ending in `/`.
pub open spec fn zip_entry(parts: Seq<Seq<char>>, is_dir: bool) -> Seq<char> {
    let j = joined(parts);
    if is_dir && !(j.len() > 0 && j.last() == '/') {
        j.push('/')
    } else {
        j
    }
}

/// The zip entry name for a file or folder inside the archived folder,
/// given the components of its path from the archive root.
pub fn zip_entry_name(components: &Vec<String>, is_dir: bool) -> (name: String)
    ensures
        name@ == zip_entry(components.deep_view(), is_dir),
{
    let ghost parts = components.deep_view();
    let mut s = String::new();
    let mut i: usize = 0;
    while i < components.len()
        invariant
            i <= components@.len(),
            parts == components.deep_view(),
            s@ == joined(parts.take(i as int)),
        decreases components@.len() - i,
    {
        assert(parts.take(i + 1).drop_last() =~= parts.take(i as int));
        if i > 0 {
            push_char(&mut s, '/');
        }
        push_str(&mut s, components[i].as_str());
        proof {
            if i == 0 {
                assert(s@ =~= parts.take(1)[0]);
            } else {
                assert(s@ =~= joined(parts.take(i as int)) + seq!['/'] + parts.take(i + 1).last());
            }
        }
        i = i + 1;
    }
    assert(parts.take(components@.len() as int) =~= parts);
    let cs = chars_of(s.as_str());
    let ends_with_slash = cs.len() > 0 && cs[cs.len() - 1] == '/';
    if is_dir && !ends_with_slash {
        push_char(&mut s, '/');
    }
    s
}


/// The first line of `t` (up to its first line break).
pub open spec fn first_line(t: Seq<char>) -> Seq<char> {
    match first_index(t, '\n') {
        Some(i) => t.subrange(0, i),
        None => t,
    }
}

/// What copying a text file to the clipboard reports: the trimmed first line
/// of the text (an encoded file's name) when it is not empty, otherwise the
/// file's name (`file_name`), otherwise `output`.
pub open spec fn copy_message(text: Seq<char>, file_name: Option<Seq<char>>) -> Seq<char> {
    let label = if trim(first_line(text)).len() > 0 {
        trim(first_line(text))
    } else {
        match file_name {
            Some(n) => n,
            None => "output"@,
        }
    };
    "Copied "@ + label + " to clipboard"@
}

/// The report of copying `text` to the clipboard, given the final component
/// of the file's path.
pub fn copy_message_from(text: &str, file_name: Option<String>) -> (m: String)
    ensures
        m@ == copy_message(text@, opt_view(file_name)),
{
    let v = chars_of(text);
    let len = v.len();
    assert(v@.subrange(0, len as int) =~= v@);
    let end = match find_char(&v, 0, len, '\n') {
        Some(i) => i,
        None => len,
    };
    let (a, e) = trim_range(&v, 0, end);
    let label = if a < e {
        string_of(&v, a, e)
    } else {
        match file_name {
            Some(n) => n,
            None => {
                let mut s = String::new();
                push_str(&mut s, "output");
                assert(s@ =~= "output"@);
                s
            },
        }
    };
    let mut m = String::new();
    push_str(&mut m, "Copied ");
    push_str(&mut m, label.as_str());
    push_str(&mut m, " to clipboard");
    assert(m@ =~= copy_message(text@, opt_view(file_name)));
    m
}

/// The report of copying `text`, read from the file at `path`, to the
/// clipboard: the report for some final component of `path`, the documented
/// one where there is one.
pub fn copy_text_message(text: &str, path: &str) -> (m: String)
    ensures
        documented_file_name(path@) is Some ==> m@ == copy_message(
            text@,
            documented_file_name(path@).unwrap(),
        ),
        exists|f: Option<Seq<char>>| m@ == #[trigger] copy_message(text@, f),
        !may_lack_file_name(path@) ==> exists|f: Seq<char>|
            is_plain_file_name(f) && m@ == #[trigger] copy_message(text@, Some(f)),
{
    let file_name = path_file_name(path);
    let m = copy_message_from(text, file_name);
    assert(m@ == copy_message(text@, opt_view(file_name)));
    m
}


/// Adding a file to a folder adds its length to the folder's size, wherever
/// the walk lists it.
pub proof fn lemma_total_insert(sizes: Seq<u64>, i: int, len: u64)
    requires
        0 <= i <= sizes.len(),
    ensures
        total(sizes.insert(i, len)) == total(sizes) + len,
    decreases sizes.len(),
{
    if i == sizes.len() {
        assert(sizes.insert(i, len).drop_last() =~= sizes);
    } else {
        lemma_total_insert(sizes.drop_last(), i, len);
        assert(sizes.insert(i, len).drop_last() =~= sizes.drop_last().insert(i, len));
    }
}

/// An error message located at `path`: the path, a colon, the message.
pub fn located_error(path: &str, message: &str) -> (m: String)
    ensures
        m@ == path@ + ": "@ + message@,
{
    let mut m = String::new();
    push_str(&mut m, path);
    push_str(&mut m, ": ");
    push_str(&mut m, message);
    assert(m@ =~= path@ + ": "@ + message@);
    m
}

/// The name of the text file holding the `n`-th encoded file of a batch:
/// `base64-<n>.txt`.
pub fn encoded_file_name(n: usize) -> (name: String)
    ensures
        name@ == "base64-"@ + decimal(n as nat) + ".txt"@,
        exists|d: Seq<char>| #[trigger] denotes(d, n as nat) && name@ == "base64-"@ + d + ".txt"@,
{
    proof {
        lemma_decimal_denotes(n as nat);
    }
    let mut m = String::new();
    push_str(&mut m, "base64-");
    push_decimal(&mut m, n as u128);
    push_str(&mut m, ".txt");
    assert(m@ =~= "base64-"@ + decimal(n as nat) + ".txt"@);
    m
}

/// A folder to archive must be a directory.
pub fn check_zip_source(path: &str, is_dir: bool) -> (r: Result<(), String>)
    ensures
        is_dir <==> r is Ok,
        r matches Err(m) ==> m@ == path@ + " is not a directory."@,
{
    if is_dir {
        Ok(())
    } else {
        let mut m = String::new();
        push_str(&mut m, path);
        push_str(&mut m, " is not a directory.");
        assert(m@ =~= path@ + " is not a directory."@);
        Err(m)
    }
}

/// The folder's own name, which roots the entries of its archive, given the
/// final component of its path.
pub fn zip_folder_name_from(path: &str, file_name: Option<String>) -> (r: Result<String, String>)
    ensures
        file_name matches Some(n) ==> r == Ok::<String, String>(n),
        file_name is None ==> (r matches Err(m) && m@ == "Invalid directory name: "@ + path@),
{
    match file_name {
        Some(n) => Ok(n),
        None => {
            let mut m = String::new();
            push_str(&mut m, "Invalid directory name: ");
            push_str(&mut m, path);
            assert(m@ =~= "Invalid directory name: "@ + path@);
            Err(m)
        },
    }
}

/// The folder's own name, which roots the entries of its archive: the final
/// component of `path` (the documented one where there is one), or the
/// "invalid name" error where it has none. Unless `path` starts with two
/// separators, the name is free of `/`.
pub fn zip_folder_name(path: &str) -> (r: Result<String, String>)
    ensures
        documented_file_name(path@) matches Some(Some(n)) ==> (r matches Ok(f) && f@ == n),
        documented_file_name(path@) matches Some(None) ==> (r matches Err(m) && m@
            == "Invalid directory name: "@ + path@),
        r matches Err(m) ==> m@ == "Invalid directory name: "@ + path@,
        !may_lack_file_name(path@) ==> (r matches Ok(f) && is_plain_file_name(f@)),
        r matches Ok(f) ==> (!starts_with_two_separators(path@) ==> forall|i: int|
            0 <= i < f@.len() ==> #[trigger] f@[i] != '/'),
{
    zip_folder_name_from(path, path_file_name(path))
}


/// A path, as its components, lies inside the folder with components `base`:
/// it extends `base` by at least one component, and none of the added
/// components is `..`, which would lead back out.
pub open spec fn is_inside(path: Seq<Seq<char>>, base: Seq<Seq<char>>) -> bool {
    &&& base.len() < path.len()
    &&& forall|i: int| 0 <= i < base.len() ==> path[i] == base[i]
    &&& forall|i: int| base.len() <= i < path.len() ==> path[i] != ".."@
}

/// The components' texts.
pub open spec fn component_texts(v: Seq<String>) -> Seq<Seq<char>> {
    v.map_values(|s: String| s@)
}

/// Whether the path with components `path` lies inside the folder with
/// components `base`; only such a path may be removed as a pasted temporary
/// file.
pub fn is_inside_dir(path: &Vec<String>, base: &Vec<String>) -> (r: bool)
    ensures
        r == is_inside(component_texts(path@), component_texts(base@)),
{
    let n = path.len();
    let k = base.len();
    if k >= n {
        return false;
    }
    let mut i: usize = 0;
    while i < k
        invariant
            k == base@.len() < n == path@.len(),
            i <= k,
            forall|j: int| 0 <= j < i ==> path@[j]@ == base@[j]@,
        decreases k - i,
    {
        if !str_eq(path[i].as_str(), base[i].as_str()) {
            assert(component_texts(path@)[i as int] != component_texts(base@)[i as int]);
            return false;
        }
        i = i + 1;
    }
    while i < n
        invariant
            k == base@.len() < n == path@.len(),
            k <= i <= n,
            forall|j: int| 0 <= j < k ==> path@[j]@ == base@[j]@,
            forall|j: int| k <= j < i ==> path@[j]@ != ".."@,
        decreases n - i,
    {
        if str_eq(path[i].as_str(), "..") {
            assert(component_texts(path@)[i as int] == ".."@);
            return false;
        }
        i = i + 1;
    }
    true
}


/// The name of the folder that holds one encoding run: the process id and
/// the time stamp as numerals, joined by `-`.
pub open spec fn batch_dir_name_of(pid: nat, stamp: nat) -> Seq<char> {
    decimal(pid) + "-"@ + decimal(stamp)
}

/// The name of the folder for an encoding run of process `pid` started at
/// `nanos` nanoseconds after the epoch.
pub fn batch_dir_name(pid: u32, nanos: u128) -> (name: String)
    ensures
        name@ == batch_dir_name_of(pid as nat, nanos as nat),
{
    let mut m = String::new();
    push_decimal(&mut m, pid as u128);
    push_str(&mut m, "-");
    push_decimal(&mut m, nanos);
    assert(m@ =~= batch_dir_name_of(pid as nat, nanos as nat));
    m
}

/// Runs never share a folder: different processes, or runs of one process at
/// different times, get different folder names.
pub proof fn lemma_batch_dir_names_distinct(p1: nat, s1: nat, p2: nat, s2: nat)
    requires
        p1 != p2 || s1 != s2,
    ensures
        batch_dir_name_of(p1, s1) != batch_dir_name_of(p2, s2),
{
    let x = batch_dir_name_of(p1, s1);
    let y = batch_dir_name_of(p2, s2);
    let a = decimal(p1).len() as int;
    let b = decimal(p2).len() as int;
    if x == y {
        lemma_decimal_digits(p1);
        lemma_decimal_digits(p2);
        reveal_strlit("-");
        assert(x[a] == '-');
        assert(y[b] == '-');
        if a < b {
            assert(y[a] == decimal(p2)[a]);
        } else if b < a {
            assert(x[b] == decimal(p1)[b]);
        }
        assert(a == b);
        assert(decimal(p1) =~= x.subrange(0, a));
        assert(decimal(p2) =~= y.subrange(0, a));
        assert(decimal(s1) =~= x.subrange(a + 1, x.len() as int));
        assert(decimal(s2) =~= y.subrange(a + 1, y.len() as int));
        lemma_decimal_value(p1);
        lemma_decimal_value(p2);
        lemma_decimal_value(s1);
        lemma_decimal_value(s2);
    }
}

/// The temporary archive of a folder being encoded, for process `pid` at
/// `millis` milliseconds after the epoch.
pub fn zip_temp_name(pid: u32, millis: u128) -> (name: String)
    ensures
        name@ == "file-tools-zip-"@ + decimal(pid as nat) + "-"@ + decimal(millis as nat) + ".zip"@,
        exists|d1: Seq<char>, d2: Seq<char>|
            #![trigger denotes(d1, pid as nat), denotes(d2, millis as nat)]
            denotes(d1, pid as nat) && denotes(d2, millis as nat) && name@ == "file-tools-zip-"@ + d1
                + "-"@ + d2 + ".zip"@,
{
    proof {
        lemma_decimal_denotes(pid as nat);
        lemma_decimal_denotes(millis as nat);
    }
    let mut m = String::new();
    push_str(&mut m, "file-tools-zip-");
    push_decimal(&mut m, pid as u128);
    push_str(&mut m, "-");
    push_decimal(&mut m, millis);
    push_str(&mut m, ".zip");
    assert(m@ =~= "file-tools-zip-"@ + decimal(pid as nat) + "-"@ + decimal(millis as nat)
        + ".zip"@);
    m
}

/// The temporary file holding a pasted text, pasted at `millis`
/// milliseconds after the epoch.
pub fn paste_temp_name(millis: u128) -> (name: String)
    ensures
        name@ == "paste-"@ + decimal(millis as nat) + ".txt"@,
        exists|d: Seq<char>| #[trigger] denotes(d, millis as nat) && name@ == "paste-"@ + d + ".txt"@,
{
    proof {
        lemma_decimal_denotes(millis as nat);
    }
    let mut m = String::new();
    push_str(&mut m, "paste-");
    push_decimal(&mut m, millis);
    push_str(&mut m, ".txt");
    assert(m@ =~= "paste-"@ + decimal(millis as nat) + ".txt"@);
    m
}


/// The restore report gives the number restored and the number of inputs as
/// their decimal numerals, for every count: `Done: <ok>/<total>` and then
/// `file restored` for one written file, `files restored` otherwise.
pub proof fn lemma_restore_report_counts(ok: nat, total: nat, outputs: nat)
    ensures
        exists|d1: Seq<char>, d2: Seq<char>|
            #![trigger denotes(d1, ok), denotes(d2, total)]
            denotes(d1, ok) && denotes(d2, total) && restore_message(ok, total, outputs) == "Done: "@
                + d1 + "/"@ + d2 + if outputs == 1 {
                " file restored"@
            } else {
                " files restored"@
            },
{
    lemma_decimal_denotes(ok);
    lemma_decimal_denotes(total);
}

/// The encoding report gives the counts as decimal numerals: for several
/// items, `Done: <items>/<total> encoded · use Copy for each`; for one item,
/// `Done: 1/<total> encoded · ` and its name and size labels.
pub proof fn lemma_encode_report_counts(items: Seq<EncodeItem>, total: nat)
    ensures
        items.len() != 1 ==> exists|d1: Seq<char>, d2: Seq<char>|
            #![trigger denotes(d1, items.len()), denotes(d2, total)]
            denotes(d1, items.len()) && denotes(d2, total) && encode_message(items, total) == "Done: "@
                + d1 + "/"@ + d2 + " encoded · use Copy for each"@,
        items.len() == 1 ==> exists|d: Seq<char>|
            #[trigger] denotes(d, total) && encode_message(items, total) == "Done: 1/"@ + d
                + " encoded · "@ + items[0].name@ + " · src "@ + items[0].source_size_label@
                + " · Base64 "@ + items[0].b64_size_label@,
{
    lemma_decimal_denotes(items.len());
    lemma_decimal_denotes(total);
}

/// A folder is encoded under its whole name followed by `.zip`, every
/// character kept, dots included; a file under its name unchanged.
pub proof fn lemma_payload_keeps_name(path: Seq<char>, n: Seq<char>)
    ensures
        payload_name_outcome(path, PathKind::Directory, Some(n)) matches Ok(s) && s.len() == n.len()
            + 4 && s.subrange(0, n.len() as int) == n && s.subrange(n.len() as int, s.len() as int)
            == ".zip"@,
        payload_name_outcome(path, PathKind::File, Some(n)) == Ok::<Seq<char>, Seq<char>>(n),
{
    let s = n + ".zip"@;
    reveal_strlit(".zip");
    assert(s.subrange(0, n.len() as int) =~= n);
    assert(s.subrange(n.len() as int, s.len() as int) =~= ".zip"@);
}

/// Folders with different names are encoded under different names.
pub proof fn lemma_folder_payload_names_distinct(p1: Seq<char>, n1: Seq<char>, p2: Seq<char>, n2: Seq<char>)
    requires
        n1 != n2,
    ensures
        payload_name_outcome(p1, PathKind::Directory, Some(n1)) != payload_name_outcome(
            p2,
            PathKind::Directory,
            Some(n2),
        ),
{
    lemma_payload_keeps_name(p1, n1);
    lemma_payload_keeps_name(p2, n2);
}

/// Where a text's `trim_start` begins, and that what it skips is whitespace.
proof fn lemma_trim_start_at(s: Seq<char>) -> (i: int)
    ensures
        0 <= i <= s.len(),
        trim_start(s) == s.subrange(i, s.len() as int),
        forall|q: int| 0 <= q < i ==> is_white_space(#[trigger] s[q]),
        i < s.len() ==> !is_white_space(s[i]),
    decreases s.len(),
{
    if s.len() > 0 && is_white_space(s[0]) {
        let t = s.drop_first();
        let k = lemma_trim_start_at(t);
        assert(t.subrange(k, t.len() as int) =~= s.subrange(k + 1, s.len() as int));
        assert forall|q: int| 0 <= q < k + 1 implies is_white_space(#[trigger] s[q]) by {
            if q > 0 {
                assert(s[q] == t[q - 1]);
            }
        }
        k + 1
    } else {
        assert(s.subrange(0, s.len() as int) =~= s);
        0
    }
}

/// Where a text's `trim_end` ends, and that what it drops is whitespace.
proof fn lemma_trim_end_at(s: Seq<char>) -> (j: int)
    ensures
        0 <= j <= s.len(),
        trim_end(s) == s.subrange(0, j),
        forall|q: int| j <= q < s.len() ==> is_white_space(#[trigger] s[q]),
        j > 0 ==> !is_white_space(s[j - 1]),
    decreases s.len(),
{
    if s.len() > 0 && is_white_space(s.last()) {
        let t = s.drop_last();
        let k = lemma_trim_end_at(t);
        assert(t.subrange(0, k) =~= s.subrange(0, k));
        assert forall|q: int| k <= q < s.len() implies is_white_space(#[trigger] s[q]) by {
            if q < t.len() {
                assert(s[q] == t[q]);
            }
        }
        k
    } else {
        assert(s.subrange(0, s.len() as int) =~= s);
        s.len() as int
    }
}

/// The copy report names the whole first line of the text (up to the first
/// line break, or all of it), with only its surrounding whitespace removed:
/// inner spaces are kept. Here the line is `text[..k]` and holds something
/// other than whitespace.
pub proof fn lemma_copy_report_names_first_line(
    text: Seq<char>,
    file_name: Option<Seq<char>>,
    k: int,
)
    requires
        0 <= k <= text.len(),
        forall|q: int| 0 <= q < k ==> text[q] != '\n',
        k == text.len() || text[k] == '\n',
        exists|q: int| 0 <= q < k && !is_white_space(#[trigger] text[q]),
    ensures
        exists|i: int, j: int|
            #![trigger text.subrange(i, j)]
            0 <= i < j <= k && (forall|q: int| 0 <= q < i ==> is_white_space(#[trigger] text[q]))
                && (forall|q: int| j <= q < k ==> is_white_space(#[trigger] text[q]))
                && !is_white_space(text[i]) && !is_white_space(text[j - 1]) && copy_message(
                text,
                file_name,
            ) == "Copied "@ + text.subrange(i, j) + " to clipboard"@,
{
    let line = text.subrange(0, k);
    if k < text.len() {
        lemma_first_index(text, '\n', k);
    } else {
        reveal(first_index);
        assert(line =~= text);
    }
    assert(first_line(text) == line);
    let i = lemma_trim_start_at(line);
    let w = q_witness(text, k);
    if i == line.len() {
        assert(is_white_space(line[w]));
    }
    let t = line.subrange(i, line.len() as int);
    let j0 = lemma_trim_end_at(t);
    assert(!is_white_space(t[0]));
    if j0 == 0 {
        assert(is_white_space(t[0]));
    }
    let j = i + j0;
    reveal(trim);
    assert(trim(line) == t.subrange(0, j0));
    assert(t.subrange(0, j0) =~= text.subrange(i, j));
    assert forall|q: int| 0 <= q < i implies is_white_space(#[trigger] text[q]) by {
        assert(text[q] == line[q]);
    }
    assert forall|q: int| j <= q < k implies is_white_space(#[trigger] text[q]) by {
        assert(text[q] == t[q - i]);
    }
    assert(text[i] == t[0]);
    assert(text[j - 1] == t[j0 - 1]);
    assert(trim(first_line(text)).len() > 0);
    assert(copy_message(text, file_name) == "Copied "@ + text.subrange(i, j) + " to clipboard"@);
}

/// When the first line of the text (`text[..k]`) is blank, the copy report
/// names the file instead, or `output` when there is no file name.
pub proof fn lemma_copy_report_falls_back(text: Seq<char>, file_name: Option<Seq<char>>, k: int)
    requires
        0 <= k <= text.len(),
        forall|q: int| 0 <= q < k ==> text[q] != '\n',
        k == text.len() || text[k] == '\n',
        forall|q: int| 0 <= q < k ==> is_white_space(#[trigger] text[q]),
    ensures
        copy_message(text, file_name) == "Copied "@ + (match file_name {
            Some(n) => n,
            None => "output"@,
        }) + " to clipboard"@,
{
    let line = text.subrange(0, k);
    if k < text.len() {
        lemma_first_index(text, '\n', k);
    } else {
        reveal(first_index);
        assert(line =~= text);
    }
    assert(first_line(text) == line);
    let i = lemma_trim_start_at(line);
    if i < line.len() {
        assert(is_white_space(line[i]));
    }
    reveal(trim);
    assert(trim_start(line).len() == 0);
    assert(trim(first_line(text)).len() == 0);
}

/// A position in `text[..k]` that is not whitespace.
proof fn q_witness(text: Seq<char>, k: int) -> (q: int)
    requires
        exists|q: int| 0 <= q < k && !is_white_space(#[trigger] text[q]),
    ensures
        0 <= q < k && !is_white_space(text[q]),
{
    choose|q: int| 0 <= q < k && !is_white_space(#[trigger] text[q])
}


/// Joined components read, from the left, the first component and a `/`,
/// and, from the right, a `/` and the last component.
pub proof fn lemma_joined_ends(parts: Seq<Seq<char>>)
    requires
        parts.len() >= 2,
    ensures
        joined(parts).len() > parts[0].len() + parts.last().len(),
        joined(parts).subrange(0, parts[0].len() as int) == parts[0],
        joined(parts)[parts[0].len() as int] == '/',
        joined(parts).subrange(
            joined(parts).len() - parts.last().len() - 1,
            joined(parts).len() as int,
        ) == seq!['/'] + parts.last(),
    decreases parts.len(),
{
    let d = parts.drop_last();
    let j = joined(parts);
    assert(j == joined(d) + seq!['/'] + parts.last());
    if parts.len() == 2 {
        assert(joined(d) == parts[0]);
    } else {
        lemma_joined_ends(d);
        assert(d[0] == parts[0]);
        assert(j.subrange(0, parts[0].len() as int) =~= joined(d).subrange(0, parts[0].len() as int));
        assert(j[parts[0].len() as int] == joined(d)[parts[0].len() as int]);
    }
    assert(j.subrange(j.len() - parts.last().len() - 1, j.len() as int) =~= seq!['/'] + parts.last());
}

/// A folder's archive entry ends in `/`; a file's entry is its components
/// joined, and a single component stands alone.
pub proof fn lemma_zip_entry_shape(parts: Seq<Seq<char>>, is_dir: bool)
    ensures
        is_dir ==> zip_entry(parts, is_dir).len() > 0 && zip_entry(parts, is_dir).last() == '/',
        !is_dir ==> zip_entry(parts, is_dir) == joined(parts),
        parts.len() == 1 && !is_dir ==> zip_entry(parts, is_dir) == parts[0],
{
}

/// A file directly in the folder is inside it, unless its name is `..`;
/// the folder itself is not inside itself; and a path that takes a `..`
/// step after the folder is not inside it.
pub proof fn lemma_inside_laws(base: Seq<Seq<char>>, name: Seq<char>, path: Seq<Seq<char>>, i: int)
    ensures
        name != ".."@ ==> is_inside(base.push(name), base),
        !is_inside(base, base),
        base.len() <= i < path.len() && path[i] == ".."@ ==> !is_inside(path, base),
{
    let p = base.push(name);
    assert forall|q: int| 0 <= q < base.len() implies p[q] == base[q] by {}
}

} // verus!
